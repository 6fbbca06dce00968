use maat_ring::InMemoryRingBuffer;
use maat_ring::Serializable;

#[derive(Hash, Eq, PartialEq)]
struct TestData {
    content: String,
}

impl Serializable for TestData {
    fn serialize(&self) -> String {
        self.content.clone()
    }
}

impl TestData {
    fn new(content: String) -> TestData {
        TestData { content }
    }
}

impl Clone for TestData {
    fn clone(&self) -> Self {
        TestData::new(self.content.clone())
    }
}

#[test]
fn given_ring_buffer_when_adding_new_item_then_item_was_added_to_the_correct_index() {
    // Given
    let mut ring_buffer: InMemoryRingBuffer<TestData> = InMemoryRingBuffer::new(1000);

    let data = TestData::new(String::from("I'm good"));

    // When
    ring_buffer.add(data.clone());

    // Then
    let hash = ring_buffer.hash_of(&data);
    let found_data = ring_buffer.find_nearest(hash).unwrap();
    assert!(found_data.contains(&data));
}

#[test]
fn given_ring_buffer_when_adding_same_item_twice_then_item_was_added_to_the_correct_index() {
    // Given
    let mut ring_buffer: InMemoryRingBuffer<TestData> = InMemoryRingBuffer::new(1000);

    let data = TestData::new(String::from("I'm good"));

    // When
    ring_buffer.add(data.clone());
    ring_buffer.add(data.clone());

    // Then
    let hash = ring_buffer.hash_of(&data);
    let found_data = ring_buffer.find_nearest(hash).unwrap();
    assert_eq!(found_data.len(), 1);
    assert!(found_data.contains(&data));
}

#[test]
fn given_ring_buffer_when_adding_item_and_then_remove_it_then_item_was_removed_correctly() {
    // Given
    let mut ring_buffer: InMemoryRingBuffer<TestData> = InMemoryRingBuffer::new(1000);

    let data = TestData::new(String::from("To be deleted"));
    ring_buffer.add(data.clone());

    // When
    ring_buffer.remove(&data);

    // Then
    let hash = ring_buffer.hash_of(&data);
    let found_data = ring_buffer.find_nearest(hash);
    assert!(found_data.is_none())
}

#[test]
fn given_ring_buffer_when_adding_items_and_then_find_nearest_then_item_was_find_correctly() {
    // Given
    let mut ring_buffer: InMemoryRingBuffer<TestData> = InMemoryRingBuffer::new(1000);

    let data1 = TestData::new(String::from("To be deleted"));
    let data2 = TestData::new(String::from("To be fucking deleted"));

    ring_buffer.add(data1.clone());
    ring_buffer.add(data2.clone());

    // When
    let found = ring_buffer.find_nearest(735);

    // Then
    assert!(found.is_some());
    assert!(found.unwrap().contains(&data2));
}

#[test]
fn wrap_around_single_occupant_found_from_every_position() {
    let mut ring_buffer: InMemoryRingBuffer<TestData> = InMemoryRingBuffer::new(8);

    let data = TestData::new(String::from("alone"));
    ring_buffer.add(data.clone());

    for h in 0..8 {
        let found = ring_buffer.find_nearest(h);
        assert!(found.is_some());
        let bucket = found.unwrap();
        assert_eq!(bucket.len(), 1);
        assert!(bucket.contains(&data));
    }
}

#[test]
fn hash_depends_only_on_the_serialized_form_and_stays_in_range() {
    let ring_buffer: InMemoryRingBuffer<TestData> = InMemoryRingBuffer::new(1000);

    let a = TestData::new(String::from("same text"));
    let b = TestData::new(String::from("same text"));

    let ha = ring_buffer.hash_of(&a);
    let hb = ring_buffer.hash_of(&b);
    assert_eq!(ha, hb);
    assert!(ha < 1000);
}

#[test]
fn removing_an_absent_item_changes_nothing() {
    let mut ring_buffer: InMemoryRingBuffer<TestData> = InMemoryRingBuffer::new(1000);

    let stored = TestData::new(String::from("kept"));
    let absent = TestData::new(String::from("never added"));
    ring_buffer.add(stored.clone());

    ring_buffer.remove(&absent);

    let hash = ring_buffer.hash_of(&stored);
    let found = ring_buffer.find_nearest(hash);
    assert!(found.is_some());
    assert!(found.unwrap().contains(&stored));
}
