use maat_ring::DefaultMaatRing;
use maat_ring::MaatError;
use maat_ring::MaatNode;
use maat_ring::Request;
use maat_ring::Serializable;
use maat_ring::Server;
use maat_ring::Wrapper;

struct Payload {
    data: String,
}

impl Payload {
    fn new(data: String) -> Payload {
        Payload { data }
    }
}

impl Serializable for Payload {
    fn serialize(&self) -> String {
        self.data.clone()
    }
}

#[test]
fn give_maat_ring_with_single_node_when_new_node_join_then_the_request_was_correctly_routed_to_this_node(
) {
    //given
    let mut ring = DefaultMaatRing::new(100, 0).unwrap();
    let server = Server::new(String::from("1.1.1.1"), 61, true);
    ring.accept(&server).unwrap();

    let payload = Payload::new(String::from("test"));
    let request = Request::of(payload);

    //when
    let result = ring.route(&request);

    //then
    assert!(result.is_ok());
    match result {
        Ok(found) => {
            assert!(found == server)
        },
        Err(_) => {},
    }
}

#[test]
fn give_maat_ring_with_single_node_and_replicas_when_new_node_join_then_the_request_was_correctly_routed_to_this_node(
) {
    //given
    let mut ring = DefaultMaatRing::new(100, 10).unwrap();
    let server = Server::new(String::from("1.10.11.12"), 61, true);
    ring.accept(&server).unwrap();

    let payload = Payload::new(String::from("test"));
    let request = Request::of(payload);

    //when
    let result = ring.route(&request);

    //then
    assert!(result.is_ok());
    match result {
        Ok(found) => {
            assert!(found == server)
        },
        Err(_) => {},
    }
}

#[test]
fn give_maat_ring_with_two_nodes_and_replicas_when_one_node_left_then_the_request_was_correctly_routed_to_another_node(
) {
    //given
    let mut ring = DefaultMaatRing::new(10, 1).unwrap();
    let server1 = Server::new(String::from("1.10.11.12"), 61, true);
    let server2 = Server::new(String::from("1.10.11.14"), 61, true);
    ring.accept(&server1).unwrap();
    ring.accept(&server2).unwrap();

    let payload = Payload::new(String::from("test"));
    let request = Request::of(payload);

    //when
    ring.remove(&server2).unwrap();
    let result = ring.route(&request);

    //then
    assert!(result.is_ok());
    match result {
        Ok(found) => {
            assert!(found == server1)
        },
        Err(_) => {},
    }
}

#[test]
fn empty_ring_routes_to_not_found() {
    let ring = DefaultMaatRing::new(100, 10).unwrap();

    let request = Request::of(Payload::new(String::from("anything")));
    let result = ring.route(&request);

    assert!(result.is_err());
}

#[test]
fn remove_then_route_returns_not_found_and_forgets_the_node() {
    let mut ring = DefaultMaatRing::new(100, 10).unwrap();
    let server = Server::new(String::from("1.1.1.1"), 61, true);
    ring.accept(&server).unwrap();
    ring.remove(&server).unwrap();

    let request = Request::of(Payload::new(String::from("test")));
    assert!(ring.route(&request).is_err());

    // the directories kept nothing of the node: a second leave is unknown
    let second = ring.remove(&server);
    assert_eq!(second.unwrap_err(), MaatError::NotFound);
}

#[test]
fn accept_of_a_non_physical_node_is_rejected() {
    let mut ring = DefaultMaatRing::new(100, 2).unwrap();
    let virtual_node = Server::new(String::from("1.1.1.1"), 61, false);

    let result = ring.accept(&virtual_node);

    assert_eq!(result.unwrap_err(), MaatError::InvalidArgument);
    let request = Request::of(Payload::new(String::from("test")));
    assert!(ring.route(&request).is_err());
}

#[test]
fn new_with_capacity_below_one_is_rejected() {
    let result = DefaultMaatRing::new(0, 5);

    assert!(result.is_err());
    match result {
        Ok(_) => {},
        Err(e) => assert_eq!(e, MaatError::InvalidArgument),
    }
}

#[test]
fn remove_of_an_unknown_node_is_not_found() {
    let mut ring = DefaultMaatRing::new(100, 3).unwrap();
    let known = Server::new(String::from("1.1.1.1"), 61, true);
    let unknown = Server::new(String::from("2.2.2.2"), 62, true);
    ring.accept(&known).unwrap();

    let result = ring.remove(&unknown);

    assert_eq!(result.unwrap_err(), MaatError::NotFound);
}

#[test]
fn duplicate_accept_is_a_no_op() {
    let mut ring = DefaultMaatRing::new(100, 4).unwrap();
    let server = Server::new(String::from("1.1.1.1"), 61, true);
    ring.accept(&server).unwrap();
    ring.accept(&server).unwrap();

    let request = Request::of(Payload::new(String::from("test")));
    let result = ring.route(&request);
    assert!(result.is_ok());
    match result {
        Ok(found) => {
            assert!(found == server)
        },
        Err(_) => {},
    }
}

#[test]
fn accept_of_a_second_node_with_the_same_address_is_rejected() {
    let mut ring = DefaultMaatRing::new(100, 0).unwrap();
    let first = Server::new(String::from("1.1.1.1"), 61, true);
    let twin = Server::new(String::from("1.1.1.1"), 61, true);
    ring.accept(&first).unwrap();

    // same serialized form under a different identity conflicts
    let result = ring.accept(&twin);

    assert_eq!(result.unwrap_err(), MaatError::InvalidArgument);
}

#[test]
fn route_with_colliding_nodes_returns_one_of_them() {
    // capacity one forces every node into the same bucket, so the picker
    // must break the tie among the two physical owners
    let mut ring = DefaultMaatRing::new(1, 0).unwrap();
    let server1 = Server::new(String::from("1.1.1.1"), 61, true);
    let server2 = Server::new(String::from("2.2.2.2"), 62, true);
    ring.accept(&server1).unwrap();
    ring.accept(&server2).unwrap();

    let request = Request::of(Payload::new(String::from("test")));
    let result = ring.route(&request);

    assert!(result.is_ok());
    match result {
        Ok(found) => {
            assert!(found == server1 || found == server2)
        },
        Err(_) => {},
    }
}

#[test]
fn joining_node_only_takes_requests_for_itself() {
    let mut ring = DefaultMaatRing::new(100, 0).unwrap();
    let server1 = Server::new(String::from("1.1.1.1"), 61, true);
    let server2 = Server::new(String::from("2.2.2.2"), 62, true);
    ring.accept(&server1).unwrap();

    let request = Request::of(Payload::new(String::from("test")));
    let before = ring.route(&request).unwrap();
    assert!(before == server1);

    // after a join, a request is owned by its old owner or by the joiner
    ring.accept(&server2).unwrap();
    let after = ring.route(&request).unwrap();
    assert!(after == before || after == server2);
}

#[test]
fn server_serializes_as_address_at_port() {
    let server = Server::new(String::from("1.1.1.1"), 61, true);

    assert_eq!(server.serialize(), String::from("1.1.1.1@61"));
}

#[test]
fn request_serialization_wraps_the_payload_in_delimiters() {
    let request = Request::of(Payload::new(String::from("test")));

    assert_eq!(request.serialize(), String::from("[test]"));
}

#[test]
fn replicate_produces_a_fresh_non_physical_node_with_a_salted_form() {
    let server = Server::new(String::from("1.1.1.1"), 61, true);
    let replica = server.replicate();

    assert!(!replica.is_physical());
    assert_ne!(replica.get_id(), server.get_id());
    // the replica's serialized form is salted with its identity, so it
    // occupies its own ring position
    let expected = format!("1.1.1.1@61#{}", replica.get_id());
    assert_eq!(replica.serialize(), expected);
    assert_ne!(replica.serialize(), server.serialize());
}
