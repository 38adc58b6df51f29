use bec::graph::Graph;
use bec::message::Message;
use bec::payload;
use bec::replica::{self, create_replicas, PrincipalRegistry};
use bec::repo::MessageRepo;

/// A random payload that has at least one byte to alter.
fn nonempty_payload() -> Vec<u8> {
    let mut v = payload::generate(2048);
    while v.is_empty() {
        v = payload::generate(2048);
    }
    v
}

#[test]
fn can_create_empty_graph() {
    let g: Graph = Default::default();
    assert_eq!(g.heads.len(), 1);
    assert_eq!(g.heads[0], g.root.msg);
    assert_eq!(g.repo.len(), 1);
    assert!(g.repo.get(&g.root.msg).is_some());
}

#[test]
fn can_create_message_new() {
    let heads = Vec::new();
    let v = nonempty_payload();
    let keypair = replica::create_random_keypair();

    let m = Message::new(heads, v, None, &keypair);

    // the message should be neither predecessor nor successor of itself
    assert!(!m.is_successor_of(&m.digest()));

    assert!(m.verify(keypair.public).is_ok());

    // verify should fail if we change the data
    let mut m1 = m;
    m1.v[0] = m1.v[0].wrapping_add(1);
    assert!(m1.verify(keypair.public).is_err());
}

#[test]
fn can_create_replicas() {
    let rs = create_replicas(0);
    assert!(rs.is_empty());

    let rs = create_replicas(1);
    assert_eq!(rs.len(), 1);

    let rs = create_replicas(2);
    assert_eq!(rs.len(), 2);

    assert!(rs[0].public_keys.get(&rs[1].id).is_some());
    assert!(rs[1].public_keys.get(&rs[0].id).is_some());
}

#[test]
fn can_reconcile_empty_repo() {
    let mr1 = MessageRepo::new();
    let mr2 = MessageRepo::new();
    let mr3 = mr1.reconcile(&mr2, &PrincipalRegistry::new()).unwrap();
    assert!(mr3.heads.is_empty());
    assert!(mr3.messages.is_empty());
    assert!(mr3.edges.is_empty());
    assert!(mr3.labels.is_empty());
}

#[test]
fn can_create_messages() {
    let mut mr = MessageRepo::new();

    let keypair = replica::create_random_keypair();

    let m1data = payload::generate(2048);
    let m = Message::new(vec![], m1data, Some("m1".to_string()), &keypair);
    let m1d = m.digest();
    mr.insert_message(m).unwrap();
    let m1 = mr.get_message(&m1d).unwrap().clone();
    assert!(m1.verify(keypair.public).is_ok());

    let m2data = payload::generate(2048);
    let m = Message::new(vec![m1d], m2data, Some("m2".to_string()), &keypair);
    let m2d = m.digest();
    mr.insert_message(m).unwrap();
    let m2 = mr.get_message(&m2d).unwrap().clone();
    assert!(m2.verify(keypair.public).is_ok());

    assert!(m2.is_successor_of(&m1d));

    match mr.get_digest("m1") {
        Some(digest) => assert_eq!(*digest, m1d),
        None => panic!("unable to find digest"),
    }

    match mr.get_digest("m2") {
        Some(digest) => assert_eq!(*digest, m2d),
        None => panic!("unable to find digest"),
    }
}
