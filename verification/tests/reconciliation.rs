use bec::crypto::{Keypair, PublicKey, SecretKey};
use bec::digest::MDigest;
use bec::message::Message;
use bec::reconcile::{
    absorb_messages, assemble, copy_admitted, copy_anchored, edges_of, frontier_of, is_admitted,
    is_superseded, known_predecessors, merge_labels,
};
use bec::replica::PrincipalRegistry;
use bec::repo::{MessageRepo, RepoError};
use bec::vec_map::VecMap;

/// The first key pair of RFC 8032, section 7.1.
fn alice() -> Keypair {
    Keypair {
        secret: SecretKey {
            bytes: [
                157, 97, 177, 157, 239, 253, 90, 96, 186, 132, 74, 244, 146, 236, 44, 196, 68, 73,
                197, 105, 123, 50, 105, 25, 112, 59, 172, 3, 28, 174, 127, 96,
            ],
        },
        public: PublicKey {
            bytes: [
                215, 90, 152, 1, 130, 177, 10, 183, 213, 75, 254, 211, 201, 100, 7, 58, 14, 225,
                114, 243, 218, 166, 35, 37, 175, 2, 26, 104, 247, 7, 81, 26,
            ],
        },
    }
}

/// The second key pair of RFC 8032, section 7.1.
fn bob() -> Keypair {
    Keypair {
        secret: SecretKey {
            bytes: [
                76, 205, 8, 155, 40, 255, 150, 218, 157, 182, 195, 70, 236, 17, 78, 15, 91, 138,
                49, 159, 53, 171, 166, 36, 218, 140, 246, 237, 79, 184, 166, 251,
            ],
        },
        public: PublicKey {
            bytes: [
                61, 64, 23, 195, 232, 67, 137, 90, 146, 183, 10, 167, 77, 27, 126, 188, 156, 152,
                44, 207, 46, 196, 150, 140, 192, 205, 85, 241, 42, 244, 102, 12,
            ],
        },
    }
}

/// The third key pair of RFC 8032, section 7.1. Nobody registers it.
fn mallory() -> Keypair {
    Keypair {
        secret: SecretKey {
            bytes: [
                197, 170, 141, 244, 63, 159, 131, 123, 237, 183, 68, 47, 49, 220, 183, 177, 102,
                211, 133, 53, 7, 111, 9, 75, 133, 206, 58, 46, 11, 68, 88, 247,
            ],
        },
        public: PublicKey {
            bytes: [
                252, 81, 205, 142, 98, 24, 161, 163, 141, 164, 126, 208, 2, 48, 240, 88, 8, 22,
                237, 19, 186, 51, 3, 172, 93, 235, 145, 21, 72, 144, 128, 37,
            ],
        },
    }
}

fn registry() -> PrincipalRegistry {
    let mut r = PrincipalRegistry::new();
    r.insert(1, alice().public);
    r.insert(2, bob().public);
    r
}

fn signed(by: &Keypair, heads: Vec<MDigest>, payload: u8, label: Option<&str>) -> Message {
    Message::new(heads, vec![payload], label.map(|l| l.to_string()), by)
}

fn repo_of(messages: &[&Message]) -> MessageRepo {
    let mut mr = MessageRepo::new();
    for m in messages {
        mr.insert_message(m.duplicate()).unwrap();
    }
    mr
}

fn sorted(mut ds: Vec<MDigest>) -> Vec<MDigest> {
    ds.sort();
    ds
}

#[test]
fn two_branches_from_a_shared_head_stay_two_heads() {
    let h = signed(&alice(), vec![], 0, Some("H"));
    let x = signed(&alice(), vec![h.digest()], 1, Some("X"));
    let y = signed(&bob(), vec![h.digest()], 2, Some("Y"));
    let ours = repo_of(&[&h, &x]);
    let theirs = repo_of(&[&h, &y]);

    let both = ours.reconcile(&theirs, &registry()).unwrap();
    assert_eq!(both.heads.to_vec(), sorted(vec![x.digest(), y.digest()]));
    assert_eq!(both.messages.len(), 3);
    assert_eq!(both.edges.get(&x.digest()), Some(&vec![h.digest()]));
    assert_eq!(both.edges.get(&y.digest()), Some(&vec![h.digest()]));
    assert_eq!(both.edges.get(&h.digest()), Some(&vec![]));
    assert_eq!(both.get_digest("H"), Some(&h.digest()));
    assert_eq!(both.get_digest("X"), Some(&x.digest()));
    assert_eq!(both.get_digest("Y"), Some(&y.digest()));

    // neither input has changed
    assert_eq!(ours.heads.to_vec(), vec![x.digest()]);
    assert_eq!(theirs.heads.to_vec(), vec![y.digest()]);
    assert_eq!(ours.messages.len(), 2);
    assert_eq!(theirs.messages.len(), 2);
}

#[test]
fn reconciling_with_itself_changes_nothing() {
    let root = Message::default();
    let a = signed(&alice(), vec![root.digest()], 1, Some("A"));
    let b = signed(&bob(), vec![a.digest()], 2, Some("B"));
    let mr = repo_of(&[&root, &a, &b]);
    let again = mr.reconcile(&mr, &registry()).unwrap();
    assert!(again.equivalent(&mr));
    assert_eq!(again.heads.to_vec(), mr.heads.to_vec());
    assert_eq!(again.heads.to_vec(), vec![b.digest()]);
    assert_eq!(again.edges.get(&b.digest()), Some(&vec![a.digest()]));
    assert_eq!(again.edges.get(&a.digest()), Some(&vec![root.digest()]));

    let empty = MessageRepo::new();
    assert!(empty.reconcile(&empty, &registry()).unwrap().equivalent(&empty));
}

#[test]
fn reconciling_either_way_round_gives_the_same() {
    let h = signed(&alice(), vec![], 0, Some("H"));
    let x = signed(&alice(), vec![h.digest()], 1, Some("X"));
    let y = signed(&bob(), vec![h.digest()], 2, None);
    let z = signed(&bob(), vec![y.digest()], 3, Some("Z"));
    let ours = repo_of(&[&h, &x]);
    let theirs = repo_of(&[&h, &y, &z]);
    let one = ours.reconcile(&theirs, &registry()).unwrap();
    let two = theirs.reconcile(&ours, &registry()).unwrap();
    assert!(one.equivalent(&two));
    assert_eq!(one.heads.to_vec(), two.heads.to_vec());
    assert_eq!(one.heads.to_vec(), sorted(vec![x.digest(), z.digest()]));
    for d in [h.digest(), x.digest(), y.digest(), z.digest()] {
        assert_eq!(one.edges.get(&d), two.edges.get(&d));
        assert!(one.get_message(&d).is_some());
    }
}

#[test]
fn a_message_labelled_differently_on_either_side_keeps_both_labels() {
    let m = signed(&alice(), vec![], 1, Some("ours"));
    let mut copy = m.duplicate();
    copy.label = Some("theirs".to_string());
    let ours = repo_of(&[&m]);
    let theirs = repo_of(&[&copy]);
    let one = ours.reconcile(&theirs, &registry()).unwrap();
    let two = theirs.reconcile(&ours, &registry()).unwrap();
    assert!(one.equivalent(&two));
    assert_eq!(one.messages.len(), 1);
    assert_eq!(one.get_digest("ours"), Some(&m.digest()));
    assert_eq!(one.get_digest("theirs"), Some(&m.digest()));
    assert_eq!(two.get_digest("ours"), Some(&m.digest()));
    assert_eq!(two.get_digest("theirs"), Some(&m.digest()));
    assert_eq!(one.heads.to_vec(), two.heads.to_vec());
}

#[test]
fn reconciling_three_in_either_grouping_gives_the_same() {
    let h = signed(&alice(), vec![], 0, Some("H"));
    let x = signed(&alice(), vec![h.digest()], 1, Some("X"));
    let y = signed(&bob(), vec![h.digest()], 2, Some("Y"));
    let z = signed(&bob(), vec![x.digest(), y.digest()], 3, Some("Z"));
    let a = repo_of(&[&h, &x]);
    let b = repo_of(&[&h, &y]);
    let c = repo_of(&[&z]);
    let reg = registry();
    let left = a.reconcile(&b, &reg).unwrap().reconcile(&c, &reg).unwrap();
    let right = a.reconcile(&b.reconcile(&c, &reg).unwrap(), &reg).unwrap();
    assert!(left.equivalent(&right));
    assert_eq!(left.heads.to_vec(), right.heads.to_vec());
    assert_eq!(left.heads.to_vec(), vec![z.digest()]);
    assert_eq!(left.messages.len(), 4);
    assert_eq!(left.edges.get(&z.digest()), Some(&sorted(vec![x.digest(), y.digest()])));
    assert_eq!(right.edges.get(&z.digest()), Some(&sorted(vec![x.digest(), y.digest()])));
}

#[test]
fn one_label_for_two_messages_is_a_conflict() {
    let x = signed(&alice(), vec![], 1, Some("tip"));
    let y = signed(&bob(), vec![], 2, Some("tip"));
    let ours = repo_of(&[&x]);
    let theirs = repo_of(&[&y]);
    assert_eq!(ours.reconcile(&theirs, &registry()).err(), Some(RepoError::LabelConflict));
    assert_eq!(theirs.reconcile(&ours, &registry()).err(), Some(RepoError::LabelConflict));
    assert_eq!(ours.join(&theirs).err(), Some(RepoError::LabelConflict));
    // the inputs are as they were
    assert_eq!(ours.get_digest("tip"), Some(&x.digest()));
    assert_eq!(theirs.get_digest("tip"), Some(&y.digest()));
    assert_eq!(ours.messages.len(), 1);
}

#[test]
fn one_label_for_one_message_on_both_sides_is_no_conflict() {
    let x = signed(&alice(), vec![], 1, Some("tip"));
    let y = signed(&bob(), vec![x.digest()], 2, None);
    let ours = repo_of(&[&x]);
    let theirs = repo_of(&[&x, &y]);
    let both = ours.reconcile(&theirs, &registry()).unwrap();
    assert_eq!(both.get_digest("tip"), Some(&x.digest()));
    assert_eq!(both.labels.len(), 1);
    assert_eq!(both.heads.to_vec(), vec![y.digest()]);
}

#[test]
fn a_message_of_an_unknown_signer_is_left_out() {
    let h = signed(&alice(), vec![], 0, Some("H"));
    let good = signed(&bob(), vec![h.digest()], 1, Some("good"));
    let bad = signed(&mallory(), vec![h.digest()], 2, Some("bad"));
    let ours = repo_of(&[&h]);
    let theirs = repo_of(&[&h, &good, &bad]);
    let both = ours.reconcile(&theirs, &registry()).unwrap();
    assert_eq!(both.messages.len(), 2);
    assert!(both.get_message(&good.digest()).is_some());
    assert!(both.get_message(&bad.digest()).is_none());
    assert!(both.edges.get(&bad.digest()).is_none());
    assert_eq!(both.get_digest("bad"), None);
    assert_eq!(both.get_digest("good"), Some(&good.digest()));
    assert_eq!(both.heads.to_vec(), vec![good.digest()]);
}

#[test]
fn a_tampered_message_is_left_out_and_its_predecessor_becomes_a_head_again() {
    let h = signed(&alice(), vec![], 0, None);
    let mut bad = signed(&alice(), vec![h.digest()], 1, None);
    bad.v[0] = 99;
    let ours = repo_of(&[&h, &bad]);
    assert_eq!(ours.heads.to_vec(), vec![bad.digest()]);
    let clean = ours.reconcile(&MessageRepo::new(), &registry()).unwrap();
    assert_eq!(clean.messages.len(), 1);
    assert_eq!(clean.heads.to_vec(), vec![h.digest()]);
    let kept = ours.retain_admitted(&registry());
    assert!(kept.equivalent(&clean));
}

#[test]
fn a_label_conflict_with_a_message_that_is_left_out_is_none() {
    let good = signed(&alice(), vec![], 1, Some("tip"));
    let bad = signed(&mallory(), vec![], 2, Some("tip"));
    let ours = repo_of(&[&good]);
    let theirs = repo_of(&[&bad]);
    let both = ours.reconcile(&theirs, &registry()).unwrap();
    assert_eq!(both.get_digest("tip"), Some(&good.digest()));
    assert_eq!(both.messages.len(), 1);
}

#[test]
fn the_synthetic_root_needs_no_signature() {
    let root = Message::default();
    let ours = repo_of(&[&root]);
    let both = ours.reconcile(&MessageRepo::new(), &PrincipalRegistry::new()).unwrap();
    assert_eq!(both.heads.to_vec(), vec![root.digest()]);
    assert!(is_admitted(&root, &PrincipalRegistry::new()));
    // any other unsigned message does
    let mut other = Message::default();
    other.v.push(1);
    assert!(!is_admitted(&other, &registry()));
}

#[test]
fn with_no_registered_key_only_the_root_remains() {
    let root = Message::default();
    let a = signed(&alice(), vec![root.digest()], 1, Some("A"));
    let ours = repo_of(&[&root, &a]);
    let left = ours.reconcile(&ours, &PrincipalRegistry::new()).unwrap();
    assert_eq!(left.messages.len(), 1);
    assert_eq!(left.labels.len(), 0);
    assert_eq!(left.heads.to_vec(), vec![root.digest()]);
}

#[test]
fn edges_are_derived_from_the_union() {
    // ours holds c without its predecessor b; theirs holds b
    let a = signed(&alice(), vec![], 0, None);
    let b = signed(&bob(), vec![a.digest()], 1, None);
    let c = signed(&alice(), vec![b.digest(), [9u8; 32]], 2, None);
    let ours = repo_of(&[&c]);
    let theirs = repo_of(&[&a, &b]);
    assert_eq!(ours.edges.get(&c.digest()), Some(&vec![]));
    let both = ours.reconcile(&theirs, &registry()).unwrap();
    assert_eq!(both.edges.get(&c.digest()), Some(&vec![b.digest()]));
    assert_eq!(both.edges.get(&b.digest()), Some(&vec![a.digest()]));
    assert_eq!(both.edges.get(&a.digest()), Some(&vec![]));
    assert_eq!(both.heads.to_vec(), vec![c.digest()]);
}

#[test]
fn heads_are_derived_and_not_united() {
    // ours was filled out of order, and counts b among its heads
    let b = signed(&alice(), vec![], 1, None);
    let c = signed(&alice(), vec![b.digest()], 2, None);
    let ours = repo_of(&[&c, &b]);
    assert_eq!(ours.heads.to_vec(), sorted(vec![b.digest(), c.digest()]));
    let again = ours.reconcile(&MessageRepo::new(), &registry()).unwrap();
    assert_eq!(again.heads.to_vec(), vec![c.digest()]);
    assert!(again.equivalent(&ours));
}

#[test]
fn join_keeps_every_message_whoever_signed_it() {
    let x = signed(&mallory(), vec![], 1, Some("x"));
    let y = signed(&alice(), vec![x.digest()], 2, Some("y"));
    let ours = repo_of(&[&x]);
    let theirs = repo_of(&[&y]);
    let both = ours.join(&theirs).unwrap();
    assert_eq!(both.messages.len(), 2);
    assert_eq!(both.heads.to_vec(), vec![y.digest()]);
    assert_eq!(both.edges.get(&y.digest()), Some(&vec![x.digest()]));
    assert_eq!(both.get_digest("x"), Some(&x.digest()));
    assert!(ours.join(&ours).unwrap().equivalent(&ours));
    assert!(ours.join(&theirs).unwrap().equivalent(&theirs.join(&ours).unwrap()));
}

#[test]
fn where_both_hold_a_digest_join_keeps_the_message_of_the_first() {
    let d: MDigest = [1u8; 32];
    let mut ours = MessageRepo::new();
    ours.insert_with_digest(d, signed(&alice(), vec![], 1, None)).unwrap();
    let mut theirs = MessageRepo::new();
    theirs.insert_with_digest(d, signed(&alice(), vec![], 2, None)).unwrap();
    assert_eq!(ours.join(&theirs).unwrap().get_message(&d).unwrap().v, vec![1]);
    assert_eq!(theirs.join(&ours).unwrap().get_message(&d).unwrap().v, vec![2]);
}

#[test]
fn the_parts_of_reconciliation_do_their_part() {
    let a = signed(&alice(), vec![], 0, Some("a"));
    let b = signed(&mallory(), vec![a.digest(), [7u8; 32]], 1, Some("b"));
    let mr = repo_of(&[&a, &b]);

    assert!(is_admitted(&a, &registry()));
    assert!(!is_admitted(&b, &registry()));
    assert!(!is_admitted(&a, &PrincipalRegistry::new()));

    assert!(is_superseded(&mr.messages, &a.digest()));
    assert!(!is_superseded(&mr.messages, &b.digest()));
    assert!(is_superseded(&mr.messages, &[7u8; 32]));
    assert_eq!(frontier_of(&mr.messages).to_vec(), vec![b.digest()]);
    assert_eq!(known_predecessors(&b, &mr.messages), vec![a.digest()]);
    assert_eq!(known_predecessors(&a, &mr.messages), Vec::<MDigest>::new());
    let edges = edges_of(&mr.messages);
    assert_eq!(edges.len(), 2);
    assert_eq!(edges.get(&b.digest()), Some(&vec![a.digest()]));

    let kept = copy_admitted(&mr.messages, &registry());
    assert_eq!(kept.len(), 1);
    assert!(kept.get(&a.digest()).unwrap().same_as(&a));
    let labels = copy_anchored(&mr.labels, &kept);
    assert_eq!(labels.len(), 1);
    assert_eq!(labels.get(&"a".to_string()), Some(&a.digest()));

    let mut all: VecMap<MDigest, Message> = VecMap::new();
    absorb_messages(&mut all, &kept);
    absorb_messages(&mut all, &mr.messages);
    assert_eq!(all.len(), 2);

    let merged = merge_labels(&labels, &mr.labels).unwrap();
    assert_eq!(merged.len(), 2);
    let mut clash: VecMap<String, MDigest> = VecMap::new();
    clash.insert("b".to_string(), a.digest());
    assert!(merge_labels(&clash, &mr.labels).is_none());

    let derived = assemble(all, merged);
    assert_eq!(derived.heads.to_vec(), vec![b.digest()]);
    assert_eq!(derived.edges.get(&b.digest()), Some(&vec![a.digest()]));
}
