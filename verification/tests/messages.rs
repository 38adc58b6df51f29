use bec::crypto::{Keypair, PublicKey, SecretKey};
use bec::digest::MDigest;
use bec::digest_set::DigestSet;
use bec::message::{data_to_sign, verdict, Message, MessageError};

/// The first key pair of RFC 8032, section 7.1.
fn alice() -> Keypair {
    Keypair {
        secret: SecretKey {
            bytes: [
                157, 97, 177, 157, 239, 253, 90, 96, 186, 132, 74, 244, 146, 236, 44, 196, 68, 73,
                197, 105, 123, 50, 105, 25, 112, 59, 172, 3, 28, 174, 127, 96,
            ],
        },
        public: PublicKey {
            bytes: [
                215, 90, 152, 1, 130, 177, 10, 183, 213, 75, 254, 211, 201, 100, 7, 58, 14, 225,
                114, 243, 218, 166, 35, 37, 175, 2, 26, 104, 247, 7, 81, 26,
            ],
        },
    }
}

/// The second key pair of RFC 8032, section 7.1.
fn bob() -> Keypair {
    Keypair {
        secret: SecretKey {
            bytes: [
                76, 205, 8, 155, 40, 255, 150, 218, 157, 182, 195, 70, 236, 17, 78, 15, 91, 138,
                49, 159, 53, 171, 166, 36, 218, 140, 246, 237, 79, 184, 166, 251,
            ],
        },
        public: PublicKey {
            bytes: [
                61, 64, 23, 195, 232, 67, 137, 90, 146, 183, 10, 167, 77, 27, 126, 188, 156, 152,
                44, 207, 46, 196, 150, 140, 192, 205, 85, 241, 42, 244, 102, 12,
            ],
        },
    }
}

const SIG_EMPTY_BY_ALICE: [u8; 64] = [
    229, 86, 67, 0, 195, 96, 172, 114, 144, 134, 226, 204, 128, 110, 130, 138, 132, 135, 127, 30,
    184, 229, 217, 116, 216, 115, 224, 101, 34, 73, 1, 85, 95, 184, 130, 21, 144, 163, 59, 172,
    198, 30, 57, 112, 28, 249, 180, 107, 210, 91, 245, 240, 89, 91, 190, 36, 101, 81, 65, 67, 142,
    122, 16, 11,
];

const SIG_0X72_BY_BOB: [u8; 64] = [
    146, 160, 9, 169, 240, 212, 202, 184, 114, 14, 130, 11, 95, 100, 37, 64, 162, 178, 123, 84,
    22, 80, 63, 143, 179, 118, 34, 35, 235, 219, 105, 218, 8, 90, 193, 228, 62, 21, 153, 110, 69,
    143, 54, 19, 208, 241, 29, 140, 56, 123, 46, 174, 180, 48, 42, 238, 176, 13, 41, 22, 18, 187,
    12, 0,
];

#[test]
fn new_signs_the_empty_message_as_rfc8032_says() {
    let m = Message::new(vec![], vec![], None, &alice());
    assert_eq!(m.sig, SIG_EMPTY_BY_ALICE);
    assert!(m.v.is_empty());
    assert!(m.hs.is_empty());
    assert!(m.label.is_none());
    assert_eq!(m.verify(alice().public), Ok(()));
}

#[test]
fn new_signs_one_byte_as_rfc8032_says() {
    let m = Message::new(vec![], vec![0x72], Some("second".to_string()), &bob());
    assert_eq!(m.sig, SIG_0X72_BY_BOB);
    assert_eq!(m.v, vec![0x72]);
    assert_eq!(m.label, Some("second".to_string()));
    assert_eq!(m.verify(bob().public), Ok(()));
}

#[test]
fn digest_is_sha256_of_signed_bytes_and_signature() {
    let m = Message::new(vec![], vec![], None, &alice());
    let expected: MDigest = [
        169, 158, 86, 11, 240, 160, 187, 248, 86, 106, 90, 19, 32, 15, 19, 72, 48, 27, 111, 105,
        22, 68, 217, 91, 142, 162, 118, 174, 52, 196, 41, 230,
    ];
    assert_eq!(m.digest(), expected);
    assert_eq!(m.digest_bytes(), SIG_EMPTY_BY_ALICE.to_vec());

    let m = Message::new(vec![], vec![0x72], None, &bob());
    let expected: MDigest = [
        206, 97, 180, 99, 200, 108, 240, 245, 21, 131, 6, 39, 9, 103, 97, 232, 25, 98, 41, 209,
        46, 250, 241, 130, 136, 11, 95, 149, 54, 95, 141, 51,
    ];
    assert_eq!(m.digest(), expected);
}

#[test]
fn digest_of_the_synthetic_root_is_sha256_of_64_zero_bytes() {
    let root = Message::default();
    let expected: MDigest = [
        245, 165, 253, 66, 209, 106, 32, 48, 39, 152, 239, 110, 211, 9, 151, 155, 67, 0, 61, 35,
        32, 217, 240, 232, 234, 152, 49, 169, 39, 89, 251, 75,
    ];
    assert_eq!(root.digest(), expected);
    assert!(root.is_synthetic_root());
    assert!(root.is_root());
    assert_eq!(root.digest_bytes(), vec![0u8; 64]);
    assert!(root.signed_bytes().is_empty());
}

#[test]
fn signed_bytes_are_the_payload_then_the_predecessors_in_order() {
    let d1: MDigest = [1u8; 32];
    let d2: MDigest = [2u8; 32];
    let mut expected = vec![1u8, 2, 3];
    expected.extend_from_slice(&d1);
    expected.extend_from_slice(&d2);

    let m = Message::new(vec![d2, d1], vec![1, 2, 3], None, &alice());
    assert_eq!(m.signed_bytes(), expected);
    assert_eq!(data_to_sign(&[1, 2, 3], &DigestSet::from_slice(&[d2, d1, d2])), expected);
    assert_eq!(m.hs.to_vec(), vec![d1, d2]);

    let sig: [u8; 64] = [
        247, 212, 113, 20, 230, 131, 255, 191, 46, 214, 94, 17, 205, 169, 113, 190, 104, 46, 27,
        250, 204, 113, 191, 9, 169, 231, 159, 131, 33, 9, 93, 89, 36, 192, 90, 55, 167, 212, 115,
        12, 212, 232, 119, 175, 181, 147, 127, 250, 244, 80, 69, 175, 249, 212, 177, 143, 206, 87,
        129, 254, 198, 11, 83, 4,
    ];
    assert_eq!(m.sig, sig);
    let digest: MDigest = [
        58, 170, 166, 187, 214, 118, 60, 250, 19, 177, 91, 25, 97, 190, 196, 55, 68, 179, 255, 55,
        115, 9, 108, 73, 142, 39, 131, 168, 126, 220, 127, 93,
    ];
    assert_eq!(m.digest(), digest);
}

#[test]
fn the_order_and_repetition_of_heads_do_not_matter() {
    let d1: MDigest = [9u8; 32];
    let mut d2: MDigest = [9u8; 32];
    d2[31] = 10;
    let d3: MDigest = [0u8; 32];
    let a = Message::new(vec![d1, d2, d3], vec![7], None, &alice());
    let b = Message::new(vec![d3, d2, d1, d2, d3], vec![7], None, &alice());
    assert_eq!(a.hs.to_vec(), vec![d3, d1, d2]);
    assert_eq!(b.hs.to_vec(), vec![d3, d1, d2]);
    assert_eq!(a.sig, b.sig);
    assert_eq!(a.digest(), b.digest());
    assert!(a.same_as(&b));
}

#[test]
fn the_label_is_neither_signed_nor_hashed() {
    let a = Message::new(vec![], vec![1, 2], Some("one".to_string()), &alice());
    let b = Message::new(vec![], vec![1, 2], None, &alice());
    assert_eq!(a.sig, b.sig);
    assert_eq!(a.digest(), b.digest());
    assert!(a.same_content(&b));
    assert!(!a.same_as(&b));
    let c = Message::new(vec![], vec![1, 2], Some("two".to_string()), &alice());
    assert!(a.same_content(&c));
    assert!(!a.same_as(&c));
}

#[test]
fn a_message_is_no_successor_or_predecessor_of_itself() {
    let m = Message::new(vec![[5u8; 32]], vec![1, 2, 3], None, &alice());
    assert!(!m.is_successor_of(&m.digest()));
    assert!(!m.is_predecessor_of(&m));
    let root = Message::default();
    assert!(!root.is_successor_of(&root.digest()));
    assert!(!root.is_predecessor_of(&root));
}

#[test]
fn successor_and_predecessor_mirror_each_other() {
    let p = Message::new(vec![], vec![1], None, &alice());
    let m = Message::new(vec![p.digest()], vec![2], None, &bob());
    assert!(p.is_predecessor_of(&m));
    assert!(m.is_successor_of(&p.digest()));
    // the converses
    assert!(!m.is_predecessor_of(&p));
    assert!(!p.is_successor_of(&m.digest()));
    assert!(p.is_root());
    assert!(!m.is_root());
}

#[test]
fn verify_fails_when_a_payload_byte_is_altered() {
    let mut m = Message::new(vec![[3u8; 32]], vec![10, 20, 30], None, &alice());
    assert_eq!(m.verify(alice().public), Ok(()));
    m.v[1] = 21;
    assert_eq!(m.verify(alice().public), Err(MessageError::InvalidSignature));
}

#[test]
fn verify_fails_when_a_predecessor_is_altered() {
    let m = Message::new(vec![[3u8; 32]], vec![10, 20, 30], None, &alice());
    let forged = Message { v: m.v.clone(), hs: DigestSet::from_slice(&[[4u8; 32]]), sig: m.sig, label: None };
    assert_eq!(forged.verify(alice().public), Err(MessageError::InvalidSignature));
}

#[test]
fn verify_fails_under_another_key() {
    let m = Message::new(vec![], vec![10, 20, 30], None, &alice());
    assert_eq!(m.verify(bob().public), Err(MessageError::InvalidSignature));
}

#[test]
fn verify_fails_when_the_signature_is_altered_or_malformed() {
    let mut m = Message::new(vec![], vec![10, 20, 30], None, &alice());
    m.sig[0] ^= 1;
    assert_eq!(m.verify(alice().public), Err(MessageError::InvalidSignature));
    // the three highest bits of the last byte are never set in a signature
    let mut m = Message::new(vec![], vec![10, 20, 30], None, &alice());
    m.sig[63] |= 0b1110_0000;
    assert_eq!(m.verify(alice().public), Err(MessageError::InvalidSignature));
    // the synthetic root is not signed by anybody
    assert_eq!(Message::default().verify(alice().public), Err(MessageError::InvalidSignature));
}

#[test]
fn verify_fails_under_bytes_that_are_no_key() {
    let m = Message::new(vec![], vec![10, 20, 30], None, &alice());
    // y = 2 is the encoding of no point of the curve
    let mut bytes = [0u8; 32];
    bytes[0] = 2;
    assert_eq!(m.verify(PublicKey { bytes }), Err(MessageError::InvalidSignature));
}

#[test]
fn verdict_keeps_success_and_names_the_failure() {
    assert_eq!(verdict(Ok(())), Ok(()));
    assert_eq!(
        verdict(Err(ed25519_dalek::SignatureError::new())),
        Err(MessageError::InvalidSignature)
    );
}

#[test]
fn the_signature_uses_the_secret_key_alone() {
    // the public half that travels with the secret key is not consulted
    let mismatched = Keypair { secret: alice().secret, public: bob().public };
    let m = Message::new(vec![], vec![], None, &mismatched);
    assert_eq!(m.sig, SIG_EMPTY_BY_ALICE);
    assert_eq!(m.verify(alice().public), Ok(()));
}

#[test]
fn is_synthetic_root_looks_at_payload_predecessors_and_signature() {
    let mut m = Message::default();
    m.label = Some("root".to_string());
    assert!(m.is_synthetic_root());
    let mut m = Message::default();
    m.v.push(0);
    assert!(!m.is_synthetic_root());
    let mut m = Message::default();
    m.sig[63] = 1;
    assert!(!m.is_synthetic_root());
    let mut m = Message::default();
    m.hs.insert([0u8; 32]);
    assert!(!m.is_synthetic_root());
}

#[test]
fn duplicate_and_clone_copy_every_part() {
    let m = Message::new(vec![[1u8; 32], [2u8; 32]], vec![4, 5, 6], Some("m".to_string()), &bob());
    let d = m.duplicate();
    assert!(d.same_as(&m));
    assert_eq!(d.v, m.v);
    assert_eq!(d.hs.to_vec(), m.hs.to_vec());
    assert_eq!(d.sig, m.sig);
    assert_eq!(d.label, m.label);
    let c = m.clone();
    assert!(c.same_as(&m));
    let mut other = m.duplicate();
    other.v[0] = 0;
    assert!(!other.same_as(&m));
    assert!(!other.same_content(&m));
    let mut other = m.duplicate();
    other.sig[5] ^= 0xff;
    assert!(!other.same_as(&m));
    let mut other = m.duplicate();
    other.hs.remove(&[1u8; 32]);
    assert!(!other.same_as(&m));
    assert!(!other.same_content(&m));
    let mut other = m.duplicate();
    other.label = None;
    assert!(!other.same_as(&m));
    assert!(other.same_content(&m));
}
