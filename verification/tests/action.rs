use ff_node_monitor::action::{Action, AuthError, Operation, SignedAction};
use ff_node_monitor::action::{StatementResult, StoreFailure};
use ff_node_monitor::email::EmailAddress;
use ff_node_monitor::hmac::{sign, verify, Key};
use ff_node_monitor::models::Monitor;
use ff_node_monitor::store::MonitorTable;
use ff_node_monitor::util::deserialize;

fn key(hex: &str) -> Key {
    deserialize(hex).unwrap()
}

fn test_key() -> Key {
    key("000102030405060708090a0b0c0d0e0f101112131415161718191a1b1c1d1e1f")
}

fn other_key() -> Key {
    key("ff0102030405060708090a0b0c0d0e0f101112131415161718191a1b1c1d1e1f")
}

fn action(node: &str, email: &str, op: Operation) -> Action {
    Action { node: node.to_string(), email: EmailAddress::new(email.to_string()).unwrap(), op }
}

fn unhex(text: &str) -> Vec<u8> {
    hex::decode(text).unwrap()
}

#[test]
fn hmac_matches_the_rfc_4231_vector() {
    let k = Key::new(b"Jefe".to_vec()).unwrap();
    let tag = sign(&k, b"what do ya want for nothing?");
    assert_eq!(tag, unhex("5bdcc146bf60754e6a042426089575c75a003f089d2739839dec58b964ec3843"));
}

#[test]
fn hmac_verify_accepts_only_the_tag() {
    let k = Key::new(b"Jefe".to_vec()).unwrap();
    let data = b"what do ya want for nothing?";
    let mut tag = unhex("5bdcc146bf60754e6a042426089575c75a003f089d2739839dec58b964ec3843");
    assert!(verify(&k, data, &tag));
    tag[31] ^= 1;
    assert!(!verify(&k, data, &tag));
    assert!(!verify(&k, data, &tag[..31]));
    assert!(!verify(&k, data, data));
}

#[test]
fn operation_codes() {
    assert_eq!(Operation::Add.to_code(), 1);
    assert_eq!(Operation::Remove.to_code(), 0);
    assert_eq!(Operation::from_code(1), Some(Operation::Add));
    assert_eq!(Operation::from_code(0), Some(Operation::Remove));
    assert_eq!(Operation::from_code(2), None);
    assert_eq!(Operation::from_code(255), None);
}

#[test]
fn action_bytes_are_the_expected_ones() {
    let a = action("c0ffee", "x@example.com", Operation::Add);
    assert!(a.fits());
    assert_eq!(a.to_bytes(), unhex("93a6633066666565ad78406578616d706c652e636f6d01"));
}

#[test]
fn action_bytes_agree_with_messagepack() {
    let long = "n".repeat(40);
    let longer = "ä".repeat(300);
    let huge = "x".repeat(70_000);
    let nodes = ["", "c0ffee", long.as_str(), longer.as_str(), huge.as_str()];
    for node in nodes {
        for (op, code) in [(Operation::Add, 1u8), (Operation::Remove, 0u8)] {
            let a = action(node, "someone@example.org", op);
            let expected = rmp_serde::to_vec(&(node, "someone@example.org", code)).unwrap();
            assert_eq!(a.to_bytes(), expected);
        }
    }
}

#[test]
fn signed_bytes_are_the_expected_ones() {
    let signed = action("c0ffee", "x@example.com", Operation::Add).sign(&test_key());
    assert_eq!(
        signed.to_bytes(),
        unhex(
            "9293a6633066666565ad78406578616d706c652e636f6d01dc0020ccb506cc88ccae520eccd958cc9e\
             ccd8ccd0ccb2ccd532ccf87d62ccbb21ccf46d36ccd87fccf1ccd619cc9ecc80597975"
        )
    );
}

#[test]
fn signed_bytes_agree_with_messagepack() {
    let a = action("c0ffee", "x@example.com", Operation::Remove);
    let tag = sign(&test_key(), &a.to_bytes());
    let expected =
        rmp_serde::to_vec(&(("c0ffee", "x@example.com", 0u8), tag)).unwrap();
    assert_eq!(a.sign(&test_key()).to_bytes(), expected);
}

#[test]
fn signing_is_deterministic() {
    let one = action("c0ffee", "x@example.com", Operation::Add).sign(&test_key());
    let two = action("c0ffee", "x@example.com", Operation::Add).sign(&test_key());
    assert_eq!(one.to_bytes(), two.to_bytes());
}

#[test]
fn verify_returns_the_signed_action() {
    for op in [Operation::Add, Operation::Remove] {
        let a = action("c0ffee", "x@example.com", op);
        assert_eq!(a.clone().sign(&test_key()).verify(&test_key()), Ok(a));
    }
}

#[test]
fn try_sign_signs_what_fits() {
    let a = action("c0ffee", "x@example.com", Operation::Add);
    let signed = a.clone().try_sign(&test_key()).unwrap();
    assert_eq!(signed.to_bytes(), a.clone().sign(&test_key()).to_bytes());
    assert_eq!(signed.verify(&test_key()), Ok(a));
}

#[test]
fn verify_refuses_another_key() {
    let a = action("c0ffee", "x@example.com", Operation::Add);
    assert_eq!(a.sign(&test_key()).verify(&other_key()), Err(AuthError));
}

#[test]
fn keys_that_differ_only_in_zero_padding_give_the_same_tag() {
    // HMAC pads a short key with zeros: these two keys are different and yet sign alike.
    let short = key("61");
    let padded = key("6100");
    let a = action("c0ffee", "x@example.com", Operation::Add);
    assert_eq!(a.clone().sign(&short).verify(&padded), Ok(a));
}

#[test]
fn from_bytes_reads_back_what_to_bytes_wrote() {
    let a = action("c0ffee", "x@example.com", Operation::Add);
    let bytes = a.clone().sign(&test_key()).to_bytes();
    let back = SignedAction::from_bytes(&bytes).unwrap();
    assert_eq!(back.to_bytes(), bytes);
    assert_eq!(back.verify(&test_key()), Ok(a));
}

#[test]
fn from_bytes_reads_texts_of_every_header_width() {
    let long = "n".repeat(40);
    let longer = "ä".repeat(300);
    let huge = "x".repeat(70_000);
    for node in ["", long.as_str(), longer.as_str(), huge.as_str()] {
        let a = action(node, "x@example.com", Operation::Remove);
        let bytes = a.clone().sign(&test_key()).to_bytes();
        let back = SignedAction::from_bytes(&bytes).unwrap();
        assert_eq!(back.verify(&test_key()), Ok(a));
    }
}

#[test]
fn every_single_bit_mutation_is_refused() {
    let a = action("c0ffee", "x@example.com", Operation::Add);
    let bytes = a.sign(&test_key()).to_bytes();
    for i in 0..bytes.len() {
        for bit in 0..8 {
            let mut forged = bytes.clone();
            forged[i] ^= 1 << bit;
            let accepted = match SignedAction::from_bytes(&forged) {
                Some(signed) => signed.verify(&test_key()).is_ok(),
                None => false,
            };
            assert!(!accepted, "byte {} bit {}", i, bit);
        }
    }
}

#[test]
fn a_tag_does_not_pass_for_another_action() {
    let tag = sign(&test_key(), &action("c0ffee", "x@example.com", Operation::Add).to_bytes());
    for (node, email, code) in [
        ("c0ffef", "x@example.com", 1u8),
        ("c0ffee", "y@example.com", 1u8),
        ("c0ffee", "x@example.com", 0u8),
    ] {
        let forged = rmp_serde::to_vec(&((node, email, code), tag.clone())).unwrap();
        let signed = SignedAction::from_bytes(&forged).unwrap();
        assert_eq!(signed.verify(&test_key()), Err(AuthError));
    }
}

#[test]
fn from_bytes_refuses_what_is_not_canonical() {
    let good = action("c0ffee", "x@example.com", Operation::Add).sign(&test_key()).to_bytes();
    // nothing at all, and a cut-off token
    assert!(SignedAction::from_bytes(&[]).is_none());
    assert!(SignedAction::from_bytes(&good[..good.len() - 1]).is_none());
    // bytes behind the end
    let mut longer = good.clone();
    longer.push(0);
    assert!(SignedAction::from_bytes(&longer).is_none());
    // an operation that does not exist
    let tag = vec![0u8; 32];
    let bad_op = rmp_serde::to_vec(&(("c0ffee", "x@example.com", 2u8), tag.clone())).unwrap();
    assert!(SignedAction::from_bytes(&bad_op).is_none());
    // an address that is none
    let bad_email = rmp_serde::to_vec(&(("c0ffee", "nobody", 1u8), tag.clone())).unwrap();
    assert!(SignedAction::from_bytes(&bad_email).is_none());
    // a text that is not UTF-8
    let mut bad_text = good.clone();
    bad_text[3] = 0xff;
    assert!(SignedAction::from_bytes(&bad_text).is_none());
    // a header that is longer than it need be: "c0ffee" announced with two bytes
    let mut wide = vec![0x92, 0x93, 0xd9, 0x06];
    wide.extend_from_slice(&good[3..]);
    assert!(SignedAction::from_bytes(&wide).is_none());
}

#[test]
fn add_twice_changes_the_table_once() {
    let mut db = MonitorTable::new();
    let a = action("A", "x@example.com", Operation::Add);
    assert_eq!((a.run(&mut db), a.run(&mut db)), (true, false));
    assert_eq!(db.len(), 1);
    assert!(db.contains(&Monitor { id: "A", email: "x@example.com" }));
}

#[test]
fn remove_twice_changes_the_table_at_most_once() {
    let mut db = MonitorTable::new();
    let remove = action("A", "x@example.com", Operation::Remove);
    // nothing to remove
    assert_eq!((remove.run(&mut db), remove.run(&mut db)), (false, false));
    // something to remove
    assert!(action("A", "x@example.com", Operation::Add).run(&mut db));
    assert_eq!((remove.run(&mut db), remove.run(&mut db)), (true, false));
    assert_eq!(db.len(), 0);
}

#[test]
fn run_touches_only_its_own_pair() {
    let mut db = MonitorTable::new();
    assert!(action("A", "x@example.com", Operation::Add).run(&mut db));
    assert!(action("A", "y@example.com", Operation::Add).run(&mut db));
    assert!(action("B", "x@example.com", Operation::Add).run(&mut db));
    assert!(action("A", "x@example.com", Operation::Remove).run(&mut db));
    assert_eq!(db.len(), 2);
    assert!(!db.contains(&Monitor { id: "A", email: "x@example.com" }));
    assert!(db.contains(&Monitor { id: "A", email: "y@example.com" }));
    assert!(db.contains(&Monitor { id: "B", email: "x@example.com" }));
}

#[test]
fn effect_of_the_stores_answer() {
    assert_eq!(Operation::Add.effect(StatementResult::Rows(1)), Ok(true));
    assert_eq!(Operation::Add.effect(StatementResult::UniqueViolation), Ok(false));
    assert_eq!(Operation::Add.effect(StatementResult::Failed), Err(StoreFailure));
    assert_eq!(Operation::Remove.effect(StatementResult::Rows(0)), Ok(false));
    assert_eq!(Operation::Remove.effect(StatementResult::Rows(1)), Ok(true));
    assert_eq!(Operation::Remove.effect(StatementResult::Rows(3)), Ok(true));
    assert_eq!(Operation::Remove.effect(StatementResult::UniqueViolation), Err(StoreFailure));
    assert_eq!(Operation::Remove.effect(StatementResult::Failed), Err(StoreFailure));
}
