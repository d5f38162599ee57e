use akd::errors::VerificationError;
use akd::label::NodeLabel;

#[test]
fn bits_are_read_most_significant_first() {
    let mut v = [0u8; 32];
    v[0] = 0b1010_0000;
    v[31] = 0b0000_0001;
    let l = NodeLabel::new(v);
    assert!(l.get_bit(0));
    assert!(!l.get_bit(1));
    assert!(l.get_bit(2));
    assert!(!l.get_bit(3));
    assert!(l.get_bit(255));
    assert!(!l.get_bit(254));
}

#[test]
fn longest_common_prefix() {
    let a = NodeLabel::new([0x00u8; 32]);
    let b = NodeLabel::new([0xFFu8; 32]);
    assert_eq!(a.get_longest_common_prefix_len(&b), 0);
    assert_eq!(a.get_longest_common_prefix_len(&a), 256);
    let mut v = [0u8; 32];
    v[1] = 0b0001_0000;
    let c = NodeLabel::new(v);
    assert_eq!(a.get_longest_common_prefix_len(&c), 11);
    let root = NodeLabel::root();
    assert_eq!(root.get_longest_common_prefix_len(&c), 0);
}

#[test]
fn prefix_relation() {
    let mut v = [0u8; 32];
    v[0] = 0b1100_0000;
    let full = NodeLabel::new(v);
    let p2 = full.get_prefix(2);
    assert_eq!(p2.label_len, 2);
    assert_eq!(p2.label_val[0], 0b1100_0000);
    assert!(p2.is_prefix_of(&full));
    assert!(!full.is_prefix_of(&p2));
    assert!(NodeLabel::root().is_prefix_of(&full));
    let other = NodeLabel::new([0u8; 32]);
    assert!(!p2.is_prefix_of(&other));
}

#[test]
fn truncation_clears_the_tail() {
    let full = NodeLabel::new([0xFFu8; 32]);
    let p = full.get_prefix(12);
    assert_eq!(p.label_val[0], 0xFF);
    assert_eq!(p.label_val[1], 0xF0);
    assert!(p.label_val[2..].iter().all(|b| *b == 0));
    assert!(p.is_valid());
    let z = full.get_prefix(0);
    assert_eq!(z.label_val, [0u8; 32]);
    assert_eq!(full.get_prefix(256), full);
}

#[test]
fn error_text() {
    let e = VerificationError::MembershipProof("bad".to_string());
    assert_eq!(e.to_string(), "Verification error (Membership proof) - bad");
    let e = VerificationError::NonMembershipProof("x".to_string());
    assert_eq!(e.to_string(), "Verification error (Non-membership proof) - x");
    let e = VerificationError::LookupProof("y".to_string());
    assert_eq!(e.to_string(), "Verification error (Lookup proof) - y");
    let e = VerificationError::HistoryProof("z".to_string());
    assert_eq!(e.to_string(), "Verification error (History proof) - z");
}

#[test]
fn protobuf_error_becomes_serialization() {
    let io = std::io::Error::new(std::io::ErrorKind::Other, "truncated");
    let pe = protobuf::Error::from(io);
    let e = VerificationError::from_protobuf(&pe);
    assert!(matches!(e, VerificationError::Serialization(_)));
    assert!(e.to_string().starts_with("Verification error "));
    assert!(e.to_string().contains("truncated"));
}
