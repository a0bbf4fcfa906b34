use biome_text::json_syntax::{is_value_recovery, is_value_start, JsonSyntaxKind, SequenceKind};

#[test]
fn sequences_have_their_kinds() {
    assert_eq!(SequenceKind::Array.node_kind(), JsonSyntaxKind::JsonArrayValue);
    assert_eq!(SequenceKind::Object.node_kind(), JsonSyntaxKind::JsonObjectValue);
    assert_eq!(SequenceKind::Array.list_kind(), JsonSyntaxKind::JsonArrayElementList);
    assert_eq!(SequenceKind::Object.list_kind(), JsonSyntaxKind::JsonMemberList);
    assert_eq!(SequenceKind::Array.open_paren(), JsonSyntaxKind::LBrack);
    assert_eq!(SequenceKind::Object.open_paren(), JsonSyntaxKind::LCurly);
    assert_eq!(SequenceKind::Array.close_paren(), JsonSyntaxKind::RBrack);
    assert_eq!(SequenceKind::Object.close_paren(), JsonSyntaxKind::RCurly);
}

#[test]
fn value_starts_and_recovery() {
    assert!(is_value_start(JsonSyntaxKind::NullKw));
    assert!(is_value_start(JsonSyntaxKind::LCurly));
    assert!(!is_value_start(JsonSyntaxKind::Ident));
    assert!(!is_value_start(JsonSyntaxKind::Comma));
    assert!(is_value_recovery(JsonSyntaxKind::Comma));
    assert!(is_value_recovery(JsonSyntaxKind::RBrack));
    assert!(!is_value_recovery(JsonSyntaxKind::Colon));
    assert!(SequenceKind::Object.recovers_at(JsonSyntaxKind::Colon));
    assert!(!SequenceKind::Array.recovers_at(JsonSyntaxKind::Colon));
}
