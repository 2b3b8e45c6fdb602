use tree_sync::encode::{escape_name, push_field};
use tree_sync::instruction::join_path;
use tree_sync::rules::{encode_generic, rule_for, Rule, TextKind};
use tree_sync::tree::{find_property, InstanceNode, Property};

#[test]
fn escape_name_replaces_separators_and_guards_traversal() {
    assert_eq!(escape_name(b"plain"), b"plain".to_vec());
    assert_eq!(escape_name(b"a/b\\c"), b"a_b_c".to_vec());
    assert_eq!(escape_name(b""), b"_".to_vec());
    assert_eq!(escape_name(b"."), b"_.".to_vec());
    assert_eq!(escape_name(b".."), b"_..".to_vec());
    assert_eq!(escape_name(b"..."), b"...".to_vec());
}

#[test]
fn push_field_escapes_special_bytes() {
    let mut out = b"x:".to_vec();
    push_field(&mut out, b"a=b\nc\\d");
    assert_eq!(out, b"x:a\\=b\\nc\\\\d".to_vec());
}

#[test]
fn join_path_separates_segments_by_slashes() {
    assert_eq!(join_path(&vec![]), Vec::<u8>::new());
    assert_eq!(join_path(&vec![b"one".to_vec()]), b"one".to_vec());
    assert_eq!(
        join_path(&vec![b"a".to_vec(), b"b".to_vec(), b"c.lua".to_vec()]),
        b"a/b/c.lua".to_vec()
    );
}

#[test]
fn rules_are_registered_by_class() {
    assert!(matches!(rule_for(&"Folder".to_string()), Some(Rule::Folder)));
    assert!(matches!(rule_for(&"Script".to_string()), Some(Rule::Text(TextKind::ServerScript))));
    assert!(matches!(rule_for(&"LocalScript".to_string()), Some(Rule::Text(TextKind::ClientScript))));
    assert!(matches!(rule_for(&"ModuleScript".to_string()), Some(Rule::Text(TextKind::ModuleScript))));
    assert!(matches!(rule_for(&"StringValue".to_string()), Some(Rule::Text(TextKind::StringValue))));
    assert!(matches!(rule_for(&"Model".to_string()), Some(Rule::Generic)));
    assert!(matches!(rule_for(&"Part".to_string()), Some(Rule::Generic)));
    assert!(matches!(rule_for(&"Configuration".to_string()), Some(Rule::Generic)));
    assert!(rule_for(&"Sound".to_string()).is_none());
    assert!(rule_for(&"folder".to_string()).is_none());
}

#[test]
fn find_property_returns_first_match() {
    let props = vec![
        Property::new("A".to_string(), "1".to_string()),
        Property::new("B".to_string(), "2".to_string()),
        Property::new("A".to_string(), "3".to_string()),
    ];
    assert_eq!(find_property(&props, &"A".to_string()), Some(0));
    assert_eq!(find_property(&props, &"B".to_string()), Some(1));
    assert_eq!(find_property(&props, &"C".to_string()), None);
}

#[test]
fn generic_encoding_of_a_node_without_properties() {
    let n = InstanceNode::new("x".to_string(), "Cl=ss\n".to_string());
    assert_eq!(encode_generic(&n), b"Cl\\=ss\\n\n".to_vec());
}
