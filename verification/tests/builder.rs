use sandstone::project_builder::{find_user_scripts, scripts_in_items, RustdocItem};

fn item(kind: &str, trait_name: Option<&str>, docs: Option<&str>, for_name: Option<&str>) -> RustdocItem {
    RustdocItem {
        kind: Some(kind.to_string()),
        trait_name: trait_name.map(|s| s.to_string()),
        docs: docs.map(|s| s.to_string()),
        for_name: for_name.map(|s| s.to_string()),
    }
}

#[test]
fn finds_scripts_in_rustdoc_json() {
    let json = br#"{
        "index": {
            "0:1": {"kind": "impl", "docs": "{script_type_id=3}",
                    "inner": {"trait": {"name": "HasTypeId"}, "for": {"inner": {"name": "Ball"}}}},
            "0:2": {"kind": "struct", "docs": "{script_type_id=9}", "inner": {}},
            "0:3": {"kind": "impl", "docs": "no key here",
                    "inner": {"trait": {"name": "HasTypeId"}, "for": {"inner": {"name": "Wall"}}}},
            "0:4": {"kind": "impl", "docs": "{script_type_id=5}",
                    "inner": {"trait": {"name": "Script"}, "for": {"inner": {"name": "Ball"}}}},
            "0:5": {"kind": "impl", "docs": "A paddle {script_type_id=12} moves",
                    "inner": {"trait": {"name": "HasTypeId"}, "for": {"inner": {"name": "Paddle"}}}}
        }
    }"#;
    assert_eq!(
        find_user_scripts(json),
        Some(vec![(3, "Ball".to_string()), (12, "Paddle".to_string())])
    );
}

#[test]
fn rustdoc_json_without_index_is_refused() {
    assert_eq!(find_user_scripts(b"{\"root\": 1}"), None);
    assert_eq!(find_user_scripts(b"not json"), None);
    assert_eq!(find_user_scripts(b"{\"index\": {}}"), Some(vec![]));
}

#[test]
fn script_with_bad_id_is_refused() {
    let json = br#"{"index": {"a": {"kind": "impl", "docs": "{script_type_id=x}",
        "inner": {"trait": {"name": "HasTypeId"}, "for": {"inner": {"name": "Ball"}}}}}}"#;
    assert_eq!(find_user_scripts(json), None);
}

#[test]
fn scripts_in_items_keeps_item_order() {
    let items = vec![
        item("impl", Some("HasTypeId"), Some("{script_type_id=7}"), Some("B")),
        item("impl", Some("HasTypeId"), Some("{script_type_id=2}"), Some("A")),
        item("fn", None, None, None),
    ];
    assert_eq!(scripts_in_items(&items), Some(vec![(7, "B".to_string()), (2, "A".to_string())]));
}

#[test]
fn scripts_in_items_refuses_malformed_impls() {
    let no_docs = vec![item("impl", Some("HasTypeId"), None, Some("A"))];
    assert_eq!(scripts_in_items(&no_docs), None);
    let no_name = vec![item("impl", Some("HasTypeId"), Some("{script_type_id=1}"), None)];
    assert_eq!(scripts_in_items(&no_name), None);
    let no_key_no_name = vec![item("impl", Some("HasTypeId"), Some("plain"), None)];
    assert_eq!(scripts_in_items(&no_key_no_name), Some(vec![]));
    let other_trait = vec![item("impl", Some("Other"), None, None)];
    assert_eq!(scripts_in_items(&other_trait), Some(vec![]));
}
