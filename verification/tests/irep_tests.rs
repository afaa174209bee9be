use gototranscoder::irep::{irep_eq, Irept};
use gototranscoder::names::{insert_entry, name_before};

fn node(id: &str) -> Irept {
    Irept::from_str_id(id)
}

fn node_with(id: &str, subt: Vec<Irept>, named: Vec<(&str, Irept)>, comments: Vec<(&str, Irept)>) -> Irept {
    let mut x = node(id);
    x.subt = subt;
    for (k, v) in named {
        x.named_subt.insert(k.to_string(), v);
    }
    for (k, v) in comments {
        x.comments.insert(k.to_string(), v);
    }
    x
}

#[test]
fn get_nil_is_a_leaf_named_nil() {
    let nil = Irept::get_nil();
    assert_eq!(nil.id, "nil");
    assert!(nil.subt.is_empty());
    assert_eq!(nil.named_subt.len(), 0);
    assert_eq!(nil.comments.len(), 0);
}

#[test]
fn from_string_keeps_the_identifier() {
    let x = Irept::from_string(String::from("symbol"));
    assert_eq!(x.id, "symbol");
    assert!(x.subt.is_empty());
    let y = Irept::from_str_id("");
    assert_eq!(y.id, "");
}

#[test]
fn equality_is_structural() {
    let a = node_with("plus", vec![node("a"), node("b")], vec![("type", node("int"))], vec![]);
    let b = node_with("plus", vec![node("a"), node("b")], vec![("type", node("int"))], vec![]);
    assert!(irep_eq(&a, &b));
    assert_eq!(a, b);
    let c = node_with("plus", vec![node("b"), node("a")], vec![("type", node("int"))], vec![]);
    assert_ne!(a, c);
    let d = node_with("plus", vec![node("a"), node("b")], vec![("type", node("long"))], vec![]);
    assert_ne!(a, d);
    let e = node_with("plus", vec![node("a"), node("b")], vec![], vec![("type", node("int"))]);
    assert_ne!(a, e);
    assert_ne!(node("x"), node("y"));
}

#[test]
fn clone_is_equal() {
    let a = node_with("call", vec![node("f"), Irept::get_nil()], vec![("k", node("v"))], vec![("#c", node("1"))]);
    let b = a.clone();
    assert_eq!(a, b);
}

#[test]
fn insert_entry_appends_a_new_name() {
    let mut m: Vec<(String, Irept)> = Vec::new();
    insert_entry(&mut m, String::from("a"), node("1"));
    insert_entry(&mut m, String::from("b"), node("2"));
    assert_eq!(m.len(), 2);
    assert_eq!(m[0].0, "a");
    assert_eq!(m[1].0, "b");
}

#[test]
fn insert_entry_keeps_names_in_order() {
    let mut m: Vec<(String, Irept)> = Vec::new();
    insert_entry(&mut m, String::from("type"), node("1"));
    insert_entry(&mut m, String::from("#location"), node("2"));
    insert_entry(&mut m, String::from("value"), node("3"));
    insert_entry(&mut m, String::from("identifier"), node("4"));
    let names: Vec<&str> = m.iter().map(|e| e.0.as_str()).collect();
    assert_eq!(names, vec!["#location", "identifier", "type", "value"]);
}

#[test]
fn name_order_is_byte_order() {
    assert!(name_before("a", "b"));
    assert!(!name_before("b", "a"));
    assert!(name_before("a", "ab"));
    assert!(!name_before("ab", "a"));
    assert!(name_before("", "a"));
    assert!(!name_before("", ""));
    assert!(!name_before("same", "same"));
    assert!(name_before("z", "é"));
    assert!(name_before("#c", "a"));
}

#[test]
fn insert_entry_replaces_in_place() {
    let mut m: Vec<(String, Irept)> = Vec::new();
    insert_entry(&mut m, String::from("a"), node("1"));
    insert_entry(&mut m, String::from("b"), node("2"));
    insert_entry(&mut m, String::from("a"), node("3"));
    assert_eq!(m.len(), 2);
    assert_eq!(m[0].0, "a");
    assert_eq!(m[0].1, node("3"));
    assert_eq!(m[1].1, node("2"));
}

#[test]
fn pretty_json_of_nil() {
    assert_eq!(Irept::get_nil().to_pretty_string(), "{\n    \"id\": \"nil\"\n}");
}

#[test]
fn pretty_json_of_a_tree() {
    let x = node_with("x", vec![node("y")], vec![("type", node("int"))], vec![("#loc", node("1"))]);
    let expected = "{\n    \"id\": \"x\",\n    \"subt\": [\n        {\n            \"id\": \"y\"\n        }\n    ],\n    \"type\": {\n        \"id\": \"int\"\n    },\n    \"#loc\": {\n        \"id\": \"1\"\n    }\n}";
    assert_eq!(x.to_pretty_string(), expected);
}

#[test]
fn json_leaves_out_empty_children() {
    let x = node_with("x", vec![], vec![("a", node("b"))], vec![]);
    assert_eq!(x.to_pretty_string(), "{\n    \"id\": \"x\",\n    \"a\": {\n        \"id\": \"b\"\n    }\n}");
}

#[test]
fn json_member_named_id_replaces_the_identifier() {
    let x = node_with("x", vec![], vec![("id", node("z"))], vec![]);
    assert_eq!(x.to_pretty_string(), "{\n    \"id\": {\n        \"id\": \"z\"\n    }\n}");
}

#[test]
fn to_json_has_the_identifier() {
    let j = node("abc").to_json();
    assert_eq!(j["id"].as_str(), Some("abc"));
}

#[test]
fn from_conversions_make_leaves() {
    let owned = String::from("symbol");
    assert_eq!(Irept::from("symbol"), node("symbol"));
    assert_eq!(Irept::from(&owned), node("symbol"));
    assert_eq!(Irept::from(owned), node("symbol"));
    let y: Irept = "nil".into();
    assert_eq!(y, Irept::get_nil());
}

#[test]
fn named_children_compare_as_maps() {
    let a = node_with("x", vec![], vec![("k1", node("a")), ("k2", node("b"))], vec![("c", node("1"))]);
    let b = node_with("x", vec![], vec![("k2", node("b")), ("k1", node("a"))], vec![("c", node("1"))]);
    assert_eq!(a, b);
    assert!(irep_eq(&a, &b));
    let c = node_with("x", vec![], vec![("k1", node("a")), ("k2", node("c"))], vec![("c", node("1"))]);
    assert_ne!(a, c);
    let d = node_with("x", vec![], vec![("k1", node("a"))], vec![("c", node("1")), ("k2", node("b"))]);
    assert_ne!(a, d);
}

#[test]
fn setting_a_name_twice_keeps_the_last_value() {
    let mut x = node("x");
    x.named_subt.insert(String::from("k"), node("a"));
    x.named_subt.insert(String::from("k"), node("b"));
    assert_eq!(x.named_subt.len(), 1);
    assert_eq!(*x.named_subt.value(0), node("b"));
}

#[test]
fn height_counts_levels() {
    let leaf = node("a");
    assert!(!leaf.height_at_most(0));
    assert!(leaf.height_at_most(1));
    let two = node_with("b", vec![node("c")], vec![], vec![]);
    assert!(!two.height_at_most(1));
    assert!(two.height_at_most(2));
    let three = node_with("d", vec![], vec![], vec![("#c", two.clone())]);
    assert!(!three.height_at_most(2));
    assert!(three.height_at_most(3));
    let named = node_with("e", vec![], vec![("n", three)], vec![]);
    assert!(!named.height_at_most(3));
    assert!(named.height_at_most(4));
}

#[test]
fn pretty_json_of_a_deep_chain() {
    let mut x = node("leaf");
    for _ in 0..200 {
        x = node_with("n", vec![x], vec![], vec![]);
    }
    assert!(x.height_at_most(8191));
    let text = x.to_pretty_string();
    assert!(text.starts_with("{\n    \"id\": \"n\",\n    \"subt\": [\n        {"));
    assert!(text.contains(&format!("\n{}\"id\": \"leaf\"", " ".repeat(4 * 401))));
}
