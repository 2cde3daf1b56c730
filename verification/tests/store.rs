use smalldeck::store::{default_kind, key_order, Entry, KeyOrder, Store};

fn entry(path: &str, name: &str, kind: &str) -> Entry {
    Entry { path: path.to_string(), name: name.to_string(), kind: kind.to_string() }
}

fn keys(s: &Store) -> Vec<String> {
    s.snapshot().into_iter().map(|(k, _)| k).collect()
}

#[test]
fn default_kind_is_app() {
    assert_eq!(default_kind(), "app");
}

#[test]
fn load_nothing_is_empty() {
    let s = Store::load(None);
    assert!(s.snapshot().is_empty());
    assert!(s.get("F13").is_none());
}

#[test]
fn set_then_get() {
    let mut s = Store::load(None);
    s.set("F13".to_string(), entry("/Applications/Safari.app", "Safari", "app"));
    let e = s.get("F13").unwrap();
    assert_eq!(e.path, "/Applications/Safari.app");
    assert_eq!(e.name, "Safari");
    assert_eq!(e.kind, "app");
    assert!(s.get("F14").is_none());
}

#[test]
fn set_replaces_and_remove_deletes() {
    let mut s = Store::load(None);
    s.set("F15".to_string(), entry("a", "a", "app"));
    s.set("F14".to_string(), entry("b", "b", "url"));
    s.set("F15".to_string(), entry("c", "c", "folder"));
    assert_eq!(s.get("F15").unwrap().path, "c");
    assert_eq!(keys(&s), vec!["F14", "F15"]);
    s.remove("F15");
    assert!(s.get("F15").is_none());
    assert_eq!(s.get("F14").unwrap().path, "b");
    s.remove("F20");
    assert_eq!(keys(&s), vec!["F14"]);
}

#[test]
fn snapshot_is_in_key_order() {
    let mut s = Store::load(None);
    for k in ["F24", "F13", "F2", "F20", "F13x", "a", "F1"] {
        s.set(k.to_string(), entry(k, k, "app"));
    }
    assert_eq!(keys(&s), vec!["F1", "F13", "F13x", "F2", "F20", "F24", "a"]);
}

#[test]
fn load_applies_bindings_in_order() {
    let saved = vec![
        ("F16".to_string(), entry("x", "x", "app")),
        ("F13".to_string(), entry("y", "y", "app")),
        ("F16".to_string(), entry("z", "z", "command")),
    ];
    let s = Store::load(Some(saved));
    assert_eq!(keys(&s), vec!["F13", "F16"]);
    assert_eq!(s.get("F16").unwrap().path, "z");
}

#[test]
fn load_snapshot_round_trip() {
    let mut s = Store::load(None);
    s.set("F18".to_string(), entry("p1", "n1", "app"));
    s.set("F13".to_string(), entry("p2", "n2", "url"));
    let t = Store::load(Some(s.snapshot()));
    let a = s.snapshot();
    let b = t.snapshot();
    assert_eq!(a.len(), b.len());
    for ((ka, ea), (kb, eb)) in a.iter().zip(b.iter()) {
        assert_eq!(ka, kb);
        assert_eq!((&ea.path, &ea.name, &ea.kind), (&eb.path, &eb.name, &eb.kind));
    }
}

#[test]
fn key_order_by_code_point() {
    assert!(matches!(key_order("F13", "F14"), KeyOrder::Less));
    assert!(matches!(key_order("F13", "F13"), KeyOrder::Equal));
    assert!(matches!(key_order("F2", "F13"), KeyOrder::Greater));
    assert!(matches!(key_order("F1", "F13"), KeyOrder::Less));
    assert!(matches!(key_order("", "a"), KeyOrder::Less));
    assert!(matches!(key_order("é", "z"), KeyOrder::Greater));
}

#[test]
fn entry_clone_keeps_fields() {
    let e = entry("p", "n", "k");
    let c = e.clone();
    assert_eq!((c.path, c.name, c.kind), (e.path, e.name, e.kind));
}
