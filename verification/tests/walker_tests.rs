use metacache::tree::{Child, Node};
use metacache::walker::{walk, WalkRequest};

fn obj(name: &str, meta: &[u8]) -> Child {
    Child { name: name.as_bytes().to_vec(), node: Node::Object { meta: meta.to_vec() } }
}

fn dir(name: &str, children: Vec<Child>) -> Child {
    Child { name: name.as_bytes().to_vec(), node: Node::Branch { children } }
}

fn root(children: Vec<Child>) -> Node {
    Node::Branch { children }
}

fn names(out: &[metacache::entry::Entry]) -> Vec<String> {
    out.iter().map(|e| String::from_utf8(e.name.clone()).unwrap()).collect()
}

fn req(recursive: bool) -> WalkRequest {
    WalkRequest { recursive, cursor: None, limit: None }
}

#[test]
fn walk_objects_in_name_order() {
    let t = root(vec![obj("a", b"ma"), obj("b", b"mb"), obj("c", b"mc")]);
    let out = walk(&t, &req(true));
    assert_eq!(names(&out), vec!["a", "b", "c"]);
    assert_eq!(out[0].metadata, Some(b"ma".to_vec()));
    assert_eq!(out[2].metadata, Some(b"mc".to_vec()));
}

#[test]
fn walk_is_deterministic_across_runs() {
    let t = root(vec![
        obj("a", b"ma"),
        dir("d", vec![obj("x", b"mx"), obj("y", b"my")]),
        obj("z", b"mz"),
    ]);
    let r = req(true);
    let out1 = walk(&t, &r);
    let out2 = walk(&t, &r);
    assert_eq!(out1.len(), out2.len());
    for (e1, e2) in out1.iter().zip(out2.iter()) {
        assert_eq!(e1.name, e2.name);
        assert_eq!(e1.metadata, e2.metadata);
    }
}

#[test]
fn empty_plain_dir_yields_nothing() {
    let with_empty = root(vec![obj("a", b"m"), dir("empty", vec![]), obj("z", b"m")]);
    let without = root(vec![obj("a", b"m"), obj("z", b"m")]);
    for recursive in [false, true] {
        let o1 = walk(&with_empty, &req(recursive));
        let o2 = walk(&without, &req(recursive));
        assert_eq!(names(&o1), names(&o2));
    }
}

#[test]
fn recursive_walk_prefixes_child_names() {
    let t = root(vec![dir("d", vec![dir("e", vec![obj("y", b"my")]), obj("x", b"mx")])]);
    let out = walk(&t, &req(true));
    assert_eq!(names(&out), vec!["d/e/y", "d/x"]);
}

#[test]
fn non_recursive_walk_emits_directory_markers() {
    let t = root(vec![obj("a", b"ma"), dir("d", vec![obj("x", b"mx")])]);
    let out = walk(&t, &req(false));
    assert_eq!(names(&out), vec!["a", "d/"]);
    assert_eq!(out[1].metadata, None);
    assert!(out[1].is_dir());
    assert!(!out[0].is_dir());
}

#[test]
fn cursor_skips_names_at_or_before_it() {
    let t = root(vec![obj("a", b"1"), obj("b", b"2"), obj("c", b"3")]);
    let r = WalkRequest { recursive: true, cursor: Some(b"b".to_vec()), limit: None };
    let out = walk(&t, &r);
    assert_eq!(names(&out), vec!["c"]);
}

#[test]
fn limit_caps_the_result() {
    let t = root(vec![obj("a", b"1"), obj("b", b"2"), obj("c", b"3")]);
    let r = WalkRequest { recursive: true, cursor: None, limit: Some(2) };
    let out = walk(&t, &r);
    assert_eq!(names(&out), vec!["a", "b"]);
}

#[test]
fn sibling_order_follows_emission_keys() {
    // "a!" sorts before the directory "a" because the directory's
    // emission key carries the trailing separator, and '!' < '/'.
    let t = root(vec![obj("a!", b"m1"), dir("a", vec![obj("x", b"m2")])]);
    let out = walk(&t, &req(true));
    assert_eq!(names(&out), vec!["a!", "a/x"]);
}
