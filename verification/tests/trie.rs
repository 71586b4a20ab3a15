use path_trie::{Node, SegmentMap};

fn segs(path: &str) -> Vec<String> {
    let stripped = path.strip_prefix('/').unwrap_or(path);
    if stripped.is_empty() {
        return Vec::new();
    }
    stripped.split('/').map(|s| s.to_string()).collect()
}

fn key(s: &str) -> String {
    s.to_string()
}

#[test]
fn literal_lookup_roundtrip() {
    let mut root: Node<&str> = Node::new();
    root.insert(&segs("a"), "a");
    root.insert(&segs("ab"), "ab");
    assert_eq!(root.get(&segs("a")), Some(&"a"));
    assert_eq!(root.get(&segs("ab")), Some(&"ab"));
    assert_eq!(root.at(&segs("a")), Some(&"a"));
    assert_eq!(root.at(&segs("ab")), Some(&"ab"));
    assert_eq!(root.at(&segs("abc")), None);
    assert_eq!(root.get(&segs("abc")), None);
}

#[test]
fn trailing_separator_is_its_own_segment() {
    let mut root: Node<&str> = Node::new();
    root.insert(&segs("doc/"), "doc/");
    root.insert(&segs("doc/rust_faq.html"), "faq");
    assert_eq!(root.at(&segs("doc/")), Some(&"doc/"));
    assert_eq!(root.at(&segs("doc/rust_faq.html")), Some(&"faq"));
    assert_eq!(root.at(&segs("doc/other.html")), None);
}

#[test]
fn parameter_matches_exactly_one_segment() {
    let mut root: Node<&str> = Node::new();
    root.insert(&segs("user/:id"), "user");
    assert_eq!(root.at(&segs("user/42")), Some(&"user"));
    assert_eq!(root.at(&segs("user/42/extra")), None);
    assert_eq!(root.get(&segs("user/:id")), Some(&"user"));
    assert_eq!(root.get(&segs("user/42")), None);
}

#[test]
fn catchall_consumes_whole_remainder() {
    let mut root: Node<&str> = Node::new();
    root.insert(&segs("files/*rest"), "files");
    assert_eq!(root.at(&segs("files/a/b/c")), Some(&"files"));
    assert_eq!(root.at(&segs("files/x")), Some(&"files"));
    assert_eq!(root.at(&segs("files")), None);
}

#[test]
fn regex_segment_matches_by_pattern() {
    let mut root: Node<&str> = Node::new();
    assert!(root.try_insert(&segs("id/r{^\\d+$}"), "digits"));
    assert_eq!(root.at(&segs("id/123")), Some(&"digits"));
    assert_eq!(root.at(&segs("id/abc")), None);
}

#[test]
fn removal_prunes_empty_ancestors() {
    let mut root: Node<&str> = Node::new();
    root.insert(&segs("p/:id"), "p");
    assert_eq!(root.remove(&segs("p/:id")), Some("p"));
    assert_eq!(root.at(&segs("p/42")), None);
    assert!(root.is_empty());
}

#[test]
fn removal_of_missing_path_changes_nothing() {
    let mut root: Node<&str> = Node::new();
    root.insert(&segs("a/b"), "ab");
    assert_eq!(root.remove(&segs("a/x/c")), None);
    assert_eq!(root.remove(&segs("z")), None);
    assert_eq!(root.get(&segs("a/b")), Some(&"ab"));
    assert_eq!(root.at(&segs("a/b")), Some(&"ab"));
}

#[test]
fn removal_keeps_ancestors_with_other_content() {
    let mut root: Node<&str> = Node::new();
    root.insert(&segs("a"), "a");
    root.insert(&segs("a/b"), "ab");
    assert_eq!(root.remove(&segs("a/b")), Some("ab"));
    assert_eq!(root.get(&segs("a")), Some(&"a"));
    assert_eq!(root.get(&segs("a/b")), None);
    assert!(!root.is_empty());
}

#[test]
fn removal_discards_the_subtree_below_the_target() {
    let mut root: Node<&str> = Node::new();
    root.insert(&segs("a"), "a");
    root.insert(&segs("a/b/c"), "abc");
    assert_eq!(root.remove(&segs("a")), Some("a"));
    assert_eq!(root.get(&segs("a/b/c")), None);
    assert!(root.is_empty());
}

#[test]
fn overwrite_keeps_only_latest_value() {
    let mut root: Node<&str> = Node::new();
    root.insert(&segs("x/y"), "first");
    root.insert(&segs("x/y"), "second");
    assert_eq!(root.get(&segs("x/y")), Some(&"second"));
    assert_eq!(root.at(&segs("x/y")), Some(&"second"));
}

#[test]
fn later_parameter_key_replaces_the_tracked_one() {
    let mut root: Node<&str> = Node::new();
    root.insert(&segs("u/:a"), "va");
    root.insert(&segs("u/:b"), "vb");
    assert_eq!(root.at(&segs("u/77")), Some(&"vb"));
    assert_eq!(root.get(&segs("u/:a")), Some(&"va"));
    assert_eq!(root.get(&segs("u/:b")), Some(&"vb"));
}

#[test]
fn precedence_literal_then_regex_then_param_then_catchall() {
    let mut root: Node<&str> = Node::new();
    root.insert(&segs("s/42"), "lit");
    assert!(root.try_insert(&segs("s/r{^\\d+$}"), "rx"));
    root.insert(&segs("s/:p"), "param");
    root.insert(&segs("s/*c"), "catch");
    assert_eq!(root.at(&segs("s/42")), Some(&"lit"));
    assert_eq!(root.at(&segs("s/7")), Some(&"rx"));
    assert_eq!(root.at(&segs("s/abc")), Some(&"param"));
    assert_eq!(root.at(&segs("s/a/b")), Some(&"catch"));
}

#[test]
fn regexes_are_tried_in_insertion_order() {
    let mut root: Node<&str> = Node::new();
    assert!(root.try_insert(&segs("r/r{^a.*$}"), "first"));
    assert!(root.try_insert(&segs("r/r{^.*b$}"), "second"));
    assert_eq!(root.at(&segs("r/ab")), Some(&"first"));
    assert_eq!(root.at(&segs("r/cb")), Some(&"second"));
}

#[test]
fn catchall_short_circuit_ignores_deeper_registrations() {
    let mut root: Node<&str> = Node::new();
    root.insert(&segs("c/*all"), "top");
    root.insert(&segs("c/*all/deep"), "deep");
    assert_eq!(root.at(&segs("c/x/deep")), Some(&"top"));
    assert_eq!(root.at(&segs("c/x")), Some(&"top"));
    assert_eq!(root.get(&segs("c/*all/deep")), Some(&"deep"));
}

#[test]
fn invalid_regex_is_rejected_without_mutation() {
    let mut root: Node<&str> = Node::new();
    root.insert(&segs("ok"), "ok");
    assert!(!root.try_insert(&segs("bad/r{[}"), "nope"));
    assert_eq!(root.get(&segs("ok")), Some(&"ok"));
    assert_eq!(root.at(&segs("bad/anything")), None);
    assert_eq!(root.get(&segs("bad")), None);
}

#[test]
fn regex_key_removal_clears_the_pattern() {
    let mut root: Node<&str> = Node::new();
    assert!(root.try_insert(&segs("id/r{^\\d+$}"), "digits"));
    assert_eq!(root.remove(&segs("id/r{^\\d+$}")), Some("digits"));
    assert_eq!(root.at(&segs("id/123")), None);
    assert!(root.is_empty());
}

#[test]
fn empty_path_addresses_the_root() {
    let mut root: Node<&str> = Node::new();
    root.insert(&Vec::new(), "root");
    assert_eq!(root.get(&Vec::new()), Some(&"root"));
    assert_eq!(root.at(&Vec::new()), Some(&"root"));
}

#[test]
fn map_insert_get_and_is_empty() {
    let mut m: SegmentMap<u32> = SegmentMap::new();
    assert!(m.is_empty());
    m.insert(&key("foo"), 7);
    assert!(!m.is_empty());
    assert_eq!(m.get(&key("foo")), Some(&7));
    assert_eq!(m.get(&key("bar")), None);
}

#[test]
fn map_insert_keeps_existing_entry() {
    let mut m: SegmentMap<u32> = SegmentMap::new();
    m.insert(&key("foo"), 7);
    m.insert(&key("foo"), 9);
    assert_eq!(m.get(&key("foo")), Some(&7));
}

#[test]
fn map_matches_in_precedence_order() {
    let mut m: SegmentMap<u32> = SegmentMap::new();
    m.insert(&key("lit"), 1);
    assert!(m.try_insert(&key("r{^l.*$}"), 2));
    m.insert(&key(":p"), 3);
    m.insert(&key("*c"), 4);
    let hits = m.matches(&key("lit"));
    assert_eq!(hits, vec!["lit", "r{^l.*$}", ":p", "*c"]);
    let misses = m.matches(&key("zzz"));
    assert_eq!(misses, vec![":p", "*c"]);
}

#[test]
fn map_remove_clears_tracked_pointers() {
    let mut m: SegmentMap<u32> = SegmentMap::new();
    m.insert(&key(":p"), 3);
    m.insert(&key("*c"), 4);
    assert_eq!(m.remove(&key(":p")), Some(3));
    assert_eq!(m.matches(&key("zzz")), vec!["*c"]);
    assert_eq!(m.remove(&key("*c")), Some(4));
    assert!(m.matches(&key("zzz")).is_empty());
    assert!(m.is_empty());
}

#[test]
fn map_remove_regex_key_stops_matching() {
    let mut m: SegmentMap<u32> = SegmentMap::new();
    assert!(m.try_insert(&key("r{^\\d+$}"), 5));
    assert_eq!(m.matches(&key("123")), vec!["r{^\\d+$}"]);
    assert_eq!(m.remove(&key("r{^\\d+$}")), Some(5));
    assert!(m.matches(&key("123")).is_empty());
}

#[test]
fn map_rejects_invalid_regex_key() {
    let mut m: SegmentMap<u32> = SegmentMap::new();
    assert!(!m.try_insert(&key("r{[}"), 1));
    assert!(m.is_empty());
    assert!(m.try_insert(&key("plain"), 2));
    assert_eq!(m.get(&key("plain")), Some(&2));
}

#[test]
fn get_mut_updates_in_place() {
    let mut root: Node<u32> = Node::new();
    root.insert(&segs("a/b"), 1);
    {
        let v = root.get_mut(&segs("a/b")).unwrap();
        *v = 2;
    }
    assert_eq!(root.get(&segs("a/b")), Some(&2));
    assert!(root.get_mut(&segs("a/c")).is_none());
    assert!(root.get_mut(&segs("a")).is_none());
}

#[test]
fn map_get_mut_updates_in_place() {
    let mut m: SegmentMap<u32> = SegmentMap::new();
    m.insert(&key("foo"), 7);
    {
        let v = m.get_mut(&key("foo")).unwrap();
        *v = 8;
    }
    assert_eq!(m.get(&key("foo")), Some(&8));
    assert!(m.get_mut(&key("bar")).is_none());
}

#[test]
fn catchall_flag_survives_reinsertion() {
    let mut root: Node<&str> = Node::new();
    root.insert(&segs("x/*w"), "v1");
    root.insert(&segs("x/*w"), "v2");
    assert_eq!(root.at(&segs("x/a/b")), Some(&"v2"));
    assert_eq!(root.at(&segs("x/q")), Some(&"v2"));
    assert_eq!(root.get(&segs("x/*w")), Some(&"v2"));
}
