use multistream::category::Targets;
use multistream::label::{Label, ScopeIndex};
use multistream::options::{DictionaryPlacement, Options};
use multistream::tree::SubTree;
use multistream::writer::TreeTokenWriter;

fn writer(together: bool, placement: DictionaryPlacement) -> TreeTokenWriter {
    TreeTokenWriter::new(
        Options { sibling_labels_together: together, dictionary_placement: placement },
        Targets::new(),
    )
}

fn leaf(w: &mut TreeTokenWriter, label: Label) -> usize {
    w.new_tree(SubTree { label, children: Vec::new() })
}

fn name(s: &str) -> Option<Vec<u8>> {
    Some(s.as_bytes().to_vec())
}

#[test]
fn inline_tree_of_string_and_bool() {
    let mut w = writer(false, DictionaryPlacement::Inline);
    let a = w.string(Some("x"));
    let b = w.bool(Some(true));
    let root = w.tagged_tuple("T", &[("a", a), ("b", b)]);
    assert_eq!((a, b, root), (1, 2, 3));
    assert!(w.can_finish());
    let (data, stats) = w.done();
    assert_eq!(data, vec![0, 2, 0, 1]);
    assert_eq!(stats.header_tags, 0);
    assert_eq!(stats.header_strings, 0);
    assert_eq!(stats.contents.tags, 2);
    assert_eq!(stats.contents.strings, 1);
    assert_eq!(stats.contents.bools, 1);
    assert_eq!(stats.contents.numbers, 0);
    assert_eq!(stats.contents.declarations, 0);
}

#[test]
fn header_dictionaries_come_first() {
    let mut w = writer(false, DictionaryPlacement::Header);
    let a = w.string(Some("x"));
    let b = w.bool(Some(true));
    w.tagged_tuple("T", &[("a", a), ("b", b)]);
    assert!(w.can_finish());
    let (data, stats) = w.done();
    let mut expected = vec![4, 42, 2];
    expected.extend_from_slice(b"_undeclared_variables");
    expected.extend_from_slice(b"T");
    expected.push(0);
    expected.extend_from_slice(&[2, 2, b'x']);
    expected.extend_from_slice(&[0, 2, 0, 1]);
    assert_eq!(data, expected);
    assert_eq!(stats.header_tags, 25);
    assert_eq!(stats.header_strings, 3);
    assert_eq!(stats.contents.tags, 2);
}

#[test]
fn header_strings_sorted_by_length() {
    let mut w = writer(false, DictionaryPlacement::Header);
    let a = w.string(Some("ab"));
    let b = w.string(Some("xyz"));
    let c = w.string(Some("ab"));
    let d = w.string(None);
    w.list(vec![a, b, c, d]);
    let (data, stats) = w.done();
    // Tags: one, "_undeclared_variables".
    let mut expected = vec![2, 42];
    expected.extend_from_slice(b"_undeclared_variables");
    // No identifiers.
    expected.push(0);
    // Strings by rank: "ab" (twice), "xyz", none; by length: "xyz", "ab", none.
    expected.extend_from_slice(&[6, 6, 4, 4]);
    expected.extend_from_slice(b"xyz");
    expected.extend_from_slice(b"ab");
    expected.extend_from_slice(&[255, 0]);
    // Contents: tags, strings by rank, lists.
    expected.extend_from_slice(&[0]);
    expected.extend_from_slice(&[0, 2, 0, 4]);
    expected.extend_from_slice(&[10]);
    assert_eq!(data, expected);
    assert_eq!(stats.header_strings, 11);
    assert_eq!(stats.contents.strings, 4);
    assert_eq!(stats.contents.lists, 1);
}

#[test]
fn inline_strings_end_with_zero() {
    let mut inline = writer(false, DictionaryPlacement::Inline);
    let s = inline.string(Some("ab"));
    assert_eq!(*inline.label(s), Label::String(Some(vec![b'a', b'b', 0])));
    assert_eq!(Label::String(Some(vec![b'a', b'b', 0])).string_byte_len(), 3);
    let (data, stats) = inline.done();
    // Inline, the string is written by its index only.
    assert_eq!(data, vec![0, 0]);
    assert_eq!(stats.contents.strings, 1);
}

#[test]
fn header_strings_have_no_zero() {
    let mut header = writer(false, DictionaryPlacement::Header);
    let s = header.string(Some("ab"));
    assert_eq!(*header.label(s), Label::String(Some(vec![b'a', b'b'])));
    let (data, _) = header.done();
    // The header of strings: one entry, of length 2, "ab"; then the contents.
    assert!(data.ends_with(&[2, 4, b'a', b'b', 0, 0]));
}

#[test]
fn nodes_can_be_read_back() {
    let mut w = writer(true, DictionaryPlacement::Inline);
    assert_eq!(w.node_count(), 1);
    let a = w.bool(Some(false));
    let b = w.string_enum("E");
    let l = w.list(vec![a, b, a]);
    assert_eq!(w.node_count(), 4);
    assert_eq!(w.children(l), &vec![a, b, a]);
    assert_eq!(*w.label(l), Label::List(Some(3)));
    assert_eq!(*w.label(b), Label::Tag(b"E".to_vec()));
    assert!(w.children(b).is_empty());
}

#[test]
fn references_are_numbered() {
    let mut w = writer(false, DictionaryPlacement::Inline);
    let r1 = leaf(&mut w, Label::LiteralReference(name("a")));
    let d = leaf(&mut w, Label::Declare(name("b")));
    let r2 = leaf(&mut w, Label::LiteralReference(name("b")));
    let r3 = leaf(&mut w, Label::LiteralReference(name("a")));
    w.tagged_tuple("T", &[("", r1), ("", d), ("", r2), ("", r3)]);
    assert!(w.can_finish());
    let (data, stats) = w.done();
    assert_eq!(data, vec![2, 0, 0, 0, 0, 2, 0, 2]);
    assert_eq!(stats.contents.declarations, 3);
    assert_eq!(stats.contents.idrefs, 3);
    assert_eq!(stats.contents.tags, 2);
}

#[test]
fn declarations_stay_in_their_scope() {
    let mut w = writer(false, DictionaryPlacement::Inline);
    let d = leaf(&mut w, Label::Declare(name("x")));
    let scope = w.new_tree(SubTree { label: Label::Scope(ScopeIndex(7)), children: vec![d] });
    let r = leaf(&mut w, Label::LiteralReference(name("x")));
    w.tagged_tuple("T", &[("", scope), ("", r)]);
    let (data, stats) = w.done();
    // The reference does not see the declaration inside the scope: it is
    // numbered as undeclared, and "x" is declared once more at the top.
    assert_eq!(data, vec![0, 0, 0, 0, 2]);
    assert_eq!(stats.contents.declarations, 2);
    assert_eq!(stats.contents.idrefs, 1);
}

#[test]
fn declarations_outside_a_scope_are_seen() {
    let mut w = writer(false, DictionaryPlacement::Inline);
    let d = leaf(&mut w, Label::Declare(name("x")));
    let r = leaf(&mut w, Label::LiteralReference(name("x")));
    let absent = leaf(&mut w, Label::LiteralReference(None));
    w.tagged_tuple("T", &[("", d), ("", r), ("", absent)]);
    let (data, stats) = w.done();
    // Declarations: "x" at the top and in the tree; references: one to "x" at
    // position 0 and one absent.
    assert_eq!(data, vec![0, 0, 0, 2, 0, 2]);
    assert_eq!(stats.contents.declarations, 2);
    assert_eq!(stats.contents.idrefs, 2);
}

#[test]
fn sibling_labels_together_changes_the_order() {
    let build = |together: bool| {
        let mut w = writer(together, DictionaryPlacement::Inline);
        let inner = w.bool(Some(false));
        let list = w.list(vec![inner]);
        let outer = w.bool(Some(true));
        w.tagged_tuple("T", &[("", list), ("", outer)]);
        w.done()
    };
    let (separate, _) = build(false);
    let (together, _) = build(true);
    // Tags, then booleans, then list lengths.
    assert_eq!(separate, vec![0, 2, 0, 1, 4]);
    assert_eq!(together, vec![0, 2, 1, 0, 4]);
}

#[test]
fn numbers_are_written_in_full() {
    let mut w = writer(true, DictionaryPlacement::Inline);
    let n = w.float(Some(2.0f64.to_bits()));
    let none = w.float(None);
    w.list(vec![n, none]);
    let (data, stats) = w.done();
    assert_eq!(data, vec![0, 1, 0, 0, 0, 0, 0, 0, 0, 0x40, 0, 6]);
    assert_eq!(stats.contents.numbers, 10);
    assert_eq!(stats.contents.lists, 1);
}

#[test]
fn string_enum_is_a_childless_tag() {
    let mut w = writer(false, DictionaryPlacement::Inline);
    let e = w.string_enum("Kind");
    let f = w.string_enum("Kind");
    w.list(vec![e, f]);
    let (data, stats) = w.done();
    // Tags by rank: "Kind" (twice), "_undeclared_variables".
    assert_eq!(data, vec![2, 0, 0, 6]);
    assert_eq!(stats.contents.tags, 3);
}

#[test]
fn header_cannot_hold_declarations() {
    let mut w = writer(false, DictionaryPlacement::Header);
    leaf(&mut w, Label::LiteralReference(name("free")));
    assert!(!w.can_finish());
    let mut w = writer(false, DictionaryPlacement::Header);
    w.bool(None);
    assert!(w.can_finish());
}

#[test]
fn initial_target_bytes_are_kept() {
    let mut targets = Targets::new();
    targets.contents.bools.write_all(&[9, 9]);
    targets.header_identifiers.write_all(&[7]);
    let mut w = TreeTokenWriter::new(
        Options { sibling_labels_together: false, dictionary_placement: DictionaryPlacement::Inline },
        targets,
    );
    w.bool(Some(true));
    let (data, stats) = w.done();
    assert_eq!(data, vec![7, 0, 9, 9, 1]);
    assert_eq!(stats.contents.bools, 3);
}

#[test]
fn grouping_siblings_writes_the_same_bytes_in_another_order() {
    let build = |together: bool| {
        let mut w = writer(together, DictionaryPlacement::Inline);
        let x = w.bool(Some(false));
        let y = w.float(Some(1));
        let inner = w.list(vec![x, y]);
        let z = w.bool(None);
        let s = w.string(Some("s"));
        let middle = w.tagged_tuple("M", &[("", inner), ("", z)]);
        let t = w.bool(Some(true));
        w.tagged_tuple("T", &[("", middle), ("", s), ("", t)]);
        w.done()
    };
    let (separate, s1) = build(false);
    let (together, s2) = build(true);
    assert_ne!(separate, together);
    assert_eq!(s1.to_string(), s2.to_string());
    let mut a = separate.clone();
    let mut b = together.clone();
    a.sort();
    b.sort();
    assert_eq!(a, b);
}

#[test]
fn frequent_tags_get_the_smallest_indices() {
    let mut w = writer(false, DictionaryPlacement::Inline);
    let a = w.string_enum("Rare");
    let b = w.string_enum("Often");
    let c = w.string_enum("Often");
    let d = w.string_enum("Often");
    w.list(vec![a, b, c, d]);
    let (data, stats) = w.done();
    // Tags by rank: "Often" (three times), then "_undeclared_variables" and
    // "Rare" (once each) in their order of first occurrence.
    assert_eq!(stats.contents.tags, 5);
    assert_eq!(data, vec![2, 4, 0, 0, 0, 10]);
}
