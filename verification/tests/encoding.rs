use multistream::category::{PerCategory, Targets};
use multistream::encoding::{bool_bytes, maybe_varnum_bytes, number_bytes, varnum_bytes};
use multistream::label::{Label, ScopeIndex};
use multistream::ranking::rank_by_decreasing_key;
use multistream::statistics::Statistics;
use multistream::target::CompressionTarget;

#[test]
fn varnum_of_small_and_large_values() {
    assert_eq!(varnum_bytes(0), vec![0]);
    assert_eq!(varnum_bytes(1), vec![2]);
    assert_eq!(varnum_bytes(127), vec![254]);
    assert_eq!(varnum_bytes(128), vec![1, 2]);
    assert_eq!(varnum_bytes(300), vec![89, 4]);
    assert_eq!(varnum_bytes(16384), vec![1, 1, 2]);
}

#[test]
fn maybe_varnum_shifts_by_one() {
    assert_eq!(maybe_varnum_bytes(None), vec![0]);
    assert_eq!(maybe_varnum_bytes(Some(0)), vec![2]);
    assert_eq!(maybe_varnum_bytes(Some(127)), vec![1, 2]);
}

#[test]
fn bool_and_number_bytes() {
    assert_eq!(bool_bytes(Some(false)), vec![0]);
    assert_eq!(bool_bytes(Some(true)), vec![1]);
    assert_eq!(bool_bytes(None), vec![2]);
    assert_eq!(number_bytes(None), vec![0]);
    assert_eq!(number_bytes(Some(2.0f64.to_bits())), vec![1, 0, 0, 0, 0, 0, 0, 0, 0x40]);
    assert_eq!(number_bytes(Some(0x0102030405060708)), vec![1, 8, 7, 6, 5, 4, 3, 2, 1]);
}

#[test]
fn target_appends_and_resets() {
    let mut t = CompressionTarget::new();
    t.write_all(&[1, 2, 3]);
    t.write_varnum(300);
    t.write_maybe_varnum(None);
    assert_eq!(t.len(), 6);
    t.reset();
    assert_eq!(t.len(), 0);
    t.write_all(&[9]);
    assert_eq!(t.done(), vec![9]);
}

#[test]
fn per_category_reset_empties_every_stream() {
    let mut targets = Targets::new();
    targets.contents.strings.write_all(&[1, 2]);
    targets.contents.tags.write_all(&[3]);
    targets.contents.idrefs.write_varnum(5);
    targets.header_tags.write_all(&[4]);
    targets.contents.reset();
    assert_eq!(targets.contents.strings.len(), 0);
    assert_eq!(targets.contents.tags.len(), 0);
    assert_eq!(targets.contents.idrefs.len(), 0);
    assert_eq!(targets.header_tags.len(), 1);
    targets.reset();
    assert_eq!(targets.header_tags.len(), 0);
}

fn counts(base: usize) -> PerCategory<usize> {
    PerCategory {
        declarations: base,
        idrefs: base + 1,
        strings: base + 2,
        numbers: base + 3,
        bools: base + 4,
        lists: base + 5,
        tags: base + 6,
    }
}

#[test]
fn per_category_add_is_by_category() {
    let sum = counts(1).add(counts(10));
    assert_eq!(sum.declarations, 11);
    assert_eq!(sum.idrefs, 13);
    assert_eq!(sum.strings, 15);
    assert_eq!(sum.numbers, 17);
    assert_eq!(sum.bools, 19);
    assert_eq!(sum.lists, 21);
    assert_eq!(sum.tags, 23);
    let zero: PerCategory<usize> = Default::default();
    assert_eq!(zero.add(counts(3)).tags, 9);
}

#[test]
fn per_category_text() {
    assert_eq!(
        counts(0).to_string(),
        "strings (b): 2, tags (b): 6, numbers (b): 3, bools (b): 4, lists (b): 5"
    );
}

#[test]
fn statistics_add_and_text() {
    let a = Statistics { header_strings: 7, header_tags: 8, contents: counts(0) };
    let b = Statistics { header_strings: 100, header_tags: 1, contents: counts(1) };
    let sum = a.add(b);
    assert_eq!(sum.header_strings, 107);
    assert_eq!(sum.header_tags, 9);
    assert_eq!(sum.contents.lists, 11);
    assert_eq!(
        a.to_string(),
        "Header strings (b): 7, header tags (b): 8, strings (b): 2, tags (b): 6, numbers (b): 3, bools (b): 4, lists (b): 5"
    );
    let zero: Statistics = Default::default();
    assert_eq!(zero.header_tags, 0);
    assert_eq!(zero.contents.strings, 0);
}

#[test]
fn scope_index_keeps_its_value() {
    assert_eq!(ScopeIndex::internal_make(42), ScopeIndex(42));
}

#[test]
fn string_byte_lengths() {
    assert_eq!(Label::String(None).string_byte_len(), 2);
    assert_eq!(Label::String(Some(b"abc".to_vec())).string_byte_len(), 3);
    assert_eq!(Label::Tag(b"Tag".to_vec()).string_byte_len(), 3);
}

fn definition(label: &Label, index: Option<usize>) -> Vec<u8> {
    let mut t = CompressionTarget::new();
    label.write_definition(index, None, &mut t);
    t.done()
}

#[test]
fn definitions_of_each_label() {
    assert_eq!(definition(&Label::String(Some(b"ab".to_vec())), None), b"ab".to_vec());
    assert_eq!(definition(&Label::String(None), None), vec![255, 0]);
    assert_eq!(definition(&Label::Declare(Some(b"v".to_vec())), None), b"v".to_vec());
    assert_eq!(definition(&Label::Declare(None), None), vec![255, 0]);
    assert_eq!(definition(&Label::NumberedReference(None), None), vec![255, 0]);
    assert_eq!(definition(&Label::NumberedReference(Some(4)), None), vec![10]);
    assert_eq!(definition(&Label::Bool(Some(true)), None), vec![1]);
    assert_eq!(definition(&Label::List(Some(2)), None), vec![6]);
    assert_eq!(definition(&Label::List(None), None), vec![0]);
    assert_eq!(definition(&Label::Number(None), None), vec![0]);
    assert_eq!(definition(&Label::Tag(b"T".to_vec()), Some(3)), vec![6, b'T']);
    assert_eq!(definition(&Label::Scope(ScopeIndex(1)), Some(200)), vec![145, 2]);
}

#[test]
fn labels_compare_and_copy() {
    let a = Label::String(Some(b"x".to_vec()));
    let b = a.copy();
    assert!(a.equals(&b));
    assert!(!a.equals(&Label::String(None)));
    assert!(!a.equals(&Label::Tag(b"x".to_vec())));
}

#[test]
fn ranking_by_decreasing_key_keeps_ties_in_order() {
    let (ranking, positions) = rank_by_decreasing_key(&vec![1, 3, 3, 2]);
    assert_eq!(ranking, vec![(1, 3), (2, 3), (3, 2), (0, 1)]);
    assert_eq!(positions, vec![3, 0, 1, 2]);
}

#[test]
fn sums_do_not_depend_on_order_or_grouping() {
    let a = Statistics { header_strings: 7, header_tags: 8, contents: counts(0) };
    let b = Statistics { header_strings: 100, header_tags: 1, contents: counts(1) };
    let c = Statistics { header_strings: 3, header_tags: 30, contents: counts(5) };
    let ab = a.add(b);
    let ba = b.add(a);
    assert_eq!(ab.header_strings, ba.header_strings);
    assert_eq!(ab.header_tags, ba.header_tags);
    assert_eq!(ab.contents.to_string(), ba.contents.to_string());
    let left = a.add(b).add(c);
    let right = a.add(b.add(c));
    assert_eq!(left.to_string(), right.to_string());
    assert_eq!(left.contents.declarations, right.contents.declarations);
    assert_eq!(left.contents.idrefs, right.contents.idrefs);
    let zero: Statistics = Default::default();
    assert_eq!(a.add(zero).to_string(), a.to_string());
}

#[test]
fn labels_derive_comparisons() {
    let a = Label::Tag(b"x".to_vec());
    assert_eq!(a.clone(), a);
    assert!(Label::String(None) < Label::Tag(Vec::new()));
}

#[test]
fn definitions_do_not_depend_on_the_parent() {
    let parent = Label::Tag(b"P".to_vec());
    for label in [
        Label::String(Some(b"ab".to_vec())),
        Label::Number(Some(7)),
        Label::Bool(None),
        Label::List(Some(3)),
    ] {
        let mut a = CompressionTarget::new();
        label.write_definition(Some(2), None, &mut a);
        let mut b = CompressionTarget::new();
        label.write_definition(Some(2), Some((&parent, 5)), &mut b);
        assert_eq!(a.done(), b.done());
    }
}
