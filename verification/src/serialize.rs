//! Writing the tree to the per-category streams.
//!
//! Labels of tags, strings, declarations and references are written as their
//! index in a dictionary ranked by number of occurrences; numbers, booleans and
//! list lengths are written in full; scopes are not written.

use vstd::prelude::*;
use crate::category::PerCategory;
use crate::encoding::spec_varnum;
use crate::label::{Label, LabelView, spec_definition};
use crate::ranking::{rank_of, rank_by_decreasing_key};
use crate::tally::{Tally, distinct, occurrence_counts, count_of, lemma_distinct_facts, lemma_distinct_len};
use crate::target::CompressionTarget;
use crate::tree::{SharedTree, label_views, kid_views, children_precede};
use crate::tally::{preorder, preorder_children, labels_at};

verus! {

/// The streams of content.
#[derive(PartialEq, Eq, Structural)]
pub enum Stream {
    Declarations,
    Idrefs,
    Strings,
    Numbers,
    Bools,
    Lists,
    Tags,
}

/// The stream that receives `label`, if any.
pub open spec fn stream_of(label: LabelView) -> Option<Stream> {
    match label {
        LabelView::String(_) => Some(Stream::Strings),
        LabelView::Number(_) => Some(Stream::Numbers),
        LabelView::Bool(_) => Some(Stream::Bools),
        LabelView::List(_) => Some(Stream::Lists),
        LabelView::Tag(_) => Some(Stream::Tags),
        LabelView::Declare(_) => Some(Stream::Declarations),
        LabelView::NumberedReference(_) => Some(Stream::Idrefs),
        _ => None,
    }
}

/// The stream of `targets` named `s`.
pub open spec fn stream_field(targets: PerCategory<CompressionTarget>, s: Stream) -> Seq<u8> {
    match s {
        Stream::Declarations => targets.declarations@,
        Stream::Idrefs => targets.idrefs@,
        Stream::Strings => targets.strings@,
        Stream::Numbers => targets.numbers@,
        Stream::Bools => targets.bools@,
        Stream::Lists => targets.lists@,
        Stream::Tags => targets.tags@,
    }
}

/// A dictionary: distinct labels with their numbers of occurrences.
pub struct DictionaryView {
    pub entries: Seq<LabelView>,
    pub counts: Seq<usize>,
}

/// The dictionary of the labels `seen`.
pub open spec fn dictionary_of(seen: Seq<LabelView>) -> DictionaryView {
    DictionaryView { entries: distinct(seen), counts: occurrence_counts(seen) }
}

/// The position of `label` among the entries.
pub open spec fn entry_index(entries: Seq<LabelView>, label: LabelView) -> int {
    choose|i: int| 0 <= i < entries.len() && entries[i] == label
}

/// The index written for `label`: the rank of its entry by decreasing number
/// of occurrences, ties by order of first occurrence.
pub open spec fn dictionary_index(d: DictionaryView, label: LabelView) -> int {
    rank_of(d.counts, entry_index(d.entries, label))
}

/// Labels that occur more often are written with smaller indices, and labels
/// that occur as often, in the order of their first occurrence: the most
/// frequent labels get the smallest numbers.
pub proof fn lemma_frequent_labels_get_small_indices(
    seen: Seq<LabelView>,
    l1: LabelView,
    l2: LabelView,
)
    requires
        seen.len() <= usize::MAX,
        seen.contains(l1),
        seen.contains(l2),
        count_of(seen, l1) > count_of(seen, l2) || (count_of(seen, l1) == count_of(seen, l2)
            && entry_index(distinct(seen), l1) < entry_index(distinct(seen), l2)),
    ensures
        0 <= dictionary_index(dictionary_of(seen), l1) < dictionary_index(dictionary_of(seen), l2),
{
    lemma_distinct_facts(seen);
    lemma_distinct_len(seen);
    let d = distinct(seen);
    let keys = occurrence_counts(seen);
    assert(d.contains(l1) && d.contains(l2));
    let i = entry_index(d, l1);
    let j = entry_index(d, l2);
    assert(0 <= i < d.len() && d[i] == l1);
    assert(0 <= j < d.len() && d[j] == l2);
    assert(keys[i] == count_of(seen, l1) as usize);
    assert(keys[j] == count_of(seen, l2) as usize);
    crate::ranking::lemma_greater_keys_rank_first(keys, i, j);
}

/// The dictionaries of the four kinds of labels written by index.
pub struct ContentDictionaries {
    pub strings: DictionaryView,
    pub tags: DictionaryView,
    pub declarations: DictionaryView,
    pub references: DictionaryView,
}

/// The dictionary in which `label` is looked up, if any.
pub open spec fn dictionary_for(dicts: ContentDictionaries, label: LabelView) -> Option<DictionaryView> {
    match label {
        LabelView::String(_) => Some(dicts.strings),
        LabelView::Tag(_) => Some(dicts.tags),
        LabelView::Declare(_) => Some(dicts.declarations),
        LabelView::NumberedReference(_) => Some(dicts.references),
        _ => None,
    }
}

/// The bytes written to its stream for `label`.
pub open spec fn content_bytes(label: LabelView, dicts: ContentDictionaries) -> Seq<u8> {
    match dictionary_for(dicts, label) {
        Some(d) => spec_varnum((dictionary_index(d, label) as u32) as nat),
        None => match label {
            LabelView::Scope(_) => Seq::empty(),
            _ => spec_definition(label, None),
        },
    }
}

/// The bytes that the labels `labels` add to stream `s`.
pub open spec fn stream_bytes(labels: Seq<LabelView>, s: Stream, dicts: ContentDictionaries) -> Seq<u8>
    decreases labels.len(),
{
    if labels.len() == 0 {
        Seq::empty()
    } else if stream_of(labels.last()) == Some(s) {
        stream_bytes(labels.drop_last(), s, dicts) + content_bytes(labels.last(), dicts)
    } else {
        stream_bytes(labels.drop_last(), s, dicts)
    }
}

/// `label` can be written: it is no literal reference, and its dictionary, if
/// it has one, holds it.
pub open spec fn writable(label: LabelView, dicts: ContentDictionaries) -> bool {
    &&& !(label is LiteralReference)
    &&& match dictionary_for(dicts, label) {
        Some(d) => d.entries.contains(label),
        None => true,
    }
}

/// The nodes whose labels are written after that of `id`, in order: with
/// `together`, the labels of all the children of `id` come before the
/// subtrees below them; otherwise each child is followed by its own subtree.
pub open spec fn emitted(kids: Seq<Seq<SharedTree>>, id: int, together: bool) -> Seq<SharedTree>
    decreases id, 1int, 0int,
{
    if 0 <= id < kids.len() {
        (if together {
            kids[id]
        } else {
            Seq::empty()
        }) + emitted_rest(kids, id, 0, together)
    } else {
        Seq::empty()
    }
}

/// The part of `emitted(kids, id, together)` due to the children from the `k`-th on.
pub open spec fn emitted_rest(kids: Seq<Seq<SharedTree>>, id: int, k: int, together: bool) -> Seq<
    SharedTree,
>
    decreases id, 0int, kids[id].len() - k,
{
    if 0 <= id < kids.len() && 0 <= k < kids[id].len() && kids[id][k] < id {
        (if together {
            Seq::empty()
        } else {
            seq![kids[id][k]]
        }) + emitted(kids, kids[id][k] as int, together) + emitted_rest(kids, id, k + 1, together)
    } else {
        Seq::empty()
    }
}


/// The view of an optional tag label.
pub open spec fn tag_view(tag: Option<&Label>) -> Option<LabelView> {
    match tag {
        Some(t) => Some(t@),
        None => None,
    }
}

/// The view of a parent: a tag label and an index.
pub open spec fn parent_view(parent: Option<(&Label, usize)>) -> Option<(LabelView, usize)> {
    match parent {
        Some((t, k)) => Some((t@, k)),
        None => None,
    }
}

/// The parent of the `k`-th child of a node whose nearest tag is `tag`.
pub open spec fn with_index(tag: Option<LabelView>, k: int) -> Option<(LabelView, usize)> {
    match tag {
        Some(t) => Some((t, k as usize)),
        None => None,
    }
}

/// The nearest tag for the children of a node labelled `label`: the label
/// itself if it is a tag, else the nearest tag above it, `above`.
pub open spec fn nearest_tag(label: LabelView, above: Option<LabelView>) -> Option<LabelView> {
    match label {
        LabelView::Tag(_) => Some(label),
        _ => above,
    }
}

/// The parents handed to the dictionaries with the labels of the nodes below
/// `id`, in the order of `emitted`: for each node, the nearest tag among its
/// parent node and the nodes above it (`above` when there is none), with the
/// index of the node among the children of its parent node.
pub open spec fn emitted_parents(
    labels: Seq<LabelView>,
    kids: Seq<Seq<SharedTree>>,
    id: int,
    together: bool,
    above: Option<LabelView>,
) -> Seq<Option<(LabelView, usize)>>
    decreases id, 1int, 0int,
{
    if 0 <= id < kids.len() {
        let tag = nearest_tag(labels[id], above);
        (if together {
            Seq::new(kids[id].len(), |k: int| with_index(tag, k))
        } else {
            Seq::empty()
        }) + emitted_parents_rest(labels, kids, id, 0, together, tag)
    } else {
        Seq::empty()
    }
}

/// The part of `emitted_parents` due to the children from the `k`-th on, the
/// nearest tag of the node being `tag`.
pub open spec fn emitted_parents_rest(
    labels: Seq<LabelView>,
    kids: Seq<Seq<SharedTree>>,
    id: int,
    k: int,
    together: bool,
    tag: Option<LabelView>,
) -> Seq<Option<(LabelView, usize)>>
    decreases id, 0int, kids[id].len() - k,
{
    if 0 <= id < kids.len() && 0 <= k < kids[id].len() && kids[id][k] < id {
        (if together {
            Seq::empty()
        } else {
            seq![with_index(tag, k)]
        }) + emitted_parents(labels, kids, kids[id][k] as int, together, tag)
            + emitted_parents_rest(labels, kids, id, k + 1, together, tag)
    } else {
        Seq::empty()
    }
}

/// The contents of the seven streams.
pub open spec fn streams_view(t: PerCategory<CompressionTarget>) -> PerCategory<Seq<u8>> {
    PerCategory {
        declarations: t.declarations@,
        idrefs: t.idrefs@,
        strings: t.strings@,
        numbers: t.numbers@,
        bools: t.bools@,
        lists: t.lists@,
        tags: t.tags@,
    }
}

/// The streams `p` after writing the labels `labels`.
pub open spec fn append_streams(
    p: PerCategory<Seq<u8>>,
    labels: Seq<LabelView>,
    dicts: ContentDictionaries,
) -> PerCategory<Seq<u8>> {
    PerCategory {
        declarations: p.declarations + stream_bytes(labels, Stream::Declarations, dicts),
        idrefs: p.idrefs + stream_bytes(labels, Stream::Idrefs, dicts),
        strings: p.strings + stream_bytes(labels, Stream::Strings, dicts),
        numbers: p.numbers + stream_bytes(labels, Stream::Numbers, dicts),
        bools: p.bools + stream_bytes(labels, Stream::Bools, dicts),
        lists: p.lists + stream_bytes(labels, Stream::Lists, dicts),
        tags: p.tags + stream_bytes(labels, Stream::Tags, dicts),
    }
}

/// The streams `p` with `bytes` appended to stream `s`.
pub open spec fn add_to_stream(p: PerCategory<Seq<u8>>, s: Stream, bytes: Seq<u8>) -> PerCategory<
    Seq<u8>,
> {
    match s {
        Stream::Declarations => PerCategory { declarations: p.declarations + bytes, ..p },
        Stream::Idrefs => PerCategory { idrefs: p.idrefs + bytes, ..p },
        Stream::Strings => PerCategory { strings: p.strings + bytes, ..p },
        Stream::Numbers => PerCategory { numbers: p.numbers + bytes, ..p },
        Stream::Bools => PerCategory { bools: p.bools + bytes, ..p },
        Stream::Lists => PerCategory { lists: p.lists + bytes, ..p },
        Stream::Tags => PerCategory { tags: p.tags + bytes, ..p },
    }
}

proof fn lemma_stream_bytes_one(l: LabelView, s: Stream, dicts: ContentDictionaries)
    ensures
        stream_bytes(seq![l], s, dicts) == (if stream_of(l) == Some(s) {
            content_bytes(l, dicts)
        } else {
            Seq::<u8>::empty()
        }),
{
    let one = seq![l];
    assert(one.drop_last() =~= Seq::<LabelView>::empty());
    assert(one.last() == l);
    assert(stream_bytes(Seq::<LabelView>::empty(), s, dicts) == Seq::<u8>::empty());
    assert(stream_bytes(one.drop_last(), s, dicts) == Seq::<u8>::empty());
    assert(Seq::<u8>::empty() + content_bytes(l, dicts) =~= content_bytes(l, dicts));
}

proof fn lemma_append_one(p: PerCategory<Seq<u8>>, l: LabelView, dicts: ContentDictionaries)
    ensures
        stream_of(l) matches Some(s) ==> append_streams(p, seq![l], dicts) == add_to_stream(
            p,
            s,
            content_bytes(l, dicts),
        ),
        stream_of(l) is None ==> append_streams(p, seq![l], dicts) == p,
{
    let one = seq![l];
    lemma_stream_bytes_one(l, Stream::Declarations, dicts);
    lemma_stream_bytes_one(l, Stream::Idrefs, dicts);
    lemma_stream_bytes_one(l, Stream::Strings, dicts);
    lemma_stream_bytes_one(l, Stream::Numbers, dicts);
    lemma_stream_bytes_one(l, Stream::Bools, dicts);
    lemma_stream_bytes_one(l, Stream::Lists, dicts);
    lemma_stream_bytes_one(l, Stream::Tags, dicts);
    let r = append_streams(p, one, dicts);
    let e = Seq::<u8>::empty();
    assert(p.declarations + e =~= p.declarations);
    assert(p.idrefs + e =~= p.idrefs);
    assert(p.strings + e =~= p.strings);
    assert(p.numbers + e =~= p.numbers);
    assert(p.bools + e =~= p.bools);
    assert(p.lists + e =~= p.lists);
    assert(p.tags + e =~= p.tags);
}

proof fn lemma_stream_bytes_concat(
    a: Seq<LabelView>,
    b: Seq<LabelView>,
    s: Stream,
    dicts: ContentDictionaries,
)
    ensures
        stream_bytes(a + b, s, dicts) == stream_bytes(a, s, dicts) + stream_bytes(b, s, dicts),
    decreases b.len(),
{
    if b.len() == 0 {
        assert(a + b =~= a);
        assert(stream_bytes(a, s, dicts) + stream_bytes(b, s, dicts) =~= stream_bytes(a, s, dicts));
    } else {
        lemma_stream_bytes_concat(a, b.drop_last(), s, dicts);
        assert((a + b).drop_last() =~= a + b.drop_last());
        assert((a + b).last() == b.last());
        if stream_of(b.last()) == Some(s) {
            assert(stream_bytes(a, s, dicts) + stream_bytes(b, s, dicts) =~= stream_bytes(a, s, dicts)
                + stream_bytes(b.drop_last(), s, dicts) + content_bytes(b.last(), dicts));
        }
    }
}

/// Writing `a` and then `b` is writing `a + b`.
pub proof fn lemma_append_streams_concat(
    p: PerCategory<Seq<u8>>,
    a: Seq<LabelView>,
    b: Seq<LabelView>,
    dicts: ContentDictionaries,
)
    ensures
        append_streams(append_streams(p, a, dicts), b, dicts) == append_streams(p, a + b, dicts),
{
    lemma_stream_bytes_concat(a, b, Stream::Declarations, dicts);
    lemma_stream_bytes_concat(a, b, Stream::Idrefs, dicts);
    lemma_stream_bytes_concat(a, b, Stream::Strings, dicts);
    lemma_stream_bytes_concat(a, b, Stream::Numbers, dicts);
    lemma_stream_bytes_concat(a, b, Stream::Bools, dicts);
    lemma_stream_bytes_concat(a, b, Stream::Lists, dicts);
    lemma_stream_bytes_concat(a, b, Stream::Tags, dicts);
    let l = append_streams(append_streams(p, a, dicts), b, dicts);
    let r = append_streams(p, a + b, dicts);
    assert(l.declarations =~= r.declarations);
    assert(l.idrefs =~= r.idrefs);
    assert(l.strings =~= r.strings);
    assert(l.numbers =~= r.numbers);
    assert(l.bools =~= r.bools);
    assert(l.lists =~= r.lists);
    assert(l.tags =~= r.tags);
}

proof fn lemma_append_streams_empty(p: PerCategory<Seq<u8>>, dicts: ContentDictionaries)
    ensures
        append_streams(p, Seq::empty(), dicts) == p,
{
    let r = append_streams(p, Seq::empty(), dicts);
    assert(r.declarations =~= p.declarations);
    assert(r.idrefs =~= p.idrefs);
    assert(r.strings =~= p.strings);
    assert(r.numbers =~= p.numbers);
    assert(r.bools =~= p.bools);
    assert(r.lists =~= p.lists);
    assert(r.tags =~= p.tags);
}

proof fn lemma_labels_at_concat(labels: Seq<LabelView>, a: Seq<SharedTree>, b: Seq<SharedTree>)
    ensures
        crate::tally::labels_at(labels, a + b) == crate::tally::labels_at(labels, a)
            + crate::tally::labels_at(labels, b),
{
    assert(crate::tally::labels_at(labels, a + b) =~= crate::tally::labels_at(labels, a)
        + crate::tally::labels_at(labels, b));
}

proof fn lemma_contains_concat<A>(a: Seq<A>, b: Seq<A>, x: A)
    ensures
        a.contains(x) ==> (a + b).contains(x),
        b.contains(x) ==> (a + b).contains(x),
{
    if a.contains(x) {
        let i = choose|i: int| 0 <= i < a.len() && a[i] == x;
        assert((a + b)[i] == x);
    }
    if b.contains(x) {
        let i = choose|i: int| 0 <= i < b.len() && b[i] == x;
        assert((a + b)[a.len() + i] == x);
    }
}

proof fn lemma_preorder_children_contains(kids: Seq<Seq<SharedTree>>, id: int, j: int, k: int)
    requires
        children_precede(kids),
        0 <= id < kids.len(),
        0 <= j <= k < kids[id].len(),
    ensures
        forall|x: SharedTree|
            preorder(kids, kids[id][k] as int).contains(x) ==> #[trigger] preorder_children(
                kids,
                id,
                j,
            ).contains(x),
    decreases k - j,
{
    let child = kids[id][j];
    assert(child < id);
    assert forall|x: SharedTree| preorder(kids, kids[id][k] as int).contains(x) implies #[trigger] preorder_children(
        kids,
        id,
        j,
    ).contains(x) by {
        lemma_contains_concat(preorder(kids, child as int), preorder_children(kids, id, j + 1), x);
        if j < k {
            lemma_preorder_children_contains(kids, id, j + 1, k);
        }
    }
}

/// The subtree of a child of `id` lies within the subtree of `id`.
pub proof fn lemma_preorder_child(kids: Seq<Seq<SharedTree>>, id: int, k: int)
    requires
        children_precede(kids),
        0 <= id < kids.len(),
        0 <= k < kids[id].len(),
    ensures
        forall|x: SharedTree|
            preorder(kids, kids[id][k] as int).contains(x) ==> #[trigger] preorder(kids, id).contains(x),
        preorder(kids, id).contains(kids[id][k]),
        preorder(kids, id).contains(id as usize),
{
    lemma_preorder_children_contains(kids, id, 0, k);
    assert forall|x: SharedTree| preorder(kids, kids[id][k] as int).contains(x) implies #[trigger] preorder(
        kids,
        id,
    ).contains(x) by {
        lemma_contains_concat(seq![id as usize], preorder_children(kids, id, 0), x);
    }
    let child = kids[id][k];
    assert(child < id);
    assert(preorder(kids, child as int)[0] == child);
    assert(preorder(kids, child as int).contains(child));
    assert(preorder(kids, id)[0] == id as usize);
}

/// Without grouping of siblings, the nodes below `id` are written in pre-order.
pub proof fn lemma_ungrouped_is_preorder(kids: Seq<Seq<SharedTree>>, id: int)
    requires
        0 <= id < kids.len(),
    ensures
        seq![id as usize] + emitted(kids, id, false) == preorder(kids, id),
    decreases id, 1int, 0int,
{
    lemma_ungrouped_rest_is_preorder(kids, id, 0);
    assert(emitted(kids, id, false) =~= emitted_rest(kids, id, 0, false));
    assert(seq![id as usize] + emitted(kids, id, false) =~= preorder(kids, id));
}

proof fn lemma_ungrouped_rest_is_preorder(kids: Seq<Seq<SharedTree>>, id: int, k: int)
    requires
        0 <= id < kids.len(),
        0 <= k,
    ensures
        emitted_rest(kids, id, k, false) == preorder_children(kids, id, k),
    decreases id, 0int, kids[id].len() - k,
{
    if k < kids[id].len() && kids[id][k] < id {
        let c = kids[id][k];
        lemma_ungrouped_is_preorder(kids, c as int);
        lemma_ungrouped_rest_is_preorder(kids, id, k + 1);
        assert(emitted_rest(kids, id, k, false) =~= (seq![c] + emitted(kids, c as int, false))
            + emitted_rest(kids, id, k + 1, false));
    }
}

/// With grouping of siblings, the nodes below `id` are written as the children
/// of `id` in their order, then the subtree of the first child, then that of
/// the second, and so on.
pub proof fn lemma_grouped_order(kids: Seq<Seq<SharedTree>>, id: int)
    requires
        children_precede(kids),
        0 <= id < kids.len(),
    ensures
        emitted(kids, id, true) == kids[id] + Seq::new(
            kids[id].len(),
            |k: int| emitted(kids, kids[id][k] as int, true),
        ).flatten(),
{
    let n = kids[id].len() as int;
    lemma_grouped_rest_order(kids, id, 0);
    assert(Seq::new((n - 0) as nat, |j: int| emitted(kids, kids[id][0 + j] as int, true)) =~= Seq::new(
        kids[id].len(),
        |k: int| emitted(kids, kids[id][k] as int, true),
    ));
}

proof fn lemma_grouped_rest_order(kids: Seq<Seq<SharedTree>>, id: int, k: int)
    requires
        children_precede(kids),
        0 <= id < kids.len(),
        0 <= k <= kids[id].len(),
    ensures
        emitted_rest(kids, id, k, true) == Seq::new(
            (kids[id].len() - k) as nat,
            |j: int| emitted(kids, kids[id][k + j] as int, true),
        ).flatten(),
    decreases kids[id].len() - k,
{
    let n = kids[id].len() as int;
    let s = Seq::new((n - k) as nat, |j: int| emitted(kids, kids[id][k + j] as int, true));
    if k < n {
        lemma_grouped_rest_order(kids, id, k + 1);
        let t = Seq::new((n - (k + 1)) as nat, |j: int| emitted(kids, kids[id][(k + 1) + j] as int, true));
        assert(s.drop_first() =~= t);
        assert(s.first() == emitted(kids, kids[id][k] as int, true));
        assert(kids[id][k] < id);
        assert(emitted_rest(kids, id, k, true) =~= s.first() + t.flatten());
    } else {
        assert(s.len() == 0);
    }
}

/// The parents handed along with the labels below `id`: with grouping, first
/// one for each child of `id` (the nearest tag `tag` and the child's index),
/// then those of the subtree of each child in order; without grouping, for
/// each child in order, its own parent followed by those of its subtree. The
/// nearest tag `tag` is the label of `id` if it is a tag, else `above`.
pub proof fn lemma_parents_order(
    labels: Seq<LabelView>,
    kids: Seq<Seq<SharedTree>>,
    id: int,
    above: Option<LabelView>,
)
    requires
        children_precede(kids),
        0 <= id < kids.len(),
    ensures
        ({
            let tag = match labels[id] {
                LabelView::Tag(_) => Some(labels[id]),
                _ => above,
            };
            let n = kids[id].len();
            &&& emitted_parents(labels, kids, id, true, above) == Seq::new(
                n,
                |k: int| match tag {
                    Some(t) => Some((t, k as usize)),
                    None => None,
                },
            ) + Seq::new(n, |k: int| emitted_parents(labels, kids, kids[id][k] as int, true, tag)).flatten()
            &&& emitted_parents(labels, kids, id, false, above) == Seq::new(
                n,
                |k: int|
                    seq![
                        match tag {
                            Some(t) => Some((t, k as usize)),
                            None => None,
                        },
                    ] + emitted_parents(labels, kids, kids[id][k] as int, false, tag),
            ).flatten()
        }),
{
    let tag = nearest_tag(labels[id], above);
    let n = kids[id].len() as int;
    lemma_parents_rest_order(labels, kids, id, 0, tag, true);
    lemma_parents_rest_order(labels, kids, id, 0, tag, false);
    assert(Seq::new(kids[id].len(), |k: int| with_index(tag, k)) =~= Seq::new(
        kids[id].len(),
        |k: int| match tag {
            Some(t) => Some((t, k as usize)),
            None => None,
        },
    ));
    assert(Seq::new((n - 0) as nat, |j: int| parents_block(labels, kids, id, 0 + j, true, tag)) =~= Seq::new(
        kids[id].len(),
        |k: int| emitted_parents(labels, kids, kids[id][k] as int, true, tag),
    ));
    assert(Seq::new((n - 0) as nat, |j: int| parents_block(labels, kids, id, 0 + j, false, tag)) =~= Seq::new(
        kids[id].len(),
        |k: int|
            seq![
                match tag {
                    Some(t) => Some((t, k as usize)),
                    None => None,
                },
            ] + emitted_parents(labels, kids, kids[id][k] as int, false, tag),
    ));
    assert(emitted_parents(labels, kids, id, false, above) =~= emitted_parents_rest(labels, kids, id, 0, false, tag));
}

/// The parents handed along with the `k`-th child of `id` and its subtree.
spec fn parents_block(
    labels: Seq<LabelView>,
    kids: Seq<Seq<SharedTree>>,
    id: int,
    k: int,
    together: bool,
    tag: Option<LabelView>,
) -> Seq<Option<(LabelView, usize)>> {
    (if together {
        Seq::empty()
    } else {
        seq![with_index(tag, k)]
    }) + emitted_parents(labels, kids, kids[id][k] as int, together, tag)
}

proof fn lemma_parents_rest_order(
    labels: Seq<LabelView>,
    kids: Seq<Seq<SharedTree>>,
    id: int,
    k: int,
    tag: Option<LabelView>,
    together: bool,
)
    requires
        children_precede(kids),
        0 <= id < kids.len(),
        0 <= k <= kids[id].len(),
    ensures
        emitted_parents_rest(labels, kids, id, k, together, tag) == Seq::new(
            (kids[id].len() - k) as nat,
            |j: int| parents_block(labels, kids, id, k + j, together, tag),
        ).flatten(),
    decreases kids[id].len() - k,
{
    let n = kids[id].len() as int;
    let s = Seq::new((n - k) as nat, |j: int| parents_block(labels, kids, id, k + j, together, tag));
    if k < n {
        lemma_parents_rest_order(labels, kids, id, k + 1, tag, together);
        let t = Seq::new((n - (k + 1)) as nat, |j: int| parents_block(labels, kids, id, (k + 1) + j, together, tag));
        assert(s.drop_first() =~= t);
        assert(s.first() == parents_block(labels, kids, id, k, together, tag));
        assert(kids[id][k] < id);
        assert(emitted_parents_rest(labels, kids, id, k, together, tag) =~= s.first() + t.flatten());
    } else {
        assert(s.len() == 0);
    }
}

/// Grouping the labels of siblings changes only the order in which the labels
/// below a node are written: the same labels are written as many times.
pub proof fn lemma_grouping_keeps_labels(labels: Seq<LabelView>, kids: Seq<Seq<SharedTree>>, id: int)
    requires
        children_precede(kids),
        0 <= id < kids.len(),
    ensures
        labels_at(labels, emitted(kids, id, true)).to_multiset() == labels_at(
            labels,
            emitted(kids, id, false),
        ).to_multiset(),
    decreases id, 1int, 0int,
{
    broadcast use vstd::seq_lib::lemma_multiset_commutative;

    let n = kids[id].len() as int;
    lemma_grouping_rest_keeps_labels(labels, kids, id, 0);
    assert(kids[id].subrange(0, n) =~= kids[id]);
    assert(emitted(kids, id, true) == kids[id] + emitted_rest(kids, id, 0, true));
    lemma_labels_at_concat(labels, kids[id], emitted_rest(kids, id, 0, true));
    assert(emitted(kids, id, false) =~= emitted_rest(kids, id, 0, false));
}

proof fn lemma_grouping_rest_keeps_labels(
    labels: Seq<LabelView>,
    kids: Seq<Seq<SharedTree>>,
    id: int,
    k: int,
)
    requires
        children_precede(kids),
        0 <= id < kids.len(),
        0 <= k <= kids[id].len(),
    ensures
        labels_at(labels, kids[id].subrange(k, kids[id].len() as int)).to_multiset().add(
            labels_at(labels, emitted_rest(kids, id, k, true)).to_multiset(),
        ) == labels_at(labels, emitted_rest(kids, id, k, false)).to_multiset(),
    decreases id, 0int, kids[id].len() - k,
{
    broadcast use vstd::seq_lib::lemma_multiset_commutative;

    let n = kids[id].len() as int;
    if k < n {
        let c = kids[id][k];
        assert(c < id);
        lemma_grouping_keeps_labels(labels, kids, c as int);
        lemma_grouping_rest_keeps_labels(labels, kids, id, k + 1);
        let head = seq![c];
        let tail = kids[id].subrange(k + 1, n);
        assert(kids[id].subrange(k, n) =~= head + tail);
        lemma_labels_at_concat(labels, head, tail);
        let et = emitted(kids, c as int, true);
        let ef = emitted(kids, c as int, false);
        let rt = emitted_rest(kids, id, k + 1, true);
        let rf = emitted_rest(kids, id, k + 1, false);
        assert(emitted_rest(kids, id, k, true) =~= et + rt);
        assert(emitted_rest(kids, id, k, false) =~= (head + ef) + rf);
        lemma_labels_at_concat(labels, et, rt);
        lemma_labels_at_concat(labels, head + ef, rf);
        lemma_labels_at_concat(labels, head, ef);
        let mh = labels_at(labels, head).to_multiset();
        let mtl = labels_at(labels, tail).to_multiset();
        let met = labels_at(labels, et).to_multiset();
        let mef = labels_at(labels, ef).to_multiset();
        let mrt = labels_at(labels, rt).to_multiset();
        let mrf = labels_at(labels, rf).to_multiset();
        assert(mtl.add(mrt) == mrf);
        assert(met == mef);
        assert(mh.add(mtl).add(met.add(mrt)) =~= mh.add(mef).add(mrf));
    } else {
        assert(kids[id].subrange(k, n) =~= Seq::<SharedTree>::empty());
        assert(labels_at(labels, Seq::<SharedTree>::empty()) =~= Seq::<LabelView>::empty());
        let e = Seq::<LabelView>::empty();
        assert(e + e =~= e);
        assert((e + e).to_multiset() == e.to_multiset().add(e.to_multiset()));
    }
}

/// Distinct labels of a dictionary are written with distinct indices, each
/// below the number of entries: an index names one label.
pub proof fn lemma_dictionary_indices_distinct(seen: Seq<LabelView>, l1: LabelView, l2: LabelView)
    requires
        seen.len() <= usize::MAX,
        seen.contains(l1),
        seen.contains(l2),
        l1 != l2,
    ensures
        0 <= dictionary_index(dictionary_of(seen), l1) < distinct(seen).len(),
        0 <= dictionary_index(dictionary_of(seen), l2) < distinct(seen).len(),
        dictionary_index(dictionary_of(seen), l1) != dictionary_index(dictionary_of(seen), l2),
{
    lemma_distinct_facts(seen);
    lemma_distinct_len(seen);
    let d = distinct(seen);
    assert(d.contains(l1) && d.contains(l2));
    let i = entry_index(d, l1);
    let j = entry_index(d, l2);
    assert(d[i] == l1 && d[j] == l2);
    if count_of(seen, l1) > count_of(seen, l2) || (count_of(seen, l1) == count_of(seen, l2) && i < j) {
        lemma_frequent_labels_get_small_indices(seen, l1, l2);
        crate::ranking::lemma_greater_keys_rank_first(occurrence_counts(seen), i, j);
    } else {
        lemma_frequent_labels_get_small_indices(seen, l2, l1);
        crate::ranking::lemma_greater_keys_rank_first(occurrence_counts(seen), j, i);
    }
}

/// A dictionary of labels with, for each entry, its number of occurrences and
/// its rank by decreasing number of occurrences.
pub struct Dictionary {
    pub entries: Vec<Label>,
    pub counts: Vec<usize>,
    pub ranking: Vec<(usize, usize)>,
    pub positions: Vec<usize>,
}

impl Dictionary {
    /// The entries and counts of the dictionary.
    pub open spec fn view_dictionary(&self) -> DictionaryView {
        DictionaryView { entries: label_views(self.entries@), counts: self.counts@ }
    }

    /// The entries are distinct, and `ranking` and `positions` rank them.
    pub open spec fn wf(&self) -> bool {
        &&& self.counts@.len() == self.entries@.len()
        &&& self.positions@.len() == self.entries@.len()
        &&& self.ranking@ == crate::ranking::rank_order(self.counts@)
        &&& crate::ranking::is_rank_order(self.counts@, self.ranking@)
        &&& forall|i: int|
            0 <= i < self.entries@.len() ==> #[trigger] self.positions@[i] == rank_of(self.counts@, i)
        &&& forall|i: int|
            0 <= i < self.entries@.len() ==> self.ranking@[self.positions@[i] as int].0 == i
        &&& forall|i: int, j: int|
            0 <= i < j < self.entries@.len() ==> label_views(self.entries@)[i] != label_views(
                self.entries@,
            )[j]
    }

    /// The dictionary of the labels that `tally` counted.
    pub fn from_tally(tally: Tally, Ghost(seen): Ghost<Seq<LabelView>>) -> (d: Self)
        requires
            tally.describes(seen),
        ensures
            d.wf(),
            d.view_dictionary() == dictionary_of(seen),
    {
        proof {
            crate::tally::lemma_distinct_facts(seen);
        }
        let (ranking, positions) = rank_by_decreasing_key(&tally.counts);
        Dictionary { entries: tally.labels, counts: tally.counts, ranking, positions }
    }

    /// The index written for `label` (see `dictionary_index`).
    pub fn index_of(&self, label: &Label) -> (index: usize)
        requires
            self.wf(),
            self.view_dictionary().entries.contains(label@),
        ensures
            index == dictionary_index(self.view_dictionary(), label@),
    {
        let ghost e = label_views(self.entries@);
        let n = self.entries.len();
        let mut j: usize = 0;
        while j < n
            invariant
                self.wf(),
                e == label_views(self.entries@),
                n == e.len(),
                j <= n,
                e.contains(label@),
                forall|t: int| 0 <= t < j ==> #[trigger] e[t] != label@,
            decreases n - j,
        {
            if self.entries[j].equals(label) {
                proof {
                    let c = entry_index(e, label@);
                    assert(0 <= c < e.len() && e[c] == label@);
                    if c != j {
                        if c < j {
                            assert(e[c] != label@);
                        } else {
                            assert(label_views(self.entries@)[j as int] != label_views(self.entries@)[c]);
                        }
                    }
                }
                return self.positions[j];
            }
            j = j + 1;
        }
        proof {
            let t = choose|t: int| 0 <= t < e.len() && e[t] == label@;
            assert(e[t] != label@);
        }
        0
    }
}

/// The dictionaries of strings, tags, declarations and references.
pub struct Dictionaries {
    pub strings: Dictionary,
    pub tags: Dictionary,
    pub declarations: Dictionary,
    pub references: Dictionary,
}

impl Dictionaries {
    pub open spec fn view_dictionaries(&self) -> ContentDictionaries {
        ContentDictionaries {
            strings: self.strings.view_dictionary(),
            tags: self.tags.view_dictionary(),
            declarations: self.declarations.view_dictionary(),
            references: self.references.view_dictionary(),
        }
    }

    pub open spec fn wf(&self) -> bool {
        &&& self.strings.wf()
        &&& self.tags.wf()
        &&& self.declarations.wf()
        &&& self.references.wf()
    }
}

/// Writes `label` to its stream, handing its dictionary the parent of the
/// label: the nearest enclosing tag and the index of the label's node among its
/// siblings. The dictionaries write a label by its rank, or in full, whatever
/// the parent: the bytes depend on the label alone. Returns the parent it was
/// handed.
pub(crate) fn write_label(
    label: &Label,
    parent: Option<(&Label, usize)>,
    dicts: &Dictionaries,
    out: &mut PerCategory<CompressionTarget>,
) -> (handed: Ghost<Option<(LabelView, usize)>>)
    requires
        dicts.wf(),
        writable(label@, dicts.view_dictionaries()),
    ensures
        streams_view(*final(out)) == append_streams(
            streams_view(*old(out)),
            seq![label@],
            dicts.view_dictionaries(),
        ),
        handed@ == parent_view(parent),
{
    let ghost dv = dicts.view_dictionaries();
    let ghost start = streams_view(*out);
    proof {
        lemma_append_one(start, label@, dv);
    }
    match label {
        Label::String(_) => {
            let index = dicts.strings.index_of(label);
            out.strings.write_varnum(index as u32);
            assert(streams_view(*out) == add_to_stream(start, Stream::Strings, content_bytes(label@, dv)));
        },
        Label::Tag(_) => {
            let index = dicts.tags.index_of(label);
            out.tags.write_varnum(index as u32);
            assert(streams_view(*out) == add_to_stream(start, Stream::Tags, content_bytes(label@, dv)));
        },
        Label::Declare(_) => {
            let index = dicts.declarations.index_of(label);
            out.declarations.write_varnum(index as u32);
            assert(streams_view(*out) == add_to_stream(start, Stream::Declarations, content_bytes(label@, dv)));
        },
        Label::NumberedReference(_) => {
            let index = dicts.references.index_of(label);
            out.idrefs.write_varnum(index as u32);
            assert(streams_view(*out) == add_to_stream(start, Stream::Idrefs, content_bytes(label@, dv)));
        },
        Label::Number(_) => {
            label.write_definition(None, parent, &mut out.numbers);
            assert(streams_view(*out) == add_to_stream(start, Stream::Numbers, content_bytes(label@, dv)));
        },
        Label::Bool(_) => {
            label.write_definition(None, parent, &mut out.bools);
            assert(streams_view(*out) == add_to_stream(start, Stream::Bools, content_bytes(label@, dv)));
        },
        Label::List(_) => {
            label.write_definition(None, parent, &mut out.lists);
            assert(streams_view(*out) == add_to_stream(start, Stream::Lists, content_bytes(label@, dv)));
        },
        Label::Scope(_) => {},
        Label::LiteralReference(_) => {},
    }
    Ghost(parent_view(parent))
}


proof fn lemma_separate_step(
    cur: PerCategory<Seq<u8>>,
    lv: Seq<LabelView>,
    kv: Seq<Seq<SharedTree>>,
    id: int,
    k: int,
    dv: ContentDictionaries,
)
    requires
        0 <= id < kv.len(),
        0 <= k < kv[id].len(),
        kv[id][k] < id,
    ensures
        ({
            let child = kv[id][k];
            append_streams(
                append_streams(
                    append_streams(cur, seq![lv[child as int]], dv),
                    crate::tally::labels_at(lv, emitted(kv, child as int, false)),
                    dv,
                ),
                crate::tally::labels_at(lv, emitted_rest(kv, id, k + 1, false)),
                dv,
            ) == append_streams(cur, crate::tally::labels_at(lv, emitted_rest(kv, id, k, false)), dv)
        }),
{
    let child = kv[id][k];
    let sub = emitted(kv, child as int, false);
    let rest = emitted_rest(kv, id, k + 1, false);
    assert(emitted_rest(kv, id, k, false) =~= seq![child] + sub + rest);
    lemma_labels_at_concat(lv, seq![child], sub + rest);
    lemma_labels_at_concat(lv, sub, rest);
    assert(seq![child] + sub + rest =~= seq![child] + (sub + rest));
    assert(crate::tally::labels_at(lv, seq![child]) =~= seq![lv[child as int]]);
    lemma_append_streams_concat(
        cur,
        seq![lv[child as int]],
        crate::tally::labels_at(lv, sub + rest),
        dv,
    );
    lemma_append_streams_concat(
        append_streams(cur, seq![lv[child as int]], dv),
        crate::tally::labels_at(lv, sub),
        crate::tally::labels_at(lv, rest),
        dv,
    );
}

/// Writes the labels of the nodes below `id` (see `emitted`), `parent` being
/// the nearest tag above `id`. Returns the parents handed to `write_label`,
/// in order (see `emitted_parents`).
pub(crate) fn serialize_children(
    labels: &Vec<Label>,
    kids: &Vec<Vec<SharedTree>>,
    id: usize,
    together: bool,
    parent: Option<&Label>,
    dicts: &Dictionaries,
    out: &mut PerCategory<CompressionTarget>,
) -> (parents: Ghost<Seq<Option<(LabelView, usize)>>>)
    requires
        labels@.len() == kids@.len(),
        children_precede(kid_views(kids@)),
        id < kids@.len(),
        dicts.wf(),
        forall|x: SharedTree|
            preorder(kid_views(kids@), id as int).contains(x) ==> writable(
                #[trigger] label_views(labels@)[x as int],
                dicts.view_dictionaries(),
            ),
    ensures
        streams_view(*final(out)) == append_streams(
            streams_view(*old(out)),
            crate::tally::labels_at(label_views(labels@), emitted(kid_views(kids@), id as int, together)),
            dicts.view_dictionaries(),
        ),
        parents@ == emitted_parents(
            label_views(labels@),
            kid_views(kids@),
            id as int,
            together,
            tag_view(parent),
        ),
    decreases id,
{
    let ghost kv = kid_views(kids@);
    let ghost lv = label_views(labels@);
    let ghost dv = dicts.view_dictionaries();
    let ghost start = streams_view(*out);
    let ghost total = emitted(kv, id as int, together);
    let ghost all_parents = emitted_parents(lv, kv, id as int, together, tag_view(parent));
    let new_parent: Option<&Label> = match &labels[id] {
        Label::Tag(_) => Some(&labels[id]),
        _ => parent,
    };
    let ghost tag = tag_view(new_parent);
    assert(labels@[id as int]@ == lv[id as int]);
    assert(tag == nearest_tag(lv[id as int], tag_view(parent)));
    let ghost mut trace: Seq<Option<(LabelView, usize)>> = Seq::empty();
    let n = kids[id].len();
    assert(kids@[id as int]@ == kv[id as int]);
    if together {
        proof {
            assert(kv[id as int].skip(0) =~= kv[id as int]);
            lemma_append_streams_empty(start, dv);
        }
        let mut k: usize = 0;
        while k < n
            invariant
                kv == kid_views(kids@),
                lv == label_views(labels@),
                dv == dicts.view_dictionaries(),
                labels@.len() == kids@.len(),
                children_precede(kv),
                id < kv.len(),
                n == kv[id as int].len(),
                k <= n,
                dicts.wf(),
                together,
                total == emitted(kv, id as int, together),
                tag == tag_view(new_parent),
                trace == Seq::new(k as nat, |j: int| with_index(tag, j)),
                forall|x: SharedTree|
                    preorder(kv, id as int).contains(x) ==> writable(#[trigger] lv[x as int], dv),
                append_streams(
                    streams_view(*out),
                    crate::tally::labels_at(lv, kv[id as int].skip(k as int) + emitted_rest(kv, id as int, 0, true)),
                    dv,
                ) == append_streams(start, crate::tally::labels_at(lv, total), dv),
            decreases n - k,
        {
            let child = kids[id][k];
            let ghost cur = streams_view(*out);
            let ghost rest = kv[id as int].skip(k + 1) + emitted_rest(kv, id as int, 0, true);
            proof {
                assert(kv[id as int][k as int] == child);
                lemma_preorder_child(kv, id as int, k as int);
                assert(kv[id as int].skip(k as int) + emitted_rest(kv, id as int, 0, true) =~= seq![child] + rest);
                lemma_labels_at_concat(lv, seq![child], rest);
                assert(crate::tally::labels_at(lv, seq![child]) =~= seq![lv[child as int]]);
                lemma_append_streams_concat(cur, seq![lv[child as int]], crate::tally::labels_at(lv, rest), dv);
                assert(labels@[child as int]@ == lv[child as int]);
            }
            let my_parent: Option<(&Label, usize)> = match new_parent {
                Some(t) => Some((t, k)),
                None => None,
            };
            let Ghost(handed) = write_label(&labels[child], my_parent, dicts, out);
            proof {
                assert(handed == with_index(tag, k as int));
                trace = trace.push(handed);
                assert(trace =~= Seq::new((k + 1) as nat, |j: int| with_index(tag, j)));
            }
            k = k + 1;
        }
        proof {
            assert(kv[id as int].skip(n as int) + emitted_rest(kv, id as int, 0, true) =~= emitted_rest(kv, id as int, 0, true));
            assert(all_parents == trace + emitted_parents_rest(lv, kv, id as int, 0, true, tag));
        }
        let mut k: usize = 0;
        while k < n
            invariant
                kv == kid_views(kids@),
                lv == label_views(labels@),
                dv == dicts.view_dictionaries(),
                labels@.len() == kids@.len(),
                children_precede(kv),
                id < kv.len(),
                n == kv[id as int].len(),
                k <= n,
                dicts.wf(),
                together,
                total == emitted(kv, id as int, together),
                tag == tag_view(new_parent),
                trace + emitted_parents_rest(lv, kv, id as int, k as int, true, tag) == all_parents,
                forall|x: SharedTree|
                    preorder(kv, id as int).contains(x) ==> writable(#[trigger] lv[x as int], dv),
                append_streams(
                    streams_view(*out),
                    crate::tally::labels_at(lv, emitted_rest(kv, id as int, k as int, true)),
                    dv,
                ) == append_streams(start, crate::tally::labels_at(lv, total), dv),
            decreases n - k,
        {
            let child = kids[id][k];
            let ghost cur = streams_view(*out);
            let ghost sub = emitted(kv, child as int, true);
            let ghost rest = emitted_rest(kv, id as int, k + 1, true);
            proof {
                assert(kv[id as int][k as int] == child);
                assert(child < id);
                lemma_preorder_child(kv, id as int, k as int);
                assert(emitted_rest(kv, id as int, k as int, true) =~= sub + rest);
                lemma_labels_at_concat(lv, sub, rest);
                lemma_append_streams_concat(cur, crate::tally::labels_at(lv, sub), crate::tally::labels_at(lv, rest), dv);
            }
            let Ghost(below) = serialize_children(labels, kids, child, together, new_parent, dicts, out);
            proof {
                let pr = emitted_parents_rest(lv, kv, id as int, k + 1, true, tag);
                assert(emitted_parents_rest(lv, kv, id as int, k as int, true, tag) =~= below + pr);
                trace = trace + below;
                assert(trace + pr =~= all_parents);
            }
            k = k + 1;
        }
        proof {
            assert(crate::tally::labels_at(lv, emitted_rest(kv, id as int, n as int, true)) =~= Seq::<LabelView>::empty());
            lemma_append_streams_empty(streams_view(*out), dv);
            assert(trace =~= all_parents);
        }
    } else {
        proof {
            assert(Seq::<SharedTree>::empty() + emitted_rest(kv, id as int, 0, false) =~= emitted_rest(kv, id as int, 0, false));
            lemma_append_streams_empty(start, dv);
            assert(all_parents =~= trace + emitted_parents_rest(lv, kv, id as int, 0, false, tag));
        }
        let mut k: usize = 0;
        while k < n
            invariant
                kv == kid_views(kids@),
                lv == label_views(labels@),
                dv == dicts.view_dictionaries(),
                labels@.len() == kids@.len(),
                children_precede(kv),
                id < kv.len(),
                n == kv[id as int].len(),
                k <= n,
                dicts.wf(),
                !together,
                total == emitted(kv, id as int, together),
                tag == tag_view(new_parent),
                trace + emitted_parents_rest(lv, kv, id as int, k as int, false, tag) == all_parents,
                forall|x: SharedTree|
                    preorder(kv, id as int).contains(x) ==> writable(#[trigger] lv[x as int], dv),
                append_streams(
                    streams_view(*out),
                    crate::tally::labels_at(lv, emitted_rest(kv, id as int, k as int, false)),
                    dv,
                ) == append_streams(start, crate::tally::labels_at(lv, total), dv),
            decreases n - k,
        {
            let child = kids[id][k];
            let ghost cur = streams_view(*out);
            proof {
                assert(kv[id as int][k as int] == child);
                assert(child < id);
                lemma_preorder_child(kv, id as int, k as int);
                assert(labels@[child as int]@ == lv[child as int]);
            }
            let my_parent: Option<(&Label, usize)> = match new_parent {
                Some(t) => Some((t, k)),
                None => None,
            };
            let Ghost(handed) = write_label(&labels[child], my_parent, dicts, out);
            let Ghost(below) = serialize_children(labels, kids, child, together, new_parent, dicts, out);
            proof {
                lemma_separate_step(cur, lv, kv, id as int, k as int, dv);
                assert(handed == with_index(tag, k as int));
                let pr = emitted_parents_rest(lv, kv, id as int, k + 1, false, tag);
                assert(emitted_parents_rest(lv, kv, id as int, k as int, false, tag) =~= seq![handed] + below + pr);
                trace = trace.push(handed) + below;
                assert(trace + pr =~= all_parents);
            }
            k = k + 1;
        }
        proof {
            assert(crate::tally::labels_at(lv, emitted_rest(kv, id as int, n as int, false)) =~= Seq::<LabelView>::empty());
            lemma_append_streams_empty(streams_view(*out), dv);
            assert(trace =~= all_parents);
        }
    }
    Ghost(trace)
}

} // verus!
