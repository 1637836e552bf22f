//! Counting the occurrences of labels over a walk of the tree.

use vstd::prelude::*;
use crate::label::{Label, LabelView};
use crate::tree::{SharedTree, label_views, kid_views, children_precede};

verus! {

/// The nodes of the subtree of `id` in pre-order: the node, then the subtree
/// of each child in order (a shared subtree is listed each time it is met).
pub open spec fn preorder(kids: Seq<Seq<SharedTree>>, id: int) -> Seq<SharedTree>
    decreases id, 1int, 0int,
{
    if 0 <= id < kids.len() {
        seq![id as usize] + preorder_children(kids, id, 0)
    } else {
        Seq::empty()
    }
}

/// The pre-order of the subtrees of the children of `id` from the `k`-th on.
pub open spec fn preorder_children(kids: Seq<Seq<SharedTree>>, id: int, k: int) -> Seq<SharedTree>
    decreases id, 0int, kids[id].len() - k,
{
    if 0 <= id < kids.len() && 0 <= k < kids[id].len() && kids[id][k] < id {
        preorder(kids, kids[id][k] as int) + preorder_children(kids, id, k + 1)
    } else {
        Seq::empty()
    }
}

/// Appends the pre-order of the subtree of `id` to `out`.
pub(crate) fn collect_preorder(kids: &Vec<Vec<SharedTree>>, id: usize, out: &mut Vec<SharedTree>)
    requires
        children_precede(kid_views(kids@)),
        id < kids.len(),
    ensures
        final(out)@ == old(out)@ + preorder(kid_views(kids@), id as int),
    decreases id,
{
    let ghost kv = kid_views(kids@);
    let ghost start = out@;
    out.push(id);
    let n = kids[id].len();
    let mut k: usize = 0;
    while k < n
        invariant
            kv == kid_views(kids@),
            children_precede(kv),
            id < kv.len(),
            n == kv[id as int].len(),
            k <= n,
            start + preorder(kv, id as int) == out@ + preorder_children(kv, id as int, k as int),
        decreases n - k,
    {
        let child = kids[id][k];
        assert(kv[id as int][k as int] == child);
        let ghost before = out@;
        collect_preorder(kids, child, out);
        assert(before + preorder_children(kv, id as int, k as int) =~= out@ + preorder_children(
            kv,
            id as int,
            k + 1,
        ));
        k = k + 1;
    }
    assert(out@ + preorder_children(kv, id as int, k as int) =~= out@);
}

proof fn lemma_preorder_children_member(kids: Seq<Seq<SharedTree>>, id: int, j: int, x: SharedTree)
    requires
        preorder_children(kids, id, j).contains(x),
    ensures
        exists|k: int|
            j <= k < kids[id].len() && 0 <= id < kids.len() && kids[id][k] < id && #[trigger] preorder(
                kids,
                kids[id][k] as int,
            ).contains(x),
    decreases kids[id].len() - j,
{
    if 0 <= id < kids.len() && 0 <= j < kids[id].len() && kids[id][j] < id {
        let first = preorder(kids, kids[id][j] as int);
        let rest = preorder_children(kids, id, j + 1);
        let i = choose|i: int| 0 <= i < (first + rest).len() && (first + rest)[i] == x;
        if i < first.len() {
            assert(first[i] == x);
            assert(first.contains(x));
        } else {
            assert(rest[i - first.len()] == x);
            lemma_preorder_children_member(kids, id, j + 1, x);
        }
    }
}

/// A node of the subtree of `id` is `id` itself or lies in the subtree of one
/// of its children.
pub proof fn lemma_preorder_member(kids: Seq<Seq<SharedTree>>, id: int, x: SharedTree)
    requires
        preorder(kids, id).contains(x),
        x != id,
        kids.len() <= usize::MAX,
    ensures
        exists|k: int|
            0 <= k < kids[id].len() && 0 <= id < kids.len() && kids[id][k] < id && #[trigger] preorder(
                kids,
                kids[id][k] as int,
            ).contains(x),
{
    let whole = preorder(kids, id);
    let i = choose|i: int| 0 <= i < whole.len() && whole[i] == x;
    assert(0 <= id < kids.len());
    let rest = preorder_children(kids, id, 0);
    assert(whole == seq![id as usize] + rest);
    if i == 0 {
        assert(whole[0] == id as usize);
    } else {
        assert(rest[i - 1] == x);
        lemma_preorder_children_member(kids, id, 0, x);
    }
}

/// A property that holds of a node and of every node of the subtrees of its
/// children holds of every node of its subtree.
pub proof fn lemma_preorder_all(kids: Seq<Seq<SharedTree>>, id: int, p: spec_fn(SharedTree) -> bool)
    requires
        0 <= id < kids.len(),
        kids.len() <= usize::MAX,
        p(id as usize),
        forall|k: int|
            0 <= k < kids[id].len() && kids[id][k] < id ==> forall|x: SharedTree|
                #[trigger] preorder(kids, kids[id][k] as int).contains(x) ==> p(x),
    ensures
        forall|x: SharedTree| #[trigger] preorder(kids, id).contains(x) ==> p(x),
{
    assert forall|x: SharedTree| #[trigger] preorder(kids, id).contains(x) implies p(x) by {
        if x != id as usize {
            lemma_preorder_member(kids, id, x);
            let k = choose|k: int|
                0 <= k < kids[id].len() && 0 <= id < kids.len() && kids[id][k] < id
                    && #[trigger] preorder(kids, kids[id][k] as int).contains(x);
        }
    }
}

/// The subtree of a node is the same in an arena that extends this one.
pub proof fn lemma_preorder_extended(kids: Seq<Seq<SharedTree>>, more: Seq<Seq<SharedTree>>, id: int)
    requires
        0 <= id < kids.len(),
    ensures
        preorder(kids + more, id) == preorder(kids, id),
    decreases id, 1int, 0int,
{
    assert((kids + more)[id] == kids[id]);
    lemma_preorder_children_extended(kids, more, id, 0);
}

proof fn lemma_preorder_children_extended(
    kids: Seq<Seq<SharedTree>>,
    more: Seq<Seq<SharedTree>>,
    id: int,
    k: int,
)
    requires
        0 <= id < kids.len(),
    ensures
        preorder_children(kids + more, id, k) == preorder_children(kids, id, k),
    decreases id, 0int, kids[id].len() - k,
{
    assert((kids + more)[id] == kids[id]);
    if 0 <= k < kids[id].len() && kids[id][k] < id {
        lemma_preorder_extended(kids, more, kids[id][k] as int);
        lemma_preorder_children_extended(kids, more, id, k + 1);
    }
}

/// The kinds of labels whose occurrences are counted.
#[derive(PartialEq, Eq, Structural)]
pub enum Counted {
    Strings,
    Tags,
    Declarations,
    References,
}

/// The kind under which `label` is counted, if any.
pub open spec fn counted_as(label: LabelView) -> Option<Counted> {
    match label {
        LabelView::String(_) => Some(Counted::Strings),
        LabelView::Tag(_) => Some(Counted::Tags),
        LabelView::Declare(_) => Some(Counted::Declarations),
        LabelView::LiteralReference(_) => Some(Counted::References),
        LabelView::NumberedReference(_) => Some(Counted::References),
        _ => None,
    }
}

/// The labels of `labels` counted under `kind`, in order.
pub open spec fn of_kind(labels: Seq<LabelView>, kind: Counted) -> Seq<LabelView>
    decreases labels.len(),
{
    if labels.len() == 0 {
        Seq::empty()
    } else if counted_as(labels.last()) == Some(kind) {
        of_kind(labels.drop_last(), kind).push(labels.last())
    } else {
        of_kind(labels.drop_last(), kind)
    }
}

/// The distinct labels of `labels`, in the order of their first occurrence.
pub open spec fn distinct(labels: Seq<LabelView>) -> Seq<LabelView>
    decreases labels.len(),
{
    if labels.len() == 0 {
        Seq::empty()
    } else if distinct(labels.drop_last()).contains(labels.last()) {
        distinct(labels.drop_last())
    } else {
        distinct(labels.drop_last()).push(labels.last())
    }
}

/// The number of occurrences of `label` in `labels`.
pub open spec fn count_of(labels: Seq<LabelView>, label: LabelView) -> nat
    decreases labels.len(),
{
    if labels.len() == 0 {
        0
    } else if labels.last() == label {
        count_of(labels.drop_last(), label) + 1
    } else {
        count_of(labels.drop_last(), label)
    }
}

/// The number of occurrences of each distinct label of `labels`, in the order
/// of `distinct(labels)`.
pub open spec fn occurrence_counts(labels: Seq<LabelView>) -> Seq<usize> {
    distinct(labels).map_values(|l: LabelView| count_of(labels, l) as usize)
}

/// The labels of the nodes `ids`.
pub open spec fn labels_at(labels: Seq<LabelView>, ids: Seq<SharedTree>) -> Seq<LabelView> {
    ids.map_values(|i: SharedTree| labels[i as int])
}

pub proof fn lemma_distinct_facts(labels: Seq<LabelView>)
    ensures
        forall|x: LabelView| distinct(labels).contains(x) <==> labels.contains(x),
        forall|x: LabelView| count_of(labels, x) == 0 <==> !labels.contains(x),
        forall|x: LabelView| count_of(labels, x) <= labels.len(),
        forall|i: int, j: int|
            0 <= i < j < distinct(labels).len() ==> distinct(labels)[i] != distinct(labels)[j],
    decreases labels.len(),
{
    if labels.len() > 0 {
        let init = labels.drop_last();
        let last = labels.last();
        let d0 = distinct(init);
        lemma_distinct_facts(init);
        assert forall|x: LabelView| labels.contains(x) <==> (init.contains(x) || last == x) by {
            if labels.contains(x) {
                let i = choose|i: int| 0 <= i < labels.len() && labels[i] == x;
                if i < labels.len() - 1 {
                    assert(init[i] == x);
                }
            }
            if init.contains(x) {
                let i = choose|i: int| 0 <= i < init.len() && init[i] == x;
                assert(labels[i] == x);
            }
            if last == x {
                assert(labels[labels.len() - 1] == x);
            }
        }
        assert forall|x: LabelView| d0.push(last).contains(x) <==> (d0.contains(x) || last == x) by {
            if d0.push(last).contains(x) {
                let i = choose|i: int| 0 <= i < d0.push(last).len() && d0.push(last)[i] == x;
                if i < d0.len() {
                    assert(d0[i] == x);
                }
            }
            if d0.contains(x) {
                let i = choose|i: int| 0 <= i < d0.len() && d0[i] == x;
                assert(d0.push(last)[i] == x);
            }
            if last == x {
                assert(d0.push(last)[d0.len() as int] == x);
            }
        }
        assert forall|x: LabelView| distinct(labels).contains(x) <==> labels.contains(x) by {}
        assert forall|x: LabelView| count_of(labels, x) <= labels.len() by {
            assert(count_of(init, x) <= init.len());
        }
        assert forall|x: LabelView| count_of(labels, x) == 0 <==> !labels.contains(x) by {
            assert(count_of(init, x) == 0 <==> !init.contains(x));
        }
    }
}

/// Occurrence counts of the labels seen so far: the distinct labels in order
/// of first occurrence, and the number of occurrences of each.
pub struct Tally {
    pub labels: Vec<Label>,
    pub counts: Vec<usize>,
}

impl Tally {
    /// The tally holds the distinct labels of `seen` and their counts.
    pub open spec fn describes(&self, seen: Seq<LabelView>) -> bool {
        &&& label_views(self.labels@) == distinct(seen)
        &&& self.counts@ == occurrence_counts(seen)
    }

    /// A tally of nothing.
    pub fn new() -> (t: Self)
        ensures
            t.describes(Seq::empty()),
    {
        let t = Tally { labels: Vec::new(), counts: Vec::new() };
        assert(label_views(t.labels@) =~= distinct(Seq::empty()));
        assert(t.counts@ =~= occurrence_counts(Seq::empty()));
        t
    }

    /// Counts one more occurrence of `label`.
    pub fn add(&mut self, label: &Label, Ghost(seen): Ghost<Seq<LabelView>>)
        requires
            old(self).describes(seen),
            seen.len() < usize::MAX,
        ensures
            final(self).describes(seen.push(label@)),
    {
        let ghost next = seen.push(label@);
        proof {
            lemma_distinct_facts(seen);
            assert(next.drop_last() =~= seen);
        }
        let n = self.labels.len();
        let mut j: usize = 0;
        while j < n
            invariant
                n == self.labels@.len(),
                j <= n,
                forall|t: int| 0 <= t < j ==> #[trigger] label_views(self.labels@)[t] != label@,
            ensures
                j <= n,
                forall|t: int| 0 <= t < j ==> #[trigger] label_views(self.labels@)[t] != label@,
                j < n ==> label_views(self.labels@)[j as int] == label@,
            decreases n - j,
        {
            if self.labels[j].equals(label) {
                break;
            }
            j = j + 1;
        }
        let ghost d = distinct(seen);
        proof {
            assert(self.counts@.len() == d.len());
        }
        if j < n {
            let c = self.counts[j];
            proof {
                assert(d[j as int] == label@);
                assert(d.contains(label@));
                assert(c == count_of(seen, label@));
            }
            self.counts.set(j, c + 1);
            proof {
                assert(distinct(next) == d);
                assert forall|t: int| 0 <= t < d.len() implies #[trigger] self.counts@[t] == count_of(
                    next,
                    d[t],
                ) as usize by {
                    if t != j {
                        assert(d[t] != d[j as int]);
                    }
                }
                assert(self.counts@ =~= occurrence_counts(next));
            }
        } else {
            proof {
                assert(!d.contains(label@)) by {
                    if d.contains(label@) {
                        let t = choose|t: int| 0 <= t < d.len() && d[t] == label@;
                        assert(label_views(self.labels@)[t] == label@);
                    }
                }
                assert(count_of(seen, label@) == 0);
            }
            let copy = label.copy();
            self.labels.push(copy);
            self.counts.push(1);
            proof {
                assert(distinct(next) == d.push(label@));
                assert(label_views(self.labels@) =~= d.push(label@));
                assert forall|t: int| 0 <= t < d.len() + 1 implies #[trigger] self.counts@[t] == count_of(
                    next,
                    d.push(label@)[t],
                ) as usize by {
                    if t < d.len() {
                        assert(d[t] != label@);
                    }
                }
                assert(self.counts@ =~= occurrence_counts(next));
            }
        }
    }
}

/// The four tallies of a walk: strings, tags, declarations and references.
pub struct Tallies {
    pub strings: Tally,
    pub tags: Tally,
    pub declarations: Tally,
    pub references: Tally,
}

impl Tallies {
    /// The tallies hold the labels of `seen` of each kind.
    pub open spec fn describe(&self, seen: Seq<LabelView>) -> bool {
        &&& self.strings.describes(of_kind(seen, Counted::Strings))
        &&& self.tags.describes(of_kind(seen, Counted::Tags))
        &&& self.declarations.describes(of_kind(seen, Counted::Declarations))
        &&& self.references.describes(of_kind(seen, Counted::References))
    }
}

/// Every label of `of_kind(labels, kind)` is of that kind, and every label of
/// `labels` of that kind is there.
pub proof fn lemma_of_kind_members(labels: Seq<LabelView>, kind: Counted)
    ensures
        forall|l: LabelView| #[trigger] of_kind(labels, kind).contains(l) ==> counted_as(l) == Some(kind),
        forall|l: LabelView|
            labels.contains(l) && counted_as(l) == Some(kind) ==> #[trigger] of_kind(labels, kind).contains(l),
    decreases labels.len(),
{
    if labels.len() > 0 {
        let init = labels.drop_last();
        let last = labels.last();
        lemma_of_kind_members(init, kind);
        let o = of_kind(init, kind);
        assert forall|l: LabelView| #[trigger] of_kind(labels, kind).contains(l) implies counted_as(l) == Some(kind) by {
            if counted_as(last) == Some(kind) {
                let i = choose|i: int| 0 <= i < o.push(last).len() && o.push(last)[i] == l;
                if i < o.len() {
                    assert(o[i] == l);
                    assert(o.contains(l));
                }
            } else {
                assert(o.contains(l));
            }
        }
        assert forall|l: LabelView|
            labels.contains(l) && counted_as(l) == Some(kind) implies #[trigger] of_kind(labels, kind).contains(l) by {
            let i = choose|i: int| 0 <= i < labels.len() && labels[i] == l;
            if i < labels.len() - 1 {
                assert(init[i] == l);
                assert(o.contains(l));
                if counted_as(last) == Some(kind) {
                    let j = choose|j: int| 0 <= j < o.len() && o[j] == l;
                    assert(o.push(last)[j] == l);
                }
            } else {
                assert(o.push(last)[o.len() as int] == l);
            }
        }
    }
}

/// There are no more distinct labels than labels.
pub proof fn lemma_distinct_len(labels: Seq<LabelView>)
    ensures
        distinct(labels).len() <= labels.len(),
    decreases labels.len(),
{
    if labels.len() > 0 {
        lemma_distinct_len(labels.drop_last());
    }
}

/// The distinct labels of a sequence are none only for an empty sequence.
pub proof fn lemma_distinct_empty(labels: Seq<LabelView>)
    ensures
        distinct(labels).len() == 0 <==> labels.len() == 0,
{
    lemma_distinct_facts(labels);
    if labels.len() > 0 {
        assert(labels.contains(labels[0]));
        assert(distinct(labels).contains(labels[0]));
    }
}

proof fn lemma_of_kind_len(labels: Seq<LabelView>, kind: Counted)
    ensures
        of_kind(labels, kind).len() <= labels.len(),
    decreases labels.len(),
{
    if labels.len() > 0 {
        lemma_of_kind_len(labels.drop_last(), kind);
    }
}

/// Counts the labels of the nodes `ids`, kind by kind.
pub(crate) fn count_labels(labels: &Vec<Label>, ids: &Vec<SharedTree>) -> (t: Tallies)
    requires
        forall|i: int| 0 <= i < ids@.len() ==> #[trigger] ids@[i] < labels@.len(),
    ensures
        t.describe(labels_at(label_views(labels@), ids@)),
{
    let ghost lv = label_views(labels@);
    let ghost all = labels_at(lv, ids@);
    let mut t = Tallies {
        strings: Tally::new(),
        tags: Tally::new(),
        declarations: Tally::new(),
        references: Tally::new(),
    };
    proof {
        assert(all.take(0) =~= Seq::<LabelView>::empty());
    }
    let mut i: usize = 0;
    while i < ids.len()
        invariant
            lv == label_views(labels@),
            all == labels_at(lv, ids@),
            forall|j: int| 0 <= j < ids@.len() ==> #[trigger] ids@[j] < labels@.len(),
            i <= ids@.len(),
            t.describe(all.take(i as int)),
        decreases ids@.len() - i,
    {
        let label = &labels[ids[i]];
        let ghost seen = all.take(i as int);
        proof {
            assert(all.take(i + 1).drop_last() =~= seen);
            assert(all.take(i + 1).last() == label@);
            assert(ids@[i as int] < labels@.len());
            lemma_of_kind_len(seen, Counted::Strings);
            lemma_of_kind_len(seen, Counted::Tags);
            lemma_of_kind_len(seen, Counted::Declarations);
            lemma_of_kind_len(seen, Counted::References);
        }
        match label {
            Label::String(_) => t.strings.add(label, Ghost(of_kind(seen, Counted::Strings))),
            Label::Tag(_) => t.tags.add(label, Ghost(of_kind(seen, Counted::Tags))),
            Label::Declare(_) => t.declarations.add(
                label,
                Ghost(of_kind(seen, Counted::Declarations)),
            ),
            Label::LiteralReference(_) | Label::NumberedReference(_) => t.references.add(
                label,
                Ghost(of_kind(seen, Counted::References)),
            ),
            _ => {},
        }
        i = i + 1;
    }
    proof {
        assert(all.take(ids@.len() as int) =~= all);
    }
    t
}

} // verus!
