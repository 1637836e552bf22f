//! The dictionaries written before the contents when they are placed in a
//! header: the number of entries, the byte length of each, then their bytes.

use vstd::prelude::*;
use crate::encoding::spec_varnum;
use crate::label::{Label, LabelView, spec_definition, spec_string_byte_len};
use crate::ranking::{rank_order, rank_by_decreasing_key};
use crate::serialize::{Dictionary, DictionaryView};
use crate::target::CompressionTarget;
use crate::tree::label_views;

verus! {

/// The entries of a dictionary by rank: decreasing number of occurrences, ties
/// by order of first occurrence.
pub open spec fn ranked_entries(d: DictionaryView) -> Seq<LabelView> {
    Seq::new(d.entries.len(), |p: int| d.entries[rank_order(d.counts)[p].0 as int])
}

/// The byte length of each label.
pub open spec fn byte_lengths(labels: Seq<LabelView>) -> Seq<usize> {
    labels.map_values(|l: LabelView| spec_string_byte_len(l) as usize)
}

/// The labels by decreasing byte length, ties kept in their order.
pub open spec fn by_length(labels: Seq<LabelView>) -> Seq<LabelView> {
    Seq::new(labels.len(), |q: int| labels[rank_order(byte_lengths(labels))[q].0 as int])
}

/// The labels by length are the labels themselves, each once, ordered by
/// non-increasing byte length: some permutation `perm` of their positions
/// gives them.
pub proof fn lemma_by_length_sorted(labels: Seq<LabelView>)
    requires
        labels.len() <= usize::MAX,
        forall|i: int| 0 <= i < labels.len() ==> spec_string_byte_len(#[trigger] labels[i]) <= usize::MAX,
    ensures
        by_length(labels).len() == labels.len(),
        forall|p: int, q: int|
            0 <= p < q < labels.len() ==> spec_string_byte_len(#[trigger] by_length(labels)[p])
                >= spec_string_byte_len(#[trigger] by_length(labels)[q]),
        exists|perm: Seq<int>|
            {
                &&& perm.len() == labels.len()
                &&& forall|q: int|
                    0 <= q < labels.len() ==> 0 <= #[trigger] perm[q] < labels.len() && by_length(labels)[q]
                        == labels[perm[q]]
                &&& forall|p: int, q: int| 0 <= p < q < labels.len() ==> #[trigger] perm[p] != #[trigger] perm[q]
            },
{
    let keys = byte_lengths(labels);
    crate::ranking::lemma_rank_order_members(keys);
    let r = rank_order(keys);
    let b = by_length(labels);
    assert forall|q: int| 0 <= q < labels.len() implies spec_string_byte_len(#[trigger] b[q]) == r[q].1 by {
        assert(r[q].1 == keys[r[q].0 as int]);
        assert(b[q] == labels[r[q].0 as int]);
    }
    assert forall|p: int, q: int| 0 <= p < q < labels.len() implies spec_string_byte_len(#[trigger] b[p])
        >= spec_string_byte_len(#[trigger] b[q]) by {
        assert(r[p].1 >= r[q].1);
        assert(spec_string_byte_len(b[p]) == r[p].1);
        assert(spec_string_byte_len(b[q]) == r[q].1);
    }
    let perm = Seq::new(labels.len(), |q: int| r[q].0 as int);
    assert forall|p: int, q: int| 0 <= p < q < labels.len() implies #[trigger] perm[p] != #[trigger] perm[q] by {
        assert(r[p].0 != r[q].0);
    }
    assert forall|q: int| 0 <= q < labels.len() implies 0 <= #[trigger] perm[q] < labels.len() && b[q] == labels[perm[q]] by {
        assert(r[q].0 < keys.len());
    }
    assert({
        &&& perm.len() == labels.len()
        &&& forall|q: int|
            0 <= q < labels.len() ==> 0 <= #[trigger] perm[q] < labels.len() && by_length(labels)[q]
                == labels[perm[q]]
        &&& forall|p: int, q: int| 0 <= p < q < labels.len() ==> #[trigger] perm[p] != #[trigger] perm[q]
    });
}

/// The varnums of the byte lengths of the labels.
pub open spec fn lengths_bytes(labels: Seq<LabelView>) -> Seq<u8>
    decreases labels.len(),
{
    if labels.len() == 0 {
        Seq::empty()
    } else {
        lengths_bytes(labels.drop_last()) + spec_varnum(
            ((spec_string_byte_len(labels.last()) as usize) as u32) as nat,
        )
    }
}

/// The definitions of the labels, one after the other.
pub open spec fn definitions_bytes(labels: Seq<LabelView>) -> Seq<u8>
    decreases labels.len(),
{
    if labels.len() == 0 {
        Seq::empty()
    } else {
        definitions_bytes(labels.drop_last()) + spec_definition(labels.last(), None)
    }
}

/// A dictionary in a header: the number of entries, their byte lengths, their
/// definitions.
pub open spec fn dictionary_header(labels: Seq<LabelView>) -> Seq<u8> {
    spec_varnum(((labels.len() as usize) as u32) as nat) + lengths_bytes(labels) + definitions_bytes(
        labels,
    )
}

/// The labels `entries[order[q]]`.
pub open spec fn in_order(entries: Seq<LabelView>, order: Seq<usize>) -> Seq<LabelView> {
    order.map_values(|i: usize| entries[i as int])
}

/// Writes the dictionary of the labels `entries[order[q]]` to `out`.
fn write_dictionary(entries: &Vec<Label>, order: &Vec<usize>, out: &mut CompressionTarget)
    requires
        forall|q: int| 0 <= q < order@.len() ==> #[trigger] order@[q] < entries@.len(),
        forall|q: int|
            0 <= q < order@.len() ==> (#[trigger] entries@[order@[q] as int]@ is String
                || entries@[order@[q] as int]@ is Tag),
    ensures
        final(out)@ == old(out)@ + dictionary_header(in_order(label_views(entries@), order@)),
{
    let ghost ls = in_order(label_views(entries@), order@);
    let ghost start = out@;
    out.write_varnum(order.len() as u32);
    let n = order.len();
    let mut q: usize = 0;
    while q < n
        invariant
            n == order@.len(),
            q <= n,
            ls == in_order(label_views(entries@), order@),
            forall|t: int| 0 <= t < order@.len() ==> #[trigger] order@[t] < entries@.len(),
            forall|t: int|
                0 <= t < order@.len() ==> (#[trigger] entries@[order@[t] as int]@ is String
                    || entries@[order@[t] as int]@ is Tag),
            out@ == start + spec_varnum(((ls.len() as usize) as u32) as nat) + lengths_bytes(
                ls.take(q as int),
            ),
        decreases n - q,
    {
        let label = &entries[order[q]];
        let len = label.string_byte_len();
        out.write_varnum(len as u32);
        proof {
            assert(ls.take(q + 1).drop_last() =~= ls.take(q as int));
            assert(ls.take(q + 1).last() == label@);
        }
        q = q + 1;
    }
    assert(ls.take(n as int) =~= ls);
    let ghost after_lengths = out@;
    let mut q: usize = 0;
    while q < n
        invariant
            n == order@.len(),
            q <= n,
            ls == in_order(label_views(entries@), order@),
            forall|t: int| 0 <= t < order@.len() ==> #[trigger] order@[t] < entries@.len(),
            forall|t: int|
                0 <= t < order@.len() ==> (#[trigger] entries@[order@[t] as int]@ is String
                    || entries@[order@[t] as int]@ is Tag),
            out@ == after_lengths + definitions_bytes(ls.take(q as int)),
        decreases n - q,
    {
        let label = &entries[order[q]];
        label.write_definition(None, None, out);
        proof {
            assert(ls.take(q + 1).drop_last() =~= ls.take(q as int));
            assert(ls.take(q + 1).last() == label@);
        }
        q = q + 1;
    }
    assert(ls.take(n as int) =~= ls);
    assert(out@ =~= start + dictionary_header(ls));
}

/// The entry indices of a dictionary by rank.
fn rank_indices(d: &Dictionary) -> (order: Vec<usize>)
    requires
        d.wf(),
    ensures
        in_order(label_views(d.entries@), order@) == ranked_entries(d.view_dictionary()),
        forall|q: int| 0 <= q < order@.len() ==> #[trigger] order@[q] < d.entries@.len(),
        order@.len() == d.entries@.len(),
{
    let mut order: Vec<usize> = Vec::new();
    let n = d.ranking.len();
    proof {
        broadcast use vstd::seq_lib::group_to_multiset_ensures;

        assert(d.ranking@.len() == d.ranking@.to_multiset().len());
        assert(crate::ranking::indexed(d.counts@).len() == crate::ranking::indexed(
            d.counts@,
        ).to_multiset().len());
    }
    let mut p: usize = 0;
    while p < n
        invariant
            d.wf(),
            n == d.ranking@.len(),
            n == d.entries@.len(),
            p <= n,
            order@.len() == p,
            forall|t: int| 0 <= t < p ==> #[trigger] order@[t] == d.ranking@[t].0,
            forall|t: int| 0 <= t < p ==> #[trigger] order@[t] < n,
        decreases n - p,
    {
        let entry = d.ranking[p].0;
        proof {
            broadcast use vstd::seq_lib::group_to_multiset_ensures;

            let pair = d.ranking@[p as int];
            assert(d.ranking@.contains(pair));
            assert(d.ranking@.to_multiset().count(pair) > 0);
            let idx = crate::ranking::indexed(d.counts@);
            assert(idx.to_multiset().count(pair) > 0);
            assert(idx.contains(pair));
            let w = choose|w: int| 0 <= w < idx.len() && idx[w] == pair;
        }
        order.push(entry);
        p = p + 1;
    }
    assert(in_order(label_views(d.entries@), order@) =~= ranked_entries(d.view_dictionary()));
    order
}

/// Writes a dictionary of tags in rank order.
pub(crate) fn write_ranked_dictionary(d: &Dictionary, out: &mut CompressionTarget)
    requires
        d.wf(),
        forall|i: int| 0 <= i < d.entries@.len() ==> (#[trigger] d.entries@[i]@ is String
            || d.entries@[i]@ is Tag),
    ensures
        final(out)@ == old(out)@ + dictionary_header(ranked_entries(d.view_dictionary())),
{
    let order = rank_indices(d);
    write_dictionary(&d.entries, &order, out);
}

/// Writes a dictionary of strings by decreasing byte length, ties in rank order.
pub(crate) fn write_dictionary_by_length(d: &Dictionary, out: &mut CompressionTarget)
    requires
        d.wf(),
        forall|i: int| 0 <= i < d.entries@.len() ==> (#[trigger] d.entries@[i]@ is String
            || d.entries@[i]@ is Tag),
    ensures
        final(out)@ == old(out)@ + dictionary_header(by_length(ranked_entries(d.view_dictionary()))),
{
    let ghost ranked = ranked_entries(d.view_dictionary());
    let order = rank_indices(d);
    let n = order.len();
    let mut lengths: Vec<usize> = Vec::new();
    let mut q: usize = 0;
    while q < n
        invariant
            n == order@.len(),
            q <= n,
            ranked == in_order(label_views(d.entries@), order@),
            forall|t: int| 0 <= t < order@.len() ==> #[trigger] order@[t] < d.entries@.len(),
            forall|i: int| 0 <= i < d.entries@.len() ==> (#[trigger] d.entries@[i]@ is String
                || d.entries@[i]@ is Tag),
            lengths@ == byte_lengths(ranked).take(q as int),
        decreases n - q,
    {
        let len = d.entries[order[q]].string_byte_len();
        lengths.push(len);
        assert(lengths@ =~= byte_lengths(ranked).take(q + 1));
        q = q + 1;
    }
    assert(lengths@ =~= byte_lengths(ranked));
    let (by_len, _positions) = rank_by_decreasing_key(&lengths);
    proof {
        broadcast use vstd::seq_lib::group_to_multiset_ensures;

        assert(by_len@.len() == by_len@.to_multiset().len());
        assert(crate::ranking::indexed(lengths@).len() == crate::ranking::indexed(
            lengths@,
        ).to_multiset().len());
    }
    let mut final_order: Vec<usize> = Vec::new();
    let mut q: usize = 0;
    while q < n
        invariant
            n == order@.len(),
            n == by_len@.len(),
            n == lengths@.len(),
            q <= n,
            by_len@ == rank_order(lengths@),
            crate::ranking::is_rank_order(lengths@, by_len@),
            forall|t: int| 0 <= t < order@.len() ==> #[trigger] order@[t] < d.entries@.len(),
            final_order@.len() == q,
            forall|t: int| 0 <= t < q ==> #[trigger] final_order@[t] == order@[by_len@[t].0 as int],
            forall|t: int| 0 <= t < q ==> #[trigger] by_len@[t].0 < n,
        decreases n - q,
    {
        let k = by_len[q].0;
        proof {
            broadcast use vstd::seq_lib::group_to_multiset_ensures;

            let pair = by_len@[q as int];
            assert(by_len@.contains(pair));
            assert(by_len@.to_multiset().count(pair) > 0);
            let idx = crate::ranking::indexed(lengths@);
            assert(idx.to_multiset().count(pair) > 0);
            assert(idx.contains(pair));
            let w = choose|w: int| 0 <= w < idx.len() && idx[w] == pair;
        }
        final_order.push(order[k]);
        q = q + 1;
    }
    assert(in_order(label_views(d.entries@), final_order@) =~= by_length(ranked));
    write_dictionary(&d.entries, &final_order, out);
}

} // verus!
