//! Numbering of variable references.
//!
//! A walk over the tree keeps a stack of frames of declared names; frame 0
//! holds the names that are referenced without being declared. Entering a
//! `Scope` pushes a frame and leaving it pops the frame; a `Declare` adds its
//! name to the innermost frame; a `LiteralReference` becomes a
//! `NumberedReference` whose number is the position of the name in the
//! innermost frame that holds it plus the sizes of the frames inside that one.

use vstd::prelude::*;
use crate::label::{Label, LabelView, copy_bytes, bytes_eq};
use crate::tree::{SharedTree, label_views, kid_views, children_precede};
use crate::label::ScopeIndex;
use vstd::string::StringSliceAdditionalSpecFns;
use crate::tally::{preorder, lemma_preorder_all, lemma_preorder_extended};

verus! {

/// A number taken modulo 2^32.
pub open spec fn wrap(n: int) -> u32 {
    (n % 0x1_0000_0000) as u32
}

/// The state of the numbering walk: the labels of all nodes and the stack of
/// frames of names.
pub struct WalkState {
    pub labels: Seq<LabelView>,
    pub frames: Seq<Seq<Seq<u8>>>,
}

/// The frames of names, by their views.
pub open spec fn frame_views(frames: Seq<Vec<Vec<u8>>>) -> Seq<Seq<Seq<u8>>> {
    frames.map_values(|f: Vec<Vec<u8>>| f@.map_values(|n: Vec<u8>| n@))
}

/// The position of the first occurrence of `name` in `frame`.
pub open spec fn first_index(frame: Seq<Seq<u8>>, name: Seq<u8>) -> int {
    choose|i: int|
        0 <= i < frame.len() && frame[i] == name && forall|j: int|
            0 <= j < i ==> frame[j] != name
}

/// Looks `name` up from the innermost frame outwards: the position of the name
/// in the first frame that holds it, if any, and the total size of the frames
/// searched before that one (of all of them, if none holds it).
pub open spec fn lookup(frames: Seq<Seq<Seq<u8>>>, name: Seq<u8>) -> (Option<int>, int)
    decreases frames.len(),
{
    if frames.len() == 0 {
        (None, 0)
    } else {
        let frame = frames.last();
        if frame.contains(name) {
            (Some(first_index(frame, name)), 0)
        } else {
            let (found, depth) = lookup(frames.drop_last(), name);
            (found, depth + frame.len())
        }
    }
}

/// The number given to a reference to `name`, and the frames after it. A name
/// that no frame holds is added to frame 0, and numbered by the size of all the
/// frames plus the new size of frame 0.
pub open spec fn reference_number(frames: Seq<Seq<Seq<u8>>>, name: Seq<u8>) -> (
    u32,
    Seq<Seq<Seq<u8>>>,
) {
    let (found, depth) = lookup(frames, name);
    match found {
        Some(i) => (wrap(depth + i), frames),
        None => (wrap(depth + frames[0].len() + 1), frames.update(0, frames[0].push(name))),
    }
}

/// The step of the walk on entering node `id`.
pub open spec fn enter(st: WalkState, id: int) -> WalkState {
    match st.labels[id] {
        LabelView::Scope(_) => WalkState { labels: st.labels, frames: st.frames.push(Seq::empty()) },
        LabelView::Declare(Some(name)) => WalkState {
            labels: st.labels,
            frames: st.frames.update(st.frames.len() - 1, st.frames.last().push(name)),
        },
        LabelView::LiteralReference(None) => WalkState {
            labels: st.labels.update(id, LabelView::NumberedReference(None)),
            frames: st.frames,
        },
        LabelView::LiteralReference(Some(name)) => {
            let (number, frames) = reference_number(st.frames, name);
            WalkState {
                labels: st.labels.update(id, LabelView::NumberedReference(Some(number))),
                frames,
            }
        },
        _ => st,
    }
}

/// The step of the walk on leaving node `id`.
pub open spec fn leave(st: WalkState, id: int) -> WalkState {
    match st.labels[id] {
        LabelView::Scope(_) => WalkState { labels: st.labels, frames: st.frames.drop_last() },
        _ => st,
    }
}

/// The walk over node `id`: enter it, walk its children in order, leave it.
pub open spec fn walk(kids: Seq<Seq<SharedTree>>, id: int, st: WalkState) -> WalkState
    decreases id, 1int, 0int,
{
    if 0 <= id < kids.len() {
        leave(walk_children(kids, id, 0, enter(st, id)), id)
    } else {
        st
    }
}

/// The walk over the children of node `id` from the `k`-th on.
pub open spec fn walk_children(
    kids: Seq<Seq<SharedTree>>,
    id: int,
    k: int,
    st: WalkState,
) -> WalkState
    decreases id, 0int, kids[id].len() - k,
{
    if 0 <= id < kids.len() && 0 <= k < kids[id].len() && kids[id][k] < id {
        walk_children(kids, id, k + 1, walk(kids, kids[id][k] as int, st))
    } else {
        st
    }
}

/// `new` is a label that numbering made of `old`.
pub open spec fn numbered_from(old: LabelView, new: LabelView) -> bool {
    match (old, new) {
        (LabelView::LiteralReference(None), LabelView::NumberedReference(None)) => true,
        (LabelView::LiteralReference(Some(_)), LabelView::NumberedReference(Some(_))) => true,
        _ => false,
    }
}

/// `new` is `old` with some literal references numbered and nothing else changed.
pub open spec fn labels_refined(old: Seq<LabelView>, new: Seq<LabelView>) -> bool {
    &&& new.len() == old.len()
    &&& forall|x: int|
        0 <= x < old.len() ==> #[trigger] new[x] == old[x] || numbered_from(old[x], new[x])
}

/// `a` is a prefix of `b`.
pub open spec fn is_prefix(a: Seq<Seq<u8>>, b: Seq<Seq<u8>>) -> bool {
    a.len() <= b.len() && b.subrange(0, a.len() as int) == a
}

/// `new` has as many frames as `old`, each extends the old one, and all but
/// the outermost and the innermost are unchanged.
pub open spec fn frames_extended(old: Seq<Seq<Seq<u8>>>, new: Seq<Seq<Seq<u8>>>) -> bool {
    &&& new.len() == old.len()
    &&& forall|j: int| 0 <= j < old.len() ==> is_prefix(old[j], #[trigger] new[j])
    &&& forall|j: int| 0 < j < old.len() - 1 ==> #[trigger] new[j] == old[j]
}

proof fn lemma_refined_trans(a: Seq<LabelView>, b: Seq<LabelView>, c: Seq<LabelView>)
    requires
        labels_refined(a, b),
        labels_refined(b, c),
    ensures
        labels_refined(a, c),
{
    assert forall|x: int| 0 <= x < a.len() implies #[trigger] c[x] == a[x] || numbered_from(
        a[x],
        c[x],
    ) by {
        assert(b[x] == a[x] || numbered_from(a[x], b[x]));
        assert(c[x] == b[x] || numbered_from(b[x], c[x]));
    }
}

proof fn lemma_prefix_trans(a: Seq<Seq<u8>>, b: Seq<Seq<u8>>, c: Seq<Seq<u8>>)
    requires
        is_prefix(a, b),
        is_prefix(b, c),
    ensures
        is_prefix(a, c),
{
    assert(c.subrange(0, a.len() as int) =~= b.subrange(0, a.len() as int));
}

proof fn lemma_prefix_push(a: Seq<Seq<u8>>, x: Seq<u8>)
    ensures
        is_prefix(a, a.push(x)),
{
    assert(a.push(x).subrange(0, a.len() as int) =~= a);
}

proof fn lemma_prefix_refl(a: Seq<Seq<u8>>)
    ensures
        is_prefix(a, a),
{
    assert(a.subrange(0, a.len() as int) =~= a);
}

proof fn lemma_frames_trans(a: Seq<Seq<Seq<u8>>>, b: Seq<Seq<Seq<u8>>>, c: Seq<Seq<Seq<u8>>>)
    requires
        frames_extended(a, b),
        frames_extended(b, c),
    ensures
        frames_extended(a, c),
{
    assert forall|j: int| 0 <= j < a.len() implies is_prefix(a[j], #[trigger] c[j]) by {
        lemma_prefix_trans(a[j], b[j], c[j]);
    }
    assert forall|j: int| 0 < j < a.len() - 1 implies #[trigger] c[j] == a[j] by {
        assert(b[j] == a[j]);
        assert(c[j] == b[j]);
    }
}

proof fn lemma_frames_refl(a: Seq<Seq<Seq<u8>>>)
    ensures
        frames_extended(a, a),
{
    assert forall|j: int| 0 <= j < a.len() implies is_prefix(a[j], #[trigger] a[j]) by {
        lemma_prefix_refl(a[j]);
    }
}

proof fn lemma_lookup_bounds(frames: Seq<Seq<Seq<u8>>>, name: Seq<u8>)
    ensures
        lookup(frames, name).1 >= 0,
        lookup(frames, name).0 is None ==> forall|j: int|
            0 <= j < frames.len() ==> !(#[trigger] frames[j]).contains(name),
    decreases frames.len(),
{
    if frames.len() > 0 {
        lemma_lookup_bounds(frames.drop_last(), name);
        if !frames.last().contains(name) && lookup(frames, name).0 is None {
            assert forall|j: int| 0 <= j < frames.len() implies !(
            #[trigger] frames[j]).contains(name) by {
                if j < frames.len() - 1 {
                    assert(frames.drop_last()[j] == frames[j]);
                }
            }
        }
    }
}

/// A frame that holds `name` holds it first at `first_index`.
proof fn lemma_first_index(frame: Seq<Seq<u8>>, name: Seq<u8>, i: int)
    requires
        0 <= i < frame.len(),
        frame[i] == name,
    ensures
        0 <= first_index(frame, name) <= i,
        frame[first_index(frame, name)] == name,
        forall|j: int| 0 <= j < first_index(frame, name) ==> frame[j] != name,
    decreases i,
{
    if exists|j: int| 0 <= j < i && frame[j] == name {
        let j = choose|j: int| 0 <= j < i && frame[j] == name;
        lemma_first_index(frame, name, j);
    } else {
        assert(0 <= i < frame.len() && frame[i] == name && forall|j: int| 0 <= j < i ==> frame[j] != name);
    }
}

/// The number of names in all the frames.
pub open spec fn frames_size(frames: Seq<Seq<Seq<u8>>>) -> int
    decreases frames.len(),
{
    if frames.len() == 0 {
        0
    } else {
        frames_size(frames.drop_last()) + frames.last().len()
    }
}

/// The number of names in the frames inside frame `j` (those after it).
pub open spec fn size_inside(frames: Seq<Seq<Seq<u8>>>, j: int) -> int
    decreases frames.len(),
{
    if frames.len() == 0 || frames.len() - 1 <= j {
        0
    } else {
        size_inside(frames.drop_last(), j) + frames.last().len()
    }
}

/// A name that is found is found at a position of its frame, and its position
/// plus the size of the frames inside its frame is below the size of all frames.
proof fn lemma_lookup_found_bounds(frames: Seq<Seq<Seq<u8>>>, name: Seq<u8>)
    ensures
        lookup(frames, name).0 matches Some(i) ==> 0 <= i && i + lookup(frames, name).1 < frames_size(frames),
        lookup(frames, name).1 >= 0,
        frames_size(frames) >= 0,
    decreases frames.len(),
{
    if frames.len() > 0 {
        lemma_lookup_found_bounds(frames.drop_last(), name);
        let last = frames.last();
        if last.contains(name) {
            let i = choose|i: int| 0 <= i < last.len() && last[i] == name;
            lemma_first_index(last, name, i);
        }
    }
}

/// A reference to a name whose innermost declaration lies in frame `j` gets
/// the position of that declaration in frame `j` plus the number of names in
/// all the frames inside frame `j`; the frames do not change.
pub proof fn lemma_reference_number_of_declared(frames: Seq<Seq<Seq<u8>>>, name: Seq<u8>, j: int)
    requires
        0 <= j < frames.len(),
        frames[j].contains(name),
        forall|i: int| j < i < frames.len() ==> !(#[trigger] frames[i]).contains(name),
    ensures
        lookup(frames, name) == (Some(first_index(frames[j], name)), size_inside(frames, j)),
        reference_number(frames, name) == (
            wrap(first_index(frames[j], name) + size_inside(frames, j)),
            frames,
        ),
    decreases frames.len(),
{
    if j < frames.len() - 1 {
        let init = frames.drop_last();
        assert(!frames[frames.len() - 1].contains(name));
        assert forall|i: int| j < i < init.len() implies !(#[trigger] init[i]).contains(name) by {
            assert(init[i] == frames[i]);
        }
        assert(init[j] == frames[j]);
        lemma_reference_number_of_declared(init, name, j);
    }
}

/// Below the size of all frames, positions plus inner sizes of two different
/// names that are both found differ.
proof fn lemma_found_positions_differ(frames: Seq<Seq<Seq<u8>>>, a: Seq<u8>, b: Seq<u8>)
    requires
        a != b,
        lookup(frames, a).0 is Some,
        lookup(frames, b).0 is Some,
    ensures
        lookup(frames, a).0->0 + lookup(frames, a).1 != lookup(frames, b).0->0 + lookup(frames, b).1,
    decreases frames.len(),
{
    let last = frames.last();
    let init = frames.drop_last();
    lemma_lookup_found_bounds(init, a);
    lemma_lookup_found_bounds(init, b);
    if last.contains(a) {
        let i = choose|i: int| 0 <= i < last.len() && last[i] == a;
        lemma_first_index(last, a, i);
    }
    if last.contains(b) {
        let i = choose|i: int| 0 <= i < last.len() && last[i] == b;
        lemma_first_index(last, b, i);
    }
    if !last.contains(a) && !last.contains(b) {
        lemma_found_positions_differ(init, a, b);
    }
}

/// References to two different names that are both declared in the frames get
/// different numbers, as long as the frames hold fewer than 2^32 names: a
/// number tells which declaration a reference resolves to.
pub proof fn lemma_distinct_names_distinct_numbers(frames: Seq<Seq<Seq<u8>>>, a: Seq<u8>, b: Seq<u8>)
    requires
        a != b,
        exists|j: int| 0 <= j < frames.len() && (#[trigger] frames[j]).contains(a),
        exists|j: int| 0 <= j < frames.len() && (#[trigger] frames[j]).contains(b),
        frames_size(frames) <= 0x1_0000_0000,
    ensures
        reference_number(frames, a).0 != reference_number(frames, b).0,
{
    lemma_lookup_bounds(frames, a);
    lemma_lookup_bounds(frames, b);
    let ja = choose|j: int| 0 <= j < frames.len() && (#[trigger] frames[j]).contains(a);
    let jb = choose|j: int| 0 <= j < frames.len() && (#[trigger] frames[j]).contains(b);
    assert(lookup(frames, a).0 is Some);
    assert(lookup(frames, b).0 is Some);
    lemma_lookup_found_bounds(frames, a);
    lemma_lookup_found_bounds(frames, b);
    lemma_found_positions_differ(frames, a, b);
}

/// Entering a node numbers at most its own label and extends the frames.
proof fn lemma_enter_facts(st: WalkState, id: int)
    requires
        0 <= id < st.labels.len(),
        st.frames.len() >= 1,
    ensures
        labels_refined(st.labels, enter(st, id).labels),
        forall|x: int| 0 <= x < st.labels.len() && x != id ==> #[trigger] enter(st, id).labels[x] == st.labels[x],
        !(enter(st, id).labels[id] is LiteralReference),
        st.labels[id] is Scope ==> enter(st, id).frames == st.frames.push(Seq::<Seq<u8>>::empty())
            && enter(st, id).labels == st.labels,
        !(st.labels[id] is Scope) ==> frames_extended(st.frames, enter(st, id).frames),
{
    let e = enter(st, id);
    match st.labels[id] {
        LabelView::Scope(_) => {},
        LabelView::Declare(Some(name)) => {
            let n = st.frames.len();
            assert forall|j: int| 0 <= j < n implies is_prefix(st.frames[j], #[trigger] e.frames[j]) by {
                if j == n - 1 {
                    lemma_prefix_push(st.frames[j], name);
                } else {
                    lemma_prefix_refl(st.frames[j]);
                }
            }
        },
        LabelView::LiteralReference(None) => {
            lemma_frames_refl(st.frames);
        },
        LabelView::LiteralReference(Some(name)) => {
            let (found, depth) = lookup(st.frames, name);
            if found is None {
                let n = st.frames.len();
                assert forall|j: int| 0 <= j < n implies is_prefix(st.frames[j], #[trigger] e.frames[j]) by {
                    if j == 0 {
                        lemma_prefix_push(st.frames[j], name);
                    } else {
                        lemma_prefix_refl(st.frames[j]);
                    }
                }
            } else {
                lemma_frames_refl(st.frames);
            }
        },
        _ => {
            lemma_frames_refl(st.frames);
        },
    }
}

/// What a walk over a node changes: only literal references get numbered,
/// the number of frames is the same, every frame is extended, and all frames
/// but the outermost and the innermost are unchanged.
pub proof fn lemma_walk_facts(kids: Seq<Seq<SharedTree>>, id: int, st: WalkState)
    requires
        children_precede(kids),
        st.labels.len() == kids.len(),
        st.frames.len() >= 1,
    ensures
        labels_refined(st.labels, walk(kids, id, st).labels),
        frames_extended(st.frames, walk(kids, id, st).frames),
    decreases id, 1int, 0int,
{
    if 0 <= id < kids.len() {
        let e = enter(st, id);
        lemma_enter_facts(st, id);
        lemma_walk_children_facts(kids, id, 0, e);
        let c = walk_children(kids, id, 0, e);
        lemma_refined_trans(st.labels, e.labels, c.labels);
        if st.labels[id] is Scope {
            assert(c.labels[id] == e.labels[id]);
            let r = leave(c, id);
            let n = st.frames.len();
            assert(r.frames.len() == n);
            assert forall|j: int| 0 <= j < n implies is_prefix(st.frames[j], #[trigger] r.frames[j]) by {
                assert(r.frames[j] == c.frames[j]);
                assert(e.frames[j] == st.frames[j]);
            }
            assert forall|j: int| 0 < j < n - 1 implies #[trigger] r.frames[j] == st.frames[j] by {
                assert(r.frames[j] == c.frames[j]);
                assert(e.frames[j] == st.frames[j]);
            }
        } else {
            lemma_frames_trans(st.frames, e.frames, c.frames);
            assert(c.labels[id] == e.labels[id] || numbered_from(e.labels[id], c.labels[id]));
            assert(!(c.labels[id] is Scope));
        }
    } else {
        lemma_frames_refl(st.frames);
    }
}

proof fn lemma_walk_children_facts(kids: Seq<Seq<SharedTree>>, id: int, k: int, st: WalkState)
    requires
        children_precede(kids),
        st.labels.len() == kids.len(),
        st.frames.len() >= 1,
    ensures
        labels_refined(st.labels, walk_children(kids, id, k, st).labels),
        frames_extended(st.frames, walk_children(kids, id, k, st).frames),
    decreases id, 0int, kids[id].len() - k,
{
    if 0 <= id < kids.len() && 0 <= k < kids[id].len() && kids[id][k] < id {
        let child = kids[id][k] as int;
        let w = walk(kids, child, st);
        lemma_walk_facts(kids, child, st);
        lemma_walk_children_facts(kids, id, k + 1, w);
        lemma_refined_trans(st.labels, w.labels, walk_children(kids, id, k + 1, w).labels);
        lemma_frames_trans(st.frames, w.frames, walk_children(kids, id, k + 1, w).frames);
    } else {
        assert(labels_refined(st.labels, st.labels));
        lemma_frames_refl(st.frames);
    }
}

/// Any `Declare` within a `Scope` stays in the `Scope`: after the walk over a
/// scope node, every frame but the outermost is as it was, and the outermost
/// has only grown.
pub proof fn lemma_scope_confines_declarations(kids: Seq<Seq<SharedTree>>, id: int, st: WalkState)
    requires
        children_precede(kids),
        st.labels.len() == kids.len(),
        st.frames.len() >= 1,
        0 <= id < kids.len(),
        st.labels[id] is Scope,
    ensures
        walk(kids, id, st).frames.len() == st.frames.len(),
        forall|j: int|
            0 < j < st.frames.len() ==> #[trigger] walk(kids, id, st).frames[j] == st.frames[j],
        is_prefix(st.frames[0], walk(kids, id, st).frames[0]),
{
    lemma_walk_facts(kids, id, st);
    let e = enter(st, id);
    lemma_enter_facts(st, id);
    lemma_walk_children_facts(kids, id, 0, e);
    let c = walk_children(kids, id, 0, e);
    assert(c.labels[id] == e.labels[id]);
    let n = st.frames.len();
    assert forall|j: int| 0 < j < n implies #[trigger] walk(kids, id, st).frames[j] == st.frames[j] by {
        assert(walk(kids, id, st).frames[j] == c.frames[j]);
        assert(e.frames[j] == st.frames[j]);
    }
}


proof fn lemma_wrap_add(a: int, b: int)
    requires
        a >= 0,
        b >= 0,
    ensures
        vstd::wrapping::u32_specs::wrapping_add(wrap(a), wrap(b)) == wrap(a + b),
{
    vstd::arithmetic::div_mod::lemma_add_mod_noop(a, b, 0x1_0000_0000);
}

/// `n` modulo 2^32.
fn wrap_len(n: usize) -> (r: u32)
    ensures
        r == wrap(n as int),
{
    ((n as u64) % 0x1_0000_0000u64) as u32
}

/// The position of the first occurrence of `name` in `frame`, if any.
fn position_in(frame: &Vec<Vec<u8>>, name: &[u8]) -> (pos: Option<usize>)
    ensures
        ({
            let f = frame@.map_values(|n: Vec<u8>| n@);
            match pos {
                Some(i) => i < f.len() && f[i as int] == name@ && first_index(f, name@) == i,
                None => !f.contains(name@),
            }
        }),
{
    let ghost f = frame@.map_values(|n: Vec<u8>| n@);
    let mut i: usize = 0;
    while i < frame.len()
        invariant
            f == frame@.map_values(|n: Vec<u8>| n@),
            i <= f.len(),
            forall|j: int| 0 <= j < i ==> f[j] != name@,
        decreases f.len() - i,
    {
        if bytes_eq(frame[i].as_slice(), name) {
            proof {
                let c = first_index(f, name@);
                assert(0 <= i < f.len() && f[i as int] == name@ && forall|j: int|
                    0 <= j < i ==> f[j] != name@);
                assert(0 <= c < f.len() && f[c] == name@ && forall|j: int|
                    0 <= j < c ==> f[j] != name@);
                if c < i {
                    assert(f[c] != name@);
                }
                if c > i {
                    assert(f[i as int] != name@);
                }
            }
            return Some(i);
        }
        i = i + 1;
    }
    proof {
        if f.contains(name@) {
            let j = choose|j: int| 0 <= j < f.len() && f[j] == name@;
            assert(f[j] != name@);
        }
    }
    None
}

/// Looks `name` up in the frames (see `lookup`); the total size is given modulo 2^32.
#[verifier::spinoff_prover]
#[verifier::rlimit(40)]
fn lookup_in(frames: &Vec<Vec<Vec<u8>>>, name: &[u8]) -> (res: (Option<usize>, u32))
    ensures
        res.1 == wrap(lookup(frame_views(frames@), name@).1),
        match lookup(frame_views(frames@), name@).0 {
            Some(i) => res.0 is Some && res.0->0 as int == i,
            None => res.0 is None,
        },
{
    let ghost fv = frame_views(frames@);
    let mut i: usize = frames.len();
    let mut depth: u32 = 0;
    let ghost mut acc: int = 0;
    proof {
        assert(fv.take(fv.len() as int) =~= fv);
        lemma_lookup_bounds(fv, name@);
    }
    while i > 0
        invariant
            fv == frame_views(frames@),
            i <= fv.len(),
            acc >= 0,
            depth == wrap(acc),
            lookup(fv, name@).0 == lookup(fv.take(i as int), name@).0,
            lookup(fv, name@).1 == lookup(fv.take(i as int), name@).1 + acc,
            i < fv.len() ==> !fv.last().contains(name@),
        decreases i,
    {
        let frame = &frames[i - 1];
        let ghost prefix = fv.take(i as int);
        proof {
            assert(prefix.drop_last() =~= fv.take(i - 1));
            assert(prefix.last() == fv[i - 1]);
            assert(fv[i - 1] == frame@.map_values(|n: Vec<u8>| n@));
        }
        match position_in(frame, name) {
            Some(p) => {
                proof {
                    assert(prefix.last().contains(name@));
                    if i < fv.len() {
                        assert(!fv.last().contains(name@));
                    }
                }
                return (Some(p), depth);
            },
            None => {
                proof {
                    lemma_wrap_add(acc, frame@.len() as int);
                    lemma_lookup_bounds(fv.take(i - 1), name@);
                }
                depth = depth.wrapping_add(wrap_len(frame.len()));
                proof {
                    acc = acc + frame@.len();
                }
                i = i - 1;
            },
        }
    }
    proof {
        assert(fv.take(0) =~= Seq::<Seq<Seq<u8>>>::empty());
    }
    (None, depth)
}

enum EnterStep {
    PushFrame,
    Declare(Vec<u8>),
    NumberAbsent,
    Number(Vec<u8>),
    Nothing,
}

/// What entering a node with `label` does, with a copy of the name involved.
fn classify(label: &Label) -> (step: EnterStep)
    ensures
        step is PushFrame <==> label@ is Scope,
        step matches EnterStep::Declare(n) ==> label@ == LabelView::Declare(Some(n@)),
        label@ matches LabelView::Declare(Some(_)) ==> step is Declare,
        step is NumberAbsent <==> label@ == LabelView::LiteralReference(None),
        step matches EnterStep::Number(n) ==> label@ == LabelView::LiteralReference(Some(n@)),
        label@ matches LabelView::LiteralReference(Some(_)) ==> step is Number,
{
    match label {
        Label::Scope(_) => EnterStep::PushFrame,
        Label::Declare(Some(name)) => EnterStep::Declare(copy_bytes(name.as_slice())),
        Label::LiteralReference(None) => EnterStep::NumberAbsent,
        Label::LiteralReference(Some(name)) => EnterStep::Number(copy_bytes(name.as_slice())),
        _ => EnterStep::Nothing,
    }
}

/// Performs the step of the walk on entering node `id` (see `enter`): updates
/// the frames, and returns the new label of the node if it changes.
fn enter_node(labels: &Vec<Label>, id: usize, frames: &mut Vec<Vec<Vec<u8>>>) -> (relabel: Option<
    Label,
>)
    requires
        id < labels.len(),
        old(frames).len() >= 1,
    ensures
        ({
            let st = WalkState { labels: label_views(labels@), frames: frame_views(old(frames)@) };
            let e = enter(st, id as int);
            &&& frame_views(final(frames)@) == e.frames
            &&& match relabel {
                Some(l) => e.labels == st.labels.update(id as int, l@),
                None => e.labels == st.labels,
            }
        }),
{
    let ghost st = WalkState { labels: label_views(labels@), frames: frame_views(frames@) };
    let step = classify(&labels[id]);
    assert(st.labels[id as int] == labels@[id as int]@);
    match step {
        EnterStep::PushFrame => {
            let fresh: Vec<Vec<u8>> = Vec::new();
            assert(fresh@.map_values(|v: Vec<u8>| v@) =~= Seq::<Seq<u8>>::empty());
            frames.push(fresh);
            assert(frame_views(frames@) =~= st.frames.push(Seq::empty()));
            assert(frame_views(frames@) == enter(st, id as int).frames);
            None
        },
        EnterStep::Declare(name) => {
            let ghost n = name@;
            let mut frame = frames.pop().unwrap();
            frame.push(name);
            frames.push(frame);
            assert(frame@.map_values(|v: Vec<u8>| v@) =~= st.frames.last().push(n));
            assert(frame_views(frames@) =~= st.frames.update(
                st.frames.len() - 1,
                st.frames.last().push(n),
            ));
            assert(frame_views(frames@) == enter(st, id as int).frames);
            None
        },
        EnterStep::NumberAbsent => {
            Some(Label::NumberedReference(None))
        },
        EnterStep::Number(name) => {
            let ghost n = name@;
            let (found, depth) = lookup_in(frames, name.as_slice());
            proof {
                lemma_lookup_bounds(st.frames, n);
            }
            let number = match found {
                Some(p) => {
                    proof {
                        lemma_wrap_add(lookup(st.frames, n).1, p as int);
                    }
                    depth.wrapping_add(wrap_len(p))
                },
                None => {
                    let mut top = frames.remove(0);
                    top.push(name);
                    let new_len = top.len();
                    frames.insert(0, top);
                    assert(top@.map_values(|v: Vec<u8>| v@) =~= st.frames[0].push(n));
                    assert(frame_views(frames@) =~= st.frames.update(0, st.frames[0].push(n)));
                    proof {
                        lemma_wrap_add(lookup(st.frames, n).1, new_len as int);
                    }
                    depth.wrapping_add(wrap_len(new_len))
                },
            };
            assert(reference_number(st.frames, n).0 == number);
            Some(Label::NumberedReference(Some(number)))
        },
        EnterStep::Nothing => {
            None
        },
    }
}

/// Performs the walk over node `id` (see `walk`).
pub(crate) fn walk_node(
    labels: &mut Vec<Label>,
    kids: &Vec<Vec<SharedTree>>,
    id: usize,
    frames: &mut Vec<Vec<Vec<u8>>>,
)
    requires
        old(labels).len() == kids.len(),
        children_precede(kid_views(kids@)),
        id < kids.len(),
        old(frames).len() >= 1,
    ensures
        ({
            let w = walk(
                kid_views(kids@),
                id as int,
                WalkState { labels: label_views(old(labels)@), frames: frame_views(old(frames)@) },
            );
            label_views(final(labels)@) == w.labels && frame_views(final(frames)@) == w.frames
        }),
        final(labels).len() == old(labels).len(),
        final(frames).len() == old(frames).len(),
    decreases id,
{
    let ghost kv = kid_views(kids@);
    let ghost st = WalkState { labels: label_views(labels@), frames: frame_views(frames@) };
    let relabel = enter_node(labels, id, frames);
    if let Some(label) = relabel {
        let ghost before = labels@;
        labels.set(id, label);
        assert(label_views(labels@) =~= label_views(before).update(id as int, labels@[id as int]@));
    }
    let ghost e = WalkState { labels: label_views(labels@), frames: frame_views(frames@) };
    proof {
        lemma_enter_facts(st, id as int);
        assert(e == enter(st, id as int));
        if !(st.labels[id as int] is Scope) {
            assert(e.frames.len() == st.frames.len());
        }
        assert(frames@.len() == e.frames.len());
    }
    let n = kids[id].len();
    let mut k: usize = 0;
    while k < n
        invariant
            kv == kid_views(kids@),
            children_precede(kv),
            id < kv.len(),
            n == kv[id as int].len(),
            k <= n,
            labels@.len() == kv.len(),
            frames@.len() >= 1,
            frames@.len() == e.frames.len(),
            e.labels.len() == kv.len(),
            walk_children(kv, id as int, 0, e) == walk_children(
                kv,
                id as int,
                k as int,
                WalkState { labels: label_views(labels@), frames: frame_views(frames@) },
            ),
        decreases n - k,
    {
        let child = kids[id][k];
        assert(kv[id as int][k as int] == child);
        assert(child < id);
        walk_node(labels, kids, child, frames);
        k = k + 1;
    }
    let ghost c = WalkState { labels: label_views(labels@), frames: frame_views(frames@) };
    proof {
        lemma_walk_children_facts(kv, id as int, 0, e);
        assert(c.labels[id as int] == e.labels[id as int] || numbered_from(
            e.labels[id as int],
            c.labels[id as int],
        ));
    }
    let is_scope = match &labels[id] {
        Label::Scope(_) => true,
        _ => false,
    };
    assert(is_scope == (c.labels[id as int] is Scope));
    if is_scope {
        let _ = frames.pop();
        assert(frame_views(frames@) =~= c.frames.drop_last());
    }
}


/// No node of the subtree of `id` carries a literal reference.
pub open spec fn references_resolved(labels: Seq<LabelView>, kids: Seq<Seq<SharedTree>>, id: int) -> bool {
    forall|x: SharedTree|
        #[trigger] preorder(kids, id).contains(x) ==> !(labels[x as int] is LiteralReference)
}

proof fn lemma_refined_keeps_resolved(
    old: Seq<LabelView>,
    new: Seq<LabelView>,
    kids: Seq<Seq<SharedTree>>,
    id: int,
)
    requires
        labels_refined(old, new),
        references_resolved(old, kids, id),
        forall|x: SharedTree| #[trigger] preorder(kids, id).contains(x) ==> x < old.len(),
    ensures
        references_resolved(new, kids, id),
{
    assert forall|x: SharedTree| #[trigger] preorder(kids, id).contains(x) implies !(
    new[x as int] is LiteralReference) by {
        assert(new[x as int] == old[x as int] || numbered_from(old[x as int], new[x as int]));
    }
}

pub proof fn lemma_preorder_in_range(kids: Seq<Seq<SharedTree>>, id: int)
    requires
        children_precede(kids),
        0 <= id < kids.len(),
        kids.len() <= usize::MAX,
    ensures
        forall|x: SharedTree| #[trigger] preorder(kids, id).contains(x) ==> x <= id,
    decreases id,
{
    assert forall|k: int| 0 <= k < kids[id].len() && kids[id][k] < id implies forall|x: SharedTree|
        #[trigger] preorder(kids, kids[id][k] as int).contains(x) ==> x <= id by {
        lemma_preorder_in_range(kids, kids[id][k] as int);
    }
    let p = |x: SharedTree| x <= id;
    lemma_preorder_all(kids, id, p);
}

/// After the walk over a node, no node of its subtree carries a literal
/// reference.
pub proof fn lemma_walk_resolves(kids: Seq<Seq<SharedTree>>, id: int, st: WalkState)
    requires
        children_precede(kids),
        kids.len() <= usize::MAX,
        st.labels.len() == kids.len(),
        st.frames.len() >= 1,
        0 <= id < kids.len(),
    ensures
        references_resolved(walk(kids, id, st).labels, kids, id),
    decreases id, 1int, 0int,
{
    let e = enter(st, id);
    lemma_enter_facts(st, id);
    lemma_walk_children_resolves(kids, id, 0, e);
    lemma_walk_children_facts(kids, id, 0, e);
    let c = walk_children(kids, id, 0, e);
    let r = walk(kids, id, st);
    assert(r.labels == c.labels);
    assert(c.labels[id] == e.labels[id] || numbered_from(e.labels[id], c.labels[id]));
    let p = |x: SharedTree| !(r.labels[x as int] is LiteralReference);
    assert forall|k: int| 0 <= k < kids[id].len() && kids[id][k] < id implies forall|x: SharedTree|
        #[trigger] preorder(kids, kids[id][k] as int).contains(x) ==> p(x) by {
        assert(references_resolved(c.labels, kids, kids[id][k] as int));
    }
    lemma_preorder_all(kids, id, p);
}

proof fn lemma_walk_children_resolves(kids: Seq<Seq<SharedTree>>, id: int, k: int, st: WalkState)
    requires
        children_precede(kids),
        kids.len() <= usize::MAX,
        st.labels.len() == kids.len(),
        st.frames.len() >= 1,
        0 <= id < kids.len(),
        0 <= k,
    ensures
        forall|j: int|
            k <= j < kids[id].len() && kids[id][j] < id ==> references_resolved(
                walk_children(kids, id, k, st).labels,
                kids,
                #[trigger] kids[id][j] as int,
            ),
    decreases id, 0int, kids[id].len() - k,
{
    if 0 <= k < kids[id].len() && kids[id][k] < id {
        let child = kids[id][k] as int;
        let w = walk(kids, child, st);
        lemma_walk_resolves(kids, child, st);
        lemma_walk_facts(kids, child, st);
        lemma_walk_children_resolves(kids, id, k + 1, w);
        lemma_walk_children_facts(kids, id, k + 1, w);
        let r = walk_children(kids, id, k + 1, w);
        lemma_preorder_in_range(kids, child);
        lemma_refined_keeps_resolved(w.labels, r.labels, kids, child);
    }
}

/// The bytes of the tag of the node that declares the undeclared variables.
pub open spec fn undeclared_tag() -> Seq<u8> {
    "_undeclared_variables".spec_bytes()
}

/// The arena after numbering the references of the tree rooted at `root`: the
/// labels of the walk, then one `Declare` node for each name of frame 0, a tag
/// node `_undeclared_variables` over them, and a `Scope` node numbered `scope`
/// over the tag node and the former root, which becomes the root.
pub open spec fn numbered_tree(
    labels: Seq<LabelView>,
    kids: Seq<Seq<SharedTree>>,
    root: SharedTree,
    scope: usize,
) -> (Seq<LabelView>, Seq<Seq<SharedTree>>, SharedTree) {
    let w = walk(kids, root as int, WalkState { labels, frames: seq![Seq::empty()] });
    let top = w.frames[0];
    let n = labels.len();
    let declares = top.map_values(|name: Seq<u8>| LabelView::Declare(Some(name)));
    (
        w.labels + declares + seq![LabelView::Tag(undeclared_tag()), LabelView::Scope(scope)],
        kids + Seq::new(top.len(), |i: int| Seq::<SharedTree>::empty()) + seq![
            Seq::new(top.len(), |i: int| (n + i) as usize),
            seq![(n + top.len()) as usize, root],
        ],
        (n + top.len() + 1) as usize,
    )
}

/// Numbers the references of the tree rooted at `root` and declares the
/// undeclared variables (see `numbered_tree`); returns the new root.
pub(crate) fn number_references(
    labels: &mut Vec<Label>,
    kids: &mut Vec<Vec<SharedTree>>,
    root: SharedTree,
    scope: usize,
) -> (new_root: SharedTree)
    requires
        old(labels)@.len() == old(kids)@.len(),
        children_precede(kid_views(old(kids)@)),
        root < old(kids)@.len(),
    ensures
        ({
            let (nl, nk, nr) = numbered_tree(
                label_views(old(labels)@),
                kid_views(old(kids)@),
                root,
                scope,
            );
            &&& label_views(final(labels)@) == nl
            &&& kid_views(final(kids)@) == nk
            &&& new_root == nr
        }),
        final(labels)@.len() == final(kids)@.len(),
        children_precede(kid_views(final(kids)@)),
        new_root < final(kids)@.len(),
{
    let ghost lv0 = label_views(labels@);
    let ghost kv0 = kid_views(kids@);
    let mut frames: Vec<Vec<Vec<u8>>> = Vec::new();
    frames.push(Vec::new());
    proof {
        assert(frames@[0]@.map_values(|v: Vec<u8>| v@) =~= Seq::<Seq<u8>>::empty());
        assert(frame_views(frames@) =~= seq![Seq::<Seq<u8>>::empty()]);
    }
    walk_node(labels, kids, root, &mut frames);
    let ghost w = walk(kv0, root as int, WalkState { labels: lv0, frames: seq![Seq::empty()] });
    let ghost top_v = w.frames[0];
    let n = labels.len();
    let top = frames.remove(0);
    assert(top@.map_values(|v: Vec<u8>| v@) == top_v);
    let mut declared: Vec<SharedTree> = Vec::new();
    let mut i: usize = 0;
    while i < top.len()
        invariant
            n == lv0.len(),
            n == kv0.len(),
            i <= top@.len(),
            top@.map_values(|v: Vec<u8>| v@) == top_v,
            labels@.len() == kids@.len(),
            labels@.len() == n + i,
            label_views(labels@) == w.labels + top_v.take(i as int).map_values(
                |name: Seq<u8>| LabelView::Declare(Some(name)),
            ),
            kid_views(kids@) == kv0 + Seq::new(i as nat, |j: int| Seq::<SharedTree>::empty()),
            declared@ == Seq::new(i as nat, |j: int| (n + j) as usize),
            w.labels.len() == n,
            children_precede(kv0),
            children_precede(kid_views(kids@)),
        decreases top@.len() - i,
    {
        let id = labels.len();
        let name = copy_bytes(top[i].as_slice());
        let ghost lbefore = label_views(labels@);
        let ghost kbefore = kid_views(kids@);
        labels.push(Label::Declare(Some(name)));
        kids.push(Vec::new());
        declared.push(id);
        proof {
            assert(top_v[i as int] == top@[i as int]@);
            assert(top_v.take(i + 1) =~= top_v.take(i as int).push(top_v[i as int]));
            assert(label_views(labels@) =~= lbefore.push(LabelView::Declare(Some(top_v[i as int]))));
            assert(top_v.take(i + 1).map_values(|name: Seq<u8>| LabelView::Declare(Some(name)))
                =~= top_v.take(i as int).map_values(|name: Seq<u8>| LabelView::Declare(Some(name))).push(
                LabelView::Declare(Some(top_v[i as int]))));
            assert(label_views(labels@) =~= w.labels + top_v.take(i + 1).map_values(
                |name: Seq<u8>| LabelView::Declare(Some(name)),
            ));
            assert(kids@.last()@ =~= Seq::<SharedTree>::empty());
            assert(kid_views(kids@) =~= kbefore.push(Seq::<SharedTree>::empty()));
            assert(kid_views(kids@) =~= kv0 + Seq::new((i + 1) as nat, |j: int| Seq::<SharedTree>::empty()));
            assert(declared@ =~= Seq::new((i + 1) as nat, |j: int| (n + j) as usize));
            assert forall|a: int, k: int|
                0 <= a < kid_views(kids@).len() && 0 <= k < kid_views(kids@)[a].len() implies #[trigger] kid_views(kids@)[a][k] < a by {
                assert(a < kbefore.len());
                assert(kid_views(kids@)[a] == kbefore[a]);
            }
        }
        i = i + 1;
    }
    proof {
        assert(top_v.take(top_v.len() as int) =~= top_v);
    }
    let tag_id = labels.len();
    let ghost kbefore = kid_views(kids@);
    labels.push(Label::Tag(copy_bytes("_undeclared_variables".as_bytes())));
    kids.push(declared);
    let scope_id = labels.len();
    let mut top_children: Vec<SharedTree> = Vec::new();
    top_children.push(tag_id);
    top_children.push(root);
    labels.push(Label::Scope(ScopeIndex(scope)));
    kids.push(top_children);
    proof {
        let (nl, nk, nr) = numbered_tree(lv0, kv0, root, scope);
        assert(label_views(labels@) =~= nl);
        assert(top_children@ =~= seq![(n + top_v.len()) as usize, root]);
        assert(kid_views(kids@) =~= nk);
        assert forall|a: int, k: int|
            0 <= a < kid_views(kids@).len() && 0 <= k < kid_views(kids@)[a].len() implies #[trigger] kid_views(kids@)[a][k] < a by {
            if a < kbefore.len() {
                assert(kid_views(kids@)[a] == kbefore[a]);
            }
        }
    }
    scope_id
}

/// The numbered tree is an arena whose children precede their parents, and
/// whose root is its last node.
pub proof fn lemma_numbered_tree_shape(
    labels: Seq<LabelView>,
    kids: Seq<Seq<SharedTree>>,
    root: SharedTree,
    scope: usize,
)
    requires
        children_precede(kids),
        labels.len() == kids.len(),
        root < kids.len(),
        kids.len() + 2 + walk(kids, root as int, WalkState { labels, frames: seq![Seq::empty()] }).frames[0].len() <= usize::MAX,
    ensures
        ({
            let (nl, nk, nr) = numbered_tree(labels, kids, root, scope);
            &&& nl.len() == nk.len()
            &&& children_precede(nk)
            &&& nr + 1 == nk.len()
        }),
{
    let st = WalkState { labels, frames: seq![Seq::empty()] };
    let w = walk(kids, root as int, st);
    lemma_walk_facts(kids, root as int, st);
    let top = w.frames[0];
    let n = labels.len();
    let (nl, nk, nr) = numbered_tree(labels, kids, root, scope);
    assert forall|a: int, k: int| 0 <= a < nk.len() && 0 <= k < nk[a].len() implies #[trigger] nk[a][k] < a by {
        if a < n {
            assert(nk[a] == kids[a]);
        } else if a < n + top.len() {
            assert(nk[a].len() == 0);
        } else if a == n + top.len() {
            assert(nk[a][k] == (n + k) as usize);
        } else {
            assert(nk[a] == seq![(n + top.len()) as usize, root]);
        }
    }
}

/// Once references are numbered, no node of the tree carries a literal
/// reference.
pub proof fn lemma_numbering_resolves_references(
    labels: Seq<LabelView>,
    kids: Seq<Seq<SharedTree>>,
    root: SharedTree,
    scope: usize,
)
    requires
        children_precede(kids),
        labels.len() == kids.len(),
        root < kids.len(),
        kids.len() + 2 + walk(kids, root as int, WalkState { labels, frames: seq![Seq::empty()] }).frames[0].len() <= usize::MAX,
    ensures
        ({
            let (nl, nk, nr) = numbered_tree(labels, kids, root, scope);
            references_resolved(nl, nk, nr as int)
        }),
{
    let st = WalkState { labels, frames: seq![Seq::empty()] };
    let w = walk(kids, root as int, st);
    lemma_walk_facts(kids, root as int, st);
    lemma_walk_resolves(kids, root as int, st);
    let top = w.frames[0];
    let n = labels.len();
    let (nl, nk, nr) = numbered_tree(labels, kids, root, scope);
    let more = Seq::new(top.len(), |i: int| Seq::<SharedTree>::empty()) + seq![
        Seq::new(top.len(), |i: int| (n + i) as usize),
        seq![(n + top.len()) as usize, root],
    ];
    assert(nk =~= kids + more);
    lemma_preorder_extended(kids, more, root as int);
    let tag = (n + top.len()) as int;
    let p = |x: SharedTree| !(nl[x as int] is LiteralReference);
    assert forall|k: int| 0 <= k < nk[tag].len() && nk[tag][k] < tag implies forall|x: SharedTree|
        #[trigger] preorder(nk, nk[tag][k] as int).contains(x) ==> p(x) by {
        let d = nk[tag][k] as int;
        assert(d == n + k);
        assert(nk[d].len() == 0);
        assert(preorder(nk, d) =~= seq![d as usize]);
        assert forall|x: SharedTree| #[trigger] preorder(nk, d).contains(x) implies p(x) by {
            assert(preorder(nk, d)[0] == d as usize);
            assert(nl[d] == LabelView::Declare(Some(top[k])));
        }
    }
    lemma_preorder_all(nk, tag, p);
    assert forall|k: int| 0 <= k < nk[nr as int].len() && nk[nr as int][k] < nr implies forall|x: SharedTree|
        #[trigger] preorder(nk, nk[nr as int][k] as int).contains(x) ==> p(x) by {
        if k == 1 {
            assert forall|x: SharedTree| #[trigger] preorder(nk, root as int).contains(x) implies p(x) by {
                assert(preorder(kids, root as int).contains(x));
                lemma_preorder_in_range(kids, root as int);
                assert(nl[x as int] == w.labels[x as int]);
            }
        }
    }
    lemma_preorder_all(nk, nr as int, p);
}

} // verus!
