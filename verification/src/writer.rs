//! The tree token writer: builds a tree of labels, then writes it to the
//! per-category streams.

use vstd::prelude::*;
use vstd::string::StringSliceAdditionalSpecFns;
use crate::category::Targets;
use crate::label::{Label, LabelView, copy_bytes};
use crate::options::{DictionaryPlacement, Options};
use crate::tree::{SharedTree, SubTree, label_views, kid_views, children_precede, handles_below};
use crate::category::PerCategory;
use crate::statistics::Statistics;
use crate::numbering::{
    numbered_tree, number_references, lemma_numbering_resolves_references, lemma_preorder_in_range,
    lemma_numbered_tree_shape, walk, WalkState,
};
use crate::tally::{
    preorder, collect_preorder, count_labels, labels_at, of_kind, Counted, counted_as, Tallies,
    lemma_of_kind_members, lemma_distinct_facts, lemma_distinct_empty, distinct,
};
use crate::serialize::{
    ContentDictionaries, Dictionaries, Dictionary, dictionary_of, emitted, append_streams,
    streams_view, writable, dictionary_for, serialize_children, write_label,
    lemma_ungrouped_is_preorder, lemma_grouping_keeps_labels,
};
use crate::header::{dictionary_header, ranked_entries, by_length, write_ranked_dictionary, write_dictionary_by_length};
use crate::encoding::spec_varnum;

verus! {

/// Writes a tree of labels to one stream per category of content.
pub struct TreeTokenWriter {
    labels: Vec<Label>,
    children: Vec<Vec<SharedTree>>,
    root: SharedTree,
    options: Options,
    targets: Targets,
    scope_counter: usize,
}

/// A copy of the labels of an arena.
fn copy_labels(labels: &Vec<Label>) -> (copy: Vec<Label>)
    ensures
        label_views(copy@) == label_views(labels@),
        copy@.len() == labels@.len(),
{
    let mut copy: Vec<Label> = Vec::new();
    let mut i: usize = 0;
    while i < labels.len()
        invariant
            i <= labels@.len(),
            label_views(copy@) == label_views(labels@).take(i as int),
        decreases labels@.len() - i,
    {
        let c = labels[i].copy();
        let ghost before = copy@;
        copy.push(c);
        assert(label_views(copy@) =~= label_views(before).push(labels@[i as int]@));
        assert(label_views(copy@) =~= label_views(labels@).take(i + 1));
        i = i + 1;
    }
    assert(label_views(labels@).take(i as int) =~= label_views(labels@));
    copy
}

/// A copy of the children of an arena.
fn copy_children(children: &Vec<Vec<SharedTree>>) -> (copy: Vec<Vec<SharedTree>>)
    ensures
        kid_views(copy@) == kid_views(children@),
        copy@.len() == children@.len(),
{
    let mut copy: Vec<Vec<SharedTree>> = Vec::new();
    let mut i: usize = 0;
    while i < children.len()
        invariant
            i <= children@.len(),
            kid_views(copy@) == kid_views(children@).take(i as int),
        decreases children@.len() - i,
    {
        let kids = &children[i];
        let mut c: Vec<SharedTree> = Vec::new();
        let mut k: usize = 0;
        while k < kids.len()
            invariant
                k <= kids@.len(),
                c@ == kids@.take(k as int),
            decreases kids@.len() - k,
        {
            c.push(kids[k]);
            assert(c@ =~= kids@.take(k + 1));
            k = k + 1;
        }
        assert(kids@.take(k as int) =~= kids@);
        let ghost before = copy@;
        copy.push(c);
        assert(kid_views(copy@) =~= kid_views(before).push(children@[i as int]@));
        assert(kid_views(copy@) =~= kid_views(children@).take(i + 1));
        i = i + 1;
    }
    assert(kid_views(children@).take(i as int) =~= kid_views(children@));
    copy
}

/// The label of a string: its UTF-8 bytes, followed by a zero byte when
/// dictionaries are inline.
pub open spec fn string_label(value: Option<Seq<u8>>, placement: DictionaryPlacement) -> LabelView {
    match value {
        None => LabelView::String(None),
        Some(s) => LabelView::String(
            Some(
                if placement == DictionaryPlacement::Inline {
                    s.push(0u8)
                } else {
                    s
                },
            ),
        ),
    }
}

impl TreeTokenWriter {
    /// The labels of the nodes, by handle.
    pub closed spec fn spec_labels(&self) -> Seq<LabelView> {
        label_views(self.labels@)
    }

    /// The children of the nodes, by handle.
    pub closed spec fn spec_children(&self) -> Seq<Seq<SharedTree>> {
        kid_views(self.children@)
    }

    /// The root: the last node added.
    pub closed spec fn spec_root(&self) -> SharedTree {
        self.root
    }

    pub closed spec fn spec_options(&self) -> Options {
        self.options
    }

    pub closed spec fn spec_targets(&self) -> Targets {
        self.targets
    }

    /// The index of the scope that wraps the tree when it is written.
    pub closed spec fn spec_scope_counter(&self) -> usize {
        self.scope_counter
    }

    /// Every node has a label and children that precede it, and the root is a node.
    pub closed spec fn wf(&self) -> bool {
        &&& self.labels@.len() == self.children@.len()
        &&& self.root < self.children@.len()
        &&& children_precede(kid_views(self.children@))
    }

    /// `self` is `old` with one more node, of label `label` and children
    /// `kids`, which has handle `handle` and is the root.
    pub open spec fn grown(
        self,
        old: Self,
        label: LabelView,
        kids: Seq<SharedTree>,
        handle: SharedTree,
    ) -> bool {
        &&& self.wf()
        &&& self.spec_labels().len() == self.spec_children().len()
        &&& handle == old.spec_labels().len()
        &&& self.spec_labels() == old.spec_labels().push(label)
        &&& self.spec_children() == old.spec_children().push(kids)
        &&& self.spec_root() == handle
        &&& self.spec_options() == old.spec_options()
        &&& self.spec_targets() == old.spec_targets()
        &&& self.spec_scope_counter() == old.spec_scope_counter()
    }

    /// The number of nodes of the tree.
    pub fn node_count(&self) -> (n: usize)
        requires
            self.wf(),
        ensures
            n == self.spec_labels().len(),
            n == self.spec_children().len(),
    {
        self.labels.len()
    }

    /// The label of node `handle`.
    pub fn label(&self, handle: SharedTree) -> (label: &Label)
        requires
            self.wf(),
            handle < self.spec_labels().len(),
        ensures
            label@ == self.spec_labels()[handle as int],
    {
        &self.labels[handle]
    }

    /// The children of node `handle`.
    pub fn children(&self, handle: SharedTree) -> (children: &Vec<SharedTree>)
        requires
            self.wf(),
            handle < self.spec_children().len(),
        ensures
            children@ == self.spec_children()[handle as int],
    {
        &self.children[handle]
    }

    /// A writer whose tree is a single absent string.
    pub fn new(options: Options, targets: Targets) -> (w: Self)
        ensures
            w.wf(),
            w.spec_labels() == seq![LabelView::String(None)],
            w.spec_children() == seq![Seq::<SharedTree>::empty()],
            w.spec_root() == 0,
            w.spec_options() == options,
            w.spec_targets() == targets,
            w.spec_scope_counter() == 0,
    {
        let mut labels: Vec<Label> = Vec::new();
        labels.push(Label::String(None));
        let mut children: Vec<Vec<SharedTree>> = Vec::new();
        children.push(Vec::new());
        let w = TreeTokenWriter { labels, children, root: 0, options, targets, scope_counter: 0 };
        assert(w.spec_labels() =~= seq![LabelView::String(None)]);
        assert(w.children@[0]@ =~= Seq::<SharedTree>::empty());
        assert(w.spec_children() =~= seq![Seq::<SharedTree>::empty()]);
        w
    }

    /// Adds `tree` to the tree as a new root, and returns its handle.
    pub fn new_tree(&mut self, tree: SubTree) -> (handle: SharedTree)
        requires
            old(self).wf(),
            handles_below(tree.children@, old(self).spec_labels().len()),
        ensures
            final(self).grown(*old(self), tree.label@, tree.children@, handle),
    {
        let ghost old_labels = self.spec_labels();
        let ghost old_kids = self.spec_children();
        let handle = self.labels.len();
        let ghost label = tree.label@;
        let ghost kids = tree.children@;
        self.labels.push(tree.label);
        self.children.push(tree.children);
        self.root = handle;
        assert(self.spec_labels() =~= old_labels.push(label));
        assert(self.spec_children() =~= old_kids.push(kids));
        assert forall|i: int, k: int|
            0 <= i < self.spec_children().len() && 0 <= k < self.spec_children()[i].len() implies #[trigger] self.spec_children()[i][k] < i by {
            if i < old_kids.len() {
                assert(self.spec_children()[i] == old_kids[i]);
            }
        }
        handle
    }

    /// Adds a node tagged `tag` whose children are the trees of `children`
    /// (their field names are not kept).
    pub fn tagged_tuple(&mut self, tag: &str, children: &[(&str, SharedTree)]) -> (handle: SharedTree)
        requires
            old(self).wf(),
            forall|k: int| 0 <= k < children@.len() ==> #[trigger] children@[k].1 < old(self).spec_labels().len(),
        ensures
            final(self).grown(
                *old(self),
                LabelView::Tag(tag.spec_bytes()),
                children@.map_values(|c: (&str, SharedTree)| c.1),
                handle,
            ),
    {
        let mut kids: Vec<SharedTree> = Vec::new();
        let mut k: usize = 0;
        while k < children.len()
            invariant
                k <= children@.len(),
                kids@ == children@.take(k as int).map_values(|c: (&str, SharedTree)| c.1),
            decreases children@.len() - k,
        {
            kids.push(children[k].1);
            assert(kids@ =~= children@.take(k + 1).map_values(|c: (&str, SharedTree)| c.1));
            k = k + 1;
        }
        assert(children@.take(k as int) =~= children@);
        let label = Label::Tag(copy_bytes(tag.as_bytes()));
        self.new_tree(SubTree { label, children: kids })
    }

    /// Adds a node of boolean `value`.
    pub fn bool(&mut self, value: Option<bool>) -> (handle: SharedTree)
        requires
            old(self).wf(),
        ensures
            final(self).grown(*old(self), LabelView::Bool(value), Seq::empty(), handle),
    {
        let tree = SubTree { label: Label::Bool(value), children: Vec::new() };
        self.new_tree(tree)
    }

    /// Adds a node of number `value`, given by the bit pattern of its
    /// double-precision value.
    pub fn float(&mut self, value: Option<u64>) -> (handle: SharedTree)
        requires
            old(self).wf(),
        ensures
            final(self).grown(*old(self), LabelView::Number(value), Seq::empty(), handle),
    {
        let tree = SubTree { label: Label::Number(value), children: Vec::new() };
        self.new_tree(tree)
    }

    /// Adds a node of string `value`; when dictionaries are inline, a zero byte
    /// terminates the string.
    pub fn string(&mut self, value: Option<&str>) -> (handle: SharedTree)
        requires
            old(self).wf(),
        ensures
            final(self).grown(
                *old(self),
                string_label(
                    match value {
                        Some(s) => Some(s.spec_bytes()),
                        None => None,
                    },
                    old(self).spec_options().dictionary_placement,
                ),
                Seq::empty(),
                handle,
            ),
    {
        let label = match value {
            None => Label::String(None),
            Some(s) => {
                let mut bytes = copy_bytes(s.as_bytes());
                if self.options.dictionary_placement == DictionaryPlacement::Inline {
                    bytes.push(0);
                }
                Label::String(Some(bytes))
            },
        };
        let tree = SubTree { label, children: Vec::new() };
        self.new_tree(tree)
    }

    /// Adds a node tagged `value` with no children.
    pub fn string_enum(&mut self, value: &str) -> (handle: SharedTree)
        requires
            old(self).wf(),
        ensures
            final(self).grown(*old(self), LabelView::Tag(value.spec_bytes()), Seq::empty(), handle),
    {
        let none: Vec<(&str, SharedTree)> = Vec::new();
        let handle = self.tagged_tuple(value, none.as_slice());
        assert(none@.map_values(|c: (&str, SharedTree)| c.1) =~= Seq::<SharedTree>::empty());
        handle
    }

    /// Adds a list node whose children are `children`; its label is their number.
    pub fn list(&mut self, children: Vec<SharedTree>) -> (handle: SharedTree)
        requires
            old(self).wf(),
            handles_below(children@, old(self).spec_labels().len()),
        ensures
            final(self).grown(
                *old(self),
                LabelView::List(Some(children@.len() as u32)),
                children@,
                handle,
            ),
    {
        let len = children.len() as u32;
        let tree = SubTree { label: Label::List(Some(len)), children };
        self.new_tree(tree)
    }

    /// The tree that is written: the built tree once its references are
    /// numbered (see `numbered_tree`).
    pub open spec fn finished_tree(&self) -> (Seq<LabelView>, Seq<Seq<SharedTree>>, SharedTree) {
        numbered_tree(self.spec_labels(), self.spec_children(), self.spec_root(), self.spec_scope_counter())
    }

    /// The labels of the finished tree in pre-order.
    pub open spec fn visited_labels(&self) -> Seq<LabelView> {
        let (nl, nk, nr) = self.finished_tree();
        labels_at(nl, preorder(nk, nr as int))
    }

    /// The dictionaries of the labels of the finished tree.
    pub open spec fn dictionaries(&self) -> ContentDictionaries {
        let v = self.visited_labels();
        ContentDictionaries {
            strings: dictionary_of(of_kind(v, Counted::Strings)),
            tags: dictionary_of(of_kind(v, Counted::Tags)),
            declarations: dictionary_of(of_kind(v, Counted::Declarations)),
            references: dictionary_of(of_kind(v, Counted::References)),
        }
    }

    /// Whether `done` can write the tree: dictionaries in a header cannot hold
    /// declarations, whose byte length is not defined.
    pub open spec fn can_finish_spec(&self) -> bool {
        ||| self.spec_options().dictionary_placement == DictionaryPlacement::Inline
        ||| of_kind(self.visited_labels(), Counted::Declarations).len() == 0
    }

    /// Whether the dictionaries go to the header.
    pub open spec fn in_header(&self) -> bool {
        self.spec_options().dictionary_placement == DictionaryPlacement::Header
    }

    /// The labels written to the content streams, in order: the root, then the
    /// nodes below it (see `emitted`).
    pub open spec fn written_labels(&self) -> Seq<LabelView> {
        let (nl, nk, nr) = self.finished_tree();
        labels_at(nl, seq![nr] + emitted(nk, nr as int, self.spec_options().sibling_labels_together))
    }

    /// The final bytes of the header stream of tags.
    pub open spec fn header_tags_bytes(&self) -> Seq<u8> {
        self.spec_targets().header_tags@ + if self.in_header() {
            dictionary_header(ranked_entries(self.dictionaries().tags))
        } else {
            Seq::empty()
        }
    }

    /// The final bytes of the header stream of identifiers.
    pub open spec fn header_identifiers_bytes(&self) -> Seq<u8> {
        self.spec_targets().header_identifiers@ + if self.in_header() {
            spec_varnum(((self.dictionaries().declarations.entries.len() as usize) as u32) as nat)
        } else {
            Seq::empty()
        }
    }

    /// The final bytes of the header stream of strings.
    pub open spec fn header_strings_bytes(&self) -> Seq<u8> {
        self.spec_targets().header_strings@ + if self.in_header() {
            dictionary_header(by_length(ranked_entries(self.dictionaries().strings)))
        } else {
            Seq::empty()
        }
    }

    /// The final bytes of the content streams.
    pub open spec fn contents_bytes(&self) -> PerCategory<Seq<u8>> {
        append_streams(
            streams_view(self.spec_targets().contents),
            self.written_labels(),
            self.dictionaries(),
        )
    }

    /// The data that `done` returns: the three header streams, then the
    /// streams of declarations, references, tags, strings, numbers, booleans
    /// and lists.
    pub open spec fn output(&self) -> Seq<u8> {
        let c = self.contents_bytes();
        self.header_tags_bytes() + self.header_identifiers_bytes() + self.header_strings_bytes()
            + c.declarations + c.idrefs + c.tags + c.strings + c.numbers + c.bools + c.lists
    }

    /// The statistics that `done` returns: the lengths of the streams.
    pub open spec fn output_statistics(&self) -> Statistics {
        let c = self.contents_bytes();
        Statistics {
            header_tags: self.header_tags_bytes().len() as usize,
            header_strings: self.header_strings_bytes().len() as usize,
            contents: PerCategory {
                declarations: c.declarations.len() as usize,
                idrefs: c.idrefs.len() as usize,
                strings: c.strings.len() as usize,
                numbers: c.numbers.len() as usize,
                bools: c.bools.len() as usize,
                lists: c.lists.len() as usize,
                tags: c.tags.len() as usize,
            },
        }
    }

    /// The finished tree has fewer nodes than `usize` can count.
    pub open spec fn finish_fits(&self) -> bool {
        self.spec_children().len() + 2 + walk(
            self.spec_children(),
            self.spec_root() as int,
            WalkState { labels: self.spec_labels(), frames: seq![Seq::empty()] },
        ).frames[0].len() <= usize::MAX
    }

    /// Whether `done` can write the tree (see `can_finish_spec`).
    pub fn can_finish(&self) -> (ok: bool)
        requires
            self.wf(),
        ensures
            ok == self.can_finish_spec(),
    {
        if self.options.dictionary_placement == DictionaryPlacement::Inline {
            return true;
        }
        let mut labels = copy_labels(&self.labels);
        let mut children = copy_children(&self.children);
        let root = number_references(&mut labels, &mut children, self.root, self.scope_counter);
        let mut visits: Vec<SharedTree> = Vec::new();
        collect_preorder(&children, root, &mut visits);
        let ghost nk = kid_views(children@);
        proof {
            assert(nk.len() == children.len());
            lemma_preorder_in_range(nk, root as int);
            assert forall|i: int| 0 <= i < visits@.len() implies #[trigger] visits@[i] < labels@.len() by {
                assert(preorder(nk, root as int).contains(visits@[i]));
            }
        }
        let tallies = count_labels(&labels, &visits);
        proof {
            let v = labels_at(label_views(labels@), visits@);
            assert(v == self.visited_labels());
            lemma_distinct_empty(of_kind(v, Counted::Declarations));
        }
        tallies.declarations.labels.len() == 0
    }

    /// Numbers the references, counts the labels, writes the dictionaries and
    /// the contents, and returns all the streams one after the other with
    /// their lengths.
    pub fn done(self) -> (result: (Vec<u8>, Statistics))
        requires
            self.wf(),
            self.can_finish_spec(),
        ensures
            result.0@ == self.output(),
            result.1 == self.output_statistics(),
    {
        let ghost this = self;
        let TreeTokenWriter { labels, children, root, options, targets, scope_counter } = self;
        let mut labels = labels;
        let mut children = children;
        let ghost lv0 = label_views(labels@);
        let ghost kv0 = kid_views(children@);
        let root = number_references(&mut labels, &mut children, root, scope_counter);
        let ghost nl = label_views(labels@);
        let ghost nk = kid_views(children@);
        assert((nl, nk, root) == this.finished_tree());
        let mut visits: Vec<SharedTree> = Vec::new();
        collect_preorder(&children, root, &mut visits);
        assert(visits@ =~= preorder(nk, root as int));
        proof {
            lemma_preorder_in_range(nk, root as int);
            assert forall|i: int| 0 <= i < visits@.len() implies #[trigger] visits@[i] < labels@.len() by {
                assert(preorder(nk, root as int).contains(visits@[i]));
            }
        }
        let tallies = count_labels(&labels, &visits);
        let ghost v = labels_at(nl, visits@);
        assert(v == this.visited_labels());
        let Tallies { strings, tags, declarations, references } = tallies;
        let strings = Dictionary::from_tally(strings, Ghost(of_kind(v, Counted::Strings)));
        let tags = Dictionary::from_tally(tags, Ghost(of_kind(v, Counted::Tags)));
        let declarations = Dictionary::from_tally(declarations, Ghost(of_kind(v, Counted::Declarations)));
        let references = Dictionary::from_tally(references, Ghost(of_kind(v, Counted::References)));
        let dicts = Dictionaries { strings, tags, declarations, references };
        let ghost dv = dicts.view_dictionaries();
        assert(dv == this.dictionaries());
        proof {
            lemma_of_kind_members(v, Counted::Strings);
            lemma_of_kind_members(v, Counted::Tags);
            lemma_of_kind_members(v, Counted::Declarations);
            lemma_of_kind_members(v, Counted::References);
            lemma_distinct_facts(of_kind(v, Counted::Strings));
            lemma_distinct_facts(of_kind(v, Counted::Tags));
            lemma_distinct_facts(of_kind(v, Counted::Declarations));
            lemma_distinct_facts(of_kind(v, Counted::References));
        }
        let Targets { contents, header_identifiers, header_strings, header_tags } = targets;
        let mut header_identifiers = header_identifiers;
        let mut header_strings = header_strings;
        let mut header_tags = header_tags;
        if options.dictionary_placement == DictionaryPlacement::Header {
            proof {
                assert forall|i: int| 0 <= i < dicts.tags.entries@.len() implies (#[trigger] dicts.tags.entries@[i]@ is String
                    || dicts.tags.entries@[i]@ is Tag) by {
                    assert(dv.tags.entries[i] == dicts.tags.entries@[i]@);
                    assert(dv.tags.entries.contains(dv.tags.entries[i]));
                    assert(distinct(of_kind(v, Counted::Tags)).contains(dv.tags.entries[i]));
                    assert(of_kind(v, Counted::Tags).contains(dv.tags.entries[i]));
                    assert(counted_as(dv.tags.entries[i]) == Some(Counted::Tags));
                }
                assert forall|i: int| 0 <= i < dicts.strings.entries@.len() implies (#[trigger] dicts.strings.entries@[i]@ is String
                    || dicts.strings.entries@[i]@ is Tag) by {
                    assert(dv.strings.entries[i] == dicts.strings.entries@[i]@);
                    assert(dv.strings.entries.contains(dv.strings.entries[i]));
                    assert(distinct(of_kind(v, Counted::Strings)).contains(dv.strings.entries[i]));
                    assert(of_kind(v, Counted::Strings).contains(dv.strings.entries[i]));
                    assert(counted_as(dv.strings.entries[i]) == Some(Counted::Strings));
                }
            }
            write_ranked_dictionary(&dicts.tags, &mut header_tags);
            // No declaration is met (see `can_finish_spec`), so the dictionary
            // of identifiers holds no entry to write after its size.
            header_identifiers.write_varnum(dicts.declarations.entries.len() as u32);
            write_dictionary_by_length(&dicts.strings, &mut header_strings);
        }
        let mut contents = contents;
        let ghost c0 = streams_view(contents);
        proof {
            lemma_numbering_resolves_references(lv0, kv0, this.spec_root(), scope_counter);
            assert forall|x: SharedTree| preorder(nk, root as int).contains(x) implies writable(
                #[trigger] nl[x as int],
                dv,
            ) by {
                let i = choose|i: int| 0 <= i < visits@.len() && visits@[i] == x;
                assert(v[i] == nl[x as int]);
                assert(v.contains(nl[x as int]));
                let l = nl[x as int];
                match l {
                    LabelView::String(_) => {
                        assert(of_kind(v, Counted::Strings).contains(l));
                    },
                    LabelView::Tag(_) => {
                        assert(of_kind(v, Counted::Tags).contains(l));
                    },
                    LabelView::Declare(_) => {
                        assert(of_kind(v, Counted::Declarations).contains(l));
                    },
                    LabelView::NumberedReference(_) => {
                        assert(of_kind(v, Counted::References).contains(l));
                    },
                    _ => {},
                }
            }
            lemma_preorder_in_range(nk, root as int);
            assert(preorder(nk, root as int)[0] == root);
            assert(preorder(nk, root as int).contains(root));
            assert(labels@[root as int]@ == nl[root as int]);
        }
        let _ = write_label(&labels[root], None, &dicts, &mut contents);
        let _ = serialize_children(
            &labels,
            &children,
            root,
            options.sibling_labels_together,
            None,
            &dicts,
            &mut contents,
        );
        proof {
            crate::serialize::lemma_append_streams_concat(
                c0,
                seq![nl[root as int]],
                labels_at(nl, emitted(nk, root as int, options.sibling_labels_together)),
                dv,
            );
            assert(labels_at(nl, seq![root] + emitted(nk, root as int, options.sibling_labels_together))
                =~= seq![nl[root as int]] + labels_at(nl, emitted(nk, root as int, options.sibling_labels_together)));
        }
        assert(streams_view(contents) == this.contents_bytes());
        let stats = Statistics {
            header_tags: header_tags.len(),
            header_strings: header_strings.len(),
            contents: PerCategory {
                declarations: contents.declarations.len(),
                idrefs: contents.idrefs.len(),
                strings: contents.strings.len(),
                numbers: contents.numbers.len(),
                bools: contents.bools.len(),
                lists: contents.lists.len(),
                tags: contents.tags.len(),
            },
        };
        let PerCategory { declarations, idrefs, strings, numbers, bools, lists, tags } = contents;
        let mut result: Vec<u8> = Vec::new();
        let mut part = header_tags.done();
        result.append(&mut part);
        let mut part = header_identifiers.done();
        result.append(&mut part);
        let mut part = header_strings.done();
        result.append(&mut part);
        let mut part = declarations.done();
        result.append(&mut part);
        let mut part = idrefs.done();
        result.append(&mut part);
        let mut part = tags.done();
        result.append(&mut part);
        let mut part = strings.done();
        result.append(&mut part);
        let mut part = numbers.done();
        result.append(&mut part);
        let mut part = bools.done();
        result.append(&mut part);
        let mut part = lists.done();
        result.append(&mut part);
        assert(result@ =~= this.output());
        (result, stats)
    }
}

/// The data that `done` returns holds the ten streams one after the other, in
/// this order: header tags, header identifiers, header strings, declarations,
/// references, tags, strings, numbers, booleans, lists; each stream starts
/// where the streams before it end, and nothing else is in the data.
pub proof fn lemma_output_layout(w: TreeTokenWriter)
    ensures
        ({
            let c = w.contents_bytes();
            let out = w.output();
            let o1 = w.header_tags_bytes().len() as int;
            let o2 = o1 + w.header_identifiers_bytes().len();
            let o3 = o2 + w.header_strings_bytes().len();
            let o4 = o3 + c.declarations.len();
            let o5 = o4 + c.idrefs.len();
            let o6 = o5 + c.tags.len();
            let o7 = o6 + c.strings.len();
            let o8 = o7 + c.numbers.len();
            let o9 = o8 + c.bools.len();
            let o10 = o9 + c.lists.len();
            &&& out.len() == o10
            &&& out.subrange(0, o1) == w.header_tags_bytes()
            &&& out.subrange(o1, o2) == w.header_identifiers_bytes()
            &&& out.subrange(o2, o3) == w.header_strings_bytes()
            &&& out.subrange(o3, o4) == c.declarations
            &&& out.subrange(o4, o5) == c.idrefs
            &&& out.subrange(o5, o6) == c.tags
            &&& out.subrange(o6, o7) == c.strings
            &&& out.subrange(o7, o8) == c.numbers
            &&& out.subrange(o8, o9) == c.bools
            &&& out.subrange(o9, o10) == c.lists
        }),
{
    let c = w.contents_bytes();
    let out = w.output();
    let o1 = w.header_tags_bytes().len() as int;
    let o2 = o1 + w.header_identifiers_bytes().len();
    let o3 = o2 + w.header_strings_bytes().len();
    let o4 = o3 + c.declarations.len();
    let o5 = o4 + c.idrefs.len();
    let o6 = o5 + c.tags.len();
    let o7 = o6 + c.strings.len();
    let o8 = o7 + c.numbers.len();
    let o9 = o8 + c.bools.len();
    let o10 = o9 + c.lists.len();
    assert(out.subrange(0, o1) =~= w.header_tags_bytes());
    assert(out.subrange(o1, o2) =~= w.header_identifiers_bytes());
    assert(out.subrange(o2, o3) =~= w.header_strings_bytes());
    assert(out.subrange(o3, o4) =~= c.declarations);
    assert(out.subrange(o4, o5) =~= c.idrefs);
    assert(out.subrange(o5, o6) =~= c.tags);
    assert(out.subrange(o6, o7) =~= c.strings);
    assert(out.subrange(o7, o8) =~= c.numbers);
    assert(out.subrange(o8, o9) =~= c.bools);
    assert(out.subrange(o9, o10) =~= c.lists);
}

/// A well-formed writer has one label and one list of children per node, the
/// children of each node precede it, and the root is a node.
pub proof fn lemma_wf_shape(w: TreeTokenWriter)
    requires
        w.wf(),
    ensures
        w.spec_labels().len() == w.spec_children().len(),
        w.spec_root() < w.spec_children().len(),
        children_precede(w.spec_children()),
{
}

/// Grouping the labels of siblings changes only the order in which `done`
/// writes the labels: without it, the labels of the finished tree are written
/// in pre-order; with it, the same labels are written as many times.
pub proof fn lemma_grouping_only_reorders(w: TreeTokenWriter)
    requires
        w.wf(),
        w.finish_fits(),
    ensures
        w.written_labels().to_multiset() == w.visited_labels().to_multiset(),
        !w.spec_options().sibling_labels_together ==> w.written_labels() == w.visited_labels(),
{
    broadcast use vstd::seq_lib::lemma_multiset_commutative;

    lemma_numbered_tree_shape(w.spec_labels(), w.spec_children(), w.spec_root(), w.spec_scope_counter());
    let (nl, nk, nr) = w.finished_tree();
    let r = nr as int;
    lemma_ungrouped_is_preorder(nk, r);
    let head = labels_at(nl, seq![nr]);
    let grouped = emitted(nk, r, true);
    let ungrouped = emitted(nk, r, false);
    assert(labels_at(nl, seq![nr] + ungrouped) =~= head + labels_at(nl, ungrouped));
    assert(labels_at(nl, seq![nr] + grouped) =~= head + labels_at(nl, grouped));
    assert(w.visited_labels() == labels_at(nl, seq![nr] + ungrouped));
    if w.spec_options().sibling_labels_together {
        lemma_grouping_keeps_labels(nl, nk, r);
        assert(w.written_labels() == head + labels_at(nl, grouped));
    }
}

} // verus!
