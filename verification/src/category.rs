//! Values kept once per category of content.

use vstd::prelude::*;
use crate::target::CompressionTarget;
use crate::text::{decimal_text, spec_contents_text};

verus! {

/// One value for each category of content that the writer separates.
#[derive(Clone, Copy, Debug)]
pub struct PerCategory<T> {
    pub declarations: T,
    pub idrefs: T,
    pub strings: T,
    pub numbers: T,
    pub bools: T,
    pub lists: T,
    pub tags: T,
}

impl PerCategory<CompressionTarget> {
    /// Empties the seven streams.
    pub fn reset(&mut self)
        ensures
            final(self).declarations@ == Seq::<u8>::empty(),
            final(self).idrefs@ == Seq::<u8>::empty(),
            final(self).strings@ == Seq::<u8>::empty(),
            final(self).numbers@ == Seq::<u8>::empty(),
            final(self).bools@ == Seq::<u8>::empty(),
            final(self).lists@ == Seq::<u8>::empty(),
            final(self).tags@ == Seq::<u8>::empty(),
    {
        self.declarations.reset();
        self.idrefs.reset();
        self.strings.reset();
        self.numbers.reset();
        self.bools.reset();
        self.lists.reset();
        self.tags.reset();
    }
}

impl PerCategory<usize> {
    /// Whether adding `other` to `self` category by category stays within `usize`.
    pub open spec fn can_add(self, other: Self) -> bool {
        &&& self.declarations + other.declarations <= usize::MAX
        &&& self.idrefs + other.idrefs <= usize::MAX
        &&& self.strings + other.strings <= usize::MAX
        &&& self.numbers + other.numbers <= usize::MAX
        &&& self.bools + other.bools <= usize::MAX
        &&& self.lists + other.lists <= usize::MAX
        &&& self.tags + other.tags <= usize::MAX
    }

    /// The category-by-category sum of `self` and `other`.
    pub open spec fn spec_add(self, other: Self) -> Self {
        PerCategory {
            declarations: (self.declarations + other.declarations) as usize,
            idrefs: (self.idrefs + other.idrefs) as usize,
            strings: (self.strings + other.strings) as usize,
            numbers: (self.numbers + other.numbers) as usize,
            bools: (self.bools + other.bools) as usize,
            lists: (self.lists + other.lists) as usize,
            tags: (self.tags + other.tags) as usize,
        }
    }

    /// Adds the counts category by category.
    pub fn add(self, other: Self) -> (sum: Self)
        requires
            self.can_add(other),
        ensures
            sum == self.spec_add(other),
    {
        PerCategory {
            strings: self.strings + other.strings,
            numbers: self.numbers + other.numbers,
            bools: self.bools + other.bools,
            lists: self.lists + other.lists,
            tags: self.tags + other.tags,
            declarations: self.declarations + other.declarations,
            idrefs: self.idrefs + other.idrefs,
        }
    }

    /// The text of the counts of strings, tags, numbers, booleans and lists.
    pub open spec fn spec_text(self) -> Seq<char> {
        spec_contents_text(
            self.strings as nat,
            self.tags as nat,
            self.numbers as nat,
            self.bools as nat,
            self.lists as nat,
        )
    }

    /// Describes the counts of strings, tags, numbers, booleans and lists.
    pub fn to_string(&self) -> (text: String)
        ensures
            text@ == self.spec_text(),
    {
        let mut text = String::from_str("strings (b): ");
        text.append(decimal_text(self.strings).as_str());
        text.append(", tags (b): ");
        text.append(decimal_text(self.tags).as_str());
        text.append(", numbers (b): ");
        text.append(decimal_text(self.numbers).as_str());
        text.append(", bools (b): ");
        text.append(decimal_text(self.bools).as_str());
        text.append(", lists (b): ");
        text.append(decimal_text(self.lists).as_str());
        text
    }
}

/// No counts at all.
pub open spec fn no_counts() -> PerCategory<usize> {
    PerCategory { declarations: 0, idrefs: 0, strings: 0, numbers: 0, bools: 0, lists: 0, tags: 0 }
}

/// The sum of counts does not depend on the order of the operands.
pub proof fn lemma_counts_add_commutative(a: PerCategory<usize>, b: PerCategory<usize>)
    requires
        a.can_add(b),
    ensures
        b.can_add(a),
        a.spec_add(b) == b.spec_add(a),
{
}

/// The sum of counts does not depend on how the operands are grouped.
pub proof fn lemma_counts_add_associative(
    a: PerCategory<usize>,
    b: PerCategory<usize>,
    c: PerCategory<usize>,
)
    requires
        a.can_add(b),
        a.spec_add(b).can_add(c),
    ensures
        b.can_add(c),
        a.can_add(b.spec_add(c)),
        a.spec_add(b).spec_add(c) == a.spec_add(b.spec_add(c)),
{
}

/// Adding no counts changes nothing.
pub proof fn lemma_counts_add_none(a: PerCategory<usize>)
    ensures
        a.can_add(no_counts()),
        a.spec_add(no_counts()) == a,
{
}

impl Default for PerCategory<usize> {
    fn default() -> (zero: Self)
        ensures
            zero == no_counts(),
    {
        PerCategory {
            declarations: 0,
            idrefs: 0,
            strings: 0,
            numbers: 0,
            bools: 0,
            lists: 0,
            tags: 0,
        }
    }
}

/// The streams that a `TreeTokenWriter` writes: one per category of content,
/// and three for the dictionaries that precede them.
#[derive(Clone, Debug)]
pub struct Targets {
    pub contents: PerCategory<CompressionTarget>,
    pub header_identifiers: CompressionTarget,
    pub header_strings: CompressionTarget,
    pub header_tags: CompressionTarget,
}

impl Targets {
    /// Ten empty streams.
    pub fn new() -> (t: Self)
        ensures
            t.all_empty(),
    {
        Targets {
            contents: PerCategory {
                declarations: CompressionTarget::new(),
                idrefs: CompressionTarget::new(),
                strings: CompressionTarget::new(),
                numbers: CompressionTarget::new(),
                bools: CompressionTarget::new(),
                lists: CompressionTarget::new(),
                tags: CompressionTarget::new(),
            },
            header_identifiers: CompressionTarget::new(),
            header_strings: CompressionTarget::new(),
            header_tags: CompressionTarget::new(),
        }
    }

    /// Whether all ten streams are empty.
    pub open spec fn all_empty(&self) -> bool {
        &&& self.contents.declarations@ == Seq::<u8>::empty()
        &&& self.contents.idrefs@ == Seq::<u8>::empty()
        &&& self.contents.strings@ == Seq::<u8>::empty()
        &&& self.contents.numbers@ == Seq::<u8>::empty()
        &&& self.contents.bools@ == Seq::<u8>::empty()
        &&& self.contents.lists@ == Seq::<u8>::empty()
        &&& self.contents.tags@ == Seq::<u8>::empty()
        &&& self.header_identifiers@ == Seq::<u8>::empty()
        &&& self.header_strings@ == Seq::<u8>::empty()
        &&& self.header_tags@ == Seq::<u8>::empty()
    }

    /// Empties all ten streams.
    pub fn reset(&mut self)
        ensures
            final(self).all_empty(),
    {
        self.contents.reset();
        self.header_identifiers.reset();
        self.header_strings.reset();
        self.header_tags.reset();
    }
}

} // verus!
