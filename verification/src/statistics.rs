//! Byte counts of the streams that a writer produced.

use vstd::prelude::*;
use crate::category::{PerCategory, no_counts, lemma_counts_add_commutative, lemma_counts_add_associative, lemma_counts_add_none};
use crate::text::{decimal_text, spec_statistics_text};

verus! {

/// The number of bytes written to the header dictionaries and to each
/// category of content.
#[derive(Clone, Copy, Debug)]
pub struct Statistics {
    pub header_strings: usize,
    pub header_tags: usize,
    pub contents: PerCategory<usize>,
}

impl Statistics {
    /// Whether adding `other` to `self` field by field stays within `usize`.
    pub open spec fn can_add(self, other: Self) -> bool {
        &&& self.header_strings + other.header_strings <= usize::MAX
        &&& self.header_tags + other.header_tags <= usize::MAX
        &&& self.contents.can_add(other.contents)
    }

    /// The field-by-field sum of `self` and `other`.
    pub open spec fn spec_add(self, other: Self) -> Self {
        Statistics {
            header_strings: (self.header_strings + other.header_strings) as usize,
            header_tags: (self.header_tags + other.header_tags) as usize,
            contents: self.contents.spec_add(other.contents),
        }
    }

    /// Adds the counts field by field.
    pub fn add(self, other: Self) -> (sum: Self)
        requires
            self.can_add(other),
        ensures
            sum == self.spec_add(other),
    {
        Statistics {
            header_strings: self.header_strings + other.header_strings,
            header_tags: self.header_tags + other.header_tags,
            contents: self.contents.add(other.contents),
        }
    }

    /// The text of the header counts followed by that of the contents.
    pub open spec fn spec_text(self) -> Seq<char> {
        spec_statistics_text(
            self.header_strings as nat,
            self.header_tags as nat,
            self.contents.spec_text(),
        )
    }

    /// Describes the header counts followed by the counts of the contents.
    pub fn to_string(&self) -> (text: String)
        ensures
            text@ == self.spec_text(),
    {
        let mut text = String::from_str("Header strings (b): ");
        text.append(decimal_text(self.header_strings).as_str());
        text.append(", header tags (b): ");
        text.append(decimal_text(self.header_tags).as_str());
        text.append(", ");
        text.append(self.contents.to_string().as_str());
        text
    }
}

/// Statistics of no bytes at all.
pub open spec fn no_statistics() -> Statistics {
    Statistics { header_strings: 0, header_tags: 0, contents: no_counts() }
}

/// The sum of statistics does not depend on the order of the operands.
pub proof fn lemma_statistics_add_commutative(a: Statistics, b: Statistics)
    requires
        a.can_add(b),
    ensures
        b.can_add(a),
        a.spec_add(b) == b.spec_add(a),
{
    lemma_counts_add_commutative(a.contents, b.contents);
}

/// The sum of statistics does not depend on how the operands are grouped.
pub proof fn lemma_statistics_add_associative(a: Statistics, b: Statistics, c: Statistics)
    requires
        a.can_add(b),
        a.spec_add(b).can_add(c),
    ensures
        b.can_add(c),
        a.can_add(b.spec_add(c)),
        a.spec_add(b).spec_add(c) == a.spec_add(b.spec_add(c)),
{
    lemma_counts_add_associative(a.contents, b.contents, c.contents);
}

/// Adding the statistics of nothing changes nothing.
pub proof fn lemma_statistics_add_none(a: Statistics)
    ensures
        a.can_add(no_statistics()),
        a.spec_add(no_statistics()) == a,
{
    lemma_counts_add_none(a.contents);
}

impl Default for Statistics {
    fn default() -> (zero: Self)
        ensures
            zero == no_statistics(),
    {
        Statistics { header_strings: 0, header_tags: 0, contents: PerCategory::<usize>::default() }
    }
}

} // verus!
