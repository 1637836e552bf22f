//! The labels carried by the nodes of a tree, and how each is written.

use vstd::prelude::*;
use crate::encoding::{
    spec_varnum, spec_maybe_varnum, spec_bool_bytes, spec_number_bytes, bool_bytes, number_bytes,
    spec_le_bytes, byte_power, lemma_le_bytes_injective, lemma_varnum_injective,
};
use crate::target::CompressionTarget;

verus! {

/// The index of a scope, handed out by a counter.
#[derive(Clone, Copy, Debug, PartialEq, Eq, Structural, Hash, PartialOrd, Ord)]
pub struct ScopeIndex(pub usize);

impl ScopeIndex {
    /// The scope index of number `value`.
    pub fn internal_make(value: usize) -> (index: Self)
        ensures
            index.0 == value,
    {
        ScopeIndex(value)
    }
}

/// The mathematical value of a `Label`: strings are taken as their bytes.
pub enum LabelView {
    String(Option<Seq<u8>>),
    Number(Option<u64>),
    Bool(Option<bool>),
    List(Option<u32>),
    Tag(Seq<u8>),
    Scope(usize),
    Declare(Option<Seq<u8>>),
    LiteralReference(Option<Seq<u8>>),
    NumberedReference(Option<u32>),
}

/// The label of a node. Strings are held as their UTF-8 bytes, and a number as
/// the bit pattern of its double-precision value.
#[derive(Clone, Debug, PartialEq, Eq, Hash, PartialOrd, Ord)]
pub enum Label {
    String(Option<Vec<u8>>),
    Number(Option<u64>),
    Bool(Option<bool>),
    List(Option<u32>),
    Tag(Vec<u8>),
    /// Scope. Any `Declare` within the `Scope` stays in the `Scope`.
    Scope(ScopeIndex),
    /// Declare a variable throughout the current `Scope`.
    Declare(Option<Vec<u8>>),
    /// Reference a variable throughout the current `Scope`.
    ///
    /// Initially entered as `LiteralReference`, then processed to a `NumberedReference`.
    LiteralReference(Option<Vec<u8>>),
    NumberedReference(Option<u32>),
}

/// The view of optional bytes.
pub open spec fn opt_bytes(b: Option<Vec<u8>>) -> Option<Seq<u8>> {
    match b {
        Some(v) => Some(v@),
        None => None,
    }
}

impl View for Label {
    type V = LabelView;

    open spec fn view(&self) -> LabelView {
        match self {
            Label::String(s) => LabelView::String(opt_bytes(*s)),
            Label::Number(n) => LabelView::Number(*n),
            Label::Bool(b) => LabelView::Bool(*b),
            Label::List(l) => LabelView::List(*l),
            Label::Tag(s) => LabelView::Tag(s@),
            Label::Scope(i) => LabelView::Scope(i.0),
            Label::Declare(s) => LabelView::Declare(opt_bytes(*s)),
            Label::LiteralReference(s) => LabelView::LiteralReference(opt_bytes(*s)),
            Label::NumberedReference(r) => LabelView::NumberedReference(*r),
        }
    }
}

/// The bytes that define `label`, preceded by the varnum of `index` if there is one.
pub open spec fn spec_definition(label: LabelView, index: Option<usize>) -> Seq<u8> {
    let prefix = match index {
        Some(i) => spec_varnum((i as u32) as nat),
        None => Seq::empty(),
    };
    prefix + match label {
        LabelView::String(Some(s)) => s,
        LabelView::Declare(Some(s)) => s,
        LabelView::String(None) => seq![255u8, 0u8],
        LabelView::Declare(None) => seq![255u8, 0u8],
        LabelView::NumberedReference(None) => seq![255u8, 0u8],
        LabelView::Number(n) => spec_number_bytes(n),
        LabelView::Bool(b) => spec_bool_bytes(b),
        LabelView::List(l) => spec_maybe_varnum(l),
        LabelView::Tag(s) => s,
        LabelView::Scope(_) => Seq::empty(),
        LabelView::LiteralReference(_) => Seq::empty(),
        LabelView::NumberedReference(Some(r)) => spec_maybe_varnum(Some(r)),
    }
}

/// Labels written in full keep their value: two different booleans, two
/// different numbers or two different list lengths are written as different
/// bytes, whatever index comes before them; a boolean takes a single byte.
pub proof fn lemma_full_definitions_distinct(a: LabelView, b: LabelView, index: Option<usize>)
    requires
        a != b,
        (a is Bool && b is Bool) || (a is Number && b is Number) || (a is List && b is List),
    ensures
        spec_definition(a, index) != spec_definition(b, index),
        a is Bool ==> spec_definition(a, None).len() == 1,
{
    let prefix = match index {
        Some(i) => spec_varnum((i as u32) as nat),
        None => Seq::<u8>::empty(),
    };
    let da = spec_definition(a, None);
    let db = spec_definition(b, None);
    assert(spec_definition(a, index) == prefix + da);
    assert(spec_definition(b, index) == prefix + db);
    match (a, b) {
        (LabelView::Bool(x), LabelView::Bool(y)) => {
            assert(da[0] != db[0]);
        },
        (LabelView::Number(x), LabelView::Number(y)) => {
            match (x, y) {
                (Some(u), Some(v)) => {
                    assert(byte_power(8) == 0x1_0000_0000_0000_0000) by {
                        reveal_with_fuel(byte_power, 9);
                    }
                    lemma_le_bytes_injective(u as nat, v as nat, 8);
                    assert(da.drop_first() =~= spec_le_bytes(u as nat, 8));
                    assert(db.drop_first() =~= spec_le_bytes(v as nat, 8));
                },
                _ => {
                    assert(da[0] != db[0]);
                },
            }
        },
        (LabelView::List(x), LabelView::List(y)) => {
            let vx: nat = match x {
                Some(v) => (v + 1) as nat,
                None => 0,
            };
            let vy: nat = match y {
                Some(v) => (v + 1) as nat,
                None => 0,
            };
            assert(da =~= spec_varnum(vx));
            assert(db =~= spec_varnum(vy));
            lemma_varnum_injective(vx, vy);
        },
        _ => {},
    }
    if prefix + da == prefix + db {
        assert((prefix + da).subrange(prefix.len() as int, (prefix + da).len() as int) =~= da);
        assert((prefix + db).subrange(prefix.len() as int, (prefix + db).len() as int) =~= db);
    }
}

/// The byte length of a string or tag label; an absent string counts two bytes.
pub open spec fn spec_string_byte_len(label: LabelView) -> nat {
    match label {
        LabelView::String(None) => 2,
        LabelView::String(Some(s)) => s.len(),
        LabelView::Tag(s) => s.len(),
        _ => 0,
    }
}

/// A copy of `bytes`.
pub fn copy_bytes(bytes: &[u8]) -> (copy: Vec<u8>)
    ensures
        copy@ == bytes@,
{
    let mut copy: Vec<u8> = Vec::new();
    let mut i: usize = 0;
    while i < bytes.len()
        invariant
            i <= bytes@.len(),
            copy@ == bytes@.subrange(0, i as int),
        decreases bytes@.len() - i,
    {
        copy.push(bytes[i]);
        assert(bytes@.subrange(0, i + 1) =~= bytes@.subrange(0, i as int).push(bytes@[i as int]));
        i = i + 1;
    }
    assert(bytes@.subrange(0, i as int) =~= bytes@);
    copy
}

/// Whether two byte sequences are equal.
pub fn bytes_eq(a: &[u8], b: &[u8]) -> (eq: bool)
    ensures
        eq == (a@ == b@),
{
    if a.len() != b.len() {
        return false;
    }
    let mut i: usize = 0;
    while i < a.len()
        invariant
            a@.len() == b@.len(),
            i <= a@.len(),
            forall|j: int| 0 <= j < i ==> a@[j] == b@[j],
        decreases a@.len() - i,
    {
        if a[i] != b[i] {
            return false;
        }
        i = i + 1;
    }
    assert(a@ =~= b@);
    true
}

fn copy_opt_bytes(b: &Option<Vec<u8>>) -> (copy: Option<Vec<u8>>)
    ensures
        opt_bytes(copy) == opt_bytes(*b),
{
    match b {
        Some(v) => Some(copy_bytes(v.as_slice())),
        None => None,
    }
}

fn opt_bytes_eq(a: &Option<Vec<u8>>, b: &Option<Vec<u8>>) -> (eq: bool)
    ensures
        eq == (opt_bytes(*a) == opt_bytes(*b)),
{
    match (a, b) {
        (Some(x), Some(y)) => bytes_eq(x.as_slice(), y.as_slice()),
        (None, None) => true,
        _ => false,
    }
}

impl Label {
    /// A copy of this label.
    pub fn copy(&self) -> (copy: Label)
        ensures
            copy@ == self@,
    {
        match self {
            Label::String(s) => Label::String(copy_opt_bytes(s)),
            Label::Number(n) => Label::Number(*n),
            Label::Bool(b) => Label::Bool(*b),
            Label::List(l) => Label::List(*l),
            Label::Tag(s) => Label::Tag(copy_bytes(s.as_slice())),
            Label::Scope(i) => Label::Scope(*i),
            Label::Declare(s) => Label::Declare(copy_opt_bytes(s)),
            Label::LiteralReference(s) => Label::LiteralReference(copy_opt_bytes(s)),
            Label::NumberedReference(r) => Label::NumberedReference(*r),
        }
    }

    /// Whether two labels are equal.
    pub fn equals(&self, other: &Label) -> (eq: bool)
        ensures
            eq == (self@ == other@),
    {
        match (self, other) {
            (Label::String(a), Label::String(b)) => opt_bytes_eq(a, b),
            (Label::Number(a), Label::Number(b)) => *a == *b,
            (Label::Bool(a), Label::Bool(b)) => *a == *b,
            (Label::List(a), Label::List(b)) => *a == *b,
            (Label::Tag(a), Label::Tag(b)) => bytes_eq(a.as_slice(), b.as_slice()),
            (Label::Scope(a), Label::Scope(b)) => a.0 == b.0,
            (Label::Declare(a), Label::Declare(b)) => opt_bytes_eq(a, b),
            (Label::LiteralReference(a), Label::LiteralReference(b)) => opt_bytes_eq(a, b),
            (Label::NumberedReference(a), Label::NumberedReference(b)) => *a == *b,
            _ => false,
        }
    }

    /// The byte length of a string or tag label; an absent string counts two bytes.
    pub fn string_byte_len(&self) -> (len: usize)
        requires
            self@ is String || self@ is Tag,
        ensures
            len == spec_string_byte_len(self@),
    {
        match self {
            Label::String(None) => 2,
            Label::String(Some(s)) => s.len(),
            Label::Tag(s) => s.len(),
            _ => 0,
        }
    }

    /// Writes the definition of this label to `out`, preceded by the varnum of
    /// `index` if there is one. The parent of the label (the nearest enclosing
    /// tag and the index of the label's node among its siblings) is handed
    /// along by dictionaries; the definition does not depend on it.
    pub fn write_definition(
        &self,
        index: Option<usize>,
        _parent: Option<(&Label, usize)>,
        out: &mut CompressionTarget,
    )
        requires
            !(self@ is LiteralReference),
        ensures
            final(out)@ == old(out)@ + spec_definition(self@, index),
    {
        let ghost start = out@;
        if let Some(index) = index {
            out.write_varnum(index as u32);
        }
        let ghost after_prefix = out@;
        match self {
            Label::String(Some(s)) | Label::Declare(Some(s)) => {
                out.write_all(s.as_slice());
            },
            Label::String(None) | Label::Declare(None) | Label::NumberedReference(None) => {
                let mut marker: Vec<u8> = Vec::new();
                marker.push(255);
                marker.push(0);
                assert(marker@ =~= seq![255u8, 0u8]);
                out.write_all(marker.as_slice());
            },
            Label::Number(bits) => {
                let bytes = number_bytes(*bits);
                out.write_all(bytes.as_slice());
            },
            Label::Bool(b) => {
                let bytes = bool_bytes(*b);
                out.write_all(bytes.as_slice());
            },
            Label::List(len) => {
                out.write_maybe_varnum(*len);
            },
            Label::Tag(s) => {
                out.write_all(s.as_slice());
            },
            Label::Scope(_) => {},
            Label::LiteralReference(_) => {},
            Label::NumberedReference(Some(r)) => {
                out.write_maybe_varnum(Some(*r));
            },
        }
        assert(out@ =~= start + spec_definition(self@, index));
    }
}

} // verus!
