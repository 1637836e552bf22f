//! A byte stream that receives one category of content.

use vstd::prelude::*;
use crate::encoding::{
    spec_varnum, spec_maybe_varnum, varnum_bytes, maybe_varnum_bytes,
};

verus! {

/// A stream of bytes to which one category of content is written, and whose
/// bytes are handed out when the writer is done.
#[derive(Clone, Debug)]
pub struct CompressionTarget {
    data: Vec<u8>,
}

impl View for CompressionTarget {
    type V = Seq<u8>;

    open spec fn view(&self) -> Seq<u8> {
        self.spec_data()
    }
}

impl CompressionTarget {
    /// The bytes written so far.
    pub closed spec fn spec_data(&self) -> Seq<u8> {
        self.data@
    }

    /// An empty stream.
    pub fn new() -> (t: Self)
        ensures
            t@ == Seq::<u8>::empty(),
    {
        CompressionTarget { data: Vec::new() }
    }

    /// Forgets everything written so far.
    pub fn reset(&mut self)
        ensures
            final(self)@ == Seq::<u8>::empty(),
    {
        self.data.clear();
    }

    /// The number of bytes written so far.
    pub fn len(&self) -> (n: usize)
        ensures
            n == self@.len(),
    {
        self.data.len()
    }

    /// Appends `bytes` to the stream.
    pub fn write_all(&mut self, bytes: &[u8])
        ensures
            final(self)@ == old(self)@ + bytes@,
    {
        let mut i: usize = 0;
        while i < bytes.len()
            invariant
                i <= bytes@.len(),
                self@ == old(self)@ + bytes@.subrange(0, i as int),
            decreases bytes@.len() - i,
        {
            self.data.push(bytes[i]);
            assert(bytes@.subrange(0, i + 1) =~= bytes@.subrange(0, i as int).push(bytes@[i as int]));
            i = i + 1;
        }
        assert(bytes@.subrange(0, i as int) =~= bytes@);
    }

    /// Appends the varnum encoding of `value`.
    pub fn write_varnum(&mut self, value: u32)
        ensures
            final(self)@ == old(self)@ + spec_varnum(value as nat),
    {
        let bytes = varnum_bytes(value as u64);
        self.write_all(bytes.as_slice());
    }

    /// Appends the encoding of an optional number.
    pub fn write_maybe_varnum(&mut self, value: Option<u32>)
        ensures
            final(self)@ == old(self)@ + spec_maybe_varnum(value),
    {
        let bytes = maybe_varnum_bytes(value);
        self.write_all(bytes.as_slice());
    }

    /// Hands out the bytes written.
    pub fn done(self) -> (bytes: Vec<u8>)
        ensures
            bytes@ == self@,
    {
        self.data
    }
}

} // verus!
