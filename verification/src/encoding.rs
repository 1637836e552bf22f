//! Byte encodings of the primitive values that the streams carry.

use vstd::prelude::*;

verus! {

/// The variable-length encoding of `value`: seven bits per byte, least
/// significant group first; each group is shifted left by one bit, and the low
/// bit is set on every byte but the last.
pub open spec fn spec_varnum(value: nat) -> Seq<u8>
    decreases value,
{
    if value < 128 {
        seq![(value * 2) as u8]
    } else {
        seq![((value % 128) * 2 + 1) as u8] + spec_varnum(value / 128)
    }
}

/// The encoding of an optional number: `None` as the varnum `0`, `Some(v)` as
/// the varnum `v + 1`.
pub open spec fn spec_maybe_varnum(value: Option<u32>) -> Seq<u8> {
    match value {
        None => spec_varnum(0),
        Some(v) => spec_varnum((v + 1) as nat),
    }
}

/// The encoding of an optional boolean: one byte, `0` for false, `1` for true,
/// `2` for absent.
pub open spec fn spec_bool_bytes(value: Option<bool>) -> Seq<u8> {
    match value {
        Some(false) => seq![0u8],
        Some(true) => seq![1u8],
        None => seq![2u8],
    }
}

/// The `n` low bytes of `value`, least significant first.
pub open spec fn spec_le_bytes(value: nat, n: nat) -> Seq<u8>
    decreases n,
{
    if n == 0 {
        Seq::empty()
    } else {
        seq![(value % 256) as u8] + spec_le_bytes(value / 256, (n - 1) as nat)
    }
}

/// The encoding of an optional number given by the bit pattern of its
/// double-precision value: `0` when absent, else `1` followed by the eight
/// bytes of the bit pattern, least significant first.
pub open spec fn spec_number_bytes(bits: Option<u64>) -> Seq<u8> {
    match bits {
        None => seq![0u8],
        Some(b) => seq![1u8] + spec_le_bytes(b as nat, 8),
    }
}

/// 256 to the power `n`.
pub open spec fn byte_power(n: nat) -> nat
    decreases n,
{
    if n == 0 {
        1
    } else {
        256 * byte_power((n - 1) as nat)
    }
}

/// Different values below 256^n have different `n`-byte encodings.
pub proof fn lemma_le_bytes_injective(v: nat, w: nat, n: nat)
    requires
        v != w,
        v < byte_power(n),
        w < byte_power(n),
    ensures
        spec_le_bytes(v, n) != spec_le_bytes(w, n),
    decreases n,
{
    if n > 0 {
        let p = byte_power((n - 1) as nat);
        let a = spec_le_bytes(v, n);
        let b = spec_le_bytes(w, n);
        if v % 256 == w % 256 {
            assert(v / 256 != w / 256);
            assert(v / 256 < p) by (nonlinear_arith)
                requires
                    v < 256 * p,
            ;
            assert(w / 256 < p) by (nonlinear_arith)
                requires
                    w < 256 * p,
            ;
            lemma_le_bytes_injective(v / 256, w / 256, (n - 1) as nat);
            assert(a.drop_first() =~= spec_le_bytes(v / 256, (n - 1) as nat));
            assert(b.drop_first() =~= spec_le_bytes(w / 256, (n - 1) as nat));
        } else {
            assert(a[0] != b[0]);
        }
    }
}

/// Different values have different varnums.
pub proof fn lemma_varnum_injective(v: nat, w: nat)
    requires
        v != w,
    ensures
        spec_varnum(v) != spec_varnum(w),
    decreases v + w,
{
    let a = spec_varnum(v);
    let b = spec_varnum(w);
    if v < 128 || w < 128 || v % 128 != w % 128 {
        assert(a[0] != b[0]);
    } else {
        assert(v / 128 != w / 128);
        lemma_varnum_injective(v / 128, w / 128);
        assert(a.drop_first() =~= spec_varnum(v / 128));
        assert(b.drop_first() =~= spec_varnum(w / 128));
    }
}

/// The number that bytes give read least significant first.
pub open spec fn le_value(bytes: Seq<u8>) -> nat
    decreases bytes.len(),
{
    if bytes.len() == 0 {
        0
    } else {
        bytes[0] as nat + 256 * le_value(bytes.drop_first())
    }
}

/// Reading back the `n` bytes of a value below 256^n gives the value.
pub proof fn lemma_le_bytes_read_back(v: nat, n: nat)
    requires
        v < byte_power(n),
    ensures
        spec_le_bytes(v, n).len() == n,
        le_value(spec_le_bytes(v, n)) == v,
    decreases n,
{
    if n > 0 {
        let p = byte_power((n - 1) as nat);
        assert(v / 256 < p) by (nonlinear_arith)
            requires
                v < 256 * p,
        ;
        lemma_le_bytes_read_back(v / 256, (n - 1) as nat);
        let b = spec_le_bytes(v, n);
        assert(b.drop_first() =~= spec_le_bytes(v / 256, (n - 1) as nat));
    } else {
        assert(v == 0);
    }
}

/// The number that a varnum gives: seven bits from each byte, least
/// significant group first, a byte's low bit telling whether more follow.
pub open spec fn varnum_value(bytes: Seq<u8>) -> nat
    decreases bytes.len(),
{
    if bytes.len() == 0 {
        0
    } else if bytes[0] % 2 == 1 {
        (bytes[0] / 2) as nat + 128 * varnum_value(bytes.drop_first())
    } else {
        (bytes[0] / 2) as nat
    }
}

/// Reading back a varnum gives the value written.
pub proof fn lemma_varnum_read_back(v: nat)
    ensures
        varnum_value(spec_varnum(v)) == v,
    decreases v,
{
    let b = spec_varnum(v);
    if v >= 128 {
        lemma_varnum_read_back(v / 128);
        assert(b.drop_first() =~= spec_varnum(v / 128));
    }
}

/// Encodes `value` as a varnum.
pub fn varnum_bytes(value: u64) -> (out: Vec<u8>)
    ensures
        out@ == spec_varnum(value as nat),
{
    let mut out: Vec<u8> = Vec::new();
    let mut rest: u64 = value;
    loop
        invariant
            spec_varnum(value as nat) == out@ + spec_varnum(rest as nat),
        decreases rest,
    {
        if rest < 128 {
            let byte: u8 = (rest * 2) as u8;
            let ghost before = out@;
            out.push(byte);
            assert(out@ =~= before + spec_varnum(rest as nat));
            return out;
        }
        let byte: u8 = ((rest % 128) * 2 + 1) as u8;
        let ghost before = out@;
        out.push(byte);
        assert(spec_varnum(rest as nat) == seq![byte] + spec_varnum((rest / 128) as nat));
        assert(before + spec_varnum(rest as nat) =~= out@ + spec_varnum((rest / 128) as nat));
        rest = rest / 128;
    }
}

/// Encodes an optional number (see `spec_maybe_varnum`).
pub fn maybe_varnum_bytes(value: Option<u32>) -> (out: Vec<u8>)
    ensures
        out@ == spec_maybe_varnum(value),
{
    match value {
        None => varnum_bytes(0),
        Some(v) => varnum_bytes(v as u64 + 1),
    }
}

/// Encodes an optional boolean (see `spec_bool_bytes`).
pub fn bool_bytes(value: Option<bool>) -> (out: Vec<u8>)
    ensures
        out@ == spec_bool_bytes(value),
{
    let byte: u8 = match value {
        Some(false) => 0,
        Some(true) => 1,
        None => 2,
    };
    let mut out: Vec<u8> = Vec::new();
    out.push(byte);
    assert(out@ =~= spec_bool_bytes(value));
    out
}

/// Encodes an optional number given by its bit pattern (see `spec_number_bytes`).
pub fn number_bytes(bits: Option<u64>) -> (out: Vec<u8>)
    ensures
        out@ == spec_number_bytes(bits),
{
    let mut out: Vec<u8> = Vec::new();
    match bits {
        None => {
            out.push(0);
            assert(out@ =~= spec_number_bytes(bits));
        },
        Some(b) => {
            out.push(1);
            let mut rest: u64 = b;
            let mut i: u64 = 0;
            while i < 8
                invariant
                    i <= 8,
                    seq![1u8] + spec_le_bytes(b as nat, 8) == out@ + spec_le_bytes(
                        rest as nat,
                        (8 - i) as nat,
                    ),
                decreases 8 - i,
            {
                let byte: u8 = (rest % 256) as u8;
                let ghost before = out@;
                out.push(byte);
                assert(spec_le_bytes(rest as nat, (8 - i) as nat) == seq![byte] + spec_le_bytes(
                    (rest / 256) as nat,
                    (8 - i - 1) as nat,
                ));
                assert(before + spec_le_bytes(rest as nat, (8 - i) as nat) =~= out@
                    + spec_le_bytes((rest / 256) as nat, (8 - i - 1) as nat));
                rest = rest / 256;
                i = i + 1;
            }
            assert(out@ =~= out@ + spec_le_bytes(rest as nat, 0));
        },
    }
    out
}

} // verus!
