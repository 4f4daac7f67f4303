//! Fixed-width big-endian words: the form in which contract calls
//! return integers and in which responses are handed back.

use vstd::prelude::*;

verus! {

/// The unsigned value of a big-endian byte string.
pub open spec fn be_val(bytes: Seq<u8>) -> nat
    decreases bytes.len(),
{
    if bytes.len() == 0 {
        0
    } else {
        be_val(bytes.drop_last()) * 256 + bytes.last() as nat
    }
}

/// A big-endian byte string is zero exactly when every byte is.
pub proof fn lemma_be_val_zero(bytes: Seq<u8>)
    ensures
        (be_val(bytes) == 0) <==> (forall|i: int| 0 <= i < bytes.len() ==> bytes[i] == 0),
    decreases bytes.len(),
{
    if bytes.len() > 0 {
        lemma_be_val_zero(bytes.drop_last());
        assert forall|i: int| 0 <= i < bytes.len() - 1 implies bytes.drop_last()[i] == bytes[i]
            by {}
        if be_val(bytes) == 0 {
            assert(be_val(bytes.drop_last()) == 0);
        }
        if forall|i: int| 0 <= i < bytes.len() ==> bytes[i] == 0 {
            assert(bytes.last() == 0);
        }
    }
}

/// Whether a returned balance word is positive: how a holder test reads
/// the return data of a balance call.
pub fn word_is_positive(bytes: &[u8]) -> (r: bool)
    ensures
        r == (be_val(bytes@) > 0),
{
    let n = bytes.len();
    let mut i: usize = 0;
    while i < n
        invariant
            n == bytes@.len(),
            i <= n,
            forall|j: int| 0 <= j < i ==> bytes@[j] == 0,
        decreases n - i,
    {
        if bytes[i] > 0 {
            proof {
                lemma_be_val_zero(bytes@);
            }
            return true;
        }
        i += 1;
    }
    proof {
        lemma_be_val_zero(bytes@);
    }
    false
}

/// 256 to the power `k`.
pub open spec fn pow256(k: nat) -> nat
    decreases k,
{
    if k == 0 {
        1
    } else {
        256 * pow256((k - 1) as nat)
    }
}

/// The concrete values of the powers an eight-byte word involves.
proof fn lemma_pow256_values()
    ensures
        pow256(0) == 1,
        pow256(1) == 256,
        pow256(2) == 65536,
        pow256(3) == 16777216,
        pow256(4) == 4294967296,
        pow256(5) == 1099511627776,
        pow256(6) == 281474976710656,
        pow256(7) == 72057594037927936,
{
    assert(pow256(0) == 1);
    assert(pow256(1) == 256);
    assert(pow256(2) == 65536);
    assert(pow256(3) == 16777216);
    assert(pow256(4) == 4294967296);
    assert(pow256(5) == 1099511627776);
    assert(pow256(6) == 281474976710656);
    assert(pow256(7) == 72057594037927936);
}

/// The power's machine value, for the exponents an eight-byte word
/// needs.
fn pow256_u64(k: usize) -> (r: u64)
    requires
        k < 8,
    ensures
        r as nat == pow256(k as nat),
        r >= 1,
{
    proof {
        lemma_pow256_values();
    }
    match k {
        0 => 1,
        1 => 256,
        2 => 65536,
        3 => 16777216,
        4 => 4294967296,
        5 => 1099511627776,
        6 => 281474976710656,
        _ => 72057594037927936,
    }
}

/// Encodes an unsigned identifier as one 32-byte big-endian word: the
/// form in which a response payload echoes it.
pub fn abi_encode_u64(value: u64) -> (r: Vec<u8>)
    ensures
        r@.len() == 32,
        be_val(r@) == value as nat,
{
    let mut out: Vec<u8> = Vec::new();
    let mut i: usize = 0;
    while i < 24
        invariant
            out@.len() == i,
            i <= 24,
            be_val(out@) == 0,
        decreases 24 - i,
    {
        let ghost before = out@;
        out.push(0);
        proof {
            assert(out@.drop_last() =~= before);
        }
        i += 1;
    }
    proof {
        lemma_pow256_values();
        assert(pow256(8) == 256 * pow256(7));
        vstd::arithmetic::div_mod::lemma_basic_div(value as int, pow256(8) as int);
    }
    let mut j: usize = 0;
    while j < 8
        invariant
            out@.len() == 24 + j,
            j <= 8,
            be_val(out@) == value as nat / pow256((8 - j) as nat),
        decreases 8 - j,
    {
        let p = pow256_u64(7 - j);
        let b = ((value / p) % 256) as u8;
        let ghost before = out@;
        out.push(b);
        proof {
            assert(out@.drop_last() =~= before);
            vstd::arithmetic::div_mod::lemma_div_denominator(value as int, p as int, 256);
            assert(pow256((8 - j) as nat) == 256 * pow256((7 - j) as nat));
            vstd::arithmetic::div_mod::lemma_fundamental_div_mod((value / p) as int, 256);
            assert((value as nat / p as nat) / 256 == value as nat / pow256((8 - j) as nat))
                by {
                assert(p as int * 256 == pow256((8 - j) as nat) as int) by (nonlinear_arith)
                    requires
                        p as nat == pow256((7 - j) as nat),
                        pow256((8 - j) as nat) == 256 * pow256((7 - j) as nat),
                ;
            }
            assert(be_val(out@) == value as nat / pow256((7 - j) as nat));
        }
        j += 1;
    }
    proof {
        assert(pow256(0) == 1);
        assert(value as nat / 1 == value as nat);
    }
    out
}

} // verus!
