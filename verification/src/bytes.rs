//! Little-endian byte strings of unsigned integers, at a chosen width.

use vstd::prelude::*;
use vstd::arithmetic::div_mod::{
    lemma_fundamental_div_mod_converse, lemma_mod_breakdown, lemma_mod_bound,
};

verus! {

/// 256 to the power `n`: the number of byte strings of length `n`.
pub open spec fn pow256(n: nat) -> nat
    decreases n,
{
    if n == 0 {
        1
    } else {
        256 * pow256((n - 1) as nat)
    }
}

/// The `len` little-endian bytes of `n`: lowest byte first, higher bytes
/// beyond the width dropped, so the string stands for `n % pow256(len)`.
pub open spec fn le_bytes(n: int, len: nat) -> Seq<u8>
    decreases len,
{
    if len == 0 {
        Seq::empty()
    } else {
        seq![(n % 256) as u8] + le_bytes(n / 256, (len - 1) as nat)
    }
}

/// The value a little-endian byte string stands for.
pub open spec fn le_val(s: Seq<u8>) -> nat
    decreases s.len(),
{
    if s.len() == 0 {
        0
    } else {
        (s[0] as nat) + 256 * le_val(s.drop_first())
    }
}

pub proof fn lemma_le_bytes_len(n: int, len: nat)
    ensures
        le_bytes(n, len).len() == len,
    decreases len,
{
    if len > 0 {
        lemma_le_bytes_len(n / 256, (len - 1) as nat);
    }
}

/// The widths the number model uses, as plain constants.
pub proof fn lemma_pow256_values()
    ensures
        pow256(1) == 0x100,
        pow256(2) == 0x1_0000,
        pow256(4) == 0x1_0000_0000,
        pow256(8) == 0x1_0000_0000_0000_0000,
        pow256(16) == 0x1_0000_0000_0000_0000_0000_0000_0000_0000,
{
    reveal_with_fuel(pow256, 17);
}

pub proof fn lemma_pow256_pos(n: nat)
    ensures
        pow256(n) >= 1,
    decreases n,
{
    if n > 0 {
        lemma_pow256_pos((n - 1) as nat);
    }
}

/// Only the residue of `n` below `pow256(len)` shows in its byte string.
pub proof fn lemma_le_bytes_mod(n: int, len: nat)
    requires
        n >= 0,
    ensures
        le_bytes(n, len) == le_bytes(n % pow256(len) as int, len),
    decreases len,
{
    if len > 0 {
        let p = pow256((len - 1) as nat) as int;
        lemma_pow256_pos((len - 1) as nat);
        assert(pow256(len) == 256 * p);
        lemma_mod_breakdown(n, 256, p);
        let q = (n / 256) % p;
        let r = n % 256;
        let m = n % (256 * p);
        assert(m == 256 * q + r);
        lemma_mod_bound(n / 256, p);
        lemma_mod_bound(n, 256);
        lemma_fundamental_div_mod_converse(m, 256, q, r);
        assert(m % 256 == r && m / 256 == q);
        lemma_le_bytes_mod(n / 256, (len - 1) as nat);
        assert(le_bytes(m, len) =~= le_bytes(n, len));
    }
}

/// A byte string framed as a variable-length value: a 4-byte little-endian
/// byte-length prefix, then the bytes themselves. A length beyond the 32-bit
/// range wraps, as the prefix cannot hold more.
pub open spec fn with_len_prefix(p: Seq<u8>) -> Seq<u8> {
    le_bytes(p.len() as int, 4) + p
}

/// Frames `payload` with its 4-byte little-endian length prefix.
pub fn prefixed(payload: Vec<u8>) -> (r: Vec<u8>)
    ensures
        r@ == with_len_prefix(payload@),
{
    let mut out: Vec<u8> = Vec::new();
    let len32: u64 = (payload.len() as u64) % 0x1_0000_0000;
    proof {
        lemma_le_bytes_mod(payload@.len() as int, 4);
        assert(pow256(4) == 0x1_0000_0000) by {
            reveal_with_fuel(pow256, 5);
        }
    }
    push_le_bytes(&mut out, len32 as u128, 4);
    let mut p = payload;
    out.append(&mut p);
    proof {
        assert(out@ =~= with_len_prefix(payload@));
    }
    out
}

/// Appends the `width` little-endian bytes of `x` to `out`.
pub fn push_le_bytes(out: &mut Vec<u8>, x: u128, width: usize)
    requires
        width <= 16,
    ensures
        final(out)@ == old(out)@ + le_bytes(x as int, width as nat),
    decreases width,
{
    if width == 0 {
        proof {
            assert(out@ =~= old(out)@ + le_bytes(x as int, 0));
        }
    } else {
        out.push((x % 256) as u8);
        push_le_bytes(out, x / 256, width - 1);
        proof {
            assert(out@ =~= old(out)@ + le_bytes(x as int, width as nat));
        }
    }
}

} // verus!
