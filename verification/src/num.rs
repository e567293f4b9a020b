//! Unsigned decimal literals: what a digit string stands for, a verified
//! parser for widths up to 128 bits, and the 256-bit parse through an
//! outside big-integer type.

use vstd::prelude::*;
use vstd::arithmetic::div_mod::{lemma_fundamental_div_mod, lemma_multiply_divide_lt};
use crate::bytes::{le_bytes, le_val, pow256};

verus! {

pub open spec fn is_digit(c: char) -> bool {
    '0' <= c && c <= '9'
}

pub open spec fn digit_val(c: char) -> nat {
    if is_digit(c) {
        (c as int - 48) as nat
    } else {
        0
    }
}

pub open spec fn is_digit_seq(s: Seq<char>) -> bool {
    forall|i: int| 0 <= i < s.len() ==> is_digit(#[trigger] s[i])
}

/// The number an unsigned decimal digit string stands for.
pub open spec fn dec_val(s: Seq<char>) -> nat
    decreases s.len(),
{
    if s.len() == 0 {
        0
    } else {
        dec_val(s.drop_last()) * 10 + digit_val(s.last())
    }
}

/// Appending digits never shrinks the value.
pub proof fn lemma_dec_val_prefix(s: Seq<char>, n: int)
    requires
        0 <= n <= s.len(),
    ensures
        dec_val(s) >= dec_val(s.subrange(0, n)),
    decreases s.len(),
{
    if n == s.len() {
        assert(s.subrange(0, n) =~= s);
    } else {
        assert(dec_val(s.drop_last()) * 10 >= dec_val(s.drop_last())) by (nonlinear_arith);
        assert(s.drop_last().subrange(0, n) =~= s.subrange(0, n));
        lemma_dec_val_prefix(s.drop_last(), n);
    }
}

/// A value below `pow256(len)` is read back exactly from its bytes.
pub proof fn lemma_le_val_le_bytes(n: nat, len: nat)
    requires
        n < pow256(len),
    ensures
        le_val(le_bytes(n as int, len)) == n,
    decreases len,
{
    if len == 0 {
        assert(n == 0);
    } else {
        let p = pow256((len - 1) as nat) as int;
        crate::bytes::lemma_pow256_pos((len - 1) as nat);
        lemma_multiply_divide_lt(n as int, 256, p);
        lemma_le_val_le_bytes((n as int / 256) as nat, (len - 1) as nat);
        let s = le_bytes(n as int, len);
        assert(s.drop_first() =~= le_bytes(n as int / 256, (len - 1) as nat));
        lemma_fundamental_div_mod(n as int, 256);
    }
}

/// Parses `cs[start..end]` as an unsigned decimal integer fitting a `u128`:
/// accepts exactly the all-digit ranges whose value is at most `u128::MAX`.
pub fn parse_dec_u128(cs: &Vec<char>, start: usize, end: usize) -> (r: Option<u128>)
    requires
        start <= end <= cs@.len(),
    ensures
        r is Some <==> is_digit_seq(cs@.subrange(start as int, end as int)) && dec_val(
            cs@.subrange(start as int, end as int),
        ) <= u128::MAX,
        r is Some ==> r.unwrap() as nat == dec_val(cs@.subrange(start as int, end as int)),
{
    let ghost whole = cs@.subrange(start as int, end as int);
    let mut acc: u128 = 0;
    let mut i: usize = start;
    while i < end
        invariant
            start <= i <= end <= cs@.len(),
            whole == cs@.subrange(start as int, end as int),
            is_digit_seq(cs@.subrange(start as int, i as int)),
            acc as nat == dec_val(cs@.subrange(start as int, i as int)),
        decreases end - i,
    {
        let ghost prefix = cs@.subrange(start as int, i as int);
        let c = cs[i];
        if !('0' <= c && c <= '9') {
            proof {
                assert(whole[i - start] == c);
            }
            return None;
        }
        let d: u128 = (c as u32 - 48) as u128;
        proof {
            assert(digit_val(c) == d);
        }
        let limit: u128 = (u128::MAX - d) / 10;
        let ghost q = (u128::MAX - d) as int / 10;
        proof {
            lemma_fundamental_div_mod((u128::MAX - d) as int, 10);
        }
        if acc > limit {
            proof {
                let stepped = cs@.subrange(start as int, i + 1 as int);
                assert(stepped.drop_last() =~= prefix);
                assert(stepped.last() == c);
                assert(acc * 10 >= (q + 1) * 10) by (nonlinear_arith)
                    requires
                        acc as int >= q + 1,
                ;
                assert(dec_val(stepped) > u128::MAX);
                lemma_dec_val_prefix(whole, i + 1 - start);
                assert(whole.subrange(0, i + 1 - start) =~= stepped);
            }
            return None;
        }
        proof {
            assert(acc * 10 <= q * 10) by (nonlinear_arith)
                requires
                    acc as int <= q,
            ;
        }
        acc = acc * 10 + d;
        i = i + 1;
        proof {
            let stepped = cs@.subrange(start as int, i as int);
            assert(stepped.drop_last() =~= prefix);
            assert(stepped.last() == c);
            assert(forall|j: int| 0 <= j < prefix.len() ==> stepped[j] == prefix[j]);
        }
    }
    proof {
        assert(cs@.subrange(start as int, i as int) =~= whole);
    }
    Some(acc)
}

/// Relies on `ethereum_types::U256::from_dec_str` and `U256::byte`:
/// `from_dec_str` accepts exactly the all-digit strings whose value fits
/// 256 bits, and `byte(i)` is byte `i` of the value, little-endian.
#[verifier::external_body]
pub fn u256_from_dec(s: &str) -> (r: Option<[u8; 32]>)
    ensures
        r matches Some(b) ==> is_digit_seq(s@) && dec_val(s@) < pow256(32) && b@ == le_bytes(
            dec_val(s@) as int,
            32,
        ),
        r is None ==> !(is_digit_seq(s@) && dec_val(s@) < pow256(32)),
{
    match ethereum_types::U256::from_dec_str(s) {
        Ok(n) => {
            let mut b = [0u8; 32];
            for i in 0..32 {
                b[i] = n.byte(i);
            }
            Some(b)
        },
        Err(_) => None,
    }
}

} // verus!
