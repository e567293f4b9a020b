//! The serializer: a recursive walk of a value that emits bytes, deciding at
//! every composite node whether the node is fixed-width or needs a 4-byte
//! little-endian byte-length prefix.

use vstd::prelude::*;
use vstd::utf8::encode_utf8;
use crate::bytes::{le_bytes, prefixed, with_len_prefix};
use crate::value::{
    NumberView, SsztNumber, SsztValue, ValueView, field_views, lemma_field_views_index,
    lemma_field_views_len, lemma_value_views_index, lemma_value_views_len, value_views,
};

verus! {

/// The bytes of a number: its value in little-endian at its declared width.
pub open spec fn number_encoding(n: NumberView) -> Seq<u8> {
    match n {
        NumberView::U8(x) => le_bytes(x as int, 1),
        NumberView::U16(x) => le_bytes(x as int, 2),
        NumberView::U32(x) => le_bytes(x as int, 4),
        NumberView::U64(x) => le_bytes(x as int, 8),
        NumberView::U128(x) => le_bytes(x as int, 16),
        NumberView::U256(b) => b,
    }
}

/// Whether a value's encoded length is known from its type alone. Text
/// counts as fixed here even though its byte form is length-prefixed. A
/// non-empty container counts as fixed as soon as any direct field is
/// fixed — deliberately so, although a strict length-invariance reading
/// would demand every field, because tightening it would change the byte
/// layout of containers that mix fixed and variable fields. An empty
/// container is fixed and encodes to nothing.
pub open spec fn is_fixed(v: ValueView) -> bool
    decreases v,
{
    match v {
        ValueView::Null => true,
        ValueView::Bool(_) => true,
        ValueView::Number(_) => true,
        ValueView::String(_) => true,
        ValueView::Vector(_) => true,
        ValueView::List(_) => false,
        ValueView::Container(fs) => fs.len() == 0 || some_fixed(fs),
    }
}

pub open spec fn some_fixed(fs: Seq<(Seq<char>, ValueView)>) -> bool
    decreases fs,
{
    fs.len() > 0 && (is_fixed(fs[0].1) || some_fixed(fs.drop_first()))
}

/// The byte string a value serializes to.
pub open spec fn encoding(v: ValueView) -> Seq<u8>
    decreases v,
{
    match v {
        ValueView::Null => Seq::empty(),
        ValueView::Bool(b) => seq![if b { 1u8 } else { 0u8 }],
        ValueView::Number(n) => number_encoding(n),
        ValueView::String(s) => with_len_prefix(encode_utf8(s)),
        ValueView::Vector(es) => encodings(es),
        ValueView::List(es) => with_len_prefix(encodings(es)),
        ValueView::Container(fs) => if fs.len() == 0 || some_fixed(fs) {
            field_encodings(fs)
        } else {
            with_len_prefix(field_encodings(fs))
        },
    }
}

/// Concatenated encodings of a row of values, left to right.
pub open spec fn encodings(s: Seq<ValueView>) -> Seq<u8>
    decreases s,
{
    if s.len() == 0 {
        Seq::empty()
    } else {
        encoding(s[0]) + encodings(s.drop_first())
    }
}

/// Concatenated encodings of a container's field values, in field order.
pub open spec fn field_encodings(fs: Seq<(Seq<char>, ValueView)>) -> Seq<u8>
    decreases fs,
{
    if fs.len() == 0 {
        Seq::empty()
    } else {
        encoding(fs[0].1) + field_encodings(fs.drop_first())
    }
}

pub proof fn lemma_encodings_push(s: Seq<ValueView>, x: ValueView)
    ensures
        encodings(s.push(x)) == encodings(s) + encoding(x),
    decreases s,
{
    if s.len() == 0 {
        assert(s.push(x).drop_first() =~= s);
        assert(encodings(s.push(x)) =~= encodings(s) + encoding(x));
    } else {
        assert(s.push(x).drop_first() =~= s.drop_first().push(x));
        lemma_encodings_push(s.drop_first(), x);
        assert(encodings(s.push(x)) =~= encodings(s) + encoding(x));
    }
}

pub proof fn lemma_field_encodings_push(s: Seq<(Seq<char>, ValueView)>, x: (Seq<char>, ValueView))
    ensures
        field_encodings(s.push(x)) == field_encodings(s) + encoding(x.1),
    decreases s,
{
    if s.len() == 0 {
        assert(s.push(x).drop_first() =~= s);
        assert(field_encodings(s.push(x)) =~= field_encodings(s) + encoding(x.1));
    } else {
        assert(s.push(x).drop_first() =~= s.drop_first().push(x));
        lemma_field_encodings_push(s.drop_first(), x);
        assert(field_encodings(s.push(x)) =~= field_encodings(s) + encoding(x.1));
    }
}

/// A row has a fixed member exactly when some field of it is fixed.
pub proof fn lemma_some_fixed_each(fs: Seq<(Seq<char>, ValueView)>)
    ensures
        some_fixed(fs) <==> (exists|i: int|
            0 <= i < fs.len() && is_fixed(#[trigger] fs[i].1)),
    decreases fs,
{
    if fs.len() > 0 {
        let rest = fs.drop_first();
        lemma_some_fixed_each(rest);
        assert(forall|i: int| 0 <= i < rest.len() ==> #[trigger] rest[i] == fs[i + 1]);
        if some_fixed(fs) && !is_fixed(fs[0].1) {
            let i = choose|i: int| 0 <= i < rest.len() && is_fixed(#[trigger] rest[i].1);
            assert(is_fixed(fs[i + 1].1));
        }
        if exists|i: int| 0 <= i < fs.len() && is_fixed(#[trigger] fs[i].1) {
            let i = choose|i: int| 0 <= i < fs.len() && is_fixed(#[trigger] fs[i].1);
            if i > 0 {
                assert(is_fixed(rest[i - 1].1));
            }
        }
    }
}

/// A well-formed number's bytes are exactly its width's count of
/// little-endian bytes, and they stand for exactly its value.
pub proof fn lemma_number_encoding(n: NumberView)
    requires
        crate::value::num_wf(n),
    ensures
        number_encoding(n).len() == crate::value::num_width(n),
        crate::bytes::le_val(number_encoding(n)) == crate::value::num_val(n),
{
    crate::bytes::lemma_pow256_values();
    match n {
        NumberView::U8(x) => {
            crate::bytes::lemma_le_bytes_len(x as int, 1);
            crate::num::lemma_le_val_le_bytes(x as nat, 1);
        },
        NumberView::U16(x) => {
            crate::bytes::lemma_le_bytes_len(x as int, 2);
            crate::num::lemma_le_val_le_bytes(x as nat, 2);
        },
        NumberView::U32(x) => {
            crate::bytes::lemma_le_bytes_len(x as int, 4);
            crate::num::lemma_le_val_le_bytes(x as nat, 4);
        },
        NumberView::U64(x) => {
            crate::bytes::lemma_le_bytes_len(x as int, 8);
            crate::num::lemma_le_val_le_bytes(x as nat, 8);
        },
        NumberView::U128(x) => {
            crate::bytes::lemma_le_bytes_len(x as int, 16);
            crate::num::lemma_le_val_le_bytes(x as nat, 16);
        },
        NumberView::U256(_) => {},
    }
}

/// A list's bytes are the 4-byte little-endian byte length of its
/// elements' concatenated encodings, followed by that concatenation —
/// the prefix counts bytes, never elements.
pub proof fn lemma_list_length_prefix(es: Seq<ValueView>)
    ensures
        encoding(ValueView::List(es)) == le_bytes(encodings(es).len() as int, 4) + encodings(es),
{
}

/// A vector whose elements each encode to `k` bytes encodes to their
/// plain concatenation: exactly `n * k` bytes, with no prefix.
pub proof fn lemma_vector_concatenation(es: Seq<ValueView>, k: nat)
    requires
        forall|i: int| 0 <= i < es.len() ==> encoding(#[trigger] es[i]).len() == k,
    ensures
        encoding(ValueView::Vector(es)) == encodings(es),
        encodings(es).len() == es.len() * k,
    decreases es,
{
    if es.len() == 0 {
        assert(es.len() * k == 0) by (nonlinear_arith)
            requires
                es.len() == 0,
        ;
    } else {
        let rest = es.drop_first();
        assert(forall|i: int| 0 <= i < rest.len() ==> #[trigger] rest[i] == es[i + 1]);
        lemma_vector_concatenation(rest, k);
        assert(k + rest.len() * k == es.len() * k) by (nonlinear_arith)
            requires
                rest.len() + 1 == es.len(),
        ;
    }
}

/// Serializes a value. Every node's bytes are exactly what `encoding`
/// says, so equal values always give equal bytes.
pub fn serialize(v: &SsztValue) -> (r: Vec<u8>)
    ensures
        r@ == encoding(v@),
    decreases *v,
{
    match v {
        SsztValue::Null => Vec::new(),
        SsztValue::Bool(b) => {
            let mut out: Vec<u8> = Vec::new();
            out.push(if *b { 1 } else { 0 });
            proof {
                assert(out@ =~= encoding(v@));
            }
            out
        },
        SsztValue::Number(n) => serialize_number(n),
        SsztValue::String(s) => prefixed(s.as_str().as_bytes_vec()),
        SsztValue::Vector(es) => serialize_elems(es),
        SsztValue::List(es) => prefixed(serialize_elems(es)),
        SsztValue::Container(fs) => {
            let payload = serialize_fields(fs);
            proof {
                lemma_field_views_len(fs@);
            }
            if fs.len() == 0 || any_field_fixed(fs) {
                payload
            } else {
                prefixed(payload)
            }
        },
    }
}

/// Reports whether a value is fixed, as `is_fixed` classifies it.
pub fn is_fixed_length(v: &SsztValue) -> (r: bool)
    ensures
        r == is_fixed(v@),
    decreases *v,
{
    match v {
        SsztValue::Null => true,
        SsztValue::Bool(_) => true,
        SsztValue::Number(_) => true,
        SsztValue::String(_) => true,
        SsztValue::Vector(_) => true,
        SsztValue::List(_) => false,
        SsztValue::Container(fs) => fs.len() == 0 || any_field_fixed(fs),
    }
}

fn any_field_fixed(fs: &Vec<(String, SsztValue)>) -> (r: bool)
    ensures
        r == some_fixed(field_views(fs@)),
    decreases fs@,
{
    proof {
        lemma_some_fixed_each(field_views(fs@));
        lemma_field_views_len(fs@);
    }
    let n = fs.len();
    for i in 0..n
        invariant
            n == fs.len(),
            some_fixed(field_views(fs@)) <==> (exists|j: int|
                0 <= j < fs@.len() && is_fixed(#[trigger] field_views(fs@)[j].1)),
            field_views(fs@).len() == fs@.len(),
            forall|j: int| 0 <= j < i ==> !is_fixed(#[trigger] field_views(fs@)[j].1),
    {
        proof {
            lemma_field_views_index(fs@, i as int);
        }
        if is_fixed_length(&fs[i].1) {
            proof {
                assert(is_fixed(field_views(fs@)[i as int].1));
            }
            return true;
        }
    }
    false
}

fn serialize_number(n: &SsztNumber) -> (r: Vec<u8>)
    ensures
        r@ == number_encoding(n@),
{
    let mut out: Vec<u8> = Vec::new();
    match n {
        SsztNumber::U8(x) => crate::bytes::push_le_bytes(&mut out, *x as u128, 1),
        SsztNumber::U16(x) => crate::bytes::push_le_bytes(&mut out, *x as u128, 2),
        SsztNumber::U32(x) => crate::bytes::push_le_bytes(&mut out, *x as u128, 4),
        SsztNumber::U64(x) => crate::bytes::push_le_bytes(&mut out, *x as u128, 8),
        SsztNumber::U128(x) => crate::bytes::push_le_bytes(&mut out, *x, 16),
        SsztNumber::U256(b) => {
            for i in 0..32
                invariant
                    out@ =~= b@.subrange(0, i as int),
            {
                out.push(b[i]);
                proof {
                    assert(out@ =~= b@.subrange(0, i + 1 as int));
                }
            }
            proof {
                assert(b@.subrange(0, 32) =~= b@);
            }
        },
    }
    proof {
        assert(out@ =~= number_encoding(n@));
    }
    out
}

fn serialize_elems(es: &Vec<SsztValue>) -> (r: Vec<u8>)
    ensures
        r@ == encodings(value_views(es@)),
    decreases es@,
{
    let mut out: Vec<u8> = Vec::new();
    let n = es.len();
    for i in 0..n
        invariant
            n == es.len(),
            out@ == encodings(value_views(es@).subrange(0, i as int)),
    {
        proof {
            lemma_value_views_len(es@);
        }
        let mut piece = serialize(&es[i]);
        out.append(&mut piece);
        proof {
            let vs = value_views(es@);
            lemma_value_views_index(es@, i as int);
            lemma_encodings_push(vs.subrange(0, i as int), vs[i as int]);
            assert(vs.subrange(0, i + 1 as int) =~= vs.subrange(0, i as int).push(vs[i as int]));
        }
    }
    proof {
        lemma_value_views_len(es@);
        assert(value_views(es@).subrange(0, es@.len() as int) =~= value_views(es@));
    }
    out
}

fn serialize_fields(fs: &Vec<(String, SsztValue)>) -> (r: Vec<u8>)
    ensures
        r@ == field_encodings(field_views(fs@)),
    decreases fs@,
{
    let mut out: Vec<u8> = Vec::new();
    let n = fs.len();
    for i in 0..n
        invariant
            n == fs.len(),
            out@ == field_encodings(field_views(fs@).subrange(0, i as int)),
    {
        proof {
            lemma_field_views_len(fs@);
        }
        let mut piece = serialize(&fs[i].1);
        out.append(&mut piece);
        proof {
            let vs = field_views(fs@);
            lemma_field_views_index(fs@, i as int);
            lemma_field_encodings_push(vs.subrange(0, i as int), vs[i as int]);
            assert(vs.subrange(0, i + 1 as int) =~= vs.subrange(0, i as int).push(vs[i as int]));
        }
    }
    proof {
        lemma_field_views_len(fs@);
        assert(field_views(fs@).subrange(0, fs@.len() as int) =~= field_views(fs@));
    }
    out
}

} // verus!
