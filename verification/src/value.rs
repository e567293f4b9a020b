//! The typed value model: a closed, recursive tagged union standing for a
//! parsed document, independent of the text format it came from.

use vstd::prelude::*;
use crate::bytes::le_val;

verus! {

/// An unsigned number of a declared width. Width is fixed at parse time;
/// a 256-bit number holds its 32 little-endian bytes directly.
pub enum SsztNumber {
    U8(u8),
    U16(u16),
    U32(u32),
    U64(u64),
    U128(u128),
    U256([u8; 32]),
}

/// A typed value. A `Vector` has fixed arity and serializes by plain
/// concatenation; a `List` is always length-prefixed; a `Container` keeps
/// its fields in insertion order, which fixes the byte layout.
pub enum SsztValue {
    Null,
    Bool(bool),
    Number(SsztNumber),
    String(String),
    Vector(Vec<SsztValue>),
    List(Vec<SsztValue>),
    Container(Vec<(String, SsztValue)>),
}

/// Mathematical image of `SsztNumber`.
pub enum NumberView {
    U8(u8),
    U16(u16),
    U32(u32),
    U64(u64),
    U128(u128),
    U256(Seq<u8>),
}

/// Mathematical image of `SsztValue`: sequences for vectors and lists,
/// ordered key/value pairs for containers, character sequences for text.
pub enum ValueView {
    Null,
    Bool(bool),
    Number(NumberView),
    String(Seq<char>),
    Vector(Seq<ValueView>),
    List(Seq<ValueView>),
    Container(Seq<(Seq<char>, ValueView)>),
}

pub open spec fn number_view(n: SsztNumber) -> NumberView {
    match n {
        SsztNumber::U8(x) => NumberView::U8(x),
        SsztNumber::U16(x) => NumberView::U16(x),
        SsztNumber::U32(x) => NumberView::U32(x),
        SsztNumber::U64(x) => NumberView::U64(x),
        SsztNumber::U128(x) => NumberView::U128(x),
        SsztNumber::U256(b) => NumberView::U256(b@),
    }
}

pub open spec fn value_view(v: SsztValue) -> ValueView
    decreases v,
{
    match v {
        SsztValue::Null => ValueView::Null,
        SsztValue::Bool(b) => ValueView::Bool(b),
        SsztValue::Number(n) => ValueView::Number(number_view(n)),
        SsztValue::String(s) => ValueView::String(s@),
        SsztValue::Vector(es) => ValueView::Vector(value_views(es@)),
        SsztValue::List(es) => ValueView::List(value_views(es@)),
        SsztValue::Container(fs) => ValueView::Container(field_views(fs@)),
    }
}

pub open spec fn value_views(s: Seq<SsztValue>) -> Seq<ValueView>
    decreases s,
{
    if s.len() == 0 {
        Seq::empty()
    } else {
        seq![value_view(s[0])] + value_views(s.drop_first())
    }
}

pub open spec fn field_views(s: Seq<(String, SsztValue)>) -> Seq<(Seq<char>, ValueView)>
    decreases s,
{
    if s.len() == 0 {
        Seq::empty()
    } else {
        seq![(s[0].0@, value_view(s[0].1))] + field_views(s.drop_first())
    }
}

impl View for SsztNumber {
    type V = NumberView;

    open spec fn view(&self) -> NumberView {
        number_view(*self)
    }
}

impl View for SsztValue {
    type V = ValueView;

    open spec fn view(&self) -> ValueView {
        value_view(*self)
    }
}

pub proof fn lemma_value_views_len(s: Seq<SsztValue>)
    ensures
        value_views(s).len() == s.len(),
    decreases s,
{
    if s.len() > 0 {
        lemma_value_views_len(s.drop_first());
    }
}

pub proof fn lemma_value_views_index(s: Seq<SsztValue>, i: int)
    requires
        0 <= i < s.len(),
    ensures
        value_views(s).len() == s.len(),
        value_views(s)[i] == value_view(s[i]),
    decreases s,
{
    lemma_value_views_len(s);
    if i > 0 {
        lemma_value_views_index(s.drop_first(), i - 1);
    }
}

pub proof fn lemma_field_views_len(s: Seq<(String, SsztValue)>)
    ensures
        field_views(s).len() == s.len(),
    decreases s,
{
    if s.len() > 0 {
        lemma_field_views_len(s.drop_first());
    }
}

pub proof fn lemma_field_views_index(s: Seq<(String, SsztValue)>, i: int)
    requires
        0 <= i < s.len(),
    ensures
        field_views(s).len() == s.len(),
        field_views(s)[i] == (s[i].0@, value_view(s[i].1)),
    decreases s,
{
    lemma_field_views_len(s);
    if i > 0 {
        lemma_field_views_index(s.drop_first(), i - 1);
    }
}

pub proof fn lemma_value_views_cons(x: SsztValue, t: Seq<SsztValue>)
    ensures
        value_views(seq![x] + t) == seq![value_view(x)] + value_views(t),
{
    let s = seq![x] + t;
    assert(s[0] == x);
    assert(s.drop_first() =~= t);
}

pub proof fn lemma_field_views_push(s: Seq<(String, SsztValue)>, p: (String, SsztValue))
    ensures
        field_views(s.push(p)) == field_views(s).push((p.0@, value_view(p.1))),
    decreases s,
{
    if s.len() == 0 {
        assert(s.push(p).drop_first() =~= s);
        assert(field_views(s.push(p)) =~= field_views(s).push((p.0@, value_view(p.1))));
    } else {
        assert(s.push(p).drop_first() =~= s.drop_first().push(p));
        lemma_field_views_push(s.drop_first(), p);
        assert(field_views(s.push(p)) =~= field_views(s).push((p.0@, value_view(p.1))));
    }
}

pub proof fn lemma_field_views_update(s: Seq<(String, SsztValue)>, i: int, p: (String, SsztValue))
    requires
        0 <= i < s.len(),
    ensures
        field_views(s.update(i, p)) == field_views(s).update(i, (p.0@, value_view(p.1))),
    decreases s,
{
    lemma_field_views_len(s);
    if i == 0 {
        assert(s.update(0, p)[0] == p);
        assert(s.update(0, p).drop_first() =~= s.drop_first());
        assert(field_views(s.update(0, p)) =~= field_views(s).update(0, (p.0@, value_view(p.1))));
    } else {
        assert(s.update(i, p).drop_first() =~= s.drop_first().update(i - 1, p));
        lemma_field_views_update(s.drop_first(), i - 1, p);
        lemma_field_views_len(s.drop_first());
        assert(field_views(s.update(i, p)) =~= field_views(s).update(i, (p.0@, value_view(p.1))));
    }
}

/// The width in bytes of a number's encoding.
pub open spec fn num_width(n: NumberView) -> nat {
    match n {
        NumberView::U8(_) => 1,
        NumberView::U16(_) => 2,
        NumberView::U32(_) => 4,
        NumberView::U64(_) => 8,
        NumberView::U128(_) => 16,
        NumberView::U256(_) => 32,
    }
}

/// The numeric value a number stands for.
pub open spec fn num_val(n: NumberView) -> nat {
    match n {
        NumberView::U8(x) => x as nat,
        NumberView::U16(x) => x as nat,
        NumberView::U32(x) => x as nat,
        NumberView::U64(x) => x as nat,
        NumberView::U128(x) => x as nat,
        NumberView::U256(b) => le_val(b),
    }
}

/// Distinct field names within one container.
pub open spec fn unique_keys(fs: Seq<(Seq<char>, ValueView)>) -> bool {
    forall|i: int, j: int| 0 <= i < j < fs.len() ==> fs[i].0 != fs[j].0
}

/// Well-formed values: 256-bit numbers carry exactly 32 bytes, and every
/// container's field names are distinct. Reconstruction only ever builds
/// well-formed values.
pub open spec fn wf(v: ValueView) -> bool
    decreases v,
{
    match v {
        ValueView::Null => true,
        ValueView::Bool(_) => true,
        ValueView::Number(n) => num_wf(n),
        ValueView::String(_) => true,
        ValueView::Vector(es) => all_wf(es),
        ValueView::List(es) => all_wf(es),
        ValueView::Container(fs) => unique_keys(fs) && fields_wf(fs),
    }
}

pub open spec fn num_wf(n: NumberView) -> bool {
    match n {
        NumberView::U256(b) => b.len() == 32,
        _ => true,
    }
}

pub open spec fn all_wf(s: Seq<ValueView>) -> bool
    decreases s,
{
    if s.len() == 0 {
        true
    } else {
        wf(s[0]) && all_wf(s.drop_first())
    }
}

pub open spec fn fields_wf(s: Seq<(Seq<char>, ValueView)>) -> bool
    decreases s,
{
    if s.len() == 0 {
        true
    } else {
        wf(s[0].1) && fields_wf(s.drop_first())
    }
}

} // verus!
