//! Reconstruction: recovering typed values from the generic document tree
//! by the tagging convention — `<literal>:<typename>` scalars become
//! numbers, sequences declare themselves `"vector"` or `"list"`, mappings
//! become containers. This is the only place input is rejected.

use vstd::prelude::*;
use vstd::string::StrSliceExecFns;
use crate::bytes::{le_bytes, le_val, lemma_pow256_values, pow256};
use crate::doc::{
    DocNode, NodeView, entry_views, lemma_entry_views_index, lemma_entry_views_len,
    lemma_node_views_index, lemma_node_views_len, node_view, node_views,
};
use crate::num::{dec_val, is_digit, is_digit_seq, parse_dec_u128, u256_from_dec};
use crate::value::{
    NumberView, SsztNumber, SsztValue, ValueView, field_views, lemma_field_views_index,
    lemma_field_views_len, lemma_field_views_push, lemma_field_views_update,
    lemma_value_views_cons, value_view, value_views,
};

verus! {

/// Why a document was rejected, naming the offending text where there is
/// any: a typename outside the supported widths, a literal that does not
/// parse at its width, a sequence without its tag element, or a tag that
/// names no sequence kind.
#[derive(Debug)]
pub enum MalformedValue {
    UnknownIntegerType(String),
    BadIntegerLiteral(String),
    EmptySequence,
    UntaggedSequence,
    UnknownSequenceTag(String),
}

/// Mathematical image of `MalformedValue`.
pub enum MalformedValueView {
    UnknownIntegerType(Seq<char>),
    BadIntegerLiteral(Seq<char>),
    EmptySequence,
    UntaggedSequence,
    UnknownSequenceTag(Seq<char>),
}

pub open spec fn malformed_view(e: MalformedValue) -> MalformedValueView {
    match e {
        MalformedValue::UnknownIntegerType(s) => MalformedValueView::UnknownIntegerType(s@),
        MalformedValue::BadIntegerLiteral(s) => MalformedValueView::BadIntegerLiteral(s@),
        MalformedValue::EmptySequence => MalformedValueView::EmptySequence,
        MalformedValue::UntaggedSequence => MalformedValueView::UntaggedSequence,
        MalformedValue::UnknownSequenceTag(s) => MalformedValueView::UnknownSequenceTag(s@),
    }
}

impl View for MalformedValue {
    type V = MalformedValueView;

    open spec fn view(&self) -> MalformedValueView {
        malformed_view(*self)
    }
}

pub open spec fn count_colons(s: Seq<char>) -> nat
    decreases s.len(),
{
    if s.len() == 0 {
        0
    } else {
        (if s[0] == ':' {
            1nat
        } else {
            0nat
        }) + count_colons(s.drop_first())
    }
}

/// Index of the first colon, or the length when there is none.
pub open spec fn first_colon(s: Seq<char>) -> nat
    decreases s.len(),
{
    if s.len() == 0 {
        0
    } else if s[0] == ':' {
        0
    } else {
        1 + first_colon(s.drop_first())
    }
}

/// A scalar of the shape `<literal>:<typename>`: exactly one colon, with
/// text on both sides of it.
pub open spec fn tagged_scalar(s: Seq<char>) -> bool {
    count_colons(s) == 1 && 1 <= first_colon(s) && first_colon(s) + 1 < s.len()
}

/// The byte width a typename names, or 0 for an unknown typename.
pub open spec fn tag_width(t: Seq<char>) -> nat {
    if t == "u8"@ {
        1
    } else if t == "u16"@ {
        2
    } else if t == "u32"@ {
        4
    } else if t == "u64"@ {
        8
    } else if t == "u128"@ {
        16
    } else if t == "u256"@ {
        32
    } else {
        0
    }
}

/// The number a digit literal becomes at byte width `w`.
pub open spec fn make_number(w: nat, lit: Seq<char>) -> NumberView
    recommends
        dec_val(lit) < pow256(w),
{
    if w == 1 {
        NumberView::U8(dec_val(lit) as u8)
    } else if w == 2 {
        NumberView::U16(dec_val(lit) as u16)
    } else if w == 4 {
        NumberView::U32(dec_val(lit) as u32)
    } else if w == 8 {
        NumberView::U64(dec_val(lit) as u64)
    } else if w == 16 {
        NumberView::U128(dec_val(lit) as u128)
    } else {
        NumberView::U256(le_bytes(dec_val(lit) as int, 32))
    }
}

/// What a text scalar reconstructs to: a number when it has the tagged
/// shape with a known width and a literal in range, an error when it has
/// the shape but a bad width or literal, and plain text otherwise.
pub open spec fn spec_reconstruct_text(s: Seq<char>) -> Result<ValueView, MalformedValueView> {
    if !tagged_scalar(s) {
        Ok(ValueView::String(s))
    } else {
        let i = first_colon(s) as int;
        let lit = s.subrange(0, i);
        let tag = s.subrange(i + 1, s.len() as int);
        let w = tag_width(tag);
        if w == 0 {
            Err(MalformedValueView::UnknownIntegerType(s))
        } else if is_digit_seq(lit) && dec_val(lit) < pow256(w) {
            Ok(ValueView::Number(make_number(w, lit)))
        } else {
            Err(MalformedValueView::BadIntegerLiteral(s))
        }
    }
}

pub proof fn lemma_count_colons_push(t: Seq<char>, c: char)
    ensures
        count_colons(t.push(c)) == count_colons(t) + (if c == ':' {
            1nat
        } else {
            0nat
        }),
    decreases t.len(),
{
    if t.len() == 0 {
        assert(t.push(c).drop_first() =~= t);
    } else {
        assert(t.push(c).drop_first() =~= t.drop_first().push(c));
        lemma_count_colons_push(t.drop_first(), c);
    }
}

pub proof fn lemma_first_colon_le(t: Seq<char>)
    ensures
        first_colon(t) <= t.len(),
    decreases t.len(),
{
    if t.len() > 0 && t[0] != ':' {
        lemma_first_colon_le(t.drop_first());
    }
}

pub proof fn lemma_first_colon_push(t: Seq<char>, c: char)
    ensures
        first_colon(t.push(c)) == if first_colon(t) < t.len() {
            first_colon(t)
        } else if c == ':' {
            t.len()
        } else {
            t.len() + 1
        },
    decreases t.len(),
{
    lemma_first_colon_le(t);
    if t.len() == 0 {
        assert(t.push(c).drop_first() =~= t);
    } else {
        assert(t.push(c).drop_first() =~= t.drop_first().push(c));
        lemma_first_colon_push(t.drop_first(), c);
        lemma_first_colon_le(t.drop_first());
    }
}

pub proof fn lemma_count_colons_concat(a: Seq<char>, b: Seq<char>)
    ensures
        count_colons(a + b) == count_colons(a) + count_colons(b),
    decreases a.len(),
{
    if a.len() == 0 {
        assert(a + b =~= b);
    } else {
        assert((a + b).drop_first() =~= a.drop_first() + b);
        assert((a + b)[0] == a[0]);
        lemma_count_colons_concat(a.drop_first(), b);
    }
}

pub proof fn lemma_first_colon_concat(a: Seq<char>, b: Seq<char>)
    requires
        count_colons(a) == 0,
    ensures
        first_colon(a + b) == a.len() + first_colon(b),
    decreases a.len(),
{
    if a.len() == 0 {
        assert(a + b =~= b);
    } else {
        assert((a + b).drop_first() =~= a.drop_first() + b);
        assert((a + b)[0] == a[0]);
        lemma_first_colon_concat(a.drop_first(), b);
    }
}

/// A digit string holds no colon.
pub proof fn lemma_digits_no_colon(s: Seq<char>)
    requires
        is_digit_seq(s),
    ensures
        count_colons(s) == 0,
    decreases s.len(),
{
    if s.len() > 0 {
        assert(is_digit(s[0]));
        assert(forall|i: int| 0 <= i < s.drop_first().len() ==> #[trigger] s.drop_first()[i] == s[
            i + 1
        ]);
        lemma_digits_no_colon(s.drop_first());
    }
}

/// A supported typename holds no colon and names at least two characters.
pub proof fn lemma_tag_shape(t: Seq<char>)
    requires
        tag_width(t) > 0,
    ensures
        count_colons(t) == 0,
        2 <= t.len() <= 4,
{
    reveal_with_fuel(count_colons, 6);
    reveal_strlit("u8");
    reveal_strlit("u16");
    reveal_strlit("u32");
    reveal_strlit("u64");
    reveal_strlit("u128");
    reveal_strlit("u256");
}

/// Numeric width correctness: a digit literal tagged with a supported
/// typename reconstructs to a number of that width, and that number
/// serializes to exactly the width's count of little-endian bytes, which
/// stand for the literal's value.
pub proof fn lemma_numeric_width(lit: Seq<char>, tag: Seq<char>)
    requires
        tag_width(tag) > 0,
        is_digit_seq(lit),
        lit.len() > 0,
        dec_val(lit) < pow256(tag_width(tag)),
    ensures
        spec_reconstruct_text(lit + seq![':'] + tag) == Ok::<ValueView, MalformedValueView>(
            ValueView::Number(make_number(tag_width(tag), lit)),
        ),
        crate::ser::encoding(ValueView::Number(make_number(tag_width(tag), lit))).len()
            == tag_width(tag),
        le_val(crate::ser::encoding(ValueView::Number(make_number(tag_width(tag), lit))))
            == dec_val(lit),
{
    let s = lit + seq![':'] + tag;
    let w = tag_width(tag);
    let mid = seq![':'] + tag;
    lemma_digits_no_colon(lit);
    lemma_tag_shape(tag);
    assert(lit + seq![':'] + tag =~= lit + (seq![':'] + tag));
    assert(mid.drop_first() =~= tag);
    assert(count_colons(mid) == 1 + count_colons(tag));
    lemma_count_colons_concat(lit, mid);
    lemma_first_colon_concat(lit, mid);
    assert(first_colon(mid) == 0);
    assert(count_colons(s) == 1);
    assert(first_colon(s) == lit.len());
    assert(tagged_scalar(s));
    assert(s.subrange(0, lit.len() as int) =~= lit);
    assert(s.subrange(lit.len() as int + 1, s.len() as int) =~= tag);
    let nv = make_number(w, lit);
    let d = dec_val(lit);
    crate::bytes::lemma_pow256_values();
    if w == 1 {
        assert(nv == NumberView::U8(d as u8));
        lemma_le_bytes_len_val(d, 1);
    } else if w == 2 {
        lemma_le_bytes_len_val(d, 2);
    } else if w == 4 {
        lemma_le_bytes_len_val(d, 4);
    } else if w == 8 {
        lemma_le_bytes_len_val(d, 8);
    } else if w == 16 {
        lemma_le_bytes_len_val(d, 16);
    } else {
        assert(w == 32);
        lemma_le_bytes_len_val(d, 32);
    }
}

/// Width and value of a little-endian byte string of an in-range number.
proof fn lemma_le_bytes_len_val(n: nat, len: nat)
    requires
        n < pow256(len),
    ensures
        le_bytes(n as int, len).len() == len,
        le_val(le_bytes(n as int, len)) == n,
{
    crate::bytes::lemma_le_bytes_len(n as int, len);
    crate::num::lemma_le_val_le_bytes(n, len);
}

/// What a document node reconstructs to. Errors surface left to right:
/// within a sequence its tag is judged first, then its elements in order;
/// within a mapping each entry's value in entry order.
pub open spec fn spec_reconstruct(n: NodeView) -> Result<ValueView, MalformedValueView>
    decreases n,
{
    match n {
        NodeView::Null => Ok(ValueView::Null),
        NodeView::Bool(b) => Ok(ValueView::Bool(b)),
        NodeView::Text(s) => spec_reconstruct_text(s),
        NodeView::Sequence(es) => if es.len() == 0 {
            Err(MalformedValueView::EmptySequence)
        } else {
            match es[0] {
                NodeView::Text(tag) => if tag == "vector"@ || tag == "list"@ {
                    match spec_reconstruct_elems(es.drop_first()) {
                        Ok(vs) => Ok(
                            if tag == "vector"@ {
                                ValueView::Vector(vs)
                            } else {
                                ValueView::List(vs)
                            },
                        ),
                        Err(e) => Err(e),
                    }
                } else {
                    Err(MalformedValueView::UnknownSequenceTag(tag))
                },
                _ => Err(MalformedValueView::UntaggedSequence),
            }
        },
        NodeView::Mapping(ms) => match spec_fold_entries(ms, Seq::empty()) {
            Ok(fs) => Ok(ValueView::Container(fs)),
            Err(e) => Err(e),
        },
    }
}

pub open spec fn spec_reconstruct_elems(s: Seq<NodeView>) -> Result<
    Seq<ValueView>,
    MalformedValueView,
>
    decreases s,
{
    if s.len() == 0 {
        Ok(Seq::empty())
    } else {
        match spec_reconstruct(s[0]) {
            Err(e) => Err(e),
            Ok(v) => match spec_reconstruct_elems(s.drop_first()) {
                Err(e) => Err(e),
                Ok(vs) => Ok(seq![v] + vs),
            },
        }
    }
}

/// Index of the first field named `k`, or -1 when there is none.
pub open spec fn find_key(fs: Seq<(Seq<char>, ValueView)>, k: Seq<char>) -> int
    decreases fs,
{
    if fs.len() == 0 {
        -1
    } else if fs[0].0 == k {
        0
    } else {
        let r = find_key(fs.drop_first(), k);
        if r < 0 {
            -1
        } else {
            1 + r
        }
    }
}

/// Insert-or-replace: a repeated field name keeps its first position and
/// takes the later value; a new name goes to the end.
pub open spec fn insert_field(
    fs: Seq<(Seq<char>, ValueView)>,
    k: Seq<char>,
    v: ValueView,
) -> Seq<(Seq<char>, ValueView)> {
    let i = find_key(fs, k);
    if i < 0 {
        fs.push((k, v))
    } else {
        fs.update(i, (k, v))
    }
}

pub open spec fn spec_fold_entries(
    s: Seq<(Seq<char>, NodeView)>,
    acc: Seq<(Seq<char>, ValueView)>,
) -> Result<Seq<(Seq<char>, ValueView)>, MalformedValueView>
    decreases s,
{
    if s.len() == 0 {
        Ok(acc)
    } else {
        match spec_reconstruct(s[0].1) {
            Err(e) => Err(e),
            Ok(v) => spec_fold_entries(s.drop_first(), insert_field(acc, s[0].0, v)),
        }
    }
}

pub proof fn lemma_find_key(fs: Seq<(Seq<char>, ValueView)>, k: Seq<char>)
    ensures
        find_key(fs, k) == -1 ==> (forall|j: int| 0 <= j < fs.len() ==> (#[trigger] fs[j]).0 != k),
        find_key(fs, k) >= 0 ==> 0 <= find_key(fs, k) < fs.len() && fs[find_key(fs, k)].0 == k && (
        forall|j: int| 0 <= j < find_key(fs, k) ==> (#[trigger] fs[j]).0 != k),
    decreases fs,
{
    if fs.len() > 0 && fs[0].0 != k {
        lemma_find_key(fs.drop_first(), k);
        assert(forall|j: int|
            1 <= j < fs.len() ==> (#[trigger] fs[j]) == fs.drop_first()[j - 1]);
    }
}

/// Reconstruction only builds well-formed values: 256-bit numbers carry
/// exactly 32 bytes, and every container's field names are distinct.
pub proof fn lemma_reconstruct_wf(n: NodeView)
    ensures
        spec_reconstruct(n) matches Ok(v) ==> crate::value::wf(v),
    decreases n,
{
    match n {
        NodeView::Text(s) => {
            if spec_reconstruct_text(s) is Ok && tagged_scalar(s) {
                let lit = s.subrange(0, first_colon(s) as int);
                crate::bytes::lemma_le_bytes_len(dec_val(lit) as int, 32);
            }
        },
        NodeView::Sequence(es) => {
            if es.len() > 0 {
                lemma_reconstruct_elems_wf(es.drop_first());
            }
        },
        NodeView::Mapping(ms) => {
            lemma_fold_entries_wf(ms, Seq::empty());
        },
        _ => {},
    }
}

proof fn lemma_reconstruct_elems_wf(s: Seq<NodeView>)
    ensures
        spec_reconstruct_elems(s) matches Ok(vs) ==> crate::value::all_wf(vs),
    decreases s,
{
    if s.len() > 0 {
        lemma_reconstruct_wf(s[0]);
        lemma_reconstruct_elems_wf(s.drop_first());
        match spec_reconstruct(s[0]) {
            Ok(v) => match spec_reconstruct_elems(s.drop_first()) {
                Ok(vs) => {
                    assert((seq![v] + vs)[0] == v);
                    assert((seq![v] + vs).drop_first() =~= vs);
                },
                _ => {},
            },
            _ => {},
        }
    }
}

proof fn lemma_fold_entries_wf(s: Seq<(Seq<char>, NodeView)>, acc: Seq<(Seq<char>, ValueView)>)
    requires
        crate::value::unique_keys(acc),
        crate::value::fields_wf(acc),
    ensures
        spec_fold_entries(s, acc) matches Ok(fs) ==> crate::value::unique_keys(fs)
            && crate::value::fields_wf(fs),
    decreases s,
{
    if s.len() > 0 {
        lemma_reconstruct_wf(s[0].1);
        match spec_reconstruct(s[0].1) {
            Ok(v) => {
                lemma_insert_field_preserves(acc, s[0].0, v);
                lemma_fold_entries_wf(s.drop_first(), insert_field(acc, s[0].0, v));
            },
            _ => {},
        }
    }
}

proof fn lemma_insert_field_preserves(fs: Seq<(Seq<char>, ValueView)>, k: Seq<char>, v: ValueView)
    requires
        crate::value::unique_keys(fs),
        crate::value::fields_wf(fs),
        crate::value::wf(v),
    ensures
        crate::value::unique_keys(insert_field(fs, k, v)),
        crate::value::fields_wf(insert_field(fs, k, v)),
{
    lemma_find_key(fs, k);
    let i = find_key(fs, k);
    if i < 0 {
        let out = fs.push((k, v));
        assert(forall|j: int| 0 <= j < fs.len() ==> (#[trigger] out[j]) == fs[j]);
        assert(out[fs.len() as int] == (k, v));
        lemma_fields_wf_push(fs, (k, v));
    } else {
        let out = fs.update(i, (k, v));
        assert(forall|j: int|
            0 <= j < fs.len() ==> (#[trigger] out[j]).0 == fs[j].0);
        lemma_fields_wf_update(fs, i, (k, v));
    }
}

proof fn lemma_fields_wf_push(s: Seq<(Seq<char>, ValueView)>, p: (Seq<char>, ValueView))
    requires
        crate::value::fields_wf(s),
        crate::value::wf(p.1),
    ensures
        crate::value::fields_wf(s.push(p)),
    decreases s,
{
    if s.len() == 0 {
        assert(s.push(p).drop_first() =~= s);
    } else {
        assert(s.push(p).drop_first() =~= s.drop_first().push(p));
        lemma_fields_wf_push(s.drop_first(), p);
    }
}

proof fn lemma_fields_wf_update(s: Seq<(Seq<char>, ValueView)>, i: int, p: (Seq<char>, ValueView))
    requires
        crate::value::fields_wf(s),
        crate::value::wf(p.1),
        0 <= i < s.len(),
    ensures
        crate::value::fields_wf(s.update(i, p)),
    decreases s,
{
    if i == 0 {
        assert(s.update(0, p)[0] == p);
        assert(s.update(0, p).drop_first() =~= s.drop_first());
    } else {
        assert(s.update(i, p)[0] == s[0]);
        assert(s.update(i, p).drop_first() =~= s.drop_first().update(i - 1, p));
        lemma_fields_wf_update(s.drop_first(), i - 1, p);
    }
}

/// The image of an exec reconstruction result at the view level.
pub open spec fn result_view(r: Result<SsztValue, MalformedValue>) -> Result<
    ValueView,
    MalformedValueView,
> {
    match r {
        Ok(v) => Ok(value_view(v)),
        Err(e) => Err(malformed_view(e)),
    }
}

pub open spec fn elems_result_view(r: Result<Vec<SsztValue>, MalformedValue>) -> Result<
    Seq<ValueView>,
    MalformedValueView,
> {
    match r {
        Ok(vs) => Ok(value_views(vs@)),
        Err(e) => Err(malformed_view(e)),
    }
}

pub open spec fn fields_result_view(r: Result<Vec<(String, SsztValue)>, MalformedValue>) -> Result<
    Seq<(Seq<char>, ValueView)>,
    MalformedValueView,
> {
    match r {
        Ok(fs) => Ok(field_views(fs@)),
        Err(e) => Err(malformed_view(e)),
    }
}

/// Reconstructs a document node, as `spec_reconstruct` says. A value that
/// comes back is well-formed: its containers' field names are distinct and
/// its 256-bit numbers carry exactly 32 bytes.
pub fn reconstruct(n: &DocNode) -> (r: Result<SsztValue, MalformedValue>)
    ensures
        result_view(r) == spec_reconstruct(n@),
        r matches Ok(v) ==> crate::value::wf(value_view(v)),
    decreases *n,
{
    proof {
        lemma_reconstruct_wf(n@);
    }
    match n {
        DocNode::Null => Ok(SsztValue::Null),
        DocNode::Bool(b) => Ok(SsztValue::Bool(*b)),
        DocNode::Text(s) => reconstruct_text(s),
        DocNode::Sequence(es) => {
            proof {
                lemma_node_views_len(es@);
            }
            if es.len() == 0 {
                return Err(MalformedValue::EmptySequence);
            }
            proof {
                lemma_node_views_index(es@, 0);
            }
            match &es[0] {
                DocNode::Text(tag) => {
                    let is_vector = *tag == "vector".to_owned();
                    let is_list = *tag == "list".to_owned();
                    if !is_vector && !is_list {
                        return Err(MalformedValue::UnknownSequenceTag(tag.clone()));
                    }
                    proof {
                        assert(node_views(es@).subrange(1, es@.len() as int) =~= node_views(
                            es@,
                        ).drop_first());
                    }
                    match reconstruct_elems(es, 1) {
                        Err(e) => Err(e),
                        Ok(vs) => {
                            if is_vector {
                                Ok(SsztValue::Vector(vs))
                            } else {
                                Ok(SsztValue::List(vs))
                            }
                        },
                    }
                },
                _ => Err(MalformedValue::UntaggedSequence),
            }
        },
        DocNode::Mapping(ms) => {
            proof {
                lemma_entry_views_len(ms@);
            }
            match reconstruct_entries(ms, 0, Vec::new()) {
                Err(e) => Err(e),
                Ok(fs) => {
                    proof {
                        assert(entry_views(ms@).subrange(0, ms@.len() as int) =~= entry_views(ms@));
                    }
                    Ok(SsztValue::Container(fs))
                },
            }
        },
    }
}

/// Reconstructs the elements of a tagged sequence from `start` on.
fn reconstruct_elems(es: &Vec<DocNode>, start: usize) -> (r: Result<Vec<SsztValue>, MalformedValue>)
    requires
        start <= es@.len(),
    ensures
        elems_result_view(r) == spec_reconstruct_elems(
            node_views(es@).subrange(start as int, es@.len() as int),
        ),
    decreases es@, es@.len() - start,
{
    proof {
        lemma_node_views_len(es@);
    }
    let ghost rest = node_views(es@).subrange(start as int, es@.len() as int);
    if start == es.len() {
        let out: Vec<SsztValue> = Vec::new();
        proof {
            assert(rest =~= Seq::<NodeView>::empty());
            assert(value_views(out@) =~= Seq::<ValueView>::empty());
        }
        return Ok(out);
    }
    proof {
        lemma_node_views_index(es@, start as int);
        assert(rest[0] == node_view(es@[start as int]));
        assert(rest.drop_first() =~= node_views(es@).subrange(
            start + 1 as int,
            es@.len() as int,
        ));
    }
    match reconstruct(&es[start]) {
        Err(e) => Err(e),
        Ok(v) => {
            match reconstruct_elems(es, start + 1) {
                Err(e) => Err(e),
                Ok(vs) => {
                    let ghost vs_snap = vs@;
                    let mut out = vs;
                    out.insert(0, v);
                    proof {
                        assert(out@ =~= seq![v] + vs_snap);
                        lemma_value_views_cons(v, vs_snap);
                    }
                    Ok(out)
                },
            }
        },
    }
}

/// Replaces the value of the first field named `k`, or appends a new field.
fn exec_insert_field(fs: Vec<(String, SsztValue)>, k: &String, v: SsztValue) -> (r: Vec<
    (String, SsztValue),
>)
    ensures
        field_views(r@) == insert_field(field_views(fs@), k@, value_view(v)),
{
    proof {
        lemma_field_views_len(fs@);
        lemma_find_key(field_views(fs@), k@);
    }
    let ghost fvs = field_views(fs@);
    let mut out = fs;
    let n = out.len();
    for i in 0..n
        invariant
            n == out@.len(),
            out@ == fs@,
            fvs == field_views(fs@),
            forall|j: int| 0 <= j < i ==> (#[trigger] fvs[j]).0 != k@,
            fvs.len() == fs@.len(),
    {
        proof {
            lemma_field_views_index(fs@, i as int);
            lemma_find_key(fvs, k@);
        }
        if out[i].0 == *k {
            let old_pair = out.remove(i);
            out.insert(i, (old_pair.0, v));
            proof {
                assert(find_key(fvs, k@) == i as int);
                assert(out@ =~= fs@.update(i as int, (fs@[i as int].0, v)));
                lemma_field_views_update(fs@, i as int, (fs@[i as int].0, v));
                assert(field_views(out@) =~= insert_field(fvs, k@, value_view(v)));
            }
            return out;
        }
    }
    let kc = k.clone();
    let ghost pushed = (kc, v);
    let ghost vv = value_view(v);
    out.push((kc, v));
    proof {
        assert(find_key(fvs, k@) == -1);
        lemma_field_views_push(fs@, pushed);
        assert(field_views(out@) =~= insert_field(fvs, k@, vv));
    }
    out
}

/// Reconstructs a mapping's entries from `start` on, folding them into the
/// accumulated field row.
fn reconstruct_entries(ms: &Vec<(String, DocNode)>, start: usize, acc: Vec<(String, SsztValue)>)
    -> (r: Result<Vec<(String, SsztValue)>, MalformedValue>)
    requires
        start <= ms@.len(),
    ensures
        fields_result_view(r) == spec_fold_entries(
            entry_views(ms@).subrange(start as int, ms@.len() as int),
            field_views(acc@),
        ),
    decreases ms@, ms@.len() - start,
{
    proof {
        lemma_entry_views_len(ms@);
    }
    let ghost rest = entry_views(ms@).subrange(start as int, ms@.len() as int);
    if start == ms.len() {
        proof {
            assert(rest =~= Seq::<(Seq<char>, NodeView)>::empty());
        }
        return Ok(acc);
    }
    proof {
        lemma_entry_views_index(ms@, start as int);
        assert(rest[0] == (ms@[start as int].0@, node_view(ms@[start as int].1)));
        assert(rest.drop_first() =~= entry_views(ms@).subrange(start + 1 as int, ms@.len() as int));
    }
    match reconstruct(&ms[start].1) {
        Err(e) => Err(e),
        Ok(v) => {
            let acc2 = exec_insert_field(acc, &ms[start].0, v);
            reconstruct_entries(ms, start + 1, acc2)
        },
    }
}

/// The characters of a string, in order.
fn chars_of(s: &str) -> (r: Vec<char>)
    ensures
        r@ == s@,
{
    let n = s.unicode_len();
    let mut out: Vec<char> = Vec::new();
    for i in 0..n
        invariant
            n == s@.len(),
            out@ == s@.subrange(0, i as int),
    {
        out.push(s.get_char(i));
        proof {
            assert(out@ =~= s@.subrange(0, i + 1 as int));
        }
    }
    proof {
        assert(s@.subrange(0, n as int) =~= s@);
    }
    out
}

/// The byte width a typename names, or 0 for an unknown one.
fn width_of(t: &str) -> (w: usize)
    ensures
        w as nat == tag_width(t@),
{
    let ts = t.to_owned();
    if ts == "u8".to_owned() {
        1
    } else if ts == "u16".to_owned() {
        2
    } else if ts == "u32".to_owned() {
        4
    } else if ts == "u64".to_owned() {
        8
    } else if ts == "u128".to_owned() {
        16
    } else if ts == "u256".to_owned() {
        32
    } else {
        0
    }
}

/// Reconstructs a text scalar, as `spec_reconstruct_text` says.
fn reconstruct_text(s: &String) -> (r: Result<SsztValue, MalformedValue>)
    ensures
        (r matches Ok(v) && spec_reconstruct_text(s@) matches Ok(w) && value_view(v) == w) || (
        r matches Err(e) && spec_reconstruct_text(s@) matches Err(e2) && malformed_view(e) == e2),
{
    let cs = chars_of(s.as_str());
    let n = cs.len();
    let mut count: usize = 0;
    let mut firstpos: Option<usize> = None;
    for i in 0..n
        invariant
            n == cs@.len(),
            cs@ == s@,
            count <= i,
            count == count_colons(cs@.subrange(0, i as int)),
            match firstpos {
                Option::None => first_colon(cs@.subrange(0, i as int)) == i,
                Option::Some(p) => p < i && first_colon(cs@.subrange(0, i as int)) == p
                    && cs@[p as int] == ':',
            },
    {
        let ghost prefix = cs@.subrange(0, i as int);
        let c = cs[i];
        proof {
            lemma_count_colons_push(prefix, c);
            lemma_first_colon_push(prefix, c);
            assert(cs@.subrange(0, i + 1 as int) =~= prefix.push(c));
        }
        if c == ':' {
            count = count + 1;
            if firstpos.is_none() {
                firstpos = Some(i);
            }
        }
    }
    proof {
        assert(cs@.subrange(0, n as int) =~= cs@);
    }
    let tagged: bool = match firstpos {
        Some(p) => count == 1 && 1 <= p && p + 1 < n,
        None => false,
    };
    proof {
        lemma_first_colon_le(cs@);
    }
    if !tagged {
        return Ok(SsztValue::String(s.clone()));
    }
    let p = match firstpos {
        Some(p) => p,
        None => 0,
    };
    let tag_str = s.as_str().substring_char(p + 1, n);
    let w = width_of(tag_str);
    proof {
        assert(tag_str@ == s@.subrange(p + 1 as int, s@.len() as int));
    }
    if w == 0 {
        return Err(MalformedValue::UnknownIntegerType(s.clone()));
    }
    let ghost lit = s@.subrange(0, p as int);
    if w == 32 {
        let lit_str = s.as_str().substring_char(0, p);
        match u256_from_dec(lit_str) {
            Some(b) => Ok(SsztValue::Number(SsztNumber::U256(b))),
            None => Err(MalformedValue::BadIntegerLiteral(s.clone())),
        }
    } else {
        proof {
            lemma_pow256_values();
            assert(cs@.subrange(0, p as int) == lit);
        }
        match parse_dec_u128(&cs, 0, p) {
            None => Err(MalformedValue::BadIntegerLiteral(s.clone())),
            Some(v) => {
                if w == 1 {
                    if v <= 0xff {
                        Ok(SsztValue::Number(SsztNumber::U8(v as u8)))
                    } else {
                        Err(MalformedValue::BadIntegerLiteral(s.clone()))
                    }
                } else if w == 2 {
                    if v <= 0xffff {
                        Ok(SsztValue::Number(SsztNumber::U16(v as u16)))
                    } else {
                        Err(MalformedValue::BadIntegerLiteral(s.clone()))
                    }
                } else if w == 4 {
                    if v <= 0xffff_ffff {
                        Ok(SsztValue::Number(SsztNumber::U32(v as u32)))
                    } else {
                        Err(MalformedValue::BadIntegerLiteral(s.clone()))
                    }
                } else if w == 8 {
                    if v <= 0xffff_ffff_ffff_ffff {
                        Ok(SsztValue::Number(SsztNumber::U64(v as u64)))
                    } else {
                        Err(MalformedValue::BadIntegerLiteral(s.clone()))
                    }
                } else {
                    Ok(SsztValue::Number(SsztNumber::U128(v)))
                }
            },
        }
    }
}

} // verus!
