//! The four kinds of bencode value, their canonical byte form, and the byte
//! order that dictionary keys follow.
use vstd::prelude::*;

use crate::digits::{decimal, int_text};

verus! {

/// A bencode value.
#[derive(Debug, PartialEq, Eq)]
pub enum Value {
    /// Integer: `i<number>e`, e.g. `i42e`.
    Integer(i64),
    /// Byte string: `<length>:<data>`, e.g. `4:spam`.
    ByteString(Vec<u8>),
    /// List: `l<items>e`, e.g. `li1ei2ee`.
    List(Vec<Value>),
    /// Dictionary: `d<pairs>e`; entries stand in strictly ascending key order.
    Dict(Vec<(Vec<u8>, Value)>),
}

/// `a` sorts before `b`, comparing from byte `i` on: bytes compare as
/// unsigned numbers and a proper prefix sorts first.
pub open spec fn lex_lt_from(a: Seq<u8>, b: Seq<u8>, i: int) -> bool
    decreases a.len() - i,
{
    if i >= a.len() {
        i < b.len()
    } else if i >= b.len() {
        false
    } else if a[i] != b[i] {
        a[i] < b[i]
    } else {
        lex_lt_from(a, b, i + 1)
    }
}

/// Byte-lexicographic order.
pub open spec fn lex_lt(a: Seq<u8>, b: Seq<u8>) -> bool {
    lex_lt_from(a, b, 0)
}

/// Each key of `entries` is strictly smaller than the next one.
pub open spec fn keys_ascending(entries: Seq<(Vec<u8>, Value)>) -> bool {
    forall|i: int| 0 <= i < entries.len() - 1 ==> lex_lt(#[trigger] entries[i].0@, entries[i + 1].0@)
}

/// A legal value: every dictionary inside it has strictly ascending keys.
pub open spec fn wf(v: Value) -> bool
    decreases v,
{
    match v {
        Value::List(items) => wf_list(items@),
        Value::Dict(entries) => keys_ascending(entries@) && wf_entries(entries@),
        _ => true,
    }
}

pub open spec fn wf_list(items: Seq<Value>) -> bool
    decreases items,
{
    if items.len() == 0 {
        true
    } else {
        wf_list(items.drop_last()) && wf(items.last())
    }
}

pub open spec fn wf_entries(entries: Seq<(Vec<u8>, Value)>) -> bool
    decreases entries,
{
    if entries.len() == 0 {
        true
    } else {
        wf_entries(entries.drop_last()) && wf(entries.last().1)
    }
}

/// Every item of a legal list is legal.
pub proof fn lemma_wf_list_index(items: Seq<Value>, i: int)
    requires
        wf_list(items),
        0 <= i < items.len(),
    ensures
        wf(items[i]),
    decreases items.len(),
{
    if i < items.len() - 1 {
        assert(items.drop_last()[i] == items[i]);
        lemma_wf_list_index(items.drop_last(), i);
    }
}

/// Every value of a legal dictionary's entries is legal.
pub proof fn lemma_wf_entries_index(entries: Seq<(Vec<u8>, Value)>, i: int)
    requires
        wf_entries(entries),
        0 <= i < entries.len(),
    ensures
        wf(entries[i].1),
    decreases entries.len(),
{
    if i < entries.len() - 1 {
        assert(entries.drop_last()[i] == entries[i]);
        lemma_wf_entries_index(entries.drop_last(), i);
    }
}

/// Two values hold the same contents: the same kind, equal numbers or
/// bytes, and item by item (key by key) the same. This is equality of
/// contents, which `==` on `Vec` does not give in proofs.
pub open spec fn same_value(a: Value, b: Value) -> bool
    decreases a,
{
    match a {
        Value::Integer(n) => b matches Value::Integer(m) && n == m,
        Value::ByteString(x) => b matches Value::ByteString(y) && x@ == y@,
        Value::List(xs) => b matches Value::List(ys) && same_list(xs@, ys@),
        Value::Dict(xs) => b matches Value::Dict(ys) && same_entries(xs@, ys@),
    }
}

pub open spec fn same_list(a: Seq<Value>, b: Seq<Value>) -> bool
    decreases a,
{
    if a.len() == 0 {
        b.len() == 0
    } else {
        b.len() > 0 && same_value(a[0], b[0]) && same_list(a.drop_first(), b.drop_first())
    }
}

pub open spec fn same_entries(a: Seq<(Vec<u8>, Value)>, b: Seq<(Vec<u8>, Value)>) -> bool
    decreases a,
{
    if a.len() == 0 {
        b.len() == 0
    } else {
        &&& b.len() > 0
        &&& a[0].0@ == b[0].0@
        &&& same_value(a[0].1, b[0].1)
        &&& same_entries(a.drop_first(), b.drop_first())
    }
}

/// `i<n>e`
pub open spec fn enc_int(n: int) -> Seq<u8> {
    seq![105u8] + int_text(n) + seq![101u8]
}

/// `<len>:<bytes>`
pub open spec fn enc_bytes(b: Seq<u8>) -> Seq<u8> {
    decimal(b.len()) + seq![58u8] + b
}

/// The canonical encoding of a value.
pub open spec fn enc(v: Value) -> Seq<u8>
    decreases v,
{
    match v {
        Value::Integer(n) => enc_int(n as int),
        Value::ByteString(b) => enc_bytes(b@),
        Value::List(items) => seq![108u8] + enc_list(items@) + seq![101u8],
        Value::Dict(entries) => seq![100u8] + enc_entries(entries@) + seq![101u8],
    }
}

/// The encodings of the items, one after another.
pub open spec fn enc_list(items: Seq<Value>) -> Seq<u8>
    decreases items,
{
    if items.len() == 0 {
        Seq::empty()
    } else {
        enc_list(items.drop_last()) + enc(items.last())
    }
}

/// Each key's encoding followed by its value's, one entry after another.
pub open spec fn enc_entries(entries: Seq<(Vec<u8>, Value)>) -> Seq<u8>
    decreases entries,
{
    if entries.len() == 0 {
        Seq::empty()
    } else {
        enc_entries(entries.drop_last()) + enc_bytes(entries.last().0@) + enc(entries.last().1)
    }
}

/// Compares two byte strings in byte-lexicographic order.
pub fn lex_less(a: &[u8], b: &[u8]) -> (r: bool)
    ensures
        r == lex_lt(a@, b@),
{
    let mut i: usize = 0;
    while i < a.len() && i < b.len()
        invariant
            i <= a@.len(),
            i <= b@.len(),
            lex_lt(a@, b@) == lex_lt_from(a@, b@, i as int),
        decreases a@.len() - i,
    {
        if a[i] != b[i] {
            return a[i] < b[i];
        }
        i = i + 1;
    }
    i < b.len()
}

} // verus!
