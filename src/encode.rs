//! Value to bytes: a walk over the tree that writes the canonical form.
use vstd::prelude::*;

use crate::digits::{push_decimal, push_int_text};
use crate::value::{
    enc, enc_bytes, enc_entries, enc_int, enc_list, keys_ascending, lemma_wf_entries_index,
    lemma_wf_list_index, wf, wf_entries, wf_list, Value,
};

verus! {

/// Encodes a value to bytes.
pub fn encode(value: &Value) -> (r: Vec<u8>)
    requires
        wf(*value),
    ensures
        r@ == enc(*value),
{
    let mut output: Vec<u8> = Vec::new();
    encode_value(value, &mut output);
    assert(output@ =~= enc(*value));
    output
}

/// Appends the encoding of `value`.
pub fn encode_value(value: &Value, output: &mut Vec<u8>)
    requires
        wf(*value),
    ensures
        final(output)@ == old(output)@ + enc(*value),
    decreases value,
{
    match value {
        Value::Integer(n) => encode_integer(*n, output),
        Value::ByteString(bytes) => encode_byte_string(bytes.as_slice(), output),
        Value::List(items) => encode_list(items, output),
        Value::Dict(entries) => encode_dict(entries, output),
    }
}

/// Appends `i<n>e`.
pub fn encode_integer(n: i64, output: &mut Vec<u8>)
    ensures
        final(output)@ == old(output)@ + enc_int(n as int),
{
    output.push(105u8);
    push_int_text(n, output);
    output.push(101u8);
    assert(final(output)@ =~= old(output)@ + enc_int(n as int));
}

/// Appends `<len>:<bytes>`.
pub fn encode_byte_string(bytes: &[u8], output: &mut Vec<u8>)
    ensures
        final(output)@ == old(output)@ + enc_bytes(bytes@),
{
    push_decimal(bytes.len() as u64, output);
    output.push(58u8);
    let mut i: usize = 0;
    while i < bytes.len()
        invariant
            i <= bytes@.len(),
            output@ == old(output)@ + crate::digits::decimal(bytes@.len()) + seq![58u8]
                + bytes@.take(i as int),
        decreases bytes@.len() - i,
    {
        output.push(bytes[i]);
        i = i + 1;
        assert(bytes@.take(i as int) =~= bytes@.take(i - 1).push(bytes@[i - 1]));
    }
    assert(bytes@.take(i as int) =~= bytes@);
    assert(output@ =~= old(output)@ + enc_bytes(bytes@));
}

/// Appends `l<items>e`.
pub fn encode_list(items: &Vec<Value>, output: &mut Vec<u8>)
    requires
        wf_list(items@),
    ensures
        final(output)@ == old(output)@ + seq![108u8] + enc_list(items@) + seq![101u8],
    decreases items,
{
    output.push(108u8);
    let mut i: usize = 0;
    while i < items.len()
        invariant
            i <= items@.len(),
            wf_list(items@),
            output@ == old(output)@ + seq![108u8] + enc_list(items@.take(i as int)),
        decreases items@.len() - i,
    {
        proof {
            lemma_wf_list_index(items@, i as int);
        }
        encode_value(&items[i], output);
        proof {
            let t = items@.take(i + 1);
            assert(t.drop_last() =~= items@.take(i as int));
            assert(t.last() == items@[i as int]);
        }
        i = i + 1;
        assert(output@ =~= old(output)@ + seq![108u8] + enc_list(items@.take(i as int)));
    }
    assert(items@.take(i as int) =~= items@);
    output.push(101u8);
}

/// Appends `d<entries>e`, writing the entries in the order they stand.
pub fn encode_dict(entries: &Vec<(Vec<u8>, Value)>, output: &mut Vec<u8>)
    requires
        keys_ascending(entries@),
        wf_entries(entries@),
    ensures
        final(output)@ == old(output)@ + seq![100u8] + enc_entries(entries@) + seq![101u8],
    decreases entries,
{
    output.push(100u8);
    let mut i: usize = 0;
    while i < entries.len()
        invariant
            i <= entries@.len(),
            wf_entries(entries@),
            output@ == old(output)@ + seq![100u8] + enc_entries(entries@.take(i as int)),
        decreases entries@.len() - i,
    {
        let entry = &entries[i];
        encode_byte_string(entry.0.as_slice(), output);
        proof {
            lemma_wf_entries_index(entries@, i as int);
        }
        encode_value(&entry.1, output);
        proof {
            let t = entries@.take(i + 1);
            assert(t.drop_last() =~= entries@.take(i as int));
            assert(t.last() == entries@[i as int]);
        }
        i = i + 1;
        assert(output@ =~= old(output)@ + seq![100u8] + enc_entries(entries@.take(i as int)));
    }
    assert(entries@.take(i as int) =~= entries@);
    output.push(101u8);
}

} // verus!
