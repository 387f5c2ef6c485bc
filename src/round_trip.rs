//! What this library writes, the grammar reads back whole: the encoding of a
//! legal value, and a dictionary written through the sorted-map serializer,
//! are accepted and end exactly where they were written to end.
use vstd::prelude::*;

use crate::decode::{data_start, digits_end, find_byte, scan_bytes, scan_dict, scan_int, scan_list, scan_value};
use crate::digits::{
    canonical_int_text, decimal, fits_i64, int_text, int_value, is_digit, lemma_decimal_canonical,
    lemma_int_text_canonical,
};
use crate::error::Error;
use crate::ser::flatten;
use crate::value::{
    enc, enc_bytes, enc_entries, enc_int, enc_list, keys_ascending, lex_lt, same_entries,
    same_list, same_value, wf, wf_entries, wf_list, Value,
};

verus! {

proof fn lemma_split(s: Seq<u8>, pos: int, a: Seq<u8>, b: Seq<u8>)
    requires
        0 <= pos,
        pos + a.len() + b.len() <= s.len(),
        s.subrange(pos, pos + a.len() + b.len()) == a + b,
    ensures
        s.subrange(pos, pos + a.len()) == a,
        s.subrange(pos + a.len(), pos + a.len() + b.len()) == b,
{
    let w = s.subrange(pos, pos + a.len() + b.len());
    assert forall|i: int| 0 <= i < a.len() implies s.subrange(pos, pos + a.len())[i] == a[i] by {
        assert(w[i] == (a + b)[i]);
    }
    assert forall|i: int| 0 <= i < b.len() implies s.subrange(
        pos + a.len(),
        pos + a.len() + b.len(),
    )[i] == b[i] by {
        assert(w[a.len() + i] == (a + b)[a.len() + i]);
    }
    assert(s.subrange(pos, pos + a.len()) =~= a);
    assert(s.subrange(pos + a.len(), pos + a.len() + b.len()) =~= b);
}

proof fn lemma_find_skip(s: Seq<u8>, from: int, to: int, b: u8)
    requires
        0 <= from <= to < s.len(),
        s[to] == b,
        forall|i: int| from <= i < to ==> s[i] != b,
    ensures
        find_byte(s, from, b) == to,
    decreases to - from,
{
    if from < to {
        lemma_find_skip(s, from + 1, to, b);
    }
}

proof fn lemma_digits_end_skip(s: Seq<u8>, from: int, to: int)
    requires
        0 <= from <= to < s.len(),
        !is_digit(s[to]),
        forall|i: int| from <= i < to ==> is_digit(s[i]),
    ensures
        digits_end(s, from) == to,
    decreases to - from,
{
    if from < to {
        lemma_digits_end_skip(s, from + 1, to);
    }
}

proof fn lemma_scan_int_enc(n: int, s: Seq<u8>, pos: int)
    requires
        fits_i64(n),
        0 <= pos,
        pos + enc_int(n).len() <= s.len(),
        s.subrange(pos, pos + enc_int(n).len()) == enc_int(n),
    ensures
        scan_int(s, pos) == Ok::<int, Error>(pos + enc_int(n).len()),
        s[pos] == 105,
{
    let t = int_text(n);
    lemma_int_text_canonical(n);
    let w = s.subrange(pos, pos + enc_int(n).len());
    assert(w[0] == s[pos]);
    assert(w[t.len() as int + 1] == s[pos + t.len() + 1]);
    assert forall|i: int| pos + 1 <= i < pos + 1 + t.len() implies s[i] != 101 by {
        assert(w[i - pos] == s[i]);
        assert(w[i - pos] == t[i - pos - 1]);
        if t[0] == 45 {
            if i - pos - 1 > 0 {
                assert(t.drop_first()[i - pos - 2] == t[i - pos - 1]);
            }
        }
    }
    lemma_find_skip(s, pos + 1, pos + 1 + t.len(), 101);
    assert(s.subrange(pos + 1, pos + 1 + t.len()) =~= t) by {
        assert forall|i: int| 0 <= i < t.len() implies s.subrange(pos + 1, pos + 1 + t.len())[i]
            == t[i] by {
            assert(w[i + 1] == s[pos + 1 + i]);
        }
    }
}

proof fn lemma_scan_bytes_enc(b: Seq<u8>, s: Seq<u8>, pos: int)
    requires
        0 <= pos,
        pos + enc_bytes(b).len() <= s.len(),
        s.subrange(pos, pos + enc_bytes(b).len()) == enc_bytes(b),
    ensures
        scan_bytes(s, pos) == Ok::<int, Error>(pos + enc_bytes(b).len()),
        data_start(s, pos) == pos + decimal(b.len()).len() + 1,
        s.subrange(data_start(s, pos), pos + enc_bytes(b).len()) == b,
        is_digit(s[pos]),
{
    let d = decimal(b.len());
    lemma_decimal_canonical(b.len());
    let w = s.subrange(pos, pos + enc_bytes(b).len());
    let k = pos + d.len();
    assert forall|i: int| pos <= i < k implies is_digit(s[i]) by {
        assert(w[i - pos] == s[i]);
        assert(w[i - pos] == d[i - pos]);
    }
    assert(w[d.len() as int] == s[k]);
    assert(w[0] == s[pos]);
    assert(w[0] == d[0]);
    lemma_digits_end_skip(s, pos, k);
    assert(s.subrange(pos, k) =~= d) by {
        assert forall|i: int| 0 <= i < d.len() implies s.subrange(pos, k)[i] == d[i] by {
            assert(w[i] == s[pos + i]);
        }
    }
    assert(s.subrange(k + 1, pos + enc_bytes(b).len()) =~= b) by {
        assert forall|i: int| 0 <= i < b.len() implies s.subrange(
            k + 1,
            pos + enc_bytes(b).len(),
        )[i] == b[i] by {
            assert(w[d.len() as int + 1 + i] == s[k + 1 + i]);
        }
    }
}

proof fn lemma_enc_list_front(items: Seq<Value>)
    requires
        items.len() > 0,
    ensures
        enc_list(items) == enc(items[0]) + enc_list(items.drop_first()),
        wf_list(items) ==> wf(items[0]) && wf_list(items.drop_first()),
    decreases items.len(),
{
    let x = items[0];
    if items.len() == 1 {
        assert(items.drop_first() =~= Seq::<Value>::empty());
        assert(items.drop_last() =~= Seq::<Value>::empty());
        assert(enc_list(Seq::<Value>::empty()) == Seq::<u8>::empty());
        assert(enc_list(items) =~= enc(x) + enc_list(items.drop_first()));
    } else {
        let d = items.drop_last();
        lemma_enc_list_front(d);
        assert(d[0] == x);
        assert(d.drop_first() =~= items.drop_first().drop_last());
        assert(items.drop_first().last() == items.last());
        assert(enc_list(items) =~= enc(x) + enc_list(items.drop_first()));
    }
}

proof fn lemma_enc_entries_front(entries: Seq<(Vec<u8>, Value)>)
    requires
        entries.len() > 0,
    ensures
        enc_entries(entries) == enc_bytes(entries[0].0@) + enc(entries[0].1) + enc_entries(
            entries.drop_first(),
        ),
        wf_entries(entries) ==> wf(entries[0].1) && wf_entries(entries.drop_first()),
    decreases entries.len(),
{
    let x = entries[0];
    if entries.len() == 1 {
        assert(entries.drop_first() =~= Seq::<(Vec<u8>, Value)>::empty());
        assert(entries.drop_last() =~= Seq::<(Vec<u8>, Value)>::empty());
        assert(enc_entries(Seq::<(Vec<u8>, Value)>::empty()) == Seq::<u8>::empty());
        assert(enc_entries(entries) =~= enc_bytes(x.0@) + enc(x.1) + enc_entries(
            entries.drop_first(),
        ));
    } else {
        let d = entries.drop_last();
        lemma_enc_entries_front(d);
        assert(d[0] == x);
        assert(d.drop_first() =~= entries.drop_first().drop_last());
        assert(entries.drop_first().last() == entries.last());
        assert(enc_entries(entries) =~= enc_bytes(x.0@) + enc(x.1) + enc_entries(
            entries.drop_first(),
        ));
    }
}

/// Wherever the encoding of a legal value stands in a byte sequence, the
/// grammar reads that value and stops right after it.
pub proof fn lemma_scan_enc(v: Value, s: Seq<u8>, pos: int)
    requires
        wf(v),
        0 <= pos,
        pos + enc(v).len() <= s.len(),
        s.subrange(pos, pos + enc(v).len()) == enc(v),
    ensures
        scan_value(s, pos) == Ok::<int, Error>(pos + enc(v).len()),
        enc(v).len() > 0,
        s[pos] != 101,
        v is Integer ==> s[pos] == 105,
        v is ByteString ==> is_digit(s[pos]),
        v is List ==> s[pos] == 108,
        v is Dict ==> s[pos] == 100,
    decreases v, 0int,
{
    match v {
        Value::Integer(n) => {
            lemma_scan_int_enc(n as int, s, pos);
        },
        Value::ByteString(b) => {
            lemma_scan_bytes_enc(b@, s, pos);
        },
        Value::List(items) => {
            let body = enc_list(items@);
            assert(enc(v) =~= seq![108u8] + (body + seq![101u8]));
            lemma_split(s, pos, seq![108u8], body + seq![101u8]);
            assert(s.subrange(pos, pos + 1)[0] == s[pos]);
            lemma_scan_list(items@, s, pos + 1);
        },
        Value::Dict(entries) => {
            let body = enc_entries(entries@);
            assert(enc(v) =~= seq![100u8] + (body + seq![101u8]));
            lemma_split(s, pos, seq![100u8], body + seq![101u8]);
            assert(s.subrange(pos, pos + 1)[0] == s[pos]);
            lemma_scan_dict(entries@, s, pos + 1, None);
        },
    }
}

proof fn lemma_scan_list(items: Seq<Value>, s: Seq<u8>, p: int)
    requires
        wf_list(items),
        0 <= p,
        p + enc_list(items).len() + 1 <= s.len(),
        s.subrange(p, p + enc_list(items).len() + 1) == enc_list(items) + seq![101u8],
    ensures
        scan_list(s, p) == Ok::<int, Error>(p + enc_list(items).len() + 1),
    decreases items, 1int,
{
    let w = s.subrange(p, p + enc_list(items).len() + 1);
    if items.len() == 0 {
        assert(enc_list(items).len() == 0);
        assert(w[0] == s[p]);
    } else {
        lemma_enc_list_front(items);
        let x = items[0];
        let rest = items.drop_first();
        assert(enc_list(items) + seq![101u8] =~= enc(x) + (enc_list(rest) + seq![101u8]));
        lemma_split(s, p, enc(x), enc_list(rest) + seq![101u8]);
        lemma_scan_enc(x, s, p);
        lemma_scan_list(rest, s, p + enc(x).len());
    }
}

proof fn lemma_scan_dict(
    entries: Seq<(Vec<u8>, Value)>,
    s: Seq<u8>,
    p: int,
    prev: Option<Seq<u8>>,
)
    requires
        wf_entries(entries),
        keys_ascending(entries),
        entries.len() > 0 ==> (prev matches Some(k) ==> lex_lt(k, entries[0].0@)),
        0 <= p,
        p + enc_entries(entries).len() + 1 <= s.len(),
        s.subrange(p, p + enc_entries(entries).len() + 1) == enc_entries(entries) + seq![101u8],
    ensures
        scan_dict(s, p, prev) == Ok::<int, Error>(p + enc_entries(entries).len() + 1),
    decreases entries, 1int,
{
    let w = s.subrange(p, p + enc_entries(entries).len() + 1);
    if entries.len() == 0 {
        assert(enc_entries(entries).len() == 0);
        assert(w[0] == s[p]);
    } else {
        lemma_enc_entries_front(entries);
        let x = entries[0];
        let rest = entries.drop_first();
        let kb = enc_bytes(x.0@);
        let tail = enc(x.1) + (enc_entries(rest) + seq![101u8]);
        assert(enc_entries(entries) + seq![101u8] =~= kb + tail);
        lemma_split(s, p, kb, tail);
        lemma_scan_bytes_enc(x.0@, s, p);
        let q = p + kb.len();
        lemma_split(s, q, enc(x.1), enc_entries(rest) + seq![101u8]);
        lemma_scan_enc(x.1, s, q);
        assert(keys_ascending(rest)) by {
            assert forall|i: int| 0 <= i < rest.len() - 1 implies lex_lt(
                #[trigger] rest[i].0@,
                rest[i + 1].0@,
            ) by {
                assert(rest[i] == entries[i + 1] && rest[i + 1] == entries[i + 2]);
            }
        }
        if rest.len() > 0 {
            assert(rest[0] == entries[1]);
        }
        lemma_scan_dict(rest, s, q + enc(x.1).len(), Some(x.0@));
    }
}

proof fn lemma_flatten_front(s: Seq<(Seq<u8>, Seq<u8>)>)
    requires
        s.len() > 0,
    ensures
        flatten(s) == enc_bytes(s[0].0) + s[0].1 + flatten(s.drop_first()),
    decreases s.len(),
{
    let x = s[0];
    if s.len() == 1 {
        assert(s.drop_first() =~= Seq::<(Seq<u8>, Seq<u8>)>::empty());
        assert(s.drop_last() =~= Seq::<(Seq<u8>, Seq<u8>)>::empty());
        assert(flatten(Seq::<(Seq<u8>, Seq<u8>)>::empty()) == Seq::<u8>::empty());
        assert(flatten(s) =~= enc_bytes(x.0) + x.1 + flatten(s.drop_first()));
    } else {
        let d = s.drop_last();
        lemma_flatten_front(d);
        assert(d[0] == x);
        assert(d.drop_first() =~= s.drop_first().drop_last());
        assert(s.drop_first().last() == s.last());
        assert(flatten(s) =~= enc_bytes(x.0) + x.1 + flatten(s.drop_first()));
    }
}

/// Entries whose keys strictly ascend and whose values are encodings of
/// legal values.
pub open spec fn legal_entries(s: Seq<(Seq<u8>, Seq<u8>)>, values: Seq<Value>) -> bool {
    &&& s.len() == values.len()
    &&& forall|i: int| 0 <= i < s.len() - 1 ==> lex_lt(#[trigger] s[i].0, s[i + 1].0)
    &&& forall|i: int| 0 <= i < s.len() ==> wf(#[trigger] values[i]) && s[i].1 == enc(values[i])
}

proof fn lemma_scan_staged(
    s: Seq<(Seq<u8>, Seq<u8>)>,
    values: Seq<Value>,
    buf: Seq<u8>,
    p: int,
    prev: Option<Seq<u8>>,
)
    requires
        legal_entries(s, values),
        s.len() > 0 ==> (prev matches Some(k) ==> lex_lt(k, s[0].0)),
        0 <= p,
        p + flatten(s).len() + 1 <= buf.len(),
        buf.subrange(p, p + flatten(s).len() + 1) == flatten(s) + seq![101u8],
    ensures
        scan_dict(buf, p, prev) == Ok::<int, Error>(p + flatten(s).len() + 1),
    decreases s.len(),
{
    let w = buf.subrange(p, p + flatten(s).len() + 1);
    if s.len() == 0 {
        assert(flatten(s).len() == 0);
        assert(w[0] == buf[p]);
    } else {
        lemma_flatten_front(s);
        let x = s[0];
        let rest = s.drop_first();
        let kb = enc_bytes(x.0);
        let tail = x.1 + (flatten(rest) + seq![101u8]);
        assert(flatten(s) + seq![101u8] =~= kb + tail);
        lemma_split(buf, p, kb, tail);
        lemma_scan_bytes_enc(x.0, buf, p);
        let q = p + kb.len();
        lemma_split(buf, q, x.1, flatten(rest) + seq![101u8]);
        assert(wf(values[0]) && x.1 == enc(values[0]));
        lemma_scan_enc(values[0], buf, q);
        let vr = values.drop_first();
        assert(legal_entries(rest, vr)) by {
            assert forall|i: int| 0 <= i < rest.len() - 1 implies lex_lt(
                #[trigger] rest[i].0,
                rest[i + 1].0,
            ) by {
                assert(rest[i] == s[i + 1] && rest[i + 1] == s[i + 2]);
            }
            assert forall|i: int| 0 <= i < rest.len() implies wf(#[trigger] vr[i]) && rest[i].1
                == enc(vr[i]) by {
                assert(rest[i] == s[i + 1] && vr[i] == values[i + 1]);
            }
        }
        if rest.len() > 0 {
            assert(rest[0] == s[1]);
        }
        lemma_scan_staged(rest, vr, buf, q + x.1.len(), Some(x.0));
    }
}

/// The typed path agrees with the raw grammar: what a sorted-map
/// serializer writes for entries with distinct keys and legal values is a
/// dictionary that the strict decoder accepts whole, keys and all.
pub proof fn lemma_staged_dict_decodes(s: Seq<(Seq<u8>, Seq<u8>)>, values: Seq<Value>)
    requires
        legal_entries(s, values),
    ensures
        scan_value(seq![100u8] + flatten(s) + seq![101u8], 0) == Ok::<int, Error>(
            flatten(s).len() as int + 2,
        ),
{
    let buf = seq![100u8] + flatten(s) + seq![101u8];
    assert(buf.subrange(1, flatten(s).len() as int + 2) =~= flatten(s) + seq![101u8]);
    lemma_scan_staged(s, values, buf, 1, None);
}

/// Two legal values whose encodings stand at the same place in a byte
/// sequence are the same value, and their encodings have the same length.
proof fn lemma_enc_unique(a: Value, b: Value, s: Seq<u8>, pos: int)
    requires
        wf(a),
        wf(b),
        0 <= pos,
        pos + enc(a).len() <= s.len(),
        pos + enc(b).len() <= s.len(),
        s.subrange(pos, pos + enc(a).len()) == enc(a),
        s.subrange(pos, pos + enc(b).len()) == enc(b),
    ensures
        same_value(a, b),
        enc(a).len() == enc(b).len(),
    decreases a, 0int,
{
    lemma_scan_enc(a, s, pos);
    lemma_scan_enc(b, s, pos);
    match a {
        Value::Integer(n) => {
            if let Value::Integer(m) = b {
                let ea = enc(a);
                assert(int_text(n as int) =~= ea.subrange(1, ea.len() - 1));
                assert(int_text(m as int) =~= ea.subrange(1, ea.len() - 1));
                lemma_int_text_canonical(n as int);
                lemma_int_text_canonical(m as int);
            }
        },
        Value::ByteString(x) => {
            if let Value::ByteString(y) = b {
                lemma_scan_bytes_enc(x@, s, pos);
                lemma_scan_bytes_enc(y@, s, pos);
            }
        },
        Value::List(xs) => {
            if let Value::List(ys) = b {
                let bx = enc_list(xs@);
                let by = enc_list(ys@);
                assert(enc(a) =~= seq![108u8] + (bx + seq![101u8]));
                assert(enc(b) =~= seq![108u8] + (by + seq![101u8]));
                lemma_split(s, pos, seq![108u8], bx + seq![101u8]);
                lemma_split(s, pos, seq![108u8], by + seq![101u8]);
                lemma_list_unique(xs@, ys@, s, pos + 1);
            }
        },
        Value::Dict(xs) => {
            if let Value::Dict(ys) = b {
                let bx = enc_entries(xs@);
                let by = enc_entries(ys@);
                assert(enc(a) =~= seq![100u8] + (bx + seq![101u8]));
                assert(enc(b) =~= seq![100u8] + (by + seq![101u8]));
                lemma_split(s, pos, seq![100u8], bx + seq![101u8]);
                lemma_split(s, pos, seq![100u8], by + seq![101u8]);
                lemma_entries_unique(xs@, ys@, s, pos + 1);
            }
        },
    }
}

proof fn lemma_list_unique(xs: Seq<Value>, ys: Seq<Value>, s: Seq<u8>, p: int)
    requires
        wf_list(xs),
        wf_list(ys),
        0 <= p,
        p + enc_list(xs).len() + 1 <= s.len(),
        p + enc_list(ys).len() + 1 <= s.len(),
        s.subrange(p, p + enc_list(xs).len() + 1) == enc_list(xs) + seq![101u8],
        s.subrange(p, p + enc_list(ys).len() + 1) == enc_list(ys) + seq![101u8],
    ensures
        same_list(xs, ys),
        enc_list(xs).len() == enc_list(ys).len(),
    decreases xs, 1int,
{
    let wx = s.subrange(p, p + enc_list(xs).len() + 1);
    let wy = s.subrange(p, p + enc_list(ys).len() + 1);
    if xs.len() > 0 {
        lemma_enc_list_front(xs);
        assert(enc_list(xs) + seq![101u8] =~= enc(xs[0]) + (enc_list(xs.drop_first()) + seq![101u8]));
        lemma_split(s, p, enc(xs[0]), enc_list(xs.drop_first()) + seq![101u8]);
        lemma_scan_enc(xs[0], s, p);
    } else {
        assert(wx[0] == s[p]);
    }
    if ys.len() > 0 {
        lemma_enc_list_front(ys);
        assert(enc_list(ys) + seq![101u8] =~= enc(ys[0]) + (enc_list(ys.drop_first()) + seq![101u8]));
        lemma_split(s, p, enc(ys[0]), enc_list(ys.drop_first()) + seq![101u8]);
        lemma_scan_enc(ys[0], s, p);
    } else {
        assert(wy[0] == s[p]);
    }
    if xs.len() > 0 && ys.len() > 0 {
        lemma_enc_unique(xs[0], ys[0], s, p);
        lemma_list_unique(xs.drop_first(), ys.drop_first(), s, p + enc(xs[0]).len());
    }
}

proof fn lemma_entries_unique(
    xs: Seq<(Vec<u8>, Value)>,
    ys: Seq<(Vec<u8>, Value)>,
    s: Seq<u8>,
    p: int,
)
    requires
        wf_entries(xs),
        wf_entries(ys),
        0 <= p,
        p + enc_entries(xs).len() + 1 <= s.len(),
        p + enc_entries(ys).len() + 1 <= s.len(),
        s.subrange(p, p + enc_entries(xs).len() + 1) == enc_entries(xs) + seq![101u8],
        s.subrange(p, p + enc_entries(ys).len() + 1) == enc_entries(ys) + seq![101u8],
    ensures
        same_entries(xs, ys),
        enc_entries(xs).len() == enc_entries(ys).len(),
    decreases xs, 1int,
{
    let wx = s.subrange(p, p + enc_entries(xs).len() + 1);
    let wy = s.subrange(p, p + enc_entries(ys).len() + 1);
    if xs.len() > 0 {
        lemma_enc_entries_front(xs);
        let x = xs[0];
        let tail = enc(x.1) + (enc_entries(xs.drop_first()) + seq![101u8]);
        assert(enc_entries(xs) + seq![101u8] =~= enc_bytes(x.0@) + tail);
        lemma_split(s, p, enc_bytes(x.0@), tail);
        lemma_scan_bytes_enc(x.0@, s, p);
        lemma_split(s, p + enc_bytes(x.0@).len(), enc(x.1), enc_entries(xs.drop_first()) + seq![101u8]);
    } else {
        assert(wx[0] == s[p]);
    }
    if ys.len() > 0 {
        lemma_enc_entries_front(ys);
        let y = ys[0];
        let tail = enc(y.1) + (enc_entries(ys.drop_first()) + seq![101u8]);
        assert(enc_entries(ys) + seq![101u8] =~= enc_bytes(y.0@) + tail);
        lemma_split(s, p, enc_bytes(y.0@), tail);
        lemma_scan_bytes_enc(y.0@, s, p);
        lemma_split(s, p + enc_bytes(y.0@).len(), enc(y.1), enc_entries(ys.drop_first()) + seq![101u8]);
    } else {
        assert(wy[0] == s[p]);
    }
    if xs.len() > 0 && ys.len() > 0 {
        let q = p + enc_bytes(xs[0].0@).len();
        lemma_enc_unique(xs[0].1, ys[0].1, s, q);
        lemma_entries_unique(xs.drop_first(), ys.drop_first(), s, q + enc(xs[0].1).len());
    }
}

/// Encoding is one to one on legal values: two legal values with the same
/// encoding hold the same contents. With `lemma_round_trip` and the
/// contract of `decode`, decoding `encode(v)` gives back `v`.
pub proof fn lemma_encoding_injective(v: Value, w: Value)
    requires
        wf(v),
        wf(w),
        enc(v) == enc(w),
    ensures
        same_value(v, w),
{
    assert(enc(v).subrange(0, enc(v).len() as int) =~= enc(v));
    lemma_enc_unique(v, w, enc(v), 0);
}

/// Round trip: the encoding of every legal value is accepted by the
/// grammar, and reading it consumes the whole buffer. With the contract of
/// `decode`, decoding `encode(v)` succeeds, uses every byte, and gives back
/// a legal value whose encoding is `encode(v)`.
pub proof fn lemma_round_trip(v: Value)
    requires
        wf(v),
    ensures
        scan_value(enc(v), 0) == Ok::<int, Error>(enc(v).len() as int),
{
    assert(enc(v).subrange(0, enc(v).len() as int) =~= enc(v));
    lemma_scan_enc(v, enc(v), 0);
}

/// Canonical integers: the spelling that encoding gives an integer has no
/// leading zero and no `-0`, and denotes that integer.
pub proof fn lemma_canonical_integers(n: int)
    ensures
        canonical_int_text(int_text(n)),
        int_value(int_text(n)) == n,
{
    lemma_int_text_canonical(n);
}

} // verus!
