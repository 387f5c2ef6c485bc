//! The push encoder of the typed layer: a byte sink that scalars and lists
//! are written to at once, and a staging area for dictionaries, whose
//! entries must come out in ascending key order whatever order they were
//! visited in.
use vstd::prelude::*;

use crate::decode::{data_start, read_byte_string, scan_bytes};
use crate::encode::{encode_byte_string, encode_integer};
use crate::error::{Error, Result};
use crate::value::{enc_bytes, enc_int, lex_less, lex_lt};

verus! {

/// A serializer for bencode data: the bytes written so far.
pub struct Serializer {
    output: Vec<u8>,
}

impl Serializer {
    /// The bytes written so far.
    pub closed spec fn output_view(&self) -> Seq<u8> {
        self.output@
    }

    /// Creates a serializer with nothing written.
    pub fn new() -> (r: Self)
        ensures
            r.output_view() == Seq::<u8>::empty(),
    {
        Serializer { output: Vec::new() }
    }

    /// The bytes written so far.
    pub fn output(&self) -> (r: &Vec<u8>)
        ensures
            r@ == self.output_view(),
    {
        &self.output
    }

    /// Gives up the serializer and returns what was written.
    pub fn into_bytes(self) -> (r: Vec<u8>)
        ensures
            r@ == self.output_view(),
    {
        self.output
    }

    /// Writes `i<v>e`.
    pub fn serialize_i64(&mut self, v: i64)
        ensures
            final(self).output_view() == old(self).output_view() + enc_int(v as int),
    {
        encode_integer(v, &mut self.output);
    }

    /// Writes a boolean as the integer 1 or 0.
    pub fn serialize_bool(&mut self, v: bool)
        ensures
            final(self).output_view() == old(self).output_view() + enc_int(
                if v {
                    1int
                } else {
                    0int
                },
            ),
    {
        self.serialize_i64(if v { 1 } else { 0 });
    }

    /// Writes `<len>:<bytes>`.
    pub fn serialize_bytes(&mut self, v: &[u8])
        ensures
            final(self).output_view() == old(self).output_view() + enc_bytes(v@),
    {
        encode_byte_string(v, &mut self.output);
    }

    /// Opens a list: its elements are written next, then `end_seq`.
    pub fn serialize_seq(&mut self)
        ensures
            final(self).output_view() == old(self).output_view().push(108u8),
    {
        self.output.push(108u8);
    }

    /// Closes a list.
    pub fn end_seq(&mut self)
        ensures
            final(self).output_view() == old(self).output_view().push(101u8),
    {
        self.output.push(101u8);
    }

    /// Opens a dictionary or a record: its entries are staged in the map
    /// returned, which `SortedMapSerializer::end` writes back here.
    pub fn serialize_map(&self) -> (r: SortedMapSerializer)
        ensures
            r.wf(),
            r.staged() == Seq::<(Seq<u8>, Seq<u8>)>::empty(),
            r.pending() is None,
    {
        SortedMapSerializer::new()
    }
}

/// The index of the first staged entry at or after `from` whose key is
/// greater than `key`, or the number of entries.
pub open spec fn first_greater(s: Seq<(Seq<u8>, Seq<u8>)>, key: Seq<u8>, from: int) -> int
    decreases s.len() - from,
{
    if from >= s.len() {
        s.len() as int
    } else if lex_lt(key, s[from].0) {
        from
    } else {
        first_greater(s, key, from + 1)
    }
}

/// Staging one entry: it goes after every entry whose key is not greater.
pub open spec fn stage(s: Seq<(Seq<u8>, Seq<u8>)>, key: Seq<u8>, value: Seq<u8>) -> Seq<
    (Seq<u8>, Seq<u8>),
> {
    s.insert(first_greater(s, key, 0), (key, value))
}

/// No key is smaller than the one before it.
pub open spec fn keys_sorted(s: Seq<(Seq<u8>, Seq<u8>)>) -> bool {
    forall|i: int| 0 <= i < s.len() - 1 ==> !lex_lt(s[i + 1].0, #[trigger] s[i].0)
}

/// Each entry's key, encoded as a byte string, followed by its value's
/// encoding, one entry after another.
pub open spec fn flatten(s: Seq<(Seq<u8>, Seq<u8>)>) -> Seq<u8>
    decreases s.len(),
{
    if s.len() == 0 {
        Seq::empty()
    } else {
        flatten(s.drop_last()) + enc_bytes(s.last().0) + s.last().1
    }
}

/// The key that a key's encoding holds, once `scan_bytes` accepted it.
pub open spec fn key_of(k: Seq<u8>) -> Seq<u8> {
    k.subrange(data_start(k, 0), k.len() as int)
}

pub open spec fn pair_view(e: (Vec<u8>, Vec<u8>)) -> (Seq<u8>, Seq<u8>) {
    (e.0@, e.1@)
}

proof fn lemma_lex_asym(a: Seq<u8>, b: Seq<u8>, i: int)
    requires
        0 <= i,
        crate::value::lex_lt_from(a, b, i),
    ensures
        !crate::value::lex_lt_from(b, a, i),
    decreases a.len() - i,
{
    if i < a.len() && i < b.len() && a[i] == b[i] {
        lemma_lex_asym(a, b, i + 1);
    }
}

proof fn lemma_lex_total(a: Seq<u8>, b: Seq<u8>, i: int)
    requires
        0 <= i <= a.len(),
        i <= b.len(),
        a.subrange(0, i) == b.subrange(0, i),
        !crate::value::lex_lt_from(a, b, i),
        !crate::value::lex_lt_from(b, a, i),
    ensures
        a == b,
    decreases a.len() - i,
{
    if i < a.len() && i < b.len() {
        assert(a.subrange(0, i + 1) =~= a.subrange(0, i).push(a[i]));
        assert(b.subrange(0, i + 1) =~= b.subrange(0, i).push(b[i]));
        lemma_lex_total(a, b, i + 1);
    } else {
        assert(a =~= a.subrange(0, i));
        assert(b =~= b.subrange(0, i));
    }
}

/// Byte-lexicographic order is asymmetric.
pub proof fn lemma_lex_lt_asymmetric(a: Seq<u8>, b: Seq<u8>)
    ensures
        lex_lt(a, b) ==> !lex_lt(b, a),
{
    if lex_lt(a, b) {
        lemma_lex_asym(a, b, 0);
    }
}

/// Byte-lexicographic order is total: of two different byte strings, one
/// is smaller.
pub proof fn lemma_lex_lt_total(a: Seq<u8>, b: Seq<u8>)
    ensures
        a != b ==> lex_lt(a, b) || lex_lt(b, a),
{
    if !lex_lt(a, b) && !lex_lt(b, a) {
        assert(a.subrange(0, 0) =~= b.subrange(0, 0));
        lemma_lex_total(a, b, 0);
    }
}

proof fn lemma_lex_trans_from(a: Seq<u8>, b: Seq<u8>, c: Seq<u8>, i: int)
    requires
        0 <= i,
        crate::value::lex_lt_from(a, b, i),
        crate::value::lex_lt_from(b, c, i),
    ensures
        crate::value::lex_lt_from(a, c, i),
    decreases a.len() - i,
{
    if i < a.len() && i < b.len() && i < c.len() && a[i] == b[i] && b[i] == c[i] {
        lemma_lex_trans_from(a, b, c, i + 1);
    }
}

/// Byte-lexicographic order is transitive.
pub proof fn lemma_lex_lt_transitive(a: Seq<u8>, b: Seq<u8>, c: Seq<u8>)
    ensures
        lex_lt(a, b) && lex_lt(b, c) ==> lex_lt(a, c),
{
    if lex_lt(a, b) && lex_lt(b, c) {
        lemma_lex_trans_from(a, b, c, 0);
    }
}

/// Staging the fields one after another, in the order given.
pub open spec fn stage_all(fields: Seq<(Seq<u8>, Seq<u8>)>) -> Seq<(Seq<u8>, Seq<u8>)>
    decreases fields.len(),
{
    if fields.len() == 0 {
        Seq::empty()
    } else {
        stage(stage_all(fields.drop_last()), fields.last().0, fields.last().1)
    }
}

/// No two entries share a key.
pub open spec fn distinct_keys(s: Seq<(Seq<u8>, Seq<u8>)>) -> bool {
    forall|i: int, j: int| 0 <= i < j < s.len() ==> s[i].0 != s[j].0
}

/// Every key is smaller than every key after it.
pub open spec fn strictly_sorted(s: Seq<(Seq<u8>, Seq<u8>)>) -> bool {
    forall|i: int, j: int| 0 <= i < j < s.len() ==> lex_lt(s[i].0, s[j].0)
}

proof fn lemma_first_greater(s: Seq<(Seq<u8>, Seq<u8>)>, k: Seq<u8>, from: int)
    requires
        0 <= from <= s.len(),
    ensures
        from <= first_greater(s, k, from) <= s.len(),
        forall|i: int| from <= i < first_greater(s, k, from) ==> !lex_lt(k, #[trigger] s[i].0),
        first_greater(s, k, from) < s.len() ==> lex_lt(k, s[first_greater(s, k, from)].0),
    decreases s.len() - from,
{
    if from < s.len() && !lex_lt(k, s[from].0) {
        lemma_first_greater(s, k, from + 1);
    }
}

proof fn lemma_stage_sorted(s: Seq<(Seq<u8>, Seq<u8>)>, k: Seq<u8>, v: Seq<u8>)
    requires
        strictly_sorted(s),
        forall|i: int| 0 <= i < s.len() ==> (#[trigger] s[i]).0 != k,
    ensures
        strictly_sorted(stage(s, k, v)),
        stage(s, k, v).len() == s.len() + 1,
        forall|y: (Seq<u8>, Seq<u8>)| stage(s, k, v).contains(y) <==> (s.contains(y) || y == (k, v)),
{
    let p = first_greater(s, k, 0);
    lemma_first_greater(s, k, 0);
    let x = (k, v);
    let n = stage(s, k, v);
    assert(n == s.insert(p, x));
    assert forall|i: int| 0 <= i < p implies lex_lt(#[trigger] s[i].0, k) by {
        lemma_lex_lt_total(s[i].0, k);
    }
    assert forall|i: int, j: int| 0 <= i < j < n.len() implies lex_lt(n[i].0, n[j].0) by {
        if j < p {
            assert(n[i] == s[i] && n[j] == s[j]);
        } else if j == p {
            assert(n[i] == s[i] && n[j] == x);
        } else if i < p {
            assert(n[i] == s[i] && n[j] == s[j - 1]);
            if p < j - 1 {
                assert(lex_lt(s[p].0, s[j - 1].0));
            }
            lemma_lex_lt_transitive(s[i].0, k, s[p].0);
            lemma_lex_lt_transitive(s[i].0, s[p].0, s[j - 1].0);
        } else if i == p {
            assert(n[i] == x && n[j] == s[j - 1]);
            if p < j - 1 {
                assert(lex_lt(s[p].0, s[j - 1].0));
                lemma_lex_lt_transitive(k, s[p].0, s[j - 1].0);
            }
        } else {
            assert(n[i] == s[i - 1] && n[j] == s[j - 1]);
        }
    }
    assert forall|y: (Seq<u8>, Seq<u8>)| n.contains(y) <==> (s.contains(y) || y == x) by {
        if n.contains(y) {
            let i = choose|i: int| 0 <= i < n.len() && n[i] == y;
            if i < p {
                assert(s[i] == y);
            } else if i > p {
                assert(s[i - 1] == y);
            }
        }
        if s.contains(y) {
            let i = choose|i: int| 0 <= i < s.len() && s[i] == y;
            if i < p {
                assert(n[i] == y);
            } else {
                assert(n[i + 1] == y);
            }
        }
        if y == x {
            assert(n[p] == y);
        }
    }
}

proof fn lemma_stage_all(f: Seq<(Seq<u8>, Seq<u8>)>)
    requires
        distinct_keys(f),
    ensures
        strictly_sorted(stage_all(f)),
        stage_all(f).len() == f.len(),
        forall|y: (Seq<u8>, Seq<u8>)| stage_all(f).contains(y) <==> f.contains(y),
    decreases f.len(),
{
    if f.len() > 0 {
        let d = f.drop_last();
        let x = f.last();
        assert(distinct_keys(d)) by {
            assert forall|i: int, j: int| 0 <= i < j < d.len() implies d[i].0 != d[j].0 by {
                assert(d[i] == f[i] && d[j] == f[j]);
            }
        }
        lemma_stage_all(d);
        let s = stage_all(d);
        assert forall|i: int| 0 <= i < s.len() implies (#[trigger] s[i]).0 != x.0 by {
            assert(s.contains(s[i]));
            assert(d.contains(s[i]));
            let j = choose|j: int| 0 <= j < d.len() && d[j] == s[i];
            assert(d[j] == f[j]);
            assert(f[j].0 != f[f.len() - 1].0);
        }
        lemma_stage_sorted(s, x.0, x.1);
        assert forall|y: (Seq<u8>, Seq<u8>)| stage_all(f).contains(y) <==> f.contains(y) by {
            if f.contains(y) {
                let j = choose|j: int| 0 <= j < f.len() && f[j] == y;
                if j < f.len() - 1 {
                    assert(d[j] == y);
                }
            }
            if d.contains(y) {
                let j = choose|j: int| 0 <= j < d.len() && d[j] == y;
                assert(f[j] == y);
            }
        }
    }
}

proof fn lemma_sorted_unique(r1: Seq<(Seq<u8>, Seq<u8>)>, r2: Seq<(Seq<u8>, Seq<u8>)>)
    requires
        strictly_sorted(r1),
        strictly_sorted(r2),
        r1.len() == r2.len(),
        forall|y: (Seq<u8>, Seq<u8>)| r1.contains(y) <==> r2.contains(y),
    ensures
        r1 == r2,
    decreases r1.len(),
{
    if r1.len() > 0 {
        assert(r1.contains(r1[0]));
        assert(r2.contains(r2[0]));
        let j = choose|j: int| 0 <= j < r2.len() && r2[j] == r1[0];
        let k = choose|k: int| 0 <= k < r1.len() && r1[k] == r2[0];
        if j > 0 {
            assert(lex_lt(r2[0].0, r2[j].0));
            if k > 0 {
                assert(lex_lt(r1[0].0, r1[k].0));
            }
            lemma_lex_lt_asymmetric(r2[0].0, r1[0].0);
        }
        assert(r1[0] == r2[0]);
        let t1 = r1.drop_first();
        let t2 = r2.drop_first();
        assert forall|y: (Seq<u8>, Seq<u8>)| t1.contains(y) <==> t2.contains(y) by {
            if t1.contains(y) {
                let a = choose|a: int| 0 <= a < t1.len() && t1[a] == y;
                assert(r1[a + 1] == y);
                assert(lex_lt(r1[0].0, r1[a + 1].0));
                lemma_lex_lt_asymmetric(r1[0].0, y.0);
                assert(r2.contains(y));
                let b = choose|b: int| 0 <= b < r2.len() && r2[b] == y;
                assert(b != 0);
                assert(t2[b - 1] == y);
            }
            if t2.contains(y) {
                let a = choose|a: int| 0 <= a < t2.len() && t2[a] == y;
                assert(r2[a + 1] == y);
                assert(lex_lt(r2[0].0, r2[a + 1].0));
                lemma_lex_lt_asymmetric(r2[0].0, y.0);
                assert(r1.contains(y));
                let b = choose|b: int| 0 <= b < r1.len() && r1[b] == y;
                assert(b != 0);
                assert(t1[b - 1] == y);
            }
        }
        assert forall|a: int, b: int| 0 <= a < b < t1.len() implies lex_lt(t1[a].0, t1[b].0) by {
            assert(t1[a] == r1[a + 1] && t1[b] == r1[b + 1]);
        }
        assert forall|a: int, b: int| 0 <= a < b < t2.len() implies lex_lt(t2[a].0, t2[b].0) by {
            assert(t2[a] == r2[a + 1] && t2[b] == r2[b + 1]);
        }
        lemma_sorted_unique(t1, t2);
        assert(r1 =~= seq![r1[0]] + t1);
        assert(r2 =~= seq![r2[0]] + t2);
    } else {
        assert(r1 =~= r2);
    }
}

/// Declaration order does not matter: fields with distinct keys, staged in
/// any two orders (the same fields, each once), leave the same entries in
/// the same order, and that order is ascending by key.
pub proof fn lemma_field_order_irrelevant(
    f1: Seq<(Seq<u8>, Seq<u8>)>,
    f2: Seq<(Seq<u8>, Seq<u8>)>,
)
    requires
        distinct_keys(f1),
        distinct_keys(f2),
        f1.len() == f2.len(),
        forall|y: (Seq<u8>, Seq<u8>)| f1.contains(y) <==> f2.contains(y),
    ensures
        stage_all(f1) == stage_all(f2),
        strictly_sorted(stage_all(f1)),
{
    lemma_stage_all(f1);
    lemma_stage_all(f2);
    assert forall|y: (Seq<u8>, Seq<u8>)| stage_all(f1).contains(y) <==> stage_all(f2).contains(
        y,
    ) by {
        assert(stage_all(f1).contains(y) <==> f1.contains(y));
        assert(stage_all(f2).contains(y) <==> f2.contains(y));
    }
    lemma_sorted_unique(stage_all(f1), stage_all(f2));
}

/// The entries of a dictionary being written: each one a key and its
/// value's encoding, kept in ascending key order, and the key whose value is
/// due next.
pub struct SortedMapSerializer {
    entries: Vec<(Vec<u8>, Vec<u8>)>,
    current_key: Option<Vec<u8>>,
}

impl SortedMapSerializer {
    /// The staged entries, in the order they will be written.
    pub closed spec fn staged(&self) -> Seq<(Seq<u8>, Seq<u8>)> {
        self.entries@.map_values(|e: (Vec<u8>, Vec<u8>)| pair_view(e))
    }

    /// The key given without its value yet.
    pub closed spec fn pending(&self) -> Option<Seq<u8>> {
        match self.current_key {
            Some(k) => Some(k@),
            None => None,
        }
    }

    /// The staged entries are in ascending key order.
    pub open spec fn wf(&self) -> bool {
        keys_sorted(self.staged())
    }

    fn new() -> (r: Self)
        ensures
            r.wf(),
            r.staged() == Seq::<(Seq<u8>, Seq<u8>)>::empty(),
            r.pending() is None,
    {
        let r = SortedMapSerializer { entries: Vec::new(), current_key: None };
        assert(r.staged() =~= Seq::<(Seq<u8>, Seq<u8>)>::empty());
        r
    }

    /// Whether a key waits for its value.
    pub fn has_pending_key(&self) -> (r: bool)
        ensures
            r == self.pending() is Some,
    {
        self.current_key.is_some()
    }

    /// Takes the encoding of the next key, which must be exactly one byte
    /// string. A key given while another waits for its value is an error.
    pub fn serialize_key(&mut self, key: Vec<u8>) -> (r: Result<()>)
        ensures
            final(self).staged() == old(self).staged(),
            old(self).pending() is Some ==> (r matches Err(Error::Message(m)) && m@
                == "serialize_key called twice"@) && final(self).pending() == old(self).pending(),
            old(self).pending() is None && scan_bytes(key@, 0) == Ok::<int, Error>(
                key@.len() as int,
            ) ==> r is Ok && final(self).pending() == Some(key_of(key@)),
            old(self).pending() is None && scan_bytes(key@, 0) != Ok::<int, Error>(
                key@.len() as int,
            ) ==> r == Err::<(), Error>(Error::InvalidDictKey) && final(self).pending() is None,
    {
        broadcast use vstd::string::to_string_from_display_ensures_for_str;
        if self.current_key.is_some() {
            return Err(Error::Message("serialize_key called twice".to_string()));
        }
        match read_byte_string(key.as_slice(), 0) {
            Ok((start, end)) => {
                if end != key.len() {
                    return Err(Error::InvalidDictKey);
                }
                let raw = vstd::slice::slice_to_vec(
                    vstd::slice::slice_subrange(key.as_slice(), start, end),
                );
                self.current_key = Some(raw);
                Ok(())
            },
            Err(_) => Err(Error::InvalidDictKey),
        }
    }

    /// Takes the encoding of the value for the pending key and stages the
    /// entry at its place in key order, after any equal keys. An empty
    /// encoding stands for an absent optional value: the entry is left out.
    /// A value with no pending key is an error.
    pub fn serialize_value(&mut self, value: Vec<u8>) -> (r: Result<()>)
        requires
            old(self).wf(),
        ensures
            final(self).wf(),
            old(self).pending() is None ==> (r matches Err(Error::Message(m)) && m@
                == "serialize_value called before serialize_key"@) && final(self).staged() == old(
                self,
            ).staged() && final(self).pending() is None,
            old(self).pending() matches Some(k) ==> {
                &&& r is Ok
                &&& final(self).pending() is None
                &&& value@.len() == 0 ==> final(self).staged() == old(self).staged()
                &&& value@.len() > 0 ==> final(self).staged() == stage(old(self).staged(), k, value@)
            },
    {
        broadcast use vstd::string::to_string_from_display_ensures_for_str;
        let key = match self.current_key.take() {
            None => {
                return Err(
                    Error::Message("serialize_value called before serialize_key".to_string()),
                );
            },
            Some(k) => k,
        };
        if value.len() == 0 {
            return Ok(());
        }
        self.insert_sorted(key, value);
        Ok(())
    }

    /// Stages an entry after every entry whose key is not greater.
    fn insert_sorted(&mut self, key: Vec<u8>, value: Vec<u8>)
        requires
            old(self).wf(),
        ensures
            final(self).wf(),
            final(self).pending() == old(self).pending(),
            final(self).staged() == stage(old(self).staged(), key@, value@),
    {
        let ghost s = self.staged();
        let mut j: usize = 0;
        while j < self.entries.len() && !lex_less(key.as_slice(), self.entries[j].0.as_slice())
            invariant
                j <= self.entries@.len(),
                s == self.staged(),
                s.len() == self.entries@.len(),
                first_greater(s, key@, 0) == first_greater(s, key@, j as int),
                j > 0 ==> !lex_lt(key@, s[j - 1].0),
            decreases self.entries@.len() - j,
        {
            assert(s[j as int] == pair_view(self.entries@[j as int]));
            j = j + 1;
        }
        proof {
            if j < s.len() {
                assert(s[j as int] == pair_view(self.entries@[j as int]));
                lemma_lex_lt_asymmetric(key@, s[j as int].0);
            }
        }
        let ghost x = (key@, value@);
        self.entries.insert(j, (key, value));
        proof {
            let n = self.staged();
            assert(n =~= s.insert(j as int, x));
            assert forall|i: int| 0 <= i < n.len() - 1 implies !lex_lt(
                n[i + 1].0,
                #[trigger] n[i].0,
            ) by {
                if i + 1 < j {
                    assert(n[i] == s[i] && n[i + 1] == s[i + 1]);
                } else if i + 1 == j {
                    assert(n[i] == s[i] && n[i + 1] == x);
                } else if i == j {
                    assert(n[i] == x && n[i + 1] == s[i]);
                } else {
                    assert(n[i] == s[i - 1] && n[i + 1] == s[i]);
                    assert(!lex_lt(s[(i - 1) + 1].0, s[i - 1].0));
                }
            }
        }
    }

    /// Visits one field of a record: its name as the key, then its value's
    /// encoding. An empty encoding leaves the field out, as in
    /// `serialize_value`.
    pub fn serialize_field(&mut self, key: &[u8], value: Vec<u8>) -> (r: Result<()>)
        requires
            old(self).wf(),
        ensures
            final(self).wf(),
            old(self).pending() is Some ==> (r matches Err(Error::Message(m)) && m@
                == "serialize_key called twice"@) && final(self).staged() == old(self).staged(),
            old(self).pending() is None ==> {
                &&& r is Ok
                &&& final(self).pending() is None
                &&& value@.len() == 0 ==> final(self).staged() == old(self).staged()
                &&& value@.len() > 0 ==> final(self).staged() == stage(
                    old(self).staged(),
                    key@,
                    value@,
                )
            },
    {
        broadcast use vstd::string::to_string_from_display_ensures_for_str;
        if self.current_key.is_some() {
            return Err(Error::Message("serialize_key called twice".to_string()));
        }
        self.current_key = Some(vstd::slice::slice_to_vec(key));
        self.serialize_value(value)
    }

    /// Closes the dictionary: writes `d`, every staged entry in key order
    /// (the key as a byte string, then the value), and `e`.
    pub fn end(self, ser: &mut Serializer)
        requires
            self.wf(),
        ensures
            final(ser).output_view() == old(ser).output_view() + seq![100u8] + flatten(
                self.staged(),
            ) + seq![101u8],
    {
        let ghost s = self.staged();
        ser.output.push(100u8);
        let mut i: usize = 0;
        assert(s.take(0) =~= Seq::<(Seq<u8>, Seq<u8>)>::empty());
        while i < self.entries.len()
            invariant
                i <= self.entries@.len(),
                s == self.staged(),
                s.len() == self.entries@.len(),
                ser.output@ == old(ser).output_view() + seq![100u8] + flatten(s.take(i as int)),
            decreases self.entries@.len() - i,
        {
            let entry = &self.entries[i];
            encode_byte_string(entry.0.as_slice(), &mut ser.output);
            let mut j: usize = 0;
            let ghost middle = ser.output@;
            while j < entry.1.len()
                invariant
                    j <= entry.1@.len(),
                    ser.output@ == middle + entry.1@.take(j as int),
                decreases entry.1@.len() - j,
            {
                ser.output.push(entry.1[j]);
                j = j + 1;
                assert(entry.1@.take(j as int) =~= entry.1@.take(j - 1).push(entry.1@[j - 1]));
            }
            assert(entry.1@.take(j as int) =~= entry.1@);
            proof {
                assert(s[i as int] == pair_view(self.entries@[i as int]));
                let t = s.take(i + 1);
                assert(t.drop_last() =~= s.take(i as int));
            }
            i = i + 1;
            assert(ser.output@ =~= old(ser).output_view() + seq![100u8] + flatten(s.take(i as int)));
        }
        assert(s.take(i as int) =~= s);
        ser.output.push(101u8);
    }
}

} // verus!
