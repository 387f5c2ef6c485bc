//! Bytes to value. The spec functions below state the grammar: where each
//! value ends, or which error stops it. The decoder follows them and builds
//! the value whose encoding is exactly the bytes it consumed.
use vstd::prelude::*;

use crate::digits::{
    canonical_digits, digits_value, int_text, int_value, is_digit, valid_int_text,
    lemma_canonical_is_decimal, lemma_canonical_is_int_text,
};
use crate::error::{Error, Result};
use crate::value::{
    enc, enc_bytes, enc_entries, enc_list, keys_ascending, lex_less, lex_lt, wf, wf_entries,
    wf_list, Value,
};

verus! {

/// The first index at or after `from` that holds `b`, or the length of `s`.
pub open spec fn find_byte(s: Seq<u8>, from: int, b: u8) -> int
    decreases s.len() - from,
{
    if from >= s.len() {
        s.len() as int
    } else if s[from] == b {
        from
    } else {
        find_byte(s, from + 1, b)
    }
}

/// The first index at or after `from` that holds no digit, or the length.
pub open spec fn digits_end(s: Seq<u8>, from: int) -> int
    decreases s.len() - from,
{
    if from >= s.len() {
        s.len() as int
    } else if !is_digit(s[from]) {
        from
    } else {
        digits_end(s, from + 1)
    }
}

/// Where the integer that starts at `pos` ends (just past its `e`).
pub open spec fn scan_int(s: Seq<u8>, pos: int) -> Result<int> {
    if pos >= s.len() {
        Err(Error::UnexpectedEof)
    } else if s[pos] != 105 {
        Err(Error::InvalidCharacter(s[pos]))
    } else {
        let k = find_byte(s, pos + 1, 101);
        if k >= s.len() {
            Err(Error::UnexpectedEof)
        } else if valid_int_text(s.subrange(pos + 1, k)) {
            Ok(k + 1)
        } else {
            Err(Error::InvalidInteger)
        }
    }
}

/// The number that the integer at `pos` holds, once `scan_int` accepted it.
pub open spec fn int_at(s: Seq<u8>, pos: int) -> int {
    int_value(s.subrange(pos + 1, find_byte(s, pos + 1, 101)))
}

/// Where the data of the byte string at `pos` starts (just past its `:`).
pub open spec fn data_start(s: Seq<u8>, pos: int) -> int {
    digits_end(s, pos) + 1
}

/// Where the byte string that starts at `pos` ends.
pub open spec fn scan_bytes(s: Seq<u8>, pos: int) -> Result<int> {
    let k = digits_end(s, pos);
    if k >= s.len() {
        Err(Error::UnexpectedEof)
    } else if s[k] != 58 {
        Err(Error::InvalidCharacter(s[k]))
    } else if k == pos {
        Err(Error::InvalidCharacter(0))
    } else if k > pos + 1 && s[pos] == 48 {
        Err(Error::InvalidCharacter(48))
    } else if digits_value(s.subrange(pos, k)) > s.len() - (k + 1) {
        Err(Error::UnexpectedEof)
    } else {
        Ok(k + 1 + digits_value(s.subrange(pos, k)))
    }
}

/// Where the value that starts at `pos` ends.
pub open spec fn scan_value(s: Seq<u8>, pos: int) -> Result<int>
    decreases s.len() - pos, 0int,
{
    if pos < 0 || pos >= s.len() {
        Err(Error::UnexpectedEof)
    } else if s[pos] == 105 {
        scan_int(s, pos)
    } else if s[pos] == 108 {
        scan_list(s, pos + 1)
    } else if s[pos] == 100 {
        scan_dict(s, pos + 1, None)
    } else if is_digit(s[pos]) {
        scan_bytes(s, pos)
    } else {
        Err(Error::InvalidCharacter(s[pos]))
    }
}

/// Where the list whose items start at `p` ends (just past its `e`). A value
/// always ends after it starts and within the input, so the branches that
/// guard against anything else are never taken.
pub open spec fn scan_list(s: Seq<u8>, p: int) -> Result<int>
    decreases s.len() - p, 1int,
{
    if p < 0 || p >= s.len() {
        Err(Error::UnexpectedEof)
    } else if s[p] == 101 {
        Ok(p + 1)
    } else {
        match scan_value(s, p) {
            Err(e) => Err(e),
            Ok(q) => if p < q <= s.len() {
                scan_list(s, q)
            } else {
                Err(Error::UnexpectedEof)
            },
        }
    }
}

/// Where the dictionary whose entries start at `p` ends; `prev` is the key
/// of the entry before, which the next key must exceed. As in `scan_list`,
/// the branches that guard the positions are never taken.
pub open spec fn scan_dict(s: Seq<u8>, p: int, prev: Option<Seq<u8>>) -> Result<int>
    decreases s.len() - p, 1int,
{
    if p < 0 || p >= s.len() {
        Err(Error::UnexpectedEof)
    } else if s[p] == 101 {
        Ok(p + 1)
    } else if !is_digit(s[p]) {
        Err(Error::InvalidDictKey)
    } else {
        match scan_bytes(s, p) {
            Err(e) => Err(e),
            Ok(q) => if !(p < q <= s.len() && data_start(s, p) <= q) {
                Err(Error::UnexpectedEof)
            } else {
                let key = s.subrange(data_start(s, p), q);
                if prev matches Some(k) && !lex_lt(k, key) {
                    Err(Error::UnsortedDictKeys)
                } else {
                    match scan_value(s, q) {
                        Err(e) => Err(e),
                        Ok(r) => if p < r <= s.len() {
                            scan_dict(s, r, Some(key))
                        } else {
                            Err(Error::UnexpectedEof)
                        },
                    }
                }
            },
        }
    }
}

/// Finds the first `b` at or after `from`.
fn find(s: &[u8], from: usize, b: u8) -> (k: usize)
    requires
        from <= s@.len(),
    ensures
        k == find_byte(s@, from as int, b),
        from <= k <= s@.len(),
{
    let mut k: usize = from;
    while k < s.len() && s[k] != b
        invariant
            from <= k <= s@.len(),
            find_byte(s@, from as int, b) == find_byte(s@, k as int, b),
        decreases s@.len() - k,
    {
        k = k + 1;
    }
    k
}

/// Finds the end of the run of digits that starts at `from`.
fn skip_digits(s: &[u8], from: usize) -> (k: usize)
    requires
        from <= s@.len(),
    ensures
        k == digits_end(s@, from as int),
        from <= k <= s@.len(),
        forall|i: int| from <= i < k ==> is_digit(#[trigger] s@[i]),
        k < s@.len() ==> !is_digit(s@[k as int]),
{
    let mut k: usize = from;
    while k < s.len() && 48 <= s[k] && s[k] <= 57
        invariant
            from <= k <= s@.len(),
            digits_end(s@, from as int) == digits_end(s@, k as int),
            forall|i: int| from <= i < k ==> is_digit(#[trigger] s@[i]),
        decreases s@.len() - k,
    {
        k = k + 1;
    }
    k
}

proof fn lemma_digits_value_step(t: Seq<u8>, i: int)
    requires
        0 <= i < t.len(),
    ensures
        digits_value(t.take(i + 1)) == digits_value(t.take(i)) * 10 + (t[i] - 48) as nat,
{
    assert(t.take(i + 1).drop_last() =~= t.take(i));
}

proof fn lemma_digits_value_grows(t: Seq<u8>, i: int)
    requires
        0 <= i <= t.len(),
        forall|j: int| 0 <= j < t.len() ==> is_digit(#[trigger] t[j]),
    ensures
        digits_value(t.take(i)) <= digits_value(t),
    decreases t.len() - i,
{
    if i < t.len() {
        lemma_digits_value_step(t, i);
        lemma_digits_value_grows(t, i + 1);
        assert(t.take(t.len() as int) =~= t);
    } else {
        assert(t.take(i) =~= t);
    }
}

/// The number that the digits `s[start..end]` spell, or `None` when it
/// exceeds `limit`.
fn digits_up_to(s: &[u8], start: usize, end: usize, limit: u64) -> (r: Option<u64>)
    requires
        start <= end <= s@.len(),
        forall|i: int| start <= i < end ==> is_digit(#[trigger] s@[i]),
    ensures
        match r {
            Some(n) => n == digits_value(s@.subrange(start as int, end as int)) && n <= limit,
            None => digits_value(s@.subrange(start as int, end as int)) > limit,
        },
{
    let ghost t = s@.subrange(start as int, end as int);
    let mut acc: u64 = 0;
    let mut i: usize = start;
    assert(t.take(0) =~= Seq::<u8>::empty());
    while i < end
        invariant
            start <= i <= end <= s@.len(),
            t == s@.subrange(start as int, end as int),
            forall|j: int| start <= j < end ==> is_digit(#[trigger] s@[j]),
            acc == digits_value(t.take(i - start)),
            acc <= limit,
        decreases end - i,
    {
        let d: u64 = (s[i] - 48) as u64;
        proof {
            assert(t[i - start] == s@[i as int]);
            lemma_digits_value_step(t, i - start);
        }
        let wide: u128 = acc as u128 * 10 + d as u128;
        if wide > limit as u128 {
            proof {
                assert forall|j: int| 0 <= j < t.len() implies is_digit(#[trigger] t[j]) by {
                    assert(t[j] == s@[start + j]);
                }
                lemma_digits_value_grows(t, i - start + 1);
            }
            return None;
        }
        acc = wide as u64;
        i = i + 1;
    }
    assert(t.take(end - start) =~= t);
    Some(acc)
}

/// The integer that `s[start..end]` spells, or `None` when that text is not
/// a canonical 64-bit integer.
fn int_from_text(s: &[u8], start: usize, end: usize) -> (r: Option<i64>)
    requires
        start <= end <= s@.len(),
    ensures
        r is Some <==> valid_int_text(s@.subrange(start as int, end as int)),
        r matches Some(n) ==> n == int_value(s@.subrange(start as int, end as int)),
{
    let ghost t = s@.subrange(start as int, end as int);
    let negative = start < end && s[start] == 45;
    let first: usize = if negative { start + 1 } else { start };
    let ghost u = s@.subrange(first as int, end as int);
    proof {
        if negative {
            assert(t.drop_first() =~= u);
        } else {
            assert(t =~= u);
        }
    }
    if first >= end {
        return None;
    }
    let k = skip_digits(s, first);
    if k < end {
        assert(!is_digit(u[k - first]));
        return None;
    }
    if end - first > 1 && s[first] == 48 {
        assert(u[0] == s@[first as int]);
        return None;
    }
    if negative && s[first] == 48 {
        assert(t[1] == s@[first as int]);
        return None;
    }
    assert(u[0] == s@[first as int]);
    assert forall|i: int| 0 <= i < u.len() implies is_digit(#[trigger] u[i]) by {
        assert(u[i] == s@[first + i]);
    }
    assert(canonical_digits(u));
    let limit: u64 = if negative { 9223372036854775808u64 } else { 9223372036854775807u64 };
    match digits_up_to(s, first, end, limit) {
        None => None,
        Some(m) => {
            if negative {
                Some((-(m as i128)) as i64)
            } else {
                Some(m as i64)
            }
        },
    }
}

/// Reads the integer at `pos`: its value and the index just past it.
pub(crate) fn read_integer(s: &[u8], pos: usize) -> (r: Result<(i64, usize)>)
    requires
        pos <= s@.len(),
    ensures
        match scan_int(s@, pos as int) {
            Ok(end) => r matches Ok((n, e)) && e == end && n == int_at(s@, pos as int),
            Err(err) => r == Err::<(i64, usize), Error>(err),
        },
{
    if pos >= s.len() {
        return Err(Error::UnexpectedEof);
    }
    if s[pos] != 105 {
        return Err(Error::InvalidCharacter(s[pos]));
    }
    let k = find(s, pos + 1, 101);
    if k >= s.len() {
        return Err(Error::UnexpectedEof);
    }
    match int_from_text(s, pos + 1, k) {
        None => Err(Error::InvalidInteger),
        Some(n) => Ok((n, k + 1)),
    }
}

/// Reads the byte string at `pos`: where its data starts and ends.
pub(crate) fn read_byte_string(s: &[u8], pos: usize) -> (r: Result<(usize, usize)>)
    requires
        pos <= s@.len(),
    ensures
        match scan_bytes(s@, pos as int) {
            Ok(end) => r matches Ok((a, b)) && a == data_start(s@, pos as int) && b == end
                && a <= b <= s@.len(),
            Err(err) => r == Err::<(usize, usize), Error>(err),
        },
{
    let k = skip_digits(s, pos);
    if k >= s.len() {
        return Err(Error::UnexpectedEof);
    }
    if s[k] != 58 {
        return Err(Error::InvalidCharacter(s[k]));
    }
    if k == pos {
        return Err(Error::InvalidCharacter(0));
    }
    if k > pos + 1 && s[pos] == 48 {
        return Err(Error::InvalidCharacter(48));
    }
    let room: u64 = (s.len() - (k + 1)) as u64;
    match digits_up_to(s, pos, k, room) {
        None => Err(Error::UnexpectedEof),
        Some(n) => Ok((k + 1, k + 1 + n as usize)),
    }
}

/// What the bytes of an accepted integer are.
proof fn lemma_int_bytes(s: Seq<u8>, pos: int)
    requires
        0 <= pos,
        scan_int(s, pos) matches Ok(_),
    ensures
        scan_int(s, pos) matches Ok(end) && pos < end <= s.len() && s.subrange(pos, end) == seq![
            105u8,
        ] + int_text(int_at(s, pos)) + seq![101u8],
{
    let k = find_byte(s, pos + 1, 101);
    let t = s.subrange(pos + 1, k);
    lemma_find_byte(s, pos + 1, 101);
    lemma_canonical_is_int_text(t);
    assert(s.subrange(pos, k + 1) =~= seq![105u8] + t + seq![101u8]);
}

proof fn lemma_find_byte(s: Seq<u8>, from: int, b: u8)
    requires
        0 <= from,
    ensures
        from <= find_byte(s, from, b) || from > s.len(),
        find_byte(s, from, b) < s.len() ==> s[find_byte(s, from, b)] == b,
    decreases s.len() - from,
{
    if from < s.len() && s[from] != b {
        lemma_find_byte(s, from + 1, b);
    }
}

proof fn lemma_digits_end(s: Seq<u8>, from: int)
    requires
        0 <= from <= s.len(),
    ensures
        from <= digits_end(s, from) <= s.len(),
        forall|i: int| from <= i < digits_end(s, from) ==> is_digit(#[trigger] s[i]),
    decreases s.len() - from,
{
    if from < s.len() && is_digit(s[from]) {
        lemma_digits_end(s, from + 1);
    }
}

/// What the bytes of an accepted byte string are.
proof fn lemma_bytes_bytes(s: Seq<u8>, pos: int)
    requires
        0 <= pos <= s.len(),
        scan_bytes(s, pos) matches Ok(_),
    ensures
        scan_bytes(s, pos) matches Ok(end) && pos < data_start(s, pos) <= end <= s.len()
            && s.subrange(pos, end)
            == enc_bytes(s.subrange(data_start(s, pos), end)),
{
    let k = digits_end(s, pos);
    lemma_digits_end(s, pos);
    let t = s.subrange(pos, k);
    assert(t[0] == s[pos]);
    assert forall|i: int| 0 <= i < t.len() implies is_digit(#[trigger] t[i]) by {
        assert(t[i] == s[pos + i]);
    }
    lemma_canonical_is_decimal(t);
    let end = k + 1 + digits_value(t);
    let data = s.subrange(k + 1, end);
    assert(data.len() == digits_value(t));
    assert(s.subrange(pos, end) =~= t + seq![58u8] + data);
}

/// Decodes the value at the start of `input`: the value and the number of
/// bytes it took. Bytes after it are left alone.
pub fn decode(input: &[u8]) -> (r: Result<(Value, usize)>)
    ensures
        match scan_value(input@, 0) {
            Ok(end) => r matches Ok((v, n)) && n == end && input@.subrange(0, end) == enc(v)
                && wf(v),
            Err(e) => r == Err::<(Value, usize), Error>(e),
        },
{
    let mut decoder = Decoder::new(input);
    match decoder.decode_value() {
        Err(e) => Err(e),
        Ok(v) => Ok((v, decoder.position())),
    }
}

/// A decoder for bencode data: the input and a read position that only
/// moves forward.
pub struct Decoder<'a> {
    input: &'a [u8],
    position: usize,
}

impl<'a> Decoder<'a> {
    /// The bytes being decoded.
    pub closed spec fn input_view(&self) -> Seq<u8> {
        self.input@
    }

    /// The read position.
    pub closed spec fn position_view(&self) -> int {
        self.position as int
    }

    /// The position lies within the input.
    pub closed spec fn wf(&self) -> bool {
        self.position <= self.input@.len()
    }

    /// Creates a decoder at the start of `input`.
    pub fn new(input: &'a [u8]) -> (r: Self)
        ensures
            r.wf(),
            r.input_view() == input@,
            r.position_view() == 0,
    {
        Decoder { input, position: 0 }
    }

    /// Creates a decoder that reads `input` from `position` on.
    pub fn starting_at(input: &'a [u8], position: usize) -> (r: Self)
        requires
            position <= input@.len(),
        ensures
            r.wf(),
            r.input_view() == input@,
            r.position_view() == position,
    {
        Decoder { input, position }
    }

    /// The index of the first byte not yet consumed.
    pub fn position(&self) -> (r: usize)
        ensures
            r == self.position_view(),
            self.wf() ==> r <= self.input_view().len(),
    {
        self.position
    }

    /// The current byte, without advancing.
    fn peek(&self) -> (r: Result<u8>)
        requires
            self.wf(),
        ensures
            self.position_view() < self.input_view().len() ==> r == Ok::<u8, Error>(
                self.input_view()[self.position_view()],
            ),
            self.position_view() >= self.input_view().len() ==> r == Err::<u8, Error>(
                Error::UnexpectedEof,
            ),
    {
        if self.position < self.input.len() {
            Ok(self.input[self.position])
        } else {
            Err(Error::UnexpectedEof)
        }
    }

    /// Consumes and returns the current byte.
    fn next(&mut self) -> (r: Result<u8>)
        requires
            old(self).wf(),
        ensures
            final(self).wf(),
            final(self).input_view() == old(self).input_view(),
            old(self).position_view() < old(self).input_view().len() ==> r == Ok::<u8, Error>(
                old(self).input_view()[old(self).position_view()],
            ) && final(self).position_view() == old(self).position_view() + 1,
            old(self).position_view() >= old(self).input_view().len() ==> r == Err::<u8, Error>(
                Error::UnexpectedEof,
            ) && final(self).position_view() == old(self).position_view(),
    {
        if self.position < self.input.len() {
            let byte = self.input[self.position];
            self.position = self.position + 1;
            Ok(byte)
        } else {
            Err(Error::UnexpectedEof)
        }
    }

    /// Consumes the current byte, which must be `expected`.
    fn expect(&mut self, expected: u8) -> (r: Result<()>)
        requires
            old(self).wf(),
        ensures
            final(self).wf(),
            final(self).input_view() == old(self).input_view(),
            old(self).position_view() >= old(self).input_view().len() ==> r == Err::<(), Error>(
                Error::UnexpectedEof,
            ),
            old(self).position_view() < old(self).input_view().len() ==> {
                let b = old(self).input_view()[old(self).position_view()];
                &&& final(self).position_view() == old(self).position_view() + 1
                &&& b == expected ==> r is Ok
                &&& b != expected ==> r == Err::<(), Error>(Error::InvalidCharacter(b))
            },
    {
        match self.next() {
            Err(e) => Err(e),
            Ok(byte) => if byte != expected {
                Err(Error::InvalidCharacter(byte))
            } else {
                Ok(())
            },
        }
    }

    /// Decodes an integer: `i<number>e`.
    pub fn decode_integer(&mut self) -> (r: Result<i64>)
        requires
            old(self).wf(),
        ensures
            final(self).wf(),
            final(self).input_view() == old(self).input_view(),
            match scan_int(old(self).input_view(), old(self).position_view()) {
                Ok(end) => r matches Ok(n) && n == int_at(
                    old(self).input_view(),
                    old(self).position_view(),
                ) && final(self).position_view() == end,
                Err(e) => r == Err::<i64, Error>(e),
            },
    {
        match read_integer(self.input, self.position) {
            Err(e) => Err(e),
            Ok((n, end)) => {
                self.position = end;
                Ok(n)
            },
        }
    }

    /// Decodes a byte string: `<length>:<data>`.
    pub fn decode_byte_string(&mut self) -> (r: Result<Vec<u8>>)
        requires
            old(self).wf(),
        ensures
            final(self).wf(),
            final(self).input_view() == old(self).input_view(),
            match scan_bytes(old(self).input_view(), old(self).position_view()) {
                Ok(end) => r matches Ok(data) && data@ == old(self).input_view().subrange(
                    data_start(old(self).input_view(), old(self).position_view()),
                    end,
                ) && final(self).position_view() == end,
                Err(e) => r == Err::<Vec<u8>, Error>(e),
            },
    {
        match read_byte_string(self.input, self.position) {
            Err(e) => Err(e),
            Ok((start, end)) => {
                let data = vstd::slice::slice_to_vec(
                    vstd::slice::slice_subrange(self.input, start, end),
                );
                self.position = end;
                Ok(data)
            },
        }
    }

    /// Decodes any value. On success the bytes consumed are exactly the
    /// encoding of the value returned, and that value is legal.
    pub fn decode_value(&mut self) -> (r: Result<Value>)
        requires
            old(self).wf(),
        ensures
            final(self).wf(),
            final(self).input_view() == old(self).input_view(),
            match scan_value(old(self).input_view(), old(self).position_view()) {
                Ok(end) => r matches Ok(v) && final(self).position_view() == end && end
                    > old(self).position_view() && old(self).input_view().subrange(
                    old(self).position_view(),
                    end,
                ) == enc(v) && wf(v),
                Err(e) => r == Err::<Value, Error>(e),
            },
        decreases old(self).input_view().len() - old(self).position_view(), 1int,
    {
        let ghost s = self.input@;
        let ghost pos = self.position as int;
        match self.peek() {
            Err(e) => Err(e),
            Ok(b) => {
                if b == 105 {
                    proof {
                        if scan_int(s, pos) is Ok {
                            lemma_int_bytes(s, pos);
                        }
                    }
                    match self.decode_integer() {
                        Err(e) => Err(e),
                        Ok(n) => Ok(Value::Integer(n)),
                    }
                } else if b == 108 {
                    self.decode_list()
                } else if b == 100 {
                    self.decode_dict()
                } else if 48 <= b && b <= 57 {
                    proof {
                        if scan_bytes(s, pos) is Ok {
                            lemma_bytes_bytes(s, pos);
                        }
                    }
                    match self.decode_byte_string() {
                        Err(e) => Err(e),
                        Ok(data) => Ok(Value::ByteString(data)),
                    }
                } else {
                    Err(Error::InvalidCharacter(b))
                }
            },
        }
    }

    /// Decodes a list: `l<items>e`.
    fn decode_list(&mut self) -> (r: Result<Value>)
        requires
            old(self).wf(),
            old(self).position_view() < old(self).input_view().len(),
            old(self).input_view()[old(self).position_view()] == 108,
        ensures
            final(self).wf(),
            final(self).input_view() == old(self).input_view(),
            match scan_list(old(self).input_view(), old(self).position_view() + 1) {
                Ok(end) => r matches Ok(v) && final(self).position_view() == end && end
                    > old(self).position_view() && old(self).input_view().subrange(
                    old(self).position_view(),
                    end,
                ) == enc(v) && wf(v),
                Err(e) => r == Err::<Value, Error>(e),
            },
        decreases old(self).input_view().len() - old(self).position_view(), 0int,
    {
        let ghost s = self.input@;
        let ghost start = self.position as int;
        let _ = self.expect(108);
        let mut items: Vec<Value> = Vec::new();
        assert(s.subrange(start, start + 1) =~= seq![108u8] + enc_list(items@));
        loop
            invariant
                self.wf(),
                self.input@ == s,
                s == old(self).input_view(),
                start == old(self).position_view(),
                start < self.position,
                scan_list(s, start + 1) == scan_list(s, self.position as int),
                s.subrange(start, self.position as int) == seq![108u8] + enc_list(items@),
                wf_list(items@),
            decreases s.len() - self.position,
        {
            let ghost p = self.position as int;
            match self.peek() {
                Err(e) => {
                    return Err(e);
                },
                Ok(b) => {
                    if b == 101 {
                        let _ = self.next();
                        assert(s.subrange(start, p + 1) =~= s.subrange(start, p) + seq![101u8]);
                        return Ok(Value::List(items));
                    }
                },
            }
            match self.decode_value() {
                Err(e) => {
                    return Err(e);
                },
                Ok(v) => {
                    proof {
                        let q = self.position as int;
                        let it = items@.push(v);
                        assert(it.drop_last() =~= items@);
                        assert(s.subrange(start, q) =~= s.subrange(start, p) + s.subrange(p, q));
                    }
                    items.push(v);
                },
            }
        }
    }

    /// Decodes a dictionary: `d<pairs>e`. Keys must be byte strings in
    /// strictly ascending order.
    fn decode_dict(&mut self) -> (r: Result<Value>)
        requires
            old(self).wf(),
            old(self).position_view() < old(self).input_view().len(),
            old(self).input_view()[old(self).position_view()] == 100,
        ensures
            final(self).wf(),
            final(self).input_view() == old(self).input_view(),
            match scan_dict(old(self).input_view(), old(self).position_view() + 1, None) {
                Ok(end) => r matches Ok(v) && final(self).position_view() == end && end
                    > old(self).position_view() && old(self).input_view().subrange(
                    old(self).position_view(),
                    end,
                ) == enc(v) && wf(v),
                Err(e) => r == Err::<Value, Error>(e),
            },
        decreases old(self).input_view().len() - old(self).position_view(), 0int,
    {
        let ghost s = self.input@;
        let ghost start = self.position as int;
        let _ = self.expect(100);
        let mut entries: Vec<(Vec<u8>, Value)> = Vec::new();
        assert(s.subrange(start, start + 1) =~= seq![100u8] + enc_entries(entries@));
        loop
            invariant
                self.wf(),
                self.input@ == s,
                s == old(self).input_view(),
                start == old(self).position_view(),
                start < self.position,
                scan_dict(s, start + 1, None) == scan_dict(
                    s,
                    self.position as int,
                    if entries@.len() == 0 {
                        None
                    } else {
                        Some(entries@.last().0@)
                    },
                ),
                s.subrange(start, self.position as int) == seq![100u8] + enc_entries(entries@),
                keys_ascending(entries@),
                wf_entries(entries@),
            decreases s.len() - self.position,
        {
            let ghost p = self.position as int;
            match self.peek() {
                Err(e) => {
                    return Err(e);
                },
                Ok(b) => {
                    if b == 101 {
                        let _ = self.next();
                        assert(s.subrange(start, p + 1) =~= s.subrange(start, p) + seq![101u8]);
                        return Ok(Value::Dict(entries));
                    }
                    if !(48 <= b && b <= 57) {
                        return Err(Error::InvalidDictKey);
                    }
                },
            }
            proof {
                if scan_bytes(s, p) is Ok {
                    lemma_bytes_bytes(s, p);
                }
            }
            let key = match self.decode_byte_string() {
                Err(e) => {
                    return Err(e);
                },
                Ok(k) => k,
            };
            let ghost q = self.position as int;
            let n = entries.len();
            if n > 0 && !lex_less(entries[n - 1].0.as_slice(), key.as_slice()) {
                return Err(Error::UnsortedDictKeys);
            }
            match self.decode_value() {
                Err(e) => {
                    return Err(e);
                },
                Ok(v) => {
                    proof {
                        let r = self.position as int;
                        let es = entries@.push((key, v));
                        assert(es.drop_last() =~= entries@);
                        assert(s.subrange(start, r) =~= s.subrange(start, p) + s.subrange(p, q)
                            + s.subrange(q, r));
                        assert forall|i: int| 0 <= i < es.len() - 1 implies lex_lt(
                            #[trigger] es[i].0@,
                            es[i + 1].0@,
                        ) by {
                            if i < n - 1 {
                                assert(es[i] == entries@[i] && es[i + 1] == entries@[i + 1]);
                            }
                        }
                    }
                    entries.push((key, v));
                },
            }
        }
    }
}

} // verus!
