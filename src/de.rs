//! The pull decoder of the typed layer: a cursor that a builder of typed
//! values drives one step at a time. Scalars come back as views into the
//! input; lists and dictionaries are walked with `begin_*`, `at_end` and
//! `end_container`.
use vstd::prelude::*;

use crate::decode::{data_start, read_byte_string, read_integer, scan_bytes, scan_int, scan_value, int_at, Decoder};
use crate::error::{Error, Result};

verus! {

/// The shape of the next value, told by its first byte.
#[derive(Debug, Clone, Copy, PartialEq, Eq)]
pub enum Kind {
    Integer,
    ByteString,
    List,
    Dict,
}

/// A deserializer for bencode data: the input and a read position that only
/// moves forward.
pub struct Deserializer<'de> {
    input: &'de [u8],
    position: usize,
}

impl<'de> Deserializer<'de> {
    /// The bytes being decoded.
    pub closed spec fn input_view(&self) -> Seq<u8> {
        self.input@
    }

    /// The read position.
    pub closed spec fn position_view(&self) -> int {
        self.position as int
    }

    /// The position lies within the input.
    pub closed spec fn wf(&self) -> bool {
        self.position <= self.input@.len()
    }

    /// Creates a deserializer at the start of `input`.
    pub fn new(input: &'de [u8]) -> (r: Self)
        ensures
            r.wf(),
            r.input_view() == input@,
            r.position_view() == 0,
    {
        Deserializer { input, position: 0 }
    }

    /// The index of the first byte not yet consumed.
    pub fn position(&self) -> (r: usize)
        ensures
            r == self.position_view(),
            self.wf() ==> r <= self.input_view().len(),
    {
        self.position
    }

    /// The current byte, without advancing.
    fn peek(&self) -> (r: Result<u8>)
        requires
            self.wf(),
        ensures
            self.position_view() < self.input_view().len() ==> r == Ok::<u8, Error>(
                self.input_view()[self.position_view()],
            ),
            self.position_view() >= self.input_view().len() ==> r == Err::<u8, Error>(
                Error::UnexpectedEof,
            ),
    {
        if self.position < self.input.len() {
            Ok(self.input[self.position])
        } else {
            Err(Error::UnexpectedEof)
        }
    }

    /// Consumes and returns the current byte.
    fn next(&mut self) -> (r: Result<u8>)
        requires
            old(self).wf(),
        ensures
            final(self).wf(),
            final(self).input_view() == old(self).input_view(),
            old(self).position_view() < old(self).input_view().len() ==> r == Ok::<u8, Error>(
                old(self).input_view()[old(self).position_view()],
            ) && final(self).position_view() == old(self).position_view() + 1,
            old(self).position_view() >= old(self).input_view().len() ==> r == Err::<u8, Error>(
                Error::UnexpectedEof,
            ) && final(self).position_view() == old(self).position_view(),
    {
        if self.position < self.input.len() {
            let byte = self.input[self.position];
            self.position = self.position + 1;
            Ok(byte)
        } else {
            Err(Error::UnexpectedEof)
        }
    }

    /// Consumes the current byte, which must be `expected`.
    fn expect(&mut self, expected: u8) -> (r: Result<()>)
        requires
            old(self).wf(),
        ensures
            final(self).wf(),
            final(self).input_view() == old(self).input_view(),
            old(self).position_view() >= old(self).input_view().len() ==> r == Err::<(), Error>(
                Error::UnexpectedEof,
            ),
            old(self).position_view() < old(self).input_view().len() ==> {
                let b = old(self).input_view()[old(self).position_view()];
                &&& final(self).position_view() == old(self).position_view() + 1
                &&& b == expected ==> r is Ok
                &&& b != expected ==> r == Err::<(), Error>(Error::InvalidCharacter(b))
            },
    {
        match self.next() {
            Err(e) => Err(e),
            Ok(byte) => if byte != expected {
                Err(Error::InvalidCharacter(byte))
            } else {
                Ok(())
            },
        }
    }

    /// The shape of the next value, without advancing.
    pub fn peek_kind(&self) -> (r: Result<Kind>)
        requires
            self.wf(),
        ensures
            self.position_view() >= self.input_view().len() ==> r == Err::<Kind, Error>(
                Error::UnexpectedEof,
            ),
            self.position_view() < self.input_view().len() ==> {
                let b = self.input_view()[self.position_view()];
                &&& b == 105 ==> r == Ok::<Kind, Error>(Kind::Integer)
                &&& b == 108 ==> r == Ok::<Kind, Error>(Kind::List)
                &&& b == 100 ==> r == Ok::<Kind, Error>(Kind::Dict)
                &&& 48 <= b <= 57 ==> r == Ok::<Kind, Error>(Kind::ByteString)
                &&& !(b == 105 || b == 108 || b == 100 || 48 <= b <= 57) ==> r == Err::<
                    Kind,
                    Error,
                >(Error::InvalidCharacter(b))
            },
    {
        match self.peek() {
            Err(e) => Err(e),
            Ok(b) => if b == 105 {
                Ok(Kind::Integer)
            } else if b == 108 {
                Ok(Kind::List)
            } else if b == 100 {
                Ok(Kind::Dict)
            } else if 48 <= b && b <= 57 {
                Ok(Kind::ByteString)
            } else {
                Err(Error::InvalidCharacter(b))
            },
        }
    }

    /// Reads an integer: `i<number>e`, under the same rules as the raw decoder.
    pub fn parse_integer(&mut self) -> (r: Result<i64>)
        requires
            old(self).wf(),
        ensures
            final(self).wf(),
            final(self).input_view() == old(self).input_view(),
            match scan_int(old(self).input_view(), old(self).position_view()) {
                Ok(end) => r matches Ok(n) && n == int_at(
                    old(self).input_view(),
                    old(self).position_view(),
                ) && final(self).position_view() == end,
                Err(e) => r == Err::<i64, Error>(e),
            },
    {
        match read_integer(self.input, self.position) {
            Err(e) => Err(e),
            Ok((n, end)) => {
                self.position = end;
                Ok(n)
            },
        }
    }

    /// Reads a byte string and returns its data as a view into the input.
    pub fn parse_byte_string(&mut self) -> (r: Result<&'de [u8]>)
        requires
            old(self).wf(),
        ensures
            final(self).wf(),
            final(self).input_view() == old(self).input_view(),
            match scan_bytes(old(self).input_view(), old(self).position_view()) {
                Ok(end) => r matches Ok(data) && data@ == old(self).input_view().subrange(
                    data_start(old(self).input_view(), old(self).position_view()),
                    end,
                ) && final(self).position_view() == end,
                Err(e) => r == Err::<&'de [u8], Error>(e),
            },
    {
        match read_byte_string(self.input, self.position) {
            Err(e) => Err(e),
            Ok((start, end)) => {
                self.position = end;
                Ok(vstd::slice::slice_subrange(self.input, start, end))
            },
        }
    }

    /// Consumes the `l` that opens a list.
    pub fn begin_list(&mut self) -> (r: Result<()>)
        requires
            old(self).wf(),
        ensures
            final(self).wf(),
            final(self).input_view() == old(self).input_view(),
            old(self).position_view() >= old(self).input_view().len() ==> r == Err::<(), Error>(
                Error::UnexpectedEof,
            ),
            old(self).position_view() < old(self).input_view().len() ==> {
                let b = old(self).input_view()[old(self).position_view()];
                &&& final(self).position_view() == old(self).position_view() + 1
                &&& b == 108 ==> r is Ok
                &&& b != 108 ==> r == Err::<(), Error>(Error::InvalidCharacter(b))
            },
    {
        self.expect(108)
    }

    /// Consumes the `d` that opens a dictionary.
    pub fn begin_dict(&mut self) -> (r: Result<()>)
        requires
            old(self).wf(),
        ensures
            final(self).wf(),
            final(self).input_view() == old(self).input_view(),
            old(self).position_view() >= old(self).input_view().len() ==> r == Err::<(), Error>(
                Error::UnexpectedEof,
            ),
            old(self).position_view() < old(self).input_view().len() ==> {
                let b = old(self).input_view()[old(self).position_view()];
                &&& final(self).position_view() == old(self).position_view() + 1
                &&& b == 100 ==> r is Ok
                &&& b != 100 ==> r == Err::<(), Error>(Error::InvalidCharacter(b))
            },
    {
        self.expect(100)
    }

    /// Whether the open list or dictionary has no more elements: the next
    /// byte is its `e`. Does not advance.
    pub fn at_end(&self) -> (r: Result<bool>)
        requires
            self.wf(),
        ensures
            self.position_view() < self.input_view().len() ==> r == Ok::<bool, Error>(
                self.input_view()[self.position_view()] == 101,
            ),
            self.position_view() >= self.input_view().len() ==> r == Err::<bool, Error>(
                Error::UnexpectedEof,
            ),
    {
        match self.peek() {
            Err(e) => Err(e),
            Ok(b) => Ok(b == 101),
        }
    }

    /// Consumes the `e` that closes a list or a dictionary.
    pub fn end_container(&mut self) -> (r: Result<()>)
        requires
            old(self).wf(),
        ensures
            final(self).wf(),
            final(self).input_view() == old(self).input_view(),
            old(self).position_view() >= old(self).input_view().len() ==> r == Err::<(), Error>(
                Error::UnexpectedEof,
            ),
            old(self).position_view() < old(self).input_view().len() ==> {
                let b = old(self).input_view()[old(self).position_view()];
                &&& final(self).position_view() == old(self).position_view() + 1
                &&& b == 101 ==> r is Ok
                &&& b != 101 ==> r == Err::<(), Error>(Error::InvalidCharacter(b))
            },
    {
        self.expect(101)
    }

    /// Steps over one whole value, checking it as the raw decoder does; used
    /// for dictionary entries that the caller does not know.
    pub fn skip_value(&mut self) -> (r: Result<()>)
        requires
            old(self).wf(),
        ensures
            final(self).wf(),
            final(self).input_view() == old(self).input_view(),
            match scan_value(old(self).input_view(), old(self).position_view()) {
                Ok(end) => r is Ok && final(self).position_view() == end,
                Err(e) => r == Err::<(), Error>(e),
            },
    {
        let mut decoder = Decoder::starting_at(self.input, self.position);
        match decoder.decode_value() {
            Err(e) => Err(e),
            Ok(_) => {
                self.position = decoder.position();
                Ok(())
            },
        }
    }
}

} // verus!
