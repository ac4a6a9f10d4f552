//! Reading requests and replies from text that arrives piece by piece.
//!
//! A `SimpleDeserializer` holds the text that has arrived and has not been
//! read yet. A `StreamDeserializer` reads one value after the other from it,
//! and stops for good at the first text that is no value.

use crate::error::ParseError;
use crate::proto::{decode_reply, decode_request, line_at, parse_reply_text, parse_request_text};
use crate::proto::{Reply, Request};
use crate::text::{chars_of, string_of};
use core::marker::PhantomData;
use vstd::prelude::*;

verus! {

/// A value that has a text on the wire.
pub trait FromResp: Sized + View {
    /// The value at the start of `s`, and how many characters it takes.
    spec fn parse(s: Seq<char>) -> Result<(Self::V, int), ParseError>;

    /// Reads the value at the start of `s`, and says how many characters it
    /// takes.
    fn decode(s: &[char]) -> (r: Result<(Self, usize), ParseError>)
        ensures
            match r {
                Ok((value, n)) => n <= s@.len() && Self::parse(s@) == Ok::<
                    (Self::V, int),
                    ParseError,
                >((value@, n as int)),
                Err(e) => Self::parse(s@) == Err::<(Self::V, int), ParseError>(e),
            },
    ;
}

impl FromResp for Request {
    open spec fn parse(s: Seq<char>) -> Result<(Self::V, int), ParseError> {
        parse_request_text(s)
    }

    fn decode(s: &[char]) -> (r: Result<(Self, usize), ParseError>) {
        decode_request(s)
    }
}

impl FromResp for Reply {
    open spec fn parse(s: Seq<char>) -> Result<(Self::V, int), ParseError> {
        parse_reply_text(s)
    }

    fn decode(s: &[char]) -> (r: Result<(Self, usize), ParseError>) {
        decode_reply(s)
    }
}

/// Text that has arrived, and how far it has been read.
pub struct SimpleDeserializer {
    input: Vec<char>,
    pos: usize,
}

impl SimpleDeserializer {
    /// The text that has arrived and has not been read yet.
    pub closed spec fn remaining(&self) -> Seq<char> {
        self.input@.skip(self.pos as int)
    }

    /// The number of characters that the reader keeps in memory: the text that
    /// has not been read yet, and what has been read of it since text was last
    /// taken in.
    pub closed spec fn held(&self) -> nat {
        self.input@.len()
    }

    /// The invariant of the reader: it has not read beyond its text.
    pub closed spec fn wf(&self) -> bool {
        self.pos <= self.input@.len()
    }

    /// A reader of `input`.
    pub fn from_buf_reader(input: &str) -> (d: SimpleDeserializer)
        ensures
            d.wf(),
            d.remaining() == input@,
    {
        SimpleDeserializer { input: chars_of(input), pos: 0 }
    }

    /// Takes in text that has arrived after what the reader holds, and lets go
    /// of the text that has been read.
    pub fn feed(&mut self, more: &str)
        requires
            old(self).wf(),
        ensures
            final(self).wf(),
            final(self).remaining() == old(self).remaining() + more@,
            final(self).held() == final(self).remaining().len(),
    {
        let mut kept = self.input.split_off(self.pos);
        let mut extra = chars_of(more);
        kept.append(&mut extra);
        self.input = kept;
        self.pos = 0;
        assert(self.input@.skip(0) == self.input@);
        assert(old(self).input@.subrange(old(self).pos as int, old(self).input@.len() as int)
            == old(self).input@.skip(old(self).pos as int));
    }

    /// Reads one character. Fails where no text is left.
    pub fn next_byte(&mut self) -> (r: Result<char, ParseError>)
        requires
            old(self).wf(),
        ensures
            final(self).wf(),
            match r {
                Ok(c) => old(self).remaining().len() > 0 && c == old(self).remaining()[0]
                    && final(self).remaining() == old(self).remaining().skip(1),
                Err(e) => old(self).remaining().len() == 0 && e == ParseError::MissingTerminator
                    && final(self).remaining() == old(self).remaining(),
            },
    {
        if self.pos >= self.input.len() {
            return Err(ParseError::MissingTerminator);
        }
        let c = self.input[self.pos];
        self.pos += 1;
        assert(self.input@.skip(self.pos as int) == old(self).input@.skip(
            old(self).pos as int,
        ).skip(1));
        Ok(c)
    }

    /// Reads one line: the result is what stands before its `\r\n`. Fails, and
    /// reads nothing, where the text does not start with a whole line.
    pub fn next_line(&mut self) -> (r: Result<String, ParseError>)
        requires
            old(self).wf(),
        ensures
            final(self).wf(),
            match r {
                Ok(line) => line_at(old(self).remaining(), 0) matches Ok((text, n)) && text
                    == line@ && 0 <= n <= old(self).remaining().len() && final(self).remaining()
                    == old(self).remaining().skip(n),
                Err(e) => line_at(old(self).remaining(), 0) == Err::<(Seq<char>, int), ParseError>(
                    e,
                ) && final(self).remaining() == old(self).remaining(),
            },
    {
        let rest = vstd::slice::slice_subrange(self.input.as_slice(), self.pos, self.input.len());
        assert(rest@ == self.remaining());
        match crate::proto::read_line(rest, 0) {
            Err(e) => Err(e),
            Ok((end, next)) => {
                let line = string_of(rest, 0, end);
                self.pos += next;
                assert(self.input@.skip(self.pos as int) == old(self).remaining().skip(next as int));
                Ok(line)
            },
        }
    }

    /// Reads one value. Fails, and reads nothing, where the text does not
    /// start with a whole value.
    pub fn next_value<T: FromResp>(&mut self) -> (r: Result<T, ParseError>)
        requires
            old(self).wf(),
        ensures
            final(self).wf(),
            match r {
                Ok(value) => T::parse(old(self).remaining()) matches Ok((v, n)) && v == value@ && 0
                    <= n <= old(self).remaining().len() && final(self).remaining() == old(
                    self,
                ).remaining().skip(n),
                Err(e) => T::parse(old(self).remaining()) == Err::<(T::V, int), ParseError>(e)
                    && final(self).remaining() == old(self).remaining(),
            },
    {
        let rest = vstd::slice::slice_subrange(self.input.as_slice(), self.pos, self.input.len());
        assert(rest@ == self.remaining());
        match T::decode(rest) {
            Err(e) => Err(e),
            Ok((value, n)) => {
                self.pos += n;
                assert(self.input@.skip(self.pos as int) == old(self).remaining().skip(n as int));
                Ok(value)
            },
        }
    }

    /// The values of the text, one after the other.
    pub fn into_iter<T: FromResp>(self) -> (stream: StreamDeserializer<T>)
        requires
            self.wf(),
        ensures
            stream.wf(),
            stream.remaining() == self.remaining(),
            !stream.failed(),
    {
        StreamDeserializer::new(self)
    }
}

/// What a stream gives when it is asked for its next value.
pub enum Step<T> {
    /// The next value.
    Item(T),
    /// The text that has arrived ends before the value does.
    Pending,
    /// The text is no value, for the reason given; the stream fails here.
    Failed(ParseError),
    /// The stream has failed before.
    Closed,
}

/// The values of a text, read one after the other.
pub struct StreamDeserializer<T: FromResp> {
    deserializer: SimpleDeserializer,
    failed: bool,
    output: PhantomData<T>,
}

impl<T: FromResp> StreamDeserializer<T> {
    /// The text that has arrived and has not been read yet.
    pub closed spec fn remaining(&self) -> Seq<char> {
        self.deserializer.remaining()
    }

    /// The number of characters that the stream keeps in memory.
    pub closed spec fn held(&self) -> nat {
        self.deserializer.held()
    }

    /// Whether the stream has met a text that is no value.
    pub closed spec fn failed(&self) -> bool {
        self.failed
    }

    /// The invariant of the stream.
    pub closed spec fn wf(&self) -> bool {
        self.deserializer.wf()
    }

    /// A stream of the values that `deserializer` holds.
    pub fn new(deserializer: SimpleDeserializer) -> (stream: StreamDeserializer<T>)
        requires
            deserializer.wf(),
        ensures
            stream.wf(),
            stream.remaining() == deserializer.remaining(),
            !stream.failed(),
    {
        StreamDeserializer { deserializer, failed: false, output: PhantomData }
    }

    /// Takes in text that has arrived after what the stream holds, and lets go
    /// of the text that has been read.
    pub fn feed(&mut self, more: &str)
        requires
            old(self).wf(),
        ensures
            final(self).wf(),
            final(self).remaining() == old(self).remaining() + more@,
            final(self).held() == final(self).remaining().len(),
            final(self).failed() == old(self).failed(),
    {
        self.deserializer.feed(more);
    }

    /// The next value of the stream. The stream ends, once and for all, at the
    /// first text that is no whole value.
    pub fn next(&mut self) -> (r: Option<T>)
        requires
            old(self).wf(),
        ensures
            final(self).wf(),
            match r {
                Some(value) => !old(self).failed() && !final(self).failed() && (T::parse(
                    old(self).remaining(),
                ) matches Ok((v, n)) && v == value@ && 0 <= n <= old(self).remaining().len()
                    && final(self).remaining() == old(self).remaining().skip(n)),
                None => final(self).failed() && final(self).remaining() == old(self).remaining()
                    && (old(self).failed() || T::parse(old(self).remaining()) is Err),
            },
    {
        if self.failed {
            return None;
        }
        match self.deserializer.next_value::<T>() {
            Ok(value) => Some(value),
            Err(_) => {
                self.failed = true;
                None
            },
        }
    }

    /// The next value of a stream whose text is still arriving: where the text
    /// ends before a line does, the stream waits for more instead of ending.
    pub fn poll(&mut self) -> (r: Step<T>)
        requires
            old(self).wf(),
        ensures
            final(self).wf(),
            match r {
                Step::Item(value) => !old(self).failed() && !final(self).failed() && (T::parse(
                    old(self).remaining(),
                ) matches Ok((v, n)) && v == value@ && 0 <= n <= old(self).remaining().len()
                    && final(self).remaining() == old(self).remaining().skip(n)),
                Step::Pending => !old(self).failed() && !final(self).failed() && T::parse(
                    old(self).remaining(),
                ) == Err::<(T::V, int), ParseError>(ParseError::MissingTerminator)
                    && final(self).remaining() == old(self).remaining(),
                Step::Failed(e) => !old(self).failed() && final(self).failed() && T::parse(
                    old(self).remaining(),
                ) == Err::<(T::V, int), ParseError>(e) && e != ParseError::MissingTerminator
                    && final(self).remaining() == old(self).remaining(),
                Step::Closed => old(self).failed() && final(self).failed()
                    && final(self).remaining() == old(self).remaining(),
            },
    {
        if self.failed {
            return Step::Closed;
        }
        match self.deserializer.next_value::<T>() {
            Ok(value) => Step::Item(value),
            Err(ParseError::MissingTerminator) => Step::Pending,
            Err(e) => {
                self.failed = true;
                Step::Failed(e)
            },
        }
    }
}

/// Reads the value at the start of `s`; what follows the value is not looked at.
pub fn from_str<T: FromResp>(s: &str) -> (r: Result<T, ParseError>)
    ensures
        match r {
            Ok(value) => T::parse(s@) matches Ok((v, _)) && v == value@,
            Err(e) => T::parse(s@) == Err::<(T::V, int), ParseError>(e),
        },
{
    let mut reader = SimpleDeserializer::from_buf_reader(s);
    from_buf_reader(&mut reader)
}

/// Reads the next value of `reader`.
pub fn from_buf_reader<T: FromResp>(reader: &mut SimpleDeserializer) -> (r: Result<T, ParseError>)
    requires
        old(reader).wf(),
    ensures
        final(reader).wf(),
        match r {
            Ok(value) => T::parse(old(reader).remaining()) matches Ok((v, n)) && v == value@ && 0
                <= n <= old(reader).remaining().len() && final(reader).remaining() == old(
                reader,
            ).remaining().skip(n),
            Err(e) => T::parse(old(reader).remaining()) == Err::<(T::V, int), ParseError>(e)
                && final(reader).remaining() == old(reader).remaining(),
        },
{
    reader.next_value::<T>()
}

} // verus!
