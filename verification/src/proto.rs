//! The wire codec: requests and replies as lines of text, each closed by `\r\n`.
//!
//! A request is `*2\r\nGET\r\n{key}\r\n`, `*3\r\nSET\r\n{key}\r\n{value}\r\n` or
//! `*2\r\nDEL\r\n{key}\r\n`. A reply is `+{text}\r\n`, `-{text}\r\n` or
//! `:{number}\r\n`. Keys, values and texts hold neither `\r` nor `\n`.

use crate::error::{KvsError, ParseError};
use crate::text::{chars_of, int_digits, int_of, is_digit, parse_int, push_int, string_of};
use crate::text::{lemma_int_digits_parse, lemma_nat_digits};
use vstd::prelude::*;
use vstd::string::*;

verus! {

/// A request of a client.
#[derive(Debug, Clone, PartialEq, Eq)]
pub enum Request {
    /// Asks for the value of `key`: `GET` on the wire.
    Get { key: String },
    /// Gives `key` the value `value`: `SET` on the wire.
    Put { key: String, value: String },
    /// Takes `key` out of the store: `DEL` on the wire.
    Remove { key: String },
}

/// What a request says, its strings as sequences of characters.
pub enum RequestView {
    Get { key: Seq<char> },
    Put { key: Seq<char>, value: Seq<char> },
    Remove { key: Seq<char> },
}

impl View for Request {
    type V = RequestView;

    open spec fn view(&self) -> RequestView {
        match *self {
            Request::Get { key } => RequestView::Get { key: key@ },
            Request::Put { key, value } => RequestView::Put { key: key@, value: value@ },
            Request::Remove { key } => RequestView::Remove { key: key@ },
        }
    }
}

/// A reply of the server.
#[derive(Debug, Clone, PartialEq, Eq)]
pub enum Reply {
    /// A line of text: `+` on the wire.
    SingleLine(String),
    /// The text of an error: `-` on the wire.
    Error(String),
    /// A number: `:` on the wire.
    Int(i64),
}

/// What a reply says, its strings as sequences of characters.
pub enum ReplyView {
    SingleLine(Seq<char>),
    Error(Seq<char>),
    Int(i64),
}

impl View for Reply {
    type V = ReplyView;

    open spec fn view(&self) -> ReplyView {
        match *self {
            Reply::SingleLine(text) => ReplyView::SingleLine(text@),
            Reply::Error(text) => ReplyView::Error(text@),
            Reply::Int(n) => ReplyView::Int(n),
        }
    }
}

pub const CRLF: [char; 2] = ['\r', '\n'];

pub const GET: [char; 3] = ['G', 'E', 'T'];

pub const SET: [char; 3] = ['S', 'E', 'T'];

pub const DEL: [char; 3] = ['D', 'E', 'L'];

/// `c` is one of the two characters that close a line.
pub open spec fn is_break(c: char) -> bool {
    c == '\r' || c == '\n'
}

/// No character of `s` closes a line.
pub open spec fn no_break(s: Seq<char>) -> bool {
    forall|i: int| 0 <= i < s.len() ==> !is_break(#[trigger] s[i])
}

/// The text of a request on the wire.
pub open spec fn request_text(r: RequestView) -> Seq<char> {
    match r {
        RequestView::Get { key } => seq!['*', '2'] + CRLF@ + GET@ + CRLF@ + key + CRLF@,
        RequestView::Put { key, value } => seq!['*', '3'] + CRLF@ + SET@ + CRLF@ + key + CRLF@
            + value + CRLF@,
        RequestView::Remove { key } => seq!['*', '2'] + CRLF@ + DEL@ + CRLF@ + key + CRLF@,
    }
}

/// The text of a reply on the wire.
pub open spec fn reply_text(r: ReplyView) -> Seq<char> {
    match r {
        ReplyView::SingleLine(text) => seq!['+'] + text + CRLF@,
        ReplyView::Error(text) => seq!['-'] + text + CRLF@,
        ReplyView::Int(n) => seq![':'] + int_digits(n as int) + CRLF@,
    }
}

/// The place of the first `\r` or `\n` of `s` at or after `from`; the length of
/// `s` where there is none.
pub open spec fn line_end(s: Seq<char>, from: int) -> int
    decreases s.len() - from,
{
    if from >= s.len() {
        s.len() as int
    } else if is_break(s[from]) {
        from
    } else {
        line_end(s, from + 1)
    }
}

/// The line of `s` that starts at `from`: what stands before its `\r\n`, and
/// where the next line starts.
pub open spec fn line_at(s: Seq<char>, from: int) -> Result<(Seq<char>, int), ParseError> {
    let end = line_end(s, from);
    if end >= s.len() {
        Err(ParseError::MissingTerminator)
    } else if s[end] == '\n' {
        Err(ParseError::StrayLineBreak)
    } else if end + 1 >= s.len() {
        Err(ParseError::MissingTerminator)
    } else if s[end + 1] == '\n' {
        Ok((s.subrange(from, end), end + 2))
    } else {
        Err(ParseError::StrayLineBreak)
    }
}

/// Reads the one line of a `GET` or a `DEL` request that follows the verb.
pub open spec fn parse_key(s: Seq<char>, from: int, remove: bool) -> Result<
    (RequestView, int),
    ParseError,
> {
    match line_at(s, from) {
        Err(e) => Err(e),
        Ok((key, next)) => if remove {
            Ok((RequestView::Remove { key }, next))
        } else {
            Ok((RequestView::Get { key }, next))
        },
    }
}

/// Reads the two lines of a `SET` request that follow the verb.
pub open spec fn parse_key_value(s: Seq<char>, from: int) -> Result<(RequestView, int), ParseError> {
    match line_at(s, from) {
        Err(e) => Err(e),
        Ok((key, after_key)) => match line_at(s, after_key) {
            Err(e) => Err(e),
            Ok((value, next)) => Ok((RequestView::Put { key, value }, next)),
        },
    }
}

/// Reads the request at the start of `s`: the request, and how many characters
/// it takes.
///
/// The first line is `*` and one digit, which is not held against the
/// number of lines that follow; the second is the verb.
pub open spec fn parse_request_text(s: Seq<char>) -> Result<(RequestView, int), ParseError> {
    if s.len() == 0 {
        Err(ParseError::MissingTerminator)
    } else if s[0] != '*' {
        Err(ParseError::UnknownPrefix)
    } else {
        match line_at(s, 1) {
            Err(e) => Err(e),
            Ok((count, after_count)) => if count.len() != 1 || !is_digit(count[0]) {
                Err(ParseError::BadInteger)
            } else {
                match line_at(s, after_count) {
                    Err(e) => Err(e),
                    Ok((verb, after_verb)) => if verb == GET@ {
                        parse_key(s, after_verb, false)
                    } else if verb == SET@ {
                        parse_key_value(s, after_verb)
                    } else if verb == DEL@ {
                        parse_key(s, after_verb, true)
                    } else {
                        Err(ParseError::UnsupportedVerb)
                    },
                }
            },
        }
    }
}

/// Reads the reply at the start of `s`: the reply, and how many characters it
/// takes.
pub open spec fn parse_reply_text(s: Seq<char>) -> Result<(ReplyView, int), ParseError> {
    if s.len() == 0 {
        Err(ParseError::MissingTerminator)
    } else if s[0] != '+' && s[0] != '-' && s[0] != ':' {
        Err(ParseError::UnknownPrefix)
    } else {
        match line_at(s, 1) {
            Err(e) => Err(e),
            Ok((text, next)) => if s[0] == '+' {
                Ok((ReplyView::SingleLine(text), next))
            } else if s[0] == '-' {
                Ok((ReplyView::Error(text), next))
            } else {
                match parse_int(text) {
                    None => Err(ParseError::BadInteger),
                    Some(n) => Ok((ReplyView::Int(n), next)),
                }
            },
        }
    }
}

/// A line without `\r` and `\n` that `\r\n` closes is read back as it is.
pub proof fn lemma_line_at(s: Seq<char>, from: int, text: Seq<char>)
    requires
        0 <= from,
        from + text.len() + 2 <= s.len(),
        s.subrange(from, from + text.len()) == text,
        no_break(text),
        s[from + text.len()] == '\r',
        s[from + text.len() + 1] == '\n',
    ensures
        line_at(s, from) == Ok::<(Seq<char>, int), ParseError>((text, from + text.len() + 2)),
    decreases text.len(),
{
    if text.len() == 0 {
        assert(line_end(s, from) == from);
    } else {
        assert(s[from] == text[0]);
        assert(!is_break(text[0]));
        let tail = text.skip(1);
        assert(s.subrange(from + 1, from + 1 + tail.len()) == tail);
        assert forall|i: int| 0 <= i < tail.len() implies !is_break(#[trigger] tail[i]) by {
            assert(tail[i] == text[i + 1]);
        }
        lemma_line_at(s, from + 1, tail);
        assert(line_end(s, from) == line_end(s, from + 1));
        assert(s.subrange(from, from + text.len()) == text);
    }
}

/// The place where a line breaks lies within the text, and no character
/// before it closes a line.
pub proof fn lemma_line_end(s: Seq<char>, from: int)
    requires
        0 <= from <= s.len(),
    ensures
        from <= line_end(s, from) <= s.len(),
        no_break(s.subrange(from, line_end(s, from))),
        line_end(s, from) < s.len() ==> is_break(s[line_end(s, from)]),
    decreases s.len() - from,
{
    if from < s.len() && !is_break(s[from]) {
        lemma_line_end(s, from + 1);
        let end = line_end(s, from);
        let here = s.subrange(from, end);
        let there = s.subrange(from + 1, end);
        assert forall|i: int| 0 <= i < here.len() implies !is_break(#[trigger] here[i]) by {
            if i > 0 {
                assert(here[i] == there[i - 1]);
            }
        }
    }
}


proof fn lemma_request_head(s: Seq<char>, count: char, verb: Seq<char>, body: Seq<char>)
    requires
        is_digit(count),
        verb.len() == 3,
        no_break(verb),
        s == seq!['*', count] + CRLF@ + verb + CRLF@ + body,
    ensures
        s.len() == 9 + body.len(),
        s[0] == '*',
        line_at(s, 1) == Ok::<(Seq<char>, int), ParseError>((seq![count], 4)),
        line_at(s, 4) == Ok::<(Seq<char>, int), ParseError>((verb, 9)),
        s.skip(9) == body,
{
    assert(s.subrange(1, 2) == seq![count]);
    lemma_line_at(s, 1, seq![count]);
    assert(s.subrange(4, 7) == verb);
    lemma_line_at(s, 4, verb);
}

proof fn lemma_line_in_body(s: Seq<char>, from: int, text: Seq<char>, rest: Seq<char>)
    requires
        0 <= from <= s.len(),
        s.skip(from) == text + CRLF@ + rest,
        no_break(text),
    ensures
        line_at(s, from) == Ok::<(Seq<char>, int), ParseError>((text, from + text.len() + 2)),
        from + text.len() + 2 <= s.len(),
        s.skip(from + text.len() + 2) == rest,
{
    let tail = text + CRLF@ + rest;
    assert(s.len() - from == tail.len());
    assert forall|i: int| 0 <= i < tail.len() implies s[from + i] == tail[i] by {
        assert(s.skip(from)[i] == s[from + i]);
    }
    assert(s.subrange(from, from + text.len()) == text) by {
        assert forall|i: int| 0 <= i < text.len() implies s.subrange(from, from + text.len())[i]
            == text[i] by {
            assert(tail[i] == text[i]);
        }
    }
    assert(tail[text.len() as int] == '\r');
    assert(tail[text.len() as int + 1] == '\n');
    lemma_line_at(s, from, text);
    assert(s.skip(from + text.len() + 2) == tail.skip(text.len() as int + 2));
    assert(tail.skip(text.len() as int + 2) == rest);
}

/// The strings of the request hold neither `\r` nor `\n`.
pub open spec fn request_is_clean(r: RequestView) -> bool {
    match r {
        RequestView::Get { key } => no_break(key),
        RequestView::Put { key, value } => no_break(key) && no_break(value),
        RequestView::Remove { key } => no_break(key),
    }
}

/// The text of the reply holds neither `\r` nor `\n`.
pub open spec fn reply_is_clean(r: ReplyView) -> bool {
    match r {
        ReplyView::SingleLine(text) => no_break(text),
        ReplyView::Error(text) => no_break(text),
        ReplyView::Int(_) => true,
    }
}

/// A request whose strings hold neither `\r` nor `\n` is read back from its
/// text as it was, whatever follows the text.
pub proof fn lemma_request_round_trip(r: RequestView, rest: Seq<char>)
    requires
        request_is_clean(r),
    ensures
        parse_request_text(request_text(r) + rest) == Ok::<(RequestView, int), ParseError>(
            (r, request_text(r).len() as int),
        ),
{
    let s = request_text(r) + rest;
    match r {
        RequestView::Get { key } => {
            let body = key + CRLF@ + rest;
            assert(s == seq!['*', '2'] + CRLF@ + GET@ + CRLF@ + body);
            lemma_request_head(s, '2', GET@, body);
            lemma_line_in_body(s, 9, key, rest);
        },
        RequestView::Put { key, value } => {
            let second = value + CRLF@ + rest;
            let body = key + CRLF@ + second;
            assert(s == seq!['*', '3'] + CRLF@ + SET@ + CRLF@ + body);
            lemma_request_head(s, '3', SET@, body);
            lemma_line_in_body(s, 9, key, second);
            lemma_line_in_body(s, 9 + key.len() as int + 2, value, rest);
            assert(SET@ != GET@) by {
                assert(SET@[0] != GET@[0]);
            }
        },
        RequestView::Remove { key } => {
            let body = key + CRLF@ + rest;
            assert(s == seq!['*', '2'] + CRLF@ + DEL@ + CRLF@ + body);
            lemma_request_head(s, '2', DEL@, body);
            lemma_line_in_body(s, 9, key, rest);
            assert(DEL@ != GET@ && DEL@ != SET@) by {
                assert(DEL@[0] != GET@[0]);
                assert(DEL@[0] != SET@[0]);
            }
        },
    }
}

/// The digits of a number hold neither `\r` nor `\n`.
pub proof fn lemma_int_digits_no_break(n: int)
    ensures
        no_break(int_digits(n)),
{
    let s = int_digits(n);
    if n < 0 {
        let m = (-n) as nat;
        lemma_nat_digits(m);
        let d = crate::text::nat_digits(m);
        assert forall|i: int| 0 <= i < s.len() implies !is_break(#[trigger] s[i]) by {
            if i > 0 {
                assert(s[i] == d[i - 1]);
                assert(is_digit(d[i - 1]));
            }
        }
    } else {
        lemma_nat_digits(n as nat);
        assert forall|i: int| 0 <= i < s.len() implies !is_break(#[trigger] s[i]) by {
            assert(is_digit(s[i]));
        }
    }
}

/// A reply whose text holds neither `\r` nor `\n` is read back from its text
/// as it was, whatever follows the text.
pub proof fn lemma_reply_round_trip(r: ReplyView, rest: Seq<char>)
    requires
        reply_is_clean(r),
    ensures
        parse_reply_text(reply_text(r) + rest) == Ok::<(ReplyView, int), ParseError>(
            (r, reply_text(r).len() as int),
        ),
{
    let s = reply_text(r) + rest;
    match r {
        ReplyView::SingleLine(text) => {
            assert(s.skip(1) == text + CRLF@ + rest);
            lemma_line_in_body(s, 1, text, rest);
        },
        ReplyView::Error(text) => {
            assert(s.skip(1) == text + CRLF@ + rest);
            lemma_line_in_body(s, 1, text, rest);
        },
        ReplyView::Int(n) => {
            let text = int_digits(n as int);
            lemma_int_digits_no_break(n as int);
            lemma_int_digits_parse(n);
            assert(s.skip(1) == text + CRLF@ + rest);
            lemma_line_in_body(s, 1, text, rest);
        },
    }
}


/// How a request is shown to a person.
pub open spec fn request_display(r: RequestView) -> Seq<char> {
    match r {
        RequestView::Get { key } => seq!['g', 'e', 't', ' '] + key,
        RequestView::Put { key, value } => seq!['s', 'e', 't', ' '] + key + seq![':'] + value,
        RequestView::Remove { key } => seq!['r', 'e', 'm', 'o', 'v', 'e', ' '] + key,
    }
}

/// How a reply is shown to a person: its text, or its number in base ten.
pub open spec fn reply_display(r: ReplyView) -> Seq<char> {
    match r {
        ReplyView::SingleLine(text) => text,
        ReplyView::Error(text) => text,
        ReplyView::Int(n) => int_digits(n as int),
    }
}

fn push_chars(out: &mut String, word: &[char])
    ensures
        final(out)@ == old(out)@ + word@,
{
    let mut i: usize = 0;
    while i < word.len()
        invariant
            i <= word@.len(),
            out@ == old(out)@ + word@.take(i as int),
        decreases word@.len() - i,
    {
        out.push(word[i]);
        assert(word@.take(i + 1) == word@.take(i as int).push(word@[i as int]));
        i += 1;
    }
    assert(word@.take(i as int) == word@);
}

fn push_line(out: &mut String, text: &str)
    ensures
        final(out)@ == old(out)@ + text@ + CRLF@,
{
    out.append(text);
    push_chars(out, &CRLF);
}

impl Request {
    /// The text of the request on the wire.
    pub fn to_resp(&self) -> (out: String)
        ensures
            out@ == request_text(self@),
    {
        let mut out = String::new();
        out.push('*');
        match self {
            Request::Get { key } => {
                out.push('2');
                push_chars(&mut out, &CRLF);
                push_chars(&mut out, &GET);
                push_chars(&mut out, &CRLF);
                push_line(&mut out, key.as_str());
            },
            Request::Put { key, value } => {
                out.push('3');
                push_chars(&mut out, &CRLF);
                push_chars(&mut out, &SET);
                push_chars(&mut out, &CRLF);
                push_line(&mut out, key.as_str());
                push_line(&mut out, value.as_str());
            },
            Request::Remove { key } => {
                out.push('2');
                push_chars(&mut out, &CRLF);
                push_chars(&mut out, &DEL);
                push_chars(&mut out, &CRLF);
                push_line(&mut out, key.as_str());
            },
        }
        assert(out@ == request_text(self@));
        out
    }

    /// The request as it is shown to a person.
    pub fn to_string(&self) -> (out: String)
        ensures
            out@ == request_display(self@),
    {
        let mut out = String::new();
        match self {
            Request::Get { key } => {
                push_chars(&mut out, &['g', 'e', 't', ' ']);
                out.append(key.as_str());
            },
            Request::Put { key, value } => {
                push_chars(&mut out, &['s', 'e', 't', ' ']);
                out.append(key.as_str());
                out.push(':');
                out.append(value.as_str());
            },
            Request::Remove { key } => {
                push_chars(&mut out, &['r', 'e', 'm', 'o', 'v', 'e', ' ']);
                out.append(key.as_str());
            },
        }
        assert(out@ == request_display(self@));
        out
    }
}

impl Reply {
    /// The text of the reply on the wire.
    pub fn to_resp(&self) -> (out: String)
        ensures
            out@ == reply_text(self@),
    {
        let mut out = String::new();
        match self {
            Reply::SingleLine(text) => {
                out.push('+');
                push_line(&mut out, text.as_str());
            },
            Reply::Error(text) => {
                out.push('-');
                push_line(&mut out, text.as_str());
            },
            Reply::Int(n) => {
                out.push(':');
                push_int(&mut out, *n);
                push_chars(&mut out, &CRLF);
            },
        }
        assert(out@ == reply_text(self@));
        out
    }

    /// The reply as it is shown to a person.
    pub fn to_string(&self) -> (out: String)
        ensures
            out@ == reply_display(self@),
    {
        match self {
            Reply::SingleLine(text) => text.clone(),
            Reply::Error(text) => text.clone(),
            Reply::Int(n) => {
                let mut out = String::new();
                push_int(&mut out, *n);
                assert(out@ == int_digits(*n as int));
                out
            },
        }
    }

    /// Whether a client prints the reply: every reply but a `SingleLine`
    /// without text.
    pub fn should_println(&self) -> (b: bool)
        ensures
            b == !(self@ matches ReplyView::SingleLine(text) && text.len() == 0),
    {
        match self {
            Reply::SingleLine(text) => !text.as_str().is_empty(),
            Reply::Error(_) => true,
            Reply::Int(_) => true,
        }
    }
}

pub(crate) fn read_line(s: &[char], from: usize) -> (r: Result<(usize, usize), ParseError>)
    requires
        from <= s@.len(),
    ensures
        match r {
            Ok((end, next)) => from <= end && end + 2 == next && next <= s@.len() && line_at(
                s@,
                from as int,
            ) == Ok::<(Seq<char>, int), ParseError>(
                (s@.subrange(from as int, end as int), next as int),
            ),
            Err(e) => line_at(s@, from as int) == Err::<(Seq<char>, int), ParseError>(e),
        },
{
    let total = s.len();
    let mut end: usize = from;
    while end < total && s[end] != '\r' && s[end] != '\n'
        invariant
            from <= end <= total == s@.len(),
            line_end(s@, from as int) == line_end(s@, end as int),
        decreases total - end,
    {
        end += 1;
    }
    if end >= total {
        Err(ParseError::MissingTerminator)
    } else if s[end] == '\n' {
        Err(ParseError::StrayLineBreak)
    } else if total - end < 2 {
        Err(ParseError::MissingTerminator)
    } else if s[end + 1] == '\n' {
        Ok((end, end + 2))
    } else {
        Err(ParseError::StrayLineBreak)
    }
}

fn is_word(s: &[char], from: usize, to: usize, word: &[char]) -> (b: bool)
    requires
        from <= to <= s@.len(),
    ensures
        b == (s@.subrange(from as int, to as int) == word@),
{
    let ghost text = s@.subrange(from as int, to as int);
    if to - from != word.len() {
        return false;
    }
    let mut i: usize = 0;
    while i < word.len()
        invariant
            from <= to <= s@.len(),
            to - from == word@.len(),
            i <= word@.len(),
            text == s@.subrange(from as int, to as int),
            text.take(i as int) == word@.take(i as int),
        decreases word@.len() - i,
    {
        if s[from + i] != word[i] {
            assert(text[i as int] != word@[i as int]);
            return false;
        }
        assert(text.take(i + 1) == text.take(i as int).push(text[i as int]));
        assert(word@.take(i + 1) == word@.take(i as int).push(word@[i as int]));
        i += 1;
    }
    assert(text.take(i as int) == text && word@.take(i as int) == word@);
    true
}

/// Reads the request at the start of `s`, and says how many characters it takes.
pub fn decode_request(s: &[char]) -> (r: Result<(Request, usize), ParseError>)
    ensures
        match r {
            Ok((req, n)) => n <= s@.len() && parse_request_text(s@) == Ok::<
                (RequestView, int),
                ParseError,
            >((req@, n as int)),
            Err(e) => parse_request_text(s@) == Err::<(RequestView, int), ParseError>(e),
        },
{
    if s.len() == 0 {
        return Err(ParseError::MissingTerminator);
    }
    if s[0] != '*' {
        return Err(ParseError::UnknownPrefix);
    }
    let (count_end, after_count) = match read_line(s, 1) {
        Err(e) => {
            return Err(e);
        },
        Ok(found) => found,
    };
    if count_end != 2 || !('0' <= s[1] && s[1] <= '9') {
        assert(s@.subrange(1, count_end as int).len() == count_end - 1);
        if count_end == 2 {
            assert(s@.subrange(1, 2)[0] == s@[1]);
        }
        return Err(ParseError::BadInteger);
    }
    assert(s@.subrange(1, 2)[0] == s@[1]);
    let (verb_end, after_verb) = match read_line(s, after_count) {
        Err(e) => {
            return Err(e);
        },
        Ok(found) => found,
    };
    if is_word(s, after_count, verb_end, &GET) {
        let (key_end, next) = match read_line(s, after_verb) {
            Err(e) => {
                return Err(e);
            },
            Ok(found) => found,
        };
        Ok((Request::Get { key: string_of(s, after_verb, key_end) }, next))
    } else if is_word(s, after_count, verb_end, &SET) {
        let (key_end, after_key) = match read_line(s, after_verb) {
            Err(e) => {
                return Err(e);
            },
            Ok(found) => found,
        };
        let (value_end, next) = match read_line(s, after_key) {
            Err(e) => {
                return Err(e);
            },
            Ok(found) => found,
        };
        Ok(
            (
                Request::Put {
                    key: string_of(s, after_verb, key_end),
                    value: string_of(s, after_key, value_end),
                },
                next,
            ),
        )
    } else if is_word(s, after_count, verb_end, &DEL) {
        let (key_end, next) = match read_line(s, after_verb) {
            Err(e) => {
                return Err(e);
            },
            Ok(found) => found,
        };
        Ok((Request::Remove { key: string_of(s, after_verb, key_end) }, next))
    } else {
        Err(ParseError::UnsupportedVerb)
    }
}

/// Reads the reply at the start of `s`, and says how many characters it takes.
pub fn decode_reply(s: &[char]) -> (r: Result<(Reply, usize), ParseError>)
    ensures
        match r {
            Ok((reply, n)) => n <= s@.len() && parse_reply_text(s@) == Ok::<
                (ReplyView, int),
                ParseError,
            >((reply@, n as int)),
            Err(e) => parse_reply_text(s@) == Err::<(ReplyView, int), ParseError>(e),
        },
{
    if s.len() == 0 {
        return Err(ParseError::MissingTerminator);
    }
    let prefix = s[0];
    if prefix != '+' && prefix != '-' && prefix != ':' {
        return Err(ParseError::UnknownPrefix);
    }
    let (end, next) = match read_line(s, 1) {
        Err(e) => {
            return Err(e);
        },
        Ok(found) => found,
    };
    if prefix == '+' {
        Ok((Reply::SingleLine(string_of(s, 1, end)), next))
    } else if prefix == '-' {
        Ok((Reply::Error(string_of(s, 1, end)), next))
    } else {
        match int_of(s, 1, end) {
            None => Err(ParseError::BadInteger),
            Some(n) => Ok((Reply::Int(n), next)),
        }
    }
}

/// Reads the request at the start of `input`. The result holds what of
/// `input` follows the request, and the request.
pub fn parse_request(input: &str) -> (r: Result<(String, Request), ParseError>)
    ensures
        match r {
            Ok((rest, req)) => parse_request_text(input@) matches Ok((v, n)) && v == req@ && 0 <= n
                <= input@.len() && rest@ == input@.skip(n),
            Err(e) => parse_request_text(input@) == Err::<(RequestView, int), ParseError>(e),
        },
{
    let chars = chars_of(input);
    match decode_request(chars.as_slice()) {
        Err(e) => Err(e),
        Ok((req, n)) => {
            let rest = string_of(chars.as_slice(), n, chars.len());
            assert(input@.subrange(n as int, input@.len() as int) == input@.skip(n as int));
            Ok((rest, req))
        },
    }
}

/// Reads the reply at the start of `input`. The result holds what of `input`
/// follows the reply, and the reply.
pub fn parse_reply(input: &str) -> (r: Result<(String, Reply), ParseError>)
    ensures
        match r {
            Ok((rest, reply)) => parse_reply_text(input@) matches Ok((v, n)) && v == reply@ && 0
                <= n <= input@.len() && rest@ == input@.skip(n),
            Err(e) => parse_reply_text(input@) == Err::<(ReplyView, int), ParseError>(e),
        },
{
    let chars = chars_of(input);
    match decode_reply(chars.as_slice()) {
        Err(e) => Err(e),
        Ok((reply, n)) => {
            let rest = string_of(chars.as_slice(), n, chars.len());
            assert(input@.subrange(n as int, input@.len() as int) == input@.skip(n as int));
            Ok((rest, reply))
        },
    }
}


proof fn lemma_line_is_clean(s: Seq<char>, from: int)
    requires
        0 <= from <= s.len(),
    ensures
        line_at(s, from) matches Ok((text, next)) ==> no_break(text) && from <= next <= s.len(),
{
    lemma_line_end(s, from);
}

/// The strings of a request that was read hold neither `\r` nor `\n`: what
/// the codec reads, it can write and read again.
pub proof fn lemma_parsed_request_is_clean(s: Seq<char>)
    ensures
        parse_request_text(s) matches Ok((r, n)) ==> request_is_clean(r) && 0 <= n <= s.len(),
{
    if s.len() > 0 {
        lemma_line_is_clean(s, 1);
        if let Ok((_, after_count)) = line_at(s, 1) {
            lemma_line_is_clean(s, after_count);
            if let Ok((_, after_verb)) = line_at(s, after_count) {
                lemma_line_is_clean(s, after_verb);
                if let Ok((_, after_key)) = line_at(s, after_verb) {
                    lemma_line_is_clean(s, after_key);
                }
            }
        }
    }
}

/// The text of a reply that was read holds neither `\r` nor `\n`.
pub proof fn lemma_parsed_reply_is_clean(s: Seq<char>)
    ensures
        parse_reply_text(s) matches Ok((r, n)) ==> reply_is_clean(r) && 0 <= n <= s.len(),
{
    if s.len() > 0 {
        lemma_line_is_clean(s, 1);
    }
}

/// The `i64` that a number written for a person denotes: as `parse_int`, and one
/// `+` may stand before the digits of a number that is not negative.
pub open spec fn parse_signed(s: Seq<char>) -> Option<i64> {
    if s.len() > 0 && s[0] == '+' {
        if s.len() > 1 && s[1] != '-' {
            parse_int(s.skip(1))
        } else {
            None
        }
    } else {
        parse_int(s)
    }
}

/// Reads `input` as a signed decimal number: an optional `+` or `-`, then
/// digits. The wire takes no `+`: the number of a reply is read by `parse_int`.
pub fn to_i64(input: &str) -> (r: Result<i64, ParseError>)
    ensures
        match r {
            Ok(n) => parse_signed(input@) == Some(n),
            Err(e) => parse_signed(input@) is None && e == ParseError::BadInteger,
        },
{
    let chars = chars_of(input);
    let total = chars.len();
    assert(chars@.subrange(0, total as int) == input@);
    assert(chars@.subrange(1, total as int) == input@.skip(1));
    let from: usize = if total > 0 && chars[0] == '+' {
        if total > 1 && chars[1] != '-' {
            1
        } else {
            return Err(ParseError::BadInteger);
        }
    } else {
        0
    };
    match int_of(chars.as_slice(), from, total) {
        Some(n) => Ok(n),
        None => Err(ParseError::BadInteger),
    }
}

/// What a client makes of the line that the server answered: the reply, and
/// `InvalidCommandError` where the line is no reply.
pub fn reply_of_line(line: &str) -> (r: Result<Reply, KvsError>)
    ensures
        match r {
            Ok(reply) => parse_reply_text(line@) matches Ok((v, _)) && v == reply@,
            Err(e) => parse_reply_text(line@) is Err && e is InvalidCommandError,
        },
{
    match parse_reply(line) {
        Ok((_, reply)) => Ok(reply),
        Err(_) => Err(KvsError::InvalidCommandError),
    }
}

} // verus!
