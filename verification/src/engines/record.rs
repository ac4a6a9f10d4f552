//! The records of the log and their text encoding.
//!
//! A record is one JSON object, written without white space:
//! `{"Set":{"key":"..","value":".."}}` or `{"Remove":{"key":".."}}`. Inside the
//! quotes a string stands in UTF-8, with `"`, `\` and the control characters
//! escaped. A record is self-delimiting: where it ends follows from its text.

use vstd::prelude::*;
use vstd::utf8::*;

verus! {

pub const QUOTE: u8 = 0x22;

pub const BACKSLASH: u8 = 0x5c;

/// `{"Set":{"key":"`
pub const SET_HEAD: [u8; 15] = [
    0x7b, 0x22, 0x53, 0x65, 0x74, 0x22, 0x3a, 0x7b, 0x22, 0x6b, 0x65, 0x79, 0x22, 0x3a, 0x22,
];

/// `{"Remove":{"key":"`
pub const REMOVE_HEAD: [u8; 18] = [
    0x7b, 0x22, 0x52, 0x65, 0x6d, 0x6f, 0x76, 0x65, 0x22, 0x3a, 0x7b, 0x22, 0x6b, 0x65, 0x79, 0x22,
    0x3a, 0x22,
];

/// `,"value":"`
pub const VALUE_FIELD: [u8; 10] = [0x2c, 0x22, 0x76, 0x61, 0x6c, 0x75, 0x65, 0x22, 0x3a, 0x22];

/// `}}`
pub const TAIL: [u8; 2] = [0x7d, 0x7d];

/// A record of the log.
#[derive(Debug, Clone, PartialEq, Eq)]
pub enum Command {
    /// Gives `key` the value `value`. In the text of the log this is the `Set`
    /// record.
    Put { key: String, value: String },
    /// Takes `key` out of the store.
    Remove { key: String },
}

/// What a record says, its strings as sequences of characters.
pub enum CommandView {
    Put { key: Seq<char>, value: Seq<char> },
    Remove { key: Seq<char> },
}

impl View for Command {
    type V = CommandView;

    open spec fn view(&self) -> CommandView {
        match *self {
            Command::Put { key, value } => CommandView::Put { key: key@, value: value@ },
            Command::Remove { key } => CommandView::Remove { key: key@ },
        }
    }
}

impl CommandView {
    /// The key that the record is about.
    pub open spec fn key(self) -> Seq<char> {
        match self {
            CommandView::Put { key, .. } => key,
            CommandView::Remove { key } => key,
        }
    }
}

/// The lower-case hexadecimal digit for `n`, for `n` below 16.
pub open spec fn hex_digit(n: u8) -> u8 {
    if n < 10 {
        (0x30 + n) as u8
    } else {
        (0x57 + n) as u8
    }
}

/// The number that the hexadecimal digit `c` stands for, in either case.
pub open spec fn hex_value(c: u8) -> Option<u8> {
    if 0x30 <= c <= 0x39 {
        Some((c - 0x30) as u8)
    } else if 0x61 <= c <= 0x66 {
        Some((c - 0x57) as u8)
    } else if 0x41 <= c <= 0x46 {
        Some((c - 0x37) as u8)
    } else {
        None
    }
}

/// How one byte of a string is written between the quotes.
pub open spec fn escape_byte(b: u8) -> Seq<u8> {
    if b == QUOTE {
        seq![BACKSLASH, QUOTE]
    } else if b == BACKSLASH {
        seq![BACKSLASH, BACKSLASH]
    } else if b == 0x08 {
        seq![BACKSLASH, 0x62u8]
    } else if b == 0x0c {
        seq![BACKSLASH, 0x66u8]
    } else if b == 0x0a {
        seq![BACKSLASH, 0x6eu8]
    } else if b == 0x0d {
        seq![BACKSLASH, 0x72u8]
    } else if b == 0x09 {
        seq![BACKSLASH, 0x74u8]
    } else if b < 0x20 {
        seq![BACKSLASH, 0x75u8, 0x30u8, 0x30u8, hex_digit(b / 16), hex_digit(b % 16)]
    } else {
        seq![b]
    }
}

/// How the bytes of a string are written between the quotes.
pub open spec fn escape(s: Seq<u8>) -> Seq<u8>
    decreases s.len(),
{
    if s.len() == 0 {
        Seq::empty()
    } else {
        escape_byte(s[0]) + escape(s.skip(1))
    }
}

/// The byte that the text at the start of `s` stands for, and how many bytes
/// of `s` write it down: one plain byte, or one escape. `None` where `s` starts
/// with a quote, a raw control character or an escape that is not known.
pub open spec fn unescape_one(s: Seq<u8>) -> Option<(u8, nat)>
    recommends
        s.len() > 0,
{
    if s[0] != BACKSLASH {
        if s[0] < 0x20 || s[0] == QUOTE {
            None
        } else {
            Some((s[0], 1))
        }
    } else if s.len() < 2 {
        None
    } else if s[1] == QUOTE {
        Some((QUOTE, 2))
    } else if s[1] == BACKSLASH {
        Some((BACKSLASH, 2))
    } else if s[1] == 0x2f {
        Some((0x2fu8, 2))
    } else if s[1] == 0x62 {
        Some((0x08u8, 2))
    } else if s[1] == 0x66 {
        Some((0x0cu8, 2))
    } else if s[1] == 0x6e {
        Some((0x0au8, 2))
    } else if s[1] == 0x72 {
        Some((0x0du8, 2))
    } else if s[1] == 0x74 {
        Some((0x09u8, 2))
    } else if s[1] == 0x75 && s.len() >= 6 && s[2] == 0x30 && s[3] == 0x30 && hex_value(s[4]) is Some
        && hex_value(s[5]) is Some && hex_value(s[4])->0 < 8 {
        Some(((hex_value(s[4])->0 * 16 + hex_value(s[5])->0) as u8, 6))
    } else {
        None
    }
}

/// Reads the text at the start of `s` up to the quote that closes it: the bytes
/// that it stands for, and how many bytes of `s` it takes, the quote included.
pub open spec fn unescape(s: Seq<u8>) -> Option<(Seq<u8>, nat)>
    decreases s.len(),
{
    if s.len() == 0 {
        None
    } else if s[0] == QUOTE {
        Some((Seq::empty(), 1))
    } else {
        match unescape_one(s) {
            None => None,
            Some((b, n)) => match unescape(s.skip(n as int)) {
                None => None,
                Some((rest, m)) => Some((seq![b] + rest, n + m)),
            },
        }
    }
}

/// `s` starts with `p`.
pub open spec fn has_prefix(s: Seq<u8>, p: Seq<u8>) -> bool {
    p.len() <= s.len() && s.take(p.len() as int) == p
}

/// Reads a quoted string whose opening quote has been passed: the string, and
/// how many bytes it takes up to and with the closing quote.
pub open spec fn text_field(s: Seq<u8>) -> Option<(Seq<char>, nat)> {
    match unescape(s) {
        None => None,
        Some((bytes, n)) => if valid_utf8(bytes) {
            Some((decode_utf8(bytes), n))
        } else {
            None
        },
    }
}

/// The text of a record.
pub open spec fn encode(c: CommandView) -> Seq<u8> {
    match c {
        CommandView::Put { key, value } => SET_HEAD@ + escape(encode_utf8(key)) + seq![QUOTE]
            + VALUE_FIELD@ + escape(encode_utf8(value)) + seq![QUOTE] + TAIL@,
        CommandView::Remove { key } => REMOVE_HEAD@ + escape(encode_utf8(key)) + seq![QUOTE]
            + TAIL@,
    }
}

/// Reads what follows the head of a `Set` record.
pub open spec fn decode_set_body(s: Seq<u8>) -> Option<(CommandView, nat)> {
    match text_field(s) {
        None => None,
        Some((key, n)) => {
            let after_key = s.skip(n as int);
            if !has_prefix(after_key, VALUE_FIELD@) {
                None
            } else {
                match text_field(after_key.skip(10)) {
                    None => None,
                    Some((value, m)) => if has_prefix(after_key.skip((10 + m) as int), TAIL@) {
                        Some((CommandView::Put { key, value }, n + 10 + m + 2))
                    } else {
                        None
                    },
                }
            }
        },
    }
}

/// Reads what follows the head of a `Remove` record.
pub open spec fn decode_remove_body(s: Seq<u8>) -> Option<(CommandView, nat)> {
    match text_field(s) {
        None => None,
        Some((key, n)) => if has_prefix(s.skip(n as int), TAIL@) {
            Some((CommandView::Remove { key }, n + 2))
        } else {
            None
        },
    }
}

/// Reads the record at the start of `s`: the record, and the number of bytes
/// that it takes. `None` where `s` does not start with a whole record.
pub closed spec fn decode(s: Seq<u8>) -> Option<(CommandView, nat)> {
    if has_prefix(s, SET_HEAD@) {
        match decode_set_body(s.skip(15)) {
            None => None,
            Some((c, n)) => Some((c, 15 + n)),
        }
    } else if has_prefix(s, REMOVE_HEAD@) {
        match decode_remove_body(s.skip(18)) {
            None => None,
            Some((c, n)) => Some((c, 18 + n)),
        }
    } else {
        None
    }
}


/// Escaping goes byte by byte: the text of `a + b` is the text of `a`, then that of `b`.
pub proof fn lemma_escape_concat(a: Seq<u8>, b: Seq<u8>)
    ensures
        escape(a + b) == escape(a) + escape(b),
    decreases a.len(),
{
    if a.len() == 0 {
        assert(a + b == b);
    } else {
        lemma_escape_concat(a.skip(1), b);
        assert((a + b).skip(1) == a.skip(1) + b);
        assert((a + b)[0] == a[0]);
    }
}

/// What `unescape` takes lies within its input, and is never nothing.
pub proof fn lemma_unescape_bound(s: Seq<u8>)
    ensures
        unescape(s) matches Some((_, n)) ==> 1 <= n <= s.len(),
    decreases s.len(),
{
    if s.len() > 0 && s[0] != QUOTE {
        if let Some((_, n)) = unescape_one(s) {
            lemma_unescape_bound(s.skip(n as int));
        }
    }
}

proof fn lemma_unescape_one_escaped(b: u8, tail: Seq<u8>)
    ensures
        (escape_byte(b) + tail)[0] != QUOTE,
        unescape_one(escape_byte(b) + tail) == Some((b, escape_byte(b).len())),
{
    let e = escape_byte(b);
    let s = e + tail;
    assert(forall|i: int| 0 <= i < e.len() ==> s[i] == e[i]);
    if b < 0x20 && b != 0x08 && b != 0x0c && b != 0x0a && b != 0x0d && b != 0x09 {
        assert(e.len() == 6);
        assert(s[4] == hex_digit(b / 16));
        assert(s[5] == hex_digit(b % 16));
        assert(hex_value(hex_digit(b / 16)) == Some((b / 16) as u8));
        assert(hex_value(hex_digit(b % 16)) == Some((b % 16) as u8));
    }
}

/// A string that was escaped and closed by a quote is read back as it was,
/// whatever follows the quote.
pub proof fn lemma_unescape_escape(b: Seq<u8>, rest: Seq<u8>)
    ensures
        unescape(escape(b) + seq![QUOTE] + rest) == Some((b, (escape(b).len() + 1) as nat)),
    decreases b.len(),
{
    let s = escape(b) + seq![QUOTE] + rest;
    if b.len() == 0 {
        assert(s[0] == QUOTE);
    } else {
        let e = escape_byte(b[0]);
        let tail = escape(b.skip(1)) + seq![QUOTE] + rest;
        assert(s == e + tail);
        lemma_unescape_one_escaped(b[0], tail);
        assert(s.skip(e.len() as int) == tail);
        lemma_unescape_escape(b.skip(1), rest);
        assert(seq![b[0]] + b.skip(1) == b);
    }
}

/// What `unescape` reads does not depend on what follows the closing quote.
pub proof fn lemma_unescape_extend(s: Seq<u8>, ext: Seq<u8>)
    requires
        unescape(s) is Some,
    ensures
        unescape(s + ext) == unescape(s),
    decreases s.len(),
{
    let t = s + ext;
    assert(t[0] == s[0]);
    if s[0] != QUOTE {
        let (b, n) = unescape_one(s)->0;
        assert(forall|i: int| 0 <= i < s.len() ==> t[i] == s[i]);
        assert(unescape_one(t) == Some((b, n)));
        assert(t.skip(n as int) == s.skip(n as int) + ext);
        lemma_unescape_extend(s.skip(n as int), ext);
    }
}

proof fn lemma_text_field_escape(text: Seq<char>, rest: Seq<u8>)
    ensures
        text_field(escape(encode_utf8(text)) + seq![QUOTE] + rest) == Some(
            (text, (escape(encode_utf8(text)).len() + 1) as nat),
        ),
{
    lemma_unescape_escape(encode_utf8(text), rest);
    encode_utf8_valid_utf8(text);
    encode_utf8_decode_utf8(text);
}

proof fn lemma_prefix_split(p: Seq<u8>, x: Seq<u8>)
    ensures
        has_prefix(p + x, p),
        (p + x).skip(p.len() as int) == x,
{
    assert((p + x).take(p.len() as int) == p);
}

proof fn lemma_heads_differ(s: Seq<u8>)
    ensures
        !(has_prefix(s, SET_HEAD@) && has_prefix(s, REMOVE_HEAD@)),
{
    if has_prefix(s, SET_HEAD@) && has_prefix(s, REMOVE_HEAD@) {
        assert(s.take(15)[2] == s[2]);
        assert(s.take(18)[2] == s[2]);
        assert(SET_HEAD@[2] == 0x53);
        assert(REMOVE_HEAD@[2] == 0x52);
    }
}

proof fn lemma_decode_set_body(key: Seq<char>, value: Seq<char>, rest: Seq<u8>)
    ensures
        decode_set_body(
            escape(encode_utf8(key)) + seq![QUOTE] + VALUE_FIELD@ + escape(encode_utf8(value))
                + seq![QUOTE] + TAIL@ + rest,
        ) == Some(
            (
                CommandView::Put { key, value },
                (escape(encode_utf8(key)).len() + 1 + 10 + escape(encode_utf8(value)).len() + 1
                    + 2) as nat,
            ),
        ),
{
    let k = escape(encode_utf8(key));
    let v = escape(encode_utf8(value));
    let after_value = TAIL@ + rest;
    let value_text = v + seq![QUOTE] + after_value;
    let after_key = VALUE_FIELD@ + value_text;
    let body = k + seq![QUOTE] + after_key;
    assert(body == k + seq![QUOTE] + VALUE_FIELD@ + v + seq![QUOTE] + TAIL@ + rest);
    lemma_text_field_escape(key, after_key);
    lemma_prefix_split(k + seq![QUOTE], after_key);
    lemma_prefix_split(VALUE_FIELD@, value_text);
    lemma_text_field_escape(value, after_value);
    lemma_prefix_split(v + seq![QUOTE], after_value);
    lemma_prefix_split(TAIL@, rest);
    assert(after_key.skip((10 + (v.len() + 1)) as int) == after_key.skip(10).skip(
        (v.len() + 1) as int,
    ));
}

proof fn lemma_decode_remove_body(key: Seq<char>, rest: Seq<u8>)
    ensures
        decode_remove_body(escape(encode_utf8(key)) + seq![QUOTE] + TAIL@ + rest) == Some(
            (CommandView::Remove { key }, (escape(encode_utf8(key)).len() + 1 + 2) as nat),
        ),
{
    let k = escape(encode_utf8(key));
    let after_key = TAIL@ + rest;
    let body = k + seq![QUOTE] + after_key;
    assert(body == k + seq![QUOTE] + TAIL@ + rest);
    lemma_text_field_escape(key, after_key);
    lemma_prefix_split(k + seq![QUOTE], after_key);
    lemma_prefix_split(TAIL@, rest);
}

/// A record that was encoded is read back as it was, whatever follows it.
pub proof fn lemma_decode_encode(c: CommandView, rest: Seq<u8>)
    ensures
        decode(encode(c) + rest) == Some((c, encode(c).len())),
{
    let s = encode(c) + rest;
    lemma_heads_differ(s);
    match c {
        CommandView::Put { key, value } => {
            let body = escape(encode_utf8(key)) + seq![QUOTE] + VALUE_FIELD@ + escape(
                encode_utf8(value),
            ) + seq![QUOTE] + TAIL@ + rest;
            assert(s == SET_HEAD@ + body);
            lemma_prefix_split(SET_HEAD@, body);
            lemma_decode_set_body(key, value, rest);
        },
        CommandView::Remove { key } => {
            let body = escape(encode_utf8(key)) + seq![QUOTE] + TAIL@ + rest;
            assert(s == REMOVE_HEAD@ + body);
            lemma_prefix_split(REMOVE_HEAD@, body);
            lemma_decode_remove_body(key, rest);
        },
    }
}

proof fn lemma_text_field_bound(s: Seq<u8>)
    ensures
        text_field(s) matches Some((_, n)) ==> 1 <= n <= s.len(),
{
    lemma_unescape_bound(s);
}

proof fn lemma_decode_set_body_bound(s: Seq<u8>)
    ensures
        decode_set_body(s) matches Some((_, n)) ==> 1 <= n <= s.len(),
{
    lemma_text_field_bound(s);
    if let Some((_, n)) = text_field(s) {
        let after_key = s.skip(n as int);
        if has_prefix(after_key, VALUE_FIELD@) {
            lemma_text_field_bound(after_key.skip(10));
        }
    }
}

proof fn lemma_decode_remove_body_bound(s: Seq<u8>)
    ensures
        decode_remove_body(s) matches Some((_, n)) ==> 1 <= n <= s.len(),
{
    lemma_text_field_bound(s);
}

/// The record that `decode` reads lies within its input, and is never empty.
pub proof fn lemma_decode_bound(s: Seq<u8>)
    ensures
        decode(s) matches Some((_, n)) ==> 1 <= n <= s.len(),
{
    if has_prefix(s, SET_HEAD@) {
        lemma_decode_set_body_bound(s.skip(15));
    } else if has_prefix(s, REMOVE_HEAD@) {
        lemma_decode_remove_body_bound(s.skip(18));
    }
}

proof fn lemma_has_prefix_extend(s: Seq<u8>, ext: Seq<u8>, p: Seq<u8>)
    requires
        has_prefix(s, p),
    ensures
        has_prefix(s + ext, p),
{
    assert((s + ext).take(p.len() as int) == s.take(p.len() as int));
}

proof fn lemma_skip_extend(s: Seq<u8>, ext: Seq<u8>, n: int)
    requires
        0 <= n <= s.len(),
    ensures
        (s + ext).skip(n) == s.skip(n) + ext,
{
}

proof fn lemma_text_field_extend(s: Seq<u8>, ext: Seq<u8>)
    requires
        text_field(s) is Some,
    ensures
        text_field(s + ext) == text_field(s),
{
    lemma_unescape_extend(s, ext);
}

proof fn lemma_decode_set_body_extend(s: Seq<u8>, ext: Seq<u8>)
    requires
        decode_set_body(s) is Some,
    ensures
        decode_set_body(s + ext) == decode_set_body(s),
{
    lemma_text_field_extend(s, ext);
    lemma_text_field_bound(s);
    let n = (text_field(s)->0).1;
    let after_key = s.skip(n as int);
    lemma_skip_extend(s, ext, n as int);
    lemma_has_prefix_extend(after_key, ext, VALUE_FIELD@);
    let value_text = after_key.skip(10);
    lemma_skip_extend(after_key, ext, 10);
    lemma_text_field_extend(value_text, ext);
    lemma_text_field_bound(value_text);
    let m = (text_field(value_text)->0).1;
    lemma_skip_extend(after_key, ext, (10 + m) as int);
    lemma_has_prefix_extend(after_key.skip((10 + m) as int), ext, TAIL@);
}

proof fn lemma_decode_remove_body_extend(s: Seq<u8>, ext: Seq<u8>)
    requires
        decode_remove_body(s) is Some,
    ensures
        decode_remove_body(s + ext) == decode_remove_body(s),
{
    lemma_text_field_extend(s, ext);
    lemma_text_field_bound(s);
    let n = (text_field(s)->0).1;
    lemma_skip_extend(s, ext, n as int);
    lemma_has_prefix_extend(s.skip(n as int), ext, TAIL@);
}

/// What `decode` reads does not depend on what follows the record.
pub proof fn lemma_decode_extend(s: Seq<u8>, ext: Seq<u8>)
    requires
        decode(s) is Some,
    ensures
        decode(s + ext) == decode(s),
{
    lemma_heads_differ(s + ext);
    if has_prefix(s, SET_HEAD@) {
        lemma_has_prefix_extend(s, ext, SET_HEAD@);
        lemma_skip_extend(s, ext, 15);
        lemma_decode_set_body_extend(s.skip(15), ext);
    } else {
        lemma_has_prefix_extend(s, ext, REMOVE_HEAD@);
        lemma_skip_extend(s, ext, 18);
        lemma_decode_remove_body_extend(s.skip(18), ext);
    }
}

/// What `unescape` reads does not depend on anything beyond what it takes.
pub proof fn lemma_unescape_take(s: Seq<u8>)
    requires
        unescape(s) is Some,
    ensures
        unescape(s.take((unescape(s)->0).1 as int)) == unescape(s),
    decreases s.len(),
{
    lemma_unescape_bound(s);
    let total = (unescape(s)->0).1;
    let t = s.take(total as int);
    assert(t[0] == s[0]);
    if s[0] != QUOTE {
        let (b, n) = unescape_one(s)->0;
        let tail = s.skip(n as int);
        lemma_unescape_bound(tail);
        let m = (unescape(tail)->0).1;
        assert(forall|i: int| 0 <= i < total ==> t[i] == s[i]);
        assert(unescape_one(t) == Some((b, n)));
        lemma_unescape_take(tail);
        assert(t.skip(n as int) == tail.take(m as int));
    }
}

proof fn lemma_has_prefix_take(s: Seq<u8>, n: int, p: Seq<u8>)
    requires
        has_prefix(s, p),
        p.len() <= n <= s.len(),
    ensures
        has_prefix(s.take(n), p),
{
    assert(s.take(n).take(p.len() as int) == s.take(p.len() as int));
}

proof fn lemma_skip_take(s: Seq<u8>, n: int, k: int)
    requires
        0 <= k <= n <= s.len(),
    ensures
        s.take(n).skip(k) == s.skip(k).take(n - k),
{
}

proof fn lemma_text_field_take(s: Seq<u8>, n: int)
    requires
        text_field(s) is Some,
        (text_field(s)->0).1 <= n <= s.len(),
    ensures
        text_field(s.take(n)) == text_field(s),
{
    let used = (unescape(s)->0).1;
    lemma_unescape_take(s);
    lemma_unescape_extend(s.take(used as int), s.subrange(used as int, n));
    assert(s.take(used as int) + s.subrange(used as int, n) == s.take(n));
}

proof fn lemma_decode_set_body_take(s: Seq<u8>)
    requires
        decode_set_body(s) is Some,
    ensures
        decode_set_body(s.take((decode_set_body(s)->0).1 as int)) == decode_set_body(s),
{
    let total = (decode_set_body(s)->0).1 as int;
    lemma_decode_set_body_bound(s);
    lemma_text_field_bound(s);
    let n = (text_field(s)->0).1;
    let after_key = s.skip(n as int);
    let value_text = after_key.skip(10);
    lemma_text_field_bound(value_text);
    let m = (text_field(value_text)->0).1;
    assert(total == n + 10 + m + 2);
    lemma_text_field_take(s, total);
    lemma_skip_take(s, total, n as int);
    lemma_has_prefix_take(after_key, total - n, VALUE_FIELD@);
    lemma_skip_take(after_key, total - n, 10);
    lemma_text_field_take(value_text, total - n - 10);
    lemma_skip_take(after_key, total - n, (10 + m) as int);
    lemma_has_prefix_take(after_key.skip((10 + m) as int), 2, TAIL@);
}

proof fn lemma_decode_remove_body_take(s: Seq<u8>)
    requires
        decode_remove_body(s) is Some,
    ensures
        decode_remove_body(s.take((decode_remove_body(s)->0).1 as int)) == decode_remove_body(s),
{
    let total = (decode_remove_body(s)->0).1 as int;
    lemma_decode_remove_body_bound(s);
    lemma_text_field_bound(s);
    let n = (text_field(s)->0).1;
    lemma_text_field_take(s, total);
    lemma_skip_take(s, total, n as int);
    lemma_has_prefix_take(s.skip(n as int), 2, TAIL@);
}

/// The bytes that `decode` takes are a record by themselves.
pub proof fn lemma_decode_take(s: Seq<u8>)
    requires
        decode(s) is Some,
    ensures
        decode(s.take((decode(s)->0).1 as int)) == decode(s),
{
    let total = (decode(s)->0).1 as int;
    lemma_decode_bound(s);
    lemma_heads_differ(s.take(total));
    if has_prefix(s, SET_HEAD@) {
        lemma_decode_set_body_bound(s.skip(15));
        lemma_has_prefix_take(s, total, SET_HEAD@);
        lemma_skip_take(s, total, 15);
        lemma_decode_set_body_take(s.skip(15));
    } else {
        lemma_decode_remove_body_bound(s.skip(18));
        lemma_has_prefix_take(s, total, REMOVE_HEAD@);
        lemma_skip_take(s, total, 18);
        lemma_decode_remove_body_take(s.skip(18));
    }
}

/// `String::from_utf8` of std: the string whose UTF-8 encoding is `bytes`, and
/// `None` where `bytes` is no valid UTF-8.
#[verifier::external_body]
fn utf8_string(bytes: Vec<u8>) -> (r: Option<String>)
    ensures
        r is Some <==> valid_utf8(bytes@),
        r matches Some(s) ==> s@ == decode_utf8(bytes@),
{
    String::from_utf8(bytes).ok()
}

fn hex_digit_of(n: u8) -> (c: u8)
    requires
        n < 16,
    ensures
        c == hex_digit(n),
{
    if n < 10 {
        0x30 + n
    } else {
        0x57 + n
    }
}

fn hex_value_of(c: u8) -> (v: Option<u8>)
    ensures
        v == hex_value(c),
{
    if 0x30 <= c && c <= 0x39 {
        Some(c - 0x30)
    } else if 0x61 <= c && c <= 0x66 {
        Some(c - 0x57)
    } else if 0x41 <= c && c <= 0x46 {
        Some(c - 0x37)
    } else {
        None
    }
}

fn push_escaped_byte(out: &mut Vec<u8>, b: u8)
    ensures
        final(out)@ == old(out)@ + escape_byte(b),
{
    if b == QUOTE || b == BACKSLASH {
        out.push(BACKSLASH);
        out.push(b);
    } else if b == 0x08 {
        out.push(BACKSLASH);
        out.push(0x62);
    } else if b == 0x0c {
        out.push(BACKSLASH);
        out.push(0x66);
    } else if b == 0x0a {
        out.push(BACKSLASH);
        out.push(0x6e);
    } else if b == 0x0d {
        out.push(BACKSLASH);
        out.push(0x72);
    } else if b == 0x09 {
        out.push(BACKSLASH);
        out.push(0x74);
    } else if b < 0x20 {
        out.push(BACKSLASH);
        out.push(0x75);
        out.push(0x30);
        out.push(0x30);
        out.push(hex_digit_of(b / 16));
        out.push(hex_digit_of(b % 16));
    } else {
        out.push(b);
    }
    assert(out@ == old(out)@ + escape_byte(b));
}

fn push_escaped(out: &mut Vec<u8>, s: &[u8])
    ensures
        final(out)@ == old(out)@ + escape(s@),
{
    let mut i: usize = 0;
    while i < s.len()
        invariant
            i <= s@.len(),
            out@ == old(out)@ + escape(s@.take(i as int)),
        decreases s@.len() - i,
    {
        push_escaped_byte(out, s[i]);
        proof {
            lemma_escape_concat(s@.take(i as int), seq![s@[i as int]]);
            assert(s@.take(i + 1) == s@.take(i as int) + seq![s@[i as int]]);
            assert(escape(seq![s@[i as int]].skip(1)) == Seq::<u8>::empty());
            assert(escape(seq![s@[i as int]]) == escape_byte(s@[i as int]));
        }
        i += 1;
    }
    assert(s@.take(i as int) == s@);
}

impl Command {
    /// The text of the record, as it stands in the log.
    pub fn to_bytes(&self) -> (rec: Vec<u8>)
        ensures
            rec@ == encode(self@),
    {
        let mut out: Vec<u8> = Vec::new();
        match self {
            Command::Put { key, value } => {
                out.extend_from_slice(&SET_HEAD);
                push_escaped(&mut out, key.as_str().as_bytes());
                out.push(QUOTE);
                out.extend_from_slice(&VALUE_FIELD);
                push_escaped(&mut out, value.as_str().as_bytes());
                out.push(QUOTE);
                out.extend_from_slice(&TAIL);
            },
            Command::Remove { key } => {
                out.extend_from_slice(&REMOVE_HEAD);
                push_escaped(&mut out, key.as_str().as_bytes());
                out.push(QUOTE);
                out.extend_from_slice(&TAIL);
            },
        }
        assert(out@ == encode(self@));
        out
    }
}

fn read_unit(log: &[u8], pos: usize) -> (r: Option<(u8, usize)>)
    requires
        pos < log@.len(),
    ensures
        match r {
            Some((b, next)) => pos < next <= log@.len() && unescape_one(log@.skip(pos as int))
                == Some((b, (next - pos) as nat)),
            None => unescape_one(log@.skip(pos as int)) is None,
        },
{
    let ghost s = log@.skip(pos as int);
    assert(forall|i: int| 0 <= i < s.len() ==> s[i] == log@[pos + i]);
    let c = log[pos];
    if c != BACKSLASH {
        if c < 0x20 || c == QUOTE {
            None
        } else {
            Some((c, pos + 1))
        }
    } else if log.len() - pos < 2 {
        None
    } else {
        let e = log[pos + 1];
        if e == QUOTE || e == BACKSLASH || e == 0x2f {
            Some((e, pos + 2))
        } else if e == 0x62 {
            Some((0x08, pos + 2))
        } else if e == 0x66 {
            Some((0x0c, pos + 2))
        } else if e == 0x6e {
            Some((0x0a, pos + 2))
        } else if e == 0x72 {
            Some((0x0d, pos + 2))
        } else if e == 0x74 {
            Some((0x09, pos + 2))
        } else if e == 0x75 && log.len() - pos >= 6 && log[pos + 2] == 0x30 && log[pos + 3] == 0x30 {
            match (hex_value_of(log[pos + 4]), hex_value_of(log[pos + 5])) {
                (Some(high), Some(low)) => {
                    if high < 8 {
                        Some((high * 16 + low, pos + 6))
                    } else {
                        None
                    }
                },
                _ => None,
            }
        } else {
            None
        }
    }
}

fn read_escaped(log: &[u8], pos: usize) -> (r: Option<(Vec<u8>, usize)>)
    requires
        pos <= log@.len(),
    ensures
        match r {
            Some((bytes, next)) => pos < next <= log@.len() && unescape(log@.skip(pos as int))
                == Some((bytes@, (next - pos) as nat)),
            None => unescape(log@.skip(pos as int)) is None,
        },
{
    let mut out: Vec<u8> = Vec::new();
    let mut i: usize = pos;
    loop
        invariant
            pos <= i <= log@.len(),
            unescape(log@.skip(pos as int)) == (match unescape(log@.skip(i as int)) {
                None => None,
                Some((rest, m)) => Some((out@ + rest, (i - pos + m) as nat)),
            }),
        decreases log@.len() - i,
    {
        if i >= log.len() {
            return None;
        }
        let ghost s = log@.skip(i as int);
        assert(s[0] == log@[i as int]);
        if log[i] == QUOTE {
            assert(out@ + Seq::<u8>::empty() == out@);
            return Some((out, i + 1));
        }
        match read_unit(log, i) {
            None => {
                return None;
            },
            Some((b, next)) => {
                proof {
                    assert(s.skip(next - i) == log@.skip(next as int));
                    assert forall|rest: Seq<u8>| out@.push(b) + rest == out@ + (seq![b] + rest) by {
                        assert(out@.push(b) + rest =~= out@ + (seq![b] + rest));
                    }
                }
                out.push(b);
                i = next;
            },
        }
    }
}

fn read_text(log: &[u8], pos: usize) -> (r: Option<(String, usize)>)
    requires
        pos <= log@.len(),
    ensures
        match r {
            Some((text, next)) => pos < next <= log@.len() && text_field(log@.skip(pos as int))
                == Some((text@, (next - pos) as nat)),
            None => text_field(log@.skip(pos as int)) is None,
        },
{
    match read_escaped(log, pos) {
        None => None,
        Some((bytes, next)) => match utf8_string(bytes) {
            None => None,
            Some(text) => Some((text, next)),
        },
    }
}

fn starts_with(log: &[u8], pos: usize, lit: &[u8]) -> (b: bool)
    requires
        pos <= log@.len(),
    ensures
        b == has_prefix(log@.skip(pos as int), lit@),
        b ==> pos + lit@.len() <= log@.len() <= usize::MAX,
{
    if log.len() - pos < lit.len() {
        return false;
    }
    let ghost s = log@.skip(pos as int);
    let mut i: usize = 0;
    while i < lit.len()
        invariant
            pos <= log@.len() <= usize::MAX,
            i <= lit@.len() <= log@.len() - pos,
            s == log@.skip(pos as int),
            s.take(i as int) == lit@.take(i as int),
        decreases lit@.len() - i,
    {
        if log[pos + i] != lit[i] {
            assert(s.take(lit@.len() as int)[i as int] != lit@[i as int]);
            return false;
        }
        assert(s.take(i + 1) == s.take(i as int).push(s[i as int]));
        assert(lit@.take(i + 1) == lit@.take(i as int).push(lit@[i as int]));
        i += 1;
    }
    assert(lit@.take(i as int) == lit@);
    true
}

fn read_set_body(log: &[u8], pos: usize) -> (r: Option<(Command, usize)>)
    requires
        pos <= log@.len(),
    ensures
        match r {
            Some((c, next)) => pos < next <= log@.len() && decode_set_body(log@.skip(pos as int))
                == Some((c@, (next - pos) as nat)),
            None => decode_set_body(log@.skip(pos as int)) is None,
        },
{
    let ghost s = log@.skip(pos as int);
    assert(VALUE_FIELD@.len() == 10 && TAIL@.len() == 2);
    let (key, after_key) = match read_text(log, pos) {
        None => {
            return None;
        },
        Some(found) => found,
    };
    assert(s.skip(after_key - pos) == log@.skip(after_key as int));
    if !starts_with(log, after_key, &VALUE_FIELD) {
        return None;
    }
    let value_at = after_key + 10;
    let ghost rest = log@.skip(after_key as int);
    assert(rest.skip(10) == log@.skip(value_at as int));
    let (value, after_value) = match read_text(log, value_at) {
        None => {
            return None;
        },
        Some(found) => found,
    };
    assert(rest.skip(10 + (after_value - value_at)) == log@.skip(after_value as int));
    if !starts_with(log, after_value, &TAIL) {
        return None;
    }
    Some((Command::Put { key, value }, after_value + 2))
}

fn read_remove_body(log: &[u8], pos: usize) -> (r: Option<(Command, usize)>)
    requires
        pos <= log@.len(),
    ensures
        match r {
            Some((c, next)) => pos < next <= log@.len() && decode_remove_body(
                log@.skip(pos as int),
            ) == Some((c@, (next - pos) as nat)),
            None => decode_remove_body(log@.skip(pos as int)) is None,
        },
{
    let ghost s = log@.skip(pos as int);
    assert(TAIL@.len() == 2);
    let (key, after_key) = match read_text(log, pos) {
        None => {
            return None;
        },
        Some(found) => found,
    };
    assert(s.skip(after_key - pos) == log@.skip(after_key as int));
    if !starts_with(log, after_key, &TAIL) {
        return None;
    }
    Some((Command::Remove { key }, after_key + 2))
}

/// Reads the record that starts at `pos` in `log`, and says where the next one
/// starts. `None` where no whole record starts there, and where `pos` lies
/// beyond the log.
pub fn read_record(log: &[u8], pos: usize) -> (r: Option<(Command, usize)>)
    ensures
        match r {
            Some((c, next)) => pos < next <= log@.len() && decode(log@.skip(pos as int)) == Some(
                (c@, (next - pos) as nat),
            ),
            None => pos > log@.len() || decode(log@.skip(pos as int)) is None,
        },
{
    if pos > log.len() {
        return None;
    }
    let ghost s = log@.skip(pos as int);
    assert(SET_HEAD@.len() == 15 && REMOVE_HEAD@.len() == 18);
    if starts_with(log, pos, &SET_HEAD) {
        assert(s.skip(15) == log@.skip(pos + 15));
        read_set_body(log, pos + 15)
    } else if starts_with(log, pos, &REMOVE_HEAD) {
        assert(s.skip(18) == log@.skip(pos + 18));
        read_remove_body(log, pos + 18)
    } else {
        None
    }
}

} // verus!
