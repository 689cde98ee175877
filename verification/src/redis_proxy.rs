//! The Redis (RESP) front end: framing of client commands and the replies.
//!
//! A command arrives as a RESP array of bulk strings:
//!
//! ```text
//! *3\r\n  $3\r\nSET\r\n  $3\r\nfoo\r\n  $3\r\nbar\r\n
//! ```
//!
//! Replies are simple strings (`+OK\r\n`), errors (`-ERR ...\r\n`), integers
//! (`:1\r\n`) and bulk strings (`$3\r\nbar\r\n`, or `$-1\r\n` for nil).
//! GET, SET, DEL and PING are supported; GET reads the state machine, SET
//! and DEL go through the replicated log.
use crate::raft::log::{KvCommand, KvCommandView};
use crate::raft::replication::apply_command;
use crate::storage::string_from_utf8;
use vstd::prelude::*;
use vstd::utf8::{decode_utf8, encode_utf8, valid_utf8};

verus! {

broadcast use {vstd::string::axiom_spec_iter, vstd::string::next_postcondition};

// ─── Framing ─────────────────────────────────────────────────────────────────

/// The position of the first `\n` at or after `from`, or -1 when there is none.
pub open spec fn newline_from(buf: Seq<u8>, from: int) -> int
    decreases buf.len() - from,
{
    if from < 0 || from >= buf.len() {
        -1
    } else if buf[from] == 10 {
        from
    } else {
        newline_from(buf, from + 1)
    }
}

/// The line with every trailing `\r\n` removed.
pub open spec fn trim_crlf(s: Seq<u8>) -> Seq<u8>
    decreases s.len(),
{
    if s.len() >= 2 && s[s.len() - 2] == 13 && s[s.len() - 1] == 10 {
        trim_crlf(s.take(s.len() - 2))
    } else {
        s
    }
}

pub open spec fn is_digit(b: u8) -> bool {
    48 <= b <= 57
}

/// The value of a string of decimal digits.
pub open spec fn digits_value(s: Seq<u8>) -> nat
    decreases s.len(),
{
    if s.len() == 0 {
        0
    } else {
        digits_value(s.drop_last()) * 10 + (s.last() - 48) as nat
    }
}

/// An unsigned decimal number as Rust's integer parsing reads it: an optional
/// `+` followed by at least one digit.
pub open spec fn parse_unsigned(s: Seq<u8>) -> Option<nat> {
    let d = unsigned_digits(s);
    if d.len() > 0 && all_digits(d) {
        Some(digits_value(d))
    } else {
        None
    }
}

/// The number's digits: the text without a leading `+`.
pub open spec fn unsigned_digits(s: Seq<u8>) -> Seq<u8> {
    if s.len() > 0 && s[0] == 43 {
        s.drop_first()
    } else {
        s
    }
}

pub open spec fn all_digits(d: Seq<u8>) -> bool {
    forall|i: int| 0 <= i < d.len() ==> is_digit(#[trigger] d[i])
}

/// The outcome of reading a header line such as `*3` or `$5`.
pub enum HeaderView {
    /// No complete line yet.
    NeedMore,
    /// The line does not start with the expected marker.
    WrongMarker,
    /// The rest of the line is not a number that fits in a `usize`.
    BadNumber,
    /// The number, and the position just after the line.
    Value(nat, int),
}

/// Read the header line starting at `pos`, which should be `marker` followed by a number.
pub open spec fn read_header(buf: Seq<u8>, pos: int, marker: u8) -> HeaderView {
    let nl = newline_from(buf, pos);
    if nl < 0 {
        HeaderView::NeedMore
    } else {
        let line = trim_crlf(buf.subrange(pos, nl + 1));
        if line.len() == 0 || line[0] != marker {
            HeaderView::WrongMarker
        } else {
            match parse_unsigned(line.drop_first()) {
                Some(v) => if v <= usize::MAX {
                    HeaderView::Value(v, nl + 1)
                } else {
                    HeaderView::BadNumber
                },
                None => HeaderView::BadNumber,
            }
        }
    }
}

/// Why a command could not be parsed.
#[derive(Debug, Clone, Copy, PartialEq, Eq, Structural)]
pub enum RespError {
    /// The command does not start with `*`.
    ExpectedArray,
    /// The element count is not a number.
    BadCount,
    /// An element does not start with `$`.
    ExpectedBulkString,
    /// An element's length is not a number, or too large.
    BadLength,
    /// An element is not UTF-8 text.
    InvalidUtf8,
}

/// The outcome of parsing one command from the front of a buffer.
pub enum RespParseView {
    /// The arguments, and how many bytes the command took.
    Complete(Seq<Seq<char>>, int),
    /// The buffer holds only the start of a command.
    Incomplete,
    Error(RespError),
}

/// `remaining` bulk strings starting at `pos`. Each is a `$<len>` line,
/// `len` bytes of UTF-8 text, and two more bytes (the `\r\n` terminator,
/// which is skipped without being checked).
pub open spec fn parse_bulk_strings(buf: Seq<u8>, pos: int, remaining: nat) -> RespParseView
    decreases remaining,
{
    if remaining == 0 {
        RespParseView::Complete(Seq::empty(), pos)
    } else {
        match read_header(buf, pos, 36) {
            HeaderView::NeedMore => RespParseView::Incomplete,
            HeaderView::WrongMarker => RespParseView::Error(RespError::ExpectedBulkString),
            HeaderView::BadNumber => RespParseView::Error(RespError::BadLength),
            HeaderView::Value(len, start) => if len + 2 > usize::MAX {
                RespParseView::Error(RespError::BadLength)
            } else if start + len + 2 > buf.len() {
                RespParseView::Incomplete
            } else if !valid_utf8(buf.subrange(start, start + len)) {
                RespParseView::Error(RespError::InvalidUtf8)
            } else {
                match parse_bulk_strings(buf, start + len + 2, (remaining - 1) as nat) {
                    RespParseView::Complete(rest, end) => RespParseView::Complete(
                        seq![decode_utf8(buf.subrange(start, start + len))] + rest,
                        end,
                    ),
                    other => other,
                }
            },
        }
    }
}

/// Parse one command from the front of `buf`: a `*<count>` line, then
/// `count` bulk strings.
pub open spec fn parse_command(buf: Seq<u8>) -> RespParseView {
    match read_header(buf, 0, 42) {
        HeaderView::NeedMore => RespParseView::Incomplete,
        HeaderView::WrongMarker => RespParseView::Error(RespError::ExpectedArray),
        HeaderView::BadNumber => RespParseView::Error(RespError::BadCount),
        HeaderView::Value(count, next) => parse_bulk_strings(buf, next, count),
    }
}

/// Put `prefix` in front of the arguments of a complete parse.
pub open spec fn prepend(prefix: Seq<Seq<char>>, r: RespParseView) -> RespParseView {
    match r {
        RespParseView::Complete(rest, end) => RespParseView::Complete(prefix + rest, end),
        other => other,
    }
}

/// The strings' character sequences.
pub open spec fn texts(s: Seq<String>) -> Seq<Seq<char>> {
    s.map_values(|x: String| x@)
}

/// The outcome of parsing one command from the front of a buffer.
#[derive(Debug)]
pub enum RespParse {
    /// The arguments, and how many bytes of the buffer the command took.
    Complete { args: Vec<String>, consumed: usize },
    /// The buffer holds only the start of a command: read more.
    Incomplete,
    Error(RespError),
}

impl View for RespParse {
    type V = RespParseView;

    open spec fn view(&self) -> RespParseView {
        match self {
            RespParse::Complete { args, consumed } => RespParseView::Complete(
                texts(args@),
                *consumed as int,
            ),
            RespParse::Incomplete => RespParseView::Incomplete,
            RespParse::Error(e) => RespParseView::Error(*e),
        }
    }
}

enum Header {
    NeedMore,
    WrongMarker,
    BadNumber,
    Value(usize, usize),
}

fn find_newline(buf: &[u8], from: usize) -> (r: Option<usize>)
    ensures
        match r {
            Some(i) => newline_from(buf@, from as int) == i as int && i < buf@.len(),
            None => newline_from(buf@, from as int) == -1,
        },
{
    let mut i = from;
    while i < buf.len()
        invariant
            from <= i,
            newline_from(buf@, from as int) == newline_from(buf@, i as int),
        decreases buf@.len() - i,
    {
        if buf[i] == 10 {
            return Some(i);
        }
        i = i + 1;
    }
    None
}

/// The end of `buf[start..end]` once every trailing `\r\n` is removed.
fn trimmed_end(buf: &[u8], start: usize, end: usize) -> (r: usize)
    requires
        start <= end <= buf@.len(),
    ensures
        start <= r <= end,
        trim_crlf(buf@.subrange(start as int, end as int)) == buf@.subrange(start as int, r as int),
{
    let mut e = end;
    while e - start >= 2 && buf[e - 2] == 13 && buf[e - 1] == 10
        invariant
            start <= e <= end,
            end <= buf@.len(),
            trim_crlf(buf@.subrange(start as int, end as int)) == trim_crlf(
                buf@.subrange(start as int, e as int),
            ),
        decreases e,
    {
        assert(buf@.subrange(start as int, e as int).take(e - start - 2) =~= buf@.subrange(
            start as int,
            e - 2,
        ));
        e = e - 2;
    }
    e
}

proof fn lemma_digits_value_grows(s: Seq<u8>, i: int)
    requires
        0 <= i <= s.len(),
        forall|k: int| 0 <= k < s.len() ==> is_digit(#[trigger] s[k]),
    ensures
        digits_value(s.take(i)) <= digits_value(s),
    decreases s.len() - i,
{
    if i < s.len() {
        lemma_digits_value_grows(s, i + 1);
        assert(s.take(i + 1).drop_last() =~= s.take(i));
    } else {
        assert(s.take(i) =~= s);
    }
}

/// Parse the number in `buf[start..end]` as `usize::from_str` does.
fn parse_number(buf: &[u8], start: usize, end: usize) -> (r: Option<usize>)
    requires
        start <= end <= buf@.len(),
    ensures
        match r {
            Some(v) => parse_unsigned(buf@.subrange(start as int, end as int)) == Some(v as nat),
            None => match parse_unsigned(buf@.subrange(start as int, end as int)) {
                Some(v) => v > usize::MAX,
                None => true,
            },
        },
{
    let ghost s = buf@.subrange(start as int, end as int);
    let mut i = start;
    if i < end && buf[i] == 43 {
        i = i + 1;
    }
    let ghost d = unsigned_digits(s);
    assert(d =~= buf@.subrange(i as int, end as int));
    if i == end {
        return None;
    }
    let first = i;
    let mut value: usize = 0;
    while i < end
        invariant
            start <= first <= i <= end,
            end <= buf@.len(),
            s == buf@.subrange(start as int, end as int),
            d == unsigned_digits(s),
            d == buf@.subrange(first as int, end as int),
            forall|k: int| 0 <= k < i - first ==> is_digit(#[trigger] d[k]),
            value == digits_value(d.take(i - first)),
        decreases end - i,
    {
        let b = buf[i];
        if b < 48 || b > 57 {
            assert(!all_digits(d)) by {
                assert(!is_digit(d[i - first]));
            }
            return None;
        }
        let digit: usize = (b - 48) as usize;
        assert(d.take(i - first + 1).drop_last() =~= d.take(i - first));
        if value > (usize::MAX - digit) / 10 {
            proof {
                assert(digits_value(d.take(i - first + 1)) == value * 10 + digit);
                assert(value * 10 + digit > usize::MAX) by (nonlinear_arith)
                    requires
                        value > (usize::MAX - digit) / 10,
                        digit <= 9,
                ;
                if all_digits(d) {
                    lemma_digits_value_grows(d, i - first + 1);
                }
            }
            return None;
        }
        proof {
            assert(value * 10 + digit <= usize::MAX) by (nonlinear_arith)
                requires
                    value <= (usize::MAX - digit) / 10,
                    digit <= 9,
            ;
        }
        value = value * 10 + digit;
        i = i + 1;
    }
    assert(d.take(i - first) =~= d);
    Some(value)
}

fn read_header_at(buf: &[u8], pos: usize, marker: u8) -> (r: Header)
    requires
        pos <= buf@.len(),
    ensures
        match r {
            Header::NeedMore => read_header(buf@, pos as int, marker) is NeedMore,
            Header::WrongMarker => read_header(buf@, pos as int, marker) is WrongMarker,
            Header::BadNumber => read_header(buf@, pos as int, marker) is BadNumber,
            Header::Value(v, next) => read_header(buf@, pos as int, marker) == HeaderView::Value(
                v as nat,
                next as int,
            ) && next <= buf@.len(),
        },
{
    let n = buf.len();
    let nl = match find_newline(buf, pos) {
        Some(nl) => nl,
        None => {
            return Header::NeedMore;
        },
    };
    assert(pos <= nl < buf@.len()) by {
        lemma_newline_bounds(buf@, pos as int);
    }
    let end = trimmed_end(buf, pos, nl + 1);
    if end == pos || buf[pos] != marker {
        return Header::WrongMarker;
    }
    assert(buf@.subrange(pos as int, end as int).drop_first() =~= buf@.subrange(
        pos + 1,
        end as int,
    ));
    match parse_number(buf, pos + 1, end) {
        Some(v) => Header::Value(v, nl + 1),
        None => Header::BadNumber,
    }
}

proof fn lemma_newline_bounds(buf: Seq<u8>, from: int)
    requires
        0 <= from,
        newline_from(buf, from) >= 0,
    ensures
        from <= newline_from(buf, from) < buf.len(),
        buf[newline_from(buf, from)] == 10,
        forall|k: int| from <= k < newline_from(buf, from) ==> buf[k] != 10,
    decreases buf.len() - from,
{
    if from < buf.len() && buf[from] != 10 {
        lemma_newline_bounds(buf, from + 1);
    }
}

/// Parse one RESP command from the front of `buf`.
///
/// `Complete` gives the arguments and the number of bytes the command took;
/// `Incomplete` means more bytes are needed; `Error` means the bytes are not a
/// command (the connection is then closed).
pub fn parse_resp_command(buf: &[u8]) -> (r: RespParse)
    ensures
        r@ == parse_command(buf@),
{
    let (count, mut pos) = match read_header_at(buf, 0, 42) {
        Header::NeedMore => {
            return RespParse::Incomplete;
        },
        Header::WrongMarker => {
            return RespParse::Error(RespError::ExpectedArray);
        },
        Header::BadNumber => {
            return RespParse::Error(RespError::BadCount);
        },
        Header::Value(count, next) => (count, next),
    };
    let mut args: Vec<String> = Vec::new();
    let mut k: usize = 0;
    while k < count
        invariant
            k <= count,
            pos <= buf@.len(),
            parse_command(buf@) == prepend(
                texts(args@),
                parse_bulk_strings(buf@, pos as int, (count - k) as nat),
            ),
        decreases count - k,
    {
        let ghost rest = parse_bulk_strings(buf@, pos as int, (count - k) as nat);
        match read_header_at(buf, pos, 36) {
            Header::NeedMore => {
                return RespParse::Incomplete;
            },
            Header::WrongMarker => {
                return RespParse::Error(RespError::ExpectedBulkString);
            },
            Header::BadNumber => {
                return RespParse::Error(RespError::BadLength);
            },
            Header::Value(len, start) => {
                if len > usize::MAX - 2 {
                    return RespParse::Error(RespError::BadLength);
                }
                if len + 2 > buf.len() - start {
                    return RespParse::Incomplete;
                }
                let data = vstd::slice::slice_to_vec(
                    vstd::slice::slice_subrange(buf, start, start + len),
                );
                match string_from_utf8(data) {
                    None => {
                        return RespParse::Error(RespError::InvalidUtf8);
                    },
                    Some(s) => {
                        proof {
                            let tail = parse_bulk_strings(
                                buf@,
                                start + len + 2,
                                (count - k - 1) as nat,
                            );
                            assert(rest == prepend(seq![s@], tail));
                            assert(texts(args@.push(s)) =~= texts(args@) + seq![s@]);
                            match tail {
                                RespParseView::Complete(a, e) => {
                                    assert(texts(args@) + (seq![s@] + a) =~= (texts(args@)
                                        + seq![s@]) + a);
                                },
                                _ => {},
                            }
                        }
                        args.push(s);
                        pos = start + len + 2;
                    },
                }
            },
        }
        k = k + 1;
    }
    assert(texts(args@) + Seq::<Seq<char>>::empty() =~= texts(args@));
    RespParse::Complete { args, consumed: pos }
}

// ─── Commands ────────────────────────────────────────────────────────────────

/// `c` is a character whose uppercase form is the single character `w`.
/// ASCII letters map to their capitals, and two non-ASCII letters have ASCII
/// capitals: dotless `ı` (to `I`) and long `ſ` (to `S`); other characters are
/// compared as they are. For the all-capital ASCII command names this is
/// what comparing `to_uppercase()` of the name gives.
pub open spec fn char_upper_is(c: char, w: char) -> bool {
    if 'a' <= c && c <= 'z' {
        c as u32 == w as u32 + 32
    } else if c == '\u{131}' {
        w == 'I'
    } else if c == '\u{17f}' {
        w == 'S'
    } else {
        c == w
    }
}

/// The argument names the command `word`, ignoring case.
pub open spec fn names_command(arg: Seq<char>, word: Seq<char>) -> bool {
    &&& arg.len() == word.len()
    &&& forall|i: int| 0 <= i < arg.len() ==> #[trigger] char_upper_is(arg[i], word[i])
}

fn char_upper_matches(c: char, w: char) -> (r: bool)
    ensures
        r == char_upper_is(c, w),
{
    if 'a' <= c && c <= 'z' {
        (c as u32) == (w as u32) + 32
    } else if c == '\u{131}' {
        w == 'I'
    } else if c == '\u{17f}' {
        w == 'S'
    } else {
        c == w
    }
}

/// The characters of a string.
fn chars_of(s: &str) -> (r: Vec<char>)
    ensures
        r@ == s@,
{
    let mut it = s.chars();
    let mut r: Vec<char> = Vec::new();
    let ghost total = s@;
    loop
        invariant
            vstd::std_specs::iter::IteratorSpec::remaining(&it) == total.skip(r@.len() as int),
            r@ == total.take(r@.len() as int),
            r@.len() <= total.len(),
            total == s@,
        decreases total.len() - r@.len(),
    {
        let ghost before = it;
        match it.next() {
            Some(c) => {
                assert(vstd::std_specs::iter::IteratorSpec::remaining(&before).len() > 0);
                r.push(c);
                assert(r@ =~= total.take(r@.len() as int));
                assert(vstd::std_specs::iter::IteratorSpec::remaining(&it) =~= total.skip(r@.len() as int));
            },
            None => {
                assert(vstd::std_specs::iter::IteratorSpec::remaining(&before).len() == 0);
                assert(r@ =~= total);
                return r;
            },
        }
    }
}

/// Whether the argument names the command `word`, ignoring case.
fn is_command(arg: &String, word: &str) -> (r: bool)
    ensures
        r == names_command(arg@, word@),
{
    let a = chars_of(arg.as_str());
    let w = chars_of(word);
    if a.len() != w.len() {
        return false;
    }
    let mut i: usize = 0;
    while i < a.len()
        invariant
            a@ == arg@,
            w@ == word@,
            a@.len() == w@.len(),
            0 <= i <= a@.len(),
            forall|k: int| 0 <= k < i ==> #[trigger] char_upper_is(a@[k], w@[k]),
        decreases a@.len() - i,
    {
        if !char_upper_matches(a[i], w[i]) {
            return false;
        }
        i = i + 1;
    }
    true
}

/// What to do for a client command.
#[derive(Debug)]
pub enum RedisAction {
    /// Send this reply straight away.
    Reply(String),
    /// Read this key from the state machine and reply with [`format_get_reply`].
    Read { key: String },
    /// Propose this command, wait until it is committed and applied, then
    /// send `ok_reply` (or an [`error_reply`] if the write fails).
    Write { command: KvCommand, ok_reply: String },
}

/// The mathematical value of a [`RedisAction`].
pub enum RedisActionView {
    Reply(Seq<char>),
    Read(Seq<char>),
    Write(KvCommandView, Seq<char>),
}

impl View for RedisAction {
    type V = RedisActionView;

    open spec fn view(&self) -> RedisActionView {
        match self {
            RedisAction::Reply(s) => RedisActionView::Reply(s@),
            RedisAction::Read { key } => RedisActionView::Read(key@),
            RedisAction::Write { command, ok_reply } => RedisActionView::Write(
                command@,
                ok_reply@,
            ),
        }
    }
}

/// The action for a command's arguments: PING answers PONG; GET reads a key;
/// SET and DEL write through the log (SET stores the value's UTF-8 bytes,
/// and its success reply is `+OK`, DEL's is `:1`); a missing argument is an
/// error naming the command; any other name is an unknown-command error.
pub open spec fn dispatch(args: Seq<Seq<char>>) -> RedisActionView {
    let name = args[0];
    if names_command(name, "PING"@) {
        RedisActionView::Reply("+PONG\r\n"@)
    } else if names_command(name, "GET"@) {
        if args.len() < 2 {
            RedisActionView::Reply("-ERR wrong number of arguments for GET\r\n"@)
        } else {
            RedisActionView::Read(args[1])
        }
    } else if names_command(name, "SET"@) {
        if args.len() < 3 {
            RedisActionView::Reply("-ERR wrong number of arguments for SET\r\n"@)
        } else {
            RedisActionView::Write(
                KvCommandView::Put { key: args[1], value: encode_utf8(args[2]) },
                "+OK\r\n"@,
            )
        }
    } else if names_command(name, "DEL"@) {
        if args.len() < 2 {
            RedisActionView::Reply("-ERR wrong number of arguments for DEL\r\n"@)
        } else {
            RedisActionView::Write(KvCommandView::Delete { key: args[1] }, ":1\r\n"@)
        }
    } else {
        RedisActionView::Reply("-ERR unknown command '"@ + name + "'\r\n"@)
    }
}

/// Decide what to do for a client command (the first argument names it).
pub fn dispatch_command(args: &Vec<String>) -> (r: RedisAction)
    requires
        args@.len() > 0,
    ensures
        r@ == dispatch(texts(args@)),
{
    let name = &args[0];
    if is_command(name, "PING") {
        return RedisAction::Reply(String::from_str("+PONG\r\n"));
    }
    if is_command(name, "GET") {
        if args.len() < 2 {
            return RedisAction::Reply(String::from_str("-ERR wrong number of arguments for GET\r\n"));
        }
        return RedisAction::Read { key: args[1].clone() };
    }
    if is_command(name, "SET") {
        if args.len() < 3 {
            return RedisAction::Reply(String::from_str("-ERR wrong number of arguments for SET\r\n"));
        }
        let value = vstd::slice::slice_to_vec(args[2].as_str().as_bytes());
        return RedisAction::Write {
            command: KvCommand::Put { key: args[1].clone(), value },
            ok_reply: String::from_str("+OK\r\n"),
        };
    }
    if is_command(name, "DEL") {
        if args.len() < 2 {
            return RedisAction::Reply(String::from_str("-ERR wrong number of arguments for DEL\r\n"));
        }
        return RedisAction::Write {
            command: KvCommand::Delete { key: args[1].clone() },
            ok_reply: String::from_str(":1\r\n"),
        };
    }
    let mut reply = String::from_str("-ERR unknown command '");
    reply.append(name.as_str());
    reply.append("'\r\n");
    RedisAction::Reply(reply)
}

// ─── Replies ─────────────────────────────────────────────────────────────────

/// The decimal digit character for `d`.
pub open spec fn digit_char(d: nat) -> char {
    if d == 0 {
        '0'
    } else if d == 1 {
        '1'
    } else if d == 2 {
        '2'
    } else if d == 3 {
        '3'
    } else if d == 4 {
        '4'
    } else if d == 5 {
        '5'
    } else if d == 6 {
        '6'
    } else if d == 7 {
        '7'
    } else if d == 8 {
        '8'
    } else {
        '9'
    }
}

/// The decimal representation of `n`, without leading zeros.
pub open spec fn decimal(n: nat) -> Seq<char>
    decreases n,
{
    if n < 10 {
        seq![digit_char(n)]
    } else {
        decimal(n / 10).push(digit_char(n % 10))
    }
}

fn digit_str(d: usize) -> (r: &'static str)
    requires
        d < 10,
    ensures
        r@ == seq![digit_char(d as nat)],
{
    if d == 0 {
        proof { reveal_strlit("0"); }
        "0"
    } else if d == 1 {
        proof { reveal_strlit("1"); }
        "1"
    } else if d == 2 {
        proof { reveal_strlit("2"); }
        "2"
    } else if d == 3 {
        proof { reveal_strlit("3"); }
        "3"
    } else if d == 4 {
        proof { reveal_strlit("4"); }
        "4"
    } else if d == 5 {
        proof { reveal_strlit("5"); }
        "5"
    } else if d == 6 {
        proof { reveal_strlit("6"); }
        "6"
    } else if d == 7 {
        proof { reveal_strlit("7"); }
        "7"
    } else if d == 8 {
        proof { reveal_strlit("8"); }
        "8"
    } else {
        proof { reveal_strlit("9"); }
        "9"
    }
}

/// The decimal representation of `n`.
pub fn decimal_string(n: usize) -> (r: String)
    ensures
        r@ == decimal(n as nat),
    decreases n,
{
    if n < 10 {
        String::from_str(digit_str(n))
    } else {
        let mut s = decimal_string(n / 10);
        s.append(digit_str(n % 10));
        s
    }
}

/// The text `String::from_utf8_lossy` makes of some bytes.
pub uninterp spec fn lossy_utf8(bytes: Seq<u8>) -> Seq<char>;

/// `String::from_utf8_lossy`, as an owned string.
///
/// Trusted: the result is named as a function of the bytes alone; std
/// documents that valid UTF-8 is returned unchanged (invalid sequences are
/// replaced by U+FFFD, which is left unstated).
#[verifier::external_body]
fn utf8_lossy(bytes: &[u8]) -> (r: String)
    ensures
        r@ == lossy_utf8(bytes@),
        valid_utf8(bytes@) ==> r@ == decode_utf8(bytes@),
{
    String::from_utf8_lossy(bytes).into_owned()
}

/// The reply to GET: a bulk string with the value's length in bytes and its
/// text, or the nil bulk string when the key is absent.
pub fn format_get_reply(value: Option<&[u8]>) -> (r: String)
    ensures
        r@ == match value {
            Some(v) => "$"@ + decimal(v@.len()) + "\r\n"@ + lossy_utf8(v@) + "\r\n"@,
            None => "$-1\r\n"@,
        },
{
    match value {
        Some(v) => {
            let mut r = String::from_str("$");
            let len = decimal_string(v.len());
            r.append(len.as_str());
            r.append("\r\n");
            let text = utf8_lossy(v);
            r.append(text.as_str());
            r.append("\r\n");
            r
        },
        None => String::from_str("$-1\r\n"),
    }
}

/// An error reply carrying `message`.
pub fn error_reply(message: &str) -> (r: String)
    ensures
        r@ == "-ERR "@ + message@ + "\r\n"@,
{
    let mut r = String::from_str("-ERR ");
    r.append(message);
    r.append("\r\n");
    r
}

/// A GET after a SET of the same key reads back the value that was set: SET
/// proposes storing the value's bytes under the key's bytes, and GET reads
/// that key, which then holds those bytes (whatever the state machine held
/// before); a DEL of the key makes GET find nothing.
pub proof fn lemma_get_after_set(m: Map<Seq<u8>, Seq<u8>>, key: Seq<char>, value: Seq<char>)
    ensures
        dispatch(seq!["SET"@, key, value]) matches RedisActionView::Write(cmd, ok) && {
            &&& ok == "+OK\r\n"@
            &&& dispatch(seq!["GET"@, key]) == RedisActionView::Read(key)
            &&& apply_command(m, cmd).contains_key(encode_utf8(key))
            &&& apply_command(m, cmd)[encode_utf8(key)] == encode_utf8(value)
        },
        dispatch(seq!["DEL"@, key]) matches RedisActionView::Write(cmd, ok) && {
            &&& ok == ":1\r\n"@
            &&& !apply_command(m, cmd).contains_key(encode_utf8(key))
        },
{
    reveal_strlit("SET");
    reveal_strlit("GET");
    reveal_strlit("DEL");
    reveal_strlit("PING");
    let set_args = seq!["SET"@, key, value];
    let get_args = seq!["GET"@, key];
    let del_args = seq!["DEL"@, key];
    assert(!names_command("SET"@, "PING"@));
    assert(!names_command("SET"@, "GET"@)) by {
        assert(!char_upper_is("SET"@[0], "GET"@[0]));
    }
    assert(names_command("SET"@, "SET"@));
    assert(names_command("GET"@, "GET"@));
    assert(!names_command("GET"@, "PING"@));
    assert(!names_command("DEL"@, "PING"@));
    assert(!names_command("DEL"@, "GET"@)) by {
        assert(!char_upper_is("DEL"@[0], "GET"@[0]));
    }
    assert(!names_command("DEL"@, "SET"@)) by {
        assert(!char_upper_is("DEL"@[0], "SET"@[0]));
    }
    assert(names_command("DEL"@, "DEL"@));
    assert(set_args[0] == "SET"@ && set_args[1] == key && set_args[2] == value);
    assert(get_args[0] == "GET"@ && get_args[1] == key);
    assert(del_args[0] == "DEL"@ && del_args[1] == key);
}

// ─── Encoding ────────────────────────────────────────────────────────────────

/// The ASCII digits of `n` in decimal.
pub open spec fn decimal_bytes(n: nat) -> Seq<u8>
    decreases n,
{
    if n < 10 {
        seq![(48 + n) as u8]
    } else {
        decimal_bytes(n / 10).push((48 + n % 10) as u8)
    }
}

pub open spec fn crlf() -> Seq<u8> {
    seq![13u8, 10u8]
}

/// A bulk string: `$`, the byte length, CRLF, the UTF-8 bytes, CRLF.
pub open spec fn bulk_string(t: Seq<char>) -> Seq<u8> {
    seq![36u8] + decimal_bytes(encode_utf8(t).len()) + crlf() + encode_utf8(t) + crlf()
}

pub open spec fn bulk_strings(args: Seq<Seq<char>>) -> Seq<u8>
    decreases args.len(),
{
    if args.len() == 0 {
        Seq::empty()
    } else {
        bulk_string(args[0]) + bulk_strings(args.drop_first())
    }
}

/// A command as a client sends it: `*`, the argument count, CRLF, and the
/// arguments as bulk strings.
pub open spec fn encode_command(args: Seq<Seq<char>>) -> Seq<u8> {
    seq![42u8] + decimal_bytes(args.len()) + crlf() + bulk_strings(args)
}

proof fn lemma_decimal_bytes(n: nat)
    ensures
        decimal_bytes(n).len() >= 1,
        all_digits(decimal_bytes(n)),
        digits_value(decimal_bytes(n)) == n,
    decreases n,
{
    if n < 10 {
        assert(decimal_bytes(n).drop_last() =~= Seq::<u8>::empty());
        assert(decimal_bytes(n).last() == 48 + n);
        assert(digits_value(decimal_bytes(n)) == digits_value(Seq::<u8>::empty()) * 10 + (
        decimal_bytes(n).last() - 48) as nat);
    } else {
        lemma_decimal_bytes(n / 10);
        let d = decimal_bytes(n);
        assert(d.drop_last() =~= decimal_bytes(n / 10));
        assert(d.last() == 48 + n % 10);
        assert((n / 10) * 10 + n % 10 == n);
        assert(digits_value(d) == digits_value(d.drop_last()) * 10 + (d.last() - 48) as nat);
        assert forall|i: int| 0 <= i < d.len() implies is_digit(#[trigger] d[i]) by {
            if i < d.len() - 1 {
                assert(d[i] == decimal_bytes(n / 10)[i]);
            }
        }
    }
}

proof fn lemma_newline_at(buf: Seq<u8>, from: int, k: int)
    requires
        0 <= from <= k < buf.len(),
        buf[k] == 10,
        forall|i: int| from <= i < k ==> buf[i] != 10,
    ensures
        newline_from(buf, from) == k,
    decreases k - from,
{
    if from < k {
        lemma_newline_at(buf, from + 1, k);
    }
}

proof fn lemma_read_header(buf: Seq<u8>, pos: int, m: u8, n: nat)
    requires
        m == 36 || m == 42,
        n <= usize::MAX,
        0 <= pos,
        pos + decimal_bytes(n).len() + 3 <= buf.len(),
        buf.subrange(pos, pos + decimal_bytes(n).len() + 3) == seq![m] + decimal_bytes(n) + crlf(),
    ensures
        read_header(buf, pos, m) == HeaderView::Value(n, pos + decimal_bytes(n).len() + 3),
{
    let d = decimal_bytes(n);
    lemma_decimal_bytes(n);
    let h = seq![m] + d + crlf();
    let k = pos + d.len() + 2;
    assert forall|i: int| pos <= i < k implies buf[i] != 10 by {
        assert(buf[i] == buf.subrange(pos, pos + d.len() + 3)[i - pos]);
        if i - pos >= 1 && i - pos <= d.len() {
            assert(h[i - pos] == d[i - pos - 1]);
            assert(is_digit(d[i - pos - 1]));
        }
    }
    assert(buf[k] == h[k - pos]);
    lemma_newline_at(buf, pos, k);
    let line = buf.subrange(pos, k + 1);
    assert(line =~= h);
    reveal_with_fuel(trim_crlf, 2);
    assert(h.take(h.len() - 2) =~= seq![m] + d);
    assert((seq![m] + d).last() == d.last());
    assert(is_digit(d[d.len() - 1]));
    assert(trim_crlf(line) =~= seq![m] + d);
    assert((seq![m] + d).drop_first() =~= d);
    assert(unsigned_digits(d) == d);
}

proof fn lemma_parse_bulk_strings(buf: Seq<u8>, pos: int, args: Seq<Seq<char>>)
    requires
        0 <= pos,
        pos + bulk_strings(args).len() <= buf.len(),
        buf.subrange(pos, pos + bulk_strings(args).len()) == bulk_strings(args),
        forall|i: int| 0 <= i < args.len() ==> encode_utf8(#[trigger] args[i]).len() + 2 <= usize::MAX,
    ensures
        parse_bulk_strings(buf, pos, args.len()) == RespParseView::Complete(
            args,
            pos + bulk_strings(args).len(),
        ),
    decreases args.len(),
{
    if args.len() == 0 {
        assert(args =~= Seq::<Seq<char>>::empty());
    } else {
        let t = args[0];
        let bytes = encode_utf8(t);
        let n = bytes.len();
        let d = decimal_bytes(n);
        let b = bulk_string(t);
        let rest = args.drop_first();
        let whole = bulk_strings(args);
        assert(whole == b + bulk_strings(rest));
        assert(encode_utf8(args[0]).len() + 2 <= usize::MAX);
        let hl: int = d.len() + 3int;
        assert(buf.subrange(pos, pos + hl) =~= seq![36u8] + d + crlf()) by {
            assert forall|i: int| 0 <= i < hl implies buf.subrange(pos, pos + hl)[i] == (seq![36u8]
                + d + crlf())[i] by {
                assert(buf.subrange(pos, pos + whole.len())[i] == whole[i]);
                assert(whole[i] == b[i]);
            }
        }
        lemma_read_header(buf, pos, 36, n);
        let start = pos + hl;
        assert(buf.subrange(start, start + n) =~= bytes) by {
            assert forall|i: int| 0 <= i < n implies buf.subrange(start, start + n)[i] == bytes[i] by {
                assert(buf.subrange(pos, pos + whole.len())[hl + i] == whole[hl + i]);
                assert(whole[hl + i] == b[hl + i]);
            }
        }
        vstd::utf8::encode_utf8_valid_utf8(t);
        vstd::utf8::encode_utf8_decode_utf8(t);
        let next = start + n + 2;
        assert(next == pos + b.len());
        assert(buf.subrange(next, next + bulk_strings(rest).len()) =~= bulk_strings(rest)) by {
            assert forall|i: int| 0 <= i < bulk_strings(rest).len() implies buf.subrange(
                next,
                next + bulk_strings(rest).len(),
            )[i] == bulk_strings(rest)[i] by {
                assert(buf.subrange(pos, pos + whole.len())[b.len() + i] == whole[b.len() + i]);
            }
        }
        assert forall|i: int| 0 <= i < rest.len() implies encode_utf8(#[trigger] rest[i]).len() + 2
            <= usize::MAX by {
            assert(rest[i] == args[i + 1]);
        }
        lemma_parse_bulk_strings(buf, next, rest);
        assert(seq![t] + rest =~= args);
    }
}

/// A command encoded as a client sends it is parsed back into the same
/// arguments, consuming exactly its bytes, whatever follows it in the buffer.
pub proof fn lemma_parse_encoded_command(args: Seq<Seq<char>>, rest: Seq<u8>)
    requires
        args.len() <= usize::MAX,
        forall|i: int| 0 <= i < args.len() ==> encode_utf8(#[trigger] args[i]).len() + 2 <= usize::MAX,
    ensures
        parse_command(encode_command(args) + rest) == RespParseView::Complete(
            args,
            encode_command(args).len() as int,
        ),
{
    let buf = encode_command(args) + rest;
    let d = decimal_bytes(args.len());
    let hl: int = d.len() + 3int;
    assert(buf.subrange(0, hl) =~= seq![42u8] + d + crlf());
    lemma_read_header(buf, 0, 42, args.len());
    let body = bulk_strings(args);
    assert(buf.subrange(hl, hl + body.len()) =~= body);
    lemma_parse_bulk_strings(buf, hl, args);
}

proof fn lemma_no_newline(buf: Seq<u8>, from: int)
    requires
        0 <= from,
        forall|i: int| from <= i < buf.len() ==> buf[i] != 10,
    ensures
        newline_from(buf, from) == -1,
    decreases buf.len() - from,
{
    if from < buf.len() {
        lemma_no_newline(buf, from + 1);
    }
}

/// A header line `<m><digits>\r\n` holds its only newline at its end.
proof fn lemma_header_newline_last(m: u8, n: nat, i: int)
    requires
        m == 36 || m == 42,
        0 <= i < decimal_bytes(n).len() + 2,
    ensures
        (seq![m] + decimal_bytes(n) + crlf())[i] != 10,
{
    lemma_decimal_bytes(n);
    let d = decimal_bytes(n);
    if 1 <= i <= d.len() {
        assert((seq![m] + d + crlf())[i] == d[i - 1]);
        assert(is_digit(d[i - 1]));
    }
}

/// A buffer that holds a strict prefix of the bulk strings of `args` from `pos`
/// on is still waiting for bytes.
proof fn lemma_prefix_bulk_strings(buf: Seq<u8>, pos: int, args: Seq<Seq<char>>)
    requires
        0 <= pos <= buf.len(),
        buf.len() < pos + bulk_strings(args).len(),
        buf.subrange(pos, buf.len() as int) == bulk_strings(args).take(buf.len() - pos),
        forall|i: int| 0 <= i < args.len() ==> encode_utf8(#[trigger] args[i]).len() + 2 <= usize::MAX,
    ensures
        parse_bulk_strings(buf, pos, args.len()) == RespParseView::Incomplete,
    decreases args.len(),
{
    if args.len() == 0 {
        assert(bulk_strings(args).len() == 0);
    } else {
        let t = args[0];
        let bytes = encode_utf8(t);
        let n = bytes.len();
        let d = decimal_bytes(n);
        let b = bulk_string(t);
        let rest = args.drop_first();
        let whole = bulk_strings(args);
        assert(whole == b + bulk_strings(rest));
        let hdr = seq![36u8] + d + crlf();
        let hl: int = d.len() + 3int;
        let avail: int = buf.len() - pos;
        assert forall|i: int| 0 <= i < avail implies buf[pos + i] == whole[i] by {
            assert(buf.subrange(pos, buf.len() as int)[i] == whole.take(avail)[i]);
        }
        assert forall|i: int| 0 <= i < hl implies whole[i] == hdr[i] by {
            assert(whole[i] == b[i]);
        }
        if avail < hl {
            assert forall|i: int| pos <= i < buf.len() implies buf[i] != 10 by {
                assert(buf[i] == whole[i - pos]);
                lemma_header_newline_last(36, n, i - pos);
            }
            lemma_no_newline(buf, pos);
        } else {
            assert(buf.subrange(pos, pos + hl) =~= hdr) by {
                assert forall|i: int| 0 <= i < hl implies buf.subrange(pos, pos + hl)[i] == hdr[i] by {
                    assert(buf[pos + i] == whole[i]);
                }
            }
            assert(encode_utf8(args[0]).len() + 2 <= usize::MAX);
            lemma_read_header(buf, pos, 36, n);
            let start = pos + hl;
            if start + n + 2 <= buf.len() {
                assert(buf.subrange(start, start + n) =~= bytes) by {
                    assert forall|i: int| 0 <= i < n implies buf.subrange(start, start + n)[i]
                        == bytes[i] by {
                        assert(buf[start + i] == whole[hl + i]);
                        assert(whole[hl + i] == b[hl + i]);
                    }
                }
                vstd::utf8::encode_utf8_valid_utf8(t);
                let next = start + n + 2;
                assert(next == pos + b.len());
                let br = bulk_strings(rest);
                assert(buf.subrange(next, buf.len() as int) =~= br.take(buf.len() - next)) by {
                    assert forall|i: int| 0 <= i < buf.len() - next implies buf.subrange(
                        next,
                        buf.len() as int,
                    )[i] == br.take(buf.len() - next)[i] by {
                        assert(buf[next + i] == whole[b.len() + i]);
                    }
                }
                assert forall|i: int| 0 <= i < rest.len() implies encode_utf8(#[trigger] rest[i]).len()
                    + 2 <= usize::MAX by {
                    assert(rest[i] == args[i + 1]);
                }
                lemma_prefix_bulk_strings(buf, next, rest);
            }
        }
    }
}

/// Every strict prefix of a command as a client encodes it is incomplete: a
/// read that ends anywhere inside a command, even inside a header line, waits
/// for more bytes rather than being taken for an error or for a command.
pub proof fn lemma_prefix_of_encoded_command_is_incomplete(args: Seq<Seq<char>>, k: int)
    requires
        args.len() <= usize::MAX,
        forall|i: int| 0 <= i < args.len() ==> encode_utf8(#[trigger] args[i]).len() + 2 <= usize::MAX,
        0 <= k < encode_command(args).len(),
    ensures
        parse_command(encode_command(args).take(k)) == RespParseView::Incomplete,
{
    let e = encode_command(args);
    let buf = e.take(k);
    let d = decimal_bytes(args.len());
    let hdr = seq![42u8] + d + crlf();
    let hl: int = d.len() + 3int;
    let body = bulk_strings(args);
    assert(e == hdr + body);
    if k < hl {
        assert forall|i: int| 0 <= i < buf.len() implies buf[i] != 10 by {
            assert(buf[i] == hdr[i]);
            lemma_header_newline_last(42, args.len(), i);
        }
        lemma_no_newline(buf, 0);
    } else {
        assert(buf.subrange(0, hl) =~= hdr);
        lemma_read_header(buf, 0, 42, args.len());
        assert(buf.subrange(hl, buf.len() as int) =~= body.take(k - hl));
        lemma_prefix_bulk_strings(buf, hl, args);
    }
}

/// `a` spells `word` (a word of capital ASCII letters) up to ASCII case: each
/// character is the word's letter or its lowercase form.
pub open spec fn same_ignoring_ascii_case(a: Seq<char>, word: Seq<char>) -> bool {
    &&& a.len() == word.len()
    &&& forall|i: int|
        0 <= i < a.len() ==> #[trigger] a[i] == word[i] || a[i] as u32 == word[i] as u32 + 32
}

/// Every character of `word` is a capital ASCII letter.
pub open spec fn capital_letters(word: Seq<char>) -> bool {
    forall|i: int| 0 <= i < word.len() ==> 'A' <= #[trigger] word[i] && word[i] <= 'Z'
}

/// The lowercase form of a capital letter names what the capital names.
proof fn lemma_lowercase_letter(a: char, w: char, x: char)
    requires
        'A' <= w && w <= 'Z',
        a as u32 == w as u32 + 32,
    ensures
        char_upper_is(a, x) == char_upper_is(w, x),
{
    assert(w as int >= 65);
    assert(a as int >= 97);
    assert(a as int <= 122);
    assert('a' <= a && a <= 'z');
    if a as u32 == x as u32 + 32 {
        assert(w as u32 == x as u32);
        assert(w == x);
    }
}

proof fn lemma_case_blind_names(a: Seq<char>, w: Seq<char>, x: Seq<char>)
    requires
        capital_letters(w),
        same_ignoring_ascii_case(a, w),
    ensures
        names_command(a, x) == names_command(w, x),
        names_command(w, w),
{
    if a.len() == x.len() {
        assert forall|i: int| 0 <= i < a.len() implies #[trigger] char_upper_is(a[i], x[i])
            == char_upper_is(w[i], x[i]) by {
            assert('A' <= w[i] && w[i] <= 'Z');
            assert(char_upper_is(w[i], x[i]) == (w[i] == x[i]));
            if a[i] != w[i] {
                lemma_lowercase_letter(a[i], w[i], x[i]);
            }
        }
        if names_command(w, x) {
            assert forall|i: int| 0 <= i < a.len() implies #[trigger] char_upper_is(a[i], x[i]) by {
                assert(char_upper_is(w[i], x[i]));
            }
        }
        if names_command(a, x) {
            assert forall|i: int| 0 <= i < w.len() implies #[trigger] char_upper_is(w[i], x[i]) by {
                assert(char_upper_is(a[i], x[i]));
            }
        }
    }
    assert forall|i: int| 0 <= i < w.len() implies #[trigger] char_upper_is(w[i], w[i]) by {
        assert('A' <= w[i] && w[i] <= 'Z');
    }
}

/// Command names are matched ignoring case: a command whose name spells PING,
/// GET, SET or DEL in any mix of upper- and lowercase letters is dispatched
/// exactly as the same command with the name in capitals.
pub proof fn lemma_dispatch_ignores_case(args: Seq<Seq<char>>, word: Seq<char>)
    requires
        args.len() > 0,
        word == "PING"@ || word == "GET"@ || word == "SET"@ || word == "DEL"@,
        same_ignoring_ascii_case(args[0], word),
    ensures
        dispatch(args) == dispatch(args.update(0, word)),
{
    reveal_strlit("PING");
    reveal_strlit("GET");
    reveal_strlit("SET");
    reveal_strlit("DEL");
    assert(capital_letters(word));
    let up = args.update(0, word);
    assert(up[0] == word);
    lemma_case_blind_names(args[0], word, "PING"@);
    lemma_case_blind_names(args[0], word, "GET"@);
    lemma_case_blind_names(args[0], word, "SET"@);
    lemma_case_blind_names(args[0], word, "DEL"@);
    assert(names_command(args[0], word));
    if args.len() >= 2 {
        assert(up[1] == args[1]);
    }
    if args.len() >= 3 {
        assert(up[2] == args[2]);
    }
}

} // verus!
