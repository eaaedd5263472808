//! The frame grammar: the syntactic unit of the wire protocol and its
//! (de)serialization rules, specified over `Seq<u8>` and executed on
//! byte slices and vectors.

use vstd::prelude::*;

verus! {

/// Frame terminator byte.
pub const NUL: u8 = 0;
/// Line feed, the line terminator.
pub const LF: u8 = 10;
/// Carriage return, tolerated before a line feed.
pub const CR: u8 = 13;
/// Separator between a header name and its value.
pub const COLON: u8 = 58;
/// Escape lead byte (backslash).
pub const BSLASH: u8 = 92;
/// The escape tail standing for a line feed (`n`).
pub const ESC_N: u8 = 110;
/// The escape tail standing for a carriage return (`r`).
pub const ESC_R: u8 = 114;
/// The escape tail standing for a colon (`c`).
pub const ESC_C: u8 = 99;

/// The closed command vocabulary of the protocol.
#[derive(Clone, Copy, PartialEq, Eq, Structural, Debug)]
pub enum Command {
    Connect,
    Connected,
    Send,
    Message,
    Subscribe,
    Unsubscribe,
    Ack,
    Nack,
    Begin,
    Commit,
    Abort,
    Disconnect,
    Receipt,
    Error,
}

/// The syntactic wire unit: command, ordered header list, optional body.
#[derive(Debug, PartialEq, Eq)]
pub struct Frame {
    pub command: Command,
    pub headers: Vec<(Vec<u8>, Vec<u8>)>,
    pub body: Option<Vec<u8>>,
}

/// Mathematical model of a [`Frame`].
#[verifier::ext_equal]
pub struct FrameModel {
    pub command: Command,
    pub headers: Seq<(Seq<u8>, Seq<u8>)>,
    pub body: Option<Seq<u8>>,
}

impl View for Frame {
    type V = FrameModel;

    open spec fn view(&self) -> FrameModel {
        FrameModel {
            command: self.command,
            headers: self.headers.deep_view(),
            body: self.body.deep_view(),
        }
    }
}

/// The escaped form of a single header byte.
pub open spec fn esc1(b: u8) -> Seq<u8> {
    if b == BSLASH {
        seq![BSLASH, BSLASH]
    } else if b == LF {
        seq![BSLASH, ESC_N]
    } else if b == CR {
        seq![BSLASH, ESC_R]
    } else if b == COLON {
        seq![BSLASH, ESC_C]
    } else {
        seq![b]
    }
}

/// The escaped form of a header name or value.
pub open spec fn escape(s: Seq<u8>) -> Seq<u8>
    decreases s.len(),
{
    if s.len() == 0 {
        Seq::empty()
    } else {
        esc1(s[0]) + escape(s.skip(1))
    }
}

/// Outcome of decoding the escape sequences of a header name or value.
pub enum Unescaped {
    /// The decoded bytes.
    Plain(Seq<u8>),
    /// A backslash followed by anything but `\\`, `n`, `r`, `c`, or nothing.
    BadEscape,
    /// A bare carriage return inside the line.
    Control,
}

/// Decode the escape sequences of a header name or value.
pub open spec fn unescape(s: Seq<u8>) -> Unescaped
    decreases s.len(),
{
    if s.len() == 0 {
        Unescaped::Plain(Seq::empty())
    } else if s[0] == CR {
        Unescaped::Control
    } else if s[0] == BSLASH {
        if s.len() == 1 {
            Unescaped::BadEscape
        } else if s[1] == ESC_N {
            unescape_push(LF, unescape(s.skip(2)))
        } else if s[1] == ESC_R {
            unescape_push(CR, unescape(s.skip(2)))
        } else if s[1] == ESC_C {
            unescape_push(COLON, unescape(s.skip(2)))
        } else if s[1] == BSLASH {
            unescape_push(BSLASH, unescape(s.skip(2)))
        } else {
            Unescaped::BadEscape
        }
    } else {
        unescape_push(s[0], unescape(s.skip(1)))
    }
}

/// Prepend one decoded byte to an unescaping outcome.
pub open spec fn unescape_push(b: u8, rest: Unescaped) -> Unescaped {
    match rest {
        Unescaped::Plain(t) => Unescaped::Plain(seq![b] + t),
        other => other,
    }
}

/// Escaping decodes back to the bytes it encoded.
pub proof fn lemma_unescape_escape(s: Seq<u8>)
    ensures
        unescape(escape(s)) == Unescaped::Plain(s),
    decreases s.len(),
{
    if s.len() == 0 {
        assert(s =~= Seq::<u8>::empty());
        assert(escape(s) =~= Seq::<u8>::empty());
    } else {
        lemma_unescape_escape(s.skip(1));
        let e = escape(s);
        assert(e =~= esc1(s[0]) + escape(s.skip(1)));
        if s[0] == BSLASH || s[0] == LF || s[0] == CR || s[0] == COLON {
            assert(e[0] == BSLASH && e.len() >= 2);
            assert(e.skip(2) =~= escape(s.skip(1)));
            assert(unescape(e) == unescape_push(s[0], unescape(escape(s.skip(1)))));
        } else {
            assert(e[0] == s[0]);
            assert(e.skip(1) =~= escape(s.skip(1)));
            assert(unescape(e) == unescape_push(s[0], unescape(escape(s.skip(1)))));
        }
        assert(unescape(e) == Unescaped::Plain(seq![s[0]] + s.skip(1)));
        assert(seq![s[0]] + s.skip(1) =~= s);
        assert(unescape(escape(s)) == Unescaped::Plain(s));
    }
}

/// Outcome of scanning for the end of a line.
pub enum LineScan {
    /// Index of the next line feed.
    Found(int),
    /// A NUL byte stands before any line feed: the framing is broken.
    SawNul,
    /// Neither a line feed nor a NUL up to the end of the buffer.
    NoLf,
}

/// Scan for the line feed that ends the line starting at `i`; a NUL
/// byte before it breaks the grammar.
pub open spec fn scan_line(s: Seq<u8>, i: int) -> LineScan
    decreases s.len() - i,
{
    if i < 0 || i >= s.len() {
        LineScan::NoLf
    } else if s[i] == LF {
        LineScan::Found(i)
    } else if s[i] == NUL {
        LineScan::SawNul
    } else {
        scan_line(s, i + 1)
    }
}

pub proof fn lemma_scan_line_found(s: Seq<u8>, i: int, j: int)
    requires
        0 <= i <= j < s.len(),
        s[j] == LF,
        forall|t: int| i <= t < j ==> s[t] != LF && s[t] != NUL,
    ensures
        scan_line(s, i) == LineScan::Found(j),
    decreases j - i,
{
    if i < j {
        lemma_scan_line_found(s, i + 1, j);
    }
}

pub proof fn lemma_scan_line_no_lf(s: Seq<u8>, i: int)
    requires
        0 <= i <= s.len(),
        forall|t: int| i <= t < s.len() ==> s[t] != LF && s[t] != NUL,
    ensures
        scan_line(s, i) == LineScan::NoLf,
    decreases s.len() - i,
{
    if i < s.len() {
        lemma_scan_line_no_lf(s, i + 1);
    }
}

/// Index of the first occurrence of `b` at or after `i`.
pub open spec fn find_byte(s: Seq<u8>, i: int, b: u8) -> Option<int>
    decreases s.len() - i,
{
    if i < 0 || i >= s.len() {
        None
    } else if s[i] == b {
        Some(i)
    } else {
        find_byte(s, i + 1, b)
    }
}

pub proof fn lemma_find_byte_found(s: Seq<u8>, i: int, b: u8, j: int)
    requires
        0 <= i <= j < s.len(),
        s[j] == b,
        forall|t: int| i <= t < j ==> s[t] != b,
    ensures
        find_byte(s, i, b) == Some(j),
    decreases j - i,
{
    if i < j {
        lemma_find_byte_found(s, i + 1, b, j);
    }
}

pub proof fn lemma_find_byte_none(s: Seq<u8>, i: int, b: u8)
    requires
        0 <= i <= s.len(),
        forall|t: int| i <= t < s.len() ==> s[t] != b,
    ensures
        find_byte(s, i, b) == None::<int>,
    decreases s.len() - i,
{
    if i < s.len() {
        lemma_find_byte_none(s, i + 1, b);
    }
}

/// Bounds of a successful scan, needed to recurse past the line.
pub proof fn lemma_scan_line_bounds(s: Seq<u8>, i: int)
    requires
        0 <= i,
    ensures
        match scan_line(s, i) {
            LineScan::Found(j) => i <= j < s.len() && s[j] == LF,
            _ => true,
        },
    decreases s.len() - i,
{
    if 0 <= i && i < s.len() && s[i] != LF && s[i] != NUL {
        lemma_scan_line_bounds(s, i + 1);
    }
}

/// Index after the blank-line padding that may precede a frame.
pub open spec fn skip_eols(s: Seq<u8>, i: int) -> int
    decreases s.len() - i,
{
    if i < 0 || i >= s.len() {
        i
    } else if s[i] == LF {
        skip_eols(s, i + 1)
    } else if s[i] == CR && i + 1 < s.len() && s[i + 1] == LF {
        skip_eols(s, i + 2)
    } else {
        i
    }
}

/// The line with a carriage return before its line feed stripped.
pub open spec fn strip_cr(line: Seq<u8>) -> Seq<u8> {
    if line.len() > 0 && line.last() == CR {
        line.drop_last()
    } else {
        line
    }
}

/// A decimal digit byte.
pub open spec fn is_digit(b: u8) -> bool {
    48 <= b <= 57
}

/// A non-empty, all-digit byte sequence.
pub open spec fn is_dec(s: Seq<u8>) -> bool {
    s.len() > 0 && forall|i: int| 0 <= i < s.len() ==> is_digit(s[i])
}

/// The number a digit sequence denotes.
pub open spec fn dec_val(s: Seq<u8>) -> nat
    decreases s.len(),
{
    if s.len() == 0 {
        0
    } else {
        dec_val(s.drop_last()) * 10 + (if s.last() >= 48 {
            (s.last() - 48) as nat
        } else {
            0
        })
    }
}

/// The canonical decimal rendering of a number.
pub open spec fn dec_of(n: nat) -> Seq<u8>
    decreases n,
{
    if n < 10 {
        seq![(n + 48) as u8]
    } else {
        dec_of(n / 10) + seq![((n % 10) + 48) as u8]
    }
}

/// Rendering a number in decimal and reading it back is the identity.
pub proof fn lemma_dec_of_val(n: nat)
    ensures
        is_dec(dec_of(n)),
        dec_val(dec_of(n)) == n,
    decreases n,
{
    if n < 10 {
        let s = dec_of(n);
        assert(s.drop_last() =~= Seq::<u8>::empty());
        assert(s.len() == 1);
        assert(s.last() == (n + 48) as u8);
        assert(s.last() == n + 48);
        assert(dec_val(s.drop_last()) == 0);
        assert(dec_val(s) == n);
    } else {
        lemma_dec_of_val(n / 10);
        let s = dec_of(n);
        let a = dec_of(n / 10);
        let d = ((n % 10) + 48) as u8;
        assert(s.last() == d);
        assert(s.drop_last() =~= a);
        assert(dec_val(s) == dec_val(a) * 10 + n % 10);
        assert((n / 10) * 10 + n % 10 == n);
        assert(forall|i: int| 0 <= i < s.len() ==> is_digit(#[trigger] s[i])) by {
            assert(forall|i: int| 0 <= i < a.len() ==> is_digit(#[trigger] a[i]));
            assert(forall|i: int| 0 <= i < s.len() && i < a.len() ==> s[i] == a[i]);
            assert(is_digit(d));
        }
    }
}

/// The value of a digit sequence only grows as more digits follow.
pub proof fn lemma_dec_val_take_grows(s: Seq<u8>, i: int)
    requires
        0 <= i <= s.len(),
    ensures
        dec_val(s.take(i)) <= dec_val(s),
    decreases s.len() - i,
{
    if i < s.len() {
        lemma_dec_val_take_grows(s, i + 1);
        assert(s.take(i + 1).drop_last() =~= s.take(i));
        assert(s.take(i + 1).last() == s[i]);
        assert(dec_val(s.take(i)) <= dec_val(s.take(i + 1)));
    } else {
        assert(s.take(i) =~= s);
    }
}

/// The wire spelling of each command.
pub open spec fn cmd_bytes(c: Command) -> Seq<u8> {
    match c {
        // CONNECT
        Command::Connect => seq![67u8, 79, 78, 78, 69, 67, 84],
        // CONNECTED
        Command::Connected => seq![67u8, 79, 78, 78, 69, 67, 84, 69, 68],
        // SEND
        Command::Send => seq![83u8, 69, 78, 68],
        // MESSAGE
        Command::Message => seq![77u8, 69, 83, 83, 65, 71, 69],
        // SUBSCRIBE
        Command::Subscribe => seq![83u8, 85, 66, 83, 67, 82, 73, 66, 69],
        // UNSUBSCRIBE
        Command::Unsubscribe => seq![85u8, 78, 83, 85, 66, 83, 67, 82, 73, 66, 69],
        // ACK
        Command::Ack => seq![65u8, 67, 75],
        // NACK
        Command::Nack => seq![78u8, 65, 67, 75],
        // BEGIN
        Command::Begin => seq![66u8, 69, 71, 73, 78],
        // COMMIT
        Command::Commit => seq![67u8, 79, 77, 77, 73, 84],
        // ABORT
        Command::Abort => seq![65u8, 66, 79, 82, 84],
        // DISCONNECT
        Command::Disconnect => seq![68u8, 73, 83, 67, 79, 78, 78, 69, 67, 84],
        // RECEIPT
        Command::Receipt => seq![82u8, 69, 67, 69, 73, 80, 84],
        // ERROR
        Command::Error => seq![69u8, 82, 82, 79, 82],
    }
}

/// Look a command line up in the closed vocabulary.
pub open spec fn cmd_of(line: Seq<u8>) -> Option<Command> {
    if line == cmd_bytes(Command::Connect) {
        Some(Command::Connect)
    } else if line == cmd_bytes(Command::Connected) {
        Some(Command::Connected)
    } else if line == cmd_bytes(Command::Send) {
        Some(Command::Send)
    } else if line == cmd_bytes(Command::Message) {
        Some(Command::Message)
    } else if line == cmd_bytes(Command::Subscribe) {
        Some(Command::Subscribe)
    } else if line == cmd_bytes(Command::Unsubscribe) {
        Some(Command::Unsubscribe)
    } else if line == cmd_bytes(Command::Ack) {
        Some(Command::Ack)
    } else if line == cmd_bytes(Command::Nack) {
        Some(Command::Nack)
    } else if line == cmd_bytes(Command::Begin) {
        Some(Command::Begin)
    } else if line == cmd_bytes(Command::Commit) {
        Some(Command::Commit)
    } else if line == cmd_bytes(Command::Abort) {
        Some(Command::Abort)
    } else if line == cmd_bytes(Command::Disconnect) {
        Some(Command::Disconnect)
    } else if line == cmd_bytes(Command::Receipt) {
        Some(Command::Receipt)
    } else if line == cmd_bytes(Command::Error) {
        Some(Command::Error)
    } else {
        None
    }
}

/// Command spellings are pairwise distinct, so lookup inverts rendering.
/// Two byte sequences of different lengths differ.
pub proof fn lemma_neq_len(a: Seq<u8>, b: Seq<u8>)
    requires
        a.len() != b.len(),
    ensures
        a != b,
{
}

/// Two byte sequences differing in their first byte differ.
pub proof fn lemma_neq_first(a: Seq<u8>, b: Seq<u8>)
    requires
        a.len() > 0,
        b.len() > 0,
        a[0] != b[0],
    ensures
        a != b,
{
}

/// Any command differs from any other in length or first byte, so
/// lookup inverts rendering.
pub proof fn lemma_cmd_of_bytes(c: Command)
    ensures
        cmd_of(cmd_bytes(c)) == Some(c),
{
    let cn = cmd_bytes(Command::Connect);
    let cd = cmd_bytes(Command::Connected);
    let se = cmd_bytes(Command::Send);
    let me = cmd_bytes(Command::Message);
    let su = cmd_bytes(Command::Subscribe);
    let un = cmd_bytes(Command::Unsubscribe);
    let ac = cmd_bytes(Command::Ack);
    let na = cmd_bytes(Command::Nack);
    let be = cmd_bytes(Command::Begin);
    let co = cmd_bytes(Command::Commit);
    let ab = cmd_bytes(Command::Abort);
    let di = cmd_bytes(Command::Disconnect);
    let re = cmd_bytes(Command::Receipt);
    let er = cmd_bytes(Command::Error);
    match c {
        Command::Connect => {
        },
        Command::Connected => {
            lemma_neq_len(cd, cn);
        },
        Command::Send => {
            lemma_neq_len(se, cn);
            lemma_neq_len(se, cd);
        },
        Command::Message => {
            lemma_neq_first(me, cn);
            lemma_neq_len(me, cd);
            lemma_neq_len(me, se);
        },
        Command::Subscribe => {
            lemma_neq_len(su, cn);
            lemma_neq_first(su, cd);
            lemma_neq_len(su, se);
            lemma_neq_len(su, me);
        },
        Command::Unsubscribe => {
            lemma_neq_len(un, cn);
            lemma_neq_len(un, cd);
            lemma_neq_len(un, se);
            lemma_neq_len(un, me);
            lemma_neq_len(un, su);
        },
        Command::Ack => {
            lemma_neq_len(ac, cn);
            lemma_neq_len(ac, cd);
            lemma_neq_len(ac, se);
            lemma_neq_len(ac, me);
            lemma_neq_len(ac, su);
            lemma_neq_len(ac, un);
        },
        Command::Nack => {
            lemma_neq_len(na, cn);
            lemma_neq_len(na, cd);
            lemma_neq_first(na, se);
            lemma_neq_len(na, me);
            lemma_neq_len(na, su);
            lemma_neq_len(na, un);
            lemma_neq_len(na, ac);
        },
        Command::Begin => {
            lemma_neq_len(be, cn);
            lemma_neq_len(be, cd);
            lemma_neq_len(be, se);
            lemma_neq_len(be, me);
            lemma_neq_len(be, su);
            lemma_neq_len(be, un);
            lemma_neq_len(be, ac);
            lemma_neq_len(be, na);
        },
        Command::Commit => {
            lemma_neq_len(co, cn);
            lemma_neq_len(co, cd);
            lemma_neq_len(co, se);
            lemma_neq_len(co, me);
            lemma_neq_len(co, su);
            lemma_neq_len(co, un);
            lemma_neq_len(co, ac);
            lemma_neq_len(co, na);
            lemma_neq_len(co, be);
        },
        Command::Abort => {
            lemma_neq_len(ab, cn);
            lemma_neq_len(ab, cd);
            lemma_neq_len(ab, se);
            lemma_neq_len(ab, me);
            lemma_neq_len(ab, su);
            lemma_neq_len(ab, un);
            lemma_neq_len(ab, ac);
            lemma_neq_len(ab, na);
            lemma_neq_first(ab, be);
            lemma_neq_len(ab, co);
        },
        Command::Disconnect => {
            lemma_neq_len(di, cn);
            lemma_neq_len(di, cd);
            lemma_neq_len(di, se);
            lemma_neq_len(di, me);
            lemma_neq_len(di, su);
            lemma_neq_len(di, un);
            lemma_neq_len(di, ac);
            lemma_neq_len(di, na);
            lemma_neq_len(di, be);
            lemma_neq_len(di, co);
            lemma_neq_len(di, ab);
        },
        Command::Receipt => {
            lemma_neq_first(re, cn);
            lemma_neq_len(re, cd);
            lemma_neq_len(re, se);
            lemma_neq_first(re, me);
            lemma_neq_len(re, su);
            lemma_neq_len(re, un);
            lemma_neq_len(re, ac);
            lemma_neq_len(re, na);
            lemma_neq_len(re, be);
            lemma_neq_len(re, co);
            lemma_neq_len(re, ab);
            lemma_neq_len(re, di);
        },
        Command::Error => {
            lemma_neq_len(er, cn);
            lemma_neq_len(er, cd);
            lemma_neq_len(er, se);
            lemma_neq_len(er, me);
            lemma_neq_len(er, su);
            lemma_neq_len(er, un);
            lemma_neq_len(er, ac);
            lemma_neq_len(er, na);
            lemma_neq_first(er, be);
            lemma_neq_len(er, co);
            lemma_neq_first(er, ab);
            lemma_neq_len(er, di);
            lemma_neq_len(er, re);
        },
    }
}

/// Command spellings hold no line break, carriage return or NUL.
pub proof fn lemma_cmd_bytes_clean(c: Command)
    ensures
        cmd_bytes(c).len() > 0,
        forall|t: int|
            0 <= t < cmd_bytes(c).len() ==> cmd_bytes(c)[t] != LF && cmd_bytes(c)[t] != CR
                && cmd_bytes(c)[t] != NUL,
{
}

/// The grammar rule a malformed buffer violates.
#[derive(Clone, Copy, PartialEq, Eq, Structural, Debug)]
pub enum ParseError {
    /// The command line is not in the closed vocabulary.
    UnknownCommand,
    /// A header line has no colon or a bad escape sequence.
    InvalidHeaderLine,
    /// An unescaped control character inside a header line.
    ControlCharacter,
    /// A NUL where line structure was expected, or no NUL after a
    /// `content-length`-sized body.
    MissingTerminator,
}

/// No NUL byte: what a header name or value must satisfy to be
/// serializable inside a frame.
pub open spec fn clean_bytes(s: Seq<u8>) -> bool {
    forall|i: int| 0 <= i < s.len() ==> s[i] != NUL
}

pub open spec fn wf_headers(hs: Seq<(Seq<u8>, Seq<u8>)>) -> bool {
    forall|i: int|
        0 <= i < hs.len() ==> clean_bytes(#[trigger] hs[i].0) && clean_bytes(hs[i].1)
}

/// A frame whose headers can be written to the wire.
pub open spec fn wf_frame(f: FrameModel) -> bool {
    wf_headers(f.headers)
}

/// Escaped header bytes hold no line feed, carriage return or colon,
/// and no NUL when the input had none.
pub proof fn lemma_escape_clean(s: Seq<u8>)
    ensures
        forall|i: int|
            0 <= i < escape(s).len() ==> escape(s)[i] != LF && escape(s)[i] != CR
                && escape(s)[i] != COLON,
        clean_bytes(s) ==> clean_bytes(escape(s)),
    decreases s.len(),
{
    if s.len() > 0 {
        lemma_escape_clean(s.skip(1));
        assert(escape(s) =~= esc1(s[0]) + escape(s.skip(1)));
    }
}

/// The name of the automatic body-length header.
pub open spec fn cl_name() -> Seq<u8> {
    // content-length
    seq![99u8, 111, 110, 116, 101, 110, 116, 45, 108, 101, 110, 103, 116, 104]
}

/// Whether some header carries this name.
pub open spec fn has_name(hs: Seq<(Seq<u8>, Seq<u8>)>, name: Seq<u8>) -> bool
    decreases hs.len(),
{
    hs.len() > 0 && (hs[0].0 == name || has_name(hs.skip(1), name))
}

/// The value of the first header with this name: the authoritative one.
pub open spec fn first_val(hs: Seq<(Seq<u8>, Seq<u8>)>, name: Seq<u8>) -> Option<Seq<u8>>
    decreases hs.len(),
{
    if hs.len() == 0 {
        None
    } else if hs[0].0 == name {
        Some(hs[0].1)
    } else {
        first_val(hs.skip(1), name)
    }
}

/// The header list with the first occurrence of this name removed.
pub open spec fn remove_first(hs: Seq<(Seq<u8>, Seq<u8>)>, name: Seq<u8>) -> Seq<
    (Seq<u8>, Seq<u8>),
>
    decreases hs.len(),
{
    if hs.len() == 0 {
        hs
    } else if hs[0].0 == name {
        hs.skip(1)
    } else {
        seq![hs[0]] + remove_first(hs.skip(1), name)
    }
}

/// One serialized header line: escaped name, colon, escaped value, line feed.
pub open spec fn ser_header(n: Seq<u8>, v: Seq<u8>) -> Seq<u8> {
    escape(n) + seq![COLON] + escape(v) + seq![LF]
}

/// The serialized header block, one line per header, order preserved.
pub open spec fn ser_headers(hs: Seq<(Seq<u8>, Seq<u8>)>) -> Seq<u8>
    decreases hs.len(),
{
    if hs.len() == 0 {
        Seq::empty()
    } else {
        ser_header(hs[0].0, hs[0].1) + ser_headers(hs.skip(1))
    }
}

/// The automatic `content-length` line: written exactly when a body is
/// present and the caller's headers do not already declare one.
pub open spec fn ser_auto_cl(f: FrameModel) -> Seq<u8> {
    match f.body {
        Some(b) => if has_name(f.headers, cl_name()) {
            Seq::empty()
        } else {
            cl_name() + seq![COLON] + dec_of(b.len()) + seq![LF]
        },
        None => Seq::empty(),
    }
}

/// The body bytes themselves.
pub open spec fn body_bytes(f: FrameModel) -> Seq<u8> {
    match f.body {
        Some(b) => b,
        None => Seq::empty(),
    }
}

/// The full wire rendering of a frame: command line, header lines, the
/// automatic `content-length`, a blank line, the body, one NUL.
pub open spec fn ser_frame(f: FrameModel) -> Seq<u8> {
    cmd_bytes(f.command) + seq![LF] + ser_headers(f.headers) + ser_auto_cl(f) + seq![LF]
        + body_bytes(f) + seq![NUL]
}

/// Outcome of parsing the header block.
pub enum HeaderParse {
    /// The headers and the index just past the blank line.
    Done(Seq<(Seq<u8>, Seq<u8>)>, int),
    /// More bytes are needed.
    More,
    /// The block violates the grammar.
    Bad(ParseError),
}

/// Decode one header line already split at its first raw colon, and
/// prepend it to the outcome of the rest of the block.
pub open spec fn parse_header_tail(line: Seq<u8>, k: int, rest: HeaderParse) -> HeaderParse {
    match unescape(line.take(k)) {
        Unescaped::Plain(n) => match unescape(line.skip(k + 1)) {
            Unescaped::Plain(v) => match rest {
                HeaderParse::Done(hs, p) => HeaderParse::Done(seq![(n, v)] + hs, p),
                other => other,
            },
            Unescaped::Control => HeaderParse::Bad(ParseError::ControlCharacter),
            Unescaped::BadEscape => HeaderParse::Bad(ParseError::InvalidHeaderLine),
        },
        Unescaped::Control => HeaderParse::Bad(ParseError::ControlCharacter),
        Unescaped::BadEscape => HeaderParse::Bad(ParseError::InvalidHeaderLine),
    }
}

/// Parse header lines from `i` up to and including the blank line.
pub open spec fn parse_headers(s: Seq<u8>, i: int) -> HeaderParse
    decreases s.len() - i,
    via parse_headers_dec
{
    if i < 0 || i > s.len() {
        HeaderParse::More
    } else {
        match scan_line(s, i) {
            LineScan::NoLf => HeaderParse::More,
            LineScan::SawNul => HeaderParse::Bad(ParseError::MissingTerminator),
            LineScan::Found(j) => {
                let line = strip_cr(s.subrange(i, j));
                if line.len() == 0 {
                    HeaderParse::Done(Seq::empty(), j + 1)
                } else {
                    match find_byte(line, 0, COLON) {
                        None => HeaderParse::Bad(ParseError::InvalidHeaderLine),
                        Some(k) => parse_header_tail(line, k, parse_headers(s, j + 1)),
                    }
                }
            },
        }
    }
}

#[via_fn]
proof fn parse_headers_dec(s: Seq<u8>, i: int) {
    if 0 <= i {
        lemma_scan_line_bounds(s, i);
    }
}

/// Outcome of parsing one frame from the front of a buffer.
pub enum FrameParse {
    /// The frame and the number of bytes it occupied.
    Complete(FrameModel, int),
    /// More bytes are needed; nothing may be discarded.
    Incomplete,
    /// The buffer violates the grammar; the stream is no longer trustworthy.
    Malformed(ParseError),
}

/// Parse the body region starting at `p`: sized by an integer-valued
/// `content-length` header when one is present, else delimited by the
/// next NUL.
pub open spec fn parse_body(s: Seq<u8>, p: int, cmd: Command, hs: Seq<(Seq<u8>, Seq<u8>)>) -> FrameParse {
    let clv = first_val(hs, cl_name());
    if clv is Some && is_dec(clv->0) {
        let cl = dec_val(clv->0) as int;
        if p + cl + 1 <= s.len() {
            if s[p + cl] == NUL {
                FrameParse::Complete(
                    FrameModel {
                        command: cmd,
                        headers: remove_first(hs, cl_name()),
                        body: Some(s.subrange(p, p + cl)),
                    },
                    p + cl + 1,
                )
            } else {
                FrameParse::Malformed(ParseError::MissingTerminator)
            }
        } else {
            FrameParse::Incomplete
        }
    } else {
        match find_byte(s, p, NUL) {
            None => FrameParse::Incomplete,
            Some(q) => FrameParse::Complete(
                FrameModel {
                    command: cmd,
                    headers: hs,
                    body: if q == p {
                        None
                    } else {
                        Some(s.subrange(p, q))
                    },
                },
                q + 1,
            ),
        }
    }
}

/// Parse one frame from the front of the buffer: skip blank-line
/// padding, read the command line, the header block, then the body.
pub open spec fn parse_spec(s: Seq<u8>) -> FrameParse {
    let start = skip_eols(s, 0);
    match scan_line(s, start) {
        LineScan::NoLf => FrameParse::Incomplete,
        LineScan::SawNul => FrameParse::Malformed(ParseError::MissingTerminator),
        LineScan::Found(j) => {
            let line = strip_cr(s.subrange(start, j));
            match cmd_of(line) {
                None => FrameParse::Malformed(ParseError::UnknownCommand),
                Some(cmd) => match parse_headers(s, j + 1) {
                    HeaderParse::More => FrameParse::Incomplete,
                    HeaderParse::Bad(e) => FrameParse::Malformed(e),
                    HeaderParse::Done(hs, p) => parse_body(s, p, cmd, hs),
                },
            }
        },
    }
}

/// Bytes with nothing to escape are their own escaped form.
pub proof fn lemma_escape_id(s: Seq<u8>)
    requires
        forall|i: int|
            0 <= i < s.len() ==> s[i] != BSLASH && s[i] != LF && s[i] != CR && s[i] != COLON,
    ensures
        escape(s) == s,
    decreases s.len(),
{
    if s.len() == 0 {
        assert(escape(s) =~= s);
    } else {
        lemma_escape_id(s.skip(1));
        assert(escape(s) =~= seq![s[0]] + s.skip(1));
        assert(seq![s[0]] + s.skip(1) =~= s);
    }
}

/// Serialization of a header block distributes over concatenation.
pub proof fn lemma_ser_headers_append(a: Seq<(Seq<u8>, Seq<u8>)>, b: Seq<(Seq<u8>, Seq<u8>)>)
    ensures
        ser_headers(a + b) == ser_headers(a) + ser_headers(b),
    decreases a.len(),
{
    if a.len() == 0 {
        assert(a + b =~= b);
        assert(ser_headers(a) + ser_headers(b) =~= ser_headers(b));
    } else {
        lemma_ser_headers_append(a.skip(1), b);
        assert((a + b).skip(1) =~= a.skip(1) + b);
        assert((a + b)[0] == a[0]);
        assert(ser_headers(a + b) =~= ser_header(a[0].0, a[0].1) + (ser_headers(a.skip(1))
            + ser_headers(b)));
        assert(ser_header(a[0].0, a[0].1) + (ser_headers(a.skip(1)) + ser_headers(b)) =~= (
        ser_header(a[0].0, a[0].1) + ser_headers(a.skip(1))) + ser_headers(b));
    }
}

/// A name that no header carries is not found.
pub proof fn lemma_first_val_absent(hs: Seq<(Seq<u8>, Seq<u8>)>, name: Seq<u8>)
    requires
        !has_name(hs, name),
    ensures
        first_val(hs, name) == None::<Seq<u8>>,
    decreases hs.len(),
{
    if hs.len() > 0 {
        lemma_first_val_absent(hs.skip(1), name);
    }
}

/// Finding a name in a concatenation looks left first.
pub proof fn lemma_first_val_append(
    a: Seq<(Seq<u8>, Seq<u8>)>,
    b: Seq<(Seq<u8>, Seq<u8>)>,
    name: Seq<u8>,
)
    ensures
        first_val(a + b, name) == if has_name(a, name) {
            first_val(a, name)
        } else {
            first_val(b, name)
        },
        has_name(a + b, name) == (has_name(a, name) || has_name(b, name)),
    decreases a.len(),
{
    if a.len() == 0 {
        assert(a + b =~= b);
    } else {
        lemma_first_val_append(a.skip(1), b, name);
        assert((a + b).skip(1) =~= a.skip(1) + b);
        assert((a + b)[0] == a[0]);
    }
}

/// Removing a name that only a trailing singleton carries keeps the rest.
pub proof fn lemma_remove_first_append_absent(
    a: Seq<(Seq<u8>, Seq<u8>)>,
    x: (Seq<u8>, Seq<u8>),
    name: Seq<u8>,
)
    requires
        !has_name(a, name),
        x.0 == name,
    ensures
        remove_first(a + seq![x], name) == a,
    decreases a.len(),
{
    if a.len() == 0 {
        assert(a + seq![x] =~~= seq![x]);
        assert(remove_first(seq![x], name) =~~= a);
    } else {
        lemma_remove_first_append_absent(a.skip(1), x, name);
        assert((a + seq![x]).skip(1) =~~= a.skip(1) + seq![x]);
        assert((a + seq![x])[0] == a[0]);
        assert(remove_first(a + seq![x], name) =~~= seq![a[0]] + remove_first(
            a.skip(1) + seq![x],
            name,
        ));
        assert(seq![a[0]] + a.skip(1) =~~= a);
    }
}

/// A name is carried exactly when a value is found for it.
pub proof fn lemma_has_name_first_val(hs: Seq<(Seq<u8>, Seq<u8>)>, name: Seq<u8>)
    ensures
        has_name(hs, name) <==> first_val(hs, name) is Some,
    decreases hs.len(),
{
    if hs.len() > 0 {
        lemma_has_name_first_val(hs.skip(1), name);
    }
}

/// Removing a name from a concatenation removes it from the left part
/// when the left part carries it, else from the right part.
pub proof fn lemma_remove_first_append(
    a: Seq<(Seq<u8>, Seq<u8>)>,
    b: Seq<(Seq<u8>, Seq<u8>)>,
    name: Seq<u8>,
)
    ensures
        remove_first(a + b, name) == if has_name(a, name) {
            remove_first(a, name) + b
        } else {
            a + remove_first(b, name)
        },
    decreases a.len(),
{
    if a.len() == 0 {
        assert(a + b =~~= b);
        assert(a + remove_first(b, name) =~~= remove_first(b, name));
    } else {
        lemma_remove_first_append(a.skip(1), b, name);
        assert((a + b).skip(1) =~~= a.skip(1) + b);
        assert((a + b)[0] == a[0]);
        if a[0].0 == name {
            assert(remove_first(a + b, name) =~~= remove_first(a, name) + b);
        } else if has_name(a.skip(1), name) {
            assert(remove_first(a + b, name) =~~= seq![a[0]] + (remove_first(a.skip(1), name)
                + b));
            assert(seq![a[0]] + (remove_first(a.skip(1), name) + b) =~~= (seq![a[0]]
                + remove_first(a.skip(1), name)) + b);
            assert(remove_first(a, name) =~~= seq![a[0]] + remove_first(a.skip(1), name));
        } else {
            assert(remove_first(a + b, name) =~~= seq![a[0]] + (a.skip(1) + remove_first(
                b,
                name,
            )));
            assert(seq![a[0]] + (a.skip(1) + remove_first(b, name)) =~~= (seq![a[0]] + a.skip(1))
                + remove_first(b, name));
            assert(seq![a[0]] + a.skip(1) =~~= a);
        }
    }
}

/// The automatic `content-length` name has nothing to escape.
pub proof fn lemma_cl_name_clean()
    ensures
        forall|i: int|
            0 <= i < cl_name().len() ==> cl_name()[i] != BSLASH && cl_name()[i] != LF
                && cl_name()[i] != CR && cl_name()[i] != COLON && cl_name()[i] != NUL,
        escape(cl_name()) == cl_name(),
{
    assert forall|i: int|
        0 <= i < cl_name().len() implies cl_name()[i] != BSLASH && cl_name()[i] != LF
        && cl_name()[i] != CR && cl_name()[i] != COLON && cl_name()[i] != NUL by {
        let n = cl_name();
        assert(n.len() == 14);
    }
    lemma_escape_id(cl_name());
}

/// Digit bytes have nothing to escape and are no terminator.
pub proof fn lemma_digits_clean(s: Seq<u8>)
    requires
        forall|i: int| 0 <= i < s.len() ==> is_digit(s[i]),
    ensures
        forall|i: int|
            0 <= i < s.len() ==> s[i] != BSLASH && s[i] != LF && s[i] != CR && s[i] != COLON
                && s[i] != NUL,
        escape(s) == s,
{
    lemma_escape_id(s);
}

/// Parsing the serialized header block yields the headers back and
/// stops just past the blank line.
pub proof fn lemma_parse_ser_headers(
    s: Seq<u8>,
    i: int,
    hs: Seq<(Seq<u8>, Seq<u8>)>,
    tail: Seq<u8>,
)
    requires
        wf_headers(hs),
        0 <= i <= s.len(),
        s.skip(i) == ser_headers(hs) + seq![LF] + tail,
    ensures
        parse_headers(s, i) == HeaderParse::Done(hs, i + ser_headers(hs).len() + 1),
    decreases hs.len(),
{
    let d = s.skip(i);
    if hs.len() == 0 {
        assert(d =~= seq![LF] + tail);
        assert(d.len() >= 1);
        assert(s[i] == d[0]);
        assert(s[i] == LF);
        assert(scan_line(s, i) == LineScan::Found(i));
        assert(strip_cr(s.subrange(i, i)).len() == 0);
        assert(hs =~~= Seq::<(Seq<u8>, Seq<u8>)>::empty());
        assert(parse_headers(s, i) == HeaderParse::Done(hs, i + ser_headers(hs).len() + 1));
    } else {
        let n0 = hs[0].0;
        let v0 = hs[0].1;
        let en = escape(n0);
        let ev = escape(v0);
        let ll = en.len() + 1 + ev.len() as int;
        assert(clean_bytes(n0) && clean_bytes(v0));
        lemma_escape_clean(n0);
        lemma_escape_clean(v0);
        assert(d =~= (en + seq![COLON] + ev + seq![LF]) + (ser_headers(hs.skip(1)) + seq![LF]
            + tail));
        assert(d.len() == s.len() - i);
        assert(d.len() >= ll + 2);
        assert forall|t: int| i <= t < i + ll implies s[t] != LF && s[t] != NUL by {
            let u = t - i;
            assert(s[t] == d[u]);
            if u < en.len() {
                assert(d[u] == en[u]);
            } else if u == en.len() {
                assert(d[u] == COLON);
            } else {
                assert(d[u] == ev[u - en.len() - 1]);
            }
        }
        assert(s[i + ll] == d[ll]);
        assert(s[i + ll] == LF);
        lemma_scan_line_found(s, i, i + ll);
        let sub = s.subrange(i, i + ll);
        assert(sub =~= en + seq![COLON] + ev);
        if ev.len() > 0 {
            assert(sub.last() == ev.last());
            assert(sub.last() != CR);
        } else {
            assert(sub.last() == COLON);
        }
        let line = strip_cr(sub);
        assert(line == sub);
        assert(line.len() == ll);
        assert(line[en.len() as int] == COLON);
        assert(forall|t: int| 0 <= t < en.len() ==> line[t] == en[t]);
        lemma_find_byte_found(line, 0, COLON, en.len() as int);
        assert(line.take(en.len() as int) =~= en);
        assert(line.skip(en.len() + 1 as int) =~= ev);
        lemma_unescape_escape(n0);
        lemma_unescape_escape(v0);
        assert forall|t: int| 0 <= t < hs.skip(1).len() implies clean_bytes(
            #[trigger] hs.skip(1)[t].0,
        ) && clean_bytes(hs.skip(1)[t].1) by {
            assert(hs.skip(1)[t] == hs[t + 1]);
        }
        let rest_block = ser_headers(hs.skip(1)) + seq![LF] + tail;
        assert forall|u: int| 0 <= u < rest_block.len() implies s.skip(i + ll + 1)[u]
            == rest_block[u] by {
            assert(s.skip(i + ll + 1)[u] == s[i + ll + 1 + u]);
            assert(d[ll + 1 + u] == s[i + ll + 1 + u]);
            assert(d[ll + 1 + u] == rest_block[u]);
        }
        assert(s.skip(i + ll + 1) =~= rest_block);
        lemma_parse_ser_headers(s, i + ll + 1, hs.skip(1), tail);
        assert(parse_headers(s, i) == parse_header_tail(
            line,
            en.len() as int,
            parse_headers(s, i + ll + 1),
        ));
        assert(seq![(n0, v0)] + hs.skip(1) =~~= hs);
        assert(ser_headers(hs).len() == ll + 1 + ser_headers(hs.skip(1)).len());
        assert(parse_headers(s, i) == HeaderParse::Done(hs, i + ser_headers(hs).len() + 1));
    }
}

/// Parsing a serialized well-formed frame from the front of any buffer
/// yields the frame back and consumes exactly its own bytes.
#[verifier::rlimit(50)]
pub proof fn lemma_parse_ser_frame(f: FrameModel, rest: Seq<u8>)
    requires
        wf_frame(f),
        !has_name(f.headers, cl_name()),
    ensures
        parse_spec(ser_frame(f) + rest) == FrameParse::Complete(f, ser_frame(f).len() as int),
{
    let cb = cmd_bytes(f.command);
    let hb = ser_headers(f.headers);
    let acl = ser_auto_cl(f);
    let bb = body_bytes(f);
    let sf = ser_frame(f);
    let s = sf + rest;
    lemma_cmd_bytes_clean(f.command);
    lemma_cl_name_clean();
    assert(s =~= cb + seq![LF] + hb + acl + seq![LF] + bb + seq![NUL] + rest);
    // command line
    assert(forall|t: int| 0 <= t < cb.len() ==> s[t] == cb[t]);
    assert(s[cb.len() as int] == LF);
    assert(skip_eols(s, 0) == 0);
    lemma_scan_line_found(s, 0, cb.len() as int);
    let sub = s.subrange(0, cb.len() as int);
    assert(sub =~= cb);
    assert(sub.last() != CR);
    assert(strip_cr(sub) == cb);
    lemma_cmd_of_bytes(f.command);
    // the header block the parser sees, including the automatic line
    let clh = (cl_name(), dec_of(bb.len()));
    let phs = if f.body is Some {
        f.headers + seq![clh]
    } else {
        f.headers
    };
    lemma_dec_of_val(bb.len());
    lemma_digits_clean(dec_of(bb.len()));
    if f.body is Some {
        assert(ser_headers(seq![clh]) =~= ser_header(clh.0, clh.1) + ser_headers(
            seq![clh].skip(1),
        ));
        assert(seq![clh].skip(1) =~= Seq::<(Seq<u8>, Seq<u8>)>::empty());
        assert(ser_headers(Seq::<(Seq<u8>, Seq<u8>)>::empty()) =~= Seq::<u8>::empty());
        assert(ser_header(clh.0, clh.1) =~= cl_name() + seq![COLON] + dec_of(bb.len())
            + seq![LF]);
        assert(ser_headers(seq![clh]) =~= acl);
        lemma_ser_headers_append(f.headers, seq![clh]);
        assert(ser_headers(phs) =~= hb + acl);
        assert forall|t: int| 0 <= t < phs.len() implies clean_bytes(#[trigger] phs[t].0)
            && clean_bytes(phs[t].1) by {
            if t < f.headers.len() {
                assert(phs[t] == f.headers[t]);
            } else {
                assert(phs[t] == clh);
            }
        }
    } else {
        assert(acl =~= Seq::<u8>::empty());
        assert(ser_headers(phs) =~= hb + acl);
    }
    let tail2 = bb + seq![NUL] + rest;
    let hstart = cb.len() + 1 as int;
    assert forall|u: int| 0 <= u < s.len() - hstart implies s.skip(hstart)[u] == (ser_headers(phs)
        + seq![LF] + tail2)[u] by {
        assert(s.skip(hstart)[u] == s[hstart + u]);
    }
    assert(s.skip(hstart) =~= ser_headers(phs) + seq![LF] + tail2);
    lemma_parse_ser_headers(s, hstart, phs, tail2);
    let p = hstart + ser_headers(phs).len() + 1;
    assert(parse_headers(s, hstart) == HeaderParse::Done(phs, p));
    // the body region
    assert forall|u: int| 0 <= u < s.len() - p implies s.skip(p)[u] == tail2[u] by {
        assert(s.skip(p)[u] == s[p + u]);
        assert(s.skip(hstart)[(p - hstart) + u] == s[p + u]);
        assert((ser_headers(phs) + seq![LF] + tail2)[(p - hstart) + u] == tail2[u]);
    }
    assert(s.skip(p) =~= tail2);
    match f.body {
        Some(b) => {
            lemma_first_val_append(f.headers, seq![clh], cl_name());
            lemma_first_val_absent(f.headers, cl_name());
            assert(first_val(phs, cl_name()) == Some(dec_of(b.len())));
            assert(is_dec(dec_of(b.len())));
            assert(dec_val(dec_of(b.len())) == b.len());
            assert(p + b.len() + 1 <= s.len());
            assert(s[p + b.len()] == s.skip(p)[b.len() as int]);
            assert(s[p + b.len()] == NUL);
            assert forall|u: int| 0 <= u < b.len() implies s.subrange(p, p + b.len())[u]
                == b[u] by {
                assert(s.subrange(p, p + b.len())[u] == s[p + u]);
                assert(s.skip(p)[u] == s[p + u]);
                assert(tail2[u] == b[u]);
            }
            assert(s.subrange(p, p + b.len()) =~= b);
            lemma_remove_first_append_absent(f.headers, clh, cl_name());
            assert(remove_first(phs, cl_name()) == f.headers);
            let parsed = FrameModel {
                command: f.command,
                headers: remove_first(phs, cl_name()),
                body: Some(s.subrange(p, p + b.len())),
            };
            assert(parsed =~~= f);
            assert(p + b.len() + 1 == sf.len());
            assert(parse_spec(s) == FrameParse::Complete(f, sf.len() as int));
        },
        None => {
            lemma_first_val_absent(f.headers, cl_name());
            assert(bb =~= Seq::<u8>::empty());
            assert(s[p] == s.skip(p)[0]);
            assert(s[p] == NUL);
            lemma_find_byte_found(s, p, NUL, p);
            let parsed = FrameModel { command: f.command, headers: phs, body: None };
            assert(parsed =~~= f);
            assert(p + 1 == sf.len());
            assert(parse_spec(s) == FrameParse::Complete(f, sf.len() as int));
        },
    }
}

/// A header block cut short of its blank line only asks for more bytes.
pub proof fn lemma_parse_headers_prefix(s: Seq<u8>, i: int, hs: Seq<(Seq<u8>, Seq<u8>)>)
    requires
        wf_headers(hs),
        0 <= i <= s.len(),
        s.len() - i < ser_headers(hs).len() + 1,
        s.skip(i) == (ser_headers(hs) + seq![LF]).take(s.len() - i),
    ensures
        parse_headers(s, i) == HeaderParse::More,
    decreases hs.len(),
{
    let rem = s.len() - i;
    let d = s.skip(i);
    let full = ser_headers(hs) + seq![LF];
    if hs.len() == 0 {
        assert(rem == 0);
        assert(scan_line(s, i) == LineScan::NoLf);
    } else {
        let n0 = hs[0].0;
        let v0 = hs[0].1;
        let en = escape(n0);
        let ev = escape(v0);
        let ll = en.len() + 1 + ev.len() as int;
        let l0 = ll + 1;
        assert(clean_bytes(n0) && clean_bytes(v0));
        lemma_escape_clean(n0);
        lemma_escape_clean(v0);
        assert(ser_headers(hs) =~= (en + seq![COLON] + ev + seq![LF]) + ser_headers(hs.skip(1)));
        if rem < l0 {
            assert forall|t: int| i <= t < s.len() implies s[t] != LF && s[t] != NUL by {
                let u = t - i;
                assert(s[t] == d[u]);
                assert(d[u] == full[u]);
                if u < en.len() {
                    assert(full[u] == en[u]);
                } else if u == en.len() {
                    assert(full[u] == COLON);
                } else {
                    assert(full[u] == ev[u - en.len() - 1]);
                }
            }
            lemma_scan_line_no_lf(s, i);
        } else {
            assert forall|t: int| i <= t < i + ll implies s[t] != LF && s[t] != NUL by {
                let u = t - i;
                assert(s[t] == d[u]);
                assert(d[u] == full[u]);
                if u < en.len() {
                    assert(full[u] == en[u]);
                } else if u == en.len() {
                    assert(full[u] == COLON);
                } else {
                    assert(full[u] == ev[u - en.len() - 1]);
                }
            }
            assert(s[i + ll] == d[ll]);
            assert(d[ll] == full[ll]);
            assert(s[i + ll] == LF);
            lemma_scan_line_found(s, i, i + ll);
            let sub = s.subrange(i, i + ll);
            assert(sub =~= en + seq![COLON] + ev);
            if ev.len() > 0 {
                assert(sub.last() == ev.last());
            } else {
                assert(sub.last() == COLON);
            }
            let line = strip_cr(sub);
            assert(line == sub);
            assert(line[en.len() as int] == COLON);
            assert(forall|t: int| 0 <= t < en.len() ==> line[t] == en[t]);
            lemma_find_byte_found(line, 0, COLON, en.len() as int);
            assert(line.take(en.len() as int) =~= en);
            assert(line.skip(en.len() + 1 as int) =~= ev);
            lemma_unescape_escape(n0);
            lemma_unescape_escape(v0);
            assert forall|t: int| 0 <= t < hs.skip(1).len() implies clean_bytes(
                #[trigger] hs.skip(1)[t].0,
            ) && clean_bytes(hs.skip(1)[t].1) by {
                assert(hs.skip(1)[t] == hs[t + 1]);
                assert(clean_bytes(hs[t + 1].0) && clean_bytes(hs[t + 1].1));
            }
            let full1 = ser_headers(hs.skip(1)) + seq![LF];
            assert forall|u: int| 0 <= u < rem - l0 implies #[trigger] s.skip(i + l0)[u]
                == full1.take(rem - l0)[u] by {
                assert(s.skip(i + l0)[u] == s[i + l0 + u]);
                assert(d[l0 + u] == s[i + l0 + u]);
                assert(d[l0 + u] == full[l0 + u]);
                assert(full[l0 + u] == full1[u]);
            }
            assert(s.skip(i + l0) =~= full1.take(rem - l0));
            lemma_parse_headers_prefix(s, i + l0, hs.skip(1));
            assert(parse_headers(s, i) == parse_header_tail(
                line,
                en.len() as int,
                parse_headers(s, i + l0),
            ));
        }
    }
}

/// A proper prefix of a serialized frame only asks for more bytes:
/// incremental delivery can never mis-parse or consume early.
#[verifier::rlimit(50)]
pub proof fn lemma_parse_ser_frame_prefix(f: FrameModel, k: int)
    requires
        wf_frame(f),
        !has_name(f.headers, cl_name()),
        0 <= k < ser_frame(f).len(),
    ensures
        parse_spec(ser_frame(f).take(k)) == FrameParse::Incomplete,
{
    let cb = cmd_bytes(f.command);
    let hb = ser_headers(f.headers);
    let acl = ser_auto_cl(f);
    let bb = body_bytes(f);
    let sf = ser_frame(f);
    let s = sf.take(k);
    lemma_cmd_bytes_clean(f.command);
    lemma_cl_name_clean();
    assert(sf =~= cb + seq![LF] + hb + acl + seq![LF] + bb + seq![NUL] + Seq::<u8>::empty());
    assert(forall|t: int| 0 <= t < k ==> s[t] == sf[t]);
    let clh = (cl_name(), dec_of(bb.len()));
    let phs = if f.body is Some {
        f.headers + seq![clh]
    } else {
        f.headers
    };
    lemma_dec_of_val(bb.len());
    lemma_digits_clean(dec_of(bb.len()));
    if f.body is Some {
        assert(ser_headers(seq![clh]) =~= ser_header(clh.0, clh.1) + ser_headers(
            seq![clh].skip(1),
        ));
        assert(seq![clh].skip(1) =~= Seq::<(Seq<u8>, Seq<u8>)>::empty());
        assert(ser_headers(Seq::<(Seq<u8>, Seq<u8>)>::empty()) =~= Seq::<u8>::empty());
        assert(ser_header(clh.0, clh.1) =~= cl_name() + seq![COLON] + dec_of(bb.len())
            + seq![LF]);
        assert(ser_headers(seq![clh]) =~= acl);
        lemma_ser_headers_append(f.headers, seq![clh]);
        assert(ser_headers(phs) =~= hb + acl);
        assert forall|t: int| 0 <= t < phs.len() implies clean_bytes(#[trigger] phs[t].0)
            && clean_bytes(phs[t].1) by {
            if t < f.headers.len() {
                assert(phs[t] == f.headers[t]);
                assert(clean_bytes(f.headers[t].0) && clean_bytes(f.headers[t].1));
            } else {
                assert(phs[t] == clh);
            }
        }
    } else {
        assert(acl =~= Seq::<u8>::empty());
        assert(ser_headers(phs) =~= hb + acl);
    }
    assert(wf_headers(phs));
    let hstart = cb.len() + 1 as int;
    let p = hstart + ser_headers(phs).len() + 1;
    if k == 0 {
        assert(scan_line(s, 0) == LineScan::NoLf);
    } else if k <= cb.len() {
        assert forall|t: int| 0 <= t < s.len() implies s[t] != LF && s[t] != NUL by {
            assert(s[t] == cb[t]);
        }
        assert(skip_eols(s, 0) == 0);
        lemma_scan_line_no_lf(s, 0);
    } else {
        assert(forall|t: int| 0 <= t < cb.len() ==> s[t] == cb[t]);
        assert(s[cb.len() as int] == sf[cb.len() as int]);
        assert(s[cb.len() as int] == LF);
        assert(skip_eols(s, 0) == 0);
        lemma_scan_line_found(s, 0, cb.len() as int);
        let sub = s.subrange(0, cb.len() as int);
        assert(sub =~= cb);
        assert(sub.last() != CR);
        assert(strip_cr(sub) == cb);
        lemma_cmd_of_bytes(f.command);
        if k < p {
            // cut inside the header block or before the blank line
            let fullh = ser_headers(phs) + seq![LF];
            assert forall|u: int| 0 <= u < k - hstart implies s.skip(hstart)[u] == fullh.take(
                k - hstart,
            )[u] by {
                assert(s.skip(hstart)[u] == s[hstart + u]);
                assert(s[hstart + u] == sf[hstart + u]);
                assert(sf.skip(hstart)[u] == sf[hstart + u]);
                assert(sf.skip(hstart)[u] == fullh[u]);
            }
            assert(s.skip(hstart) =~= fullh.take(k - hstart));
            lemma_parse_headers_prefix(s, hstart, phs);
        } else {
            // the whole header block is present; the body is cut short
            let tail2 = s.skip(p);
            assert forall|u: int| 0 <= u < k - hstart implies s.skip(hstart)[u] == (ser_headers(
                phs,
            ) + seq![LF] + tail2)[u] by {
                assert(s.skip(hstart)[u] == s[hstart + u]);
                if u < ser_headers(phs).len() + 1 {
                    assert(s[hstart + u] == sf[hstart + u]);
                    assert(sf.skip(hstart)[u] == sf[hstart + u]);
                    assert(sf.skip(hstart) =~= ser_headers(phs) + seq![LF] + (bb + seq![NUL]));
                } else {
                    assert(tail2[u - (ser_headers(phs).len() + 1)] == s[p + (u - (ser_headers(
                        phs,
                    ).len() + 1))]);
                }
            }
            assert(s.skip(hstart) =~= ser_headers(phs) + seq![LF] + tail2);
            lemma_parse_ser_headers(s, hstart, phs, tail2);
            match f.body {
                Some(b) => {
                    lemma_first_val_append(f.headers, seq![clh], cl_name());
                    lemma_first_val_absent(f.headers, cl_name());
                    assert(first_val(phs, cl_name()) == Some(dec_of(b.len())));
                    assert(dec_val(dec_of(b.len())) == b.len());
                    assert(p + b.len() + 1 == sf.len());
                    assert(p + b.len() + 1 > s.len());
                },
                None => {
                    lemma_first_val_absent(f.headers, cl_name());
                    assert(p + 1 == sf.len());
                    assert(k == p);
                    assert(s.len() == p);
                    lemma_find_byte_none(s, p, NUL);
                },
            }
        }
    }
}

/// A byte vector's deep view is its view.
pub proof fn lemma_bytes_deep(v: Vec<u8>)
    ensures
        v.deep_view() == v@,
{
    assert(v.deep_view() =~= v@);
}

/// A header vector's deep view, element by element.
pub proof fn lemma_headers_deep(hs: Vec<(Vec<u8>, Vec<u8>)>)
    ensures
        hs.deep_view().len() == hs@.len(),
        forall|i: int|
            0 <= i < hs@.len() ==> #[trigger] hs.deep_view()[i] == (hs@[i].0@, hs@[i].1@),
{
    assert forall|i: int| 0 <= i < hs@.len() implies #[trigger] hs.deep_view()[i] == (
    hs@[i].0@,
    hs@[i].1@,
    ) by {
        lemma_bytes_deep(hs@[i].0);
        lemma_bytes_deep(hs@[i].1);
    }
}

/// Escaping distributes over concatenation.
pub proof fn lemma_escape_append(a: Seq<u8>, b: Seq<u8>)
    ensures
        escape(a + b) == escape(a) + escape(b),
    decreases a.len(),
{
    if a.len() == 0 {
        assert(a + b =~= b);
        assert(escape(a) + escape(b) =~= escape(b));
    } else {
        lemma_escape_append(a.skip(1), b);
        assert((a + b).skip(1) =~= a.skip(1) + b);
        assert((a + b)[0] == a[0]);
        assert(escape(a + b) =~= esc1(a[0]) + (escape(a.skip(1)) + escape(b)));
        assert(esc1(a[0]) + (escape(a.skip(1)) + escape(b)) =~= (esc1(a[0]) + escape(a.skip(1)))
            + escape(b));
    }
}

/// Append the wire spelling of a command.
fn push_cmd(out: &mut Vec<u8>, c: Command)
    ensures
        final(out)@ == old(out)@ + cmd_bytes(c),
{
    match c {
        Command::Connect => {
            out.push(67);
            out.push(79);
            out.push(78);
            out.push(78);
            out.push(69);
            out.push(67);
            out.push(84);
            assert(out@ =~= old(out)@ + cmd_bytes(c));
        },
        Command::Connected => {
            out.push(67);
            out.push(79);
            out.push(78);
            out.push(78);
            out.push(69);
            out.push(67);
            out.push(84);
            out.push(69);
            out.push(68);
            assert(out@ =~= old(out)@ + cmd_bytes(c));
        },
        Command::Send => {
            out.push(83);
            out.push(69);
            out.push(78);
            out.push(68);
            assert(out@ =~= old(out)@ + cmd_bytes(c));
        },
        Command::Message => {
            out.push(77);
            out.push(69);
            out.push(83);
            out.push(83);
            out.push(65);
            out.push(71);
            out.push(69);
            assert(out@ =~= old(out)@ + cmd_bytes(c));
        },
        Command::Subscribe => {
            out.push(83);
            out.push(85);
            out.push(66);
            out.push(83);
            out.push(67);
            out.push(82);
            out.push(73);
            out.push(66);
            out.push(69);
            assert(out@ =~= old(out)@ + cmd_bytes(c));
        },
        Command::Unsubscribe => {
            out.push(85);
            out.push(78);
            out.push(83);
            out.push(85);
            out.push(66);
            out.push(83);
            out.push(67);
            out.push(82);
            out.push(73);
            out.push(66);
            out.push(69);
            assert(out@ =~= old(out)@ + cmd_bytes(c));
        },
        Command::Ack => {
            out.push(65);
            out.push(67);
            out.push(75);
            assert(out@ =~= old(out)@ + cmd_bytes(c));
        },
        Command::Nack => {
            out.push(78);
            out.push(65);
            out.push(67);
            out.push(75);
            assert(out@ =~= old(out)@ + cmd_bytes(c));
        },
        Command::Begin => {
            out.push(66);
            out.push(69);
            out.push(71);
            out.push(73);
            out.push(78);
            assert(out@ =~= old(out)@ + cmd_bytes(c));
        },
        Command::Commit => {
            out.push(67);
            out.push(79);
            out.push(77);
            out.push(77);
            out.push(73);
            out.push(84);
            assert(out@ =~= old(out)@ + cmd_bytes(c));
        },
        Command::Abort => {
            out.push(65);
            out.push(66);
            out.push(79);
            out.push(82);
            out.push(84);
            assert(out@ =~= old(out)@ + cmd_bytes(c));
        },
        Command::Disconnect => {
            out.push(68);
            out.push(73);
            out.push(83);
            out.push(67);
            out.push(79);
            out.push(78);
            out.push(78);
            out.push(69);
            out.push(67);
            out.push(84);
            assert(out@ =~= old(out)@ + cmd_bytes(c));
        },
        Command::Receipt => {
            out.push(82);
            out.push(69);
            out.push(67);
            out.push(69);
            out.push(73);
            out.push(80);
            out.push(84);
            assert(out@ =~= old(out)@ + cmd_bytes(c));
        },
        Command::Error => {
            out.push(69);
            out.push(82);
            out.push(82);
            out.push(79);
            out.push(82);
            assert(out@ =~= old(out)@ + cmd_bytes(c));
        },
    }
}

/// The wire spelling of a command as an owned vector.
fn cmd_vec(c: Command) -> (v: Vec<u8>)
    ensures
        v@ == cmd_bytes(c),
{
    let mut v: Vec<u8> = Vec::new();
    push_cmd(&mut v, c);
    proof {
        assert(v@ =~= cmd_bytes(c));
    }
    v
}

/// The automatic body-length header name as an owned vector.
pub(crate) fn cl_name_vec() -> (v: Vec<u8>)
    ensures
        v@ == cl_name(),
{
    let mut v: Vec<u8> = Vec::new();
    v.push(99);
    v.push(111);
    v.push(110);
    v.push(116);
    v.push(101);
    v.push(110);
    v.push(116);
    v.push(45);
    v.push(108);
    v.push(101);
    v.push(110);
    v.push(103);
    v.push(116);
    v.push(104);
    proof {
        assert(v@ =~= cl_name());
    }
    v
}

/// Append the escaped form of a header name or value.
fn escape_into(out: &mut Vec<u8>, s: &Vec<u8>)
    ensures
        final(out)@ == old(out)@ + escape(s@),
{
    let ghost orig = out@;
    let mut i: usize = 0;
    while i < s.len()
        invariant
            i <= s.len(),
            out@ == orig + escape(s@.take(i as int)),
        decreases s.len() - i,
    {
        let b = s[i];
        if b == BSLASH {
            out.push(BSLASH);
            out.push(BSLASH);
        } else if b == LF {
            out.push(BSLASH);
            out.push(ESC_N);
        } else if b == CR {
            out.push(BSLASH);
            out.push(ESC_R);
        } else if b == COLON {
            out.push(BSLASH);
            out.push(ESC_C);
        } else {
            out.push(b);
        }
        proof {
            assert(s@.take(i + 1) =~= s@.take(i as int) + seq![s@[i as int]]);
            lemma_escape_append(s@.take(i as int), seq![s@[i as int]]);
            let b = s@[i as int];
            assert(seq![b].len() == 1 && seq![b][0] == b);
            assert(seq![b].skip(1) =~= Seq::<u8>::empty());
            assert(escape(seq![b]) == esc1(b) + escape(seq![b].skip(1)));
            assert(escape(Seq::<u8>::empty()) == Seq::<u8>::empty());
            assert(escape(seq![b]) =~= esc1(b));
            assert(out@ =~= orig + escape(s@.take(i + 1)));
        }
        i = i + 1;
    }
    proof {
        assert(s@.take(s@.len() as int) =~= s@);
    }
}

/// Append the canonical decimal rendering of a number.
pub fn push_dec(out: &mut Vec<u8>, n: usize)
    ensures
        final(out)@ == old(out)@ + dec_of(n as nat),
    decreases n,
{
    if n < 10 {
        out.push((n as u8) + 48);
        assert(out@ =~= old(out)@ + dec_of(n as nat));
    } else {
        push_dec(out, n / 10);
        out.push(((n % 10) as u8) + 48);
        assert(out@ =~= old(out)@ + dec_of(n as nat));
    }
}

/// Append a copy of raw bytes.
fn push_bytes(out: &mut Vec<u8>, s: &Vec<u8>)
    ensures
        final(out)@ == old(out)@ + s@,
{
    let ghost orig = out@;
    let mut i: usize = 0;
    while i < s.len()
        invariant
            i <= s.len(),
            out@ == orig + s@.take(i as int),
        decreases s.len() - i,
    {
        out.push(s[i]);
        proof {
            assert(s@.take(i + 1) =~= s@.take(i as int) + seq![s@[i as int]]);
            assert(out@ =~= orig + s@.take(i + 1));
        }
        i = i + 1;
    }
    proof {
        assert(s@.take(s@.len() as int) =~= s@);
    }
}

/// Compare two byte vectors for equality of their contents.
pub(crate) fn bytes_eq(a: &Vec<u8>, b: &Vec<u8>) -> (r: bool)
    ensures
        r == (a@ == b@),
{
    if a.len() != b.len() {
        return false;
    }
    let mut i: usize = 0;
    while i < a.len()
        invariant
            i <= a.len(),
            a@.len() == b@.len(),
            forall|t: int| 0 <= t < i ==> a@[t] == b@[t],
        decreases a.len() - i,
    {
        if a[i] != b[i] {
            return false;
        }
        i = i + 1;
    }
    proof {
        assert(a@ =~= b@);
    }
    true
}

/// Whether some header of this list carries this name.
fn headers_have_name(hs: &Vec<(Vec<u8>, Vec<u8>)>, name: &Vec<u8>) -> (r: bool)
    ensures
        r == has_name(hs.deep_view(), name@),
{
    let ghost dv = hs.deep_view();
    proof {
        lemma_headers_deep(*hs);
        assert(dv.skip(0) =~~= dv);
    }
    let mut i: usize = 0;
    while i < hs.len()
        invariant
            i <= hs.len(),
            dv == hs.deep_view(),
            dv.len() == hs@.len(),
            forall|t: int|
                0 <= t < hs@.len() ==> #[trigger] dv[t] == (hs@[t].0@, hs@[t].1@),
            has_name(dv, name@) == has_name(dv.skip(i as int), name@),
        decreases hs.len() - i,
    {
        if bytes_eq(&hs[i].0, name) {
            proof {
                assert(dv.skip(i as int)[0] == dv[i as int]);
            }
            return true;
        }
        proof {
            assert(dv.skip(i as int)[0] == dv[i as int]);
            assert(dv.skip(i as int).skip(1) =~~= dv.skip(i + 1));
        }
        i = i + 1;
    }
    proof {
        assert(dv.skip(hs@.len() as int) =~~= Seq::<(Seq<u8>, Seq<u8>)>::empty());
    }
    false
}

impl Frame {
    /// Render this frame deterministically to bytes per the wire
    /// grammar, appending to the output buffer: command line, escaped
    /// header lines, the automatic `content-length` when a body is
    /// present and none is declared, a blank line, the body, one NUL.
    pub fn serialize(&self, out: &mut Vec<u8>)
        ensures
            final(out)@ == old(out)@ + ser_frame(self@),
    {
        let ghost orig = out@;
        proof {
            lemma_headers_deep(self.headers);
        }
        push_cmd(out, self.command);
        out.push(LF);
        let ghost dv = self.headers.deep_view();
        let mut i: usize = 0;
        while i < self.headers.len()
            invariant
                i <= self.headers.len(),
                dv == self.headers.deep_view(),
                dv.len() == self.headers@.len(),
                forall|t: int|
                    0 <= t < self.headers@.len() ==> #[trigger] dv[t] == (
                    self.headers@[t].0@,
                    self.headers@[t].1@,
                    ),
                out@ == orig + cmd_bytes(self.command) + seq![LF] + ser_headers(
                    dv.take(i as int),
                ),
            decreases self.headers.len() - i,
        {
            escape_into(out, &self.headers[i].0);
            out.push(COLON);
            escape_into(out, &self.headers[i].1);
            out.push(LF);
            proof {
                let x = dv[i as int];
                assert(dv.take(i + 1) =~~= dv.take(i as int) + seq![x]);
                lemma_ser_headers_append(dv.take(i as int), seq![x]);
                assert(seq![x].len() == 1 && seq![x][0] == x);
                assert(seq![x].skip(1) =~~= Seq::<(Seq<u8>, Seq<u8>)>::empty());
                assert(ser_headers(seq![x]) == ser_header(x.0, x.1) + ser_headers(
                    seq![x].skip(1),
                ));
                assert(ser_headers(Seq::<(Seq<u8>, Seq<u8>)>::empty()) == Seq::<u8>::empty());
                assert(ser_headers(seq![x]) =~= ser_header(x.0, x.1));
                assert(x.0 == self.headers@[i as int].0@ && x.1 == self.headers@[i as int].1@);
                assert(out@ =~= orig + cmd_bytes(self.command) + seq![LF] + ser_headers(
                    dv.take(i + 1),
                ));
            }
            i = i + 1;
        }
        proof {
            assert(dv.take(self.headers@.len() as int) =~~= dv);
        }
        let has_cl = headers_have_name(&self.headers, &cl_name_vec());
        match &self.body {
            Some(b) => {
                if !has_cl {
                    let cln = cl_name_vec();
                    push_bytes(out, &cln);
                    out.push(COLON);
                    push_dec(out, b.len());
                    out.push(LF);
                }
            },
            None => {},
        }
        out.push(LF);
        match &self.body {
            Some(b) => {
                push_bytes(out, b);
            },
            None => {},
        }
        out.push(NUL);
        proof {
            assert(out@ =~= orig + ser_frame(self@));
        }
    }
}

/// Removing the first occurrence of a name removes exactly the first
/// index that carries it.
pub proof fn lemma_remove_first_at(hs: Seq<(Seq<u8>, Seq<u8>)>, name: Seq<u8>, ix: int)
    requires
        0 <= ix < hs.len(),
        hs[ix].0 == name,
        forall|t: int| 0 <= t < ix ==> hs[t].0 != name,
    ensures
        remove_first(hs, name) == hs.remove(ix),
    decreases ix,
{
    if ix == 0 {
        assert(hs.skip(1) =~~= hs.remove(0));
    } else {
        assert forall|t: int| 0 <= t < ix - 1 implies hs.skip(1)[t].0 != name by {
            assert(hs.skip(1)[t] == hs[t + 1]);
        }
        assert(hs.skip(1)[ix - 1] == hs[ix]);
        lemma_remove_first_at(hs.skip(1), name, ix - 1);
        assert(remove_first(hs, name) == seq![hs[0]] + remove_first(hs.skip(1), name));
        assert(seq![hs[0]] + hs.skip(1).remove(ix - 1) =~~= hs.remove(ix));
    }
}

/// Outcome of scanning a line in executable code.
enum ScanOut {
    Found(usize),
    SawNul,
    NoLf,
}

fn scan_line_exec(s: &[u8], i: usize) -> (r: ScanOut)
    requires
        i <= s@.len(),
    ensures
        match r {
            ScanOut::Found(j) => scan_line(s@, i as int) == LineScan::Found(j as int) && i <= j
                < s@.len() && s@[j as int] == LF,
            ScanOut::SawNul => scan_line(s@, i as int) == LineScan::SawNul,
            ScanOut::NoLf => scan_line(s@, i as int) == LineScan::NoLf,
        },
{
    let mut j = i;
    while j < s.len()
        invariant
            i <= j <= s@.len(),
            scan_line(s@, i as int) == scan_line(s@, j as int),
        decreases s@.len() - j,
    {
        if s[j] == LF {
            return ScanOut::Found(j);
        }
        if s[j] == NUL {
            return ScanOut::SawNul;
        }
        j = j + 1;
    }
    ScanOut::NoLf
}

pub(crate) fn find_byte_range(s: &[u8], from: usize, to: usize, b: u8) -> (r: Option<usize>)
    requires
        from <= to <= s@.len(),
    ensures
        match r {
            Some(j) => from <= j < to && s@[j as int] == b && forall|t: int|
                from <= t < j ==> s@[t] != b,
            None => forall|t: int| from <= t < to ==> s@[t] != b,
        },
{
    let mut j = from;
    while j < to
        invariant
            from <= j <= to <= s@.len(),
            forall|t: int| from <= t < j ==> s@[t] != b,
        decreases to - j,
    {
        if s[j] == b {
            return Some(j);
        }
        j = j + 1;
    }
    None
}

/// Prepend already-decoded bytes to an unescaping outcome.
pub open spec fn plain_prepend(pre: Seq<u8>, u: Unescaped) -> Unescaped {
    match u {
        Unescaped::Plain(t) => Unescaped::Plain(pre + t),
        other => other,
    }
}

fn unescape_range(s: &[u8], from: usize, to: usize) -> (r: Result<Vec<u8>, ParseError>)
    requires
        from <= to <= s@.len(),
    ensures
        ({
            let sub = s@.subrange(from as int, to as int);
            match r {
                Ok(v) => unescape(sub) == Unescaped::Plain(v@),
                Err(e) => (unescape(sub) == Unescaped::Control && e
                    == ParseError::ControlCharacter) || (unescape(sub) == Unescaped::BadEscape
                    && e == ParseError::InvalidHeaderLine),
            }
        }),
{
    let ghost sub = s@.subrange(from as int, to as int);
    let mut acc: Vec<u8> = Vec::new();
    let mut i = from;
    proof {
        assert(sub.skip(0) =~= sub);
        assert(acc@ + sub =~= sub);
    }
    while i < to
        invariant
            from <= i <= to <= s@.len(),
            sub == s@.subrange(from as int, to as int),
            unescape(sub) == plain_prepend(acc@, unescape(sub.skip(i - from))),
        decreases to - i,
    {
        let ghost u = i - from;
        let ghost d = sub.skip(u);
        proof {
            assert(d[0] == sub[u]);
            assert(sub[u] == s@[i as int]);
            assert(d.skip(1) =~= sub.skip(u + 1));
        }
        let b = s[i];
        if b == CR {
            proof {
                assert(unescape(d) == Unescaped::Control);
            }
            return Err(ParseError::ControlCharacter);
        } else if b == BSLASH {
            if i + 1 >= to {
                proof {
                    assert(d.len() == 1);
                    assert(unescape(d) == Unescaped::BadEscape);
                }
                return Err(ParseError::InvalidHeaderLine);
            }
            proof {
                assert(d[1] == sub[u + 1]);
                assert(sub[u + 1] == s@[i + 1]);
                assert(d.skip(2) =~= sub.skip(u + 2));
            }
            let c = s[i + 1];
            let decoded: u8;
            if c == ESC_N {
                decoded = LF;
            } else if c == ESC_R {
                decoded = CR;
            } else if c == ESC_C {
                decoded = COLON;
            } else if c == BSLASH {
                decoded = BSLASH;
            } else {
                proof {
                    assert(unescape(d) == Unescaped::BadEscape);
                }
                return Err(ParseError::InvalidHeaderLine);
            }
            proof {
                assert(unescape(d) == unescape_push(decoded, unescape(sub.skip(u + 2))));
            }
            let ghost acc_old = acc@;
            acc.push(decoded);
            proof {
                assert(acc@ =~= acc_old + seq![decoded]);
                match unescape(sub.skip(u + 2)) {
                    Unescaped::Plain(t) => {
                        assert(acc_old + (seq![decoded] + t) =~= (acc_old + seq![decoded]) + t);
                    },
                    _ => {},
                }
                assert(plain_prepend(acc_old, unescape(d)) == plain_prepend(
                    acc@,
                    unescape(sub.skip(u + 2)),
                ));
            }
            i = i + 2;
        } else {
            proof {
                assert(unescape(d) == unescape_push(b, unescape(sub.skip(u + 1))));
            }
            let ghost acc_old = acc@;
            acc.push(b);
            proof {
                assert(acc@ =~= acc_old + seq![b]);
                match unescape(sub.skip(u + 1)) {
                    Unescaped::Plain(t) => {
                        assert(acc_old + (seq![b] + t) =~= (acc_old + seq![b]) + t);
                    },
                    _ => {},
                }
                assert(plain_prepend(acc_old, unescape(d)) == plain_prepend(
                    acc@,
                    unescape(sub.skip(u + 1)),
                ));
            }
            i = i + 1;
        }
    }
    proof {
        assert(sub.skip(to - from) =~= Seq::<u8>::empty());
        assert(unescape(Seq::<u8>::empty()) == Unescaped::Plain(Seq::<u8>::empty()));
        assert(acc@ + Seq::<u8>::empty() =~= acc@);
    }
    Ok(acc)
}

/// Copy a range of a byte slice into an owned vector.
pub(crate) fn copy_range(s: &[u8], from: usize, to: usize) -> (v: Vec<u8>)
    requires
        from <= to <= s@.len(),
    ensures
        v@ == s@.subrange(from as int, to as int),
{
    let mut v: Vec<u8> = Vec::new();
    let mut i = from;
    while i < to
        invariant
            from <= i <= to <= s@.len(),
            v@ == s@.subrange(from as int, i as int),
        decreases to - i,
    {
        v.push(s[i]);
        proof {
            assert(v@ =~= s@.subrange(from as int, i + 1));
        }
        i = i + 1;
    }
    v
}

fn bytes_eq_range(s: &[u8], from: usize, to: usize, pat: &Vec<u8>) -> (r: bool)
    requires
        from <= to <= s@.len(),
    ensures
        r == (s@.subrange(from as int, to as int) == pat@),
{
    let ghost sub = s@.subrange(from as int, to as int);
    if to - from != pat.len() {
        proof {
            assert(sub.len() != pat@.len());
        }
        return false;
    }
    let mut i: usize = 0;
    while i < pat.len()
        invariant
            i <= pat@.len(),
            sub == s@.subrange(from as int, to as int),
            sub.len() == pat@.len(),
            to - from == pat@.len(),
            from + pat@.len() <= s@.len(),
            forall|t: int| 0 <= t < i ==> sub[t] == pat@[t],
        decreases pat@.len() - i,
    {
        if s[from + i] != pat[i] {
            proof {
                assert(sub[i as int] == s@[from + i]);
            }
            return false;
        }
        proof {
            assert(sub[i as int] == s@[from + i]);
        }
        i = i + 1;
    }
    proof {
        assert(sub =~= pat@);
    }
    true
}

fn lookup_cmd(s: &[u8], from: usize, to: usize) -> (r: Option<Command>)
    requires
        from <= to <= s@.len(),
    ensures
        r == cmd_of(s@.subrange(from as int, to as int)),
{
    if bytes_eq_range(s, from, to, &cmd_vec(Command::Connect)) {
        Some(Command::Connect)
    } else if bytes_eq_range(s, from, to, &cmd_vec(Command::Connected)) {
        Some(Command::Connected)
    } else if bytes_eq_range(s, from, to, &cmd_vec(Command::Send)) {
        Some(Command::Send)
    } else if bytes_eq_range(s, from, to, &cmd_vec(Command::Message)) {
        Some(Command::Message)
    } else if bytes_eq_range(s, from, to, &cmd_vec(Command::Subscribe)) {
        Some(Command::Subscribe)
    } else if bytes_eq_range(s, from, to, &cmd_vec(Command::Unsubscribe)) {
        Some(Command::Unsubscribe)
    } else if bytes_eq_range(s, from, to, &cmd_vec(Command::Ack)) {
        Some(Command::Ack)
    } else if bytes_eq_range(s, from, to, &cmd_vec(Command::Nack)) {
        Some(Command::Nack)
    } else if bytes_eq_range(s, from, to, &cmd_vec(Command::Begin)) {
        Some(Command::Begin)
    } else if bytes_eq_range(s, from, to, &cmd_vec(Command::Commit)) {
        Some(Command::Commit)
    } else if bytes_eq_range(s, from, to, &cmd_vec(Command::Abort)) {
        Some(Command::Abort)
    } else if bytes_eq_range(s, from, to, &cmd_vec(Command::Disconnect)) {
        Some(Command::Disconnect)
    } else if bytes_eq_range(s, from, to, &cmd_vec(Command::Receipt)) {
        Some(Command::Receipt)
    } else if bytes_eq_range(s, from, to, &cmd_vec(Command::Error)) {
        Some(Command::Error)
    } else {
        None
    }
}

/// Outcome of decoding a decimal header value.
pub(crate) enum DecOut {
    NotDec,
    Val(u64),
    Huge,
}

pub(crate) fn parse_dec_exec(s: &[u8], from: usize, to: usize) -> (r: DecOut)
    requires
        from <= to <= s@.len(),
    ensures
        ({
            let sub = s@.subrange(from as int, to as int);
            match r {
                DecOut::NotDec => !is_dec(sub),
                DecOut::Val(v) => is_dec(sub) && dec_val(sub) == v,
                DecOut::Huge => is_dec(sub) && dec_val(sub) > u64::MAX,
            }
        }),
{
    let ghost sub = s@.subrange(from as int, to as int);
    if from == to {
        return DecOut::NotDec;
    }
    let mut acc: u128 = 0;
    let mut huge = false;
    let mut i = from;
    proof {
        assert(sub.take(0) =~= Seq::<u8>::empty());
    }
    while i < to
        invariant
            from <= i <= to <= s@.len(),
            sub == s@.subrange(from as int, to as int),
            forall|t: int| 0 <= t < i - from ==> is_digit(#[trigger] sub[t]),
            !huge ==> acc == dec_val(sub.take(i - from)) && acc <= u64::MAX as u128,
            huge ==> dec_val(sub.take(i - from)) > u64::MAX,
        decreases to - i,
    {
        let ghost u = i - from;
        let b = s[i];
        proof {
            assert(sub[u] == s@[i as int]);
        }
        if b < 48 || b > 57 {
            proof {
                assert(!is_digit(sub[u]));
                assert(!is_dec(sub));
            }
            return DecOut::NotDec;
        }
        proof {
            assert(sub.take(u + 1).drop_last() =~= sub.take(u));
            assert(sub.take(u + 1).last() == sub[u]);
            assert(dec_val(sub.take(u + 1)) == dec_val(sub.take(u)) * 10 + (sub[u] - 48));
        }
        if !huge {
            let d = (b - 48) as u128;
            acc = acc * 10 + d;
            if acc > u64::MAX as u128 {
                huge = true;
            }
        } else {
            proof {
                lemma_dec_val_take_grows(sub.take(u + 1), u);
                assert(sub.take(u + 1).take(u) =~= sub.take(u));
            }
        }
        i = i + 1;
    }
    proof {
        assert(sub.take(to - from) =~= sub);
        assert(is_dec(sub));
    }
    if huge {
        DecOut::Huge
    } else {
        DecOut::Val(acc as u64)
    }
}

/// First index whose header carries this name, if any.
pub(crate) fn first_hdr_index(hs: &Vec<(Vec<u8>, Vec<u8>)>, name: &Vec<u8>) -> (r: Option<usize>)
    ensures
        ({
            let dv = hs.deep_view();
            match r {
                Some(ix) => ix < hs@.len() && dv[ix as int].0 == name@ && (forall|t: int|
                    0 <= t < ix ==> #[trigger] dv[t].0 != name@) && first_val(dv, name@) == Some(
                    dv[ix as int].1,
                ),
                None => first_val(dv, name@) == None::<Seq<u8>> && !has_name(dv, name@),
            }
        }),
{
    let ghost dv = hs.deep_view();
    proof {
        lemma_headers_deep(*hs);
        assert(dv.skip(0) =~~= dv);
    }
    let mut i: usize = 0;
    while i < hs.len()
        invariant
            i <= hs.len(),
            dv == hs.deep_view(),
            dv.len() == hs@.len(),
            forall|t: int| 0 <= t < hs@.len() ==> #[trigger] dv[t] == (hs@[t].0@, hs@[t].1@),
            forall|t: int| 0 <= t < i ==> #[trigger] dv[t].0 != name@,
            first_val(dv, name@) == first_val(dv.skip(i as int), name@),
            has_name(dv, name@) == has_name(dv.skip(i as int), name@),
        decreases hs.len() - i,
    {
        proof {
            assert(dv.skip(i as int)[0] == dv[i as int]);
        }
        if bytes_eq(&hs[i].0, name) {
            return Some(i);
        }
        proof {
            assert(dv.skip(i as int).skip(1) =~~= dv.skip(i + 1));
        }
        i = i + 1;
    }
    proof {
        assert(dv.skip(hs@.len() as int) =~~= Seq::<(Seq<u8>, Seq<u8>)>::empty());
    }
    None
}

/// Outcome of parsing the header block in executable code.
enum HeadersOut {
    Done(Vec<(Vec<u8>, Vec<u8>)>, usize),
    More,
    Bad(ParseError),
}

fn parse_headers_exec(s: &[u8], i: usize) -> (r: HeadersOut)
    requires
        i <= s@.len(),
    ensures
        match r {
            HeadersOut::Done(hs, p) => parse_headers(s@, i as int) == HeaderParse::Done(
                hs.deep_view(),
                p as int,
            ) && i <= p <= s@.len(),
            HeadersOut::More => parse_headers(s@, i as int) == HeaderParse::More,
            HeadersOut::Bad(e) => parse_headers(s@, i as int) == HeaderParse::Bad(e),
        },
    decreases s@.len() - i,
{
    let n = s.len();
    match scan_line_exec(s, i) {
        ScanOut::NoLf => HeadersOut::More,
        ScanOut::SawNul => HeadersOut::Bad(ParseError::MissingTerminator),
        ScanOut::Found(j) => {
            let line_end = if j > i && s[j - 1] == CR {
                j - 1
            } else {
                j
            };
            let ghost gline = strip_cr(s@.subrange(i as int, j as int));
            proof {
                let raw = s@.subrange(i as int, j as int);
                if j > i && s@[j - 1] == CR {
                    assert(raw.last() == CR);
                    assert(raw.drop_last() =~= s@.subrange(i as int, j - 1));
                } else {
                    if raw.len() > 0 {
                        assert(raw.last() == s@[j - 1]);
                    }
                }
                assert(gline =~= s@.subrange(i as int, line_end as int));
            }
            if line_end == i {
                let hs: Vec<(Vec<u8>, Vec<u8>)> = Vec::new();
                proof {
                    assert(gline.len() == 0);
                    assert(hs.deep_view() =~~= Seq::<(Seq<u8>, Seq<u8>)>::empty());
                }
                return HeadersOut::Done(hs, j + 1);
            }
            match find_byte_range(s, i, line_end, COLON) {
                None => {
                    proof {
                        assert forall|t: int| 0 <= t < gline.len() implies gline[t] != COLON by {
                            assert(gline[t] == s@[i + t]);
                        }
                        lemma_find_byte_none(gline, 0, COLON);
                    }
                    HeadersOut::Bad(ParseError::InvalidHeaderLine)
                },
                Some(a) => {
                    let ghost k = a - i;
                    proof {
                        assert(gline[k] == s@[a as int]);
                        assert forall|t: int| 0 <= t < k implies gline[t] != COLON by {
                            assert(gline[t] == s@[i + t]);
                        }
                        lemma_find_byte_found(gline, 0, COLON, k);
                        assert(gline.take(k) =~= s@.subrange(i as int, a as int));
                        assert(gline.skip(k + 1) =~= s@.subrange(a + 1, line_end as int));
                    }
                    let name = match unescape_range(s, i, a) {
                        Ok(v) => v,
                        Err(e) => {
                            return HeadersOut::Bad(e);
                        },
                    };
                    let value = match unescape_range(s, a + 1, line_end) {
                        Ok(v) => v,
                        Err(e) => {
                            return HeadersOut::Bad(e);
                        },
                    };
                    match parse_headers_exec(s, j + 1) {
                        HeadersOut::Done(mut hs, p) => {
                            let ghost olddv = hs.deep_view();
                            hs.insert(0, (name, value));
                            proof {
                                lemma_headers_deep(hs);
                                lemma_bytes_deep(name);
                                lemma_bytes_deep(value);
                                assert(hs.deep_view() =~~= seq![(name@, value@)] + olddv);
                            }
                            HeadersOut::Done(hs, p)
                        },
                        HeadersOut::More => HeadersOut::More,
                        HeadersOut::Bad(e) => HeadersOut::Bad(e),
                    }
                },
            }
        },
    }
}

/// The parsed frame and the count of bytes it occupied, or the signal
/// that more bytes are needed, or the grammar rule violated.
#[derive(Debug, PartialEq, Eq)]
pub enum ParseOutcome {
    /// A frame parsed from the front, and how many bytes to discard.
    Complete(Frame, usize),
    /// Not an error: retain every byte and wait for more input.
    Incomplete,
    /// Fatal: the byte stream can no longer be trusted.
    Malformed(ParseError),
}

/// Attempt to parse exactly one frame from the front of the buffer.
/// The call is stateless: on `Incomplete` the caller retains all bytes.
pub fn parse_frame(buf: &[u8]) -> (r: ParseOutcome)
    ensures
        match r {
            ParseOutcome::Complete(fr, used) => parse_spec(buf@) == FrameParse::Complete(
                fr@,
                used as int,
            ) && used <= buf@.len(),
            ParseOutcome::Incomplete => parse_spec(buf@) == FrameParse::Incomplete,
            ParseOutcome::Malformed(e) => parse_spec(buf@) == FrameParse::Malformed(e),
        },
{
    // skip blank-line padding
    let n = buf.len();
    let mut start: usize = 0;
    loop
        invariant
            start <= n,
            n == buf@.len(),
            skip_eols(buf@, 0) == skip_eols(buf@, start as int),
        ensures
            start <= n,
            skip_eols(buf@, 0) == start,
        decreases buf@.len() - start,
    {
        if start >= n {
            proof {
                assert(skip_eols(buf@, start as int) == start);
            }
            break ;
        }
        if buf[start] == LF {
            start = start + 1;
        } else if buf[start] == CR && start + 1 < n && buf[start + 1] == LF {
            start = start + 2;
        } else {
            proof {
                assert(skip_eols(buf@, start as int) == start);
            }
            break ;
        }
    }
    match scan_line_exec(buf, start) {
        ScanOut::NoLf => ParseOutcome::Incomplete,
        ScanOut::SawNul => ParseOutcome::Malformed(ParseError::MissingTerminator),
        ScanOut::Found(j) => {
            let line_end = if j > start && buf[j - 1] == CR {
                j - 1
            } else {
                j
            };
            let ghost gline = strip_cr(buf@.subrange(start as int, j as int));
            proof {
                let raw = buf@.subrange(start as int, j as int);
                if j > start && buf@[j - 1] == CR {
                    assert(raw.last() == CR);
                    assert(raw.drop_last() =~= buf@.subrange(start as int, j - 1));
                } else {
                    if raw.len() > 0 {
                        assert(raw.last() == buf@[j - 1]);
                    }
                }
                assert(gline =~= buf@.subrange(start as int, line_end as int));
            }
            match lookup_cmd(buf, start, line_end) {
                None => ParseOutcome::Malformed(ParseError::UnknownCommand),
                Some(cmd) => {
                    match parse_headers_exec(buf, j + 1) {
                        HeadersOut::More => ParseOutcome::Incomplete,
                        HeadersOut::Bad(e) => ParseOutcome::Malformed(e),
                        HeadersOut::Done(hdrs, p) => parse_frame_body(buf, p, cmd, hdrs),
                    }
                },
            }
        },
    }
}

/// Parse the body region and assemble the frame.
fn parse_frame_body(buf: &[u8], p: usize, cmd: Command, hdrs: Vec<(Vec<u8>, Vec<u8>)>) -> (r:
    ParseOutcome)
    requires
        p <= buf@.len(),
    ensures
        match r {
            ParseOutcome::Complete(fr, used) => parse_body(buf@, p as int, cmd, hdrs.deep_view())
                == FrameParse::Complete(fr@, used as int) && used <= buf@.len(),
            ParseOutcome::Incomplete => parse_body(buf@, p as int, cmd, hdrs.deep_view())
                == FrameParse::Incomplete,
            ParseOutcome::Malformed(e) => parse_body(buf@, p as int, cmd, hdrs.deep_view())
                == FrameParse::Malformed(e),
        },
{
    let ghost dv = hdrs.deep_view();
    let n = buf.len();
    let clnv = cl_name_vec();
    let mut hdrs = hdrs;
    let ix_opt = first_hdr_index(&hdrs, &clnv);
    if let Some(ix) = ix_opt {
        let vlen = hdrs[ix].1.len();
        let dec = parse_dec_exec(hdrs[ix].1.as_slice(), 0, vlen);
        proof {
            lemma_headers_deep(hdrs);
            lemma_bytes_deep(hdrs@[ix as int].1);
            assert(hdrs@[ix as int].1@.subrange(0, hdrs@[ix as int].1@.len() as int) =~= dv[
                ix as int].1);
        }
        match dec {
            DecOut::NotDec => {
            },
            DecOut::Huge => {
                proof {
                    assert(buf@.len() == n);
                    assert(usize::MAX <= u64::MAX);
                    assert(dec_val(dv[ix as int].1) > buf@.len());
                }
                return ParseOutcome::Incomplete;
            },
            DecOut::Val(v) => {
                if v > usize::MAX as u64 {
                    proof {
                        assert(buf@.len() == n);
                        assert(dec_val(dv[ix as int].1) > buf@.len());
                    }
                    return ParseOutcome::Incomplete;
                }
                let cl = v as usize;
                if p >= n {
                    proof {
                        assert(p + dec_val(dv[ix as int].1) + 1 > buf@.len());
                    }
                    return ParseOutcome::Incomplete;
                }
                if cl > n - p - 1 {
                    proof {
                        assert(p + dec_val(dv[ix as int].1) + 1 > buf@.len());
                    }
                    return ParseOutcome::Incomplete;
                }
                if buf[p + cl] != NUL {
                    return ParseOutcome::Malformed(ParseError::MissingTerminator);
                }
                let body = copy_range(buf, p, p + cl);
                let ghost olddv = hdrs.deep_view();
                let removed = hdrs.remove(ix);
                proof {
                    lemma_remove_first_at(dv, cl_name(), ix as int);
                    lemma_headers_deep(hdrs);
                    assert(hdrs.deep_view() =~~= dv.remove(ix as int));
                    lemma_bytes_deep(body);
                }
                let fr = Frame { command: cmd, headers: hdrs, body: Some(body) };
                proof {
                    assert(fr@ =~~= FrameModel {
                        command: cmd,
                        headers: remove_first(dv, cl_name()),
                        body: Some(buf@.subrange(p as int, p + cl)),
                    });
                }
                return ParseOutcome::Complete(fr, p + cl + 1);
            },
        }
    }
    // no integer-valued content-length: the body runs to the next NUL
    match find_byte_range(buf, p, buf.len(), NUL) {
        None => {
            proof {
                lemma_find_byte_none(buf@, p as int, NUL);
            }
            ParseOutcome::Incomplete
        },
        Some(q) => {
            proof {
                lemma_find_byte_found(buf@, p as int, NUL, q as int);
            }
            if q == p {
                let fr = Frame { command: cmd, headers: hdrs, body: None };
                proof {
                    assert(fr@ =~~= FrameModel { command: cmd, headers: dv, body: None });
                }
                ParseOutcome::Complete(fr, q + 1)
            } else {
                let body = copy_range(buf, p, q);
                proof {
                    lemma_bytes_deep(body);
                }
                let fr = Frame { command: cmd, headers: hdrs, body: Some(body) };
                proof {
                    assert(fr@ =~~= FrameModel {
                        command: cmd,
                        headers: dv,
                        body: Some(buf@.subrange(p as int, q as int)),
                    });
                }
                ParseOutcome::Complete(fr, q + 1)
            }
        },
    }
}

} // verus!
