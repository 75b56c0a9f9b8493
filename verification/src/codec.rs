//! Wire codec for the chat protocol.
//!
//! A frame is one JSON object per line: the tagged union of commands or
//! responses, with tag and payload co-located in one object. The encoder
//! produces the canonical text (fixed field order, no extra whitespace,
//! lowercase `\u00..` escapes for control characters); the decoder accepts
//! exactly the canonical text and reports anything else as a protocol error.
//! Both directions are specified against spec-level functions on character
//! sequences, and [`lemma_round_trip_command`] / [`lemma_round_trip_response`]
//! prove that decoding an encoded value yields the value back.

use vstd::prelude::*;

use crate::{
    ChatCommand, ChatError, ChatResponse, CommandView, ErrorView, Message, MessageView,
    ResponseView,
};
use vstd::string::StrSliceExecFns;
use vstd::string::StringExecFns;

verus! {

// ---------------------------------------------------------------------------
// Characters: digits and hexadecimal nibbles
// ---------------------------------------------------------------------------

/// The lowercase hexadecimal digit for a nibble value.
pub open spec fn nibble_char(n: int) -> char {
    if n == 0 { '0' } else if n == 1 { '1' } else if n == 2 { '2' } else if n == 3 { '3' }
    else if n == 4 { '4' } else if n == 5 { '5' } else if n == 6 { '6' } else if n == 7 { '7' }
    else if n == 8 { '8' } else if n == 9 { '9' } else if n == 10 { 'a' } else if n == 11 { 'b' }
    else if n == 12 { 'c' } else if n == 13 { 'd' } else if n == 14 { 'e' } else { 'f' }
}

/// The nibble value of a lowercase hexadecimal digit, if it is one.
pub open spec fn nibble_val(c: char) -> Option<u8> {
    if c == '0' { Some(0u8) } else if c == '1' { Some(1u8) } else if c == '2' { Some(2u8) }
    else if c == '3' { Some(3u8) } else if c == '4' { Some(4u8) } else if c == '5' { Some(5u8) }
    else if c == '6' { Some(6u8) } else if c == '7' { Some(7u8) } else if c == '8' { Some(8u8) }
    else if c == '9' { Some(9u8) } else if c == 'a' { Some(10u8) } else if c == 'b' { Some(11u8) }
    else if c == 'c' { Some(12u8) } else if c == 'd' { Some(13u8) } else if c == 'e' { Some(14u8) }
    else if c == 'f' { Some(15u8) } else { None }
}

/// The decimal digit for a value below ten.
pub open spec fn digit_char(n: int) -> char {
    if n == 0 { '0' } else if n == 1 { '1' } else if n == 2 { '2' } else if n == 3 { '3' }
    else if n == 4 { '4' } else if n == 5 { '5' } else if n == 6 { '6' } else if n == 7 { '7' }
    else if n == 8 { '8' } else { '9' }
}

/// Whether `c` is a decimal digit.
pub open spec fn is_digit_char(c: char) -> bool {
    c == '0' || c == '1' || c == '2' || c == '3' || c == '4' || c == '5' || c == '6' || c == '7'
        || c == '8' || c == '9'
}

/// The value of a decimal digit.
pub open spec fn digit_val(c: char) -> int {
    if c == '0' { 0 } else if c == '1' { 1 } else if c == '2' { 2 } else if c == '3' { 3 }
    else if c == '4' { 4 } else if c == '5' { 5 } else if c == '6' { 6 } else if c == '7' { 7 }
    else if c == '8' { 8 } else { 9 }
}

// ---------------------------------------------------------------------------
// JSON string escaping
// ---------------------------------------------------------------------------

/// The canonical escape of one character: `\"` and `\\` for the two printable
/// specials, a lowercase `\u00..` escape for control characters, and the
/// character itself otherwise.
pub open spec fn escape_char(c: char) -> Seq<char> {
    if c == '"' {
        seq!['\\', '"']
    } else if c == '\\' {
        seq!['\\', '\\']
    } else if (c as u32) < 0x20 {
        seq!['\\', 'u', '0', '0', nibble_char((c as u32) as int / 16), nibble_char((c as u32) as int % 16)]
    } else {
        seq![c]
    }
}

/// The body of a JSON string literal: every character escaped as needed.
pub open spec fn escape_string(s: Seq<char>) -> Seq<char>
    decreases s.len(),
{
    if s.len() == 0 {
        Seq::empty()
    } else {
        escape_char(s[0]) + escape_string(s.skip(1))
    }
}

/// A complete JSON string literal: quote, escaped body, quote.
pub open spec fn quoted(s: Seq<char>) -> Seq<char> {
    seq!['"'] + escape_string(s) + seq!['"']
}

/// The canonical decimal digits of `n`: no sign, no leading zero.
pub open spec fn dec_digits(n: nat) -> Seq<char>
    decreases n,
{
    if n < 10 {
        seq![digit_char(n as int)]
    } else {
        dec_digits(n / 10) + seq![digit_char((n % 10) as int)]
    }
}

// ---------------------------------------------------------------------------
// The fixed tokens of the wire vocabulary
// ---------------------------------------------------------------------------

pub open spec fn tok_send_message() -> Seq<char> {
    "{\"SendMessage\":"@
}

pub open spec fn tok_join() -> Seq<char> {
    "{\"Join\":"@
}

pub open spec fn tok_leave() -> Seq<char> {
    "{\"Leave\":"@
}

pub open spec fn tok_message_received() -> Seq<char> {
    "{\"MessageReceived\":"@
}

pub open spec fn tok_joined() -> Seq<char> {
    "{\"Joined\":"@
}

pub open spec fn tok_left() -> Seq<char> {
    "{\"Left\":"@
}

pub open spec fn tok_error() -> Seq<char> {
    "{\"Error\":"@
}

pub open spec fn tok_sender() -> Seq<char> {
    "{\"sender\":"@
}

pub open spec fn tok_content() -> Seq<char> {
    ",\"content\":"@
}

pub open spec fn tok_timestamp() -> Seq<char> {
    ",\"timestamp\":"@
}

pub open spec fn tok_close() -> Seq<char> {
    "}"@
}

// ---------------------------------------------------------------------------
// Canonical encoding, at the specification level
// ---------------------------------------------------------------------------

/// The canonical JSON object for one message payload.
pub open spec fn encode_message_chars(m: MessageView) -> Seq<char> {
    tok_sender() + quoted(m.sender) + tok_content() + quoted(m.content) + tok_timestamp()
        + dec_digits(m.timestamp as nat) + tok_close()
}

/// The canonical JSON line (without delimiter) for one command.
pub open spec fn encode_command_chars(c: CommandView) -> Seq<char> {
    match c {
        CommandView::SendMessage(m) => tok_send_message() + encode_message_chars(m) + tok_close(),
        CommandView::Join(room) => tok_join() + quoted(room) + tok_close(),
        CommandView::Leave(room) => tok_leave() + quoted(room) + tok_close(),
    }
}

/// The canonical JSON line (without delimiter) for one response.
pub open spec fn encode_response_chars(r: ResponseView) -> Seq<char> {
    match r {
        ResponseView::MessageReceived(m) => tok_message_received() + encode_message_chars(m)
            + tok_close(),
        ResponseView::Joined(user) => tok_joined() + quoted(user) + tok_close(),
        ResponseView::Left(user) => tok_left() + quoted(user) + tok_close(),
        ResponseView::Error(reason) => tok_error() + quoted(reason) + tok_close(),
    }
}

// ---------------------------------------------------------------------------
// Canonical decoding, at the specification level
// ---------------------------------------------------------------------------

/// Parses the body of a JSON string literal up to and including the closing
/// quote. Returns the unescaped value and the remaining input. Accepts exactly
/// the escapes the encoder produces; a raw control character, a lone
/// backslash, or a missing closing quote is a parse failure.
pub open spec fn parse_string_body(s: Seq<char>) -> Option<(Seq<char>, Seq<char>)>
    decreases s.len(),
{
    if s.len() == 0 {
        None
    } else if s[0] == '"' {
        Some((Seq::empty(), s.skip(1)))
    } else if s[0] == '\\' {
        if s.len() < 2 {
            None
        } else if s[1] == '"' || s[1] == '\\' {
            match parse_string_body(s.skip(2)) {
                Some(t) => Some((seq![s[1]] + t.0, t.1)),
                None => None,
            }
        } else if s[1] == 'u' {
            if s.len() < 6 {
                None
            } else if s[2] == '0' && s[3] == '0' {
                match (nibble_val(s[4]), nibble_val(s[5])) {
                    (Some(n1), Some(n0)) => {
                        if n1 * 16 + n0 < 0x20 {
                            match parse_string_body(s.skip(6)) {
                                Some(t) => Some(
                                    (seq![(((n1 * 16 + n0) as u8) as char)] + t.0, t.1),
                                ),
                                None => None,
                            }
                        } else {
                            None
                        }
                    },
                    _ => None,
                }
            } else {
                None
            }
        } else {
            None
        }
    } else if (s[0] as u32) < 0x20 {
        None
    } else {
        match parse_string_body(s.skip(1)) {
            Some(t) => Some((seq![s[0]] + t.0, t.1)),
            None => None,
        }
    }
}

/// Parses a complete JSON string literal: opening quote, body, closing quote.
pub open spec fn parse_quoted(s: Seq<char>) -> Option<(Seq<char>, Seq<char>)> {
    if s.len() > 0 && s[0] == '"' {
        parse_string_body(s.skip(1))
    } else {
        None
    }
}

/// The length of the leading run of decimal digits.
pub open spec fn digit_run_len(s: Seq<char>) -> int
    decreases s.len(),
{
    if s.len() > 0 && is_digit_char(s[0]) {
        1 + digit_run_len(s.skip(1))
    } else {
        0
    }
}

/// The value of a sequence of decimal digits, most significant first.
pub open spec fn digits_value(d: Seq<char>) -> int
    decreases d.len(),
{
    if d.len() == 0 {
        0
    } else {
        digits_value(d.drop_last()) * 10 + digit_val(d.last())
    }
}

/// Parses a canonical `u64`: a nonempty digit run, no leading zero, value in
/// range.
pub open spec fn parse_number(s: Seq<char>) -> Option<(u64, Seq<char>)> {
    let k = digit_run_len(s);
    if k == 0 {
        None
    } else if s[0] == '0' && k > 1 {
        None
    } else if digits_value(s.take(k)) > u64::MAX {
        None
    } else {
        Some((digits_value(s.take(k)) as u64, s.skip(k)))
    }
}

/// Consumes the fixed token `tok` from the front of `s`.
pub open spec fn expect_tok(s: Seq<char>, tok: Seq<char>) -> Option<Seq<char>> {
    if tok.len() <= s.len() && s.take(tok.len() as int) == tok {
        Some(s.skip(tok.len() as int))
    } else {
        None
    }
}

/// Parses one message-payload object.
pub open spec fn parse_message_obj(s: Seq<char>) -> Option<(MessageView, Seq<char>)> {
    match expect_tok(s, tok_sender()) {
        Some(s1) => match parse_quoted(s1) {
            Some(sender) => match expect_tok(sender.1, tok_content()) {
                Some(s3) => match parse_quoted(s3) {
                    Some(content) => match expect_tok(content.1, tok_timestamp()) {
                        Some(s5) => match parse_number(s5) {
                            Some(ts) => match expect_tok(ts.1, tok_close()) {
                                Some(s7) => Some(
                                    (
                                        MessageView {
                                            sender: sender.0,
                                            content: content.0,
                                            timestamp: ts.0,
                                        },
                                        s7,
                                    ),
                                ),
                                None => None,
                            },
                            None => None,
                        },
                        None => None,
                    },
                    None => None,
                },
                None => None,
            },
            None => None,
        },
        None => None,
    }
}

/// Parses a string payload followed by the closing brace and the end of input.
pub open spec fn parse_string_payload(s: Seq<char>) -> Option<Seq<char>> {
    match parse_quoted(s) {
        Some(v) => match expect_tok(v.1, tok_close()) {
            Some(r2) => if r2.len() == 0 {
                Some(v.0)
            } else {
                None
            },
            None => None,
        },
        None => None,
    }
}

/// Parses one complete command line (without delimiter). `None` is a protocol
/// error: the input is not the canonical encoding of any command.
pub open spec fn parse_command(s: Seq<char>) -> Option<CommandView> {
    match expect_tok(s, tok_send_message()) {
        Some(s1) => match parse_message_obj(s1) {
            Some(m) => match expect_tok(m.1, tok_close()) {
                Some(s3) => if s3.len() == 0 {
                    Some(CommandView::SendMessage(m.0))
                } else {
                    None
                },
                None => None,
            },
            None => None,
        },
        None => match expect_tok(s, tok_join()) {
            Some(s1) => match parse_string_payload(s1) {
                Some(room) => Some(CommandView::Join(room)),
                None => None,
            },
            None => match expect_tok(s, tok_leave()) {
                Some(s1) => match parse_string_payload(s1) {
                    Some(room) => Some(CommandView::Leave(room)),
                    None => None,
                },
                None => None,
            },
        },
    }
}

/// Parses one complete response line (without delimiter).
pub open spec fn parse_response(s: Seq<char>) -> Option<ResponseView> {
    match expect_tok(s, tok_message_received()) {
        Some(s1) => match parse_message_obj(s1) {
            Some(m) => match expect_tok(m.1, tok_close()) {
                Some(s3) => if s3.len() == 0 {
                    Some(ResponseView::MessageReceived(m.0))
                } else {
                    None
                },
                None => None,
            },
            None => None,
        },
        None => match expect_tok(s, tok_joined()) {
            Some(s1) => match parse_string_payload(s1) {
                Some(user) => Some(ResponseView::Joined(user)),
                None => None,
            },
            None => match expect_tok(s, tok_left()) {
                Some(s1) => match parse_string_payload(s1) {
                    Some(user) => Some(ResponseView::Left(user)),
                    None => None,
                },
                None => match expect_tok(s, tok_error()) {
                    Some(s1) => match parse_string_payload(s1) {
                        Some(reason) => Some(ResponseView::Error(reason)),
                        None => None,
                    },
                    None => None,
                },
            },
        },
    }
}

// ---------------------------------------------------------------------------
// Executable encoding helpers
// ---------------------------------------------------------------------------

/// Relies on `String`'s `FromIterator<char>` impl: collecting an iterator of
/// characters yields the string of exactly those characters in order.
#[verifier::external_body]
fn chars_to_string(v: &Vec<char>) -> (r: String)
    ensures
        r@ == v@,
{
    v.iter().collect()
}

/// The characters of a string slice, as a vector.
pub fn str_to_chars(s: &str) -> (r: Vec<char>)
    ensures
        r@ == s@,
{
    let n = s.unicode_len();
    let mut r: Vec<char> = Vec::new();
    let mut i: usize = 0;
    while i < n
        invariant
            n == s@.len(),
            i <= n,
            r@ == s@.take(i as int),
        decreases n - i,
    {
        r.push(s.get_char(i));
        i = i + 1;
        proof {
            assert(r@ =~= s@.take(i as int));
        }
    }
    proof {
        assert(r@ =~= s@);
    }
    r
}

fn nibble_char_exec(n: u32) -> (r: char)
    requires
        n < 16,
    ensures
        r == nibble_char(n as int),
{
    match n {
        0 => '0',
        1 => '1',
        2 => '2',
        3 => '3',
        4 => '4',
        5 => '5',
        6 => '6',
        7 => '7',
        8 => '8',
        9 => '9',
        10 => 'a',
        11 => 'b',
        12 => 'c',
        13 => 'd',
        14 => 'e',
        _ => 'f',
    }
}

fn digit_char_exec(n: u64) -> (r: char)
    requires
        n < 10,
    ensures
        r == digit_char(n as int),
{
    match n {
        0 => '0',
        1 => '1',
        2 => '2',
        3 => '3',
        4 => '4',
        5 => '5',
        6 => '6',
        7 => '7',
        8 => '8',
        _ => '9',
    }
}

/// Escaping distributes over concatenation.
proof fn lemma_escape_string_append(a: Seq<char>, b: Seq<char>)
    ensures
        escape_string(a + b) == escape_string(a) + escape_string(b),
    decreases a.len(),
{
    if a.len() == 0 {
        assert(a + b =~= b);
        assert(escape_string(a) + escape_string(b) =~= escape_string(b));
    } else {
        assert((a + b).skip(1) =~= a.skip(1) + b);
        lemma_escape_string_append(a.skip(1), b);
        assert(escape_string(a + b) =~= escape_string(a) + escape_string(b));
    }
}

/// Appends the escaped body of `s` to `out`.
fn escape_push(out: &mut Vec<char>, s: &str)
    ensures
        final(out)@ == old(out)@ + escape_string(s@),
{
    let chars = str_to_chars(s);
    let ghost base = out@;
    let mut i: usize = 0;
    while i < chars.len()
        invariant
            chars@ == s@,
            i <= chars@.len(),
            out@ == base + escape_string(s@.take(i as int)),
        decreases chars@.len() - i,
    {
        let ghost before = out@;
        let c = chars[i];
        if c == '"' {
            out.push('\\');
            out.push('"');
        } else if c == '\\' {
            out.push('\\');
            out.push('\\');
        } else if (c as u32) < 0x20 {
            out.push('\\');
            out.push('u');
            out.push('0');
            out.push('0');
            out.push(nibble_char_exec((c as u32) / 16));
            out.push(nibble_char_exec((c as u32) % 16));
        } else {
            out.push(c);
        }
        proof {
            assert(out@ =~= before + escape_char(s@[i as int]));
        }
        i = i + 1;
        proof {
            let ghost j = i as int;
            assert(s@.take(j - 1) + seq![s@[j - 1]] =~= s@.take(j));
            lemma_escape_string_append(s@.take(j - 1), seq![s@[j - 1]]);
            assert(seq![s@[j - 1]].skip(1) =~= Seq::<char>::empty());
            assert(escape_string(Seq::<char>::empty()) =~= Seq::<char>::empty());
            assert(seq![s@[j - 1]][0] == s@[j - 1]);
            assert(escape_string(seq![s@[j - 1]]) =~= escape_char(s@[j - 1]) + escape_string(
                seq![s@[j - 1]].skip(1),
            ));
            assert(escape_string(seq![s@[j - 1]]) =~= escape_char(s@[j - 1]));
            assert(out@ =~= base + escape_string(s@.take(j)));
        }
    }
    proof {
        assert(s@.take(s@.len() as int) =~= s@);
    }
}

/// Appends the complete JSON string literal for `s` to `out`.
fn quoted_push(out: &mut Vec<char>, s: &str)
    ensures
        final(out)@ == old(out)@ + quoted(s@),
{
    out.push('"');
    escape_push(out, s);
    out.push('"');
    proof {
        assert(out@ =~= old(out)@ + quoted(s@));
    }
}

/// Appends the canonical decimal digits of `n` to `out`.
fn dec_digits_push(out: &mut Vec<char>, n: u64)
    ensures
        final(out)@ == old(out)@ + dec_digits(n as nat),
    decreases n,
{
    if n < 10 {
        out.push(digit_char_exec(n));
        proof {
            assert(out@ =~= old(out)@ + dec_digits(n as nat));
        }
    } else {
        dec_digits_push(out, n / 10);
        out.push(digit_char_exec(n % 10));
        proof {
            assert(out@ =~= old(out)@ + dec_digits(n as nat));
        }
    }
}

/// Appends the characters of the literal `tok` to `out`.
fn token_push(out: &mut Vec<char>, tok: &str)
    ensures
        final(out)@ == old(out)@ + tok@,
{
    let mut chars = str_to_chars(tok);
    out.append(&mut chars);
}

/// Appends the message-payload object to `out`.
fn message_push(out: &mut Vec<char>, m: &Message)
    ensures
        final(out)@ == old(out)@ + encode_message_chars(m@),
{
    token_push(out, "{\"sender\":");
    quoted_push(out, m.sender.as_str());
    token_push(out, ",\"content\":");
    quoted_push(out, m.content.as_str());
    token_push(out, ",\"timestamp\":");
    dec_digits_push(out, m.timestamp);
    token_push(out, "}");
    proof {
        assert(out@ =~= old(out)@ + encode_message_chars(m@));
    }
}

/// Encodes one command as its canonical JSON line (without the delimiter).
pub fn encode_command(cmd: &ChatCommand) -> (r: String)
    ensures
        r@ == encode_command_chars(cmd@),
{
    let mut out: Vec<char> = Vec::new();
    match cmd {
        ChatCommand::SendMessage(m) => {
            token_push(&mut out, "{\"SendMessage\":");
            message_push(&mut out, m);
            token_push(&mut out, "}");
        },
        ChatCommand::Join(room) => {
            token_push(&mut out, "{\"Join\":");
            quoted_push(&mut out, room.as_str());
            token_push(&mut out, "}");
        },
        ChatCommand::Leave(room) => {
            token_push(&mut out, "{\"Leave\":");
            quoted_push(&mut out, room.as_str());
            token_push(&mut out, "}");
        },
    }
    proof {
        assert(out@ =~= encode_command_chars(cmd@));
    }
    chars_to_string(&out)
}

/// Encodes one response as its canonical JSON line (without the delimiter).
pub fn encode_response(resp: &ChatResponse) -> (r: String)
    ensures
        r@ == encode_response_chars(resp@),
{
    let mut out: Vec<char> = Vec::new();
    match resp {
        ChatResponse::MessageReceived(m) => {
            token_push(&mut out, "{\"MessageReceived\":");
            message_push(&mut out, m);
            token_push(&mut out, "}");
        },
        ChatResponse::Joined(user) => {
            token_push(&mut out, "{\"Joined\":");
            quoted_push(&mut out, user.as_str());
            token_push(&mut out, "}");
        },
        ChatResponse::Left(user) => {
            token_push(&mut out, "{\"Left\":");
            quoted_push(&mut out, user.as_str());
            token_push(&mut out, "}");
        },
        ChatResponse::Error(reason) => {
            token_push(&mut out, "{\"Error\":");
            quoted_push(&mut out, reason.as_str());
            token_push(&mut out, "}");
        },
    }
    proof {
        assert(out@ =~= encode_response_chars(resp@));
    }
    chars_to_string(&out)
}

// ---------------------------------------------------------------------------
// Executable decoding
// ---------------------------------------------------------------------------

fn nibble_val_exec(c: char) -> (r: Option<u8>)
    ensures
        r == nibble_val(c),
{
    match c {
        '0' => Some(0u8),
        '1' => Some(1u8),
        '2' => Some(2u8),
        '3' => Some(3u8),
        '4' => Some(4u8),
        '5' => Some(5u8),
        '6' => Some(6u8),
        '7' => Some(7u8),
        '8' => Some(8u8),
        '9' => Some(9u8),
        'a' => Some(10u8),
        'b' => Some(11u8),
        'c' => Some(12u8),
        'd' => Some(13u8),
        'e' => Some(14u8),
        'f' => Some(15u8),
        _ => None,
    }
}

fn is_digit_exec(c: char) -> (r: bool)
    ensures
        r == is_digit_char(c),
{
    match c {
        '0' | '1' | '2' | '3' | '4' | '5' | '6' | '7' | '8' | '9' => true,
        _ => false,
    }
}

fn digit_val_exec(c: char) -> (r: u64)
    requires
        is_digit_char(c),
    ensures
        r as int == digit_val(c),
        r < 10,
{
    match c {
        '0' => 0,
        '1' => 1,
        '2' => 2,
        '3' => 3,
        '4' => 4,
        '5' => 5,
        '6' => 6,
        '7' => 7,
        '8' => 8,
        _ => 9,
    }
}

fn parse_string_body_exec(v: &Vec<char>, i: usize) -> (r: Option<(Vec<char>, usize)>)
    requires
        i <= v.len(),
    ensures
        (r is Some) == (parse_string_body(v@.skip(i as int)) is Some),
        r matches Some(t) ==> (parse_string_body(v@.skip(i as int)) matches Some(st) && t.0@
            == st.0 && i <= t.1 <= v.len() && v@.skip(t.1 as int) == st.1),
    decreases v.len() - i,
{
    let ghost s = v@.skip(i as int);
    if i >= v.len() {
        None
    } else {
        let c = v[i];
        assert(c == s[0]);
        if c == '"' {
            proof {
                assert(v@.skip(i + 1) =~= s.skip(1));
            }
            Some((Vec::new(), i + 1))
        } else if c == '\\' {
            if i + 1 >= v.len() {
                None
            } else {
                let e = v[i + 1];
                assert(e == s[1]);
                if e == '"' || e == '\\' {
                    proof {
                        assert(v@.skip(i + 2) =~= s.skip(2));
                    }
                    match parse_string_body_exec(v, i + 2) {
                        Some((val, j)) => {
                            let mut val = val;
                            val.insert(0, e);
                            proof {
                                assert(val@ =~= seq![s[1]] + val@.skip(1));
                            }
                            Some((val, j))
                        },
                        None => None,
                    }
                } else if e == 'u' {
                    if v.len() - i < 6 {
                        assert(s.len() < 6);
                        None
                    } else if v[i + 2] == '0' && v[i + 3] == '0' {
                        assert(v[i + 2 as int] == s[2] && v[i + 3 as int] == s[3]);
                        assert(v[i + 4 as int] == s[4] && v[i + 5 as int] == s[5]);
                        let o1 = nibble_val_exec(v[i + 4]);
                        let o0 = nibble_val_exec(v[i + 5]);
                        match (o1, o0) {
                            (Some(n1), Some(n0)) => {
                                assert(n1 < 16 && n0 < 16);
                                let code: u8 = n1 * 16 + n0;
                                if code < 0x20 {
                                    proof {
                                        assert(v@.skip(i + 6) =~= s.skip(6));
                                    }
                                    match parse_string_body_exec(v, i + 6) {
                                        Some((val, j)) => {
                                            let mut val = val;
                                            val.insert(0, code as char);
                                            proof {
                                                assert(val@ =~= seq![(code as char)] + val@.skip(
                                                    1,
                                                ));
                                            }
                                            Some((val, j))
                                        },
                                        None => None,
                                    }
                                } else {
                                    None
                                }
                            },
                            _ => None,
                        }
                    } else {
                        assert(v[i + 2 as int] == s[2] && v[i + 3 as int] == s[3]);
                        None
                    }
                } else {
                    None
                }
            }
        } else if (c as u32) < 0x20 {
            None
        } else {
            proof {
                assert(v@.skip(i + 1) =~= s.skip(1));
            }
            match parse_string_body_exec(v, i + 1) {
                Some((val, j)) => {
                    let mut val = val;
                    val.insert(0, c);
                    proof {
                        assert(val@ =~= seq![s[0]] + val@.skip(1));
                    }
                    Some((val, j))
                },
                None => None,
            }
        }
    }
}

fn parse_quoted_exec(v: &Vec<char>, i: usize) -> (r: Option<(String, usize)>)
    requires
        i <= v.len(),
    ensures
        (r is Some) == (parse_quoted(v@.skip(i as int)) is Some),
        r matches Some(t) ==> (parse_quoted(v@.skip(i as int)) matches Some(st) && t.0@ == st.0
            && i <= t.1 <= v.len() && v@.skip(t.1 as int) == st.1),
{
    let ghost s = v@.skip(i as int);
    if i < v.len() && v[i] == '"' {
        assert(s.len() > 0 && s[0] == '"');
        proof {
            assert(v@.skip(i + 1) =~= s.skip(1));
        }
        match parse_string_body_exec(v, i + 1) {
            Some((val, j)) => Some((chars_to_string(&val), j)),
            None => None,
        }
    } else {
        assert(!(s.len() > 0 && s[0] == '"'));
        None
    }
}

proof fn lemma_digit_run_props(s: Seq<char>)
    ensures
        0 <= digit_run_len(s) <= s.len(),
        forall|m: int| 0 <= m < digit_run_len(s) ==> is_digit_char(#[trigger] s[m]),
    decreases s.len(),
{
    if s.len() > 0 && is_digit_char(s[0]) {
        lemma_digit_run_props(s.skip(1));
        assert forall|m: int| 0 <= m < digit_run_len(s) implies is_digit_char(#[trigger] s[m]) by {
            if m > 0 {
                assert(s.skip(1)[m - 1] == s[m]);
            }
        }
    }
}

proof fn lemma_digits_value_nonneg(d: Seq<char>)
    ensures
        digits_value(d) >= 0,
    decreases d.len(),
{
    if d.len() > 0 {
        lemma_digits_value_nonneg(d.drop_last());
    }
}

proof fn lemma_digits_value_mono(d: Seq<char>, m: int)
    requires
        0 <= m <= d.len(),
    ensures
        digits_value(d.take(m)) <= digits_value(d),
    decreases d.len() - m,
{
    if m == d.len() {
        assert(d.take(m) =~= d);
    } else {
        lemma_digits_value_nonneg(d.take(m));
        assert(d.take(m + 1).drop_last() =~= d.take(m));
        assert(d.take(m + 1).last() == d[m]);
        lemma_digits_value_mono(d, m + 1);
    }
}

fn digit_run_len_exec(v: &Vec<char>, i: usize) -> (r: usize)
    requires
        i <= v.len(),
    ensures
        r as int == digit_run_len(v@.skip(i as int)),
        i + r <= v.len(),
    decreases v.len() - i,
{
    let ghost s = v@.skip(i as int);
    if i < v.len() && is_digit_exec(v[i]) {
        assert(s.len() > 0 && is_digit_char(s[0]));
        proof {
            assert(v@.skip(i + 1) =~= s.skip(1));
        }
        let rest = digit_run_len_exec(v, i + 1);
        1 + rest
    } else {
        assert(!(s.len() > 0 && is_digit_char(s[0])));
        0
    }
}

fn parse_number_exec(v: &Vec<char>, i: usize) -> (r: Option<(u64, usize)>)
    requires
        i <= v.len(),
    ensures
        (r is Some) == (parse_number(v@.skip(i as int)) is Some),
        r matches Some(t) ==> (parse_number(v@.skip(i as int)) matches Some(st) && t.0 == st.0 && i
            <= t.1 <= v.len() && v@.skip(t.1 as int) == st.1),
{
    let ghost s = v@.skip(i as int);
    let k = digit_run_len_exec(v, i);
    proof {
        lemma_digit_run_props(s);
    }
    if k == 0 {
        None
    } else if v[i] == '0' && k > 1 {
        assert(s[0] == '0');
        None
    } else {
        let ghost kk = k as int;
        let end: usize = i + k;
        let mut acc: u64 = 0;
        let mut j: usize = i;
        let mut overflow: bool = false;
        while j < end
            invariant
                i <= j <= end,
                end == i + k,
                i + k <= v.len(),
                k as int == kk,
                kk <= s.len(),
                kk == digit_run_len(s),
                s == v@.skip(i as int),
                forall|m: int| 0 <= m < kk ==> is_digit_char(#[trigger] s[m]),
                !overflow ==> acc as int == digits_value(s.take(j - i)),
                overflow ==> digits_value(s.take(kk)) > u64::MAX,
            decreases end - j,
        {
            let c = v[j];
            assert(c == s[j - i]);
            assert(is_digit_char(s[j - i]));
            let d = digit_val_exec(c);
            proof {
                assert(s.take(j - i + 1).drop_last() =~= s.take(j - i));
                assert(s.take(j - i + 1).last() == s[j - i]);
            }
            if !overflow {
                if acc > (u64::MAX - d) / 10 {
                    proof {
                        vstd::arithmetic::div_mod::lemma_fundamental_div_mod(
                            (u64::MAX - d) as int,
                            10,
                        );
                        assert(acc as int * 10 + d as int > u64::MAX);
                        assert(kk <= s.len());
                        assert(s.take(kk).len() == kk);
                        lemma_digits_value_mono(s.take(kk), j - i + 1);
                        assert(s.take(kk).take(j - i + 1) =~= s.take(j - i + 1));
                    }
                    overflow = true;
                } else {
                    proof {
                        vstd::arithmetic::div_mod::lemma_fundamental_div_mod(
                            (u64::MAX - d) as int,
                            10,
                        );
                        assert(acc as int * 10 + d as int <= u64::MAX);
                    }
                    acc = acc * 10 + d;
                }
            }
            j = j + 1;
        }
        if overflow {
            assert(parse_number(s) is None);
            None
        } else {
            assert(s.take(j - i) =~= s.take(kk));
            proof {
                assert(v@.skip(i + k) =~= s.skip(kk));
            }
            Some((acc, i + k))
        }
    }
}

fn expect_tok_exec(v: &Vec<char>, i: usize, tok: &Vec<char>) -> (r: Option<usize>)
    requires
        i <= v.len(),
    ensures
        (r is Some) == (expect_tok(v@.skip(i as int), tok@) is Some),
        r matches Some(j) ==> (expect_tok(v@.skip(i as int), tok@) matches Some(srest) && i <= j
            <= v.len() && v@.skip(j as int) == srest),
{
    let ghost s = v@.skip(i as int);
    if tok.len() > v.len() - i {
        assert(tok@.len() > s.len());
        None
    } else {
        let mut k: usize = 0;
        while k < tok.len()
            invariant
                k <= tok@.len(),
                tok@.len() <= v@.len() - i,
                i <= v@.len(),
                v@.len() <= usize::MAX,
                s == v@.skip(i as int),
                forall|m: int| 0 <= m < k ==> s[m] == tok@[m],
            decreases tok@.len() - k,
        {
            assert(i + k < v@.len());
            if v[i + k] != tok[k] {
                proof {
                    assert(s[k as int] != tok@[k as int]);
                    if s.take(tok@.len() as int) == tok@ {
                        assert(s.take(tok@.len() as int)[k as int] == s[k as int]);
                    }
                }
                return None;
            }
            assert(s[k as int] == tok@[k as int]);
            k = k + 1;
        }
        proof {
            assert(s.take(tok@.len() as int) =~= tok@);
            assert(v@.skip(i + tok@.len()) =~= s.skip(tok@.len() as int));
        }
        Some(i + tok.len())
    }
}

fn parse_message_obj_exec(v: &Vec<char>, i: usize) -> (r: Option<(Message, usize)>)
    requires
        i <= v.len(),
    ensures
        (r is Some) == (parse_message_obj(v@.skip(i as int)) is Some),
        r matches Some(t) ==> (parse_message_obj(v@.skip(i as int)) matches Some(st) && t.0@
            == st.0 && i <= t.1 <= v.len() && v@.skip(t.1 as int) == st.1),
{
    let tok_snd = str_to_chars("{\"sender\":");
    let tok_cnt = str_to_chars(",\"content\":");
    let tok_ts = str_to_chars(",\"timestamp\":");
    let tok_cl = str_to_chars("}");
    let i1 = match expect_tok_exec(v, i, &tok_snd) {
        Some(j) => j,
        None => {
            return None;
        },
    };
    let (sender, i2) = match parse_quoted_exec(v, i1) {
        Some(t) => t,
        None => {
            return None;
        },
    };
    let i3 = match expect_tok_exec(v, i2, &tok_cnt) {
        Some(j) => j,
        None => {
            return None;
        },
    };
    let (content, i4) = match parse_quoted_exec(v, i3) {
        Some(t) => t,
        None => {
            return None;
        },
    };
    let i5 = match expect_tok_exec(v, i4, &tok_ts) {
        Some(j) => j,
        None => {
            return None;
        },
    };
    let (ts, i6) = match parse_number_exec(v, i5) {
        Some(t) => t,
        None => {
            return None;
        },
    };
    let i7 = match expect_tok_exec(v, i6, &tok_cl) {
        Some(j) => j,
        None => {
            return None;
        },
    };
    Some((Message { sender, content, timestamp: ts }, i7))
}

fn parse_string_payload_exec(v: &Vec<char>, i: usize) -> (r: Option<String>)
    requires
        i <= v.len(),
    ensures
        (r is Some) == (parse_string_payload(v@.skip(i as int)) is Some),
        r matches Some(x) ==> parse_string_payload(v@.skip(i as int)) == Some(x@),
{
    let tok_cl = str_to_chars("}");
    let (val, i1) = match parse_quoted_exec(v, i) {
        Some(t) => t,
        None => {
            return None;
        },
    };
    let i2 = match expect_tok_exec(v, i1, &tok_cl) {
        Some(j) => j,
        None => {
            return None;
        },
    };
    if i2 == v.len() {
        assert(v@.skip(i2 as int).len() == 0);
        Some(val)
    } else {
        assert(v@.skip(i2 as int).len() > 0);
        None
    }
}

pub(crate) fn parse_command_chars(v: &Vec<char>) -> (r: Option<ChatCommand>)
    ensures
        (r is Some) == (parse_command(v@) is Some),
        r matches Some(c) ==> parse_command(v@) == Some(c@),
{
    proof {
        assert(v@.skip(0) =~= v@);
    }
    let tok_sm = str_to_chars("{\"SendMessage\":");
    let tok_cl = str_to_chars("}");
    match expect_tok_exec(v, 0, &tok_sm) {
        Some(i1) => {
            let (m, i2) = match parse_message_obj_exec(v, i1) {
                Some(t) => t,
                None => {
                    return None;
                },
            };
            let i3 = match expect_tok_exec(v, i2, &tok_cl) {
                Some(j) => j,
                None => {
                    return None;
                },
            };
            if i3 == v.len() {
                assert(v@.skip(i3 as int).len() == 0);
                Some(ChatCommand::SendMessage(m))
            } else {
                assert(v@.skip(i3 as int).len() > 0);
                None
            }
        },
        None => {
            let tok_jn = str_to_chars("{\"Join\":");
            match expect_tok_exec(v, 0, &tok_jn) {
                Some(i1) => match parse_string_payload_exec(v, i1) {
                    Some(room) => Some(ChatCommand::Join(room)),
                    None => None,
                },
                None => {
                    let tok_lv = str_to_chars("{\"Leave\":");
                    match expect_tok_exec(v, 0, &tok_lv) {
                        Some(i1) => match parse_string_payload_exec(v, i1) {
                            Some(room) => Some(ChatCommand::Leave(room)),
                            None => None,
                        },
                        None => None,
                    }
                },
            }
        },
    }
}

pub(crate) fn parse_response_chars(v: &Vec<char>) -> (r: Option<ChatResponse>)
    ensures
        (r is Some) == (parse_response(v@) is Some),
        r matches Some(c) ==> parse_response(v@) == Some(c@),
{
    proof {
        assert(v@.skip(0) =~= v@);
    }
    let tok_mr = str_to_chars("{\"MessageReceived\":");
    let tok_cl = str_to_chars("}");
    match expect_tok_exec(v, 0, &tok_mr) {
        Some(i1) => {
            let (m, i2) = match parse_message_obj_exec(v, i1) {
                Some(t) => t,
                None => {
                    return None;
                },
            };
            let i3 = match expect_tok_exec(v, i2, &tok_cl) {
                Some(j) => j,
                None => {
                    return None;
                },
            };
            if i3 == v.len() {
                assert(v@.skip(i3 as int).len() == 0);
                Some(ChatResponse::MessageReceived(m))
            } else {
                assert(v@.skip(i3 as int).len() > 0);
                None
            }
        },
        None => {
            let tok_jd = str_to_chars("{\"Joined\":");
            match expect_tok_exec(v, 0, &tok_jd) {
                Some(i1) => match parse_string_payload_exec(v, i1) {
                    Some(user) => Some(ChatResponse::Joined(user)),
                    None => None,
                },
                None => {
                    let tok_lf = str_to_chars("{\"Left\":");
                    match expect_tok_exec(v, 0, &tok_lf) {
                        Some(i1) => match parse_string_payload_exec(v, i1) {
                            Some(user) => Some(ChatResponse::Left(user)),
                            None => None,
                        },
                        None => {
                            let tok_er = str_to_chars("{\"Error\":");
                            match expect_tok_exec(v, 0, &tok_er) {
                                Some(i1) => match parse_string_payload_exec(v, i1) {
                                    Some(reason) => Some(ChatResponse::Error(reason)),
                                    None => None,
                                },
                                None => None,
                            }
                        },
                    }
                },
            }
        },
    }
}

/// Decodes one command line (without delimiter). Succeeds exactly on the
/// canonical encoding of a command; anything else is a `Protocol` error.
pub fn decode_command(s: &str) -> (r: Result<ChatCommand, ChatError>)
    ensures
        (r is Ok) == (parse_command(s@) is Some),
        r matches Ok(c) ==> parse_command(s@) == Some(c@),
        r matches Err(e) ==> e@ == ErrorView::Protocol("failed to parse message"@),
{
    let v = str_to_chars(s);
    match parse_command_chars(&v) {
        Some(c) => Ok(c),
        None => Err(ChatError::Protocol(String::from_str("failed to parse message"))),
    }
}

/// Decodes one response line (without delimiter). Succeeds exactly on the
/// canonical encoding of a response; anything else is a `Protocol` error.
pub fn decode_response(s: &str) -> (r: Result<ChatResponse, ChatError>)
    ensures
        (r is Ok) == (parse_response(s@) is Some),
        r matches Ok(c) ==> parse_response(s@) == Some(c@),
        r matches Err(e) ==> e@ == ErrorView::Protocol("failed to parse message"@),
{
    let v = str_to_chars(s);
    match parse_response_chars(&v) {
        Some(c) => Ok(c),
        None => Err(ChatError::Protocol(String::from_str("failed to parse message"))),
    }
}

// ---------------------------------------------------------------------------
// Round trip: decoding a canonical encoding yields the value back
// ---------------------------------------------------------------------------

/// Taking or skipping a concatenation at the seam recovers the two parts.
proof fn lemma_concat_take_skip(a: Seq<char>, b: Seq<char>)
    ensures
        (a + b).take(a.len() as int) == a,
        (a + b).skip(a.len() as int) == b,
{
    assert((a + b).take(a.len() as int) =~= a);
    assert((a + b).skip(a.len() as int) =~= b);
}

/// A token at the front of the input is consumed exactly.
proof fn lemma_expect_tok(tok: Seq<char>, rest: Seq<char>)
    ensures
        expect_tok(tok + rest, tok) == Some(rest),
{
    lemma_concat_take_skip(tok, rest);
}

proof fn lemma_nibble_round(n: int)
    requires
        0 <= n < 16,
    ensures
        nibble_val(nibble_char(n)) == Some(n as u8),
{
}

proof fn lemma_digit_round(n: int)
    requires
        0 <= n < 10,
    ensures
        digit_val(digit_char(n)) == n,
        is_digit_char(digit_char(n)),
        n > 0 ==> digit_char(n) != '0',
{
}

/// Parsing the escaped body of `v`, a closing quote, and anything after it
/// yields `v` and the input after the quote.
proof fn lemma_parse_string_body(v: Seq<char>, rest: Seq<char>)
    ensures
        parse_string_body(escape_string(v) + seq!['"'] + rest) == Some((v, rest)),
    decreases v.len(),
{
    let s = escape_string(v) + seq!['"'] + rest;
    if v.len() == 0 {
        assert(escape_string(v) =~= Seq::<char>::empty());
        assert(s =~= seq!['"'] + rest);
        assert(s[0] == '"');
        assert(s.skip(1) =~= rest);
        assert(v =~= Seq::<char>::empty());
    } else {
        let c = v[0];
        let e = escape_char(c);
        let tail = escape_string(v.skip(1)) + seq!['"'] + rest;
        assert(escape_string(v) == e + escape_string(v.skip(1)));
        assert(s =~= e + tail);
        lemma_parse_string_body(v.skip(1), rest);
        if c == '"' {
            assert(s[0] == '\\');
            assert(s[1] == '"');
            assert(s.skip(2) =~= tail);
            assert(seq![s[1]] + v.skip(1) =~= v);
        } else if c == '\\' {
            assert(s[0] == '\\');
            assert(s[1] == '\\');
            assert(s.skip(2) =~= tail);
            assert(seq![s[1]] + v.skip(1) =~= v);
        } else if (c as u32) < 0x20 {
            let code = (c as u32) as int;
            let hi = code / 16;
            let lo = code % 16;
            vstd::arithmetic::div_mod::lemma_fundamental_div_mod(code, 16);
            assert(0 <= hi < 16);
            assert(0 <= lo < 16);
            assert(s[0] == '\\');
            assert(s[1] == 'u');
            assert(s[2] == '0');
            assert(s[3] == '0');
            assert(s[4] == nibble_char(hi));
            assert(s[5] == nibble_char(lo));
            lemma_nibble_round(hi);
            lemma_nibble_round(lo);
            let n1 = hi as u8;
            let n0 = lo as u8;
            assert(n1 * 16 + n0 == code);
            assert(((n1 * 16 + n0) as u8) as char == c) by {
                assert(((n1 * 16 + n0) as u8) as u32 == c as u32);
                vstd::utf8::char_u32_cast(c, ((n1 * 16 + n0) as u8) as u32);
            }
            assert(s.skip(6) =~= tail);
            assert(seq![c] + v.skip(1) =~= v);
        } else {
            assert(s[0] == c);
            assert(s[0] != '"' && s[0] != '\\' && !((s[0] as u32) < 0x20));
            assert(s.skip(1) =~= tail);
            assert(seq![s[0]] + v.skip(1) =~= v);
        }
    }
}

/// Parsing a complete JSON string literal yields its value.
proof fn lemma_parse_quoted(v: Seq<char>, rest: Seq<char>)
    ensures
        parse_quoted(quoted(v) + rest) == Some((v, rest)),
{
    let s = quoted(v) + rest;
    assert(s[0] == '"');
    assert(s.skip(1) =~= escape_string(v) + seq!['"'] + rest);
    lemma_parse_string_body(v, rest);
}

/// Every character of a canonical decimal is a digit.
proof fn lemma_dec_digits_are_digits(n: nat)
    ensures
        dec_digits(n).len() >= 1,
        forall|i: int| 0 <= i < dec_digits(n).len() ==> is_digit_char(#[trigger] dec_digits(n)[i]),
        n > 0 ==> dec_digits(n)[0] != '0',
    decreases n,
{
    if n < 10 {
        lemma_digit_round(n as int);
    } else {
        lemma_dec_digits_are_digits(n / 10);
        lemma_digit_round((n % 10) as int);
        assert(dec_digits(n)[0] == dec_digits(n / 10)[0]);
    }
}

/// The digit run of a digit sequence followed by a non-digit is the digit
/// sequence itself.
proof fn lemma_digit_run_full(d: Seq<char>, rest: Seq<char>)
    requires
        forall|i: int| 0 <= i < d.len() ==> is_digit_char(#[trigger] d[i]),
        rest.len() == 0 || !is_digit_char(rest[0]),
    ensures
        digit_run_len(d + rest) == d.len(),
    decreases d.len(),
{
    if d.len() == 0 {
        assert(d + rest =~= rest);
    } else {
        assert((d + rest)[0] == d[0]);
        assert((d + rest).skip(1) =~= d.skip(1) + rest);
        lemma_digit_run_full(d.skip(1), rest);
    }
}

/// The value of the canonical digits of `n` is `n`.
proof fn lemma_digits_value_dec(n: nat)
    ensures
        digits_value(dec_digits(n)) == n,
    decreases n,
{
    if n < 10 {
        assert(seq![digit_char(n as int)].drop_last() =~= Seq::<char>::empty());
        assert(digits_value(Seq::<char>::empty()) == 0);
        lemma_digit_round(n as int);
    } else {
        lemma_digits_value_dec(n / 10);
        lemma_digit_round((n % 10) as int);
        let d = dec_digits(n / 10);
        let full = d + seq![digit_char((n % 10) as int)];
        assert(dec_digits(n) == full);
        assert(full.drop_last() =~= d);
        assert(full.last() == digit_char((n % 10) as int));
        vstd::arithmetic::div_mod::lemma_fundamental_div_mod(n as int, 10);
        assert(digits_value(full) == digits_value(d) * 10 + digit_val(full.last()));
    }
}

/// Parsing the canonical digits of `n`, followed by anything that does not
/// begin with a digit, yields `n`.
proof fn lemma_parse_number(n: u64, rest: Seq<char>)
    requires
        rest.len() == 0 || !is_digit_char(rest[0]),
    ensures
        parse_number(dec_digits(n as nat) + rest) == Some((n, rest)),
{
    let d = dec_digits(n as nat);
    let s = d + rest;
    lemma_dec_digits_are_digits(n as nat);
    lemma_digit_run_full(d, rest);
    lemma_concat_take_skip(d, rest);
    lemma_digits_value_dec(n as nat);
    assert(s[0] == d[0]);
    if n == 0 {
        assert(d =~= seq![digit_char(0)]);
    }
}

/// Parsing the canonical message object followed by anything yields the
/// message and that remainder.
pub proof fn lemma_parse_message_obj(m: MessageView, rest: Seq<char>)
    ensures
        parse_message_obj(encode_message_chars(m) + rest) == Some((m, rest)),
{
    let s = encode_message_chars(m) + rest;
    let r1 = quoted(m.sender) + (tok_content() + (quoted(m.content) + (tok_timestamp()
        + (dec_digits(m.timestamp as nat) + (tok_close() + rest)))));
    assert(s =~= tok_sender() + r1);
    lemma_expect_tok(tok_sender(), r1);
    let r2 = tok_content() + (quoted(m.content) + (tok_timestamp() + (dec_digits(
        m.timestamp as nat,
    ) + (tok_close() + rest))));
    assert(r1 =~= quoted(m.sender) + r2);
    lemma_parse_quoted(m.sender, r2);
    let r3 = quoted(m.content) + (tok_timestamp() + (dec_digits(m.timestamp as nat) + (tok_close()
        + rest)));
    assert(r2 =~= tok_content() + r3);
    lemma_expect_tok(tok_content(), r3);
    let r4 = tok_timestamp() + (dec_digits(m.timestamp as nat) + (tok_close() + rest));
    assert(r3 =~= quoted(m.content) + r4);
    lemma_parse_quoted(m.content, r4);
    let r5 = dec_digits(m.timestamp as nat) + (tok_close() + rest);
    assert(r4 =~= tok_timestamp() + r5);
    lemma_expect_tok(tok_timestamp(), r5);
    let r6 = tok_close() + rest;
    reveal_strlit("}");
    assert(tok_close().len() == 1);
    assert(r6[0] == '}');
    assert(!is_digit_char('}'));
    lemma_parse_number(m.timestamp, r6);
    lemma_expect_tok(tok_close(), rest);
}

// ---------------------------------------------------------------------------
// Canonicality: the parser accepts nothing but canonical encodings
// ---------------------------------------------------------------------------

proof fn lemma_nibble_char_of_val(c: char, n: u8)
    requires
        nibble_val(c) == Some(n),
    ensures
        nibble_char(n as int) == c,
{
}

proof fn lemma_digit_char_of_val(c: char)
    requires
        is_digit_char(c),
    ensures
        digit_char(digit_val(c)) == c,
{
}

#[verifier::rlimit(50)]
proof fn lemma_parse_string_body_canonical(s: Seq<char>)
    ensures
        parse_string_body(s) matches Some(t) ==> s == escape_string(t.0) + seq!['"'] + t.1,
    decreases s.len(),
{
    if s.len() == 0 {
    } else if s[0] == '"' {
        assert(escape_string(Seq::<char>::empty()) =~= Seq::<char>::empty());
        assert(s =~= escape_string(Seq::<char>::empty()) + seq!['"'] + s.skip(1));
    } else if s[0] == '\\' {
        if s.len() < 2 {
        } else if s[1] == '"' || s[1] == '\\' {
            lemma_parse_string_body_canonical(s.skip(2));
            match parse_string_body(s.skip(2)) {
                Some(t) => {
                    let v = seq![s[1]] + t.0;
                    assert(v[0] == s[1]);
                    assert(v.skip(1) =~= t.0);
                    assert(escape_char(v[0]) =~= seq!['\\', s[1]]);
                    assert(escape_string(v) == escape_char(v[0]) + escape_string(t.0));
                    assert(s =~= seq!['\\', s[1]] + s.skip(2));
                    assert(s =~= escape_string(v) + seq!['"'] + t.1);
                },
                None => {},
            }
        } else if s[1] == 'u' {
            if s.len() < 6 {
            } else if s[2] == '0' && s[3] == '0' {
                match (nibble_val(s[4]), nibble_val(s[5])) {
                    (Some(n1), Some(n0)) => {
                        if n1 * 16 + n0 < 0x20 {
                            lemma_parse_string_body_canonical(s.skip(6));
                            match parse_string_body(s.skip(6)) {
                                Some(t) => {
                                    let code = n1 * 16 + n0;
                                    let ch = ((code as u8) as char);
                                    assert(ch as u32 == code);
                                    let v = seq![ch] + t.0;
                                    assert(v[0] == ch);
                                    assert(v.skip(1) =~= t.0);
                                    assert(('"' as u32) == 0x22 && ('\\' as u32) == 0x5C);
                                    assert(ch != '"' && ch != '\\' && (ch as u32) < 0x20);
                                    lemma_nibble_char_of_val(s[4], n1);
                                    lemma_nibble_char_of_val(s[5], n0);
                                    vstd::arithmetic::div_mod::lemma_fundamental_div_mod_converse(
                                        code,
                                        16,
                                        n1 as int,
                                        n0 as int,
                                    );
                                    assert(escape_char(ch) =~= seq![
                                        '\\',
                                        'u',
                                        '0',
                                        '0',
                                        s[4],
                                        s[5],
                                    ]);
                                    assert(escape_string(v) == escape_char(v[0]) + escape_string(
                                        t.0,
                                    ));
                                    assert(s =~= seq!['\\', 'u', '0', '0', s[4], s[5]] + s.skip(6));
                                    assert(s =~= escape_string(v) + seq!['"'] + t.1);
                                },
                                None => {},
                            }
                        }
                    },
                    _ => {},
                }
            }
        }
    } else if (s[0] as u32) < 0x20 {
    } else {
        lemma_parse_string_body_canonical(s.skip(1));
        match parse_string_body(s.skip(1)) {
            Some(t) => {
                let v = seq![s[0]] + t.0;
                assert(v[0] == s[0]);
                assert(v.skip(1) =~= t.0);
                assert(escape_char(v[0]) =~= seq![s[0]]);
                assert(escape_string(v) == escape_char(v[0]) + escape_string(t.0));
                assert(s =~= seq![s[0]] + s.skip(1));
                assert(s =~= escape_string(v) + seq!['"'] + t.1);
            },
            None => {},
        }
    }
}

proof fn lemma_parse_quoted_canonical(s: Seq<char>)
    ensures
        parse_quoted(s) matches Some(t) ==> s == quoted(t.0) + t.1,
{
    if s.len() > 0 && s[0] == '"' {
        lemma_parse_string_body_canonical(s.skip(1));
        match parse_string_body(s.skip(1)) {
            Some(t) => {
                assert(s =~= seq!['"'] + s.skip(1));
                assert(s =~= quoted(t.0) + t.1);
            },
            None => {},
        }
    }
}

proof fn lemma_digits_value_positive(d: Seq<char>)
    requires
        d.len() >= 1,
        forall|i: int| 0 <= i < d.len() ==> is_digit_char(#[trigger] d[i]),
        d[0] != '0',
    ensures
        digits_value(d) >= 1,
    decreases d.len(),
{
    if d.len() == 1 {
        assert(d.drop_last() =~= Seq::<char>::empty());
        assert(digits_value(Seq::<char>::empty()) == 0);
        assert(d.last() == d[0]);
    } else {
        assert(d.drop_last()[0] == d[0]);
        lemma_digits_value_positive(d.drop_last());
    }
}

proof fn lemma_dec_of_digits(d: Seq<char>)
    requires
        d.len() >= 1,
        forall|i: int| 0 <= i < d.len() ==> is_digit_char(#[trigger] d[i]),
        d[0] != '0' || d.len() == 1,
    ensures
        digits_value(d) >= 0,
        dec_digits(digits_value(d) as nat) == d,
    decreases d.len(),
{
    lemma_digits_value_nonneg(d);
    if d.len() == 1 {
        assert(d.drop_last() =~= Seq::<char>::empty());
        assert(digits_value(Seq::<char>::empty()) == 0);
        lemma_digit_char_of_val(d[0]);
        assert(dec_digits(digits_value(d) as nat) =~= d);
    } else {
        let dl = d.drop_last();
        assert(dl[0] == d[0]);
        lemma_digits_value_positive(dl);
        lemma_dec_of_digits(dl);
        let v = digits_value(d);
        vstd::arithmetic::div_mod::lemma_fundamental_div_mod_converse(
            v,
            10,
            digits_value(dl),
            digit_val(d.last()),
        );
        assert(v >= 10);
        lemma_digit_char_of_val(d.last());
        assert(dec_digits(v as nat) == dec_digits((v / 10) as nat) + seq![
            digit_char((v % 10) as int),
        ]);
        assert(dec_digits(v as nat) =~= d);
    }
}

proof fn lemma_parse_number_canonical(s: Seq<char>)
    ensures
        parse_number(s) matches Some(t) ==> s == dec_digits(t.0 as nat) + t.1,
{
    let k = digit_run_len(s);
    lemma_digit_run_props(s);
    match parse_number(s) {
        Some(t) => {
            let d = s.take(k);
            assert(d.len() == k);
            assert(forall|i: int| 0 <= i < k ==> d[i] == s[i]);
            assert(d[0] != '0' || k == 1);
            lemma_dec_of_digits(d);
            assert(t.0 as nat == digits_value(d) as nat);
            assert(s =~= d + s.skip(k));
        },
        None => {},
    }
}

proof fn lemma_expect_tok_canonical(s: Seq<char>, tok: Seq<char>)
    ensures
        expect_tok(s, tok) matches Some(r) ==> s == tok + r,
{
    if expect_tok(s, tok) matches Some(r) {
        assert(s =~= s.take(tok.len() as int) + s.skip(tok.len() as int));
    }
}

proof fn lemma_parse_message_obj_canonical(s: Seq<char>)
    ensures
        parse_message_obj(s) matches Some(t) ==> s == encode_message_chars(t.0) + t.1,
{
    lemma_expect_tok_canonical(s, tok_sender());
    match expect_tok(s, tok_sender()) {
        Some(s1) => {
            lemma_parse_quoted_canonical(s1);
            match parse_quoted(s1) {
                Some(sen) => {
                    lemma_expect_tok_canonical(sen.1, tok_content());
                    match expect_tok(sen.1, tok_content()) {
                        Some(s3) => {
                            lemma_parse_quoted_canonical(s3);
                            match parse_quoted(s3) {
                                Some(con) => {
                                    lemma_expect_tok_canonical(con.1, tok_timestamp());
                                    match expect_tok(con.1, tok_timestamp()) {
                                        Some(s5) => {
                                            lemma_parse_number_canonical(s5);
                                            match parse_number(s5) {
                                                Some(ts) => {
                                                    lemma_expect_tok_canonical(ts.1, tok_close());
                                                    match expect_tok(ts.1, tok_close()) {
                                                        Some(s7) => {
                                                            let m = MessageView {
                                                                sender: sen.0,
                                                                content: con.0,
                                                                timestamp: ts.0,
                                                            };
                                                            assert(s =~= encode_message_chars(m)
                                                                + s7);
                                                        },
                                                        None => {},
                                                    }
                                                },
                                                None => {},
                                            }
                                        },
                                        None => {},
                                    }
                                },
                                None => {},
                            }
                        },
                        None => {},
                    }
                },
                None => {},
            }
        },
        None => {},
    }
}

proof fn lemma_parse_string_payload_canonical(s: Seq<char>)
    ensures
        parse_string_payload(s) matches Some(v) ==> s == quoted(v) + tok_close(),
{
    lemma_parse_quoted_canonical(s);
    match parse_quoted(s) {
        Some(t) => {
            lemma_expect_tok_canonical(t.1, tok_close());
            match expect_tok(t.1, tok_close()) {
                Some(r2) => {
                    if r2.len() == 0 {
                        assert(t.1 =~= tok_close() + r2);
                        assert(t.1 =~= tok_close());
                        assert(s =~= quoted(t.0) + tok_close());
                    }
                },
                None => {},
            }
        },
        None => {},
    }
}

/// Canonicality for commands: the parser accepts nothing but the canonical
/// encoding — whenever it yields a command, the input was exactly that
/// command's encoding.
pub proof fn lemma_parse_command_canonical(s: Seq<char>)
    ensures
        parse_command(s) matches Some(c) ==> s == encode_command_chars(c),
{
    lemma_expect_tok_canonical(s, tok_send_message());
    lemma_expect_tok_canonical(s, tok_join());
    lemma_expect_tok_canonical(s, tok_leave());
    match expect_tok(s, tok_send_message()) {
        Some(s1) => {
            lemma_parse_message_obj_canonical(s1);
            match parse_message_obj(s1) {
                Some(m) => {
                    lemma_expect_tok_canonical(m.1, tok_close());
                    match expect_tok(m.1, tok_close()) {
                        Some(s3) => {
                            if s3.len() == 0 {
                                assert(m.1 =~= tok_close() + s3);
                                assert(m.1 =~= tok_close());
                                assert(s =~= tok_send_message() + encode_message_chars(m.0)
                                    + tok_close());
                            }
                        },
                        None => {},
                    }
                },
                None => {},
            }
        },
        None => {
            match expect_tok(s, tok_join()) {
                Some(s1) => {
                    lemma_parse_string_payload_canonical(s1);
                    match parse_string_payload(s1) {
                        Some(room) => {
                            assert(s =~= tok_join() + quoted(room) + tok_close());
                        },
                        None => {},
                    }
                },
                None => {
                    match expect_tok(s, tok_leave()) {
                        Some(s1) => {
                            lemma_parse_string_payload_canonical(s1);
                            match parse_string_payload(s1) {
                                Some(room) => {
                                    assert(s =~= tok_leave() + quoted(room) + tok_close());
                                },
                                None => {},
                            }
                        },
                        None => {},
                    }
                },
            }
        },
    }
}

/// Canonicality for responses.
pub proof fn lemma_parse_response_canonical(s: Seq<char>)
    ensures
        parse_response(s) matches Some(r) ==> s == encode_response_chars(r),
{
    lemma_expect_tok_canonical(s, tok_message_received());
    lemma_expect_tok_canonical(s, tok_joined());
    lemma_expect_tok_canonical(s, tok_left());
    lemma_expect_tok_canonical(s, tok_error());
    match expect_tok(s, tok_message_received()) {
        Some(s1) => {
            lemma_parse_message_obj_canonical(s1);
            match parse_message_obj(s1) {
                Some(m) => {
                    lemma_expect_tok_canonical(m.1, tok_close());
                    match expect_tok(m.1, tok_close()) {
                        Some(s3) => {
                            if s3.len() == 0 {
                                assert(m.1 =~= tok_close() + s3);
                                assert(m.1 =~= tok_close());
                                assert(s =~= tok_message_received() + encode_message_chars(m.0)
                                    + tok_close());
                            }
                        },
                        None => {},
                    }
                },
                None => {},
            }
        },
        None => {
            match expect_tok(s, tok_joined()) {
                Some(s1) => {
                    lemma_parse_string_payload_canonical(s1);
                    match parse_string_payload(s1) {
                        Some(user) => {
                            assert(s =~= tok_joined() + quoted(user) + tok_close());
                        },
                        None => {},
                    }
                },
                None => {
                    match expect_tok(s, tok_left()) {
                        Some(s1) => {
                            lemma_parse_string_payload_canonical(s1);
                            match parse_string_payload(s1) {
                                Some(user) => {
                                    assert(s =~= tok_left() + quoted(user) + tok_close());
                                },
                                None => {},
                            }
                        },
                        None => {
                            match expect_tok(s, tok_error()) {
                                Some(s1) => {
                                    lemma_parse_string_payload_canonical(s1);
                                    match parse_string_payload(s1) {
                                        Some(reason) => {
                                            assert(s =~= tok_error() + quoted(reason)
                                                + tok_close());
                                        },
                                        None => {},
                                    }
                                },
                                None => {},
                            }
                        },
                    }
                },
            }
        },
    }
}

/// Round trip for commands: parsing the canonical encoding of any command
/// yields exactly that command.
pub proof fn lemma_round_trip_command(c: CommandView)
    ensures
        parse_command(encode_command_chars(c)) == Some(c),
{
    reveal_strlit("{\"SendMessage\":");
    reveal_strlit("{\"Join\":");
    reveal_strlit("{\"Leave\":");
    let s = encode_command_chars(c);
    match c {
        CommandView::SendMessage(m) => {
            let r1 = encode_message_chars(m) + tok_close();
            assert(s =~= tok_send_message() + r1);
            lemma_expect_tok(tok_send_message(), r1);
            lemma_parse_message_obj(m, tok_close());
            assert(tok_close() + Seq::<char>::empty() =~= tok_close());
            lemma_expect_tok(tok_close(), Seq::<char>::empty());
        },
        CommandView::Join(room) => {
            assert(s[2] == 'J');
            if expect_tok(s, tok_send_message()) is Some {
                assert(s.take(tok_send_message().len() as int)[2] == s[2]);
                assert(false);
            }
            let r1 = quoted(room) + tok_close();
            assert(s =~= tok_join() + r1);
            lemma_expect_tok(tok_join(), r1);
            lemma_parse_quoted(room, tok_close());
            assert(tok_close() + Seq::<char>::empty() =~= tok_close());
            lemma_expect_tok(tok_close(), Seq::<char>::empty());
        },
        CommandView::Leave(room) => {
            assert(s[2] == 'L');
            if expect_tok(s, tok_send_message()) is Some {
                assert(s.take(tok_send_message().len() as int)[2] == s[2]);
                assert(false);
            }
            if expect_tok(s, tok_join()) is Some {
                assert(s.take(tok_join().len() as int)[2] == s[2]);
                assert(false);
            }
            let r1 = quoted(room) + tok_close();
            assert(s =~= tok_leave() + r1);
            lemma_expect_tok(tok_leave(), r1);
            lemma_parse_quoted(room, tok_close());
            assert(tok_close() + Seq::<char>::empty() =~= tok_close());
            lemma_expect_tok(tok_close(), Seq::<char>::empty());
        },
    }
}

/// Round trip for responses: parsing the canonical encoding of any response
/// yields exactly that response.
pub proof fn lemma_round_trip_response(r: ResponseView)
    ensures
        parse_response(encode_response_chars(r)) == Some(r),
{
    reveal_strlit("{\"MessageReceived\":");
    reveal_strlit("{\"Joined\":");
    reveal_strlit("{\"Left\":");
    reveal_strlit("{\"Error\":");
    let s = encode_response_chars(r);
    match r {
        ResponseView::MessageReceived(m) => {
            let r1 = encode_message_chars(m) + tok_close();
            assert(s =~= tok_message_received() + r1);
            lemma_expect_tok(tok_message_received(), r1);
            lemma_parse_message_obj(m, tok_close());
            assert(tok_close() + Seq::<char>::empty() =~= tok_close());
            lemma_expect_tok(tok_close(), Seq::<char>::empty());
        },
        ResponseView::Joined(user) => {
            assert(s[2] == 'J');
            if expect_tok(s, tok_message_received()) is Some {
                assert(s.take(tok_message_received().len() as int)[2] == s[2]);
                assert(false);
            }
            let r1 = quoted(user) + tok_close();
            assert(s =~= tok_joined() + r1);
            lemma_expect_tok(tok_joined(), r1);
            lemma_parse_quoted(user, tok_close());
            assert(tok_close() + Seq::<char>::empty() =~= tok_close());
            lemma_expect_tok(tok_close(), Seq::<char>::empty());
        },
        ResponseView::Left(user) => {
            assert(s[2] == 'L');
            if expect_tok(s, tok_message_received()) is Some {
                assert(s.take(tok_message_received().len() as int)[2] == s[2]);
                assert(false);
            }
            if expect_tok(s, tok_joined()) is Some {
                assert(s.take(tok_joined().len() as int)[2] == s[2]);
                assert(false);
            }
            let r1 = quoted(user) + tok_close();
            assert(s =~= tok_left() + r1);
            lemma_expect_tok(tok_left(), r1);
            lemma_parse_quoted(user, tok_close());
            assert(tok_close() + Seq::<char>::empty() =~= tok_close());
            lemma_expect_tok(tok_close(), Seq::<char>::empty());
        },
        ResponseView::Error(reason) => {
            assert(s[2] == 'E');
            if expect_tok(s, tok_message_received()) is Some {
                assert(s.take(tok_message_received().len() as int)[2] == s[2]);
                assert(false);
            }
            if expect_tok(s, tok_joined()) is Some {
                assert(s.take(tok_joined().len() as int)[2] == s[2]);
                assert(false);
            }
            if expect_tok(s, tok_left()) is Some {
                assert(s.take(tok_left().len() as int)[2] == s[2]);
                assert(false);
            }
            let r1 = quoted(reason) + tok_close();
            assert(s =~= tok_error() + r1);
            lemma_expect_tok(tok_error(), r1);
            lemma_parse_quoted(reason, tok_close());
            assert(tok_close() + Seq::<char>::empty() =~= tok_close());
            lemma_expect_tok(tok_close(), Seq::<char>::empty());
        },
    }
}

} // verus!
