//! Framing and the per-frame read/write discipline of a channel.
//!
//! A channel turns a reliable byte stream into a typed message channel: every
//! frame written is the UTF-8 bytes of one canonical JSON line followed by
//! exactly one delimiter byte, and every completed read of one delimited frame
//! is classified here — peer closed, malformed frame, or a decoded value. The
//! socket halves themselves live outside the library; they hand byte buffers
//! in and take byte buffers out.

use vstd::prelude::*;

use crate::codec::{
    encode_command, encode_command_chars, encode_message_chars, encode_response,
    encode_response_chars, escape_char, escape_string, parse_command, parse_response, str_to_chars,
};
use crate::{ChatCommand, ChatError, ChatResponse, CommandView, ErrorView, Message, ResponseView};
use vstd::string::StringExecFns;
use vstd::utf8::{decode_utf8, encode_utf8, valid_utf8};

verus! {

/// The delimiter byte: one line feed ends every frame.
pub const DELIMITER: u8 = 10;

// ---------------------------------------------------------------------------
// Write path
// ---------------------------------------------------------------------------

/// Appends the delimiter unless the buffer already ends with one, exactly as
/// the write path does before handing a buffer to the socket.
pub fn frame_bytes(data: &mut Vec<u8>)
    ensures
        old(data)@.len() > 0 && old(data)@.last() == DELIMITER ==> final(data)@ == old(data)@,
        !(old(data)@.len() > 0 && old(data)@.last() == DELIMITER) ==> final(data)@ == old(data)@
            + seq![DELIMITER],
        final(data)@.len() > 0 && final(data)@.last() == DELIMITER,
{
    let n = data.len();
    if n == 0 || data[n - 1] != DELIMITER {
        data.push(DELIMITER);
        proof {
            assert(data@.last() == DELIMITER);
        }
    }
}

/// The full wire frame for a command: the UTF-8 bytes of its canonical JSON
/// line, then the delimiter.
pub open spec fn command_frame_bytes(c: CommandView) -> Seq<u8> {
    encode_utf8(encode_command_chars(c)) + seq![DELIMITER]
}

/// The full wire frame for a response.
pub open spec fn response_frame_bytes(r: ResponseView) -> Seq<u8> {
    encode_utf8(encode_response_chars(r)) + seq![DELIMITER]
}

/// Encodes one command as a complete, delimited wire frame.
pub fn encode_command_frame(cmd: &ChatCommand) -> (r: Vec<u8>)
    ensures
        r@ == command_frame_bytes(cmd@),
{
    let line = encode_command(cmd);
    let mut out = vstd::slice::slice_to_vec(line.as_str().as_bytes());
    out.push(DELIMITER);
    proof {
        assert(out@ =~= command_frame_bytes(cmd@));
    }
    out
}

/// Encodes one response as a complete, delimited wire frame.
pub fn encode_response_frame(resp: &ChatResponse) -> (r: Vec<u8>)
    ensures
        r@ == response_frame_bytes(resp@),
{
    let line = encode_response(resp);
    let mut out = vstd::slice::slice_to_vec(line.as_str().as_bytes());
    out.push(DELIMITER);
    proof {
        assert(out@ =~= response_frame_bytes(resp@));
    }
    out
}

// ---------------------------------------------------------------------------
// Read path
// ---------------------------------------------------------------------------

/// Relies on `String::from_utf8`: it succeeds exactly on valid UTF-8 input,
/// returning the string whose characters that input encodes.
#[verifier::external_body]
fn bytes_to_string(b: &Vec<u8>) -> (r: Option<String>)
    ensures
        (r is Some) == valid_utf8(b@),
        r matches Some(s) ==> s@ == decode_utf8(b@) && encode_utf8(s@) == b@,
{
    String::from_utf8(b.clone()).ok()
}

/// One trailing delimiter stripped, if present: a frame read with
/// read-until-delimiter keeps the delimiter in the buffer.
pub open spec fn strip_newline(s: Seq<char>) -> Seq<char> {
    if s.len() > 0 && s.last() == '\n' {
        s.drop_last()
    } else {
        s
    }
}

/// What one raw frame means as a command: valid UTF-8, the optional trailing
/// delimiter stripped, then the canonical parse.
pub open spec fn frame_to_command(bytes: Seq<u8>) -> Option<CommandView> {
    if valid_utf8(bytes) {
        parse_command(strip_newline(decode_utf8(bytes)))
    } else {
        None
    }
}

/// What one raw frame means as a response.
pub open spec fn frame_to_response(bytes: Seq<u8>) -> Option<ResponseView> {
    if valid_utf8(bytes) {
        parse_response(strip_newline(decode_utf8(bytes)))
    } else {
        None
    }
}

/// Strips one trailing `'\n'` character from the decoded frame, if present.
fn strip_newline_chars(chars: &mut Vec<char>)
    ensures
        final(chars)@ == strip_newline(old(chars)@),
{
    let n = chars.len();
    if n > 0 && chars[n - 1] == '\n' {
        let _ = chars.pop();
    }
}

/// Classifies one completed frame read as a command, as the server's receive
/// path does. `n` is the byte count the transport's read returned — zero
/// means the peer closed cleanly — and `buf` holds the bytes read.
pub fn receive_command(n: usize, buf: &Vec<u8>) -> (r: Result<ChatCommand, ChatError>)
    ensures
        n == 0 ==> (r matches Err(e) && e@ == ErrorView::Network("connection closed"@)),
        n > 0 ==> ((r is Ok) == (frame_to_command(buf@) is Some)),
        n > 0 ==> (r matches Ok(c) ==> frame_to_command(buf@) == Some(c@)),
        n > 0 ==> (r matches Err(e) ==> e@ is Protocol),
{
    if n == 0 {
        return Err(ChatError::Network(String::from_str("connection closed")));
    }
    match bytes_to_string(buf) {
        Some(line) => {
            let mut chars = str_to_chars(line.as_str());
            strip_newline_chars(&mut chars);
            match crate::codec::parse_command_chars(&chars) {
                Some(c) => Ok(c),
                None => Err(ChatError::Protocol(String::from_str("failed to parse message"))),
            }
        },
        None => Err(ChatError::Protocol(String::from_str("frame is not valid utf-8"))),
    }
}

/// Classifies one completed frame read as a response, as the client's receive
/// path does.
pub fn receive_response(n: usize, buf: &Vec<u8>) -> (r: Result<ChatResponse, ChatError>)
    ensures
        n == 0 ==> (r matches Err(e) && e@ == ErrorView::Network("connection closed"@)),
        n > 0 ==> ((r is Ok) == (frame_to_response(buf@) is Some)),
        n > 0 ==> (r matches Ok(c) ==> frame_to_response(buf@) == Some(c@)),
        n > 0 ==> (r matches Err(e) ==> e@ is Protocol),
{
    if n == 0 {
        return Err(ChatError::Network(String::from_str("connection closed")));
    }
    match bytes_to_string(buf) {
        Some(line) => {
            let mut chars = str_to_chars(line.as_str());
            strip_newline_chars(&mut chars);
            match crate::codec::parse_response_chars(&chars) {
                Some(c) => Ok(c),
                None => Err(ChatError::Protocol(String::from_str("failed to parse message"))),
            }
        },
        None => Err(ChatError::Protocol(String::from_str("frame is not valid utf-8"))),
    }
}

// ---------------------------------------------------------------------------
// Framing invariants and the frame round trip
// ---------------------------------------------------------------------------

/// A character sequence with no line feed in it: safe to put on the wire as
/// one frame body.
pub open spec fn line_clean(s: Seq<char>) -> bool {
    forall|i: int| 0 <= i < s.len() ==> (#[trigger] s[i]) != '\n'
}

proof fn lemma_line_clean_concat(a: Seq<char>, b: Seq<char>)
    requires
        line_clean(a),
        line_clean(b),
    ensures
        line_clean(a + b),
{
    assert forall|i: int| 0 <= i < (a + b).len() implies (#[trigger] (a + b)[i]) != '\n' by {
        if i < a.len() {
            assert((a + b)[i] == a[i]);
        } else {
            assert((a + b)[i] == b[i - a.len()]);
        }
    }
}

proof fn lemma_escape_string_clean(s: Seq<char>)
    ensures
        line_clean(escape_string(s)),
    decreases s.len(),
{
    if s.len() == 0 {
    } else {
        assert(line_clean(escape_char(s[0]))) by {
            assert(('\n' as u32) == 10);
        }
        lemma_escape_string_clean(s.skip(1));
        lemma_line_clean_concat(escape_char(s[0]), escape_string(s.skip(1)));
    }
}

proof fn lemma_quoted_clean(s: Seq<char>)
    ensures
        line_clean(crate::codec::quoted(s)),
{
    lemma_escape_string_clean(s);
    assert(line_clean(seq!['"']));
    lemma_line_clean_concat(seq!['"'], escape_string(s));
    lemma_line_clean_concat(seq!['"'] + escape_string(s), seq!['"']);
}

proof fn lemma_dec_digits_clean(n: nat)
    ensures
        line_clean(crate::codec::dec_digits(n)),
    decreases n,
{
    if n < 10 {
    } else {
        lemma_dec_digits_clean(n / 10);
        lemma_line_clean_concat(
            crate::codec::dec_digits(n / 10),
            seq![crate::codec::digit_char((n % 10) as int)],
        );
    }
}

proof fn lemma_tokens_clean()
    ensures
        line_clean(crate::codec::tok_send_message()),
        line_clean(crate::codec::tok_join()),
        line_clean(crate::codec::tok_leave()),
        line_clean(crate::codec::tok_message_received()),
        line_clean(crate::codec::tok_joined()),
        line_clean(crate::codec::tok_left()),
        line_clean(crate::codec::tok_error()),
        line_clean(crate::codec::tok_sender()),
        line_clean(crate::codec::tok_content()),
        line_clean(crate::codec::tok_timestamp()),
        line_clean(crate::codec::tok_close()),
{
    reveal_strlit("{\"SendMessage\":");
    reveal_strlit("{\"Join\":");
    reveal_strlit("{\"Leave\":");
    reveal_strlit("{\"MessageReceived\":");
    reveal_strlit("{\"Joined\":");
    reveal_strlit("{\"Left\":");
    reveal_strlit("{\"Error\":");
    reveal_strlit("{\"sender\":");
    reveal_strlit(",\"content\":");
    reveal_strlit(",\"timestamp\":");
    reveal_strlit("}");
}

proof fn lemma_message_chars_clean(m: crate::MessageView)
    ensures
        line_clean(encode_message_chars(m)),
{
    lemma_tokens_clean();
    lemma_quoted_clean(m.sender);
    lemma_quoted_clean(m.content);
    lemma_dec_digits_clean(m.timestamp as nat);
    let a1 = crate::codec::tok_sender();
    let a2 = a1 + crate::codec::quoted(m.sender);
    let a3 = a2 + crate::codec::tok_content();
    let a4 = a3 + crate::codec::quoted(m.content);
    let a5 = a4 + crate::codec::tok_timestamp();
    let a6 = a5 + crate::codec::dec_digits(m.timestamp as nat);
    lemma_line_clean_concat(a1, crate::codec::quoted(m.sender));
    lemma_line_clean_concat(a2, crate::codec::tok_content());
    lemma_line_clean_concat(a3, crate::codec::quoted(m.content));
    lemma_line_clean_concat(a4, crate::codec::tok_timestamp());
    lemma_line_clean_concat(a5, crate::codec::dec_digits(m.timestamp as nat));
    lemma_line_clean_concat(a6, crate::codec::tok_close());
}

/// The canonical JSON line of a command never contains the delimiter
/// character: escaping removes every control character.
proof fn lemma_command_chars_clean(c: CommandView)
    ensures
        line_clean(encode_command_chars(c)),
{
    lemma_tokens_clean();
    match c {
        CommandView::SendMessage(m) => {
            lemma_message_chars_clean(m);
            lemma_line_clean_concat(crate::codec::tok_send_message(), encode_message_chars(m));
            lemma_line_clean_concat(
                crate::codec::tok_send_message() + encode_message_chars(m),
                crate::codec::tok_close(),
            );
        },
        CommandView::Join(room) => {
            lemma_quoted_clean(room);
            lemma_line_clean_concat(crate::codec::tok_join(), crate::codec::quoted(room));
            lemma_line_clean_concat(
                crate::codec::tok_join() + crate::codec::quoted(room),
                crate::codec::tok_close(),
            );
        },
        CommandView::Leave(room) => {
            lemma_quoted_clean(room);
            lemma_line_clean_concat(crate::codec::tok_leave(), crate::codec::quoted(room));
            lemma_line_clean_concat(
                crate::codec::tok_leave() + crate::codec::quoted(room),
                crate::codec::tok_close(),
            );
        },
    }
}

/// The canonical JSON line of a response never contains the delimiter
/// character.
proof fn lemma_response_chars_clean(r: ResponseView)
    ensures
        line_clean(encode_response_chars(r)),
{
    lemma_tokens_clean();
    match r {
        ResponseView::MessageReceived(m) => {
            lemma_message_chars_clean(m);
            lemma_line_clean_concat(
                crate::codec::tok_message_received(),
                encode_message_chars(m),
            );
            lemma_line_clean_concat(
                crate::codec::tok_message_received() + encode_message_chars(m),
                crate::codec::tok_close(),
            );
        },
        ResponseView::Joined(user) => {
            lemma_quoted_clean(user);
            lemma_line_clean_concat(crate::codec::tok_joined(), crate::codec::quoted(user));
            lemma_line_clean_concat(
                crate::codec::tok_joined() + crate::codec::quoted(user),
                crate::codec::tok_close(),
            );
        },
        ResponseView::Left(user) => {
            lemma_quoted_clean(user);
            lemma_line_clean_concat(crate::codec::tok_left(), crate::codec::quoted(user));
            lemma_line_clean_concat(
                crate::codec::tok_left() + crate::codec::quoted(user),
                crate::codec::tok_close(),
            );
        },
        ResponseView::Error(reason) => {
            lemma_quoted_clean(reason);
            lemma_line_clean_concat(crate::codec::tok_error(), crate::codec::quoted(reason));
            lemma_line_clean_concat(
                crate::codec::tok_error() + crate::codec::quoted(reason),
                crate::codec::tok_close(),
            );
        },
    }
}

proof fn lemma_encode_scalar_no_delimiter(s: u32)
    requires
        vstd::utf8::is_scalar(s),
        s != 10,
    ensures
        forall|i: int|
            0 <= i < vstd::utf8::encode_scalar(s).len() ==> (#[trigger] vstd::utf8::encode_scalar(
                s,
            )[i]) != DELIMITER,
{
    if vstd::utf8::has_width_1_encoding(s) {
        assert(((s & 0x7F) as u8) != 10u8) by (bit_vector)
            requires
                s <= 0x7F && s != 10,
        ;
    } else if vstd::utf8::has_width_2_encoding(s) {
        assert((0xC0u8 | (((s >> 6) & 0x1F) as u8)) != 10u8) by (bit_vector);
        assert((0x80u8 | ((s & 0x3F) as u8)) != 10u8) by (bit_vector);
    } else if vstd::utf8::has_width_3_encoding(s) {
        assert((0xE0u8 | (((s >> 12) & 0x0F) as u8)) != 10u8) by (bit_vector);
        assert((0x80u8 | (((s >> 6) & 0x3F) as u8)) != 10u8) by (bit_vector);
        assert((0x80u8 | ((s & 0x3F) as u8)) != 10u8) by (bit_vector);
    } else {
        assert((0xF0u8 | (((s >> 18) & 0x7) as u8)) != 10u8) by (bit_vector);
        assert((0x80u8 | (((s >> 12) & 0x3F) as u8)) != 10u8) by (bit_vector);
        assert((0x80u8 | (((s >> 6) & 0x3F) as u8)) != 10u8) by (bit_vector);
        assert((0x80u8 | ((s & 0x3F) as u8)) != 10u8) by (bit_vector);
    }
}

proof fn lemma_encode_utf8_no_delimiter(chars: Seq<char>)
    requires
        line_clean(chars),
    ensures
        forall|i: int|
            0 <= i < encode_utf8(chars).len() ==> (#[trigger] encode_utf8(chars)[i]) != DELIMITER,
    decreases chars.len(),
{
    if chars.len() > 0 {
        let c0 = chars[0];
        let first = vstd::utf8::encode_scalar(c0 as u32);
        let rest = encode_utf8(chars.drop_first());
        vstd::utf8::char_is_scalar(c0);
        assert(c0 as u32 != 10) by {
            if c0 as u32 == 10 {
                vstd::utf8::char_u32_cast(c0, 10);
                assert(('\n' as u32) == 10);
                vstd::utf8::char_u32_cast('\n', 10);
            }
        }
        lemma_encode_scalar_no_delimiter(c0 as u32);
        assert(line_clean(chars.drop_first())) by {
            assert(forall|i: int|
                0 <= i < chars.drop_first().len() ==> (#[trigger] chars.drop_first()[i]) == chars[i
                    + 1]);
        }
        lemma_encode_utf8_no_delimiter(chars.drop_first());
        assert(encode_utf8(chars) == first + rest);
        assert forall|i: int| 0 <= i < encode_utf8(chars).len() implies (#[trigger] encode_utf8(
            chars,
        )[i]) != DELIMITER by {
            if i < first.len() {
                assert(encode_utf8(chars)[i] == first[i]);
            } else {
                assert(encode_utf8(chars)[i] == rest[i - first.len()]);
            }
        }
    }
}

/// UTF-8 encoding distributes over concatenation.
proof fn lemma_encode_utf8_append(a: Seq<char>, b: Seq<char>)
    ensures
        encode_utf8(a + b) == encode_utf8(a) + encode_utf8(b),
    decreases a.len(),
{
    if a.len() == 0 {
        assert(a + b =~= b);
        assert(encode_utf8(a) + encode_utf8(b) =~= encode_utf8(b));
    } else {
        assert((a + b).drop_first() =~= a.drop_first() + b);
        lemma_encode_utf8_append(a.drop_first(), b);
        assert((a + b)[0] == a[0]);
        assert(encode_utf8(a + b) =~= encode_utf8(a) + encode_utf8(b));
    }
}

proof fn lemma_encode_lf()
    ensures
        encode_utf8(seq!['\n']) == seq![DELIMITER],
{
    assert(('\n' as u32) == 10);
    assert(((10u32 & 0x7F) as u8) == 10u8) by (bit_vector);
    assert(seq!['\n'].drop_first() =~= Seq::<char>::empty());
    assert(encode_utf8(Seq::<char>::empty()) =~= Seq::<u8>::empty());
    assert(encode_utf8(seq!['\n']) =~= seq![DELIMITER]);
}

/// Every command frame ends with exactly one delimiter byte: the last byte is
/// the delimiter and no earlier byte is.
pub proof fn lemma_command_frame_delimiter(c: CommandView)
    ensures
        command_frame_bytes(c).len() > 0,
        command_frame_bytes(c).last() == DELIMITER,
        forall|i: int|
            0 <= i < command_frame_bytes(c).len() - 1 ==> (#[trigger] command_frame_bytes(c)[i])
                != DELIMITER,
{
    let json = encode_command_chars(c);
    let body = encode_utf8(json);
    lemma_command_chars_clean(c);
    lemma_encode_utf8_no_delimiter(json);
    assert(command_frame_bytes(c).len() == body.len() + 1);
    assert forall|i: int|
        0 <= i < command_frame_bytes(c).len() - 1 implies (#[trigger] command_frame_bytes(c)[i])
        != DELIMITER by {
        assert(command_frame_bytes(c)[i] == body[i]);
    }
}

/// Every response frame ends with exactly one delimiter byte.
pub proof fn lemma_response_frame_delimiter(r: ResponseView)
    ensures
        response_frame_bytes(r).len() > 0,
        response_frame_bytes(r).last() == DELIMITER,
        forall|i: int|
            0 <= i < response_frame_bytes(r).len() - 1 ==> (#[trigger] response_frame_bytes(r)[i])
                != DELIMITER,
{
    let json = encode_response_chars(r);
    let body = encode_utf8(json);
    lemma_response_chars_clean(r);
    lemma_encode_utf8_no_delimiter(json);
    assert(response_frame_bytes(r).len() == body.len() + 1);
    assert forall|i: int|
        0 <= i < response_frame_bytes(r).len() - 1 implies (#[trigger] response_frame_bytes(r)[i])
        != DELIMITER by {
        assert(response_frame_bytes(r)[i] == body[i]);
    }
}

/// Framing round trip for commands: a frame written whole and read whole
/// reconstructs exactly the command it carried, whatever the payload — empty
/// content and every Unicode character included.
pub proof fn lemma_command_frame_round_trip(c: CommandView)
    ensures
        frame_to_command(command_frame_bytes(c)) == Some(c),
{
    broadcast use vstd::utf8::encode_utf8_valid_utf8;
    broadcast use vstd::utf8::encode_utf8_decode_utf8;

    let json = encode_command_chars(c);
    let line = json + seq!['\n'];
    lemma_encode_utf8_append(json, seq!['\n']);
    lemma_encode_lf();
    assert(command_frame_bytes(c) =~= encode_utf8(line));
    assert(valid_utf8(encode_utf8(line)));
    assert(decode_utf8(encode_utf8(line)) == line);
    assert(line.last() == '\n');
    assert(strip_newline(line) =~= json);
    crate::codec::lemma_round_trip_command(c);
}

/// Framing round trip for responses.
pub proof fn lemma_response_frame_round_trip(r: ResponseView)
    ensures
        frame_to_response(response_frame_bytes(r)) == Some(r),
{
    broadcast use vstd::utf8::encode_utf8_valid_utf8;
    broadcast use vstd::utf8::encode_utf8_decode_utf8;

    let json = encode_response_chars(r);
    let line = json + seq!['\n'];
    lemma_encode_utf8_append(json, seq!['\n']);
    lemma_encode_lf();
    assert(response_frame_bytes(r) =~= encode_utf8(line));
    assert(valid_utf8(encode_utf8(line)));
    assert(decode_utf8(encode_utf8(line)) == line);
    assert(line.last() == '\n');
    assert(strip_newline(line) =~= json);
    crate::codec::lemma_round_trip_response(r);
}

// ---------------------------------------------------------------------------
// The client's send path
// ---------------------------------------------------------------------------

/// Relies on `SystemTime::now` and `duration_since`: milliseconds since the
/// Unix epoch, or zero if the clock reads before the epoch.
#[verifier::external_body]
pub fn now_millis() -> u64 {
    std::time::SystemTime::now().duration_since(std::time::UNIX_EPOCH).map(
        |d| d.as_millis() as u64,
    ).unwrap_or(0)
}

/// Builds the command the client sends for one typed line: the fixed client
/// identity, the line as content, and the given wall-clock timestamp.
pub fn build_send_message(content: &str, timestamp: u64) -> (c: ChatCommand)
    ensures
        c@ == CommandView::SendMessage(
            crate::MessageView { sender: "client"@, content: content@, timestamp },
        ),
{
    ChatCommand::SendMessage(
        Message { sender: String::from_str("client"), content: content.to_owned(), timestamp },
    )
}

} // verus!
