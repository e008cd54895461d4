//! The wire codec for the update protocol.
//!
//! One inbound text frame carries one mutation request, one outbound
//! frame one response event, as a JSON object in a fixed canonical shape:
//!
//! - `{"event":"Create","name":...,"talk_type":...,"desc":...}`
//! - `{"event":"Hide","id":...}` (inbound and outbound)
//! - `{"event":"Show","id":...,"name":...,"talk_type":...,"desc":...}`
//!
//! String values are quoted with the usual JSON escapes; a frame not in
//! this shape is malformed and decodes to nothing. The grammar is stated
//! by spec functions over character sequences; the decoder is proved to
//! compute the spec parse, and the parse of an encoding gives back the
//! encoded value.

use crate::events::{EventRequest, RequestView};
use crate::model::{Talk, TalkType};
use vstd::prelude::*;

verus! {

// ---------------------------------------------------------------------
// Characters and digits
// ---------------------------------------------------------------------
/// The digit character for a value below ten.
pub open spec fn dec_digit(d: int) -> char {
    ((48 + d) as char)
}

/// The lower-case hex digit character for a value below sixteen.
pub open spec fn hex_digit(d: int) -> char {
    if d < 10 {
        dec_digit(d)
    } else {
        ((87 + d) as char)
    }
}

/// Whether `c` is a decimal digit.
pub open spec fn is_digit(c: char) -> bool {
    48 <= c as u32 <= 57
}

/// The decimal digits of `n`, most significant first, no leading zeros.
pub open spec fn spec_dec_nat(n: nat) -> Seq<char>
    decreases n,
{
    if n < 10 {
        seq![dec_digit(n as int)]
    } else {
        spec_dec_nat(n / 10).push(dec_digit((n % 10) as int))
    }
}

/// The decimal rendering of an integer, with a leading minus when
/// negative.
pub open spec fn spec_dec_int(v: int) -> Seq<char> {
    if v < 0 {
        seq!['-'] + spec_dec_nat((-v) as nat)
    } else {
        spec_dec_nat(v as nat)
    }
}

// ---------------------------------------------------------------------
// String escaping
// ---------------------------------------------------------------------
/// How one character appears inside a quoted JSON string: quote and
/// backslash are escaped, the named control characters take their short
/// escapes, other control characters the `\u00..` form, and everything
/// else stands for itself.
pub open spec fn escape_char(c: char) -> Seq<char> {
    if c == '"' {
        seq!['\\', '"']
    } else if c == '\\' {
        seq!['\\', '\\']
    } else if c == '\u{8}' {
        seq!['\\', 'b']
    } else if c == '\t' {
        seq!['\\', 't']
    } else if c == '\n' {
        seq!['\\', 'n']
    } else if c == '\u{c}' {
        seq!['\\', 'f']
    } else if c == '\r' {
        seq!['\\', 'r']
    } else if (c as u32) < 32 {
        seq!['\\', 'u', '0', '0', hex_digit((c as u32 / 16) as int), hex_digit((c as u32 % 16) as int)]
    } else {
        seq![c]
    }
}

/// A whole string value, escaped character by character.
pub open spec fn escape_string(s: Seq<char>) -> Seq<char>
    decreases s.len(),
{
    if s.len() == 0 {
        Seq::empty()
    } else {
        escape_char(s[0]) + escape_string(s.skip(1))
    }
}

/// A quoted JSON string value.
pub open spec fn json_string(s: Seq<char>) -> Seq<char> {
    seq!['"'] + escape_string(s) + seq!['"']
}

/// Escaping distributes over appending one character at the back.
proof fn lemma_escape_string_push(s: Seq<char>, c: char)
    ensures
        escape_string(s.push(c)) == escape_string(s) + escape_char(c),
    decreases s.len(),
{
    if s.len() == 0 {
        let t = s.push(c);
        assert(t[0] == c);
        assert(t.skip(1) =~= Seq::<char>::empty());
        assert(escape_string(t) == escape_char(c) + escape_string(t.skip(1)));
        assert(escape_string(t) =~= escape_string(s) + escape_char(c));
    } else {
        assert(s.push(c).skip(1) =~= s.skip(1).push(c));
        lemma_escape_string_push(s.skip(1), c);
        assert(escape_string(s.push(c)) == escape_char(s[0]) + (escape_string(s.skip(1))
            + escape_char(c)));
        assert(escape_char(s[0]) + (escape_string(s.skip(1)) + escape_char(c)) =~= (escape_char(
            s[0],
        ) + escape_string(s.skip(1))) + escape_char(c));
    }
}

// ---------------------------------------------------------------------
// Canonical encodings
// ---------------------------------------------------------------------
/// The one wire form of a mutation request.
pub open spec fn spec_encode_request(e: RequestView) -> Seq<char> {
    match e {
        RequestView::Create { name, talk_type, desc } => "{\"event\":\"Create\",\"name\":"@
            + json_string(name) + ",\"talk_type\":"@ + json_string(talk_type.spec_name())
            + ",\"desc\":"@ + json_string(desc) + "}"@,
        RequestView::Hide { id } => "{\"event\":\"Hide\",\"id\":"@ + spec_dec_int(id) + "}"@,
    }
}

/// The one wire form of a response event. `NOP` has none: it is never
/// put on the wire, and the encoder refuses it.
pub open spec fn spec_encode_response(e: crate::events::ResponseView) -> Seq<char> {
    match e {
        crate::events::ResponseView::Show { id, name, talk_type, description } => {
            "{\"event\":\"Show\",\"id\":"@ + spec_dec_int(id) + ",\"name\":"@ + json_string(name)
                + ",\"talk_type\":"@ + json_string(talk_type.spec_name()) + ",\"desc\":"@
                + json_string(description) + "}"@
        },
        crate::events::ResponseView::Hide { id } => "{\"event\":\"Hide\",\"id\":"@ + spec_dec_int(
            id,
        ) + "}"@,
        crate::events::ResponseView::NOP => Seq::empty(),
    }
}

/// The wire form of one talk card in the listing endpoint.
pub open spec fn spec_encode_talk(t: Talk) -> Seq<char> {
    "{\"id\":"@ + spec_dec_int(t.id as int) + ",\"name\":"@ + json_string(t.name@)
        + ",\"talk_type\":"@ + json_string(t.talk_type.spec_name()) + ",\"description\":"@
        + json_string(t.description@) + (if t.is_visible {
        ",\"is_visible\":true}"@
    } else {
        ",\"is_visible\":false}"@
    })
}

/// The wire form of a listing: the cards' objects, comma separated,
/// in brackets.
pub open spec fn spec_encode_talk_list(s: Seq<Talk>) -> Seq<char>
    decreases s.len(),
{
    if s.len() == 0 {
        "[]"@
    } else if s.len() == 1 {
        "["@ + spec_encode_talk(s[0]) + "]"@
    } else {
        spec_encode_talk_list(s.drop_last()).drop_last() + ","@ + spec_encode_talk(s.last())
            + "]"@
    }
}

// ---------------------------------------------------------------------
// Trusted bridge between `String` and character vectors
// ---------------------------------------------------------------------
/// Relies on str::chars collected into a vector: the characters of a
/// string slice, in order, which are exactly its view.
#[verifier::external_body]
pub fn string_to_chars(s: &str) -> (r: Vec<char>)
    ensures
        r@ == s@,
{
    s.chars().collect()
}

/// Relies on String's FromIterator over characters: builds the string
/// holding exactly the given characters, in order.
#[verifier::external_body]
pub fn chars_to_string(v: &Vec<char>) -> (r: String)
    ensures
        r@ == v@,
{
    v.iter().collect()
}

// ---------------------------------------------------------------------
// Encoder
// ---------------------------------------------------------------------
/// Appends every character of `lit`.
fn push_seq(out: &mut Vec<char>, lit: &Vec<char>)
    ensures
        final(out)@ == old(out)@ + lit@,
{
    let n = lit.len();
    let mut i: usize = 0;
    while i < n
        invariant
            n == lit@.len(),
            i <= n,
            out@ == old(out)@ + lit@.take(i as int),
        decreases n - i,
    {
        out.push(lit[i]);
        proof {
            assert(out@ =~= old(out)@ + lit@.take(i + 1 as int));
        }
        i = i + 1;
    }
    proof {
        assert(lit@.take(n as int) =~= lit@);
    }
}

/// Whether two string slices hold the same text.
pub fn str_eq(a: &str, b: &str) -> (r: bool)
    ensures
        r == (a@ == b@),
{
    let av = string_to_chars(a);
    chars_eq_str(&av, b)
}

/// Appends the characters of a string literal.
pub(crate) fn push_str(out: &mut Vec<char>, lit: &str)
    ensures
        final(out)@ == old(out)@ + lit@,
{
    let v = string_to_chars(lit);
    push_seq(out, &v);
}

/// Appends the decimal digits of `n`.
pub(crate) fn push_dec_u64(out: &mut Vec<char>, n: u64)
    ensures
        final(out)@ == old(out)@ + spec_dec_nat(n as nat),
    decreases n,
{
    if n < 10 {
        let d: u8 = 48 + (n as u8);
        out.push(d as char);
    } else {
        push_dec_u64(out, n / 10);
        let d: u8 = 48 + ((n % 10) as u8);
        out.push(d as char);
        proof {
            assert(out@ =~= old(out)@ + spec_dec_nat((n / 10) as nat).push(
                dec_digit((n % 10) as int),
            ));
        }
    }
}

/// Appends the decimal rendering of `v`.
fn push_dec_i32(out: &mut Vec<char>, v: i32)
    ensures
        final(out)@ == old(out)@ + spec_dec_int(v as int),
{
    if v < 0 {
        out.push('-');
        let m: u64 = (-(v as i64)) as u64;
        proof {
            assert(m as nat == (-(v as int)) as nat);
        }
        push_dec_u64(out, m);
        proof {
            assert(out@ =~= old(out)@ + (seq!['-'] + spec_dec_nat((-(v as int)) as nat)));
        }
    } else {
        push_dec_u64(out, v as u64);
    }
}

/// Appends one character in its escaped form.
fn push_escaped_char(out: &mut Vec<char>, c: char)
    ensures
        final(out)@ == old(out)@ + escape_char(c),
{
    if c == '"' {
        out.push('\\');
        out.push('"');
        proof {
            assert(out@ =~= old(out)@ + escape_char(c));
        }
    } else if c == '\\' {
        out.push('\\');
        out.push('\\');
        proof {
            assert(out@ =~= old(out)@ + escape_char(c));
        }
    } else if c == '\u{8}' {
        out.push('\\');
        out.push('b');
        proof {
            assert(out@ =~= old(out)@ + escape_char(c));
        }
    } else if c == '\t' {
        out.push('\\');
        out.push('t');
        proof {
            assert(out@ =~= old(out)@ + escape_char(c));
        }
    } else if c == '\n' {
        out.push('\\');
        out.push('n');
        proof {
            assert(out@ =~= old(out)@ + escape_char(c));
        }
    } else if c == '\u{c}' {
        out.push('\\');
        out.push('f');
        proof {
            assert(out@ =~= old(out)@ + escape_char(c));
        }
    } else if c == '\r' {
        out.push('\\');
        out.push('r');
        proof {
            assert(out@ =~= old(out)@ + escape_char(c));
        }
    } else if (c as u32) < 32 {
        let u: u32 = c as u32;
        let hi: u32 = u / 16;
        let lo: u32 = u % 16;
        out.push('\\');
        out.push('u');
        out.push('0');
        out.push('0');
        out.push(hex_char(hi));
        out.push(hex_char(lo));
        proof {
            assert(out@ =~= old(out)@ + escape_char(c));
        }
    } else {
        out.push(c);
        proof {
            assert(out@ =~= old(out)@ + escape_char(c));
        }
    }
}

/// The lower-case hex digit character for a value below sixteen.
fn hex_char(d: u32) -> (r: char)
    requires
        d < 16,
    ensures
        r == hex_digit(d as int),
{
    if d < 10 {
        let b: u8 = 48 + (d as u8);
        b as char
    } else {
        let b: u8 = 87 + (d as u8);
        b as char
    }
}

/// Appends a quoted, escaped JSON string holding the characters of `s`.
fn push_json_string(out: &mut Vec<char>, s: &str)
    ensures
        final(out)@ == old(out)@ + json_string(s@),
{
    let v = string_to_chars(s);
    let n = v.len();
    out.push('"');
    let mut i: usize = 0;
    while i < n
        invariant
            n == v@.len(),
            v@ == s@,
            i <= n,
            out@ == old(out)@ + seq!['"'] + escape_string(v@.take(i as int)),
        decreases n - i,
    {
        proof {
            assert(v@.take(i + 1 as int) =~= v@.take(i as int).push(v@[i as int]));
            lemma_escape_string_push(v@.take(i as int), v@[i as int]);
        }
        push_escaped_char(out, v[i]);
        proof {
            assert(out@ =~= old(out)@ + seq!['"'] + escape_string(v@.take(i + 1 as int)));
        }
        i = i + 1;
    }
    out.push('"');
    proof {
        assert(v@.take(n as int) =~= v@);
        assert(out@ =~= old(out)@ + json_string(s@));
    }
}

/// Encodes a mutation request in its canonical wire form.
pub fn encode_request(e: &EventRequest) -> (r: String)
    ensures
        r@ == spec_encode_request(e@),
{
    let mut out: Vec<char> = Vec::new();
    match e {
        EventRequest::Create { name, talk_type, desc } => {
            push_str(&mut out, "{\"event\":\"Create\",\"name\":");
            push_json_string(&mut out, name.as_str());
            push_str(&mut out, ",\"talk_type\":");
            push_json_string(&mut out, talk_type.name());
            push_str(&mut out, ",\"desc\":");
            push_json_string(&mut out, desc.as_str());
            push_str(&mut out, "}");
            proof {
                assert(out@ =~= spec_encode_request(e@));
            }
        },
        EventRequest::Hide { id } => {
            push_str(&mut out, "{\"event\":\"Hide\",\"id\":");
            push_dec_i32(&mut out, *id);
            push_str(&mut out, "}");
            proof {
                assert(out@ =~= spec_encode_request(e@));
            }
        },
    }
    chars_to_string(&out)
}

/// Encodes a response event in its canonical wire form; `NOP` has none
/// and is refused.
pub fn encode_response(e: &crate::events::EventResponse) -> (r: Option<String>)
    ensures
        r is Some <==> !(e@ is NOP),
        r matches Some(s) ==> s@ == spec_encode_response(e@),
{
    let mut out: Vec<char> = Vec::new();
    match e {
        crate::events::EventResponse::Show { id, name, talk_type, description } => {
            push_str(&mut out, "{\"event\":\"Show\",\"id\":");
            push_dec_i32(&mut out, *id);
            push_str(&mut out, ",\"name\":");
            push_json_string(&mut out, name.as_str());
            push_str(&mut out, ",\"talk_type\":");
            push_json_string(&mut out, talk_type.name());
            push_str(&mut out, ",\"desc\":");
            push_json_string(&mut out, description.as_str());
            push_str(&mut out, "}");
            proof {
                assert(out@ =~= spec_encode_response(e@));
            }
            Some(chars_to_string(&out))
        },
        crate::events::EventResponse::Hide { id } => {
            push_str(&mut out, "{\"event\":\"Hide\",\"id\":");
            push_dec_i32(&mut out, *id);
            push_str(&mut out, "}");
            proof {
                assert(out@ =~= spec_encode_response(e@));
            }
            Some(chars_to_string(&out))
        },
        crate::events::EventResponse::NOP => None,
    }
}

/// Encodes one talk card for the listing endpoint.
fn push_talk(out: &mut Vec<char>, t: &Talk)
    ensures
        final(out)@ == old(out)@ + spec_encode_talk(*t),
{
    push_str(out, "{\"id\":");
    push_dec_i32(out, t.id);
    push_str(out, ",\"name\":");
    push_json_string(out, t.name.as_str());
    push_str(out, ",\"talk_type\":");
    push_json_string(out, t.talk_type.name());
    push_str(out, ",\"description\":");
    push_json_string(out, t.description.as_str());
    if t.is_visible {
        push_str(out, ",\"is_visible\":true}");
    } else {
        push_str(out, ",\"is_visible\":false}");
    }
    proof {
        assert(out@ =~= old(out)@ + spec_encode_talk(*t));
    }
}

/// Encodes a listing of talk cards as a JSON array.
pub fn encode_talk_list(talks: &Vec<Talk>) -> (r: String)
    ensures
        r@ == spec_encode_talk_list(talks@),
{
    let n = talks.len();
    let mut out: Vec<char> = Vec::new();
    out.push('[');
    let mut i: usize = 0;
    while i < n
        invariant
            n == talks@.len(),
            i <= n,
            i == 0 ==> out@ == seq!['['],
            i > 0 ==> out@ == spec_encode_talk_list(talks@.take(i as int)).drop_last(),
        decreases n - i,
    {
        if i > 0 {
            out.push(',');
        }
        push_talk(&mut out, &talks[i]);
        proof {
            reveal_strlit("[");
            reveal_strlit("]");
            reveal_strlit(",");
            assert(talks@.take(i + 1 as int).drop_last() =~= talks@.take(i as int));
            assert(talks@.take(i + 1 as int).last() == talks@[i as int]);
            if i == 0 {
                assert(talks@.take(1)[0] == talks@[0]);
                assert(spec_encode_talk_list(talks@.take(1)) == "["@ + spec_encode_talk(
                    talks@[0],
                ) + "]"@);
                assert(out@ =~= spec_encode_talk_list(talks@.take(1)).drop_last());
            } else {
                assert(out@ =~= spec_encode_talk_list(talks@.take(i + 1 as int)).drop_last());
            }
        }
        i = i + 1;
    }
    if n == 0 {
        out.push(']');
        proof {
            reveal_strlit("[]");
            assert(out@ =~= spec_encode_talk_list(talks@));
        }
    } else {
        out.push(']');
        proof {
            reveal_strlit("[");
            reveal_strlit("]");
            assert(talks@.take(n as int) =~= talks@);
            assert(spec_encode_talk_list(talks@).len() > 0);
            assert(spec_encode_talk_list(talks@).last() == ']') by {
                lemma_talk_list_last(talks@);
            }
            assert(out@ =~= spec_encode_talk_list(talks@));
        }
    }
    chars_to_string(&out)
}

// ---------------------------------------------------------------------
// The inbound grammar, as spec functions
// ---------------------------------------------------------------------
/// Consumes an expected literal prefix, giving the rest.
pub open spec fn parse_lit(s: Seq<char>, lit: Seq<char>) -> Option<Seq<char>> {
    if lit.is_prefix_of(s) {
        Some(s.skip(lit.len() as int))
    } else {
        None
    }
}

/// The character a short escape stands for.
pub open spec fn unescape_short(c: char) -> Option<char> {
    if c == '"' {
        Some('"')
    } else if c == '\\' {
        Some('\\')
    } else if c == '/' {
        Some('/')
    } else if c == 'b' {
        Some('\u{8}')
    } else if c == 'f' {
        Some('\u{c}')
    } else if c == 'n' {
        Some('\n')
    } else if c == 'r' {
        Some('\r')
    } else if c == 't' {
        Some('\t')
    } else {
        None
    }
}

/// The value of a hex digit character, either case.
pub open spec fn hex_val(c: char) -> Option<int> {
    if 48 <= c as u32 <= 57 {
        Some(c as u32 - 48)
    } else if 97 <= c as u32 <= 102 {
        Some(c as u32 - 87)
    } else if 65 <= c as u32 <= 70 {
        Some(c as u32 - 55)
    } else {
        None
    }
}

/// The content of a quoted string, read from just after the opening
/// quote to the closing quote: raw characters stand for themselves,
/// short escapes for their character, and `\u00..` for the control
/// characters the encoder writes that way. Gives the content and the
/// rest after the closing quote.
pub open spec fn parse_string_body(s: Seq<char>) -> Option<(Seq<char>, Seq<char>)>
    decreases s.len(),
{
    if s.len() == 0 {
        None
    } else if s[0] == '"' {
        Some((Seq::empty(), s.skip(1)))
    } else if s[0] == '\\' {
        if s.len() < 2 {
            None
        } else if s[1] == 'u' {
            if s.len() < 6 {
                None
            } else if s[2] == '0' && s[3] == '0' && hex_val(s[4]) is Some && hex_val(s[5]) is Some
                && hex_val(s[4])->0 * 16 + hex_val(s[5])->0 < 32 {
                let v = hex_val(s[4])->0 * 16 + hex_val(s[5])->0;
                match parse_string_body(s.skip(6)) {
                    Some(p) => Some((seq![(v as char)] + p.0, p.1)),
                    None => None,
                }
            } else {
                None
            }
        } else {
            match unescape_short(s[1]) {
                Some(c) => match parse_string_body(s.skip(2)) {
                    Some(p) => Some((seq![c] + p.0, p.1)),
                    None => None,
                },
                None => None,
            }
        }
    } else {
        match parse_string_body(s.skip(1)) {
            Some(p) => Some((seq![s[0]] + p.0, p.1)),
            None => None,
        }
    }
}

/// A quoted string value: an opening quote, then its body.
pub open spec fn parse_json_string(s: Seq<char>) -> Option<(Seq<char>, Seq<char>)> {
    if s.len() > 0 && s[0] == '"' {
        parse_string_body(s.skip(1))
    } else {
        None
    }
}

/// How many decimal digits stand at the front of `s`.
pub open spec fn digit_count(s: Seq<char>) -> int
    decreases s.len(),
{
    if s.len() == 0 {
        0
    } else if !is_digit(s[0]) {
        0
    } else {
        1 + digit_count(s.skip(1))
    }
}

/// The value of a digit sequence, most significant first.
pub open spec fn digits_val(s: Seq<char>) -> int
    decreases s.len(),
{
    if s.len() == 0 {
        0
    } else {
        digits_val(s.drop_last()) * 10 + (s.last() as u32 - 48)
    }
}

/// An integer: an optional minus, then every digit that follows, read
/// greedily. Gives the value and the rest.
pub open spec fn parse_int(s: Seq<char>) -> Option<(int, Seq<char>)> {
    if s.len() > 0 && s[0] == '-' {
        let t = s.skip(1);
        let k = digit_count(t);
        if k == 0 {
            None
        } else {
            Some((-digits_val(t.take(k)), t.skip(k)))
        }
    } else {
        let k = digit_count(s);
        if k == 0 {
            None
        } else {
            Some((digits_val(s.take(k)), s.skip(k)))
        }
    }
}

/// The category carrying a wire name, if any does.
pub open spec fn spec_talk_type_of_name(s: Seq<char>) -> Option<TalkType> {
    if s == "forum topic"@ {
        Some(TalkType::ForumTopic)
    } else if s == "lightning talk"@ {
        Some(TalkType::LightningTalk)
    } else if s == "project update"@ {
        Some(TalkType::ProjectUpdate)
    } else if s == "announcement"@ {
        Some(TalkType::Announcement)
    } else if s == "after meeting slot"@ {
        Some(TalkType::AfterMeetingSlot)
    } else {
        None
    }
}

/// The decode of one inbound frame: a request in its wire form, or
/// nothing - a malformed frame decodes to nothing and is dropped.
pub open spec fn spec_decode_request(s: Seq<char>) -> Option<RequestView> {
    match parse_lit(s, "{\"event\":\""@) {
        Some(r0) => match parse_lit(r0, "Hide\",\"id\":"@) {
            Some(r1) => match parse_int(r1) {
                Some(p) => if i32::MIN <= p.0 <= i32::MAX && p.1 == "}"@ {
                    Some(RequestView::Hide { id: p.0 })
                } else {
                    None
                },
                None => None,
            },
            None => match parse_lit(r0, "Create\",\"name\":"@) {
                Some(r1) => match parse_json_string(r1) {
                    Some(pn) => match parse_lit(pn.1, ",\"talk_type\":"@) {
                        Some(r2) => match parse_json_string(r2) {
                            Some(pt) => match spec_talk_type_of_name(pt.0) {
                                Some(tt) => match parse_lit(pt.1, ",\"desc\":"@) {
                                    Some(r3) => match parse_json_string(r3) {
                                        Some(pd) => if pd.1 == "}"@ {
                                            Some(
                                                RequestView::Create {
                                                    name: pn.0,
                                                    talk_type: tt,
                                                    desc: pd.0,
                                                },
                                            )
                                        } else {
                                            None
                                        },
                                        None => None,
                                    },
                                    None => None,
                                },
                                None => None,
                            },
                            None => None,
                        },
                        None => None,
                    },
                    None => None,
                },
                None => None,
            },
        },
        None => None,
    }
}

// ---------------------------------------------------------------------
// Decoder
// ---------------------------------------------------------------------
/// Skipping twice is skipping the sum.
proof fn lemma_skip_skip(v: Seq<char>, a: int, b: int)
    requires
        0 <= a,
        0 <= b,
        a + b <= v.len(),
    ensures
        v.skip(a).skip(b) =~= v.skip(a + b),
{
}

/// Matches an expected literal at `pos`, giving the position after it.
fn match_lit(v: &Vec<char>, pos: usize, lit: &Vec<char>) -> (r: Option<usize>)
    requires
        pos <= v@.len(),
    ensures
        match r {
            Some(p) => p == pos + lit@.len() && p <= v@.len() && parse_lit(
                v@.skip(pos as int),
                lit@,
            ) == Some(v@.skip(p as int)),
            None => parse_lit(v@.skip(pos as int), lit@) is None,
        },
{
    let ghost s = v@.skip(pos as int);
    let n = lit.len();
    let vlen = v.len();
    if vlen - pos < n {
        proof {
            assert(!lit@.is_prefix_of(s));
        }
        return None;
    }
    let mut j: usize = 0;
    while j < n
        invariant
            vlen == v@.len(),
            pos + n <= vlen,
            n == lit@.len(),
            j <= n,
            s == v@.skip(pos as int),
            forall|m: int| 0 <= m < j ==> v@[pos + m] == lit@[m],
        decreases n - j,
    {
        if v[pos + j] != lit[j] {
            proof {
                assert(s[j as int] == v@[pos + j]);
                if lit@.is_prefix_of(s) {
                    assert(lit@ =~= s.subrange(0, n as int));
                    assert(lit@[j as int] == s[j as int]);
                }
            }
            return None;
        }
        j = j + 1;
    }
    proof {
        assert(lit@.is_prefix_of(s)) by {
            assert(lit@ =~= s.subrange(0, n as int));
        }
        lemma_skip_skip(v@, pos as int, n as int);
        assert(s.skip(n as int) =~= v@.skip(pos + n));
    }
    Some(pos + n)
}

/// Whether two character sequences are the same text.
fn chars_eq_str(v: &Vec<char>, lit: &str) -> (r: bool)
    ensures
        r == (v@ == lit@),
{
    let w = string_to_chars(lit);
    let n = v.len();
    if n != w.len() {
        return false;
    }
    let mut j: usize = 0;
    while j < n
        invariant
            n == v@.len() == w@.len(),
            w@ == lit@,
            j <= n,
            forall|m: int| 0 <= m < j ==> v@[m] == w@[m],
        decreases n - j,
    {
        if v[j] != w[j] {
            return false;
        }
        j = j + 1;
    }
    proof {
        assert(v@ =~= lit@);
    }
    true
}

/// The category carrying a wire name, if any does.
fn talk_type_from_name(v: &Vec<char>) -> (r: Option<TalkType>)
    ensures
        r == spec_talk_type_of_name(v@),
{
    if chars_eq_str(v, "forum topic") {
        Some(TalkType::ForumTopic)
    } else if chars_eq_str(v, "lightning talk") {
        Some(TalkType::LightningTalk)
    } else if chars_eq_str(v, "project update") {
        Some(TalkType::ProjectUpdate)
    } else if chars_eq_str(v, "announcement") {
        Some(TalkType::Announcement)
    } else if chars_eq_str(v, "after meeting slot") {
        Some(TalkType::AfterMeetingSlot)
    } else {
        None
    }
}

/// The value of a hex digit character.
fn hex_val_exec(c: char) -> (r: Option<u32>)
    ensures
        match r {
            Some(x) => hex_val(c) == Some(x as int) && x < 16,
            None => hex_val(c) is None,
        },
{
    let u: u32 = c as u32;
    if 48 <= u && u <= 57 {
        Some(u - 48)
    } else if 97 <= u && u <= 102 {
        Some(u - 87)
    } else if 65 <= u && u <= 70 {
        Some(u - 55)
    } else {
        None
    }
}

/// Reads a quoted string body starting just after the opening quote,
/// giving the content and the position after the closing quote.
fn parse_string_body_at(v: &Vec<char>, pos: usize) -> (r: Option<(Vec<char>, usize)>)
    requires
        pos <= v@.len(),
    ensures
        match r {
            Some(p) => p.1 <= v@.len() && (match parse_string_body(v@.skip(pos as int)) {
                Some(q) => q.0 == p.0@ && q.1 == v@.skip(p.1 as int),
                None => false,
            }),
            None => parse_string_body(v@.skip(pos as int)) is None,
        },
{
    let n = v.len();
    let mut cur = pos;
    let mut out: Vec<char> = Vec::new();
    loop
        invariant
            pos <= cur <= n,
            n == v@.len(),
            match parse_string_body(v@.skip(cur as int)) {
                Some(q) => match parse_string_body(v@.skip(pos as int)) {
                    Some(q0) => q0.0 == out@ + q.0 && q0.1 == q.1,
                    None => false,
                },
                None => parse_string_body(v@.skip(pos as int)) is None,
            },
        decreases n - cur,
    {
        let ghost s = v@.skip(cur as int);
        if cur == n {
            return None;
        }
        proof {
            assert(s.len() > 0);
            assert(s[0] == v@[cur as int]);
        }
        let c = v[cur];
        if c == '"' {
            proof {
                lemma_skip_skip(v@, cur as int, 1);
                assert(parse_string_body(s) == Some((Seq::<char>::empty(), v@.skip(cur + 1))));
                assert(out@ + Seq::<char>::empty() =~= out@);
            }
            return Some((out, cur + 1));
        } else if c == '\\' {
            if n - cur < 2 {
                proof {
                    assert(s.len() < 2);
                }
                return None;
            }
            proof {
                assert(s[1] == v@[cur + 1]);
            }
            let e = v[cur + 1];
            if e == 'u' {
                if n - cur < 6 {
                    proof {
                        assert(s.len() < 6);
                    }
                    return None;
                }
                proof {
                    assert(s[2] == v@[cur + 2] && s[3] == v@[cur + 3] && s[4] == v@[cur + 4]
                        && s[5] == v@[cur + 5]);
                }
                if v[cur + 2] != '0' || v[cur + 3] != '0' {
                    return None;
                }
                let hi_opt = hex_val_exec(v[cur + 4]);
                let lo_opt = hex_val_exec(v[cur + 5]);
                match (hi_opt, lo_opt) {
                    (Some(hi), Some(lo)) => {
                        let val: u32 = hi * 16 + lo;
                        if val < 32 {
                            let ghost prev = out@;
                            out.push((val as u8) as char);
                            proof {
                                lemma_skip_skip(v@, cur as int, 6);
                                assert(((val as u8) as char) == ((hex_val(s[4])->0 * 16 + hex_val(
                                    s[5],
                                )->0) as char));
                                match parse_string_body(v@.skip(cur + 6)) {
                                    Some(q) => {
                                        assert(parse_string_body(s) == Some(
                                            (seq![((val as u8) as char)] + q.0, q.1),
                                        ));
                                        assert(prev + (seq![((val as u8) as char)] + q.0) =~= out@
                                            + q.0);
                                    },
                                    None => {
                                        assert(parse_string_body(s) is None);
                                    },
                                }
                            }
                            cur = cur + 6;
                        } else {
                            return None;
                        }
                    },
                    _ => {
                        return None;
                    },
                }
            } else {
                let u = match unescape_short_exec(e) {
                    Some(u) => u,
                    None => {
                        return None;
                    },
                };
                let ghost prev = out@;
                out.push(u);
                proof {
                    lemma_skip_skip(v@, cur as int, 2);
                    match parse_string_body(v@.skip(cur + 2)) {
                        Some(q) => {
                            assert(parse_string_body(s) == Some((seq![u] + q.0, q.1)));
                            assert(prev + (seq![u] + q.0) =~= out@ + q.0);
                        },
                        None => {
                            assert(parse_string_body(s) is None);
                        },
                    }
                }
                cur = cur + 2;
            }
        } else {
            let ghost prev = out@;
            out.push(c);
            proof {
                lemma_skip_skip(v@, cur as int, 1);
                match parse_string_body(v@.skip(cur + 1)) {
                    Some(q) => {
                        assert(parse_string_body(s) == Some((seq![c] + q.0, q.1)));
                        assert(prev + (seq![c] + q.0) =~= out@ + q.0);
                    },
                    None => {
                        assert(parse_string_body(s) is None);
                    },
                }
            }
            cur = cur + 1;
        }
    }
}

/// The character a short escape stands for.
fn unescape_short_exec(c: char) -> (r: Option<char>)
    ensures
        r == unescape_short(c),
{
    if c == '"' {
        Some('"')
    } else if c == '\\' {
        Some('\\')
    } else if c == '/' {
        Some('/')
    } else if c == 'b' {
        Some('\u{8}')
    } else if c == 'f' {
        Some('\u{c}')
    } else if c == 'n' {
        Some('\n')
    } else if c == 'r' {
        Some('\r')
    } else if c == 't' {
        Some('\t')
    } else {
        None
    }
}

/// Digit values grow along a digit sequence.
proof fn lemma_digits_val_nonneg(s: Seq<char>)
    requires
        forall|m: int| 0 <= m < s.len() ==> is_digit(#[trigger] s[m]),
    ensures
        digits_val(s) >= 0,
    decreases s.len(),
{
    if s.len() > 0 {
        lemma_digits_val_nonneg(s.drop_last());
    }
}

/// The value of a longer all-digit prefix is at least the value of a
/// shorter one.
proof fn lemma_digits_val_mono(s: Seq<char>, j: int, k: int)
    requires
        0 <= j <= k <= s.len(),
        forall|m: int| 0 <= m < k ==> is_digit(#[trigger] s[m]),
    ensures
        0 <= digits_val(s.take(j)) <= digits_val(s.take(k)),
    decreases k - j,
{
    assert(forall|m: int| 0 <= m < j ==> is_digit(#[trigger] s.take(j)[m]));
    lemma_digits_val_nonneg(s.take(j));
    if j < k {
        lemma_digits_val_mono(s, j, k - 1);
        assert(s.take(k).drop_last() =~= s.take(k - 1));
        assert(digits_val(s.take(k)) == digits_val(s.take(k - 1)) * 10 + (s.take(k).last() as u32
            - 48));
        assert(is_digit(s[k - 1]));
        assert(s.take(k).last() == s[k - 1]);
        lemma_digits_val_nonneg(s.take(k - 1));
    }
}

/// Reads an integer at `pos`: an optional minus and the digits after
/// it, greedily. Gives nothing when no digit follows or the value falls
/// outside the talk-id range.
fn parse_int_at(v: &Vec<char>, pos: usize) -> (r: Option<(i32, usize)>)
    requires
        pos <= v@.len(),
    ensures
        match r {
            Some(p) => p.1 <= v@.len() && (match parse_int(v@.skip(pos as int)) {
                Some(q) => q.0 == p.0 as int && q.1 == v@.skip(p.1 as int),
                None => false,
            }),
            None => match parse_int(v@.skip(pos as int)) {
                Some(q) => !(i32::MIN <= q.0 <= i32::MAX),
                None => true,
            },
        },
{
    let n = v.len();
    let mut i = pos;
    let mut neg = false;
    if i < n && v[i] == '-' {
        neg = true;
        i = i + 1;
    }
    let start = i;
    let ghost t = v@.skip(start as int);
    let mut acc: u64 = 0;
    while i < n && is_digit_char(v[i])
        invariant
            pos <= start <= i <= n,
            n == v@.len(),
            t == v@.skip(start as int),
            neg ==> pos < n && v@[pos as int] == '-' && start == pos + 1,
            !neg ==> start == pos && (pos == n || v@[pos as int] != '-'),
            forall|m: int| 0 <= m < i - start ==> is_digit(#[trigger] t[m]),
            digit_count(t) == (i - start) + digit_count(v@.skip(i as int)),
            acc == digits_val(t.take(i - start)),
            acc <= 0x8000_0000,
        decreases n - i,
    {
        proof {
            assert(t[i - start] == v@[i as int]);
            assert(v@.skip(i as int)[0] == v@[i as int]);
            lemma_skip_skip(v@, i as int, 1);
            assert(digit_count(v@.skip(i as int)) == 1 + digit_count(v@.skip(i + 1)));
        }
        proof {
            assert(is_digit(v@[i as int]));
            assert(48 <= v@[i as int] as u32 <= 57);
        }
        let d: u32 = (v[i] as u32) - 48;
        let next: u64 = acc * 10 + (d as u64);
        proof {
            assert(t.take(i + 1 - start).drop_last() =~= t.take(i - start));
            assert(t.take(i + 1 - start).last() == t[i - start]);
            assert(digits_val(t.take(i + 1 - start)) == digits_val(t.take(i - start)) * 10 + d);
        }
        if next > 0x8000_0000 {
            proof {
                lemma_digit_count_digits(t);
                lemma_digit_count_digits(v@.skip(i + 1));
                let k = digit_count(t);
                assert(k >= i + 1 - start);
                lemma_digits_val_mono(t, i + 1 - start, k);
                assert(digits_val(t.take(k)) >= next);
                if neg {
                    assert(v@.skip(pos as int)[0] == v@[pos as int]);
                    lemma_skip_skip(v@, pos as int, 1);
                    assert(v@.skip(pos as int).skip(1) =~= t);
                } else {
                    if pos < n {
                        assert(v@.skip(pos as int)[0] == v@[pos as int]);
                    }
                    assert(v@.skip(pos as int) == t);
                }
                match parse_int(v@.skip(pos as int)) {
                    Some(q) => {
                        if neg {
                            assert(q.0 == -digits_val(t.take(k)));
                        } else {
                            assert(q.0 == digits_val(t.take(k)));
                        }
                    },
                    None => {},
                }
            }
            return None;
        }
        acc = next;
        i = i + 1;
    }
    let scanned = i - start;
    proof {
        if i < n {
            assert(v@.skip(i as int)[0] == v@[i as int]);
            assert(!is_digit(v@.skip(i as int)[0]));
        }
        assert(digit_count(v@.skip(i as int)) == 0);
        assert(digit_count(t) == scanned);
        if neg {
            assert(v@.skip(pos as int)[0] == v@[pos as int]);
            lemma_skip_skip(v@, pos as int, 1);
            assert(v@.skip(pos as int).skip(1) =~= t);
        } else {
            if pos < n {
                assert(v@.skip(pos as int)[0] == v@[pos as int]);
            }
        }
        lemma_skip_skip(v@, start as int, scanned as int);
        assert(t.skip(scanned as int) =~= v@.skip(i as int));
    }
    if scanned == 0 {
        return None;
    }
    if neg {
        if acc == 0x8000_0000 {
            return Some((i32::MIN, i));
        }
        if acc <= 0x7FFF_FFFF {
            let m: i32 = -(acc as i32);
            return Some((m, i));
        }
        proof {
            assert(false);
        }
        return None;
    }
    if acc <= 0x7FFF_FFFF {
        return Some((acc as i32, i));
    }
    None
}

/// Whether `c` is a decimal digit.
fn is_digit_char(c: char) -> (r: bool)
    ensures
        r == is_digit(c),
{
    let u: u32 = c as u32;
    48 <= u && u <= 57
}

/// Every position counted by `digit_count` holds a digit.
proof fn lemma_digit_count_digits(s: Seq<char>)
    ensures
        0 <= digit_count(s) <= s.len(),
        forall|m: int| 0 <= m < digit_count(s) ==> is_digit(#[trigger] s[m]),
    decreases s.len(),
{
    if s.len() > 0 && is_digit(s[0]) {
        lemma_digit_count_digits(s.skip(1));
        assert(forall|m: int| 1 <= m < digit_count(s) ==> is_digit(#[trigger] s.skip(1)[m - 1]));
        assert(forall|m: int| 1 <= m < digit_count(s) ==> s[m] == s.skip(1)[m - 1]);
    }
}

/// Whether the rest of the frame is exactly the closing brace.
fn at_end_brace(v: &Vec<char>, pos: usize) -> (r: bool)
    requires
        pos <= v@.len(),
    ensures
        r == (v@.skip(pos as int) == "}"@),
{
    proof {
        reveal_strlit("}");
    }
    if pos < v.len() && pos + 1 == v.len() {
        let c = v[pos];
        proof {
            assert(v@.skip(pos as int)[0] == v@[pos as int]);
        }
        if c == '}' {
            proof {
                assert(v@.skip(pos as int) =~= "}"@);
            }
            return true;
        }
        proof {
            if v@.skip(pos as int) == "}"@ {
                assert(v@.skip(pos as int)[0] == '}');
            }
        }
        return false;
    }
    proof {
        assert("}"@.len() == 1);
        if v@.skip(pos as int) == "}"@ {
            assert(v@.skip(pos as int).len() == 1);
        }
    }
    false
}

/// Decodes one inbound text frame; a malformed frame decodes to
/// nothing, and the connection handler drops it silently.
#[verifier::rlimit(60)]
pub fn decode_request(text: &str) -> (r: Option<EventRequest>)
    ensures
        match r {
            Some(e) => spec_decode_request(text@) == Some(e@),
            None => spec_decode_request(text@) is None,
        },
{
    let v = string_to_chars(text);
    proof {
        assert(v@.skip(0) =~= text@);
    }
    let lit0 = string_to_chars("{\"event\":\"");
    let p0 = match match_lit(&v, 0, &lit0) {
        Some(p) => p,
        None => {
            return None;
        },
    };
    let lit_hide = string_to_chars("Hide\",\"id\":");
    match match_lit(&v, p0, &lit_hide) {
        Some(p1) => {
            match parse_int_at(&v, p1) {
                Some((id, p2)) => {
                    if at_end_brace(&v, p2) {
                        Some(EventRequest::Hide { id })
                    } else {
                        None
                    }
                },
                None => None,
            }
        },
        None => {
            let lit_create = string_to_chars("Create\",\"name\":");
            let p1 = match match_lit(&v, p0, &lit_create) {
                Some(p) => p,
                None => {
                    return None;
                },
            };
            let (name_chars, p2) = match parse_json_string_at(&v, p1) {
                Some(p) => p,
                None => {
                    return None;
                },
            };
            let lit_tt = string_to_chars(",\"talk_type\":");
            let p3 = match match_lit(&v, p2, &lit_tt) {
                Some(p) => p,
                None => {
                    return None;
                },
            };
            let (tt_chars, p4) = match parse_json_string_at(&v, p3) {
                Some(p) => p,
                None => {
                    return None;
                },
            };
            let tt = match talk_type_from_name(&tt_chars) {
                Some(t) => t,
                None => {
                    return None;
                },
            };
            let lit_desc = string_to_chars(",\"desc\":");
            let p5 = match match_lit(&v, p4, &lit_desc) {
                Some(p) => p,
                None => {
                    return None;
                },
            };
            let (desc_chars, p6) = match parse_json_string_at(&v, p5) {
                Some(p) => p,
                None => {
                    return None;
                },
            };
            if at_end_brace(&v, p6) {
                let name = chars_to_string(&name_chars);
                let desc = chars_to_string(&desc_chars);
                Some(EventRequest::Create { name, talk_type: tt, desc })
            } else {
                None
            }
        },
    }
}

/// Reads a quoted string value at `pos`: the opening quote, its body,
/// the closing quote.
fn parse_json_string_at(v: &Vec<char>, pos: usize) -> (r: Option<(Vec<char>, usize)>)
    requires
        pos <= v@.len(),
    ensures
        match r {
            Some(p) => p.1 <= v@.len() && (match parse_json_string(v@.skip(pos as int)) {
                Some(q) => q.0 == p.0@ && q.1 == v@.skip(p.1 as int),
                None => false,
            }),
            None => parse_json_string(v@.skip(pos as int)) is None,
        },
{
    if pos < v.len() {
        proof {
            assert(v@.skip(pos as int)[0] == v@[pos as int]);
        }
        let c = v[pos];
        if c == '"' {
            proof {
                lemma_skip_skip(v@, pos as int, 1);
            }
            return parse_string_body_at(v, pos + 1);
        }
        return None;
    }
    None
}

// ---------------------------------------------------------------------
// The round trip: parsing an encoding gives back the encoded value
// ---------------------------------------------------------------------
/// A literal consumes itself from the front of a concatenation.
proof fn lemma_parse_lit_concat(lit: Seq<char>, rest: Seq<char>)
    ensures
        parse_lit(lit + rest, lit) == Some(rest),
{
    let s = lit + rest;
    assert(lit.is_prefix_of(s)) by {
        assert(lit =~= s.subrange(0, lit.len() as int));
    }
    assert(s.skip(lit.len() as int) =~= rest);
}

/// A literal that differs somewhere in range does not match.
proof fn lemma_parse_lit_mismatch(s: Seq<char>, lit: Seq<char>, j: int)
    requires
        0 <= j < lit.len(),
        j < s.len(),
        s[j] != lit[j],
    ensures
        parse_lit(s, lit) is None,
{
    if lit.is_prefix_of(s) {
        assert(lit[j] == s.subrange(0, lit.len() as int)[j]);
    }
}

/// A hex digit character reads back as its value.
proof fn lemma_hex_digit_round(x: int)
    requires
        0 <= x < 16,
    ensures
        hex_val(hex_digit(x)) == Some(x),
{
}

/// The string-body parser undoes the escaper: the escaped content, the
/// closing quote, and whatever follows parse to the content and the
/// follower.
proof fn lemma_parse_escaped(c: Seq<char>, rest: Seq<char>)
    ensures
        parse_string_body(escape_string(c) + seq!['"'] + rest) == Some((c, rest)),
    decreases c.len(),
{
    let s = escape_string(c) + seq!['"'] + rest;
    if c.len() == 0 {
        assert(escape_string(c) =~= Seq::<char>::empty());
        assert(s[0] == '"');
        assert(s.skip(1) =~= rest);
    } else {
        let c0 = c[0];
        let e0 = escape_char(c0);
        assert(escape_string(c) == e0 + escape_string(c.skip(1)));
        lemma_parse_escaped(c.skip(1), rest);
        let s1 = escape_string(c.skip(1)) + seq!['"'] + rest;
        assert(s =~= e0 + s1);
        assert(forall|m: int| 0 <= m < e0.len() ==> s[m] == #[trigger] e0[m]);
        if c0 == '"' {
            assert(s[0] == '\\' && s[1] == '"');
            assert(s.skip(2) =~= s1);
            assert(seq![c0] + c.skip(1) =~= c);
        } else if c0 == '\\' {
            assert(s[0] == '\\' && s[1] == '\\');
            assert(s.skip(2) =~= s1);
            assert(seq![c0] + c.skip(1) =~= c);
        } else if c0 == '\u{8}' {
            assert(s[0] == '\\' && s[1] == 'b');
            assert(s.skip(2) =~= s1);
            assert(seq![c0] + c.skip(1) =~= c);
        } else if c0 == '\t' {
            assert(s[0] == '\\' && s[1] == 't');
            assert(s.skip(2) =~= s1);
            assert(seq![c0] + c.skip(1) =~= c);
        } else if c0 == '\n' {
            assert(s[0] == '\\' && s[1] == 'n');
            assert(s.skip(2) =~= s1);
            assert(seq![c0] + c.skip(1) =~= c);
        } else if c0 == '\u{c}' {
            assert(s[0] == '\\' && s[1] == 'f');
            assert(s.skip(2) =~= s1);
            assert(seq![c0] + c.skip(1) =~= c);
        } else if c0 == '\r' {
            assert(s[0] == '\\' && s[1] == 'r');
            assert(s.skip(2) =~= s1);
            assert(seq![c0] + c.skip(1) =~= c);
        } else if (c0 as u32) < 32 {
            let u = c0 as u32;
            assert(s[0] == '\\' && s[1] == 'u' && s[2] == '0' && s[3] == '0');
            assert(s[4] == hex_digit(((u / 16) as int)) && s[5] == hex_digit(((u % 16) as int)));
            lemma_hex_digit_round(((u / 16) as int));
            lemma_hex_digit_round(((u % 16) as int));
            assert(hex_val(s[4])->0 * 16 + hex_val(s[5])->0 == u);
            assert(s.skip(6) =~= s1);
            vstd::utf8::char_u32_cast(c0, u);
            assert((u as char) == c0);
            assert(((u as int) as char) == c0);
            assert(seq![c0] + c.skip(1) =~= c);
        } else {
            assert(e0 == seq![c0]);
            assert(s[0] == c0);
            assert(s[0] != '"' && s[0] != '\\');
            assert(s.skip(1) =~= s1);
            assert(seq![c0] + c.skip(1) =~= c);
        }
    }
}

/// A quoted string value undoes `json_string`.
proof fn lemma_parse_json_string_round(c: Seq<char>, rest: Seq<char>)
    ensures
        parse_json_string(json_string(c) + rest) == Some((c, rest)),
{
    let s = json_string(c) + rest;
    assert(s[0] == '"');
    assert(s.skip(1) =~= escape_string(c) + seq!['"'] + rest);
    lemma_parse_escaped(c, rest);
}

/// Every character of a decimal rendering is a digit.
proof fn lemma_dec_nat_digits(n: nat)
    ensures
        spec_dec_nat(n).len() >= 1,
        forall|m: int|
            0 <= m < spec_dec_nat(n).len() ==> is_digit(#[trigger] spec_dec_nat(n)[m]),
    decreases n,
{
    if n >= 10 {
        lemma_dec_nat_digits(n / 10);
        assert(forall|m: int|
            0 <= m < spec_dec_nat(n).len() - 1 ==> spec_dec_nat(n)[m] == #[trigger] spec_dec_nat(
                n / 10,
            )[m]);
        assert(spec_dec_nat(n).last() == dec_digit((n % 10) as int));
    }
}

/// A decimal rendering reads back as its value.
proof fn lemma_dec_nat_val(n: nat)
    ensures
        digits_val(spec_dec_nat(n)) == n,
    decreases n,
{
    if n < 10 {
        let s = spec_dec_nat(n);
        assert(s.drop_last() =~= Seq::<char>::empty());
        assert(digits_val(Seq::<char>::empty()) == 0);
        assert(s.last() == dec_digit(n as int));
        assert((dec_digit(n as int)) as u32 == 48 + n);
        assert(digits_val(s) == digits_val(s.drop_last()) * 10 + (s.last() as u32 - 48));
    } else {
        lemma_dec_nat_val(n / 10);
        let s = spec_dec_nat(n);
        assert(s.drop_last() =~= spec_dec_nat(n / 10));
        assert(s.last() == dec_digit((n % 10) as int));
        assert((dec_digit((n % 10) as int)) as u32 == 48 + (n % 10));
    }
}

/// Greedy digit reading stops exactly at the end of an all-digit block.
proof fn lemma_digit_count_concat(a: Seq<char>, rest: Seq<char>)
    requires
        forall|m: int| 0 <= m < a.len() ==> is_digit(#[trigger] a[m]),
        rest.len() > 0 ==> !is_digit(rest[0]),
    ensures
        digit_count(a + rest) == a.len(),
        (a + rest).take(a.len() as int) == a,
        (a + rest).skip(a.len() as int) == rest,
    decreases a.len(),
{
    assert((a + rest).take(a.len() as int) =~= a);
    assert((a + rest).skip(a.len() as int) =~= rest);
    if a.len() == 0 {
        assert(a + rest =~= rest);
    } else {
        assert((a + rest)[0] == a[0]);
        assert((a + rest).skip(1) =~= a.skip(1) + rest);
        assert(forall|m: int| 0 <= m < a.skip(1).len() ==> is_digit(#[trigger] a.skip(1)[m]));
        lemma_digit_count_concat(a.skip(1), rest);
    }
}

/// The integer parser undoes the decimal rendering, given that what
/// follows does not begin with a digit.
proof fn lemma_parse_int_round(v: int, rest: Seq<char>)
    requires
        rest.len() > 0 ==> !is_digit(rest[0]),
    ensures
        parse_int(spec_dec_int(v) + rest) == Some((v, rest)),
{
    let s = spec_dec_int(v) + rest;
    if v < 0 {
        let a = spec_dec_nat((-v) as nat);
        lemma_dec_nat_digits((-v) as nat);
        lemma_dec_nat_val((-v) as nat);
        assert(s[0] == '-');
        assert(s.skip(1) =~= a + rest);
        lemma_digit_count_concat(a, rest);
        assert(digit_count(a + rest) == a.len() >= 1);
    } else {
        let a = spec_dec_nat(v as nat);
        lemma_dec_nat_digits(v as nat);
        lemma_dec_nat_val(v as nat);
        assert(s =~= a + rest);
        assert(is_digit(a[0]) && s[0] == a[0]);
        assert(s[0] != '-');
        lemma_digit_count_concat(a, rest);
        assert(digit_count(s) == a.len() >= 1);
    }
}

/// Each category is read back from its own wire name.
proof fn lemma_talk_name_round(t: TalkType)
    ensures
        spec_talk_type_of_name(t.spec_name()) == Some(t),
{
    reveal_strlit("forum topic");
    reveal_strlit("lightning talk");
    reveal_strlit("project update");
    reveal_strlit("announcement");
    reveal_strlit("after meeting slot");
    match t {
        TalkType::ForumTopic => {},
        TalkType::LightningTalk => {
            assert("lightning talk"@.len() != "forum topic"@.len());
        },
        TalkType::ProjectUpdate => {
            assert("project update"@.len() != "forum topic"@.len());
            assert("project update"@[0] != "lightning talk"@[0]);
        },
        TalkType::Announcement => {
            assert("announcement"@.len() != "forum topic"@.len());
            assert("announcement"@.len() != "lightning talk"@.len());
            assert("announcement"@.len() != "project update"@.len());
        },
        TalkType::AfterMeetingSlot => {
            assert("after meeting slot"@.len() != "forum topic"@.len());
            assert("after meeting slot"@.len() != "lightning talk"@.len());
            assert("after meeting slot"@.len() != "project update"@.len());
            assert("after meeting slot"@.len() != "announcement"@.len());
        },
    }
}

/// The codec's round trip, as one law: every request the encoder can
/// write is read back unchanged by the decoder's grammar. The one
/// proviso is that a `Hide` id lies in the talk-id range, which every
/// `EventRequest` value guarantees by its type.
pub proof fn lemma_request_round_trip(e: RequestView)
    requires
        e matches RequestView::Hide { id } ==> i32::MIN <= id <= i32::MAX,
    ensures
        spec_decode_request(spec_encode_request(e)) == Some(e),
{
    reveal_strlit("{\"event\":\"");
    reveal_strlit("{\"event\":\"Hide\",\"id\":");
    reveal_strlit("Hide\",\"id\":");
    reveal_strlit("{\"event\":\"Create\",\"name\":");
    reveal_strlit("Create\",\"name\":");
    reveal_strlit(",\"talk_type\":");
    reveal_strlit(",\"desc\":");
    reveal_strlit("}");
    let s = spec_encode_request(e);
    match e {
        RequestView::Hide { id } => {
            let tail = "Hide\",\"id\":"@ + (spec_dec_int(id) + "}"@);
            assert(s =~= "{\"event\":\""@ + tail);
            lemma_parse_lit_concat("{\"event\":\""@, tail);
            lemma_parse_lit_concat("Hide\",\"id\":"@, spec_dec_int(id) + "}"@);
            assert(!is_digit("}"@[0]));
            lemma_parse_int_round(id, "}"@);
        },
        RequestView::Create { name, talk_type, desc } => {
            let after_name = ",\"talk_type\":"@ + (json_string(talk_type.spec_name()) + (
            ",\"desc\":"@ + (json_string(desc) + "}"@)));
            let tail = "Create\",\"name\":"@ + (json_string(name) + after_name);
            assert(s =~= "{\"event\":\""@ + tail);
            lemma_parse_lit_concat("{\"event\":\""@, tail);
            assert(tail[0] == 'C') by {
                assert(tail[0] == "Create\",\"name\":"@[0]);
            }
            lemma_parse_lit_mismatch(tail, "Hide\",\"id\":"@, 0);
            lemma_parse_lit_concat("Create\",\"name\":"@, json_string(name) + after_name);
            lemma_parse_json_string_round(name, after_name);
            let after_tt = ",\"desc\":"@ + (json_string(desc) + "}"@);
            lemma_parse_lit_concat(
                ",\"talk_type\":"@,
                json_string(talk_type.spec_name()) + after_tt,
            );
            lemma_parse_json_string_round(talk_type.spec_name(), after_tt);
            lemma_talk_name_round(talk_type);
            lemma_parse_lit_concat(",\"desc\":"@, json_string(desc) + "}"@);
            lemma_parse_json_string_round(desc, "}"@);
        },
    }
}

/// A non-empty listing encoding ends with the closing bracket.
proof fn lemma_talk_list_last(s: Seq<Talk>)
    requires
        s.len() > 0,
    ensures
        spec_encode_talk_list(s).len() > 0,
        spec_encode_talk_list(s).last() == ']',
        spec_encode_talk_list(s) == spec_encode_talk_list(s).drop_last().push(']'),
{
    reveal_strlit("[");
    reveal_strlit("]");
    reveal_strlit("[]");
    reveal_strlit(",");
    if s.len() == 1 {
        assert(spec_encode_talk_list(s) == "["@ + spec_encode_talk(s[0]) + "]"@);
        assert(spec_encode_talk_list(s).last() == ']');
    } else {
        assert(spec_encode_talk_list(s).last() == ']');
    }
    assert(spec_encode_talk_list(s) =~= spec_encode_talk_list(s).drop_last().push(']'));
}

} // verus!
