//! The JSON text of a reply, written as the message format has it: the
//! fields in declaration order, the reply's kind as a `type` field ahead of
//! its own fields, and strings escaped as in RFC 8259.

use vstd::prelude::*;

use crate::unique_ids::{decimal, decimal_string, digit_char};
use crate::{ResponseMessage, ResponsePayload};

verus! {

broadcast use vstd::string::group_string_axioms;

/// The lower-case hexadecimal digit of `d`.
pub open spec fn hex_digit(d: int) -> char {
    if d < 10 {
        digit_char(d)
    } else if d == 10 {
        'a'
    } else if d == 11 {
        'b'
    } else if d == 12 {
        'c'
    } else if d == 13 {
        'd'
    } else if d == 14 {
        'e'
    } else {
        'f'
    }
}

/// How one character stands inside a JSON string.
pub open spec fn escape_char(c: char) -> Seq<char> {
    if c == '"' {
        seq!['\\', '"']
    } else if c == '\\' {
        seq!['\\', '\\']
    } else if c == '\u{8}' {
        seq!['\\', 'b']
    } else if c == '\t' {
        seq!['\\', 't']
    } else if c == '\n' {
        seq!['\\', 'n']
    } else if c == '\u{c}' {
        seq!['\\', 'f']
    } else if c == '\r' {
        seq!['\\', 'r']
    } else if (c as int) < 32 {
        seq!['\\', 'u', '0', '0', hex_digit((c as int) / 16), hex_digit((c as int) % 16)]
    } else {
        seq![c]
    }
}

/// The escaped characters of `s`.
pub open spec fn escape_all(s: Seq<char>) -> Seq<char>
    decreases s.len(),
{
    if s.len() == 0 {
        Seq::empty()
    } else {
        escape_all(s.drop_last()) + escape_char(s.last())
    }
}

/// A JSON string holding `s`.
pub open spec fn json_string(s: Seq<char>) -> Seq<char> {
    "\""@ + escape_all(s) + "\""@
}

/// The numbers of `v` in decimal, separated by commas.
pub open spec fn number_items(v: Seq<u32>) -> Seq<char>
    decreases v.len(),
{
    if v.len() == 0 {
        Seq::empty()
    } else if v.len() == 1 {
        decimal(v[0] as nat)
    } else {
        number_items(v.drop_last()) + ","@ + decimal(v.last() as nat)
    }
}

/// A JSON array of the numbers of `v`.
pub open spec fn json_numbers(v: Seq<u32>) -> Seq<char> {
    "["@ + number_items(v) + "]"@
}

/// The fields that a reply's kind contributes to its body: `type` first,
/// then the kind's own fields.
pub open spec fn json_payload_fields(p: ResponsePayload) -> Seq<char> {
    match p {
        ResponsePayload::EchoOk { echo } => "\"type\":\"echo_ok\",\"echo\":"@ + json_string(echo@),
        ResponsePayload::InitOk => "\"type\":\"init_ok\""@,
        ResponsePayload::GenerateOk { id } => "\"type\":\"generate_ok\",\"id\":"@ + json_string(id@),
        ResponsePayload::BroadcastOk => "\"type\":\"broadcast_ok\""@,
        ResponsePayload::ReadOk { messages } => "\"type\":\"read_ok\",\"messages\":"@ + json_numbers(
            messages@,
        ),
        ResponsePayload::TopologyOk => "\"type\":\"topology_ok\""@,
        ResponsePayload::SyncOk { messages } => "\"type\":\"sync_ok\",\"messages\":"@ + json_numbers(
            messages@,
        ),
    }
}

/// The JSON text of a reply.
pub open spec fn json_response(m: ResponseMessage) -> Seq<char> {
    "{\"src\":"@ + json_string(m.src@) + ",\"dest\":"@ + json_string(m.dest@)
        + ",\"body\":{\"msg_id\":"@ + decimal(m.body.msg_id as nat) + ",\"in_reply_to\":"@
        + decimal(m.body.in_reply_to as nat) + ","@ + json_payload_fields(m.body.payload) + "}}"@
}

/// Appends `c` to `s` with `String::push`, which std documents as adding
/// the character at the end of the string.
#[verifier::external_body]
fn push_char(s: &mut String, c: char)
    ensures
        final(s)@ == old(s)@.push(c),
{
    s.push(c);
}

fn hex_str(d: u32) -> (s: &'static str)
    requires
        d < 16,
    ensures
        s@ == seq![hex_digit(d as int)],
{
    if d < 10 {
        crate::unique_ids::digit_str(d)
    } else if d == 10 {
        proof {
            reveal_strlit("a");
        }
        "a"
    } else if d == 11 {
        proof {
            reveal_strlit("b");
        }
        "b"
    } else if d == 12 {
        proof {
            reveal_strlit("c");
        }
        "c"
    } else if d == 13 {
        proof {
            reveal_strlit("d");
        }
        "d"
    } else if d == 14 {
        proof {
            reveal_strlit("e");
        }
        "e"
    } else {
        proof {
            reveal_strlit("f");
        }
        "f"
    }
}

/// Appends `c` as it stands inside a JSON string.
fn push_escaped(out: &mut String, c: char)
    ensures
        final(out)@ == old(out)@ + escape_char(c),
{
    if c == '"' {
        proof {
            reveal_strlit("\\\"");
        }
        out.append("\\\"");
    } else if c == '\\' {
        proof {
            reveal_strlit("\\\\");
        }
        out.append("\\\\");
    } else if c == '\u{8}' {
        proof {
            reveal_strlit("\\b");
        }
        out.append("\\b");
    } else if c == '\t' {
        proof {
            reveal_strlit("\\t");
        }
        out.append("\\t");
    } else if c == '\n' {
        proof {
            reveal_strlit("\\n");
        }
        out.append("\\n");
    } else if c == '\u{c}' {
        proof {
            reveal_strlit("\\f");
        }
        out.append("\\f");
    } else if c == '\r' {
        proof {
            reveal_strlit("\\r");
        }
        out.append("\\r");
    } else if (c as u32) < 32 {
        let code = c as u32;
        proof {
            reveal_strlit("\\u00");
        }
        out.append("\\u00");
        out.append(hex_str(code / 16));
        out.append(hex_str(code % 16));
    } else {
        push_char(out, c);
    }
}

/// Appends `s` as a JSON string.
fn push_json_string(out: &mut String, s: &str)
    ensures
        final(out)@ == old(out)@ + json_string(s@),
{
    let ghost start = out@;
    out.append("\"");
    let ghost opened = out@;
    let n = s.unicode_len();
    let mut i: usize = 0;
    while i < n
        invariant
            i <= n,
            n == s@.len(),
            opened == start + "\""@,
            out@ == opened + escape_all(s@.take(i as int)),
        decreases n - i,
    {
        let c = s.get_char(i);
        proof {
            assert(s@.take(i as int + 1).drop_last() =~= s@.take(i as int));
        }
        push_escaped(out, c);
        assert(out@ =~= opened + escape_all(s@.take(i as int + 1)));
        i = i + 1;
    }
    assert(s@.take(n as int) =~= s@);
    out.append("\"");
    assert(out@ =~= start + json_string(s@));
}

/// Appends the numbers of `v` as a JSON array.
fn push_json_numbers(out: &mut String, v: &Vec<u32>)
    ensures
        final(out)@ == old(out)@ + json_numbers(v@),
{
    let ghost start = out@;
    out.append("[");
    let mut i: usize = 0;
    while i < v.len()
        invariant
            i <= v@.len(),
            out@ == start + "["@ + number_items(v@.take(i as int)),
        decreases v.len() - i,
    {
        let ghost before = out@;
        assert(v@.take(i as int + 1).drop_last() =~= v@.take(i as int));
        if i > 0 {
            out.append(",");
        }
        let digits = decimal_string(v[i]);
        out.append(digits.as_str());
        proof {
            if i == 0 {
                assert(v@.take(1) =~= seq![v@[0]]);
                assert(number_items(v@.take(0)) =~= Seq::<char>::empty());
            }
        }
        assert(out@ =~= start + "["@ + number_items(v@.take(i as int + 1)));
        i = i + 1;
    }
    assert(v@.take(v.len() as int) =~= v@);
    out.append("]");
    assert(out@ =~= start + json_numbers(v@));
}

/// Appends the fields that a reply's kind contributes to its body.
fn push_payload_fields(out: &mut String, p: &ResponsePayload)
    ensures
        final(out)@ == old(out)@ + json_payload_fields(*p),
{
    let ghost start = out@;
    match p {
        ResponsePayload::EchoOk { echo } => {
            out.append("\"type\":\"echo_ok\",\"echo\":");
            push_json_string(out, echo.as_str());
        },
        ResponsePayload::InitOk => {
            out.append("\"type\":\"init_ok\"");
        },
        ResponsePayload::GenerateOk { id } => {
            out.append("\"type\":\"generate_ok\",\"id\":");
            push_json_string(out, id.as_str());
        },
        ResponsePayload::BroadcastOk => {
            out.append("\"type\":\"broadcast_ok\"");
        },
        ResponsePayload::ReadOk { messages } => {
            out.append("\"type\":\"read_ok\",\"messages\":");
            push_json_numbers(out, messages);
        },
        ResponsePayload::TopologyOk => {
            out.append("\"type\":\"topology_ok\"");
        },
        ResponsePayload::SyncOk { messages } => {
            out.append("\"type\":\"sync_ok\",\"messages\":");
            push_json_numbers(out, messages);
        },
    }
    assert(out@ =~= start + json_payload_fields(*p));
}

/// Writes a reply as JSON.
pub fn render_response(m: &ResponseMessage) -> (text: String)
    ensures
        text@ == json_response(*m),
{
    let mut out = String::new();
    out.append("{\"src\":");
    push_json_string(&mut out, m.src.as_str());
    out.append(",\"dest\":");
    push_json_string(&mut out, m.dest.as_str());
    out.append(",\"body\":{\"msg_id\":");
    let id = decimal_string(m.body.msg_id);
    out.append(id.as_str());
    out.append(",\"in_reply_to\":");
    let reply_to = decimal_string(m.body.in_reply_to);
    out.append(reply_to.as_str());
    out.append(",");
    push_payload_fields(&mut out, &m.body.payload);
    out.append("}}");
    assert(out@ =~= json_response(*m));
    out
}

} // verus!
