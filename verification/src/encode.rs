//! The exec encoder: emits exactly the character sequences that the wire
//! model in `wire` describes.

use vstd::prelude::*;
use vstd::string::{StrSliceExecFns, StringExecFns};
use crate::todos::{Timestamp, Todo};
use crate::api::{ResponsePost, ResponseTodos};
use crate::wire::{
    completed_field_chars, dec_chars, digit_char, esc_char, escaped_chars, four_digit_chars,
    id_field_chars, lemma_escaped_snoc, list_env_chars, post_env_chars, quoted_chars,
    todo_array_chars, todo_chars, todos_tail_chars, ts_chars, ts_field_chars, two_digit_chars,
};

verus! {

/// Relies on `String::push` of std: appends the given character to the end
/// of the string.
pub assume_specification [ String::push ](s: &mut String, ch: char)
    ensures
        final(s)@ == old(s)@.push(ch),
;

/// Appending todo elements one at a time appends their tail chunks.
proof fn lemma_todos_tail_append(a: Seq<crate::todos::TodoView>, b: Seq<crate::todos::TodoView>)
    ensures
        todos_tail_chars(a + b) == todos_tail_chars(a) + todos_tail_chars(b),
    decreases a.len(),
{
    if a.len() == 0 {
        assert(a + b =~= b);
        assert(todos_tail_chars(a) + todos_tail_chars(b) =~= todos_tail_chars(b));
    } else {
        assert((a + b).skip(1) =~= a.skip(1) + b);
        lemma_todos_tail_append(a.skip(1), b);
        assert((a + b)[0] == a[0]);
        assert(todos_tail_chars(a + b) =~= ((",")@ + todo_chars(a[0]) + todos_tail_chars(
            a.skip(1),
        )) + todos_tail_chars(b));
    }
}

/// Concatenation is associative, in the grouping the array loop needs.
proof fn lemma_assoc4(h: Seq<char>, t0: Seq<char>, c: Seq<char>, d: Seq<char>)
    ensures
        ((h + t0) + c) + d == h + (t0 + (c + d)),
{
    assert(((h + t0) + c) + d =~= h + (t0 + (c + d)));
}

/// Taking one more element of a tail appends one comma-prefixed object.
proof fn lemma_todos_tail_snoc(tail: Seq<crate::todos::TodoView>, k: int)
    requires
        0 <= k < tail.len(),
    ensures
        todos_tail_chars(tail.take(k + 1)) == todos_tail_chars(tail.take(k)) + ((",")@
            + todo_chars(tail[k])),
{
    assert(tail.take(k + 1) =~= tail.take(k) + seq![tail[k]]);
    lemma_todos_tail_append(tail.take(k), seq![tail[k]]);
    assert(seq![tail[k]].skip(1) =~= Seq::<crate::todos::TodoView>::empty());
    assert(todos_tail_chars(Seq::<crate::todos::TodoView>::empty()) == Seq::<char>::empty());
    assert(todos_tail_chars(seq![tail[k]]) =~= (",")@ + todo_chars(tail[k]));
}

/// Writes the escaped form of `s`.
fn push_escaped(out: &mut String, s: &str)
    ensures
        final(out)@ == old(out)@ + escaped_chars(s@),
{
    let ghost base: Seq<char> = out@;
    let n: usize = s.unicode_len();
    for k in 0..n
        invariant
            n == s@.len(),
            out@ == base + escaped_chars(s@.take(k as int)),
    {
        let c = s.get_char(k);
        if c == '"' || c == '\\' {
            out.push('\\');
            out.push(c);
        } else {
            out.push(c);
        }
        proof {
            lemma_escaped_snoc(s@, k as int);
            if c == '"' || c == '\\' {
                assert((base + escaped_chars(s@.take(k as int))).push('\\').push(c) =~= base
                    + (escaped_chars(s@.take(k as int)) + esc_char(c)));
            } else {
                assert((base + escaped_chars(s@.take(k as int))).push(c) =~= base + (escaped_chars(
                    s@.take(k as int),
                ) + esc_char(c)));
            }
        }
    }
    proof {
        assert(s@.take(n as int) =~= s@);
    }
}

/// Writes the quoted, escaped form of `s`.
fn push_quoted(out: &mut String, s: &str)
    ensures
        final(out)@ == old(out)@ + quoted_chars(s@),
{
    let ghost base: Seq<char> = out@;
    out.push('"');
    push_escaped(out, s);
    out.push('"');
    proof {
        assert(out@ =~= base + quoted_chars(s@));
    }
}

/// Writes the decimal digits of `n`, most significant first.
fn push_digits(out: &mut String, n: u32)
    ensures
        final(out)@ == old(out)@ + dec_chars(n as int),
    decreases n,
{
    if n < 10 {
        let c: char = (48u8 + n as u8) as char;
        out.push(c);
        proof {
            assert(c == digit_char(n as int));
            assert(old(out)@.push(c) =~= old(out)@ + dec_chars(n as int));
        }
    } else {
        push_digits(out, n / 10);
        let c: char = (48u8 + (n % 10) as u8) as char;
        out.push(c);
        proof {
            assert(c == digit_char(n as int % 10));
            assert((old(out)@ + dec_chars(n as int / 10)).push(c) =~= old(out)@ + dec_chars(
                n as int,
            ));
        }
    }
}

/// Writes a two-digit zero-padded number.
fn push_2d(out: &mut String, n: u8)
    requires
        n < 100,
    ensures
        final(out)@ == old(out)@ + two_digit_chars(n as int),
{
    let hi: char = (48u8 + n / 10) as char;
    let lo: char = (48u8 + n % 10) as char;
    out.push(hi);
    out.push(lo);
    proof {
        assert(hi == digit_char(n as int / 10 % 10));
        assert(lo == digit_char(n as int % 10));
        assert(old(out)@.push(hi).push(lo) =~= old(out)@ + two_digit_chars(n as int));
    }
}

/// Writes a four-digit zero-padded number.
fn push_4d(out: &mut String, n: u16)
    requires
        n <= 9999,
    ensures
        final(out)@ == old(out)@ + four_digit_chars(n as int),
{
    let d0: char = (48u8 + (n / 1000) as u8) as char;
    let d1: char = (48u8 + (n / 100 % 10) as u8) as char;
    let d2: char = (48u8 + (n / 10 % 10) as u8) as char;
    let d3: char = (48u8 + (n % 10) as u8) as char;
    out.push(d0);
    out.push(d1);
    out.push(d2);
    out.push(d3);
    proof {
        assert(d0 == digit_char(n as int / 1000 % 10));
        assert(d1 == digit_char(n as int / 100 % 10));
        assert(d2 == digit_char(n as int / 10 % 10));
        assert(d3 == digit_char(n as int % 10));
        assert(old(out)@.push(d0).push(d1).push(d2).push(d3) =~= old(out)@ + four_digit_chars(
            n as int,
        ));
    }
}

/// Writes an RFC-3339 UTC instant.
fn push_ts(out: &mut String, t: &Timestamp)
    requires
        t.wf(),
    ensures
        final(out)@ == old(out)@ + ts_chars(*t),
{
    let ghost base: Seq<char> = out@;
    push_4d(out, t.year);
    out.push('-');
    push_2d(out, t.month);
    out.push('-');
    push_2d(out, t.day);
    out.push('T');
    push_2d(out, t.hour);
    out.push(':');
    push_2d(out, t.minute);
    out.push(':');
    push_2d(out, t.second);
    out.push('Z');
    proof {
        assert(out@ =~= base + ts_chars(*t));
    }
}

/// Writes the optional `id` member.
fn push_id_field(out: &mut String, id: &Option<String>)
    ensures
        final(out)@ == old(out)@ + id_field_chars(
            match id {
                Some(v) => Some(v@),
                None => None,
            },
        ),
{
    let ghost base: Seq<char> = out@;
    match id {
        Some(v) => {
            out.append("\"id\":");
            push_quoted(out, v.as_str());
            out.append(",");
            proof {
                assert(out@ =~= base + id_field_chars(Some(v@)));
            }
        },
        None => {},
    }
}

/// Writes the optional `completed` member.
fn push_completed_field(out: &mut String, c: Option<bool>)
    ensures
        final(out)@ == old(out)@ + completed_field_chars(c),
{
    let ghost base: Seq<char> = out@;
    match c {
        Some(b) => {
            out.append(",\"completed\":");
            if b {
                out.append("true");
            } else {
                out.append("false");
            }
            proof {
                assert(out@ =~= base + completed_field_chars(Some(b)));
            }
        },
        None => {},
    }
}

/// Writes an optional quoted-timestamp member after its `pre` prefix.
fn push_ts_field(out: &mut String, pre: &str, o: &Option<Timestamp>)
    requires
        match o {
            Some(ts) => ts.wf(),
            None => true,
        },
    ensures
        final(out)@ == old(out)@ + ts_field_chars(pre@, *o),
{
    let ghost base: Seq<char> = out@;
    match o {
        Some(ts) => {
            out.append(pre);
            push_ts(out, ts);
            out.append("\"");
            proof {
                assert(out@ =~= base + ts_field_chars(pre@, *o));
            }
        },
        None => {},
    }
}

/// Writes one todo object in wire form.
fn push_todo(out: &mut String, t: &Todo)
    requires
        t@.wf(),
    ensures
        final(out)@ == old(out)@ + todo_chars(t@),
{
    let ghost base: Seq<char> = out@;
    out.append("{");
    let ghost q1: Seq<char> = ("{")@;
    push_id_field(out, &t.id);
    let ghost q2: Seq<char> = q1 + id_field_chars(t@.id);
    proof {
        assert(out@ =~= base + q2);
    }
    out.append("\"title\":");
    let ghost q3: Seq<char> = q2 + ("\"title\":")@;
    proof {
        assert(out@ =~= base + q3);
    }
    push_quoted(out, t.title.as_str());
    let ghost q4: Seq<char> = q3 + quoted_chars(t@.title);
    proof {
        assert(out@ =~= base + q4);
    }
    out.append(",\"content\":");
    let ghost q5: Seq<char> = q4 + (",\"content\":")@;
    proof {
        assert(out@ =~= base + q5);
    }
    push_quoted(out, t.content.as_str());
    let ghost q6: Seq<char> = q5 + quoted_chars(t@.content);
    proof {
        assert(out@ =~= base + q6);
    }
    push_completed_field(out, t.completed);
    let ghost q7: Seq<char> = q6 + completed_field_chars(t@.completed);
    proof {
        assert(out@ =~= base + q7);
    }
    push_ts_field(out, ",\"createdAt\":\"", &t.createdAt);
    let ghost q8: Seq<char> = q7 + ts_field_chars((",\"createdAt\":\"")@, t@.createdAt);
    proof {
        assert(out@ =~= base + q8);
    }
    push_ts_field(out, ",\"updatedAt\":\"", &t.updatedAt);
    let ghost q9: Seq<char> = q8 + ts_field_chars((",\"updatedAt\":\"")@, t@.updatedAt);
    proof {
        assert(out@ =~= base + q9);
    }
    out.append("}");
    proof {
        assert(q9 + ("}")@ == todo_chars(t@));
        assert(out@ =~= base + (q9 + ("}")@));
    }
}

/// Writes a wire array of todo objects.
#[verifier::rlimit(100)]
fn push_todos(out: &mut String, todos: &Vec<Todo>)
    requires
        forall|k: int| 0 <= k < todos@.len() ==> (#[trigger] todos@[k])@.wf(),
    ensures
        final(out)@ == old(out)@ + todo_array_chars(todos@.map_values(|t: Todo| t@)),
{
    let ghost base: Seq<char> = out@;
    let ghost v: Seq<crate::todos::TodoView> = todos@.map_values(|t: Todo| t@);
    if todos.len() == 0 {
        out.append("[]");
        proof {
            assert(out@ =~= base + todo_array_chars(v));
        }
    } else {
        out.append("[");
        push_todo(out, &todos[0]);
        let ghost tail: Seq<crate::todos::TodoView> = v.skip(1);
        let ghost head: Seq<char> = base + ("[")@ + todo_chars(v[0]);
        let n = todos.len();
        for k in 1..n
            invariant
                n == todos@.len(),
                v == todos@.map_values(|t: Todo| t@),
                tail == v.skip(1),
                head == base + ("[")@ + todo_chars(v[0]),
                v.len() == n,
                forall|j: int| 0 <= j < todos@.len() ==> (#[trigger] todos@[j])@.wf(),
                out@ == head + todos_tail_chars(tail.take(k - 1)),
        {
            out.append(",");
            push_todo(out, &todos[k]);
            proof {
                lemma_todos_tail_snoc(tail, k - 1);
                assert(tail[k - 1] == v[k as int]);
                assert(v[k as int] == todos@[k as int]@);
                lemma_assoc4(
                    head,
                    todos_tail_chars(tail.take(k - 1)),
                    (",")@,
                    todo_chars(tail[k - 1]),
                );
                assert(out@ == head + todos_tail_chars(tail.take(k as int)));
            }
        }
        out.append("]");
        proof {
            assert(tail.take(n - 1) =~= tail);
            assert(out@ =~= base + todo_array_chars(v));
        }
    }
}

/// Encodes one todo as its wire object: the body of a create request.
pub fn encode_todo(t: &Todo) -> (r: String)
    requires
        t@.wf(),
    ensures
        r@ == todo_chars(t@),
{
    let mut out = String::new();
    push_todo(&mut out, t);
    proof {
        assert(out@ =~= todo_chars(t@));
    }
    out
}

/// Encodes a list-response envelope.
pub fn encode_list_response(e: &ResponseTodos) -> (r: String)
    requires
        e@.wf(),
    ensures
        r@ == list_env_chars(e@),
{
    let mut out = String::new();
    out.append("{\"status\":");
    push_quoted(&mut out, e.status.as_str());
    out.append(",\"results\":");
    push_digits(&mut out, e.results);
    out.append(",\"todos\":");
    proof {
        assert forall|k: int| 0 <= k < e.todos@.len() implies (#[trigger] e.todos@[k])@.wf() by {
            assert(e@.todos[k] == e.todos@[k]@);
            assert(e@.todos[k].wf());
        }
    }
    push_todos(&mut out, &e.todos);
    out.append("}");
    proof {
        assert(out@ =~= list_env_chars(e@));
    }
    out
}

/// Encodes a single-item response envelope.
pub fn encode_post_response(e: &ResponsePost) -> (r: String)
    requires
        e@.wf(),
    ensures
        r@ == post_env_chars(e@),
{
    let mut out = String::new();
    out.append("{\"status\":");
    push_quoted(&mut out, e.status.as_str());
    out.append(",\"data\":{\"todo\":");
    push_todo(&mut out, &e.data.todo);
    out.append("}}");
    proof {
        assert(out@ =~= post_env_chars(e@));
    }
    out
}

} // verus!
