//! The wire format, as a mathematical model: the exact character sequence
//! that encodes a todo, a timestamp, and the two response envelopes of the
//! remote service. The exec encoder and decoder are specified against these
//! functions: the encoder emits exactly these characters, and the decoder
//! accepts exactly them.

use vstd::prelude::*;
use crate::todos::{Timestamp, TodoView};

verus! {

// ---------------------------------------------------------------------------
// Characters and digits
// ---------------------------------------------------------------------------

/// The digit character for a value in 0..10.
pub open spec fn digit_char(d: int) -> char {
    (((d + 48) as u8) as char)
}

pub open spec fn is_digit_char(c: char) -> bool {
    48 <= c as int && c as int <= 57
}

/// The numeric value of a digit character.
pub open spec fn digit_val(c: char) -> int {
    c as int - 48
}

pub proof fn lemma_digit_char_val(d: int)
    requires
        0 <= d < 10,
    ensures
        is_digit_char(digit_char(d)),
        digit_val(digit_char(d)) == d,
{
}

// ---------------------------------------------------------------------------
// Strings: escaping and quoting
// ---------------------------------------------------------------------------

/// How one character is written inside a quoted string: `"` and `\` take a
/// backslash escape, every other character stands for itself.
pub open spec fn esc_char(c: char) -> Seq<char> {
    if c == '"' || c == '\\' {
        seq!['\\', c]
    } else {
        seq![c]
    }
}

/// A string's characters with escapes applied.
pub open spec fn escaped_chars(s: Seq<char>) -> Seq<char>
    decreases s.len(),
{
    if s.len() == 0 {
        Seq::<char>::empty()
    } else {
        esc_char(s[0]) + escaped_chars(s.skip(1))
    }
}

/// A quoted string: `"` + escaped contents + `"`.
pub open spec fn quoted_chars(s: Seq<char>) -> Seq<char> {
    seq!['"'] + escaped_chars(s) + seq!['"']
}

pub proof fn lemma_escaped_append(a: Seq<char>, b: Seq<char>)
    ensures
        escaped_chars(a + b) == escaped_chars(a) + escaped_chars(b),
    decreases a.len(),
{
    if a.len() == 0 {
        assert(a + b =~= b);
        assert(escaped_chars(a) + escaped_chars(b) =~= escaped_chars(b));
    } else {
        assert((a + b).skip(1) =~= a.skip(1) + b);
        lemma_escaped_append(a.skip(1), b);
        assert(esc_char((a + b)[0]) == esc_char(a[0]));
        assert(escaped_chars(a + b) == esc_char(a[0]) + (escaped_chars(a.skip(1)) + escaped_chars(
            b,
        )));
        assert(esc_char(a[0]) + (escaped_chars(a.skip(1)) + escaped_chars(b)) =~= (esc_char(a[0])
            + escaped_chars(a.skip(1))) + escaped_chars(b));
    }
}

/// Escaping one more character appends that character's escape.
pub proof fn lemma_escaped_snoc(v: Seq<char>, k: int)
    requires
        0 <= k < v.len(),
    ensures
        escaped_chars(v.take(k + 1)) == escaped_chars(v.take(k)) + esc_char(v[k]),
{
    assert(v.take(k + 1) =~= v.take(k) + seq![v[k]]);
    lemma_escaped_append(v.take(k), seq![v[k]]);
    assert(escaped_chars(seq![v[k]]) == esc_char(v[k]) + escaped_chars(
        seq![v[k]].skip(1),
    ));
    assert(seq![v[k]].skip(1) =~= Seq::<char>::empty());
    assert(esc_char(v[k]) + Seq::<char>::empty() =~= esc_char(v[k]));
}

// ---------------------------------------------------------------------------
// Decimal numbers
// ---------------------------------------------------------------------------

/// The decimal digits of a non-negative integer, no leading zeros.
pub open spec fn dec_chars(n: int) -> Seq<char>
    decreases n,
{
    if n < 10 {
        seq![digit_char(n)]
    } else {
        dec_chars(n / 10).push(digit_char(n % 10))
    }
}

/// The value of a sequence of digit characters.
pub open spec fn digits_val(s: Seq<char>) -> int
    decreases s.len(),
{
    if s.len() == 0 {
        0
    } else {
        digits_val(s.drop_last()) * 10 + digit_val(s.last())
    }
}

pub open spec fn all_digits(s: Seq<char>) -> bool {
    forall|k: int| 0 <= k < s.len() ==> is_digit_char(#[trigger] s[k])
}

pub proof fn lemma_dec_chars_digits(n: int)
    requires
        n >= 0,
    ensures
        dec_chars(n).len() >= 1,
        all_digits(dec_chars(n)),
        digits_val(dec_chars(n)) == n,
        n >= 1 ==> dec_chars(n)[0] != '0',
    decreases n,
{
    if n < 10 {
        lemma_digit_char_val(n);
        assert(dec_chars(n) =~= seq![digit_char(n)]);
        assert(dec_chars(n).drop_last() =~= Seq::<char>::empty());
        assert(digits_val(Seq::<char>::empty()) == 0);
        assert(digits_val(dec_chars(n)) == digit_val(digit_char(n)));
        if n >= 1 {
            assert(digit_char(n) != '0') by {
                assert(digit_val(digit_char(n)) == n);
                assert(digit_val('0') == 0);
            }
        }
    } else {
        lemma_dec_chars_digits(n / 10);
        lemma_digit_char_val(n % 10);
        let p = dec_chars(n / 10);
        let w = dec_chars(n);
        assert(w == p.push(digit_char(n % 10)));
        assert(w.drop_last() =~= p);
        assert(w.last() == digit_char(n % 10));
        assert(digits_val(w) == digits_val(p) * 10 + digit_val(digit_char(n % 10)));
        assert(digits_val(w) == (n / 10) * 10 + n % 10);
        assert((n / 10) * 10 + n % 10 == n) by (nonlinear_arith)
            requires n >= 0;
        assert(forall|k: int| 0 <= k < w.len() ==> is_digit_char(#[trigger] w[k])) by {
            assert(forall|k: int| 0 <= k < p.len() ==> is_digit_char(#[trigger] p[k]));
            assert(w.len() == p.len() + 1);
            assert(forall|k: int| 0 <= k < p.len() ==> w[k] == p[k]);
            assert(is_digit_char(w[p.len() as int]));
        }
        assert(w[0] == p[0]);
    }
}

/// A nonempty digit string without a leading zero is the canonical decimal
/// form of its value.
pub proof fn lemma_digits_canonical(s: Seq<char>)
    requires
        s.len() >= 1,
        all_digits(s),
        s[0] != '0' || s.len() == 1,
    ensures
        digits_val(s) >= 0,
        dec_chars(digits_val(s)) == s,
        s.len() > 1 ==> digits_val(s) >= 10,
    decreases s.len(),
{
    let p = s.drop_last();
    let dl = digit_val(s.last());
    assert(is_digit_char(s.last()));
    assert(0 <= dl < 10);
    if s.len() == 1 {
        assert(s.drop_last() =~= Seq::<char>::empty());
        assert(digits_val(Seq::<char>::empty()) == 0);
        assert(digits_val(s) == dl);
        assert(digit_char(dl) == s.last()) by {
            assert(digit_val(s.last()) == dl);
        }
        assert(dec_chars(dl) =~= seq![digit_char(dl)]);
        assert(seq![s.last()] =~= s);
    } else {
        assert(p.len() >= 1);
        assert(all_digits(p)) by {
            assert(forall|k: int| 0 <= k < p.len() ==> p[k] == s[k]);
        }
        assert(p[0] == s[0]);
        assert(p[0] != '0' || p.len() == 1);
        lemma_digits_canonical(p);
        let vp = digits_val(p);
        assert(vp >= 1) by {
            if p.len() == 1 {
                assert(p.drop_last() =~= Seq::<char>::empty());
                assert(digits_val(Seq::<char>::empty()) == 0);
                assert(p.last() == p[0]);
                assert(vp == digit_val(p[0]));
                assert(p[0] == s[0]);
                assert(s[0] != '0');
                assert(is_digit_char(s[0]));
                assert(digit_val(s[0]) != 0) by {
                    assert(digit_char(0) == '0');
                    if digit_val(s[0]) == 0 {
                        assert(s[0] as int == 48);
                        assert('0' as int == 48);
                        assert(s[0] == '0') by {
                            lemma_char_int_inj(s[0], '0');
                        }
                    }
                }
            } else {
                assert(vp >= 10);
            }
        }
        let v = digits_val(s);
        assert(v == vp * 10 + dl);
        assert(v >= 10) by (nonlinear_arith)
            requires v == vp * 10 + dl && vp >= 1 && dl >= 0;
        assert(v / 10 == vp && v % 10 == dl) by (nonlinear_arith)
            requires v == vp * 10 + dl && 0 <= dl < 10;
        assert(dec_chars(v) == dec_chars(vp).push(digit_char(dl)));
        assert(digit_char(dl) == s.last()) by {
            assert(digit_val(s.last()) == dl);
            assert(digit_char(dl) as int == s.last() as int);
            lemma_char_int_inj(digit_char(dl), s.last());
        }
        assert(dec_chars(v) =~= s);
    }
}

/// Two characters with the same scalar value are the same character.
pub proof fn lemma_char_int_inj(a: char, b: char)
    requires
        a as int == b as int,
    ensures
        a == b,
{
    assert(a == b) by {
        assert(a as char == b as char);
    }
}

/// The value of a digit-string prefix never exceeds the whole string's value.
pub proof fn lemma_digits_val_prefix(s: Seq<char>, k: int)
    requires
        0 <= k <= s.len(),
        all_digits(s),
    ensures
        0 <= digits_val(s.take(k)) <= digits_val(s),
    decreases s.len() - k,
{
    lemma_digits_val_nonneg(s.take(k));
    lemma_digits_val_nonneg(s);
    if k == s.len() {
        assert(s.take(k) =~= s);
    } else {
        lemma_digits_val_prefix(s, k + 1);
        let a = s.take(k);
        let b = s.take(k + 1);
        assert(b.drop_last() =~= a);
        assert(b.last() == s[k]);
        assert(digits_val(b) == digits_val(a) * 10 + digit_val(s[k]));
        assert(digits_val(a) <= digits_val(a) * 10) by (nonlinear_arith)
            requires digits_val(a) >= 0;
        assert(is_digit_char(s[k]));
    }
}

pub proof fn lemma_digits_val_nonneg(s: Seq<char>)
    ensures
        all_digits(s) ==> digits_val(s) >= 0,
    decreases s.len(),
{
    if s.len() > 0 {
        lemma_digits_val_nonneg(s.drop_last());
        if all_digits(s) {
            assert(all_digits(s.drop_last())) by {
                assert(forall|k: int|
                    0 <= k < s.drop_last().len() ==> s.drop_last()[k] == s[k]);
            }
            assert(is_digit_char(s.last()));
            assert(digits_val(s.drop_last()) * 10 >= 0) by (nonlinear_arith)
                requires digits_val(s.drop_last()) >= 0;
        }
    }
}

// ---------------------------------------------------------------------------
// Fixed-width numbers and timestamps
// ---------------------------------------------------------------------------

/// A two-digit zero-padded number.
pub open spec fn two_digit_chars(n: int) -> Seq<char> {
    seq![digit_char(n / 10 % 10), digit_char(n % 10)]
}

/// A four-digit zero-padded number.
pub open spec fn four_digit_chars(n: int) -> Seq<char> {
    seq![
        digit_char(n / 1000 % 10),
        digit_char(n / 100 % 10),
        digit_char(n / 10 % 10),
        digit_char(n % 10),
    ]
}

/// An RFC-3339 UTC instant, e.g. `2023-01-02T03:04:05Z`.
pub open spec fn ts_chars(t: Timestamp) -> Seq<char> {
    four_digit_chars(t.year as int) + seq!['-'] + two_digit_chars(t.month as int) + seq!['-']
        + two_digit_chars(t.day as int) + seq!['T'] + two_digit_chars(t.hour as int) + seq![':']
        + two_digit_chars(t.minute as int) + seq![':'] + two_digit_chars(t.second as int)
        + seq!['Z']
}

// ---------------------------------------------------------------------------
// Booleans, options, todos
// ---------------------------------------------------------------------------

pub open spec fn bool_chars(b: bool) -> Seq<char> {
    if b {
        ("true")@
    } else {
        ("false")@
    }
}

/// The optional `id` member, with its trailing comma when present.
pub open spec fn id_field_chars(o: Option<Seq<char>>) -> Seq<char> {
    match o {
        Some(v) => ("\"id\":")@ + quoted_chars(v) + (",")@,
        None => Seq::<char>::empty(),
    }
}

/// The optional `completed` member, with its leading comma when present.
pub open spec fn completed_field_chars(o: Option<bool>) -> Seq<char> {
    match o {
        Some(b) => (",\"completed\":")@ + bool_chars(b),
        None => Seq::<char>::empty(),
    }
}

/// An optional quoted-timestamp member; `pre` is the leading comma, key and
/// opening quote.
pub open spec fn ts_field_chars(pre: Seq<char>, o: Option<Timestamp>) -> Seq<char> {
    match o {
        Some(ts) => pre + ts_chars(ts) + ("\"")@,
        None => Seq::<char>::empty(),
    }
}

/// A single todo object. Absent optional fields are omitted from the object;
/// field order is fixed.
pub open spec fn todo_chars(t: TodoView) -> Seq<char> {
    ("{")@ + id_field_chars(t.id) + ("\"title\":")@ + quoted_chars(t.title) + (",\"content\":")@
        + quoted_chars(t.content) + completed_field_chars(t.completed) + ts_field_chars(
        (",\"createdAt\":\"")@,
        t.createdAt,
    ) + ts_field_chars((",\"updatedAt\":\"")@, t.updatedAt) + ("}")@
}

/// The tail of a todo array: a comma before each further element.
pub open spec fn todos_tail_chars(ts: Seq<TodoView>) -> Seq<char>
    decreases ts.len(),
{
    if ts.len() == 0 {
        Seq::<char>::empty()
    } else {
        (",")@ + todo_chars(ts[0]) + todos_tail_chars(ts.skip(1))
    }
}

/// A JSON array of todo objects.
pub open spec fn todo_array_chars(ts: Seq<TodoView>) -> Seq<char> {
    if ts.len() == 0 {
        ("[]")@
    } else {
        ("[")@ + todo_chars(ts[0]) + todos_tail_chars(ts.skip(1)) + ("]")@
    }
}

// ---------------------------------------------------------------------------
// Response envelopes
// ---------------------------------------------------------------------------

/// The mathematical value of the list-response envelope.
pub struct ResponseTodosView {
    pub status: Seq<char>,
    pub results: u32,
    pub todos: Seq<TodoView>,
}

impl ResponseTodosView {
    pub open spec fn wf(self) -> bool {
        forall|k: int| 0 <= k < self.todos.len() ==> (#[trigger] self.todos[k]).wf()
    }
}

/// The mathematical value of the single-item payload wrapper.
pub struct TodoDataView {
    pub todo: TodoView,
}

/// The mathematical value of the single-item response envelope.
pub struct ResponsePostView {
    pub status: Seq<char>,
    pub data: TodoDataView,
}

impl ResponsePostView {
    pub open spec fn wf(self) -> bool {
        self.data.todo.wf()
    }
}

/// The list envelope: `{"status":...,"results":...,"todos":[...]}`.
pub open spec fn list_env_chars(e: ResponseTodosView) -> Seq<char> {
    ("{\"status\":")@ + quoted_chars(e.status) + (",\"results\":")@ + dec_chars(e.results as int)
        + (",\"todos\":")@ + todo_array_chars(e.todos) + ("}")@
}

/// The single-item envelope: `{"status":...,"data":{"todo":{...}}}`.
pub open spec fn post_env_chars(e: ResponsePostView) -> Seq<char> {
    ("{\"status\":")@ + quoted_chars(e.status) + (",\"data\":{\"todo\":")@ + todo_chars(
        e.data.todo,
    ) + ("}}")@
}

} // verus!
