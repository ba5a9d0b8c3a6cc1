//! The exec decoder: accepts exactly the character sequences that the wire
//! model in `wire` describes, and returns the decoded value. Every parser
//! carries two contracts: whatever it accepts is the wire form of its result
//! (soundness), and every wire form is accepted and decoded to the value that
//! produced it (completeness — the round-trip law).

use vstd::prelude::*;
use vstd::string::{StrSliceExecFns, StringExecFns};
use crate::todos::{Timestamp, Todo, TodoView};
use crate::api::{ResponsePost, ResponseTodos, TodoData};
use crate::wire::{
    all_digits, bool_chars, completed_field_chars, dec_chars, digit_char, digit_val, digits_val, esc_char,
    escaped_chars, four_digit_chars, id_field_chars, is_digit_char, lemma_char_int_inj,
    lemma_dec_chars_digits, lemma_digit_char_val, lemma_digits_canonical, lemma_digits_val_prefix,
    lemma_escaped_append,
    list_env_chars, post_env_chars, quoted_chars, todo_array_chars, todo_chars, todos_tail_chars,
    ts_chars, ts_field_chars, two_digit_chars, ResponsePostView, ResponseTodosView,
};

verus! {

// ---------------------------------------------------------------------------
// Prefix bookkeeping
// ---------------------------------------------------------------------------

/// If `a + b` is a prefix of `u`, then `a` is a prefix of `u` and `b` is a
/// prefix of what follows it.
pub proof fn lemma_prefix_split(u: Seq<char>, a: Seq<char>, b: Seq<char>)
    requires
        (a + b).is_prefix_of(u),
    ensures
        a.len() + b.len() <= u.len(),
        a.is_prefix_of(u),
        b.is_prefix_of(u.skip(a.len() as int)),
        u.subrange(0, a.len() as int) == a,
{
    assert((a + b) =~= u.subrange(0, a.len() as int + b.len() as int));
    assert(a =~= u.subrange(0, a.len() as int));
    assert forall|x: int| 0 <= x < b.len() implies u.skip(a.len() as int)[x] == b[x] by {
        assert(u.skip(a.len() as int)[x] == u[a.len() + x]);
        assert((a + b)[a.len() + x] == b[x]);
        assert(u.subrange(0, a.len() as int + b.len() as int)[a.len() + x] == u[a.len() + x]);
    }
    assert(b =~= u.skip(a.len() as int).subrange(0, b.len() as int));
}

/// A prefix of a suffix, restated over the underlying sequence's indices.
pub proof fn lemma_prefix_index(u: Seq<char>, a: Seq<char>, x: int)
    requires
        a.is_prefix_of(u),
        0 <= x < a.len(),
    ensures
        u[x] == a[x],
{
}

// ---------------------------------------------------------------------------
// Literals
// ---------------------------------------------------------------------------

/// Matches the literal `lit` at position `i`: returns the position after it
/// exactly when the input carries it there.
fn expect_lit(s: &str, i: usize, lit: &str) -> (r: Option<usize>)
    requires
        i <= s@.len(),
    ensures
        match r {
            Some(j) => j == i + lit@.len() && j <= s@.len() && s@.subrange(i as int, j as int)
                == lit@,
            None => !lit@.is_prefix_of(s@.skip(i as int)),
        },
{
    let n = s.unicode_len();
    let m = lit.unicode_len();
    if n - i < m {
        proof {
            assert(s@.skip(i as int).len() == n - i);
        }
        return None;
    }
    for k in 0..m
        invariant
            n == s@.len(),
            m == lit@.len(),
            i + m <= n,
            s@.subrange(i as int, i + k) == lit@.subrange(0, k as int),
    {
        let c = s.get_char(i + k);
        let d = lit.get_char(k);
        if c != d {
            proof {
                assert(!lit@.is_prefix_of(s@.skip(i as int))) by {
                    if lit@.is_prefix_of(s@.skip(i as int)) {
                        lemma_prefix_index(s@.skip(i as int), lit@, k as int);
                        assert(s@.skip(i as int)[k as int] == s@[i + k]);
                    }
                }
            }
            return None;
        }
        proof {
            assert(s@.subrange(i as int, i + k + 1) =~= s@.subrange(i as int, i + k).push(
                s@[i + k],
            ));
            assert(lit@.subrange(0, k + 1) =~= lit@.subrange(0, k as int).push(lit@[k as int]));
        }
    }
    proof {
        assert(lit@.subrange(0, m as int) =~= lit@);
    }
    Some(i + m)
}


/// The character length of a string.
fn s_len(s: &str) -> (n: usize)
    ensures
        n == s@.len(),
{
    s.unicode_len()
}

// ---------------------------------------------------------------------------
// Strings
// ---------------------------------------------------------------------------

/// Where the wire form of string `v` stands at the head of `u`, describes the
/// character found after `k` characters of `v` have been consumed.
proof fn lemma_quoted_at(u: Seq<char>, v: Seq<char>, k: int)
    requires
        quoted_chars(v).is_prefix_of(u),
        0 <= k <= v.len(),
    ensures
        2 + escaped_chars(v).len() <= u.len(),
        u[0] == '"',
        escaped_chars(v.take(k)).len() <= escaped_chars(v).len(),
        1 + escaped_chars(v.take(k)).len() < u.len(),
        k < v.len() && (v[k] == '"' || v[k] == '\\') ==> ({
            let p: int = 1 + escaped_chars(v.take(k)).len() as int;
            &&& u[p] == '\\'
            &&& p + 1 < u.len()
            &&& u[p + 1] == v[k]
            &&& escaped_chars(v.take(k)).len() + 2 <= escaped_chars(v).len()
        }),
        k < v.len() && !(v[k] == '"' || v[k] == '\\') ==> ({
            let p: int = 1 + escaped_chars(v.take(k)).len() as int;
            &&& u[p] == v[k]
            &&& escaped_chars(v.take(k)).len() + 1 <= escaped_chars(v).len()
        }),
        k == v.len() ==> u[1 + escaped_chars(v.take(k)).len() as int] == '"',
{
    let q = quoted_chars(v);
    assert(q.len() == 2 + escaped_chars(v).len());
    assert(v.take(k) + v.skip(k) =~= v);
    lemma_escaped_append(v.take(k), v.skip(k));
    let e1 = escaped_chars(v.take(k));
    let e2 = escaped_chars(v.skip(k));
    assert(escaped_chars(v) == e1 + e2);
    assert(u[0] == q[0]) by {
        lemma_prefix_index(u, q, 0);
    }
    if k < v.len() {
        assert(v.skip(k).len() > 0);
        assert(e2 == esc_char(v.skip(k)[0]) + escaped_chars(v.skip(k).skip(1)));
        assert(v.skip(k)[0] == v[k]);
        let p: int = 1 + e1.len() as int;
        assert(e2.len() >= esc_char(v[k]).len());
        if v[k] == '"' || v[k] == '\\' {
            assert(esc_char(v[k]).len() == 2);
            assert(p + 1 < q.len());
            assert(q[p] == (e1 + e2)[e1.len() as int]);
            assert(e2[0] == esc_char(v[k])[0]);
            assert(e2[1] == esc_char(v[k])[1]);
            lemma_prefix_index(u, q, p);
            lemma_prefix_index(u, q, p + 1);
        } else {
            assert(esc_char(v[k]).len() == 1);
            assert(p < q.len());
            assert(e2[0] == esc_char(v[k])[0]);
            lemma_prefix_index(u, q, p);
        }
    } else {
        assert(v.take(k) =~= v);
        assert(e2 =~= Seq::<char>::empty());
        let p: int = 1 + e1.len() as int;
        assert(q[p] == '"');
        lemma_prefix_index(u, q, p);
    }
}

/// Parses a quoted string at position `i`.
#[verifier::rlimit(100)]
fn parse_string(s: &str, i: usize) -> (r: Option<(String, usize)>)
    requires
        i <= s@.len(),
    ensures
        match r {
            Some(p) => i + 2 <= p.1 <= s@.len() && s@.subrange(i as int, p.1 as int)
                == quoted_chars(p.0@),
            None => true,
        },
        forall|v: Seq<char>| #[trigger] quoted_chars(v).is_prefix_of(s@.skip(i as int)) ==> (
        r matches Some(p) && p.0@ == v && p.1 == i + quoted_chars(v).len()),
{
    let ghost u: Seq<char> = s@.skip(i as int);
    let n = s.unicode_len();
    if i >= n {
        proof {
            assert forall|v: Seq<char>| #[trigger] quoted_chars(v).is_prefix_of(u) implies false by {
                lemma_quoted_at(u, v, 0);
            }
        }
        return None;
    }
    if s.get_char(i) != '"' {
        proof {
            assert forall|v: Seq<char>| #[trigger] quoted_chars(v).is_prefix_of(u) implies false by {
                lemma_quoted_at(u, v, 0);
                assert(u[0] == s@[i as int]);
            }
        }
        return None;
    }
    let mut acc = String::new();
    let mut j: usize = i + 1;
    loop
        invariant
            n == s@.len(),
            u == s@.skip(i as int),
            i < n,
            i + 1 <= j <= n,
            s@[i as int] == '"',
            s@.subrange(i as int + 1, j as int) == escaped_chars(acc@),
            forall|v: Seq<char>| #[trigger] quoted_chars(v).is_prefix_of(u) ==> acc@.len()
                <= v.len() && acc@ == v.take(acc@.len() as int),
        decreases n - j,
    {
        proof {
            assert(escaped_chars(acc@).len() == j - i - 1);
        }
        if j >= n {
            proof {
                assert forall|v: Seq<char>| #[trigger] quoted_chars(v).is_prefix_of(u)
                    implies false by {
                    let k = acc@.len() as int;
                    lemma_quoted_at(u, v, k);
                    assert(escaped_chars(v.take(k)) == escaped_chars(acc@));
                    assert(1 + escaped_chars(acc@).len() < u.len());
                    assert(u.len() == n - i);
                }
            }
            return None;
        }
        let c = s.get_char(j);
        proof {
            assert(c == u[j - i]) by {
                assert(u[j - i] == s@[j as int]);
            }
        }
        if c == '"' {
            proof {
                assert forall|v: Seq<char>| #[trigger] quoted_chars(v).is_prefix_of(u)
                    implies acc@ == v && j + 1 == i + quoted_chars(v).len() by {
                    let k = acc@.len() as int;
                    lemma_quoted_at(u, v, k);
                    assert(escaped_chars(v.take(k)) == escaped_chars(acc@));
                    if k < v.len() {
                        if v[k as int] == '"' || v[k as int] == '\\' {
                            assert(u[j - i] == '\\');
                        } else {
                            assert(u[j - i] == v[k as int]);
                        }
                        assert(false);
                    }
                    assert(v.take(k) =~= v);
                }
                assert(s@.subrange(i as int, j + 1) =~= quoted_chars(acc@)) by {
                    assert(quoted_chars(acc@) == seq!['"'] + escaped_chars(acc@) + seq!['"']);
                }
            }
            return Some((acc, j + 1));
        } else if c == '\\' {
            if j + 1 >= n {
                proof {
                    assert forall|v: Seq<char>| #[trigger] quoted_chars(v).is_prefix_of(u)
                        implies false by {
                        let k = acc@.len() as int;
                        lemma_quoted_at(u, v, k);
                        assert(escaped_chars(v.take(k)) == escaped_chars(acc@));
                        if k == v.len() {
                            assert(u[j - i] == '"');
                        } else if !(v[k as int] == '"' || v[k as int] == '\\') {
                            assert(u[j - i] == v[k as int]);
                            assert(v[k as int] == '\\');
                            assert(false);
                        } else {
                            assert((j - i) + 1 < u.len());
                            assert(u.len() == n - i);
                        }
                    }
                }
                return None;
            }
            let d = s.get_char(j + 1);
            proof {
                assert(d == u[j + 1 - i]) by {
                    assert(u[j + 1 - i] == s@[j + 1]);
                }
            }
            if d == '"' || d == '\\' {
                let ghost acc0: Seq<char> = acc@;
                acc.push(d);
                proof {
                    assert(acc@ == acc0.push(d));
                    assert(acc0.push(d) =~= acc0 + seq![d]);
                    lemma_escaped_append(acc0, seq![d]);
                    assert(escaped_chars(seq![d]) =~= esc_char(d)) by {
                        assert(seq![d].skip(1) =~= Seq::<char>::empty());
                        assert(escaped_chars(Seq::<char>::empty()) == Seq::<char>::empty());
                        assert(seq![d][0] == d);
                        assert(escaped_chars(seq![d]) == esc_char(d) + Seq::<char>::empty());
                    }
                    assert(esc_char(d) == seq!['\\', d]);
                    assert(s@.subrange(i as int + 1, j + 2) =~= escaped_chars(acc0) + seq![
                        '\\',
                        d,
                    ]) by {
                        assert(s@[j as int] == '\\');
                        assert(s@[j + 1] == d);
                    }
                    assert(s@.subrange(i as int + 1, j + 2) == escaped_chars(acc@));
                    assert forall|v: Seq<char>| #[trigger] quoted_chars(v).is_prefix_of(u)
                        implies acc@.len() <= v.len() && acc@ == v.take(acc@.len() as int) by {
                        let k = acc0.len() as int;
                        lemma_quoted_at(u, v, k);
                        assert(escaped_chars(v.take(k)) == escaped_chars(acc0));
                        if k == v.len() {
                            assert(u[j - i] == '"');
                            assert(false);
                        } else if !(v[k as int] == '"' || v[k as int] == '\\') {
                            assert(u[j - i] == v[k as int]);
                            assert(v[k as int] == '\\');
                            assert(false);
                        } else {
                            assert(u[j - i + 1] == v[k as int]);
                            assert(d == v[k as int]);
                            assert(v.take(k + 1) =~= v.take(k).push(v[k as int]));
                        }
                    }
                }
                j += 2;
            } else {
                proof {
                    assert forall|v: Seq<char>| #[trigger] quoted_chars(v).is_prefix_of(u)
                        implies false by {
                        let k = acc@.len() as int;
                        lemma_quoted_at(u, v, k);
                        assert(escaped_chars(v.take(k)) == escaped_chars(acc@));
                        if k == v.len() {
                            assert(u[j - i] == '"');
                        } else if !(v[k as int] == '"' || v[k as int] == '\\') {
                            assert(u[j - i] == v[k as int]);
                            assert(v[k as int] == '\\');
                            assert(false);
                        } else {
                            assert(u[j - i + 1] == v[k as int]);
                            assert(d == v[k as int]);
                            assert(false);
                        }
                    }
                }
                return None;
            }
        } else {
            let ghost acc0: Seq<char> = acc@;
            acc.push(c);
            proof {
                assert(acc@ == acc0.push(c));
                assert(acc0.push(c) =~= acc0 + seq![c]);
                lemma_escaped_append(acc0, seq![c]);
                assert(escaped_chars(seq![c]) =~= esc_char(c)) by {
                    assert(seq![c].skip(1) =~= Seq::<char>::empty());
                    assert(escaped_chars(Seq::<char>::empty()) == Seq::<char>::empty());
                    assert(seq![c][0] == c);
                    assert(escaped_chars(seq![c]) == esc_char(c) + Seq::<char>::empty());
                }
                assert(esc_char(c) == seq![c]);
                assert(s@.subrange(i as int + 1, j + 1) =~= escaped_chars(acc0) + seq![c]) by {
                    assert(s@[j as int] == c);
                }
                assert(s@.subrange(i as int + 1, j + 1) == escaped_chars(acc@));
                assert forall|v: Seq<char>| #[trigger] quoted_chars(v).is_prefix_of(u)
                    implies acc@.len() <= v.len() && acc@ == v.take(acc@.len() as int) by {
                    let k = acc0.len() as int;
                    lemma_quoted_at(u, v, k);
                    assert(escaped_chars(v.take(k)) == escaped_chars(acc0));
                    if k == v.len() {
                        assert(u[j - i] == '"');
                        assert(false);
                    } else if v[k as int] == '"' || v[k as int] == '\\' {
                        assert(u[j - i] == '\\');
                        assert(false);
                    } else {
                        assert(u[j - i] == v[k as int]);
                        assert(c == v[k as int]);
                        assert(v.take(k + 1) =~= v.take(k).push(v[k as int]));
                    }
                }
            }
            j += 1;
        }
    }
}

// ---------------------------------------------------------------------------
// Numbers
// ---------------------------------------------------------------------------

/// Parses an unsigned decimal number without leading zeros, greedily.
#[verifier::rlimit(100)]
fn parse_u32(s: &str, i: usize) -> (r: Option<(u32, usize)>)
    requires
        i <= s@.len(),
    ensures
        match r {
            Some(p) => i < p.1 <= s@.len() && s@.subrange(i as int, p.1 as int) == dec_chars(
                p.0 as int,
            ),
            None => true,
        },
        forall|m: u32|
            #[trigger] dec_chars(m as int).is_prefix_of(s@.skip(i as int)) && (s@.skip(
                i as int,
            ).len() == dec_chars(m as int).len() || !is_digit_char(
                s@.skip(i as int)[dec_chars(m as int).len() as int],
            )) ==> (r matches Some(p) && p.0 == m && p.1 == i + dec_chars(m as int).len()),
{
    let ghost u: Seq<char> = s@.skip(i as int);
    let n = s.unicode_len();
    if i >= n {
        proof {
            assert forall|m: u32| #[trigger] dec_chars(m as int).is_prefix_of(u) implies false by {
                lemma_dec_chars_digits(m as int);
            }
        }
        return None;
    }
    let c0 = s.get_char(i);
    let cv0 = c0 as u32;
    proof {
        assert(c0 == u[0]) by {
            assert(u[0] == s@[i as int]);
        }
    }
    if !(48 <= cv0 && cv0 <= 57) {
        proof {
            assert forall|m: u32| #[trigger] dec_chars(m as int).is_prefix_of(u) implies false by {
                lemma_dec_chars_digits(m as int);
                lemma_prefix_index(u, dec_chars(m as int), 0);
                assert(is_digit_char(dec_chars(m as int)[0]));
            }
        }
        return None;
    }
    if cv0 == 48 {
        proof {
            assert(c0 == '0') by {
                lemma_char_int_inj(c0, '0');
            }
            assert(s@.subrange(i as int, i + 1) =~= seq![c0]);
            assert(dec_chars(0) =~= seq![digit_char(0)]);
            assert(digit_char(0) == '0') by {
                lemma_char_int_inj(digit_char(0), '0');
            }
            assert forall|m: u32|
                #[trigger] dec_chars(m as int).is_prefix_of(u) && (u.len() == dec_chars(
                    m as int,
                ).len() || !is_digit_char(u[dec_chars(m as int).len() as int]))
                implies m == 0 && dec_chars(m as int).len() == 1 by {
                lemma_dec_chars_digits(m as int);
                lemma_prefix_index(u, dec_chars(m as int), 0);
                if m >= 1 {
                    assert(dec_chars(m as int)[0] != '0');
                    assert(u[0] == '0');
                }
            }
        }
        return Some((0, i + 1));
    }
    let mut acc: u32 = cv0 - 48;
    let mut j: usize = i + 1;
    proof {
        assert(s@.subrange(i as int, j as int) =~= seq![c0]);
        assert(seq![c0].drop_last() =~= Seq::<char>::empty());
        assert(digits_val(Seq::<char>::empty()) == 0);
        assert(digits_val(seq![c0]) == digit_val(c0));
        assert(is_digit_char(c0));
        assert(c0 != '0') by {
            if c0 == '0' {
                assert(c0 as int == 48);
            }
        }
        assert(all_digits(seq![c0]));
    }
    loop
        invariant
            n == s@.len(),
            u == s@.skip(i as int),
            i < j <= n,
            all_digits(s@.subrange(i as int, j as int)),
            s@.subrange(i as int, j as int)[0] != '0',
            digits_val(s@.subrange(i as int, j as int)) == acc,
            forall|m: u32|
                #[trigger] dec_chars(m as int).is_prefix_of(u) && (u.len() == dec_chars(
                    m as int,
                ).len() || !is_digit_char(u[dec_chars(m as int).len() as int])) ==> (j - i
                <= dec_chars(m as int).len() && s@.subrange(i as int, j as int) == dec_chars(
                m as int,
            ).take(j - i)),
        decreases n - j,
    {
        let ghost sub: Seq<char> = s@.subrange(i as int, j as int);
        proof {
            lemma_digits_canonical(sub);
        }
        let mut done: bool = false;
        let mut dv: u32 = 0;
        if j >= n {
            done = true;
        } else {
            let c = s.get_char(j);
            let cv = c as u32;
            proof {
                assert(c == u[j - i]) by {
                    assert(u[j - i] == s@[j as int]);
                }
            }
            if 48 <= cv && cv <= 57 {
                dv = cv - 48;
            } else {
                done = true;
            }
        }
        if done {
            proof {
                assert(dec_chars(acc as int) == sub);
                assert forall|m: u32|
                    #[trigger] dec_chars(m as int).is_prefix_of(u) && (u.len() == dec_chars(
                        m as int,
                    ).len() || !is_digit_char(u[dec_chars(m as int).len() as int]))
                    implies acc == m && j == i + dec_chars(m as int).len() by {
                    let dm = dec_chars(m as int);
                    lemma_dec_chars_digits(m as int);
                    if j - i < dm.len() {
                        lemma_prefix_index(u, dm, j - i);
                        assert(is_digit_char(dm[j - i]));
                        assert(i + dm.len() <= n) by {
                            assert(dm.len() <= u.len());
                        }
                        assert(j < n);
                        assert(!is_digit_char(u[j - i]));
                        assert(false);
                    }
                    assert(j - i == dm.len());
                    assert(sub =~= dm);
                    assert(digits_val(dm) == m as int);
                }
            }
            return Some((acc, j));
        }
        // one more digit: check that the value still fits
        proof {
            assert(is_digit_char(u[j - i]));
        }
        if acc > (0xffff_ffffu32 - dv) / 10 {
            proof {
                assert forall|m: u32|
                    #[trigger] dec_chars(m as int).is_prefix_of(u) && (u.len() == dec_chars(
                        m as int,
                    ).len() || !is_digit_char(u[dec_chars(m as int).len() as int]))
                    implies false by {
                    let dm = dec_chars(m as int);
                    lemma_dec_chars_digits(m as int);
                    assert(j - i < dm.len()) by {
                        if j - i == dm.len() {
                            assert(u.len() == dm.len() || !is_digit_char(u[dm.len() as int]));
                            assert(u.len() > dm.len()) by {
                                assert(j < n);
                                assert(u.len() == n - i);
                            }
                            assert(!is_digit_char(u[j - i]));
                        }
                    }
                    lemma_digits_val_prefix(dm, j - i + 1);
                    assert(all_digits(dm));
                    assert(dm.take(j - i + 1).drop_last() =~= dm.take(j - i));
                    assert(dm.take(j - i + 1).last() == dm[j - i]);
                    assert(digits_val(dm.take(j - i + 1)) == digits_val(dm.take(j - i)) * 10
                        + digit_val(dm[j - i]));
                    assert(dm[j - i] == u[j - i]) by {
                        lemma_prefix_index(u, dm, j - i);
                    }
                    assert(digit_val(u[j - i]) == dv as int);
                    assert(digits_val(dm.take(j - i)) == acc as int);
                    assert(digits_val(dm) == m as int);
                    assert(acc as int * 10 + dv as int <= m as int);
                    assert(acc as int <= ((0xffff_ffffu32 as int) - dv) / 10) by (nonlinear_arith)
                        requires
                            acc as int * 10 + dv as int <= 0xffff_ffffu32 as int,
                            0 <= dv < 10,
                            acc >= 0,
                    ;
                }
            }
            return None;
        }
        proof {
            assert(acc as int * 10 + dv as int <= 0xffff_ffffu32 as int) by (nonlinear_arith)
                requires
                    0 <= acc as int <= ((0xffff_ffffu32 as int) - dv as int) / 10,
                    0 <= dv < 10,
            ;
        }
        acc = acc * 10 + dv;
        j += 1;
        proof {
            let sub2 = s@.subrange(i as int, j as int);
            assert(sub2.drop_last() =~= sub);
            assert(sub2.last() == s@[j - 1]);
            assert(s@[j - 1] == u[j - 1 - i]);
            assert(digit_val(u[j - 1 - i]) == dv as int);
            assert(digits_val(sub2) == digits_val(sub) * 10 + dv as int);
            assert(all_digits(sub2)) by {
                assert(forall|x: int| 0 <= x < sub.len() ==> sub2[x] == sub[x]);
                assert(is_digit_char(sub2[sub.len() as int]));
            }
            assert(sub2[0] == sub[0]);
            assert forall|m: u32|
                #[trigger] dec_chars(m as int).is_prefix_of(u) && (u.len() == dec_chars(
                    m as int,
                ).len() || !is_digit_char(u[dec_chars(m as int).len() as int]))
                implies j - i <= dec_chars(m as int).len() && sub2 == dec_chars(m as int).take(
                j - i,
            ) by {
                let dm = dec_chars(m as int);
                lemma_dec_chars_digits(m as int);
                assert(j - 1 - i <= dm.len());
                assert(sub == dm.take(j - 1 - i));
                assert(j - 1 - i < dm.len()) by {
                    if j - 1 - i == dm.len() {
                        assert(u.len() > dm.len()) by {
                            assert(j - 1 < n);
                            assert(u.len() == n - i);
                        }
                        assert(!is_digit_char(u[j - 1 - i]));
                    }
                }
                assert(dm[j - 1 - i] == u[j - 1 - i]) by {
                    lemma_prefix_index(u, dm, j - 1 - i);
                }
                assert(dm.take(j - i) =~= dm.take(j - 1 - i).push(dm[j - 1 - i]));
                assert(sub2 =~= sub.push(u[j - 1 - i]));
            }
        }
    }
}

// ---------------------------------------------------------------------------
// Fixed-width numbers and timestamps
// ---------------------------------------------------------------------------

/// Parses exactly two digit characters.
fn parse_2d(s: &str, i: usize) -> (r: Option<u8>)
    requires
        i + 2 <= s@.len(),
    ensures
        match r {
            Some(v) => v < 100 && s@.subrange(i as int, i + 2) == two_digit_chars(v as int),
            None => !(is_digit_char(s@[i as int]) && is_digit_char(s@[i + 1])),
        },
        forall|m: int| 0 <= m < 100 && #[trigger] two_digit_chars(m).is_prefix_of(s@.skip(i as int))
            ==> (r matches Some(v) && v as int == m),
{
    let n = s.unicode_len();
    let c0 = s.get_char(i);
    let c1 = s.get_char(i + 1);
    let v0 = c0 as u32;
    let v1 = c1 as u32;
    if !(48 <= v0 && v0 <= 57 && 48 <= v1 && v1 <= 57) {
        proof {
            assert forall|m: int|
                0 <= m < 100 && #[trigger] two_digit_chars(m).is_prefix_of(s@.skip(i as int))
                implies false by {
                lemma_prefix_index(s@.skip(i as int), two_digit_chars(m), 0);
                lemma_prefix_index(s@.skip(i as int), two_digit_chars(m), 1);
                assert(s@.skip(i as int)[0] == s@[i as int]);
                assert(s@.skip(i as int)[1] == s@[i + 1]);
                lemma_digit_char_val(m / 10 % 10);
                lemma_digit_char_val(m % 10);
            }
        }
        return None;
    }
    let v: u8 = ((v0 - 48) * 10 + (v1 - 48)) as u8;
    proof {
        let d0 = digit_val(c0);
        let d1 = digit_val(c1);
        assert(v as int == d0 * 10 + d1);
        assert(v < 100);
        assert(v as int / 10 % 10 == d0 && v as int % 10 == d1) by (nonlinear_arith)
            requires
                v as int == d0 * 10 + d1,
                0 <= d0 < 10,
                0 <= d1 < 10,
        ;
        assert(digit_char(v as int / 10 % 10) == c0) by {
            lemma_char_int_inj(digit_char(d0), c0);
        }
        assert(digit_char(v as int % 10) == c1) by {
            lemma_char_int_inj(digit_char(d1), c1);
        }
        assert(s@.subrange(i as int, i + 2) =~= two_digit_chars(v as int));
        assert forall|m: int|
            0 <= m < 100 && #[trigger] two_digit_chars(m).is_prefix_of(s@.skip(i as int))
            implies v as int == m by {
            lemma_prefix_index(s@.skip(i as int), two_digit_chars(m), 0);
            lemma_prefix_index(s@.skip(i as int), two_digit_chars(m), 1);
            assert(s@.skip(i as int)[0] == s@[i as int]);
            assert(s@.skip(i as int)[1] == s@[i + 1]);
            lemma_digit_char_val(m / 10 % 10);
            lemma_digit_char_val(m % 10);
            assert(d0 == m / 10 % 10) by {
                assert(digit_val(digit_char(m / 10 % 10)) == m / 10 % 10);
            }
            assert(d1 == m % 10);
            assert(m / 10 % 10 * 10 + m % 10 == m) by (nonlinear_arith)
                requires 0 <= m < 100;
        }
    }
    Some(v)
}

/// Parses exactly four digit characters.
fn parse_4d(s: &str, i: usize) -> (r: Option<u16>)
    requires
        i + 4 <= s@.len(),
    ensures
        match r {
            Some(v) => v < 10000 && s@.subrange(i as int, i + 4) == four_digit_chars(v as int),
            None => true,
        },
        forall|m: int|
            0 <= m < 10000 && #[trigger] four_digit_chars(m).is_prefix_of(s@.skip(i as int)) ==> (
            r matches Some(v) && v as int == m),
{
    let n = s.unicode_len();
    let c0 = s.get_char(i);
    let c1 = s.get_char(i + 1);
    let c2 = s.get_char(i + 2);
    let c3 = s.get_char(i + 3);
    let v0 = c0 as u32;
    let v1 = c1 as u32;
    let v2 = c2 as u32;
    let v3 = c3 as u32;
    if !(48 <= v0 && v0 <= 57 && 48 <= v1 && v1 <= 57 && 48 <= v2 && v2 <= 57 && 48 <= v3 && v3
        <= 57) {
        proof {
            assert forall|m: int|
                0 <= m < 10000 && #[trigger] four_digit_chars(m).is_prefix_of(s@.skip(i as int))
                implies false by {
                lemma_prefix_index(s@.skip(i as int), four_digit_chars(m), 0);
                lemma_prefix_index(s@.skip(i as int), four_digit_chars(m), 1);
                lemma_prefix_index(s@.skip(i as int), four_digit_chars(m), 2);
                lemma_prefix_index(s@.skip(i as int), four_digit_chars(m), 3);
                assert(s@.skip(i as int)[0] == s@[i as int]);
                assert(s@.skip(i as int)[1] == s@[i + 1]);
                assert(s@.skip(i as int)[2] == s@[i + 2]);
                assert(s@.skip(i as int)[3] == s@[i + 3]);
                lemma_digit_char_val(m / 1000 % 10);
                lemma_digit_char_val(m / 100 % 10);
                lemma_digit_char_val(m / 10 % 10);
                lemma_digit_char_val(m % 10);
            }
        }
        return None;
    }
    let v: u16 = (((v0 - 48) * 1000) + ((v1 - 48) * 100) + ((v2 - 48) * 10) + (v3 - 48)) as u16;
    proof {
        let d0 = digit_val(c0);
        let d1 = digit_val(c1);
        let d2 = digit_val(c2);
        let d3 = digit_val(c3);
        assert(v as int == d0 * 1000 + d1 * 100 + d2 * 10 + d3);
        assert(v < 10000);
        assert(v as int / 1000 % 10 == d0 && v as int / 100 % 10 == d1 && v as int / 10 % 10 == d2
            && v as int % 10 == d3) by (nonlinear_arith)
            requires
                v as int == d0 * 1000 + d1 * 100 + d2 * 10 + d3,
                0 <= d0 < 10,
                0 <= d1 < 10,
                0 <= d2 < 10,
                0 <= d3 < 10,
        ;
        assert(digit_char(v as int / 1000 % 10) == c0) by {
            lemma_char_int_inj(digit_char(d0), c0);
        }
        assert(digit_char(v as int / 100 % 10) == c1) by {
            lemma_char_int_inj(digit_char(d1), c1);
        }
        assert(digit_char(v as int / 10 % 10) == c2) by {
            lemma_char_int_inj(digit_char(d2), c2);
        }
        assert(digit_char(v as int % 10) == c3) by {
            lemma_char_int_inj(digit_char(d3), c3);
        }
        assert(s@.subrange(i as int, i + 4) =~= four_digit_chars(v as int));
        assert forall|m: int|
            0 <= m < 10000 && #[trigger] four_digit_chars(m).is_prefix_of(s@.skip(i as int))
            implies v as int == m by {
            lemma_prefix_index(s@.skip(i as int), four_digit_chars(m), 0);
            lemma_prefix_index(s@.skip(i as int), four_digit_chars(m), 1);
            lemma_prefix_index(s@.skip(i as int), four_digit_chars(m), 2);
            lemma_prefix_index(s@.skip(i as int), four_digit_chars(m), 3);
            assert(s@.skip(i as int)[0] == s@[i as int]);
            assert(s@.skip(i as int)[1] == s@[i + 1]);
            assert(s@.skip(i as int)[2] == s@[i + 2]);
            assert(s@.skip(i as int)[3] == s@[i + 3]);
            lemma_digit_char_val(m / 1000 % 10);
            lemma_digit_char_val(m / 100 % 10);
            lemma_digit_char_val(m / 10 % 10);
            lemma_digit_char_val(m % 10);
            assert(d0 == m / 1000 % 10 && d1 == m / 100 % 10 && d2 == m / 10 % 10 && d3 == m % 10);
            assert(m / 1000 % 10 * 1000 + m / 100 % 10 * 100 + m / 10 % 10 * 10 + m % 10 == m)
                by (nonlinear_arith)
                requires 0 <= m < 10000;
        }
    }
    Some(v)
}

/// The wire form of a timestamp is 20 characters long.
proof fn lemma_ts_len(t: Timestamp)
    ensures
        ts_chars(t).len() == 20,
{
}

/// Where the wire form of timestamp `t` stands at the head of `u`, locates
/// each of its pieces.
proof fn lemma_ts_layout(u: Seq<char>, t: Timestamp)
    requires
        ts_chars(t).is_prefix_of(u),
    ensures
        20 <= u.len(),
        four_digit_chars(t.year as int).is_prefix_of(u),
        u[4] == '-',
        two_digit_chars(t.month as int).is_prefix_of(u.skip(5)),
        u[7] == '-',
        two_digit_chars(t.day as int).is_prefix_of(u.skip(8)),
        u[10] == 'T',
        two_digit_chars(t.hour as int).is_prefix_of(u.skip(11)),
        u[13] == ':',
        two_digit_chars(t.minute as int).is_prefix_of(u.skip(14)),
        u[16] == ':',
        two_digit_chars(t.second as int).is_prefix_of(u.skip(17)),
        u[19] == 'Z',
{
    let p = ts_chars(t);
    lemma_ts_len(t);
    assert forall|x: int| 0 <= x < 20 implies u[x] == p[x] by {
        lemma_prefix_index(u, p, x);
    }
    assert(four_digit_chars(t.year as int).is_prefix_of(u)) by {
        assert(four_digit_chars(t.year as int) =~= u.subrange(0, 4));
    }
    assert(two_digit_chars(t.month as int).is_prefix_of(u.skip(5))) by {
        assert(two_digit_chars(t.month as int) =~= u.skip(5).subrange(0, 2));
    }
    assert(two_digit_chars(t.day as int).is_prefix_of(u.skip(8))) by {
        assert(two_digit_chars(t.day as int) =~= u.skip(8).subrange(0, 2));
    }
    assert(two_digit_chars(t.hour as int).is_prefix_of(u.skip(11))) by {
        assert(two_digit_chars(t.hour as int) =~= u.skip(11).subrange(0, 2));
    }
    assert(two_digit_chars(t.minute as int).is_prefix_of(u.skip(14))) by {
        assert(two_digit_chars(t.minute as int) =~= u.skip(14).subrange(0, 2));
    }
    assert(two_digit_chars(t.second as int).is_prefix_of(u.skip(17))) by {
        assert(two_digit_chars(t.second as int) =~= u.skip(17).subrange(0, 2));
    }
}

/// Assembles a timestamp's wire form from its parsed pieces.
#[verifier::rlimit(100)]
proof fn lemma_ts_assemble(s: Seq<char>, i: int, t: Timestamp)
    requires
        0 <= i,
        i + 20 <= s.len(),
        s.subrange(i, i + 4) == four_digit_chars(t.year as int),
        s[i + 4] == '-',
        s.subrange(i + 5, i + 7) == two_digit_chars(t.month as int),
        s[i + 7] == '-',
        s.subrange(i + 8, i + 10) == two_digit_chars(t.day as int),
        s[i + 10] == 'T',
        s.subrange(i + 11, i + 13) == two_digit_chars(t.hour as int),
        s[i + 13] == ':',
        s.subrange(i + 14, i + 16) == two_digit_chars(t.minute as int),
        s[i + 16] == ':',
        s.subrange(i + 17, i + 19) == two_digit_chars(t.second as int),
        s[i + 19] == 'Z',
    ensures
        s.subrange(i, i + 20) == ts_chars(t),
{
    assert(s.subrange(i, i + 20) =~= ts_chars(t));
}

/// Parses an RFC-3339 UTC instant, 20 characters.
#[verifier::rlimit(100)]
fn parse_ts(s: &str, i: usize) -> (r: Option<(Timestamp, usize)>)
    requires
        i <= s@.len(),
    ensures
        match r {
            Some(p) => i + 20 <= s@.len() && p.1 == i + 20 && p.0.wf() && s@.subrange(
                i as int,
                i + 20,
            ) == ts_chars(p.0),
            None => true,
        },
        forall|t: Timestamp| t.wf() && #[trigger] ts_chars(t).is_prefix_of(s@.skip(i as int)) ==> (
        r matches Some(p) && p.0 == t && p.1 == i + 20),
{
    let ghost u: Seq<char> = s@.skip(i as int);
    let n = s.unicode_len();
    if n - i < 20 {
        proof {
            assert forall|t: Timestamp| t.wf() && #[trigger] ts_chars(t).is_prefix_of(u)
                implies false by {
                lemma_ts_len(t);
                assert(u.len() == n - i);
            }
        }
        return None;
    }
    proof {
        assert forall|x: int| 0 <= x < 20 implies u[x] == s@[i + x] by {
        }
    }
    let year = match parse_4d(s, i) {
        Some(v) => v,
        None => {
            proof {
                assert forall|t: Timestamp| t.wf() && #[trigger] ts_chars(t).is_prefix_of(u)
                    implies false by {
                    lemma_ts_layout(u, t);
                }
            }
            return None;
        },
    };
    let ghost layout_ok: bool = true;
    let s1 = s.get_char(i + 4);
    let s2 = s.get_char(i + 7);
    let s3 = s.get_char(i + 10);
    let s4 = s.get_char(i + 13);
    let s5 = s.get_char(i + 16);
    let s6 = s.get_char(i + 19);
    if !(s1 == '-' && s2 == '-' && s3 == 'T' && s4 == ':' && s5 == ':' && s6 == 'Z') {
        proof {
            assert forall|t: Timestamp| t.wf() && #[trigger] ts_chars(t).is_prefix_of(u)
                implies false by {
                lemma_ts_layout(u, t);
            }
        }
        return None;
    }
    let month = match parse_2d(s, i + 5) {
        Some(v) => v,
        None => {
            proof {
                assert forall|t: Timestamp| t.wf() && #[trigger] ts_chars(t).is_prefix_of(u)
                    implies false by {
                    lemma_ts_layout(u, t);
                    assert(u.skip(5) == s@.skip(i + 5));
                    lemma_prefix_index(s@.skip(i + 5), two_digit_chars(t.month as int), 0);
                    lemma_prefix_index(s@.skip(i + 5), two_digit_chars(t.month as int), 1);
                    lemma_digit_char_val(t.month as int / 10 % 10);
                    lemma_digit_char_val(t.month as int % 10);
                    assert(s@.skip(i + 5)[0] == s@[i + 5]);
                    assert(s@.skip(i + 5)[1] == s@[i + 6]);
                }
            }
            return None;
        },
    };
    let day = match parse_2d(s, i + 8) {
        Some(v) => v,
        None => {
            proof {
                assert forall|t: Timestamp| t.wf() && #[trigger] ts_chars(t).is_prefix_of(u)
                    implies false by {
                    lemma_ts_layout(u, t);
                    assert(u.skip(8) == s@.skip(i + 8));
                    lemma_prefix_index(s@.skip(i + 8), two_digit_chars(t.day as int), 0);
                    lemma_prefix_index(s@.skip(i + 8), two_digit_chars(t.day as int), 1);
                    lemma_digit_char_val(t.day as int / 10 % 10);
                    lemma_digit_char_val(t.day as int % 10);
                    assert(s@.skip(i + 8)[0] == s@[i + 8]);
                    assert(s@.skip(i + 8)[1] == s@[i + 9]);
                }
            }
            return None;
        },
    };
    let hour = match parse_2d(s, i + 11) {
        Some(v) => v,
        None => {
            proof {
                assert forall|t: Timestamp| t.wf() && #[trigger] ts_chars(t).is_prefix_of(u)
                    implies false by {
                    lemma_ts_layout(u, t);
                    assert(u.skip(11) == s@.skip(i + 11));
                    lemma_prefix_index(s@.skip(i + 11), two_digit_chars(t.hour as int), 0);
                    lemma_prefix_index(s@.skip(i + 11), two_digit_chars(t.hour as int), 1);
                    lemma_digit_char_val(t.hour as int / 10 % 10);
                    lemma_digit_char_val(t.hour as int % 10);
                    assert(s@.skip(i + 11)[0] == s@[i + 11]);
                    assert(s@.skip(i + 11)[1] == s@[i + 12]);
                }
            }
            return None;
        },
    };
    let minute = match parse_2d(s, i + 14) {
        Some(v) => v,
        None => {
            proof {
                assert forall|t: Timestamp| t.wf() && #[trigger] ts_chars(t).is_prefix_of(u)
                    implies false by {
                    lemma_ts_layout(u, t);
                    assert(u.skip(14) == s@.skip(i + 14));
                    lemma_prefix_index(s@.skip(i + 14), two_digit_chars(t.minute as int), 0);
                    lemma_prefix_index(s@.skip(i + 14), two_digit_chars(t.minute as int), 1);
                    lemma_digit_char_val(t.minute as int / 10 % 10);
                    lemma_digit_char_val(t.minute as int % 10);
                    assert(s@.skip(i + 14)[0] == s@[i + 14]);
                    assert(s@.skip(i + 14)[1] == s@[i + 15]);
                }
            }
            return None;
        },
    };
    let second = match parse_2d(s, i + 17) {
        Some(v) => v,
        None => {
            proof {
                assert forall|t: Timestamp| t.wf() && #[trigger] ts_chars(t).is_prefix_of(u)
                    implies false by {
                    lemma_ts_layout(u, t);
                    assert(u.skip(17) == s@.skip(i + 17));
                    lemma_prefix_index(s@.skip(i + 17), two_digit_chars(t.second as int), 0);
                    lemma_prefix_index(s@.skip(i + 17), two_digit_chars(t.second as int), 1);
                    lemma_digit_char_val(t.second as int / 10 % 10);
                    lemma_digit_char_val(t.second as int % 10);
                    assert(s@.skip(i + 17)[0] == s@[i + 17]);
                    assert(s@.skip(i + 17)[1] == s@[i + 18]);
                }
            }
            return None;
        },
    };
    let ts = Timestamp { year, month, day, hour, minute, second };
    if !ts.is_wf() {
        proof {
            assert forall|t: Timestamp| t.wf() && #[trigger] ts_chars(t).is_prefix_of(u)
                implies false by {
                lemma_ts_layout(u, t);
                assert(u.skip(5) == s@.skip(i + 5));
                assert(u.skip(8) == s@.skip(i + 8));
                assert(u.skip(11) == s@.skip(i + 11));
                assert(u.skip(14) == s@.skip(i + 14));
                assert(u.skip(17) == s@.skip(i + 17));
                assert(year == t.year && month == t.month && day == t.day && hour == t.hour
                    && minute == t.minute && second == t.second);
                assert(ts == t);
            }
        }
        return None;
    }
    proof {
        lemma_ts_assemble(s@, i as int, ts);
        assert forall|t: Timestamp| t.wf() && #[trigger] ts_chars(t).is_prefix_of(u)
            implies ts == t by {
            lemma_ts_layout(u, t);
            assert(u.skip(5) == s@.skip(i + 5));
            assert(u.skip(8) == s@.skip(i + 8));
            assert(u.skip(11) == s@.skip(i + 11));
            assert(u.skip(14) == s@.skip(i + 14));
            assert(u.skip(17) == s@.skip(i + 17));
            assert(year == t.year && month == t.month && day == t.day && hour == t.hour && minute
                == t.minute && second == t.second);
        }
    }
    Some((ts, i + 20))
}

// ---------------------------------------------------------------------------
// Todo objects
// ---------------------------------------------------------------------------

/// The mathematical value of an optional string.
pub open spec fn opt_str_view(o: Option<String>) -> Option<Seq<char>> {
    match o {
        Some(v) => Some(v@),
        None => None,
    }
}

/// Adjacent subranges concatenate.
proof fn lemma_subrange_cat(s: Seq<char>, a: int, b: int, c: int)
    requires
        0 <= a <= b <= c <= s.len(),
    ensures
        s.subrange(a, c) == s.subrange(a, b) + s.subrange(b, c),
{
    assert(s.subrange(a, c) =~= s.subrange(a, b) + s.subrange(b, c));
}

/// Parses the optional `id` member, which the `"title"` key always follows.
#[verifier::rlimit(100)]
fn parse_id_field(s: &str, i: usize) -> (r: Option<(Option<String>, usize)>)
    requires
        i <= s@.len(),
    ensures
        match r {
            Some(p) => i <= p.1 <= s@.len() && s@.subrange(i as int, p.1 as int)
                == id_field_chars(opt_str_view(p.0)),
            None => true,
        },
        forall|o: Option<Seq<char>>|
            #[trigger] (id_field_chars(o) + ("\"title\":")@).is_prefix_of(s@.skip(i as int)) ==> (
            r matches Some(p) && opt_str_view(p.0) == o && p.1 == i + id_field_chars(o).len()),
{
    let ghost u: Seq<char> = s@.skip(i as int);
    match expect_lit(s, i, "\"id\":") {
        Some(j1) => {
            match parse_string(s, j1) {
                Some((v, j2)) => {
                    match expect_lit(s, j2, ",") {
                        Some(j3) => {
                            proof {
                                lemma_subrange_cat(s@, i as int, j1 as int, j2 as int);
                                lemma_subrange_cat(s@, i as int, j2 as int, j3 as int);
                                assert(s@.subrange(i as int, j3 as int) == (("\"id\":")@
                                    + quoted_chars(v@)) + (",")@);
                                assert forall|o: Option<Seq<char>>|
                                    #[trigger] (id_field_chars(o) + ("\"title\":")@).is_prefix_of(
                                        u,
                                    ) implies (opt_str_view(Some(v)) == o && j3 == i
                                    + id_field_chars(o).len()) by {
                                    lemma_prefix_split(u, id_field_chars(o), ("\"title\":")@);
                                    match o {
                                        Some(w) => {
                                            lemma_prefix_split(
                                                u,
                                                ("\"id\":")@ + quoted_chars(w),
                                                (",")@,
                                            );
                                            lemma_prefix_split(u, ("\"id\":")@, quoted_chars(w));
                                            assert(u.skip(("\"id\":")@.len() as int) == s@.skip(
                                                j1 as int,
                                            ));
                                            assert(v@ == w && j2 == j1 + quoted_chars(w).len());
                                        },
                                        None => {
                                            reveal_strlit("\"id\":");
                                            reveal_strlit("\"title\":");
                                            assert(id_field_chars(o) + ("\"title\":")@
                                                =~= ("\"title\":")@);
                                            assert(("\"title\":")@.is_prefix_of(u));
                                            lemma_prefix_index(u, ("\"title\":")@, 1);
                                            assert(u[1] == s@[i + 1]);
                                            assert(s@.subrange(i as int, j1 as int)[1] == s@[
                                                i + 1
                                            ]);
                                            assert(false);
                                        },
                                    }
                                }
                            }
                            Some((Some(v), j3))
                        },
                        None => {
                            proof {
                                assert forall|o: Option<Seq<char>>|
                                    #[trigger] (id_field_chars(o) + ("\"title\":")@).is_prefix_of(
                                        u,
                                    ) implies false by {
                                    lemma_prefix_split(u, id_field_chars(o), ("\"title\":")@);
                                    match o {
                                        Some(w) => {
                                            lemma_prefix_split(
                                                u,
                                                ("\"id\":")@ + quoted_chars(w),
                                                (",")@,
                                            );
                                            lemma_prefix_split(u, ("\"id\":")@, quoted_chars(w));
                                            assert(u.skip(("\"id\":")@.len() as int) == s@.skip(
                                                j1 as int,
                                            ));
                                            assert(v@ == w && j2 == j1 + quoted_chars(w).len());
                                            assert(u.skip(
                                                ("\"id\":")@.len() + quoted_chars(w).len() as int,
                                            ) == s@.skip(j2 as int));
                                            assert((",")@.is_prefix_of(s@.skip(j2 as int)));
                                        },
                                        None => {
                                            reveal_strlit("\"id\":");
                                            reveal_strlit("\"title\":");
                                            assert(id_field_chars(o) + ("\"title\":")@
                                                =~= ("\"title\":")@);
                                            assert(("\"title\":")@.is_prefix_of(u));
                                            lemma_prefix_index(u, ("\"title\":")@, 1);
                                            assert(u[1] == s@[i + 1]);
                                            assert(s@.subrange(i as int, j1 as int)[1] == s@[
                                                i + 1
                                            ]);
                                            assert(false);
                                        },
                                    }
                                }
                            }
                            None
                        },
                    }
                },
                None => {
                    proof {
                        assert forall|o: Option<Seq<char>>|
                            #[trigger] (id_field_chars(o) + ("\"title\":")@).is_prefix_of(u)
                            implies false by {
                            lemma_prefix_split(u, id_field_chars(o), ("\"title\":")@);
                            match o {
                                Some(w) => {
                                    lemma_prefix_split(u, ("\"id\":")@ + quoted_chars(w), (",")@);
                                    lemma_prefix_split(u, ("\"id\":")@, quoted_chars(w));
                                    assert(u.skip(("\"id\":")@.len() as int) == s@.skip(
                                        j1 as int,
                                    ));
                                    assert(quoted_chars(w).is_prefix_of(s@.skip(j1 as int)));
                                },
                                None => {
                                    reveal_strlit("\"id\":");
                                    reveal_strlit("\"title\":");
                                    assert(id_field_chars(o) + ("\"title\":")@ =~= ("\"title\":")@);
                                    assert(("\"title\":")@.is_prefix_of(u));
                                    lemma_prefix_index(u, ("\"title\":")@, 1);
                                    assert(u[1] == s@[i + 1]);
                                    assert(s@.subrange(i as int, j1 as int)[1] == s@[i + 1]);
                                    assert(false);
                                },
                            }
                        }
                    }
                    None
                },
            }
        },
        None => {
            proof {
                assert(s@.subrange(i as int, i as int) =~= id_field_chars(opt_str_view(None)));
                assert forall|o: Option<Seq<char>>|
                    #[trigger] (id_field_chars(o) + ("\"title\":")@).is_prefix_of(u)
                    implies (opt_str_view(None) == o && i == i + id_field_chars(o).len()) by {
                    lemma_prefix_split(u, id_field_chars(o), ("\"title\":")@);
                    match o {
                        Some(w) => {
                            lemma_prefix_split(u, ("\"id\":")@ + quoted_chars(w), (",")@);
                            lemma_prefix_split(u, ("\"id\":")@, quoted_chars(w));
                            assert(("\"id\":")@.is_prefix_of(u));
                            assert(false);
                        },
                        None => {},
                    }
                }
            }
            Some((None, i))
        },
    }
}

/// Where the `createdAt` key stands, the `completed` key does not.
proof fn lemma_created_excl_completed(s: Seq<char>, q: int)
    requires
        0 <= q <= s.len(),
        (",\"createdAt\":\"")@.is_prefix_of(s.skip(q)),
    ensures
        !(",\"completed\":")@.is_prefix_of(s.skip(q)),
{
    reveal_strlit(",\"completed\":");
    reveal_strlit(",\"createdAt\":\"");
    if (",\"completed\":")@.is_prefix_of(s.skip(q)) {
        lemma_prefix_index(s.skip(q), (",\"completed\":")@, 3);
        lemma_prefix_index(s.skip(q), (",\"createdAt\":\"")@, 3);
        assert(false);
    }
}

/// Where the `updatedAt` key stands, neither of the other two keys does.
proof fn lemma_updated_excl_others(s: Seq<char>, q: int)
    requires
        0 <= q <= s.len(),
        (",\"updatedAt\":\"")@.is_prefix_of(s.skip(q)),
    ensures
        !(",\"completed\":")@.is_prefix_of(s.skip(q)),
        !(",\"createdAt\":\"")@.is_prefix_of(s.skip(q)),
{
    reveal_strlit(",\"completed\":");
    reveal_strlit(",\"createdAt\":\"");
    reveal_strlit(",\"updatedAt\":\"");
    if (",\"completed\":")@.is_prefix_of(s.skip(q)) {
        lemma_prefix_index(s.skip(q), (",\"completed\":")@, 2);
        lemma_prefix_index(s.skip(q), (",\"updatedAt\":\"")@, 2);
        assert(false);
    }
    if (",\"createdAt\":\"")@.is_prefix_of(s.skip(q)) {
        lemma_prefix_index(s.skip(q), (",\"createdAt\":\"")@, 2);
        lemma_prefix_index(s.skip(q), (",\"updatedAt\":\"")@, 2);
        assert(false);
    }
}

/// Where the object closes, no trailing key stands.
proof fn lemma_brace_excl_keys(s: Seq<char>, q: int)
    requires
        0 <= q <= s.len(),
        ("}")@.is_prefix_of(s.skip(q)),
    ensures
        !(",\"completed\":")@.is_prefix_of(s.skip(q)),
        !(",\"createdAt\":\"")@.is_prefix_of(s.skip(q)),
        !(",\"updatedAt\":\"")@.is_prefix_of(s.skip(q)),
{
    reveal_strlit(",\"completed\":");
    reveal_strlit(",\"createdAt\":\"");
    reveal_strlit(",\"updatedAt\":\"");
    reveal_strlit("}");
    if (",\"completed\":")@.is_prefix_of(s.skip(q)) {
        lemma_prefix_index(s.skip(q), (",\"completed\":")@, 0);
        lemma_prefix_index(s.skip(q), ("}")@, 0);
        assert(false);
    }
    if (",\"createdAt\":\"")@.is_prefix_of(s.skip(q)) {
        lemma_prefix_index(s.skip(q), (",\"createdAt\":\"")@, 0);
        lemma_prefix_index(s.skip(q), ("}")@, 0);
        assert(false);
    }
    if (",\"updatedAt\":\"")@.is_prefix_of(s.skip(q)) {
        lemma_prefix_index(s.skip(q), (",\"updatedAt\":\"")@, 0);
        lemma_prefix_index(s.skip(q), ("}")@, 0);
        assert(false);
    }
}

/// No trailing key of a todo object stands where the canonical form places
/// the chunk that follows the `completed` member.
proof fn lemma_after_completed(
    s: Seq<char>,
    q: int,
    cr: Option<Timestamp>,
    up: Option<Timestamp>,
)
    requires
        0 <= q <= s.len(),
        (ts_field_chars((",\"createdAt\":\"")@, cr) + (ts_field_chars((",\"updatedAt\":\"")@, up)
            + ("}")@)).is_prefix_of(s.skip(q)),
    ensures
        !(",\"completed\":")@.is_prefix_of(s.skip(q)),
        cr is None ==> !(",\"createdAt\":\"")@.is_prefix_of(s.skip(q)),
        cr is Some ==> (",\"createdAt\":\"")@.is_prefix_of(s.skip(q)),
    decreases 0int,
{
    match cr {
        Some(t) => {
            assert(ts_field_chars((",\"createdAt\":\"")@, cr) =~= ((",\"createdAt\":\"")@
                + ts_chars(t)) + ("\"")@);
            lemma_prefix_split(
                s.skip(q),
                ts_field_chars((",\"createdAt\":\"")@, cr),
                ts_field_chars((",\"updatedAt\":\"")@, up) + ("}")@,
            );
            lemma_prefix_split(s.skip(q), (",\"createdAt\":\"")@ + ts_chars(t), ("\"")@);
            lemma_prefix_split(s.skip(q), (",\"createdAt\":\"")@, ts_chars(t));
            lemma_created_excl_completed(s, q);
        },
        None => {
            assert(ts_field_chars((",\"createdAt\":\"")@, cr) + (ts_field_chars(
                (",\"updatedAt\":\"")@,
                up,
            ) + ("}")@) =~= ts_field_chars((",\"updatedAt\":\"")@, up) + ("}")@);
            lemma_after_created(s, q, up);
        },
    }
}

/// No trailing key of a todo object stands where the canonical form places
/// the chunk that follows the `createdAt` member.
proof fn lemma_after_created(s: Seq<char>, q: int, up: Option<Timestamp>)
    requires
        0 <= q <= s.len(),
        (ts_field_chars((",\"updatedAt\":\"")@, up) + ("}")@).is_prefix_of(s.skip(q)),
    ensures
        !(",\"completed\":")@.is_prefix_of(s.skip(q)),
        !(",\"createdAt\":\"")@.is_prefix_of(s.skip(q)),
        up is None ==> !(",\"updatedAt\":\"")@.is_prefix_of(s.skip(q)),
        up is Some ==> (",\"updatedAt\":\"")@.is_prefix_of(s.skip(q)),
{
    match up {
        Some(t) => {
            assert(ts_field_chars((",\"updatedAt\":\"")@, up) =~= ((",\"updatedAt\":\"")@
                + ts_chars(t)) + ("\"")@);
            lemma_prefix_split(s.skip(q), ts_field_chars((",\"updatedAt\":\"")@, up), ("}")@);
            lemma_prefix_split(s.skip(q), (",\"updatedAt\":\"")@ + ts_chars(t), ("\"")@);
            lemma_prefix_split(s.skip(q), (",\"updatedAt\":\"")@, ts_chars(t));
            lemma_updated_excl_others(s, q);
        },
        None => {
            assert(ts_field_chars((",\"updatedAt\":\"")@, up) + ("}")@ =~= ("}")@);
            lemma_brace_excl_keys(s, q);
        },
    }
}

/// Parses the optional `completed` member.
#[verifier::rlimit(100)]
fn parse_completed_field(s: &str, i: usize) -> (r: Option<(Option<bool>, usize)>)
    requires
        i <= s@.len(),
    ensures
        match r {
            Some(p) => i <= p.1 <= s@.len() && s@.subrange(i as int, p.1 as int)
                == completed_field_chars(p.0),
            None => true,
        },
        !(",\"completed\":")@.is_prefix_of(s@.skip(i as int)) ==> r == Some((None::<bool>, i)),
        forall|b: bool|
            #[trigger] ((",\"completed\":")@ + bool_chars(b)).is_prefix_of(s@.skip(i as int))
                ==> r == Some(
                (Some(b), (i + (",\"completed\":")@.len() + bool_chars(b).len()) as usize),
            ),
{
    let ghost u: Seq<char> = s@.skip(i as int);
    match expect_lit(s, i, ",\"completed\":") {
        Some(j1) => {
            proof {
                assert((",\"completed\":")@.is_prefix_of(u)) by {
                    assert((",\"completed\":")@ =~= u.subrange(0, (",\"completed\":")@.len() as int));
                }
            }
            match expect_lit(s, j1, "true") {
                Some(j2) => {
                    proof {
                        lemma_subrange_cat(s@, i as int, j1 as int, j2 as int);
                        reveal_strlit("true");
                        reveal_strlit("false");
                        assert(s@.subrange(i as int, j2 as int) == completed_field_chars(
                            Some(true),
                        ));
                        assert forall|b: bool|
                            #[trigger] ((",\"completed\":")@ + bool_chars(b)).is_prefix_of(u)
                            implies b == true by {
                            lemma_prefix_split(u, (",\"completed\":")@, bool_chars(b));
                            if !b {
                                lemma_prefix_index(
                                    u.skip((",\"completed\":")@.len() as int),
                                    bool_chars(b),
                                    0,
                                );
                                assert(u.skip((",\"completed\":")@.len() as int) == s@.skip(
                                    j1 as int,
                                ));
                                assert(s@[j1 as int] == 'f');
                                assert(s@.subrange(j1 as int, j2 as int)[0] == s@[j1 as int]);
                            }
                        }
                    }
                    Some((Some(true), j2))
                },
                None => {
                    match expect_lit(s, j1, "false") {
                        Some(j2) => {
                            proof {
                                lemma_subrange_cat(s@, i as int, j1 as int, j2 as int);
                                reveal_strlit("true");
                                reveal_strlit("false");
                                assert(s@.subrange(i as int, j2 as int) == completed_field_chars(
                                    Some(false),
                                ));
                                assert forall|b: bool|
                                    #[trigger] ((",\"completed\":")@ + bool_chars(b)).is_prefix_of(
                                        u,
                                    ) implies b == false by {
                                    lemma_prefix_split(u, (",\"completed\":")@, bool_chars(b));
                                    if b {
                                        assert(u.skip((",\"completed\":")@.len() as int)
                                            == s@.skip(j1 as int));
                                        assert(("true")@.is_prefix_of(s@.skip(j1 as int)));
                                    }
                                }
                            }
                            Some((Some(false), j2))
                        },
                        None => {
                            proof {
                                assert forall|b: bool|
                                    #[trigger] ((",\"completed\":")@ + bool_chars(b)).is_prefix_of(
                                        u,
                                    ) implies false by {
                                    lemma_prefix_split(u, (",\"completed\":")@, bool_chars(b));
                                    assert(u.skip((",\"completed\":")@.len() as int) == s@.skip(
                                        j1 as int,
                                    ));
                                    reveal_strlit("true");
                                    reveal_strlit("false");
                                    if b {
                                        assert(("true")@.is_prefix_of(s@.skip(j1 as int)));
                                    } else {
                                        assert(("false")@.is_prefix_of(s@.skip(j1 as int)));
                                    }
                                }
                            }
                            None
                        },
                    }
                },
            }
        },
        None => {
            proof {
                assert(s@.subrange(i as int, i as int) =~= completed_field_chars(None));
                assert forall|b: bool|
                    #[trigger] ((",\"completed\":")@ + bool_chars(b)).is_prefix_of(u)
                    implies false by {
                    lemma_prefix_split(u, (",\"completed\":")@, bool_chars(b));
                }
            }
            Some((None, i))
        },
    }
}

/// Parses an optional quoted-timestamp member introduced by `pre`.
#[verifier::rlimit(100)]
fn parse_ts_field(s: &str, i: usize, pre: &str) -> (r: Option<(Option<Timestamp>, usize)>)
    requires
        i <= s@.len(),
    ensures
        match r {
            Some(p) => i <= p.1 <= s@.len() && (match p.0 {
                Some(t) => t.wf(),
                None => true,
            }) && s@.subrange(i as int, p.1 as int) == ts_field_chars(pre@, p.0),
            None => true,
        },
        !pre@.is_prefix_of(s@.skip(i as int)) ==> r == Some((None::<Timestamp>, i)),
        forall|t: Timestamp|
            t.wf() && #[trigger] ((pre@ + ts_chars(t)) + ("\"")@).is_prefix_of(s@.skip(i as int))
                ==> r == Some(
                (Some(t), (i + pre@.len() + ts_chars(t).len() + 1) as usize),
            ),
{
    let ghost u: Seq<char> = s@.skip(i as int);
    match expect_lit(s, i, pre) {
        Some(j1) => {
            proof {
                assert(pre@.is_prefix_of(u)) by {
                    assert(pre@ =~= u.subrange(0, pre@.len() as int));
                }
            }
            match parse_ts(s, j1) {
                Some((t, j2)) => {
                    match expect_lit(s, j2, "\"") {
                        Some(j3) => {
                            proof {
                                lemma_subrange_cat(s@, i as int, j1 as int, j2 as int);
                                lemma_subrange_cat(s@, i as int, j2 as int, j3 as int);
                                reveal_strlit("\"");
                                assert(s@.subrange(i as int, j3 as int) == ts_field_chars(
                                    pre@,
                                    Some(t),
                                ));
                                assert forall|t2: Timestamp|
                                    t2.wf() && #[trigger] ((pre@ + ts_chars(t2))
                                        + ("\"")@).is_prefix_of(u) implies t2 == t by {
                                    lemma_prefix_split(u, pre@ + ts_chars(t2), ("\"")@);
                                    lemma_prefix_split(u, pre@, ts_chars(t2));
                                    assert(u.skip(pre@.len() as int) == s@.skip(j1 as int));
                                    assert(ts_chars(t2).is_prefix_of(s@.skip(j1 as int)));
                                }
                            }
                            Some((Some(t), j3))
                        },
                        None => {
                            proof {
                                assert forall|t2: Timestamp|
                                    t2.wf() && #[trigger] ((pre@ + ts_chars(t2))
                                        + ("\"")@).is_prefix_of(u) implies false by {
                                    lemma_prefix_split(u, pre@ + ts_chars(t2), ("\"")@);
                                    lemma_prefix_split(u, pre@, ts_chars(t2));
                                    assert(u.skip(pre@.len() as int) == s@.skip(j1 as int));
                                    assert(ts_chars(t2).is_prefix_of(s@.skip(j1 as int)));
                                    assert(t2 == t && j2 == j1 + 20);
                                    assert(u.skip(pre@.len() + ts_chars(t2).len() as int)
                                        == s@.skip(j2 as int));
                                    assert(("\"")@.is_prefix_of(s@.skip(j2 as int)));
                                }
                            }
                            None
                        },
                    }
                },
                None => {
                    proof {
                        assert forall|t2: Timestamp|
                            t2.wf() && #[trigger] ((pre@ + ts_chars(t2)) + ("\"")@).is_prefix_of(
                                u,
                            ) implies false by {
                            lemma_prefix_split(u, pre@ + ts_chars(t2), ("\"")@);
                            lemma_prefix_split(u, pre@, ts_chars(t2));
                            assert(u.skip(pre@.len() as int) == s@.skip(j1 as int));
                            assert(ts_chars(t2).is_prefix_of(s@.skip(j1 as int)));
                        }
                    }
                    None
                },
            }
        },
        None => {
            proof {
                assert(s@.subrange(i as int, i as int) =~= ts_field_chars(pre@, None));
                assert forall|t2: Timestamp|
                    t2.wf() && #[trigger] ((pre@ + ts_chars(t2)) + ("\"")@).is_prefix_of(u)
                    implies false by {
                    lemma_prefix_split(u, pre@ + ts_chars(t2), ("\"")@);
                    lemma_prefix_split(u, pre@, ts_chars(t2));
                }
            }
            Some((None, i))
        },
    }
}

// ---------------------------------------------------------------------------
// Whole todo objects
// ---------------------------------------------------------------------------

/// Offset of the `id` member inside a todo object.
pub open spec fn off_id(tv: TodoView) -> int {
    ("{")@.len() as int
}

/// Offset of the `"title"` key.
pub open spec fn off_title_lit(tv: TodoView) -> int {
    off_id(tv) + id_field_chars(tv.id).len()
}

/// Offset of the quoted title.
pub open spec fn off_title_q(tv: TodoView) -> int {
    off_title_lit(tv) + ("\"title\":")@.len()
}

/// Offset of the `"content"` key.
pub open spec fn off_content_lit(tv: TodoView) -> int {
    off_title_q(tv) + quoted_chars(tv.title).len()
}

/// Offset of the quoted content.
pub open spec fn off_content_q(tv: TodoView) -> int {
    off_content_lit(tv) + (",\"content\":")@.len()
}

/// Offset of the `completed` member.
pub open spec fn off_completed(tv: TodoView) -> int {
    off_content_q(tv) + quoted_chars(tv.content).len()
}

/// Offset of the `createdAt` member.
pub open spec fn off_created(tv: TodoView) -> int {
    off_completed(tv) + completed_field_chars(tv.completed).len()
}

/// Offset of the `updatedAt` member.
pub open spec fn off_updated(tv: TodoView) -> int {
    off_created(tv) + ts_field_chars((",\"createdAt\":\"")@, tv.createdAt).len()
}

/// Offset of the closing brace.
pub open spec fn off_brace(tv: TodoView) -> int {
    off_updated(tv) + ts_field_chars((",\"updatedAt\":\"")@, tv.updatedAt).len()
}

/// `s.skip` composes.
proof fn lemma_skip_of_skip(s: Seq<char>, i: int, o: int)
    requires
        0 <= i,
        0 <= o,
        i + o <= s.len(),
    ensures
        s.skip(i).skip(o) == s.skip(i + o),
{
    assert(s.skip(i).skip(o) =~= s.skip(i + o));
}

/// Where the wire form of todo `tv` stands at the head of `u`, locates each
/// of its chunks.
#[verifier::rlimit(100)]
proof fn lemma_todo_layout(u: Seq<char>, tv: TodoView)
    requires
        todo_chars(tv).is_prefix_of(u),
    ensures
        todo_chars(tv).len() == off_brace(tv) + ("}")@.len(),
        off_brace(tv) + ("}")@.len() <= u.len(),
        ("{")@.is_prefix_of(u),
        head_chars(tv.id, tv.title, tv.content).is_prefix_of(u),
        head_chars(tv.id, tv.title, tv.content).len() == off_completed(tv),
        (id_field_chars(tv.id) + ("\"title\":")@).is_prefix_of(u.skip(off_id(tv))),
        ("\"title\":")@.is_prefix_of(u.skip(off_title_lit(tv))),
        quoted_chars(tv.title).is_prefix_of(u.skip(off_title_q(tv))),
        (",\"content\":")@.is_prefix_of(u.skip(off_content_lit(tv))),
        quoted_chars(tv.content).is_prefix_of(u.skip(off_content_q(tv))),
        match tv.completed {
            Some(b) => ((",\"completed\":")@ + bool_chars(b)).is_prefix_of(
                u.skip(off_completed(tv)),
            ),
            None => true,
        },
        (ts_field_chars((",\"createdAt\":\"")@, tv.createdAt) + (ts_field_chars(
            (",\"updatedAt\":\"")@,
            tv.updatedAt,
        ) + ("}")@)).is_prefix_of(u.skip(off_created(tv))),
        (ts_field_chars((",\"updatedAt\":\"")@, tv.updatedAt) + ("}")@).is_prefix_of(
            u.skip(off_updated(tv)),
        ),
        match tv.createdAt {
            Some(t) => (((",\"createdAt\":\"")@ + ts_chars(t)) + ("\"")@).is_prefix_of(
                u.skip(off_created(tv)),
            ),
            None => true,
        },
        match tv.updatedAt {
            Some(t) => (((",\"updatedAt\":\"")@ + ts_chars(t)) + ("\"")@).is_prefix_of(
                u.skip(off_updated(tv)),
            ),
            None => true,
        },
        ("}")@.is_prefix_of(u.skip(off_brace(tv))),
{
    let a1 = ("{")@;
    let a2 = id_field_chars(tv.id);
    let a3 = ("\"title\":")@;
    let a4 = quoted_chars(tv.title);
    let a5 = (",\"content\":")@;
    let a6 = quoted_chars(tv.content);
    let a7 = completed_field_chars(tv.completed);
    let a8 = ts_field_chars((",\"createdAt\":\"")@, tv.createdAt);
    let a9 = ts_field_chars((",\"updatedAt\":\"")@, tv.updatedAt);
    let a10 = ("}")@;
    let p = todo_chars(tv);
    let s1 = a1;
    let s2 = s1 + a2;
    let s3 = s2 + a3;
    let s4 = s3 + a4;
    let s5 = s4 + a5;
    let s6 = s5 + a6;
    let s7 = s6 + a7;
    let s8 = s7 + a8;
    let s9 = s8 + a9;
    assert(p == s9 + a10);
    lemma_prefix_split(u, s9, a10);
    assert(p =~= s8 + (a9 + a10));
    lemma_prefix_split(u, s8, a9 + a10);
    assert(p =~= s7 + (a8 + (a9 + a10)));
    lemma_prefix_split(u, s7, a8 + (a9 + a10));
    assert(p =~= s6 + (a7 + (a8 + (a9 + a10))));
    lemma_prefix_split(u, s6, a7 + (a8 + (a9 + a10)));
    lemma_prefix_split(u.skip(s6.len() as int), a7, a8 + (a9 + a10));
    assert(u.skip(s6.len() as int).skip(a7.len() as int) == u.skip(s6.len() + a7.len() as int)) by {
        lemma_skip_of_skip(u, s6.len() as int, a7.len() as int);
    }
    assert(p =~= s5 + (a6 + (a7 + (a8 + (a9 + a10)))));
    lemma_prefix_split(u, s5, a6 + (a7 + (a8 + (a9 + a10))));
    assert(p =~= s4 + (a5 + (a6 + (a7 + (a8 + (a9 + a10))))));
    lemma_prefix_split(u, s4, a5 + (a6 + (a7 + (a8 + (a9 + a10)))));
    assert(p =~= s3 + (a4 + (a5 + (a6 + (a7 + (a8 + (a9 + a10)))))));
    lemma_prefix_split(u, s3, a4 + (a5 + (a6 + (a7 + (a8 + (a9 + a10))))));
    assert(p =~= s2 + (a3 + (a4 + (a5 + (a6 + (a7 + (a8 + (a9 + a10))))))));
    lemma_prefix_split(u, s2, a3 + (a4 + (a5 + (a6 + (a7 + (a8 + (a9 + a10)))))));
    assert(p =~= s1 + ((a2 + a3) + (a4 + (a5 + (a6 + (a7 + (a8 + (a9 + a10))))))));
    lemma_prefix_split(u, s1, (a2 + a3) + (a4 + (a5 + (a6 + (a7 + (a8 + (a9 + a10)))))));
    lemma_prefix_split(u.skip(s1.len() as int), a2 + a3, a4 + (a5 + (a6 + (a7 + (a8 + (a9
        + a10))))));
    assert(a1.is_prefix_of(u)) by {
        assert(a1 =~= u.subrange(0, a1.len() as int));
    }
    assert(head_chars(tv.id, tv.title, tv.content) == s6);
    assert(head_chars(tv.id, tv.title, tv.content).is_prefix_of(u)) by {
        assert(s6 =~= u.subrange(0, s6.len() as int));
    }
    match tv.completed {
        Some(b) => {
            assert(a7 =~= (",\"completed\":")@ + bool_chars(b));
        },
        None => {},
    }
    match tv.createdAt {
        Some(t) => {
            assert(a8 + (a9 + a10) =~= (((",\"createdAt\":\"")@ + ts_chars(t)) + ("\"")@) + (a9
                + a10));
            lemma_prefix_split(
                u.skip(off_created(tv)),
                ((",\"createdAt\":\"")@ + ts_chars(t)) + ("\"")@,
                a9 + a10,
            );
        },
        None => {},
    }
    match tv.updatedAt {
        Some(t) => {
            assert(a9 + a10 =~= (((",\"updatedAt\":\"")@ + ts_chars(t)) + ("\"")@) + a10);
            lemma_prefix_split(
                u.skip(off_updated(tv)),
                ((",\"updatedAt\":\"")@ + ts_chars(t)) + ("\"")@,
                a10,
            );
        },
        None => {},
    }
}

/// The opening chunks of a todo object: brace, `id`, `title`, `content`.
pub open spec fn head_chars(o: Option<Seq<char>>, ttl: Seq<char>, cnt: Seq<char>) -> Seq<char> {
    ("{")@ + id_field_chars(o) + ("\"title\":")@ + quoted_chars(ttl) + (",\"content\":")@
        + quoted_chars(cnt)
}

/// Where the head of a todo object stands at the head of `u`, locates each
/// of its chunks.
proof fn lemma_head_layout(u: Seq<char>, o: Option<Seq<char>>, ttl: Seq<char>, cnt: Seq<char>)
    requires
        head_chars(o, ttl, cnt).is_prefix_of(u),
    ensures
        head_chars(o, ttl, cnt).len() <= u.len(),
        ("{")@.is_prefix_of(u),
        (id_field_chars(o) + ("\"title\":")@).is_prefix_of(u.skip(("{")@.len() as int)),
        quoted_chars(ttl).is_prefix_of(
            u.skip(
                ("{")@.len() + id_field_chars(o).len() + ("\"title\":")@.len() as int,
            ),
        ),
        (",\"content\":")@.is_prefix_of(
            u.skip(
                ("{")@.len() + id_field_chars(o).len() + ("\"title\":")@.len() + quoted_chars(
                    ttl,
                ).len() as int,
            ),
        ),
        quoted_chars(cnt).is_prefix_of(
            u.skip(
                ("{")@.len() + id_field_chars(o).len() + ("\"title\":")@.len() + quoted_chars(
                    ttl,
                ).len() + (",\"content\":")@.len() as int,
            ),
        ),
{
    let a1 = ("{")@;
    let a2 = id_field_chars(o);
    let a3 = ("\"title\":")@;
    let a4 = quoted_chars(ttl);
    let a5 = (",\"content\":")@;
    let a6 = quoted_chars(cnt);
    let p = head_chars(o, ttl, cnt);
    let s5 = a1 + a2 + a3 + a4 + a5;
    assert(p == s5 + a6);
    lemma_prefix_split(u, s5, a6);
    assert(p =~= (a1 + a2 + a3 + a4) + (a5 + a6));
    lemma_prefix_split(u, a1 + a2 + a3 + a4, a5 + a6);
    lemma_prefix_split(u.skip((a1 + a2 + a3 + a4).len() as int), a5, a6);
    assert(p =~= (a1 + a2 + a3) + (a4 + (a5 + a6)));
    lemma_prefix_split(u, a1 + a2 + a3, a4 + (a5 + a6));
    assert(p =~= a1 + ((a2 + a3) + (a4 + (a5 + a6))));
    lemma_prefix_split(u, a1, (a2 + a3) + (a4 + (a5 + a6)));
    lemma_prefix_split(u.skip(a1.len() as int), a2 + a3, a4 + (a5 + a6));
    assert(a1.is_prefix_of(u)) by {
        assert(a1 =~= u.subrange(0, a1.len() as int));
    }
}

/// Parses the opening chunks of a todo object.
#[verifier::rlimit(100)]
fn parse_todo_head(s: &str, i: usize) -> (r: Option<((Option<String>, String, String), usize)>)
    requires
        i <= s@.len(),
    ensures
        match r {
            Some(p) => i < p.1 <= s@.len() && s@.subrange(i as int, p.1 as int) == head_chars(
                opt_str_view(p.0.0),
                p.0.1@,
                p.0.2@,
            ),
            None => true,
        },
        forall|o: Option<Seq<char>>, ttl: Seq<char>, cnt: Seq<char>|
            #[trigger] head_chars(o, ttl, cnt).is_prefix_of(s@.skip(i as int)) ==> (
            r matches Some(p) && opt_str_view(p.0.0) == o && p.0.1@ == ttl && p.0.2@ == cnt && p.1
                == i + head_chars(o, ttl, cnt).len()),
{
    let ghost u: Seq<char> = s@.skip(i as int);
    let j0 = match expect_lit(s, i, "{") {
        Some(x) => x,
        None => {
            proof {
                assert forall|o: Option<Seq<char>>, ttl: Seq<char>, cnt: Seq<char>|
                    #[trigger] head_chars(o, ttl, cnt).is_prefix_of(u) implies false by {
                    lemma_head_layout(u, o, ttl, cnt);
                }
            }
            return None;
        },
    };
    let (id, j1) = match parse_id_field(s, j0) {
        Some(p) => p,
        None => {
            proof {
                assert forall|o: Option<Seq<char>>, ttl: Seq<char>, cnt: Seq<char>|
                    #[trigger] head_chars(o, ttl, cnt).is_prefix_of(u) implies false by {
                    lemma_head_layout(u, o, ttl, cnt);
                    lemma_skip_of_skip(s@, i as int, ("{")@.len() as int);
                    assert((id_field_chars(o) + ("\"title\":")@).is_prefix_of(s@.skip(j0 as int)));
                }
            }
            return None;
        },
    };
    let j2 = match expect_lit(s, j1, "\"title\":") {
        Some(x) => x,
        None => {
            proof {
                assert forall|o: Option<Seq<char>>, ttl: Seq<char>, cnt: Seq<char>|
                    #[trigger] head_chars(o, ttl, cnt).is_prefix_of(u) implies false by {
                    lemma_head_layout(u, o, ttl, cnt);
                    lemma_skip_of_skip(s@, i as int, ("{")@.len() as int);
                    assert((id_field_chars(o) + ("\"title\":")@).is_prefix_of(s@.skip(j0 as int)));
                    assert(opt_str_view(id) == o && j1 == j0 + id_field_chars(o).len());
                    lemma_prefix_split(s@.skip(j0 as int), id_field_chars(o), ("\"title\":")@);
                    lemma_skip_of_skip(s@, j0 as int, id_field_chars(o).len() as int);
                    assert(("\"title\":")@.is_prefix_of(s@.skip(j1 as int)));
                }
            }
            return None;
        },
    };
    let (title, j3) = match parse_string(s, j2) {
        Some(p) => p,
        None => {
            proof {
                assert forall|o: Option<Seq<char>>, ttl: Seq<char>, cnt: Seq<char>|
                    #[trigger] head_chars(o, ttl, cnt).is_prefix_of(u) implies false by {
                    lemma_head_layout(u, o, ttl, cnt);
                    lemma_skip_of_skip(s@, i as int, ("{")@.len() as int);
                    assert((id_field_chars(o) + ("\"title\":")@).is_prefix_of(s@.skip(j0 as int)));
                    assert(opt_str_view(id) == o && j1 == j0 + id_field_chars(o).len());
                    lemma_skip_of_skip(
                        s@,
                        i as int,
                        ("{")@.len() + id_field_chars(o).len() + ("\"title\":")@.len() as int,
                    );
                    assert(quoted_chars(ttl).is_prefix_of(s@.skip(j2 as int)));
                }
            }
            return None;
        },
    };
    let j4 = match expect_lit(s, j3, ",\"content\":") {
        Some(x) => x,
        None => {
            proof {
                assert forall|o: Option<Seq<char>>, ttl: Seq<char>, cnt: Seq<char>|
                    #[trigger] head_chars(o, ttl, cnt).is_prefix_of(u) implies false by {
                    lemma_head_layout(u, o, ttl, cnt);
                    lemma_skip_of_skip(s@, i as int, ("{")@.len() as int);
                    assert((id_field_chars(o) + ("\"title\":")@).is_prefix_of(s@.skip(j0 as int)));
                    assert(opt_str_view(id) == o && j1 == j0 + id_field_chars(o).len());
                    lemma_skip_of_skip(
                        s@,
                        i as int,
                        ("{")@.len() + id_field_chars(o).len() + ("\"title\":")@.len() as int,
                    );
                    assert(quoted_chars(ttl).is_prefix_of(s@.skip(j2 as int)));
                    assert(title@ == ttl && j3 == j2 + quoted_chars(ttl).len());
                    lemma_skip_of_skip(
                        s@,
                        i as int,
                        ("{")@.len() + id_field_chars(o).len() + ("\"title\":")@.len()
                            + quoted_chars(ttl).len() as int,
                    );
                    assert((",\"content\":")@.is_prefix_of(s@.skip(j3 as int)));
                }
            }
            return None;
        },
    };
    let (content, j5) = match parse_string(s, j4) {
        Some(p) => p,
        None => {
            proof {
                assert forall|o: Option<Seq<char>>, ttl: Seq<char>, cnt: Seq<char>|
                    #[trigger] head_chars(o, ttl, cnt).is_prefix_of(u) implies false by {
                    lemma_head_layout(u, o, ttl, cnt);
                    lemma_skip_of_skip(s@, i as int, ("{")@.len() as int);
                    assert((id_field_chars(o) + ("\"title\":")@).is_prefix_of(s@.skip(j0 as int)));
                    assert(opt_str_view(id) == o && j1 == j0 + id_field_chars(o).len());
                    lemma_skip_of_skip(
                        s@,
                        i as int,
                        ("{")@.len() + id_field_chars(o).len() + ("\"title\":")@.len() as int,
                    );
                    assert(quoted_chars(ttl).is_prefix_of(s@.skip(j2 as int)));
                    assert(title@ == ttl && j3 == j2 + quoted_chars(ttl).len());
                    lemma_skip_of_skip(
                        s@,
                        i as int,
                        ("{")@.len() + id_field_chars(o).len() + ("\"title\":")@.len()
                            + quoted_chars(ttl).len() + (",\"content\":")@.len() as int,
                    );
                    assert(quoted_chars(cnt).is_prefix_of(s@.skip(j4 as int)));
                }
            }
            return None;
        },
    };
    proof {
        lemma_subrange_cat(s@, i as int, j0 as int, j1 as int);
        lemma_subrange_cat(s@, i as int, j1 as int, j2 as int);
        lemma_subrange_cat(s@, i as int, j2 as int, j3 as int);
        lemma_subrange_cat(s@, i as int, j3 as int, j4 as int);
        lemma_subrange_cat(s@, i as int, j4 as int, j5 as int);
        assert(s@.subrange(i as int, j5 as int) == head_chars(
            opt_str_view(id),
            title@,
            content@,
        ));
        assert forall|o: Option<Seq<char>>, ttl: Seq<char>, cnt: Seq<char>|
            #[trigger] head_chars(o, ttl, cnt).is_prefix_of(u)
            implies opt_str_view(id) == o && title@ == ttl && content@ == cnt && j5 == i
            + head_chars(o, ttl, cnt).len() by {
            lemma_head_layout(u, o, ttl, cnt);
            lemma_skip_of_skip(s@, i as int, ("{")@.len() as int);
            assert((id_field_chars(o) + ("\"title\":")@).is_prefix_of(s@.skip(j0 as int)));
            assert(opt_str_view(id) == o && j1 == j0 + id_field_chars(o).len());
            lemma_skip_of_skip(
                s@,
                i as int,
                ("{")@.len() + id_field_chars(o).len() + ("\"title\":")@.len() as int,
            );
            assert(quoted_chars(ttl).is_prefix_of(s@.skip(j2 as int)));
            assert(title@ == ttl && j3 == j2 + quoted_chars(ttl).len());
            lemma_skip_of_skip(
                s@,
                i as int,
                ("{")@.len() + id_field_chars(o).len() + ("\"title\":")@.len() + quoted_chars(
                    ttl,
                ).len() + (",\"content\":")@.len() as int,
            );
            assert(quoted_chars(cnt).is_prefix_of(s@.skip(j4 as int)));
            assert(content@ == cnt && j5 == j4 + quoted_chars(cnt).len());
        }
    }
    Some(((id, title, content), j5))
}

/// Where the wire form of todo `tv` begins at position `i` of `s`, gives the
/// facts each stage of the todo parser needs, at absolute positions.
#[verifier::rlimit(100)]
proof fn lemma_todo_prefixes(s: Seq<char>, i: int, tv: TodoView)
    requires
        0 <= i <= s.len(),
        todo_chars(tv).is_prefix_of(s.skip(i)),
    ensures
        todo_chars(tv).len() == off_brace(tv) + ("}")@.len(),
        head_chars(tv.id, tv.title, tv.content).is_prefix_of(s.skip(i)),
        head_chars(tv.id, tv.title, tv.content).len() == off_completed(tv),
        match tv.completed {
            Some(b) => ((",\"completed\":")@ + bool_chars(b)).is_prefix_of(
                s.skip(i + off_completed(tv)),
            ),
            None => !(",\"completed\":")@.is_prefix_of(s.skip(i + off_completed(tv))),
        },
        match tv.createdAt {
            Some(t) => (((",\"createdAt\":\"")@ + ts_chars(t)) + ("\"")@).is_prefix_of(
                s.skip(i + off_created(tv)),
            ),
            None => !(",\"createdAt\":\"")@.is_prefix_of(s.skip(i + off_created(tv))),
        },
        match tv.updatedAt {
            Some(t) => (((",\"updatedAt\":\"")@ + ts_chars(t)) + ("\"")@).is_prefix_of(
                s.skip(i + off_updated(tv)),
            ),
            None => !(",\"updatedAt\":\"")@.is_prefix_of(s.skip(i + off_updated(tv))),
        },
        ("}")@.is_prefix_of(s.skip(i + off_brace(tv))),
{
    let u = s.skip(i);
    lemma_todo_layout(u, tv);
    lemma_skip_of_skip(s, i, off_completed(tv));
    lemma_skip_of_skip(s, i, off_created(tv));
    lemma_skip_of_skip(s, i, off_updated(tv));
    lemma_skip_of_skip(s, i, off_brace(tv));
    match tv.completed {
        Some(b) => {},
        None => {
            lemma_after_completed(s, i + off_completed(tv), tv.createdAt, tv.updatedAt);
        },
    }
    match tv.createdAt {
        Some(t) => {},
        None => {
            lemma_after_created(s, i + off_created(tv), tv.updatedAt);
        },
    }
    match tv.updatedAt {
        Some(t) => {},
        None => {
            lemma_brace_excl_keys(s, i + off_brace(tv));
        },
    }
}

/// Parses one todo object.
#[verifier::rlimit(100)]
fn parse_todo(s: &str, i: usize) -> (r: Option<(Todo, usize)>)
    requires
        i <= s@.len(),
    ensures
        match r {
            Some(p) => i < p.1 <= s@.len() && p.0@.wf() && s@.subrange(i as int, p.1 as int)
                == todo_chars(p.0@),
            None => true,
        },
        forall|tv: TodoView| tv.wf() && #[trigger] todo_chars(tv).is_prefix_of(s@.skip(i as int))
            ==> (r matches Some(p) && p.0@ == tv && p.1 == i + todo_chars(tv).len()),
{
    let ghost u: Seq<char> = s@.skip(i as int);
    let (head, j5) = match parse_todo_head(s, i) {
        Some(p) => p,
        None => {
            proof {
                assert forall|tv: TodoView| tv.wf() && #[trigger] todo_chars(tv).is_prefix_of(u)
                    implies false by {
                    lemma_todo_prefixes(s@, i as int, tv);
                }
            }
            return None;
        },
    };
    let (id, title, content) = head;
    let (completed, j6) = match parse_completed_field(s, j5) {
        Some(p) => p,
        None => {
            proof {
                assert forall|tv: TodoView| tv.wf() && #[trigger] todo_chars(tv).is_prefix_of(u)
                    implies false by {
                    lemma_todo_prefixes(s@, i as int, tv);
                    assert(j5 == i + off_completed(tv));
                }
            }
            return None;
        },
    };
    let (created_at, j7) = match parse_ts_field(s, j6, ",\"createdAt\":\"") {
        Some(p) => p,
        None => {
            proof {
                assert forall|tv: TodoView| tv.wf() && #[trigger] todo_chars(tv).is_prefix_of(u)
                    implies false by {
                    lemma_todo_prefixes(s@, i as int, tv);
                    assert(j5 == i + off_completed(tv));
                    assert(completed == tv.completed && j6 == i + off_created(tv));
                }
            }
            return None;
        },
    };
    let (updated_at, j8) = match parse_ts_field(s, j7, ",\"updatedAt\":\"") {
        Some(p) => p,
        None => {
            proof {
                assert forall|tv: TodoView| tv.wf() && #[trigger] todo_chars(tv).is_prefix_of(u)
                    implies false by {
                    lemma_todo_prefixes(s@, i as int, tv);
                    assert(j5 == i + off_completed(tv));
                    assert(completed == tv.completed && j6 == i + off_created(tv));
                    assert(created_at == tv.createdAt && j7 == i + off_updated(tv));
                }
            }
            return None;
        },
    };
    let j9 = match expect_lit(s, j8, "}") {
        Some(x) => x,
        None => {
            proof {
                assert forall|tv: TodoView| tv.wf() && #[trigger] todo_chars(tv).is_prefix_of(u)
                    implies false by {
                    lemma_todo_prefixes(s@, i as int, tv);
                    assert(j5 == i + off_completed(tv));
                    assert(completed == tv.completed && j6 == i + off_created(tv));
                    assert(created_at == tv.createdAt && j7 == i + off_updated(tv));
                    assert(updated_at == tv.updatedAt && j8 == i + off_brace(tv));
                    assert(("}")@.is_prefix_of(s@.skip(j8 as int)));
                }
            }
            return None;
        },
    };
    let t = Todo { id, title, content, completed, createdAt: created_at, updatedAt: updated_at };
    proof {
        lemma_subrange_cat(s@, i as int, j5 as int, j6 as int);
        lemma_subrange_cat(s@, i as int, j6 as int, j7 as int);
        lemma_subrange_cat(s@, i as int, j7 as int, j8 as int);
        lemma_subrange_cat(s@, i as int, j8 as int, j9 as int);
        assert(t@.id == opt_str_view(id));
        assert(s@.subrange(i as int, j9 as int) == todo_chars(t@));
        assert forall|tv: TodoView| tv.wf() && #[trigger] todo_chars(tv).is_prefix_of(u)
            implies t@ == tv && j9 == i + todo_chars(tv).len() by {
            lemma_todo_prefixes(s@, i as int, tv);
            assert(opt_str_view(id) == tv.id && title@ == tv.title && content@ == tv.content);
            assert(j5 == i + off_completed(tv));
            assert(completed == tv.completed && j6 == i + off_created(tv));
            assert(created_at == tv.createdAt && j7 == i + off_updated(tv));
            assert(updated_at == tv.updatedAt && j8 == i + off_brace(tv));
        }
    }
    Some((t, j9))
}

// ---------------------------------------------------------------------------
// Arrays and envelopes
// ---------------------------------------------------------------------------

/// All todos in a sequence are well-formed.
pub open spec fn todos_wf(ts: Seq<TodoView>) -> bool {
    forall|k: int| 0 <= k < ts.len() ==> (#[trigger] ts[k]).wf()
}

/// The mathematical value of a todo vector.
pub open spec fn todos_view(v: Seq<Todo>) -> Seq<TodoView> {
    v.map_values(|t: Todo| t@)
}

/// A todo object's wire form opens with a brace.
#[verifier::rlimit(100)]
proof fn lemma_todo_first_char(tv: TodoView)
    ensures
        todo_chars(tv).len() > 0,
        todo_chars(tv)[0] == '{',
{
    reveal_strlit("{");
    assert(todo_chars(tv) =~= ("{")@ + (id_field_chars(tv.id) + ("\"title\":")@ + quoted_chars(
        tv.title,
    ) + (",\"content\":")@ + quoted_chars(tv.content) + completed_field_chars(tv.completed)
        + ts_field_chars((",\"createdAt\":\"")@, tv.createdAt) + ts_field_chars(
        (",\"updatedAt\":\"")@,
        tv.updatedAt,
    ) + ("}")@));
}

/// Where an array tail stands at position `i` of `s`, gives the facts its
/// parser needs.
#[verifier::rlimit(100)]
proof fn lemma_arr_tail_prefixes(s: Seq<char>, i: int, ts: Seq<TodoView>)
    requires
        0 <= i <= s.len(),
        todos_wf(ts),
        (todos_tail_chars(ts) + ("]")@).is_prefix_of(s.skip(i)),
    ensures
        (",")@.len() == 1,
        ("]")@.len() == 1,
        ts.len() == 0 ==> ("]")@.is_prefix_of(s.skip(i)) && todos_tail_chars(ts).len() == 0,
        ts.len() > 0 ==> ({
            &&& (",")@.is_prefix_of(s.skip(i))
            &&& !("]")@.is_prefix_of(s.skip(i))
            &&& ts[0].wf()
            &&& todo_chars(ts[0]).is_prefix_of(s.skip(i + 1))
            &&& (todos_tail_chars(ts.skip(1)) + ("]")@).is_prefix_of(
                s.skip(i + 1 + todo_chars(ts[0]).len()),
            )
            &&& todos_wf(ts.skip(1))
            &&& todos_tail_chars(ts).len() == 1 + todo_chars(ts[0]).len() + todos_tail_chars(
                ts.skip(1),
            ).len()
        }),
{
    reveal_strlit(",");
    reveal_strlit("]");
    let u = s.skip(i);
    if ts.len() == 0 {
        assert(todos_tail_chars(ts) + ("]")@ =~= ("]")@);
    } else {
        let a = (",")@;
        let b = todo_chars(ts[0]);
        let c = todos_tail_chars(ts.skip(1));
        let d = ("]")@;
        assert(todos_tail_chars(ts) == a + b + c);
        assert(todos_tail_chars(ts) + d =~= a + (b + (c + d)));
        lemma_prefix_split(u, a, b + (c + d));
        lemma_prefix_split(u.skip(1), b, c + d);
        lemma_skip_of_skip(s, i, 1);
        lemma_skip_of_skip(s, i + 1, b.len() as int);
        assert(ts[0].wf());
        assert(todos_wf(ts.skip(1))) by {
            assert(forall|k: int| 0 <= k < ts.skip(1).len() ==> ts.skip(1)[k] == ts[k + 1]);
        }
        assert(u[0] == ',') by {
            lemma_prefix_index(u, a, 0);
        }
        if ("]")@.is_prefix_of(u) {
            lemma_prefix_index(u, ("]")@, 0);
            assert(false);
        }
    }
}

/// Where a todo array stands at position `i` of `s`, gives the facts its
/// parser needs.
#[verifier::rlimit(100)]
proof fn lemma_arr_prefixes(s: Seq<char>, i: int, ts: Seq<TodoView>)
    requires
        0 <= i <= s.len(),
        todos_wf(ts),
        todo_array_chars(ts).is_prefix_of(s.skip(i)),
    ensures
        ("[")@.len() == 1,
        ("]")@.len() == 1,
        ("[")@.is_prefix_of(s.skip(i)),
        ts.len() == 0 ==> ("]")@.is_prefix_of(s.skip(i + 1)) && todo_array_chars(ts).len() == 2,
        ts.len() > 0 ==> ({
            &&& ts[0].wf()
            &&& !("]")@.is_prefix_of(s.skip(i + 1))
            &&& todo_chars(ts[0]).is_prefix_of(s.skip(i + 1))
            &&& (todos_tail_chars(ts.skip(1)) + ("]")@).is_prefix_of(
                s.skip(i + 1 + todo_chars(ts[0]).len()),
            )
            &&& todos_wf(ts.skip(1))
            &&& todo_array_chars(ts).len() == 2 + todo_chars(ts[0]).len() + todos_tail_chars(
                ts.skip(1),
            ).len()
        }),
{
    reveal_strlit("[");
    reveal_strlit("]");
    reveal_strlit("[]");
    let u = s.skip(i);
    lemma_skip_of_skip(s, i, 1);
    if ts.len() == 0 {
        assert(todo_array_chars(ts) == ("[]")@);
        assert(("[")@.is_prefix_of(u)) by {
            lemma_prefix_index(u, ("[]")@, 0);
            assert(("[")@ =~= u.subrange(0, 1));
        }
        assert(("]")@.is_prefix_of(u.skip(1))) by {
            lemma_prefix_index(u, ("[]")@, 1);
            assert(("]")@ =~= u.skip(1).subrange(0, 1));
        }
    } else {
        let b = todo_chars(ts[0]);
        let c = todos_tail_chars(ts.skip(1));
        let d = ("]")@;
        assert(todo_array_chars(ts) =~= ("[")@ + (b + (c + d)));
        lemma_prefix_split(u, ("[")@, b + (c + d));
        lemma_prefix_split(u.skip(1), b, c + d);
        lemma_skip_of_skip(s, i + 1, b.len() as int);
        assert(ts[0].wf());
        assert(todos_wf(ts.skip(1))) by {
            assert(forall|k: int| 0 <= k < ts.skip(1).len() ==> ts.skip(1)[k] == ts[k + 1]);
        }
        if ("]")@.is_prefix_of(u.skip(1)) {
            lemma_prefix_index(u.skip(1), ("]")@, 0);
            lemma_todo_first_char(ts[0]);
            lemma_prefix_index(u.skip(1), b, 0);
            assert(false);
        }
    }
}

/// Parses the continuation of a todo array: further comma-led objects and
/// the closing bracket.
#[verifier::rlimit(100)]
fn parse_todos_rest(s: &str, i: usize) -> (r: Option<(Vec<Todo>, usize)>)
    requires
        i <= s@.len(),
    ensures
        match r {
            Some(p) => i < p.1 <= s@.len() && todos_wf(todos_view(p.0@)) && s@.subrange(
                i as int,
                p.1 as int,
            ) == todos_tail_chars(todos_view(p.0@)) + ("]")@,
            None => true,
        },
        forall|ts: Seq<TodoView>|
            todos_wf(ts) && #[trigger] (todos_tail_chars(ts) + ("]")@).is_prefix_of(
                s@.skip(i as int),
            ) ==> (r matches Some(p) && todos_view(p.0@) == ts && p.1 == i + todos_tail_chars(
                ts,
            ).len() + ("]")@.len()),
    decreases s@.len() - i,
{
    let ghost u: Seq<char> = s@.skip(i as int);
    if let Some(j1) = expect_lit(s, i, "]") {
        let empty_vec: Vec<Todo> = Vec::new();
        proof {
            reveal_strlit("]");
            assert(todos_view(empty_vec@) =~= Seq::<TodoView>::empty());
            assert(todos_tail_chars(Seq::<TodoView>::empty()) == Seq::<char>::empty());
            assert(s@.subrange(i as int, j1 as int) == todos_tail_chars(todos_view(empty_vec@))
                + ("]")@) by {
                assert(todos_tail_chars(todos_view(empty_vec@)) + ("]")@ =~= ("]")@);
            }
            assert(("]")@.is_prefix_of(u)) by {
                assert(("]")@ =~= u.subrange(0, ("]")@.len() as int));
            }
            assert forall|ts: Seq<TodoView>|
                todos_wf(ts) && #[trigger] (todos_tail_chars(ts) + ("]")@).is_prefix_of(u)
                implies todos_view(empty_vec@) == ts && j1 == i + todos_tail_chars(ts).len()
                + ("]")@.len() by {
                lemma_arr_tail_prefixes(s@, i as int, ts);
                assert(ts.len() == 0);
                assert(todos_view(empty_vec@) =~= ts);
            }
        }
        return Some((empty_vec, j1));
    }
    let j1 = match expect_lit(s, i, ",") {
        Some(x) => x,
        None => {
            proof {
                assert forall|ts: Seq<TodoView>|
                    todos_wf(ts) && #[trigger] (todos_tail_chars(ts) + ("]")@).is_prefix_of(u)
                    implies false by {
                    lemma_arr_tail_prefixes(s@, i as int, ts);
                }
            }
            return None;
        },
    };
    let (t0, j2) = match parse_todo(s, j1) {
        Some(p) => p,
        None => {
            proof {
                assert forall|ts: Seq<TodoView>|
                    todos_wf(ts) && #[trigger] (todos_tail_chars(ts) + ("]")@).is_prefix_of(u)
                    implies false by {
                    lemma_arr_tail_prefixes(s@, i as int, ts);
                }
            }
            return None;
        },
    };
    let (mut rest, j3) = match parse_todos_rest(s, j2) {
        Some(p) => p,
        None => {
            proof {
                assert forall|ts: Seq<TodoView>|
                    todos_wf(ts) && #[trigger] (todos_tail_chars(ts) + ("]")@).is_prefix_of(u)
                    implies false by {
                    lemma_arr_tail_prefixes(s@, i as int, ts);
                    assert(t0@ == ts[0] && j2 == j1 + todo_chars(ts[0]).len());
                }
            }
            return None;
        },
    };
    let ghost rest0: Seq<Todo> = rest@;
    rest.insert(0, t0);
    proof {
        assert(rest@ == rest0.insert(0, t0));
        assert(todos_view(rest@) =~= seq![t0@] + todos_view(rest0));
        assert(todos_view(rest@).skip(1) =~= todos_view(rest0));
        assert(todos_view(rest@)[0] == t0@);
        assert(todos_tail_chars(todos_view(rest@)) == (",")@ + todo_chars(t0@) + todos_tail_chars(
            todos_view(rest0),
        ));
        assert(todos_wf(todos_view(rest@)));
        lemma_subrange_cat(s@, i as int, j1 as int, j2 as int);
        lemma_subrange_cat(s@, i as int, j2 as int, j3 as int);
        assert(s@.subrange(i as int, j3 as int) =~= todos_tail_chars(todos_view(rest@))
            + ("]")@);
        assert forall|ts: Seq<TodoView>|
            todos_wf(ts) && #[trigger] (todos_tail_chars(ts) + ("]")@).is_prefix_of(u)
            implies todos_view(rest@) == ts && j3 == i + todos_tail_chars(ts).len()
            + ("]")@.len() by {
            lemma_arr_tail_prefixes(s@, i as int, ts);
            assert(t0@ == ts[0] && j2 == j1 + todo_chars(ts[0]).len());
            assert(todos_view(rest0) == ts.skip(1));
            assert(todos_view(rest@) =~= ts) by {
                assert(ts =~= seq![ts[0]] + ts.skip(1));
            }
        }
    }
    Some((rest, j3))
}

/// Where a todo object stands, the array does not close.
proof fn lemma_brace_not_todo(s: Seq<char>, q: int, tv: TodoView)
    requires
        0 <= q,
        q + todo_chars(tv).len() <= s.len(),
        s.subrange(q, q + todo_chars(tv).len()) == todo_chars(tv),
    ensures
        !("]")@.is_prefix_of(s.skip(q)),
{
    reveal_strlit("]");
    lemma_todo_first_char(tv);
    if ("]")@.is_prefix_of(s.skip(q)) {
        lemma_prefix_index(s.skip(q), ("]")@, 0);
        assert(s.skip(q)[0] == s[q]);
        assert(s.subrange(q, q + todo_chars(tv).len())[0] == s[q]);
        assert(false);
    }
}

/// Assembles an array's wire form from its parsed pieces.
#[verifier::rlimit(100)]
proof fn lemma_arr_assemble(
    s: Seq<char>,
    i: int,
    j0: int,
    j1: int,
    j2: int,
    first: TodoView,
    restv: Seq<TodoView>,
)
    requires
        0 <= i <= j0 <= j1 <= j2 <= s.len(),
        s.subrange(i, j0) == ("[")@,
        s.subrange(j0, j1) == todo_chars(first),
        s.subrange(j1, j2) == todos_tail_chars(restv) + ("]")@,
    ensures
        s.subrange(i, j2) == todo_array_chars(seq![first] + restv),
{
    let ts = seq![first] + restv;
    assert(ts[0] == first);
    assert(ts.skip(1) =~= restv);
    assert(ts.len() > 0);
    lemma_subrange_cat(s, i, j0, j1);
    lemma_subrange_cat(s, i, j1, j2);
    assert(s.subrange(i, j2) =~= todo_array_chars(ts));
}

/// Parses a todo array./// Parses a todo array.
#[verifier::rlimit(100)]
fn parse_todo_array(s: &str, i: usize) -> (r: Option<(Vec<Todo>, usize)>)
    requires
        i <= s@.len(),
    ensures
        match r {
            Some(p) => i < p.1 <= s@.len() && todos_wf(todos_view(p.0@)) && s@.subrange(
                i as int,
                p.1 as int,
            ) == todo_array_chars(todos_view(p.0@)),
            None => true,
        },
        forall|ts: Seq<TodoView>|
            todos_wf(ts) && #[trigger] todo_array_chars(ts).is_prefix_of(s@.skip(i as int)) ==> (
            r matches Some(p) && todos_view(p.0@) == ts && p.1 == i + todo_array_chars(ts).len()),
{
    let ghost u: Seq<char> = s@.skip(i as int);
    let j0 = match expect_lit(s, i, "[") {
        Some(x) => x,
        None => {
            proof {
                assert forall|ts: Seq<TodoView>|
                    todos_wf(ts) && #[trigger] todo_array_chars(ts).is_prefix_of(u)
                    implies false by {
                    lemma_arr_prefixes(s@, i as int, ts);
                }
            }
            return None;
        },
    };
    if let Some(j1) = expect_lit(s, j0, "]") {
        let empty_vec: Vec<Todo> = Vec::new();
        proof {
            reveal_strlit("[");
            reveal_strlit("]");
            reveal_strlit("[]");
            assert(todos_view(empty_vec@) =~= Seq::<TodoView>::empty());
            assert(s@.subrange(i as int, j1 as int) =~= todo_array_chars(
                todos_view(empty_vec@),
            )) by {
                lemma_subrange_cat(s@, i as int, j0 as int, j1 as int);
                assert(s@.subrange(i as int, j0 as int) == ("[")@);
                assert(s@.subrange(j0 as int, j1 as int) == ("]")@);
            }
            assert(("]")@.is_prefix_of(s@.skip(j0 as int))) by {
                assert(("]")@ =~= s@.skip(j0 as int).subrange(0, ("]")@.len() as int));
            }
            assert forall|ts: Seq<TodoView>|
                todos_wf(ts) && #[trigger] todo_array_chars(ts).is_prefix_of(u)
                implies todos_view(empty_vec@) == ts && j1 == i + todo_array_chars(ts).len() by {
                lemma_arr_prefixes(s@, i as int, ts);
                assert(ts.len() == 0);
                assert(todos_view(empty_vec@) =~= ts);
            }
        }
        return Some((empty_vec, j1));
    }
    let (t0, j1) = match parse_todo(s, j0) {
        Some(p) => p,
        None => {
            proof {
                assert forall|ts: Seq<TodoView>|
                    todos_wf(ts) && #[trigger] todo_array_chars(ts).is_prefix_of(u)
                    implies false by {
                    lemma_arr_prefixes(s@, i as int, ts);
                    if ts.len() == 0 {
                        assert(("]")@.is_prefix_of(s@.skip(j0 as int)));
                    }
                }
            }
            return None;
        },
    };
    let (todos, j2) = match parse_todos_rest(s, j1) {
        Some(p) => p,
        None => {
            proof {
                assert forall|ts: Seq<TodoView>|
                    todos_wf(ts) && #[trigger] todo_array_chars(ts).is_prefix_of(u)
                    implies false by {
                    lemma_arr_prefixes(s@, i as int, ts);
                    if ts.len() == 0 {
                        lemma_brace_not_todo(s@, j0 as int, t0@);
                    } else {
                        assert(t0@ == ts[0] && j1 == j0 + todo_chars(ts[0]).len());
                    }
                }
            }
            return None;
        },
    };
    let mut result = todos;
    result.insert(0, t0);
    proof {
        assert(todos_view(result@) =~= seq![t0@] + todos_view(todos@));
        assert(todos_wf(todos_view(result@)));
        lemma_arr_assemble(
            s@,
            i as int,
            j0 as int,
            j1 as int,
            j2 as int,
            t0@,
            todos_view(todos@),
        );
        assert forall|ts: Seq<TodoView>|
            todos_wf(ts) && #[trigger] todo_array_chars(ts).is_prefix_of(u)
            implies todos_view(result@) == ts && j2 == i + todo_array_chars(ts).len() by {
            lemma_arr_prefixes(s@, i as int, ts);
            if ts.len() == 0 {
                lemma_brace_not_todo(s@, j0 as int, t0@);
                assert(false);
            }
            assert(t0@ == ts[0] && j1 == j0 + todo_chars(ts[0]).len());
            assert(todos_view(todos@) == ts.skip(1));
            assert(todos_view(result@) =~= ts) by {
                assert(ts =~= seq![ts[0]] + ts.skip(1));
            }
        }
    }
    Some((result, j2))
}

/// Where a list envelope stands at position `i` of `s`, gives the facts its
/// parser needs.
#[verifier::rlimit(100)]
proof fn lemma_list_prefixes(s: Seq<char>, i: int, e: ResponseTodosView)
    requires
        0 <= i <= s.len(),
        e.wf(),
        list_env_chars(e).is_prefix_of(s.skip(i)),
    ensures
        ("{\"status\":")@.is_prefix_of(s.skip(i)),
        quoted_chars(e.status).is_prefix_of(s.skip(i + ("{\"status\":")@.len())),
        (",\"results\":")@.is_prefix_of(
            s.skip(i + ("{\"status\":")@.len() + quoted_chars(e.status).len()),
        ),
        dec_chars(e.results as int).is_prefix_of(
            s.skip(
                i + ("{\"status\":")@.len() + quoted_chars(e.status).len() + (",\"results\":")@.len(),
            ),
        ),
        i + ("{\"status\":")@.len() + quoted_chars(e.status).len() + (",\"results\":")@.len()
            + dec_chars(e.results as int).len() < s.len(),
        !is_digit_char(
            s.skip(
                i + ("{\"status\":")@.len() + quoted_chars(e.status).len() + (",\"results\":")@.len(),
            )[dec_chars(e.results as int).len() as int],
        ),
        (",\"todos\":")@.is_prefix_of(
            s.skip(
                i + ("{\"status\":")@.len() + quoted_chars(e.status).len() + (",\"results\":")@.len()
                    + dec_chars(e.results as int).len(),
            ),
        ),
        todos_wf(e.todos),
        todo_array_chars(e.todos).is_prefix_of(
            s.skip(
                i + ("{\"status\":")@.len() + quoted_chars(e.status).len() + (",\"results\":")@.len()
                    + dec_chars(e.results as int).len() + (",\"todos\":")@.len(),
            ),
        ),
        ("}")@.is_prefix_of(
            s.skip(
                i + ("{\"status\":")@.len() + quoted_chars(e.status).len() + (",\"results\":")@.len()
                    + dec_chars(e.results as int).len() + (",\"todos\":")@.len() + todo_array_chars(
                    e.todos,
                ).len(),
            ),
        ),
        list_env_chars(e).len() == ("{\"status\":")@.len() + quoted_chars(e.status).len()
            + (",\"results\":")@.len() + dec_chars(e.results as int).len() + (",\"todos\":")@.len()
            + todo_array_chars(e.todos).len() + ("}")@.len(),
{
    let u = s.skip(i);
    let a = ("{\"status\":")@;
    let b = quoted_chars(e.status);
    let c = (",\"results\":")@;
    let d = dec_chars(e.results as int);
    let f = (",\"todos\":")@;
    let g = todo_array_chars(e.todos);
    let h = ("}")@;
    let p = list_env_chars(e);
    assert(p =~= a + (b + (c + (d + (f + (g + h))))));
    lemma_prefix_split(u, a, b + (c + (d + (f + (g + h)))));
    lemma_skip_of_skip(s, i, a.len() as int);
    lemma_prefix_split(s.skip(i + a.len()), b, c + (d + (f + (g + h))));
    lemma_skip_of_skip(s, i + a.len(), b.len() as int);
    lemma_prefix_split(s.skip(i + a.len() + b.len()), c, d + (f + (g + h)));
    lemma_skip_of_skip(s, i + a.len() + b.len(), c.len() as int);
    lemma_prefix_split(s.skip(i + a.len() + b.len() + c.len()), d, f + (g + h));
    lemma_skip_of_skip(s, i + a.len() + b.len() + c.len(), d.len() as int);
    lemma_prefix_split(s.skip(i + a.len() + b.len() + c.len() + d.len()), f, g + h);
    lemma_skip_of_skip(s, i + a.len() + b.len() + c.len() + d.len(), f.len() as int);
    lemma_prefix_split(s.skip(i + a.len() + b.len() + c.len() + d.len() + f.len()), g, h);
    reveal_strlit(",\"todos\":");
    assert(f.len() == 9);
    assert(f.is_prefix_of(s.skip(i + a.len() + b.len() + c.len() + d.len())));
    assert(f.len() <= s.skip(i + a.len() + b.len() + c.len() + d.len()).len());
    assert(i + a.len() + b.len() + c.len() + d.len() < s.len());
    assert(!is_digit_char(s.skip(i + a.len() + b.len() + c.len())[d.len() as int])) by {
        assert(d.len() < s.skip(i + a.len() + b.len() + c.len()).len());
        lemma_prefix_index(s.skip(i + a.len() + b.len() + c.len() + d.len()), f, 0);
        assert(s.skip(i + a.len() + b.len() + c.len() + d.len())[0] == s[i + a.len() + b.len()
            + c.len() + d.len()]);
        assert(s.skip(i + a.len() + b.len() + c.len())[d.len() as int] == s[i + a.len() + b.len()
            + c.len() + d.len()]);
        assert(!is_digit_char(','));
    }
}

/// Decodes the list-response envelope: accepts exactly the wire form and
/// returns the envelope that produced it. Together with
/// `encode_list_response` this states the round-trip law for the list shape.
#[verifier::rlimit(100)]
pub fn decode_list_body(body: &str) -> (r: Option<ResponseTodos>)
    ensures
        match r {
            Some(env) => env@.wf() && body@ == list_env_chars(env@),
            None => true,
        },
        forall|e: ResponseTodosView|
            e.wf() && body@ == #[trigger] list_env_chars(e) ==> (r matches Some(env) && env@ == e),
{
    let n = s_len(body);
    let ghost u: Seq<char> = body@;
    proof {
        assert(body@.skip(0) =~= body@);
    }
    let j0 = match expect_lit(body, 0, "{\"status\":") {
        Some(x) => x,
        None => {
            proof {
                assert forall|e: ResponseTodosView| e.wf() && body@ == #[trigger] list_env_chars(e)
                    implies false by {
                    assert(list_env_chars(e).is_prefix_of(body@.skip(0)));
                    lemma_list_prefixes(body@, 0, e);
                }
            }
            return None;
        },
    };
    let (status, j1) = match parse_string(body, j0) {
        Some(p) => p,
        None => {
            proof {
                assert forall|e: ResponseTodosView| e.wf() && body@ == #[trigger] list_env_chars(e)
                    implies false by {
                    assert(list_env_chars(e).is_prefix_of(body@.skip(0)));
                    lemma_list_prefixes(body@, 0, e);
                }
            }
            return None;
        },
    };
    let j2 = match expect_lit(body, j1, ",\"results\":") {
        Some(x) => x,
        None => {
            proof {
                assert forall|e: ResponseTodosView| e.wf() && body@ == #[trigger] list_env_chars(e)
                    implies false by {
                    assert(list_env_chars(e).is_prefix_of(body@.skip(0)));
                    lemma_list_prefixes(body@, 0, e);
                    assert(status@ == e.status && j1 == j0 + quoted_chars(e.status).len());
                }
            }
            return None;
        },
    };
    let (results, j3) = match parse_u32(body, j2) {
        Some(p) => p,
        None => {
            proof {
                assert forall|e: ResponseTodosView| e.wf() && body@ == #[trigger] list_env_chars(e)
                    implies false by {
                    assert(list_env_chars(e).is_prefix_of(body@.skip(0)));
                    lemma_list_prefixes(body@, 0, e);
                    assert(status@ == e.status && j1 == j0 + quoted_chars(e.status).len());
                }
            }
            return None;
        },
    };
    let j4 = match expect_lit(body, j3, ",\"todos\":") {
        Some(x) => x,
        None => {
            proof {
                assert forall|e: ResponseTodosView| e.wf() && body@ == #[trigger] list_env_chars(e)
                    implies false by {
                    assert(list_env_chars(e).is_prefix_of(body@.skip(0)));
                    lemma_list_prefixes(body@, 0, e);
                    assert(status@ == e.status && j1 == j0 + quoted_chars(e.status).len());
                    assert(results == e.results && j3 == j2 + dec_chars(e.results as int).len());
                }
            }
            return None;
        },
    };
    let (todos, j5) = match parse_todo_array(body, j4) {
        Some(p) => p,
        None => {
            proof {
                assert forall|e: ResponseTodosView| e.wf() && body@ == #[trigger] list_env_chars(e)
                    implies false by {
                    assert(list_env_chars(e).is_prefix_of(body@.skip(0)));
                    lemma_list_prefixes(body@, 0, e);
                    assert(status@ == e.status && j1 == j0 + quoted_chars(e.status).len());
                    assert(results == e.results && j3 == j2 + dec_chars(e.results as int).len());
                }
            }
            return None;
        },
    };
    let j6 = match expect_lit(body, j5, "}") {
        Some(x) => x,
        None => {
            proof {
                assert forall|e: ResponseTodosView| e.wf() && body@ == #[trigger] list_env_chars(e)
                    implies false by {
                    assert(list_env_chars(e).is_prefix_of(body@.skip(0)));
                    lemma_list_prefixes(body@, 0, e);
                    assert(status@ == e.status && j1 == j0 + quoted_chars(e.status).len());
                    assert(results == e.results && j3 == j2 + dec_chars(e.results as int).len());
                    assert(todos_view(todos@) == e.todos && j5 == j4 + todo_array_chars(
                        e.todos,
                    ).len());
                }
            }
            return None;
        },
    };
    if j6 != n {
        proof {
            assert forall|e: ResponseTodosView| e.wf() && body@ == #[trigger] list_env_chars(e)
                implies false by {
                assert(list_env_chars(e).is_prefix_of(body@.skip(0)));
                lemma_list_prefixes(body@, 0, e);
                assert(status@ == e.status && j1 == j0 + quoted_chars(e.status).len());
                assert(results == e.results && j3 == j2 + dec_chars(e.results as int).len());
                assert(todos_view(todos@) == e.todos && j5 == j4 + todo_array_chars(
                    e.todos,
                ).len());
            }
        }
        return None;
    }
    let env = ResponseTodos { status, results, todos };
    proof {
        lemma_subrange_cat(body@, 0, j0 as int, j1 as int);
        lemma_subrange_cat(body@, 0, j1 as int, j2 as int);
        lemma_subrange_cat(body@, 0, j2 as int, j3 as int);
        lemma_subrange_cat(body@, 0, j3 as int, j4 as int);
        lemma_subrange_cat(body@, 0, j4 as int, j5 as int);
        lemma_subrange_cat(body@, 0, j5 as int, j6 as int);
        assert(env@.todos == todos_view(todos@));
        assert(body@.subrange(0, j6 as int) =~= body@);
        assert(body@ == list_env_chars(env@));
        assert(env@.wf());
        assert forall|e: ResponseTodosView| e.wf() && body@ == #[trigger] list_env_chars(e)
            implies env@ == e by {
            assert(list_env_chars(e).is_prefix_of(body@.skip(0)));
            lemma_list_prefixes(body@, 0, e);
            assert(status@ == e.status);
            assert(results == e.results);
            assert(todos_view(todos@) == e.todos);
        }
    }
    Some(env)
}

/// Where a single-item envelope stands at position `i` of `s`, gives the
/// facts its parser needs.
#[verifier::rlimit(100)]
proof fn lemma_post_prefixes(s: Seq<char>, i: int, e: ResponsePostView)
    requires
        0 <= i <= s.len(),
        e.wf(),
        post_env_chars(e).is_prefix_of(s.skip(i)),
    ensures
        ("{\"status\":")@.is_prefix_of(s.skip(i)),
        quoted_chars(e.status).is_prefix_of(s.skip(i + ("{\"status\":")@.len())),
        (",\"data\":{\"todo\":")@.is_prefix_of(
            s.skip(i + ("{\"status\":")@.len() + quoted_chars(e.status).len()),
        ),
        e.data.todo.wf(),
        todo_chars(e.data.todo).is_prefix_of(
            s.skip(
                i + ("{\"status\":")@.len() + quoted_chars(e.status).len() + (",\"data\":{\"todo\":")@.len(),
            ),
        ),
        ("}}")@.is_prefix_of(
            s.skip(
                i + ("{\"status\":")@.len() + quoted_chars(e.status).len() + (",\"data\":{\"todo\":")@.len()
                    + todo_chars(e.data.todo).len(),
            ),
        ),
        post_env_chars(e).len() == ("{\"status\":")@.len() + quoted_chars(e.status).len()
            + (",\"data\":{\"todo\":")@.len() + todo_chars(e.data.todo).len() + ("}}")@.len(),
{
    let a = ("{\"status\":")@;
    let b = quoted_chars(e.status);
    let c = (",\"data\":{\"todo\":")@;
    let d = todo_chars(e.data.todo);
    let f = ("}}")@;
    let p = post_env_chars(e);
    let u = s.skip(i);
    assert(p =~= a + (b + (c + (d + f))));
    lemma_prefix_split(u, a, b + (c + (d + f)));
    lemma_skip_of_skip(s, i, a.len() as int);
    lemma_prefix_split(s.skip(i + a.len()), b, c + (d + f));
    lemma_skip_of_skip(s, i + a.len(), b.len() as int);
    lemma_prefix_split(s.skip(i + a.len() + b.len()), c, d + f);
    lemma_skip_of_skip(s, i + a.len() + b.len(), c.len() as int);
    lemma_prefix_split(s.skip(i + a.len() + b.len() + c.len()), d, f);
    lemma_skip_of_skip(s, i + a.len() + b.len() + c.len(), d.len() as int);
}

/// Decodes the single-item response envelope: accepts exactly the wire form
/// and returns the envelope that produced it. Together with
/// `encode_post_response` this states the round-trip law for the single-item
/// shape.
#[verifier::rlimit(100)]
pub fn decode_post_body(body: &str) -> (r: Option<ResponsePost>)
    ensures
        match r {
            Some(env) => env@.wf() && body@ == post_env_chars(env@),
            None => true,
        },
        forall|e: ResponsePostView|
            e.wf() && body@ == #[trigger] post_env_chars(e) ==> (r matches Some(env) && env@ == e),
{
    let n = s_len(body);
    proof {
        assert(body@.skip(0) =~= body@);
    }
    let j0 = match expect_lit(body, 0, "{\"status\":") {
        Some(x) => x,
        None => {
            proof {
                assert forall|e: ResponsePostView| e.wf() && body@ == #[trigger] post_env_chars(e)
                    implies false by {
                    assert(post_env_chars(e).is_prefix_of(body@.skip(0)));
                    lemma_post_prefixes(body@, 0, e);
                }
            }
            return None;
        },
    };
    let (status, j1) = match parse_string(body, j0) {
        Some(p) => p,
        None => {
            proof {
                assert forall|e: ResponsePostView| e.wf() && body@ == #[trigger] post_env_chars(e)
                    implies false by {
                    assert(post_env_chars(e).is_prefix_of(body@.skip(0)));
                    lemma_post_prefixes(body@, 0, e);
                }
            }
            return None;
        },
    };
    let j2 = match expect_lit(body, j1, ",\"data\":{\"todo\":") {
        Some(x) => x,
        None => {
            proof {
                assert forall|e: ResponsePostView| e.wf() && body@ == #[trigger] post_env_chars(e)
                    implies false by {
                    assert(post_env_chars(e).is_prefix_of(body@.skip(0)));
                    lemma_post_prefixes(body@, 0, e);
                    assert(status@ == e.status && j1 == j0 + quoted_chars(e.status).len());
                }
            }
            return None;
        },
    };
    let (todo, j3) = match parse_todo(body, j2) {
        Some(p) => p,
        None => {
            proof {
                assert forall|e: ResponsePostView| e.wf() && body@ == #[trigger] post_env_chars(e)
                    implies false by {
                    assert(post_env_chars(e).is_prefix_of(body@.skip(0)));
                    lemma_post_prefixes(body@, 0, e);
                    assert(status@ == e.status && j1 == j0 + quoted_chars(e.status).len());
                }
            }
            return None;
        },
    };
    let j4 = match expect_lit(body, j3, "}}") {
        Some(x) => x,
        None => {
            proof {
                assert forall|e: ResponsePostView| e.wf() && body@ == #[trigger] post_env_chars(e)
                    implies false by {
                    assert(post_env_chars(e).is_prefix_of(body@.skip(0)));
                    lemma_post_prefixes(body@, 0, e);
                    assert(status@ == e.status && j1 == j0 + quoted_chars(e.status).len());
                    assert(todo@ == e.data.todo && j3 == j2 + todo_chars(e.data.todo).len());
                }
            }
            return None;
        },
    };
    if j4 != n {
        proof {
            assert forall|e: ResponsePostView| e.wf() && body@ == #[trigger] post_env_chars(e)
                implies false by {
                assert(post_env_chars(e).is_prefix_of(body@.skip(0)));
                lemma_post_prefixes(body@, 0, e);
                assert(status@ == e.status && j1 == j0 + quoted_chars(e.status).len());
                assert(todo@ == e.data.todo && j3 == j2 + todo_chars(e.data.todo).len());
            }
        }
        return None;
    }
    let env = ResponsePost { status, data: TodoData { todo } };
    proof {
        lemma_subrange_cat(body@, 0, j0 as int, j1 as int);
        lemma_subrange_cat(body@, 0, j1 as int, j2 as int);
        lemma_subrange_cat(body@, 0, j2 as int, j3 as int);
        lemma_subrange_cat(body@, 0, j3 as int, j4 as int);
        assert(body@.subrange(0, j4 as int) =~= body@);
        assert(body@ == post_env_chars(env@));
        assert(env@.wf());
        assert forall|e: ResponsePostView| e.wf() && body@ == #[trigger] post_env_chars(e)
            implies env@ == e by {
            assert(post_env_chars(e).is_prefix_of(body@.skip(0)));
            lemma_post_prefixes(body@, 0, e);
            assert(status@ == e.status);
            assert(todo@ == e.data.todo);
        }
    }
    Some(env)
}

} // verus!
