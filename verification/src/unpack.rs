//! Run-length string unpacking.
//!
//! A digit run repeats the character before it: `"a4bc2d5e"` unpacks to
//! `"aaaabccddddde"`, `"a10"` to ten `a`s. A backslash escapes the next
//! character, so `"qwe\\4\\5"` unpacks to `"qwe45"`; an escaped character
//! can itself be repeated. A string may not start with an unescaped digit,
//! and may not end in the middle of an escape sequence.

use vstd::prelude::*;

use crate::bignum::{digit_val, is_digit_char};
use crate::strings::{chars_vec, push_char, string_from_chars};

verus! {

/// An input string that cannot be unpacked.
#[derive(Debug)]
pub struct UnpackError(pub String);

/// The length of the digit run at the head of `s`.
pub open spec fn digit_run(s: Seq<char>) -> int
    decreases s.len(),
{
    if s.len() == 0 || !is_digit_char(s[0]) {
        0
    } else {
        1 + digit_run(s.drop_first())
    }
}

/// The number a run of digit characters denotes, most significant first.
pub open spec fn run_value(t: Seq<char>) -> nat
    decreases t.len(),
{
    if t.len() == 0 {
        0
    } else {
        (run_value(t.drop_last()) * 10 + digit_val(t.last())) as nat
    }
}

/// `n` copies of one character.
pub open spec fn repeat_char(c: char, n: nat) -> Seq<char> {
    Seq::new(n, |i: int| c)
}

/// What unpacking the rest `s` does to the output built so far, with
/// `escape` set when the previous character was an unconsumed backslash.
/// `None` is a malformed input: a digit with nothing before it to repeat,
/// or a trailing backslash.
pub open spec fn unpack_rec(s: Seq<char>, escape: bool, acc: Seq<char>) -> Option<Seq<char>>
    decreases s.len(),
    via unpack_rec_dec
{
    if s.len() == 0 {
        if escape {
            None
        } else {
            Some(acc)
        }
    } else {
        let c = s[0];
        if escape {
            unpack_rec(s.drop_first(), false, acc.push(c))
        } else if c == '\\' {
            unpack_rec(s.drop_first(), true, acc)
        } else if is_digit_char(c) {
            if acc.len() == 0 {
                None
            } else {
                let k = digit_run(s);
                unpack_rec(
                    s.skip(k),
                    false,
                    acc.drop_last() + repeat_char(acc.last(), run_value(s.take(k))),
                )
            }
        } else {
            unpack_rec(s.drop_first(), false, acc.push(c))
        }
    }
}

/// The unpacking of a whole string.
pub open spec fn unpack_spec(s: Seq<char>) -> Option<Seq<char>> {
    unpack_rec(s, false, Seq::empty())
}

/// Every digit run of the input (in its escape-aware reading) denotes a
/// count that fits a 32-bit repeat counter.
pub open spec fn counts_ok(s: Seq<char>, escape: bool) -> bool
    decreases s.len(),
    via counts_ok_dec
{
    if s.len() == 0 {
        true
    } else if escape {
        counts_ok(s.drop_first(), false)
    } else if s[0] == '\\' {
        counts_ok(s.drop_first(), true)
    } else if is_digit_char(s[0]) {
        run_value(s.take(digit_run(s))) <= u32::MAX && counts_ok(s.skip(digit_run(s)), false)
    } else {
        counts_ok(s.drop_first(), false)
    }
}

/// The digit run at the head of a string is no longer than the string,
/// and is non-empty exactly when the head is a digit.
proof fn lemma_digit_run_bounds(s: Seq<char>)
    ensures
        0 <= digit_run(s) <= s.len(),
        s.len() > 0 && is_digit_char(s[0]) ==> digit_run(s) >= 1,
    decreases s.len(),
{
    if s.len() > 0 && is_digit_char(s[0]) {
        lemma_digit_run_bounds(s.drop_first());
    }
}

#[via_fn]
proof fn unpack_rec_dec(s: Seq<char>, escape: bool, acc: Seq<char>) {
    lemma_digit_run_bounds(s);
}

#[via_fn]
proof fn counts_ok_dec(s: Seq<char>, escape: bool) {
    lemma_digit_run_bounds(s);
}

/// The head digit run ends exactly where the digits end.
proof fn lemma_digit_run_at(s: Seq<char>, k: int)
    requires
        0 <= k <= s.len(),
        forall|m: int| 0 <= m < k ==> is_digit_char(#[trigger] s[m]),
        k == s.len() || !is_digit_char(s[k]),
    ensures
        digit_run(s) == k,
    decreases s.len(),
{
    if k == 0 {
    } else {
        assert(is_digit_char(s[0]));
        let d = s.drop_first();
        assert(forall|m: int| 0 <= m < d.len() ==> d[m] == s[m + 1]);
        lemma_digit_run_at(d, k - 1);
    }
}

/// Reading one more digit multiplies the count by ten and adds it.
proof fn lemma_run_value_snoc(t: Seq<char>, c: char)
    ensures
        run_value(t.push(c)) == run_value(t) * 10 + digit_val(c),
{
    assert(t.push(c).drop_last() =~= t);
    assert(t.push(c).last() == c);
}

/// A prefix of a digit run denotes no more than the whole run.
proof fn lemma_run_value_prefix(t: Seq<char>, m: int)
    requires
        0 <= m <= t.len(),
    ensures
        run_value(t.take(m)) <= run_value(t),
    decreases t.len() - m,
{
    if m < t.len() {
        lemma_run_value_prefix(t, m + 1);
        assert(t.take(m + 1) =~= t.take(m).push(t[m]));
        lemma_run_value_snoc(t.take(m), t[m]);
        assert(run_value(t.take(m)) * 10 >= run_value(t.take(m)));
    } else {
        assert(t.take(m) =~= t);
    }
}

/// Unpacks `input`: digit runs repeat the preceding character, and a
/// backslash escapes the character after it. Fails exactly on a malformed
/// input — one that starts with an unescaped digit after nothing, or ends
/// inside an escape sequence.
pub fn unpack_string(input: &str) -> (r: Result<String, UnpackError>)
    requires
        counts_ok(input@, false),
    ensures
        r is Ok <==> unpack_spec(input@) is Some,
        r matches Ok(s) ==> unpack_spec(input@) == Some(s@),
{
    let v = chars_vec(input);
    let n = v.len();
    let mut out: Vec<char> = Vec::new();
    let mut escape = false;
    let mut i: usize = 0;
    proof {
        assert(v@.skip(0) =~= input@);
    }
    while i < n
        invariant
            n == v.len(),
            v@ == input@,
            i <= n,
            counts_ok(v@.skip(i as int), escape),
            unpack_rec(v@.skip(i as int), escape, out@) == unpack_spec(input@),
        decreases n - i,
    {
        let ghost rest = v@.skip(i as int);
        let c = v[i];
        proof {
            assert(rest[0] == c);
            assert(rest.drop_first() =~= v@.skip(i as int + 1));
        }
        if escape {
            out.push(c);
            escape = false;
            i += 1;
        } else if c == '\\' {
            escape = true;
            i += 1;
        } else {
            let u = c as u32;
            if 48 <= u && u <= 57 {
                proof {
                    assert(is_digit_char(c));
                }
                if out.len() == 0 {
                    proof {
                        assert(unpack_spec(input@) is None);
                    }
                    return Err(UnpackError(msg_digit_start(c)));
                }
                // Read the whole digit run into a repeat count.
                let ghost k = digit_run(rest);
                let mut rc: u32 = u - 48;
                let mut j = i + 1;
                proof {
                    assert(rest.take(1) =~= seq![c]);
                    assert(seq![c].drop_last() =~= Seq::<char>::empty());
                    assert(run_value(Seq::<char>::empty()) == 0);
                    assert(run_value(rest.take(1)) == digit_val(c));
                }
                while j < n && is_digit(v[j])
                    invariant
                        n == v.len(),
                        v@ == input@,
                        i < j <= n,
                        rest == v@.skip(i as int),
                        counts_ok(rest, false),
                        is_digit_char(rest[0]),
                        forall|m: int| 0 <= m < j - i ==> is_digit_char(#[trigger] rest[m]),
                        rc == run_value(rest.take(j - i)),
                    decreases n - j,
                {
                    let d = v[j];
                    proof {
                        assert(rest[j - i] == d);
                        assert(is_digit_char(d));
                        // The count so far, and after this digit, is a
                        // prefix of the head run's count, which fits.
                        lemma_digit_run_bounds(rest);
                        lemma_run_at_least(rest, j - i + 1);
                        assert(run_value(rest.take(digit_run(rest))) <= u32::MAX);
                        lemma_run_value_prefix(rest.take(digit_run(rest)), j - i + 1);
                        assert(rest.take(digit_run(rest)).take(j - i + 1) =~= rest.take(
                            j - i + 1,
                        ));
                        assert(rest.take(j - i + 1) =~= rest.take(j - i).push(d));
                        lemma_run_value_snoc(rest.take(j - i), d);
                        assert(run_value(rest.take(j - i + 1)) <= u32::MAX);
                    }
                    rc = rc * 10 + (d as u32 - 48);
                    j += 1;
                }
                proof {
                    if j < n {
                        assert(rest[j - i] == v@[j as int]);
                        assert(!is_digit_char(rest[j - i]));
                    }
                    lemma_digit_run_at(rest, j - i);
                    assert(k == j - i);
                }
                // Repeat the last output character `rc` times in its place.
                let ghost whole = out@;
                let prev = out.pop().unwrap();
                proof {
                    assert(prev == whole.last());
                    assert(out@ == whole.drop_last());
                }
                let ghost base = out@;
                let mut rep: u32 = 0;
                while rep < rc
                    invariant
                        rep <= rc,
                        out@ == base + repeat_char(prev, rep as nat),
                    decreases rc - rep,
                {
                    out.push(prev);
                    proof {
                        assert(out@ =~= base + repeat_char(prev, (rep + 1) as nat));
                    }
                    rep += 1;
                }
                proof {
                    assert(rest.skip(k) =~= v@.skip(j as int));
                    assert(rc == run_value(rest.take(k)));
                    assert(out@ == whole.drop_last() + repeat_char(whole.last(), run_value(
                        rest.take(k),
                    )));
                    assert(unpack_rec(rest, false, whole) == unpack_rec(rest.skip(k), false, out@));
                    assert(counts_ok(rest.skip(k), false));
                }
                i = j;
            } else {
                out.push(c);
                i += 1;
            }
        }
    }
    proof {
        assert(v@.skip(n as int) =~= Seq::<char>::empty());
    }
    if escape {
        return Err(UnpackError(msg_incomplete_escape()));
    }
    Ok(string_from_chars(&out))
}

/// Whether a character is a decimal digit, as an executable test.
fn is_digit(c: char) -> (r: bool)
    ensures
        r == is_digit_char(c),
{
    let u = c as u32;
    48 <= u && u <= 57
}

/// The run at the head is at least this long once its digits are seen.
proof fn lemma_run_at_least(s: Seq<char>, k: int)
    requires
        0 <= k <= s.len(),
        forall|m: int| 0 <= m < k ==> is_digit_char(#[trigger] s[m]),
    ensures
        digit_run(s) >= k,
    decreases k,
{
    lemma_digit_run_bounds(s);
    if k > 0 {
        assert(is_digit_char(s[0]));
        let d = s.drop_first();
        assert forall|m: int| 0 <= m < k - 1 implies is_digit_char(#[trigger] d[m]) by {
            assert(d[m] == s[m + 1]);
        }
        lemma_run_at_least(d, k - 1);
        assert(digit_run(s) == 1 + digit_run(d));
    }
}

/// The message for an input that starts with a digit.
fn msg_digit_start(c: char) -> (r: String)
    ensures
        r@ == "Invalid start with digit: "@.push(c),
{
    let mut r = String::from_str("Invalid start with digit: ");
    push_char(&mut r, c);
    r
}

/// The message for an input that ends inside an escape sequence.
fn msg_incomplete_escape() -> (r: String)
    ensures
        r@ == "Incomplete escape sequence"@,
{
    let r = String::from_str("Incomplete escape sequence");
    r
}

} // verus!
