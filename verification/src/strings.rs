//! String utilities: character-level helpers shared by the text-handling
//! functions, and small verified string transformations.

use vstd::prelude::*;

verus! {

/// Relies on `String::push`: appending one character to a string appends
/// exactly that character to its character sequence.
#[verifier::external_body]
pub(crate) fn push_char(s: &mut String, c: char)
    ensures
        final(s)@ == old(s)@.push(c),
{
    s.push(c);
}

/// The characters of a string slice, as a vector.
pub(crate) fn chars_vec(s: &str) -> (r: Vec<char>)
    ensures
        r@ == s@,
{
    let n = s.unicode_len();
    let mut r: Vec<char> = Vec::new();
    let mut i: usize = 0;
    while i < n
        invariant
            n == s@.len(),
            i <= n,
            r@ == s@.take(i as int),
        decreases n - i,
    {
        let c = s.get_char(i);
        r.push(c);
        proof {
            assert(r@ =~= s@.take(i as int + 1));
        }
        i += 1;
    }
    proof {
        assert(s@.take(n as int) =~= s@);
    }
    r
}

/// A string holding exactly the given characters, in order.
pub(crate) fn string_from_chars(v: &Vec<char>) -> (r: String)
    ensures
        r@ == v@,
{
    let mut r = String::new();
    let n = v.len();
    let mut i: usize = 0;
    while i < n
        invariant
            n == v.len(),
            i <= n,
            r@ == v@.take(i as int),
        decreases n - i,
    {
        push_char(&mut r, v[i]);
        proof {
            assert(r@ =~= v@.take(i as int + 1));
        }
        i += 1;
    }
    proof {
        assert(v@.take(n as int) =~= v@);
    }
    r
}

/// Whether two string slices hold the same characters.
pub(crate) fn str_eq(a: &str, b: &str) -> (r: bool)
    ensures
        r == (a@ == b@),
{
    let na = a.unicode_len();
    let nb = b.unicode_len();
    if na != nb {
        return false;
    }
    let mut i: usize = 0;
    while i < na
        invariant
            na == a@.len(),
            na == b@.len(),
            i <= na,
            forall|k: int| 0 <= k < i ==> a@[k] == b@[k],
        decreases na - i,
    {
        if a.get_char(i) != b.get_char(i) {
            return false;
        }
        i += 1;
    }
    proof {
        assert(a@ =~= b@);
    }
    true
}

/// The lowercase form of a character sequence. The result is a function of
/// the characters alone; one character may lower to several.
pub uninterp spec fn lower_of(s: Seq<char>) -> Seq<char>;

/// Relies on `str::to_lowercase`: the Unicode lowercase mapping depends on
/// the characters alone.
#[verifier::external_body]
pub(crate) fn lowercase(s: &str) -> (r: String)
    ensures
        r@ == lower_of(s@),
{
    s.to_lowercase()
}

/// Whether a text has no repeated characters, ignoring case: its length
/// equals the number of distinct characters of its lowercase form.
pub fn check_unique(inpt: &String) -> (r: bool)
    ensures
        r == (inpt@.len() == lower_of(inpt@).to_set().len()),
{
    let total = inpt.as_str().unicode_len();
    let lowered = lowercase(inpt.as_str());
    let lv = chars_vec(lowered.as_str());
    let n = lv.len();
    let mut seen: Vec<char> = Vec::new();
    let mut i: usize = 0;
    proof {
        assert(seen@.to_set() =~= lv@.take(0).to_set());
    }
    while i < n
        invariant
            n == lv.len(),
            lv@ == lower_of(inpt@),
            i <= n,
            seen@.no_duplicates(),
            seen@.to_set() == lv@.take(i as int).to_set(),
        decreases n - i,
    {
        let c = lv[i];
        let mut dup = false;
        let m = seen.len();
        let mut k: usize = 0;
        while k < m
            invariant
                m == seen.len(),
                k <= m,
                dup == exists|q: int| 0 <= q < k && seen@[q] == c,
            decreases m - k,
        {
            if seen[k] == c {
                dup = true;
            }
            k += 1;
        }
        proof {
            assert(dup == seen@.contains(c));
            assert(lv@.take(i as int + 1) =~= lv@.take(i as int).push(c));
            lemma_char_to_set_push(lv@.take(i as int), c);
        }
        if !dup {
            let ghost s0 = seen@;
            seen.push(c);
            proof {
                lemma_char_to_set_push(s0, c);
                assert(seen@ == s0.push(c));
                assert(seen@.no_duplicates()) by {
                    assert forall|x: int, y: int|
                        0 <= x < y < seen@.len() implies seen@[x] != seen@[y] by {
                        if y < s0.len() {
                        } else {
                            assert(seen@[y] == c);
                            assert(s0[x] == seen@[x]);
                            assert(s0.contains(s0[x]) == true);
                        }
                    }
                }
            }
        } else {
            proof {
                assert(lv@.take(i as int).to_set().insert(c) =~= lv@.take(i as int).to_set());
            }
        }
        i += 1;
    }
    proof {
        assert(lv@.take(n as int) =~= lv@);
        seen@.unique_seq_to_set();
    }
    total == seen.len()
}

/// Appending a character inserts it into the set of characters.
proof fn lemma_char_to_set_push(s: Seq<char>, x: char)
    ensures
        s.push(x).to_set() == s.to_set().insert(x),
{
    assert forall|y: char| s.push(x).to_set().contains(y) implies s.to_set().insert(x).contains(
        y,
    ) by {
        let i = choose|i: int| 0 <= i < s.push(x).len() && s.push(x)[i] == y;
        if i < s.len() {
            assert(s[i] == y);
        }
    }
    assert forall|y: char| s.to_set().insert(x).contains(y) implies s.push(x).to_set().contains(
        y,
    ) by {
        if y == x {
            assert(s.push(x)[s.len() as int] == x);
        } else {
            let i = choose|i: int| 0 <= i < s.len() && s[i] == y;
            assert(s.push(x)[i] == y);
        }
    }
    assert(s.push(x).to_set() =~= s.to_set().insert(x));
}

/// The length of the run of non-whitespace characters at the head of `s`.
pub open spec fn word_run(s: Seq<char>) -> int
    decreases s.len(),
{
    if s.len() == 0 || crate::bignum::is_space(s[0]) {
        0
    } else {
        1 + word_run(s.drop_first())
    }
}

/// A word run is no longer than the text, and non-empty exactly when the
/// head is not whitespace.
proof fn lemma_word_run_bounds(s: Seq<char>)
    ensures
        0 <= word_run(s) <= s.len(),
        s.len() > 0 && !crate::bignum::is_space(s[0]) ==> word_run(s) >= 1,
    decreases s.len(),
{
    if s.len() > 0 && !crate::bignum::is_space(s[0]) {
        lemma_word_run_bounds(s.drop_first());
    }
}

#[via_fn]
proof fn words_of_dec(s: Seq<char>) {
    lemma_word_run_bounds(s);
}

/// The words of a text: its maximal runs of non-whitespace characters, in
/// order. Whitespace here is the ASCII kind: space, tab, newline, return.
pub open spec fn words_of(s: Seq<char>) -> Seq<Seq<char>>
    decreases s.len(),
    via words_of_dec
{
    if s.len() == 0 {
        Seq::empty()
    } else if crate::bignum::is_space(s[0]) {
        words_of(s.drop_first())
    } else {
        seq![s.take(word_run(s))] + words_of(s.skip(word_run(s)))
    }
}

/// The words joined by single spaces.
pub open spec fn join_words(ws: Seq<Seq<char>>) -> Seq<char>
    decreases ws.len(),
{
    if ws.len() == 0 {
        Seq::empty()
    } else if ws.len() == 1 {
        ws[0]
    } else {
        join_words(ws.drop_last()) + seq![' '] + ws.last()
    }
}

/// Reverses the order of a string's words in place: the words — maximal
/// runs of non-whitespace — come out in reverse order, joined by single
/// spaces, so any leading, trailing or repeated whitespace collapses.
pub fn reverse_words_string(string: &mut String)
    ensures
        final(string)@ == join_words(words_of(old(string)@).reverse()),
{
    let v = chars_vec(string.as_str());
    let n = v.len();

    // Collect the words.
    let mut words: Vec<Vec<char>> = Vec::new();
    let mut i: usize = 0;
    proof {
        assert(v@.skip(0) =~= v@);
        assert(words.deep_view() + words_of(v@) =~= words_of(v@));
    }
    while i < n
        invariant
            n == v.len(),
            v@ == old(string)@,
            i <= n,
            words.deep_view() + words_of(v@.skip(i as int)) == words_of(v@),
        decreases n - i,
    {
        let ghost rest = v@.skip(i as int);
        let ghost dv0 = words.deep_view();
        proof {
            assert(rest[0] == v@[i as int]);
            assert(rest.drop_first() =~= v@.skip(i as int + 1));
        }
        if is_space_exec(v[i]) {
            i += 1;
        } else {
            let ghost k = word_run(rest);
            let mut w: Vec<char> = Vec::new();
            let mut j = i;
            while j < n && !is_space_exec(v[j])
                invariant
                    n == v.len(),
                    v@ == old(string)@,
                    rest == v@.skip(i as int),
                    i <= j <= n,
                    forall|m: int| 0 <= m < j - i ==> !crate::bignum::is_space(#[trigger] rest[m]),
                    w@ == rest.take(j - i),
                decreases n - j,
            {
                let ghost w0 = w@;
                w.push(v[j]);
                proof {
                    assert(rest[j - i] == v@[j as int]);
                    assert(w@ =~= rest.take(j - i + 1));
                }
                j += 1;
            }
            proof {
                if j < n {
                    assert(rest[j - i] == v@[j as int]);
                }
                lemma_word_run_at(rest, j - i);
                assert(k == j - i);
                assert(rest.skip(k) =~= v@.skip(j as int));
                assert(words_of(rest) == seq![rest.take(k)] + words_of(rest.skip(k)));
                assert(w.deep_view() =~= w@);
            }
            words.push(w);
            proof {
                assert(words.deep_view() =~= dv0.push(rest.take(k)));
                assert(dv0.push(rest.take(k)) + words_of(v@.skip(j as int)) =~= dv0 + (seq![
                    rest.take(k),
                ] + words_of(rest.skip(k))));
            }
            i = j;
        }
    }
    proof {
        assert(v@.skip(n as int) =~= Seq::<char>::empty());
        assert(words_of(Seq::<char>::empty()) =~= Seq::<Seq<char>>::empty());
        assert(words.deep_view() + Seq::<Seq<char>>::empty() =~= words.deep_view());
    }

    // Emit them backwards, single spaces in between.
    let ghost rws = words.deep_view().reverse();
    let m = words.len();
    let mut out: Vec<char> = Vec::new();
    let mut t: usize = 0;
    proof {
        assert(rws.take(0) =~= Seq::<Seq<char>>::empty());
    }
    while t < m
        invariant
            m == words.len(),
            rws == words.deep_view().reverse(),
            t <= m,
            out@ == join_words(rws.take(t as int)),
        decreases m - t,
    {
        let ghost o0 = out@;
        if t > 0 {
            out.push(' ');
        }
        let w = &words[m - 1 - t];
        let wl = w.len();
        let ghost mid = out@;
        let mut q: usize = 0;
        while q < wl
            invariant
                wl == w.len(),
                q <= wl,
                out@ == mid + w@.take(q as int),
            decreases wl - q,
        {
            out.push(w[q]);
            proof {
                assert(out@ =~= mid + w@.take(q as int + 1));
            }
            q += 1;
        }
        proof {
            assert(w@.take(wl as int) =~= w@);
            assert(w@ == rws[t as int]) by {
                assert(rws[t as int] == words.deep_view()[m - 1 - t]);
            }
            assert(rws.take(t as int + 1).drop_last() =~= rws.take(t as int));
            assert(rws.take(t as int + 1).last() == rws[t as int]);
            if t == 0 {
                assert(out@ =~= join_words(rws.take(1)));
            } else {
                assert(out@ =~= join_words(rws.take(t as int)) + seq![' '] + rws[t as int]);
            }
        }
        t += 1;
    }
    proof {
        assert(rws.take(m as int) =~= rws);
    }
    *string = string_from_chars(&out);
}

/// The head word run ends exactly where the non-whitespace ends.
proof fn lemma_word_run_at(s: Seq<char>, k: int)
    requires
        0 <= k <= s.len(),
        forall|m: int| 0 <= m < k ==> !crate::bignum::is_space(#[trigger] s[m]),
        k == s.len() || crate::bignum::is_space(s[k]),
    ensures
        word_run(s) == k,
    decreases s.len(),
{
    if k == 0 {
    } else {
        assert(!crate::bignum::is_space(s[0]));
        let d = s.drop_first();
        assert forall|m: int| 0 <= m < k - 1 implies !crate::bignum::is_space(
            #[trigger] d[m],
        ) by {
            assert(d[m] == s[m + 1]);
        }
        lemma_word_run_at(d, k - 1);
    }
}

/// Whether a character is ASCII whitespace, executable.
fn is_space_exec(c: char) -> (r: bool)
    ensures
        r == crate::bignum::is_space(c),
{
    c == ' ' || c == '\t' || c == '\n' || c == '\r'
}

/// Reverses a string in place, character by character.
pub fn reverse_string(string: &mut String)
    ensures
        final(string)@ == old(string)@.reverse(),
{
    let v = chars_vec(string.as_str());
    let n = v.len();
    let mut out: Vec<char> = Vec::new();
    let mut i: usize = 0;
    while i < n
        invariant
            n == v.len(),
            v@ == old(string)@,
            i <= n,
            out@.len() == i,
            forall|k: int| 0 <= k < i ==> out@[k] == v@[n - 1 - k],
        decreases n - i,
    {
        out.push(v[n - 1 - i]);
        i += 1;
    }
    proof {
        assert(out@ =~= old(string)@.reverse());
    }
    *string = string_from_chars(&out);
}

} // verus!
