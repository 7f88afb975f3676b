//! Letter frequencies of a text.

use vstd::prelude::*;

verus! {

/// The alphabet position of an ASCII letter, case-insensitively; anything
/// else counts for no letter.
pub open spec fn letter_index(c: char) -> int {
    if 97 <= c as u32 <= 122 {
        c as u32 - 97
    } else if 65 <= c as u32 <= 90 {
        c as u32 - 65
    } else {
        26
    }
}

/// How many characters of `s` are the letter at alphabet position `i`,
/// counting both cases.
pub open spec fn letter_count(s: Seq<char>, i: int) -> nat
    decreases s.len(),
{
    if s.len() == 0 {
        0
    } else {
        letter_count(s.drop_last(), i) + (if letter_index(s.last()) == i {
            1nat
        } else {
            0nat
        })
    }
}

/// Counts how often each of the twenty-six ASCII letters occurs in the
/// text, case-insensitively: slot `i` of the result holds the number of
/// occurrences of the `i`-th letter of the alphabet, in either case.
pub fn count_letter_frequency(text: &str) -> (r: Vec<u64>)
    ensures
        r@.len() == 26,
        forall|i: int| 0 <= i < 26 ==> r@[i] == letter_count(text@, i),
{
    let v = crate::strings::chars_vec(text);
    let n = v.len();
    let mut counts: Vec<u64> = Vec::new();
    let mut z: usize = 0;
    while z < 26
        invariant
            z <= 26,
            counts@.len() == z,
            forall|i: int| 0 <= i < z ==> counts@[i] == 0,
        decreases 26 - z,
    {
        counts.push(0);
        z += 1;
    }
    let mut k: usize = 0;
    proof {
        assert(v@.take(0) =~= Seq::<char>::empty());
        assert(forall|i: int|
            0 <= i < 26 ==> counts@[i] == letter_count(Seq::<char>::empty(), i));
    }
    while k < n
        invariant
            n == v.len(),
            v@ == text@,
            k <= n,
            counts@.len() == 26,
            forall|i: int| 0 <= i < 26 ==> counts@[i] == letter_count(v@.take(k as int), i),
            forall|i: int| 0 <= i < 26 ==> counts@[i] <= k,
        decreases n - k,
    {
        let c = v[k];
        let u = c as u32;
        let ghost c0 = counts@;
        let idx: usize = if 97 <= u && u <= 122 {
            (u - 97) as usize
        } else if 65 <= u && u <= 90 {
            (u - 65) as usize
        } else {
            26
        };
        proof {
            assert(idx == letter_index(c) || (idx == 26 && letter_index(c) == 26));
        }
        if idx < 26 {
            let cur = counts[idx];
            counts.set(idx, cur + 1);
        }
        proof {
            assert(v@.take(k as int + 1) =~= v@.take(k as int).push(c));
            assert(v@.take(k as int + 1).drop_last() =~= v@.take(k as int));
            assert forall|i: int| 0 <= i < 26 implies counts@[i] == letter_count(
                v@.take(k as int + 1),
                i,
            ) by {
                assert(letter_count(v@.take(k as int + 1), i) == letter_count(
                    v@.take(k as int),
                    i,
                ) + (if letter_index(c) == i {
                    1nat
                } else {
                    0nat
                }));
                if i != idx {
                    assert(counts@[i] == c0[i]);
                }
            }
        }
        k += 1;
    }
    proof {
        assert(v@.take(n as int) =~= v@);
    }
    counts
}

} // verus!
