//! Line matching with context windows: which lines of a text match a
//! pattern, and the surrounding lines to show for each. Reading the file
//! and printing are the host's business; the matching itself is decided
//! here.

use vstd::prelude::*;

use crate::strings::{chars_vec, lower_of, lowercase, str_eq};

verus! {

/// Matching options. `count` and `line_num` only direct how a host prints
/// a report; `context` is a convenience the host folds into `after` and
/// `before` when it parses its arguments.
pub struct GrepOptions {
    pub after: usize,
    pub before: usize,
    pub context: usize,
    pub count: bool,
    pub ignore_case: bool,
    pub invert: bool,
    pub fixed: bool,
    pub line_num: bool,
}

impl GrepOptions {
    /// The default options: no context, match anywhere in a line,
    /// case-sensitively.
    pub fn new() -> (r: Self)
        ensures
            r.after == 0,
            r.before == 0,
            r.context == 0,
            !r.count,
            !r.ignore_case,
            !r.invert,
            !r.fixed,
            !r.line_num,
    {
        GrepOptions {
            after: 0,
            before: 0,
            context: 0,
            count: false,
            ignore_case: false,
            invert: false,
            fixed: false,
            line_num: false,
        }
    }
}

/// Whether `needle` occurs contiguously somewhere in `haystack`.
pub open spec fn contains_sub(haystack: Seq<char>, needle: Seq<char>) -> bool {
    exists|i: int|
        0 <= i <= haystack.len() - needle.len() && #[trigger] haystack.subrange(
            i,
            i + needle.len(),
        ) == needle
}

/// Whether one line matches the pattern under the given options:
/// case-insensitive matching lowercases both sides; a fixed match is whole-
/// line equality, otherwise a substring occurrence; inversion flips it.
pub open spec fn line_matches(line: Seq<char>, pattern: Seq<char>, opts: GrepOptions) -> bool {
    let l = if opts.ignore_case {
        lower_of(line)
    } else {
        line
    };
    let p = if opts.ignore_case {
        lower_of(pattern)
    } else {
        pattern
    };
    let hit = if opts.fixed {
        l == p
    } else {
        contains_sub(l, p)
    };
    if opts.invert {
        !hit
    } else {
        hit
    }
}

/// The indexes of the matching lines, in order.
pub open spec fn matched_idxs(
    lines: Seq<Seq<char>>,
    pattern: Seq<char>,
    opts: GrepOptions,
) -> Seq<int>
    decreases lines.len(),
{
    if lines.len() == 0 {
        Seq::empty()
    } else if line_matches(lines.last(), pattern, opts) {
        matched_idxs(lines.drop_last(), pattern, opts).push(lines.len() - 1)
    } else {
        matched_idxs(lines.drop_last(), pattern, opts)
    }
}

/// The context window around a matching line: `before` lines above it and
/// `after` lines below it, clipped to the text.
pub open spec fn window(
    lines: Seq<Seq<char>>,
    idx: int,
    before: nat,
    after: nat,
) -> Seq<Seq<char>> {
    let start = if idx >= before {
        idx - before
    } else {
        0
    };
    let end = if idx + after + 1 <= lines.len() {
        idx + after + 1
    } else {
        lines.len() as int
    };
    lines.subrange(start, end)
}

/// What matching found: how many lines matched, and for each match its
/// one-based line number with its context window.
pub struct GrepReport {
    pub match_count: usize,
    pub matched_lines: Vec<(usize, Vec<String>)>,
}

/// Matches every line against the pattern: the report counts the matching
/// lines and carries, for each in order, its one-based line number and its
/// context window.
pub fn grep(pattern: &str, lines: &Vec<String>, options: &GrepOptions) -> (r: GrepReport)
    ensures
        r.match_count == matched_idxs(lines.deep_view(), pattern@, *options).len(),
        r.matched_lines@.len() == r.match_count,
        forall|q: int|
            0 <= q < r.matched_lines@.len() ==> #[trigger] r.matched_lines@[q].0 == matched_idxs(
                lines.deep_view(),
                pattern@,
                *options,
            )[q] + 1,
        forall|q: int|
            0 <= q < r.matched_lines@.len() ==> #[trigger] r.matched_lines@[q].1.deep_view()
                == window(
                lines.deep_view(),
                matched_idxs(lines.deep_view(), pattern@, *options)[q],
                options.before as nat,
                options.after as nat,
            ),
{
    let ghost lv = lines.deep_view();
    let ghost opts = *options;
    let n = lines.len();
    let mut match_count: usize = 0;
    let mut matched_lines: Vec<(usize, Vec<String>)> = Vec::new();
    let mut k: usize = 0;
    proof {
        assert(lv.take(0) =~= Seq::<Seq<char>>::empty());
    }
    while k < n
        invariant
            n == lines.len(),
            lv == lines.deep_view(),
            opts == *options,
            k <= n,
            match_count == matched_idxs(lv.take(k as int), pattern@, opts).len(),
            match_count <= k,
            matched_lines@.len() == match_count,
            forall|q: int|
                0 <= q < matched_lines@.len() ==> #[trigger] matched_lines@[q].0 == matched_idxs(
                    lv.take(k as int),
                    pattern@,
                    opts,
                )[q] + 1,
            forall|q: int|
                0 <= q < matched_lines@.len() ==> #[trigger] matched_lines@[q].1.deep_view()
                    == window(
                    lv,
                    matched_idxs(lv.take(k as int), pattern@, opts)[q],
                    opts.before as nat,
                    opts.after as nat,
                ),
        decreases n - k,
    {
        let ghost mi0 = matched_idxs(lv.take(k as int), pattern@, opts);
        let is_match = line_match_exec(&lines[k], pattern, options);
        proof {
            assert(lv.take(k as int + 1) =~= lv.take(k as int).push(lv[k as int]));
            assert(lv.take(k as int + 1).drop_last() =~= lv.take(k as int));
            assert(lv.take(k as int + 1).last() == lv[k as int]);
        }
        if is_match {
            match_count += 1;
            // The window around this line, clipped to the text.
            let start = if k >= options.before {
                k - options.before
            } else {
                0
            };
            let end = if options.after >= n - k - 1 {
                n
            } else {
                k + options.after + 1
            };
            let mut w: Vec<String> = Vec::new();
            let mut t = start;
            while t < end
                invariant
                    n == lines.len(),
                    lv == lines.deep_view(),
                    start <= t <= end <= n,
                    w@.len() == t - start,
                    forall|m: int| 0 <= m < t - start ==> #[trigger] w@[m]@ == lv[start + m],
                decreases end - t,
            {
                w.push(lines[t].clone());
                proof {
                    assert(w@[t - start]@ == lv[t as int]);
                }
                t += 1;
            }
            proof {
                assert(w.deep_view() =~= lv.subrange(start as int, end as int));
            }
            let ghost ml0 = matched_lines@;
            matched_lines.push((k + 1, w));
            proof {
                assert(matched_idxs(lv.take(k as int + 1), pattern@, opts) == mi0.push(
                    k as int,
                ));
                assert(matched_lines@.last().1.deep_view() == window(
                    lv,
                    k as int,
                    opts.before as nat,
                    opts.after as nat,
                ));
                assert forall|q: int| 0 <= q < matched_lines@.len() implies
                    #[trigger] matched_lines@[q].0 == mi0.push(k as int)[q] + 1 by {
                    if q < ml0.len() {
                        assert(matched_lines@[q] == ml0[q]);
                        assert(mi0.push(k as int)[q] == mi0[q]);
                    }
                }
                assert forall|q: int| 0 <= q < matched_lines@.len() implies
                    #[trigger] matched_lines@[q].1.deep_view() == window(
                    lv,
                    mi0.push(k as int)[q],
                    opts.before as nat,
                    opts.after as nat,
                ) by {
                    if q < ml0.len() {
                        assert(matched_lines@[q] == ml0[q]);
                        assert(mi0.push(k as int)[q] == mi0[q]);
                    }
                }
            }
        } else {
            proof {
                assert(matched_idxs(lv.take(k as int + 1), pattern@, opts) == mi0);
            }
        }
        k += 1;
    }
    proof {
        assert(lv.take(n as int) =~= lv);
    }
    GrepReport { match_count, matched_lines }
}

/// Whether one line matches, executable.
fn line_match_exec(line: &String, pattern: &str, options: &GrepOptions) -> (r: bool)
    ensures
        r == line_matches(line@, pattern@, *options),
{
    let hit = if options.ignore_case {
        let l = lowercase(line.as_str());
        let p = lowercase(pattern);
        if options.fixed {
            str_eq(l.as_str(), p.as_str())
        } else {
            contains_str(l.as_str(), p.as_str())
        }
    } else {
        if options.fixed {
            str_eq(line.as_str(), pattern)
        } else {
            contains_str(line.as_str(), pattern)
        }
    };
    if options.invert {
        !hit
    } else {
        hit
    }
}

/// Whether `needle` occurs contiguously in `haystack`, executable.
fn contains_str(haystack: &str, needle: &str) -> (r: bool)
    ensures
        r == contains_sub(haystack@, needle@),
{
    let hv = chars_vec(haystack);
    let nv = chars_vec(needle);
    let hl = hv.len();
    let nl = nv.len();
    if nl > hl {
        proof {
            assert(!contains_sub(haystack@, needle@));
        }
        return false;
    }
    if nl == 0 {
        proof {
            assert(contains_sub(haystack@, needle@)) by {
                assert(haystack@.subrange(0, 0 + needle@.len() as int) =~= needle@);
            }
        }
        return true;
    }
    let mut i: usize = 0;
    while i <= hl - nl
        invariant
            hl == hv.len(),
            nl == nv.len(),
            nl <= hl,
            hv@ == haystack@,
            nv@ == needle@,
            1 <= nl,
            i <= hl - nl + 1,
            forall|q: int| 0 <= q < i ==> #[trigger] haystack@.subrange(q, q + nl) != needle@,
        decreases hl - nl + 1 - i,
    {
        if match_at(&hv, &nv, i) {
            proof {
                assert(contains_sub(haystack@, needle@)) by {
                    assert(haystack@.subrange(i as int, i as int + nl) == needle@);
                }
            }
            return true;
        }
        i += 1;
    }
    proof {
        assert(!contains_sub(haystack@, needle@)) by {
            if contains_sub(haystack@, needle@) {
                let q = choose|q: int|
                    0 <= q <= haystack@.len() - needle@.len() && #[trigger] haystack@.subrange(
                        q,
                        q + needle@.len(),
                    ) == needle@;
                assert(haystack@.subrange(q, q + nl) != needle@);
            }
        }
    }
    false
}

/// Whether the needle occurs at position `i` of the haystack.
fn match_at(hv: &Vec<char>, nv: &Vec<char>, i: usize) -> (r: bool)
    requires
        i + nv.len() <= hv.len(),
    ensures
        r == (hv@.subrange(i as int, i as int + nv@.len()) == nv@),
{
    let nl = nv.len();
    let mut j: usize = 0;
    while j < nl
        invariant
            nl == nv.len(),
            i + nl <= hv.len(),
            j <= nl,
            forall|q: int| 0 <= q < j ==> hv@[i + q] == nv@[q],
        decreases nl - j,
    {
        if !(hv[i + j] == nv[j]) {
            proof {
                assert(hv@.subrange(i as int, i as int + nl)[j as int] != nv@[j as int]);
            }
            return false;
        }
        j += 1;
    }
    proof {
        assert(hv@.subrange(i as int, i as int + nl) =~= nv@);
    }
    true
}

} // verus!
