//! Sorting and searching: in-place quicksort, binary search, channel-style
//! merging, and text comparators.

use vstd::prelude::*;

use vstd::multiset::group_multiset_axioms;
use vstd::seq_lib::{
    group_to_multiset_ensures, lemma_multiset_commutative, to_multiset_insert, to_multiset_remove,
};

verus! {

/// The segment `[lo, hi)` is sorted, ascending.
pub open spec fn sorted_between(s: Seq<i64>, lo: int, hi: int) -> bool {
    forall|x: int, y: int| lo <= x < y < hi ==> s[x] <= s[y]
}

/// The whole sequence is sorted, ascending.
pub open spec fn sorted(s: Seq<i64>) -> bool {
    sorted_between(s, 0, s.len() as int)
}

/// Replacing the element at `i` swaps it for the new one in the contents.
proof fn lemma_update_multiset(s: Seq<i64>, i: int, x: i64)
    requires
        0 <= i < s.len(),
    ensures
        s.update(i, x).to_multiset() == s.to_multiset().remove(s[i]).insert(x),
{
    broadcast use group_multiset_axioms;

    assert(s.update(i, x) =~= s.remove(i).insert(i, x));
    to_multiset_remove(s, i);
    to_multiset_insert(s.remove(i), i, x);
}

/// Exchanging two positions permutes a sequence.
proof fn lemma_swap_multiset(s: Seq<i64>, i: int, j: int)
    requires
        0 <= i < j < s.len(),
    ensures
        s.update(i, s[j]).update(j, s[i]).to_multiset() == s.to_multiset(),
{
    broadcast use group_to_multiset_ensures;
    broadcast use group_multiset_axioms;

    let a = s[i];
    let b = s[j];
    let u = s.update(i, b);
    let t = u.update(j, a);
    lemma_update_multiset(s, i, b);
    assert(u[j] == b);
    lemma_update_multiset(u, j, a);
    assert(t.to_multiset() == s.to_multiset().remove(a).insert(b).remove(b).insert(a));
    assert(s.contains(a)) by {
        assert(s[i] == a);
    }
    assert(s.to_multiset().count(a) > 0);
    assert(t.to_multiset() =~= s.to_multiset()) by {
        assert(forall|z: i64|
            s.to_multiset().remove(a).insert(b).remove(b).insert(a).count(z)
                == s.to_multiset().count(z));
    }
}

/// Exchanges `arr[i]` and `arr[j]`.
fn swap_at(arr: &mut Vec<i64>, i: usize, j: usize)
    requires
        i < j < old(arr).len(),
    ensures
        final(arr)@ == old(arr)@.update(i as int, old(arr)@[j as int]).update(
            j as int,
            old(arr)@[i as int],
        ),
        final(arr)@.to_multiset() == old(arr)@.to_multiset(),
        final(arr)@.len() == old(arr)@.len(),
{
    let a = arr[i];
    let b = arr[j];
    arr.set(i, b);
    arr.set(j, a);
    proof {
        lemma_swap_multiset(old(arr)@, i as int, j as int);
    }
}

/// Lomuto partition of `[lo, hi)` around the element at `hi - 1`: after
/// the call, everything left of the returned position is strictly below
/// the pivot now standing there, and everything right of it in the segment
/// is at least the pivot. The segment keeps its contents; the rest of the
/// vector is untouched.
pub fn partition(arr: &mut Vec<i64>, lo: usize, hi: usize) -> (p: usize)
    requires
        lo < hi <= old(arr).len(),
    ensures
        lo <= p < hi,
        final(arr)@.len() == old(arr)@.len(),
        final(arr)@.subrange(lo as int, hi as int).to_multiset() == old(arr)@.subrange(
            lo as int,
            hi as int,
        ).to_multiset(),
        forall|k: int| 0 <= k < lo ==> final(arr)@[k] == old(arr)@[k],
        forall|k: int| hi <= k < old(arr)@.len() ==> final(arr)@[k] == old(arr)@[k],
        forall|k: int| lo <= k < p ==> final(arr)@[k] < final(arr)@[p as int],
        forall|k: int| p < k < hi ==> final(arr)@[k] >= final(arr)@[p as int],
{
    let pivot_index = hi - 1;
    let pivot = arr[pivot_index];
    let mut i = lo;
    let mut j = lo;
    while j < pivot_index
        invariant
            lo <= i <= j <= pivot_index < hi <= arr.len(),
            arr@.len() == old(arr)@.len(),
            pivot == arr@[pivot_index as int],
            arr@.subrange(lo as int, hi as int).to_multiset() == old(arr)@.subrange(
                lo as int,
                hi as int,
            ).to_multiset(),
            forall|k: int| 0 <= k < lo ==> arr@[k] == old(arr)@[k],
            forall|k: int| hi <= k < old(arr)@.len() ==> arr@[k] == old(arr)@[k],
            forall|k: int| lo <= k < i ==> arr@[k] < pivot,
            forall|k: int| i <= k < j ==> arr@[k] >= pivot,
        decreases pivot_index - j,
    {
        if arr[j] < pivot {
            if i != j {
                let ghost before = arr@;
                swap_at(arr, i, j);
                proof {
                    assert(arr@.subrange(lo as int, hi as int) =~= before.subrange(
                        lo as int,
                        hi as int,
                    ).update(i as int - lo, before[j as int]).update(
                        j as int - lo,
                        before[i as int],
                    ));
                    lemma_swap_multiset(
                        before.subrange(lo as int, hi as int),
                        i as int - lo,
                        j as int - lo,
                    );
                }
            }
            i += 1;
        }
        j += 1;
    }
    if i != pivot_index {
        let ghost before = arr@;
        swap_at(arr, i, pivot_index);
        proof {
            assert(arr@.subrange(lo as int, hi as int) =~= before.subrange(
                lo as int,
                hi as int,
            ).update(i as int - lo, before[pivot_index as int]).update(
                pivot_index as int - lo,
                before[i as int],
            ));
            lemma_swap_multiset(
                before.subrange(lo as int, hi as int),
                i as int - lo,
                pivot_index as int - lo,
            );
        }
    }
    i
}

/// In-place quicksort of the segment `[lo, hi)`.
fn quicksort_range(arr: &mut Vec<i64>, lo: usize, hi: usize)
    requires
        lo <= hi <= old(arr).len(),
    ensures
        final(arr)@.len() == old(arr)@.len(),
        final(arr)@.subrange(lo as int, hi as int).to_multiset() == old(arr)@.subrange(
            lo as int,
            hi as int,
        ).to_multiset(),
        forall|k: int| 0 <= k < lo ==> final(arr)@[k] == old(arr)@[k],
        forall|k: int| hi <= k < old(arr)@.len() ==> final(arr)@[k] == old(arr)@[k],
        sorted_between(final(arr)@, lo as int, hi as int),
    decreases hi - lo,
{
    broadcast use group_to_multiset_ensures;

    if hi - lo <= 1 {
        return ;
    }
    let p = partition(arr, lo, hi);
    let ghost after_part = arr@;
    let ghost pivot = arr@[p as int];
    quicksort_range(arr, lo, p);
    let ghost after_left = arr@;
    proof {
        assert(arr@[p as int] == pivot);
        assert(arr@.subrange(lo as int, hi as int).to_multiset() == after_part.subrange(
            lo as int,
            hi as int,
        ).to_multiset()) by {
            assert(after_left.subrange(lo as int, p as int).to_multiset()
                == after_part.subrange(lo as int, p as int).to_multiset());
            lemma_multiset_of_stitch(after_part, after_left, lo as int, p as int, hi as int);
        }
        // The left segment was rearranged but kept its contents, so it is
        // still strictly below the pivot.
        assert forall|k: int| lo <= k < p implies arr@[k] < pivot by {
            lemma_segment_bound_transfer(after_part, after_left, lo as int, p as int, pivot);
        }
    }
    quicksort_range(arr, p + 1, hi);
    proof {
        assert(arr@[p as int] == pivot);
        assert(arr@.subrange(lo as int, hi as int).to_multiset() == after_part.subrange(
            lo as int,
            hi as int,
        ).to_multiset()) by {
            assert(arr@.subrange(p as int + 1, hi as int).to_multiset() == after_left.subrange(
                p as int + 1,
                hi as int,
            ).to_multiset());
            assert(after_left.subrange(lo as int, hi as int).to_multiset() == after_part.subrange(
                lo as int,
                hi as int,
            ).to_multiset());
            lemma_multiset_of_stitch_right(after_left, arr@, lo as int, p as int, hi as int);
        }
        assert forall|k: int| lo <= k < p implies arr@[k] < pivot by {
            assert(arr@[k] == after_left[k]);
        }
        assert forall|k: int| p < k < hi implies arr@[k] >= pivot by {
            lemma_segment_lower_bound_transfer(after_left, arr@, p as int + 1, hi as int, pivot);
        }
        assert(sorted_between(arr@, lo as int, hi as int)) by {
            assert forall|x: int, y: int| lo <= x < y < hi implies arr@[x] <= arr@[y] by {
                if y <= p {
                    if x < p && y < p {
                    } else if y == p {
                        assert(arr@[x] < pivot);
                    }
                } else if x >= p {
                    if x == p {
                        assert(arr@[y] >= pivot);
                    }
                } else {
                    assert(arr@[x] < pivot);
                    assert(arr@[y] >= pivot);
                }
            }
        }
    }
}

/// When only `[lo, mid)` changed, and it kept its contents, the whole
/// segment `[lo, hi)` kept its contents.
proof fn lemma_multiset_of_stitch(before: Seq<i64>, after: Seq<i64>, lo: int, mid: int, hi: int)
    requires
        before.len() == after.len(),
        0 <= lo <= mid <= hi <= before.len(),
        after.subrange(lo, mid).to_multiset() == before.subrange(lo, mid).to_multiset(),
        forall|k: int| mid <= k < hi ==> after[k] == before[k],
    ensures
        after.subrange(lo, hi).to_multiset() == before.subrange(lo, hi).to_multiset(),
{
    assert(after.subrange(lo, hi) =~= after.subrange(lo, mid) + after.subrange(mid, hi));
    assert(before.subrange(lo, hi) =~= before.subrange(lo, mid) + before.subrange(mid, hi));
    assert(after.subrange(mid, hi) =~= before.subrange(mid, hi));
    lemma_multiset_of_concat(after.subrange(lo, mid), after.subrange(mid, hi));
    lemma_multiset_of_concat(before.subrange(lo, mid), before.subrange(mid, hi));
}

/// When only `(mid, hi)` changed, and it kept its contents, the whole
/// segment `[lo, hi)` kept its contents.
proof fn lemma_multiset_of_stitch_right(
    before: Seq<i64>,
    after: Seq<i64>,
    lo: int,
    mid: int,
    hi: int,
)
    requires
        before.len() == after.len(),
        0 <= lo <= mid < hi <= before.len(),
        after.subrange(mid + 1, hi).to_multiset() == before.subrange(mid + 1, hi).to_multiset(),
        forall|k: int| lo <= k <= mid ==> after[k] == before[k],
    ensures
        after.subrange(lo, hi).to_multiset() == before.subrange(lo, hi).to_multiset(),
{
    assert(after.subrange(lo, hi) =~= after.subrange(lo, mid + 1) + after.subrange(mid + 1, hi));
    assert(before.subrange(lo, hi) =~= before.subrange(lo, mid + 1) + before.subrange(
        mid + 1,
        hi,
    ));
    assert(after.subrange(lo, mid + 1) =~= before.subrange(lo, mid + 1));
    lemma_multiset_of_concat(after.subrange(lo, mid + 1), after.subrange(mid + 1, hi));
    lemma_multiset_of_concat(before.subrange(lo, mid + 1), before.subrange(mid + 1, hi));
}

/// The contents of a concatenation are the contents of its parts.
proof fn lemma_multiset_of_concat(a: Seq<i64>, b: Seq<i64>)
    ensures
        (a + b).to_multiset() == a.to_multiset().add(b.to_multiset()),
{
    broadcast use group_multiset_axioms;

    lemma_multiset_commutative(a, b);
    assert((a + b).to_multiset() =~= a.to_multiset().add(b.to_multiset()));
}

/// A rearranged segment keeps any strict upper bound on its elements.
proof fn lemma_segment_bound_transfer(
    before: Seq<i64>,
    after: Seq<i64>,
    lo: int,
    hi: int,
    bound: i64,
)
    requires
        before.len() == after.len(),
        0 <= lo <= hi <= before.len(),
        after.subrange(lo, hi).to_multiset() == before.subrange(lo, hi).to_multiset(),
        forall|k: int| lo <= k < hi ==> before[k] < bound,
    ensures
        forall|k: int| lo <= k < hi ==> after[k] < bound,
{
    broadcast use group_to_multiset_ensures;

    assert forall|k: int| lo <= k < hi implies after[k] < bound by {
        let x = after[k];
        assert(after.subrange(lo, hi)[k - lo] == x);
        assert(after.subrange(lo, hi).contains(x));
        assert(after.subrange(lo, hi).to_multiset().count(x) > 0);
        assert(before.subrange(lo, hi).contains(x));
        let m = choose|m: int|
            0 <= m < before.subrange(lo, hi).len() && before.subrange(lo, hi)[m] == x;
        assert(before[lo + m] == x);
    }
}

/// A rearranged segment keeps any lower bound on its elements.
proof fn lemma_segment_lower_bound_transfer(
    before: Seq<i64>,
    after: Seq<i64>,
    lo: int,
    hi: int,
    bound: i64,
)
    requires
        before.len() == after.len(),
        0 <= lo <= hi <= before.len(),
        after.subrange(lo, hi).to_multiset() == before.subrange(lo, hi).to_multiset(),
        forall|k: int| lo <= k < hi ==> before[k] >= bound,
    ensures
        forall|k: int| lo <= k < hi ==> after[k] >= bound,
{
    broadcast use group_to_multiset_ensures;

    assert forall|k: int| lo <= k < hi implies after[k] >= bound by {
        let x = after[k];
        assert(after.subrange(lo, hi)[k - lo] == x);
        assert(after.subrange(lo, hi).contains(x));
        assert(after.subrange(lo, hi).to_multiset().count(x) > 0);
        assert(before.subrange(lo, hi).contains(x));
        let m = choose|m: int|
            0 <= m < before.subrange(lo, hi).len() && before.subrange(lo, hi)[m] == x;
        assert(before[lo + m] == x);
    }
}

/// Sorts the vector in place, ascending: afterwards it is sorted and holds
/// exactly the elements it held before.
pub fn quicksort(arr: &mut Vec<i64>)
    ensures
        sorted(final(arr)@),
        final(arr)@.to_multiset() == old(arr)@.to_multiset(),
        final(arr)@.len() == old(arr)@.len(),
{
    let n = arr.len();
    quicksort_range(arr, 0, n);
    proof {
        assert(arr@.subrange(0, n as int) =~= arr@);
        assert(old(arr)@.subrange(0, n as int) =~= old(arr)@);
    }
}

/// Binary search in a sorted vector: the index of an occurrence of
/// `to_find`, or `None` exactly when it does not occur.
pub fn bin_search(arr: &Vec<i64>, to_find: i64) -> (r: Option<usize>)
    requires
        sorted(arr@),
    ensures
        r matches Some(i) ==> i < arr.len() && arr@[i as int] == to_find,
        r is None ==> !arr@.contains(to_find),
{
    let mut l: usize = 0;
    let mut r: usize = arr.len();
    while l < r
        invariant
            l <= r <= arr.len(),
            sorted(arr@),
            forall|k: int| 0 <= k < l ==> arr@[k] != to_find,
            forall|k: int| r <= k < arr.len() ==> arr@[k] != to_find,
        decreases r - l,
    {
        let mid = l + (r - l) / 2;
        if arr[mid] < to_find {
            proof {
                assert(forall|k: int| 0 <= k <= mid ==> arr@[k] <= arr@[mid as int]);
            }
            l = mid + 1;
        } else if arr[mid] > to_find {
            proof {
                assert(forall|k: int|
                    mid <= k < arr.len() ==> arr@[mid as int] <= arr@[k]);
            }
            r = mid;
        } else {
            return Some(mid);
        }
    }
    proof {
        assert(forall|k: int| 0 <= k < arr.len() ==> arr@[k] != to_find);
    }
    None
}

/// Lexicographic order on character sequences, by code point; a proper
/// prefix comes first.
pub open spec fn lex_cmp(a: Seq<char>, b: Seq<char>) -> core::cmp::Ordering
    decreases a.len(),
{
    if a.len() == 0 && b.len() == 0 {
        core::cmp::Ordering::Equal
    } else if a.len() == 0 {
        core::cmp::Ordering::Less
    } else if b.len() == 0 {
        core::cmp::Ordering::Greater
    } else if (a[0] as u32) < (b[0] as u32) {
        core::cmp::Ordering::Less
    } else if (a[0] as u32) > (b[0] as u32) {
        core::cmp::Ordering::Greater
    } else {
        lex_cmp(a.drop_first(), b.drop_first())
    }
}

/// Compares two texts lexicographically, by character.
pub fn sort_lexicographically(a: &str, b: &str) -> (r: core::cmp::Ordering)
    ensures
        r == lex_cmp(a@, b@),
{
    let va = crate::strings::chars_vec(a);
    let vb = crate::strings::chars_vec(b);
    let na = va.len();
    let nb = vb.len();
    let mut i: usize = 0;
    proof {
        assert(a@.skip(0) =~= a@);
        assert(b@.skip(0) =~= b@);
    }
    while i < na && i < nb
        invariant
            na == va.len(),
            nb == vb.len(),
            va@ == a@,
            vb@ == b@,
            i <= na && i <= nb,
            lex_cmp(a@.skip(i as int), b@.skip(i as int)) == lex_cmp(a@, b@),
        decreases na - i,
    {
        let ca = va[i] as u32;
        let cb = vb[i] as u32;
        proof {
            assert(a@.skip(i as int)[0] == a@[i as int]);
            assert(b@.skip(i as int)[0] == b@[i as int]);
            assert(a@.skip(i as int).drop_first() =~= a@.skip(i as int + 1));
            assert(b@.skip(i as int).drop_first() =~= b@.skip(i as int + 1));
        }
        if ca < cb {
            return core::cmp::Ordering::Less;
        }
        if ca > cb {
            return core::cmp::Ordering::Greater;
        }
        i += 1;
    }
    proof {
        assert(a@.skip(i as int).len() == na - i);
        assert(b@.skip(i as int).len() == nb - i);
    }
    if na == nb {
        core::cmp::Ordering::Equal
    } else if na < nb {
        core::cmp::Ordering::Less
    } else {
        core::cmp::Ordering::Greater
    }
}

/// The position of a month's three-letter name in the calendar, or twelve
/// for anything else — so unknown names sort after every month.
pub open spec fn month_rank(s: Seq<char>) -> int {
    if s == "Jan"@ {
        0
    } else if s == "Feb"@ {
        1
    } else if s == "Mar"@ {
        2
    } else if s == "Apr"@ {
        3
    } else if s == "May"@ {
        4
    } else if s == "Jun"@ {
        5
    } else if s == "Jul"@ {
        6
    } else if s == "Aug"@ {
        7
    } else if s == "Sep"@ {
        8
    } else if s == "Oct"@ {
        9
    } else if s == "Nov"@ {
        10
    } else if s == "Dec"@ {
        11
    } else {
        12
    }
}

/// The order of two integers, as an `Ordering`.
pub open spec fn int_cmp(x: int, y: int) -> core::cmp::Ordering {
    if x < y {
        core::cmp::Ordering::Less
    } else if x > y {
        core::cmp::Ordering::Greater
    } else {
        core::cmp::Ordering::Equal
    }
}

/// The calendar rank of a month name, executable.
fn month_index(s: &str) -> (r: usize)
    ensures
        r == month_rank(s@),
{
    if crate::strings::str_eq(s, "Jan") {
        0
    } else if crate::strings::str_eq(s, "Feb") {
        1
    } else if crate::strings::str_eq(s, "Mar") {
        2
    } else if crate::strings::str_eq(s, "Apr") {
        3
    } else if crate::strings::str_eq(s, "May") {
        4
    } else if crate::strings::str_eq(s, "Jun") {
        5
    } else if crate::strings::str_eq(s, "Jul") {
        6
    } else if crate::strings::str_eq(s, "Aug") {
        7
    } else if crate::strings::str_eq(s, "Sep") {
        8
    } else if crate::strings::str_eq(s, "Oct") {
        9
    } else if crate::strings::str_eq(s, "Nov") {
        10
    } else if crate::strings::str_eq(s, "Dec") {
        11
    } else {
        12
    }
}

/// Compares two texts as month names: calendar order, with anything that
/// is not a month name last.
pub fn sort_by_month(a: &str, b: &str) -> (r: core::cmp::Ordering)
    ensures
        r == int_cmp(month_rank(a@), month_rank(b@)),
{
    let ma = month_index(a);
    let mb = month_index(b);
    if ma < mb {
        core::cmp::Ordering::Less
    } else if ma > mb {
        core::cmp::Ordering::Greater
    } else {
        core::cmp::Ordering::Equal
    }
}

/// The alternating interleaving of two sequences: one element of each in
/// turn while both last, then the rest of the longer one.
pub open spec fn interleave(a: Seq<i32>, b: Seq<i32>) -> Seq<i32>
    decreases a.len() + b.len(),
{
    if a.len() == 0 {
        b
    } else if b.len() == 0 {
        a
    } else {
        seq![a[0], b[0]] + interleave(a.drop_first(), b.drop_first())
    }
}

/// Merges two finished streams of values into one, taking values from each
/// in turn for as long as both have any — the order a polling loop over
/// two exhausted channels produces.
pub fn merge(a: &Vec<i32>, b: &Vec<i32>) -> (r: Vec<i32>)
    ensures
        r@ == interleave(a@, b@),
{
    let mut r: Vec<i32> = Vec::new();
    let mut ia: usize = 0;
    let mut ib: usize = 0;
    proof {
        assert(a@.skip(0) =~= a@);
        assert(b@.skip(0) =~= b@);
        assert(r@ + interleave(a@, b@) =~= interleave(a@, b@));
    }
    while ia < a.len() || ib < b.len()
        invariant
            ia <= a.len(),
            ib <= b.len(),
            r@ + interleave(a@.skip(ia as int), b@.skip(ib as int)) == interleave(a@, b@),
        decreases a.len() - ia + b.len() - ib,
    {
        let ghost ra = a@.skip(ia as int);
        let ghost rb = b@.skip(ib as int);
        let ghost r0 = r@;
        if ia < a.len() && ib < b.len() {
            r.push(a[ia]);
            r.push(b[ib]);
            proof {
                assert(ra[0] == a@[ia as int] && rb[0] == b@[ib as int]);
                assert(ra.drop_first() =~= a@.skip(ia as int + 1));
                assert(rb.drop_first() =~= b@.skip(ib as int + 1));
                assert(interleave(ra, rb) == seq![ra[0], rb[0]] + interleave(
                    ra.drop_first(),
                    rb.drop_first(),
                ));
                assert(r@ + interleave(a@.skip(ia as int + 1), b@.skip(ib as int + 1)) =~= r0
                    + interleave(ra, rb));
            }
            ia += 1;
            ib += 1;
        } else if ia < a.len() {
            r.push(a[ia]);
            proof {
                assert(rb.len() == 0);
                assert(interleave(ra, rb) == ra);
                assert(ra[0] == a@[ia as int]);
                assert(a@.skip(ia as int + 1) =~= ra.drop_first());
                assert(interleave(a@.skip(ia as int + 1), rb) == a@.skip(ia as int + 1));
                assert(r@ + a@.skip(ia as int + 1) =~= r0 + ra);
            }
            ia += 1;
        } else {
            r.push(b[ib]);
            proof {
                assert(ra.len() == 0);
                assert(interleave(ra, rb) == rb);
                assert(rb[0] == b@[ib as int]);
                assert(b@.skip(ib as int + 1) =~= rb.drop_first());
                assert(interleave(ra, b@.skip(ib as int + 1)) == b@.skip(ib as int + 1));
                assert(r@ + b@.skip(ib as int + 1) =~= r0 + rb);
            }
            ib += 1;
        }
    }
    proof {
        assert(a@.skip(a@.len() as int).len() == 0);
        assert(b@.skip(b@.len() as int).len() == 0);
        assert(r@ + interleave(a@.skip(ia as int), b@.skip(ib as int)) =~= r@);
    }
    r
}

} // verus!
