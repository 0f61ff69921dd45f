//! Ordered split-point tuples and Cartesian expansion of candidate rows.

use std::collections::VecDeque;
use vstd::arithmetic::div_mod::lemma_fundamental_div_mod_converse;
use vstd::arithmetic::div_mod::lemma_multiply_divide_lt;
use vstd::arithmetic::div_mod::lemma_mod_bound;
use crate::sequences::joined;
use crate::sequences::lemma_joined_take;
use crate::text::decimal;
use crate::text::decimal_text;
use vstd::prelude::*;
use vstd::string::StringExecFns;

verus! {

/// Interior cut points of a token range, in strictly increasing order.
#[derive(Debug, PartialEq)]
pub struct Combination {
    pub marks: Vec<usize>,
}

impl View for Combination {
    type V = Seq<int>;

    open spec fn view(&self) -> Seq<int> {
        self.marks@.map_values(|m: usize| m as int)
    }
}

impl Clone for Combination {
    fn clone(&self) -> (r: Self)
        ensures
            r@ == self@,
    {
        let marks = self.marks.clone();
        assert(marks@ =~= self.marks@);
        Combination { marks }
    }
}

/// How a combination is written: its marks in base ten between square
/// brackets, with a comma and a space between each two.
pub open spec fn combination_text(marks: Seq<int>) -> Seq<char> {
    "["@ + joined(marks.map_values(|m: int| decimal_text(m as nat)), ", "@) + "]"@
}

impl Combination {
    /// The combination as text.
    pub fn to_text(&self) -> (text: String)
        ensures
            text@ == combination_text(self@),
    {
        let ghost parts = self@.map_values(|m: int| decimal_text(m as nat));
        let mut list = String::new();
        let mut i: usize = 0;
        assert(joined(parts.take(0), ", "@) =~= Seq::<char>::empty());
        while i < self.marks.len()
            invariant
                i <= self.marks.len(),
                parts == self@.map_values(|m: int| decimal_text(m as nat)),
                list@ == joined(parts.take(i as int), ", "@),
            decreases self.marks.len() - i,
        {
            proof {
                lemma_joined_take(parts, ", "@, i as int);
            }
            if i > 0 {
                list.append(", ");
            }
            let part = decimal(self.marks[i]);
            list.append(part.as_str());
            assert(list@ =~= joined(parts.take(i + 1), ", "@));
            i += 1;
        }
        assert(parts.take(self.marks.len() as int) =~= parts);
        let mut text = String::from_str("[");
        text.append(list.as_str());
        text.append("]");
        text
    }
}

/// The views of a sequence of combinations, in the same order.
pub open spec fn combination_views(s: Seq<Combination>) -> Seq<Seq<int>> {
    s.map_values(|c: Combination| c@)
}

/// Every tuple of `tails`, with `first` put in front.
pub open spec fn with_first(first: int, tails: Seq<Seq<int>>) -> Seq<Seq<int>> {
    tails.map_values(|t: Seq<int>| seq![first] + t)
}

/// Every strictly increasing `k`-tuple drawn from `[b, e)`, in ascending
/// lexicographic order: first the tuples that start with `b`, then those
/// drawn from `[b + 1, e)`.
pub open spec fn combinations_of(b: int, e: int, k: nat) -> Seq<Seq<int>>
    decreases e - b,
{
    if k == 0 {
        seq![Seq::<int>::empty()]
    } else if e - b < k {
        Seq::empty()
    } else {
        with_first(b, combinations_of(b + 1, e, (k - 1) as nat)) + combinations_of(b + 1, e, k)
    }
}

/// `t` is a strictly increasing `k`-tuple with every mark in `[b, e)`.
pub open spec fn is_combination(t: Seq<int>, b: int, e: int, k: nat) -> bool {
    &&& t.len() == k
    &&& forall|i: int| 0 <= i < t.len() ==> b <= #[trigger] t[i] < e
    &&& forall|i: int, j: int| 0 <= i < j < t.len() ==> t[i] < t[j]
}

/// `s` comes before `t` in lexicographic order.
pub open spec fn lex_less(s: Seq<int>, t: Seq<int>) -> bool {
    exists|p: int| is_first_difference(s, t, p)
}

/// `s` and `t` agree before position `p`, where `s` holds the smaller mark.
pub open spec fn is_first_difference(s: Seq<int>, t: Seq<int>, p: int) -> bool {
    &&& 0 <= p < s.len()
    &&& p < t.len()
    &&& s[p] < t[p]
    &&& forall|q: int| 0 <= q < p ==> s[q] == t[q]
}

/// The tuple that follows `t` when position `p` is advanced by one and every
/// later position is reset to the consecutive values after it.
pub open spec fn advanced(t: Seq<int>, p: int) -> Seq<int> {
    Seq::new(t.len(), |j: int| if j < p { t[j] } else { t[p] + 1 + (j - p) })
}

/// The smallest `k`-tuple over a range that starts at `b`.
pub open spec fn first_combination(b: int, k: nat) -> Seq<int> {
    Seq::new(k, |j: int| b + j)
}

/// There is a `k`-tuple over `[b, e)` exactly when `k` positions fit in it.
pub proof fn lemma_combinations_len(b: int, e: int, k: nat)
    ensures
        combinations_of(b, e, k).len() > 0 <==> (k == 0 || b + k <= e),
        k == 0 ==> combinations_of(b, e, k) == seq![Seq::<int>::empty()],
    decreases e - b,
{
    if k != 0 && e - b >= k {
        lemma_combinations_len(b + 1, e, (k - 1) as nat);
        lemma_combinations_len(b + 1, e, k);
    }
}

/// The first tuple of a non-empty enumeration is the smallest one.
pub proof fn lemma_combinations_first(b: int, e: int, k: nat)
    requires
        k == 0 || b + k <= e,
    ensures
        combinations_of(b, e, k).len() > 0,
        combinations_of(b, e, k)[0] == first_combination(b, k),
    decreases e - b,
{
    lemma_combinations_len(b, e, k);
    if k == 0 {
        assert(combinations_of(b, e, k)[0] =~= first_combination(b, k));
    } else {
        let heads = combinations_of(b + 1, e, (k - 1) as nat);
        lemma_combinations_first(b + 1, e, (k - 1) as nat);
        assert(combinations_of(b, e, k)[0] == seq![b] + heads[0]);
        assert(seq![b] + first_combination(b + 1, (k - 1) as nat) =~= first_combination(b, k));
    }
}

/// Every enumerated tuple is a strictly increasing `k`-tuple over `[b, e)`.
pub proof fn lemma_combinations_valid(b: int, e: int, k: nat, n: int)
    requires
        0 <= n < combinations_of(b, e, k).len(),
    ensures
        is_combination(combinations_of(b, e, k)[n], b, e, k),
    decreases e - b,
{
    if k != 0 && e - b >= k {
        let heads = combinations_of(b + 1, e, (k - 1) as nat);
        let rest = combinations_of(b + 1, e, k);
        if n < heads.len() {
            lemma_combinations_valid(b + 1, e, (k - 1) as nat, n);
            let t = seq![b] + heads[n];
            assert(combinations_of(b, e, k)[n] == t);
            assert forall|i: int| 0 <= i < t.len() implies b <= #[trigger] t[i] < e by {
                if i > 0 {
                    assert(t[i] == heads[n][i - 1]);
                }
            }
            assert forall|i: int, j: int| 0 <= i < j < t.len() implies t[i] < t[j] by {
                assert(t[j] == heads[n][j - 1]);
                if i > 0 {
                    assert(t[i] == heads[n][i - 1]);
                }
            }
        } else {
            lemma_combinations_valid(b + 1, e, k, n - heads.len());
            assert(combinations_of(b, e, k)[n] == rest[n - heads.len()]);
        }
    }
}

/// Every strictly increasing `k`-tuple over `[b, e)` is enumerated; the
/// result is a position that holds it.
pub proof fn lemma_combinations_complete(t: Seq<int>, b: int, e: int, k: nat) -> (n: int)
    requires
        is_combination(t, b, e, k),
    ensures
        0 <= n < combinations_of(b, e, k).len(),
        combinations_of(b, e, k)[n] == t,
    decreases e - b,
{
    if k == 0 {
        assert(t =~= Seq::<int>::empty());
        0
    } else {
        assert(t[0] >= b);
        assert(t[k - 1] < e);
        assert forall|i: int| 0 <= i < k implies #[trigger] t[i] >= b + i by {
            lemma_marks_grow(t, b, e, k, i);
        }
        assert(t[k - 1] >= b + k - 1);
        let heads = combinations_of(b + 1, e, (k - 1) as nat);
        if t[0] == b {
            let tail = t.subrange(1, k as int);
            assert forall|i: int| 0 <= i < tail.len() implies b + 1 <= #[trigger] tail[i] < e by {
                assert(tail[i] == t[i + 1]);
                assert(t[0] < t[i + 1]);
            }
            assert forall|i: int, j: int| 0 <= i < j < tail.len() implies tail[i] < tail[j] by {
                assert(tail[i] == t[i + 1]);
                assert(tail[j] == t[j + 1]);
            }
            let m = lemma_combinations_complete(tail, b + 1, e, (k - 1) as nat);
            assert(seq![b] + tail =~= t);
            m
        } else {
            assert forall|i: int| 0 <= i < t.len() implies b + 1 <= #[trigger] t[i] < e by {
                if i > 0 {
                    assert(t[0] < t[i]);
                }
            }
            let m = lemma_combinations_complete(t, b + 1, e, k);
            heads.len() + m
        }
    }
}

/// The `i`-th mark of a strictly increasing tuple over `[b, e)` is at least
/// `b + i`.
pub proof fn lemma_marks_grow(t: Seq<int>, b: int, e: int, k: nat, i: int)
    requires
        is_combination(t, b, e, k),
        0 <= i < k,
    ensures
        t[i] >= b + i,
    decreases i,
{
    if i > 0 {
        lemma_marks_grow(t, b, e, k, i - 1);
        assert(t[i - 1] < t[i]);
    }
}

/// The enumeration ascends strictly in lexicographic order.
pub proof fn law_combinations_ascend(b: int, e: int, k: nat, m: int, n: int)
    requires
        0 <= m < n < combinations_of(b, e, k).len(),
    ensures
        lex_less(combinations_of(b, e, k)[m], combinations_of(b, e, k)[n]),
    decreases e - b,
{
    if k != 0 && e - b >= k {
        let all = combinations_of(b, e, k);
        let heads = combinations_of(b + 1, e, (k - 1) as nat);
        let rest = combinations_of(b + 1, e, k);
        if n < heads.len() {
            law_combinations_ascend(b + 1, e, (k - 1) as nat, m, n);
            let p = choose|p: int| is_first_difference(heads[m], heads[n], p);
            assert(all[m] == seq![b] + heads[m]);
            assert(all[n] == seq![b] + heads[n]);
            assert forall|q: int| 0 <= q < p + 1 implies all[m][q] == all[n][q] by {
                if q > 0 {
                    assert(all[m][q] == heads[m][q - 1]);
                    assert(all[n][q] == heads[n][q - 1]);
                }
            }
            assert(all[m][p + 1] == heads[m][p]);
            assert(all[n][p + 1] == heads[n][p]);
            assert(is_first_difference(all[m], all[n], p + 1));
        } else if m < heads.len() {
            lemma_combinations_valid(b + 1, e, k, n - heads.len());
            assert(all[m] == seq![b] + heads[m]);
            assert(all[n] == rest[n - heads.len()]);
            assert(all[n][0] >= b + 1);
            assert(is_first_difference(all[m], all[n], 0));
        } else {
            law_combinations_ascend(b + 1, e, k, m - heads.len(), n - heads.len());
            assert(all[m] == rest[m - heads.len()]);
            assert(all[n] == rest[n - heads.len()]);
        }
    }
}

/// What follows the `n`-th tuple of the enumeration: the tuple got by
/// advancing its rightmost position that has room, or nothing when every
/// position stands at its limit.
pub proof fn lemma_combinations_successor(b: int, e: int, k: nat, n: int)
    requires
        0 <= n < combinations_of(b, e, k).len(),
    ensures
        ({
            let all = combinations_of(b, e, k);
            let t = all[n];
            &&& t.len() == k
            &&& forall|j: int| 0 <= j < k ==> #[trigger] t[j] + (k - j) <= e
            &&& n + 1 == all.len() ==> forall|j: int| 0 <= j < k ==> #[trigger] t[j] + (k - j) == e
            &&& n + 1 < all.len() ==> exists|p: int|
                is_pivot(t, e, p) && all[n + 1] == advanced(t, p)
        }),
    decreases e - b,
{
    let all = combinations_of(b, e, k);
    let t = all[n];
    if k != 0 && e - b >= k {
        let k1 = (k - 1) as nat;
        let heads = combinations_of(b + 1, e, k1);
        let rest = combinations_of(b + 1, e, k);
        lemma_combinations_len(b + 1, e, k1);
        lemma_combinations_len(b + 1, e, k);
        if n < heads.len() {
            let h = heads[n];
            lemma_combinations_successor(b + 1, e, k1, n);
            assert(t == seq![b] + h);
            assert forall|j: int| 0 <= j < k implies #[trigger] t[j] + (k - j) <= e by {
                if j > 0 {
                    assert(t[j] == h[j - 1]);
                    assert(h[j - 1] + (k1 - (j - 1)) <= e);
                }
            }
            if n + 1 < heads.len() {
                let q = choose|q: int| is_pivot(h, e, q) && heads[n + 1] == advanced(h, q);
                let p = q + 1;
                assert(all[n + 1] == seq![b] + heads[n + 1]);
                assert(t[p] == h[q]);
                assert forall|j: int| p < j < t.len() implies #[trigger] t[j] + (t.len() - j)
                    == e by {
                    assert(t[j] == h[j - 1]);
                    assert(h[j - 1] + (h.len() - (j - 1)) == e);
                }
                assert(is_pivot(t, e, p));
                assert(all[n + 1] =~= advanced(t, p)) by {
                    assert forall|j: int| 0 <= j < k implies all[n + 1][j] == advanced(t, p)[j] by {
                        if j > 0 {
                            assert(all[n + 1][j] == heads[n + 1][j - 1]);
                            assert(t[j] == h[j - 1]);
                        }
                    }
                }
            } else {
                assert forall|j: int| 1 <= j < k implies #[trigger] t[j] + (k - j) == e by {
                    assert(t[j] == h[j - 1]);
                    assert(h[j - 1] + (k1 - (j - 1)) == e);
                }
                if rest.len() > 0 {
                    lemma_combinations_first(b + 1, e, k);
                    assert(all[n + 1] == rest[0]);
                    assert(is_pivot(t, e, 0));
                    assert(rest[0] =~= advanced(t, 0));
                } else {
                    assert(all.len() == heads.len());
                }
            }
        } else {
            lemma_combinations_successor(b + 1, e, k, n - heads.len());
            assert(t == rest[n - heads.len()]);
            if n + 1 < all.len() {
                assert(all[n + 1] == rest[n + 1 - heads.len()]);
            }
        }
    } else {
        lemma_combinations_len(b, e, k);
    }
}

/// Position `p` of `t` has room to advance, and no later position has.
pub open spec fn is_pivot(t: Seq<int>, e: int, p: int) -> bool {
    &&& 0 <= p < t.len()
    &&& t[p] + (t.len() - p) < e
    &&& forall|j: int| p < j < t.len() ==> #[trigger] t[j] + (t.len() - j) == e
}

/// Every strictly increasing `count`-tuple drawn from `[begin, end)`, in
/// ascending lexicographic order. There is none when the range holds fewer
/// than `count` positions; for `count == 0` there is the one empty tuple.
pub fn generate_combinations(begin: usize, end: usize, count: usize) -> (result: Vec<Combination>)
    ensures
        combination_views(result@) == combinations_of(begin as int, end as int, count as nat),
{
    let ghost all = combinations_of(begin as int, end as int, count as nat);
    let mut result: Vec<Combination> = Vec::new();
    proof {
        lemma_combinations_len(begin as int, end as int, count as nat);
    }
    if count == 0 {
        result.push(Combination { marks: Vec::new() });
        assert(combination_views(result@) =~= all) by {
            assert(result@[0]@ =~= Seq::<int>::empty());
        }
        return result;
    }
    if end < begin || end - begin < count {
        assert(combination_views(result@) =~= all);
        return result;
    }
    let mut marks: Vec<usize> = Vec::new();
    let mut i: usize = 0;
    while i < count
        invariant
            i <= count,
            begin + count <= end,
            marks@.len() == i,
            forall|j: int| 0 <= j < i ==> marks@[j] == begin + j,
        decreases count - i,
    {
        marks.push(begin + i);
        i += 1;
    }
    proof {
        lemma_combinations_first(begin as int, end as int, count as nat);
        assert(marks@.map_values(|m: usize| m as int) =~= all[0]);
    }
    let mut done = false;
    while !done
        invariant
            count > 0,
            all == combinations_of(begin as int, end as int, count as nat),
            result@.len() <= all.len(),
            combination_views(result@) == all.take(result@.len() as int),
            !done ==> result@.len() < all.len() && marks@.map_values(|m: usize| m as int)
                == all[result@.len() as int],
            done ==> result@.len() == all.len(),
        decreases all.len() - result@.len() + (if done { 0int } else { 1int }),
    {
        let ghost n = result@.len() as int;
        let ghost t = all[n];
        proof {
            lemma_combinations_successor(begin as int, end as int, count as nat, n);
            assert forall|j: int| 0 <= j < count implies marks@[j] + (count - j) <= end by {
                assert(t[j] == marks@[j]);
                assert(t[j] + (count - j) <= end);
            }
        }
        let current = Combination { marks: marks.clone() };
        assert(current@ =~= t);
        result.push(current);
        assert(combination_views(result@) =~= all.take(n + 1));
        // the rightmost position that has room to advance
        let mut p: usize = count;
        while p > 0 && marks[p - 1] + (count - (p - 1)) >= end
            invariant
                p <= count,
                marks@.len() == count,
                forall|j: int| 0 <= j < count ==> marks@[j] + (count - j) <= end,
                forall|j: int| p <= j < count ==> marks@[j] + (count - j) == end,
            decreases p,
        {
            p -= 1;
        }
        if p == 0 {
            proof {
                if n + 1 < all.len() {
                    let q = choose|q: int|
                        is_pivot(t, end as int, q) && all[n + 1] == advanced(t, q);
                    assert(t[q] == marks@[q]);
                    assert(marks@[q] + (count - q) == end);
                }
            }
            done = true;
        } else {
            let pivot = p - 1;
            proof {
                assert(t[pivot as int] == marks@[pivot as int]);
                if n + 1 == all.len() {
                    assert(t[pivot as int] + (count - pivot) == end);
                }
                let q = choose|q: int| is_pivot(t, end as int, q) && all[n + 1] == advanced(t, q);
                assert(t[q] == marks@[q]);
                if q < pivot {
                    assert(t[pivot as int] + (t.len() - pivot) == end);
                }
                assert(q == pivot);
            }
            let ghost before = marks@;
            let base = marks[pivot] + 1;
            marks.set(pivot, base);
            let mut j: usize = pivot + 1;
            while j < count
                invariant
                    pivot < j <= count,
                    marks@.len() == count,
                    base == before[pivot as int] + 1,
                    before.len() == count,
                    before[pivot as int] + (count - pivot) < end,
                    forall|x: int| 0 <= x < pivot ==> marks@[x] == before[x],
                    forall|x: int| pivot <= x < j ==> marks@[x] == base + (x - pivot),
                decreases count - j,
            {
                marks.set(j, base + (j - pivot));
                j += 1;
            }
            proof {
                assert(marks@.map_values(|m: usize| m as int) =~= advanced(t, pivot as int)) by {
                    assert forall|x: int| 0 <= x < count implies marks@[x] as int == advanced(
                        t,
                        pivot as int,
                    )[x] by {
                        assert(t[x] == before[x]);
                    }
                }
            }
        }
    }
    assert(all.take(all.len() as int) =~= all);
    result
}

/// Each in-range strictly increasing tuple stands in the enumeration exactly
/// once, and nothing else stands in it: for marks
/// `b <= t[0] < t[1] < ... < t[k-1] < e` there is one position that holds `t`,
/// and every position holds a strictly increasing `k`-tuple over `[b, e)`.
pub proof fn law_combinations_exact(b: int, e: int, k: nat, t: Seq<int>)
    ensures
        is_combination(t, b, e, k) ==> exists|n: int|
            0 <= n < combinations_of(b, e, k).len() && #[trigger] combinations_of(b, e, k)[n] == t,
        forall|m: int, n: int|
            0 <= m < combinations_of(b, e, k).len() && 0 <= n < combinations_of(b, e, k).len()
                && combinations_of(b, e, k)[m] == t && combinations_of(b, e, k)[n] == t ==> m == n,
        forall|n: int|
            0 <= n < combinations_of(b, e, k).len() ==> is_combination(
                #[trigger] combinations_of(b, e, k)[n],
                b,
                e,
                k,
            ),
{
    let all = combinations_of(b, e, k);
    if is_combination(t, b, e, k) {
        let n = lemma_combinations_complete(t, b, e, k);
        assert(all[n] == t);
    }
    assert forall|m: int, n: int|
        0 <= m < all.len() && 0 <= n < all.len() && all[m] == t && all[n] == t implies m == n by {
        if m < n {
            law_combinations_ascend(b, e, k, m, n);
        } else if n < m {
            law_combinations_ascend(b, e, k, n, m);
        }
    }
    assert forall|n: int| 0 <= n < all.len() implies is_combination(#[trigger] all[n], b, e, k) by {
        lemma_combinations_valid(b, e, k, n);
    }
}

/// The enumeration is empty exactly when the range `[b, e)` holds fewer than
/// `k` positions, and it is the one empty tuple exactly when `k == 0`.
pub proof fn law_combinations_empty(b: int, e: int, k: nat)
    ensures
        combinations_of(b, e, k).len() == 0 <==> (if e >= b {
            e - b
        } else {
            0
        }) < k,
        combinations_of(b, e, k) == seq![Seq::<int>::empty()] <==> k == 0,
{
    lemma_combinations_len(b, e, k);
    if k != 0 && combinations_of(b, e, k).len() > 0 {
        lemma_combinations_valid(b, e, k, 0);
        assert(seq![Seq::<int>::empty()][0].len() == 0);
    }
}

/// Every way to pick one index per row, for rows of the lengths `lens`: the
/// tuples `t` with `0 <= t[j] < lens[j]`, in ascending lexicographic order,
/// so that the first row varies slowest. No row at all gives the one empty
/// tuple.
pub open spec fn index_tuples(lens: Seq<nat>) -> Seq<Seq<int>>
    decreases lens.len(),
{
    if lens.len() == 0 {
        seq![Seq::<int>::empty()]
    } else {
        let shorter = index_tuples(lens.drop_last());
        let n = lens.last() as int;
        Seq::new((shorter.len() * n) as nat, |i: int| shorter[i / n].push(i % n))
    }
}

/// What the expansion yields for rows of the lengths `lens`: nothing when
/// there is no row, every index tuple otherwise.
pub open spec fn index_expansion(lens: Seq<nat>) -> Seq<Seq<int>> {
    if lens.len() == 0 {
        Seq::empty()
    } else {
        index_tuples(lens)
    }
}

/// The lengths of the rows.
pub open spec fn row_lens<T>(rows: Seq<Seq<T>>) -> Seq<nat> {
    rows.map_values(|r: Seq<T>| r.len())
}

/// The elements that the index tuple `t` picks, one from each row.
pub open spec fn pick<T>(rows: Seq<Seq<T>>, t: Seq<int>) -> Seq<T> {
    Seq::new(rows.len(), |j: int| rows[j][t[j]])
}

/// The Cartesian expansion of `rows`: one tuple per way of picking an element
/// from each row, the first row varying slowest. No row gives no tuple.
pub open spec fn expansion<T>(rows: Seq<Seq<T>>) -> Seq<Seq<T>> {
    index_expansion(row_lens(rows)).map_values(|t: Seq<int>| pick(rows, t))
}

/// `out` has the shape of the expansion of `rows`, and each of its elements
/// is a clone of the element that stands there in the expansion.
pub open spec fn is_expansion<T: Clone>(rows: Seq<Seq<T>>, out: Seq<Seq<T>>) -> bool {
    let expected = expansion(rows);
    &&& out.len() == expected.len()
    &&& forall|i: int| 0 <= i < out.len() ==> (#[trigger] out[i]).len() == rows.len()
    &&& forall|i: int, j: int|
        0 <= i < out.len() && 0 <= j < rows.len() ==> cloned(expected[i][j], #[trigger] out[i][j])
}

/// The lengths as natural numbers.
pub open spec fn len_views(lens: Seq<usize>) -> Seq<nat> {
    lens.map_values(|x: usize| x as nat)
}

/// The indices as integers.
pub open spec fn index_view(v: Vec<usize>) -> Seq<int> {
    v@.map_values(|x: usize| x as int)
}

/// The index tuples as sequences of integers.
pub open spec fn index_views(s: Seq<Vec<usize>>) -> Seq<Seq<int>> {
    s.map_values(|v: Vec<usize>| index_view(v))
}

/// The rows as sequences.
pub open spec fn row_views<T>(s: Seq<Vec<T>>) -> Seq<Seq<T>> {
    s.map_values(|v: Vec<T>| v@)
}

/// Extending the `p`-th tuple over the shorter rows by the index `x` of the
/// last row gives the tuple at position `p * n + x`.
pub proof fn lemma_index_tuples_step(lens: Seq<nat>, p: int, x: int)
    requires
        lens.len() > 0,
        0 <= p < index_tuples(lens.drop_last()).len(),
        0 <= x < lens.last(),
    ensures
        0 <= p * lens.last() + x < index_tuples(lens).len(),
        index_tuples(lens)[p * lens.last() + x] == index_tuples(lens.drop_last())[p].push(x),
        index_tuples(lens).len() == index_tuples(lens.drop_last()).len() * lens.last(),
{
    let shorter = index_tuples(lens.drop_last());
    let n = lens.last() as int;
    let i = p * n + x;
    assert(0 <= i < shorter.len() * n) by (nonlinear_arith)
        requires
            0 <= p < shorter.len(),
            0 <= x < n,
            i == p * n + x,
    ;
    lemma_fundamental_div_mod_converse(i, n, p, x);
}

/// Each index tuple picks one valid index per row.
pub proof fn lemma_index_tuple_bounds(lens: Seq<nat>, i: int)
    requires
        0 <= i < index_tuples(lens).len(),
    ensures
        index_tuples(lens)[i].len() == lens.len(),
        forall|j: int| 0 <= j < lens.len() ==> 0 <= #[trigger] index_tuples(lens)[i][j] < lens[j],
    decreases lens.len(),
{
    if lens.len() > 0 {
        let shorter = index_tuples(lens.drop_last());
        let n = lens.last() as int;
        assert(n > 0) by (nonlinear_arith)
            requires
                0 <= i < shorter.len() * n,
                n >= 0,
        ;
        lemma_multiply_divide_lt(i, n, shorter.len() as int);
        assert(0 <= i / n) by (nonlinear_arith)
            requires
                0 <= i,
                n > 0,
        ;
        lemma_mod_bound(i, n);
        lemma_index_tuple_bounds(lens.drop_last(), i / n);
        let t = index_tuples(lens)[i];
        assert(t == shorter[i / n].push(i % n));
        assert forall|j: int| 0 <= j < lens.len() implies 0 <= #[trigger] t[j] < lens[j] by {
            if j < lens.len() - 1 {
                assert(t[j] == shorter[i / n][j]);
                assert(lens.drop_last()[j] == lens[j]);
            }
        }
    }
}

/// Once the rows up to some point admit no tuple, no longer prefix does.
pub proof fn lemma_no_tuple_persists(lens: Seq<nat>, k: int, m: int)
    requires
        0 <= k <= m <= lens.len(),
        index_tuples(lens.take(k)).len() == 0,
    ensures
        index_tuples(lens.take(m)).len() == 0,
    decreases m - k,
{
    if k < m {
        lemma_no_tuple_persists(lens, k, m - 1);
        assert(lens.take(m).drop_last() =~= lens.take(m - 1));
        assert(0 * lens.take(m).last() == 0);
    }
}

/// A copy of `front` with `x` appended.
fn extended(front: &Vec<usize>, x: usize) -> (r: Vec<usize>)
    ensures
        r@ == front@.push(x),
{
    let mut r: Vec<usize> = Vec::new();
    let mut i: usize = 0;
    while i < front.len()
        invariant
            i <= front.len(),
            r@ == front@.take(i as int),
        decreases front.len() - i,
    {
        r.push(front[i]);
        assert(front@.take(i as int).push(front@[i as int]) =~= front@.take(i + 1));
        i += 1;
    }
    assert(front@.take(front.len() as int) =~= front@);
    r.push(x);
    r
}

/// The index tuples of the Cartesian expansion of rows with the lengths
/// `lens`. They are built breadth first through a queue: it starts with one
/// partial tuple per index of the first row; the oldest partial tuple leaves
/// and comes back at the end once for each index of the next row, until the
/// oldest tuple covers every row.
pub fn expand_indices(lens: &Vec<usize>) -> (result: Vec<Vec<usize>>)
    ensures
        index_views(result@) == index_expansion(len_views(lens@)),
{
    let n = lens.len();
    let mut result: Vec<Vec<usize>> = Vec::new();
    if n == 0 {
        assert(index_views(result@) =~= index_expansion(len_views(lens@)));
        return result;
    }
    let ghost lv = len_views(lens@);
    let mut deq: VecDeque<Vec<usize>> = VecDeque::new();
    let first_len = lens[0];
    let mut x: usize = 0;
    proof {
        assert(lv.take(1).drop_last() =~= Seq::<nat>::empty());
        assert(lv.take(1).last() == first_len);
        assert(index_tuples(Seq::<nat>::empty()).len() == 1);
        assert(index_tuples(lv.take(1)).len() == 1 * first_len);
    }
    while x < first_len
        invariant
            x <= first_len,
            n > 0,
            n == lens@.len(),
            lv == len_views(lens@),
            first_len == lens@[0],
            index_tuples(lv.take(1)).len() == first_len,
            index_views(deq@) == index_tuples(lv.take(1)).take(x as int),
        decreases first_len - x,
    {
        let mut v: Vec<usize> = Vec::new();
        v.push(x);
        let ghost queued = deq@;
        proof {
            assert(lv.take(1).drop_last() =~= Seq::<nat>::empty());
            assert(lv.take(1).last() == first_len);
            assert(index_tuples(Seq::<nat>::empty()) =~= seq![Seq::<int>::empty()]);
            lemma_index_tuples_step(lv.take(1), 0, x as int);
            assert(0 * lv.take(1).last() + x == x);
            assert(index_view(v) =~= index_tuples(lv.take(1))[x as int]);
        }
        deq.push_back(v);
        assert(index_views(deq@) =~= index_views(queued).push(index_view(v)));
        assert(index_views(deq@) =~= index_tuples(lv.take(1)).take(x + 1));
        x += 1;
    }
    let ghost mut k: int = 1;
    let ghost mut p: int = 0;
    proof {
        let level = index_tuples(lv.take(1));
        assert(level.take(first_len as int) =~= level);
        if n == 1 {
            assert(lv.take(1) =~= lv);
        } else {
            assert(0 * lv[1] == 0);
            assert(index_views(deq@) =~= level.skip(0) + index_tuples(lv.take(2)).take(0));
        }
    }
    let mut finished = false;
    while !finished
        invariant
            n == lens@.len(),
            n > 0,
            lv == len_views(lens@),
            1 <= k <= n,
            0 <= p <= index_tuples(lv.take(k)).len(),
            !finished && k < n ==> index_views(deq@) == index_tuples(lv.take(k)).skip(p)
                + index_tuples(lv.take(k + 1)).take(p * lv[k]),
            !finished && k < n ==> p * lv[k] <= index_tuples(lv.take(k + 1)).len(),
            !finished && k == n ==> p == 0 && index_views(deq@) == index_tuples(lv),
            finished ==> index_views(deq@) == index_tuples(lv),
        decreases (if finished { 0int } else { 1int }), n - k, index_tuples(lv.take(k)).len() - p,
    {
        proof {
            assert(lv.take(n as int) =~= lv);
            if k < n && p == index_tuples(lv.take(k)).len() {
                let next = index_tuples(lv.take(k + 1));
                assert(lv.take(k + 1).drop_last() =~= lv.take(k));
                assert(next.len() == p * lv[k]);
                assert(index_views(deq@) =~= next);
                k = k + 1;
                p = 0;
                if k < n {
                    assert(0 * lv[k] == 0);
                    assert(index_views(deq@) =~= index_tuples(lv.take(k)).skip(0) + index_tuples(
                        lv.take(k + 1),
                    ).take(0));
                }
            }
        }
        let ghost before = deq@;
        match deq.pop_front() {
            None => {
                proof {
                    if k < n {
                        assert(index_tuples(lv.take(k)).skip(p).len() == 0);
                        lemma_no_tuple_persists(lv, k, n as int);
                    }
                    assert(index_views(deq@) =~= index_tuples(lv));
                }
                finished = true;
            },
            Some(front) => {
                proof {
                    assert(index_view(front) == index_views(before)[0]);
                    if k < n {
                        if p == index_tuples(lv.take(k)).len() {
                            assert(index_views(before).len() == 0);
                        }
                        assert(index_view(front) == index_tuples(lv.take(k))[p]);
                        lemma_index_tuple_bounds(lv.take(k), p);
                    } else {
                        lemma_index_tuple_bounds(lv, 0);
                    }
                }
                if front.len() < n {
                    let row = lens[front.len()];
                    let mut x: usize = 0;
                    proof {
                        assert(lv.take(k + 1).drop_last() =~= lv.take(k));
                        assert(deq@ =~= before.skip(1));
                        assert(index_views(deq@) =~= index_views(before).skip(1));
                        assert(index_views(deq@) =~= index_tuples(lv.take(k)).skip(p + 1)
                            + index_tuples(lv.take(k + 1)).take(p * lv[k]));
                    }
                    while x < row
                        invariant
                            x <= row,
                            row == lv[k],
                            1 <= k < n,
                            n == lens@.len(),
                            lv == len_views(lens@),
                            0 <= p < index_tuples(lv.take(k)).len(),
                            index_view(front) == index_tuples(lv.take(k))[p],
                            lv.take(k + 1).drop_last() == lv.take(k),
                            index_views(deq@) == index_tuples(lv.take(k)).skip(p + 1)
                                + index_tuples(lv.take(k + 1)).take(p * lv[k] + x),
                            p * lv[k] + x <= index_tuples(lv.take(k + 1)).len(),
                        decreases row - x,
                    {
                        let v = extended(&front, x);
                        let ghost queued = deq@;
                        proof {
                            lemma_index_tuples_step(lv.take(k + 1), p, x as int);
                            assert(index_view(v) =~= index_tuples(lv.take(k + 1))[p * lv[k] + x]);
                        }
                        deq.push_back(v);
                        assert(index_views(deq@) =~= index_views(queued).push(index_view(v)));
                        assert(index_views(deq@) =~= index_tuples(lv.take(k)).skip(p + 1)
                            + index_tuples(lv.take(k + 1)).take(p * lv[k] + x + 1));
                        x += 1;
                    }
                    proof {
                        assert((p + 1) * lv[k] == p * lv[k] + lv[k]) by (nonlinear_arith);
                        p = p + 1;
                    }
                } else {
                    deq.push_front(front);
                    proof {
                        assert(deq@ =~= before);
                    }
                    finished = true;
                }
            },
        }
    }
    assert(lv.take(n as int) =~= lv);
    while deq.len() > 0
        invariant
            index_views(result@) + index_views(deq@) == index_tuples(lv),
        decreases deq.len(),
    {
        let ghost before = deq@;
        let ghost collected = result@;
        let front = deq.pop_front().unwrap();
        result.push(front);
        assert(index_views(result@) + index_views(deq@) =~= index_views(collected) + index_views(
            before,
        ));
    }
    assert(index_views(result@) =~= index_views(result@) + index_views(deq@));
    result
}

/// The lengths of the rows of `input`.
fn row_lengths<T>(input: &Vec<Vec<T>>) -> (lens: Vec<usize>)
    ensures
        len_views(lens@) == row_lens(row_views(input@)),
{
    let mut lens: Vec<usize> = Vec::new();
    let mut j: usize = 0;
    while j < input.len()
        invariant
            j <= input.len(),
            lens@.len() == j,
            forall|x: int| 0 <= x < j ==> lens@[x] == input@[x]@.len(),
        decreases input.len() - j,
    {
        lens.push(input[j].len());
        j += 1;
    }
    assert(len_views(lens@) =~= row_lens(row_views(input@)));
    lens
}

/// The Cartesian expansion of the rows of `input`: one tuple for each way of
/// picking one element from every row, ordered so that the first row varies
/// slowest. No row at all gives no tuple, and so does an empty row.
pub fn expand_combinations<T: Clone>(input: Vec<Vec<T>>) -> (result: Vec<Vec<T>>)
    ensures
        is_expansion(row_views(input@), row_views(result@)),
{
    let ghost rows = row_views(input@);
    let n = input.len();
    let lens = row_lengths(&input);
    let tuples = expand_indices(&lens);
    let ghost expected = expansion(rows);
    let ghost indices = index_expansion(row_lens(rows));
    let mut result: Vec<Vec<T>> = Vec::new();
    let mut i: usize = 0;
    while i < tuples.len()
        invariant
            i <= tuples.len(),
            n == input@.len(),
            rows == row_views(input@),
            expected == expansion(rows),
            indices == index_expansion(row_lens(rows)),
            index_views(tuples@) == indices,
            result@.len() == i,
            forall|x: int| 0 <= x < i ==> (#[trigger] result@[x])@.len() == n,
            forall|x: int, j: int|
                0 <= x < i && 0 <= j < n ==> cloned(expected[x][j], #[trigger] result@[x]@[j]),
        decreases tuples.len() - i,
    {
        let tuple = &tuples[i];
        let ghost t = indices[i as int];
        proof {
            assert(index_view(*tuple) == index_views(tuples@)[i as int]);
            assert(rows.len() > 0);
            lemma_index_tuple_bounds(row_lens(rows), i as int);
            assert(expected[i as int] == pick(rows, t));
        }
        let mut out: Vec<T> = Vec::new();
        let mut j: usize = 0;
        while j < n
            invariant
                j <= n,
                n == input@.len(),
                rows == row_views(input@),
                t == index_view(*tuple),
                t.len() == n,
                forall|y: int| 0 <= y < n ==> 0 <= #[trigger] t[y] < rows[y].len(),
                out@.len() == j,
                forall|y: int| 0 <= y < j ==> cloned(rows[y][t[y]], #[trigger] out@[y]),
            decreases n - j,
        {
            assert(0 <= t[j as int] < rows[j as int].len());
            assert(t[j as int] == tuple@[j as int]);
            let element = input[j][tuple[j]].clone();
            out.push(element);
            j += 1;
        }
        result.push(out);
        i += 1;
    }
    assert(is_expansion(rows, row_views(result@)));
    result
}

/// The Cartesian expansion of rows that were collected from a stream of
/// streams: the same tuples in the same order as `expand_combinations`.
pub fn expand_combinations_iter<T: Clone>(input: Vec<Vec<T>>) -> (result: Vec<Vec<T>>)
    ensures
        is_expansion(row_views(input@), row_views(result@)),
{
    expand_combinations(input)
}

/// Where a clone is always equal to what it was cloned from, the result of an
/// expansion is the expansion itself.
pub proof fn law_exact_expansion<T: Clone>(rows: Seq<Seq<T>>, out: Seq<Seq<T>>)
    requires
        is_expansion(rows, out),
        forall|a: T, b: T| cloned(a, b) ==> a == b,
    ensures
        out == expansion(rows),
{
    let expected = expansion(rows);
    assert forall|i: int| 0 <= i < out.len() implies out[i] == expected[i] by {
        if rows.len() > 0 {
            lemma_index_tuple_bounds(row_lens(rows), i);
        }
        assert(expected[i] == pick(rows, index_expansion(row_lens(rows))[i]));
        assert(out[i].len() == rows.len());
        assert forall|j: int| 0 <= j < rows.len() implies out[i][j] == expected[i][j] by {
            assert(cloned(expected[i][j], out[i][j]));
        }
        assert(out[i] =~= expected[i]);
    }
    assert(out =~= expected);
}

/// `t` picks one valid index from each row of the lengths `lens`.
pub open spec fn is_index_tuple(t: Seq<int>, lens: Seq<nat>) -> bool {
    &&& t.len() == lens.len()
    &&& forall|j: int| 0 <= j < lens.len() ==> 0 <= #[trigger] t[j] < lens[j]
}

/// Every way of picking one index per row is enumerated; the result is a
/// position that holds it.
pub proof fn lemma_index_tuples_complete(lens: Seq<nat>, t: Seq<int>) -> (i: int)
    requires
        is_index_tuple(t, lens),
    ensures
        0 <= i < index_tuples(lens).len(),
        index_tuples(lens)[i] == t,
    decreases lens.len(),
{
    if lens.len() == 0 {
        assert(t =~= Seq::<int>::empty());
        0
    } else {
        let shorter = lens.drop_last();
        let front = t.drop_last();
        assert forall|j: int| 0 <= j < shorter.len() implies 0 <= #[trigger] front[j]
            < shorter[j] by {
            assert(front[j] == t[j]);
        }
        let p = lemma_index_tuples_complete(shorter, front);
        let x = t.last();
        assert(0 <= x < lens.last()) by {
            assert(x == t[lens.len() - 1]);
        }
        lemma_index_tuples_step(lens, p, x);
        assert(front.push(x) =~= t);
        p * lens.last() + x
    }
}

/// No way of picking one index per row is enumerated twice.
pub proof fn lemma_index_tuples_distinct(lens: Seq<nat>, i: int, j: int)
    requires
        0 <= i < index_tuples(lens).len(),
        0 <= j < index_tuples(lens).len(),
        index_tuples(lens)[i] == index_tuples(lens)[j],
    ensures
        i == j,
    decreases lens.len(),
{
    if lens.len() > 0 {
        let shorter = index_tuples(lens.drop_last());
        let n = lens.last() as int;
        assert(n > 0) by (nonlinear_arith)
            requires
                0 <= i < shorter.len() * n,
                n >= 0,
        ;
        lemma_multiply_divide_lt(i, n, shorter.len() as int);
        lemma_multiply_divide_lt(j, n, shorter.len() as int);
        assert(0 <= i / n && 0 <= j / n) by (nonlinear_arith)
            requires
                0 <= i,
                0 <= j,
                n > 0,
        ;
        let a = shorter[i / n].push(i % n);
        let b = shorter[j / n].push(j % n);
        assert(a == b);
        assert(a.last() == b.last());
        assert(a.drop_last() =~= shorter[i / n]);
        assert(b.drop_last() =~= shorter[j / n]);
        lemma_index_tuples_distinct(lens.drop_last(), i / n, j / n);
        assert(i == j) by (nonlinear_arith)
            requires
                i / n == j / n,
                i % n == j % n,
                n > 0,
        ;
    }
}

/// The index tuples are exactly the ways of picking one valid index from
/// each row, each enumerated once.
pub proof fn law_index_tuples_exact(lens: Seq<nat>, t: Seq<int>)
    ensures
        is_index_tuple(t, lens) <==> exists|i: int|
            0 <= i < index_tuples(lens).len() && #[trigger] index_tuples(lens)[i] == t,
        forall|i: int, j: int|
            0 <= i < index_tuples(lens).len() && 0 <= j < index_tuples(lens).len()
                && index_tuples(lens)[i] == t && index_tuples(lens)[j] == t ==> i == j,
{
    if is_index_tuple(t, lens) {
        let i = lemma_index_tuples_complete(lens, t);
        assert(index_tuples(lens)[i] == t);
    }
    if exists|i: int| 0 <= i < index_tuples(lens).len() && #[trigger] index_tuples(lens)[i] == t {
        let i = choose|i: int|
            0 <= i < index_tuples(lens).len() && #[trigger] index_tuples(lens)[i] == t;
        lemma_index_tuple_bounds(lens, i);
    }
    assert forall|i: int, j: int|
        0 <= i < index_tuples(lens).len() && 0 <= j < index_tuples(lens).len() && index_tuples(
            lens,
        )[i] == t && index_tuples(lens)[j] == t implies i == j by {
        lemma_index_tuples_distinct(lens, i, j);
    }
}

} // verus!
