//! Sequence operations that the contracts share.

use vstd::prelude::*;

verus! {

/// The parts one after another.
pub open spec fn concat<A>(parts: Seq<Seq<A>>) -> Seq<A>
    decreases parts.len(),
{
    if parts.len() == 0 {
        Seq::empty()
    } else {
        concat(parts.drop_last()) + parts.last()
    }
}

/// The parts one after another, with `sep` between each two neighbours.
pub open spec fn joined(parts: Seq<Seq<char>>, sep: Seq<char>) -> Seq<char>
    decreases parts.len(),
{
    if parts.len() == 0 {
        Seq::empty()
    } else if parts.len() == 1 {
        parts[0]
    } else {
        joined(parts.drop_last(), sep) + sep + parts.last()
    }
}

/// The concatenation of the first `n + 1` parts is that of the first `n`
/// followed by the part at `n`.
pub proof fn lemma_concat_take<A>(parts: Seq<Seq<A>>, n: int)
    requires
        0 <= n < parts.len(),
    ensures
        concat(parts.take(n + 1)) == concat(parts.take(n)) + parts[n],
{
    assert(parts.take(n + 1).drop_last() =~= parts.take(n));
}

/// Every element of a concatenation stands in one of the parts.
pub proof fn lemma_concat_member<A>(parts: Seq<Seq<A>>, i: int) -> (at: (int, int))
    requires
        0 <= i < concat(parts).len(),
    ensures
        0 <= at.0 < parts.len(),
        0 <= at.1 < parts[at.0].len(),
        concat(parts)[i] == parts[at.0][at.1],
    decreases parts.len(),
{
    let front = concat(parts.drop_last());
    if i < front.len() {
        let at = lemma_concat_member(parts.drop_last(), i);
        at
    } else {
        (parts.len() - 1, i - front.len())
    }
}

/// Joining the first `n + 1` parts: the first part alone, or the join of
/// the first `n` parts, the separator, and the part at `n`.
pub proof fn lemma_joined_take(parts: Seq<Seq<char>>, sep: Seq<char>, n: int)
    requires
        0 <= n < parts.len(),
    ensures
        joined(parts.take(n + 1), sep) == (if n == 0 {
            parts[0]
        } else {
            joined(parts.take(n), sep) + sep + parts[n]
        }),
{
    assert(parts.take(n + 1).drop_last() =~= parts.take(n));
}

/// The number of items in the first `j` parts.
pub open spec fn offset<A>(parts: Seq<Seq<A>>, j: int) -> int {
    concat(parts.take(j)).len() as int
}

/// An item of a part is an item of the concatenation; the result is its
/// position there.
pub proof fn lemma_concat_index<A>(parts: Seq<Seq<A>>, a: int, x: int) -> (i: int)
    requires
        0 <= a < parts.len(),
        0 <= x < parts[a].len(),
    ensures
        0 <= i < concat(parts).len(),
        concat(parts)[i] == parts[a][x],
    decreases parts.len(),
{
    let front = concat(parts.drop_last());
    if a == parts.len() - 1 {
        front.len() + x
    } else {
        lemma_concat_index(parts.drop_last(), a, x)
    }
}

/// The concatenation of the first `m` parts is the start of the
/// concatenation of them all.
pub proof fn lemma_concat_prefix<A>(parts: Seq<Seq<A>>, m: int)
    requires
        0 <= m <= parts.len(),
    ensures
        offset(parts, m) <= concat(parts).len(),
        concat(parts).subrange(0, offset(parts, m)) == concat(parts.take(m)),
    decreases parts.len(),
{
    if m == parts.len() {
        assert(parts.take(m) =~= parts);
        assert(concat(parts).subrange(0, offset(parts, m)) =~= concat(parts));
    } else {
        lemma_concat_prefix(parts.drop_last(), m);
        assert(parts.drop_last().take(m) =~= parts.take(m));
        assert(concat(parts).subrange(0, offset(parts, m)) =~= concat(parts.drop_last()).subrange(
            0,
            offset(parts, m),
        ));
    }
}

/// The part at `j` stands in the concatenation from the number of items
/// before it.
pub proof fn lemma_concat_part<A>(parts: Seq<Seq<A>>, j: int)
    requires
        0 <= j < parts.len(),
    ensures
        0 <= offset(parts, j),
        offset(parts, j + 1) == offset(parts, j) + parts[j].len(),
        offset(parts, j + 1) <= concat(parts).len(),
        concat(parts).subrange(offset(parts, j), offset(parts, j + 1)) == parts[j],
{
    lemma_concat_take(parts, j);
    lemma_concat_prefix(parts, j + 1);
    let whole = concat(parts);
    let front = concat(parts.take(j + 1));
    assert(front == concat(parts.take(j)) + parts[j]);
    assert(whole.subrange(offset(parts, j), offset(parts, j + 1)) =~= front.subrange(
        offset(parts, j),
        offset(parts, j + 1),
    ));
    assert(front.subrange(offset(parts, j), offset(parts, j + 1)) =~= parts[j]);
}

/// Where no part is empty, more parts hold more items.
pub proof fn lemma_offsets_grow<A>(parts: Seq<Seq<A>>, a: int, b: int)
    requires
        0 <= a < b <= parts.len(),
        forall|j: int| 0 <= j < parts.len() ==> (#[trigger] parts[j]).len() > 0,
    ensures
        0 <= offset(parts, a) < offset(parts, b),
    decreases b - a,
{
    lemma_concat_part(parts, b - 1);
    assert(parts[b - 1].len() > 0);
    if a < b - 1 {
        lemma_offsets_grow(parts, a, b - 1);
    }
}

} // verus!
