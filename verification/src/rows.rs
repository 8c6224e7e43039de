//! Rows: picking positions out of them, and putting rows one behind the other.
use vstd::prelude::*;

verus! {

/// Whether `positions` are, in increasing order, exactly the positions below
/// `len` that are wanted.
pub open spec fn lists_exactly(positions: Seq<int>, len: nat, wanted: spec_fn(int) -> bool) -> bool {
    &&& forall|i: int, j: int|
        0 <= i < j < positions.len() ==> #[trigger] positions[i] < #[trigger] positions[j]
    &&& forall|i: int|
        0 <= i < positions.len() ==> 0 <= #[trigger] positions[i] < len && wanted(positions[i])
    &&& forall|k: int| 0 <= k < len && #[trigger] wanted(k) ==> positions.contains(k)
}

/// There is only one such row of positions.
pub proof fn law_positions_determined(
    a: Seq<int>,
    b: Seq<int>,
    len: nat,
    wanted: spec_fn(int) -> bool,
)
    requires
        lists_exactly(a, len, wanted),
        lists_exactly(b, len, wanted),
    ensures
        a == b,
    decreases len,
{
    if len == 0 {
        assert(a.len() == 0) by {
            if a.len() > 0 {
                assert(0 <= a[0] < len);
            }
        }
        assert(b.len() == 0) by {
            if b.len() > 0 {
                assert(0 <= b[0] < len);
            }
        }
        assert(a =~= b);
    } else {
        let top = len - 1;
        if wanted(top) {
            lemma_top(a, len, wanted);
            lemma_top(b, len, wanted);
            law_positions_determined(a.drop_last(), b.drop_last(), (len - 1) as nat, wanted);
            assert(a =~= a.drop_last().push(top));
            assert(b =~= b.drop_last().push(top));
        } else {
            lemma_no_top(a, len, wanted);
            lemma_no_top(b, len, wanted);
            law_positions_determined(a, b, (len - 1) as nat, wanted);
        }
    }
}

proof fn lemma_top(positions: Seq<int>, len: nat, wanted: spec_fn(int) -> bool)
    requires
        lists_exactly(positions, len, wanted),
        len > 0,
        wanted(len - 1),
    ensures
        positions.len() > 0,
        positions.last() == len - 1,
        lists_exactly(positions.drop_last(), (len - 1) as nat, wanted),
{
    let top = len - 1;
    let rest = positions.drop_last();
    assert(positions.contains(top));
    let i = choose|i: int| 0 <= i < positions.len() && positions[i] == top;
    if i < positions.len() - 1 {
        assert(positions[i] < positions[positions.len() - 1]);
    }
    assert forall|i: int| 0 <= i < rest.len() implies 0 <= #[trigger] rest[i] < len - 1 && wanted(
        rest[i],
    ) by {
        assert(positions[i] < positions[positions.len() - 1]);
    }
    assert forall|k: int| 0 <= k < len - 1 && #[trigger] wanted(k) implies rest.contains(k) by {
        assert(positions.contains(k));
        let i = choose|i: int| 0 <= i < positions.len() && positions[i] == k;
        assert(rest[i] == k);
    }
}

proof fn lemma_no_top(positions: Seq<int>, len: nat, wanted: spec_fn(int) -> bool)
    requires
        lists_exactly(positions, len, wanted),
        len > 0,
        !wanted(len - 1),
    ensures
        lists_exactly(positions, (len - 1) as nat, wanted),
{
    assert forall|i: int| 0 <= i < positions.len() implies 0 <= #[trigger] positions[i] < len - 1
        && wanted(positions[i]) by {
        assert(wanted(positions[i]));
    }
}

/// One more position behind those below `len`.
pub proof fn lemma_positions_grow(
    positions: Seq<int>,
    len: nat,
    wanted: spec_fn(int) -> bool,
) -> (grown: Seq<int>)
    requires
        lists_exactly(positions, len, wanted),
    ensures
        lists_exactly(grown, len + 1, wanted),
        grown == (if wanted(len as int) {
            positions.push(len as int)
        } else {
            positions
        }),
{
    let grown = if wanted(len as int) {
        positions.push(len as int)
    } else {
        positions
    };
    assert forall|k: int| 0 <= k < len + 1 && #[trigger] wanted(k) implies grown.contains(k) by {
        if k < len {
            assert(positions.contains(k));
            let i = choose|i: int| 0 <= i < positions.len() && positions[i] == k;
            assert(grown[i] == k);
        } else {
            assert(grown[grown.len() - 1] == k);
        }
    }
    grown
}

/// What is wanted may be said in another way.
pub proof fn lemma_same_wanted(
    positions: Seq<int>,
    len: nat,
    wanted: spec_fn(int) -> bool,
    other: spec_fn(int) -> bool,
)
    requires
        lists_exactly(positions, len, wanted),
        forall|k: int| 0 <= k < len ==> #[trigger] other(k) == wanted(k),
    ensures
        lists_exactly(positions, len, other),
{
    assert forall|i: int| 0 <= i < positions.len() implies 0 <= #[trigger] positions[i] < len
        && other(positions[i]) by {
        assert(wanted(positions[i]));
    }
    assert forall|k: int| 0 <= k < len && #[trigger] other(k) implies positions.contains(k) by {
        assert(wanted(k));
    }
}

/// A filtered row holds what stands at the positions that pass, in order.
pub proof fn lemma_filter_positions<A>(row: Seq<A>, keep: spec_fn(A) -> bool) -> (positions: Seq<
    int,
>)
    ensures
        lists_exactly(positions, row.len(), |k: int| keep(row[k])),
        row.filter(keep).len() == positions.len(),
        forall|i: int|
            0 <= i < positions.len() ==> row.filter(keep)[i] == row[#[trigger] positions[i]],
    decreases row.len(),
{
    reveal(Seq::filter);
    if row.len() == 0 {
        Seq::empty()
    } else {
        let rest = row.drop_last();
        let earlier = lemma_filter_positions(rest, keep);
        let wanted = |k: int| keep(row[k]);
        assert(lists_exactly(earlier, rest.len(), wanted)) by {
            assert forall|k: int| 0 <= k < rest.len() && #[trigger] wanted(k) implies earlier.contains(
                k,
            ) by {
                assert(rest[k] == row[k]);
                assert((|k: int| keep(rest[k]))(k));
            }
            assert forall|i: int| 0 <= i < earlier.len() implies 0 <= #[trigger] earlier[i]
                < rest.len() && wanted(earlier[i]) by {
                assert((|k: int| keep(rest[k]))(earlier[i]));
                assert(rest[earlier[i]] == row[earlier[i]]);
            }
        }
        lemma_positions_grow(earlier, rest.len(), wanted)
    }
}

/// Rows, one behind the other.
pub open spec fn flat<A>(rows: Seq<Seq<A>>) -> Seq<A>
    decreases rows.len(),
{
    if rows.len() == 0 {
        Seq::empty()
    } else {
        flat(rows.drop_last()) + rows.last()
    }
}

/// Where row `k` starts in the whole.
pub open spec fn start<A>(rows: Seq<Seq<A>>, k: int) -> int {
    flat(rows.take(k)).len() as int
}

pub proof fn lemma_start_next<A>(rows: Seq<Seq<A>>, k: int)
    requires
        0 <= k < rows.len(),
    ensures
        start(rows, k + 1) == start(rows, k) + rows[k].len(),
{
    assert(rows.take(k + 1).drop_last() =~= rows.take(k));
    assert(rows.take(k + 1).last() == rows[k]);
}

pub proof fn lemma_start_grows<A>(rows: Seq<Seq<A>>, k: int, l: int)
    requires
        0 <= k < l <= rows.len(),
    ensures
        start(rows, k) + rows[k].len() <= start(rows, l),
    decreases l - k,
{
    lemma_start_next(rows, k);
    if k + 1 < l {
        lemma_start_grows(rows, k + 1, l);
    }
}

/// What stands at `p` in row `k` stands in the whole.
pub proof fn lemma_flat_at<A>(rows: Seq<Seq<A>>, k: int, p: int)
    requires
        0 <= k < rows.len(),
        0 <= p < rows[k].len(),
    ensures
        0 <= start(rows, k) + p < flat(rows).len(),
        flat(rows)[start(rows, k) + p] == rows[k][p],
    decreases rows.len(),
{
    let rest = rows.drop_last();
    if k < rest.len() {
        assert(rest.take(k) =~= rows.take(k));
        assert(rest[k] == rows[k]);
        lemma_flat_at(rest, k, p);
    } else {
        assert(rows.take(k) =~= rest);
    }
}

/// What stands in the whole stands in one of the rows.
pub proof fn lemma_flat_from<A>(rows: Seq<Seq<A>>, x: int) -> (at: (int, int))
    requires
        0 <= x < flat(rows).len(),
    ensures
        0 <= at.0 < rows.len(),
        0 <= at.1 < rows[at.0].len(),
        x == start(rows, at.0) + at.1,
        flat(rows)[x] == rows[at.0][at.1],
    decreases rows.len(),
{
    let rest = rows.drop_last();
    if x < flat(rest).len() {
        let at = lemma_flat_from(rest, x);
        assert(rest.take(at.0) =~= rows.take(at.0));
        at
    } else {
        assert(rows.take(rows.len() - 1) =~= rest);
        (rows.len() - 1, x - flat(rest).len())
    }
}

} // verus!
