//! Counting helpers over adjacency rows.
//!
//! A graph is abstracted as a sequence of rows, each row a vertex paired
//! with its adjacency sequence. Edge totals, occurrence counts (in-degrees)
//! and first-occurrence removal are defined here, with the lemmas that the
//! graph operations and the topological sort rely on.

use vstd::prelude::*;

verus! {

/// Number of occurrences of `x` in `s`.
pub open spec fn count_of(s: Seq<u64>, x: u64) -> nat
    decreases s.len(),
{
    if s.len() == 0 {
        0
    } else {
        count_of(s.drop_last(), x) + (if s.last() == x {
            1nat
        } else {
            0nat
        })
    }
}

/// Total number of edges across the rows: the sum of the adjacency lengths.
pub open spec fn edges_in(rows: Seq<(u64, Seq<u64>)>) -> nat
    decreases rows.len(),
{
    if rows.len() == 0 {
        0
    } else {
        edges_in(rows.drop_last()) + rows.last().1.len()
    }
}

/// Total occurrences of `x` as an edge destination across the rows:
/// the in-degree of `x`.
pub open spec fn occ_in(rows: Seq<(u64, Seq<u64>)>, x: u64) -> nat
    decreases rows.len(),
{
    if rows.len() == 0 {
        0
    } else {
        occ_in(rows.drop_last(), x) + count_of(rows.last().1, x)
    }
}

/// `s` with every occurrence of `x` removed, keeping the order of the rest.
pub open spec fn remove_all(s: Seq<u64>, x: u64) -> Seq<u64>
    decreases s.len(),
{
    if s.len() == 0 {
        s
    } else if s.last() == x {
        remove_all(s.drop_last(), x)
    } else {
        remove_all(s.drop_last(), x).push(s.last())
    }
}

/// `s` with its first occurrence of `x` removed; `s` itself if `x` is absent.
pub open spec fn remove_first(s: Seq<u64>, x: u64) -> Seq<u64> {
    match s.index_of_first(x) {
        Some(i) => s.remove(i),
        None => s,
    }
}

/// Sum over the keys `ks` of the occurrence count of each key in `l`.
pub open spec fn count_sum(ks: Seq<u64>, l: Seq<u64>) -> nat
    decreases ks.len(),
{
    if ks.len() == 0 {
        0
    } else {
        count_sum(ks.drop_last(), l) + count_of(l, ks.last())
    }
}

/// Sum over the keys `ks` of the occurrence total of each key in `rows`:
/// the sum of the in-degrees of the keys.
pub open spec fn occ_sum(ks: Seq<u64>, rows: Seq<(u64, Seq<u64>)>) -> nat
    decreases ks.len(),
{
    if ks.len() == 0 {
        0
    } else {
        occ_sum(ks.drop_last(), rows) + occ_in(rows, ks.last())
    }
}

/// In a duplicate-free sequence every member occurs exactly once.
pub proof fn lemma_count_unique(s: Seq<u64>, x: u64)
    requires
        s.no_duplicates(),
        s.contains(x),
    ensures
        count_of(s, x) == 1,
    decreases s.len(),
{
    lemma_contains_drop_last(s, x);
    if s.last() == x {
        assert(!s.drop_last().contains(x)) by {
            if s.drop_last().contains(x) {
                let i = choose|i: int| 0 <= i < s.drop_last().len() && s.drop_last()[i] == x;
                assert(s[i] == x && s[s.len() - 1] == x);
            }
        }
        lemma_count_zero_iff(s.drop_last(), x);
    } else {
        lemma_count_unique(s.drop_last(), x);
    }
}

/// Appending one element to `l` raises the key-count sum by the number of
/// keys equal to that element.
pub proof fn lemma_count_sum_push(ks: Seq<u64>, l: Seq<u64>, x: u64)
    ensures
        count_sum(ks, l.push(x)) == count_sum(ks, l) + count_of(ks, x),
    decreases ks.len(),
{
    if ks.len() > 0 {
        lemma_count_sum_push(ks.drop_last(), l, x);
        assert(l.push(x).drop_last() =~= l);
        assert(count_of(l.push(x), ks.last()) == count_of(l, ks.last()) + (if ks.last() == x {
            1nat
        } else {
            0nat
        }));
    }
}

/// When every member of `l` occurs exactly once among the keys, summing
/// the per-key counts of `l` counts each member of `l` once.
pub proof fn lemma_count_sum_units(ks: Seq<u64>, l: Seq<u64>)
    requires
        forall|e: u64| l.contains(e) ==> count_of(ks, e) == 1,
    ensures
        count_sum(ks, l) == l.len(),
    decreases l.len(),
{
    if l.len() == 0 {
        lemma_count_sum_zero(ks, l);
    } else {
        let front = l.drop_last();
        assert(front.push(l.last()) =~= l);
        lemma_count_sum_push(ks, front, l.last());
        assert(l.contains(l.last())) by {
            assert(l[l.len() - 1] == l.last());
        }
        assert forall|e: u64| front.contains(e) implies count_of(ks, e) == 1 by {
            lemma_contains_drop_last(l, e);
        }
        lemma_count_sum_units(ks, front);
    }
}

/// The key-count sum of an empty list is zero.
pub proof fn lemma_count_sum_zero(ks: Seq<u64>, l: Seq<u64>)
    requires
        l.len() == 0,
    ensures
        count_sum(ks, l) == 0,
    decreases ks.len(),
{
    if ks.len() > 0 {
        lemma_count_sum_zero(ks.drop_last(), l);
    }
}

/// The in-degree sum over empty rows is zero.
pub proof fn lemma_occ_sum_empty(ks: Seq<u64>, rows: Seq<(u64, Seq<u64>)>)
    requires
        rows.len() == 0,
    ensures
        occ_sum(ks, rows) == 0,
    decreases ks.len(),
{
    if ks.len() > 0 {
        lemma_occ_sum_empty(ks.drop_last(), rows);
    }
}

/// Splitting off the last row splits the in-degree sum.
pub proof fn lemma_occ_sum_step(ks: Seq<u64>, rows: Seq<(u64, Seq<u64>)>)
    requires
        rows.len() > 0,
    ensures
        occ_sum(ks, rows) == occ_sum(ks, rows.drop_last()) + count_sum(ks, rows.last().1),
    decreases ks.len(),
{
    if ks.len() > 0 {
        lemma_occ_sum_step(ks.drop_last(), rows);
    }
}

/// When every edge destination occurs exactly once among the keys, the sum
/// of the keys' in-degrees is the total number of edges.
pub proof fn lemma_occ_sum_edges(ks: Seq<u64>, rows: Seq<(u64, Seq<u64>)>)
    requires
        forall|i: int, k: int|
            0 <= i < rows.len() && 0 <= k < rows[i].1.len() ==> count_of(
                ks,
                #[trigger] rows[i].1[k],
            ) == 1,
    ensures
        occ_sum(ks, rows) == edges_in(rows),
    decreases rows.len(),
{
    if rows.len() == 0 {
        lemma_occ_sum_empty(ks, rows);
    } else {
        lemma_occ_sum_step(ks, rows);
        let front = rows.drop_last();
        assert forall|i: int, k: int|
            0 <= i < front.len() && 0 <= k < front[i].1.len() implies count_of(
            ks,
            #[trigger] front[i].1[k],
        ) == 1 by {
            assert(front[i] == rows[i]);
            assert(count_of(ks, rows[i].1[k]) == 1);
        }
        lemma_occ_sum_edges(ks, front);
        let last = rows.last().1;
        assert forall|e: u64| last.contains(e) implies count_of(ks, e) == 1 by {
            let k = choose|k: int| 0 <= k < last.len() && last[k] == e;
            assert(count_of(ks, rows[rows.len() - 1].1[k]) == 1);
        }
        lemma_count_sum_units(ks, last);
    }
}

/// Membership in a nonempty sequence is membership in its front part or
/// equality with its last element.
pub proof fn lemma_contains_drop_last(s: Seq<u64>, y: u64)
    requires
        s.len() > 0,
    ensures
        s.contains(y) <==> (s.drop_last().contains(y) || s.last() == y),
{
    if s.contains(y) {
        let i = choose|i: int| 0 <= i < s.len() && s[i] == y;
        if i < s.len() - 1 {
            assert(s.drop_last()[i] == y);
        }
    }
    if s.drop_last().contains(y) {
        let i = choose|i: int| 0 <= i < s.drop_last().len() && s.drop_last()[i] == y;
        assert(s[i] == y);
    }
}

/// What removing every occurrence of `x` does to membership and length.
pub proof fn lemma_remove_all(s: Seq<u64>, x: u64)
    ensures
        !remove_all(s, x).contains(x),
        forall|y: u64| y != x ==> (remove_all(s, x).contains(y) <==> s.contains(y)),
        forall|k: int|
            0 <= k < remove_all(s, x).len() ==> s.contains(#[trigger] remove_all(s, x)[k]),
        remove_all(s, x).len() <= s.len(),
        !s.contains(x) ==> remove_all(s, x) == s,
    decreases s.len(),
{
    if s.len() == 0 {
        assert forall|y: u64| y != x implies (remove_all(s, x).contains(y) <==> s.contains(
            y,
        )) by {}
    } else {
        lemma_remove_all(s.drop_last(), x);
        lemma_contains_drop_last(s, x);
        let r = remove_all(s, x);
        let rd = remove_all(s.drop_last(), x);
        if s.last() == x {
            assert(r == rd);
            assert forall|y: u64| y != x implies (r.contains(y) <==> s.contains(y)) by {
                lemma_contains_drop_last(s, y);
            }
            assert forall|k: int| 0 <= k < r.len() implies s.contains(#[trigger] r[k]) by {
                lemma_contains_drop_last(s, r[k]);
            }
        } else {
            assert(r == rd.push(s.last()));
            lemma_contains_drop_last(r, x);
            assert(r.drop_last() =~= rd);
            assert(r.last() == s.last());
            assert forall|y: u64| y != x implies (r.contains(y) <==> s.contains(y)) by {
                lemma_contains_drop_last(s, y);
                lemma_contains_drop_last(r, y);
            }
            assert forall|k: int| 0 <= k < r.len() implies s.contains(#[trigger] r[k]) by {
                if k < r.len() - 1 {
                    assert(rd[k] == r[k]);
                    assert(s.drop_last().contains(r[k]));
                    lemma_contains_drop_last(s, r[k]);
                } else {
                    assert(r[k] == s.last());
                    lemma_contains_drop_last(s, s.last());
                }
            }
            if !s.contains(x) {
                assert(r =~= s) by {
                    assert(rd == s.drop_last());
                }
            }
        }
    }
}

pub proof fn lemma_count_le_len(s: Seq<u64>, x: u64)
    ensures
        count_of(s, x) <= s.len(),
    decreases s.len(),
{
    if s.len() > 0 {
        lemma_count_le_len(s.drop_last(), x);
    }
}

pub proof fn lemma_count_zero_iff(s: Seq<u64>, x: u64)
    ensures
        count_of(s, x) == 0 <==> !s.contains(x),
    decreases s.len(),
{
    if s.len() > 0 {
        lemma_count_zero_iff(s.drop_last(), x);
        if s.contains(x) {
            let i = choose|i: int| 0 <= i < s.len() && s[i] == x;
            if i < s.len() - 1 {
                assert(s.drop_last()[i] == x);
                assert(s.drop_last().contains(x));
            }
        }
        if s.drop_last().contains(x) {
            let i = choose|i: int| 0 <= i < s.drop_last().len() && s.drop_last()[i] == x;
            assert(s[i] == x);
        }
    }
}

pub proof fn lemma_count_take_succ(s: Seq<u64>, i: int, x: u64)
    requires
        0 <= i < s.len(),
    ensures
        count_of(s.take(i + 1), x) == count_of(s.take(i), x) + (if s[i] == x {
            1nat
        } else {
            0nat
        }),
{
    assert(s.take(i + 1).drop_last() =~= s.take(i));
    assert(s.take(i + 1).last() == s[i]);
}

pub proof fn lemma_count_remove(s: Seq<u64>, i: int, y: u64)
    requires
        0 <= i < s.len(),
    ensures
        count_of(s.remove(i), y) + (if s[i] == y {
            1nat
        } else {
            0nat
        }) == count_of(s, y),
    decreases s.len(),
{
    if i == s.len() - 1 {
        assert(s.remove(i) =~= s.drop_last());
    } else {
        assert(s.remove(i).drop_last() =~= s.drop_last().remove(i));
        assert(s.remove(i).last() == s.last());
        lemma_count_remove(s.drop_last(), i, y);
    }
}

pub proof fn lemma_edges_take_succ(rows: Seq<(u64, Seq<u64>)>, i: int)
    requires
        0 <= i < rows.len(),
    ensures
        edges_in(rows.take(i + 1)) == edges_in(rows.take(i)) + rows[i].1.len(),
{
    assert(rows.take(i + 1).drop_last() =~= rows.take(i));
    assert(rows.take(i + 1).last() == rows[i]);
}

pub proof fn lemma_occ_take_succ(rows: Seq<(u64, Seq<u64>)>, i: int, x: u64)
    requires
        0 <= i < rows.len(),
    ensures
        occ_in(rows.take(i + 1), x) == occ_in(rows.take(i), x) + count_of(rows[i].1, x),
{
    assert(rows.take(i + 1).drop_last() =~= rows.take(i));
    assert(rows.take(i + 1).last() == rows[i]);
}

pub proof fn lemma_edges_prefix_le(rows: Seq<(u64, Seq<u64>)>, i: int)
    requires
        0 <= i <= rows.len(),
    ensures
        edges_in(rows.take(i)) <= edges_in(rows),
    decreases rows.len() - i,
{
    if i == rows.len() {
        assert(rows.take(i) =~= rows);
    } else {
        lemma_edges_take_succ(rows, i);
        lemma_edges_prefix_le(rows, i + 1);
    }
}

pub proof fn lemma_occ_prefix_le(rows: Seq<(u64, Seq<u64>)>, i: int, x: u64)
    requires
        0 <= i <= rows.len(),
    ensures
        occ_in(rows.take(i), x) <= occ_in(rows, x),
    decreases rows.len() - i,
{
    if i == rows.len() {
        assert(rows.take(i) =~= rows);
    } else {
        lemma_occ_take_succ(rows, i, x);
        lemma_occ_prefix_le(rows, i + 1, x);
    }
}

pub proof fn lemma_occ_le_edges(rows: Seq<(u64, Seq<u64>)>, x: u64)
    ensures
        occ_in(rows, x) <= edges_in(rows),
    decreases rows.len(),
{
    if rows.len() > 0 {
        lemma_occ_le_edges(rows.drop_last(), x);
        lemma_count_le_len(rows.last().1, x);
    }
}

/// The in-degree of `x` is zero exactly when no adjacency sequence holds `x`.
pub proof fn lemma_occ_zero_iff(rows: Seq<(u64, Seq<u64>)>, x: u64)
    ensures
        occ_in(rows, x) == 0 <==> (forall|i: int|
            0 <= i < rows.len() ==> !(#[trigger] rows[i].1).contains(x)),
    decreases rows.len(),
{
    if rows.len() > 0 {
        lemma_occ_zero_iff(rows.drop_last(), x);
        lemma_count_zero_iff(rows.last().1, x);
        if occ_in(rows, x) == 0 {
            assert forall|i: int| 0 <= i < rows.len() implies !(#[trigger] rows[i].1).contains(x)
            by {
                if i < rows.len() - 1 {
                    assert(rows.drop_last()[i] == rows[i]);
                }
            }
        } else {
            if occ_in(rows.drop_last(), x) > 0 {
                let i = choose|i: int|
                    0 <= i < rows.drop_last().len() && (#[trigger] rows.drop_last()[i].1).contains(
                        x,
                    );
                assert(rows[i].1.contains(x));
            } else {
                assert(rows[rows.len() - 1].1.contains(x));
            }
        }
    }
}

/// The edge total is zero exactly when every adjacency sequence is empty.
pub proof fn lemma_edges_zero_iff(rows: Seq<(u64, Seq<u64>)>)
    ensures
        edges_in(rows) == 0 <==> (forall|i: int|
            0 <= i < rows.len() ==> (#[trigger] rows[i].1).len() == 0),
    decreases rows.len(),
{
    if rows.len() > 0 {
        lemma_edges_zero_iff(rows.drop_last());
        if edges_in(rows) == 0 {
            assert forall|i: int| 0 <= i < rows.len() implies (#[trigger] rows[i].1).len()
                == 0 by {
                if i < rows.len() - 1 {
                    assert(rows.drop_last()[i] == rows[i]);
                }
            }
        } else {
            if edges_in(rows.drop_last()) > 0 {
                let i = choose|i: int|
                    0 <= i < rows.drop_last().len() && (#[trigger] rows.drop_last()[i].1).len()
                        > 0;
                assert(rows[i].1.len() > 0);
            } else {
                assert(rows[rows.len() - 1].1.len() > 0);
            }
        }
    }
}

pub proof fn lemma_edges_update(rows: Seq<(u64, Seq<u64>)>, i: int, r2: (u64, Seq<u64>))
    requires
        0 <= i < rows.len(),
    ensures
        edges_in(rows.update(i, r2)) + rows[i].1.len() == edges_in(rows) + r2.1.len(),
    decreases rows.len(),
{
    if i == rows.len() - 1 {
        assert(rows.update(i, r2).drop_last() =~= rows.drop_last());
        assert(rows.update(i, r2).last() == r2);
    } else {
        assert(rows.update(i, r2).drop_last() =~= rows.drop_last().update(i, r2));
        assert(rows.update(i, r2).last() == rows.last());
        lemma_edges_update(rows.drop_last(), i, r2);
    }
}

pub proof fn lemma_occ_update(rows: Seq<(u64, Seq<u64>)>, i: int, r2: (u64, Seq<u64>), x: u64)
    requires
        0 <= i < rows.len(),
    ensures
        occ_in(rows.update(i, r2), x) + count_of(rows[i].1, x) == occ_in(rows, x) + count_of(
            r2.1,
            x,
        ),
    decreases rows.len(),
{
    if i == rows.len() - 1 {
        assert(rows.update(i, r2).drop_last() =~= rows.drop_last());
        assert(rows.update(i, r2).last() == r2);
    } else {
        assert(rows.update(i, r2).drop_last() =~= rows.drop_last().update(i, r2));
        assert(rows.update(i, r2).last() == rows.last());
        lemma_occ_update(rows.drop_last(), i, r2, x);
    }
}

pub proof fn lemma_edges_push(rows: Seq<(u64, Seq<u64>)>, r2: (u64, Seq<u64>))
    ensures
        edges_in(rows.push(r2)) == edges_in(rows) + r2.1.len(),
{
    assert(rows.push(r2).drop_last() =~= rows);
}

pub proof fn lemma_occ_push(rows: Seq<(u64, Seq<u64>)>, r2: (u64, Seq<u64>), x: u64)
    ensures
        occ_in(rows.push(r2), x) == occ_in(rows, x) + count_of(r2.1, x),
{
    assert(rows.push(r2).drop_last() =~= rows);
}

/// Appending a fresh element keeps a sequence duplicate-free.
pub proof fn lemma_push_distinct(s: Seq<u64>, x: u64)
    requires
        s.no_duplicates(),
        !s.contains(x),
    ensures
        s.push(x).no_duplicates(),
        forall|y: u64| s.push(x).contains(y) <==> (s.contains(y) || y == x),
{
    let p = s.push(x);
    assert(p.drop_last() =~= s);
    assert(p.no_duplicates()) by {
        assert forall|a: int, b: int|
            0 <= a < p.len() && 0 <= b < p.len() && a != b implies p[a] != p[b] by {
            if a < s.len() && b < s.len() {
            } else if a == s.len() && b < s.len() {
                if s[b] == x {
                    assert(s.contains(x));
                }
            } else if b == s.len() && a < s.len() {
                if s[a] == x {
                    assert(s.contains(x));
                }
            }
        }
    }
    assert forall|y: u64| true implies (p.contains(y) <==> (s.contains(y) || y == x)) by {
        lemma_contains_drop_last(p, y);
    }
}

/// Dropping the front element of a duplicate-free sequence: the rest stays
/// duplicate-free, loses the front element, and keeps everything else.
pub proof fn lemma_drop_front(s: Seq<u64>)
    requires
        s.len() > 0,
        s.no_duplicates(),
    ensures
        s.subrange(1, s.len() as int).no_duplicates(),
        !s.subrange(1, s.len() as int).contains(s[0]),
        forall|y: u64|
            s.contains(y) <==> (y == s[0] || s.subrange(1, s.len() as int).contains(y)),
{
    let rest = s.subrange(1, s.len() as int);
    assert(rest.no_duplicates()) by {
        assert forall|a: int, b: int|
            0 <= a < rest.len() && 0 <= b < rest.len() && a != b implies rest[a] != rest[b] by {
            assert(rest[a] == s[a + 1] && rest[b] == s[b + 1]);
        }
    }
    assert(!rest.contains(s[0])) by {
        if rest.contains(s[0]) {
            let a = choose|a: int| 0 <= a < rest.len() && rest[a] == s[0];
            assert(s[a + 1] == s[0]);
        }
    }
    assert forall|y: u64| true implies (s.contains(y) <==> (y == s[0] || rest.contains(y))) by {
        if s.contains(y) {
            let a = choose|a: int| 0 <= a < s.len() && s[a] == y;
            if a > 0 {
                assert(rest[a - 1] == y);
            }
        }
        if rest.contains(y) {
            let a = choose|a: int| 0 <= a < rest.len() && rest[a] == y;
            assert(s[a + 1] == y);
        }
    }
}

/// Removing the first occurrence of the head element is dropping the head.
pub proof fn lemma_remove_first_of_head(s: Seq<u64>)
    requires
        s.len() > 0,
    ensures
        remove_first(s, s[0]) == s.skip(1),
{
    assert(s.contains(s[0]));
    s.index_of_first_ensures(s[0]);
    let i0 = s.index_of_first(s[0]).unwrap();
    assert(i0 == 0);
    assert(s.remove(0) =~= s.skip(1));
}

/// What removing the first occurrence of `x` does to lengths, counts and
/// membership.
pub proof fn lemma_remove_first(s: Seq<u64>, x: u64)
    ensures
        !s.contains(x) ==> remove_first(s, x) == s,
        s.contains(x) ==> remove_first(s, x).len() + 1 == s.len(),
        forall|y: u64|
            count_of(remove_first(s, x), y) + (if y == x && s.contains(x) {
                1nat
            } else {
                0nat
            }) == #[trigger] count_of(s, y),
        forall|k: int|
            0 <= k < remove_first(s, x).len() ==> s.contains(#[trigger] remove_first(s, x)[k]),
{
    s.index_of_first_ensures(x);
    match s.index_of_first(x) {
        Some(i) => {
            assert forall|y: u64|
                count_of(remove_first(s, x), y) + (if y == x && s.contains(x) {
                    1nat
                } else {
                    0nat
                }) == #[trigger] count_of(s, y) by {
                lemma_count_remove(s, i, y);
            }
            assert forall|k: int| 0 <= k < remove_first(s, x).len() implies s.contains(
                #[trigger] remove_first(s, x)[k],
            ) by {
                if k < i {
                    assert(remove_first(s, x)[k] == s[k]);
                } else {
                    assert(remove_first(s, x)[k] == s[k + 1]);
                }
            }
        },
        None => {},
    }
}

} // verus!
