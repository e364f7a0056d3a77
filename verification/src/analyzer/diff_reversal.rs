//! Comparing two trees one way and the other: the same paths change, with
//! their additions and deletions exchanged.
use vstd::prelude::*;

use crate::analyzer::diff::{
    change_for_current, change_for_parent, content_at, current_changes, diff_changes, distinct_paths,
    has_key, has_path, key_index, law_line_diff_reversed, lemma_path_index, line_count, line_diff, path_index,
    removed_changes, sum_additions, sum_deletions, ChangeSpec,
};
use crate::analyzer::paths::path_key;

verus! {

/// The additions and deletions that comparing `cur` against `par` records
/// for the path with key `k`, or `None` where it records nothing for it.
pub open spec fn change_at_key(cur: Seq<(Seq<char>, Seq<char>)>, par: Seq<(Seq<char>, Seq<char>)>, k: Seq<char>) -> Option<(u64, u64)> {
    let now = cur[key_index(cur, k)].1;
    let before = par[key_index(par, k)].1;
    if has_key(cur, k) {
        if !has_key(par, k) {
            Some((line_count(now), 0u64))
        } else if now != before {
            Some(line_diff(before, now))
        } else {
            None
        }
    } else if has_key(par, k) {
        Some((0u64, line_count(before)))
    } else {
        None
    }
}

/// Whether some change is recorded for the path `p`.
pub open spec fn lists_path(cs: Seq<ChangeSpec>, p: Seq<char>) -> bool {
    exists|i: int| 0 <= i < cs.len() && path_key(#[trigger] cs[i].path) == path_key(p)
}

proof fn lemma_current_changes(cur: Seq<(Seq<char>, Seq<char>)>, par: Seq<(Seq<char>, Seq<char>)>, k: nat)
    requires
        distinct_paths(cur),
        distinct_paths(par),
        k <= cur.len(),
    ensures
        forall|i: int|
            0 <= i < current_changes(cur, par, k).len() ==> has_path(cur, #[trigger] current_changes(cur, par, k)[i].path)
                && path_index(cur, current_changes(cur, par, k)[i].path) < k
                && change_at_key(cur, par, path_key(current_changes(cur, par, k)[i].path))
                == Some((current_changes(cur, par, k)[i].additions, current_changes(cur, par, k)[i].deletions)),
        forall|i: int, j: int|
            0 <= i < j < current_changes(cur, par, k).len() ==> path_key(#[trigger] current_changes(cur, par, k)[i].path)
                != path_key(#[trigger] current_changes(cur, par, k)[j].path),
        forall|j: int|
            0 <= j < k && change_at_key(cur, par, path_key(#[trigger] cur[j].0)) is Some ==> lists_path(
                current_changes(cur, par, k),
                cur[j].0,
            ),
    decreases k,
{
    if k > 0 {
        let km = (k - 1) as nat;
        lemma_current_changes(cur, par, km);
        let prev = current_changes(cur, par, km);
        let e = cur[km as int];
        let x = change_for_current(e, par);
        let c = current_changes(cur, par, k);
        assert(c == prev + x);
        lemma_path_index(cur, e.0, km as int);
        assert(x.len() <= 1);
        assert(x.len() == 1 ==> x[0].path == e.0);
        assert(change_at_key(cur, par, path_key(e.0)) is Some <==> x.len() == 1);
        assert(x.len() == 1 ==> change_at_key(cur, par, path_key(e.0)) == Some((x[0].additions, x[0].deletions)));
        assert forall|i: int| 0 <= i < prev.len() implies #[trigger] c[i] == prev[i] by {}
        assert forall|i: int|
            0 <= i < c.len() implies has_path(cur, #[trigger] c[i].path) && path_index(cur, c[i].path) < k
                && change_at_key(cur, par, path_key(c[i].path)) == Some((c[i].additions, c[i].deletions)) by {
            if i < prev.len() {
                assert(c[i] == prev[i]);
            } else {
                assert(c[i] == x[0]);
            }
        }
        assert forall|i: int, j: int| 0 <= i < j < c.len() implies path_key(#[trigger] c[i].path) != path_key(
            #[trigger] c[j].path,
        ) by {
            if j < prev.len() {
                assert(c[i] == prev[i] && c[j] == prev[j]);
            } else {
                assert(c[i] == prev[i]);
                assert(c[j] == x[0]);
                assert(path_index(cur, prev[i].path) < km);
            }
        }
        assert forall|j: int|
            0 <= j < k && change_at_key(cur, par, path_key(#[trigger] cur[j].0)) is Some implies lists_path(c, cur[j].0) by {
            if j < km {
                let i = choose|i: int| 0 <= i < prev.len() && path_key(#[trigger] prev[i].path) == path_key(cur[j].0);
                assert(c[i] == prev[i]);
            } else {
                assert(c[prev.len() as int] == x[0]);
            }
        }
    }
}

proof fn lemma_removed_changes(cur: Seq<(Seq<char>, Seq<char>)>, par: Seq<(Seq<char>, Seq<char>)>, k: nat)
    requires
        distinct_paths(cur),
        distinct_paths(par),
        k <= par.len(),
    ensures
        forall|i: int|
            0 <= i < removed_changes(cur, par, k).len() ==> has_path(par, #[trigger] removed_changes(cur, par, k)[i].path)
                && !has_path(cur, removed_changes(cur, par, k)[i].path)
                && path_index(par, removed_changes(cur, par, k)[i].path) < k
                && change_at_key(cur, par, path_key(removed_changes(cur, par, k)[i].path))
                == Some((removed_changes(cur, par, k)[i].additions, removed_changes(cur, par, k)[i].deletions)),
        forall|i: int, j: int|
            0 <= i < j < removed_changes(cur, par, k).len() ==> path_key(#[trigger] removed_changes(cur, par, k)[i].path)
                != path_key(#[trigger] removed_changes(cur, par, k)[j].path),
        forall|j: int|
            0 <= j < k && !has_path(cur, #[trigger] par[j].0) ==> lists_path(removed_changes(cur, par, k), par[j].0),
    decreases k,
{
    if k > 0 {
        let km = (k - 1) as nat;
        lemma_removed_changes(cur, par, km);
        let prev = removed_changes(cur, par, km);
        let e = par[km as int];
        let x = change_for_parent(e, cur);
        let c = removed_changes(cur, par, k);
        assert(c == prev + x);
        lemma_path_index(par, e.0, km as int);
        assert(x.len() <= 1);
        assert(x.len() == 1 ==> x[0].path == e.0);
        assert(!has_path(cur, e.0) <==> x.len() == 1);
        assert(x.len() == 1 ==> change_at_key(cur, par, path_key(e.0)) == Some((x[0].additions, x[0].deletions)));
        assert forall|i: int| 0 <= i < prev.len() implies #[trigger] c[i] == prev[i] by {}
        assert forall|i: int|
            0 <= i < c.len() implies has_path(par, #[trigger] c[i].path) && !has_path(cur, c[i].path)
                && path_index(par, c[i].path) < k
                && change_at_key(cur, par, path_key(c[i].path)) == Some((c[i].additions, c[i].deletions)) by {
            if i < prev.len() {
                assert(c[i] == prev[i]);
            } else {
                assert(c[i] == x[0]);
            }
        }
        assert forall|i: int, j: int| 0 <= i < j < c.len() implies path_key(#[trigger] c[i].path) != path_key(
            #[trigger] c[j].path,
        ) by {
            if j < prev.len() {
                assert(c[i] == prev[i] && c[j] == prev[j]);
            } else {
                assert(c[i] == prev[i]);
                assert(c[j] == x[0]);
                assert(path_index(par, prev[i].path) < km);
            }
        }
        assert forall|j: int| 0 <= j < k && !has_path(cur, #[trigger] par[j].0) implies lists_path(c, par[j].0) by {
            if j < km {
                let i = choose|i: int| 0 <= i < prev.len() && path_key(#[trigger] prev[i].path) == path_key(par[j].0);
                assert(c[i] == prev[i]);
            } else {
                assert(c[prev.len() as int] == x[0]);
            }
        }
    }
}

/// What comparing `cur` against `par` records: for each listed path the
/// change of that path, no path twice, and every path with a change.
proof fn lemma_diff_changes(cur: Seq<(Seq<char>, Seq<char>)>, par: Seq<(Seq<char>, Seq<char>)>)
    requires
        distinct_paths(cur),
        distinct_paths(par),
    ensures
        forall|i: int|
            0 <= i < diff_changes(cur, par).len() ==> change_at_key(cur, par, path_key(#[trigger] diff_changes(cur, par)[i].path))
                == Some((diff_changes(cur, par)[i].additions, diff_changes(cur, par)[i].deletions)),
        forall|i: int, j: int|
            0 <= i < j < diff_changes(cur, par).len() ==> path_key(#[trigger] diff_changes(cur, par)[i].path)
                != path_key(#[trigger] diff_changes(cur, par)[j].path),
        forall|p: Seq<char>| #[trigger] lists_path(diff_changes(cur, par), p) <==> change_at_key(cur, par, path_key(p)) is Some,
{
    lemma_current_changes(cur, par, cur.len());
    lemma_removed_changes(cur, par, par.len());
    let a = current_changes(cur, par, cur.len());
    let r = removed_changes(cur, par, par.len());
    let d = diff_changes(cur, par);
    assert(d == a + r);
    assert forall|i: int| 0 <= i < d.len() implies change_at_key(cur, par, path_key(#[trigger] d[i].path)) == Some(
        (d[i].additions, d[i].deletions),
    ) by {
        if i < a.len() {
            assert(d[i] == a[i]);
        } else {
            assert(d[i] == r[i - a.len()]);
        }
    }
    assert forall|i: int, j: int| 0 <= i < j < d.len() implies path_key(#[trigger] d[i].path) != path_key(
        #[trigger] d[j].path,
    ) by {
        if j < a.len() {
            assert(d[i] == a[i] && d[j] == a[j]);
        } else if i >= a.len() {
            assert(d[i] == r[i - a.len()] && d[j] == r[j - a.len()]);
        } else {
            assert(d[i] == a[i] && d[j] == r[j - a.len()]);
            assert(has_path(cur, a[i].path));
        }
    }
    assert forall|p: Seq<char>| #[trigger] lists_path(d, p) <==> change_at_key(cur, par, path_key(p)) is Some by {
        if lists_path(d, p) {
            let i = choose|i: int| 0 <= i < d.len() && path_key(#[trigger] d[i].path) == path_key(p);
            assert(change_at_key(cur, par, path_key(d[i].path)) is Some);
        }
        if change_at_key(cur, par, path_key(p)) is Some {
            let key = path_key(p);
            if has_key(cur, key) {
                let j = key_index(cur, key);
                assert(path_key(cur[j].0) == key);
                let i = choose|i: int| 0 <= i < a.len() && path_key(#[trigger] a[i].path) == path_key(cur[j].0);
                assert(d[i] == a[i]);
            } else {
                let j = key_index(par, key);
                assert(path_key(par[j].0) == key);
                assert(!has_path(cur, par[j].0));
                let i = choose|i: int| 0 <= i < r.len() && path_key(#[trigger] r[i].path) == path_key(par[j].0);
                assert(d[a.len() + i] == r[i]);
            }
        }
    }
}

/// The change recorded for a path one way is the other way's with its
/// additions and deletions exchanged.
proof fn lemma_change_reversed(a: Seq<(Seq<char>, Seq<char>)>, b: Seq<(Seq<char>, Seq<char>)>, k: Seq<char>)
    ensures
        change_at_key(b, a, k) is Some <==> change_at_key(a, b, k) is Some,
        change_at_key(a, b, k) is Some ==> change_at_key(b, a, k).unwrap() == (
            change_at_key(a, b, k).unwrap().1,
            change_at_key(a, b, k).unwrap().0,
        ),
{
    law_line_diff_reversed(b[key_index(b, k)].1, a[key_index(a, k)].1);
}

/// The sum of `f` over the path keys `ps`.
pub open spec fn sum_by(ps: Seq<Seq<char>>, f: spec_fn(Seq<char>) -> int) -> int
    decreases ps.len(),
{
    if ps.len() == 0 {
        0
    } else {
        sum_by(ps.drop_last(), f) + f(ps.last())
    }
}

/// The keys of the changes' paths, in order.
pub open spec fn change_paths(cs: Seq<ChangeSpec>) -> Seq<Seq<char>> {
    cs.map_values(|c: ChangeSpec| path_key(c.path))
}

proof fn lemma_sum_additions_by(cs: Seq<ChangeSpec>, f: spec_fn(Seq<char>) -> int)
    requires
        forall|i: int| 0 <= i < cs.len() ==> #[trigger] cs[i].additions == f(path_key(cs[i].path)),
    ensures
        sum_additions(cs) == sum_by(change_paths(cs), f),
    decreases cs.len(),
{
    if cs.len() > 0 {
        assert(change_paths(cs).drop_last() =~= change_paths(cs.drop_last()));
        assert forall|i: int| 0 <= i < cs.drop_last().len() implies #[trigger] cs.drop_last()[i].additions == f(path_key(cs.drop_last()[i].path)) by {
            assert(cs.drop_last()[i] == cs[i]);
        }
        lemma_sum_additions_by(cs.drop_last(), f);
        assert(cs.last() == cs[cs.len() - 1]);
    }
}

proof fn lemma_sum_deletions_by(cs: Seq<ChangeSpec>, f: spec_fn(Seq<char>) -> int)
    requires
        forall|i: int| 0 <= i < cs.len() ==> #[trigger] cs[i].deletions == f(path_key(cs[i].path)),
    ensures
        sum_deletions(cs) == sum_by(change_paths(cs), f),
    decreases cs.len(),
{
    if cs.len() > 0 {
        assert(change_paths(cs).drop_last() =~= change_paths(cs.drop_last()));
        assert forall|i: int| 0 <= i < cs.drop_last().len() implies #[trigger] cs.drop_last()[i].deletions == f(path_key(cs.drop_last()[i].path)) by {
            assert(cs.drop_last()[i] == cs[i]);
        }
        lemma_sum_deletions_by(cs.drop_last(), f);
        assert(cs.last() == cs[cs.len() - 1]);
    }
}

proof fn lemma_sum_by_remove(t: Seq<Seq<char>>, j: int, f: spec_fn(Seq<char>) -> int)
    requires
        0 <= j < t.len(),
    ensures
        sum_by(t, f) == sum_by(t.remove(j), f) + f(t[j]),
    decreases t.len(),
{
    if j == t.len() - 1 {
        assert(t.remove(j) =~= t.drop_last());
    } else {
        lemma_sum_by_remove(t.drop_last(), j, f);
        assert(t.drop_last().remove(j) =~= t.remove(j).drop_last());
        assert(t.remove(j).last() == t.last());
    }
}

/// A sum over paths does not depend on their order.
proof fn lemma_sum_by_reordered(s: Seq<Seq<char>>, t: Seq<Seq<char>>, f: spec_fn(Seq<char>) -> int)
    requires
        s.no_duplicates(),
        t.no_duplicates(),
        forall|x: Seq<char>| s.contains(x) <==> t.contains(x),
    ensures
        sum_by(s, f) == sum_by(t, f),
    decreases s.len(),
{
    if s.len() == 0 {
        if t.len() > 0 {
            assert(t.contains(t[0]));
        }
    } else {
        let x = s.last();
        assert(s.contains(s[s.len() - 1]));
        assert(t.contains(x));
        let j = choose|j: int| 0 <= j < t.len() && t[j] == x;
        let s2 = s.drop_last();
        let t2 = t.remove(j);
        assert forall|a: int| 0 <= a < t2.len() implies #[trigger] t2[a] == (if a < j { t[a] } else { t[a + 1] }) by {}
        assert forall|a: int| 0 <= a < s2.len() implies #[trigger] s2[a] == s[a] by {}
        assert forall|a: int, b: int| 0 <= a < t2.len() && 0 <= b < t2.len() && a != b implies t2[a] != t2[b] by {
            let a1 = if a < j { a } else { a + 1 };
            let b1 = if b < j { b } else { b + 1 };
            assert(t[a1] != t[b1]);
        }
        assert forall|a: int, b: int| 0 <= a < s2.len() && 0 <= b < s2.len() && a != b implies s2[a] != s2[b] by {
            assert(s[a] != s[b]);
        }
        assert forall|y: Seq<char>| s2.contains(y) <==> t2.contains(y) by {
            if s2.contains(y) {
                let a = choose|a: int| 0 <= a < s2.len() && s2[a] == y;
                assert(s[a] == y);
                assert(s.contains(y));
                assert(y != x) by {
                    assert(s[a] != s[s.len() - 1]);
                }
                let b = choose|b: int| 0 <= b < t.len() && t[b] == y;
                assert(b != j);
                let b2 = if b < j { b } else { b - 1 };
                assert(t2[b2] == y);
            }
            if t2.contains(y) {
                let b = choose|b: int| 0 <= b < t2.len() && t2[b] == y;
                let b1 = if b < j { b } else { b + 1 };
                assert(t[b1] == y);
                assert(t.contains(y));
                assert(y != x) by {
                    assert(t[b1] != t[j]);
                }
                let a = choose|a: int| 0 <= a < s.len() && s[a] == y;
                assert(a != s.len() - 1);
                assert(s2[a] == y);
            }
        }
        lemma_sum_by_reordered(s2, t2, f);
        lemma_sum_by_remove(t, j, f);
    }
}


proof fn lemma_paths_distinct(cs: Seq<ChangeSpec>)
    requires
        forall|i: int, j: int| 0 <= i < j < cs.len() ==> path_key(#[trigger] cs[i].path) != path_key(#[trigger] cs[j].path),
    ensures
        change_paths(cs).no_duplicates(),
        forall|i: int| 0 <= i < cs.len() ==> #[trigger] change_paths(cs)[i] == path_key(cs[i].path),
        change_paths(cs).len() == cs.len(),
{
    let ps = change_paths(cs);
    assert forall|a: int, b: int| 0 <= a < ps.len() && 0 <= b < ps.len() && a != b implies ps[a] != ps[b] by {
        if a < b {
            assert(path_key(cs[a].path) != path_key(cs[b].path));
        } else {
            assert(path_key(cs[b].path) != path_key(cs[a].path));
        }
    }
}

/// Comparing two trees the other way round changes the same paths, each
/// with its additions and deletions exchanged, and exchanges the totals:
/// what one way adds the other deletes.
pub proof fn law_diff_reversed(a: Seq<(Seq<char>, Seq<char>)>, b: Seq<(Seq<char>, Seq<char>)>)
    requires
        distinct_paths(a),
        distinct_paths(b),
    ensures
        forall|p: Seq<char>| #[trigger] lists_path(diff_changes(b, a), p) <==> lists_path(diff_changes(a, b), p),
        forall|i: int, j: int|
            0 <= i < diff_changes(a, b).len() && 0 <= j < diff_changes(b, a).len() && path_key(
                #[trigger] diff_changes(a, b)[i].path,
            ) == path_key(#[trigger] diff_changes(b, a)[j].path) ==> diff_changes(b, a)[j].additions == diff_changes(
                a,
                b,
            )[i].deletions && diff_changes(b, a)[j].deletions == diff_changes(a, b)[i].additions,
        sum_additions(diff_changes(b, a)) == sum_deletions(diff_changes(a, b)),
        sum_deletions(diff_changes(b, a)) == sum_additions(diff_changes(a, b)),
{
    let d1 = diff_changes(a, b);
    let d2 = diff_changes(b, a);
    lemma_diff_changes(a, b);
    lemma_diff_changes(b, a);
    assert forall|p: Seq<char>| #[trigger] lists_path(d2, p) <==> lists_path(d1, p) by {
        lemma_change_reversed(a, b, path_key(p));
    }
    assert forall|i: int, j: int|
        0 <= i < d1.len() && 0 <= j < d2.len() && path_key(#[trigger] d1[i].path) == path_key(#[trigger] d2[j].path) implies d2[j].additions
            == d1[i].deletions && d2[j].deletions == d1[i].additions by {
        lemma_change_reversed(a, b, path_key(d1[i].path));
    }
    let fa = |k: Seq<char>| change_at_key(a, b, k).unwrap().0 as int;
    let fd = |k: Seq<char>| change_at_key(a, b, k).unwrap().1 as int;
    assert forall|i: int| 0 <= i < d2.len() implies #[trigger] d2[i].deletions == fa(path_key(d2[i].path)) && d2[i].additions == fd(
        path_key(d2[i].path),
    ) by {
        lemma_change_reversed(a, b, path_key(d2[i].path));
    }
    lemma_sum_additions_by(d1, fa);
    lemma_sum_deletions_by(d1, fd);
    lemma_sum_additions_by(d2, fd);
    lemma_sum_deletions_by(d2, fa);
    lemma_paths_distinct(d1);
    lemma_paths_distinct(d2);
    let p1 = change_paths(d1);
    let p2 = change_paths(d2);
    assert forall|k: Seq<char>| p1.contains(k) <==> p2.contains(k) by {
        if p1.contains(k) {
            let i = choose|i: int| 0 <= i < p1.len() && p1[i] == k;
            let p = d1[i].path;
            assert(path_key(d1[i].path) == path_key(p));
            assert(lists_path(d1, p));
            assert(lists_path(d2, p));
            let j = choose|j: int| 0 <= j < d2.len() && path_key(#[trigger] d2[j].path) == path_key(p);
            assert(p2[j] == k);
        }
        if p2.contains(k) {
            let j = choose|j: int| 0 <= j < p2.len() && p2[j] == k;
            let p = d2[j].path;
            assert(path_key(d2[j].path) == path_key(p));
            assert(lists_path(d2, p));
            assert(lists_path(d1, p));
            let i = choose|i: int| 0 <= i < d1.len() && path_key(#[trigger] d1[i].path) == path_key(p);
            assert(p1[i] == k);
        }
    }
    lemma_sum_by_reordered(p1, p2, fa);
    lemma_sum_by_reordered(p1, p2, fd);
}

} // verus!
