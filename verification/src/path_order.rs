//! What normalising the paths to delete gives: paths of the input, none
//! leading to another, every input path leading to one of them, in deletion
//! order.
use vstd::prelude::*;
use crate::path::{insert_sorted, is_prefix_path, keep_specific, render, sort_paths, sorts_before, text_less, Seg};

verus! {

proof fn lemma_text_less_irreflexive(a: Seq<char>)
    ensures
        !text_less(a, a),
    decreases a.len(),
{
    if a.len() > 0 {
        lemma_text_less_irreflexive(a.drop_first());
    }
}

proof fn lemma_text_less_asymmetric(a: Seq<char>, b: Seq<char>)
    ensures
        text_less(a, b) ==> !text_less(b, a),
    decreases a.len(),
{
    if a.len() > 0 && b.len() > 0 && a[0] == b[0] {
        lemma_text_less_asymmetric(a.drop_first(), b.drop_first());
    }
}

proof fn lemma_text_less_transitive(a: Seq<char>, b: Seq<char>, c: Seq<char>)
    ensures
        text_less(a, b) && text_less(b, c) ==> text_less(a, c),
    decreases a.len(),
{
    if a.len() > 0 && b.len() > 0 && c.len() > 0 && a[0] == b[0] && b[0] == c[0] {
        lemma_text_less_transitive(a.drop_first(), b.drop_first(), c.drop_first());
    }
}

/// Deletion order is a strict order.
proof fn lemma_sorts_before_order(a: Seq<Seg>, b: Seq<Seg>, c: Seq<Seg>)
    ensures
        !sorts_before(a, a),
        sorts_before(a, b) ==> !sorts_before(b, a),
        sorts_before(a, b) && sorts_before(b, c) ==> sorts_before(a, c),
{
    lemma_text_less_irreflexive(render(a));
    lemma_text_less_asymmetric(render(a), render(b));
    lemma_text_less_transitive(render(a), render(b), render(c));
}

/// Whether no path comes after one that it sorts before.
pub open spec fn in_order(s: Seq<Seq<Seg>>) -> bool {
    forall|i: int, j: int| 0 <= i < j < s.len() ==> !sorts_before(#[trigger] s[j], #[trigger] s[i])
}

proof fn lemma_in_order_cons(a: Seq<Seg>, t: Seq<Seq<Seg>>)
    requires
        in_order(t),
        forall|k: int| 0 <= k < t.len() ==> !sorts_before(#[trigger] t[k], a),
    ensures
        in_order(seq![a] + t),
{
    let s = seq![a] + t;
    assert forall|i: int, j: int| 0 <= i < j < s.len() implies !sorts_before(#[trigger] s[j], #[trigger] s[i]) by {
        assert(s[j] == t[j - 1]);
        if i > 0 {
            assert(s[i] == t[i - 1]);
        }
    }
}

/// Inserting keeps the members and the order.
proof fn lemma_insert_sorted_props(s: Seq<Seq<Seg>>, x: Seq<Seg>)
    ensures
        insert_sorted(s, x).len() == s.len() + 1,
        forall|y: Seq<Seg>| #[trigger] insert_sorted(s, x).contains(y) <==> s.contains(y) || y == x,
        in_order(s) ==> in_order(insert_sorted(s, x)),
    decreases s.len(),
{
    let r = insert_sorted(s, x);
    if s.len() == 0 {
        assert forall|y: Seq<Seg>| #[trigger] r.contains(y) <==> s.contains(y) || y == x by {
            if r.contains(y) {
                assert(r[0] == y);
            }
            if y == x {
                assert(r[0] == x);
            }
        }
    } else if sorts_before(x, s[0]) {
        assert forall|y: Seq<Seg>| #[trigger] r.contains(y) <==> s.contains(y) || y == x by {
            if r.contains(y) {
                let k = choose|k: int| 0 <= k < r.len() && r[k] == y;
                if k > 0 {
                    assert(s[k - 1] == y);
                }
            }
            if s.contains(y) {
                let k = choose|k: int| 0 <= k < s.len() && s[k] == y;
                assert(r[k + 1] == y);
            }
            if y == x {
                assert(r[0] == x);
            }
        }
        if in_order(s) {
            assert forall|k: int| 0 <= k < s.len() implies !sorts_before(#[trigger] s[k], x) by {
                lemma_sorts_before_order(s[k], x, s[0]);
                lemma_sorts_before_order(s[0], s[0], s[0]);
                if k > 0 {
                    assert(!sorts_before(s[k], s[0]));
                }
            }
            lemma_in_order_cons(x, s);
        }
    } else {
        let t = s.drop_first();
        lemma_insert_sorted_props(t, x);
        let it = insert_sorted(t, x);
        assert(r == seq![s[0]] + it);
        assert forall|y: Seq<Seg>| #[trigger] r.contains(y) <==> s.contains(y) || y == x by {
            if r.contains(y) {
                let k = choose|k: int| 0 <= k < r.len() && r[k] == y;
                if k > 0 {
                    assert(it[k - 1] == y);
                    assert(it.contains(y));
                    if t.contains(y) {
                        let m = choose|m: int| 0 <= m < t.len() && t[m] == y;
                        assert(s[m + 1] == y);
                    }
                } else {
                    assert(s[0] == y);
                }
            }
            if s.contains(y) {
                let k = choose|k: int| 0 <= k < s.len() && s[k] == y;
                if k > 0 {
                    assert(t[k - 1] == y);
                    assert(it.contains(y));
                    let m = choose|m: int| 0 <= m < it.len() && it[m] == y;
                    assert(r[m + 1] == y);
                } else {
                    assert(r[0] == y);
                }
            }
            if y == x {
                assert(it.contains(x));
                let m = choose|m: int| 0 <= m < it.len() && it[m] == x;
                assert(r[m + 1] == x);
            }
        }
        if in_order(s) {
            assert(in_order(t)) by {
                assert forall|i: int, j: int| 0 <= i < j < t.len() implies !sorts_before(#[trigger] t[j], #[trigger] t[i]) by {
                    assert(t[j] == s[j + 1] && t[i] == s[i + 1]);
                }
            }
            assert forall|k: int| 0 <= k < it.len() implies !sorts_before(#[trigger] it[k], s[0]) by {
                assert(it.contains(it[k]));
                if it[k] != x {
                    assert(t.contains(it[k]));
                    let m = choose|m: int| 0 <= m < t.len() && t[m] == it[k];
                    assert(s[m + 1] == it[k]);
                }
            }
            lemma_in_order_cons(s[0], it);
        }
    }
}

/// Sorting keeps the members and puts them in order.
proof fn lemma_sort_paths_props(ps: Seq<Seq<Seg>>)
    ensures
        in_order(sort_paths(ps)),
        forall|y: Seq<Seg>| #[trigger] sort_paths(ps).contains(y) <==> ps.contains(y),
    decreases ps.len(),
{
    if ps.len() > 0 {
        lemma_sort_paths_props(ps.drop_last());
        lemma_insert_sorted_props(sort_paths(ps.drop_last()), ps.last());
        assert forall|y: Seq<Seg>| #[trigger] sort_paths(ps).contains(y) <==> ps.contains(y) by {
            if ps.drop_last().contains(y) {
                let k = choose|k: int| 0 <= k < ps.drop_last().len() && ps.drop_last()[k] == y;
                assert(ps[k] == y);
            }
            if ps.contains(y) {
                let k = choose|k: int| 0 <= k < ps.len() && ps[k] == y;
                if k < ps.len() - 1 {
                    assert(ps.drop_last()[k] == y);
                }
            }
        }
    } else {
        assert(sort_paths(ps) =~= Seq::<Seq<Seg>>::empty());
    }
}

/// Keeping the most specific paths of an ordered run: each kept path is one
/// of the run, they stay in order, none leads to another, and every path of
/// the run leads to a kept one.
proof fn lemma_keep_specific_props(s: Seq<Seq<Seg>>)
    requires
        in_order(s),
    ensures
        ({
            let r = keep_specific(s);
            &&& forall|k: int| 0 <= k < r.len() ==> s.contains(#[trigger] r[k])
            &&& in_order(r)
            &&& forall|i: int, j: int| 0 <= i < r.len() && 0 <= j < r.len() && i != j ==> !is_prefix_path(
                #[trigger] r[i],
                #[trigger] r[j],
            )
            &&& forall|m: int| 0 <= m < s.len() ==> exists|k: int| 0 <= k < r.len() && is_prefix_path(#[trigger] s[m], #[trigger] r[k])
        }),
    decreases s.len(),
{
    if s.len() > 0 {
        let t = s.drop_last();
        assert(in_order(t)) by {
            assert forall|i: int, j: int| 0 <= i < j < t.len() implies !sorts_before(#[trigger] t[j], #[trigger] t[i]) by {
                assert(t[j] == s[j] && t[i] == s[i]);
            }
        }
        lemma_keep_specific_props(t);
        let kept = keep_specific(t);
        let c = s.last();
        let r = keep_specific(s);
        assert forall|k: int| 0 <= k < kept.len() implies s.contains(#[trigger] kept[k]) by {
            assert(t.contains(kept[k]));
            let m = choose|m: int| 0 <= m < t.len() && t[m] == kept[k];
            assert(s[m] == kept[k]);
        }
        // each kept path comes before the last one in the run
        assert forall|k: int| 0 <= k < kept.len() implies !sorts_before(c, #[trigger] kept[k]) by {
            assert(t.contains(kept[k]));
            let m = choose|m: int| 0 <= m < t.len() && t[m] == kept[k];
            assert(s[m] == kept[k]);
            assert(!sorts_before(s[s.len() - 1], s[m]));
        }
        if exists|k: int| 0 <= k < kept.len() && is_prefix_path(c, #[trigger] kept[k]) {
            assert(r == kept);
            assert forall|m: int| 0 <= m < s.len() implies exists|k: int| 0 <= k < r.len() && is_prefix_path(#[trigger] s[m], #[trigger] r[k]) by {
                if m < t.len() {
                    assert(s[m] == t[m]);
                }
            }
        } else {
            assert(r == kept.push(c));
            assert forall|k: int| 0 <= k < r.len() implies s.contains(#[trigger] r[k]) by {
                if k == kept.len() {
                    assert(s[s.len() - 1] == c);
                } else {
                    assert(r[k] == kept[k]);
                }
            }
            assert(in_order(r)) by {
                assert forall|i: int, j: int| 0 <= i < j < r.len() implies !sorts_before(#[trigger] r[j], #[trigger] r[i]) by {
                    assert(r[i] == kept[i]);
                    if j < kept.len() {
                        assert(r[j] == kept[j]);
                    }
                }
            }
            assert forall|i: int, j: int| 0 <= i < r.len() && 0 <= j < r.len() && i != j implies !is_prefix_path(
                #[trigger] r[i],
                #[trigger] r[j],
            ) by {
                if i < kept.len() && j < kept.len() {
                    assert(r[i] == kept[i] && r[j] == kept[j]);
                } else if i == kept.len() {
                    assert(r[j] == kept[j]);
                } else {
                    // a kept path leading to the last one would be as long as it, so equal
                    assert(r[i] == kept[i]);
                    assert(!sorts_before(c, kept[i]));
                    if is_prefix_path(kept[i], c) {
                        assert(kept[i].len() == c.len());
                        assert(kept[i] =~= c);
                        assert(is_prefix_path(c, kept[i]));
                    }
                }
            }
            assert forall|m: int| 0 <= m < s.len() implies exists|k: int| 0 <= k < r.len() && is_prefix_path(#[trigger] s[m], #[trigger] r[k]) by {
                if m < t.len() {
                    assert(s[m] == t[m]);
                    let k = choose|k: int| 0 <= k < kept.len() && is_prefix_path(t[m], #[trigger] kept[k]);
                    assert(r[k] == kept[k]);
                } else {
                    assert(is_prefix_path(c, c));
                    assert(r[kept.len() as int] == c);
                }
            }
        }
    }
}

/// The paths that [`crate::path::normalize_delete_paths`] keeps are paths of
/// its input, none of them leads to another (nor repeats one), every input
/// path is one of them or leads to one, and they come in deletion order:
/// longer paths first, paths of equal length by their text.
pub proof fn lemma_normalized_paths(ps: Seq<Seq<Seg>>)
    ensures
        ({
            let r = keep_specific(sort_paths(ps));
            &&& forall|k: int| 0 <= k < r.len() ==> ps.contains(#[trigger] r[k])
            &&& forall|i: int, j: int| 0 <= i < r.len() && 0 <= j < r.len() && i != j ==> !is_prefix_path(
                #[trigger] r[i],
                #[trigger] r[j],
            )
            &&& forall|m: int| 0 <= m < ps.len() ==> exists|k: int| 0 <= k < r.len() && is_prefix_path(#[trigger] ps[m], #[trigger] r[k])
            &&& in_order(r)
        }),
{
    lemma_sort_paths_props(ps);
    let s = sort_paths(ps);
    lemma_keep_specific_props(s);
    let r = keep_specific(s);
    assert forall|k: int| 0 <= k < r.len() implies ps.contains(#[trigger] r[k]) by {
        assert(s.contains(r[k]));
    }
    assert forall|m: int| 0 <= m < ps.len() implies exists|k: int| 0 <= k < r.len() && is_prefix_path(#[trigger] ps[m], #[trigger] r[k]) by {
        assert(ps.contains(ps[m]));
        assert(s.contains(ps[m]));
        let q = choose|q: int| 0 <= q < s.len() && s[q] == ps[m];
        let k = choose|k: int| 0 <= k < r.len() && is_prefix_path(#[trigger] s[q], #[trigger] r[k]);
    }
}

} // verus!
