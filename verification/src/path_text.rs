//! The text of a path reads back as the path, when its field names are plain.
use vstd::prelude::*;
use crate::path::{digits_end, field_path, index_path, index_value, path_scan, render, scan_path, with_field, Scan, Seg};
use crate::text::{all_digits, decimal, digit_value, digits_value, is_digit, lemma_decimal_digits, lemma_decimal_value};

verus! {

/// Whether a field name reads back as itself in a path's text: nonempty and
/// without `.` or `[`.
pub open spec fn plain_name(n: Seq<char>) -> bool {
    n.len() > 0 && forall|i: int| 0 <= i < n.len() ==> (#[trigger] n[i] != '.' && n[i] != '[')
}

/// Whether every field name of the path is plain.
pub open spec fn plain_path(segs: Seq<Seg>) -> bool {
    forall|k: int| 0 <= k < segs.len() ==> (#[trigger] segs[k] matches Seg::Field(n) ==> plain_name(n))
}

/// The text that step `k` adds to the path's text.
pub open spec fn piece(segs: Seq<Seg>, k: int) -> Seq<char> {
    match segs[k] {
        Seg::Field(n) => if k == 0 { n } else { seq!['.'] + n },
        Seg::Index(i) => seq!['['] + decimal(i as nat) + seq![']'],
    }
}

/// Where the scan stands after the text of the first `k` steps: the steps
/// done and the field name pending.
pub open spec fn scan_state(segs: Seq<Seg>, k: int) -> (Seq<Seg>, Seq<char>) {
    if k > 0 && segs[k - 1] is Field {
        (segs.take(k - 1), segs[k - 1]->Field_0)
    } else {
        (segs.take(k), Seq::empty())
    }
}

proof fn lemma_plain_take(segs: Seq<Seg>, k: int)
    requires
        plain_path(segs),
        0 <= k <= segs.len(),
    ensures
        plain_path(segs.take(k)),
{
    assert forall|j: int| 0 <= j < segs.take(k).len() implies (#[trigger] segs.take(k)[j] matches Seg::Field(n) ==> plain_name(n)) by {
        assert(segs.take(k)[j] == segs[j]);
    }
}

/// The text of `k + 1` steps is that of `k` steps and the `k`th piece.
proof fn lemma_render_step(segs: Seq<Seg>, k: int)
    requires
        plain_path(segs),
        0 <= k < segs.len(),
    ensures
        render(segs.take(k + 1)) == render(segs.take(k)) + piece(segs, k),
        k > 0 ==> render(segs.take(k)).len() > 0,
    decreases k,
{
    let t = segs.take(k + 1);
    assert(t.drop_last() =~= segs.take(k));
    assert(t.last() == segs[k]);
    if k > 0 {
        lemma_render_step(segs, k - 1);
        match segs[k - 1] {
            Seg::Field(n) => {
                assert(plain_name(n));
            },
            Seg::Index(i) => {},
        }
    }
    match segs[k] {
        Seg::Field(n) => {
            if k == 0 {
                assert(segs.take(0) =~= Seq::<Seg>::empty());
                assert(render(segs.take(0)) =~= Seq::<char>::empty());
                assert(render(segs.take(0)) + n =~= n);
            } else {
                assert(render(segs.take(k)) + (seq!['.'] + n) =~= render(segs.take(k)) + "."@ + n) by {
                    reveal_strlit(".");
                }
            }
        },
        Seg::Index(i) => {
            assert(render(segs.take(k)) + (seq!['['] + decimal(i as nat) + seq![']'])
                =~= render(segs.take(k)) + "["@ + decimal(i as nat) + "]"@) by {
                reveal_strlit("[");
                reveal_strlit("]");
            }
        },
    }
}

/// The text of the first `k` steps begins the text of the whole path.
proof fn lemma_render_prefix(segs: Seq<Seg>, k: int)
    requires
        plain_path(segs),
        0 <= k <= segs.len(),
    ensures
        render(segs.take(k)).len() <= render(segs).len(),
        render(segs).take(render(segs.take(k)).len() as int) == render(segs.take(k)),
    decreases segs.len() - k,
{
    if k == segs.len() {
        assert(segs.take(k) =~= segs);
    } else {
        lemma_render_prefix(segs, k + 1);
        lemma_render_step(segs, k);
        let a = render(segs.take(k));
        let b = render(segs.take(k + 1));
        assert(b.take(a.len() as int) =~= a);
        assert(render(segs).take(a.len() as int) =~= render(segs).take(b.len() as int).take(a.len() as int));
    }
}

/// Scanning the characters of a plain name adds them to the pending name.
proof fn lemma_scan_name(cs: Seq<char>, i: int, acc: Seq<Seg>, f: Seq<char>, n: Seq<char>)
    requires
        0 <= i,
        i + n.len() <= cs.len(),
        cs.subrange(i, i + n.len()) == n,
        forall|j: int| 0 <= j < n.len() ==> #[trigger] n[j] != '.' && n[j] != '[',
    ensures
        scan_path(cs, i, acc, f) == scan_path(cs, i + n.len(), acc, f + n),
    decreases n.len(),
{
    if n.len() == 0 {
        assert(f + n =~= f);
    } else {
        assert(cs[i] == n[0]);
        let rest = n.drop_first();
        assert(cs.subrange(i + 1, i + 1 + rest.len()) =~= rest);
        lemma_scan_name(cs, i + 1, acc, f.push(n[0]), rest);
        assert(f.push(n[0]) + rest =~= f + n);
    }
}

/// Where a run of digits ends.
proof fn lemma_digits_run(cs: Seq<char>, start: int, m: int)
    requires
        0 <= start,
        start + m < cs.len(),
        0 <= m,
        forall|j: int| start <= j < start + m ==> is_digit(#[trigger] cs[j]),
        !is_digit(cs[start + m]),
    ensures
        digits_end(cs, start) == start + m,
    decreases m,
{
    if m > 0 {
        lemma_digits_run(cs, start + 1, m - 1);
    }
}

/// Scanning `[digits]` of an index adds the index step.
proof fn lemma_scan_index(cs: Seq<char>, i: int, acc: Seq<Seg>, f: Seq<char>, idx: usize)
    requires
        0 <= i,
        i + decimal(idx as nat).len() + 2 <= cs.len(),
        cs.subrange(i, i + decimal(idx as nat).len() + 2) == seq!['['] + decimal(idx as nat) + seq![']'],
    ensures
        scan_path(cs, i, acc, f) == scan_path(
            cs,
            i + decimal(idx as nat).len() + 2,
            with_field(acc, f).push(Seg::Index(idx)),
            Seq::empty(),
        ),
{
    let d = decimal(idx as nat);
    lemma_decimal_digits(idx as nat);
    lemma_decimal_value(idx as nat);
    let start = i + 1;
    let j = start + d.len();
    let piece = seq!['['] + d + seq![']'];
    assert(cs[i] == piece[0]);
    assert(cs[j] == piece[d.len() + 1int]);
    assert(cs[j] == ']');
    assert forall|q: int| start <= q < j implies is_digit(#[trigger] cs[q]) by {
        assert(cs[q] == piece[q - i]);
        assert(piece[q - i] == d[q - start]);
    }
    assert('0' as u32 == 48 && '9' as u32 == 57 && ']' as u32 == 93);
    lemma_digits_run(cs, start, d.len() as int);
    assert(cs.subrange(start, j) =~= d) by {
        assert forall|q: int| 0 <= q < d.len() implies cs.subrange(start, j)[q] == d[q] by {
            assert(cs[start + q] == piece[q + 1]);
        }
    }
    assert(index_value(cs.subrange(start, j)) == Some(idx));
}

/// From the text of its first `k` steps on, the text of a plain path scans to
/// the path.
proof fn lemma_scan_from(segs: Seq<Seg>, k: int)
    requires
        plain_path(segs),
        0 <= k <= segs.len(),
    ensures
        scan_path(
            render(segs),
            render(segs.take(k)).len() as int,
            scan_state(segs, k).0,
            scan_state(segs, k).1,
        ) == Scan::Done(segs),
    decreases segs.len() - k,
{
    let cs = render(segs);
    lemma_render_prefix(segs, k);
    if k > 0 {
        if let Seg::Field(m) = segs[k - 1] {
            assert(plain_name(m));
            assert(segs.take(k - 1).push(Seg::Field(m)) =~= segs.take(k));
        }
    }
    assert(with_field(scan_state(segs, k).0, scan_state(segs, k).1) == segs.take(k));
    if k == segs.len() {
        assert(segs.take(k) =~= segs);
    } else {
        lemma_render_step(segs, k);
        lemma_render_prefix(segs, k + 1);
        lemma_scan_from(segs, k + 1);
        let a = render(segs.take(k));
        let p = piece(segs, k);
        let pk = a.len() as int;
        assert(render(segs.take(k + 1)) == a + p);
        assert(cs.subrange(pk, pk + p.len()) =~= p) by {
            assert forall|q: int| 0 <= q < p.len() implies cs[pk + q] == p[q] by {
                assert(cs.take((a + p).len() as int)[pk + q] == (a + p)[pk + q]);
            }
        }
        let (acc, f) = scan_state(segs, k);
        match segs[k] {
            Seg::Field(n) => {
                assert(plain_name(n));
                if k == 0 {
                    lemma_scan_name(cs, pk, acc, f, n);
                    assert(f + n =~= n);
                    assert(segs.take(0) =~= Seq::<Seg>::empty());
                } else {
                    assert(p == seq!['.'] + n);
                    assert(cs.subrange(pk, pk + p.len())[0] == cs[pk]);
                    assert(cs[pk] == '.');
                    assert forall|q: int| 0 <= q < n.len() implies cs.subrange(pk + 1, pk + 1 + n.len())[q] == n[q] by {
                        assert(cs.subrange(pk, pk + p.len())[q + 1] == cs[pk + 1 + q]);
                        assert(p[q + 1] == n[q]);
                    }
                    assert(cs.subrange(pk + 1, pk + 1 + n.len()) =~= n);
                    lemma_scan_name(cs, pk + 1, segs.take(k), Seq::empty(), n);
                    assert(Seq::<char>::empty() + n =~= n);
                    if let Seg::Field(m) = segs[k - 1] {
                        assert(f.len() > 0);
                        assert(acc.push(Seg::Field(f)) =~= segs.take(k));
                        assert(scan_path(cs, pk, acc, f) == scan_path(cs, pk + 1, segs.take(k), Seq::empty()));
                    } else {
                        assert(a.last() == ']') by {
                            let t = segs.take(k);
                            assert(t.drop_last() =~= segs.take(k - 1));
                            assert(t.last() == segs[k - 1]);
                            reveal_strlit("]");
                        }
                        assert(cs[pk - 1] == ']') by {
                            assert(cs.take(pk)[pk - 1] == a[pk - 1]);
                        }
                        assert(scan_path(cs, pk, acc, f) == scan_path(cs, pk + 1, segs.take(k), Seq::empty()));
                    }
                    assert(render(segs.take(k + 1)).len() == pk + 1 + n.len());
                }
            },
            Seg::Index(i) => {
                lemma_scan_index(cs, pk, acc, f, i);
                assert(segs.take(k).push(Seg::Index(i)) =~= segs.take(k + 1));
                assert(render(segs.take(k + 1)).len() == pk + decimal(i as nat).len() + 2);
            },
        }
    }
}

/// Reading back the text of a path whose field names are nonempty and
/// without `.` or `[` gives the path again.
pub proof fn lemma_render_then_scan(segs: Seq<Seg>)
    requires
        plain_path(segs),
    ensures
        path_scan(render(segs)) == Scan::Done(segs),
{
    lemma_scan_from(segs, 0);
    assert(segs.take(0) =~= Seq::<Seg>::empty());
}

} // verus!
