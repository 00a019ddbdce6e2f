//! What holds of every reconciliation, stated over the model and proved.

use crate::delta::{lower, Delta};
use crate::marks::{
    is_directive_set, mark_key, marks, EMUTRAMP, MPROTECT, PAGEEXEC, RANDMMAP, SEGMEXEC,
};
use crate::reconcile::{
    clean, defaulted, honored, is_canonical, lemma_applied_keeps_mark, lemma_clean_step,
    lemma_honored_prefix, lemma_reconciled_canonical, lemma_scanned_marks, reconciled, scanned,
    seen,
};
use vstd::prelude::*;

verus! {

/// A directive set that keeps every mark as it is.
pub open spec fn keeps_all(m: Map<u32, Delta>) -> bool {
    is_directive_set(m) && forall|k: u32| m.contains_key(k) ==> #[trigger] m[k] == Delta::Keep
}

/// Whether `mark` is the letter of one of the five marks.
pub open spec fn is_mark_letter(mark: char) -> bool {
    mark == EMUTRAMP || mark == MPROTECT || mark == PAGEEXEC || mark == RANDMMAP || mark
        == SEGMEXEC
}

/// Whether `i` is the place of the first letter of `s` that stands for the
/// mark with key `k`.
pub open spec fn is_first(s: Seq<char>, k: u32, i: int) -> bool {
    0 <= i < s.len() && mark_key(s[i]) == k && !seen(s.take(i), k)
}

/// The place of the first letter of `s` that stands for the mark with key `k`.
pub open spec fn first_of(s: Seq<char>, k: u32) -> int {
    choose|i: int| is_first(s, k, i)
}

/// The letter that the reconciled string holds for `mark`: the change for the
/// mark applied to the first letter of `s` that stands for it, or to the
/// mark's own letter where `s` has none.
pub open spec fn resolved(s: Seq<char>, m: Map<u32, Delta>, mark: char) -> char {
    let k = mark_key(mark);
    if seen(s, k) {
        m[k].applied(s[first_of(s, k)])
    } else {
        m[k].applied(mark)
    }
}

/// What is taken over is never longer than the string; it is as long exactly
/// if the string is clean, and then it is the string with the change for
/// each letter's mark applied to it.
pub proof fn lemma_scanned_clean(s: Seq<char>, m: Map<u32, Delta>)
    ensures
        scanned(s, m).len() <= s.len(),
        scanned(s, m).len() == s.len() <==> clean(s, m),
        clean(s, m) ==> forall|i: int|
            0 <= i < s.len() ==> #[trigger] scanned(s, m)[i] == m[mark_key(s[i])].applied(s[i]),
    decreases s.len(),
{
    if s.len() > 0 {
        lemma_scanned_clean(s.drop_last(), m);
        lemma_clean_step(s, m);
    }
}

/// A mark that some letter of `s` stands for has a first such letter.
pub proof fn lemma_first_occurrence(s: Seq<char>, k: u32)
    requires
        seen(s, k),
    ensures
        is_first(s, k, first_of(s, k)),
    decreases s.len(),
{
    let p = s.drop_last();
    if seen(p, k) {
        lemma_first_occurrence(p, k);
        let i = first_of(p, k);
        assert(p.take(i) =~= s.take(i));
        assert(is_first(s, k, i));
    } else {
        let w = choose|i: int| 0 <= i < s.len() && #[trigger] mark_key(s[i]) == k;
        if w < s.len() - 1 {
            assert(mark_key(p[w]) == k);
        }
        assert(p =~= s.take(s.len() - 1));
        assert(is_first(s, k, s.len() - 1));
    }
}

/// A letter that is taken over stands in what is taken over, with the change
/// for its mark applied.
pub proof fn lemma_honored_in_scanned(s: Seq<char>, m: Map<u32, Delta>, i: int)
    requires
        0 <= i < s.len(),
        honored(s, m, i),
    ensures
        scanned(s, m).contains(m[mark_key(s[i])].applied(s[i])),
    decreases s.len(),
{
    let p = s.drop_last();
    let x = m[mark_key(s[i])].applied(s[i]);
    if i < s.len() - 1 {
        lemma_honored_prefix(s, m, s.len() - 1, i);
        assert(p =~= s.take(s.len() - 1));
        lemma_honored_in_scanned(p, m, i);
        let j = choose|j: int| 0 <= j < scanned(p, m).len() && scanned(p, m)[j] == x;
        assert(scanned(s, m)[j] == x);
    } else {
        assert(scanned(s, m).last() == x);
    }
}

/// In a canonical string no two letters stand for the same mark, and every
/// letter stands for one of the five marks.
pub proof fn lemma_canonical_distinct(t: Seq<char>)
    requires
        is_canonical(t),
    ensures
        forall|i: int, j: int|
            0 <= i < j < t.len() ==> mark_key(#[trigger] t[i]) != mark_key(#[trigger] t[j]),
        forall|i: int| 0 <= i < t.len() ==> marks().contains(#[trigger] mark_key(t[i])),
{
    let e = choose|i: int| 0 <= i < t.len() && #[trigger] mark_key(t[i]) == mark_key(EMUTRAMP);
    let m = choose|i: int| 0 <= i < t.len() && #[trigger] mark_key(t[i]) == mark_key(MPROTECT);
    let p = choose|i: int| 0 <= i < t.len() && #[trigger] mark_key(t[i]) == mark_key(PAGEEXEC);
    let r = choose|i: int| 0 <= i < t.len() && #[trigger] mark_key(t[i]) == mark_key(RANDMMAP);
    let s = choose|i: int| 0 <= i < t.len() && #[trigger] mark_key(t[i]) == mark_key(SEGMEXEC);
    assert(e != m && e != p && e != r && e != s && m != p && m != r && m != s && p != r && p != s
        && r != s);
}

/// With every mark kept, a canonical string is reconciled to itself, and is
/// found clean.
pub proof fn lemma_keep_canonical_unchanged(s: Seq<char>, m: Map<u32, Delta>)
    requires
        keeps_all(m),
        is_canonical(s),
    ensures
        reconciled(s, m) == s,
        clean(s, m),
{
    lemma_scanned_marks(s, m);
    lemma_scanned_clean(s, m);
    assert(scanned(s, m) =~= s);
    assert(reconciled(s, m) =~= s);
}

/// Reconciling is stable: what one reconciliation gives, a second one that
/// keeps every mark gives back unchanged, and finds clean.
pub proof fn lemma_reconciled_stable(s: Seq<char>, m: Map<u32, Delta>, keep: Map<u32, Delta>)
    requires
        is_directive_set(m),
        keeps_all(keep),
    ensures
        reconciled(reconciled(s, m), keep) == reconciled(s, m),
        clean(reconciled(s, m), keep),
{
    lemma_reconciled_canonical(s, m);
    lemma_keep_canonical_unchanged(reconciled(s, m), keep);
}

/// A change applied a second time changes nothing more.
pub proof fn lemma_applied_twice(d: Delta, c: char)
    ensures
        d.applied(d.applied(c)) == d.applied(c),
{
}

/// Reconciling is idempotent: what one reconciliation gives, a second one
/// with the same directive set gives back unchanged, and finds clean.
pub proof fn lemma_reconciled_idempotent(s: Seq<char>, m: Map<u32, Delta>)
    requires
        is_directive_set(m),
    ensures
        reconciled(reconciled(s, m), m) == reconciled(s, m),
        clean(reconciled(s, m), m),
{
    let out = reconciled(s, m);
    lemma_reconciled_canonical(s, m);
    lemma_canonical_distinct(out);
    lemma_scanned_marks(out, m);
    lemma_scanned_clean(out, m);
    lemma_directive_decides(s, m, EMUTRAMP);
    lemma_directive_decides(s, m, MPROTECT);
    lemma_directive_decides(s, m, PAGEEXEC);
    lemma_directive_decides(s, m, RANDMMAP);
    lemma_directive_decides(s, m, SEGMEXEC);
    assert forall|j: int| 0 <= j < 5 implies m[mark_key(out[j])].applied(out[j]) == out[j] by {
        let k = mark_key(out[j]);
        assert(marks().contains(k));
        let y = if k == mark_key(EMUTRAMP) {
            EMUTRAMP
        } else if k == mark_key(MPROTECT) {
            MPROTECT
        } else if k == mark_key(PAGEEXEC) {
            PAGEEXEC
        } else if k == mark_key(RANDMMAP) {
            RANDMMAP
        } else {
            SEGMEXEC
        };
        assert(out[j] == resolved(s, m, y));
        if seen(s, k) {
            lemma_applied_twice(m[k], s[first_of(s, k)]);
        } else {
            lemma_applied_twice(m[k], y);
        }
    }
    assert(scanned(out, m) =~= out);
    assert(reconciled(out, m) =~= out);
}

/// The reconciled string holds for each mark exactly the letter that the
/// mark's change decides: the upper-case letter when the mark is enabled,
/// the lower-case letter when it is disabled, and when it is kept the first
/// letter that stood for it, or the upper-case letter where none did.
pub proof fn lemma_directive_decides(s: Seq<char>, m: Map<u32, Delta>, mark: char)
    requires
        is_directive_set(m),
        is_mark_letter(mark),
    ensures
        reconciled(s, m).contains(resolved(s, m, mark)),
        forall|j: int|
            0 <= j < 5 && mark_key(#[trigger] reconciled(s, m)[j]) == mark_key(mark)
                ==> reconciled(s, m)[j] == resolved(s, m, mark),
        m[mark_key(mark)] == Delta::Enable ==> resolved(s, m, mark) == mark,
        m[mark_key(mark)] == Delta::Disable ==> resolved(s, m, mark) == lower(mark),
        m[mark_key(mark)] == Delta::Keep && seen(s, mark_key(mark)) ==> resolved(s, m, mark)
            == s[first_of(s, mark_key(mark))],
        m[mark_key(mark)] == Delta::Keep && !seen(s, mark_key(mark)) ==> resolved(s, m, mark)
            == mark,
{
    let k = mark_key(mark);
    let out = reconciled(s, m);
    let x = resolved(s, m, mark);
    assert(m.contains_key(k));
    lemma_reconciled_canonical(s, m);
    lemma_canonical_distinct(out);
    if seen(s, k) {
        lemma_first_occurrence(s, k);
        let i = first_of(s, k);
        lemma_honored_in_scanned(s, m, i);
        let j = choose|j: int| 0 <= j < scanned(s, m).len() && scanned(s, m)[j] == x;
        assert(out[j] == x);
        lemma_applied_keeps_mark(m[k], s[i]);
    } else {
        lemma_default_in_reconciled(s, m, mark);
        lemma_applied_keeps_mark(m[k], mark);
    }
    assert(out.contains(x));
    assert(mark_key(x) == k);
    let w = choose|w: int| 0 <= w < out.len() && out[w] == x;
    assert forall|j: int| 0 <= j < 5 && mark_key(#[trigger] out[j]) == k implies out[j] == x by {
        if j != w {
            assert(mark_key(out[j]) != mark_key(out[w]));
        }
    }
}

/// What is appended for a missing mark stands in the reconciled string.
pub proof fn lemma_default_in_reconciled(s: Seq<char>, m: Map<u32, Delta>, mark: char)
    requires
        is_mark_letter(mark),
        m.contains_key(mark_key(mark)),
        !seen(s, mark_key(mark)),
    ensures
        reconciled(s, m).contains(m[mark_key(mark)].applied(mark)),
{
    let x = m[mark_key(mark)].applied(mark);
    let a = scanned(s, m);
    let b = a + defaulted(s, m, EMUTRAMP);
    let c = b + defaulted(s, m, MPROTECT);
    let d = c + defaulted(s, m, PAGEEXEC);
    let e = d + defaulted(s, m, RANDMMAP);
    let f = e + defaulted(s, m, SEGMEXEC);
    assert(f == reconciled(s, m));
    if mark == EMUTRAMP {
        assert(f[a.len() as int] == x);
    } else if mark == MPROTECT {
        assert(f[b.len() as int] == x);
    } else if mark == PAGEEXEC {
        assert(f[c.len() as int] == x);
    } else if mark == RANDMMAP {
        assert(f[d.len() as int] == x);
    } else {
        assert(f[e.len() as int] == x);
    }
}

/// A letter that repeats the mark of an earlier letter is not taken over,
/// and the string is not clean.
pub proof fn lemma_repeated_mark(s: Seq<char>, m: Map<u32, Delta>, i: int, j: int)
    requires
        0 <= i < j < s.len(),
        mark_key(s[i]) == mark_key(s[j]),
    ensures
        !honored(s, m, j),
        !clean(s, m),
{
    assert(mark_key(s.take(j)[i]) == mark_key(s[j]));
    if clean(s, m) {
        assert(honored(s, m, j));
    }
}

/// A letter that stands for none of the marks is not taken over, and the
/// string is not clean.
pub proof fn lemma_unknown_letter(s: Seq<char>, m: Map<u32, Delta>, i: int)
    requires
        0 <= i < s.len(),
        !m.contains_key(mark_key(s[i])),
    ensures
        !honored(s, m, i),
        !clean(s, m),
{
    if clean(s, m) {
        assert(honored(s, m, i));
    }
}

/// The empty string is clean, and is reconciled to the five marks in
/// ascending order of their letters, each with its change applied.
pub proof fn lemma_empty_defaults(m: Map<u32, Delta>)
    requires
        is_directive_set(m),
    ensures
        clean(Seq::<char>::empty(), m),
        reconciled(Seq::<char>::empty(), m) == seq![
            m[mark_key(EMUTRAMP)].applied(EMUTRAMP),
            m[mark_key(MPROTECT)].applied(MPROTECT),
            m[mark_key(PAGEEXEC)].applied(PAGEEXEC),
            m[mark_key(RANDMMAP)].applied(RANDMMAP),
            m[mark_key(SEGMEXEC)].applied(SEGMEXEC),
        ],
{
    let s = Seq::<char>::empty();
    assert(m.contains_key(mark_key(EMUTRAMP)));
    assert(m.contains_key(mark_key(MPROTECT)));
    assert(m.contains_key(mark_key(PAGEEXEC)));
    assert(m.contains_key(mark_key(RANDMMAP)));
    assert(m.contains_key(mark_key(SEGMEXEC)));
    assert(reconciled(s, m) =~= seq![
        m[mark_key(EMUTRAMP)].applied(EMUTRAMP),
        m[mark_key(MPROTECT)].applied(MPROTECT),
        m[mark_key(PAGEEXEC)].applied(PAGEEXEC),
        m[mark_key(RANDMMAP)].applied(RANDMMAP),
        m[mark_key(SEGMEXEC)].applied(SEGMEXEC),
    ]);
}

} // verus!
