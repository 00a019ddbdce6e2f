//! Reconciling a stored mark string with the changes that are asked for.
//!
//! The stored string may be damaged: letters that stand for no mark, marks
//! that occur twice, marks that are missing. The result holds each mark once.

use crate::delta::Delta;
use crate::marks::{
    is_directive_set, key_of, mark_key, Cli, EMUTRAMP, MPROTECT, PAGEEXEC, RANDMMAP, SEGMEXEC,
};
use std::collections::BTreeMap;
use vstd::prelude::*;

verus! {

/// Whether some letter of `s` stands for the mark with key `k`.
pub open spec fn seen(s: Seq<char>, k: u32) -> bool {
    exists|i: int| 0 <= i < s.len() && #[trigger] mark_key(s[i]) == k
}

/// Whether the letter at `i` is taken over: it stands for a mark of `m`, and
/// no letter before it stands for the same mark.
pub open spec fn honored(s: Seq<char>, m: Map<u32, Delta>, i: int) -> bool {
    m.contains_key(mark_key(s[i])) && !seen(s.take(i), mark_key(s[i]))
}

/// Whether every letter of `s` is taken over: none is unknown, none repeats
/// a mark.
pub open spec fn clean(s: Seq<char>, m: Map<u32, Delta>) -> bool {
    forall|i: int| 0 <= i < s.len() ==> #[trigger] honored(s, m, i)
}

/// The letters of `s` that are taken over, in their order, each with the
/// change for its mark applied.
pub open spec fn scanned(s: Seq<char>, m: Map<u32, Delta>) -> Seq<char>
    decreases s.len(),
{
    if s.len() == 0 {
        Seq::empty()
    } else {
        let before = scanned(s.drop_last(), m);
        if honored(s, m, s.len() - 1) {
            before.push(m[mark_key(s.last())].applied(s.last()))
        } else {
            before
        }
    }
}

/// What is appended for `mark`: nothing if `s` has a letter for it, else the
/// mark's own letter with its change applied.
pub open spec fn defaulted(s: Seq<char>, m: Map<u32, Delta>, mark: char) -> Seq<char> {
    if m.contains_key(mark_key(mark)) && !seen(s, mark_key(mark)) {
        seq![m[mark_key(mark)].applied(mark)]
    } else {
        Seq::empty()
    }
}

/// The reconciled string: the letters taken over from `s`, then the missing
/// marks in ascending order of their letters.
pub open spec fn reconciled(s: Seq<char>, m: Map<u32, Delta>) -> Seq<char> {
    scanned(s, m) + defaulted(s, m, EMUTRAMP) + defaulted(s, m, MPROTECT) + defaulted(
        s,
        m,
        PAGEEXEC,
    ) + defaulted(s, m, RANDMMAP) + defaulted(s, m, SEGMEXEC)
}

/// A canonical mark string: five letters, one for each mark.
pub open spec fn is_canonical(t: Seq<char>) -> bool {
    &&& t.len() == 5
    &&& seen(t, mark_key(EMUTRAMP))
    &&& seen(t, mark_key(MPROTECT))
    &&& seen(t, mark_key(PAGEEXEC))
    &&& seen(t, mark_key(RANDMMAP))
    &&& seen(t, mark_key(SEGMEXEC))
}

/// The marks of `m` that no letter of `s` stands for, each with its change.
pub open spec fn unmatched(s: Seq<char>, m: Map<u32, Delta>) -> Map<u32, Delta> {
    Map::new(|k: u32| m.contains_key(k) && !seen(s, k), |k: u32| m[k])
}

/// A change never moves a letter to another mark.
pub proof fn lemma_applied_keeps_mark(d: Delta, c: char)
    ensures
        mark_key(d.applied(c)) == mark_key(c),
{
}

/// A letter added at the end adds its mark to those seen, and no other.
pub proof fn lemma_seen_push(s: Seq<char>, c: char, k: u32)
    ensures
        seen(s.push(c), k) <==> seen(s, k) || mark_key(c) == k,
{
    let t = s.push(c);
    if seen(s, k) {
        let i = choose|i: int| 0 <= i < s.len() && #[trigger] mark_key(s[i]) == k;
        assert(mark_key(t[i]) == k);
    }
    if mark_key(c) == k {
        assert(mark_key(t[s.len() as int]) == k);
    }
    if seen(t, k) {
        let i = choose|i: int| 0 <= i < t.len() && #[trigger] mark_key(t[i]) == k;
        if i < s.len() {
            assert(mark_key(s[i]) == k);
        }
    }
}

/// The marks seen in two strings put together are those seen in either.
pub proof fn lemma_seen_concat(a: Seq<char>, b: Seq<char>, k: u32)
    ensures
        seen(a + b, k) <==> seen(a, k) || seen(b, k),
{
    let t = a + b;
    if seen(a, k) {
        let i = choose|i: int| 0 <= i < a.len() && #[trigger] mark_key(a[i]) == k;
        assert(mark_key(t[i]) == k);
    }
    if seen(b, k) {
        let i = choose|i: int| 0 <= i < b.len() && #[trigger] mark_key(b[i]) == k;
        assert(mark_key(t[a.len() + i]) == k);
    }
    if seen(t, k) {
        let i = choose|i: int| 0 <= i < t.len() && #[trigger] mark_key(t[i]) == k;
        if i < a.len() {
            assert(mark_key(a[i]) == k);
        } else {
            assert(mark_key(b[i - a.len()]) == k);
        }
    }
}

/// Whether a letter is taken over depends only on the letters up to it.
pub proof fn lemma_honored_prefix(s: Seq<char>, m: Map<u32, Delta>, n: int, i: int)
    requires
        0 <= i < n <= s.len(),
    ensures
        honored(s.take(n), m, i) == honored(s, m, i),
{
    assert(s.take(n).take(i) =~= s.take(i));
}

/// A string is clean exactly if it is clean without its last letter and the
/// last letter is taken over.
pub proof fn lemma_clean_step(s: Seq<char>, m: Map<u32, Delta>)
    requires
        s.len() > 0,
    ensures
        clean(s, m) <==> clean(s.drop_last(), m) && honored(s, m, s.len() - 1),
{
    let p = s.drop_last();
    assert(p =~= s.take(s.len() - 1));
    assert forall|i: int| 0 <= i < p.len() implies honored(p, m, i) == honored(s, m, i) by {
        lemma_honored_prefix(s, m, s.len() - 1, i);
    }
    if clean(s, m) {
        assert forall|i: int| 0 <= i < p.len() implies #[trigger] honored(p, m, i) by {
            assert(honored(s, m, i));
        }
    }
    if clean(p, m) && honored(s, m, s.len() - 1) {
        assert forall|i: int| 0 <= i < s.len() implies #[trigger] honored(s, m, i) by {
            if i < p.len() {
                assert(honored(p, m, i));
            }
        }
    }
}

/// How many letters `mark` contributes to what is taken over from `s`.
pub open spec fn tally(s: Seq<char>, mark: char) -> nat {
    if seen(s, mark_key(mark)) {
        1
    } else {
        0
    }
}

/// What is taken over from `s` has a letter for exactly the marks that `s`
/// has a letter for, and one letter for each of them.
pub proof fn lemma_scanned_marks(s: Seq<char>, m: Map<u32, Delta>)
    requires
        is_directive_set(m),
    ensures
        forall|k: u32| #[trigger]
            seen(scanned(s, m), k) <==> m.contains_key(k) && seen(s, k),
        scanned(s, m).len() == tally(s, EMUTRAMP) + tally(s, MPROTECT) + tally(s, PAGEEXEC)
            + tally(s, RANDMMAP) + tally(s, SEGMEXEC),
    decreases s.len(),
{
    if s.len() > 0 {
        let p = s.drop_last();
        let c = s.last();
        let k0 = mark_key(c);
        lemma_scanned_marks(p, m);
        assert(s =~= p.push(c));
        assert(p =~= s.take(s.len() - 1));
        lemma_seen_push(p, c, mark_key(EMUTRAMP));
        lemma_seen_push(p, c, mark_key(MPROTECT));
        lemma_seen_push(p, c, mark_key(PAGEEXEC));
        lemma_seen_push(p, c, mark_key(RANDMMAP));
        lemma_seen_push(p, c, mark_key(SEGMEXEC));
        assert forall|k: u32| #[trigger]
            seen(scanned(s, m), k) <==> m.contains_key(k) && seen(s, k) by {
            lemma_seen_push(p, c, k);
            if honored(s, m, s.len() - 1) {
                let x = m[k0].applied(c);
                lemma_applied_keeps_mark(m[k0], c);
                lemma_seen_push(scanned(p, m), x, k);
            }
        }
    }
}

/// The reconciled string is canonical: five letters, one for each mark.
pub proof fn lemma_reconciled_canonical(s: Seq<char>, m: Map<u32, Delta>)
    requires
        is_directive_set(m),
    ensures
        is_canonical(reconciled(s, m)),
{
    lemma_scanned_marks(s, m);
    let a = scanned(s, m);
    let b = a + defaulted(s, m, EMUTRAMP);
    let c = b + defaulted(s, m, MPROTECT);
    let d = c + defaulted(s, m, PAGEEXEC);
    let e = d + defaulted(s, m, RANDMMAP);
    let f = e + defaulted(s, m, SEGMEXEC);
    assert(f == reconciled(s, m));
    lemma_default_seen(s, m, EMUTRAMP);
    lemma_default_seen(s, m, MPROTECT);
    lemma_default_seen(s, m, PAGEEXEC);
    lemma_default_seen(s, m, RANDMMAP);
    lemma_default_seen(s, m, SEGMEXEC);
    assert forall|k: u32| seen(f, k) <==> seen(a, k) || seen(defaulted(s, m, EMUTRAMP), k) || seen(
        defaulted(s, m, MPROTECT),
        k,
    ) || seen(defaulted(s, m, PAGEEXEC), k) || seen(defaulted(s, m, RANDMMAP), k) || seen(
        defaulted(s, m, SEGMEXEC),
        k,
    ) by {
        lemma_seen_concat(a, defaulted(s, m, EMUTRAMP), k);
        lemma_seen_concat(b, defaulted(s, m, MPROTECT), k);
        lemma_seen_concat(c, defaulted(s, m, PAGEEXEC), k);
        lemma_seen_concat(d, defaulted(s, m, RANDMMAP), k);
        lemma_seen_concat(e, defaulted(s, m, SEGMEXEC), k);
    }
}

/// A mark of the directive set has a letter in `s`, or what is appended for
/// it stands for it.
pub proof fn lemma_default_seen(s: Seq<char>, m: Map<u32, Delta>, mark: char)
    requires
        m.contains_key(mark_key(mark)),
    ensures
        seen(s, mark_key(mark)) || seen(defaulted(s, m, mark), mark_key(mark)),
{
    if !seen(s, mark_key(mark)) {
        let t = defaulted(s, m, mark);
        lemma_applied_keeps_mark(m[mark_key(mark)], mark);
        assert(mark_key(t[0]) == mark_key(mark));
    }
}

/// Std's `String::push`: as documented, it appends the character to the end
/// of the string.
pub assume_specification[ String::push ](s: &mut String, c: char)
    ensures
        final(s)@ == old(s)@.push(c),
;

/// Appends the letter of `mark`, with its change applied, if the mark is
/// still among those `left`.
fn push_default(out: &mut String, left: &BTreeMap<u32, Delta>, mark: char)
    ensures
        left@.contains_key(mark_key(mark)) ==> final(out)@ == old(out)@.push(
            left@[mark_key(mark)].applied(mark),
        ),
        !left@.contains_key(mark_key(mark)) ==> final(out)@ == old(out)@,
{
    let k = key_of(mark);
    match left.get(&k) {
        Some(d) => {
            out.push(d.apply(mark));
        },
        None => {},
    }
}

/// Reconciles the stored mark string `current` with the directive set
/// `delta`.
///
/// Each letter of `current` that stands for a mark not met before is taken
/// over with the mark's change applied; every other letter is dropped. The
/// marks that are missing then follow in ascending order of their letters,
/// each as its own letter with its change applied. The flag says whether
/// every letter of `current` was taken over.
pub fn reconcile(current: &str, delta: BTreeMap<u32, Delta>) -> (r: (String, bool))
    requires
        is_directive_set(delta@),
    ensures
        r.0@ == reconciled(current@, delta@),
        r.1 == clean(current@, delta@),
        is_canonical(r.0@),
{
    let ghost s = current@;
    let ghost m = delta@;
    let mut left = delta;
    let mut out = String::new();
    let mut valid = true;
    assert(s.take(0) =~= Seq::<char>::empty());
    assert(left@ =~= unmatched(s.take(0), m));
    for c in it: current.chars()
        invariant
            s == current@,
            it.seq() == s,
            left@ == unmatched(s.take(it.index() as int), m),
            out@ == scanned(s.take(it.index() as int), m),
            valid == clean(s.take(it.index() as int), m),
    {
        let k = key_of(c);
        proof {
            let i = it.index() as int;
            let p = s.take(i);
            let q = s.take(i + 1);
            assert(q.drop_last() =~= p);
            assert(q.take(i) =~= p);
            assert(q =~= p.push(c));
            lemma_clean_step(q, m);
            assert forall|j: u32| seen(q, j) <==> seen(p, j) || j == k by {
                lemma_seen_push(p, c, j);
            }
            assert(unmatched(q, m) =~= left@.remove(k));
        }
        match left.remove(&k) {
            Some(d) => {
                out.push(d.apply(c));
            },
            None => {
                valid = false;
            },
        }
    }
    assert(s.take(s.len() as int) =~= s);
    push_default(&mut out, &left, EMUTRAMP);
    push_default(&mut out, &left, MPROTECT);
    push_default(&mut out, &left, PAGEEXEC);
    push_default(&mut out, &left, RANDMMAP);
    push_default(&mut out, &left, SEGMEXEC);
    proof {
        assert(out@ =~= reconciled(s, m));
        lemma_reconciled_canonical(s, m);
    }
    (out, valid)
}

/// Reconciles the stored mark string `current` with what the command line
/// `cli` asks for.
pub fn remark(cli: &Cli, current: &str) -> (r: (String, bool))
    ensures
        r.0@ == reconciled(current@, cli.directives()),
        r.1 == clean(current@, cli.directives()),
        is_canonical(r.0@),
{
    reconcile(current, cli.get_delta())
}

} // verus!
