//! Folds of a buffer: ranges of lines that belong to one card type.
//!
//! A fold is a triple `(start, end, keyword)` of zero-based, inclusive line
//! indices with `start < end`. The folds of a buffer are computed in one
//! forward pass over its classified lines: a run of cards of one type becomes
//! a fold, comment lines inside the run are absorbed when a card of the same
//! type follows them, and any other line ends the run.
use vstd::prelude::*;

use crate::card::keyword::{classify, kind_of, Keyword, LineKind};

verus! {

/// The classification of a line given by its characters.
pub open spec fn line_kind(line: Seq<char>) -> LineKind {
    kind_of(vstd::utf8::encode_utf8(line))
}

/// The first index from `p` on that holds a card line, or `c.len()`.
pub open spec fn next_card(c: Seq<LineKind>, p: int) -> int
    decreases c.len() - p,
{
    if p >= c.len() {
        c.len() as int
    } else if c[p] is Card {
        p
    } else {
        next_card(c, p + 1)
    }
}

/// The last card line of the run of type `k` whose latest card line so far
/// is `last`, when the scan goes on at `cur`. Comment lines are passed over
/// without becoming the last line; anything but a card of type `k` or a
/// comment ends the run.
pub open spec fn run_end(c: Seq<LineKind>, k: Keyword, last: int, cur: int) -> int
    decreases c.len() - cur,
{
    if cur < 0 || cur >= c.len() {
        last
    } else {
        match c[cur] {
            LineKind::Card(j) => if j == k {
                run_end(c, k, cur, cur + 1)
            } else {
                last
            },
            LineKind::Comment => run_end(c, k, last, cur + 1),
            LineKind::Unrecognized => last,
        }
    }
}

/// The folds of the lines `c`, scanning from index `p`: the next card line
/// opens a run, the run closes at its last card line, and the scan resumes
/// right after it. Runs of a single line form no fold.
pub open spec fn folds_from(c: Seq<LineKind>, p: int) -> Seq<(int, int, Keyword)>
    decreases c.len() - p,
    via folds_from_decreases
{
    let s = next_card(c, p);
    if p < 0 || s >= c.len() {
        seq![]
    } else {
        let k = c[s]->Card_0;
        let e = run_end(c, k, s, s + 1);
        if e > s {
            seq![(s, e, k)] + folds_from(c, e + 1)
        } else {
            folds_from(c, e + 1)
        }
    }
}

#[via_fn]
proof fn folds_from_decreases(c: Seq<LineKind>, p: int) {
    let s = next_card(c, p);
    if 0 <= p && s < c.len() {
        lemma_next_card(c, p);
        lemma_run_end(c, c[s]->Card_0, s, s + 1);
    }
}

/// The folds of a whole sequence of classified lines.
pub open spec fn fold_ranges(c: Seq<LineKind>) -> Seq<(int, int, Keyword)> {
    folds_from(c, 0)
}

proof fn lemma_next_card(c: Seq<LineKind>, p: int)
    requires
        0 <= p,
    ensures
        p <= next_card(c, p) <= c.len() || (p > c.len() && next_card(c, p) == c.len()),
        next_card(c, p) < c.len() ==> c[next_card(c, p)] is Card,
        forall|t: int| p <= t < next_card(c, p) ==> !(c[t] is Card),
    decreases c.len() - p,
{
    if p < c.len() && !(c[p] is Card) {
        lemma_next_card(c, p + 1);
    }
}

/// Whether every line of `c` in `[a, b]` is a card of type `k` or a comment.
pub open spec fn run_body(c: Seq<LineKind>, k: Keyword, a: int, b: int) -> bool {
    forall|t: int| a <= t <= b ==> (#[trigger] c[t] == LineKind::Card(k) || c[t] is Comment)
}

proof fn lemma_run_end(c: Seq<LineKind>, k: Keyword, last: int, cur: int)
    requires
        0 <= last < cur <= c.len(),
        c[last] == LineKind::Card(k),
        run_body(c, k, last, cur - 1),
    ensures
        last <= run_end(c, k, last, cur) < c.len(),
        c[run_end(c, k, last, cur)] == LineKind::Card(k),
        run_body(c, k, last, run_end(c, k, last, cur)),
    decreases c.len() - cur,
{
    if cur < c.len() {
        match c[cur] {
            LineKind::Card(j) => if j == k {
                lemma_run_end(c, k, cur, cur + 1);
            },
            LineKind::Comment => lemma_run_end(c, k, last, cur + 1),
            LineKind::Unrecognized => {},
        }
    }
}

/// Whether `f` is a well-formed fold of `c` at or after index `p`: it spans
/// at least two lines, opens and closes on a card of its type, and holds only
/// such cards and comments.
pub open spec fn fold_of(c: Seq<LineKind>, p: int, f: (int, int, Keyword)) -> bool {
    &&& p <= f.0 < f.1 < c.len()
    &&& c[f.0] == LineKind::Card(f.2)
    &&& c[f.1] == LineKind::Card(f.2)
    &&& run_body(c, f.2, f.0, f.1)
}

/// Whether the folds in `v` are in increasing order and pairwise disjoint.
pub open spec fn disjoint_in_order(v: Seq<(int, int, Keyword)>) -> bool {
    forall|i: int, j: int| 0 <= i < j < v.len() ==> #[trigger] v[i].1 < #[trigger] v[j].0
}

proof fn lemma_folds_shape(c: Seq<LineKind>, p: int)
    requires
        0 <= p,
    ensures
        forall|i: int| 0 <= i < folds_from(c, p).len() ==> fold_of(c, p, #[trigger] folds_from(c, p)[i]),
        disjoint_in_order(folds_from(c, p)),
    decreases c.len() - p,
{
    let s = next_card(c, p);
    lemma_next_card(c, p);
    if s < c.len() {
        let k = c[s]->Card_0;
        let e = run_end(c, k, s, s + 1);
        lemma_run_end(c, k, s, s + 1);
        lemma_folds_shape(c, e + 1);
        let rest = folds_from(c, e + 1);
        if e > s {
            let out = folds_from(c, p);
            assert(out == seq![(s, e, k)] + rest);
            assert forall|i: int| 0 <= i < out.len() implies fold_of(c, p, #[trigger] out[i]) by {
                if i > 0 {
                    assert(out[i] == rest[i - 1]);
                    assert(fold_of(c, e + 1, rest[i - 1]));
                }
            }
            assert forall|i: int, j: int| 0 <= i < j < out.len() implies #[trigger] out[i].1 < #[trigger] out[j].0 by {
                assert(out[j] == rest[j - 1]);
                assert(fold_of(c, e + 1, rest[j - 1]));
                if i > 0 {
                    assert(out[i] == rest[i - 1]);
                }
            }
        } else {
            assert forall|i: int| 0 <= i < rest.len() implies fold_of(c, p, #[trigger] rest[i]) by {
                assert(fold_of(c, e + 1, rest[i]));
            }
        }
    }
}

/// Why an operation on a [`FoldList`] failed.
#[derive(Copy, Clone, PartialEq, Eq, Debug, Structural)]
pub enum FoldError {
    /// A fold with the same start and end is already in the list.
    Duplicate,
    /// No fold with the given start and end is in the list.
    NotFound,
}

/// The order of folds by `(start, end)`, lexicographically.
pub open spec fn key_lt(a: (u64, u64, Keyword), b: (u64, u64, Keyword)) -> bool {
    a.0 < b.0 || (a.0 == b.0 && a.1 < b.1)
}

/// Whether the folds are strictly increasing by `(start, end)`; in
/// particular no two share a key.
pub open spec fn sorted_by_start(v: Seq<(u64, u64, Keyword)>) -> bool {
    forall|i: int, j: int| 0 <= i < j < v.len() ==> key_lt(#[trigger] v[i], #[trigger] v[j])
}

/// Whether a fold with key `(start, end)` is in `v`.
pub open spec fn has_range(v: Seq<(u64, u64, Keyword)>, start: u64, end: u64) -> bool {
    exists|i: int| 0 <= i < v.len() && (#[trigger] v[i]).0 == start && v[i].1 == end
}

/// The folds with their line indices as mathematical integers.
pub open spec fn as_ranges(v: Seq<(u64, u64, Keyword)>) -> Seq<(int, int, Keyword)> {
    v.map_values(|f: (u64, u64, Keyword)| (f.0 as int, f.1 as int, f.2))
}

/// The folds of a buffer, ordered by `(start, end)`.
pub struct FoldList {
    folds: Vec<(u64, u64, Keyword)>,
}

impl View for FoldList {
    type V = Seq<(u64, u64, Keyword)>;

    closed spec fn view(&self) -> Seq<(u64, u64, Keyword)> {
        self.folds@
    }
}

impl Default for FoldList {
    fn default() -> (r: FoldList)
        ensures
            r.wf(),
            r@ == Seq::<(u64, u64, Keyword)>::empty(),
    {
        FoldList::new()
    }
}

impl FoldList {
    /// The list is ordered by `(start, end)`, holds each key once, and each
    /// of its folds spans at least two lines.
    pub open spec fn wf(&self) -> bool {
        &&& sorted_by_start(self@)
        &&& forall|i: int| 0 <= i < self@.len() ==> (#[trigger] self@[i]).0 < self@[i].1
    }

    /// Create an empty FoldList.
    pub fn new() -> (r: FoldList)
        ensures
            r.wf(),
            r@ == Seq::<(u64, u64, Keyword)>::empty(),
    {
        FoldList { folds: Vec::new() }
    }

    /// Remove all folds.
    pub fn clear(&mut self)
        ensures
            final(self).wf(),
            final(self)@ == Seq::<(u64, u64, Keyword)>::empty(),
    {
        self.folds.clear();
    }

    /// Insert the fold `(start, end)` of type `kw` at its place in the order.
    /// Fails, and leaves the list as it was, if a fold with that start and
    /// end is already there; it has to be removed first.
    fn insert(&mut self, start: u64, end: u64, kw: Keyword) -> (r: Result<(), FoldError>)
        requires
            old(self).wf(),
            start < end,
        ensures
            final(self).wf(),
            has_range(old(self)@, start, end) ==> r == Err::<(), FoldError>(FoldError::Duplicate)
                && final(self)@ == old(self)@,
            !has_range(old(self)@, start, end) ==> r is Ok && exists|pos: int|
                0 <= pos <= old(self)@.len() && final(self)@ == old(self)@.insert(pos, (start, end, kw)),
    {
        let item = (start, end, kw);
        let n = self.folds.len();
        let mut i: usize = 0;
        while i < n
            invariant
                n == self.folds@.len(),
                item == (start, end, kw),
                self.folds@ == old(self).folds@,
                sorted_by_start(self.folds@),
                i <= n,
                forall|j: int| 0 <= j < i ==> key_lt(#[trigger] self.folds@[j], item),
            ensures
                i <= n,
                forall|j: int| 0 <= j < i ==> key_lt(#[trigger] self.folds@[j], item),
                i < n ==> !key_lt(self.folds@[i as int], item),
            decreases n - i,
        {
            let f = self.folds[i];
            if !(f.0 < start || (f.0 == start && f.1 < end)) {
                break;
            }
            i = i + 1;
        }
        if i < n && self.folds[i].0 == start && self.folds[i].1 == end {
            return Err(FoldError::Duplicate);
        }
        proof {
            let v = self.folds@;
            assert forall|j: int| i <= j < n implies key_lt(item, #[trigger] v[j]) by {
                if j > i {
                    assert(key_lt(v[i as int], v[j]));
                }
            }
            assert(!has_range(v, start, end)) by {
                if has_range(v, start, end) {
                    let j = choose|j: int| 0 <= j < v.len() && (#[trigger] v[j]).0 == start && v[j].1 == end;
                    if j < i {
                        assert(key_lt(v[j], item));
                    } else {
                        assert(key_lt(item, v[j]));
                    }
                }
            }
        }
        self.folds.insert(i, item);
        proof {
            let v = old(self).folds@;
            let w = self.folds@;
            assert forall|a: int, b: int| 0 <= a < b < w.len() implies key_lt(#[trigger] w[a], #[trigger] w[b]) by {
                if b < i {
                    assert(key_lt(v[a], v[b]));
                } else if a > i {
                    assert(key_lt(v[a - 1], v[b - 1]));
                } else if a == i {
                    assert(key_lt(item, v[b - 1]));
                } else if b == i {
                    assert(key_lt(v[a], item));
                } else {
                    assert(key_lt(v[a], v[b - 1]));
                }
            }
        }
        Ok(())
    }

    /// Insert the fold `(start, end)` of type `kw` when it spans at least two
    /// lines; a shorter one is passed over without error. Fails if a fold
    /// with that start and end is already in the list.
    pub fn checked_insert(&mut self, start: u64, end: u64, kw: Keyword) -> (r: Result<(), FoldError>)
        requires
            old(self).wf(),
        ensures
            final(self).wf(),
            start >= end ==> r is Ok && final(self)@ == old(self)@,
            start < end && has_range(old(self)@, start, end) ==> r == Err::<(), FoldError>(FoldError::Duplicate)
                && final(self)@ == old(self)@,
            start < end && !has_range(old(self)@, start, end) ==> r is Ok && exists|pos: int|
                0 <= pos <= old(self)@.len() && final(self)@ == old(self)@.insert(pos, (start, end, kw)),
    {
        if start < end {
            self.insert(start, end, kw)
        } else {
            Ok(())
        }
    }

    /// Remove the fold `(start, end)`. Fails, and leaves the list as it was,
    /// if no such fold is in the list.
    pub fn remove(&mut self, start: u64, end: u64) -> (r: Result<(), FoldError>)
        requires
            old(self).wf(),
        ensures
            final(self).wf(),
            !has_range(old(self)@, start, end) ==> r == Err::<(), FoldError>(FoldError::NotFound)
                && final(self)@ == old(self)@,
            has_range(old(self)@, start, end) ==> r is Ok && exists|i: int|
                0 <= i < old(self)@.len() && old(self)@[i].0 == start && old(self)@[i].1 == end
                && final(self)@ == old(self)@.remove(i),
    {
        let n = self.folds.len();
        let mut i: usize = 0;
        while i < n
            invariant
                n == self.folds@.len(),
                self.folds@ == old(self).folds@,
                old(self).wf(),
                i <= n,
                forall|j: int| 0 <= j < i ==> !((#[trigger] self.folds@[j]).0 == start && self.folds@[j].1 == end),
            decreases n - i,
        {
            if self.folds[i].0 == start && self.folds[i].1 == end {
                let ghost v = self.folds@;
                self.folds.remove(i);
                proof {
                    let w = self.folds@;
                    assert forall|a: int, b: int| 0 <= a < b < w.len() implies key_lt(#[trigger] w[a], #[trigger] w[b]) by {
                        if b < i {
                            assert(key_lt(v[a], v[b]));
                        } else if a >= i {
                            assert(key_lt(v[a + 1], v[b + 1]));
                        } else {
                            assert(key_lt(v[a], v[b + 1]));
                        }
                    }
                    assert forall|a: int| 0 <= a < w.len() implies (#[trigger] w[a]).0 < w[a].1 by {
                        if a >= i {
                            assert(w[a] == v[a + 1]);
                        }
                    }
                }
                return Ok(());
            }
            i = i + 1;
        }
        Err(FoldError::NotFound)
    }

    /// Append the folds of the classified lines `kinds` to an empty list.
    fn collect_folds(&mut self, kinds: &Vec<LineKind>)
        requires
            old(self)@.len() == 0,
        ensures
            final(self).wf(),
            as_ranges(final(self)@) == fold_ranges(kinds@),
    {
        let ghost c = kinds@;
        let n = kinds.len();
        let mut p: usize = 0;
        while p < n
            invariant
                c == kinds@,
                n == c.len(),
                p <= n,
                sorted_by_start(self.folds@),
                forall|i: int| 0 <= i < self.folds@.len() ==> (#[trigger] self.folds@[i]).0 < self.folds@[i].1 < p,
                as_ranges(self.folds@) + folds_from(c, p as int) == fold_ranges(c),
            decreases n - p,
        {
            proof {
                lemma_next_card(c, p as int);
            }
            let mut s: usize = p;
            let mut kw: Option<Keyword> = None;
            while s < n
                invariant_except_break
                    kw is None,
                invariant
                    c == kinds@,
                    n == c.len(),
                    p <= s <= n,
                    next_card(c, p as int) == next_card(c, s as int),
                ensures
                    p <= s <= n,
                    next_card(c, p as int) == next_card(c, s as int),
                    s < n ==> kw == Some(c[s as int]->Card_0) && c[s as int] is Card,
                    s >= n ==> kw is None,
                decreases n - s,
            {
                if let LineKind::Card(k) = kinds[s] {
                    kw = Some(k);
                    break;
                }
                s = s + 1;
            }
            match kw {
                None => {
                    assert(folds_from(c, p as int) == Seq::<(int, int, Keyword)>::empty());
                    assert(as_ranges(self.folds@) + folds_from(c, p as int) == as_ranges(self.folds@));
                    p = n;
                    assert(folds_from(c, p as int) == Seq::<(int, int, Keyword)>::empty());
                    assert(as_ranges(self.folds@) + folds_from(c, p as int) == as_ranges(self.folds@));
                },
                Some(k) => {
                    let mut last: usize = s;
                    let mut cur: usize = s + 1;
                    while cur < n
                        invariant
                            c == kinds@,
                            n == c.len(),
                            s <= last < cur <= n,
                            run_end(c, k, s as int, s as int + 1) == run_end(c, k, last as int, cur as int),
                        ensures
                            s <= last < cur <= n,
                            run_end(c, k, s as int, s as int + 1) == last,
                        decreases n - cur,
                    {
                        match kinds[cur] {
                            LineKind::Card(j) => {
                                if j == k {
                                    last = cur;
                                    cur = cur + 1;
                                } else {
                                    break;
                                }
                            },
                            LineKind::Comment => {
                                cur = cur + 1;
                            },
                            LineKind::Unrecognized => {
                                break;
                            },
                        }
                    }
                    let ghost before = self.folds@;
                    if s < last {
                        self.folds.push((s as u64, last as u64, k));
                        assert forall|a: int, b: int| 0 <= a < b < self.folds@.len() implies
                            key_lt(#[trigger] self.folds@[a], #[trigger] self.folds@[b]) by {
                            if b < before.len() {
                                assert(key_lt(before[a], before[b]));
                            } else {
                                assert(before[a].1 < p);
                            }
                        }
                        assert(as_ranges(self.folds@) == as_ranges(before) + seq![(s as int, last as int, k)]);
                    }
                    assert(folds_from(c, p as int) == if last > s {
                        seq![(s as int, last as int, k)] + folds_from(c, last as int + 1)
                    } else {
                        folds_from(c, last as int + 1)
                    });
                    p = last + 1;
                    assert(as_ranges(self.folds@) + folds_from(c, p as int) == fold_ranges(c));
                },
            }
        }
        assert(folds_from(c, p as int) == Seq::<(int, int, Keyword)>::empty());
        assert(as_ranges(self.folds@) + folds_from(c, p as int) == as_ranges(self.folds@));
    }

    /// Replace the contents of the list with the folds of `lines`.
    pub fn add_folds(&mut self, lines: &[&str]) -> (r: Result<(), FoldError>)
        ensures
            r is Ok,
            final(self).wf(),
            as_ranges(final(self)@) == fold_ranges(lines@.map_values(|l: &str| line_kind(l@))),
    {
        let mut kinds: Vec<LineKind> = Vec::new();
        let mut i: usize = 0;
        while i < lines.len()
            invariant
                i <= lines@.len(),
                kinds@ == lines@.take(i as int).map_values(|l: &str| line_kind(l@)),
            decreases lines@.len() - i,
        {
            kinds.push(classify(lines[i]));
            assert(lines@.take(i as int + 1) == lines@.take(i as int).push(lines@[i as int]));
            i = i + 1;
        }
        assert(lines@.take(lines@.len() as int) == lines@);
        self.clear();
        self.collect_folds(&kinds);
        Ok(())
    }

    /// Remove all folds, then add those of `lines`.
    pub fn recreate_all(&mut self, lines: &[String]) -> (r: Result<(), FoldError>)
        ensures
            r is Ok,
            final(self).wf(),
            as_ranges(final(self)@) == fold_ranges(lines@.map_values(|l: String| line_kind(l@))),
    {
        let mut kinds: Vec<LineKind> = Vec::new();
        let mut i: usize = 0;
        while i < lines.len()
            invariant
                i <= lines@.len(),
                kinds@ == lines@.take(i as int).map_values(|l: String| line_kind(l@)),
            decreases lines@.len() - i,
        {
            kinds.push(classify(lines[i].as_str()));
            assert(lines@.take(i as int + 1) == lines@.take(i as int).push(lines@[i as int]));
            i = i + 1;
        }
        assert(lines@.take(lines@.len() as int) == lines@);
        self.clear();
        self.collect_folds(&kinds);
        Ok(())
    }

    /// The folds, ordered by `(start, end)`, without giving up the list.
    pub fn as_slice(&self) -> (r: &[(u64, u64, Keyword)])
        ensures
            r@ == self@,
    {
        self.folds.as_slice()
    }

    /// The folds, ordered by `(start, end)`.
    pub fn into_vec(self) -> (r: Vec<(u64, u64, Keyword)>)
        ensures
            r@ == self@,
    {
        self.folds
    }
}

/// Whether some fold of `v` contains line `m`.
pub open spec fn covered(v: Seq<(int, int, Keyword)>, m: int) -> bool {
    exists|x: int| 0 <= x < v.len() && (#[trigger] v[x]).0 <= m <= v[x].1
}

/// The folds computed from one sequence of lines are pairwise disjoint:
/// each one ends before the next one starts.
pub proof fn lemma_folds_disjoint(c: Seq<LineKind>)
    ensures
        forall|i: int, j: int| 0 <= i < j < fold_ranges(c).len() ==>
            #[trigger] fold_ranges(c)[i].1 < #[trigger] fold_ranges(c)[j].0,
{
    lemma_folds_shape(c, 0);
}

/// Every fold in a well-formed list ends after it starts.
pub proof fn lemma_fold_span(l: &FoldList)
    requires
        l.wf(),
    ensures
        forall|i: int| 0 <= i < l@.len() ==> (#[trigger] l@[i]).0 < l@[i].1,
{
}

/// Every fold computed from a sequence of lines ends after it starts.
pub proof fn lemma_computed_fold_span(c: Seq<LineKind>)
    ensures
        forall|i: int| 0 <= i < fold_ranges(c).len() ==>
            (#[trigger] fold_ranges(c)[i]).0 < fold_ranges(c)[i].1,
{
    lemma_folds_shape(c, 0);
    assert forall|i: int| 0 <= i < fold_ranges(c).len() implies
        (#[trigger] fold_ranges(c)[i]).0 < fold_ranges(c)[i].1 by {
        assert(fold_of(c, 0, fold_ranges(c)[i]));
    }
}

/// Two lists rebuilt from the same lines hold the same folds, in the same
/// order, whatever they held before.
pub proof fn lemma_rebuild_deterministic(c: Seq<LineKind>, a: &FoldList, b: &FoldList)
    requires
        as_ranges(a@) == fold_ranges(c),
        as_ranges(b@) == fold_ranges(c),
    ensures
        a@ == b@,
{
    assert(a@.len() == as_ranges(a@).len());
    assert forall|i: int| 0 <= i < a@.len() implies a@[i] == b@[i] by {
        assert(as_ranges(a@)[i] == as_ranges(b@)[i]);
    }
    assert(a@ =~= b@);
}

/// The keys `(start, end)` of the folds of `v`.
pub open spec fn start_keys(v: Seq<(u64, u64, Keyword)>) -> Set<(u64, u64)> {
    Set::new(|k: (u64, u64)| exists|i: int| 0 <= i < v.len() && (#[trigger] v[i]).0 == k.0 && v[i].1 == k.1)
}

/// The keys `(end, start)` of the folds of `v`.
pub open spec fn end_keys(v: Seq<(u64, u64, Keyword)>) -> Set<(u64, u64)> {
    Set::new(|k: (u64, u64)| exists|i: int| 0 <= i < v.len() && (#[trigger] v[i]).1 == k.0 && v[i].0 == k.1)
}

/// The list seen by `(start, end)` and seen by `(end, start)` holds the same
/// folds, whatever inserts and removals built it; and each key belongs to one
/// fold only.
pub proof fn lemma_indices_in_sync(l: &FoldList)
    requires
        l.wf(),
    ensures
        forall|s: u64, e: u64| #[trigger] start_keys(l@).contains((s, e)) <==> end_keys(l@).contains((e, s)),
        forall|i: int, j: int| 0 <= i < l@.len() && 0 <= j < l@.len() && #[trigger] l@[i].0 == #[trigger] l@[j].0
            && l@[i].1 == l@[j].1 ==> i == j,
{
    assert forall|s: u64, e: u64| #[trigger] start_keys(l@).contains((s, e)) implies end_keys(l@).contains((e, s)) by {
        let i = choose|i: int| 0 <= i < l@.len() && (#[trigger] l@[i]).0 == s && l@[i].1 == e;
        assert(0 <= i < l@.len() && l@[i].1 == e && l@[i].0 == s);
    }
    assert forall|s: u64, e: u64| #[trigger] end_keys(l@).contains((e, s)) implies start_keys(l@).contains((s, e)) by {
        let i = choose|i: int| 0 <= i < l@.len() && (#[trigger] l@[i]).1 == e && l@[i].0 == s;
        assert(0 <= i < l@.len() && l@[i].0 == s && l@[i].1 == e);
    }
    assert forall|i: int, j: int| 0 <= i < l@.len() && 0 <= j < l@.len() && #[trigger] l@[i].0 == #[trigger] l@[j].0
        && l@[i].1 == l@[j].1 implies i == j by {
        if i < j {
            assert(key_lt(l@[i], l@[j]));
        } else if j < i {
            assert(key_lt(l@[j], l@[i]));
        }
    }
}

proof fn lemma_run_end_at_least(c: Seq<LineKind>, k: Keyword, last: int, cur: int)
    requires
        last < cur,
    ensures
        run_end(c, k, last, cur) >= last,
    decreases c.len() - cur,
{
    if 0 <= cur < c.len() {
        match c[cur] {
            LineKind::Card(j) => if j == k {
                lemma_run_end_at_least(c, k, cur, cur + 1);
            },
            LineKind::Comment => lemma_run_end_at_least(c, k, last, cur + 1),
            LineKind::Unrecognized => {},
        }
    }
}

proof fn lemma_run_reaches(c: Seq<LineKind>, k: Keyword, last: int, cur: int, j: int)
    requires
        0 <= last < cur <= j < c.len(),
        c[j] == LineKind::Card(k),
        forall|t: int| cur <= t < j ==> (#[trigger] c[t] == LineKind::Card(k) || c[t] is Comment),
    ensures
        run_end(c, k, last, cur) >= j,
    decreases j - cur,
{
    if cur == j {
        lemma_run_end_at_least(c, k, cur, cur + 1);
    } else if c[cur] is Comment {
        lemma_run_reaches(c, k, last, cur + 1, j);
    } else {
        lemma_run_reaches(c, k, cur, cur + 1, j);
    }
}

proof fn lemma_absorb_from(c: Seq<LineKind>, p: int, i: int, j: int, k: Keyword)
    requires
        0 <= p <= i < j < c.len(),
        c[i] == LineKind::Card(k),
        c[j] == LineKind::Card(k),
        forall|t: int| i < t < j ==> (#[trigger] c[t]) is Comment,
    ensures
        exists|x: int| 0 <= x < folds_from(c, p).len() && (#[trigger] folds_from(c, p)[x]).0 <= i
            && j <= folds_from(c, p)[x].1 && folds_from(c, p)[x].2 == k,
    decreases c.len() - p,
{
    lemma_next_card(c, p);
    let s = next_card(c, p);
    assert(s <= i);
    let k1 = c[s]->Card_0;
    lemma_run_end(c, k1, s, s + 1);
    let e = run_end(c, k1, s, s + 1);
    let out = folds_from(c, p);
    let rest = folds_from(c, e + 1);
    if e < i {
        lemma_absorb_from(c, e + 1, i, j, k);
        let x = choose|x: int| 0 <= x < rest.len() && (#[trigger] rest[x]).0 <= i && j <= rest[x].1 && rest[x].2 == k;
        if e > s {
            assert(out == seq![(s, e, k1)] + rest);
            assert(out[x + 1] == rest[x]);
        } else {
            assert(out == rest);
        }
    } else {
        assert(c[i] == LineKind::Card(k1) || c[i] is Comment);
        assert(k1 == k);
        assert forall|t: int| s + 1 <= t < j implies (#[trigger] c[t] == LineKind::Card(k) || c[t] is Comment) by {
            if t <= i {
                assert(s <= t <= e);
            }
        }
        lemma_run_reaches(c, k, s, s + 1, j);
        assert(out == seq![(s, e, k)] + rest);
        assert(out[0] == (s, e, k));
    }
}

/// A run of comment lines between two cards of the same type is absorbed:
/// one fold of that type spans both cards and the comments between them.
pub proof fn lemma_comments_absorbed(c: Seq<LineKind>, i: int, j: int, k: Keyword)
    requires
        0 <= i < j < c.len(),
        c[i] == LineKind::Card(k),
        c[j] == LineKind::Card(k),
        forall|t: int| i < t < j ==> (#[trigger] c[t]) is Comment,
    ensures
        exists|x: int| 0 <= x < fold_ranges(c).len() && (#[trigger] fold_ranges(c)[x]).0 <= i
            && j <= fold_ranges(c)[x].1 && fold_ranges(c)[x].2 == k,
{
    lemma_absorb_from(c, 0, i, j, k);
    let v = folds_from(c, 0);
    let x = choose|x: int| 0 <= x < v.len() && (#[trigger] v[x]).0 <= i && j <= v[x].1 && v[x].2 == k;
    assert(fold_ranges(c)[x] == v[x]);
}

/// A run of comment lines `[a, b]` that opens or closes the sequence, or that
/// lies between cards of two different types, belongs to no fold.
pub proof fn lemma_comments_dropped(c: Seq<LineKind>, a: int, b: int)
    requires
        0 <= a <= b < c.len(),
        forall|t: int| a <= t <= b ==> (#[trigger] c[t]) is Comment,
        a == 0 || b == c.len() - 1 || (c[a - 1] is Card && c[b + 1] is Card && c[a - 1] != c[b + 1]),
    ensures
        forall|m: int| a <= m <= b ==> !covered(fold_ranges(c), m),
{
    lemma_folds_shape(c, 0);
    let v = fold_ranges(c);
    assert forall|m: int| a <= m <= b implies !covered(v, m) by {
        if covered(v, m) {
            let x = choose|x: int| 0 <= x < v.len() && (#[trigger] v[x]).0 <= m <= v[x].1;
            let f = v[x];
            assert(fold_of(c, 0, f));
            assert(f.0 < a) by {
                if f.0 >= a {
                    assert(c[f.0] is Comment);
                }
            }
            assert(f.1 > b) by {
                if f.1 <= b {
                    assert(c[f.1] is Comment);
                }
            }
            assert(c[a - 1] == LineKind::Card(f.2) || c[a - 1] is Comment);
            assert(c[b + 1] == LineKind::Card(f.2) || c[b + 1] is Comment);
        }
    }
}

/// An unrecognized line belongs to no fold, so the cards before it and the
/// cards after it never share one.
pub proof fn lemma_unrecognized_breaks(c: Seq<LineKind>, m: int)
    requires
        0 <= m < c.len(),
        c[m] is Unrecognized,
    ensures
        !covered(fold_ranges(c), m),
        forall|x: int| 0 <= x < fold_ranges(c).len() ==> #[trigger] fold_ranges(c)[x].1 < m
            || m < fold_ranges(c)[x].0,
{
    lemma_folds_shape(c, 0);
    let v = fold_ranges(c);
    assert forall|x: int| 0 <= x < v.len() implies #[trigger] v[x].1 < m || m < v[x].0 by {
        assert(fold_of(c, 0, v[x]));
        if v[x].0 <= m <= v[x].1 {
            assert(c[m] == LineKind::Card(v[x].2) || c[m] is Comment);
        }
    }
}

} // verus!
