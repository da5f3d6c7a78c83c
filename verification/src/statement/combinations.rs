use vstd::prelude::*;
use super::complement::{ComplementIndices, complement, complement_from, increasing_below, lemma_complement_from_bounds, law_complement_partitions};

verus! {

/// Position `i` of `idx` holds the largest value a `k`-combination of `0..n` allows there.
pub open spec fn max_at(idx: Seq<usize>, n: int, i: int) -> bool {
    idx[i] == i + n - idx.len()
}

/// The last position at or before `i` that can still grow, or -1 when none can.
pub open spec fn last_movable(idx: Seq<usize>, n: int, i: int) -> int
    decreases i + 1,
{
    if i < 0 {
        -1
    } else if !max_at(idx, n, i) {
        i
    } else {
        last_movable(idx, n, i - 1)
    }
}

/// The combination after `idx` when position `i` grows: it keeps the positions
/// before `i`, adds one at `i`, and makes the positions after it consecutive.
pub open spec fn successor(idx: Seq<usize>, i: int) -> Seq<usize> {
    Seq::new(idx.len(), |j: int| if j < i { idx[j] } else { (idx[i] + 1 + (j - i)) as usize })
}

/// The first `k`-combination: `0, 1, .., k - 1`.
pub open spec fn first_combination(k: nat) -> Seq<usize> {
    Seq::new(k, |j: int| j as usize)
}

/// `a` comes before `b` in lexicographic order, differing first at position `d`.
pub open spec fn lex_lt_at(a: Seq<usize>, b: Seq<usize>, d: int) -> bool {
    &&& 0 <= d < a.len()
    &&& d < b.len()
    &&& a[d] < b[d]
    &&& forall|j: int| 0 <= j < d ==> a[j] == b[j]
}

/// `a` comes before `b` in lexicographic order.
pub open spec fn lex_lt(a: Seq<usize>, b: Seq<usize>) -> bool {
    exists|d: int| lex_lt_at(a, b, d)
}

/// A `k`-combination of `0..n`: `k` increasing values below `n`.
pub open spec fn is_combination(s: Seq<usize>, k: nat, n: nat) -> bool {
    s.len() == k && increasing_below(s, n as int)
}

/// What `last_movable` finds: a position that can grow, with every later one at its
/// largest; or -1, with every position at its largest.
proof fn lemma_last_movable(idx: Seq<usize>, n: int, i: int)
    requires
        -1 <= i < idx.len(),
    ensures
        -1 <= last_movable(idx, n, i) <= i,
        last_movable(idx, n, i) >= 0 ==> !max_at(idx, n, last_movable(idx, n, i)),
        forall|j: int| last_movable(idx, n, i) < j <= i ==> #[trigger] max_at(idx, n, j),
    decreases i + 1,
{
    if i >= 0 && max_at(idx, n, i) {
        lemma_last_movable(idx, n, i - 1);
    }
}

/// In an increasing run, values grow at least as fast as positions.
proof fn lemma_increasing_gap(s: Seq<usize>, n: int)
    requires
        increasing_below(s, n),
    ensures
        forall|i: int, j: int| #![trigger s[i], s[j]] 0 <= i <= j < s.len() ==> s[i] + (j - i) <= s[j],
        forall|j: int| 0 <= j < s.len() ==> #[trigger] s[j] <= j + n - s.len(),
        forall|j: int| 0 <= j < s.len() ==> j <= #[trigger] s[j],
    decreases s.len(),
{
    if s.len() > 0 {
        let t = s.drop_last();
        assert(increasing_below(t, n - 1)) by {
            assert forall|i: int| 0 <= i < t.len() implies t[i] < n - 1 by {
                assert(s[i] < s[s.len() - 1]);
            }
        }
        lemma_increasing_gap(t, n - 1);
        assert forall|i: int, j: int| #![trigger s[i], s[j]] 0 <= i <= j < s.len() implies s[i] + (j - i) <= s[j] by {
            if j < s.len() - 1 {
                assert(t[i] == s[i] && t[j] == s[j]);
            } else if i < j {
                assert(t[i] == s[i] && t[j - 1] == s[j - 1]);
                assert(s[j - 1] < s[j]);
            }
        }
        assert forall|j: int| 0 <= j < s.len() implies #[trigger] s[j] <= j + n - s.len() by {
            if j < s.len() - 1 {
                assert(t[j] == s[j]);
            }
        }
        assert forall|j: int| 0 <= j < s.len() implies j <= #[trigger] s[j] by {
            if j < s.len() - 1 {
                assert(t[j] == s[j]);
            } else if j > 0 {
                assert(t[j - 1] == s[j - 1]);
                assert(s[j - 1] < s[j]);
            }
        }
    }
}

/// Growing a position that can grow gives a combination again.
proof fn lemma_successor_combination(idx: Seq<usize>, n: nat, i: int)
    requires
        is_combination(idx, idx.len(), n),
        n <= usize::MAX,
        0 <= i < idx.len(),
        !max_at(idx, n as int, i),
    ensures
        is_combination(successor(idx, i), idx.len(), n),
        lex_lt_at(idx, successor(idx, i), i),
        forall|j: int| i <= j < idx.len() ==> #[trigger] successor(idx, i)[j] == idx[i] + 1 + (j - i),
        forall|j: int| 0 <= j < i ==> #[trigger] successor(idx, i)[j] == idx[j],
{
    lemma_increasing_gap(idx, n as int);
    let s = successor(idx, i);
    assert(idx[i] <= i + n - idx.len());
    assert(idx[i] < i + n - idx.len());
    assert forall|j: int| i <= j < idx.len() implies #[trigger] s[j] == idx[i] + 1 + (j - i) by {
        assert(idx[i] + 1 + (j - i) <= j + n - idx.len());
    }
    assert forall|j: int| 0 <= j < s.len() implies s[j] < n by {
        if j >= i {
            assert(s[j] == idx[i] + 1 + (j - i));
        }
    }
    assert forall|a: int, b: int| 0 <= a < b < s.len() implies s[a] < s[b] by {
        if b < i {
        } else if a < i {
            assert(idx[a] < idx[i]);
        }
    }
}

/// The combinations of `0..n` of one size, in lexicographic order, follow one another
/// by `successor`: whenever some combination `s` comes after `idx`, a position of
/// `idx` can grow, and growing the last such position gives a combination that comes
/// after `idx` and not after `s`. So none is skipped, and none is left when no
/// position can grow.
pub proof fn law_successor_is_next(idx: Seq<usize>, s: Seq<usize>, n: usize)
    requires
        is_combination(idx, idx.len(), n as nat),
        is_combination(s, idx.len(), n as nat),
        lex_lt(idx, s),
    ensures
        last_movable(idx, n as int, idx.len() - 1) >= 0,
        is_combination(successor(idx, last_movable(idx, n as int, idx.len() - 1)), idx.len(), n as nat),
        lex_lt(idx, successor(idx, last_movable(idx, n as int, idx.len() - 1))),
        !lex_lt(s, successor(idx, last_movable(idx, n as int, idx.len() - 1))),
{
    let k = idx.len() as int;
    let d = choose|d: int| lex_lt_at(idx, s, d);
    lemma_last_movable(idx, n as int, k - 1);
    lemma_increasing_gap(s, n as int);
    lemma_increasing_gap(idx, n as int);
    let i = last_movable(idx, n as int, k - 1);
    assert(d <= i) by {
        if d > i {
            assert(max_at(idx, n as int, d));
        }
    }
    lemma_successor_combination(idx, n as nat, i);
    let succ = successor(idx, i);
    assert(lex_lt_at(idx, succ, i));
    assert(!lex_lt(s, succ)) by {
        if lex_lt(s, succ) {
            let e = choose|e: int| lex_lt_at(s, succ, e);
            if d < i {
                if e < d {
                    assert(succ[e] == idx[e]);
                } else if e == d {
                    assert(succ[d] == idx[d]);
                } else {
                    assert(s[d] == succ[d]);
                    assert(succ[d] == idx[d]);
                }
            } else {
                if e < i {
                    assert(succ[e] == idx[e]);
                    assert(s[e] == idx[e]);
                } else {
                    assert(s[i] + (e - i) <= s[e]);
                    assert(succ[e] == idx[i] + 1 + (e - i));
                }
            }
        }
    }
}

/// The first combination comes before, or is, every combination of its size.
pub proof fn law_first_is_least(s: Seq<usize>, n: nat)
    requires
        is_combination(s, s.len(), n),
    ensures
        !lex_lt(s, first_combination(s.len())),
{
    lemma_increasing_gap(s, n as int);
    if lex_lt(s, first_combination(s.len())) {
        let e = choose|e: int| lex_lt_at(s, first_combination(s.len()), e);
        assert(e <= s[e]);
    }
}

/// Lexicographic order on runs of one length is total.
proof fn lemma_lex_total(a: Seq<usize>, b: Seq<usize>)
    requires
        a.len() == b.len(),
        a != b,
    ensures
        lex_lt(a, b) || lex_lt(b, a),
    decreases a.len(),
{
    if a.len() == 0 {
        assert(a =~= b);
    } else if a[0] < b[0] {
        assert(lex_lt_at(a, b, 0));
    } else if b[0] < a[0] {
        assert(lex_lt_at(b, a, 0));
    } else {
        let a1 = a.drop_first();
        let b1 = b.drop_first();
        if a1 == b1 {
            assert forall|i: int| 0 <= i < a.len() implies a[i] == b[i] by {
                if i > 0 {
                    assert(a1[i - 1] == b1[i - 1]);
                }
            }
            assert(a =~= b);
        }
        lemma_lex_total(a1, b1);
        if lex_lt(a1, b1) {
            let d = choose|d: int| lex_lt_at(a1, b1, d);
            assert forall|j: int| 0 <= j < d + 1 implies a[j] == b[j] by {
                if j > 0 {
                    assert(a1[j - 1] == b1[j - 1]);
                }
            }
            assert(lex_lt_at(a, b, d + 1));
        } else {
            let d = choose|d: int| lex_lt_at(b1, a1, d);
            assert forall|j: int| 0 <= j < d + 1 implies a[j] == b[j] by {
                if j > 0 {
                    assert(a1[j - 1] == b1[j - 1]);
                }
            }
            assert(lex_lt_at(b, a, d + 1));
        }
    }
}

/// Lexicographic order on runs of one length is transitive.
proof fn lemma_lex_trans(a: Seq<usize>, b: Seq<usize>, c: Seq<usize>)
    requires
        a.len() == b.len(),
        b.len() == c.len(),
        lex_lt(a, b),
        lex_lt(b, c),
    ensures
        lex_lt(a, c),
{
    let d1 = choose|d: int| lex_lt_at(a, b, d);
    let d2 = choose|d: int| lex_lt_at(b, c, d);
    if d1 <= d2 {
        assert(lex_lt_at(a, c, d1));
    } else {
        assert(lex_lt_at(a, c, d2));
    }
}

/// The positions a full run of `Combinations::next` hands out, from `combinations(pool, k)`
/// with `k <= n` items in the pool: `states[0]` is the first combination, each later
/// state grows the last position of the one before that can grow, and in the last
/// state no position can grow, so the next call gives `None`.
pub open spec fn is_full_run(states: Seq<Seq<usize>>, k: nat, n: nat) -> bool {
    &&& states.len() > 0
    &&& states[0] == first_combination(k)
    &&& forall|j: int| 0 < j < states.len() ==> #[trigger] grows_from_before(states, k, n, j)
    &&& last_movable(states.last(), n as int, k - 1) < 0
}

/// State `j` of a run grows the last position of state `j - 1` that can grow.
pub open spec fn grows_from_before(states: Seq<Seq<usize>>, k: nat, n: nat, j: int) -> bool {
    &&& last_movable(states[j - 1], n as int, k - 1) >= 0
    &&& states[j] == successor(states[j - 1], last_movable(states[j - 1], n as int, k - 1))
}

/// Each state of a full run is a combination.
proof fn lemma_run_combinations(states: Seq<Seq<usize>>, k: nat, n: usize, j: int)
    requires
        k <= n,
        is_full_run(states, k, n as nat),
        0 <= j < states.len(),
    ensures
        is_combination(states[j], k, n as nat),
        j > 0 ==> lex_lt(states[j - 1], states[j]),
    decreases j,
{
    if j == 0 {
        assert forall|a: int| 0 <= a < k implies states[0][a] < n by {}
    } else {
        lemma_run_combinations(states, k, n, j - 1);
        assert(grows_from_before(states, k, n as nat, j));
        let prev = states[j - 1];
        let i = last_movable(prev, n as int, k - 1);
        lemma_last_movable(prev, n as int, k - 1);
        lemma_successor_combination(prev, n as nat, i);
        assert(states[j] == successor(prev, i));
    }
}

/// In a full run, every state comes after all the states before it.
proof fn lemma_run_increasing(states: Seq<Seq<usize>>, k: nat, n: usize, j: int)
    requires
        k <= n,
        is_full_run(states, k, n as nat),
        0 <= j < states.len(),
    ensures
        forall|i: int| 0 <= i < j ==> lex_lt(#[trigger] states[i], states[j]),
    decreases j,
{
    if j > 0 {
        lemma_run_increasing(states, k, n, j - 1);
        lemma_run_combinations(states, k, n, j);
        lemma_run_combinations(states, k, n, j - 1);
        assert forall|i: int| 0 <= i < j implies lex_lt(#[trigger] states[i], states[j]) by {
            if i < j - 1 {
                lemma_run_combinations(states, k, n, i);
                lemma_lex_trans(states[i], states[j - 1], states[j]);
            }
        }
    }
}

/// The last state, at or before `m`, that does not come after `s`.
proof fn lemma_last_not_after(s: Seq<usize>, states: Seq<Seq<usize>>, m: int) -> (j: int)
    requires
        0 <= m < states.len(),
        !lex_lt(s, states[0]),
    ensures
        0 <= j <= m,
        !lex_lt(s, states[j]),
        forall|i: int| j < i <= m ==> lex_lt(s, #[trigger] states[i]),
    decreases m,
{
    if m == 0 || !lex_lt(s, states[m]) {
        m
    } else {
        lemma_last_not_after(s, states, m - 1)
    }
}

/// A full run of `Combinations::next` hands out every `k`-combination of the `n`
/// positions exactly once, in lexicographic order: its states increase strictly, and
/// each combination is one of them.
pub proof fn law_combinations_full_run(states: Seq<Seq<usize>>, k: nat, n: usize)
    requires
        k <= n,
        is_full_run(states, k, n as nat),
    ensures
        forall|j: int| 0 <= j < states.len() ==> is_combination(#[trigger] states[j], k, n as nat),
        forall|i: int, j: int| 0 <= i < j < states.len() ==> lex_lt(#[trigger] states[i], #[trigger] states[j]),
        forall|s: Seq<usize>| #[trigger] is_combination(s, k, n as nat) ==> exists|j: int| 0 <= j < states.len() && states[j] == s,
{
    assert forall|j: int| 0 <= j < states.len() implies is_combination(#[trigger] states[j], k, n as nat) by {
        lemma_run_combinations(states, k, n, j);
    }
    assert forall|i: int, j: int| 0 <= i < j < states.len() implies lex_lt(#[trigger] states[i], #[trigger] states[j]) by {
        lemma_run_increasing(states, k, n, j);
    }
    assert forall|s: Seq<usize>| #[trigger] is_combination(s, k, n as nat) implies exists|j: int| 0 <= j < states.len() && states[j] == s by {
        law_first_is_least(s, n as nat);
        let last = states.len() - 1;
        let j = lemma_last_not_after(s, states, last);
        if states[j] != s {
            lemma_run_combinations(states, k, n, j);
            lemma_lex_total(states[j], s);
            law_successor_is_next(states[j], s, n);
            if j < last {
                assert(grows_from_before(states, k, n as nat, j + 1));
                assert(lex_lt(s, states[j + 1]));
            }
        }
    }
}

/// Splits a pool into `k` chosen items and the rest, for each `k`-combination of
/// positions in turn, in lexicographic order of the positions.
pub struct Combinations<T> {
    indices: Vec<usize>,
    pool: Vec<T>,
    first: bool,
    n: usize,
}

/// Builds the splitting of `pool` into `k` items and the rest.
pub fn combinations<T>(pool: Vec<T>, k: usize) -> (r: Combinations<T>)
    ensures
        r.wf(),
        r.pool() == pool@,
        r.indices() == first_combination(k as nat),
        !r.started(),
{
    let n = pool.len();
    let mut indices: Vec<usize> = Vec::new();
    let mut i: usize = 0;
    while i < k
        invariant
            i <= k,
            indices@ == first_combination(i as nat),
        decreases k - i,
    {
        indices.push(i);
        assert(indices@ =~= first_combination(i as nat + 1));
        i = i + 1;
    }
    Combinations { indices, pool, first: true, n }
}

impl<T> Combinations<T> {
    /// The positions of the current combination.
    pub closed spec fn indices(&self) -> Seq<usize> {
        self.indices@
    }

    /// The items being split.
    pub closed spec fn pool(&self) -> Seq<T> {
        self.pool@
    }

    /// Whether a split has been handed out since the start.
    pub closed spec fn started(&self) -> bool {
        !self.first
    }

    /// Before the start the positions are `0..k`; after it they form a combination.
    pub closed spec fn wf(&self) -> bool {
        &&& self.pool@.len() == self.n
        &&& !self.first ==> is_combination(self.indices@, self.indices@.len(), self.n as nat)
        &&& self.first ==> self.indices@ == first_combination(self.indices@.len())
    }

    /// The number of items each split chooses.
    pub fn k(&self) -> (r: usize)
        ensures
            r == self.indices().len(),
    {
        self.indices.len()
    }

    /// Goes back to the initial state for splits of `k` items of the same pool: the
    /// positions start over at `0..k` and the next call hands out the first split.
    pub fn reset(&mut self, k: usize)
        requires
            old(self).wf(),
        ensures
            final(self).wf(),
            final(self).indices() == first_combination(k as nat),
            final(self).pool() == old(self).pool(),
            !final(self).started(),
    {
        let mut indices: Vec<usize> = Vec::new();
        let mut i: usize = 0;
        while i < k
            invariant
                i <= k,
                indices@ == first_combination(i as nat),
            decreases k - i,
        {
            indices.push(i);
            assert(indices@ =~= first_combination(i as nat + 1));
            i = i + 1;
        }
        self.indices = indices;
        self.first = true;
    }
}

/// The items of `pool` at `positions` are, in order, clones of the items of `picked`.
pub open spec fn picks<T: Clone>(picked: Seq<T>, pool: Seq<T>, positions: Seq<usize>) -> bool {
    &&& picked.len() == positions.len()
    &&& forall|j: int| 0 <= j < positions.len() ==> cloned(pool[positions[j] as int], #[trigger] picked[j])
}

impl<T: Clone> Combinations<T> {
    /// The items at the current positions, and the items at all other positions.
    fn split(&self) -> (r: (Vec<T>, Vec<T>))
        requires
            self.pool@.len() == self.n,
            is_combination(self.indices@, self.indices@.len(), self.n as nat),
        ensures
            picks(r.0@, self.pool@, self.indices@),
            picks(r.1@, self.pool@, complement(self.indices@, self.n as int)),
    {
        let mut p: Vec<T> = Vec::new();
        let mut j: usize = 0;
        while j < self.indices.len()
            invariant
                j <= self.indices@.len(),
                self.pool@.len() == self.n,
                is_combination(self.indices@, self.indices@.len(), self.n as nat),
                p@.len() == j,
                forall|a: int| 0 <= a < j ==> cloned(self.pool@[self.indices@[a] as int], #[trigger] p@[a]),
            decreases self.indices@.len() - j,
        {
            let item = self.pool[self.indices[j]].clone();
            p.push(item);
            j = j + 1;
        }
        let ghost full = complement(self.indices@, self.n as int);
        proof {
            lemma_complement_from_bounds(self.indices@, 0, 0, self.n as int);
        }
        let mut rest: Vec<T> = Vec::new();
        let ghost mut taken: Seq<usize> = Seq::empty();
        let mut iter = ComplementIndices::new(self.indices.as_slice(), self.n);
        loop
            invariant
                self.pool@.len() == self.n,
                taken + iter.remaining() == full,
                forall|a: int| 0 <= a < full.len() ==> #[trigger] full[a] < self.n,
                rest@.len() == taken.len(),
                forall|a: int| 0 <= a < taken.len() ==> cloned(self.pool@[taken[a] as int], #[trigger] rest@[a]),
            ensures
                taken == full,
                rest@.len() == taken.len(),
                forall|a: int| 0 <= a < taken.len() ==> cloned(self.pool@[taken[a] as int], #[trigger] rest@[a]),
            decreases iter.remaining().len(),
        {
            let ghost before = iter.remaining();
            match iter.next() {
                Some(i) => {
                    proof {
                        assert(full[taken.len() as int] == i);
                    }
                    let item = self.pool[i].clone();
                    rest.push(item);
                    proof {
                        taken = taken.push(i);
                        assert(taken + iter.remaining() =~= full);
                    }
                },
                None => {
                    assert(taken =~= full);
                    break;
                },
            }
        }
        (p, rest)
    }

    /// The next split: the items at the next combination of positions, in
    /// lexicographic order, and the items at all other positions. The first call
    /// splits at `0..k`, or gives `None` when `k` exceeds the pool; each later call
    /// grows the last position that can grow, or gives `None` when none can.
    pub fn next(&mut self) -> (r: Option<(Vec<T>, Vec<T>)>)
        requires
            old(self).wf(),
        ensures
            final(self).wf(),
            final(self).pool() == old(self).pool(),
            final(self).indices().len() == old(self).indices().len(),
            ({
                let idx = old(self).indices();
                let n = old(self).pool().len();
                let k = idx.len();
                let i = last_movable(idx, n as int, k - 1);
                if !old(self).started() {
                    if k > n {
                        r is None && final(self).indices() == idx && !final(self).started()
                    } else {
                        final(self).indices() == idx && final(self).started()
                    }
                } else if k == 0 || i < 0 {
                    r is None && final(self).indices() == idx && final(self).started()
                } else {
                    final(self).indices() == successor(idx, i) && final(self).started()
                }
            }),
            r is Some <==> final(self).indices() != old(self).indices() || (!old(self).started() && final(self).started()),
            match r {
                Some(split) => split.0@.len() == final(self).indices().len()
                    && split.1@.len() == final(self).pool().len() - final(self).indices().len()
                    && picks(split.0@, final(self).pool(), final(self).indices())
                    && picks(split.1@, final(self).pool(), complement(final(self).indices(), final(self).pool().len() as int))
                    && is_combination(final(self).indices(), final(self).indices().len(), final(self).pool().len()),
                None => true,
            },
    {
        let ghost idx = self.indices@;
        let ghost n = self.n as int;
        let ghost k = idx.len() as int;
        if self.first {
            if self.indices.len() > self.n {
                return None;
            }
            self.first = false;
            proof {
                assert(is_combination(idx, idx.len(), self.n as nat)) by {
                    assert forall|a: int, b: int| 0 <= a < b < idx.len() implies idx[a] < idx[b] by {}
                }
            }
        } else if self.indices.len() == 0 {
            return None;
        } else {
            let mut i: usize = self.indices.len() - 1;
            proof {
                lemma_last_movable(idx, n, k - 1);
                lemma_increasing_gap(idx, n);
                assert(idx[k - 1] < n);
            }
            while self.indices[i] == i + (self.n - self.indices.len())
                invariant
                    self.indices@ == idx,
                    self.pool@.len() == self.n,
                    !self.first,
                    self.pool@ == old(self).pool@,
                    k <= n,
                    self.n == n,
                    k == idx.len(),
                    0 <= i < k,
                    is_combination(idx, k as nat, n as nat),
                    last_movable(idx, n, k - 1) == last_movable(idx, n, i as int),
                decreases i,
            {
                if i > 0 {
                    i = i - 1;
                } else {
                    proof {
                        assert(last_movable(idx, n, 0) == last_movable(idx, n, -1));
                    }
                    return None;
                }
            }
            proof {
                assert(last_movable(idx, n, k - 1) == i as int);
                lemma_successor_combination(idx, n as nat, i as int);
            }
            let ghost target = successor(idx, i as int);
            self.indices.set(i, self.indices[i] + 1);
            let mut j: usize = i + 1;
            while j < self.indices.len()
                invariant
                    i < j <= k,
                    k == idx.len(),
                    self.pool@.len() == self.n,
                    !self.first,
                    self.pool@ == old(self).pool@,
                    n == self.n,
                    forall|a: int| i <= a < k ==> #[trigger] target[a] == idx[i as int] + 1 + (a - i),
                    self.indices@.len() == k,
                    is_combination(target, k as nat, n as nat),
                    forall|a: int| 0 <= a < j ==> self.indices@[a] == #[trigger] target[a],
                    forall|a: int| j <= a < k ==> self.indices@[a] == #[trigger] idx[a],
                decreases k - j,
            {
                proof {
                    assert(self.indices@[j - 1] == target[j - 1]);
                    assert(target[j - 1] < n);
                }
                let v = self.indices[j - 1] + 1;
                self.indices.set(j, v);
                proof {
                    assert(target[j as int] == target[j - 1] + 1);
                }
                j = j + 1;
            }
            assert(self.indices@ =~= target);
        }
        proof {
            law_complement_partitions(self.indices@, self.n);
        }
        let split = self.split();
        Some(split)
    }
}

/// Splitting a collection of items by combinations.
pub trait CombinationSplit<T> {
    /// The splits of the items into `k` chosen and the rest.
    fn combinations_split(self, k: usize) -> Combinations<T>;
}

impl<T> CombinationSplit<T> for Vec<T> {
    fn combinations_split(self, k: usize) -> (r: Combinations<T>)
        ensures
            r.wf(),
            r.pool() == self@,
            r.indices() == first_combination(k as nat),
            !r.started(),
    {
        combinations(self, k)
    }
}

} // verus!
