use vstd::prelude::*;

verus! {

/// What walking the positions `k..n` yields while matching them, in order, against
/// `indices` from `pos` on: each position equal to the next index is skipped (and
/// that index consumed); every other position is yielded.
pub open spec fn complement_from(indices: Seq<usize>, pos: int, k: int, n: int) -> Seq<usize>
    decreases n - k,
{
    if k >= n {
        Seq::empty()
    } else if 0 <= pos < indices.len() && indices[pos] == k {
        complement_from(indices, pos + 1, k + 1, n)
    } else {
        seq![k as usize] + complement_from(indices, pos, k + 1, n)
    }
}

/// The positions below `n` that `indices` does not consume, in increasing order.
pub open spec fn complement(indices: Seq<usize>, n: int) -> Seq<usize> {
    complement_from(indices, 0, 0, n)
}

/// Indices strictly increase and stay below `n`.
pub open spec fn increasing_below(s: Seq<usize>, n: int) -> bool {
    &&& forall|i: int, j: int| 0 <= i < j < s.len() ==> s[i] < s[j]
    &&& forall|i: int| 0 <= i < s.len() ==> s[i] < n
}

/// The positions `0..n` not in `indices`, listed in order, without repetition, when
/// `indices` are increasing and below `n`.
pub proof fn lemma_complement_from_bounds(indices: Seq<usize>, pos: int, k: int, n: int)
    requires
        0 <= k,
        n <= usize::MAX + 1,
    ensures
        forall|j: int| 0 <= j < complement_from(indices, pos, k, n).len() ==> k <= #[trigger] complement_from(indices, pos, k, n)[j] < n,
        forall|i: int, j: int| 0 <= i < j < complement_from(indices, pos, k, n).len() ==> complement_from(indices, pos, k, n)[i] < complement_from(indices, pos, k, n)[j],
    decreases n - k,
{
    if k < n {
        assert((k as usize) as int == k);
        if 0 <= pos < indices.len() && indices[pos] == k {
            lemma_complement_from_bounds(indices, pos + 1, k + 1, n);
            assert(complement_from(indices, pos, k, n) == complement_from(indices, pos + 1, k + 1, n));
        } else {
            lemma_complement_from_bounds(indices, pos, k + 1, n);
            let rest = complement_from(indices, pos, k + 1, n);
            let all = complement_from(indices, pos, k, n);
            assert(all =~= seq![k as usize] + rest);
            assert forall|j: int| 0 <= j < all.len() implies k <= #[trigger] all[j] < n by {
                if j > 0 {
                    assert(all[j] == rest[j - 1]);
                }
            }
            assert forall|i: int, j: int| 0 <= i < j < all.len() implies all[i] < all[j] by {
                assert(all[j] == rest[j - 1]);
                if i > 0 {
                    assert(all[i] == rest[i - 1]);
                }
            }
        }
    }
}

/// With increasing indices below `n`, the walk from position `pos` of the indices and
/// value `k` (no index before `pos` is `k` or more, none from `pos` on is below `k`)
/// yields exactly the values in `k..n` that are not indices.
pub proof fn lemma_complement_from_members(indices: Seq<usize>, pos: int, k: int, n: int)
    requires
        increasing_below(indices, n),
        0 <= pos <= indices.len(),
        0 <= k,
        n <= usize::MAX + 1,
        forall|i: int| pos <= i < indices.len() ==> k <= #[trigger] indices[i],
        forall|i: int| 0 <= i < pos ==> #[trigger] indices[i] < k,
    ensures
        forall|x: usize| #[trigger] complement_from(indices, pos, k, n).contains(x) <==> (k <= x < n && !indices.contains(x)),
        complement_from(indices, pos, k, n).len() == (if k <= n { n - k } else { 0 }) - (indices.len() - pos),
    decreases n - k,
{
    let all = complement_from(indices, pos, k, n);
    if k >= n {
        assert(pos == indices.len()) by {
            if pos < indices.len() {
                assert(indices[pos] >= k);
                assert(indices[pos] < n);
            }
        }
        assert forall|x: usize| #[trigger] all.contains(x) <==> (k <= x < n && !indices.contains(x)) by {}
    } else if pos < indices.len() && indices[pos] == k {
        assert forall|i: int| pos + 1 <= i < indices.len() implies k + 1 <= #[trigger] indices[i] by {
            assert(indices[pos] < indices[i]);
        }
        lemma_complement_from_members(indices, pos + 1, k + 1, n);
        assert forall|x: usize| #[trigger] all.contains(x) <==> (k <= x < n && !indices.contains(x)) by {
            if x == k {
                assert(indices[pos] == x);
            }
        }
    } else {
        assert forall|i: int| pos <= i < indices.len() implies k + 1 <= #[trigger] indices[i] by {
            assert(indices[pos] != k);
            if i > pos {
                assert(indices[pos] < indices[i]);
            }
        }
        lemma_complement_from_members(indices, pos, k + 1, n);
        let rest = complement_from(indices, pos, k + 1, n);
        assert(all =~= seq![k as usize] + rest);
        assert forall|x: usize| #[trigger] all.contains(x) <==> (k <= x < n && !indices.contains(x)) by {
            if x == k {
                assert(all[0] == x);
                if indices.contains(x) {
                    let i = choose|i: int| 0 <= i < indices.len() && indices[i] == x;
                    if i >= pos {
                        assert(indices[i] >= k + 1);
                    }
                }
            } else {
                if all.contains(x) {
                    let j = choose|j: int| 0 <= j < all.len() && all[j] == x;
                    assert(j > 0);
                    assert(rest[j - 1] == x);
                }
                if rest.contains(x) {
                    let j = choose|j: int| 0 <= j < rest.len() && rest[j] == x;
                    assert(all[j + 1] == x);
                }
            }
        }
    }
}

/// The complement of increasing indices below `n` holds exactly the other positions
/// below `n`, in increasing order; with the indices it counts `n` positions.
pub proof fn law_complement_partitions(indices: Seq<usize>, n: usize)
    requires
        increasing_below(indices, n as int),
    ensures
        increasing_below(complement(indices, n as int), n as int),
        forall|x: usize| #[trigger] complement(indices, n as int).contains(x) <==> (x < n && !indices.contains(x)),
        complement(indices, n as int).len() + indices.len() == n,
{
    lemma_complement_from_bounds(indices, 0, 0, n as int);
    lemma_complement_from_members(indices, 0, 0, n as int);
}

/// The positions `0..n` that are not in `indices`, in order. Each position equal to
/// the next unconsumed index is skipped and that index consumed; for increasing
/// indices below `n` this is the set complement, in increasing order.
pub fn complement_indices(indices: &[usize], n: usize) -> (r: Vec<usize>)
    requires
        indices@.len() <= n,
    ensures
        r@ == complement(indices@, n as int),
{
    let mut complement_v: Vec<usize> = Vec::with_capacity(n - indices.len());
    let mut pos: usize = 0;
    let mut next_index: usize = 0;
    while next_index < n
        invariant
            next_index <= n,
            pos <= indices@.len(),
            complement_v@ + complement_from(indices@, pos as int, next_index as int, n as int)
                == complement(indices@, n as int),
        decreases n - next_index,
    {
        let ghost before = complement_v@;
        if pos < indices.len() && indices[pos] == next_index {
            pos = pos + 1;
        } else {
            complement_v.push(next_index);
            proof {
                let rest = complement_from(indices@, pos as int, next_index as int + 1, n as int);
                assert(before + (seq![next_index] + rest) =~= complement_v@ + rest);
            }
        }
        next_index = next_index + 1;
    }
    assert(complement_v@ + Seq::<usize>::empty() =~= complement_v@);
    complement_v
}

/// Iterates the positions `0..n` not in a run of indices, as `complement_indices`
/// lists them.
pub struct ComplementIndices<'a> {
    indices: &'a [usize],
    pos: usize,
    next_index: usize,
    n: usize,
}

impl<'a> ComplementIndices<'a> {
    /// The positions still to come.
    pub closed spec fn remaining(&self) -> Seq<usize> {
        complement_from(self.indices@, self.pos as int, self.next_index as int, self.n as int)
    }

    /// An iterator over the positions below `n` not in `indices`.
    pub fn new(indices: &'a [usize], n: usize) -> (r: ComplementIndices<'a>)
        ensures
            r.remaining() == complement(indices@, n as int),
    {
        ComplementIndices { indices, pos: 0, next_index: 0, n }
    }

    /// The next position, if any is left.
    pub fn next(&mut self) -> (r: Option<usize>)
        ensures
            old(self).remaining().len() == 0 ==> r is None && final(self).remaining() == old(self).remaining(),
            old(self).remaining().len() > 0 ==> r == Some(old(self).remaining()[0])
                && final(self).remaining() == old(self).remaining().subrange(1, old(self).remaining().len() as int),
    {
        let ghost start = self.remaining();
        while self.next_index < self.n
            invariant
                self.indices == old(self).indices,
                self.n == old(self).n,
                self.remaining() == start,
                start == old(self).remaining(),
            decreases self.n - self.next_index,
        {
            if self.pos < self.indices.len() && self.indices[self.pos] == self.next_index {
                self.pos = self.pos + 1;
            } else {
                let complement_index = self.next_index;
                self.next_index = self.next_index + 1;
                proof {
                    assert(start =~= seq![complement_index] + self.remaining());
                    assert(self.remaining() =~= start.subrange(1, start.len() as int));
                }
                return Some(complement_index);
            }
            self.next_index = self.next_index + 1;
        }
        None
    }
}

/// What a run of calls of `ComplementIndices::next` yields, from an iterator made by
/// `ComplementIndices::new(indices, n)`: `states[j]` stands for the positions still to
/// come before the call numbered `j`, each call handing out the first of them and
/// leaving the rest. The calls hand out, in order, exactly the positions that
/// `complement_indices(indices, n)` lists, and then nothing.
pub proof fn law_complement_iterator_run(indices: Seq<usize>, n: usize, states: Seq<Seq<usize>>)
    requires
        states.len() == complement(indices, n as int).len() + 1,
        states[0] == complement(indices, n as int),
        forall|j: int| 0 < j < states.len() ==> #[trigger] states[j] == states[j - 1].subrange(1, states[j - 1].len() as int),
    ensures
        forall|j: int| 0 <= j < complement(indices, n as int).len() ==> #[trigger] states[j].len() > 0
            && states[j][0] == complement(indices, n as int)[j],
        states.last().len() == 0,
{
    let c = complement(indices, n as int);
    lemma_states_are_suffixes(c, states, c.len() as int);
    assert forall|j: int| 0 <= j < c.len() implies #[trigger] states[j].len() > 0 && states[j][0] == c[j] by {
        lemma_states_are_suffixes(c, states, j);
    }
}

/// Before the call numbered `j`, the positions still to come are those of `c` from `j` on.
proof fn lemma_states_are_suffixes(c: Seq<usize>, states: Seq<Seq<usize>>, j: int)
    requires
        states.len() == c.len() + 1,
        states[0] == c,
        forall|i: int| 0 < i < states.len() ==> #[trigger] states[i] == states[i - 1].subrange(1, states[i - 1].len() as int),
        0 <= j <= c.len(),
    ensures
        states[j] == c.subrange(j, c.len() as int),
    decreases j,
{
    if j == 0 {
        assert(c.subrange(0, c.len() as int) =~= c);
    } else {
        lemma_states_are_suffixes(c, states, j - 1);
        assert(states[j] == states[j - 1].subrange(1, states[j - 1].len() as int));
        assert(states[j] =~= c.subrange(j, c.len() as int));
    }
}

} // verus!
