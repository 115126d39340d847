//! Parent selection of the real-coded genetic algorithm: tournaments of
//! five random candidates, whose winners are gathered in groups of three
//! distinct individuals (each group gives two children).

use vstd::prelude::*;
use crate::rng::gen_range_i32;
use crate::StdRng;

verus! {

/// Candidates drawn for each tournament.
pub const TOURNAMENT_CANDIDATES: usize = 5;

/// Draws the population positions of the candidates of one tournament,
/// uniformly and independently (a position can be drawn twice).
pub fn draw_candidates(rng: &mut StdRng, population_len: usize) -> (candidates: Vec<usize>)
    requires
        0 < population_len <= i32::MAX,
    ensures
        candidates.len() == TOURNAMENT_CANDIDATES,
        forall|i: int| 0 <= i < candidates.len() ==> #[trigger] candidates@[i] < population_len,
{
    let mut candidates: Vec<usize> = Vec::new();
    let mut i: usize = 0;
    while i < TOURNAMENT_CANDIDATES
        invariant
            0 < population_len <= i32::MAX,
            i <= TOURNAMENT_CANDIDATES,
            candidates.len() == i,
            forall|k: int| 0 <= k < candidates.len() ==> #[trigger] candidates@[k] < population_len,
        decreases TOURNAMENT_CANDIDATES - i,
    {
        let candidato = gen_range_i32(rng, 0, population_len as i32) as usize;
        candidates.push(candidato);
        i += 1;
    }
    candidates
}

/// Positions `i < j` of the same group of three hold different individuals.
pub open spec fn triples_distinct(s: Seq<usize>) -> bool {
    forall|i: int, j: int|
        0 <= i < j < s.len() && i / 3 == j / 3 ==> #[trigger] s[i] != #[trigger] s[j]
}

/// The parents chosen so far, in groups of three, and the group being
/// filled.
pub struct TrioSelection {
    selected_parents: Vec<usize>,
    selected_trio: Vec<usize>,
    parents_needed: usize,
}

impl TrioSelection {
    /// The completed groups, one after the other.
    pub closed spec fn parents(&self) -> Seq<usize> {
        self.selected_parents@
    }

    /// The group being filled: distinct winners, fewer than three.
    pub closed spec fn trio(&self) -> Seq<usize> {
        self.selected_trio@
    }

    /// How many parents the selection gathers at least.
    pub closed spec fn needed(&self) -> nat {
        self.parents_needed as nat
    }

    /// Complete groups of three distinct winners, and a partial group of
    /// distinct winners.
    #[verifier::type_invariant]
    spec fn wf(&self) -> bool {
        &&& self.selected_parents.len() % 3 == 0
        &&& triples_distinct(self.selected_parents@)
        &&& self.selected_trio.len() < 3
        &&& self.selected_trio@.no_duplicates()
    }

    /// A selection for a population of `pop_size`: three parents are needed
    /// for every two children, so `pop_size * 3 / 2` of them.
    pub fn new(pop_size: usize) -> (s: TrioSelection)
        requires
            pop_size * 3 <= i32::MAX,
        ensures
            s.parents() == Seq::<usize>::empty(),
            s.trio() == Seq::<usize>::empty(),
            s.needed() == pop_size * 3 / 2,
    {
        let parents_needed: i32 = (pop_size as i32) * 3 / 2;
        TrioSelection {
            selected_parents: Vec::new(),
            selected_trio: Vec::new(),
            parents_needed: parents_needed as usize,
        }
    }

    /// Whether enough parents have been gathered.
    pub fn is_complete(&self) -> (r: bool)
        ensures
            r == (self.parents().len() >= self.needed()),
    {
        self.selected_parents.len() >= self.parents_needed
    }

    /// Records a tournament winner: it joins the current group unless it is
    /// already there; a group that reaches three members is appended to the
    /// parents and a new group begins.
    pub fn record_winner(&mut self, winner: usize)
        ensures
            final(self).needed() == old(self).needed(),
            ({
                let t = if old(self).trio().contains(winner) {
                    old(self).trio()
                } else {
                    old(self).trio().push(winner)
                };
                if t.len() == 3 {
                    final(self).parents() == old(self).parents() + t && final(self).trio()
                        == Seq::<usize>::empty()
                } else {
                    final(self).parents() == old(self).parents() && final(self).trio() == t
                }
            }),
            final(self).parents().len() % 3 == 0,
            triples_distinct(final(self).parents()),
    {
        proof {
            use_type_invariant(&*self);
        }
        let mut trio: Vec<usize> = Vec::new();
        std::mem::swap(&mut trio, &mut self.selected_trio);
        let mut parents: Vec<usize> = Vec::new();
        std::mem::swap(&mut parents, &mut self.selected_parents);
        let ghost t0 = trio@;
        let ghost p0 = parents@;
        let mut present = false;
        let mut k: usize = 0;
        while k < trio.len()
            invariant
                k <= trio.len(),
                present == (exists|w: int| 0 <= w < k && trio@[w] == winner),
            decreases trio.len() - k,
        {
            if trio[k] == winner {
                present = true;
            }
            k += 1;
        }
        if !present {
            proof {
                assert forall|p: int, q: int| 0 <= p < q < t0.len() + 1 implies t0.push(winner)[p]
                    != t0.push(winner)[q] by {
                    if q == t0.len() {
                        assert(t0[p] != winner);
                    }
                }
            }
            trio.push(winner);
        }
        if trio.len() == 3 {
            let ghost t = trio@;
            let mut k: usize = 0;
            while k < 3
                invariant
                    trio@ == t,
                    t.len() == 3,
                    t.no_duplicates(),
                    p0.len() % 3 == 0,
                    triples_distinct(p0),
                    k <= 3,
                    parents@ == p0 + t.take(k as int),
                decreases 3 - k,
            {
                let idx = trio[k];
                parents.push(idx);
                k += 1;
                assert(parents@ =~= p0 + t.take(k as int));
            }
            assert(t.take(3) =~= t);
            trio.clear();
            proof {
                let s = parents@;
                assert forall|i: int, j: int|
                    0 <= i < j < s.len() && i / 3 == j / 3 implies #[trigger] s[i] != #[trigger] s[j] by {
                    if j < p0.len() {
                        assert(s[i] == p0[i]);
                        assert(s[j] == p0[j]);
                    } else {
                        assert(i >= p0.len());
                        assert(s[i] == t[i - p0.len()]);
                        assert(s[j] == t[j - p0.len()]);
                    }
                }
            }
        }
        self.selected_parents = parents;
        self.selected_trio = trio;
    }

    /// The parents gathered, in groups of three distinct individuals.
    pub fn into_parents(self) -> (parents: Vec<usize>)
        ensures
            parents@ == self.parents(),
            parents.len() % 3 == 0,
            triples_distinct(parents@),
    {
        proof {
            use_type_invariant(&self);
        }
        self.selected_parents
    }
}

} // verus!
