//! One generation of the eight-queens genetic algorithm: tournament
//! selection, crossover, mutation and repair, then elitist replacement.

use vstd::prelude::*;
use crate::board::{board_binary, crossed, queen_count};
use crate::ordering::{is_stable_order, key_before};
use crate::queens::{
    attack_keys, cross_columns, draw_columns, mutation, mutation_outcome, orderin_sols,
    repair_outcome, repair_solutions, same_individual, Individual, Probability,
};
use crate::rng::{gen_ratio, sample_indices};
use crate::StdRng;

verus! {

/// The settings of the algorithm.
#[derive(Clone, Copy, Debug)]
pub struct GaParams {
    /// Number of individuals kept from one generation to the next.
    pub population_size: usize,
    /// Individuals drawn (without repetition) for each tournament.
    pub tournament_size: usize,
    /// Best individuals of a tournament that become parents.
    pub best_tournament_size: usize,
    /// Tournaments are held until at least this many parents are chosen.
    pub parents_target: usize,
    /// Chance that two parents are crossed rather than copied.
    pub crossover: Probability,
    /// Chance that a child is mutated.
    pub mutation: Probability,
}

impl GaParams {
    /// Settings the algorithm can run with: when any parent is wanted, a
    /// tournament fits in the population, keeps at least one winner, and both
    /// chances are fractions between 0 and 1. With no parent wanted nothing is
    /// drawn, and any settings do.
    pub open spec fn wf(&self) -> bool {
        self.parents_target > 0 ==> {
            &&& 1 <= self.best_tournament_size <= self.tournament_size <= self.population_size
            &&& self.crossover.wf()
            &&& self.mutation.wf()
        }
    }
}

/// What a generation did, for progress reports.
#[derive(Clone, Copy, Debug)]
pub struct GenerationReport {
    /// Tournaments held.
    pub tournaments: usize,
    /// Children produced.
    pub children: usize,
}

/// Every individual is an 8x8 board with its true attack count.
pub open spec fn all_valid(s: Seq<Individual>) -> bool {
    forall|k: int| 0 <= k < s.len() ==> #[trigger] s[k].valid()
}

/// Every board has 0/1 cells and exactly eight queens.
pub open spec fn all_eight_queens(s: Seq<Individual>) -> bool {
    forall|k: int|
        0 <= k < s.len() ==> board_binary(#[trigger] s[k].cells()) && queen_count(s[k].cells()) == 8
}

/// Every board has 0/1 cells.
pub open spec fn all_binary(s: Seq<Individual>) -> bool {
    forall|k: int| 0 <= k < s.len() ==> board_binary(#[trigger] s[k].cells())
}

/// Attack counts never decrease along the population.
pub open spec fn sorted_by_attacks(s: Seq<Individual>) -> bool {
    forall|i: int, j: int| 0 <= i <= j < s.len() ==> #[trigger] s[i].atack <= #[trigger] s[j].atack
}

/// The attack counts of the drawn candidates, in draw order.
pub open spec fn candidate_keys(population: Seq<Individual>, drawn: Seq<usize>) -> Seq<u64> {
    Seq::new(drawn.len(), |i: int| population[drawn[i] as int].atack as u64)
}

/// `winners` are the `best` individuals at the `drawn` positions with the
/// fewest attacks, ties in draw order.
pub open spec fn is_tournament_result(
    population: Seq<Individual>,
    drawn: Seq<usize>,
    best: nat,
    winners: Seq<Individual>,
) -> bool {
    &&& winners.len() == best
    &&& exists|order: Seq<usize>|
        is_stable_order(candidate_keys(population, drawn), order) && forall|i: int|
            0 <= i < best ==> same_individual(
                #[trigger] winners[i],
                population[drawn[order[i] as int] as int],
            )
}

/// `drawn` is a tournament draw: `size` distinct positions below `n`.
pub open spec fn valid_draw(drawn: Seq<usize>, n: nat, size: nat) -> bool {
    &&& drawn.len() == size
    &&& drawn.no_duplicates()
    &&& forall|i: int| 0 <= i < drawn.len() ==> #[trigger] drawn[i] < n
}

/// The blocks one after the other.
pub open spec fn flatten(blocks: Seq<Seq<Individual>>) -> Seq<Individual>
    decreases blocks.len(),
{
    if blocks.len() == 0 {
        Seq::empty()
    } else {
        flatten(blocks.drop_last()) + blocks.last()
    }
}

/// What tournament selection gives, whatever it draws: `tournaments`
/// tournaments (the fewest that reach the target), each a draw of distinct
/// positions, and the parents are the winners of the tournaments one after
/// the other, the last one left out when their number is odd.
pub open spec fn selection_outcome(
    population: Seq<Individual>,
    params: GaParams,
    parents: Seq<Individual>,
    tournaments: nat,
) -> bool {
    &&& tournaments_needed(
        params.parents_target as int,
        params.best_tournament_size as int,
        tournaments as int,
    )
    &&& exists|draws: Seq<Seq<usize>>, blocks: Seq<Seq<Individual>>|
        draws.len() == tournaments && blocks.len() == tournaments && (forall|t: int|
            0 <= t < tournaments ==> valid_draw(
                #[trigger] draws[t],
                params.population_size as nat,
                params.tournament_size as nat,
            ) && is_tournament_result(
                population,
                draws[t],
                params.best_tournament_size as nat,
                blocks[t],
            )) && parents == flatten(blocks).take(
            even_part(tournaments * params.best_tournament_size),
        )
}

/// A tournament among the individuals at the `drawn` positions: the `best`
/// of them with the fewest attacks, ties in draw order.
pub fn tournament_winners(population: &Vec<Individual>, drawn: &Vec<usize>, best: usize) -> (winners:
    Vec<Individual>)
    requires
        all_valid(population@),
        forall|t: int| 0 <= t < drawn.len() ==> #[trigger] drawn@[t] < population.len(),
        best <= drawn.len(),
    ensures
        winners.len() == best,
        all_valid(winners@),
        all_eight_queens(population@) ==> all_eight_queens(winners@),
        is_tournament_result(population@, drawn@, best as nat, winners@),
{
    let ghost eight = all_eight_queens(population@);
    let mut selected_population: Vec<Individual> = Vec::new();
    let mut i: usize = 0;
    while i < drawn.len()
        invariant
            all_valid(population@),
            forall|t: int| 0 <= t < drawn.len() ==> #[trigger] drawn@[t] < population.len(),
            i <= drawn.len(),
            selected_population.len() == i,
            forall|k: int|
                0 <= k < i ==> same_individual(
                    #[trigger] selected_population@[k],
                    population@[drawn@[k] as int],
                ),
        decreases drawn.len() - i,
    {
        let copy = population[drawn[i]].duplicate();
        selected_population.push(copy);
        i += 1;
    }
    let ghost before_sort = selected_population@;
    assert(attack_keys(before_sort) =~= candidate_keys(population@, drawn@));
    let order = orderin_sols(&mut selected_population);
    let mut winners: Vec<Individual> = Vec::new();
    let mut i: usize = 0;
    while i < best
        invariant
            best <= drawn.len(),
            selected_population.len() == drawn.len(),
            i <= best,
            winners.len() == i,
            forall|k: int|
                0 <= k < i ==> same_individual(#[trigger] winners@[k], selected_population@[k]),
        decreases best - i,
    {
        let copy = selected_population[i].duplicate();
        winners.push(copy);
        i += 1;
    }
    proof {
        assert forall|k: int| 0 <= k < best implies same_individual(
            #[trigger] winners@[k],
            population@[drawn@[order@[k] as int] as int],
        ) by {
            assert(same_individual(selected_population@[k], before_sort[order@[k] as int]));
        }
        assert forall|k: int| 0 <= k < winners.len() implies #[trigger] winners@[k].valid() by {
            assert(population@[drawn@[order@[k] as int] as int].valid());
        }
        if eight {
            assert forall|k: int| 0 <= k < winners.len() implies board_binary(#[trigger] winners@[k].cells()) && queen_count(winners@[k].cells()) == 8 by {
                assert(board_binary(population@[drawn@[order@[k] as int] as int].cells()));
            }
        }
    }
    winners
}

/// `t` tournaments of `best` winners each are the fewest that reach
/// `target` parents.
pub open spec fn tournaments_needed(target: int, best: int, t: int) -> bool {
    &&& t * best >= target
    &&& (t == 0 || (t - 1) * best < target)
}

/// `n` rounded down to an even number.
pub open spec fn even_part(n: int) -> int {
    n - n % 2
}

/// Tournament selection: tournaments of `tournament_size` distinct
/// individuals are held until `parents_target` parents are chosen; the
/// `best_tournament_size` individuals with fewest attacks of each tournament
/// (ties in draw order) become parents. An odd last parent is dropped.
pub fn select_parents(population: &Vec<Individual>, params: &GaParams, rng: &mut StdRng) -> (res: (
    Vec<Individual>,
    usize,
))
    requires
        params.wf(),
        population.len() == params.population_size,
        all_valid(population@),
    ensures
        all_valid(res.0@),
        all_eight_queens(population@) ==> all_eight_queens(res.0@),
        selection_outcome(population@, *params, res.0@, res.1 as nat),
        res.0.len() == even_part(res.1 * params.best_tournament_size),
        params.parents_target == 0 ==> res.0.len() == 0 && res.1 == 0,
{
    let ghost eight = all_eight_queens(population@);
    let ghost mut draws: Seq<Seq<usize>> = Seq::empty();
    let ghost mut blocks: Seq<Seq<Individual>> = Seq::empty();
    let mut parents_selected: Vec<Individual> = Vec::new();
    let mut tournament: usize = 0;
    while parents_selected.len() < params.parents_target
        invariant
            params.wf(),
            population.len() == params.population_size,
            all_valid(population@),
            all_valid(parents_selected@),
            eight == all_eight_queens(population@),
            eight ==> all_eight_queens(parents_selected@),
            parents_selected.len() == tournament * params.best_tournament_size,
            tournament == 0 || (tournament - 1) * params.best_tournament_size < params.parents_target,
            params.parents_target == 0 ==> tournament == 0,
            draws.len() == tournament,
            blocks.len() == tournament,
            forall|t: int|
                0 <= t < tournament ==> valid_draw(
                    #[trigger] draws[t],
                    params.population_size as nat,
                    params.tournament_size as nat,
                ) && is_tournament_result(
                    population@,
                    draws[t],
                    params.best_tournament_size as nat,
                    blocks[t],
                ),
            parents_selected@ == flatten(blocks),
        decreases if parents_selected.len() < params.parents_target {
            params.parents_target - parents_selected.len()
        } else {
            0
        },
    {
        let index_selected = sample_indices(
            rng,
            params.population_size,
            params.tournament_size,
        );
        let mut winners = tournament_winners(
            population,
            &index_selected,
            params.best_tournament_size,
        );
        let ghost old_parents = parents_selected@;
        let ghost w = winners@;
        proof {
            let nb = blocks.push(w);
            assert(nb.drop_last() =~= blocks);
            draws = draws.push(index_selected@);
            blocks = nb;
        }
        parents_selected.append(&mut winners);
        proof {
            assert(parents_selected@ == old_parents + w);
            assert forall|k: int| 0 <= k < parents_selected.len() implies #[trigger] parents_selected@[k].valid() by {
                if k >= old_parents.len() {
                    assert(parents_selected@[k] == w[k - old_parents.len()]);
                } else {
                    assert(parents_selected@[k] == old_parents[k]);
                }
            }
            if eight {
                assert forall|k: int| 0 <= k < parents_selected.len() implies board_binary(#[trigger] parents_selected@[k].cells()) && queen_count(parents_selected@[k].cells()) == 8 by {
                    if k >= old_parents.len() {
                        assert(parents_selected@[k] == w[k - old_parents.len()]);
                    } else {
                        assert(parents_selected@[k] == old_parents[k]);
                    }
                }
            }
            let b = params.best_tournament_size as int;
            let t = tournament as int;
            assert((t + 1) * b == t * b + b) by (nonlinear_arith);
            assert(t <= t * b) by (nonlinear_arith)
                requires
                    b >= 1,
                    t >= 0,
            ;
        }
        tournament += 1;
    }
    let ghost all = parents_selected@;
    if parents_selected.len() % 2 != 0 {
        parents_selected.pop();
    }
    proof {
        assert(parents_selected@ =~= flatten(blocks).take(
            even_part(tournament * params.best_tournament_size),
        ));
    }
    (parents_selected, tournament)
}

/// The parent that is copied when a pair is not crossed: the one with fewer
/// attacks, the second on a tie.
pub open spec fn fitter(p1: Individual, p2: Individual) -> Individual {
    if p1.atack < p2.atack {
        p1
    } else {
        p2
    }
}

/// `o` is a board that a pair of parents can give before mutation, when
/// pairs are crossed with probability `rate`: a column-wise cross of the two
/// (only when `rate` is above 0), or a copy of the fitter one (only when
/// `rate` is below 1).
pub open spec fn offspring_of(rate: Probability, p1: Individual, p2: Individual, o: Seq<Seq<u8>>) -> bool {
    ||| rate.numerator != 0 && exists|ch: Seq<bool>|
        ch.len() == 8 && o == #[trigger] crossed(p1.cells(), p2.cells(), ch)
    ||| rate.numerator != rate.denominator && o == fitter(p1, p2).cells()
}

/// `c` is a child that the parents `p1` and `p2` can have under `params`:
/// their offspring, then mutated, then repaired, with its attack count
/// recorded.
pub open spec fn child_outcome(params: GaParams, p1: Individual, p2: Individual, c: Individual) -> bool {
    &&& c.valid()
    &&& exists|o: Seq<Seq<u8>>, m: Seq<Seq<u8>>|
        #![trigger mutation_outcome(params.mutation, o, m)]
        offspring_of(params.crossover, p1, p2, o) && mutation_outcome(params.mutation, o, m)
            && repair_outcome(m, c.cells())
}

/// With a crossover chance of 0 no pair is crossed: before its mutation,
/// every child is a copy of the fitter parent.
pub proof fn lemma_no_crossover_copies_fitter(
    params: GaParams,
    p1: Individual,
    p2: Individual,
    c: Individual,
)
    requires
        params.crossover.numerator == 0,
        child_outcome(params, p1, p2, c),
    ensures
        exists|m: Seq<Seq<u8>>|
            mutation_outcome(params.mutation, fitter(p1, p2).cells(), m) && repair_outcome(
                m,
                c.cells(),
            ),
{
    let (o, m) = choose|o: Seq<Seq<u8>>, m: Seq<Seq<u8>>|
        offspring_of(params.crossover, p1, p2, o) && mutation_outcome(params.mutation, o, m)
            && repair_outcome(m, c.cells());
    assert(o == fitter(p1, p2).cells());
    assert(mutation_outcome(params.mutation, fitter(p1, p2).cells(), m));
}

/// With a crossover chance of 1 every pair is crossed: before its mutation,
/// every child is a column-wise cross of its parents.
pub proof fn lemma_full_crossover_crosses(
    params: GaParams,
    p1: Individual,
    p2: Individual,
    c: Individual,
)
    requires
        params.crossover.numerator == params.crossover.denominator,
        child_outcome(params, p1, p2, c),
    ensures
        exists|ch: Seq<bool>, m: Seq<Seq<u8>>|
            #![trigger mutation_outcome(params.mutation, crossed(p1.cells(), p2.cells(), ch), m)]
            ch.len() == 8 && mutation_outcome(
                params.mutation,
                crossed(p1.cells(), p2.cells(), ch),
                m,
            ) && repair_outcome(m, c.cells()),
{
    let (o, m) = choose|o: Seq<Seq<u8>>, m: Seq<Seq<u8>>|
        offspring_of(params.crossover, p1, p2, o) && mutation_outcome(params.mutation, o, m)
            && repair_outcome(m, c.cells());
    let ch = choose|ch: Seq<bool>| ch.len() == 8 && o == #[trigger] crossed(p1.cells(), p2.cells(), ch);
    assert(mutation_outcome(params.mutation, crossed(p1.cells(), p2.cells(), ch), m));
}

/// With a mutation chance of 0 no child is mutated: every child is the
/// repair of the board its parents gave.
pub proof fn lemma_no_mutation_repairs_offspring(
    params: GaParams,
    p1: Individual,
    p2: Individual,
    c: Individual,
)
    requires
        params.mutation.numerator == 0,
        child_outcome(params, p1, p2, c),
    ensures
        exists|o: Seq<Seq<u8>>|
            offspring_of(params.crossover, p1, p2, o) && repair_outcome(o, c.cells()),
{
    let (o, m) = choose|o: Seq<Seq<u8>>, m: Seq<Seq<u8>>|
        offspring_of(params.crossover, p1, p2, o) && mutation_outcome(params.mutation, o, m)
            && repair_outcome(m, c.cells());
    assert(m == o);
    assert(offspring_of(params.crossover, p1, p2, o) && repair_outcome(o, c.cells()));
}

/// The child of a pair of parents before mutation, given the crossover
/// draw: when `cross_pair`, the column-wise cross that `take_second` picks;
/// otherwise a copy of the fitter parent.
pub fn pair_child(parent1: &Individual, parent2: &Individual, cross_pair: bool, take_second: &Vec<bool>) -> (child: Individual)
    requires
        parent1.valid(),
        parent2.valid(),
        cross_pair ==> take_second.len() == 8,
    ensures
        cross_pair ==> child.cells() == crossed(parent1.cells(), parent2.cells(), take_second@),
        !cross_pair ==> same_individual(child, fitter(*parent1, *parent2)),
        child.valid(),
        board_binary(parent1.cells()) && board_binary(parent2.cells()) ==> board_binary(
            child.cells(),
        ),
{
    if cross_pair {
        cross_columns(parent1, parent2, take_second)
    } else if parent1.atack < parent2.atack {
        parent1.duplicate()
    } else {
        parent2.duplicate()
    }
}

/// One generation. Parents are chosen by tournaments; consecutive pairs of
/// parents are crossed with the crossover probability, or else the one with
/// fewer attacks (the second on a tie) is copied; every child is mutated and
/// repaired. Parents and children are then ranked by attacks (ties in order:
/// the old population first) and the first `population_size` are kept.
pub fn evolve_generation(population: &mut Vec<Individual>, params: &GaParams, rng: &mut StdRng) -> (report: GenerationReport)
    requires
        params.wf(),
        old(population).len() == params.population_size,
        all_valid(old(population)@),
    ensures
        final(population).len() == params.population_size,
        all_valid(final(population)@),
        sorted_by_attacks(final(population)@),
        all_eight_queens(old(population)@) ==> all_eight_queens(final(population)@),
        forall|k: int|
            0 <= k < old(population).len() ==> final(population)@[0].atack <= #[trigger] old(
                population,
            )@[k].atack,
        tournaments_needed(
            params.parents_target as int,
            params.best_tournament_size as int,
            report.tournaments as int,
        ),
        report.children * 2 == even_part(report.tournaments * params.best_tournament_size),
        exists|parents: Seq<Individual>, children: Seq<Individual>, order: Seq<usize>|
            selection_outcome(old(population)@, *params, parents, report.tournaments as nat)
                && children.len() == report.children && children.len() * 2 == parents.len() && (
            forall|k: int|
                0 <= k < children.len() ==> child_outcome(
                    *params,
                    parents[2 * k],
                    parents[2 * k + 1],
                    #[trigger] children[k],
                )) && is_stable_order(attack_keys(old(population)@ + children), order) && forall|
                i: int,
            |
                0 <= i < params.population_size ==> same_individual(
                    #[trigger] final(population)@[i],
                    (old(population)@ + children)[order[i] as int],
                ),
{
    let ghost eight = all_eight_queens(population@);
    let (parents_selected, tournament) = select_parents(population, params, rng);
    let mut childs: Vec<Individual> = Vec::new();
    let mut i: usize = 0;
    while i < parents_selected.len()
        invariant
            params.wf(),
            parents_selected.len() > 0 ==> params.parents_target > 0,
            parents_selected.len() % 2 == 0,
            all_valid(parents_selected@),
            eight ==> all_eight_queens(parents_selected@),
            eight ==> all_binary(childs@),
            i % 2 == 0,
            i <= parents_selected.len(),
            childs.len() * 2 == i,
            all_valid(childs@),
            forall|k: int|
                0 <= k < childs.len() ==> offspring_of(
                    params.crossover,
                    parents_selected@[2 * k],
                    parents_selected@[2 * k + 1],
                    (#[trigger] childs@[k]).cells(),
                ),
        decreases parents_selected.len() - i,
    {
        let ghost p1 = parents_selected@[i as int];
        let ghost p2 = parents_selected@[i + 1];
        let flag = gen_ratio(rng, params.crossover.numerator, params.crossover.denominator);
        assert(parents_selected@[i as int].valid());
        assert(parents_selected@[i + 1].valid());
        assert(eight ==> board_binary(parents_selected@[i as int].cells()));
        assert(eight ==> board_binary(parents_selected@[i + 1].cells()));
        let take_second = if flag {
            draw_columns(rng)
        } else {
            Vec::new()
        };
        let child = pair_child(&parents_selected[i], &parents_selected[i + 1], flag, &take_second);
        childs.push(child);
        proof {
            let k = (i / 2) as int;
            assert(2 * k == i);
            if flag {
                assert(take_second@.len() == 8 && childs@[k].cells() == crossed(
                    p1.cells(),
                    p2.cells(),
                    take_second@,
                ));
            }
            assert(offspring_of(params.crossover, p1, p2, childs@[k].cells()));
        }
        i += 2;
    }
    let children = childs.len();
    let mut mutated: Vec<Individual> = Vec::new();
    let mut k: usize = 0;
    while k < childs.len()
        invariant
            params.wf(),
            parents_selected.len() > 0 ==> params.parents_target > 0,
            all_valid(childs@),
            k <= childs.len(),
            mutated.len() == k,
            all_valid(mutated@),
            eight ==> all_binary(childs@),
            eight ==> all_eight_queens(mutated@),
            childs.len() * 2 == parents_selected.len(),
            forall|j: int|
                0 <= j < childs.len() ==> offspring_of(
                    params.crossover,
                    parents_selected@[2 * j],
                    parents_selected@[2 * j + 1],
                    (#[trigger] childs@[j]).cells(),
                ),
            forall|j: int|
                0 <= j < mutated.len() ==> child_outcome(
                    *params,
                    parents_selected@[2 * j],
                    parents_selected@[2 * j + 1],
                    #[trigger] mutated@[j],
                ),
        decreases childs.len() - k,
    {
        assert(childs@[k as int].valid());
        assert(eight ==> board_binary(childs@[k as int].cells()));
        let ghost o = childs@[k as int].cells();
        assert(offspring_of(
            params.crossover,
            parents_selected@[2 * k],
            parents_selected@[2 * k + 1],
            childs@[k as int].cells(),
        ));
        let mut child = childs[k].duplicate();
        mutation(&mut child, params.mutation, rng);
        let ghost m = child.cells();
        repair_solutions(&mut child, rng);
        proof {
            assert(offspring_of(params.crossover, parents_selected@[2 * k], parents_selected@[2 * k + 1], o)
                && mutation_outcome(params.mutation, o, m) && repair_outcome(m, child.cells()));
        }
        mutated.push(child);
        k += 1;
    }
    let ghost old_pop = population@;
    let ghost new_children = mutated@;
    population.append(&mut mutated);
    let ghost combined = population@;
    assert(combined == old_pop + new_children);
    assert forall|t: int| 0 <= t < combined.len() implies #[trigger] combined[t].valid() by {
        if t >= old_pop.len() {
            assert(combined[t] == new_children[t - old_pop.len()]);
            assert(new_children[t - old_pop.len()].valid());
        } else {
            assert(old_pop[t].valid());
        }
    }
    proof {
        if eight {
            assert forall|t: int| 0 <= t < combined.len() implies board_binary(#[trigger] combined[t].cells()) && queen_count(combined[t].cells()) == 8 by {
                if t >= old_pop.len() {
                    assert(combined[t] == new_children[t - old_pop.len()]);
                    assert(board_binary(new_children[t - old_pop.len()].cells()));
                } else {
                    assert(board_binary(old_pop[t].cells()));
                }
            }
        }
    }
    let sol_indx = orderin_sols(population);
    proof {
        let f = population@;
        assert forall|t: int| 0 <= t < f.len() implies #[trigger] f[t].valid() by {
            assert(same_individual(f[t], combined[sol_indx@[t] as int]));
            assert(combined[sol_indx@[t] as int].valid());
        }
        if eight {
            assert forall|t: int| 0 <= t < f.len() implies board_binary(#[trigger] f[t].cells()) && queen_count(f[t].cells()) == 8 by {
                assert(same_individual(f[t], combined[sol_indx@[t] as int]));
                assert(board_binary(combined[sol_indx@[t] as int].cells()));
            }
        }
        if old_pop.len() > 0 {
            assert forall|t: int| 0 <= t < old_pop.len() implies f[0].atack <= #[trigger] old_pop[t].atack by {
                assert(combined[t] == old_pop[t]);
                assert(sol_indx@.contains(t as usize));
                let w = choose|w: int| 0 <= w < sol_indx@.len() && sol_indx@[w] == t as usize;
                if w > 0 {
                    assert(key_before(attack_keys(combined), sol_indx@[0] as int, sol_indx@[w] as int));
                }
                assert(same_individual(f[0], combined[sol_indx@[0] as int]));
            }
        }
    }
    let ghost sorted = population@;
    population.truncate(params.population_size);
    proof {
        assert(new_children.len() == children);
        assert(all_valid(new_children));
        assert(selection_outcome(old_pop, *params, parents_selected@, tournament as nat));
        assert forall|i: int| 0 <= i < params.population_size implies same_individual(
            #[trigger] population@[i],
            (old_pop + new_children)[sol_indx@[i] as int],
        ) by {
            assert(population@[i] == sorted[i]);
        }
    }
    GenerationReport { tournaments: tournament, children }
}

} // verus!
