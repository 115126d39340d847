//! Binary-coded individuals of the real-valued genetic algorithm: each of
//! the ten variables is coded on `digits` bits, most significant first.
//! Creation, one-point crossover, bit flips, decoding to integers, and
//! ranking by precomputed keys.

use vstd::prelude::*;
use vstd::arithmetic::power2::{pow2, lemma_pow2_unfold, lemma_pow2_strictly_increases, lemma2_to64};
use crate::ordering::{is_stable_order, stable_order};
use crate::rng::gen_index;
use crate::StdRng;

verus! {

/// A binary-coded individual; every entry is a bit, 0 or 1.
#[derive(Debug)]
pub struct IndividualCoded {
    pub solution: Vec<usize>,
}

/// Every entry is 0 or 1.
pub open spec fn all_bits(s: Seq<usize>) -> bool {
    forall|i: int| 0 <= i < s.len() ==> #[trigger] s[i] <= 1
}

/// A copy of a vector of bits.
fn copy_bits(v: &Vec<usize>) -> (r: Vec<usize>)
    ensures
        r@ == v@,
{
    let mut r: Vec<usize> = Vec::new();
    let mut i: usize = 0;
    while i < v.len()
        invariant
            i <= v.len(),
            r@ == v@.take(i as int),
        decreases v.len() - i,
    {
        r.push(v[i]);
        i += 1;
        assert(r@ =~= v@.take(i as int));
    }
    assert(v@.take(v.len() as int) =~= v@);
    r
}

impl IndividualCoded {
    /// A copy of the individual.
    pub fn duplicate(&self) -> (r: IndividualCoded)
        ensures
            r.solution@ == self.solution@,
    {
        IndividualCoded { solution: copy_bits(&self.solution) }
    }
}

/// A random population of `pop_size` individuals of `l * 10` fair random
/// bits each.
pub fn initial_population_binaria(pop_size: usize, rng: &mut StdRng, l: usize) -> (pop: Vec<
    IndividualCoded,
>)
    requires
        l * 10 <= usize::MAX,
    ensures
        pop.len() == pop_size,
        forall|k: int|
            0 <= k < pop.len() ==> (#[trigger] pop@[k]).solution.len() == l * 10 && all_bits(
                pop@[k].solution@,
            ),
{
    let mut pop: Vec<IndividualCoded> = Vec::new();
    let mut n: usize = 0;
    while n < pop_size
        invariant
            l * 10 <= usize::MAX,
            n <= pop_size,
            pop.len() == n,
            forall|k: int|
                0 <= k < pop.len() ==> (#[trigger] pop@[k]).solution.len() == l * 10 && all_bits(
                    pop@[k].solution@,
                ),
        decreases pop_size - n,
    {
        let mut sol: Vec<usize> = Vec::new();
        let mut i: usize = 0;
        while i < l * 10
            invariant
                l * 10 <= usize::MAX,
                i <= l * 10,
                sol.len() == i,
                all_bits(sol@),
            decreases l * 10 - i,
        {
            let bit = gen_index(rng, 0, 2);
            sol.push(bit);
            i += 1;
        }
        pop.push(IndividualCoded { solution: sol });
        n += 1;
    }
    pop
}

/// The first child of a one-point crossover at `point`: the head of `a`
/// before `point`, then the bits of `b`, over the length of `a`.
pub open spec fn first_child(a: Seq<usize>, b: Seq<usize>, point: int) -> Seq<usize> {
    Seq::new(a.len(), |i: int| if i < point { a[i] } else { b[i] })
}

/// The second child: `b` with its bits from `point` up to the length of `a`
/// replaced by those of `a`.
pub open spec fn second_child(a: Seq<usize>, b: Seq<usize>, point: int) -> Seq<usize> {
    Seq::new(b.len(), |i: int| if point <= i < a.len() { a[i] } else { b[i] })
}

/// One-point crossover at `point`: the two children exchange the parents'
/// bits from `point` on.
pub fn one_point_crossover(
    parent1: &IndividualCoded,
    parent2: &IndividualCoded,
    point: usize,
) -> (children: (IndividualCoded, IndividualCoded))
    requires
        parent2.solution.len() >= parent1.solution.len(),
    ensures
        children.0.solution@ == first_child(parent1.solution@, parent2.solution@, point as int),
        children.1.solution@ == second_child(parent1.solution@, parent2.solution@, point as int),
{
    let mut child1_solution = copy_bits(&parent1.solution);
    let mut child2_solution = copy_bits(&parent2.solution);
    let mut i: usize = point;
    while i < parent1.solution.len()
        invariant
            parent2.solution.len() >= parent1.solution.len(),
            point <= i,
            i <= parent1.solution.len() || i == point,
            child1_solution@ == Seq::new(
                parent1.solution@.len(),
                |k: int| if point <= k < i { parent2.solution@[k] } else { parent1.solution@[k] },
            ),
            child2_solution@ == Seq::new(
                parent2.solution@.len(),
                |k: int| if point <= k < i { parent1.solution@[k] } else { parent2.solution@[k] },
            ),
        decreases parent1.solution.len() - i,
    {
        child1_solution.set(i, parent2.solution[i]);
        child2_solution.set(i, parent1.solution[i]);
        i += 1;
        assert(child1_solution@ =~= Seq::new(
            parent1.solution@.len(),
            |k: int| if point <= k < i { parent2.solution@[k] } else { parent1.solution@[k] },
        ));
        assert(child2_solution@ =~= Seq::new(
            parent2.solution@.len(),
            |k: int| if point <= k < i { parent1.solution@[k] } else { parent2.solution@[k] },
        ));
    }
    assert(child1_solution@ =~= first_child(parent1.solution@, parent2.solution@, point as int));
    assert(child2_solution@ =~= second_child(parent1.solution@, parent2.solution@, point as int));
    (IndividualCoded { solution: child1_solution }, IndividualCoded { solution: child2_solution })
}

/// One-point crossover at a crossover point drawn uniformly from the
/// positions of `parent1`.
pub fn crossover_binaria(
    parent1: &IndividualCoded,
    parent2: &IndividualCoded,
    rng: &mut StdRng,
) -> (children: (IndividualCoded, IndividualCoded))
    requires
        parent1.solution.len() > 0,
        parent2.solution.len() >= parent1.solution.len(),
    ensures
        exists|point: int|
            0 <= point < parent1.solution.len() && children.0.solution@ == first_child(
                parent1.solution@,
                parent2.solution@,
                point,
            ) && children.1.solution@ == second_child(parent1.solution@, parent2.solution@, point),
{
    let crossover_point = gen_index(rng, 0, parent1.solution.len());
    let children = one_point_crossover(parent1, parent2, crossover_point);
    assert(children.0.solution@ == first_child(
        parent1.solution@,
        parent2.solution@,
        crossover_point as int,
    ));
    children
}

/// Law: a one-point crossover of two parents of equal length, applied again
/// to the children at the same point, gives back the parents.
pub proof fn lemma_crossover_undoes_itself(a: Seq<usize>, b: Seq<usize>, point: int)
    requires
        a.len() == b.len(),
    ensures
        first_child(first_child(a, b, point), second_child(a, b, point), point) == a,
        second_child(first_child(a, b, point), second_child(a, b, point), point) == b,
{
    assert(first_child(first_child(a, b, point), second_child(a, b, point), point) =~= a);
    assert(second_child(first_child(a, b, point), second_child(a, b, point), point) =~= b);
}

/// Law: at every position the two children hold, together, the two bits
/// the parents held there; so children of bit-string parents are bit strings.
pub proof fn lemma_crossover_keeps_bits(a: Seq<usize>, b: Seq<usize>, point: int)
    requires
        a.len() == b.len(),
        all_bits(a),
        all_bits(b),
    ensures
        forall|i: int|
            0 <= i < a.len() ==> #[trigger] first_child(a, b, point)[i] + second_child(a, b, point)[i]
                == a[i] + b[i],
        all_bits(first_child(a, b, point)),
        all_bits(second_child(a, b, point)),
{
}

/// The bits of `s`, those marked in `flags` inverted.
pub open spec fn flipped(s: Seq<usize>, flags: Seq<bool>) -> Seq<usize> {
    Seq::new(s.len(), |i: int| if flags[i] { (1 - s[i]) as usize } else { s[i] })
}

/// Inverts the bits marked in `flags` (the mutation's per-bit outcomes);
/// every marked entry is a bit.
pub fn flip_bits(indiv_coded: &IndividualCoded, flags: &Vec<bool>) -> (r: IndividualCoded)
    requires
        flags.len() == indiv_coded.solution.len(),
        forall|i: int| 0 <= i < flags.len() && #[trigger] flags@[i] ==> indiv_coded.solution@[i] <= 1,
    ensures
        r.solution@ == flipped(indiv_coded.solution@, flags@),
        all_bits(indiv_coded.solution@) ==> all_bits(r.solution@),
{
    let mut sol = copy_bits(&indiv_coded.solution);
    let mut i: usize = 0;
    while i < sol.len()
        invariant
            flags.len() == indiv_coded.solution.len(),
            forall|i: int| 0 <= i < flags.len() && #[trigger] flags@[i] ==> indiv_coded.solution@[i] <= 1,
            sol.len() == indiv_coded.solution.len(),
            i <= sol.len(),
            sol@ == Seq::new(
                sol.len() as nat,
                |k: int|
                    if k < i && flags@[k] {
                        (1 - indiv_coded.solution@[k]) as usize
                    } else {
                        indiv_coded.solution@[k]
                    },
            ),
        decreases sol.len() - i,
    {
        if flags[i] {
            let v = 1 - sol[i];
            sol.set(i, v);
        }
        i += 1;
        assert(sol@ =~= Seq::new(
            sol.len() as nat,
            |k: int|
                if k < i && flags@[k] {
                    (1 - indiv_coded.solution@[k]) as usize
                } else {
                    indiv_coded.solution@[k]
                },
        ));
    }
    assert(sol@ =~= flipped(indiv_coded.solution@, flags@));
    IndividualCoded { solution: sol }
}

/// Law: inverting the same bits twice restores the individual.
pub proof fn lemma_flip_twice(s: Seq<usize>, flags: Seq<bool>)
    requires
        all_bits(s),
        flags.len() == s.len(),
    ensures
        flipped(flipped(s, flags), flags) == s,
{
    assert(flipped(flipped(s, flags), flags) =~= s);
}

/// 1 for the bit 1, 0 for any other entry.
pub open spec fn bit(x: usize) -> nat {
    if x == 1 { 1 } else { 0 }
}

/// The number a string of bits codes, most significant bit first.
pub open spec fn bits_value(s: Seq<usize>) -> nat
    decreases s.len(),
{
    if s.len() == 0 {
        0
    } else {
        2 * bits_value(s.drop_last()) + bit(s.last())
    }
}

/// The consecutive groups of `d` bits of `s` (a last group shorter than
/// `d` is left out).
pub open spec fn groups(s: Seq<usize>, d: nat) -> Seq<Seq<usize>>
    decreases s.len(),
{
    if d == 0 || s.len() < d {
        Seq::empty()
    } else {
        seq![s.take(d as int)] + groups(s.skip(d as int), d)
    }
}

/// The number a string of bits codes, as 64-bit digits, least significant
/// first: the last 64 bits, then the 64 before them, and so on (the first
/// digit may take fewer bits).
pub open spec fn limbs_of(s: Seq<usize>) -> Seq<u64>
    decreases s.len(),
{
    if s.len() == 0 {
        Seq::empty()
    } else if s.len() <= 64 {
        seq![bits_value(s) as u64]
    } else {
        seq![bits_value(s.skip(s.len() - 64)) as u64] + limbs_of(s.take(s.len() - 64))
    }
}

/// The number held by 64-bit digits, least significant first.
pub open spec fn limbs_value(l: Seq<u64>) -> nat
    decreases l.len(),
{
    if l.len() == 0 {
        0
    } else {
        (l[0] + pow2(64) * limbs_value(l.drop_first())) as nat
    }
}

/// The ten variables an individual codes: for each group of `digits` bits
/// the number it codes, as 64-bit digits; no digits for a variable past the
/// end.
pub open spec fn decoded_genes(s: Seq<usize>, digits: nat) -> Seq<Seq<u64>> {
    Seq::new(
        10,
        |g: int|
            if g < groups(s, digits).len() {
                limbs_of(groups(s, digits)[g])
            } else {
                Seq::empty()
            },
    )
}

/// The inputs `decode_genes` reads: whole groups of bits, and no 1 past the
/// tenth group.
pub open spec fn decodable(s: Seq<usize>, digits: nat) -> bool {
    s.len() == 0 || (digits > 0 && s.len() % digits == 0 && forall|i: int|
        10 * digits <= i < s.len() ==> #[trigger] s[i] != 1)
}

proof fn lemma_bits_value_bound(s: Seq<usize>)
    ensures
        bits_value(s) < pow2(s.len()),
    decreases s.len(),
{
    if s.len() > 0 {
        lemma_bits_value_bound(s.drop_last());
        lemma_pow2_unfold(s.len());
    } else {
        lemma2_to64();
    }
}

/// The value coded by `d` bits of `bits` starting at `start`.
fn gene_value(bits: &Vec<usize>, start: usize, d: usize) -> (v: u64)
    requires
        start + d <= bits.len(),
        d <= 64,
    ensures
        v == bits_value(bits@.subrange(start as int, start + d)),
{
    let mut v: u64 = 0;
    let mut k: usize = 0;
    while k < d
        invariant
            start + d <= bits.len(),
            d <= 64,
            k <= d,
            v == bits_value(bits@.subrange(start as int, start + k)),
        decreases d - k,
    {
        proof {
            lemma_bits_value_bound(bits@.subrange(start as int, start + k));
            if k < 63 {
                lemma_pow2_strictly_increases(k as nat, 63);
            }
            lemma_pow2_unfold(64);
            lemma2_to64();
        }
        let b: u64 = if bits[start + k] == 1 { 1 } else { 0 };
        let ghost prefix = bits@.subrange(start as int, start + k + 1);
        assert(prefix.drop_last() =~= bits@.subrange(start as int, start + k));
        v = 2 * v + b;
        k += 1;
    }
    v
}

proof fn lemma_bits_value_concat(a: Seq<usize>, b: Seq<usize>)
    ensures
        bits_value(a + b) == bits_value(a) * pow2(b.len()) + bits_value(b),
    decreases b.len(),
{
    if b.len() == 0 {
        assert(a + b =~= a);
        lemma2_to64();
    } else {
        let b1 = b.drop_last();
        assert((a + b).drop_last() =~= a + b1);
        assert((a + b).last() == b.last());
        lemma_bits_value_concat(a, b1);
        lemma_pow2_unfold(b.len());
        let x = bits_value(a);
        let p = pow2(b1.len());
        assert(2 * (x * p + bits_value(b1)) + bit(b.last()) == x * (2 * p) + (2 * bits_value(b1)
            + bit(b.last()))) by (nonlinear_arith);
    }
}

/// Law: the 64-bit digits hold, together, exactly the number the bits code.
pub proof fn lemma_limbs_value(s: Seq<usize>)
    ensures
        limbs_value(limbs_of(s)) == bits_value(s),
    decreases s.len(),
{
    lemma_pow2_unfold(64);
    lemma2_to64();
    if s.len() == 0 {
    } else if s.len() <= 64 {
        lemma_bits_value_bound(s);
        if s.len() < 64 {
            lemma_pow2_strictly_increases(s.len(), 64);
        }
        assert(limbs_of(s).drop_first() =~= Seq::<u64>::empty());
        assert(limbs_value(Seq::<u64>::empty()) == 0);
        assert(limbs_of(s)[0] == bits_value(s));
        assert(limbs_value(limbs_of(s)) == limbs_of(s)[0] + pow2(64) * limbs_value(limbs_of(s).drop_first()));
    } else {
        let hi = s.take(s.len() - 64);
        let lo = s.skip(s.len() - 64);
        assert(hi + lo =~= s);
        lemma_bits_value_concat(hi, lo);
        lemma_bits_value_bound(lo);
        lemma_limbs_value(hi);
        assert(limbs_of(s).drop_first() =~= limbs_of(hi));
        assert(limbs_of(s)[0] == bits_value(lo));
        assert(limbs_value(limbs_of(s)) == limbs_of(s)[0] + pow2(64) * limbs_value(limbs_of(s).drop_first()));
        assert(bits_value(hi) * pow2(64) == pow2(64) * bits_value(hi)) by (nonlinear_arith);
    }
}

/// The number coded by `bits[start..end]`, as 64-bit digits.
fn group_limbs(bits: &Vec<usize>, start: usize, end: usize) -> (limbs: Vec<u64>)
    requires
        start <= end <= bits.len(),
    ensures
        limbs@ == limbs_of(bits@.subrange(start as int, end as int)),
{
    let ghost whole = bits@.subrange(start as int, end as int);
    let mut limbs: Vec<u64> = Vec::new();
    let mut e: usize = end;
    while e > start
        invariant
            start <= e <= end <= bits.len(),
            whole == bits@.subrange(start as int, end as int),
            limbs_of(whole) == limbs@ + limbs_of(bits@.subrange(start as int, e as int)),
        decreases e - start,
    {
        let w: usize = if e - start > 64 { 64 } else { e - start };
        let v = gene_value(bits, e - w, w);
        proof {
            let part = bits@.subrange(start as int, e as int);
            if e - start > 64 {
                assert(part.skip(part.len() - 64) =~= bits@.subrange(e - 64, e as int));
                assert(part.take(part.len() - 64) =~= bits@.subrange(start as int, e - 64));
            } else {
                assert(part =~= bits@.subrange(e - w, e as int));
                assert(bits@.subrange(start as int, start as int) =~= Seq::<usize>::empty());
            }
            assert(limbs@.push(v) + limbs_of(bits@.subrange(start as int, e - w)) =~= limbs@ + limbs_of(part));
        }
        limbs.push(v);
        e -= w;
    }
    assert(limbs@ + limbs_of(bits@.subrange(start as int, start as int)) =~= limbs@) by {
        assert(bits@.subrange(start as int, start as int) =~= Seq::<usize>::empty());
    }
    limbs
}

/// The ten variables an individual codes: for each consecutive group of
/// `digits` bits, most significant bit first (a bit counts when it is 1), the
/// number it codes as 64-bit digits, least significant first. Groups past
/// the tenth are not read; a variable past the end has no digits (value 0).
pub fn decode_genes(indiv_coded: &IndividualCoded, digits: usize) -> (genes: Vec<Vec<u64>>)
    requires
        decodable(indiv_coded.solution@, digits as nat),
    ensures
        genes.len() == 10,
        forall|g: int| 0 <= g < 10 ==> (#[trigger] genes@[g])@ == decoded_genes(indiv_coded.solution@, digits as nat)[g],
{
    let ghost s = indiv_coded.solution@;
    let n = indiv_coded.solution.len();
    let mut genes: Vec<Vec<u64>> = Vec::new();
    let ghost mut done: Seq<Seq<usize>> = Seq::empty();
    let mut start: usize = 0;
    proof {
        assert(s.skip(0) =~= s);
    }
    while genes.len() < 10 && digits > 0 && n - start >= digits
        invariant
            s == indiv_coded.solution@,
            n == s.len(),
            start <= n,
            genes.len() <= 10,
            genes.len() == done.len(),
            groups(s, digits as nat) == done + groups(s.skip(start as int), digits as nat),
            forall|k: int| 0 <= k < genes.len() ==> (#[trigger] genes@[k])@ == limbs_of(done[k]),
        decreases n - start,
    {
        let limbs = group_limbs(&indiv_coded.solution, start, start + digits);
        proof {
            let rest = s.skip(start as int);
            assert(rest.take(digits as int) =~= s.subrange(start as int, start + digits));
            assert(rest.skip(digits as int) =~= s.skip(start + digits));
            done = done.push(s.subrange(start as int, start + digits));
            assert(groups(s, digits as nat) =~= done + groups(s.skip(start + digits), digits as nat));
        }
        genes.push(limbs);
        start += digits;
    }
    let ghost computed = genes.len();
    proof {
        if computed < 10 {
            if digits > 0 {
                assert(groups(s.skip(start as int), digits as nat) =~= Seq::<Seq<usize>>::empty());
            } else {
                assert(groups(s, 0) =~= Seq::<Seq<usize>>::empty());
            }
            assert(groups(s, digits as nat) =~= done);
        }
    }
    while genes.len() < 10
        invariant
            computed <= genes.len() <= 10,
            computed == done.len(),
            computed < 10 ==> groups(s, digits as nat) == done,
            groups(s, digits as nat).len() >= done.len(),
            groups(s, digits as nat).take(done.len() as int) == done,
            forall|k: int| 0 <= k < computed ==> (#[trigger] genes@[k])@ == limbs_of(done[k]),
            forall|k: int| computed <= k < genes.len() ==> (#[trigger] genes@[k])@ == Seq::<u64>::empty(),
        decreases 10 - genes.len(),
    {
        genes.push(Vec::new());
    }
    proof {
        assert forall|g: int| 0 <= g < 10 implies (#[trigger] genes@[g])@ == decoded_genes(s, digits as nat)[g] by {
            if g < computed {
                assert(groups(s, digits as nat)[g] == done[g]);
            }
        }
    }
    genes
}

/// Ranks the population by `keys` (one per individual, smaller first), ties
/// kept in population order.
pub fn ordering_pop_coded(population: &mut Vec<IndividualCoded>, keys: &Vec<u64>)
    requires
        keys.len() == old(population).len(),
    ensures
        final(population).len() == old(population).len(),
        exists|order: Seq<usize>|
            is_stable_order(keys@, order) && forall|i: int|
                0 <= i < order.len() ==> (#[trigger] final(population)@[i]).solution@ == old(
                    population,
                )@[order[i] as int].solution@,
{
    let order = stable_order(keys);
    let mut sorted_population: Vec<IndividualCoded> = Vec::new();
    let mut k: usize = 0;
    while k < order.len()
        invariant
            keys.len() == population.len(),
            is_stable_order(keys@, order@),
            k <= order.len(),
            sorted_population.len() == k,
            forall|i: int|
                0 <= i < k ==> (#[trigger] sorted_population@[i]).solution@
                    == population@[order@[i] as int].solution@,
        decreases order.len() - k,
    {
        let copy = population[order[k]].duplicate();
        sorted_population.push(copy);
        k += 1;
    }
    let ghost old_pop = population@;
    *population = sorted_population;
    assert(is_stable_order(keys@, order@) && forall|i: int|
        0 <= i < order@.len() ==> (#[trigger] population@[i]).solution@
            == old_pop[order@[i] as int].solution@);
}


/// Brings the offspring to `pop_size` individuals: copies of `best` are
/// appended while there are too few, the last ones dropped while there are
/// too many.
pub fn fill_to_size(offspring: &mut Vec<IndividualCoded>, best: &IndividualCoded, pop_size: usize)
    ensures
        final(offspring).len() == pop_size,
        forall|i: int|
            0 <= i < pop_size && i < old(offspring).len() ==> (#[trigger] final(offspring)@[i])
                == old(offspring)@[i],
        forall|i: int|
            old(offspring).len() <= i < pop_size ==> (#[trigger] final(offspring)@[i]).solution@
                == best.solution@,
{
    let ghost o = offspring@;
    while offspring.len() < pop_size
        invariant
            o.len() <= offspring.len() <= pop_size || offspring.len() == o.len(),
            forall|i: int| 0 <= i < o.len() && i < offspring.len() ==> #[trigger] offspring@[i] == o[i],
            forall|i: int|
                o.len() <= i < offspring.len() ==> (#[trigger] offspring@[i]).solution@
                    == best.solution@,
        decreases pop_size - offspring.len(),
    {
        offspring.push(best.duplicate());
    }
    while offspring.len() > pop_size
        invariant
            offspring.len() >= pop_size,
            offspring.len() <= o.len() || offspring.len() == pop_size,
            forall|i: int| 0 <= i < o.len() && i < offspring.len() ==> #[trigger] offspring@[i] == o[i],
            forall|i: int|
                o.len() <= i < offspring.len() ==> (#[trigger] offspring@[i]).solution@
                    == best.solution@,
        decreases offspring.len(),
    {
        offspring.pop();
    }
}

/// Elitist replacement. The ranked offspring become the population; when
/// the best offspring (key `offspring_best_key`) beats the best solution so
/// far (key `best_key`; smaller is better) it becomes the new best,
/// otherwise the best so far replaces the last offspring. Returns the
/// population, the best solution and its key.
pub fn replace_generation(
    offspring: Vec<IndividualCoded>,
    best: IndividualCoded,
    best_key: u64,
    offspring_best_key: u64,
) -> (res: (Vec<IndividualCoded>, IndividualCoded, u64))
    requires
        offspring.len() > 0,
    ensures
        offspring_best_key < best_key ==> res.0@ == offspring@ && res.1.solution@
            == offspring@[0].solution@ && res.2 == offspring_best_key,
        !(offspring_best_key < best_key) ==> res.0.len() == offspring.len() && (forall|i: int|
            0 <= i < offspring.len() - 1 ==> #[trigger] res.0@[i] == offspring@[i])
            && res.0@[offspring.len() - 1].solution@ == best.solution@ && res.1 == best && res.2
            == best_key,
        res.2 <= best_key,
        exists|i: int| 0 <= i < res.0.len() && (#[trigger] res.0@[i]).solution@ == res.1.solution@,
{
    if offspring_best_key < best_key {
        let new_best = offspring[0].duplicate();
        let res = (offspring, new_best, offspring_best_key);
        assert(res.0@[0].solution@ == res.1.solution@);
        res
    } else {
        let mut pop = offspring;
        let ultimo = pop.len() - 1;
        pop.set(ultimo, best.duplicate());
        let res = (pop, best, best_key);
        assert(res.0@[ultimo as int].solution@ == res.1.solution@);
        res
    }
}

} // verus!
