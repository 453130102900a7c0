//! The population of genomes and its evolution: one epoch pairs the genomes
//! under a random permutation, runs each pair on the tape machine, and writes
//! the two halves of the resulting tape back.

use vstd::prelude::*;
use crate::machine::{BFFRun, MState, run_model, lemma_run_model_preserves};
use crate::rng::{random_byte, shuffle_indices};

verus! {

/// One genome: a fixed-length byte sequence, both program text and data.
pub struct Program {
    pub genome: Vec<u8>,
}

impl Program {
    /// A fresh genome of `len` uniform random bytes.
    pub fn random(rng: &mut rand::rngs::StdRng, len: usize) -> (p: Program)
        ensures
            p.genome@.len() == len,
    {
        let mut genome: Vec<u8> = Vec::new();
        let mut i: usize = 0;
        while i < len
            invariant
                genome@.len() == i <= len,
            decreases len - i,
        {
            genome.push(random_byte(rng));
            i = i + 1;
        }
        Program { genome }
    }
}

/// A configuration the simulation refuses before any work starts.
#[derive(Clone, Copy, Debug, PartialEq, Eq, Structural)]
pub enum ConfigError {
    OddPopulationSize,
    ZeroGenomeLength,
}

/// The population: `n` genomes of length `genome_len` each, paired and run
/// for `max_steps` machine steps per pairing.
pub struct Population {
    pub genomes: Vec<Program>,
    pub genome_len: usize,
    pub max_steps: usize,
}

/// Append the bytes of `src` to `dst`.
fn append_bytes(dst: &mut Vec<u8>, src: &Vec<u8>)
    ensures
        final(dst)@ == old(dst)@ + src@,
{
    let n = src.len();
    let mut i: usize = 0;
    while i < n
        invariant
            n == src@.len(),
            i <= n,
            dst@ =~= old(dst)@ + src@.take(i as int),
        decreases n - i,
    {
        dst.push(src[i]);
        proof {
            assert(src@.take(i as int + 1) =~= src@.take(i as int).push(src@[i as int]));
        }
        i = i + 1;
    }
    proof {
        assert(src@.take(n as int) =~= src@);
    }
}

/// The first `l` bytes of `v`.
fn prefix_bytes(v: &Vec<u8>, l: usize) -> (r: Vec<u8>)
    requires
        l <= v@.len(),
    ensures
        r@ == v@.take(l as int),
{
    let mut r: Vec<u8> = Vec::new();
    let mut i: usize = 0;
    while i < l
        invariant
            l <= v@.len(),
            i <= l,
            r@ =~= v@.take(i as int),
        decreases l - i,
    {
        r.push(v[i]);
        proof {
            assert(v@.take(i as int + 1) =~= v@.take(i as int).push(v@[i as int]));
        }
        i = i + 1;
    }
    r
}

/// The bytes of `v` from index `l` on.
fn suffix_bytes(v: &Vec<u8>, l: usize) -> (r: Vec<u8>)
    requires
        l <= v@.len(),
    ensures
        r@ == v@.skip(l as int),
{
    let n = v.len();
    let mut r: Vec<u8> = Vec::new();
    let mut i: usize = l;
    while i < n
        invariant
            n == v@.len(),
            l <= i <= n,
            r@ =~= v@.subrange(l as int, i as int),
        decreases n - i,
    {
        r.push(v[i]);
        proof {
            assert(v@.subrange(l as int, i as int + 1) =~= v@.subrange(l as int, i as int).push(
                v@[i as int],
            ));
        }
        i = i + 1;
    }
    proof {
        assert(v@.subrange(l as int, n as int) =~= v@.skip(l as int));
    }
    r
}

impl Population {
    /// The genomes as a sequence of byte sequences.
    pub open spec fn model(self) -> Seq<Seq<u8>> {
        Seq::new(self.genomes@.len(), |i: int| self.genomes@[i].genome@)
    }

    /// Population invariant: an even number of slots, each holding exactly
    /// `genome_len` bytes, with `genome_len` at least 1.
    pub open spec fn wf(self) -> bool {
        &&& self.genome_len >= 1
        &&& self.genomes@.len() % 2 == 0
        &&& forall|i: int|
            0 <= i < self.genomes@.len() ==> self.genomes@[i].genome@.len() == self.genome_len
    }

    /// A population of `n` uniform random genomes of length `genome_len`.
    /// An odd `n` and a zero `genome_len` are configuration errors, refused
    /// before any genome is drawn.
    pub fn new(n: usize, genome_len: usize, max_steps: usize, rng: &mut rand::rngs::StdRng) -> (r:
        Result<Population, ConfigError>)
        ensures
            r is Ok <==> (n % 2 == 0 && genome_len >= 1),
            match r {
                Ok(p) => {
                    &&& p.wf()
                    &&& p.model().len() == n
                    &&& p.genome_len == genome_len
                    &&& p.max_steps == max_steps
                },
                Err(e) => {
                    &&& (e == ConfigError::OddPopulationSize <==> n % 2 != 0)
                    &&& (e == ConfigError::ZeroGenomeLength <==> (n % 2 == 0 && genome_len == 0))
                },
            },
    {
        if n % 2 != 0 {
            return Err(ConfigError::OddPopulationSize);
        }
        if genome_len == 0 {
            return Err(ConfigError::ZeroGenomeLength);
        }
        let mut genomes: Vec<Program> = Vec::new();
        let mut i: usize = 0;
        while i < n
            invariant
                genomes@.len() == i <= n,
                forall|k: int| 0 <= k < i ==> genomes@[k].genome@.len() == genome_len,
            decreases n - i,
        {
            let p = Program::random(rng, genome_len);
            genomes.push(p);
            i = i + 1;
        }
        Ok(Population { genomes, genome_len, max_steps })
    }

    /// The whole population flattened into one byte sequence, genome 0 first.
    pub fn flatten(&self) -> (r: Vec<u8>)
        ensures
            r@ == flat_model(self.model(), self.model().len() as int),
    {
        let mut r: Vec<u8> = Vec::new();
        let n = self.genomes.len();
        let mut i: usize = 0;
        while i < n
            invariant
                n == self.genomes@.len(),
                i <= n,
                r@ == flat_model(self.model(), i as int),
            decreases n - i,
        {
            append_bytes(&mut r, &self.genomes[i].genome);
            proof {
                assert(self.model()[i as int] == self.genomes@[i as int].genome@);
            }
            i = i + 1;
        }
        r
    }
}

/// The tape written by one pairing: `a` and `b` laid end to end, run with
/// head0 at 0, head1 at the start of `b`, pc at 0, and the given budget.
pub open spec fn run_pair(a: Seq<u8>, b: Seq<u8>, budget: nat) -> Seq<u8> {
    run_model(
        MState { tape: a + b, head0: 0, head1: a.len() as int, pc: 0, skipped: 0 },
        0,
        budget,
    ).0.tape
}

/// `p` lists each index below its length exactly once.
pub open spec fn is_permutation(p: Seq<usize>) -> bool {
    &&& forall|i: int| 0 <= i < p.len() ==> (p[i] as int) < p.len()
    &&& forall|i: int, j: int| 0 <= i < j < p.len() ==> p[i] != p[j]
}

/// The population after the first `t` disjoint pairs of the permutation have
/// been run and written back: pair `t` joins the slots at `perm[2t]` and
/// `perm[2t + 1]`, and each gets one half of the resulting tape.
pub open spec fn pairs_model(pop: Seq<Seq<u8>>, perm: Seq<usize>, l: int, budget: nat, t: int) -> Seq<
    Seq<u8>,
>
    decreases t,
{
    if t <= 0 {
        pop
    } else {
        let prev = pairs_model(pop, perm, l, budget, t - 1);
        let i = perm[2 * (t - 1)] as int;
        let j = perm[2 * (t - 1) + 1] as int;
        let res = run_pair(prev[i], prev[j], budget);
        prev.update(i, res.take(l)).update(j, res.skip(l))
    }
}

/// One whole epoch under a given permutation.
pub open spec fn epoch_model(pop: Seq<Seq<u8>>, perm: Seq<usize>, l: int, budget: nat) -> Seq<
    Seq<u8>,
> {
    pairs_model(pop, perm, l, budget, (perm.len() / 2) as int)
}

impl Population {
    /// One epoch under an explicitly given permutation of the slot indices:
    /// the permutation is split into disjoint adjacent pairs, every pair is
    /// run on the tape machine, and both halves of each resulting tape are
    /// written back. Each slot is touched by exactly one pairing.
    pub fn epoch_with_permutation(&mut self, perm: &Vec<usize>)
        requires
            old(self).wf(),
            perm@.len() == old(self).genomes@.len(),
            is_permutation(perm@),
        ensures
            final(self).wf(),
            final(self).genome_len == old(self).genome_len,
            final(self).max_steps == old(self).max_steps,
            final(self).model().len() == old(self).model().len(),
            final(self).model() == epoch_model(
                old(self).model(),
                perm@,
                old(self).genome_len as int,
                old(self).max_steps as nat,
            ),
    {
        let ghost init = old(self).model();
        let ghost l = old(self).genome_len as int;
        let ghost budget = old(self).max_steps as nat;
        let n = self.genomes.len();
        let half = n / 2;
        let mut t: usize = 0;
        while t < half
            invariant
                self.wf(),
                self.genomes@.len() == n,
                self.genome_len as int == l,
                self.max_steps as nat == budget,
                half == n / 2,
                t <= half,
                n % 2 == 0,
                perm@.len() == n,
                is_permutation(perm@),
                init.len() == n,
                self.model() == pairs_model(init, perm@, l, budget, t as int),
            decreases half - t,
        {
            let ghost prev = self.model();
            let i = perm[2 * t];
            let j = perm[2 * t + 1];
            proof {
                assert((perm@[2 * t as int] as int) < n);
                assert((perm@[2 * t as int + 1] as int) < n);
                assert(perm@[2 * t as int] != perm@[2 * t as int + 1]);
            }
            let mut tape: Vec<u8> = Vec::new();
            append_bytes(&mut tape, &self.genomes[i].genome);
            append_bytes(&mut tape, &self.genomes[j].genome);
            proof {
                assert(tape@ =~= self.genomes@[i as int].genome@ + self.genomes@[j as int].genome@);
                assert(prev[i as int] == self.genomes@[i as int].genome@);
                assert(prev[j as int] == self.genomes@[j as int].genome@);
            }
            let runner = BFFRun::new(tape, 0, self.genome_len, 0, self.max_steps);
            let ghost rs = MState {
                tape: prev[i as int] + prev[j as int],
                head0: 0,
                head1: l,
                pc: 0,
                skipped: 0,
            };
            proof {
                assert(runner.mstate() == rs);
                lemma_run_model_preserves(rs, 0, budget);
            }
            let done = runner.emulate();
            proof {
                assert(done.tape@ == run_pair(prev[i as int], prev[j as int], budget));
                assert(done.tape@.len() == 2 * l);
            }
            let first = prefix_bytes(&done.tape, self.genome_len);
            let second = suffix_bytes(&done.tape, self.genome_len);
            self.genomes.set(i, Program { genome: first });
            self.genomes.set(j, Program { genome: second });
            proof {
                let res = run_pair(prev[i as int], prev[j as int], budget);
                assert(self.model() =~= prev.update(i as int, res.take(l)).update(
                    j as int,
                    res.skip(l),
                ));
                assert(self.model() == pairs_model(init, perm@, l, budget, t as int + 1));
            }
            t = t + 1;
        }
        proof {
            assert(t as int == (perm@.len() / 2) as int);
        }
    }
}

proof fn lemma_pairs_model_len(pop: Seq<Seq<u8>>, perm: Seq<usize>, l: int, budget: nat, t: int)
    requires
        is_permutation(perm),
        pop.len() == perm.len(),
        2 * t <= perm.len(),
    ensures
        pairs_model(pop, perm, l, budget, t).len() == pop.len(),
    decreases t,
{
    if t > 0 {
        assert((perm[2 * (t - 1)] as int) < perm.len());
        assert((perm[2 * (t - 1) + 1] as int) < perm.len());
        lemma_pairs_model_len(pop, perm, l, budget, t - 1);
    }
}

/// A slot named by none of the first `2t` permutation entries is left alone
/// by the first `t` pairings.
proof fn lemma_pairs_model_untouched(
    pop: Seq<Seq<u8>>,
    perm: Seq<usize>,
    l: int,
    budget: nat,
    t: int,
    k: int,
)
    requires
        is_permutation(perm),
        pop.len() == perm.len(),
        0 <= 2 * t <= perm.len(),
        0 <= k < pop.len(),
        forall|q: int| 0 <= q < 2 * t ==> (perm[q] as int) != k,
    ensures
        pairs_model(pop, perm, l, budget, t)[k] == pop[k],
    decreases t,
{
    if t > 0 {
        assert((perm[2 * (t - 1)] as int) != k);
        assert((perm[2 * (t - 1) + 1] as int) != k);
        assert((perm[2 * (t - 1)] as int) < perm.len());
        assert((perm[2 * (t - 1) + 1] as int) < perm.len());
        lemma_pairs_model_len(pop, perm, l, budget, t - 1);
        lemma_pairs_model_untouched(pop, perm, l, budget, t - 1, k);
    }
}

proof fn lemma_pairs_model_pair_result(
    pop: Seq<Seq<u8>>,
    perm: Seq<usize>,
    l: int,
    budget: nat,
    q: int,
    t: int,
)
    requires
        is_permutation(perm),
        pop.len() == perm.len(),
        0 <= q < t,
        2 * t <= perm.len(),
    ensures
        pairs_model(pop, perm, l, budget, t)[perm[2 * q] as int] == run_pair(
            pop[perm[2 * q] as int],
            pop[perm[2 * q + 1] as int],
            budget,
        ).take(l),
        pairs_model(pop, perm, l, budget, t)[perm[2 * q + 1] as int] == run_pair(
            pop[perm[2 * q] as int],
            pop[perm[2 * q + 1] as int],
            budget,
        ).skip(l),
    decreases t,
{
    let i = perm[2 * q] as int;
    let j = perm[2 * q + 1] as int;
    assert(perm[2 * q] != perm[2 * q + 1]);
    assert(i < perm.len() && j < perm.len());
    lemma_pairs_model_len(pop, perm, l, budget, t - 1);
    lemma_pairs_model_len(pop, perm, l, budget, q);
    if t == q + 1 {
        assert forall|m: int| 0 <= m < 2 * q implies (perm[m] as int) != i by {
            assert(perm[m] != perm[2 * q]);
        }
        assert forall|m: int| 0 <= m < 2 * q implies (perm[m] as int) != j by {
            assert(perm[m] != perm[2 * q + 1]);
        }
        assert(0 <= i < pop.len() && 0 <= j < pop.len());
        lemma_pairs_model_untouched(pop, perm, l, budget, q, i);
        lemma_pairs_model_untouched(pop, perm, l, budget, q, j);
    } else {
        lemma_pairs_model_pair_result(pop, perm, l, budget, q, t - 1);
        assert(perm[2 * (t - 1)] != perm[2 * q]);
        assert(perm[2 * (t - 1)] != perm[2 * q + 1]);
        assert(perm[2 * (t - 1) + 1] != perm[2 * q]);
        assert(perm[2 * (t - 1) + 1] != perm[2 * q + 1]);
    }
}

/// Disjoint pairing: under a valid permutation, every slot is rewritten by
/// exactly one pairing, and what it receives is computed from the population
/// as it stood before the epoch: slot `perm[2q]` gets the first half and slot
/// `perm[2q + 1]` the second half of the tape their own pairing produced.
pub proof fn lemma_epoch_writes_each_slot_once(
    pop: Seq<Seq<u8>>,
    perm: Seq<usize>,
    l: int,
    budget: nat,
    q: int,
)
    requires
        is_permutation(perm),
        pop.len() == perm.len(),
        perm.len() % 2 == 0,
        0 <= q < perm.len() / 2,
    ensures
        epoch_model(pop, perm, l, budget)[perm[2 * q] as int] == run_pair(
            pop[perm[2 * q] as int],
            pop[perm[2 * q + 1] as int],
            budget,
        ).take(l),
        epoch_model(pop, perm, l, budget)[perm[2 * q + 1] as int] == run_pair(
            pop[perm[2 * q] as int],
            pop[perm[2 * q + 1] as int],
            budget,
        ).skip(l),
{
    lemma_pairs_model_pair_result(pop, perm, l, budget, q, (perm.len() / 2) as int);
}

/// The population after one epoch for each permutation in `perms`, applied
/// in order.
pub open spec fn epochs_model(pop: Seq<Seq<u8>>, perms: Seq<Seq<usize>>, l: int, budget: nat) -> Seq<
    Seq<u8>,
>
    decreases perms.len(),
{
    if perms.len() == 0 {
        pop
    } else {
        epoch_model(epochs_model(pop, perms.drop_last(), l, budget), perms.last(), l, budget)
    }
}

/// The permutation 0, 1, ..., n-1.
fn identity_permutation(n: usize) -> (r: Vec<usize>)
    ensures
        r@.len() == n,
        forall|i: int| 0 <= i < n ==> r@[i] == i,
{
    let mut r: Vec<usize> = Vec::new();
    let mut i: usize = 0;
    while i < n
        invariant
            r@.len() == i <= n,
            forall|k: int| 0 <= k < i ==> r@[k] == k,
        decreases n - i,
    {
        r.push(i);
        i = i + 1;
    }
    r
}

/// A sequence with the same element multiset as the identity permutation is
/// itself a permutation.
proof fn lemma_same_multiset_as_identity_is_permutation(p: Seq<usize>, id: Seq<usize>)
    requires
        id.len() == p.len(),
        forall|i: int| 0 <= i < id.len() ==> (id[i] as int) == i,
        p.to_multiset() == id.to_multiset(),
    ensures
        is_permutation(p),
{
    broadcast use vstd::seq_lib::group_to_multiset_ensures;

    assert(id.no_duplicates());
    id.lemma_multiset_has_no_duplicates();
    p.lemma_multiset_has_no_duplicates_conv();
    assert forall|i: int| 0 <= i < p.len() implies (p[i] as int) < p.len() by {
        assert(p.contains(p[i]));
        assert(p.to_multiset().count(p[i]) > 0);
        assert(id.contains(p[i]));
        let k = choose|k: int| 0 <= k < id.len() && id[k] == p[i];
        assert((p[i] as int) == k);
    }
    assert(p.no_duplicates());
}

impl Population {
    /// One epoch under a freshly drawn uniform random permutation: whatever
    /// order the random source produced, the slots evolve by `epoch_model`
    /// under some valid permutation, and the population invariant holds on.
    pub fn epoch(&mut self, rng: &mut rand::rngs::StdRng)
        requires
            old(self).wf(),
        ensures
            final(self).wf(),
            final(self).genome_len == old(self).genome_len,
            final(self).max_steps == old(self).max_steps,
            final(self).model().len() == old(self).model().len(),
            exists|p: Seq<usize>|
                is_permutation(p) && p.len() == old(self).model().len() && final(self).model()
                    == epoch_model(
                    old(self).model(),
                    p,
                    old(self).genome_len as int,
                    old(self).max_steps as nat,
                ),
    {
        let n = self.genomes.len();
        let mut order = identity_permutation(n);
        let ghost id = order@;
        shuffle_indices(&mut order, rng);
        proof {
            lemma_same_multiset_as_identity_is_permutation(order@, id);
        }
        self.epoch_with_permutation(&order);
        proof {
            assert(is_permutation(order@) && order@.len() == old(self).model().len()
                && final(self).model() == epoch_model(
                old(self).model(),
                order@,
                old(self).genome_len as int,
                old(self).max_steps as nat,
            ));
        }
    }

    /// Population invariants over a whole run: after any number of epochs the
    /// population still holds the same number of slots and every genome still
    /// holds exactly `genome_len` bytes.
    pub fn run_epochs(&mut self, num_epochs: usize, rng: &mut rand::rngs::StdRng)
        requires
            old(self).wf(),
        ensures
            final(self).wf(),
            final(self).genome_len == old(self).genome_len,
            final(self).max_steps == old(self).max_steps,
            final(self).model().len() == old(self).model().len(),
            forall|i: int|
                0 <= i < final(self).model().len() ==> final(self).model()[i].len()
                    == old(self).genome_len,
            exists|ps: Seq<Seq<usize>>|
                {
                    &&& ps.len() == num_epochs
                    &&& forall|k: int|
                        0 <= k < ps.len() ==> is_permutation(ps[k]) && ps[k].len() == old(
                            self,
                        ).model().len()
                    &&& final(self).model() == epochs_model(
                        old(self).model(),
                        ps,
                        old(self).genome_len as int,
                        old(self).max_steps as nat,
                    )
                },
    {
        let ghost init = old(self).model();
        let ghost n = old(self).model().len();
        let ghost l = old(self).genome_len as int;
        let ghost budget = old(self).max_steps as nat;
        let ghost mut perms: Seq<Seq<usize>> = Seq::empty();
        let mut e: usize = 0;
        while e < num_epochs
            invariant
                self.wf(),
                self.genome_len == old(self).genome_len,
                self.max_steps == old(self).max_steps,
                self.model().len() == n,
                init == old(self).model(),
                n == init.len(),
                l == old(self).genome_len as int,
                budget == old(self).max_steps as nat,
                e <= num_epochs,
                perms.len() == e,
                forall|k: int| 0 <= k < perms.len() ==> is_permutation(perms[k]) && perms[k].len() == n,
                self.model() == epochs_model(init, perms, l, budget),
            decreases num_epochs - e,
        {
            let ghost prev = self.model();
            self.epoch(rng);
            proof {
                let p = choose|p: Seq<usize>|
                    is_permutation(p) && p.len() == prev.len() && self.model() == epoch_model(
                        prev,
                        p,
                        l,
                        budget,
                    );
                let perms2 = perms.push(p);
                assert(perms2.drop_last() =~= perms);
                assert(perms2.last() == p);
                assert(epochs_model(init, perms2, l, budget) == epoch_model(
                    epochs_model(init, perms, l, budget),
                    p,
                    l,
                    budget,
                ));
                perms = perms2;
            }
            e = e + 1;
        }
        proof {
            assert(perms.len() == num_epochs);
            assert(forall|k: int|
                0 <= k < perms.len() ==> is_permutation(perms[k]) && perms[k].len() == old(
                    self,
                ).model().len());
            assert(self.model() == epochs_model(
                old(self).model(),
                perms,
                old(self).genome_len as int,
                old(self).max_steps as nat,
            ));
        }
    }
}

/// The first `k` genomes of `pop` laid end to end.
pub open spec fn flat_model(pop: Seq<Seq<u8>>, k: int) -> Seq<u8>
    decreases k,
{
    if k <= 0 {
        Seq::empty()
    } else {
        flat_model(pop, k - 1) + pop[k - 1]
    }
}

} // verus!
