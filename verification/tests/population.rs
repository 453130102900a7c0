use bff::machine::BFFRun;
use bff::population::{ConfigError, Population, Program};
use rand::rngs::StdRng;
use rand::SeedableRng;

fn program(bytes: &[u8]) -> Program {
    Program { genome: bytes.to_vec() }
}

#[test]
fn odd_population_size_is_refused() {
    let mut rng = StdRng::seed_from_u64(42);
    let r = Population::new(5, 8, 128, &mut rng);
    assert!(matches!(r, Err(ConfigError::OddPopulationSize)));
}

#[test]
fn zero_genome_length_is_refused() {
    let mut rng = StdRng::seed_from_u64(42);
    let r = Population::new(4, 0, 128, &mut rng);
    assert!(matches!(r, Err(ConfigError::ZeroGenomeLength)));
}

#[test]
fn new_population_has_n_genomes_of_length_l() {
    let mut rng = StdRng::seed_from_u64(42);
    let p = Population::new(6, 5, 128, &mut rng).unwrap();
    assert_eq!(p.genomes.len(), 6);
    assert!(p.genomes.iter().all(|g| g.genome.len() == 5));
}

#[test]
fn random_program_has_requested_length() {
    let mut rng = StdRng::seed_from_u64(42);
    let p = Program::random(&mut rng, 32);
    assert_eq!(p.genome.len(), 32);
}

#[test]
fn fixed_permutation_pairs_and_rewrites_every_slot() {
    // One epoch under the permutation [2, 0, 3, 1] pairs slots (2, 0) and
    // (3, 1); every slot is rewritten from its own pairing alone.
    let g0 = b"+>+>";
    let g1 = b"->->";
    let g2 = b".,.,";
    let g3 = b"}{+-";
    let mut pop = Population {
        genomes: vec![program(g0), program(g1), program(g2), program(g3)],
        genome_len: 4,
        max_steps: 128,
    };
    pop.epoch_with_permutation(&vec![2, 0, 3, 1]);

    let mut tape20 = g2.to_vec();
    tape20.extend_from_slice(g0);
    let done20 = BFFRun::new(tape20, 0, 4, 0, 128).emulate();
    let mut tape31 = g3.to_vec();
    tape31.extend_from_slice(g1);
    let done31 = BFFRun::new(tape31, 0, 4, 0, 128).emulate();

    assert_eq!(pop.genomes[2].genome, done20.tape[0..4].to_vec());
    assert_eq!(pop.genomes[0].genome, done20.tape[4..8].to_vec());
    assert_eq!(pop.genomes[3].genome, done31.tape[0..4].to_vec());
    assert_eq!(pop.genomes[1].genome, done31.tape[4..8].to_vec());
}

#[test]
fn random_epoch_applies_one_of_the_possible_pairings() {
    // With two slots the drawn permutation is [0, 1] or [1, 0], so the
    // population after one epoch must match one of the two pairings exactly.
    let g0 = b"+}+{";
    let g1 = b">.<,";
    let mut pop = Population {
        genomes: vec![program(g0), program(g1)],
        genome_len: 4,
        max_steps: 128,
    };
    let mut rng = StdRng::seed_from_u64(42);
    pop.epoch(&mut rng);

    let mut tape01 = g0.to_vec();
    tape01.extend_from_slice(g1);
    let done01 = BFFRun::new(tape01, 0, 4, 0, 128).emulate();
    let mut tape10 = g1.to_vec();
    tape10.extend_from_slice(g0);
    let done10 = BFFRun::new(tape10, 0, 4, 0, 128).emulate();

    let got = (pop.genomes[0].genome.clone(), pop.genomes[1].genome.clone());
    let if01 = (done01.tape[0..4].to_vec(), done01.tape[4..8].to_vec());
    let if10 = (done10.tape[4..8].to_vec(), done10.tape[0..4].to_vec());
    assert!(got == if01 || got == if10);
}

#[test]
fn epochs_preserve_population_size_and_genome_lengths() {
    let mut rng = StdRng::seed_from_u64(42);
    let mut p = Population::new(8, 6, 128, &mut rng).unwrap();
    p.run_epochs(10, &mut rng);
    assert_eq!(p.genomes.len(), 8);
    assert!(p.genomes.iter().all(|g| g.genome.len() == 6));
}

#[test]
fn flatten_concatenates_genomes_in_slot_order() {
    let pop = Population {
        genomes: vec![program(b"ab"), program(b"cd"), program(b"ef")],
        genome_len: 2,
        max_steps: 128,
    };
    assert_eq!(pop.flatten(), b"abcdef".to_vec());
}
