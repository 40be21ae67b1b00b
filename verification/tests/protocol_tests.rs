use frida::field::FieldElement;
use frida::group::Radix2Group;
use frida::merkle::MerkleTreeVerifier;
use frida::protocol::{Prover, QueryResult, Verifier};
use frida::FriError;

fn next_rand(state: &mut u64) -> u64 {
    // A small linear congruential generator: good enough to exercise
    // the protocol with varied field elements and indices.
    *state = state
        .wrapping_mul(6364136223846793005)
        .wrapping_add(1442695040888963407);
    *state >> 1
}

fn random_poly(rng: &mut u64, len: usize) -> Vec<FieldElement> {
    (0..len).map(|_| FieldElement::from_u64(next_rand(rng))).collect()
}

fn fold_challenges(rng: &mut u64, count: usize) -> Vec<FieldElement> {
    (0..count).map(|_| FieldElement::from_u64(next_rand(rng))).collect()
}

#[test]
fn it_works() {
    let mut rng: u64 = 0x853c49e6748fea9b;
    let poly_num = 16;
    let log_degree = 12;
    let polies: Vec<Vec<FieldElement>> =
        (0..poly_num).map(|_| random_poly(&mut rng, 1 << log_degree)).collect();
    let coderate = 1;
    let groups: Vec<Radix2Group> =
        (0..log_degree).rev().map(|x| Radix2Group::new(x + 1 + coderate)).collect();
    let prover = Prover::new(&polies, &groups[0]);
    let challenges = (
        FieldElement::from_u64(next_rand(&mut rng)),
        fold_challenges(&mut rng, log_degree),
    );
    let leaf_indices: Vec<usize> =
        (0..30).map(|_| (next_rand(&mut rng) & 0xffffffff) as usize).collect();
    let (prover_state, iopp_commits) = prover.commit_phase(&groups, &challenges);
    let query_results =
        prover.sample(&prover_state, leaf_indices.clone(), 1 << (log_degree + coderate));
    let commit = prover.commit();
    let verifier = Verifier::new(commit, poly_num, 1 << (log_degree + coderate - 1));
    let res = verifier.verify(&groups, &challenges, leaf_indices, iopp_commits, query_results);
    assert!(res.is_ok());
}

struct Transcript {
    groups: Vec<Radix2Group>,
    challenges: (FieldElement, Vec<FieldElement>),
    leaf_indices: Vec<usize>,
    commits: frida::protocol::IoppCommits,
    openings: Vec<QueryResult>,
    verifier: Verifier,
}

fn honest_transcript(
    rng: &mut u64,
    poly_num: usize,
    log_degree: usize,
    index_count: usize,
) -> Transcript {
    let coderate = 1;
    let polies: Vec<Vec<FieldElement>> =
        (0..poly_num).map(|_| random_poly(rng, 1 << log_degree)).collect();
    let groups: Vec<Radix2Group> =
        (0..log_degree).rev().map(|x| Radix2Group::new(x + 1 + coderate)).collect();
    let prover = Prover::new(&polies, &groups[0]);
    let challenges = (FieldElement::from_u64(next_rand(rng)), fold_challenges(rng, log_degree));
    let domain = 1usize << (log_degree + coderate);
    let leaf_indices: Vec<usize> =
        (0..index_count).map(|_| (next_rand(rng) as usize) % domain).collect();
    let (state, commits) = prover.commit_phase(&groups, &challenges);
    let openings = prover.sample(&state, leaf_indices.clone(), domain);
    let verifier = Verifier::new(prover.commit(), poly_num, domain / 2);
    Transcript { groups, challenges, leaf_indices, commits, openings, verifier }
}

#[test]
fn single_poly_scenario_accepts() {
    let mut rng: u64 = 7;
    let t = honest_transcript(&mut rng, 1, 3, 5);
    let res = t.verifier.verify(&t.groups, &t.challenges, t.leaf_indices, t.commits, t.openings);
    assert!(res.is_ok());
}

#[test]
fn tampered_opening_is_merkle_invalid() {
    let mut rng: u64 = 9;
    let log_degree = 3;
    let coderate = 1;
    let polies = vec![random_poly(&mut rng, 1 << log_degree)];
    let groups: Vec<Radix2Group> =
        (0..log_degree).rev().map(|x| Radix2Group::new(x + 1 + coderate)).collect();
    let prover = Prover::new(&polies, &groups[0]);
    let challenges =
        (FieldElement::from_u64(next_rand(&mut rng)), fold_challenges(&mut rng, log_degree));
    let leaf_indices = vec![1usize];
    let (state, commits) = prover.commit_phase(&groups, &challenges);
    let mut openings = prover.sample(&state, leaf_indices.clone(), 1 << (log_degree + coderate));
    let verifier = Verifier::new(prover.commit(), 1, 1 << (log_degree + coderate - 1));
    // Round 1 opens flat positions 1 and 5; only the Merkle check of
    // round 1 reads position 5, so flipping a byte of that value must
    // surface as an invalid opening.
    let target = &openings[1];
    let paths = target.proof_bytes().clone();
    let mut values = target.opened_values().clone();
    assert_eq!(values[1].0, 5);
    let (key, v) = values[1];
    values[1] = (key, FieldElement::from_u64(v.to_u64() ^ 1));
    openings[1] = QueryResult::new(paths, values);
    let res = verifier.verify(&groups, &challenges, leaf_indices, commits, openings);
    assert_eq!(res, Err(FriError::MerkleProofInvalid));
}

#[test]
fn desynchronized_fold_challenge_is_proof_invalid() {
    let mut rng: u64 = 11;
    let t = honest_transcript(&mut rng, 2, 4, 6);
    let mut challenges = t.challenges.clone();
    challenges.1[1] = FieldElement::from_u64(challenges.1[1].to_u64().wrapping_add(1));
    let res = t.verifier.verify(&t.groups, &challenges, t.leaf_indices, t.commits, t.openings);
    assert_eq!(res, Err(FriError::ProofInvalid));
}

#[test]
fn short_transcript_is_degree_mismatch() {
    let mut rng: u64 = 13;
    let t = honest_transcript(&mut rng, 1, 3, 4);
    let mut openings = t.openings;
    openings.pop();
    let res = t.verifier.verify(&t.groups, &t.challenges, t.leaf_indices, t.commits, openings);
    assert_eq!(res, Err(FriError::DegreeMismatch));
}

#[test]
fn out_of_range_index_is_reported() {
    let mut rng: u64 = 17;
    let t = honest_transcript(&mut rng, 1, 3, 3);
    // Round 0 committed 8 leaves; ask the opening about leaf 8.
    let checker = MerkleTreeVerifier::new(8, [0u8; 32]);
    let res = t.openings[0].verify_merkle_tree(&vec![8usize], 2, &checker);
    assert_eq!(res, Err(FriError::IndexOutOfRange));
}

#[test]
fn zero_polynomials_collapse_to_zero_final_value() {
    let log_degree = 3;
    let coderate = 1;
    let poly_num = 4;
    let polies: Vec<Vec<FieldElement>> =
        (0..poly_num).map(|_| vec![FieldElement::zero(); 1 << log_degree]).collect();
    let groups: Vec<Radix2Group> =
        (0..log_degree).rev().map(|x| Radix2Group::new(x + 1 + coderate)).collect();
    let prover = Prover::new(&polies, &groups[0]);
    let mut rng: u64 = 23;
    let challenges =
        (FieldElement::from_u64(next_rand(&mut rng)), fold_challenges(&mut rng, log_degree));
    let (state, commits) = prover.commit_phase(&groups, &challenges);
    assert_eq!(commits.final_scalar(), FieldElement::zero());
    let domain = 1usize << (log_degree + coderate);
    let leaf_indices = vec![0usize, 5, 9, 15];
    let openings = prover.sample(&state, leaf_indices.clone(), domain);
    let verifier = Verifier::new(prover.commit(), poly_num, domain / 2);
    let res = verifier.verify(&groups, &challenges, leaf_indices, commits, openings);
    assert!(res.is_ok());
}

#[test]
fn commitment_sizes_are_exact() {
    let mut rng: u64 = 29;
    let t = honest_transcript(&mut rng, 1, 3, 5);
    // log_degree 3: two intermediate roots of 32 bytes, one 8-byte scalar.
    assert_eq!(t.commits.proof_size(), 2 * 32 + 8);
    for qr in &t.openings {
        assert_eq!(qr.proof_size(), qr.proof_bytes().len() + qr.opened_values().len() * 8);
    }
}

#[test]
fn empty_index_set_is_accepted() {
    let mut rng: u64 = 31;
    let t = honest_transcript(&mut rng, 1, 3, 0);
    assert!(t.leaf_indices.is_empty());
    let res = t.verifier.verify(&t.groups, &t.challenges, t.leaf_indices, t.commits, t.openings);
    assert!(res.is_ok());
}
