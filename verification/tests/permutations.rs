use miura::permutation::{
    compose, conjugate, identity, transposition, Cycle, Permutation, PermutationError,
};

fn perm(images: &[usize]) -> Permutation {
    Permutation::new(images.to_vec()).unwrap()
}

fn cycle(elements: &[usize], n: usize) -> Cycle {
    Cycle::new(elements.to_vec(), n).unwrap()
}

#[test]
fn tables_that_are_no_permutations_are_refused() {
    assert_eq!(Permutation::new(vec![]), Err(PermutationError::EmptyImageVectorError));
    assert_eq!(Permutation::new(vec![0]), Err(PermutationError::NotBijectiveError));
    assert_eq!(Permutation::new(vec![2]), Err(PermutationError::NotBijectiveError));
    assert_eq!(Permutation::new(vec![1, 1]), Err(PermutationError::NotBijectiveError));
    assert_eq!(Permutation::new(vec![1, 3]), Err(PermutationError::NotBijectiveError));
    assert_eq!(Permutation::new(vec![0, 1, 2]), Err(PermutationError::NotBijectiveError));
    assert!(Permutation::new(vec![1]).is_ok());
    assert!(Permutation::new(vec![2, 3, 1]).is_ok());
}

#[test]
fn evaluation() {
    let sigma = perm(&[3, 4, 2, 1, 5]);
    assert_eq!(sigma.n(), 5);
    assert_eq!(sigma.eval(1), Ok(3));
    assert_eq!(sigma.eval(2), Ok(4));
    assert_eq!(sigma.eval(4), Ok(1));
    assert_eq!(sigma.eval(5), Ok(5));
    assert_eq!(sigma.eval(0), Err(PermutationError::ArgOutOfRangeError));
    assert_eq!(sigma.eval(6), Err(PermutationError::ArgOutOfRangeError));
    assert_eq!(sigma.eval(usize::MAX), Err(PermutationError::ArgOutOfRangeError));
}

#[test]
fn identities() {
    assert_eq!(identity(0), Err(PermutationError::EmptyImageVectorError));
    assert_eq!(identity(1), Ok(perm(&[1])));
    assert_eq!(identity(4), Ok(perm(&[1, 2, 3, 4])));
}

#[test]
fn transpositions() {
    assert_eq!(transposition(4, 1, 4), Ok(perm(&[4, 2, 3, 1])));
    assert_eq!(transposition(4, 4, 1), Ok(perm(&[4, 2, 3, 1])));
    assert_eq!(transposition(4, 3, 3), Ok(perm(&[1, 2, 3, 4])));
    assert_eq!(transposition(4, 9, 9), Ok(perm(&[1, 2, 3, 4])));
    assert_eq!(transposition(4, 0, 9), Ok(perm(&[1, 2, 3, 4])));
    assert_eq!(transposition(4, 2, 0), Err(PermutationError::NotBijectiveError));
    assert_eq!(transposition(4, 5, 1), Err(PermutationError::NotBijectiveError));
    assert_eq!(transposition(0, 1, 2), Err(PermutationError::EmptyImageVectorError));
    assert_eq!(transposition(0, 1, 1), Err(PermutationError::EmptyImageVectorError));
}

#[test]
fn inverses() {
    let sigma = perm(&[2, 3, 1, 5, 4]);
    assert_eq!(sigma.inverse(), perm(&[3, 1, 2, 5, 4]));
    assert_eq!(sigma.inverse().inverse(), sigma);
    assert_eq!(compose(&sigma, &sigma.inverse()), identity(5));
    assert_eq!(compose(&sigma.inverse(), &sigma), identity(5));
    assert_eq!(perm(&[1]).inverse(), perm(&[1]));
}

#[test]
fn compositions() {
    let sigma = perm(&[2, 3, 1]);
    let tau = perm(&[2, 1, 3]);
    assert_eq!(compose(&sigma, &tau), Ok(perm(&[3, 2, 1])));
    assert_eq!(compose(&tau, &sigma), Ok(perm(&[1, 3, 2])));
    assert_eq!(
        compose(&sigma, &perm(&[1, 2])),
        Err(PermutationError::DomainRangeSizeMismatchError)
    );
    assert_eq!(
        compose(&perm(&[1, 2]), &sigma),
        Err(PermutationError::DomainRangeSizeMismatchError)
    );
}

#[test]
fn conjugates() {
    let sigma = perm(&[2, 3, 1, 4]);
    let tau = perm(&[1, 2, 4, 3]);
    assert_eq!(conjugate(&sigma, &tau), Ok(perm(&[2, 4, 3, 1])));
    assert_eq!(conjugate(&sigma, &identity(4).unwrap()), Ok(perm(&[2, 3, 1, 4])));
    assert_eq!(conjugate(&identity(4).unwrap(), &tau), identity(4));
}

#[test]
fn signs() {
    assert_eq!(perm(&[1]).sign(), 1);
    assert_eq!(perm(&[2, 1]).sign(), -1);
    assert_eq!(perm(&[2, 3, 1]).sign(), 1);
    assert_eq!(perm(&[3, 2, 1]).sign(), -1);
    assert_eq!(perm(&[2, 1, 4, 3]).sign(), 1);
    assert_eq!(perm(&[4, 3, 2, 1]).sign(), 1);
    assert_eq!(perm(&[2, 3, 4, 1]).sign(), -1);
}

#[test]
fn cycle_forms() {
    assert_eq!(perm(&[1]).to_cycle_form(), vec![cycle(&[1], 1)]);
    assert_eq!(
        perm(&[1, 2, 3]).to_cycle_form(),
        vec![cycle(&[1], 3), cycle(&[2], 3), cycle(&[3], 3)]
    );
    assert_eq!(
        perm(&[3, 4, 1, 2]).to_cycle_form(),
        vec![cycle(&[1, 3], 4), cycle(&[2, 4], 4)]
    );
    assert_eq!(
        perm(&[4, 1, 5, 2, 3, 6]).to_cycle_form(),
        vec![cycle(&[1, 4, 2], 6), cycle(&[3, 5], 6), cycle(&[6], 6)]
    );
    assert_eq!(perm(&[3, 1, 2]).to_cycle_form(), vec![cycle(&[1, 3, 2], 3)]);
}

#[test]
fn cycles() {
    assert_eq!(cycle(&[1, 4, 6, 5], 7).len(), 4);
    assert_eq!(cycle(&[], 7).len(), 0);
    assert!(Cycle::new(vec![], 0).is_ok());
    assert_eq!(Cycle::new(vec![1, 8], 7), Err(PermutationError::NoValidCycleError));
    assert_eq!(Cycle::new(vec![0, 1], 7), Err(PermutationError::NoValidCycleError));
    assert_eq!(Cycle::new(vec![2, 3, 2], 7), Err(PermutationError::NoValidCycleError));
    assert_eq!(Cycle::new(vec![1], 0), Err(PermutationError::NoValidCycleError));
    assert_ne!(cycle(&[1, 2], 2), cycle(&[2, 1], 2));
}

#[test]
fn texts() {
    assert_eq!(cycle(&[], 3).to_string(), "()");
    assert_eq!(cycle(&[3], 3).to_string(), "(3)");
    assert_eq!(cycle(&[12, 7, 100], 100).to_string(), "(12 7 100)");
    assert_eq!(perm(&[1, 2, 3]).to_string(), "");
    assert_eq!(perm(&[2, 1, 3]).to_string(), "(1 2)");
    assert_eq!(perm(&[4, 1, 5, 2, 3, 6]).to_string(), "(1 4 2)(3 5)");
    assert_eq!(
        perm(&[2, 3, 4, 5, 6, 7, 8, 9, 10, 11, 12, 1]).to_string(),
        "(1 2 3 4 5 6 7 8 9 10 11 12)"
    );
}

#[test]
fn every_error_has_its_own_value() {
    let errors = [
        PermutationError::ArgOutOfRangeError,
        PermutationError::ImageOutOfRangeError,
        PermutationError::NotBijectiveError,
        PermutationError::NoValidCycleError,
        PermutationError::EmptyImageVectorError,
        PermutationError::DomainRangeSizeMismatchError,
    ];
    for (i, a) in errors.iter().enumerate() {
        for (j, b) in errors.iter().enumerate() {
            assert_eq!(a == b, i == j);
        }
    }
}
