use fermats_kitchen::esieve::{run, sieve_once, EndCondition, Error, SieveState};

fn primes_by_trial_division(bound: usize) -> Vec<usize> {
    let mut out = Vec::new();
    for n in 2..=bound {
        let mut divisor = 2;
        let mut prime = true;
        while divisor < n {
            if n % divisor == 0 {
                prime = false;
                break;
            }
            divisor += 1;
        }
        if prime {
            out.push(n);
        }
    }
    out
}

#[test]
fn zero_bound_is_rejected() {
    assert_eq!(SieveState::with_upper_bound(0).err(), Some(Error::BadBound));
}

#[test]
fn bound_one_finds_nothing() {
    let mut state = SieveState::with_upper_bound(1).unwrap();
    run(&mut state, EndCondition::UpperBoundReached).unwrap();
    assert!(state.primes_found().is_empty());
}

#[test]
fn bound_two_finds_exactly_two() {
    let mut state = SieveState::with_upper_bound(2).unwrap();
    run(&mut state, EndCondition::UpperBoundReached).unwrap();
    assert_eq!(*state.primes_found(), vec![2usize]);
}

#[test]
fn bound_thirty_finds_the_known_list() {
    let mut state = SieveState::with_upper_bound(30).unwrap();
    run(&mut state, EndCondition::default()).unwrap();
    assert_eq!(
        *state.primes_found(),
        vec![2usize, 3, 5, 7, 11, 13, 17, 19, 23, 29]
    );
}

#[test]
fn sieve_agrees_with_trial_division() {
    for bound in [2usize, 3, 4, 5, 10, 97, 200] {
        let mut state = SieveState::with_upper_bound(bound).unwrap();
        run(&mut state, EndCondition::UpperBoundReached).unwrap();
        assert_eq!(*state.primes_found(), primes_by_trial_division(bound));
    }
}

#[test]
fn single_steps_report_progress_until_done() {
    let mut state = SieveState::with_upper_bound(10).unwrap();
    assert!(sieve_once(&mut state).unwrap());
    assert_eq!(*state.primes_found(), vec![2usize]);
    assert!(sieve_once(&mut state).unwrap());
    assert_eq!(*state.primes_found(), vec![2usize, 3]);
    assert!(sieve_once(&mut state).unwrap());
    assert!(sieve_once(&mut state).unwrap());
    assert_eq!(*state.primes_found(), vec![2usize, 3, 5, 7]);
    assert!(!sieve_once(&mut state).unwrap());
}

#[test]
fn completed_runs_are_idempotent() {
    let mut state = SieveState::with_upper_bound(100).unwrap();
    run(&mut state, EndCondition::UpperBoundReached).unwrap();
    let before = state.primes_found().clone();
    assert!(!sieve_once(&mut state).unwrap());
    assert!(!sieve_once(&mut state).unwrap());
    run(&mut state, EndCondition::UpperBoundReached).unwrap();
    assert_eq!(*state.primes_found(), before);
}
