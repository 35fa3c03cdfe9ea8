use mcheck::die_hard::{JugAction, JugInvariant, State};
use mcheck::model_checker::{hash, ModelChecker, ModelState, Outcome, Successors};
use mcheck::money_transfer::{self, MoneyAction, MoneyInvariant, Phase, ALICE, BOB};

fn jug_checker() -> ModelChecker<State, JugAction, JugInvariant> {
    let mut checker = ModelChecker::new();
    checker.action("fill_small", JugAction::FillSmall);
    checker.action("fill_big", JugAction::FillBig);
    checker.action("empty_small", JugAction::EmptySmall);
    checker.action("empty_big", JugAction::EmptyBig);
    checker.action("move_from_big_to_small", JugAction::MoveFromBigToSmall);
    checker.action("move_from_small_to_big", JugAction::MoveFromSmallToBig);
    checker.add_invariant("gallon_never_has_4_liters", JugInvariant::GallonNeverHas4Liters);
    checker
}

fn labels<S>(trace: &[(String, S)]) -> Vec<&str> {
    trace.iter().map(|(name, _)| name.as_str()).collect()
}

fn money(alice: i64, bob: i64, requests: usize) -> money_transfer::State {
    money_transfer::State { balances: vec![alice, bob], pc: vec![Phase::StartTransfer; requests] }
}

#[test]
fn die_hard() {
    let mut checker = jug_checker();
    match checker.run(State { small: 0, big: 0 }) {
        Outcome::Violation { violated, trace } => {
            assert_eq!(violated, "gallon_never_has_4_liters");
            assert_eq!(
                labels(&trace),
                vec![
                    "Init",
                    "fill_big",
                    "move_from_big_to_small",
                    "empty_small",
                    "move_from_big_to_small",
                    "fill_big",
                    "move_from_big_to_small",
                ]
            );
            assert_eq!(trace[0].1, State { small: 0, big: 0 });
            assert_eq!(trace[6].1, State { small: 3, big: 4 });
        }
        _ => panic!("the puzzle has a solution"),
    }
}

#[test]
fn money_transfer() {
    let mut checker = ModelChecker::new();
    checker.action("start_transfer", MoneyAction::StartTransfer { from: ALICE, amount: 1 });
    checker.action("complete_transfer", MoneyAction::CompleteTransfer { to: BOB, amount: 1 });
    checker.add_invariant("consistency", MoneyInvariant::Consistency);
    let outcome = checker.run(money(1, 1, 2));
    assert!(matches!(outcome, Outcome::Exhausted));
    // (1,1) SS; (0,1) CS; (0,1) SC; (0,2) DS; (0,2) SD
    assert_eq!(checker.explored.len(), 5);
}

#[test]
fn unguarded_transfer_reaches_forbidden_balances() {
    let mut checker = ModelChecker::new();
    checker.action("transfer", MoneyAction::Transfer { from: ALICE, to: BOB, amount: 1 });
    checker.action("deposit", MoneyAction::Deposit { amount: 1 });
    checker.add_invariant("not_alice_1_bob_3", MoneyInvariant::NotBoth { alice: 1, bob: 3 });
    match checker.run(money(2, 1, 0)) {
        Outcome::Violation { violated, trace } => {
            assert_eq!(violated, "not_alice_1_bob_3");
            assert_eq!(labels(&trace), vec!["Init", "transfer", "deposit"]);
            assert_eq!(trace[1].1.balances, vec![1, 2]);
            assert_eq!(trace[2].1.balances, vec![1, 3]);
        }
        _ => panic!("the forbidden balances are reachable"),
    }
}

#[test]
fn branching_over_no_candidates_proposes_nothing() {
    let mut ctx = Successors::new(money(1, 1, 0));
    ctx.there_exists(Vec::new(), &MoneyAction::Deposit { amount: 1 });
    assert!(ctx.proposed().is_empty());

    // an action that branches over no accounts only yields the unchanged copy
    let mut checker = ModelChecker::new();
    checker.action("deposit", MoneyAction::Deposit { amount: 1 });
    checker.add_invariant("consistency", MoneyInvariant::Consistency);
    let empty = money_transfer::State { balances: Vec::new(), pc: Vec::new() };
    assert!(matches!(checker.run(empty), Outcome::Exhausted));
    assert_eq!(checker.explored.len(), 1);
    assert_eq!(checker.seen.len(), 1);
}

#[test]
fn violated_initial_state_gives_one_entry_trace() {
    let mut checker = jug_checker();
    match checker.run(State { small: 1, big: 4 }) {
        Outcome::Violation { violated, trace } => {
            assert_eq!(violated, "gallon_never_has_4_liters");
            assert_eq!(labels(&trace), vec!["Init"]);
            assert_eq!(trace[0].1, State { small: 1, big: 4 });
        }
        _ => panic!("the initial state is violating"),
    }
    assert_eq!(checker.explored.len(), 1);
}

#[test]
fn branching_yields_one_state_per_candidate() {
    let mut ctx = Successors::new(money(5, 7, 0));
    ctx.there_exists(vec![BOB, ALICE, BOB], &MoneyAction::Deposit { amount: 2 });
    let found: Vec<Vec<i64>> = ctx.proposed().iter().map(|s| s.balances.clone()).collect();
    assert_eq!(found, vec![vec![5, 9], vec![7, 7], vec![5, 9]]);
}

#[test]
fn same_specification_same_trace() {
    let mut first = jug_checker();
    let mut second = jug_checker();
    let a = first.run(State { small: 0, big: 0 });
    let b = second.run(State { small: 0, big: 0 });
    match (a, b) {
        (Outcome::Violation { trace: ta, .. }, Outcome::Violation { trace: tb, .. }) => {
            assert_eq!(labels(&ta), labels(&tb));
            let sa: Vec<State> = ta.iter().map(|(_, s)| *s).collect();
            let sb: Vec<State> = tb.iter().map(|(_, s)| *s).collect();
            assert_eq!(sa, sb);
        }
        _ => panic!("both runs find the violation"),
    }
}

#[test]
fn explored_states_are_distinct_and_complete() {
    let mut checker: ModelChecker<State, JugAction, JugInvariant> = ModelChecker::new();
    checker.action("fill_small", JugAction::FillSmall);
    checker.action("fill_big", JugAction::FillBig);
    checker.action("empty_small", JugAction::EmptySmall);
    checker.action("empty_big", JugAction::EmptyBig);
    checker.action("move_from_big_to_small", JugAction::MoveFromBigToSmall);
    checker.action("move_from_small_to_big", JugAction::MoveFromSmallToBig);
    assert!(matches!(checker.run(State { small: 0, big: 0 }), Outcome::Exhausted));
    let states: Vec<State> = checker.explored.iter().map(|p| p.current).collect();
    for i in 0..states.len() {
        for j in i + 1..states.len() {
            assert_ne!(states[i], states[j]);
        }
    }
    // every state in which one jug is empty or full is reachable from (0,0)
    assert_eq!(states.len(), 16);
    assert_eq!(checker.seen.len(), states.len());
    let listed: usize = checker.buckets.values().map(|b| b.len()).sum();
    assert_eq!(listed, states.len());
    for (j, f) in checker.seen.iter().enumerate() {
        assert!(checker.buckets[f].contains(&j));
    }
    assert_eq!(checker.explored[0].generated_by_action, "Init");
    assert!(checker.explored[0].previous.is_none());
    for p in checker.explored.iter().skip(1) {
        assert!(p.previous.is_some());
    }
}

#[test]
fn fingerprint_ignores_the_order_of_updates() {
    let mut a = money(0, 0, 1);
    money_transfer::deposit(&mut a, ALICE, 4);
    money_transfer::deposit(&mut a, BOB, 9);
    let mut b = money(0, 0, 1);
    money_transfer::deposit(&mut b, BOB, 9);
    money_transfer::deposit(&mut b, ALICE, 4);
    assert!(a.same(&b));
    assert_eq!(a.fingerprint(), b.fingerprint());
    let c = money(4, 8, 1);
    assert!(!a.same(&c));
    assert_ne!(a.fingerprint(), c.fingerprint());
}

#[test]
fn hash_folds_words() {
    assert_eq!(hash(&vec![]), 0);
    assert_eq!(hash(&vec![1, 2]), 33);
    assert_eq!(hash(&vec![u64::MAX, 1]), u64::MAX.wrapping_mul(31).wrapping_add(1));
    assert_eq!(State { small: 3, big: 4 }.fingerprint(), 3 * 256 + 4);
}

#[test]
fn jug_moves_pour_what_fits() {
    let mut s = State { small: 1, big: 5 };
    mcheck::die_hard::move_from_big_to_small(&mut s);
    assert_eq!(s, State { small: 3, big: 3 });
    let mut t = State { small: 3, big: 4 };
    mcheck::die_hard::move_from_small_to_big(&mut t);
    assert_eq!(t, State { small: 2, big: 5 });
    assert!(!mcheck::die_hard::gallon_never_has_4_liters(&State { small: 0, big: 4 }));
}

#[test]
fn two_phase_transfer_reserves_then_credits() {
    let mut s = money(1, 1, 2);
    money_transfer::start_transfer(&mut s, 1, ALICE, 1);
    assert_eq!(s.balances, vec![0, 1]);
    assert_eq!(s.pc, vec![Phase::CompleteTransfer, Phase::StartTransfer]);
    money_transfer::start_transfer(&mut s, 2, ALICE, 1);
    assert_eq!(s.pc, vec![Phase::CompleteTransfer, Phase::StartTransfer]);
    money_transfer::complete_transfer(&mut s, 1, BOB, 1);
    assert_eq!(s.balances, vec![0, 2]);
    assert_eq!(s.pc, vec![Phase::Done, Phase::StartTransfer]);
    money_transfer::complete_transfer(&mut s, 1, BOB, 1);
    assert_eq!(s.balances, vec![0, 2]);
    assert!(money_transfer::consistency(&s));
    let mut t = money(1, 5, 0);
    money_transfer::transfer(&mut t, ALICE, BOB, 1);
    assert_eq!(t.balances, vec![0, 6]);
    assert!(!money_transfer::consistency(&money(-1, 0, 0)));
}

#[test]
fn missing_account_is_a_fault() {
    let mut checker = ModelChecker::new();
    checker.action("deposit", MoneyAction::Deposit { amount: 1 });
    checker.action("transfer", MoneyAction::Transfer { from: ALICE, to: 5, amount: 1 });
    checker.add_invariant("consistency", MoneyInvariant::Consistency);
    match checker.run(money(2, 1, 0)) {
        Outcome::Fault { action, path } => {
            assert_eq!(action, "transfer");
            assert_eq!(labels(&path), vec!["Init"]);
        }
        _ => panic!("the transfer names an account that does not exist"),
    }
    // nothing was expanded: the deposits of the initial state were discovered
    assert_eq!(checker.explored.len(), 3);
}

#[test]
fn overflowing_balance_is_a_fault() {
    let mut checker = ModelChecker::new();
    checker.action("deposit", MoneyAction::Deposit { amount: 1 });
    checker.add_invariant("consistency", MoneyInvariant::Consistency);
    match checker.run(money(i64::MAX - 1, 0, 0)) {
        Outcome::Fault { action, path } => {
            assert_eq!(action, "deposit");
            assert_eq!(labels(&path), vec!["Init", "deposit"]);
            assert_eq!(path[1].1.balances, vec![i64::MAX, 0]);
        }
        _ => panic!("a deposit overflows"),
    }
}
