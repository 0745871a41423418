use ltr::{DDMinPolicy, DynamicEventReplay, next_seed, place_critical, seed_index,
    algo, do_algo, mock_oracle, oracle, BooleanAcceptor, DDMinEvent, DDMinPath, EventReplay,
    Minimal, MockEvent, MockInterpretation, MockInterpretationResult, MockPath,
    MockResultInterpretor, SelectionPolicy, StaticEvent, CRITICAL_TOKENS,
};
use std::cmp::Ordering;

fn mock(bits: &[bool]) -> MockPath {
    let mut p = MockPath::empty();
    for &b in bits {
        p.push(MockEvent(b));
    }
    p
}

#[test]
fn mock_oracle_counts_taken_steps() {
    assert!(!mock_oracle(&mock(&[])));
    assert!(mock_oracle(&mock(&[true])));
    assert!(!mock_oracle(&mock(&[true, false, true])));
    assert!(mock_oracle(&mock(&[false, true, true, true])));
}

#[test]
fn variants_are_true_then_false() {
    assert_eq!(MockEvent::variant_count(), 2);
    assert_eq!(MockEvent::variant(0), MockEvent(true));
    assert_eq!(MockEvent::variant(1), MockEvent(false));
    assert_eq!(DDMinEvent::variant(0), DDMinEvent(true));
    assert_eq!(DDMinEvent::variant(1), DDMinEvent(false));
}

#[test]
fn boolean_acceptor_rules() {
    let t = MockInterpretation(true);
    let f = MockInterpretation(false);
    assert!(BooleanAcceptor::may_accept(&t));
    assert!(!BooleanAcceptor::may_accept(&f));
    assert!(BooleanAcceptor::may_reject(&f));
    assert!(!BooleanAcceptor::may_reject(&t));
    assert_eq!(BooleanAcceptor::compare(&f, &t), Ordering::Less);
    assert_eq!(BooleanAcceptor::compare(&t, &f), Ordering::Greater);
    assert_eq!(BooleanAcceptor::compare(&t, &t), Ordering::Equal);
    assert_eq!(BooleanAcceptor::compare(&f, &t), f.cmp(&t));
}

#[test]
fn result_interpretor_prefers_shorter_queries() {
    let dead = MockInterpretationResult::Dead;
    let short = MockInterpretationResult::Valid { length: 2 };
    let long = MockInterpretationResult::Valid { length: 9 };
    assert_eq!(MockResultInterpretor::compare(&long, &short), Ordering::Less);
    assert_eq!(MockResultInterpretor::compare(&short, &long), Ordering::Greater);
    assert_eq!(MockResultInterpretor::compare(&short, &short), Ordering::Equal);
    assert_eq!(MockResultInterpretor::compare(&dead, &short), Ordering::Less);
    assert_eq!(MockResultInterpretor::compare(&short, &dead), Ordering::Greater);
    assert_eq!(MockResultInterpretor::compare(&dead, &dead), Ordering::Equal);
    assert!(MockResultInterpretor::may_reject(&dead));
    assert!(!MockResultInterpretor::may_reject(&short));
    assert!(!MockResultInterpretor::may_accept(&short));
}

#[test]
fn algo_drops_flagged_items() {
    let mut q = vec![10u16, 20, 30, 40, 50];
    algo(&mock(&[true, false, true]), &mut q);
    assert_eq!(q, vec![20, 40, 50]);
    let mut q2 = vec![1u16, 2];
    algo(&mock(&[]), &mut q2);
    assert_eq!(q2, vec![1, 2]);
}

#[test]
fn oracle_needs_every_critical_token() {
    let full: Vec<u16> = CRITICAL_TOKENS.to_vec();
    assert_eq!(
        oracle(&full),
        MockInterpretationResult::Valid { length: full.len() }
    );
    let mut padded = vec![7u16, 8];
    padded.extend_from_slice(&CRITICAL_TOKENS);
    assert_eq!(
        oracle(&padded),
        MockInterpretationResult::Valid { length: 25 }
    );
    let missing: Vec<u16> = CRITICAL_TOKENS.iter().copied().filter(|&t| t != 233).collect();
    assert_eq!(oracle(&missing), MockInterpretationResult::Dead);
}

#[test]
fn do_algo_rejects_overlong_paths_and_runs_the_oracle() {
    let q: Vec<u16> = CRITICAL_TOKENS.to_vec();
    assert_eq!(
        do_algo(&mock(&[false; 24]), q.clone()),
        MockInterpretationResult::Dead
    );
    assert_eq!(
        do_algo(&mock(&[false, false]), q.clone()),
        MockInterpretationResult::Valid { length: 23 }
    );
    assert_eq!(do_algo(&mock(&[true]), q), MockInterpretationResult::Dead);
    let mut extra = vec![999u16];
    extra.extend_from_slice(&CRITICAL_TOKENS);
    assert_eq!(
        do_algo(&mock(&[true]), extra),
        MockInterpretationResult::Valid { length: 23 }
    );
}

#[test]
fn minimal_keeps_the_shortest() {
    let mut m = Minimal::default();
    m.offer(&[1, 2, 3]);
    assert_eq!(m.0, vec![1, 2, 3]);
    m.offer(&[4, 5, 6, 7]);
    assert_eq!(m.0, vec![1, 2, 3]);
    m.offer(&[9]);
    assert_eq!(m.0, vec![9]);
}

#[test]
fn ddmin_path_basics() {
    let mut p = DDMinPath::empty();
    p.push(DDMinEvent(true));
    let q = p.extend(DDMinEvent::from(false));
    assert_eq!(q.to_list(), vec![true, false]);
    assert_eq!(p.to_list(), vec![true]);
    assert!(p.is_prefix_of(&q));
    assert!(!q.is_prefix_of(&p));
    let mut r = DDMinPath::empty();
    r.extend_with_slice(&[DDMinEvent(false), DDMinEvent(true)]);
    assert_eq!(r.to_list(), vec![false, true]);
    assert!(DDMinEvent(false).is_dead());
    assert!(!DDMinEvent(true).is_dead());
}

#[test]
fn ddmin_children_extend_by_each_variant() {
    let mut p = DDMinPath::empty();
    p.push(DDMinEvent(false));
    let kids = p.children();
    assert_eq!(kids.len(), 2);
    assert_eq!(kids[0].to_list(), vec![false, true]);
    assert_eq!(kids[1].to_list(), vec![false, false]);
}

#[test]
fn compare_is_total_and_antisymmetric() {
    let vals = [
        MockInterpretationResult::Dead,
        MockInterpretationResult::Valid { length: 1 },
        MockInterpretationResult::Valid { length: 4 },
        MockInterpretationResult::Valid { length: 4 },
    ];
    for a in vals.iter() {
        for b in vals.iter() {
            assert_eq!(
                MockResultInterpretor::compare(a, b),
                MockResultInterpretor::compare(b, a).reverse()
            );
            assert_eq!(MockResultInterpretor::compare(a, b) == Ordering::Equal, a == b);
        }
    }
    assert_eq!(
        DDMinPolicy::compare(&DDMinEvent(true), &DDMinEvent(false)),
        Ordering::Greater
    );
    assert_eq!(
        DDMinPolicy::compare(&DDMinEvent(true), &DDMinEvent(true)),
        Ordering::Equal
    );
}

#[test]
fn xorshift_seed_advances() {
    let seed = next_seed(0xDEADBEEF);
    assert_eq!(seed, 4018790486776397394);
    assert_eq!(seed_index(seed, 1000), 394);
}

#[test]
fn critical_token_is_placed_only_on_a_free_position() {
    let mut query = vec![0u16, 4, 0];
    assert!(place_critical(&mut query, 0, 11));
    assert_eq!(query, vec![11, 4, 0]);
    assert!(!place_critical(&mut query, 1, 22));
    assert_eq!(query, vec![11, 4, 0]);
    assert!(!place_critical(&mut query, 0, 22));
    assert!(place_critical(&mut query, 2, 22));
    assert_eq!(query, vec![11, 4, 22]);
}
