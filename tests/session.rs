use board_session::dispatch::{collect_batch, step_targets, SelectorError};
use board_session::plaintexts::{plaintexts_match, Plaintext};
use board_session::selection::{check_config, get_selected, ConfigError};
use board_session::session::{BallotDecision, Session};

const NULL_TRUSTEE: usize = 1000;

fn keys(n: u8) -> Vec<Vec<u8>> {
    (0..n).map(|i| vec![i + 1, 0xAA, i]).collect()
}

fn pt(b: u8) -> Plaintext {
    let mut p = [0u8; 30];
    p[0] = b;
    p[29] = b.wrapping_mul(3);
    p
}

fn fresh(n: u8, threshold: usize) -> Session<String> {
    Session::new(vec![9, 9], keys(n), threshold, "bootstrap".to_string()).unwrap()
}

#[test]
fn bootstrap_has_one_message_and_threshold_subset() {
    let s = fresh(2, 2);
    assert_eq!(s.board().len(), 1);
    assert_eq!(s.board()[0], "bootstrap");
    assert_eq!(s.participants(), 2);
    assert_eq!(s.trustee_pks().len(), 2);
    assert_eq!(s.selected(), &vec![1, 2]);
    assert!(s.plaintexts().is_empty());
    assert_eq!(s.last_start(), 0);
    assert_eq!(s.last_messages(), &["bootstrap".to_string()]);
    let slots = s.selected_slots(NULL_TRUSTEE);
    assert_eq!(&slots[0..2], &[1, 2]);
    assert!(slots[2..].iter().all(|x| *x == NULL_TRUSTEE));
}

#[test]
fn bootstrap_larger_session() {
    let s = fresh(5, 3);
    assert_eq!(s.board().len(), 1);
    assert_eq!(s.trustee_pks().len(), 5);
    assert_eq!(s.selected(), &vec![1, 2, 3]);
    assert_eq!(s.threshold(), 3);
}

#[test]
fn config_errors() {
    assert_eq!(check_config(2, 2), Ok(()));
    assert_eq!(check_config(12, 8), Ok(()));
    assert_eq!(check_config(0, 0), Err(ConfigError::BadParticipantCount));
    assert_eq!(check_config(13, 2), Err(ConfigError::BadParticipantCount));
    assert_eq!(check_config(3, 0), Err(ConfigError::BadThreshold));
    assert_eq!(check_config(3, 4), Err(ConfigError::BadThreshold));
    assert_eq!(check_config(10, 9), Err(ConfigError::TooFewCandidates));
    assert!(matches!(
        Session::new(vec![], keys(2), 3, "b".to_string()),
        Err(ConfigError::BadThreshold)
    ));
}

#[test]
fn reset_replaces_or_keeps_session() {
    let mut s = fresh(2, 2);
    s.cast_ballots(vec![pt(1)], "ballots".to_string());
    assert_eq!(s.board().len(), 2);
    let r = s.reset(vec![1], keys(14), 2, "again".to_string());
    assert_eq!(r, Err(ConfigError::BadParticipantCount));
    assert_eq!(s.board().len(), 2);
    assert_eq!(s.plaintexts().len(), 1);
    let r = s.reset(vec![1], keys(3), 1, "again".to_string());
    assert_eq!(r, Ok(()));
    assert_eq!(s.board(), &vec!["again".to_string()]);
    assert!(s.plaintexts().is_empty());
    assert_eq!(s.participants(), 3);
    assert_eq!(s.selected(), &vec![1]);
}

#[test]
fn get_selected_pads_with_sentinel() {
    let r = get_selected(&[1, 2, 3], NULL_TRUSTEE);
    assert_eq!(r[0..3], [1, 2, 3]);
    assert_eq!(r[3..], [NULL_TRUSTEE; 9]);
    assert_eq!(get_selected(&[], NULL_TRUSTEE), [NULL_TRUSTEE; 12]);
}

#[test]
fn ballots_need_a_key() {
    let s = fresh(2, 2);
    assert_eq!(s.ballot_decision(false), BallotDecision::NoKey);
    assert_eq!(s.ballot_decision(true), BallotDecision::Cast);
}

#[test]
fn ballots_are_cast_once() {
    let mut s = fresh(2, 2);
    let first = vec![pt(1), pt(2), pt(3)];
    assert!(s.cast_ballots(first.clone(), "ballots".to_string()));
    assert_eq!(s.board().len(), 2);
    assert_eq!(s.plaintexts(), &first);
    assert_eq!(s.last_start(), 1);
    assert_eq!(s.ballot_decision(true), BallotDecision::AlreadyAdded);
    assert!(!s.cast_ballots(vec![pt(7)], "more".to_string()));
    assert_eq!(s.board().len(), 2);
    assert_eq!(s.plaintexts(), &first);
    assert_eq!(s.last_start(), 1);
}

#[test]
fn selector_all_and_single() {
    assert_eq!(step_targets("", 3), Ok(vec![0, 1, 2]));
    assert_eq!(step_targets("all", 2), Ok(vec![0, 1]));
    assert_eq!(step_targets("1", 2), Ok(vec![1]));
    assert_eq!(step_targets("01", 2), Ok(vec![1]));
    assert_eq!(step_targets("0", 2), Ok(vec![0]));
}

#[test]
fn selector_out_of_range_is_a_no_op() {
    let mut s = fresh(2, 2);
    let targets = s.step_targets("2").unwrap();
    assert!(targets.is_empty());
    assert_eq!(step_targets("99999999999999999999999999", 2), Ok(vec![]));
    let results: Vec<Result<Vec<String>, String>> = vec![];
    assert_eq!(s.commit_step(results), Ok(0));
    assert_eq!(s.board().len(), 1);
    assert_eq!(s.last_start(), 1);
}

#[test]
fn selector_unparsable() {
    assert_eq!(step_targets("x", 2), Err(SelectorError::Unparsable));
    assert_eq!(step_targets("1a", 2), Err(SelectorError::Unparsable));
    assert_eq!(step_targets("-1", 2), Err(SelectorError::Unparsable));
    assert_eq!(step_targets("All", 2), Err(SelectorError::Unparsable));
}

#[test]
fn batch_keeps_invocation_order() {
    let rs: Vec<Result<Vec<u8>, &str>> = vec![Ok(vec![1, 2]), Ok(vec![]), Ok(vec![3])];
    assert_eq!(collect_batch(rs), Ok(vec![1, 2, 3]));
    let rs: Vec<Result<Vec<u8>, &str>> = vec![Ok(vec![1]), Err("bad"), Err("worse")];
    assert_eq!(collect_batch(rs), Err((1, "bad")));
}

#[test]
fn failed_step_posts_nothing() {
    let mut s = fresh(2, 2);
    let rs = vec![Ok(vec!["m1".to_string()]), Err("rejected".to_string())];
    assert_eq!(s.commit_step(rs), Err((1, "rejected".to_string())));
    assert_eq!(s.board().len(), 1);
    assert_eq!(s.last_start(), 0);
}

#[test]
fn steps_append_in_order() {
    let mut s = fresh(2, 2);
    let rs: Vec<Result<Vec<String>, String>> =
        vec![Ok(vec!["a".to_string(), "b".to_string()]), Ok(vec!["c".to_string()])];
    assert_eq!(s.commit_step(rs), Ok(3));
    assert_eq!(s.board(), &vec!["bootstrap", "a", "b", "c"]);
    assert_eq!(s.last_start(), 1);
    assert_eq!(s.last_messages(), &["a".to_string(), "b".to_string(), "c".to_string()]);
    let rs: Vec<Result<Vec<String>, String>> = vec![Ok(vec![]), Ok(vec![])];
    assert_eq!(s.commit_step(rs), Ok(0));
    assert_eq!(s.board().len(), 4);
    assert_eq!(s.last_start(), 4);
    assert!(s.last_messages().is_empty());
}

#[test]
fn plaintext_sets_compare_without_order() {
    let truth = vec![pt(1), pt(2), pt(3)];
    assert!(plaintexts_match(&vec![pt(3), pt(1), pt(2), pt(1)], &truth));
    assert!(!plaintexts_match(&vec![pt(3), pt(1)], &truth));
    assert!(!plaintexts_match(&vec![pt(1), pt(2), pt(3), pt(4)], &truth));
    assert!(plaintexts_match(&vec![], &vec![]));
    let mut near = pt(2);
    near[15] = 1;
    assert!(!plaintexts_match(&vec![pt(1), near, pt(3)], &truth));
}

#[test]
fn example_round() {
    let mut s = fresh(2, 2);
    assert_eq!(s.board().len(), 1);
    let ps = vec![pt(10), pt(20), pt(30)];
    assert!(s.cast_ballots(ps.clone(), "ballots".to_string()));
    assert_eq!(s.board().len(), 2);
    assert_eq!(s.plaintexts().len(), 3);
    assert_eq!(s.check_completion(None), None);
    let mut len = s.board().len();
    for round in 0..3 {
        let targets = s.step_targets("all").unwrap();
        let rs: Vec<Result<Vec<String>, String>> =
            targets.iter().map(|t| Ok(vec![format!("r{}-t{}", round, t)])).collect();
        assert_eq!(s.commit_step(rs), Ok(2));
        assert!(s.board().len() > len);
        len = s.board().len();
    }
    let recovered = vec![pt(30), pt(10), pt(20)];
    assert_eq!(s.check_completion(Some(recovered)), Some(true));
    assert_eq!(s.check_completion(Some(vec![pt(10)])), Some(false));
}

#[test]
fn empty_cast_records_no_ground_truth() {
    let mut s = fresh(2, 2);
    assert!(s.cast_ballots(vec![], "empty".to_string()));
    assert_eq!(s.board().len(), 2);
    assert!(s.plaintexts().is_empty());
    assert_eq!(s.ballot_decision(true), BallotDecision::Cast);
    assert!(s.cast_ballots(vec![pt(5), pt(6)], "ballots".to_string()));
    assert_eq!(s.board().len(), 3);
    assert_eq!(s.plaintexts(), &vec![pt(5), pt(6)]);
    assert_eq!(s.last_messages(), &["ballots".to_string()]);
    assert_eq!(s.ballot_decision(true), BallotDecision::AlreadyAdded);
}

#[test]
fn sentinel_is_the_callers() {
    let s = fresh(3, 2);
    assert_eq!(s.selected_slots(0), [1, 2, 0, 0, 0, 0, 0, 0, 0, 0, 0, 0]);
}
