use maratona_animeitor_rust::data::{Answer, Problem, RunTuple, StringMap, Team, TimerData};

fn run(id: i64, time: i64, team: &str, prob: &str, answer: Answer) -> RunTuple {
    RunTuple { id, time, team_login: team.to_string(), prob: prob.to_string(), answer }
}

#[test]
fn string_map_keeps_keys_in_order() {
    let mut m: StringMap<i32> = StringMap::new();
    assert!(m.is_wf());
    assert_eq!(m.len(), 0);
    assert_eq!(m.insert("C".to_string(), 3), None);
    assert_eq!(m.insert("A".to_string(), 1), None);
    assert_eq!(m.insert("B".to_string(), 2), None);
    assert_eq!(m.keys, vec!["A".to_string(), "B".to_string(), "C".to_string()]);
    assert_eq!(m.values, vec![1, 2, 3]);
    assert_eq!(m.len(), 3);
    assert!(m.is_wf());
}

#[test]
fn string_map_insert_replaces_and_hands_back() {
    let mut m: StringMap<i32> = StringMap::new();
    m.insert("A".to_string(), 1);
    m.insert("B".to_string(), 2);
    assert_eq!(m.insert("A".to_string(), 10), Some(1));
    assert_eq!(m.keys.len(), 2);
    assert_eq!(m.get("A"), Some(&10));
    assert_eq!(m.get("B"), Some(&2));
    assert_eq!(m.get("C"), None);
    assert_eq!(m.get(""), None);
}

#[test]
fn string_map_locate_gives_rank_and_presence() {
    let mut m: StringMap<i32> = StringMap::new();
    for (i, k) in ["b", "d", "f", "h"].iter().enumerate() {
        m.insert(k.to_string(), i as i32);
    }
    assert_eq!(m.locate("a"), (0, false));
    assert_eq!(m.locate("b"), (0, true));
    assert_eq!(m.locate("c"), (1, false));
    assert_eq!(m.locate("d"), (1, true));
    assert_eq!(m.locate("e"), (2, false));
    assert_eq!(m.locate("h"), (3, true));
    assert_eq!(m.locate("i"), (4, false));
}

#[test]
fn string_map_slot_inserts_only_what_is_new() {
    let mut m: StringMap<i32> = StringMap::new();
    assert_eq!(m.slot("B", 2), 0);
    assert_eq!(m.slot("A", 1), 0);
    assert_eq!(m.slot("B", 99), 1);
    assert_eq!(m.values, vec![1, 2]);
    assert_eq!(m.slot("C", 3), 2);
    assert_eq!(m.keys, vec!["A".to_string(), "B".to_string(), "C".to_string()]);
}

#[test]
fn string_map_check_refuses_disorder() {
    let unsorted = StringMap { keys: vec!["B".to_string(), "A".to_string()], values: vec![1, 2] };
    assert!(!unsorted.is_wf());
    let twice = StringMap { keys: vec!["A".to_string(), "A".to_string()], values: vec![1, 2] };
    assert!(!twice.is_wf());
    let uneven = StringMap { keys: vec!["A".to_string()], values: vec![1, 2] };
    assert!(!uneven.is_wf());
    let fine = StringMap { keys: vec!["A".to_string(), "B".to_string()], values: vec![1, 2] };
    assert!(fine.is_wf());
}

#[test]
fn new_team_is_blank() {
    let t = Team::new("login", "school", "name");
    assert_eq!(t.login, "login");
    assert_eq!(t.escola, "school");
    assert_eq!(t.name, "name");
    assert_eq!(t.placement, 0);
    assert_eq!(t.problems.len(), 0);
    assert!(!t.wait());
    assert!(t.is_wf());
}

#[test]
fn dummy_team_has_placeholder_names() {
    let t = Team::dummy();
    assert_eq!(t.login, "<login>");
    assert_eq!(t.escola, "<escola>");
    assert_eq!(t.name, "<nome>");
    assert_eq!(t.placement, 0);
    assert_eq!(t.problems.len(), 0);
}

#[test]
fn apply_run_creates_the_problem_on_first_use() {
    let mut t = Team::new("t", "e", "n");
    t.apply_run(&run(1, 10, "t", "B", Answer::No), 20);
    t.apply_run(&run(2, 20, "t", "A", Answer::Yes(20)), 20);
    t.apply_run(&run(3, 30, "t", "B", Answer::Yes(30)), 20);
    assert_eq!(t.problems.keys, vec!["A".to_string(), "B".to_string()]);
    let a = t.problems.get("A").unwrap();
    assert!(a.solved);
    assert_eq!(a.submissions, 1);
    assert_eq!(a.penalty, 20);
    let b = t.problems.get("B").unwrap();
    assert!(b.solved);
    assert_eq!(b.submissions, 2);
    assert_eq!(b.penalty, 50);
    assert_eq!(b.time_solved, 30);
}

#[test]
fn team_score_sums_solved_problems_only() {
    let mut t = Team::new("t", "e", "n");
    t.apply_run(&run(1, 10, "t", "A", Answer::No), 20);
    t.apply_run(&run(2, 20, "t", "A", Answer::Yes(20)), 20);
    t.apply_run(&run(3, 30, "t", "B", Answer::No), 20);
    t.apply_run(&run(4, 40, "t", "C", Answer::Yes(40)), 20);
    let s = t.score();
    assert_eq!(s.solved, 2);
    assert_eq!(s.penalty, 20 + 20 + 40);
    assert_eq!(s.max_solution_time, 40);
    assert_eq!(s.team_login, "t");
}

#[test]
fn team_score_of_a_blank_team() {
    let s = Team::new("x", "e", "n").score();
    assert_eq!(s.solved, 0);
    assert_eq!(s.penalty, 0);
    assert_eq!(s.max_solution_time, 0);
    assert_eq!(s.team_login, "x");
}

#[test]
fn team_score_ignores_solutions_before_minute_zero() {
    let mut t = Team::new("t", "e", "n");
    t.apply_run(&run(1, 0, "t", "A", Answer::Yes(-7)), 20);
    let s = t.score();
    assert_eq!(s.solved, 1);
    assert_eq!(s.penalty, -7);
    assert_eq!(s.max_solution_time, 0);
}

#[test]
fn team_score_holds_the_penalty_within_range() {
    let mut t = Team::new("t", "e", "n");
    t.apply_run(&run(1, 0, "t", "A", Answer::Yes(i64::MAX)), 20);
    t.apply_run(&run(2, 0, "t", "B", Answer::Yes(i64::MAX)), 20);
    t.apply_run(&run(3, 0, "t", "C", Answer::Yes(-1)), 20);
    let s = t.score();
    assert_eq!(s.solved, 3);
    assert_eq!(s.penalty, i64::MAX);
    assert_eq!(s.max_solution_time, i64::MAX);
    let mut u = Team::new("u", "e", "n");
    u.apply_run(&run(1, 0, "u", "A", Answer::Yes(i64::MAX)), 20);
    u.apply_run(&run(2, 0, "u", "B", Answer::Yes(i64::MIN)), 20);
    assert_eq!(u.score().penalty, -1);
    let mut v = Team::new("v", "e", "n");
    v.apply_run(&run(1, 0, "v", "A", Answer::Yes(i64::MIN)), 20);
    v.apply_run(&run(2, 0, "v", "B", Answer::Yes(i64::MIN)), 20);
    assert_eq!(v.score().penalty, i64::MIN);
}

#[test]
fn team_charges_the_cost_it_is_given() {
    let mut t = Team::new("t", "e", "n");
    t.apply_run(&run(1, 10, "t", "A", Answer::No), 10);
    t.apply_run(&run(2, 20, "t", "A", Answer::Yes(20)), 10);
    assert_eq!(t.score().penalty, 30);
    t.apply_run_frozen(&run(3, 95, "t", "B", Answer::No));
    t.apply_run_frozen(&run(4, 96, "t", "B", Answer::Yes(96)));
    t.reveal_run_frozen(7);
    t.reveal_run_frozen(7);
    assert_eq!(t.score().penalty, 30 + 7 + 96);
}

#[test]
fn frozen_run_is_withheld_from_the_score() {
    let mut t = Team::new("t", "e", "n");
    t.apply_run_frozen(&run(1, 95, "t", "A", Answer::Yes(95)));
    assert!(t.wait());
    let s = t.score();
    assert_eq!(s.solved, 0);
    assert_eq!(s.penalty, 0);
    let a = t.problems.get("A").unwrap();
    assert_eq!(a.answers, vec![Answer::Yes(95)]);
    assert_eq!(a.submissions, 0);
}

#[test]
fn frozen_still_judging_creates_the_problem_but_owes_nothing() {
    let mut t = Team::new("t", "e", "n");
    t.apply_run_frozen(&run(1, 95, "t", "A", Answer::Wait));
    assert_eq!(t.problems.len(), 1);
    assert!(!t.wait());
}

#[test]
fn team_reveals_problems_in_letter_order() {
    let mut t = Team::new("t", "e", "n");
    t.apply_run_frozen(&run(1, 91, "t", "C", Answer::Yes(91)));
    t.apply_run_frozen(&run(2, 92, "t", "A", Answer::No));
    t.apply_run_frozen(&run(3, 93, "t", "A", Answer::Yes(93)));
    t.apply_run(&run(4, 5, "t", "B", Answer::Yes(5)), 20);
    assert_eq!(t.first_waiting(), 0);
    t.reveal_run_frozen(20);
    assert_eq!(t.problems.get("A").unwrap().submissions, 1);
    assert!(!t.problems.get("A").unwrap().solved);
    assert!(!t.problems.get("C").unwrap().solved);
    assert_eq!(t.first_waiting(), 0);
    t.reveal_run_frozen(20);
    assert!(t.problems.get("A").unwrap().solved);
    assert!(!t.problems.get("C").unwrap().solved);
    assert_eq!(t.first_waiting(), 2);
    assert!(t.wait());
    t.reveal_run_frozen(20);
    assert!(t.problems.get("C").unwrap().solved);
    assert!(!t.wait());
    assert_eq!(t.first_waiting(), 3);
    let before = t.score();
    t.reveal_run_frozen(20);
    assert_eq!(t.score(), before);
    assert_eq!(before.solved, 3);
    assert_eq!(before.penalty, 5 + 20 + 93 + 91);
    assert_eq!(before.max_solution_time, 93);
}

#[test]
fn clone_of_a_team_is_the_same() {
    let mut t = Team::new("t", "e", "n");
    t.apply_run(&run(1, 10, "t", "A", Answer::No), 20);
    t.apply_run_frozen(&run(2, 95, "t", "B", Answer::Yes(95)));
    t.placement = 4;
    let c = t.clone();
    assert_eq!(c.login, t.login);
    assert_eq!(c.escola, t.escola);
    assert_eq!(c.name, t.name);
    assert_eq!(c.placement, 4);
    assert_eq!(c.problems.keys, t.problems.keys);
    assert_eq!(c.problems.values, t.problems.values);
    assert!(c.is_wf());
}

#[test]
fn team_check_refuses_disordered_problems() {
    let mut t = Team::new("t", "e", "n");
    t.problems = StringMap {
        keys: vec!["B".to_string(), "A".to_string()],
        values: vec![Problem::empty(), Problem::empty()],
    };
    assert!(!t.is_wf());
}

#[test]
fn timer_is_frozen_from_the_freeze_minute() {
    assert!(!TimerData::new(89, 90).is_frozen());
    assert!(TimerData::new(90, 90).is_frozen());
    assert!(TimerData::new(91, 90).is_frozen());
    let t = TimerData::new(3, 7);
    assert_eq!(t.current_time, 3);
    assert_eq!(t.score_freeze_time, 7);
}
