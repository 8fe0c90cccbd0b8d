use maratona_animeitor_rust::data::{Answer, ContestError, ContestFile, RunTuple, RunsFile, Team};

fn run(id: i64, time: i64, team: &str, prob: &str, answer: Answer) -> RunTuple {
    RunTuple { id, time, team_login: team.to_string(), prob: prob.to_string(), answer }
}

fn contest(logins: &[&str]) -> ContestFile {
    let teams: Vec<Team> = logins.iter().map(|l| Team::new(l, "school", l)).collect();
    ContestFile::new("Contest".to_string(), teams, 0, 300, 240, 20, 10)
}

fn placements(c: &ContestFile) -> Vec<(String, usize)> {
    c.teams.values.iter().map(|t| (t.login.clone(), t.placement)).collect()
}

#[test]
fn new_contest_holds_teams_by_login() {
    let c = contest(&["zeta", "alpha", "mid"]);
    assert_eq!(c.contest_name, "Contest");
    assert_eq!(c.current_time, 0);
    assert_eq!(c.maximum_time, 300);
    assert_eq!(c.score_freeze_time, 240);
    assert_eq!(c.penalty_per_wrong_answer, 20);
    assert_eq!(c.number_problems, 10);
    assert!(c.score_board.is_empty());
    assert_eq!(c.teams.keys, vec!["alpha".to_string(), "mid".to_string(), "zeta".to_string()]);
    assert_eq!(c.teams.values[0].login, "alpha");
    assert_eq!(c.teams.values[2].login, "zeta");
    assert!(c.is_wf());
}

#[test]
fn later_team_of_a_login_replaces_the_earlier() {
    let teams = vec![
        Team::new("a", "first", "first"),
        Team::new("b", "b", "b"),
        Team::new("a", "second", "second"),
    ];
    let c = ContestFile::new("c".to_string(), teams, 0, 0, 0, 0, 0);
    assert_eq!(c.teams.len(), 2);
    assert_eq!(c.teams.get("a").unwrap().escola, "second");
}

#[test]
fn dummy_contest_is_empty() {
    let c = ContestFile::dummy();
    assert_eq!(c.contest_name, "Dummy Contest");
    assert_eq!(c.teams.len(), 0);
    assert_eq!(c.current_time, 0);
    assert_eq!(c.maximum_time, 0);
    assert_eq!(c.score_freeze_time, 0);
    assert_eq!(c.penalty_per_wrong_answer, 0);
    assert_eq!(c.number_problems, 0);
    assert!(c.score_board.is_empty());
}

#[test]
fn placement_of_known_and_unknown_login() {
    let mut c = contest(&["a", "b"]);
    assert_eq!(c.placement(&"a".to_string()), Some(0));
    assert_eq!(c.placement(&"nobody".to_string()), None);
    c.recalculate_placement().unwrap();
    assert_eq!(c.placement(&"a".to_string()), Some(1));
    assert_eq!(c.placement(&"b".to_string()), Some(2));
}

#[test]
fn apply_run_to_unknown_team_fails_with_its_login() {
    let mut c = contest(&["a"]);
    let r = run(1, 10, "ghost", "A", Answer::Yes(10));
    match c.apply_run(&r) {
        Err(ContestError::UnmatchedTeam(login)) => assert_eq!(login, "ghost"),
        Ok(()) => panic!("a run of an unknown team was taken"),
    }
    assert_eq!(c.teams.len(), 1);
    assert_eq!(c.teams.values[0].problems.len(), 0);
    match c.apply_run_frozen(&r) {
        Err(ContestError::UnmatchedTeam(login)) => assert_eq!(login, "ghost"),
        Ok(_) => panic!("a run of an unknown team was taken"),
    }
    assert_eq!(c.teams.values[0].problems.len(), 0);
}

#[test]
fn apply_run_is_seen_at_once() {
    let mut c = contest(&["a", "b"]);
    c.apply_run(&run(1, 10, "b", "A", Answer::Yes(10))).unwrap();
    let s = c.teams.get("b").unwrap().score();
    assert_eq!(s.solved, 1);
    assert_eq!(s.penalty, 10);
    assert_eq!(c.teams.get("a").unwrap().score().solved, 0);
}

#[test]
fn apply_run_frozen_hands_back_the_score_before_disclosure() {
    let mut c = contest(&["a", "b"]);
    c.apply_run(&run(1, 10, "b", "A", Answer::Yes(10))).unwrap();
    let s = c.apply_run_frozen(&run(2, 250, "b", "B", Answer::Yes(250))).unwrap();
    assert_eq!(s.solved, 1);
    assert_eq!(s.penalty, 10);
    assert_eq!(s.max_solution_time, 10);
    assert_eq!(s.team_login, "b");
    assert!(c.teams.get("b").unwrap().wait());
}

#[test]
fn recalculate_placement_ranks_by_score() {
    let mut c = contest(&["a", "b", "c", "d"]);
    c.apply_run(&run(1, 10, "c", "A", Answer::Yes(10))).unwrap();
    c.apply_run(&run(2, 20, "c", "B", Answer::Yes(20))).unwrap();
    c.apply_run(&run(3, 30, "b", "A", Answer::Yes(30))).unwrap();
    c.apply_run(&run(4, 15, "d", "A", Answer::No)).unwrap();
    c.apply_run(&run(5, 25, "d", "A", Answer::Yes(25))).unwrap();
    assert!(c.recalculate_placement().is_ok());
    // c: 2 solved; b: 1 solved, penalty 30; d: 1 solved, penalty 45; a: nothing.
    assert_eq!(
        placements(&c),
        vec![
            ("a".to_string(), 4),
            ("b".to_string(), 2),
            ("c".to_string(), 1),
            ("d".to_string(), 3),
        ]
    );
    assert_eq!(
        c.score_board,
        vec!["c".to_string(), "b".to_string(), "d".to_string(), "a".to_string()]
    );
}

#[test]
fn ties_are_broken_by_time_then_login() {
    let mut c = contest(&["x", "y", "z", "w"]);
    // x and y: one solved, penalty 50; x solved later.
    c.apply_run(&run(1, 10, "x", "A", Answer::No)).unwrap();
    c.apply_run(&run(2, 30, "x", "A", Answer::Yes(30))).unwrap();
    c.apply_run(&run(3, 10, "y", "A", Answer::Yes(10))).unwrap();
    c.apply_run(&run(4, 10, "y", "B", Answer::No)).unwrap();
    c.apply_run(&run(5, 10, "y", "B", Answer::No)).unwrap();
    c.reload_score().unwrap();
    // y: penalty 10 (the rejected runs on B do not count while B is unsolved).
    assert_eq!(c.placement(&"y".to_string()), Some(1));
    assert_eq!(c.placement(&"x".to_string()), Some(2));
    // w and z have nothing: the login decides.
    assert_eq!(c.placement(&"w".to_string()), Some(3));
    assert_eq!(c.placement(&"z".to_string()), Some(4));
    assert_eq!(
        c.score_board,
        vec!["y".to_string(), "x".to_string(), "w".to_string(), "z".to_string()]
    );
}

#[test]
fn same_penalty_earlier_last_solution_wins() {
    let mut c = contest(&["p", "q"]);
    // p: A at 40 and B at 10 -> penalty 50, last solution 40.
    c.apply_run(&run(1, 40, "p", "A", Answer::Yes(40))).unwrap();
    c.apply_run(&run(2, 10, "p", "B", Answer::Yes(10))).unwrap();
    // q: A at 20 and B at 30 -> penalty 50, last solution 30.
    c.apply_run(&run(3, 20, "q", "A", Answer::Yes(20))).unwrap();
    c.apply_run(&run(4, 30, "q", "B", Answer::Yes(30))).unwrap();
    c.recalculate_placement().unwrap();
    assert_eq!(c.placement(&"q".to_string()), Some(1));
    assert_eq!(c.placement(&"p".to_string()), Some(2));
}

#[test]
fn placements_are_one_to_n_each_once() {
    let logins: Vec<String> = (0..37).map(|i| format!("team{}", i)).collect();
    let refs: Vec<&str> = logins.iter().map(|s| s.as_str()).collect();
    let mut c = contest(&refs);
    for (i, l) in logins.iter().enumerate() {
        let t = (i as i64 * 7) % 11;
        if i % 3 != 0 {
            c.apply_run(&run(i as i64, t, l, "A", Answer::Yes(t))).unwrap();
        }
        if i % 5 == 0 {
            c.apply_run(&run(100 + i as i64, t, l, "B", Answer::Yes(t + 1))).unwrap();
        }
    }
    c.recalculate_placement().unwrap();
    let mut seen: Vec<usize> = c.teams.values.iter().map(|t| t.placement).collect();
    seen.sort();
    let expected: Vec<usize> = (1..=37).collect();
    assert_eq!(seen, expected);
    assert_eq!(c.score_board.len(), 37);
    for t in &c.teams.values {
        assert_eq!(c.score_board[t.placement - 1], t.login);
    }
    for a in &c.teams.values {
        for b in &c.teams.values {
            if a.score() < b.score() {
                assert!(a.placement < b.placement);
            }
        }
    }
}

#[test]
fn recompute_on_an_empty_roster() {
    let mut c = ContestFile::dummy();
    assert!(c.recalculate_placement().is_ok());
    assert!(c.score_board.is_empty());
}

#[test]
fn contest_check_refuses_a_team_under_another_login() {
    let mut c = contest(&["a", "b"]);
    assert!(c.is_wf());
    c.teams.values[0].login = "other".to_string();
    assert!(!c.is_wf());
}

#[test]
fn clone_of_a_contest_is_the_same() {
    let mut c = contest(&["a", "b"]);
    c.apply_run(&run(1, 10, "b", "A", Answer::Yes(10))).unwrap();
    c.recalculate_placement().unwrap();
    let d = c.clone();
    assert_eq!(d.contest_name, c.contest_name);
    assert_eq!(d.teams.keys, c.teams.keys);
    assert_eq!(placements(&d), placements(&c));
    assert_eq!(d.score_board, c.score_board);
    assert_eq!(d.score_freeze_time, 240);
    assert_eq!(d.teams.get("b").unwrap().score(), c.teams.get("b").unwrap().score());
    assert!(d.is_wf());
}

#[test]
fn runs_file_sorts_by_time_and_keeps_ties_in_order() {
    let runs = vec![
        run(1, 30, "a", "A", Answer::No),
        run(2, 10, "b", "A", Answer::No),
        run(3, 30, "c", "A", Answer::No),
        run(4, 20, "d", "A", Answer::No),
        run(5, 10, "e", "A", Answer::No),
        run(6, 30, "f", "A", Answer::No),
    ];
    let f = RunsFile::new(runs);
    assert_eq!(f.len(), 6);
    let ids: Vec<i64> = f.sorted().iter().map(|r| r.id).collect();
    assert_eq!(ids, vec![2, 5, 4, 1, 3, 6]);
    let again: Vec<i64> = f.as_vec().iter().map(|r| r.id).collect();
    assert_eq!(again, ids);
}

#[test]
fn runs_file_empty_and_single() {
    assert_eq!(RunsFile::empty().len(), 0);
    assert!(RunsFile::empty().sorted().is_empty());
    assert_eq!(RunsFile::new(Vec::new()).len(), 0);
    let f = RunsFile::new(vec![run(9, 5, "a", "A", Answer::Unk)]);
    assert_eq!(f.len(), 1);
    assert_eq!(f.sorted()[0].id, 9);
    assert_eq!(f.sorted()[0].answer, Answer::Unk);
}

#[test]
fn filter_frozen_keeps_runs_before_the_freeze() {
    let runs = vec![
        run(1, 95, "a", "A", Answer::No),
        run(2, 10, "b", "B", Answer::Yes(10)),
        run(3, 90, "c", "A", Answer::No),
        run(4, 89, "d", "A", Answer::No),
    ];
    let f = RunsFile::new(runs).filter_frozen(90);
    let ids: Vec<i64> = f.sorted().iter().map(|r| r.id).collect();
    assert_eq!(ids, vec![2, 4]);
    assert_eq!(f.sorted()[0].team_login, "b");
    assert_eq!(f.sorted()[0].prob, "B");
    assert_eq!(f.sorted()[0].answer, Answer::Yes(10));
    assert_eq!(f.filter_frozen(i64::MIN).len(), 0);
    assert_eq!(f.filter_frozen(i64::MAX).len(), 2);
}

#[test]
fn clone_of_a_runs_file_is_the_same() {
    let f = RunsFile::new(vec![run(1, 5, "a", "A", Answer::No), run(2, 3, "b", "B", Answer::Unk)]);
    let g = f.clone();
    let ids: Vec<i64> = g.sorted().iter().map(|r| r.id).collect();
    assert_eq!(ids, vec![2, 1]);
    let r = g.sorted()[0].clone();
    assert_eq!(r.team_login, "b");
    assert_eq!(r.time, 3);
}

#[test]
fn standings_list_the_teams_best_first() {
    let mut c = contest(&["a", "b", "c"]);
    c.apply_run(&run(1, 10, "b", "B", Answer::No)).unwrap();
    c.apply_run(&run(2, 20, "b", "B", Answer::Yes(20))).unwrap();
    c.apply_run(&run(3, 30, "b", "A", Answer::No)).unwrap();
    c.apply_run_frozen(&run(4, 250, "c", "A", Answer::Yes(250))).unwrap();
    assert!(c.standings().is_empty());
    c.recalculate_placement().unwrap();
    let rows = c.standings();
    assert_eq!(rows.len(), 3);
    let logins: Vec<&str> = rows.iter().map(|r| r.team_login.as_str()).collect();
    assert_eq!(logins, vec!["b", "a", "c"]);
    for (p, row) in rows.iter().enumerate() {
        assert_eq!(row.placement, p + 1);
    }
    let b = &rows[0];
    assert_eq!(b.escola, "school");
    assert_eq!(b.name, "b");
    assert_eq!(b.solved, 1);
    assert_eq!(b.penalty, 40);
    assert_eq!(b.problems.len(), 2);
    assert_eq!(b.problems[0].id, "A");
    assert!(!b.problems[0].solved);
    assert_eq!(b.problems[0].submissions, 1);
    assert_eq!(b.problems[0].penalty, 20);
    assert!(!b.problems[0].judging);
    assert_eq!(b.problems[1].id, "B");
    assert!(b.problems[1].solved);
    assert_eq!(b.problems[1].submissions, 2);
    assert_eq!(b.problems[1].penalty, 40);
    let c_row = &rows[2];
    assert_eq!(c_row.solved, 0);
    assert_eq!(c_row.penalty, 0);
    assert_eq!(c_row.problems.len(), 1);
    assert!(c_row.problems[0].judging);
    assert_eq!(c_row.problems[0].submissions, 0);
}

#[test]
fn standings_skip_a_login_the_roster_lacks() {
    let mut c = contest(&["a", "b"]);
    c.recalculate_placement().unwrap();
    c.score_board.insert(1, "ghost".to_string());
    let rows = c.standings();
    let logins: Vec<&str> = rows.iter().map(|r| r.team_login.as_str()).collect();
    assert_eq!(logins, vec!["a", "b"]);
    let row = c.teams.get("a").unwrap().standing();
    assert_eq!(row.placement, 1);
    assert!(row.problems.is_empty());
}

#[test]
fn rejected_run_costs_what_the_contest_charges() {
    let teams = vec![Team::new("a", "", "")];
    let mut c = ContestFile::new("".to_string(), teams, 0, 300, 240, 10, 1);
    assert!(c.apply_run(&run(1, 5, "a", "A", Answer::No)).is_ok());
    let p = c.teams.get("a").unwrap().problems.get("A").unwrap();
    assert!(!p.solved);
    assert_eq!(p.submissions, 1);
    assert_eq!(p.penalty, 10);
    assert_eq!(p.time_solved, 0);
    assert!(p.answers.is_empty());
    c.apply_run(&run(2, 9, "a", "A", Answer::Yes(9))).unwrap();
    assert_eq!(c.teams.get("a").unwrap().score().penalty, 19);
}

#[test]
fn dummy_contest_charges_nothing_for_a_rejection() {
    let mut c = ContestFile::dummy();
    c.teams.insert("a".to_string(), Team::new("a", "", ""));
    assert!(c.is_wf());
    c.apply_run(&run(1, 5, "a", "A", Answer::No)).unwrap();
    let p = c.teams.get("a").unwrap().problems.get("A").unwrap();
    assert_eq!(p.submissions, 1);
    assert_eq!(p.penalty, 0);
}

#[test]
fn roster_has_the_last_team_given_under_each_login() {
    let teams = vec![
        Team::new("b", "one", "1"),
        Team::new("a", "two", "2"),
        Team::new("b", "three", "3"),
        Team::new("c", "four", "4"),
        Team::new("a", "five", "5"),
    ];
    let c = ContestFile::new("c".to_string(), teams, 0, 0, 0, 0, 0);
    assert_eq!(c.teams.keys, vec!["a".to_string(), "b".to_string(), "c".to_string()]);
    assert_eq!(c.teams.get("a").unwrap().escola, "five");
    assert_eq!(c.teams.get("b").unwrap().escola, "three");
    assert_eq!(c.teams.get("c").unwrap().escola, "four");
}
