use maratona_animeitor_rust::data::{
    update, Answer, ContestError, ContestFile, Effect, Fault, Intake, Msg, Revelation, RunTuple,
    RunsFile, RunsQueue, Score, Team,
};

fn run(id: i64, time: i64, team: &str, prob: &str, answer: Answer) -> RunTuple {
    RunTuple { id, time, team_login: team.to_string(), prob: prob.to_string(), answer }
}

fn contest(logins: &[&str], freeze: i64) -> ContestFile {
    let teams: Vec<Team> = logins.iter().map(|l| Team::new(l, "school", l)).collect();
    ContestFile::new("Contest".to_string(), teams, 0, 300, freeze, 20, 10)
}

fn place(r: &Revelation, login: &str) -> usize {
    r.contest.placement(&login.to_string()).unwrap()
}

fn solved(r: &Revelation, login: &str) -> usize {
    r.contest.teams.get(login).unwrap().score().solved
}

fn penalty(r: &Revelation, login: &str) -> i64 {
    r.contest.teams.get(login).unwrap().score().penalty
}

fn queue_logins(r: &Revelation) -> Vec<String> {
    r.runs_queue.queue.iter().map(|s| s.team_login.clone()).collect()
}

fn sample() -> Revelation {
    let c = contest(&["a", "b", "c", "d"], 90);
    let runs = vec![
        run(1, 10, "a", "A", Answer::Yes(10)),
        run(2, 20, "b", "A", Answer::Yes(20)),
        run(3, 30, "b", "B", Answer::No),
        run(4, 91, "b", "B", Answer::Yes(91)),
        run(5, 92, "c", "A", Answer::No),
        run(6, 93, "c", "A", Answer::Yes(93)),
        run(7, 94, "d", "A", Answer::No),
        run(8, 95, "a", "B", Answer::No),
        run(9, 96, "c", "B", Answer::Yes(96)),
    ];
    Revelation::new(c, RunsFile::new(runs))
}

#[test]
fn frozen_accept_is_hidden_then_revealed() {
    let c = contest(&["A", "B"], 90);
    let runs = vec![run(1, 10, "A", "A", Answer::Yes(10)), run(2, 95, "B", "A", Answer::Yes(95))];
    let mut r = Revelation::new(c, RunsFile::new(runs));
    r.apply_all_runs_before_frozen().unwrap();
    assert_eq!(solved(&r, "A"), 1);
    assert_eq!(solved(&r, "B"), 0);
    assert!(r.contest.teams.get("B").unwrap().wait());
    assert_eq!(place(&r, "A"), 1);
    assert_eq!(place(&r, "B"), 2);
    assert_eq!(r.pending(), 1);
    r.apply_one_run_from_queue().unwrap();
    assert_eq!(solved(&r, "B"), 1);
    assert_eq!(penalty(&r, "B"), 95);
    assert_eq!(place(&r, "A"), 1);
    assert_eq!(place(&r, "B"), 2);
    assert_eq!(r.pending(), 0);
    assert_eq!(r.contest.score_board, vec!["A".to_string(), "B".to_string()]);
}

#[test]
fn frozen_accept_can_overtake() {
    let c = contest(&["A", "B"], 90);
    let runs = vec![
        run(1, 80, "A", "A", Answer::Yes(80)),
        run(2, 10, "B", "B", Answer::Yes(10)),
        run(3, 95, "B", "A", Answer::Yes(95)),
    ];
    let mut r = Revelation::new(c, RunsFile::new(runs));
    r.apply_all_runs_before_frozen().unwrap();
    // B has less penalty: first already.
    assert_eq!(place(&r, "B"), 1);
    assert_eq!(place(&r, "A"), 2);
    r.apply_one_run_from_queue().unwrap();
    assert_eq!(solved(&r, "B"), 2);
    assert_eq!(penalty(&r, "B"), 105);
    assert_eq!(place(&r, "B"), 1);
    assert_eq!(place(&r, "A"), 2);
}

#[test]
fn load_queues_every_team_that_owes_a_disclosure() {
    let mut r = sample();
    assert!(r.is_wf());
    r.apply_all_runs_before_frozen().unwrap();
    // Before the freeze: a 1 solved (10), b 1 solved (20), c and d nothing.
    assert_eq!(place(&r, "a"), 1);
    assert_eq!(place(&r, "b"), 2);
    assert_eq!(place(&r, "c"), 3);
    assert_eq!(place(&r, "d"), 4);
    // Best first, worst last.
    assert_eq!(queue_logins(&r), vec!["a", "b", "c", "d"]);
    assert_eq!(r.pending(), 4);
    assert!(r.is_wf());
}

#[test]
fn reveal_goes_worst_first() {
    let mut r = sample();
    r.apply_all_runs_before_frozen().unwrap();
    let mut popped: Vec<String> = Vec::new();
    while r.pending() > 0 {
        let next = r.runs_queue.queue.last().unwrap().team_login.clone();
        let mine = place(&r, &next);
        for t in &r.contest.teams.values {
            if t.wait() {
                assert!(t.placement <= mine);
            }
        }
        popped.push(next);
        r.apply_one_run_from_queue().unwrap();
        assert!(r.is_wf());
    }
    // d: its rejection. c: rejection, then A accepted (now 1 solved, penalty 113,
    // behind a and b), then B accepted (2 solved: first). Then b and a.
    assert_eq!(popped, vec!["d", "c", "c", "c", "b", "a"]);
    assert_eq!(solved(&r, "c"), 2);
    assert_eq!(penalty(&r, "c"), 20 + 93 + 96);
    assert_eq!(solved(&r, "b"), 2);
    assert_eq!(penalty(&r, "b"), 20 + 20 + 91);
    assert_eq!(solved(&r, "a"), 1);
    assert_eq!(solved(&r, "d"), 0);
    assert_eq!(place(&r, "b"), 1);
    assert_eq!(place(&r, "c"), 2);
    assert_eq!(place(&r, "a"), 3);
    assert_eq!(place(&r, "d"), 4);
    assert_eq!(r.contest.score_board, vec!["b", "c", "a", "d"]);
}

#[test]
fn reveal_many_is_as_many_single_reveals() {
    for n in 0..8usize {
        let mut one = sample();
        one.apply_all_runs_before_frozen().unwrap();
        for _ in 0..n {
            one.apply_one_run_from_queue().unwrap();
        }
        one.contest.recalculate_placement().unwrap();
        let mut many = sample();
        many.apply_all_runs_before_frozen().unwrap();
        many.apply_runs_from_queue(n).unwrap();
        assert_eq!(queue_logins(&one), queue_logins(&many));
        assert_eq!(one.contest.score_board, many.contest.score_board);
        for (x, y) in one.contest.teams.values.iter().zip(many.contest.teams.values.iter()) {
            assert_eq!(x.login, y.login);
            assert_eq!(x.placement, y.placement);
            assert_eq!(x.problems.values, y.problems.values);
        }
    }
}

#[test]
fn reveal_many_stops_when_the_queue_is_empty() {
    let mut r = sample();
    r.apply_all_runs_before_frozen().unwrap();
    r.apply_runs_from_queue(1000).unwrap();
    assert_eq!(r.pending(), 0);
    assert_eq!(r.contest.score_board, vec!["b", "c", "a", "d"]);
}

#[test]
fn reveal_all_drains_the_queue() {
    let mut r = sample();
    r.apply_all_runs_before_frozen().unwrap();
    r.apply_all_runs_from_queue().unwrap();
    assert_eq!(r.pending(), 0);
    for t in &r.contest.teams.values {
        assert!(!t.wait());
    }
    assert_eq!(r.contest.score_board, vec!["b", "c", "a", "d"]);
    let mut direct = sample();
    direct.apply_all_runs().unwrap();
    assert_eq!(direct.contest.score_board, r.contest.score_board);
    for (x, y) in direct.contest.teams.values.iter().zip(r.contest.teams.values.iter()) {
        assert_eq!(x.placement, y.placement);
        assert_eq!(x.problems.values, y.problems.values);
    }
}

#[test]
fn reveal_on_an_empty_queue_does_nothing() {
    let c = contest(&["a"], 90);
    let mut r = Revelation::new(c, RunsFile::empty());
    assert!(r.apply_one_run_from_queue().is_ok());
    assert_eq!(place(&r, "a"), 0);
    assert!(r.contest.score_board.is_empty());
    assert!(r.apply_all_runs_from_queue().is_ok());
    assert_eq!(place(&r, "a"), 1);
}

#[test]
fn apply_all_runs_ignores_the_freeze() {
    let mut r = sample();
    r.apply_all_runs().unwrap();
    assert_eq!(r.pending(), 0);
    assert_eq!(solved(&r, "c"), 2);
    assert_eq!(solved(&r, "b"), 2);
    assert!(!r.contest.teams.get("c").unwrap().wait());
}

#[test]
fn apply_all_runs_on_frozen_withholds_everything() {
    let mut r = sample();
    r.apply_all_runs_on_frozen().unwrap();
    for l in ["a", "b", "c", "d"] {
        assert_eq!(solved(&r, l), 0);
    }
    assert_eq!(r.pending(), 4);
    // Nothing is known: the login decides, and d is the worst.
    assert_eq!(queue_logins(&r), vec!["a", "b", "c", "d"]);
    r.apply_all_runs_from_queue().unwrap();
    assert_eq!(r.contest.score_board, vec!["b", "c", "a", "d"]);
}

#[test]
fn unknown_team_in_the_feed_rejects_the_whole_load() {
    let c = contest(&["a", "b"], 90);
    let runs = vec![
        run(1, 10, "a", "A", Answer::Yes(10)),
        run(2, 20, "ghost", "A", Answer::Yes(20)),
        run(3, 30, "b", "A", Answer::Yes(30)),
        run(4, 40, "spook", "A", Answer::Yes(40)),
    ];
    let mut r = Revelation::new(c, RunsFile::new(runs));
    match r.apply_all_runs_before_frozen() {
        Err(ContestError::UnmatchedTeam(login)) => assert_eq!(login, "ghost"),
        Ok(()) => panic!("a feed with an unknown team was taken"),
    }
    assert_eq!(solved(&r, "a"), 0);
    assert_eq!(r.contest.teams.get("a").unwrap().problems.len(), 0);
    assert_eq!(r.pending(), 0);
    assert!(matches!(r.apply_all_runs(), Err(ContestError::UnmatchedTeam(_))));
    assert!(matches!(r.apply_all_runs_on_frozen(), Err(ContestError::UnmatchedTeam(_))));
    assert_eq!(r.contest.teams.get("a").unwrap().problems.len(), 0);
}

#[test]
fn queue_pops_the_worst_and_puts_it_back_if_it_still_owes() {
    let mut c = contest(&["a", "b"], 90);
    c.apply_run(&run(1, 10, "a", "A", Answer::Yes(10))).unwrap();
    c.apply_run_frozen(&run(2, 91, "b", "A", Answer::No)).unwrap();
    c.apply_run_frozen(&run(3, 92, "b", "A", Answer::Yes(92))).unwrap();
    c.apply_run_frozen(&run(4, 93, "a", "B", Answer::Yes(93))).unwrap();
    let mut q = RunsQueue::empty();
    assert_eq!(q.len(), 0);
    q.setup_teams(&c);
    assert_eq!(q.len(), 2);
    assert_eq!(q.queue[0].team_login, "a");
    assert_eq!(q.queue[1].team_login, "b");
    q.pop_run(&mut c).unwrap();
    assert_eq!(c.teams.get("b").unwrap().problems.get("A").unwrap().submissions, 1);
    assert_eq!(q.len(), 2);
    assert_eq!(q.queue[1].team_login, "b");
    q.pop_run(&mut c).unwrap();
    assert!(c.teams.get("b").unwrap().problems.get("A").unwrap().solved);
    assert_eq!(q.len(), 1);
    assert_eq!(q.queue[0].team_login, "a");
    q.pop_run(&mut c).unwrap();
    assert_eq!(q.len(), 0);
    assert_eq!(c.teams.get("a").unwrap().score().solved, 2);
    assert!(q.pop_run(&mut c).is_ok());
    assert_eq!(q.len(), 0);
}

#[test]
fn queue_entry_of_an_unknown_team_is_an_error() {
    let mut c = contest(&["a"], 90);
    c.apply_run_frozen(&run(1, 91, "a", "A", Answer::Yes(91))).unwrap();
    let mut q = RunsQueue::empty();
    q.setup_teams(&c);
    q.queue.push(Score { solved: 0, penalty: 5, max_solution_time: 0, team_login: "ghost".to_string() });
    assert!(q.is_wf());
    match q.pop_run(&mut c) {
        Err(ContestError::UnmatchedTeam(login)) => assert_eq!(login, "ghost"),
        Ok(()) => panic!("an entry of an unknown team was taken"),
    }
    assert_eq!(q.len(), 2);
    assert!(c.teams.get("a").unwrap().wait());
    let mut r = Revelation::new(c, RunsFile::empty());
    r.runs_queue = q;
    match r.apply_all_runs_from_queue() {
        Err(ContestError::UnmatchedTeam(login)) => assert_eq!(login, "ghost"),
        Ok(()) => panic!("an entry of an unknown team was taken"),
    }
    assert_eq!(r.pending(), 2);
    match r.apply_runs_from_queue(1) {
        Err(ContestError::UnmatchedTeam(login)) => assert_eq!(login, "ghost"),
        Ok(()) => panic!("an entry of an unknown team was taken"),
    }
    assert!(matches!(r.apply_runs_from_queue(5), Err(ContestError::UnmatchedTeam(_))));
    assert!(matches!(r.apply_one_run_from_queue(), Err(ContestError::UnmatchedTeam(_))));
    assert_eq!(r.pending(), 2);
    assert!(r.contest.teams.get("a").unwrap().wait());
    assert_eq!(place(&r, "a"), 0);
    // No disclosure is asked for: none is stopped.
    assert!(r.apply_runs_from_queue(0).is_ok());
    assert_eq!(r.pending(), 2);
    assert_eq!(place(&r, "a"), 1);
}

#[test]
fn unknown_entry_out_of_reach_does_no_harm() {
    let mut c = contest(&["a", "b"], 90);
    c.apply_run_frozen(&run(1, 91, "a", "A", Answer::No)).unwrap();
    c.apply_run_frozen(&run(2, 92, "a", "A", Answer::Yes(92))).unwrap();
    c.apply_run_frozen(&run(3, 93, "b", "A", Answer::Yes(93))).unwrap();
    let mut r = Revelation::new(c, RunsFile::empty());
    r.runs_queue.setup_teams(&r.contest);
    // The stranger ranks best: it is the last to leave the queue.
    r.runs_queue.queue.insert(
        0,
        Score { solved: 9, penalty: 0, max_solution_time: 0, team_login: "ghost".to_string() },
    );
    assert!(r.is_wf());
    assert_eq!(queue_logins(&r), vec!["ghost", "a", "b"]);
    // Two disclosures: b is accepted and leaves, a is rejected and stays.
    assert!(r.apply_runs_from_queue(2).is_ok());
    assert_eq!(queue_logins(&r), vec!["ghost", "a"]);
    assert_eq!(solved(&r, "b"), 1);
    assert_eq!(penalty(&r, "b"), 93);
    assert_eq!(r.contest.teams.get("a").unwrap().problems.get("A").unwrap().submissions, 1);
    assert_eq!(place(&r, "b"), 1);
    assert_eq!(place(&r, "a"), 2);
    // Two more would reach the stranger after a has left: nothing is done.
    match r.apply_runs_from_queue(2) {
        Err(ContestError::UnmatchedTeam(login)) => assert_eq!(login, "ghost"),
        Ok(()) => panic!("an entry of an unknown team was taken"),
    }
    assert_eq!(queue_logins(&r), vec!["ghost", "a"]);
    assert_eq!(solved(&r, "a"), 0);
    // One more stops short of it.
    assert!(r.apply_runs_from_queue(1).is_ok());
    assert_eq!(queue_logins(&r), vec!["ghost"]);
    assert_eq!(solved(&r, "a"), 1);
    assert_eq!(penalty(&r, "a"), 20 + 92);
    assert_eq!(place(&r, "b"), 1);
    assert_eq!(place(&r, "a"), 2);
    assert!(matches!(r.apply_all_runs_from_queue(), Err(ContestError::UnmatchedTeam(_))));
    assert_eq!(queue_logins(&r), vec!["ghost"]);
}

#[test]
fn reveal_charges_what_the_contest_charges() {
    let teams = vec![Team::new("a", "", "")];
    let c = ContestFile::new("".to_string(), teams, 0, 300, 90, 10, 1);
    let runs = vec![run(1, 91, "a", "A", Answer::No), run(2, 92, "a", "A", Answer::Yes(92))];
    let mut r = Revelation::new(c, RunsFile::new(runs));
    r.apply_all_runs_before_frozen().unwrap();
    r.apply_one_run_from_queue().unwrap();
    assert_eq!(r.contest.teams.get("a").unwrap().problems.get("A").unwrap().penalty, 10);
    r.apply_all_runs_from_queue().unwrap();
    assert_eq!(penalty(&r, "a"), 102);
}

#[test]
fn queue_check_refuses_disorder() {
    let mut q = RunsQueue::empty();
    assert!(q.is_wf());
    q.queue.push(Score { solved: 0, penalty: 0, max_solution_time: 0, team_login: "a".to_string() });
    q.queue.push(Score { solved: 3, penalty: 0, max_solution_time: 0, team_login: "b".to_string() });
    assert!(!q.is_wf());
}

#[test]
fn stale_queue_entry_just_leaves() {
    let mut c = contest(&["a"], 90);
    let mut q = RunsQueue::empty();
    q.queue.push(c.teams.get("a").unwrap().score());
    q.pop_run(&mut c).unwrap();
    assert_eq!(q.len(), 0);
    assert_eq!(c.teams.get("a").unwrap().problems.len(), 0);
}

#[test]
fn intake_says_what_is_withheld() {
    assert!(!Intake::Known.withholds(1000));
    assert!(Intake::Withheld.withholds(-1000));
    assert!(!Intake::FrozenFrom(90).withholds(89));
    assert!(Intake::FrozenFrom(90).withholds(90));
    assert!(Intake::FrozenFrom(90).withholds(91));
}

#[test]
fn driver_reset_asks_for_a_fetch() {
    let mut r = Revelation::new(ContestFile::dummy(), RunsFile::empty());
    assert!(matches!(update(Msg::Reset, &mut r), Effect::Fetch));
    assert_eq!(r.contest.contest_name, "Dummy Contest");
}

#[test]
fn driver_reports_what_could_not_be_fetched() {
    let mut r = Revelation::new(ContestFile::dummy(), RunsFile::empty());
    let e = update(Msg::Fetched(None, Some(contest(&["a"], 90))), &mut r);
    assert!(matches!(e, Effect::Log(Fault::Runs)));
    let e = update(Msg::Fetched(None, None), &mut r);
    assert!(matches!(e, Effect::Log(Fault::Runs)));
    let e = update(Msg::Fetched(Some(RunsFile::empty()), None), &mut r);
    assert!(matches!(e, Effect::Log(Fault::Contest)));
    assert_eq!(r.contest.teams.len(), 0);
}

#[test]
fn driver_loads_and_reveals() {
    let mut r = Revelation::new(ContestFile::dummy(), RunsFile::empty());
    let fresh = sample();
    let e = update(Msg::Fetched(Some(fresh.runs), Some(fresh.contest)), &mut r);
    assert!(matches!(e, Effect::Render));
    assert_eq!(r.pending(), 4);
    assert_eq!(place(&r, "a"), 1);
    assert!(matches!(update(Msg::Prox1, &mut r), Effect::Render));
    assert_eq!(queue_logins(&r), vec!["a", "b", "c"]);
    assert!(matches!(update(Msg::Prox(2), &mut r), Effect::Render));
    assert_eq!(solved(&r, "c"), 1);
    assert!(matches!(update(Msg::Prox(100), &mut r), Effect::Render));
    assert_eq!(r.pending(), 0);
    assert_eq!(r.contest.score_board, vec!["b", "c", "a", "d"]);
    assert!(matches!(update(Msg::Prox1, &mut r), Effect::Render));
}

#[test]
fn driver_rejects_a_refresh_that_does_not_fit() {
    let mut r = sample();
    r.apply_all_runs_before_frozen().unwrap();
    let bad_runs = RunsFile::new(vec![run(1, 10, "ghost", "A", Answer::Yes(10))]);
    let e = update(Msg::Fetched(Some(bad_runs), Some(contest(&["x"], 90))), &mut r);
    match e {
        Effect::Log(Fault::Engine(ContestError::UnmatchedTeam(login))) => assert_eq!(login, "ghost"),
        _ => panic!("a refresh that does not fit was taken"),
    }
    assert_eq!(r.pending(), 4);
    assert_eq!(r.contest.teams.len(), 4);
}
