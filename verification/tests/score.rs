use maratona_animeitor_rust::data::lexical::compare_text;
use maratona_animeitor_rust::data::{Score, Side};
use std::cmp::Ordering;

fn score(solved: usize, penalty: i64, time: i64, login: &str) -> Score {
    Score { solved, penalty, max_solution_time: time, team_login: login.to_string() }
}

#[test]
fn more_solved_ranks_better() {
    let a = score(3, 500, 200, "zz");
    let b = score(2, 10, 10, "aa");
    assert_eq!(a.compare(&b), Side::Before);
    assert_eq!(b.compare(&a), Side::After);
    assert!(a < b);
}

#[test]
fn less_penalty_breaks_a_tie_on_solved() {
    let a = score(2, 100, 90, "zz");
    let b = score(2, 101, 10, "aa");
    assert_eq!(a.compare(&b), Side::Before);
    assert!(a < b);
    assert!(b > a);
}

#[test]
fn earlier_last_solution_breaks_a_tie_on_penalty() {
    let a = score(2, 100, 50, "zz");
    let b = score(2, 100, 51, "aa");
    assert_eq!(a.compare(&b), Side::Before);
    assert_eq!(b.compare(&a), Side::After);
}

#[test]
fn login_breaks_the_last_tie() {
    let a = score(2, 100, 50, "teamA");
    let b = score(2, 100, 50, "teamB");
    assert_eq!(a.compare(&b), Side::Before);
    assert_eq!(b.compare(&a), Side::After);
}

#[test]
fn a_score_is_the_same_as_itself() {
    let a = score(2, 100, 50, "teamA");
    let b = score(2, 100, 50, "teamA");
    assert_eq!(a.compare(&b), Side::Same);
    assert!(a == b);
    assert_eq!(a.partial_cmp(&b), Some(Ordering::Equal));
    assert!(!(a < b));
    assert!(!(b < a));
}

#[test]
fn partial_cmp_follows_compare() {
    let a = score(5, 0, 0, "x");
    let b = score(4, 0, 0, "x");
    assert_eq!(a.partial_cmp(&b), Some(Ordering::Less));
    assert_eq!(b.partial_cmp(&a), Some(Ordering::Greater));
}

#[test]
fn exactly_one_of_two_different_scores_ranks_better() {
    let all = vec![
        score(0, 0, 0, "a"),
        score(0, 0, 0, "b"),
        score(1, 30, 30, "a"),
        score(1, 30, 30, "c"),
        score(1, 30, 20, "d"),
        score(1, 10, 10, "e"),
        score(2, 300, 250, "f"),
        score(2, 300, 250, "g"),
        score(2, -1, 0, "h"),
    ];
    for (i, x) in all.iter().enumerate() {
        for (j, y) in all.iter().enumerate() {
            let xy = x.compare(y) == Side::Before;
            let yx = y.compare(x) == Side::Before;
            if i == j {
                assert!(!xy && !yx);
                assert_eq!(x.compare(y), Side::Same);
            } else {
                assert!(xy != yx);
            }
        }
    }
}

#[test]
fn ranking_is_transitive_on_a_sample() {
    let all = vec![
        score(3, 10, 5, "m"),
        score(3, 10, 5, "n"),
        score(3, 11, 1, "a"),
        score(2, 0, 0, "a"),
        score(0, 0, 0, "z"),
    ];
    for x in &all {
        for y in &all {
            for z in &all {
                if x.compare(y) == Side::Before && y.compare(z) == Side::Before {
                    assert_eq!(x.compare(z), Side::Before);
                }
            }
        }
    }
}

#[test]
fn clone_of_a_score_is_the_same() {
    let a = score(2, 100, 50, "teamA");
    let b = a.clone();
    assert_eq!(a, b);
    assert_eq!(b.team_login, "teamA");
}

#[test]
fn text_order_is_the_order_of_strings() {
    let words = [
        "", "a", "A", "aa", "ab", "b", "B", "team1", "team10", "team2", "teamA", "teama", "é",
        "e", "ez", "z", "zé", "日本", "日", "~", " ", "0", "10", "9", "𝄞", "\u{7f}", "\u{80}",
        "\u{7ff}", "\u{800}", "\u{ffff}", "\u{10000}",
    ];
    for a in words {
        for b in words {
            let expected = match a.cmp(b) {
                Ordering::Less => Side::Before,
                Ordering::Equal => Side::Same,
                Ordering::Greater => Side::After,
            };
            assert_eq!(compare_text(a, b), expected);
        }
    }
}

#[test]
fn a_prefix_comes_first() {
    assert_eq!(compare_text("team", "team1"), Side::Before);
    assert_eq!(compare_text("team1", "team"), Side::After);
    assert_eq!(compare_text("", "x"), Side::Before);
    assert_eq!(compare_text("", ""), Side::Same);
}
