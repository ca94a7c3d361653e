use remedy::schedule::sm2::{InvalidScore, Progress, Score};
use std::convert::TryFrom;

#[test]
fn scores_from_grades() {
    let all = [Score::Awful, Score::Poor, Score::Okay, Score::Good, Score::Solid, Score::Perfect];
    for (grade, score) in all.iter().enumerate() {
        assert_eq!(Score::try_from(grade as u8), Ok(*score));
        assert_eq!(score.score(), grade as u8);
    }
    assert_eq!(Score::try_from(6), Err(InvalidScore(6)));
    assert_eq!(Score::try_from(255), Err(InvalidScore(255)));
}

#[test]
fn correct_answers_score_above_okay() {
    assert!(!Score::Awful.is_correct());
    assert!(!Score::Okay.is_correct());
    assert!(Score::Good.is_correct());
    assert!(Score::Perfect.is_correct());
    assert_eq!(Score::Perfect.shortfall(), 0);
    assert_eq!(Score::Awful.shortfall(), 5);
    assert_eq!(Score::Good.shortfall(), 2);
}

#[test]
fn intervals_grow_one_six_then_by_ease() {
    let mut p = Progress::new();
    assert_eq!((p.repeat, p.interval), (0, 0));
    p.review(Score::Good, 99);
    assert_eq!((p.repeat, p.interval), (1, 1));
    p.review(Score::Perfect, 99);
    assert_eq!((p.repeat, p.interval), (2, 6));
    p.review(Score::Solid, 15);
    assert_eq!((p.repeat, p.interval), (3, 15));
}

#[test]
fn a_wrong_answer_starts_over() {
    let mut p = Progress::new();
    p.review(Score::Good, 0);
    p.review(Score::Good, 0);
    p.review(Score::Poor, 40);
    assert_eq!((p.repeat, p.interval), (0, 1));
    p.review(Score::Okay, 40);
    assert_eq!((p.repeat, p.interval), (0, 1));
    p.review(Score::Good, 40);
    assert_eq!((p.repeat, p.interval), (1, 1));
}
