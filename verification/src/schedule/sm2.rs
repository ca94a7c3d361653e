//! The SuperMemo 2 schedule.  The ease factor of a card is a floating-point
//! number and is kept by the application; the repetitions and the interval are
//! kept here.
use vstd::prelude::*;

verus! {

/// How well a card was recalled, from a complete blackout to a perfect answer.
#[derive(Debug, Clone, Copy, PartialEq, Eq)]
pub enum Score {
    Awful,
    Poor,
    Okay,
    Good,
    Solid,
    Perfect,
}

/// A number that is not a score.
#[derive(Debug, Clone, Copy, PartialEq, Eq)]
pub struct InvalidScore(pub u8);

impl Score {
    /// The grade of the score, `0` for `Awful` up to `5` for `Perfect`.
    pub open spec fn spec_score(self) -> u8 {
        match self {
            Score::Awful => 0,
            Score::Poor => 1,
            Score::Okay => 2,
            Score::Good => 3,
            Score::Solid => 4,
            Score::Perfect => 5,
        }
    }

    pub fn score(&self) -> (r: u8)
        ensures
            r == self.spec_score(),
    {
        match self {
            Score::Awful => 0,
            Score::Poor => 1,
            Score::Okay => 2,
            Score::Good => 3,
            Score::Solid => 4,
            Score::Perfect => 5,
        }
    }

    /// A score above `Okay` counts as a correct answer.
    pub fn is_correct(&self) -> (r: bool)
        ensures
            r == (self.spec_score() > 2),
    {
        self.score() > 2
    }

    /// How far the score is from `Perfect`: `5` minus the grade.
    pub fn shortfall(&self) -> (r: u8)
        ensures
            r == 5 - self.spec_score(),
    {
        5 - self.score()
    }
}

/// The score with a grade.
pub open spec fn score_of(value: u8) -> Result<Score, InvalidScore> {
    if value == 0 {
        Ok(Score::Awful)
    } else if value == 1 {
        Ok(Score::Poor)
    } else if value == 2 {
        Ok(Score::Okay)
    } else if value == 3 {
        Ok(Score::Good)
    } else if value == 4 {
        Ok(Score::Solid)
    } else if value == 5 {
        Ok(Score::Perfect)
    } else {
        Err(InvalidScore(value))
    }
}

/// A score and its grade stand for each other: the grade of a score gives the
/// score back, and a grade that gives a score is that score's grade.
pub proof fn lemma_score_round_trip(s: Score, value: u8)
    ensures
        score_of(s.spec_score()) == Ok::<Score, InvalidScore>(s),
        score_of(value) is Ok ==> score_of(value)->Ok_0.spec_score() == value,
        score_of(value) is Err <==> value > 5,
{
}

impl TryFrom<u8> for Score {
    type Error = InvalidScore;

    fn try_from(value: u8) -> (r: Result<Score, InvalidScore>) {
        if value == 0 {
            Ok(Score::Awful)
        } else if value == 1 {
            Ok(Score::Poor)
        } else if value == 2 {
            Ok(Score::Okay)
        } else if value == 3 {
            Ok(Score::Good)
        } else if value == 4 {
            Ok(Score::Solid)
        } else if value == 5 {
            Ok(Score::Perfect)
        } else {
            Err(InvalidScore(value))
        }
    }
}

impl vstd::std_specs::convert::TryFromSpecImpl<u8> for Score {
    open spec fn obeys_try_from_spec() -> bool {
        true
    }

    open spec fn try_from_spec(v: u8) -> Result<Score, InvalidScore> {
        score_of(v)
    }
}

/// How many times in a row a card was answered correctly, and the interval
/// until its next review, in days.
#[derive(Debug, Clone, Copy, PartialEq, Eq)]
pub struct Progress {
    pub repeat: usize,
    pub interval: u32,
}

impl Progress {
    /// A card never reviewed.
    pub fn new() -> (p: Progress)
        ensures
            p.repeat == 0,
            p.interval == 0,
    {
        Progress { repeat: 0, interval: 0 }
    }

    /// Records a review.  After a correct answer the interval becomes one day,
    /// then six, then `grown`, the previous interval times the ease factor,
    /// rounded; after a wrong answer the repetitions start over.
    pub fn review(&mut self, score: Score, grown: u32)
        requires
            score.spec_score() > 2 ==> old(self).repeat < usize::MAX,
        ensures
            score.spec_score() > 2 ==> {
                &&& final(self).interval == if old(self).repeat == 0 {
                    1
                } else if old(self).repeat == 1 {
                    6
                } else {
                    grown
                }
                &&& final(self).repeat == old(self).repeat + 1
            },
            score.spec_score() <= 2 ==> final(self).repeat == 0 && final(self).interval == 1,
    {
        if score.is_correct() {
            self.interval = match self.repeat {
                0 => 1,
                1 => 6,
                _ => grown,
            };
            self.repeat = self.repeat + 1;
        } else {
            self.repeat = 0;
            self.interval = 1;
        }
    }
}

} // verus!
