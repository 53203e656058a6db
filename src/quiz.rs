//! A quiz session as a state machine: the caller shows each card, collects
//! the user's guess and judgment, and hands the judgment back; the session
//! keeps the tallies and gives the entry to append to the log.
use crate::calendar::{digit_value, is_digit, number_at, Timestamp};
use crate::record::{Card, FlashError, Outcome, ResultEntry};
use crate::sampler::same_card;
use crate::text::{chars_of, trim, trim_chars};
use vstd::prelude::*;

verus! {

/// Number of `Correct` outcomes.
pub open spec fn count_of_correct(s: Seq<Outcome>) -> nat
    decreases s.len(),
{
    if s.len() == 0 {
        0
    } else {
        count_of_correct(s.drop_last()) + if s.last() == Outcome::Correct {
            1nat
        } else {
            0nat
        }
    }
}

pub open spec fn outcome_for(judged_correct: bool) -> Outcome {
    if judged_correct {
        Outcome::Correct
    } else {
        Outcome::Incorrect
    }
}

/// The cards of a session, the outcomes recorded so far in the order the
/// cards were shown, and the tallies.
pub struct QuizSession {
    pub cards: Vec<Card>,
    pub outcomes: Vec<Outcome>,
    pub correct: usize,
    pub incorrect: usize,
}

impl QuizSession {
    /// One outcome per card shown so far, and tallies that count them.
    pub open spec fn wf(&self) -> bool {
        &&& self.outcomes@.len() <= self.cards@.len()
        &&& self.correct == count_of_correct(self.outcomes@)
        &&& self.correct + self.incorrect == self.outcomes@.len()
    }

    /// Index of the card to show next.
    pub open spec fn position(&self) -> int {
        self.outcomes@.len() as int
    }

    pub open spec fn finished(&self) -> bool {
        self.position() == self.cards@.len()
    }

    /// A session over `cards`, in their order, with nothing recorded yet.
    pub fn new(cards: Vec<Card>) -> (r: QuizSession)
        ensures
            r.wf(),
            r.cards@ == cards@,
            r.outcomes@.len() == 0,
            r.correct == 0,
            r.incorrect == 0,
    {
        QuizSession { cards, outcomes: Vec::new(), correct: 0, incorrect: 0 }
    }

    /// Whether every card has been judged.
    pub fn is_finished(&self) -> (r: bool)
        requires
            self.wf(),
        ensures
            r == self.finished(),
    {
        self.outcomes.len() == self.cards.len()
    }

    /// The card to show next, until every card has been judged.
    pub fn current(&self) -> (r: Option<&Card>)
        requires
            self.wf(),
        ensures
            self.finished() ==> r is None,
            !self.finished() ==> r == Some(&self.cards@[self.position()]),
    {
        if self.outcomes.len() < self.cards.len() {
            Some(&self.cards[self.outcomes.len()])
        } else {
            None
        }
    }

    /// Records the judgment on the current card, made at `now`: the tallies
    /// move on by one and the entry for the log is returned.
    pub fn record(&mut self, judged_correct: bool, now: Timestamp) -> (r: ResultEntry)
        requires
            old(self).wf(),
            !old(self).finished(),
        ensures
            final(self).wf(),
            final(self).cards@ == old(self).cards@,
            final(self).outcomes@ == old(self).outcomes@.push(outcome_for(judged_correct)),
            final(self).correct == old(self).correct + if judged_correct {
                1int
            } else {
                0int
            },
            final(self).incorrect == old(self).incorrect + if judged_correct {
                0int
            } else {
                1int
            },
            r.timestamp == now,
            r.outcome == outcome_for(judged_correct),
            same_card(r.card, old(self).cards@[old(self).position()]),
    {
        let i = self.outcomes.len();
        let n = self.cards.len();
        assert(self.correct + self.incorrect < n);
        let card = self.cards[i].duplicate();
        let outcome = if judged_correct {
            Outcome::Correct
        } else {
            Outcome::Incorrect
        };
        proof {
            assert(self.outcomes@.push(outcome).drop_last() =~= self.outcomes@);
        }
        self.outcomes.push(outcome);
        if judged_correct {
            self.correct = self.correct + 1;
        } else {
            self.incorrect = self.incorrect + 1;
        }
        ResultEntry { timestamp: now, outcome, card }
    }
}

/// Over a whole session, every card shown is judged once: the two tallies
/// add up to the number of cards, and one outcome stands for each card, in
/// the order the cards were shown.
pub proof fn lemma_tally_conservation(s: QuizSession)
    requires
        s.wf(),
        s.finished(),
    ensures
        s.correct + s.incorrect == s.cards@.len(),
        s.outcomes@.len() == s.cards@.len(),
{
}

/// Whether a confirmation answer says yes: `y`, with surrounding whitespace.
pub fn is_yes(answer: &str) -> (r: bool)
    ensures
        r == (trim(answer@) == seq!['y']),
{
    let t = trim_chars(&chars_of(answer));
    let r = t.len() == 1 && t[0] == 'y';
    proof {
        if r {
            assert(t@ =~= seq!['y']);
        }
    }
    r
}

/// The digits of a quiz length: the trimmed answer without a leading `+`.
pub open spec fn count_body(answer: Seq<char>) -> Seq<char> {
    let t = trim(answer);
    if t.len() > 0 && t[0] == '+' {
        t.drop_first()
    } else {
        t
    }
}

/// The number that the digits of a quiz length spell.
pub open spec fn count_value(answer: Seq<char>) -> int {
    let b = count_body(answer);
    number_at(b, 0, b.len() as int)
}

/// An answer that reads as a quiz length: one or more decimal digits, after
/// an optional `+`, spelling a number that fits in an `i64`.
pub open spec fn count_readable(answer: Seq<char>) -> bool {
    let b = count_body(answer);
    &&& b.len() > 0
    &&& forall|i: int| 0 <= i < b.len() ==> is_digit(#[trigger] b[i])
    &&& count_value(answer) <= i64::MAX
}

proof fn lemma_number_nonneg(s: Seq<char>, i: int)
    requires
        0 <= i <= s.len(),
        forall|k: int| 0 <= k < i ==> is_digit(#[trigger] s[k]),
    ensures
        0 <= number_at(s, 0, i),
    decreases i,
{
    if i > 0 {
        lemma_number_nonneg(s, i - 1);
        assert(is_digit(s[i - 1]));
    }
}

proof fn lemma_number_grows(s: Seq<char>, i: int, j: int)
    requires
        0 <= i <= j <= s.len(),
        forall|k: int| 0 <= k < j ==> is_digit(#[trigger] s[k]),
    ensures
        number_at(s, 0, i) <= number_at(s, 0, j),
    decreases j - i,
{
    if i < j {
        lemma_number_grows(s, i, j - 1);
        lemma_number_nonneg(s, j - 1);
        assert(is_digit(s[j - 1]));
    }
}

/// Reads the quiz length that the user typed. An answer that is not a
/// number is refused like a count that is not positive.
pub fn parse_count(answer: &str) -> (r: Result<i64, FlashError>)
    ensures
        r is Ok <==> count_readable(answer@),
        r matches Ok(v) ==> v == count_value(answer@),
        r matches Err(e) ==> e == FlashError::InvalidCount,
{
    let t = trim_chars(&chars_of(answer));
    let start: usize = if t.len() > 0 && t[0] == '+' {
        1
    } else {
        0
    };
    let ghost b = count_body(answer@);
    proof {
        assert(b =~= t@.skip(start as int));
    }
    if start == t.len() {
        return Err(FlashError::InvalidCount);
    }
    let mut acc: i64 = 0;
    let mut i: usize = start;
    while i < t.len()
        invariant
            start <= i <= t@.len(),
            b == t@.skip(start as int),
            b == count_body(answer@),
            forall|k: int| 0 <= k < i - start ==> is_digit(#[trigger] b[k]),
            acc == number_at(b, 0, i - start),
        decreases t@.len() - i,
    {
        let c = t[i];
        if !('0' <= c && c <= '9') {
            assert(!is_digit(b[i - start]));
            return Err(FlashError::InvalidCount);
        }
        let d = (c as u32 - 48) as i64;
        assert(d == digit_value(b[i - start]));
        assert(number_at(b, 0, i - start + 1) == 10 * acc + d);
        proof {
            lemma_number_nonneg(b, i - start);
        }
        if acc > (i64::MAX - d) / 10 {
            proof {
                assert(10 * acc + d > i64::MAX) by (nonlinear_arith)
                    requires
                        acc > (i64::MAX - d) / 10,
                        0 <= d <= 9,
                {}
                if forall|k: int| 0 <= k < b.len() ==> is_digit(#[trigger] b[k]) {
                    lemma_number_grows(b, i - start + 1, b.len() as int);
                }
            }
            return Err(FlashError::InvalidCount);
        }
        assert(10 * acc + d <= i64::MAX) by (nonlinear_arith)
            requires
                0 <= acc <= (i64::MAX - d) / 10,
                0 <= d <= 9,
        {}
        acc = 10 * acc + d;
        i = i + 1;
    }
    proof {
        assert(i - start == b.len());
    }
    Ok(acc)
}

} // verus!
