//! Aggregate statistics of the result log.
use crate::calendar::{days_between, local_now, Timestamp};
use crate::record::{FlashError, Outcome, ResultEntry};
use vstd::prelude::*;

verus! {

/// Counts and recency of the entries of a result log.
#[derive(Clone, Copy, Debug, PartialEq, Eq, Structural)]
pub struct Summary {
    pub total: usize,
    pub correct: usize,
    pub incorrect: usize,
    /// `correct * 100 / total`, truncated.
    pub correct_pct: usize,
    /// `incorrect * 100 / total`, truncated.
    pub incorrect_pct: usize,
    /// The timestamp of the last entry in log order.
    pub last: Timestamp,
    /// Calendar days from the date of `last` to today.
    pub days_since_last: i64,
}

/// Number of entries judged correct.
pub open spec fn count_correct(s: Seq<ResultEntry>) -> nat
    decreases s.len(),
{
    if s.len() == 0 {
        0
    } else {
        count_correct(s.drop_last()) + if s.last().outcome == Outcome::Correct {
            1nat
        } else {
            0nat
        }
    }
}

/// The summary of a non-empty log, seen on the day of `now`.
pub open spec fn summary_of(s: Seq<ResultEntry>, now: Timestamp) -> Summary {
    let total = s.len();
    let correct = count_correct(s);
    let incorrect = (total - correct) as nat;
    Summary {
        total: total as usize,
        correct: correct as usize,
        incorrect: incorrect as usize,
        correct_pct: (correct * 100 / total) as usize,
        incorrect_pct: (incorrect * 100 / total) as usize,
        last: s.last().timestamp,
        days_since_last: (now.day_count() - s.last().timestamp.day_count()) as i64,
    }
}

proof fn lemma_count_correct_bound(s: Seq<ResultEntry>)
    ensures
        count_correct(s) <= s.len(),
    decreases s.len(),
{
    if s.len() > 0 {
        lemma_count_correct_bound(s.drop_last());
    }
}

fn percent(part: usize, total: usize) -> (r: usize)
    requires
        0 < total,
        part <= total,
    ensures
        r == part as int * 100 / total as int,
{
    let p = part as u128 * 100;
    let q = p / (total as u128);
    proof {
        assert(q <= 100) by (nonlinear_arith)
            requires
                q as int == p as int / total as int,
                p as int == part as int * 100,
                part <= total,
                0 < total,
        {
            assert(p as int <= total as int * 100);
        }
    }
    q as usize
}

/// Counts the correct entries.
pub fn tally_correct(entries: &Vec<ResultEntry>) -> (r: usize)
    ensures
        r == count_correct(entries@),
{
    let mut n: usize = 0;
    let mut i: usize = 0;
    while i < entries.len()
        invariant
            0 <= i <= entries@.len(),
            n == count_correct(entries@.take(i as int)),
            n <= i,
        decreases entries@.len() - i,
    {
        proof {
            assert(entries@.take(i + 1).drop_last() =~= entries@.take(i as int));
        }
        if entries[i].outcome == Outcome::Correct {
            n = n + 1;
        }
        i = i + 1;
    }
    proof {
        assert(entries@.take(entries@.len() as int) =~= entries@);
    }
    n
}

/// The summary of the log as seen at `now`; an empty log has none.
pub fn summarize_at(entries: &Vec<ResultEntry>, now: &Timestamp) -> (r: Result<Summary, FlashError>)
    requires
        now.valid(),
        forall|i: int| 0 <= i < entries@.len() ==> (#[trigger] entries@[i]).timestamp.valid(),
    ensures
        r is Err <==> entries@.len() == 0,
        r matches Err(e) ==> e == FlashError::EmptyLog,
        r matches Ok(s) ==> s == summary_of(entries@, *now),
{
    let total = entries.len();
    if total == 0 {
        return Err(FlashError::EmptyLog);
    }
    let correct = tally_correct(entries);
    proof {
        lemma_count_correct_bound(entries@);
    }
    let incorrect = total - correct;
    let last = entries[total - 1].timestamp;
    let days = days_between(&last, now);
    Ok(
        Summary {
            total,
            correct,
            incorrect,
            correct_pct: percent(correct, total),
            incorrect_pct: percent(incorrect, total),
            last,
            days_since_last: days,
        },
    )
}

/// The summary of the log as seen now, by the local clock.
pub fn summarize(entries: &Vec<ResultEntry>) -> (r: Result<Summary, FlashError>)
    requires
        forall|i: int| 0 <= i < entries@.len() ==> (#[trigger] entries@[i]).timestamp.valid(),
    ensures
        r is Err <==> entries@.len() == 0,
        r matches Err(e) ==> e == FlashError::EmptyLog,
        r matches Ok(s) ==> exists|now: Timestamp| now.valid() && s == summary_of(entries@, now),
{
    let now = local_now();
    summarize_at(entries, &now)
}

} // verus!
