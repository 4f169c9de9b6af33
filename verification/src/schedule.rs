//! Decisions of the probing loop: how long to pause between rounds, and
//! which candidate address of a domain to pin.

use vstd::prelude::*;

verus! {

/// Seconds between the starts of two probing rounds.
pub const TEST_INTERVAL_SECS: i64 = 300;

/// How long to pause after a round that took `elapsed_secs` seconds: the
/// rest of the interval, or `None` to start the next round at once.
pub fn pause_after(elapsed_secs: i64) -> (r: Option<u64>)
    requires
        elapsed_secs > i64::MIN + TEST_INTERVAL_SECS,
    ensures
        elapsed_secs < TEST_INTERVAL_SECS ==> r == Some((TEST_INTERVAL_SECS - elapsed_secs) as u64),
        elapsed_secs >= TEST_INTERVAL_SECS ==> r is None,
{
    let rest = TEST_INTERVAL_SECS - elapsed_secs;
    if rest > 0 {
        Some(rest as u64)
    } else {
        None
    }
}

/// Where the check of a domain's candidates stands.
#[derive(Debug, Clone, Copy, PartialEq, Eq, Structural)]
pub enum ProbeStep {
    /// Check whether the candidate at this index accepts a connection.
    Check(usize),
    /// The candidate at this index accepted: pin it.
    Chosen(usize),
    /// No candidate accepted.
    Exhausted,
}

/// The first step for a domain with `count` candidates, best first.
pub open spec fn first_step(count: nat) -> ProbeStep {
    if count == 0 {
        ProbeStep::Exhausted
    } else {
        ProbeStep::Check(0)
    }
}

/// The step after the candidate at `current` did or did not accept.
pub open spec fn step_after(count: nat, current: nat, reachable: bool) -> ProbeStep {
    if reachable {
        ProbeStep::Chosen(current as usize)
    } else if current + 1 < count {
        ProbeStep::Check((current + 1) as usize)
    } else {
        ProbeStep::Exhausted
    }
}

/// The first step for a domain with `count` candidates: check the first
/// (best) candidate, or give up at once when there is none.
pub fn probe_start(count: usize) -> (s: ProbeStep)
    ensures
        s == first_step(count as nat),
        count > 0 ==> s == ProbeStep::Check(0),
        count == 0 ==> s == ProbeStep::Exhausted,
{
    if count == 0 {
        ProbeStep::Exhausted
    } else {
        ProbeStep::Check(0)
    }
}

/// The step after checking the candidate at `current`. A candidate that did
/// not accept is to be dropped from the history before the next check.
pub fn probe_next(count: usize, current: usize, reachable: bool) -> (s: ProbeStep)
    requires
        current < count,
    ensures
        s == step_after(count as nat, current as nat, reachable),
        reachable ==> s == ProbeStep::Chosen(current),
        !reachable && current + 1 < count ==> s == ProbeStep::Check((current + 1) as usize),
        !reachable && current + 1 == count ==> s == ProbeStep::Exhausted,
{
    if reachable {
        ProbeStep::Chosen(current)
    } else if current + 1 < count {
        ProbeStep::Check(current + 1)
    } else {
        ProbeStep::Exhausted
    }
}

/// Where the checks end when candidate `i` answers `answers[i]`, starting
/// from a check of candidate `from`.
pub open spec fn probe_outcome(answers: Seq<bool>, from: nat) -> ProbeStep
    decreases answers.len() - from,
{
    if from >= answers.len() {
        ProbeStep::Exhausted
    } else {
        let s = step_after(answers.len(), from, answers[from as int]);
        if s is Check {
            probe_outcome(answers, from + 1)
        } else {
            s
        }
    }
}

/// The first candidate from `from` on that accepts.
pub open spec fn first_accepting(answers: Seq<bool>, from: nat) -> Option<nat>
    decreases answers.len() - from,
{
    if from >= answers.len() {
        None
    } else if answers[from as int] {
        Some(from)
    } else {
        first_accepting(answers, from + 1)
    }
}

/// The checks pin the first candidate that accepts, having dropped every
/// candidate before it, or end with none when no candidate accepts.
pub proof fn lemma_probe_picks_first(answers: Seq<bool>, from: nat)
    requires
        answers.len() <= usize::MAX,
    ensures
        probe_outcome(answers, from) == (match first_accepting(answers, from) {
            Some(c) => ProbeStep::Chosen(c as usize),
            None => ProbeStep::Exhausted,
        }),
        first_accepting(answers, from) matches Some(c) ==> from <= c < answers.len() && answers[c as int]
            && forall|j: int| from <= j < c ==> !answers[j],
        first_accepting(answers, from) is None ==> forall|j: int|
            from <= j < answers.len() ==> !answers[j],
    decreases answers.len() - from,
{
    if from < answers.len() {
        lemma_probe_picks_first(answers, from + 1);
    }
}

/// Where the checks of a domain end, from its first step, when candidate
/// `i` answers `answers[i]`.
pub open spec fn probe_from_start(answers: Seq<bool>) -> ProbeStep {
    match first_step(answers.len()) {
        ProbeStep::Check(i) => probe_outcome(answers, i as nat),
        other => other,
    }
}

/// From the first step, the checks of a domain pin exactly the first
/// candidate, in order of weight, that accepts a connection; when none
/// accepts, they end with none. In particular a domain with one candidate
/// pins it when it accepts.
pub proof fn lemma_probe_from_start(answers: Seq<bool>)
    requires
        answers.len() <= usize::MAX,
    ensures
        forall|c: int|
            0 <= c < answers.len() && answers[c] && (forall|j: int| 0 <= j < c ==> !answers[j])
                ==> probe_from_start(answers) == ProbeStep::Chosen(c as usize),
        (forall|j: int| 0 <= j < answers.len() ==> !answers[j]) ==> probe_from_start(answers)
            == ProbeStep::Exhausted,
{
    lemma_probe_picks_first(answers, 0);
    assert forall|c: int|
        0 <= c < answers.len() && answers[c] && (forall|j: int| 0 <= j < c ==> !answers[j])
            implies probe_from_start(answers) == ProbeStep::Chosen(c as usize) by {
        match first_accepting(answers, 0) {
            Some(f) => {
                if (f as int) < c {
                    assert(!answers[f as int]);
                } else if c < f {
                    assert(!answers[c]);
                }
            },
            None => {
                assert(!answers[c]);
            },
        }
    }
    if forall|j: int| 0 <= j < answers.len() ==> !answers[j] {
        if first_accepting(answers, 0) is Some {
            let f = first_accepting(answers, 0)->0;
            assert(answers[f as int]);
        }
    }
}

} // verus!
