//! Progress figures of a Job run.

use vstd::prelude::*;

use crate::schema::{opt_string, option_text, Capability, ResolvedStep};

verus! {

/// Job-level percent after `completed` of `total` leaves: 100 when there are none.
pub open spec fn percent_of(completed: nat, total: nat) -> nat {
    if total == 0 {
        100
    } else if completed * 100 / total > 100 {
        100
    } else {
        completed * 100 / total
    }
}

pub fn overall_percent(completed: u32, total: u32) -> (p: u8)
    ensures
        p as nat == percent_of(completed as nat, total as nat),
{
    if total == 0 {
        return 100;
    }
    let q: u64 = (completed as u64 * 100) / total as u64;
    if q > 100 {
        100
    } else {
        q as u8
    }
}

/// The engine option text of the first transcribe leaf that names one.
pub open spec fn engine_of(steps: Seq<ResolvedStep>) -> Option<Seq<char>>
    decreases steps.len(),
{
    if steps.len() == 0 {
        None
    } else if steps[0].capability == Capability::Transcribe && option_text(
        steps[0].options,
        "engine"@,
    ) is Some {
        option_text(steps[0].options, "engine"@)
    } else {
        engine_of(steps.drop_first())
    }
}

pub fn engine_from_steps(steps: &Vec<ResolvedStep>) -> (r: Option<String>)
    ensures
        match engine_of(steps@) {
            Some(e) => r is Some && r->0@ == e,
            None => r is None,
        },
{
    let mut i: usize = 0;
    assert(steps@.subrange(0, steps@.len() as int) =~= steps@);
    while i < steps.len()
        invariant
            i <= steps@.len(),
            engine_of(steps@) == engine_of(steps@.subrange(i as int, steps@.len() as int)),
        decreases steps@.len() - i,
    {
        let s = &steps[i];
        let ghost rest = steps@.subrange(i as int, steps@.len() as int);
        assert(rest[0] == *s);
        assert(rest.drop_first() =~= steps@.subrange(i + 1, steps@.len() as int));
        if s.capability == Capability::Transcribe {
            if let Some(e) = opt_string(&s.options, "engine") {
                return Some(e);
            }
        }
        i = i + 1;
    }
    None
}

} // verus!
