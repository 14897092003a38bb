use vstd::prelude::*;
use vstd::string::*;
use crate::checkpoint::{
    below, lemma_plan_shape, lemma_plan_within_total, non_increasing, planned, staged_checkpoints,
    strictly_descending,
};
use crate::duration::{duration_text, format_duration};

verus! {

/// One notification of a running timer: when it fires, counted in seconds from the start of
/// the wait, and what it says.
#[derive(Debug)]
pub struct Alarm {
    pub after: u64,
    pub checkpoint: u64,
    pub body: String,
}

/// What the notification for a staged checkpoint, `checkpoint` seconds before expiry, says:
/// the time still left.
pub open spec fn staged_text(checkpoint: u64) -> Seq<char> {
    "Will end in "@ + duration_text(checkpoint as int)
}

/// What the single notification at expiry says.
pub open spec fn terminal_text() -> Seq<char> {
    "Time's up!"@
}

/// The text of the notification for a staged checkpoint, `checkpoint` seconds before expiry.
pub fn staged_message(checkpoint: u64) -> (r: String)
    ensures
        r@ == staged_text(checkpoint),
{
    let text = format_duration(checkpoint);
    String::from_str("Will end in ").concat(text.as_str())
}

/// The text of the notification at expiry.
pub fn terminal_message() -> (r: String)
    ensures
        r@ == terminal_text(),
{
    String::from_str("Time's up!")
}

/// Whether `alarms` are the notifications of a wait of `total` seconds with the staged
/// checkpoints `staged`: one per staged checkpoint, in the same order, each firing once the
/// wait has that many seconds left and saying how long is left; then one last alarm, the only
/// one that says the time is up, at expiry.
pub open spec fn schedules(alarms: Seq<Alarm>, total: u64, staged: Seq<u64>) -> bool {
    &&& alarms.len() == staged.len() + 1
    &&& forall|i: int|
        0 <= i < staged.len() ==> {
            &&& (#[trigger] alarms[i]).checkpoint == staged[i]
            &&& alarms[i].after == total - staged[i]
            &&& alarms[i].body@ == staged_text(staged[i])
        }
    &&& alarms.last().checkpoint == 0
    &&& alarms.last().after == total
    &&& alarms.last().body@ == terminal_text()
}

/// The notifications of a wait of `total` seconds with the staged checkpoints `staged`, then
/// the one at expiry. A staged checkpoint above the total would have to fire before the wait
/// starts, so none may be given.
pub fn schedule(total: u64, staged: &[u64]) -> (r: Vec<Alarm>)
    requires
        forall|i: int| 0 <= i < staged@.len() ==> staged@[i] <= total,
    ensures
        schedules(r@, total, staged@),
        non_increasing(staged@) ==> forall|i: int, j: int|
            0 <= i < j < r@.len() ==> r@[i].after <= r@[j].after,
{
    let mut r: Vec<Alarm> = Vec::new();
    let mut i: usize = 0;
    while i < staged.len()
        invariant
            i <= staged@.len(),
            forall|k: int| 0 <= k < staged@.len() ==> staged@[k] <= total,
            r@.len() == i,
            forall|k: int|
                0 <= k < i ==> {
                    &&& (#[trigger] r@[k]).checkpoint == staged@[k]
                    &&& r@[k].after == total - staged@[k]
                    &&& r@[k].body@ == staged_text(staged@[k])
                },
        decreases staged@.len() - i,
    {
        let c = staged[i];
        let body = staged_message(c);
        r.push(Alarm { after: total - c, checkpoint: c, body });
        i = i + 1;
    }
    let body = terminal_message();
    r.push(Alarm { after: total, checkpoint: 0, body });
    r
}

/// The notifications of a wait of `total` seconds with the given thresholds: one for each
/// threshold strictly below `total`, then the one at expiry; their checkpoints are the plan's.
pub fn alarms_for(total: u64, thresholds: &[u64]) -> (r: Vec<Alarm>)
    ensures
        schedules(r@, total, thresholds@.filter(below(total))),
        r@.len() == planned(total, thresholds@).len(),
        forall|i: int| 0 <= i < r@.len() ==> #[trigger] r@[i].checkpoint == planned(total, thresholds@)[i],
        strictly_descending(thresholds@) ==> forall|i: int, j: int|
            0 <= i < j < r@.len() ==> r@[i].after <= r@[j].after,
{
    let staged = staged_checkpoints(total, thresholds);
    proof {
        lemma_plan_within_total(total, thresholds@);
        lemma_plan_shape(total, thresholds@);
        let p = planned(total, thresholds@);
        assert(p.drop_last() =~= staged@);
        assert forall|i: int| 0 <= i < staged@.len() implies staged@[i] <= total by {
            assert(staged@[i] == p[i]);
        }
    }
    schedule(total, staged.as_slice())
}


/// In a schedule, the time is said to be up exactly once: by the last alarm, which fires at
/// expiry, no earlier than any other alarm.
pub proof fn lemma_terminal_once(alarms: Seq<Alarm>, total: u64, staged: Seq<u64>)
    requires
        schedules(alarms, total, staged),
    ensures
        alarms.last().body@ == terminal_text(),
        forall|i: int|
            0 <= i < alarms.len() - 1 ==> (#[trigger] alarms[i]).body@ != terminal_text()
                && alarms[i].after <= alarms.last().after,
{
    reveal_strlit("Time's up!");
    reveal_strlit("Will end in ");
    assert forall|i: int| 0 <= i < alarms.len() - 1 implies (#[trigger] alarms[i]).body@
        != terminal_text() && alarms[i].after <= alarms.last().after by {
        assert(alarms[i].body@[0] == 'W');
        assert(terminal_text()[0] == 'T');
    }
}

} // verus!
