//! What holds of the registry across its operations.

use vstd::prelude::*;
use crate::history::{archived, lemma_appended};
use crate::ledger::{accounts_of, distinct_accounts, has_account};
use crate::model::{
    answered, lemma_create_consistent, lemma_submit_consistent, CreateError, OutcomeView,
    RegistryView, SubmitError,
};
use crate::queue::{
    find, holds, lemma_put, lemma_slot_bounds, lemma_slot_ordered, lemma_without, slot,
};
use crate::settlement::{lemma_split_total, share, total};
use crate::task::TaskView;
use crate::task_result::TaskResultView;

verus! {

/// In a consistent registry no task is both open and settled, no id stands
/// twice in the queue or twice in the archive, and no account has two
/// results for one task, open or settled.
pub proof fn lemma_one_place(r: RegistryView)
    requires
        r.consistent(),
    ensures
        forall|id: Seq<char>| !(holds(r.queue, id) && #[trigger] archived(r.history, id)),
        forall|i: int, j: int|
            0 <= i < j < r.queue.len() ==> (#[trigger] r.queue[i]).id != (#[trigger] r.queue[j]).id,
        r.settled_once(),
        forall|i: int|
            0 <= i < r.queue.len() ==> distinct_accounts((#[trigger] r.queue[i]).results),
        forall|account: Seq<char>, j: int|
            r.history.dom().contains(account) && 0 <= j < r.history[account].len()
                ==> distinct_accounts((#[trigger] r.history[account][j]).results),
{
    assert forall|i: int, j: int| 0 <= i < j < r.queue.len() implies (#[trigger] r.queue[i]).id != (
    #[trigger] r.queue[j]).id by {
        crate::text::lemma_precedes_irreflexive(r.queue[i].id);
    }
}

/// The creation of a task keeps the registry consistent and loses no task:
/// every id that was open is still open, every id that was settled is still
/// settled, and where the creation is accepted the new id is open.
pub proof fn lemma_create_keeps_tasks(r: RegistryView, task: TaskView)
    requires
        r.consistent(),
        task.results.len() == 0,
    ensures
        r.create(task).consistent(),
        r.create(task).history == r.history,
        forall|id: Seq<char>| holds(r.queue, id) ==> holds(r.create(task).queue, id),
        r.create_verdict(task.bounty, task.id) is Ok ==> holds(r.create(task).queue, task.id)
            && !r.knows(task.id),
        forall|id: Seq<char>|
            id != task.id ==> (holds(r.create(task).queue, id) <==> holds(r.queue, id)),
{
    lemma_create_consistent(r, task);
    if r.create_verdict(task.bounty, task.id) is Ok {
        lemma_put(r.queue, task);
    }
}

/// A submission keeps the registry consistent and loses no task: an id
/// that was settled is still settled, and an id that was open is still
/// open or is now settled.
pub proof fn lemma_submit_keeps_tasks(
    r: RegistryView,
    task_id: Seq<char>,
    caller: Seq<char>,
    result: TaskResultView,
    transfers_completed: bool,
)
    requires
        r.consistent(),
    ensures
        r.submit(task_id, caller, result, transfers_completed).consistent(),
        forall|id: Seq<char>|
            r.knows(id) <==> r.submit(task_id, caller, result, transfers_completed).knows(id),
        forall|id: Seq<char>|
            archived(r.history, id) ==> archived(
                r.submit(task_id, caller, result, transfers_completed).history,
                id,
            ),
{
    let after = r.submit(task_id, caller, result, transfers_completed);
    lemma_submit_consistent(r, task_id, caller, result, transfers_completed);
    match r.submit_verdict(task_id, caller, result, transfers_completed) {
        Err(_) => {},
        Ok(outcome) => {
            lemma_slot_bounds(r.queue, task_id);
            lemma_slot_ordered(r.queue, task_id);
            let task = answered(r.queue[find(r.queue, task_id)->0], caller, result);
            assert(holds(r.queue, task_id));
            match outcome {
                OutcomeView::Recorded => {
                    lemma_put(r.queue, task);
                },
                OutcomeView::RecordedAndSettled { .. } => {
                    lemma_without(r.queue, task_id);
                    lemma_appended(r.history, task);
                    assert forall|id: Seq<char>| r.knows(id) <==> after.knows(id) by {
                        if id != task_id {
                            assert(holds(after.queue, id) <==> holds(r.queue, id));
                            assert(archived(after.history, id) <==> archived(r.history, id));
                        }
                    }
                    assert forall|id: Seq<char>| archived(r.history, id) implies archived(
                        after.history,
                        id,
                    ) by {
                        if id != task_id {
                            assert(archived(after.history, id) <==> archived(r.history, id));
                        }
                    }
                },
            }
        },
    }
}

/// After a result of `caller` for a task is recorded, no further result
/// of `caller` for that task is: whatever it holds, the submission is
/// refused and the registry stays as it is.
pub proof fn lemma_second_submission_refused(
    r: RegistryView,
    task_id: Seq<char>,
    caller: Seq<char>,
    first: TaskResultView,
    first_transfers: bool,
    second: TaskResultView,
    second_transfers: bool,
)
    requires
        r.consistent(),
        r.submit_verdict(task_id, caller, first, first_transfers) is Ok,
    ensures
        ({
            let after = r.submit(task_id, caller, first, first_transfers);
            &&& after.submit(task_id, caller, second, second_transfers) == after
            &&& after.submit_verdict(task_id, caller, second, second_transfers) == (
            if r.submit_verdict(task_id, caller, first, first_transfers) == Ok::<
                OutcomeView,
                SubmitError,
            >(OutcomeView::Recorded) {
                Err::<OutcomeView, SubmitError>(SubmitError::DuplicateSubmission)
            } else {
                Err::<OutcomeView, SubmitError>(SubmitError::TaskNotFoundOrSettled)
            })
        }),
{
    let after = r.submit(task_id, caller, first, first_transfers);
    lemma_slot_bounds(r.queue, task_id);
    lemma_slot_ordered(r.queue, task_id);
    let k = find(r.queue, task_id)->0;
    let task = answered(r.queue[k], caller, first);
    match r.submit_verdict(task_id, caller, first, first_transfers)->Ok_0 {
        OutcomeView::Recorded => {
            lemma_put(r.queue, task);
            assert(after.queue[slot(r.queue, task_id)] == task);
            assert(task.results[task.results.len() - 1].account == caller);
        },
        OutcomeView::RecordedAndSettled { .. } => {
            lemma_without(r.queue, task_id);
            lemma_slot_ordered(after.queue, task_id);
        },
    }
}

/// An accepted result settles the task exactly when it is the one that
/// brings the count of results up to the threshold (the payouts having
/// gone through). The task then leaves the queue and stands in the archive
/// in the same step; before that it stays in the queue, with that result
/// more.
pub proof fn lemma_settles_at_threshold(
    r: RegistryView,
    task_id: Seq<char>,
    caller: Seq<char>,
    result: TaskResultView,
)
    requires
        r.consistent(),
        holds(r.queue, task_id),
        !has_account(r.queue[slot(r.queue, task_id)].results, caller),
    ensures
        ({
            let task = r.queue[slot(r.queue, task_id)];
            let after = r.submit(task_id, caller, result, true);
            let verdict = r.submit_verdict(task_id, caller, result, true);
            &&& task.id == task_id
            &&& verdict is Ok
            &&& verdict->Ok_0 is RecordedAndSettled <==> task.results.len() + 1
                == r.minimum_result_count
            &&& verdict->Ok_0 is RecordedAndSettled ==> !holds(after.queue, task_id) && archived(
                after.history,
                task_id,
            )
            &&& verdict->Ok_0 is Recorded ==> holds(after.queue, task_id) && !archived(
                after.history,
                task_id,
            ) && after.queue[slot(after.queue, task_id)] == answered(task, caller, result)
        }),
{
    lemma_slot_bounds(r.queue, task_id);
    lemma_slot_ordered(r.queue, task_id);
    let k = slot(r.queue, task_id);
    let task = answered(r.queue[k], caller, result);
    let after = r.submit(task_id, caller, result, true);
    lemma_submit_consistent(r, task_id, caller, result, true);
    if r.queue[k].results.len() + 1 < r.minimum_result_count {
        lemma_put(r.queue, task);
        lemma_slot_ordered(after.queue, task_id);
    } else {
        lemma_without(r.queue, task_id);
        lemma_appended(r.history, task);
    }
}

/// A settled task is settled for good: no result is recorded for it any
/// more, and no task can be created under its id.
pub proof fn lemma_settled_for_good(
    r: RegistryView,
    id: Seq<char>,
    caller: Seq<char>,
    result: TaskResultView,
    transfers_completed: bool,
    task: TaskView,
)
    requires
        r.consistent(),
        archived(r.history, id),
        task.id == id,
    ensures
        r.submit_verdict(id, caller, result, transfers_completed) == Err::<
            OutcomeView,
            SubmitError,
        >(SubmitError::TaskNotFoundOrSettled),
        r.submit(id, caller, result, transfers_completed) == r,
        r.create_verdict(task.bounty, id) is Err,
        r.create(task) == r,
{
    lemma_slot_ordered(r.queue, id);
}

/// The payouts of a settlement are equal parts of the bounty, one for each
/// of the results; they add up to the part times their number, which is
/// never more than the bounty.
pub proof fn lemma_settlement_total(
    r: RegistryView,
    task_id: Seq<char>,
    caller: Seq<char>,
    result: TaskResultView,
)
    requires
        r.consistent(),
        r.submit_verdict(task_id, caller, result, true) matches Ok(outcome)
            && outcome is RecordedAndSettled,
    ensures
        ({
            let task = r.queue[slot(r.queue, task_id)];
            let payouts = r.submit_verdict(task_id, caller, result, true)->Ok_0->payouts;
            let count = task.results.len() + 1;
            &&& payouts == r.payouts_due(task_id, caller)
            &&& payouts.len() == count == r.minimum_result_count
            &&& total(payouts) == share(task.bounty, count) * count
            &&& total(payouts) <= task.bounty
            &&& share(task.bounty, count) == task.bounty as nat / count
        }),
{
    lemma_slot_bounds(r.queue, task_id);
    lemma_slot_ordered(r.queue, task_id);
    let task = r.queue[slot(r.queue, task_id)];
    lemma_split_total(task.bounty, accounts_of(task.results).push(caller));
    let count = task.results.len() + 1;
    assert(task.bounty as nat / count <= task.bounty) by (nonlinear_arith)
        requires
            count >= 1,
    ;
}

/// A bounty below the minimum creates nothing: the creation is refused
/// and the registry stays as it is.
pub proof fn lemma_low_bounty_creates_nothing(r: RegistryView, task: TaskView)
    requires
        task.bounty < r.minimum_bounty,
    ensures
        r.create_verdict(task.bounty, task.id) == Err::<(), CreateError>(
            CreateError::BelowMinimumBounty,
        ),
        r.create(task) == r,
{
}

} // verus!
