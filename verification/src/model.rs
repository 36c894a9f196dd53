//! The registry as a state machine over values: what it holds, what must
//! always be true of it, and what each operation makes of it.

use vstd::prelude::*;
use crate::history::{appended, archived, lemma_appended};
use crate::ledger::{accounts_of, distinct_accounts, has_account, SubmissionView};
use crate::queue::{
    find, holds, lemma_put, lemma_slot_bounds, lemma_slot_ordered, lemma_without, ordered, put,
    without,
};
use crate::settlement::{payout_views, split, Payout, PayoutView};
use crate::task::TaskView;
use crate::task_result::TaskResultView;

verus! {

/// Why a task was not created.
#[derive(Debug, Clone, Copy, PartialEq, Eq, Structural)]
pub enum CreateError {
    /// The bounty is below the least that the registry takes.
    BelowMinimumBounty,
    /// The seed is too short to draw an id from.
    EntropyUnavailable,
    /// The id that was drawn belongs to a task already.
    IdCollision,
}

/// Why a result was not recorded.
#[derive(Debug, Clone, Copy, PartialEq, Eq, Structural)]
pub enum SubmitError {
    /// No open task stands under the id: there never was one, or it is
    /// settled.
    TaskNotFoundOrSettled,
    /// The caller has a result for the task already.
    DuplicateSubmission,
    /// The result would have settled the task, and the payouts did not go
    /// through.
    TransferFailure,
}

/// What became of a result that was recorded.
#[derive(Debug, PartialEq, Eq)]
pub enum SubmitOutcome {
    /// The task is still open.
    Recorded,
    /// The task is settled: `payouts` are paid and it is archived.
    RecordedAndSettled { payouts: Vec<Payout> },
}

pub enum OutcomeView {
    Recorded,
    RecordedAndSettled { payouts: Seq<PayoutView> },
}

impl View for SubmitOutcome {
    type V = OutcomeView;

    open spec fn view(&self) -> OutcomeView {
        match self {
            SubmitOutcome::Recorded => OutcomeView::Recorded,
            SubmitOutcome::RecordedAndSettled { payouts } => OutcomeView::RecordedAndSettled {
                payouts: payout_views(payouts@),
            },
        }
    }
}

/// The answer to a submission as values.
pub open spec fn verdict_view(verdict: Result<SubmitOutcome, SubmitError>) -> Result<
    OutcomeView,
    SubmitError,
> {
    match verdict {
        Ok(outcome) => Ok(outcome@),
        Err(error) => Err(error),
    }
}

/// `task` with the result of `caller` added to its ledger.
pub open spec fn answered(task: TaskView, caller: Seq<char>, result: TaskResultView) -> TaskView {
    TaskView { results: task.results.push(SubmissionView { account: caller, result }), ..task }
}

/// What a registry holds.
pub struct RegistryView {
    /// The open tasks, in the order of their ids.
    pub queue: Seq<TaskView>,
    /// The settled tasks of each account that has any, oldest first.
    pub history: Map<Seq<char>, Seq<TaskView>>,
    /// The least bounty that a task is created with.
    pub minimum_bounty: u128,
    /// The number of results that settles a task.
    pub minimum_result_count: nat,
}

impl RegistryView {
    /// Whether a task under `id` is open or settled.
    pub open spec fn knows(self, id: Seq<char>) -> bool {
        holds(self.queue, id) || archived(self.history, id)
    }

    /// Every open task has fewer results than settle it, each from another
    /// account.
    pub open spec fn open_tasks_valid(self) -> bool {
        forall|i: int|
            0 <= i < self.queue.len() ==> distinct_accounts((#[trigger] self.queue[i]).results)
                && self.queue[i].results.len() < self.minimum_result_count
    }

    /// Every settled task stands under the account that created it and has
    /// exactly as many results as settle a task, each from another account.
    pub open spec fn settled_tasks_valid(self) -> bool {
        forall|account: Seq<char>, j: int|
            self.history.dom().contains(account) && 0 <= j < self.history[account].len() ==> (
            #[trigger] self.history[account][j]).submitter_account_id == account
                && distinct_accounts(self.history[account][j].results)
                && self.history[account][j].results.len() == self.minimum_result_count
    }

    /// No id stands twice in the archive.
    pub open spec fn settled_once(self) -> bool {
        forall|a: Seq<char>, j: int, b: Seq<char>, k: int|
            self.history.dom().contains(a) && 0 <= j < self.history[a].len()
                && self.history.dom().contains(b) && 0 <= k < self.history[b].len() && (a != b
                || j != k) ==> (#[trigger] self.history[a][j]).id != (
            #[trigger] self.history[b][k]).id
    }

    /// No task is both open and settled.
    pub open spec fn open_or_settled(self) -> bool {
        forall|id: Seq<char>| !(holds(self.queue, id) && #[trigger] archived(self.history, id))
    }

    /// What is true of a registry at all times.
    pub open spec fn consistent(self) -> bool {
        &&& self.minimum_result_count >= 1
        &&& ordered(self.queue)
        &&& self.open_tasks_valid()
        &&& self.settled_tasks_valid()
        &&& self.settled_once()
        &&& self.open_or_settled()
    }

    /// A registry with these limits and no task.
    pub open spec fn empty(minimum_bounty: u128, minimum_result_count: nat) -> RegistryView {
        RegistryView {
            queue: Seq::empty(),
            history: Map::empty(),
            minimum_bounty,
            minimum_result_count,
        }
    }

    /// The answer to the creation of a task under `id` with `bounty`.
    pub open spec fn create_verdict(self, bounty: u128, id: Seq<char>) -> Result<(), CreateError> {
        if bounty < self.minimum_bounty {
            Err(CreateError::BelowMinimumBounty)
        } else if self.knows(id) {
            Err(CreateError::IdCollision)
        } else {
            Ok(())
        }
    }

    /// The registry after the creation of `task`: with `task` in the queue
    /// where the creation is accepted, unchanged where it is not.
    pub open spec fn create(self, task: TaskView) -> RegistryView {
        if self.create_verdict(task.bounty, task.id) is Ok {
            RegistryView { queue: put(self.queue, task), ..self }
        } else {
            self
        }
    }

    /// The answer to `caller` submitting `result` for the task under
    /// `task_id`, where `transfers_completed` says whether the payouts that
    /// a settlement owes have gone through.
    pub open spec fn submit_verdict(
        self,
        task_id: Seq<char>,
        caller: Seq<char>,
        result: TaskResultView,
        transfers_completed: bool,
    ) -> Result<OutcomeView, SubmitError> {
        match find(self.queue, task_id) {
            None => Err(SubmitError::TaskNotFoundOrSettled),
            Some(k) => {
                let task = self.queue[k];
                if has_account(task.results, caller) {
                    Err(SubmitError::DuplicateSubmission)
                } else if task.results.len() + 1 < self.minimum_result_count {
                    Ok(OutcomeView::Recorded)
                } else if !transfers_completed {
                    Err(SubmitError::TransferFailure)
                } else {
                    Ok(
                        OutcomeView::RecordedAndSettled {
                            payouts: split(task.bounty, accounts_of(task.results).push(caller)),
                        },
                    )
                }
            },
        }
    }

    /// The registry after that submission: with the result in the ledger
    /// of the task where it is recorded, the task moved from the queue to
    /// the history of its creator where that settles it, and unchanged
    /// where the submission is refused.
    pub open spec fn submit(
        self,
        task_id: Seq<char>,
        caller: Seq<char>,
        result: TaskResultView,
        transfers_completed: bool,
    ) -> RegistryView {
        match self.submit_verdict(task_id, caller, result, transfers_completed) {
            Err(_) => self,
            Ok(outcome) => {
                let task = answered(self.queue[find(self.queue, task_id)->0], caller, result);
                match outcome {
                    OutcomeView::Recorded => RegistryView {
                        queue: put(self.queue, task),
                        ..self
                    },
                    OutcomeView::RecordedAndSettled { .. } => RegistryView {
                        queue: without(self.queue, task_id),
                        history: appended(self.history, task),
                        ..self
                    },
                }
            },
        }
    }

    /// The payouts that are owed if `caller` submits a result for the task
    /// under `task_id`: those of the settlement, where the submission is
    /// accepted and settles the task, and none otherwise.
    pub open spec fn payouts_due(self, task_id: Seq<char>, caller: Seq<char>) -> Seq<PayoutView> {
        match find(self.queue, task_id) {
            None => Seq::empty(),
            Some(k) => {
                let task = self.queue[k];
                if has_account(task.results, caller) || task.results.len() + 1
                    < self.minimum_result_count {
                    Seq::empty()
                } else {
                    split(task.bounty, accounts_of(task.results).push(caller))
                }
            },
        }
    }

    /// Whether `task` can be added as an open task: its id is new, and it
    /// has fewer results than settle it, each from another account.
    pub open spec fn admits_open(self, task: TaskView) -> bool {
        &&& !self.knows(task.id)
        &&& distinct_accounts(task.results)
        &&& task.results.len() < self.minimum_result_count
    }

    /// Whether `task` can be added as a settled task: its id is new, and
    /// it has exactly as many results as settle it, each from another
    /// account.
    pub open spec fn admits_settled(self, task: TaskView) -> bool {
        &&& !self.knows(task.id)
        &&& distinct_accounts(task.results)
        &&& task.results.len() == self.minimum_result_count
    }

    /// The registry with `task` in the queue.
    pub open spec fn with_open(self, task: TaskView) -> RegistryView {
        RegistryView { queue: put(self.queue, task), ..self }
    }

    /// The registry with `task` at the end of the history of its creator.
    pub open spec fn with_settled(self, task: TaskView) -> RegistryView {
        RegistryView { history: appended(self.history, task), ..self }
    }

    /// The registry with `tasks` added one after the other as open tasks,
    /// if each can be added when its turn comes.
    pub open spec fn with_all_open(self, tasks: Seq<TaskView>) -> Option<RegistryView>
        decreases tasks.len(),
    {
        if tasks.len() == 0 {
            Some(self)
        } else {
            match self.with_all_open(tasks.drop_last()) {
                Some(r) => if r.admits_open(tasks.last()) {
                    Some(r.with_open(tasks.last()))
                } else {
                    None
                },
                None => None,
            }
        }
    }

    /// The registry with `tasks` added one after the other as settled
    /// tasks, if each can be added when its turn comes.
    pub open spec fn with_all_settled(self, tasks: Seq<TaskView>) -> Option<RegistryView>
        decreases tasks.len(),
    {
        if tasks.len() == 0 {
            Some(self)
        } else {
            match self.with_all_settled(tasks.drop_last()) {
                Some(r) => if r.admits_settled(tasks.last()) {
                    Some(r.with_settled(tasks.last()))
                } else {
                    None
                },
                None => None,
            }
        }
    }

    /// The registry with these limits that holds `open` as its open tasks
    /// and `settled` as its settled ones, if there is one: the threshold
    /// is not zero, and each task can be added when its turn comes.
    pub open spec fn assembled(
        minimum_bounty: u128,
        minimum_result_count: nat,
        open: Seq<TaskView>,
        settled: Seq<TaskView>,
    ) -> Option<RegistryView> {
        if minimum_result_count == 0 {
            None
        } else {
            match RegistryView::empty(minimum_bounty, minimum_result_count).with_all_open(open) {
                Some(r) => r.with_all_settled(settled),
                None => None,
            }
        }
    }

    /// The registry without its open tasks and without the history of
    /// `account`.
    pub open spec fn cleared(self, account: Seq<char>) -> RegistryView {
        RegistryView { queue: Seq::empty(), history: self.history.remove(account), ..self }
    }
}

/// The accounts of a ledger with one more line.
pub proof fn lemma_accounts_of_push(lines: Seq<SubmissionView>, line: SubmissionView)
    ensures
        accounts_of(lines.push(line)) == accounts_of(lines).push(line.account),
{
    assert(accounts_of(lines.push(line)) =~= accounts_of(lines).push(line.account));
}

/// A registry without tasks is consistent.
pub proof fn lemma_empty_consistent(minimum_bounty: u128, minimum_result_count: nat)
    requires
        minimum_result_count >= 1,
    ensures
        RegistryView::empty(minimum_bounty, minimum_result_count).consistent(),
{
    let r = RegistryView::empty(minimum_bounty, minimum_result_count);
    assert forall|id: Seq<char>| !(holds(r.queue, id) && #[trigger] archived(r.history, id)) by {}
}

/// Adding an open task that the registry admits keeps it consistent.
pub proof fn lemma_with_open_consistent(r: RegistryView, task: TaskView)
    requires
        r.consistent(),
        r.admits_open(task),
    ensures
        r.with_open(task).consistent(),
{
    let after = r.with_open(task);
    lemma_put(r.queue, task);
    lemma_slot_bounds(r.queue, task.id);
    lemma_slot_ordered(r.queue, task.id);
    let s = crate::queue::slot(r.queue, task.id);
    assert(after.queue == r.queue.insert(s, task));
    assert forall|i: int| 0 <= i < after.queue.len() implies distinct_accounts(
        (#[trigger] after.queue[i]).results,
    ) && after.queue[i].results.len() < after.minimum_result_count by {
        if i < s {
            assert(after.queue[i] == r.queue[i]);
        } else if i > s {
            assert(after.queue[i] == r.queue[i - 1]);
        }
    }
    assert forall|id: Seq<char>|
        !(holds(after.queue, id) && #[trigger] archived(after.history, id)) by {
        if id != task.id {
            assert(holds(after.queue, id) <==> holds(r.queue, id));
        }
    }
}

/// Adding a settled task that the registry admits keeps it consistent.
pub proof fn lemma_with_settled_consistent(r: RegistryView, task: TaskView)
    requires
        r.consistent(),
        r.admits_settled(task),
    ensures
        r.with_settled(task).consistent(),
{
    let after = r.with_settled(task);
    lemma_settlement_keeps_archive(r, task);
    lemma_appended(r.history, task);
    assert forall|id: Seq<char>|
        !(holds(after.queue, id) && #[trigger] archived(after.history, id)) by {
        if id != task.id {
            assert(archived(after.history, id) <==> archived(r.history, id));
        }
    }
}

/// The creation of a task keeps the registry consistent.
pub proof fn lemma_create_consistent(r: RegistryView, task: TaskView)
    requires
        r.consistent(),
        task.results.len() == 0,
    ensures
        r.create(task).consistent(),
{
    if r.create_verdict(task.bounty, task.id) is Ok {
        lemma_with_open_consistent(r, task);
    }
}

/// A submission keeps the registry consistent.
pub proof fn lemma_submit_consistent(
    r: RegistryView,
    task_id: Seq<char>,
    caller: Seq<char>,
    result: TaskResultView,
    transfers_completed: bool,
)
    requires
        r.consistent(),
    ensures
        r.submit(task_id, caller, result, transfers_completed).consistent(),
{
    let after = r.submit(task_id, caller, result, transfers_completed);
    match r.submit_verdict(task_id, caller, result, transfers_completed) {
        Err(_) => {},
        Ok(outcome) => {
            lemma_slot_bounds(r.queue, task_id);
            lemma_slot_ordered(r.queue, task_id);
            let k = find(r.queue, task_id)->0;
            let before = r.queue[k];
            let task = answered(before, caller, result);
            assert(distinct_accounts(task.results)) by {
                assert forall|i: int, j: int| 0 <= i < j < task.results.len() implies (
                #[trigger] task.results[i]).account != (#[trigger] task.results[j]).account by {
                    if j == before.results.len() {
                        assert(before.results[i].account != caller);
                    } else {
                        assert(before.results[i].account != before.results[j].account);
                    }
                }
            }
            match outcome {
                OutcomeView::Recorded => {
                    lemma_put(r.queue, task);
                    assert(after.queue == r.queue.update(k, task));
                    assert forall|i: int| 0 <= i < after.queue.len() implies distinct_accounts(
                        (#[trigger] after.queue[i]).results,
                    ) && after.queue[i].results.len() < after.minimum_result_count by {
                        if i != k {
                            assert(after.queue[i] == r.queue[i]);
                        }
                    }
                    assert forall|id: Seq<char>|
                        !(holds(after.queue, id) && #[trigger] archived(after.history, id)) by {
                        if id != task_id {
                            assert(holds(after.queue, id) <==> holds(r.queue, id));
                        } else {
                            assert(holds(r.queue, id));
                        }
                    }
                },
                OutcomeView::RecordedAndSettled { .. } => {
                    lemma_without(r.queue, task_id);
                    lemma_appended(r.history, task);
                    assert(after.queue == r.queue.remove(k));
                    assert(holds(r.queue, task_id));
                    assert(!archived(r.history, task_id));
                    assert forall|i: int| 0 <= i < after.queue.len() implies distinct_accounts(
                        (#[trigger] after.queue[i]).results,
                    ) && after.queue[i].results.len() < after.minimum_result_count by {
                        if i < k {
                            assert(after.queue[i] == r.queue[i]);
                        } else {
                            assert(after.queue[i] == r.queue[i + 1]);
                        }
                    }
                    lemma_settlement_keeps_archive(r, task);
                    assert forall|id: Seq<char>|
                        !(holds(after.queue, id) && #[trigger] archived(after.history, id)) by {
                        if id != task_id {
                            assert(holds(after.queue, id) <==> holds(r.queue, id));
                            assert(archived(after.history, id) <==> archived(r.history, id));
                        }
                    }
                },
            }
        },
    }
}

/// The archive stays valid when a task that it does not hold, with its
/// results complete, is appended.
proof fn lemma_settlement_keeps_archive(r: RegistryView, task: TaskView)
    requires
        r.settled_tasks_valid(),
        r.settled_once(),
        !archived(r.history, task.id),
        distinct_accounts(task.results),
        task.results.len() == r.minimum_result_count,
    ensures
        (RegistryView { history: appended(r.history, task), ..r }).settled_tasks_valid(),
        (RegistryView { history: appended(r.history, task), ..r }).settled_once(),
{
    let owner = task.submitter_account_id;
    let old_log = crate::history::history_of(r.history, owner);
    let after = RegistryView { history: appended(r.history, task), ..r };
    assert forall|account: Seq<char>, j: int|
        after.history.dom().contains(account) && 0 <= j < after.history[account].len() implies ((
    #[trigger] after.history[account][j]) == task && account == owner && j == old_log.len()) || (
    r.history.dom().contains(account) && j < r.history[account].len() && after.history[account][j]
        == r.history[account][j]) by {}
    assert forall|account: Seq<char>, j: int|
        after.history.dom().contains(account) && 0 <= j < after.history[account].len() implies (
    #[trigger] after.history[account][j]).submitter_account_id == account && distinct_accounts(
        after.history[account][j].results,
    ) && after.history[account][j].results.len() == after.minimum_result_count by {
        if !(account == owner && j == old_log.len()) {
            assert(after.history[account][j] == r.history[account][j]);
        }
    }
    assert forall|a: Seq<char>, j: int, b: Seq<char>, k: int|
        after.history.dom().contains(a) && 0 <= j < after.history[a].len()
            && after.history.dom().contains(b) && 0 <= k < after.history[b].len() && (a != b || j
            != k) implies (#[trigger] after.history[a][j]).id != (
    #[trigger] after.history[b][k]).id by {
        let first_new = a == owner && j == old_log.len();
        let second_new = b == owner && k == old_log.len();
        if first_new {
            assert(after.history[b][k] == r.history[b][k]);
            if r.history[b][k].id == task.id {
                assert(holds(r.history[b], task.id));
                assert(archived(r.history, task.id));
            }
        } else if second_new {
            assert(after.history[a][j] == r.history[a][j]);
            if r.history[a][j].id == task.id {
                assert(holds(r.history[a], task.id));
                assert(archived(r.history, task.id));
            }
        } else {
            assert(after.history[a][j] == r.history[a][j]);
            assert(after.history[b][k] == r.history[b][k]);
        }
    }
}

/// Where the first `n` of `tasks` cannot all be added as open tasks,
/// neither can all of them.
pub proof fn lemma_with_all_open_fails(r: RegistryView, tasks: Seq<TaskView>, n: int)
    requires
        0 <= n <= tasks.len(),
        r.with_all_open(tasks.take(n)) is None,
    ensures
        r.with_all_open(tasks) is None,
    decreases tasks.len(),
{
    if n < tasks.len() {
        assert(tasks.drop_last().take(n) =~= tasks.take(n));
        lemma_with_all_open_fails(r, tasks.drop_last(), n);
    } else {
        assert(tasks.take(n) =~= tasks);
    }
}

/// Where the first `n` of `tasks` cannot all be added as settled tasks,
/// neither can all of them.
pub proof fn lemma_with_all_settled_fails(r: RegistryView, tasks: Seq<TaskView>, n: int)
    requires
        0 <= n <= tasks.len(),
        r.with_all_settled(tasks.take(n)) is None,
    ensures
        r.with_all_settled(tasks) is None,
    decreases tasks.len(),
{
    if n < tasks.len() {
        assert(tasks.drop_last().take(n) =~= tasks.take(n));
        lemma_with_all_settled_fails(r, tasks.drop_last(), n);
    } else {
        assert(tasks.take(n) =~= tasks);
    }
}

/// Clearing keeps the registry consistent.
pub proof fn lemma_cleared_consistent(r: RegistryView, account: Seq<char>)
    requires
        r.consistent(),
    ensures
        r.cleared(account).consistent(),
{
    let after = r.cleared(account);
    assert forall|a: Seq<char>, j: int|
        after.history.dom().contains(a) && 0 <= j < after.history[a].len() implies
        r.history.dom().contains(a) && (#[trigger] after.history[a][j]) == r.history[a][j] by {}
    assert forall|id: Seq<char>|
        !(holds(after.queue, id) && #[trigger] archived(after.history, id)) by {}
}

} // verus!
