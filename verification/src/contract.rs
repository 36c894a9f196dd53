//! The registry: the queue of open tasks, the archive of settled ones, and
//! the operations that create a task, record a result and settle.

use vstd::prelude::*;
use crate::history::{history_of, HistoryArchive};
use crate::ledger::has_account;
use crate::model::{
    answered, lemma_accounts_of_push, lemma_cleared_consistent, lemma_create_consistent,
    lemma_empty_consistent, lemma_submit_consistent, lemma_with_all_open_fails,
    lemma_with_all_settled_fails, lemma_with_open_consistent, lemma_with_settled_consistent,
    verdict_view, CreateError, RegistryView, SubmitError, SubmitOutcome,
};
use crate::queue::{
    find, holds, leading, lemma_put_back, lemma_slot_bounds, lemma_slot_ordered, TaskQueue,
};
use crate::settlement::{distribute_bounty, payout_views, split_bounty, Payout};
use crate::task::{task_views, Task, TaskView};
use crate::task_id::{generate_task_id, is_task_id};
use crate::task_result::{optional_text, TaskResult, TaskResultView};

verus! {

/// The number of results that settles a task, unless the registry is made
/// with another.
pub const MINIMUM_RESULT_COUNT: usize = 2;

/// The number of tasks that a listing of the queue returns at most.
pub const NUM_OF_TASKS_RETURNED: usize = 10;

/// The least bounty of a task, unless the registry is made with another.
pub const MINIMUM_BOUNTY: u128 = 1_000_000_000_000_000_000_000_000;

/// The account whose history `clear_state` drops.
pub open spec fn cleared_account() -> Seq<char> {
    "obrigado.testnet"@
}

/// The registry of tasks.
#[derive(Debug, PartialEq, Eq)]
pub struct TaskContract {
    task_queue: TaskQueue,
    task_history: HistoryArchive,
    minimum_bounty: u128,
    minimum_result_count: usize,
}

impl View for TaskContract {
    type V = RegistryView;

    closed spec fn view(&self) -> RegistryView {
        RegistryView {
            queue: self.task_queue@,
            history: self.task_history@,
            minimum_bounty: self.minimum_bounty,
            minimum_result_count: self.minimum_result_count as nat,
        }
    }
}

impl TaskContract {
    /// A registry is well formed when its parts are and what it holds is
    /// consistent.
    pub closed spec fn wf(&self) -> bool {
        self.task_history.wf() && self@.consistent()
    }

    /// What a well-formed registry holds is consistent.
    pub proof fn lemma_consistent(&self)
        requires
            self.wf(),
        ensures
            self@.consistent(),
    {
    }

    /// A registry without tasks that takes bounties from `minimum_bounty`
    /// on and settles a task at `minimum_result_count` results. There is
    /// none that settles at no result.
    pub fn new(minimum_bounty: u128, minimum_result_count: usize) -> (made: Option<Self>)
        ensures
            made is Some <==> minimum_result_count >= 1,
            made matches Some(registry) ==> registry.wf() && registry@ == RegistryView::empty(
                minimum_bounty,
                minimum_result_count as nat,
            ),
    {
        if minimum_result_count == 0 {
            return None;
        }
        proof {
            lemma_empty_consistent(minimum_bounty, minimum_result_count as nat);
        }
        Some(
            TaskContract {
                task_queue: TaskQueue::new(),
                task_history: HistoryArchive::new(),
                minimum_bounty,
                minimum_result_count,
            },
        )
    }

    /// The registry with these limits that holds copies of `open` as its
    /// open tasks and of `settled` as its settled ones, each added in its
    /// turn. There is none where the threshold is zero, an id occurs twice,
    /// an open task has as many results as settle it, or a settled task
    /// has more or fewer.
    pub fn from_parts(
        minimum_bounty: u128,
        minimum_result_count: usize,
        open: &Vec<Task>,
        settled: &Vec<Task>,
    ) -> (made: Option<Self>)
        ensures
            match made {
                Some(registry) => registry.wf() && RegistryView::assembled(
                    minimum_bounty,
                    minimum_result_count as nat,
                    task_views(open@),
                    task_views(settled@),
                ) == Some(registry@),
                None => RegistryView::assembled(
                    minimum_bounty,
                    minimum_result_count as nat,
                    task_views(open@),
                    task_views(settled@),
                ) is None,
            },
    {
        let mut registry = match Self::new(minimum_bounty, minimum_result_count) {
            Some(registry) => registry,
            None => {
                return None;
            },
        };
        let ghost start = registry@;
        let ghost open_views = task_views(open@);
        let ghost settled_views = task_views(settled@);
        let mut i: usize = 0;
        while i < open.len()
            invariant
                i <= open.len(),
                registry.wf(),
                open_views == task_views(open@),
                settled_views == task_views(settled@),
                minimum_result_count >= 1,
                start == RegistryView::empty(minimum_bounty, minimum_result_count as nat),
                start.with_all_open(open_views.take(i as int)) == Some(registry@),
            decreases open.len() - i,
        {
            let task = open[i].clone();
            proof {
                assert(open_views.take(i + 1).drop_last() =~= open_views.take(i as int));
                assert(open_views.take(i + 1).last() == task@);
            }
            task.results.distinct();
            if task.results.len() >= registry.minimum_result_count
                || registry.task_queue.contains_key(&task.id) || registry.task_history.holds_task(
                &task.id,
            ) {
                proof {
                    lemma_with_all_open_fails(start, open_views, i + 1);
                }
                return None;
            }
            proof {
                lemma_with_open_consistent(registry@, task@);
            }
            registry.task_queue.insert(task);
            i += 1;
        }
        assert(open_views.take(i as int) =~= open_views);
        let ghost filled = registry@;
        let mut j: usize = 0;
        while j < settled.len()
            invariant
                j <= settled.len(),
                registry.wf(),
                open_views == task_views(open@),
                settled_views == task_views(settled@),
                minimum_result_count >= 1,
                RegistryView::empty(minimum_bounty, minimum_result_count as nat).with_all_open(
                    open_views,
                ) == Some(filled),
                filled.with_all_settled(settled_views.take(j as int)) == Some(registry@),
            decreases settled.len() - j,
        {
            let task = settled[j].clone();
            proof {
                assert(settled_views.take(j + 1).drop_last() =~= settled_views.take(j as int));
                assert(settled_views.take(j + 1).last() == task@);
            }
            task.results.distinct();
            if task.results.len() != registry.minimum_result_count
                || registry.task_queue.contains_key(&task.id) || registry.task_history.holds_task(
                &task.id,
            ) {
                proof {
                    lemma_with_all_settled_fails(filled, settled_views, j + 1);
                }
                return None;
            }
            proof {
                lemma_with_settled_consistent(registry@, task@);
            }
            registry.task_history.push(task);
            j += 1;
        }
        assert(settled_views.take(j as int) =~= settled_views);
        Some(registry)
    }

    /// The accounts that have settled tasks, each once.
    pub fn settled_accounts(&self) -> (accounts: Vec<String>)
        requires
            self.wf(),
        ensures
            crate::ledger::texts(accounts@).no_duplicates(),
            forall|account: Seq<char>|
                crate::ledger::texts(accounts@).contains(account) <==> self@.history.dom().contains(
                    account,
                ),
    {
        self.task_history.accounts()
    }

    /// The least bounty of a task.
    pub fn minimum_bounty(&self) -> (amount: u128)
        ensures
            amount == self@.minimum_bounty,
    {
        self.minimum_bounty
    }

    /// The number of results that settles a task.
    pub fn minimum_result_count(&self) -> (count: usize)
        ensures
            count == self@.minimum_result_count,
    {
        self.minimum_result_count
    }

    /// Creates a task under `id` and puts it into the queue, unless the
    /// bounty is too low or the id belongs to a task already.
    pub fn create_task_with_id(
        &mut self,
        id: String,
        submitter: String,
        bounty: u128,
        repository_url: String,
        timestamp: u64,
    ) -> (verdict: Result<(), CreateError>)
        requires
            old(self).wf(),
        ensures
            final(self).wf(),
            verdict == old(self)@.create_verdict(bounty, id@),
            final(self)@ == old(self)@.create(
                TaskView::fresh(submitter@, bounty, repository_url@, id@, timestamp),
            ),
    {
        if bounty < self.minimum_bounty {
            return Err(CreateError::BelowMinimumBounty);
        }
        if self.task_queue.contains_key(&id) || self.task_history.holds_task(&id) {
            return Err(CreateError::IdCollision);
        }
        let task = Task::new(submitter, bounty, repository_url, id, timestamp);
        proof {
            lemma_create_consistent(self@, task@);
        }
        self.task_queue.insert(task);
        Ok(())
    }

    /// Creates a task for `submitter` with `bounty` in escrow, under an id
    /// that is drawn for `timestamp` from a generator seeded with `seed`,
    /// and returns the id. No task is created where the bounty is too low,
    /// the seed has fewer than eight bytes, or the id that was drawn belongs
    /// to a task already.
    pub fn create_task(
        &mut self,
        submitter: String,
        bounty: u128,
        repository_url: String,
        timestamp: u64,
        seed: &Vec<u8>,
    ) -> (verdict: Result<String, CreateError>)
        requires
            old(self).wf(),
        ensures
            final(self).wf(),
            bounty < old(self)@.minimum_bounty ==> verdict == Err::<String, CreateError>(
                CreateError::BelowMinimumBounty,
            ) && final(self)@ == old(self)@,
            bounty >= old(self)@.minimum_bounty && seed.len() < 8 ==> verdict == Err::<
                String,
                CreateError,
            >(CreateError::EntropyUnavailable) && final(self)@ == old(self)@,
            bounty >= old(self)@.minimum_bounty && seed.len() >= 8 ==> exists|id: Seq<char>|
                {
                    &&& #[trigger] is_task_id(id, timestamp)
                    &&& final(self)@ == old(self)@.create(
                        TaskView::fresh(submitter@, bounty, repository_url@, id, timestamp),
                    )
                    &&& match verdict {
                        Ok(made) => made@ == id && old(self)@.create_verdict(bounty, id) is Ok,
                        Err(error) => old(self)@.create_verdict(bounty, id) == Err::<
                            (),
                            CreateError,
                        >(error),
                    }
                },
    {
        if bounty < self.minimum_bounty {
            return Err(CreateError::BelowMinimumBounty);
        }
        let id = match generate_task_id(timestamp, seed) {
            Some(id) => id,
            None => {
                return Err(CreateError::EntropyUnavailable);
            },
        };
        let made = id.clone();
        match self.create_task_with_id(id, submitter, bounty, repository_url, timestamp) {
            Ok(()) => Ok(made),
            Err(error) => Err(error),
        }
    }

    /// Records the result of `caller` in `task`.
    fn add_result(task: &mut Task, caller: String, result_hash: String, result_url: Option<String>)
        requires
            !has_account(old(task)@.results, caller@),
        ensures
            final(task)@ == answered(
                old(task)@,
                caller@,
                TaskResultView {
                    result_hash: result_hash@,
                    result_url: optional_text(result_url),
                },
            ),
    {
        task.results.insert(caller, TaskResult::new(result_hash, result_url));
    }

    /// Appends `task` to the history of the account that created it.
    fn move_task_to_history(history: &mut HistoryArchive, task: Task)
        requires
            old(history).wf(),
        ensures
            final(history).wf(),
            final(history)@ == crate::history::appended(old(history)@, task@),
    {
        history.push(task);
    }

    /// Records the result of `caller` for the task under `task_id`. Where
    /// that is the result that settles the task, `transfers_completed`
    /// says whether its payouts (see `payouts_due`) have gone through: if
    /// so the task moves from the queue to the history of its creator, and
    /// if not nothing is recorded.
    pub fn submit_result(
        &mut self,
        task_id: String,
        result_hash: String,
        result_url: Option<String>,
        caller: String,
        transfers_completed: bool,
    ) -> (verdict: Result<SubmitOutcome, SubmitError>)
        requires
            old(self).wf(),
        ensures
            final(self).wf(),
            verdict_view(verdict) == old(self)@.submit_verdict(
                task_id@,
                caller@,
                TaskResultView {
                    result_hash: result_hash@,
                    result_url: optional_text(result_url),
                },
                transfers_completed,
            ),
            final(self)@ == old(self)@.submit(
                task_id@,
                caller@,
                TaskResultView {
                    result_hash: result_hash@,
                    result_url: optional_text(result_url),
                },
                transfers_completed,
            ),
    {
        let ghost result = TaskResultView {
            result_hash: result_hash@,
            result_url: optional_text(result_url),
        };
        proof {
            lemma_slot_bounds(self@.queue, task_id@);
            lemma_slot_ordered(self@.queue, task_id@);
            lemma_submit_consistent(self@, task_id@, caller@, result, transfers_completed);
        }
        let settles: bool = match self.task_queue.get(&task_id) {
            None => {
                return Err(SubmitError::TaskNotFoundOrSettled);
            },
            Some(task) => {
                if task.results.contains_key(&caller) {
                    return Err(SubmitError::DuplicateSubmission);
                }
                task.results.len() >= self.minimum_result_count - 1
            },
        };
        if settles && !transfers_completed {
            return Err(SubmitError::TransferFailure);
        }
        let mut task = self.task_queue.remove(&task_id).unwrap();
        let ghost before = task@;
        Self::add_result(&mut task, caller, result_hash, result_url);
        proof {
            lemma_accounts_of_push(
                before.results,
                crate::ledger::SubmissionView { account: caller@, result },
            );
        }
        if settles {
            let payouts = distribute_bounty(&task);
            Self::move_task_to_history(&mut self.task_history, task);
            Ok(SubmitOutcome::RecordedAndSettled { payouts })
        } else {
            proof {
                lemma_put_back(old(self)@.queue, task@);
            }
            self.task_queue.insert(task);
            Ok(SubmitOutcome::Recorded)
        }
    }

    /// The payouts that are owed if `caller` submits a result for the task
    /// under `task_id`: those that settle the task where the submission
    /// would, and none otherwise.
    pub fn payouts_due(&self, task_id: &String, caller: &String) -> (payouts: Vec<Payout>)
        requires
            self.wf(),
        ensures
            payout_views(payouts@) == self@.payouts_due(task_id@, caller@),
    {
        proof {
            lemma_slot_bounds(self@.queue, task_id@);
            lemma_slot_ordered(self@.queue, task_id@);
        }
        match self.task_queue.get(task_id) {
            None => {
                let payouts: Vec<Payout> = Vec::new();
                assert(payout_views(payouts@) =~= Seq::empty());
                payouts
            },
            Some(task) => {
                if task.results.contains_key(caller) || task.results.len()
                    < self.minimum_result_count - 1 {
                    let payouts: Vec<Payout> = Vec::new();
                    assert(payout_views(payouts@) =~= Seq::empty());
                    payouts
                } else {
                    let mut accounts = task.results.keys();
                    accounts.push(caller.clone());
                    assert(crate::ledger::texts(accounts@) =~= crate::ledger::accounts_of(
                        task@.results,
                    ).push(caller@));
                    split_bounty(task.bounty, &accounts)
                }
            },
        }
    }

    /// Copies of the first `limit` open tasks in the order of their ids,
    /// or of all where there are fewer.
    pub fn get_tasks(&self, limit: usize) -> (tasks: Vec<Task>)
        ensures
            task_views(tasks@) == leading(self@.queue, limit as nat),
            tasks.len() <= limit,
    {
        let tasks = self.task_queue.first(limit);
        assert(task_views(tasks@).len() == tasks.len());
        tasks
    }

    /// Copies of the first ten open tasks in the order of their ids, or of
    /// all where there are fewer.
    pub fn get_tasks_from_queue(&self) -> (tasks: Vec<Task>)
        ensures
            task_views(tasks@) == leading(self@.queue, NUM_OF_TASKS_RETURNED as nat),
            tasks.len() <= NUM_OF_TASKS_RETURNED,
    {
        self.get_tasks(NUM_OF_TASKS_RETURNED)
    }

    /// Copies of the settled tasks that `account_id` created, oldest first.
    pub fn get_task_history(&self, account_id: String) -> (tasks: Vec<Task>)
        requires
            self.wf(),
        ensures
            task_views(tasks@) == history_of(self@.history, account_id@),
    {
        self.task_history.get(&account_id)
    }

    /// A copy of the open task under `task_id`. A settled task is not
    /// found, no more than an id that never was.
    pub fn get_task(&self, task_id: String) -> (found: Option<Task>)
        requires
            self.wf(),
        ensures
            found is Some <==> holds(self@.queue, task_id@),
            found matches Some(task) ==> find(self@.queue, task_id@) matches Some(k) && task@
                == self@.queue[k],
    {
        match self.task_queue.get(&task_id) {
            Some(task) => Some(task.clone()),
            None => None,
        }
    }

    /// Drops every open task and the history of one account, the one that
    /// trials run under.
    pub fn clear_state(&mut self)
        requires
            old(self).wf(),
        ensures
            final(self).wf(),
            final(self)@ == old(self)@.cleared(cleared_account()),
    {
        proof {
            lemma_cleared_consistent(self@, cleared_account());
        }
        self.task_queue.clear();
        let account = "obrigado.testnet".to_owned();
        self.task_history.remove(&account);
    }
}

impl Default for TaskContract {
    /// A registry without tasks, with the usual limits.
    fn default() -> (registry: Self)
        ensures
            registry.wf(),
            registry@ == RegistryView::empty(MINIMUM_BOUNTY, MINIMUM_RESULT_COUNT as nat),
    {
        proof {
            lemma_empty_consistent(MINIMUM_BOUNTY, MINIMUM_RESULT_COUNT as nat);
        }
        TaskContract {
            task_queue: TaskQueue::new(),
            task_history: HistoryArchive::new(),
            minimum_bounty: MINIMUM_BOUNTY,
            minimum_result_count: MINIMUM_RESULT_COUNT,
        }
    }
}

} // verus!
