//! A task: one unit of escrowed work awaiting confirming results.

use vstd::prelude::*;
use crate::ledger::{ResultLedger, SubmissionView};
use crate::text::{decimal, push_decimal};

verus! {

/// A unit of work with its bounty and the results submitted for it so far.
#[derive(Debug, PartialEq, Eq)]
pub struct Task {
    /// The account that created the task.
    pub submitter_account_id: String,
    /// The amount held in escrow for the task.
    pub bounty: u128,
    /// Where the work to be done is described.
    pub repository_url: String,
    pub results: ResultLedger,
    pub id: String,
    /// The logical time at which the task was created.
    pub timestamp: u64,
}

pub struct TaskView {
    pub submitter_account_id: Seq<char>,
    pub bounty: u128,
    pub repository_url: Seq<char>,
    pub results: Seq<SubmissionView>,
    pub id: Seq<char>,
    pub timestamp: u64,
}

impl View for Task {
    type V = TaskView;

    open spec fn view(&self) -> TaskView {
        TaskView {
            submitter_account_id: self.submitter_account_id@,
            bounty: self.bounty,
            repository_url: self.repository_url@,
            results: self.results@,
            id: self.id@,
            timestamp: self.timestamp,
        }
    }
}

/// The tasks of a list as values.
pub open spec fn task_views(tasks: Seq<Task>) -> Seq<TaskView> {
    Seq::new(tasks.len(), |i: int| tasks[i]@)
}

impl TaskView {
    /// A task as it is created: the given fields and no result yet.
    pub open spec fn fresh(
        submitter_account_id: Seq<char>,
        bounty: u128,
        repository_url: Seq<char>,
        id: Seq<char>,
        timestamp: u64,
    ) -> TaskView {
        TaskView {
            submitter_account_id,
            bounty,
            repository_url,
            results: Seq::empty(),
            id,
            timestamp,
        }
    }
}

impl Task {
    /// A task under `id`, created by `submitter_account_id` at `timestamp`,
    /// with no result yet.
    pub fn new(
        submitter_account_id: String,
        bounty: u128,
        repository_url: String,
        id: String,
        timestamp: u64,
    ) -> (task: Task)
        ensures
            task@ == TaskView::fresh(
                submitter_account_id@,
                bounty,
                repository_url@,
                id@,
                timestamp,
            ),
    {
        Task {
            submitter_account_id,
            bounty,
            repository_url,
            results: ResultLedger::new(),
            id,
            timestamp,
        }
    }
}

/// A task in words: its fields but for the results, each under its name.
pub open spec fn task_text(task: TaskView) -> Seq<char> {
    "{ submitter_account_id: "@ + task.submitter_account_id + ", bounty: "@ + decimal(
        task.bounty as nat,
    ) + ", respository_url: "@ + task.repository_url + ", id: "@ + task.id + ", timestamp: "@
        + decimal(task.timestamp as nat) + " }"@
}

impl Task {
    /// The task in words.
    pub fn describe(&self) -> (text: String)
        ensures
            text@ == task_text(self@),
    {
        let mut text = String::new();
        text.append("{ submitter_account_id: ");
        text.append(self.submitter_account_id.as_str());
        text.append(", bounty: ");
        push_decimal(&mut text, self.bounty);
        text.append(", respository_url: ");
        text.append(self.repository_url.as_str());
        text.append(", id: ");
        text.append(self.id.as_str());
        text.append(", timestamp: ");
        push_decimal(&mut text, self.timestamp as u128);
        text.append(" }");
        assert(text@ =~= task_text(self@));
        text
    }
}

impl Clone for Task {
    fn clone(&self) -> (r: Self)
        ensures
            r@ == self@,
    {
        Task {
            submitter_account_id: self.submitter_account_id.clone(),
            bounty: self.bounty,
            repository_url: self.repository_url.clone(),
            results: self.results.clone(),
            id: self.id.clone(),
            timestamp: self.timestamp,
        }
    }
}

} // verus!
