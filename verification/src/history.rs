//! The archive of settled tasks: for each account the tasks that it created
//! and that were settled, in the order of their settlement.

use vstd::prelude::*;
use crate::ledger::texts;
use crate::queue::holds;
use crate::task::{task_views, Task, TaskView};

verus! {

/// The settled tasks of `account`: none where it has no entry.
pub open spec fn history_of(archive: Map<Seq<char>, Seq<TaskView>>, account: Seq<char>) -> Seq<
    TaskView,
> {
    if archive.dom().contains(account) {
        archive[account]
    } else {
        Seq::empty()
    }
}

/// Whether a task under `id` is in the archive, under whatever account.
pub open spec fn archived(archive: Map<Seq<char>, Seq<TaskView>>, id: Seq<char>) -> bool {
    exists|account: Seq<char>| #[trigger]
        archive.dom().contains(account) && holds(archive[account], id)
}

/// The archive with `task` appended to the history of the account that
/// created it.
pub open spec fn appended(archive: Map<Seq<char>, Seq<TaskView>>, task: TaskView) -> Map<
    Seq<char>,
    Seq<TaskView>,
> {
    archive.insert(
        task.submitter_account_id,
        history_of(archive, task.submitter_account_id).push(task),
    )
}

/// After an append the archive holds the appended id and those it held.
pub proof fn lemma_appended(archive: Map<Seq<char>, Seq<TaskView>>, task: TaskView)
    ensures
        archived(appended(archive, task), task.id),
        forall|id: Seq<char>|
            id != task.id ==> (archived(appended(archive, task), id) <==> archived(archive, id)),
{
    let account = task.submitter_account_id;
    let after = appended(archive, task);
    let before = history_of(archive, account);
    assert(after.dom().contains(account));
    assert(after[account][before.len() as int].id == task.id);
    assert forall|id: Seq<char>| id != task.id implies (archived(after, id) <==> archived(
        archive,
        id,
    )) by {
        if archived(after, id) {
            let a = choose|a: Seq<char>| #[trigger]
                after.dom().contains(a) && holds(after[a], id);
            if a == account {
                let j = choose|j: int| 0 <= j < after[a].len() && (#[trigger] after[a][j]).id == id;
                assert(before[j].id == id);
                assert(archive.dom().contains(a));
            } else {
                assert(archive.dom().contains(a) && holds(archive[a], id));
            }
        }
        if archived(archive, id) {
            let a = choose|a: Seq<char>| #[trigger]
                archive.dom().contains(a) && holds(archive[a], id);
            if a == account {
                let j = choose|j: int|
                    0 <= j < archive[a].len() && (#[trigger] archive[a][j]).id == id;
                assert(after[a][j].id == id);
            }
            assert(after.dom().contains(a) && holds(after[a], id));
        }
    }
}

/// The settled tasks of one account, oldest first.
#[derive(Debug, PartialEq, Eq)]
struct AccountHistory {
    account: String,
    tasks: Vec<Task>,
}

/// Whether one of `entries` belongs to `account`.
spec fn has_entry(entries: Seq<AccountHistory>, account: Seq<char>) -> bool {
    exists|i: int| 0 <= i < entries.len() && (#[trigger] entries[i]).account@ == account
}

/// The place of the entry of `account`.
spec fn entry_of(entries: Seq<AccountHistory>, account: Seq<char>) -> int {
    choose|i: int| 0 <= i < entries.len() && (#[trigger] entries[i]).account@ == account
}

/// No account has two entries.
spec fn one_entry_each(entries: Seq<AccountHistory>) -> bool {
    forall|i: int, j: int|
        0 <= i < j < entries.len() ==> (#[trigger] entries[i]).account@ != (
        #[trigger] entries[j]).account@
}

/// What the entries say: each account with its tasks.
spec fn archive_of(entries: Seq<AccountHistory>) -> Map<Seq<char>, Seq<TaskView>> {
    Map::new(
        |account: Seq<char>| has_entry(entries, account),
        |account: Seq<char>| task_views(entries[entry_of(entries, account)].tasks@),
    )
}

proof fn lemma_entry(entries: Seq<AccountHistory>, i: int)
    requires
        one_entry_each(entries),
        0 <= i < entries.len(),
    ensures
        has_entry(entries, entries[i].account@),
        entry_of(entries, entries[i].account@) == i,
        archive_of(entries).dom().contains(entries[i].account@),
        archive_of(entries)[entries[i].account@] == task_views(entries[i].tasks@),
{
    let k = entry_of(entries, entries[i].account@);
    if k < i {
        assert(entries[k].account@ != entries[i].account@);
    } else if i < k {
        assert(entries[i].account@ != entries[k].account@);
    }
}

/// Whether a task under `id` is among `tasks`.
fn any_under(tasks: &Vec<Task>, id: &String) -> (found: bool)
    ensures
        found == holds(task_views(tasks@), id@),
{
    let mut i: usize = 0;
    while i < tasks.len()
        invariant
            i <= tasks.len(),
            forall|j: int| 0 <= j < i ==> (#[trigger] task_views(tasks@)[j]).id != id@,
        decreases tasks.len() - i,
    {
        if tasks[i].id == *id {
            assert(task_views(tasks@)[i as int].id == id@);
            return true;
        }
        i += 1;
    }
    false
}

/// Copies of `tasks`.
fn copy_tasks(tasks: &Vec<Task>) -> (copies: Vec<Task>)
    ensures
        task_views(copies@) == task_views(tasks@),
{
    let mut copies: Vec<Task> = Vec::new();
    let mut i: usize = 0;
    while i < tasks.len()
        invariant
            i <= tasks.len(),
            copies.len() == i,
            forall|j: int| 0 <= j < i ==> (#[trigger] copies@[j])@ == tasks@[j]@,
        decreases tasks.len() - i,
    {
        copies.push(tasks[i].clone());
        i += 1;
    }
    assert(task_views(copies@) =~= task_views(tasks@));
    copies
}

/// The settled tasks, by the account that created them. An account gets
/// its entry with its first settled task.
#[derive(Debug, PartialEq, Eq)]
pub struct HistoryArchive {
    entries: Vec<AccountHistory>,
}

impl View for HistoryArchive {
    type V = Map<Seq<char>, Seq<TaskView>>;

    closed spec fn view(&self) -> Map<Seq<char>, Seq<TaskView>> {
        archive_of(self.entries@)
    }
}

impl HistoryArchive {
    /// An archive is well formed when no account has two entries in it.
    pub closed spec fn wf(&self) -> bool {
        one_entry_each(self.entries@)
    }

    pub fn new() -> (archive: Self)
        ensures
            archive@ == Map::<Seq<char>, Seq<TaskView>>::empty(),
            archive.wf(),
    {
        let archive = HistoryArchive { entries: Vec::new() };
        assert(archive@ =~= Map::<Seq<char>, Seq<TaskView>>::empty());
        archive
    }

    /// The place of the entry of `account`, or the number of entries where
    /// it has none.
    fn entry_index(&self, account: &String) -> (k: usize)
        requires
            self.wf(),
        ensures
            k <= self.entries.len(),
            k < self.entries.len() ==> self.entries[k as int].account@ == account@,
            k == self.entries.len() ==> !has_entry(self.entries@, account@),
    {
        let mut i: usize = 0;
        while i < self.entries.len()
            invariant
                i <= self.entries.len(),
                forall|j: int| 0 <= j < i ==> (#[trigger] self.entries[j]).account@ != account@,
            decreases self.entries.len() - i,
        {
            if self.entries[i].account == *account {
                return i;
            }
            i += 1;
        }
        i
    }

    /// Copies of the settled tasks of `account`, oldest first.
    pub fn get(&self, account: &String) -> (tasks: Vec<Task>)
        requires
            self.wf(),
        ensures
            task_views(tasks@) == history_of(self@, account@),
    {
        let k = self.entry_index(account);
        if k < self.entries.len() {
            proof {
                lemma_entry(self.entries@, k as int);
            }
            copy_tasks(&self.entries[k].tasks)
        } else {
            let tasks: Vec<Task> = Vec::new();
            assert(task_views(tasks@) =~= history_of(self@, account@));
            tasks
        }
    }

    /// Whether a task under `id` is in the archive.
    pub fn holds_task(&self, id: &String) -> (found: bool)
        requires
            self.wf(),
        ensures
            found == archived(self@, id@),
    {
        let mut i: usize = 0;
        while i < self.entries.len()
            invariant
                i <= self.entries.len(),
                self.wf(),
                forall|j: int|
                    0 <= j < i ==> !holds(task_views((#[trigger] self.entries[j]).tasks@), id@),
            decreases self.entries.len() - i,
        {
            if any_under(&self.entries[i].tasks, id) {
                proof {
                    lemma_entry(self.entries@, i as int);
                }
                return true;
            }
            i += 1;
        }
        proof {
            if archived(self@, id@) {
                let account = choose|account: Seq<char>| #[trigger]
                    self@.dom().contains(account) && holds(self@[account], id@);
                let k = entry_of(self.entries@, account);
                lemma_entry(self.entries@, k);
            }
        }
        false
    }

    /// Appends `task` to the history of the account that created it.
    pub fn push(&mut self, task: Task)
        requires
            old(self).wf(),
        ensures
            final(self).wf(),
            final(self)@ == appended(old(self)@, task@),
    {
        let k = self.entry_index(&task.submitter_account_id);
        let ghost account = task@.submitter_account_id;
        let ghost before = self.entries@;
        if k < self.entries.len() {
            let mut entry = self.entries.remove(k);
            entry.tasks.push(task);
            self.entries.insert(k, entry);
            proof {
                let after = self.entries@;
                assert(after =~= before.update(k as int, after[k as int]));
                assert(after[k as int].account == before[k as int].account);
                assert forall|i: int, j: int| 0 <= i < j < after.len() implies (
                #[trigger] after[i]).account@ != (#[trigger] after[j]).account@ by {
                    assert(after[i].account == before[i].account);
                    assert(after[j].account == before[j].account);
                }
                lemma_entry(before, k as int);
                lemma_entry(after, k as int);
                assert(task_views(after[k as int].tasks@) =~= history_of(
                    archive_of(before),
                    account,
                ).push(task@));
                assert forall|other: Seq<char>| has_entry(after, other) <==> has_entry(
                    before,
                    other,
                ) by {
                    if has_entry(after, other) {
                        let i = entry_of(after, other);
                        assert(before[i].account@ == other);
                    }
                    if has_entry(before, other) {
                        let i = entry_of(before, other);
                        assert(after[i].account@ == other);
                    }
                }
                assert forall|other: Seq<char>| other != account && has_entry(
                    before,
                    other,
                ) implies archive_of(after)[other] == archive_of(before)[other] by {
                    let i = entry_of(before, other);
                    assert(after[i] == before[i]);
                    lemma_entry(before, i);
                    lemma_entry(after, i);
                }
                assert(archive_of(after) =~= appended(archive_of(before), task@));
            }
        } else {
            let mut tasks: Vec<Task> = Vec::new();
            let owner = task.submitter_account_id.clone();
            tasks.push(task);
            self.entries.push(AccountHistory { account: owner, tasks });
            proof {
                let after = self.entries@;
                assert forall|i: int, j: int| 0 <= i < j < after.len() implies (
                #[trigger] after[i]).account@ != (#[trigger] after[j]).account@ by {
                    assert(after[i] == before[i]);
                    if j < before.len() {
                        assert(after[j] == before[j]);
                    }
                }
                lemma_entry(after, k as int);
                assert(task_views(after[k as int].tasks@) =~= history_of(
                    archive_of(before),
                    account,
                ).push(task@));
                assert forall|other: Seq<char>| has_entry(after, other) <==> (other == account
                    || has_entry(before, other)) by {
                    if has_entry(after, other) && other != account {
                        let i = entry_of(after, other);
                        assert(before[i].account@ == other);
                    }
                    if has_entry(before, other) {
                        let i = entry_of(before, other);
                        assert(after[i].account@ == other);
                    }
                }
                assert forall|other: Seq<char>| other != account && has_entry(
                    before,
                    other,
                ) implies archive_of(after)[other] == archive_of(before)[other] by {
                    let i = entry_of(before, other);
                    assert(after[i] == before[i]);
                    lemma_entry(before, i);
                    lemma_entry(after, i);
                }
                assert(archive_of(after) =~= appended(archive_of(before), task@));
            }
        }
    }

    /// The accounts that have a history, each once.
    pub fn accounts(&self) -> (accounts: Vec<String>)
        requires
            self.wf(),
        ensures
            texts(accounts@).no_duplicates(),
            forall|account: Seq<char>|
                texts(accounts@).contains(account) <==> self@.dom().contains(account),
    {
        let mut accounts: Vec<String> = Vec::new();
        let mut i: usize = 0;
        while i < self.entries.len()
            invariant
                i <= self.entries.len(),
                accounts.len() == i,
                forall|j: int| 0 <= j < i ==> (#[trigger] accounts@[j])@ == self.entries[j].account@,
            decreases self.entries.len() - i,
        {
            accounts.push(self.entries[i].account.clone());
            i += 1;
        }
        proof {
            let names = texts(accounts@);
            assert forall|i: int, j: int| 0 <= i < names.len() && 0 <= j < names.len() && i
                != j implies names[i] != names[j] by {
                if i < j {
                    assert(self.entries[i].account@ != self.entries[j].account@);
                } else {
                    assert(self.entries[j].account@ != self.entries[i].account@);
                }
            }
            assert forall|account: Seq<char>| names.contains(account) <==> self@.dom().contains(
                account,
            ) by {
                if names.contains(account) {
                    let i = choose|i: int| 0 <= i < names.len() && names[i] == account;
                    assert(self.entries[i].account@ == account);
                }
                if self@.dom().contains(account) {
                    let i = entry_of(self.entries@, account);
                    assert(names[i] == account);
                }
            }
        }
        accounts
    }

    /// Drops the history of `account`.
    pub fn remove(&mut self, account: &String)
        requires
            old(self).wf(),
        ensures
            final(self).wf(),
            final(self)@ == old(self)@.remove(account@),
    {
        let k = self.entry_index(account);
        let ghost before = self.entries@;
        if k < self.entries.len() {
            self.entries.remove(k);
            proof {
                let after = self.entries@;
                assert forall|i: int| 0 <= i < after.len() implies #[trigger] after[i] == before[if i
                    < k {
                    i
                } else {
                    i + 1
                }] by {}
                assert forall|i: int, j: int| 0 <= i < j < after.len() implies (
                #[trigger] after[i]).account@ != (#[trigger] after[j]).account@ by {
                    let from_i = if i < k { i } else { i + 1 };
                    let from_j = if j < k { j } else { j + 1 };
                    assert(after[i] == before[from_i] && after[j] == before[from_j]);
                }
                assert forall|other: Seq<char>| has_entry(after, other) <==> (other != account@
                    && has_entry(before, other)) by {
                    if has_entry(after, other) {
                        let i = entry_of(after, other);
                        let from = if i < k { i } else { i + 1 };
                        assert(before[from].account@ == other);
                        if other == account@ {
                            lemma_entry(before, from);
                            lemma_entry(before, k as int);
                        }
                    }
                    if other != account@ && has_entry(before, other) {
                        let i = entry_of(before, other);
                        let to = if i < k { i } else { i - 1 };
                        assert(after[to].account@ == other);
                    }
                }
                assert forall|other: Seq<char>| other != account@ && has_entry(
                    before,
                    other,
                ) implies archive_of(after)[other] == archive_of(before)[other] by {
                    let i = entry_of(before, other);
                    let to = if i < k { i } else { i - 1 };
                    assert(after[to] == before[i]);
                    lemma_entry(before, i);
                    lemma_entry(after, to);
                }
                assert(archive_of(after) =~= archive_of(before).remove(account@));
            }
        } else {
            assert(self@ =~= old(self)@.remove(account@));
        }
    }
}

} // verus!
