//! The queue of open tasks: at most one task under each id, kept in the
//! order of the ids.

use vstd::prelude::*;
use crate::task::{task_views, Task, TaskView};
use crate::text::{
    lemma_precedes_connected, lemma_precedes_irreflexive, lemma_precedes_transitive, precedes,
    text_precedes,
};

verus! {

/// The ids of `tasks` go up strictly: no id occurs twice.
pub open spec fn ordered(tasks: Seq<TaskView>) -> bool {
    forall|i: int, j: int|
        0 <= i < j < tasks.len() ==> precedes((#[trigger] tasks[i]).id, (#[trigger] tasks[j]).id)
}

/// Whether a task under `id` is among `tasks`.
pub open spec fn holds(tasks: Seq<TaskView>, id: Seq<char>) -> bool {
    exists|i: int| 0 <= i < tasks.len() && (#[trigger] tasks[i]).id == id
}

/// The number of leading tasks whose id precedes `id`. In an ordered list
/// that is where a task under `id` stands, or where it would have to go.
pub open spec fn slot(tasks: Seq<TaskView>, id: Seq<char>) -> int
    decreases tasks.len(),
{
    if tasks.len() == 0 || !precedes(tasks[0].id, id) {
        0
    } else {
        1 + slot(tasks.drop_first(), id)
    }
}

/// The place of the task under `id` among `tasks`, if there is one.
pub open spec fn find(tasks: Seq<TaskView>, id: Seq<char>) -> Option<int> {
    let k = slot(tasks, id);
    if k < tasks.len() && tasks[k].id == id {
        Some(k)
    } else {
        None
    }
}

/// `tasks` with `task` put under its id: in place of the task that stood
/// under that id, or else where the order asks for it.
pub open spec fn put(tasks: Seq<TaskView>, task: TaskView) -> Seq<TaskView> {
    match find(tasks, task.id) {
        Some(k) => tasks.update(k, task),
        None => tasks.insert(slot(tasks, task.id), task),
    }
}

/// `tasks` without the task under `id`.
pub open spec fn without(tasks: Seq<TaskView>, id: Seq<char>) -> Seq<TaskView> {
    match find(tasks, id) {
        Some(k) => tasks.remove(k),
        None => tasks,
    }
}

/// The first `limit` of `tasks`, or all of them where there are fewer.
pub open spec fn leading(tasks: Seq<TaskView>, limit: nat) -> Seq<TaskView> {
    if limit < tasks.len() {
        tasks.take(limit as int)
    } else {
        tasks
    }
}

/// The slot lies within the list, all ids before it precede `id`, and the
/// id at it does not.
pub proof fn lemma_slot_bounds(tasks: Seq<TaskView>, id: Seq<char>)
    ensures
        0 <= slot(tasks, id) <= tasks.len(),
        forall|i: int| 0 <= i < slot(tasks, id) ==> precedes((#[trigger] tasks[i]).id, id),
        slot(tasks, id) < tasks.len() ==> !precedes(tasks[slot(tasks, id)].id, id),
    decreases tasks.len(),
{
    if tasks.len() > 0 && precedes(tasks[0].id, id) {
        let rest = tasks.drop_first();
        lemma_slot_bounds(rest, id);
        assert forall|i: int| 0 <= i < slot(tasks, id) implies precedes(
            (#[trigger] tasks[i]).id,
            id,
        ) by {
            if i > 0 {
                assert(tasks[i] == rest[i - 1]);
            }
        }
        if slot(tasks, id) < tasks.len() {
            assert(tasks[slot(tasks, id)] == rest[slot(rest, id)]);
        }
    }
}

/// The slot is the only place with preceding ids before it and none at it.
pub proof fn lemma_slot_unique(tasks: Seq<TaskView>, id: Seq<char>, k: int)
    requires
        0 <= k <= tasks.len(),
        forall|i: int| 0 <= i < k ==> precedes((#[trigger] tasks[i]).id, id),
        k < tasks.len() ==> !precedes(tasks[k].id, id),
    ensures
        slot(tasks, id) == k,
{
    lemma_slot_bounds(tasks, id);
    let s = slot(tasks, id);
    if s < k {
        assert(precedes(tasks[s].id, id));
    } else if k < s {
        assert(precedes(tasks[k].id, id));
    }
}

/// In an ordered list no id from the slot on precedes `id`, and only the
/// task at the slot can stand under `id`.
pub proof fn lemma_slot_ordered(tasks: Seq<TaskView>, id: Seq<char>)
    requires
        ordered(tasks),
    ensures
        forall|i: int|
            slot(tasks, id) <= i < tasks.len() ==> !precedes((#[trigger] tasks[i]).id, id),
        forall|i: int|
            0 <= i < tasks.len() && (#[trigger] tasks[i]).id == id ==> i == slot(tasks, id),
        holds(tasks, id) <==> find(tasks, id) is Some,
{
    lemma_slot_bounds(tasks, id);
    let s = slot(tasks, id);
    assert forall|i: int| s <= i < tasks.len() implies !precedes((#[trigger] tasks[i]).id, id) by {
        if i > s && precedes(tasks[i].id, id) {
            lemma_precedes_transitive(tasks[s].id, tasks[i].id, id);
        }
    }
    assert forall|i: int| 0 <= i < tasks.len() && (#[trigger] tasks[i]).id == id implies i
        == s by {
        lemma_precedes_irreflexive(id);
        if i > s {
            assert(precedes(tasks[s].id, tasks[i].id));
        }
    }
    if find(tasks, id) is Some {
        assert(tasks[s].id == id);
    }
}

/// Putting a task into an ordered list leaves it ordered, with that task
/// under its id and every other id as it was.
pub proof fn lemma_put(tasks: Seq<TaskView>, task: TaskView)
    requires
        ordered(tasks),
    ensures
        ordered(put(tasks, task)),
        find(put(tasks, task), task.id) == Some(slot(tasks, task.id)),
        put(tasks, task)[slot(tasks, task.id)] == task,
        forall|id: Seq<char>|
            id != task.id ==> (holds(put(tasks, task), id) <==> holds(tasks, id)),
        holds(put(tasks, task), task.id),
{
    let id = task.id;
    let s = slot(tasks, id);
    let after = put(tasks, task);
    lemma_slot_bounds(tasks, id);
    lemma_slot_ordered(tasks, id);
    match find(tasks, id) {
        Some(k) => {
            assert forall|i: int, j: int| 0 <= i < j < after.len() implies precedes(
                (#[trigger] after[i]).id,
                (#[trigger] after[j]).id,
            ) by {
                assert(after[i].id == tasks[i].id && after[j].id == tasks[j].id);
            }
            assert forall|i: int| 0 <= i < s implies precedes((#[trigger] after[i]).id, id) by {
                assert(after[i] == tasks[i]);
            }
            lemma_precedes_irreflexive(id);
            lemma_slot_unique(after, id, s);
            assert forall|other: Seq<char>| other != id implies (holds(after, other) <==> holds(
                tasks,
                other,
            )) by {
                if holds(after, other) {
                    let i = choose|i: int| 0 <= i < after.len() && (#[trigger] after[i]).id == other;
                    assert(tasks[i].id == other);
                }
                if holds(tasks, other) {
                    let i = choose|i: int| 0 <= i < tasks.len() && (#[trigger] tasks[i]).id == other;
                    assert(after[i].id == other);
                }
            }
            assert(after[s].id == id);
        },
        None => {
            assert forall|m: int| s <= m < tasks.len() implies precedes(
                id,
                (#[trigger] tasks[m]).id,
            ) by {
                lemma_precedes_connected(tasks[s].id, id);
                if m > s {
                    lemma_precedes_transitive(id, tasks[s].id, tasks[m].id);
                }
            }
            assert forall|i: int, j: int| 0 <= i < j < after.len() implies precedes(
                (#[trigger] after[i]).id,
                (#[trigger] after[j]).id,
            ) by {
                if j < s {
                    assert(after[i] == tasks[i] && after[j] == tasks[j]);
                } else if j == s {
                    assert(after[i] == tasks[i]);
                } else if i < s {
                    assert(after[i] == tasks[i] && after[j] == tasks[j - 1]);
                    lemma_precedes_transitive(tasks[i].id, id, tasks[j - 1].id);
                } else if i == s {
                    assert(after[j] == tasks[j - 1]);
                } else {
                    assert(after[i] == tasks[i - 1] && after[j] == tasks[j - 1]);
                }
            }
            assert forall|i: int| 0 <= i < s implies precedes((#[trigger] after[i]).id, id) by {
                assert(after[i] == tasks[i]);
            }
            lemma_precedes_irreflexive(id);
            assert(after[s] == task);
            lemma_slot_unique(after, id, s);
            assert forall|other: Seq<char>| other != id implies (holds(after, other) <==> holds(
                tasks,
                other,
            )) by {
                if holds(after, other) {
                    let i = choose|i: int| 0 <= i < after.len() && (#[trigger] after[i]).id == other;
                    if i < s {
                        assert(tasks[i].id == other);
                    } else {
                        assert(tasks[i - 1].id == other);
                    }
                }
                if holds(tasks, other) {
                    let i = choose|i: int| 0 <= i < tasks.len() && (#[trigger] tasks[i]).id == other;
                    if i < s {
                        assert(after[i].id == other);
                    } else {
                        assert(after[i + 1].id == other);
                    }
                }
            }
            assert(after[s].id == id);
        },
    }
}

/// Taking a task out of an ordered list leaves it ordered, without a task
/// under that id and with every other id as it was.
pub proof fn lemma_without(tasks: Seq<TaskView>, id: Seq<char>)
    requires
        ordered(tasks),
    ensures
        ordered(without(tasks, id)),
        !holds(without(tasks, id), id),
        forall|other: Seq<char>|
            other != id ==> (holds(without(tasks, id), other) <==> holds(tasks, other)),
{
    let after = without(tasks, id);
    lemma_slot_bounds(tasks, id);
    lemma_slot_ordered(tasks, id);
    match find(tasks, id) {
        Some(k) => {
            assert forall|i: int, j: int| 0 <= i < j < after.len() implies precedes(
                (#[trigger] after[i]).id,
                (#[trigger] after[j]).id,
            ) by {
                let from_i = if i < k { i } else { i + 1 };
                let from_j = if j < k { j } else { j + 1 };
                assert(after[i] == tasks[from_i] && after[j] == tasks[from_j]);
            }
            if holds(after, id) {
                let i = choose|i: int| 0 <= i < after.len() && (#[trigger] after[i]).id == id;
                let from = if i < k { i } else { i + 1 };
                assert(tasks[from].id == id);
            }
            assert forall|other: Seq<char>| other != id implies (holds(after, other) <==> holds(
                tasks,
                other,
            )) by {
                if holds(after, other) {
                    let i = choose|i: int| 0 <= i < after.len() && (#[trigger] after[i]).id == other;
                    let from = if i < k { i } else { i + 1 };
                    assert(tasks[from].id == other);
                }
                if holds(tasks, other) {
                    let i = choose|i: int| 0 <= i < tasks.len() && (#[trigger] tasks[i]).id == other;
                    let to = if i < k { i } else { i - 1 };
                    assert(after[to].id == other);
                }
            }
        },
        None => {},
    }
}

/// Putting a task back under the id from which one was taken gives the
/// list with that task in the place of the one taken.
pub proof fn lemma_put_back(tasks: Seq<TaskView>, task: TaskView)
    requires
        ordered(tasks),
        holds(tasks, task.id),
    ensures
        put(without(tasks, task.id), task) == put(tasks, task),
{
    let id = task.id;
    lemma_slot_bounds(tasks, id);
    lemma_slot_ordered(tasks, id);
    lemma_without(tasks, id);
    let k = slot(tasks, id);
    let rest = without(tasks, id);
    assert(rest == tasks.remove(k));
    assert forall|i: int| 0 <= i < k implies precedes((#[trigger] rest[i]).id, id) by {
        assert(rest[i] == tasks[i]);
    }
    if k < rest.len() {
        assert(rest[k] == tasks[k + 1]);
        assert(precedes(tasks[k].id, tasks[k + 1].id));
        if precedes(rest[k].id, id) {
            lemma_precedes_transitive(id, rest[k].id, id);
            lemma_precedes_irreflexive(id);
        }
    }
    lemma_slot_unique(rest, id, k);
    lemma_slot_ordered(rest, id);
    assert(find(rest, id) is None);
    assert(rest.insert(k, task) =~= tasks.update(k, task));
}

/// The open tasks, in the order of their ids.
#[derive(Debug, PartialEq, Eq)]
pub struct TaskQueue {
    tasks: Vec<Task>,
}

impl View for TaskQueue {
    type V = Seq<TaskView>;

    closed spec fn view(&self) -> Seq<TaskView> {
        task_views(self.tasks@)
    }
}

impl TaskQueue {
    /// A queue is well formed when its ids go up strictly.
    pub open spec fn wf(&self) -> bool {
        ordered(self@)
    }

    pub fn new() -> (queue: Self)
        ensures
            queue@ == Seq::<TaskView>::empty(),
            queue.wf(),
    {
        let queue = TaskQueue { tasks: Vec::new() };
        assert(queue@ =~= Seq::<TaskView>::empty());
        queue
    }

    /// The number of open tasks.
    pub fn len(&self) -> (n: usize)
        ensures
            n == self@.len(),
    {
        self.tasks.len()
    }

    /// Where the task under `id` stands, or where it would have to go.
    pub fn position(&self, id: &String) -> (k: usize)
        requires
            self.wf(),
        ensures
            k == slot(self@, id@),
            k <= self@.len(),
    {
        let mut low: usize = 0;
        let mut high: usize = self.tasks.len();
        while low < high
            invariant
                low <= high <= self.tasks.len(),
                self.wf(),
                forall|i: int| 0 <= i < low ==> precedes((#[trigger] self@[i]).id, id@),
                forall|i: int| high <= i < self@.len() ==> !precedes((#[trigger] self@[i]).id, id@),
            decreases high - low,
        {
            let mid: usize = low + (high - low) / 2;
            if text_precedes(self.tasks[mid].id.as_str(), id.as_str()) {
                assert forall|i: int| 0 <= i < mid + 1 implies precedes(
                    (#[trigger] self@[i]).id,
                    id@,
                ) by {
                    if i < mid {
                        lemma_precedes_transitive(self@[i].id, self@[mid as int].id, id@);
                    }
                }
                low = mid + 1;
            } else {
                assert forall|i: int| mid <= i < self@.len() implies !precedes(
                    (#[trigger] self@[i]).id,
                    id@,
                ) by {
                    if i > mid && precedes(self@[i].id, id@) {
                        lemma_precedes_transitive(self@[mid as int].id, self@[i].id, id@);
                    }
                }
                high = mid;
            }
        }
        proof {
            lemma_slot_unique(self@, id@, low as int);
        }
        low
    }

    /// Whether a task stands under `id`.
    pub fn contains_key(&self, id: &String) -> (found: bool)
        requires
            self.wf(),
        ensures
            found == holds(self@, id@),
    {
        let k = self.position(id);
        proof {
            lemma_slot_ordered(self@, id@);
        }
        k < self.tasks.len() && self.tasks[k].id == *id
    }

    /// The task under `id`.
    pub fn get(&self, id: &String) -> (found: Option<&Task>)
        requires
            self.wf(),
        ensures
            found is Some <==> holds(self@, id@),
            found matches Some(task) ==> find(self@, id@) matches Some(k) && task@ == self@[k],
    {
        let k = self.position(id);
        proof {
            lemma_slot_ordered(self@, id@);
        }
        if k < self.tasks.len() && self.tasks[k].id == *id {
            Some(&self.tasks[k])
        } else {
            None
        }
    }

    /// Puts `task` under its id and hands back the task that stood there.
    pub fn insert(&mut self, task: Task) -> (previous: Option<Task>)
        requires
            old(self).wf(),
        ensures
            final(self).wf(),
            final(self)@ == put(old(self)@, task@),
            previous is Some <==> holds(old(self)@, task@.id),
            previous matches Some(before) ==> find(old(self)@, task@.id) matches Some(k)
                && before@ == old(self)@[k],
    {
        let k = self.position(&task.id);
        proof {
            lemma_slot_ordered(self@, task@.id);
            lemma_put(self@, task@);
        }
        if k < self.tasks.len() && self.tasks[k].id == task.id {
            let before = self.tasks.remove(k);
            self.tasks.insert(k, task);
            assert(self@ =~= put(old(self)@, task@));
            Some(before)
        } else {
            self.tasks.insert(k, task);
            assert(self@ =~= put(old(self)@, task@));
            None
        }
    }

    /// Takes the task under `id` out of the queue.
    pub fn remove(&mut self, id: &String) -> (removed: Option<Task>)
        requires
            old(self).wf(),
        ensures
            final(self).wf(),
            final(self)@ == without(old(self)@, id@),
            removed is Some <==> holds(old(self)@, id@),
            removed matches Some(task) ==> find(old(self)@, id@) matches Some(k) && task@ == old(
                self,
            )@[k],
    {
        let k = self.position(id);
        proof {
            lemma_slot_ordered(self@, id@);
            lemma_without(self@, id@);
        }
        if k < self.tasks.len() && self.tasks[k].id == *id {
            let task = self.tasks.remove(k);
            assert(self@ =~= without(old(self)@, id@));
            Some(task)
        } else {
            None
        }
    }

    /// Copies of the first `limit` tasks, or of all where there are fewer.
    pub fn first(&self, limit: usize) -> (tasks: Vec<Task>)
        ensures
            task_views(tasks@) == leading(self@, limit as nat),
    {
        let count: usize = if limit < self.tasks.len() {
            limit
        } else {
            self.tasks.len()
        };
        let mut tasks: Vec<Task> = Vec::new();
        let mut i: usize = 0;
        while i < count
            invariant
                i <= count <= self.tasks.len(),
                tasks.len() == i,
                forall|j: int| 0 <= j < i ==> (#[trigger] tasks@[j])@ == self@[j],
            decreases count - i,
        {
            tasks.push(self.tasks[i].clone());
            i += 1;
        }
        assert(task_views(tasks@) =~= leading(self@, limit as nat));
        tasks
    }

    /// Empties the queue.
    pub fn clear(&mut self)
        ensures
            final(self)@ == Seq::<TaskView>::empty(),
            final(self).wf(),
    {
        self.tasks.clear();
        assert(self@ =~= Seq::<TaskView>::empty());
    }
}

} // verus!
