//! The task store: an ordered in-memory collection of tasks with
//! add, complete and list operations, and conversion to and from the
//! persisted text format.

use vstd::prelude::*;
use vstd::string::StringExecFns;
use crate::codec::file_rep;
use crate::codec::parse_file;
use crate::codec::parse_lines;
use crate::codec::parse_record_line;
use crate::codec::render_record_line;
use crate::codec::split_str;
use crate::codec::views_of;
use crate::task::Task;
use crate::task::TaskView;
use crate::task::display_rep;

verus! {

/// The ordered in-memory collection of tasks for one session.
pub struct TaskManager {
    tasks: Vec<Task>,
}

impl View for TaskManager {
    type V = Seq<TaskView>;

    closed spec fn view(&self) -> Seq<TaskView> {
        self.tasks@.map_values(|t: Task| t@)
    }
}

/// What adding a task does: append a fresh, incomplete task whose id
/// is one past the current count.
pub open spec fn add_spec(tasks: Seq<TaskView>, description: Seq<char>) -> Seq<TaskView> {
    tasks.push(TaskView { id: tasks.len() + 1, description, completed: false })
}

/// The first position holding the given id, or -1 when no task has it.
pub open spec fn first_with_id(tasks: Seq<TaskView>, id: nat) -> int
    decreases tasks.len(),
{
    if tasks.len() == 0 {
        -1
    } else if tasks.first().id == id {
        0
    } else {
        let rest = first_with_id(tasks.drop_first(), id);
        if rest == -1 {
            -1
        } else {
            rest + 1
        }
    }
}

/// What completing a task does: mark the first task with the given id
/// complete, and change nothing when no task has it.
pub open spec fn complete_spec(tasks: Seq<TaskView>, id: nat) -> Seq<TaskView> {
    let i = first_with_id(tasks, id);
    if i == -1 {
        tasks
    } else {
        tasks.update(
            i,
            TaskView {
                id: tasks[i].id,
                description: tasks[i].description,
                completed: true,
            },
        )
    }
}

/// Where `first_with_id` points: either -1 and no task has the id, or
/// the first position whose task has it.
pub proof fn lemma_first_with_id_props(tasks: Seq<TaskView>, id: nat)
    ensures
        first_with_id(tasks, id) == -1 ==> forall|j: int|
            0 <= j < tasks.len() ==> (#[trigger] tasks[j].id) != id,
        first_with_id(tasks, id) != -1 ==> {
            let i = first_with_id(tasks, id);
            &&& 0 <= i < tasks.len()
            &&& tasks[i].id == id
            &&& forall|j: int| 0 <= j < i ==> (#[trigger] tasks[j].id) != id
        },
    decreases tasks.len(),
{
    if tasks.len() != 0 && tasks.first().id != id {
        lemma_first_with_id_props(tasks.drop_first(), id);
        let rest = first_with_id(tasks.drop_first(), id);
        if rest == -1 {
            assert forall|j: int| 0 <= j < tasks.len() implies (#[trigger] tasks[j].id) != id by {
                if j > 0 {
                    assert(tasks.drop_first()[j - 1].id != id);
                }
            }
        } else {
            assert(tasks[rest + 1] == tasks.drop_first()[rest]);
            assert forall|j: int| 0 <= j < rest + 1 implies (#[trigger] tasks[j].id) != id by {
                if j > 0 {
                    assert(tasks.drop_first()[j - 1].id != id);
                }
            }
        }
    }
}

/// `first_with_id` is what the position of a witness forces it to be.
pub proof fn lemma_first_with_id_at(tasks: Seq<TaskView>, id: nat, i: int)
    requires
        0 <= i < tasks.len(),
        tasks[i].id == id,
        forall|j: int| 0 <= j < i ==> (#[trigger] tasks[j].id) != id,
    ensures
        first_with_id(tasks, id) == i,
    decreases tasks.len(),
{
    if i == 0 {
        assert(tasks.first().id == id);
    } else {
        assert(tasks[0].id != id);
        assert(tasks.drop_first()[i - 1] == tasks[i]);
        assert forall|j: int| 0 <= j < i - 1 implies (#[trigger] tasks.drop_first()[j].id)
            != id by {
            assert(tasks.drop_first()[j] == tasks[j + 1]);
        }
        lemma_first_with_id_at(tasks.drop_first(), id, i - 1);
    }
}

/// Updating a task in place without touching its id leaves
/// `first_with_id` where it was, for every id.
pub proof fn lemma_first_with_id_update(tasks: Seq<TaskView>, id: nat, i: int, t: TaskView)
    requires
        0 <= i < tasks.len(),
        t.id == tasks[i].id,
    ensures
        first_with_id(tasks.update(i, t), id) == first_with_id(tasks, id),
    decreases tasks.len(),
{
    let updated = tasks.update(i, t);
    if i == 0 {
        assert(updated.first().id == tasks.first().id);
        if tasks.first().id != id {
            assert(updated.drop_first() =~= tasks.drop_first());
        }
    } else {
        assert(updated.first() == tasks.first());
        if tasks.first().id != id {
            assert(updated.drop_first() =~= tasks.drop_first().update(i - 1, t));
            assert(tasks.drop_first()[i - 1] == tasks[i]);
            lemma_first_with_id_update(tasks.drop_first(), id, i - 1, t);
        }
    }
}

/// Ids are positional: the task at position `i` carries id `i + 1`,
/// so the nth task ever added carries id n.
pub open spec fn positional_ids(tasks: Seq<TaskView>) -> bool {
    forall|i: int| 0 <= i < tasks.len() ==> (#[trigger] tasks[i].id) == i + 1
}

/// An empty store has positional ids, vacuously.
pub proof fn lemma_empty_positional()
    ensures
        positional_ids(Seq::<TaskView>::empty()),
{
}

/// Adding a task keeps ids positional, and the task just added — the
/// nth one when n tasks are now held — carries id n. Hence, starting
/// from an empty store, any sequence of adds gives the nth added task
/// id n.
pub proof fn lemma_add_positional(tasks: Seq<TaskView>, description: Seq<char>)
    requires
        positional_ids(tasks),
    ensures
        positional_ids(add_spec(tasks, description)),
        add_spec(tasks, description).last().id == add_spec(tasks, description).len(),
{
    let added = add_spec(tasks, description);
    assert forall|i: int| 0 <= i < added.len() implies (#[trigger] added[i].id) == i + 1 by {
        if i < tasks.len() {
            assert(added[i] == tasks[i]);
        }
    }
}

/// Completing is idempotent: a second completion of the same id finds
/// the same task, changes nothing, and succeeds exactly when the
/// first did.
pub proof fn lemma_complete_idempotent(tasks: Seq<TaskView>, id: nat)
    ensures
        complete_spec(complete_spec(tasks, id), id) == complete_spec(tasks, id),
        first_with_id(complete_spec(tasks, id), id) == first_with_id(tasks, id),
{
    let i = first_with_id(tasks, id);
    lemma_first_with_id_props(tasks, id);
    if i != -1 {
        let t = TaskView {
            id: tasks[i].id,
            description: tasks[i].description,
            completed: true,
        };
        let once = tasks.update(i, t);
        lemma_first_with_id_update(tasks, id, i, t);
        assert(once[i] == t);
        let t2 = TaskView { id: once[i].id, description: once[i].description, completed: true };
        assert(t2 =~~= t);
        assert(once.update(i, t2) =~~= once);
    }
}

impl TaskManager {
    /// An empty store.
    pub fn new() -> (manager: TaskManager)
        ensures
            manager@ == Seq::<TaskView>::empty(),
    {
        let manager = TaskManager { tasks: Vec::new() };
        proof {
            assert(manager@ =~= Seq::<TaskView>::empty());
        }
        manager
    }

    /// How many tasks the store holds.
    pub fn task_count(&self) -> (n: usize)
        ensures
            n == self@.len(),
    {
        self.tasks.len()
    }

    /// The task at a position, in insertion order.
    pub fn task_at(&self, i: usize) -> (t: &Task)
        requires
            i < self@.len(),
        ensures
            t@ == self@[i as int],
    {
        &self.tasks[i]
    }

    /// Append a fresh, incomplete task whose id is one past the
    /// current count.
    pub fn add_task(&mut self, description: String)
        requires
            old(self)@.len() < usize::MAX,
        ensures
            final(self)@ == add_spec(old(self)@, description@),
    {
        let ghost d = description@;
        let id = self.tasks.len() + 1;
        let task = Task::new(id, description);
        self.tasks.push(task);
        proof {
            assert(self@ =~= add_spec(old(self)@, d));
        }
    }

    /// Mark the first task with the given id complete. When no task
    /// has the id, the store is unchanged and the task-not-found
    /// error comes back.
    pub fn complete_task(&mut self, id: usize) -> (r: Result<(), String>)
        ensures
            final(self)@ == complete_spec(old(self)@, id as nat),
            r is Ok <==> first_with_id(old(self)@, id as nat) != -1,
            r matches Err(m) ==> m@ == "Task not found"@,
    {
        let n = self.tasks.len();
        let mut i: usize = 0;
        while i < n
            invariant
                0 <= i <= n,
                n == self@.len(),
                self@ == old(self)@,
                self.tasks@ == old(self).tasks@,
                forall|j: int| 0 <= j < i ==> (#[trigger] old(self)@[j].id) != id as nat,
            decreases n - i,
        {
            if self.tasks[i].id == id {
                proof {
                    assert(self@[i as int].id == id as nat);
                    lemma_first_with_id_at(old(self)@, id as nat, i as int);
                }
                let ghost before = self@;
                self.tasks[i].completed = true;
                proof {
                    let t = TaskView {
                        id: before[i as int].id,
                        description: before[i as int].description,
                        completed: true,
                    };
                    assert(self.tasks@[i as int]@ =~~= t);
                    assert(self@ =~~= before.update(i as int, t));
                    assert(self@ =~~= complete_spec(old(self)@, id as nat));
                }
                return Ok(());
            }
            proof {
                assert(self@[i as int].id != id as nat);
            }
            i = i + 1;
        }
        proof {
            lemma_first_with_id_props(old(self)@, id as nat);
            if first_with_id(old(self)@, id as nat) != -1 {
                let w = first_with_id(old(self)@, id as nat);
                assert(old(self)@[w].id == id as nat);
            }
        }
        Err("Task not found".to_owned())
    }

    /// The display lines of all tasks, in insertion order.
    pub fn list_tasks(&self) -> (lines: Vec<String>)
        ensures
            lines@.len() == self@.len(),
            forall|i: int|
                0 <= i < self@.len() ==> (#[trigger] lines@[i])@ == display_rep(self@[i]),
    {
        let mut lines: Vec<String> = Vec::new();
        let n = self.tasks.len();
        let mut i: usize = 0;
        while i < n
            invariant
                0 <= i <= n,
                n == self@.len(),
                lines@.len() == i,
                forall|j: int| 0 <= j < i ==> (#[trigger] lines@[j])@ == display_rep(self@[j]),
            decreases n - i,
        {
            let line = self.tasks[i].render();
            lines.push(line);
            i = i + 1;
        }
        lines
    }

    /// Render the whole store as its persisted text.
    pub fn save_tasks(&self) -> (content: String)
        ensures
            content@ == file_rep(self@),
    {
        let mut content = String::new();
        let n = self.tasks.len();
        let mut i: usize = 0;
        proof {
            assert(self@.skip(0) =~= self@);
            assert(content@ + file_rep(self@) =~= file_rep(self@));
        }
        while i < n
            invariant
                0 <= i <= n,
                n == self@.len(),
                content@ + file_rep(self@.skip(i as int)) == file_rep(self@),
            decreases n - i,
        {
            let line = render_record_line(&self.tasks[i]);
            content.append(line.as_str());
            content.append("\n");
            proof {
                reveal_strlit("\n");
                let tail = self@.skip(i as int);
                assert(tail.first() == self@[i as int]);
                assert(tail.drop_first() =~= self@.skip(i as int + 1));
                assert("\n"@ =~= seq!['\n']);
                assert(content@ + file_rep(self@.skip(i as int + 1)) =~= file_rep(self@));
            }
            i = i + 1;
        }
        proof {
            assert(self@.skip(n as int) =~= Seq::<TaskView>::empty());
            assert(content@ =~= file_rep(self@));
        }
        content
    }

    /// Read a persisted text and append every task it holds, in
    /// order, to the store.
    pub fn load_tasks(&mut self, content: &str)
        ensures
            final(self)@ == old(self)@ + parse_file(content@),
    {
        let lines = split_str(content, '\n');
        let ghost line_views = views_of(lines@);
        let n = lines.len();
        let mut i: usize = 0;
        proof {
            assert(line_views.skip(0) =~= line_views);
            assert(old(self)@ + parse_lines(line_views) == self@ + parse_lines(
                line_views.skip(0),
            ));
        }
        while i < n
            invariant
                0 <= i <= n,
                n == line_views.len(),
                n == lines@.len(),
                line_views == views_of(lines@),
                old(self)@ + parse_lines(line_views) == self@ + parse_lines(
                    line_views.skip(i as int),
                ),
            decreases n - i,
        {
            proof {
                assert(line_views[i as int] == lines@[i as int]@);
                assert(line_views.skip(i as int).first() == line_views[i as int]);
                assert(line_views.skip(i as int).drop_first() =~= line_views.skip(i as int + 1));
            }
            let parsed = parse_record_line(lines[i].as_str());
            match parsed {
                Some(task) => {
                    let ghost before = self@;
                    self.tasks.push(task);
                    proof {
                        assert(self@ =~= before.push(task@));
                        assert(seq![task@] + parse_lines(line_views.skip(i as int + 1))
                            =~= parse_lines(line_views.skip(i as int)));
                    }
                },
                None => {
                },
            }
            i = i + 1;
        }
        proof {
            assert(line_views.skip(n as int) =~= Seq::<Seq<char>>::empty());
            assert(parse_lines(line_views.skip(n as int)) == Seq::<TaskView>::empty());
            assert(self@ =~= old(self)@ + parse_file(content@));
        }
    }
}

} // verus!
