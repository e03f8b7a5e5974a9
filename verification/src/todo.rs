//! The to-do list's update request: which stored tasks to delete and
//! which to insert.

use vstd::prelude::*;

verus! {

/// The fields of an update form: a task to delete, and a task to add.
#[derive(Clone, Debug, PartialEq, Eq)]
pub struct Task {
    pub id: Option<String>,
    pub task: Option<String>,
}

/// One change to the stored tasks.
#[derive(Clone, Debug, PartialEq, Eq)]
pub enum TaskAction {
    /// Delete every stored task with this text.
    Delete(String),
    /// Store a new task with this text.
    Insert(String),
}

/// The changes an update form asks for, in order: deleting the task
/// named by `id`, if given, then inserting `task`, if given and not
/// empty.
pub open spec fn actions_for(form: Task) -> Seq<TaskAction> {
    let deletes = match form.id {
        Some(id) => seq![TaskAction::Delete(id)],
        None => Seq::<TaskAction>::empty(),
    };
    let inserts = match form.task {
        Some(t) => if t@.len() > 0 {
            seq![TaskAction::Insert(t)]
        } else {
            Seq::<TaskAction>::empty()
        },
        None => Seq::<TaskAction>::empty(),
    };
    deletes + inserts
}

/// The changes to make for an update form.
pub fn update_actions(form: Task) -> (actions: Vec<TaskAction>)
    ensures
        actions@ == actions_for(form),
{
    let ghost f = form;
    let mut actions: Vec<TaskAction> = Vec::new();
    if let Some(id) = form.id {
        actions.push(TaskAction::Delete(id));
    }
    match form.task {
        Some(task) => {
            if !task.as_str().is_empty() {
                actions.push(TaskAction::Insert(task));
            }
        },
        None => {},
    }
    assert(actions@ =~= actions_for(f));
    actions
}

/// Law: a form asks for one deletion when it names an id and one
/// insertion when its task is present and not empty, each independently
/// of the other field; the deletion of the id comes first and the
/// insertion of the task last; nothing else is asked for.
pub proof fn law_update_actions(form: Task)
    ensures
        actions_for(form).len() == (if form.id is Some {
            1int
        } else {
            0int
        }) + (if form.task matches Some(t) && t@.len() > 0 {
            1int
        } else {
            0int
        }),
        form.id matches Some(id) ==> actions_for(form)[0] == TaskAction::Delete(id),
        form.task matches Some(t) ==> (t@.len() > 0 ==> actions_for(form).last() == TaskAction::Insert(t)),
        form.id is None ==> forall|i: int| 0 <= i < actions_for(form).len() ==> #[trigger] actions_for(form)[i] is Insert,
        !(form.task matches Some(t) && t@.len() > 0) ==> forall|i: int|
            0 <= i < actions_for(form).len() ==> #[trigger] actions_for(form)[i] is Delete,
{
}

/// Law: what a form asks to insert does not depend on its id: the form
/// without an id asks for exactly what the same form with an id asks
/// for, less the deletion at the front.
pub proof fn law_insert_independent_of_id(id: String, task: Option<String>)
    ensures
        actions_for(Task { id: None, task: task }) == actions_for(Task { id: Some(id), task: task }).drop_first(),
{
    assert(actions_for(Task { id: None, task: task }) =~= actions_for(Task { id: Some(id), task: task }).drop_first());
}

} // verus!
