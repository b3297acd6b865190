//! Rooted task bindings: cooperative work units whose cancellation is wired
//! to a resource cell.
//!
//! The tree records one state per task. The embedder runs the actual future
//! on its scheduler and reports completion through `complete_task`;
//! releasing the returned cell (directly or through the teardown of an
//! owning node) cancels a task that is still running. Whichever of the two
//! happens first decides the outcome; the loser becomes a no-op.

use vstd::prelude::*;
use crate::el::Tree;
use crate::own::{Effect, ScopeValue};

verus! {

/// The lifecycle of one rooted task.
#[derive(Clone, Copy, PartialEq, Eq, Structural, Debug)]
pub enum TaskState {
    Running,
    Completed,
    Cancelled,
}

/// Bind a new cooperative task: it starts running, and the returned cell
/// cancels it when torn down. The embedder submits the actual future to its
/// scheduler under the returned index.
pub fn spawn_rooted(t: &mut Tree) -> (r: (usize, ScopeValue))
    requires
        old(t).wf(),
    ensures
        final(t).wf(),
        r.0 as int == old(t).tasks_view().len(),
        r.1.effect() == Effect::CancelTask(r.0),
        final(t).tasks_view() == old(t).tasks_view().push(TaskState::Running),
        Tree::spawn_frames(*old(t), *final(t)),
{
    proof {
        t.lemma_registry_reprs();
    }
    let i = t.tasks.len();
    t.tasks.push(TaskState::Running);
    let cell = ScopeValue { atom: crate::own::Atom::Task(i) };
    proof {
        crate::own::lemma_effect(cell);
        t.lemma_registry_frames(*old(t));
        t.lemma_registry_reprs();
        old(t).lemma_registry_reprs();
        t.lemma_same_observers(*old(t));
        t.lemma_same_listeners(*old(t));
        t.lemma_root_cell_repr();
        old(t).lemma_root_cell_repr();
        assert(t.tasks_view() =~= old(t).tasks_view().push(TaskState::Running));
    }
    (i, cell)
}

/// The embedder reports that the task body ran to completion. The first
/// arrival wins: a still-running task becomes completed and the call
/// answers true; a task already cancelled (or already completed) is left
/// as it is and the call answers false.
pub fn complete_task(t: &mut Tree, i: usize) -> (won: bool)
    requires
        old(t).wf(),
        (i as int) < old(t).tasks_view().len(),
    ensures
        final(t).wf(),
        won == (old(t).tasks_view()[i as int] is Running),
        final(t).tasks_view() == (if won {
            old(t).tasks_view().update(i as int, TaskState::Completed)
        } else {
            old(t).tasks_view()
        }),
        Tree::spawn_frames(*old(t), *final(t)),
{
    proof {
        t.lemma_registry_reprs();
    }
    let running = match t.tasks[i] {
        TaskState::Running => true,
        _ => false,
    };
    if running {
        t.tasks[i] = TaskState::Completed;
    }
    proof {
        t.lemma_registry_frames(*old(t));
        t.lemma_registry_reprs();
        old(t).lemma_registry_reprs();
        t.lemma_same_observers(*old(t));
        t.lemma_same_listeners(*old(t));
        t.lemma_root_cell_repr();
        old(t).lemma_root_cell_repr();
        if !running {
            assert(t.tasks_view() =~= old(t).tasks_view());
        } else {
            assert(t.tasks_view() =~= old(t).tasks_view().update(i as int,
                TaskState::Completed));
        }
    }
    running
}

/// Read one task's recorded state.
pub fn task_state(t: &Tree, i: usize) -> (r: TaskState)
    requires
        (i as int) < t.tasks_view().len(),
    ensures
        r == t.tasks_view()[i as int],
{
    proof {
        t.lemma_registry_reprs();
    }
    t.tasks[i]
}

} // verus!
