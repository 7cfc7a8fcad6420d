//! What the pipeline works with: its tasks and the directories it reads
//! from and writes to.

use vstd::prelude::*;

use crate::task::TaskStore;

verus! {

/// The tasks of a build, the resource directory and the output directory.
pub struct Context {
    pub task_store: TaskStore,
    pub input: String,
    pub output: String,
}

impl Context {
    /// A context with no task yet.
    pub fn new(input: String, output: String) -> (res: Context)
        ensures
            res.task_store.wf(),
            res.task_store@ == Seq::<crate::task::Task>::empty(),
            res.input == input,
            res.output == output,
    {
        Context { task_store: TaskStore::new(), input, output }
    }
}

} // verus!
