//! Configuration for the firmware's worker tasks: a name and an
//! optional stack size. Spawning itself is platform work and happens
//! outside the library, reading this configuration.

use vstd::prelude::*;

verus! {

/// A task configuration, built up before the task is started.
pub struct EspThread {
    pub name: &'static str,
    pub stack_kb: Option<usize>,
}

impl EspThread {
    /// A configuration with the given task name and the platform's
    /// default stack size.
    pub fn new(name: &'static str) -> (t: EspThread)
        ensures
            t.name == name,
            t.stack_kb is None,
    {
        EspThread { name, stack_kb: None }
    }

    /// The same configuration with an explicit stack size in KiB.
    pub fn with_stack_size(self, stack_kb: usize) -> (t: EspThread)
        ensures
            t.name == self.name,
            t.stack_kb == Some(stack_kb),
    {
        EspThread { stack_kb: Some(stack_kb), ..self }
    }

    /// The configured task name.
    pub fn name(&self) -> (n: &'static str)
        ensures
            n == self.name,
    {
        self.name
    }

    /// The configured stack size in KiB, if one was set.
    pub fn stack_size_kb(&self) -> (s: Option<usize>)
        ensures
            s == self.stack_kb,
    {
        self.stack_kb
    }
}

} // verus!
