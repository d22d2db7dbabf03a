use vstd::prelude::*;

verus! {

/// One entry of an execution order: how long a job takes and what it is.
#[derive(Clone, Debug, PartialEq, Eq)]
pub struct Job {
    pub duration: usize,
    pub description: String,
}

impl View for Job {
    type V = (usize, Seq<char>);

    open spec fn view(&self) -> (usize, Seq<char>) {
        (self.duration, self.description@)
    }
}

} // verus!
