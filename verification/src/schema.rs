//! The shape of a plan: its settings and its jobs, keyed by id.

use std::collections::HashMap;
use vstd::prelude::*;

verus! {

/// A whole plan: when work may happen, and the jobs to be done.
#[derive(PartialEq, Debug)]
pub struct YamlSchema {
    pub settings: Settings,
    pub tasks: HashMap<usize, JobNode>,
}

/// The bounds of a working day and the moment the plan starts.
#[derive(PartialEq, Debug)]
pub struct Settings {
    pub start_at: String,
    pub work_start_hour: usize,
    pub work_end_hour: usize,
}

/// One job: how long it takes, what it is, and the ids of the jobs that
/// depend on it and so have to wait for it.
#[derive(PartialEq, Debug)]
pub struct JobNode {
    pub duration: usize,
    pub description: String,
    pub next: Option<Vec<usize>>,
}

impl View for JobNode {
    type V = (usize, Seq<char>, Option<Seq<usize>>);

    open spec fn view(&self) -> (usize, Seq<char>, Option<Seq<usize>>) {
        (
            self.duration,
            self.description@,
            match self.next {
                Some(ids) => Some(ids@),
                None => None,
            },
        )
    }
}

impl JobNode {
    /// The ids that this job lists as depending on it; none where the list
    /// is absent.
    pub open spec fn dependents(self) -> Seq<usize> {
        match self.next {
            Some(ids) => ids@,
            None => Seq::empty(),
        }
    }

    /// What an execution order keeps of this job: its duration and its
    /// description.
    pub open spec fn entry(self) -> (usize, Seq<char>) {
        (self.duration, self.description@)
    }

    /// Whether this job lists `id` among its dependents.
    pub fn has_dependent(&self, id: usize) -> (listed: bool)
        ensures
            listed == self.dependents().contains(id),
    {
        match &self.next {
            Some(ids) => {
                let mut i: usize = 0;
                while i < ids.len()
                    invariant
                        self.dependents() == ids@,
                        i <= ids@.len(),
                        forall|j: int| 0 <= j < i ==> ids@[j] != id,
                    decreases ids@.len() - i,
                {
                    if ids[i] == id {
                        assert(self.dependents()[i as int] == id);
                        return true;
                    }
                    i += 1;
                }
                false
            },
            None => false,
        }
    }
}

impl Clone for JobNode {
    fn clone(&self) -> (copy: Self)
        ensures
            copy@ == self@,
    {
        let next = match &self.next {
            Some(ids) => Some(ids.clone()),
            None => None,
        };
        JobNode { duration: self.duration, description: self.description.clone(), next }
    }
}

impl Clone for YamlSchema {
    fn clone(&self) -> (copy: Self)
        ensures
            copy.settings.start_at@ == self.settings.start_at@,
            copy.settings.work_start_hour == self.settings.work_start_hour,
            copy.settings.work_end_hour == self.settings.work_end_hour,
            copy.tasks@ == self.tasks@,
    {
        YamlSchema { settings: self.settings.clone(), tasks: self.tasks.clone() }
    }
}

impl Clone for Settings {
    fn clone(&self) -> (copy: Self)
        ensures
            copy.start_at@ == self.start_at@,
            copy.work_start_hour == self.work_start_hour,
            copy.work_end_hour == self.work_end_hour,
    {
        Settings {
            start_at: self.start_at.clone(),
            work_start_hour: self.work_start_hour,
            work_end_hour: self.work_end_hour,
        }
    }
}

} // verus!
