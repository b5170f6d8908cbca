//! Pools of workers.

use vstd::prelude::*;

verus! {

/// Name of the worker threads.
pub fn thread_name() -> (r: &'static str)
    ensures
        r@ == "dwd:w"@,
{
    "dwd:w"
}

/// Represents a thread pool for running workers each in a separate thread.
#[derive(Debug)]
pub struct ThreadPool<F> {
    num_threads: usize,
    factory: F,
}

impl<F> ThreadPool<F> {
    /// The number of threads.
    pub closed spec fn size(&self) -> usize {
        self.num_threads
    }

    /// What makes the workers.
    pub closed spec fn maker(&self) -> F {
        self.factory
    }

    /// Constructs a pool of at least one thread.
    pub fn new(num_threads: usize, factory: F) -> (r: Self)
        requires
            num_threads > 0,
        ensures
            r.size() == num_threads,
            r.maker() == factory,
    {
        ThreadPool { num_threads, factory }
    }

    /// Returns the number of threads.
    pub fn num_threads(&self) -> (r: usize)
        ensures
            r == self.size(),
    {
        self.num_threads
    }

    /// Makes the worker of a thread.
    pub fn worker<U>(&self, idx: usize) -> (r: U) where F: Fn(usize) -> U
        requires
            idx < self.size(),
            call_requires(self.maker(), (idx,)),
        ensures
            call_ensures(self.maker(), (idx,), r),
    {
        (self.factory)(idx)
    }
}

/// Per-CPU task set.
#[derive(Debug)]
pub struct LocalTaskPool<F> {
    num_tasks: usize,
    factory: F,
}

impl<F> LocalTaskPool<F> {
    /// The number of tasks.
    pub closed spec fn size(&self) -> usize {
        self.num_tasks
    }

    /// What makes the tasks.
    pub closed spec fn maker(&self) -> F {
        self.factory
    }

    /// Constructs a set of at least one task.
    pub fn new(num_tasks: usize, factory: F) -> (r: Self)
        requires
            num_tasks > 0,
        ensures
            r.size() == num_tasks,
            r.maker() == factory,
    {
        LocalTaskPool { num_tasks, factory }
    }

    /// Returns the number of tasks.
    pub fn num_tasks(&self) -> (r: usize)
        ensures
            r == self.size(),
    {
        self.num_tasks
    }

    /// Makes a task.
    pub fn task<T>(&self, idx: usize) -> (r: T) where F: Fn(usize) -> T
        requires
            idx < self.size(),
            call_requires(self.maker(), (idx,)),
        ensures
            call_ensures(self.maker(), (idx,), r),
    {
        (self.factory)(idx)
    }
}

} // verus!
