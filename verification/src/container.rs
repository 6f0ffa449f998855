//! The host call bridge: runs a process and hands its yields to host
//! functions that were registered under a key.

use crate::formats::{Process, ProcessView, Stati};
use crate::semantics::run_spec;
use crate::vm::run;
use std::collections::HashMap;
use vstd::prelude::*;

verus! {

/// The gas that every run of the bridge starts with.
pub const START_GAS: u64 = 100_000_000_000_000;

/// The memory budget that every run of the bridge starts with.
pub const START_MEM: u64 = 10_000_000_000_000_000;

/// A process together with the host functions that it may call.
pub struct Container<H> {
    sharp: Process,
    table: HashMap<u64, H>,
}

/// How one round of the bridge ended.
#[derive(Debug, Clone, Copy, PartialEq, Eq, Structural)]
pub enum Turn {
    /// The process yielded with this key and the host function registered
    /// under it was called.
    Handled(u64),
    /// The process yielded with this key and no host function is registered
    /// under it.
    Unhandled(u64),
    /// The process ended in a state that asks for no host function.
    Stopped,
}

/// The key that a process asks the host for: the word under the top of the
/// stack, where the process has yielded and holds two words or more.
pub open spec fn request(p: ProcessView) -> Option<u64> {
    if p.header.status == Stati::YLD.spec_word() && p.stack.len() >= 2 {
        Some(p.stack[p.stack.len() - 2])
    } else {
        None
    }
}

/// The process without the top word of its stack, if it has one.
pub open spec fn acknowledged(p: ProcessView) -> ProcessView {
    if p.stack.len() > 0 {
        p.with_stack(p.stack.drop_last())
    } else {
        p
    }
}

/// Reads the key that a process asks the host for.
pub fn requested_key(p: &Process) -> (r: Option<u64>)
    ensures
        r == request(p@),
{
    let n = p.stack.len();
    if p.header.status == Stati::YLD.word() && n >= 2 {
        Some(p.stack[n - 2])
    } else {
        None
    }
}

/// Closes a host call: drops the top word of the stack, which is the key
/// once the host function has taken its argument.
pub fn acknowledge(p: &mut Process)
    ensures
        final(p)@ == acknowledged(old(p)@),
{
    p.stack.pop();
}

impl<H: Fn(&mut Process)> Container<H> {
    /// Whether every registered host function takes every process. A new
    /// container is so, and registering keeps it so.
    pub closed spec fn wf(&self) -> bool {
        forall|k: u64, p: &mut Process|
            self.table@.contains_key(k) ==> #[trigger] call_requires(self.table@[k], (p,))
    }

    /// The host functions by key.
    pub closed spec fn handlers(&self) -> Map<u64, H> {
        self.table@
    }

    /// The process in its current state.
    pub closed spec fn state(&self) -> Process {
        self.sharp
    }

    /// A container for `sharp` with no host function registered.
    pub fn new(sharp: Process) -> (c: Container<H>)
        ensures
            c.wf(),
            c.state() == sharp,
            c.handlers() == Map::<u64, H>::empty(),
    {
        let tab: HashMap<u64, H> = HashMap::new();
        Container { sharp, table: tab }
    }

    /// The host function registered under `key`.
    pub fn get(&self, key: u64) -> (fun: &H)
        requires
            self.handlers().contains_key(key),
        ensures
            *fun == self.handlers()[key],
    {
        let found = self.table.get(&key);
        found.unwrap()
    }

    /// Whether a host function is registered under `key`.
    pub fn has(&self, key: u64) -> (found: bool)
        ensures
            found == self.handlers().contains_key(key),
    {
        self.table.contains_key(&key)
    }

    /// Registers `fun` under `key`, in place of what was registered there.
    /// A host function must take every process.
    pub fn add_func(&mut self, key: u64, fun: H)
        requires
            old(self).wf(),
            forall|p: &mut Process| call_requires(fun, (p,)),
        ensures
            final(self).wf(),
            final(self).handlers() == old(self).handlers().insert(key, fun),
            final(self).state() == old(self).state(),
    {
        self.table.insert(key, fun);
    }

    /// The process in its current state.
    pub fn process(&self) -> (p: &Process)
        ensures
            *p == self.state(),
    {
        &self.sharp
    }

    /// Gives the process up.
    pub fn into_process(self) -> (p: Process)
        ensures
            p == self.state(),
    {
        self.sharp
    }

    /// One round of the bridge: runs the process with the starting budgets
    /// until it ends, and serves its yield. Where it has yielded and asks for
    /// a key under which a host function is registered, that function is
    /// called with the process, and then the top word of the stack is
    /// dropped. Where none is registered the process stays as the run left
    /// it, and the round reports the key. The round says `Stopped` where the
    /// process asks for nothing; the caller goes on with another round
    /// otherwise.
    pub fn turn(&mut self) -> (t: Turn)
        requires
            old(self).wf(),
        ensures
            final(self).wf(),
            final(self).handlers() == old(self).handlers(),
            match t {
                Turn::Stopped => {
                    &&& request(run_spec(old(self).state()@, START_GAS, START_MEM)) is None
                    &&& final(self).state()@ == run_spec(old(self).state()@, START_GAS, START_MEM)
                },
                Turn::Unhandled(key) => {
                    &&& request(run_spec(old(self).state()@, START_GAS, START_MEM)) == Some(key)
                    &&& !old(self).handlers().contains_key(key)
                    &&& final(self).state()@ == run_spec(old(self).state()@, START_GAS, START_MEM)
                },
                Turn::Handled(key) => {
                    &&& request(run_spec(old(self).state()@, START_GAS, START_MEM)) == Some(key)
                    &&& old(self).handlers().contains_key(key)
                    &&& exists|p: &mut Process|
                        {
                            &&& (*p)@ == run_spec(old(self).state()@, START_GAS, START_MEM)
                            &&& #[trigger] call_ensures(old(self).handlers()[key], (p,), ())
                            &&& final(self).state()@ == acknowledged((*final(p))@)
                        }
                },
            },
    {
        self.sharp = run(self.sharp.clone(), START_GAS, START_MEM);
        match requested_key(&self.sharp) {
            None => Turn::Stopped,
            Some(key) => match self.table.get(&key) {
                Some(fun) => {
                    fun(&mut self.sharp);
                    acknowledge(&mut self.sharp);
                    Turn::Handled(key)
                },
                None => Turn::Unhandled(key),
            },
        }
    }
}

} // verus!
