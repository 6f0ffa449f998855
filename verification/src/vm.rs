//! The execution engine: the fetch-decode-execute loop over a chain of
//! frames, with metering, nested calls and unwinding.

use crate::formats::{d, lemma_decode_header, s, Process, Stati};
use crate::ops::{requirement, IS};
use crate::semantics;
use crate::semantics::{
    boot, drive, lemma_exhaust_linked, lemma_first_exhausted, lemma_marked_linked, lemma_perform,
    lemma_run_ends, lemma_step_progress, lemma_unwind, linked, run_spec, zeros, FrameView, Outcome,
};
use vstd::prelude::*;

verus! {

/// One frame of the call chain: a process, the area of its parent that it
/// was read from and is written back to, and the number of words that area
/// held when the frame was made.
struct Frame {
    process: Process,
    edge: u64,
    size: u64,
}

impl View for Frame {
    type V = FrameView;

    closed spec fn view(&self) -> FrameView {
        FrameView { process: self.process@, edge: self.edge, size: self.size }
    }
}

/// A chain of frames as a mathematical value, root first.
spec fn chain_view(frames: Seq<Frame>) -> Seq<FrameView> {
    Seq::new(frames.len(), |i: int| frames[i]@)
}

/// Finds the instruction that `p` is about to execute, or the status that
/// ends it.
pub fn fetch(p: &Process) -> (r: Result<IS, Stati>)
    ensures
        r == semantics::fetch(p@),
{
    if p.header.ip >= p.code.len() as u64 {
        return Err(Stati::OOC);
    }
    let word = p.code[p.header.ip as usize];
    match IS::from_u64(word) {
        None => Err(Stati::UOC),
        Some(op) => {
            let reqs = requirement(op);
            if reqs.stack_req as u64 > p.stack.len() as u64 {
                Err(Stati::OOS)
            } else if (reqs.length as u64) - 1 >= p.code.len() as u64 - p.header.ip {
                Err(Stati::OOA)
            } else {
                Ok(op)
            }
        },
    }
}

/// Appends `size` zero words to an area.
fn grow(area: &mut Vec<u64>, size: u64)
    ensures
        final(area)@ == old(area)@ + zeros(size as nat),
{
    let mut i: u64 = 0;
    while i < size
        invariant
            i <= size,
            area@ == old(area)@ + zeros(i as nat),
        decreases size - i,
    {
        area.push(0);
        i = i + 1;
        proof {
            assert(area@ =~= old(area)@ + zeros(i as nat));
        }
    }
}

/// Removes the last `size` words of an area, or all of them if it has
/// fewer.
fn shrink(area: &mut Vec<u64>, size: u64)
    ensures
        final(area)@ == old(area)@.take(
            if size >= old(area)@.len() {
                0
            } else {
                old(area)@.len() - size
            },
        ),
{
    let len = area.len();
    if size >= len as u64 {
        area.truncate(0);
    } else {
        area.truncate(len - size as usize);
    }
}

/// Executes `op`, which is not `RUN`, on the process that fetched it.
fn apply(p: &mut Process, op: IS)
    requires
        semantics::fetch(old(p)@) == Ok::<IS, Stati>(op),
        op != IS::RUN,
    ensures
        final(p)@ == semantics::apply(old(p)@, op),
{
    let reqs = requirement(op);
    let n: usize = p.stack.len();
    let ip: u64 = p.header.ip;
    let mut jump: bool = false;
    proof {
        assert(ip < p.code@.len());
        assert(IS::decode(p.code@[ip as int]) == Some(op));
        assert(ip + op.length() <= p.code@.len());
        assert(op.stack_req() <= n);
        assert(p.code.len() <= usize::MAX);
    }
    match op {
        IS::HALT => {
            p.header.status = Stati::HLT.word();
        },
        IS::RETURN => {
            p.header.status = Stati::RET.word();
            p.header.ip = 0;
            jump = true;
        },
        IS::YIELD => {
            p.header.status = Stati::YLD.word();
        },
        IS::JUMP => {
            p.header.ip = p.stack[n - 1];
            p.stack.truncate(n - 1);
            jump = true;
        },
        IS::JZ => {
            if p.stack[n - 2] == 0 {
                p.header.ip = p.stack[n - 1];
                jump = true;
            }
            p.stack.truncate(n - 2);
        },
        IS::PUSH => {
            let value = p.code[(ip + 1) as usize];
            p.stack.push(value);
        },
        IS::POP => {
            if n > 0 {
                p.stack.truncate(n - 1);
            }
        },
        IS::DUP => {
            if n > 0 {
                let top = p.stack[n - 1];
                p.stack.push(top);
            }
        },
        IS::ADD => {
            let b = p.stack[n - 1];
            let a = p.stack[n - 2];
            p.stack.truncate(n - 2);
            p.stack.push(a.wrapping_add(b));
        },
        IS::SUB => {
            let b = p.stack[n - 1];
            let a = p.stack[n - 2];
            p.stack.truncate(n - 2);
            p.stack.push(a.wrapping_sub(b));
        },
        IS::NOT => {
            let value = p.stack[n - 1];
            p.stack.truncate(n - 1);
            if value == 0 {
                p.stack.push(1);
            } else {
                p.stack.push(0);
            }
        },
        IS::MEMORYLEN => {
            p.stack.push(p.memory.len() as u64);
        },
        IS::AREALEN => {
            let area = p.stack[n - 1];
            if area < p.memory.len() as u64 {
                let len = p.memory[area as usize].len() as u64;
                p.stack.truncate(n - 1);
                p.stack.push(len);
            }
        },
        IS::READ => {
            let offset = p.stack[n - 1];
            let area = p.stack[n - 2];
            p.stack.truncate(n - 2);
            if area < p.memory.len() as u64 && offset < p.memory[area as usize].len() as u64 {
                p.stack.push(p.memory[area as usize][offset as usize]);
            }
        },
        IS::WRITE => {
            let value = p.stack[n - 1];
            let offset = p.stack[n - 2];
            let area = p.stack[n - 3];
            p.stack.truncate(n - 3);
            if area < p.memory.len() as u64 && offset < p.memory[area as usize].len() as u64 {
                p.memory[area as usize][offset as usize] = value;
                proof {
                    assert(p@.memory =~= old(p)@.memory.update(
                        area as int,
                        old(p)@.memory[area as int].update(offset as int, value),
                    ));
                }
            }
        },
        IS::AREA => {
            p.memory.push(Vec::with_capacity(1024));
            proof {
                assert(p@.memory =~= old(p)@.memory.push(Seq::empty()));
            }
        },
        IS::ALLOC => {
            let size = p.stack[n - 1];
            let area = p.stack[n - 2];
            p.stack.truncate(n - 2);
            if area < p.memory.len() as u64 {
                grow(&mut p.memory[area as usize], size);
                proof {
                    assert(p@.memory =~= old(p)@.memory.update(
                        area as int,
                        old(p)@.memory[area as int] + zeros(size as nat),
                    ));
                }
            }
        },
        IS::DEALLOC => {
            let size = p.stack[n - 1];
            let area = p.stack[n - 2];
            p.stack.truncate(n - 2);
            if area < p.memory.len() as u64 {
                shrink(&mut p.memory[area as usize], size);
                proof {
                    let words = old(p)@.memory[area as int];
                    let kept = if size >= words.len() {
                        0
                    } else {
                        words.len() - size
                    };
                    assert(p@.memory =~= old(p)@.memory.update(area as int, words.take(kept)));
                }
            }
        },
        IS::ROT2 => {
            let first = p.stack[n - 1];
            let second = p.stack[n - 2];
            let third = p.stack[n - 3];
            p.stack[n - 1] = third;
            p.stack[n - 2] = first;
            p.stack[n - 3] = second;
            proof {
                assert(p.stack@ =~= old(p)@.below(3).push(second).push(first).push(third));
            }
        },
        _ => {
            p.header.status = Stati::UOC.word();
        },
    }
    if !jump {
        p.header.ip = ip + reqs.length as u64;
    }
    proof {
        assert(p@.memory =~= semantics::apply(old(p)@, op).memory);
        assert(p@.stack =~= semantics::apply(old(p)@, op).stack);
    }
}

/// Ends a call: clears the marker, drops the three operands and moves on.
fn resolve(p: &mut Process)
    requires
        semantics::fetch(old(p)@) == Ok::<IS, Stati>(IS::RUN),
    ensures
        final(p)@ == semantics::resolved(old(p)@),
{
    let n: usize = p.stack.len();
    proof {
        assert(IS::decode(p.code@[p.header.ip as int]) == Some(IS::RUN));
        assert(p.code.len() <= usize::MAX);
    }
    p.header.rec = 0;
    p.stack.truncate(n - 3);
    p.header.ip = p.header.ip + 1;
}

/// Executes `RUN` on the process that fetched it, and returns the frame that
/// it starts, if it starts one.
fn call(p: &mut Process) -> (child: Option<Frame>)
    requires
        semantics::fetch(old(p)@) == Ok::<IS, Stati>(IS::RUN),
    ensures
        final(p)@ == semantics::call(old(p)@).0,
        match child {
            Some(frame) => semantics::call(old(p)@).1 == Some(frame@),
            None => semantics::call(old(p)@).1 is None,
        },
{
    let n: usize = p.stack.len();
    proof {
        assert(IS::decode(p.code@[p.header.ip as int]) == Some(IS::RUN));
    }
    let area = p.stack[n - 1];
    let gas = p.stack[n - 2];
    let mem = p.stack[n - 3];
    if area >= p.memory.len() as u64 {
        resolve(p);
        return None;
    }
    let a = area as usize;
    let ghost image = p@.memory[area as int];
    assert(image == p.memory@[a as int]@);
    match d(&p.memory[a]) {
        Err(_) => {
            resolve(p);
            None
        },
        Ok(mut process) => {
            if p.header.rec == 0 {
                proof {
                    lemma_decode_header(image, Stati::NOR.spec_word(), gas, mem);
                }
                p.header.rec = area + 1;
                p.memory[a][0] = Stati::NOR.word();
                p.memory[a][2] = gas;
                p.memory[a][3] = mem;
                process.header.status = Stati::NOR.word();
                process.header.gas = gas;
                process.header.mem = mem;
                proof {
                    assert(p@.memory =~= old(p)@.memory.update(
                        area as int,
                        semantics::requested(image, gas, mem),
                    ));
                }
            } else {
                proof {
                    assert(p@.memory =~= old(p)@.memory.update(area as int, image));
                }
            }
            if process.header.status == Stati::NOR.word() {
                let size = p.memory[a].len() as u64;
                Some(Frame { process, edge: area, size })
            } else {
                resolve(p);
                None
            }
        },
    }
}

/// Whether the budgets of a frame cover a step of the given cost.
fn affords(frame: &Frame, cost: u64) -> (r: bool)
    ensures
        r == semantics::affords(frame@, cost as int),
{
    if frame.process.header.gas < 1 || frame.process.header.mem < cost {
        return false;
    }
    match frame.size.checked_mul(cost) {
        Some(weighted) => weighted <= frame.process.header.mem,
        None => false,
    }
}

/// Marks every frame that cannot afford a step of the given cost out of
/// memory, and returns the first of them, counted from the root, or the
/// length of the chain if there is none.
fn exhaust(frames: &mut Vec<Frame>, cost: u64) -> (out: usize)
    requires
        linked(chain_view(old(frames)@)),
    ensures
        chain_view(final(frames)@) == semantics::exhaust(chain_view(old(frames)@), cost as int),
        out == semantics::first_exhausted(chain_view(old(frames)@), cost as int, 0),
        linked(chain_view(final(frames)@)),
        out == old(frames).len() ==> chain_view(final(frames)@) == chain_view(old(frames)@),
{
    let n: usize = frames.len();
    let ghost before = chain_view(frames@);
    let mut out: usize = n;
    let mut i: usize = n;
    while i > 0
        invariant
            i <= n,
            frames.len() == n,
            old(frames)@.len() == n,
            before == chain_view(old(frames)@),
            out == semantics::first_exhausted(before, cost as int, i as int),
            forall|j: int| 0 <= j < i ==> frames@[j] == old(frames)@[j],
            forall|j: int|
                i <= j < n ==> (#[trigger] frames@[j])@ == semantics::exhaust(
                    before,
                    cost as int,
                )[j],
        decreases i,
    {
        i = i - 1;
        proof {
            assert(frames@[i as int]@ == before[i as int]);
        }
        if !affords(&frames[i], cost) {
            frames[i].process.header.status = Stati::OOM.word();
            out = i;
        }
        proof {
            assert(frames@[i as int]@ == semantics::exhaust(before, cost as int)[i as int]);
        }
    }
    proof {
        assert(chain_view(frames@) =~= semantics::exhaust(before, cost as int));
        lemma_exhaust_linked(before, cost as int);
    }
    out
}

/// Takes the price of a step of the given cost from every frame.
fn charge(frames: &mut Vec<Frame>, cost: u64)
    requires
        forall|i: int|
            0 <= i < old(frames).len() ==> semantics::affords(
                #[trigger] chain_view(old(frames)@)[i],
                cost as int,
            ),
    ensures
        chain_view(final(frames)@) == semantics::charge(chain_view(old(frames)@), cost as int),
{
    let n: usize = frames.len();
    let ghost before = chain_view(frames@);
    let mut i: usize = 0;
    while i < n
        invariant
            i <= n,
            frames.len() == n,
            old(frames)@.len() == n,
            before == chain_view(old(frames)@),
            forall|j: int| 0 <= j < n ==> semantics::affords(#[trigger] before[j], cost as int),
            forall|j: int| i <= j < n ==> frames@[j] == old(frames)@[j],
            forall|j: int|
                0 <= j < i ==> (#[trigger] frames@[j])@ == semantics::charged(
                    before[j],
                    cost as int,
                ),
        decreases n - i,
    {
        proof {
            assert(semantics::affords(before[i as int], cost as int));
            assert(frames@[i as int]@ == before[i as int]);
        }
        let weighted: u64 = frames[i].size * cost;
        frames[i].process.header.gas = frames[i].process.header.gas - 1;
        frames[i].process.header.mem = frames[i].process.header.mem - weighted;
        proof {
            assert(frames@[i as int]@ == semantics::charged(before[i as int], cost as int));
        }
        i = i + 1;
    }
    proof {
        assert(chain_view(frames@) =~= semantics::charge(before, cost as int));
    }
}

/// Replaces an area of a process.
fn store_area(p: &mut Process, area: u64, words: Vec<u64>)
    requires
        area < old(p)@.memory.len(),
    ensures
        final(p)@ == old(p)@.with_memory(old(p)@.memory.update(area as int, words@)),
{
    assert(p.memory.len() <= usize::MAX);
    let a: usize = area as usize;
    p.memory[a] = words;
    proof {
        assert(p@.memory =~= old(p)@.memory.update(area as int, words@));
    }
}

/// Writes back the frames beyond the first `keep`, innermost first.
fn unwind(frames: &mut Vec<Frame>, keep: usize)
    requires
        linked(chain_view(old(frames)@)),
        keep >= 1,
    ensures
        chain_view(final(frames)@) == semantics::unwind(chain_view(old(frames)@), keep as int),
{
    while frames.len() > keep
        invariant
            keep >= 1,
            linked(chain_view(frames@)),
            semantics::unwind(chain_view(frames@), keep as int) == semantics::unwind(
                chain_view(old(frames)@),
                keep as int,
            ),
        decreases frames.len(),
    {
        let ghost before = chain_view(frames@);
        let child = frames.pop().unwrap();
        let serialized = s(&child.process);
        let last: usize = frames.len() - 1;
        proof {
            assert(before[last + 1] == child@);
            assert(before[last as int] == frames@[last as int]@);
            assert(child.edge < before[last as int].process.memory.len());
        }
        let ghost rest = frames@;
        store_area(&mut frames[last].process, child.edge, serialized);
        proof {
            let after = chain_view(frames@);
            let want = semantics::write_back(before);
            assert(frames@.len() == rest.len());
            assert(after[last as int] == want[last as int]);
            assert forall|j: int| 0 <= j < after.len() implies after[j] == want[j] by {
                if j < last {
                    assert(frames@[j] == rest[j]);
                    assert(after[j] == before[j]);
                }
            }
            assert(after =~= want);
            lemma_unwind(before, keep as int);
            assert(linked(after)) by {
                assert forall|j: int| 1 <= j < after.len() implies (#[trigger] after[j]).edge
                    < after[j - 1].process.memory.len() by {
                    assert(before[j].edge < before[j - 1].process.memory.len());
                }
            }
        }
    }
}

/// Marks frame `k` with a status.
fn mark(frames: &mut Vec<Frame>, k: usize, status: Stati)
    requires
        k < old(frames).len(),
        linked(chain_view(old(frames)@)),
    ensures
        chain_view(final(frames)@) == chain_view(old(frames)@).update(
            k as int,
            semantics::holding(
                chain_view(old(frames)@)[k as int],
                chain_view(old(frames)@)[k as int].process.with_status(status),
            ),
        ),
        linked(chain_view(final(frames)@)),
{
    let ghost before = chain_view(frames@);
    frames[k].process.header.status = status.word();
    proof {
        assert(chain_view(frames@) =~= before.update(
            k as int,
            semantics::holding(before[k as int], before[k as int].process.with_status(status)),
        ));
        lemma_marked_linked(before, k as int, status);
    }
}

/// Lets the innermost frame execute `op` and every frame pay for it.
fn perform(frames: &mut Vec<Frame>, op: IS)
    requires
        linked(chain_view(old(frames)@)),
        chain_view(old(frames)@).last().process.header.status == Stati::NOR.spec_word(),
        semantics::fetch(chain_view(old(frames)@).last().process) == Ok::<IS, Stati>(op),
        semantics::first_exhausted(chain_view(old(frames)@), op.gas_cost(), 0) == old(
            frames,
        ).len(),
    ensures
        chain_view(final(frames)@) == semantics::perform(chain_view(old(frames)@), op),
        linked(chain_view(final(frames)@)),
{
    let ghost before = chain_view(frames@);
    let k: usize = frames.len() - 1;
    let cost = requirement(op).gas_cost as u64;
    proof {
        lemma_first_exhausted(before, cost as int, 0);
        assert(frames@[k as int]@ == before[k as int]);
    }
    let child = match op {
        IS::RUN => call(&mut frames[k].process),
        _ => {
            apply(&mut frames[k].process, op);
            None
        },
    };
    proof {
        let top = before[k as int];
        let ran = before.update(k as int, semantics::holding(top, frames@[k as int]@.process));
        assert(chain_view(frames@) =~= ran);
        assert forall|i: int| 0 <= i < ran.len() implies semantics::affords(
            #[trigger] ran[i],
            cost as int,
        ) by {
            assert(semantics::affords(before[i], cost as int));
        }
    }
    charge(frames, cost);
    match child {
        Some(frame) => {
            let ghost paid = chain_view(frames@);
            frames.push(frame);
            proof {
                assert(chain_view(frames@) =~= paid.push(frame@));
            }
        },
        None => {},
    }
    proof {
        assert(chain_view(frames@) == semantics::perform(before, op));
        lemma_perform(before, op);
    }
}

/// The call chain of a run in progress. It always has a root, and every
/// other frame names an area of its parent.
pub struct Machine {
    frames: Vec<Frame>,
}

/// How a step ended: with the final state of the root, or with the machine
/// to go on with.
pub enum Step {
    Done(Process),
    More(Machine),
}

impl Step {
    /// The step's end as a mathematical value.
    pub open spec fn outcome(self) -> Outcome {
        match self {
            Step::Done(p) => Outcome::Done(p@),
            Step::More(m) => Outcome::More(m@),
        }
    }
}

/// Ends a step in which frame `k` stopped.
fn settle(frames: Vec<Frame>, k: usize) -> (r: Step)
    requires
        linked(chain_view(frames@)),
        k < frames.len(),
    ensures
        r.outcome() == semantics::settle(chain_view(frames@), k as int),
{
    let mut frames = frames;
    let ghost before = chain_view(frames@);
    if k == 0 {
        unwind(&mut frames, 1);
        proof {
            lemma_unwind(before, 1);
        }
        let root = frames.pop().unwrap();
        Step::Done(root.process)
    } else {
        unwind(&mut frames, k);
        proof {
            lemma_unwind(before, k as int);
        }
        Step::More(Machine { frames })
    }
}

impl Machine {
    #[verifier::type_invariant]
    spec fn inv(self) -> bool {
        linked(chain_view(self.frames@))
    }

    /// The chain, root first.
    pub closed spec fn view(&self) -> Seq<FrameView> {
        chain_view(self.frames@)
    }

    /// A machine about to run `sharp` with the given budgets.
    pub fn new(sharp: Process, gas: u64, mem: u64) -> (m: Machine)
        ensures
            m@ == boot(sharp@, gas, mem),
            linked(m@),
    {
        let size = s(&sharp).len() as u64;
        let mut process = sharp;
        process.header.status = Stati::NOR.word();
        process.header.gas = gas;
        process.header.mem = mem;
        let mut frames: Vec<Frame> = Vec::new();
        frames.push(Frame { process, edge: 0, size });
        proof {
            assert(chain_view(frames@) =~= boot(sharp@, gas, mem));
        }
        Machine { frames }
    }

    /// The number of frames in the chain.
    pub fn depth(&self) -> (n: usize)
        ensures
            n == self@.len(),
            linked(self@),
    {
        proof {
            use_type_invariant(self);
        }
        self.frames.len()
    }

    /// The innermost frame's process: the one that the next step works on.
    pub fn top(&self) -> (p: &Process)
        ensures
            p@ == self@.last().process,
    {
        proof {
            use_type_invariant(self);
        }
        &self.frames[self.frames.len() - 1].process
    }

    /// Makes one step.
    pub fn step(self) -> (r: Step)
        ensures
            r.outcome() == semantics::step(self@),
    {
        proof {
            use_type_invariant(&self);
        }
        let mut frames = self.frames;
        let ghost before = chain_view(frames@);
        let k: usize = frames.len() - 1;
        if frames[k].process.header.status != Stati::NOR.word() {
            return settle(frames, k);
        }
        match fetch(&frames[k].process) {
            Err(status) => {
                mark(&mut frames, k, status);
                settle(frames, k)
            },
            Ok(op) => {
                let cost = requirement(op).gas_cost as u64;
                let out = exhaust(&mut frames, cost);
                proof {
                    lemma_first_exhausted(before, cost as int, 0);
                }
                if out <= k {
                    return settle(frames, out);
                }
                perform(&mut frames, op);
                Step::More(Machine { frames })
            },
        }
    }
}

/// Runs a process with the given budgets until its run is over, and returns
/// the state it ended in.
pub fn run(sharp: Process, gas: u64, mem: u64) -> (r: Process)
    ensures
        r@ == run_spec(sharp@, gas, mem),
        r@.header.status != Stati::NOR.spec_word(),
        r@.header.gas <= gas,
        r@.header.mem <= mem,
        r@.code == sharp@.code,
        r@.map == sharp@.map,
{
    let mut machine = Machine::new(sharp, gas, mem);
    loop
        invariant
            drive(machine@) == run_spec(sharp@, gas, mem),
        decreases machine@[0].process.header.gas, machine@.len(),
    {
        proof {
            use_type_invariant(&machine);
            if semantics::step(machine@) is More {
                lemma_step_progress(machine@);
            }
        }
        match machine.step() {
            Step::Done(p) => {
                proof {
                    lemma_run_ends(sharp@, gas, mem);
                }
                return p;
            },
            Step::More(next) => {
                machine = next;
            },
        }
    }
}

} // verus!
