//! What the engine does, as mathematics: one step of a chain of frames, and
//! a run as the repetition of steps.

use crate::formats::{decode, encode, Header, ProcessView, Stati};
use crate::ops::{lemma_decode, IS, OPCODE_COUNT};
use vstd::prelude::*;

verus! {

/// One frame of the call chain: a process, the area of its parent that it
/// was read from and is written back to, and the number of words that area
/// held when the frame was made, which weights the frame's memory charge.
pub struct FrameView {
    pub process: ProcessView,
    pub edge: u64,
    pub size: u64,
}

impl ProcessView {
    /// The process with another status.
    pub open spec fn with_status(self, status: Stati) -> ProcessView {
        ProcessView { header: Header { status: status.spec_word(), ..self.header }, ..self }
    }

    /// The process with another instruction pointer.
    pub open spec fn with_ip(self, ip: u64) -> ProcessView {
        ProcessView { header: Header { ip, ..self.header }, ..self }
    }

    /// The process with another call marker.
    pub open spec fn with_rec(self, rec: u64) -> ProcessView {
        ProcessView { header: Header { rec, ..self.header }, ..self }
    }

    /// The process with another stack.
    pub open spec fn with_stack(self, stack: Seq<u64>) -> ProcessView {
        ProcessView { stack, ..self }
    }

    /// The process with other areas.
    pub open spec fn with_memory(self, memory: Seq<Seq<u64>>) -> ProcessView {
        ProcessView { memory, ..self }
    }

    /// The process with the instruction pointer moved past `op`.
    pub open spec fn past(self, op: IS) -> ProcessView {
        self.with_ip((self.header.ip + op.length()) as u64)
    }

    /// The stack without its top `count` words.
    pub open spec fn below(self, count: int) -> Seq<u64> {
        self.stack.take(self.stack.len() - count)
    }

    /// The stack word `depth` places under the top; the top is at depth 0.
    pub open spec fn peek(self, depth: int) -> u64 {
        self.stack[self.stack.len() - 1 - depth]
    }

    /// Whether `area` names an area and `offset` a word in it.
    pub open spec fn in_bounds(self, area: u64, offset: u64) -> bool {
        area < self.memory.len() && offset < self.memory[area as int].len()
    }
}

/// The sum of two words, modulo 2^64.
pub open spec fn wrapping_sum(a: u64, b: u64) -> u64 {
    ((a + b) % 0x1_0000_0000_0000_0000) as u64
}

/// The difference of two words, modulo 2^64.
pub open spec fn wrapping_difference(a: u64, b: u64) -> u64 {
    ((a - b) % 0x1_0000_0000_0000_0000) as u64
}

/// `count` zero words.
pub open spec fn zeros(count: nat) -> Seq<u64> {
    Seq::new(count, |i: int| 0u64)
}

/// The instruction a running process is about to execute, or the status
/// that ends it: out of code where the instruction pointer is past the code,
/// unknown code where the word names no instruction, out of stack where the
/// instruction wants more stack than there is, out of arguments where the
/// code ends inside the instruction.
pub open spec fn fetch(p: ProcessView) -> Result<IS, Stati> {
    if p.header.ip >= p.code.len() {
        Err(Stati::OOC)
    } else {
        match IS::decode(p.code[p.header.ip as int]) {
            None => Err(Stati::UOC),
            Some(op) => if op.stack_req() > p.stack.len() {
                Err(Stati::OOS)
            } else if p.header.ip + op.length() > p.code.len() {
                Err(Stati::OOA)
            } else {
                Ok(op)
            },
        }
    }
}

/// What an instruction other than `RUN` makes of the process that fetched
/// it.
pub open spec fn apply(p: ProcessView, op: IS) -> ProcessView {
    match op {
        IS::HALT => p.with_status(Stati::HLT).past(op),
        IS::RETURN => p.with_status(Stati::RET).with_ip(0),
        IS::YIELD => p.with_status(Stati::YLD).past(op),
        IS::JUMP => p.with_stack(p.below(1)).with_ip(p.peek(0)),
        IS::JZ => if p.peek(1) == 0 {
            p.with_stack(p.below(2)).with_ip(p.peek(0))
        } else {
            p.with_stack(p.below(2)).past(op)
        },
        IS::PUSH => p.with_stack(p.stack.push(p.code[p.header.ip + 1])).past(op),
        IS::POP => if p.stack.len() > 0 {
            p.with_stack(p.below(1)).past(op)
        } else {
            p.past(op)
        },
        IS::DUP => if p.stack.len() > 0 {
            p.with_stack(p.stack.push(p.peek(0))).past(op)
        } else {
            p.past(op)
        },
        IS::ADD => p.with_stack(p.below(2).push(wrapping_sum(p.peek(1), p.peek(0)))).past(op),
        IS::SUB => p.with_stack(p.below(2).push(wrapping_difference(p.peek(1), p.peek(0)))).past(
            op,
        ),
        IS::NOT => p.with_stack(
            p.below(1).push(
                if p.peek(0) == 0 {
                    1u64
                } else {
                    0u64
                },
            ),
        ).past(op),
        IS::MEMORYLEN => p.with_stack(p.stack.push(p.memory.len() as u64)).past(op),
        IS::AREALEN => if p.peek(0) < p.memory.len() {
            p.with_stack(p.below(1).push(p.memory[p.peek(0) as int].len() as u64)).past(op)
        } else {
            p.past(op)
        },
        IS::READ => if p.in_bounds(p.peek(1), p.peek(0)) {
            p.with_stack(p.below(2).push(p.memory[p.peek(1) as int][p.peek(0) as int])).past(op)
        } else {
            p.with_stack(p.below(2)).past(op)
        },
        IS::WRITE => if p.in_bounds(p.peek(2), p.peek(1)) {
            p.with_stack(p.below(3)).with_memory(
                p.memory.update(
                    p.peek(2) as int,
                    p.memory[p.peek(2) as int].update(p.peek(1) as int, p.peek(0)),
                ),
            ).past(op)
        } else {
            p.with_stack(p.below(3)).past(op)
        },
        IS::AREA => p.with_memory(p.memory.push(Seq::empty())).past(op),
        IS::ALLOC => if p.peek(1) < p.memory.len() {
            p.with_stack(p.below(2)).with_memory(
                p.memory.update(
                    p.peek(1) as int,
                    p.memory[p.peek(1) as int] + zeros(p.peek(0) as nat),
                ),
            ).past(op)
        } else {
            p.with_stack(p.below(2)).past(op)
        },
        IS::DEALLOC => if p.peek(1) < p.memory.len() {
            let area = p.memory[p.peek(1) as int];
            let kept = if p.peek(0) >= area.len() {
                0
            } else {
                area.len() - p.peek(0)
            };
            p.with_stack(p.below(2)).with_memory(p.memory.update(p.peek(1) as int, area.take(kept))).past(
                op,
            )
        } else {
            p.with_stack(p.below(2)).past(op)
        },
        IS::ROT2 => p.with_stack(p.below(3).push(p.peek(1)).push(p.peek(0)).push(p.peek(2))).past(
            op,
        ),
        _ => p.with_status(Stati::UOC).past(op),
    }
}

/// Whether `RUN` can start or take up a call into `area`: the area exists
/// and holds the snapshot of a process.
pub open spec fn callable(p: ProcessView, area: u64) -> bool {
    area < p.memory.len() && decode(p.memory[area as int]) is Ok
}

/// A snapshot whose header asks for a fresh run with the given budgets.
pub open spec fn requested(image: Seq<u64>, gas: u64, mem: u64) -> Seq<u64> {
    image.update(0, Stati::NOR.spec_word()).update(2, gas).update(3, mem)
}

/// The caller after a call that is over or cannot be made: the marker is
/// cleared, the three operands are gone, the next instruction is next.
pub open spec fn resolved(p: ProcessView) -> ProcessView {
    p.with_rec(0).with_stack(p.below(3)).past(IS::RUN)
}

/// What `RUN` makes of the process that fetched it, and the frame that it
/// starts, if it starts one. The operands are, from the top: the area, the
/// gas and the memory budget of the callee. On the first visit the area's
/// header is set to ask for a fresh run with these budgets and the caller is
/// marked. While the area's status says running, the callee is read from the
/// area and the caller stays on the instruction; once it says anything else,
/// the call is resolved.
pub open spec fn call(p: ProcessView) -> (ProcessView, Option<FrameView>) {
    let area = p.peek(0);
    if !callable(p, area) {
        (resolved(p), None)
    } else {
        let image = if p.header.rec == 0 {
            requested(p.memory[area as int], p.peek(1), p.peek(2))
        } else {
            p.memory[area as int]
        };
        if image[0] == Stati::NOR.spec_word() {
            let rec = if p.header.rec == 0 {
                (area + 1) as u64
            } else {
                p.header.rec
            };
            (
                p.with_rec(rec).with_memory(p.memory.update(area as int, image)),
                Some(
                    FrameView {
                        process: decode(image)->Ok_0,
                        edge: area,
                        size: image.len() as u64,
                    },
                ),
            )
        } else {
            (resolved(p), None)
        }
    }
}

/// Whether a frame's budgets cover a step of the given cost: there is a
/// unit of gas to take, and the memory budget covers the cost and what will
/// be taken from it, the cost times the frame's size.
pub open spec fn affords(f: FrameView, cost: int) -> bool {
    &&& f.process.header.gas >= 1
    &&& cost <= f.process.header.mem
    &&& f.size * cost <= f.process.header.mem
}

/// The frame after paying for a step of the given cost.
pub open spec fn charged(f: FrameView, cost: int) -> FrameView {
    FrameView {
        process: ProcessView {
            header: Header {
                gas: (f.process.header.gas - 1) as u64,
                mem: (f.process.header.mem - f.size * cost) as u64,
                ..f.process.header
            },
            ..f.process
        },
        ..f
    }
}

/// Every frame of the chain after paying for a step of the given cost.
pub open spec fn charge(chain: Seq<FrameView>, cost: int) -> Seq<FrameView> {
    Seq::new(chain.len(), |i: int| charged(chain[i], cost))
}

/// The frame with another process in it.
pub open spec fn holding(f: FrameView, process: ProcessView) -> FrameView {
    FrameView { process, ..f }
}

/// The chain with every frame that cannot afford the step marked out of
/// memory.
pub open spec fn exhaust(chain: Seq<FrameView>, cost: int) -> Seq<FrameView> {
    Seq::new(
        chain.len(),
        |i: int|
            if affords(chain[i], cost) {
                chain[i]
            } else {
                holding(chain[i], chain[i].process.with_status(Stati::OOM))
            },
    )
}

/// The first frame at or after `from`, counted from the root, that cannot
/// afford the step; the length of the chain if all can.
pub open spec fn first_exhausted(chain: Seq<FrameView>, cost: int, from: int) -> int
    decreases chain.len() - from,
{
    if from >= chain.len() {
        chain.len() as int
    } else if !affords(chain[from], cost) {
        from
    } else {
        first_exhausted(chain, cost, from + 1)
    }
}

/// The chain without its innermost frame, whose snapshot has replaced the
/// area of its parent that it came from.
pub open spec fn write_back(chain: Seq<FrameView>) -> Seq<FrameView> {
    let child = chain.last();
    let rest = chain.drop_last();
    let parent = rest.last();
    rest.update(
        rest.len() - 1,
        holding(
            parent,
            parent.process.with_memory(
                parent.process.memory.update(child.edge as int, encode(child.process)),
            ),
        ),
    )
}

/// The chain after its frames beyond the first `keep` were written back,
/// innermost first. The root is never written back.
pub open spec fn unwind(chain: Seq<FrameView>, keep: int) -> Seq<FrameView>
    decreases chain.len(),
{
    if chain.len() <= keep || chain.len() <= 1 {
        chain
    } else {
        unwind(write_back(chain), keep)
    }
}

/// Whether the chain has a root and every other frame's edge names an area
/// of its parent.
pub open spec fn linked(chain: Seq<FrameView>) -> bool {
    &&& chain.len() >= 1
    &&& forall|i: int|
        1 <= i < chain.len() ==> (#[trigger] chain[i]).edge < chain[i - 1].process.memory.len()
}

/// How a step ends: with the final state of the root, or with the chain to
/// go on with.
pub enum Outcome {
    Done(ProcessView),
    More(Seq<FrameView>),
}

/// The end of a step in which frame `k` stopped: that frame and those above
/// it are written back, and the run goes on below them; if it is the root
/// that stopped, all others are written back and the run is over.
pub open spec fn settle(chain: Seq<FrameView>, k: int) -> Outcome {
    if k == 0 {
        Outcome::Done(unwind(chain, 1)[0].process)
    } else {
        Outcome::More(unwind(chain, k))
    }
}

/// The chain after its innermost frame executed `op` and every frame that
/// was active paid for it. A frame that `RUN` starts comes on top, unpaid.
pub open spec fn perform(chain: Seq<FrameView>, op: IS) -> Seq<FrameView> {
    let top = chain.last();
    let (process, child) = if op == IS::RUN {
        call(top.process)
    } else {
        (apply(top.process, op), None)
    };
    let paid = charge(chain.update(chain.len() - 1, holding(top, process)), op.gas_cost());
    match child {
        Some(frame) => paid.push(frame),
        None => paid,
    }
}

/// One step of the engine on a linked chain.
pub open spec fn step(chain: Seq<FrameView>) -> Outcome {
    let k = chain.len() - 1;
    let top = chain[k].process;
    if top.header.status != Stati::NOR.spec_word() {
        settle(chain, k)
    } else {
        match fetch(top) {
            Err(status) => settle(chain.update(k, holding(chain[k], top.with_status(status))), k),
            Ok(op) => {
                let out = first_exhausted(chain, op.gas_cost(), 0);
                if out < chain.len() {
                    settle(exhaust(chain, op.gas_cost()), out)
                } else {
                    Outcome::More(perform(chain, op))
                }
            },
        }
    }
}

/// The chain that a run starts from: the process alone, running, with the
/// given budgets, weighted by the length of its snapshot.
pub open spec fn boot(p: ProcessView, gas: u64, mem: u64) -> Seq<FrameView> {
    seq![
        FrameView {
            process: ProcessView {
                header: Header { status: Stati::NOR.spec_word(), gas, mem, ..p.header },
                ..p
            },
            edge: 0,
            size: encode(p).len() as u64,
        },
    ]
}

/// Unwinding keeps a linked chain linked, leaves the first `keep` frames in
/// place and touches no header among them.
pub proof fn lemma_unwind(chain: Seq<FrameView>, keep: int)
    requires
        linked(chain),
        keep >= 1,
    ensures
        linked(unwind(chain, keep)),
        unwind(chain, keep).len() == if chain.len() <= keep {
            chain.len() as int
        } else {
            keep
        },
        forall|i: int|
            0 <= i < unwind(chain, keep).len() ==> {
                &&& (#[trigger] unwind(chain, keep)[i]).process.header == chain[i].process.header
                &&& unwind(chain, keep)[i].process.code == chain[i].process.code
                &&& unwind(chain, keep)[i].process.stack == chain[i].process.stack
                &&& unwind(chain, keep)[i].process.map == chain[i].process.map
                &&& unwind(chain, keep)[i].process.memory.len() == chain[i].process.memory.len()
                &&& unwind(chain, keep)[i].edge == chain[i].edge
                &&& unwind(chain, keep)[i].size == chain[i].size
            },
    decreases chain.len(),
{
    if chain.len() > keep && chain.len() > 1 {
        let next = write_back(chain);
        assert(linked(next)) by {
            assert forall|i: int| 1 <= i < next.len() implies (#[trigger] next[i]).edge < next[i
                - 1].process.memory.len() by {
                assert(chain[i].edge < chain[i - 1].process.memory.len());
            }
        }
        lemma_unwind(next, keep);
    }
}

/// Marking a frame with a status keeps a chain linked.
pub proof fn lemma_marked_linked(chain: Seq<FrameView>, k: int, status: Stati)
    requires
        linked(chain),
        0 <= k < chain.len(),
    ensures
        linked(chain.update(k, holding(chain[k], chain[k].process.with_status(status)))),
{
    let marked = chain.update(k, holding(chain[k], chain[k].process.with_status(status)));
    assert forall|i: int| 1 <= i < marked.len() implies (#[trigger] marked[i]).edge < marked[i
        - 1].process.memory.len() by {
        assert(chain[i].edge < chain[i - 1].process.memory.len());
    }
}

/// Marking the frames that cannot afford a step keeps a chain linked, and
/// changes nothing where every frame can.
pub proof fn lemma_exhaust_linked(chain: Seq<FrameView>, cost: int)
    requires
        linked(chain),
    ensures
        linked(exhaust(chain, cost)),
        first_exhausted(chain, cost, 0) == chain.len() ==> exhaust(chain, cost) == chain,
{
    let marked = exhaust(chain, cost);
    assert forall|i: int| 1 <= i < marked.len() implies (#[trigger] marked[i]).edge < marked[i
        - 1].process.memory.len() by {
        assert(chain[i].edge < chain[i - 1].process.memory.len());
    }
    lemma_first_exhausted(chain, cost, 0);
    if first_exhausted(chain, cost, 0) == chain.len() {
        assert(marked =~= chain);
    }
}

/// A step that does not end the run leaves a linked chain, and either the
/// root has less gas than before, or it has as much and the chain is
/// shorter.
pub proof fn lemma_step_progress(chain: Seq<FrameView>)
    requires
        linked(chain),
        step(chain) is More,
    ensures
        linked(step(chain)->More_0),
        step(chain)->More_0[0].process.header.gas < chain[0].process.header.gas || (step(
            chain,
        )->More_0[0].process.header.gas == chain[0].process.header.gas && step(
            chain,
        )->More_0.len() < chain.len()),
{
    let k = chain.len() - 1;
    let top = chain[k].process;
    if top.header.status != Stati::NOR.spec_word() {
        lemma_unwind(chain, k);
    } else {
        match fetch(top) {
            Err(status) => {
                let marked = chain.update(k, holding(chain[k], top.with_status(status)));
                lemma_marked_linked(chain, k, status);
                lemma_unwind(marked, k);
            },
            Ok(op) => {
                let cost = op.gas_cost();
                let out = first_exhausted(chain, cost, 0);
                lemma_first_exhausted(chain, cost, 0);
                if out < chain.len() {
                    let marked = exhaust(chain, cost);
                    lemma_exhaust_linked(chain, cost);
                    lemma_unwind(marked, out);
                } else {
                    lemma_perform(chain, op);
                }
            },
        }
    }
}

/// Where the search for a frame that cannot afford the step ends: at the
/// first such frame, or at the end of the chain if every frame from `from`
/// on can.
pub proof fn lemma_first_exhausted(chain: Seq<FrameView>, cost: int, from: int)
    requires
        0 <= from <= chain.len(),
    ensures
        from <= first_exhausted(chain, cost, from) <= chain.len(),
        forall|i: int| from <= i < first_exhausted(chain, cost, from) ==> affords(chain[i], cost),
        first_exhausted(chain, cost, from) < chain.len() ==> !affords(
            chain[first_exhausted(chain, cost, from)],
            cost,
        ),
    decreases chain.len() - from,
{
    if from < chain.len() && affords(chain[from], cost) {
        lemma_first_exhausted(chain, cost, from + 1);
    }
}

/// Executing an instruction that every frame can afford leaves a linked
/// chain in which every frame that was active has one unit of gas less and
/// has paid the cost times its size in memory, and is otherwise as the
/// instruction left it.
pub proof fn lemma_perform(chain: Seq<FrameView>, op: IS)
    requires
        linked(chain),
        chain.last().process.header.status == Stati::NOR.spec_word(),
        fetch(chain.last().process) == Ok::<IS, Stati>(op),
        first_exhausted(chain, op.gas_cost(), 0) == chain.len(),
    ensures
        linked(perform(chain, op)),
        chain.len() <= perform(chain, op).len() <= chain.len() + 1,
        forall|i: int|
            0 <= i < chain.len() ==> {
                &&& (#[trigger] perform(chain, op)[i]).process.header.gas + 1
                    == chain[i].process.header.gas
                &&& perform(chain, op)[i].process.header.mem + chain[i].size * op.gas_cost()
                    == chain[i].process.header.mem
            },
{
    let k = chain.len() - 1;
    let top = chain.last();
    let cost = op.gas_cost();
    lemma_first_exhausted(chain, cost, 0);
    let (process, child) = if op == IS::RUN {
        call(top.process)
    } else {
        (apply(top.process, op), None)
    };
    let ran = chain.update(k, holding(top, process));
    let paid = charge(ran, cost);
    assert(process.header.gas == top.process.header.gas);
    assert(process.header.mem == top.process.header.mem);
    assert forall|i: int| 1 <= i < paid.len() implies (#[trigger] paid[i]).edge < paid[i
        - 1].process.memory.len() by {
        assert(chain[i].edge < chain[i - 1].process.memory.len());
    }
    assert forall|i: int| 0 <= i < chain.len() implies {
        &&& (#[trigger] perform(chain, op)[i]).process.header.gas + 1
            == chain[i].process.header.gas
        &&& perform(chain, op)[i].process.header.mem + chain[i].size * op.gas_cost()
            == chain[i].process.header.mem
    } by {
        assert(affords(chain[i], cost));
        assert(perform(chain, op)[i] == paid[i]);
    }
    match child {
        Some(frame) => {
            let next = paid.push(frame);
            assert forall|i: int| 1 <= i < next.len() implies (#[trigger] next[i]).edge < next[i
                - 1].process.memory.len() by {
                if i < paid.len() {
                    assert(next[i] == paid[i]);
                } else {
                    assert(next[i - 1] == paid[k]);
                }
            }
        },
        None => {},
    }
}

/// The final state of the root when the engine is stepped from `chain`
/// until the run is over.
pub open spec fn drive(chain: Seq<FrameView>) -> ProcessView
    decreases chain[0].process.header.gas, chain.len(),
    when linked(chain)
    via drive_decreases
{
    match step(chain) {
        Outcome::Done(p) => p,
        Outcome::More(next) => drive(next),
    }
}

#[via_fn]
proof fn drive_decreases(chain: Seq<FrameView>) {
    if step(chain) is More {
        lemma_step_progress(chain);
    }
}

/// The state in which a run of `p` with the given budgets ends.
pub open spec fn run_spec(p: ProcessView, gas: u64, mem: u64) -> ProcessView {
    drive(boot(p, gas, mem))
}

/// Whether the next step of the chain executes an instruction: the
/// innermost frame is running, fetches one, and every frame can afford it.
pub open spec fn executes(chain: Seq<FrameView>) -> bool {
    let top = chain.last().process;
    &&& top.header.status == Stati::NOR.spec_word()
    &&& fetch(top) is Ok
    &&& first_exhausted(chain, fetch(top)->Ok_0.gas_cost(), 0) == chain.len()
}

/// Gas only ever goes down, and by one per executed step: a step that
/// executes an instruction takes exactly one unit of gas from every frame
/// that was active, and a step that does not leaves the gas of every frame
/// that stays as it was.
pub proof fn lemma_gas_monotone(chain: Seq<FrameView>)
    requires
        linked(chain),
    ensures
        match step(chain) {
            Outcome::Done(p) => !executes(chain) && p.header.gas == chain[0].process.header.gas,
            Outcome::More(next) => if executes(chain) {
                &&& next.len() >= chain.len()
                &&& forall|i: int|
                    0 <= i < chain.len() ==> (#[trigger] next[i]).process.header.gas + 1
                        == chain[i].process.header.gas
            } else {
                &&& next.len() < chain.len()
                &&& forall|i: int|
                    0 <= i < next.len() ==> (#[trigger] next[i]).process.header.gas
                        == chain[i].process.header.gas
            },
        },
{
    let k = chain.len() - 1;
    let top = chain[k].process;
    if top.header.status != Stati::NOR.spec_word() {
        if k >= 1 {
            lemma_unwind(chain, k);
        }
        lemma_unwind(chain, 1);
    } else {
        match fetch(top) {
            Err(status) => {
                let marked = chain.update(k, holding(chain[k], top.with_status(status)));
                lemma_marked_linked(chain, k, status);
                if k >= 1 {
                    lemma_unwind(marked, k);
                }
                lemma_unwind(marked, 1);
            },
            Ok(op) => {
                let cost = op.gas_cost();
                let out = first_exhausted(chain, cost, 0);
                lemma_first_exhausted(chain, cost, 0);
                if out < chain.len() {
                    let marked = exhaust(chain, cost);
                    lemma_exhaust_linked(chain, cost);
                    if out >= 1 {
                        lemma_unwind(marked, out);
                    }
                    lemma_unwind(marked, 1);
                } else {
                    lemma_perform(chain, op);
                }
            },
        }
    }
}

/// A running frame that cannot fetch ends with the status that `fetch`
/// gives and is otherwise untouched: no word of its stack, memory or code
/// and no budget changes. It is then written back, or returned if it is the
/// root.
pub proof fn lemma_fault(chain: Seq<FrameView>, status: Stati)
    requires
        linked(chain),
        chain.last().process.header.status == Stati::NOR.spec_word(),
        fetch(chain.last().process) == Err::<IS, Stati>(status),
    ensures
        step(chain) == settle(
            chain.update(
                chain.len() - 1,
                holding(chain.last(), chain.last().process.with_status(status)),
            ),
            chain.len() - 1,
        ),
        chain.len() == 1 ==> step(chain) == Outcome::Done(
            chain[0].process.with_status(status),
        ),
{
    if chain.len() == 1 {
        let marked = chain.update(0, holding(chain[0], chain[0].process.with_status(status)));
        assert(unwind(marked, 1) == marked);
    }
}

/// An instruction that wants more stack than there is ends the frame out of
/// stack and changes nothing else.
pub proof fn lemma_out_of_stack(chain: Seq<FrameView>, op: IS)
    requires
        linked(chain),
        chain.last().process.header.status == Stati::NOR.spec_word(),
        chain.last().process.header.ip < chain.last().process.code.len(),
        chain.last().process.code[chain.last().process.header.ip as int] == op.spec_word(),
        op.stack_req() > chain.last().process.stack.len(),
    ensures
        fetch(chain.last().process) == Err::<IS, Stati>(Stati::OOS),
        step(chain) == settle(
            chain.update(
                chain.len() - 1,
                holding(chain.last(), chain.last().process.with_status(Stati::OOS)),
            ),
            chain.len() - 1,
        ),
        chain.len() == 1 ==> step(chain) == Outcome::Done(
            chain[0].process.with_status(Stati::OOS),
        ),
{
    lemma_decode(op.spec_word());
    lemma_fault(chain, Stati::OOS);
}

/// An instruction whose words reach past the end of the code ends the frame
/// out of arguments and changes nothing else.
pub proof fn lemma_out_of_arguments(chain: Seq<FrameView>, op: IS)
    requires
        linked(chain),
        chain.last().process.header.status == Stati::NOR.spec_word(),
        chain.last().process.header.ip < chain.last().process.code.len(),
        chain.last().process.code[chain.last().process.header.ip as int] == op.spec_word(),
        op.stack_req() <= chain.last().process.stack.len(),
        chain.last().process.header.ip + op.length() > chain.last().process.code.len(),
    ensures
        fetch(chain.last().process) == Err::<IS, Stati>(Stati::OOA),
        step(chain) == settle(
            chain.update(
                chain.len() - 1,
                holding(chain.last(), chain.last().process.with_status(Stati::OOA)),
            ),
            chain.len() - 1,
        ),
        chain.len() == 1 ==> step(chain) == Outcome::Done(
            chain[0].process.with_status(Stati::OOA),
        ),
{
    lemma_decode(op.spec_word());
    lemma_fault(chain, Stati::OOA);
}

/// A code word outside the declared set ends the frame with the unknown-code
/// status and changes nothing else: the stack, the memory and the budgets
/// stay as they were.
pub proof fn lemma_unknown_code(chain: Seq<FrameView>)
    requires
        linked(chain),
        chain.last().process.header.status == Stati::NOR.spec_word(),
        chain.last().process.header.ip < chain.last().process.code.len(),
        chain.last().process.code[chain.last().process.header.ip as int] >= OPCODE_COUNT,
    ensures
        fetch(chain.last().process) == Err::<IS, Stati>(Stati::UOC),
        step(chain) == settle(
            chain.update(
                chain.len() - 1,
                holding(chain.last(), chain.last().process.with_status(Stati::UOC)),
            ),
            chain.len() - 1,
        ),
        chain.len() == 1 ==> step(chain) == Outcome::Done(
            chain[0].process.with_status(Stati::UOC),
        ),
{
    lemma_decode(chain.last().process.code[chain.last().process.header.ip as int]);
    lemma_fault(chain, Stati::UOC);
}

/// A reserved instruction, one that is costed and has no execution body,
/// ends the frame with the unknown-code status when it is executed, and
/// leaves the stack and the memory as they were.
pub proof fn lemma_reserved(p: ProcessView, op: IS)
    requires
        !op.implemented(),
    ensures
        apply(p, op).header.status == Stati::UOC.spec_word(),
        apply(p, op).stack == p.stack,
        apply(p, op).memory == p.memory,
{
}

/// `ADD` and `SUB` never fail on large or small words: they replace the two
/// top words by their sum or difference modulo 2^64 and leave the status as
/// it is.
pub proof fn lemma_arithmetic_wraps(p: ProcessView, op: IS)
    requires
        fetch(p) == Ok::<IS, Stati>(op),
        op == IS::ADD || op == IS::SUB,
    ensures
        apply(p, op).header.status == p.header.status,
        apply(p, op).stack.len() == p.stack.len() - 1,
        apply(p, op).stack.drop_last() == p.below(2),
        op == IS::ADD ==> apply(p, op).stack.last() == if p.peek(1) + p.peek(0)
            < 0x1_0000_0000_0000_0000 {
            p.peek(1) + p.peek(0)
        } else {
            p.peek(1) + p.peek(0) - 0x1_0000_0000_0000_0000
        },
        op == IS::SUB ==> apply(p, op).stack.last() == if p.peek(1) >= p.peek(0) {
            p.peek(1) - p.peek(0)
        } else {
            p.peek(1) - p.peek(0) + 0x1_0000_0000_0000_0000
        },
{
    let word = p.code[p.header.ip as int];
    assert(IS::decode(word) == Some(op));
    assert(p.stack.len() >= 2);
    let after = apply(p, op).stack;
    assert(after.drop_last() =~= p.below(2));
}

/// No instruction touches the code or the map of the process that executes
/// it, and none gives it gas or memory budget.
pub proof fn lemma_execute_keeps(p: ProcessView, op: IS)
    ensures
        apply(p, op).code == p.code,
        apply(p, op).map == p.map,
        apply(p, op).header.gas == p.header.gas,
        apply(p, op).header.mem == p.header.mem,
        call(p).0.code == p.code,
        call(p).0.map == p.map,
        call(p).0.header.gas == p.header.gas,
        call(p).0.header.mem == p.header.mem,
{
}

/// What a step does to the root: it leaves its code and its map alone and
/// never raises a budget; and the root that a step returns is not running
/// any more.
pub proof fn lemma_step_root(chain: Seq<FrameView>)
    requires
        linked(chain),
    ensures
        match step(chain) {
            Outcome::Done(p) => {
                &&& p.header.status != Stati::NOR.spec_word()
                &&& p.code == chain[0].process.code
                &&& p.map == chain[0].process.map
                &&& p.header.gas == chain[0].process.header.gas
                &&& p.header.mem == chain[0].process.header.mem
            },
            Outcome::More(next) => {
                &&& next[0].process.code == chain[0].process.code
                &&& next[0].process.map == chain[0].process.map
                &&& next[0].process.header.gas <= chain[0].process.header.gas
                &&& next[0].process.header.mem <= chain[0].process.header.mem
            },
        },
{
    let k = chain.len() - 1;
    let top = chain[k].process;
    if top.header.status != Stati::NOR.spec_word() {
        if k >= 1 {
            lemma_unwind(chain, k);
        }
        lemma_unwind(chain, 1);
    } else {
        match fetch(top) {
            Err(status) => {
                let marked = chain.update(k, holding(chain[k], top.with_status(status)));
                lemma_marked_linked(chain, k, status);
                if k >= 1 {
                    lemma_unwind(marked, k);
                }
                lemma_unwind(marked, 1);
            },
            Ok(op) => {
                let cost = op.gas_cost();
                let out = first_exhausted(chain, cost, 0);
                lemma_first_exhausted(chain, cost, 0);
                if out < chain.len() {
                    let marked = exhaust(chain, cost);
                    lemma_exhaust_linked(chain, cost);
                    if out >= 1 {
                        lemma_unwind(marked, out);
                    }
                    lemma_unwind(marked, 1);
                } else {
                    lemma_perform(chain, op);
                    lemma_execute_keeps(top, op);
                    assert(affords(chain[0], cost));
                    assert(cost >= 0);
                    assert(chain[0].size * cost >= 0) by (nonlinear_arith)
                        requires
                            chain[0].size >= 0,
                            cost >= 0,
                    ;
                }
            },
        }
    }
}

/// How a drive ends: the root is not running any more, its code and its map
/// are those it started with, and neither budget is above where it started.
pub proof fn lemma_drive_ends(chain: Seq<FrameView>)
    requires
        linked(chain),
    ensures
        drive(chain).header.status != Stati::NOR.spec_word(),
        drive(chain).code == chain[0].process.code,
        drive(chain).map == chain[0].process.map,
        drive(chain).header.gas <= chain[0].process.header.gas,
        drive(chain).header.mem <= chain[0].process.header.mem,
    decreases chain[0].process.header.gas, chain.len(),
{
    lemma_step_root(chain);
    match step(chain) {
        Outcome::Done(p) => {},
        Outcome::More(next) => {
            lemma_step_progress(chain);
            lemma_drive_ends(next);
        },
    }
}

/// Every run ends: in a status other than running, with the code and the
/// map that the process came with, and within the budgets it was given.
pub proof fn lemma_run_ends(p: ProcessView, gas: u64, mem: u64)
    ensures
        run_spec(p, gas, mem).header.status != Stati::NOR.spec_word(),
        run_spec(p, gas, mem).code == p.code,
        run_spec(p, gas, mem).map == p.map,
        run_spec(p, gas, mem).header.gas <= gas,
        run_spec(p, gas, mem).header.mem <= mem,
{
    lemma_drive_ends(boot(p, gas, mem));
}

} // verus!
