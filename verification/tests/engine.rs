use sharp_vm::formats::{d, s, Header, Process, Stati};
use sharp_vm::ops::IS;
use sharp_vm::vm::{run, Machine, Step};

const GAS: u64 = 1_000_000;
const MEM: u64 = 1_000_000_000;

fn process(code: Vec<u64>, stack: Vec<u64>, memory: Vec<Vec<u64>>) -> Process {
    Process {
        header: Header { status: 0, rec: 0, gas: 0, mem: 0, ip: 0 },
        code,
        stack,
        map: Vec::new(),
        memory,
    }
}

fn words(ops: &[IS]) -> Vec<u64> {
    ops.iter().map(|op| op.word()).collect()
}

/// Runs one instruction followed by `HALT` on the given stack and memory.
fn one(op: IS, stack: Vec<u64>, memory: Vec<Vec<u64>>) -> Process {
    run(process(words(&[op, IS::HALT]), stack, memory), GAS, MEM)
}

#[test]
fn straight_line_program_halts_with_sum() {
    let p = process(
        vec![IS::PUSH.word(), 2, IS::PUSH.word(), 3, IS::ADD.word(), IS::HALT.word()],
        vec![],
        vec![],
    );
    let end = run(p, GAS, MEM);
    assert_eq!(end.header.status, Stati::HLT.word());
    assert_eq!(end.stack, vec![5]);
    assert_eq!(end.header.ip, 6);
}

#[test]
fn every_step_costs_one_gas_and_its_weighted_cost_in_memory() {
    let p = process(
        vec![IS::PUSH.word(), 2, IS::PUSH.word(), 3, IS::ADD.word(), IS::HALT.word()],
        vec![],
        vec![],
    );
    // the snapshot has 9 + 6 words; the costs are 2, 2, 6 and 1
    assert_eq!(s(&p).len(), 15);
    let end = run(p, GAS, MEM);
    assert_eq!(end.header.gas, GAS - 4);
    assert_eq!(end.header.mem, MEM - 15 * (2 + 2 + 6 + 1));
}

#[test]
fn run_overrides_status_and_budgets() {
    let mut p = process(words(&[IS::HALT]), vec![], vec![]);
    p.header.status = Stati::OOM.word();
    p.header.gas = 7;
    p.header.mem = 9;
    let end = run(p, 100, 200);
    assert_eq!(end.header.status, Stati::HLT.word());
    assert_eq!(end.header.gas, 99);
    assert_eq!(end.header.mem, 200 - 10);
}

#[test]
fn jump_beyond_code_runs_out_of_code() {
    let p = process(vec![IS::JUMP.word()], vec![99], vec![]);
    let end = run(p, GAS, MEM);
    assert_eq!(end.header.status, Stati::OOC.word());
    assert_eq!(end.header.ip, 99);
    assert_eq!(end.stack, Vec::<u64>::new());
    assert_eq!(end.header.gas, GAS - 1);
}

#[test]
fn empty_code_is_out_of_code_at_once() {
    let end = run(process(vec![], vec![4, 5], vec![vec![1]]), GAS, MEM);
    assert_eq!(end.header.status, Stati::OOC.word());
    assert_eq!(end.header.gas, GAS);
    assert_eq!(end.header.mem, MEM);
    assert_eq!(end.stack, vec![4, 5]);
    assert_eq!(end.memory, vec![vec![1]]);
}

#[test]
fn running_off_the_end_is_out_of_code() {
    let end = run(process(vec![IS::PUSH.word(), 1], vec![], vec![]), GAS, MEM);
    assert_eq!(end.header.status, Stati::OOC.word());
    assert_eq!(end.header.ip, 2);
    assert_eq!(end.stack, vec![1]);
    assert_eq!(end.header.gas, GAS - 1);
}

#[test]
fn too_shallow_a_stack_is_out_of_stack_and_nothing_else_changes() {
    for (op, depth) in [
        (IS::ADD, 1),
        (IS::SUB, 0),
        (IS::JUMP, 0),
        (IS::JZ, 1),
        (IS::NOT, 0),
        (IS::AREALEN, 0),
        (IS::READ, 1),
        (IS::WRITE, 2),
        (IS::ALLOC, 1),
        (IS::DEALLOC, 1),
        (IS::ROT2, 2),
        (IS::RUN, 2),
        (IS::FLIP, 1),
        (IS::ROT, 2),
        (IS::SHA256, 0),
    ] {
        let stack: Vec<u64> = (0..depth).collect();
        let memory = vec![vec![1, 2], vec![]];
        let mut before = process(words(&[op, IS::HALT]), stack, memory);
        let end = run(before.clone(), GAS, MEM);
        before.header.status = Stati::OOS.word();
        before.header.gas = GAS;
        before.header.mem = MEM;
        assert_eq!(end, before, "{:?}", op);
    }
}

#[test]
fn a_missing_operand_word_is_out_of_arguments() {
    let mut before = process(vec![IS::HALT.word(), IS::PUSH.word()], vec![3], vec![vec![1]]);
    before.header.ip = 1;
    let end = run(before.clone(), GAS, MEM);
    before.header.status = Stati::OOA.word();
    before.header.gas = GAS;
    before.header.mem = MEM;
    assert_eq!(end, before);
}

#[test]
fn a_word_outside_the_set_is_unknown_code_and_nothing_else_changes() {
    for word in [33, 34, 100, 256 + 6, u64::MAX] {
        let mut before = process(vec![word, IS::HALT.word()], vec![1, 2, 3], vec![vec![9]]);
        let end = run(before.clone(), GAS, MEM);
        before.header.status = Stati::UOC.word();
        before.header.gas = GAS;
        before.header.mem = MEM;
        assert_eq!(end, before, "{}", word);
    }
}

#[test]
fn reserved_instructions_end_with_unknown_code() {
    for op in [
        IS::FLIP,
        IS::KEYSET,
        IS::KEYHAS,
        IS::KEYGET,
        IS::KEYDEL,
        IS::STACKLEN,
        IS::DEAREA,
        IS::MUL,
        IS::DIV,
        IS::MOD,
        IS::SHA256,
        IS::ECVERIFY,
        IS::ROT,
    ] {
        let end = one(op, vec![1, 2, 3], vec![vec![9]]);
        assert_eq!(end.header.status, Stati::UOC.word(), "{:?}", op);
        assert_eq!(end.stack, vec![1, 2, 3], "{:?}", op);
        assert_eq!(end.memory, vec![vec![9]], "{:?}", op);
        assert_eq!(end.header.ip, 1, "{:?}", op);
        assert_eq!(end.header.gas, GAS - 1, "{:?}", op);
    }
}

#[test]
fn add_and_sub_wrap() {
    assert_eq!(one(IS::ADD, vec![u64::MAX, 1], vec![]).stack, vec![0]);
    assert_eq!(one(IS::ADD, vec![u64::MAX, u64::MAX], vec![]).stack, vec![u64::MAX - 1]);
    assert_eq!(one(IS::ADD, vec![7, 1 << 63, 1 << 63], vec![]).stack, vec![7, 0]);
    assert_eq!(one(IS::SUB, vec![0, 1], vec![]).stack, vec![u64::MAX]);
    assert_eq!(one(IS::SUB, vec![3, u64::MAX], vec![]).stack, vec![4]);
    assert_eq!(one(IS::ADD, vec![u64::MAX, 1], vec![]).header.status, Stati::HLT.word());
    assert_eq!(one(IS::SUB, vec![0, 1], vec![]).header.status, Stati::HLT.word());
}

#[test]
fn add_and_sub_take_the_top_as_second_operand() {
    assert_eq!(one(IS::ADD, vec![9, 20, 3], vec![]).stack, vec![9, 23]);
    assert_eq!(one(IS::SUB, vec![9, 20, 3], vec![]).stack, vec![9, 17]);
}

#[test]
fn not_tests_for_zero() {
    assert_eq!(one(IS::NOT, vec![5, 0], vec![]).stack, vec![5, 1]);
    assert_eq!(one(IS::NOT, vec![5, 1], vec![]).stack, vec![5, 0]);
    assert_eq!(one(IS::NOT, vec![u64::MAX], vec![]).stack, vec![0]);
}

#[test]
fn pop_and_dup_leave_an_empty_stack_alone() {
    assert_eq!(one(IS::POP, vec![1, 2], vec![]).stack, vec![1]);
    assert_eq!(one(IS::DUP, vec![1, 2], vec![]).stack, vec![1, 2, 2]);
    for op in [IS::POP, IS::DUP] {
        let end = one(op, vec![], vec![]);
        assert_eq!(end.stack, Vec::<u64>::new());
        assert_eq!(end.header.status, Stati::HLT.word());
        assert_eq!(end.header.gas, GAS - 2);
    }
}

#[test]
fn push_takes_the_next_code_word() {
    let end = run(process(vec![IS::PUSH.word(), 77, IS::HALT.word()], vec![1], vec![]), GAS, MEM);
    assert_eq!(end.stack, vec![1, 77]);
    assert_eq!(end.header.ip, 3);
    assert_eq!(end.header.status, Stati::HLT.word());
}

#[test]
fn rot2_brings_the_third_word_to_the_top() {
    // third, second, top = 1, 2, 3
    assert_eq!(one(IS::ROT2, vec![0, 1, 2, 3], vec![]).stack, vec![0, 2, 3, 1]);
}

#[test]
fn jump_goes_to_the_popped_target() {
    let code = vec![IS::JUMP.word(), IS::PUSH.word(), 1, IS::HALT.word()];
    let end = run(process(code, vec![3], vec![]), GAS, MEM);
    assert_eq!(end.header.status, Stati::HLT.word());
    assert_eq!(end.stack, Vec::<u64>::new());
    assert_eq!(end.header.ip, 4);
    assert_eq!(end.header.gas, GAS - 2);
}

#[test]
fn jz_jumps_on_zero_and_falls_through_otherwise() {
    let code = vec![IS::JZ.word(), IS::PUSH.word(), 1, IS::HALT.word()];
    // value 0 under target 3: jump over the push
    let end = run(process(code.clone(), vec![8, 0, 3], vec![]), GAS, MEM);
    assert_eq!(end.stack, vec![8]);
    assert_eq!(end.header.gas, GAS - 2);
    // value 5: fall through to the push
    let end = run(process(code, vec![8, 5, 3], vec![]), GAS, MEM);
    assert_eq!(end.stack, vec![8, 1]);
    assert_eq!(end.header.gas, GAS - 3);
}

#[test]
fn return_resets_the_instruction_pointer() {
    let code = vec![IS::PUSH.word(), 1, IS::RETURN.word(), IS::HALT.word()];
    let end = run(process(code, vec![], vec![]), GAS, MEM);
    assert_eq!(end.header.status, Stati::RET.word());
    assert_eq!(end.header.ip, 0);
    assert_eq!(end.stack, vec![1]);
}

#[test]
fn yield_suspends_past_the_instruction() {
    let code = words(&[IS::YIELD, IS::HALT]);
    let end = run(process(code, vec![1, 2], vec![]), GAS, MEM);
    assert_eq!(end.header.status, Stati::YLD.word());
    assert_eq!(end.header.ip, 1);
    assert_eq!(end.stack, vec![1, 2]);
    let end = run(end, GAS, MEM);
    assert_eq!(end.header.status, Stati::HLT.word());
    assert_eq!(end.header.ip, 2);
}

#[test]
fn memorylen_counts_the_areas() {
    assert_eq!(one(IS::MEMORYLEN, vec![], vec![]).stack, vec![0]);
    assert_eq!(one(IS::MEMORYLEN, vec![9], vec![vec![], vec![1, 2]]).stack, vec![9, 2]);
}

#[test]
fn arealen_replaces_the_area_by_its_length() {
    let memory = vec![vec![], vec![7, 8, 9]];
    assert_eq!(one(IS::AREALEN, vec![5, 1], memory.clone()).stack, vec![5, 3]);
    assert_eq!(one(IS::AREALEN, vec![5, 0], memory.clone()).stack, vec![5, 0]);
    // no such area: the stack stays
    let end = one(IS::AREALEN, vec![5, 2], memory);
    assert_eq!(end.stack, vec![5, 2]);
    assert_eq!(end.header.status, Stati::HLT.word());
}

#[test]
fn read_pushes_the_word_if_it_exists() {
    let memory = vec![vec![], vec![7, 8, 9]];
    // area under offset
    assert_eq!(one(IS::READ, vec![5, 1, 2], memory.clone()).stack, vec![5, 9]);
    assert_eq!(one(IS::READ, vec![5, 1, 0], memory.clone()).stack, vec![5, 7]);
    assert_eq!(one(IS::READ, vec![5, 1, 3], memory.clone()).stack, vec![5]);
    assert_eq!(one(IS::READ, vec![5, 0, 0], memory.clone()).stack, vec![5]);
    assert_eq!(one(IS::READ, vec![5, 2, 0], memory.clone()).stack, vec![5]);
    assert_eq!(one(IS::READ, vec![5, u64::MAX, u64::MAX], memory).stack, vec![5]);
}

#[test]
fn write_stores_the_word_if_its_place_exists() {
    let memory = vec![vec![], vec![7, 8, 9]];
    // area, offset, value
    let end = one(IS::WRITE, vec![5, 1, 2, 44], memory.clone());
    assert_eq!(end.stack, vec![5]);
    assert_eq!(end.memory, vec![vec![], vec![7, 8, 44]]);
    for (area, offset) in [(1, 3), (0, 0), (2, 0), (u64::MAX, 0)] {
        let end = one(IS::WRITE, vec![5, area, offset, 44], memory.clone());
        assert_eq!(end.stack, vec![5]);
        assert_eq!(end.memory, memory);
        assert_eq!(end.header.status, Stati::HLT.word());
    }
}

#[test]
fn area_appends_an_empty_area() {
    let end = one(IS::AREA, vec![3], vec![vec![1]]);
    assert_eq!(end.memory, vec![vec![1], vec![]]);
    assert_eq!(end.stack, vec![3]);
    assert_eq!(end.header.gas, GAS - 2);
    assert_eq!(end.header.mem, MEM - (9 + 2 + 1 + 2) * (10 + 1));
}

#[test]
fn alloc_appends_zero_words() {
    let memory = vec![vec![], vec![7]];
    // area under size
    let end = one(IS::ALLOC, vec![5, 1, 3], memory.clone());
    assert_eq!(end.stack, vec![5]);
    assert_eq!(end.memory, vec![vec![], vec![7, 0, 0, 0]]);
    assert_eq!(one(IS::ALLOC, vec![0, 0], memory.clone()).memory, memory);
    // no such area: only the operands go
    let end = one(IS::ALLOC, vec![5, 2, 3], memory.clone());
    assert_eq!(end.stack, vec![5]);
    assert_eq!(end.memory, memory);
    assert_eq!(end.header.status, Stati::HLT.word());
}

#[test]
fn dealloc_removes_words_from_the_end() {
    let memory = vec![vec![], vec![7, 8, 9]];
    let end = one(IS::DEALLOC, vec![5, 1, 2], memory.clone());
    assert_eq!(end.stack, vec![5]);
    assert_eq!(end.memory, vec![vec![], vec![7]]);
    assert_eq!(one(IS::DEALLOC, vec![1, 3], memory.clone()).memory, vec![vec![], vec![]]);
    assert_eq!(one(IS::DEALLOC, vec![1, 4], memory.clone()).memory, vec![vec![], vec![]]);
    assert_eq!(one(IS::DEALLOC, vec![1, u64::MAX], memory.clone()).memory, vec![vec![], vec![]]);
    assert_eq!(one(IS::DEALLOC, vec![1, 0], memory.clone()).memory, memory);
    assert_eq!(one(IS::DEALLOC, vec![0, 1], memory.clone()).memory, memory);
    let end = one(IS::DEALLOC, vec![5, 2, 1], memory.clone());
    assert_eq!(end.stack, vec![5]);
    assert_eq!(end.memory, memory);
}

#[test]
fn no_gas_is_out_of_memory_before_the_first_step() {
    let mut before = process(words(&[IS::HALT]), vec![1], vec![]);
    let end = run(before.clone(), 0, MEM);
    before.header.status = Stati::OOM.word();
    before.header.mem = MEM;
    assert_eq!(end, before);
}

#[test]
fn gas_runs_out_after_as_many_steps() {
    // an endless loop: push 0, jump
    let code = vec![IS::PUSH.word(), 0, IS::JUMP.word()];
    let end = run(process(code, vec![], vec![]), 7, MEM);
    assert_eq!(end.header.status, Stati::OOM.word());
    assert_eq!(end.header.gas, 0);
    // four pushes and three jumps on a snapshot of 12 words
    assert_eq!(end.header.mem, MEM - 12 * (4 * 2 + 3 * 1));
    // stopped in front of the fourth jump
    assert_eq!(end.header.ip, 2);
    assert_eq!(end.stack, vec![0]);
}

#[test]
fn a_step_that_memory_does_not_cover_is_out_of_memory() {
    // the snapshot has 11 words and a push costs 2
    let p = process(vec![IS::PUSH.word(), 5], vec![], vec![]);
    let mut expected = p.clone();
    let end = run(p.clone(), GAS, 21);
    expected.header.status = Stati::OOM.word();
    expected.header.gas = GAS;
    expected.header.mem = 21;
    assert_eq!(end, expected);
    // one more word of budget covers it exactly
    let end = run(p, GAS, 22);
    assert_eq!(end.header.status, Stati::OOC.word());
    assert_eq!(end.header.mem, 0);
    assert_eq!(end.stack, vec![5]);
}

#[test]
fn memory_runs_out_in_the_middle() {
    let code = vec![IS::PUSH.word(), 2, IS::PUSH.word(), 3, IS::ADD.word(), IS::HALT.word()];
    // 15 words: the pushes take 60, the add would take 90
    let end = run(process(code, vec![], vec![]), GAS, 149);
    assert_eq!(end.header.status, Stati::OOM.word());
    assert_eq!(end.header.mem, 89);
    assert_eq!(end.header.gas, GAS - 2);
    assert_eq!(end.header.ip, 4);
    assert_eq!(end.stack, vec![2, 3]);
}

#[test]
fn huge_budgets_do_not_overflow() {
    let end = run(process(words(&[IS::HALT]), vec![], vec![]), u64::MAX, u64::MAX);
    assert_eq!(end.header.status, Stati::HLT.word());
    assert_eq!(end.header.gas, u64::MAX - 1);
    assert_eq!(end.header.mem, u64::MAX - 10);
}

fn caller(area: u64, gas: u64, mem: u64, memory: Vec<Vec<u64>>) -> Process {
    process(
        vec![
            IS::PUSH.word(),
            mem,
            IS::PUSH.word(),
            gas,
            IS::PUSH.word(),
            area,
            IS::RUN.word(),
            IS::PUSH.word(),
            area,
            IS::PUSH.word(),
            0,
            IS::READ.word(),
            IS::HALT.word(),
        ],
        vec![],
        memory,
    )
}

#[test]
fn nested_call_leaves_the_callee_snapshot_in_its_area() {
    let child = process(vec![IS::HALT.word()], vec![], vec![]);
    let image = s(&child);
    assert_eq!(image.len(), 10);
    let parent = caller(1, 100, 500, vec![vec![], image.clone()]);
    assert_eq!(s(&parent).len(), 9 + 13 + 1 + 11);
    let end = run(parent, GAS, MEM);
    assert_eq!(end.header.status, Stati::HLT.word());
    assert_eq!(end.header.rec, 0);
    // the read after the call sees the callee's status
    assert_eq!(end.stack, vec![Stati::HLT.word()]);
    assert_ne!(end.memory[1], image);
    let after = d(&end.memory[1]).expect("the area holds a snapshot");
    assert_eq!(after.header.status, Stati::HLT.word());
    assert_eq!(after.header.gas, 99);
    assert_eq!(after.header.mem, 500 - 10);
    assert_eq!(after.header.ip, 1);
    assert_eq!(after.code, vec![IS::HALT.word()]);
    // three pushes, the call, the callee's halt, the call again, two
    // pushes, the read and the halt
    assert_eq!(end.header.gas, GAS - 10);
    assert_eq!(end.header.mem, MEM - 34 * (3 * 2 + 0 + 1 + 0 + 2 * 2 + 2 + 1));
    assert_eq!(end.header.ip, 13);
}

#[test]
fn a_callee_starts_running_with_the_forwarded_budgets() {
    let mut child = process(vec![IS::PUSH.word(), 9, IS::HALT.word()], vec![], vec![]);
    child.header.status = Stati::UOC.word();
    child.header.gas = 1;
    child.header.mem = 1;
    let parent = caller(0, 50, 1000, vec![s(&child)]);
    let end = run(parent, GAS, MEM);
    let after = d(&end.memory[0]).unwrap();
    assert_eq!(after.header.status, Stati::HLT.word());
    assert_eq!(after.stack, vec![9]);
    assert_eq!(after.header.gas, 48);
    assert_eq!(after.header.mem, 1000 - 12 * 3);
    assert_eq!(end.stack, vec![Stati::HLT.word()]);
}

#[test]
fn a_callee_that_fails_is_seen_by_its_status_only() {
    // the callee jumps out of its code
    let child = process(vec![IS::JUMP.word()], vec![40], vec![]);
    let parent = caller(0, 50, 1000, vec![s(&child)]);
    let end = run(parent, GAS, MEM);
    assert_eq!(end.header.status, Stati::HLT.word());
    assert_eq!(end.stack, vec![Stati::OOC.word()]);
    assert_eq!(d(&end.memory[0]).unwrap().header.ip, 40);
}

#[test]
fn a_callee_out_of_its_own_gas_is_out_of_memory() {
    let child = process(vec![IS::PUSH.word(), 0, IS::JUMP.word()], vec![], vec![]);
    let parent = caller(0, 5, 100_000, vec![s(&child)]);
    let end = run(parent, GAS, MEM);
    assert_eq!(end.header.status, Stati::HLT.word());
    assert_eq!(end.stack, vec![Stati::OOM.word()]);
    let after = d(&end.memory[0]).unwrap();
    assert_eq!(after.header.status, Stati::OOM.word());
    assert_eq!(after.header.gas, 0);
    // three pushes, the call, five steps of the callee, the call again, two
    // pushes, the read, the halt
    assert_eq!(end.header.gas, GAS - 14);
}

#[test]
fn a_caller_out_of_gas_stops_the_callee_and_can_resume_it() {
    // the callee counts down from 3
    let child = process(
        vec![
            IS::PUSH.word(),
            1,
            IS::SUB.word(),
            IS::DUP.word(),
            IS::PUSH.word(),
            9,
            IS::JZ.word(),
            IS::PUSH.word(),
            0,
            IS::JUMP.word(),
        ],
        vec![3],
        vec![],
    );
    // at zero it jumps to the jump at 9, starts over with an empty stack
    // and fails on the subtraction
    let parent = caller(0, 1000, 100_000, vec![s(&child)]);
    // enough for three pushes, the call and two steps of the callee
    let paused = run(parent.clone(), 6, MEM);
    assert_eq!(paused.header.status, Stati::OOM.word());
    assert_eq!(paused.header.gas, 0);
    assert_eq!(paused.header.rec, 1);
    assert_eq!(paused.header.ip, 6);
    assert_eq!(paused.stack, vec![100_000, 1000, 0]);
    let frozen = d(&paused.memory[0]).unwrap();
    assert_eq!(frozen.header.status, Stati::NOR.word());
    assert_eq!(frozen.header.gas, 998);
    assert_eq!(frozen.header.ip, 3);
    assert_eq!(frozen.stack, vec![2]);

    let end = run(paused, GAS, MEM);
    assert_eq!(end.header.status, Stati::HLT.word());
    assert_eq!(end.header.rec, 0);
    let after = d(&end.memory[0]).unwrap();
    assert_eq!(after.header.status, Stati::OOS.word());
    assert_eq!(after.header.ip, 2);
    assert_eq!(after.stack, vec![1]);
    assert_eq!(end.stack, vec![Stati::OOS.word()]);

    // in one go the callee ends in the same state but for its budgets
    let whole = run(parent, GAS, MEM);
    let direct = d(&whole.memory[0]).unwrap();
    assert_eq!(direct.header.status, after.header.status);
    assert_eq!(direct.header.ip, after.header.ip);
    assert_eq!(direct.header.gas, after.header.gas);
    assert_eq!(direct.stack, after.stack);
}

#[test]
fn a_call_into_no_area_only_takes_its_operands() {
    let parent = process(words(&[IS::RUN, IS::HALT]), vec![7, 500, 100, 3], vec![vec![], vec![]]);
    let end = run(parent, GAS, MEM);
    assert_eq!(end.header.status, Stati::HLT.word());
    assert_eq!(end.header.rec, 0);
    assert_eq!(end.stack, vec![7]);
    assert_eq!(end.memory, vec![vec![], vec![]]);
    assert_eq!(end.header.gas, GAS - 2);
    // the call itself costs no memory
    assert_eq!(end.header.mem, MEM - 17);
}

#[test]
fn a_call_into_what_is_no_snapshot_only_takes_its_operands() {
    let memory = vec![vec![1, 2, 3, 4, 5], vec![0; 10], vec![]];
    for area in [0, 1, 2] {
        let parent = process(words(&[IS::RUN, IS::HALT]), vec![7, 500, 100, area], memory.clone());
        let end = run(parent, GAS, MEM);
        assert_eq!(end.header.status, Stati::HLT.word());
        assert_eq!(end.header.rec, 0);
        assert_eq!(end.stack, vec![7]);
        assert_eq!(end.memory, memory);
    }
}

#[test]
fn calls_nest() {
    let inner = process(vec![IS::PUSH.word(), 5, IS::HALT.word()], vec![], vec![]);
    let middle = caller(0, 100, 10_000, vec![s(&inner)]);
    let outer = caller(0, 1000, 1_000_000, vec![s(&middle)]);
    let end = run(outer, GAS, MEM);
    assert_eq!(end.header.status, Stati::HLT.word());
    assert_eq!(end.stack, vec![Stati::HLT.word()]);
    let middle = d(&end.memory[0]).unwrap();
    assert_eq!(middle.header.status, Stati::HLT.word());
    assert_eq!(middle.stack, vec![Stati::HLT.word()]);
    let inner = d(&middle.memory[0]).unwrap();
    assert_eq!(inner.header.status, Stati::HLT.word());
    assert_eq!(inner.stack, vec![5]);
    assert_eq!(inner.header.gas, 98);
    // a caller makes nine steps of its own and pays for those of its callee
    assert_eq!(middle.header.gas, 1000 - 9 - 2);
    assert_eq!(end.header.gas, GAS - 9 - 11);
}

#[test]
fn stepping_by_hand_matches_run() {
    let child = process(vec![IS::HALT.word()], vec![], vec![]);
    let p = caller(0, 100, 500, vec![s(&child)]);
    let mut machine = Machine::new(p.clone(), GAS, MEM);
    assert_eq!(machine.depth(), 1);
    assert_eq!(machine.top().header.status, Stati::NOR.word());
    let mut steps = 0;
    let mut deepest = 0;
    let end = loop {
        deepest = deepest.max(machine.depth());
        match machine.step() {
            Step::Done(end) => break end,
            Step::More(next) => machine = next,
        }
        steps += 1;
    };
    // ten executed steps and the step that writes the callee back
    assert_eq!(steps, 11);
    assert_eq!(deepest, 2);
    assert_eq!(end, run(p, GAS, MEM));
}
