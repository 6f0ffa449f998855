use sharp_vm::formats::Stati;
use sharp_vm::ops::{requirement, Requirement, IS, OPCODE_COUNT};

fn all() -> Vec<IS> {
    vec![
        IS::HALT,
        IS::RETURN,
        IS::YIELD,
        IS::RUN,
        IS::JUMP,
        IS::JZ,
        IS::PUSH,
        IS::POP,
        IS::DUP,
        IS::FLIP,
        IS::KEYSET,
        IS::KEYHAS,
        IS::KEYGET,
        IS::KEYDEL,
        IS::STACKLEN,
        IS::MEMORYLEN,
        IS::AREALEN,
        IS::READ,
        IS::WRITE,
        IS::AREA,
        IS::DEAREA,
        IS::ALLOC,
        IS::DEALLOC,
        IS::ADD,
        IS::SUB,
        IS::NOT,
        IS::MUL,
        IS::DIV,
        IS::MOD,
        IS::SHA256,
        IS::ECVERIFY,
        IS::ROT,
        IS::ROT2,
    ]
}

fn row(length: i32, stack_req: i32, addtl_mem: i32, gas_cost: i32) -> Requirement {
    Requirement { length, stack_req, addtl_mem, gas_cost }
}

#[test]
fn code_words_count_from_zero() {
    let ops = all();
    assert_eq!(ops.len() as u64, OPCODE_COUNT);
    for (i, op) in ops.iter().enumerate() {
        assert_eq!(op.word(), i as u64);
    }
}

#[test]
fn every_declared_word_decodes_to_its_instruction() {
    for op in all() {
        assert_eq!(IS::from_u64(op.word()), Some(op));
    }
    assert_eq!(IS::from_u64(6), Some(IS::PUSH));
    assert_eq!(IS::from_u64(32), Some(IS::ROT2));
}

#[test]
fn words_outside_the_set_do_not_decode() {
    assert_eq!(IS::from_u64(33), None);
    assert_eq!(IS::from_u64(34), None);
    assert_eq!(IS::from_u64(255), None);
    assert_eq!(IS::from_u64(256), None);
    assert_eq!(IS::from_u64(u64::MAX), None);
}

#[test]
fn cost_table_control() {
    assert_eq!(requirement(IS::HALT), row(1, 0, 0, 1));
    assert_eq!(requirement(IS::RETURN), row(1, 0, 0, 1));
    assert_eq!(requirement(IS::YIELD), row(1, 0, 0, 1));
    assert_eq!(requirement(IS::RUN), row(1, 3, -3, 0));
    assert_eq!(requirement(IS::JUMP), row(1, 1, -1, 1));
    assert_eq!(requirement(IS::JZ), row(1, 2, -2, 1));
}

#[test]
fn cost_table_stack() {
    assert_eq!(requirement(IS::PUSH), row(2, 0, 1, 2));
    assert_eq!(requirement(IS::POP), row(1, 0, -1, 2));
    assert_eq!(requirement(IS::DUP), row(1, 0, 1, 4));
    assert_eq!(requirement(IS::FLIP), row(1, 2, 0, 4));
    assert_eq!(requirement(IS::ROT), row(1, 3, 0, 10));
    assert_eq!(requirement(IS::ROT2), row(1, 3, 0, 10));
}

#[test]
fn cost_table_keys() {
    assert_eq!(requirement(IS::KEYSET), row(1, 2, -2, 10));
    assert_eq!(requirement(IS::KEYHAS), row(1, 1, 0, 4));
    assert_eq!(requirement(IS::KEYGET), row(1, 1, 0, 6));
    assert_eq!(requirement(IS::KEYDEL), row(1, 1, -1, 4));
}

#[test]
fn cost_table_memory() {
    assert_eq!(requirement(IS::STACKLEN), row(1, 0, 1, 2));
    assert_eq!(requirement(IS::MEMORYLEN), row(1, 0, 1, 2));
    assert_eq!(requirement(IS::AREALEN), row(1, 1, 0, 2));
    assert_eq!(requirement(IS::READ), row(1, 2, -1, 2));
    assert_eq!(requirement(IS::WRITE), row(1, 3, -3, 2));
    assert_eq!(requirement(IS::AREA), row(1, 0, 1, 10));
    assert_eq!(requirement(IS::DEAREA), row(1, 1, -1, 10));
    assert_eq!(requirement(IS::ALLOC), row(1, 2, -2, 10));
    assert_eq!(requirement(IS::DEALLOC), row(1, 2, -2, 10));
}

#[test]
fn cost_table_arithmetic() {
    assert_eq!(requirement(IS::ADD), row(1, 2, -1, 6));
    assert_eq!(requirement(IS::SUB), row(1, 2, -1, 6));
    assert_eq!(requirement(IS::NOT), row(1, 1, 0, 4));
    assert_eq!(requirement(IS::MUL), row(1, 2, -1, 8));
    assert_eq!(requirement(IS::DIV), row(1, 2, -1, 10));
    assert_eq!(requirement(IS::MOD), row(1, 2, -1, 10));
    assert_eq!(requirement(IS::SHA256), row(1, 1, 0, 100));
    assert_eq!(requirement(IS::ECVERIFY), row(1, 1, 0, 100));
}

#[test]
fn only_push_has_an_operand() {
    for op in all() {
        let expected = if op == IS::PUSH { 2 } else { 1 };
        assert_eq!(requirement(op).length, expected);
    }
}

#[test]
fn status_words_count_from_zero() {
    let all = [
        Stati::NOR,
        Stati::HLT,
        Stati::RET,
        Stati::YLD,
        Stati::OOC,
        Stati::OOA,
        Stati::OOS,
        Stati::OOM,
        Stati::UOC,
    ];
    for (i, st) in all.iter().enumerate() {
        assert_eq!(st.word(), i as u64);
        assert_eq!(Stati::from_u64(i as u64), Some(*st));
    }
    assert_eq!(Stati::from_u64(9), None);
    assert_eq!(Stati::from_u64(u64::MAX), None);
}
