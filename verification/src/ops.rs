//! The instruction set and the static cost table.

use vstd::prelude::*;

verus! {

/// The instruction set. An instruction's code word is its position in this
/// list, counted from zero.
#[derive(Debug, Clone, Copy, PartialEq, Eq, Structural)]
pub enum IS {
    HALT,
    RETURN,
    YIELD,
    RUN,
    JUMP,
    JZ,
    PUSH,
    POP,
    DUP,
    FLIP,
    KEYSET,
    KEYHAS,
    KEYGET,
    KEYDEL,
    STACKLEN,
    MEMORYLEN,
    AREALEN,
    READ,
    WRITE,
    AREA,
    DEAREA,
    ALLOC,
    DEALLOC,
    ADD,
    SUB,
    NOT,
    MUL,
    DIV,
    MOD,
    SHA256,
    ECVERIFY,
    ROT,
    ROT2,
}

/// The number of declared instructions; every code word below it names one.
pub const OPCODE_COUNT: u64 = 33;

/// What an instruction statically needs: the words it occupies in the code
/// (itself included), the stack depth it wants before it runs, the intended
/// net effect on the stack (informational), and its cost per step.
#[derive(Debug, Clone, Copy, PartialEq, Eq, Structural)]
pub struct Requirement {
    pub length: i32,
    pub stack_req: i32,
    pub addtl_mem: i32,
    pub gas_cost: i32,
}

impl IS {
    /// The code word of an instruction.
    pub open spec fn spec_word(self) -> u64 {
        match self {
            IS::HALT => 0,
            IS::RETURN => 1,
            IS::YIELD => 2,
            IS::RUN => 3,
            IS::JUMP => 4,
            IS::JZ => 5,
            IS::PUSH => 6,
            IS::POP => 7,
            IS::DUP => 8,
            IS::FLIP => 9,
            IS::KEYSET => 10,
            IS::KEYHAS => 11,
            IS::KEYGET => 12,
            IS::KEYDEL => 13,
            IS::STACKLEN => 14,
            IS::MEMORYLEN => 15,
            IS::AREALEN => 16,
            IS::READ => 17,
            IS::WRITE => 18,
            IS::AREA => 19,
            IS::DEAREA => 20,
            IS::ALLOC => 21,
            IS::DEALLOC => 22,
            IS::ADD => 23,
            IS::SUB => 24,
            IS::NOT => 25,
            IS::MUL => 26,
            IS::DIV => 27,
            IS::MOD => 28,
            IS::SHA256 => 29,
            IS::ECVERIFY => 30,
            IS::ROT => 31,
            IS::ROT2 => 32,
        }
    }

    /// The instruction that a code word names, if it names one: the inverse
    /// of `spec_word`.
    pub open spec fn decode(word: u64) -> Option<IS> {
        if exists|op: IS| op.spec_word() == word {
            Some(choose|op: IS| op.spec_word() == word)
        } else {
            None
        }
    }

    /// How many code words the instruction occupies.
    pub open spec fn length(self) -> int {
        if self == IS::PUSH {
            2
        } else {
            1
        }
    }

    /// The stack depth the instruction wants before it runs.
    pub open spec fn stack_req(self) -> int {
        match self {
            IS::RUN | IS::WRITE | IS::ROT | IS::ROT2 => 3,
            IS::JZ | IS::FLIP | IS::KEYSET | IS::READ | IS::ALLOC | IS::DEALLOC | IS::ADD
            | IS::SUB | IS::MUL | IS::DIV | IS::MOD => 2,
            IS::JUMP | IS::KEYHAS | IS::KEYGET | IS::KEYDEL | IS::AREALEN | IS::DEAREA | IS::NOT
            | IS::SHA256 | IS::ECVERIFY => 1,
            _ => 0,
        }
    }

    /// The instruction's cost per step.
    pub open spec fn gas_cost(self) -> int {
        match self {
            IS::RUN => 0,
            IS::HALT | IS::RETURN | IS::YIELD | IS::JUMP | IS::JZ => 1,
            IS::PUSH | IS::POP | IS::STACKLEN | IS::MEMORYLEN | IS::AREALEN | IS::READ
            | IS::WRITE => 2,
            IS::DUP | IS::FLIP | IS::KEYHAS | IS::KEYDEL | IS::NOT => 4,
            IS::KEYGET | IS::ADD | IS::SUB => 6,
            IS::MUL => 8,
            IS::SHA256 | IS::ECVERIFY => 100,
            _ => 10,
        }
    }

    /// The intended net change of the stack depth. Nothing is enforced from
    /// it: instructions that leave the stack alone when an operand is out of
    /// bounds do not meet it.
    pub open spec fn addtl_mem(self) -> int {
        match self {
            IS::RUN | IS::WRITE => -3,
            IS::JZ | IS::KEYSET | IS::ALLOC | IS::DEALLOC => -2,
            IS::JUMP | IS::POP | IS::KEYDEL | IS::READ | IS::DEAREA | IS::ADD | IS::SUB
            | IS::MUL | IS::DIV | IS::MOD => -1,
            IS::PUSH | IS::DUP | IS::STACKLEN | IS::MEMORYLEN | IS::AREA => 1,
            _ => 0,
        }
    }

    /// Whether the engine has an execution body for the instruction. The
    /// others are reserved: they are costed, and executing one ends the frame
    /// with the unknown-code status.
    pub open spec fn implemented(self) -> bool {
        match self {
            IS::FLIP | IS::KEYSET | IS::KEYHAS | IS::KEYGET | IS::KEYDEL | IS::STACKLEN
            | IS::DEAREA | IS::MUL | IS::DIV | IS::MOD | IS::SHA256 | IS::ECVERIFY
            | IS::ROT => false,
            _ => true,
        }
    }

    /// The code word of an instruction.
    #[verifier::when_used_as_spec(spec_word)]
    pub fn word(self) -> (w: u64)
        ensures
            w == self.spec_word(),
            w < OPCODE_COUNT,
    {
        match self {
            IS::HALT => 0,
            IS::RETURN => 1,
            IS::YIELD => 2,
            IS::RUN => 3,
            IS::JUMP => 4,
            IS::JZ => 5,
            IS::PUSH => 6,
            IS::POP => 7,
            IS::DUP => 8,
            IS::FLIP => 9,
            IS::KEYSET => 10,
            IS::KEYHAS => 11,
            IS::KEYGET => 12,
            IS::KEYDEL => 13,
            IS::STACKLEN => 14,
            IS::MEMORYLEN => 15,
            IS::AREALEN => 16,
            IS::READ => 17,
            IS::WRITE => 18,
            IS::AREA => 19,
            IS::DEAREA => 20,
            IS::ALLOC => 21,
            IS::DEALLOC => 22,
            IS::ADD => 23,
            IS::SUB => 24,
            IS::NOT => 25,
            IS::MUL => 26,
            IS::DIV => 27,
            IS::MOD => 28,
            IS::SHA256 => 29,
            IS::ECVERIFY => 30,
            IS::ROT => 31,
            IS::ROT2 => 32,
        }
    }

    /// Decodes a code word: the instruction whose word it is, and `None` for
    /// every word outside the declared set.
    pub fn from_u64(word: u64) -> (r: Option<IS>)
        ensures
            r == IS::decode(word),
            match r {
                Some(op) => op.spec_word() == word,
                None => word >= OPCODE_COUNT,
            },
    {
        let r = match word {
            0 => Some(IS::HALT),
            1 => Some(IS::RETURN),
            2 => Some(IS::YIELD),
            3 => Some(IS::RUN),
            4 => Some(IS::JUMP),
            5 => Some(IS::JZ),
            6 => Some(IS::PUSH),
            7 => Some(IS::POP),
            8 => Some(IS::DUP),
            9 => Some(IS::FLIP),
            10 => Some(IS::KEYSET),
            11 => Some(IS::KEYHAS),
            12 => Some(IS::KEYGET),
            13 => Some(IS::KEYDEL),
            14 => Some(IS::STACKLEN),
            15 => Some(IS::MEMORYLEN),
            16 => Some(IS::AREALEN),
            17 => Some(IS::READ),
            18 => Some(IS::WRITE),
            19 => Some(IS::AREA),
            20 => Some(IS::DEAREA),
            21 => Some(IS::ALLOC),
            22 => Some(IS::DEALLOC),
            23 => Some(IS::ADD),
            24 => Some(IS::SUB),
            25 => Some(IS::NOT),
            26 => Some(IS::MUL),
            27 => Some(IS::DIV),
            28 => Some(IS::MOD),
            29 => Some(IS::SHA256),
            30 => Some(IS::ECVERIFY),
            31 => Some(IS::ROT),
            32 => Some(IS::ROT2),
            _ => None,
        };
        proof {
            lemma_decode(word);
        }
        r
    }
}

/// Code words and instructions correspond one to one: a word below
/// `OPCODE_COUNT` decodes to the one instruction that has it, and no other
/// word decodes.
pub proof fn lemma_decode(word: u64)
    ensures
        word >= OPCODE_COUNT <==> IS::decode(word) is None,
        forall|op: IS| op.spec_word() == word <==> IS::decode(word) == Some(op),
{
    assert(forall|op: IS| #[trigger] op.spec_word() < OPCODE_COUNT);
    if word < OPCODE_COUNT {
        let op = witness(word);
        assert(op.spec_word() == word);
    }
    assert forall|a: IS, b: IS| a.spec_word() == b.spec_word() implies a == b by {}
}

/// An instruction with the given code word, for a word below `OPCODE_COUNT`.
spec fn witness(word: u64) -> IS {
    if word == 0 {
        IS::HALT
    } else if word == 1 {
        IS::RETURN
    } else if word == 2 {
        IS::YIELD
    } else if word == 3 {
        IS::RUN
    } else if word == 4 {
        IS::JUMP
    } else if word == 5 {
        IS::JZ
    } else if word == 6 {
        IS::PUSH
    } else if word == 7 {
        IS::POP
    } else if word == 8 {
        IS::DUP
    } else if word == 9 {
        IS::FLIP
    } else if word == 10 {
        IS::KEYSET
    } else if word == 11 {
        IS::KEYHAS
    } else if word == 12 {
        IS::KEYGET
    } else if word == 13 {
        IS::KEYDEL
    } else if word == 14 {
        IS::STACKLEN
    } else if word == 15 {
        IS::MEMORYLEN
    } else if word == 16 {
        IS::AREALEN
    } else if word == 17 {
        IS::READ
    } else if word == 18 {
        IS::WRITE
    } else if word == 19 {
        IS::AREA
    } else if word == 20 {
        IS::DEAREA
    } else if word == 21 {
        IS::ALLOC
    } else if word == 22 {
        IS::DEALLOC
    } else if word == 23 {
        IS::ADD
    } else if word == 24 {
        IS::SUB
    } else if word == 25 {
        IS::NOT
    } else if word == 26 {
        IS::MUL
    } else if word == 27 {
        IS::DIV
    } else if word == 28 {
        IS::MOD
    } else if word == 29 {
        IS::SHA256
    } else if word == 30 {
        IS::ECVERIFY
    } else if word == 31 {
        IS::ROT
    } else {
        IS::ROT2
    }
}

/// The cost table as one value per instruction.
pub open spec fn requirement_spec(is: IS) -> Requirement {
    Requirement {
        length: is.length() as i32,
        stack_req: is.stack_req() as i32,
        addtl_mem: is.addtl_mem() as i32,
        gas_cost: is.gas_cost() as i32,
    }
}

/// Looks an instruction up in the cost table.
pub fn requirement(is: IS) -> (r: Requirement)
    ensures
        r == requirement_spec(is),
        r.length == is.length(),
        r.stack_req == is.stack_req(),
        r.addtl_mem == is.addtl_mem(),
        r.gas_cost == is.gas_cost(),
{
    match is {
        IS::HALT => Requirement { length: 1, stack_req: 0, addtl_mem: 0, gas_cost: 1 },
        IS::RETURN => Requirement { length: 1, stack_req: 0, addtl_mem: 0, gas_cost: 1 },
        IS::YIELD => Requirement { length: 1, stack_req: 0, addtl_mem: 0, gas_cost: 1 },
        IS::RUN => Requirement { length: 1, stack_req: 3, addtl_mem: -3, gas_cost: 0 },
        IS::JUMP => Requirement { length: 1, stack_req: 1, addtl_mem: -1, gas_cost: 1 },
        IS::JZ => Requirement { length: 1, stack_req: 2, addtl_mem: -2, gas_cost: 1 },
        IS::PUSH => Requirement { length: 2, stack_req: 0, addtl_mem: 1, gas_cost: 2 },
        IS::POP => Requirement { length: 1, stack_req: 0, addtl_mem: -1, gas_cost: 2 },
        IS::DUP => Requirement { length: 1, stack_req: 0, addtl_mem: 1, gas_cost: 4 },
        IS::FLIP => Requirement { length: 1, stack_req: 2, addtl_mem: 0, gas_cost: 4 },
        IS::KEYSET => Requirement { length: 1, stack_req: 2, addtl_mem: -2, gas_cost: 10 },
        IS::KEYHAS => Requirement { length: 1, stack_req: 1, addtl_mem: 0, gas_cost: 4 },
        IS::KEYGET => Requirement { length: 1, stack_req: 1, addtl_mem: 0, gas_cost: 6 },
        IS::KEYDEL => Requirement { length: 1, stack_req: 1, addtl_mem: -1, gas_cost: 4 },
        IS::STACKLEN => Requirement { length: 1, stack_req: 0, addtl_mem: 1, gas_cost: 2 },
        IS::MEMORYLEN => Requirement { length: 1, stack_req: 0, addtl_mem: 1, gas_cost: 2 },
        IS::AREALEN => Requirement { length: 1, stack_req: 1, addtl_mem: 0, gas_cost: 2 },
        IS::READ => Requirement { length: 1, stack_req: 2, addtl_mem: -1, gas_cost: 2 },
        IS::WRITE => Requirement { length: 1, stack_req: 3, addtl_mem: -3, gas_cost: 2 },
        IS::AREA => Requirement { length: 1, stack_req: 0, addtl_mem: 1, gas_cost: 10 },
        IS::DEAREA => Requirement { length: 1, stack_req: 1, addtl_mem: -1, gas_cost: 10 },
        IS::ALLOC => Requirement { length: 1, stack_req: 2, addtl_mem: -2, gas_cost: 10 },
        IS::DEALLOC => Requirement { length: 1, stack_req: 2, addtl_mem: -2, gas_cost: 10 },
        IS::ADD => Requirement { length: 1, stack_req: 2, addtl_mem: -1, gas_cost: 6 },
        IS::SUB => Requirement { length: 1, stack_req: 2, addtl_mem: -1, gas_cost: 6 },
        IS::NOT => Requirement { length: 1, stack_req: 1, addtl_mem: 0, gas_cost: 4 },
        IS::MUL => Requirement { length: 1, stack_req: 2, addtl_mem: -1, gas_cost: 8 },
        IS::DIV => Requirement { length: 1, stack_req: 2, addtl_mem: -1, gas_cost: 10 },
        IS::MOD => Requirement { length: 1, stack_req: 2, addtl_mem: -1, gas_cost: 10 },
        IS::SHA256 => Requirement { length: 1, stack_req: 1, addtl_mem: 0, gas_cost: 100 },
        IS::ECVERIFY => Requirement { length: 1, stack_req: 1, addtl_mem: 0, gas_cost: 100 },
        IS::ROT => Requirement { length: 1, stack_req: 3, addtl_mem: 0, gas_cost: 10 },
        IS::ROT2 => Requirement { length: 1, stack_req: 3, addtl_mem: 0, gas_cost: 10 },
    }
}

} // verus!
