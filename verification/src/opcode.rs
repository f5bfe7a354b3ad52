//! The instruction set of the filter machine.
//!
//! Each instruction is one opcode byte followed by its operands, stored
//! inline in the bytecode stream.

use vstd::prelude::*;

verus! {

/// Bytecode opcodes for the filter machine.
#[derive(Debug, Clone, Copy, PartialEq, Eq, Structural)]
pub enum Opcode {
    /// Push `true`. Bytecode: `[0x01]`
    PushTrue,
    /// Push `false`. Bytecode: `[0x02]`
    PushFalse,
    /// Payload contains the string at index. Bytecode: `[0x10, idx_lo, idx_hi]`
    Contains,
    /// Payload starts with the string at index. Bytecode: `[0x11, idx_lo, idx_hi]`
    StartsWith,
    /// Payload ends with the string at index. Bytecode: `[0x12, idx_lo, idx_hi]`
    EndsWith,
    /// Payload equals the string at index. Bytecode: `[0x13, idx_lo, idx_hi]`
    Equals,
    /// Payload matches the regex at index. Bytecode: `[0x20, idx_lo, idx_hi]`
    Matches,
    /// Pop two booleans, push their conjunction. Bytecode: `[0x30]`
    And,
    /// Pop two booleans, push their disjunction. Bytecode: `[0x31]`
    Or,
    /// Pop one boolean, push its negation. Bytecode: `[0x32]`
    Not,
    /// Field contains string. Bytecode: `[0x40, part, str_lo, str_hi]`
    PartContains,
    /// Field starts with string. Bytecode: `[0x41, part, str_lo, str_hi]`
    PartStartsWith,
    /// Field ends with string. Bytecode: `[0x42, part, str_lo, str_hi]`
    PartEndsWith,
    /// Field equals string. Bytecode: `[0x43, part, str_lo, str_hi]`
    PartEquals,
    /// Field matches regex. Bytecode: `[0x44, part, re_lo, re_hi]`
    PartMatches,
    /// Field is empty. Bytecode: `[0x45, part]`
    PartIsEmpty,
    /// Field is not empty. Bytecode: `[0x46, part]`
    PartNotEmpty,
    /// Field equals one string of a set. Bytecode: `[0x47, part, set_lo, set_hi]`
    PartInSet,
    /// Field equals string, ignoring ASCII case. Bytecode: `[0x48, part, str_lo, str_hi]`
    PartIEquals,
    /// Field contains string, ignoring ASCII case. Bytecode: `[0x49, part, str_lo, str_hi]`
    PartIContains,
    /// Header value equals string. Bytecode: `[0x50, part, hdr_lo, hdr_hi, val_lo, val_hi]`
    HeaderEquals,
    /// Header value equals string, ignoring ASCII case. Bytecode: `[0x51, part, hdr_lo, hdr_hi, val_lo, val_hi]`
    HeaderIEquals,
    /// Header value contains string. Bytecode: `[0x52, part, hdr_lo, hdr_hi, val_lo, val_hi]`
    HeaderContains,
    /// Header is present. Bytecode: `[0x53, part, hdr_lo, hdr_hi]`
    HeaderExists,
    /// If the top of the stack is false, jump by the offset and keep it;
    /// otherwise pop it. Bytecode: `[0x70, off_lo, off_hi]`
    JumpIfFalse,
    /// If the top of the stack is true, jump by the offset and keep it;
    /// otherwise pop it. Bytecode: `[0x71, off_lo, off_hi]`
    JumpIfTrue,
    /// True once every N evaluations. Bytecode: `[0x60, n_lo, n_hi]`
    Rand,
    /// Return the top of the stack. Bytecode: `[0xFF]`
    Return,
}

impl Opcode {
    /// The byte that encodes this opcode.
    pub open spec fn byte(self) -> u8 {
        match self {
            Opcode::PushTrue => 0x01,
            Opcode::PushFalse => 0x02,
            Opcode::Contains => 0x10,
            Opcode::StartsWith => 0x11,
            Opcode::EndsWith => 0x12,
            Opcode::Equals => 0x13,
            Opcode::Matches => 0x20,
            Opcode::And => 0x30,
            Opcode::Or => 0x31,
            Opcode::Not => 0x32,
            Opcode::PartContains => 0x40,
            Opcode::PartStartsWith => 0x41,
            Opcode::PartEndsWith => 0x42,
            Opcode::PartEquals => 0x43,
            Opcode::PartMatches => 0x44,
            Opcode::PartIsEmpty => 0x45,
            Opcode::PartNotEmpty => 0x46,
            Opcode::PartInSet => 0x47,
            Opcode::PartIEquals => 0x48,
            Opcode::PartIContains => 0x49,
            Opcode::HeaderEquals => 0x50,
            Opcode::HeaderIEquals => 0x51,
            Opcode::HeaderContains => 0x52,
            Opcode::HeaderExists => 0x53,
            Opcode::Rand => 0x60,
            Opcode::JumpIfFalse => 0x70,
            Opcode::JumpIfTrue => 0x71,
            Opcode::Return => 0xFF,
        }
    }

    /// The opcode that a byte encodes, if any.
    pub open spec fn decode(b: u8) -> Option<Opcode> {
        if exists|op: Opcode| op.byte() == b {
            Some(choose|op: Opcode| op.byte() == b)
        } else {
            None
        }
    }

    /// Number of operand bytes that follow the opcode byte.
    pub open spec fn operand_len(self) -> nat {
        match self {
            Opcode::PushTrue | Opcode::PushFalse | Opcode::And | Opcode::Or | Opcode::Not
            | Opcode::Return => 0,
            Opcode::PartIsEmpty | Opcode::PartNotEmpty => 1,
            Opcode::Contains | Opcode::StartsWith | Opcode::EndsWith | Opcode::Equals
            | Opcode::Matches | Opcode::Rand | Opcode::JumpIfFalse | Opcode::JumpIfTrue => 2,
            Opcode::PartContains | Opcode::PartStartsWith | Opcode::PartEndsWith
            | Opcode::PartEquals | Opcode::PartMatches | Opcode::PartInSet | Opcode::PartIEquals
            | Opcode::PartIContains | Opcode::HeaderExists => 3,
            Opcode::HeaderEquals | Opcode::HeaderIEquals | Opcode::HeaderContains => 5,
        }
    }

    /// Decode an opcode from a byte.
    pub fn from_byte(byte: u8) -> (r: Option<Self>)
        ensures
            r == Self::decode(byte),
    {
        proof {
            lemma_byte_injective();
        }
        let r = match byte {
            0x01 => Some(Opcode::PushTrue),
            0x02 => Some(Opcode::PushFalse),
            0x10 => Some(Opcode::Contains),
            0x11 => Some(Opcode::StartsWith),
            0x12 => Some(Opcode::EndsWith),
            0x13 => Some(Opcode::Equals),
            0x20 => Some(Opcode::Matches),
            0x30 => Some(Opcode::And),
            0x31 => Some(Opcode::Or),
            0x32 => Some(Opcode::Not),
            0x40 => Some(Opcode::PartContains),
            0x41 => Some(Opcode::PartStartsWith),
            0x42 => Some(Opcode::PartEndsWith),
            0x43 => Some(Opcode::PartEquals),
            0x44 => Some(Opcode::PartMatches),
            0x45 => Some(Opcode::PartIsEmpty),
            0x46 => Some(Opcode::PartNotEmpty),
            0x47 => Some(Opcode::PartInSet),
            0x48 => Some(Opcode::PartIEquals),
            0x49 => Some(Opcode::PartIContains),
            0x50 => Some(Opcode::HeaderEquals),
            0x51 => Some(Opcode::HeaderIEquals),
            0x52 => Some(Opcode::HeaderContains),
            0x53 => Some(Opcode::HeaderExists),
            0x60 => Some(Opcode::Rand),
            0x70 => Some(Opcode::JumpIfFalse),
            0x71 => Some(Opcode::JumpIfTrue),
            0xFF => Some(Opcode::Return),
            _ => None,
        };
        proof {
            match r {
                Some(op) => {
                    assert(op.byte() == byte);
                },
                None => {
                    assert forall|op: Opcode| op.byte() != byte by {
                        match op {
                            _ => {},
                        }
                    }
                },
            }
        }
        r
    }

    /// The byte that encodes this opcode.
    pub fn to_byte(self) -> (b: u8)
        ensures
            b == self.byte(),
    {
        match self {
            Opcode::PushTrue => 0x01,
            Opcode::PushFalse => 0x02,
            Opcode::Contains => 0x10,
            Opcode::StartsWith => 0x11,
            Opcode::EndsWith => 0x12,
            Opcode::Equals => 0x13,
            Opcode::Matches => 0x20,
            Opcode::And => 0x30,
            Opcode::Or => 0x31,
            Opcode::Not => 0x32,
            Opcode::PartContains => 0x40,
            Opcode::PartStartsWith => 0x41,
            Opcode::PartEndsWith => 0x42,
            Opcode::PartEquals => 0x43,
            Opcode::PartMatches => 0x44,
            Opcode::PartIsEmpty => 0x45,
            Opcode::PartNotEmpty => 0x46,
            Opcode::PartInSet => 0x47,
            Opcode::PartIEquals => 0x48,
            Opcode::PartIContains => 0x49,
            Opcode::HeaderEquals => 0x50,
            Opcode::HeaderIEquals => 0x51,
            Opcode::HeaderContains => 0x52,
            Opcode::HeaderExists => 0x53,
            Opcode::Rand => 0x60,
            Opcode::JumpIfFalse => 0x70,
            Opcode::JumpIfTrue => 0x71,
            Opcode::Return => 0xFF,
        }
    }

    /// Size of this instruction in bytes: the opcode byte and its operands.
    pub fn instruction_size(&self) -> (n: usize)
        ensures
            n == 1 + self.operand_len(),
    {
        match self {
            Opcode::PushTrue | Opcode::PushFalse | Opcode::And | Opcode::Or | Opcode::Not
            | Opcode::Return => 1,
            Opcode::Contains | Opcode::StartsWith | Opcode::EndsWith | Opcode::Equals
            | Opcode::Matches | Opcode::Rand | Opcode::JumpIfFalse | Opcode::JumpIfTrue => 3,
            Opcode::PartIsEmpty | Opcode::PartNotEmpty => 2,
            Opcode::PartContains | Opcode::PartStartsWith | Opcode::PartEndsWith
            | Opcode::PartEquals | Opcode::PartMatches | Opcode::PartInSet | Opcode::PartIEquals
            | Opcode::PartIContains | Opcode::HeaderExists => 4,
            Opcode::HeaderEquals | Opcode::HeaderIEquals | Opcode::HeaderContains => 6,
        }
    }
}

/// Distinct opcodes are encoded by distinct bytes.
pub proof fn lemma_byte_injective()
    ensures
        forall|a: Opcode, b: Opcode| a.byte() == b.byte() ==> a == b,
{
    assert forall|a: Opcode, b: Opcode| a.byte() == b.byte() implies a == b by {
        match a {
            _ => match b {
                _ => {},
            },
        }
    }
}

/// Decoding the byte of an opcode gives that opcode back, and a byte that
/// decodes to an opcode is that opcode's byte.
pub proof fn lemma_decode_byte(op: Opcode, b: u8)
    ensures
        Opcode::decode(op.byte()) == Some(op),
        Opcode::decode(b) == Some(op) ==> op.byte() == b,
{
    lemma_byte_injective();
}

} // verus!
