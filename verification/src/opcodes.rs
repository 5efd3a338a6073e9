//! The instructions of the virtual machine and the operators of the pattern
//! language.

use vstd::prelude::*;

verus! {

/// An instruction of the virtual machine.
#[derive(Debug, Clone, Copy, PartialEq, Eq, Structural)]
pub enum CompiledOp {
    /// The pattern has matched.
    End,
    /// Beginning of a line.
    Bol,
    /// End of a line.
    Eol,
    /// A character class: complement flag, range count, ranges.
    CharSet,
    /// One given character.
    Exact,
    /// Any character but a newline.
    AnyChar,
    /// A group opens: register number follows.
    StartMemory,
    /// A group closes: register number follows.
    EndMemory,
    /// The text of an earlier group again: register number follows.
    MatchMemory,
    /// Jump: displacement follows.
    Jump,
    /// Jump at the end of a repetition: displacement follows.
    StarJump,
    /// Push a point to resume from: displacement follows.
    FailureJump,
    /// Refresh the topmost resume point, then jump.
    UpdateFailureJump,
    /// Step over the failure jump that follows.
    DummyFailureJump,
    /// Beginning of the text.
    BegBuf,
    /// End of the text.
    EndBuf,
    /// Beginning of a word.
    WordBeg,
    /// End of a word.
    WordEnd,
    /// A word boundary.
    WordBound,
    /// Anything but a word boundary.
    NotWordBound,
    /// A character of the given class: class code follows.
    SyntaxSpec,
    /// A character outside the given class: class code follows.
    NotSyntaxSpec,
}

impl CompiledOp {
    /// The instruction that a byte encodes, if any.
    pub open spec fn spec_from_byte(byte: u8) -> Option<CompiledOp> {
        match byte {
            0u8 => Some(CompiledOp::End),
            1u8 => Some(CompiledOp::Bol),
            2u8 => Some(CompiledOp::Eol),
            3u8 => Some(CompiledOp::CharSet),
            4u8 => Some(CompiledOp::Exact),
            5u8 => Some(CompiledOp::AnyChar),
            6u8 => Some(CompiledOp::StartMemory),
            7u8 => Some(CompiledOp::EndMemory),
            8u8 => Some(CompiledOp::MatchMemory),
            9u8 => Some(CompiledOp::Jump),
            10u8 => Some(CompiledOp::StarJump),
            11u8 => Some(CompiledOp::FailureJump),
            12u8 => Some(CompiledOp::UpdateFailureJump),
            13u8 => Some(CompiledOp::DummyFailureJump),
            14u8 => Some(CompiledOp::BegBuf),
            15u8 => Some(CompiledOp::EndBuf),
            16u8 => Some(CompiledOp::WordBeg),
            17u8 => Some(CompiledOp::WordEnd),
            18u8 => Some(CompiledOp::WordBound),
            19u8 => Some(CompiledOp::NotWordBound),
            20u8 => Some(CompiledOp::SyntaxSpec),
            21u8 => Some(CompiledOp::NotSyntaxSpec),
            _ => None,
        }
    }

    /// The byte that encodes the instruction.
    pub open spec fn spec_to_byte(self) -> u8 {
        match self {
            CompiledOp::End => 0u8,
            CompiledOp::Bol => 1u8,
            CompiledOp::Eol => 2u8,
            CompiledOp::CharSet => 3u8,
            CompiledOp::Exact => 4u8,
            CompiledOp::AnyChar => 5u8,
            CompiledOp::StartMemory => 6u8,
            CompiledOp::EndMemory => 7u8,
            CompiledOp::MatchMemory => 8u8,
            CompiledOp::Jump => 9u8,
            CompiledOp::StarJump => 10u8,
            CompiledOp::FailureJump => 11u8,
            CompiledOp::UpdateFailureJump => 12u8,
            CompiledOp::DummyFailureJump => 13u8,
            CompiledOp::BegBuf => 14u8,
            CompiledOp::EndBuf => 15u8,
            CompiledOp::WordBeg => 16u8,
            CompiledOp::WordEnd => 17u8,
            CompiledOp::WordBound => 18u8,
            CompiledOp::NotWordBound => 19u8,
            CompiledOp::SyntaxSpec => 20u8,
            CompiledOp::NotSyntaxSpec => 21u8,
        }
    }

    /// The number of operand bytes that follow the instruction; zero for
    /// `CharSet`, whose operands have no fixed length.
    pub open spec fn spec_arg_count(self) -> usize {
        match self {
            CompiledOp::Exact
            | CompiledOp::StartMemory
            | CompiledOp::EndMemory
            | CompiledOp::MatchMemory
            | CompiledOp::SyntaxSpec
            | CompiledOp::NotSyntaxSpec => 1usize,
            CompiledOp::Jump
            | CompiledOp::StarJump
            | CompiledOp::FailureJump
            | CompiledOp::UpdateFailureJump
            | CompiledOp::DummyFailureJump => 2usize,
            _ => 0usize,
        }
    }

    /// Decodes an instruction byte.
    #[verifier::when_used_as_spec(spec_from_byte)]
    pub fn from_byte(byte: u8) -> (op: Option<CompiledOp>)
        ensures
            op == Self::spec_from_byte(byte),
            op is Some <==> byte <= 21,
            op is Some ==> op->0.spec_to_byte() == byte,
    {
        match byte {
            0 => Some(CompiledOp::End),
            1 => Some(CompiledOp::Bol),
            2 => Some(CompiledOp::Eol),
            3 => Some(CompiledOp::CharSet),
            4 => Some(CompiledOp::Exact),
            5 => Some(CompiledOp::AnyChar),
            6 => Some(CompiledOp::StartMemory),
            7 => Some(CompiledOp::EndMemory),
            8 => Some(CompiledOp::MatchMemory),
            9 => Some(CompiledOp::Jump),
            10 => Some(CompiledOp::StarJump),
            11 => Some(CompiledOp::FailureJump),
            12 => Some(CompiledOp::UpdateFailureJump),
            13 => Some(CompiledOp::DummyFailureJump),
            14 => Some(CompiledOp::BegBuf),
            15 => Some(CompiledOp::EndBuf),
            16 => Some(CompiledOp::WordBeg),
            17 => Some(CompiledOp::WordEnd),
            18 => Some(CompiledOp::WordBound),
            19 => Some(CompiledOp::NotWordBound),
            20 => Some(CompiledOp::SyntaxSpec),
            21 => Some(CompiledOp::NotSyntaxSpec),
            _ => None,
        }
    }

    /// Encodes the instruction as a byte.
    #[verifier::when_used_as_spec(spec_to_byte)]
    pub fn to_byte(self) -> (byte: u8)
        ensures
            byte == self.spec_to_byte(),
            byte <= 21,
            Self::spec_from_byte(byte) == Some(self),
    {
        match self {
            CompiledOp::End => 0,
            CompiledOp::Bol => 1,
            CompiledOp::Eol => 2,
            CompiledOp::CharSet => 3,
            CompiledOp::Exact => 4,
            CompiledOp::AnyChar => 5,
            CompiledOp::StartMemory => 6,
            CompiledOp::EndMemory => 7,
            CompiledOp::MatchMemory => 8,
            CompiledOp::Jump => 9,
            CompiledOp::StarJump => 10,
            CompiledOp::FailureJump => 11,
            CompiledOp::UpdateFailureJump => 12,
            CompiledOp::DummyFailureJump => 13,
            CompiledOp::BegBuf => 14,
            CompiledOp::EndBuf => 15,
            CompiledOp::WordBeg => 16,
            CompiledOp::WordEnd => 17,
            CompiledOp::WordBound => 18,
            CompiledOp::NotWordBound => 19,
            CompiledOp::SyntaxSpec => 20,
            CompiledOp::NotSyntaxSpec => 21,
        }
    }

    /// The number of operand bytes of fixed-length instructions.
    #[verifier::when_used_as_spec(spec_arg_count)]
    pub fn arg_count(self) -> (count: usize)
        ensures
            count == self.spec_arg_count(),
    {
        match self {
            CompiledOp::End
            | CompiledOp::Bol
            | CompiledOp::Eol
            | CompiledOp::AnyChar
            | CompiledOp::BegBuf
            | CompiledOp::EndBuf
            | CompiledOp::WordBeg
            | CompiledOp::WordEnd
            | CompiledOp::WordBound
            | CompiledOp::NotWordBound => 0,
            CompiledOp::Exact
            | CompiledOp::StartMemory
            | CompiledOp::EndMemory
            | CompiledOp::MatchMemory
            | CompiledOp::SyntaxSpec
            | CompiledOp::NotSyntaxSpec => 1,
            CompiledOp::Jump
            | CompiledOp::StarJump
            | CompiledOp::FailureJump
            | CompiledOp::UpdateFailureJump
            | CompiledOp::DummyFailureJump => 2,
            CompiledOp::CharSet => 0,
        }
    }
}

/// An operator of the pattern language, as the compiler reads it.
#[derive(Debug, Clone, Copy, PartialEq, Eq, Structural)]
pub enum SyntaxOp {
    /// End of the pattern.
    End,
    /// An ordinary character.
    Normal,
    /// `.`.
    AnyChar,
    /// The backslash.
    Quote,
    /// `^`.
    Bol,
    /// `$`.
    Eol,
    /// `?`.
    Optional,
    /// `*`.
    Star,
    /// `+`.
    Plus,
    /// `|`.
    Or,
    /// An opening parenthesis.
    OpenPar,
    /// A closing parenthesis.
    ClosePar,
    /// A one-digit back-reference.
    Memory,
    /// A two-digit back-reference.
    ExtendedMemory,
    /// `[`.
    OpenSet,
    /// Beginning of the text.
    BegBuf,
    /// End of the text.
    EndBuf,
    /// `\w`.
    WordChar,
    /// `\W`.
    NotWordChar,
    /// `\<`.
    WordBeg,
    /// `\>`.
    WordEnd,
    /// `\b`.
    WordBound,
    /// `\B`.
    NotWordBound,
}

impl SyntaxOp {
    /// The operator's number, which indexes the precedence table.
    pub open spec fn spec_code(self) -> u8 {
        match self {
            SyntaxOp::End => 0u8,
            SyntaxOp::Normal => 1u8,
            SyntaxOp::AnyChar => 2u8,
            SyntaxOp::Quote => 3u8,
            SyntaxOp::Bol => 4u8,
            SyntaxOp::Eol => 5u8,
            SyntaxOp::Optional => 6u8,
            SyntaxOp::Star => 7u8,
            SyntaxOp::Plus => 8u8,
            SyntaxOp::Or => 9u8,
            SyntaxOp::OpenPar => 10u8,
            SyntaxOp::ClosePar => 11u8,
            SyntaxOp::Memory => 12u8,
            SyntaxOp::ExtendedMemory => 13u8,
            SyntaxOp::OpenSet => 14u8,
            SyntaxOp::BegBuf => 15u8,
            SyntaxOp::EndBuf => 16u8,
            SyntaxOp::WordChar => 17u8,
            SyntaxOp::NotWordChar => 18u8,
            SyntaxOp::WordBeg => 19u8,
            SyntaxOp::WordEnd => 20u8,
            SyntaxOp::WordBound => 21u8,
            SyntaxOp::NotWordBound => 22u8,
        }
    }

    /// The operator's number.
    #[verifier::when_used_as_spec(spec_code)]
    pub fn code(self) -> (code: u8)
        ensures
            code == self.spec_code(),
            code <= 22,
    {
        match self {
            SyntaxOp::End => 0,
            SyntaxOp::Normal => 1,
            SyntaxOp::AnyChar => 2,
            SyntaxOp::Quote => 3,
            SyntaxOp::Bol => 4,
            SyntaxOp::Eol => 5,
            SyntaxOp::Optional => 6,
            SyntaxOp::Star => 7,
            SyntaxOp::Plus => 8,
            SyntaxOp::Or => 9,
            SyntaxOp::OpenPar => 10,
            SyntaxOp::ClosePar => 11,
            SyntaxOp::Memory => 12,
            SyntaxOp::ExtendedMemory => 13,
            SyntaxOp::OpenSet => 14,
            SyntaxOp::BegBuf => 15,
            SyntaxOp::EndBuf => 16,
            SyntaxOp::WordChar => 17,
            SyntaxOp::NotWordChar => 18,
            SyntaxOp::WordBeg => 19,
            SyntaxOp::WordEnd => 20,
            SyntaxOp::WordBound => 21,
            SyntaxOp::NotWordBound => 22,
        }
    }
}

/// The class of a character in the syntax table.
#[derive(Debug, Clone, Copy, PartialEq, Eq, Structural)]
pub enum SyntaxType {
    /// No special meaning.
    Normal,
    /// A letter, a digit or an underscore.
    Word,
}

/// Decoding undoes encoding, and only the bytes up to 21 decode.
pub proof fn law_opcode_round_trip(op: CompiledOp, byte: u8)
    ensures
        CompiledOp::spec_from_byte(op.spec_to_byte()) == Some(op),
        CompiledOp::spec_from_byte(byte) is Some <==> byte <= 21,
        CompiledOp::spec_from_byte(byte) == Some(op) <==> op.spec_to_byte() == byte,
{
}

} // verus!
