//! What the compiler does with each character of a pattern: the lowering of
//! the pattern language to bytecode, stated on sequences and integers.

use crate::codepoint::char_operand;
use crate::opcodes::{CompiledOp, SyntaxOp};
use crate::semantics::translated;
use crate::syntax::SyntaxFlags;
use crate::RegexError;
use vstd::prelude::*;

verus! {

/// How many groups may be open at once, and how many alternations may wait
/// for their end.
pub const MAX_NESTING: usize = 100;

/// The number of precedence levels inside one group.
pub const NUM_LEVELS: usize = 5;

/// What one compilation works on. Nothing in it changes on the way.
pub struct Source {
    /// The pattern.
    pub pattern: Seq<char>,
    /// The dialect.
    pub syntax: SyntaxFlags,
    /// The translation applied to each character of the pattern, if any.
    pub translate: Option<Map<u32, char>>,
}

/// The state of the compiler between two operators.
pub struct Emitter {
    /// The index of the next character of the pattern.
    pub pos: int,
    /// The code emitted so far.
    pub buffer: Seq<u8>,
    /// For each open group and each precedence level in it, the offset at
    /// which the expression at that level began.
    pub starts: Seq<usize>,
    /// The index in `starts` of level 0 of the innermost open group.
    pub starts_base: int,
    /// The offsets of the displacements of the jumps that end alternatives
    /// and wait for the end of their alternation.
    pub future_jumps: Seq<usize>,
    /// How many of `future_jumps` are in use.
    pub num_jumps: int,
    /// The precedence level of the last operator.
    pub current_level: int,
    /// The register that the next group gets.
    pub next_register: int,
    /// The number of open groups.
    pub paren_depth: int,
    /// The number of open groups that have a register.
    pub num_open_registers: int,
    /// The registers of the open groups, the innermost last.
    pub open_registers: Seq<u8>,
    /// Does the next operator stand at the beginning of the pattern, of a
    /// group or of an alternative?
    pub beginning_context: bool,
}

/// The operator that an unquoted character stands for.
pub open spec fn plain_op(syntax: SyntaxFlags, key: u32) -> SyntaxOp {
    if key == '\\' as u32 {
        SyntaxOp::Quote
    } else if key == '(' as u32 && !syntax.needs_backslash_parens() {
        SyntaxOp::OpenPar
    } else if key == ')' as u32 && !syntax.needs_backslash_parens() {
        SyntaxOp::ClosePar
    } else if key == '|' as u32 && !syntax.needs_backslash_vbar() {
        SyntaxOp::Or
    } else if key == '*' as u32 {
        SyntaxOp::Star
    } else if key == '+' as u32 && !syntax.needs_backslash_plus_qm() {
        SyntaxOp::Plus
    } else if key == '?' as u32 && !syntax.needs_backslash_plus_qm() {
        SyntaxOp::Optional
    } else if key == '\n' as u32 && syntax.newline_or() {
        SyntaxOp::Or
    } else if key == '[' as u32 {
        SyntaxOp::OpenSet
    } else if key == '^' as u32 {
        SyntaxOp::Bol
    } else if key == '$' as u32 {
        SyntaxOp::Eol
    } else if key == '.' as u32 {
        SyntaxOp::AnyChar
    } else {
        SyntaxOp::Normal
    }
}

/// The operator that a character stands for behind a backslash.
pub open spec fn quoted_op(syntax: SyntaxFlags, key: u32) -> SyntaxOp {
    if '0' as u32 <= key && key <= '9' as u32 {
        SyntaxOp::Memory
    } else if key == '(' as u32 && syntax.needs_backslash_parens() {
        SyntaxOp::OpenPar
    } else if key == ')' as u32 && syntax.needs_backslash_parens() {
        SyntaxOp::ClosePar
    } else if key == '|' as u32 && syntax.needs_backslash_vbar() {
        SyntaxOp::Or
    } else if key == '+' as u32 && syntax.needs_backslash_plus_qm() {
        SyntaxOp::Plus
    } else if key == '?' as u32 && syntax.needs_backslash_plus_qm() {
        SyntaxOp::Optional
    } else if key == 'w' as u32 && !syntax.no_gnu_extensions() {
        SyntaxOp::WordChar
    } else if key == 'W' as u32 && !syntax.no_gnu_extensions() {
        SyntaxOp::NotWordChar
    } else if key == '<' as u32 && !syntax.no_gnu_extensions() {
        SyntaxOp::WordBeg
    } else if key == '>' as u32 && !syntax.no_gnu_extensions() {
        SyntaxOp::WordEnd
    } else if key == 'b' as u32 && !syntax.no_gnu_extensions() {
        SyntaxOp::WordBound
    } else if key == 'B' as u32 && !syntax.no_gnu_extensions() {
        SyntaxOp::NotWordBound
    } else if key == '`' as u32 && !syntax.no_gnu_extensions() {
        SyntaxOp::BegBuf
    } else if key == '\'' as u32 && !syntax.no_gnu_extensions() {
        SyntaxOp::EndBuf
    } else if key == 'v' as u32 && syntax.ansi_sequences() {
        SyntaxOp::ExtendedMemory
    } else {
        SyntaxOp::Normal
    }
}

/// How tightly an operator binds: 0 for the end of the pattern, 1 for a
/// closing parenthesis, 2 and 3 for `|` and the anchors in the order that
/// the dialect gives them, 4 for everything else.
pub open spec fn precedence(syntax: SyntaxFlags, op: SyntaxOp) -> u8 {
    match op {
        SyntaxOp::End => 0,
        SyntaxOp::ClosePar => 1,
        SyntaxOp::Or => if syntax.tight_vbar() {
            3
        } else {
            2
        },
        SyntaxOp::Bol | SyntaxOp::Eol => if syntax.tight_vbar() {
            2
        } else {
            3
        },
        _ => 4,
    }
}

/// The two bytes of the displacement that leads from behind the
/// displacement field at `field` to `target`: the difference, cut to 16
/// bits, the low byte first.
pub open spec fn disp_bytes(target: int, field: int) -> Seq<u8> {
    let word = (target - (field + 2)) % 65536;
    seq![(word % 256) as u8, (word / 256) as u8]
}

/// The value of a hexadecimal digit.
pub open spec fn hex_value(ch: char) -> Option<u8> {
    if '0' <= ch && ch <= '9' {
        Some((ch as u32 - '0' as u32) as u8)
    } else if 'a' <= ch && ch <= 'f' {
        Some((ch as u32 - 'a' as u32 + 10) as u8)
    } else if 'A' <= ch && ch <= 'F' {
        Some((ch as u32 - 'A' as u32 + 10) as u8)
    } else {
        None
    }
}

/// Is the character a decimal digit of ASCII?
pub open spec fn is_digit(ch: char) -> bool {
    '0' <= ch && ch <= '9'
}

/// The value of a decimal digit.
pub open spec fn digit_value(ch: char) -> u8 {
    (ch as u32 - '0' as u32) as u8
}

/// The error for the backslash as an operator of its own, which has no
/// lowering: a compile error whose message names the operator.
pub open spec fn unimplemented_quote() -> RegexError {
    RegexError::CompileError(choose|msg: String| #[trigger] msg@ == "Unimplemented operation: Quote"@)
}

/// Are the two errors alike: of one kind, and with one message where they
/// carry one?
pub open spec fn alike(one: RegexError, other: RegexError) -> bool {
    match (one, other) {
        (RegexError::CompileError(a), RegexError::CompileError(b)) => a@ == b@,
        _ => one == other,
    }
}

/// A range of a character class: its first and its last member.
pub type ClassRange = (char, char);

/// The operands of the ranges of a class, one after the other.
pub open spec fn range_operands(ranges: Seq<ClassRange>) -> Seq<u8>
    decreases ranges.len(),
{
    if ranges.len() == 0 {
        Seq::empty()
    } else {
        range_operands(ranges.drop_last()) + char_operand(ranges.last().0) + char_operand(
            ranges.last().1,
        )
    }
}

/// The state of the scan of a character class between two of its members.
pub struct ClassScan {
    /// The ranges read so far.
    pub ranges: Seq<ClassRange>,
    /// The last single member, which a dash may extend to a range.
    pub prev: Option<char>,
    /// Has a dash opened a range that the next member closes?
    pub in_range: bool,
    /// Is the next character the first of the class?
    pub first: bool,
}

impl Source {
    /// The two hexadecimal digits at `pos`, as the ASCII character they
    /// name, and the position behind them.
    pub open spec fn get_hex(self, pos: int) -> Result<(char, int), RegexError> {
        if pos >= self.pattern.len() {
            Err(RegexError::PrematureEnd)
        } else {
            match hex_value(self.pattern[pos]) {
                None => Err(RegexError::BadHexEscape),
                Some(high) => if pos + 1 >= self.pattern.len() {
                    Err(RegexError::PrematureEnd)
                } else {
                    match hex_value(self.pattern[pos + 1]) {
                        None => Err(RegexError::BadHexEscape),
                        Some(low) => if high * 16 + low <= 127 {
                            Ok(((high * 16 + low) as u8 as char, pos + 2))
                        } else {
                            Err(RegexError::BadHexEscape)
                        },
                    }
                }
            }
        }
    }

    /// Where the cursor stands when the two hexadecimal digits at `pos`
    /// cannot be read: at `pos` where the pattern ends there, behind the first
    /// character where that is no digit or the pattern ends behind it, and
    /// behind the second otherwise.
    pub open spec fn get_hex_stop(self, pos: int) -> int {
        if pos >= self.pattern.len() {
            pos
        } else if hex_value(self.pattern[pos]) is None || pos + 1 >= self.pattern.len() {
            pos + 1
        } else {
            pos + 2
        }
    }

    /// Where the cursor stands when the escape `ch`, read up to `pos`, fails:
    /// only `x` and `X` can fail, in their digits.
    pub open spec fn ansi_translate_stop(self, pos: int, ch: char) -> int {
        if ch == 'x' || ch == 'X' {
            self.get_hex_stop(pos)
        } else {
            pos
        }
    }

    /// Where the cursor stands when no operator can be read at `pos`: behind
    /// a backslash that ends the pattern, or where the escape behind the
    /// backslash fails.
    pub open spec fn read_op_stop(self, pos: int) -> int {
        if pos + 1 >= self.pattern.len() {
            pos + 1
        } else {
            self.ansi_translate_stop(pos + 2, self.pattern[pos + 1])
        }
    }

    /// Where the cursor stands when the scan of a class body from `pos` on
    /// fails: at the end of the pattern, or where an escape in the body fails.
    pub open spec fn scan_class_stop(self, pos: int, scan: ClassScan) -> int
        decreases self.pattern.len() - pos,
    {
        if pos < 0 || pos >= self.pattern.len() {
            pos
        } else {
            let ch = self.pattern[pos];
            if ch == ']' && !scan.first {
                pos + 1
            } else {
                let escaped = ch == '\\' && self.syntax.ansi_sequences() && pos + 1
                    < self.pattern.len();
                let member = if escaped {
                    self.ansi_translate(pos + 2, self.pattern[pos + 1])
                } else {
                    Ok((ch, pos + 1))
                };
                match member {
                    Err(_) => self.ansi_translate_stop(pos + 2, self.pattern[pos + 1]),
                    Ok((raw, next)) => {
                        let actual = translated(self.translate, raw);
                        self.scan_class_stop(next, scan.take(self, ch, actual, next))
                    },
                }
            }
        }
    }

    /// The character that `ch` names behind a backslash under the ANSI
    /// escapes, and the position behind it, where `pos` is the position
    /// behind `ch`: the control characters for `a b f n r t v` in either
    /// case, two hexadecimal digits after `x` or `X`, and the translated
    /// character itself for any other.
    pub open spec fn ansi_translate(self, pos: int, ch: char) -> Result<(char, int), RegexError> {
        if ch == 'a' || ch == 'A' {
            Ok(('\x07', pos))
        } else if ch == 'b' || ch == 'B' {
            Ok(('\x08', pos))
        } else if ch == 'f' || ch == 'F' {
            Ok(('\x0C', pos))
        } else if ch == 'n' || ch == 'N' {
            Ok(('\n', pos))
        } else if ch == 'r' || ch == 'R' {
            Ok(('\r', pos))
        } else if ch == 't' || ch == 'T' {
            Ok(('\t', pos))
        } else if ch == 'v' || ch == 'V' {
            Ok(('\x0B', pos))
        } else if ch == 'x' || ch == 'X' {
            self.get_hex(pos)
        } else {
            Ok((translated(self.translate, ch), pos))
        }
    }

    /// The operator at `pos`, the character that belongs to it, and the
    /// position behind it. A backslash takes the next character with it and
    /// fails where there is none.
    pub open spec fn read_op(self, pos: int) -> Result<(SyntaxOp, char, int), RegexError> {
        let ch = translated(self.translate, self.pattern[pos]);
        let op = plain_op(self.syntax, ch as u32);
        if op == SyntaxOp::Quote {
            if pos + 1 >= self.pattern.len() {
                Err(RegexError::PrematureEnd)
            } else {
                let quoted = self.pattern[pos + 1];
                let op = quoted_op(self.syntax, quoted as u32);
                if op == SyntaxOp::Normal && self.syntax.ansi_sequences() {
                    match self.ansi_translate(pos + 2, quoted) {
                        Err(e) => Err(e),
                        Ok((ch, next)) => Ok((op, ch, next)),
                    }
                } else {
                    Ok((op, quoted, pos + 2))
                }
            }
        } else {
            Ok((op, ch, pos + 1))
        }
    }

    /// May `$` stand at `pos` as an anchor? It may at the end of the
    /// pattern and before `|` and `)`.
    pub open spec fn is_eol_context(self, pos: int) -> bool {
        pos >= self.pattern.len() || self.pattern[pos] == '|' || self.pattern[pos] == ')'
    }

    /// The members of the character class whose body continues at `pos`,
    /// and the position behind its closing bracket. A bracket closes the
    /// class unless it is the first character; a dash between two members
    /// makes a range of them; under the ANSI escapes a backslash takes the
    /// next character with it. A class without a closing bracket fails.
    pub open spec fn scan_class(self, pos: int, scan: ClassScan) -> Result<
        (Seq<ClassRange>, int),
        RegexError,
    >
        decreases self.pattern.len() - pos,
    {
        if pos < 0 || pos >= self.pattern.len() {
            Err(RegexError::PrematureEnd)
        } else {
            let ch = self.pattern[pos];
            if ch == ']' && !scan.first {
                Ok(
                    (
                        if scan.in_range {
                            scan.ranges.push(('-', '-'))
                        } else {
                            scan.ranges
                        },
                        pos + 1,
                    ),
                )
            } else {
                let member = if ch == '\\' && self.syntax.ansi_sequences() && pos + 1
                    < self.pattern.len() {
                    self.ansi_translate(pos + 2, self.pattern[pos + 1])
                } else {
                    Ok((ch, pos + 1))
                };
                match member {
                    Err(e) => Err(e),
                    Ok((raw, next)) => {
                        let actual = translated(self.translate, raw);
                        self.scan_class(next, scan.take(self, ch, actual, next))
                    },
                }
            }
        }
    }
}

impl ClassScan {
    /// The scan at the opening bracket.
    pub open spec fn fresh() -> ClassScan {
        ClassScan { ranges: Seq::empty(), prev: None, in_range: false, first: true }
    }

    /// The scan after the member `actual`, which the pattern wrote as `ch`
    /// and which ends before `next`.
    pub open spec fn take(self, src: Source, ch: char, actual: char, next: int) -> ClassScan {
        if self.in_range {
            ClassScan {
                ranges: match self.prev {
                    Some(low) => self.ranges.push((low, actual)),
                    None => self.ranges,
                },
                prev: None,
                in_range: false,
                first: false,
            }
        } else if ch == '-' && self.prev is Some && next < src.pattern.len() && src.pattern[next]
            != ']' {
            ClassScan { in_range: true, first: false, ..self }
        } else {
            ClassScan {
                ranges: self.ranges.push((actual, actual)),
                prev: Some(actual),
                in_range: false,
                first: false,
            }
        }
    }
}

impl Emitter {
    /// The state in which a compilation starts.
    pub open spec fn initial() -> Emitter {
        Emitter {
            pos: 0,
            buffer: Seq::empty(),
            starts: Seq::new(500, |i: int| 0usize),
            starts_base: 0,
            future_jumps: Seq::new(100, |i: int| 0usize),
            num_jumps: 0,
            current_level: 0,
            next_register: 1,
            paren_depth: 0,
            num_open_registers: 0,
            open_registers: Seq::new(100, |i: int| 0u8),
            beginning_context: true,
        }
    }

    /// The state is one that a compilation can be in: the tables have their
    /// sizes, every index is in its table, and every offset that is kept
    /// lies in the code, a pending displacement with both its bytes.
    pub open spec fn wf(self, src: Source) -> bool {
        &&& 0 <= self.pos <= src.pattern.len()
        &&& self.starts.len() == 500
        &&& self.future_jumps.len() == 100
        &&& self.open_registers.len() == 100
        &&& 0 <= self.paren_depth <= 99
        &&& self.starts_base == 5 * self.paren_depth
        &&& 0 <= self.current_level <= 4
        &&& 0 <= self.num_jumps <= 100
        &&& 1 <= self.next_register <= 100
        &&& 0 <= self.num_open_registers <= self.paren_depth
        &&& self.num_open_registers < self.next_register
        &&& forall|i: int| 0 <= i < 500 ==> #[trigger] self.starts[i] <= self.buffer.len()
        &&& forall|i: int|
            0 <= i < self.num_jumps ==> #[trigger] self.future_jumps[i] + 2 <= self.buffer.len()
    }

    /// The offset at which the expression at the current level began.
    pub open spec fn level_start(self) -> usize {
        self.starts[self.starts_base + self.current_level]
    }

    /// The expression at the current level begins at the end of the code.
    pub open spec fn mark(self) -> Emitter {
        Emitter {
            starts: self.starts.update(
                self.starts_base + self.current_level,
                self.buffer.len() as usize,
            ),
            ..self
        }
    }

    /// The given bytes are appended to the code.
    pub open spec fn emit(self, bytes: Seq<u8>) -> Emitter {
        Emitter { buffer: self.buffer + bytes, ..self }
    }

    /// A new expression that is the single instruction `op`.
    pub open spec fn simple(self, op: CompiledOp) -> Emitter {
        self.mark().emit(seq![op.spec_to_byte()])
    }

    /// A new expression that is the instruction `op` with a one-byte operand.
    pub open spec fn with_arg(self, op: CompiledOp, arg: u8) -> Emitter {
        self.mark().emit(seq![op.spec_to_byte(), arg])
    }

    /// A new expression that matches the character `ch`.
    pub open spec fn literal(self, ch: char) -> Emitter {
        self.mark().emit(seq![CompiledOp::Exact.spec_to_byte()] + char_operand(ch))
    }

    /// The displacement at `offset` is set to lead to `addr`.
    pub open spec fn put_addr(self, offset: int, addr: int) -> Emitter {
        let bytes = disp_bytes(addr, offset);
        Emitter { buffer: self.buffer.update(offset, bytes[0]).update(offset + 1, bytes[1]), ..self }
    }

    /// The jump `op` to `addr` is inserted at `pos`: the code from `pos` on
    /// moves up by three bytes, and so does every pending displacement that
    /// lies there.
    pub open spec fn insert_jump(self, pos: int, op: CompiledOp, addr: int) -> Emitter {
        Emitter {
            buffer: self.buffer.subrange(0, pos) + seq![op.spec_to_byte()] + disp_bytes(
                addr,
                pos + 1,
            ) + self.buffer.subrange(pos, self.buffer.len() as int),
            future_jumps: Seq::new(
                100,
                |i: int|
                    if i < self.num_jumps && self.future_jumps[i] >= pos {
                        (self.future_jumps[i] + 3) as usize
                    } else {
                        self.future_jumps[i]
                    },
            ),
            ..self
        }
    }

    /// The pending jumps that lie in the expression at the current level,
    /// taken from the latest back, are set to lead to the end of the code.
    pub open spec fn patch_pending(self) -> Emitter
        decreases self.num_jumps,
    {
        if self.num_jumps > 0 && self.future_jumps[self.num_jumps - 1] >= self.level_start() {
            Emitter { num_jumps: self.num_jumps - 1, ..self }.put_addr(
                self.future_jumps[self.num_jumps - 1] as int,
                self.buffer.len() as int,
            ).patch_pending()
        } else {
            self
        }
    }

    /// The compiler moves to precedence level `level`. On the way up, the
    /// expression at each new level begins at the end of the code. On the
    /// way down, the alternatives of the expression that ends here get their
    /// jumps to the end of the code.
    pub open spec fn handle_precedence(self, level: int) -> Emitter {
        if level > self.current_level {
            Emitter {
                current_level: level,
                starts: Seq::new(
                    500,
                    |i: int|
                        if self.starts_base + self.current_level < i <= self.starts_base + level {
                            self.buffer.len() as usize
                        } else {
                            self.starts[i]
                        },
                ),
                ..self
            }
        } else if level < self.current_level {
            Emitter { current_level: level, ..self }.patch_pending()
        } else {
            self
        }
    }

    /// Is there room in the address space for the jumps of one operator?
    pub open spec fn has_room(self) -> bool {
        self.buffer.len() + 9 <= usize::MAX
    }

    /// A repetition operator: `?`, `*` or `+`, written `symbol`. At the
    /// beginning of an expression it is a literal, or an error where the
    /// dialect makes operators independent of their context. After an empty
    /// expression it does nothing. Otherwise the expression at the current
    /// level is wrapped: a failure jump before it leads behind the whole,
    /// for `*` and `+` a star jump behind it leads back to the failure jump,
    /// and for `+` a dummy failure jump in front steps over the failure jump
    /// once.
    pub open spec fn repeat(self, src: Source, op: SyntaxOp, symbol: char) -> Result<
        Emitter,
        RegexError,
    > {
        if self.beginning_context {
            if src.syntax.context_indep_ops() {
                Err(RegexError::BadSpecialChar)
            } else {
                Ok(self.literal(symbol))
            }
        } else if self.level_start() == self.buffer.len() {
            Ok(self)
        } else if !self.has_room() {
            Err(RegexError::OutOfMemory)
        } else {
            let start = self.level_start() as int;
            let end = self.buffer.len() as int;
            if op == SyntaxOp::Optional {
                Ok(self.insert_jump(start, CompiledOp::FailureJump, end + 3))
            } else {
                let looped = self.insert_jump(start, CompiledOp::FailureJump, end + 6).insert_jump(
                    end + 3,
                    CompiledOp::StarJump,
                    start,
                );
                if op == SyntaxOp::Star {
                    Ok(looped)
                } else {
                    Ok(looped.insert_jump(start, CompiledOp::DummyFailureJump, start + 6))
                }
            }
        }
    }

    /// An anchor, `^` or `$`, written `symbol`: the instruction `anchor`
    /// where it stands in its context, a literal elsewhere, or an error
    /// there where the dialect makes operators independent of their context.
    pub open spec fn anchor(self, src: Source, in_context: bool, anchor: CompiledOp, symbol: char)
        -> Result<Emitter, RegexError> {
        if !in_context && !src.syntax.context_indep_ops() {
            Ok(self.literal(symbol))
        } else if !in_context {
            Err(RegexError::BadSpecialChar)
        } else {
            Ok(self.simple(anchor))
        }
    }

    /// An alternation: a failure jump before the expression at the current
    /// level leads behind the jump that ends it; that jump waits for the end
    /// of the alternation; and the next alternative begins.
    pub open spec fn alternate(self) -> Result<Emitter, RegexError> {
        if !self.has_room() {
            Err(RegexError::OutOfMemory)
        } else {
            let wrapped = self.insert_jump(
                self.level_start() as int,
                CompiledOp::FailureJump,
                self.buffer.len() as int + 6,
            );
            if wrapped.num_jumps >= 100 {
                Err(RegexError::TooComplex)
            } else {
                let jump = wrapped.emit(seq![CompiledOp::Jump.spec_to_byte()]);
                Ok(
                    Emitter {
                        future_jumps: jump.future_jumps.update(
                            jump.num_jumps,
                            jump.buffer.len() as usize,
                        ),
                        num_jumps: jump.num_jumps + 1,
                        ..jump
                    }.emit(seq![0u8, 0u8]).mark(),
                )
            }
        }
    }

    /// A group opens: it gets the next register while there is one, and the
    /// levels start anew inside it. Too many open groups are an error.
    pub open spec fn open_group(self) -> Result<Emitter, RegexError> {
        let marked = self.mark();
        let opened = if marked.next_register < 100 {
            Emitter {
                open_registers: marked.open_registers.update(
                    marked.num_open_registers,
                    marked.next_register as u8,
                ),
                num_open_registers: marked.num_open_registers + 1,
                next_register: marked.next_register + 1,
                ..marked.emit(seq![CompiledOp::StartMemory.spec_to_byte(), marked.next_register as u8])
            }
        } else {
            marked
        };
        if opened.starts_base >= 495 {
            Err(RegexError::TooComplex)
        } else {
            Ok(
                Emitter {
                    paren_depth: opened.paren_depth + 1,
                    starts_base: opened.starts_base + 5,
                    current_level: 0,
                    ..opened
                }.mark(),
            )
        }
    }

    /// A group closes: the levels of the enclosing group are back, and the
    /// group's register, if it has one, is closed. With no group open the
    /// parenthesis is a literal.
    pub open spec fn close_group(self, src: Source) -> Emitter {
        if self.paren_depth > 0 {
            let closed = Emitter {
                starts_base: self.starts_base - 5,
                current_level: precedence(src.syntax, SyntaxOp::OpenPar) as int,
                paren_depth: self.paren_depth - 1,
                ..self
            };
            if closed.paren_depth < closed.num_open_registers {
                Emitter { num_open_registers: closed.num_open_registers - 1, ..closed }.emit(
                    seq![
                        CompiledOp::EndMemory.spec_to_byte(),
                        closed.open_registers[closed.num_open_registers - 1],
                    ],
                )
            } else {
                closed
            }
        } else {
            self.literal(')')
        }
    }

    /// A two-digit back-reference: the two characters that follow must be
    /// decimal digits and must not both be zero.
    pub open spec fn extended_memory(self, src: Source) -> Result<Emitter, RegexError> {
        if self.pos + 2 > src.pattern.len() {
            Err(RegexError::PrematureEnd)
        } else {
            let tens = src.pattern[self.pos];
            let ones = src.pattern[self.pos + 1];
            if !is_digit(tens) || !is_digit(ones) {
                Err(RegexError::BadBackReference)
            } else {
                let reg = digit_value(tens) * 10 + digit_value(ones);
                if reg == 0 {
                    Err(RegexError::BadBackReference)
                } else {
                    Ok(
                        Emitter { pos: self.pos + 2, ..self }.with_arg(
                            CompiledOp::MatchMemory,
                            reg as u8,
                        ),
                    )
                }
            }
        }
    }

    /// A character class, whose opening bracket has been read: `^` first
    /// complements it; then its members follow up to the closing bracket.
    /// The instruction holds the complement flag, the number of ranges cut
    /// to eight bits, and the ranges.
    pub open spec fn character_set(self, src: Source) -> Result<Emitter, RegexError> {
        let complement = self.pos < src.pattern.len() && src.pattern[self.pos] == '^';
        let body = if complement {
            self.pos + 1
        } else {
            self.pos
        };
        match src.scan_class(body, ClassScan::fresh()) {
            Err(e) => Err(e),
            Ok((ranges, next)) => Ok(
                Emitter { pos: next, ..self }.mark().emit(
                    seq![
                        CompiledOp::CharSet.spec_to_byte(),
                        if complement {
                            1u8
                        } else {
                            0u8
                        },
                        (ranges.len() % 256) as u8,
                    ] + range_operands(ranges),
                ),
            ),
        }
    }

    /// The state in which a failed alternation leaves the compiler: as it
    /// was where there is no room for the jumps, and with the failure jump
    /// inserted where too many alternatives are pending.
    pub open spec fn alternate_stop(self) -> Emitter {
        if !self.has_room() {
            self
        } else {
            self.insert_jump(
                self.level_start() as int,
                CompiledOp::FailureJump,
                self.buffer.len() as int + 6,
            )
        }
    }

    /// The state in which a failed opening of a group leaves the compiler:
    /// the group has its register and is counted, but the levels have not
    /// started anew.
    pub open spec fn open_group_stop(self) -> Emitter {
        let marked = self.mark();
        let opened = if marked.next_register < 100 {
            Emitter {
                open_registers: marked.open_registers.update(
                    marked.num_open_registers,
                    marked.next_register as u8,
                ),
                num_open_registers: marked.num_open_registers + 1,
                next_register: marked.next_register + 1,
                ..marked.emit(seq![CompiledOp::StartMemory.spec_to_byte(), marked.next_register as u8])
            }
        } else {
            marked
        };
        Emitter { paren_depth: opened.paren_depth + 1, ..opened }
    }

    /// The state in which a failed two-digit back-reference leaves the
    /// compiler: only the cursor has moved, past the characters that were
    /// read.
    pub open spec fn extended_memory_stop(self, src: Source) -> Emitter {
        if self.pos >= src.pattern.len() {
            self
        } else if self.pos + 1 >= src.pattern.len() {
            Emitter { pos: self.pos + 1, ..self }
        } else {
            Emitter { pos: self.pos + 2, ..self }
        }
    }

    /// The state in which a failed character class leaves the compiler:
    /// the instruction is begun, with the complement flag and a count of 0,
    /// and the cursor stands where the scan of the body stopped.
    pub open spec fn character_set_stop(self, src: Source) -> Emitter {
        let complement = self.pos < src.pattern.len() && src.pattern[self.pos] == '^';
        let body = if complement {
            self.pos + 1
        } else {
            self.pos
        };
        Emitter { pos: src.scan_class_stop(body, ClassScan::fresh()), ..self }.mark().emit(
            seq![
                CompiledOp::CharSet.spec_to_byte(),
                if complement {
                    1u8
                } else {
                    0u8
                },
                0u8,
            ],
        )
    }

    /// The state in which a failed lowering of `op` leaves the compiler. A
    /// repetition, an anchor or a back-reference of one digit that fails has
    /// changed nothing; an alternation, a group, a back-reference of two digits
    /// or a class may have done part of its work.
    pub open spec fn process_stop(self, src: Source, op: SyntaxOp) -> Emitter {
        match op {
            SyntaxOp::Or => self.alternate_stop(),
            SyntaxOp::OpenPar => self.open_group_stop(),
            SyntaxOp::ExtendedMemory => self.extended_memory_stop(src),
            SyntaxOp::OpenSet => self.character_set_stop(src),
            _ => self,
        }
    }

    /// The state in which a failed round leaves the compiler: the cursor
    /// stands where the reading of the operator stopped, or the compiler has
    /// moved to the operator's level and stands where its lowering stopped.
    pub open spec fn round_stop(self, src: Source) -> Emitter {
        match src.read_op(self.pos) {
            Err(_) => Emitter { pos: src.read_op_stop(self.pos), ..self },
            Ok((op, _, next)) => (Emitter { pos: next, ..self }).handle_precedence(
                precedence(src.syntax, op) as int,
            ).process_stop(src, op),
        }
    }

    /// The operator `op`, read with the character `ch`, is lowered.
    pub open spec fn process(self, src: Source, op: SyntaxOp, ch: char) -> Result<
        Emitter,
        RegexError,
    > {
        match op {
            SyntaxOp::End => Ok(self),
            SyntaxOp::Quote => Err(unimplemented_quote()),
            SyntaxOp::Normal => Ok(self.literal(ch)),
            SyntaxOp::AnyChar => Ok(self.simple(CompiledOp::AnyChar)),
            SyntaxOp::Bol => self.anchor(src, self.beginning_context, CompiledOp::Bol, '^'),
            SyntaxOp::Eol => self.anchor(src, src.is_eol_context(self.pos), CompiledOp::Eol, '$'),
            SyntaxOp::Optional => self.repeat(src, op, '?'),
            SyntaxOp::Star => self.repeat(src, op, '*'),
            SyntaxOp::Plus => self.repeat(src, op, '+'),
            SyntaxOp::Or => self.alternate(),
            SyntaxOp::OpenPar => self.open_group(),
            SyntaxOp::ClosePar => Ok(self.close_group(src)),
            SyntaxOp::Memory => if ch == '0' {
                Err(RegexError::BadBackReference)
            } else {
                Ok(self.with_arg(CompiledOp::MatchMemory, digit_value(ch)))
            },
            SyntaxOp::ExtendedMemory => self.extended_memory(src),
            SyntaxOp::OpenSet => self.character_set(src),
            SyntaxOp::BegBuf => Ok(self.simple(CompiledOp::BegBuf)),
            SyntaxOp::EndBuf => Ok(self.simple(CompiledOp::EndBuf)),
            SyntaxOp::WordChar => Ok(self.with_arg(CompiledOp::SyntaxSpec, 1)),
            SyntaxOp::NotWordChar => Ok(self.with_arg(CompiledOp::NotSyntaxSpec, 1)),
            SyntaxOp::WordBeg => Ok(self.simple(CompiledOp::WordBeg)),
            SyntaxOp::WordEnd => Ok(self.simple(CompiledOp::WordEnd)),
            SyntaxOp::WordBound => Ok(self.simple(CompiledOp::WordBound)),
            SyntaxOp::NotWordBound => Ok(self.simple(CompiledOp::NotWordBound)),
        }
    }

    /// One round of the compiler at a position inside the pattern: the
    /// operator there is read, the compiler moves to its precedence level,
    /// and the operator is lowered.
    pub open spec fn round(self, src: Source) -> Result<Emitter, RegexError> {
        match src.read_op(self.pos) {
            Err(e) => Err(e),
            Ok((op, ch, next)) => {
                let level = precedence(src.syntax, op) as int;
                match (Emitter { pos: next, ..self }).handle_precedence(level).process(src, op, ch) {
                    Err(e) => Err(e),
                    Ok(done) => Ok(
                        Emitter {
                            beginning_context: op == SyntaxOp::OpenPar || op == SyntaxOp::Or,
                            ..done
                        },
                    ),
                }
            },
        }
    }

    /// The code of the pattern, compiled on from this state: round after
    /// round to the end of the pattern, where every alternation that is
    /// still open ends and the `End` instruction closes the code.
    pub open spec fn finish(self, src: Source) -> Result<Seq<u8>, RegexError>
        decreases
                (if self.pos < src.pattern.len() {
                    src.pattern.len() - self.pos
                } else {
                    0
                }),
    {
        if self.pos >= src.pattern.len() {
            Ok(
                self.handle_precedence(precedence(src.syntax, SyntaxOp::End) as int).buffer.push(
                    CompiledOp::End.spec_to_byte(),
                ),
            )
        } else {
            match self.round(src) {
                Err(e) => Err(e),
                Ok(next) => {
                    proof {
                        lemma_round_advances(self, src);
                    }
                    next.finish(src)
                },
            }
        }
    }
}

/// The scan of a character class ends behind the position it starts at.
pub proof fn lemma_scan_class_advances(src: Source, pos: int, scan: ClassScan)
    ensures
        src.scan_class(pos, scan) is Ok ==> pos < src.scan_class(pos, scan)->Ok_0.1,
    decreases src.pattern.len() - pos,
{
    if 0 <= pos < src.pattern.len() {
        let ch = src.pattern[pos];
        if !(ch == ']' && !scan.first) {
            let member = if ch == '\\' && src.syntax.ansi_sequences() && pos + 1
                < src.pattern.len() {
                src.ansi_translate(pos + 2, src.pattern[pos + 1])
            } else {
                Ok((ch, pos + 1))
            };
            if member is Ok {
                let (raw, next) = member->Ok_0;
                let actual = translated(src.translate, raw);
                lemma_scan_class_advances(src, next, scan.take(src, ch, actual, next));
            }
        }
    }
}

/// Every round of the compiler moves on in the pattern.
pub proof fn lemma_round_advances(e: Emitter, src: Source)
    ensures
        e.round(src) is Ok ==> e.pos < e.round(src)->Ok_0.pos,
{
    if e.round(src) is Ok {
        let (op, ch, next) = src.read_op(e.pos)->Ok_0;
        let level = precedence(src.syntax, op) as int;
        let moved = (Emitter { pos: next, ..e }).handle_precedence(level);
        lemma_patch_keeps_pos(Emitter { current_level: level, pos: next, ..e });
        assert(moved.pos == next);
        if op == SyntaxOp::OpenSet {
            let complement = moved.pos < src.pattern.len() && src.pattern[moved.pos] == '^';
            let body = if complement {
                moved.pos + 1
            } else {
                moved.pos
            };
            lemma_scan_class_advances(src, body, ClassScan::fresh());
        }
    }
}

/// Setting the pending jumps leaves the position in the pattern alone.
pub proof fn lemma_patch_keeps_pos(e: Emitter)
    ensures
        e.patch_pending().pos == e.pos,
    decreases e.num_jumps,
{
    if e.num_jumps > 0 && e.future_jumps[e.num_jumps - 1] >= e.level_start() {
        lemma_patch_keeps_pos(
            Emitter { num_jumps: e.num_jumps - 1, ..e }.put_addr(
                e.future_jumps[e.num_jumps - 1] as int,
                e.buffer.len() as int,
            ),
        );
    }
}

/// The code that `pattern` compiles to under `syntax`, or the error that
/// the compiler stops with.
pub open spec fn compiled(pattern: Seq<char>, syntax: SyntaxFlags) -> Result<Seq<u8>, RegexError> {
    Emitter::initial().mark().finish(Source { pattern, syntax, translate: None })
}

} // verus!
