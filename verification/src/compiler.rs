//! The pattern compiler: one pass over the pattern, with jumps inserted
//! into the code already emitted wherever an operator wraps what came
//! before it.

use crate::codepoint::{char_operand, lemma_char_value, push_char_operand};
use crate::lowering::{
    alike, compiled, hex_value, is_digit, lemma_round_advances, plain_op, precedence, quoted_op,
    range_operands, unimplemented_quote, ClassScan, Emitter, Source, MAX_NESTING, NUM_LEVELS,
};
use crate::matcher::chars_of;
use crate::opcodes::{CompiledOp, SyntaxOp};
use crate::semantics::translated;
use crate::syntax::SyntaxFlags;
use crate::{Regex, RegexError, RE_NREGS};
use std::collections::HashMap;
use vstd::prelude::*;
use vstd::string::StringExecFns;

verus! {

broadcast use vstd::std_specs::hash::group_hash_axioms;

/// The compiler at work on one pattern.
pub struct Compiler {
    pattern: Vec<char>,
    pos: usize,
    buffer: Vec<u8>,
    syntax: SyntaxFlags,
    translate: Option<HashMap<u32, char>>,
    plain_ops: HashMap<u32, SyntaxOp>,
    quoted_ops: HashMap<u32, SyntaxOp>,
    precedences: [u8; 256],
    starts: [usize; 500],
    starts_base: usize,
    future_jumps: [usize; 100],
    num_jumps: usize,
    current_level: usize,
    next_register: u8,
    paren_depth: usize,
    num_open_registers: usize,
    open_registers: [u8; 100],
    beginning_context: bool,
}

/// The table of the operators that unquoted characters stand for.
pub open spec fn plain_table(syntax: SyntaxFlags) -> Map<u32, SyntaxOp> {
    Map::new(|key: u32| plain_op(syntax, key) != SyntaxOp::Normal, |key: u32| plain_op(syntax, key))
}

/// The table of the operators that characters stand for behind a backslash.
pub open spec fn quoted_table(syntax: SyntaxFlags) -> Map<u32, SyntaxOp> {
    Map::new(
        |key: u32| quoted_op(syntax, key) != SyntaxOp::Normal,
        |key: u32| quoted_op(syntax, key),
    )
}

/// The displacement word, computed without a negative intermediate, is the
/// difference cut to 16 bits.
pub proof fn lemma_disp_word(addr: int, pos: int, k: int)
    ensures
        ((addr % 65536) + 131072 - (pos % 65536) - k) % 65536 == (addr - pos - k) % 65536,
{
    let a = addr % 65536;
    let p = pos % 65536;
    assert(addr == 65536 * (addr / 65536) + a) by {
        vstd::arithmetic::div_mod::lemma_fundamental_div_mod(addr, 65536);
    }
    assert(pos == 65536 * (pos / 65536) + p) by {
        vstd::arithmetic::div_mod::lemma_fundamental_div_mod(pos, 65536);
    }
    let x = addr - pos - k;
    let q = 2 - (addr / 65536) + (pos / 65536);
    assert(a + 131072 - p - k == x + 65536 * q);
    vstd::arithmetic::div_mod::lemma_mod_multiples_vanish(q, x, 65536);
    assert(65536 * q + x == x + 65536 * q);
}

impl Compiler {
    /// What the compiler works on.
    pub closed spec fn source(&self) -> Source {
        Source {
            pattern: self.pattern@,
            syntax: self.syntax,
            translate: match self.translate {
                Some(table) => Some(table@),
                None => None,
            },
        }
    }

    /// The state of the compiler.
    pub closed spec fn emitter(&self) -> Emitter {
        Emitter {
            pos: self.pos as int,
            buffer: self.buffer@,
            starts: self.starts@,
            starts_base: self.starts_base as int,
            future_jumps: self.future_jumps@,
            num_jumps: self.num_jumps as int,
            current_level: self.current_level as int,
            next_register: self.next_register as int,
            paren_depth: self.paren_depth as int,
            num_open_registers: self.num_open_registers as int,
            open_registers: self.open_registers@,
            beginning_context: self.beginning_context,
        }
    }

    /// The operator tables and the precedence table are those of the
    /// dialect.
    pub closed spec fn tables_ready(&self) -> bool {
        &&& self.plain_ops@ == plain_table(self.syntax)
        &&& self.quoted_ops@ == quoted_table(self.syntax)
        &&& forall|op: SyntaxOp| #[trigger]
            self.precedences@[op.spec_code() as int] == precedence(self.syntax, op)
    }

    /// The compiler is in a state that a compilation can be in, with its
    /// tables set up.
    pub open spec fn inv(&self) -> bool {
        self.emitter().wf(self.source()) && self.tables_ready()
    }

    /// The compiler has kept its pattern and its tables since `before`.
    pub open spec fn same_job(&self, before: &Self) -> bool {
        self.source() == before.source() && (before.tables_ready() ==> self.tables_ready())
    }

    /// A compiler for `pattern` under `syntax`, at the beginning of the
    /// pattern.
    pub fn new(pattern: &str, syntax: SyntaxFlags) -> (res: Result<Self, RegexError>)
        ensures
            res is Ok,
            res->Ok_0.source() == (Source { pattern: pattern@, syntax, translate: None }),
            res->Ok_0.emitter() == Emitter::initial(),
            res->Ok_0.inv(),
    {
        let pattern_chars = chars_of(pattern);
        let mut compiler = Compiler {
            pattern: pattern_chars,
            pos: 0,
            buffer: Vec::new(),
            syntax,
            translate: None,
            plain_ops: HashMap::new(),
            quoted_ops: HashMap::new(),
            precedences: [0;256],
            starts: [0;500],
            starts_base: 0,
            future_jumps: [0;100],
            num_jumps: 0,
            current_level: 0,
            next_register: 1,
            paren_depth: 0,
            num_open_registers: 0,
            open_registers: [0;100],
            beginning_context: true,
        };
        compiler.initialize_tables();
        proof {
            let e = compiler.emitter();
            assert(e.starts =~= Emitter::initial().starts);
            assert(e.future_jumps =~= Emitter::initial().future_jumps);
            assert(e.open_registers =~= Emitter::initial().open_registers);
            assert(e.buffer =~= Emitter::initial().buffer);
            assert(compiler.pattern.len() <= usize::MAX);
        }
        Ok(compiler)
    }

    /// Sets up the operator tables and the precedence table for the
    /// dialect.
    pub fn initialize_tables(&mut self)
        ensures
            final(self).source() == old(self).source(),
            final(self).emitter() == old(self).emitter(),
            final(self).tables_ready(),
    {
        self.plain_ops.clear();
        self.quoted_ops.clear();
        self.fill_quoted_ops();
        self.fill_plain_ops();
        self.fill_precedences();
    }

    /// Enters the operators that stand behind a backslash.
    #[verifier::rlimit(50)]
    fn fill_quoted_ops(&mut self)
        requires
            old(self).quoted_ops@ == Map::<u32, SyntaxOp>::empty(),
        ensures
            final(self).source() == old(self).source(),
            final(self).emitter() == old(self).emitter(),
            final(self).plain_ops == old(self).plain_ops,
            final(self).precedences == old(self).precedences,
            final(self).quoted_ops@ == quoted_table(final(self).syntax),
    {
        let ghost syntax = self.syntax;
        let mut digit: u32 = '0' as u32;
        while digit <= '9' as u32
            invariant
                '0' as u32 <= digit <= '9' as u32 + 1,
                self.source() == old(self).source(),
                self.emitter() == old(self).emitter(),
                self.plain_ops == old(self).plain_ops,
                self.precedences == old(self).precedences,
                self.quoted_ops@ =~= Map::new(
                    |key: u32| '0' as u32 <= key < digit,
                    |key: u32| SyntaxOp::Memory,
                ),
            decreases '9' as u32 + 1 - digit,
        {
            self.quoted_ops.insert(digit, SyntaxOp::Memory);
            digit += 1;
        }

        if self.syntax.needs_backslash_parens() {
            self.quoted_ops.insert('(' as u32, SyntaxOp::OpenPar);
            self.quoted_ops.insert(')' as u32, SyntaxOp::ClosePar);
        }
        if self.syntax.needs_backslash_vbar() {
            self.quoted_ops.insert('|' as u32, SyntaxOp::Or);
        }
        if self.syntax.needs_backslash_plus_qm() {
            self.quoted_ops.insert('+' as u32, SyntaxOp::Plus);
            self.quoted_ops.insert('?' as u32, SyntaxOp::Optional);
        }
        let ghost quoting = self.quoted_ops@;
        assert(quoting =~= Map::new(
            |key: u32|
                ('0' as u32 <= key <= '9' as u32) || (syntax.needs_backslash_parens() && (key
                    == '(' as u32 || key == ')' as u32)) || (syntax.needs_backslash_vbar() && key
                    == '|' as u32) || (syntax.needs_backslash_plus_qm() && (key == '+' as u32
                    || key == '?' as u32)),
            |key: u32| quoted_op(syntax, key),
        ));

        if !self.syntax.no_gnu_extensions() {
            self.quoted_ops.insert('w' as u32, SyntaxOp::WordChar);
            self.quoted_ops.insert('W' as u32, SyntaxOp::NotWordChar);
            self.quoted_ops.insert('<' as u32, SyntaxOp::WordBeg);
            self.quoted_ops.insert('>' as u32, SyntaxOp::WordEnd);
            self.quoted_ops.insert('b' as u32, SyntaxOp::WordBound);
            self.quoted_ops.insert('B' as u32, SyntaxOp::NotWordBound);
            self.quoted_ops.insert('`' as u32, SyntaxOp::BegBuf);
            self.quoted_ops.insert('\'' as u32, SyntaxOp::EndBuf);
        }
        if self.syntax.ansi_sequences() {
            self.quoted_ops.insert('v' as u32, SyntaxOp::ExtendedMemory);
        }
        assert(self.quoted_ops@ =~= quoted_table(syntax));
    }

    /// Enters the operators that stand without a backslash.
    #[verifier::rlimit(50)]
    fn fill_plain_ops(&mut self)
        requires
            old(self).plain_ops@ == Map::<u32, SyntaxOp>::empty(),
        ensures
            final(self).source() == old(self).source(),
            final(self).emitter() == old(self).emitter(),
            final(self).quoted_ops == old(self).quoted_ops,
            final(self).precedences == old(self).precedences,
            final(self).plain_ops@ == plain_table(final(self).syntax),
    {
        let ghost syntax = self.syntax;
        self.plain_ops.insert('\\' as u32, SyntaxOp::Quote);
        if !self.syntax.needs_backslash_parens() {
            self.plain_ops.insert('(' as u32, SyntaxOp::OpenPar);
            self.plain_ops.insert(')' as u32, SyntaxOp::ClosePar);
        }
        if !self.syntax.needs_backslash_vbar() {
            self.plain_ops.insert('|' as u32, SyntaxOp::Or);
        }
        self.plain_ops.insert('*' as u32, SyntaxOp::Star);
        let ghost grouping = self.plain_ops@;
        assert(grouping =~= Map::new(
            |key: u32|
                key == '\\' as u32 || key == '*' as u32 || (!syntax.needs_backslash_parens() && (key
                    == '(' as u32 || key == ')' as u32)) || (!syntax.needs_backslash_vbar() && key
                    == '|' as u32),
            |key: u32| plain_op(syntax, key),
        ));
        if !self.syntax.needs_backslash_plus_qm() {
            self.plain_ops.insert('+' as u32, SyntaxOp::Plus);
            self.plain_ops.insert('?' as u32, SyntaxOp::Optional);
        }
        if self.syntax.newline_or() {
            self.plain_ops.insert('\n' as u32, SyntaxOp::Or);
        }
        self.plain_ops.insert('[' as u32, SyntaxOp::OpenSet);
        self.plain_ops.insert('^' as u32, SyntaxOp::Bol);
        self.plain_ops.insert('$' as u32, SyntaxOp::Eol);
        self.plain_ops.insert('.' as u32, SyntaxOp::AnyChar);
        assert(self.plain_ops@ =~= plain_table(syntax));
    }

    /// Enters the precedence of each operator.
    fn fill_precedences(&mut self)
        ensures
            final(self).source() == old(self).source(),
            final(self).emitter() == old(self).emitter(),
            final(self).quoted_ops == old(self).quoted_ops,
            final(self).plain_ops == old(self).plain_ops,
            forall|op: SyntaxOp| #[trigger]
                final(self).precedences@[op.spec_code() as int] == precedence(
                    final(self).syntax,
                    op,
                ),
    {
        self.precedences = [4;256];
        if self.syntax.tight_vbar() {
            self.precedences[SyntaxOp::Or.code() as usize] = 3;
            self.precedences[SyntaxOp::Bol.code() as usize] = 2;
            self.precedences[SyntaxOp::Eol.code() as usize] = 2;
        } else {
            self.precedences[SyntaxOp::Or.code() as usize] = 2;
            self.precedences[SyntaxOp::Bol.code() as usize] = 3;
            self.precedences[SyntaxOp::Eol.code() as usize] = 3;
        }
        self.precedences[SyntaxOp::ClosePar.code() as usize] = 1;
        self.precedences[SyntaxOp::End.code() as usize] = 0;
    }

    /// The operator that the unquoted character `ch` stands for.
    pub fn plain_lookup(&self, ch: char) -> (op: SyntaxOp)
        requires
            self.tables_ready(),
        ensures
            op == plain_op(self.source().syntax, ch as u32),
    {
        let key: u32 = ch as u32;
        match self.plain_ops.get(&key) {
            Some(op) => *op,
            None => SyntaxOp::Normal,
        }
    }

    /// The operator that `ch` stands for behind a backslash.
    pub fn quoted_lookup(&self, ch: char) -> (op: SyntaxOp)
        requires
            self.tables_ready(),
        ensures
            op == quoted_op(self.source().syntax, ch as u32),
    {
        let key: u32 = ch as u32;
        match self.quoted_ops.get(&key) {
            Some(op) => *op,
            None => SyntaxOp::Normal,
        }
    }

    /// The precedence level of `op` in the dialect.
    pub fn level_of(&self, op: SyntaxOp) -> (level: u8)
        requires
            self.tables_ready(),
        ensures
            level == precedence(self.source().syntax, op),
            level <= 4,
    {
        self.precedences[op.code() as usize]
    }

    /// The character that stands for `ch` under the translation.
    pub fn apply_translation(&self, ch: char) -> (out: char)
        ensures
            out == translated(self.source().translate, ch),
    {
        match &self.translate {
            Some(table) => {
                let key: u32 = ch as u32;
                match table.get(&key) {
                    Some(to) => *to,
                    None => ch,
                }
            },
            None => ch,
        }
    }

    /// The next character of the pattern, with the cursor moved past it;
    /// an error at the end of the pattern.
    pub fn next_char(&mut self) -> (res: Result<char, RegexError>)
        requires
            old(self).inv(),
        ensures
            final(self).same_job(old(self)),
            final(self).inv(),
            old(self).emitter().pos >= old(self).source().pattern.len() ==> res == Err::<
                char,
                RegexError,
            >(RegexError::PrematureEnd) && final(self).emitter() == old(self).emitter(),
            old(self).emitter().pos < old(self).source().pattern.len() ==> res == Ok::<
                char,
                RegexError,
            >(old(self).source().pattern[old(self).emitter().pos]) && final(self).emitter() == (Emitter {
                pos: old(self).emitter().pos + 1,
                ..old(self).emitter()
            }),
    {
        if self.pos >= self.pattern.len() {
            Err(RegexError::PrematureEnd)
        } else {
            let ch = self.pattern[self.pos];
            self.pos += 1;
            Ok(ch)
        }
    }

    /// Appends a byte to the code.
    pub fn store(&mut self, byte: u8)
        requires
            old(self).inv(),
        ensures
            final(self).same_job(old(self)),
            final(self).inv(),
            final(self).emitter() == old(self).emitter().emit(seq![byte]),
    {
        self.buffer.push(byte);
        proof {
            assert(self.buffer@ =~= old(self).buffer@ + seq![byte]);
            assert(self.buffer.len() <= usize::MAX);
        }
    }

    /// Appends an instruction without operands to the code.
    pub fn store_opcode(&mut self, opcode: CompiledOp)
        requires
            old(self).inv(),
        ensures
            final(self).same_job(old(self)),
            final(self).inv(),
            final(self).emitter() == old(self).emitter().emit(seq![opcode.spec_to_byte()]),
    {
        self.store(opcode.to_byte());
    }

    /// Appends an instruction with a one-byte operand to the code.
    pub fn store_opcode_and_arg(&mut self, opcode: CompiledOp, arg: u8)
        requires
            old(self).inv(),
        ensures
            final(self).same_job(old(self)),
            final(self).inv(),
            final(self).emitter() == old(self).emitter().emit(seq![opcode.spec_to_byte(), arg]),
    {
        self.store_opcode(opcode);
        self.store(arg);
        assert(self.buffer@ =~= old(self).buffer@ + seq![opcode.spec_to_byte(), arg]);
    }

    /// Appends an instruction with a character operand to the code.
    pub fn store_opcode_and_char(&mut self, opcode: CompiledOp, ch: char)
        requires
            old(self).inv(),
        ensures
            final(self).same_job(old(self)),
            final(self).inv(),
            final(self).emitter() == old(self).emitter().emit(
                seq![opcode.spec_to_byte()] + char_operand(ch),
            ),
    {
        self.store_opcode(opcode);
        self.store_char(ch);
        assert(self.buffer@ =~= old(self).buffer@ + (seq![opcode.spec_to_byte()] + char_operand(
            ch,
        )));
    }

    /// Appends a character operand to the code.
    pub fn store_char(&mut self, ch: char)
        requires
            old(self).inv(),
        ensures
            final(self).same_job(old(self)),
            final(self).inv(),
            final(self).emitter() == old(self).emitter().emit(char_operand(ch)),
    {
        push_char_operand(&mut self.buffer, ch);
        proof {
            assert(self.buffer.len() <= usize::MAX);
        }
    }

    /// The offset at which the expression at the current level began.
    pub fn current_level_start(&self) -> (start: usize)
        requires
            self.inv(),
        ensures
            start == self.emitter().level_start(),
            start <= self.emitter().buffer.len(),
    {
        self.starts[self.starts_base + self.current_level]
    }

    /// Notes that the expression at the current level begins at the end of
    /// the code.
    pub fn set_level_start(&mut self)
        requires
            old(self).inv(),
        ensures
            final(self).same_job(old(self)),
            final(self).inv(),
            final(self).emitter() == old(self).emitter().mark(),
    {
        self.starts[self.starts_base + self.current_level] = self.buffer.len();
    }

    /// Makes room for the level starts of one more open group; an error
    /// where the table is full.
    pub fn push_level_starts(&mut self) -> (res: Result<(), RegexError>)
        ensures
            final(self).same_job(old(self)),
            old(self).emitter().starts_base >= 495 ==> res == Err::<(), RegexError>(
                RegexError::TooComplex,
            ) && final(self).emitter() == old(self).emitter(),
            old(self).emitter().starts_base < 495 ==> res is Ok && final(self).emitter() == (Emitter {
                starts_base: old(self).emitter().starts_base + 5,
                ..old(self).emitter()
            }),
    {
        if self.starts_base < (MAX_NESTING - 1) * NUM_LEVELS {
            self.starts_base += NUM_LEVELS;
            Ok(())
        } else {
            Err(RegexError::TooComplex)
        }
    }

    /// Gives up the level starts of the innermost open group.
    pub fn pop_level_starts(&mut self)
        requires
            old(self).emitter().starts_base >= 5,
        ensures
            final(self).same_job(old(self)),
            final(self).emitter() == (Emitter {
                starts_base: old(self).emitter().starts_base - 5,
                ..old(self).emitter()
            }),
    {
        self.starts_base -= NUM_LEVELS;
    }

    /// Sets the displacement at `offset` so that it leads to `addr`.
    pub fn put_addr(&mut self, offset: usize, addr: usize)
        requires
            old(self).inv(),
            offset + 2 <= old(self).emitter().buffer.len(),
        ensures
            final(self).same_job(old(self)),
            final(self).inv(),
            final(self).emitter() == old(self).emitter().put_addr(offset as int, addr as int),
    {
        let word: usize = ((addr % 65536) + 131072 - (offset % 65536) - 2) % 65536;
        proof {
            lemma_disp_word(addr as int, offset as int, 2);
            assert(self.buffer.len() <= usize::MAX);
        }
        self.buffer[offset] = (word % 256) as u8;
        self.buffer[offset + 1] = (word / 256) as u8;
    }

    /// Inserts the jump `opcode` to `addr` at `pos`.
    #[verifier::rlimit(50)]
    pub fn insert_jump(&mut self, pos: usize, opcode: CompiledOp, addr: usize)
        requires
            old(self).inv(),
            pos <= old(self).emitter().buffer.len(),
            old(self).emitter().buffer.len() + 3 <= usize::MAX,
        ensures
            final(self).same_job(old(self)),
            final(self).inv(),
            final(self).emitter() == old(self).emitter().insert_jump(
                pos as int,
                opcode,
                addr as int,
            ),
            final(self).emitter().buffer.len() == old(self).emitter().buffer.len() + 3,
    {
        let word: usize = ((addr % 65536) + 131072 - (pos % 65536) - 3) % 65536;
        proof {
            lemma_disp_word(addr as int, pos as int, 3);
        }
        self.buffer.insert(pos, (word / 256) as u8);
        self.buffer.insert(pos, (word % 256) as u8);
        self.buffer.insert(pos, opcode.to_byte());
        let ghost goal = old(self).emitter().insert_jump(pos as int, opcode, addr as int);
        assert(self.buffer@ =~= goal.buffer);
        let mut i: usize = 0;
        while i < self.num_jumps
            invariant
                0 <= i <= self.num_jumps <= 100,
                self.same_job(old(self)),
                old(self).inv(),
                pos <= old(self).emitter().buffer.len(),
                old(self).emitter().buffer.len() + 3 <= usize::MAX,
                goal == old(self).emitter().insert_jump(pos as int, opcode, addr as int),
                self.emitter() == (Emitter {
                    future_jumps: self.emitter().future_jumps,
                    ..goal
                }),
                self.future_jumps@.len() == 100,
                forall|j: int| 0 <= j < i ==> self.future_jumps@[j] == goal.future_jumps[j],
                forall|j: int|
                    i <= j < 100 ==> self.future_jumps@[j] == old(self).emitter().future_jumps[j],
            decreases self.num_jumps - i,
        {
            if self.future_jumps[i] >= pos {
                self.future_jumps[i] += 3;
            }
            i += 1;
        }
        assert(self.future_jumps@ =~= goal.future_jumps);
    }
    /// Reads two hexadecimal digits and gives the ASCII character they
    /// name.
    pub fn get_hex(&mut self) -> (res: Result<char, RegexError>)
        requires
            old(self).inv(),
        ensures
            final(self).same_job(old(self)),
            final(self).inv(),
            match old(self).source().get_hex(old(self).emitter().pos) {
                Ok((ch, next)) => res == Ok::<char, RegexError>(ch) && final(self).emitter() == (Emitter {
                    pos: next,
                    ..old(self).emitter()
                }),
                Err(e) => res == Err::<char, RegexError>(e) && final(self).emitter() == (Emitter {
                    pos: old(self).source().get_hex_stop(old(self).emitter().pos),
                    ..old(self).emitter()
                }),
            },
    {
        let first = match self.next_char() {
            Ok(ch) => ch,
            Err(e) => {
                return Err(e);
            },
        };
        let high = match hex_char_to_decimal(first) {
            Ok(value) => value,
            Err(e) => {
                return Err(e);
            },
        };
        let second = match self.next_char() {
            Ok(ch) => ch,
            Err(e) => {
                return Err(e);
            },
        };
        let low = match hex_char_to_decimal(second) {
            Ok(value) => value,
            Err(e) => {
                return Err(e);
            },
        };
        let value: u8 = high * 16 + low;
        if value <= 127 {
            Ok(value as char)
        } else {
            Err(RegexError::BadHexEscape)
        }
    }

    /// The character that `ch` names behind a backslash under the ANSI
    /// escapes; `\x` reads on in the pattern.
    pub fn ansi_translate(&mut self, ch: char) -> (res: Result<char, RegexError>)
        requires
            old(self).inv(),
        ensures
            final(self).same_job(old(self)),
            final(self).inv(),
            match old(self).source().ansi_translate(old(self).emitter().pos, ch) {
                Ok((out, next)) => res == Ok::<char, RegexError>(out) && final(self).emitter() == (Emitter {
                    pos: next,
                    ..old(self).emitter()
                }),
                Err(e) => res == Err::<char, RegexError>(e) && final(self).emitter() == (Emitter {
                    pos: old(self).source().ansi_translate_stop(old(self).emitter().pos, ch),
                    ..old(self).emitter()
                }),
            },
    {
        if ch == 'a' || ch == 'A' {
            Ok('\x07')
        } else if ch == 'b' || ch == 'B' {
            Ok('\x08')
        } else if ch == 'f' || ch == 'F' {
            Ok('\x0C')
        } else if ch == 'n' || ch == 'N' {
            Ok('\n')
        } else if ch == 'r' || ch == 'R' {
            Ok('\r')
        } else if ch == 't' || ch == 'T' {
            Ok('\t')
        } else if ch == 'v' || ch == 'V' {
            Ok('\x0B')
        } else if ch == 'x' || ch == 'X' {
            self.get_hex()
        } else {
            Ok(self.apply_translation(ch))
        }
    }

    /// Moves to the precedence level `level`.
    #[verifier::rlimit(50)]
    pub fn handle_precedence(&mut self, level: u8) -> (res: Result<(), RegexError>)
        requires
            old(self).inv(),
            level <= 4,
        ensures
            res is Ok,
            final(self).same_job(old(self)),
            final(self).inv(),
            final(self).emitter() == old(self).emitter().handle_precedence(level as int),
    {
        let ghost before = self.emitter();
        let ghost goal = before.handle_precedence(level as int);
        if level as usize > self.current_level {
            assert(before.starts =~= Seq::new(
                500,
                |i: int|
                    if before.starts_base + before.current_level < i <= before.starts_base
                        + before.current_level {
                        before.buffer.len() as usize
                    } else {
                        before.starts[i]
                    },
            ));
            while self.current_level < level as usize
                invariant
                    self.inv(),
                    self.same_job(old(self)),
                    before == old(self).emitter(),
                    before.wf(self.source()),
                    goal == before.handle_precedence(level as int),
                    before.current_level < level <= 4,
                    before.current_level <= self.current_level <= level,
                    self.emitter() == (Emitter {
                        current_level: self.current_level as int,
                        starts: Seq::new(
                            500,
                            |i: int|
                                if before.starts_base + before.current_level < i
                                    <= before.starts_base + self.current_level {
                                    before.buffer.len() as usize
                                } else {
                                    before.starts[i]
                                },
                        ),
                        ..before
                    }),
                decreases level - self.current_level,
            {
                self.current_level += 1;
                self.set_level_start();
                assert(self.emitter().starts =~= Seq::new(
                    500,
                    |i: int|
                        if before.starts_base + before.current_level < i <= before.starts_base
                            + self.current_level {
                            before.buffer.len() as usize
                        } else {
                            before.starts[i]
                        },
                ));
            }
        } else if (level as usize) < self.current_level {
            self.current_level = level as usize;
            loop
                invariant
                    self.inv(),
                    self.same_job(old(self)),
                    before == old(self).emitter(),
                    goal == before.handle_precedence(level as int),
                    level < before.current_level,
                    self.emitter().patch_pending() == goal,
                ensures
                    self.emitter() == goal,
                decreases self.num_jumps,
            {
                if self.num_jumps == 0 {
                    break ;
                }
                let offset = self.future_jumps[self.num_jumps - 1];
                if offset < self.current_level_start() {
                    break ;
                }
                self.num_jumps -= 1;
                let end = self.buffer.len();
                self.put_addr(offset, end);
            }
        }
        Ok(())
    }

    /// May `$` stand here as an anchor?
    pub fn is_eol_context(&self) -> (anchored: bool)
        requires
            self.inv(),
        ensures
            anchored == self.source().is_eol_context(self.emitter().pos),
    {
        self.pos >= self.pattern.len() || self.pattern[self.pos] == '|' || self.pattern[self.pos]
            == ')'
    }

    /// Compiles a character class, whose opening bracket has been read.
    #[verifier::rlimit(50)]
    pub fn compile_character_set(&mut self) -> (res: Result<(), RegexError>)
        requires
            old(self).inv(),
        ensures
            final(self).same_job(old(self)),
            final(self).inv(),
            match old(self).emitter().character_set(old(self).source()) {
                Ok(done) => res is Ok && final(self).emitter() == done,
                Err(e) => res == Err::<(), RegexError>(e) && final(self).emitter() == old(
                    self,
                ).emitter().character_set_stop(old(self).source()),
            },
    {
        let ghost before = self.emitter();
        let ghost src = self.source();
        self.set_level_start();
        self.store_opcode(CompiledOp::CharSet);

        let mut complement = false;
        if self.pos < self.pattern.len() && self.pattern[self.pos] == '^' {
            complement = true;
            self.pos += 1;
        }
        self.store(
            if complement {
                1
            } else {
                0
            },
        );
        let num_ranges_pos = self.buffer.len();
        self.store(0);

        let ghost body = self.pos as int;
        let ghost headed = self.emitter();
        let ghost begun = seq![
            CompiledOp::CharSet.spec_to_byte(),
            if complement {
                1u8
            } else {
                0u8
            },
            0u8,
        ];
        assert(headed.buffer =~= before.buffer + begun);
        assert(headed == (Emitter { pos: body, ..before }).mark().emit(begun));
        let mut ranges: Vec<(char, char)> = Vec::new();
        let mut prev_char: Option<char> = None;
        let mut in_range = false;
        let mut first_char = true;
        let mut found_closing = false;
        assert(ranges@ =~= ClassScan::fresh().ranges);
        while self.pos < self.pattern.len()
            invariant_except_break
                src.scan_class(body, ClassScan::fresh()) == src.scan_class(
                    self.pos as int,
                    ClassScan { ranges: ranges@, prev: prev_char, in_range, first: first_char },
                ),
                src.scan_class_stop(body, ClassScan::fresh()) == src.scan_class_stop(
                    self.pos as int,
                    ClassScan { ranges: ranges@, prev: prev_char, in_range, first: first_char },
                ),
                !found_closing,
            invariant
                headed == (Emitter { pos: body, ..before }).mark().emit(begun),
                begun == seq![
                    CompiledOp::CharSet.spec_to_byte(),
                    if complement {
                        1u8
                    } else {
                        0u8
                    },
                    0u8,
                ],
                self.inv(),
                self.same_job(old(self)),
                src == self.source(),
                src == old(self).source(),
                before == old(self).emitter(),
                self.emitter() == (Emitter { pos: self.pos as int, ..headed }),
                complement == (before.pos < src.pattern.len() && src.pattern[before.pos] == '^'),
                body == if complement {
                    before.pos + 1
                } else {
                    before.pos
                },
            ensures
                self.inv(),
                self.same_job(old(self)),
                src == self.source(),
                self.emitter() == (Emitter { pos: self.pos as int, ..headed }),
                !found_closing ==> src.scan_class(body, ClassScan::fresh()) == Err::<
                    (Seq<(char, char)>, int),
                    RegexError,
                >(RegexError::PrematureEnd) && src.scan_class_stop(body, ClassScan::fresh())
                    == self.pos,
                headed == (Emitter { pos: body, ..before }).mark().emit(begun),
                begun == seq![
                    CompiledOp::CharSet.spec_to_byte(),
                    if complement {
                        1u8
                    } else {
                        0u8
                    },
                    0u8,
                ],
                src == old(self).source(),
                before == old(self).emitter(),
                complement == (before.pos < src.pattern.len() && src.pattern[before.pos] == '^'),
                body == if complement {
                    before.pos + 1
                } else {
                    before.pos
                },
                found_closing ==> src.scan_class(body, ClassScan::fresh()) == Ok::<
                    (Seq<(char, char)>, int),
                    RegexError,
                >(
                    (
                        if in_range {
                            ranges@.push(('-', '-'))
                        } else {
                            ranges@
                        },
                        self.pos as int,
                    ),
                ),
            decreases self.pattern.len() - self.pos,
        {
            let ghost at = self.pos as int;
            let ch = self.pattern[self.pos];
            self.pos += 1;
            if ch == ']' && !first_char {
                found_closing = true;
                break ;
            }
            let ghost scan = ClassScan {
                ranges: ranges@,
                prev: prev_char,
                in_range,
                first: first_char,
            };
            first_char = false;

            let mut actual_char = ch;
            if ch == '\\' && self.syntax.ansi_sequences() && self.pos < self.pattern.len() {
                let escaped = self.pattern[self.pos];
                self.pos += 1;
                actual_char =
                match self.ansi_translate(escaped) {
                    Ok(out) => out,
                    Err(e) => {
                        proof {
                            let stop = src.ansi_translate_stop(at + 2, escaped);
                            assert(src.scan_class_stop(at, scan) == stop);
                            assert(self.emitter() == (Emitter { pos: stop, ..headed }));
                            assert(src.scan_class_stop(body, ClassScan::fresh()) == stop);
                            let target = before.character_set_stop(src);
                            let flagged = before.pos < src.pattern.len() && src.pattern[before.pos]
                                == '^';
                            assert(flagged == complement);
                            assert(body == if flagged {
                                before.pos + 1
                            } else {
                                before.pos
                            });
                            assert(begun =~= seq![
                                CompiledOp::CharSet.spec_to_byte(),
                                if flagged {
                                    1u8
                                } else {
                                    0u8
                                },
                                0u8,
                            ]);
                            assert(target == (Emitter { pos: stop, ..before }).mark().emit(begun));
                            assert(target.buffer =~= headed.buffer);
                            assert(target.starts =~= headed.starts);
                            assert(target == (Emitter { pos: stop, ..headed }));
                        }
                        return Err(e);
                    },
                };
            }
            actual_char = self.apply_translation(actual_char);

            if in_range {
                match prev_char {
                    Some(start_char) => {
                        ranges.push((start_char, actual_char));
                    },
                    None => {},
                }
                in_range = false;
                prev_char = None;
            } else if ch == '-' && prev_char.is_some() && self.pos < self.pattern.len()
                && self.pattern[self.pos] != ']' {
                in_range = true;
            } else {
                ranges.push((actual_char, actual_char));
                prev_char = Some(actual_char);
            }
            assert(ClassScan { ranges: ranges@, prev: prev_char, in_range, first: first_char }
                == scan.take(src, ch, actual_char, self.pos as int));
        }

        if !found_closing {
            return Err(RegexError::PrematureEnd);
        }
        if in_range {
            ranges.push(('-', '-'));
        }
        let count = (ranges.len() % 256) as u8;
        self.buffer[num_ranges_pos] = count;

        let ghost counted = self.emitter();
        let mut i: usize = 0;
        while i < ranges.len()
            invariant
                0 <= i <= ranges.len(),
                self.inv(),
                self.same_job(old(self)),
                self.emitter() == counted.emit(range_operands(ranges@.take(i as int))),
            decreases ranges.len() - i,
        {
            let range = ranges[i];
            self.store_char(range.0);
            self.store_char(range.1);
            proof {
                let upto = ranges@.take(i as int + 1);
                assert(upto.drop_last() =~= ranges@.take(i as int));
                assert(upto.last() == range);
                assert(self.emitter().buffer =~= counted.buffer + range_operands(upto));
            }
            i += 1;
        }
        proof {
            assert(ranges@.take(ranges.len() as int) =~= ranges@);
            let done = before.character_set(src)->Ok_0;
            assert(self.emitter().buffer =~= done.buffer);
        }
        Ok(())
    }
    /// Lowers a repetition operator, `?`, `*` or `+`, written `symbol`.
    #[verifier::rlimit(50)]
    fn process_repeat(&mut self, op: SyntaxOp, symbol: char) -> (res: Result<(), RegexError>)
        requires
            old(self).inv(),
            op == SyntaxOp::Optional || op == SyntaxOp::Star || op == SyntaxOp::Plus,
        ensures
            final(self).same_job(old(self)),
            final(self).inv(),
            match old(self).emitter().repeat(old(self).source(), op, symbol) {
                Ok(done) => res is Ok && final(self).emitter() == done,
                Err(e) => res == Err::<(), RegexError>(e) && final(self).emitter() == old(
                    self,
                ).emitter(),
            },
    {
        if self.beginning_context {
            if self.syntax.context_indep_ops() {
                return Err(RegexError::BadSpecialChar);
            } else {
                self.set_level_start();
                self.store_opcode_and_char(CompiledOp::Exact, symbol);
                return Ok(());
            }
        }
        let start = self.current_level_start();
        let end = self.buffer.len();
        if start == end {
            return Ok(());
        }
        if end > usize::MAX - 9 {
            return Err(RegexError::OutOfMemory);
        }
        match op {
            SyntaxOp::Optional => {
                self.insert_jump(start, CompiledOp::FailureJump, end + 3);
            },
            _ => {
                self.insert_jump(start, CompiledOp::FailureJump, end + 6);
                self.insert_jump(end + 3, CompiledOp::StarJump, start);
                match op {
                    SyntaxOp::Plus => {
                        self.insert_jump(start, CompiledOp::DummyFailureJump, start + 6);
                    },
                    _ => {},
                }
            },
        }
        Ok(())
    }

    /// Lowers an alternation.
    #[verifier::rlimit(50)]
    fn process_alternation(&mut self) -> (res: Result<(), RegexError>)
        requires
            old(self).inv(),
        ensures
            final(self).same_job(old(self)),
            final(self).inv(),
            match old(self).emitter().alternate() {
                Ok(done) => res is Ok && final(self).emitter() == done,
                Err(e) => res == Err::<(), RegexError>(e) && final(self).emitter() == old(
                    self,
                ).emitter().alternate_stop(),
            },
    {
        let start = self.current_level_start();
        let end = self.buffer.len();
        if end > usize::MAX - 9 {
            return Err(RegexError::OutOfMemory);
        }
        self.insert_jump(start, CompiledOp::FailureJump, end + 6);
        if self.num_jumps >= MAX_NESTING {
            return Err(RegexError::TooComplex);
        }
        self.store_opcode(CompiledOp::Jump);
        let field = self.buffer.len();
        self.store(0);
        self.store(0);
        self.future_jumps[self.num_jumps] = field;
        self.num_jumps += 1;
        self.set_level_start();
        proof {
            let done = old(self).emitter().alternate()->Ok_0;
            assert(self.emitter().buffer =~= done.buffer);
        }
        Ok(())
    }

    /// Lowers the opening of a group.
    fn process_open_group(&mut self) -> (res: Result<(), RegexError>)
        requires
            old(self).inv(),
        ensures
            final(self).same_job(old(self)),
            res is Ok ==> final(self).inv(),
            match old(self).emitter().open_group() {
                Ok(done) => res is Ok && final(self).emitter() == done,
                Err(e) => res == Err::<(), RegexError>(e) && final(self).emitter() == old(
                    self,
                ).emitter().open_group_stop(),
            },
    {
        self.set_level_start();
        if (self.next_register as usize) < RE_NREGS {
            self.store_opcode_and_arg(CompiledOp::StartMemory, self.next_register);
            self.open_registers[self.num_open_registers] = self.next_register;
            self.num_open_registers += 1;
            self.next_register += 1;
        }
        self.paren_depth += 1;
        match self.push_level_starts() {
            Ok(_) => {},
            Err(e) => {
                return Err(e);
            },
        }
        self.current_level = 0;
        self.set_level_start();
        Ok(())
    }

    /// Lowers the closing of a group.
    fn process_close_group(&mut self)
        requires
            old(self).inv(),
        ensures
            final(self).same_job(old(self)),
            final(self).inv(),
            final(self).emitter() == old(self).emitter().close_group(old(self).source()),
    {
        if self.paren_depth > 0 {
            self.pop_level_starts();
            self.current_level = self.level_of(SyntaxOp::OpenPar) as usize;
            self.paren_depth -= 1;
            if self.paren_depth < self.num_open_registers {
                self.num_open_registers -= 1;
                self.store_opcode_and_arg(
                    CompiledOp::EndMemory,
                    self.open_registers[self.num_open_registers],
                );
            }
        } else {
            self.set_level_start();
            self.store_opcode_and_char(CompiledOp::Exact, ')');
        }
    }

    /// Lowers a two-digit back-reference.
    fn process_extended_memory(&mut self) -> (res: Result<(), RegexError>)
        requires
            old(self).inv(),
        ensures
            final(self).same_job(old(self)),
            final(self).inv(),
            match old(self).emitter().extended_memory(old(self).source()) {
                Ok(done) => res is Ok && final(self).emitter() == done,
                Err(e) => res == Err::<(), RegexError>(e) && final(self).emitter() == old(
                    self,
                ).emitter().extended_memory_stop(old(self).source()),
            },
    {
        let tens = match self.next_char() {
            Ok(ch) => ch,
            Err(e) => {
                return Err(e);
            },
        };
        let ones = match self.next_char() {
            Ok(ch) => ch,
            Err(e) => {
                return Err(e);
            },
        };
        if !('0' <= tens && tens <= '9') || !('0' <= ones && ones <= '9') {
            return Err(RegexError::BadBackReference);
        }
        let reg_num: u8 = ((tens as u32 - '0' as u32) * 10 + (ones as u32 - '0' as u32)) as u8;
        if reg_num == 0 || reg_num as usize >= RE_NREGS {
            return Err(RegexError::BadBackReference);
        }
        self.set_level_start();
        self.store_opcode_and_arg(CompiledOp::MatchMemory, reg_num);
        Ok(())
    }

    /// Lowers an anchor, `^` or `$`, written `symbol`.
    fn process_anchor(&mut self, in_context: bool, anchor: CompiledOp, symbol: char) -> (res:
        Result<(), RegexError>)
        requires
            old(self).inv(),
        ensures
            final(self).same_job(old(self)),
            final(self).inv(),
            match old(self).emitter().anchor(old(self).source(), in_context, anchor, symbol) {
                Ok(done) => res is Ok && final(self).emitter() == done,
                Err(e) => res == Err::<(), RegexError>(e) && final(self).emitter() == old(
                    self,
                ).emitter(),
            },
    {
        if !in_context && !self.syntax.context_indep_ops() {
            self.set_level_start();
            self.store_opcode_and_char(CompiledOp::Exact, symbol);
        } else if !in_context {
            return Err(RegexError::BadSpecialChar);
        } else {
            self.set_level_start();
            self.store_opcode(anchor);
        }
        Ok(())
    }

    /// Lowers an expression that is one instruction without operands.
    fn process_simple(&mut self, opcode: CompiledOp)
        requires
            old(self).inv(),
        ensures
            final(self).same_job(old(self)),
            final(self).inv(),
            final(self).emitter() == old(self).emitter().simple(opcode),
    {
        self.set_level_start();
        self.store_opcode(opcode);
    }

    /// Lowers an expression that is one instruction with a one-byte
    /// operand.
    fn process_with_arg(&mut self, opcode: CompiledOp, arg: u8)
        requires
            old(self).inv(),
        ensures
            final(self).same_job(old(self)),
            final(self).inv(),
            final(self).emitter() == old(self).emitter().with_arg(opcode, arg),
    {
        self.set_level_start();
        self.store_opcode_and_arg(opcode, arg);
    }

    /// Lowers the operator `op`, which was read with the character `ch`.
    /// The backslash has no lowering of its own: it is resolved where the
    /// operator is read, and is an error here. Where the lowering fails, the
    /// compiler is left as the model of the failure says: unchanged by a
    /// repetition, an anchor, a one-digit back-reference or the backslash.
    #[verifier::rlimit(50)]
    pub fn process_operation(&mut self, op: SyntaxOp, ch: char) -> (res: Result<(), RegexError>)
        requires
            old(self).inv(),
            op == SyntaxOp::Memory ==> is_digit(ch),
        ensures
            final(self).same_job(old(self)),
            res is Ok ==> final(self).inv(),
            match old(self).emitter().process(old(self).source(), op, ch) {
                Ok(done) => res is Ok && final(self).emitter() == done,
                Err(e) => res is Err && alike(res->Err_0, e) && (op != SyntaxOp::Quote ==> res
                    == Err::<(), RegexError>(e)) && final(self).emitter() == old(
                    self,
                ).emitter().process_stop(old(self).source(), op),
            },
    {
        match op {
            SyntaxOp::End => {},
            SyntaxOp::Quote => {
                let msg = String::from_str("Unimplemented operation: Quote");
                assert(alike(RegexError::CompileError(msg), unimplemented_quote()));
                return Err(RegexError::CompileError(msg));
            },
            SyntaxOp::Normal => {
                self.set_level_start();
                self.store_opcode_and_char(CompiledOp::Exact, ch);
            },
            SyntaxOp::AnyChar => {
                self.process_simple(CompiledOp::AnyChar);
            },
            SyntaxOp::Bol => {
                let in_context = self.beginning_context;
                return self.process_anchor(in_context, CompiledOp::Bol, '^');
            },
            SyntaxOp::Eol => {
                let in_context = self.is_eol_context();
                return self.process_anchor(in_context, CompiledOp::Eol, '$');
            },
            SyntaxOp::Optional => {
                return self.process_repeat(op, '?');
            },
            SyntaxOp::Star => {
                return self.process_repeat(op, '*');
            },
            SyntaxOp::Plus => {
                return self.process_repeat(op, '+');
            },
            SyntaxOp::Or => {
                return self.process_alternation();
            },
            SyntaxOp::OpenPar => {
                return self.process_open_group();
            },
            SyntaxOp::ClosePar => {
                self.process_close_group();
            },
            SyntaxOp::Memory => {
                if ch == '0' {
                    return Err(RegexError::BadBackReference);
                }
                let reg_num = (ch as u32 - '0' as u32) as u8;
                self.process_with_arg(CompiledOp::MatchMemory, reg_num);
            },
            SyntaxOp::OpenSet => {
                return self.compile_character_set();
            },
            SyntaxOp::WordBound => {
                self.process_simple(CompiledOp::WordBound);
            },
            SyntaxOp::NotWordBound => {
                self.process_simple(CompiledOp::NotWordBound);
            },
            SyntaxOp::WordChar => {
                self.process_with_arg(CompiledOp::SyntaxSpec, 1);
            },
            SyntaxOp::NotWordChar => {
                self.process_with_arg(CompiledOp::NotSyntaxSpec, 1);
            },
            SyntaxOp::WordBeg => {
                self.process_simple(CompiledOp::WordBeg);
            },
            SyntaxOp::WordEnd => {
                self.process_simple(CompiledOp::WordEnd);
            },
            SyntaxOp::BegBuf => {
                self.process_simple(CompiledOp::BegBuf);
            },
            SyntaxOp::EndBuf => {
                self.process_simple(CompiledOp::EndBuf);
            },
            SyntaxOp::ExtendedMemory => {
                return self.process_extended_memory();
            },
        }
        Ok(())
    }

    /// Reads the operator at the cursor, with the character that belongs
    /// to it. A backslash takes the next character with it.
    #[verifier::rlimit(50)]
    pub fn read_op(&mut self) -> (res: Result<(SyntaxOp, char), RegexError>)
        requires
            old(self).inv(),
            old(self).emitter().pos < old(self).source().pattern.len(),
        ensures
            final(self).same_job(old(self)),
            final(self).inv(),
            match old(self).source().read_op(old(self).emitter().pos) {
                Ok((op, ch, next)) => res == Ok::<(SyntaxOp, char), RegexError>((op, ch))
                    && final(self).emitter() == (Emitter { pos: next, ..old(self).emitter() })
                    && op != SyntaxOp::Quote && (op == SyntaxOp::Memory ==> is_digit(ch)),
                Err(e) => res == Err::<(SyntaxOp, char), RegexError>(e) && final(self).emitter()
                    == (Emitter {
                    pos: old(self).source().read_op_stop(old(self).emitter().pos),
                    ..old(self).emitter()
                }),
            },
    {
        let raw = match self.next_char() {
            Ok(ch) => ch,
            Err(e) => {
                return Err(e);
            },
        };
        let mut ch = self.apply_translation(raw);
        let mut op = self.plain_lookup(ch);
        if op == SyntaxOp::Quote {
            ch =
            match self.next_char() {
                Ok(ch) => ch,
                Err(e) => {
                    return Err(e);
                },
            };
            op = self.quoted_lookup(ch);
            proof {
                lemma_char_value(ch);
            }
            if op == SyntaxOp::Normal && self.syntax.ansi_sequences() {
                ch =
                match self.ansi_translate(ch) {
                    Ok(ch) => ch,
                    Err(e) => {
                        return Err(e);
                    },
                };
            }
        }
        Ok((op, ch))
    }

    /// One round of the compiler: reads an operator, moves to its
    /// precedence level and lowers it.
    #[verifier::rlimit(50)]
    pub fn round(&mut self) -> (res: Result<(), RegexError>)
        requires
            old(self).inv(),
            old(self).emitter().pos < old(self).source().pattern.len(),
        ensures
            final(self).same_job(old(self)),
            res is Ok ==> final(self).inv(),
            match old(self).emitter().round(old(self).source()) {
                Ok(done) => res is Ok && final(self).emitter() == done,
                Err(e) => res == Err::<(), RegexError>(e) && final(self).emitter() == old(
                    self,
                ).emitter().round_stop(old(self).source()),
            },
    {
        let (op, ch) = match self.read_op() {
            Ok(pair) => pair,
            Err(e) => {
                return Err(e);
            },
        };
        let level = self.level_of(op);
        let _ = self.handle_precedence(level);
        match self.process_operation(op, ch) {
            Ok(_) => {},
            Err(e) => {
                return Err(e);
            },
        }
        self.beginning_context = op == SyntaxOp::OpenPar || op == SyntaxOp::Or;
        Ok(())
    }

    /// Compiles the rest of the pattern and hands out the compiled
    /// pattern.
    pub fn compile(self) -> (res: Result<Regex, RegexError>)
        requires
            self.inv(),
        ensures
            match self.emitter().mark().finish(self.source()) {
                Ok(code) => res is Ok && res->Ok_0.code() == code && res->Ok_0.translation()
                    == self.source().translate && res->Ok_0.dialect() == self.source().syntax,
                Err(e) => res is Err && res->Err_0 == e,
            },
    {
        let mut this = self;
        let ghost src = this.source();
        let ghost goal = this.emitter().mark().finish(src);
        this.set_level_start();
        while this.pos < this.pattern.len()
            invariant
                this.inv(),
                this.source() == src,
                src == self.source(),
                goal == self.emitter().mark().finish(src),
                this.emitter().finish(src) == goal,
            decreases this.pattern.len() - this.pos,
        {
            let ghost before = this.emitter();
            match this.round() {
                Ok(_) => {},
                Err(e) => {
                    return Err(e);
                },
            }
            proof {
                lemma_round_advances(before, src);
            }
        }
        let level = this.level_of(SyntaxOp::End);
        let _ = this.handle_precedence(level);
        this.store_opcode(CompiledOp::End);
        assert(this.buffer@ =~= goal->Ok_0);
        Ok(Regex { buffer: this.buffer, translate: this.translate, syntax: this.syntax })
    }
}

/// The value of a hexadecimal digit; an error for any other character.
pub fn hex_char_to_decimal(ch: char) -> (res: Result<u8, RegexError>)
    ensures
        match hex_value(ch) {
            Some(value) => res == Ok::<u8, RegexError>(value) && value <= 15,
            None => res == Err::<u8, RegexError>(RegexError::BadHexEscape),
        },
{
    if '0' <= ch && ch <= '9' {
        Ok((ch as u32 - '0' as u32) as u8)
    } else if 'a' <= ch && ch <= 'f' {
        Ok((ch as u32 - 'a' as u32 + 10) as u8)
    } else if 'A' <= ch && ch <= 'F' {
        Ok((ch as u32 - 'A' as u32 + 10) as u8)
    } else {
        Err(RegexError::BadHexEscape)
    }
}

/// Compiles `pattern` under the dialect `syntax`: the compiled pattern holds
/// the code that the lowering gives, no translation, and the dialect; where
/// the lowering fails, its error is the result.
pub fn compile(pattern: &str, syntax: SyntaxFlags) -> (res: Result<Regex, RegexError>)
    ensures
        match compiled(pattern@, syntax) {
            Ok(code) => res is Ok && res->Ok_0.code() == code && res->Ok_0.translation() is None
                && res->Ok_0.dialect() == syntax,
            Err(e) => res is Err && res->Err_0 == e,
        },
{
    match Compiler::new(pattern, syntax) {
        Ok(compiler) => compiler.compile(),
        Err(e) => Err(e),
    }
}

} // verus!
