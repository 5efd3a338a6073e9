//! Dialect flags: which characters are operators, and how they bind.

use vstd::prelude::*;

verus! {

/// Bit of the flag under which `(` and `)` group without a backslash.
pub const NO_BK_PARENS_BIT: u32 = 1;

/// Bit of the flag under which `|` alternates without a backslash.
pub const NO_BK_VBAR_BIT: u32 = 2;

/// Bit of the flag under which `+` and `?` are operators only after a backslash.
pub const BK_PLUS_QM_BIT: u32 = 4;

/// Bit of the flag under which `|` binds tighter than `^` and `$`.
pub const TIGHT_VBAR_BIT: u32 = 8;

/// Bit of the flag under which a newline in the pattern alternates.
pub const NEWLINE_OR_BIT: u32 = 16;

/// Bit of the flag under which `^ $ ? * +` are operators wherever they stand.
pub const CONTEXT_INDEP_OPS_BIT: u32 = 32;

/// Bit of the flag that enables `\n`, `\t`, ... and `\xHH`.
pub const ANSI_HEX_BIT: u32 = 64;

/// Bit of the flag that switches the GNU escapes (`\w`, `\b`, ...) off.
pub const NO_GNU_EXTENSIONS_BIT: u32 = 128;

/// Bit of the flag that asks for case-insensitive matching.
pub const CASE_INSENSITIVE_BIT: u32 = 256;

/// A set of dialect flags.
#[derive(Debug, Clone, Copy, PartialEq, Eq, Structural)]
pub struct SyntaxFlags(u32);

impl View for SyntaxFlags {
    type V = u32;

    /// The flags as a bit set.
    closed spec fn view(&self) -> u32 {
        self.0
    }
}

impl SyntaxFlags {
    /// The set that holds exactly the given bits.
    pub closed spec fn with_bits(bits: u32) -> SyntaxFlags {
        SyntaxFlags(bits)
    }

    /// Does the set share a bit with `bits`?
    pub open spec fn has(self, bits: u32) -> bool {
        self@ & bits != 0
    }

    /// Is the flag for bare parentheses unset?
    pub open spec fn spec_needs_backslash_parens(self) -> bool {
        !self.has(NO_BK_PARENS_BIT)
    }

    /// Is the flag for a bare bar unset?
    pub open spec fn spec_needs_backslash_vbar(self) -> bool {
        !self.has(NO_BK_VBAR_BIT)
    }

    /// Is the flag for quoted `+` and `?` set?
    pub open spec fn spec_needs_backslash_plus_qm(self) -> bool {
        self.has(BK_PLUS_QM_BIT)
    }

    /// Is the flag for a tight bar set?
    pub open spec fn spec_tight_vbar(self) -> bool {
        self.has(TIGHT_VBAR_BIT)
    }

    /// Is the flag for the alternating newline set?
    pub open spec fn spec_newline_or(self) -> bool {
        self.has(NEWLINE_OR_BIT)
    }

    /// Is the flag for operators in every context set?
    pub open spec fn spec_context_indep_ops(self) -> bool {
        self.has(CONTEXT_INDEP_OPS_BIT)
    }

    /// Is the flag for ANSI escapes set?
    pub open spec fn spec_ansi_sequences(self) -> bool {
        self.has(ANSI_HEX_BIT)
    }

    /// Is the flag that switches the GNU escapes off set?
    pub open spec fn spec_no_gnu_extensions(self) -> bool {
        self.has(NO_GNU_EXTENSIONS_BIT)
    }

    /// Is the flag for case-insensitive matching set?
    pub open spec fn spec_case_insensitive(self) -> bool {
        self.has(CASE_INSENSITIVE_BIT)
    }

    /// `(` and `)` group without a backslash.
    #[allow(non_snake_case)]
    pub fn NO_BK_PARENS() -> (flags: Self)
        ensures
            flags == SyntaxFlags::with_bits(NO_BK_PARENS_BIT),
            flags@ == NO_BK_PARENS_BIT,
    {
        SyntaxFlags(NO_BK_PARENS_BIT)
    }

    /// `|` alternates without a backslash.
    #[allow(non_snake_case)]
    pub fn NO_BK_VBAR() -> (flags: Self)
        ensures
            flags == SyntaxFlags::with_bits(NO_BK_VBAR_BIT),
            flags@ == NO_BK_VBAR_BIT,
    {
        SyntaxFlags(NO_BK_VBAR_BIT)
    }

    /// `\+` and `\?` are the operators, `+` and `?` are literal.
    #[allow(non_snake_case)]
    pub fn BK_PLUS_QM() -> (flags: Self)
        ensures
            flags == SyntaxFlags::with_bits(BK_PLUS_QM_BIT),
            flags@ == BK_PLUS_QM_BIT,
    {
        SyntaxFlags(BK_PLUS_QM_BIT)
    }

    /// `|` binds tighter than `^` and `$`.
    #[allow(non_snake_case)]
    pub fn TIGHT_VBAR() -> (flags: Self)
        ensures
            flags == SyntaxFlags::with_bits(TIGHT_VBAR_BIT),
            flags@ == TIGHT_VBAR_BIT,
    {
        SyntaxFlags(TIGHT_VBAR_BIT)
    }

    /// A newline in the pattern alternates.
    #[allow(non_snake_case)]
    pub fn NEWLINE_OR() -> (flags: Self)
        ensures
            flags == SyntaxFlags::with_bits(NEWLINE_OR_BIT),
            flags@ == NEWLINE_OR_BIT,
    {
        SyntaxFlags(NEWLINE_OR_BIT)
    }

    /// `^ $ ? * +` are operators in every context.
    #[allow(non_snake_case)]
    pub fn CONTEXT_INDEP_OPS() -> (flags: Self)
        ensures
            flags == SyntaxFlags::with_bits(CONTEXT_INDEP_OPS_BIT),
            flags@ == CONTEXT_INDEP_OPS_BIT,
    {
        SyntaxFlags(CONTEXT_INDEP_OPS_BIT)
    }

    /// ANSI escapes and `\xHH` are recognised.
    #[allow(non_snake_case)]
    pub fn ANSI_HEX() -> (flags: Self)
        ensures
            flags == SyntaxFlags::with_bits(ANSI_HEX_BIT),
            flags@ == ANSI_HEX_BIT,
    {
        SyntaxFlags(ANSI_HEX_BIT)
    }

    /// The GNU escapes are switched off.
    #[allow(non_snake_case)]
    pub fn NO_GNU_EXTENSIONS() -> (flags: Self)
        ensures
            flags == SyntaxFlags::with_bits(NO_GNU_EXTENSIONS_BIT),
            flags@ == NO_GNU_EXTENSIONS_BIT,
    {
        SyntaxFlags(NO_GNU_EXTENSIONS_BIT)
    }

    /// Case-insensitive matching.
    #[allow(non_snake_case)]
    pub fn CASE_INSENSITIVE() -> (flags: Self)
        ensures
            flags == SyntaxFlags::with_bits(CASE_INSENSITIVE_BIT),
            flags@ == CASE_INSENSITIVE_BIT,
    {
        SyntaxFlags(CASE_INSENSITIVE_BIT)
    }

    /// The AWK dialect: bare parentheses and bars, operators in every context.
    #[allow(non_snake_case)]
    pub fn AWK() -> (flags: Self)
        ensures
            flags == SyntaxFlags::with_bits(35),
            flags@ == 35,
            flags@ == NO_BK_PARENS_BIT | NO_BK_VBAR_BIT | CONTEXT_INDEP_OPS_BIT,
    {
        assert(1u32 | 2u32 | 32u32 == 35u32) by (bit_vector);
        SyntaxFlags(NO_BK_PARENS_BIT | NO_BK_VBAR_BIT | CONTEXT_INDEP_OPS_BIT)
    }

    /// The EGREP dialect: AWK, and a newline alternates.
    #[allow(non_snake_case)]
    pub fn EGREP() -> (flags: Self)
        ensures
            flags == SyntaxFlags::with_bits(51),
            flags@ == 51,
            flags@ == NO_BK_PARENS_BIT | NO_BK_VBAR_BIT | CONTEXT_INDEP_OPS_BIT | NEWLINE_OR_BIT,
    {
        assert(1u32 | 2u32 | 32u32 | 16u32 == 51u32) by (bit_vector);
        SyntaxFlags(NO_BK_PARENS_BIT | NO_BK_VBAR_BIT | CONTEXT_INDEP_OPS_BIT | NEWLINE_OR_BIT)
    }

    /// The GREP dialect: `\+` and `\?`, and a newline alternates.
    #[allow(non_snake_case)]
    pub fn GREP() -> (flags: Self)
        ensures
            flags == SyntaxFlags::with_bits(20),
            flags@ == 20,
            flags@ == BK_PLUS_QM_BIT | NEWLINE_OR_BIT,
    {
        assert(4u32 | 16u32 == 20u32) by (bit_vector);
        SyntaxFlags(BK_PLUS_QM_BIT | NEWLINE_OR_BIT)
    }

    /// The Emacs dialect, which is also the default: no flag set.
    #[allow(non_snake_case)]
    pub fn EMACS() -> (flags: Self)
        ensures
            flags == SyntaxFlags::with_bits(0),
            flags@ == 0,
    {
        SyntaxFlags(0)
    }

    /// The MOO dialect: Emacs with operators in every context.
    #[allow(non_snake_case)]
    pub fn MOO() -> (flags: Self)
        ensures
            flags == SyntaxFlags::with_bits(CONTEXT_INDEP_OPS_BIT),
            flags@ == CONTEXT_INDEP_OPS_BIT,
    {
        SyntaxFlags(CONTEXT_INDEP_OPS_BIT)
    }

    /// The empty set of flags.
    pub fn empty() -> (flags: Self)
        ensures
            flags == SyntaxFlags::with_bits(0),
            flags@ == 0,
    {
        SyntaxFlags(0)
    }

    /// Does this set share a flag with `flag`?
    pub fn contains(self, flag: Self) -> (found: bool)
        ensures
            found == self.has(flag@),
    {
        self.0 & flag.0 != 0
    }

    /// The flags as raw bits.
    pub fn bits(self) -> (bits: u32)
        ensures
            bits == self@,
    {
        self.0
    }

    /// The set with exactly the given bits; no bit is dropped.
    pub fn from_bits_truncate(bits: u32) -> (flags: Self)
        ensures
            flags == SyntaxFlags::with_bits(bits),
            flags@ == bits,
    {
        SyntaxFlags(bits)
    }

    /// Must `(` and `)` be written `\(` and `\)` to group?
    #[verifier::when_used_as_spec(spec_needs_backslash_parens)]
    pub fn needs_backslash_parens(self) -> (needed: bool)
        ensures
            needed == self.spec_needs_backslash_parens(),
    {
        !self.contains(SyntaxFlags(NO_BK_PARENS_BIT))
    }

    /// Must `|` be written `\|` to alternate?
    #[verifier::when_used_as_spec(spec_needs_backslash_vbar)]
    pub fn needs_backslash_vbar(self) -> (needed: bool)
        ensures
            needed == self.spec_needs_backslash_vbar(),
    {
        !self.contains(SyntaxFlags(NO_BK_VBAR_BIT))
    }

    /// Must `+` and `?` be written `\+` and `\?` to repeat?
    #[verifier::when_used_as_spec(spec_needs_backslash_plus_qm)]
    pub fn needs_backslash_plus_qm(self) -> (needed: bool)
        ensures
            needed == self.spec_needs_backslash_plus_qm(),
    {
        self.contains(SyntaxFlags(BK_PLUS_QM_BIT))
    }

    /// Does `|` bind tighter than `^` and `$`?
    #[verifier::when_used_as_spec(spec_tight_vbar)]
    pub fn tight_vbar(self) -> (set: bool)
        ensures
            set == self.spec_tight_vbar(),
    {
        self.contains(SyntaxFlags(TIGHT_VBAR_BIT))
    }

    /// Does a newline in the pattern alternate?
    #[verifier::when_used_as_spec(spec_newline_or)]
    pub fn newline_or(self) -> (set: bool)
        ensures
            set == self.spec_newline_or(),
    {
        self.contains(SyntaxFlags(NEWLINE_OR_BIT))
    }

    /// Are `^ $ ? * +` operators wherever they stand?
    #[verifier::when_used_as_spec(spec_context_indep_ops)]
    pub fn context_indep_ops(self) -> (set: bool)
        ensures
            set == self.spec_context_indep_ops(),
    {
        self.contains(SyntaxFlags(CONTEXT_INDEP_OPS_BIT))
    }

    /// Are ANSI escapes and `\xHH` recognised?
    #[verifier::when_used_as_spec(spec_ansi_sequences)]
    pub fn ansi_sequences(self) -> (set: bool)
        ensures
            set == self.spec_ansi_sequences(),
    {
        self.contains(SyntaxFlags(ANSI_HEX_BIT))
    }

    /// Are the GNU escapes switched off?
    #[verifier::when_used_as_spec(spec_no_gnu_extensions)]
    pub fn no_gnu_extensions(self) -> (set: bool)
        ensures
            set == self.spec_no_gnu_extensions(),
    {
        self.contains(SyntaxFlags(NO_GNU_EXTENSIONS_BIT))
    }

    /// Is case-insensitive matching asked for?
    #[verifier::when_used_as_spec(spec_case_insensitive)]
    pub fn case_insensitive(self) -> (set: bool)
        ensures
            set == self.spec_case_insensitive(),
    {
        self.contains(SyntaxFlags(CASE_INSENSITIVE_BIT))
    }
}

/// A set of flags is its bits: the set with given bits has those bits, and
/// every set is the one with its bits.
pub proof fn law_flags_are_bits(flags: SyntaxFlags, bits: u32)
    ensures
        SyntaxFlags::with_bits(bits)@ == bits,
        SyntaxFlags::with_bits(flags@) == flags,
{
}

impl Default for SyntaxFlags {
    /// The Emacs dialect.
    fn default() -> (flags: Self)
        ensures
            flags == SyntaxFlags::with_bits(0),
            flags@ == 0,
    {
        SyntaxFlags(0)
    }
}

} // verus!
