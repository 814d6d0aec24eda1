//! A single-pass statement tokenizer. It scans raw input bytes and yields one
//! statement at a time, tracking double quotes, single-quoted raw regions,
//! escapes, `${..}`/`@{..}` braced variable references, `$(..)` command and
//! `@(..)` process substitutions, `name(..)` method calls, `$((..))`
//! arithmetic expressions, literal brace grouping and comments.
//!
//! The scanner is modelled by the spec functions [`step`] (one byte) and
//! [`scan`] (to the next statement boundary); [`StatementSplitter::next`]
//! is proved to follow that model exactly.

use vstd::prelude::*;

verus! {

/// What a statement turned out to start with when no command could be read.
#[derive(Debug, PartialEq, Eq, Clone, Copy)]
pub enum CommandFound {
    /// The statement began with `>`, `<` or `^`.
    Redirection,
    /// The statement began with `|`.
    Pipe,
    /// The statement began with `&`.
    Ampersand,
}

/// A statement-scoped lexical error. Errors do not abort the scan: the
/// splitter reports the error for one statement and resumes with the next.
#[derive(Debug, PartialEq, Eq, Clone)]
pub enum StatementError {
    /// The statement's command name starts with a glob or brace metacharacter.
    IllegalCommandName(Vec<u8>),
    /// A byte that is out of place, with its position (counted from 1).
    InvalidCharacter(u8, usize),
    /// End of input inside `$(..)` or `@(..)`.
    UnterminatedSubshell,
    /// End of input inside `${..}` or `@{..}`.
    UnterminatedBracedVar,
    /// End of input inside literal `{ .. }` grouping.
    UnterminatedBrace,
    /// End of input inside a `name(..)` method-call argument list.
    UnterminatedMethod,
    /// End of input inside `$((..))`.
    UnterminatedArithmetic,
    /// The statement starts with an operator instead of a command.
    ExpectedCommandButFound(CommandFound),
}

/// Spec-level mirror of [`StatementError`], over mathematical sequences.
pub enum ErrSpec {
    IllegalCommandName(Seq<u8>),
    InvalidCharacter(u8, int),
    UnterminatedSubshell,
    UnterminatedBracedVar,
    UnterminatedBrace,
    UnterminatedMethod,
    UnterminatedArithmetic,
    ExpectedCommandButFound(CommandFound),
}

/// The view of a [`StatementError`].
pub open spec fn err_view(e: StatementError) -> ErrSpec {
    match e {
        StatementError::IllegalCommandName(s) => ErrSpec::IllegalCommandName(s@),
        StatementError::InvalidCharacter(b, p) => ErrSpec::InvalidCharacter(b, p as int),
        StatementError::UnterminatedSubshell => ErrSpec::UnterminatedSubshell,
        StatementError::UnterminatedBracedVar => ErrSpec::UnterminatedBracedVar,
        StatementError::UnterminatedBrace => ErrSpec::UnterminatedBrace,
        StatementError::UnterminatedMethod => ErrSpec::UnterminatedMethod,
        StatementError::UnterminatedArithmetic => ErrSpec::UnterminatedArithmetic,
        StatementError::ExpectedCommandButFound(f) => ErrSpec::ExpectedCommandButFound(f),
    }
}

/// Returns true if the byte matches `[^A-Za-z0-9_]`: such a byte ends an
/// identifier scan.
pub fn is_invalid(byte: u8) -> (r: bool)
    ensures
        r == !is_word_byte(byte),
{
    byte <= 47 || (byte >= 58 && byte <= 64) || (byte >= 91 && byte <= 94) || byte == 96
        || (byte >= 123 && byte <= 127)
}

/// A byte that may stand in an identifier: `[A-Za-z0-9_]`, or a byte beyond
/// ASCII (the scanner leaves multi-byte sequences to the expansion stage).
pub open spec fn is_word_byte(b: u8) -> bool {
    (48 <= b <= 57) || (65 <= b <= 90) || b == 95 || (97 <= b <= 122) || b >= 128
}

/// Inside a `${..}`/`@{..}` braced reference only identifier bytes, `:`, `,`
/// and the closing `}` are legal; any other byte is a lexical error.
pub open spec fn is_vbrace_invalid(b: u8) -> bool {
    b <= 43 || (45 <= b <= 47) || (59 <= b <= 64) || (91 <= b <= 94) || b == 96
        || (123 <= b <= 124) || (126 <= b <= 127)
}

/// ASCII whitespace, as trimmed from the ends of every emitted statement.
pub open spec fn is_ws(b: u8) -> bool {
    b == 32 || (9 <= b <= 13)
}

/// A sequence with leading and trailing ASCII whitespace removed.
pub open spec fn trim_seq(s: Seq<u8>) -> Seq<u8>
    decreases s.len(),
{
    if s.len() == 0 {
        s
    } else if is_ws(s[0]) {
        trim_seq(s.drop_first())
    } else if is_ws(s.last()) {
        trim_seq(s.drop_last())
    } else {
        s
    }
}

/// The bytes of the synthetic statement emitted for a lone `else`.
pub open spec fn else_bytes() -> Seq<u8> {
    seq![101u8, 108u8, 115u8, 101u8]
}

/// The bytes of the keyword `if`, checked after a lone `else`.
pub open spec fn if_bytes() -> Seq<u8> {
    seq![105u8, 102u8]
}

/// Index just past the single-quoted region that starts at `i` (the byte at
/// `i - 1` was the opening quote). A backslash escapes the next byte even
/// here; the region ends at the first unescaped single quote, or at the end
/// of the input.
pub open spec fn squote_end(data: Seq<u8>, i: int) -> int
    decreases data.len() - i,
{
    if i < 0 || i >= data.len() {
        i
    } else if data[i] == 92 {
        if i + 2 <= data.len() {
            squote_end(data, i + 2)
        } else {
            data.len() as int
        }
    } else if data[i] == 39 {
        i + 1
    } else {
        squote_end(data, i + 1)
    }
}

pub proof fn lemma_squote_end_bounds(data: Seq<u8>, i: int)
    requires
        0 <= i <= data.len(),
    ensures
        i <= squote_end(data, i) <= data.len(),
        i < data.len() ==> i < squote_end(data, i),
    decreases data.len() - i,
{
    if i < data.len() && data[i] == 92 {
        if i + 2 <= data.len() {
            lemma_squote_end_bounds(data, i + 2);
        }
    } else if i < data.len() && data[i] != 39 {
        lemma_squote_end_bounds(data, i + 1);
    }
}

/// A nesting counter one deeper. The counters saturate at the width of the
/// machine word that holds them: an input would need that many bytes of
/// nested openers (even counting rescans after a synthetic `else`) to reach
/// the cap, so saturation is unobservable, and it keeps every increment free
/// of overflow.
pub open spec fn sat_inc(x: int) -> int {
    if x < u64::MAX as int {
        x + 1
    } else {
        x
    }
}

/// The splitter's persistent state between two statements: the resume
/// offset, the mode flags and the nesting counters of the scanner.
pub struct LexSt {
    /// Byte offset at which the next call resumes.
    pub read: int,
    /// Inside an unescaped double-quoted region.
    pub dquote: bool,
    /// A bare `$` was just seen, awaiting disambiguation.
    pub comm1: bool,
    /// A bare `@` was just seen, awaiting disambiguation.
    pub comm2: bool,
    /// Inside a `${..}`/`@{..}` braced variable reference.
    pub vbrace: bool,
    /// Scanning an array-sigil identifier.
    pub array: bool,
    /// Scanning a scalar-sigil identifier.
    pub variab: bool,
    /// Inside a `name(..)` method-call argument list.
    pub method: bool,
    /// Inside a `$((..))` arithmetic expression.
    pub mathexpr: bool,
    /// The inner `)` of `$((..))` was just closed; the next byte is expected
    /// to be the second `)` and is consumed without interpretation.
    pub post_math: bool,
    /// Nesting depth of `$(..)` command substitutions (also the paren depth
    /// inside a method-call argument list).
    pub p: int,
    /// Nesting depth of `@(..)` process substitutions.
    pub ap: int,
    /// Nesting depth of unquoted literal `{ .. }` grouping.
    pub brace: int,
    /// Nesting depth of parentheses inside an arithmetic expression.
    pub mp: int,
}

impl LexSt {
    /// The state in which scanning of an input begins.
    pub open spec fn init() -> LexSt {
        LexSt {
            read: 0,
            dquote: false,
            comm1: false,
            comm2: false,
            vbrace: false,
            array: false,
            variab: false,
            method: false,
            mathexpr: false,
            post_math: false,
            p: 0,
            ap: 0,
            brace: 0,
            mp: 0,
        }
    }

    /// The read offset stays inside the input and all nesting counters stay
    /// non-negative and within their machine width.
    pub open spec fn wf(self, data: Seq<u8>) -> bool {
        0 <= self.read <= data.len() && 0 <= self.p <= u64::MAX && 0 <= self.ap <= u64::MAX
            && 0 <= self.brace <= u64::MAX && 0 <= self.mp <= u64::MAX
    }
}

/// The full scanning state while one statement is being read: the persistent
/// lexer state plus the locals of a single `next` call.
pub struct ScanSt {
    pub lex: LexSt,
    /// Offset of the first byte of the current statement.
    pub start: int,
    /// A first space-delimited word has been seen (and was not `else`).
    pub first_arg: bool,
    /// The first word was exactly `else`; the following word is inspected.
    pub else_found: bool,
    /// Offset just past the space that ended the word `else`.
    pub else_pos: int,
    /// The first lexical error recorded for this statement, if any.
    pub err: Option<ErrSpec>,
}

impl ScanSt {
    /// The scanning state at the start of a `next` call.
    pub open spec fn init(lex: LexSt) -> ScanSt {
        ScanSt { lex, start: lex.read, first_arg: false, else_found: false, else_pos: 0, err: None }
    }

    pub open spec fn wf(self, data: Seq<u8>) -> bool {
        self.lex.wf(data) && 0 <= self.start <= self.lex.read && (self.else_found
            ==> self.start < self.else_pos <= self.lex.read)
    }

    /// Record a lexical error, keeping an earlier one if present.
    pub open spec fn with_err(self, e: ErrSpec) -> ScanSt {
        if self.err is None {
            ScanSt { err: Some(e), ..self }
        } else {
            self
        }
    }

    /// Advance the read offset to `r`, leaving everything else unchanged.
    pub open spec fn at(self, r: int) -> ScanSt {
        ScanSt { lex: LexSt { read: r, ..self.lex }, ..self }
    }
}

/// The outcome of consuming one byte: either scanning continues in a new
/// state, or a statement (or error) is emitted and the persistent state
/// after the call is fixed.
pub enum StepRes {
    Cont(ScanSt),
    Emit(Result<Seq<u8>, ErrSpec>, LexSt),
}

/// The `$` and `@` sigil modes last exactly one byte unless re-armed.
pub open spec fn clear_comm(st: ScanSt) -> ScanSt {
    ScanSt { lex: LexSt { comm1: false, comm2: false, ..st.lex }, ..st }
}

/// One byte of the scan. `st.lex.read` indexes the byte to consume; the
/// rules are tried in the fixed priority order of the scanner.
#[verifier::opaque]
pub open spec fn step(data: Seq<u8>, st: ScanSt) -> StepRes {
    let i = st.lex.read;
    let c = data[i];
    let l = st.lex;
    if c == 92 {
        // backslash: the next raw byte is skipped with no interpretation
        StepRes::Cont(clear_comm(st.at(if i + 2 <= data.len() { i + 2 } else { data.len() as int })))
    } else if l.post_math {
        // the second `)` of `$((..))`: consumed without interpretation
        StepRes::Cont(clear_comm(ScanSt { lex: LexSt { post_math: false, read: i + 1, ..l }, ..st }))
    } else if l.vbrace && is_vbrace_invalid(c) {
        // inside `${..}` only identifier bytes, `:`, `,` and `}` are legal
        StepRes::Cont(clear_comm(st.with_err(ErrSpec::InvalidCharacter(c, i + 1)).at(i + 1)))
    } else if c == 39 && !l.dquote {
        // single quote: copy verbatim through the closing quote
        StepRes::Cont(clear_comm(ScanSt {
            lex: LexSt { variab: false, array: false, read: squote_end(data, i + 1), ..l },
            ..st
        }))
    } else if c == 34 {
        // double quote: toggle, and end any identifier scan
        StepRes::Cont(clear_comm(ScanSt {
            lex: LexSt { dquote: !l.dquote, variab: false, array: false, read: i + 1, ..l },
            ..st
        }))
    } else if c == 64 {
        // `@`: arm the array sigil; kept armed through the next byte
        StepRes::Cont(ScanSt {
            lex: LexSt { comm1: false, comm2: true, array: true, read: i + 1, ..l },
            ..st
        })
    } else if c == 36 {
        // `$`: arm the scalar sigil; kept armed through the next byte
        StepRes::Cont(ScanSt {
            lex: LexSt { comm2: false, comm1: true, variab: true, read: i + 1, ..l },
            ..st
        })
    } else if c == 123 && (l.comm1 || l.comm2) {
        // `{` after a sigil: braced variable reference
        StepRes::Cont(clear_comm(ScanSt { lex: LexSt { vbrace: true, read: i + 1, ..l }, ..st }))
    } else if c == 123 && !l.dquote {
        // literal brace grouping
        StepRes::Cont(clear_comm(ScanSt { lex: LexSt { brace: sat_inc(l.brace), read: i + 1, ..l }, ..st }))
    } else if c == 125 && l.vbrace {
        StepRes::Cont(clear_comm(ScanSt { lex: LexSt { vbrace: false, read: i + 1, ..l }, ..st }))
    } else if c == 125 && !l.dquote {
        if l.brace == 0 {
            // stray close brace
            StepRes::Cont(clear_comm(st.with_err(ErrSpec::InvalidCharacter(c, i + 1)).at(i + 1)))
        } else {
            StepRes::Cont(clear_comm(ScanSt {
                lex: LexSt { brace: l.brace - 1, read: i + 1, ..l },
                ..st
            }))
        }
    } else if c == 40 && l.mathexpr {
        StepRes::Cont(clear_comm(ScanSt { lex: LexSt { mp: sat_inc(l.mp), read: i + 1, ..l }, ..st }))
    } else if c == 40 && !(l.comm1 || l.variab || l.array) {
        // bare parentheses are not valid command syntax
        if !l.dquote {
            StepRes::Cont(clear_comm(st.with_err(ErrSpec::InvalidCharacter(c, i + 1)).at(i + 1)))
        } else {
            StepRes::Cont(clear_comm(st.at(i + 1)))
        }
    } else if c == 40 && (l.comm1 || l.method) {
        if i + 1 < data.len() && data[i + 1] == 40 {
            // `$((`: arithmetic expression; both parens are consumed as one unit
            StepRes::Cont(clear_comm(ScanSt {
                lex: LexSt {
                    comm1: false,
                    variab: false,
                    array: false,
                    mathexpr: true,
                    mp: 0,
                    read: i + 2,
                    ..l
                },
                ..st
            }))
        } else {
            // `$(`: command substitution (or a nested paren inside a method)
            StepRes::Cont(clear_comm(ScanSt {
                lex: LexSt { variab: false, array: false, p: sat_inc(l.p), read: i + 1, ..l },
                ..st
            }))
        }
    } else if c == 40 && l.comm2 {
        // `@(`: process substitution
        StepRes::Cont(clear_comm(ScanSt { lex: LexSt { ap: sat_inc(l.ap), read: i + 1, ..l }, ..st }))
    } else if c == 40 {
        // `(` after a completed identifier scan: method-call argument list
        StepRes::Cont(clear_comm(ScanSt {
            lex: LexSt { variab: false, array: false, method: true, read: i + 1, ..l },
            ..st
        }))
    } else if c == 41 && l.mathexpr {
        if l.mp == 0 {
            if i + 1 >= data.len() {
                StepRes::Cont(clear_comm(st.with_err(ErrSpec::UnterminatedArithmetic).at(i + 1)))
            } else if data[i + 1] == 41 {
                StepRes::Cont(clear_comm(ScanSt {
                    lex: LexSt { mathexpr: false, post_math: true, read: i + 1, ..l },
                    ..st
                }))
            } else {
                StepRes::Cont(clear_comm(st.with_err(ErrSpec::InvalidCharacter(data[i + 1], i + 1)).at(
                    i + 1,
                )))
            }
        } else {
            StepRes::Cont(clear_comm(ScanSt { lex: LexSt { mp: l.mp - 1, read: i + 1, ..l }, ..st }))
        }
    } else if c == 41 && l.method && l.p == 0 {
        // `)` closing a method-call argument list
        StepRes::Cont(clear_comm(ScanSt { lex: LexSt { method: false, read: i + 1, ..l }, ..st }))
    } else if c == 41 && l.p + l.ap == 0 {
        if !l.dquote {
            StepRes::Cont(clear_comm(st.with_err(ErrSpec::InvalidCharacter(c, i + 1)).at(i + 1)))
        } else {
            StepRes::Cont(clear_comm(st.at(i + 1)))
        }
    } else if c == 41 && l.p != 0 {
        StepRes::Cont(clear_comm(ScanSt { lex: LexSt { p: l.p - 1, read: i + 1, ..l }, ..st }))
    } else if c == 41 {
        StepRes::Cont(clear_comm(ScanSt { lex: LexSt { ap: l.ap - 1, read: i + 1, ..l }, ..st }))
    } else if c == 59 && !l.dquote && l.p == 0 && l.ap == 0 {
        // `;` outside quotes and substitutions ends the statement
        StepRes::Emit(
            match st.err {
                Some(e) => Err(e),
                None => Ok(trim_seq(data.subrange(st.start, i))),
            },
            LexSt { read: i + 1, ..l },
        )
    } else if c == 35 && (i == 0 || (!l.dquote && l.p + l.ap == 0 && (data[i - 1] == 32 || data[i
        - 1] == 9))) {
        // comment: ends the statement and discards the rest of the input
        StepRes::Emit(
            match st.err {
                Some(e) => Err(e),
                None => Ok(trim_seq(data.subrange(st.start, i))),
            },
            LexSt { read: data.len() as int, ..l },
        )
    } else if c == 32 && st.else_found {
        // the word after a leading `else` decides whether `else if` is fused
        let out = trim_seq(data.subrange(st.else_pos, i));
        if out.len() > 0 && out != if_bytes() {
            // rewind and emit a synthetic one-word `else` statement
            StepRes::Emit(Ok(else_bytes()), LexSt { read: st.else_pos, ..l })
        } else {
            StepRes::Cont(clear_comm(ScanSt { else_found: false, ..st }.at(i + 1)))
        }
    } else if c == 32 && !st.first_arg {
        let out = trim_seq(data.subrange(st.start, i));
        if out.len() == 0 {
            StepRes::Cont(clear_comm(st.at(i + 1)))
        } else if out == else_bytes() {
            StepRes::Cont(clear_comm(ScanSt { else_found: true, else_pos: i + 1, ..st }.at(i + 1)))
        } else {
            StepRes::Cont(clear_comm(ScanSt { first_arg: true, ..st }.at(i + 1)))
        }
    } else {
        // any byte outside `[A-Za-z0-9_]` ends an identifier scan
        if (l.variab || l.array) && !is_word_byte(c) {
            StepRes::Cont(clear_comm(ScanSt {
                lex: LexSt { variab: false, array: false, read: i + 1, ..l },
                ..st
            }))
        } else {
            StepRes::Cont(clear_comm(st.at(i + 1)))
        }
    }
}

/// Whether the byte at `st.lex.read` falls under the quoting, escape,
/// sigil, brace, paren or arithmetic rules of the scanner (as opposed to a
/// statement boundary, a space or an ordinary byte).
#[verifier::opaque]
pub open spec fn flag_arm(data: Seq<u8>, st: ScanSt) -> bool {
    let c = data[st.lex.read];
    let l = st.lex;
    c == 92 || l.post_math || (l.vbrace && is_vbrace_invalid(c)) || (c == 39 && !l.dquote)
        || c == 34 || c == 64 || c == 36 || (c == 123 && (l.comm1 || l.comm2 || !l.dquote)) || (c
        == 125 && (l.vbrace || !l.dquote)) || c == 40 || c == 41
}

/// What a scan reports when it reaches the end of the input with part of a
/// statement consumed: a recorded error first, then unterminated constructs,
/// then the checks on the first byte of the remaining trimmed text.
#[verifier::opaque]
pub open spec fn eof_result(data: Seq<u8>, st: ScanSt) -> (Result<Seq<u8>, ErrSpec>, LexSt) {
    let post = LexSt { read: data.len() as int, ..st.lex };
    let res: Result<Seq<u8>, ErrSpec> = if st.err is Some {
        Err(st.err->Some_0)
    } else if st.lex.p != 0 || st.lex.ap != 0 {
        Err(ErrSpec::UnterminatedSubshell)
    } else if st.lex.method {
        Err(ErrSpec::UnterminatedMethod)
    } else if st.lex.vbrace {
        Err(ErrSpec::UnterminatedBracedVar)
    } else if st.lex.brace != 0 {
        Err(ErrSpec::UnterminatedBrace)
    } else if st.lex.mathexpr {
        Err(ErrSpec::UnterminatedArithmetic)
    } else {
        let out = trim_seq(data.subrange(st.start, data.len() as int));
        if out.len() == 0 {
            Ok(out)
        } else if out[0] == 62 || out[0] == 60 || out[0] == 94 {
            Err(ErrSpec::ExpectedCommandButFound(CommandFound::Redirection))
        } else if out[0] == 124 {
            Err(ErrSpec::ExpectedCommandButFound(CommandFound::Pipe))
        } else if out[0] == 38 {
            Err(ErrSpec::ExpectedCommandButFound(CommandFound::Ampersand))
        } else if out[0] == 42 || out[0] == 37 || out[0] == 63 || out[0] == 123 || out[0] == 125 {
            Err(ErrSpec::IllegalCommandName(out))
        } else {
            Ok(out)
        }
    };
    (res, post)
}

/// The scan of one whole statement, from the state `st` to the next
/// boundary (`;`, comment, synthetic `else`) or the end of the input.
pub open spec fn scan(data: Seq<u8>, st: ScanSt) -> (Result<Seq<u8>, ErrSpec>, LexSt)
    decreases data.len() - st.lex.read,
    via scan_decreases
{
    if st.lex.read < 0 || st.lex.read >= data.len() {
        eof_result(data, st)
    } else {
        match step(data, st) {
            StepRes::Cont(st2) => scan(data, st2),
            StepRes::Emit(r, l) => (r, l),
        }
    }
}

#[via_fn]
proof fn scan_decreases(data: Seq<u8>, st: ScanSt) {
    if 0 <= st.lex.read < data.len() {
        lemma_step_advances(data, st);
    }
}

/// Every continuing step consumes at least one byte and never runs past the
/// end of the input.
pub proof fn lemma_step_advances(data: Seq<u8>, st: ScanSt)
    requires
        0 <= st.lex.read < data.len(),
    ensures
        match step(data, st) {
            StepRes::Cont(st2) => st.lex.read < st2.lex.read <= data.len(),
            StepRes::Emit(r, l) => true,
        },
{
    reveal(step);
    let i = st.lex.read;
    if data[i] == 39 && !st.lex.dquote && !st.lex.post_math && !(st.lex.vbrace
        && is_vbrace_invalid(data[i])) {
        lemma_squote_end_bounds(data, i + 1);
    }
}

/// A continuing step keeps the scanning state well formed.
pub proof fn lemma_step_wf(data: Seq<u8>, st: ScanSt)
    requires
        0 <= st.lex.read < data.len(),
        st.wf(data),
    ensures
        match step(data, st) {
            StepRes::Cont(st2) => st2.wf(data) && st2.start == st.start,
            StepRes::Emit(r, l) => true,
        },
{
    reveal(step);
    lemma_step_advances(data, st);
}

/// Unfolding of `scan` by one continuing step.
pub proof fn lemma_scan_cont(data: Seq<u8>, st: ScanSt, st2: ScanSt)
    requires
        0 <= st.lex.read < data.len(),
        step(data, st) == StepRes::Cont(st2),
    ensures
        scan(data, st) == scan(data, st2),
{
}

/// Text inside a double-quoted region never triggers a structural split: a
/// `;`, `{`, `(` or `#` consumed while the double-quote mode is set leaves
/// the scanner scanning the same statement.
pub proof fn lemma_quoted_byte_no_split(data: Seq<u8>, st: ScanSt)
    requires
        0 < st.lex.read < data.len(),
        st.lex.dquote,
        !st.lex.post_math,
        data[st.lex.read] == 59 || data[st.lex.read] == 35 || data[st.lex.read] == 123 || data[
            st.lex.read
        ] == 40,
    ensures
        step(data, st) is Cont,
{
    reveal(step);
}

/// Inside an open command or process substitution, of any depth, neither a
/// `;` nor a `#` ends the statement: nesting is preserved verbatim.
pub proof fn lemma_open_subshell_no_split(data: Seq<u8>, st: ScanSt)
    requires
        0 < st.lex.read < data.len(),
        st.lex.p + st.lex.ap > 0,
        !st.lex.post_math,
        !st.lex.vbrace,
        data[st.lex.read] == 59 || data[st.lex.read] == 35,
    ensures
        step(data, st) is Cont,
{
    reveal(step);
}

/// A `#` preceded by whitespace, outside quotes and with every substitution
/// closed, ends the statement: what was read so far is emitted trimmed, and
/// the rest of the input is dropped.
pub proof fn lemma_comment_ends_statement(data: Seq<u8>, st: ScanSt)
    requires
        0 < st.lex.read < data.len(),
        data[st.lex.read] == 35,
        !st.lex.dquote,
        !st.lex.post_math,
        !st.lex.vbrace,
        st.lex.p == 0,
        st.lex.ap == 0,
        data[st.lex.read - 1] == 32 || data[st.lex.read - 1] == 9,
    ensures
        step(data, st) == StepRes::Emit(
            match st.err {
                Some(e) => Err(e),
                None => Ok(trim_seq(data.subrange(st.start, st.lex.read))),
            },
            LexSt { read: data.len() as int, ..st.lex },
        ),
{
    reveal(step);
}

/// One call of the splitter: nothing once the input is exhausted, otherwise
/// the scan of the next statement.
pub open spec fn next_spec(data: Seq<u8>, lex: LexSt) -> (Option<Result<Seq<u8>, ErrSpec>>, LexSt) {
    if lex.read >= data.len() {
        (None, lex)
    } else {
        let (r, post) = scan(data, ScanSt::init(lex));
        (Some(r), post)
    }
}

/// The view of what `next` returns.
pub open spec fn res_view(r: Option<Result<Vec<u8>, StatementError>>) -> Option<
    Result<Seq<u8>, ErrSpec>,
> {
    match r {
        None => None,
        Some(Ok(v)) => Some(Ok(v@)),
        Some(Err(e)) => Some(Err(err_view(e))),
    }
}

/// The view of the error local carried while one statement is scanned.
pub open spec fn opt_err_view(e: Option<StatementError>) -> Option<ErrSpec> {
    match e {
        None => None,
        Some(x) => Some(err_view(x)),
    }
}

/// The scanning state a splitter and the locals of one `next` call stand for.
spec fn cur_of(
    s: StatementSplitter,
    start: int,
    first_arg: bool,
    else_found: bool,
    else_pos: int,
    error: Option<StatementError>,
) -> ScanSt {
    ScanSt {
        lex: s.lex(),
        start,
        first_arg,
        else_found,
        else_pos,
        err: opt_err_view(error),
    }
}

/// Once a region is bracketed by indices that cut away exactly the
/// surrounding whitespace, trimming is taking that subrange.
proof fn lemma_trim_seq_bounds(s: Seq<u8>, lo: int, hi: int)
    requires
        0 <= lo <= hi <= s.len(),
        forall|j: int| 0 <= j < lo ==> is_ws(#[trigger] s[j]),
        forall|j: int| hi <= j < s.len() ==> is_ws(#[trigger] s[j]),
        lo < hi ==> !is_ws(s[lo]) && !is_ws(s[hi - 1]),
    ensures
        trim_seq(s) == s.subrange(lo, hi),
    decreases s.len(),
{
    if s.len() == 0 {
        assert(trim_seq(s) =~= s.subrange(lo, hi));
    } else if is_ws(s[0]) {
        if lo == hi {
            lemma_trim_seq_bounds(s.drop_first(), 0, 0);
            assert(trim_seq(s) =~= s.subrange(lo, hi));
        } else {
            assert(lo >= 1);
            lemma_trim_seq_bounds(s.drop_first(), lo - 1, hi - 1);
            assert(s.drop_first().subrange(lo - 1, hi - 1) =~= s.subrange(lo, hi));
        }
    } else if is_ws(s.last()) {
        if lo == hi {
            assert(is_ws(s[0]));
        } else {
            assert(hi <= s.len() - 1);
            lemma_trim_seq_bounds(s.drop_last(), lo, hi);
            assert(s.drop_last().subrange(lo, hi) =~= s.subrange(lo, hi));
        }
    } else {
        if lo == hi {
            assert(is_ws(s[0]));
        }
        assert(lo == 0 && hi == s.len());
        assert(trim_seq(s) =~= s.subrange(lo, hi));
    }
}

/// The statement tokenizer. It is stateful and forward-only: each call of
/// [`StatementSplitter::next`] resumes at the byte offset where the previous
/// call left off, and yields the next statement or lexical error.
pub struct StatementSplitter {
    data: Vec<u8>,
    read: usize,
    dquote: bool,
    comm1: bool,
    comm2: bool,
    vbrace: bool,
    array: bool,
    variab: bool,
    method: bool,
    mathexpr: bool,
    post_math: bool,
    p_level: u64,
    ap_level: u64,
    brace_level: u64,
    math_paren_level: u64,
}

impl StatementSplitter {
    /// The input the splitter was built over.
    pub closed spec fn input(self) -> Seq<u8> {
        self.data@
    }

    /// The persistent scanner state.
    pub closed spec fn lex(self) -> LexSt {
        LexSt {
            read: self.read as int,
            dquote: self.dquote,
            comm1: self.comm1,
            comm2: self.comm2,
            vbrace: self.vbrace,
            array: self.array,
            variab: self.variab,
            method: self.method,
            mathexpr: self.mathexpr,
            post_math: self.post_math,
            p: self.p_level as int,
            ap: self.ap_level as int,
            brace: self.brace_level as int,
            mp: self.math_paren_level as int,
        }
    }

    pub closed spec fn wf(self) -> bool {
        self.lex().wf(self.data@)
    }

    /// A splitter at the start of the given input.
    pub fn new(data: Vec<u8>) -> (r: StatementSplitter)
        ensures
            r.wf(),
            r.input() == data@,
            r.lex() == LexSt::init(),
    {
        StatementSplitter {
            data,
            read: 0,
            dquote: false,
            comm1: false,
            comm2: false,
            vbrace: false,
            array: false,
            variab: false,
            method: false,
            mathexpr: false,
            post_math: false,
            p_level: 0,
            ap_level: 0,
            brace_level: 0,
            math_paren_level: 0,
        }
    }

    /// Consume a single-quoted raw region: every byte up to the next
    /// unescaped single quote, where a backslash still escapes the byte
    /// after it.
    pub fn single_quote(&mut self)
        requires
            old(self).wf(),
        ensures
            final(self).wf(),
            final(self).input() == old(self).input(),
            final(self).lex() == (LexSt {
                read: squote_end(old(self).input(), old(self).lex().read),
                ..old(self).lex()
            }),
    {
        let n = self.data.len();
        proof {
            lemma_squote_end_bounds(self.data@, self.read as int);
        }
        loop
            invariant
                old(self).wf(),
                self.data@ == old(self).input(),
                old(self).lex().read <= self.read <= n,
                n == self.data@.len(),
                squote_end(self.data@, self.read as int) == squote_end(
                    old(self).input(),
                    old(self).lex().read,
                ),
                old(self).lex().read <= squote_end(old(self).input(), old(self).lex().read),
                self.lex() == (LexSt { read: self.read as int, ..old(self).lex() }),
            decreases n - self.read,
        {
            if self.read >= n {
                return ;
            }
            let q = self.data[self.read];
            proof {
                lemma_squote_end_bounds(self.data@, self.read + 1);
                if self.read + 2 <= n {
                    lemma_squote_end_bounds(self.data@, self.read + 2);
                }
            }
            self.read = self.read + 1;
            if q == 92 {
                if self.read < n {
                    self.read = self.read + 1;
                }
            } else if q == 39 {
                return ;
            }
        }
    }

    /// Indices that bracket the range `from..to` of the input with its
    /// surrounding ASCII whitespace cut away.
    fn trim_bounds(&self, from: usize, to: usize) -> (r: (usize, usize))
        requires
            from <= to <= self.input().len(),
        ensures
            from <= r.0 <= r.1 <= to,
            trim_seq(self.input().subrange(from as int, to as int)) == self.input().subrange(
                r.0 as int,
                r.1 as int,
            ),
    {
        let mut lo = from;
        while lo < to && is_ws_byte(self.data[lo])
            invariant
                from <= lo <= to <= self.data@.len(),
                forall|j: int| from <= j < lo ==> is_ws(#[trigger] self.data@[j]),
            decreases to - lo,
        {
            lo = lo + 1;
        }
        if lo == to {
            proof {
                let s = self.data@.subrange(from as int, to as int);
                lemma_trim_seq_bounds(s, lo - from, lo - from);
                assert(s.subrange(lo - from, lo - from) =~= self.data@.subrange(
                    lo as int,
                    lo as int,
                ));
            }
            return (lo, lo);
        }
        let mut hi = to;
        while is_ws_byte(self.data[hi - 1])
            invariant
                from <= lo < hi <= to <= self.data@.len(),
                !is_ws(self.data@[lo as int]),
                forall|j: int| hi <= j < to ==> is_ws(#[trigger] self.data@[j]),
            decreases hi,
        {
            hi = hi - 1;
        }
        proof {
            let s = self.data@.subrange(from as int, to as int);
            lemma_trim_seq_bounds(s, lo - from, hi - from);
            assert(s.subrange(lo - from, hi - from) =~= self.data@.subrange(
                lo as int,
                hi as int,
            ));
        }
        (lo, hi)
    }

    /// A copy of the range `from..to` of the input.
    fn copy_range(&self, from: usize, to: usize) -> (r: Vec<u8>)
        requires
            from <= to <= self.input().len(),
        ensures
            r@ == self.input().subrange(from as int, to as int),
    {
        let mut out: Vec<u8> = Vec::new();
        let mut j = from;
        while j < to
            invariant
                from <= j <= to <= self.data@.len(),
                out@ =~= self.data@.subrange(from as int, j as int),
            decreases to - j,
        {
            out.push(self.data[j]);
            j = j + 1;
        }
        proof {
            assert(out@ =~= self.input().subrange(from as int, to as int));
        }
        out
    }

    /// A trimmed copy of the range `from..to` of the input.
    fn trimmed(&self, from: usize, to: usize) -> (r: Vec<u8>)
        requires
            from <= to <= self.input().len(),
        ensures
            r@ == trim_seq(self.input().subrange(from as int, to as int)),
    {
        let (lo, hi) = self.trim_bounds(from, to);
        self.copy_range(lo, hi)
    }

    /// The `(` rules of the scanner, split out of `flag_step`.
    #[verifier::rlimit(100)]
    fn paren_open(
        &mut self,
        n: usize,
        error: &mut Option<StatementError>,
        Ghost(data): Ghost<Seq<u8>>,
        Ghost(prev): Ghost<ScanSt>,
    )
        requires
            prev.wf(data),
            data == old(self).input(),
            n == data.len(),
            0 <= prev.lex.read < n,
            data[prev.lex.read] == 40,
            !prev.lex.post_math,
            !prev.lex.vbrace,
            old(self).lex() == (LexSt { read: prev.lex.read + 1, ..prev.lex }),
            prev.err == opt_err_view(*old(error)),
        ensures
            final(self).input() == data,
            ({
                let cur = ScanSt {
                    lex: final(self).lex(),
                    err: opt_err_view(*final(error)),
                    ..prev
                };
                cur.wf(data) && prev.lex.read < cur.lex.read <= n && scan(data, cur) == scan(
                    data,
                    prev,
                )
            }),
    {
        proof {
            lemma_step_advances(data, prev);
            lemma_step_wf(data, prev);
        }
        if self.mathexpr {
            if self.math_paren_level < u64::MAX {
                self.math_paren_level = self.math_paren_level + 1;
            }
        } else if !(self.comm1 || self.variab || self.array) {
            if !self.dquote {
                if error.is_none() {
                    *error = Some(StatementError::InvalidCharacter(40, self.read));
                }
            }
        } else if self.comm1 || self.method {
            self.variab = false;
            self.array = false;
            if self.read < n && self.data[self.read] == 40 {
                // `$((`: both parens are consumed as one unit
                self.mathexpr = true;
                self.math_paren_level = 0;
                self.read = self.read + 1;
            } else {
                if self.p_level < u64::MAX {
                    self.p_level = self.p_level + 1;
                }
            }
        } else if self.comm2 {
            if self.ap_level < u64::MAX {
                self.ap_level = self.ap_level + 1;
            }
        } else {
            self.variab = false;
            self.array = false;
            self.method = true;
        }
        self.comm1 = false;
        self.comm2 = false;
        proof {
            assert(step(data, prev) == StepRes::Cont(
                (ScanSt { lex: self.lex(), err: opt_err_view(*error), ..prev }),
            )) by {
                reveal(step);
            }
            lemma_scan_cont(
                data,
                prev,
                ScanSt { lex: self.lex(), err: opt_err_view(*error), ..prev },
            );
        }
    }

    /// The `)` rules of the scanner, split out of `flag_step`.
    #[verifier::rlimit(100)]
    fn paren_close(
        &mut self,
        n: usize,
        error: &mut Option<StatementError>,
        Ghost(data): Ghost<Seq<u8>>,
        Ghost(prev): Ghost<ScanSt>,
    )
        requires
            prev.wf(data),
            data == old(self).input(),
            n == data.len(),
            0 <= prev.lex.read < n,
            data[prev.lex.read] == 41,
            !prev.lex.post_math,
            !prev.lex.vbrace,
            old(self).lex() == (LexSt { read: prev.lex.read + 1, ..prev.lex }),
            prev.err == opt_err_view(*old(error)),
        ensures
            final(self).input() == data,
            ({
                let cur = ScanSt {
                    lex: final(self).lex(),
                    err: opt_err_view(*final(error)),
                    ..prev
                };
                cur.wf(data) && prev.lex.read < cur.lex.read <= n && scan(data, cur) == scan(
                    data,
                    prev,
                )
            }),
    {
        proof {
            lemma_step_advances(data, prev);
            lemma_step_wf(data, prev);
        }
        if self.mathexpr {
            if self.math_paren_level == 0 {
                if self.read >= n {
                    if error.is_none() {
                        *error = Some(StatementError::UnterminatedArithmetic);
                    }
                } else {
                    let nx = self.data[self.read];
                    if nx == 41 {
                        self.mathexpr = false;
                        self.post_math = true;
                    } else if error.is_none() {
                        *error = Some(StatementError::InvalidCharacter(nx, self.read));
                    }
                }
            } else {
                self.math_paren_level = self.math_paren_level - 1;
            }
        } else if self.method && self.p_level == 0 {
            self.method = false;
        } else if self.p_level == 0 && self.ap_level == 0 {
            if !self.dquote {
                if error.is_none() {
                    *error = Some(StatementError::InvalidCharacter(41, self.read));
                }
            }
        } else if self.p_level != 0 {
            self.p_level = self.p_level - 1;
        } else {
            self.ap_level = self.ap_level - 1;
        }
        self.comm1 = false;
        self.comm2 = false;
        proof {
            assert(step(data, prev) == StepRes::Cont(
                (ScanSt { lex: self.lex(), err: opt_err_view(*error), ..prev }),
            )) by {
                reveal(step);
            }
            lemma_scan_cont(
                data,
                prev,
                ScanSt { lex: self.lex(), err: opt_err_view(*error), ..prev },
            );
        }
    }

    /// Handle one byte of the scan when it falls under the quoting, escape,
    /// sigil, brace, paren or arithmetic rules, which touch only the mode
    /// flags, the nesting counters and the recorded error. Returns false,
    /// leaving everything unchanged, when the byte is none of those (a
    /// statement boundary, a space or an ordinary byte). The caller has
    /// already consumed the byte `c` at offset `prev.lex.read`.
    #[verifier::rlimit(100)]
    fn flag_step(
        &mut self,
        c: u8,
        n: usize,
        error: &mut Option<StatementError>,
        Ghost(data): Ghost<Seq<u8>>,
        Ghost(prev): Ghost<ScanSt>,
    ) -> (h: bool)
        requires
            prev.wf(data),
            data == old(self).input(),
            n == data.len(),
            0 <= prev.lex.read < n,
            c == data[prev.lex.read],
            old(self).lex() == (LexSt { read: prev.lex.read + 1, ..prev.lex }),
            prev.err == opt_err_view(*old(error)),
        ensures
            final(self).input() == data,
            h == flag_arm(data, prev),
            !h ==> final(self).lex() == old(self).lex() && *final(error) == *old(error),
            h ==> ({
                let cur = ScanSt {
                    lex: final(self).lex(),
                    err: opt_err_view(*final(error)),
                    ..prev
                };
                cur.wf(data) && prev.lex.read < cur.lex.read <= n && scan(data, cur) == scan(
                    data,
                    prev,
                )
            }),
    {
        proof {
            lemma_step_advances(data, prev);
            lemma_step_wf(data, prev);
        }
        if c == 92 {
            // escape: the next raw byte is skipped
            if self.read < n {
                self.read = self.read + 1;
            }
            self.comm1 = false;
            self.comm2 = false;
            proof {
                assert(step(data, prev) == StepRes::Cont(
                    (ScanSt { lex: self.lex(), err: opt_err_view(*error), ..prev }),
                )) by {
                    reveal(step);
                }
                lemma_scan_cont(
                    data,
                    prev,
                    ScanSt { lex: self.lex(), err: opt_err_view(*error), ..prev },
                );
                assert(flag_arm(data, prev)) by {
                    reveal(flag_arm);
                }
            }
            true
        } else if self.post_math {
            self.post_math = false;
            self.comm1 = false;
            self.comm2 = false;
            proof {
                assert(step(data, prev) == StepRes::Cont(
                    (ScanSt { lex: self.lex(), err: opt_err_view(*error), ..prev }),
                )) by {
                    reveal(step);
                }
                lemma_scan_cont(
                    data,
                    prev,
                    ScanSt { lex: self.lex(), err: opt_err_view(*error), ..prev },
                );
                assert(flag_arm(data, prev)) by {
                    reveal(flag_arm);
                }
            }
            true
        } else if self.vbrace && vbrace_invalid_byte(c) {
            if error.is_none() {
                *error = Some(StatementError::InvalidCharacter(c, self.read));
            }
            self.comm1 = false;
            self.comm2 = false;
            proof {
                assert(step(data, prev) == StepRes::Cont(
                    (ScanSt { lex: self.lex(), err: opt_err_view(*error), ..prev }),
                )) by {
                    reveal(step);
                }
                lemma_scan_cont(
                    data,
                    prev,
                    ScanSt { lex: self.lex(), err: opt_err_view(*error), ..prev },
                );
                assert(flag_arm(data, prev)) by {
                    reveal(flag_arm);
                }
            }
            true
        } else if c == 39 && !self.dquote {
            self.variab = false;
            self.array = false;
            self.comm1 = false;
            self.comm2 = false;
            self.single_quote();
            proof {
                assert(step(data, prev) == StepRes::Cont(
                    (ScanSt { lex: self.lex(), err: opt_err_view(*error), ..prev }),
                )) by {
                    reveal(step);
                }
                lemma_scan_cont(
                    data,
                    prev,
                    ScanSt { lex: self.lex(), err: opt_err_view(*error), ..prev },
                );
                assert(flag_arm(data, prev)) by {
                    reveal(flag_arm);
                }
            }
            true
        } else if c == 34 {
            self.dquote = !self.dquote;
            self.variab = false;
            self.array = false;
            self.comm1 = false;
            self.comm2 = false;
            proof {
                assert(step(data, prev) == StepRes::Cont(
                    (ScanSt { lex: self.lex(), err: opt_err_view(*error), ..prev }),
                )) by {
                    reveal(step);
                }
                lemma_scan_cont(
                    data,
                    prev,
                    ScanSt { lex: self.lex(), err: opt_err_view(*error), ..prev },
                );
                assert(flag_arm(data, prev)) by {
                    reveal(flag_arm);
                }
            }
            true
        } else if c == 64 {
            // `@` re-arms the array sigil for the next byte
            self.comm1 = false;
            self.comm2 = true;
            self.array = true;
            proof {
                assert(step(data, prev) == StepRes::Cont(
                    (ScanSt { lex: self.lex(), err: opt_err_view(*error), ..prev }),
                )) by {
                    reveal(step);
                }
                lemma_scan_cont(
                    data,
                    prev,
                    ScanSt { lex: self.lex(), err: opt_err_view(*error), ..prev },
                );
                assert(flag_arm(data, prev)) by {
                    reveal(flag_arm);
                }
            }
            true
        } else if c == 36 {
            // `$` re-arms the scalar sigil for the next byte
            self.comm2 = false;
            self.comm1 = true;
            self.variab = true;
            proof {
                assert(step(data, prev) == StepRes::Cont(
                    (ScanSt { lex: self.lex(), err: opt_err_view(*error), ..prev }),
                )) by {
                    reveal(step);
                }
                lemma_scan_cont(
                    data,
                    prev,
                    ScanSt { lex: self.lex(), err: opt_err_view(*error), ..prev },
                );
                assert(flag_arm(data, prev)) by {
                    reveal(flag_arm);
                }
            }
            true
        } else {
            self.flag_step2(c, n, error, Ghost(data), Ghost(prev))
        }
    }

    /// The brace and paren rules of the scanner, split out of `flag_step`.
    /// The caller has ruled out the escape, quote and sigil rules.
    #[verifier::rlimit(100)]
    fn flag_step2(
        &mut self,
        c: u8,
        n: usize,
        error: &mut Option<StatementError>,
        Ghost(data): Ghost<Seq<u8>>,
        Ghost(prev): Ghost<ScanSt>,
    ) -> (h: bool)
        requires
            prev.wf(data),
            data == old(self).input(),
            n == data.len(),
            0 <= prev.lex.read < n,
            c == data[prev.lex.read],
            c != 92 && c != 34 && c != 64 && c != 36,
            !prev.lex.post_math,
            !(prev.lex.vbrace && is_vbrace_invalid(c)),
            !(c == 39 && !prev.lex.dquote),
            old(self).lex() == (LexSt { read: prev.lex.read + 1, ..prev.lex }),
            prev.err == opt_err_view(*old(error)),
        ensures
            final(self).input() == data,
            h == flag_arm(data, prev),
            !h ==> final(self).lex() == old(self).lex() && *final(error) == *old(error),
            h ==> ({
                let cur = ScanSt {
                    lex: final(self).lex(),
                    err: opt_err_view(*final(error)),
                    ..prev
                };
                cur.wf(data) && prev.lex.read < cur.lex.read <= n && scan(data, cur) == scan(
                    data,
                    prev,
                )
            }),
    {
        proof {
            lemma_step_advances(data, prev);
            lemma_step_wf(data, prev);
        }
        if c == 123 && (self.comm1 || self.comm2) {
            self.vbrace = true;
            self.comm1 = false;
            self.comm2 = false;
            proof {
                assert(step(data, prev) == StepRes::Cont(
                    (ScanSt { lex: self.lex(), err: opt_err_view(*error), ..prev }),
                )) by {
                    reveal(step);
                }
                lemma_scan_cont(
                    data,
                    prev,
                    ScanSt { lex: self.lex(), err: opt_err_view(*error), ..prev },
                );
                assert(flag_arm(data, prev)) by {
                    reveal(flag_arm);
                }
            }
            true
        } else if c == 123 && !self.dquote {
            if self.brace_level < u64::MAX {
                self.brace_level = self.brace_level + 1;
            }
            self.comm1 = false;
            self.comm2 = false;
            proof {
                assert(step(data, prev) == StepRes::Cont(
                    (ScanSt { lex: self.lex(), err: opt_err_view(*error), ..prev }),
                )) by {
                    reveal(step);
                }
                lemma_scan_cont(
                    data,
                    prev,
                    ScanSt { lex: self.lex(), err: opt_err_view(*error), ..prev },
                );
                assert(flag_arm(data, prev)) by {
                    reveal(flag_arm);
                }
            }
            true
        } else if c == 125 && self.vbrace {
            self.vbrace = false;
            self.comm1 = false;
            self.comm2 = false;
            proof {
                assert(step(data, prev) == StepRes::Cont(
                    (ScanSt { lex: self.lex(), err: opt_err_view(*error), ..prev }),
                )) by {
                    reveal(step);
                }
                lemma_scan_cont(
                    data,
                    prev,
                    ScanSt { lex: self.lex(), err: opt_err_view(*error), ..prev },
                );
                assert(flag_arm(data, prev)) by {
                    reveal(flag_arm);
                }
            }
            true
        } else if c == 125 && !self.dquote {
            if self.brace_level == 0 {
                if error.is_none() {
                    *error = Some(StatementError::InvalidCharacter(c, self.read));
                }
            } else {
                self.brace_level = self.brace_level - 1;
            }
            self.comm1 = false;
            self.comm2 = false;
            proof {
                assert(step(data, prev) == StepRes::Cont(
                    (ScanSt { lex: self.lex(), err: opt_err_view(*error), ..prev }),
                )) by {
                    reveal(step);
                }
                lemma_scan_cont(
                    data,
                    prev,
                    ScanSt { lex: self.lex(), err: opt_err_view(*error), ..prev },
                );
                assert(flag_arm(data, prev)) by {
                    reveal(flag_arm);
                }
            }
            true
        } else if c == 40 {
            self.paren_open(n, error, Ghost(data), Ghost(prev));
            proof {
                assert(flag_arm(data, prev)) by {
                    reveal(flag_arm);
                }
            }
            true
        } else if c == 41 {
            self.paren_close(n, error, Ghost(data), Ghost(prev));
            proof {
                assert(flag_arm(data, prev)) by {
                    reveal(flag_arm);
                }
            }
            true
        } else {
            proof {
                assert(!flag_arm(data, prev)) by {
                    reveal(flag_arm);
                }
            }
            false
        }
    }

    /// The next statement of the input, or the lexical error recorded for
    /// it, or nothing once the input is exhausted. The call follows the
    /// scanner model exactly: the returned value and the state left behind
    /// are the ones `next_spec` gives.
    #[verifier::rlimit(100)]
    pub fn next(&mut self) -> (r: Option<Result<Vec<u8>, StatementError>>)
        requires
            old(self).wf(),
        ensures
            final(self).wf(),
            final(self).input() == old(self).input(),
            ({
                let (res, post) = next_spec(old(self).input(), old(self).lex());
                final(self).lex() == post && res_view(r) == res
            }),
    {
        let n = self.data.len();
        if self.read >= n {
            return None;
        }
        let ghost data = self.data@;
        let ghost st0 = ScanSt::init(old(self).lex());
        let start = self.read;
        let mut first_arg: bool = false;
        let mut else_found: bool = false;
        let mut else_pos: usize = 0;
        let mut error: Option<StatementError> = None;

        while self.read < n
            invariant
                old(self).wf(),
                self.data@ == data,
                data == old(self).input(),
                n == data.len(),
                start == old(self).lex().read,
                start < n,
                st0 == ScanSt::init(old(self).lex()),
                ({
                    let cur = ScanSt {
                        lex: self.lex(),
                        start: start as int,
                        first_arg,
                        else_found,
                        else_pos: else_pos as int,
                        err: opt_err_view(error),
                    };
                    cur.wf(data) && scan(data, cur) == scan(data, st0)
                }),
            decreases n - self.read,
        {
            let ghost prev = ScanSt {
                lex: self.lex(),
                start: start as int,
                first_arg,
                else_found,
                else_pos: else_pos as int,
                err: opt_err_view(error),
            };
            proof {
                lemma_step_advances(data, prev);
                lemma_step_wf(data, prev);
            }
            let c = self.data[self.read];
            self.read = self.read + 1;
            if self.flag_step(c, n, &mut error, Ghost(data), Ghost(prev)) {
                continue ;
            }
            proof {
                assert(!flag_arm(data, prev));
            }
            if c == 59 && !self.dquote && self.p_level == 0 && self.ap_level == 0 {
                // an unquoted, unnested `;` ends the statement
                match error {
                    Some(e) => {
                        proof {
                            assert(step(data, prev) == StepRes::Emit(
                                Err(err_view(e)),
                                self.lex(),
                            )) by {
                                reveal(step);
                                reveal(flag_arm);
                            }
                        }
                        return Some(Err(e));
                    },
                    None => {
                        let out = self.trimmed(start, self.read - 1);
                        proof {
                            assert(step(data, prev) == StepRes::Emit(Ok(out@), self.lex())) by {
                                reveal(step);
                                reveal(flag_arm);
                            }
                        }
                        return Some(Ok(out));
                    },
                }
            } else if c == 35 && (self.read == 1 || (!self.dquote && self.p_level == 0
                && self.ap_level == 0 && (self.data[self.read - 2] == 32 || self.data[self.read
                - 2] == 9))) {
                // comment: ends the statement, the rest of the input is dropped
                let i_end = self.read - 1;
                self.read = n;
                match error {
                    Some(e) => {
                        proof {
                            assert(step(data, prev) == StepRes::Emit(
                                Err(err_view(e)),
                                self.lex(),
                            )) by {
                                reveal(step);
                                reveal(flag_arm);
                            }
                        }
                        return Some(Err(e));
                    },
                    None => {
                        let out = self.trimmed(start, i_end);
                        proof {
                            assert(step(data, prev) == StepRes::Emit(Ok(out@), self.lex())) by {
                                reveal(step);
                                reveal(flag_arm);
                            }
                        }
                        return Some(Ok(out));
                    },
                }
            } else if c == 32 && else_found {
                let (lo, hi) = self.trim_bounds(else_pos, self.read - 1);
                let is_if = hi - lo == 2 && self.data[lo] == 105 && self.data[lo + 1] == 102;
                proof {
                    let out = trim_seq(data.subrange(else_pos as int, self.read - 1));
                    assert(out == data.subrange(lo as int, hi as int));
                    if is_if {
                        assert(out =~= if_bytes());
                    } else if hi > lo {
                        if out == if_bytes() {
                            assert(out.len() == 2);
                            assert(out[0] == 105 && out[1] == 102);
                            assert(data[lo as int] == out[0] && data[lo + 1] == out[1]);
                            assert(false);
                        }
                    }
                }
                if hi > lo && !is_if {
                    // rewind and emit a synthetic one-word `else` statement
                    self.read = else_pos;
                    let out = else_vec();
                    proof {
                        assert(step(data, prev) == StepRes::Emit(Ok(out@), self.lex())) by {
                            reveal(step);
                            reveal(flag_arm);
                        }
                    }
                    return Some(Ok(out));
                } else {
                    else_found = false;
                    self.comm1 = false;
                    self.comm2 = false;
                    proof {
                        assert(step(data, prev) == StepRes::Cont(
                            cur_of(
                                *self,
                                start as int,
                                first_arg,
                                else_found,
                                else_pos as int,
                                error,
                            ),
                        )) by {
                            reveal(step);
                            reveal(flag_arm);
                        }
                        lemma_scan_cont(
                            data,
                            prev,
                            cur_of(
                                *self,
                                start as int,
                                first_arg,
                                else_found,
                                else_pos as int,
                                error,
                            ),
                        );
                    }
                    continue ;
                }
            } else if c == 32 && !first_arg {
                let (lo, hi) = self.trim_bounds(start, self.read - 1);
                proof {
                    let out = trim_seq(data.subrange(start as int, self.read - 1));
                    assert(out == data.subrange(lo as int, hi as int));
                    if hi - lo == 4 && self.data@[lo as int] == 101 && self.data@[lo + 1] == 108
                        && self.data@[lo + 2] == 115 && self.data@[lo + 3] == 101 {
                        assert(out =~= else_bytes());
                    } else if hi > lo {
                        if out == else_bytes() {
                            assert(out.len() == 4);
                            assert(out[0] == 101 && out[1] == 108 && out[2] == 115 && out[3]
                                == 101);
                            assert(data[lo as int] == out[0] && data[lo + 1] == out[1] && data[lo
                                + 2] == out[2] && data[lo + 3] == out[3]);
                            assert(false);
                        }
                    }
                }
                if hi > lo {
                    let is_else = hi - lo == 4 && self.data[lo] == 101 && self.data[lo + 1]
                        == 108 && self.data[lo + 2] == 115 && self.data[lo + 3] == 101;
                    if is_else {
                        else_found = true;
                        else_pos = self.read;
                    } else {
                        first_arg = true;
                    }
                }
                self.comm1 = false;
                self.comm2 = false;
                proof {
                    assert(step(data, prev) == StepRes::Cont(
                        cur_of(*self, start as int, first_arg, else_found, else_pos as int, error),
                    )) by {
                        reveal(step);
                        reveal(flag_arm);
                    }
                    lemma_scan_cont(
                        data,
                        prev,
                        cur_of(*self, start as int, first_arg, else_found, else_pos as int, error),
                    );
                }
                continue ;
            } else {
                // any byte outside `[A-Za-z0-9_]` ends an identifier scan
                if (self.variab || self.array) && is_invalid(c) {
                    self.variab = false;
                    self.array = false;
                }
                self.comm1 = false;
                self.comm2 = false;
                proof {
                    assert(step(data, prev) == StepRes::Cont(
                        cur_of(*self, start as int, first_arg, else_found, else_pos as int, error),
                    )) by {
                        reveal(step);
                        reveal(flag_arm);
                    }
                    lemma_scan_cont(
                        data,
                        prev,
                        cur_of(*self, start as int, first_arg, else_found, else_pos as int, error),
                    );
                }
                continue ;
            }
        }

        // end of input with part of a statement consumed
        let ghost fin = ScanSt {
            lex: self.lex(),
            start: start as int,
            first_arg,
            else_found,
            else_pos: else_pos as int,
            err: opt_err_view(error),
        };
        proof {
            reveal(eof_result);
            assert(scan(data, fin) == eof_result(data, fin));
        }
        match error {
            Some(e) => {
                return Some(Err(e));
            },
            None => {},
        }
        if self.p_level != 0 || self.ap_level != 0 {
            return Some(Err(StatementError::UnterminatedSubshell));
        }
        if self.method {
            return Some(Err(StatementError::UnterminatedMethod));
        }
        if self.vbrace {
            return Some(Err(StatementError::UnterminatedBracedVar));
        }
        if self.brace_level != 0 {
            return Some(Err(StatementError::UnterminatedBrace));
        }
        if self.mathexpr {
            return Some(Err(StatementError::UnterminatedArithmetic));
        }
        let (lo, hi) = self.trim_bounds(start, n);
        if lo == hi {
            let out: Vec<u8> = Vec::new();
            proof {
                assert(out@ =~= trim_seq(data.subrange(start as int, n as int)));
            }
            return Some(Ok(out));
        }
        let b0 = self.data[lo];
        if b0 == 62 || b0 == 60 || b0 == 94 {
            return Some(Err(StatementError::ExpectedCommandButFound(CommandFound::Redirection)));
        }
        if b0 == 124 {
            return Some(Err(StatementError::ExpectedCommandButFound(CommandFound::Pipe)));
        }
        if b0 == 38 {
            return Some(Err(StatementError::ExpectedCommandButFound(CommandFound::Ampersand)));
        }
        let out = self.copy_range(lo, hi);
        if b0 == 42 || b0 == 37 || b0 == 63 || b0 == 123 || b0 == 125 {
            return Some(Err(StatementError::IllegalCommandName(out)));
        }
        Some(Ok(out))
    }
}

/// Whether a byte counts as ASCII whitespace for statement trimming.
fn is_ws_byte(c: u8) -> (r: bool)
    ensures
        r == is_ws(c),
{
    c == 32 || (9 <= c && c <= 13)
}

/// Whether a byte is illegal inside a braced variable reference.
fn vbrace_invalid_byte(c: u8) -> (r: bool)
    ensures
        r == is_vbrace_invalid(c),
{
    c <= 43 || (45 <= c && c <= 47) || (59 <= c && c <= 64) || (91 <= c && c <= 94) || c == 96
        || (123 <= c && c <= 124) || (126 <= c && c <= 127)
}

/// The synthetic statement emitted for a lone `else`.
fn else_vec() -> (r: Vec<u8>)
    ensures
        r@ == else_bytes(),
{
    let mut v: Vec<u8> = Vec::new();
    v.push(101);
    v.push(108);
    v.push(115);
    v.push(101);
    proof {
        assert(v@ =~= else_bytes());
    }
    v
}

} // verus!
