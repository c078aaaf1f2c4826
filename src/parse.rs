//! The emitter: tokens to constants and bytecode, in one pass.

use vstd::prelude::*;
use crate::bytecode::ByteCode;
use crate::lex::{lex_measure, lex_next, lex_peek, lemma_next_progress, lemma_peek_progress, Keyword, Lex, LexError, LexView, Symbol, Tok, Token};
use crate::value::{bytes_eq, copy_bytes, Val, Value};

verus! {

/// Why a source could not be turned into bytecode.
#[derive(Clone, Copy, Debug, PartialEq, Eq, Structural)]
pub enum ParseError {
    /// The source could not be split into tokens.
    Lex(LexError),
    /// A statement cannot start with the token that was read.
    UnexpectedToken,
    /// The token that was read begins no expression allowed there.
    InvalidExpression,
    /// This symbol should have come next.
    Expected(Symbol),
    /// A name should have come next.
    ExpectedName,
    /// A call without `(` or a string literal after the function.
    ExpectedArgument,
    /// More than 256 constants.
    TooManyConstants,
    /// A stack slot beyond 255 would be needed.
    StackOverflow,
    /// A table constructor with more than 255 array or 255 keyed entries.
    TableTooLarge,
}

/// The abstract state of the emitter.
pub struct ProtoView {
    pub constants: Seq<Val>,
    pub bytecodes: Seq<ByteCode>,
    /// The names of the locals; the index of a name is its stack slot.
    pub locals: Seq<Seq<u8>>,
    /// The first stack slot free for temporaries.
    pub sp: int,
    pub lex: LexView,
}

/// The constant indices that `c` holds are all below `n`.
pub open spec fn code_in_pool(c: ByteCode, n: int) -> bool {
    match c {
        ByteCode::GetGlobal(_, k) => k < n,
        ByteCode::SetGlobal(k, _) => k < n,
        ByteCode::SetGlobalConst(a, b) => a < n && b < n,
        ByteCode::SetGlobalGlobal(a, b) => a < n && b < n,
        ByteCode::LoadConst(_, k) => k < n,
        ByteCode::SetField(_, k, _) => k < n,
        _ => true,
    }
}

/// No value occurs twice in `cs`.
#[verifier::opaque]
pub open spec fn distinct(cs: Seq<Val>) -> bool {
    forall|i: int, j: int| 0 <= i < j < cs.len() ==> cs[i] != cs[j]
}

/// Every instruction of `codes` refers only to constants of a pool of `n`.
#[verifier::opaque]
pub open spec fn codes_in_pool(codes: Seq<ByteCode>, n: int) -> bool {
    forall|i: int| 0 <= i < codes.len() ==> code_in_pool(#[trigger] codes[i], n)
}

impl ProtoView {
    pub open spec fn wf(self) -> bool {
        &&& self.lex.wf()
        &&& self.locals.len() <= self.sp <= 256
        &&& distinct(self.constants)
        &&& codes_in_pool(self.bytecodes, self.constants.len() as int)
    }
}

/// The emitter before it has read anything of `input`.
pub open spec fn initial(input: Seq<u8>) -> ProtoView {
    ProtoView {
        constants: Seq::empty(),
        bytecodes: Seq::empty(),
        locals: Seq::empty(),
        sp: 0,
        lex: LexView { input, pos: 0, ahead: Tok::Eos },
    }
}

pub type Step = Result<ProtoView, ParseError>;

/// `q` has consumed input that `p` had not.
///
/// The recursive definitions below go on only from a state that has
/// consumed input, which keeps them well founded. Every token but `Eos`
/// consumes input (`lemma_next_progress`), so their other branch is never
/// taken on a well-formed state.
pub open spec fn shrinks(q: ProtoView, p: ProtoView) -> bool {
    0 <= lex_measure(q.lex) < lex_measure(p.lex)
}

/// `q` has consumed no less than `p`.
pub open spec fn keeps(q: ProtoView, p: ProtoView) -> bool {
    0 <= lex_measure(q.lex) <= lex_measure(p.lex)
}

pub open spec fn next_tok(p: ProtoView) -> Result<(Tok, ProtoView), ParseError> {
    match lex_next(p.lex) {
        Ok((t, l)) => Ok((t, ProtoView { lex: l, ..p })),
        Err(e) => Err(ParseError::Lex(e)),
    }
}

pub open spec fn peek_tok(p: ProtoView) -> Result<(Tok, ProtoView), ParseError> {
    match lex_peek(p.lex) {
        Ok((t, l)) => Ok((t, ProtoView { lex: l, ..p })),
        Err(e) => Err(ParseError::Lex(e)),
    }
}

/// The first index at or after `i` where `cs` holds `v`, or -1.
pub open spec fn find_const(cs: Seq<Val>, v: Val, i: int) -> int
    decreases cs.len() - i,
{
    if i < 0 || i >= cs.len() {
        -1
    } else if cs[i] == v {
        i
    } else {
        find_const(cs, v, i + 1)
    }
}

/// The pool after adding `v`, and the index of `v` in it: an equal value
/// already there is reused.
pub open spec fn add_const(cs: Seq<Val>, v: Val) -> (Seq<Val>, int) {
    let i = find_const(cs, v, 0);
    if i >= 0 {
        (cs, i)
    } else {
        (cs.push(v), cs.len() as int)
    }
}

/// The slot of the local `n`: the rightmost one so named, or -1.
pub open spec fn local_slot(locals: Seq<Seq<u8>>, n: Seq<u8>) -> int
    decreases locals.len(),
{
    if locals.len() == 0 {
        -1
    } else if locals.last() == n {
        locals.len() - 1
    } else {
        local_slot(locals.drop_last(), n)
    }
}

pub open spec fn emit(p: ProtoView, c: ByteCode) -> ProtoView {
    ProtoView { bytecodes: p.bytecodes.push(c), ..p }
}

/// Adds `v` to the pool; fails when its index does not fit an operand.
pub open spec fn const_operand(p: ProtoView, v: Val) -> Result<(ProtoView, u8), ParseError> {
    let (cs, i) = add_const(p.constants, v);
    if i > 255 {
        Err(ParseError::TooManyConstants)
    } else {
        Ok((ProtoView { constants: cs, ..p }, i as u8))
    }
}

/// The instruction that loads the constant `v` into `dst`.
pub open spec fn load_const_code(p: ProtoView, dst: int, v: Val) -> Result<(ProtoView, ByteCode), ParseError> {
    match const_operand(p, v) {
        Ok((q, k)) => Ok((q, ByteCode::LoadConst(dst as u8, k))),
        Err(e) => Err(e),
    }
}

/// The instruction that loads the variable `n` into `dst`: a local if one
/// is so named, else a global.
pub open spec fn load_var_code(p: ProtoView, dst: int, n: Seq<u8>) -> Result<(ProtoView, ByteCode), ParseError> {
    let i = local_slot(p.locals, n);
    if i >= 0 {
        Ok((p, ByteCode::Move(dst as u8, i as u8)))
    } else {
        match const_operand(p, Val::Str(n)) {
            Ok((q, k)) => Ok((q, ByteCode::GetGlobal(dst as u8, k))),
            Err(e) => Err(e),
        }
    }
}

pub open spec fn emit_pair(r: Result<(ProtoView, ByteCode), ParseError>) -> Step {
    match r {
        Ok((q, c)) => Ok(emit(q, c)),
        Err(e) => Err(e),
    }
}

/// Reads an expression and emits the code that puts its value in `dst`.
pub open spec fn expression(p: ProtoView, dst: int) -> Step
    decreases lex_measure(p.lex), 2int,
{
    match next_tok(p) {
        Err(e) => Err(e),
        Ok((t, q)) => if keeps(q, p) {
            expression_from(q, t, dst)
        } else {
            Err(ParseError::InvalidExpression)
        },
    }
}

/// Emits the code that puts in `dst` the value of the expression whose
/// first token `t` was just read.
pub open spec fn expression_from(p: ProtoView, t: Tok, dst: int) -> Step
    decreases lex_measure(p.lex), 1int,
{
    match t {
        Tok::Keyword(Keyword::Nil) => Ok(emit(p, ByteCode::LoadNil(dst as u8))),
        Tok::Keyword(Keyword::True) => Ok(emit(p, ByteCode::LoadBool(dst as u8, true))),
        Tok::Keyword(Keyword::False) => Ok(emit(p, ByteCode::LoadBool(dst as u8, false))),
        Tok::Integer(i) => if i16::MIN <= i <= i16::MAX {
            Ok(emit(p, ByteCode::LoadInt(dst as u8, i as i16)))
        } else {
            emit_pair(load_const_code(p, dst, Val::Integer(i)))
        },
        Tok::Float(f) => emit_pair(load_const_code(p, dst, Val::Float(f))),
        Tok::Str(s) => emit_pair(load_const_code(p, dst, Val::Str(s))),
        Tok::Name(n) => emit_pair(load_var_code(p, dst, n)),
        Tok::Symbol(Symbol::CurlyL) => {
            let t = if dst >= p.sp { dst } else { p.sp };
            if t + 1 > 256 {
                Err(ParseError::StackOverflow)
            } else {
                let q = ProtoView { sp: t + 1, ..emit(p, ByteCode::NewTable(t as u8, 0, 0)) };
                table_entries(q, TableFrame { table: t, start: p.bytecodes.len() as int, narray: 0, nmap: 0, saved_sp: p.sp, dst })
            }
        },
        _ => Err(ParseError::InvalidExpression),
    }
}

/// What a table constructor under way keeps track of.
pub struct TableFrame {
    /// The stack slot of the table.
    pub table: int,
    /// The index of its `NewTable` instruction.
    pub start: int,
    /// Entries so far for the array part.
    pub narray: int,
    /// Keyed entries so far.
    pub nmap: int,
    /// The free slot before the constructor began.
    pub saved_sp: int,
    /// Where the table's value goes.
    pub dst: int,
}

pub type Entry = Result<(ProtoView, TableFrame), ParseError>;

/// A keyed entry `[k] = v`, from just after `[`: the key goes to the first
/// free slot, the value to the one above.
pub open spec fn keyed_entry(p: ProtoView, f: TableFrame) -> Entry
    decreases lex_measure(p.lex), 3int,
{
    let k = p.sp;
    if k + 2 > 256 {
        Err(ParseError::StackOverflow)
    } else {
        match expression(p, k) {
            Err(e) => Err(e),
            Ok(q1) => match next_tok(q1) {
                Err(e) => Err(e),
                Ok((t1, q2)) => if t1 != Tok::Symbol(Symbol::SqurR) {
                    Err(ParseError::Expected(Symbol::SqurR))
                } else {
                    match next_tok(q2) {
                        Err(e) => Err(e),
                        Ok((t2, q3)) => if t2 != Tok::Symbol(Symbol::Assign) {
                            Err(ParseError::Expected(Symbol::Assign))
                        } else if !keeps(q3, p) {
                            Err(ParseError::InvalidExpression)
                        } else {
                            match expression(q3, k + 1) {
                                Err(e) => Err(e),
                                Ok(q4) => Ok((
                                    emit(q4, ByteCode::SetTable(f.table as u8, k as u8, (k + 1) as u8)),
                                    TableFrame { nmap: f.nmap + 1, ..f },
                                )),
                            }
                        },
                    }
                },
            },
        }
    }
}

/// An entry that starts with the name `n`: `n = v` sets the field `n`;
/// otherwise the variable `n` is an item of the array part.
pub open spec fn named_entry(p: ProtoView, n: Seq<u8>, f: TableFrame) -> Entry
    decreases lex_measure(p.lex), 3int,
{
    match peek_tok(p) {
        Err(e) => Err(e),
        Ok((t1, q1)) => {
            let v = q1.sp;
            if v + 1 > 256 {
                Err(ParseError::StackOverflow)
            } else if t1 == Tok::Symbol(Symbol::Assign) {
                match next_tok(q1) {
                    Err(e) => Err(e),
                    Ok((_, q2)) => if !keeps(q2, p) {
                        Err(ParseError::InvalidExpression)
                    } else {
                        match expression(q2, v) {
                            Err(e) => Err(e),
                            Ok(q3) => match const_operand(q3, Val::Str(n)) {
                                Err(e) => Err(e),
                                Ok((q4, k)) => Ok((
                                    emit(q4, ByteCode::SetField(f.table as u8, k, v as u8)),
                                    TableFrame { nmap: f.nmap + 1, ..f },
                                )),
                            },
                        }
                    },
                }
            } else {
                match emit_pair(load_var_code(q1, v, n)) {
                    Err(e) => Err(e),
                    Ok(q2) => Ok((ProtoView { sp: v + 1, ..q2 }, TableFrame { narray: f.narray + 1, ..f })),
                }
            }
        },
    }
}

/// An item of the array part whose first token `t` was just read; it goes
/// to the first free slot, which it then keeps.
pub open spec fn item_entry(p: ProtoView, t: Tok, f: TableFrame) -> Entry
    decreases lex_measure(p.lex), 3int,
{
    let v = p.sp;
    if v + 1 > 256 {
        Err(ParseError::StackOverflow)
    } else {
        match expression_from(p, t, v) {
            Err(e) => Err(e),
            Ok(q1) => Ok((ProtoView { sp: v + 1, ..q1 }, TableFrame { narray: f.narray + 1, ..f })),
        }
    }
}

/// An entry of a table constructor whose first token `tok` was just read.
pub open spec fn entry(p: ProtoView, tok: Tok, f: TableFrame) -> Entry
    decreases lex_measure(p.lex), 4int,
{
    match tok {
        Tok::Symbol(Symbol::SqurL) => keyed_entry(p, f),
        Tok::Name(n) => named_entry(p, n, f),
        _ => item_entry(p, tok, f),
    }
}

/// The entries of a table constructor, from just after `{` or a separator.
pub open spec fn table_entries(p: ProtoView, f: TableFrame) -> Step
    decreases lex_measure(p.lex), 0int,
{
    match next_tok(p) {
        Err(e) => Err(e),
        Ok((tok, q)) => if tok == Tok::Symbol(Symbol::CurlyR) {
            table_end(q, f)
        } else if tok is Eos {
            Err(ParseError::Expected(Symbol::CurlyR))
        } else if !shrinks(q, p) {
            Err(ParseError::InvalidExpression)
        } else {
            match entry(q, tok, f) {
                Err(e) => Err(e),
                Ok((q1, f1)) => if !shrinks(q1, p) {
                    Err(ParseError::InvalidExpression)
                } else {
                    table_separator(q1, f1)
                },
            }
        },
    }
}

/// After an entry: a separator and more entries, or the closing brace.
pub open spec fn table_separator(p: ProtoView, f: TableFrame) -> Step
    decreases lex_measure(p.lex), 0int,
{
    match next_tok(p) {
        Err(e) => Err(e),
        Ok((t, q)) => if t == Tok::Symbol(Symbol::CurlyR) {
            table_end(q, f)
        } else if t == Tok::Symbol(Symbol::Comma) || t == Tok::Symbol(Symbol::SemiColon) {
            if shrinks(q, p) {
                table_entries(q, f)
            } else {
                Err(ParseError::InvalidExpression)
            }
        } else {
            Err(ParseError::Expected(Symbol::CurlyR))
        },
    }
}

/// Closes a table constructor: appends the array entries, fills in the
/// sizes of `NewTable`, moves the table to its destination and frees the
/// temporaries.
pub open spec fn table_end(p: ProtoView, f: TableFrame) -> Step {
    if f.narray > 255 || f.nmap > 255 {
        Err(ParseError::TableTooLarge)
    } else {
        let q1 = if f.narray > 0 { emit(p, ByteCode::SetList(f.table as u8, f.narray as u8)) } else { p };
        let q2 = ProtoView {
            bytecodes: q1.bytecodes.update(f.start, ByteCode::NewTable(f.table as u8, f.narray as u8, f.nmap as u8)),
            ..q1
        };
        let q3 = if f.table != f.dst { emit(q2, ByteCode::Move(f.dst as u8, f.table as u8)) } else { q2 };
        Ok(ProtoView { sp: f.saved_sp, ..q3 })
    }
}

/// A call `f(e)` or `f "s"` of the function named `n` (already read): the
/// function goes to the first slot above the locals, its one argument to
/// the slot above that.
pub open spec fn function_call(p: ProtoView, n: Seq<u8>) -> Step {
    let f = p.locals.len() as int;
    if f + 2 > 256 {
        Err(ParseError::StackOverflow)
    } else {
        match emit_pair(load_var_code(p, f, n)) {
            Err(e) => Err(e),
            Ok(q) => match next_tok(ProtoView { sp: f + 1, ..q }) {
                Err(e) => Err(e),
                Ok((t, q1)) => {
                    let arg: Step = match t {
                        Tok::Symbol(Symbol::ParL) => match expression(q1, f + 1) {
                            Err(e) => Err(e),
                            Ok(q2) => match next_tok(q2) {
                                Err(e) => Err(e),
                                Ok((t2, q3)) => if t2 == Tok::Symbol(Symbol::ParR) {
                                    Ok(q3)
                                } else {
                                    Err(ParseError::Expected(Symbol::ParR))
                                },
                            },
                        },
                        Tok::Str(s) => emit_pair(load_const_code(q1, f + 1, Val::Str(s))),
                        _ => Err(ParseError::ExpectedArgument),
                    };
                    match arg {
                        Err(e) => Err(e),
                        Ok(q2) => Ok(ProtoView { sp: f, ..emit(q2, ByteCode::Call(f as u8, 1)) }),
                    }
                },
            },
        }
    }
}

/// `local n = e`, after `local`: the value goes to the slot the new local
/// will own, which the expression does not yet see.
pub open spec fn local_bind(p: ProtoView) -> Step {
    match next_tok(p) {
        Err(e) => Err(e),
        Ok((t, q)) => match t {
            Tok::Name(n) => match next_tok(q) {
                Err(e) => Err(e),
                Ok((t1, q1)) => if t1 != Tok::Symbol(Symbol::Assign) {
                    Err(ParseError::Expected(Symbol::Assign))
                } else {
                    let dst = q1.locals.len() as int;
                    if dst + 1 > 256 {
                        Err(ParseError::StackOverflow)
                    } else {
                        match expression(q1, dst) {
                            Err(e) => Err(e),
                            Ok(q2) => Ok(ProtoView { locals: q2.locals.push(n), sp: dst + 1, ..q2 }),
                        }
                    }
                },
            },
            _ => Err(ParseError::ExpectedName),
        },
    }
}

/// The constant a literal token stands for.
pub open spec fn literal(t: Tok) -> Option<Val> {
    match t {
        Tok::Keyword(Keyword::Nil) => Some(Val::Nil),
        Tok::Keyword(Keyword::True) => Some(Val::Boolean(true)),
        Tok::Keyword(Keyword::False) => Some(Val::Boolean(false)),
        Tok::Integer(i) => Some(Val::Integer(i)),
        Tok::Float(f) => Some(Val::Float(f)),
        Tok::Str(s) => Some(Val::Str(s)),
        _ => None,
    }
}

/// `n = e` with the `=` still unread. A local takes the value in its own
/// slot. A global is set by one instruction from a literal, a local or
/// another global; a table is built in the first free slot and stored from
/// there.
pub open spec fn assignment(p: ProtoView, n: Seq<u8>) -> Step {
    match next_tok(p) {
        Err(e) => Err(e),
        Ok((_, q)) => {
            let slot = local_slot(q.locals, n);
            if slot >= 0 {
                expression(q, slot)
            } else {
                match const_operand(q, Val::Str(n)) {
                    Err(e) => Err(e),
                    Ok((q1, g)) => match next_tok(q1) {
                        Err(e) => Err(e),
                        Ok((t, q2)) => match literal(t) {
                            Some(v) => match const_operand(q2, v) {
                                Err(e) => Err(e),
                                Ok((q3, c)) => Ok(emit(q3, ByteCode::SetGlobalConst(g, c))),
                            },
                            None => match t {
                                Tok::Name(r) => {
                                    let i = local_slot(q2.locals, r);
                                    if i >= 0 {
                                        Ok(emit(q2, ByteCode::SetGlobal(g, i as u8)))
                                    } else {
                                        match const_operand(q2, Val::Str(r)) {
                                            Err(e) => Err(e),
                                            Ok((q3, k)) => Ok(emit(q3, ByteCode::SetGlobalGlobal(g, k))),
                                        }
                                    }
                                },
                                Tok::Symbol(Symbol::CurlyL) => {
                                    let v = q2.sp;
                                    if v + 1 > 256 {
                                        Err(ParseError::StackOverflow)
                                    } else {
                                        match expression_from(q2, t, v) {
                                            Err(e) => Err(e),
                                            Ok(q3) => Ok(emit(q3, ByteCode::SetGlobal(g, v as u8))),
                                        }
                                    }
                                },
                                _ => Err(ParseError::InvalidExpression),
                            },
                        },
                    },
                }
            }
        },
    }
}

/// The statements from the current position to the end of the source.
pub open spec fn chunk(p: ProtoView) -> Step
    decreases lex_measure(p.lex),
{
    match next_tok(p) {
        Err(e) => Err(e),
        Ok((t, q)) => {
            let stmt: Step = match t {
                Tok::Eos => Ok(q),
                Tok::Symbol(Symbol::SemiColon) => Ok(q),
                Tok::Name(n) => match peek_tok(q) {
                    Err(e) => Err(e),
                    Ok((t1, q1)) => if t1 == Tok::Symbol(Symbol::Assign) {
                        assignment(q1, n)
                    } else {
                        function_call(q1, n)
                    },
                },
                Tok::Keyword(Keyword::Local) => local_bind(q),
                _ => Err(ParseError::UnexpectedToken),
            };
            match stmt {
                Err(e) => Err(e),
                Ok(q1) => if t is Eos {
                    Ok(q1)
                } else if shrinks(q1, p) {
                    chunk(q1)
                } else {
                    Err(ParseError::UnexpectedToken)
                },
            }
        },
    }
}

/// What the emitter makes of a whole source.
pub open spec fn compile(input: Seq<u8>) -> Step {
    chunk(initial(input))
}

// ---------------------------------------------------------------------
// The emitter.

/// The emitter's state while it reads a source, and its result: the
/// constant pool and the bytecode.
pub struct ParseProto {
    /// The constant pool; no value occurs twice.
    pub constants: Vec<Value>,
    /// The instructions, in order of execution.
    pub bytecodes: Vec<ByteCode>,
    /// The names of the locals; the index of a name is its stack slot.
    pub locals: Vec<Vec<u8>>,
    /// The first stack slot free for temporaries.
    pub sp: usize,
    /// The lexer, which the emitter owns while it reads.
    pub lexer: Lex,
}

impl ParseProto {
    /// The constant pool as values.
    pub open spec fn pool(&self) -> Seq<Val> {
        self.constants@.map_values(|v: Value| v@)
    }
}

impl View for ParseProto {
    type V = ProtoView;

    open spec fn view(&self) -> ProtoView {
        ProtoView {
            constants: self.pool(),
            bytecodes: self.bytecodes@,
            locals: self.locals@.map_values(|n: Vec<u8>| n@),
            sp: self.sp as int,
            lex: self.lexer@,
        }
    }
}

/// `r` is what the step `st` describes, and `fin` is the state it ends in.
pub open spec fn parsed(r: Result<(), ParseError>, st: Step, fin: ProtoView) -> bool {
    match st {
        Ok(q) => r is Ok && fin == q,
        Err(e) => r == Err::<(), ParseError>(e),
    }
}

/// After a step that succeeded from `p`, the emitter is well formed and
/// has consumed no less than before.
pub open spec fn advanced(r: Result<(), ParseError>, p: ProtoView, fin: ProtoView) -> bool {
    r is Ok ==> fin.wf() && keeps(fin, p) && fin.bytecodes.len() >= p.bytecodes.len()
        && fin.constants.len() >= p.constants.len()
}

/// Reading a token keeps the emitter well formed and consumes input
/// unless the token is `Eos`.
pub proof fn lemma_next_tok(p: ProtoView)
    requires
        p.wf(),
    ensures
        next_tok(p) matches Ok((t, q)) ==> q.wf() && keeps(q, p) && (!(t is Eos) ==> shrinks(q, p)),
{
    lemma_next_progress(p.lex);
}

proof fn lemma_peek_tok(p: ProtoView)
    requires
        p.wf(),
    ensures
        peek_tok(p) matches Ok((t, q)) ==> q.wf() && keeps(q, p),
{
    lemma_peek_progress(p.lex);
}

proof fn lemma_find_const(cs: Seq<Val>, v: Val, i: int)
    requires
        0 <= i <= cs.len(),
    ensures
        find_const(cs, v, i) == -1 || (i <= find_const(cs, v, i) < cs.len() && cs[find_const(cs, v, i)] == v),
        find_const(cs, v, i) == -1 ==> forall|j: int| i <= j < cs.len() ==> cs[j] != v,
    decreases cs.len() - i,
{
    if i < cs.len() && cs[i] != v {
        lemma_find_const(cs, v, i + 1);
    }
}

/// Adding a constant keeps the pool free of repeats, and the index it
/// gives holds the value.
proof fn lemma_add_const(cs: Seq<Val>, v: Val)
    requires
        distinct(cs),
    ensures
        distinct(add_const(cs, v).0),
        0 <= add_const(cs, v).1 < add_const(cs, v).0.len(),
        add_const(cs, v).0[add_const(cs, v).1] == v,
        add_const(cs, v).0.len() >= cs.len(),
        add_const(cs, v).0.subrange(0, cs.len() as int) == cs,
{
    reveal(distinct);
    lemma_find_const(cs, v, 0);
    assert(add_const(cs, v).0.subrange(0, cs.len() as int) =~= cs);
}

proof fn lemma_codes_grow(codes: Seq<ByteCode>, n: int, m: int)
    requires
        codes_in_pool(codes, n),
        n <= m,
    ensures
        codes_in_pool(codes, m),
{
    reveal(codes_in_pool);
    assert forall|i: int| 0 <= i < codes.len() implies code_in_pool(#[trigger] codes[i], m) by {
        assert(code_in_pool(codes[i], n));
    }
}

impl ParseProto {
    /// An emitter about to read `input`.
    pub fn new(input: Vec<u8>) -> (r: ParseProto)
        ensures
            r@ == initial(input@),
            r@.wf(),
    {
        let r = ParseProto {
            constants: Vec::new(),
            bytecodes: Vec::new(),
            locals: Vec::new(),
            sp: 0,
            lexer: Lex::new(input),
        };
        assert(r.pool() =~= Seq::empty());
        reveal(distinct);
        reveal(codes_in_pool);
        assert(r.locals@.map_values(|n: Vec<u8>| n@) =~= Seq::empty());
        r
    }

    fn next_token(&mut self) -> (r: Result<Token, ParseError>)
        requires
            old(self)@.wf(),
        ensures
            match next_tok(old(self)@) {
                Ok((t, q)) => match r {
                    Ok(tok) => tok@ == t && final(self)@ == q,
                    Err(_) => false,
                },
                Err(e) => r == Err::<Token, ParseError>(e),
            },
            r is Ok ==> final(self)@.wf() && keeps(final(self)@, old(self)@),
            r matches Ok(t) && !(t is Eos) ==> shrinks(final(self)@, old(self)@),
    {
        proof {
            lemma_next_tok(self@);
        }
        match self.lexer.next() {
            Ok(t) => Ok(t),
            Err(e) => Err(ParseError::Lex(e)),
        }
    }

    fn peek_token(&mut self) -> (r: Result<Token, ParseError>)
        requires
            old(self)@.wf(),
        ensures
            match peek_tok(old(self)@) {
                Ok((t, q)) => match r {
                    Ok(tok) => tok@ == t && final(self)@ == q,
                    Err(_) => false,
                },
                Err(e) => r == Err::<Token, ParseError>(e),
            },
            r is Ok ==> final(self)@.wf() && keeps(final(self)@, old(self)@),
    {
        proof {
            lemma_peek_tok(self@);
        }
        match self.lexer.peek() {
            Ok(t) => Ok(t),
            Err(e) => Err(ParseError::Lex(e)),
        }
    }

    /// Puts `constant` in the pool unless an equal value is there already,
    /// and returns its index.
    pub fn add_const(&mut self, constant: Value) -> (r: usize)
        ensures
            final(self)@ == (ProtoView { constants: add_const(old(self)@.constants, constant@).0, ..old(self)@ }),
            r == add_const(old(self)@.constants, constant@).1,
    {
        let ghost cs = self@.constants;
        let mut i: usize = 0;
        while i < self.constants.len()
            invariant
                self@ == old(self)@,
                cs == old(self)@.constants,
                cs == self.pool(),
                i <= cs.len(),
                find_const(cs, constant@, i as int) == find_const(cs, constant@, 0),
            decreases cs.len() - i,
        {
            if self.constants[i] == constant {
                return i;
            }
            i = i + 1;
        }
        self.constants.push(constant);
        assert(self.pool() =~= cs.push(constant@));
        self.constants.len() - 1
    }

    /// Adds `v` to the pool and returns its index as an operand.
    fn const_operand(&mut self, v: Value) -> (r: Result<u8, ParseError>)
        requires
            old(self)@.wf(),
        ensures
            match const_operand(old(self)@, v@) {
                Ok((q, k)) => r == Ok::<u8, ParseError>(k) && final(self)@ == q,
                Err(e) => r == Err::<u8, ParseError>(e),
            },
            r is Ok ==> final(self)@.wf() && keeps(final(self)@, old(self)@) && final(self)@.lex == old(self)@.lex
                && final(self)@.constants.len() >= old(self)@.constants.len()
                && final(self)@.bytecodes == old(self)@.bytecodes
                && final(self)@.locals == old(self)@.locals && final(self)@.sp == old(self)@.sp,
            r matches Ok(k) ==> k < final(self)@.constants.len(),
    {
        proof {
            lemma_add_const(self@.constants, v@);
            lemma_codes_grow(self@.bytecodes, self@.constants.len() as int, add_const(self@.constants, v@).0.len() as int);
        }
        let i = self.add_const(v);
        if i > 255 {
            Err(ParseError::TooManyConstants)
        } else {
            Ok(i as u8)
        }
    }

    /// The instruction that loads the constant `c` into the slot `dst`;
    /// `c` is added to the pool, the instruction is not emitted.
    pub fn load_const(&mut self, dst: usize, c: Value) -> (r: Result<ByteCode, ParseError>)
        requires
            old(self)@.wf(),
            dst < 256,
        ensures
            match load_const_code(old(self)@, dst as int, c@) {
                Ok((q, code)) => r == Ok::<ByteCode, ParseError>(code) && final(self)@ == q,
                Err(e) => r == Err::<ByteCode, ParseError>(e),
            },
            r matches Ok(code) ==> final(self)@.wf() && keeps(final(self)@, old(self)@)
                && code_in_pool(code, final(self)@.constants.len() as int)
                && final(self)@.constants.len() >= old(self)@.constants.len()
                && final(self)@.bytecodes == old(self)@.bytecodes
                && final(self)@.locals == old(self)@.locals && final(self)@.sp == old(self)@.sp,
    {
        proof {
            lemma_add_const(self@.constants, c@);
        }
        match self.const_operand(c) {
            Ok(k) => Ok(ByteCode::LoadConst(dst as u8, k)),
            Err(e) => Err(e),
        }
    }

    /// The slot of the rightmost local named `name`.
    fn get_local(&self, name: &[u8]) -> (r: Option<usize>)
        ensures
            match r {
                Some(i) => i == local_slot(self@.locals, name@) && i >= 0,
                None => local_slot(self@.locals, name@) == -1,
            },
    {
        let ghost ls = self@.locals;
        let mut i: usize = self.locals.len();
        assert(ls.subrange(0, i as int) =~= ls);
        while i > 0
            invariant
                ls == self@.locals,
                ls == self.locals@.map_values(|n: Vec<u8>| n@),
                i <= ls.len(),
                local_slot(ls.subrange(0, i as int), name@) == local_slot(ls, name@),
            decreases i,
        {
            let ghost sub = ls.subrange(0, i as int);
            assert(sub.drop_last() =~= ls.subrange(0, i - 1));
            assert(sub.last() == self.locals@[i - 1]@);
            if bytes_eq(self.locals[i - 1].as_slice(), name) {
                return Some(i - 1);
            }
            i = i - 1;
        }
        None
    }

    /// The instruction that loads the variable `name` into the slot `dst`:
    /// a move from the rightmost local so named, else a read of the global.
    /// The instruction is not emitted.
    pub fn load_var(&mut self, dst: usize, name: Vec<u8>) -> (r: Result<ByteCode, ParseError>)
        requires
            old(self)@.wf(),
            dst < 256,
        ensures
            match load_var_code(old(self)@, dst as int, name@) {
                Ok((q, code)) => r == Ok::<ByteCode, ParseError>(code) && final(self)@ == q,
                Err(e) => r == Err::<ByteCode, ParseError>(e),
            },
            r matches Ok(code) ==> final(self)@.wf() && keeps(final(self)@, old(self)@)
                && code_in_pool(code, final(self)@.constants.len() as int)
                && final(self)@.constants.len() >= old(self)@.constants.len()
                && final(self)@.bytecodes == old(self)@.bytecodes
                && final(self)@.locals == old(self)@.locals && final(self)@.sp == old(self)@.sp,
    {
        match self.get_local(name.as_slice()) {
            Some(i) => {
                proof {
                    lemma_local_slot(self@.locals, name@);
                }
                Ok(ByteCode::Move(dst as u8, i as u8))
            },
            None => {
                proof {
                    lemma_add_const(self@.constants, Val::Str(name@));
                }
                match self.const_operand(Value::String(name)) {
                    Ok(k) => Ok(ByteCode::GetGlobal(dst as u8, k)),
                    Err(e) => Err(e),
                }
            },
        }
    }

    /// Appends an instruction.
    fn emit(&mut self, code: ByteCode)
        requires
            old(self)@.wf(),
            code_in_pool(code, old(self)@.constants.len() as int),
        ensures
            final(self)@ == emit(old(self)@, code),
            final(self)@.wf(),
    {
        self.bytecodes.push(code);
        proof {
            reveal(codes_in_pool);
        }
    }
}

impl ParseProto {
    /// Reads an expression and emits the code that puts its value in the
    /// slot `dst`.
    pub fn load_expression(&mut self, dst: usize) -> (r: Result<(), ParseError>)
        requires
            old(self)@.wf(),
            dst < 256,
        ensures
            parsed(r, expression(old(self)@, dst as int), final(self)@),
            advanced(r, old(self)@, final(self)@),
            r is Ok ==> final(self)@.locals == old(self)@.locals && final(self)@.sp == old(self)@.sp,
        decreases lex_measure(old(self)@.lex), 2int,
    {
        let t = match self.next_token() {
            Ok(t) => t,
            Err(e) => return Err(e),
        };
        self.load_expression_from(t, dst)
    }

    /// Emits the code that puts in `dst` the value of the expression whose
    /// first token `t` was just read.
    fn load_expression_from(&mut self, t: Token, dst: usize) -> (r: Result<(), ParseError>)
        requires
            old(self)@.wf(),
            dst < 256,
        ensures
            parsed(r, expression_from(old(self)@, t@, dst as int), final(self)@),
            advanced(r, old(self)@, final(self)@),
            r is Ok ==> final(self)@.locals == old(self)@.locals && final(self)@.sp == old(self)@.sp,
        decreases lex_measure(old(self)@.lex), 1int,
    {
        let code = match t {
            Token::Keyword(Keyword::Nil) => ByteCode::LoadNil(dst as u8),
            Token::Keyword(Keyword::True) => ByteCode::LoadBool(dst as u8, true),
            Token::Keyword(Keyword::False) => ByteCode::LoadBool(dst as u8, false),
            Token::Integer(i) => {
                if i16::MIN as i64 <= i && i <= i16::MAX as i64 {
                    ByteCode::LoadInt(dst as u8, i as i16)
                } else {
                    match self.load_const(dst, Value::Integer(i)) {
                        Ok(c) => c,
                        Err(e) => return Err(e),
                    }
                }
            },
            Token::Float(f) => match self.load_const(dst, Value::Float(f)) {
                Ok(c) => c,
                Err(e) => return Err(e),
            },
            Token::String(s) => match self.load_const(dst, Value::String(s)) {
                Ok(c) => c,
                Err(e) => return Err(e),
            },
            Token::Name(n) => match self.load_var(dst, n) {
                Ok(c) => c,
                Err(e) => return Err(e),
            },
            Token::Symbol(Symbol::CurlyL) => return self.table_constructor(dst),
            _ => return Err(ParseError::InvalidExpression),
        };
        self.emit(code);
        Ok(())
    }
}

/// The frame of a table whose constructor has just begun.
pub open spec fn frame_for(p: ProtoView, dst: int) -> TableFrame {
    let t = if dst >= p.sp { dst } else { p.sp };
    TableFrame { table: t, start: p.bytecodes.len() as int, narray: 0, nmap: 0, saved_sp: p.sp, dst }
}

/// An exact count, or 256 once it has passed 255.
pub open spec fn capped(n: int) -> int {
    if n < 256 { n } else { 256 }
}

impl ParseProto {
    /// A table constructor, from just after `{`: builds the table and puts
    /// it in the slot `dst`.
    fn table_constructor(&mut self, dst: usize) -> (r: Result<(), ParseError>)
        requires
            old(self)@.wf(),
            dst < 256,
        ensures
            parsed(r, expression_from(old(self)@, Tok::Symbol(Symbol::CurlyL), dst as int), final(self)@),
            advanced(r, old(self)@, final(self)@),
            r is Ok ==> final(self)@.locals == old(self)@.locals && final(self)@.sp == old(self)@.sp,
        decreases lex_measure(old(self)@.lex), 0int,
    {
        let ghost p0 = self@;
        let t: usize = if dst >= self.sp { dst } else { self.sp };
        if t + 1 > 256 {
            return Err(ParseError::StackOverflow);
        }
        let start = self.bytecodes.len();
        let saved = self.sp;
        self.emit(ByteCode::NewTable(t as u8, 0, 0));
        self.sp = t + 1;
        let ghost mut f = frame_for(p0, dst as int);
        assert(self@ == (ProtoView { sp: t + 1, ..emit(p0, ByteCode::NewTable(t as u8, 0, 0)) }));
        let mut narray: usize = 0;
        let mut nmap: usize = 0;
        loop
            invariant
                self@.wf(),
                p0 == old(self)@,
                keeps(self@, p0),
                self@.constants.len() >= p0.constants.len(),
                self@.locals == p0.locals,
                self@.bytecodes.len() > start,
                start == p0.bytecodes.len(),
                saved == p0.sp,
                p0.wf(),
                t < 256,
                t >= saved,
                t + 1 <= self@.sp,
                self@.sp <= 256,
                f.table == t,
                f.start == start,
                f.saved_sp == saved,
                f.dst == dst,
                dst < 256,
                f.narray >= 0,
                f.nmap >= 0,
                narray == capped(f.narray),
                nmap == capped(f.nmap),
                table_entries(self@, f) == expression_from(p0, Tok::Symbol(Symbol::CurlyL), dst as int),
            decreases lex_measure(self@.lex),
        {
            let ghost here = self@;
            let tok = match self.next_token() {
                Ok(tok) => tok,
                Err(e) => return Err(e),
            };
            match tok {
                Token::Symbol(Symbol::CurlyR) => {
                    return self.table_end(t, start, narray, nmap, saved, dst, Ghost(f));
                },
                Token::Eos => return Err(ParseError::Expected(Symbol::CurlyR)),
                _ => {},
            }
            match self.table_entry(tok, t, Ghost(f)) {
                Ok(true) => {
                    proof {
                        f = TableFrame { nmap: f.nmap + 1, ..f };
                    }
                    if nmap < 256 {
                        nmap = nmap + 1;
                    }
                },
                Ok(false) => {
                    proof {
                        f = TableFrame { narray: f.narray + 1, ..f };
                    }
                    if narray < 256 {
                        narray = narray + 1;
                    }
                },
                Err(e) => return Err(e),
            }
            let ghost after = self@;
            assert(shrinks(after, here));
            assert(table_separator(after, f) == expression_from(p0, Tok::Symbol(Symbol::CurlyL), dst as int));
            let sep = match self.next_token() {
                Ok(sep) => sep,
                Err(e) => return Err(e),
            };
            match sep {
                Token::Symbol(Symbol::CurlyR) => {
                    return self.table_end(t, start, narray, nmap, saved, dst, Ghost(f));
                },
                Token::Symbol(Symbol::Comma) | Token::Symbol(Symbol::SemiColon) => {
                    assert(table_entries(self@, f) == expression_from(p0, Tok::Symbol(Symbol::CurlyL), dst as int));
                },
                _ => return Err(ParseError::Expected(Symbol::CurlyR)),
            }
        }
    }

    /// Closes a table constructor.
    fn table_end(
        &mut self,
        t: usize,
        start: usize,
        narray: usize,
        nmap: usize,
        saved: usize,
        dst: usize,
        f: Ghost<TableFrame>,
    ) -> (r: Result<(), ParseError>)
        requires
            old(self)@.wf(),
            old(self)@.bytecodes.len() > start,
            f@.table == t,
            f@.start == start,
            f@.saved_sp == saved,
            f@.dst == dst,
            t < 256,
            dst < 256,
            saved <= t,
            old(self)@.locals.len() <= saved,
            f@.narray >= 0,
            f@.nmap >= 0,
            narray == capped(f@.narray),
            nmap == capped(f@.nmap),
        ensures
            parsed(r, table_end(old(self)@, f@), final(self)@),
            r is Ok ==> final(self)@.wf() && final(self)@.lex == old(self)@.lex
                && final(self)@.bytecodes.len() >= old(self)@.bytecodes.len()
                && final(self)@.constants.len() >= old(self)@.constants.len()
                && final(self)@.locals == old(self)@.locals && final(self)@.sp == saved,
    {
        if narray > 255 || nmap > 255 {
            return Err(ParseError::TableTooLarge);
        }
        if narray > 0 {
            self.emit(ByteCode::SetList(t as u8, narray as u8));
        }
        let ghost before = self@;
        self.bytecodes.set(start, ByteCode::NewTable(t as u8, narray as u8, nmap as u8));
        proof {
            reveal(codes_in_pool);
            let cs = self@.bytecodes;
            assert forall|i: int| 0 <= i < cs.len() implies code_in_pool(#[trigger] cs[i], self@.constants.len() as int) by {
                if i != start {
                    assert(cs[i] == before.bytecodes[i]);
                }
            }
        }
        if t != dst {
            self.emit(ByteCode::Move(dst as u8, t as u8));
        }
        self.sp = saved;
        Ok(())
    }

    /// An entry whose first token `tok` was just read. Tells whether it was
    /// keyed (`true`) or an item of the array part.
    fn table_entry(&mut self, tok: Token, t: usize, f: Ghost<TableFrame>) -> (r: Result<bool, ParseError>)
        requires
            old(self)@.wf(),
            f@.table == t,
            t < 256,
        ensures
            match entry(old(self)@, tok@, f@) {
                Ok((q, f1)) => match r {
                    Ok(keyed) => final(self)@ == q && f1 == (if keyed {
                        TableFrame { nmap: f@.nmap + 1, ..f@ }
                    } else {
                        TableFrame { narray: f@.narray + 1, ..f@ }
                    }),
                    Err(_) => false,
                },
                Err(e) => r == Err::<bool, ParseError>(e),
            },
            r is Ok ==> final(self)@.wf() && keeps(final(self)@, old(self)@)
                && final(self)@.bytecodes.len() >= old(self)@.bytecodes.len()
                && final(self)@.constants.len() >= old(self)@.constants.len()
                && final(self)@.locals == old(self)@.locals
                && old(self)@.sp <= final(self)@.sp <= old(self)@.sp + 1,
        decreases lex_measure(old(self)@.lex), 4int,
    {
        match tok {
            Token::Symbol(Symbol::SqurL) => match self.keyed_entry(t, f) {
                Ok(()) => Ok(true),
                Err(e) => Err(e),
            },
            Token::Name(n) => self.named_entry(n, t, f),
            _ => match self.item_entry(tok, t, f) {
                Ok(()) => Ok(false),
                Err(e) => Err(e),
            },
        }
    }

    /// A keyed entry `[k] = v`, from just after `[`.
    fn keyed_entry(&mut self, t: usize, f: Ghost<TableFrame>) -> (r: Result<(), ParseError>)
        requires
            old(self)@.wf(),
            f@.table == t,
            t < 256,
        ensures
            match keyed_entry(old(self)@, f@) {
                Ok((q, f1)) => r is Ok && final(self)@ == q && f1 == (TableFrame { nmap: f@.nmap + 1, ..f@ }),
                Err(e) => r == Err::<(), ParseError>(e),
            },
            advanced(r, old(self)@, final(self)@),
            r is Ok ==> final(self)@.locals == old(self)@.locals && final(self)@.sp == old(self)@.sp,
        decreases lex_measure(old(self)@.lex), 3int,
    {
        let ghost p = self@;
        let k = self.sp;
        if k + 2 > 256 {
            return Err(ParseError::StackOverflow);
        }
        match self.load_expression(k) {
            Ok(()) => {},
            Err(e) => return Err(e),
        }
        proof {
            lemma_next_tok(self@);
        }
        match self.lexer.expect(&Token::Symbol(Symbol::SqurR)) {
            Ok(()) => {},
            Err(e) => return Err(e),
        }
        proof {
            lemma_next_tok(self@);
        }
        match self.lexer.expect(&Token::Symbol(Symbol::Assign)) {
            Ok(()) => {},
            Err(e) => return Err(e),
        }
        assert(keeps(self@, p));
        match self.load_expression(k + 1) {
            Ok(()) => {},
            Err(e) => return Err(e),
        }
        self.emit(ByteCode::SetTable(t as u8, k as u8, (k + 1) as u8));
        Ok(())
    }

    /// An entry that starts with the name `n` (already read): a field
    /// `n = v`, or the variable `n` as an item of the array part. Tells
    /// which: `true` for a field.
    fn named_entry(&mut self, n: Vec<u8>, t: usize, f: Ghost<TableFrame>) -> (r: Result<bool, ParseError>)
        requires
            old(self)@.wf(),
            f@.table == t,
            t < 256,
        ensures
            match named_entry(old(self)@, n@, f@) {
                Ok((q, f1)) => match r {
                    Ok(field) => final(self)@ == q && f1 == (if field {
                        TableFrame { nmap: f@.nmap + 1, ..f@ }
                    } else {
                        TableFrame { narray: f@.narray + 1, ..f@ }
                    }),
                    Err(_) => false,
                },
                Err(e) => r == Err::<bool, ParseError>(e),
            },
            r is Ok ==> final(self)@.wf() && keeps(final(self)@, old(self)@)
                && final(self)@.bytecodes.len() >= old(self)@.bytecodes.len()
                && final(self)@.constants.len() >= old(self)@.constants.len()
                && final(self)@.locals == old(self)@.locals,
            r == Ok::<bool, ParseError>(true) ==> final(self)@.sp == old(self)@.sp,
            r == Ok::<bool, ParseError>(false) ==> final(self)@.sp == old(self)@.sp + 1,
        decreases lex_measure(old(self)@.lex), 3int,
    {
        let ghost p = self@;
        let next = match self.peek_token() {
            Ok(next) => next,
            Err(e) => return Err(e),
        };
        let v = self.sp;
        if v + 1 > 256 {
            return Err(ParseError::StackOverflow);
        }
        if let Token::Symbol(Symbol::Assign) = next {
            match self.next_token() {
                Ok(_) => {},
                Err(e) => return Err(e),
            }
            assert(keeps(self@, p));
            match self.load_expression(v) {
                Ok(()) => {},
                Err(e) => return Err(e),
            }
            let k = match self.const_operand(Value::String(n)) {
                Ok(k) => k,
                Err(e) => return Err(e),
            };
            self.emit(ByteCode::SetField(t as u8, k, v as u8));
            Ok(true)
        } else {
            let code = match self.load_var(v, n) {
                Ok(code) => code,
                Err(e) => return Err(e),
            };
            self.emit(code);
            self.sp = v + 1;
            Ok(false)
        }
    }

    /// An item of the array part whose first token `tok` was just read.
    fn item_entry(&mut self, tok: Token, t: usize, f: Ghost<TableFrame>) -> (r: Result<(), ParseError>)
        requires
            old(self)@.wf(),
            f@.table == t,
            t < 256,
        ensures
            match item_entry(old(self)@, tok@, f@) {
                Ok((q, f1)) => r is Ok && final(self)@ == q && f1 == (TableFrame { narray: f@.narray + 1, ..f@ }),
                Err(e) => r == Err::<(), ParseError>(e),
            },
            advanced(r, old(self)@, final(self)@),
            r is Ok ==> final(self)@.locals == old(self)@.locals && final(self)@.sp == old(self)@.sp + 1,
        decreases lex_measure(old(self)@.lex), 3int,
    {
        let v = self.sp;
        if v + 1 > 256 {
            return Err(ParseError::StackOverflow);
        }
        match self.load_expression_from(tok, v) {
            Ok(()) => {},
            Err(e) => return Err(e),
        }
        self.sp = v + 1;
        Ok(())
    }
}

/// The constant that a literal token stands for.
fn literal_value(t: &Token) -> (r: Option<Value>)
    ensures
        match r {
            Some(v) => literal(t@) == Some(v@),
            None => literal(t@) is None,
        },
{
    match t {
        Token::Keyword(Keyword::Nil) => Some(Value::Nil),
        Token::Keyword(Keyword::True) => Some(Value::Boolean(true)),
        Token::Keyword(Keyword::False) => Some(Value::Boolean(false)),
        Token::Integer(i) => Some(Value::Integer(*i)),
        Token::Float(f) => Some(Value::Float(*f)),
        Token::String(s) => Some(Value::String(copy_bytes(s.as_slice()))),
        _ => None,
    }
}

/// After a statement that succeeded from `p`, the emitter is well formed
/// and has consumed no less than before.
pub open spec fn stated(r: Result<(), ParseError>, p: ProtoView, fin: ProtoView) -> bool {
    r is Ok ==> fin.wf() && keeps(fin, p)
}

impl ParseProto {
    /// A call of the function named `name` (already read) with one
    /// argument: `name(e)` or `name "s"`.
    fn function_call(&mut self, name: Vec<u8>) -> (r: Result<(), ParseError>)
        requires
            old(self)@.wf(),
        ensures
            parsed(r, function_call(old(self)@, name@), final(self)@),
            stated(r, old(self)@, final(self)@),
    {
        let f = self.locals.len();
        if f + 2 > 256 {
            return Err(ParseError::StackOverflow);
        }
        let code = match self.load_var(f, name) {
            Ok(code) => code,
            Err(e) => return Err(e),
        };
        self.emit(code);
        self.sp = f + 1;
        let t = match self.next_token() {
            Ok(t) => t,
            Err(e) => return Err(e),
        };
        match t {
            Token::Symbol(Symbol::ParL) => {
                match self.load_expression(f + 1) {
                    Ok(()) => {},
                    Err(e) => return Err(e),
                }
                proof {
                    lemma_next_tok(self@);
                }
                match self.lexer.expect(&Token::Symbol(Symbol::ParR)) {
                    Ok(()) => {},
                    Err(e) => return Err(e),
                }
            },
            Token::String(s) => {
                let code = match self.load_const(f + 1, Value::String(s)) {
                    Ok(code) => code,
                    Err(e) => return Err(e),
                };
                self.emit(code);
            },
            _ => return Err(ParseError::ExpectedArgument),
        }
        self.emit(ByteCode::Call(f as u8, 1));
        self.sp = f;
        Ok(())
    }

    /// `local n = e`, after `local`.
    fn local_bind(&mut self) -> (r: Result<(), ParseError>)
        requires
            old(self)@.wf(),
        ensures
            parsed(r, local_bind(old(self)@), final(self)@),
            stated(r, old(self)@, final(self)@),
    {
        let n = match self.next_token() {
            Ok(Token::Name(n)) => n,
            Ok(_) => return Err(ParseError::ExpectedName),
            Err(e) => return Err(e),
        };
        match self.next_token() {
            Ok(Token::Symbol(Symbol::Assign)) => {},
            Ok(_) => return Err(ParseError::Expected(Symbol::Assign)),
            Err(e) => return Err(e),
        }
        let dst = self.locals.len();
        if dst + 1 > 256 {
            return Err(ParseError::StackOverflow);
        }
        match self.load_expression(dst) {
            Ok(()) => {},
            Err(e) => return Err(e),
        }
        let ghost before = self@;
        self.locals.push(n);
        self.sp = dst + 1;
        assert(self.locals@.map_values(|n: Vec<u8>| n@) =~= before.locals.push(n@));
        Ok(())
    }

    /// `name = e` with the `=` still unread.
    fn assignment(&mut self, name: Vec<u8>) -> (r: Result<(), ParseError>)
        requires
            old(self)@.wf(),
        ensures
            parsed(r, assignment(old(self)@, name@), final(self)@),
            stated(r, old(self)@, final(self)@),
    {
        match self.next_token() {
            Ok(_) => {},
            Err(e) => return Err(e),
        }
        if let Some(slot) = self.get_local(name.as_slice()) {
            proof {
                lemma_local_slot(self@.locals, name@);
            }
            return self.load_expression(slot);
        }
        let g = match self.const_operand(Value::String(name)) {
            Ok(g) => g,
            Err(e) => return Err(e),
        };
        let t = match self.next_token() {
            Ok(t) => t,
            Err(e) => return Err(e),
        };
        let code = match literal_value(&t) {
            Some(v) => match self.const_operand(v) {
                Ok(c) => ByteCode::SetGlobalConst(g, c),
                Err(e) => return Err(e),
            },
            None => match t {
                Token::Name(r) => match self.get_local(r.as_slice()) {
                    Some(i) => {
                        proof {
                            lemma_local_slot(self@.locals, r@);
                        }
                        ByteCode::SetGlobal(g, i as u8)
                    },
                    None => match self.const_operand(Value::String(r)) {
                        Ok(k) => ByteCode::SetGlobalGlobal(g, k),
                        Err(e) => return Err(e),
                    },
                },
                Token::Symbol(Symbol::CurlyL) => {
                    let v = self.sp;
                    if v + 1 > 256 {
                        return Err(ParseError::StackOverflow);
                    }
                    match self.load_expression_from(t, v) {
                        Ok(()) => {},
                        Err(e) => return Err(e),
                    }
                    ByteCode::SetGlobal(g, v as u8)
                },
                _ => return Err(ParseError::InvalidExpression),
            },
        };
        self.emit(code);
        Ok(())
    }

    /// The statements up to the end of the source.
    fn chunk(&mut self) -> (r: Result<(), ParseError>)
        requires
            old(self)@.wf(),
        ensures
            parsed(r, chunk(old(self)@), final(self)@),
            r is Ok ==> final(self)@.wf(),
    {
        loop
            invariant
                self@.wf(),
                chunk(self@) == chunk(old(self)@),
            decreases lex_measure(self@.lex),
        {
            let ghost here = self@;
            let t = match self.next_token() {
                Ok(t) => t,
                Err(e) => return Err(e),
            };
            match t {
                Token::Eos => return Ok(()),
                Token::Symbol(Symbol::SemiColon) => {},
                Token::Name(n) => {
                    let next = match self.peek_token() {
                        Ok(next) => next,
                        Err(e) => return Err(e),
                    };
                    let done = if let Token::Symbol(Symbol::Assign) = next {
                        self.assignment(n)
                    } else {
                        self.function_call(n)
                    };
                    match done {
                        Ok(()) => {},
                        Err(e) => return Err(e),
                    }
                },
                Token::Keyword(Keyword::Local) => match self.local_bind() {
                    Ok(()) => {},
                    Err(e) => return Err(e),
                },
                _ => return Err(ParseError::UnexpectedToken),
            }
            assert(shrinks(self@, here));
        }
    }

    /// Turns a whole source into a constant pool and bytecode.
    pub fn load(input: Vec<u8>) -> (r: Result<ParseProto, ParseError>)
        ensures
            match compile(input@) {
                Ok(q) => match r {
                    Ok(p) => p@ == q,
                    Err(_) => false,
                },
                Err(e) => r matches Err(e1) && e1 == e,
            },
            r matches Ok(p) ==> p@.wf(),
            r matches Ok(p) ==> distinct(p@.constants),
            r matches Ok(p) ==> codes_in_pool(p@.bytecodes, p@.constants.len() as int),
    {
        let mut proto = ParseProto::new(input);
        match proto.chunk() {
            Ok(()) => Ok(proto),
            Err(e) => Err(e),
        }
    }
}

proof fn lemma_local_slot(ls: Seq<Seq<u8>>, n: Seq<u8>)
    ensures
        -1 <= local_slot(ls, n) < ls.len(),
    decreases ls.len(),
{
    if ls.len() > 0 && ls.last() != n {
        lemma_local_slot(ls.drop_last(), n);
    }
}

/// A literal read as an expression becomes one instruction: `LoadNil` or
/// `LoadBool` for nil and the booleans, `LoadInt` for an integer that fits
/// 16 bits, and otherwise `LoadConst` of a pool entry that holds the
/// literal's value. The pool stays free of repeats.
pub proof fn law_literal_code(p: ProtoView, t: Tok, dst: int)
    requires
        p.wf(),
        literal(t) is Some,
        0 <= dst < 256,
    ensures
        expression_from(p, t, dst) matches Ok(q) ==> {
            let c = q.bytecodes.last();
            &&& q.bytecodes == p.bytecodes.push(c)
            &&& distinct(q.constants)
            &&& match c {
                ByteCode::LoadNil(d) => d == dst && literal(t) == Some(Val::Nil),
                ByteCode::LoadBool(d, b) => d == dst && literal(t) == Some(Val::Boolean(b)),
                ByteCode::LoadInt(d, i) => d == dst && literal(t) == Some(Val::Integer(i as i64))
                    && t is Integer,
                ByteCode::LoadConst(d, k) => d == dst && k < q.constants.len() && Some(q.constants[k as int]) == literal(t)
                    && !(t matches Tok::Integer(i) && i16::MIN <= i <= i16::MAX),
                _ => false,
            }
        },
        t matches Tok::Integer(i) && i16::MIN <= i <= i16::MAX ==> expression_from(p, t, dst) is Ok,
{
    match t {
        Tok::Integer(i) => {
            lemma_add_const(p.constants, Val::Integer(i));
        },
        Tok::Float(f) => {
            lemma_add_const(p.constants, Val::Float(f));
        },
        Tok::Str(s) => {
            lemma_add_const(p.constants, Val::Str(s));
        },
        _ => {},
    }
}

} // verus!
