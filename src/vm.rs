//! The stack-based interpreter.

use vstd::prelude::*;
use crate::bytecode::ByteCode;
use crate::lex::Tok;
use crate::parse::{expression, expression_from, law_literal_code, lemma_next_tok, literal, next_tok, ParseProto, ProtoView};
use crate::utils::New;
use crate::value::{bytes_eq, copy_bytes, HostFn, Val, Value};

verus! {

/// Why running bytecode stopped.
#[derive(Clone, Copy, Debug, PartialEq, Eq, Structural)]
pub enum RuntimeError {
    /// A write to a slot above the top of the stack.
    StackGap,
    /// A read of a slot the stack does not have.
    SlotOutOfRange,
    /// A constant index beyond the pool.
    ConstantOutOfRange,
    /// A global's name that is not a string.
    NameNotString,
    /// A call of a value that is not a function.
    NotCallable,
    /// A table operation on a value that is not a table.
    NotATable,
    /// A table key that is nil.
    NilKey,
}

/// A table: an array part and a keyed part.
pub struct Table {
    pub array: Vec<Value>,
    /// The keyed part, in order of first insertion; no key occurs twice.
    pub map: Vec<(Value, Value)>,
}

pub struct TableView {
    pub array: Seq<Val>,
    pub map: Seq<(Val, Val)>,
}

impl View for Table {
    type V = TableView;

    open spec fn view(&self) -> TableView {
        TableView {
            array: self.array@.map_values(|v: Value| v@),
            map: self.map@.map_values(|e: (Value, Value)| (e.0@, e.1@)),
        }
    }
}

impl Table {
    /// An empty table; the sizes are hints for its two parts.
    pub fn new(array_size: usize, map_size: usize) -> (r: Table)
        ensures
            r@.array == Seq::<Val>::empty(),
            r@.map == Seq::<(Val, Val)>::empty(),
    {
        let r = Table { array: Vec::with_capacity(array_size), map: Vec::with_capacity(map_size) };
        assert(r@.array =~= Seq::<Val>::empty());
        assert(r@.map =~= Seq::<(Val, Val)>::empty());
        r
    }
}

/// The first index at or after `i` whose key is `k`, or -1.
pub open spec fn key_index<K, V>(m: Seq<(K, V)>, k: K, i: int) -> int
    decreases m.len() - i,
{
    if i < 0 || i >= m.len() {
        -1
    } else if m[i].0 == k {
        i
    } else {
        key_index(m, k, i + 1)
    }
}

/// The value stored under `k`, or nil.
pub open spec fn assoc_get<K>(m: Seq<(K, Val)>, k: K) -> Val {
    let i = key_index(m, k, 0);
    if i >= 0 {
        m[i].1
    } else {
        Val::Nil
    }
}

/// `m` with `v` stored under `k`: the entry of `k` changes in place, or a
/// new entry comes last.
pub open spec fn assoc_set<K, V>(m: Seq<(K, V)>, k: K, v: V) -> Seq<(K, V)> {
    let i = key_index(m, k, 0);
    if i >= 0 {
        m.update(i, (k, v))
    } else {
        m.push((k, v))
    }
}

/// No key occurs twice in `m`.
pub open spec fn keys_unique<K, V>(m: Seq<(K, V)>) -> bool {
    forall|i: int, j: int| 0 <= i < j < m.len() ==> m[i].0 != m[j].0
}

/// The abstract state of the interpreter.
pub struct VmView {
    /// The globals, each name once.
    pub globals: Seq<(Seq<u8>, Val)>,
    pub stack: Seq<Val>,
    pub func_index: int,
    /// The table store: a table value is an index into it.
    pub tables: Seq<TableView>,
}

impl VmView {
    /// Each global name occurs once, and each key once in a table.
    pub open spec fn wf(self) -> bool {
        &&& keys_unique(self.globals)
        &&& forall|i: int| 0 <= i < self.tables.len() ==> keys_unique(#[trigger] self.tables[i].map)
    }
}

pub type Effect = Result<(VmView, Option<Val>), RuntimeError>;

/// The stack after writing `v` to the slot `dst`: in place below the top,
/// pushed at the top; a slot above the top is an error.
pub open spec fn set_stack(st: Seq<Val>, dst: int, v: Val) -> Result<Seq<Val>, RuntimeError> {
    if dst < st.len() {
        Ok(st.update(dst, v))
    } else if dst == st.len() {
        Ok(st.push(v))
    } else {
        Err(RuntimeError::StackGap)
    }
}

pub open spec fn read_slot(st: Seq<Val>, i: int) -> Result<Val, RuntimeError> {
    if 0 <= i < st.len() {
        Ok(st[i])
    } else {
        Err(RuntimeError::SlotOutOfRange)
    }
}

pub open spec fn read_const(cs: Seq<Val>, i: int) -> Result<Val, RuntimeError> {
    if 0 <= i < cs.len() {
        Ok(cs[i])
    } else {
        Err(RuntimeError::ConstantOutOfRange)
    }
}

/// The name held by the constant `i`.
pub open spec fn const_name(cs: Seq<Val>, i: int) -> Result<Seq<u8>, RuntimeError> {
    match read_const(cs, i) {
        Ok(Val::Str(s)) => Ok(s),
        Ok(_) => Err(RuntimeError::NameNotString),
        Err(e) => Err(e),
    }
}

pub open spec fn write(m: VmView, dst: int, v: Val) -> Effect {
    match set_stack(m.stack, dst, v) {
        Ok(st) => Ok((VmView { stack: st, ..m }, None)),
        Err(e) => Err(e),
    }
}

pub open spec fn set_global(m: VmView, name: Seq<u8>, v: Val) -> VmView {
    VmView { globals: assoc_set(m.globals, name, v), ..m }
}

/// The table that the value in slot `t` refers to.
pub open spec fn table_at(m: VmView, t: int) -> Result<int, RuntimeError> {
    match read_slot(m.stack, t) {
        Ok(Val::Table(id)) => if id < m.tables.len() {
            Ok(id as int)
        } else {
            Err(RuntimeError::NotATable)
        },
        Ok(_) => Err(RuntimeError::NotATable),
        Err(e) => Err(e),
    }
}

/// Stores `v` under the key `k` in the table `t`.
pub open spec fn table_set(m: VmView, t: int, k: Val, v: Val) -> Effect {
    match table_at(m, t) {
        Err(e) => Err(e),
        Ok(id) => if k is Nil {
            Err(RuntimeError::NilKey)
        } else {
            let tb = m.tables[id];
            Ok((VmView { tables: m.tables.update(id, TableView { map: assoc_set(tb.map, k, v), ..tb }), ..m }, None))
        },
    }
}

/// What one instruction does, given the constant pool `cs`: the new state
/// and the value handed to `print`, if it was called.
pub open spec fn step(m: VmView, cs: Seq<Val>, code: ByteCode) -> Effect {
    match code {
        ByteCode::GetGlobal(dst, name) => match const_name(cs, name as int) {
            Err(e) => Err(e),
            Ok(n) => write(m, dst as int, assoc_get(m.globals, n)),
        },
        ByteCode::SetGlobal(name, src) => match const_name(cs, name as int) {
            Err(e) => Err(e),
            Ok(n) => match read_slot(m.stack, src as int) {
                Err(e) => Err(e),
                Ok(v) => Ok((set_global(m, n, v), None)),
            },
        },
        ByteCode::SetGlobalConst(name, c) => match const_name(cs, name as int) {
            Err(e) => Err(e),
            Ok(n) => match read_const(cs, c as int) {
                Err(e) => Err(e),
                Ok(v) => Ok((set_global(m, n, v), None)),
            },
        },
        ByteCode::SetGlobalGlobal(name, src) => match const_name(cs, name as int) {
            Err(e) => Err(e),
            Ok(n) => match const_name(cs, src as int) {
                Err(e) => Err(e),
                Ok(s) => Ok((set_global(m, n, assoc_get(m.globals, s)), None)),
            },
        },
        ByteCode::LoadConst(dst, c) => match read_const(cs, c as int) {
            Err(e) => Err(e),
            Ok(v) => write(m, dst as int, v),
        },
        ByteCode::LoadNil(dst) => write(m, dst as int, Val::Nil),
        ByteCode::LoadBool(dst, b) => write(m, dst as int, Val::Boolean(b)),
        ByteCode::LoadInt(dst, i) => write(m, dst as int, Val::Integer(i as i64)),
        ByteCode::Move(dst, src) => match read_slot(m.stack, src as int) {
            Err(e) => Err(e),
            Ok(v) => write(m, dst as int, v),
        },
        ByteCode::Call(func, _) => match read_slot(m.stack, func as int) {
            Err(e) => Err(e),
            Ok(Val::Function(HostFn::Print)) => match read_slot(m.stack, func + 1) {
                Err(e) => Err(e),
                Ok(arg) => Ok((VmView { func_index: func as int, ..m }, Some(arg))),
            },
            Ok(_) => Err(RuntimeError::NotCallable),
        },
        ByteCode::NewTable(dst, _, _) => {
            let id = m.tables.len();
            let m1 = VmView { tables: m.tables.push(TableView { array: Seq::empty(), map: Seq::empty() }), ..m };
            write(m1, dst as int, Val::Table(id as usize))
        },
        ByteCode::SetTable(t, k, v) => match read_slot(m.stack, k as int) {
            Err(e) => Err(e),
            Ok(key) => match read_slot(m.stack, v as int) {
                Err(e) => Err(e),
                Ok(val) => table_set(m, t as int, key, val),
            },
        },
        ByteCode::SetField(t, k, v) => match read_const(cs, k as int) {
            Err(e) => Err(e),
            Ok(key) => match read_slot(m.stack, v as int) {
                Err(e) => Err(e),
                Ok(val) => table_set(m, t as int, key, val),
            },
        },
        ByteCode::SetList(t, n) => match table_at(m, t as int) {
            Err(e) => Err(e),
            Ok(id) => {
                let lo = t + 1;
                let hi = t + 1 + n;
                if hi > m.stack.len() {
                    Err(RuntimeError::SlotOutOfRange)
                } else {
                    let tb = m.tables[id];
                    Ok((
                        VmView {
                            stack: m.stack.subrange(0, lo) + m.stack.subrange(hi, m.stack.len() as int),
                            tables: m.tables.update(id, TableView { array: tb.array + m.stack.subrange(lo, hi), ..tb }),
                            ..m
                        },
                        None,
                    ))
                }
            },
        },
    }
}

/// Running `codes` from `m`: the final state, the values handed to
/// `print` in order, and the error that stopped the run, if any.
pub open spec fn run(m: VmView, cs: Seq<Val>, codes: Seq<ByteCode>) -> (VmView, Seq<Val>, Option<RuntimeError>)
    decreases codes.len(),
{
    if codes.len() == 0 {
        (m, Seq::empty(), None)
    } else {
        let (m1, out, err) = run(m, cs, codes.drop_last());
        if err is Some {
            (m1, out, err)
        } else {
            match step(m1, cs, codes.last()) {
                Ok((m2, Some(v))) => (m2, out.push(v), None),
                Ok((m2, None)) => (m2, out, None),
                Err(e) => (m1, out, Some(e)),
            }
        }
    }
}

// ---------------------------------------------------------------------
// The interpreter.

/// The interpreter's state.
pub struct ExeState {
    /// The globals, each name once.
    pub globals: Vec<(Vec<u8>, Value)>,
    /// The value stack.
    pub stack: Vec<Value>,
    /// The slot of the function being called.
    pub func_index: usize,
    /// The table store: a table value is an index into it.
    pub tables: Vec<Table>,
}

impl View for ExeState {
    type V = VmView;

    open spec fn view(&self) -> VmView {
        VmView {
            globals: self.globals@.map_values(|e: (Vec<u8>, Value)| (e.0@, e.1@)),
            stack: self.stack@.map_values(|v: Value| v@),
            func_index: self.func_index as int,
            tables: self.tables@.map_values(|t: Table| t@),
        }
    }
}

/// The name under which `print` is registered.
pub open spec fn print_name() -> Seq<u8> {
    seq!['p' as u8, 'r' as u8, 'i' as u8, 'n' as u8, 't' as u8]
}

/// A fresh interpreter: an empty stack, no tables, and `print` as the only
/// global. It is well formed.
pub open spec fn fresh() -> VmView {
    VmView {
        globals: seq![(print_name(), Val::Function(HostFn::Print))],
        stack: Seq::empty(),
        func_index: 0,
        tables: Seq::empty(),
    }
}

pub open spec fn opt_view(o: Option<Value>) -> Option<Val> {
    match o {
        Some(v) => Some(v@),
        None => None,
    }
}

proof fn lemma_key_index<K, V>(m: Seq<(K, V)>, k: K, i: int)
    requires
        0 <= i <= m.len(),
    ensures
        key_index(m, k, i) == -1 || (i <= key_index(m, k, i) < m.len() && m[key_index(m, k, i)].0 == k),
    decreases m.len() - i,
{
    if i < m.len() && m[i].0 != k {
        lemma_key_index(m, k, i + 1);
    }
}

/// The index of the entry of `key` in the keyed part of `tb`.
fn map_index(tb: &Table, key: &Value) -> (r: Option<usize>)
    ensures
        match r {
            Some(i) => i == key_index(tb@.map, key@, 0),
            None => key_index(tb@.map, key@, 0) == -1,
        },
{
    let ghost m = tb@.map;
    let mut i: usize = 0;
    while i < tb.map.len()
        invariant
            m == tb@.map,
            i <= m.len(),
            key_index(m, key@, i as int) == key_index(m, key@, 0),
        decreases m.len() - i,
    {
        assert(m[i as int].0 == tb.map@[i as int].0@);
        if tb.map[i].0 == *key {
            return Some(i);
        }
        i = i + 1;
    }
    None
}

proof fn lemma_key_index_absent<K, V>(m: Seq<(K, V)>, k: K, i: int)
    requires
        0 <= i <= m.len(),
    ensures
        key_index(m, k, i) == -1 ==> forall|j: int| i <= j < m.len() ==> m[j].0 != k,
    decreases m.len() - i,
{
    if i < m.len() && m[i].0 != k {
        lemma_key_index_absent(m, k, i + 1);
    }
}

/// Storing under a key keeps the keys unique.
proof fn lemma_assoc_set_unique<K, V>(m: Seq<(K, V)>, k: K, v: V)
    requires
        keys_unique(m),
    ensures
        keys_unique(assoc_set(m, k, v)),
{
    lemma_key_index(m, k, 0);
    lemma_key_index_absent(m, k, 0);
}

/// One instruction keeps the interpreter well formed.
pub proof fn law_step_keeps_wf(m: VmView, cs: Seq<Val>, code: ByteCode)
    requires
        m.wf(),
        step(m, cs, code) is Ok,
    ensures
        step(m, cs, code)->Ok_0.0.wf(),
{
    let m2 = step(m, cs, code)->Ok_0.0;
    match code {
        ByteCode::SetGlobal(name, src) => {
            lemma_assoc_set_unique(m.globals, const_name(cs, name as int)->Ok_0, read_slot(m.stack, src as int)->Ok_0);
        },
        ByteCode::SetGlobalConst(name, c) => {
            lemma_assoc_set_unique(m.globals, const_name(cs, name as int)->Ok_0, read_const(cs, c as int)->Ok_0);
        },
        ByteCode::SetGlobalGlobal(name, src) => {
            lemma_assoc_set_unique(
                m.globals,
                const_name(cs, name as int)->Ok_0,
                assoc_get(m.globals, const_name(cs, src as int)->Ok_0),
            );
        },
        ByteCode::NewTable(..) => {
            assert forall|i: int| 0 <= i < m2.tables.len() implies keys_unique(#[trigger] m2.tables[i].map) by {
                if i < m.tables.len() {
                    assert(m2.tables[i] == m.tables[i]);
                }
            }
        },
        ByteCode::SetTable(t, k, v) => {
            let id = table_at(m, t as int)->Ok_0;
            lemma_assoc_set_unique(m.tables[id].map, read_slot(m.stack, k as int)->Ok_0, read_slot(m.stack, v as int)->Ok_0);
            assert forall|i: int| 0 <= i < m2.tables.len() implies keys_unique(#[trigger] m2.tables[i].map) by {
                if i != id {
                    assert(m2.tables[i] == m.tables[i]);
                }
            }
        },
        ByteCode::SetField(t, k, v) => {
            let id = table_at(m, t as int)->Ok_0;
            lemma_assoc_set_unique(m.tables[id].map, read_const(cs, k as int)->Ok_0, read_slot(m.stack, v as int)->Ok_0);
            assert forall|i: int| 0 <= i < m2.tables.len() implies keys_unique(#[trigger] m2.tables[i].map) by {
                if i != id {
                    assert(m2.tables[i] == m.tables[i]);
                }
            }
        },
        ByteCode::SetList(t, _) => {
            let id = table_at(m, t as int)->Ok_0;
            assert forall|i: int| 0 <= i < m2.tables.len() implies keys_unique(#[trigger] m2.tables[i].map) by {
                if i != id {
                    assert(m2.tables[i] == m.tables[i]);
                }
            }
        },
        _ => {},
    }
}

/// A run keeps the interpreter well formed, wherever it stops.
pub proof fn law_run_keeps_wf(m: VmView, cs: Seq<Val>, codes: Seq<ByteCode>)
    requires
        m.wf(),
    ensures
        run(m, cs, codes).0.wf(),
    decreases codes.len(),
{
    if codes.len() > 0 {
        law_run_keeps_wf(m, cs, codes.drop_last());
        let m1 = run(m, cs, codes.drop_last()).0;
        if step(m1, cs, codes.last()) is Ok {
            law_step_keeps_wf(m1, cs, codes.last());
        }
    }
}

impl ExeState {
    /// A fresh interpreter with `print` registered.
    pub fn new() -> (r: ExeState)
        ensures
            r@ == fresh(),
            r@.wf(),
    {
        let mut globals: Vec<(Vec<u8>, Value)> = Vec::new();
        let name = ['p' as u8, 'r' as u8, 'i' as u8, 'n' as u8, 't' as u8];
        globals.push((copy_bytes(&name), Value::Function(HostFn::Print)));
        let r = ExeState { globals, stack: Vec::new(), func_index: 0, tables: Vec::new() };
        assert(r@.globals =~= fresh().globals);
        assert(r@.stack =~= fresh().stack);
        assert(r@.tables =~= fresh().tables);
        assert(fresh().wf());
        r
    }

    /// Writes `value` to the slot `dst`: in place below the top, pushed at
    /// the top; a slot above the top is an error.
    fn set_stack(&mut self, dst: u8, value: Value) -> (r: Result<(), RuntimeError>)
        ensures
            match set_stack(old(self)@.stack, dst as int, value@) {
                Ok(st) => r is Ok && final(self)@ == (VmView { stack: st, ..old(self)@ }),
                Err(e) => r == Err::<(), RuntimeError>(e),
            },
    {
        let dst = dst as usize;
        let ghost v = value@;
        if dst < self.stack.len() {
            self.stack.set(dst, value);
            assert(self@.stack =~= old(self)@.stack.update(dst as int, v));
            Ok(())
        } else if dst == self.stack.len() {
            self.stack.push(value);
            assert(self@.stack =~= old(self)@.stack.push(v));
            Ok(())
        } else {
            Err(RuntimeError::StackGap)
        }
    }

    fn read_slot(&self, i: usize) -> (r: Result<Value, RuntimeError>)
        ensures
            match read_slot(self@.stack, i as int) {
                Ok(v) => r matches Ok(x) && x@ == v,
                Err(e) => r == Err::<Value, RuntimeError>(e),
            },
    {
        if i < self.stack.len() {
            Ok(self.stack[i].clone())
        } else {
            Err(RuntimeError::SlotOutOfRange)
        }
    }

    /// The index of the global `name`.
    fn global_index(&self, name: &[u8]) -> (r: Option<usize>)
        ensures
            match r {
                Some(i) => i == key_index(self@.globals, name@, 0),
                None => key_index(self@.globals, name@, 0) == -1,
            },
    {
        let ghost g = self@.globals;
        let mut i: usize = 0;
        while i < self.globals.len()
            invariant
                g == self@.globals,
                i <= g.len(),
                key_index(g, name@, i as int) == key_index(g, name@, 0),
            decreases g.len() - i,
        {
            assert(g[i as int].0 == self.globals@[i as int].0@);
            if bytes_eq(self.globals[i].0.as_slice(), name) {
                return Some(i);
            }
            i = i + 1;
        }
        None
    }

    /// The value of the global `name`; nil when there is none.
    fn get_global(&self, name: &[u8]) -> (r: Value)
        ensures
            r@ == assoc_get(self@.globals, name@),
    {
        proof {
            lemma_key_index(self@.globals, name@, 0);
        }
        match self.global_index(name) {
            Some(i) => self.globals[i].1.clone(),
            None => Value::Nil,
        }
    }

    fn set_global(&mut self, name: Vec<u8>, value: Value)
        ensures
            final(self)@ == set_global(old(self)@, name@, value@),
    {
        proof {
            lemma_key_index(self@.globals, name@, 0);
        }
        let ghost g = self@.globals;
        let ghost e = (name@, value@);
        match self.global_index(name.as_slice()) {
            Some(i) => {
                self.globals.set(i, (name, value));
                assert(self@.globals =~= g.update(i as int, e));
            },
            None => {
                self.globals.push((name, value));
                assert(self@.globals =~= g.push(e));
            },
        }
    }

    fn read_const(proto: &ParseProto, i: u8) -> (r: Result<Value, RuntimeError>)
        ensures
            match read_const(proto.pool(), i as int) {
                Ok(v) => r matches Ok(x) && x@ == v,
                Err(e) => r == Err::<Value, RuntimeError>(e),
            },
    {
        let i = i as usize;
        if i < proto.constants.len() {
            Ok(proto.constants[i].clone())
        } else {
            Err(RuntimeError::ConstantOutOfRange)
        }
    }

    fn const_name(proto: &ParseProto, i: u8) -> (r: Result<Vec<u8>, RuntimeError>)
        ensures
            match const_name(proto.pool(), i as int) {
                Ok(n) => r matches Ok(x) && x@ == n,
                Err(e) => r == Err::<Vec<u8>, RuntimeError>(e),
            },
    {
        match Self::read_const(proto, i) {
            Ok(Value::String(s)) => Ok(s),
            Ok(_) => Err(RuntimeError::NameNotString),
            Err(e) => Err(e),
        }
    }

    /// The index of the table in the slot `t`.
    fn table_at(&self, t: u8) -> (r: Result<usize, RuntimeError>)
        ensures
            match table_at(self@, t as int) {
                Ok(id) => r == Ok::<usize, RuntimeError>(id as usize) && id < self@.tables.len(),
                Err(e) => r == Err::<usize, RuntimeError>(e),
            },
    {
        let t = t as usize;
        if t >= self.stack.len() {
            return Err(RuntimeError::SlotOutOfRange);
        }
        match &self.stack[t] {
            Value::Table(id) => if *id < self.tables.len() {
                Ok(*id)
            } else {
                Err(RuntimeError::NotATable)
            },
            _ => Err(RuntimeError::NotATable),
        }
    }

    /// Stores `value` under `key` in the table in the slot `t`.
    fn table_set(&mut self, t: u8, key: Value, value: Value) -> (r: Result<(), RuntimeError>)
        ensures
            match table_set(old(self)@, t as int, key@, value@) {
                Ok((m, _)) => r is Ok && final(self)@ == m,
                Err(e) => r == Err::<(), RuntimeError>(e),
            },
    {
        let id = match self.table_at(t) {
            Ok(id) => id,
            Err(e) => return Err(e),
        };
        if let Value::Nil = key {
            return Err(RuntimeError::NilKey);
        }
        let ghost tb = self@.tables[id as int];
        let ghost e = (key@, value@);
        let ghost m = self@.tables[id as int].map;
        proof {
            lemma_key_index(m, key@, 0);
        }
        let found = map_index(&self.tables[id], &key);
        let mut table = self.tables.remove(id);
        assert(table@ == tb);
        if let Some(i) = found {
            table.map.set(i, (key, value));
            assert(table@.map =~= m.update(i as int, e));
        } else {
            table.map.push((key, value));
            assert(table@.map =~= m.push(e));
        }
        assert(table@ == (TableView { map: assoc_set(m, key@, value@), ..tb }));
        self.tables.insert(id, table);
        assert(self@.tables =~= old(self)@.tables.update(id as int, TableView { map: assoc_set(m, key@, value@), ..tb }));
        Ok(())
    }

    /// Moves the `n` values above the slot `t` to the end of the array part
    /// of the table in slot `t`; the stack closes up behind them.
    fn set_list(&mut self, t: u8, n: u8) -> (r: Result<(), RuntimeError>)
        ensures
            match step(old(self)@, Seq::empty(), ByteCode::SetList(t, n)) {
                Ok((m, _)) => r is Ok && final(self)@ == m,
                Err(e) => r == Err::<(), RuntimeError>(e),
            },
    {
        let id = match self.table_at(t) {
            Ok(id) => id,
            Err(e) => return Err(e),
        };
        let lo = t as usize + 1;
        let hi = lo + n as usize;
        if hi > self.stack.len() {
            return Err(RuntimeError::SlotOutOfRange);
        }
        let ghost st = self@.stack;
        let ghost tb = self@.tables[id as int];
        let mut values = self.stack.split_off(lo);
        let mut rest = values.split_off(n as usize);
        self.stack.append(&mut rest);
        assert(self@.stack =~= st.subrange(0, lo as int) + st.subrange(hi as int, st.len() as int));
        let mut table = self.tables.remove(id);
        assert(table@ == tb);
        table.array.append(&mut values);
        assert(table@.array =~= tb.array + st.subrange(lo as int, hi as int));
        assert(table@.map == tb.map);
        self.tables.insert(id, table);
        assert(self@.tables =~= old(self)@.tables.update(
            id as int,
            TableView { array: tb.array + st.subrange(lo as int, hi as int), ..tb },
        ));
        Ok(())
    }

    /// Runs an instruction that reads or writes a global.
    fn step_global(&mut self, proto: &ParseProto, code: ByteCode) -> (r: Result<Option<Value>, RuntimeError>)
        requires
            code is GetGlobal || code is SetGlobal || code is SetGlobalConst || code is SetGlobalGlobal,
        ensures
            match step(old(self)@, proto.pool(), code) {
                Ok((m, o)) => match r {
                    Ok(x) => final(self)@ == m && opt_view(x) == o,
                    Err(_) => false,
                },
                Err(e) => r == Err::<Option<Value>, RuntimeError>(e),
            },
    {
        match code {
            ByteCode::GetGlobal(dst, name) => {
                let n = match Self::const_name(proto, name) {
                    Ok(n) => n,
                    Err(e) => return Err(e),
                };
                let v = self.get_global(n.as_slice());
                match self.set_stack(dst, v) {
                    Ok(()) => Ok(None),
                    Err(e) => Err(e),
                }
            },
            ByteCode::SetGlobal(name, src) => {
                let n = match Self::const_name(proto, name) {
                    Ok(n) => n,
                    Err(e) => return Err(e),
                };
                let v = match self.read_slot(src as usize) {
                    Ok(v) => v,
                    Err(e) => return Err(e),
                };
                self.set_global(n, v);
                Ok(None)
            },
            ByteCode::SetGlobalConst(name, c) => {
                let n = match Self::const_name(proto, name) {
                    Ok(n) => n,
                    Err(e) => return Err(e),
                };
                let v = match Self::read_const(proto, c) {
                    Ok(v) => v,
                    Err(e) => return Err(e),
                };
                self.set_global(n, v);
                Ok(None)
            },
            ByteCode::SetGlobalGlobal(name, src) => {
                let n = match Self::const_name(proto, name) {
                    Ok(n) => n,
                    Err(e) => return Err(e),
                };
                let sname = match Self::const_name(proto, src) {
                    Ok(s) => s,
                    Err(e) => return Err(e),
                };
                let v = self.get_global(sname.as_slice());
                self.set_global(n, v);
                Ok(None)
            },
            // not reached: the precondition leaves out the other instructions
            _ => Err(RuntimeError::NotCallable),
        }
    }

    /// Runs an instruction that loads a stack slot.
    fn step_load(&mut self, proto: &ParseProto, code: ByteCode) -> (r: Result<Option<Value>, RuntimeError>)
        requires
            code is LoadConst || code is LoadNil || code is LoadBool || code is LoadInt || code is Move,
        ensures
            match step(old(self)@, proto.pool(), code) {
                Ok((m, o)) => match r {
                    Ok(x) => final(self)@ == m && opt_view(x) == o,
                    Err(_) => false,
                },
                Err(e) => r == Err::<Option<Value>, RuntimeError>(e),
            },
    {
        match code {
            ByteCode::LoadConst(dst, c) => {
                let v = match Self::read_const(proto, c) {
                    Ok(v) => v,
                    Err(e) => return Err(e),
                };
                match self.set_stack(dst, v) {
                    Ok(()) => Ok(None),
                    Err(e) => Err(e),
                }
            },
            ByteCode::LoadNil(dst) => match self.set_stack(dst, Value::Nil) {
                Ok(()) => Ok(None),
                Err(e) => Err(e),
            },
            ByteCode::LoadBool(dst, b) => match self.set_stack(dst, Value::Boolean(b)) {
                Ok(()) => Ok(None),
                Err(e) => Err(e),
            },
            ByteCode::LoadInt(dst, i) => match self.set_stack(dst, Value::Integer(i as i64)) {
                Ok(()) => Ok(None),
                Err(e) => Err(e),
            },
            ByteCode::Move(dst, src) => {
                let v = match self.read_slot(src as usize) {
                    Ok(v) => v,
                    Err(e) => return Err(e),
                };
                match self.set_stack(dst, v) {
                    Ok(()) => Ok(None),
                    Err(e) => Err(e),
                }
            },
            // not reached: the precondition leaves out the other instructions
            _ => Err(RuntimeError::NotCallable),
        }
    }

    /// Runs a call.
    fn step_call(&mut self, proto: &ParseProto, code: ByteCode) -> (r: Result<Option<Value>, RuntimeError>)
        requires
            code is Call,
        ensures
            match step(old(self)@, proto.pool(), code) {
                Ok((m, o)) => match r {
                    Ok(x) => final(self)@ == m && opt_view(x) == o,
                    Err(_) => false,
                },
                Err(e) => r == Err::<Option<Value>, RuntimeError>(e),
            },
    {
        match code {
            ByteCode::Call(func, _) => {
                let f = match self.read_slot(func as usize) {
                    Ok(f) => f,
                    Err(e) => return Err(e),
                };
                match f {
                    Value::Function(HostFn::Print) => {
                        let arg = match self.read_slot(func as usize + 1) {
                            Ok(arg) => arg,
                            Err(e) => return Err(e),
                        };
                        self.func_index = func as usize;
                        Ok(Some(arg))
                    },
                    _ => Err(RuntimeError::NotCallable),
                }
            },
            // not reached: the precondition leaves out the other instructions
            _ => Err(RuntimeError::NotCallable),
        }
    }

    /// Runs a table instruction.
    fn step_table(&mut self, proto: &ParseProto, code: ByteCode) -> (r: Result<Option<Value>, RuntimeError>)
        requires
            code is NewTable || code is SetTable || code is SetField || code is SetList,
        ensures
            match step(old(self)@, proto.pool(), code) {
                Ok((m, o)) => match r {
                    Ok(x) => final(self)@ == m && opt_view(x) == o,
                    Err(_) => false,
                },
                Err(e) => r == Err::<Option<Value>, RuntimeError>(e),
            },
    {
        match code {
            ByteCode::NewTable(dst, na, nm) => {
                let id = self.tables.len();
                let ghost before = self@;
                self.tables.push(Table::new(na as usize, nm as usize));
                assert(self@.tables =~= before.tables.push(TableView { array: Seq::empty(), map: Seq::empty() }));
                match self.set_stack(dst, Value::Table(id)) {
                    Ok(()) => Ok(None),
                    Err(e) => Err(e),
                }
            },
            ByteCode::SetTable(t, k, v) => {
                let key = match self.read_slot(k as usize) {
                    Ok(key) => key,
                    Err(e) => return Err(e),
                };
                let val = match self.read_slot(v as usize) {
                    Ok(val) => val,
                    Err(e) => return Err(e),
                };
                match self.table_set(t, key, val) {
                    Ok(()) => Ok(None),
                    Err(e) => Err(e),
                }
            },
            ByteCode::SetField(t, k, v) => {
                let key = match Self::read_const(proto, k) {
                    Ok(key) => key,
                    Err(e) => return Err(e),
                };
                let val = match self.read_slot(v as usize) {
                    Ok(val) => val,
                    Err(e) => return Err(e),
                };
                match self.table_set(t, key, val) {
                    Ok(()) => Ok(None),
                    Err(e) => Err(e),
                }
            },
            ByteCode::SetList(t, n) => match self.set_list(t, n) {
                Ok(()) => Ok(None),
                Err(e) => Err(e),
            },
            // not reached: the precondition leaves out the other instructions
            _ => Err(RuntimeError::NotCallable),
        }
    }

    /// Runs one instruction. Gives the value handed to `print`, if it was
    /// called, for the caller to write out.
    pub fn step(&mut self, proto: &ParseProto, code: ByteCode) -> (r: Result<Option<Value>, RuntimeError>)
        ensures
            match step(old(self)@, proto.pool(), code) {
                Ok((m, o)) => match r {
                    Ok(x) => final(self)@ == m && opt_view(x) == o,
                    Err(_) => false,
                },
                Err(e) => r == Err::<Option<Value>, RuntimeError>(e),
            },
    {
        match code {
            ByteCode::GetGlobal(..) | ByteCode::SetGlobal(..) | ByteCode::SetGlobalConst(..) | ByteCode::SetGlobalGlobal(..) => self.step_global(proto, code),
            ByteCode::LoadConst(..) | ByteCode::LoadNil(..) | ByteCode::LoadBool(..) | ByteCode::LoadInt(..) | ByteCode::Move(..) => self.step_load(proto, code),
            ByteCode::Call(..) => self.step_call(proto, code),
            ByteCode::NewTable(..) | ByteCode::SetTable(..) | ByteCode::SetField(..) | ByteCode::SetList(..) => self.step_table(proto, code),
        }
    }

    /// Runs the bytecode of `proto` from the first instruction to the last,
    /// or to the first error. Each value handed to `print` is appended to
    /// `out`.
    pub fn execute(&mut self, proto: &ParseProto, out: &mut Vec<Value>) -> (r: Result<(), RuntimeError>)
        ensures
            ({
                let (m, printed, err) = run(old(self)@, proto.pool(), proto.bytecodes@);
                &&& final(out)@.map_values(|v: Value| v@) == old(out)@.map_values(|v: Value| v@) + printed
                &&& match err {
                    None => r is Ok && final(self)@ == m,
                    Some(e) => r == Err::<(), RuntimeError>(e),
                }
            }),
            r is Ok && old(self)@.wf() ==> final(self)@.wf(),
    {
        let ghost cs = proto.pool();
        let ghost codes = proto.bytecodes@;
        let ghost out0 = out@.map_values(|v: Value| v@);
        let mut pc: usize = 0;
        assert(codes.subrange(0, 0) =~= Seq::<ByteCode>::empty());
        assert(out0 + Seq::<Val>::empty() =~= out0);
        while pc < proto.bytecodes.len()
            invariant
                cs == proto.pool(),
                codes == proto.bytecodes@,
                out0 == old(out)@.map_values(|v: Value| v@),
                pc <= codes.len(),
                run(old(self)@, cs, codes.subrange(0, pc as int)).2 is None,
                run(old(self)@, cs, codes.subrange(0, pc as int)).0 == self@,
                out@.map_values(|v: Value| v@) == out0 + run(old(self)@, cs, codes.subrange(0, pc as int)).1,
            decreases codes.len() - pc,
        {
            let ghost before = out@.map_values(|v: Value| v@);
            assert(codes.subrange(0, pc + 1).drop_last() =~= codes.subrange(0, pc as int));
            assert(codes.subrange(0, pc + 1).last() == codes[pc as int]);
            match self.step(proto, proto.bytecodes[pc]) {
                Ok(Some(v)) => {
                    let ghost vv = v@;
                    out.push(v);
                    assert(out@.map_values(|v: Value| v@) =~= before.push(vv));
                    assert(before.push(vv) =~= out0 + run(old(self)@, cs, codes.subrange(0, pc + 1)).1);
                },
                Ok(None) => {},
                Err(e) => {
                    assert(codes =~= codes.subrange(0, codes.len() as int));
                    proof {
                        lemma_run_stops(old(self)@, cs, codes, pc as int + 1);
                    }
                    return Err(e);
                },
            }
            pc = pc + 1;
        }
        assert(codes.subrange(0, codes.len() as int) =~= codes);
        proof {
            if old(self)@.wf() {
                law_run_keeps_wf(old(self)@, cs, codes);
            }
        }
        Ok(())
    }
}

/// Once a run has stopped on an error, running more code changes nothing.
proof fn lemma_run_stops(m: VmView, cs: Seq<Val>, codes: Seq<ByteCode>, k: int)
    requires
        0 <= k <= codes.len(),
        run(m, cs, codes.subrange(0, k)).2 is Some,
    ensures
        run(m, cs, codes) == run(m, cs, codes.subrange(0, k)),
    decreases codes.len() - k,
{
    if k < codes.len() {
        let next = codes.subrange(0, k + 1);
        assert(next.drop_last() =~= codes.subrange(0, k));
        lemma_run_stops(m, cs, codes, k + 1);
    } else {
        assert(codes.subrange(0, k) =~= codes);
    }
}

impl New for ExeState {
    type Output = ExeState;

    fn new() -> (r: ExeState)
        ensures
            r@ == fresh(),
    {
        ExeState::new()
    }
}

impl Default for ExeState {
    fn default() -> (r: ExeState)
        ensures
            r@ == fresh(),
    {
        ExeState::new()
    }
}

// ---------------------------------------------------------------------
// Laws.

/// A literal makes the round trip from token to stack: the instruction the
/// emitter makes for it, run with the emitter's pool on a stack that
/// reaches the destination, puts the literal's value in that slot.
pub proof fn law_literal_round_trip(p: ProtoView, t: Tok, dst: int, m: VmView)
    requires
        p.wf(),
        literal(t) is Some,
        0 <= dst < 256,
        dst <= m.stack.len(),
        expression_from(p, t, dst) is Ok,
    ensures
        ({
            let q = expression_from(p, t, dst)->Ok_0;
            let v = literal(t)->Some_0;
            let m2 = write(m, dst, v)->Ok_0.0;
            &&& step(m, q.constants, q.bytecodes.last()) == write(m, dst, v)
            &&& write(m, dst, v) is Ok
            &&& write(m, dst, v)->Ok_0.1 is None
            &&& m2.stack[dst] == v
            &&& m2.stack.len() == (if dst < m.stack.len() { m.stack.len() as int } else { dst + 1 })
        }),
{
    law_literal_code(p, t, dst);
}

/// The same round trip from the emitter's reading: when the token the
/// lexer gives next is a literal, the code `expression` emits for it, run
/// with the emitter's pool, puts the literal's value in the destination.
pub proof fn law_expression_round_trip(p: ProtoView, dst: int, m: VmView)
    requires
        p.wf(),
        next_tok(p) is Ok,
        literal(next_tok(p)->Ok_0.0) is Some,
        0 <= dst < 256,
        dst <= m.stack.len(),
        expression(p, dst) is Ok,
    ensures
        ({
            let q = expression(p, dst)->Ok_0;
            let v = literal(next_tok(p)->Ok_0.0)->Some_0;
            &&& q.bytecodes.len() == p.bytecodes.len() + 1
            &&& step(m, q.constants, q.bytecodes.last()) == write(m, dst, v)
            &&& write(m, dst, v) is Ok
            &&& write(m, dst, v)->Ok_0.0.stack[dst] == v
        }),
{
    lemma_next_tok(p);
    let (t, q) = next_tok(p)->Ok_0;
    law_literal_code(q, t, dst);
    law_literal_round_trip(q, t, dst, m);
}

/// The slot an instruction writes, or -1.
pub open spec fn written_slot(c: ByteCode) -> int {
    match c {
        ByteCode::GetGlobal(d, _) => d as int,
        ByteCode::LoadConst(d, _) => d as int,
        ByteCode::LoadNil(d) => d as int,
        ByteCode::LoadBool(d, _) => d as int,
        ByteCode::LoadInt(d, _) => d as int,
        ByteCode::Move(d, _) => d as int,
        ByteCode::NewTable(d, _, _) => d as int,
        _ => -1,
    }
}

/// The height of a stack of height `n` after `codes` write their slots:
/// one above the highest slot written, if that is higher.
pub open spec fn stack_top(n: int, codes: Seq<ByteCode>) -> int
    decreases codes.len(),
{
    if codes.len() == 0 {
        n
    } else {
        let t = stack_top(n, codes.drop_last());
        let w = written_slot(codes.last()) + 1;
        if w > t {
            w
        } else {
            t
        }
    }
}

#[verifier::rlimit(80)]
proof fn lemma_stack_top(m: VmView, cs: Seq<Val>, codes: Seq<ByteCode>)
    requires
        forall|i: int| 0 <= i < codes.len() ==> !(#[trigger] codes[i] is SetList),
        run(m, cs, codes).2 is None,
    ensures
        run(m, cs, codes).0.stack.len() == stack_top(m.stack.len() as int, codes),
    decreases codes.len(),
{
    if codes.len() > 0 {
        let init = codes.drop_last();
        assert forall|i: int| 0 <= i < init.len() implies !(#[trigger] init[i] is SetList) by {
            assert(init[i] == codes[i]);
        }
        assert(!(codes[codes.len() - 1] is SetList));
        lemma_stack_top(m, cs, init);
    }
}

/// Code without `SetList` that runs to its end from a fresh interpreter
/// leaves a stack one above the highest slot it wrote (empty if it wrote
/// none): the stack only grows, one slot at a time.
pub proof fn law_stack_height(cs: Seq<Val>, codes: Seq<ByteCode>)
    requires
        forall|i: int| 0 <= i < codes.len() ==> !(#[trigger] codes[i] is SetList),
        run(fresh(), cs, codes).2 is None,
    ensures
        run(fresh(), cs, codes).0.stack.len() == stack_top(0, codes),
{
    lemma_stack_top(fresh(), cs, codes);
}

/// The contents of the table a global holds, if it holds one.
pub open spec fn global_table(m: VmView, name: Seq<u8>) -> Option<TableView> {
    match assoc_get(m.globals, name) {
        Val::Table(id) => if id < m.tables.len() {
            Some(m.tables[id as int])
        } else {
            None
        },
        _ => None,
    }
}

/// Two globals holding the same table observe the same contents after a
/// table instruction: a change made through the handle is seen through
/// both, and it is the change the instruction describes.
pub proof fn law_table_aliasing(m: VmView, cs: Seq<Val>, code: ByteCode, a: Seq<u8>, b: Seq<u8>)
    requires
        assoc_get(m.globals, a) is Table,
        assoc_get(m.globals, a) == assoc_get(m.globals, b),
        code is SetTable || code is SetField || code is SetList,
        step(m, cs, code) is Ok,
    ensures
        ({
            let m2 = step(m, cs, code)->Ok_0.0;
            let id = assoc_get(m.globals, a)->Table_0 as int;
            &&& global_table(m2, a) == global_table(m2, b)
            &&& assoc_get(m2.globals, a) == assoc_get(m.globals, a)
            &&& code matches ByteCode::SetTable(t, k, v) ==> (read_slot(m.stack, t as int) == Ok::<Val, RuntimeError>(
                Val::Table(id as usize),
            ) ==> global_table(m2, a) == Some(m2.tables[id]) && m2.tables[id].map == assoc_set(
                m.tables[id].map,
                m.stack[k as int],
                m.stack[v as int],
            ))
        }),
{
}

/// Whether `c` assigns the global `a`.
pub open spec fn writes_global(cs: Seq<Val>, c: ByteCode, a: Seq<u8>) -> bool {
    match c {
        ByteCode::SetGlobal(n, _) => const_name(cs, n as int) == Ok::<Seq<u8>, RuntimeError>(a),
        ByteCode::SetGlobalConst(n, _) => const_name(cs, n as int) == Ok::<Seq<u8>, RuntimeError>(a),
        ByteCode::SetGlobalGlobal(n, _) => const_name(cs, n as int) == Ok::<Seq<u8>, RuntimeError>(a),
        _ => false,
    }
}

proof fn lemma_key_index_same<K, V>(m1: Seq<(K, V)>, m2: Seq<(K, V)>, a: K, i: int)
    requires
        m1.len() <= m2.len(),
        0 <= i <= m2.len(),
        forall|j: int| 0 <= j < m1.len() ==> m1[j].0 == m2[j].0,
        forall|j: int| m1.len() <= j < m2.len() ==> m2[j].0 != a,
    ensures
        key_index(m1, a, i) == key_index(m2, a, i),
    decreases m2.len() - i,
{
    if i < m2.len() {
        lemma_key_index_same(m1, m2, a, i + 1);
    }
}

/// Storing under one key leaves what another key reads.
proof fn lemma_assoc_get_other<K>(m: Seq<(K, Val)>, n: K, v: Val, a: K)
    requires
        n != a,
    ensures
        assoc_get(assoc_set(m, n, v), a) == assoc_get(m, a),
{
    lemma_key_index(m, n, 0);
    lemma_key_index(m, a, 0);
    let m2 = assoc_set(m, n, v);
    lemma_key_index_same(m, m2, a, 0);
}

proof fn lemma_step_keeps_global(m: VmView, cs: Seq<Val>, c: ByteCode, a: Seq<u8>)
    requires
        !writes_global(cs, c, a),
        step(m, cs, c) is Ok,
    ensures
        assoc_get(step(m, cs, c)->Ok_0.0.globals, a) == assoc_get(m.globals, a),
{
    match c {
        ByteCode::SetGlobal(name, src) => {
            lemma_assoc_get_other(m.globals, const_name(cs, name as int)->Ok_0, read_slot(m.stack, src as int)->Ok_0, a);
        },
        ByteCode::SetGlobalConst(name, k) => {
            lemma_assoc_get_other(m.globals, const_name(cs, name as int)->Ok_0, read_const(cs, k as int)->Ok_0, a);
        },
        ByteCode::SetGlobalGlobal(name, src) => {
            lemma_assoc_get_other(
                m.globals,
                const_name(cs, name as int)->Ok_0,
                assoc_get(m.globals, const_name(cs, src as int)->Ok_0),
                a,
            );
        },
        _ => {},
    }
}

/// Two globals that hold the same table go on holding it through a run
/// that assigns neither of them, so they observe the same contents at its
/// end: every change the run made to that table through any handle is
/// seen through both.
pub proof fn law_aliasing_through_run(m: VmView, cs: Seq<Val>, codes: Seq<ByteCode>, a: Seq<u8>, b: Seq<u8>)
    requires
        assoc_get(m.globals, a) is Table,
        assoc_get(m.globals, a) == assoc_get(m.globals, b),
        forall|i: int| 0 <= i < codes.len() ==> !writes_global(cs, #[trigger] codes[i], a) && !writes_global(cs, codes[i], b),
    ensures
        assoc_get(run(m, cs, codes).0.globals, a) == assoc_get(m.globals, a),
        assoc_get(run(m, cs, codes).0.globals, b) == assoc_get(m.globals, a),
        global_table(run(m, cs, codes).0, a) == global_table(run(m, cs, codes).0, b),
    decreases codes.len(),
{
    if codes.len() > 0 {
        let init = codes.drop_last();
        assert forall|i: int| 0 <= i < init.len() implies !writes_global(cs, #[trigger] init[i], a) && !writes_global(cs, init[i], b) by {
            assert(init[i] == codes[i]);
        }
        law_aliasing_through_run(m, cs, init, a, b);
        let m1 = run(m, cs, init).0;
        let last = codes[codes.len() - 1];
        if run(m, cs, init).2 is None && step(m1, cs, last) is Ok {
            lemma_step_keeps_global(m1, cs, last, a);
            lemma_step_keeps_global(m1, cs, last, b);
        }
    }
}

} // verus!
