use rua::bytecode::ByteCode;
use rua::parse::ParseProto;
use rua::value::{FloatLit, HostFn, Value};
use rua::vm::ExeState;

fn run(src: &str) -> (ParseProto, ExeState, Vec<Value>) {
    let proto = ParseProto::load(src.as_bytes().to_vec()).expect("the source should compile");
    let mut vm = ExeState::new();
    let mut out = Vec::new();
    vm.execute(&proto, &mut out).expect("the program should run");
    (proto, vm, out)
}

fn float_value(f: &FloatLit) -> f64 {
    let mut scale = 1.0;
    for _ in 0..f.frac_digits {
        scale *= f.radix as f64;
    }
    let v = f.int_part as f64 + f.frac_part as f64 / scale;
    if f.exp == 0 {
        v
    } else {
        v * 10f64.powi(f.exp as i32)
    }
}

fn shown(v: &Value) -> String {
    match v {
        Value::Float(f) => format!("{:?}", float_value(f)),
        _ => String::from_utf8(v.display()).unwrap(),
    }
}

fn printed(src: &str) -> Vec<String> {
    let (_, _, out) = run(src);
    out.iter().map(shown).collect()
}

fn global(vm: &ExeState, name: &str) -> Value {
    for (k, v) in vm.globals.iter() {
        if k.as_slice() == name.as_bytes() {
            return v.clone();
        }
    }
    Value::Nil
}

#[test]
fn hello_world() {
    assert_eq!(printed("print \"hello, world!\""), vec!["'hello, world!'".to_string()]);
}

#[test]
fn print_single_argument() {
    assert_eq!(printed("print(\"hello, world!\")"), vec!["'hello, world!'".to_string()]);
}

#[test]
fn scientific_notation() {
    assert_eq!(printed("print(1.5e2)"), vec!["150.0".to_string()]);
}

#[test]
fn local_shadowing_takes_the_latest() {
    assert_eq!(printed("local x = 1; local x = 2; print(x)"), vec!["2".to_string()]);
}

#[test]
fn missing_global_is_nil() {
    assert_eq!(printed("print(undef)"), vec!["nil".to_string()]);
}

#[test]
fn global_copied_from_global() {
    assert_eq!(printed("a = 10; b = a; print(b)"), vec!["10".to_string()]);
}

#[test]
fn local_then_call_on_the_stack() {
    let (_, vm, out) = run("local x = 3; print(x)");
    assert_eq!(out.iter().map(shown).collect::<Vec<_>>(), vec!["3".to_string()]);
    assert_eq!(vm.stack.len(), 3);
    assert_eq!(vm.stack[0], Value::Integer(3));
    assert_eq!(vm.stack[1], Value::Function(HostFn::Print));
    assert_eq!(vm.stack[2], Value::Integer(3));
}

#[test]
fn table_constructor_fills_both_parts() {
    let (_, vm, out) = run("t = { 1, 2, [3]=30, name=\"n\" }; print(t)");
    assert_eq!(out.len(), 1);
    assert!(shown(&out[0]).starts_with("{table}:"));
    let id = match global(&vm, "t") {
        Value::Table(id) => id,
        other => panic!("t is {:?}", other),
    };
    let table = &vm.tables[id];
    assert_eq!(table.array, vec![Value::Integer(1), Value::Integer(2)]);
    assert_eq!(table.map.len(), 2);
    assert!(table.map.contains(&(Value::Integer(3), Value::Integer(30))));
    assert!(table.map.contains(&(Value::String(b"name".to_vec()), Value::String(b"n".to_vec()))));
}

#[test]
fn global_reassigned_from_constant() {
    assert_eq!(printed("a = 1; a = 2; print(a)"), vec!["2".to_string()]);
}

#[test]
fn pool_holds_each_value_once() {
    let (proto, _, _) = run("print \"a\"; print \"a\"; x = \"a\"; y = 100000; z = 100000; print(x)");
    for i in 0..proto.constants.len() {
        for j in (i + 1)..proto.constants.len() {
            assert_ne!(proto.constants[i], proto.constants[j]);
        }
    }
    let strings_a = proto.constants.iter().filter(|v| **v == Value::String(b"a".to_vec())).count();
    assert_eq!(strings_a, 1);
}

#[test]
fn code_refers_to_the_pool_only() {
    let (proto, _, _) = run("a = \"x\"; b = a; local c = 70000; d = c; print(d); t = { k = 1 }");
    let n = proto.constants.len();
    for code in proto.bytecodes.iter() {
        match *code {
            ByteCode::GetGlobal(_, k) | ByteCode::SetGlobal(k, _) | ByteCode::LoadConst(_, k) | ByteCode::SetField(_, k, _) => {
                assert!((k as usize) < n)
            },
            ByteCode::SetGlobalConst(a, b) | ByteCode::SetGlobalGlobal(a, b) => {
                assert!((a as usize) < n && (b as usize) < n)
            },
            _ => {},
        }
    }
}

#[test]
fn stack_is_one_above_highest_write() {
    let (_, vm, _) = run("local a = 1; local b = true; local c = nil");
    assert_eq!(vm.stack.len(), 3);
    let (_, vm, _) = run("x = 1; y = x");
    assert_eq!(vm.stack.len(), 0);
}

#[test]
fn literals_reach_the_stack_unchanged() {
    let (proto, vm, _) = run("local a = 7; local b = 100000; local c = 2.5; local d = 's'; local e = nil; local f = true");
    assert_eq!(proto.bytecodes[0], ByteCode::LoadInt(0, 7));
    assert!(matches!(proto.bytecodes[1], ByteCode::LoadConst(1, _)));
    assert_eq!(vm.stack[0], Value::Integer(7));
    assert_eq!(vm.stack[1], Value::Integer(100000));
    assert_eq!(vm.stack[2], Value::Float(FloatLit { int_part: 2, frac_part: 5, frac_digits: 1, radix: 10, exp: 0 }));
    assert_eq!(vm.stack[3], Value::String(b"s".to_vec()));
    assert_eq!(vm.stack[4], Value::Nil);
    assert_eq!(vm.stack[5], Value::Boolean(true));
}

#[test]
fn small_integer_bounds() {
    let proto = ParseProto::load(b"local a = 32767; local b = 32768; local c = -1".to_vec());
    assert!(proto.is_err());
    let proto = ParseProto::load(b"local a = 32767; local b = 32768".to_vec()).unwrap();
    assert_eq!(proto.bytecodes[0], ByteCode::LoadInt(0, 32767));
    assert_eq!(proto.bytecodes[1], ByteCode::LoadConst(1, 0));
    assert_eq!(proto.constants, vec![Value::Integer(32768)]);
}

#[test]
fn emitter_twice_gives_the_same() {
    let src = b"local x = 1; t = { x, 2.5, [\"k\"] = 'v' }; print(t); y = x".to_vec();
    let a = ParseProto::load(src.clone()).unwrap();
    let b = ParseProto::load(src).unwrap();
    assert_eq!(a.constants, b.constants);
    assert_eq!(a.bytecodes, b.bytecodes);
}

#[test]
fn emitted_code_for_a_call() {
    let proto = ParseProto::load(b"print \"hi\"".to_vec()).unwrap();
    assert_eq!(proto.constants, vec![Value::String(b"print".to_vec()), Value::String(b"hi".to_vec())]);
    assert_eq!(proto.bytecodes, vec![ByteCode::GetGlobal(0, 0), ByteCode::LoadConst(1, 1), ByteCode::Call(0, 1)]);
}

#[test]
fn emitted_code_for_a_table() {
    let proto = ParseProto::load(b"t = { 1, 2, [3]=30, name=\"n\" }".to_vec()).unwrap();
    assert_eq!(
        proto.bytecodes,
        vec![
            ByteCode::NewTable(0, 2, 2),
            ByteCode::LoadInt(1, 1),
            ByteCode::LoadInt(2, 2),
            ByteCode::LoadInt(3, 3),
            ByteCode::LoadInt(4, 30),
            ByteCode::SetTable(0, 3, 4),
            ByteCode::LoadConst(3, 1),
            ByteCode::SetField(0, 2, 3),
            ByteCode::SetList(0, 2),
            ByteCode::SetGlobal(0, 0),
        ]
    );
}

#[test]
fn global_assignment_opcodes() {
    let proto = ParseProto::load(b"local l = 1; a = nil; b = l; c = a".to_vec()).unwrap();
    assert_eq!(proto.bytecodes[1], ByteCode::SetGlobalConst(0, 1));
    assert_eq!(proto.bytecodes[2], ByteCode::SetGlobal(2, 0));
    assert_eq!(proto.bytecodes[3], ByteCode::SetGlobalGlobal(3, 0));
}

#[test]
fn local_assignment_and_local_table() {
    assert_eq!(printed("local a = 1; a = 5; print(a)"), vec!["5".to_string()]);
    let (_, vm, out) = run("local a = 1; local b = 2; a = { 9 }; print(b); print(a)");
    assert_eq!(shown(&out[0]), "2");
    assert!(shown(&out[1]).starts_with("{table}: 0x"));
    match vm.stack[0] {
        Value::Table(id) => assert_eq!(vm.tables[id].array, vec![Value::Integer(9)]),
        ref other => panic!("a is {:?}", other),
    }
}

#[test]
fn nested_tables_and_separators() {
    let (_, vm, _) = run("t = { { 1 }; x = { }, 3, }");
    let id = match global(&vm, "t") {
        Value::Table(id) => id,
        other => panic!("t is {:?}", other),
    };
    assert_eq!(vm.tables[id].array.len(), 2);
    assert_eq!(vm.tables[id].array[1], Value::Integer(3));
    match vm.tables[id].array[0] {
        Value::Table(inner) => assert_eq!(vm.tables[inner].array, vec![Value::Integer(1)]),
        ref other => panic!("first item is {:?}", other),
    }
}

#[test]
fn numbers_in_other_bases() {
    assert_eq!(
        printed("print(0x1F); print(0b101); print(0o17); print(007)"),
        vec!["31".to_string(), "5".to_string(), "15".to_string(), "7".to_string()]
    );
}

#[test]
fn floats_are_displayed_by_value() {
    assert_eq!(printed("print(.5); print(2.25e-1); print(3e0)"), vec!["0.5".to_string(), "0.225".to_string(), "3.0".to_string()]);
}

#[test]
fn strings_with_escapes() {
    let (_, _, out) = run("print \"a\\tb\\65\\x41\\'\"");
    assert_eq!(out, vec![Value::String(vec![b'a', b'\t', b'b', 65, 0x41, b'\''])]);
    assert_eq!(printed("print 'it'"), vec!["'it'".to_string()]);
}

#[test]
fn comments_and_empty_statements() {
    assert_eq!(printed("-- a comment\n;;print(1) -- trailing\n--\nprint(2)"), vec!["1".to_string(), "2".to_string()]);
}

#[test]
fn booleans_and_functions_display() {
    assert_eq!(printed("print(true); print(false); print(nil); print(print)"), vec![
        "true".to_string(),
        "false".to_string(),
        "nil".to_string(),
        "<function>".to_string(),
    ]);
}

#[test]
fn display_of_integers() {
    assert_eq!(Value::Integer(-5).display(), b"-5".to_vec());
    assert_eq!(Value::Integer(0).display(), b"0".to_vec());
    assert_eq!(Value::Integer(i64::MIN).display(), b"-9223372036854775808".to_vec());
    assert_eq!(Value::Integer(i64::MAX).display(), b"9223372036854775807".to_vec());
    assert_eq!(Value::Table(255).display(), b"{table}: 0xff".to_vec());
}
