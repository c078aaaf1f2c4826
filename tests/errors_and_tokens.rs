use rua::bytecode::ByteCode;
use rua::lex::{Keyword, Lex, LexError, Symbol, Token};
use rua::parse::{ParseError, ParseProto};
use rua::utils::{New, TokenIterator};
use rua::value::{HostFn, Value};
use rua::vm::{ExeState, RuntimeError, Table};

fn load(src: &str) -> Result<ParseProto, ParseError> {
    ParseProto::load(src.as_bytes().to_vec())
}

fn load_err(src: &str) -> ParseError {
    match load(src) {
        Ok(_) => panic!("`{}` should not compile", src),
        Err(e) => e,
    }
}

fn run_err(src: &str) -> RuntimeError {
    let proto = load(src).expect("the source should compile");
    let mut vm = ExeState::new();
    let mut out = Vec::new();
    vm.execute(&proto, &mut out).expect_err("the program should fail")
}

fn tokens(src: &str) -> Vec<Token> {
    let mut lex = Lex::new(src.as_bytes().to_vec());
    let mut all = Vec::new();
    loop {
        let t = lex.next().expect("the source should lex");
        if t == Token::Eos {
            return all;
        }
        all.push(t);
    }
}

#[test]
fn symbols_with_lookahead() {
    let want: Vec<Token> = vec![
        Symbol::Idiv, Symbol::Div, Symbol::Equal, Symbol::Assign, Symbol::NotEq, Symbol::BitXor, Symbol::DoubColon,
        Symbol::Colon, Symbol::LesEq, Symbol::ShiftL, Symbol::Less, Symbol::GreEq, Symbol::ShiftR, Symbol::Greater,
        Symbol::Dots, Symbol::Concat, Symbol::Dot, Symbol::Add, Symbol::Sub, Symbol::Mul, Symbol::Mod, Symbol::Pow,
        Symbol::Len, Symbol::BitAnd, Symbol::BitOr, Symbol::ParL, Symbol::ParR, Symbol::CurlyL, Symbol::CurlyR,
        Symbol::SqurL, Symbol::SqurR, Symbol::SemiColon, Symbol::Comma,
    ]
    .into_iter()
    .map(Token::Symbol)
    .collect();
    assert_eq!(tokens("// / == = ~= ~ :: : <= << < >= >> > ... .. . + - * % ^ # & | ( ) { } [ ] ; ,"), want);
}

#[test]
fn keywords_and_names() {
    assert_eq!(
        tokens("local async await function foo _x1 nil"),
        vec![
            Token::Keyword(Keyword::Local),
            Token::Keyword(Keyword::Async),
            Token::Keyword(Keyword::Await),
            Token::Keyword(Keyword::Function),
            Token::Name(b"foo".to_vec()),
            Token::Name(b"_x1".to_vec()),
            Token::Keyword(Keyword::Nil),
        ]
    );
}

#[test]
fn peek_then_next_agree() {
    let mut lex = Lex::new(b"a = 1".to_vec());
    assert_eq!(lex.next().unwrap(), Token::Name(b"a".to_vec()));
    assert_eq!(lex.peek().unwrap(), Token::Symbol(Symbol::Assign));
    assert_eq!(lex.peek().unwrap(), Token::Symbol(Symbol::Assign));
    assert_eq!(lex.next().unwrap(), Token::Symbol(Symbol::Assign));
    assert_eq!(lex.next().unwrap(), Token::Integer(1));
    assert_eq!(lex.next().unwrap(), Token::Eos);
    assert_eq!(lex.next().unwrap(), Token::Eos);
}

#[test]
fn lex_errors() {
    let first_err = |src: &str| -> LexError {
        let mut lex = Lex::new(src.as_bytes().to_vec());
        loop {
            match lex.next() {
                Ok(Token::Eos) => panic!("`{}` should not lex", src),
                Ok(_) => {},
                Err(e) => return e,
            }
        }
    };
    assert_eq!(first_err("a @"), LexError::UnexpectedChar(b'@'));
    assert_eq!(first_err("'abc"), LexError::UnfinishedString);
    assert_eq!(first_err("'ab\ncd'"), LexError::UnfinishedString);
    assert_eq!(first_err("'\\q'"), LexError::InvalidEscape);
    assert_eq!(first_err("'\\xZ1'"), LexError::InvalidEscape);
    assert_eq!(first_err("'\\300'"), LexError::EscapeTooLarge);
    assert_eq!(first_err("12a"), LexError::MalformedNumber);
    assert_eq!(first_err("1ex"), LexError::MalformedNumber);
    assert_eq!(first_err("9223372036854775808"), LexError::NumberOutOfRange);
    assert_eq!(first_err("--[[ long ]]"), LexError::LongComment);
    assert_eq!(first_err("1.5x"), LexError::MalformedNumber);
    assert_eq!(first_err("1e5x"), LexError::MalformedNumber);
    assert_eq!(first_err("1.5.3"), LexError::MalformedNumber);
    assert_eq!(first_err(".5e2."), LexError::MalformedNumber);
    assert_eq!(first_err("0x1.8g"), LexError::MalformedNumber);
}

#[test]
fn largest_integer_literal() {
    assert_eq!(tokens("9223372036854775807"), vec![Token::Integer(i64::MAX)]);
    assert_eq!(tokens("0x7fffffffffffffff"), vec![Token::Integer(i64::MAX)]);
}

#[test]
fn parse_errors() {
    assert_eq!(load_err("async = 1"), ParseError::UnexpectedToken);
    assert_eq!(load_err("print(1"), ParseError::Expected(Symbol::ParR));
    assert_eq!(load_err("local = 1"), ParseError::ExpectedName);
    assert_eq!(load_err("local a 1"), ParseError::Expected(Symbol::Assign));
    assert_eq!(load_err("a = )"), ParseError::InvalidExpression);
    assert_eq!(load_err("print 1"), ParseError::ExpectedArgument);
    assert_eq!(load_err("t = { 1 2 }"), ParseError::Expected(Symbol::CurlyR));
    assert_eq!(load_err("t = { [1] 2 }"), ParseError::Expected(Symbol::Assign));
    assert_eq!(load_err("t = { 1,"), ParseError::Expected(Symbol::CurlyR));
    assert_eq!(load_err("a = 'x"), ParseError::Lex(LexError::UnfinishedString));
}

#[test]
fn too_many_constants() {
    let mut src = String::new();
    for i in 0..255 {
        src.push_str(&format!("g{} = 1; ", i));
    }
    assert!(load(&src).is_ok());
    src.push_str("h = 2");
    assert_eq!(load_err(&src), ParseError::TooManyConstants);
}

#[test]
fn too_many_locals() {
    let mut src = String::new();
    for _ in 0..256 {
        src.push_str("local x = 1 ");
    }
    assert!(load(&src).is_ok());
    src.push_str("local y = 1");
    assert_eq!(load_err(&src), ParseError::StackOverflow);
}

#[test]
fn table_too_large() {
    let mut src = String::from("t = {");
    for i in 0..256 {
        src.push_str(&format!("[{}] = 0, ", i));
    }
    src.push('}');
    assert_eq!(load_err(&src), ParseError::TableTooLarge);
}

#[test]
fn runtime_errors() {
    assert_eq!(run_err("x = 1; x(2)"), RuntimeError::NotCallable);
    assert_eq!(run_err("t = { [nil] = 1 }"), RuntimeError::NilKey);
}

#[test]
fn step_errors_on_bad_code() {
    let proto = ParseProto {
        constants: vec![Value::Integer(1)],
        bytecodes: vec![],
        locals: vec![],
        sp: 0,
        lexer: Lex::new(vec![]),
    };
    let mut vm = ExeState::new();
    assert_eq!(vm.step(&proto, ByteCode::LoadNil(1)), Err(RuntimeError::StackGap));
    assert_eq!(vm.step(&proto, ByteCode::Move(0, 3)), Err(RuntimeError::SlotOutOfRange));
    assert_eq!(vm.step(&proto, ByteCode::LoadConst(0, 9)), Err(RuntimeError::ConstantOutOfRange));
    assert_eq!(vm.step(&proto, ByteCode::GetGlobal(0, 0)), Err(RuntimeError::NameNotString));
    assert_eq!(vm.step(&proto, ByteCode::LoadNil(0)), Ok(None));
    assert_eq!(vm.step(&proto, ByteCode::SetField(0, 0, 0)), Err(RuntimeError::NotATable));
}

#[test]
fn aliased_tables_see_each_other() {
    let proto = ParseProto {
        constants: vec![Value::String(b"a".to_vec()), Value::String(b"b".to_vec()), Value::String(b"k".to_vec())],
        bytecodes: vec![
            ByteCode::NewTable(0, 0, 1),
            ByteCode::SetGlobal(0, 0),
            ByteCode::SetGlobalGlobal(1, 0),
            ByteCode::GetGlobal(1, 1),
            ByteCode::LoadInt(2, 42),
            ByteCode::SetField(1, 2, 2),
            ByteCode::GetGlobal(3, 0),
        ],
        locals: vec![],
        sp: 0,
        lexer: Lex::new(vec![]),
    };
    let mut vm = ExeState::new();
    let mut out = Vec::new();
    vm.execute(&proto, &mut out).unwrap();
    assert_eq!(vm.stack[3], vm.stack[0]);
    let id = match vm.stack[3] {
        Value::Table(id) => id,
        ref other => panic!("a is {:?}", other),
    };
    assert_eq!(vm.tables[id].map, vec![(Value::String(b"k".to_vec()), Value::Integer(42))]);
}

#[test]
fn set_list_moves_values_off_the_stack() {
    let proto = ParseProto {
        constants: vec![],
        bytecodes: vec![
            ByteCode::NewTable(0, 2, 0),
            ByteCode::LoadInt(1, 1),
            ByteCode::LoadInt(2, 2),
            ByteCode::LoadInt(3, 3),
            ByteCode::SetList(0, 2),
        ],
        locals: vec![],
        sp: 0,
        lexer: Lex::new(vec![]),
    };
    let mut vm = ExeState::new();
    let mut out = Vec::new();
    vm.execute(&proto, &mut out).unwrap();
    assert_eq!(vm.stack.len(), 2);
    assert_eq!(vm.stack[1], Value::Integer(3));
    assert_eq!(vm.tables[0].array, vec![Value::Integer(1), Value::Integer(2)]);
}

#[test]
fn add_const_reuses_equal_values() {
    let mut proto = ParseProto::new(vec![]);
    assert_eq!(proto.add_const(Value::String(b"x".to_vec())), 0);
    assert_eq!(proto.add_const(Value::Integer(5)), 1);
    assert_eq!(proto.add_const(Value::String(b"x".to_vec())), 0);
    assert_eq!(proto.load_const(4, Value::Integer(5)), Ok(ByteCode::LoadConst(4, 1)));
    assert_eq!(proto.load_var(2, b"y".to_vec()), Ok(ByteCode::GetGlobal(2, 2)));
    assert_eq!(proto.constants.len(), 3);
}

#[test]
fn fresh_state_knows_print() {
    let vm = ExeState::new();
    assert_eq!(vm.globals.len(), 1);
    assert_eq!(vm.globals[0], (b"print".to_vec(), Value::Function(HostFn::Print)));
    assert!(vm.stack.is_empty());
    let t = Table::new(4, 4);
    assert!(t.array.is_empty() && t.map.is_empty());
}

#[test]
fn traits_reach_the_same_code() {
    let mut lex = Lex::new(b"x".to_vec());
    assert_eq!(TokenIterator::next(&mut lex), Ok(Token::Name(b"x".to_vec())));
    assert_eq!(TokenIterator::next(&mut lex), Ok(Token::Eos));
    let vm: ExeState = <ExeState as New>::new();
    assert_eq!(vm.globals.len(), 1);
    let d = ExeState::default();
    assert!(d.tables.is_empty());
}

#[test]
fn expect_checks_the_next_token() {
    let mut lex = Lex::new(b"( x".to_vec());
    assert_eq!(lex.expect(&Token::Symbol(Symbol::ParL)), Ok(()));
    assert_eq!(lex.expect(&Token::Symbol(Symbol::ParR)), Err(ParseError::Expected(Symbol::ParR)));
    let mut lex = Lex::new(b"y".to_vec());
    assert_eq!(lex.expect(&Token::Integer(1)), Err(ParseError::UnexpectedToken));
}

#[test]
fn long_fractions_keep_what_fits() {
    let toks = tokens("0.12345678901234567890123");
    match &toks[..] {
        [Token::Float(f)] => {
            assert_eq!(f.int_part, 0);
            assert_eq!(f.frac_part, 1234567890123456789);
            assert_eq!(f.frac_digits, 19);
            assert_eq!(f.radix, 10);
        },
        other => panic!("got {:?}", other),
    }
    let toks = tokens("1.5 ");
    assert_eq!(toks.len(), 1);
}
