use ahola::{compile_tokens, lex, AholaData, CompileError, OpCode, SymbolTable, Token};

fn no_calls(name: String, args: String) -> String {
    format!("{}({})", name, args)
}

fn fixed_calls(_name: String, _args: String) -> String {
    "3.5".to_string()
}

fn tokens_of(src: &str) -> Vec<Token> {
    lex(src, no_calls).unwrap()
}

fn compile(src: &str) -> (Result<(), CompileError>, SymbolTable, Vec<OpCode>) {
    let tokens = tokens_of(src);
    let mut table = SymbolTable::new();
    let mut code = Vec::new();
    let r = compile_tokens(&tokens, &mut table, &mut code);
    (r, table, code)
}

fn slot_of(table: &SymbolTable, name: &str) -> Option<usize> {
    table.get(&name.to_string()).map(|s| s.slot)
}

#[test]
fn declaration_stores_a_signed_number() {
    let (r, table, code) = compile("let x = 5");
    assert!(r.is_ok());
    assert_eq!(code, vec![OpCode::Store(0, AholaData::I4M("5".to_string()))]);
    let sym = table.get(&"x".to_string()).unwrap();
    assert_eq!(sym.slot, 0);
    assert_eq!(sym.var_type, "i4M");
    assert!(!sym.changeable);
    assert!(!sym.is_private);
    assert_eq!(table.next_slot, 1);
}

#[test]
fn typed_declarations() {
    let (r, table, code) = compile("let a: u4M = 7\nlet b: int5M = 8\nlet c: text = 9");
    assert!(r.is_ok());
    assert_eq!(
        code,
        vec![
            OpCode::Store(0, AholaData::U4M("7".to_string())),
            OpCode::Store(1, AholaData::Int5M("8".to_string())),
            OpCode::Store(2, AholaData::I4M("9".to_string())),
        ]
    );
    let a = table.get(&"a".to_string()).unwrap();
    assert_eq!(a.var_type, "u4M");
    assert!(a.is_private);
    assert_eq!(table.get(&"c".to_string()).unwrap().var_type, "text");
}

#[test]
fn numbers_that_do_not_parse_become_zero() {
    let tokens = lex("let x = f(1)\nlet y: u4M = g(2)\nlet z: u4M = \u{663}", fixed_calls).unwrap();
    let mut table = SymbolTable::new();
    let mut code = Vec::new();
    compile_tokens(&tokens, &mut table, &mut code).unwrap();
    assert_eq!(
        code,
        vec![
            OpCode::Store(0, AholaData::I4M("0".to_string())),
            OpCode::Store(1, AholaData::U4M("0".to_string())),
            OpCode::Store(2, AholaData::U4M("0".to_string())),
        ]
    );
}

#[test]
fn a_minus_sign_is_stored_as_text() {
    // `-3` is lexed as a minus and a number: the minus is the value, and
    // the number after it is skipped.
    let (r, table, code) = compile("let y: u4M = -3");
    assert!(r.is_ok());
    assert_eq!(code, vec![OpCode::Store(0, AholaData::String("-".to_string()))]);
    assert_eq!(table.get(&"y".to_string()).unwrap().var_type, "u4M");
}

#[test]
fn string_and_list_values() {
    let (r, table, code) = compile("let s = \"hi\"\nlet xs = [\"a\", 1, b]");
    assert!(r.is_ok());
    assert_eq!(
        code,
        vec![
            OpCode::Store(0, AholaData::String("hi".to_string())),
            OpCode::Store(
                1,
                AholaData::Card(vec![AholaData::String("a".to_string()), AholaData::I4M("1".to_string())])
            ),
        ]
    );
    assert_eq!(table.get(&"s".to_string()).unwrap().var_type, "string");
    assert_eq!(table.get(&"xs".to_string()).unwrap().var_type, "card");
}

#[test]
fn changeable_variables_can_grow() {
    let (r, table, code) = compile("let x *c = 1\nx += 2\nx += \"s\"");
    assert!(r.is_ok());
    assert!(table.get(&"x".to_string()).unwrap().changeable);
    assert_eq!(
        code,
        vec![
            OpCode::Store(0, AholaData::I4M("1".to_string())),
            OpCode::PlusEqual(0, AholaData::I4M("2".to_string())),
            OpCode::PlusEqual(0, AholaData::String("s".to_string())),
        ]
    );
}

#[test]
fn plus_equal_follows_the_variable_type() {
    // A type before `*c` leaves the declaration unfinished: the compiler goes
    // on from the next token and declares the type name itself.
    let (r, table, code) = compile("let a: u4M *c = 1");
    assert!(r.is_ok());
    assert_eq!(code, vec![OpCode::Store(0, AholaData::I4M("1".to_string()))]);
    assert!(table.get(&"a".to_string()).is_none());
    assert!(table.get(&"u4M".to_string()).unwrap().changeable);
    let (r, _, code) = compile("let a *c: u4M = 1\na += 4\nlet b *c: int5M = 1\nb += 5");
    assert!(r.is_ok());
    assert_eq!(code[1], OpCode::PlusEqual(0, AholaData::U4M("4".to_string())));
    assert_eq!(code[3], OpCode::PlusEqual(1, AholaData::Int5M("5".to_string())));
}

#[test]
fn reassignment_keeps_the_slot() {
    let (r, table, code) = compile("let x = 1\nx = 2");
    assert!(r.is_ok());
    assert_eq!(table.next_slot, 1);
    assert_eq!(code[1], OpCode::Store(0, AholaData::I4M("2".to_string())));
}

#[test]
fn immutable_variable_error() {
    let (r, _, _) = compile("let x = 1\nx += 2");
    assert_eq!(r, Err(CompileError::ImmutableVariable { name: "x".to_string() }));
}

#[test]
fn changeable_constant_error() {
    let (r, _, _) = compile("let Max *c = 1");
    assert_eq!(r, Err(CompileError::ChangeableConstant { name: "Max".to_string() }));
}

#[test]
fn assignment_from_a_name_is_an_error() {
    let (r, _, _) = compile("let x = y");
    assert_eq!(
        r,
        Err(CompileError::NonLiteralAssignment { name: "x".to_string(), value: "y".to_string() })
    );
}

#[test]
fn databases_and_requests() {
    let (r, table, code) = compile("users = .db\npage = users.request[1-100]\nusers.request[20 3-4]\n.ban users");
    assert!(r.is_ok());
    assert_eq!(slot_of(&table, "users"), Some(0));
    assert_eq!(slot_of(&table, "page"), Some(1));
    assert_eq!(table.get(&"page".to_string()).unwrap().var_type, "card");
    assert_eq!(
        code,
        vec![
            OpCode::Store(0, AholaData::DbRef("users".to_string())),
            OpCode::DbRangeRequest {
                target_slot: Some(1),
                db_var_slot: 0,
                start: "1".to_string(),
                end: "100".to_string()
            },
            OpCode::DbRangeRequest {
                target_slot: None,
                db_var_slot: 0,
                start: "203".to_string(),
                end: "4".to_string()
            },
            OpCode::Ban(0, "users".to_string()),
        ]
    );
}

#[test]
fn request_on_an_unknown_database_is_skipped() {
    let (r, table, code) = compile("nothing.request[1-2]");
    assert!(r.is_ok());
    assert!(code.is_empty());
    assert_eq!(table.next_slot, 0);
    // With an assignment the request is read as a declaration from a name.
    let (r, _, _) = compile("page = nothing.request[1-2]");
    assert_eq!(
        r,
        Err(CompileError::NonLiteralAssignment { name: "page".to_string(), value: "nothing".to_string() })
    );
}

#[test]
fn main_block_is_compiled_inside() {
    let (r, table, code) = compile("pub struct @main {\n let x = 1\n { }\n stamp \"in\"\n}\nstamp \"out\"");
    assert!(r.is_ok());
    assert_eq!(slot_of(&table, "x"), Some(0));
    assert_eq!(
        code,
        vec![
            OpCode::Store(0, AholaData::I4M("1".to_string())),
            OpCode::Stamp("in".to_string()),
            OpCode::Stamp("out".to_string()),
        ]
    );
}

#[test]
fn statements_that_print() {
    let (r, _, code) = compile("let v = 1\ndump v\ndump w\ncall_rust hello \"arg\"\nembed rust { a b }");
    assert!(r.is_ok());
    assert_eq!(
        code,
        vec![
            OpCode::Store(0, AholaData::I4M("1".to_string())),
            OpCode::Dump(0),
            OpCode::CallRustFunc { func_name: "hello".to_string(), arg: "arg".to_string() },
            OpCode::InlineRust("a b ".to_string()),
        ]
    );
}

#[test]
fn unknown_tokens_are_skipped() {
    let (r, table, code) = compile("if else > , while");
    assert!(r.is_ok());
    assert!(code.is_empty());
    assert_eq!(table.next_slot, 0);
}

#[test]
fn compiling_appends_to_existing_bytecode() {
    let mut table = SymbolTable::new();
    let mut code = Vec::new();
    compile_tokens(&tokens_of("let a = 1"), &mut table, &mut code).unwrap();
    compile_tokens(&tokens_of("let b = 2\na = 3"), &mut table, &mut code).unwrap();
    assert_eq!(
        code,
        vec![
            OpCode::Store(0, AholaData::I4M("1".to_string())),
            OpCode::Store(1, AholaData::I4M("2".to_string())),
            OpCode::Store(0, AholaData::I4M("3".to_string())),
        ]
    );
    assert_eq!(table.next_slot, 2);
}

#[test]
fn a_main_block_compiles_like_its_body() {
    let body = "let x *c = 1\nx += 2\n{ stamp \"in\" }\ndump x";
    let (r1, t1, c1) = compile(&format!("pub struct @main {{\n{}\n}}", body));
    let (r2, t2, c2) = compile(body);
    assert_eq!(r1, r2);
    assert_eq!(c1, c2);
    assert_eq!(t1.next_slot, t2.next_slot);
    assert_eq!(t1.symbols, t2.symbols);
}

#[test]
fn distinct_names_keep_distinct_slots() {
    let (r, table, _) = compile("let a = 1\nlet b = 2\ndb = .db\na = 3\npage = db.request[1-2]\ndb = .db");
    assert!(r.is_ok());
    let slots: Vec<usize> = table.symbols.iter().map(|(_, s)| s.slot).collect();
    for i in 0..slots.len() {
        assert!(slots[i] < table.next_slot);
        for j in 0..i {
            assert_ne!(slots[i], slots[j]);
        }
    }
    assert_eq!(slot_of(&table, "db"), Some(4));
}

#[test]
fn compiling_only_appends_to_any_bytecode() {
    let mut table = SymbolTable::new();
    table.register("kept", "i4M".to_string(), false, false);
    let mut code = vec![OpCode::Store(99, AholaData::I4M("not a number".to_string())), OpCode::Jump(7)];
    compile_tokens(&tokens_of("let a = 1\ndump kept\nkept = 2"), &mut table, &mut code).unwrap();
    assert_eq!(
        code,
        vec![
            OpCode::Store(99, AholaData::I4M("not a number".to_string())),
            OpCode::Jump(7),
            OpCode::Store(1, AholaData::I4M("1".to_string())),
            OpCode::Dump(0),
            OpCode::Store(0, AholaData::I4M("2".to_string())),
        ]
    );
    assert_eq!(table.next_slot, 2);
    assert_eq!(slot_of(&table, "kept"), Some(0));
}
