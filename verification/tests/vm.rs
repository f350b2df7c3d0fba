use ahola::bytecode::copy_data;
use ahola::vm::{range_next, data_is_ok, fill_in, op_is_ok, replace_chars, Effect, Fault, Fill, FillValue, Step};
use ahola::{compile_tokens, lex, optimize_bytecode, AholaData, OpCode, SymbolTable, VirtualMachine};

fn i4m(t: &str) -> AholaData {
    AholaData::I4M(t.to_string())
}

fn text(t: &str) -> AholaData {
    AholaData::String(t.to_string())
}

fn quiet(pc: usize) -> Step {
    Step::Next { pc, effect: Effect::Quiet }
}

fn machine_with(values: Vec<(usize, AholaData)>) -> VirtualMachine {
    let mut vm = VirtualMachine::new(4);
    for (slot, d) in values {
        vm.put(slot, Some(d));
    }
    vm
}

fn no_calls(name: String, args: String) -> String {
    format!("{}({})", name, args)
}

#[test]
fn a_new_machine_has_fifty_spare_slots() {
    let vm = VirtualMachine::new(3);
    assert_eq!(vm.memory.len(), 53);
    assert!(vm.memory.iter().all(|m| m.is_none()));
    assert_eq!(VirtualMachine::new(0).memory.len(), 50);
}

#[test]
fn store_puts_a_value() {
    let mut vm = VirtualMachine::new(1);
    assert_eq!(vm.step(&OpCode::Store(0, i4m("5")), 0), quiet(1));
    assert_eq!(vm.memory[0], Some(i4m("5")));
    assert_eq!(vm.step(&OpCode::Store(0, text("x")), 4), quiet(5));
    assert_eq!(vm.memory[0], Some(text("x")));
}

#[test]
fn store_beyond_the_memory_does_nothing() {
    let mut vm = VirtualMachine::new(0);
    assert_eq!(vm.step(&OpCode::Store(50, i4m("5")), 0), quiet(1));
    assert!(vm.memory.iter().all(|m| m.is_none()));
}

#[test]
fn plus_equal_adds_signed_numbers() {
    let mut vm = machine_with(vec![(0, i4m("5")), (1, i4m("+5")), (2, i4m("007"))]);
    assert_eq!(vm.step(&OpCode::PlusEqual(0, i4m("7")), 0), quiet(1));
    assert_eq!(vm.memory[0], Some(i4m("12")));
    vm.step(&OpCode::PlusEqual(1, i4m("-7")), 1);
    assert_eq!(vm.memory[1], Some(i4m("-2")));
    vm.step(&OpCode::PlusEqual(2, i4m("1_0")), 2);
    assert_eq!(vm.memory[2], Some(i4m("17")));
}

#[test]
fn plus_equal_adds_big_numbers() {
    let mut vm = machine_with(vec![
        (0, AholaData::U4M("18446744073709551615".to_string())),
        (1, AholaData::Int5M("-3".to_string())),
    ]);
    vm.step(&OpCode::PlusEqual(0, AholaData::U4M("1".to_string())), 0);
    assert_eq!(vm.memory[0], Some(AholaData::U4M("18446744073709551616".to_string())));
    vm.step(&OpCode::PlusEqual(1, AholaData::Int5M("3".to_string())), 1);
    assert_eq!(vm.memory[1], Some(AholaData::Int5M("0".to_string())));
}

#[test]
fn plus_equal_appends_text_and_items() {
    let mut vm = machine_with(vec![(0, text("ab")), (1, AholaData::Card(vec![i4m("1")]))]);
    vm.step(&OpCode::PlusEqual(0, text("cd")), 0);
    assert_eq!(vm.memory[0], Some(text("abcd")));
    vm.step(&OpCode::PlusEqual(1, text("x")), 1);
    vm.step(&OpCode::PlusEqual(1, AholaData::Card(vec![])), 2);
    assert_eq!(
        vm.memory[1],
        Some(AholaData::Card(vec![i4m("1"), text("x"), AholaData::Card(vec![])]))
    );
}

#[test]
fn plus_equal_on_kinds_that_do_not_go_together_faults() {
    let mut vm = machine_with(vec![(0, i4m("1")), (1, AholaData::U4M("1".to_string()))]);
    assert_eq!(vm.step(&OpCode::PlusEqual(0, text("x")), 0), Step::Fault(Fault::TypeMismatch));
    assert_eq!(vm.step(&OpCode::PlusEqual(1, i4m("1")), 0), Step::Fault(Fault::TypeMismatch));
    assert_eq!(vm.memory[0], Some(i4m("1")));
    assert_eq!(vm.memory[1], Some(AholaData::U4M("1".to_string())));
}

#[test]
fn plus_equal_on_an_empty_slot_does_nothing() {
    let mut vm = VirtualMachine::new(1);
    assert_eq!(vm.step(&OpCode::PlusEqual(0, i4m("1")), 3), quiet(4));
    assert_eq!(vm.step(&OpCode::PlusEqual(99, i4m("1")), 4), quiet(5));
    assert!(vm.memory.iter().all(|m| m.is_none()));
}

#[test]
fn printing_instructions_hand_back_effects() {
    let mut vm = machine_with(vec![(0, i4m("1"))]);
    assert_eq!(
        vm.step(&OpCode::Stamp("hi".to_string()), 0),
        Step::Next { pc: 1, effect: Effect::Stamp("hi".to_string()) }
    );
    assert_eq!(vm.step(&OpCode::Dump(0), 1), Step::Next { pc: 2, effect: Effect::Dump(0) });
    assert_eq!(vm.step(&OpCode::Dump(1), 2), quiet(3));
    assert_eq!(vm.step(&OpCode::Dump(1000), 3), quiet(4));
    assert_eq!(
        vm.step(&OpCode::InlineRust("a b ".to_string()), 4),
        Step::Next { pc: 5, effect: Effect::Embed("a b ".to_string()) }
    );
    assert_eq!(
        vm.step(&OpCode::CallRustFunc { func_name: "f".to_string(), arg: "x".to_string() }, 5),
        Step::Next { pc: 6, effect: Effect::CallRust { func_name: "f".to_string(), arg: "x".to_string() } }
    );
    assert_eq!(
        vm.step(&OpCode::ExternalFileHook("call.m.rs".to_string()), 6),
        Step::Next { pc: 7, effect: Effect::FileHook("call.m.rs".to_string()) }
    );
}

#[test]
fn jumps_go_to_their_target() {
    let mut vm = VirtualMachine::new(0);
    assert_eq!(vm.step(&OpCode::Jump(7), 2), quiet(7));
    assert_eq!(vm.step(&OpCode::JumpIfFalse(0), 2), quiet(0));
    assert_eq!(vm.step(&OpCode::Call(9), 2), quiet(3));
    assert_eq!(vm.step(&OpCode::Return, 3), quiet(4));
}

#[test]
fn read_file_needs_a_file_name_in_its_slot() {
    let mut vm = machine_with(vec![(1, text("notes.txt")), (2, i4m("1"))]);
    assert_eq!(
        vm.step(&OpCode::ReadFile(0, 1), 0),
        Step::Next { pc: 1, effect: Effect::ReadFile { target_slot: 0, filename: "notes.txt".to_string() } }
    );
    assert_eq!(vm.step(&OpCode::ReadFile(0, 2), 1), quiet(2));
    assert_eq!(vm.step(&OpCode::ReadFile(0, 3), 2), quiet(3));
    assert_eq!(vm.step(&OpCode::ReadFile(0, 500), 3), quiet(4));
}

#[test]
fn range_requests_need_a_database_in_their_slot() {
    let mut vm = machine_with(vec![(0, AholaData::DbRef("users".to_string())), (1, text("users"))]);
    let request = |db: usize| OpCode::DbRangeRequest {
        target_slot: Some(2),
        db_var_slot: db,
        start: "1".to_string(),
        end: "10".to_string(),
    };
    assert_eq!(
        vm.step(&request(0), 0),
        Step::Next {
            pc: 1,
            effect: Effect::DbRange {
                target_slot: Some(2),
                db_name: "users".to_string(),
                start: "1".to_string(),
                end: "10".to_string(),
            }
        }
    );
    assert_eq!(vm.step(&request(1), 1), quiet(2));
    assert_eq!(vm.step(&request(77), 2), quiet(3));
}

#[test]
fn ban_empties_the_slot() {
    let mut vm = machine_with(vec![(0, AholaData::DbRef("users".to_string()))]);
    assert_eq!(
        vm.step(&OpCode::Ban(0, "users".to_string()), 0),
        Step::Next { pc: 1, effect: Effect::Banned("users".to_string()) }
    );
    assert_eq!(vm.memory[0], None);
}

#[test]
fn ban_beyond_the_memory_faults() {
    let mut vm = VirtualMachine::new(0);
    assert_eq!(
        vm.step(&OpCode::Ban(50, "users".to_string()), 0),
        Step::Fault(Fault::SlotOutOfRange(50))
    );
}

#[test]
fn fill_in_replaces_every_occurrence() {
    let fills = vec![("\\(x)".to_string(), "5".to_string())];
    assert_eq!(fill_in(&"x=\\(x), again \\(x)".to_string(), &fills), "x=5, again 5");
    assert_eq!(fill_in(&"nothing".to_string(), &fills), "nothing");
    assert_eq!(fill_in(&"none".to_string(), &Vec::new()), "none");
}

#[test]
fn fill_in_makes_the_replacements_in_order() {
    let fills = vec![
        ("\\(a)".to_string(), "\\(b)".to_string()),
        ("\\(b)".to_string(), "!".to_string()),
    ];
    assert_eq!(fill_in(&"\\(a)\\(b)".to_string(), &fills), "!!");
    let reversed = vec![
        ("\\(b)".to_string(), "!".to_string()),
        ("\\(a)".to_string(), "\\(b)".to_string()),
    ];
    assert_eq!(fill_in(&"\\(a)\\(b)".to_string(), &reversed), "\\(b)!");
}

#[test]
fn replace_chars_does_not_overlap() {
    let chars = |s: &str| s.chars().collect::<Vec<char>>();
    assert_eq!(replace_chars(&chars("aaaa"), &chars("aa"), &chars("b")), chars("bb"));
    assert_eq!(replace_chars(&chars("aaa"), &chars("aa"), &chars("")), chars("a"));
    assert_eq!(replace_chars(&chars(""), &chars("x"), &chars("y")), chars(""));
}

#[test]
fn stamp_fills_follow_the_symbol_table() {
    let mut table = SymbolTable::new();
    let x = table.register("x", "i4M".to_string(), false, false);
    let xs = table.register("xs", "card".to_string(), false, false);
    let unset = table.register("unset", "i4M".to_string(), false, false);
    let db = table.register("db", "db".to_string(), true, false);
    let u = table.register("u", "u4M".to_string(), false, false);
    let nothing = table.register("nothing", "string".to_string(), false, false);
    let mut vm = VirtualMachine::new(table.next_slot);
    vm.put(x, Some(i4m("007")));
    vm.put(xs, Some(AholaData::Card(vec![i4m("1")])));
    vm.put(db, Some(AholaData::DbRef("users".to_string())));
    vm.put(u, Some(AholaData::U4M("+1_000".to_string())));
    vm.put(nothing, Some(AholaData::Nil));
    assert!(vm.memory[unset].is_none());
    let fill = |p: &str, v: FillValue| Fill { pattern: p.to_string(), value: v };
    assert_eq!(
        vm.stamp_fills(&table),
        vec![
            fill("\\(x)", FillValue::Text("7".to_string())),
            fill("\\(xs)", FillValue::List(xs)),
            fill("\\(db)", FillValue::Text(".db reference (users)".to_string())),
            fill("\\(u)", FillValue::Text("1000".to_string())),
            fill("\\(nothing)", FillValue::Text("None".to_string())),
        ]
    );
}

#[test]
fn a_stamp_with_its_fills() {
    let mut table = SymbolTable::new();
    let slot = table.register("name", "string".to_string(), false, false);
    let mut vm = VirtualMachine::new(table.next_slot);
    vm.put(slot, Some(text("Ahola")));
    let fills: Vec<(String, String)> = vm
        .stamp_fills(&table)
        .into_iter()
        .map(|f| match f.value {
            FillValue::Text(t) => (f.pattern, t),
            FillValue::List(_) => (f.pattern, String::new()),
        })
        .collect();
    assert_eq!(fill_in(&"Hello \\(name) and \\(other)".to_string(), &fills), "Hello Ahola and \\(other)");
}

#[test]
fn data_is_ok_checks_every_number() {
    assert!(data_is_ok(&i4m("-12")));
    assert!(data_is_ok(&i4m("1_000")));
    assert!(!data_is_ok(&i4m("abc")));
    assert!(!data_is_ok(&i4m("")));
    assert!(!data_is_ok(&i4m("_1")));
    assert!(!data_is_ok(&AholaData::U4M("-1".to_string())));
    assert!(data_is_ok(&AholaData::Int5M("-0".to_string())));
    assert!(data_is_ok(&text("anything")));
    assert!(data_is_ok(&AholaData::Nil));
    assert!(data_is_ok(&AholaData::Card(vec![i4m("1"), text("x")])));
    assert!(!data_is_ok(&AholaData::Card(vec![i4m("1"), AholaData::Card(vec![i4m("x")])])));
}

#[test]
fn op_is_ok_checks_the_range_bounds() {
    let request = |start: &str, end: &str| OpCode::DbRangeRequest {
        target_slot: None,
        db_var_slot: 0,
        start: start.to_string(),
        end: end.to_string(),
    };
    assert!(op_is_ok(&request("1", "2")));
    assert!(!op_is_ok(&request("", "2")));
    assert!(!op_is_ok(&request("1", "-2")));
    assert!(op_is_ok(&OpCode::Stamp("x".to_string())));
    assert!(!op_is_ok(&OpCode::Store(0, i4m("1.5"))));
    assert!(op_is_ok(&OpCode::PlusEqual(0, i4m("15"))));
}

#[test]
fn copy_data_copies_lists() {
    let d = AholaData::Card(vec![i4m("1"), AholaData::Card(vec![text("a")]), AholaData::Nil]);
    assert_eq!(copy_data(&d), d);
    assert_eq!(d.clone(), d);
    let op = OpCode::PlusEqual(3, d);
    assert_eq!(op.clone(), op);
}

#[test]
fn a_compiled_program_fits_its_machine() {
    let src = "users = .db\nlet x *c = 1\nx += 2\npage = users.request[1-3]\ndump x\nstamp \"\\(x)\"\n.ban users";
    let tokens = lex(src, no_calls).unwrap();
    let mut table = SymbolTable::new();
    let mut code = Vec::new();
    compile_tokens(&tokens, &mut table, &mut code).unwrap();
    let code = optimize_bytecode(code);
    let mut vm = VirtualMachine::new(table.next_slot);
    let mut effects = Vec::new();
    let mut pc = 0;
    while pc < code.len() {
        assert!(op_is_ok(&code[pc]));
        match vm.step(&code[pc], pc) {
            Step::Next { pc: next, effect } => {
                effects.push(effect);
                pc = next;
            }
            Step::Fault(f) => panic!("fault {:?}", f),
        }
    }
    assert_eq!(vm.memory[1], Some(i4m("3")));
    assert_eq!(vm.memory[0], None);
    assert_eq!(
        effects,
        vec![
            Effect::Quiet,
            Effect::Quiet,
            Effect::Quiet,
            Effect::DbRange {
                target_slot: Some(2),
                db_name: "users".to_string(),
                start: "1".to_string(),
                end: "3".to_string(),
            },
            Effect::Dump(1),
            Effect::Stamp("\\(x)".to_string()),
            Effect::Banned("users".to_string()),
        ]
    );
}

#[test]
fn range_next_walks_the_keys() {
    let end = "257".to_string();
    let (key, next) = range_next(&"255".to_string(), &end).unwrap();
    assert_eq!(key, vec![255u8]);
    assert_eq!(next, "256");
    let (key, next) = range_next(&next, &end).unwrap();
    assert_eq!(key, vec![1u8, 0]);
    assert_eq!(next, "257");
    assert_eq!(range_next(&"0".to_string(), &"0".to_string()).unwrap(), (vec![0u8], "1".to_string()));
    assert_eq!(range_next(&"+0_1".to_string(), &"1".to_string()).unwrap(), (vec![1u8], "2".to_string()));
    assert!(range_next(&"258".to_string(), &end).is_none());
    assert!(range_next(&"1".to_string(), &"0".to_string()).is_none());
}

#[test]
fn unoptimized_compiled_code_fits_its_machine() {
    let src = "let x = 1\nlet y *c = [1]\ny += 2\n.ban x\nz = .db\nz.request[1-2]";
    let tokens = lex(src, no_calls).unwrap();
    let mut table = SymbolTable::new();
    let mut code = Vec::new();
    compile_tokens(&tokens, &mut table, &mut code).unwrap();
    let mut vm = VirtualMachine::new(table.next_slot);
    for (pc, op) in code.iter().enumerate() {
        match vm.step(op, pc) {
            Step::Next { .. } => {}
            Step::Fault(f) => panic!("fault {:?}", f),
        }
    }
    // A number added to a variable of type `card` is read as an `int5M`.
    assert_eq!(vm.memory[1], Some(AholaData::Card(vec![i4m("1"), AholaData::Int5M("2".to_string())])));
}

#[test]
fn jump_if_false_runs_like_jump() {
    let program = |conditional: bool| {
        let jump = |t: usize| if conditional { OpCode::JumpIfFalse(t) } else { OpCode::Jump(t) };
        vec![OpCode::Store(0, i4m("1")), jump(3), OpCode::Store(0, i4m("2")), OpCode::Dump(0), jump(6)]
    };
    let run = |code: Vec<OpCode>| {
        let mut vm = VirtualMachine::new(1);
        let mut steps = Vec::new();
        let mut pc = 0;
        while pc < code.len() {
            let step = vm.step(&code[pc], pc);
            steps.push(step.clone());
            match step {
                Step::Next { pc: next, .. } => pc = next,
                Step::Fault(_) => break,
            }
        }
        (steps, vm.memory)
    };
    let (s1, m1) = run(program(true));
    let (s2, m2) = run(program(false));
    assert_eq!(s1, s2);
    assert_eq!(m1, m2);
    assert_eq!(m1[0], Some(i4m("1")));
}
