use ahola::{optimize_bytecode, AholaData, OpCode};

fn num(t: &str) -> AholaData {
    AholaData::I4M(t.to_string())
}

#[test]
fn stores_to_unread_slots_are_dropped() {
    let code = vec![
        OpCode::Store(0, num("1")),
        OpCode::Store(1, num("2")),
        OpCode::Store(2, num("3")),
        OpCode::Dump(2),
    ];
    assert_eq!(
        optimize_bytecode(code),
        vec![OpCode::Store(0, num("1")), OpCode::Store(2, num("3")), OpCode::Dump(2)]
    );
}

#[test]
fn a_store_read_by_a_later_plus_equal_is_kept() {
    let code = || {
        vec![OpCode::Store(3, num("1")), OpCode::Stamp("hello".to_string()), OpCode::PlusEqual(3, num("2"))]
    };
    assert_eq!(optimize_bytecode(code()), code());
}

#[test]
fn a_read_before_the_store_also_counts() {
    let code = vec![OpCode::Dump(5), OpCode::Store(5, num("1")), OpCode::Store(6, num("1"))];
    assert_eq!(optimize_bytecode(code), vec![OpCode::Dump(5), OpCode::Store(5, num("1"))]);
}

#[test]
fn instructions_other_than_stores_are_kept_in_order() {
    let code = vec![
        OpCode::Stamp("a".to_string()),
        OpCode::Store(4, num("9")),
        OpCode::Ban(4, "db".to_string()),
        OpCode::Jump(0),
        OpCode::DbRangeRequest {
            target_slot: Some(7),
            db_var_slot: 4,
            start: "1".to_string(),
            end: "2".to_string(),
        },
    ];
    assert_eq!(
        optimize_bytecode(code),
        vec![
            OpCode::Stamp("a".to_string()),
            OpCode::Ban(4, "db".to_string()),
            OpCode::Jump(0),
            OpCode::DbRangeRequest {
                target_slot: Some(7),
                db_var_slot: 4,
                start: "1".to_string(),
                end: "2".to_string(),
            },
        ]
    );
}

#[test]
fn empty_program() {
    assert_eq!(optimize_bytecode(Vec::new()), Vec::new());
}

#[test]
fn optimizing_twice_is_optimizing_once() {
    let code = vec![
        OpCode::Store(0, num("1")),
        OpCode::Store(1, num("2")),
        OpCode::Store(2, num("3")),
        OpCode::PlusEqual(2, num("1")),
        OpCode::Dump(1),
        OpCode::Store(9, num("4")),
    ];
    let once = optimize_bytecode(code);
    assert_eq!(once, vec![OpCode::Store(0, num("1")), OpCode::Store(1, num("2")), OpCode::Store(2, num("3")), OpCode::PlusEqual(2, num("1")), OpCode::Dump(1)]);
    let twice = optimize_bytecode(optimize_bytecode(vec![
        OpCode::Store(0, num("1")),
        OpCode::Store(1, num("2")),
        OpCode::Store(2, num("3")),
        OpCode::PlusEqual(2, num("1")),
        OpCode::Dump(1),
        OpCode::Store(9, num("4")),
    ]));
    assert_eq!(once, twice);
}
