use rumba_core::expr::{Expr, VarId};
use rumba_core::program::{parse_program, Insn, InsnKind, Program};

#[test]
fn test_parse_program() {
    let input = r#"
# Define our variables
u8 v0 = unknown()
u8 v1 = unknown()

# A classic MBA
u8 v2 = v0 ^ v1
u8 v3 = v0 & v1
u8 v4 = v2 + 2 * v3

# This line is our output
u8 v5 = unknown(v4)
"#;

    let program = parse_program(input).expect("Failed to parse");

    assert_eq!(program.len(), 6);
    assert_eq!(
        *program.get_index(0).unwrap(),
        Insn {
            ty: 8,
            id: VarId(0),
            kind: InsnKind::Unknown(vec![])
        }
    );
    assert_eq!(
        *program.get_index(1).unwrap(),
        Insn {
            ty: 8,
            id: VarId(1),
            kind: InsnKind::Unknown(vec![])
        }
    );
    assert_eq!(
        *program.get_index(2).unwrap(),
        Insn {
            ty: 8,
            id: VarId(2),
            kind: InsnKind::Assign(Expr::Xor(vec![Expr::Var(VarId(0)), Expr::Var(VarId(1))]))
        }
    );
    assert_eq!(
        *program.get_index(3).unwrap(),
        Insn {
            ty: 8,
            id: VarId(3),
            kind: InsnKind::Assign(Expr::And(vec![Expr::Var(VarId(0)), Expr::Var(VarId(1))]))
        }
    );
    assert_eq!(
        *program.get_index(4).unwrap(),
        Insn {
            ty: 8,
            id: VarId(4),
            kind: InsnKind::Assign(Expr::Add(vec![
                Expr::Var(VarId(2)),
                Expr::Scale(2, Box::new(Expr::Var(VarId(3)))),
            ]))
        }
    );
    assert_eq!(
        *program.get_index(5).unwrap(),
        Insn {
            ty: 8,
            id: VarId(5),
            kind: InsnKind::Unknown(vec![VarId(4)])
        }
    );
}

#[test]
fn statements_must_use_defined_variables_once() {
    assert!(parse_program("u8 v0 = v1 + 1").is_err());
    assert!(parse_program("u8 v0 = unknown()\nu8 v0 = unknown()").is_err());
    assert!(parse_program("u8 v0 = unknown(v0)").is_err());
    assert!(parse_program("u8 v0 = v0").is_err());
    assert!(parse_program("u300 v0 = unknown()").is_err());
    assert!(parse_program("u8 v0 = unknown(").is_err());
    assert!(parse_program("v0 = 1").is_err());
    let p = parse_program("u16 v3 = 5 # a constant\n\n  u16 v4 = unknown( v3 , v3 )").unwrap();
    assert_eq!(p.len(), 2);
    assert_eq!(
        *p.get_index(1).unwrap(),
        Insn { ty: 16, id: VarId(4), kind: InsnKind::Unknown(vec![VarId(3), VarId(3)]) }
    );
}

#[test]
fn pushing_checks_definitions_and_append_stops_at_the_first_refusal() {
    let mut p = Program::new();
    assert!(p
        .push(Insn { ty: 8, id: VarId(0), kind: InsnKind::Unknown(vec![]) })
        .is_ok());
    assert!(p
        .push(Insn { ty: 8, id: VarId(1), kind: InsnKind::Assign(Expr::Var(VarId(2))) })
        .is_err());
    assert_eq!(p.len(), 1);
    let r = p.append(vec![
        Insn { ty: 8, id: VarId(1), kind: InsnKind::Assign(Expr::Var(VarId(0))) },
        Insn { ty: 8, id: VarId(1), kind: InsnKind::Unknown(vec![]) },
        Insn { ty: 8, id: VarId(2), kind: InsnKind::Unknown(vec![]) },
    ]);
    assert!(r.is_err());
    assert_eq!(p.len(), 2);
    assert!(p.get_index(2).is_none());
}
