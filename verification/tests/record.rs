//! Record bodies.

use blop_db::bind::Transaction;
use blop_db::compiler::ast::{Block, Expr, ExprKind, Literal, Stmt, Suffix};
use blop_db::compiler::compile::program::{compile, CaptureValue};
use blop_db::compiler::syntax::{Capture, Program, Table};
use blop_db::compiler::types;
use blop_db::database::record::{decode, encode, validate, Command};
use blop_db::storage::LimitPolicy;
use blop_db::vm::{CatalogueOperation, Error, Type};

fn policy() -> LimitPolicy {
    LimitPolicy::new([
        1_048_576, 1024, 1024, 64, 1_048_576, 64, 64, 1024, 1024, 1024, 1_048_576, 8_388_608, 1024,
        8_388_608, 1024, 8_388_608, 1_048_576,
    ])
    .unwrap()
}

fn transaction(transaction: Transaction) -> Command {
    Command::Transaction {
        transaction,
        claims: policy(),
    }
}

fn expression(kind: ExprKind) -> Expr {
    Expr { span: 0, kind }
}

fn name(name: &str) -> Expr {
    expression(ExprKind::Name(name.to_string()))
}

fn table(name: &str) -> Table {
    Table {
        span: 0,
        name: name.to_string(),
        key: types::Type::U64,
        value: types::Type::I64,
        id: 0,
    }
}

fn returning(value: Expr) -> Block {
    Block {
        span: 0,
        stmts: vec![Stmt::Expr(expression(ExprKind::Return(Some(Box::new(
            value,
        )))))],
    }
}

/// `return 42;` with some tables.
fn answer(tables: Vec<Table>, ids: &[u64]) -> Transaction {
    let program = Program {
        captures: vec![],
        tables,
        result: None,
        body: vec![],
    };
    let body = returning(expression(ExprKind::Literal(Literal::Int(
        Some(42),
        Suffix::Absent,
    ))));
    compile(&program, &body)
        .unwrap()
        .bind(&vec![], ids)
        .unwrap()
}

/// `captures { key: u64 = 7 } tables { unused: u64 => i64 = 9, data: u64 => i64
/// = 3 } return data[key];`
fn lookup() -> Transaction {
    let program = Program {
        captures: vec![Capture {
            span: 0,
            name: "key".to_string(),
            ty: types::Type::U64,
            value: 0,
        }],
        tables: vec![table("unused"), table("data")],
        result: None,
        body: vec![],
    };
    let body = returning(expression(ExprKind::Index(
        Box::new(name("data")),
        Box::new(name("key")),
    )));
    compile(&program, &body)
        .unwrap()
        .bind(&vec![CaptureValue::U64(7)], &[9, 3])
        .unwrap()
}

fn commands() -> [Command; 5] {
    [
        transaction(lookup()),
        Command::Catalogue(CatalogueOperation::Create {
            name: "data".into(),
            key: Type::U64,
            value: Type::Tuple(vec![Type::I64, Type::String(16)]),
        }),
        Command::Catalogue(CatalogueOperation::Rename {
            table: 3,
            name: "renamed".into(),
        }),
        Command::Catalogue(CatalogueOperation::Drop { table: 3 }),
        Command::Limits(policy()),
    ]
}

#[test]
fn every_command_round_trips_without_changing_its_bytes() {
    for command in commands() {
        let (kind, body) = encode(&command).unwrap();
        let decoded = decode(kind, &body).unwrap();
        assert_eq!(encode(&decoded).unwrap(), (kind, body));
        match (command, decoded) {
            (
                Command::Transaction {
                    transaction: a,
                    claims: ac,
                },
                Command::Transaction {
                    transaction: b,
                    claims: bc,
                },
            ) => {
                assert_eq!(a, b);
                assert_eq!(ac, bc);
            }
            (Command::Catalogue(a), Command::Catalogue(b)) => assert_eq!(a, b),
            (Command::Limits(a), Command::Limits(b)) => assert_eq!(a, b),
            _ => panic!("record kind changed"),
        }
    }
}

#[test]
fn transaction_body_has_exact_broad_manifest_and_unprefixed_budget() {
    let [command, ..] = commands();
    let Command::Transaction {
        transaction: input,
        claims,
    } = &command
    else {
        unreachable!()
    };
    let (kind, body) = encode(&command).unwrap();
    assert_eq!(kind, 1);
    let mut expected = vec![1, 0, 0, 0];
    for bytes in [input.program_bytes(), input.argument_bytes()] {
        expected.extend_from_slice(&(bytes.len() as u32).to_le_bytes());
        expected.extend_from_slice(bytes);
    }
    expected.extend_from_slice(&[
        36, 0, 0, 0, 2, 0, 0, 0, 3, 0, 0, 0, 0, 0, 0, 0, 0, 3, 0, 0, 0, 0, 0, 0, 9, 0, 0, 0, 0, 0,
        0, 0, 0, 3, 0, 0, 0, 0, 0, 0,
    ]);
    let budget_offset = expected.len();
    for value in claims.values() {
        expected.extend_from_slice(&value.to_le_bytes());
    }
    assert_eq!(body, expected);
    assert_eq!(body.len() - budget_offset, 17 * 8);
    let command = transaction(answer(vec![], &[]));
    let (_, body) = encode(&command).unwrap();
    assert_eq!(
        &body[body.len() - 17 * 8 - 8..body.len() - 17 * 8],
        &[4, 0, 0, 0, 0, 0, 0, 0]
    );
}

#[test]
fn catalogue_and_policy_bodies_use_canonical_operands() {
    assert_eq!(
        encode(&Command::Catalogue(CatalogueOperation::Create {
            name: "a".into(),
            key: Type::Unit,
            value: Type::Boolean,
        }))
        .unwrap(),
        (
            2,
            vec![
                1, 0, 1, 0, 1, 0, 0, 0, b'a', 3, 0, 0, 0, 1, 0, 0, 3, 0, 0, 0, 1, 0, 1,
            ]
        )
    );
    assert_eq!(
        encode(&Command::Catalogue(CatalogueOperation::Rename {
            table: 9,
            name: "a".into(),
        }))
        .unwrap(),
        (
            2,
            vec![1, 0, 2, 0, 9, 0, 0, 0, 0, 0, 0, 0, 1, 0, 0, 0, b'a']
        )
    );
    assert_eq!(
        encode(&Command::Catalogue(CatalogueOperation::Drop { table: 9 })).unwrap(),
        (2, vec![1, 0, 3, 0, 9, 0, 0, 0, 0, 0, 0, 0])
    );
    let zero = LimitPolicy::new([0; 17]).unwrap();
    let mut expected = vec![0; 140];
    expected[0] = 1;
    assert_eq!(encode(&Command::Limits(zero)).unwrap(), (3, expected));
}

#[test]
fn bodies_reject_all_truncations_trailing_bytes_versions_and_reserved_fields() {
    for command in commands() {
        let (kind, original) = encode(&command).unwrap();
        for length in 0..original.len() {
            assert!(
                decode(kind, &original[..length]).is_err(),
                "kind {kind}, length {length}"
            );
        }
        let mut bytes = original.clone();
        bytes.push(0);
        assert!(matches!(decode(kind, &bytes), Err(Error::Invalid(_))));
        for offset in if kind == 2 { 3..4 } else { 2..4 } {
            let mut bytes = original.clone();
            bytes[offset] = 1;
            assert!(matches!(decode(kind, &bytes), Err(Error::Invalid(_))));
        }
        let mut bytes = original;
        bytes[0] = 2;
        assert!(matches!(
            decode(kind, &bytes),
            Err(Error::Unsupported { version: 2, .. })
        ));
    }
    for kind in [0, 4, 255] {
        assert!(matches!(
            decode(kind, &[1, 0, 0, 0]),
            Err(Error::Invalid(_))
        ));
    }
    assert!(matches!(decode(2, &[1, 0, 4, 0]), Err(Error::Invalid(_))));
}

#[test]
fn decoding_rejects_nonmatching_manifests_lengths_and_claim_ceilings() {
    let [command, ..] = commands();
    let Command::Transaction { transaction, .. } = &command else {
        unreachable!()
    };
    let (_, original) = encode(&command).unwrap();
    let arguments_length = 8 + transaction.program_bytes().len();
    let manifest_length = arguments_length + 4 + transaction.argument_bytes().len();
    let manifest = manifest_length + 4;
    for offset in [4, arguments_length, manifest_length] {
        let mut bytes = original.clone();
        bytes[offset..offset + 4].copy_from_slice(&u32::MAX.to_le_bytes());
        assert!(matches!(decode(1, &bytes), Err(Error::Invalid(_))));
    }
    for (offset, value) in [
        (0, 0),
        (0, 3),
        (4, 4),
        (12, 1),
        (13, 1),
        (13, 2),
        (14, 1),
        (15, 1),
        (16, 1),
        (20, 3),
    ] {
        let mut bytes = original.clone();
        bytes[manifest + offset] = value;
        assert!(
            matches!(decode(1, &bytes), Err(Error::Invalid(_))),
            "offset {offset}"
        );
    }
    let mut bytes = original.clone();
    bytes[manifest + 4..manifest + 20].copy_from_slice(&original[manifest + 20..manifest + 36]);
    bytes[manifest + 20..manifest + 36].copy_from_slice(&original[manifest + 4..manifest + 20]);
    assert!(matches!(decode(1, &bytes), Err(Error::Invalid(_))));

    // Even a canonical point scope is outside this selected API profile.
    let mut bytes = original.clone();
    bytes[manifest_length..manifest].copy_from_slice(&44_u32.to_le_bytes());
    bytes[manifest + 12] = 1;
    bytes[manifest + 16..manifest + 20].copy_from_slice(&8_u32.to_le_bytes());
    bytes.splice(manifest + 20..manifest + 20, 7_u64.to_be_bytes());
    assert!(matches!(decode(1, &bytes), Err(Error::Invalid(_))));

    for command in [command, Command::Limits(policy())] {
        let (kind, original) = encode(&command).unwrap();
        let budget = original.len() - 17 * 8;
        for index in 0..17 {
            let mut bytes = original.clone();
            bytes[budget + index * 8..budget + (index + 1) * 8]
                .copy_from_slice(&u64::MAX.to_le_bytes());
            assert!(matches!(decode(kind, &bytes), Err(Error::Invalid(_))));
        }
    }
}

#[test]
fn catalogue_encoding_validates_public_types_before_their_panicking_encoder() {
    for key in [
        Type::Tuple(vec![Type::Unit; 65_536]),
        Type::Bytes(u32::MAX),
        Type::Rows {
            max_rows: 0,
            key: Box::new(Type::Unit),
            value: Box::new(Type::Unit),
        },
    ] {
        let command = Command::Catalogue(CatalogueOperation::Create {
            name: "valid".into(),
            key,
            value: Type::Unit,
        });
        assert!(matches!(encode(&command), Err(Error::Invalid(_))));
    }
    let (_, create) = encode(&Command::Catalogue(CatalogueOperation::Create {
        name: "a".into(),
        key: Type::Unit,
        value: Type::Boolean,
    }))
    .unwrap();
    for (offset, value) in [(4, 0), (8, 0), (8, 255), (15, 255)] {
        let mut bytes = create.clone();
        bytes[offset] = value;
        assert!(decode(2, &bytes).is_err());
    }
    for id in [0_u64, u64::MAX] {
        let mut bytes = vec![1, 0, 3, 0];
        bytes.extend_from_slice(&id.to_le_bytes());
        assert!(matches!(decode(2, &bytes), Err(Error::Invalid(_))));
    }
}

#[test]
fn scope_claims_are_checked_before_encoding_validation_and_execution() {
    let mut values = *policy().values();
    values[6] = 0;
    let command = Command::Transaction {
        transaction: answer(vec![table("data")], &[1]),
        claims: LimitPolicy::new(values).unwrap(),
    };
    assert!(matches!(
        encode(&command),
        Err(Error::Invalid("manifest_scopes exceeds claim"))
    ));
    assert!(matches!(
        validate(1, &command, Ok(())),
        Err(Error::Invalid("manifest_scopes exceeds claim"))
    ));
    let (_, mut bytes) = encode(&commands()[0]).unwrap();
    let scope_claim = bytes.len() - 17 * 8 + 6 * 8;
    bytes[scope_claim..scope_claim + 8].fill(0);
    assert!(matches!(
        decode(1, &bytes),
        Err(Error::Invalid("manifest_scopes exceeds claim"))
    ));
}

#[test]
fn admission_rejects_reserved_sequences_and_reports_the_machine() {
    let zero = Command::Limits(LimitPolicy::new([0; 17]).unwrap());
    assert_eq!(validate(3, &zero, Ok(())), Ok(()));
    for sequence in [0, u64::MAX] {
        assert!(matches!(
            validate(sequence, &zero, Ok(())),
            Err(Error::Invalid(_))
        ));
    }
    let refusal = Error::Invalid("transaction claims exceed historical policy");
    assert_eq!(
        validate(3, &transaction(lookup()), Err(refusal.clone())),
        Err(refusal)
    );
}
