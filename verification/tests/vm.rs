//! Types, catalogue operations, outcomes, scopes and text.

use blop_db::storage;
use blop_db::storage::LimitPolicy;
use blop_db::text::{from_hex, to_decimal, to_hex};
use blop_db::vm::{
    decode_outcome, encode_outcome, overlap, transaction_tables, validate_catalogue,
    AccessManifest, AccessMode, CatalogueOperation, Error, Outcome, OutcomeRecord, Scope, Type,
};

#[test]
fn descriptors_are_read_back() {
    let types = [
        Type::Unit,
        Type::Boolean,
        Type::I64,
        Type::U64,
        Type::Bytes(0x0102),
        Type::String(9),
        Type::Tuple(vec![Type::U64, Type::Tuple(vec![Type::Unit, Type::Boolean])]),
        Type::Rows {
            max_rows: 7,
            key: Box::new(Type::U64),
            value: Box::new(Type::Bytes(3)),
        },
    ];
    for ty in types {
        let bytes = ty.descriptor();
        assert_eq!(Type::decode(&bytes).as_ref(), Ok(&ty));
        for length in 0..bytes.len() {
            assert!(Type::decode(&bytes[..length]).is_err());
        }
        let longer = [bytes.as_slice(), &[0]].concat();
        assert!(Type::decode(&longer).is_err());
    }
    assert_eq!(Type::U64.descriptor(), vec![1, 0, 3]);
}

#[test]
fn catalogue_operations_are_validated() {
    let create = |name: &str, key, value| {
        validate_catalogue(&CatalogueOperation::Create {
            name: name.to_string(),
            key,
            value,
        })
    };
    assert_eq!(create("data", Type::U64, Type::String(4)), Ok(()));
    for name in ["", "a\0", &"x".repeat(256)] {
        assert_eq!(
            create(name, Type::U64, Type::U64),
            Err(Error::Invalid("invalid table name"))
        );
    }
    assert_eq!(
        create("data", Type::Bytes(100_000), Type::U64),
        Err(Error::Invalid("invalid table key type"))
    );
    let rows = Type::Rows {
        max_rows: 1,
        key: Box::new(Type::U64),
        value: Box::new(Type::U64),
    };
    assert_eq!(
        create("data", Type::U64, rows),
        Err(Error::Invalid("invalid table value type"))
    );
    for table in [0, u64::MAX] {
        assert_eq!(
            validate_catalogue(&CatalogueOperation::Drop { table }),
            Err(Error::Invalid("reserved table ID"))
        );
        let rename = CatalogueOperation::Rename {
            table,
            name: "data".to_string(),
        };
        assert_eq!(
            validate_catalogue(&rename),
            Err(Error::Invalid("reserved table ID"))
        );
    }
}

#[test]
fn outcomes_are_stored_and_read_back() {
    for aborted in [false, true] {
        let outcome = Outcome {
            aborted,
            payload: (0..40).collect(),
        };
        let stored = encode_outcome(7, [5; 32], 1, &outcome).unwrap();
        assert_eq!(stored.len(), 84);
        assert_eq!(
            decode_outcome(&stored),
            Ok(OutcomeRecord {
                sequence: 7,
                record_digest: [5; 32],
                record_kind: 1,
                outcome: outcome.clone(),
            })
        );
        for (sequence, kind) in [(0, 1), (u64::MAX, 1), (7, 0), (7, 4)] {
            assert_eq!(
                encode_outcome(sequence, [5; 32], kind, &outcome),
                Err(Error::Invalid("invalid outcome fields"))
            );
        }
    }
    assert_eq!(
        decode_outcome(&[0; 75]),
        Err(Error::Invalid("truncated outcome"))
    );
}

#[test]
fn scopes_are_told_apart_by_mode() {
    let manifest = AccessManifest {
        entries: vec![
            (Scope::Table(1), AccessMode::Read),
            (Scope::Table(2), AccessMode::Write),
            (Scope::Key(3, vec![4]), AccessMode::ReadWrite),
        ],
    };
    assert_eq!(
        manifest.reads(),
        vec![Scope::Table(1), Scope::Key(3, vec![4])]
    );
    assert_eq!(
        manifest.writes(),
        vec![Scope::Table(2), Scope::Key(3, vec![4])]
    );
    assert!(overlap(&Scope::Table(3), &Scope::Key(3, vec![4])));
    assert!(!overlap(&Scope::Table(2), &Scope::Key(3, vec![4])));
}

#[test]
fn programs_name_their_tables() {
    let mut program = b"BLOPVM01".to_vec();
    program.extend_from_slice(&[1, 0, 0, 0, 55, 0, 0, 0, 0, 0, 0, 0, 2, 0, 0, 0]);
    program.extend_from_slice(&[0; 8]);
    program.extend_from_slice(&[3, 0, 0, 0, 1, 0, 3]);
    program.extend_from_slice(&3u64.to_le_bytes());
    program.extend_from_slice(&9u64.to_le_bytes());
    assert_eq!(transaction_tables(&program), Ok(vec![3, 9]));
    assert_eq!(
        transaction_tables(&program[..20]),
        Err(Error::Invalid("truncated program"))
    );
    let changed = |index: usize, byte: u8| {
        let mut other = program.clone();
        other[index] = byte;
        transaction_tables(&other)
    };
    assert_eq!(changed(0, 0), Err(Error::Invalid("invalid program header")));
    assert_eq!(
        changed(8, 2),
        Err(Error::Unsupported {
            format: "program",
            version: 2
        })
    );
    assert_eq!(
        changed(39, 9),
        Err(Error::Invalid("invalid program table IDs"))
    );
    assert_eq!(
        changed(39, 0),
        Err(Error::Invalid("invalid program table IDs"))
    );
}

#[test]
fn policies_are_stored_and_read_back() {
    let mut values = [0; 17];
    for (index, value) in values.iter_mut().enumerate() {
        *value = index as u64;
    }
    let policy = LimitPolicy::new(values).unwrap();
    let bytes = policy.encode();
    assert_eq!(LimitPolicy::decode(&bytes), Ok(policy));
    assert_eq!(
        LimitPolicy::decode(&bytes[1..]),
        Err(storage::Error::InvalidInput("invalid limit policy length"))
    );
    values[0] = u64::MAX;
    assert_eq!(
        LimitPolicy::new(values),
        Err(storage::Error::InvalidInput(
            "resource limit exceeds format ceiling"
        ))
    );
}

#[test]
fn numbers_and_bytes_have_a_text() {
    for number in [0, 7, 10, 1_000, u64::MAX] {
        assert_eq!(to_decimal(number), number.to_string());
    }
    assert_eq!(to_hex(&[0, 0x1f, 0xa0]), "001fa0");
    assert_eq!(from_hex(b"001fa0"), Some(vec![0, 0x1f, 0xa0]));
    assert_eq!(from_hex(b"001FA0"), None);
    assert_eq!(from_hex(b"0g"), None);
}
