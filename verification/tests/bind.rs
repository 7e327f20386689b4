//! Binding of compiled programs to their tables and arguments.

use blop_db::bind::{bind_program, push_blob, BuildError, Transaction, MAX_ARGUMENT_BYTES};

const WIDE: [u8; 42] = [0xa5; 42];

const NARROW: [u8; 16] = [0xa5; 16];

#[test]
fn blobs_use_exact_little_endian_lengths_and_preserve_the_prefix() {
    let mut arguments = 2_u32.to_le_bytes().to_vec();
    push_blob(&mut arguments, &[0, 0xff, 0x80], 3).unwrap();
    push_blob(&mut arguments, &[], 0).unwrap();
    assert_eq!(
        arguments,
        [2, 0, 0, 0, 3, 0, 0, 0, 0, 0xff, 0x80, 0, 0, 0, 0]
    );

    let mut blob = Vec::new();
    push_blob(&mut blob, &[0x7f; 256], 256).unwrap();
    assert_eq!(&blob[..4], &[0, 1, 0, 0]);
    assert_eq!(&blob[4..], &[0x7f; 256]);
}

#[test]
fn blob_bound_errors_leave_output_unchanged() {
    let mut output = vec![1, 2, 3];
    assert_eq!(
        push_blob(&mut output, b"abcd", 3),
        Err(BuildError::BoundExceeded {
            max_bytes: 3,
            actual_bytes: 4,
        })
    );
    assert_eq!(output, [1, 2, 3]);
    assert_eq!(
        push_blob(&mut output, b"a", 0),
        Err(BuildError::BoundExceeded {
            max_bytes: 0,
            actual_bytes: 1,
        })
    );
    assert_eq!(output, [1, 2, 3]);
}

#[test]
fn blob_total_limit_includes_prefix_and_is_checked_before_mutation() {
    let mut output = vec![0x55; MAX_ARGUMENT_BYTES - 5];
    push_blob(&mut output, b"x", 1).unwrap();
    assert_eq!(output.len(), MAX_ARGUMENT_BYTES);
    assert_eq!(&output[MAX_ARGUMENT_BYTES - 5..], &[1, 0, 0, 0, b'x']);
    let original = output.clone();
    assert_eq!(
        push_blob(&mut output, &[], 0),
        Err(BuildError::ArgumentsTooLarge)
    );
    assert_eq!(output, original);

    output.truncate(MAX_ARGUMENT_BYTES - 4);
    let original = output.clone();
    assert_eq!(
        push_blob(&mut output, b"x", 1),
        Err(BuildError::ArgumentsTooLarge)
    );
    assert_eq!(output, original);
    push_blob(&mut output, &[], 0).unwrap();
    assert_eq!(output.len(), MAX_ARGUMENT_BYTES);
}

#[test]
fn binding_sorts_ids_and_remaps_each_declaration_without_changing_other_bytes() {
    let patches = [(30, 0), (34, 1), (36, 2), (40, 0)];
    let arguments = vec![1, 0, 0, 0, 1, 0, 0, 0, 0x7f];
    let transaction =
        bind_program(&WIDE, 4, &patches, &[90, 10, 50], arguments.clone()).unwrap();

    let mut expected = WIDE.to_vec();
    expected[4..12].copy_from_slice(&10_u64.to_le_bytes());
    expected[12..20].copy_from_slice(&50_u64.to_le_bytes());
    expected[20..28].copy_from_slice(&90_u64.to_le_bytes());
    expected[30..32].copy_from_slice(&2_u16.to_le_bytes());
    expected[34..36].copy_from_slice(&0_u16.to_le_bytes());
    expected[36..38].copy_from_slice(&1_u16.to_le_bytes());
    expected[40..42].copy_from_slice(&2_u16.to_le_bytes());
    assert_eq!(transaction.program_bytes(), expected);
    assert_eq!(transaction.argument_bytes(), arguments);
    assert_eq!(transaction.clone(), transaction);
    assert_eq!(transaction.into_parts(), (expected, arguments));
    assert_eq!(WIDE, [0xa5; 42]);

    let rebound = bind_program(&WIDE, 4, &patches, &[10, 50, 90], vec![]).unwrap();
    assert_eq!(&rebound.program_bytes()[30..32], &[0, 0]);
    assert_eq!(&rebound.program_bytes()[34..36], &[1, 0]);
    assert_eq!(&rebound.program_bytes()[36..38], &[2, 0]);
    assert_eq!(WIDE, [0xa5; 42]);
}

#[test]
fn binding_rejects_reserved_and_duplicate_ids() {
    for id in [0, u64::MAX] {
        assert_eq!(
            bind_program(&[0; 8], 0, &[], &[id], vec![]),
            Err(BuildError::InvalidTableId(id))
        );
    }
    assert_eq!(
        bind_program(&[0; 24], 0, &[], &[9, 1, 9], vec![]),
        Err(BuildError::DuplicateTableId(9))
    );
    let transaction = bind_program(&[0; 16], 0, &[], &[u64::MAX - 1, 1], vec![]).unwrap();
    assert_eq!(&transaction.program_bytes()[..8], &1_u64.to_le_bytes());
    assert_eq!(
        &transaction.program_bytes()[8..],
        &(u64::MAX - 1).to_le_bytes()
    );
}

#[test]
fn binding_checks_argument_limit_and_supports_no_tables() {
    let arguments = vec![0; MAX_ARGUMENT_BYTES];
    let transaction = bind_program(b"unchanged", 9, &[], &[], arguments.clone()).unwrap();
    assert_eq!(transaction.into_parts(), (b"unchanged".to_vec(), arguments));
    assert_eq!(
        bind_program(b"unchanged", 9, &[], &[], vec![0; MAX_ARGUMENT_BYTES + 1]),
        Err(BuildError::ArgumentsTooLarge)
    );
}

#[test]
fn binding_rejects_invalid_table_ranges_without_panicking() {
    for offset in [9, usize::MAX] {
        assert_eq!(
            bind_program(&[0; 16], offset, &[], &[1], vec![]),
            Err(BuildError::InvalidTemplate)
        );
    }
    assert_eq!(
        bind_program(&[], 1, &[], &[], vec![]),
        Err(BuildError::InvalidTemplate)
    );
    assert_eq!(
        bind_program(&[], 0, &[], &vec![1; usize::from(u16::MAX) + 1], vec![]),
        Err(BuildError::InvalidTemplate)
    );
}

#[test]
fn binding_rejects_invalid_patches_without_changing_the_static_template() {
    for patch in [(15, 0), (16, 0), (usize::MAX, 0), (8, 1), (7, 0), (0, 0)] {
        assert_eq!(
            bind_program(&NARROW, 0, &[(8, 0), patch], &[1], vec![]),
            Err(BuildError::InvalidTemplate)
        );
        assert_eq!(NARROW, [0xa5; 16]);
    }
    assert_eq!(
        bind_program(&NARROW, 0, &[(0, 0)], &[], vec![]),
        Err(BuildError::InvalidTemplate)
    );
}

#[test]
fn binding_errors_are_described() {
    let texts = [
        (
            BuildError::BoundExceeded {
                max_bytes: 3,
                actual_bytes: 40,
            },
            "value is 40 bytes, exceeding the bound of 3 bytes",
        ),
        (
            BuildError::ArgumentsTooLarge,
            "encoded arguments exceed the 16 MiB limit",
        ),
        (
            BuildError::InvalidTableId(0),
            "invalid table ID 0: the ID is reserved",
        ),
        (
            BuildError::DuplicateTableId(907),
            "table ID 907 is bound to separate table declarations",
        ),
        (
            BuildError::InvalidTemplate,
            "compiler-generated program template or table patches are invalid",
        ),
    ];
    for (error, text) in texts {
        assert_eq!(error.message(), text);
    }
}

#[test]
fn transactions_keep_their_parts() {
    let transaction = Transaction::from_parts(vec![1, 2], vec![3]);
    assert_eq!(transaction.program_bytes(), [1, 2]);
    assert_eq!(transaction.argument_bytes(), [3]);
    assert_eq!(transaction.duplicate(), transaction);
    assert_eq!(transaction.into_parts(), (vec![1, 2], vec![3]));
}

#[test]
fn the_order_of_declarations_does_not_matter() {
    let first = bind_program(&WIDE, 4, &[(30, 0), (34, 1), (36, 2)], &[90, 10, 50], vec![1]);
    let other = bind_program(&WIDE, 4, &[(30, 2), (34, 0), (36, 1)], &[10, 50, 90], vec![1]);
    assert_eq!(first, other);
    assert!(first.is_ok());
}
