//! Named limits and the stored policy.

use blop_db::limits::Limits;
use blop_db::storage::{Error, LimitPolicy};

#[test]
fn fields_follow_resource_id_order_and_round_trip_through_the_policy_codec() {
    let limits = Limits {
        program_bytes: 1,
        instructions: 2,
        registers: 3,
        arguments: 4,
        argument_bytes: 5,
        tables: 6,
        manifest_scopes: 7,
        point_accesses: 8,
        distinct_keys: 9,
        key_bytes: 10,
        value_bytes: 11,
        register_bytes: 12,
        range_rows: 13,
        range_bytes: 14,
        writes: 15,
        overlay_bytes: 16,
        result_bytes: 17,
    };
    let policy = LimitPolicy::try_from(limits).unwrap();
    assert_eq!(
        policy.values(),
        &std::array::from_fn(|index| index as u64 + 1)
    );

    let decoded = LimitPolicy::decode(&policy.encode()).unwrap();
    assert_eq!(decoded, policy);
    assert_eq!(Limits::from(&decoded), limits);
}

#[test]
fn defaults_match_the_format_ceilings() {
    let limits = Limits::default();
    let policy = LimitPolicy::try_from(limits).unwrap();
    assert_eq!(
        policy.values(),
        &[
            16 * 1024 * 1024,
            65_535,
            65_535,
            65_535,
            16 * 1024 * 1024,
            65_535,
            16_384,
            65_535,
            65_535,
            1_024,
            16 * 1024 * 1024,
            64 * 1024 * 1024,
            65_535,
            64 * 1024 * 1024,
            65_535,
            64 * 1024 * 1024,
            16 * 1024 * 1024,
        ]
    );
    assert_eq!(Limits::from(&policy), limits);
}

#[test]
fn every_field_rejects_values_above_its_ceiling() {
    let fields: [fn(&mut Limits) -> &mut u64; 17] = [
        |limits| &mut limits.program_bytes,
        |limits| &mut limits.instructions,
        |limits| &mut limits.registers,
        |limits| &mut limits.arguments,
        |limits| &mut limits.argument_bytes,
        |limits| &mut limits.tables,
        |limits| &mut limits.manifest_scopes,
        |limits| &mut limits.point_accesses,
        |limits| &mut limits.distinct_keys,
        |limits| &mut limits.key_bytes,
        |limits| &mut limits.value_bytes,
        |limits| &mut limits.register_bytes,
        |limits| &mut limits.range_rows,
        |limits| &mut limits.range_bytes,
        |limits| &mut limits.writes,
        |limits| &mut limits.overlay_bytes,
        |limits| &mut limits.result_bytes,
    ];
    for (index, field) in fields.into_iter().enumerate() {
        let mut limits = Limits::default();
        *field(&mut limits) += 1;
        assert!(
            matches!(LimitPolicy::try_from(limits), Err(Error::InvalidInput(_))),
            "resource {} accepted a value above its hard ceiling",
            index + 1
        );
    }
}

#[test]
fn zero_limits_are_preserved_without_applying_defaults() {
    let limits = Limits {
        program_bytes: 0,
        instructions: 0,
        registers: 0,
        arguments: 0,
        argument_bytes: 0,
        tables: 0,
        manifest_scopes: 0,
        point_accesses: 0,
        distinct_keys: 0,
        key_bytes: 0,
        value_bytes: 0,
        register_bytes: 0,
        range_rows: 0,
        range_bytes: 0,
        writes: 0,
        overlay_bytes: 0,
        result_bytes: 0,
    };
    let policy = LimitPolicy::try_from(limits).unwrap();
    assert_eq!(policy.values(), &[0; 17]);
    let decoded = LimitPolicy::decode(&policy.encode()).unwrap();
    assert_eq!(Limits::from(&decoded), limits);
}
