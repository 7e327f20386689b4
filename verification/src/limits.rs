//! Named resource limits for transactions and the database policy.

use crate::storage;
use crate::storage::{Error, LimitPolicy};
use vstd::prelude::*;

verus! {

/// Logical resource bounds used as transaction claims or database policy.
///
/// Fields follow ascending resource numbers. Zero is valid and can disable a
/// category of work. Conversion to [`LimitPolicy`] checks each field against
/// its format ceiling.
///
/// Byte limits measure logical encodings, not physical memory or disk usage.
/// [`Default`] uses finite format ceilings.
#[derive(Clone, Copy, Debug, PartialEq, Eq, Structural)]
pub struct Limits {
    /// Program bytes, with the header and constants.
    pub program_bytes: u64,
    /// Decoded instructions at admission; instruction visits at execution.
    pub instructions: u64,
    /// Declared registers.
    pub registers: u64,
    /// Declared and supplied arguments.
    pub arguments: u64,
    /// Argument bytes, with the count and blob length prefixes.
    pub argument_bytes: u64,
    /// Program tables.
    pub tables: u64,
    /// Normalized manifest entries.
    pub manifest_scopes: u64,
    /// Executed point operations, with repeats.
    pub point_accesses: u64,
    /// Distinct addresses across point accesses and selected range rows.
    pub distinct_keys: u64,
    /// Canonical user-key bytes.
    pub key_bytes: u64,
    /// Encoded bytes of any one value.
    pub value_bytes: u64,
    /// Encoded bytes in initialized registers.
    pub register_bytes: u64,
    /// Selected rows across all scans.
    pub range_rows: u64,
    /// Key and value bytes of selected rows.
    pub range_bytes: u64,
    /// Distinct addresses with a pending write.
    pub writes: u64,
    /// Bytes of pending writes.
    pub overlay_bytes: u64,
    /// Returned value bytes.
    pub result_bytes: u64,
}

impl Limits {
    /// The fields in the order of the resource numbers.
    pub open spec fn view(&self) -> Seq<u64> {
        seq![
            self.program_bytes,
            self.instructions,
            self.registers,
            self.arguments,
            self.argument_bytes,
            self.tables,
            self.manifest_scopes,
            self.point_accesses,
            self.distinct_keys,
            self.key_bytes,
            self.value_bytes,
            self.register_bytes,
            self.range_rows,
            self.range_bytes,
            self.writes,
            self.overlay_bytes,
            self.result_bytes,
        ]
    }

    /// The stored policy with these limits.
    pub fn policy(&self) -> (policy: Result<LimitPolicy, Error>)
        ensures
            match policy {
                Ok(policy) => storage::allowed(self@) && policy@ == self@,
                Err(e) => !storage::allowed(self@) && e == Error::InvalidInput(
                    storage::ABOVE_CEILING,
                ),
            },
    {
        let values: [u64; 17] = [
            self.program_bytes,
            self.instructions,
            self.registers,
            self.arguments,
            self.argument_bytes,
            self.tables,
            self.manifest_scopes,
            self.point_accesses,
            self.distinct_keys,
            self.key_bytes,
            self.value_bytes,
            self.register_bytes,
            self.range_rows,
            self.range_bytes,
            self.writes,
            self.overlay_bytes,
            self.result_bytes,
        ];
        assert(values@ =~= self@);
        LimitPolicy::new(values)
    }

    /// The limits of a stored policy.
    pub fn of(policy: &LimitPolicy) -> (limits: Limits)
        ensures
            limits@ == policy@,
            limits == named(policy@),
    {
        let values = policy.values();
        let limits = Limits {
            program_bytes: values[0],
            instructions: values[1],
            registers: values[2],
            arguments: values[3],
            argument_bytes: values[4],
            tables: values[5],
            manifest_scopes: values[6],
            point_accesses: values[7],
            distinct_keys: values[8],
            key_bytes: values[9],
            value_bytes: values[10],
            register_bytes: values[11],
            range_rows: values[12],
            range_bytes: values[13],
            writes: values[14],
            overlay_bytes: values[15],
            result_bytes: values[16],
        };
        assert(limits@ =~= policy@);
        limits
    }
}

impl Default for Limits {
    fn default() -> (limits: Limits)
        ensures
            limits@ == storage::CEILINGS@,
            storage::allowed(limits@),
    {
        let limits = Limits {
            program_bytes: 16777216,
            instructions: 65535,
            registers: 65535,
            arguments: 65535,
            argument_bytes: 16777216,
            tables: 65535,
            manifest_scopes: 16384,
            point_accesses: 65535,
            distinct_keys: 65535,
            key_bytes: 1024,
            value_bytes: 16777216,
            register_bytes: 67108864,
            range_rows: 65535,
            range_bytes: 67108864,
            writes: 65535,
            overlay_bytes: 67108864,
            result_bytes: 16777216,
        };
        assert(limits@ =~= storage::CEILINGS@);
        limits
    }
}

/// The limits with these values, in the order of the resource numbers.
pub open spec fn named(values: Seq<u64>) -> Limits {
    Limits {
        program_bytes: values[0],
        instructions: values[1],
        registers: values[2],
        arguments: values[3],
        argument_bytes: values[4],
        tables: values[5],
        manifest_scopes: values[6],
        point_accesses: values[7],
        distinct_keys: values[8],
        key_bytes: values[9],
        value_bytes: values[10],
        register_bytes: values[11],
        range_rows: values[12],
        range_bytes: values[13],
        writes: values[14],
        overlay_bytes: values[15],
        result_bytes: values[16],
    }
}

/// What converting limits to a stored policy gives.
pub open spec fn converted(limits: Limits) -> Result<LimitPolicy, Error> {
    if storage::allowed(limits@) {
        Ok(choose|policy: LimitPolicy| policy@ == limits@)
    } else {
        Err(Error::InvalidInput(storage::ABOVE_CEILING))
    }
}

impl TryFrom<Limits> for LimitPolicy {
    type Error = Error;

    fn try_from(limits: Limits) -> (policy: Result<LimitPolicy, Error>)
        ensures
            match policy {
                Ok(policy) => storage::allowed(limits@) && policy@ == limits@,
                Err(e) => !storage::allowed(limits@) && e == Error::InvalidInput(
                    storage::ABOVE_CEILING,
                ),
            },
    {
        let policy = limits.policy();
        proof {
            if policy is Ok {
                storage::lemma_same_policy(
                    policy->Ok_0,
                    choose|other: LimitPolicy| other@ == limits@,
                );
            }
        }
        policy
    }
}

impl vstd::std_specs::convert::TryFromSpecImpl<Limits> for LimitPolicy {
    open spec fn obeys_try_from_spec() -> bool {
        true
    }

    open spec fn try_from_spec(limits: Limits) -> Result<LimitPolicy, Error> {
        converted(limits)
    }
}

impl From<&LimitPolicy> for Limits {
    fn from(policy: &LimitPolicy) -> (limits: Limits)
        ensures
            limits@ == policy@,
    {
        Limits::of(policy)
    }
}

impl vstd::std_specs::convert::FromSpecImpl<&LimitPolicy> for Limits {
    open spec fn obeys_from_spec() -> bool {
        true
    }

    open spec fn from_spec(policy: &LimitPolicy) -> Limits {
        named(policy@)
    }
}

} // verus!
