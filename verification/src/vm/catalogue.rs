//! Catalogue operations and the rules that they keep before they are logged.

use super::{Error, Type};
use crate::bind;
use crate::bytes::contains_byte;
use crate::compiler::syntax;
use crate::compiler::types;
use crate::compiler::types::Shape;
use vstd::prelude::*;
use vstd::utf8::*;

verus! {

pub const BAD_NAME: &'static str = "invalid table name";

pub const BAD_KEY: &'static str = "invalid table key type";

pub const BAD_VALUE: &'static str = "invalid table value type";

pub const RESERVED_TABLE: &'static str = "reserved table ID";

/// The longest canonical key of a table.
pub const KEY_LIMIT: u64 = 1024;

/// A change of the catalogue.
#[derive(Debug, PartialEq, Eq)]
pub enum CatalogueOperation {
    Create { name: String, key: Type, value: Type },
    Rename { table: u64, name: String },
    Drop { table: u64 },
}

/// The model of a [`CatalogueOperation`].
pub enum OperationModel {
    Create { name: Seq<char>, key: Shape, value: Shape },
    Rename { table: u64, name: Seq<char> },
    Drop { table: u64 },
}

impl CatalogueOperation {
    pub open spec fn view(self) -> OperationModel {
        match self {
            CatalogueOperation::Create { name, key, value } => OperationModel::Create {
                name: name@,
                key: key@,
                value: value@,
            },
            CatalogueOperation::Rename { table, name } => OperationModel::Rename {
                table,
                name: name@,
            },
            CatalogueOperation::Drop { table } => OperationModel::Drop { table },
        }
    }

    /// A copy of this operation.
    pub fn duplicate(&self) -> (copy: CatalogueOperation)
        ensures
            copy@ == self@,
    {
        match self {
            CatalogueOperation::Create { name, key, value } => CatalogueOperation::Create {
                name: name.clone(),
                key: key.duplicate(),
                value: value.duplicate(),
            },
            CatalogueOperation::Rename { table, name } => CatalogueOperation::Rename {
                table: *table,
                name: name.clone(),
            },
            CatalogueOperation::Drop { table } => CatalogueOperation::Drop { table: *table },
        }
    }
}

impl Clone for CatalogueOperation {
    fn clone(&self) -> (copy: CatalogueOperation)
        ensures
            copy@ == self@,
    {
        self.duplicate()
    }
}

/// Whether the bytes of a name are allowed: 1 to 255 of them, none zero.
pub open spec fn name_bytes(name: Seq<u8>) -> bool {
    1 <= name.len() <= 255 && !name.contains(0)
}

/// Whether a type may be the key of a table.
pub open spec fn key_type(shape: Shape) -> bool {
    types::valid_type(shape, false) && types::key_extent(shape) <= KEY_LIMIT
}

/// The first rule that an operation breaks.
pub open spec fn operation_fault(operation: OperationModel) -> Option<&'static str> {
    match operation {
        OperationModel::Create { name, key, value } => if !name_bytes(encode_utf8(name)) {
            Some(BAD_NAME)
        } else if !key_type(key) {
            Some(BAD_KEY)
        } else if !types::valid_type(value, false) {
            Some(BAD_VALUE)
        } else {
            None
        },
        OperationModel::Rename { table, name } => if bind::reserved_id(table) {
            Some(RESERVED_TABLE)
        } else if !name_bytes(encode_utf8(name)) {
            Some(BAD_NAME)
        } else {
            None
        },
        OperationModel::Drop { table } => if bind::reserved_id(table) {
            Some(RESERVED_TABLE)
        } else {
            None
        },
    }
}

/// Whether the bytes of a name are allowed.
pub fn valid_name_bytes(name: &[u8]) -> (valid: bool)
    ensures
        valid == name_bytes(name@),
{
    name.len() >= 1 && name.len() <= 255 && !contains_byte(name, 0)
}

/// Check an operation before it is logged.
pub fn validate_catalogue(operation: &CatalogueOperation) -> (valid: Result<(), Error>)
    ensures
        match valid {
            Ok(()) => operation_fault(operation@) is None,
            Err(e) => operation_fault(operation@) matches Some(reason) && e == Error::Invalid(
                reason,
            ),
        },
{
    match operation {
        CatalogueOperation::Create { name, key, value } => {
            if !valid_name_bytes(name.as_str().as_bytes()) {
                return Err(Error::Invalid(BAD_NAME));
            }
            if !key.is_valid(false) {
                return Err(Error::Invalid(BAD_KEY));
            }
            proof {
                syntax::lemma_key_extent(key@, 1);
            }
            if key.key_length() > KEY_LIMIT {
                return Err(Error::Invalid(BAD_KEY));
            }
            if !value.is_valid(false) {
                return Err(Error::Invalid(BAD_VALUE));
            }
        },
        CatalogueOperation::Rename { table, name } => {
            if *table == 0 || *table == u64::MAX {
                return Err(Error::Invalid(RESERVED_TABLE));
            }
            if !valid_name_bytes(name.as_str().as_bytes()) {
                return Err(Error::Invalid(BAD_NAME));
            }
        },
        CatalogueOperation::Drop { table } => {
            if *table == 0 || *table == u64::MAX {
                return Err(Error::Invalid(RESERVED_TABLE));
            }
        },
    }
    Ok(())
}

} // verus!
