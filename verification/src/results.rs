//! The errors that drive actions report, and the result types built on them.
use vstd::prelude::*;
use crate::blocks::{DataBlock, RawBlock, StartBlock};

verus! {

/// Why a drive action failed.
#[derive(Clone, Copy, PartialEq, Eq, Structural, Debug)]
pub enum FsError {
    /// An input/output error: the null block index was read or written.
    Io,
    /// No such entry.
    NoEntry,
    /// An argument was outside the domain of the action.
    Domain,
    /// A result would not fit.
    Range,
    /// The caller may not perform the action.
    Permission,
    /// The permission bits deny the requested access.
    Access,
    /// A name is longer than the 208 bytes that a start block holds.
    NameTooLong,
}

pub type ResultEmpty = Result<(), FsError>;

/// Whether `r` succeeded, and with which error if not, its value left out.
pub open spec fn outcome<T>(r: Result<T, FsError>) -> ResultEmpty {
    match r {
        Ok(_) => Ok(()),
        Err(e) => Err(e),
    }
}

pub type ResultDataBlock = Result<DataBlock, FsError>;

pub type ResultStartBlock = Result<StartBlock, FsError>;

pub type ResultDataBlockVector = Result<Vec<DataBlock>, FsError>;

pub type ResultRawBlock = Result<RawBlock, FsError>;

pub type ResultBlockIndex = Result<u32, FsError>;

pub type ResultBlockIndexVector = Result<Vec<u32>, FsError>;

pub type ResultSize = Result<usize, FsError>;

pub type ResultBool = Result<bool, FsError>;

pub type ResultDataVector = Result<Vec<u8>, FsError>;

pub type ResultStartBlockOption = Result<Option<StartBlock>, FsError>;

pub type ResultHandleIndex = Result<u64, FsError>;

} // verus!
