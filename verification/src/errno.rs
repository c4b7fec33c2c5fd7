//! The error numbers with which requests are refused.

use vstd::prelude::*;

verus! {

/// No such file or directory.
pub const ENOENT: i32 = 2;

/// Input/output error.
pub const EIO: i32 = 5;

/// File exists.
pub const EEXIST: i32 = 17;

/// Not a directory.
pub const ENOTDIR: i32 = 20;

/// Invalid argument.
pub const EINVAL: i32 = 22;

/// `libc::ENOENT`, which is 2 on Linux, macOS and the BSDs, where the filesystem is mounted.
#[verifier::external_body]
pub(crate) fn enoent() -> (r: i32)
    ensures
        r == ENOENT,
{
    libc::ENOENT
}

/// `libc::EIO`, which is 5 on Linux, macOS and the BSDs, where the filesystem is mounted.
#[verifier::external_body]
pub(crate) fn eio() -> (r: i32)
    ensures
        r == EIO,
{
    libc::EIO
}

/// `libc::EEXIST`, which is 17 on Linux, macOS and the BSDs, where the filesystem is mounted.
#[verifier::external_body]
pub(crate) fn eexist() -> (r: i32)
    ensures
        r == EEXIST,
{
    libc::EEXIST
}

/// `libc::ENOTDIR`, which is 20 on Linux, macOS and the BSDs, where the filesystem is mounted.
#[verifier::external_body]
pub(crate) fn enotdir() -> (r: i32)
    ensures
        r == ENOTDIR,
{
    libc::ENOTDIR
}

/// `libc::EINVAL`, which is 22 on Linux, macOS and the BSDs, where the filesystem is mounted.
#[verifier::external_body]
pub(crate) fn einval() -> (r: i32)
    ensures
        r == EINVAL,
{
    libc::EINVAL
}

/// The number that answers a failed file operation: the system's own where it gave one, `EIO`
/// where it gave none.
pub open spec fn errno_of(raw_os_error: Option<i32>) -> i32 {
    match raw_os_error {
        Some(code) => code,
        None => EIO,
    }
}

/// The number that answers a failed file operation.
pub fn errno(raw_os_error: Option<i32>) -> (r: i32)
    ensures
        r == errno_of(raw_os_error),
{
    match raw_os_error {
        Some(code) => code,
        None => eio(),
    }
}

} // verus!
