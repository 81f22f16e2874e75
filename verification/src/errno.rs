//! The system's error codes that describe the run rather than a file.
//!
//! Each differs between systems, so nothing is said of its value: a contract that rests
//! on one says which was asked for.

use vstd::prelude::*;

verus! {

/// The constant `libc::EPERM`.
#[verifier::external_body]
pub fn eperm() -> (code: i32) {
    libc::EPERM
}

/// The constant `libc::ENOENT`.
#[verifier::external_body]
pub fn enoent() -> (code: i32) {
    libc::ENOENT
}

/// The constant `libc::EINTR`.
#[verifier::external_body]
pub fn eintr() -> (code: i32) {
    libc::EINTR
}

/// The constant `libc::EIO`.
#[verifier::external_body]
pub fn eio() -> (code: i32) {
    libc::EIO
}

/// The constant `libc::ENXIO`.
#[verifier::external_body]
pub fn enxio() -> (code: i32) {
    libc::ENXIO
}

/// The constant `libc::EBADF`.
#[verifier::external_body]
pub fn ebadf() -> (code: i32) {
    libc::EBADF
}

/// The constant `libc::EAGAIN`.
#[verifier::external_body]
pub fn eagain() -> (code: i32) {
    libc::EAGAIN
}

/// The constant `libc::ENOMEM`.
#[verifier::external_body]
pub fn enomem() -> (code: i32) {
    libc::ENOMEM
}

/// The constant `libc::EACCES`.
#[verifier::external_body]
pub fn eacces() -> (code: i32) {
    libc::EACCES
}

/// The constant `libc::EBUSY`.
#[verifier::external_body]
pub fn ebusy() -> (code: i32) {
    libc::EBUSY
}

/// The constant `libc::ENODEV`.
#[verifier::external_body]
pub fn enodev() -> (code: i32) {
    libc::ENODEV
}

/// The constant `libc::ENFILE`.
#[verifier::external_body]
pub fn enfile() -> (code: i32) {
    libc::ENFILE
}

/// The constant `libc::EMFILE`.
#[verifier::external_body]
pub fn emfile() -> (code: i32) {
    libc::EMFILE
}

/// The constant `libc::ENOSPC`.
#[verifier::external_body]
pub fn enospc() -> (code: i32) {
    libc::ENOSPC
}

/// The constant `libc::EROFS`.
#[verifier::external_body]
pub fn erofs() -> (code: i32) {
    libc::EROFS
}

/// The constant `libc::ELOOP`.
#[verifier::external_body]
pub fn eloop() -> (code: i32) {
    libc::ELOOP
}

/// The constant `libc::ETIMEDOUT`.
#[verifier::external_body]
pub fn etimedout() -> (code: i32) {
    libc::ETIMEDOUT
}

/// The constant `libc::ECONNREFUSED`.
#[verifier::external_body]
pub fn econnrefused() -> (code: i32) {
    libc::ECONNREFUSED
}

/// The constant `libc::EHOSTUNREACH`.
#[verifier::external_body]
pub fn ehostunreach() -> (code: i32) {
    libc::EHOSTUNREACH
}

/// The constant `libc::ENETUNREACH`.
#[verifier::external_body]
pub fn enetunreach() -> (code: i32) {
    libc::ENETUNREACH
}

/// The constant `libc::ESTALE`.
#[verifier::external_body]
pub fn estale() -> (code: i32) {
    libc::ESTALE
}

/// The constant `libc::EXDEV`.
#[verifier::external_body]
pub fn exdev() -> (code: i32) {
    libc::EXDEV
}

/// How many of these codes there are.
pub const ENVIRONMENTAL: usize = 21;

/// Whether these are the codes that can be different next time with a file's bytes
/// unchanged, each as the system gives it.
pub open spec fn are_environmental(codes: Seq<i32>) -> bool {
    &&& codes.len() == ENVIRONMENTAL
    &&& call_ensures(eperm, (), codes[0])
    &&& call_ensures(enoent, (), codes[1])
    &&& call_ensures(eintr, (), codes[2])
    &&& call_ensures(eio, (), codes[3])
    &&& call_ensures(enxio, (), codes[4])
    &&& call_ensures(ebadf, (), codes[5])
    &&& call_ensures(eagain, (), codes[6])
    &&& call_ensures(enomem, (), codes[7])
    &&& call_ensures(eacces, (), codes[8])
    &&& call_ensures(ebusy, (), codes[9])
    &&& call_ensures(enodev, (), codes[10])
    &&& call_ensures(enfile, (), codes[11])
    &&& call_ensures(emfile, (), codes[12])
    &&& call_ensures(enospc, (), codes[13])
    &&& call_ensures(erofs, (), codes[14])
    &&& call_ensures(eloop, (), codes[15])
    &&& call_ensures(etimedout, (), codes[16])
    &&& call_ensures(econnrefused, (), codes[17])
    &&& call_ensures(ehostunreach, (), codes[18])
    &&& call_ensures(enetunreach, (), codes[19])
    &&& call_ensures(estale, (), codes[20])
}

/// The codes that can be different next time with a file's bytes unchanged: the
/// machine, the mount, the permissions, this process's files. Any other failure is
/// about the file.
pub fn environmental() -> (codes: Vec<i32>)
    ensures
        are_environmental(codes@),
{
    let mut codes: Vec<i32> = Vec::new();
    codes.push(eperm());
    codes.push(enoent());
    codes.push(eintr());
    codes.push(eio());
    codes.push(enxio());
    codes.push(ebadf());
    codes.push(eagain());
    codes.push(enomem());
    codes.push(eacces());
    codes.push(ebusy());
    codes.push(enodev());
    codes.push(enfile());
    codes.push(emfile());
    codes.push(enospc());
    codes.push(erofs());
    codes.push(eloop());
    codes.push(etimedout());
    codes.push(econnrefused());
    codes.push(ehostunreach());
    codes.push(enetunreach());
    codes.push(estale());
    codes
}

} // verus!
