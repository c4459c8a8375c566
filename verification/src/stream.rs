//! The calls that leave the library: one byte from a reader, one byte to a
//! writer, and the text of what they failed with. Their bodies are not
//! verified; what is assumed of each stands above it.
use vstd::prelude::*;

verus! {

/// The error type of `std::io`, carried through as it came.
#[verifier::external_type_specification]
#[verifier::external_body]
pub struct ExIoError(std::io::Error);

/// Calls `std::io::Read::read_exact` for a buffer of one byte. Nothing is
/// claimed of what comes back: the byte that was read, or the error of a
/// reader that failed or had no byte left.
#[verifier::external_body]
pub(crate) fn read_byte<R: std::io::Read>(read: &mut R) -> (r: Result<u8, std::io::Error>) {
    let mut buf = [0u8; 1];
    match read.read_exact(&mut buf) {
        Ok(()) => Ok(buf[0]),
        Err(err) => Err(err),
    }
}

/// Calls `std::io::Write::write_all` for the one byte `byte`. Nothing is
/// claimed of what comes back.
#[verifier::external_body]
pub(crate) fn write_byte<W: std::io::Write>(write: &mut W, byte: u8) -> (r: Result<
    (),
    std::io::Error,
>) {
    write.write_all(&[byte])
}

/// Calls `to_string` on an error of `std::io`. Nothing is claimed of the
/// text.
#[verifier::external_body]
pub(crate) fn error_text(err: &std::io::Error) -> (text: String) {
    err.to_string()
}

} // verus!
