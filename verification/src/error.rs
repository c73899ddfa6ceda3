//! The library's error type.
//!
//! Every variant can be matched without allocating; [`Error::to_string`] gives
//! the text that an operator sees.

use crate::text::{decimal, push_decimal};
use vstd::prelude::*;

verus! {

/// `std::io::Error`, carried through unopened.
#[verifier::external_type_specification]
#[verifier::external_body]
pub struct ExIoError(std::io::Error);

/// A recoverable error of the library.
#[derive(Debug)]
pub enum Error {
    /// The file system or the kernel failed.
    Io(std::io::Error),
    /// A key is never the empty string.
    EmptyKey,
    /// The monotonic counter of writes reached `u64::MAX`.
    SequenceOverflow,
    /// A transfer does not have the alignment that `O_DIRECT` asks for.
    Unaligned {
        /// The alignment asked for, in bytes.
        required: usize,
    },
    /// `posix_memalign` returned a code other than 0.
    AllocFailed(i32),
    /// Bad magic, bad header checksum, or a payload that cannot be read
    /// although its CRC is right.
    WalCorrupt(&'static str),
    /// The file declares a format version that is not understood.
    UnsupportedWalVersion(u16),
    /// The record goes beyond the defensive limit.
    WalRecordTooLarge {
        /// The size that was to be written or read.
        size: usize,
        /// The limit.
        max: usize,
    },
    /// Capacity or `bits_per_key` out of range when a filter is built.
    BloomInvalid(&'static str),
    /// Unreadable magic, sizes or `k` in a serialized filter.
    BloomCorrupt(&'static str),
    /// A file, block, index or footer of an SSTable that cannot be read.
    SstCorrupt(&'static str),
    /// A key, value or block whose length does not fit its on-disk field.
    SstRecordTooLarge {
        /// The length, in bytes.
        size: usize,
    },
}

/// `n` in decimal, with a minus sign if it is negative.
pub open spec fn signed_decimal(n: int) -> Seq<char> {
    if n < 0 {
        "-"@ + decimal((-n) as nat)
    } else {
        decimal(n as nat)
    }
}

impl Error {
    /// `text` is the message of this error. Of an I/O error only the beginning
    /// is fixed: what follows is the operating system's own wording.
    pub open spec fn has_text(self, text: Seq<char>) -> bool {
        match self {
            Error::Io(_) => "error de E/S: "@.is_prefix_of(text),
            Error::EmptyKey => text == "la clave no puede estar vacía"@,
            Error::SequenceOverflow => text == "desbordamiento del número de secuencia"@,
            Error::Unaligned { required } => text == "buffer WAL no alineado a "@ + decimal(
                required as nat,
            ) + " bytes"@,
            Error::AllocFailed(code) => text == "posix_memalign falló con código "@
                + signed_decimal(code as int),
            Error::WalCorrupt(what) => text == "WAL corrupto: "@ + what@,
            Error::UnsupportedWalVersion(version) => text == "versión de WAL no soportada: "@
                + decimal(version as nat),
            Error::WalRecordTooLarge { size, max } => text == "registro WAL demasiado grande ("@
                + decimal(size as nat) + " bytes, máximo "@ + decimal(max as nat) + ")"@,
            Error::BloomInvalid(what) => text == "parámetros de Bloom inválidos: "@ + what@,
            Error::BloomCorrupt(what) => text == "Bloom corrupto: "@ + what@,
            Error::SstCorrupt(what) => text == "SST corrupto: "@ + what@,
            Error::SstRecordTooLarge { size } => text == "registro SST demasiado grande ("@
                + decimal(size as nat) + " bytes)"@,
        }
    }

    /// The message of this error.
    pub fn to_string(&self) -> (text: String)
        ensures
            self.has_text(text@),
    {
        let mut text = String::new();
        match self {
            Error::Io(err) => {
                let detail = io_error_text(err);
                text = io_text(detail.as_str());
                assert("error de E/S: "@.is_prefix_of(text@));
            },
            Error::EmptyKey => {
                text.append("la clave no puede estar vacía");
            },
            Error::SequenceOverflow => {
                text.append("desbordamiento del número de secuencia");
            },
            Error::Unaligned { required } => {
                text.append("buffer WAL no alineado a ");
                push_decimal(&mut text, *required as u64);
                text.append(" bytes");
            },
            Error::AllocFailed(code) => {
                text.append("posix_memalign falló con código ");
                push_signed(&mut text, *code);
            },
            Error::WalCorrupt(what) => {
                text.append("WAL corrupto: ");
                text.append(what);
            },
            Error::UnsupportedWalVersion(version) => {
                text.append("versión de WAL no soportada: ");
                push_decimal(&mut text, *version as u64);
            },
            Error::WalRecordTooLarge { size, max } => {
                text.append("registro WAL demasiado grande (");
                push_decimal(&mut text, *size as u64);
                text.append(" bytes, máximo ");
                push_decimal(&mut text, *max as u64);
                text.append(")");
            },
            Error::BloomInvalid(what) => {
                text.append("parámetros de Bloom inválidos: ");
                text.append(what);
            },
            Error::BloomCorrupt(what) => {
                text.append("Bloom corrupto: ");
                text.append(what);
            },
            Error::SstCorrupt(what) => {
                text.append("SST corrupto: ");
                text.append(what);
            },
            Error::SstRecordTooLarge { size } => {
                text.append("registro SST demasiado grande (");
                push_decimal(&mut text, *size as u64);
                text.append(" bytes)");
            },
        }
        text
    }
}

/// The message of an I/O error whose own text is `detail`.
pub fn io_text(detail: &str) -> (text: String)
    ensures
        text@ == "error de E/S: "@ + detail@,
{
    let mut text = String::new();
    text.append("error de E/S: ");
    text.append(detail);
    assert(text@ =~= "error de E/S: "@ + detail@);
    text
}

/// Appends `n` in decimal, with its sign.
fn push_signed(out: &mut String, n: i32)
    ensures
        final(out)@ == old(out)@ + signed_decimal(n as int),
{
    if n < 0 {
        out.append("-");
        let magnitude: i64 = -(n as i64);
        push_decimal(out, magnitude as u64);
        assert(out@ =~= old(out)@ + signed_decimal(n as int));
    } else {
        push_decimal(out, n as u64);
    }
}

/// `std::io::Error`'s `Display` text. Nothing is claimed of it: the wording is
/// the operating system's.
#[verifier::external_body]
fn io_error_text(err: &std::io::Error) -> (text: String) {
    err.to_string()
}

impl From<std::io::Error> for Error {
    fn from(err: std::io::Error) -> (r: Self) {
        Error::Io(err)
    }
}

impl vstd::std_specs::convert::FromSpecImpl<std::io::Error> for Error {
    open spec fn obeys_from_spec() -> bool {
        true
    }

    open spec fn from_spec(err: std::io::Error) -> Self {
        Error::Io(err)
    }
}

} // verus!
