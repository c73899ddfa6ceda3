//! The texts of errors.

use crate::error::{signed_decimal, Error};
use crate::text::decimal;
use vstd::prelude::*;

verus! {

/// Errors without details have one text each.
pub proof fn law_plain_texts(text: Seq<char>)
    ensures
        Error::EmptyKey.has_text(text) <==> text == "la clave no puede estar vacía"@,
        Error::SequenceOverflow.has_text(text) <==> text
            == "desbordamiento del número de secuencia"@,
{
}

/// Errors with a reason end in the reason.
pub proof fn law_texts_with_reason(what: &'static str, text: Seq<char>)
    ensures
        Error::WalCorrupt(what).has_text(text) <==> text == "WAL corrupto: "@ + what@,
        Error::BloomInvalid(what).has_text(text) <==> text == "parámetros de Bloom inválidos: "@
            + what@,
        Error::BloomCorrupt(what).has_text(text) <==> text == "Bloom corrupto: "@ + what@,
        Error::SstCorrupt(what).has_text(text) <==> text == "SST corrupto: "@ + what@,
{
}

/// Errors with numbers show them in decimal.
pub proof fn law_texts_with_numbers(
    size: usize,
    max: usize,
    code: i32,
    version: u16,
    text: Seq<char>,
)
    ensures
        (Error::Unaligned { required: size }).has_text(text) <==> text
            == "buffer WAL no alineado a "@ + decimal(size as nat) + " bytes"@,
        code >= 0 ==> (Error::AllocFailed(code).has_text(text) <==> text
            == "posix_memalign falló con código "@ + decimal(code as nat)),
        code < 0 ==> (Error::AllocFailed(code).has_text(text) <==> text
            == "posix_memalign falló con código "@ + ("-"@ + decimal((-code) as nat))),
        Error::UnsupportedWalVersion(version).has_text(text) <==> text
            == "versión de WAL no soportada: "@ + decimal(version as nat),
        (Error::WalRecordTooLarge { size, max }).has_text(text) <==> text
            == "registro WAL demasiado grande ("@ + decimal(size as nat) + " bytes, máximo "@
            + decimal(max as nat) + ")"@,
        (Error::SstRecordTooLarge { size }).has_text(text) <==> text
            == "registro SST demasiado grande ("@ + decimal(size as nat) + " bytes)"@,
{
    assert(signed_decimal(code as int) == if code < 0 {
        "-"@ + decimal((-code) as nat)
    } else {
        decimal(code as nat)
    });
}

/// The text of an I/O error begins with what kind of error it is.
pub proof fn law_io_text(err: std::io::Error, text: Seq<char>)
    ensures
        Error::Io(err).has_text(text) <==> "error de E/S: "@.is_prefix_of(text),
{
}

} // verus!
