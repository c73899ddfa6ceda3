use nvme_state_db::error::io_text;
use nvme_state_db::Error;
use std::io::{Error as IoError, ErrorKind};

#[test]
fn empty_key_display_is_explicit() {
    let message = Error::EmptyKey.to_string();
    assert!(
        message.contains("vacía"),
        "el mensaje debe documentar el invariante, got: {message}"
    );
}

#[test]
fn io_error_converts_with_from() {
    let io = IoError::new(ErrorKind::NotFound, "archivo inexistente");
    let err = Error::from(io);
    assert!(matches!(err, Error::Io(_)));
    assert!(err.to_string().contains("E/S"));
}

#[test]
fn io_error_text_keeps_the_detail() {
    let err = Error::from(IoError::new(ErrorKind::NotFound, "archivo inexistente"));
    assert_eq!(err.to_string(), "error de E/S: archivo inexistente");
}

#[test]
fn sequence_overflow_display() {
    assert_eq!(
        Error::SequenceOverflow.to_string(),
        "desbordamiento del número de secuencia"
    );
}

#[test]
fn error_is_send_sync_static() {
    fn assert_bounds<T: Send + Sync + 'static>() {}
    assert_bounds::<Error>();
}

#[test]
fn wal_corrupt_display() {
    assert_eq!(
        Error::WalCorrupt("magic inválida").to_string(),
        "WAL corrupto: magic inválida"
    );
}

#[test]
fn bloom_error_display() {
    assert_eq!(
        Error::BloomInvalid("bits_per_key").to_string(),
        "parámetros de Bloom inválidos: bits_per_key"
    );
    assert_eq!(
        Error::BloomCorrupt("magic").to_string(),
        "Bloom corrupto: magic"
    );
}

#[test]
fn messages_with_numbers() {
    assert_eq!(
        Error::Unaligned { required: 4096 }.to_string(),
        "buffer WAL no alineado a 4096 bytes"
    );
    assert_eq!(
        Error::AllocFailed(12).to_string(),
        "posix_memalign falló con código 12"
    );
    assert_eq!(
        Error::AllocFailed(-1).to_string(),
        "posix_memalign falló con código -1"
    );
    assert_eq!(
        Error::AllocFailed(i32::MIN).to_string(),
        "posix_memalign falló con código -2147483648"
    );
    assert_eq!(
        Error::UnsupportedWalVersion(7).to_string(),
        "versión de WAL no soportada: 7"
    );
    assert_eq!(
        Error::WalRecordTooLarge { size: 20, max: 10 }.to_string(),
        "registro WAL demasiado grande (20 bytes, máximo 10)"
    );
    assert_eq!(
        Error::SstCorrupt("magic de bloque").to_string(),
        "SST corrupto: magic de bloque"
    );
    assert_eq!(
        Error::SstRecordTooLarge { size: 0 }.to_string(),
        "registro SST demasiado grande (0 bytes)"
    );
}

#[test]
fn io_text_puts_the_detail_last() {
    assert_eq!(io_text("disco lleno"), "error de E/S: disco lleno");
    assert_eq!(io_text(""), "error de E/S: ");
}
