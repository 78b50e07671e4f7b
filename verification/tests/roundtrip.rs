use dca::compress::{compress_into, DefaultFileHandler as Source};
use dca::compress::DefaultErrorHandler as CompressErrors;
use dca::decompress::{decompress_from, DefaultFileHandler as Sink};
use dca::decompress::DefaultErrorHandler as DecompressErrors;

fn round_trip(entries: Vec<(Vec<u8>, Vec<u8>)>) {
    let mut archive = Vec::<u8>::new();
    compress_into(
        &mut archive,
        &mut Source::new(entries.clone()),
        &CompressErrors::new("round-trip.dca"),
    )
    .unwrap();

    let mut sink = Sink::new();
    decompress_from(&archive, &mut sink, &DecompressErrors::new("round-trip.dca")).unwrap();

    assert_eq!(sink.files(), &entries);
}

#[test]
fn roundtrip_mixed_entries() {
    round_trip(vec![
        (b"plain".to_vec(), b"some text".to_vec()),
        (b"empty".to_vec(), Vec::new()),
        (b"binary".to_vec(), vec![0u8, 255, 10, 10, 13, 1, 128]),
        (b"".to_vec(), b"a nameless entry".to_vec()),
    ]);
}

#[test]
fn roundtrip_large_payload() {
    let mut big = Vec::with_capacity(3 * 1024 * 1024);
    for i in 0..(3 * 1024 * 1024) {
        big.push((i % 251) as u8);
    }
    round_trip(vec![
        (b"big.bin".to_vec(), big),
        (b"after".to_vec(), b"still here".to_vec()),
    ]);
}

#[test]
fn roundtrip_no_entries() {
    let mut archive = Vec::<u8>::new();
    compress_into(
        &mut archive,
        &mut Source::new(Vec::new()),
        &CompressErrors::new("empty.dca"),
    )
    .unwrap();
    assert_eq!(archive, b"DCA\n");

    let mut sink = Sink::new();
    decompress_from(&archive, &mut sink, &DecompressErrors::new("empty.dca")).unwrap();
    assert_eq!(sink.files().len(), 0);
}

#[test]
fn roundtrip_newline_payloads() {
    // Payloads full of line feeds must not desynchronise the framing.
    round_trip(vec![
        (b"a".to_vec(), b"\n\n\n".to_vec()),
        (b"b".to_vec(), b"\n".to_vec()),
        (b"c".to_vec(), b"3\n".to_vec()),
    ]);
}
