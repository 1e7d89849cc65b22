use rustyzip::engine::Deflate_Status;
use rustyzip::deflate::Deflator;
use rustyzip::gzip::{GZip, GzipError, GZipWriter};
use rustyzip::stream::{BoundedWriter, MemReader, MemWriter};

#[test]
fn cancelling_writer_aborts_compress_write() {
    let data: Vec<u8> = b"ABCDEFGH".repeat(12);
    let mut deflator = Deflator::with_size_factor(5);
    deflator.init(6, false, false);
    let mut w = BoundedWriter::new(0);
    let status = deflator.compress_write(&data, true, &mut w);
    assert_eq!(status, Deflate_Status::Abort);
}

#[test]
fn cancelling_writer_aborts_compress_pipe() {
    let data: Vec<u8> = b"ABCDEFGH".repeat(12);
    let mut w = BoundedWriter::new(0);
    let mut gzip = GZip::compress_init(&mut w, &b"a.txt".to_vec(), 0, data.len() as u32).unwrap();
    let mut reader = MemReader::new(data);
    let r = gzip.compress_pipe(&mut reader, &mut w, 6, 5);
    assert!(matches!(r, Err(GzipError::Aborted)));
}

#[test]
fn cancelling_writer_aborts_gzip_writer() {
    let data: Vec<u8> = b"ABCDEFGH".repeat(12);
    let sink = BoundedWriter::new(0);
    let mut gw =
        GZipWriter::with_size_factor(sink, &b"a.txt".to_vec(), 0, data.len() as u32, 6, 5).unwrap();
    let first = gw.write(&data);
    let second = gw.finalize();
    // the cancellation surfaces on whichever call first flushes bytes,
    // and the member is dead from then on
    assert!(
        matches!(first, Err(GzipError::Aborted))
            || matches!(second, Err(GzipError::Aborted) | Err(GzipError::Finalized))
    );
    assert!(matches!(gw.write(&data), Err(GzipError::Finalized)));
}

#[test]
fn never_cancelling_writer_still_succeeds() {
    let data: Vec<u8> = b"ABCDEFGH".repeat(12);
    let mut w = MemWriter::new();
    let mut gzip = GZip::compress_init(&mut w, &b"a.txt".to_vec(), 0, data.len() as u32).unwrap();
    let mut reader = MemReader::new(data);
    assert!(gzip.compress_pipe(&mut reader, &mut w, 6, 5).is_ok());
}
