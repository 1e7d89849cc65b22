use rustyzip::crc32::{compute_crc, generate_crc_table, make_crc_table, update_crc};
use rustyzip::deflate::{Deflator, Inflator};
use rustyzip::engine::{DeflateEngine, Deflate_Status};
use rustyzip::gzip::{GZip, GzipError, GZipReader, GZipWriter};
use rustyzip::stream::{MemReader, MemWriter};

fn fixture() -> Vec<u8> {
    vec![
        0x1f, 0x8B, 0x08, 0x08, 0x54, 0x3C, 0x3D, 0x52, 0x00, 0x03, 0x74, 0x65, 0x73, 0x74, 0x31,
        0x00, 0x73, 0x74, 0x72, 0x76, 0x71, 0x75, 0x73, 0xF7, 0xE0, 0xE5, 0x02, 0x00, 0x94, 0xA6,
        0xD7, 0xD0, 0x0A, 0x00, 0x00, 0x00,
    ]
}

fn gzip_compress(input: &[u8], level: usize, factor: usize, name: &[u8]) -> Vec<u8> {
    let mut writer = MemWriter::new();
    let mut gzip =
        GZip::compress_init(&mut writer, &name.to_vec(), 0, input.len() as u32).unwrap();
    let mut reader = MemReader::new(input.to_vec());
    gzip.compress_pipe(&mut reader, &mut writer, level, factor).unwrap();
    writer.inner()
}

fn gzip_decompress(member: &[u8], factor: usize) -> Result<(Vec<u8>, GZip, Vec<u8>), GzipErr> {
    let mut reader = MemReader::new(member.to_vec());
    let mut gzip = GZip::decompress_init(&mut reader).map_err(GzipErr)?;
    let mut writer = MemWriter::new();
    let extra = gzip.decompress_pipe(&mut reader, &mut writer, factor).map_err(GzipErr)?;
    Ok((writer.inner(), gzip, extra))
}

struct GzipErr(GzipError);

#[test]
fn test_generate_crc_table() {
    let text = generate_crc_table();
    assert!(text.len() > 256 * 10);
    assert!(text.contains("0xEDB88320"));
}

#[test]
fn test_gzip_reader() {
    let comp_reader = MemReader::new(fixture());
    let gzip_reader_res = GZipReader::with_size_factor(comp_reader, 1);
    let mut gzip_reader = gzip_reader_res.unwrap();
    let out = gzip_reader.read(64).unwrap();
    println!("gzip_reader.read(): {:?}", out);
    assert_eq!(out, b"ABCDEFGH\r\n".to_vec());
    let end = gzip_reader.read(64).unwrap();
    assert_eq!(end.len(), 0);
    assert!(gzip_reader.eof());
}

#[test]
fn crc_known_vectors() {
    let data = b"ABCDEFGH".to_vec();
    assert_eq!(compute_crc(&data, 0, 8), 0x68DCB61C);
    let data2 = b"ABCDEFGH\r\n".to_vec();
    assert_eq!(compute_crc(&data2, 0, 10), 0xD0D7A694);
    // chunked updates agree with one pass
    let first = update_crc(0, &data2, 0, 4);
    let both = update_crc(first, &data2, 4, 10);
    assert_eq!(both, 0xD0D7A694);
    // the table holds the standard entries
    let table = make_crc_table();
    assert_eq!(table[0], 0);
    assert_eq!(table[1], 0x77073096);
    assert_eq!(table[255], 0x2D02EF8D);
}

#[test]
fn empty_input_member_is_twenty_bytes() {
    let member = gzip_compress(b"", 6, 5, b"");
    assert_eq!(member.len(), 20);
    let (out, gzip, extra) = match gzip_decompress(&member, 5) {
        Ok(v) => v,
        Err(_) => panic!("round trip failed"),
    };
    assert_eq!(out.len(), 0);
    assert_eq!(extra.len(), 0);
    assert_eq!(gzip.original_size, 0);
}

#[test]
fn tiny_output_buffer_reports_okay_and_fills() {
    let input: Vec<u8> = b"ABCDEFGH".repeat(12);
    let mut engine = DeflateEngine::new(6, false, false);
    let mut out = vec![0u8; 4];
    let (status, consumed, produced) = engine.compress_step(&input, 0, input.len(), &mut out, 0, true);
    assert_eq!(status, Deflate_Status::Okay);
    assert_eq!(consumed, input.len());
    assert_eq!(produced, 4);
}

#[test]
fn truncated_member_fails() {
    let member = gzip_compress(b"ABCDEFGH".repeat(12).as_slice(), 6, 5, b"");
    // drop one byte at the end of the compressed body, keeping the trailer
    let mut cut = member[..member.len() - 9].to_vec();
    cut.extend_from_slice(&member[member.len() - 8..]);
    assert!(gzip_decompress(&cut, 5).is_err());
}

#[test]
fn compress_abcdefgh_level6() {
    let member = gzip_compress(b"ABCDEFGH", 6, 5, b"");
    assert_eq!(&member[..10], &[0x1f, 0x8b, 0x08, 0x00, 0x00, 0x00, 0x00, 0x00, 0x00, 0x00]);
    let n = member.len();
    let crc = u32::from_le_bytes([member[n - 8], member[n - 7], member[n - 6], member[n - 5]]);
    let isize_field = u32::from_le_bytes([member[n - 4], member[n - 3], member[n - 2], member[n - 1]]);
    assert_eq!(crc, 0x68DCB61C);
    assert_eq!(isize_field, 8);
    // with a file name the flag byte carries the name bit
    let named = gzip_compress(b"ABCDEFGH", 6, 5, b"test1");
    assert_eq!(named[3], 0x08);
}

#[test]
fn round_trip_all_levels_and_factors() {
    let input: Vec<u8> = b"ABCDEFGH".repeat(12);
    for level in 0..10 {
        for factor in [5usize, 8, 10] {
            let member = gzip_compress(&input, level, factor, b"data");
            let (out, gzip, extra) = match gzip_decompress(&member, factor) {
                Ok(v) => v,
                Err(_) => panic!("round trip failed at level {} factor {}", level, factor),
            };
            assert_eq!(out, input);
            assert_eq!(extra.len(), 0);
            assert_eq!(gzip.crc32, gzip.cmp_crc32);
            assert_eq!(gzip.original_size, 96);
        }
    }
}

#[test]
fn fixture_decodes_with_header_fields() {
    let (out, gzip, extra) = match gzip_decompress(&fixture(), 5) {
        Ok(v) => v,
        Err(_) => panic!("fixture failed"),
    };
    assert_eq!(out, b"ABCDEFGH\r\n".to_vec());
    assert_eq!(gzip.filename, Some(b"test1".to_vec()));
    assert_eq!(gzip.crc32, 0xD0D7A694);
    assert_eq!(gzip.original_size, 10);
    assert_eq!(extra.len(), 0);
}

#[test]
fn decompress_read_chunked() {
    let body = fixture()[16..].to_vec();
    for out_len in [1usize, 8, 256] {
        let mut inflator = Inflator::with_size_factor(1);
        let mut reader = MemReader::new(body.clone());
        let mut collected: Vec<u8> = Vec::new();
        loop {
            let chunk = inflator.decompress_read(&mut reader, out_len).unwrap();
            if chunk.is_empty() {
                break;
            }
            collected.extend_from_slice(&chunk);
        }
        assert_eq!(collected, b"ABCDEFGH\r\n".to_vec());
        let again = inflator.decompress_read(&mut reader, out_len).unwrap();
        assert_eq!(again.len(), 0);
    }
}

#[test]
fn flipped_bit_fails() {
    let mut bad = fixture();
    bad[21] ^= 0x10;
    assert!(gzip_decompress(&bad, 5).is_err());
}

#[test]
fn writer_adapter_matches_pipe() {
    let input: Vec<u8> = b"ABCDEFGH".repeat(12);
    let pipe_out = gzip_compress(&input, 6, 5, b"data");
    let mut gw =
        GZipWriter::with_size_factor(MemWriter::new(), &b"data".to_vec(), 0, 96, 6, 5).unwrap();
    gw.write(&input[..40].to_vec()).unwrap();
    gw.write(&input[40..].to_vec()).unwrap();
    gw.finalize().unwrap();
    // finalize again is a no-op
    gw.finalize().unwrap();
    assert!(gw.write(&b"x".to_vec()).is_err());
    let adapter_out = gw.inner().inner();
    assert_eq!(pipe_out, adapter_out);
}

#[test]
fn header_errors_are_exact() {
    let mut r = MemReader::new(vec![0x1f, 0x8b]);
    assert!(matches!(GZip::decompress_init(&mut r), Err(GzipError::TooFewData)));
    let mut r = MemReader::new(vec![0x1f, 0x8c, 8, 0, 0, 0, 0, 0, 0, 0]);
    assert!(matches!(GZip::decompress_init(&mut r), Err(GzipError::BadSignature)));
    let mut r = MemReader::new(vec![0x1f, 0x8b, 7, 0, 0, 0, 0, 0, 0, 0]);
    assert!(matches!(GZip::decompress_init(&mut r), Err(GzipError::BadMethod)));
    // a member cut before its trailer
    let member = gzip_compress(b"ABCDEFGH", 6, 5, b"");
    let cut = member[..member.len() - 5].to_vec();
    let mut r = MemReader::new(cut);
    let mut g = GZip::decompress_init(&mut r).unwrap();
    let mut w = MemWriter::new();
    assert!(matches!(
        g.decompress_pipe(&mut r, &mut w, 5),
        Err(GzipError::TrailerTooShort)
    ));
}

#[test]
fn read_info_reports_trailer() {
    let member = gzip_compress(b"ABCDEFGH", 6, 5, b"hello");
    let end = member[member.len() - 8..].to_vec();
    let mut r = MemReader::new(member.clone());
    let info = GZip::read_info(&mut r, &end).unwrap();
    assert_eq!(info.crc32, 0x68DCB61C);
    assert_eq!(info.original_size, 8);
    assert_eq!(info.filename, Some(b"hello".to_vec()));
}

#[test]
fn free_twice_is_a_no_op() {
    let mut deflator = Deflator::with_size_factor(5);
    deflator.free();
    deflator.free();
    let mut inflator = Inflator::with_size_factor(5);
    inflator.free();
    inflator.free();
}

#[test]
fn deflator_compress_pipe_rw_round_trip() {
    let input: Vec<u8> = b"ABCDEFGH".repeat(12);
    let mut deflator = Deflator::with_size_factor(5);
    deflator.init(6, false, false);
    let mut reader = MemReader::new(input.clone());
    let mut writer = MemWriter::new();
    let status = deflator.compress_pipe_rw(&mut reader, &mut writer);
    assert_eq!(status, Deflate_Status::Done);
    let compressed = writer.inner();
    assert!(compressed.len() > 0);
    assert!(compressed.len() < input.len());

    let mut inflator = Inflator::with_size_factor(5);
    let mut reader2 = MemReader::new(compressed);
    let mut writer2 = MemWriter::new();
    let status2 = inflator.decompress_pipe_rw(&mut reader2, &mut writer2);
    assert_eq!(status2, rustyzip::engine::Inflate_Status::Done);
    assert_eq!(writer2.inner(), input);
}

#[test]
fn inflator_rest_captures_tail() {
    // compress, then append trailing bytes past the stream end
    let input: Vec<u8> = b"ABCDEFGH".to_vec();
    let mut deflator = Deflator::with_size_factor(5);
    deflator.init(6, false, false);
    let mut reader = MemReader::new(input.clone());
    let mut writer = MemWriter::new();
    deflator.compress_pipe(&mut reader, &mut writer);
    let mut stream = writer.inner();
    stream.extend_from_slice(&[9, 8, 7, 6]);

    let mut inflator = Inflator::with_size_factor(5);
    let mut reader2 = MemReader::new(stream);
    let mut writer2 = MemWriter::new();
    let (status, rest) = inflator.decompress_pipe(&mut reader2, &mut writer2);
    assert_eq!(status, rustyzip::engine::Inflate_Status::Done);
    assert_eq!(writer2.inner(), input);
    assert_eq!(inflator.get_rest_len(), rest.len());
    assert_eq!(inflator.get_rest(), rest);
    assert_eq!(rest, vec![9, 8, 7, 6]);
}

#[test]
fn compress_write_preserves_staged_input() {
    // feeding in two non-final batches then finishing equals one batch
    let input: Vec<u8> = b"ABCDEFGH".repeat(12);
    let mut one = Deflator::with_size_factor(5);
    one.init(6, false, false);
    let mut w1 = MemWriter::new();
    assert_eq!(one.compress_write(&input, true, &mut w1), Deflate_Status::Done);

    let mut two = Deflator::with_size_factor(5);
    two.init(6, false, false);
    let mut w2 = MemWriter::new();
    assert_eq!(two.compress_write(&input[..30].to_vec(), false, &mut w2), Deflate_Status::Okay);
    assert_eq!(two.compress_write(&input[30..].to_vec(), true, &mut w2), Deflate_Status::Done);
    assert_eq!(w1.inner(), w2.inner());
}
