use rustyzip::deflate::{Deflator, Inflator};
use rustyzip::engine::{Deflate_Status, Inflate_Status};
use rustyzip::stream::{MemReader, MemWriter};

const DECOMP_BUF_SIZE: usize = 32768;

fn pseudo_random_data(len: usize) -> Vec<u8> {
    // a fixed linear congruential sequence: incompressible enough to
    // exercise the ring, deterministic so the test is repeatable
    let mut x: u64 = 0x2545F4914F6CDD1D;
    let mut out = Vec::with_capacity(len);
    while out.len() < len {
        x = x.wrapping_mul(6364136223846793005).wrapping_add(1442695040888963407);
        out.push((x >> 33) as u8);
    }
    out
}

#[test]
fn test_deflator_alloc() {
    let mut deflator = Deflator::new();
    deflator.free();
}

#[test]
fn test_deflator_alloc_multi_free() {
    let mut deflator = Deflator::new();
    deflator.free();
    deflator.free();
}

#[test]
fn test_deflator_init() {
    let mut deflator = Deflator::new();
    assert_eq!(deflator.init(6, false, false), Deflate_Status::Okay);
}

#[test]
fn test_deflator_reinit() {
    let mut deflator = Deflator::new();
    assert_eq!(deflator.init(6, false, false), Deflate_Status::Okay);
    assert_eq!(deflator.init(6, false, false), Deflate_Status::Okay);
}

#[test]
fn test_deflator_simple() {
    let mut deflator = Deflator::new();
    deflator.init(6, false, false);

    let in_buf = b"ABCDEFGHABCDEFGHABCDEFGH".to_vec();
    let mut out_buf = vec![0u8; 32];
    let (status, in_bytes, out_bytes) =
        deflator.compress_buf(&in_buf, 0, in_buf.len(), &mut out_buf, 0, true);
    assert!(status == Deflate_Status::Okay || status == Deflate_Status::Done);
    deflator.free();

    assert_eq!(in_bytes, in_buf.len());
    assert!(out_bytes > 0 && out_bytes <= in_bytes);
}

#[test]
fn test_deflator_multi_input1() {
    let mut deflator = Deflator::new();
    deflator.init(6, false, false);

    // Original in_buf, compressed in one call
    let in_buf = b"ABCDEFGHABCDEFGHABCDEFGH".to_vec();
    let mut out_buf = vec![0u8; 32];
    let (status, in_bytes, out_bytes) =
        deflator.compress_buf(&in_buf, 0, in_buf.len(), &mut out_buf, 0, true);
    assert!(status == Deflate_Status::Okay || status == Deflate_Status::Done);
    assert_eq!(in_bytes, in_buf.len());
    assert!(out_bytes > 0 && out_bytes <= in_bytes);

    let enc_len = out_bytes;
    let enc_data = out_buf;

    // The same bytes in two parts
    deflator.init(6, false, false);
    let part1 = b"ABCDEFGH".to_vec();
    let mut out_buf = vec![0u8; 32];
    let mut out_offset = 0;
    let (status, _, produced) =
        deflator.compress_buf(&part1, 0, part1.len(), &mut out_buf, out_offset, false);
    assert_eq!(status, Deflate_Status::Okay);
    out_offset += produced;

    let part2 = b"ABCDEFGHABCDEFGH".to_vec();
    let (status, _, produced) =
        deflator.compress_buf(&part2, 0, part2.len(), &mut out_buf, out_offset, true);
    assert_eq!(status, Deflate_Status::Done);

    let enc_len2 = produced;
    let enc_data2 = out_buf;

    assert_eq!(enc_len, enc_len2);
    assert_eq!(enc_data, enc_data2);

    deflator.free();
}

#[test]
fn test_deflator_multi_input2() {
    let mut deflator = Deflator::new();
    deflator.init(6, false, false);

    let in_buf = b"ABCDEFGHABCDEFGHABCDEFGH".to_vec();
    let mut out_buf = vec![0u8; 32];
    let (status, in_bytes, out_bytes) =
        deflator.compress_buf(&in_buf, 0, in_buf.len(), &mut out_buf, 0, true);
    assert!(status == Deflate_Status::Okay || status == Deflate_Status::Done);
    assert_eq!(in_bytes, in_buf.len());
    assert!(out_bytes > 0 && out_bytes <= in_bytes);

    let enc_len = out_bytes;
    let enc_data = out_buf;

    // Same buffer, with in_offset and in_bytes bounding each half.
    deflator.init(6, false, false);
    let mut in_offset = 0;
    let mut out_buf = vec![0u8; 32];
    let mut out_offset = 0;
    let (status, consumed, produced) = deflator.compress_buf(
        &in_buf,
        in_offset,
        in_buf.len() / 2,
        &mut out_buf,
        out_offset,
        false,
    );
    assert_eq!(status, Deflate_Status::Okay);
    in_offset += consumed;
    out_offset += produced;

    let (status, _, produced) = deflator.compress_buf(
        &in_buf,
        in_offset,
        in_buf.len() - in_offset,
        &mut out_buf,
        out_offset,
        true,
    );
    assert_eq!(status, Deflate_Status::Done);

    let enc_len2 = produced;
    let enc_data2 = out_buf;

    assert_eq!(enc_len, enc_len2);
    assert_eq!(enc_data, enc_data2);

    deflator.free();
}

#[test]
fn test_deflator_multi_input3() {
    let mut deflator = Deflator::new();
    deflator.init(6, false, false);

    let in_buf = b"ABCDEFGHABCDEFGHABCDEFGH".to_vec();
    let mut out_buf = vec![0u8; 32];
    let (status, in_bytes, out_bytes) =
        deflator.compress_buf(&in_buf, 0, in_buf.len(), &mut out_buf, 0, true);
    assert!(status == Deflate_Status::Okay || status == Deflate_Status::Done);
    assert_eq!(in_bytes, in_buf.len());
    assert!(out_bytes > 0 && out_bytes <= in_bytes);

    let enc_len = out_bytes;
    let enc_data = out_buf;

    // Two halves, then an empty finishing call.
    deflator.init(6, false, false);
    let mut in_offset = 0;
    let mut out_buf = vec![0u8; 32];
    let mut out_offset = 0;
    let (status, consumed, produced) = deflator.compress_buf(
        &in_buf,
        in_offset,
        in_buf.len() / 2,
        &mut out_buf,
        out_offset,
        false,
    );
    assert_eq!(status, Deflate_Status::Okay);
    in_offset += consumed;
    out_offset += produced;

    let (status, consumed, produced) = deflator.compress_buf(
        &in_buf,
        in_offset,
        in_buf.len() - in_offset,
        &mut out_buf,
        out_offset,
        false,
    );
    assert_eq!(status, Deflate_Status::Okay);
    in_offset += consumed;
    out_offset += produced;
    assert_eq!(in_offset, in_buf.len());

    let (status, _, produced) =
        deflator.compress_buf(&in_buf, in_offset, 0, &mut out_buf, out_offset, true);
    assert_eq!(status, Deflate_Status::Done);

    let enc_len2 = produced;
    let enc_data2 = out_buf;

    assert_eq!(enc_len, enc_len2);
    assert_eq!(enc_data, enc_data2);

    deflator.free();
}

#[test]
fn test_deflator_outbuf_small_outbuf() {
    let mut deflator = Deflator::new();
    deflator.init(6, false, false);

    let in_buf: Vec<u8> = b"ABCDEFGH".repeat(12);
    let mut out_buf = vec![0u8; 4];
    let (status, in_bytes, out_bytes) =
        deflator.compress_buf(&in_buf, 0, in_buf.len(), &mut out_buf, 0, true);
    assert_eq!(status, Deflate_Status::Okay);
    deflator.free();

    // A too-small output buffer truncates: all input is accepted, the
    // buffer is completely filled, and the stream is not Done.
    assert_eq!(in_bytes, in_buf.len());
    assert_eq!(out_bytes, out_buf.len());
}

#[test]
fn test_deflator_stream() {
    let mut deflator = Deflator::new();
    deflator.init(6, false, false);

    let in_buf: Vec<u8> = b"ABCDEFGH".repeat(12);
    let mut out_buf = vec![0u8; 64];
    let (status, _, out_bytes) =
        deflator.compress_buf(&in_buf, 0, in_buf.len(), &mut out_buf, 0, true);
    assert_eq!(status, Deflate_Status::Done);

    let mut mreader = MemReader::new(in_buf);
    let mut mwriter = MemWriter::new();
    deflator.init(6, false, false);
    let status = deflator.compress_pipe_rw(&mut mreader, &mut mwriter);
    assert_eq!(status, Deflate_Status::Done);

    let std_out = &out_buf[0..out_bytes];
    let cmp_buf = mwriter.inner();
    assert_eq!(std_out, &cmp_buf[..]);

    deflator.free();
}

#[test]
fn test_inflator_alloc() {
    let mut inflator = Inflator::new();
    inflator.free();
    inflator.free();
}

#[test]
fn test_inflator_extra_byte_bug() {
    // a complete DEFLATE stream of "ABCDEFGH\r\n" followed by eight
    // trailing bytes that are not part of it
    let comp_buf: Vec<u8> = vec![
        0x73, 0x74, 0x72, 0x76, 0x71, 0x75, 0x73, 0xF7, 0xE0, 0xE5, 0x02, 0x00, 0x94, 0xA6, 0xD7,
        0xD0, 0x0A, 0x00, 0x00, 0x00,
    ];

    let mut inflator = Inflator::new();
    let mut decomp_buf = vec![0u8; DECOMP_BUF_SIZE];
    let (status, taken, decomp_bytes) =
        inflator.decompress_buf(&comp_buf, 0, comp_buf.len(), &mut decomp_buf, 0);
    assert_eq!(status, Inflate_Status::Done);
    assert_eq!(&decomp_buf[0..decomp_bytes], b"ABCDEFGH\r\n");
    // every byte was taken; the ones after the stream's end are the rest
    assert_eq!(taken, comp_buf.len());
    assert_eq!(inflator.get_rest_len(), 8);
    inflator.free();
}

#[test]
fn test_inflator_simple() {
    let mut comp = Deflator::new();
    comp.init(6, false, false);

    let in_buf = b"ABCDEFGH".to_vec();
    let mut comp_buf = vec![0u8; 64];
    let (status, _, comp_bytes) =
        comp.compress_buf(&in_buf, 0, in_buf.len(), &mut comp_buf, 0, true);
    assert!(status == Deflate_Status::Okay || status == Deflate_Status::Done);
    comp.free();

    let mut inflator = Inflator::new();
    let mut decomp_buf = vec![0u8; DECOMP_BUF_SIZE];
    let (status, _, decomp_bytes) =
        inflator.decompress_buf(&comp_buf, 0, comp_bytes, &mut decomp_buf, 0);
    assert_eq!(status, Inflate_Status::Done);
    inflator.free();

    assert_eq!(&decomp_buf[0..decomp_bytes], &in_buf[..]);
}

#[test]
fn test_inflator_big_data_one_pass() {
    let mut comp = Deflator::new();
    comp.init(6, false, false);

    let in_buf = pseudo_random_data(11000);
    let mut comp_buf = vec![0u8; in_buf.len() * 2];
    let (status, _, comp_bytes) =
        comp.compress_buf(&in_buf, 0, in_buf.len(), &mut comp_buf, 0, true);
    assert_eq!(status, Deflate_Status::Done);
    comp.free();

    let mut inflator = Inflator::new();
    let mut decomp_buf = vec![0u8; DECOMP_BUF_SIZE];
    let (status, _, decomp_bytes) =
        inflator.decompress_buf(&comp_buf, 0, comp_bytes, &mut decomp_buf, 0);
    assert_eq!(status, Inflate_Status::Done);
    inflator.free();

    assert_eq!(&decomp_buf[0..decomp_bytes], &in_buf[..]);
}

#[test]
fn test_inflator_single_inbuf_multi_outbuf() {
    let mut comp = Deflator::new();
    comp.init(6, false, false);

    let in_buf = pseudo_random_data(110000);
    let mut comp_buf = vec![0u8; in_buf.len() * 2];
    let (status, _, comp_bytes) =
        comp.compress_buf(&in_buf, 0, in_buf.len(), &mut comp_buf, 0, true);
    assert!(status == Deflate_Status::Okay || status == Deflate_Status::Done);
    comp.free();

    let mut inflator = Inflator::new();
    let de_in_total = comp_bytes;
    let mut de_in_offset = 0;
    let mut decomp_data: Vec<u8> = Vec::new();
    let mut decomp_buf = vec![0u8; DECOMP_BUF_SIZE];
    let decomp_total = decomp_buf.len();
    let mut decomp_offset = 0;
    loop {
        let de_in_bytes = de_in_total - de_in_offset;
        let (status, taken, produced) = inflator.decompress_buf(
            &comp_buf,
            de_in_offset,
            de_in_bytes,
            &mut decomp_buf,
            decomp_offset,
        );
        de_in_offset += taken;
        decomp_offset += produced;

        match status {
            Inflate_Status::Done => {
                decomp_data.extend_from_slice(&decomp_buf[0..decomp_offset]);
                break;
            }
            Inflate_Status::HasMoreOutput => {
                if decomp_offset == decomp_total {
                    decomp_data.extend_from_slice(&decomp_buf);
                    decomp_offset = 0;
                }
            }
            Inflate_Status::NeedsMoreInput => {
                panic!("Decompression unexpected status");
            }
            _ => panic!("Decompression failed"),
        }
    }

    assert_eq!(decomp_data, in_buf);

    inflator.free();
}

#[test]
fn test_inflator_multi_inbuf_multi_outbuf() {
    let mut comp = Deflator::new();
    comp.init(6, false, false);

    let in_buf = pseudo_random_data(110000);
    let mut comp_buf = vec![0u8; in_buf.len() * 2];
    let (status, _, comp_bytes) =
        comp.compress_buf(&in_buf, 0, in_buf.len(), &mut comp_buf, 0, true);
    assert!(status == Deflate_Status::Okay || status == Deflate_Status::Done);
    comp.free();

    let mut inflator = Inflator::new();
    let de_in_total = comp_bytes;
    let de_in_batch_size = 16 * 1024;
    let mut de_in_offset = 0;
    let mut decomp_data: Vec<u8> = Vec::new();
    let mut decomp_buf = vec![0u8; DECOMP_BUF_SIZE];
    let decomp_total = decomp_buf.len();
    let mut decomp_offset = 0;
    loop {
        // limit in_bytes to a smaller batch to simulate multiple in_buf
        let de_in_bytes = std::cmp::min(de_in_total - de_in_offset, de_in_batch_size);
        let (status, taken, produced) = inflator.decompress_buf(
            &comp_buf,
            de_in_offset,
            de_in_bytes,
            &mut decomp_buf,
            decomp_offset,
        );
        de_in_offset += taken;
        decomp_offset += produced;

        match status {
            Inflate_Status::Done => {
                decomp_data.extend_from_slice(&decomp_buf[0..decomp_offset]);
                break;
            }
            Inflate_Status::HasMoreOutput => {
                if decomp_offset == decomp_total {
                    decomp_data.extend_from_slice(&decomp_buf);
                    decomp_offset = 0;
                }
            }
            Inflate_Status::NeedsMoreInput => {}
            _ => panic!("Decompression failed"),
        }
    }

    assert_eq!(decomp_data, in_buf);

    inflator.free();
}

#[test]
fn test_inflator_stream() {
    let mut comp = Deflator::new();
    comp.init(6, false, false);

    let in_buf: Vec<u8> = b"ABCDEFGH".repeat(12);
    let mut out_buf = vec![0u8; 64];
    let (status, _, out_bytes) = comp.compress_buf(&in_buf, 0, in_buf.len(), &mut out_buf, 0, true);
    assert_eq!(status, Deflate_Status::Done);
    let comp_buf = out_buf[0..out_bytes].to_vec();
    comp.free();

    let mut mreader = MemReader::new(comp_buf);
    let mut mwriter = MemWriter::new();
    let mut inflator = Inflator::new();
    let status = inflator.decompress_pipe_rw(&mut mreader, &mut mwriter);
    assert_eq!(status, Inflate_Status::Done);

    let cmp_buf = mwriter.inner();
    assert_eq!(in_buf, cmp_buf);

    inflator.free();
}

#[test]
fn test_inflator_corrupted_data() {
    let mut comp = Deflator::new();
    comp.init(6, false, false);

    let in_buf = b"ABCDEFGH".to_vec();
    let mut comp_buf = vec![0u8; 64];
    let (status, _, comp_bytes) =
        comp.compress_buf(&in_buf, 0, in_buf.len(), &mut comp_buf, 0, true);
    assert!(status == Deflate_Status::Okay || status == Deflate_Status::Done);
    comp.free();

    let mut inflator = Inflator::new();
    let mut decomp_buf = vec![0u8; DECOMP_BUF_SIZE];
    // missing one byte: the stream cannot complete
    let (status, _, _) =
        inflator.decompress_buf(&comp_buf, 0, comp_bytes - 1, &mut decomp_buf, 0);
    assert_ne!(status, Inflate_Status::Done);
    inflator.free();
}

fn decompress_by_read(comp_buf: Vec<u8>, out_len: usize) -> Vec<u8> {
    let mut mreader = MemReader::new(comp_buf);
    let mut inflator = Inflator::new();
    let mut decomp_buf: Vec<u8> = Vec::new();
    loop {
        match inflator.decompress_read(&mut mreader, out_len) {
            Ok(chunk) => {
                if chunk.is_empty() {
                    break;
                }
                decomp_buf.extend_from_slice(&chunk);
            }
            Err(_) => panic!("decompress_read failed"),
        }
    }
    inflator.free();
    decomp_buf
}

#[test]
fn test_inflator_decompress_read_out_len_1() {
    let mut comp = Deflator::new();
    comp.init(6, false, false);
    let in_buf: Vec<u8> = b"ABCDEFGH".repeat(12);
    let mut out_buf = vec![0u8; 64];
    let (status, _, out_bytes) = comp.compress_buf(&in_buf, 0, in_buf.len(), &mut out_buf, 0, true);
    assert_eq!(status, Deflate_Status::Done);
    comp.free();

    assert_eq!(decompress_by_read(out_buf[0..out_bytes].to_vec(), 1), in_buf);
}

#[test]
fn test_inflator_decompress_read_out_len_8() {
    let mut comp = Deflator::new();
    comp.init(6, false, false);
    let in_buf: Vec<u8> = b"ABCDEFGH".repeat(12);
    let mut out_buf = vec![0u8; 64];
    let (status, _, out_bytes) = comp.compress_buf(&in_buf, 0, in_buf.len(), &mut out_buf, 0, true);
    assert_eq!(status, Deflate_Status::Done);
    comp.free();

    assert_eq!(decompress_by_read(out_buf[0..out_bytes].to_vec(), 8), in_buf);
}

#[test]
fn test_inflator_decompress_read_out_len_all() {
    let mut comp = Deflator::new();
    comp.init(6, false, false);
    let in_buf: Vec<u8> = b"ABCDEFGH".repeat(12);
    let mut out_buf = vec![0u8; 64];
    let (status, _, out_bytes) = comp.compress_buf(&in_buf, 0, in_buf.len(), &mut out_buf, 0, true);
    assert_eq!(status, Deflate_Status::Done);
    comp.free();

    let len = in_buf.len();
    assert_eq!(decompress_by_read(out_buf[0..out_bytes].to_vec(), len), in_buf);
}
