use rustyzip::crc32::compute_crc;
use rustyzip::deflate::Deflator;
use rustyzip::stream::MemWriter;
use rustyzip::zip::{CDMetaData, ZipEntry32, ZipError, ZipFile};

fn push_u16(out: &mut Vec<u8>, v: u16) {
    out.extend_from_slice(&v.to_le_bytes());
}

fn push_u32(out: &mut Vec<u8>, v: u32) {
    out.extend_from_slice(&v.to_le_bytes());
}

fn local_header(name: &[u8], method: u16, crc: u32, csize: u32, usize_: u32) -> Vec<u8> {
    let mut out = Vec::new();
    push_u32(&mut out, 0x04034B50);
    push_u16(&mut out, 20);
    push_u16(&mut out, 0);
    push_u16(&mut out, method);
    push_u16(&mut out, 0);
    push_u16(&mut out, 0);
    push_u32(&mut out, crc);
    push_u32(&mut out, csize);
    push_u32(&mut out, usize_);
    push_u16(&mut out, name.len() as u16);
    push_u16(&mut out, 0);
    out.extend_from_slice(name);
    out
}

fn cd_entry(
    name: &[u8],
    method: u16,
    crc: u32,
    csize: u32,
    usize_: u32,
    local_off: u32,
) -> Vec<u8> {
    let mut out = Vec::new();
    push_u32(&mut out, 0x02014B50);
    push_u16(&mut out, 20);
    push_u16(&mut out, 20);
    push_u16(&mut out, 0);
    push_u16(&mut out, method);
    push_u16(&mut out, 0);
    push_u16(&mut out, 0);
    push_u32(&mut out, crc);
    push_u32(&mut out, csize);
    push_u32(&mut out, usize_);
    push_u16(&mut out, name.len() as u16);
    push_u16(&mut out, 0);
    push_u16(&mut out, 0);
    push_u16(&mut out, 0);
    push_u16(&mut out, 0);
    push_u32(&mut out, 0);
    push_u32(&mut out, local_off);
    out.extend_from_slice(name);
    out
}

fn build_archive() -> (Vec<u8>, Vec<u8>, Vec<u8>) {
    let a_data = b"abc".to_vec();
    let a_crc = compute_crc(&a_data, 0, a_data.len());
    let b_data: Vec<u8> = b"ABCDEFGH".repeat(12);
    let b_crc = compute_crc(&b_data, 0, b_data.len());

    let mut deflator = Deflator::with_size_factor(5);
    deflator.init(6, false, false);
    let mut w = MemWriter::new();
    deflator.compress_write(&b_data, true, &mut w);
    let b_comp = w.inner();

    let mut archive = Vec::new();
    let a_local_off = archive.len() as u32;
    archive.extend_from_slice(&local_header(b"a.txt", 0, a_crc, 3, 3));
    archive.extend_from_slice(&a_data);
    let b_local_off = archive.len() as u32;
    archive.extend_from_slice(&local_header(
        b"b.txt",
        8,
        b_crc,
        b_comp.len() as u32,
        b_data.len() as u32,
    ));
    archive.extend_from_slice(&b_comp);

    let cd_off = archive.len() as u32;
    archive.extend_from_slice(&cd_entry(b"a.txt", 0, a_crc, 3, 3, a_local_off));
    archive.extend_from_slice(&cd_entry(
        b"b.txt",
        8,
        b_crc,
        b_comp.len() as u32,
        b_data.len() as u32,
        b_local_off,
    ));
    let cd_size = archive.len() as u32 - cd_off;

    push_u32(&mut archive, 0x06054B50);
    push_u16(&mut archive, 0);
    push_u16(&mut archive, 0);
    push_u16(&mut archive, 2);
    push_u16(&mut archive, 2);
    push_u32(&mut archive, cd_size);
    push_u32(&mut archive, cd_off);
    push_u16(&mut archive, 0);

    (archive, a_data, b_data)
}

fn read_whole(zip: &ZipFile, entry: &ZipEntry32) -> Vec<u8> {
    let mut reader = zip.zip_entry_reader(entry).unwrap();
    let mut out = Vec::new();
    loop {
        let chunk = reader.read(64).unwrap();
        if chunk.is_empty() {
            break;
        }
        out.extend_from_slice(&chunk);
    }
    out
}

#[test]
fn two_entry_archive_reads_back() {
    let (archive, a_data, b_data) = build_archive();
    let zip = ZipFile::open(archive).unwrap();
    assert_eq!(zip.cd_metadata.cd_entry_count, 2);
    let entries = zip.get_zip_entries().unwrap();
    assert_eq!(entries.len(), 2);
    assert_eq!(entries[0].file_name, Some(b"a.txt".to_vec()));
    assert_eq!(entries[1].file_name, Some(b"b.txt".to_vec()));
    assert_eq!(entries[0].compression_method, 0);
    assert_eq!(entries[1].compression_method, 8);

    assert_eq!(read_whole(&zip, &entries[0]), a_data);
    assert_eq!(read_whole(&zip, &entries[1]), b_data);
}

#[test]
fn entry_iterator_walks_all_entries() {
    let (archive, _, _) = build_archive();
    let zip = ZipFile::open(archive).unwrap();
    let mut it = zip.zip_entry_iter();
    let first = it.next(&zip).unwrap();
    assert_eq!(first.file_name, Some(b"a.txt".to_vec()));
    let second = it.next(&zip).unwrap();
    assert_eq!(second.file_name, Some(b"b.txt".to_vec()));
    assert!(it.next(&zip).is_none());
    assert_eq!(it.size_hint(&zip), (0, 0));
}

#[test]
fn zip_errors_are_exact() {
    assert!(matches!(ZipFile::open(vec![1, 2, 3]), Err(ZipError::TooSmall)));
    assert!(matches!(ZipFile::open(vec![0u8; 64]), Err(ZipError::MissingEocd)));

    let (mut archive, _, _) = build_archive();
    // corrupt the first central-directory signature
    let n = archive.len();
    let cd_off =
        u32::from_le_bytes([archive[n - 6], archive[n - 5], archive[n - 4], archive[n - 3]])
            as usize;
    archive[cd_off] ^= 0xFF;
    let zip = ZipFile::open(archive).unwrap();
    assert!(matches!(zip.get_zip_entries(), Err(ZipError::BadEntrySignature)));
}

#[test]
fn corrupt_entry_crc_is_fatal() {
    let (archive, _, _) = build_archive();
    let zip = ZipFile::open(archive).unwrap();
    let entries = zip.get_zip_entries().unwrap();
    let mut wrong = entries[0].clone();
    wrong.crc32 ^= 1;
    let mut reader = zip.zip_entry_reader(&wrong).unwrap();
    let mut err = None;
    loop {
        match reader.read(64) {
            Ok(chunk) => {
                if chunk.is_empty() {
                    break;
                }
            }
            Err(e) => {
                err = Some(e);
                break;
            }
        }
    }
    assert!(matches!(err, Some(ZipError::CrcMismatch)));
}

#[test]
fn unsupported_method_is_rejected() {
    let (archive, _, _) = build_archive();
    let zip = ZipFile::open(archive).unwrap();
    let entries = zip.get_zip_entries().unwrap();
    let mut wrong = entries[0].clone();
    wrong.compression_method = 99;
    assert!(matches!(zip.zip_entry_reader(&wrong), Err(ZipError::UnsupportedMethod)));
}

#[test]
fn eocd_metadata_fields() {
    let (archive, _, _) = build_archive();
    let mut meta = CDMetaData::new();
    assert!(meta.read_cd_metadata(&archive).is_ok());
    assert_eq!(meta.disk_number, 0);
    assert_eq!(meta.cd_entry_count, 2);
    assert_eq!(meta.file_size, archive.len() as u64);
}

#[test]
fn data_descriptor_supplies_the_crc() {
    // a streaming entry: flag bit 3 set, the true CRC only in the data
    // descriptor after the compressed bytes, and a wrong CRC in the
    // central directory to show the descriptor is the one used
    let data = b"hello stream".to_vec();
    let crc = compute_crc(&data, 0, data.len());
    let mut deflator = Deflator::with_size_factor(5);
    deflator.init(6, false, false);
    let mut w = MemWriter::new();
    deflator.compress_write(&data, true, &mut w);
    let comp = w.inner();

    let mut archive = Vec::new();
    push_u32(&mut archive, 0x04034B50);
    push_u16(&mut archive, 20);
    push_u16(&mut archive, 8); // general flag bit 3: sizes in descriptor
    push_u16(&mut archive, 8); // deflate
    push_u16(&mut archive, 0);
    push_u16(&mut archive, 0);
    push_u32(&mut archive, 0);
    push_u32(&mut archive, comp.len() as u32);
    push_u32(&mut archive, data.len() as u32);
    push_u16(&mut archive, 5);
    push_u16(&mut archive, 0);
    archive.extend_from_slice(b"s.txt");
    archive.extend_from_slice(&comp);
    push_u32(&mut archive, 0x08074B50);
    push_u32(&mut archive, crc);
    push_u32(&mut archive, comp.len() as u32);
    push_u32(&mut archive, data.len() as u32);
    let cd_off = archive.len() as u32;
    let mut cd = cd_entry(b"s.txt", 8, crc ^ 1, comp.len() as u32, data.len() as u32, 0);
    cd[8] = 8; // flag bit 3 in the central directory too
    archive.extend_from_slice(&cd);
    let cd_size = archive.len() as u32 - cd_off;
    push_u32(&mut archive, 0x06054B50);
    push_u16(&mut archive, 0);
    push_u16(&mut archive, 0);
    push_u16(&mut archive, 1);
    push_u16(&mut archive, 1);
    push_u32(&mut archive, cd_size);
    push_u32(&mut archive, cd_off);
    push_u16(&mut archive, 0);

    let zip = ZipFile::open(archive).unwrap();
    let entries = zip.get_zip_entries().unwrap();
    assert!(entries[0].has_data_descriptor());
    let mut reader = zip.zip_entry_reader(&entries[0]).unwrap();
    let mut out = Vec::new();
    loop {
        let chunk = reader.read(64).unwrap();
        if chunk.is_empty() {
            break;
        }
        out.extend_from_slice(&chunk);
    }
    assert_eq!(out, data);
}

#[test]
fn bad_local_header_is_rejected() {
    let (mut archive, _, _) = build_archive();
    archive[0] ^= 0xFF;
    let zip = ZipFile::open(archive).unwrap();
    let entries = zip.get_zip_entries().unwrap();
    assert!(matches!(
        zip.zip_entry_reader(&entries[0]),
        Err(ZipError::BadLocalSignature)
    ));
}

#[test]
fn short_central_directory_is_rejected() {
    let (archive, _, _) = build_archive();
    // cut the archive inside the central directory and move the record
    // to claim entries past the end
    let mut meta = CDMetaData::new();
    meta.read_cd_metadata(&archive).unwrap();
    let cut = archive[..(meta.cd_entry_begin_offset as usize + 10)].to_vec();
    let mut entry = ZipEntry32::new();
    assert!(matches!(
        entry.unpack_zip_entry(&cut, meta.cd_entry_begin_offset as usize),
        Err(ZipError::ShortData)
    ));
}
