//! The zip archive reader: tail scan for the end-of-central-directory
//! record, central-directory and local-file-header parsing, and per-entry
//! reading of STORE and DEFLATE data through the engine, with a CRC-32
//! check over the read plaintext.
//!
//! The archive is held as a byte vector; all multi-byte fields are
//! little-endian, offsets are 32-bit, and only single-disk archives are
//! handled.

use vstd::prelude::*;

use crate::crc32::crc32_of;
use crate::crc32::lemma_crc32_update_append;
use crate::crc32::update_crc;
use crate::deflate::Inflator;
use crate::engine::inflate_complete;
use crate::engine::inflate_of;
use crate::ioutil::le16_at;
use crate::ioutil::le32_at;
use crate::stream::ByteReader;
use crate::stream::MemReader;

verus! {

/// Signature of the end-of-central-directory record.
pub const CD_METADATA_MAGIC: u32 = 0x06054B50;

/// Signature of a central-directory file header.
pub const CD_HEADER_MAGIC: u32 = 0x02014B50;

/// Signature of a local file header.
pub const LOCAL_HEADER_MAGIC: u32 = 0x04034B50;

/// Signature of the optional data descriptor.
pub const LOCAL_DESC_MAGIC: u32 = 0x08074B50;

/// Fixed size of the end-of-central-directory record.
pub const CD_METADATA_SIZE: usize = 22;

/// Largest archive comment, bounding the tail scan.
pub const MAX_COMMENT_SIZE: usize = 0xFFFF;

/// Fixed size of a central-directory file header.
pub const CD_FILE_HEADER_SIZE: usize = 46;

/// Fixed size of a local file header.
pub const LOCAL_FILE_HEADER_SIZE: usize = 30;

/// Size of the data descriptor without its optional signature.
pub const DATA_DESCRIPTOR_SIZE: usize = 12;

/// The STORE compression method.
pub const METHOD_STORE: u16 = 0;

/// The DEFLATE compression method.
pub const METHOD_DEFLATE: u16 = 8;

/// Errors of the zip reader.
#[derive(Clone, Copy, Debug, PartialEq, Eq, Structural)]
pub enum ZipError {
    /// The file is too small to be a zip archive.
    TooSmall,
    /// No end-of-central-directory signature in the tail window.
    MissingEocd,
    /// A central-directory entry does not start with its signature.
    BadEntrySignature,
    /// A local file header does not start with its signature.
    BadLocalSignature,
    /// A record runs past the end of the data.
    ShortData,
    /// The entry uses a compression method other than STORE or DEFLATE.
    UnsupportedMethod,
    /// The computed CRC-32 of the entry data does not match the stored one.
    CrcMismatch,
    /// The engine reported a decompression failure.
    DecompressFailed,
}

impl ZipError {
    /// A short description of the error.
    pub fn text(&self) -> (r: &'static str) {
        match self {
            ZipError::TooSmall => "file too small to be a valid zip file",
            ZipError::MissingEocd => "zip file central directory signature missing",
            ZipError::BadEntrySignature => "zip file entry signature mismatched",
            ZipError::BadLocalSignature => "zip local file header signature mismatched",
            ZipError::ShortData => "zip record does not have enough data",
            ZipError::UnsupportedMethod => "unsupported compression method",
            ZipError::CrcMismatch => "the computed crc does not match the stored crc",
            ZipError::DecompressFailed => "failed to decompress entry data",
        }
    }
}

/// Whether the end-of-central-directory signature sits at `p` in `s`.
pub open spec fn eocd_magic_at(s: Seq<u8>, p: int) -> bool {
    &&& 0 <= p
    &&& p + 4 <= s.len()
    &&& le32_at(s, p) == CD_METADATA_MAGIC
}

/// The first offset of the tail window scanned for the record.
pub open spec fn eocd_scan_start(len: int) -> int {
    if len > 22 + 0xFFFF {
        len - (22 + 0xFFFF)
    } else {
        0
    }
}

/// The archive offset of the record following the central-directory
/// entry at `p`.
pub open spec fn cd_next(data: Seq<u8>, p: int) -> int {
    p + 46 + le16_at(data, p + 28) + le16_at(data, p + 30) + le16_at(data, p + 32)
}

/// The archive offset of the `i`-th central-directory entry, walking
/// from `start`.
pub open spec fn cd_entry_offset(data: Seq<u8>, start: int, i: int) -> int
    decreases i,
{
    if i <= 0 {
        start
    } else {
        cd_next(data, cd_entry_offset(data, start, i - 1))
    }
}

/// A whole central-directory record (signature, fixed part and
/// variable fields) lies within `data` at `p`.
pub open spec fn cd_fits(data: Seq<u8>, p: int) -> bool {
    &&& 0 <= p
    &&& p + 46 <= data.len()
    &&& le32_at(data, p) == CD_HEADER_MAGIC
    &&& cd_next(data, p) <= data.len()
}

/// The entry's local file header and whole data window lie within
/// `data`: the signature at the recorded offset, and the compressed
/// bytes after the header's fixed and variable parts.
pub open spec fn local_window_fits(data: Seq<u8>, lho: int, csize: int) -> bool {
    &&& 0 <= lho
    &&& lho + 30 <= data.len()
    &&& le32_at(data, lho) == LOCAL_HEADER_MAGIC
    &&& lho + 30 + le16_at(data, lho + 26) + le16_at(data, lho + 28) + csize <= data.len()
}

/// The entry `e` is exactly the central-directory record parsed at `p`:
/// every fixed field is the little-endian value at its offset and the
/// variable-length fields are the bytes that follow.
pub open spec fn cd_entry_at(data: Seq<u8>, p: int, e: ZipEntry32) -> bool {
    let nl = le16_at(data, p + 28) as int;
    let el = le16_at(data, p + 30) as int;
    let cl = le16_at(data, p + 32) as int;
    &&& 0 <= p && p + 46 <= data.len()
    &&& cd_next(data, p) <= data.len()
    &&& le32_at(data, p) == CD_HEADER_MAGIC
    &&& e.version_made_by == le16_at(data, p + 4)
    &&& e.version_needed == le16_at(data, p + 6)
    &&& e.general_flag == le16_at(data, p + 8)
    &&& e.compression_method == le16_at(data, p + 10)
    &&& e.modified_time == le16_at(data, p + 12)
    &&& e.modified_date == le16_at(data, p + 14)
    &&& e.crc32 == le32_at(data, p + 16)
    &&& e.compressed_size == le32_at(data, p + 20)
    &&& e.uncompressed_size == le32_at(data, p + 24)
    &&& e.file_name_length == nl
    &&& e.extra_field_length == el
    &&& e.file_comment_length == cl
    &&& e.disk_number_start == le16_at(data, p + 34)
    &&& e.internal_file_attributes == le16_at(data, p + 36)
    &&& e.external_file_attributes == le32_at(data, p + 38)
    &&& e.local_header_offset == le32_at(data, p + 42)
    &&& (nl > 0 ==> e.file_name is Some && e.file_name.unwrap()@ == data.subrange(
        p + 46,
        p + 46 + nl,
    ))
    &&& (el > 0 ==> e.extra_field is Some && e.extra_field.unwrap()@ == data.subrange(
        p + 46 + nl,
        p + 46 + nl + el,
    ))
    &&& (cl > 0 ==> e.file_comment is Some && e.file_comment.unwrap()@ == data.subrange(
        p + 46 + nl + el,
        p + 46 + nl + el + cl,
    ))
}

/// A zip file's central-directory metadata, located near the end of the
/// file.
#[derive(Clone)]
pub struct CDMetaData {
    pub disk_number: u16,
    pub cd_disk_number: u16,
    pub cd_entry_count_on_disk: u16,
    pub cd_entry_count: u16,
    pub cd_size: u32,
    pub cd_entry_begin_offset: u32,
    pub comment_length: u16,
    pub comment: Option<Vec<u8>>,
    pub file_size: u64,
}

impl CDMetaData {
    /// A CDMetaData with zeroed fields.
    pub fn new() -> (r: CDMetaData)
        ensures
            r.cd_entry_count == 0 && r.cd_size == 0 && r.cd_entry_begin_offset == 0,
            r.comment is None && r.file_size == 0,
    {
        CDMetaData {
            disk_number: 0,
            cd_disk_number: 0,
            cd_entry_count_on_disk: 0,
            cd_entry_count: 0,
            cd_size: 0,
            cd_entry_begin_offset: 0,
            comment_length: 0,
            comment: None,
            file_size: 0,
        }
    }

    /// Scan the tail window of the archive forward for the first
    /// end-of-central-directory signature and take the record's fields
    /// from it. Fails exactly when the file is too small or no
    /// signature with room for the fixed record is found.
    pub fn read_cd_metadata(&mut self, data: &Vec<u8>) -> (r: Result<(), ZipError>)
        ensures
            (r == Result::<(), ZipError>::Err(ZipError::TooSmall)) <==> data@.len() < 22,
            (r == Result::<(), ZipError>::Err(ZipError::MissingEocd)) <==> (data@.len() >= 22 && (
            forall|q: int|
                eocd_scan_start(data@.len() as int) <= q <= data@.len() - 22 ==> !eocd_magic_at(
                    data@,
                    q,
                ))),
            r is Ok <==> (data@.len() >= 22 && (exists|q: int|
                eocd_scan_start(data@.len() as int) <= q <= data@.len() - 22 && eocd_magic_at(
                    data@,
                    q,
                ))),
            r is Ok ==> (exists|p: int|
                {
                    &&& eocd_scan_start(data@.len() as int) <= p <= data@.len() - 22
                    &&& #[trigger] eocd_magic_at(data@, p)
                    &&& (forall|q: int|
                        eocd_scan_start(data@.len() as int) <= q < p ==> !eocd_magic_at(data@, q))
                    &&& final(self).disk_number == le16_at(data@, p + 4)
                    &&& final(self).cd_disk_number == le16_at(data@, p + 6)
                    &&& final(self).cd_entry_count_on_disk == le16_at(data@, p + 8)
                    &&& final(self).cd_entry_count == le16_at(data@, p + 10)
                    &&& final(self).cd_size == le32_at(data@, p + 12)
                    &&& final(self).cd_entry_begin_offset == le32_at(data@, p + 16)
                    &&& final(self).comment_length == le16_at(data@, p + 20)
                    &&& final(self).file_size == data@.len()
                }),
    {
        let len = data.len();
        if len < CD_METADATA_SIZE {
            return Err(ZipError::TooSmall);
        }
        self.file_size = len as u64;
        let scan_start = if len > CD_METADATA_SIZE + MAX_COMMENT_SIZE {
            len - (CD_METADATA_SIZE + MAX_COMMENT_SIZE)
        } else {
            0
        };
        let mut p = scan_start;
        while p <= len - CD_METADATA_SIZE
            invariant
                scan_start == eocd_scan_start(data@.len() as int),
                scan_start <= p <= data@.len() - 22 + 1,
                22 <= len == data@.len(),
                forall|q: int| scan_start <= q < p ==> !eocd_magic_at(data@, q),
                self.file_size == data@.len(),
            decreases len - p,
        {
            if crate::ioutil::unpack_u32_le(data, p) == CD_METADATA_MAGIC {
                self.disk_number = crate::ioutil::unpack_u16_le(data, p + 4);
                self.cd_disk_number = crate::ioutil::unpack_u16_le(data, p + 6);
                self.cd_entry_count_on_disk = crate::ioutil::unpack_u16_le(data, p + 8);
                self.cd_entry_count = crate::ioutil::unpack_u16_le(data, p + 10);
                self.cd_size = crate::ioutil::unpack_u32_le(data, p + 12);
                self.cd_entry_begin_offset = crate::ioutil::unpack_u32_le(data, p + 16);
                self.comment_length = crate::ioutil::unpack_u16_le(data, p + 20);
                if self.comment_length > 0 {
                    let cstart = p + CD_METADATA_SIZE;
                    let cwant = self.comment_length as usize;
                    let cend = if cwant <= len - cstart {
                        cstart + cwant
                    } else {
                        len
                    };
                    self.comment = Some(crate::deflate::copy_range(data, cstart, cend));
                }
                proof {
                    assert(eocd_magic_at(data@, p as int));
                }
                return Ok(());
            }
            p = p + 1;
        }
        Err(ZipError::MissingEocd)
    }
}

/// The local file header of an entry.
#[derive(Clone)]
pub struct LocalFileHeader {
    pub version_needed: u16,
    pub general_flag: u16,
    pub compression_method: u16,
    pub modified_time: u16,
    pub modified_date: u16,
    pub crc32: u32,
    pub compressed_size: u32,
    pub uncompressed_size: u32,
    pub file_name_length: u16,
    pub extra_field_length: u16,
    pub file_name: Option<Vec<u8>>,
    pub extra_field: Option<Vec<u8>>,
}

impl LocalFileHeader {
    /// A LocalFileHeader with zeroed fields.
    pub fn new() -> (r: LocalFileHeader)
        ensures
            r.file_name_length == 0 && r.extra_field_length == 0,
            r.file_name is None && r.extra_field is None,
    {
        LocalFileHeader {
            version_needed: 0,
            general_flag: 0,
            compression_method: 0,
            modified_time: 0,
            modified_date: 0,
            crc32: 0,
            compressed_size: 0,
            uncompressed_size: 0,
            file_name_length: 0,
            extra_field_length: 0,
            file_name: None,
            extra_field: None,
        }
    }

    /// Take the 30 fixed bytes of a local file header from `buf` at
    /// `offset`. Fails exactly on a missing signature or short data.
    pub fn unpack_header(&mut self, buf: &Vec<u8>, offset: usize) -> (r: Result<usize, ZipError>)
        ensures
            (r == Result::<usize, ZipError>::Err(ZipError::ShortData)) <==> offset + 30
                > buf@.len(),
            (r == Result::<usize, ZipError>::Err(ZipError::BadLocalSignature)) <==> (offset + 30
                <= buf@.len() && le32_at(buf@, offset as int) != LOCAL_HEADER_MAGIC),
            r is Ok <==> (offset + 30 <= buf@.len() && le32_at(buf@, offset as int)
                == LOCAL_HEADER_MAGIC),
            r is Ok ==> ({
                let p = offset as int;
                &&& r.unwrap() == offset + 30
                &&& final(self).version_needed == le16_at(buf@, p + 4)
                &&& final(self).general_flag == le16_at(buf@, p + 6)
                &&& final(self).compression_method == le16_at(buf@, p + 8)
                &&& final(self).modified_time == le16_at(buf@, p + 10)
                &&& final(self).modified_date == le16_at(buf@, p + 12)
                &&& final(self).crc32 == le32_at(buf@, p + 14)
                &&& final(self).compressed_size == le32_at(buf@, p + 18)
                &&& final(self).uncompressed_size == le32_at(buf@, p + 22)
                &&& final(self).file_name_length == le16_at(buf@, p + 26)
                &&& final(self).extra_field_length == le16_at(buf@, p + 28)
            }),
    {
        if offset > buf.len() || buf.len() - offset < LOCAL_FILE_HEADER_SIZE {
            return Err(ZipError::ShortData);
        }
        if crate::ioutil::unpack_u32_le(buf, offset) != LOCAL_HEADER_MAGIC {
            return Err(ZipError::BadLocalSignature);
        }
        self.version_needed = crate::ioutil::unpack_u16_le(buf, offset + 4);
        self.general_flag = crate::ioutil::unpack_u16_le(buf, offset + 6);
        self.compression_method = crate::ioutil::unpack_u16_le(buf, offset + 8);
        self.modified_time = crate::ioutil::unpack_u16_le(buf, offset + 10);
        self.modified_date = crate::ioutil::unpack_u16_le(buf, offset + 12);
        self.crc32 = crate::ioutil::unpack_u32_le(buf, offset + 14);
        self.compressed_size = crate::ioutil::unpack_u32_le(buf, offset + 18);
        self.uncompressed_size = crate::ioutil::unpack_u32_le(buf, offset + 22);
        self.file_name_length = crate::ioutil::unpack_u16_le(buf, offset + 26);
        self.extra_field_length = crate::ioutil::unpack_u16_le(buf, offset + 28);
        Ok(offset + LOCAL_FILE_HEADER_SIZE)
    }

    /// Take the variable-length name and extra field from `buf` at
    /// `offset`, whose lengths the fixed part gave.
    pub fn unpack_header_rest(&mut self, buf: &Vec<u8>, offset: usize) -> (r: Result<
        usize,
        ZipError,
    >)
        ensures
            (r is Ok) <==> offset + old(self).file_name_length + old(self).extra_field_length
                <= buf@.len(),
            r is Err ==> r == Result::<usize, ZipError>::Err(ZipError::ShortData),
            r is Ok ==> ({
                let p = offset as int;
                let nl = old(self).file_name_length as int;
                let el = old(self).extra_field_length as int;
                &&& r.unwrap() == offset + nl + el
                &&& (nl > 0 ==> final(self).file_name is Some && final(self).file_name.unwrap()@
                    == buf@.subrange(p, p + nl))
                &&& (el > 0 ==> final(self).extra_field is Some && final(self).extra_field.unwrap()@ == buf@.subrange(p + nl, p + nl + el))
            }),
            final(self).version_needed == old(self).version_needed,
            final(self).general_flag == old(self).general_flag,
            final(self).compression_method == old(self).compression_method,
            final(self).modified_time == old(self).modified_time,
            final(self).modified_date == old(self).modified_date,
            final(self).crc32 == old(self).crc32,
            final(self).compressed_size == old(self).compressed_size,
            final(self).uncompressed_size == old(self).uncompressed_size,
            final(self).file_name_length == old(self).file_name_length,
            final(self).extra_field_length == old(self).extra_field_length,
    {
        let nl = self.file_name_length as usize;
        let el = self.extra_field_length as usize;
        if offset > buf.len() || buf.len() - offset < nl || buf.len() - offset - nl < el {
            return Err(ZipError::ShortData);
        }
        let mut off = offset;
        if nl > 0 {
            self.file_name = Some(crate::deflate::copy_range(buf, off, off + nl));
            off = off + nl;
        }
        if el > 0 {
            self.extra_field = Some(crate::deflate::copy_range(buf, off, off + el));
            off = off + el;
        }
        Ok(offset + nl + el)
    }

    /// The length of the variable part of this header.
    pub fn get_rest_length(&self) -> (r: usize)
        ensures
            r == self.file_name_length + self.extra_field_length,
    {
        self.file_name_length as usize + self.extra_field_length as usize
    }

    /// The whole length of this header, fixed and variable parts.
    pub fn get_total_length(&self) -> (r: usize)
        ensures
            r == 30 + self.file_name_length + self.extra_field_length,
    {
        LOCAL_FILE_HEADER_SIZE + self.get_rest_length()
    }
}

/// One entry of the central directory, with its local header once read.
#[derive(Clone)]
pub struct ZipEntry32 {
    pub version_made_by: u16,
    pub version_needed: u16,
    pub general_flag: u16,
    pub compression_method: u16,
    pub modified_time: u16,
    pub modified_date: u16,
    pub crc32: u32,
    pub compressed_size: u32,
    pub uncompressed_size: u32,
    pub file_name_length: u16,
    pub extra_field_length: u16,
    pub file_comment_length: u16,
    pub disk_number_start: u16,
    pub internal_file_attributes: u16,
    pub external_file_attributes: u32,
    pub local_header_offset: u32,
    pub file_name: Option<Vec<u8>>,
    pub extra_field: Option<Vec<u8>>,
    pub file_comment: Option<Vec<u8>>,
    pub local_header: LocalFileHeader,
}

impl ZipEntry32 {
    /// A ZipEntry32 with zeroed fields.
    pub fn new() -> (r: ZipEntry32)
        ensures
            r.file_name is None && r.extra_field is None && r.file_comment is None,
            r.compressed_size == 0 && r.uncompressed_size == 0,
    {
        ZipEntry32 {
            version_made_by: 0,
            version_needed: 0,
            general_flag: 0,
            compression_method: 0,
            modified_time: 0,
            modified_date: 0,
            crc32: 0,
            compressed_size: 0,
            uncompressed_size: 0,
            file_name_length: 0,
            extra_field_length: 0,
            file_comment_length: 0,
            disk_number_start: 0,
            internal_file_attributes: 0,
            external_file_attributes: 0,
            local_header_offset: 0,
            file_name: None,
            extra_field: None,
            file_comment: None,
            local_header: LocalFileHeader::new(),
        }
    }

    /// Take the 46 fixed bytes of a central-directory entry from `buf`
    /// at `offset`. Fails exactly on a missing signature or short data.
    pub fn unpack_zip_entry(&mut self, buf: &Vec<u8>, offset: usize) -> (r: Result<usize, ZipError>)
        ensures
            (r == Result::<usize, ZipError>::Err(ZipError::ShortData)) <==> offset + 46
                > buf@.len(),
            (r == Result::<usize, ZipError>::Err(ZipError::BadEntrySignature)) <==> (offset + 46
                <= buf@.len() && le32_at(buf@, offset as int) != CD_HEADER_MAGIC),
            r is Ok <==> (offset + 46 <= buf@.len() && le32_at(buf@, offset as int)
                == CD_HEADER_MAGIC),
            r is Ok ==> ({
                let p = offset as int;
                &&& r.unwrap() == offset + 46
                &&& final(self).version_made_by == le16_at(buf@, p + 4)
                &&& final(self).version_needed == le16_at(buf@, p + 6)
                &&& final(self).general_flag == le16_at(buf@, p + 8)
                &&& final(self).compression_method == le16_at(buf@, p + 10)
                &&& final(self).modified_time == le16_at(buf@, p + 12)
                &&& final(self).modified_date == le16_at(buf@, p + 14)
                &&& final(self).crc32 == le32_at(buf@, p + 16)
                &&& final(self).compressed_size == le32_at(buf@, p + 20)
                &&& final(self).uncompressed_size == le32_at(buf@, p + 24)
                &&& final(self).file_name_length == le16_at(buf@, p + 28)
                &&& final(self).extra_field_length == le16_at(buf@, p + 30)
                &&& final(self).file_comment_length == le16_at(buf@, p + 32)
                &&& final(self).disk_number_start == le16_at(buf@, p + 34)
                &&& final(self).internal_file_attributes == le16_at(buf@, p + 36)
                &&& final(self).external_file_attributes == le32_at(buf@, p + 38)
                &&& final(self).local_header_offset == le32_at(buf@, p + 42)
            }),
    {
        if offset > buf.len() || buf.len() - offset < CD_FILE_HEADER_SIZE {
            return Err(ZipError::ShortData);
        }
        if crate::ioutil::unpack_u32_le(buf, offset) != CD_HEADER_MAGIC {
            return Err(ZipError::BadEntrySignature);
        }
        self.version_made_by = crate::ioutil::unpack_u16_le(buf, offset + 4);
        self.version_needed = crate::ioutil::unpack_u16_le(buf, offset + 6);
        self.general_flag = crate::ioutil::unpack_u16_le(buf, offset + 8);
        self.compression_method = crate::ioutil::unpack_u16_le(buf, offset + 10);
        self.modified_time = crate::ioutil::unpack_u16_le(buf, offset + 12);
        self.modified_date = crate::ioutil::unpack_u16_le(buf, offset + 14);
        self.crc32 = crate::ioutil::unpack_u32_le(buf, offset + 16);
        self.compressed_size = crate::ioutil::unpack_u32_le(buf, offset + 20);
        self.uncompressed_size = crate::ioutil::unpack_u32_le(buf, offset + 24);
        self.file_name_length = crate::ioutil::unpack_u16_le(buf, offset + 28);
        self.extra_field_length = crate::ioutil::unpack_u16_le(buf, offset + 30);
        self.file_comment_length = crate::ioutil::unpack_u16_le(buf, offset + 32);
        self.disk_number_start = crate::ioutil::unpack_u16_le(buf, offset + 34);
        self.internal_file_attributes = crate::ioutil::unpack_u16_le(buf, offset + 36);
        self.external_file_attributes = crate::ioutil::unpack_u32_le(buf, offset + 38);
        self.local_header_offset = crate::ioutil::unpack_u32_le(buf, offset + 42);
        Ok(offset + CD_FILE_HEADER_SIZE)
    }

    /// The combined length of the variable name, extra and comment
    /// fields of this entry.
    pub fn get_extra_length(&self) -> (r: usize)
        ensures
            r == self.file_name_length + self.extra_field_length + self.file_comment_length,
    {
        self.file_name_length as usize + self.extra_field_length as usize
            + self.file_comment_length as usize
    }

    /// Take the variable-length name, extra field and comment from
    /// `buf` at `offset`, whose lengths the fixed part gave.
    pub fn unpack_zip_entry_extra(&mut self, buf: &Vec<u8>, offset: usize) -> (r: Result<
        usize,
        ZipError,
    >)
        ensures
            (r is Ok) <==> offset + old(self).file_name_length + old(self).extra_field_length
                + old(self).file_comment_length <= buf@.len(),
            r is Err ==> r == Result::<usize, ZipError>::Err(ZipError::ShortData),
            r is Ok ==> ({
                let p = offset as int;
                let nl = old(self).file_name_length as int;
                let el = old(self).extra_field_length as int;
                let cl = old(self).file_comment_length as int;
                &&& r.unwrap() == offset + nl + el + cl
                &&& (nl > 0 ==> final(self).file_name is Some && final(self).file_name.unwrap()@
                    == buf@.subrange(p, p + nl))
                &&& (el > 0 ==> final(self).extra_field is Some && final(self).extra_field.unwrap()@ == buf@.subrange(p + nl, p + nl + el))
                &&& (cl > 0 ==> final(self).file_comment is Some && final(self).file_comment.unwrap()@ == buf@.subrange(p + nl + el, p + nl + el + cl))
            }),
            final(self).version_made_by == old(self).version_made_by,
            final(self).version_needed == old(self).version_needed,
            final(self).general_flag == old(self).general_flag,
            final(self).compression_method == old(self).compression_method,
            final(self).modified_time == old(self).modified_time,
            final(self).modified_date == old(self).modified_date,
            final(self).crc32 == old(self).crc32,
            final(self).compressed_size == old(self).compressed_size,
            final(self).uncompressed_size == old(self).uncompressed_size,
            final(self).local_header_offset == old(self).local_header_offset,
            final(self).file_name_length == old(self).file_name_length,
            final(self).extra_field_length == old(self).extra_field_length,
            final(self).file_comment_length == old(self).file_comment_length,
            final(self).disk_number_start == old(self).disk_number_start,
            final(self).internal_file_attributes == old(self).internal_file_attributes,
            final(self).external_file_attributes == old(self).external_file_attributes,
            final(self).local_header == old(self).local_header,
    {
        let nl = self.file_name_length as usize;
        let el = self.extra_field_length as usize;
        let cl = self.file_comment_length as usize;
        if offset > buf.len() || buf.len() - offset < nl || buf.len() - offset - nl < el
            || buf.len() - offset - nl - el < cl {
            return Err(ZipError::ShortData);
        }
        let mut off = offset;
        if nl > 0 {
            self.file_name = Some(crate::deflate::copy_range(buf, off, off + nl));
            off = off + nl;
        }
        if el > 0 {
            self.extra_field = Some(crate::deflate::copy_range(buf, off, off + el));
            off = off + el;
        }
        if cl > 0 {
            self.file_comment = Some(crate::deflate::copy_range(buf, off, off + cl));
            off = off + cl;
        }
        Ok(offset + nl + el + cl)
    }

    /// Take the CRC-32 and sizes from a data descriptor, with or
    /// without its optional signature.
    pub fn unpack_data_descriptor(&mut self, buf: &Vec<u8>) -> (r: Result<(), ZipError>)
        ensures
            (r is Ok) <==> (buf@.len() >= 12 && (le32_at(buf@, 0) != LOCAL_DESC_MAGIC
                || buf@.len() >= 16)),
            r is Err ==> r == Result::<(), ZipError>::Err(ZipError::ShortData),
            r is Ok ==> ({
                let base: int = if le32_at(buf@, 0) == LOCAL_DESC_MAGIC {
                    4int
                } else {
                    0int
                };
                &&& final(self).crc32 == le32_at(buf@, base)
                &&& final(self).compressed_size == le32_at(buf@, base + 4)
                &&& final(self).uncompressed_size == le32_at(buf@, base + 8)
            }),
            final(self).compression_method == old(self).compression_method,
            final(self).general_flag == old(self).general_flag,
            r is Err ==> *final(self) == *old(self),
    {
        if buf.len() < DATA_DESCRIPTOR_SIZE {
            return Err(ZipError::ShortData);
        }
        let base: usize = if crate::ioutil::unpack_u32_le(buf, 0) == LOCAL_DESC_MAGIC {
            if buf.len() < DATA_DESCRIPTOR_SIZE + 4 {
                return Err(ZipError::ShortData);
            }
            4
        } else {
            0
        };
        self.crc32 = crate::ioutil::unpack_u32_le(buf, base);
        self.compressed_size = crate::ioutil::unpack_u32_le(buf, base + 4);
        self.uncompressed_size = crate::ioutil::unpack_u32_le(buf, base + 8);
        Ok(())
    }

    /// Read one whole entry (fixed and variable parts) from `buf` at
    /// `offset`, returning it with the offset just past it.
    pub fn read_zip_entry(buf: &Vec<u8>, offset: usize) -> (r: Result<(ZipEntry32, usize), ZipError>)
        ensures
            r matches Ok(ev) ==> cd_entry_at(buf@, offset as int, ev.0) && ev.1 == cd_next(
                buf@,
                offset as int,
            ),
            (r is Ok) <==> cd_fits(buf@, offset as int),
            r is Err ==> (r == Result::<(ZipEntry32, usize), ZipError>::Err(ZipError::ShortData)
                || r == Result::<(ZipEntry32, usize), ZipError>::Err(ZipError::BadEntrySignature)),
    {
        let mut entry = ZipEntry32::new();
        let off2 = match entry.unpack_zip_entry(buf, offset) {
            Ok(o) => o,
            Err(e) => {
                return Err(e);
            },
        };
        let off3 = match entry.unpack_zip_entry_extra(buf, off2) {
            Ok(o) => o,
            Err(e) => {
                return Err(e);
            },
        };
        Ok((entry, off3))
    }

    /// Read and keep this entry's local file header from the archive
    /// bytes.
    pub fn read_local_file_header(&mut self, data: &Vec<u8>) -> (r: Result<(), ZipError>)
        ensures
            ({
                let p = old(self).local_header_offset as int;
                (r is Ok) <==> (p + 30 <= data@.len() && le32_at(data@, p) == LOCAL_HEADER_MAGIC
                    && p + 30 + le16_at(data@, p + 26) + le16_at(data@, p + 28) <= data@.len())
            }),
            final(self).local_header_offset == old(self).local_header_offset,
            final(self).compressed_size == old(self).compressed_size,
            r is Ok ==> ({
                let p = old(self).local_header_offset as int;
                &&& p + 30 <= data@.len()
                &&& le32_at(data@, p) == LOCAL_HEADER_MAGIC
                &&& final(self).local_header.file_name_length == le16_at(data@, p + 26)
                &&& final(self).local_header.extra_field_length == le16_at(data@, p + 28)
                &&& final(self).local_header_offset == old(self).local_header_offset
                &&& final(self).compressed_size == old(self).compressed_size
                &&& final(self).compression_method == old(self).compression_method
                &&& final(self).crc32 == old(self).crc32
                &&& final(self).general_flag == old(self).general_flag
            }),
    {
        let mut header = LocalFileHeader::new();
        let off = self.local_header_offset as usize;
        let off2 = match header.unpack_header(data, off) {
            Ok(o) => o,
            Err(e) => {
                return Err(e);
            },
        };
        match header.unpack_header_rest(data, off2) {
            Ok(_) => {},
            Err(e) => {
                return Err(e);
            },
        }
        self.local_header = header;
        Ok(())
    }

    /// The archive offset at which this entry's data begins.
    pub fn get_file_data_offset(&self) -> (r: Option<usize>)
        ensures
            r matches Some(o) ==> o == self.local_header_offset + 30
                + self.local_header.file_name_length + self.local_header.extra_field_length,
            (r is Some) <==> self.local_header_offset + 30 + self.local_header.file_name_length
                + self.local_header.extra_field_length <= usize::MAX,
    {
        let base = self.local_header_offset as usize;
        let total = self.local_header.get_total_length();
        if usize::MAX - base < total {
            return None;
        }
        Some(base + total)
    }

    /// Whether a data descriptor follows this entry's data.
    pub fn has_data_descriptor(&self) -> (r: bool)
        ensures
            r == (self.general_flag & 8u16 == 8u16),
    {
        self.general_flag & 8u16 == 8u16
    }

    /// Compare a computed CRC-32 of the entry data with the stored one.
    pub fn check_crc(&self, computed: u32) -> (r: Result<(), ZipError>)
        ensures
            (r is Ok) <==> computed == self.crc32,
            r is Err ==> r == Result::<(), ZipError>::Err(ZipError::CrcMismatch),
    {
        if computed != self.crc32 {
            return Err(ZipError::CrcMismatch);
        }
        Ok(())
    }
}

/// A zip archive held in memory, with its central-directory metadata.
pub struct ZipFile {
    pub cd_metadata: CDMetaData,
    data: Vec<u8>,
}

impl ZipFile {
    /// The bytes of the archive.
    pub closed spec fn bytes(&self) -> Seq<u8> {
        self.data@
    }

    /// The number of central-directory entries the metadata announces.
    pub closed spec fn entry_count(&self) -> u16 {
        self.cd_metadata.cd_entry_count
    }

    /// The archive offset at which the central directory begins.
    pub closed spec fn cd_begin(&self) -> u32 {
        self.cd_metadata.cd_entry_begin_offset
    }

    /// The parsed end-of-central-directory metadata.
    pub closed spec fn metadata(&self) -> CDMetaData {
        self.cd_metadata
    }

    /// Open an archive held in memory: locate and parse the
    /// end-of-central-directory record. Succeeds exactly when the
    /// signature is found in the tail window, and then the metadata
    /// holds the little-endian fields after the first occurrence.
    pub fn open(data: Vec<u8>) -> (r: Result<ZipFile, ZipError>)
        ensures
            r matches Ok(z) ==> z.bytes() == data@,
            r is Ok <==> (data@.len() >= 22 && (exists|q: int|
                eocd_scan_start(data@.len() as int) <= q <= data@.len() - 22 && eocd_magic_at(
                    data@,
                    q,
                ))),
            r matches Ok(z) ==> (exists|p: int|
                {
                    &&& eocd_scan_start(data@.len() as int) <= p <= data@.len() - 22
                    &&& #[trigger] eocd_magic_at(data@, p)
                    &&& (forall|q: int|
                        eocd_scan_start(data@.len() as int) <= q < p ==> !eocd_magic_at(data@, q))
                    &&& z.metadata().disk_number == le16_at(data@, p + 4)
                    &&& z.metadata().cd_disk_number == le16_at(data@, p + 6)
                    &&& z.metadata().cd_entry_count_on_disk == le16_at(data@, p + 8)
                    &&& z.metadata().cd_entry_count == le16_at(data@, p + 10)
                    &&& z.metadata().cd_size == le32_at(data@, p + 12)
                    &&& z.metadata().cd_entry_begin_offset == le32_at(data@, p + 16)
                    &&& z.metadata().comment_length == le16_at(data@, p + 20)
                    &&& z.metadata().file_size == data@.len()
                }),
    {
        let mut meta = CDMetaData::new();
        match meta.read_cd_metadata(&data) {
            Ok(()) => Ok(ZipFile { cd_metadata: meta, data }),
            Err(e) => Err(e),
        }
    }

    /// Parse all central-directory entries in one pass: on success the
    /// result holds, in order, exactly the records parsed at the chained
    /// central-directory offsets.
    pub fn get_zip_entries(&self) -> (r: Result<Vec<ZipEntry32>, ZipError>)
        ensures
            r matches Ok(v) ==> {
                &&& v@.len() == self.entry_count()
                &&& forall|i: int|
                    0 <= i < v@.len() ==> cd_entry_at(
                        self.bytes(),
                        cd_entry_offset(self.bytes(), self.cd_begin() as int, i),
                        #[trigger] v@[i],
                    )
            },
            (r is Ok) <==> (forall|i: int|
                0 <= i < self.entry_count() ==> cd_fits(
                    self.bytes(),
                    #[trigger] cd_entry_offset(self.bytes(), self.cd_begin() as int, i),
                )),
            r is Err ==> (r == Result::<Vec<ZipEntry32>, ZipError>::Err(ZipError::ShortData) || r
                == Result::<Vec<ZipEntry32>, ZipError>::Err(ZipError::BadEntrySignature)),
    {
        let count = self.cd_metadata.cd_entry_count as usize;
        let mut entries: Vec<ZipEntry32> = Vec::new();
        let mut offset = self.cd_metadata.cd_entry_begin_offset as usize;
        let mut i: usize = 0;
        while i < count
            invariant
                i <= count,
                count == self.entry_count() as usize,
                entries@.len() == i,
                offset == cd_entry_offset(self.bytes(), self.cd_begin() as int, i as int),
                forall|j: int|
                    0 <= j < i ==> cd_entry_at(
                        self.bytes(),
                        cd_entry_offset(self.bytes(), self.cd_begin() as int, j),
                        #[trigger] entries@[j],
                    ),
                forall|j: int|
                    0 <= j < i ==> cd_fits(
                        self.bytes(),
                        #[trigger] cd_entry_offset(self.bytes(), self.cd_begin() as int, j),
                    ),
            decreases count - i,
        {
            match ZipEntry32::read_zip_entry(&self.data, offset) {
                Ok((entry, next_off)) => {
                    entries.push(entry);
                    offset = next_off;
                },
                Err(e) => {
                    proof {
                        assert(!(forall|ii: int|
                            0 <= ii < self.entry_count() ==> cd_fits(
                                self.bytes(),
                                #[trigger] cd_entry_offset(
                                    self.bytes(),
                                    self.cd_begin() as int,
                                    ii,
                                ),
                            ))) by {
                            assert(i < count);
                            assert(!cd_fits(
                                self.bytes(),
                                cd_entry_offset(self.bytes(), self.cd_begin() as int, i as int),
                            ));
                        };
                    }
                    return Err(e);
                },
            }
            i = i + 1;
        }
        Ok(entries)
    }

    /// An iterator over the central-directory entries, reading one
    /// entry per step.
    pub fn zip_entry_iter(&self) -> (r: ZipEntry32Iterator)
        ensures
            r.index == 0 && !r.finished,
            r.offset == self.cd_begin(),
    {
        ZipEntry32Iterator {
            index: 0,
            offset: self.cd_metadata.cd_entry_begin_offset as usize,
            finished: false,
        }
    }

    /// Open a reader over one entry's data: read its local file header
    /// and cut the entry's compressed window (plus any data-descriptor
    /// bytes) out of the archive. The window is exactly the
    /// `compressed_size` bytes following the local header's fixed and
    /// variable parts.
    pub fn zip_entry_reader(&self, entry: &ZipEntry32) -> (r: Result<ZipReader, ZipError>)
        ensures
            r matches Ok(zr) ==> {
                &&& zr.wf()
                &&& zr.delivered().len() == 0
                &&& zr.compressed().len() == 0
                &&& !zr.at_eof()
                &&& !zr.is_failed()
                &&& zr.method() == entry.compression_method
                &&& zr.entry_crc() == entry.crc32
                &&& (entry.compression_method == METHOD_STORE
                    || entry.compression_method == METHOD_DEFLATE)
                &&& zr.remaining_window() == zr.window()
                &&& ({
                    let lho = entry.local_header_offset as int;
                    let doff = lho + 30 + le16_at(self.bytes(), lho + 26) + le16_at(
                        self.bytes(),
                        lho + 28,
                    );
                    &&& lho + 30 <= self.bytes().len()
                    &&& le32_at(self.bytes(), lho) == LOCAL_HEADER_MAGIC
                    &&& doff + entry.compressed_size <= self.bytes().len()
                    &&& zr.window() == self.bytes().subrange(
                        doff,
                        doff + entry.compressed_size as int,
                    )
                    &&& zr.desc_view() == self.bytes().subrange(
                        doff + entry.compressed_size as int,
                        if doff + entry.compressed_size + 16 <= self.bytes().len() {
                            doff + entry.compressed_size + 16
                        } else {
                            self.bytes().len() as int
                        },
                    )
                })
            },
            (r is Ok) <==> ((entry.compression_method == METHOD_STORE
                || entry.compression_method == METHOD_DEFLATE) && local_window_fits(
                self.bytes(),
                entry.local_header_offset as int,
                entry.compressed_size as int,
            )),
    {
        if entry.compression_method != METHOD_STORE && entry.compression_method != METHOD_DEFLATE {
            return Err(ZipError::UnsupportedMethod);
        }
        let mut e2 = ZipEntry32 {
            version_made_by: entry.version_made_by,
            version_needed: entry.version_needed,
            general_flag: entry.general_flag,
            compression_method: entry.compression_method,
            modified_time: entry.modified_time,
            modified_date: entry.modified_date,
            crc32: entry.crc32,
            compressed_size: entry.compressed_size,
            uncompressed_size: entry.uncompressed_size,
            file_name_length: entry.file_name_length,
            extra_field_length: entry.extra_field_length,
            file_comment_length: entry.file_comment_length,
            disk_number_start: entry.disk_number_start,
            internal_file_attributes: entry.internal_file_attributes,
            external_file_attributes: entry.external_file_attributes,
            local_header_offset: entry.local_header_offset,
            file_name: None,
            extra_field: None,
            file_comment: None,
            local_header: LocalFileHeader::new(),
        };
        match e2.read_local_file_header(&self.data) {
            Ok(()) => {},
            Err(e) => {
                return Err(e);
            },
        }
        let start = match e2.get_file_data_offset() {
            Some(o) => o,
            None => {
                let dlen = self.data.len();
                proof {
                    assert(self.bytes().len() == dlen as int);
                }
                return Err(ZipError::ShortData);
            },
        };
        let comp_len = e2.compressed_size as usize;
        if start > self.data.len() || self.data.len() - start < comp_len {
            return Err(ZipError::ShortData);
        }
        let window = crate::deflate::copy_range(&self.data, start, start + comp_len);
        let desc_end = if self.data.len() - (start + comp_len) >= 16 {
            start + comp_len + 16
        } else {
            self.data.len()
        };
        let desc_bytes = crate::deflate::copy_range(&self.data, start + comp_len, desc_end);
        let ghost winv = window@;
        let r = ZipReader {
            entry: e2,
            src: MemReader::new(window),
            desc_bytes,
            inflator: Inflator::with_size_factor(crate::deflate::DEFAULT_SIZE_FACTOR),
            cmp_crc32: 0,
            is_eof: false,
            win0: Ghost(winv),
        };
        proof {
            assert(crc32_of(Seq::<u8>::empty()) == 0) by {
                assert(crate::crc32::crc_fold(0xFFFFFFFFu32, Seq::<u8>::empty())
                    == 0xFFFFFFFFu32);
                assert(0xFFFFFFFFu32 ^ 0xFFFFFFFFu32 == 0) by (bit_vector);
                assert(0u32 ^ 0xFFFFFFFFu32 == 0xFFFFFFFFu32) by (bit_vector);
            };
            assert(r.src.stream() =~= r.win0@.skip(0));
            assert(r.win0@.take(0) =~= Seq::<u8>::empty());
            if r.entry.compression_method == METHOD_DEFLATE {
                assert(r.inflator.compressed() + r.inflator.staged() + r.src.stream()
                    =~= r.win0@);
            }
        }
        Ok(r)
    }
}

/// An iterator over central-directory entries; each step reads one
/// entry from the archive.
pub struct ZipEntry32Iterator {
    pub index: u16,
    pub offset: usize,
    pub finished: bool,
}

impl ZipEntry32Iterator {
    /// Read the next entry, or None once all entries have been read or
    /// one failed to parse. Each returned entry is exactly the record
    /// parsed at the iterator's current offset.
    pub fn next(&mut self, zip_file: &ZipFile) -> (r: Option<ZipEntry32>)
        ensures
            r is Some ==> final(self).index == old(self).index + 1,
            r is None ==> final(self).finished,
            old(self).finished ==> (r is None && *final(self) == *old(self)),
            r matches Some(e) ==> cd_entry_at(zip_file.bytes(), old(self).offset as int, e)
                && final(self).offset == cd_next(zip_file.bytes(), old(self).offset as int),
            (r is None && !old(self).finished) ==> (old(self).index >= zip_file.entry_count()
                || !cd_fits(zip_file.bytes(), old(self).offset as int)),
            (!old(self).finished && old(self).index < zip_file.entry_count() && cd_fits(
                zip_file.bytes(),
                old(self).offset as int,
            )) ==> r is Some,
    {
        if self.finished {
            return None;
        }
        if self.index >= zip_file.cd_metadata.cd_entry_count {
            self.finished = true;
            return None;
        }
        match ZipEntry32::read_zip_entry(&zip_file.data, self.offset) {
            Ok((entry, next_off)) => {
                self.index = self.index + 1;
                self.offset = next_off;
                if self.index == zip_file.cd_metadata.cd_entry_count {
                    self.finished = true;
                }
                Some(entry)
            },
            Err(_) => {
                self.finished = true;
                None
            },
        }
    }

    /// How many entries remain at most.
    pub fn size_hint(&self, zip_file: &ZipFile) -> (r: (usize, usize))
        ensures
            self.finished ==> r.0 == 0 && r.1 == 0,
    {
        if self.finished {
            (0, 0)
        } else {
            (self.index as usize, zip_file.cd_metadata.cd_entry_count as usize)
        }
    }
}

/// A reader over one entry's data, decoding STORE or DEFLATE and
/// keeping a running CRC-32 over the plaintext it hands out.
pub struct ZipReader {
    pub entry: ZipEntry32,
    src: MemReader,
    desc_bytes: Vec<u8>,
    inflator: Inflator,
    cmp_crc32: u32,
    is_eof: bool,
    win0: Ghost<Seq<u8>>,
}

impl ZipReader {
    /// Structural well-formedness: the Inflator is usable, the source
    /// always holds a suffix of the entry's data window, for a DEFLATE
    /// entry the window splits into consumed, staged and unread bytes
    /// and the running CRC-32 covers exactly the bytes handed out, and
    /// for a STORE entry it covers exactly the window bytes passed
    /// through.
    pub closed spec fn wf(&self) -> bool {
        &&& self.inflator.wf()
        &&& self.inflator.resting()
        &&& !self.inflator.is_freed()
        &&& (self.entry.compression_method == METHOD_STORE || self.entry.compression_method
            == METHOD_DEFLATE)
        &&& self.src.stream().len() <= self.win0@.len()
        &&& self.src.stream() == self.win0@.skip(
            self.win0@.len() - self.src.stream().len(),
        )
        &&& (self.entry.compression_method == METHOD_STORE ==> self.cmp_crc32 == crc32_of(
            self.win0@.take(self.win0@.len() - self.src.stream().len()),
        ))
        &&& (self.entry.compression_method == METHOD_DEFLATE ==> {
            &&& self.cmp_crc32 == crc32_of(self.inflator.delivered())
            &&& self.inflator.compressed() + self.inflator.staged() + self.src.stream()
                == self.win0@
            &&& (forall|t: Seq<u8>|
                self.inflator.compressed().is_prefix_of(t)
                    ==> self.inflator.delivered().is_prefix_of(#[trigger] inflate_of(t)))
            &&& (forall|k: int|
                0 <= k < self.inflator.compressed().len() ==> !inflate_complete(
                    #[trigger] self.inflator.compressed().take(k),
                ))
            &&& (self.is_eof ==> (inflate_complete(self.inflator.compressed())
                && self.inflator.delivered() == inflate_of(self.inflator.compressed())))
        })
    }

    /// The entry's whole data window, cut from the archive when the
    /// reader was opened.
    pub closed spec fn window(&self) -> Seq<u8> {
        self.win0@
    }

    /// The window bytes not yet read from.
    pub closed spec fn remaining_window(&self) -> Seq<u8> {
        self.src.stream()
    }

    /// The compressed bytes the engine has consumed so far (for a
    /// DEFLATE entry).
    pub closed spec fn compressed(&self) -> Seq<u8> {
        self.inflator.compressed()
    }

    /// The window bytes read but not yet consumed by the engine.
    pub closed spec fn staged_zip(&self) -> Seq<u8> {
        self.inflator.staged()
    }

    /// The plaintext bytes handed out so far (for a DEFLATE entry).
    pub closed spec fn delivered(&self) -> Seq<u8> {
        self.inflator.delivered()
    }

    /// The running CRC-32 computed over the bytes handed out.
    pub closed spec fn computed_crc(&self) -> u32 {
        self.cmp_crc32
    }

    /// The CRC-32 the entry currently claims: the central-directory
    /// value, replaced by the data descriptor's once that is read.
    pub closed spec fn entry_crc(&self) -> u32 {
        self.entry.crc32
    }

    /// The bytes following the data window kept for the optional data
    /// descriptor.
    pub closed spec fn desc_view(&self) -> Seq<u8> {
        self.desc_bytes@
    }

    /// Whether the entry is a streaming one: bit 3 of the general flag
    /// set, with the true CRC-32 in the data descriptor after the data.
    pub closed spec fn streaming(&self) -> bool {
        self.entry.general_flag & 8u16 == 8u16
    }

    /// The entry's compression method.
    pub closed spec fn method(&self) -> u16 {
        self.entry.compression_method
    }

    /// Whether the end of the entry has been reached.
    pub closed spec fn at_eof(&self) -> bool {
        self.is_eof
    }

    /// Whether the engine has reported a failure.
    pub closed spec fn is_failed(&self) -> bool {
        self.inflator.is_failed()
    }

    /// Read up to `out_len` bytes of a STORE entry: a straight
    /// pass-through of the entry's data window. At the end of the
    /// window the CRC-32 computed over it is checked against the
    /// entry's; the only possible error is that mismatch.
    pub fn store_read(&mut self, out_len: usize) -> (r: Result<Vec<u8>, ZipError>)
        requires
            old(self).wf(),
            old(self).method() == METHOD_STORE,
        ensures
            final(self).wf(),
            final(self).method() == old(self).method(),
            final(self).window() == old(self).window(),
            final(self).entry_crc() == old(self).entry_crc(),
            final(self).is_failed() == old(self).is_failed(),
            r matches Ok(v) ==> {
                &&& v@.len() <= out_len
                &&& v@ == old(self).remaining_window().take(v@.len() as int)
                &&& final(self).remaining_window() == old(self).remaining_window().skip(
                    v@.len() as int,
                )
            },
            (r matches Ok(v) && v@.len() == 0 && out_len > 0) ==> final(self).at_eof(),
            old(self).at_eof() ==> (r matches Ok(v) && v@.len() == 0 && *final(self) == *old(self)),
            (r is Ok && final(self).at_eof() && !old(self).at_eof()) ==> {
                &&& final(self).computed_crc() == crc32_of(final(self).window())
                &&& final(self).computed_crc() == final(self).entry_crc()
            },
            r is Err <==> (!old(self).at_eof() && old(self).remaining_window().len() == 0 && out_len
                > 0 && crc32_of(old(self).window()) != old(self).entry_crc()),
            r is Err ==> r == Result::<Vec<u8>, ZipError>::Err(ZipError::CrcMismatch),
    {
        if self.is_eof {
            let v: Vec<u8> = Vec::new();
            proof {
                assert(v@ =~= old(self).remaining_window().take(0));
                assert(self.remaining_window() =~= old(self).remaining_window().skip(0));
            }
            return Ok(v);
        }
        let ghost rem0 = self.remaining_window();
        let ghost n0 = self.win0@.len() - rem0.len();
        let chunk = self.src.read(out_len);
        if chunk.len() == 0 && out_len > 0 {
            self.is_eof = true;
            proof {
                assert(self.win0@.take(self.win0@.len() as int) =~= self.win0@);
                assert(self.src.stream() =~= self.win0@.skip(
                    self.win0@.len() - self.src.stream().len(),
                ));
            }
            match self.entry.check_crc(self.cmp_crc32) {
                Ok(()) => {},
                Err(e) => {
                    return Err(e);
                },
            }
            let v: Vec<u8> = Vec::new();
            proof {
                assert(v@ =~= old(self).remaining_window().take(0));
            }
            return Ok(v);
        }
        if chunk.len() > 0 {
            let clen = chunk.len();
            let ghost consumed0 = self.win0@.take(n0 as int);
            self.cmp_crc32 = update_crc(self.cmp_crc32, &chunk, 0, clen);
            proof {
                assert(chunk@.subrange(0, clen as int) =~= chunk@);
                lemma_crc32_update_append(0, consumed0, chunk@);
                assert(self.src.stream() =~= self.win0@.skip(
                    self.win0@.len() - self.src.stream().len(),
                )) by {
                    assert(rem0.skip(clen as int) =~= self.win0@.skip(n0 + clen));
                };
                assert(consumed0 + chunk@ =~= self.win0@.take(
                    self.win0@.len() - self.src.stream().len(),
                )) by {
                    assert(chunk@ =~= rem0.take(clen as int));
                };
            }
        } else {
            proof {
                assert(self.src.stream() =~= rem0);
            }
        }
        Ok(chunk)
    }

    /// Read up to `out_len` bytes of a DEFLATE entry through the
    /// engine; at the end of the stream the entry's CRC-32 (from the
    /// data descriptor when the entry announces one) is verified.
    /// The compressed bytes consumed always come in order from the
    /// entry's data window, and everything handed out is a prefix of
    /// the decode of the consumed bytes.
    pub fn deflate_read(&mut self, out_len: usize) -> (r: Result<Vec<u8>, ZipError>)
        requires
            old(self).wf(),
            !old(self).is_failed(),
            old(self).method() == METHOD_DEFLATE,
        ensures
            final(self).method() == old(self).method(),
            final(self).window() == old(self).window(),
            r is Ok ==> final(self).wf() && !final(self).is_failed(),
            r matches Ok(v) ==> {
                &&& v@.len() <= out_len
                &&& final(self).delivered() == old(self).delivered() + v@
            },
            old(self).compressed().is_prefix_of(final(self).compressed()),
            r is Ok ==> final(self).compressed() + final(self).staged_zip() + final(self).remaining_window() == final(self).window(),
            forall|t: Seq<u8>|
                final(self).compressed().is_prefix_of(t) ==> final(self).delivered().is_prefix_of(
                    #[trigger] inflate_of(t),
                ),
            (r matches Ok(v) && v@.len() == 0 && out_len > 0) ==> final(self).at_eof(),
            old(self).at_eof() ==> (r matches Ok(v) && v@.len() == 0 && *final(self) == *old(self)),
            (r is Ok && final(self).at_eof() && !old(self).at_eof()) ==> {
                &&& inflate_complete(final(self).compressed())
                &&& final(self).delivered() == inflate_of(final(self).compressed())
                &&& final(self).computed_crc() == crc32_of(final(self).delivered())
                &&& final(self).computed_crc() == final(self).entry_crc()
            },
            r is Err ==> (r == Result::<Vec<u8>, ZipError>::Err(ZipError::DecompressFailed) || r
                == Result::<Vec<u8>, ZipError>::Err(ZipError::ShortData) || r == Result::<
                Vec<u8>,
                ZipError,
            >::Err(ZipError::CrcMismatch)),
            forall|c: Seq<u8>|
                (inflate_complete(c) && crate::engine::stream_prefix_free(c) && old(self).compressed().is_prefix_of(c) && (#[trigger] c.is_prefix_of(
                    old(self).compressed() + old(self).staged_zip() + old(self).remaining_window(),
                )) && crc32_of(inflate_of(c)) == old(self).entry_crc() && !old(self).streaming()
                    && !old(self).at_eof() && out_len > 0) ==> r is Ok,
    {
        if self.is_eof {
            let v: Vec<u8> = Vec::new();
            proof {
                assert(self.delivered() =~= old(self).delivered() + v@);
            }
            return Ok(v);
        }
        if out_len == 0 {
            let v: Vec<u8> = Vec::new();
            proof {
                assert(self.delivered() =~= old(self).delivered() + v@);
            }
            return Ok(v);
        }
        let ghost oc = old(self).compressed();
        let res = self.inflator.decompress_read(&mut self.src, out_len);
        proof {
            // the window still splits into consumed, staged and unread
            assert(self.inflator.compressed() + self.inflator.staged() + self.src.stream()
                =~= self.win0@) by {
                assert(oc + (old(self).staged_zip() + old(self).remaining_window())
                    =~= self.win0@);
                assert(self.inflator.compressed() =~= oc + self.inflator.compressed().skip(
                    oc.len() as int,
                ));
                assert(oc + (self.inflator.compressed().skip(oc.len() as int)
                    + self.inflator.staged() + self.src.stream()) =~= oc + (old(self).staged_zip()
                    + old(self).remaining_window()));
                assert(oc + self.inflator.compressed().skip(oc.len() as int)
                    + self.inflator.staged() + self.src.stream() =~= oc + (
                self.inflator.compressed().skip(oc.len() as int) + self.inflator.staged()
                    + self.src.stream()));
            };
            assert(self.src.stream() =~= self.win0@.skip(
                self.win0@.len() - self.src.stream().len(),
            )) by {
                assert(self.src.stream() =~= (self.inflator.compressed() + self.inflator.staged()
                    + self.src.stream()).skip(
                    self.inflator.compressed().len() as int + self.inflator.staged().len() as int,
                ));
            };
        }
        let v = match res {
            Ok(v) => v,
            Err(_) => {
                proof {
                    // the engine owed success on any whole stream heading
                    // the remaining window
                    assert forall|c: Seq<u8>|
                        (inflate_complete(c) && crate::engine::stream_prefix_free(c)
                            && oc.is_prefix_of(c) && c.is_prefix_of(
                            oc + old(self).staged_zip() + old(self).remaining_window(),
                        )) implies false by {
                        assert(c.is_prefix_of(
                            oc + old(self).staged_zip() + old(self).remaining_window(),
                        ));
                    };
                }
                return Err(ZipError::DecompressFailed);
            },
        };
        if v.len() > 0 {
            let vlen = v.len();
            let ghost d_pre = old(self).delivered();
            self.cmp_crc32 = update_crc(self.cmp_crc32, &v, 0, vlen);
            proof {
                assert(v@.subrange(0, vlen as int) =~= v@);
                lemma_crc32_update_append(0, d_pre, v@);
            }
            return Ok(v);
        }
        self.is_eof = true;
        if self.entry.has_data_descriptor() {
            // streaming entries carry the true CRC in the descriptor
            // that follows the data
            let mut rest = self.inflator.get_rest();
            let mut more = self.desc_bytes.clone();
            rest.append(&mut more);
            match self.entry.unpack_data_descriptor(&rest) {
                Ok(()) => {},
                Err(e) => {
                    return Err(e);
                },
            }
        }
        match self.entry.check_crc(self.cmp_crc32) {
            Ok(()) => {},
            Err(e) => {
                proof {
                    // under the happy hypothesis the consumed stream is the
                    // hypothesised one and the computed CRC matches
                    assert forall|c: Seq<u8>|
                        (inflate_complete(c) && crate::engine::stream_prefix_free(c)
                            && oc.is_prefix_of(c) && c.is_prefix_of(
                            oc + old(self).staged_zip() + old(self).remaining_window(),
                        ) && crc32_of(inflate_of(c)) == old(self).entry_crc() && !old(self).streaming()) implies false by {
                        let fed1 = self.inflator.compressed();
                        assert(fed1.is_prefix_of(self.win0@)) by {
                            assert(fed1 =~= self.win0@.take(fed1.len() as int));
                        };
                        assert(c.is_prefix_of(self.win0@)) by {
                            assert(oc + old(self).staged_zip() + old(self).remaining_window()
                                =~= self.win0@);
                            assert(c =~= self.win0@.take(c.len() as int));
                        };
                        if c.len() < fed1.len() {
                            assert(c =~= fed1.take(c.len() as int));
                            assert(!inflate_complete(fed1.take(c.len() as int)));
                            assert(false);
                        } else if c.len() > fed1.len() {
                            assert(fed1 =~= c.take(fed1.len() as int));
                            assert(!inflate_complete(c.take(fed1.len() as int)));
                            assert(false);
                        } else {
                            assert(c =~= fed1);
                            assert(self.inflator.delivered() =~= old(self).delivered());
                            assert(self.cmp_crc32 == crc32_of(inflate_of(c)));
                            assert(self.entry.crc32 == old(self).entry_crc());
                            assert(false);
                        }
                    };
                }
                return Err(e);
            },
        }
        proof {
            assert(self.delivered() =~= old(self).delivered() + Seq::<u8>::empty());
        }
        Ok(Vec::new())
    }

    /// Read up to `out_len` bytes of the entry's plaintext: the next
    /// window bytes for a STORE entry, the next decoded bytes for a
    /// DEFLATE entry, with the CRC-32 check at the end of either.
    pub fn read(&mut self, out_len: usize) -> (r: Result<Vec<u8>, ZipError>)
        requires
            old(self).wf(),
            !old(self).is_failed(),
        ensures
            r is Ok ==> final(self).wf() && !final(self).is_failed(),
            final(self).method() == old(self).method(),
            final(self).window() == old(self).window(),
            r matches Ok(v) ==> v@.len() <= out_len,
            old(self).at_eof() ==> (r matches Ok(v) && v@.len() == 0 && *final(self) == *old(self)),
            (r matches Ok(v) && v@.len() == 0 && out_len > 0) ==> final(self).at_eof(),
            old(self).method() == METHOD_STORE ==> {
                &&& (r matches Ok(v) ==> v@ == old(self).remaining_window().take(v@.len() as int)
                    && final(self).remaining_window() == old(self).remaining_window().skip(
                    v@.len() as int,
                ))
                &&& ((r is Ok && final(self).at_eof() && !old(self).at_eof()) ==> (final(self).computed_crc() == crc32_of(final(self).window()) && final(self).computed_crc()
                    == final(self).entry_crc()))
                &&& (r is Err ==> r == Result::<Vec<u8>, ZipError>::Err(ZipError::CrcMismatch))
            },
            old(self).method() == METHOD_DEFLATE ==> {
                &&& (r matches Ok(v) ==> final(self).delivered() == old(self).delivered() + v@)
                &&& old(self).compressed().is_prefix_of(final(self).compressed())
                &&& (r is Ok ==> final(self).compressed() + final(self).staged_zip() + final(self).remaining_window() == final(self).window())
                &&& (forall|t: Seq<u8>|
                    final(self).compressed().is_prefix_of(t)
                        ==> final(self).delivered().is_prefix_of(#[trigger] inflate_of(t)))
                &&& ((r is Ok && final(self).at_eof() && !old(self).at_eof()) ==> (inflate_complete(
                    final(self).compressed(),
                ) && final(self).delivered() == inflate_of(final(self).compressed()) && final(self).computed_crc() == crc32_of(final(self).delivered()) && final(self).computed_crc()
                    == final(self).entry_crc()))
                &&& (forall|c: Seq<u8>|
                    (inflate_complete(c) && crate::engine::stream_prefix_free(c) && old(self).compressed().is_prefix_of(c) && (#[trigger] c.is_prefix_of(
                        old(self).compressed() + old(self).staged_zip() + old(self).remaining_window(),
                    )) && crc32_of(inflate_of(c)) == old(self).entry_crc() && !old(self).streaming() && !old(self).at_eof() && out_len > 0) ==> r is Ok)
            },
    {
        if self.entry.compression_method == METHOD_STORE {
            self.store_read(out_len)
        } else {
            self.deflate_read(out_len)
        }
    }

    /// Whether the end of the entry has been reached.
    pub fn eof(&self) -> (r: bool)
        ensures
            r == self.at_eof(),
    {
        self.is_eof
    }
}

} // verus!
