//! The 100-byte header that begins a database file.

use crate::bytes::{be_unsigned, read_be};
use crate::error::Error;
use vstd::prelude::*;
use vstd::slice::slice_subrange;
use vstd::string::StringExecFns;

verus! {

/// The length of the file header in bytes.
pub const HEADER_SIZE: usize = 100;

/// The 16 bytes that begin every database file: `SQLite format 3` and a zero
/// byte.
pub const MAGIC: [u8; 16] = [
    0x53,
    0x51,
    0x4c,
    0x69,
    0x74,
    0x65,
    0x20,
    0x66,
    0x6f,
    0x72,
    0x6d,
    0x61,
    0x74,
    0x20,
    0x33,
    0x00,
];

/// The file header, field by field in file order.
#[derive(Debug, Clone)]
pub struct Header {
    pub magic: String,
    pub page_size: u16,
    pub file_format_write_version: u8,
    pub file_format_read_version: u8,
    pub bytes_reserved_at_end_of_each_page: u8,
    pub max_embedded_payload_fraction: u8,
    pub min_embedded_payload_fraction: u8,
    pub leaf_payload_fraction: u8,
    pub file_change_counter: u32,
    pub database_size_in_pages: u32,
    pub first_freelist_page: u32,
    pub number_of_freelist_pages: u32,
    pub schema_cookie: u32,
    pub schema_format_number: u32,
    pub default_page_cache_size: u32,
    pub largest_root_btree_page_number: u32,
    pub text_encoding: u32,
    pub user_version: u32,
    pub incremental_vacuum_mode: u32,
    pub application_id: u32,
    pub version_valid_for: u32,
    pub sqlite_version_number: u32,
}

/// Whether `raw` is a page size field the format allows: a power of two from
/// 512 to 32768, or 1, which stands for 65536.
pub open spec fn valid_page_size(raw: u16) -> bool {
    raw == 1 || raw == 512 || raw == 1024 || raw == 2048 || raw == 4096 || raw == 8192 || raw
        == 16384 || raw == 32768
}

/// The page size in bytes that a valid page size field stands for.
pub open spec fn page_size_in_bytes(raw: u16) -> nat {
    if raw == 1 {
        65536
    } else {
        raw as nat
    }
}

/// The unsigned number in the `width` bytes of `bytes` from `pos` on.
pub open spec fn field(bytes: Seq<u8>, pos: int, width: int) -> nat {
    be_unsigned(bytes.subrange(pos, pos + width))
}

impl Header {
    /// Whether the header holds the fields of `bytes`, a buffer of at least
    /// 100 bytes.
    pub open spec fn holds(&self, bytes: Seq<u8>) -> bool {
        &&& self.magic@ == "SQLite format 3"@
        &&& self.page_size == field(bytes, 16, 2)
        &&& self.file_format_write_version == bytes[18]
        &&& self.file_format_read_version == bytes[19]
        &&& self.bytes_reserved_at_end_of_each_page == bytes[20]
        &&& self.max_embedded_payload_fraction == bytes[21]
        &&& self.min_embedded_payload_fraction == bytes[22]
        &&& self.leaf_payload_fraction == bytes[23]
        &&& self.file_change_counter == field(bytes, 24, 4)
        &&& self.database_size_in_pages == field(bytes, 28, 4)
        &&& self.first_freelist_page == field(bytes, 32, 4)
        &&& self.number_of_freelist_pages == field(bytes, 36, 4)
        &&& self.schema_cookie == field(bytes, 40, 4)
        &&& self.schema_format_number == field(bytes, 44, 4)
        &&& self.default_page_cache_size == field(bytes, 48, 4)
        &&& self.largest_root_btree_page_number == field(bytes, 52, 4)
        &&& self.text_encoding == field(bytes, 56, 4)
        &&& self.user_version == field(bytes, 60, 4)
        &&& self.incremental_vacuum_mode == field(bytes, 64, 4)
        &&& self.application_id == field(bytes, 68, 4)
        &&& self.version_valid_for == field(bytes, 92, 4)
        &&& self.sqlite_version_number == field(bytes, 96, 4)
    }

    /// The invariant of a header: its page size field is one the format
    /// allows.
    pub open spec fn wf(&self) -> bool {
        valid_page_size(self.page_size)
    }

    /// The page size in bytes.
    pub fn page_size_bytes(&self) -> (r: u32)
        ensures
            r == page_size_in_bytes(self.page_size),
            self.wf() ==> 512 <= r <= 65536,
    {
        if self.page_size == 1 {
            65536
        } else {
            self.page_size as u32
        }
    }
}

/// Why `bytes` has no file header at its start, if it has none.
pub open spec fn header_failure(bytes: Seq<u8>) -> Option<Error> {
    if bytes.len() < 16 || bytes.subrange(0, 16) != MAGIC@ {
        Some(Error::BadMagic)
    } else if bytes.len() < HEADER_SIZE {
        Some(Error::Truncated { offset: 16 })
    } else if !valid_page_size(field(bytes, 16, 2) as u16) {
        Some(Error::InvalidPageSize)
    } else {
        None
    }
}

/// Reads the 16-bit field at `pos`.
pub(crate) fn read_u16(input: &[u8], pos: usize) -> (r: u16)
    requires
        pos + 2 <= input@.len(),
    ensures
        r == field(input@, pos as int, 2),
{
    let raw = read_be(input, pos, 2);
    proof {
        crate::bytes::lemma_be_unsigned_bound(input@.subrange(pos as int, pos + 2));
        crate::bytes::lemma_pow256_values();
    }
    raw as u16
}

/// Reads the 32-bit field at `pos`.
pub(crate) fn read_u32(input: &[u8], pos: usize) -> (r: u32)
    requires
        pos + 4 <= input@.len(),
    ensures
        r == field(input@, pos as int, 4),
{
    let raw = read_be(input, pos, 4);
    proof {
        crate::bytes::lemma_be_unsigned_bound(input@.subrange(pos as int, pos + 4));
        crate::bytes::lemma_pow256_values();
    }
    raw as u32
}

/// Whether `input` begins with the 16 magic bytes.
fn has_magic(input: &[u8]) -> (r: bool)
    ensures
        r == (input@.len() >= 16 && input@.subrange(0, 16) == MAGIC@),
{
    if input.len() < 16 {
        return false;
    }
    let mut i: usize = 0;
    while i < 16
        invariant
            i <= 16,
            input@.len() >= 16,
            forall|j: int| 0 <= j < i ==> input@[j] == MAGIC@[j],
        decreases 16 - i,
    {
        if input[i] != MAGIC[i] {
            assert(input@.subrange(0, 16)[i as int] != MAGIC@[i as int]);
            return false;
        }
        i += 1;
    }
    assert(input@.subrange(0, 16) =~= MAGIC@);
    true
}

/// Decodes the file header at the start of `input`: the header, and the input
/// after its 100 bytes.
///
/// Fails with `BadMagic` unless the input begins with the 16 magic bytes,
/// then with `Truncated` where it is shorter than 100 bytes, then with
/// `InvalidPageSize` where the page size field is not one the format allows.
pub fn parse_header(input: &[u8]) -> (r: Result<(&[u8], Header), Error>)
    ensures
        match header_failure(input@) {
            Some(e) => r matches Err(f) && f == e,
            None => r matches Ok((rest, header)) && header.holds(input@) && header.wf() && rest@
                == input@.skip(HEADER_SIZE as int),
        },
{
    if !has_magic(input) {
        return Err(Error::BadMagic);
    }
    if input.len() < HEADER_SIZE {
        return Err(Error::Truncated { offset: 16 });
    }
    let page_size = read_u16(input, 16);
    if !(page_size == 1 || page_size == 512 || page_size == 1024 || page_size == 2048 || page_size
        == 4096 || page_size == 8192 || page_size == 16384 || page_size == 32768) {
        return Err(Error::InvalidPageSize);
    }
    let header = Header {
        magic: String::from_str("SQLite format 3"),
        page_size,
        file_format_write_version: input[18],
        file_format_read_version: input[19],
        bytes_reserved_at_end_of_each_page: input[20],
        max_embedded_payload_fraction: input[21],
        min_embedded_payload_fraction: input[22],
        leaf_payload_fraction: input[23],
        file_change_counter: read_u32(input, 24),
        database_size_in_pages: read_u32(input, 28),
        first_freelist_page: read_u32(input, 32),
        number_of_freelist_pages: read_u32(input, 36),
        schema_cookie: read_u32(input, 40),
        schema_format_number: read_u32(input, 44),
        default_page_cache_size: read_u32(input, 48),
        largest_root_btree_page_number: read_u32(input, 52),
        text_encoding: read_u32(input, 56),
        user_version: read_u32(input, 60),
        incremental_vacuum_mode: read_u32(input, 64),
        application_id: read_u32(input, 68),
        version_valid_for: read_u32(input, 92),
        sqlite_version_number: read_u32(input, 96),
    };
    let rest = slice_subrange(input, HEADER_SIZE, input.len());
    Ok((rest, header))
}

} // verus!
