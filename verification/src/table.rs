//! Sorted string tables: immutable, sorted runs of key-value pairs.
pub mod bloom;
pub mod builder;
pub mod iterator;
pub mod meta;
pub mod sound;

use std::sync::Arc;

use vstd::prelude::*;

pub use crate::table::bloom::Bloom;
pub use crate::table::builder::SsTableBuilder;
pub use crate::table::iterator::SsTableIterator;
pub use crate::table::meta::BlockMeta;

use crate::block::iterator::BlockIterator;
use crate::block::Block;
use crate::bound::Bound;
use crate::codec::{copy_slice, get_u32_le};
use crate::error::LsmError;
use crate::key::{KeyBytes, KeySlice, KeyVec, VEntry, VKey, TS_DEFAULT};
use crate::outside::checksum;
use crate::table::meta::VMeta;
use crate::{block, bound, codec, key, outside};

verus! {

pub const META_SECTION_OFFSET_SIZE: usize = 4;

pub const BLOOM_OFFSET_SIZE: usize = 4;

pub const NUM_OF_BLOCKS_SIZE: usize = 4;

pub const CHECKSUM_SIZE: usize = 4;

/// A file object: the bytes of the file, where it has any, and its size.
pub struct FileObject(pub Option<Vec<u8>>, pub u64);

impl FileObject {
    /// The size is the number of bytes.
    pub open spec fn wf(&self) -> bool {
        self.0 is Some && self.1 == self.bytes().len()
    }

    pub open spec fn bytes(&self) -> Seq<u8> {
        self.0->0@
    }

    /// Reads `len` bytes from `offset` on.
    pub fn read(&self, offset: u64, len: u64) -> (r: Result<Vec<u8>, LsmError>)
        requires
            self.0 is Some,
        ensures
            offset + len <= self.bytes().len() ==> r is Ok && r->Ok_0@ == self.bytes().subrange(
                offset as int,
                offset + len,
            ),
            offset + len > self.bytes().len() ==> r == Err::<Vec<u8>, LsmError>(
                LsmError::UnexpectedEnd,
            ),
    {
        let data: &Vec<u8> = self.0.as_ref().unwrap();
        let size: u64 = data.len() as u64;
        if offset > size || len > size - offset {
            return Err(LsmError::UnexpectedEnd);
        }
        Ok(
            copy_slice(
                vstd::slice::slice_subrange(
                    data.as_slice(),
                    offset as usize,
                    (offset + len) as usize,
                ),
            ),
        )
    }

    pub fn size(&self) -> (r: u64)
        ensures
            r == self.1,
    {
        self.1
    }

    /// A file object that holds the given bytes.
    pub fn create(data: Vec<u8>) -> (r: Self)
        ensures
            r.wf(),
            r.bytes() == data@,
    {
        let size: u64 = data.len() as u64;
        FileObject(Some(data), size)
    }
}

/// All ends are exclusive.
#[derive(Clone, Copy, Debug)]
pub struct SectionRange {
    pub file_size: u64,
    pub data_start: u64,
    pub data_end: u64,
    pub num_of_blocks_start: u64,
    pub num_of_blocks_end: u64,
    pub meta_start: u64,
    pub meta_end: u64,
    pub meta_checksum_start: u64,
    pub meta_checksum_end: u64,
    pub meta_offset_start: u64,
    pub meta_offset_end: u64,
    pub bloom_start: u64,
    pub bloom_end: u64,
    pub bloom_checksum_start: u64,
    pub bloom_checksum_end: u64,
    pub bloom_offset_start: u64,
    pub bloom_offset_end: u64,
}

/// The offset of the bloom filter that the last bytes of a file hold.
pub open spec fn bloom_offset_of(bytes: Seq<u8>) -> int {
    codec::from_le(bytes.subrange(bytes.len() - 4, bytes.len() as int)) as int
}

/// The offset of the meta section that the bytes before the bloom filter hold.
pub open spec fn meta_offset_of(bytes: Seq<u8>) -> int {
    codec::from_le(bytes.subrange(bloom_offset_of(bytes) - 4, bloom_offset_of(bytes))) as int
}

/// What keeps the sections of a file from being located.
pub open spec fn section_error(bytes: Seq<u8>) -> Option<LsmError> {
    if bytes.len() < 8 || bloom_offset_of(bytes) < 8 {
        Some(LsmError::Malformed)
    } else if bloom_offset_of(bytes) > bytes.len() {
        Some(LsmError::UnexpectedEnd)
    } else {
        None
    }
}

proof fn lemma_offset_bounds(bytes: Seq<u8>)
    requires
        section_error(bytes) is None,
    ensures
        0 <= bloom_offset_of(bytes) <= u32::MAX,
        0 <= meta_offset_of(bytes) <= u32::MAX,
{
    codec::lemma_read_bounds(bytes.subrange(bytes.len() - 4, bytes.len() as int));
    codec::lemma_read_bounds(
        bytes.subrange(bloom_offset_of(bytes) - 4, bloom_offset_of(bytes)),
    );
}

/// The sections of a file.
pub open spec fn section_range_of(bytes: Seq<u8>) -> SectionRange {
    let size = bytes.len() as int;
    let bloom = bloom_offset_of(bytes);
    let meta = meta_offset_of(bytes);
    SectionRange {
        file_size: size as u64,
        data_start: 0,
        data_end: meta as u64,
        num_of_blocks_start: meta as u64,
        num_of_blocks_end: (meta + 4) as u64,
        meta_start: (meta + 4) as u64,
        meta_end: (bloom - 8) as u64,
        meta_checksum_start: (bloom - 8) as u64,
        meta_checksum_end: (bloom - 4) as u64,
        meta_offset_start: (bloom - 4) as u64,
        meta_offset_end: bloom as u64,
        bloom_start: bloom as u64,
        bloom_end: (size - 8) as u64,
        bloom_checksum_start: (size - 8) as u64,
        bloom_checksum_end: (size - 4) as u64,
        bloom_offset_start: (size - 4) as u64,
        bloom_offset_end: size as u64,
    }
}

/// The block metadata of a file.
pub open spec fn file_metas(bytes: Seq<u8>) -> Result<Seq<VMeta>, LsmError> {
    let start = meta_offset_of(bytes) + 4;
    let end = bloom_offset_of(bytes) - 8;
    if start > end {
        Err(LsmError::Malformed)
    } else if codec::from_le(bytes.subrange(end, end + 4)) != outside::crc32(
        bytes.subrange(start, end),
    ) {
        Err(LsmError::MetaChecksumMismatch)
    } else {
        match meta::parse_metas(bytes.subrange(start, end)) {
            Some(ms) => Ok(ms),
            None => Err(LsmError::Malformed),
        }
    }
}

/// The bloom filter of a file: its bits and the number of probes.
pub open spec fn file_bloom(bytes: Seq<u8>) -> Result<(Seq<u8>, u8), LsmError> {
    let start = bloom_offset_of(bytes);
    let end = bytes.len() - 4;
    if start > end {
        Err(LsmError::Malformed)
    } else {
        bloom::decodes_to(bytes.subrange(start, end))
    }
}

/// What keeps a file from being opened as a table.
pub open spec fn open_error(bytes: Seq<u8>) -> Option<LsmError> {
    match section_error(bytes) {
        Some(e) => Some(e),
        None => match file_metas(bytes) {
            Err(e) => Some(e),
            Ok(_) => match file_bloom(bytes) {
                Err(e) => Some(e),
                Ok(_) => None,
            },
        },
    }
}

/// Where block `i` ends, its checksum included.
pub open spec fn block_end(ms: Seq<VMeta>, meta_section_offset: int, i: int) -> int {
    if i < ms.len() - 1 {
        ms[i + 1].offset
    } else {
        meta_section_offset
    }
}

/// The encoded block between two positions of a file, without its checksum. A block of no bytes
/// has no checksum either.
pub open spec fn raw_block(bytes: Seq<u8>, start: int, end: int) -> Result<Seq<u8>, LsmError> {
    if start == end {
        Ok(Seq::empty())
    } else if end < start + 4 {
        Err(LsmError::Malformed)
    } else if end - 4 > bytes.len() {
        Err(LsmError::UnexpectedEnd)
    } else {
        Ok(bytes.subrange(start, end - 4))
    }
}

/// The entries of the block between two positions of a file.
pub open spec fn parsed_block(bytes: Seq<u8>, start: int, end: int) -> Result<
    Seq<VEntry>,
    LsmError,
> {
    match raw_block(bytes, start, end) {
        Err(e) => Err(e),
        Ok(raw) => match block::parse_block(raw) {
            None => Err(LsmError::Malformed),
            Some(es) => Ok(es),
        },
    }
}

/// The entries of block `i` of a file, or none where it cannot be read.
pub open spec fn block_entries(
    bytes: Seq<u8>,
    ms: Seq<VMeta>,
    meta_section_offset: int,
    i: int,
) -> Seq<VEntry> {
    match parsed_block(bytes, ms[i].offset, block_end(ms, meta_section_offset, i)) {
        Ok(es) => es,
        Err(_) => Seq::empty(),
    }
}

/// The entries of block `i` of a file and of all blocks behind it.
pub open spec fn entries_from(
    bytes: Seq<u8>,
    ms: Seq<VMeta>,
    meta_section_offset: int,
    i: int,
) -> Seq<VEntry>
    decreases ms.len() - i,
{
    if i >= ms.len() {
        Seq::empty()
    } else {
        block_entries(bytes, ms, meta_section_offset, i) + entries_from(
            bytes,
            ms,
            meta_section_offset,
            i + 1,
        )
    }
}

/// The largest timestamp of the entries, or 0 where there are none.
pub open spec fn max_ts_of(es: Seq<VEntry>) -> u64
    decreases es.len(),
{
    if es.len() == 0 {
        0
    } else if es.last().key.ts > max_ts_of(es.drop_last()) {
        es.last().key.ts
    } else {
        max_ts_of(es.drop_last())
    }
}

/// The largest timestamp is not below any, and it is the timestamp of an entry where there is one.
pub proof fn lemma_max_ts(es: Seq<VEntry>)
    ensures
        forall|i: int| 0 <= i < es.len() ==> (#[trigger] es[i]).key.ts <= max_ts_of(es),
        max_ts_of(es) > 0 ==> exists|i: int|
            0 <= i < es.len() && (#[trigger] es[i]).key.ts == max_ts_of(es),
    decreases es.len(),
{
    if es.len() > 0 {
        let front = es.drop_last();
        lemma_max_ts(front);
        assert forall|i: int| 0 <= i < es.len() implies (#[trigger] es[i]).key.ts <= max_ts_of(
            es,
        ) by {
            if i < front.len() {
                assert(front[i] == es[i]);
            }
        }
        if max_ts_of(es) > 0 && max_ts_of(es) != es.last().key.ts {
            let i = choose|i: int|
                0 <= i < front.len() && (#[trigger] front[i]).key.ts == max_ts_of(front);
            assert(es[i] == front[i]);
        } else {
            assert(es[es.len() - 1] == es.last());
        }
    }
}

/// The keys are those of the entries, in the same order.
pub open spec fn keys_match(ks: Seq<KeyVec>, es: Seq<VEntry>) -> bool {
    ks.len() == es.len() && forall|i: int| 0 <= i < ks.len() ==> (#[trigger] ks[i])@ == es[i].key
}

/// An SSTable.
/// -------------------------------------------------------------------------------------------
/// |         Block Section         |          Meta Section         |          Extra          |
/// -------------------------------------------------------------------------------------------
/// | data block | ... | data block |            metadata           | meta block offset (u32) |
/// -------------------------------------------------------------------------------------------
/// ------------------------
/// |      data block      |
/// ------------------------
/// | data | checksum(u32) |
/// ------------------------
/// ----------------------------------------------------------------------------------------------------------
/// |                                                Meta Section                                            |
/// ----------------------------------------------------------------------------------------------------------
/// | no. of block | metadata | checksum | meta block offset | bloom filter | checksum | bloom filter offset |
/// |     u32      |  varlen  |    u32   |        u32        |    varlen    |    u32   |        u32          |
/// ----------------------------------------------------------------------------------------------------------
pub struct SsTable {
    /// The actual storage unit of SsTable, the format is as above.
    pub file: FileObject,
    /// The meta blocks that hold info for data blocks.
    pub block_meta: Vec<BlockMeta>,
    /// The offset that indicates the start point of meta blocks in `file`.
    pub meta_section_offset: usize,
    pub id: usize,
    pub first_key: KeyBytes,
    pub last_key: KeyBytes,
    pub bloom: Option<Bloom>,
    /// The maximum timestamp stored in this SST.
    pub max_ts: u64,
}

impl SsTable {
    pub open spec fn metas(&self) -> Seq<VMeta> {
        meta::meta_views(self.block_meta@)
    }

    /// The entries of block `i`, or the error of reading it.
    pub open spec fn parsed(&self, i: int) -> Result<Seq<VEntry>, LsmError> {
        parsed_block(
            self.file.bytes(),
            self.metas()[i].offset,
            block_end(self.metas(), self.meta_section_offset as int, i),
        )
    }

    /// The entries of block `i`.
    pub open spec fn block(&self, i: int) -> Seq<VEntry> {
        block_entries(self.file.bytes(), self.metas(), self.meta_section_offset as int, i)
    }

    /// `r` is the result of reading block `i`.
    pub open spec fn reads(&self, i: int, r: Result<Arc<Block>, LsmError>) -> bool {
        if i >= self.block_meta@.len() {
            r == Err::<Arc<Block>, LsmError>(
                LsmError::BlockIndexOutOfBounds {
                    index: i as usize,
                    max: self.block_meta@.len() as usize,
                },
            )
        } else {
            match self.parsed(i) {
                Ok(es) => r is Ok && r->Ok_0.wf() && r->Ok_0.entries() == es,
                Err(e) => r == Err::<Arc<Block>, LsmError>(e),
            }
        }
    }

    /// The entries of block `i` and of all blocks behind it.
    pub open spec fn from_block(&self, i: int) -> Seq<VEntry> {
        entries_from(self.file.bytes(), self.metas(), self.meta_section_offset as int, i)
    }

    /// All entries of the table.
    pub open spec fn entries(&self) -> Seq<VEntry> {
        self.from_block(0)
    }

    /// The bloom filter, where there is one, answers yes to every key of the table.
    pub open spec fn bloom_covers(&self) -> bool {
        self.bloom matches Some(b) ==> b.wf() && forall|i: int|
            0 <= i < self.entries().len() ==> b.covers(
                (#[trigger] self.entries()[i]).key.key,
            )
    }

    /// The metadata of block `i` gives its first and its last key.
    pub open spec fn meta_keys_ok(&self, i: int) -> bool {
        self.block(i).len() > 0 ==> {
            &&& self.metas()[i].first_key == self.block(i)[0].key
            &&& self.metas()[i].last_key == self.block(i).last().key
        }
    }

    /// All blocks can be read, only a table without entries has an empty block, the entries are
    /// sorted, and what the table says about its entries is true.
    pub open spec fn wf(&self) -> bool {
        &&& self.file.wf()
        &&& self.block_meta@.len() >= 1
        &&& forall|i: int| 0 <= i < self.metas().len() ==> #[trigger] self.parsed(i) is Ok
        &&& forall|i: int|
            0 <= i < self.metas().len() && self.metas().len() > 1 ==> #[trigger] self.block(i).len()
                > 0
        &&& forall|i: int| 0 <= i < self.metas().len() ==> #[trigger] self.meta_keys_ok(i)
        &&& key::sorted(self.entries())
        &&& block::entries_fit(self.entries())
        &&& self.first_key@.key == (if self.entries().len() > 0 {
            self.entries()[0].key.key
        } else {
            Seq::empty()
        })
        &&& self.last_key@.key == (if self.entries().len() > 0 {
            self.entries().last().key.key
        } else {
            Seq::empty()
        })
        &&& self.bloom_covers()
        &&& self.max_ts == max_ts_of(self.entries())
    }

    /// A table without a file.
    pub fn new(id: usize) -> (r: Self)
        ensures
            r.is_blank(id),
    {
        Self {
            file: FileObject(None, 0),
            block_meta: Vec::new(),
            meta_section_offset: 0,
            id,
            first_key: KeyVec::new(),
            last_key: KeyVec::new(),
            bloom: None,
            max_ts: 0,
        }
    }

    /// The table has an id and nothing else.
    pub open spec fn is_blank(&self, id: usize) -> bool {
        &&& self.file.0 is None && self.file.1 == 0
        &&& self.block_meta@.len() == 0
        &&& self.meta_section_offset == 0
        &&& self.id == id
        &&& self.first_key@ == (VKey { key: Seq::empty(), ts: TS_DEFAULT })
        &&& self.last_key@ == (VKey { key: Seq::empty(), ts: TS_DEFAULT })
        &&& self.bloom is None
        &&& self.max_ts == 0
    }

    /// Locates the sections of a file.
    pub fn get_section_range(file: &FileObject) -> (r: Result<Option<SectionRange>, LsmError>)
        requires
            file.0 is Some ==> file.wf(),
        ensures
            file.0 is None ==> r == Ok::<Option<SectionRange>, LsmError>(None),
            file.0 is Some ==> match section_error(file.bytes()) {
                Some(e) => r == Err::<Option<SectionRange>, LsmError>(e),
                None => r == Ok::<Option<SectionRange>, LsmError>(
                    Some(section_range_of(file.bytes())),
                ),
            },
    {
        if file.0.is_none() {
            return Ok(None);
        }
        let file_size: u64 = file.size();
        if file_size < 8 {
            return Err(LsmError::Malformed);
        }
        let bloom_offset_start: u64 = file_size - BLOOM_OFFSET_SIZE as u64;
        let bloom_offset_end: u64 = file_size;

        let bloom_offset: u64 = match Self::read_u32(file, bloom_offset_start) {
            Ok(x) => x as u64,
            Err(e) => {
                return Err(e);
            },
        };

        let bloom_checksum_end: u64 = bloom_offset_start;
        let bloom_checksum_start: u64 = bloom_checksum_end - CHECKSUM_SIZE as u64;

        let bloom_start: u64 = bloom_offset;
        let bloom_end: u64 = bloom_checksum_start;

        if bloom_offset < 8 {
            return Err(LsmError::Malformed);
        }
        let meta_offset_end: u64 = bloom_start;
        let meta_offset_start: u64 = meta_offset_end - META_SECTION_OFFSET_SIZE as u64;

        let meta_offset: u64 = match Self::read_u32(file, meta_offset_start) {
            Ok(x) => x as u64,
            Err(e) => {
                return Err(e);
            },
        };

        let meta_checksum_end: u64 = meta_offset_start;
        let meta_checksum_start: u64 = meta_checksum_end - CHECKSUM_SIZE as u64;

        let num_of_blocks_start: u64 = meta_offset;
        let num_of_blocks_end: u64 = num_of_blocks_start + NUM_OF_BLOCKS_SIZE as u64;

        let meta_start: u64 = num_of_blocks_end;
        let meta_end: u64 = meta_checksum_start;

        let data_start: u64 = 0;
        let data_end: u64 = num_of_blocks_start;

        Ok(
            Some(
                SectionRange {
                    file_size,
                    data_start,
                    data_end,
                    num_of_blocks_start,
                    num_of_blocks_end,
                    meta_start,
                    meta_end,
                    meta_checksum_start,
                    meta_checksum_end,
                    meta_offset_start,
                    meta_offset_end,
                    bloom_start,
                    bloom_end,
                    bloom_checksum_start,
                    bloom_checksum_end,
                    bloom_offset_start,
                    bloom_offset_end,
                },
            ),
        )
    }

    /// Reads a little-endian number of four bytes.
    fn read_u32(file: &FileObject, offset: u64) -> (r: Result<u32, LsmError>)
        requires
            file.0 is Some,
        ensures
            offset + 4 <= file.bytes().len() ==> r is Ok && r->Ok_0 == codec::from_le(
                file.bytes().subrange(offset as int, offset + 4),
            ),
            offset + 4 > file.bytes().len() ==> r == Err::<u32, LsmError>(LsmError::UnexpectedEnd),
    {
        match file.read(offset, 4) {
            Ok(bytes) => {
                assert(bytes@.subrange(0, 4) =~= bytes@);
                Ok(get_u32_le(bytes.as_slice(), 0))
            },
            Err(e) => Err(e),
        }
    }

    /// Reads the bloom filter of a file.
    pub fn read_bloom(section_range: &SectionRange, file: &FileObject) -> (r: Result<Bloom, LsmError>)
        requires
            file.wf(),
            section_error(file.bytes()) is None,
            *section_range == section_range_of(file.bytes()),
        ensures
            file_bloom(file.bytes()) == match r {
                Ok(b) => Ok((b.filter@, b.k)),
                Err(e) => Err(e),
            },
            r matches Ok(b) ==> b.wf(),
    {
        if section_range.bloom_start > section_range.bloom_checksum_end {
            return Err(LsmError::Malformed);
        }
        // The checksum is verified by Bloom::decode, so it is passed along with the filter.
        let buf_len: u64 = section_range.bloom_checksum_end - section_range.bloom_start;
        match file.read(section_range.bloom_start, buf_len) {
            Ok(raw_bloom) => Bloom::decode(raw_bloom.as_slice()),
            Err(e) => Err(e),
        }
    }

    /// Reads the block metadata of a file.
    pub fn read_meta(section_range: &SectionRange, file: &FileObject) -> (r: Result<
        Vec<BlockMeta>,
        LsmError,
    >)
        requires
            file.wf(),
            section_error(file.bytes()) is None,
            *section_range == section_range_of(file.bytes()),
        ensures
            file_metas(file.bytes()) == match r {
                Ok(metas) => Ok(meta::meta_views(metas@)),
                Err(e) => Err(e),
            },
    {
        proof {
            lemma_offset_bounds(file.bytes());
        }
        if section_range.meta_start > section_range.meta_end {
            return Err(LsmError::Malformed);
        }
        let sum: u32 = match Self::read_u32(file, section_range.meta_checksum_start) {
            Ok(x) => x,
            Err(e) => {
                return Err(e);
            },
        };
        let meta_buf_len: u64 = section_range.meta_end - section_range.meta_start;
        let raw_meta: Vec<u8> = match file.read(section_range.meta_start, meta_buf_len) {
            Ok(raw) => raw,
            Err(e) => {
                return Err(e);
            },
        };
        if sum != checksum(raw_meta.as_slice()) {
            return Err(LsmError::MetaChecksumMismatch);
        }
        match BlockMeta::try_decode_block_meta(raw_meta.as_slice()) {
            Some(metas) => Ok(metas),
            None => Err(LsmError::Malformed),
        }
    }

    /// Open SSTable from a file.
    pub fn open(id: usize, file: FileObject) -> (r: Result<Self, LsmError>)
        requires
            file.0 is Some ==> file.wf(),
        ensures
            file.0 is None ==> r is Ok && r->Ok_0.is_blank(id),
            file.0 is Some ==> match open_error(file.bytes()) {
                Some(e) => r == Err::<Self, LsmError>(e),
                None => r is Ok && r->Ok_0.opened_from(id, file),
            },
    {
        let section_range: SectionRange = match Self::get_section_range(&file) {
            Ok(Some(range)) => range,
            Ok(None) => {
                return Ok(Self::new(id));
            },
            Err(e) => {
                return Err(e);
            },
        };
        let block_meta: Vec<BlockMeta> = match Self::read_meta(&section_range, &file) {
            Ok(metas) => metas,
            Err(e) => {
                return Err(e);
            },
        };
        let bloom: Bloom = match Self::read_bloom(&section_range, &file) {
            Ok(b) => b,
            Err(e) => {
                return Err(e);
            },
        };
        proof {
            lemma_offset_bounds(file.bytes());
        }
        let n: usize = block_meta.len();
        let first_key: KeyBytes = if n > 0 {
            block_meta[0].first_key.clone()
        } else {
            KeyVec::new()
        };
        let last_key: KeyBytes = if n > 0 {
            block_meta[n - 1].last_key.clone()
        } else {
            KeyVec::new()
        };
        let mut table = Self {
            file,
            block_meta,
            meta_section_offset: section_range.num_of_blocks_start as usize,
            id,
            first_key,
            last_key,
            bloom: Some(bloom),
            max_ts: 0,
        };
        let keys = table.collect_keys();
        table.max_ts = Self::max_ts_of_keys(&keys, Ghost(table.entries()));
        Ok(table)
    }

    /// The table holds what its file says.
    pub open spec fn opened_from(&self, id: usize, file: FileObject) -> bool {
        let ms = file_metas(file.bytes())->Ok_0;
        &&& self.file == file
        &&& self.id == id
        &&& self.metas() == ms
        &&& self.meta_section_offset == meta_offset_of(file.bytes())
        &&& self.first_key@ == (if ms.len() > 0 {
            ms[0].first_key
        } else {
            VKey { key: Seq::empty(), ts: TS_DEFAULT }
        })
        &&& self.last_key@ == (if ms.len() > 0 {
            ms.last().last_key
        } else {
            VKey { key: Seq::empty(), ts: TS_DEFAULT }
        })
        &&& self.bloom matches Some(b) && b.wf() && file_bloom(file.bytes()) == Ok::<
            (Seq<u8>, u8),
            LsmError,
        >((b.filter@, b.k))
        &&& self.max_ts == max_ts_of(self.entries())
    }

    /// The largest timestamp of the keys.
    pub(crate) fn max_ts_of_keys(keys: &Vec<KeyVec>, Ghost(es): Ghost<Seq<VEntry>>) -> (r: u64)
        requires
            keys_match(keys@, es),
        ensures
            r == max_ts_of(es),
    {
        let mut max: u64 = 0;
        let mut i: usize = 0;
        while i < keys.len()
            invariant
                i <= keys@.len(),
                keys_match(keys@, es),
                max == max_ts_of(es.take(i as int)),
            decreases keys@.len() - i,
        {
            assert(es.take(i + 1).drop_last() =~= es.take(i as int));
            if keys[i].ts() > max {
                max = keys[i].ts();
            }
            i = i + 1;
        }
        assert(es.take(i as int) =~= es);
        max
    }

    /// The keys of a block.
    pub(crate) fn block_keys(b: Arc<Block>) -> (r: Vec<KeyVec>)
        requires
            b.wf(),
        ensures
            keys_match(r@, b.entries()),
    {
        let ghost es = b.entries();
        let mut keys: Vec<KeyVec> = Vec::new();
        let mut iter = BlockIterator::create_and_seek_to_first(b);
        assert(es.skip(0) =~= es);
        while iter.is_valid()
            invariant
                iter.wf(),
                keys@.len() <= es.len(),
                iter.remaining() == es.skip(keys@.len() as int),
                forall|i: int| 0 <= i < keys@.len() ==> (#[trigger] keys@[i])@ == es[i].key,
            decreases es.len() - keys@.len(),
        {
            let ghost n = keys@.len() as int;
            keys.push(iter.key().to_key_vec());
            iter.next();
            assert(es.skip(n).drop_first() =~= es.skip(n + 1));
        }
        keys
    }

    /// The keys of all blocks that can be read.
    pub(crate) fn collect_keys(&self) -> (r: Vec<KeyVec>)
        requires
            self.file.0 is Some,
        ensures
            keys_match(r@, self.entries()),
    {
        let mut keys: Vec<KeyVec> = Vec::new();
        let mut i: usize = 0;
        let ghost mut done: Seq<VEntry> = Seq::empty();
        assert(done + self.from_block(0) =~= self.entries());
        while i < self.block_meta.len()
            invariant
                i <= self.block_meta@.len(),
                self.file.0 is Some,
                keys_match(keys@, done),
                done + self.from_block(i as int) == self.entries(),
            decreases self.block_meta@.len() - i,
        {
            let ghost before = keys@;
            let ghost es = self.block(i as int);
            match self.read_block(i) {
                Ok(b) => {
                    let mut more = Self::block_keys(b);
                    let ghost added = more@;
                    keys.append(&mut more);
                    proof {
                        assert(keys@ =~= before + added);
                        assert forall|j: int| 0 <= j < keys@.len() implies (#[trigger] keys@[j])@ == (
                        done + es)[j].key by {
                            if j < before.len() {
                                assert(before[j]@ == done[j].key);
                            } else {
                                assert(added[j - before.len()]@ == es[j - before.len()].key);
                            }
                        }
                    }
                },
                Err(_) => {
                    assert(done + es =~= done);
                },
            }
            proof {
                assert((done + es) + self.from_block(i + 1) =~= done + self.from_block(i as int));
                done = done + es;
            }
            i = i + 1;
        }
        assert(done + self.from_block(i as int) =~= done);
        keys
    }

    /// Create a mock SST with only first key + last key metadata
    pub fn create_meta_only(
        id: usize,
        file_size: u64,
        first_key: KeyBytes,
        last_key: KeyBytes,
    ) -> (r: Self)
        ensures
            r.file.0 is None,
            r.file.1 == file_size,
            r.block_meta@.len() == 0,
            r.meta_section_offset == 0,
            r.id == id,
            r.first_key == first_key,
            r.last_key == last_key,
            r.bloom is None,
            r.max_ts == 0,
    {
        Self {
            file: FileObject(None, file_size),
            block_meta: Vec::new(),
            meta_section_offset: 0,
            id,
            first_key,
            last_key,
            bloom: None,
            max_ts: 0,
        }
    }

    /// Read a block.
    /// Block layout:
    /// -------------------------------
    /// | block data | checksum (u32) |
    /// -------------------------------
    pub fn read_block(&self, block_idx: usize) -> (r: Result<Arc<Block>, LsmError>)
        requires
            block_idx < self.block_meta@.len() ==> self.file.0 is Some,
        ensures
            self.reads(block_idx as int, r),
    {
        let n: usize = self.block_meta.len();
        if block_idx >= n {
            return Err(LsmError::BlockIndexOutOfBounds { index: block_idx, max: n });
        }
        let block_start: u64 = self.block_meta[block_idx].offset as u64;
        let block_end: u64 = if block_idx < n - 1 {
            self.block_meta[block_idx + 1].offset as u64
        } else {
            self.meta_section_offset as u64
        };
        assert(self.metas()[block_idx as int].offset == block_start);
        assert(block_end == self::block_end(
            self.metas(),
            self.meta_section_offset as int,
            block_idx as int,
        ));
        let raw_block: Vec<u8> = if block_start == block_end {
            Vec::new()
        } else {
            if block_end < CHECKSUM_SIZE as u64 || block_end - (CHECKSUM_SIZE as u64) < block_start {
                return Err(LsmError::Malformed);
            }
            match self.file.read(block_start, block_end - block_start - CHECKSUM_SIZE as u64) {
                Ok(raw) => raw,
                Err(e) => {
                    return Err(e);
                },
            }
        };
        assert(block_start == block_end ==> raw_block@ =~= Seq::empty());
        match Block::try_decode(raw_block.as_slice()) {
            Some(b) => Ok(Arc::new(b)),
            None => Err(LsmError::Malformed),
        }
    }

    /// The first key of every block is not after its last key, and blocks follow one another in
    /// key order.
    pub open spec fn metas_sorted(&self) -> bool {
        &&& forall|i: int|
            0 <= i < self.metas().len() ==> key::key_le(
                (#[trigger] self.metas()[i]).first_key,
                self.metas()[i].last_key,
            )
        &&& forall|i: int, j: int|
            0 <= i < j < self.metas().len() ==> key::key_lt(
                (#[trigger] self.metas()[i]).last_key,
                (#[trigger] self.metas()[j]).first_key,
            )
    }

    /// Find the block that may contain `key`: the first one whose last key is not before `key`, or
    /// the last one where there is none.
    pub fn find_block_idx(&self, key: KeySlice) -> (r: usize)
        requires
            self.block_meta@.len() > 0,
            self.block_meta@.len() > 1 ==> self.metas_sorted(),
        ensures
            r < self.block_meta@.len(),
            forall|i: int| 0 <= i < r ==> key::key_lt((#[trigger] self.metas()[i]).last_key, key@),
            r < self.block_meta@.len() - 1 ==> !key::key_lt(self.metas()[r as int].last_key, key@),
    {
        let mut l: usize = 0;
        let mut r: usize = self.block_meta.len() - 1;
        while l < r
            invariant
                l <= r < self.block_meta@.len(),
                self.block_meta@.len() > 1 ==> self.metas_sorted(),
                forall|i: int|
                    0 <= i < l ==> key::key_lt((#[trigger] self.metas()[i]).last_key, key@),
                r < self.block_meta@.len() - 1 ==> !key::key_lt(self.metas()[r as int].last_key, key@),
            decreases r - l,
        {
            let mid: usize = l + (r - l) / 2;
            let meta = &self.block_meta[mid];
            let ghost m = self.metas()[mid as int];
            assert(m == meta@);
            assert(key::key_le(m.first_key, m.last_key));
            if key.less_than(meta.first_key.as_key_slice()) {
                proof {
                    key::lemma_key_lt_irreflexive(key@);
                    if m.first_key != m.last_key {
                        key::lemma_key_lt_transitive(key@, m.first_key, m.last_key);
                    }
                    if key::key_lt(m.last_key, key@) {
                        key::lemma_key_lt_transitive(key@, m.last_key, key@);
                    }
                }
                r = mid;
            } else if meta.last_key.as_key_slice().less_than(key) {
                proof {
                    if m.first_key != m.last_key {
                        key::lemma_key_lt_transitive(m.first_key, m.last_key, key@);
                    }
                    assert forall|i: int| 0 <= i < mid + 1 implies key::key_lt(
                        (#[trigger] self.metas()[i]).last_key,
                        key@,
                    ) by {
                        if i < mid {
                            let b = self.metas()[i];
                            assert(key::key_lt(b.last_key, m.first_key));
                            key::lemma_key_lt_transitive(b.last_key, m.first_key, key@);
                        }
                    }
                }
                l = mid + 1;
            } else {
                proof {
                    key::lemma_key_total(m.first_key, key@);
                    assert forall|i: int| 0 <= i < mid implies key::key_lt(
                        (#[trigger] self.metas()[i]).last_key,
                        key@,
                    ) by {
                        let b = self.metas()[i];
                        assert(key::key_lt(b.last_key, m.first_key));
                        if m.first_key != key@ {
                            key::lemma_key_lt_transitive(b.last_key, m.first_key, key@);
                        }
                    }
                }
                l = mid;
                r = mid;
            }
        }
        l
    }

    /// Get number of data blocks.
    pub fn num_of_blocks(&self) -> (r: usize)
        ensures
            r == self.block_meta@.len(),
    {
        self.block_meta.len()
    }

    pub fn first_key(&self) -> (r: &KeyBytes)
        ensures
            *r == self.first_key,
    {
        &self.first_key
    }

    pub fn last_key(&self) -> (r: &KeyBytes)
        ensures
            *r == self.last_key,
    {
        &self.last_key
    }

    pub fn table_size(&self) -> (r: u64)
        ensures
            r == self.file.1,
    {
        self.file.1
    }

    pub fn sst_id(&self) -> (r: usize)
        ensures
            r == self.id,
    {
        self.id
    }

    pub fn max_ts(&self) -> (r: u64)
        ensures
            r == self.max_ts,
    {
        self.max_ts
    }

    /// The range of user keys between the two ends reaches into the range of the table.
    pub open spec fn reached_by(&self, lower: Bound<Seq<u8>>, upper: Bound<Seq<u8>>) -> bool {
        bound::above(lower, self.last_key@.key) && bound::below(upper, self.first_key@.key)
    }

    /// Whether the range of user keys between the two ends reaches into the range of the table.
    pub fn has_overlap(&self, lower: Bound<&[u8]>, upper: Bound<&[u8]>) -> (r: bool)
        ensures
            r == self.reached_by(lower.bytes(), upper.bytes()),
            r == (bound::above(lower.bytes(), self.last_key@.key) && bound::below(
                upper.bytes(),
                self.first_key@.key,
            )),
    {
        lower.admits_from_below(self.last_key.key_ref()) && upper.admits_from_above(
            self.first_key.key_ref(),
        )
    }

    /// Whether the table may hold the user key: `false` only where its bloom filter rules it out.
    pub fn may_contain(&self, key: &[u8]) -> (r: bool)
        requires
            self.bloom matches Some(b) ==> b.wf(),
        ensures
            r == match self.bloom {
                Some(b) => b.covers(key@),
                None => true,
            },
            self.wf() ==> forall|i: int|
                0 <= i < self.entries().len() && (#[trigger] self.entries()[i]).key.key == key@
                    ==> r,
    {
        match &self.bloom {
            Some(bloom) => bloom.may_cover(key),
            None => true,
        }
    }
}

} // verus!
