use vstd::prelude::*;

verus! {

/// Why decoding or exporting an archive failed.
#[derive(Debug, Clone, Copy, PartialEq, Eq, Structural)]
pub enum BsaError {
    /// The buffer is shorter than the fixed header.
    TooSmall,
    /// The first four bytes are not the archive signature.
    BadMagic,
    /// The declared header size is not 36.
    UnsupportedHeaderSize,
    /// The format version is not the supported one.
    UnsupportedVersion,
    /// A record or a string runs past the end of the buffer.
    TruncatedInput,
    /// A string's bytes are not valid UTF-8 (or its declared length is impossible).
    InvalidEncoding,
    /// A file record's hash names no data block.
    UnresolvedContentHash,
}


/// The fixed 36-byte archive header.
#[derive(Debug, Clone, Copy, PartialEq, Eq)]
pub struct Header {
    pub file_id: [char; 4],
    pub version: u32,
    pub offset: u32,
    pub archive_flags: u32,
    pub folder_count: u32,
    pub file_count: u32,
    pub total_folder_name_length: u32,
    pub total_file_name_length: u32,
    pub file_flags: u32,
}

/// One directory's descriptor in the folder table.
#[derive(Debug, Clone, Copy, PartialEq, Eq, Structural)]
pub struct FolderRecord {
    pub name_hash: u64,
    pub count: u32,
    pub offset: u32,
}

/// A folder's optional name and its file descriptors.
#[derive(Debug, Clone)]
pub struct FileRecordBlock {
    pub name: Option<String>,
    pub file_records: Vec<FileRecord>,
}

/// One file's descriptor: its hash, its size (bit 30 toggles compression) and its data offset.
#[derive(Debug, Clone, Copy, PartialEq, Eq, Structural)]
pub struct FileRecord {
    pub name_hash: u64,
    pub size: u32,
    pub offset: u32,
}

/// A file's payload as stored compressed.
#[derive(Debug, Clone)]
pub struct CompressedFileBlock {
    pub hash: u64,
    pub name: Option<String>,
    pub original_size: u32,
    pub data: Vec<u8>,
}

/// A file's payload as stored raw.
#[derive(Debug, Clone)]
pub struct UncompressedFileBlock {
    pub hash: u64,
    pub name: Option<String>,
    pub data: Vec<u8>,
}

/// A fully decoded archive.
#[derive(Debug)]
pub struct BSA {
    pub header: Header,
    pub folder_records: Vec<FolderRecord>,
    pub file_record_blocks: Vec<FileRecordBlock>,
    pub compressed_file_blocks: Vec<CompressedFileBlock>,
    pub uncompressed_file_blocks: Vec<UncompressedFileBlock>,
    pub file_names: Vec<String>,
}

/// The bits of the header's archive flags.
pub enum ArchiveFlags {
    NamedDirs,
    NamedFiles,
    DefComp,
    RetainDirs,
    RetainFiles,
    RetainOffsets,
    BigEnd,
    RetainStrings,
    Unknown1,
    Unknown2,
    Unknown3,
}

impl ArchiveFlags {
    /// The flag's bit, as a value.
    pub open spec fn spec_val(&self) -> u32 {
        match *self {
            ArchiveFlags::NamedDirs => 0x1,
            ArchiveFlags::NamedFiles => 0x2,
            ArchiveFlags::DefComp => 0x4,
            ArchiveFlags::RetainDirs => 0x8,
            ArchiveFlags::RetainFiles => 0x10,
            ArchiveFlags::RetainOffsets => 0x20,
            ArchiveFlags::BigEnd => 0x40,
            ArchiveFlags::RetainStrings => 0x80,
            ArchiveFlags::Unknown1 => 0x100,
            ArchiveFlags::Unknown2 => 0x200,
            ArchiveFlags::Unknown3 => 0x400,
        }
    }

    /// The flag's bit in the archive flags.
    pub fn val(&self) -> (r: u32)
        ensures
            r == self.spec_val(),
    {
        match *self {
            ArchiveFlags::NamedDirs => 0x1,
            ArchiveFlags::NamedFiles => 0x2,
            ArchiveFlags::DefComp => 0x4,
            ArchiveFlags::RetainDirs => 0x8,
            ArchiveFlags::RetainFiles => 0x10,
            ArchiveFlags::RetainOffsets => 0x20,
            ArchiveFlags::BigEnd => 0x40,
            ArchiveFlags::RetainStrings => 0x80,
            ArchiveFlags::Unknown1 => 0x100,
            ArchiveFlags::Unknown2 => 0x200,
            ArchiveFlags::Unknown3 => 0x400,
        }
    }
}


/// The file records of `blocks` in traversal order: folder by folder, then record by record.
pub open spec fn records_of(blocks: Seq<FileRecordBlock>) -> Seq<FileRecord>
    decreases blocks.len(),
{
    if blocks.len() == 0 {
        Seq::empty()
    } else {
        records_of(blocks.drop_last()) + blocks.last().file_records@
    }
}

/// The records of `recs`, in order, whose compression is `compressed` under the archive default.
pub open spec fn select(recs: Seq<FileRecord>, compressed: bool, default_compression: bool) -> Seq<
    FileRecord,
>
    decreases recs.len(),
{
    if recs.len() == 0 {
        Seq::empty()
    } else {
        let rest = select(recs.drop_last(), compressed, default_compression);
        if (default_compression != (recs.last().size & 0x4000_0000u32 != 0)) == compressed {
            rest.push(recs.last())
        } else {
            rest
        }
    }
}


/// Where a file's data block lies among the archive's blocks.
#[derive(Debug, Clone, Copy, PartialEq, Eq, Structural)]
pub enum BlockRef {
    Compressed(usize),
    Uncompressed(usize),
}

/// One file to write on export: its folder, its place in that folder, its index in the
/// file-name table, and its data block or why it has none.
#[derive(Debug, Clone, Copy, PartialEq, Eq)]
pub struct ExportEntry {
    pub folder_index: usize,
    pub record_index: usize,
    pub file_index: usize,
    pub block: Result<BlockRef, BsaError>,
}

/// The (folder, record) position of each file record of `blocks`, in traversal order.
pub open spec fn positions(blocks: Seq<FileRecordBlock>) -> Seq<(int, int)>
    decreases blocks.len(),
{
    if blocks.len() == 0 {
        Seq::empty()
    } else {
        positions(blocks.drop_last()) + Seq::new(
            blocks.last().file_records@.len(),
            |j: int| ((blocks.len() - 1) as int, j),
        )
    }
}

/// `r` is the lookup of `hash`: the first compressed block with that hash, else the first
/// uncompressed one, else an unresolved hash.
pub open spec fn resolves(a: BSA, hash: u64, r: Result<BlockRef, BsaError>) -> bool {
    let comp = a.compressed_file_blocks@;
    let unc = a.uncompressed_file_blocks@;
    match r {
        Ok(BlockRef::Compressed(i)) => {
            &&& i < comp.len()
            &&& comp[i as int].hash == hash
            &&& forall|k: int| 0 <= k < i ==> comp[k].hash != hash
        },
        Ok(BlockRef::Uncompressed(i)) => {
            &&& forall|k: int| 0 <= k < comp.len() ==> comp[k].hash != hash
            &&& i < unc.len()
            &&& unc[i as int].hash == hash
            &&& forall|k: int| 0 <= k < i ==> unc[k].hash != hash
        },
        Err(e) => {
            &&& e == BsaError::UnresolvedContentHash
            &&& forall|k: int| 0 <= k < comp.len() ==> comp[k].hash != hash
            &&& forall|k: int| 0 <= k < unc.len() ==> unc[k].hash != hash
        },
    }
}

/// The `k`-th position in traversal order names a record of `blocks`, the `k`-th one visited;
/// there are as many positions as records.
pub proof fn lemma_positions(blocks: Seq<FileRecordBlock>)
    ensures
        positions(blocks).len() == records_of(blocks).len(),
        forall|k: int|
            0 <= k < positions(blocks).len() ==> {
                let (f, j) = #[trigger] positions(blocks)[k];
                &&& 0 <= f < blocks.len()
                &&& 0 <= j < blocks[f].file_records@.len()
                &&& records_of(blocks)[k] == blocks[f].file_records@[j]
            },
    decreases blocks.len(),
{
    if blocks.len() > 0 {
        let init = blocks.drop_last();
        lemma_positions(init);
        let n = positions(init).len();
        assert forall|k: int| 0 <= k < positions(blocks).len() implies {
            let (f, j) = #[trigger] positions(blocks)[k];
            &&& 0 <= f < blocks.len()
            &&& 0 <= j < blocks[f].file_records@.len()
            &&& records_of(blocks)[k] == blocks[f].file_records@[j]
        } by {
            if k < n {
                assert(positions(blocks)[k] == positions(init)[k]);
                assert(records_of(blocks)[k] == records_of(init)[k]);
                let (f, j) = positions(init)[k];
                assert(blocks[f] == init[f]);
            }
        }
    }
}

/// `plan` holds one entry per file record of `a` in traversal order: the `k`-th entry takes the
/// `k`-th name of the file-name table and the block its record's hash resolves to.
pub open spec fn plan_matches(a: BSA, plan: Seq<ExportEntry>) -> bool {
    &&& plan.len() == positions(a.file_record_blocks@).len()
    &&& forall|k: int|
        0 <= k < plan.len() ==> {
            let (f, j) = #[trigger] positions(a.file_record_blocks@)[k];
            &&& plan[k].folder_index == f
            &&& plan[k].record_index == j
            &&& plan[k].file_index == k
            &&& resolves(a, a.file_record_blocks@[f].file_records@[j].name_hash, plan[k].block)
        }
}

/// The file record that export entry `e` points at.
pub open spec fn entry_record(a: BSA, e: ExportEntry) -> FileRecord {
    a.file_record_blocks@[e.folder_index as int].file_records@[e.record_index as int]
}

/// Export entry `e` points at a record of `a`.
pub open spec fn entry_in_range(a: BSA, e: ExportEntry) -> bool {
    &&& e.folder_index < a.file_record_blocks@.len()
    &&& e.record_index < a.file_record_blocks@[e.folder_index as int].file_records@.len()
}

/// Names and records line up: the export plan has one entry per file record visited, and its
/// `k`-th entry, which takes the `k`-th name, points at the `k`-th record visited.
pub proof fn lemma_plan_follows_traversal(a: BSA, plan: Seq<ExportEntry>)
    requires
        plan_matches(a, plan),
    ensures
        plan.len() == records_of(a.file_record_blocks@).len(),
        forall|k: int|
            0 <= k < plan.len() ==> {
                &&& (#[trigger] plan[k]).file_index == k
                &&& entry_in_range(a, plan[k])
                &&& records_of(a.file_record_blocks@)[k] == entry_record(a, plan[k])
            },
{
    lemma_positions(a.file_record_blocks@);
    assert forall|k: int| 0 <= k < plan.len() implies {
        &&& (#[trigger] plan[k]).file_index == k
        &&& entry_in_range(a, plan[k])
        &&& records_of(a.file_record_blocks@)[k] == entry_record(a, plan[k])
    } by {
        let (f, j) = positions(a.file_record_blocks@)[k];
        assert(plan[k].folder_index == f && plan[k].record_index == j);
    }
}

impl BSA {
    /// Finds the data block of the file with hash `hash`, compressed blocks first.
    fn block_from_hash(&self, hash: u64) -> (r: Result<BlockRef, BsaError>)
        ensures
            resolves(*self, hash, r),
    {
        let mut i: usize = 0;
        while i < self.compressed_file_blocks.len()
            invariant
                i <= self.compressed_file_blocks@.len(),
                forall|k: int| 0 <= k < i ==> self.compressed_file_blocks@[k].hash != hash,
            decreases self.compressed_file_blocks@.len() - i,
        {
            if self.compressed_file_blocks[i].hash == hash {
                return Ok(BlockRef::Compressed(i));
            }
            i = i + 1;
        }
        let mut j: usize = 0;
        while j < self.uncompressed_file_blocks.len()
            invariant
                i == self.compressed_file_blocks@.len(),
                forall|k: int| 0 <= k < i ==> self.compressed_file_blocks@[k].hash != hash,
                j <= self.uncompressed_file_blocks@.len(),
                forall|k: int| 0 <= k < j ==> self.uncompressed_file_blocks@[k].hash != hash,
            decreases self.uncompressed_file_blocks@.len() - j,
        {
            if self.uncompressed_file_blocks[j].hash == hash {
                return Ok(BlockRef::Uncompressed(j));
            }
            j = j + 1;
        }
        Err(BsaError::UnresolvedContentHash)
    }

    /// What exporting writes, one entry per file record in traversal order: the `k`-th entry
    /// takes the `k`-th name of the file-name table and the block its record's hash resolves to.
    /// A hash that resolves to no block fails its own entry only.
    pub fn export_plan(&self) -> (r: Vec<ExportEntry>)
        ensures
            plan_matches(*self, r@),
    {
        proof {
            lemma_positions(self.file_record_blocks@);
        }
        let mut entries: Vec<ExportEntry> = Vec::new();
        let mut f: usize = 0;
        while f < self.file_record_blocks.len()
            invariant
                f <= self.file_record_blocks@.len(),
                entries@.len() == positions(self.file_record_blocks@.subrange(0, f as int)).len(),
                forall|k: int|
                    0 <= k < entries@.len() ==> {
                        let (g, j) = #[trigger] positions(
                            self.file_record_blocks@.subrange(0, f as int),
                        )[k];
                        &&& entries@[k].folder_index == g
                        &&& entries@[k].record_index == j
                        &&& entries@[k].file_index == k
                        &&& resolves(
                            *self,
                            self.file_record_blocks@[g].file_records@[j].name_hash,
                            entries@[k].block,
                        )
                    },
            decreases self.file_record_blocks@.len() - f,
        {
            let ghost prev = positions(self.file_record_blocks@.subrange(0, f as int));
            let ghost sub = self.file_record_blocks@.subrange(0, f + 1);
            proof {
                assert(sub.drop_last() =~= self.file_record_blocks@.subrange(0, f as int));
                lemma_positions(self.file_record_blocks@.subrange(0, f as int));
            }
            let records = &self.file_record_blocks[f].file_records;
            let mut j: usize = 0;
            while j < records.len()
                invariant
                    f < self.file_record_blocks@.len(),
                    *records == self.file_record_blocks@[f as int].file_records,
                    j <= records@.len(),
                    sub == self.file_record_blocks@.subrange(0, f + 1),
                    prev == positions(sub.drop_last()),
                    entries@.len() == prev.len() + j,
                    forall|k: int|
                        0 <= k < entries@.len() ==> {
                            let (g, i) = #[trigger] positions(sub)[k];
                            &&& entries@[k].folder_index == g
                            &&& entries@[k].record_index == i
                            &&& entries@[k].file_index == k
                            &&& resolves(
                                *self,
                                self.file_record_blocks@[g].file_records@[i].name_hash,
                                entries@[k].block,
                            )
                        },
                decreases records@.len() - j,
            {
                let block = self.block_from_hash(records[j].name_hash);
                let file_index = entries.len();
                entries.push(ExportEntry { folder_index: f, record_index: j, file_index, block });
                assert(positions(sub)[file_index as int] == (f as int, j as int));
                j = j + 1;
            }
            f = f + 1;
        }
        assert(self.file_record_blocks@.subrange(0, f as int) =~= self.file_record_blocks@);
        entries
    }
}

/// `s` with each backslash turned into a forward slash.
pub open spec fn with_forward_slashes(s: Seq<char>) -> Seq<char> {
    s.map_values(|c: char| if c == '\\' { '/' } else { c })
}

/// Relies on `str::replace`: every match of the pattern is replaced, the rest is kept in order.
#[verifier::external_body]
fn replace_backslashes(s: &str) -> (r: String)
    ensures
        r@ == with_forward_slashes(s@),
{
    s.replace('\\', "/")
}

/// The directory that a folder's name stands for on export, with forward slashes.
pub fn folder_path(name: &str) -> (r: String)
    ensures
        r@ == with_forward_slashes(name@),
{
    replace_backslashes(name)
}

} // verus!
