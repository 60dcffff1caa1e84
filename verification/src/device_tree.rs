//! The flattened device tree: its header, the map of reserved memory and the
//! tokens of its structure block, read from the bytes of the blob.

use vstd::prelude::*;

verus! {

/// The magic number at the start of a device tree blob.
pub const FDT_MAGIC: u32 = 0xd00dfeed;

/// The version of the format that is read here.
pub const FDT_VERSION: u32 = 17;

/// Bytes of the header.
pub const HEADER_SIZE: usize = 40;

/// Token that opens a node; the node's name follows.
pub const FDT_BEGIN_NODE: u32 = 0x1;

/// Token that closes a node.
pub const FDT_END_NODE: u32 = 0x2;

/// Token of a property; its length, the offset of its name and its value
/// follow.
pub const FDT_PROP: u32 = 0x3;

/// Token without meaning.
pub const FDT_NOP: u32 = 0x4;

/// Token that ends the structure block.
pub const FDT_END: u32 = 0x9;

/// The big-endian number in the four bytes at `at`.
pub open spec fn spec_be_u32(bytes: Seq<u8>, at: int) -> int {
    bytes[at] * 0x100_0000 + bytes[at + 1] * 0x1_0000 + bytes[at + 2] * 0x100 + bytes[at + 3]
}

/// The big-endian number in the eight bytes at `at`.
pub open spec fn spec_be_u64(bytes: Seq<u8>, at: int) -> int {
    spec_be_u32(bytes, at) * 0x1_0000_0000 + spec_be_u32(bytes, at + 4)
}

/// `n` rounded up to a multiple of four.
pub open spec fn align4(n: int) -> int {
    (n + 3) / 4 * 4
}

/// The place of the first zero byte at or behind `from`; the length of the
/// bytes where there is none.
pub open spec fn nul_position(bytes: Seq<u8>, from: int) -> int
    decreases bytes.len() - from,
{
    if from < 0 || from >= bytes.len() {
        bytes.len() as int
    } else if bytes[from] == 0 {
        from
    } else {
        nul_position(bytes, from + 1)
    }
}

/// The big-endian number in the four bytes at `at`.
pub fn be_u32(bytes: &Vec<u8>, at: usize) -> (value: u32)
    requires
        at + 4 <= bytes@.len(),
    ensures
        value == spec_be_u32(bytes@, at as int),
{
    let len: usize = bytes.len();
    (bytes[at] as u32) * 0x100_0000 + (bytes[at + 1] as u32) * 0x1_0000 + (bytes[at + 2] as u32)
        * 0x100 + (bytes[at + 3] as u32)
}

/// The big-endian number in the eight bytes at `at`.
pub fn be_u64(bytes: &Vec<u8>, at: usize) -> (value: u64)
    requires
        at + 8 <= bytes@.len(),
    ensures
        value == spec_be_u64(bytes@, at as int),
{
    let len: usize = bytes.len();
    (be_u32(bytes, at) as u64) * 0x1_0000_0000 + (be_u32(bytes, at + 4) as u64)
}

/// The place of the first zero byte at or behind `from`; the length of the
/// bytes where there is none.
pub fn find_nul(bytes: &Vec<u8>, from: usize) -> (place: usize)
    ensures
        place == nul_position(bytes@, from as int),
        from <= bytes@.len() ==> from <= place <= bytes@.len(),
        place < bytes@.len() ==> bytes@[place as int] == 0,
{
    let mut i: usize = from;
    while i < bytes.len()
        invariant
            from <= i,
            nul_position(bytes@, i as int) == nul_position(bytes@, from as int),
        decreases bytes@.len() - i,
    {
        if bytes[i] == 0 {
            return i;
        }
        i = i + 1;
    }
    bytes.len()
}

/// The bytes from `from` up to `to`, copied.
pub fn copy_range(bytes: &Vec<u8>, from: usize, to: usize) -> (copy: Vec<u8>)
    requires
        from <= to <= bytes@.len(),
    ensures
        copy@ == bytes@.subrange(from as int, to as int),
{
    let mut copy: Vec<u8> = Vec::new();
    let mut i: usize = from;
    while i < to
        invariant
            from <= i <= to,
            to <= bytes@.len(),
            copy@ == bytes@.subrange(from as int, i as int),
        decreases to - i,
    {
        copy.push(bytes[i]);
        i = i + 1;
        assert(copy@ =~= bytes@.subrange(from as int, i as int));
    }
    copy
}

/// Why a device tree blob cannot be read.
#[derive(Clone, Copy, PartialEq, Eq, Debug, Structural)]
pub enum FdtError {
    /// The bytes end before what is read.
    Truncated,
    /// The blob does not start with the magic number.
    BadMagic,
    /// The blob has another version.
    BadVersion,
    /// A token of the structure block is not known.
    UnknownToken,
    /// Bytes follow the end token.
    TrailingData,
}

/// The header of a device tree blob.
#[derive(Clone, Copy, PartialEq, Eq, Debug, Structural)]
pub struct Header {
    pub magic: u32,
    pub totalsize: u32,
    pub off_dt_struct: u32,
    pub off_dt_strings: u32,
    pub off_mem_rsvmap: u32,
    pub version: u32,
    pub last_comp_version: u32,
    pub boot_cpuid_phys: u32,
    pub size_dt_strings: u32,
    pub size_dt_struct: u32,
}

/// One entry of the map of reserved memory.
#[derive(Clone, Copy, PartialEq, Eq, Debug, Structural)]
pub struct ReserveEntry {
    pub address: u64,
    pub size: u64,
}

impl ReserveEntry {
    /// The last address of the reserved area.
    pub fn last_address(&self) -> (last: u64)
        requires
            self.address + self.size >= 1,
            self.address + self.size - 1 <= u64::MAX,
        ensures
            last == self.address + self.size - 1,
    {
        if self.size == 0 {
            self.address - 1
        } else {
            self.address + (self.size - 1)
        }
    }
}

/// The header that the first 40 bytes hold.
pub open spec fn spec_header(blob: Seq<u8>) -> Header {
    Header {
        magic: spec_be_u32(blob, 0) as u32,
        totalsize: spec_be_u32(blob, 4) as u32,
        off_dt_struct: spec_be_u32(blob, 8) as u32,
        off_dt_strings: spec_be_u32(blob, 12) as u32,
        off_mem_rsvmap: spec_be_u32(blob, 16) as u32,
        version: spec_be_u32(blob, 20) as u32,
        last_comp_version: spec_be_u32(blob, 24) as u32,
        boot_cpuid_phys: spec_be_u32(blob, 28) as u32,
        size_dt_strings: spec_be_u32(blob, 32) as u32,
        size_dt_struct: spec_be_u32(blob, 36) as u32,
    }
}

/// What `parse` answers for a blob.
pub open spec fn spec_parse(blob: Seq<u8>) -> Result<Header, FdtError> {
    if blob.len() < HEADER_SIZE {
        Err(FdtError::Truncated)
    } else if spec_header(blob).magic != FDT_MAGIC {
        Err(FdtError::BadMagic)
    } else if spec_header(blob).version != FDT_VERSION {
        Err(FdtError::BadVersion)
    } else {
        Ok(spec_header(blob))
    }
}

/// Reads the header of the device tree blob and checks its magic number and
/// its version.
pub fn parse(blob: &Vec<u8>) -> (header: Result<Header, FdtError>)
    ensures
        header == spec_parse(blob@),
{
    if blob.len() < HEADER_SIZE {
        return Err(FdtError::Truncated);
    }
    let header = Header {
        magic: be_u32(blob, 0),
        totalsize: be_u32(blob, 4),
        off_dt_struct: be_u32(blob, 8),
        off_dt_strings: be_u32(blob, 12),
        off_mem_rsvmap: be_u32(blob, 16),
        version: be_u32(blob, 20),
        last_comp_version: be_u32(blob, 24),
        boot_cpuid_phys: be_u32(blob, 28),
        size_dt_strings: be_u32(blob, 32),
        size_dt_struct: be_u32(blob, 36),
    };
    if header.magic != FDT_MAGIC {
        return Err(FdtError::BadMagic);
    }
    if header.version != FDT_VERSION {
        return Err(FdtError::BadVersion);
    }
    Ok(header)
}

/// The entry of the reserved-memory map that lies at `at`.
pub open spec fn entry_at(blob: Seq<u8>, at: int) -> ReserveEntry {
    ReserveEntry { address: spec_be_u64(blob, at) as u64, size: spec_be_u64(blob, at + 8) as u64 }
}

/// The entry is the one that ends the map: address and size are zero.
pub open spec fn is_terminator(entry: ReserveEntry) -> bool {
    entry.address == 0 && entry.size == 0
}

/// The map of reserved memory that starts at `start` has `n` entries: each
/// lies within the blob and has an address or a size, and the terminator
/// follows them.
pub open spec fn has_reserved_areas(blob: Seq<u8>, start: int, n: int) -> bool {
    &&& 0 <= n
    &&& start + 16 * (n + 1) <= blob.len()
    &&& forall|k: int| 0 <= k < n ==> !is_terminator(#[trigger] entry_at(blob, start + 16 * k))
    &&& is_terminator(entry_at(blob, start + 16 * n))
}

/// One token of the structure block, with its names and values as bytes.
#[derive(Debug)]
pub enum FdtToken {
    BeginNode(Vec<u8>),
    EndNode,
    Prop(Vec<u8>, Vec<u8>),
    Nop,
    End,
}

/// A token as sequences of bytes.
pub enum FdtTokenView {
    BeginNode(Seq<u8>),
    EndNode,
    Prop(Seq<u8>, Seq<u8>),
    Nop,
    End,
}

impl FdtToken {
    /// The token with its names and values as sequences.
    pub open spec fn view(&self) -> FdtTokenView {
        match self {
            FdtToken::BeginNode(name) => FdtTokenView::BeginNode(name@),
            FdtToken::EndNode => FdtTokenView::EndNode,
            FdtToken::Prop(name, data) => FdtTokenView::Prop(name@, data@),
            FdtToken::Nop => FdtTokenView::Nop,
            FdtToken::End => FdtTokenView::End,
        }
    }
}

/// `n` rounded up to a multiple of four, but not beyond `limit`.
pub open spec fn aligned_within(n: int, limit: int) -> int {
    if align4(n) <= limit {
        align4(n)
    } else {
        limit
    }
}

/// What makes the bytes at `position` of the structure block unreadable: a
/// token that is not known, or bytes behind the end token. A block that ends
/// before its token is complete is none of these: there reading ends.
pub open spec fn malformed_at(block: Seq<u8>, position: int) -> Option<FdtError> {
    if position + 4 > block.len() {
        None
    } else {
        let token = spec_be_u32(block, position);
        if token == FDT_BEGIN_NODE || token == FDT_END_NODE || token == FDT_PROP || token
            == FDT_NOP {
            None
        } else if token == FDT_END {
            if position + 4 == block.len() {
                None
            } else {
                Some(FdtError::TrailingData)
            }
        } else {
            Some(FdtError::UnknownToken)
        }
    }
}

/// The token at `position` of the structure block and the position behind
/// it. There is none at the end of the block, and none where the block ends
/// before the token is complete: inside the token's number, inside a name
/// without its zero byte, inside the header or the value of a property, or
/// where the name of a property lies outside the strings block.
pub open spec fn token_at(block: Seq<u8>, strings: Seq<u8>, position: int) -> Option<
    (FdtTokenView, int),
> {
    if position + 4 > block.len() {
        None
    } else {
        let token = spec_be_u32(block, position);
        let body = position + 4;
        if token == FDT_BEGIN_NODE {
            let end = nul_position(block, body);
            if end >= block.len() {
                None
            } else {
                Some(
                    (
                        FdtTokenView::BeginNode(block.subrange(body, end)),
                        aligned_within(end + 1, block.len() as int),
                    ),
                )
            }
        } else if token == FDT_END_NODE {
            Some((FdtTokenView::EndNode, body))
        } else if token == FDT_PROP {
            if body + 8 > block.len() {
                None
            } else {
                let len = spec_be_u32(block, body);
                let name_offset = spec_be_u32(block, body + 4);
                let data = body + 8;
                if data + len > block.len() {
                    None
                } else {
                    match StructureBlockIterator::spec_get_string(strings, name_offset) {
                        Some(name) => Some(
                            (
                                FdtTokenView::Prop(name, block.subrange(data, data + len)),
                                aligned_within(data + len, block.len() as int),
                            ),
                        ),
                        None => None,
                    }
                }
            }
        } else if token == FDT_NOP {
            Some((FdtTokenView::Nop, body))
        } else if token == FDT_END {
            Some((FdtTokenView::End, body))
        } else {
            None
        }
    }
}

/// A reader of the tokens of a structure block, one after the other.
pub struct StructureBlockIterator {
    block: Vec<u8>,
    strings: Vec<u8>,
    position: usize,
}

impl StructureBlockIterator {
    /// The bytes of the structure block.
    pub closed spec fn block(&self) -> Seq<u8> {
        self.block@
    }

    /// The bytes of the strings block.
    pub closed spec fn strings(&self) -> Seq<u8> {
        self.strings@
    }

    /// Where the next token is read.
    pub closed spec fn position(&self) -> int {
        self.position as int
    }

    /// The position lies within the block.
    pub open spec fn wf(&self) -> bool {
        0 <= self.position() <= self.block().len()
    }

    /// A reader at the start of `block`, with property names from `strings`.
    pub fn new(block: Vec<u8>, strings: Vec<u8>) -> (iterator: Self)
        ensures
            iterator.wf(),
            iterator.block() == block@,
            iterator.strings() == strings@,
            iterator.position() == 0,
    {
        StructureBlockIterator { block, strings, position: 0 }
    }

    /// The name that starts at `offset` of the strings block, up to its zero
    /// byte; none where the offset lies outside the block or no zero byte
    /// follows.
    pub open spec fn spec_get_string(strings: Seq<u8>, offset: int) -> Option<Seq<u8>> {
        if offset >= strings.len() || nul_position(strings, offset) >= strings.len() {
            None
        } else {
            Some(strings.subrange(offset, nul_position(strings, offset)))
        }
    }

    /// The name that starts at `offset` of the strings block.
    pub fn get_string(&self, offset: usize) -> (name: Option<Vec<u8>>)
        ensures
            match Self::spec_get_string(self.strings(), offset as int) {
                Some(expected) => name matches Some(found) && found@ == expected,
                None => name is None,
            },
    {
        if offset >= self.strings.len() {
            return None;
        }
        let end = find_nul(&self.strings, offset);
        if end >= self.strings.len() {
            return None;
        }
        Some(copy_range(&self.strings, offset, end))
    }

    /// Whether the bytes at the position can be read, and why not: see
    /// `malformed_at`.
    pub fn malformed(&self) -> (error: Option<FdtError>)
        requires
            self.wf(),
        ensures
            error == malformed_at(self.block(), self.position()),
    {
        let len: usize = self.block.len();
        let position: usize = self.position;
        if len - position < 4 {
            return None;
        }
        let token = be_u32(&self.block, position);
        if token == FDT_BEGIN_NODE || token == FDT_END_NODE || token == FDT_PROP || token
            == FDT_NOP {
            None
        } else if token == FDT_END {
            if position + 4 == len {
                None
            } else {
                Some(FdtError::TrailingData)
            }
        } else {
            Some(FdtError::UnknownToken)
        }
    }

    /// Reads the next token and moves behind it. `None`, with the reader
    /// where it was, at the end of the block and where the block ends before
    /// the token is complete.
    pub fn next(&mut self) -> (token: Option<FdtToken>)
        requires
            old(self).wf(),
            malformed_at(old(self).block(), old(self).position()) is None,
        ensures
            final(self).wf(),
            final(self).block() == old(self).block(),
            final(self).strings() == old(self).strings(),
            match token_at(old(self).block(), old(self).strings(), old(self).position()) {
                Some((expected, position)) => {
                    &&& token matches Some(found)
                    &&& found@ == expected
                    &&& final(self).position() == position
                },
                None => token is None && final(self).position() == old(self).position(),
            },
    {
        let len: usize = self.block.len();
        let position: usize = self.position;
        if len - position < 4 {
            return None;
        }
        let token = be_u32(&self.block, position);
        let body: usize = position + 4;
        if token == FDT_BEGIN_NODE {
            let end = find_nul(&self.block, body);
            if end >= len {
                return None;
            }
            let name = copy_range(&self.block, body, end);
            self.position = align_within(end + 1, len);
            Some(FdtToken::BeginNode(name))
        } else if token == FDT_END_NODE {
            self.position = body;
            Some(FdtToken::EndNode)
        } else if token == FDT_PROP {
            if len - body < 8 {
                return None;
            }
            let data_len: usize = be_u32(&self.block, body) as usize;
            let name_offset: usize = be_u32(&self.block, body + 4) as usize;
            let data: usize = body + 8;
            if len - data < data_len {
                return None;
            }
            let name = match self.get_string(name_offset) {
                Some(name) => name,
                None => {
                    return None;
                },
            };
            let value = copy_range(&self.block, data, data + data_len);
            self.position = align_within(data + data_len, len);
            Some(FdtToken::Prop(name, value))
        } else if token == FDT_NOP {
            self.position = body;
            Some(FdtToken::Nop)
        } else {
            self.position = body;
            Some(FdtToken::End)
        }
    }

    /// Reads the next token as `next` does, where the bytes at the position
    /// can be read; else says why they cannot, with the reader where it was.
    pub fn try_next(&mut self) -> (token: Result<Option<FdtToken>, FdtError>)
        requires
            old(self).wf(),
        ensures
            final(self).wf(),
            final(self).block() == old(self).block(),
            final(self).strings() == old(self).strings(),
            match malformed_at(old(self).block(), old(self).position()) {
                Some(error) => token == Err::<Option<FdtToken>, FdtError>(error)
                    && final(self).position() == old(self).position(),
                None => match token_at(
                    old(self).block(),
                    old(self).strings(),
                    old(self).position(),
                ) {
                    Some((expected, position)) => {
                        &&& token matches Ok(Some(found))
                        &&& found@ == expected
                        &&& final(self).position() == position
                    },
                    None => token matches Ok(None) && final(self).position()
                        == old(self).position(),
                },
            },
    {
        match self.malformed() {
            Some(error) => Err(error),
            None => Ok(self.next()),
        }
    }
}

/// `n` rounded up to a multiple of four, but not beyond `limit`.
pub fn align_within(n: usize, limit: usize) -> (aligned: usize)
    requires
        n <= limit,
    ensures
        aligned == aligned_within(n as int, limit as int),
        n <= aligned <= limit,
{
    let remainder: usize = n % 4;
    if remainder == 0 {
        n
    } else if limit - n < 4 - remainder {
        limit
    } else {
        n + (4 - remainder)
    }
}

impl Header {
    /// The map of reserved memory: the entries from `off_mem_rsvmap` up to
    /// the entry whose address and size are zero. `None` where the blob ends
    /// before that entry.
    pub fn get_reserved_areas(&self, blob: &Vec<u8>) -> (areas: Option<Vec<ReserveEntry>>)
        ensures
            match areas {
                Some(entries) => {
                    &&& has_reserved_areas(
                        blob@,
                        self.off_mem_rsvmap as int,
                        entries@.len() as int,
                    )
                    &&& forall|k: int|
                        0 <= k < entries@.len() ==> #[trigger] entries@[k] == entry_at(
                            blob@,
                            self.off_mem_rsvmap + 16 * k,
                        )
                },
                None => forall|n: int| !has_reserved_areas(blob@, self.off_mem_rsvmap as int, n),
            },
    {
        let start: usize = self.off_mem_rsvmap as usize;
        let len: usize = blob.len();
        let mut entries: Vec<ReserveEntry> = Vec::new();
        let mut at: usize = start;
        if start > len {
            assert forall|n: int| !has_reserved_areas(blob@, self.off_mem_rsvmap as int, n) by {}
            return None;
        }
        loop
            invariant
                start == self.off_mem_rsvmap,
                len == blob@.len(),
                start <= at <= len,
                at == start + 16 * entries@.len(),
                forall|k: int|
                    0 <= k < entries@.len() ==> #[trigger] entries@[k] == entry_at(
                        blob@,
                        start + 16 * k,
                    ),
                forall|k: int|
                    0 <= k < entries@.len() ==> !is_terminator(
                        #[trigger] entry_at(blob@, start + 16 * k),
                    ),
            decreases len - at,
        {
            if len - at < 16 {
                assert forall|n: int| !has_reserved_areas(
                    blob@,
                    self.off_mem_rsvmap as int,
                    n,
                ) by {
                    if has_reserved_areas(blob@, self.off_mem_rsvmap as int, n) {
                        if n < entries@.len() {
                            assert(!is_terminator(entry_at(blob@, start + 16 * n)));
                        }
                    }
                }
                return None;
            }
            let entry = ReserveEntry { address: be_u64(blob, at), size: be_u64(blob, at + 8) };
            if entry.address == 0 && entry.size == 0 {
                return Some(entries);
            }
            entries.push(entry);
            at = at + 16;
        }
    }

    /// The reader of the structure block: the `size_dt_struct` bytes at
    /// `off_dt_struct`, with property names from the `size_dt_strings` bytes
    /// at `off_dt_strings`. `None` where the blob does not hold both blocks.
    pub fn get_structure_block(&self, blob: &Vec<u8>) -> (iterator: Option<
        StructureBlockIterator,
    >)
        ensures
            iterator is Some <==> self.off_dt_struct + self.size_dt_struct <= blob@.len()
                && self.off_dt_strings + self.size_dt_strings <= blob@.len(),
            iterator matches Some(reader) ==> {
                &&& reader.wf()
                &&& reader.position() == 0
                &&& reader.block() == blob@.subrange(
                    self.off_dt_struct as int,
                    self.off_dt_struct + self.size_dt_struct,
                )
                &&& reader.strings() == blob@.subrange(
                    self.off_dt_strings as int,
                    self.off_dt_strings + self.size_dt_strings,
                )
            },
    {
        let len: usize = blob.len();
        let block_start: usize = self.off_dt_struct as usize;
        let block_size: usize = self.size_dt_struct as usize;
        let strings_start: usize = self.off_dt_strings as usize;
        let strings_size: usize = self.size_dt_strings as usize;
        if block_start > len || len - block_start < block_size {
            return None;
        }
        if strings_start > len || len - strings_start < strings_size {
            return None;
        }
        let block = copy_range(blob, block_start, block_start + block_size);
        let strings = copy_range(blob, strings_start, strings_start + strings_size);
        Some(StructureBlockIterator::new(block, strings))
    }
}

} // verus!
