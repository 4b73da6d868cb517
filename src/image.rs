//! The image session: header geometry, the FAT, block addressing and block chains.
use vstd::prelude::*;

use crate::block::Block;
use crate::error::PfError;
use crate::le::{le_value, lemma_le_value_bound, lemma_pow256_values, read_le};
use vstd::slice::{slice_subrange, slice_to_vec};

verus! {

/// The last block number a FAT chain can name; `0xFFFF` ends a chain.
pub const MAX_DATA_BLOCKS: u16 = 0xFFFE;

/// The value of a FAT entry that ends a chain.
pub const END_OF_CHAIN: u16 = 0xFFFF;

/// A file modification time: seconds and nanoseconds relative to the Unix epoch.
#[derive(Clone, Copy, Debug, PartialEq, Eq, Structural)]
pub struct ModTime {
    pub secs: i64,
    pub nanos: u32,
}

/// The block size that a header's size code declares: `256` shifted left by `code`.
pub open spec fn block_size_of(code: nat) -> nat
    decreases code,
{
    if code == 0 {
        256
    } else {
        2 * block_size_of((code - 1) as nat)
    }
}

/// The number of addressable data blocks for a FAT of `entries` entries.
pub open spec fn data_blocks_of(entries: int) -> int {
    if entries - 1 < MAX_DATA_BLOCKS as int {
        entries - 1
    } else {
        MAX_DATA_BLOCKS as int
    }
}

/// The length of an image whose blocks hold `block_size` bytes and whose FAT takes
/// `num_fat_blocks` blocks.
pub open spec fn image_len_for(block_size: int, num_fat_blocks: int) -> int {
    let fat_size = block_size * num_fat_blocks;
    fat_size + block_size * data_blocks_of(fat_size / 2)
}

/// The abstract state of a session.
pub ghost struct ImageModel {
    pub block_size: int,
    pub num_fat_blocks: int,
    pub bytes: Seq<u8>,
    pub last_update: ModTime,
}

impl ImageModel {
    pub open spec fn fat_size(self) -> int {
        self.block_size * self.num_fat_blocks
    }

    pub open spec fn num_fat_entries(self) -> int {
        self.fat_size() / 2
    }

    pub open spec fn data_block_count(self) -> int {
        data_blocks_of(self.num_fat_entries())
    }

    pub open spec fn data_size(self) -> int {
        self.block_size * self.data_block_count()
    }

    /// The length an image of this geometry must have.
    pub open spec fn image_len(self) -> int {
        image_len_for(self.block_size, self.num_fat_blocks)
    }

    /// The session invariant: a declared geometry that the bytes match.
    pub open spec fn wf(self) -> bool {
        &&& exists|code: nat| code < 8 && self.block_size == block_size_of(code)
        &&& 1 <= self.num_fat_blocks <= 255
        &&& self.bytes.len() == self.image_len()
    }

    /// The raw value of FAT entry `i`.
    pub open spec fn entry(self, i: int) -> int {
        le_value(self.bytes.subrange(2 * i, 2 * i + 2)) as int
    }

    pub open spec fn valid_block(self, n: int) -> bool {
        1 <= n <= self.data_block_count()
    }

    /// The bytes of data block `n`.
    pub open spec fn block_data(self, n: int) -> Seq<u8> {
        self.bytes.subrange(
            self.fat_size() + (n - 1) * self.block_size,
            self.fat_size() + n * self.block_size,
        )
    }

    /// The number of FAT entries that the listing scans: those whose index fits a `u16`.
    pub open spec fn listed_entries(self) -> int {
        if self.num_fat_entries() < 0x1_0000 {
            self.num_fat_entries()
        } else {
            0x1_0000
        }
    }

    /// The `(index, value)` pairs of the nonzero entries among the first `n`, by index.
    pub open spec fn fat_listing(self, n: int) -> Seq<(u16, u16)>
        decreases n,
    {
        if n <= 0 {
            Seq::empty()
        } else if self.entry(n - 1) != 0 {
            self.fat_listing(n - 1).push(((n - 1) as u16, self.entry(n - 1) as u16))
        } else {
            self.fat_listing(n - 1)
        }
    }

    pub open spec fn fat_table(self) -> Seq<(u16, u16)> {
        self.fat_listing(self.listed_entries())
    }

    /// The bytes of the chain that starts at block `b`, when at most `fuel` blocks may
    /// still be visited.
    pub open spec fn chain_from(self, b: int, fuel: nat) -> Result<Seq<u8>, PfError>
        decreases fuel,
    {
        if !self.valid_block(b) {
            Err(PfError::InvalidBlockNumber(b as u16, self.data_block_count() as u16))
        } else if fuel == 0 {
            Err(PfError::CyclicChain)
        } else if self.entry(b) == END_OF_CHAIN {
            Ok(self.block_data(b))
        } else {
            prefixed(self.block_data(b), self.chain_from(self.entry(b), (fuel - 1) as nat))
        }
    }

    /// The bytes of the file whose chain starts at block `b`; a chain may visit each
    /// data block once.
    pub open spec fn file_from(self, b: int) -> Result<Seq<u8>, PfError> {
        self.chain_from(b, self.data_block_count() as nat)
    }

    /// Whether a reload at modification time `t` takes fresh bytes.
    pub open spec fn is_stale(self, t: ModTime) -> bool {
        t != self.last_update
    }

    /// Whether a reload at time `t` with fresh bytes `fresh` succeeds.
    pub open spec fn reload_ok(self, t: ModTime, fresh: Seq<u8>) -> bool {
        !self.is_stale(t) || fresh.len() == self.image_len()
    }

    /// The state after a reload at time `t` offered the bytes `fresh`.
    pub open spec fn reloaded(self, t: ModTime, fresh: Seq<u8>) -> ImageModel {
        if self.is_stale(t) && fresh.len() == self.image_len() {
            ImageModel { bytes: fresh, last_update: t, ..self }
        } else {
            self
        }
    }
}

/// `p` followed by the bytes of `r`, when `r` holds bytes.
pub open spec fn prefixed(p: Seq<u8>, r: Result<Seq<u8>, PfError>) -> Result<Seq<u8>, PfError> {
    match r {
        Ok(s) => Ok(p + s),
        Err(e) => Err(e),
    }
}

/// The session's state that the image header and bytes give.
pub open spec fn model_of(bytes: Seq<u8>, t: ModTime) -> ImageModel
    recommends
        bytes.len() >= 2,
{
    ImageModel {
        block_size: block_size_of(bytes[0] as nat) as int,
        num_fat_blocks: bytes[1] as int,
        bytes,
        last_update: t,
    }
}

/// Whether `bytes` is an image whose length matches the geometry its header declares.
pub open spec fn image_ok(bytes: Seq<u8>) -> bool {
    &&& bytes.len() >= 2
    &&& bytes[0] < 8
    &&& bytes[1] >= 1
    &&& bytes.len() == image_len_for(block_size_of(bytes[0] as nat) as int, bytes[1] as int)
}

/// A PennFat image session: the bytes of the image file as last read, with the
/// geometry its header declares.
pub struct PennFat {
    block_size: u16,
    num_fat_blocks: u8,
    bytes: Vec<u8>,
    last_update: ModTime,
}

impl View for PennFat {
    type V = ImageModel;

    closed spec fn view(&self) -> ImageModel {
        ImageModel {
            block_size: self.block_size as int,
            num_fat_blocks: self.num_fat_blocks as int,
            bytes: self.bytes@,
            last_update: self.last_update,
        }
    }
}

proof fn lemma_block_size_bounds(code: nat)
    requires
        code < 8,
    ensures
        256 <= block_size_of(code) <= 32768,
    decreases code,
{
    reveal_with_fuel(block_size_of, 8);
}

/// Bounds on the geometry of a well-formed session.
proof fn lemma_geometry(m: ImageModel)
    requires
        m.wf(),
    ensures
        256 <= m.block_size <= 32768,
        256 <= m.fat_size() <= 32768 * 255,
        128 <= m.num_fat_entries(),
        1 <= m.data_block_count() <= 0xFFFE,
        m.data_size() == m.block_size * m.data_block_count(),
        m.data_size() <= 32768 * 0xFFFE,
        2 * m.num_fat_entries() <= m.fat_size(),
        m.bytes.len() == m.fat_size() + m.data_size(),
{
    let code = choose|code: nat| code < 8 && m.block_size == block_size_of(code);
    lemma_block_size_bounds(code);
    let bs = m.block_size;
    let nfb = m.num_fat_blocks;
    assert(256 <= bs * nfb <= 32768 * 255) by (nonlinear_arith)
        requires
            256 <= bs <= 32768,
            1 <= nfb <= 255,
    ;
    let d = m.data_block_count();
    assert(bs * d <= 32768 * 0xFFFE) by (nonlinear_arith)
        requires
            256 <= bs <= 32768,
            1 <= d <= 0xFFFE,
    ;
}

/// The bytes of a valid block lie inside the image, after the FAT.
proof fn lemma_block_in_image(m: ImageModel, n: int)
    requires
        m.wf(),
        m.valid_block(n),
    ensures
        m.fat_size() <= m.fat_size() + (n - 1) * m.block_size,
        m.fat_size() + n * m.block_size <= m.bytes.len(),
        (n - 1) * m.block_size + m.block_size == n * m.block_size,
{
    lemma_geometry(m);
    let bs = m.block_size;
    let d = m.data_block_count();
    assert(0 <= (n - 1) * bs && n * bs <= bs * d && (n - 1) * bs + bs == n * bs)
        by (nonlinear_arith)
        requires
            1 <= n <= d,
            bs >= 0,
    ;
    assert(m.data_size() == bs * d);
}

/// The block size for size code `code`.
fn block_size_for(code: u8) -> (r: u16)
    requires
        code < 8,
    ensures
        r as nat == block_size_of(code as nat),
{
    let mut r: u16 = 256;
    let mut i: u8 = 0;
    while i < code
        invariant
            i <= code < 8,
            r as nat == block_size_of(i as nat),
        decreases code - i,
    {
        proof {
            lemma_block_size_bounds((i + 1) as nat);
        }
        r = r * 2;
        i = i + 1;
    }
    r
}

impl PennFat {
    #[verifier::type_invariant]
    closed spec fn inv(&self) -> bool {
        self@.wf()
    }

    /// Opens a session on the image `bytes`, read from a file last modified at
    /// `modified`. Fails with `FileSize` unless the length matches the header's
    /// geometry (a header too short, a size code above 7 or no FAT block never does).
    pub fn load(bytes: Vec<u8>, modified: ModTime) -> (r: Result<PennFat, PfError>)
        ensures
            match r {
                Ok(fs) => image_ok(bytes@) && fs@ == model_of(bytes@, modified),
                Err(e) => !image_ok(bytes@) && e is FileSize,
            },
    {
        if bytes.len() < 2 {
            return Err(PfError::FileSize);
        }
        let code = bytes[0];
        let num_fat_blocks = bytes[1];
        if code >= 8 || num_fat_blocks == 0 {
            return Err(PfError::FileSize);
        }
        let block_size = block_size_for(code);
        proof {
            lemma_block_size_bounds(code as nat);
            let bs = block_size as int;
            let nfb = num_fat_blocks as int;
            assert(256 <= bs * nfb <= 32768 * 255) by (nonlinear_arith)
                requires
                    256 <= bs <= 32768,
                    1 <= nfb <= 255,
            ;
        }
        let fat_size: u32 = block_size as u32 * num_fat_blocks as u32;
        let entries: u32 = fat_size / 2;
        let blocks: u32 = if entries - 1 < MAX_DATA_BLOCKS as u32 {
            entries - 1
        } else {
            MAX_DATA_BLOCKS as u32
        };
        let ghost m = model_of(bytes@, modified);
        proof {
            let bs = block_size as int;
            assert(bs * blocks <= 32768 * 0xFFFE) by (nonlinear_arith)
                requires
                    256 <= bs <= 32768,
                    blocks <= 0xFFFE,
            ;
        }
        let expected: u64 = fat_size as u64 + block_size as u64 * blocks as u64;
        if bytes.len() as u64 != expected {
            return Err(PfError::FileSize);
        }
        Ok(PennFat { block_size, num_fat_blocks, bytes, last_update: modified })
    }

    /// Whether the file, now showing modification time `modified`, has changed since
    /// its bytes were last taken.
    pub fn needs_reload(&self, modified: ModTime) -> (r: bool)
        ensures
            r == self@.is_stale(modified),
    {
        modified != self.last_update
    }

    /// Takes the bytes `fresh`, read from the file at modification time `modified`,
    /// if that time differs from the last one; otherwise nothing changes. Fails with
    /// `FileSize`, changing nothing, if fresh bytes of another length are offered.
    pub fn reload(&mut self, modified: ModTime, fresh: Vec<u8>) -> (r: Result<(), PfError>)
        ensures
            final(self)@ == old(self)@.reloaded(modified, fresh@),
            match r {
                Ok(()) => old(self)@.reload_ok(modified, fresh@),
                Err(e) => !old(self)@.reload_ok(modified, fresh@) && e is FileSize,
            },
    {
        proof {
            use_type_invariant(&*self);
            lemma_geometry(self@);
        }
        if modified == self.last_update {
            return Ok(());
        }
        if fresh.len() as u64 != self.fat_size() as u64 + self.data_size() {
            return Err(PfError::FileSize);
        }
        self.bytes = fresh;
        self.last_update = modified;
        Ok(())
    }

    /// The size of a block in bytes.
    pub fn block_size(&self) -> (r: u16)
        ensures
            r == self@.block_size,
    {
        self.block_size
    }

    /// The modification time of the file when its bytes were last taken.
    pub fn last_update_time(&self) -> (r: ModTime)
        ensures
            r == self@.last_update,
    {
        self.last_update
    }

    /// The size of the FAT region in bytes.
    pub fn fat_size(&self) -> (r: u32)
        ensures
            r == self@.fat_size(),
    {
        proof {
            use_type_invariant(self);
            lemma_geometry(self@);
        }
        self.block_size as u32 * self.num_fat_blocks as u32
    }

    /// The number of 16-bit entries in the FAT.
    pub fn num_fat_entries(&self) -> (r: u32)
        ensures
            r == self@.num_fat_entries(),
    {
        self.fat_size() / 2
    }

    /// The number of addressable data blocks.
    pub fn data_block_count(&self) -> (r: u16)
        ensures
            r == self@.data_block_count(),
    {
        proof {
            use_type_invariant(self);
            lemma_geometry(self@);
        }
        let entries = self.num_fat_entries();
        if entries - 1 < MAX_DATA_BLOCKS as u32 {
            (entries - 1) as u16
        } else {
            MAX_DATA_BLOCKS
        }
    }

    /// The size of the data region in bytes.
    fn data_size(&self) -> (r: u64)
        ensures
            r == self@.data_size(),
    {
        proof {
            use_type_invariant(self);
            lemma_geometry(self@);
        }
        self.block_size as u64 * self.data_block_count() as u64
    }

    /// The raw value of FAT entry `i`.
    fn entry(&self, i: u32) -> (r: u16)
        requires
            i < 0x1_0000,
            2 * i + 2 <= self@.bytes.len(),
        ensures
            r == self@.entry(i as int),
    {
        let v = read_le(self.bytes.as_slice(), (2 * i) as usize, 2);
        proof {
            lemma_pow256_values();
            lemma_le_value_bound(self@.bytes.subrange(2 * i, 2 * i + 2));
        }
        v as u16
    }

    /// The nonzero FAT entries as `(index, value)` pairs in ascending index order,
    /// over the entries whose index fits a `u16`.
    pub fn get_fat_table(&self) -> (r: Vec<(u16, u16)>)
        ensures
            r@ == self@.fat_table(),
    {
        proof {
            use_type_invariant(self);
            lemma_geometry(self@);
        }
        let entries = self.num_fat_entries();
        let limit: u32 = if entries < 0x1_0000 {
            entries
        } else {
            0x1_0000
        };
        let mut table: Vec<(u16, u16)> = Vec::new();
        let mut i: u32 = 0;
        while i < limit
            invariant
                self@.wf(),
                i <= limit,
                limit == self@.listed_entries(),
                2 * self@.num_fat_entries() <= self@.bytes.len(),
                table@ == self@.fat_listing(i as int),
            decreases limit - i,
        {
            let value = self.entry(i);
            if value != 0 {
                table.push((i as u16, value));
            }
            i = i + 1;
        }
        table
    }

    /// Data block `block_num`, which must lie in `1..=data_block_count()`; other
    /// numbers fail with `InvalidBlockNumber(block_num, data_block_count())`.
    pub fn get_block(&self, block_num: u16) -> (r: Result<Block, PfError>)
        ensures
            match r {
                Ok(b) => self@.valid_block(block_num as int) && b.data@ == self@.block_data(
                    block_num as int,
                ),
                Err(e) => !self@.valid_block(block_num as int) && e
                    == PfError::InvalidBlockNumber(block_num, self@.data_block_count() as u16),
            },
    {
        proof {
            use_type_invariant(self);
            lemma_geometry(self@);
        }
        let count = self.data_block_count();
        if block_num == 0 || block_num > count {
            return Err(PfError::InvalidBlockNumber(block_num, count));
        }
        proof {
            lemma_block_in_image(self@, block_num as int);
        }
        let start: usize = self.fat_size() as usize + (block_num as usize - 1)
            * self.block_size as usize;
        let end: usize = start + self.block_size as usize;
        let data = slice_to_vec(slice_subrange(self.bytes.as_slice(), start, end));
        Ok(Block { data })
    }

    /// The bytes of the file whose chain starts at block `block_num`: each block of
    /// the chain in order, up to the block whose FAT entry is `0xFFFF`. Fails with
    /// `InvalidBlockNumber` at the first block of the chain that is not a data block,
    /// and with `CyclicChain` where the chain goes on past `data_block_count()` blocks.
    pub fn get_file(&self, block_num: u16) -> (r: Result<Vec<u8>, PfError>)
        ensures
            match r {
                Ok(v) => self@.file_from(block_num as int) == Ok::<Seq<u8>, PfError>(v@),
                Err(e) => self@.file_from(block_num as int) == Err::<Seq<u8>, PfError>(e),
            },
    {
        proof {
            use_type_invariant(self);
            lemma_geometry(self@);
        }
        let mut file: Vec<u8> = Vec::new();
        let mut block: u16 = block_num;
        let mut fuel: u16 = self.data_block_count();
        proof {
            assert(file@ + seq![] =~= seq![]);
            assert forall|s: Seq<u8>| file@ + s == s by {
                assert(file@ + s =~= s);
            }
        }
        loop
            invariant
                self@.wf(),
                2 * self@.num_fat_entries() <= self@.bytes.len(),
                self@.data_block_count() <= self@.num_fat_entries() - 1,
                self@.file_from(block_num as int) == prefixed(
                    file@,
                    self@.chain_from(block as int, fuel as nat),
                ),
            decreases fuel,
        {
            let mut data = match self.get_block(block) {
                Ok(b) => b.data,
                Err(e) => return Err(e),
            };
            if fuel == 0 {
                return Err(PfError::CyclicChain);
            }
            let next = self.entry(block as u32);
            let ghost before = file@;
            let ghost blk = data@;
            file.append(&mut data);
            proof {
                assert forall|s: Seq<u8>| before + (blk + s) == file@ + s by {
                    assert(before + (blk + s) =~= file@ + s);
                }
            }
            if next == END_OF_CHAIN {
                return Ok(file);
            }
            block = next;
            fuel = fuel - 1;
        }
    }
}

/// Every pair of the first `n` listed entries names an entry index in `0..n` and
/// that entry's value, which is nonzero; the indices strictly ascend.
proof fn lemma_fat_listing(m: ImageModel, n: int)
    requires
        0 <= n <= 0x1_0000,
        2 * n <= m.bytes.len(),
    ensures
        forall|j: int|
            0 <= j < m.fat_listing(n).len() ==> {
                let p = #[trigger] m.fat_listing(n)[j];
                &&& p.0 < n
                &&& p.1 != 0
                &&& p.1 as int == m.entry(p.0 as int)
            },
        forall|j: int, k: int|
            0 <= j < k < m.fat_listing(n).len() ==> #[trigger] m.fat_listing(n)[j].0
                < #[trigger] m.fat_listing(n)[k].0,
        forall|i: int|
            0 <= i < n && #[trigger] m.entry(i) != 0 ==> exists|j: int|
                0 <= j < m.fat_listing(n).len() && m.fat_listing(n)[j] == (
                i as u16,
                m.entry(i) as u16,
            ),
    decreases n,
{
    if n > 0 {
        lemma_fat_listing(m, n - 1);
        let prev = m.fat_listing(n - 1);
        if m.entry(n - 1) != 0 {
            lemma_le_value_bound(m.bytes.subrange(2 * (n - 1), 2 * (n - 1) + 2));
            lemma_pow256_values();
            let cur = m.fat_listing(n);
            assert(cur == prev.push(((n - 1) as u16, m.entry(n - 1) as u16)));
            assert forall|j: int, k: int| 0 <= j < k < cur.len() implies #[trigger] cur[j].0
                < #[trigger] cur[k].0 by {
                if k < prev.len() {
                    assert(prev[j].0 < prev[k].0);
                } else {
                    assert(prev[j].0 < n - 1);
                }
            }
            assert forall|i: int| 0 <= i < n && #[trigger] m.entry(i) != 0 implies exists|j: int|
                0 <= j < cur.len() && cur[j] == (i as u16, m.entry(i) as u16) by {
                if i < n - 1 {
                    let j = choose|j: int|
                        0 <= j < prev.len() && prev[j] == (i as u16, m.entry(i) as u16);
                    assert(cur[j] == prev[j]);
                } else {
                    assert(cur[prev.len() as int] == (i as u16, m.entry(i) as u16));
                }
            }
        } else {
            assert(m.fat_listing(n) == prev);
            assert forall|i: int| 0 <= i < n && #[trigger] m.entry(i) != 0 implies exists|j: int|
                0 <= j < prev.len() && prev[j] == (i as u16, m.entry(i) as u16) by {
                assert(i < n - 1);
            }
        }
    }
}

/// The FAT listing holds no free entry: each pair is an entry's own index with that
/// entry's nonzero value, the pairs come in strictly ascending index order, and every
/// nonzero entry whose index fits a `u16` is listed.
pub proof fn lemma_fat_table_entries(m: ImageModel)
    requires
        m.wf(),
    ensures
        forall|j: int|
            0 <= j < m.fat_table().len() ==> {
                let p = #[trigger] m.fat_table()[j];
                &&& (p.0 as int) < m.listed_entries()
                &&& p.1 != 0
                &&& p.1 as int == m.entry(p.0 as int)
            },
        forall|j: int, k: int|
            0 <= j < k < m.fat_table().len() ==> #[trigger] m.fat_table()[j].0
                < #[trigger] m.fat_table()[k].0,
        forall|i: int|
            0 <= i < m.listed_entries() && #[trigger] m.entry(i) != 0 ==> exists|j: int|
                0 <= j < m.fat_table().len() && m.fat_table()[j] == (
                i as u16,
                m.entry(i) as u16,
            ),
{
    lemma_geometry(m);
    lemma_fat_listing(m, m.listed_entries());
    assert(m.fat_table() == m.fat_listing(m.listed_entries()));
}

/// Block numbers `0` and `data_block_count() + 1` are rejected, while `1` and
/// `data_block_count()` are accepted; every accepted block holds `block_size` bytes.
pub proof fn lemma_block_range(m: ImageModel)
    requires
        m.wf(),
    ensures
        !m.valid_block(0),
        !m.valid_block(m.data_block_count() + 1),
        m.data_block_count() + 1 <= 0xFFFF,
        m.valid_block(1),
        m.valid_block(m.data_block_count()),
        forall|n: int| #[trigger] m.valid_block(n) ==> m.block_data(n).len() == m.block_size,
{
    lemma_geometry(m);
    assert forall|n: int| #[trigger] m.valid_block(n) implies m.block_data(n).len()
        == m.block_size by {
        lemma_block_in_image(m, n);
    }
}

/// Reading the file whose chain is `b1 -> b2 -> 0xFFFF` gives the bytes of `b1`
/// followed by those of `b2`, and no more.
pub proof fn lemma_two_block_chain(m: ImageModel, b1: int, b2: int)
    requires
        m.wf(),
        m.valid_block(b1),
        m.valid_block(b2),
        m.entry(b1) == b2,
        m.entry(b2) == END_OF_CHAIN,
    ensures
        m.file_from(b1) == Ok::<Seq<u8>, PfError>(m.block_data(b1) + m.block_data(b2)),
{
    let d = m.data_block_count();
    assert(d >= 2);
    assert(m.chain_from(b2, (d - 1) as nat) == Ok::<Seq<u8>, PfError>(m.block_data(b2)));
}

/// A reload that succeeded at modification time `t`, followed by a second reload at
/// the same time, takes no fresh bytes the second time and leaves the state as the
/// first one left it.
pub proof fn lemma_reload_twice(m: ImageModel, t: ModTime, first: Seq<u8>, second: Seq<u8>)
    requires
        m.reload_ok(t, first),
    ensures
        !m.reloaded(t, first).is_stale(t),
        m.reloaded(t, first).reloaded(t, second) == m.reloaded(t, first),
        m.reloaded(t, first).reload_ok(t, second),
{
}


/// A session loaded from an image whose length matches its header satisfies the
/// session invariant, so the laws above apply to it.
pub proof fn lemma_loaded_wf(bytes: Seq<u8>, t: ModTime)
    requires
        image_ok(bytes),
    ensures
        model_of(bytes, t).wf(),
{
    let code = bytes[0] as nat;
    assert(code < 8 && model_of(bytes, t).block_size == block_size_of(code));
}
} // verus!
