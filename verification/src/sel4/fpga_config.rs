//! Configuration-space regions: how they are handed out and how words are
//! stored in them.
//!
//! A region is a run of bytes. A word is four bytes, least significant byte
//! first, and may be stored at any byte offset that leaves room for it.

use vstd::prelude::*;

use crate::sel4::{CPtr, Error, Word};

verus! {

/// Bytes that one configuration word occupies.
pub const WORD_BYTES: usize = 4;

/// The kinds of region the fabric exposes.
#[derive(Debug, Clone, Copy, PartialEq, Eq, Structural)]
pub enum FpgaRegion {
    Configuration,
    IO,
    BlockRAM,
}

/// Whether a word at byte offset `offset` lies inside `size` bytes.
pub open spec fn word_in_bounds(size: nat, offset: nat) -> bool {
    offset + WORD_BYTES <= size
}

/// Byte `index` of `value`, counting from the least significant.
pub open spec fn word_byte(value: Word, index: int) -> u8 {
    if index == 0 {
        (value & 0xff) as u8
    } else if index == 1 {
        ((value >> 8) & 0xff) as u8
    } else if index == 2 {
        ((value >> 16) & 0xff) as u8
    } else {
        ((value >> 24) & 0xff) as u8
    }
}

/// The word whose bytes are `b0` to `b3`, least significant first.
pub open spec fn word_of_bytes(b0: u8, b1: u8, b2: u8, b3: u8) -> Word {
    (b0 as u32) | ((b1 as u32) << 8) | ((b2 as u32) << 16) | ((b3 as u32) << 24)
}

/// The word stored at byte offset `offset` of `mem`.
pub open spec fn load_word(mem: Seq<u8>, offset: int) -> Word
    recommends
        0 <= offset,
        offset + WORD_BYTES <= mem.len(),
{
    word_of_bytes(mem[offset], mem[offset + 1], mem[offset + 2], mem[offset + 3])
}

/// `mem` after `value` is stored at byte offset `offset`.
pub open spec fn store_word(mem: Seq<u8>, offset: int, value: Word) -> Seq<u8>
    recommends
        0 <= offset,
        offset + WORD_BYTES <= mem.len(),
{
    Seq::new(
        mem.len(),
        |i: int|
            if offset <= i < offset + WORD_BYTES {
                word_byte(value, i - offset)
            } else {
                mem[i]
            },
    )
}

/// Whether two words at the given byte offsets share no byte.
pub open spec fn words_disjoint(a: int, b: int) -> bool {
    a + WORD_BYTES <= b || b + WORD_BYTES <= a
}

/// A word is put together again from its four bytes.
pub proof fn lemma_word_bytes_round_trip(value: Word)
    ensures
        word_of_bytes(
            word_byte(value, 0),
            word_byte(value, 1),
            word_byte(value, 2),
            word_byte(value, 3),
        ) == value,
{
    assert(((value & 0xff) as u8 as u32) | ((((value >> 8) & 0xff) as u8 as u32) << 8) | ((((value
        >> 16) & 0xff) as u8 as u32) << 16) | ((((value >> 24) & 0xff) as u8 as u32) << 24)
        == value) by (bit_vector);
}

/// A stored word is read back at the same offset.
pub proof fn lemma_load_after_store(mem: Seq<u8>, offset: int, value: Word)
    requires
        0 <= offset,
        offset + WORD_BYTES <= mem.len(),
    ensures
        store_word(mem, offset, value).len() == mem.len(),
        load_word(store_word(mem, offset, value), offset) == value,
{
    lemma_word_bytes_round_trip(value);
}

/// Storing a word leaves every word that shares no byte with it as it was.
pub proof fn lemma_load_other_after_store(mem: Seq<u8>, offset: int, value: Word, other: int)
    requires
        0 <= offset,
        offset + WORD_BYTES <= mem.len(),
        0 <= other,
        other + WORD_BYTES <= mem.len(),
        words_disjoint(offset, other),
    ensures
        load_word(store_word(mem, offset, value), other) == load_word(mem, other),
{
}

/// A region of all-zero bytes holds the word zero everywhere.
pub proof fn lemma_load_zeroed(mem: Seq<u8>, offset: int)
    requires
        0 <= offset,
        offset + WORD_BYTES <= mem.len(),
        forall|i: int| 0 <= i < mem.len() ==> mem[i] == 0u8,
    ensures
        load_word(mem, offset) == 0,
{
    assert((0u8 as u32) | ((0u8 as u32) << 8) | ((0u8 as u32) << 16) | ((0u8 as u32) << 24)
        == 0u32) by (bit_vector);
}

/// The part of the address space that regions are handed out from.
///
/// Regions are handed out one after another, upwards from the base address.
/// A range that was handed out once is never handed out again, so no two
/// regions of one configuration interface ever overlap.
#[derive(Debug)]
pub struct FpgaConfig {
    cap: CPtr,
    base_addr: usize,
    mapped: usize,
    bitstream_len: usize,
    interrupt_armed: bool,
}

impl FpgaConfig {
    /// The capability the interface is reached through.
    pub closed spec fn capability(&self) -> CPtr {
        self.cap
    }

    /// The address of the first byte this interface can hand out.
    pub closed spec fn base(&self) -> nat {
        self.base_addr as nat
    }

    /// How many bytes have been handed out so far.
    pub closed spec fn mapped_bytes(&self) -> nat {
        self.mapped as nat
    }

    /// The length of the bitstream loaded last, zero if none was.
    pub closed spec fn bitstream_bytes(&self) -> nat {
        self.bitstream_len as nat
    }

    /// Whether the fabric's interrupt was armed.
    pub closed spec fn interrupt_enabled(&self) -> bool {
        self.interrupt_armed
    }

    /// The address that the next region will start at.
    pub open spec fn next_free(&self) -> nat {
        self.base() + self.mapped_bytes()
    }

    /// The handed-out part never reaches past the end of the address space.
    pub closed spec fn wf(&self) -> bool {
        self.base_addr + self.mapped <= usize::MAX
    }

    /// An interface that has handed out nothing yet.
    pub fn new(cap: CPtr, base_addr: usize) -> (config: FpgaConfig)
        ensures
            config.wf(),
            config.capability() == cap,
            config.base() == base_addr,
            config.mapped_bytes() == 0,
            config.bitstream_bytes() == 0,
            !config.interrupt_enabled(),
    {
        FpgaConfig { cap, base_addr, mapped: 0, bitstream_len: 0, interrupt_armed: false }
    }

    /// Records that `data` was loaded as the fabric's bitstream.
    pub fn load_bitstream(&mut self, data: &[u8]) -> (r: Result<(), Error>)
        ensures
            r is Ok,
            final(self).bitstream_bytes() == data@.len(),
            final(self).wf() == old(self).wf(),
            final(self).capability() == old(self).capability(),
            final(self).base() == old(self).base(),
            final(self).mapped_bytes() == old(self).mapped_bytes(),
            final(self).interrupt_enabled() == old(self).interrupt_enabled(),
    {
        self.bitstream_len = data.len();
        Ok(())
    }

    /// Hands out the next `size` bytes and returns the address of the first.
    ///
    /// Fails with `ResourceExhausted`, handing out nothing, when fewer than
    /// `size` bytes are left below the end of the address space.
    pub fn map_region(&mut self, region: FpgaRegion, size: usize) -> (r: Result<usize, Error>)
        requires
            old(self).wf(),
        ensures
            final(self).wf(),
            final(self).capability() == old(self).capability(),
            final(self).base() == old(self).base(),
            final(self).bitstream_bytes() == old(self).bitstream_bytes(),
            final(self).interrupt_enabled() == old(self).interrupt_enabled(),
            old(self).next_free() + size <= usize::MAX ==> r == Ok::<usize, Error>(
                old(self).next_free() as usize,
            ) && final(self).mapped_bytes() == old(self).mapped_bytes() + size,
            old(self).next_free() + size > usize::MAX ==> r == Err::<usize, Error>(
                Error::ResourceExhausted,
            ) && final(self).mapped_bytes() == old(self).mapped_bytes(),
    {
        let start: usize = self.base_addr + self.mapped;
        if size > usize::MAX - start {
            return Err(Error::ResourceExhausted);
        }
        self.mapped = self.mapped + size;
        Ok(start)
    }

    /// Arms the fabric's interrupt. The handler is held by the caller, who
    /// runs it when the notification arrives.
    pub fn setup_interrupt<F: Fn() -> Result<(), Error>>(&mut self, handler: F) -> (r: Result<
        (),
        Error,
    >)
        ensures
            r is Ok,
            final(self).interrupt_enabled(),
            final(self).wf() == old(self).wf(),
            final(self).capability() == old(self).capability(),
            final(self).base() == old(self).base(),
            final(self).mapped_bytes() == old(self).mapped_bytes(),
            final(self).bitstream_bytes() == old(self).bitstream_bytes(),
    {
        self.interrupt_armed = true;
        Ok(())
    }
}

/// The bytes of one region, with bounds-checked word access.
#[derive(Debug)]
pub struct FpgaMemory {
    base: usize,
    size: usize,
    bytes: Vec<u8>,
}

impl View for FpgaMemory {
    type V = Seq<u8>;

    /// The bytes of the region, in address order.
    closed spec fn view(&self) -> Seq<u8> {
        self.bytes@
    }
}

impl FpgaMemory {
    /// The address of the region's first byte.
    pub closed spec fn base_address(&self) -> nat {
        self.base as nat
    }

    /// The size the region was made with, in bytes.
    pub closed spec fn capacity(&self) -> nat {
        self.size as nat
    }

    /// The region holds exactly as many bytes as it was made with.
    pub closed spec fn wf(&self) -> bool {
        self.bytes@.len() == self.size
    }

    /// A region of `size` zero bytes at address `base`.
    pub fn new(base: usize, size: usize) -> (memory: FpgaMemory)
        ensures
            memory.wf(),
            memory.base_address() == base,
            memory.capacity() == size,
            memory@.len() == size,
            forall|i: int| 0 <= i < size ==> memory@[i] == 0u8,
    {
        let bytes: Vec<u8> = vec![0u8; size];
        FpgaMemory { base, size, bytes }
    }

    pub fn base(&self) -> (base: usize)
        ensures
            base == self.base_address(),
    {
        self.base
    }

    pub fn size(&self) -> (size: usize)
        ensures
            size == self.capacity(),
    {
        self.size
    }

    /// Stores `value` at byte offset `offset`.
    ///
    /// Fails with `InvalidCapability`, changing nothing, when the word would
    /// reach past the end of the region.
    pub fn write_word(&mut self, offset: usize, value: Word) -> (r: Result<(), Error>)
        requires
            old(self).wf(),
        ensures
            final(self).wf(),
            final(self).base_address() == old(self).base_address(),
            final(self).capacity() == old(self).capacity(),
            word_in_bounds(old(self).capacity(), offset as nat) ==> r is Ok && final(self)@
                == store_word(old(self)@, offset as int, value),
            !word_in_bounds(old(self).capacity(), offset as nat) ==> r == Err::<(), Error>(
                Error::InvalidCapability,
            ) && final(self)@ == old(self)@,
    {
        if offset > self.size || self.size - offset < WORD_BYTES {
            return Err(Error::InvalidCapability);
        }
        let ghost before = self.bytes@;
        self.bytes.set(offset, (value & 0xff) as u8);
        self.bytes.set(offset + 1, ((value >> 8) & 0xff) as u8);
        self.bytes.set(offset + 2, ((value >> 16) & 0xff) as u8);
        self.bytes.set(offset + 3, ((value >> 24) & 0xff) as u8);
        assert(self.bytes@ =~= store_word(before, offset as int, value));
        Ok(())
    }

    /// Reads the word at byte offset `offset`.
    ///
    /// Fails with `InvalidCapability` when the word would reach past the end
    /// of the region.
    pub fn read_word(&self, offset: usize) -> (r: Result<Word, Error>)
        requires
            self.wf(),
        ensures
            word_in_bounds(self.capacity(), offset as nat) ==> r == Ok::<Word, Error>(
                load_word(self@, offset as int),
            ),
            !word_in_bounds(self.capacity(), offset as nat) ==> r == Err::<Word, Error>(
                Error::InvalidCapability,
            ),
    {
        if offset > self.size || self.size - offset < WORD_BYTES {
            return Err(Error::InvalidCapability);
        }
        let b0: u8 = self.bytes[offset];
        let b1: u8 = self.bytes[offset + 1];
        let b2: u8 = self.bytes[offset + 2];
        let b3: u8 = self.bytes[offset + 3];
        Ok((b0 as u32) | ((b1 as u32) << 8) | ((b2 as u32) << 16) | ((b3 as u32) << 24))
    }
}

/// A mapped region together with the kind it was mapped as.
#[derive(Debug)]
pub struct FpgaRegionMapping {
    memory: FpgaMemory,
    region: FpgaRegion,
}

impl View for FpgaRegionMapping {
    type V = Seq<u8>;

    /// The bytes of the region, in address order.
    closed spec fn view(&self) -> Seq<u8> {
        self.memory@
    }
}

impl FpgaRegionMapping {
    /// The address of the region's first byte.
    pub closed spec fn base_address(&self) -> nat {
        self.memory.base_address()
    }

    /// The size the region was mapped with, in bytes.
    pub closed spec fn capacity(&self) -> nat {
        self.memory.capacity()
    }

    /// The kind the region was mapped as.
    pub closed spec fn kind(&self) -> FpgaRegion {
        self.region
    }

    /// The region holds exactly as many bytes as it was mapped with.
    pub closed spec fn wf(&self) -> bool {
        self.memory.wf() && self.memory@.len() == self.memory.capacity()
    }

    /// Maps the next `size` bytes of `config` as a region of all-zero bytes.
    ///
    /// Fails exactly when `config` cannot hand out `size` more bytes.
    pub fn new(config: &mut FpgaConfig, region: FpgaRegion, size: usize) -> (r: Result<
        FpgaRegionMapping,
        Error,
    >)
        requires
            old(config).wf(),
        ensures
            final(config).wf(),
            final(config).capability() == old(config).capability(),
            final(config).base() == old(config).base(),
            final(config).bitstream_bytes() == old(config).bitstream_bytes(),
            final(config).interrupt_enabled() == old(config).interrupt_enabled(),
            old(config).next_free() + size <= usize::MAX ==> r is Ok && final(config).mapped_bytes() == old(config).mapped_bytes() + size,
            old(config).next_free() + size > usize::MAX ==> r is Err && r->Err_0
                == Error::ResourceExhausted && final(config).mapped_bytes() == old(config).mapped_bytes(),
            r is Ok ==> {
                let mapping = r->Ok_0;
                &&& mapping.wf()
                &&& mapping.kind() == region
                &&& mapping.base_address() == old(config).next_free()
                &&& mapping.capacity() == size
                &&& mapping@.len() == size
                &&& forall|i: int| 0 <= i < size ==> mapping@[i] == 0u8
            },
    {
        match config.map_region(region, size) {
            Ok(base) => Ok(FpgaRegionMapping { memory: FpgaMemory::new(base, size), region }),
            Err(e) => Err(e),
        }
    }

    pub fn base(&self) -> (base: usize)
        ensures
            base == self.base_address(),
    {
        self.memory.base()
    }

    pub fn size(&self) -> (size: usize)
        ensures
            size == self.capacity(),
    {
        self.memory.size()
    }

    pub fn region(&self) -> (region: FpgaRegion)
        ensures
            region == self.kind(),
    {
        self.region
    }

    /// Stores `value` at byte offset `offset`.
    ///
    /// Fails with `InvalidCapability`, changing nothing, when the word would
    /// reach past the end of the region.
    pub fn write_word(&mut self, offset: usize, value: Word) -> (r: Result<(), Error>)
        requires
            old(self).wf(),
        ensures
            final(self).wf(),
            final(self).base_address() == old(self).base_address(),
            final(self).capacity() == old(self).capacity(),
            final(self).kind() == old(self).kind(),
            word_in_bounds(old(self).capacity(), offset as nat) ==> r is Ok && final(self)@
                == store_word(old(self)@, offset as int, value),
            !word_in_bounds(old(self).capacity(), offset as nat) ==> r == Err::<(), Error>(
                Error::InvalidCapability,
            ) && final(self)@ == old(self)@,
    {
        self.memory.write_word(offset, value)
    }

    /// Reads the word at byte offset `offset`.
    ///
    /// Fails with `InvalidCapability` when the word would reach past the end
    /// of the region.
    pub fn read_word(&self, offset: usize) -> (r: Result<Word, Error>)
        requires
            self.wf(),
        ensures
            word_in_bounds(self.capacity(), offset as nat) ==> r == Ok::<Word, Error>(
                load_word(self@, offset as int),
            ),
            !word_in_bounds(self.capacity(), offset as nat) ==> r == Err::<Word, Error>(
                Error::InvalidCapability,
            ),
    {
        self.memory.read_word(offset)
    }
}

} // verus!
