//! Routing descriptors and their encoding as one configuration word.
//!
//! A descriptor binds a source address to a destination address at a bit
//! position, with the value the destination expects there. The word has
//! four fields that share no bit:
//!
//! | bits   | width | field        |
//! |--------|-------|--------------|
//! | 0..9   | 9     | bit position |
//! | 9..20  | 11    | destination  |
//! | 20..31 | 11    | source       |
//! | 31     | 1     | value        |

use vstd::prelude::*;

use crate::sel4::Word;

verus! {

/// Width of an address field, in bits.
pub const ADDRESS_BITS: u32 = 11;

/// Width of the bit-position field, in bits.
pub const POSITION_BITS: u32 = 9;

/// One more than the largest address a descriptor can carry.
pub const ADDRESS_LIMIT: u32 = 2048;

/// One more than the largest bit position a descriptor can carry.
pub const POSITION_LIMIT: u32 = 512;

/// One binding of the routing table.
#[derive(Debug, Clone, Copy, PartialEq, Eq, Structural)]
pub struct RouteDescriptor {
    pub source: u32,
    pub destination: u32,
    pub bit_position: u32,
    pub value: bool,
}

/// The word that encodes `d`. A field that is too wide for its place loses
/// its high bits.
pub open spec fn pack_spec(d: RouteDescriptor) -> Word {
    ((if d.value {
        1u32
    } else {
        0u32
    }) << 31) | ((d.source & 0x7ff) << 20) | ((d.destination & 0x7ff) << 9) | (d.bit_position
        & 0x1ff)
}

/// The descriptor that `word` encodes.
pub open spec fn unpack_spec(word: Word) -> RouteDescriptor {
    RouteDescriptor {
        source: (word >> 20) & 0x7ff,
        destination: (word >> 9) & 0x7ff,
        bit_position: word & 0x1ff,
        value: (word >> 31) == 1,
    }
}

impl RouteDescriptor {
    /// Every field fits its place in the word.
    pub open spec fn fits(&self) -> bool {
        &&& self.source < ADDRESS_LIMIT
        &&& self.destination < ADDRESS_LIMIT
        &&& self.bit_position < POSITION_LIMIT
    }

    /// The descriptor with the given fields, if each fits its place in the
    /// word.
    pub fn new(source: u32, destination: u32, bit_position: u32, value: bool) -> (r: Option<
        RouteDescriptor,
    >)
        ensures
            r == if source < ADDRESS_LIMIT && destination < ADDRESS_LIMIT && bit_position
                < POSITION_LIMIT {
                Some(RouteDescriptor { source, destination, bit_position, value })
            } else {
                None
            },
    {
        if source < ADDRESS_LIMIT && destination < ADDRESS_LIMIT && bit_position
            < POSITION_LIMIT {
            Some(RouteDescriptor { source, destination, bit_position, value })
        } else {
            None
        }
    }

    /// Whether every field fits its place in the word.
    pub fn is_encodable(&self) -> (b: bool)
        ensures
            b == self.fits(),
    {
        self.source < ADDRESS_LIMIT && self.destination < ADDRESS_LIMIT && self.bit_position
            < POSITION_LIMIT
    }

    /// Encodes the descriptor as one configuration word.
    pub fn pack(&self) -> (word: Word)
        ensures
            word == pack_spec(*self),
            self.fits() ==> unpack_spec(word) == *self,
    {
        proof {
            if self.fits() {
                lemma_unpack_pack(*self);
            }
        }
        let flag: u32 = if self.value {
            1
        } else {
            0
        };
        (flag << 31) | ((self.source & 0x7ff) << 20) | ((self.destination & 0x7ff) << 9) | (
        self.bit_position & 0x1ff)
    }

    /// Decodes a configuration word. Every word decodes to a descriptor
    /// whose fields fit, and encoding that descriptor gives the word back.
    pub fn unpack(word: Word) -> (d: RouteDescriptor)
        ensures
            d == unpack_spec(word),
            d.fits(),
            pack_spec(d) == word,
    {
        proof {
            lemma_pack_unpack(word);
        }
        RouteDescriptor {
            source: (word >> 20) & 0x7ff,
            destination: (word >> 9) & 0x7ff,
            bit_position: word & 0x1ff,
            value: (word >> 31) == 1,
        }
    }
}

/// Decoding the encoding of a descriptor whose fields fit gives the
/// descriptor back: no field reaches into the bits of another.
pub proof fn lemma_unpack_pack(d: RouteDescriptor)
    requires
        d.fits(),
    ensures
        unpack_spec(pack_spec(d)) == d,
{
    let s = d.source;
    let t = d.destination;
    let p = d.bit_position;
    let f = if d.value {
        1u32
    } else {
        0u32
    };
    let w = (f << 31) | ((s & 0x7ff) << 20) | ((t & 0x7ff) << 9) | (p & 0x1ff);
    assert(s < 2048 && t < 2048 && p < 512 && f <= 1 && w == (f << 31) | ((s & 0x7ff) << 20) | ((t
        & 0x7ff) << 9) | (p & 0x1ff) ==> (w >> 20) & 0x7ff == s && (w >> 9) & 0x7ff == t && w
        & 0x1ff == p && ((w >> 31) == 1 <==> f == 1)) by (bit_vector);
}

/// Encoding the decoding of a word gives the word back, and the decoded
/// fields fit: the four fields together are the whole word.
pub proof fn lemma_pack_unpack(word: Word)
    ensures
        unpack_spec(word).fits(),
        pack_spec(unpack_spec(word)) == word,
{
    let w = word;
    let s = (w >> 20) & 0x7ff;
    let t = (w >> 9) & 0x7ff;
    let p = w & 0x1ff;
    let f = if (w >> 31) == 1 {
        1u32
    } else {
        0u32
    };
    assert(s == (w >> 20) & 0x7ff && t == (w >> 9) & 0x7ff && p == w & 0x1ff ==> s < 2048 && t
        < 2048 && p < 512) by (bit_vector);
    assert(s == (w >> 20) & 0x7ff && t == (w >> 9) & 0x7ff && p == w & 0x1ff && (f == 1 <==> (w
        >> 31) == 1) && f <= 1 ==> (f << 31) | ((s & 0x7ff) << 20) | ((t & 0x7ff) << 9) | (p
        & 0x1ff) == w) by (bit_vector);
}

/// Two descriptors whose fields fit and that differ are encoded as
/// different words.
pub proof fn lemma_pack_injective(a: RouteDescriptor, b: RouteDescriptor)
    requires
        a.fits(),
        b.fits(),
        pack_spec(a) == pack_spec(b),
    ensures
        a == b,
{
    lemma_unpack_pack(a);
    lemma_unpack_pack(b);
}

} // verus!
