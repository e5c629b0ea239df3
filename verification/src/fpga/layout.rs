//! The layout of a circuit's configuration region.
//!
//! * Registers have addresses `0 .. LUT_BASE`. The word of register `r` is at
//!   byte offset `4 * r`.
//! * Lookup tables have addresses from `LUT_BASE` upwards, at most `MAX_LUTS`
//!   of them. No register address is a table address.
//! * The routing area starts at byte offset `ROUTE_BASE`. Each source address
//!   has a row of `ROUTE_FANOUT` words there; a descriptor is stored in the
//!   row of its source, at the place its destination selects.

use vstd::prelude::*;

use crate::fpga::route::{pack_spec, RouteDescriptor, ADDRESS_LIMIT, POSITION_LIMIT};
use crate::sel4::fpga_config::{
    lemma_load_after_store, lemma_load_other_after_store, lemma_load_zeroed, load_word, store_word,
    words_disjoint, WORD_BYTES,
};
use crate::sel4::Word;

verus! {

/// The first lookup-table address, and one more than the last register
/// address.
pub const LUT_BASE: u32 = 1000;

/// How many lookup tables one circuit can hold.
pub const MAX_LUTS: u32 = 128;

/// Byte offset of the routing area.
pub const ROUTE_BASE: usize = 0x10000;

/// How many descriptors the routing row of one source holds.
pub const ROUTE_FANOUT: usize = 128;

/// The size of the largest region a circuit is given, in bytes.
pub const MAX_REGION_BYTES: usize = 643_072;

/// The word that configures a detector register as a full OR tree.
pub const DETECTOR_CONFIG: Word = 0xFFFF_FFFF;

/// Byte offset of the word of register `address`.
pub open spec fn register_offset(address: int) -> int {
    WORD_BYTES * address
}

/// The place of a descriptor in the routing row of its source: the ordinal
/// of the table it leads to, or the first place if it leads to a register.
pub open spec fn route_slot(d: RouteDescriptor) -> int {
    if d.destination >= LUT_BASE {
        d.destination - LUT_BASE
    } else {
        0
    }
}

/// Byte offset of the word that holds descriptor `d`.
pub open spec fn route_offset(d: RouteDescriptor) -> int {
    ROUTE_BASE + WORD_BYTES * (d.source * ROUTE_FANOUT + route_slot(d))
}

/// The size of a region that has routing rows for all registers and for
/// `luts` lookup tables.
pub open spec fn region_bytes(luts: int) -> int {
    ROUTE_BASE + WORD_BYTES * ROUTE_FANOUT * (LUT_BASE + luts)
}

/// How many lookup tables the region of a table with `rows` rows has room
/// for.
pub open spec fn lut_room(rows: int) -> int {
    if rows <= MAX_LUTS {
        rows
    } else {
        MAX_LUTS as int
    }
}

/// A region is never smaller than its register and routing areas for the
/// registers alone, and never larger than `MAX_REGION_BYTES`.
pub proof fn lemma_region_is_bounded(rows: int)
    requires
        0 <= rows,
    ensures
        region_bytes(0) <= region_bytes(lut_room(rows)) <= MAX_REGION_BYTES,
{
    assert(WORD_BYTES * ROUTE_FANOUT == 512);
    assert(region_bytes(lut_room(rows)) == ROUTE_BASE + 512 * (LUT_BASE + lut_room(rows)));
    assert(region_bytes(0) == ROUTE_BASE + 512 * LUT_BASE);
}

/// Every byte of `mem` is zero.
pub open spec fn zeroed(mem: Seq<u8>) -> bool {
    forall|i: int| 0 <= i < mem.len() ==> mem[i] == 0u8
}

/// Storing the word zero in a region of zero bytes changes nothing.
pub proof fn lemma_store_zero(mem: Seq<u8>, offset: int)
    requires
        0 <= offset,
        offset + WORD_BYTES <= mem.len(),
        zeroed(mem),
    ensures
        store_word(mem, offset, 0) == mem,
{
    assert((0u32 & 0xff) as u8 == 0u8 && ((0u32 >> 8) & 0xff) as u8 == 0u8 && ((0u32 >> 16)
        & 0xff) as u8 == 0u8 && ((0u32 >> 24) & 0xff) as u8 == 0u8) by (bit_vector);
    assert(store_word(mem, offset, 0) =~= mem);
}

/// Whether the four route fields can be carried by one descriptor word.
pub open spec fn encodable(from: u32, to: u32, bit_position: usize, value: u32) -> bool {
    from < ADDRESS_LIMIT && to < ADDRESS_LIMIT && bit_position < POSITION_LIMIT && value <= 1
}

/// Two descriptors that differ in their source or in their place in the
/// source's row are stored in words that share no byte.
pub proof fn lemma_route_words_disjoint(a: RouteDescriptor, b: RouteDescriptor)
    requires
        route_slot(a) < ROUTE_FANOUT,
        route_slot(b) < ROUTE_FANOUT,
        a.source != b.source || route_slot(a) != route_slot(b),
    ensures
        words_disjoint(route_offset(a), route_offset(b)),
{
}

/// Byte `b` of the region belongs to the word of a descriptor of `routes`.
pub open spec fn in_route_word(routes: Seq<RouteDescriptor>, b: int) -> bool {
    exists|k: int|
        0 <= k < routes.len() && route_offset(#[trigger] routes[k]) <= b < route_offset(routes[k])
            + WORD_BYTES
}

/// `after` is `before` but for the bytes of the words of `routes`.
pub open spec fn only_routes_changed(
    before: Seq<u8>,
    after: Seq<u8>,
    routes: Seq<RouteDescriptor>,
) -> bool {
    &&& after.len() == before.len()
    &&& forall|b: int|
        0 <= b < before.len() && !in_route_word(routes, b) ==> #[trigger] after[b] == before[b]
}

/// Writing the word of one more descriptor changes no byte outside the
/// words of the descriptors.
pub proof fn lemma_route_frame(
    before: Seq<u8>,
    now: Seq<u8>,
    routes: Seq<RouteDescriptor>,
    d: RouteDescriptor,
)
    requires
        only_routes_changed(before, now, routes),
        route_offset(d) + WORD_BYTES <= now.len(),
    ensures
        only_routes_changed(
            before,
            store_word(now, route_offset(d), pack_spec(d)),
            routes.push(d),
        ),
{
    let after = store_word(now, route_offset(d), pack_spec(d));
    let longer = routes.push(d);
    assert forall|b: int| 0 <= b < before.len() && !in_route_word(longer, b) implies #[trigger] after[b]
        == before[b] by {
        assert(longer[routes.len() as int] == d);
        if in_route_word(routes, b) {
            let k = choose|k: int|
                0 <= k < routes.len() && route_offset(#[trigger] routes[k]) <= b < route_offset(
                    routes[k],
                ) + WORD_BYTES;
            assert(longer[k] == routes[k]);
        }
    }
}

/// Every descriptor of `routes` has a place in its source's row, inside the
/// region, and the region holds its word there.
pub open spec fn routes_written(region: Seq<u8>, routes: Seq<RouteDescriptor>) -> bool {
    forall|k: int|
        0 <= k < routes.len() ==> {
            let d = #[trigger] routes[k];
            &&& route_slot(d) < ROUTE_FANOUT
            &&& route_offset(d) + WORD_BYTES <= region.len()
            &&& load_word(region, route_offset(d)) == pack_spec(d)
        }
}

/// Writing the word of a descriptor whose place no earlier descriptor has
/// keeps the earlier words and adds the new one.
pub proof fn lemma_route_added(region: Seq<u8>, routes: Seq<RouteDescriptor>, d: RouteDescriptor)
    requires
        routes_written(region, routes),
        route_slot(d) < ROUTE_FANOUT,
        route_offset(d) + WORD_BYTES <= region.len(),
        forall|k: int|
            0 <= k < routes.len() ==> (#[trigger] routes[k]).source != d.source || route_slot(
                routes[k],
            ) != route_slot(d),
    ensures
        routes_written(store_word(region, route_offset(d), pack_spec(d)), routes.push(d)),
{
    let after = store_word(region, route_offset(d), pack_spec(d));
    let longer = routes.push(d);
    assert forall|k: int| 0 <= k < longer.len() implies {
        let e = #[trigger] longer[k];
        &&& route_slot(e) < ROUTE_FANOUT
        &&& route_offset(e) + WORD_BYTES <= after.len()
        &&& load_word(after, route_offset(e)) == pack_spec(e)
    } by {
        if k < routes.len() {
            let e = routes[k];
            assert(longer[k] == e);
            lemma_route_words_disjoint(d, e);
            lemma_load_other_after_store(region, route_offset(d), pack_spec(d), route_offset(e));
        } else {
            lemma_load_after_store(region, route_offset(d), pack_spec(d));
        }
    }
}

/// The register words of a region that was all zero before the two
/// detector registers `first` and `first + 1` were configured.
pub proof fn lemma_registers_after_completion(zeros: Seq<u8>, first: int, r: int)
    requires
        zeroed(zeros),
        0 <= first,
        0 <= r,
        register_offset(first + 2) <= zeros.len(),
        register_offset(r + 1) <= zeros.len(),
    ensures
        load_word(
            store_word(
                store_word(zeros, register_offset(first), DETECTOR_CONFIG),
                register_offset(first + 1),
                DETECTOR_CONFIG,
            ),
            register_offset(r),
        ) == if r == first || r == first + 1 {
            DETECTOR_CONFIG
        } else {
            0u32
        },
{
    let one = store_word(zeros, register_offset(first), DETECTOR_CONFIG);
    lemma_load_after_store(zeros, register_offset(first), DETECTOR_CONFIG);
    lemma_load_after_store(one, register_offset(first + 1), DETECTOR_CONFIG);
    if r != first + 1 {
        lemma_load_other_after_store(
            one,
            register_offset(first + 1),
            DETECTOR_CONFIG,
            register_offset(r),
        );
        if r != first {
            lemma_load_other_after_store(
                zeros,
                register_offset(first),
                DETECTOR_CONFIG,
                register_offset(r),
            );
            lemma_load_zeroed(zeros, register_offset(r));
        }
    }
}

} // verus!
