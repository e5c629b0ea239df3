use mkstorm::fpga::route::{RouteDescriptor, ADDRESS_LIMIT, POSITION_LIMIT};

#[test]
fn pack_places_each_field() {
    let d = RouteDescriptor { source: 1, destination: 0, bit_position: 0, value: false };
    assert_eq!(d.pack(), 1 << 20);
    let d = RouteDescriptor { source: 0, destination: 1, bit_position: 0, value: false };
    assert_eq!(d.pack(), 1 << 9);
    let d = RouteDescriptor { source: 0, destination: 0, bit_position: 1, value: false };
    assert_eq!(d.pack(), 1);
    let d = RouteDescriptor { source: 0, destination: 0, bit_position: 0, value: true };
    assert_eq!(d.pack(), 1 << 31);
    let d = RouteDescriptor { source: 2047, destination: 2047, bit_position: 511, value: true };
    assert_eq!(d.pack(), u32::MAX);
    let d = RouteDescriptor { source: 4, destination: 1002, bit_position: 2, value: true };
    assert_eq!(d.pack(), 0x8000_0000 | (4 << 20) | (1002 << 9) | 2);
}

#[test]
fn unpack_inverts_pack() {
    for &source in &[0u32, 1, 2, 999, 1000, 1127, 2047] {
        for &destination in &[0u32, 5, 1000, 1127, 2047] {
            for &bit_position in &[0u32, 1, 127, 128, 511] {
                for &value in &[false, true] {
                    let d = RouteDescriptor { source, destination, bit_position, value };
                    assert!(d.is_encodable());
                    assert_eq!(RouteDescriptor::unpack(d.pack()), d);
                }
            }
        }
    }
}

#[test]
fn pack_inverts_unpack() {
    for &word in &[0u32, 1, 0x1ff, 0x200, 0xf_fe00, 0x10_0000, 0x7ff0_0000, 0x8000_0000, 0xdead_beef, u32::MAX] {
        let d = RouteDescriptor::unpack(word);
        assert!(d.is_encodable());
        assert_eq!(d.pack(), word);
    }
}

#[test]
fn high_address_bits_do_not_reach_the_value_bit() {
    let d = RouteDescriptor { source: 2047, destination: 2047, bit_position: 511, value: false };
    assert_eq!(d.pack() >> 31, 0);
    assert_eq!(d.pack(), 0x7fff_ffff);
    let back = RouteDescriptor::unpack(d.pack());
    assert!(!back.value);
}

#[test]
fn new_refuses_fields_that_do_not_fit() {
    assert_eq!(
        RouteDescriptor::new(3, 1001, 7, true),
        Some(RouteDescriptor { source: 3, destination: 1001, bit_position: 7, value: true })
    );
    assert_eq!(RouteDescriptor::new(ADDRESS_LIMIT, 0, 0, false), None);
    assert_eq!(RouteDescriptor::new(0, ADDRESS_LIMIT, 0, false), None);
    assert_eq!(RouteDescriptor::new(0, 0, POSITION_LIMIT, false), None);
    assert!(RouteDescriptor::new(ADDRESS_LIMIT - 1, ADDRESS_LIMIT - 1, POSITION_LIMIT - 1, true).is_some());
}

#[test]
fn a_field_that_is_too_wide_loses_its_high_bits() {
    let d = RouteDescriptor { source: 2048 + 5, destination: 0, bit_position: 512 + 1, value: false };
    assert!(!d.is_encodable());
    assert_eq!(d.pack(), (5 << 20) | 1);
}
