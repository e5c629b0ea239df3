use mkstorm::sel4::fpga_config::{FpgaConfig, FpgaMemory, FpgaRegion, FpgaRegionMapping};
use mkstorm::sel4::{CapRights, Error, FpgaGpio, GpioConfig, GpioDirection, GpioOps};

#[test]
fn a_new_region_is_zero() {
    let memory = FpgaMemory::new(0x100, 16);
    assert_eq!(memory.base(), 0x100);
    assert_eq!(memory.size(), 16);
    for offset in 0..=12 {
        assert_eq!(memory.read_word(offset), Ok(0));
    }
}

#[test]
fn a_written_word_is_read_back() {
    let mut memory = FpgaMemory::new(0, 16);
    assert_eq!(memory.write_word(4, 0xdead_beef), Ok(()));
    assert_eq!(memory.read_word(4), Ok(0xdead_beef));
    assert_eq!(memory.read_word(0), Ok(0));
    assert_eq!(memory.read_word(8), Ok(0));
}

#[test]
fn words_are_stored_least_significant_byte_first() {
    let mut memory = FpgaMemory::new(0, 16);
    memory.write_word(4, 0x0403_0201).unwrap();
    assert_eq!(memory.read_word(5), Ok(0x0004_0302));
    assert_eq!(memory.read_word(3), Ok(0x0302_0100));
    memory.write_word(6, 0xffff_ffff).unwrap();
    assert_eq!(memory.read_word(4), Ok(0xffff_0201));
}

#[test]
fn access_past_the_end_is_refused() {
    let mut memory = FpgaMemory::new(0, 16);
    assert_eq!(memory.write_word(12, 7), Ok(()));
    assert_eq!(memory.write_word(13, 9), Err(Error::InvalidCapability));
    assert_eq!(memory.write_word(16, 9), Err(Error::InvalidCapability));
    assert_eq!(memory.write_word(usize::MAX, 9), Err(Error::InvalidCapability));
    assert_eq!(memory.read_word(13), Err(Error::InvalidCapability));
    assert_eq!(memory.read_word(usize::MAX - 2), Err(Error::InvalidCapability));
    // The refused writes changed nothing.
    assert_eq!(memory.read_word(12), Ok(7));
    let mut tiny = FpgaMemory::new(0, 3);
    assert_eq!(tiny.write_word(0, 1), Err(Error::InvalidCapability));
    assert_eq!(tiny.read_word(0), Err(Error::InvalidCapability));
}

#[test]
fn regions_are_handed_out_one_after_another() {
    let mut config = FpgaConfig::new(9, 0x8000);
    assert_eq!(config.map_region(FpgaRegion::Configuration, 0x100), Ok(0x8000));
    assert_eq!(config.map_region(FpgaRegion::IO, 0x10), Ok(0x8100));
    assert_eq!(config.map_region(FpgaRegion::BlockRAM, 0), Ok(0x8110));
    assert_eq!(config.map_region(FpgaRegion::BlockRAM, 1), Ok(0x8110));
    assert_eq!(config.map_region(FpgaRegion::Configuration, 4), Ok(0x8111));
}

#[test]
fn mapping_fails_when_the_address_space_is_used_up() {
    let mut config = FpgaConfig::new(9, usize::MAX - 10);
    assert_eq!(config.map_region(FpgaRegion::IO, 11), Err(Error::ResourceExhausted));
    assert_eq!(config.map_region(FpgaRegion::IO, 4), Ok(usize::MAX - 10));
    assert_eq!(config.map_region(FpgaRegion::IO, 7), Err(Error::ResourceExhausted));
    assert_eq!(config.map_region(FpgaRegion::IO, 6), Ok(usize::MAX - 6));
    assert_eq!(config.map_region(FpgaRegion::IO, 1), Err(Error::ResourceExhausted));
}

#[test]
fn a_mapping_knows_its_region() {
    let mut config = FpgaConfig::new(9, 0x40);
    let mut mapping = FpgaRegionMapping::new(&mut config, FpgaRegion::BlockRAM, 32).unwrap();
    assert_eq!(mapping.base(), 0x40);
    assert_eq!(mapping.size(), 32);
    assert_eq!(mapping.region(), FpgaRegion::BlockRAM);
    assert_eq!(mapping.write_word(28, 0x1234_5678), Ok(()));
    assert_eq!(mapping.read_word(28), Ok(0x1234_5678));
    assert_eq!(mapping.write_word(29, 1), Err(Error::InvalidCapability));
    assert_eq!(mapping.read_word(32), Err(Error::InvalidCapability));
    let second = FpgaRegionMapping::new(&mut config, FpgaRegion::IO, 8).unwrap();
    assert_eq!(second.base(), 0x60);
    let mut full = FpgaConfig::new(9, usize::MAX);
    assert!(matches!(
        FpgaRegionMapping::new(&mut full, FpgaRegion::IO, 1),
        Err(Error::ResourceExhausted)
    ));
}

#[test]
fn bitstream_and_interrupt_are_accepted() {
    let mut config = FpgaConfig::new(9, 0);
    assert_eq!(config.load_bitstream(&[1, 2, 3]), Ok(()));
    assert_eq!(config.load_bitstream(&[]), Ok(()));
    assert_eq!(config.setup_interrupt(|| Ok(())), Ok(()));
    assert_eq!(config.map_region(FpgaRegion::Configuration, 8), Ok(0));
}

#[test]
fn an_output_pin_latches_what_is_written() {
    let mut pin = FpgaGpio::new(3, 17, GpioDirection::Output);
    assert_eq!(pin.cap(), 3);
    assert_eq!(pin.pin(), 17);
    assert_eq!(pin.direction(), GpioDirection::Output);
    assert_eq!(pin.read(), Ok(false));
    assert_eq!(pin.write(true), Ok(()));
    assert_eq!(pin.read(), Ok(true));
    assert_eq!(pin.write(false), Ok(()));
    assert_eq!(pin.read(), Ok(false));
}

#[test]
fn an_input_pin_refuses_writes() {
    let mut pin = FpgaGpio::new(3, 17, GpioDirection::Input);
    assert_eq!(pin.write(true), Err(Error::PermissionDenied));
    assert_eq!(pin.read(), Ok(false));
}

#[test]
fn configure_changes_pin_and_direction_and_keeps_the_level() {
    let mut pin = FpgaGpio::new(3, 17, GpioDirection::Output);
    pin.write(true).unwrap();
    assert_eq!(pin.configure(GpioConfig { pin: 4, direction: GpioDirection::Input }), Ok(()));
    assert_eq!(pin.pin(), 4);
    assert_eq!(pin.direction(), GpioDirection::Input);
    assert_eq!(pin.read(), Ok(true));
    assert_eq!(pin.write(false), Err(Error::PermissionDenied));
    assert_eq!(pin.read(), Ok(true));
    assert_eq!(pin.configure(GpioConfig { pin: 4, direction: GpioDirection::Output }), Ok(()));
    assert_eq!(pin.write(false), Ok(()));
    assert_eq!(pin.read(), Ok(false));
}

#[test]
fn rights_are_plain_flags() {
    let rights = CapRights { read: true, write: false, grant: true };
    assert!(rights.read && !rights.write && rights.grant);
    assert_eq!(rights, CapRights { read: true, write: false, grant: true });
}
