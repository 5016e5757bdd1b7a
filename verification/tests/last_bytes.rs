use demixer::bit::Bit;
use demixer::util::last_bytes::LastBytesCache;

fn bit_of(byte: u8, bit_index: u32) -> Bit {
    if (byte >> bit_index) & 1 == 1 { Bit::One } else { Bit::Zero }
}

#[test]
fn recorded_bytes_move_up_and_unfinished_byte_shows_known_bits() {
    let mut cache = LastBytesCache::new();
    for &byte in b"xyz".iter() {
        cache.start_new_byte();
        for k in 0..8u32 {
            let bit_index = 7 - k;
            let expected = ((1u32 << k) + ((byte as u32) >> (8 - k))) as u8;
            assert_eq!(cache.unfinished_byte().raw(), expected);
            cache.on_next_bit(bit_of(byte, bit_index));
        }
    }
    cache.start_new_byte();
    assert_eq!(cache.previous_byte_1(), b'z');
    assert_eq!(cache.previous_byte_2(), b'y');
    assert_eq!(cache.previous_byte_3(), b'x');
    assert_eq!(cache.unfinished_byte().raw(), 1);
    // the known bits of the last two bytes under a leading one
    assert_eq!(cache.hash01_16(), (1u16 << 8) + b'z' as u16);
}
