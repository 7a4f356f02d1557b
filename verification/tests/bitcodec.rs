use corp::bits::Reader;
use corp::util::u64_words;
use corp::wrbits::BitsWriter;

fn written(f: impl Fn(&mut BitsWriter)) -> Vec<u8> {
    let mut w = BitsWriter::new(Vec::new());
    f(&mut w);
    w.finish()
}

#[test]
fn reader_reads_single_bits() {
    let mem = vec![0b1011u64];
    let mut r = Reader::open(&mem, 0);
    assert!(r.bit());
    assert!(r.bit());
    assert!(!r.bit());
    assert!(r.bit());
    assert_eq!(r.tell(), 4);
}

#[test]
fn atom_straddles_two_words() {
    let mem = vec![0xff00_0000_0000_0000u64, 0x0000_0000_0000_00abu64];
    let r = Reader::open(&mem, 56);
    assert_eq!(r.atom(), 0xabff);
    let at_start = Reader::open(&mem, 64);
    assert_eq!(at_start.atom(), 0xab);
}

#[test]
fn atom_past_last_word_reads_zero_above() {
    let mem = vec![0x8000_0000_0000_0000u64];
    let r = Reader::open(&mem, 63);
    assert_eq!(r.atom(), 1);
}

#[test]
fn skip_bits_moves_the_position() {
    let mem = vec![0u64, 0u64];
    let mut r = Reader::open(&mem, 3);
    r.skip_bits(70);
    assert_eq!(r.bitpos(), 73);
    assert_eq!(r.tell(), 73);
}

#[test]
fn gamma_reads_unary_length_then_bits() {
    // gamma(5) = "001" then the two low bits of 5, lowest first: 1, 0
    let mem = vec![0b0_1_100u64];
    let mut r = Reader::open(&mem, 0);
    assert!(r.can_gamma());
    assert_eq!(r.gamma(), 5);
    assert_eq!(r.bitpos(), 5);
}

#[test]
fn gamma_of_a_single_one_bit_is_one() {
    let mem = vec![1u64];
    let mut r = Reader::open(&mem, 0);
    assert_eq!(r.gamma(), 1);
    assert_eq!(r.bitpos(), 1);
}

#[test]
fn delta_of_a_single_one_bit_is_one() {
    let mem = vec![1u64];
    let mut r = Reader::open(&mem, 0);
    assert!(r.can_delta());
    assert_eq!(r.delta(), 1);
    assert_eq!(r.bitpos(), 1);
}

#[test]
fn reader_refuses_codes_without_an_end() {
    let mem = vec![0u64, 0u64];
    let r = Reader::open(&mem, 0);
    assert!(!r.can_gamma());
    assert!(!r.can_delta());
    let past = Reader::open(&mem, 128);
    assert!(!past.can_bit());
    assert!(!past.can_delta());
}

#[test]
fn delta_one_is_a_single_one_bit() {
    let bytes = written(|w| w.delta(1));
    assert_eq!(bytes, vec![0b1u8]);
}

#[test]
fn unary_one_is_a_single_one_bit() {
    let mut w = BitsWriter::new(Vec::new());
    w.unary(1);
    assert_eq!(w.bits_written(), 1);
    assert_eq!(w.finish(), vec![0b1u8]);
}

#[test]
fn gamma_one_is_a_single_one_bit() {
    let mut w = BitsWriter::new(Vec::new());
    w.gamma(1);
    assert_eq!(w.bits_written(), 1);
    assert_eq!(w.finish(), vec![0b1u8]);
}

#[test]
fn unary_writes_zeros_then_a_one() {
    let bytes = written(|w| w.unary(4));
    assert_eq!(bytes, vec![0b1000u8]);
}

#[test]
fn gamma_five_has_five_bits() {
    let mut w = BitsWriter::new(Vec::new());
    w.gamma(5);
    assert_eq!(w.bits_written(), 5);
    assert_eq!(w.finish(), vec![0b0_1100u8]);
}

#[test]
fn delta_two_has_four_bits() {
    let mut w = BitsWriter::new(Vec::new());
    w.delta(2);
    assert_eq!(w.bits_written(), 4);
    assert_eq!(w.finish(), vec![0b0010u8]);
}

#[test]
fn writing_delta_1_2_3_reads_back_1_2_3() {
    let bytes = written(|w| {
        w.delta(1);
        w.delta(2);
        w.delta(3);
    });
    let mem = u64_words(&bytes);
    let mut r = Reader::open(&mem, 0);
    assert_eq!(r.delta(), 1);
    assert_eq!(r.delta(), 2);
    assert_eq!(r.delta(), 3);
    assert_eq!(r.bitpos(), 9);
}

#[test]
fn codes_of_many_sizes_read_back() {
    let values: Vec<u64> = vec![
        1,
        2,
        3,
        4,
        7,
        8,
        100,
        255,
        256,
        65_535,
        65_536,
        1 << 31,
        (1 << 32) - 1,
        1 << 32,
        (1 << 53) + 12345,
    ];
    let mut w = BitsWriter::new(Vec::new());
    for v in &values {
        w.delta(*v);
    }
    for v in &values {
        if *v < (1 << 32) {
            w.gamma(*v);
        }
    }
    let bytes = w.finish();
    let mem = u64_words(&bytes);
    let mut r = Reader::open(&mem, 0);
    for v in &values {
        assert!(r.can_delta());
        assert_eq!(r.delta(), *v);
    }
    for v in &values {
        if *v < (1 << 32) {
            assert!(r.can_gamma());
            assert_eq!(r.gamma(), *v);
        }
    }
}

#[test]
fn bits_written_counts_across_words() {
    let mut w = BitsWriter::new(Vec::new());
    for _ in 0..70 {
        w.bit(true);
    }
    assert_eq!(w.bits_written(), 70);
    assert_eq!(w.usedbits(), 6);
    assert_eq!(w.freebits(), 58);
    let bytes = w.finish();
    assert_eq!(bytes.len(), 9);
    assert_eq!(bytes[8], 0b11_1111);
    assert!(bytes[..8].iter().all(|b| *b == 0xff));
}

#[test]
fn byte_align_pads_to_a_whole_byte() {
    let mut w = BitsWriter::new(Vec::new());
    w.bit(true);
    w.bit(true);
    w.bit(true);
    w.byte_align();
    assert_eq!(w.bits_written(), 8);
    w.byte_align();
    assert_eq!(w.bits_written(), 8);
    w.bit(true);
    let bytes = w.finish();
    assert_eq!(bytes, vec![0b111u8, 0b1u8]);
}

#[test]
fn bits_written_equals_bytes_times_eight_after_align_and_finish() {
    let mut w = BitsWriter::new(Vec::new());
    w.delta(77);
    w.gamma(9);
    w.byte_align();
    let bits = w.bits_written();
    let bytes = w.finish();
    assert_eq!(bits, 8 * bytes.len() as u64);
}

#[test]
fn writer_appends_behind_what_the_sink_holds() {
    let mut w = BitsWriter::new(vec![9u8, 8, 7]);
    w.bit(true);
    assert_eq!(w.bits_written(), 1);
    assert_eq!(w.finish(), vec![9u8, 8, 7, 1]);
}

#[test]
fn words_pad_the_last_item_with_zero() {
    let bytes = vec![1u8, 2, 3, 4, 5, 6, 7, 8, 9];
    let w = u64_words(&bytes);
    assert_eq!(w, vec![0x0807_0605_0403_0201u64, 9u64]);
    assert_eq!(corp::util::u32_words(&bytes), vec![0x0403_0201u32, 0x0807_0605, 9]);
    assert_eq!(corp::util::u16_words(&bytes[..3]), vec![0x0201u16, 3]);
}

#[test]
fn numbers_are_written_little_endian() {
    assert_eq!(corp::util::u32_bytes(&[0x0403_0201u32, 7]), vec![1u8, 2, 3, 4, 7, 0, 0, 0]);
    assert_eq!(corp::util::u16_bytes(&[0x0201u16]), vec![1u8, 2]);
    let mut out = Vec::new();
    corp::util::push_u64(&mut out, 0x0807_0605_0403_0201);
    assert_eq!(out, vec![1u8, 2, 3, 4, 5, 6, 7, 8]);
}
