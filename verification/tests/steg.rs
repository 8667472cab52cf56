use encode_decode_multi_thread::{
    arrange_messages, available_bytes, bit_at, bit_set_at, decode_character, decode_message,
    decode_terminates, encode_character, encode_message, lsb, ordering_decode_message,
    output_file_name, plan_encode, ppm_file_bytes, EncodeTask, PpmHeader, StegError,
};

fn task(file_index: usize, file_number: u128, start: usize, end: usize) -> EncodeTask {
    EncodeTask { file_index, file_number, start, end }
}

#[test]
fn bit_at_counts_from_the_most_significant_bit() {
    assert_eq!(bit_at(0b1000_0000, 0), 1);
    assert_eq!(bit_at(0b1000_0000, 1), 0);
    assert_eq!(bit_at(0b0000_0001, 7), 1);
    assert_eq!(bit_at(0b0100_0001, 1), 1);
    assert!(bit_set_at(0b0010_0000, 2));
    assert!(!bit_set_at(0b0010_0000, 3));
}

#[test]
fn lsb_reads_the_lowest_bit() {
    assert!(lsb(0b0000_0001));
    assert!(lsb(0xff));
    assert!(!lsb(0b1111_1110));
    assert!(!lsb(0));
}

#[test]
fn encode_character_sets_lowest_bits() {
    // 'A' is 0b0100_0001
    let ret = encode_character('A', &[0xff; 8]);
    assert_eq!(ret, [0xfe, 0xff, 0xfe, 0xfe, 0xfe, 0xfe, 0xfe, 0xff]);
    let ret = encode_character('A', &[0x10; 8]);
    assert_eq!(ret, [0x10, 0x11, 0x10, 0x10, 0x10, 0x10, 0x10, 0x11]);
}

#[test]
fn encode_character_short_carrier_leaves_zeros() {
    let ret = encode_character('\u{ff}', &[0x20, 0x20, 0x20]);
    assert_eq!(ret, [0x21, 0x21, 0x21, 0, 0, 0, 0, 0]);
}

#[test]
fn encode_character_uses_low_byte_of_char() {
    // U+0141 has low byte 0x41, like 'A'
    assert_eq!(encode_character('\u{141}', &[0; 8]), encode_character('A', &[0; 8]));
}

#[test]
fn decode_character_exact_value() {
    assert_eq!(decode_character(&[1, 0, 0, 0, 0, 0, 1, 1]), 0x83);
    assert_eq!(decode_character(&[0xff, 0xfe, 3, 2, 5, 4, 7, 6]), 0b1010_1010);
}

#[test]
fn decode_encode_character_round_trip() {
    let carrier: [u8; 8] = [12, 255, 0, 77, 128, 3, 90, 201];
    for c in 0u32..256 {
        let ch = char::from_u32(c).unwrap();
        let enc = encode_character(ch, &carrier);
        assert_eq!(decode_character(&enc), c as u8);
        for i in 0..8 {
            assert_eq!(enc[i] & 0xfe, carrier[i] & 0xfe);
        }
    }
}

#[test]
fn encode_then_decode_message_gives_the_range_back() {
    let message: Vec<char> = "Hello, world".chars().collect();
    let pixels: Vec<u8> = (0..200u32).map(|i| (i * 37 % 256) as u8).collect();
    let encoded = encode_message(&message, &pixels, 0, message.len());
    assert_eq!(encoded.len(), pixels.len());
    for i in 0..pixels.len() {
        assert_eq!(encoded[i] & 0xfe, pixels[i] & 0xfe);
    }
    // bytes past the terminator are unchanged
    for i in 8 * (message.len() + 1)..pixels.len() {
        assert_eq!(encoded[i], pixels[i]);
    }
    assert!(decode_terminates(&encoded));
    assert_eq!(decode_message(&encoded), "Hello, world");

    let encoded = encode_message(&message, &pixels, 7, 12);
    assert_eq!(decode_message(&encoded), "world");
}

#[test]
fn encode_message_empty_or_reversed_range_hides_only_terminator() {
    let message: Vec<char> = "abc".chars().collect();
    let pixels = vec![0xffu8; 16];
    let encoded = encode_message(&message, &pixels, 2, 1);
    assert_eq!(&encoded[0..8], &[0xfe; 8]);
    assert_eq!(&encoded[8..16], &[0xff; 8]);
    assert_eq!(decode_message(&encoded), "");
    let encoded = encode_message(&message, &pixels, 1, 1);
    assert_eq!(decode_message(&encoded), "");
}

#[test]
fn decode_message_stops_at_high_byte() {
    let mut pixels = Vec::new();
    pixels.extend_from_slice(&encode_character('h', &[0; 8]));
    pixels.extend_from_slice(&encode_character('i', &[0; 8]));
    pixels.extend_from_slice(&encode_character('\u{80}', &[0; 8]));
    pixels.extend_from_slice(&encode_character('x', &[0; 8]));
    pixels.extend_from_slice(&[0, 1, 2]);
    assert!(decode_terminates(&pixels));
    assert_eq!(decode_message(&pixels), "hi");
}

#[test]
fn decode_message_reads_to_the_end_of_full_chunks() {
    let mut pixels = Vec::new();
    pixels.extend_from_slice(&encode_character('o', &[0; 8]));
    pixels.extend_from_slice(&encode_character('k', &[0; 8]));
    assert!(decode_terminates(&pixels));
    assert_eq!(decode_message(&pixels), "ok");
    assert!(decode_terminates(&[]));
    assert_eq!(decode_message(&Vec::new()), "");
}

#[test]
fn decode_terminates_false_on_trailing_partial_chunk() {
    let mut pixels = Vec::new();
    pixels.extend_from_slice(&encode_character('o', &[0; 8]));
    pixels.extend_from_slice(&[1, 1, 1]);
    assert!(!decode_terminates(&pixels));
    assert!(!decode_terminates(&[0, 0, 0]));
}

#[test]
fn plan_encode_splits_message_over_images() {
    let lens = vec![Some(80), Some(80)];
    let tasks = plan_encode(&lens, 15, 1, 1).unwrap();
    assert_eq!(tasks, vec![task(0, 0, 0, 9), task(1, 1, 9, 14)]);
}

#[test]
fn plan_encode_groups_of_two_and_second_pass() {
    // one group of two images; the group stops after the message is complete,
    // and the second pass repeats the last output number and start
    let lens = vec![Some(400), Some(400)];
    let tasks = plan_encode(&lens, 20, 2, 2).unwrap();
    assert_eq!(tasks, vec![task(0, 0, 0, 19), task(0, 0, 0, 19)]);
}

#[test]
fn plan_encode_skips_unreadable_images() {
    let lens = vec![None, Some(80), None, Some(800)];
    let tasks = plan_encode(&lens, 30, 3, 1).unwrap();
    assert_eq!(tasks, vec![task(1, 0, 0, 9), task(3, 1, 9, 29)]);
}

#[test]
fn plan_encode_end_reaching_total_continues() {
    // 16 bytes hold 2 characters: the end goes from 0 to 1, then to 2 == total,
    // which is not total - 1, so planning goes on under the next number
    let lens = vec![Some(16), Some(24), Some(8)];
    let tasks = plan_encode(&lens, 3, 1, 1).unwrap();
    assert_eq!(tasks, vec![task(0, 0, 0, 1), task(1, 1, 1, 3), task(2, 2, 3, 3)]);
}

#[test]
fn plan_encode_overflow_is_none() {
    // an empty message cannot be planned once an image is visited
    assert_eq!(plan_encode(&vec![Some(80)], 0, 1, 1), None);
    // an image too small for even one character at the start
    assert_eq!(plan_encode(&vec![Some(7)], 5, 1, 1), None);
    // no passes, or no images: nothing to plan
    assert_eq!(plan_encode(&vec![Some(80)], 0, 1, 0), Some(vec![]));
    assert_eq!(plan_encode(&vec![], 10, 4, 3), Some(vec![]));
}

#[test]
fn available_bytes_sums_readable_images() {
    assert_eq!(available_bytes(&vec![Some(10), None, Some(32)]), Some(42));
    assert_eq!(available_bytes(&vec![]), Some(0));
    if usize::MAX as u128 == u64::MAX as u128 {
        assert_eq!(available_bytes(&vec![Some(usize::MAX), Some(1)]), None);
    }
}

#[test]
fn output_file_name_is_zero_padded() {
    assert_eq!(output_file_name(0), "0000000.ppm");
    assert_eq!(output_file_name(5), "0000005.ppm");
    assert_eq!(output_file_name(1234567), "1234567.ppm");
    assert_eq!(output_file_name(12345678), "12345678.ppm");
    assert_ne!(output_file_name(10), output_file_name(100));
    assert_eq!(output_file_name(u128::MAX), format!("{:07}.ppm", u128::MAX));
}

#[test]
fn ppm_file_bytes_layout() {
    let header = PpmHeader { magic_number: b"P6".to_vec(), width: 2, height: 1, max_color_value: 255 };
    let content = ppm_file_bytes(&header, &[1, 2, 3, 4, 5, 6]);
    assert_eq!(content, b"P6\n2 1\n255\n\x01\x02\x03\x04\x05\x06\n".to_vec());
    let header = PpmHeader { magic_number: b"P6".to_vec(), width: 0, height: 4294967295, max_color_value: 10 };
    assert_eq!(ppm_file_bytes(&header, &[]), b"P6\n0 4294967295\n10\n\n".to_vec());
}

#[test]
fn arrange_messages_orders_by_arrival_stably() {
    let received = vec![
        ordering_decode_message { arrival: 3, message: "c".to_string() },
        ordering_decode_message { arrival: 1, message: "a".to_string() },
        ordering_decode_message { arrival: 2, message: "b1".to_string() },
        ordering_decode_message { arrival: 2, message: "b2".to_string() },
    ];
    let arranged = arrange_messages(received);
    let got: Vec<(u32, String)> = arranged.into_iter().map(|m| (m.arrival, m.message)).collect();
    assert_eq!(
        got,
        vec![(1, "a".to_string()), (2, "b1".to_string()), (2, "b2".to_string()), (3, "c".to_string())]
    );
    assert!(arrange_messages(Vec::new()).is_empty());
}

#[test]
fn steg_error_variants() {
    let e = StegError::BadEncode("no such file".to_string());
    assert_eq!(format!("{:?}", e), "BadEncode(\"no such file\")");
    let e = StegError::BadDecode("bad".to_string());
    assert!(matches!(e, StegError::BadDecode(_)));
}

#[test]
fn plan_encode_after_completion_reuses_number_and_start() {
    // once the message is complete, a later image gets a task with the same
    // output number and start, which may be larger than the image can hold
    let lens = vec![Some(800), Some(16)];
    let tasks = plan_encode(&lens, 50, 1, 1).unwrap();
    assert_eq!(tasks, vec![task(0, 0, 0, 49), task(1, 0, 0, 50)]);
    assert!(8 * (50 + 1) > 16);
}

#[test]
fn decode_stops_at_hidden_nul_or_non_ascii() {
    let message: Vec<char> = "a\u{0}b".chars().collect();
    let pixels = vec![0x55u8; 64];
    let encoded = encode_message(&message, &pixels, 0, 3);
    assert_eq!(decode_message(&encoded), "a");
    let message: Vec<char> = "xy\u{e9}z".chars().collect();
    let encoded = encode_message(&message, &pixels, 0, 4);
    assert_eq!(decode_message(&encoded), "xy");
}
