use mkcbt::bytes::{append, copy, push_zeros, sum};
use mkcbt::tar::{
    build_header, fits, padding_for, SimpleTarArchive, BLOCK_SIZE, NAME_LIMIT, SIZE_LIMIT,
};

fn octal(field: &[u8]) -> u64 {
    let mut value = 0u64;
    for b in field {
        assert!((b'0'..=b'7').contains(b), "not an octal digit: {}", b);
        value = value * 8 + u64::from(*b - b'0');
    }
    value
}

fn recomputed_checksum(header: &[u8]) -> u64 {
    let mut blank = header.to_vec();
    for b in &mut blank[148..156] {
        *b = b' ';
    }
    blank.iter().map(|b| u64::from(*b)).sum()
}

fn whole(tar: SimpleTarArchive) -> Vec<u8> {
    tar.finish()
}

#[test]
fn header_fields_stand_at_their_offsets() {
    let header = build_header(b"01.avif", 1234);
    assert_eq!(header.len(), 512);
    assert_eq!(&header[0..7], b"01.avif");
    assert!(header[7..100].iter().all(|b| *b == 0));
    assert_eq!(&header[100..108], b"0000444\0");
    assert_eq!(&header[108..116], b"0000000\0");
    assert_eq!(&header[116..124], b"0000000\0");
    assert_eq!(&header[124..136], b"00000002322\0");
    assert_eq!(&header[136..148], b"00000000000\0");
    assert_eq!(header[156], b'0');
    assert!(header[157..257].iter().all(|b| *b == 0));
    assert_eq!(&header[257..263], b"ustar\0");
    assert_eq!(&header[263..265], b"00");
    assert!(header[265..].iter().all(|b| *b == 0));
}

#[test]
fn header_checksum_of_a_known_header() {
    let header = build_header(b"1.avif", 3);
    // name 49+46+97+118+105+102, mode 4*48+3*52, owner and group 7*48 each,
    // size 10*48+51, time 11*48, blank checksum 8*32, type 48, ustar 559, version 96
    let expected: u64 = 517 + 348 + 336 + 336 + 531 + 528 + 256 + 48 + 559 + 96;
    assert_eq!(recomputed_checksum(&header), expected);
    assert_eq!(octal(&header[148..154]), expected);
    assert_eq!(&header[148..156], b"006743\0 ");
}

#[test]
fn header_checksum_matches_for_many_headers() {
    let names: [&[u8]; 4] = [b"", b"1.avif", b"0000000012.avif", &[0xffu8; 100]];
    let sizes = [0u64, 1, 511, 512, 513, 0o777, 1 << 20, SIZE_LIMIT - 1];
    for name in names {
        for size in sizes {
            let header = build_header(name, size);
            assert_eq!(header.len(), BLOCK_SIZE);
            assert_eq!(octal(&header[148..154]), recomputed_checksum(&header));
            assert_eq!(header[154], 0);
            assert_eq!(header[155], b' ');
            assert_eq!(octal(&header[124..135]), size);
            assert_eq!(&header[..name.len()], name);
        }
    }
}

#[test]
fn header_with_longest_name_and_largest_size() {
    let name = [b'n'; NAME_LIMIT];
    let header = build_header(&name, SIZE_LIMIT - 1);
    assert_eq!(&header[0..100], &name[..]);
    assert_eq!(&header[100..107], b"0000444");
    assert_eq!(&header[124..136], b"77777777777\0");
    assert_eq!(octal(&header[148..154]), recomputed_checksum(&header));
}

#[test]
fn entry_fits_up_to_the_limits_of_the_header() {
    assert_eq!(NAME_LIMIT, 100);
    assert_eq!(SIZE_LIMIT, 8 * 1024 * 1024 * 1024);
    assert!(fits(0, 0));
    assert!(fits(100, 0));
    assert!(!fits(101, 0));
    assert!(fits(6, SIZE_LIMIT - 1));
    assert!(!fits(6, SIZE_LIMIT));
    assert!(!fits(6, u64::MAX));
    assert!(!fits(usize::MAX, 1));
}

#[test]
fn padding_fills_the_last_block() {
    assert_eq!(padding_for(0), 0);
    assert_eq!(padding_for(1), 511);
    assert_eq!(padding_for(3), 509);
    assert_eq!(padding_for(511), 1);
    assert_eq!(padding_for(512), 0);
    assert_eq!(padding_for(513), 511);
    assert_eq!(padding_for(1024), 0);
    assert_eq!(padding_for(u64::MAX), 1);
}

#[test]
fn byte_sum_adds_unsigned_bytes() {
    assert_eq!(sum(b""), 0);
    assert_eq!(sum(b"\x01\x02\x03"), 6);
    assert_eq!(sum(&[0xffu8; 512]), 130560);
    assert_eq!(sum(b"        "), 256);
}

#[test]
fn bytes_are_appended_and_copied() {
    let mut out = b"ab".to_vec();
    append(&mut out, b"cd");
    append(&mut out, b"");
    push_zeros(&mut out, 3);
    push_zeros(&mut out, 0);
    assert_eq!(out, b"abcd\0\0\0".to_vec());
    assert_eq!(copy(b"xyz"), b"xyz".to_vec());
    assert_eq!(copy(b""), Vec::<u8>::new());
}

#[test]
fn empty_archive_is_the_end_marker() {
    let tar = SimpleTarArchive::new();
    assert_eq!(whole(tar), vec![0u8; 1024]);
}

#[test]
fn entry_is_header_payload_padding() {
    let mut tar = SimpleTarArchive::new();
    tar.write_file(b"abc", b"1.avif");
    let out = tar.take_output();
    assert_eq!(out.len(), 1024);
    assert_eq!(&out[..512], &build_header(b"1.avif", 3)[..]);
    assert_eq!(&out[512..515], b"abc");
    assert!(out[515..].iter().all(|b| *b == 0));
    assert_eq!(tar.take_output(), Vec::<u8>::new());
    assert_eq!(whole(tar), vec![0u8; 1024]);
}

#[test]
fn payload_is_kept_byte_for_byte() {
    let payload: Vec<u8> = (0..2000u32).map(|i| (i * 7 % 256) as u8).collect();
    let mut tar = SimpleTarArchive::new();
    tar.write_file(&payload, b"0001.avif");
    let out = whole(tar);
    assert_eq!(out.len(), 512 + 2048 + 1024);
    assert_eq!(&out[512..2512], &payload[..]);
    assert!(out[2512..].iter().all(|b| *b == 0));
}

#[test]
fn payload_of_whole_blocks_gets_no_padding() {
    let mut tar = SimpleTarArchive::new();
    tar.write_file(&[7u8; 512], b"1.avif");
    tar.write_file(b"", b"2.avif");
    tar.write_file(&[9u8; 1024], b"3.avif");
    let out = whole(tar);
    assert_eq!(out.len(), (512 + 512) + 512 + (512 + 1024) + 1024);
    assert_eq!(&out[0..6], b"1.avif");
    assert_eq!(&out[1024..1030], b"2.avif");
    assert_eq!(&out[1536..1542], b"3.avif");
    assert!(out[2048..3072].iter().all(|b| *b == 9));
    assert!(out[3072..].iter().all(|b| *b == 0));
}

#[test]
fn entries_keep_the_order_of_writing() {
    let mut tar = SimpleTarArchive::new();
    let mut out = Vec::new();
    for (i, payload) in [&b"first"[..], &b"second"[..], &b"third"[..]].iter().enumerate() {
        let name = format!("{}.avif", i + 1);
        tar.write_file(payload, name.as_bytes());
        out.extend(tar.take_output());
    }
    out.extend(whole(tar));
    assert_eq!(out.len(), 3 * 1024 + 1024);
    assert_eq!(&out[0..6], b"1.avif");
    assert_eq!(&out[512..517], b"first");
    assert_eq!(&out[1024..1030], b"2.avif");
    assert_eq!(&out[1536..1542], b"second");
    assert_eq!(&out[2048..2054], b"3.avif");
    assert_eq!(&out[2560..2565], b"third");
}

#[test]
fn taking_output_in_pieces_gives_the_same_stream() {
    let mut at_once = SimpleTarArchive::new();
    at_once.write_file(b"one", b"1.avif");
    at_once.write_file(b"two", b"2.avif");
    let expected = whole(at_once);

    let mut piecewise = SimpleTarArchive::new();
    let mut out = piecewise.take_output();
    piecewise.write_file(b"one", b"1.avif");
    out.extend(piecewise.take_output());
    out.extend(piecewise.take_output());
    piecewise.write_file(b"two", b"2.avif");
    out.extend(whole(piecewise));
    assert_eq!(out, expected);
}

#[test]
fn archive_ends_with_two_zero_blocks_after_a_header() {
    let mut tar = SimpleTarArchive::new();
    tar.write_file(b"", b"1.avif");
    let out = whole(tar);
    assert_eq!(out.len(), 512 + 1024);
    assert!(out[512..].iter().all(|b| *b == 0));
    assert!(out[..512].iter().any(|b| *b != 0));
}
