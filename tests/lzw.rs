use lzw::{compress, decompress, CodeSize, CompressError, DecompressError};

const WIDTHS: [usize; 3] = [2, 3, 4];

fn size(n: usize) -> CodeSize {
    CodeSize::new(n).unwrap()
}

fn round_trip(input: &[u8], n: usize) -> Vec<u8> {
    let packed = compress(input, &size(n)).unwrap();
    decompress(&packed).unwrap()
}

#[test]
fn it_works() {
    let left = vec![1, 2, 3];
    let right = vec![1, 2, 3];
    assert_eq!(left, right);
}

#[test]
fn code_size_new_accepts_only_two_three_four() {
    assert_eq!(CodeSize::new(2), Ok(CodeSize::Two));
    assert_eq!(CodeSize::new(3), Ok(CodeSize::Three));
    assert_eq!(CodeSize::new(4), Ok(CodeSize::Four));
    assert_eq!(CodeSize::new(0), Err("Invalid code size"));
    assert_eq!(CodeSize::new(1), Err("Invalid code size"));
    assert_eq!(CodeSize::new(5), Err("Invalid code size"));
}

#[test]
fn code_size_widths_and_capacities() {
    assert_eq!(CodeSize::Two.size(), 2);
    assert_eq!(CodeSize::Three.size(), 3);
    assert_eq!(CodeSize::Four.size(), 4);
    assert_eq!(CodeSize::Two.max(), 65_535);
    assert_eq!(CodeSize::Three.max(), 16_777_215);
    assert_eq!(CodeSize::Four.max(), 4_294_967_295);
}

#[test]
fn aaab_with_width_two() {
    let input = [0x41, 0x41, 0x41, 0x42];
    let packed = compress(&input, &CodeSize::Two).unwrap();
    assert_eq!(packed, vec![0x02, 0x41, 0x00, 0x41, 0x41, 0x00, 0x42]);
    assert_eq!(decompress(&packed).unwrap(), input.to_vec());
}

#[test]
fn aaab_with_width_three_and_four() {
    let input = [0x41, 0x41, 0x41, 0x42];
    let three = compress(&input, &CodeSize::Three).unwrap();
    assert_eq!(three, vec![0x03, 0x41, 0x00, 0x00, 0x41, 0x41, 0x00, 0x00, 0x42]);
    let four = compress(&input, &CodeSize::Four).unwrap();
    assert_eq!(
        four,
        vec![0x04, 0x41, 0x00, 0x00, 0x00, 0x41, 0x41, 0x00, 0x00, 0x00, 0x42]
    );
}

#[test]
fn empty_input_is_the_header_alone() {
    for n in WIDTHS {
        let packed = compress(&[], &size(n)).unwrap();
        assert_eq!(packed, vec![n as u8]);
        assert_eq!(decompress(&packed).unwrap(), Vec::<u8>::new());
    }
}

#[test]
fn single_byte_comes_back() {
    for n in WIDTHS {
        for b in [0u8, 1, 0x7f, 0xff] {
            let packed = compress(&[b], &size(n)).unwrap();
            let mut expected = vec![n as u8, b];
            expected.resize(n + 1, 0);
            assert_eq!(packed, expected);
            assert_eq!(decompress(&packed).unwrap(), vec![b]);
        }
    }
}

#[test]
fn header_records_the_width() {
    let input: Vec<u8> = (0..500u32).map(|i| (i * 7 % 13) as u8).collect();
    for n in WIDTHS {
        let packed = compress(&input, &size(n)).unwrap();
        assert_eq!(packed[0], n as u8);
    }
}

#[test]
fn known_strings_are_matched_longest_first() {
    // "ABABABA": AB is registered, then the known AB grows into ABA, then BA.
    let input = b"ABABABA";
    let packed = compress(input, &CodeSize::Two).unwrap();
    assert_eq!(
        packed,
        vec![0x02, 0x41, 0x00, 0x42, 0x00, 0x01, 0x41, 0x42, 0x00, 0x41]
    );
    assert_eq!(decompress(&packed).unwrap(), input.to_vec());
}

#[test]
fn round_trips_text_and_repetition() {
    let text = b"TOBEORNOTTOBEORTOBEORNOT, that is the question; to be or not to be".to_vec();
    let run = vec![0xAAu8; 1000];
    let mut mixed = Vec::new();
    for i in 0..5000u32 {
        mixed.push((i % 251) as u8);
        mixed.push((i / 7 % 3) as u8);
    }
    for n in WIDTHS {
        assert_eq!(round_trip(&text, n), text);
        assert_eq!(round_trip(&run, n), run);
        assert_eq!(round_trip(&mixed, n), mixed);
    }
}

#[test]
fn every_byte_value_round_trips() {
    let input: Vec<u8> = (0..=255u8).chain((0..=255u8).rev()).collect();
    for n in WIDTHS {
        assert_eq!(round_trip(&input, n), input);
    }
}

#[test]
fn full_dictionary_writes_codes_only() {
    // Each pair (x, y) with y < 255 is new when it comes, so it registers one
    // entry and writes its first byte's code and a literal: 65 280 pairs fill
    // a width-two dictionary, the last one without a literal.
    let mut input = Vec::new();
    for x in 0..=255u8 {
        for y in 0..255u8 {
            input.push(x);
            input.push(y);
        }
    }
    let tail = 40;
    input.extend(std::iter::repeat(0xFFu8).take(tail));
    let packed = compress(&input, &CodeSize::Two).unwrap();

    let pairs = 256 * 255;
    let growing = 1 + 3 * (pairs - 1);
    assert_eq!(packed.len(), growing + 2 + 2 * (tail + 1));
    for (i, chunk) in packed[1..growing].chunks(3).enumerate() {
        assert_eq!(chunk, &[(i / 255) as u8, 0x00, (i % 255) as u8]);
    }
    assert_eq!(&packed[growing..growing + 2], &[0xFF, 0x00]);
    let after = &packed[growing + 2..];
    assert_eq!(after.len() % 2, 0);
    assert_eq!(&after[..2], &[0xFE, 0x00]);
    for code in after[2..].chunks(2) {
        assert_eq!(code, &[0xFF, 0x00]);
    }
    assert_eq!(decompress(&packed).unwrap(), input);
}

#[test]
fn empty_stream_is_missing() {
    assert!(matches!(
        decompress(&[]),
        Err(DecompressError::MissingEmptyFileError)
    ));
}

#[test]
fn bad_header_is_corrupt_at_one() {
    for h in [0u8, 1, 5, 0xff] {
        assert!(matches!(
            decompress(&[h, 0x41, 0x00]),
            Err(DecompressError::CorruptInvalidFileError(1))
        ));
    }
}

#[test]
fn unknown_code_is_corrupt_at_two() {
    // code 256 before any entry was registered
    assert!(matches!(
        decompress(&[0x02, 0x00, 0x01]),
        Err(DecompressError::CorruptInvalidFileError(2))
    ));
    // code 257 when only 256 has been registered
    assert!(matches!(
        decompress(&[0x02, 0x41, 0x00, 0x42, 0x01, 0x01]),
        Err(DecompressError::CorruptInvalidFileError(2))
    ));
}

#[test]
fn unfinished_code_at_the_end_is_dropped() {
    assert_eq!(decompress(&[0x02, 0x41, 0x00, 0x42, 0x43]).unwrap(), vec![0x41, 0x42]);
    assert_eq!(decompress(&[0x03, 0x41]).unwrap(), Vec::<u8>::new());
}

#[test]
fn entry_that_fills_the_dictionary_is_never_taught() {
    // The pair (0xFF, 0xFE) takes the last code without a literal byte, so
    // the decoder never learns it; matching it afterwards writes that code.
    let mut input = Vec::new();
    for x in 0..=255u8 {
        for y in 0..255u8 {
            input.push(x);
            input.push(y);
        }
    }
    input.extend([0xFF, 0xFF, 0xFE]);
    let packed = compress(&input, &CodeSize::Two).unwrap();
    assert_eq!(&packed[packed.len() - 2..], &[0xFF, 0xFF]);
    assert!(matches!(
        decompress(&packed),
        Err(DecompressError::CorruptInvalidFileError(2))
    ));
}

#[test]
fn messages_convert_to_internal_errors() {
    let c = CompressError::from("broken");
    assert!(matches!(c, CompressError::InternalError("broken")));
    let d = DecompressError::from("broken");
    assert!(matches!(d, DecompressError::InternalError("broken")));
}

#[test]
fn code_too_wide_for_its_width_is_an_internal_error() {
    let r = lzw::packing::code_to_bytes(65_536, &CodeSize::Two);
    assert!(matches!(
        r,
        Err(CompressError::InternalError("Code is larger than allowed width"))
    ));
    assert_eq!(lzw::packing::code_to_bytes(65_535, &CodeSize::Two).unwrap(), vec![0xFF, 0xFF]);
    assert_eq!(lzw::packing::code_to_bytes(258, &CodeSize::Three).unwrap(), vec![0x02, 0x01, 0x00]);
    assert_eq!(lzw::packing::vec_to_code(&[0x02, 0x01, 0x00]), 258);
}
