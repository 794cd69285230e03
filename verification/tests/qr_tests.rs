use qrust::data::{Data, Segment};
use qrust::encode::{bits_char_count_indicator, encode_byte, encode_numeric, format_info,
    version_info};
use qrust::matrix::{data_capacity_bits, Codewords, Matrix, Module};
use qrust::qrcode::{Mask, Mode, QrError, Version, ECL};

fn get_data_vec(bits: &str) -> Vec<u8> {
    let mut v = Vec::new();

    let mut i = 0;
    let mut num = 0;
    for c in bits.chars() {
        match c {
            '1' => {
                num += 1 << (7 - i);
                i += 1;
            }
            '0' => i += 1,
            _ => continue,
        }
        if i == 8 {
            v.push(num);
            num = 0;
            i = 0;
        }
    }

    if i > 0 {
        v.push(num);
    }

    v
}

#[test]
fn encode_numeric_works() {
    let data = Data::new(
        vec![Segment {
            mode: Mode::Numeric,
            text: "1",
        }],
        Version(1),
    )
    .unwrap();

    assert_eq!(data.value, get_data_vec("0001 0000000001 0001"));

    let data = Data::new(
        vec![Segment {
            mode: Mode::Numeric,
            text: "99",
        }],
        Version(1),
    )
    .unwrap();
    assert_eq!(data.value, get_data_vec("0001 0000000010 1100011"));

    let data = Data::new(
        vec![Segment {
            mode: Mode::Numeric,
            text: "123456",
        }],
        Version(1),
    )
    .unwrap();
    assert_eq!(
        data.value,
        get_data_vec("0001 0000000110 0001111011 0111001000")
    );
}

#[test]
fn encode_alphanumeric_works() {
    let data = Data::new(
        vec![Segment {
            mode: Mode::Alphanumeric,
            text: "1",
        }],
        Version(1),
    )
    .unwrap();
    assert_eq!(data.value, get_data_vec("0010 000000001 000001"));

    let data = Data::new(
        vec![Segment {
            mode: Mode::Alphanumeric,
            text: "99",
        }],
        Version(1),
    )
    .unwrap();
    assert_eq!(data.value, get_data_vec("0010 000000010 00110011110"));

    let data = Data::new(
        vec![Segment {
            mode: Mode::Alphanumeric,
            text: "ABC1::4",
        }],
        Version(1),
    )
    .unwrap();
    assert_eq!(
        data.value,
        get_data_vec("0010 000000111 00111001101 01000011101 11111101000 000100")
    );
}

#[test]
fn encode_byte_works() {
    let data = Data::new(
        vec![Segment {
            mode: Mode::Byte,
            text: "0",
        }],
        Version(1),
    )
    .unwrap();

    assert_eq!(data.value, get_data_vec("0100 00000001 00110000"));
}

#[test]
fn information_works() {
    let info = version_info();
    assert_eq!(info[7], 0x07C94);
    assert_eq!(info[21], 0x15683);
    assert_eq!(info[40], 0x28C69);
}

#[test]
fn format_information_works() {
    let info = format_info();
    assert_eq!(info[ECL::Medium as usize][Mask::M0 as usize], 0x5412);
    assert_eq!(info[ECL::High as usize][Mask::M0 as usize], 0x1689);
    assert_eq!(info[ECL::High as usize][Mask::M7 as usize], 0x083B);
}

#[test]
fn char_count_indicator_widths() {
    assert_eq!(bits_char_count_indicator(Version(1), Mode::Numeric), 10);
    assert_eq!(bits_char_count_indicator(Version(9), Mode::Numeric), 10);
    assert_eq!(bits_char_count_indicator(Version(10), Mode::Numeric), 12);
    assert_eq!(bits_char_count_indicator(Version(26), Mode::Numeric), 12);
    assert_eq!(bits_char_count_indicator(Version(27), Mode::Numeric), 14);
    assert_eq!(bits_char_count_indicator(Version(1), Mode::Alphanumeric), 9);
    assert_eq!(bits_char_count_indicator(Version(10), Mode::Alphanumeric), 11);
    assert_eq!(bits_char_count_indicator(Version(40), Mode::Alphanumeric), 13);
    assert_eq!(bits_char_count_indicator(Version(9), Mode::Byte), 8);
    assert_eq!(bits_char_count_indicator(Version(10), Mode::Byte), 16);
}

#[test]
fn invalid_characters_are_rejected() {
    let mut data = Data::new(vec![], Version(1)).unwrap();
    assert_eq!(
        encode_numeric(&mut data, "12a"),
        Err(QrError::InvalidCharacter)
    );
    // Nothing was written by the failed call.
    assert_eq!(data.bit_len, 0);
    let r = Data::new(
        vec![Segment {
            mode: Mode::Alphanumeric,
            text: "abc",
        }],
        Version(1),
    );
    assert_eq!(r.err(), Some(QrError::InvalidCharacter));
}

#[test]
fn oversized_payload_is_rejected() {
    // 600 digits cannot fit the 441-bit budget of a version-1 grid.
    let big = "7".repeat(600);
    let r = Data::new(
        vec![Segment {
            mode: Mode::Numeric,
            text: &big,
        }],
        Version(1),
    );
    assert_eq!(r.err(), Some(QrError::CapacityExceeded));
    let mut data = Data::new(vec![], Version(1)).unwrap();
    assert_eq!(
        encode_byte(&mut data, &"x".repeat(300)),
        Err(QrError::CapacityExceeded)
    );
}

#[test]
fn capacity_of_version_one() {
    // 26 codewords of 8 bits each.
    assert_eq!(data_capacity_bits(Version(1)), 208);
}

fn sized_codewords(version: usize, ecl: ECL, fill: u8) -> Codewords {
    let bits = data_capacity_bits(Version(version));
    Codewords {
        value: vec![fill; (bits + 7) / 8],
        version: Version(version),
        ecl,
    }
}

#[test]
fn matrix_covers_every_version_and_level() {
    for version in 1..=40usize {
        for ecl in [ECL::Low, ECL::Medium, ECL::Quartile, ECL::High] {
            let matrix = Matrix::new(sized_codewords(version, ecl, 0x5A), Some(Mask::M0))
                .unwrap();
            assert_eq!(matrix.width, version * 4 + 17);
            for x in 0..matrix.width {
                for y in 0..matrix.width {
                    assert!(matrix.get(x, y) != Module::Unset);
                }
            }
        }
    }
}

#[test]
fn malformed_codewords_are_rejected() {
    // One byte short: cells run dry.
    let bits = data_capacity_bits(Version(1));
    let short = Codewords {
        value: vec![0u8; (bits + 7) / 8 - 1],
        version: Version(1),
        ecl: ECL::Low,
    };
    assert!(matches!(
        Matrix::new(short, Some(Mask::M0)),
        Err(QrError::MalformedCodewords)
    ));
    // One byte long: a whole codeword is never read.
    let long = Codewords {
        value: vec![0u8; (bits + 7) / 8 + 1],
        version: Version(1),
        ecl: ECL::Low,
    };
    assert!(matches!(
        Matrix::new(long, Some(Mask::M0)),
        Err(QrError::MalformedCodewords)
    ));
}

#[test]
fn one_mask_is_committed() {
    // The auto-selected symbol is indistinguishable from building fresh
    // with the winning mask forced: exactly one masking pass.
    for version in [1usize, 2, 7, 10] {
        let auto = Matrix::new(sized_codewords(version, ECL::Medium, 0xC3), None).unwrap();
        let forced =
            Matrix::new(sized_codewords(version, ECL::Medium, 0xC3), Some(auto.mask)).unwrap();
        assert_eq!(auto.width, forced.width);
        assert!(auto.mask == forced.mask);
        for x in 0..auto.width {
            for y in 0..auto.width {
                assert!(auto.get(x, y) == forced.get(x, y));
            }
        }
    }
}

#[test]
fn structural_cells_are_fixed() {
    let matrix = Matrix::new(sized_codewords(2, ECL::Low, 0), Some(Mask::M1)).unwrap();
    let w = matrix.width;
    // Finder corners are dark, the separator ring is light.
    assert!(matrix.get(0, 0) == Module::FinderON);
    assert!(matrix.get(3, 3) == Module::FinderON);
    assert!(matrix.get(1, 1) == Module::FinderOFF);
    assert!(matrix.get(7, 7) == Module::Separator);
    // The dark module next to the bottom-left finder is always set.
    assert!(matrix.get(8, w - 8) == Module::FormatON);
    // Timing dashes alternate starting dark.
    assert!(matrix.get(8, 6) == Module::TimingON);
    assert!(matrix.get(9, 6) == Module::TimingOFF);
    // Version 2 has an alignment pattern centred at (w - 7, w - 7).
    assert!(matrix.get(w - 7, w - 7) == Module::AlignmentON);
    assert!(matrix.get(w - 8, w - 7) == Module::AlignmentOFF);
    assert!(matrix.get(w - 9, w - 7) == Module::AlignmentON);
}

#[test]
fn byte_mode_keeps_every_value() {
    // Each input byte reappears as one eight-bit group.
    let text = "Ok#\u{7f}";
    let mut data = Data::new(vec![], Version(1)).unwrap();
    encode_byte(&mut data, text).unwrap();
    let expected = get_data_vec("0100 00000100 01001111 01101011 00100011 01111111");
    assert_eq!(data.value, expected);
}

#[test]
fn empty_input_encodes_header_only() {
    let data = Data::new(vec![], Version(1)).unwrap();
    assert_eq!(data.value, Vec::<u8>::new());
    assert_eq!(data.bit_len, 0);
    // An empty numeric segment is just the indicator and a zero count.
    let data = Data::new(
        vec![Segment {
            mode: Mode::Numeric,
            text: "",
        }],
        Version(1),
    )
    .unwrap();
    assert_eq!(data.value, get_data_vec("0001 0000000000"));
    assert_eq!(data.bit_len, 14);
}

#[test]
fn segments_concatenate_in_order() {
    let data = Data::new(
        vec![
            Segment {
                mode: Mode::Numeric,
                text: "1",
            },
            Segment {
                mode: Mode::Byte,
                text: "0",
            },
        ],
        Version(1),
    )
    .unwrap();
    assert_eq!(
        data.value,
        get_data_vec("0001 0000000001 0001 0100 00000001 00110000")
    );
}
