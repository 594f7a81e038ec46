use squeeze::bits::{BitBuffer, BitReader, BitWriter};
use squeeze::codes::Encoder;
use squeeze::{squeeze, unsqueeze, SqueezeError};

#[test]
fn encode_standard() {
    let encoder = Encoder::new();

    assert_eq!(encoder.encode('a'), Ok(2));
}

#[test]
fn decode_standard() {
    let encoder = Encoder::new();

    assert_eq!(encoder.decode(5), Some('n'));
}

#[test]
fn write5bits() {
    let mut bit_writer = BitWriter::new();
    bit_writer.write_five_bits(0)
}

#[test]
fn fresh_buffer_is_empty() {
    let mut buffer = BitBuffer::new();

    assert!(!buffer.is_full());
    buffer.clear();
    assert!(!buffer.is_full());
}

#[test]
fn encode_quote_and_newline() {
    let encoder = Encoder::new();

    assert_eq!(encoder.encode('"'), Ok(4));
    assert_eq!(encoder.encode('\n'), Ok(30));
    assert_eq!(encoder.decode(30), Some('\n'));
}

#[test]
fn encode_outside_alphabet_gives_escape() {
    let encoder = Encoder::new();

    assert_eq!(encoder.encode('z'), Ok(31));
    assert_eq!(encoder.encode('Z'), Ok(31));
}

#[test]
fn encode_non_ascii_refused() {
    let encoder = Encoder::new();

    assert_eq!(encoder.encode('\u{e9}'), Err(SqueezeError::UnsupportedCharacter));
}

#[test]
fn decode_escape_and_beyond_is_none() {
    let encoder = Encoder::new();

    assert_eq!(encoder.decode(31), None);
    assert_eq!(encoder.decode(32), None);
    assert_eq!(encoder.decode(255), None);
}

#[test]
fn tables_are_identical() {
    let e1 = Encoder::new();
    let e2 = Encoder::new();

    for b in 0..=255u8 {
        assert_eq!(e1.encode(b as char), e2.encode(b as char));
    }
    for c in 0..=255u8 {
        assert_eq!(e1.decode(c), e2.decode(c));
    }
}

#[test]
fn writer_pads_partial_byte_with_zeros() {
    let mut writer = BitWriter::new();
    writer.write_five_bits(0b10110);
    writer.flush();

    assert_eq!(writer.into_bytes(), vec![0b1011_0000]);
}

#[test]
fn writer_packs_across_byte_boundaries() {
    let mut writer = BitWriter::new();
    writer.write_five_bits(1);
    writer.write_eight_bits(0xFF);
    writer.flush();

    assert_eq!(writer.into_bytes(), vec![0b0000_1111, 0b1111_1000]);
}

#[test]
fn reader_reads_back_five_bits() {
    let mut reader = BitReader::new(vec![0b1011_0000]);

    assert_eq!(reader.read_five_bits(), Some(0b10110));
    assert_eq!(reader.read_five_bits(), None);
}

#[test]
fn reader_reads_across_byte_boundaries() {
    let mut reader = BitReader::new(vec![0b0000_1111, 0b1111_1000]);

    assert_eq!(reader.read_five_bits(), Some(1));
    assert_eq!(reader.read_eight_bits(), Some(0xFF));
    assert_eq!(reader.read_five_bits(), None);
}

#[test]
fn empty_input_compresses_to_one_byte() {
    let compressed = squeeze(&vec![]).unwrap();

    assert_eq!(compressed, vec![0b0000_1000]);
    assert_eq!(unsqueeze(&compressed), Ok(vec![]));
}

#[test]
fn single_letter_example() {
    let compressed = squeeze(&vec![b'a']).unwrap();

    // version(1) then code(2): 00001 00010, then the escape code 11111
    // because only two bits hang over, then one zero bit of pad.
    assert_eq!(compressed, vec![0b0000_1000, 0b1011_1110]);
    assert_eq!(unsqueeze(&compressed), Ok(vec![b'a']));
}

#[test]
fn non_ascii_byte_refused() {
    assert_eq!(squeeze(&vec![200]), Err(SqueezeError::UnsupportedCharacter));
    assert_eq!(
        squeeze(&vec![b'e', 200, b'e']),
        Err(SqueezeError::UnsupportedCharacter)
    );
}

#[test]
fn wrong_version_refused() {
    assert_eq!(unsqueeze(&vec![0]), Err(SqueezeError::InvalidFormatVersion));
    assert_eq!(
        unsqueeze(&vec![0xFF, 0xFF]),
        Err(SqueezeError::InvalidFormatVersion)
    );
}

#[test]
fn empty_stream_refused() {
    assert_eq!(unsqueeze(&vec![]), Err(SqueezeError::UnexpectedEndOfStream));
}

#[test]
fn round_trip_in_alphabet() {
    let input: Vec<u8> = b"the test".to_vec();
    let compressed = squeeze(&input).unwrap();

    // One version code and eight symbol codes: 45 bits, padded to 6 bytes.
    assert_eq!(compressed.len(), 6);
    assert_eq!(unsqueeze(&compressed), Ok(input));
}

#[test]
fn round_trip_with_escapes() {
    let input: Vec<u8> = b"Hello!".to_vec();
    let compressed = squeeze(&input).unwrap();

    // 'H' and '!' are escaped: 5 + 13 + 5 + 5 + 5 + 5 + 13 = 51 bits,
    // three hang over, so an escape code and no further pad: 7 bytes.
    assert_eq!(compressed.len(), 7);
    assert_eq!(unsqueeze(&compressed), Ok(input));
}

#[test]
fn round_trip_ends_exactly_on_escape_pad() {
    // Six symbols: 35 bits, three hang over, and the flush escape fills
    // the last byte exactly.
    let input: Vec<u8> = b"eeeeee".to_vec();
    let compressed = squeeze(&input).unwrap();

    assert_eq!(compressed.len(), 5);
    assert_eq!(unsqueeze(&compressed), Ok(input));
}

#[test]
fn round_trip_every_ascii_byte() {
    let input: Vec<u8> = (0..128u8).collect();
    let compressed = squeeze(&input).unwrap();

    assert_eq!(unsqueeze(&compressed), Ok(input));
}
