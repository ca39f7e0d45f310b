use life::codec::FormatError;
use life::codec::decode;
use life::codec::encode;
use life::engine::Board;
use life::engine::Cell;

fn pattern(w: usize, h: usize, alive: &[(usize, usize)]) -> Board {
    let mut b = Board::new([w, h], Cell::Dead);
    for (x, y) in alive {
        b.set(&[*x, *y], Cell::Alive);
    }
    b
}

#[test]
fn encode_writes_header_and_packed_bits() {
    let b = pattern(2, 2, &[(0, 0), (1, 1)]);
    let bytes = encode(&b);
    let mut expected = vec![2u8, 0, 0, 0, 0, 0, 0, 0, 2, 0, 0, 0, 0, 0, 0, 0];
    expected.push(0b1001);
    assert_eq!(bytes, expected);
}

#[test]
fn encode_packs_least_significant_bit_first() {
    let b = pattern(3, 1, &[(1, 0)]);
    let bytes = encode(&b);
    assert_eq!(bytes.len(), 17);
    assert_eq!(bytes[16], 0b010);
}

#[test]
fn encode_splits_cells_across_bytes() {
    let b = pattern(5, 2, &[(0, 0), (7 % 5, 7 / 5), (9 % 5, 9 / 5)]);
    let bytes = encode(&b);
    assert_eq!(bytes.len(), 18);
    assert_eq!(bytes[16], 0b1000_0001);
    assert_eq!(bytes[17], 0b10);
}

#[test]
fn decode_round_trips_encode() {
    let b = pattern(5, 5, &[(0, 0), (1, 1), (4, 0), (2, 3), (4, 4)]);
    let bytes = encode(&b);
    let back = decode(&bytes).unwrap();
    assert_eq!(back.dims(), b.dims());
    assert_eq!(back.data(), b.data());
}

#[test]
fn decode_round_trips_partial_final_byte() {
    let b = pattern(3, 3, &[(2, 0), (0, 2), (2, 2)]);
    let back = decode(&encode(&b)).unwrap();
    assert_eq!(back.dims(), b.dims());
    assert_eq!(back.data(), b.data());
}

#[test]
fn decode_round_trips_empty_board() {
    let b = pattern(4, 2, &[]);
    let back = decode(&encode(&b)).unwrap();
    assert_eq!(back.dims(), b.dims());
    assert_eq!(back.data(), b.data());
}

#[test]
fn decode_rejects_missing_header() {
    assert!(matches!(decode(&[]), Err(FormatError::Truncated)));
    assert!(matches!(decode(&[1, 0, 0]), Err(FormatError::Truncated)));
    assert!(matches!(decode(&vec![0u8; 15]), Err(FormatError::Truncated)));
}

#[test]
fn decode_rejects_missing_cell_data() {
    let b = pattern(4, 4, &[(0, 0)]);
    let mut bytes = encode(&b);
    bytes.pop();
    assert!(matches!(decode(&bytes), Err(FormatError::Truncated)));
}

#[test]
fn decode_rejects_oversize_dimensions() {
    let bytes = vec![0xffu8; 16];
    assert!(matches!(decode(&bytes), Err(FormatError::Oversize)));
}

#[test]
fn decode_ignores_padding_bits() {
    let b = pattern(1, 1, &[(0, 0)]);
    let mut bytes = encode(&b);
    assert_eq!(bytes[16], 1);
    bytes[16] = 0xff;
    let back = decode(&bytes).unwrap();
    assert_eq!(back.data(), &[Cell::Alive]);
}
