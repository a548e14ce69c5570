use scripture_search::packing::{pack_indices, pack_indices_arr, pack_lengths, unpack_indices,
    unpack_lengths, Packed256};

fn test_round_trip(lenghts: Vec<u8>) {
    assert_eq!(lenghts, unpack_lengths(pack_lengths(&lenghts)));
}

fn test_round_trip_indices(indices: Vec<u16>) {
    assert_eq!(indices, unpack_indices(pack_indices(&indices)));
}

#[test]
fn packs_and_unpacks_highlight_lengths_less_than_32_up_to_22_elements() {
    test_round_trip(vec![]);
    test_round_trip((1..22).collect());
    test_round_trip((10..31).collect());
}

#[test]
fn packs_and_unpacks_highlight_indices_less_than_2048_up_to_22_elements() {
    test_round_trip_indices(vec![]);
    test_round_trip_indices(vec![1234, 2046, 0, 1, 2, 3, 4, 5, 88]);
    test_round_trip_indices((0..21).collect());
    test_round_trip_indices((2025..2046).collect());
}

#[test]
fn packing_empty_lists_gives_zero() {
    let p = pack_indices(&vec![]);
    assert_eq!(p, Packed256 { hi: 0, lo: 0 });
    assert_eq!(pack_lengths(&vec![]), 0u128);
}

#[test]
fn packing_biases_offsets_by_one() {
    // A single zero offset must be distinct from the empty list.
    let p = pack_indices(&vec![0]);
    assert_eq!(p, Packed256 { hi: 0, lo: 1 });
    assert_eq!(unpack_indices(p), vec![0u16]);
}

#[test]
fn packing_lengths_uses_five_bit_chunks() {
    // [3, 1] packs to 3 * 32 + 1.
    assert_eq!(pack_lengths(&vec![3, 1]), 97u128);
    assert_eq!(unpack_lengths(97u128), vec![3u8, 1u8]);
}

#[test]
fn pack_indices_arr_gives_little_endian_limbs() {
    // One offset of zero packs to the biased digit 1 in the lowest limb.
    assert_eq!(pack_indices_arr(&vec![0]), [1u64, 0, 0, 0]);
    // Twelve max offsets reach above the first 64-bit limb.
    let offsets: Vec<u16> = vec![2046; 12];
    let arr = pack_indices_arr(&offsets);
    let p = pack_indices(&offsets);
    assert_eq!(arr[0] as u128 | ((arr[1] as u128) << 64), p.lo);
    assert_eq!(arr[2] as u128 | ((arr[3] as u128) << 64), p.hi);
}

#[test]
fn twenty_two_max_offsets_round_trip() {
    // The hard capacity ceiling: 22 entries of 11 bits each.
    let offsets: Vec<u16> = vec![2046; 22];
    assert_eq!(unpack_indices(pack_indices(&offsets)), offsets);
    let lengths: Vec<u8> = vec![31; 22];
    assert_eq!(unpack_lengths(pack_lengths(&lengths)), lengths);
}
