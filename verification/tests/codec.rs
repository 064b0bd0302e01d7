use seagul::codec::{Decoder, Encoder};
use seagul::config::{Channel, Configuration};
use seagul::error::CodecError;
use seagul::grid::PixelGrid;

fn grid_filled(width: usize, height: usize, value: u8) -> PixelGrid {
    PixelGrid::new(width, height, vec![value; width * height * 3]).unwrap()
}

fn config(channel: Channel, bits: u8, offset: usize, step: usize) -> Configuration {
    Configuration::new(channel, bits, offset, step).unwrap()
}

#[test]
fn round_trip_blue_one_bit() {
    let grid = grid_filled(8, 4, 0xFF);
    let payload = b"AB".to_vec();
    let mut enc = Encoder::new(grid, config(Channel::Blue, 1, 0, 0));
    enc.encode(&payload).unwrap();
    let dec = Decoder::new(enc.grid, config(Channel::Blue, 1, 0, 0));
    let out = dec.decode().unwrap();
    assert_eq!(&out[..2], b"AB");
}

#[test]
fn round_trip_all_channels_two_bits() {
    let grid = grid_filled(8, 4, 0x3C);
    let payload = b"steganography".to_vec();
    let mut enc = Encoder::new(grid, config(Channel::All, 2, 0, 0));
    enc.encode(&payload).unwrap();
    let dec = Decoder::new(enc.grid, config(Channel::All, 2, 0, 0));
    let out = dec.decode().unwrap();
    assert_eq!(&out[..payload.len()], &payload[..]);
}

#[test]
fn round_trip_with_offset_and_step() {
    let grid = grid_filled(16, 8, 0xA0);
    let payload = b"hi".to_vec();
    let cfg = config(Channel::Green, 2, 5, 3);
    let mut enc = Encoder::new(grid, cfg);
    enc.encode(&payload).unwrap();
    let dec = Decoder::new(enc.grid, cfg);
    let out = dec.decode().unwrap();
    assert_eq!(&out[..2], b"hi");
}

#[test]
fn round_trip_eight_bits_replaces_whole_bytes() {
    let grid = grid_filled(4, 2, 0x55);
    let payload = vec![0x00, 0xFF, 0x7E];
    let cfg = config(Channel::Red, 8, 0, 0);
    let mut enc = Encoder::new(grid, cfg);
    enc.encode(&payload).unwrap();
    // with a bit depth of eight the red channel bytes hold the payload as-is
    assert_eq!(enc.grid.data[0], 0x00);
    assert_eq!(enc.grid.data[3], 0xFF);
    assert_eq!(enc.grid.data[6], 0x7E);
    let dec = Decoder::new(enc.grid, cfg);
    let out = dec.decode().unwrap();
    assert_eq!(&out[..3], &payload[..]);
}

#[test]
fn two_bit_groups_land_most_significant_first() {
    let grid = grid_filled(4, 1, 0x00);
    let payload = vec![0b1011_0100];
    let cfg = config(Channel::Blue, 2, 0, 0);
    let mut enc = Encoder::new(grid, cfg);
    enc.encode(&payload).unwrap();
    // groups of the byte 10 11 01 00, one per blue byte
    assert_eq!(enc.grid.data[2], 2);
    assert_eq!(enc.grid.data[5], 3);
    assert_eq!(enc.grid.data[8], 1);
    assert_eq!(enc.grid.data[11], 0);
}

#[test]
fn partial_final_group_is_zero_padded() {
    let grid = grid_filled(3, 1, 0x00);
    let payload = vec![0xFF];
    let cfg = config(Channel::Blue, 3, 0, 0);
    let mut enc = Encoder::new(grid, cfg);
    enc.encode(&payload).unwrap();
    // eight one-bits split into groups of three: 111, 111, 11 then a zero pad
    assert_eq!(enc.grid.data[2], 0b111);
    assert_eq!(enc.grid.data[5], 0b111);
    assert_eq!(enc.grid.data[8], 0b110);
    let dec = Decoder::new(enc.grid, cfg);
    let out = dec.decode().unwrap();
    assert_eq!(out[0], 0xFF);
}

#[test]
fn capacity_exact_fit_succeeds() {
    // eight pixels, blue channel, one bit each: exactly one byte of capacity
    let grid = grid_filled(8, 1, 0xFF);
    let cfg = config(Channel::Blue, 1, 0, 0);
    let mut enc = Encoder::new(grid, cfg);
    let n = enc.encode(&vec![0xA5]).unwrap();
    assert_eq!(n, 8);
    let blues: Vec<u8> = (0..8).map(|p| enc.grid.data[3 * p + 2]).collect();
    assert_eq!(blues, vec![0xFF, 0xFE, 0xFF, 0xFE, 0xFE, 0xFF, 0xFE, 0xFF]);
}

#[test]
fn capacity_one_group_beyond_fails() {
    let grid = grid_filled(8, 1, 0xFF);
    let cfg = config(Channel::Blue, 1, 0, 0);
    let mut enc = Encoder::new(grid, cfg);
    let err = enc.encode(&vec![0xA5, 0x01]).unwrap_err();
    assert_eq!(err, CodecError::CapacityExceeded { bits_written: 8 });
    // every available position was written with the leading payload bits,
    // and nothing else moved
    let blues: Vec<u8> = (0..8).map(|p| enc.grid.data[3 * p + 2]).collect();
    assert_eq!(blues, vec![0xFF, 0xFE, 0xFF, 0xFE, 0xFE, 0xFF, 0xFE, 0xFF]);
    for p in 0..8 {
        assert_eq!(enc.grid.data[3 * p], 0xFF);
        assert_eq!(enc.grid.data[3 * p + 1], 0xFF);
    }
    assert_eq!(enc.pixels_changed, 8);
}

#[test]
fn non_interference_outside_the_path() {
    let grid = grid_filled(8, 3, 0xFF);
    let before = grid.data.clone();
    let cfg = config(Channel::Blue, 1, 3, 1);
    let mut enc = Encoder::new(grid, cfg);
    enc.encode(&vec![0b1010_1010]).unwrap();
    // the eight payload bits land on every second pixel from pixel 3 on;
    // only those pixels' blue bytes may differ, and only in the low bit
    let visited: Vec<usize> = vec![3, 5, 7, 9, 11, 13, 15, 17];
    for p in 0..24 {
        let r = enc.grid.data[3 * p];
        let g = enc.grid.data[3 * p + 1];
        let b = enc.grid.data[3 * p + 2];
        assert_eq!(r, before[3 * p]);
        assert_eq!(g, before[3 * p + 1]);
        if visited.contains(&p) {
            assert_eq!(b & 0xFE, before[3 * p + 2] & 0xFE);
        } else {
            assert_eq!(b, before[3 * p + 2]);
        }
    }
}

#[test]
fn marker_stops_decoding_and_is_stripped() {
    // 64 pixels, one blue bit each: capacity for exactly eight bytes
    let grid = grid_filled(8, 8, 0x11);
    let cfg = config(Channel::Blue, 1, 0, 0);
    let mut enc = Encoder::new(grid, cfg);
    enc.encode(&b"HELLOEND".to_vec()).unwrap();
    let dec = Decoder::new(enc.grid, cfg);
    let out = dec.decode_until(&b"END".to_vec()).unwrap();
    assert_eq!(&out[..], b"HELLO");
}

#[test]
fn missing_marker_degrades_to_full_content() {
    let grid = grid_filled(8, 8, 0x11);
    let cfg = config(Channel::Blue, 1, 0, 0);
    let mut enc = Encoder::new(grid, cfg);
    enc.encode(&b"HELLOEND".to_vec()).unwrap();
    let dec = Decoder::new(enc.grid, cfg);
    let all = dec.decode().unwrap();
    let out = dec.decode_until(&b"XYZ".to_vec()).unwrap();
    assert_eq!(out, all);
    assert_eq!(&all[..], b"HELLOEND");
}

#[test]
fn pixels_changed_counts_written_pixels_even_if_bits_match() {
    let cfg = config(Channel::Blue, 1, 0, 0);
    let grid = grid_filled(8, 1, 0xFF);
    let mut enc = Encoder::new(grid, cfg);
    let n = enc.encode(&vec![0xA5]).unwrap();
    assert_eq!(n, 8);
    // encoding the same payload over the already-written grid flips no bit,
    // yet the same pixels are written and counted again
    let mut enc2 = Encoder::new(enc.grid, cfg);
    let n2 = enc2.encode(&vec![0xA5]).unwrap();
    assert_eq!(n2, 8);
    assert_eq!(enc2.pixels_changed, 8);
}

#[test]
fn pixels_changed_with_all_channels() {
    // eight bits over three channels per pixel touch ceil(8 / 3) = 3 pixels
    let grid = grid_filled(4, 1, 0x00);
    let cfg = config(Channel::All, 1, 0, 0);
    let mut enc = Encoder::new(grid, cfg);
    let n = enc.encode(&vec![0x0F]).unwrap();
    assert_eq!(n, 3);
}

#[test]
fn empty_payload_changes_nothing() {
    let grid = grid_filled(4, 4, 0xAB);
    let before = grid.data.clone();
    let cfg = config(Channel::Blue, 4, 0, 0);
    let mut enc = Encoder::new(grid, cfg);
    let n = enc.encode(&vec![]).unwrap();
    assert_eq!(n, 0);
    assert_eq!(enc.pixels_changed, 0);
    assert_eq!(enc.grid.data, before);
}

#[test]
fn decode_reads_low_bits_without_mutating() {
    let data: Vec<u8> = vec![
        0x00, 0x00, 0xFF, // pixel 0: blue low bit 1
        0x00, 0x00, 0x00, // pixel 1: blue low bit 0
        0x00, 0x00, 0x01, // pixel 2
        0x00, 0x00, 0x00, // pixel 3
        0x00, 0x00, 0x00, // pixel 4
        0x00, 0x00, 0x01, // pixel 5
        0x00, 0x00, 0x00, // pixel 6
        0x00, 0x00, 0x01, // pixel 7
    ];
    let grid = PixelGrid::new(8, 1, data.clone()).unwrap();
    assert_eq!(grid.pixel_count(), 8);
    assert_eq!(grid.channel_byte(0, 2), 0xFF);
    assert_eq!(grid.channel_byte(1, 2), 0x00);
    let cfg = config(Channel::Blue, 1, 0, 0);
    let dec = Decoder::new(grid, cfg);
    let out = dec.decode().unwrap();
    assert_eq!(out, vec![0b1010_0101]);
    assert_eq!(dec.grid.data, data);
}

#[test]
fn encode_into_empty_grid_reports_zero_bits_written() {
    let grid = PixelGrid::new(0, 0, vec![]).unwrap();
    let cfg = config(Channel::All, 8, 0, 0);
    let mut enc = Encoder::new(grid, cfg);
    let err = enc.encode(&vec![0x01]).unwrap_err();
    assert_eq!(err, CodecError::CapacityExceeded { bits_written: 0 });
    assert_eq!(enc.pixels_changed, 0);
}

#[test]
fn decode_empty_grid_yields_nothing() {
    let grid = PixelGrid::new(0, 0, vec![]).unwrap();
    let cfg = config(Channel::Blue, 1, 0, 0);
    let dec = Decoder::new(grid, cfg);
    assert_eq!(dec.decode().unwrap(), Vec::<u8>::new());
}

#[test]
fn grid_rejects_mismatched_buffer() {
    assert!(PixelGrid::new(2, 2, vec![0; 11]).is_none());
    assert!(PixelGrid::new(2, 2, vec![0; 12]).is_some());
}
