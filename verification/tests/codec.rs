use ethcer::convert::{rip_binary, rip_binary_u32, translate_u32, translate_u8};
use ethcer::ethcer::{etch, etch_bw, etch_instructions, get_pixel, etch_pixel, read, read_instructions};
use ethcer::settings::{Data, OutputMode, Settings};
use ethcer::source::{EmbedSource, RawFrame};
use ethcer::EtchError;

fn to_raw_frames(frames: Vec<EmbedSource>) -> Vec<RawFrame> {
    let mut out = Vec::new();
    for f in frames {
        let w = f.frame_size.width;
        let h = f.frame_size.height;
        out.push(RawFrame::new(f.image, w, h));
    }
    out
}

#[test]
fn bits_round_trip_bytes() {
    let bytes = vec![0u8, 255, 1, 2, 128, 37, 0x5A];
    let bits = rip_binary(bytes.clone());
    assert_eq!(bits.len(), 8 * bytes.len());
    assert_eq!(translate_u8(bits), bytes);
}

#[test]
fn bits_round_trip_words() {
    let words = vec![0u32, u32::MAX, 1, 0x12345678, 0x80000000];
    let bits = rip_binary_u32(words.clone());
    assert_eq!(bits.len(), 32 * words.len());
    assert_eq!(translate_u32(bits), words);
}

#[test]
fn bits_msb_first() {
    let bits = rip_binary(vec![0b1010_0001u8]);
    assert_eq!(bits, vec![true, false, true, false, false, false, false, true]);
}

#[test]
fn translate_drops_short_remainder() {
    let mut bits = rip_binary(vec![0xABu8]);
    bits.push(true);
    bits.push(false);
    assert_eq!(translate_u8(bits), vec![0xABu8]);
}

#[test]
fn block_write_then_read_gives_mean() {
    let mut frame = EmbedSource::new(4, 64, 64);
    etch_pixel(&mut frame, 8, 12, 200, 100, 50);
    let rgb = get_pixel(&frame, 8, 12).unwrap();
    assert_eq!(rgb, (200, 100, 50));
    let outside = get_pixel(&frame, 0, 0).unwrap();
    assert_eq!(outside, (0, 0, 0));
}

#[test]
fn block_read_out_of_bounds_is_none() {
    let frame = EmbedSource::new(4, 64, 64);
    assert!(get_pixel(&frame, 62, 0).is_none());
    assert!(get_pixel(&frame, -1, 0).is_none());
}

#[test]
fn header_round_trip() {
    let settings = Settings::new(4, 1, 10, 64, 64);
    let payload: Vec<bool> = rip_binary(b"hello world".to_vec());
    let data = Data::from_binary(payload);
    let frame = etch_instructions(&settings, &data);
    let (mode, final_frame, final_count, parsed, marker_ok) = read_instructions(&frame, 1).unwrap();
    assert!(matches!(mode, OutputMode::Binary));
    assert_eq!(final_frame, 0);
    assert_eq!(final_count, 88);
    // at 64x64 only 144 of the 160 header bits fit, so the marker is absent
    assert!(marker_ok);
    assert_eq!(parsed.size, 4);
    assert_eq!(parsed.width, 64);
    assert_eq!(parsed.height, 64);
}

#[test]
fn header_round_trip_color() {
    let settings = Settings::new(2, 3, 10, 64, 64);
    // 64x64 at block 2 holds 1024 blocks = 3072 bytes per frame
    let data = Data::from_color(vec![7u8; 4000]);
    let frame = etch_instructions(&settings, &data);
    let (mode, final_frame, final_count, parsed, _marker_ok) = read_instructions(&frame, 1).unwrap();
    assert!(matches!(mode, OutputMode::Color));
    assert_eq!(final_frame, 1);
    assert_eq!(final_count, 4000 - 3072);
    assert_eq!(parsed.size, 2);
}

#[test]
fn hello_world_binary_round_trip() {
    let settings = Settings::new(4, 1, 10, 64, 64);
    let bytes = b"hello world".to_vec();
    let data = Data::from_binary(rip_binary(bytes.clone()));
    let frames = etch(data, settings).unwrap();
    assert_eq!(frames.len(), 2);
    let out = read(to_raw_frames(frames)).unwrap();
    assert_eq!(out, bytes);
}

#[test]
fn color_round_trip() {
    let settings = Settings::new(4, 2, 10, 64, 64);
    let bytes: Vec<u8> = (0..=255u8).cycle().take(1000).collect();
    let data = Data::from_color(bytes.clone());
    let frames = etch(data, settings).unwrap();
    let out = read(to_raw_frames(frames)).unwrap();
    assert_eq!(out, bytes);
}

#[test]
fn color_round_trip_partial_unit() {
    // a payload that is not a multiple of three bytes pads its last block
    let settings = Settings::new(8, 1, 10, 64, 64);
    let bytes: Vec<u8> = vec![9, 8, 7, 6, 5];
    let data = Data::from_color(bytes.clone());
    let frames = etch(data, settings).unwrap();
    let out = read(to_raw_frames(frames)).unwrap();
    assert_eq!(out, bytes);
}

#[test]
fn multi_frame_binary_round_trip() {
    // 64x64 at block 8 holds 64 bits = 8 bytes per frame
    let settings = Settings::new(8, 3, 10, 64, 64);
    let bytes: Vec<u8> = (0..100u8).collect();
    let data = Data::from_binary(rip_binary(bytes.clone()));
    let frames = etch(data, settings).unwrap();
    assert_eq!(frames.len(), 1 + 13);
    let out = read(to_raw_frames(frames)).unwrap();
    assert_eq!(out, bytes);
}

#[test]
fn thread_count_does_not_change_decoded_output() {
    let bytes: Vec<u8> = (0..77u8).map(|b| b.wrapping_mul(13)).collect();
    let one = Settings::new(8, 1, 10, 64, 64);
    let eight = Settings::new(8, 8, 10, 64, 64);
    let frames_one = etch(Data::from_binary(rip_binary(bytes.clone())), one).unwrap();
    let frames_eight = etch(Data::from_binary(rip_binary(bytes.clone())), eight).unwrap();
    let out_one = read(to_raw_frames(frames_one)).unwrap();
    let out_eight = read(to_raw_frames(frames_eight)).unwrap();
    assert_eq!(out_one, bytes);
    assert_eq!(out_one, out_eight);
}

#[test]
fn exact_capacity_payload_keeps_full_final_count() {
    // 64x64 at block 8 holds exactly 64 bits = 8 bytes per frame
    let settings = Settings::new(8, 1, 10, 64, 64);
    let bytes: Vec<u8> = vec![0xA5; 8];
    let frames = etch(Data::from_binary(rip_binary(bytes.clone())), settings).unwrap();
    assert_eq!(frames.len(), 2);
    let mut raw = to_raw_frames(frames);
    let header_frame = raw.remove(0);
    let instr = EmbedSource::from(header_frame, 5, true).unwrap();
    let (_, final_frame, final_count, _, _) = read_instructions(&instr, 1).unwrap();
    assert_eq!(final_frame, 0);
    assert_eq!(final_count, 64);
    let again = etch(Data::from_binary(rip_binary(bytes.clone())), settings).unwrap();
    assert_eq!(read(to_raw_frames(again)).unwrap(), bytes);
}

#[test]
fn empty_payload_is_rejected() {
    let settings = Settings::new(4, 1, 10, 64, 64);
    let r = etch(Data::from_binary(Vec::new()), settings);
    assert_eq!(r.err().unwrap(), EtchError::EmptyInput);
    let r = etch(Data::from_color(Vec::new()), settings);
    assert_eq!(r.err().unwrap(), EtchError::EmptyInput);
}

#[test]
fn missing_frames_fail_container_read() {
    let settings = Settings::new(8, 1, 10, 64, 64);
    let bytes: Vec<u8> = (0..32u8).collect();
    let frames = etch(Data::from_binary(rip_binary(bytes)), settings).unwrap();
    let mut raw = to_raw_frames(frames);
    raw.truncate(2);
    assert_eq!(read(raw).err().unwrap(), EtchError::ContainerReadFailed);
}

#[test]
fn empty_video_fails_container_read() {
    assert_eq!(read(Vec::new()).err().unwrap(), EtchError::ContainerReadFailed);
}

#[test]
fn bad_frame_buffer_fails_dimension_check() {
    let raw = vec![RawFrame::new(vec![0u8; 10], 64, 64)];
    assert_eq!(read(raw).err().unwrap(), EtchError::DimensionMismatch);
}

#[test]
fn mismatched_data_frame_fails_dimension_check() {
    let settings = Settings::new(4, 1, 10, 64, 64);
    let bytes = b"abc".to_vec();
    let frames = etch(Data::from_binary(rip_binary(bytes)), settings).unwrap();
    let mut raw = to_raw_frames(frames);
    // replace the data frame with one whose dimensions the block size cannot divide
    let _ = raw.pop();
    raw.push(RawFrame::new(vec![0u8; 3 * 63 * 63], 63, 63));
    assert_eq!(read(raw).err().unwrap(), EtchError::DimensionMismatch);
}

#[test]
fn data_constructors_tag_modes() {
    let d = Data::new_out_mode(OutputMode::Color);
    assert!(d.bytes.is_empty() && d.binary.is_empty());
    assert!(matches!(d.out_mode, OutputMode::Color));
    let d = Data::from_binary(vec![true, false]);
    assert!(matches!(d.out_mode, OutputMode::Binary));
    assert_eq!(d.binary, vec![true, false]);
    let d = Data::from_color(vec![1, 2, 3]);
    assert!(matches!(d.out_mode, OutputMode::Color));
    assert_eq!(d.bytes, vec![1, 2, 3]);
}

#[test]
fn embed_output_mode_maps_to_output_mode() {
    let m: OutputMode = ethcer::args::EmbedOutputMode::Colored.into();
    assert!(matches!(m, OutputMode::Color));
    let m: OutputMode = ethcer::args::EmbedOutputMode::Binary.into();
    assert!(matches!(m, OutputMode::Binary));
}

#[test]
fn end_marker_present_and_checked() {
    // 80x80 holds 256 header blocks, so all 160 header bits fit
    let settings = ethcer::settings::Settings::new(4, 1, 10, 80, 80);
    let data = Data::from_binary(rip_binary(vec![0xF0u8; 3]));
    let frame = etch_instructions(&settings, &data);
    let (_, _, _, _, marker_ok) = read_instructions(&frame, 1).unwrap();
    assert!(marker_ok);
}

#[test]
fn end_marker_mismatch_is_reported_not_fatal() {
    // hand-etch a header whose fifth word is not the end marker
    let mut frame = EmbedSource::new(5, 80, 80);
    let words = rip_binary_u32(vec![0, 0, 24, 4, 7]);
    let mut index = 0usize;
    let _ = etch_bw(&mut frame, &words, &mut index);
    let (mode, final_frame, final_count, parsed, marker_ok) =
        read_instructions(&frame, 1).unwrap();
    assert!(!marker_ok);
    assert!(matches!(mode, OutputMode::Binary));
    assert_eq!(final_frame, 0);
    assert_eq!(final_count, 24);
    assert_eq!(parsed.size, 4);
}

#[test]
fn thread_count_does_not_change_decoded_output_color() {
    let bytes: Vec<u8> = (0..200u8).collect();
    let one = Settings::new(4, 1, 10, 64, 64);
    let eight = Settings::new(4, 8, 10, 64, 64);
    let frames_one = etch(Data::from_color(bytes.clone()), one).unwrap();
    let frames_eight = etch(Data::from_color(bytes.clone()), eight).unwrap();
    let out_one = read(to_raw_frames(frames_one)).unwrap();
    let out_eight = read(to_raw_frames(frames_eight)).unwrap();
    assert_eq!(out_one, bytes);
    assert_eq!(out_one, out_eight);
}
