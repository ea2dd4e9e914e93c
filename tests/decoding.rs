use okay::byte_stream::StreamError;
use okay::decode::{DecodeAllError, HeaderDecodeError};
use okay::header::{Channels, ColSpace};
use okay::{Decoder, Pixel};

fn header_bytes(width: u32, height: u32, channels: u8, col_space: u8) -> Vec<u8> {
    let mut v = b"qoif".to_vec();
    v.extend_from_slice(&width.to_be_bytes());
    v.extend_from_slice(&height.to_be_bytes());
    v.push(channels);
    v.push(col_space);
    v
}

fn image(width: u32, height: u32, chunks: &[u8]) -> Vec<u8> {
    let mut v = header_bytes(width, height, 4, 0);
    v.extend_from_slice(chunks);
    v
}

fn decode_all(bytes: &[u8]) -> Vec<Pixel> {
    let (_, pixels) = Decoder::new_from_slice(bytes).decode_header().unwrap();
    pixels.decode_pixels_vec().unwrap()
}

fn px(r: u8, g: u8, b: u8, a: u8) -> Pixel {
    Pixel::new(r, g, b, a)
}

#[test]
fn end_to_end_two_pixels() {
    let bytes = [
        b'q', b'o', b'i', b'f', 0, 0, 0, 2, 0, 0, 0, 1, 4, 0, 0xFF, 0x10, 0x20, 0x30, 0xFF, 0xFE,
        0x10, 0x20, 0x30,
    ];
    let (header, pixels) = Decoder::new_from_slice(&bytes).decode_header().unwrap();
    assert_eq!(header.width(), 2);
    assert_eq!(header.height(), 1);
    assert_eq!(header.dimensions(), (2, 1));
    assert_eq!(header.channels(), Channels::Rgba);
    assert_eq!(header.col_space(), ColSpace::Srgb);
    assert_eq!(pixels.remaining_pixels(), 2);
    let out = pixels.decode_pixels_vec().unwrap();
    assert_eq!(out, vec![px(0x10, 0x20, 0x30, 0xFF), px(0x10, 0x20, 0x30, 0xFF)]);
}

#[test]
fn truncated_stream_fails_with_eof() {
    let bytes = header_bytes(1, 1, 4, 0);
    let (_, mut pixels) = Decoder::new_from_slice(&bytes).decode_header().unwrap();
    assert_eq!(pixels.remaining_pixels(), 1);
    let mut buf = [Pixel::zero(); 1];
    let r = pixels.decode_pixels_into(&mut buf);
    assert!(matches!(r, Err(StreamError::UnexpectedEof)));
}

#[test]
fn truncated_stream_exact_allocation_fails_with_eof() {
    let bytes = image(2, 1, &[0xFF, 1, 2, 3, 4, 0xFE, 1]);
    let (_, pixels) = Decoder::new_from_slice(&bytes).decode_header().unwrap();
    assert!(matches!(pixels.decode_pixels_vec(), Err(DecodeAllError::UnexpectedEof)));
}

#[test]
fn oversized_image_is_too_large() {
    let bytes = header_bytes(0xFFFF_FFFF, 0xFFFF_FFFF, 4, 0);
    let (_, pixels) = Decoder::new_from_slice(&bytes).decode_header().unwrap();
    assert_eq!(pixels.remaining_pixels(), 0xFFFF_FFFFu64 * 0xFFFF_FFFFu64);
    assert!(matches!(pixels.decode_pixels_vec(), Err(DecodeAllError::TooLarge)));
}

#[test]
fn oversized_image_bytes_are_too_large() {
    let bytes = header_bytes(0xFFFF_FFFF, 0xFFFF_FFFF, 4, 0);
    let (_, pixels) = Decoder::new_from_slice(&bytes).decode_header().unwrap();
    assert!(matches!(pixels.decode_bytes_vec(Pixel::rgba), Err(DecodeAllError::TooLarge)));
}

#[test]
fn valid_headers_report_fields() {
    for (c, ch) in [(3u8, Channels::Rgb), (4u8, Channels::Rgba)] {
        for (s, cs) in [(0u8, ColSpace::Srgb), (1u8, ColSpace::Linear)] {
            let bytes = header_bytes(0x0102_0304, 0xA0B0_C0D0, c, s);
            let (header, pixels) = Decoder::new_from_slice(&bytes).decode_header().unwrap();
            assert_eq!(header.width(), 0x0102_0304);
            assert_eq!(header.height(), 0xA0B0_C0D0);
            assert_eq!(header.channels(), ch);
            assert_eq!(header.col_space(), cs);
            assert_eq!(pixels.remaining_pixels(), 0x0102_0304u64 * 0xA0B0_C0D0u64);
        }
    }
}

#[test]
fn bad_magic_is_reported() {
    let mut bytes = header_bytes(1, 1, 4, 0);
    bytes[3] = b'g';
    match Decoder::new_from_slice(&bytes).decode_header() {
        Err(HeaderDecodeError::Magic(e)) => assert_eq!(e.bad_value(), *b"qoig"),
        _ => panic!("expected a magic error"),
    }
}

#[test]
fn bad_channels_are_reported() {
    let bytes = header_bytes(1, 1, 5, 0);
    match Decoder::new_from_slice(&bytes).decode_header() {
        Err(HeaderDecodeError::Channels(e)) => assert_eq!(e.bad_value(), 5),
        _ => panic!("expected a channels error"),
    }
}

#[test]
fn bad_col_space_is_reported() {
    let bytes = header_bytes(1, 1, 3, 2);
    match Decoder::new_from_slice(&bytes).decode_header() {
        Err(HeaderDecodeError::ColSpace(e)) => assert_eq!(e.bad_value(), 2),
        _ => panic!("expected a colour-space error"),
    }
}

#[test]
fn truncated_header_is_eof() {
    let bytes = header_bytes(1, 1, 4, 0);
    for len in 0..bytes.len() {
        let r = Decoder::new_from_slice(&bytes[..len]).decode_header();
        assert!(matches!(r, Err(HeaderDecodeError::UnexpectedEof)), "length {}", len);
    }
}

#[test]
fn run_repeats_previous_pixel() {
    let a = px(1, 2, 3, 4);
    for k in 0u8..=61 {
        let n = k as u32 + 2;
        let bytes = image(n, 1, &[0xFF, 1, 2, 3, 4, 0xC0 | k]);
        let out = decode_all(&bytes);
        assert_eq!(out.len(), n as usize);
        assert!(out.iter().all(|p| *p == a), "run {}", k);
    }
}

#[test]
fn run_at_start_repeats_black() {
    let out = decode_all(&image(3, 1, &[0xC2]));
    assert_eq!(out, vec![px(0, 0, 0, 255); 3]);
}

#[test]
fn zero_diff_keeps_previous() {
    let a = px(10, 20, 30, 40);
    let out = decode_all(&image(2, 1, &[0xFF, 10, 20, 30, 40, 0x6A]));
    assert_eq!(out, vec![a, a]);
}

#[test]
fn diff_applies_deltas() {
    let out = decode_all(&image(2, 1, &[0xFF, 10, 20, 30, 40, 0x71]));
    assert_eq!(out[1], px(11, 18, 29, 40));
}

#[test]
fn diff_wraps_around() {
    let out = decode_all(&image(2, 1, &[0xFF, 0, 255, 0, 7, 0x4E]));
    assert_eq!(out[1], px(254, 0, 0, 7));
}

#[test]
fn luma_applies_deltas() {
    let out = decode_all(&image(2, 1, &[0xFF, 100, 100, 100, 255, 0xA5, 0x5A]));
    assert_eq!(out[1], px(102, 105, 107, 255));
}

#[test]
fn luma_wraps_around() {
    // green moves by -32, red and blue by -40 and -25
    let out = decode_all(&image(2, 1, &[0xFF, 5, 5, 5, 1, 0x80, 0x0F]));
    assert_eq!(out[1], px(221, 229, 236, 1));
}

#[test]
fn rgb_keeps_alpha() {
    let out = decode_all(&image(2, 1, &[0xFF, 1, 2, 3, 77, 0xFE, 9, 8, 7]));
    assert_eq!(out[1], px(9, 8, 7, 77));
}

#[test]
fn cache_round_trip() {
    let a = px(1, 2, 3, 4);
    let b = px(9, 9, 9, 9);
    // hash(a) = (3 + 10 + 21 + 44) mod 64 = 14; hash(b) = 42
    let out = decode_all(&image(3, 1, &[0xFF, 1, 2, 3, 4, 0xFF, 9, 9, 9, 9, 0x0E]));
    assert_eq!(out, vec![a, b, a]);
}

#[test]
fn cache_lookup_is_lossy() {
    // c = (14, 0, 0, 0) hashes to 42 too and overwrites b's slot
    let out = decode_all(&image(3, 1, &[0xFF, 9, 9, 9, 9, 0xFF, 14, 0, 0, 0, 0x2A]));
    assert_eq!(out[2], px(14, 0, 0, 0));
}

#[test]
fn empty_cache_holds_zero() {
    let out = decode_all(&image(1, 1, &[0x05]));
    assert_eq!(out, vec![Pixel::zero()]);
}

#[test]
fn index_chunk_does_not_insert() {
    // the index chunk yields zero from slot 5, which must not overwrite slot 0
    let out = decode_all(&image(3, 1, &[0xFF, 64, 0, 0, 0, 0x05, 0x00]));
    assert_eq!(out, vec![px(64, 0, 0, 0), Pixel::zero(), px(64, 0, 0, 0)]);
}

fn five_pixel_image() -> Vec<u8> {
    image(5, 1, &[0xFF, 1, 2, 3, 4, 0xC2, 0x71])
}

#[test]
fn bounded_fills_concatenate_to_exact_allocation() {
    let bytes = five_pixel_image();
    let whole = decode_all(&bytes);
    assert_eq!(whole, vec![px(1, 2, 3, 4), px(1, 2, 3, 4), px(1, 2, 3, 4), px(1, 2, 3, 4), px(2, 0, 2, 4)]);
    let (_, mut pixels) = Decoder::new_from_slice(&bytes).decode_header().unwrap();
    let mut joined = Vec::new();
    loop {
        let mut buf = [Pixel::zero(); 2];
        let (n, exhausted) = pixels.decode_pixels_into(&mut buf).unwrap();
        joined.extend_from_slice(&buf[..n]);
        if exhausted {
            break;
        }
    }
    assert_eq!(joined, whole);
}

#[test]
fn remaining_count_tracks_fills() {
    let bytes = five_pixel_image();
    let (_, mut pixels) = Decoder::new_from_slice(&bytes).decode_header().unwrap();
    let mut buf = [Pixel::zero(); 2];
    assert_eq!(pixels.remaining_pixels(), 5);
    assert_eq!(pixels.decode_pixels_into(&mut buf).unwrap(), (2, false));
    assert_eq!(pixels.remaining_pixels(), 3);
    assert_eq!(pixels.decode_pixels_into(&mut buf).unwrap(), (2, false));
    assert_eq!(pixels.remaining_pixels(), 1);
    assert_eq!(pixels.decode_pixels_into(&mut buf).unwrap(), (1, true));
    assert_eq!(pixels.remaining_pixels(), 0);
    assert_eq!(pixels.decode_pixels_into(&mut buf).unwrap(), (0, true));
}

#[test]
fn pixel_fill_leaves_rest_of_buffer() {
    let bytes = image(1, 1, &[0xFF, 1, 2, 3, 4]);
    let (_, mut pixels) = Decoder::new_from_slice(&bytes).decode_header().unwrap();
    let mut buf = [px(7, 7, 7, 7); 3];
    assert_eq!(pixels.decode_pixels_into(&mut buf).unwrap(), (1, true));
    assert_eq!(buf, [px(1, 2, 3, 4), px(7, 7, 7, 7), px(7, 7, 7, 7)]);
}

#[test]
fn bytes_fill_rgba() {
    let bytes = image(2, 1, &[0xFF, 1, 2, 3, 4, 0xFE, 5, 6, 7]);
    let (_, mut pixels) = Decoder::new_from_slice(&bytes).decode_header().unwrap();
    let mut buf = [0u8; 8];
    assert_eq!(pixels.decode_bytes_into(&mut buf, Pixel::rgba).unwrap(), (8, true));
    assert_eq!(buf, [1, 2, 3, 4, 5, 6, 7, 4]);
}

#[test]
fn bytes_fill_rgb_partial() {
    let bytes = image(2, 1, &[0xFF, 1, 2, 3, 4, 0xFE, 5, 6, 7]);
    let (_, mut pixels) = Decoder::new_from_slice(&bytes).decode_header().unwrap();
    let mut buf = [9u8; 5];
    assert_eq!(pixels.decode_bytes_into(&mut buf, Pixel::rgb).unwrap(), (3, false));
    assert_eq!(buf, [1, 2, 3, 9, 9]);
    assert_eq!(pixels.remaining_pixels(), 1);
    let mut rest = [9u8; 4];
    assert_eq!(pixels.decode_bytes_into(&mut rest, Pixel::rgb).unwrap(), (3, true));
    assert_eq!(rest, [5, 6, 7, 9]);
}

#[test]
fn bytes_exact_allocation_argb() {
    let bytes = image(2, 1, &[0xFF, 1, 2, 3, 4, 0xFE, 5, 6, 7]);
    let (_, pixels) = Decoder::new_from_slice(&bytes).decode_header().unwrap();
    assert_eq!(pixels.decode_bytes_vec(Pixel::argb).unwrap(), vec![4, 1, 2, 3, 4, 5, 6, 7]);
}

#[test]
fn empty_image_decodes_to_nothing() {
    let bytes = header_bytes(0, 7, 3, 1);
    let (_, pixels) = Decoder::new_from_slice(&bytes).decode_header().unwrap();
    assert_eq!(pixels.decode_pixels_vec().unwrap(), Vec::<Pixel>::new());
}

#[test]
fn pull_interface_yields_pixels_then_none() {
    let bytes = image(3, 1, &[0xFF, 1, 2, 3, 4, 0xC1]);
    let (_, mut pixels) = Decoder::new_from_slice(&bytes).decode_header().unwrap();
    assert_eq!(pixels.size_hint(), (1, Some(3)));
    for _ in 0..3 {
        assert!(matches!(pixels.next_pixel(), Some(Ok(p)) if p == px(1, 2, 3, 4)));
    }
    assert!(pixels.next_pixel().is_none());
    assert_eq!(pixels.size_hint(), (0, Some(0)));
}

#[test]
fn pull_interface_stops_after_error() {
    let bytes = header_bytes(2, 1, 4, 0);
    let (_, mut pixels) = Decoder::new_from_slice(&bytes).decode_header().unwrap();
    assert!(matches!(pixels.next_pixel(), Some(Err(StreamError::UnexpectedEof))));
    assert!(pixels.next_pixel().is_none());
    assert_eq!(pixels.size_hint(), (0, Some(0)));
    assert_eq!(pixels.remaining_pixels(), 2);
}

#[test]
fn iterator_source_decodes_like_slice() {
    let bytes = five_pixel_image();
    let (header, pixels) = Decoder::new_from_iter(bytes.clone().into_iter()).decode_header().unwrap();
    assert_eq!(header.width(), 5);
    assert_eq!(pixels.decode_pixels_vec().unwrap(), decode_all(&bytes));
}

#[test]
fn iterator_source_reports_io_error() {
    let mut items: Vec<Result<u8, String>> = header_bytes(1, 1, 4, 0).into_iter().map(Ok).collect();
    items.push(Ok(0xFF));
    items.push(Err("boom".to_string()));
    let (_, mut pixels) = Decoder::new_from_iter(items.into_iter()).decode_header().unwrap();
    let mut buf = [Pixel::zero(); 1];
    match pixels.decode_pixels_into(&mut buf) {
        Err(StreamError::Io(e)) => assert_eq!(e, "boom"),
        _ => panic!("expected an i/o error"),
    }
}

#[test]
fn iterator_source_io_error_in_header() {
    let items: Vec<Result<u8, String>> = vec![Ok(b'q'), Err("gone".to_string())];
    match Decoder::new_from_iter(items.into_iter()).decode_header() {
        Err(HeaderDecodeError::Io(e)) => assert_eq!(e, "gone"),
        _ => panic!("expected an i/o error"),
    }
}

#[test]
fn iterator_source_exact_allocation_eof() {
    let bytes = image(2, 1, &[0xFF, 1, 2, 3]);
    let (_, pixels) = Decoder::new_from_iter(bytes.into_iter()).decode_header().unwrap();
    assert!(matches!(pixels.decode_pixels_vec(), Err(DecodeAllError::UnexpectedEof)));
}

#[test]
fn iterator_source_exact_allocation_io_error() {
    let mut items: Vec<Result<u8, String>> = image(2, 1, &[0xFF, 1, 2, 3, 4]).into_iter().map(Ok).collect();
    items.push(Err("cut".to_string()));
    let (_, pixels) = Decoder::new_from_iter(items.into_iter()).decode_header().unwrap();
    match pixels.decode_pixels_vec() {
        Err(DecodeAllError::Io(e)) => assert_eq!(e, "cut"),
        _ => panic!("expected an i/o error"),
    }
}

#[test]
fn bytes_exact_allocation_rgb_after_luma_and_index() {
    let bytes = image(3, 1, &[0xFF, 100, 100, 100, 255, 0xA5, 0x5A, 0x00]);
    let (_, pixels) = Decoder::new_from_slice(&bytes).decode_header().unwrap();
    // slot 0 still holds the zero pixel: neither pixel so far hashes to it
    assert_eq!(
        pixels.decode_bytes_vec(Pixel::rgb).unwrap(),
        vec![100, 100, 100, 102, 105, 107, 0, 0, 0]
    );
}

#[test]
fn short_header_with_bad_channel_reports_channel() {
    let mut bytes = header_bytes(1, 1, 7, 0);
    bytes.pop();
    match Decoder::new_from_slice(&bytes).decode_header() {
        Err(HeaderDecodeError::Channels(e)) => assert_eq!(e.bad_value(), 7),
        _ => panic!("expected a channels error"),
    }
}

#[test]
fn magic_alone_is_eof() {
    assert!(matches!(
        Decoder::new_from_slice(b"qoif").decode_header(),
        Err(HeaderDecodeError::UnexpectedEof)
    ));
}

#[test]
fn failed_fill_keeps_remaining_count() {
    let bytes = image(3, 1, &[0xFF, 1, 2, 3, 4, 0xFE, 1]);
    let (_, mut pixels) = Decoder::new_from_slice(&bytes).decode_header().unwrap();
    let mut buf = [Pixel::zero(); 3];
    assert!(matches!(pixels.decode_pixels_into(&mut buf), Err(StreamError::UnexpectedEof)));
    assert_eq!(pixels.remaining_pixels(), 3);
}

#[test]
fn zero_pixel_byte_allocation_succeeds() {
    let bytes = header_bytes(5, 0, 4, 0);
    let (_, pixels) = Decoder::new_from_slice(&bytes).decode_header().unwrap();
    assert_eq!(pixels.decode_bytes_vec(Pixel::rgba).unwrap(), Vec::<u8>::new());
}

#[test]
fn byte_fill_hands_on_io_error() {
    let mut items: Vec<Result<u8, String>> = header_bytes(1, 1, 4, 0).into_iter().map(Ok).collect();
    items.push(Ok(0xFE));
    items.push(Ok(1));
    items.push(Err("mid".to_string()));
    let (_, mut pixels) = Decoder::new_from_iter(items.into_iter()).decode_header().unwrap();
    let mut buf = [0u8; 4];
    match pixels.decode_bytes_into(&mut buf, Pixel::rgba) {
        Err(StreamError::Io(e)) => assert_eq!(e, "mid"),
        _ => panic!("expected an i/o error"),
    }
    assert_eq!(pixels.remaining_pixels(), 1);
}

#[test]
fn cache_round_trip_across_chunks() {
    let q = px(1, 2, 3, 4);
    // a full-RGB chunk, a small difference and a run come between; none writes slot 14
    let out = decode_all(&image(5, 1, &[0xFF, 1, 2, 3, 4, 0xFE, 50, 50, 50, 0x6A, 0xC0, 0x0E]));
    assert_eq!(out[0], q);
    assert_eq!(out[3], px(50, 50, 50, 4));
    assert_eq!(out[4], q);
}

#[test]
fn three_fills_concatenate() {
    let bytes = five_pixel_image();
    let whole = decode_all(&bytes);
    let (_, mut pixels) = Decoder::new_from_slice(&bytes).decode_header().unwrap();
    let mut joined = Vec::new();
    for size in [1usize, 3, 4] {
        let mut buf = vec![Pixel::zero(); size];
        let (n, _) = pixels.decode_pixels_into(&mut buf).unwrap();
        joined.extend_from_slice(&buf[..n]);
    }
    assert_eq!(joined, whole);
}
