use okay::byte_stream::{ByteStream, IntoStreamResult, IterByteStream, SliceByteStream, StreamError};
use okay::decode::{DecodeAllError, HeaderDecodeError};
use okay::header::{Channels, ColSpace, Header};
use okay::hex::{byte_to_hex, nibble_to_hex, HexBytes};
use okay::pixel_index::PixelIndex;
use okay::Pixel;

#[test]
fn pixel_projections() {
    let p = Pixel::new(1, 2, 3, 4);
    assert_eq!(p.rgba(), [1, 2, 3, 4]);
    assert_eq!(p.argb(), [4, 1, 2, 3]);
    assert_eq!(p.rgb(), [1, 2, 3]);
    assert_eq!(Pixel::zero(), Pixel::new(0, 0, 0, 0));
    assert_eq!(Pixel::black(), Pixel::new(0, 0, 0, 255));
}

#[test]
fn pixel_hash_values() {
    assert_eq!(PixelIndex::pixel_hash(Pixel::new(1, 2, 3, 4)), 14);
    assert_eq!(PixelIndex::pixel_hash(Pixel::new(255, 255, 255, 255)), (26 * 255) % 64);
    assert_eq!(PixelIndex::pixel_hash(Pixel::zero()), 0);
}

#[test]
fn pixel_index_insert_and_get() {
    let mut index = PixelIndex::new();
    let p = Pixel::new(1, 2, 3, 4);
    assert_eq!(index.masked_get(14), Pixel::zero());
    index.insert(p);
    assert_eq!(index.masked_get(14), p);
    // only the low six bits of the chunk name the slot
    assert_eq!(index.masked_get(0xC0 | 14), p);
    assert_eq!(index.masked_get(15), Pixel::zero());
}

#[test]
fn slice_stream_reads() {
    let data = [1u8, 2, 3, 4, 5];
    let mut s = SliceByteStream::new(&data);
    assert_eq!(s.read_one().unwrap(), 1);
    assert_eq!(s.read_n::<3>().unwrap(), [2, 3, 4]);
    assert_eq!(s.inner(), &[5]);
    assert!(matches!(s.read_n::<2>(), Err(StreamError::UnexpectedEof)));
    assert_eq!(s.inner(), &[5]);
    assert_eq!(s.read_n::<1>().unwrap(), [5]);
    assert!(matches!(s.read_one(), Err(StreamError::UnexpectedEof)));
}

#[test]
fn iter_stream_reads() {
    let mut s = IterByteStream::new(vec![1u8, 2, 3].into_iter());
    assert_eq!(s.read_n::<2>().unwrap(), [1, 2]);
    assert_eq!(s.inner().len(), 1);
    assert_eq!(s.inner_mut().next(), Some(3));
    assert!(matches!(s.read_one(), Err(StreamError::UnexpectedEof)));
    assert_eq!(s.into_inner().count(), 0);
}

#[test]
fn stream_results() {
    assert!(matches!(7u8.into_stream_result(), Ok(7)));
    assert!(matches!(Ok::<u8, i32>(8).into_stream_result(), Ok(8)));
    assert!(matches!(Err::<u8, i32>(9).into_stream_result(), Err(StreamError::Io(9))));
}

#[test]
fn channel_and_col_space_bytes() {
    assert_eq!(Channels::try_from(3u8).unwrap(), Channels::Rgb);
    assert_eq!(Channels::try_from(4u8).unwrap(), Channels::Rgba);
    assert_eq!(Channels::try_from(0u8).unwrap_err().bad_value(), 0);
    assert_eq!(u8::from(Channels::Rgb), 3);
    assert_eq!(u8::from(Channels::Rgba), 4);
    assert_eq!(ColSpace::try_from(0u8).unwrap(), ColSpace::Srgb);
    assert_eq!(ColSpace::try_from(1u8).unwrap(), ColSpace::Linear);
    assert_eq!(ColSpace::try_from(9u8).unwrap_err().bad_value(), 9);
    assert_eq!(u8::from(ColSpace::Srgb), 0);
    assert_eq!(u8::from(ColSpace::Linear), 1);
}

#[test]
fn header_accessors() {
    let h = Header::new(3, 5, Channels::Rgb, ColSpace::Linear);
    assert_eq!(h.width(), 3);
    assert_eq!(h.height(), 5);
    assert_eq!(h.dimensions(), (3, 5));
    assert_eq!(h.channels(), Channels::Rgb);
    assert_eq!(h.col_space(), ColSpace::Linear);
}

#[test]
fn magic_validation() {
    assert!(Header::validate_magic(*b"qoif").is_ok());
    assert_eq!(Header::validate_magic(*b"QOIF").unwrap_err().bad_value(), *b"QOIF");
}

#[test]
fn big_endian_numbers() {
    assert_eq!(okay::header::u32_from_be([0x01, 0x02, 0x03, 0x04]), 0x0102_0304);
    assert_eq!(okay::header::u32_from_be([0xFF; 4]), u32::MAX);
}

#[test]
fn hex_digits() {
    assert_eq!(nibble_to_hex(0), '0');
    assert_eq!(nibble_to_hex(9), '9');
    assert_eq!(nibble_to_hex(10), 'A');
    assert_eq!(nibble_to_hex(15), 'F');
    assert_eq!(byte_to_hex(0x3F), ('3', 'F'));
    let bytes = [0x71u8, 0xAB];
    assert_eq!(HexBytes::new(&bytes).digits(), vec!['7', '1', 'A', 'B']);
}

#[test]
fn error_conversions() {
    let e: HeaderDecodeError<i32> = StreamError::Io(3).into();
    assert!(matches!(e, HeaderDecodeError::Io(3)));
    let e: HeaderDecodeError<i32> = StreamError::UnexpectedEof.into();
    assert!(matches!(e, HeaderDecodeError::UnexpectedEof));
    let e: DecodeAllError<i32> = StreamError::Io(4).into();
    assert!(matches!(e, DecodeAllError::Io(4)));
    let e: DecodeAllError<i32> = StreamError::UnexpectedEof.into();
    assert!(matches!(e, DecodeAllError::UnexpectedEof));
}

#[test]
fn iter_stream_pulls_items_in_order() {
    let items: Vec<Result<u8, i32>> = vec![Ok(1), Ok(2), Err(5), Ok(3)];
    let mut s = IterByteStream::new(items.into_iter());
    assert_eq!(s.read_n::<0>().unwrap(), [0u8; 0]);
    assert_eq!(s.read_n::<2>().unwrap(), [1, 2]);
    assert!(matches!(s.read_n::<2>(), Err(StreamError::Io(5))));
    assert_eq!(s.read_one().unwrap(), 3);
    assert!(matches!(s.read_one(), Err(StreamError::UnexpectedEof)));
}

#[test]
fn iter_stream_short_read_is_eof() {
    let mut s = IterByteStream::new(vec![9u8].into_iter());
    assert!(matches!(s.read_n::<2>(), Err(StreamError::UnexpectedEof)));
}

#[test]
fn slice_stream_empty_read_succeeds() {
    let data: [u8; 0] = [];
    let mut s = SliceByteStream::new(&data);
    assert_eq!(s.read_n::<0>().unwrap(), [0u8; 0]);
}

#[test]
fn pixel_index_overwrites_one_slot() {
    let mut index = PixelIndex::new();
    let a = Pixel::new(9, 9, 9, 9);
    let c = Pixel::new(14, 0, 0, 0);
    index.insert(Pixel::new(1, 2, 3, 4));
    index.insert(a);
    index.insert(c);
    assert_eq!(PixelIndex::pixel_hash(a), 42);
    assert_eq!(PixelIndex::pixel_hash(c), 42);
    assert_eq!(index.masked_get(42), c);
    assert_eq!(index.masked_get(14), Pixel::new(1, 2, 3, 4));
}

#[test]
fn channel_and_col_space_round_trip() {
    for c in [Channels::Rgb, Channels::Rgba] {
        assert_eq!(Channels::try_from(u8::from(c)).unwrap(), c);
    }
    for s in [ColSpace::Srgb, ColSpace::Linear] {
        assert_eq!(ColSpace::try_from(u8::from(s)).unwrap(), s);
    }
}

#[test]
fn iter_stream_failed_read_leaves_items_after_failure() {
    let items: Vec<Result<u8, i32>> = vec![Ok(1), Err(2), Ok(3), Ok(4)];
    let mut s = IterByteStream::new(items.into_iter());
    assert!(matches!(s.read_n::<3>(), Err(StreamError::Io(2))));
    assert_eq!(s.read_n::<2>().unwrap(), [3, 4]);
    assert_eq!(s.inner().len(), 0);
}

#[test]
fn sources_from_conversions() {
    let data = [7u8, 8];
    let mut s: SliceByteStream = SliceByteStream::from(&data[..]);
    assert_eq!(s.read_n::<2>().unwrap(), [7, 8]);
    let mut t: IterByteStream<std::vec::IntoIter<u8>> = IterByteStream::from(vec![5u8].into_iter());
    assert_eq!(t.read_one().unwrap(), 5);
}
