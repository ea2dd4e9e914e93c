use vstd::prelude::*;

use crate::byte_stream::{ByteStream, IntoStreamResult, IterByteStream, SliceByteStream, StreamError};
use crate::header::{
    channels_of, col_space_of, header_prefix_ok, magic_bytes, u32_from_be, valid_header, Channels,
    ChannelsError, ColSpace, ColSpaceError, Header, MagicError,
};
use crate::pixel_decoder::{consumed, extends};

pub use crate::pixel_decoder::{DecodeAllError, PixelDecoder};

verus! {

/// Reads an image's header from a byte source, then hands the source on to a
/// pixel decoder.
pub struct Decoder<S> {
    stream: S,
}

impl<'a> Decoder<SliceByteStream<'a>> {
    /// A decoder over the bytes of `slice`.
    pub fn new_from_slice(slice: &'a [u8]) -> (d: Self)
        ensures
            d.source().held() == slice@,
            d.source().holds_all(),
            d.source().taken() == Seq::<u8>::empty(),
            d.source().last_error() is None,
    {
        Decoder::new(SliceByteStream::new(slice))
    }
}

impl<I, T> Decoder<IterByteStream<I>> where I: Iterator<Item = T>, T: IntoStreamResult {
    /// A decoder that pulls the bytes, or failures, that `iter` yields.
    pub fn new_from_iter(iter: I) -> (d: Self)
        ensures
            d.source().source() == iter,
            d.source().taken() == Seq::<u8>::empty(),
            d.source().last_error() is None,
    {
        Decoder::new(IterByteStream::new(iter))
    }
}

impl<S: ByteStream> Decoder<S> {
    /// The byte source.
    pub closed spec fn source(&self) -> S {
        self.stream
    }

    pub fn new(stream: S) -> (d: Self)
        ensures
            d.source() == stream,
    {
        Decoder { stream }
    }

    /// Reads and checks the fourteen header bytes, and yields the header with a
    /// decoder for the `width * height` pixels that follow.
    pub fn decode_header(self) -> (r: Result<(Header, PixelDecoder<S>), HeaderDecodeError<S::IoError>>)
        ensures
            r matches Ok((h, d)) ==> {
                let before = self.source().taken();
                let after = d.source().taken();
                &&& extends(before, after)
                &&& valid_header(consumed(before, after))
                &&& h.parsed_from(consumed(before, after))
                &&& d.state() == crate::chunk::initial_state()
                &&& d.pixels_left() == h.spec_width() * h.spec_height()
                &&& !d.failed()
                &&& d.wf()
                &&& self.source().holds_all() ==> d.source().holds_all()
            },
            r matches Err(HeaderDecodeError::Magic(e)) ==> e@.len() == 4 && e@ != magic_bytes(),
            r matches Err(HeaderDecodeError::Channels(e)) ==> channels_of(e@) is None,
            r matches Err(HeaderDecodeError::ColSpace(e)) ==> col_space_of(e@) is None,
            ({
                let held = self.source().held();
                held.len() >= 4 ==> ((r is Err && r->Err_0 is Magic) <==> held.take(4)
                    != magic_bytes())
            }),
            ({
                let held = self.source().held();
                held.len() >= 13 ==> ((r is Err && r->Err_0 is Channels) <==> (held.take(4)
                    == magic_bytes() && channels_of(held[12]) is None))
            }),
            ({
                let held = self.source().held();
                held.len() >= 14 ==> ((r is Err && r->Err_0 is ColSpace) <==> (held.take(4)
                    == magic_bytes() && channels_of(held[12]) is Some && col_space_of(held[13]) is None))
            }),
            ({
                let held = self.source().held();
                held.len() >= 4 && held.take(4) != magic_bytes() ==> (r matches Err(
                    HeaderDecodeError::Magic(e),
                ) && e@ == held.take(4))
            }),
            ({
                let held = self.source().held();
                held.len() >= 13 && held.take(4) == magic_bytes() && channels_of(held[12]) is None
                    ==> (r matches Err(HeaderDecodeError::Channels(e)) && e@ == held[12])
            }),
            ({
                let held = self.source().held();
                held.len() >= 14 && held.take(4) == magic_bytes() && channels_of(held[12]) is Some
                    && col_space_of(held[13]) is None ==> (r matches Err(
                    HeaderDecodeError::ColSpace(e),
                ) && e@ == held[13])
            }),
            ({
                let held = self.source().held();
                self.source().holds_all() && held.len() < 14 && header_prefix_ok(held) ==> r matches Err(
                    HeaderDecodeError::UnexpectedEof,
                )
            }),
            ({
                let held = self.source().held();
                held.len() >= 14 && valid_header(held.take(14)) ==> (r matches Ok((h, d))
                    && h.parsed_from(held.take(14)) && d.source().held() == held.skip(14))
            }),
    {
        let mut stream = self.stream;
        let ghost t0 = stream.taken();
        let ghost h0 = stream.held();
        let magic = match stream.read_n::<4>() {
            Ok(b) => b,
            Err(e) => {
                return Err(HeaderDecodeError::from(e));
            },
        };
        match Header::validate_magic(magic) {
            Ok(()) => {},
            Err(e) => {
                proof {
                    if h0.len() >= 14 {
                        assert(h0.take(14).take(4) =~= h0.take(4));
                    }
                }
                return Err(HeaderDecodeError::Magic(e));
            },
        }
        let w = match stream.read_n::<4>() {
            Ok(b) => b,
            Err(e) => {
                return Err(HeaderDecodeError::from(e));
            },
        };
        let h = match stream.read_n::<4>() {
            Ok(b) => b,
            Err(e) => {
                return Err(HeaderDecodeError::from(e));
            },
        };
        let width = u32_from_be(w);
        let height = u32_from_be(h);
        let c = match stream.read_one() {
            Ok(b) => b,
            Err(e) => {
                return Err(HeaderDecodeError::from(e));
            },
        };
        proof {
            if h0.len() >= 13 {
                assert(h0.skip(12)[0] == h0[12]);
            }
        }
        let channels = match Channels::from_byte(c) {
            Ok(ch) => ch,
            Err(e) => {
                proof {
                    assert(h0.len() >= 13 ==> h0[12] == c) by {
                        if h0.len() >= 13 {
                            assert(h0.skip(12)[0] == h0[12]);
                        }
                        if h0.len() >= 14 {
                            assert(h0.take(14)[12] == h0[12]);
                        }
                    }
                }
                return Err(HeaderDecodeError::Channels(e));
            },
        };
        let s = match stream.read_one() {
            Ok(b) => b,
            Err(e) => {
                return Err(HeaderDecodeError::from(e));
            },
        };
        proof {
            if h0.len() >= 14 {
                assert(h0.skip(13)[0] == h0[13]);
            }
        }
        let col_space = match ColSpace::from_byte(s) {
            Ok(cs) => cs,
            Err(e) => {
                proof {
                    assert(h0.len() >= 14 ==> h0[13] == s) by {
                        if h0.len() >= 14 {
                            assert(h0.skip(13)[0] == h0[13]);
                        }
                    }
                }
                return Err(HeaderDecodeError::ColSpace(e));
            },
        };
        assert(width as u64 * height as u64 <= u64::MAX) by (nonlinear_arith)
            requires
                width <= u32::MAX,
                height <= u32::MAX,
        ;
        let num_pixels = width as u64 * height as u64;
        let header = Header::new(width, height, channels, col_space);
        let ghost t1 = stream.taken();
        proof {
            let bytes = magic@ + w@ + h@ + seq![c] + seq![s];
            assert(t1 =~= t0 + bytes);
            assert(consumed(t0, t1) =~= bytes);
            assert(t1.take(t0.len() as int) =~= t0);
            assert(bytes.take(4) =~= magic@);
            assert(bytes[4] == w@[0] && bytes[5] == w@[1] && bytes[6] == w@[2] && bytes[7] == w@[3]);
            assert(bytes[8] == h@[0] && bytes[9] == h@[1] && bytes[10] == h@[2] && bytes[11] == h@[3]);
            assert(bytes[12] == c && bytes[13] == s);
            if h0.len() >= 14 {
                assert(h0.take(14) =~= bytes);
                assert(stream.held() =~= h0.skip(14));
            }
        }
        Ok((header, PixelDecoder::new(stream, num_pixels)))
    }
}

/// Why reading a header failed.
#[derive(Debug)]
pub enum HeaderDecodeError<E> {
    /// The source ended inside the header.
    UnexpectedEof,
    /// The transport failed.
    Io(E),
    /// The first four bytes were not the magic.
    Magic(MagicError),
    /// The channel byte was not a known layout.
    Channels(ChannelsError),
    /// The colour-space byte was not a known space.
    ColSpace(ColSpaceError),
}

impl<E> From<StreamError<E>> for HeaderDecodeError<E> {
    fn from(err: StreamError<E>) -> (r: Self) {
        match err {
            StreamError::UnexpectedEof => HeaderDecodeError::UnexpectedEof,
            StreamError::Io(e) => HeaderDecodeError::Io(e),
        }
    }
}

impl<E> vstd::std_specs::convert::FromSpecImpl<StreamError<E>> for HeaderDecodeError<E> {
    open spec fn obeys_from_spec() -> bool {
        true
    }

    open spec fn from_spec(err: StreamError<E>) -> Self {
        match err {
            StreamError::UnexpectedEof => HeaderDecodeError::UnexpectedEof,
            StreamError::Io(e) => HeaderDecodeError::Io(e),
        }
    }
}

impl<E> From<MagicError> for HeaderDecodeError<E> {
    fn from(err: MagicError) -> (r: Self) {
        HeaderDecodeError::Magic(err)
    }
}

impl<E> vstd::std_specs::convert::FromSpecImpl<MagicError> for HeaderDecodeError<E> {
    open spec fn obeys_from_spec() -> bool {
        true
    }

    open spec fn from_spec(err: MagicError) -> Self {
        HeaderDecodeError::Magic(err)
    }
}

impl<E> From<ChannelsError> for HeaderDecodeError<E> {
    fn from(err: ChannelsError) -> (r: Self) {
        HeaderDecodeError::Channels(err)
    }
}

impl<E> vstd::std_specs::convert::FromSpecImpl<ChannelsError> for HeaderDecodeError<E> {
    open spec fn obeys_from_spec() -> bool {
        true
    }

    open spec fn from_spec(err: ChannelsError) -> Self {
        HeaderDecodeError::Channels(err)
    }
}

impl<E> From<ColSpaceError> for HeaderDecodeError<E> {
    fn from(err: ColSpaceError) -> (r: Self) {
        HeaderDecodeError::ColSpace(err)
    }
}

impl<E> vstd::std_specs::convert::FromSpecImpl<ColSpaceError> for HeaderDecodeError<E> {
    open spec fn obeys_from_spec() -> bool {
        true
    }

    open spec fn from_spec(err: ColSpaceError) -> Self {
        HeaderDecodeError::ColSpace(err)
    }
}

} // verus!
