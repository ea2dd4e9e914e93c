use vstd::prelude::*;

verus! {

/// The four bytes every image starts with: `"qoif"`.
pub open spec fn magic_bytes() -> Seq<u8> {
    seq![0x71u8, 0x6fu8, 0x69u8, 0x66u8]
}

/// The big-endian number in the four bytes of `b` from `at` on.
pub open spec fn be_u32(b: Seq<u8>, at: int) -> int {
    b[at] * 0x1000000 + b[at + 1] * 0x10000 + b[at + 2] * 0x100 + b[at + 3]
}

/// The channel layout a header byte names: 3 is RGB, 4 is RGBA.
pub open spec fn channels_of(b: u8) -> Option<Channels> {
    if b == 3 {
        Some(Channels::Rgb)
    } else if b == 4 {
        Some(Channels::Rgba)
    } else {
        None
    }
}

/// The colour space a header byte names: 0 is sRGB, 1 is linear.
pub open spec fn col_space_of(b: u8) -> Option<ColSpace> {
    if b == 0 {
        Some(ColSpace::Srgb)
    } else if b == 1 {
        Some(ColSpace::Linear)
    } else {
        None
    }
}

/// Fourteen bytes that make a valid header: the magic, then any width and
/// height, then a known channel byte and a known colour-space byte.
pub open spec fn valid_header(b: Seq<u8>) -> bool {
    &&& b.len() == 14
    &&& b.take(4) == magic_bytes()
    &&& channels_of(b[12]) is Some
    &&& col_space_of(b[13]) is Some
}

/// The first bytes of a header, fewer than fourteen, with no field among them
/// that is already wrong.
pub open spec fn header_prefix_ok(b: Seq<u8>) -> bool {
    &&& b.len() >= 4 ==> b.take(4) == magic_bytes()
    &&& b.len() >= 13 ==> channels_of(b[12]) is Some
}

/// The image's dimensions and how its pixels are meant to be read.
#[derive(Copy, Clone, PartialEq, Eq, Debug, Structural)]
pub struct Header {
    width: u32,
    height: u32,
    channels: Channels,
    col_space: ColSpace,
}

impl Header {
    pub closed spec fn spec_width(&self) -> u32 {
        self.width
    }

    pub closed spec fn spec_height(&self) -> u32 {
        self.height
    }

    pub closed spec fn spec_channels(&self) -> Channels {
        self.channels
    }

    pub closed spec fn spec_col_space(&self) -> ColSpace {
        self.col_space
    }

    /// The header that the valid header bytes `b` describe.
    pub open spec fn parsed_from(&self, b: Seq<u8>) -> bool {
        &&& self.spec_width() == be_u32(b, 4)
        &&& self.spec_height() == be_u32(b, 8)
        &&& channels_of(b[12]) == Some(self.spec_channels())
        &&& col_space_of(b[13]) == Some(self.spec_col_space())
    }

    pub fn new(width: u32, height: u32, channels: Channels, col_space: ColSpace) -> (h: Self)
        ensures
            h.spec_width() == width,
            h.spec_height() == height,
            h.spec_channels() == channels,
            h.spec_col_space() == col_space,
    {
        Header { width, height, channels, col_space }
    }

    pub fn width(&self) -> (r: u32)
        ensures
            r == self.spec_width(),
    {
        self.width
    }

    pub fn height(&self) -> (r: u32)
        ensures
            r == self.spec_height(),
    {
        self.height
    }

    /// Width and height.
    pub fn dimensions(&self) -> (r: (u32, u32))
        ensures
            r == (self.spec_width(), self.spec_height()),
    {
        (self.width, self.height)
    }

    pub fn channels(&self) -> (r: Channels)
        ensures
            r == self.spec_channels(),
    {
        self.channels
    }

    pub fn col_space(&self) -> (r: ColSpace)
        ensures
            r == self.spec_col_space(),
    {
        self.col_space
    }

    /// Accepts exactly the magic bytes `"qoif"`.
    pub fn validate_magic(magic: [u8; 4]) -> (r: Result<(), MagicError>)
        ensures
            r is Ok <==> magic@ == magic_bytes(),
            r matches Err(e) ==> e@ == magic@,
    {
        if magic[0] == 0x71 && magic[1] == 0x6f && magic[2] == 0x69 && magic[3] == 0x66 {
            assert(magic@ =~= magic_bytes());
            Ok(())
        } else {
            proof {
                if magic@ == magic_bytes() {
                    assert(magic@[0] == 0x71u8);
                    assert(magic@[1] == 0x6fu8);
                    assert(magic@[2] == 0x69u8);
                    assert(magic@[3] == 0x66u8);
                }
            }
            Err(MagicError { bad_value: magic })
        }
    }
}

/// Reads the big-endian number in four bytes.
pub fn u32_from_be(b: [u8; 4]) -> (r: u32)
    ensures
        r == be_u32(b@, 0),
{
    (b[0] as u32) * 0x1000000 + (b[1] as u32) * 0x10000 + (b[2] as u32) * 0x100 + (b[3] as u32)
}

/// Whether the image carries an alpha channel.
#[derive(Copy, Clone, PartialEq, Eq, Debug, Structural)]
pub enum Channels {
    Rgb,
    Rgba,
}

impl Channels {
    /// The layout a header byte names, or the byte back as an error.
    pub fn from_byte(value: u8) -> (r: Result<Channels, ChannelsError>)
        ensures
            r is Ok <==> channels_of(value) is Some,
            r matches Ok(c) ==> channels_of(value) == Some(c),
            r matches Err(e) ==> e@ == value,
    {
        if value == 3 {
            Ok(Channels::Rgb)
        } else if value == 4 {
            Ok(Channels::Rgba)
        } else {
            Err(ChannelsError { bad_value: value })
        }
    }
}

impl TryFrom<u8> for Channels {
    type Error = ChannelsError;

    fn try_from(value: u8) -> (r: Result<Channels, ChannelsError>)
        ensures
            r is Ok <==> channels_of(value) is Some,
            r matches Ok(c) ==> channels_of(value) == Some(c),
            r matches Err(e) ==> e@ == value,
    {
        Channels::from_byte(value)
    }
}

impl vstd::std_specs::convert::TryFromSpecImpl<u8> for Channels {
    open spec fn obeys_try_from_spec() -> bool {
        true
    }

    closed spec fn try_from_spec(value: u8) -> Result<Channels, ChannelsError> {
        match channels_of(value) {
            Some(c) => Ok(c),
            None => Err(ChannelsError { bad_value: value }),
        }
    }
}

impl From<Channels> for u8 {
    fn from(channels: Channels) -> (r: u8)
        ensures
            channels_of(r) == Some(channels),
    {
        match channels {
            Channels::Rgb => 3,
            Channels::Rgba => 4,
        }
    }
}

impl vstd::std_specs::convert::FromSpecImpl<Channels> for u8 {
    open spec fn obeys_from_spec() -> bool {
        true
    }

    open spec fn from_spec(channels: Channels) -> u8 {
        match channels {
            Channels::Rgb => 3,
            Channels::Rgba => 4,
        }
    }
}

/// How channel values are meant to be read; decoding does not use it.
#[derive(Copy, Clone, PartialEq, Eq, Debug, Structural)]
pub enum ColSpace {
    Srgb,
    Linear,
}

impl ColSpace {
    /// The colour space a header byte names, or the byte back as an error.
    pub fn from_byte(value: u8) -> (r: Result<ColSpace, ColSpaceError>)
        ensures
            r is Ok <==> col_space_of(value) is Some,
            r matches Ok(c) ==> col_space_of(value) == Some(c),
            r matches Err(e) ==> e@ == value,
    {
        if value == 0 {
            Ok(ColSpace::Srgb)
        } else if value == 1 {
            Ok(ColSpace::Linear)
        } else {
            Err(ColSpaceError { bad_value: value })
        }
    }
}

impl TryFrom<u8> for ColSpace {
    type Error = ColSpaceError;

    fn try_from(value: u8) -> (r: Result<ColSpace, ColSpaceError>)
        ensures
            r is Ok <==> col_space_of(value) is Some,
            r matches Ok(c) ==> col_space_of(value) == Some(c),
            r matches Err(e) ==> e@ == value,
    {
        ColSpace::from_byte(value)
    }
}

impl vstd::std_specs::convert::TryFromSpecImpl<u8> for ColSpace {
    open spec fn obeys_try_from_spec() -> bool {
        true
    }

    closed spec fn try_from_spec(value: u8) -> Result<ColSpace, ColSpaceError> {
        match col_space_of(value) {
            Some(c) => Ok(c),
            None => Err(ColSpaceError { bad_value: value }),
        }
    }
}

impl From<ColSpace> for u8 {
    fn from(col_space: ColSpace) -> (r: u8)
        ensures
            col_space_of(r) == Some(col_space),
    {
        match col_space {
            ColSpace::Srgb => 0,
            ColSpace::Linear => 1,
        }
    }
}

impl vstd::std_specs::convert::FromSpecImpl<ColSpace> for u8 {
    open spec fn obeys_from_spec() -> bool {
        true
    }

    open spec fn from_spec(col_space: ColSpace) -> u8 {
        match col_space {
            ColSpace::Srgb => 0,
            ColSpace::Linear => 1,
        }
    }
}

/// The first four bytes were not the magic.
#[derive(Debug)]
pub struct MagicError {
    bad_value: [u8; 4],
}

impl View for MagicError {
    type V = Seq<u8>;

    closed spec fn view(&self) -> Seq<u8> {
        self.bad_value@
    }
}

impl MagicError {
    /// The bytes found in place of the magic.
    pub fn bad_value(&self) -> (r: [u8; 4])
        ensures
            r@ == self@,
    {
        self.bad_value
    }
}

/// The channel byte was neither 3 nor 4.
#[derive(Debug)]
pub struct ChannelsError {
    bad_value: u8,
}

impl View for ChannelsError {
    type V = u8;

    closed spec fn view(&self) -> u8 {
        self.bad_value
    }
}

impl ChannelsError {
    /// The byte found in place of a channel count.
    pub fn bad_value(&self) -> (r: u8)
        ensures
            r == self@,
    {
        self.bad_value
    }
}

/// The colour-space byte was neither 0 nor 1.
#[derive(Debug)]
pub struct ColSpaceError {
    bad_value: u8,
}

impl View for ColSpaceError {
    type V = u8;

    closed spec fn view(&self) -> u8 {
        self.bad_value
    }
}

impl ColSpaceError {
    /// The byte found in place of a colour space.
    pub fn bad_value(&self) -> (r: u8)
        ensures
            r == self@,
    {
        self.bad_value
    }
}

} // verus!
