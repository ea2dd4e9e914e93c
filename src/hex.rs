use vstd::prelude::*;

verus! {

/// The upper-case hexadecimal digit for `n`, which is below 16.
pub open spec fn hex_digit(n: u8) -> char {
    if n < 10 {
        ((n + 0x30) as u8) as char
    } else {
        ((n - 10 + 0x41) as u8) as char
    }
}

/// Bytes to be shown as hexadecimal, two digits each.
pub struct HexBytes<'a> {
    bytes: &'a [u8],
}

impl<'a> HexBytes<'a> {
    pub closed spec fn spec_bytes(&self) -> Seq<u8> {
        self.bytes@
    }

    pub fn new(bytes: &'a [u8]) -> (h: Self)
        ensures
            h.spec_bytes() == bytes@,
    {
        HexBytes { bytes }
    }

    /// The digits, high nibble first for each byte.
    pub fn digits(&self) -> (r: Vec<char>)
        ensures
            r@.len() == 2 * self.spec_bytes().len(),
            forall|i: int|
                0 <= i < self.spec_bytes().len() ==> r@[2 * i] == hex_digit(
                    #[trigger] self.spec_bytes()[i] / 16,
                ) && r@[2 * i + 1] == hex_digit(self.spec_bytes()[i] % 16),
    {
        let mut out: Vec<char> = Vec::new();
        let mut i: usize = 0;
        while i < self.bytes.len()
            invariant
                i <= self.bytes@.len(),
                out@.len() == 2 * i,
                forall|j: int|
                    0 <= j < i ==> out@[2 * j] == hex_digit(#[trigger] self.bytes@[j] / 16) && out@[2
                        * j + 1] == hex_digit(self.bytes@[j] % 16),
            decreases self.bytes@.len() - i,
        {
            let (hi, lo) = byte_to_hex(self.bytes[i]);
            out.push(hi);
            out.push(lo);
            i += 1;
        }
        out
    }
}

/// The two digits of a byte, high nibble first.
pub fn byte_to_hex(byte: u8) -> (r: (char, char))
    ensures
        r == (hex_digit(byte / 16), hex_digit(byte % 16)),
{
    assert(byte >> 4 == byte / 16) by (bit_vector);
    assert(byte & 0x0f == byte % 16) by (bit_vector);
    (nibble_to_hex(byte >> 4), nibble_to_hex(byte & 0x0f))
}

/// The digit for a nibble.
pub fn nibble_to_hex(nibble: u8) -> (c: char)
    requires
        nibble < 16,
    ensures
        c == hex_digit(nibble),
{
    if nibble < 10 {
        (nibble + 0x30) as char
    } else {
        (nibble - 10 + 0x41) as char
    }
}

} // verus!
