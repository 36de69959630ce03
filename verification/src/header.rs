//! The blocks of the format: headers, their numeric fields and checksum.

use crate::error::{Field, TarError};
use vstd::prelude::*;

verus! {

/// The size of a block, in bytes.
pub const BLOCK: usize = 512;

/// `true` for the bytes that may stand around an octal number.
pub open spec fn is_space(b: u8) -> bool {
    b == 0x20 || 0x09 <= b <= 0x0d
}

/// `true` for the digits `0` to `7`.
pub open spec fn is_octal_digit(b: u8) -> bool {
    0x30 <= b <= 0x37
}

/// The index of the first zero byte of `s` from `i` on, or the length of `s`.
pub open spec fn first_nul(s: Seq<u8>, i: int) -> int
    decreases s.len() - i,
{
    if i >= s.len() || s[i] == 0 {
        i
    } else {
        first_nul(s, i + 1)
    }
}

/// Where the text between `lo` and `hi` starts once leading space is dropped.
pub open spec fn text_start(s: Seq<u8>, lo: int, hi: int) -> int
    decreases hi - lo,
{
    if lo >= hi || !is_space(s[lo]) {
        lo
    } else {
        text_start(s, lo + 1, hi)
    }
}

/// Where the text between `lo` and `hi` ends once trailing space is dropped.
pub open spec fn text_end(s: Seq<u8>, lo: int, hi: int) -> int
    decreases hi - lo,
{
    if lo >= hi || !is_space(s[hi - 1]) {
        hi
    } else {
        text_end(s, lo, hi - 1)
    }
}

/// The text of a field: what stands before its first zero byte, without the
/// space around it.
pub open spec fn field_text(s: Seq<u8>) -> Seq<u8> {
    let end = first_nul(s, 0);
    let lo = text_start(s, 0, end);
    s.subrange(lo, text_end(s, lo, end))
}

/// The number that a string of digits to the base `base` stands for.
pub open spec fn digits_value(s: Seq<u8>, base: nat, zero: u8) -> nat
    decreases s.len(),
{
    if s.len() == 0 {
        0
    } else {
        digits_value(s.drop_last(), base, zero) * base + (s.last() - zero) as nat
    }
}

/// The number in an octal field, if its text is one.
pub open spec fn octal_number(s: Seq<u8>) -> Option<u64> {
    let text = field_text(s);
    if text.len() > 0 && (forall|i: int| 0 <= i < text.len() ==> is_octal_digit(#[trigger] text[i]))
        && digits_value(text, 8, 0x30) <= u64::MAX {
        Some(digits_value(text, 8, 0x30) as u64)
    } else {
        None
    }
}

/// The number in a numeric field. A field whose first bit is set holds it in
/// binary, most significant byte first, in its last eight bytes; any other
/// field holds octal text.
pub open spec fn number(s: Seq<u8>) -> Option<u64> {
    if s[0] >= 0x80 {
        Some(digits_value(s.skip(s.len() - 8), 256, 0) as u64)
    } else {
        octal_number(s)
    }
}

/// The sum of some bytes.
pub open spec fn byte_sum(s: Seq<u8>) -> nat
    decreases s.len(),
{
    if s.len() == 0 {
        0
    } else {
        byte_sum(s.drop_last()) + s.last() as nat
    }
}

/// The checksum of a header: the sum of its bytes, each of the eight bytes of
/// the checksum field itself counting as a space.
pub open spec fn header_sum(h: Seq<u8>) -> nat {
    byte_sum(h.take(148)) + 8 * 32 + byte_sum(h.skip(156))
}

/// `true` for a block of zeros.
pub open spec fn all_zero(h: Seq<u8>) -> bool {
    forall|i: int| 0 <= i < h.len() ==> #[trigger] h[i] == 0
}

/// The checksum that a header states.
pub open spec fn stated_sum(h: Seq<u8>) -> Option<u64> {
    octal_number(h.subrange(148, 156))
}

/// The number of bytes that follow a header for its entry.
pub open spec fn stated_size(h: Seq<u8>) -> Option<u64> {
    number(h.subrange(124, 136))
}

/// The size of the file that a sparse entry stands for.
pub open spec fn stated_real_size(h: Seq<u8>) -> Option<u64> {
    number(h.subrange(483, 495))
}

/// The type of the entry that a header announces.
pub open spec fn type_flag(h: Seq<u8>) -> u8 {
    h[156]
}

/// The type of a member that holds the long path name of the next one.
pub const GNU_LONG_NAME: u8 = 0x4c;

/// The type of a member that holds the long link name of the next one.
pub const GNU_LONG_LINK: u8 = 0x4b;

/// The type of a sparse file.
pub const GNU_SPARSE: u8 = 0x53;

/// The type of a member that holds the pax extensions of the next one.
pub const PAX_EXTENSIONS: u8 = 0x78;

/// `true` for a header with GNU's magic, `"ustar  \0"`.
pub open spec fn gnu_header(h: Seq<u8>) -> bool {
    h.subrange(257, 265) == seq![0x75u8, 0x73, 0x74, 0x61, 0x72, 0x20, 0x20, 0x00]
}

/// `true` for a header with the magic of POSIX, `"ustar\0"` and `"00"`.
pub open spec fn ustar_header(h: Seq<u8>) -> bool {
    h.subrange(257, 265) == seq![0x75u8, 0x73, 0x74, 0x61, 0x72, 0x00, 0x30, 0x30]
}

proof fn lemma_digits_value_prefix(s: Seq<u8>, i: int, base: nat, zero: u8)
    requires
        0 <= i <= s.len(),
        base >= 1,
        forall|j: int| 0 <= j < s.len() ==> #[trigger] s[j] >= zero,
    ensures
        digits_value(s.take(i), base, zero) <= digits_value(s, base, zero),
    decreases s.len() - i,
{
    if i < s.len() {
        lemma_digits_value_prefix(s, i + 1, base, zero);
        let t = s.take(i + 1);
        assert(t.drop_last() =~= s.take(i));
        let v = digits_value(s.take(i), base, zero);
        assert(v <= v * base) by (nonlinear_arith)
            requires
                base >= 1,
        ;
    } else {
        assert(s.take(i) =~= s);
    }
}

proof fn lemma_binary_value_bound(s: Seq<u8>, bound: nat)
    requires
        bound == vstd::arithmetic::power2::pow2(8 * s.len()),
    ensures
        digits_value(s, 256, 0) < bound,
    decreases s.len(),
{
    vstd::arithmetic::power2::lemma2_to64();
    if s.len() > 0 {
        let less = vstd::arithmetic::power2::pow2(8 * (s.len() - 1) as nat);
        vstd::arithmetic::power2::lemma_pow2_adds(8 * (s.len() - 1) as nat, 8);
        lemma_binary_value_bound(s.drop_last(), less);
        assert(bound == less * 256);
    }
}

/// Reads an octal field.
pub fn octal_from(field: &[u8]) -> (value: Option<u64>)
    ensures
        value == octal_number(field@),
{
    let mut end: usize = 0;
    while end < field.len() && field[end] != 0
        invariant
            end <= field.len(),
            first_nul(field@, 0) == first_nul(field@, end as int),
        decreases field.len() - end,
    {
        end += 1;
    }
    let mut lo: usize = 0;
    while lo < end && (field[lo] == 0x20 || (0x09 <= field[lo] && field[lo] <= 0x0d))
        invariant
            lo <= end <= field.len(),
            text_start(field@, 0, end as int) == text_start(field@, lo as int, end as int),
        decreases end - lo,
    {
        lo += 1;
    }
    let ghost full = end;
    let mut hi: usize = end;
    while lo < hi && (field[hi - 1] == 0x20 || (0x09 <= field[hi - 1] && field[hi - 1] <= 0x0d))
        invariant
            lo <= hi <= full <= field.len(),
            text_end(field@, lo as int, full as int) == text_end(field@, lo as int, hi as int),
        decreases hi - lo,
    {
        hi -= 1;
    }
    let ghost text = field_text(field@);
    assert(text =~= field@.subrange(lo as int, hi as int));
    if lo == hi {
        return None;
    }
    let mut value: u64 = 0;
    let mut i: usize = lo;
    assert(text.take(0) =~= Seq::<u8>::empty());
    while i < hi
        invariant
            lo <= i <= hi <= field.len(),
            lo < hi,
            text == field_text(field@),
            text == field@.subrange(lo as int, hi as int),
            forall|j: int| 0 <= j < i - lo ==> is_octal_digit(#[trigger] text[j]),
            value == digits_value(text.take(i - lo), 8, 0x30),
        decreases hi - i,
    {
        let b: u8 = field[i];
        assert(b == text[i - lo]);
        if b < 0x30 || b > 0x37 {
            return None;
        }
        proof {
            assert(text.take(i + 1 - lo).drop_last() =~= text.take(i - lo));
        }
        let digit: u64 = (b - 0x30) as u64;
        if value > (u64::MAX - digit) / 8 {
            proof {
                if octal_number(field@) is Some {
                    lemma_digits_value_prefix(text, i + 1 - lo, 8, 0x30);
                }
            }
            return None;
        }
        value = value * 8 + digit;
        i += 1;
    }
    assert(text.take(hi - lo) =~= text);
    Some(value)
}

/// Reads a numeric field.
pub fn number_from(field: &[u8]) -> (value: Option<u64>)
    requires
        field@.len() >= 8,
    ensures
        value == number(field@),
{
    if field[0] >= 0x80 {
        let mut value: u64 = 0;
        let start: usize = field.len() - 8;
        let ghost low = field@.skip(start as int);
        let mut i: usize = 0;
        assert(low.take(0) =~= Seq::<u8>::empty());
        while i < 8
            invariant
                i <= 8,
                start + 8 == field.len(),
                low == field@.skip(start as int),
                value == digits_value(low.take(i as int), 256, 0),
            decreases 8 - i,
        {
            let b: u8 = field[start + i];
            proof {
                let next = low.take(i + 1);
                assert(next.drop_last() =~= low.take(i as int));
                lemma_digits_value_prefix(low, i + 1, 256, 0);
                lemma_binary_value_bound(low, vstd::arithmetic::power2::pow2(64));
                vstd::arithmetic::power2::lemma2_to64();
            }
            value = value * 256 + b as u64;
            i += 1;
        }
        assert(low.take(8) =~= low);
        Some(value)
    } else {
        octal_from(field)
    }
}

/// A block of the archive that describes an entry.
#[derive(Clone, Copy, Debug)]
pub struct Header {
    bytes: [u8; 512],
}

impl View for Header {
    type V = Seq<u8>;

    closed spec fn view(&self) -> Seq<u8> {
        self.bytes@
    }
}

impl Header {
    /// A header is one block.
    pub broadcast proof fn lemma_len(self)
        ensures
            #[trigger] self@.len() == 512,
    {
    }

    /// Takes a header from the bytes of a block.
    pub fn from_block(block: &[u8]) -> (header: Header)
        requires
            block@.len() == 512,
        ensures
            header@ == block@,
    {
        let mut bytes: [u8; 512] = [0u8; 512];
        let mut i: usize = 0;
        while i < BLOCK
            invariant
                i <= 512,
                block@.len() == 512,
                forall|j: int| 0 <= j < i ==> #[trigger] bytes[j] == block@[j],
            decreases 512 - i,
        {
            bytes[i] = block[i];
            i += 1;
        }
        assert(bytes@ =~= block@);
        Header { bytes }
    }

    /// The bytes of the header.
    pub fn as_bytes(&self) -> (bytes: &[u8])
        ensures
            bytes@ == self@,
            bytes@.len() == 512,
    {
        self.bytes.as_slice()
    }

    /// `true` if the header is all zeros, which marks the end of an archive.
    pub fn is_zero(&self) -> (zero: bool)
        ensures
            zero == all_zero(self@),
    {
        let mut i: usize = 0;
        while i < BLOCK
            invariant
                i <= 512,
                forall|j: int| 0 <= j < i ==> #[trigger] self@[j] == 0,
            decreases 512 - i,
        {
            if self.bytes[i] != 0 {
                assert(self@[i as int] != 0);
                return false;
            }
            i += 1;
        }
        true
    }

    /// Adds up the header's bytes, those of the checksum field as spaces.
    pub fn sum(&self) -> (sum: u32)
        ensures
            sum == header_sum(self@),
    {
        let mut sum: u32 = 8 * 32;
        let mut i: usize = 0;
        assert(self@.take(0) =~= Seq::<u8>::empty());
        while i < 148
            invariant
                i <= 148,
                sum == 256 + byte_sum(self@.take(i as int)),
                sum <= 256 + 255 * i,
            decreases 148 - i,
        {
            assert(self@.take(i + 1).drop_last() =~= self@.take(i as int));
            sum = sum + self.bytes[i] as u32;
            i += 1;
        }
        let ghost rest = self@.skip(156);
        assert(rest.take(0) =~= Seq::<u8>::empty());
        i = 156;
        while i < BLOCK
            invariant
                156 <= i <= 512,
                rest == self@.skip(156),
                sum == 256 + byte_sum(self@.take(148)) + byte_sum(rest.take(i - 156)),
                sum <= 256 + 255 * 148 + 255 * (i - 156),
            decreases 512 - i,
        {
            assert(rest.take(i + 1 - 156).drop_last() =~= rest.take(i - 156));
            sum = sum + self.bytes[i] as u32;
            i += 1;
        }
        assert(rest.take(356) =~= rest);
        sum
    }

    /// The checksum that the header states.
    pub fn cksum(&self) -> (sum: Result<u64, TarError>)
        ensures
            sum == match stated_sum(self@) {
                Some(n) => Ok(n),
                None => Err(TarError::InvalidField(Field::Checksum)),
            },
    {
        match octal_from(&self.bytes[148..156]) {
            Some(n) => Ok(n),
            None => Err(TarError::InvalidField(Field::Checksum)),
        }
    }

    /// The number of bytes of the entry that follow in the archive.
    pub fn entry_size(&self) -> (size: Result<u64, TarError>)
        ensures
            size == match stated_size(self@) {
                Some(n) => Ok(n),
                None => Err(TarError::InvalidField(Field::Size)),
            },
    {
        match number_from(&self.bytes[124..136]) {
            Some(n) => Ok(n),
            None => Err(TarError::InvalidField(Field::Size)),
        }
    }

    /// The size of the file that a GNU sparse header describes.
    pub fn real_size(&self) -> (size: Result<u64, TarError>)
        ensures
            size == match stated_real_size(self@) {
                Some(n) => Ok(n),
                None => Err(TarError::InvalidField(Field::RealSize)),
            },
    {
        match number_from(&self.bytes[483..495]) {
            Some(n) => Ok(n),
            None => Err(TarError::InvalidField(Field::RealSize)),
        }
    }

    /// The type of the entry.
    pub fn entry_type(&self) -> (flag: u8)
        ensures
            flag == type_flag(self@),
    {
        self.bytes[156]
    }

    /// `true` if the header is in GNU's format.
    pub fn is_gnu(&self) -> (gnu: bool)
        ensures
            gnu == gnu_header(self@),
    {
        let gnu: bool = self.starts_ustar() && self.bytes[262] == 0x20 && self.bytes[263] == 0x20
            && self.bytes[264] == 0x00;
        proof {
            self.lemma_magic(0x20, 0x20, 0x00);
        }
        gnu
    }

    /// `true` if the header is in the format of POSIX.
    pub fn is_ustar(&self) -> (ustar: bool)
        ensures
            ustar == ustar_header(self@),
    {
        let ustar: bool = self.starts_ustar() && self.bytes[262] == 0x00 && self.bytes[263] == 0x30
            && self.bytes[264] == 0x30;
        proof {
            self.lemma_magic(0x00, 0x30, 0x30);
        }
        ustar
    }

    spec fn magic_starts(self) -> bool {
        self@[257] == 0x75 && self@[258] == 0x73 && self@[259] == 0x74 && self@[260] == 0x61
            && self@[261] == 0x72
    }

    proof fn lemma_magic(self, x: u8, y: u8, z: u8)
        ensures
            (self@.subrange(257, 265) == seq![0x75u8, 0x73, 0x74, 0x61, 0x72, x, y, z]) <==> (
            self.magic_starts() && self@[262] == x && self@[263] == y && self@[264] == z),
    {
        let magic = self@.subrange(257, 265);
        let want = seq![0x75u8, 0x73, 0x74, 0x61, 0x72, x, y, z];
        assert forall|i: int| 0 <= i < 8 implies #[trigger] magic[i] == self@[257 + i] by {}
        if magic == want {
            assert(magic[0] == want[0] && magic[1] == want[1] && magic[2] == want[2]);
            assert(magic[3] == want[3] && magic[4] == want[4] && magic[5] == want[5]);
            assert(magic[6] == want[6] && magic[7] == want[7]);
        } else if self.magic_starts() && self@[262] == x && self@[263] == y && self@[264] == z {
            assert(magic =~= want);
        }
    }

    fn starts_ustar(&self) -> (yes: bool)
        ensures
            yes == self.magic_starts(),
    {
        self.bytes[257] == 0x75 && self.bytes[258] == 0x73 && self.bytes[259] == 0x74
            && self.bytes[260] == 0x61 && self.bytes[261] == 0x72
    }
}

} // verus!
