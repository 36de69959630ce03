//! What the bytes of a header say.
//!
//! Here stands how numbers and checksums are written into the bytes of a
//! header, apart from how they are read. The laws say that what is written is
//! what is read.

use crate::entry::{EntryIo, EntryView, Options};
use crate::error::{Field, TarError};
use crate::header::{
    all_zero, byte_sum, digits_value, field_text, first_nul, gnu_header, header_sum, is_octal_digit,
    is_space, number, octal_number, stated_real_size, stated_size, stated_sum, text_end, text_start,
    type_flag, ustar_header,
};
use crate::machine::raw_entry;
use vstd::arithmetic::power::{lemma_pow0, lemma_pow_positive, pow};
use vstd::prelude::*;

verus! {

/// `true` for a byte that may stand around an octal number.
pub open spec fn blank(b: u8) -> bool {
    b == 0x20 || b == 0x09 || b == 0x0a || b == 0x0b || b == 0x0c || b == 0x0d
}

/// `true` if the number `n` is written into the field `s` in octal: the digits
/// of `n`, leading zeros among them, stand from `lo` to `hi`; what else stands
/// before `end` is blank; and at `end` the field ends, or a zero byte stands.
pub open spec fn octal_at(s: Seq<u8>, n: int, lo: int, hi: int, end: int) -> bool {
    &&& 0 <= lo < hi <= end <= s.len()
    &&& 0 <= n < pow(8, (hi - lo) as nat)
    &&& forall|i: int| 0 <= i < lo || hi <= i < end ==> blank(#[trigger] s[i])
    &&& forall|i: int|
        lo <= i < hi ==> #[trigger] s[i] == 0x30 + n / pow(8, (hi - 1 - i) as nat) % 8
    &&& end == s.len() || s[end] == 0
}

/// `true` if the number `n` is written into the field `s` in octal.
pub open spec fn octal_written(s: Seq<u8>, n: int) -> bool {
    exists|lo: int, hi: int, end: int| #[trigger] octal_at(s, n, lo, hi, end)
}

/// `true` if the number `n` is written into the field `s` in binary: the first
/// bit is set, and the last eight bytes are those of `n`, the most significant
/// one first.
pub open spec fn binary_written(s: Seq<u8>, n: int) -> bool {
    &&& 8 < s.len()
    &&& s[0] >= 0x80
    &&& 0 <= n <= u64::MAX
    &&& forall|i: int|
        s.len() - 8 <= i < s.len() ==> #[trigger] s[i] == n / pow(
            256,
            (s.len() - 1 - i) as nat,
        ) % 256
}

/// `true` if the number `n` is written into the numeric field `s`.
pub open spec fn written(s: Seq<u8>, n: int) -> bool {
    n <= u64::MAX && (octal_written(s, n) || binary_written(s, n))
}

/// `true` for a byte that is part of no octal number: a digit from `8` on, a
/// letter, a sign but for a plus, a control character, or one that is part of
/// no text.
pub open spec fn out_of_place(b: u8) -> bool {
    ||| 0x38 <= b <= 0xc1
    ||| 0xf5 <= b
    ||| 0x01 <= b < 0x09
    ||| 0x0d < b < 0x20
    ||| 0x20 < b < 0x30 && b != 0x2b
}

/// `true` if the field `s` is blank up to `end`, where it ends or a zero byte
/// stands.
pub open spec fn blank_until(s: Seq<u8>, end: int) -> bool {
    &&& 0 <= end <= s.len()
    &&& forall|i: int| 0 <= i < end ==> blank(#[trigger] s[i])
    &&& end == s.len() || s[end] == 0
}

/// `true` if the byte at `k` of the field `s` is out of place, and no zero byte
/// stands before it.
pub open spec fn wrong_at(s: Seq<u8>, k: int) -> bool {
    &&& 0 <= k < s.len()
    &&& out_of_place(s[k])
    &&& forall|i: int| 0 <= i < k ==> #[trigger] s[i] != 0
}

/// `true` if the byte at `j` of the field `s` is blank, those at `i` and `k`
/// are not, and no zero byte stands before the last of them.
pub open spec fn split_at(s: Seq<u8>, i: int, j: int, k: int) -> bool {
    &&& 0 <= i < j < k < s.len()
    &&& !blank(s[i])
    &&& blank(s[j])
    &&& !blank(s[k])
    &&& forall|x: int| 0 <= x <= k ==> #[trigger] s[x] != 0
}

/// `true` if no octal number is written into the field `s`: it is blank, there
/// is a byte out of place before any zero byte, something blank stands among
/// the digits, or the number is larger than a `u64`.
pub open spec fn no_octal(s: Seq<u8>) -> bool {
    ||| exists|end: int| #[trigger] blank_until(s, end)
    ||| exists|k: int| #[trigger] wrong_at(s, k)
    ||| exists|i: int, j: int, k: int| #[trigger] split_at(s, i, j, k)
    ||| exists|n: int| n > u64::MAX && #[trigger] octal_written(s, n)
}

/// `true` if no number is written into the numeric field `s`.
pub open spec fn no_number(s: Seq<u8>) -> bool {
    0 < s.len() && s[0] < 0x80 && no_octal(s)
}

/// Digits to a base, the first one counting most, stand for the number that
/// they were taken from.
proof fn lemma_digits(t: Seq<u8>, n: int, base: nat, zero: u8)
    requires
        2 <= base,
        0 <= n < pow(base as int, t.len()),
        forall|i: int|
            0 <= i < t.len() ==> #[trigger] t[i] == zero + n / pow(
                base as int,
                (t.len() - 1 - i) as nat,
            ) % (base as int),
    ensures
        digits_value(t, base, zero) == n,
    decreases t.len(),
{
    let b = base as int;
    lemma_pow0(b);
    if t.len() > 0 {
        let rest = t.drop_last();
        let m = n / b;
        let len = rest.len();
        assert(pow(b, t.len()) == b * pow(b, len)) by {
            reveal(pow);
        }
        vstd::arithmetic::div_mod::lemma_multiply_divide_lt(n, b, pow(b, len));
        vstd::arithmetic::div_mod::lemma_div_pos_is_pos(n, b);
        vstd::arithmetic::div_mod::lemma_fundamental_div_mod(n, b);
        assert forall|i: int| 0 <= i < rest.len() implies #[trigger] rest[i] == zero + m / pow(
            b,
            (rest.len() - 1 - i) as nat,
        ) % b by {
            let k = (rest.len() - 1 - i) as nat;
            assert(pow(b, k + 1) == b * pow(b, k)) by {
                reveal(pow);
            }
            lemma_pow_positive(b, k);
            vstd::arithmetic::div_mod::lemma_div_denominator(n, b, pow(b, k));
            assert(t.len() - 1 - i == k + 1);
            assert(rest[i] == t[i]);
        }
        lemma_digits(rest, m, base, zero);
        assert(t[t.len() - 1] == zero + n / pow(b, 0) % b);
        assert(n / 1 == n);
        assert(digits_value(t, base, zero) == m * base + n % b);
        assert(m * b == b * m) by (nonlinear_arith);
    }
}

proof fn lemma_first_nul(s: Seq<u8>, i: int, end: int)
    requires
        0 <= i <= end <= s.len(),
        forall|j: int| i <= j < end ==> #[trigger] s[j] != 0,
        end == s.len() || s[end] == 0,
    ensures
        first_nul(s, i) == end,
    decreases end - i,
{
    if i < end {
        lemma_first_nul(s, i + 1, end);
    }
}

proof fn lemma_text_start(s: Seq<u8>, i: int, lo: int, hi: int)
    requires
        i <= lo <= hi,
        forall|j: int| i <= j < lo ==> is_space(#[trigger] s[j]),
        lo == hi || !is_space(s[lo]),
    ensures
        text_start(s, i, hi) == lo,
    decreases lo - i,
{
    if i < lo {
        lemma_text_start(s, i + 1, lo, hi);
    }
}

proof fn lemma_text_end(s: Seq<u8>, lo: int, hi: int, end: int)
    requires
        lo <= hi <= end,
        forall|j: int| hi <= j < end ==> is_space(#[trigger] s[j]),
        lo == hi || !is_space(s[hi - 1]),
    ensures
        text_end(s, lo, end) == hi,
    decreases end - hi,
{
    if hi < end {
        assert(is_space(s[end - 1]));
        lemma_text_end(s, lo, hi, end - 1);
    }
}

/// A number that is written into a field in octal is read from it, if a `u64`
/// can hold it, and none is read otherwise.
pub proof fn law_octal_is_read(s: Seq<u8>, n: int)
    requires
        octal_written(s, n),
    ensures
        octal_number(s) == if n <= u64::MAX {
            Some(n as u64)
        } else {
            None::<u64>
        },
        s[0] < 0x80,
{
    let (lo, hi, end) = choose|lo: int, hi: int, end: int| #[trigger] octal_at(s, n, lo, hi, end);
    assert forall|i: int| lo <= i < hi implies is_octal_digit(#[trigger] s[i]) by {
        let q = n / pow(8, (hi - 1 - i) as nat);
        assert(0 <= q % 8 < 8);
    }
    assert forall|i: int| 0 <= i < end implies #[trigger] s[i] != 0 && s[i] < 0x80 by {
        if i < lo || hi <= i {
            assert(blank(s[i]));
        } else {
            assert(is_octal_digit(s[i]));
        }
    }
    lemma_first_nul(s, 0, end);
    assert forall|j: int| 0 <= j < lo || hi <= j < end implies is_space(#[trigger] s[j]) by {
        assert(blank(s[j]));
    }
    assert(is_octal_digit(s[lo]) && is_octal_digit(s[hi - 1]));
    lemma_text_start(s, 0, lo, end);
    lemma_text_end(s, lo, hi, end);
    let text = s.subrange(lo, hi);
    assert(field_text(s) == text);
    assert forall|i: int| 0 <= i < text.len() implies is_octal_digit(#[trigger] text[i]) by {
        assert(text[i] == s[lo + i]);
    }
    assert forall|i: int| 0 <= i < text.len() implies #[trigger] text[i] == 0x30 + n / pow(
        8,
        (text.len() - 1 - i) as nat,
    ) % 8 by {
        assert(text[i] == s[lo + i]);
        assert(hi - 1 - (lo + i) == text.len() - 1 - i);
    }
    lemma_digits(text, n, 8, 0x30);
}

/// Where no octal number is written into a field, none is read from it.
pub proof fn law_no_octal_is_read(s: Seq<u8>)
    requires
        no_octal(s),
    ensures
        octal_number(s) is None,
{
    if exists|n: int| n > u64::MAX && #[trigger] octal_written(s, n) {
        let n = choose|n: int| n > u64::MAX && #[trigger] octal_written(s, n);
        law_octal_is_read(s, n);
    } else {
        let end = first_nul(s, 0);
        lemma_nul_is_first(s, 0);
        let lo = text_start(s, 0, end);
        lemma_start_is_first(s, 0, end);
        let hi = text_end(s, lo, end);
        lemma_end_is_last(s, lo, end);
        let text = field_text(s);
        assert(text =~= s.subrange(lo, hi));
        if exists|k: int| #[trigger] wrong_at(s, k) {
            let k = choose|k: int| #[trigger] wrong_at(s, k);
            assert(k < end);
            assert(lo <= k < hi);
            assert(text[k - lo] == s[k]);
        } else if exists|i: int, j: int, k: int| #[trigger] split_at(s, i, j, k) {
            let (i, j, k) = choose|i: int, j: int, k: int| #[trigger] split_at(s, i, j, k);
            assert(k < end);
            assert(lo <= i && k < hi);
            assert(text[j - lo] == s[j]);
            assert(!is_octal_digit(s[j]));
        } else {
            let e = choose|e: int| #[trigger] blank_until(s, e);
            if end < s.len() && end < e {
                assert(blank(s[end]));
            }
            assert(end <= e);
            if lo < end {
                assert(blank(s[lo]));
            }
            assert(text.len() == 0);
        }
    }
}

proof fn lemma_nul_is_first(s: Seq<u8>, i: int)
    requires
        0 <= i <= s.len(),
    ensures
        i <= first_nul(s, i) <= s.len(),
        forall|j: int| i <= j < first_nul(s, i) ==> #[trigger] s[j] != 0,
        first_nul(s, i) < s.len() ==> s[first_nul(s, i)] == 0,
    decreases s.len() - i,
{
    if i < s.len() && s[i] != 0 {
        lemma_nul_is_first(s, i + 1);
    }
}

proof fn lemma_start_is_first(s: Seq<u8>, lo: int, hi: int)
    requires
        lo <= hi,
    ensures
        lo <= text_start(s, lo, hi) <= hi,
        forall|j: int| lo <= j < text_start(s, lo, hi) ==> is_space(#[trigger] s[j]),
        text_start(s, lo, hi) < hi ==> !is_space(s[text_start(s, lo, hi)]),
    decreases hi - lo,
{
    if lo < hi && is_space(s[lo]) {
        lemma_start_is_first(s, lo + 1, hi);
    }
}

proof fn lemma_end_is_last(s: Seq<u8>, lo: int, hi: int)
    requires
        lo <= hi,
    ensures
        lo <= text_end(s, lo, hi) <= hi,
        forall|j: int| text_end(s, lo, hi) <= j < hi ==> is_space(#[trigger] s[j]),
    decreases hi - lo,
{
    if lo < hi && is_space(s[hi - 1]) {
        lemma_end_is_last(s, lo, hi - 1);
    }
}

/// A number that is written into a numeric field, in octal or in binary, is
/// read from it.
pub proof fn law_number_is_read(s: Seq<u8>, n: int)
    requires
        written(s, n),
    ensures
        number(s) == Some(n as u64),
        0 <= n,
{
    if octal_written(s, n) {
        law_octal_is_read(s, n);
    } else {
        let low = s.skip(s.len() - 8);
        assert forall|i: int| 0 <= i < low.len() implies #[trigger] low[i] == 0 + n / pow(
            256,
            (low.len() - 1 - i) as nat,
        ) % 256 by {
            assert(low[i] == s[s.len() - 8 + i]);
            assert(s.len() - 1 - (s.len() - 8 + i) == low.len() - 1 - i);
        }
        assert(pow(256, 8) == 0x1_0000_0000_0000_0000) by {
            reveal_with_fuel(pow, 9);
        }
        lemma_digits(low, n, 256, 0);
    }
}

/// Where no number is written into a numeric field, none is read from it.
pub proof fn law_no_number_is_read(s: Seq<u8>)
    requires
        no_number(s),
    ensures
        number(s) is None,
{
    law_no_octal_is_read(s);
}

/// Any octal digits are those of a number, with blanks around them and a zero
/// byte or the end of the field behind.
pub proof fn law_any_digits_are_a_number(s: Seq<u8>, lo: int, hi: int, end: int)
    requires
        0 <= lo < hi <= end <= s.len(),
        forall|i: int| 0 <= i < lo || hi <= i < end ==> blank(#[trigger] s[i]),
        forall|i: int| lo <= i < hi ==> 0x30 <= #[trigger] s[i] <= 0x37,
        end == s.len() || s[end] == 0,
    ensures
        exists|n: int| #[trigger] octal_written(s, n),
{
    let text = s.subrange(lo, hi);
    let n = digits_value(text, 8, 0x30) as int;
    lemma_digits_of(text, 8, 0x30);
    assert forall|i: int| lo <= i < hi implies #[trigger] s[i] == 0x30 + n / pow(
        8,
        (hi - 1 - i) as nat,
    ) % 8 by {
        assert(text[i - lo] == s[i]);
        assert(text.len() - 1 - (i - lo) == hi - 1 - i);
    }
    assert(octal_at(s, n, lo, hi, end));
    assert(octal_written(s, n));
}

/// Any bytes behind a set bit are those of a number.
pub proof fn law_any_bytes_are_a_number(s: Seq<u8>)
    requires
        s.len() == 12,
        s[0] >= 0x80,
    ensures
        exists|n: int| #[trigger] binary_written(s, n),
{
    let low = s.skip(4);
    let n = digits_value(low, 256, 0) as int;
    lemma_digits_of(low, 256, 0);
    assert(pow(256, 8) == 0x1_0000_0000_0000_0000) by {
        reveal_with_fuel(pow, 9);
    }
    assert forall|i: int| 4 <= i < 12 implies #[trigger] s[i] == n / pow(
        256,
        (11 - i) as nat,
    ) % 256 by {
        assert(low[i - 4] == s[i]);
    }
    assert(binary_written(s, n));
}

/// The digits of the number that some digits stand for are these digits.
proof fn lemma_digits_of(t: Seq<u8>, base: nat, zero: u8)
    requires
        2 <= base,
        forall|i: int| 0 <= i < t.len() ==> zero <= #[trigger] t[i] < zero + base,
    ensures
        digits_value(t, base, zero) < pow(base as int, t.len()),
        forall|i: int|
            0 <= i < t.len() ==> #[trigger] t[i] == zero + digits_value(t, base, zero) as int / pow(
                base as int,
                (t.len() - 1 - i) as nat,
            ) % (base as int),
    decreases t.len(),
{
    let b = base as int;
    lemma_pow0(b);
    if t.len() > 0 {
        let rest = t.drop_last();
        let n = digits_value(t, base, zero) as int;
        let m = digits_value(rest, base, zero) as int;
        let d = t.last() - zero;
        assert forall|i: int| 0 <= i < rest.len() implies zero <= #[trigger] rest[i] < zero
            + base by {
            assert(rest[i] == t[i]);
        }
        lemma_digits_of(rest, base, zero);
        assert(zero <= t[t.len() - 1] < zero + base);
        assert(m * base == b * m) by (nonlinear_arith)
            requires
                b == base,
        ;
        assert(n == b * m + d);
        vstd::arithmetic::div_mod::lemma_fundamental_div_mod_converse(n, b, m, d);
        let less = pow(b, rest.len());
        assert(pow(b, t.len()) == b * less) by {
            reveal(pow);
        }
        assert(b * m + d < b * less) by (nonlinear_arith)
            requires
                m + 1 <= less,
                0 <= d < b,
        ;
        assert forall|i: int| 0 <= i < t.len() implies #[trigger] t[i] == zero + n / pow(
            b,
            (t.len() - 1 - i) as nat,
        ) % b by {
            if i < rest.len() {
                let k = (rest.len() - 1 - i) as nat;
                assert(pow(b, k + 1) == b * pow(b, k)) by {
                    reveal(pow);
                }
                lemma_pow_positive(b, k);
                vstd::arithmetic::div_mod::lemma_div_denominator(n, b, pow(b, k));
                assert(t.len() - 1 - i == k + 1);
                assert(rest[i] == t[i]);
            } else {
                assert(n / 1 == n);
            }
        }
    }
}

/// The size that is written into a header is read from it, in whatever layout
/// it is written, and so are the size of the file of a sparse entry and the
/// checksum; where no number is written, none is read.
pub proof fn law_sizes_are_read(h: Seq<u8>, n: int)
    requires
        h.len() == 512,
    ensures
        written(h.subrange(124, 136), n) ==> stated_size(h) == Some(n as u64),
        no_number(h.subrange(124, 136)) ==> stated_size(h) is None,
        written(h.subrange(483, 495), n) ==> stated_real_size(h) == Some(n as u64),
        no_number(h.subrange(483, 495)) ==> stated_real_size(h) is None,
        octal_written(h.subrange(148, 156), n) ==> stated_sum(h) == Some(n as u64),
        no_octal(h.subrange(148, 156)) ==> stated_sum(h) is None,
{
    let size = h.subrange(124, 136);
    let real_size = h.subrange(483, 495);
    if written(size, n) {
        law_number_is_read(size, n);
    }
    if no_number(size) {
        law_no_number_is_read(size);
    }
    if written(real_size, n) {
        law_number_is_read(real_size, n);
    }
    if no_number(real_size) {
        law_no_number_is_read(real_size);
    }
    let sum = h.subrange(148, 156);
    if octal_written(sum, n) {
        law_octal_is_read(sum, n);
        lemma_eight_digits(sum, n);
    }
    if no_octal(sum) {
        law_no_octal_is_read(sum);
    }
}

/// A header has the type that its type byte says, is of GNU or of POSIX if the
/// eight bytes of the magic say so, and is zero if each of its bytes is.
pub proof fn law_header_is_what_its_bytes_say(h: Seq<u8>)
    requires
        h.len() == 512,
    ensures
        type_flag(h) == h[156],
        gnu_header(h) <==> h[257] == 0x75 && h[258] == 0x73 && h[259] == 0x74 && h[260] == 0x61
            && h[261] == 0x72 && h[262] == 0x20 && h[263] == 0x20 && h[264] == 0x00,
        ustar_header(h) <==> h[257] == 0x75 && h[258] == 0x73 && h[259] == 0x74 && h[260] == 0x61
            && h[261] == 0x72 && h[262] == 0x00 && h[263] == 0x30 && h[264] == 0x30,
        all_zero(h) <==> forall|i: int| 0 <= i < 512 ==> #[trigger] h[i] == 0,
{
    let magic = h.subrange(257, 265);
    assert forall|i: int| 0 <= i < 8 implies #[trigger] magic[i] == h[257 + i] by {}
    assert(magic[0] == h[257] && magic[1] == h[258] && magic[2] == h[259] && magic[3] == h[260]);
    assert(magic[4] == h[261] && magic[5] == h[262] && magic[6] == h[263] && magic[7] == h[264]);
    if h[257] == 0x75 && h[258] == 0x73 && h[259] == 0x74 && h[260] == 0x61 && h[261] == 0x72 {
        assert(magic =~= seq![0x75u8, 0x73, 0x74, 0x61, 0x72, h[262], h[263], h[264]]);
    }
}

/// A size of eleven octal digits and a zero byte is the number of these digits,
/// each counting eight times as much as the one behind it.
pub proof fn law_eleven_digits_are_the_size(h: Seq<u8>, at: int, options: Options)
    requires
        h.len() == 512,
        forall|i: int| 124 <= i < 135 ==> 0x30 <= #[trigger] h[i] <= 0x37,
        h[135] == 0,
    ensures
        ({
            let n = (h[124] - 0x30) * 1073741824 + (h[125] - 0x30) * 134217728 + (h[126] - 0x30)
                * 16777216 + (h[127] - 0x30) * 2097152 + (h[128] - 0x30) * 262144 + (h[129] - 0x30)
                * 32768 + (h[130] - 0x30) * 4096 + (h[131] - 0x30) * 512 + (h[132] - 0x30) * 64 + (
            h[133] - 0x30) * 8 + (h[134] - 0x30);
            &&& stated_size(h) == Some(n as u64)
            &&& 0 <= n < 8589934592
            &&& raw_entry(h, at, options) matches Ok(e) ==> e.size == n && e.data == seq![
                EntryIo::Data(n as u64),
            ]
        }),
{
    let s = h.subrange(124, 136);
    let text = s.take(11);
    assert forall|i: int| 0 <= i < 11 implies is_octal_digit(#[trigger] s[i]) && s[i] == h[124 + i]
        && text[i] == h[124 + i] by {}
    lemma_first_nul(s, 0, 11);
    assert(is_octal_digit(s[0]) && is_octal_digit(s[10]));
    lemma_text_start(s, 0, 0, 11);
    lemma_text_end(s, 0, 11, 11);
    assert(field_text(s) =~= text);
    assert forall|i: int| 0 <= i < text.len() implies is_octal_digit(#[trigger] text[i]) by {
        assert(is_octal_digit(s[i]));
    }
    lemma_eleven_digits(text);
}

proof fn lemma_eleven_digits(t: Seq<u8>)
    requires
        t.len() == 11,
        forall|i: int| 0 <= i < 11 ==> is_octal_digit(#[trigger] t[i]),
    ensures
        digits_value(t, 8, 0x30) == (t[0] - 0x30) * 1073741824 + (t[1] - 0x30) * 134217728 + (t[2]
            - 0x30) * 16777216 + (t[3] - 0x30) * 2097152 + (t[4] - 0x30) * 262144 + (t[5] - 0x30)
            * 32768 + (t[6] - 0x30) * 4096 + (t[7] - 0x30) * 512 + (t[8] - 0x30) * 64 + (t[9]
            - 0x30) * 8 + (t[10] - 0x30),
        digits_value(t, 8, 0x30) < 8589934592,
{
    assert(is_octal_digit(t[0]) && is_octal_digit(t[1]) && is_octal_digit(t[2]));
    assert(is_octal_digit(t[3]) && is_octal_digit(t[4]) && is_octal_digit(t[5]));
    assert(is_octal_digit(t[6]) && is_octal_digit(t[7]) && is_octal_digit(t[8]));
    assert(is_octal_digit(t[9]) && is_octal_digit(t[10]));
    assert(t.take(11) =~= t);
    lemma_digits_step(t, 0);
    lemma_digits_step(t, 1);
    lemma_digits_step(t, 2);
    lemma_digits_step(t, 3);
    lemma_digits_step(t, 4);
    lemma_digits_step(t, 5);
    lemma_digits_step(t, 6);
    lemma_digits_step(t, 7);
    lemma_digits_step(t, 8);
    lemma_digits_step(t, 9);
    lemma_digits_step(t, 10);
    assert(t.take(0) =~= Seq::<u8>::empty());
    assert(digits_value(t.take(0), 8, 0x30) == 0);
}

proof fn lemma_digits_step(t: Seq<u8>, i: int)
    requires
        0 <= i < t.len(),
        is_octal_digit(t[i]),
    ensures
        digits_value(t.take(i + 1), 8, 0x30) == digits_value(t.take(i), 8, 0x30) * 8 + (t[i]
            - 0x30),
{
    assert(t.take(i + 1).drop_last() =~= t.take(i));
}

/// What the bytes of a header add up to, with spaces in place of the eight bytes
/// of its checksum.
pub open spec fn sum_with_spaces(h: Seq<u8>) -> int {
    Seq::new(
        512,
        |i: int|
            if 148 <= i < 156 {
                0x20u8
            } else {
                h[i]
            },
    ).fold_left(0int, |sum: int, b: u8| sum + b)
}

proof fn lemma_byte_sum(s: Seq<u8>)
    ensures
        s.fold_left(0int, |sum: int, b: u8| sum + b) == byte_sum(s),
    decreases s.len(),
{
    if s.len() > 0 {
        lemma_byte_sum(s.drop_last());
    }
}

proof fn lemma_byte_sum_joins(s: Seq<u8>, more: Seq<u8>)
    ensures
        byte_sum(s + more) == byte_sum(s) + byte_sum(more),
    decreases more.len(),
{
    if more.len() == 0 {
        assert(s + more =~= s);
    } else {
        assert((s + more).drop_last() =~= s + more.drop_last());
        lemma_byte_sum_joins(s, more.drop_last());
    }
}

/// The checksum of a header counts every byte of it, and those of the checksum
/// itself as spaces.
pub proof fn law_every_byte_is_counted(h: Seq<u8>)
    requires
        h.len() == 512,
    ensures
        header_sum(h) == sum_with_spaces(h),
{
    let spaces = seq![0x20u8, 0x20, 0x20, 0x20, 0x20, 0x20, 0x20, 0x20];
    let all = Seq::new(
        512,
        |i: int|
            if 148 <= i < 156 {
                0x20u8
            } else {
                h[i]
            },
    );
    assert(all =~= h.take(148) + spaces + h.skip(156));
    lemma_byte_sum(all);
    lemma_byte_sum_joins(h.take(148) + spaces, h.skip(156));
    lemma_byte_sum_joins(h.take(148), spaces);
    lemma_eight_spaces(spaces);
}

proof fn lemma_eight_spaces(s: Seq<u8>)
    requires
        s.len() == 8,
        forall|i: int| 0 <= i < 8 ==> #[trigger] s[i] == 0x20,
    ensures
        byte_sum(s) == 256,
{
    reveal_with_fuel(byte_sum, 9);
}

/// `true` if `h` is a header for `n` bytes: the sum of its bytes is written into
/// the checksum field, and `n` into the field for the size.
pub open spec fn sound(h: Seq<u8>, n: int) -> bool {
    &&& h.len() == 512
    &&& octal_written(h.subrange(148, 156), sum_with_spaces(h))
    &&& written(h.subrange(124, 136), n)
}

/// A header is accepted if what its bytes add up to is written into it in any
/// layout, and a size is. The entry then has that size, its contents are one
/// stretch behind the header, and nothing was said of it before.
pub proof fn law_sound_header_is_accepted(h: Seq<u8>, n: int, at: int, options: Options)
    requires
        sound(h, n),
    ensures
        raw_entry(h, at, options) matches Ok(e) && {
            &&& e.size == n
            &&& e.header_pos == at
            &&& e.file_pos == at + 512
            &&& e.data == seq![EntryIo::Data(n as u64)]
            &&& e.header == h
            &&& e.members.long_pathname is None
            &&& e.members.long_linkname is None
            &&& e.members.pax_extensions is None
            &&& e.unpack_xattrs == options.unpack_xattrs
            &&& e.preserve_permissions == options.preserve_permissions
            &&& e.preserve_mtime == options.preserve_mtime
        },
        stated_sum(h) == Some(sum_with_spaces(h) as u64),
        stated_size(h) == Some(n as u64),
        0 <= n <= u64::MAX,
{
    law_every_byte_is_counted(h);
    lemma_sum_bound(h);
    law_octal_is_read(h.subrange(148, 156), sum_with_spaces(h));
    law_number_is_read(h.subrange(124, 136), n);
}

proof fn lemma_sum_bound(h: Seq<u8>)
    requires
        h.len() == 512,
    ensures
        header_sum(h) <= 512 * 255,
{
    lemma_byte_sum_bound(h.take(148));
    lemma_byte_sum_bound(h.skip(156));
}

proof fn lemma_byte_sum_bound(s: Seq<u8>)
    ensures
        byte_sum(s) <= 255 * s.len(),
    decreases s.len(),
{
    if s.len() > 0 {
        lemma_byte_sum_bound(s.drop_last());
    }
}

/// A header is refused if another number than the sum of its bytes is written
/// into it as its checksum, or none, and if no size is.
pub proof fn law_unsound_header_is_refused(h: Seq<u8>, m: int, at: int, options: Options)
    requires
        h.len() == 512,
    ensures
        octal_written(h.subrange(148, 156), m) && m != sum_with_spaces(h) ==> raw_entry(
            h,
            at,
            options,
        ) == Err::<EntryView, TarError>(TarError::ChecksumMismatch),
        no_octal(h.subrange(148, 156)) ==> raw_entry(h, at, options) == Err::<EntryView, TarError>(
            TarError::InvalidField(Field::Checksum),
        ),
        octal_written(h.subrange(148, 156), sum_with_spaces(h)) && no_number(
            h.subrange(124, 136),
        ) ==> raw_entry(h, at, options) == Err::<EntryView, TarError>(
            TarError::InvalidField(Field::Size),
        ),
{
    let field = h.subrange(148, 156);
    law_every_byte_is_counted(h);
    lemma_sum_bound(h);
    if octal_written(field, m) {
        law_octal_is_read(field, m);
        lemma_eight_digits(field, m);
    }
    if no_octal(field) {
        law_no_octal_is_read(field);
    }
    if octal_written(field, sum_with_spaces(h)) {
        law_octal_is_read(field, sum_with_spaces(h));
        if no_number(h.subrange(124, 136)) {
            law_no_number_is_read(h.subrange(124, 136));
        }
    }
}

/// Eight digits never need more than a `u64`.
proof fn lemma_eight_digits(s: Seq<u8>, n: int)
    requires
        s.len() == 8,
        octal_written(s, n),
    ensures
        n <= u64::MAX,
{
    let (lo, hi, end) = choose|lo: int, hi: int, end: int| #[trigger] octal_at(s, n, lo, hi, end);
    vstd::arithmetic::power::lemma_pow_increases(8, (hi - lo) as nat, 8);
    assert(pow(8, 8) == 16777216) by {
        reveal_with_fuel(pow, 9);
    }
}

} // verus!
