//! Firmware GUID values and the hexadecimal text form they are written
//! in: `aaaaaaaa-bbbb-cccc-dddd-dddddddddddd`, parsed into the record's
//! one 32-bit, two 16-bit and eight byte-wide fields.

use vstd::prelude::*;

verus! {

broadcast use vstd::slice::group_slice_axioms;

/// A globally unique identifier, as the firmware interfaces key their
/// protocols and configuration tables.
#[derive(Clone, Debug, PartialEq, Eq)]
pub struct GUID {
    pub a: u32,
    pub b: u16,
    pub c: u16,
    pub d: Vec<u8>,
}

/// Whether a byte is an ASCII hexadecimal digit.
pub open spec fn spec_is_hex(c: u8) -> bool {
    (0x30 <= c <= 0x39) || (0x61 <= c <= 0x66) || (0x41 <= c <= 0x46)
}

/// The value of one hexadecimal digit.
pub open spec fn spec_hex_val(c: u8) -> int {
    if 0x30 <= c <= 0x39 {
        c - 0x30
    } else if 0x61 <= c <= 0x66 {
        c - 0x61 + 10
    } else if 0x41 <= c <= 0x46 {
        c - 0x41 + 10
    } else {
        0
    }
}

/// The value of a big-endian run of hexadecimal digits.
pub open spec fn spec_hex_of(b: Seq<u8>) -> int
    decreases b.len(),
{
    if b.len() == 0 {
        0
    } else {
        spec_hex_of(b.take(b.len() as int - 1)) * 16 + spec_hex_val(b[b.len() as int - 1])
    }
}

/// All bytes of a run are hexadecimal digits.
pub open spec fn spec_all_hex(b: Seq<u8>) -> bool {
    forall|i: int| 0 <= i < b.len() ==> spec_is_hex(#[trigger] b[i])
}

/// Decodes one hexadecimal digit.
pub fn hex_val(c: u8) -> (r: Option<u8>)
    ensures
        r is Some <==> spec_is_hex(c),
        r is Some ==> r->Some_0 == spec_hex_val(c) && r->Some_0 < 16,
{
    if 0x30 <= c && c <= 0x39 {
        Some(c - 0x30)
    } else if 0x61 <= c && c <= 0x66 {
        Some(c - 0x61 + 10)
    } else if 0x41 <= c && c <= 0x46 {
        Some(c - 0x41 + 10)
    } else {
        None
    }
}

/// Decodes a fixed-width big-endian hexadecimal field of `text`.
fn hex_field(text: &[u8], start: usize, len: usize) -> (r: Option<u64>)
    requires
        start + len <= text@.len(),
        len <= 16,
    ensures
        r is Some <==> spec_all_hex(text@.subrange(start as int, start + len)),
        r is Some ==> r->Some_0 == spec_hex_of(text@.subrange(start as int, start + len)),
{
    // Materializes the buffer's length so its machine bound is known.
    let n = text.len();
    let mut acc: u64 = 0;
    let mut i: usize = 0;
    while i < len
        invariant
            start + len <= text@.len() <= usize::MAX,
            len <= 16,
            i <= len,
            spec_all_hex(text@.subrange(start as int, start + i as int)),
            acc == spec_hex_of(text@.subrange(start as int, start + i as int)),
        decreases len - i,
    {
        let d = match hex_val(text[start + i]) {
            Some(d) => d,
            None => {
                proof {
                    assert(!spec_is_hex(text@.subrange(start as int, start + len)[i as int]));
                }
                return None;
            },
        };
        proof {
            assert(acc < 0x1000_0000_0000_0000) by {
                lemma_hex_bound(text@.subrange(start as int, start + i as int));
            }
            assert(text@.subrange(start as int, start + i as int + 1).take(i as int) =~= text@.subrange(
                start as int,
                start + i as int,
            ));
            assert(text@.subrange(start as int, start + i as int + 1)[i as int] == text@[start + i]);
        }
        acc = acc * 16 + d as u64;
        i = i + 1;
        proof {
            assert(spec_all_hex(text@.subrange(start as int, start + i as int)));
        }
    }
    proof {
        assert(text@.subrange(start as int, start + len) =~= text@.subrange(
            start as int,
            start + i as int,
        ));
    }
    Some(acc)
}

/// Sixteen to the power `n`.
pub open spec fn pow16(n: int) -> int
    decreases n,
{
    if n <= 0 {
        1
    } else {
        16 * pow16(n - 1)
    }
}

/// The value of an `n`-digit run stays below sixteen to the `n`.
proof fn lemma_hex_digits_bound(b: Seq<u8>)
    ensures
        0 <= spec_hex_of(b) < pow16(b.len() as int),
    decreases b.len(),
{
    if b.len() > 0 {
        let pre = b.take(b.len() as int - 1);
        lemma_hex_digits_bound(pre);
        assert(spec_hex_val(b[b.len() as int - 1]) < 16);
        assert(spec_hex_of(pre) * 16 + 15 < pow16(b.len() as int)) by (nonlinear_arith)
            requires
                spec_hex_of(pre) < pow16(b.len() as int - 1),
                0 <= spec_hex_of(pre),
                pow16(b.len() as int) == 16 * pow16(b.len() as int - 1),
        ;
    }
}

/// The concrete powers the field widths need.
proof fn lemma_pow16_values()
    ensures
        pow16(2) == 0x100,
        pow16(4) == 0x1_0000,
        pow16(8) == 0x1_0000_0000,
        pow16(15) == 0x1000_0000_0000_0000,
        pow16(16) == 0x1_0000_0000_0000_0000,
{
    assert(pow16(0) == 1);
    assert(pow16(1) == 16);
    assert(pow16(2) == 0x100);
    assert(pow16(3) == 0x1000);
    assert(pow16(4) == 0x1_0000);
    assert(pow16(5) == 0x10_0000);
    assert(pow16(6) == 0x100_0000);
    assert(pow16(7) == 0x1000_0000);
    assert(pow16(8) == 0x1_0000_0000);
    assert(pow16(9) == 0x10_0000_0000);
    assert(pow16(10) == 0x100_0000_0000);
    assert(pow16(11) == 0x1000_0000_0000);
    assert(pow16(12) == 0x1_0000_0000_0000);
    assert(pow16(13) == 0x10_0000_0000_0000);
    assert(pow16(14) == 0x100_0000_0000_0000);
    assert(pow16(15) == 0x1000_0000_0000_0000);
    assert(pow16(16) == 0x1_0000_0000_0000_0000);
}

/// A run of at most 16 digits stays below the 64-bit bound.
proof fn lemma_hex_bound(b: Seq<u8>)
    requires
        b.len() <= 16,
    ensures
        spec_hex_of(b) < 0x1_0000_0000_0000_0000,
        b.len() <= 15 ==> spec_hex_of(b) < 0x1000_0000_0000_0000,
        spec_hex_of(b) >= 0,
{
    lemma_hex_digits_bound(b);
    lemma_pow16_values();
    if b.len() < 16 {
        lemma_pow16_monotonic(b.len() as int, 15);
    }
    lemma_pow16_monotonic(b.len() as int, 16);
}

/// Larger exponents give larger powers.
proof fn lemma_pow16_monotonic(a: int, b: int)
    requires
        a <= b,
    ensures
        pow16(a) <= pow16(b),
    decreases b - a,
{
    if a < b {
        lemma_pow16_monotonic(a, b - 1);
        if b > 0 {
            assert(pow16(b) == 16 * pow16(b - 1));
            assert(pow16(b - 1) >= 1) by {
                lemma_pow16_positive(b - 1);
            }
        }
    }
}

/// Powers of sixteen are positive.
proof fn lemma_pow16_positive(n: int)
    ensures
        pow16(n) >= 1,
    decreases n,
{
    if n > 0 {
        lemma_pow16_positive(n - 1);
    }
}

/// Parses the canonical GUID text form: five hexadecimal fields of 8,
/// 4, 4, 4 and 12 digits, separated by dashes. The last two fields
/// together give the record's eight data bytes, two digits each.
pub fn parse_guid(text: &[u8]) -> (r: Option<GUID>)
    ensures
        r is Some ==> {
            &&& text@.len() == 36
            &&& r->Some_0.a == spec_hex_of(text@.subrange(0, 8))
            &&& r->Some_0.b == spec_hex_of(text@.subrange(9, 13))
            &&& r->Some_0.c == spec_hex_of(text@.subrange(14, 18))
            &&& r->Some_0.d@.len() == 8
            &&& forall|k: int|
                0 <= k < 2 ==> #[trigger] r->Some_0.d@[k] == spec_hex_of(
                    text@.subrange(19 + 2 * k, 21 + 2 * k),
                )
            &&& forall|k: int|
                2 <= k < 8 ==> #[trigger] r->Some_0.d@[k] == spec_hex_of(
                    text@.subrange(24 + 2 * (k - 2), 26 + 2 * (k - 2)),
                )
        },
{
    let n = text.len();
    if n != 36 {
        return None;
    }
    if text[8] != 0x2D || text[13] != 0x2D || text[18] != 0x2D || text[23] != 0x2D {
        return None;
    }
    let a = match hex_field(text, 0, 8) {
        Some(v) => v,
        None => {
            return None;
        },
    };
    let b = match hex_field(text, 9, 4) {
        Some(v) => v,
        None => {
            return None;
        },
    };
    let c = match hex_field(text, 14, 4) {
        Some(v) => v,
        None => {
            return None;
        },
    };
    let mut d: Vec<u8> = Vec::new();
    let mut k: usize = 0;
    while k < 2
        invariant
            text@.len() == 36,
            k <= 2,
            d@.len() == k,
            forall|j: int|
                0 <= j < k ==> #[trigger] d@[j] == spec_hex_of(text@.subrange(19 + 2 * j, 21 + 2 * j)),
        decreases 2 - k,
    {
        let v = match hex_field(text, 19 + 2 * k, 2) {
            Some(v) => v,
            None => {
                return None;
            },
        };
        proof {
            lemma_hex_bound(text@.subrange(19 + 2 * k as int, 21 + 2 * k as int));
            lemma_hex_pair_byte(text@.subrange(19 + 2 * k as int, 21 + 2 * k as int));
        }
        d.push(v as u8);
        k = k + 1;
    }
    let mut k: usize = 0;
    while k < 6
        invariant
            text@.len() == 36,
            k <= 6,
            d@.len() == 2 + k,
            forall|j: int|
                0 <= j < 2 ==> #[trigger] d@[j] == spec_hex_of(text@.subrange(19 + 2 * j, 21 + 2 * j)),
            forall|j: int|
                2 <= j < 2 + k ==> #[trigger] d@[j] == spec_hex_of(
                    text@.subrange(24 + 2 * (j - 2), 26 + 2 * (j - 2)),
                ),
        decreases 6 - k,
    {
        let v = match hex_field(text, 24 + 2 * k, 2) {
            Some(v) => v,
            None => {
                return None;
            },
        };
        proof {
            lemma_hex_pair_byte(text@.subrange(24 + 2 * k as int, 26 + 2 * k as int));
        }
        d.push(v as u8);
        k = k + 1;
    }
    proof {
        lemma_hex_bound(text@.subrange(0, 8));
        lemma_hex_bound(text@.subrange(9, 13));
        lemma_hex_bound(text@.subrange(14, 18));
        lemma_hex_u32(text@.subrange(0, 8));
        lemma_hex_u16(text@.subrange(9, 13));
        lemma_hex_u16(text@.subrange(14, 18));
    }
    Some(GUID { a: a as u32, b: b as u16, c: c as u16, d })
}

/// Two digits fit a byte.
proof fn lemma_hex_pair_byte(b: Seq<u8>)
    requires
        b.len() == 2,
    ensures
        0 <= spec_hex_of(b) < 256,
{
    lemma_hex_digits_bound(b);
    lemma_pow16_values();
}

/// Eight digits fit 32 bits.
proof fn lemma_hex_u32(b: Seq<u8>)
    requires
        b.len() <= 8,
    ensures
        0 <= spec_hex_of(b) < 0x1_0000_0000,
{
    lemma_hex_digits_bound(b);
    lemma_pow16_values();
    lemma_pow16_monotonic(b.len() as int, 8);
}

/// Four digits fit 16 bits.
proof fn lemma_hex_u16(b: Seq<u8>)
    requires
        b.len() <= 4,
    ensures
        0 <= spec_hex_of(b) < 0x1_0000,
{
    lemma_hex_digits_bound(b);
    lemma_pow16_values();
    lemma_pow16_monotonic(b.len() as int, 4);
}

/// Widens ASCII text to the 16-bit characters firmware paths take,
/// with a terminating NUL, as the path literals are prepared.
pub fn wide_chars(text: &[u8]) -> (r: Vec<u16>)
    requires
        forall|i: int| 0 <= i < text@.len() ==> #[trigger] text@[i] < 128,
    ensures
        r@.len() == text@.len() + 1,
        forall|i: int| 0 <= i < text@.len() ==> #[trigger] r@[i] == text@[i],
        r@[text@.len() as int] == 0,
{
    let n = text.len();
    let mut out: Vec<u16> = Vec::new();
    let mut i: usize = 0;
    while i < n
        invariant
            n == text@.len() <= usize::MAX,
            i <= n,
            out@.len() == i,
            forall|k: int| 0 <= k < i ==> #[trigger] out@[k] == text@[k],
        decreases n - i,
    {
        out.push(text[i] as u16);
        i = i + 1;
    }
    out.push(0);
    out
}

} // verus!
