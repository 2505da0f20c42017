//! Parsing of the update trigger arguments `<len>:<crc32>`: a decimal length
//! and a hexadecimal checksum, both as `u32`.

use vstd::prelude::*;

verus! {

/// Value of an ASCII decimal digit.
pub open spec fn dec_digit(b: u8) -> int {
    b - 48
}

/// `b` is one of `0`..=`9`.
pub open spec fn is_dec_digit(b: u8) -> bool {
    48 <= b <= 57
}

/// `b` is one of `0`..=`9`, `a`..=`f`, `A`..=`F`.
pub open spec fn is_hex_digit(b: u8) -> bool {
    (48 <= b <= 57) || (97 <= b <= 102) || (65 <= b <= 70)
}

/// Value of an ASCII hexadecimal digit (either case).
pub open spec fn hex_digit(b: u8) -> int {
    if 48 <= b <= 57 {
        b - 48
    } else if 97 <= b <= 102 {
        b - 97 + 10
    } else {
        b - 65 + 10
    }
}

pub open spec fn all_dec_digits(s: Seq<u8>) -> bool {
    forall|i: int| 0 <= i < s.len() ==> #[trigger] is_dec_digit(s[i])
}

pub open spec fn all_hex_digits(s: Seq<u8>) -> bool {
    forall|i: int| 0 <= i < s.len() ==> #[trigger] is_hex_digit(s[i])
}

/// The number that the decimal digits `s` denote (most significant first).
pub open spec fn dec_value(s: Seq<u8>) -> int
    decreases s.len(),
{
    if s.len() == 0 {
        0
    } else {
        dec_value(s.drop_last()) * 10 + dec_digit(s.last())
    }
}

/// The number that the hexadecimal digits `s` denote (most significant first).
pub open spec fn hex_value(s: Seq<u8>) -> int
    decreases s.len(),
{
    if s.len() == 0 {
        0
    } else {
        hex_value(s.drop_last()) * 16 + hex_digit(s.last())
    }
}

/// A non-empty run of decimal digits whose value fits in a `u32`; anything
/// else (a sign, a space, an empty field, an overflow) is rejected.
pub open spec fn dec_u32(s: Seq<u8>) -> Option<u32> {
    if s.len() > 0 && all_dec_digits(s) && dec_value(s) <= u32::MAX {
        Some(dec_value(s) as u32)
    } else {
        None
    }
}

/// A non-empty run of hexadecimal digits (either case, no `0x`) whose value
/// fits in a `u32`.
pub open spec fn hex_u32(s: Seq<u8>) -> Option<u32> {
    if s.len() > 0 && all_hex_digits(s) && hex_value(s) <= u32::MAX {
        Some(hex_value(s) as u32)
    } else {
        None
    }
}

/// Index of the first `:` in `s`, if any.
pub open spec fn first_colon(s: Seq<u8>) -> Option<int>
    decreases s.len(),
{
    if s.len() == 0 {
        None
    } else if s[0] == 58 {
        Some(0)
    } else {
        match first_colon(s.drop_first()) {
            Some(i) => Some(i + 1),
            None => None,
        }
    }
}

/// `<len>:<crc32>` split at the first colon: a decimal length before it and a
/// hexadecimal checksum after it (which may not hold another colon).
pub open spec fn trigger_args(s: Seq<u8>) -> Option<(u32, u32)> {
    match first_colon(s) {
        None => None,
        Some(c) => match (dec_u32(s.subrange(0, c)), hex_u32(s.subrange(c + 1, s.len() as int))) {
            (Some(len), Some(crc)) => Some((len, crc)),
            _ => None,
        },
    }
}

proof fn lemma_dec_prefix_le(s: Seq<u8>, i: int)
    requires
        0 <= i <= s.len(),
        all_dec_digits(s),
    ensures
        dec_value(s.take(i)) <= dec_value(s),
        0 <= dec_value(s.take(i)),
    decreases s.len() - i,
{
    assert forall|k: int| 0 <= k < i implies #[trigger] is_dec_digit(s.take(i)[k]) by {
        assert(s.take(i)[k] == s[k]);
    }
    lemma_dec_nonneg(s.take(i));
    if i < s.len() {
        lemma_dec_prefix_le(s, i + 1);
        let t = s.take(i + 1);
        assert(t.drop_last() =~= s.take(i));
        assert(is_dec_digit(t[i]));
    } else {
        assert(s.take(i) =~= s);
    }
}

proof fn lemma_dec_nonneg(s: Seq<u8>)
    requires
        all_dec_digits(s),
    ensures
        0 <= dec_value(s),
    decreases s.len(),
{
    if s.len() > 0 {
        lemma_dec_nonneg(s.drop_last());
        assert(is_dec_digit(s[s.len() - 1]));
    }
}

proof fn lemma_hex_nonneg(s: Seq<u8>)
    requires
        all_hex_digits(s),
    ensures
        0 <= hex_value(s),
    decreases s.len(),
{
    if s.len() > 0 {
        lemma_hex_nonneg(s.drop_last());
        assert(is_hex_digit(s[s.len() - 1]));
    }
}

proof fn lemma_hex_prefix_le(s: Seq<u8>, i: int)
    requires
        0 <= i <= s.len(),
        all_hex_digits(s),
    ensures
        hex_value(s.take(i)) <= hex_value(s),
    decreases s.len() - i,
{
    if i < s.len() {
        lemma_hex_prefix_le(s, i + 1);
        let t = s.take(i + 1);
        assert(t.drop_last() =~= s.take(i));
        assert(is_hex_digit(t[i]));
        assert forall|k: int| 0 <= k < i implies #[trigger] is_hex_digit(s.take(i)[k]) by {
            assert(s.take(i)[k] == s[k]);
        }
        lemma_hex_nonneg(s.take(i));
    } else {
        assert(s.take(i) =~= s);
    }
}

/// Parses a decimal `u32` (see [`dec_u32`]).
pub fn parse_dec(s: &[u8]) -> (r: Option<u32>)
    ensures
        r == dec_u32(s@),
{
    if s.len() == 0 {
        return None;
    }
    let mut v: u32 = 0;
    let mut i: usize = 0;
    while i < s.len()
        invariant
            0 <= i <= s.len(),
            s.len() > 0,
            all_dec_digits(s@.take(i as int)),
            v == dec_value(s@.take(i as int)),
        decreases s.len() - i,
    {
        let b = s[i];
        let d = match b.checked_sub(48u8) {
            Some(d) => d,
            None => {
                assert(!is_dec_digit(s@[i as int]));
                return None;
            },
        };
        if d > 9 {
            assert(!is_dec_digit(s@[i as int]));
            return None;
        }
        let ghost t = s@.take(i as int + 1);
        assert(t.drop_last() =~= s@.take(i as int));
        assert(all_dec_digits(t)) by {
            assert forall|k: int| 0 <= k < t.len() implies #[trigger] is_dec_digit(t[k]) by {
                if k < i {
                    assert(t[k] == s@.take(i as int)[k]);
                }
            }
        }
        assert(dec_value(t) == v * 10 + d);
        let m = match v.checked_mul(10) {
            Some(m) => m,
            None => {
                proof {
                    if all_dec_digits(s@) {
                        lemma_dec_prefix_le(s@, i as int + 1);
                        lemma_dec_nonneg(s@.take(i as int));
                    }
                }
                return None;
            },
        };
        v = match m.checked_add(d as u32) {
            Some(n) => n,
            None => {
                proof {
                    if all_dec_digits(s@) {
                        lemma_dec_prefix_le(s@, i as int + 1);
                    }
                }
                return None;
            },
        };
        i = i + 1;
    }
    assert(s@.take(s.len() as int) =~= s@);
    Some(v)
}

/// Parses a hexadecimal `u32` (see [`hex_u32`]).
pub fn parse_hex(s: &[u8]) -> (r: Option<u32>)
    ensures
        r == hex_u32(s@),
{
    if s.len() == 0 {
        return None;
    }
    let mut v: u32 = 0;
    let mut i: usize = 0;
    while i < s.len()
        invariant
            0 <= i <= s.len(),
            s.len() > 0,
            all_hex_digits(s@.take(i as int)),
            v == hex_value(s@.take(i as int)),
        decreases s.len() - i,
    {
        let b = s[i];
        let d: u8 = if 48 <= b && b <= 57 {
            b - 48
        } else if 97 <= b && b <= 102 {
            b - 97 + 10
        } else if 65 <= b && b <= 70 {
            b - 65 + 10
        } else {
            assert(!is_hex_digit(s@[i as int]));
            return None;
        };
        let ghost t = s@.take(i as int + 1);
        assert(t.drop_last() =~= s@.take(i as int));
        assert(all_hex_digits(t)) by {
            assert forall|k: int| 0 <= k < t.len() implies #[trigger] is_hex_digit(t[k]) by {
                if k < i {
                    assert(t[k] == s@.take(i as int)[k]);
                }
            }
        }
        assert(hex_value(t) == v * 16 + d);
        let m = match v.checked_mul(16) {
            Some(m) => m,
            None => {
                proof {
                    if all_hex_digits(s@) {
                        lemma_hex_prefix_le(s@, i as int + 1);
                    }
                }
                return None;
            },
        };
        v = match m.checked_add(d as u32) {
            Some(n) => n,
            None => {
                proof {
                    if all_hex_digits(s@) {
                        lemma_hex_prefix_le(s@, i as int + 1);
                    }
                }
                return None;
            },
        };
        i = i + 1;
    }
    assert(s@.take(s.len() as int) =~= s@);
    Some(v)
}

proof fn lemma_first_colon(s: Seq<u8>, c: int)
    requires
        0 <= c <= s.len(),
        forall|j: int| 0 <= j < c ==> s[j] != 58,
    ensures
        c < s.len() && s[c] == 58 ==> first_colon(s) == Some(c),
        c == s.len() ==> first_colon(s) is None,
    decreases c,
{
    if c > 0 {
        lemma_first_colon(s.drop_first(), c - 1);
    }
}

/// Parses the update trigger's arguments `<len>:<crc32>` (the line after
/// `OTA:`) into the image length and its expected CRC-32 (see
/// [`trigger_args`]).
pub fn parse_trigger(args: &[u8]) -> (r: Option<(u32, u32)>)
    ensures
        r == trigger_args(args@),
{
    let mut colon: usize = 0;
    while colon < args.len() && args[colon] != 58u8
        invariant
            0 <= colon <= args.len(),
            forall|j: int| 0 <= j < colon ==> args@[j] != 58,
        decreases args.len() - colon,
    {
        colon = colon + 1;
    }
    proof {
        lemma_first_colon(args@, colon as int);
    }
    if colon == args.len() {
        return None;
    }
    let len = match parse_dec(&args[0..colon]) {
        Some(len) => len,
        None => {
            return None;
        },
    };
    let crc = match parse_hex(&args[colon + 1..args.len()]) {
        Some(crc) => crc,
        None => {
            return None;
        },
    };
    Some((len, crc))
}

/// The shortest decimal representation of `n` (`0` for zero), as the host
/// writes a length.
pub open spec fn dec_digits(n: nat) -> Seq<u8>
    decreases n,
{
    if n < 10 {
        seq![(48 + n) as u8]
    } else {
        dec_digits(n / 10).push((48 + n % 10) as u8)
    }
}

/// The ASCII hexadecimal digit for `d < 16`, lower or upper case.
pub open spec fn hex_char(d: nat, upper: bool) -> u8 {
    if d < 10 {
        (48 + d) as u8
    } else if upper {
        (55 + d) as u8
    } else {
        (87 + d) as u8
    }
}

/// The hexadecimal representation of `n`, zero-padded to at least `width`
/// digits (`{:08x}` is width 8 in lower case, `{:X}` width 0 in upper case).
pub open spec fn hex_digits(n: nat, width: nat, upper: bool) -> Seq<u8>
    decreases n + width,
{
    if n < 16 && width <= 1 {
        seq![hex_char(n, upper)]
    } else {
        hex_digits(n / 16, if width > 0 { (width - 1) as nat } else { 0 }, upper).push(
            hex_char(n % 16, upper),
        )
    }
}

proof fn lemma_dec_digits(n: nat)
    ensures
        dec_digits(n).len() > 0,
        all_dec_digits(dec_digits(n)),
        dec_value(dec_digits(n)) == n,
        forall|k: int| 0 <= k < dec_digits(n).len() ==> #[trigger] dec_digits(n)[k] != 58,
    decreases n,
{
    let s = dec_digits(n);
    if n < 10 {
        assert(s.drop_last() =~= Seq::<u8>::empty());
        assert(dec_value(s.drop_last()) == 0);
    } else {
        lemma_dec_digits(n / 10);
        let t = dec_digits(n / 10);
        assert(s.drop_last() =~= t);
        assert(n == (n / 10) * 10 + n % 10) by (nonlinear_arith);
        assert forall|k: int| 0 <= k < s.len() implies #[trigger] is_dec_digit(s[k]) && s[k] != 58 by {
            if k < t.len() {
                assert(s[k] == t[k]);
                assert(is_dec_digit(t[k]));
            }
        }
    }
}

proof fn lemma_hex_digits(n: nat, width: nat, upper: bool)
    ensures
        hex_digits(n, width, upper).len() > 0,
        all_hex_digits(hex_digits(n, width, upper)),
        hex_value(hex_digits(n, width, upper)) == n,
    decreases n + width,
{
    let s = hex_digits(n, width, upper);
    if n < 16 && width <= 1 {
        assert(s.drop_last() =~= Seq::<u8>::empty());
        assert(hex_value(s.drop_last()) == 0);
    } else {
        let w = if width > 0 { (width - 1) as nat } else { 0 };
        lemma_hex_digits(n / 16, w, upper);
        let t = hex_digits(n / 16, w, upper);
        assert(s.drop_last() =~= t);
        assert(n == (n / 16) * 16 + n % 16) by (nonlinear_arith);
        assert forall|k: int| 0 <= k < s.len() implies #[trigger] is_hex_digit(s[k]) by {
            if k < t.len() {
                assert(s[k] == t[k]);
            }
        }
    }
}

/// A length the host writes in decimal reads back as itself.
pub proof fn lemma_dec_round_trip(n: u32)
    ensures
        dec_u32(dec_digits(n as nat)) == Some(n),
{
    lemma_dec_digits(n as nat);
}

/// A checksum the host writes in hexadecimal, in either case and with any
/// zero padding (`{:08x}`, `{:X}`), reads back as itself.
pub proof fn lemma_hex_round_trip(c: u32, width: nat, upper: bool)
    ensures
        hex_u32(hex_digits(c as nat, width, upper)) == Some(c),
{
    lemma_hex_digits(c as nat, width, upper);
}

/// The trigger arguments the host sends, `format!("{}:{:08x}", len, crc)`,
/// read back as that length and checksum.
pub proof fn lemma_trigger_round_trip(len: u32, crc: u32, width: nat, upper: bool)
    ensures
        trigger_args(dec_digits(len as nat) + seq![58u8] + hex_digits(crc as nat, width, upper))
            == Some((len, crc)),
{
    let d = dec_digits(len as nat);
    let h = hex_digits(crc as nat, width, upper);
    let s = d + seq![58u8] + h;
    lemma_dec_digits(len as nat);
    lemma_hex_digits(crc as nat, width, upper);
    assert forall|j: int| 0 <= j < d.len() implies s[j] != 58 by {
        assert(s[j] == d[j]);
    }
    assert(s[d.len() as int] == 58);
    lemma_first_colon(s, d.len() as int);
    assert(s.subrange(0, d.len() as int) =~= d);
    assert(s.subrange(d.len() as int + 1, s.len() as int) =~= h);
    lemma_dec_round_trip(len);
    lemma_hex_round_trip(crc, width, upper);
}

/// Only non-empty runs of the ASCII digits `0`..=`9` are read as a decimal
/// number.
pub proof fn lemma_dec_accepts_only_digits(s: Seq<u8>)
    ensures
        dec_u32(s) is Some ==> s.len() > 0 && forall|i: int| 0 <= i < s.len() ==> 48 <= #[trigger] s[i] <= 57,
        dec_u32(Seq::<u8>::empty()) is None,
{
    if dec_u32(s) is Some {
        assert forall|i: int| 0 <= i < s.len() implies 48 <= #[trigger] s[i] <= 57 by {
            assert(is_dec_digit(s[i]));
        }
    }
}

/// Appending a digit `d` to a decimal number `n` reads as `10 * n + d`,
/// or as nothing once that exceeds `u32::MAX`; appending anything else
/// reads as nothing. A single digit reads as its value.
pub proof fn lemma_dec_append(s: Seq<u8>, n: u32, d: u8)
    ensures
        48 <= d <= 57 ==> dec_u32(seq![d]) == Some((d - 48) as u32),
        dec_u32(s) == Some(n) && 48 <= d <= 57 ==> dec_u32(s.push(d)) == if n * 10 + (d - 48)
            <= u32::MAX {
            Some((n * 10 + (d - 48)) as u32)
        } else {
            None::<u32>
        },
        !(48 <= d <= 57) ==> dec_u32(s.push(d)) is None,
{
    let t = s.push(d);
    assert(t.drop_last() =~= s);
    assert(t[t.len() - 1] == d);
    assert(seq![d].drop_last() =~= Seq::<u8>::empty());
    assert(dec_value(seq![d].drop_last()) == 0);
    assert(seq![d][0] == d);
    assert(t.last() == d);
    assert(dec_value(t) == dec_value(s) * 10 + dec_digit(d));
    if !is_dec_digit(d) {
        assert(!is_dec_digit(t[t.len() - 1]));
    }
    if dec_u32(s) == Some(n) && 48 <= d <= 57 {
        lemma_dec_nonneg(s);
        assert(dec_value(s) == n);
        assert forall|i: int| 0 <= i < t.len() implies #[trigger] is_dec_digit(t[i]) by {
            if i < s.len() {
                assert(t[i] == s[i]);
            }
        }
    }
}

/// Only non-empty runs of `0`..=`9`, `a`..=`f`, `A`..=`F` are read as a
/// hexadecimal number.
pub proof fn lemma_hex_accepts_only_hex_digits(s: Seq<u8>)
    ensures
        hex_u32(s) is Some ==> s.len() > 0 && forall|i: int| 0 <= i < s.len() ==> (48 <= #[trigger] s[i] <= 57
            || 97 <= s[i] <= 102 || 65 <= s[i] <= 70),
        hex_u32(Seq::<u8>::empty()) is None,
{
    if hex_u32(s) is Some {
        assert forall|i: int| 0 <= i < s.len() implies (48 <= #[trigger] s[i] <= 57 || 97 <= s[i]
            <= 102 || 65 <= s[i] <= 70) by {
            assert(is_hex_digit(s[i]));
        }
    }
}

/// The value of a hexadecimal digit: `0`..=`9` are 0 to 9, and `a`..=`f`
/// and `A`..=`F` are 10 to 15 alike.
pub open spec fn hex_digit_value(d: u8) -> int {
    if d <= 57 {
        d - 48
    } else if d >= 97 {
        d - 87
    } else {
        d - 55
    }
}

/// Appending a hexadecimal digit `d` to a number `n` reads as
/// `16 * n + value(d)`, or as nothing once that exceeds `u32::MAX`;
/// appending anything else reads as nothing. A single digit reads as its
/// value.
pub proof fn lemma_hex_append(s: Seq<u8>, n: u32, d: u8)
    ensures
        (48 <= d <= 57 || 97 <= d <= 102 || 65 <= d <= 70) ==> hex_u32(seq![d]) == Some(
            hex_digit_value(d) as u32,
        ),
        hex_u32(s) == Some(n) && (48 <= d <= 57 || 97 <= d <= 102 || 65 <= d <= 70) ==> hex_u32(
            s.push(d),
        ) == if n * 16 + hex_digit_value(d) <= u32::MAX {
            Some((n * 16 + hex_digit_value(d)) as u32)
        } else {
            None::<u32>
        },
        !(48 <= d <= 57 || 97 <= d <= 102 || 65 <= d <= 70) ==> hex_u32(s.push(d)) is None,
{
    let t = s.push(d);
    assert(t.drop_last() =~= s);
    assert(t[t.len() - 1] == d);
    assert(seq![d].drop_last() =~= Seq::<u8>::empty());
    assert(hex_value(seq![d].drop_last()) == 0);
    assert(seq![d][0] == d);
    assert(t.last() == d);
    assert(hex_value(t) == hex_value(s) * 16 + hex_digit(d));
    if !is_hex_digit(d) {
        assert(!is_hex_digit(t[t.len() - 1]));
    }
    if hex_u32(s) == Some(n) && (48 <= d <= 57 || 97 <= d <= 102 || 65 <= d <= 70) {
        lemma_hex_nonneg(s);
        assert(hex_value(s) == n);
        assert forall|i: int| 0 <= i < t.len() implies #[trigger] is_hex_digit(t[i]) by {
            if i < s.len() {
                assert(t[i] == s[i]);
            }
        }
    }
}

} // verus!
