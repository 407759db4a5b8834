//! Hexadecimal digits: their values, reading a run of them, and fixed-width
//! upper-case rendering.

use vstd::prelude::*;

verus! {

/// The value of a hexadecimal digit, in either case.
pub open spec fn hex_value(c: char) -> Option<nat> {
    if '0' <= c && c <= '9' {
        Some((c as nat - '0' as nat) as nat)
    } else if 'a' <= c && c <= 'f' {
        Some((c as nat - 'a' as nat + 10) as nat)
    } else if 'A' <= c && c <= 'F' {
        Some((c as nat - 'A' as nat + 10) as nat)
    } else {
        None
    }
}

/// The upper-case digit that stands for a value below sixteen.
pub open spec fn upper_digit(d: nat) -> char {
    if d < 10 {
        (d + '0' as nat) as char
    } else {
        (d - 10 + 'A' as nat) as char
    }
}

/// Sixteen to the power `w`.
pub open spec fn pow16(w: nat) -> nat
    decreases w,
{
    if w == 0 {
        1
    } else {
        16 * pow16((w - 1) as nat)
    }
}

/// The number that a run of hexadecimal digits writes, most significant digit
/// first; `None` as soon as one character is no hexadecimal digit.
pub open spec fn parse_hex(s: Seq<char>) -> Option<nat>
    decreases s.len(),
{
    if s.len() == 0 {
        Some(0)
    } else {
        match (parse_hex(s.drop_last()), hex_value(s.last())) {
            (Some(high), Some(low)) => Some(high * 16 + low),
            _ => None,
        }
    }
}

/// The last `w` hexadecimal digits of `v`, upper case, zero-padded.
pub open spec fn format_hex(v: nat, w: nat) -> Seq<char>
    decreases w,
{
    if w == 0 {
        Seq::empty()
    } else {
        format_hex(v / 16, (w - 1) as nat).push(upper_digit(v % 16))
    }
}

/// `t` is `canon` but for the case of its hexadecimal letters: wherever the
/// two differ, `t` holds the lower-case form of the upper-case letter in `canon`.
pub open spec fn matches_up_to_hex_case(t: Seq<char>, canon: Seq<char>) -> bool {
    &&& t.len() == canon.len()
    &&& forall|i: int|
        0 <= i < t.len() ==> #[trigger] t[i] == canon[i] || ('a' <= t[i] && t[i] <= 'f' && 'A'
            <= canon[i] && canon[i] <= 'F' && t[i] as nat - 'a' as nat == canon[i] as nat
            - 'A' as nat)
}

/// `format_hex` writes as many digits as it is asked for.
pub proof fn lemma_format_hex_len(v: nat, w: nat)
    ensures
        format_hex(v, w).len() == w,
    decreases w,
{
    if w > 0 {
        lemma_format_hex_len(v / 16, (w - 1) as nat);
    }
}

/// Every character that `format_hex` writes is a digit or an upper-case
/// hexadecimal letter.
pub proof fn lemma_format_hex_chars(v: nat, w: nat, i: int)
    requires
        0 <= i < w,
    ensures
        format_hex(v, w).len() == w,
        hex_value(format_hex(v, w)[i]) is Some,
        format_hex(v, w)[i] != '*',
        !('a' <= format_hex(v, w)[i] && format_hex(v, w)[i] <= 'z'),
    decreases w,
{
    lemma_format_hex_len(v, w);
    lemma_format_hex_len(v / 16, (w - 1) as nat);
    if i < w - 1 {
        lemma_format_hex_chars(v / 16, (w - 1) as nat, i);
    }
}

/// Reading what was written gives the number back.
pub proof fn lemma_parse_format_hex(v: nat, w: nat)
    requires
        v < pow16(w),
    ensures
        parse_hex(format_hex(v, w)) == Some(v),
    decreases w,
{
    if w > 0 {
        let s = format_hex(v, w);
        let prev = format_hex(v / 16, (w - 1) as nat);
        assert(s.drop_last() =~= prev);
        assert(s.last() == upper_digit(v % 16));
        assert(v / 16 < pow16((w - 1) as nat)) by (nonlinear_arith)
            requires
                v < 16 * pow16((w - 1) as nat),
        ;
        lemma_parse_format_hex(v / 16, (w - 1) as nat);
        assert(hex_value(upper_digit(v % 16)) == Some(v % 16));
        assert((v / 16) * 16 + v % 16 == v) by (nonlinear_arith);
    }
}

/// A run with a character that is no hexadecimal digit writes no number.
pub proof fn lemma_parse_hex_rejects(s: Seq<char>, i: int)
    requires
        0 <= i < s.len(),
        hex_value(s[i]) is None,
    ensures
        parse_hex(s) is None,
    decreases s.len(),
{
    if i < s.len() - 1 {
        assert(s.drop_last()[i] == s[i]);
        lemma_parse_hex_rejects(s.drop_last(), i);
    }
}

/// A run that writes a number holds hexadecimal digits only, and the number is
/// below sixteen to the power of its length.
pub proof fn lemma_parse_hex_accepts(s: Seq<char>)
    requires
        parse_hex(s) is Some,
    ensures
        forall|i: int| 0 <= i < s.len() ==> hex_value(#[trigger] s[i]) is Some,
        parse_hex(s)->0 < pow16(s.len()),
    decreases s.len(),
{
    if s.len() > 0 {
        lemma_parse_hex_accepts(s.drop_last());
        assert forall|i: int| 0 <= i < s.len() implies hex_value(#[trigger] s[i]) is Some by {
            if i < s.len() - 1 {
                assert(s.drop_last()[i] == s[i]);
            }
        }
    }
}

/// A run of hexadecimal digits writes a number.
pub proof fn lemma_parse_hex_total(s: Seq<char>)
    requires
        forall|i: int| 0 <= i < s.len() ==> hex_value(#[trigger] s[i]) is Some,
    ensures
        parse_hex(s) is Some,
    decreases s.len(),
{
    if s.len() > 0 {
        let front = s.drop_last();
        assert forall|i: int| 0 <= i < front.len() implies hex_value(#[trigger] front[i]) is Some by {
            assert(front[i] == s[i]);
        }
        lemma_parse_hex_total(front);
        assert(hex_value(s[s.len() - 1]) is Some);
    }
}

/// The case of the letters does not change the number that a run writes.
pub proof fn lemma_parse_hex_ignores_case(t: Seq<char>, canon: Seq<char>)
    requires
        matches_up_to_hex_case(t, canon),
    ensures
        parse_hex(t) == parse_hex(canon),
    decreases t.len(),
{
    if t.len() > 0 {
        let tp = t.drop_last();
        let cp = canon.drop_last();
        assert(matches_up_to_hex_case(tp, cp)) by {
            assert forall|i: int| 0 <= i < tp.len() implies #[trigger] tp[i] == cp[i] || ('a'
                <= tp[i] && tp[i] <= 'f' && 'A' <= cp[i] && cp[i] <= 'F' && tp[i] as nat
                - 'a' as nat == cp[i] as nat - 'A' as nat) by {
                assert(tp[i] == t[i]);
                assert(cp[i] == canon[i]);
            }
        }
        lemma_parse_hex_ignores_case(tp, cp);
        let k = t.len() - 1;
        assert(t[k] == canon[k] || ('a' <= t[k] && t[k] <= 'f' && 'A' <= canon[k] && canon[k]
            <= 'F' && t[k] as nat - 'a' as nat == canon[k] as nat - 'A' as nat));
        assert(hex_value(t.last()) == hex_value(canon.last()));
    }
}

/// Reads one hexadecimal digit.
pub fn hex_digit_value(c: char) -> (r: Option<u8>)
    ensures
        match r {
            Some(v) => hex_value(c) == Some(v as nat) && v < 16,
            None => hex_value(c) is None,
        },
{
    if '0' <= c && c <= '9' {
        Some((c as u8) - ('0' as u8))
    } else if 'a' <= c && c <= 'f' {
        Some((c as u8) - ('a' as u8) + 10)
    } else if 'A' <= c && c <= 'F' {
        Some((c as u8) - ('A' as u8) + 10)
    } else {
        None
    }
}

/// The upper-case digit for a value below sixteen.
pub fn upper_digit_char(d: u8) -> (c: char)
    requires
        d < 16,
    ensures
        c == upper_digit(d as nat),
{
    if d < 10 {
        (d + ('0' as u8)) as char
    } else {
        (d - 10 + ('A' as u8)) as char
    }
}

/// Reads the characters of `chars` from `start` up to `end` as one hexadecimal
/// number of at most eight digits.
pub fn read_hex(chars: &Vec<char>, start: usize, end: usize) -> (r: Option<u32>)
    requires
        start <= end <= chars.len(),
        end - start <= 8,
    ensures
        match r {
            Some(v) => parse_hex(chars@.subrange(start as int, end as int)) == Some(v as nat),
            None => parse_hex(chars@.subrange(start as int, end as int)) is None,
        },
{
    let mut acc: u64 = 0;
    let mut i: usize = start;
    proof {
        lemma_pow16_monotonic(0, 8);
        assert(chars@.subrange(start as int, start as int) =~= Seq::<char>::empty());
    }
    while i < end
        invariant
            start <= i <= end <= chars.len(),
            end - start <= 8,
            parse_hex(chars@.subrange(start as int, i as int)) == Some(acc as nat),
            acc < pow16((i - start) as nat),
            pow16((i - start) as nat) <= pow16(8),
        decreases end - i,
    {
        let ghost whole = chars@.subrange(start as int, end as int);
        let ghost next = chars@.subrange(start as int, i + 1);
        proof {
            assert(next.drop_last() =~= chars@.subrange(start as int, i as int));
            assert(next.last() == chars@[i as int]);
            assert(whole[i - start] == chars@[i as int]);
            lemma_pow16_monotonic((i + 1 - start) as nat, 8);
            lemma_pow16_values();
        }
        match hex_digit_value(chars[i]) {
            Some(d) => {
                acc = acc * 16 + (d as u64);
            },
            None => {
                proof {
                    lemma_parse_hex_rejects(whole, i - start);
                }
                return None;
            },
        }
        i = i + 1;
    }
    proof {
        lemma_pow16_values();
    }
    Some(acc as u32)
}

/// The powers of sixteen that the field widths of this library need.
pub proof fn lemma_pow16_values()
    ensures
        pow16(4) == 0x1_0000,
        pow16(8) == 0x1_0000_0000,
{
    reveal_with_fuel(pow16, 9);
}

/// The powers of sixteen grow with the exponent, and none is zero.
pub proof fn lemma_pow16_monotonic(a: nat, b: nat)
    requires
        a <= b,
    ensures
        pow16(a) <= pow16(b),
        pow16(a) > 0,
    decreases b,
{
    if a < b {
        lemma_pow16_monotonic(a, (b - 1) as nat);
    } else if a > 0 {
        lemma_pow16_monotonic((a - 1) as nat, (b - 1) as nat);
    }
}

/// Appends the last `width` hexadecimal digits of `v` to `out`.
pub fn push_hex(out: &mut Vec<char>, v: u32, width: usize)
    ensures
        final(out)@ == old(out)@ + format_hex(v as nat, width as nat),
    decreases width,
{
    if width > 0 {
        push_hex(out, v / 16, width - 1);
        out.push(upper_digit_char((v % 16) as u8));
        proof {
            assert(final(out)@ =~= old(out)@ + format_hex(v as nat, width as nat));
        }
    } else {
        proof {
            assert(out@ =~= old(out)@ + format_hex(v as nat, width as nat));
        }
    }
}

/// How many hexadecimal digits a number below sixteen to the eighth needs,
/// and four where it needs fewer.
pub open spec fn hex_width(v: nat) -> nat {
    if v < 0x1_0000 {
        4
    } else if v < 0x10_0000 {
        5
    } else if v < 0x100_0000 {
        6
    } else if v < 0x1000_0000 {
        7
    } else {
        8
    }
}

/// Appends `v` in upper-case hexadecimal digits, zero-padded to four digits
/// and longer where it needs more.
pub fn push_hex_min4(out: &mut Vec<char>, v: u32)
    ensures
        final(out)@ == old(out)@ + format_hex(v as nat, hex_width(v as nat)),
{
    let width: usize = if v < 0x1_0000 {
        4
    } else if v < 0x10_0000 {
        5
    } else if v < 0x100_0000 {
        6
    } else if v < 0x1000_0000 {
        7
    } else {
        8
    };
    push_hex(out, v, width);
}

} // verus!
