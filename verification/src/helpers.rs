//! `HH:MM` clock strings: parsing, validation and formatting.
use vstd::prelude::*;
use crate::text::{
    chars_of, decimal2, is_digit, lemma_decimal2_reads_back, lemma_split_pair_at, only_at,
    parse_u32, push_char, push_decimal2, sole_position, spec_parse_u32, split_pair,
};

verus! {

broadcast use vstd::string::group_string_axioms;

/// Minutes since midnight written by `s`: `s.split(':')` must give exactly two
/// pieces and each must parse as a `u32` (`model::parse_time_minutes`).
pub open spec fn spec_time_minutes(s: Seq<char>) -> Option<nat> {
    match split_pair(s, ':') {
        Some((a, b)) => match (spec_parse_u32(a), spec_parse_u32(b)) {
            (Some(h), Some(m)) => Some(h as nat * 60 + m as nat),
            _ => None,
        },
        None => None,
    }
}

/// A piece's value, or 0 when it does not parse (`parse().unwrap_or(0)`).
pub open spec fn value_or_zero(p: Seq<char>) -> nat {
    match spec_parse_u32(p) {
        Some(v) => v as nat,
        None => 0,
    }
}

/// Minutes since midnight as the lenient reader takes them: two pieces, each
/// read as 0 when it does not parse; anything else reads as 0.
pub open spec fn spec_lenient_minutes(s: Seq<char>) -> nat {
    match split_pair(s, ':') {
        Some((a, b)) => value_or_zero(a) * 60 + value_or_zero(b),
        None => 0,
    }
}

/// The minutes a clock string stands for fit in a `u32`, so reading it
/// cannot overflow. Every string of the form `HH:MM` with sensible digits
/// satisfies it.
pub open spec fn hhmm_fits(s: Seq<char>) -> bool {
    spec_lenient_minutes(s) <= u32::MAX
}

/// `s` is a well-formed `HH:MM` time: two pieces, hours below 24 and
/// minutes below 60.
pub open spec fn spec_is_valid_hhmm(s: Seq<char>) -> bool {
    match split_pair(s, ':') {
        Some((a, b)) => match (spec_parse_u32(a), spec_parse_u32(b)) {
            (Some(h), Some(m)) => h < 24 && m < 60,
            _ => false,
        },
        None => false,
    }
}

/// Hours and minutes written as `format!("{:02}:{:02}", h, m)`.
pub open spec fn clock_text(h: nat, m: nat) -> Seq<char> {
    decimal2(h) + seq![':'] + decimal2(m)
}

/// `"HH:MM"` for a number of minutes (hours may exceed two digits).
pub open spec fn spec_format_minutes(m: nat) -> Seq<char> {
    clock_text(m / 60, m % 60)
}

/// When both pieces parse, the lenient reading agrees with the strict one;
/// so a string whose lenient reading fits has a strict reading that fits.
pub proof fn lemma_fits_strict(s: Seq<char>)
    requires
        hhmm_fits(s),
    ensures
        spec_time_minutes(s) matches Some(v) ==> v == spec_lenient_minutes(s) && v <= u32::MAX,
{
}

/// The two pieces of `v[lo..hi]` split at its sole colon, if it has one.
pub fn colon_pieces(v: &Vec<char>) -> (r: Option<usize>)
    ensures
        match r {
            Some(i) => i < v@.len() && split_pair(v@, ':') == Some((v@.take(i as int), v@.skip(i + 1))),
            None => split_pair(v@, ':') is None,
        },
{
    let r = sole_position(v, 0, v.len(), ':');
    assert(v@.subrange(0, v@.len() as int) == v@);
    match r {
        Some(i) => {
            proof {
                lemma_split_pair_at(v@, ':', i as int);
            }
            Some(i)
        },
        None => None,
    }
}

/// Whether reading `s` as a clock time stays within `u32`.
pub fn time_fits(s: &str) -> (r: bool)
    ensures
        r == hhmm_fits(s@),
{
    let v = chars_of(s);
    match colon_pieces(&v) {
        None => true,
        Some(i) => {
            let h = parse_u32(&v, 0, i);
            let m = parse_u32(&v, i + 1, v.len());
            assert(v@.subrange(0, i as int) == v@.take(i as int));
            assert(v@.subrange(i + 1, v@.len() as int) == v@.skip(i + 1));
            let hv: u64 = match h {
                Some(x) => x as u64,
                None => 0,
            };
            let mv: u64 = match m {
                Some(x) => x as u64,
                None => 0,
            };
            hv * 60 + mv <= 0xffff_ffff
        },
    }
}

/// Returns true if `t` is a well-formed `HH:MM` time string.
pub fn is_valid_hhmm(t: &str) -> (r: bool)
    ensures
        r == spec_is_valid_hhmm(t@),
{
    let v = chars_of(t);
    match colon_pieces(&v) {
        None => false,
        Some(i) => {
            let h = parse_u32(&v, 0, i);
            let m = parse_u32(&v, i + 1, v.len());
            assert(v@.subrange(0, i as int) == v@.take(i as int));
            assert(v@.subrange(i + 1, v@.len() as int) == v@.skip(i + 1));
            match (h, m) {
                (Some(h), Some(m)) => h < 24 && m < 60,
                _ => false,
            }
        },
    }
}

/// Minutes since midnight of a clock string, reading any piece that does
/// not parse as 0 and anything without exactly one colon as 0.
pub fn parse_time_to_minutes(t: &str) -> (r: u32)
    requires
        hhmm_fits(t@),
    ensures
        r == spec_lenient_minutes(t@),
{
    let v = chars_of(t);
    match colon_pieces(&v) {
        None => 0,
        Some(i) => {
            let h = parse_u32(&v, 0, i);
            let m = parse_u32(&v, i + 1, v.len());
            assert(v@.subrange(0, i as int) == v@.take(i as int));
            assert(v@.subrange(i + 1, v@.len() as int) == v@.skip(i + 1));
            let hv: u32 = match h {
                Some(x) => x,
                None => 0,
            };
            let mv: u32 = match m {
                Some(x) => x,
                None => 0,
            };
            hv * 60 + mv
        },
    }
}

/// `"HH:MM"` for a number of minutes since midnight.
pub fn format_minutes_to_time(min: u32) -> (r: String)
    ensures
        r@ == spec_format_minutes(min as nat),
{
    let mut s = String::new();
    push_decimal2(&mut s, (min / 60) as u64);
    push_char(&mut s, ':');
    push_decimal2(&mut s, (min % 60) as u64);
    s
}

/// Hours and minutes written out read back as `h * 60 + m` minutes, by
/// either reader, when both fit in a `u32`.
pub proof fn lemma_clock_text_reads(h: nat, m: nat)
    requires
        h <= u32::MAX,
        m <= u32::MAX,
    ensures
        spec_time_minutes(clock_text(h, m)) == Some(h * 60 + m),
        spec_lenient_minutes(clock_text(h, m)) == h * 60 + m,
        spec_is_valid_hhmm(clock_text(h, m)) <==> h < 24 && m < 60,
{
    let hs = decimal2(h);
    let ms = decimal2(m);
    let s = clock_text(h, m);
    lemma_decimal2_reads_back(h);
    lemma_decimal2_reads_back(m);
    let i = hs.len() as int;
    assert(s[i] == ':');
    assert forall|j: int| 0 <= j < s.len() && j != i implies s[j] != ':' by {
        if j < i {
            assert(s[j] == hs[j]);
            assert(is_digit(hs[j]));
        } else {
            assert(s[j] == ms[j - i - 1]);
            assert(is_digit(ms[j - i - 1]));
        }
    }
    assert(only_at(s, ':', i));
    lemma_split_pair_at(s, ':', i);
    assert(s.take(i) =~= hs);
    assert(s.skip(i + 1) =~= ms);
}

/// Reading back a formatted time gives the minutes that were formatted, by
/// either reader, and the result is a valid `HH:MM` exactly when the minutes
/// fall within one day.
pub proof fn lemma_format_then_parse(m: nat)
    requires
        m <= u32::MAX,
    ensures
        spec_time_minutes(spec_format_minutes(m)) == Some(m),
        spec_lenient_minutes(spec_format_minutes(m)) == m,
        spec_is_valid_hhmm(spec_format_minutes(m)) <==> m < 24 * 60,
{
    lemma_clock_text_reads(m / 60, m % 60);
    assert((m / 60) * 60 + m % 60 == m) by (nonlinear_arith);
    if m < 24 * 60 {
        assert(m / 60 < 24) by (nonlinear_arith) requires m < 24 * 60;
    } else {
        assert(m / 60 >= 24) by (nonlinear_arith) requires m >= 24 * 60;
    }
}

} // verus!
