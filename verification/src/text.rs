//! Character-level building blocks shared by the rest of the library:
//! turning strings into character vectors and back, decimal parsing and
//! printing, white space, and the Unicode predicates that std computes from
//! its tables.
use vstd::prelude::*;

verus! {

broadcast use vstd::string::group_string_axioms;

// ---------------------------------------------------------------------------
// Strings as character sequences
// ---------------------------------------------------------------------------

/// The characters of `s`, in order.
pub fn chars_of(s: &str) -> (out: Vec<char>)
    ensures
        out@ == s@,
{
    let mut out: Vec<char> = Vec::new();
    for c in it: s.chars()
        invariant
            out@ == it.seq().take(it.index() as int),
            it.seq() == s@,
    {
        out.push(c);
    }
    out
}

/// Appends one character to a string.
///
/// Calls `String::push`, which by its documentation appends the given `char`
/// to the end of the string.
#[verifier::external_body]
pub fn push_char(s: &mut String, c: char)
    ensures
        final(s)@ == old(s)@.push(c),
{
    s.push(c);
}

/// Appends a string slice to a string.
pub fn push_str(s: &mut String, t: &str)
    ensures
        final(s)@ == old(s)@ + t@,
{
    s.append(t);
}

/// The characters `v[lo..hi]` appended to `s`.
pub fn push_chars(s: &mut String, v: &Vec<char>, lo: usize, hi: usize)
    requires
        lo <= hi <= v@.len(),
    ensures
        final(s)@ == old(s)@ + v@.subrange(lo as int, hi as int),
{
    let mut i = lo;
    while i < hi
        invariant
            lo <= i <= hi <= v@.len(),
            s@ == old(s)@ + v@.subrange(lo as int, i as int),
        decreases hi - i,
    {
        push_char(s, v[i]);
        assert(v@.subrange(lo as int, i + 1) == v@.subrange(lo as int, i as int).push(v@[i as int]));
        i = i + 1;
    }
}

/// A new string holding exactly the characters of `v`.
pub fn string_of(v: &Vec<char>) -> (s: String)
    ensures
        s@ == v@,
{
    let mut s = String::new();
    push_chars(&mut s, v, 0, v.len());
    assert(v@.subrange(0, v@.len() as int) == v@);
    s
}

/// A new string holding the characters of a string slice.
pub fn string_from(t: &str) -> (s: String)
    ensures
        s@ == t@,
{
    let mut s = String::new();
    push_str(&mut s, t);
    s
}

/// Whether two strings have the same characters.
pub fn same_text(a: &str, b: &str) -> (r: bool)
    ensures
        r == (a@ == b@),
{
    let va = chars_of(a);
    let vb = chars_of(b);
    same_chars(&va, &vb)
}

/// Whether two character vectors are equal.
pub fn same_chars(a: &Vec<char>, b: &Vec<char>) -> (r: bool)
    ensures
        r == (a@ == b@),
{
    if a.len() != b.len() {
        return false;
    }
    let mut i: usize = 0;
    while i < a.len()
        invariant
            a@.len() == b@.len(),
            i <= a@.len(),
            forall|k: int| 0 <= k < i ==> a@[k] == b@[k],
        decreases a.len() - i,
    {
        if a[i] != b[i] {
            return false;
        }
        i = i + 1;
    }
    assert(a@ =~= b@);
    true
}

/// Whether `p` is a prefix of `v`.
pub fn has_prefix(v: &Vec<char>, p: &Vec<char>) -> (r: bool)
    ensures
        r == p@.is_prefix_of(v@),
{
    if p.len() > v.len() {
        return false;
    }
    let mut i: usize = 0;
    while i < p.len()
        invariant
            p@.len() <= v@.len(),
            i <= p@.len(),
            forall|k: int| 0 <= k < i ==> p@[k] == v@[k],
        decreases p.len() - i,
    {
        if p[i] != v[i] {
            return false;
        }
        i = i + 1;
    }
    true
}

/// Whether the character `c` occurs in `v`.
pub fn contains_char(v: &Vec<char>, c: char) -> (r: bool)
    ensures
        r == v@.contains(c),
{
    let mut i: usize = 0;
    while i < v.len()
        invariant
            i <= v@.len(),
            forall|k: int| 0 <= k < i ==> v@[k] != c,
        decreases v.len() - i,
    {
        if v[i] == c {
            assert(v@[i as int] == c);
            return true;
        }
        i = i + 1;
    }
    false
}

/// Whether `needle` occurs as a contiguous block in `hay`.
pub open spec fn occurs_in(needle: Seq<char>, hay: Seq<char>) -> bool {
    exists|i: int| 0 <= i <= hay.len() - needle.len() && #[trigger] hay.subrange(i, i + needle.len()) == needle
}

/// Whether `needle` occurs as a contiguous block in `hay` (`str::contains`).
pub fn contains_text(hay: &Vec<char>, needle: &Vec<char>) -> (r: bool)
    ensures
        r == occurs_in(needle@, hay@),
{
    if needle.len() > hay.len() {
        return false;
    }
    if needle.len() == 0 {
        assert(hay@.subrange(0int, 0int + needle@.len()) =~= needle@);
        return true;
    }
    let last = hay.len() - needle.len();
    let mut i: usize = 0;
    while i <= last
        invariant
            0 < needle@.len() <= hay@.len(),
            last == hay@.len() - needle@.len(),
            last < hay.len(),
            i <= last + 1,
            forall|k: int| 0 <= k < i ==> #[trigger] hay@.subrange(k, k + needle@.len()) != needle@,
        decreases last + 1 - i,
    {
        let mut j: usize = 0;
        let mut ok = true;
        while j < needle.len()
            invariant
                needle@.len() <= hay@.len(),
                i <= last,
                last == hay@.len() - needle@.len(),
                j <= needle@.len(),
                ok == (forall|k: int| 0 <= k < j ==> hay@[i + k] == needle@[k]),
            decreases needle.len() - j,
        {
            assert(i + j < hay.len());
            if hay[i + j] != needle[j] {
                ok = false;
            }
            j = j + 1;
        }
        if ok {
            assert(hay@.subrange(i as int, i + needle@.len()) =~= needle@);
            return true;
        }
        proof {
            if hay@.subrange(i as int, i + needle@.len()) == needle@ {
                assert forall|k: int| 0 <= k < needle@.len() implies hay@[i + k] == needle@[k] by {
                    assert(hay@.subrange(i as int, i + needle@.len())[k] == hay@[i + k]);
                }
            }
        }
        i = i + 1;
    }
    proof {
        assert forall|k: int| 0 <= k <= hay@.len() - needle@.len() implies #[trigger] hay@.subrange(k, k + needle@.len()) != needle@ by {
            assert(k < i);
        }
    }
    false
}

// ---------------------------------------------------------------------------
// Splitting on a separator that must occur exactly once
// ---------------------------------------------------------------------------

/// `s` holds `sep` at position `i` and nowhere else.
pub open spec fn only_at(s: Seq<char>, sep: char, i: int) -> bool {
    &&& 0 <= i < s.len()
    &&& s[i] == sep
    &&& forall|j: int| 0 <= j < s.len() && j != i ==> s[j] != sep
}

/// The two pieces `s.split(sep)` yields when `sep` occurs exactly once in
/// `s`; `None` when it yields any other number of pieces.
pub open spec fn split_pair(s: Seq<char>, sep: char) -> Option<(Seq<char>, Seq<char>)> {
    if exists|i: int| only_at(s, sep, i) {
        let i = choose|i: int| only_at(s, sep, i);
        Some((s.take(i), s.skip(i + 1)))
    } else {
        None
    }
}

/// Position `i` of `sep` in `v[lo..hi]`, when it occurs there exactly once.
pub fn sole_position(v: &Vec<char>, lo: usize, hi: usize, sep: char) -> (r: Option<usize>)
    requires
        lo <= hi <= v@.len(),
    ensures
        match r {
            Some(i) => lo <= i < hi && only_at(v@.subrange(lo as int, hi as int), sep, i - lo),
            None => !exists|i: int| only_at(v@.subrange(lo as int, hi as int), sep, i),
        },
{
    let ghost s = v@.subrange(lo as int, hi as int);
    let mut found: Option<usize> = None;
    let mut k = lo;
    while k < hi
        invariant
            lo <= k <= hi <= v@.len(),
            s == v@.subrange(lo as int, hi as int),
            match found {
                Some(i) => lo <= i < k && v@[i as int] == sep && forall|j: int|
                    lo <= j < k && j != i ==> v@[j] != sep,
                None => forall|j: int| lo <= j < k ==> v@[j] != sep,
            },
        decreases hi - k,
    {
        if v[k] == sep {
            match found {
                Some(i) => {
                    proof {
                        assert forall|x: int| !only_at(s, sep, x) by {
                            if only_at(s, sep, x) {
                                assert(s[i - lo] == sep);
                                assert(s[k - lo] == sep);
                            }
                        }
                    }
                    return None;
                },
                None => {
                    found = Some(k);
                },
            }
        }
        k = k + 1;
    }
    match found {
        Some(i) => {
            proof {
                assert forall|j: int| 0 <= j < s.len() && j != i - lo implies s[j] != sep by {
                    assert(s[j] == v@[lo + j]);
                }
            }
            Some(i)
        },
        None => {
            proof {
                assert forall|x: int| !only_at(s, sep, x) by {
                    if only_at(s, sep, x) {
                        assert(s[x] == v@[lo + x]);
                    }
                }
            }
            None
        },
    }
}

/// The split position is determined: if `sep` occurs only at `i`, the pieces
/// are the parts before and after `i`.
pub proof fn lemma_split_pair_at(s: Seq<char>, sep: char, i: int)
    requires
        only_at(s, sep, i),
    ensures
        split_pair(s, sep) == Some((s.take(i), s.skip(i + 1))),
{
    let c = choose|x: int| only_at(s, sep, x);
    assert(only_at(s, sep, c));
    if c != i {
        assert(s[c] == sep);
    }
}

// ---------------------------------------------------------------------------
// Unicode predicates that std computes from its tables
// ---------------------------------------------------------------------------

/// What `char::is_whitespace` returns: whether the character has the
/// Unicode `White_Space` property. These are its 25 code points.
pub open spec fn spec_is_whitespace(c: char) -> bool {
    let u = c as u32;
    ||| 0x09 <= u <= 0x0D
    ||| u == 0x20
    ||| u == 0x85
    ||| u == 0xA0
    ||| u == 0x1680
    ||| 0x2000 <= u <= 0x200A
    ||| u == 0x2028
    ||| u == 0x2029
    ||| u == 0x202F
    ||| u == 0x205F
    ||| u == 0x3000
}

/// Whether a character is white space (`char::is_whitespace`).
pub fn is_whitespace(c: char) -> (r: bool)
    ensures
        r == spec_is_whitespace(c),
{
    let u = c as u32;
    (0x09 <= u && u <= 0x0D) || u == 0x20 || u == 0x85 || u == 0xA0 || u == 0x1680
        || (0x2000 <= u && u <= 0x200A) || u == 0x2028 || u == 0x2029 || u == 0x202F
        || u == 0x205F || u == 0x3000
}

/// What `char::is_alphanumeric` returns for a character (Unicode
/// `Alphabetic` or `Numeric`).
pub uninterp spec fn spec_is_alphanumeric(c: char) -> bool;

/// Calls `char::is_alphanumeric`. The contract names its result: a function
/// of the character alone; the Unicode tables behind it are left to std.
#[verifier::external_body]
pub fn is_alphanumeric(c: char) -> (r: bool)
    ensures
        r == spec_is_alphanumeric(c),
{
    c.is_alphanumeric()
}

/// What `str::to_lowercase` returns for text that is not all ASCII (the full
/// Unicode lowercase mapping, which may change the length).
pub uninterp spec fn unicode_lowercase(s: Seq<char>) -> Seq<char>;

/// Every character is ASCII.
pub open spec fn all_ascii(s: Seq<char>) -> bool {
    forall|i: int| 0 <= i < s.len() ==> is_ascii_char(#[trigger] s[i])
}

/// `A`-`Z` lowered, every other character kept.
pub open spec fn ascii_lower_char(c: char) -> char {
    if 'A' <= c && c <= 'Z' {
        ((c as u32) + 32) as char
    } else {
        c
    }
}

pub open spec fn ascii_lowercase(s: Seq<char>) -> Seq<char> {
    s.map_values(|c: char| ascii_lower_char(c))
}

/// What `str::to_lowercase` returns: on ASCII text the ASCII lowercase
/// mapping, otherwise the Unicode one.
pub open spec fn spec_to_lowercase(s: Seq<char>) -> Seq<char> {
    if all_ascii(s) {
        ascii_lowercase(s)
    } else {
        unicode_lowercase(s)
    }
}

/// Calls `str::to_lowercase`. The contract states the ASCII case, where std
/// documents that only `A`-`Z` change; for other text it names the result as
/// a function of the input characters and leaves the Unicode case tables to
/// std.
#[verifier::external_body]
pub fn to_lowercase(s: &str) -> (r: String)
    ensures
        all_ascii(s@) ==> r@ == ascii_lowercase(s@),
        !all_ascii(s@) ==> r@ == unicode_lowercase(s@),
{
    s.to_lowercase()
}

/// Whether a character is an ASCII character (`char::is_ascii`).
pub open spec fn is_ascii_char(c: char) -> bool {
    (c as u32) < 128
}

pub fn ascii(c: char) -> (r: bool)
    ensures
        r == is_ascii_char(c),
{
    (c as u32) < 128
}

// ---------------------------------------------------------------------------
// Trimming (`str::trim`)
// ---------------------------------------------------------------------------

/// Number of leading whitespace characters of `s`.
pub open spec fn leading_ws(s: Seq<char>) -> nat
    decreases s.len(),
{
    if s.len() > 0 && spec_is_whitespace(s[0]) {
        1 + leading_ws(s.drop_first())
    } else {
        0
    }
}

/// Number of trailing whitespace characters of `s`.
pub open spec fn trailing_ws(s: Seq<char>) -> nat
    decreases s.len(),
{
    if s.len() > 0 && spec_is_whitespace(s.last()) {
        1 + trailing_ws(s.drop_last())
    } else {
        0
    }
}

/// `s` with leading and trailing whitespace removed.
pub open spec fn trimmed(s: Seq<char>) -> Seq<char> {
    let a = s.skip(leading_ws(s) as int);
    a.take(a.len() - trailing_ws(a))
}

proof fn lemma_leading_ws(s: Seq<char>, i: int)
    requires
        0 <= i <= s.len(),
        forall|k: int| 0 <= k < i ==> spec_is_whitespace(#[trigger] s[k]),
        i == s.len() || !spec_is_whitespace(s[i]),
    ensures
        leading_ws(s) == i,
    decreases i,
{
    if i > 0 {
        assert(spec_is_whitespace(s[0]));
        let t = s.drop_first();
        assert forall|k: int| 0 <= k < i - 1 implies spec_is_whitespace(#[trigger] t[k]) by {
            assert(t[k] == s[k + 1]);
        }
        if i - 1 < t.len() {
            assert(t[i - 1] == s[i]);
        }
        lemma_leading_ws(t, i - 1);
    }
}

proof fn lemma_trailing_ws(s: Seq<char>, n: int)
    requires
        0 <= n <= s.len(),
        forall|k: int| s.len() - n <= k < s.len() ==> spec_is_whitespace(#[trigger] s[k]),
        n == s.len() || !spec_is_whitespace(s[s.len() - n - 1]),
    ensures
        trailing_ws(s) == n,
    decreases n,
{
    if n > 0 {
        assert(spec_is_whitespace(s[s.len() - 1]));
        let t = s.drop_last();
        assert forall|k: int| t.len() - (n - 1) <= k < t.len() implies spec_is_whitespace(#[trigger] t[k]) by {
            assert(t[k] == s[k]);
        }
        if n - 1 < t.len() {
            assert(t[t.len() - (n - 1) - 1] == s[s.len() - n - 1]);
        }
        lemma_trailing_ws(t, n - 1);
    }
}

/// Bounds `[lo, hi)` of `v` with leading and trailing whitespace removed.
pub fn trim_bounds(v: &Vec<char>, lo0: usize, hi0: usize) -> (r: (usize, usize))
    requires
        lo0 <= hi0 <= v@.len(),
    ensures
        lo0 <= r.0 <= r.1 <= hi0,
        v@.subrange(r.0 as int, r.1 as int) == trimmed(v@.subrange(lo0 as int, hi0 as int)),
{
    let ghost s = v@.subrange(lo0 as int, hi0 as int);
    let mut lo = lo0;
    while lo < hi0 && is_whitespace(v[lo])
        invariant
            lo0 <= lo <= hi0 <= v@.len(),
            forall|k: int| lo0 <= k < lo ==> spec_is_whitespace(#[trigger] v@[k]),
        decreases hi0 - lo,
    {
        lo = lo + 1;
    }
    proof {
        assert forall|k: int| 0 <= k < lo - lo0 implies spec_is_whitespace(#[trigger] s[k]) by {
            assert(s[k] == v@[lo0 + k]);
        }
        if lo < hi0 {
            assert(s[lo - lo0] == v@[lo as int]);
        }
        lemma_leading_ws(s, lo - lo0);
    }
    let ghost a = s.skip(leading_ws(s) as int);
    assert(a =~= v@.subrange(lo as int, hi0 as int));
    let mut hi = hi0;
    while hi > lo && is_whitespace(v[hi - 1])
        invariant
            lo0 <= lo <= hi <= hi0 <= v@.len(),
            forall|k: int| hi <= k < hi0 ==> spec_is_whitespace(#[trigger] v@[k]),
        decreases hi - lo,
    {
        hi = hi - 1;
    }
    proof {
        let n = hi0 - hi;
        assert forall|k: int| a.len() - n <= k < a.len() implies spec_is_whitespace(#[trigger] a[k]) by {
            assert(a[k] == v@[lo + k]);
        }
        if hi > lo {
            assert(a[a.len() - n - 1] == v@[hi - 1]);
        }
        lemma_trailing_ws(a, n);
        assert(v@.subrange(hi as int, hi as int).len() == 0);
        assert(a.take(a.len() - n) =~= v@.subrange(lo as int, hi as int));
    }
    (lo, hi)
}

/// `s` without leading and trailing whitespace (`str::trim`).
pub fn trim(s: &str) -> (r: String)
    ensures
        r@ == trimmed(s@),
{
    let v = chars_of(s);
    let (lo, hi) = trim_bounds(&v, 0, v.len());
    assert(v@.subrange(0, v@.len() as int) == v@);
    let mut r = String::new();
    push_chars(&mut r, &v, lo, hi);
    r
}

// ---------------------------------------------------------------------------
// Decimal numbers
// ---------------------------------------------------------------------------

pub open spec fn is_digit(c: char) -> bool {
    '0' <= c && c <= '9'
}

pub open spec fn digit_value(c: char) -> nat {
    (c as nat - '0' as nat) as nat
}

pub open spec fn digit_char(d: nat) -> char
    recommends
        d < 10,
{
    (d + '0' as nat) as char
}

pub open spec fn all_digits(s: Seq<char>) -> bool {
    forall|i: int| 0 <= i < s.len() ==> is_digit(#[trigger] s[i])
}

/// The number written by a string of decimal digits.
pub open spec fn digits_value(s: Seq<char>) -> nat
    decreases s.len(),
{
    if s.len() == 0 {
        0
    } else {
        digits_value(s.drop_last()) * 10 + digit_value(s.last())
    }
}

/// What `str::parse::<u32>` gives: an optional `+`, then at least one
/// decimal digit, the value fitting in a `u32`.
pub open spec fn spec_parse_u32(s: Seq<char>) -> Option<u32> {
    let d = if s.len() > 0 && s[0] == '+' { s.drop_first() } else { s };
    if d.len() > 0 && all_digits(d) && digits_value(d) <= u32::MAX {
        Some(digits_value(d) as u32)
    } else {
        None
    }
}

proof fn lemma_digits_value_grows(s: Seq<char>, c: char)
    requires
        all_digits(s.push(c)),
    ensures
        digits_value(s.push(c)) == digits_value(s) * 10 + digit_value(c),
        digits_value(s.push(c)) >= digits_value(s),
{
    assert(s.push(c).drop_last() == s);
}

proof fn lemma_digits_value_prefix_bound(s: Seq<char>, i: int)
    requires
        0 <= i <= s.len(),
        all_digits(s),
    ensures
        digits_value(s.take(i)) <= digits_value(s),
    decreases s.len() - i,
{
    if i == s.len() {
        assert(s.take(i) =~= s);
    } else {
        lemma_digits_value_prefix_bound(s, i + 1);
        assert(s.take(i + 1) == s.take(i).push(s[i]));
        assert(all_digits(s.take(i + 1))) by {
            assert forall|k: int| 0 <= k < i + 1 implies is_digit(#[trigger] s.take(i + 1)[k]) by {
                assert(s.take(i + 1)[k] == s[k]);
            }
        }
        lemma_digits_value_grows(s.take(i), s[i]);
    }
}

/// `str::parse::<u32>` on the characters `v[lo..hi]`.
pub fn parse_u32(v: &Vec<char>, lo: usize, hi: usize) -> (r: Option<u32>)
    requires
        lo <= hi <= v@.len(),
    ensures
        r == spec_parse_u32(v@.subrange(lo as int, hi as int)),
{
    let ghost s = v@.subrange(lo as int, hi as int);
    let mut start = lo;
    if lo < hi && v[lo] == '+' {
        start = lo + 1;
    }
    let ghost d = v@.subrange(start as int, hi as int);
    assert(d == (if s.len() > 0 && s[0] == '+' { s.drop_first() } else { s }));
    if start >= hi {
        return None;
    }
    let mut acc: u64 = 0;
    let mut i = start;
    while i < hi
        invariant
            lo <= start <= i <= hi <= v@.len(),
            d == v@.subrange(start as int, hi as int),
            s == v@.subrange(lo as int, hi as int),
            d == (if s.len() > 0 && s[0] == '+' { s.drop_first() } else { s }),
            all_digits(v@.subrange(start as int, i as int)),
            acc == digits_value(v@.subrange(start as int, i as int)),
            acc <= u32::MAX,
        decreases hi - i,
    {
        let c = v[i];
        if !('0' <= c && c <= '9') {
            proof {
                assert(d[i - start] == c);
                assert(!is_digit(d[i - start]));
            }
            return None;
        }
        let ghost prev = v@.subrange(start as int, i as int);
        assert(v@.subrange(start as int, i + 1) == prev.push(c));
        proof {
            lemma_digits_value_grows(prev, c);
        }
        let dv = (c as u32 - '0' as u32) as u64;
        acc = acc * 10 + dv;
        i = i + 1;
        if acc > 0xffff_ffff {
            proof {
                assert(v@.subrange(start as int, i as int) == d.take(i - start));
                if all_digits(d) {
                    lemma_digits_value_prefix_bound(d, i - start);
                }
            }
            return None;
        }
    }
    assert(v@.subrange(start as int, i as int) == d);
    Some(acc as u32)
}

/// The value of one hexadecimal digit (either case), if `c` is one.
pub open spec fn hex_value(c: char) -> Option<nat> {
    if '0' <= c && c <= '9' {
        Some((c as nat - '0' as nat) as nat)
    } else if 'a' <= c && c <= 'f' {
        Some((c as nat - 'a' as nat + 10) as nat)
    } else if 'A' <= c && c <= 'F' {
        Some((c as nat - 'A' as nat + 10) as nat)
    } else {
        None
    }
}

pub open spec fn all_hex(s: Seq<char>) -> bool {
    forall|i: int| 0 <= i < s.len() ==> (#[trigger] hex_value(s[i])) is Some
}

/// The number written by a string of hexadecimal digits.
pub open spec fn hex_digits_value(s: Seq<char>) -> nat
    decreases s.len(),
{
    if s.len() == 0 {
        0
    } else {
        hex_digits_value(s.drop_last()) * 16 + hex_value(s.last()).unwrap()
    }
}

/// What `u8::from_str_radix(s, 16)` gives: an optional `+`, then at least one
/// hexadecimal digit, the value fitting in a `u8`.
pub open spec fn spec_parse_hex_u8(s: Seq<char>) -> Option<u8> {
    let d = if s.len() > 0 && s[0] == '+' { s.drop_first() } else { s };
    if d.len() > 0 && all_hex(d) && hex_digits_value(d) <= 255 {
        Some(hex_digits_value(d) as u8)
    } else {
        None
    }
}

fn hex_digit(c: char) -> (r: Option<u32>)
    ensures
        match hex_value(c) {
            Some(x) => r == Some(x as u32),
            None => r is None,
        },
{
    if '0' <= c && c <= '9' {
        Some(c as u32 - '0' as u32)
    } else if 'a' <= c && c <= 'f' {
        Some(c as u32 - 'a' as u32 + 10)
    } else if 'A' <= c && c <= 'F' {
        Some(c as u32 - 'A' as u32 + 10)
    } else {
        None
    }
}

proof fn lemma_hex_value_prefix_bound(s: Seq<char>, i: int)
    requires
        0 <= i <= s.len(),
        all_hex(s),
    ensures
        hex_digits_value(s.take(i)) <= hex_digits_value(s),
    decreases s.len() - i,
{
    if i == s.len() {
        assert(s.take(i) =~= s);
    } else {
        assert(hex_value(s[i]) is Some);
        lemma_hex_value_prefix_bound(s, i + 1);
        assert(s.take(i + 1) == s.take(i).push(s[i]));
        assert(s.take(i + 1).drop_last() == s.take(i));
    }
}

/// `u8::from_str_radix(.., 16)` on the characters `v[lo..hi]`.
pub fn parse_hex_u8(v: &Vec<char>, lo: usize, hi: usize) -> (r: Option<u8>)
    requires
        lo <= hi <= v@.len(),
    ensures
        r == spec_parse_hex_u8(v@.subrange(lo as int, hi as int)),
{
    let ghost s = v@.subrange(lo as int, hi as int);
    let mut start = lo;
    if lo < hi && v[lo] == '+' {
        start = lo + 1;
    }
    let ghost d = v@.subrange(start as int, hi as int);
    assert(d == (if s.len() > 0 && s[0] == '+' { s.drop_first() } else { s }));
    if start >= hi {
        return None;
    }
    let mut acc: u32 = 0;
    let mut i = start;
    while i < hi
        invariant
            lo <= start <= i <= hi <= v@.len(),
            d == v@.subrange(start as int, hi as int),
            s == v@.subrange(lo as int, hi as int),
            d == (if s.len() > 0 && s[0] == '+' { s.drop_first() } else { s }),
            all_hex(v@.subrange(start as int, i as int)),
            acc == hex_digits_value(v@.subrange(start as int, i as int)),
            acc <= 255,
        decreases hi - i,
    {
        let c = v[i];
        let ghost prev = v@.subrange(start as int, i as int);
        assert(v@.subrange(start as int, i + 1) == prev.push(c));
        assert(prev.push(c).drop_last() == prev);
        match hex_digit(c) {
            None => {
                proof {
                    assert(d[i - start] == c);
                    assert(hex_value(d[i - start]) is None);
                }
                return None;
            },
            Some(x) => {
                acc = acc * 16 + x;
                i = i + 1;
                if acc > 255 {
                    proof {
                        assert(v@.subrange(start as int, i as int) == d.take(i - start));
                        if all_hex(d) {
                            lemma_hex_value_prefix_bound(d, i - start);
                        }
                    }
                    return None;
                }
            },
        }
    }
    assert(v@.subrange(start as int, i as int) == d);
    Some(acc as u8)
}

/// The decimal digits of `n`, without leading zeros (`format!("{}", n)`).
pub open spec fn decimal(n: nat) -> Seq<char>
    decreases n,
{
    if n < 10 {
        seq![digit_char(n)]
    } else {
        decimal(n / 10).push(digit_char(n % 10))
    }
}

/// `n` written with at least two digits (`format!("{:02}", n)`).
pub open spec fn decimal2(n: nat) -> Seq<char> {
    if n < 10 {
        seq!['0', digit_char(n)]
    } else {
        decimal(n)
    }
}

/// Appends the decimal digits of `n` to `s`.
pub fn push_decimal(s: &mut String, n: u64)
    ensures
        final(s)@ == old(s)@ + decimal(n as nat),
    decreases n,
{
    if n >= 10 {
        push_decimal(s, n / 10);
    }
    let d = (n % 10) as u32;
    let c = char_from_digit(d);
    push_char(s, c);
    proof {
        if n >= 10 {
            assert(old(s)@ + decimal((n / 10) as nat) + seq![c] =~= old(s)@ + decimal(n as nat));
        } else {
            assert(old(s)@ + seq![c] =~= old(s)@ + decimal(n as nat));
        }
    }
}

/// Appends `n` written with at least two digits to `s`.
pub fn push_decimal2(s: &mut String, n: u64)
    ensures
        final(s)@ == old(s)@ + decimal2(n as nat),
{
    if n < 10 {
        push_char(s, '0');
    }
    push_decimal(s, n);
    proof {
        if n < 10 {
            assert(decimal(n as nat) == seq![digit_char(n as nat)]);
            assert(old(s)@.push('0') + decimal(n as nat) =~= old(s)@ + decimal2(n as nat));
        }
    }
}

fn char_from_digit(d: u32) -> (c: char)
    requires
        d < 10,
    ensures
        c == digit_char(d as nat),
{
    if d == 0 { '0' }
    else if d == 1 { '1' }
    else if d == 2 { '2' }
    else if d == 3 { '3' }
    else if d == 4 { '4' }
    else if d == 5 { '5' }
    else if d == 6 { '6' }
    else if d == 7 { '7' }
    else if d == 8 { '8' }
    else { '9' }
}

/// The decimal digits of a number are digits, and read back as that number.
pub proof fn lemma_decimal_reads_back(n: nat)
    ensures
        all_digits(decimal(n)),
        digits_value(decimal(n)) == n,
        decimal(n).len() > 0,
        decimal(n)[0] != '+',
    decreases n,
{
    lemma_digit_char((n % 10) as nat);
    if n >= 10 {
        lemma_decimal_reads_back(n / 10);
        let s = decimal(n / 10);
        assert(decimal(n).drop_last() == s);
        assert(decimal(n)[0] == s[0]);
        assert((n / 10) * 10 + n % 10 == n) by (nonlinear_arith);
        assert(decimal(n).last() == digit_char((n % 10) as nat));
        assert(digits_value(decimal(n)) == digits_value(s) * 10 + digit_value(decimal(n).last()));
        assert forall|k: int| 0 <= k < decimal(n).len() implies is_digit(#[trigger] decimal(n)[k]) by {
            if k < s.len() {
                assert(decimal(n)[k] == s[k]);
            }
        }
    } else {
        assert(decimal(n).drop_last() =~= Seq::<char>::empty());
        assert(n % 10 == n);
        assert(digits_value(decimal(n)) == digits_value(decimal(n).drop_last()) * 10 + digit_value(decimal(n).last()));
    }
}

/// Padding to two digits keeps the value.
pub proof fn lemma_decimal2_reads_back(n: nat)
    ensures
        all_digits(decimal2(n)),
        digits_value(decimal2(n)) == n,
        decimal2(n).len() >= 2,
        decimal2(n)[0] != '+',
{
    lemma_decimal_reads_back(n);
    lemma_digit_char(n % 10);
    if n < 10 {
        let s = decimal2(n);
        assert(s.drop_last() == seq!['0']);
        assert(seq!['0'].drop_last() =~= Seq::<char>::empty());
        assert(digit_value('0') == 0);
        assert(digits_value(seq!['0']) == digits_value(seq!['0'].drop_last()) * 10 + digit_value('0'));
        assert(n % 10 == n);
        assert(digits_value(s) == digits_value(s.drop_last()) * 10 + digit_value(s.last()));
    } else {
        lemma_decimal_len(n);
    }
}

/// Digit characters stand for their value.
pub proof fn lemma_digit_char(d: nat)
    requires
        d < 10,
    ensures
        is_digit(digit_char(d)),
        digit_value(digit_char(d)) == d,
        digit_char(d) != '+',
{
}

/// Numbers of at least ten have at least two decimal digits.
pub proof fn lemma_decimal_len(n: nat)
    ensures
        n >= 10 ==> decimal(n).len() >= 2,
        decimal(n).len() >= 1,
    decreases n,
{
    if n >= 10 {
        lemma_decimal_len(n / 10);
    }
}

} // verus!
