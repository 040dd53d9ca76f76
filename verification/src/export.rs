//! Text produced for and read from files: CSV fields and rows, file-name
//! cleaning, 12-hour clock formatting, and the schedule exports.
use vstd::prelude::*;
use vstd::string::StringSliceAdditionalSpecFns;
use crate::model::{Activity, ScheduleAssignment, Team, TournamentConfig, Volunteer};
use crate::lookup::{
    find_division, find_field, find_first, find_slot, find_team, find_volunteer, slot_has_id,
    field_has_id, division_has_id, team_has_name, volunteer_has_id, };
use crate::sorting::{
    day_time_le, day_time_view, lemma_stable_order_of, lemma_stable_order_transfer, permuted,
    sorted_by, stable_order,
};
use crate::text::{
    all_digits, digits_value, chars_of, decimal, decimal2, is_ascii_char, ascii, is_alphanumeric,
    lemma_split_pair_at, parse_u32, push_char, push_chars, string_from, push_decimal, push_decimal2, push_str,
    sole_position, spec_is_alphanumeric, spec_parse_u32, split_pair,
};

verus! {

broadcast use vstd::string::group_string_axioms;

// ---------------------------------------------------------------------------
// Escaping and cleaning
// ---------------------------------------------------------------------------

/// `s` with every `"` doubled (`str::replace('"', "\"\"")`).
pub open spec fn escape_quotes(s: Seq<char>) -> Seq<char>
    decreases s.len(),
{
    if s.len() == 0 {
        Seq::empty()
    } else if s.last() == '"' {
        escape_quotes(s.drop_last()) + seq!['"', '"']
    } else {
        escape_quotes(s.drop_last()).push(s.last())
    }
}

/// Escapes a value for a quoted CSV field per RFC 4180: doubles any embedded
/// quotes. The caller wraps the result in `"`.
pub fn csv_field(value: &str) -> (r: String)
    ensures
        r@ == escape_quotes(value@),
{
    let v = chars_of(value);
    let mut out = String::new();
    let mut i: usize = 0;
    while i < v.len()
        invariant
            i <= v@.len(),
            out@ == escape_quotes(v@.take(i as int)),
        decreases v.len() - i,
    {
        assert(v@.take(i + 1).drop_last() == v@.take(i as int));
        if v[i] == '"' {
            push_char(&mut out, '"');
            push_char(&mut out, '"');
            assert(out@ =~= escape_quotes(v@.take(i as int)) + seq!['"', '"']);
        } else {
            push_char(&mut out, v[i]);
        }
        i = i + 1;
    }
    assert(v@.take(v@.len() as int) =~= v@);
    out
}

/// Reading an escaped field back: the escaped text has no lone quote, and
/// every quote of the original is doubled.
pub proof fn lemma_escape_quotes_len(s: Seq<char>)
    ensures
        escape_quotes(s).len() >= s.len(),
        (forall|i: int| 0 <= i < s.len() ==> s[i] != '"') ==> escape_quotes(s) == s,
    decreases s.len(),
{
    if s.len() > 0 {
        lemma_escape_quotes_len(s.drop_last());
        if forall|i: int| 0 <= i < s.len() ==> s[i] != '"' {
            assert forall|i: int| 0 <= i < s.drop_last().len() implies s.drop_last()[i] != '"' by {
                assert(s.drop_last()[i] == s[i]);
            }
            assert(s.last() != '"');
            assert(s.drop_last().push(s.last()) =~= s);
        }
    }
}

/// How many quotes `t` ends with.
pub open spec fn trailing_quotes(t: Seq<char>) -> nat
    decreases t.len(),
{
    if t.len() > 0 && t.last() == '"' {
        1 + trailing_quotes(t.drop_last())
    } else {
        0
    }
}

proof fn lemma_trailing_two_quotes(t: Seq<char>)
    ensures
        trailing_quotes(t + seq!['"', '"']) == trailing_quotes(t) + 2,
{
    let u = t + seq!['"', '"'];
    let v = t.push('"');
    assert(u.drop_last() =~= v);
    assert(u.last() == '"');
    assert(v.drop_last() =~= t);
    assert(v.last() == '"');
    assert(trailing_quotes(v) == 1 + trailing_quotes(t));
    assert(trailing_quotes(u) == 1 + trailing_quotes(v));
}

/// Every run of quotes in an escaped field has even length: wherever a run
/// of quotes ends (before a character that is no quote, or at the end), the
/// quotes just before that point are even in number.
pub proof fn lemma_escaped_quote_runs_even(s: Seq<char>, b: int)
    requires
        0 <= b <= escape_quotes(s).len(),
        b == escape_quotes(s).len() || escape_quotes(s)[b] != '"',
    ensures
        trailing_quotes(escape_quotes(s).take(b)) % 2 == 0,
    decreases s.len(),
{
    let r = escape_quotes(s);
    if s.len() == 0 {
        assert(r.take(b) =~= Seq::<char>::empty());
    } else {
        let p = escape_quotes(s.drop_last());
        if b <= p.len() {
            if b < p.len() {
                assert(r[b] == p[b]);
            }
            lemma_escaped_quote_runs_even(s.drop_last(), b);
            assert(r.take(b) =~= p.take(b));
        } else {
            lemma_escaped_quote_runs_even(s.drop_last(), p.len() as int);
            assert(p.take(p.len() as int) =~= p);
            if s.last() == '"' {
                assert(r == p + seq!['"', '"']);
                assert(r[p.len() as int] == '"');
                assert(b == p.len() + 2);
                assert(r.take(b) =~= r);
                lemma_trailing_two_quotes(p);
            } else {
                assert(r == p.push(s.last()));
                assert(r.take(b) =~= r);
                assert(r.last() == s.last());
            }
        }
    }
}

/// The ASCII characters of `s`, in order.
pub open spec fn ascii_only(s: Seq<char>) -> Seq<char>
    decreases s.len(),
{
    if s.len() == 0 {
        Seq::empty()
    } else if is_ascii_char(s.last()) {
        ascii_only(s.drop_last()).push(s.last())
    } else {
        ascii_only(s.drop_last())
    }
}

/// `text` without its non-ASCII characters.
pub fn clean_text(text: &str) -> (r: String)
    ensures
        r@ == ascii_only(text@),
{
    let v = chars_of(text);
    let mut out = String::new();
    let mut i: usize = 0;
    while i < v.len()
        invariant
            i <= v@.len(),
            out@ == ascii_only(v@.take(i as int)),
        decreases v.len() - i,
    {
        assert(v@.take(i + 1).drop_last() == v@.take(i as int));
        if ascii(v[i]) {
            push_char(&mut out, v[i]);
        }
        i = i + 1;
    }
    assert(v@.take(v@.len() as int) =~= v@);
    out
}

/// Cleaned text is ASCII and no longer than the input.
pub proof fn lemma_ascii_only(s: Seq<char>)
    ensures
        forall|i: int| 0 <= i < ascii_only(s).len() ==> is_ascii_char(#[trigger] ascii_only(s)[i]),
        ascii_only(s).len() <= s.len(),
        (forall|i: int| 0 <= i < s.len() ==> is_ascii_char(#[trigger] s[i])) ==> ascii_only(s) == s,
    decreases s.len(),
{
    if s.len() > 0 {
        lemma_ascii_only(s.drop_last());
        let p = ascii_only(s.drop_last());
        if is_ascii_char(s.last()) {
            assert forall|i: int| 0 <= i < ascii_only(s).len() implies is_ascii_char(#[trigger] ascii_only(s)[i]) by {
                if i < p.len() {
                    assert(ascii_only(s)[i] == p[i]);
                }
            }
        }
        if forall|i: int| 0 <= i < s.len() ==> is_ascii_char(#[trigger] s[i]) {
            assert forall|i: int| 0 <= i < s.drop_last().len() implies is_ascii_char(#[trigger] s.drop_last()[i]) by {
                assert(s.drop_last()[i] == s[i]);
            }
            assert(is_ascii_char(s[s.len() - 1]));
            assert(s.drop_last().push(s.last()) =~= s);
        }
    }
}

/// The pieces `str::split(sep)` yields, built left to right.
pub open spec fn split_on(s: Seq<char>, sep: char) -> Seq<Seq<char>>
    decreases s.len(),
{
    if s.len() == 0 {
        seq![Seq::<char>::empty()]
    } else {
        let p = split_on(s.drop_last(), sep);
        if s.last() == sep {
            p.push(Seq::empty())
        } else {
            p.update(p.len() - 1, p.last().push(s.last()))
        }
    }
}

pub proof fn lemma_split_on_nonempty(s: Seq<char>, sep: char)
    ensures
        split_on(s, sep).len() >= 1,
    decreases s.len(),
{
    if s.len() > 0 {
        lemma_split_on_nonempty(s.drop_last(), sep);
    }
}

/// The non-empty pieces, in order.
pub open spec fn nonempty_pieces(parts: Seq<Seq<char>>) -> Seq<Seq<char>>
    decreases parts.len(),
{
    if parts.len() == 0 {
        Seq::empty()
    } else if parts.last().len() > 0 {
        nonempty_pieces(parts.drop_last()).push(parts.last())
    } else {
        nonempty_pieces(parts.drop_last())
    }
}

/// The pieces joined with `sep` between them (`slice::join`).
pub open spec fn join_with(parts: Seq<Seq<char>>, sep: char) -> Seq<char>
    decreases parts.len(),
{
    if parts.len() == 0 {
        Seq::empty()
    } else if parts.len() == 1 {
        parts[0]
    } else {
        join_with(parts.drop_last(), sep).push(sep) + parts.last()
    }
}

/// Each alphanumeric character kept, every other character made `_`.
pub open spec fn underscore_non_alnum(s: Seq<char>) -> Seq<char> {
    Seq::new(s.len(), |i: int| if spec_is_alphanumeric(s[i]) { s[i] } else { '_' })
}

/// A file-system-safe name: alphanumerics kept, everything else turned into
/// `_`, non-ASCII characters dropped, and runs of `_` (with any at either end)
/// collapsed by splitting on `_`, dropping empty pieces and rejoining.
pub open spec fn spec_clean_filename(name: Seq<char>) -> Seq<char> {
    join_with(nonempty_pieces(split_on(ascii_only(underscore_non_alnum(name)), '_')), '_')
}

/// Splits `v` on `sep` into pieces.
pub(crate) fn split_chars(v: &Vec<char>, sep: char) -> (r: Vec<Vec<char>>)
    ensures
        r@.len() == split_on(v@, sep).len(),
        forall|i: int| 0 <= i < r@.len() ==> (#[trigger] r@[i])@ == split_on(v@, sep)[i],
{
    let mut pieces: Vec<Vec<char>> = Vec::new();
    let mut cur: Vec<char> = Vec::new();
    let mut i: usize = 0;
    while i < v.len()
        invariant
            i <= v@.len(),
            pieces@.len() + 1 == split_on(v@.take(i as int), sep).len(),
            forall|k: int| 0 <= k < pieces@.len() ==> (#[trigger] pieces@[k])@ == split_on(v@.take(i as int), sep)[k],
            cur@ == split_on(v@.take(i as int), sep).last(),
        decreases v.len() - i,
    {
        proof {
            lemma_split_on_nonempty(v@.take(i as int), sep);
        }
        assert(v@.take(i + 1).drop_last() == v@.take(i as int));
        if v[i] == sep {
            let done = cur;
            pieces.push(done);
            cur = Vec::new();
        } else {
            cur.push(v[i]);
        }
        i = i + 1;
    }
    assert(v@.take(v@.len() as int) =~= v@);
    pieces.push(cur);
    pieces
}

/// Turns a display name into a safe file name.
pub fn clean_filename(name: &str) -> (r: String)
    ensures
        r@ == spec_clean_filename(name@),
{
    let v = chars_of(name);
    // Map, then keep ASCII.
    let mut kept: Vec<char> = Vec::new();
    let mut i: usize = 0;
    let ghost mapped = underscore_non_alnum(v@);
    while i < v.len()
        invariant
            i <= v@.len(),
            mapped == underscore_non_alnum(v@),
            kept@ == ascii_only(mapped.take(i as int)),
        decreases v.len() - i,
    {
        assert(mapped.take(i + 1).drop_last() == mapped.take(i as int));
        let c = if is_alphanumeric(v[i]) { v[i] } else { '_' };
        assert(c == mapped[i as int]);
        if ascii(c) {
            kept.push(c);
        }
        i = i + 1;
    }
    assert(mapped.take(v@.len() as int) =~= mapped);
    let pieces = split_chars(&kept, '_');
    let ghost all = split_on(kept@, '_');
    // Keep the non-empty pieces and join them with '_'.
    let mut out = String::new();
    let mut count: usize = 0;
    let mut j: usize = 0;
    while j < pieces.len()
        invariant
            j <= pieces@.len(),
            pieces@.len() == all.len(),
            forall|k: int| 0 <= k < pieces@.len() ==> (#[trigger] pieces@[k])@ == all[k],
            count == nonempty_pieces(all.take(j as int)).len(),
            count <= j,
            out@ == join_with(nonempty_pieces(all.take(j as int)), '_'),
        decreases pieces.len() - j,
    {
        assert(all.take(j + 1).drop_last() == all.take(j as int));
        assert(all.take(j + 1).last() == all[j as int]);
        let p = &pieces[j];
        if p.len() > 0 {
            if count > 0 {
                push_char(&mut out, '_');
            }
            let ghost before = out@;
            let mut k: usize = 0;
            while k < p.len()
                invariant
                    k <= p@.len(),
                    out@ == before + p@.take(k as int),
                decreases p.len() - k,
            {
                push_char(&mut out, p[k]);
                assert(p@.take(k + 1) == p@.take(k as int).push(p@[k as int]));
                k = k + 1;
            }
            assert(p@.take(p@.len() as int) =~= p@);
            proof {
                let prev = nonempty_pieces(all.take(j as int));
                let now = prev.push(all[j as int]);
                if count > 0 {
                    assert(now.drop_last() == prev);
                    assert(join_with(now, '_') == join_with(prev, '_').push('_') + all[j as int]);
                } else {
                    assert(prev.len() == 0);
                    assert(now.len() == 1);
                    assert(now[0] == all[j as int]);
                }
            }
            count = count + 1;
        }
        j = j + 1;
    }
    assert(all.take(all.len() as int) =~= all);
    out
}

// ---------------------------------------------------------------------------
// Day names and clock times
// ---------------------------------------------------------------------------

/// The first three characters of a day name, or the whole name when it has
/// fewer.
pub open spec fn spec_day_abbr(day: Seq<char>) -> Seq<char> {
    if day.len() >= 3 {
        day.take(3)
    } else {
        day
    }
}

/// The short form of a day name: its first three characters ("Saturday" ->
/// "Sat", "Sábado" -> "Sáb"), or the whole name when it is shorter.
pub fn day_abbr(day: &str) -> (r: String)
    ensures
        r@ == spec_day_abbr(day@),
{
    let v = chars_of(day);
    if v.len() >= 3 {
        let mut out = String::new();
        push_chars(&mut out, &v, 0, 3);
        assert(v@.subrange(0, 3) =~= v@.take(3));
        out
    } else {
        string_from(day)
    }
}

/// `"H:MM AM"`/`"H:MM PM"` for a valid 24-hour time, `None` otherwise.
pub open spec fn twelve_hour(time: Seq<char>) -> Option<Seq<char>> {
    match split_pair(time, ':') {
        Some((a, b)) => match (spec_parse_u32(a), spec_parse_u32(b)) {
            (Some(h), Some(m)) => if h < 24 && m < 60 {
                let h12: nat = if h % 12 == 0 { 12 } else { (h % 12) as nat };
                let suffix = if h < 12 { "AM"@ } else { "PM"@ };
                Some(decimal(h12) + seq![':'] + decimal2(m as nat) + seq![' '] + suffix)
            } else {
                None
            },
            _ => None,
        },
        None => None,
    }
}

/// A stored `"HH:MM"` time as exported: with `twelve_hour` a 12-hour clock
/// with an AM/PM suffix when the time is valid, otherwise unchanged.
pub open spec fn spec_format_time_str(time: Seq<char>, twelve_hour_clock: bool) -> Seq<char> {
    if !twelve_hour_clock {
        time
    } else {
        match twelve_hour(time) {
            Some(t) => t,
            None => time,
        }
    }
}

proof fn lemma_two_digit_minutes(m: nat)
    requires
        m < 60,
    ensures
        decimal2(m).len() == 2,
        all_digits(decimal2(m)),
        digits_value(decimal2(m)) == m,
{
    crate::text::lemma_decimal2_reads_back(m);
    if m >= 10 {
        assert(m / 10 < 10);
        assert(decimal(m / 10).len() == 1);
    }
}

proof fn lemma_no_leading_zero(n: nat)
    requires
        n >= 1,
    ensures
        decimal(n)[0] != '0',
    decreases n,
{
    if n >= 10 {
        lemma_no_leading_zero(n / 10);
        crate::text::lemma_decimal_len(n / 10);
        assert(decimal(n)[0] == decimal(n / 10)[0]);
    }
}

/// A valid `HH:MM` time on the 12-hour clock reads back as the time it
/// came from: it ends with ` AM` before noon and ` PM` from noon on; before
/// that come exactly two digits giving the minutes, then a `:`; and what
/// precedes the `:` reads as an hour from 1 to 12 equal to the input hour
/// modulo 12, written without a leading zero.
pub proof fn lemma_twelve_hour_reads_back(time: Seq<char>, h: u32, m: u32)
    requires
        split_pair(time, ':') matches Some((a, b)) && spec_parse_u32(a) == Some(h) && spec_parse_u32(b) == Some(m),
        h < 24,
        m < 60,
    ensures
        ({
            let r = spec_format_time_str(time, true);
            let k = r.len();
            &&& k >= 7
            &&& r.skip(k - 3) == (if h < 12 { " AM"@ } else { " PM"@ })
            &&& all_digits(r.subrange(k - 5, k - 3))
            &&& digits_value(r.subrange(k - 5, k - 3)) == m
            &&& r[k - 6] == ':'
            &&& r[0] != '0'
            &&& spec_parse_u32(r.take(k - 6)) matches Some(v) && 1 <= v <= 12 && v % 12 == h % 12
        }),
{
    let h12: nat = if h % 12 == 0 { 12 } else { (h % 12) as nat };
    let suffix = if h < 12 { "AM"@ } else { "PM"@ };
    let r = spec_format_time_str(time, true);
    let hd = decimal(h12);
    let md = decimal2(m as nat);
    assert(r == hd + seq![':'] + md + seq![' '] + suffix);
    crate::text::lemma_decimal_reads_back(h12);
    lemma_no_leading_zero(h12);
    lemma_two_digit_minutes(m as nat);
    reveal_strlit("AM");
    reveal_strlit("PM");
    reveal_strlit(" AM");
    reveal_strlit(" PM");
    assert(suffix.len() == 2);
    let k = r.len();
    assert(k == hd.len() + 6);
    assert(r.skip(k - 3) =~= seq![' '] + suffix);
    assert(r.subrange(k - 5, k - 3) =~= md);
    assert(r.take(k - 6) =~= hd);
    assert(r[k - 6] == ':');
    assert(r[0] == hd[0]);
    assert(h12 <= u32::MAX);
}

/// A time is exported as stored on the 24-hour clock, and on the 12-hour
/// clock whenever it is not a valid `HH:MM` time.
pub proof fn lemma_time_kept_unless_converted(time: Seq<char>, twelve: bool)
    ensures
        !twelve ==> spec_format_time_str(time, twelve) == time,
        spec_format_time_str(time, twelve) != time ==> twelve && valid_clock(time),
{
}

/// `time` is `H:M` with an hour below 24 and a minute below 60.
pub open spec fn valid_clock(time: Seq<char>) -> bool {
    split_pair(time, ':') matches Some((a, b)) && (spec_parse_u32(a) matches Some(h) && (spec_parse_u32(b) matches Some(m)
        && h < 24 && m < 60))
}

/// Formats a stored `"HH:MM"` time for export. With `twelve_hour` it becomes a
/// 12-hour clock with an AM/PM suffix (e.g. `"14:30"` -> `"2:30 PM"`);
/// otherwise the original 24-hour string is returned. Unparseable input is
/// passed through unchanged.
pub fn format_time_str(time: &str, twelve_hour: bool) -> (r: String)
    ensures
        r@ == spec_format_time_str(time@, twelve_hour),
{
    let mut out = String::new();
    if !twelve_hour {
        push_str(&mut out, time);
        return out;
    }
    let v = chars_of(time);
    let pos = sole_position(&v, 0, v.len(), ':');
    assert(v@.subrange(0, v@.len() as int) == v@);
    let i = match pos {
        Some(i) => i,
        None => {
            push_str(&mut out, time);
            return out;
        },
    };
    proof {
        lemma_split_pair_at(v@, ':', i as int);
    }
    assert(v@.subrange(0, i as int) == v@.take(i as int));
    assert(v@.subrange(i + 1, v@.len() as int) == v@.skip(i + 1));
    let (h, m) = match (parse_u32(&v, 0, i), parse_u32(&v, i + 1, v.len())) {
        (Some(h), Some(m)) => {
            if h < 24 && m < 60 {
                (h, m)
            } else {
                push_str(&mut out, time);
                return out;
            }
        },
        _ => {
            push_str(&mut out, time);
            return out;
        },
    };
    let h12 = if h % 12 == 0 { 12 } else { h % 12 };
    push_decimal(&mut out, h12 as u64);
    push_char(&mut out, ':');
    push_decimal2(&mut out, m as u64);
    push_char(&mut out, ' ');
    if h < 12 {
        push_str(&mut out, "AM");
    } else {
        push_str(&mut out, "PM");
    }
    out
}

// ---------------------------------------------------------------------------
// Splitting a CSV line
// ---------------------------------------------------------------------------

/// State of the CSV line scanner after reading `s`: the fields completed so
/// far, the field being read, and whether the scanner is inside quotes.
/// A `"` toggles quoting and is dropped; a `,` outside quotes ends a field.
pub open spec fn csv_scan(s: Seq<char>) -> (Seq<Seq<char>>, Seq<char>, bool)
    decreases s.len(),
{
    if s.len() == 0 {
        (Seq::empty(), Seq::empty(), false)
    } else {
        let (fields, cur, quoted) = csv_scan(s.drop_last());
        let c = s.last();
        if c == '"' {
            (fields, cur, !quoted)
        } else if c == ',' && !quoted {
            (fields.push(cur), Seq::empty(), quoted)
        } else {
            (fields, cur.push(c), quoted)
        }
    }
}

/// The fields of a CSV line.
pub open spec fn spec_split_csv_line(line: Seq<char>) -> Seq<Seq<char>> {
    let (fields, cur, _) = csv_scan(line);
    fields.push(cur)
}

/// Splits one CSV line into fields, honouring double quotes around commas.
pub fn split_csv_line(line: &str) -> (r: Vec<String>)
    ensures
        r@.len() == spec_split_csv_line(line@).len(),
        forall|i: int| 0 <= i < r@.len() ==> (#[trigger] r@[i])@ == spec_split_csv_line(line@)[i],
{
    let v = chars_of(line);
    let mut result: Vec<String> = Vec::new();
    let mut current = String::new();
    let mut in_quotes = false;
    let mut i: usize = 0;
    while i < v.len()
        invariant
            i <= v@.len(),
            result@.len() == csv_scan(v@.take(i as int)).0.len(),
            forall|k: int| 0 <= k < result@.len() ==> (#[trigger] result@[k])@ == csv_scan(v@.take(i as int)).0[k],
            current@ == csv_scan(v@.take(i as int)).1,
            in_quotes == csv_scan(v@.take(i as int)).2,
        decreases v.len() - i,
    {
        assert(v@.take(i + 1).drop_last() == v@.take(i as int));
        let c = v[i];
        if c == '"' {
            in_quotes = !in_quotes;
        } else if c == ',' && !in_quotes {
            let done = current;
            result.push(done);
            current = String::new();
        } else {
            push_char(&mut current, c);
        }
        i = i + 1;
    }
    assert(v@.take(v@.len() as int) =~= v@);
    result.push(current);
    result
}

/// A line without quotes splits at every comma, exactly as `str::split(',')`.
pub proof fn lemma_csv_without_quotes(line: Seq<char>)
    requires
        forall|i: int| 0 <= i < line.len() ==> line[i] != '"',
    ensures
        spec_split_csv_line(line) == split_on(line, ','),
        !csv_scan(line).2,
    decreases line.len(),
{
    if line.len() > 0 {
        let s = line.drop_last();
        assert forall|i: int| 0 <= i < s.len() implies s[i] != '"' by {
            assert(s[i] == line[i]);
        }
        lemma_csv_without_quotes(s);
        let (fields, cur, q) = csv_scan(s);
        let p = split_on(s, ',');
        assert(fields.push(cur) == p);
        assert(line.last() != '"');
        if line.last() == ',' {
            assert(fields.push(cur).push(Seq::empty()) == p.push(Seq::empty()));
        } else {
            assert(p.len() == fields.len() + 1);
            assert(fields.push(cur.push(line.last())) =~= p.update(p.len() - 1, p.last().push(line.last())));
        }
    }
}

// ---------------------------------------------------------------------------
// The schedule as CSV
// ---------------------------------------------------------------------------

/// A CSV field: the escaped text between double quotes.
pub open spec fn quoted(x: Seq<char>) -> Seq<char> {
    seq!['"'] + escape_quotes(x) + seq!['"']
}

/// The pieces joined with `sep` between them.
pub open spec fn join_text(parts: Seq<Seq<char>>, sep: Seq<char>) -> Seq<char>
    decreases parts.len(),
{
    if parts.len() == 0 {
        Seq::empty()
    } else if parts.len() == 1 {
        parts[0]
    } else {
        join_text(parts.drop_last(), sep) + sep + parts.last()
    }
}

/// The organisation of the first team with this name, empty if none.
pub open spec fn org_of(teams: Seq<Team>, name: Seq<char>) -> Seq<char> {
    match find_first(teams, team_has_name(name)) {
        Some(t) => t.organization@,
        None => Seq::empty(),
    }
}

/// The name of the first volunteer with this id, or the id itself.
pub open spec fn volunteer_label(volunteers: Seq<Volunteer>, id: Seq<char>) -> Seq<char> {
    match find_first(volunteers, volunteer_has_id(id)) {
        Some(v) => v.name@,
        None => id,
    }
}

/// The volunteers of an assignment, by name where known.
pub open spec fn volunteer_labels(volunteers: Seq<Volunteer>, ids: Seq<String>) -> Seq<Seq<char>> {
    Seq::new(ids.len(), |i: int| volunteer_label(volunteers, ids[i]@))
}

/// Name of the field an assignment is placed on, empty when none is known.
pub open spec fn field_name_of(config: TournamentConfig, a: ScheduleAssignment) -> Seq<char> {
    match a.field_id {
        Some(fid) => match find_first(config.fields@, field_has_id(fid@)) {
            Some(f) => f.name@,
            None => Seq::empty(),
        },
        None => Seq::empty(),
    }
}

/// Name of the division of an activity, empty when it is unknown.
pub open spec fn division_name_of(config: TournamentConfig, act: Activity) -> Seq<char> {
    match find_first(config.divisions@, division_has_id(act.spec_division_id())) {
        Some(d) => d.name@,
        None => Seq::empty(),
    }
}

/// `"Sat 9:00 AM"`-style time of an assignment's slot, empty when the slot is
/// unknown.
pub open spec fn slot_time_text(config: TournamentConfig, a: ScheduleAssignment, t12: bool) -> Seq<char> {
    match find_first(config.time_slots@, slot_has_id(a.time_slot_id@)) {
        Some(s) => spec_day_abbr(s.day@) + seq![' '] + spec_format_time_str(s.start_time@, t12),
        None => Seq::empty(),
    }
}

/// Team A, its organisation, team B and its organisation of an activity
/// (runs and interviews have no team B).
pub open spec fn team_columns(teams: Seq<Team>, act: Activity) -> Seq<Seq<char>> {
    match act {
        Activity::Match { team_a, team_b, .. } => seq![
            team_a@,
            org_of(teams, team_a@),
            team_b@,
            org_of(teams, team_b@),
        ],
        Activity::Run { team, .. } => seq![team@, org_of(teams, team@), Seq::empty(), Seq::empty()],
        Activity::Interview { team, .. } => seq![
            team@,
            org_of(teams, team@),
            Seq::empty(),
            Seq::empty(),
        ],
    }
}

/// The columns of one CSV row of the schedule, unquoted.
pub open spec fn csv_columns(config: TournamentConfig, a: ScheduleAssignment, t12: bool) -> Seq<Seq<char>> {
    let tc = team_columns(config.teams@, a.activity);
    seq![
        field_name_of(config, a),
        slot_time_text(config, a, t12),
        division_name_of(config, a.activity),
        a.activity.spec_export_label(),
        tc[0],
        tc[1],
        tc[2],
        tc[3],
        join_text(volunteer_labels(config.volunteers@, a.volunteer_ids@), seq![';', ' ']),
    ]
}

/// The team columns of an exported row name the activity's teams, each
/// followed by that team's own organisation: columns 4 and 6 hold the first
/// and second team (the second empty for a run or an interview), column 5
/// the organisation of the team in column 4, and column 7 that of the team
/// in column 6 (empty when there is no second team).
pub proof fn lemma_csv_orgs_follow_teams(config: TournamentConfig, a: ScheduleAssignment, t12: bool)
    ensures
        ({
            let cols = csv_columns(config, a, t12);
            let names = a.activity.spec_teams();
            &&& cols.len() == 9
            &&& cols[4] == names[0]
            &&& cols[5] == org_of(config.teams@, cols[4])
            &&& names.len() == 2 ==> cols[6] == names[1] && cols[7] == org_of(config.teams@, cols[6])
            &&& names.len() == 1 ==> cols[6].len() == 0 && cols[7].len() == 0
        }),
{
}

/// Columns quoted and separated by commas, then a newline.
pub open spec fn quoted_row(cols: Seq<Seq<char>>) -> Seq<char> {
    join_text(Seq::new(cols.len(), |i: int| quoted(cols[i])), seq![',']).push('\n')
}

/// The CSV rows of `items`, in order.
pub open spec fn csv_rows(config: TournamentConfig, items: Seq<ScheduleAssignment>, t12: bool) -> Seq<char>
    decreases items.len(),
{
    if items.len() == 0 {
        Seq::empty()
    } else {
        csv_rows(config, items.drop_last(), t12) + quoted_row(csv_columns(config, items.last(), t12))
    }
}

pub open spec fn csv_header() -> Seq<char> {
    "Field,Time,Division,Activity,Team A,Org A,Team B,Org B,Volunteers\n"@
}

/// Sort key of an assignment: its slot's day and start minute, `None` when
/// the slot is unknown.
pub open spec fn day_time_key(config: TournamentConfig, a: ScheduleAssignment) -> Option<(Seq<char>, nat)> {
    match find_first(config.time_slots@, slot_has_id(a.time_slot_id@)) {
        Some(s) => Some((s.day@, s.spec_start_minutes())),
        None => None,
    }
}

/// The order of day-and-minute keys: unknown slots first, then by day
/// name, then by minute.
pub open spec fn day_time_order() -> spec_fn(Option<(Seq<char>, nat)>, Option<(Seq<char>, nat)>) -> bool {
    |x: Option<(Seq<char>, nat)>, y: Option<(Seq<char>, nat)>| day_time_le(x, y)
}

pub open spec fn day_time_keys(config: TournamentConfig, items: Seq<ScheduleAssignment>) -> Seq<Option<(Seq<char>, nat)>> {
    Seq::new(items.len(), |i: int| day_time_key(config, items[i]))
}

/// Appends `"text"` with quotes escaped.
pub fn push_quoted(out: &mut String, text: &str)
    ensures
        final(out)@ == old(out)@ + quoted(text@),
{
    push_char(out, '"');
    let e = csv_field(text);
    push_str(out, e.as_str());
    push_char(out, '"');
}

/// The organisation of the first team with this name, empty if none.
pub fn org_lookup(teams: &Vec<Team>, name: &str) -> (r: String)
    ensures
        r@ == org_of(teams@, name@),
{
    match find_team(teams, name) {
        Some(i) => teams[i].organization.clone(),
        None => String::new(),
    }
}

/// The volunteers of an assignment by name, joined with `sep`.
pub fn volunteer_list(volunteers: &Vec<Volunteer>, ids: &Vec<String>, sep: &str) -> (r: String)
    ensures
        r@ == join_text(volunteer_labels(volunteers@, ids@), sep@),
{
    let ghost labels = volunteer_labels(volunteers@, ids@);
    let mut out = String::new();
    let mut i: usize = 0;
    while i < ids.len()
        invariant
            i <= ids@.len(),
            labels == volunteer_labels(volunteers@, ids@),
            out@ == join_text(labels.take(i as int), sep@),
        decreases ids.len() - i,
    {
        if i > 0 {
            push_str(&mut out, sep);
        }
        match find_volunteer(volunteers, ids[i].as_str()) {
            Some(k) => push_str(&mut out, volunteers[k].name.as_str()),
            None => push_str(&mut out, ids[i].as_str()),
        }
        proof {
            let t = labels.take(i + 1);
            assert(t.drop_last() == labels.take(i as int));
            assert(t.last() == labels[i as int]);
            if i == 0 {
                assert(t.len() == 1);
            }
        }
        i = i + 1;
    }
    assert(labels.take(ids@.len() as int) =~= labels);
    out
}

/// Name of the field an assignment is placed on, empty when none is known.
pub fn assignment_field_name(config: &TournamentConfig, a: &ScheduleAssignment) -> (r: String)
    ensures
        r@ == field_name_of(*config, *a),
{
    match &a.field_id {
        Some(fid) => match find_field(&config.fields, fid.as_str()) {
            Some(i) => config.fields[i].name.clone(),
            None => String::new(),
        },
        None => String::new(),
    }
}

/// Day abbreviation and start time of an assignment's slot, empty when the
/// slot is unknown.
pub fn assignment_time_text(config: &TournamentConfig, a: &ScheduleAssignment, time_12h: bool) -> (r: String)
    ensures
        r@ == slot_time_text(*config, *a, time_12h),
{
    match find_slot(&config.time_slots, a.time_slot_id.as_str()) {
        Some(i) => {
            let slot = &config.time_slots[i];
            let mut t = String::new();
            push_str(&mut t, day_abbr(slot.day.as_str()).as_str());
            push_char(&mut t, ' ');
            let f = format_time_str(slot.start_time.as_str(), time_12h);
            push_str(&mut t, f.as_str());
            t
        },
        None => String::new(),
    }
}

/// Name of an activity's division, empty when unknown.
pub fn activity_division_name(config: &TournamentConfig, act: &Activity) -> (r: String)
    ensures
        r@ == division_name_of(*config, *act),
{
    match find_division(&config.divisions, act.division_id()) {
        Some(i) => config.divisions[i].name.clone(),
        None => String::new(),
    }
}

/// Team A, its organisation, team B and its organisation.
fn team_column_texts(teams: &Vec<Team>, act: &Activity) -> (r: (String, String, String, String))
    ensures
        r.0@ == team_columns(teams@, *act)[0],
        r.1@ == team_columns(teams@, *act)[1],
        r.2@ == team_columns(teams@, *act)[2],
        r.3@ == team_columns(teams@, *act)[3],
{
    match act {
        Activity::Match { team_a, team_b, .. } => (
            team_a.clone(),
            org_lookup(teams, team_a.as_str()),
            team_b.clone(),
            org_lookup(teams, team_b.as_str()),
        ),
        Activity::Run { team, .. } => (team.clone(), org_lookup(teams, team.as_str()), String::new(), String::new()),
        Activity::Interview { team, .. } => (
            team.clone(),
            org_lookup(teams, team.as_str()),
            String::new(),
            String::new(),
        ),
    }
}

/// One CSV row of the schedule.
pub fn csv_row_text(config: &TournamentConfig, a: &ScheduleAssignment, time_12h: bool) -> (r: String)
    ensures
        r@ == quoted_row(csv_columns(*config, *a, time_12h)),
{
    let ghost cols = csv_columns(*config, *a, time_12h);
    let field_name = assignment_field_name(config, a);
    let time_str = assignment_time_text(config, a, time_12h);
    let div_name = activity_division_name(config, &a.activity);
    let (team_a, org_a, team_b, org_b) = team_column_texts(&config.teams, &a.activity);
    let vol_names = volunteer_list(&config.volunteers, &a.volunteer_ids, "; ");
    let label = a.activity.export_label();
    proof {
        reveal_strlit("; ");
        assert("; "@ =~= seq![';', ' ']);
    }
    let mut row: Vec<String> = Vec::new();
    row.push(field_name);
    row.push(time_str);
    row.push(div_name);
    row.push(label);
    row.push(team_a);
    row.push(org_a);
    row.push(team_b);
    row.push(org_b);
    row.push(vol_names);
    assert(Seq::new(row@.len(), |i: int| row@[i]@) =~= cols);
    quoted_row_text(&row)
}

/// Columns quoted, separated by commas, and ended with a newline.
pub fn quoted_row_text(cols: &Vec<String>) -> (r: String)
    ensures
        r@ == quoted_row(Seq::new(cols@.len(), |i: int| cols@[i]@)),
{
    let ghost views = Seq::new(cols@.len(), |i: int| cols@[i]@);
    let ghost q = Seq::new(views.len(), |i: int| quoted(views[i]));
    let mut out = String::new();
    let mut i: usize = 0;
    while i < cols.len()
        invariant
            i <= cols@.len(),
            views == Seq::new(cols@.len(), |i: int| cols@[i]@),
            q == Seq::new(views.len(), |i: int| quoted(views[i])),
            out@ == join_text(q.take(i as int), seq![',']),
        decreases cols.len() - i,
    {
        if i > 0 {
            push_char(&mut out, ',');
        }
        push_quoted(&mut out, cols[i].as_str());
        proof {
            let t = q.take(i + 1);
            assert(t.drop_last() == q.take(i as int));
            assert(t.last() == quoted(views[i as int]));
            if i == 0 {
                assert(t.len() == 1);
            }
        }
        i = i + 1;
    }
    assert(q.take(cols@.len() as int) =~= q);
    push_char(&mut out, '\n');
    out
}

/// The schedule as CSV: a header, then one row per assignment ordered by its
/// slot's day and start time (assignments whose slot is unknown first), ties
/// kept in the given order.
pub fn generate_csv_content_internal(config: &TournamentConfig, assignments: &[ScheduleAssignment], time_12h: bool) -> (r: String)
    requires
        config.slot_times_fit(),
    ensures
        r@ == csv_header() + csv_rows(
            *config,
            sorted_by(assignments@, day_time_keys(*config, assignments@), day_time_order()),
            time_12h,
        ),
{
    let ghost views = day_time_keys(*config, assignments@);
    let mut keys: Vec<Option<(String, u32)>> = Vec::new();
    let mut i: usize = 0;
    while i < assignments.len()
        invariant
            i <= assignments@.len(),
            config.slot_times_fit(),
            views == day_time_keys(*config, assignments@),
            keys@.len() == i,
            forall|k: int| 0 <= k < i ==> day_time_view(#[trigger] keys@[k]) == views[k],
        decreases assignments.len() - i,
    {
        let a = &assignments[i];
        match find_slot(&config.time_slots, a.time_slot_id.as_str()) {
            Some(j) => {
                let slot = &config.time_slots[j];
                assert(slot.times_fit());
                keys.push(Some((slot.day.clone(), slot.start_minutes())));
            },
            None => {
                keys.push(None);
            },
        }
        i = i + 1;
    }
    let perm = stable_order(&keys);
    let ghost le = day_time_order();
    proof {
        lemma_stable_order_transfer(keys@, views, le, perm@);
        lemma_stable_order_of(views, le, perm@);
    }
    let mut out = String::new();
    push_str(&mut out, "Field,Time,Division,Activity,Team A,Org A,Team B,Org B,Volunteers\n");
    let ghost items = permuted(assignments@, perm@);
    let mut k: usize = 0;
    while k < perm.len()
        invariant
            k <= perm@.len(),
            perm@.len() == assignments@.len(),
            forall|a: int| 0 <= a < perm@.len() ==> #[trigger] perm@[a] < assignments@.len(),
            items == permuted(assignments@, perm@),
            out@ == csv_header() + csv_rows(*config, items.take(k as int), time_12h),
        decreases perm.len() - k,
    {
        let idx = perm[k];
        let row = csv_row_text(config, &assignments[idx], time_12h);
        push_str(&mut out, row.as_str());
        proof {
            assert(items.take(k + 1).drop_last() == items.take(k as int));
            assert(items.take(k + 1).last() == assignments@[idx as int]);
        }
        k = k + 1;
    }
    assert(items.take(perm@.len() as int) =~= items);
    out
}


/// Which reports a full export writes, in which formats, and how times are
/// written.
#[derive(Debug, Clone, Copy, PartialEq, Eq, Structural)]
pub struct ExportOptions {
    pub master: bool,
    pub divisions: bool,
    pub teams: bool,
    pub volunteers: bool,
    pub csv: bool,
    pub pdf: bool,
    pub time_12h: bool,
}

/// Reports a full export writes: the master schedule, then one per
/// division, team and volunteer of the chosen kinds.
pub open spec fn spec_export_total(o: ExportOptions, divisions: nat, teams: nat, volunteers: nat) -> nat {
    (if o.master {
        1nat
    } else {
        0nat
    }) + (if o.divisions {
        divisions
    } else {
        0nat
    }) + (if o.teams {
        teams
    } else {
        0nat
    }) + (if o.volunteers {
        volunteers
    } else {
        0nat
    })
}

/// Steps a full export reports progress over: its reports, at least one.
pub open spec fn spec_export_steps(o: ExportOptions, divisions: nat, teams: nat, volunteers: nat) -> nat {
    let total = spec_export_total(o, divisions, teams, volunteers);
    if total >= 1 {
        total
    } else {
        1
    }
}

pub fn export_step_count(o: &ExportOptions, divisions: usize, teams: usize, volunteers: usize) -> (r: usize)
    requires
        spec_export_total(*o, divisions as nat, teams as nat, volunteers as nat) <= usize::MAX,
    ensures
        r == spec_export_steps(*o, divisions as nat, teams as nat, volunteers as nat),
{
    let mut total: usize = if o.master {
        1
    } else {
        0
    };
    if o.divisions {
        total = total + divisions;
    }
    if o.teams {
        total = total + teams;
    }
    if o.volunteers {
        total = total + volunteers;
    }
    if total >= 1 {
        total
    } else {
        1
    }
}

} // verus!
