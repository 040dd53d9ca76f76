//! Importing teams from a registration CSV export: which divisions the file
//! names, which rows become teams, and the divisions created for them.
use vstd::prelude::*;
use crate::export::{split_chars, split_csv_line, spec_split_csv_line, split_on, lemma_split_on_nonempty};
use crate::lookup::{division_has_name, find_division_by_name, first_where};
use crate::model::{Division, SchedulingMode, Team, TournamentConfig};
use crate::sorting::{chars_less, chars_lt, lemma_chars_lt_total, lemma_chars_lt_trans};
use crate::text::{
    chars_of, contains_text, decimal, occurs_in, push_decimal, push_str, same_text, spec_to_lowercase, string_from,
    string_of, to_lowercase, trim, trimmed,
};
use crate::generation::string_views;

verus! {

broadcast use vstd::string::group_string_axioms;

/// A file read for import: its text, the divisions it names (sorted, each
/// once) and those chosen for import.
#[derive(Debug, Clone)]
pub struct CsvImportData {
    pub raw_content: String,
    pub divisions: Vec<String>,
    /// Chosen division names; all of them to begin with.
    pub selected_divisions: Vec<String>,
}

// ---------------------------------------------------------------------------
// Lines
// ---------------------------------------------------------------------------

/// A line without the `\r` of a `\r\n` ending.
pub open spec fn strip_cr(line: Seq<char>) -> Seq<char> {
    if line.len() > 0 && line.last() == '\r' {
        line.drop_last()
    } else {
        line
    }
}

/// The lines of a text as `str::lines` gives them: split at each `\n`, a
/// `\r` just before the `\n` dropped, and no empty line after a final `\n`.
pub open spec fn text_lines(s: Seq<char>) -> Seq<Seq<char>> {
    let p = split_on(s, '\n');
    let ended = Seq::new((p.len() - 1) as nat, |i: int| strip_cr(p[i]));
    if p.last().len() == 0 {
        ended
    } else {
        ended.push(p.last())
    }
}

/// The lines of `s`, as [`text_lines`] describes.
pub fn lines_of(s: &str) -> (r: Vec<Vec<char>>)
    ensures
        r@.len() == text_lines(s@).len(),
        forall|i: int| 0 <= i < r@.len() ==> (#[trigger] r@[i])@ == text_lines(s@)[i],
{
    let v = chars_of(s);
    let pieces = split_chars(&v, '\n');
    proof {
        lemma_split_on_nonempty(v@, '\n');
    }
    let ghost p = split_on(v@, '\n');
    let n = pieces.len();
    let mut r: Vec<Vec<char>> = Vec::new();
    let mut i: usize = 0;
    while i + 1 < n
        invariant
            n == p.len(),
            n >= 1,
            i + 1 <= n,
            pieces@.len() == n,
            forall|k: int| 0 <= k < n ==> (#[trigger] pieces@[k])@ == p[k],
            r@.len() == i,
            forall|k: int| 0 <= k < i ==> (#[trigger] r@[k])@ == strip_cr(p[k]),
        decreases n - i,
    {
        let mut line: Vec<char> = Vec::new();
        let piece = &pieces[i];
        let len = piece.len();
        let end = if len > 0 && piece[len - 1] == '\r' {
            len - 1
        } else {
            len
        };
        let mut k: usize = 0;
        while k < end
            invariant
                k <= end <= piece@.len(),
                line@ == piece@.take(k as int),
            decreases end - k,
        {
            line.push(piece[k]);
            k = k + 1;
            assert(line@ =~= piece@.take(k as int));
        }
        assert(line@ =~= strip_cr(piece@));
        r.push(line);
        i = i + 1;
    }
    let last = &pieces[n - 1];
    if last.len() > 0 {
        let mut copy: Vec<char> = Vec::new();
        let mut k: usize = 0;
        while k < last.len()
            invariant
                k <= last@.len(),
                copy@ == last@.take(k as int),
            decreases last.len() - k,
        {
            copy.push(last[k]);
            k = k + 1;
            assert(copy@ =~= last@.take(k as int));
        }
        assert(copy@ =~= last@);
        r.push(copy);
    }
    assert(v@ == s@);
    r
}

/// The lines after the header.
pub open spec fn body_lines(s: Seq<char>) -> Seq<Seq<char>> {
    if text_lines(s).len() == 0 {
        Seq::empty()
    } else {
        text_lines(s).drop_first()
    }
}

// ---------------------------------------------------------------------------
// Reading a file for import
// ---------------------------------------------------------------------------

/// The division named by a line with at least 11 fields (its 7th, trimmed),
/// if not blank.
pub open spec fn row_division(line: Seq<char>) -> Option<Seq<char>> {
    let parts = spec_split_csv_line(line);
    if parts.len() >= 11 && trimmed(parts[6]).len() > 0 {
        Some(trimmed(parts[6]))
    } else {
        None
    }
}

/// The divisions named by the lines, in order, repeats included.
pub open spec fn named_divisions(lines: Seq<Seq<char>>) -> Seq<Seq<char>>
    decreases lines.len(),
{
    if lines.len() == 0 {
        Seq::empty()
    } else {
        match row_division(lines.last()) {
            Some(d) => named_divisions(lines.drop_last()).push(d),
            None => named_divisions(lines.drop_last()),
        }
    }
}

/// `r` lists the strings of `names` once each, in increasing order.
pub open spec fn sorted_distinct(r: Seq<Seq<char>>, names: Seq<Seq<char>>) -> bool {
    &&& forall|i: int, j: int| 0 <= i < j < r.len() ==> chars_lt(#[trigger] r[i], #[trigger] r[j])
    &&& forall|x: Seq<char>| #[trigger] r.contains(x) <==> names.contains(x)
}

/// The message for a file that cannot be imported, if it cannot: it has no
/// line, or its header lacks `Name` or `Division`.
pub open spec fn import_problem(content: Seq<char>) -> Option<Seq<char>> {
    let lines = text_lines(content);
    if lines.len() == 0 {
        Some("Empty CSV file"@)
    } else if !occurs_in("Name"@, lines[0]) || !occurs_in("Division"@, lines[0]) {
        Some("Invalid CSV: Missing 'Name' or 'Division' columns"@)
    } else {
        None
    }
}

/// `name` inserted into the increasing list `list` unless already there.
fn insert_sorted(list: &mut Vec<String>, name: String)
    requires
        forall|i: int, j: int| 0 <= i < j < old(list)@.len() ==> chars_lt(
            #[trigger] old(list)@[i]@,
            #[trigger] old(list)@[j]@,
        ),
    ensures
        forall|i: int, j: int| 0 <= i < j < final(list)@.len() ==> chars_lt(
            #[trigger] final(list)@[i]@,
            #[trigger] final(list)@[j]@,
        ),
        forall|x: Seq<char>| #[trigger] string_views(final(list)@).contains(x) <==> string_views(old(list)@).contains(x)
            || x == name@,
{
    let nv = chars_of(name.as_str());
    let mut p: usize = 0;
    while p < list.len()
        invariant
            p <= list@.len(),
            nv@ == name@,
            forall|i: int, j: int| 0 <= i < j < list@.len() ==> chars_lt(#[trigger] list@[i]@, #[trigger] list@[j]@),
            forall|i: int| 0 <= i < p ==> chars_lt(#[trigger] list@[i]@, name@),
        ensures
            p <= list@.len(),
            forall|i: int| 0 <= i < p ==> chars_lt(#[trigger] list@[i]@, name@),
            p < list@.len() ==> !chars_lt(list@[p as int]@, name@),
        decreases list.len() - p,
    {
        let cur = chars_of(list[p].as_str());
        if !chars_less(&cur, &nv) {
            break;
        }
        p = p + 1;
    }
    let ghost before = list@;
    assert(string_views(before).len() == before.len());
    if p < list.len() {
        let cur = chars_of(list[p].as_str());
        if same_chars_vec(&cur, &nv) {
            assert(string_views(list@)[p as int] == name@);
            return;
        }
        proof {
            lemma_chars_lt_total(list@[p as int]@, name@);
        }
    }
    list.insert(p, name);
    proof {
        assert forall|i: int, j: int| 0 <= i < j < list@.len() implies chars_lt(#[trigger] list@[i]@, #[trigger] list@[j]@) by {
            if j < p {
                assert(list@[i] == before[i] && list@[j] == before[j]);
            } else if j == p {
                assert(list@[i] == before[i]);
            } else if i == p {
                assert(list@[j] == before[j - 1]);
                if j - 1 > p {
                    lemma_chars_lt_trans(name@, before[p as int]@, before[j - 1]@);
                }
            } else if i < p {
                assert(list@[i] == before[i] && list@[j] == before[j - 1]);
            } else {
                assert(list@[i] == before[i - 1] && list@[j] == before[j - 1]);
            }
        }
        assert forall|x: Seq<char>| #[trigger] string_views(list@).contains(x) <==> string_views(before).contains(x)
            || x == name@ by {
            if string_views(list@).contains(x) {
                let k = choose|k: int| 0 <= k < string_views(list@).len() && string_views(list@)[k] == x;
                if k < p {
                    assert(string_views(before)[k] == x);
                } else if k > p {
                    assert(string_views(before)[k - 1] == x);
                }
            }
            if string_views(before).contains(x) {
                let k = choose|k: int| 0 <= k < string_views(before).len() && string_views(before)[k] == x;
                if k < p {
                    assert(string_views(list@)[k] == x);
                } else {
                    assert(string_views(list@)[k + 1] == x);
                }
            }
            if x == name@ {
                assert(string_views(list@)[p as int] == x);
            }
        }
    }
}

fn same_chars_vec(a: &Vec<char>, b: &Vec<char>) -> (r: bool)
    ensures
        r == (a@ == b@),
{
    crate::text::same_chars(a, b)
}

/// Reads a registration file: the divisions its rows name, each once and
/// sorted, all chosen; or the message when it cannot be imported.
pub fn prepare_csv_import(content: &str) -> (r: Result<CsvImportData, String>)
    ensures
        match import_problem(content@) {
            Some(msg) => r matches Err(t) && t@ == msg,
            None => r matches Ok(data) && {
                &&& data.raw_content@ == content@
                &&& sorted_distinct(string_views(data.divisions@), named_divisions(body_lines(content@)))
                &&& string_views(data.selected_divisions@) == string_views(data.divisions@)
            },
        },
{
    let lines = lines_of(content);
    if lines.len() == 0 {
        return Err(string_from("Empty CSV file"));
    }
    let name_word = chars_of("Name");
    let division_word = chars_of("Division");
    if !contains_text(&lines[0], &name_word) || !contains_text(&lines[0], &division_word) {
        return Err(string_from("Invalid CSV: Missing 'Name' or 'Division' columns"));
    }
    let ghost body = body_lines(content@);
    assert(body =~= text_lines(content@).drop_first());
    let mut found: Vec<String> = Vec::new();
    let mut i: usize = 1;
    while i < lines.len()
        invariant
            1 <= i <= lines@.len(),
            lines@.len() == text_lines(content@).len(),
            forall|k: int| 0 <= k < lines@.len() ==> (#[trigger] lines@[k])@ == text_lines(content@)[k],
            body == text_lines(content@).drop_first(),
            forall|a: int, b: int| 0 <= a < b < found@.len() ==> chars_lt(#[trigger] found@[a]@, #[trigger] found@[b]@),
            forall|x: Seq<char>| #[trigger] string_views(found@).contains(x) <==> named_divisions(body.take(i - 1)).contains(x),
        decreases lines.len() - i,
    {
        assert(body.take(i as int).drop_last() =~= body.take(i - 1));
        assert(body.take(i as int).last() == lines@[i as int]@);
        let line = string_of(&lines[i]);
        let parts = split_csv_line(line.as_str());
        if parts.len() >= 11 {
            let d = trim(parts[6].as_str());
            if !d.as_str().is_empty() {
                let ghost before = found@;
                insert_sorted(&mut found, d);
                proof {
                    let nd = named_divisions(body.take(i as int));
                    let prev = named_divisions(body.take(i - 1));
                    assert(nd == prev.push(d@));
                    assert forall|x: Seq<char>| #[trigger] string_views(found@).contains(x) <==> nd.contains(x) by {
                        if nd.contains(x) && x != d@ {
                            let k = choose|k: int| 0 <= k < nd.len() && nd[k] == x;
                            assert(prev[k] == x);
                        }
                        if prev.contains(x) {
                            let k = choose|k: int| 0 <= k < prev.len() && prev[k] == x;
                            assert(nd[k] == x);
                        }
                        if x == d@ {
                            assert(nd[prev.len() as int] == x);
                        }
                    }
                }
            } else {
                assert(named_divisions(body.take(i as int)) == named_divisions(body.take(i - 1)));
            }
        } else {
            assert(named_divisions(body.take(i as int)) == named_divisions(body.take(i - 1)));
        }
        i = i + 1;
    }
    assert(body.take(i - 1) =~= body);
    let mut selected: Vec<String> = Vec::new();
    let mut k: usize = 0;
    while k < found.len()
        invariant
            k <= found@.len(),
            string_views(selected@) == string_views(found@.take(k as int)),
        decreases found.len() - k,
    {
        let ghost before = selected@;
        selected.push(found[k].clone());
        proof {
            assert(string_views(before).len() == before.len());
            assert forall|q: int| 0 <= q < k + 1 implies string_views(selected@)[q] == string_views(found@.take(k + 1))[q] by {
                if q < k {
                    assert(string_views(before)[q] == string_views(found@.take(k as int))[q]);
                }
            }
        }
        k = k + 1;
        assert(string_views(selected@) =~= string_views(found@.take(k as int)));
    }
    assert(found@.take(k as int) =~= found@);
    Ok(CsvImportData { raw_content: string_from(content), divisions: found, selected_divisions: selected })
}

// ---------------------------------------------------------------------------
// Importing the chosen rows
// ---------------------------------------------------------------------------

/// A row's team name, whether it withdrew, its division and its school, all
/// trimmed; `None` for a blank line or one with fewer than 11 fields.
pub open spec fn team_row(line: Seq<char>) -> Option<(Seq<char>, bool, Seq<char>, Seq<char>)> {
    let parts = spec_split_csv_line(line);
    if trimmed(line).len() == 0 || parts.len() < 11 {
        None
    } else {
        Some(
            (
                trimmed(parts[3]),
                spec_to_lowercase(trimmed(parts[4])) == "true"@,
                trimmed(parts[6]),
                trimmed(parts[10]),
            ),
        )
    }
}

/// The teams to import, in file order: name, division and school of each
/// row that has a name, has not withdrawn, and is in a chosen division.
pub open spec fn import_rows(lines: Seq<Seq<char>>, selected: Seq<Seq<char>>) -> Seq<
    (Seq<char>, Seq<char>, Seq<char>),
>
    decreases lines.len(),
{
    if lines.len() == 0 {
        Seq::empty()
    } else {
        let prev = import_rows(lines.drop_last(), selected);
        match team_row(lines.last()) {
            Some((name, withdrawn, div, school)) => if !withdrawn && name.len() > 0 && selected.contains(div) {
                prev.push((name, div, school))
            } else {
                prev
            },
            None => prev,
        }
    }
}

pub open spec fn division_names(divs: Seq<Division>) -> Seq<Seq<char>> {
    Seq::new(divs.len(), |i: int| divs[i].name@)
}

/// Division names of the rows that no division in `known` has, each once,
/// in order of first appearance: the divisions an import creates.
pub open spec fn new_division_names(known: Seq<Seq<char>>, rows: Seq<(Seq<char>, Seq<char>, Seq<char>)>) -> Seq<
    Seq<char>,
>
    decreases rows.len(),
{
    if rows.len() == 0 {
        Seq::empty()
    } else {
        let prev = new_division_names(known, rows.drop_last());
        let d = rows.last().1;
        if known.contains(d) || prev.contains(d) {
            prev
        } else {
            prev.push(d)
        }
    }
}

/// A division whose lowercase name mentions soccer is played head to head.
pub open spec fn soccer_like(name: Seq<char>) -> bool {
    occurs_in("soccer"@, spec_to_lowercase(name))
}

/// The division an import creates for `name`, with the given id: three
/// games a team, 20-minute games, interviews of 15 minutes, no finals, and
/// a random colour with each component from 50 to 200.
pub open spec fn imported_division(d: Division, id: Seq<char>, name: Seq<char>) -> bool {
    let h2h = soccer_like(name);
    let crew: usize = if h2h {
        2
    } else {
        1
    };
    &&& d.id@ == id
    &&& d.name@ == name
    &&& d.mode == (if h2h {
        SchedulingMode::HeadToHead
    } else {
        SchedulingMode::IndividualRun
    })
    &&& d.games_per_team == 3
    &&& d.volunteers_required == crew
    &&& d.duration_minutes == 20
    &&& d.allowed_fields is None
    &&& d.interviews_enabled
    &&& d.interview_volunteers_required == crew
    &&& d.interview_duration_minutes == 15
    &&& !d.finals_enabled
    &&& d.finals_rounds is None
    &&& d.finals_duration_minutes is None
    &&& !d.finals_third_place_playoff
    &&& d.color matches Some(c) && forall|k: int| 0 <= k < 3 ==> 50 <= #[trigger] c@[k] <= 200
    &&& d.min_match_break_minutes is None
}

/// Id of the first division named `name`.
pub open spec fn id_named(divs: Seq<Division>, name: Seq<char>) -> Seq<char> {
    match first_where(divs, division_has_name(name)) {
        Some(i) => divs[i].id@,
        None => Seq::empty(),
    }
}

pub open spec fn import_message(count: nat) -> Seq<char> {
    "Successfully imported "@ + decimal(count) + " teams!"@
}

/// Calls `rand::Rng::gen_range(50..=200)` on `rand::thread_rng()` for each
/// component; by its documentation each value lies in the range given.
#[verifier::external_body]
fn random_division_color() -> (c: [u8; 3])
    ensures
        forall|k: int| 0 <= k < 3 ==> 50 <= #[trigger] c@[k] <= 200,
{
    let mut rng = rand::thread_rng();
    [
        rand::Rng::gen_range(&mut rng, 50..=200),
        rand::Rng::gen_range(&mut rng, 50..=200),
        rand::Rng::gen_range(&mut rng, 50..=200),
    ]
}

/// The division an import creates for `name`.
fn new_imported_division(id: String, name: String) -> (d: Division)
    ensures
        imported_division(d, id@, name@),
{
    let lower = to_lowercase(name.as_str());
    let h2h = contains_text(&chars_of(lower.as_str()), &chars_of("soccer"));
    let mode = if h2h {
        SchedulingMode::HeadToHead
    } else {
        SchedulingMode::IndividualRun
    };
    let crew: usize = if h2h {
        2
    } else {
        1
    };
    Division {
        id,
        name,
        mode,
        games_per_team: 3,
        volunteers_required: crew,
        duration_minutes: 20,
        allowed_fields: None,
        interviews_enabled: true,
        interview_volunteers_required: crew,
        interview_duration_minutes: 15,
        finals_enabled: false,
        finals_rounds: None,
        finals_duration_minutes: None,
        finals_third_place_playoff: false,
        color: Some(random_division_color()),
        min_match_break_minutes: None,
    }
}

/// Appending to a sequence leaves an existing first match where it was.
proof fn lemma_first_where_push<T>(s: Seq<T>, x: T, p: spec_fn(T) -> bool)
    requires
        first_where(s, p) is Some,
    ensures
        first_where(s.push(x), p) == first_where(s, p),
{
    crate::lookup::lemma_first_where_found(s, p);
    let i = first_where(s, p).unwrap();
    assert(s.push(x)[i] == s[i]);
    assert forall|j: int| 0 <= j < i implies !p(#[trigger] s.push(x)[j]) by {
        assert(s.push(x)[j] == s[j]);
    }
    crate::lookup::lemma_first_where_at(s.push(x), p, i);
}

/// The rows of a prefix of the lines are a prefix of the rows.
proof fn lemma_import_rows_prefix(lines: Seq<Seq<char>>, selected: Seq<Seq<char>>, a: int)
    requires
        0 <= a <= lines.len(),
    ensures
        import_rows(lines.take(a), selected).len() <= import_rows(lines, selected).len(),
        import_rows(lines, selected).take(import_rows(lines.take(a), selected).len() as int) == import_rows(
            lines.take(a),
            selected,
        ),
    decreases lines.len() - a,
{
    if a == lines.len() {
        assert(lines.take(a) =~= lines);
        assert(import_rows(lines, selected).take(import_rows(lines, selected).len() as int) =~= import_rows(lines, selected));
    } else {
        lemma_import_rows_prefix(lines, selected, a + 1);
        assert(lines.take(a + 1).drop_last() =~= lines.take(a));
        let small = import_rows(lines.take(a), selected);
        let mid = import_rows(lines.take(a + 1), selected);
        let all = import_rows(lines, selected);
        assert(mid == small || mid == small.push(mid.last()));
        assert(all.take(small.len() as int) =~= mid.take(small.len() as int));
        assert(mid.take(small.len() as int) =~= small);
    }
}

/// The divisions created for a prefix of the rows are no more than for all.
proof fn lemma_new_names_prefix(known: Seq<Seq<char>>, rows: Seq<(Seq<char>, Seq<char>, Seq<char>)>, m: int)
    requires
        0 <= m <= rows.len(),
    ensures
        new_division_names(known, rows.take(m)).len() <= new_division_names(known, rows).len(),
    decreases rows.len() - m,
{
    if m < rows.len() {
        lemma_new_names_prefix(known, rows, m + 1);
        assert(rows.take(m + 1).drop_last() =~= rows.take(m));
    } else {
        assert(rows.take(m) =~= rows);
    }
}

/// The fields of one line, when it makes a team to import.
fn read_row(line: &Vec<char>, selected: &Vec<String>) -> (r: Option<(String, String, String)>)
    ensures
        match team_row(line@) {
            Some((name, withdrawn, div, school)) => if !withdrawn && name.len() > 0 && string_views(selected@).contains(div) {
                r matches Some((n, d, sc)) && n@ == name && d@ == div && sc@ == school
            } else {
                r is None
            },
            None => r is None,
        },
{
    let text = string_of(line);
    let blank = trim(text.as_str());
    if blank.as_str().is_empty() {
        return None;
    }
    let parts = split_csv_line(text.as_str());
    if parts.len() < 11 {
        return None;
    }
    let name = trim(parts[3].as_str());
    let flag = to_lowercase(trim(parts[4].as_str()).as_str());
    let withdrawn = same_text(flag.as_str(), "true");
    let div = trim(parts[6].as_str());
    let school = trim(parts[10].as_str());
    if withdrawn || name.as_str().is_empty() {
        return None;
    }
    let chosen = crate::lookup::contains_string(selected, div.as_str());
    proof {
        if chosen {
            let q = choose|q: int| 0 <= q < selected@.len() && (#[trigger] selected@[q])@ == div@;
            assert(string_views(selected@)[q] == div@);
        } else {
            assert forall|q: int| 0 <= q < string_views(selected@).len() implies string_views(selected@)[q] != div@ by {
                assert(string_views(selected@)[q] == selected@[q]@);
            }
        }
    }
    if !chosen {
        return None;
    }
    Some((name, div, school))
}

/// After importing `rows`: the divisions are the old ones followed by one
/// created for each new division name (its id the next of `ids`), and the
/// teams are the old ones followed by one per row, pointing at the first
/// division of the row's division name.
pub open spec fn import_done(
    divs: Seq<Division>,
    teams: Seq<Team>,
    divs0: Seq<Division>,
    teams0: Seq<Team>,
    rows: Seq<(Seq<char>, Seq<char>, Seq<char>)>,
    ids: Seq<Seq<char>>,
) -> bool {
    let made = new_division_names(division_names(divs0), rows);
    let n0 = divs0.len();
    let t0 = teams0.len();
    &&& divs.len() == n0 + made.len()
    &&& forall|j: int| 0 <= j < n0 ==> #[trigger] divs[j] == divs0[j]
    &&& forall|k: int| 0 <= k < made.len() ==> imported_division(#[trigger] divs[n0 + k], ids[k], made[k])
    &&& teams.len() == t0 + rows.len()
    &&& forall|j: int| 0 <= j < t0 ==> #[trigger] teams[j] == teams0[j]
    &&& forall|r: int| 0 <= r < rows.len() ==> {
        let team = #[trigger] teams[t0 + r];
        &&& team.name@ == rows[r].0
        &&& team.division_id@ == id_named(divs, rows[r].1)
        &&& team.organization@ == rows[r].2
    }
}

/// Every division name in `divs` is an old one or a created one, and the
/// reverse; every row's division is among them.
pub open spec fn names_cover(
    divs: Seq<Division>,
    divs0: Seq<Division>,
    rows: Seq<(Seq<char>, Seq<char>, Seq<char>)>,
) -> bool {
    let made = new_division_names(division_names(divs0), rows);
    &&& forall|x: Seq<char>| #[trigger] division_names(divs).contains(x) <==> (division_names(divs0).contains(x)
        || made.contains(x))
    &&& forall|r: int| 0 <= r < rows.len() ==> division_names(divs).contains(#[trigger] rows[r].1)
}

proof fn lemma_named_found(divs: Seq<Division>, name: Seq<char>)
    requires
        division_names(divs).contains(name),
    ensures
        first_where(divs, division_has_name(name)) is Some,
{
    crate::lookup::lemma_first_where_found(divs, division_has_name(name));
    let q = choose|q: int| 0 <= q < division_names(divs).len() && division_names(divs)[q] == name;
    assert(division_has_name(name)(divs[q]));
}

/// Imports one row.
fn import_row(
    divs: &mut Vec<Division>,
    teams: &mut Vec<Team>,
    name: String,
    div: String,
    school: String,
    new_ids: &Vec<String>,
    created: usize,
    Ghost(divs0): Ghost<Seq<Division>>,
    Ghost(teams0): Ghost<Seq<Team>>,
    Ghost(rows): Ghost<Seq<(Seq<char>, Seq<char>, Seq<char>)>>,
) -> (made: usize)
    requires
        import_done(old(divs)@, old(teams)@, divs0, teams0, rows, string_views(new_ids@)),
        names_cover(old(divs)@, divs0, rows),
        created == new_division_names(division_names(divs0), rows).len(),
        new_division_names(division_names(divs0), rows.push((name@, div@, school@))).len() <= new_ids@.len(),
    ensures
        import_done(final(divs)@, final(teams)@, divs0, teams0, rows.push((name@, div@, school@)), string_views(new_ids@)),
        names_cover(final(divs)@, divs0, rows.push((name@, div@, school@))),
        made == new_division_names(division_names(divs0), rows.push((name@, div@, school@))).len(),
{
    let ghost known = division_names(divs0);
    let ghost made_before = new_division_names(known, rows);
    let ghost row = (name@, div@, school@);
    let ghost rows_after = rows.push(row);
    let ghost ids = string_views(new_ids@);
    let ghost divs_before = divs@;
    let ghost teams_before = teams@;
    let ghost p = division_has_name(div@);
    let ghost n0 = divs0.len();
    assert(rows_after.drop_last() =~= rows);
    proof {
        crate::lookup::lemma_first_where_found(divs_before, p);
    }
    let (div_id, made) = match find_division_by_name(divs, div.as_str()) {
        Some(j) => {
            assert(division_names(divs_before)[j as int] == div@);
            assert(division_names(divs_before).contains(div@));
            assert(new_division_names(known, rows_after) == made_before);
            (divs[j].id.clone(), created)
        },
        None => {
            assert(!division_names(divs_before).contains(div@)) by {
                if division_names(divs_before).contains(div@) {
                    let q = choose|q: int| 0 <= q < division_names(divs_before).len() && division_names(divs_before)[q] == div@;
                    assert(p(divs_before[q]));
                }
            }
            assert(new_division_names(known, rows_after) == made_before.push(div@));
            assert(new_ids@.len() == new_ids.len());
            let id = new_ids[created].clone();
            let d = new_imported_division(new_ids[created].clone(), div.clone());
            divs.push(d);
            proof {
                let divs_after = divs@;
                assert(ids[created as int] == new_ids@[created as int]@);
                assert forall|x: Seq<char>| #[trigger] division_names(divs_after).contains(x) <==> (known.contains(x)
                    || made_before.push(div@).contains(x)) by {
                    assert(division_names(divs_before).contains(x) <==> (known.contains(x) || made_before.contains(x)));
                    if made_before.contains(x) {
                        let q = choose|q: int| 0 <= q < made_before.len() && made_before[q] == x;
                        assert(made_before.push(div@)[q] == x);
                    }
                    if division_names(divs_after).contains(x) {
                        let q = choose|q: int| 0 <= q < division_names(divs_after).len() && division_names(divs_after)[q] == x;
                        if q < divs_before.len() {
                            assert(division_names(divs_before)[q] == x);
                        } else {
                            assert(made_before.push(div@)[made_before.len() as int] == x);
                        }
                    }
                    if made_before.push(div@).contains(x) {
                        let q = choose|q: int| 0 <= q < made_before.push(div@).len() && made_before.push(div@)[q] == x;
                        if q < made_before.len() {
                            assert(made_before[q] == x);
                            assert(division_names(divs_before).contains(x));
                            let w = choose|w: int| 0 <= w < division_names(divs_before).len() && division_names(divs_before)[w] == x;
                            assert(division_names(divs_after)[w] == x);
                        } else {
                            assert(division_names(divs_after)[divs_before.len() as int] == x);
                        }
                    }
                    if known.contains(x) {
                        assert(division_names(divs_before).contains(x));
                        let w = choose|w: int| 0 <= w < division_names(divs_before).len() && division_names(divs_before)[w] == x;
                        assert(division_names(divs_after)[w] == x);
                    }
                }
                assert forall|r: int| 0 <= r < rows.len() implies id_named(divs_after, #[trigger] rows[r].1) == id_named(
                    divs_before,
                    rows[r].1,
                ) by {
                    assert(division_names(divs_before).contains(rows[r].1));
                    lemma_named_found(divs_before, rows[r].1);
                    lemma_first_where_push(divs_before, d, division_has_name(rows[r].1));
                    crate::lookup::lemma_first_where_found(divs_before, division_has_name(rows[r].1));
                }
                assert forall|j: int| 0 <= j < divs_before.len() implies !p(#[trigger] divs_after[j]) by {
                    assert(divs_after[j] == divs_before[j]);
                }
                crate::lookup::lemma_first_where_at(divs_after, p, divs_before.len() as int);
            }
            (id, created + 1)
        },
    };
    let ghost divs_now = divs@;
    teams.push(Team { name, division_id: div_id, organization: school });
    proof {
        lemma_named_found(divs_now, div@);
        assert(division_names(divs_now).contains(div@)) by {
            assert(new_division_names(known, rows_after).contains(div@) || known.contains(div@)) by {
                if !known.contains(div@) && !made_before.contains(div@) {
                    assert(new_division_names(known, rows_after)[made_before.len() as int] == div@);
                }
                if made_before.contains(div@) {
                    let q = choose|q: int| 0 <= q < made_before.len() && made_before[q] == div@;
                    assert(new_division_names(known, rows_after)[q] == div@);
                }
            }
        }
        assert forall|r: int| 0 <= r < rows_after.len() implies division_names(divs_now).contains(#[trigger] rows_after[r].1) by {
            if r < rows.len() {
                assert(rows_after[r] == rows[r]);
                assert(division_names(divs_before).contains(rows[r].1));
                let w = choose|w: int| 0 <= w < division_names(divs_before).len() && division_names(divs_before)[w] == rows[r].1;
                assert(division_names(divs_now)[w] == rows[r].1);
            }
        }
        assert forall|r: int| 0 <= r < rows_after.len() implies {
            let team = #[trigger] teams@[teams0.len() + r];
            &&& team.name@ == rows_after[r].0
            &&& team.division_id@ == id_named(divs_now, rows_after[r].1)
            &&& team.organization@ == rows_after[r].2
        } by {
            if r < rows.len() {
                assert(rows_after[r] == rows[r]);
                assert(teams@[teams0.len() + r] == teams_before[teams0.len() + r]);
            }
        }
    }
    made
}

/// Adds a team for each chosen row, creating a division (with the next of
/// `new_ids` as its id) for each division name no division has yet. Gives
/// the message to show.
pub fn finalize_csv_import(config: &mut TournamentConfig, data: &CsvImportData, new_ids: &Vec<String>) -> (status: String)
    requires
        new_ids@.len() == new_division_names(
            division_names(old(config).divisions@),
            import_rows(body_lines(data.raw_content@), string_views(data.selected_divisions@)),
        ).len(),
        fresh_ids(string_views(new_ids@), old(config).divisions@),
    ensures
        ({
            let rows = import_rows(body_lines(data.raw_content@), string_views(data.selected_divisions@));
            &&& status@ == import_message(rows.len())
            &&& import_done(
                final(config).divisions@,
                final(config).teams@,
                old(config).divisions@,
                old(config).teams@,
                rows,
                string_views(new_ids@),
            )
        }),
        final(config).competition_name == old(config).competition_name,
        final(config).fields == old(config).fields,
        final(config).time_slots == old(config).time_slots,
        final(config).volunteers == old(config).volunteers,
        final(config).strict_capabilities == old(config).strict_capabilities,
        final(config).fairness_mode == old(config).fairness_mode,
        final(config).day_configs == old(config).day_configs,
{
    let lines = lines_of(data.raw_content.as_str());
    let ghost body = body_lines(data.raw_content@);
    let ghost sel = string_views(data.selected_divisions@);
    let ghost divs0 = old(config).divisions@;
    let ghost teams0 = old(config).teams@;
    let ghost ids = string_views(new_ids@);
    let mut count: usize = 0;
    let mut created: usize = 0;
    let mut i: usize = 1;
    if lines.len() == 0 {
        assert(body =~= Seq::<Seq<char>>::empty());
    } else {
        assert(body =~= text_lines(data.raw_content@).drop_first());
    }
    assert(body.take(0) =~= Seq::<Seq<char>>::empty());
    assert(new_division_names(division_names(divs0), Seq::empty()) =~= Seq::<Seq<char>>::empty());
    while i < lines.len()
        invariant
            lines@.len() == text_lines(data.raw_content@).len(),
            forall|k: int| 0 <= k < lines@.len() ==> (#[trigger] lines@[k])@ == text_lines(data.raw_content@)[k],
            lines@.len() > 0 ==> body == text_lines(data.raw_content@).drop_first(),
            body == body_lines(data.raw_content@),
            1 <= i,
            i <= lines@.len() || i == 1,
            sel == string_views(data.selected_divisions@),
            ids == string_views(new_ids@),
            new_ids@.len() == new_division_names(division_names(divs0), import_rows(body, sel)).len(),
            count == import_rows(body.take(i - 1), sel).len(),
            created == new_division_names(division_names(divs0), import_rows(body.take(i - 1), sel)).len(),
            import_done(config.divisions@, config.teams@, divs0, teams0, import_rows(body.take(i - 1), sel), ids),
            names_cover(config.divisions@, divs0, import_rows(body.take(i - 1), sel)),
            config.competition_name == old(config).competition_name,
            config.fields == old(config).fields,
            config.time_slots == old(config).time_slots,
            config.volunteers == old(config).volunteers,
            config.strict_capabilities == old(config).strict_capabilities,
            config.fairness_mode == old(config).fairness_mode,
            config.day_configs == old(config).day_configs,
        decreases lines.len() - i,
    {
        let ghost rows_before = import_rows(body.take(i - 1), sel);
        assert(body.take(i as int).drop_last() =~= body.take(i - 1));
        assert(body.take(i as int).last() == lines@[i as int]@);
        proof {
            lemma_import_rows_prefix(body, sel, i as int);
        }
        match read_row(&lines[i], &data.selected_divisions) {
            None => {
                assert(import_rows(body.take(i as int), sel) == rows_before);
            },
            Some((name, div, school)) => {
                let ghost rows_after = rows_before.push((name@, div@, school@));
                assert(import_rows(body.take(i as int), sel) == rows_after);
                proof {
                    lemma_new_names_prefix(division_names(divs0), import_rows(body, sel), rows_after.len() as int);
                    assert(import_rows(body, sel).take(rows_after.len() as int) == rows_after);
                }
                created = import_row(
                    &mut config.divisions,
                    &mut config.teams,
                    name,
                    div,
                    school,
                    new_ids,
                    created,
                    Ghost(divs0),
                    Ghost(teams0),
                    Ghost(rows_before),
                );
                assert(config.teams@.len() == config.teams.len());
                count = count + 1;
            },
        }
        i = i + 1;
    }
    assert(body.take(i - 1) =~= body);
    let mut msg = string_from("Successfully imported ");
    push_decimal(&mut msg, count as u64);
    push_str(&mut msg, " teams!");
    msg
}

/// The ids differ from one another and from every existing division's id.
pub open spec fn fresh_ids(ids: Seq<Seq<char>>, divs: Seq<Division>) -> bool {
    &&& forall|i: int, j: int| 0 <= i < j < ids.len() ==> ids[i] != ids[j]
    &&& forall|i: int, k: int| 0 <= i < ids.len() && 0 <= k < divs.len() ==> ids[i] != divs[k].id@
}

/// The names of the divisions an import of `data` would create, in the order
/// they would be created.
pub fn import_division_names(config: &TournamentConfig, data: &CsvImportData) -> (r: Vec<String>)
    ensures
        string_views(r@) == new_division_names(
            division_names(config.divisions@),
            import_rows(body_lines(data.raw_content@), string_views(data.selected_divisions@)),
        ),
{
    let lines = lines_of(data.raw_content.as_str());
    let ghost body = body_lines(data.raw_content@);
    let ghost sel = string_views(data.selected_divisions@);
    let ghost known = division_names(config.divisions@);
    let mut names: Vec<String> = Vec::new();
    let mut i: usize = 1;
    if lines.len() == 0 {
        assert(body =~= Seq::<Seq<char>>::empty());
    } else {
        assert(body =~= text_lines(data.raw_content@).drop_first());
    }
    assert(body.take(0) =~= Seq::<Seq<char>>::empty());
    assert(string_views(names@) =~= new_division_names(known, import_rows(body.take(0), sel)));
    while i < lines.len()
        invariant
            lines@.len() == text_lines(data.raw_content@).len(),
            forall|k: int| 0 <= k < lines@.len() ==> (#[trigger] lines@[k])@ == text_lines(data.raw_content@)[k],
            lines@.len() > 0 ==> body == text_lines(data.raw_content@).drop_first(),
            body == body_lines(data.raw_content@),
            1 <= i,
            i <= lines@.len() || i == 1,
            sel == string_views(data.selected_divisions@),
            known == division_names(config.divisions@),
            string_views(names@) == new_division_names(known, import_rows(body.take(i - 1), sel)),
        decreases lines.len() - i,
    {
        let ghost rows_before = import_rows(body.take(i - 1), sel);
        assert(body.take(i as int).drop_last() =~= body.take(i - 1));
        assert(body.take(i as int).last() == lines@[i as int]@);
        match read_row(&lines[i], &data.selected_divisions) {
            None => {
                assert(import_rows(body.take(i as int), sel) == rows_before);
            },
            Some((name, div, school)) => {
                let ghost rows_after = rows_before.push((name@, div@, school@));
                assert(import_rows(body.take(i as int), sel) == rows_after);
                assert(rows_after.drop_last() =~= rows_before);
                let ghost prev = string_views(names@);
                let is_known = match find_division_by_name(&config.divisions, div.as_str()) {
                    Some(k) => {
                        proof {
                            crate::lookup::lemma_first_where_found(config.divisions@, division_has_name(div@));
                        }
                        assert(known[k as int] == div@);
                        true
                    },
                    None => {
                        assert(!known.contains(div@)) by {
                            if known.contains(div@) {
                                let k = choose|k: int| 0 <= k < known.len() && known[k] == div@;
                                assert(division_has_name(div@)(config.divisions@[k]));
                            }
                        }
                        false
                    },
                };
                let seen = crate::lookup::contains_string(&names, div.as_str());
                proof {
                    if seen {
                        let k = choose|k: int| 0 <= k < names@.len() && (#[trigger] names@[k])@ == div@;
                        assert(prev[k] == div@);
                    } else {
                        assert(!prev.contains(div@)) by {
                            if prev.contains(div@) {
                                let k = choose|k: int| 0 <= k < prev.len() && prev[k] == div@;
                                assert(names@[k]@ == div@);
                            }
                        }
                    }
                }
                if !is_known && !seen {
                    names.push(div);
                    assert(string_views(names@) =~= prev.push(rows_after.last().1));
                }
            },
        }
        i = i + 1;
    }
    assert(body.take(i - 1) =~= body);
    names
}

/// Whether the ids differ from one another and from every existing
/// division's id.
pub fn ids_are_fresh(ids: &Vec<String>, divisions: &Vec<Division>) -> (r: bool)
    ensures
        r == fresh_ids(string_views(ids@), divisions@),
{
    let ghost v = string_views(ids@);
    let mut i: usize = 0;
    while i < ids.len()
        invariant
            i <= ids@.len(),
            v == string_views(ids@),
            forall|a: int, b: int| 0 <= a < b < ids@.len() && a < i ==> v[a] != v[b],
            forall|a: int, k: int| 0 <= a < i && 0 <= k < divisions@.len() ==> v[a] != divisions@[k].id@,
        decreases ids.len() - i,
    {
        let mut j: usize = i + 1;
        while j < ids.len()
            invariant
                i < j <= ids@.len(),
                v == string_views(ids@),
                forall|b: int| i < b < j ==> v[i as int] != v[b],
            decreases ids.len() - j,
        {
            if same_text(ids[i].as_str(), ids[j].as_str()) {
                assert(v[i as int] == v[j as int]);
                return false;
            }
            j = j + 1;
        }
        let mut k: usize = 0;
        while k < divisions.len()
            invariant
                k <= divisions@.len(),
                i < ids@.len(),
                v == string_views(ids@),
                forall|q: int| 0 <= q < k ==> v[i as int] != divisions@[q].id@,
            decreases divisions.len() - k,
        {
            if same_text(ids[i].as_str(), divisions[k].id.as_str()) {
                assert(v[i as int] == divisions@[k as int].id@);
                return false;
            }
            k = k + 1;
        }
        i = i + 1;
    }
    true
}

/// Imports the chosen rows of `data` when `new_ids` holds one fresh id for
/// each division the import creates (see [`import_division_names`]); gives
/// the message to show, or `None`, leaving the configuration as it was,
/// when the ids do not fit.
pub fn import_csv_teams(config: &mut TournamentConfig, data: &CsvImportData, new_ids: &Vec<String>) -> (status: Option<String>)
    ensures
        ({
            let rows = import_rows(body_lines(data.raw_content@), string_views(data.selected_divisions@));
            let fits = new_ids@.len() == new_division_names(division_names(old(config).divisions@), rows).len()
                && fresh_ids(string_views(new_ids@), old(config).divisions@);
            &&& status is Some <==> fits
            &&& status is None ==> *final(config) == *old(config)
            &&& status matches Some(t) ==> {
                &&& t@ == import_message(rows.len())
                &&& import_done(
                    final(config).divisions@,
                    final(config).teams@,
                    old(config).divisions@,
                    old(config).teams@,
                    rows,
                    string_views(new_ids@),
                )
                &&& final(config).competition_name == old(config).competition_name
                &&& final(config).fields == old(config).fields
                &&& final(config).time_slots == old(config).time_slots
                &&& final(config).volunteers == old(config).volunteers
                &&& final(config).strict_capabilities == old(config).strict_capabilities
                &&& final(config).fairness_mode == old(config).fairness_mode
                &&& final(config).day_configs == old(config).day_configs
            }
        }),
{
    let names = import_division_names(config, data);
    if names.len() != new_ids.len() {
        proof {
            assert(string_views(names@).len() == names@.len());
        }
        return None;
    }
    if !ids_are_fresh(new_ids, &config.divisions) {
        return None;
    }
    proof {
        assert(string_views(names@).len() == names@.len());
    }
    Some(finalize_csv_import(config, data, new_ids))
}


/// Every division a row is imported into, if named, is one that reading the
/// file offers for choice.
pub proof fn lemma_imported_divisions_offered(lines: Seq<Seq<char>>, selected: Seq<Seq<char>>)
    ensures
        forall|r: int|
            0 <= r < import_rows(lines, selected).len() && (#[trigger] import_rows(lines, selected)[r]).1.len() > 0
                ==> named_divisions(lines).contains(import_rows(lines, selected)[r].1),
    decreases lines.len(),
{
    if lines.len() > 0 {
        let d = lines.drop_last();
        lemma_imported_divisions_offered(d, selected);
        let prev = import_rows(d, selected);
        let cur = import_rows(lines, selected);
        let nd_prev = named_divisions(d);
        let nd = named_divisions(lines);
        assert forall|x: Seq<char>| nd_prev.contains(x) implies nd.contains(x) by {
            let k = choose|k: int| 0 <= k < nd_prev.len() && nd_prev[k] == x;
            assert(nd[k] == x);
        }
        assert forall|r: int| 0 <= r < cur.len() && (#[trigger] cur[r]).1.len() > 0 implies nd.contains(cur[r].1) by {
            if r < prev.len() {
                assert(cur[r] == prev[r]);
                assert(nd_prev.contains(prev[r].1));
            } else {
                let line = lines.last();
                assert(row_division(line) == Some(cur[r].1));
                assert(nd[nd_prev.len() as int] == cur[r].1);
            }
        }
    }
}

} // verus!
