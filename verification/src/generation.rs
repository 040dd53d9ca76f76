//! Automatic generation of time slots: how many games the divisions need,
//! how each configured day is laid out in slots, and how volunteers'
//! availabilities carry over from the slots a day had before.
use vstd::prelude::*;
use crate::helpers::{clock_text, lemma_clock_text_reads};
use crate::model::{
    minutes_or_zero, DayGenConfig, Division, FieldKind, FinalsRounds, SchedulingMode, Team, TimeSlot,
    TournamentConfig, Volunteer,
};
use crate::text::{
    chars_of, decimal, parse_u32, push_char, push_decimal, push_decimal2, push_str, same_text,
    spec_parse_u32, spec_to_lowercase, split_pair, string_from, to_lowercase,
};
use crate::helpers::colon_pieces;

verus! {

broadcast use vstd::string::group_string_axioms;

/// Lengths and gaps, in minutes, of the slots that generation lays out.
#[derive(Debug, Clone, Copy, PartialEq, Eq, Structural)]
pub struct SlotGenSettings {
    /// Length of a competition slot.
    pub slot_duration: u32,
    /// Length of an interview slot.
    pub interview_slot_duration: u32,
    /// Gap after each competition slot.
    pub match_slot_break: u32,
    /// Gap after each interview slot.
    pub interview_slot_break: u32,
}

impl Default for SlotGenSettings {
    fn default() -> (r: Self)
        ensures
            r.slot_duration == 20,
            r.interview_slot_duration == 10,
            r.match_slot_break == 5,
            r.interview_slot_break == 5,
    {
        SlotGenSettings { slot_duration: 20, interview_slot_duration: 10, match_slot_break: 5, interview_slot_break: 5 }
    }
}

// ---------------------------------------------------------------------------
// Games to find slots for
// ---------------------------------------------------------------------------

/// Teams entered in the division with id `div_id`.
pub open spec fn team_count(teams: Seq<Team>, div_id: Seq<char>) -> nat
    decreases teams.len(),
{
    if teams.len() == 0 {
        0
    } else {
        team_count(teams.drop_last(), div_id) + if teams.last().division_id@ == div_id {
            1nat
        } else {
            0nat
        }
    }
}

/// Knock-out matches of a division's finals: a grand final, or the full
/// bracket from the semi-, quarter- or eighth-finals, with a match for
/// third place when asked for beyond a grand final.
pub open spec fn finals_match_count(d: Division) -> nat {
    if d.finals_enabled {
        let rounds = match d.finals_rounds {
            Some(r) => r,
            None => FinalsRounds::Grand,
        };
        let bracket: nat = match rounds {
            FinalsRounds::Grand => 1,
            FinalsRounds::Semis => 3,
            FinalsRounds::Quarter => 7,
            FinalsRounds::Eighths => 15,
        };
        if d.finals_third_place_playoff && rounds != FinalsRounds::Grand {
            bracket + 1
        } else {
            bracket
        }
    } else {
        0
    }
}

/// Games a division needs slots for, given its team count and its number of
/// round-robin matches: a head-to-head division with fewer than two teams
/// needs none; otherwise its matches (round robin and finals) or one run per
/// team and game, plus one interview per team when interviews are on.
pub open spec fn division_games(d: Division, teams: nat, rr: nat) -> nat {
    if teams < 2 && d.mode == SchedulingMode::HeadToHead {
        0
    } else {
        (match d.mode {
            SchedulingMode::HeadToHead => rr + finals_match_count(d),
            SchedulingMode::IndividualRun => teams * (d.games_per_team as nat),
        }) + if d.interviews_enabled {
            teams
        } else {
            0
        }
    }
}

/// Games of the first `k` divisions.
pub open spec fn games_through(divs: Seq<Division>, teams: Seq<Team>, rr: Seq<usize>, k: nat) -> nat
    decreases k,
{
    if k == 0 {
        0
    } else {
        games_through(divs, teams, rr, (k - 1) as nat) + division_games(
            divs[k - 1],
            team_count(teams, divs[k - 1].id@),
            rr[k - 1] as nat,
        )
    }
}

/// Games of all divisions, `rr[i]` being the round-robin match count of
/// division `i`.
pub open spec fn total_games(cfg: TournamentConfig, rr: Seq<usize>) -> nat {
    games_through(cfg.divisions@, cfg.teams@, rr, cfg.divisions@.len())
}

proof fn lemma_games_through_grows(divs: Seq<Division>, teams: Seq<Team>, rr: Seq<usize>, j: nat, k: nat)
    requires
        j <= k,
    ensures
        games_through(divs, teams, rr, j) <= games_through(divs, teams, rr, k),
    decreases k,
{
    if j < k {
        lemma_games_through_grows(divs, teams, rr, j, (k - 1) as nat);
    }
}

/// Number of teams in the division with id `div_id`.
pub fn count_division_teams(teams: &Vec<Team>, div_id: &str) -> (r: usize)
    ensures
        r == team_count(teams@, div_id@),
{
    let mut c: usize = 0;
    let mut i: usize = 0;
    while i < teams.len()
        invariant
            i <= teams@.len(),
            c == team_count(teams@.take(i as int), div_id@),
            c <= i,
        decreases teams.len() - i,
    {
        assert(teams@.take(i + 1).drop_last() == teams@.take(i as int));
        if same_text(teams[i].division_id.as_str(), div_id) {
            c = c + 1;
        }
        i = i + 1;
    }
    assert(teams@.take(teams@.len() as int) == teams@);
    c
}

fn finals_matches(d: &Division) -> (r: usize)
    ensures
        r == finals_match_count(*d),
{
    if !d.finals_enabled {
        return 0;
    }
    let rounds = match d.finals_rounds {
        Some(r) => r,
        None => FinalsRounds::Grand,
    };
    let bracket: usize = match rounds {
        FinalsRounds::Grand => 1,
        FinalsRounds::Semis => 3,
        FinalsRounds::Quarter => 7,
        FinalsRounds::Eighths => 15,
    };
    if d.finals_third_place_playoff && rounds != FinalsRounds::Grand {
        bracket + 1
    } else {
        bracket
    }
}

/// Games of all divisions, `rr[i]` being the round-robin match count of
/// division `i`.
pub fn count_games(cfg: &TournamentConfig, rr: &Vec<usize>) -> (r: usize)
    requires
        rr@.len() == cfg.divisions@.len(),
        total_games(*cfg, rr@) <= usize::MAX,
    ensures
        r == total_games(*cfg, rr@),
{
    let n = cfg.divisions.len();
    let mut total: usize = 0;
    let mut i: usize = 0;
    while i < n
        invariant
            n == cfg.divisions@.len(),
            rr@.len() == n,
            i <= n,
            total == games_through(cfg.divisions@, cfg.teams@, rr@, i as nat),
            total_games(*cfg, rr@) <= usize::MAX,
        decreases n - i,
    {
        proof {
            lemma_games_through_grows(cfg.divisions@, cfg.teams@, rr@, (i + 1) as nat, n as nat);
        }
        let d = &cfg.divisions[i];
        let c = count_division_teams(&cfg.teams, d.id.as_str());
        if c < 2 && d.mode == SchedulingMode::HeadToHead {
            i = i + 1;
        } else {
            let games = match d.mode {
                SchedulingMode::HeadToHead => rr[i] + finals_matches(d),
                SchedulingMode::IndividualRun => c * d.games_per_team,
            };
            total = total + games;
            if d.interviews_enabled {
                total = total + c;
            }
            i = i + 1;
        }
    }
    total
}

/// Lays out a run only in counting: `Some` with the number of slots when
/// the run comes to an end within `u32` sums, `None` otherwise.
fn run_length(h0: u32, m0: u32, limit: u32, len: u32, gap: u32, lunch: Option<(u32, u32)>) -> (r: Option<u64>)
    ensures
        match r {
            Some(c) => run_completes(h0 as nat, m0 as nat, limit as nat, len as nat, gap as nat, nat_lunch(lunch))
                && c == slot_run(h0 as nat, m0 as nat, limit as nat, len as nat, gap as nat, nat_lunch(lunch)).len(),
            None => !run_completes(h0 as nat, m0 as nat, limit as nat, len as nat, gap as nat, nat_lunch(lunch)),
        },
{
    let ghost ln = nat_lunch(lunch);
    let ghost goal = run_completes(h0 as nat, m0 as nat, limit as nat, len as nat, gap as nat, ln);
    let ghost full = slot_run(h0 as nat, m0 as nat, limit as nat, len as nat, gap as nat, ln);
    let ghost mut hh: nat = h0 as nat;
    let ghost mut mm: nat = m0 as nat;
    let mut x: u64 = h0 as u64 * 60 + m0 as u64;
    let mut count: u64 = 0;
    loop
        invariant
            ln == nat_lunch(lunch),
            x == hh * 60 + mm,
            x <= u32::MAX as u64 * 61,
            goal == run_completes(h0 as nat, m0 as nat, limit as nat, len as nat, gap as nat, ln),
            full == slot_run(h0 as nat, m0 as nat, limit as nat, len as nat, gap as nat, ln),
            goal == run_completes(hh, mm, limit as nat, len as nat, gap as nat, ln),
            full.len() == count + slot_run(hh, mm, limit as nat, len as nat, gap as nat, ln).len(),
            count <= x,
        decreases run_room(x as nat, limit as nat),
    {
        if x + len as u64 > u32::MAX as u64 {
            return None;
        }
        if x + len as u64 > limit as u64 {
            return Some(count);
        }
        let overlaps = match lunch {
            Some((ls, le)) => x < le as u64 && x + len as u64 > ls as u64,
            None => false,
        };
        if overlaps {
            let le = match lunch {
                Some((_, e)) => e,
                None => 0,
            };
            proof {
                vstd::arithmetic::div_mod::lemma_fundamental_div_mod(le as int, 60);
                hh = (le / 60) as nat;
                mm = (le % 60) as nat;
            }
            x = le as u64;
        } else {
            if len as u64 + gap as u64 == 0 {
                return None;
            }
            let y = x + len as u64 + gap as u64;
            if y > u32::MAX as u64 {
                return None;
            }
            proof {
                vstd::arithmetic::div_mod::lemma_fundamental_div_mod(y as int, 60);
                hh = (y / 60) as nat;
                mm = (y % 60) as nat;
            }
            x = y;
            count = count + 1;
        }
    }
}

/// Whether generating the day ends with every sum within `u32` and every
/// slot number within `i32`; `Some` with its number of competition slots
/// when it does.
pub fn day_generation_fits(dc: &DayGenConfig, gen: &SlotGenSettings) -> (r: Option<u64>)
    ensures
        r is Some <==> day_completes(*dc, *gen),
        r matches Some(c) ==> c == competition_count(*dc, *gen),
{
    reveal(day_completes);
    let (h, m) = match clock_pieces(dc.start_time.as_str()) {
        Some((Some(h), Some(m))) => (h, m),
        _ => return Some(0),
    };
    let limit: u64 = match clock_pieces(dc.end_time.as_str()) {
        Some((Some(eh), Some(em))) => eh as u64 * 60 + em as u64,
        _ => return Some(0),
    };
    if limit > u32::MAX as u64 {
        return None;
    }
    let limit = limit as u32;
    let lunch: Option<(u32, u32)> = if dc.lunch_enabled {
        match clock_pieces(dc.lunch_start.as_str()) {
            Some((Some(lh), Some(lm))) => {
                let st: u64 = lh as u64 * 60 + lm as u64;
                let en: u64 = st + dc.lunch_duration as u64;
                if en > u32::MAX as u64 {
                    return None;
                }
                Some((st as u32, en as u32))
            },
            _ => None,
        }
    } else {
        None
    };
    assert(nat_lunch(lunch) == day_lunch(*dc));
    let comp = match run_length(h, m, limit, gen.slot_duration, gen.match_slot_break, lunch) {
        Some(c) => c,
        None => return None,
    };
    if comp >= i32::MAX as u64 {
        return None;
    }
    if dc.interviews_enabled {
        match run_length(h, m, limit, gen.interview_slot_duration, gen.interview_slot_break, lunch) {
            Some(c) => {
                if c >= i32::MAX as u64 {
                    return None;
                }
            },
            None => return None,
        }
    }
    Some(comp)
}

/// Whether generating every day it reaches ends with every sum within `u32`
/// and every slot number within `i32`, as [`days_complete`] describes.
pub fn generation_fits(days: &Vec<DayGenConfig>, gen: &SlotGenSettings) -> (r: bool)
    ensures
        r == days_complete(days@, *gen),
{
    reveal(days_complete);
    let ghost reached = days_reached(days@);
    proof {
        crate::lookup::lemma_first_where_found(days@, unreadable_day());
    }
    let mut total: u64 = 0;
    let mut k: usize = 0;
    while k < days.len()
        invariant
            k <= days@.len(),
            reached == days_reached(days@),
            k <= reached,
            forall|q: int| 0 <= q < k ==> day_completes(#[trigger] days@[q], *gen),
            total == competition_through(days@, *gen, k as nat),
            total <= i32::MAX,
            crate::lookup::first_where(days@, unreadable_day()) matches Some(u) ==> 0 <= u < days@.len()
                && unreadable_day()(days@[u]) && forall|q: int| 0 <= q < u ==> !unreadable_day()(#[trigger] days@[q]),
            crate::lookup::first_where(days@, unreadable_day()) is None ==> forall|q: int|
                0 <= q < days@.len() ==> !unreadable_day()(#[trigger] days@[q]),
        decreases days.len() - k,
    {
        let dc = &days[k];
        let readable = match (clock_pieces(dc.start_time.as_str()), clock_pieces(dc.end_time.as_str())) {
            (Some((Some(_), Some(_))), Some((Some(_), Some(_)))) => true,
            _ => false,
        };
        if !readable {
            assert(unreadable_day()(days@[k as int]));
            assert(reached == k);
            proof {
                reveal(days_complete);
                lemma_competition_grows(days@, *gen, k as nat, reached);
            }
            return true;
        }
        assert(!unreadable_day()(days@[k as int]));
        assert(k < reached);
        match day_generation_fits(dc, gen) {
            None => {
                proof {
                    reveal(days_complete);
                    assert(!day_completes(days@[k as int], *gen));
                }
                return false;
            },
            Some(c) => {
                if c > i32::MAX as u64 - total {
                    proof {
                        reveal(days_complete);
                        lemma_competition_grows(days@, *gen, (k + 1) as nat, reached);
                    }
                    return false;
                }
                total = total + c;
            },
        }
        k = k + 1;
    }
    assert(reached == days@.len());
    true
}

/// Slots needed so that every game gets a field: the games spread over the
/// fields, rounded up; none without fields.
pub open spec fn spec_required_slots(games: nat, fields: nat) -> nat {
    if fields > 0 {
        games / fields + if games % fields == 0 { 0nat } else { 1nat }
    } else {
        0
    }
}

pub fn required_slots(games: usize, fields: usize) -> (r: usize)
    ensures
        r == spec_required_slots(games as nat, fields as nat),
{
    if fields > 0 {
        let whole = games / fields;
        if games % fields == 0 {
            whole
        } else {
            assert(whole < games) by (nonlinear_arith)
                requires
                    fields > 0,
                    games % fields != 0,
                    whole == games / fields,
            {
                assert(games == fields * whole + games % fields);
                if fields == 1 {
                    assert(games % fields == 0);
                }
            }
            whole + 1
        }
    } else {
        0
    }
}

/// Games of all divisions, as [`count_games`] gives them, or `None` when
/// their number does not fit in `usize`.
pub fn count_games_checked(cfg: &TournamentConfig, rr: &Vec<usize>) -> (r: Option<usize>)
    requires
        rr@.len() == cfg.divisions@.len(),
    ensures
        match r {
            Some(n) => n == total_games(*cfg, rr@),
            None => total_games(*cfg, rr@) > usize::MAX,
        },
{
    let n = cfg.divisions.len();
    let mut total: usize = 0;
    let mut i: usize = 0;
    while i < n
        invariant
            n == cfg.divisions@.len(),
            rr@.len() == n,
            i <= n,
            total == games_through(cfg.divisions@, cfg.teams@, rr@, i as nat),
        decreases n - i,
    {
        let d = &cfg.divisions[i];
        let c = count_division_teams(&cfg.teams, d.id.as_str());
        let games: Option<usize> = if c < 2 && d.mode == SchedulingMode::HeadToHead {
            Some(0)
        } else {
            let play = match d.mode {
                SchedulingMode::HeadToHead => rr[i].checked_add(finals_matches(d)),
                SchedulingMode::IndividualRun => c.checked_mul(d.games_per_team),
            };
            match play {
                Some(p) => if d.interviews_enabled {
                    p.checked_add(c)
                } else {
                    Some(p)
                },
                None => None,
            }
        };
        match games {
            Some(g) => match total.checked_add(g) {
                Some(t) => {
                    total = t;
                },
                None => {
                    proof {
                        lemma_games_through_grows(cfg.divisions@, cfg.teams@, rr@, (i + 1) as nat, n as nat);
                    }
                    return None;
                },
            },
            None => {
                proof {
                    lemma_games_through_grows(cfg.divisions@, cfg.teams@, rr@, (i + 1) as nat, n as nat);
                }
                return None;
            },
        }
        i = i + 1;
    }
    Some(total)
}

// ---------------------------------------------------------------------------
// A day's opening hours
// ---------------------------------------------------------------------------

/// A day's start (hour and minute as written) and end (in minutes), or the
/// message for the first part of them that does not read: each time must
/// split at `:` into exactly two pieces that parse as `u32`.
pub open spec fn day_window(dc: DayGenConfig) -> Result<(nat, nat, nat), Seq<char>> {
    let day = dc.day@;
    match split_pair(dc.start_time@, ':') {
        None => Err("Error: Invalid start time format for "@ + day + ". Use HH:MM."@),
        Some((sh, sm)) => match spec_parse_u32(sh) {
            None => Err("Error parsing start hour for "@ + day + "."@),
            Some(h) => match spec_parse_u32(sm) {
                None => Err("Error parsing start minute for "@ + day + "."@),
                Some(m) => match split_pair(dc.end_time@, ':') {
                    None => Err("Error: Invalid end time format for "@ + day + ". Use HH:MM."@),
                    Some((eh, em)) => match spec_parse_u32(eh) {
                        None => Err("Error parsing end hour for "@ + day + "."@),
                        Some(end_h) => match spec_parse_u32(em) {
                            None => Err("Error parsing end minute for "@ + day + "."@),
                            Some(end_m) => Ok((h as nat, m as nat, end_h as nat * 60 + end_m as nat)),
                        },
                    },
                },
            },
        },
    }
}

/// The lunch break, start and end in minutes, when it is on and its start
/// reads as a clock time; slots are kept out of it.
pub open spec fn day_lunch(dc: DayGenConfig) -> Option<(nat, nat)> {
    if dc.lunch_enabled {
        match split_pair(dc.lunch_start@, ':') {
            Some((a, b)) => match (spec_parse_u32(a), spec_parse_u32(b)) {
                (Some(lh), Some(lm)) => Some(
                    (lh as nat * 60 + lm as nat, lh as nat * 60 + lm as nat + dc.lunch_duration as nat),
                ),
                _ => None,
            },
            None => None,
        }
    } else {
        None
    }
}

/// Reading the day's end stays within `u32`.
pub open spec fn limit_fits(dc: DayGenConfig) -> bool {
    day_window(dc) matches Ok((_, _, limit)) ==> limit <= u32::MAX
}

/// Reading the day's lunch break stays within `u32`.
pub open spec fn lunch_fits(dc: DayGenConfig) -> bool {
    day_lunch(dc) matches Some((_, e)) ==> e <= u32::MAX
}

pub open spec fn nat_lunch(l: Option<(u32, u32)>) -> Option<(nat, nat)> {
    match l {
        Some((s, e)) => Some((s as nat, e as nat)),
        None => None,
    }
}

/// The two pieces of a clock string split at its sole `:`, each read as a
/// `u32` if it parses; `None` without exactly one `:`.
pub fn clock_pieces(t: &str) -> (r: Option<(Option<u32>, Option<u32>)>)
    ensures
        match split_pair(t@, ':') {
            None => r is None,
            Some((a, b)) => r == Some((spec_parse_u32(a), spec_parse_u32(b))),
        },
{
    let v = chars_of(t);
    match colon_pieces(&v) {
        None => None,
        Some(i) => {
            assert(v@.subrange(0, i as int) == v@.take(i as int));
            assert(v@.subrange(i + 1, v@.len() as int) == v@.skip(i + 1));
            let a = parse_u32(&v, 0, i);
            let b = parse_u32(&v, i + 1, v.len());
            Some((a, b))
        },
    }
}

/// `prefix`, the day's name, then `suffix`.
fn day_message(prefix: &str, day: &String, suffix: &str) -> (r: String)
    ensures
        r@ == prefix@ + day@ + suffix@,
{
    let mut s = string_from(prefix);
    push_str(&mut s, day.as_str());
    push_str(&mut s, suffix);
    s
}

/// Reads a day's start and end, as [`day_window`] describes.
pub fn read_day_window(dc: &DayGenConfig) -> (r: Result<(u32, u32, u32), String>)
    requires
        limit_fits(*dc),
    ensures
        match day_window(*dc) {
            Ok((h, m, limit)) => r matches Ok((a, b, c)) && a == h && b == m && c == limit,
            Err(msg) => r matches Err(t) && t@ == msg,
        },
{
    let (h, m) = match clock_pieces(dc.start_time.as_str()) {
        None => {
            return Err(day_message("Error: Invalid start time format for ", &dc.day, ". Use HH:MM."));
        },
        Some((None, _)) => {
            return Err(day_message("Error parsing start hour for ", &dc.day, "."));
        },
        Some((Some(_), None)) => {
            return Err(day_message("Error parsing start minute for ", &dc.day, "."));
        },
        Some((Some(h), Some(m))) => (h, m),
    };
    let (end_h, end_m) = match clock_pieces(dc.end_time.as_str()) {
        None => {
            return Err(day_message("Error: Invalid end time format for ", &dc.day, ". Use HH:MM."));
        },
        Some((None, _)) => {
            return Err(day_message("Error parsing end hour for ", &dc.day, "."));
        },
        Some((Some(_), None)) => {
            return Err(day_message("Error parsing end minute for ", &dc.day, "."));
        },
        Some((Some(h), Some(m))) => (h, m),
    };
    Ok((h, m, end_h * 60 + end_m))
}

/// Reads a day's lunch break, as [`day_lunch`] describes.
pub fn read_day_lunch(dc: &DayGenConfig) -> (r: Option<(u32, u32)>)
    requires
        lunch_fits(*dc),
    ensures
        nat_lunch(r) == day_lunch(*dc),
{
    if !dc.lunch_enabled {
        return None;
    }
    match clock_pieces(dc.lunch_start.as_str()) {
        Some((Some(lh), Some(lm))) => {
            let start = lh * 60 + lm;
            Some((start, start + dc.lunch_duration))
        },
        _ => None,
    }
}

// ---------------------------------------------------------------------------
// Laying out a run of slots
// ---------------------------------------------------------------------------

/// Minutes from `x` to just past `limit`.
pub open spec fn run_room(x: nat, limit: nat) -> nat {
    if x <= limit {
        (limit + 1 - x) as nat
    } else {
        0
    }
}

/// A slot of `len` minutes from `x` would overlap the lunch break.
pub open spec fn in_lunch(x: nat, len: nat, lunch: Option<(nat, nat)>) -> bool {
    match lunch {
        Some((s, e)) => x < e && x + len > s,
        None => false,
    }
}

pub open spec fn lunch_end(lunch: Option<(nat, nat)>) -> nat {
    match lunch {
        Some((_, e)) => e,
        None => 0,
    }
}

/// The slots laid out from hour `h`, minute `m`: each `len` minutes long and
/// followed by a gap of `gap` minutes, none ending after `limit`; a slot
/// that would overlap the lunch break starts again at its end. Each entry
/// holds the start's hour and minute and the end in minutes.
pub open spec fn slot_run(h: nat, m: nat, limit: nat, len: nat, gap: nat, lunch: Option<(nat, nat)>) -> Seq<(nat, nat, nat)>
    decreases run_room(h * 60 + m, limit),
{
    let x = h * 60 + m;
    if x + len > limit {
        Seq::empty()
    } else if in_lunch(x, len, lunch) {
        let e = lunch_end(lunch);
        proof {
            vstd::arithmetic::div_mod::lemma_fundamental_div_mod(e as int, 60);
        }
        slot_run(e / 60, e % 60, limit, len, gap, lunch)
    } else if len + gap == 0 {
        Seq::empty()
    } else {
        let y = x + len + gap;
        proof {
            vstd::arithmetic::div_mod::lemma_fundamental_div_mod(y as int, 60);
        }
        seq![(h, m, x + len)] + slot_run(y / 60, y % 60, limit, len, gap, lunch)
    }
}

/// Laying out the run comes to an end, and every sum it forms stays within
/// `u32`.
pub open spec fn run_completes(h: nat, m: nat, limit: nat, len: nat, gap: nat, lunch: Option<(nat, nat)>) -> bool
    decreases run_room(h * 60 + m, limit),
{
    let x = h * 60 + m;
    &&& x + len <= u32::MAX
    &&& if x + len > limit {
        true
    } else if in_lunch(x, len, lunch) {
        let e = lunch_end(lunch);
        proof {
            vstd::arithmetic::div_mod::lemma_fundamental_div_mod(e as int, 60);
        }
        run_completes(e / 60, e % 60, limit, len, gap, lunch)
    } else {
        let y = x + len + gap;
        proof {
            vstd::arithmetic::div_mod::lemma_fundamental_div_mod(y as int, 60);
        }
        &&& len + gap > 0
        &&& y <= u32::MAX
        &&& run_completes(y / 60, y % 60, limit, len, gap, lunch)
    }
}

/// Start of a run's entry, in minutes.
pub open spec fn entry_start(e: (nat, nat, nat)) -> nat {
    e.0 * 60 + e.1
}

/// Every slot of a run lasts `len` minutes, starts no earlier than the run
/// does, ends by `limit` and stays clear of the lunch break; each slot
/// starts no earlier than the one before it ended plus the gap.
pub proof fn lemma_slot_run_layout(h: nat, m: nat, limit: nat, len: nat, gap: nat, lunch: Option<(nat, nat)>)
    ensures
        forall|i: int|
            #![trigger slot_run(h, m, limit, len, gap, lunch)[i]]
            0 <= i < slot_run(h, m, limit, len, gap, lunch).len() ==> {
                let e = slot_run(h, m, limit, len, gap, lunch)[i];
                &&& entry_start(e) >= h * 60 + m
                &&& e.2 == entry_start(e) + len
                &&& e.2 <= limit
                &&& !in_lunch(entry_start(e), len, lunch)
            },
        forall|i: int, j: int|
            0 <= i < j < slot_run(h, m, limit, len, gap, lunch).len() ==> #[trigger] slot_run(
                h,
                m,
                limit,
                len,
                gap,
                lunch,
            )[i].2 + gap <= entry_start(#[trigger] slot_run(h, m, limit, len, gap, lunch)[j]),
    decreases run_room(h * 60 + m, limit),
{
    let x = h * 60 + m;
    let run = slot_run(h, m, limit, len, gap, lunch);
    if x + len > limit {
    } else if in_lunch(x, len, lunch) {
        let e = lunch_end(lunch);
        vstd::arithmetic::div_mod::lemma_fundamental_div_mod(e as int, 60);
        lemma_slot_run_layout(e / 60, e % 60, limit, len, gap, lunch);
        let rest = slot_run(e / 60, e % 60, limit, len, gap, lunch);
        assert(run == rest);
        assert forall|i: int| 0 <= i < run.len() implies {
            let en = #[trigger] run[i];
            &&& entry_start(en) >= h * 60 + m
            &&& en.2 == entry_start(en) + len
            &&& en.2 <= limit
            &&& !in_lunch(entry_start(en), len, lunch)
        } by {
            assert(run[i] == rest[i]);
        }
        assert forall|i: int, j: int| 0 <= i < j < run.len() implies #[trigger] run[i].2 + gap <= entry_start(#[trigger] run[j]) by {
            assert(run[i] == rest[i]);
            assert(run[j] == rest[j]);
        }
    } else if len + gap == 0 {
    } else {
        let y = x + len + gap;
        vstd::arithmetic::div_mod::lemma_fundamental_div_mod(y as int, 60);
        lemma_slot_run_layout(y / 60, y % 60, limit, len, gap, lunch);
        let rest = slot_run(y / 60, y % 60, limit, len, gap, lunch);
        assert(run == seq![(h, m, x + len)] + rest);
        assert forall|i: int| 0 <= i < run.len() implies {
            let en = #[trigger] run[i];
            &&& entry_start(en) >= h * 60 + m
            &&& en.2 == entry_start(en) + len
            &&& en.2 <= limit
            &&& !in_lunch(entry_start(en), len, lunch)
        } by {
            if i > 0 {
                assert(run[i] == rest[i - 1]);
            }
        }
        assert forall|i: int, j: int| 0 <= i < j < run.len() implies #[trigger] run[i].2 + gap <= entry_start(#[trigger] run[j]) by {
            assert(run[j] == rest[j - 1]);
            if i > 0 {
                assert(run[i] == rest[i - 1]);
            }
        }
    }
}

/// What a view of a slot holds: id, day, start, end and kind.
pub open spec fn slot_view(s: TimeSlot) -> (Seq<char>, Seq<char>, Seq<char>, Seq<char>, FieldKind) {
    (s.id@, s.day@, s.start_time@, s.end_time@, s.kind)
}

pub open spec fn slot_views(slots: Seq<TimeSlot>) -> Seq<(Seq<char>, Seq<char>, Seq<char>, Seq<char>, FieldKind)> {
    Seq::new(slots.len(), |i: int| slot_view(slots[i]))
}

/// The slots of a run on `day`: ids are the lowercase day, `tag` and the
/// slot's number from 1; times are written `HH:MM`.
pub open spec fn run_views(run: Seq<(nat, nat, nat)>, day: Seq<char>, tag: Seq<char>, kind: FieldKind) -> Seq<
    (Seq<char>, Seq<char>, Seq<char>, Seq<char>, FieldKind),
> {
    Seq::new(
        run.len(),
        |i: int|
            (
                spec_to_lowercase(day) + tag + decimal((i + 1) as nat),
                day,
                clock_text(run[i].0, run[i].1),
                clock_text(run[i].2 / 60, run[i].2 % 60),
                kind,
            ),
    )
}

/// A new slot with the given fields.
fn make_slot(id: String, day: String, h: u32, m: u32, end: u32, kind: FieldKind) -> (r: TimeSlot)
    requires
        h as nat * 60 + m as nat <= u32::MAX,
    ensures
        r.id == id,
        r.day == day,
        r.start_time@ == clock_text(h as nat, m as nat),
        r.end_time@ == clock_text(end as nat / 60, end as nat % 60),
        r.kind == kind,
        r.times_fit(),
{
    let mut st = String::new();
    push_decimal2(&mut st, h as u64);
    push_char(&mut st, ':');
    push_decimal2(&mut st, m as u64);
    let mut en = String::new();
    push_decimal2(&mut en, (end / 60) as u64);
    push_char(&mut en, ':');
    push_decimal2(&mut en, (end % 60) as u64);
    proof {
        lemma_clock_text_reads(h as nat, m as nat);
        lemma_clock_text_reads(end as nat / 60, end as nat % 60);
        vstd::arithmetic::div_mod::lemma_fundamental_div_mod(end as int, 60);
        assert(st@ =~= clock_text(h as nat, m as nat));
        assert(en@ =~= clock_text(end as nat / 60, end as nat % 60));
    }
    TimeSlot { id, day, start_time: st, end_time: en, kind }
}

/// Appends the run of slots laid out from `h0:m0` on `day`, and gives their
/// number.
fn push_run(
    slots: &mut Vec<TimeSlot>,
    day: &String,
    day_lower: &String,
    h0: u32,
    m0: u32,
    limit: u32,
    len: u32,
    gap: u32,
    lunch: Option<(u32, u32)>,
    tag: &str,
    kind: FieldKind,
) -> (count: usize)
    requires
        run_completes(h0 as nat, m0 as nat, limit as nat, len as nat, gap as nat, nat_lunch(lunch)),
        slot_run(h0 as nat, m0 as nat, limit as nat, len as nat, gap as nat, nat_lunch(lunch)).len() < i32::MAX,
        day_lower@ == spec_to_lowercase(day@),
        forall|i: int| 0 <= i < old(slots)@.len() ==> (#[trigger] old(slots)@[i]).times_fit(),
    ensures
        slot_views(final(slots)@) == slot_views(old(slots)@) + run_views(
            slot_run(h0 as nat, m0 as nat, limit as nat, len as nat, gap as nat, nat_lunch(lunch)),
            day@,
            tag@,
            kind,
        ),
        count == slot_run(h0 as nat, m0 as nat, limit as nat, len as nat, gap as nat, nat_lunch(lunch)).len(),
        forall|i: int| 0 <= i < final(slots)@.len() ==> (#[trigger] final(slots)@[i]).times_fit(),
{
    let ghost ln = nat_lunch(lunch);
    let ghost full = slot_run(h0 as nat, m0 as nat, limit as nat, len as nat, gap as nat, ln);
    let ghost base = slot_views(old(slots)@);
    let mut h = h0;
    let mut m = m0;
    let mut c: usize = 0;
    loop
        invariant
            ln == nat_lunch(lunch),
            full == slot_run(h0 as nat, m0 as nat, limit as nat, len as nat, gap as nat, ln),
            full.len() < i32::MAX,
            run_completes(h as nat, m as nat, limit as nat, len as nat, gap as nat, ln),
            c <= full.len(),
            full.skip(c as int) == slot_run(h as nat, m as nat, limit as nat, len as nat, gap as nat, ln),
            slot_views(slots@) == base + run_views(full.take(c as int), day@, tag@, kind),
            day_lower@ == spec_to_lowercase(day@),
            forall|i: int| 0 <= i < slots@.len() ==> (#[trigger] slots@[i]).times_fit(),
        ensures
            c == full.len(),
            slot_views(slots@) == base + run_views(full, day@, tag@, kind),
            forall|i: int| 0 <= i < slots@.len() ==> (#[trigger] slots@[i]).times_fit(),
        decreases run_room(h as nat * 60 + m as nat, limit as nat),
    {
        let x = h * 60 + m;
        let end = x + len;
        if end > limit {
            assert(full.skip(c as int).len() == 0);
            assert(full.take(c as int) =~= full);
            break;
        }
        let overlaps_lunch = match lunch {
            Some((ls, le)) => x < le && end > ls,
            None => false,
        };
        if overlaps_lunch {
            let le = match lunch {
                Some((_, le)) => le,
                None => 0,
            };
            proof {
                vstd::arithmetic::div_mod::lemma_fundamental_div_mod(le as int, 60);
            }
            h = le / 60;
            m = le % 60;
        } else {
            proof {
                vstd::arithmetic::div_mod::lemma_fundamental_div_mod((x + len + gap) as int, 60);
                assert(full[c as int] == full.skip(c as int)[0]);
                assert(full.skip(c as int).skip(1) =~= full.skip(c + 1));
            }
            let mut id = day_lower.clone();
            push_str(&mut id, tag);
            push_decimal(&mut id, (c + 1) as u64);
            let slot = make_slot(id, day.clone(), h, m, end, kind);
            let ghost before = slots@;
            slots.push(slot);
            proof {
                assert(slot_views(slots@) =~= slot_views(before).push(slot_view(slot)));
                assert(full.take(c + 1) =~= full.take(c as int).push(full[c as int]));
                assert(run_views(full.take(c + 1), day@, tag@, kind) =~= run_views(full.take(c as int), day@, tag@, kind).push(
                    slot_view(slot),
                ));
            }
            c = c + 1;
            let next = end + gap;
            h = next / 60;
            m = next % 60;
        }
    }
    c
}

// ---------------------------------------------------------------------------
// Whole days
// ---------------------------------------------------------------------------

/// The slots generated for a day: its competition slots, then its interview
/// slots when interviews are on; none when its hours do not read.
#[verifier::opaque]
pub open spec fn day_views(dc: DayGenConfig, gen: SlotGenSettings) -> Seq<
    (Seq<char>, Seq<char>, Seq<char>, Seq<char>, FieldKind),
> {
    match day_window(dc) {
        Ok((h, m, limit)) => {
            let lunch = day_lunch(dc);
            run_views(
                slot_run(h, m, limit, gen.slot_duration as nat, gen.match_slot_break as nat, lunch),
                dc.day@,
                "_auto_slot_comp_"@,
                FieldKind::Competition,
            ) + if dc.interviews_enabled {
                run_views(
                    slot_run(h, m, limit, gen.interview_slot_duration as nat, gen.interview_slot_break as nat, lunch),
                    dc.day@,
                    "_auto_slot_int_"@,
                    FieldKind::Interview,
                )
            } else {
                Seq::empty()
            }
        },
        Err(_) => Seq::empty(),
    }
}

/// Competition slots generated for a day.
pub open spec fn competition_count(dc: DayGenConfig, gen: SlotGenSettings) -> nat {
    match day_window(dc) {
        Ok((h, m, limit)) => slot_run(
            h,
            m,
            limit,
            gen.slot_duration as nat,
            gen.match_slot_break as nat,
            day_lunch(dc),
        ).len(),
        Err(_) => 0,
    }
}

/// The slots generated for the first `k` days, in order.
pub open spec fn views_through(days: Seq<DayGenConfig>, gen: SlotGenSettings, k: nat) -> Seq<
    (Seq<char>, Seq<char>, Seq<char>, Seq<char>, FieldKind),
>
    decreases k,
{
    if k == 0 {
        Seq::empty()
    } else {
        views_through(days, gen, (k - 1) as nat) + day_views(days[k - 1], gen)
    }
}

/// Competition slots generated for the first `k` days.
pub open spec fn competition_through(days: Seq<DayGenConfig>, gen: SlotGenSettings, k: nat) -> nat
    decreases k,
{
    if k == 0 {
        0
    } else {
        competition_through(days, gen, (k - 1) as nat) + competition_count(days[k - 1], gen)
    }
}

/// A day whose hours do not read.
pub open spec fn unreadable_day() -> spec_fn(DayGenConfig) -> bool {
    |dc: DayGenConfig| day_window(dc) is Err
}

/// Days that generation gets through: up to the first whose hours do not
/// read, or all of them.
pub open spec fn days_reached(days: Seq<DayGenConfig>) -> nat {
    match crate::lookup::first_where(days, unreadable_day()) {
        Some(k) => k as nat,
        None => days.len(),
    }
}

/// Generating the day ends, and every sum it forms stays within `u32` and
/// every slot number within `i32`.
#[verifier::opaque]
pub open spec fn day_completes(dc: DayGenConfig, gen: SlotGenSettings) -> bool {
    match day_window(dc) {
        Ok((h, m, limit)) => {
            let lunch = day_lunch(dc);
            let comp = slot_run(h, m, limit, gen.slot_duration as nat, gen.match_slot_break as nat, lunch);
            let interviews = slot_run(h, m, limit, gen.interview_slot_duration as nat, gen.interview_slot_break as nat, lunch);
            &&& limit <= u32::MAX
            &&& lunch_fits(dc)
            &&& run_completes(h, m, limit, gen.slot_duration as nat, gen.match_slot_break as nat, lunch)
            &&& comp.len() < i32::MAX
            &&& dc.interviews_enabled ==> run_completes(
                h,
                m,
                limit,
                gen.interview_slot_duration as nat,
                gen.interview_slot_break as nat,
                lunch,
            ) && interviews.len() < i32::MAX
        },
        Err(_) => true,
    }
}

/// Generation over `days` ends, its sums stay within `u32`, and its count of
/// competition slots within `i32`.
#[verifier::opaque]
pub open spec fn days_complete(days: Seq<DayGenConfig>, gen: SlotGenSettings) -> bool {
    &&& forall|k: int| 0 <= k < days_reached(days) ==> day_completes(#[trigger] days[k], gen)
    &&& competition_through(days, gen, days_reached(days)) <= i32::MAX
}

proof fn lemma_competition_grows(days: Seq<DayGenConfig>, gen: SlotGenSettings, j: nat, k: nat)
    requires
        j <= k,
    ensures
        competition_through(days, gen, j) <= competition_through(days, gen, k),
    decreases k,
{
    if j < k {
        lemma_competition_grows(days, gen, j, (k - 1) as nat);
    }
}

/// When the first `k` days read, generation gets at least that far.
proof fn lemma_days_reached(days: Seq<DayGenConfig>, k: int)
    requires
        0 <= k <= days.len(),
        forall|j: int| 0 <= j < k ==> day_window(#[trigger] days[j]) is Ok,
    ensures
        k <= days_reached(days),
{
    crate::lookup::lemma_first_where_found(days, unreadable_day());
    if let Some(c) = crate::lookup::first_where(days, unreadable_day()) {
        if c < k {
            assert(day_window(days[c]) is Ok);
        }
    }
}

// ---------------------------------------------------------------------------
// Slots kept, and the order slots end up in
// ---------------------------------------------------------------------------

/// The two day names are the same, ignoring case.
pub open spec fn same_day(a: Seq<char>, b: Seq<char>) -> bool {
    spec_to_lowercase(a) == spec_to_lowercase(b)
}

/// `day` is one of the days being generated, ignoring case.
pub open spec fn on_listed_day(day: Seq<char>, days: Seq<DayGenConfig>) -> bool {
    exists|k: int| 0 <= k < days.len() && same_day(day, #[trigger] days[k].day@)
}

/// The slots not on any of the days being generated, in order.
pub open spec fn kept_views(
    vs: Seq<(Seq<char>, Seq<char>, Seq<char>, Seq<char>, FieldKind)>,
    days: Seq<DayGenConfig>,
) -> Seq<(Seq<char>, Seq<char>, Seq<char>, Seq<char>, FieldKind)>
    decreases vs.len(),
{
    if vs.len() == 0 {
        Seq::empty()
    } else if on_listed_day(vs.last().1, days) {
        kept_views(vs.drop_last(), days)
    } else {
        kept_views(vs.drop_last(), days).push(vs.last())
    }
}

/// What a slot's view sorts by: its weekday, then its start.
pub open spec fn view_key(v: (Seq<char>, Seq<char>, Seq<char>, Seq<char>, FieldKind)) -> (usize, u32) {
    (crate::slots::day_rank(v.1), minutes_or_zero(v.2) as u32)
}

pub open spec fn view_keys(vs: Seq<(Seq<char>, Seq<char>, Seq<char>, Seq<char>, FieldKind)>) -> Seq<(usize, u32)> {
    Seq::new(vs.len(), |i: int| view_key(vs[i]))
}

/// Slots ordered by weekday and start, ties keeping their order.
pub open spec fn views_in_order(vs: Seq<(Seq<char>, Seq<char>, Seq<char>, Seq<char>, FieldKind)>) -> Seq<
    (Seq<char>, Seq<char>, Seq<char>, Seq<char>, FieldKind),
> {
    crate::sorting::sorted_by(vs, view_keys(vs), crate::sorting::key_order::<(usize, u32)>())
}

proof fn lemma_views_in_order(slots: Seq<TimeSlot>)
    requires
        slots.len() <= usize::MAX,
    ensures
        slot_views(crate::slots::slots_in_order(slots)) == views_in_order(slot_views(slots)),
{
    assert(crate::slots::slot_keys(slots) =~= view_keys(slot_views(slots)));
    let le = crate::sorting::key_order::<(usize, u32)>();
    assert(crate::sorting::is_total_preorder(le));
    crate::sorting::lemma_stable_order_exists(view_keys(slot_views(slots)), le);
    let p = crate::sorting::stable_order_of(view_keys(slot_views(slots)), le);
    assert(slot_views(crate::sorting::permuted(slots, p)) =~= crate::sorting::permuted(slot_views(slots), p));
}

/// Ordering slots keeps each slot as it is.
proof fn lemma_in_order_fits(slots: Seq<TimeSlot>)
    requires
        slots.len() <= usize::MAX,
        forall|i: int| 0 <= i < slots.len() ==> (#[trigger] slots[i]).times_fit(),
    ensures
        forall|i: int| 0 <= i < crate::slots::slots_in_order(slots).len() ==> (#[trigger] crate::slots::slots_in_order(slots)[i]).times_fit(),
{
    let le = crate::sorting::key_order::<(usize, u32)>();
    assert(crate::sorting::is_total_preorder(le));
    crate::sorting::lemma_stable_order_exists(crate::slots::slot_keys(slots), le);
    let p = crate::sorting::stable_order_of(crate::slots::slot_keys(slots), le);
    assert forall|i: int| 0 <= i < crate::slots::slots_in_order(slots).len() implies (#[trigger] crate::slots::slots_in_order(slots)[i]).times_fit() by {
        assert(p[i] < slots.len());
        assert(crate::slots::slots_in_order(slots)[i] == slots[p[i] as int]);
    }
}

// ---------------------------------------------------------------------------
// Volunteers' availabilities
// ---------------------------------------------------------------------------

pub open spec fn string_views(v: Seq<String>) -> Seq<Seq<char>> {
    Seq::new(v.len(), |i: int| v[i]@)
}

/// A slot's start in minutes.
pub open spec fn view_start(v: (Seq<char>, Seq<char>, Seq<char>, Seq<char>, FieldKind)) -> nat {
    minutes_or_zero(v.2)
}

/// A slot's end in minutes: its start plus its length, which is 0 when the
/// end does not come after the start.
pub open spec fn view_end(v: (Seq<char>, Seq<char>, Seq<char>, Seq<char>, FieldKind)) -> nat {
    if minutes_or_zero(v.3) > view_start(v) {
        minutes_or_zero(v.3)
    } else {
        view_start(v)
    }
}

/// Two slots share time.
pub open spec fn spans_overlap(
    a: (Seq<char>, Seq<char>, Seq<char>, Seq<char>, FieldKind),
    b: (Seq<char>, Seq<char>, Seq<char>, Seq<char>, FieldKind),
) -> bool {
    view_start(a) < view_end(b) && view_end(a) > view_start(b)
}

/// Slot `v` shares time with a slot of `old` on `day` whose id is in `held`.
pub open spec fn overlaps_held(
    v: (Seq<char>, Seq<char>, Seq<char>, Seq<char>, FieldKind),
    held: Seq<Seq<char>>,
    old: Seq<(Seq<char>, Seq<char>, Seq<char>, Seq<char>, FieldKind)>,
    day: Seq<char>,
) -> bool {
    exists|j: int| 0 <= j < old.len() && same_day(old[j].1, day) && held.contains(old[j].0) && spans_overlap(v, #[trigger] old[j])
}

/// Ids, in order, of the slots of `new` on `day` that share time with a slot
/// the volunteer held on that day.
pub open spec fn day_candidates(
    new: Seq<(Seq<char>, Seq<char>, Seq<char>, Seq<char>, FieldKind)>,
    held: Seq<Seq<char>>,
    old: Seq<(Seq<char>, Seq<char>, Seq<char>, Seq<char>, FieldKind)>,
    day: Seq<char>,
) -> Seq<Seq<char>>
    decreases new.len(),
{
    if new.len() == 0 {
        Seq::empty()
    } else if same_day(new.last().1, day) && overlaps_held(new.last(), held, old, day) {
        day_candidates(new.drop_last(), held, old, day).push(new.last().0)
    } else {
        day_candidates(new.drop_last(), held, old, day)
    }
}

/// The candidates of each generated day in turn.
pub open spec fn all_candidates(
    new: Seq<(Seq<char>, Seq<char>, Seq<char>, Seq<char>, FieldKind)>,
    held: Seq<Seq<char>>,
    old: Seq<(Seq<char>, Seq<char>, Seq<char>, Seq<char>, FieldKind)>,
    days: Seq<DayGenConfig>,
) -> Seq<Seq<char>>
    decreases days.len(),
{
    if days.len() == 0 {
        Seq::empty()
    } else {
        all_candidates(new, held, old, days.drop_last()) + day_candidates(new, held, old, days.last().day@)
    }
}

/// `list` with each of `ids` appended in turn unless already there.
pub open spec fn with_missing(list: Seq<Seq<char>>, ids: Seq<Seq<char>>) -> Seq<Seq<char>>
    decreases ids.len(),
{
    if ids.len() == 0 {
        list
    } else if with_missing(list, ids.drop_last()).contains(ids.last()) {
        with_missing(list, ids.drop_last())
    } else {
        with_missing(list, ids.drop_last()).push(ids.last())
    }
}

/// Some slot of `old` on a generated day has this id.
pub open spec fn removed_id(
    id: Seq<char>,
    old: Seq<(Seq<char>, Seq<char>, Seq<char>, Seq<char>, FieldKind)>,
    days: Seq<DayGenConfig>,
) -> bool {
    exists|j: int| 0 <= j < old.len() && on_listed_day(old[j].1, days) && (#[trigger] old[j]).0 == id
}

/// The ids the volunteer keeps: those of slots that were not regenerated.
pub open spec fn retained_ids(
    held: Seq<Seq<char>>,
    old: Seq<(Seq<char>, Seq<char>, Seq<char>, Seq<char>, FieldKind)>,
    days: Seq<DayGenConfig>,
) -> Seq<Seq<char>>
    decreases held.len(),
{
    if held.len() == 0 {
        Seq::empty()
    } else if removed_id(held.last(), old, days) {
        retained_ids(held.drop_last(), old, days)
    } else {
        retained_ids(held.drop_last(), old, days).push(held.last())
    }
}

/// A volunteer's availabilities after generation: the slots kept, then each
/// new slot that shares time with a slot they held on its day.
pub open spec fn new_availability(
    held: Seq<Seq<char>>,
    old: Seq<(Seq<char>, Seq<char>, Seq<char>, Seq<char>, FieldKind)>,
    days: Seq<DayGenConfig>,
    new: Seq<(Seq<char>, Seq<char>, Seq<char>, Seq<char>, FieldKind)>,
) -> Seq<Seq<char>> {
    with_missing(retained_ids(held, old, days), all_candidates(new, held, old, days))
}

/// What the slots' days and times read as: lowercase day, start and end in
/// minutes.
pub struct SlotFacts {
    pub lower: Vec<String>,
    pub start: Vec<u32>,
    pub end: Vec<u32>,
}

pub open spec fn facts_of(f: SlotFacts, slots: Seq<TimeSlot>) -> bool {
    &&& f.lower@.len() == slots.len()
    &&& f.start@.len() == slots.len()
    &&& f.end@.len() == slots.len()
    &&& forall|i: int| 0 <= i < slots.len() ==> (#[trigger] f.lower@[i])@ == spec_to_lowercase(slots[i].day@)
    &&& forall|i: int| 0 <= i < slots.len() ==> #[trigger] f.start@[i] == view_start(slot_view(slots[i]))
    &&& forall|i: int| 0 <= i < slots.len() ==> #[trigger] f.end@[i] == view_end(slot_view(slots[i]))
}

fn slot_facts(slots: &Vec<TimeSlot>) -> (f: SlotFacts)
    requires
        forall|i: int| 0 <= i < slots@.len() ==> (#[trigger] slots@[i]).times_fit(),
    ensures
        facts_of(f, slots@),
{
    let mut f = SlotFacts { lower: Vec::new(), start: Vec::new(), end: Vec::new() };
    let mut i: usize = 0;
    while i < slots.len()
        invariant
            i <= slots@.len(),
            forall|k: int| 0 <= k < slots@.len() ==> (#[trigger] slots@[k]).times_fit(),
            f.lower@.len() == i,
            f.start@.len() == i,
            f.end@.len() == i,
            forall|k: int| 0 <= k < i ==> (#[trigger] f.lower@[k])@ == spec_to_lowercase(slots@[k].day@),
            forall|k: int| 0 <= k < i ==> #[trigger] f.start@[k] == view_start(slot_view(slots@[k])),
            forall|k: int| 0 <= k < i ==> #[trigger] f.end@[k] == view_end(slot_view(slots@[k])),
        decreases slots.len() - i,
    {
        let s = &slots[i];
        assert(s.times_fit());
        proof {
            crate::helpers::lemma_fits_strict(s.start_time@);
            crate::helpers::lemma_fits_strict(s.end_time@);
        }
        let st = s.start_minutes();
        let d = s.duration_minutes();
        f.lower.push(to_lowercase(s.day.as_str()));
        f.start.push(st);
        f.end.push(st + d);
        i = i + 1;
    }
    f
}

/// The volunteer held, before generation, a slot of `old` on the day with
/// lowercase name `day_key` that shares time with `start..end`.
fn held_overlap(
    start: u32,
    end: u32,
    held: &Vec<String>,
    old: &Vec<TimeSlot>,
    old_facts: &SlotFacts,
    day_key: &String,
    Ghost(v): Ghost<(Seq<char>, Seq<char>, Seq<char>, Seq<char>, FieldKind)>,
    Ghost(day): Ghost<Seq<char>>,
) -> (r: bool)
    requires
        facts_of(*old_facts, old@),
        start == view_start(v),
        end == view_end(v),
        day_key@ == spec_to_lowercase(day),
    ensures
        r == overlaps_held(v, string_views(held@), slot_views(old@), day),
{
    let ghost ov = slot_views(old@);
    let ghost hv = string_views(held@);
    let mut j: usize = 0;
    while j < old.len()
        invariant
            j <= old@.len(),
            ov == slot_views(old@),
            hv == string_views(held@),
            facts_of(*old_facts, old@),
            start == view_start(v),
            end == view_end(v),
            day_key@ == spec_to_lowercase(day),
            forall|q: int| 0 <= q < j ==> !(same_day(ov[q].1, day) && hv.contains(ov[q].0) && spans_overlap(v, #[trigger] ov[q])),
        decreases old.len() - j,
    {
        let same = same_text(old_facts.lower[j].as_str(), day_key.as_str());
        if same && start < old_facts.end[j] && end > old_facts.start[j] {
            let has = crate::lookup::contains_string(held, old[j].id.as_str());
            proof {
                if has {
                    let q = choose|q: int| 0 <= q < held@.len() && (#[trigger] held@[q])@ == old@[j as int].id@;
                    assert(hv[q] == ov[j as int].0);
                } else {
                    assert forall|q: int| 0 <= q < hv.len() implies hv[q] != ov[j as int].0 by {
                        assert(hv[q] == held@[q]@);
                    }
                }
            }
            if has {
                assert(same_day(ov[j as int].1, day) && hv.contains(ov[j as int].0) && spans_overlap(v, ov[j as int]));
                return true;
            }
        }
        j = j + 1;
    }
    false
}

/// Whether some slot of `old` on a generated day has the id `id`.
fn is_removed_id(id: &String, old: &Vec<TimeSlot>, old_listed: &Vec<bool>, Ghost(days): Ghost<Seq<DayGenConfig>>) -> (r: bool)
    requires
        old_listed@.len() == old@.len(),
        forall|j: int| 0 <= j < old@.len() ==> #[trigger] old_listed@[j] == on_listed_day(old@[j].day@, days),
    ensures
        r == removed_id(id@, slot_views(old@), days),
{
    let ghost ov = slot_views(old@);
    let mut j: usize = 0;
    while j < old.len()
        invariant
            j <= old@.len(),
            ov == slot_views(old@),
            old_listed@.len() == old@.len(),
            forall|q: int| 0 <= q < old@.len() ==> #[trigger] old_listed@[q] == on_listed_day(old@[q].day@, days),
            forall|q: int| 0 <= q < j ==> !(on_listed_day(ov[q].1, days) && (#[trigger] ov[q]).0 == id@),
        decreases old.len() - j,
    {
        if old_listed[j] && same_text(old[j].id.as_str(), id.as_str()) {
            assert(on_listed_day(ov[j as int].1, days) && ov[j as int].0 == id@);
            return true;
        }
        j = j + 1;
    }
    false
}

/// A volunteer's availabilities after generation, as [`new_availability`]
/// describes.
fn refreshed_availability(
    held: &Vec<String>,
    old: &Vec<TimeSlot>,
    old_facts: &SlotFacts,
    old_listed: &Vec<bool>,
    days: &Vec<DayGenConfig>,
    day_keys: &Vec<String>,
    new: &Vec<TimeSlot>,
    new_facts: &SlotFacts,
) -> (r: Vec<String>)
    requires
        facts_of(*old_facts, old@),
        facts_of(*new_facts, new@),
        old_listed@.len() == old@.len(),
        forall|j: int| 0 <= j < old@.len() ==> #[trigger] old_listed@[j] == on_listed_day(old@[j].day@, days@),
        day_keys@.len() == days@.len(),
        forall|k: int| 0 <= k < days@.len() ==> (#[trigger] day_keys@[k])@ == spec_to_lowercase(days@[k].day@),
    ensures
        string_views(r@) == new_availability(string_views(held@), slot_views(old@), days@, slot_views(new@)),
{
    let ghost hv = string_views(held@);
    let ghost ov = slot_views(old@);
    let ghost nv = slot_views(new@);
    let mut cur: Vec<String> = Vec::new();
    let mut i: usize = 0;
    while i < held.len()
        invariant
            i <= held@.len(),
            hv == string_views(held@),
            ov == slot_views(old@),
            old_listed@.len() == old@.len(),
            forall|j: int| 0 <= j < old@.len() ==> #[trigger] old_listed@[j] == on_listed_day(old@[j].day@, days@),
            string_views(cur@) == retained_ids(hv.take(i as int), ov, days@),
        decreases held.len() - i,
    {
        assert(hv.take(i + 1).drop_last() =~= hv.take(i as int));
        assert(hv.take(i + 1).last() == held@[i as int]@);
        let gone = is_removed_id(&held[i], old, old_listed, Ghost(days@));
        if !gone {
            let ghost before = cur@;
            cur.push(held[i].clone());
            assert(string_views(cur@) =~= string_views(before).push(held@[i as int]@));
        }
        i = i + 1;
    }
    assert(hv.take(held@.len() as int) =~= hv);
    let ghost kept = retained_ids(hv, ov, days@);
    let mut k: usize = 0;
    while k < days.len()
        invariant
            k <= days@.len(),
            hv == string_views(held@),
            ov == slot_views(old@),
            nv == slot_views(new@),
            kept == retained_ids(hv, ov, days@),
            facts_of(*old_facts, old@),
            facts_of(*new_facts, new@),
            day_keys@.len() == days@.len(),
            forall|q: int| 0 <= q < days@.len() ==> (#[trigger] day_keys@[q])@ == spec_to_lowercase(days@[q].day@),
            string_views(cur@) == with_missing(kept, all_candidates(nv, hv, ov, days@.take(k as int))),
        decreases days.len() - k,
    {
        let ghost day = days@[k as int].day@;
        let ghost prior = all_candidates(nv, hv, ov, days@.take(k as int));
        let mut i: usize = 0;
        while i < new.len()
            invariant
                i <= new@.len(),
                k < days@.len(),
                day == days@[k as int].day@,
                hv == string_views(held@),
                ov == slot_views(old@),
                nv == slot_views(new@),
                facts_of(*old_facts, old@),
                facts_of(*new_facts, new@),
                day_keys@.len() == days@.len(),
                (day_keys@[k as int])@ == spec_to_lowercase(day),
                string_views(cur@) == with_missing(kept, prior + day_candidates(nv.take(i as int), hv, ov, day)),
            decreases new.len() - i,
        {
            assert(nv.take(i + 1).drop_last() =~= nv.take(i as int));
            assert(nv.take(i + 1).last() == nv[i as int]);
            let on_day = same_text(new_facts.lower[i].as_str(), day_keys[k].as_str());
            let mut add = false;
            if on_day {
                let hit = held_overlap(
                    new_facts.start[i],
                    new_facts.end[i],
                    held,
                    old,
                    old_facts,
                    &day_keys[k],
                    Ghost(nv[i as int]),
                    Ghost(day),
                );
                if hit {
                    let there = crate::lookup::contains_string(&cur, new[i].id.as_str());
                    proof {
                        let cs = prior + day_candidates(nv.take(i as int), hv, ov, day);
                        assert((prior + day_candidates(nv.take(i + 1), hv, ov, day)).drop_last() =~= cs);
                        if there {
                            let q = choose|q: int| 0 <= q < cur@.len() && (#[trigger] cur@[q])@ == new@[i as int].id@;
                            assert(string_views(cur@)[q] == nv[i as int].0);
                        } else {
                            assert forall|q: int| 0 <= q < string_views(cur@).len() implies string_views(cur@)[q] != nv[i as int].0 by {
                                assert(string_views(cur@)[q] == cur@[q]@);
                            }
                        }
                    }
                    add = !there;
                    if add {
                        let ghost before = cur@;
                        cur.push(new[i].id.clone());
                        assert(string_views(cur@) =~= string_views(before).push(new@[i as int].id@));
                    }
                }
            }
            proof {
                if !(on_day && overlaps_held(nv[i as int], hv, ov, day)) {
                    assert(day_candidates(nv.take(i + 1), hv, ov, day) == day_candidates(nv.take(i as int), hv, ov, day));
                } else {
                    assert(day_candidates(nv.take(i + 1), hv, ov, day) == day_candidates(nv.take(i as int), hv, ov, day).push(nv[i as int].0));
                    assert(prior + day_candidates(nv.take(i + 1), hv, ov, day) =~= (prior + day_candidates(nv.take(i as int), hv, ov, day)).push(nv[i as int].0));
                }
            }
            i = i + 1;
        }
        assert(nv.take(new@.len() as int) =~= nv);
        assert(days@.take(k + 1).drop_last() =~= days@.take(k as int));
        assert(days@.take(k + 1).last() == days@[k as int]);
        k = k + 1;
    }
    assert(days@.take(days@.len() as int) =~= days@);
    cur
}

// ---------------------------------------------------------------------------
// Generating the configured days
// ---------------------------------------------------------------------------

/// Why generation cannot start, if it cannot: no field, no game, or no day
/// to generate.
pub open spec fn generation_precheck(cfg: TournamentConfig, rr: Seq<usize>) -> Option<Seq<char>> {
    if cfg.fields@.len() == 0 {
        Some("Error: Please add at least one field first to allocate slots!"@)
    } else if total_games(cfg, rr) == 0 {
        Some("Error: No teams or divisions defined to calculate matches!"@)
    } else if cfg.day_configs@.len() == 0 {
        Some("Error: No day configurations specified for auto-generation!"@)
    } else {
        None
    }
}

/// The report of a generation that went through.
pub open spec fn success_message(generated: nat, duration: nat, days: nat) -> Seq<char> {
    "Success! Generated "@ + decimal(generated) + " slots of duration "@ + decimal(duration) + "m across "@
        + decimal(days) + " day(s)."@
}

/// The slots before generation is ordered: the kept ones, then those of
/// each day reached.
pub open spec fn planned_views(cfg: TournamentConfig, gen: SlotGenSettings) -> Seq<
    (Seq<char>, Seq<char>, Seq<char>, Seq<char>, FieldKind),
> {
    kept_views(slot_views(cfg.time_slots@), cfg.day_configs@) + views_through(
        cfg.day_configs@,
        gen,
        days_reached(cfg.day_configs@),
    )
}

/// `after` equals `before` but for its time slots and volunteers.
pub open spec fn same_setup(after: TournamentConfig, before: TournamentConfig) -> bool {
    &&& after.competition_name == before.competition_name
    &&& after.divisions == before.divisions
    &&& after.teams == before.teams
    &&& after.fields == before.fields
    &&& after.strict_capabilities == before.strict_capabilities
    &&& after.fairness_mode == before.fairness_mode
    &&& after.day_configs == before.day_configs
}

/// Whether `day` is one of the days with lowercase names `day_keys`.
fn is_listed_day(day: &String, day_keys: &Vec<String>, Ghost(days): Ghost<Seq<DayGenConfig>>) -> (r: bool)
    requires
        day_keys@.len() == days.len(),
        forall|k: int| 0 <= k < days.len() ==> (#[trigger] day_keys@[k])@ == spec_to_lowercase(days[k].day@),
    ensures
        r == on_listed_day(day@, days),
{
    let lower = to_lowercase(day.as_str());
    let mut k: usize = 0;
    while k < day_keys.len()
        invariant
            k <= day_keys@.len(),
            day_keys@.len() == days.len(),
            lower@ == spec_to_lowercase(day@),
            forall|q: int| 0 <= q < days.len() ==> (#[trigger] day_keys@[q])@ == spec_to_lowercase(days[q].day@),
            forall|q: int| 0 <= q < k ==> !same_day(day@, #[trigger] days[q].day@),
        decreases day_keys.len() - k,
    {
        if same_text(lower.as_str(), day_keys[k].as_str()) {
            assert(same_day(day@, days[k as int].day@));
            return true;
        }
        k = k + 1;
    }
    false
}

/// Before generating day `d`, all earlier days having read: the day may be
/// generated, and if it does not read it is the first that does not.
proof fn lemma_day_step(days: Seq<DayGenConfig>, gen: SlotGenSettings, d: int)
    requires
        0 <= d < days.len(),
        days_complete(days, gen),
        forall|j: int| 0 <= j < d ==> day_window(#[trigger] days[j]) is Ok,
    ensures
        day_completes(days[d], gen),
        day_window(days[d]) is Ok ==> competition_through(days, gen, (d + 1) as nat) <= i32::MAX,
        day_window(days[d]) is Ok ==> forall|j: int| 0 <= j < d + 1 ==> day_window(#[trigger] days[j]) is Ok,
        day_window(days[d]) is Err ==> crate::lookup::first_where(days, unreadable_day()) == Some(d)
            && days_reached(days) == d,
{
    reveal(days_complete);
    lemma_days_reached(days, d);
    if day_window(days[d]) is Ok {
        assert forall|j: int| 0 <= j < d + 1 implies day_window(#[trigger] days[j]) is Ok by {
            if j < d {
                assert(day_window(days[j]) is Ok);
            }
        }
        lemma_days_reached(days, d + 1);
        lemma_competition_grows(days, gen, (d + 1) as nat, days_reached(days));
    } else {
        reveal(day_completes);
        crate::lookup::lemma_first_where_at(days, unreadable_day(), d);
    }
}

/// Appends the slots of one day: `Err` with the message when its hours do
/// not read, else the number of competition slots laid out.
fn generate_day(
    slots: &mut Vec<TimeSlot>,
    dc: &DayGenConfig,
    day_key: &String,
    settings: &SlotGenSettings,
) -> (r: Result<usize, String>)
    requires
        day_completes(*dc, *settings),
        day_key@ == spec_to_lowercase(dc.day@),
        forall|q: int| 0 <= q < old(slots)@.len() ==> (#[trigger] old(slots)@[q]).times_fit(),
    ensures
        match day_window(*dc) {
            Err(msg) => r matches Err(t) && t@ == msg && final(slots)@ == old(slots)@,
            Ok(_) => r matches Ok(c) && c == competition_count(*dc, *settings) && slot_views(final(slots)@)
                == slot_views(old(slots)@) + day_views(*dc, *settings),
        },
        forall|q: int| 0 <= q < final(slots)@.len() ==> (#[trigger] final(slots)@[q]).times_fit(),
{
    proof {
        reveal(day_completes);
        reveal(day_views);
    }
    let (h, m, limit) = match read_day_window(dc) {
        Ok(w) => w,
        Err(msg) => {
            return Err(msg);
        },
    };
    let lunch = read_day_lunch(dc);
    let ghost before = slot_views(slots@);
    let c = push_run(
        slots,
        &dc.day,
        day_key,
        h,
        m,
        limit,
        settings.slot_duration,
        settings.match_slot_break,
        lunch,
        "_auto_slot_comp_",
        FieldKind::Competition,
    );
    if dc.interviews_enabled {
        push_run(
            slots,
            &dc.day,
            day_key,
            h,
            m,
            limit,
            settings.interview_slot_duration,
            settings.interview_slot_break,
            lunch,
            "_auto_slot_int_",
            FieldKind::Interview,
        );
    }
    assert(slot_views(slots@) =~= before + day_views(*dc, *settings));
    Ok(c)
}

/// Copies of the slots not on any of the days, and for each slot whether it
/// is on one of them.
fn keep_other_days(
    old: &Vec<TimeSlot>,
    day_keys: &Vec<String>,
    Ghost(days): Ghost<Seq<DayGenConfig>>,
) -> (r: (Vec<TimeSlot>, Vec<bool>))
    requires
        day_keys@.len() == days.len(),
        forall|q: int| 0 <= q < days.len() ==> (#[trigger] day_keys@[q])@ == spec_to_lowercase(days[q].day@),
        forall|q: int| 0 <= q < old@.len() ==> (#[trigger] old@[q]).times_fit(),
    ensures
        slot_views(r.0@) == kept_views(slot_views(old@), days),
        forall|q: int| 0 <= q < r.0@.len() ==> (#[trigger] r.0@[q]).times_fit(),
        r.1@.len() == old@.len(),
        forall|j: int| 0 <= j < old@.len() ==> #[trigger] r.1@[j] == on_listed_day(old@[j].day@, days),
{
    let ghost ov = slot_views(old@);
    let mut kept: Vec<TimeSlot> = Vec::new();
    let mut listed_flags: Vec<bool> = Vec::new();
    let mut i: usize = 0;
    while i < old.len()
        invariant
            i <= old@.len(),
            ov == slot_views(old@),
            day_keys@.len() == days.len(),
            forall|q: int| 0 <= q < days.len() ==> (#[trigger] day_keys@[q])@ == spec_to_lowercase(days[q].day@),
            forall|q: int| 0 <= q < old@.len() ==> (#[trigger] old@[q]).times_fit(),
            listed_flags@.len() == i,
            forall|j: int| 0 <= j < i ==> #[trigger] listed_flags@[j] == on_listed_day(old@[j].day@, days),
            slot_views(kept@) == kept_views(ov.take(i as int), days),
            forall|q: int| 0 <= q < kept@.len() ==> (#[trigger] kept@[q]).times_fit(),
        decreases old.len() - i,
    {
        assert(ov.take(i + 1).drop_last() =~= ov.take(i as int));
        assert(ov.take(i + 1).last() == slot_view(old@[i as int]));
        let listed = is_listed_day(&old[i].day, day_keys, Ghost(days));
        listed_flags.push(listed);
        if !listed {
            let ghost before = kept@;
            assert(old@[i as int].times_fit());
            kept.push(crate::slots::copy_slot(&old[i]));
            assert(slot_views(kept@) =~= slot_views(before).push(slot_view(old@[i as int])));
        }
        i = i + 1;
    }
    assert(ov.take(old@.len() as int) =~= ov);
    (kept, listed_flags)
}

/// The volunteers with their availabilities carried over, as
/// [`new_availability`] describes.
fn refresh_volunteers(
    vols: Vec<Volunteer>,
    old: &Vec<TimeSlot>,
    old_listed: &Vec<bool>,
    days: &Vec<DayGenConfig>,
    day_keys: &Vec<String>,
    new: &Vec<TimeSlot>,
) -> (r: Vec<Volunteer>)
    requires
        forall|q: int| 0 <= q < old@.len() ==> (#[trigger] old@[q]).times_fit(),
        forall|q: int| 0 <= q < new@.len() ==> (#[trigger] new@[q]).times_fit(),
        old_listed@.len() == old@.len(),
        forall|j: int| 0 <= j < old@.len() ==> #[trigger] old_listed@[j] == on_listed_day(old@[j].day@, days@),
        day_keys@.len() == days@.len(),
        forall|q: int| 0 <= q < days@.len() ==> (#[trigger] day_keys@[q])@ == spec_to_lowercase(days@[q].day@),
    ensures
        r@.len() == vols@.len(),
        forall|v: int| 0 <= v < vols@.len() ==> {
            let before = #[trigger] vols@[v];
            let after = r@[v];
            &&& after.id == before.id
            &&& after.name == before.name
            &&& after.capabilities == before.capabilities
            &&& after.conflict_organizations == before.conflict_organizations
            &&& after.attendance_status == before.attendance_status
            &&& after.locked_field_ids == before.locked_field_ids
            &&& string_views(after.availabilities@) == new_availability(
                string_views(before.availabilities@),
                slot_views(old@),
                days@,
                slot_views(new@),
            )
        },
{
    let old_facts = slot_facts(old);
    let new_facts = slot_facts(new);
    let ghost all = vols@;
    let mut rest = vols;
    let mut done: Vec<Volunteer> = Vec::new();
    let nv = rest.len();
    let mut v: usize = 0;
    while v < nv
        invariant
            nv == all.len(),
            v <= nv,
            rest@ == all.skip(v as int),
            done@.len() == v,
            facts_of(old_facts, old@),
            facts_of(new_facts, new@),
            old_listed@.len() == old@.len(),
            forall|j: int| 0 <= j < old@.len() ==> #[trigger] old_listed@[j] == on_listed_day(old@[j].day@, days@),
            day_keys@.len() == days@.len(),
            forall|q: int| 0 <= q < days@.len() ==> (#[trigger] day_keys@[q])@ == spec_to_lowercase(days@[q].day@),
            forall|w: int| 0 <= w < v ==> {
                let before = #[trigger] all[w];
                let after = done@[w];
                &&& after.id == before.id
                &&& after.name == before.name
                &&& after.capabilities == before.capabilities
                &&& after.conflict_organizations == before.conflict_organizations
                &&& after.attendance_status == before.attendance_status
                &&& after.locked_field_ids == before.locked_field_ids
                &&& string_views(after.availabilities@) == new_availability(
                    string_views(before.availabilities@),
                    slot_views(old@),
                    days@,
                    slot_views(new@),
                )
            },
        decreases nv - v,
    {
        assert(rest@[0] == all[v as int]);
        let mut vol = rest.remove(0);
        assert(rest@ =~= all.skip(v + 1));
        let av = refreshed_availability(
            &vol.availabilities,
            old,
            &old_facts,
            old_listed,
            days,
            day_keys,
            new,
            &new_facts,
        );
        vol.availabilities = av;
        done.push(vol);
        v = v + 1;
    }
    done
}

/// Appends the slots of each day in turn, up to the first whose hours do
/// not read: `Err` with its message then, else the number of competition
/// slots laid out.
#[verifier::spinoff_prover]
#[verifier::rlimit(50)]
fn generate_days(
    slots: &mut Vec<TimeSlot>,
    days: &Vec<DayGenConfig>,
    day_keys: &Vec<String>,
    settings: &SlotGenSettings,
) -> (r: Result<usize, String>)
    requires
        days_complete(days@, *settings),
        day_keys@.len() == days@.len(),
        forall|q: int| 0 <= q < days@.len() ==> (#[trigger] day_keys@[q])@ == spec_to_lowercase(days@[q].day@),
        forall|q: int| 0 <= q < old(slots)@.len() ==> (#[trigger] old(slots)@[q]).times_fit(),
    ensures
        slot_views(final(slots)@) == slot_views(old(slots)@) + views_through(days@, *settings, days_reached(days@)),
        forall|q: int| 0 <= q < final(slots)@.len() ==> (#[trigger] final(slots)@[q]).times_fit(),
        match crate::lookup::first_where(days@, unreadable_day()) {
            Some(k) => day_window(days@[k]) matches Err(msg) && r matches Err(t) && t@ == msg,
            None => r matches Ok(c) && c == competition_through(days@, *settings, days@.len()),
        },
{
    let ghost base = slot_views(slots@);
    let ghost gen = *settings;
    let n = days.len();
    let mut generated: usize = 0;
    let mut d: usize = 0;
    while d < n
        invariant
            n == days@.len(),
            *settings == gen,
            base == slot_views(old(slots)@),
            d <= n,
            days_complete(days@, gen),
            day_keys@.len() == n,
            forall|q: int| 0 <= q < n ==> (#[trigger] day_keys@[q])@ == spec_to_lowercase(days@[q].day@),
            forall|j: int| 0 <= j < d ==> day_window(#[trigger] days@[j]) is Ok,
            slot_views(slots@) == base + views_through(days@, gen, d as nat),
            generated == competition_through(days@, gen, d as nat),
            forall|q: int| 0 <= q < slots@.len() ==> (#[trigger] slots@[q]).times_fit(),
        decreases n - d,
    {
        proof {
            lemma_day_step(days@, gen, d as int);
        }
        let step = generate_day(slots, &days[d], &day_keys[d], settings);
        match step {
            Ok(c) => {
                generated = generated + c;
                assert(base + views_through(days@, gen, (d + 1) as nat) =~= base + views_through(days@, gen, d as nat)
                    + day_views(days@[d as int], gen));
            },
            Err(msg) => {
                assert(day_window(days@[d as int]) is Err);
                assert(days_reached(days@) == d);
                assert(slot_views(slots@) == base + views_through(days@, gen, days_reached(days@)));
                return Err(msg);
            },
        }
        d = d + 1;
    }
    proof {
        crate::lookup::lemma_first_where_none(days@, unreadable_day());
    }
    Ok(generated)
}

impl TournamentConfig {
    /// Replaces the slots of each configured day with slots laid out from
    /// its hours, then orders all slots and carries each volunteer's
    /// availability over to the new slots that share time with slots they
    /// held on that day. `rr_matches[i]` is the number of round-robin matches
    /// of division `i`. Gives the message to show.
    pub fn auto_generate_time_slots(&mut self, settings: &SlotGenSettings, rr_matches: &Vec<usize>) -> (status: String)
        requires
            old(self).slot_times_fit(),
            rr_matches@.len() == old(self).divisions@.len(),
            total_games(*old(self), rr_matches@) <= usize::MAX,
            generation_precheck(*old(self), rr_matches@) is None ==> days_complete(old(self).day_configs@, *settings),
        ensures
            match generation_precheck(*old(self), rr_matches@) {
                Some(msg) => status@ == msg && *final(self) == *old(self),
                None => same_setup(*final(self), *old(self)) && match crate::lookup::first_where(
                    old(self).day_configs@,
                    unreadable_day(),
                ) {
                    Some(k) => {
                        &&& day_window(old(self).day_configs@[k]) matches Err(msg) && status@ == msg
                        &&& slot_views(final(self).time_slots@) == planned_views(*old(self), *settings)
                        &&& final(self).volunteers == old(self).volunteers
                    },
                    None => {
                        &&& status@ == success_message(
                            competition_through(old(self).day_configs@, *settings, old(self).day_configs@.len()),
                            settings.slot_duration as nat,
                            old(self).day_configs@.len(),
                        )
                        &&& slot_views(final(self).time_slots@) == views_in_order(planned_views(*old(self), *settings))
                        &&& final(self).volunteers@.len() == old(self).volunteers@.len()
                        &&& forall|v: int| 0 <= v < old(self).volunteers@.len() ==> {
                            let before = #[trigger] old(self).volunteers@[v];
                            let after = final(self).volunteers@[v];
                            &&& after.id == before.id
                            &&& after.name == before.name
                            &&& after.capabilities == before.capabilities
                            &&& after.conflict_organizations == before.conflict_organizations
                            &&& after.attendance_status == before.attendance_status
                            &&& after.locked_field_ids == before.locked_field_ids
                            &&& string_views(after.availabilities@) == new_availability(
                                string_views(before.availabilities@),
                                slot_views(old(self).time_slots@),
                                old(self).day_configs@,
                                slot_views(final(self).time_slots@),
                            )
                        }
                    },
                },
            },
    {
        let total = count_games(self, rr_matches);
        if self.fields.len() == 0 {
            return string_from("Error: Please add at least one field first to allocate slots!");
        }
        // The slots needed, `total` over the field count rounded up, are none
        // exactly when no game is.
        if total == 0 {
            return string_from("Error: No teams or divisions defined to calculate matches!");
        }
        if self.day_configs.len() == 0 {
            return string_from("Error: No day configurations specified for auto-generation!");
        }
        let ghost days = self.day_configs@;
        let ghost gen = *settings;
        let n = self.day_configs.len();
        let mut day_keys: Vec<String> = Vec::new();
        let mut k: usize = 0;
        while k < n
            invariant
                n == days.len(),
                days == self.day_configs@,
                k <= n,
                day_keys@.len() == k,
                forall|q: int| 0 <= q < k ==> (#[trigger] day_keys@[q])@ == spec_to_lowercase(days[q].day@),
            decreases n - k,
        {
            day_keys.push(to_lowercase(self.day_configs[k].day.as_str()));
            k = k + 1;
        }
        // Keep the slots of the days not being generated.
        let mut old_slots: Vec<TimeSlot> = Vec::new();
        std::mem::swap(&mut old_slots, &mut self.time_slots);
        let (kept_slots, old_listed) = keep_other_days(&old_slots, &day_keys, Ghost(days));
        self.time_slots = kept_slots;
        let ghost kept = kept_views(slot_views(old_slots@), days);
        // Lay out each day in turn.
        let generated = match generate_days(&mut self.time_slots, &self.day_configs, &day_keys, settings) {
            Ok(c) => c,
            Err(msg) => {
                return msg;
            },
        };
        let ghost pre = self.time_slots@;
        assert(pre.len() == self.time_slots.len());
        proof {
            lemma_views_in_order(pre);
            lemma_in_order_fits(pre);
        }
        self.sort_time_slots();
        // Carry each volunteer's availability over to the new slots.
        let mut vols: Vec<Volunteer> = Vec::new();
        std::mem::swap(&mut vols, &mut self.volunteers);
        let refreshed = refresh_volunteers(vols, &old_slots, &old_listed, &self.day_configs, &day_keys, &self.time_slots);
        self.volunteers = refreshed;
        let mut msg = string_from("Success! Generated ");
        push_decimal(&mut msg, generated as u64);
        push_str(&mut msg, " slots of duration ");
        push_decimal(&mut msg, settings.slot_duration as u64);
        push_str(&mut msg, "m across ");
        push_decimal(&mut msg, n as u64);
        push_str(&mut msg, " day(s).");
        msg
    }
}


// ---------------------------------------------------------------------------
// What generation keeps
// ---------------------------------------------------------------------------

proof fn lemma_kept_views_contain(
    vs: Seq<(Seq<char>, Seq<char>, Seq<char>, Seq<char>, FieldKind)>,
    days: Seq<DayGenConfig>,
    i: int,
)
    requires
        0 <= i < vs.len(),
        !on_listed_day(vs[i].1, days),
    ensures
        kept_views(vs, days).contains(vs[i]),
    decreases vs.len(),
{
    let d = vs.drop_last();
    if i == vs.len() - 1 {
        assert(kept_views(vs, days) == kept_views(d, days).push(vs.last()));
        assert(kept_views(vs, days)[kept_views(d, days).len() as int] == vs[i]);
    } else {
        assert(d[i] == vs[i]);
        lemma_kept_views_contain(d, days, i);
        let k = choose|k: int| 0 <= k < kept_views(d, days).len() && kept_views(d, days)[k] == vs[i];
        if !on_listed_day(vs.last().1, days) {
            assert(kept_views(vs, days)[k] == vs[i]);
        }
    }
}

/// Ordering slots loses none of them.
proof fn lemma_in_order_contains(vs: Seq<(Seq<char>, Seq<char>, Seq<char>, Seq<char>, FieldKind)>, j: int)
    requires
        vs.len() <= usize::MAX,
        0 <= j < vs.len(),
    ensures
        views_in_order(vs).contains(vs[j]),
{
    let le = crate::sorting::key_order::<(usize, u32)>();
    assert(crate::sorting::is_total_preorder(le));
    crate::sorting::lemma_stable_order_exists(view_keys(vs), le);
    let p = crate::sorting::stable_order_of(view_keys(vs), le);
    crate::sorting::lemma_permutation_onto(p, vs.len(), j as nat);
    let k = choose|k: int| 0 <= k < p.len() && p[k] == j;
    assert(views_in_order(vs)[k] == vs[j]);
}

/// Generation keeps every slot that is not on one of the days it lays out:
/// after a run that goes through, such a slot is still there, as it was.
pub proof fn lemma_generation_keeps_other_days(cfg: TournamentConfig, gen: SlotGenSettings, i: int)
    requires
        0 <= i < cfg.time_slots@.len(),
        !on_listed_day(cfg.time_slots@[i].day@, cfg.day_configs@),
        planned_views(cfg, gen).len() <= usize::MAX,
    ensures
        planned_views(cfg, gen).contains(slot_view(cfg.time_slots@[i])),
        views_in_order(planned_views(cfg, gen)).contains(slot_view(cfg.time_slots@[i])),
{
    let vs = slot_views(cfg.time_slots@);
    let days = cfg.day_configs@;
    assert(vs[i] == slot_view(cfg.time_slots@[i]));
    lemma_kept_views_contain(vs, days, i);
    let kept = kept_views(vs, days);
    let planned = planned_views(cfg, gen);
    let k = choose|k: int| 0 <= k < kept.len() && kept[k] == vs[i];
    assert(planned[k] == vs[i]);
    lemma_in_order_contains(planned, k);
}

proof fn lemma_retained_ids(
    held: Seq<Seq<char>>,
    old: Seq<(Seq<char>, Seq<char>, Seq<char>, Seq<char>, FieldKind)>,
    days: Seq<DayGenConfig>,
    x: Seq<char>,
)
    ensures
        retained_ids(held, old, days).contains(x) <==> held.contains(x) && !removed_id(x, old, days),
    decreases held.len(),
{
    if held.len() > 0 {
        let d = held.drop_last();
        lemma_retained_ids(d, old, days, x);
        let prev = retained_ids(d, old, days);
        let cur = retained_ids(held, old, days);
        if d.contains(x) {
            let k = choose|k: int| 0 <= k < d.len() && d[k] == x;
            assert(held[k] == x);
        }
        if held.contains(x) {
            let k = choose|k: int| 0 <= k < held.len() && held[k] == x;
            if k < d.len() {
                assert(d[k] == x);
            }
        }
        if prev.contains(x) {
            let k = choose|k: int| 0 <= k < prev.len() && prev[k] == x;
            if !removed_id(held.last(), old, days) {
                assert(cur[k] == x);
            }
        }
        if cur.contains(x) {
            let k = choose|k: int| 0 <= k < cur.len() && cur[k] == x;
            if k < prev.len() {
                assert(prev[k] == x);
            }
        }
        if !removed_id(held.last(), old, days) && held.last() == x {
            assert(cur[prev.len() as int] == x);
        }
    }
}

proof fn lemma_with_missing(list: Seq<Seq<char>>, ids: Seq<Seq<char>>, x: Seq<char>)
    ensures
        with_missing(list, ids).contains(x) <==> list.contains(x) || ids.contains(x),
    decreases ids.len(),
{
    if ids.len() > 0 {
        let d = ids.drop_last();
        lemma_with_missing(list, d, x);
        let prev = with_missing(list, d);
        let cur = with_missing(list, ids);
        if d.contains(x) {
            let k = choose|k: int| 0 <= k < d.len() && d[k] == x;
            assert(ids[k] == x);
        }
        if ids.contains(x) {
            let k = choose|k: int| 0 <= k < ids.len() && ids[k] == x;
            if k < d.len() {
                assert(d[k] == x);
            }
        }
        if prev.contains(x) {
            let k = choose|k: int| 0 <= k < prev.len() && prev[k] == x;
            assert(cur[k] == x);
        }
        if cur.contains(x) {
            let k = choose|k: int| 0 <= k < cur.len() && cur[k] == x;
            if k < prev.len() {
                assert(prev[k] == x);
            }
        }
        if !prev.contains(ids.last()) && ids.last() == x {
            assert(cur[prev.len() as int] == x);
        }
    }
}

/// After generation a volunteer is available for exactly the slots they
/// were available for that were not regenerated, and the new slots that
/// share time with a slot they held on the same day.
pub proof fn lemma_availability_carried_over(
    held: Seq<Seq<char>>,
    old: Seq<(Seq<char>, Seq<char>, Seq<char>, Seq<char>, FieldKind)>,
    days: Seq<DayGenConfig>,
    new: Seq<(Seq<char>, Seq<char>, Seq<char>, Seq<char>, FieldKind)>,
    x: Seq<char>,
)
    ensures
        new_availability(held, old, days, new).contains(x) <==> (held.contains(x) && !removed_id(x, old, days))
            || all_candidates(new, held, old, days).contains(x),
{
    lemma_retained_ids(held, old, days, x);
    lemma_with_missing(retained_ids(held, old, days), all_candidates(new, held, old, days), x);
}

} // verus!
