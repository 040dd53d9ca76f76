//! Schedule analysis: each team's activities in time order with the gaps
//! between them, and each volunteer's working blocks on a day.
use vstd::prelude::*;
use crate::helpers::{format_minutes_to_time, parse_time_to_minutes, spec_format_minutes, spec_lenient_minutes};
use crate::lookup::{find_division, find_first, find_slot, first_where, slot_has_id, division_has_id};
use crate::model::{Schedule, ScheduleAssignment, TimeSlot, TournamentConfig};
use crate::reports::{activity_involves_team, involves_team};
use crate::sorting::{key_order, lemma_stable_order_of, permuted, sorted_by, stable_order};
use crate::text::{push_str, same_text, string_from};

verus! {

broadcast use vstd::string::group_string_axioms;

// ---------------------------------------------------------------------------
// A team's activities
// ---------------------------------------------------------------------------

/// A team's activity: the day of its slot, its start in minutes, and its
/// length.
pub open spec fn entry_view(e: (String, u32, u32)) -> (Seq<char>, nat, nat) {
    (e.0@, e.1 as nat, e.2 as nat)
}

/// The team's activities in assignment order: those whose slot exists.
pub open spec fn team_entries(asg: Seq<ScheduleAssignment>, slots: Seq<TimeSlot>, team: Seq<char>) -> Seq<
    (Seq<char>, nat, nat),
>
    decreases asg.len(),
{
    if asg.len() == 0 {
        Seq::empty()
    } else {
        let prev = team_entries(asg.drop_last(), slots, team);
        let a = asg.last();
        if involves_team(a, team) {
            match find_first(slots, slot_has_id(a.time_slot_id@)) {
                Some(s) => prev.push((s.day@, spec_lenient_minutes(s.start_time@), a.activity.spec_duration() as nat)),
                None => prev,
            }
        } else {
            prev
        }
    }
}

/// Place of a day: the position of its first slot.
pub open spec fn day_position(slots: Seq<TimeSlot>, day: Seq<char>) -> nat {
    match first_where(slots, |s: TimeSlot| s.day@ == day) {
        Some(i) => i as nat,
        None => 0,
    }
}

pub open spec fn entry_keys(slots: Seq<TimeSlot>, es: Seq<(Seq<char>, nat, nat)>) -> Seq<(usize, u32)> {
    Seq::new(es.len(), |i: int| (day_position(slots, es[i].0) as usize, es[i].1 as u32))
}

/// The team's activities ordered by day (in the order days first appear
/// among the slots), then by start.
pub open spec fn team_timeline(asg: Seq<ScheduleAssignment>, slots: Seq<TimeSlot>, team: Seq<char>) -> Seq<
    (Seq<char>, nat, nat),
> {
    let es = team_entries(asg, slots, team);
    sorted_by(es, entry_keys(slots, es), key_order::<(usize, u32)>())
}

pub open spec fn entries_view(es: Seq<(String, u32, u32)>) -> Seq<(Seq<char>, nat, nat)> {
    Seq::new(es.len(), |i: int| entry_view(es[i]))
}

/// Position of the first slot on `day`.
fn first_slot_on(slots: &Vec<TimeSlot>, day: &String) -> (r: usize)
    ensures
        r == day_position(slots@, day@),
{
    let ghost p = |s: TimeSlot| s.day@ == day@;
    let mut i: usize = 0;
    while i < slots.len()
        invariant
            i <= slots@.len(),
            p == (|s: TimeSlot| s.day@ == day@),
            forall|j: int| 0 <= j < i ==> !p(#[trigger] slots@[j]),
        decreases slots.len() - i,
    {
        if same_text(slots[i].day.as_str(), day.as_str()) {
            proof {
                crate::lookup::lemma_first_where_at(slots@, p, i as int);
            }
            return i;
        }
        i = i + 1;
    }
    proof {
        crate::lookup::lemma_first_where_none(slots@, p);
    }
    0
}

fn copy_entry(e: &(String, u32, u32)) -> (r: (String, u32, u32))
    ensures
        r == *e,
{
    (e.0.clone(), e.1, e.2)
}

/// The team's activities in time order, as [`team_timeline`] describes.
pub fn team_activities(config: &TournamentConfig, schedule: &Schedule, team: &str) -> (r: Vec<(String, u32, u32)>)
    requires
        config.slot_times_fit(),
    ensures
        entries_view(r@) == team_timeline(schedule.assignments@, config.time_slots@, team@),
{
    let ghost asg = schedule.assignments@;
    let ghost slots = config.time_slots@;
    let mut es: Vec<(String, u32, u32)> = Vec::new();
    let mut i: usize = 0;
    while i < schedule.assignments.len()
        invariant
            i <= asg.len(),
            asg == schedule.assignments@,
            slots == config.time_slots@,
            config.slot_times_fit(),
            entries_view(es@) == team_entries(asg.take(i as int), slots, team@),
        decreases schedule.assignments.len() - i,
    {
        assert(asg.take(i + 1).drop_last() =~= asg.take(i as int));
        assert(asg.take(i + 1).last() == asg[i as int]);
        let a = &schedule.assignments[i];
        if activity_involves_team(a, team) {
            match find_slot(&config.time_slots, a.time_slot_id.as_str()) {
                Some(k) => {
                    let s = &config.time_slots[k];
                    assert(s.times_fit());
                    let start = parse_time_to_minutes(s.start_time.as_str());
                    let ghost before = es@;
                    es.push((s.day.clone(), start, a.activity.duration_minutes()));
                    assert(entries_view(es@) =~= entries_view(before).push(entry_view(es@.last())));
                },
                None => {},
            }
        }
        i = i + 1;
    }
    assert(asg.take(asg.len() as int) =~= asg);
    let ghost ev = entries_view(es@);
    let mut keys: Vec<(usize, u32)> = Vec::new();
    let mut k: usize = 0;
    while k < es.len()
        invariant
            k <= es@.len(),
            ev == entries_view(es@),
            keys@ == entry_keys(slots, ev).take(k as int),
            slots == config.time_slots@,
        decreases es.len() - k,
    {
        let pos = first_slot_on(&config.time_slots, &es[k].0);
        keys.push((pos, es[k].1));
        k = k + 1;
        assert(keys@ =~= entry_keys(slots, ev).take(k as int));
    }
    assert(keys@ =~= entry_keys(slots, ev));
    let perm = stable_order(&keys);
    proof {
        lemma_stable_order_of(keys@, key_order::<(usize, u32)>(), perm@);
    }
    let mut out: Vec<(String, u32, u32)> = Vec::new();
    let mut q: usize = 0;
    while q < perm.len()
        invariant
            q <= perm@.len(),
            perm@.len() == es@.len(),
            forall|j: int| 0 <= j < perm@.len() ==> #[trigger] perm@[j] < es@.len(),
            entries_view(out@) == permuted(ev, perm@).take(q as int),
            ev == entries_view(es@),
        decreases perm.len() - q,
    {
        let ghost before = out@;
        out.push(copy_entry(&es[perm[q]]));
        assert(entries_view(out@) =~= entries_view(before).push(ev[perm@[q as int] as int]));
        assert(permuted(ev, perm@).take(q + 1) =~= permuted(ev, perm@).take(q as int).push(ev[perm@[q as int] as int]));
        q = q + 1;
    }
    assert(permuted(ev, perm@).take(q as int) =~= permuted(ev, perm@));
    out
}

// ---------------------------------------------------------------------------
// Gaps between a team's activities
// ---------------------------------------------------------------------------

/// End of an activity, in minutes.
pub open spec fn entry_end(e: (Seq<char>, nat, nat)) -> nat {
    e.1 + e.2
}

/// The time a team waits between its activities `i` and `i + 1` of the same
/// day (overlapping activities give none).
pub open spec fn gap_after(es: Seq<(Seq<char>, nat, nat)>, i: int) -> Option<nat> {
    if es[i].0 == es[i + 1].0 && es[i + 1].1 >= entry_end(es[i]) {
        Some((es[i + 1].1 - entry_end(es[i])) as nat)
    } else {
        None
    }
}

/// The waits between consecutive activities of the first `k` pairs.
pub open spec fn gaps_through(es: Seq<(Seq<char>, nat, nat)>, k: nat) -> Seq<nat>
    decreases k,
{
    if k == 0 {
        Seq::empty()
    } else {
        match gap_after(es, k - 1) {
            Some(g) => gaps_through(es, (k - 1) as nat).push(g),
            None => gaps_through(es, (k - 1) as nat),
        }
    }
}

pub open spec fn all_gaps(es: Seq<(Seq<char>, nat, nat)>) -> Seq<nat> {
    if es.len() == 0 {
        Seq::empty()
    } else {
        gaps_through(es, (es.len() - 1) as nat)
    }
}

/// Least of a sequence of numbers, starting from `u32::MAX`.
pub open spec fn least_from_max(s: Seq<nat>) -> nat
    decreases s.len(),
{
    if s.len() == 0 {
        u32::MAX as nat
    } else if s.last() < least_from_max(s.drop_last()) {
        s.last()
    } else {
        least_from_max(s.drop_last())
    }
}

/// Greatest of a sequence of numbers, starting from 0.
pub open spec fn greatest_from_zero(s: Seq<nat>) -> nat
    decreases s.len(),
{
    if s.len() == 0 {
        0
    } else if s.last() > greatest_from_zero(s.drop_last()) {
        s.last()
    } else {
        greatest_from_zero(s.drop_last())
    }
}

/// The shortest and longest wait, unless there is none (a least wait of
/// `u32::MAX` reads as none).
pub open spec fn spec_gap_range(es: Seq<(Seq<char>, nat, nat)>) -> Option<(nat, nat)> {
    let g = all_gaps(es);
    if least_from_max(g) == u32::MAX {
        None
    } else {
        Some((least_from_max(g), greatest_from_zero(g)))
    }
}

/// The sums the summary forms stay within `u32`: the end of each activity
/// followed by one on the same day, and the end of the last.
pub open spec fn ends_fit(es: Seq<(Seq<char>, nat, nat)>) -> bool {
    forall|i: int|
        0 <= i < es.len() && (i == es.len() - 1 || es[i].0 == es[i + 1].0) ==> entry_end(#[trigger] es[i])
            <= u32::MAX
}

/// The days the activities span: one day with the first start and last
/// end, or the first and last day.
pub open spec fn spec_day_range(es: Seq<(Seq<char>, nat, nat)>) -> Option<Seq<char>> {
    if es.len() == 0 {
        None
    } else if es[0].0 == es.last().0 {
        Some(
            es[0].0 + " ("@ + spec_format_minutes(es[0].1) + " - "@ + spec_format_minutes(entry_end(es.last()))
                + ")"@,
        )
    } else {
        Some(es[0].0 + " - "@ + es.last().0)
    }
}

/// Whether the ends the summary needs stay within `u32`.
pub fn gap_sums_fit(es: &Vec<(String, u32, u32)>) -> (r: bool)
    ensures
        r == ends_fit(entries_view(es@)),
{
    let ghost ev = entries_view(es@);
    let mut i: usize = 0;
    while i < es.len()
        invariant
            i <= es@.len(),
            ev == entries_view(es@),
            forall|j: int|
                0 <= j < i && (j == ev.len() - 1 || ev[j].0 == ev[j + 1].0) ==> entry_end(#[trigger] ev[j]) <= u32::MAX,
        decreases es.len() - i,
    {
        let needed = i + 1 == es.len() || same_text(es[i].0.as_str(), es[i + 1].0.as_str());
        if needed && es[i].1 as u64 + es[i].2 as u64 > 0xffff_ffff {
            assert(entry_end(ev[i as int]) > u32::MAX);
            return false;
        }
        i = i + 1;
    }
    true
}

/// The shortest and longest wait between a team's activities, as
/// [`spec_gap_range`] describes.
pub fn gap_range(es: &Vec<(String, u32, u32)>) -> (r: Option<(u32, u32)>)
    requires
        ends_fit(entries_view(es@)),
    ensures
        match spec_gap_range(entries_view(es@)) {
            Some((lo, hi)) => r == Some((lo as u32, hi as u32)),
            None => r is None,
        },
{
    let ghost ev = entries_view(es@);
    let mut min_gap: u32 = 0xffff_ffff;
    let mut max_gap: u32 = 0;
    if es.len() == 0 {
        return None;
    }
    let mut i: usize = 0;
    while i + 1 < es.len()
        invariant
            es@.len() >= 1,
            i + 1 <= es@.len(),
            ev == entries_view(es@),
            ends_fit(ev),
            min_gap == least_from_max(gaps_through(ev, i as nat)),
            max_gap == greatest_from_zero(gaps_through(ev, i as nat)),
        decreases es.len() - i,
    {
        let ghost prev = gaps_through(ev, i as nat);
        assert(ev[i as int] == entry_view(es@[i as int]));
        assert(ev[i + 1] == entry_view(es@[i + 1]));
        if same_text(es[i].0.as_str(), es[i + 1].0.as_str()) {
            assert(entry_end(ev[i as int]) <= u32::MAX);
            let end1 = es[i].1 + es[i].2;
            if es[i + 1].1 >= end1 {
                let gap = es[i + 1].1 - end1;
                assert(gap_after(ev, i as int) == Some(gap as nat));
                assert(gaps_through(ev, (i + 1) as nat) == prev.push(gap as nat));
                assert(prev.push(gap as nat).drop_last() =~= prev);
                assert(prev.push(gap as nat).last() == gap as nat);
                if gap < min_gap {
                    min_gap = gap;
                }
                if gap > max_gap {
                    max_gap = gap;
                }
            } else {
                assert(gap_after(ev, i as int) is None);
                assert(gaps_through(ev, (i + 1) as nat) == prev);
            }
        } else {
            assert(gap_after(ev, i as int) is None);
            assert(gaps_through(ev, (i + 1) as nat) == prev);
        }
        i = i + 1;
    }
    if min_gap == 0xffff_ffff {
        None
    } else {
        Some((min_gap, max_gap))
    }
}

/// A shortest wait under a quarter of an hour is flagged.
pub open spec fn spec_short_gap(min_gap: nat) -> bool {
    min_gap < 15
}

/// A longest wait over three hours is flagged.
pub open spec fn spec_long_gap(max_gap: nat) -> bool {
    max_gap > 180
}

pub fn short_gap(min_gap: u32) -> (r: bool)
    ensures
        r == spec_short_gap(min_gap as nat),
{
    min_gap < 15
}

pub fn long_gap(max_gap: u32) -> (r: bool)
    ensures
        r == spec_long_gap(max_gap as nat),
{
    max_gap > 180
}

/// The days a team's activities span, as [`spec_day_range`] describes.
pub fn day_range(es: &Vec<(String, u32, u32)>) -> (r: Option<String>)
    requires
        ends_fit(entries_view(es@)),
    ensures
        match spec_day_range(entries_view(es@)) {
            Some(t) => r matches Some(s) && s@ == t,
            None => r is None,
        },
{
    let ghost ev = entries_view(es@);
    if es.len() == 0 {
        return None;
    }
    let n = es.len();
    let first = &es[0];
    let last = &es[n - 1];
    if same_text(first.0.as_str(), last.0.as_str()) {
        assert(entry_end(ev[n - 1]) <= u32::MAX);
        let mut s = first.0.clone();
        push_str(&mut s, " (");
        let a = format_minutes_to_time(first.1);
        push_str(&mut s, a.as_str());
        push_str(&mut s, " - ");
        let b = format_minutes_to_time(last.1 + last.2);
        push_str(&mut s, b.as_str());
        push_str(&mut s, ")");
        Some(s)
    } else {
        let mut s = first.0.clone();
        push_str(&mut s, " - ");
        push_str(&mut s, last.0.as_str());
        Some(s)
    }
}

/// The name of the division with this id, or `Unknown`.
pub fn division_name_or_unknown(config: &TournamentConfig, division_id: &str) -> (r: String)
    ensures
        r@ == match find_first(config.divisions@, division_has_id(division_id@)) {
            Some(d) => d.name@,
            None => "Unknown"@,
        },
{
    match find_division(&config.divisions, division_id) {
        Some(i) => config.divisions[i].name.clone(),
        None => string_from("Unknown"),
    }
}

/// The shortest wait is no longer than the longest, and every wait lies
/// between them.
pub proof fn lemma_gap_range_bounds(es: Seq<(Seq<char>, nat, nat)>)
    ensures
        spec_gap_range(es) matches Some((lo, hi)) ==> lo <= hi && forall|k: int|
            0 <= k < all_gaps(es).len() ==> lo <= #[trigger] all_gaps(es)[k] <= hi,
{
    lemma_least_greatest(all_gaps(es));
}

proof fn lemma_least_greatest(s: Seq<nat>)
    ensures
        forall|k: int| 0 <= k < s.len() ==> least_from_max(s) <= #[trigger] s[k] <= greatest_from_zero(s),
        least_from_max(s) < u32::MAX ==> exists|k: int| 0 <= k < s.len() && s[k] == least_from_max(s),
    decreases s.len(),
{
    if s.len() > 0 {
        let d = s.drop_last();
        lemma_least_greatest(d);
        assert forall|k: int| 0 <= k < s.len() implies least_from_max(s) <= #[trigger] s[k] <= greatest_from_zero(s) by {
            if k < d.len() {
                assert(s[k] == d[k]);
            }
        }
        if least_from_max(s) < u32::MAX && least_from_max(s) != s.last() {
            let k = choose|k: int| 0 <= k < d.len() && d[k] == least_from_max(d);
            assert(s[k] == d[k]);
        }
        if least_from_max(s) == s.last() {
            assert(s[s.len() - 1] == s.last());
        }
    }
}

/// Activities `i` and `i + 1` are on the same day and the second starts no
/// earlier than the first ends.
pub open spec fn waits_between(es: Seq<(Seq<char>, nat, nat)>, i: int) -> bool {
    &&& 0 <= i
    &&& i + 1 < es.len()
    &&& es[i].0 == es[i + 1].0
    &&& es[i + 1].1 >= es[i].1 + es[i].2
}

/// `g` is the wait between activities `i` and `i + 1` for some `i` below `n`.
pub open spec fn wait_of_pair(es: Seq<(Seq<char>, nat, nat)>, n: int, g: int) -> bool {
    exists|i: int| 0 <= i < n && #[trigger] waits_between(es, i) && g == es[i + 1].1 - (es[i].1 + es[i].2)
}

proof fn lemma_gaps_come_from_pairs(es: Seq<(Seq<char>, nat, nat)>, n: nat)
    requires
        n + 1 <= es.len(),
    ensures
        forall|k: int| 0 <= k < gaps_through(es, n).len() ==> wait_of_pair(es, n as int, #[trigger] gaps_through(es, n)[k] as int),
        forall|i: int| 0 <= i < n && waits_between(es, i) ==> #[trigger] gaps_through(es, n).contains(
            (es[i + 1].1 - (es[i].1 + es[i].2)) as nat,
        ),
    decreases n,
{
    if n == 0 {
        assert(gaps_through(es, n) =~= Seq::<nat>::empty());
    } else {
        let m = (n - 1) as nat;
        lemma_gaps_come_from_pairs(es, m);
        let prev = gaps_through(es, m);
        let cur = gaps_through(es, n);
        assert forall|k: int| 0 <= k < cur.len() implies wait_of_pair(es, n as int, #[trigger] cur[k] as int) by {
            if k < prev.len() {
                assert(cur[k] == prev[k]);
                assert(wait_of_pair(es, m as int, prev[k] as int));
                let i = choose|i: int| 0 <= i < m && #[trigger] waits_between(es, i) && prev[k] == es[i + 1].1 - (es[i].1 + es[i].2);
                assert(0 <= i < n && waits_between(es, i) && cur[k] == es[i + 1].1 - (es[i].1 + es[i].2));
            } else {
                assert(gap_after(es, m as int) is Some);
                assert(cur == prev.push(gap_after(es, m as int).unwrap()));
                assert(waits_between(es, m as int));
                assert(cur[k] == es[m as int + 1].1 - (es[m as int].1 + es[m as int].2));
                assert(0 <= m < n && waits_between(es, m as int));
            }
        }
        assert forall|i: int| 0 <= i < n && waits_between(es, i) implies #[trigger] cur.contains(
            (es[i + 1].1 - (es[i].1 + es[i].2)) as nat,
        ) by {
            let g = (es[i + 1].1 - (es[i].1 + es[i].2)) as nat;
            assert(gap_after(es, i) == Some(g));
            if i < m {
                assert(prev.contains(g));
                let k = choose|k: int| 0 <= k < prev.len() && prev[k] == g;
                assert(cur[k] == g);
            } else {
                assert(cur == prev.push(g));
                assert(cur[prev.len() as int] == g);
            }
        }
    }
}

proof fn lemma_least_at_most(s: Seq<nat>)
    ensures
        least_from_max(s) <= u32::MAX,
    decreases s.len(),
{
    if s.len() > 0 {
        lemma_least_at_most(s.drop_last());
    }
}

proof fn lemma_greatest_attained(s: Seq<nat>)
    requires
        s.len() > 0,
    ensures
        exists|k: int| 0 <= k < s.len() && s[k] == greatest_from_zero(s),
    decreases s.len(),
{
    let d = s.drop_last();
    if greatest_from_zero(s) == s.last() {
        assert(s[s.len() - 1] == s.last());
    } else {
        assert(greatest_from_zero(s) == greatest_from_zero(d));
        if d.len() > 0 {
            lemma_greatest_attained(d);
            let k = choose|k: int| 0 <= k < d.len() && d[k] == greatest_from_zero(d);
            assert(s[k] == d[k]);
        } else {
            assert(greatest_from_zero(d) == 0);
        }
    }
}

/// The shortest and longest wait come only from consecutive activities on
/// the same day: each is the time between one such activity's end and the
/// next one's start, and every such time lies between them. Activities on
/// different days make no wait; with no wait there is no range.
pub proof fn lemma_gap_range_same_day(es: Seq<(Seq<char>, nat, nat)>)
    ensures
        spec_gap_range(es) matches Some((lo, hi)) ==> {
            &&& exists|i: int| #[trigger] waits_between(es, i) && lo == es[i + 1].1 - (es[i].1 + es[i].2)
            &&& exists|j: int| #[trigger] waits_between(es, j) && hi == es[j + 1].1 - (es[j].1 + es[j].2)
            &&& forall|i: int| #[trigger] waits_between(es, i) ==> lo <= es[i + 1].1 - (es[i].1 + es[i].2) <= hi
        },
        spec_gap_range(es) is None ==> forall|i: int| #[trigger] waits_between(es, i) ==> es[i + 1].1 - (es[i].1
            + es[i].2) >= u32::MAX,
{
    let g = all_gaps(es);
    lemma_least_greatest(g);
    lemma_least_at_most(g);
    if es.len() > 0 {
        let n = (es.len() - 1) as nat;
        lemma_gaps_come_from_pairs(es, n);
        assert forall|i: int| #[trigger] waits_between(es, i) implies g.contains(
            (es[i + 1].1 - (es[i].1 + es[i].2)) as nat,
        ) by {
            assert(0 <= i < n);
            assert(gaps_through(es, n).contains((es[i + 1].1 - (es[i].1 + es[i].2)) as nat));
        }
        if spec_gap_range(es) is Some {
            let k = choose|k: int| 0 <= k < g.len() && g[k] == least_from_max(g);
            assert(wait_of_pair(es, n as int, g[k] as int));
            lemma_greatest_attained(g);
            let k2 = choose|k2: int| 0 <= k2 < g.len() && g[k2] == greatest_from_zero(g);
            assert(wait_of_pair(es, n as int, g[k2] as int));
            assert forall|x: int| #[trigger] waits_between(es, x) implies least_from_max(g) <= es[x + 1].1 - (es[x].1
                + es[x].2) <= greatest_from_zero(g) by {
                let gx = (es[x + 1].1 - (es[x].1 + es[x].2)) as nat;
                assert(g.contains(gx));
                let q = choose|q: int| 0 <= q < g.len() && g[q] == gx;
            }
        } else {
            assert forall|x: int| #[trigger] waits_between(es, x) implies es[x + 1].1 - (es[x].1 + es[x].2) >= u32::MAX by {
                let gx = (es[x + 1].1 - (es[x].1 + es[x].2)) as nat;
                assert(g.contains(gx));
                let q = choose|q: int| 0 <= q < g.len() && g[q] == gx;
            }
        }
    }
}

// ---------------------------------------------------------------------------
// A volunteer's working day
// ---------------------------------------------------------------------------

/// The days of the slots, each once, in order of first appearance.
pub open spec fn distinct_days(slots: Seq<TimeSlot>) -> Seq<Seq<char>>
    decreases slots.len(),
{
    if slots.len() == 0 {
        Seq::empty()
    } else if distinct_days(slots.drop_last()).contains(slots.last().day@) {
        distinct_days(slots.drop_last())
    } else {
        distinct_days(slots.drop_last()).push(slots.last().day@)
    }
}

pub fn unique_days(slots: &Vec<TimeSlot>) -> (r: Vec<String>)
    ensures
        crate::generation::string_views(r@) == distinct_days(slots@),
{
    let mut days: Vec<String> = Vec::new();
    let mut i: usize = 0;
    while i < slots.len()
        invariant
            i <= slots@.len(),
            crate::generation::string_views(days@) == distinct_days(slots@.take(i as int)),
        decreases slots.len() - i,
    {
        assert(slots@.take(i + 1).drop_last() =~= slots@.take(i as int));
        assert(slots@.take(i + 1).last() == slots@[i as int]);
        let seen = crate::lookup::contains_string(&days, slots[i].day.as_str());
        let ghost before = days@;
        proof {
            let v = crate::generation::string_views(before);
            assert(v.len() == before.len());
            if seen {
                let q = choose|q: int| 0 <= q < days@.len() && (#[trigger] days@[q])@ == slots@[i as int].day@;
                assert(v[q] == slots@[i as int].day@);
            } else {
                assert forall|q: int| 0 <= q < v.len() implies v[q] != slots@[i as int].day@ by {
                    assert(v[q] == before[q]@);
                }
            }
        }
        if !seen {
            days.push(slots[i].day.clone());
            proof {
                let v = crate::generation::string_views(before);
                assert forall|q: int| 0 <= q < days@.len() implies crate::generation::string_views(days@)[q]
                    == v.push(slots@[i as int].day@)[q] by {
                    if q < before.len() {
                        assert(days@[q] == before[q]);
                    }
                }
                assert(crate::generation::string_views(days@) =~= v.push(slots@[i as int].day@));
            }
        }
        i = i + 1;
    }
    assert(slots@.take(slots@.len() as int) =~= slots@);
    days
}

/// Some assignment in this slot rosters the volunteer.
pub open spec fn worked_slot(asg: Seq<ScheduleAssignment>, slot_id: Seq<char>, vol: Seq<char>) -> bool {
    exists|k: int| 0 <= k < asg.len() && (#[trigger] asg[k]).time_slot_id@ == slot_id && crate::reports::rosters_volunteer(asg[k], vol)
}

/// Start and end of each slot on `day` the volunteer is rostered in, in
/// slot order.
pub open spec fn worked_spans(slots: Seq<TimeSlot>, asg: Seq<ScheduleAssignment>, day: Seq<char>, vol: Seq<char>) -> Seq<
    (u32, u32),
>
    decreases slots.len(),
{
    if slots.len() == 0 {
        Seq::empty()
    } else {
        let prev = worked_spans(slots.drop_last(), asg, day, vol);
        let s = slots.last();
        if s.day@ == day && worked_slot(asg, s.id@, vol) {
            prev.push((crate::availability::span_of(s).0 as u32, crate::availability::span_of(s).1 as u32))
        } else {
            prev
        }
    }
}

pub open spec fn span_starts(spans: Seq<(u32, u32)>) -> Seq<u32> {
    Seq::new(spans.len(), |i: int| spans[i].0)
}

/// The volunteer's rostered spans on `day`, ordered by start (ties keep
/// slot order).
pub open spec fn spec_day_shifts(slots: Seq<TimeSlot>, asg: Seq<ScheduleAssignment>, day: Seq<char>, vol: Seq<char>) -> Seq<
    (u32, u32),
> {
    let w = worked_spans(slots, asg, day, vol);
    sorted_by(w, span_starts(w), key_order::<u32>())
}

fn rostered_in_slot(schedule: &Schedule, slot_id: &str, vol: &str) -> (r: bool)
    ensures
        r == worked_slot(schedule.assignments@, slot_id@, vol@),
{
    let mut k: usize = 0;
    while k < schedule.assignments.len()
        invariant
            k <= schedule.assignments@.len(),
            forall|j: int| 0 <= j < k ==> !((#[trigger] schedule.assignments@[j]).time_slot_id@ == slot_id@
                && crate::reports::rosters_volunteer(schedule.assignments@[j], vol@)),
        decreases schedule.assignments.len() - k,
    {
        let a = &schedule.assignments[k];
        if same_text(a.time_slot_id.as_str(), slot_id) && crate::reports::assignment_has_volunteer(a, vol) {
            return true;
        }
        k = k + 1;
    }
    false
}

/// The volunteer's rostered spans on `day`, as [`spec_day_shifts`]
/// describes.
pub fn day_shifts(slots: &Vec<TimeSlot>, schedule: &Schedule, day: &str, vol: &str) -> (r: Vec<(u32, u32)>)
    requires
        crate::availability::slots_fit(slots@),
    ensures
        r@ == spec_day_shifts(slots@, schedule.assignments@, day@, vol@),
{
    let mut w: Vec<(u32, u32)> = Vec::new();
    let mut i: usize = 0;
    while i < slots.len()
        invariant
            i <= slots@.len(),
            crate::availability::slots_fit(slots@),
            w@ == worked_spans(slots@.take(i as int), schedule.assignments@, day@, vol@),
        decreases slots.len() - i,
    {
        assert(slots@.take(i + 1).drop_last() =~= slots@.take(i as int));
        assert(slots@.take(i + 1).last() == slots@[i as int]);
        let s = &slots[i];
        if same_text(s.day.as_str(), day) && rostered_in_slot(schedule, s.id.as_str(), vol) {
            assert(s.times_fit());
            w.push(crate::availability::slot_span(s));
        }
        i = i + 1;
    }
    assert(slots@.take(slots@.len() as int) =~= slots@);
    let mut keys: Vec<u32> = Vec::new();
    let mut k: usize = 0;
    while k < w.len()
        invariant
            k <= w@.len(),
            keys@ == span_starts(w@).take(k as int),
        decreases w.len() - k,
    {
        keys.push(w[k].0);
        k = k + 1;
        assert(keys@ =~= span_starts(w@).take(k as int));
    }
    assert(keys@ =~= span_starts(w@));
    let perm = stable_order(&keys);
    proof {
        lemma_stable_order_of(keys@, key_order::<u32>(), perm@);
    }
    let mut out: Vec<(u32, u32)> = Vec::new();
    let mut q: usize = 0;
    while q < perm.len()
        invariant
            q <= perm@.len(),
            forall|j: int| 0 <= j < perm@.len() ==> #[trigger] perm@[j] < w@.len(),
            out@ == permuted(w@, perm@).take(q as int),
        decreases perm.len() - q,
    {
        out.push(w[perm[q]]);
        q = q + 1;
        assert(out@ =~= permuted(w@, perm@).take(q as int));
    }
    assert(permuted(w@, perm@).take(q as int) =~= permuted(w@, perm@));
    out
}

/// Working blocks written `HH:MM–HH:MM`, separated by commas; a dash when
/// there are none.
pub open spec fn spec_block_summary(blocks: Seq<(u32, u32)>) -> Seq<char>
    decreases blocks.len(),
{
    if blocks.len() == 0 {
        "—"@
    } else if blocks.len() == 1 {
        block_text(blocks[0])
    } else {
        spec_block_summary(blocks.drop_last()) + ", "@ + block_text(blocks.last())
    }
}

pub open spec fn block_text(b: (u32, u32)) -> Seq<char> {
    spec_format_minutes(b.0 as nat) + "–"@ + spec_format_minutes(b.1 as nat)
}

pub fn block_summary(blocks: &Vec<(u32, u32)>) -> (r: String)
    ensures
        r@ == spec_block_summary(blocks@),
{
    if blocks.len() == 0 {
        return string_from("—");
    }
    let mut s = String::new();
    let mut i: usize = 0;
    while i < blocks.len()
        invariant
            i <= blocks@.len(),
            blocks@.len() > 0,
            i == 0 ==> s@ == Seq::<char>::empty(),
            i > 0 ==> s@ == spec_block_summary(blocks@.take(i as int)),
        decreases blocks.len() - i,
    {
        if i > 0 {
            push_str(&mut s, ", ");
        }
        let a = format_minutes_to_time(blocks[i].0);
        push_str(&mut s, a.as_str());
        push_str(&mut s, "–");
        let b = format_minutes_to_time(blocks[i].1);
        push_str(&mut s, b.as_str());
        proof {
            let t = blocks@.take(i + 1);
            assert(t.drop_last() =~= blocks@.take(i as int));
            assert(t.last() == blocks@[i as int]);
            if i == 0 {
                assert(t.len() == 1);
                assert(t[0] == blocks@[0]);
            }
        }
        i = i + 1;
    }
    assert(blocks@.take(blocks@.len() as int) =~= blocks@);
    s
}

/// Whole hours from `h` (a whole hour) up to before `end`.
pub open spec fn marks_from(h: nat, end: nat) -> Seq<nat>
    decreases end + 60 - h,
{
    if h < end {
        seq![h] + marks_from(h + 60, end)
    } else {
        Seq::empty()
    }
}

/// The whole hours after `start` and before `end`, where an hour line is
/// drawn.
pub open spec fn spec_hour_marks(start: nat, end: nat) -> Seq<nat> {
    marks_from((start / 60 + 1) * 60, end)
}

pub fn hour_marks(start: u32, end: u32) -> (r: Vec<u32>)
    requires
        (start / 60 + 1) * 60 <= u32::MAX,
        end <= u32::MAX - 59,
    ensures
        r@.len() == spec_hour_marks(start as nat, end as nat).len(),
        forall|i: int| 0 <= i < r@.len() ==> #[trigger] r@[i] == spec_hour_marks(start as nat, end as nat)[i],
{
    let mut r: Vec<u32> = Vec::new();
    let mut h: u32 = (start / 60 + 1) * 60;
    let ghost full = spec_hour_marks(start as nat, end as nat);
    while h < end
        invariant
            end <= u32::MAX - 59,
            r@.len() + marks_from(h as nat, end as nat).len() == full.len(),
            forall|i: int| 0 <= i < r@.len() ==> #[trigger] r@[i] == full[i],
            forall|i: int| 0 <= i < marks_from(h as nat, end as nat).len() ==> #[trigger] marks_from(h as nat, end as nat)[i] == full[r@.len() + i],
        decreases end as int + 60 - h as int,
    {
        let ghost rest = marks_from(h as nat, end as nat);
        assert(rest == seq![h as nat] + marks_from(h as nat + 60, end as nat));
        assert(rest[0] == h as nat);
        assert forall|i: int| 0 <= i < marks_from(h as nat + 60, end as nat).len() implies #[trigger] marks_from(h as nat + 60, end as nat)[i] == full[r@.len() + 1 + i] by {
            assert(marks_from(h as nat + 60, end as nat)[i] == rest[i + 1]);
        }
        r.push(h);
        h = h + 60;
    }
    r
}

} // verus!
