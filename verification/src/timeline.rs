//! The schedule timeline: which field columns it shows and in what order,
//! the span of minutes each day covers, the hour lines drawn across it, and
//! the long breaks between consecutive slots.
use vstd::prelude::*;
use crate::helpers::{format_minutes_to_time, hhmm_fits, parse_time_to_minutes, spec_format_minutes, spec_lenient_minutes};
use crate::lookup::{as_index, find_first, find_slot, first_where, lemma_first_where_at, lemma_first_where_none, slot_has_id};
use crate::model::{DayGenConfig, Field, FieldKind, ScheduleAssignment, TimeSlot, TournamentConfig};
use crate::sorting::{key_order, lemma_stable_order_of, permuted, sorted_by, stable_order};
use crate::text::same_text;

verus! {

broadcast use vstd::string::group_string_axioms;

// ---------------------------------------------------------------------------
// Columns
// ---------------------------------------------------------------------------

/// The positions of the fields of one kind, in order.
pub open spec fn kind_spots(fields: Seq<Field>, kind: FieldKind) -> Seq<usize>
    decreases fields.len(),
{
    if fields.len() == 0 {
        Seq::empty()
    } else if fields.last().kind == kind {
        kind_spots(fields.drop_last(), kind).push((fields.len() - 1) as usize)
    } else {
        kind_spots(fields.drop_last(), kind)
    }
}

/// Competition fields first, then interview fields, each kind in
/// configuration order.
pub open spec fn column_order(fields: Seq<Field>) -> Seq<usize> {
    kind_spots(fields, FieldKind::Competition) + kind_spots(fields, FieldKind::Interview)
}

proof fn lemma_kind_spots_bounded(fields: Seq<Field>, kind: FieldKind)
    requires
        fields.len() <= usize::MAX,
    ensures
        forall|k: int| 0 <= k < kind_spots(fields, kind).len() ==> #[trigger] kind_spots(fields, kind)[k] < fields.len(),
    decreases fields.len(),
{
    if fields.len() > 0 {
        lemma_kind_spots_bounded(fields.drop_last(), kind);
        let prev = kind_spots(fields.drop_last(), kind);
        let cur = kind_spots(fields, kind);
        assert forall|k: int| 0 <= k < cur.len() implies #[trigger] cur[k] < fields.len() by {
            if fields.last().kind == kind && k == prev.len() {
                assert(cur[k] == fields.len() - 1);
            } else {
                assert(cur[k] == prev[k]);
            }
        }
    }
}

fn push_kind(fields: &Vec<Field>, kind: FieldKind, out: &mut Vec<usize>)
    ensures
        final(out)@ == old(out)@ + kind_spots(fields@, kind),
{
    let ghost start = out@;
    let mut i: usize = 0;
    while i < fields.len()
        invariant
            i <= fields@.len(),
            out@ == start + kind_spots(fields@.take(i as int), kind),
        decreases fields.len() - i,
    {
        let ghost t = fields@.take(i + 1);
        assert(t.drop_last() =~= fields@.take(i as int));
        assert(t.last() == fields@[i as int]);
        if fields[i].kind == kind {
            let ghost before = out@;
            out.push(i);
            assert(out@ =~= start + kind_spots(t, kind));
        } else {
            assert(out@ =~= start + kind_spots(t, kind));
        }
        i = i + 1;
    }
    assert(fields@.take(fields@.len() as int) =~= fields@);
}

/// The order of the timeline's field columns: positions of `fields`.
pub fn timeline_columns(fields: &Vec<Field>) -> (r: Vec<usize>)
    ensures
        r@ == column_order(fields@),
        forall|k: int| 0 <= k < r@.len() ==> #[trigger] r@[k] < fields@.len(),
{
    let mut out: Vec<usize> = Vec::new();
    push_kind(fields, FieldKind::Competition, &mut out);
    push_kind(fields, FieldKind::Interview, &mut out);
    assert(out@ =~= column_order(fields@));
    let n = fields.len();
    proof {
        lemma_kind_spots_bounded(fields@, FieldKind::Competition);
        lemma_kind_spots_bounded(fields@, FieldKind::Interview);
        let a = kind_spots(fields@, FieldKind::Competition);
        let b = kind_spots(fields@, FieldKind::Interview);
        assert forall|k: int| 0 <= k < out@.len() implies #[trigger] out@[k] < fields@.len() by {
            if k < a.len() {
                assert(out@[k] == a[k]);
            } else {
                assert(out@[k] == b[k - a.len()]);
            }
        }
    }
    out
}

// ---------------------------------------------------------------------------
// The span of a day
// ---------------------------------------------------------------------------

pub open spec fn min_nat(a: nat, b: nat) -> nat {
    if a <= b { a } else { b }
}

pub open spec fn max_nat(a: nat, b: nat) -> nat {
    if a >= b { a } else { b }
}

/// The earliest start among the day's slots, and no later than midnight's
/// 24:00.
pub open spec fn slots_start(slots: Seq<TimeSlot>, day: Seq<char>) -> nat
    decreases slots.len(),
{
    if slots.len() == 0 {
        1440
    } else if slots.last().day@ == day {
        min_nat(slots_start(slots.drop_last(), day), spec_lenient_minutes(slots.last().start_time@))
    } else {
        slots_start(slots.drop_last(), day)
    }
}

/// The latest end among the day's slots (0 without any).
pub open spec fn slots_end(slots: Seq<TimeSlot>, day: Seq<char>) -> nat
    decreases slots.len(),
{
    if slots.len() == 0 {
        0
    } else if slots.last().day@ == day {
        max_nat(slots_end(slots.drop_last(), day), spec_lenient_minutes(slots.last().end_time@))
    } else {
        slots_end(slots.drop_last(), day)
    }
}

/// Where an activity placed on the day ends: its slot's start plus its
/// length. `None` when its slot is unknown or on another day.
pub open spec fn activity_end(slots: Seq<TimeSlot>, a: ScheduleAssignment, day: Seq<char>) -> Option<nat> {
    match find_first(slots, slot_has_id(a.time_slot_id@)) {
        Some(s) => if s.day@ == day {
            Some(spec_lenient_minutes(s.start_time@) + a.activity.spec_duration() as nat)
        } else {
            None
        },
        None => None,
    }
}

/// `base`, pushed later by every activity of the day that ends after it.
pub open spec fn activities_end(slots: Seq<TimeSlot>, items: Seq<ScheduleAssignment>, day: Seq<char>, base: nat) -> nat
    decreases items.len(),
{
    if items.len() == 0 {
        base
    } else {
        let prev = activities_end(slots, items.drop_last(), day, base);
        match activity_end(slots, items.last(), day) {
            Some(e) => max_nat(prev, e),
            None => prev,
        }
    }
}

pub open spec fn config_for_day(day: Seq<char>) -> spec_fn(DayGenConfig) -> bool {
    |dc: DayGenConfig| dc.day@ == day
}

/// The first and last minute the day's slots, its generation settings and
/// its activities reach.
pub open spec fn day_bounds(config: TournamentConfig, items: Seq<ScheduleAssignment>, day: Seq<char>) -> (nat, nat) {
    let s0 = slots_start(config.time_slots@, day);
    let e0 = slots_end(config.time_slots@, day);
    let (s1, e1) = match find_first(config.day_configs@, config_for_day(day)) {
        Some(dc) => (
            min_nat(s0, spec_lenient_minutes(dc.start_time@)),
            max_nat(e0, spec_lenient_minutes(dc.end_time@)),
        ),
        None => (s0, e0),
    };
    (s1, activities_end(config.time_slots@, items, day, e1))
}

/// The minutes the day's timeline spans: `None` when nothing reaches past
/// its start; otherwise at least four hours.
pub open spec fn day_span(config: TournamentConfig, items: Seq<ScheduleAssignment>, day: Seq<char>) -> Option<(nat, nat)> {
    let (s, e) = day_bounds(config, items, day);
    if s >= e {
        None
    } else if e - s < 240 {
        Some((s, s + 240))
    } else {
        Some((s, e))
    }
}

/// The clock strings the day's timeline reads fit in `u32`: those of the
/// day's slots and of the day's first generation setting.
pub open spec fn day_times_fit(config: TournamentConfig, day: Seq<char>) -> bool {
    &&& day_slots_fit(config.time_slots@, day)
    &&& find_first(config.day_configs@, config_for_day(day)) matches Some(dc) ==> hhmm_fits(dc.start_time@)
        && hhmm_fits(dc.end_time@)
}

/// Every slot of the day reads within `u32`.
pub open spec fn day_slots_fit(slots: Seq<TimeSlot>, day: Seq<char>) -> bool {
    forall|i: int| 0 <= i < slots.len() && (#[trigger] slots[i]).day@ == day ==> slots[i].times_fit()
}

/// Every activity placed on the day ends within `u32`.
pub open spec fn ends_fit(slots: Seq<TimeSlot>, items: Seq<ScheduleAssignment>, day: Seq<char>) -> bool {
    forall|i: int| 0 <= i < items.len() ==> (activity_end(slots, #[trigger] items[i], day) matches Some(e) ==> e <= u32::MAX)
}

fn find_day_config(configs: &Vec<DayGenConfig>, day: &str) -> (r: Option<usize>)
    ensures
        as_index(r) == first_where(configs@, config_for_day(day@)),
        r matches Some(i) ==> i < configs@.len() && configs@[i as int].day@ == day@,
{
    let ghost p = config_for_day(day@);
    let mut i: usize = 0;
    while i < configs.len()
        invariant
            i <= configs@.len(),
            p == config_for_day(day@),
            forall|j: int| 0 <= j < i ==> !p(#[trigger] configs@[j]),
        decreases configs.len() - i,
    {
        if same_text(configs[i].day.as_str(), day) {
            proof {
                lemma_first_where_at(configs@, p, i as int);
            }
            return Some(i);
        }
        i = i + 1;
    }
    proof {
        lemma_first_where_none(configs@, p);
    }
    None
}

/// The earliest start and latest end among the day's slots.
fn slot_bounds(slots: &Vec<TimeSlot>, day: &str) -> (r: (u32, u32))
    requires
        day_slots_fit(slots@, day@),
    ensures
        r.0 == slots_start(slots@, day@),
        r.1 == slots_end(slots@, day@),
{
    let mut start: u32 = 1440;
    let mut end: u32 = 0;
    let mut i: usize = 0;
    while i < slots.len()
        invariant
            i <= slots@.len(),
            day_slots_fit(slots@, day@),
            start == slots_start(slots@.take(i as int), day@),
            end == slots_end(slots@.take(i as int), day@),
        decreases slots.len() - i,
    {
        let ghost t = slots@.take(i + 1);
        assert(t.drop_last() =~= slots@.take(i as int));
        assert(t.last() == slots@[i as int]);
        let slot = &slots[i];
        if same_text(slot.day.as_str(), day) {
            assert(slot.times_fit());
            let s = parse_time_to_minutes(slot.start_time.as_str());
            let e = parse_time_to_minutes(slot.end_time.as_str());
            if s < start {
                start = s;
            }
            if e > end {
                end = e;
            }
        }
        i = i + 1;
    }
    assert(slots@.take(slots@.len() as int) =~= slots@);
    (start, end)
}

/// `base`, pushed later by the day's activities, as [`activities_end`]
/// describes.
fn activities_reach(config: &TournamentConfig, assignments: &[ScheduleAssignment], day: &str, base: u32) -> (r: u32)
    requires
        day_slots_fit(config.time_slots@, day@),
        ends_fit(config.time_slots@, assignments@, day@),
    ensures
        r == activities_end(config.time_slots@, assignments@, day@, base as nat),
{
    let ghost slots = config.time_slots@;
    let mut end = base;
    let mut j: usize = 0;
    while j < assignments.len()
        invariant
            j <= assignments@.len(),
            slots == config.time_slots@,
            day_slots_fit(slots, day@),
            ends_fit(slots, assignments@, day@),
            end == activities_end(slots, assignments@.take(j as int), day@, base as nat),
        decreases assignments.len() - j,
    {
        let ghost t = assignments@.take(j + 1);
        assert(t.drop_last() =~= assignments@.take(j as int));
        assert(t.last() == assignments@[j as int]);
        let a = &assignments[j];
        match find_slot(&config.time_slots, a.time_slot_id.as_str()) {
            Some(si) => {
                let slot = &config.time_slots[si];
                if same_text(slot.day.as_str(), day) {
                    assert(slot.times_fit());
                    assert(activity_end(slots, assignments@[j as int], day@) is Some);
                    let s = parse_time_to_minutes(slot.start_time.as_str());
                    let e = s + a.activity.duration_minutes();
                    if e > end {
                        end = e;
                    }
                }
            },
            None => {},
        }
        j = j + 1;
    }
    assert(assignments@.take(assignments@.len() as int) =~= assignments@);
    end
}

/// `start` and `end` widened to the day's generation settings, if it has
/// any.
#[verifier::spinoff_prover]
fn widen_by_day_config(configs: &Vec<DayGenConfig>, day: &str, start: u32, end: u32) -> (r: (u32, u32))
    requires
        find_first(configs@, config_for_day(day@)) matches Some(dc) ==> hhmm_fits(dc.start_time@)
            && hhmm_fits(dc.end_time@),
    ensures
        (r.0 as nat, r.1 as nat) == match find_first(configs@, config_for_day(day@)) {
            Some(dc) => (
                min_nat(start as nat, spec_lenient_minutes(dc.start_time@)),
                max_nat(end as nat, spec_lenient_minutes(dc.end_time@)),
            ),
            None => (start as nat, end as nat),
        },
        r.0 <= start,
{
    let found = find_day_config(configs, day);
    match found {
        Some(k) => {
            assert(find_first(configs@, config_for_day(day@)) == Some(configs@[k as int]));
            let dc = &configs[k];
            let s = parse_time_to_minutes(dc.start_time.as_str());
            let e = parse_time_to_minutes(dc.end_time.as_str());
            let lo = if s < start { s } else { start };
            let hi = if e > end { e } else { end };
            (lo, hi)
        },
        None => {
            assert(find_first(configs@, config_for_day(day@)) is None);
            (start, end)
        },
    }
}

/// The minutes the day's timeline spans, as [`day_span`] describes.
pub fn timeline_span(config: &TournamentConfig, assignments: &[ScheduleAssignment], day: &str) -> (r: Option<(u32, u32)>)
    requires
        day_times_fit(*config, day@),
        ends_fit(config.time_slots@, assignments@, day@),
    ensures
        match day_span(*config, assignments@, day@) {
            Some((s, e)) => r matches Some((a, b)) && a == s && b == e,
            None => r is None,
        },
{
    let (s0, e0) = slot_bounds(&config.time_slots, day);
    proof {
        lemma_start_at_most(config.time_slots@, day@);
    }
    let (start, end) = widen_by_day_config(&config.day_configs, day, s0, e0);
    let end = activities_reach(config, assignments, day, end);
    if start >= end {
        None
    } else if end - start < 240 {
        Some((start, start + 240))
    } else {
        Some((start, end))
    }
}

proof fn lemma_start_at_most(slots: Seq<TimeSlot>, day: Seq<char>)
    ensures
        slots_start(slots, day) <= 1440,
    decreases slots.len(),
{
    if slots.len() > 0 {
        lemma_start_at_most(slots.drop_last(), day);
    }
}

proof fn lemma_slot_within(slots: Seq<TimeSlot>, day: Seq<char>, i: int)
    requires
        0 <= i < slots.len(),
        slots[i].day@ == day,
    ensures
        slots_start(slots, day) <= spec_lenient_minutes(slots[i].start_time@),
        spec_lenient_minutes(slots[i].end_time@) <= slots_end(slots, day),
    decreases slots.len(),
{
    if i < slots.len() - 1 {
        lemma_slot_within(slots.drop_last(), day, i);
        assert(slots.drop_last()[i] == slots[i]);
    }
}

proof fn lemma_activities_end_grows(slots: Seq<TimeSlot>, items: Seq<ScheduleAssignment>, day: Seq<char>, base: nat)
    ensures
        base <= activities_end(slots, items, day, base),
        forall|i: int| 0 <= i < items.len() ==> (activity_end(slots, #[trigger] items[i], day) matches Some(e) ==> e <= activities_end(slots, items, day, base)),
    decreases items.len(),
{
    if items.len() > 0 {
        lemma_activities_end_grows(slots, items.drop_last(), day, base);
        assert forall|i: int| 0 <= i < items.len() implies (activity_end(slots, #[trigger] items[i], day) matches Some(e) ==> e <= activities_end(slots, items, day, base)) by {
            if i < items.len() - 1 {
                assert(items.drop_last()[i] == items[i]);
            }
        }
    }
}

/// The timeline of a day shows at least four hours, and every slot of the
/// day and every activity placed on it lies within what it shows.
pub proof fn lemma_span_covers_day(config: TournamentConfig, items: Seq<ScheduleAssignment>, day: Seq<char>)
    ensures
        day_span(config, items, day) matches Some((s, e)) ==> {
            &&& e >= s + 240
            &&& forall|i: int| 0 <= i < config.time_slots@.len() && (#[trigger] config.time_slots@[i]).day@ == day ==> s <= spec_lenient_minutes(config.time_slots@[i].start_time@) && spec_lenient_minutes(config.time_slots@[i].end_time@) <= e
            &&& forall|j: int| 0 <= j < items.len() ==> (activity_end(config.time_slots@, #[trigger] items[j], day) matches Some(t) ==> t <= e)
        },
{
    let slots = config.time_slots@;
    let (s1, e1) = match find_first(config.day_configs@, config_for_day(day)) {
        Some(dc) => (
            min_nat(slots_start(slots, day), spec_lenient_minutes(dc.start_time@)),
            max_nat(slots_end(slots, day), spec_lenient_minutes(dc.end_time@)),
        ),
        None => (slots_start(slots, day), slots_end(slots, day)),
    };
    lemma_activities_end_grows(slots, items, day, e1);
    assert forall|i: int| 0 <= i < slots.len() && (#[trigger] slots[i]).day@ == day implies s1 <= spec_lenient_minutes(slots[i].start_time@) && spec_lenient_minutes(slots[i].end_time@) <= activities_end(slots, items, day, e1) by {
        lemma_slot_within(slots, day, i);
    }
}

// ---------------------------------------------------------------------------
// Time lines
// ---------------------------------------------------------------------------

/// The first multiple of ten at or after `start`.
pub open spec fn first_line(start: nat) -> nat {
    if start % 10 == 0 {
        start
    } else {
        (start - start % 10 + 10) as nat
    }
}

/// The minutes a timeline from `start` to `end` draws a line at: every
/// multiple of ten between them, both ends included.
pub open spec fn line_minutes(start: nat, end: nat) -> Seq<nat> {
    let f = first_line(start);
    if f > end {
        Seq::empty()
    } else {
        Seq::new(((end - f) / 10 + 1) as nat, |k: int| (f + 10 * k) as nat)
    }
}

/// A line across the timeline: its minute, whether it is on the half hour,
/// and its `HH:MM` label.
pub struct TimelineLine {
    pub minute: u32,
    pub major: bool,
    pub label: String,
}

pub open spec fn line_view(l: TimelineLine) -> (nat, bool, Seq<char>) {
    (l.minute as nat, l.major, l.label@)
}

/// The lines drawn across a timeline from `start` to `end`.
pub open spec fn spec_timeline_lines(start: nat, end: nat) -> Seq<(nat, bool, Seq<char>)> {
    line_minutes(start, end).map_values(|m: nat| (m, m % 30 == 0, spec_format_minutes(m)))
}

/// The lines drawn across a timeline from `start` to `end`, as
/// [`spec_timeline_lines`] describes.
pub fn timeline_lines(start: u32, end: u32) -> (r: Vec<TimelineLine>)
    requires
        // The last line is found by rounding `end` up to a multiple of ten,
        // which must stay within `u32`.
        end <= u32::MAX - 5,
    ensures
        r@.map_values(|l: TimelineLine| line_view(l)) == spec_timeline_lines(start as nat, end as nat),
{
    let wide: u64 = if start % 10 == 0 { start as u64 } else { start as u64 - (start % 10) as u64 + 10 };
    let ghost lines = line_minutes(start as nat, end as nat);
    let mut out: Vec<TimelineLine> = Vec::new();
    let mut k: usize = 0;
    if wide > end as u64 {
        assert(out@.map_values(|l: TimelineLine| line_view(l)) =~= spec_timeline_lines(start as nat, end as nat));
        return out;
    }
    let mut m: u64 = wide;
    while m <= end as u64
        invariant
            wide == first_line(start as nat),
            wide <= end,
            lines == line_minutes(start as nat, end as nat),
            m == wide + 10 * k,
            m <= end + 10,
            out@.len() == k,
            forall|q: int| 0 <= q < k ==> line_view(#[trigger] out@[q]) == (
                lines[q],
                lines[q] % 30 == 0,
                spec_format_minutes(lines[q]),
            ),
            k <= lines.len(),
            k < lines.len() <==> m <= end,
        decreases end + 10 - m,
    {
        assert(lines[k as int] == m);
        let minute = m as u32;
        out.push(TimelineLine { minute, major: minute % 30 == 0, label: format_minutes_to_time(minute) });
        m = m + 10;
        k = k + 1;
    }
    assert(out@.map_values(|l: TimelineLine| line_view(l)) =~= spec_timeline_lines(start as nat, end as nat));
    out
}

// ---------------------------------------------------------------------------
// Long breaks
// ---------------------------------------------------------------------------

pub open spec fn slot_in(day: Seq<char>, kind: FieldKind) -> spec_fn(TimeSlot) -> bool {
    |s: TimeSlot| s.day@ == day && s.kind == kind
}

/// The positions of the slots satisfying `p`, in order.
pub open spec fn slot_spots(slots: Seq<TimeSlot>, p: spec_fn(TimeSlot) -> bool) -> Seq<usize>
    decreases slots.len(),
{
    if slots.len() == 0 {
        Seq::empty()
    } else if p(slots.last()) {
        slot_spots(slots.drop_last(), p).push((slots.len() - 1) as usize)
    } else {
        slot_spots(slots.drop_last(), p)
    }
}

proof fn lemma_slot_spots_bounded(slots: Seq<TimeSlot>, p: spec_fn(TimeSlot) -> bool)
    requires
        slots.len() <= usize::MAX,
    ensures
        forall|k: int| 0 <= k < slot_spots(slots, p).len() ==> #[trigger] slot_spots(slots, p)[k] < slots.len()
            && p(slots[slot_spots(slots, p)[k] as int]),
    decreases slots.len(),
{
    if slots.len() > 0 {
        let d = slots.drop_last();
        lemma_slot_spots_bounded(d, p);
        let prev = slot_spots(d, p);
        let cur = slot_spots(slots, p);
        assert forall|k: int| 0 <= k < cur.len() implies #[trigger] cur[k] < slots.len() && p(slots[cur[k] as int]) by {
            if p(slots.last()) && k == prev.len() {
                assert(cur[k] == slots.len() - 1);
            } else {
                assert(cur[k] == prev[k]);
                assert(slots[prev[k] as int] == d[prev[k] as int]);
            }
        }
    }
}

pub open spec fn start_minutes(slots: Seq<TimeSlot>) -> Seq<u32> {
    Seq::new(slots.len(), |i: int| spec_lenient_minutes(slots[i].start_time@) as u32)
}

/// The day's slots of one kind, ordered by start time (ties in
/// configuration order).
pub open spec fn kind_slots_by_start(slots: Seq<TimeSlot>, day: Seq<char>, kind: FieldKind) -> Seq<TimeSlot> {
    let picked = permuted(slots, slot_spots(slots, slot_in(day, kind)));
    sorted_by(picked, start_minutes(picked), key_order::<u32>())
}

/// The gaps of at least 45 minutes between one slot's end and the next
/// slot's start, as (end, start) pairs.
pub open spec fn long_breaks(ordered: Seq<TimeSlot>) -> Seq<(nat, nat)>
    decreases ordered.len(),
{
    if ordered.len() < 2 {
        Seq::empty()
    } else {
        let prev = long_breaks(ordered.drop_last());
        let t1 = spec_lenient_minutes(ordered[ordered.len() - 2].end_time@);
        let t2 = spec_lenient_minutes(ordered.last().start_time@);
        if t2 > t1 && t2 - t1 >= 45 {
            prev.push((t1, t2))
        } else {
            prev
        }
    }
}

/// Positions of the day's slots of one kind, ordered by start time, as
/// [`kind_slots_by_start`] describes.
fn kind_slot_order(slots: &Vec<TimeSlot>, day: &str, kind: FieldKind) -> (r: Vec<usize>)
    requires
        forall|i: int| 0 <= i < slots@.len() && slot_in(day@, kind)(#[trigger] slots@[i]) ==> slots@[i].times_fit(),
    ensures
        forall|k: int| 0 <= k < r@.len() ==> #[trigger] r@[k] < slots@.len() && slot_in(day@, kind)(slots@[r@[k] as int]),
        permuted(slots@, r@) == kind_slots_by_start(slots@, day@, kind),
{
    let ghost p = slot_in(day@, kind);
    let mut spots: Vec<usize> = Vec::new();
    let mut i: usize = 0;
    while i < slots.len()
        invariant
            i <= slots@.len(),
            p == slot_in(day@, kind),
            spots@ == slot_spots(slots@.take(i as int), p),
        decreases slots.len() - i,
    {
        let ghost t = slots@.take(i + 1);
        assert(t.drop_last() =~= slots@.take(i as int));
        assert(t.last() == slots@[i as int]);
        if same_text(slots[i].day.as_str(), day) && slots[i].kind == kind {
            spots.push(i);
        }
        i = i + 1;
    }
    assert(slots@.take(slots@.len() as int) =~= slots@);
    let n = slots.len();
    proof {
        lemma_slot_spots_bounded(slots@, p);
    }
    let ghost picked = permuted(slots@, spots@);
    let ghost views = start_minutes(picked);
    let mut keys: Vec<u32> = Vec::new();
    let mut j: usize = 0;
    while j < spots.len()
        invariant
            j <= spots@.len(),
            forall|i: int| 0 <= i < slots@.len() && slot_in(day@, kind)(#[trigger] slots@[i]) ==> slots@[i].times_fit(),
            forall|k: int| 0 <= k < spots@.len() ==> #[trigger] spots@[k] < slots@.len() && p(slots@[spots@[k] as int]),
            p == slot_in(day@, kind),
            picked == permuted(slots@, spots@),
            views == start_minutes(picked),
            keys@.len() == j,
            forall|k: int| 0 <= k < j ==> #[trigger] keys@[k] == views[k],
        decreases spots.len() - j,
    {
        let slot = &slots[spots[j]];
        assert(slot.times_fit());
        keys.push(parse_time_to_minutes(slot.start_time.as_str()));
        j = j + 1;
    }
    let perm = stable_order(&keys);
    proof {
        assert(keys@ =~= views);
        lemma_stable_order_of(views, key_order::<u32>(), perm@);
    }
    let mut out: Vec<usize> = Vec::new();
    let mut k: usize = 0;
    while k < perm.len()
        invariant
            k <= perm@.len(),
            perm@.len() == spots@.len(),
            forall|a: int| 0 <= a < perm@.len() ==> #[trigger] perm@[a] < spots@.len(),
            forall|a: int| 0 <= a < spots@.len() ==> #[trigger] spots@[a] < slots@.len() && p(slots@[spots@[a] as int]),
            p == slot_in(day@, kind),
            out@.len() == k,
            forall|a: int| 0 <= a < k ==> #[trigger] out@[a] == spots@[perm@[a] as int],
        decreases perm.len() - k,
    {
        out.push(spots[perm[k]]);
        k = k + 1;
    }
    assert(permuted(slots@, out@) =~= permuted(picked, perm@));
    out
}

/// The long breaks the timeline shades for one kind of slot on a day, as
/// (end of the slot before, start of the slot after).
pub fn timeline_breaks(slots: &Vec<TimeSlot>, day: &str, kind: FieldKind) -> (r: Vec<(u32, u32)>)
    requires
        forall|i: int| 0 <= i < slots@.len() && slot_in(day@, kind)(#[trigger] slots@[i]) ==> slots@[i].times_fit(),
    ensures
        r@.map_values(|b: (u32, u32)| (b.0 as nat, b.1 as nat)) == long_breaks(kind_slots_by_start(slots@, day@, kind)),
{
    let order = kind_slot_order(slots, day, kind);
    let ghost ordered = permuted(slots@, order@);
    let mut out: Vec<(u32, u32)> = Vec::new();
    if order.len() < 2 {
        assert(out@.map_values(|b: (u32, u32)| (b.0 as nat, b.1 as nat)) =~= long_breaks(ordered));
        return out;
    }
    let mut k: usize = 1;
    while k < order.len()
        invariant
            1 <= k <= order@.len(),
            forall|i: int| 0 <= i < slots@.len() && slot_in(day@, kind)(#[trigger] slots@[i]) ==> slots@[i].times_fit(),
            forall|a: int| 0 <= a < order@.len() ==> #[trigger] order@[a] < slots@.len() && slot_in(day@, kind)(slots@[order@[a] as int]),
            ordered == permuted(slots@, order@),
            out@.map_values(|b: (u32, u32)| (b.0 as nat, b.1 as nat)) == long_breaks(ordered.take(k as int)),
        decreases order.len() - k,
    {
        let before = &slots[order[k - 1]];
        let after = &slots[order[k]];
        assert(before.times_fit());
        assert(after.times_fit());
        let ghost t = ordered.take(k + 1);
        assert(t.drop_last() =~= ordered.take(k as int));
        assert(t[k - 1] == *before);
        assert(t.last() == *after);
        let t1 = parse_time_to_minutes(before.end_time.as_str());
        let t2 = parse_time_to_minutes(after.start_time.as_str());
        let ghost prev_view = out@.map_values(|b: (u32, u32)| (b.0 as nat, b.1 as nat));
        if t2 > t1 && t2 - t1 >= 45 {
            out.push((t1, t2));
            assert(out@.map_values(|b: (u32, u32)| (b.0 as nat, b.1 as nat)) =~= prev_view.push((t1 as nat, t2 as nat)));
        }
        k = k + 1;
    }
    assert(ordered.take(order@.len() as int) =~= ordered);
    out
}

} // verus!
