//! Ordering time slots by weekday and start, and laying out a day's slots
//! automatically from its opening hours.
use vstd::prelude::*;
use crate::model::{DayGenConfig, TimeSlot, TournamentConfig};
use crate::sorting::{key_order, lemma_stable_order_of, sorted_by, stable_order};
use crate::text::{same_text, spec_to_lowercase, string_from, to_lowercase};

verus! {

broadcast use vstd::string::group_string_axioms;

// ---------------------------------------------------------------------------
// Ordering slots
// ---------------------------------------------------------------------------

/// Place of a weekday in the week, read from its lowercase name; any other
/// name sorts after Sunday.
pub open spec fn day_rank(day: Seq<char>) -> usize {
    let d = spec_to_lowercase(day);
    if d == "monday"@ {
        1
    } else if d == "tuesday"@ {
        2
    } else if d == "wednesday"@ {
        3
    } else if d == "thursday"@ {
        4
    } else if d == "friday"@ {
        5
    } else if d == "saturday"@ {
        6
    } else if d == "sunday"@ {
        7
    } else {
        8
    }
}

pub fn day_order(day: &str) -> (r: usize)
    ensures
        r == day_rank(day@),
{
    let d = to_lowercase(day);
    let d = d.as_str();
    if same_text(d, "monday") {
        1
    } else if same_text(d, "tuesday") {
        2
    } else if same_text(d, "wednesday") {
        3
    } else if same_text(d, "thursday") {
        4
    } else if same_text(d, "friday") {
        5
    } else if same_text(d, "saturday") {
        6
    } else if same_text(d, "sunday") {
        7
    } else {
        8
    }
}

/// What slots sort by: their weekday, then their start.
pub open spec fn slot_key(s: TimeSlot) -> (usize, u32) {
    (day_rank(s.day@), s.spec_start_minutes() as u32)
}

pub open spec fn slot_keys(slots: Seq<TimeSlot>) -> Seq<(usize, u32)> {
    Seq::new(slots.len(), |i: int| slot_key(slots[i]))
}

/// The slots ordered by weekday and start, slots that compare equal keeping
/// their order.
pub open spec fn slots_in_order(slots: Seq<TimeSlot>) -> Seq<TimeSlot> {
    sorted_by(slots, slot_keys(slots), key_order::<(usize, u32)>())
}

/// An exact copy of a slot.
pub fn copy_slot(s: &TimeSlot) -> (r: TimeSlot)
    ensures
        r == *s,
{
    TimeSlot {
        id: s.id.clone(),
        day: s.day.clone(),
        start_time: s.start_time.clone(),
        end_time: s.end_time.clone(),
        kind: s.kind,
    }
}

/// The slots listed in the order `perm`.
pub fn slots_permuted(slots: &Vec<TimeSlot>, perm: &Vec<usize>) -> (r: Vec<TimeSlot>)
    requires
        forall|k: int| 0 <= k < perm@.len() ==> #[trigger] perm@[k] < slots@.len(),
    ensures
        r@ == crate::sorting::permuted(slots@, perm@),
{
    let mut r: Vec<TimeSlot> = Vec::new();
    let mut k: usize = 0;
    while k < perm.len()
        invariant
            k <= perm@.len(),
            forall|q: int| 0 <= q < perm@.len() ==> #[trigger] perm@[q] < slots@.len(),
            r@ == crate::sorting::permuted(slots@, perm@.take(k as int)),
        decreases perm.len() - k,
    {
        r.push(copy_slot(&slots[perm[k]]));
        k = k + 1;
        assert(r@ =~= crate::sorting::permuted(slots@, perm@.take(k as int)));
    }
    assert(perm@.take(perm@.len() as int) =~= perm@);
    r
}

impl TournamentConfig {
    /// Orders the time slots by weekday (Monday first, unknown names last),
    /// then by start; slots that compare equal keep their order.
    pub fn sort_time_slots(&mut self)
        requires
            old(self).slot_times_fit(),
        ensures
            final(self).time_slots@ == slots_in_order(old(self).time_slots@),
            final(self).competition_name == old(self).competition_name,
            final(self).divisions == old(self).divisions,
            final(self).teams == old(self).teams,
            final(self).fields == old(self).fields,
            final(self).volunteers == old(self).volunteers,
            final(self).strict_capabilities == old(self).strict_capabilities,
            final(self).fairness_mode == old(self).fairness_mode,
            final(self).day_configs == old(self).day_configs,
    {
        let mut keys: Vec<(usize, u32)> = Vec::new();
        let mut i: usize = 0;
        while i < self.time_slots.len()
            invariant
                i <= self.time_slots@.len(),
                self.slot_times_fit(),
                keys@ == slot_keys(self.time_slots@).take(i as int),
            decreases self.time_slots.len() - i,
        {
            let s = &self.time_slots[i];
            assert(s.times_fit());
            proof {
                crate::helpers::lemma_fits_strict(s.start_time@);
            }
            keys.push((day_order(s.day.as_str()), s.start_minutes()));
            i = i + 1;
            assert(keys@ =~= slot_keys(self.time_slots@).take(i as int));
        }
        assert(keys@ =~= slot_keys(self.time_slots@));
        let perm = stable_order(&keys);
        proof {
            lemma_stable_order_of(keys@, key_order::<(usize, u32)>(), perm@);
        }
        let sorted = slots_permuted(&self.time_slots, &perm);
        self.time_slots = sorted;
    }
}

// ---------------------------------------------------------------------------
// Days with generation settings
// ---------------------------------------------------------------------------

/// The days of the week, Monday first.
pub open spec fn week() -> Seq<Seq<char>> {
    seq!["Monday"@, "Tuesday"@, "Wednesday"@, "Thursday"@, "Friday"@, "Saturday"@, "Sunday"@]
}

/// The weekday with this place in the week (Monday is 0).
pub fn weekday(i: usize) -> (r: &'static str)
    requires
        i < 7,
    ensures
        r@ == week()[i as int],
{
    match i {
        0 => "Monday",
        1 => "Tuesday",
        2 => "Wednesday",
        3 => "Thursday",
        4 => "Friday",
        5 => "Saturday",
        _ => "Sunday",
    }
}

/// Some day already has generation settings.
pub open spec fn day_in_use(configs: Seq<DayGenConfig>, d: Seq<char>) -> bool {
    exists|j: int| 0 <= j < configs.len() && (#[trigger] configs[j]).day@ == d
}

/// Place in the week of the last configured day: Friday's when there is
/// none, or when its name is not a weekday's.
pub open spec fn last_day_index(configs: Seq<DayGenConfig>) -> nat {
    let last = if configs.len() == 0 { "Friday"@ } else { configs.last().day@ };
    if last == "Monday"@ {
        0
    } else if last == "Tuesday"@ {
        1
    } else if last == "Wednesday"@ {
        2
    } else if last == "Thursday"@ {
        3
    } else if last == "Saturday"@ {
        5
    } else if last == "Sunday"@ {
        6
    } else {
        4
    }
}

/// Looking `offset` days on from the week's place `from`, the first day
/// without settings; the day after `from` when every day has them.
pub open spec fn free_day_from(configs: Seq<DayGenConfig>, from: nat, offset: nat) -> Seq<char>
    decreases 8 - offset,
{
    if offset > 7 {
        week()[((from + 1) % 7) as int]
    } else if !day_in_use(configs, week()[((from + offset) % 7) as int]) {
        week()[((from + offset) % 7) as int]
    } else {
        free_day_from(configs, from, offset + 1)
    }
}

/// The day a new generation setting is for: the next weekday after the
/// last configured one that has none yet, wrapping through the week.
pub open spec fn next_free_day(configs: Seq<DayGenConfig>) -> Seq<char> {
    free_day_from(configs, last_day_index(configs), 1)
}

fn day_used(configs: &Vec<DayGenConfig>, d: &str) -> (r: bool)
    ensures
        r == day_in_use(configs@, d@),
{
    let mut j: usize = 0;
    while j < configs.len()
        invariant
            j <= configs@.len(),
            forall|k: int| 0 <= k < j ==> (#[trigger] configs@[k]).day@ != d@,
        decreases configs.len() - j,
    {
        if same_text(configs[j].day.as_str(), d) {
            return true;
        }
        j = j + 1;
    }
    false
}

fn last_day_place(configs: &Vec<DayGenConfig>) -> (r: usize)
    ensures
        r == last_day_index(configs@),
        r < 7,
{
    let n = configs.len();
    let last: &str = if n == 0 { "Friday" } else { configs[n - 1].day.as_str() };
    proof {
        if n == 0 {
            assert(last@ == "Friday"@);
        } else {
            assert(last@ == configs@.last().day@);
        }
    }
    if same_text(last, "Monday") {
        0
    } else if same_text(last, "Tuesday") {
        1
    } else if same_text(last, "Wednesday") {
        2
    } else if same_text(last, "Thursday") {
        3
    } else if same_text(last, "Saturday") {
        5
    } else if same_text(last, "Sunday") {
        6
    } else {
        4
    }
}

/// The day a new generation setting is for, as [`next_free_day`] describes.
pub fn next_day_for_settings(configs: &Vec<DayGenConfig>) -> (r: String)
    ensures
        r@ == next_free_day(configs@),
{
    let from = last_day_place(configs);
    let mut offset: usize = 1;
    while offset <= 7
        invariant
            1 <= offset <= 8,
            from < 7,
            from == last_day_index(configs@),
            next_free_day(configs@) == free_day_from(configs@, from as nat, offset as nat),
        decreases 8 - offset,
    {
        let d = weekday((from + offset) % 7);
        if !day_used(configs, d) {
            return string_from(d);
        }
        offset = offset + 1;
    }
    string_from(weekday((from + 1) % 7))
}

impl TournamentConfig {
    /// Adds generation settings for the next free weekday: open 09:00 to
    /// 17:00, lunch at 12:00 for an hour, interviews on.
    pub fn add_day_config(&mut self)
        ensures
            final(self).day_configs@.len() == old(self).day_configs@.len() + 1,
            final(self).day_configs@.drop_last() == old(self).day_configs@,
            final(self).day_configs@.last().day@ == next_free_day(old(self).day_configs@),
            final(self).day_configs@.last().start_time@ == "09:00"@,
            final(self).day_configs@.last().end_time@ == "17:00"@,
            final(self).day_configs@.last().lunch_enabled,
            final(self).day_configs@.last().lunch_start@ == "12:00"@,
            final(self).day_configs@.last().lunch_duration == 60,
            final(self).day_configs@.last().interviews_enabled,
            final(self).competition_name == old(self).competition_name,
            final(self).divisions == old(self).divisions,
            final(self).teams == old(self).teams,
            final(self).fields == old(self).fields,
            final(self).time_slots == old(self).time_slots,
            final(self).volunteers == old(self).volunteers,
            final(self).strict_capabilities == old(self).strict_capabilities,
            final(self).fairness_mode == old(self).fairness_mode,
    {
        let day = next_day_for_settings(&self.day_configs);
        self.day_configs.push(DayGenConfig {
            day,
            start_time: string_from("09:00"),
            end_time: string_from("17:00"),
            lunch_enabled: true,
            lunch_start: string_from("12:00"),
            lunch_duration: 60,
            interviews_enabled: true,
        });
        assert(self.day_configs@.drop_last() =~= old(self).day_configs@);
    }

    /// A configuration always has settings for at least one day: default
    /// ones are added when it has none.
    pub fn ensure_day_config(&mut self)
        ensures
            old(self).day_configs@.len() > 0 ==> final(self).day_configs == old(self).day_configs,
            old(self).day_configs@.len() == 0 ==> final(self).day_configs@.len() == 1 && final(self).day_configs@[0].day@ == "Saturday"@
                && final(self).day_configs@[0].start_time@ == "09:00"@ && final(self).day_configs@[0].end_time@ == "17:00"@
                && final(self).day_configs@[0].lunch_enabled && final(self).day_configs@[0].lunch_start@ == "12:00"@
                && final(self).day_configs@[0].lunch_duration == 60 && final(self).day_configs@[0].interviews_enabled,
            final(self).competition_name == old(self).competition_name,
            final(self).divisions == old(self).divisions,
            final(self).teams == old(self).teams,
            final(self).fields == old(self).fields,
            final(self).time_slots == old(self).time_slots,
            final(self).volunteers == old(self).volunteers,
            final(self).strict_capabilities == old(self).strict_capabilities,
            final(self).fairness_mode == old(self).fairness_mode,
    {
        if self.day_configs.len() == 0 {
            self.day_configs.push(DayGenConfig::default());
        }
    }
}

} // verus!
