//! Volunteer availability as time ranges: the spans of slots, the boundaries
//! a day offers, merging spans into covered ranges or working blocks, and
//! validating ranges typed into the availability editor.
use vstd::prelude::*;
use crate::helpers::{format_minutes_to_time, hhmm_fits, spec_format_minutes, spec_time_minutes};
use crate::lookup::contains_string;
use crate::model::{minutes_or_zero, parse_time_minutes, TimeSlot, Volunteer};
use crate::sorting::{key_order, lemma_stable_order_of, permuted, stable_order, stable_order_of, is_stable_order};

verus! {

broadcast use vstd::string::group_string_axioms;

// ---------------------------------------------------------------------------
// Slot spans
// ---------------------------------------------------------------------------

/// Start and end minute of a slot; a missing end reads as the start.
pub open spec fn span_of(s: TimeSlot) -> (nat, nat) {
    let st = minutes_or_zero(s.start_time@);
    let en = match spec_time_minutes(s.end_time@) {
        Some(v) => v,
        None => st,
    };
    (st, en)
}

/// Every slot's clock strings read within `u32`.
pub open spec fn slots_fit(slots: Seq<TimeSlot>) -> bool {
    forall|i: int| 0 <= i < slots.len() ==> (#[trigger] slots[i]).times_fit()
}

/// Start/end minutes of a slot.
pub fn slot_span(s: &TimeSlot) -> (r: (u32, u32))
    requires
        s.times_fit(),
    ensures
        r.0 == span_of(*s).0,
        r.1 == span_of(*s).1,
{
    let st = match parse_time_minutes(s.start_time.as_str()) {
        Some(v) => v,
        None => 0,
    };
    let en = match parse_time_minutes(s.end_time.as_str()) {
        Some(v) => v,
        None => st,
    };
    (st, en)
}

/// Format minutes-since-midnight as "HH:MM".
pub fn fmt_minutes(m: u32) -> (r: String)
    ensures
        r@ == spec_format_minutes(m as nat),
{
    format_minutes_to_time(m)
}

// ---------------------------------------------------------------------------
// Day boundaries
// ---------------------------------------------------------------------------

/// `m` is the start or end minute of one of the slots.
pub open spec fn is_boundary(slots: Seq<TimeSlot>, m: nat) -> bool {
    exists|i: int| 0 <= i < slots.len() && (span_of(#[trigger] slots[i]).0 == m || span_of(slots[i]).1 == m)
}

pub open spec fn strictly_increasing(s: Seq<u32>) -> bool {
    forall|a: int, b: int| 0 <= a < b < s.len() ==> s[a] < s[b]
}

/// Sorts distinct numbers into increasing order.
fn sort_distinct(v: &Vec<u32>) -> (r: Vec<u32>)
    requires
        forall|a: int, b: int| 0 <= a < b < v@.len() ==> v@[a] != v@[b],
    ensures
        strictly_increasing(r@),
        r@.len() == v@.len(),
        forall|x: u32| r@.contains(x) <==> v@.contains(x),
{
    let perm = stable_order(v);
    let mut out: Vec<u32> = Vec::new();
    let mut k: usize = 0;
    while k < perm.len()
        invariant
            k <= perm@.len(),
            is_stable_order(v@, perm@),
            out@ == permuted(v@, perm@).take(k as int),
        decreases perm.len() - k,
    {
        out.push(v[perm[k]]);
        assert(permuted(v@, perm@).take(k + 1) == permuted(v@, perm@).take(k as int).push(v@[perm@[k as int] as int]));
        k = k + 1;
    }
    proof {
        let p = perm@;
        assert(out@ =~= permuted(v@, p));
        assert forall|a: int, b: int| 0 <= a < b < out@.len() implies out@[a] < out@[b] by {
            assert(key_order::<u32>()(v@[p[a] as int], v@[p[b] as int]));
            assert(p[a] != p[b]);
            if p[a] < p[b] {
                assert(v@[p[a] as int] != v@[p[b] as int]);
            } else {
                assert(v@[p[b] as int] != v@[p[a] as int]);
            }
        }
        assert forall|x: u32| out@.contains(x) <==> v@.contains(x) by {
            if out@.contains(x) {
                let a = choose|a: int| 0 <= a < out@.len() && out@[a] == x;
                assert(v@[p[a] as int] == x);
            }
            if v@.contains(x) {
                let j = choose|j: int| 0 <= j < v@.len() && v@[j] == x;
                crate::sorting::lemma_permutation_onto(p, v@.len(), j as nat);
                let a = choose|a: int| 0 <= a < p.len() && p[a] == j;
                assert(out@[a] == x);
            }
        }
    }
    out
}

/// Distinct, sorted minute boundaries (every start and end time) across a
/// day's slots: the snap points offered in the range pickers.
pub fn day_boundaries(slots: &Vec<TimeSlot>) -> (r: Vec<u32>)
    requires
        slots_fit(slots@),
    ensures
        strictly_increasing(r@),
        forall|m: u32| r@.contains(m) <==> is_boundary(slots@, m as nat),
{
    let mut set: Vec<u32> = Vec::new();
    let mut i: usize = 0;
    while i < slots.len()
        invariant
            i <= slots@.len(),
            slots_fit(slots@),
            forall|a: int, b: int| 0 <= a < b < set@.len() ==> set@[a] != set@[b],
            forall|m: u32| set@.contains(m) <==> is_boundary(slots@.take(i as int), m as nat),
        decreases slots.len() - i,
    {
        let (st, en) = slot_span(&slots[i]);
        let ghost before = set@;
        if !contains_u32(&set, st) {
            set.push(st);
            assert(set@[set@.len() - 1] == st);
        }
        assert(set@.contains(st));
        let ghost mid = set@;
        if !contains_u32(&set, en) {
            set.push(en);
            assert(set@[set@.len() - 1] == en);
            assert forall|m: u32| mid.contains(m) implies set@.contains(m) by {
                let k = choose|k: int| 0 <= k < mid.len() && mid[k] == m;
                assert(set@[k] == m);
            }
        }
        assert(set@.contains(en));
        assert(set@.contains(st));
        proof {
            let t = slots@.take(i + 1);
            assert forall|m: u32| set@.contains(m) <==> is_boundary(t, m as nat) by {
                if set@.contains(m) {
                    if before.contains(m) {
                        let j = choose|j: int| 0 <= j < i && (span_of(#[trigger] slots@.take(i as int)[j]).0 == m || span_of(slots@.take(i as int)[j]).1 == m);
                        assert(t[j] == slots@.take(i as int)[j]);
                    } else {
                        assert(t[i as int] == slots@[i as int]);
                    }
                }
                if is_boundary(t, m as nat) {
                    let j = choose|j: int| 0 <= j < t.len() && (span_of(#[trigger] t[j]).0 == m || span_of(t[j]).1 == m);
                    if j < i {
                        assert(t[j] == slots@.take(i as int)[j]);
                        assert(is_boundary(slots@.take(i as int), m as nat));
                        assert(before.contains(m));
                        let k = choose|k: int| 0 <= k < before.len() && before[k] == m;
                        assert(set@[k] == m);
                    } else {
                        assert(t[j] == slots@[i as int]);
                        if m == st {
                            assert(set@.contains(st));
                        } else {
                            assert(set@.contains(en));
                        }
                    }
                }
            }
        }
        i = i + 1;
    }
    assert(slots@.take(slots@.len() as int) =~= slots@);
    sort_distinct(&set)
}

/// Whether `v` holds `x`.
fn contains_u32(v: &Vec<u32>, x: u32) -> (r: bool)
    ensures
        r == v@.contains(x),
{
    let mut i: usize = 0;
    while i < v.len()
        invariant
            i <= v@.len(),
            forall|k: int| 0 <= k < i ==> v@[k] != x,
        decreases v.len() - i,
    {
        if v[i] == x {
            assert(v@[i as int] == x);
            return true;
        }
        i = i + 1;
    }
    false
}

// ---------------------------------------------------------------------------
// Gaps and covered ranges
// ---------------------------------------------------------------------------

/// Some slot's span intersects the open interval `(g0, g1)`.
pub open spec fn spec_gap_has_slot(slots: Seq<TimeSlot>, g0: nat, g1: nat) -> bool {
    exists|i: int| 0 <= i < slots.len() && span_of(#[trigger] slots[i]).0 < g1 && span_of(slots[i]).1 > g0
}

/// True if any slot's span intersects the open interval `(g0, g1)`.
pub fn gap_has_slot(slots: &Vec<TimeSlot>, g0: u32, g1: u32) -> (r: bool)
    requires
        slots_fit(slots@),
    ensures
        r == spec_gap_has_slot(slots@, g0 as nat, g1 as nat),
{
    let mut i: usize = 0;
    while i < slots.len()
        invariant
            i <= slots@.len(),
            slots_fit(slots@),
            forall|k: int| 0 <= k < i ==> !(span_of(#[trigger] slots@[k]).0 < g1 && span_of(slots@[k]).1 > g0),
        decreases slots.len() - i,
    {
        let (st, en) = slot_span(&slots[i]);
        if st < g1 && en > g0 {
            return true;
        }
        i = i + 1;
    }
    false
}

/// Spans merged left to right: a span joins the last range when it starts
/// inside it or when no slot at all lies in the gap before it.
pub open spec fn merge_covered(spans: Seq<(nat, nat)>, slots: Seq<TimeSlot>) -> Seq<(nat, nat)>
    decreases spans.len(),
{
    if spans.len() == 0 {
        Seq::empty()
    } else {
        let prev = merge_covered(spans.drop_last(), slots);
        let (s, e) = spans.last();
        if prev.len() > 0 && (s <= prev.last().1 || !spec_gap_has_slot(slots, prev.last().1, s)) {
            let l = prev.last();
            prev.update(prev.len() - 1, (l.0, if l.1 >= e { l.1 } else { e }))
        } else {
            prev.push((s, e))
        }
    }
}

/// The volunteer is available for this slot.
pub open spec fn available_for(vol: Volunteer, s: TimeSlot) -> bool {
    exists|i: int| 0 <= i < vol.availabilities@.len() && (#[trigger] vol.availabilities@[i])@ == s.id@
}

/// Spans of the slots the volunteer is available for, in slot order.
pub open spec fn available_spans(vol: Volunteer, slots: Seq<TimeSlot>) -> Seq<(nat, nat)>
    decreases slots.len(),
{
    if slots.len() == 0 {
        Seq::empty()
    } else if available_for(vol, slots.last()) {
        available_spans(vol, slots.drop_last()).push(span_of(slots.last()))
    } else {
        available_spans(vol, slots.drop_last())
    }
}

pub open spec fn start_order() -> spec_fn(nat, nat) -> bool {
    |a: nat, b: nat| a <= b
}

pub open spec fn starts_of(spans: Seq<(nat, nat)>) -> Seq<nat> {
    Seq::new(spans.len(), |i: int| spans[i].0)
}

/// The volunteer's available slots as contiguous covered ranges, sorted by
/// start.
pub open spec fn spec_covered_ranges(vol: Volunteer, slots: Seq<TimeSlot>) -> Seq<(nat, nat)> {
    let spans = available_spans(vol, slots);
    merge_covered(crate::sorting::sorted_by(spans, starts_of(spans), start_order()), slots)
}

pub open spec fn pairs_view(v: Seq<(u32, u32)>) -> Seq<(nat, nat)> {
    Seq::new(v.len(), |i: int| (v[i].0 as nat, v[i].1 as nat))
}

/// Merge the intervals of a volunteer's available slots into contiguous covered
/// ranges, sorted by start. Adjacent ranges are bridged across gaps that hold
/// no slot at all; a gap holding slots the volunteer isn't available for stays
/// a real break.
pub fn covered_ranges(vol: &Volunteer, slots: &Vec<TimeSlot>) -> (r: Vec<(u32, u32)>)
    requires
        slots_fit(slots@),
    ensures
        pairs_view(r@) == spec_covered_ranges(*vol, slots@),
{
    let mut spans: Vec<(u32, u32)> = Vec::new();
    let mut i: usize = 0;
    while i < slots.len()
        invariant
            i <= slots@.len(),
            slots_fit(slots@),
            pairs_view(spans@) == available_spans(*vol, slots@.take(i as int)),
        decreases slots.len() - i,
    {
        let ghost t = slots@.take(i + 1);
        assert(t.drop_last() == slots@.take(i as int));
        assert(t.last() == slots@[i as int]);
        if contains_string(&vol.availabilities, slots[i].id.as_str()) {
            let sp = slot_span(&slots[i]);
            let ghost before = pairs_view(spans@);
            spans.push(sp);
            assert(pairs_view(spans@) =~= before.push(span_of(slots@[i as int])));
        }
        i = i + 1;
    }
    assert(slots@.take(slots@.len() as int) =~= slots@);
    let ghost sv = pairs_view(spans@);
    let mut keys: Vec<u32> = Vec::new();
    let mut k: usize = 0;
    while k < spans.len()
        invariant
            k <= spans@.len(),
            keys@.len() == k,
            forall|j: int| 0 <= j < k ==> #[trigger] keys@[j] == spans@[j].0,
        decreases spans.len() - k,
    {
        keys.push(spans[k].0);
        k = k + 1;
    }
    let perm = stable_order(&keys);
    proof {
        crate::sorting::lemma_stable_order_transfer(keys@, starts_of(sv), start_order(), perm@);
        lemma_stable_order_of(starts_of(sv), start_order(), perm@);
    }
    let ghost sorted = permuted(sv, perm@);
    let mut merged: Vec<(u32, u32)> = Vec::new();
    let mut j: usize = 0;
    while j < perm.len()
        invariant
            j <= perm@.len(),
            perm@.len() == spans@.len(),
            slots_fit(slots@),
            forall|a: int| 0 <= a < perm@.len() ==> #[trigger] perm@[a] < spans@.len(),
            sv == pairs_view(spans@),
            sorted == permuted(sv, perm@),
            pairs_view(merged@) == merge_covered(sorted.take(j as int), slots@),
        decreases perm.len() - j,
    {
        let (s, e) = spans[perm[j]];
        let ghost prev = pairs_view(merged@);
        proof {
            assert(sorted.take(j + 1).drop_last() == sorted.take(j as int));
            assert(sorted.take(j + 1).last() == (s as nat, e as nat));
        }
        let n = merged.len();
        let join = if n > 0 {
            let last_end = merged[n - 1].1;
            s <= last_end || !gap_has_slot(slots, last_end, s)
        } else {
            false
        };
        if join {
            let (ls, le) = merged[n - 1];
            let ne = if le >= e { le } else { e };
            merged.set(n - 1, (ls, ne));
            assert(pairs_view(merged@) =~= prev.update(prev.len() - 1, (ls as nat, ne as nat)));
        } else {
            merged.push((s, e));
            assert(pairs_view(merged@) =~= prev.push((s as nat, e as nat)));
        }
        j = j + 1;
    }
    assert(sorted.take(perm@.len() as int) =~= sorted);
    merged
}

// ---------------------------------------------------------------------------
// Slots inside ranges
// ---------------------------------------------------------------------------

/// The slot lies entirely within one of the ranges.
pub open spec fn within_some_range(s: TimeSlot, ranges: Seq<(u32, u32)>) -> bool {
    exists|k: int| 0 <= k < ranges.len() && #[trigger] ranges[k].0 <= span_of(s).0 && span_of(s).1 <= ranges[k].1
}

/// Ids of the slots lying entirely within some range, in slot order.
pub open spec fn ids_within(slots: Seq<TimeSlot>, ranges: Seq<(u32, u32)>) -> Seq<Seq<char>>
    decreases slots.len(),
{
    if slots.len() == 0 {
        Seq::empty()
    } else if within_some_range(slots.last(), ranges) {
        ids_within(slots.drop_last(), ranges).push(slots.last().id@)
    } else {
        ids_within(slots.drop_last(), ranges)
    }
}

/// IDs of the day's slots that fall fully within any of the given ranges. A
/// volunteer must be present for the whole slot, so a slot only counts when it
/// is entirely contained.
pub fn slots_in_ranges(slots: &Vec<TimeSlot>, ranges: &Vec<(u32, u32)>) -> (r: Vec<String>)
    requires
        slots_fit(slots@),
    ensures
        r@.len() == ids_within(slots@, ranges@).len(),
        forall|i: int| 0 <= i < r@.len() ==> (#[trigger] r@[i])@ == ids_within(slots@, ranges@)[i],
{
    let mut out: Vec<String> = Vec::new();
    let mut i: usize = 0;
    while i < slots.len()
        invariant
            i <= slots@.len(),
            slots_fit(slots@),
            out@.len() == ids_within(slots@.take(i as int), ranges@).len(),
            forall|k: int| 0 <= k < out@.len() ==> (#[trigger] out@[k])@ == ids_within(slots@.take(i as int), ranges@)[k],
        decreases slots.len() - i,
    {
        let ghost t = slots@.take(i + 1);
        assert(t.drop_last() == slots@.take(i as int));
        assert(t.last() == slots@[i as int]);
        let (st, en) = slot_span(&slots[i]);
        let mut inside = false;
        let mut k: usize = 0;
        while k < ranges.len()
            invariant
                k <= ranges@.len(),
                st == span_of(slots@[i as int]).0,
                en == span_of(slots@[i as int]).1,
                inside == exists|q: int| 0 <= q < k && #[trigger] ranges@[q].0 <= st && en <= ranges@[q].1,
            decreases ranges.len() - k,
        {
            if ranges[k].0 <= st && en <= ranges[k].1 {
                inside = true;
            }
            k = k + 1;
        }
        if inside {
            out.push(slots[i].id.clone());
        }
        i = i + 1;
    }
    assert(slots@.take(slots@.len() as int) =~= slots@);
    out
}

// ---------------------------------------------------------------------------
// Working blocks
// ---------------------------------------------------------------------------

/// Spans merged left to right, a span joining the last block when it starts
/// at most `bridge` minutes after that block ends.
pub open spec fn merge_blocks(spans: Seq<(u32, u32)>, bridge: u32) -> Seq<(nat, nat)>
    decreases spans.len(),
{
    if spans.len() == 0 {
        Seq::empty()
    } else {
        let prev = merge_blocks(spans.drop_last(), bridge);
        let (s, e) = spans.last();
        if prev.len() > 0 && s <= prev.last().1 + bridge {
            let l = prev.last();
            prev.update(prev.len() - 1, (l.0, if l.1 >= e { l.1 } else { e as nat }))
        } else {
            prev.push((s as nat, e as nat))
        }
    }
}

/// No span ends so late that adding the bridge overflows.
pub open spec fn bridge_fits(spans: Seq<(u32, u32)>, bridge: u32) -> bool {
    forall|i: int| 0 <= i < spans.len() ==> (#[trigger] spans[i]).1 + bridge <= u32::MAX
}

proof fn lemma_merge_blocks_ends(spans: Seq<(u32, u32)>, bridge: u32)
    ensures
        forall|k: int| 0 <= k < merge_blocks(spans, bridge).len() ==> exists|i: int|
            0 <= i < spans.len() && #[trigger] merge_blocks(spans, bridge)[k].1 == spans[i].1,
    decreases spans.len(),
{
    if spans.len() > 0 {
        let d = spans.drop_last();
        lemma_merge_blocks_ends(d, bridge);
        let prev = merge_blocks(d, bridge);
        let cur = merge_blocks(spans, bridge);
        assert forall|k: int| 0 <= k < cur.len() implies exists|i: int|
            0 <= i < spans.len() && #[trigger] cur[k].1 == spans[i].1 by {
            if k < prev.len() && (k < prev.len() - 1 || cur[k] == prev[k]) {
                assert(cur[k] == prev[k]);
                let i = choose|i: int| 0 <= i < d.len() && prev[k].1 == d[i].1;
                assert(spans[i] == d[i]);
            } else {
                let (s, e) = spans.last();
                if prev.len() > 0 && s <= prev.last().1 + bridge && prev.last().1 >= e {
                    let i = choose|i: int| 0 <= i < d.len() && prev[prev.len() - 1].1 == d[i].1;
                    assert(spans[i] == d[i]);
                } else {
                    assert(cur[k].1 == spans[spans.len() - 1].1);
                }
            }
        }
    }
}

/// Merges sorted assigned spans into working blocks, bridging gaps of at most
/// `bridge` minutes (a changeover between back-to-back shifts) so consecutive
/// shifts render as one block while real idle gaps remain visible.
pub fn merge_work_blocks(spans: &Vec<(u32, u32)>, bridge: u32) -> (r: Vec<(u32, u32)>)
    requires
        bridge_fits(spans@, bridge),
    ensures
        pairs_view(r@) == merge_blocks(spans@, bridge),
{
    let mut out: Vec<(u32, u32)> = Vec::new();
    let mut i: usize = 0;
    while i < spans.len()
        invariant
            i <= spans@.len(),
            bridge_fits(spans@, bridge),
            pairs_view(out@) == merge_blocks(spans@.take(i as int), bridge),
        decreases spans.len() - i,
    {
        let (s, e) = spans[i];
        let ghost t = spans@.take(i + 1);
        assert(t.drop_last() == spans@.take(i as int));
        assert(t.last() == spans@[i as int]);
        let ghost prev = pairs_view(out@);
        let n = out.len();
        proof {
            lemma_merge_blocks_ends(spans@.take(i as int), bridge);
            if n > 0 {
                let j = choose|j: int| 0 <= j < i && #[trigger] merge_blocks(spans@.take(i as int), bridge)[n - 1].1 == spans@.take(i as int)[j].1;
                assert(spans@.take(i as int)[j] == spans@[j]);
            }
        }
        if n > 0 && s <= out[n - 1].1 + bridge {
            let (ls, le) = out[n - 1];
            let ne = if le >= e { le } else { e };
            out.set(n - 1, (ls, ne));
            assert(pairs_view(out@) =~= prev.update(prev.len() - 1, (ls as nat, ne as nat)));
        } else {
            out.push((s, e));
            assert(pairs_view(out@) =~= prev.push((s as nat, e as nat)));
        }
        i = i + 1;
    }
    assert(spans@.take(spans@.len() as int) =~= spans@);
    out
}

/// For spans sorted by start, each with its end at or after its start, the
/// working blocks come out in order, each well formed, and separated by
/// idle gaps longer than the bridge.
pub proof fn lemma_work_blocks_separated(spans: Seq<(u32, u32)>, bridge: u32)
    requires
        forall|a: int, b: int| 0 <= a < b < spans.len() ==> spans[a].0 <= spans[b].0,
        forall|i: int| 0 <= i < spans.len() ==> (#[trigger] spans[i]).0 <= spans[i].1,
    ensures
        forall|k: int| 0 <= k < merge_blocks(spans, bridge).len() ==> (#[trigger] merge_blocks(spans, bridge)[k]).0 <= merge_blocks(spans, bridge)[k].1,
        forall|k: int| 0 <= k < merge_blocks(spans, bridge).len() - 1 ==> #[trigger] merge_blocks(spans, bridge)[k].1 + bridge < merge_blocks(spans, bridge)[k + 1].0,
        spans.len() > 0 ==> merge_blocks(spans, bridge).len() > 0 && merge_blocks(spans, bridge).last().0 <= spans.last().0,
    decreases spans.len(),
{
    if spans.len() > 0 {
        let d = spans.drop_last();
        assert forall|a: int, b: int| 0 <= a < b < d.len() implies d[a].0 <= d[b].0 by {
            assert(d[a] == spans[a]);
            assert(d[b] == spans[b]);
        }
        assert forall|i: int| 0 <= i < d.len() implies (#[trigger] d[i]).0 <= d[i].1 by {
            assert(d[i] == spans[i]);
        }
        lemma_work_blocks_separated(d, bridge);
        let prev = merge_blocks(d, bridge);
        let cur = merge_blocks(spans, bridge);
        let (s, e) = spans.last();
        assert(spans[spans.len() - 1].0 <= spans[spans.len() - 1].1);
        if d.len() > 0 {
            assert(d.last() == spans[spans.len() - 2]);
            assert(spans[spans.len() - 2].0 <= spans[spans.len() - 1].0);
        }
        if prev.len() > 0 && s <= prev.last().1 + bridge {
            assert forall|k: int| 0 <= k < cur.len() - 1 implies #[trigger] cur[k].1 + bridge < cur[k + 1].0 by {
                assert(cur[k] == prev[k]);
                if k + 1 < cur.len() - 1 {
                    assert(cur[k + 1] == prev[k + 1]);
                } else {
                    assert(cur[k + 1].0 == prev[k + 1].0);
                }
            }
            assert forall|k: int| 0 <= k < cur.len() implies (#[trigger] cur[k]).0 <= cur[k].1 by {
                if k < cur.len() - 1 {
                    assert(cur[k] == prev[k]);
                }
            }
        } else {
            assert forall|k: int| 0 <= k < cur.len() - 1 implies #[trigger] cur[k].1 + bridge < cur[k + 1].0 by {
                assert(cur[k] == prev[k]);
                if k + 1 < cur.len() - 1 {
                    assert(cur[k + 1] == prev[k + 1]);
                }
            }
            assert forall|k: int| 0 <= k < cur.len() implies (#[trigger] cur[k]).0 <= cur[k].1 by {
                if k < cur.len() - 1 {
                    assert(cur[k] == prev[k]);
                }
            }
        }
    }
}

// ---------------------------------------------------------------------------
// Ranges typed into the availability editor
// ---------------------------------------------------------------------------

/// A range's start and end minutes, when both read as clock times.
pub open spec fn parsed_range(r: (String, String)) -> Option<(nat, nat)> {
    match (spec_time_minutes(r.0@), spec_time_minutes(r.1@)) {
        (Some(s), Some(e)) => Some((s, e)),
        _ => None,
    }
}

/// Every range's clock strings read within `u32`.
pub open spec fn ranges_fit(ranges: Seq<(String, String)>) -> bool {
    forall|i: int| 0 <= i < ranges.len() ==> hhmm_fits((#[trigger] ranges[i]).0@) && hhmm_fits(ranges[i].1@)
}

/// Where a range sorts: by its start, unreadable ranges last.
pub open spec fn start_key(r: (String, String)) -> nat {
    match parsed_range(r) {
        Some((s, _)) => s,
        None => u32::MAX as nat,
    }
}

pub open spec fn start_keys(ranges: Seq<(String, String)>) -> Seq<nat> {
    Seq::new(ranges.len(), |i: int| start_key(ranges[i]))
}

/// The ranges' positions ordered by start (stable).
pub open spec fn range_order(ranges: Seq<(String, String)>) -> Seq<usize> {
    stable_order_of(start_keys(ranges), start_order())
}

pub open spec fn end_of(r: Option<(nat, nat)>) -> Option<nat> {
    match r {
        Some((_, e)) => Some(e),
        None => None,
    }
}

pub open spec fn begin_of(r: Option<(nat, nat)>) -> Option<nat> {
    match r {
        Some((s, _)) => Some(s),
        None => None,
    }
}

pub open spec fn opt_view(o: Option<u32>) -> Option<nat> {
    match o {
        Some(v) => Some(v as nat),
        None => None,
    }
}

/// The range's start and end, read with the strict clock reader.
fn parse_range(r: &(String, String)) -> (out: Option<(u32, u32)>)
    requires
        hhmm_fits(r.0@),
        hhmm_fits(r.1@),
    ensures
        match parsed_range(*r) {
            Some((s, e)) => out == Some((s as u32, e as u32)) && s <= u32::MAX && e <= u32::MAX,
            None => out is None,
        },
{
    proof {
        crate::helpers::lemma_fits_strict(r.0@);
        crate::helpers::lemma_fits_strict(r.1@);
    }
    let s = match parse_time_minutes(r.0.as_str()) {
        Some(v) => v,
        None => {
            return None;
        },
    };
    let e = match parse_time_minutes(r.1.as_str()) {
        Some(v) => v,
        None => {
            return None;
        },
    };
    Some((s, e))
}

/// Reads every range, and computes the stable order by start.
fn parse_and_order(ranges: &Vec<(String, String)>) -> (out: (Vec<Option<(u32, u32)>>, Vec<usize>))
    requires
        ranges_fit(ranges@),
    ensures
        out.0@.len() == ranges@.len(),
        forall|i: int| 0 <= i < ranges@.len() ==> opt_pair(#[trigger] out.0@[i]) == parsed_range(ranges@[i]),
        out.1@ == range_order(ranges@),
        crate::sorting::is_stable_order_by(start_keys(ranges@), start_order(), out.1@),
{
    let mut parsed: Vec<Option<(u32, u32)>> = Vec::new();
    let mut keys: Vec<u32> = Vec::new();
    let mut i: usize = 0;
    while i < ranges.len()
        invariant
            i <= ranges@.len(),
            ranges_fit(ranges@),
            parsed@.len() == i,
            keys@.len() == i,
            forall|k: int| 0 <= k < i ==> opt_pair(#[trigger] parsed@[k]) == parsed_range(ranges@[k]),
            forall|k: int| 0 <= k < i ==> #[trigger] keys@[k] == start_key(ranges@[k]),
        decreases ranges.len() - i,
    {
        assert(hhmm_fits(ranges@[i as int].0@));
        let p = parse_range(&ranges[i]);
        let key = match p {
            Some((s, _)) => s,
            None => 0xffff_ffff,
        };
        parsed.push(p);
        keys.push(key);
        i = i + 1;
    }
    let perm = stable_order(&keys);
    proof {
        crate::sorting::lemma_stable_order_transfer(keys@, start_keys(ranges@), start_order(), perm@);
        lemma_stable_order_of(start_keys(ranges@), start_order(), perm@);
    }
    (parsed, perm)
}

pub open spec fn bounds_view(b: (Option<u32>, Option<u32>)) -> (Option<nat>, Option<nat>) {
    (opt_view(b.0), opt_view(b.1))
}

/// The end of the range just before position `pos` in `order`, and the start
/// of the one just after it.
pub open spec fn neighbour_bounds(ranges: Seq<(String, String)>, order: Seq<usize>, pos: int) -> (Option<nat>, Option<nat>) {
    (
        if pos > 0 {
            end_of(parsed_range(ranges[order[pos - 1] as int]))
        } else {
            None
        },
        if pos + 1 < ranges.len() {
            begin_of(parsed_range(ranges[order[pos + 1] as int]))
        } else {
            None
        },
    )
}

pub open spec fn opt_pair(o: Option<(u32, u32)>) -> Option<(nat, nat)> {
    match o {
        Some((s, e)) => Some((s as nat, e as nat)),
        None => None,
    }
}

/// For each range (by its index in the list), the end time of the range
/// immediately before it and the start time of the one immediately after it,
/// ordered by start time. These bound the times the range's pickers may offer
/// so two ranges can never be made to overlap. Unparseable ranges contribute no
/// bound (`None`).
pub fn range_neighbour_bounds(ranges: &Vec<(String, String)>) -> (r: Vec<(Option<u32>, Option<u32>)>)
    requires
        ranges_fit(ranges@),
    ensures
        r@.len() == ranges@.len(),
        forall|pos: int|
            0 <= pos < ranges@.len() ==> bounds_view(#[trigger] r@[range_order(ranges@)[pos] as int])
                == neighbour_bounds(ranges@, range_order(ranges@), pos),
{
    let (parsed, order) = parse_and_order(ranges);
    let n = ranges.len();
    let mut bounds: Vec<(Option<u32>, Option<u32>)> = Vec::new();
    let mut i: usize = 0;
    while i < n
        invariant
            i <= n,
            n == ranges@.len(),
            bounds@.len() == i,
        decreases n - i,
    {
        bounds.push((None, None));
        i = i + 1;
    }
    let mut pos: usize = 0;
    while pos < n
        invariant
            pos <= n,
            n == ranges@.len(),
            bounds@.len() == n,
            parsed@.len() == n,
            forall|k: int| 0 <= k < n ==> opt_pair(#[trigger] parsed@[k]) == parsed_range(ranges@[k]),
            order@ == range_order(ranges@),
            crate::sorting::is_stable_order_by(start_keys(ranges@), start_order(), order@),
            forall|q: int|
                0 <= q < pos ==> bounds_view(#[trigger] bounds@[order@[q] as int]) == neighbour_bounds(
                    ranges@,
                    order@,
                    q,
                ),
        decreases n - pos,
    {
        let prev_end: Option<u32> = if pos > 0 {
            match parsed[order[pos - 1]] {
                Some((_, e)) => Some(e),
                None => None,
            }
        } else {
            None
        };
        let next_start: Option<u32> = if pos + 1 < n {
            match parsed[order[pos + 1]] {
                Some((s, _)) => Some(s),
                None => None,
            }
        } else {
            None
        };
        let ghost before = bounds@;
        bounds.set(order[pos], (prev_end, next_start));
        proof {
            assert forall|q: int| 0 <= q < pos implies order@[q] != order@[pos as int] by {
                assert(order@[q] != order@[pos as int]);
            }
        }
        pos = pos + 1;
    }
    bounds
}

/// The range is readable and ends after it starts.
pub open spec fn range_ok(r: (String, String)) -> bool {
    match parsed_range(r) {
        Some((s, e)) => e > s,
        None => false,
    }
}

/// Positions of the well-formed ranges, in list order.
pub open spec fn ok_positions(ranges: Seq<(String, String)>) -> Seq<usize>
    decreases ranges.len(),
{
    if ranges.len() == 0 {
        Seq::empty()
    } else if range_ok(ranges.last()) {
        ok_positions(ranges.drop_last()).push((ranges.len() - 1) as usize)
    } else {
        ok_positions(ranges.drop_last())
    }
}

pub open spec fn ok_start_keys(ranges: Seq<(String, String)>) -> Seq<nat> {
    let idx = ok_positions(ranges);
    Seq::new(idx.len(), |k: int| start_key(ranges[idx[k] as int]))
}

/// The well-formed ranges' positions, ordered by start (stable).
pub open spec fn ok_order(ranges: Seq<(String, String)>) -> Seq<usize> {
    let idx = ok_positions(ranges);
    let p = stable_order_of(ok_start_keys(ranges), start_order());
    Seq::new(p.len(), |k: int| idx[p[k] as int])
}

pub open spec fn start_at(ranges: Seq<(String, String)>, i: int) -> nat {
    parsed_range(ranges[i]).unwrap().0
}

pub open spec fn end_at(ranges: Seq<(String, String)>, i: int) -> nat {
    parsed_range(ranges[i]).unwrap().1
}

/// In start order, the range at position `k + 1` starts before the one at
/// `k` ends.
pub open spec fn overlap_after(ranges: Seq<(String, String)>, k: int) -> bool {
    let o = ok_order(ranges);
    0 <= k && k + 1 < o.len() && start_at(ranges, o[k + 1] as int) < end_at(ranges, o[k] as int)
}

/// Range `i` is flagged: it is malformed, or it shares time with another
/// well-formed range.
pub open spec fn range_flagged(ranges: Seq<(String, String)>, i: int) -> bool {
    ||| !range_ok(ranges[i])
    ||| exists|j: int| 0 <= j < ranges.len() && j != i && range_ok(ranges[j]) && #[trigger] ranges_overlap(ranges, i, j)
}

/// The message shown for a list of ranges: overlaps are reported over
/// malformed ranges; an empty or clean list has none.
pub open spec fn range_error(ranges: Seq<(String, String)>) -> Option<Seq<char>> {
    if exists|k: int| #[trigger] overlap_after(ranges, k) {
        Some("Ranges must not overlap."@)
    } else if exists|i: int| 0 <= i < ranges.len() && !range_ok(#[trigger] ranges[i]) {
        Some("Each range must end after it starts."@)
    } else {
        None
    }
}

#[verifier::spinoff_prover]
#[verifier::rlimit(50)]
proof fn lemma_ok_positions(ranges: Seq<(String, String)>)
    requires
        ranges.len() <= usize::MAX,
    ensures
        ok_positions(ranges).len() <= ranges.len(),
        forall|k: int| 0 <= k < ok_positions(ranges).len() ==> #[trigger] ok_positions(ranges)[k] < ranges.len()
            && range_ok(ranges[ok_positions(ranges)[k] as int]),
        forall|a: int, b: int| 0 <= a < b < ok_positions(ranges).len() ==> ok_positions(ranges)[a] < ok_positions(ranges)[b],
        forall|i: int| 0 <= i < ranges.len() && range_ok(#[trigger] ranges[i]) ==> exists|k: int|
            0 <= k < ok_positions(ranges).len() && ok_positions(ranges)[k] == i,
    decreases ranges.len(),
{
    if ranges.len() > 0 {
        let d = ranges.drop_last();
        lemma_ok_positions(d);
        let prev = ok_positions(d);
        let cur = ok_positions(ranges);
        assert forall|k: int| 0 <= k < prev.len() implies ranges[prev[k] as int] == d[prev[k] as int] by {}
        if range_ok(ranges.last()) {
            assert(cur == prev.push((ranges.len() - 1) as usize));
            assert forall|i: int| 0 <= i < ranges.len() && range_ok(#[trigger] ranges[i]) implies exists|k: int|
                0 <= k < cur.len() && cur[k] == i by {
                if i < ranges.len() - 1 {
                    assert(d[i] == ranges[i]);
                    let k = choose|k: int| 0 <= k < prev.len() && prev[k] == i;
                    assert(cur[k] == i);
                } else {
                    assert(cur[prev.len() as int] == i);
                }
            }
        } else {
            assert forall|i: int| 0 <= i < ranges.len() && range_ok(#[trigger] ranges[i]) implies exists|k: int|
                0 <= k < cur.len() && cur[k] == i by {
                assert(i < ranges.len() - 1);
                assert(d[i] == ranges[i]);
            }
        }
    }
}

/// Each range read as minutes, and the message for the list.
#[verifier::spinoff_prover]
#[verifier::rlimit(80)]
fn read_ranges(ranges: &Vec<(String, String)>) -> (r: (Vec<Option<(u32, u32)>>, Option<String>))
    requires
        ranges_fit(ranges@),
    ensures
        r.0@.len() == ranges@.len(),
        forall|i: int| 0 <= i < ranges@.len() ==> opt_pair(#[trigger] r.0@[i]) == parsed_range(ranges@[i]),
        match range_error(ranges@) {
            Some(m) => r.1 matches Some(t) && t@ == m,
            None => r.1 is None,
        },
{
    let n = ranges.len();
    let ghost rs = ranges@;
    let mut parsed: Vec<Option<(u32, u32)>> = Vec::new();
    let mut flags: Vec<bool> = Vec::new();
    let mut error: Option<String> = None;
    let mut i: usize = 0;
    while i < n
        invariant
            i <= n,
            n == rs.len(),
            rs == ranges@,
            ranges_fit(rs),
            parsed@.len() == i,
            flags@.len() == i,
            forall|k: int| 0 <= k < i ==> opt_pair(#[trigger] parsed@[k]) == parsed_range(rs[k]),
            forall|k: int| 0 <= k < i ==> #[trigger] flags@[k] == !range_ok(rs[k]),
            match error {
                Some(t) => t@ == "Each range must end after it starts."@ && exists|k: int| 0 <= k < i && !range_ok(#[trigger] rs[k]),
                None => forall|k: int| 0 <= k < i ==> range_ok(#[trigger] rs[k]),
            },
        decreases n - i,
    {
        assert(hhmm_fits(rs[i as int].0@));
        let p = parse_range(&ranges[i]);
        let ok = match p {
            Some((s, e)) => e > s,
            None => false,
        };
        parsed.push(p);
        flags.push(!ok);
        if !ok {
            error = Some(crate::text::string_from("Each range must end after it starts."));
        }
        i = i + 1;
    }
    // Positions of the well-formed ranges, in list order.
    let mut idx: Vec<usize> = Vec::new();
    let mut j: usize = 0;
    while j < n
        invariant
            j <= n,
            n == rs.len(),
            flags@.len() == n,
            forall|k: int| 0 <= k < n ==> #[trigger] flags@[k] == !range_ok(rs[k]),
            idx@ == ok_positions(rs.take(j as int)),
        decreases n - j,
    {
        let ghost t = rs.take(j + 1);
        assert(t.drop_last() == rs.take(j as int));
        assert(t.last() == rs[j as int]);
        if !flags[j] {
            idx.push(j);
        }
        j = j + 1;
    }
    assert(rs.take(n as int) =~= rs);
    proof {
        lemma_ok_positions(rs);
    }
    let mut keys: Vec<u32> = Vec::new();
    let mut k: usize = 0;
    while k < idx.len()
        invariant
            k <= idx@.len(),
            idx@ == ok_positions(rs),
            n == rs.len(),
            parsed@.len() == n,
            forall|q: int| 0 <= q < n ==> opt_pair(#[trigger] parsed@[q]) == parsed_range(rs[q]),
            forall|q: int| 0 <= q < idx@.len() ==> #[trigger] idx@[q] < rs.len() && range_ok(rs[idx@[q] as int]),
            keys@.len() == k,
            forall|q: int| 0 <= q < k ==> #[trigger] keys@[q] == ok_start_keys(rs)[q],
        decreases idx.len() - k,
    {
        let s = match parsed[idx[k]] {
            Some((s, _)) => s,
            None => 0,
        };
        keys.push(s);
        k = k + 1;
    }
    let perm = stable_order(&keys);
    proof {
        crate::sorting::lemma_stable_order_transfer(keys@, ok_start_keys(rs), start_order(), perm@);
        lemma_stable_order_of(ok_start_keys(rs), start_order(), perm@);
    }
    let mut order: Vec<usize> = Vec::new();
    let mut q: usize = 0;
    while q < perm.len()
        invariant
            q <= perm@.len(),
            perm@ == stable_order_of(ok_start_keys(rs), start_order()),
            crate::sorting::is_index_permutation(perm@, idx@.len()),
            idx@ == ok_positions(rs),
            order@.len() == q,
            forall|a: int| 0 <= a < q ==> #[trigger] order@[a] == idx@[perm@[a] as int],
        decreases perm.len() - q,
    {
        order.push(idx[perm[q]]);
        q = q + 1;
    }
    assert(order@ =~= ok_order(rs));
    let ghost oo = ok_order(rs);
    proof {
        assert forall|a: int| 0 <= a < oo.len() implies #[trigger] oo[a] < rs.len() && range_ok(rs[oo[a] as int]) by {
            assert(perm@[a] < idx@.len());
        }
    }
    // Neighbours in start order must not overlap.
    let ghost error0 = error;
    let m = order.len();
    let mut w: usize = 0;
    while w < m && w + 1 < m
        invariant
            m == oo.len(),
            order@ == oo,
            oo == ok_order(rs),
            n == rs.len(),
            forall|a: int| 0 <= a < oo.len() ==> #[trigger] oo[a] < rs.len() && range_ok(rs[oo[a] as int]),
            parsed@.len() == n,
            forall|q: int| 0 <= q < n ==> opt_pair(#[trigger] parsed@[q]) == parsed_range(rs[q]),
            w <= oo.len(),
            match error {
                Some(t) => if exists|k: int| 0 <= k < w && #[trigger] overlap_after(rs, k) {
                    t@ == "Ranges must not overlap."@
                } else {
                    error == error0
                },
                None => error == error0 && !exists|k: int| 0 <= k < w && #[trigger] overlap_after(rs, k),
            },
            match error0 {
                Some(t) => t@ == "Each range must end after it starts."@ && exists|k: int| 0 <= k < n && !range_ok(#[trigger] rs[k]),
                None => forall|k: int| 0 <= k < n ==> range_ok(#[trigger] rs[k]),
            },
        decreases m - w,
    {
        let a = order[w];
        let b = order[w + 1];
        let (_, a_end) = match parsed[a] {
            Some(p) => p,
            None => (0, 0),
        };
        let (b_start, _) = match parsed[b] {
            Some(p) => p,
            None => (0, 0),
        };
        if b_start < a_end {
            error = Some(crate::text::string_from("Ranges must not overlap."));
            assert(overlap_after(rs, w as int));
        } else {
            assert(!overlap_after(rs, w as int));
        }
        w = w + 1;
    }
    proof {
        assert forall|k: int| #[trigger] overlap_after(rs, k) implies 0 <= k < w by {
            assert(k + 1 < oo.len());
        }
    }
    (parsed, error)
}

/// The list draws no message exactly when no range is flagged.
proof fn lemma_no_flags_iff_accepted(rs: Seq<(String, String)>, flags: Seq<bool>)
    requires
        rs.len() <= usize::MAX,
        flags.len() == rs.len(),
        forall|k: int| 0 <= k < rs.len() ==> #[trigger] flags[k] == range_flagged(rs, k),
    ensures
        (range_error(rs) is None) <==> (forall|i: int| 0 <= i < rs.len() ==> !#[trigger] flags[i]),
{
    lemma_ranges_accepted_iff_disjoint(rs);
    if range_error(rs) is None {
        assert forall|i: int| 0 <= i < rs.len() implies !#[trigger] flags[i] by {
            assert(range_ok(rs[i]));
            if exists|k: int| 0 <= k < rs.len() && k != i && range_ok(rs[k]) && #[trigger] ranges_overlap(rs, i, k) {
                let k = choose|k: int| 0 <= k < rs.len() && k != i && range_ok(rs[k]) && #[trigger] ranges_overlap(rs, i, k);
                assert(!ranges_overlap(rs, i, k));
            }
        }
    }
    if forall|i: int| 0 <= i < rs.len() ==> !#[trigger] flags[i] {
        assert forall|i: int| 0 <= i < rs.len() implies range_ok(#[trigger] rs[i]) by {
            assert(!flags[i]);
        }
        assert forall|i: int, j: int| 0 <= i < rs.len() && 0 <= j < rs.len() && i != j implies !#[trigger] ranges_overlap(rs, i, j) by {
            assert(!flags[i]);
            assert(range_ok(rs[j]));
        }
    }
}

/// Validate the editor's ranges. Returns a per-range "is problematic" flag (for
/// highlighting) and, if anything is wrong, a single message to show the user.
/// Empty / unparseable ranges and overlaps are rejected; an empty list is fine
/// (it just means the volunteer is unavailable that day). Ranges that only
/// touch do not overlap.
pub fn validate_ranges(ranges: &Vec<(String, String)>) -> (r: (Vec<bool>, Option<String>))
    requires
        ranges_fit(ranges@),
    ensures
        r.0@.len() == ranges@.len(),
        forall|i: int| 0 <= i < ranges@.len() ==> #[trigger] r.0@[i] == range_flagged(ranges@, i),
        match range_error(ranges@) {
            Some(m) => r.1 matches Some(t) && t@ == m,
            None => r.1 is None,
        },
        (r.1 is None) <==> (forall|i: int| 0 <= i < ranges@.len() ==> !#[trigger] r.0@[i]),
{
    let ghost rs = ranges@;
    let (parsed, error) = read_ranges(ranges);
    let n = parsed.len();
    let mut flags: Vec<bool> = Vec::new();
    let mut i: usize = 0;
    while i < n
        invariant
            i <= n,
            n == rs.len(),
            rs == ranges@,
            parsed@.len() == n,
            forall|q: int| 0 <= q < n ==> opt_pair(#[trigger] parsed@[q]) == parsed_range(rs[q]),
            flags@.len() == i,
            forall|k: int| 0 <= k < i ==> #[trigger] flags@[k] == range_flagged(rs, k),
        decreases n - i,
    {
        let mut flag = match parsed[i] {
            Some((s, e)) => !(e > s),
            None => true,
        };
        assert(flag == !range_ok(rs[i as int]));
        let mut j: usize = 0;
        while j < n
            invariant
                j <= n,
                i < n,
                n == rs.len(),
                parsed@.len() == n,
                forall|q: int| 0 <= q < n ==> opt_pair(#[trigger] parsed@[q]) == parsed_range(rs[q]),
                flag == (!range_ok(rs[i as int]) || exists|k: int|
                    0 <= k < j && k != i && range_ok(rs[k]) && #[trigger] ranges_overlap(rs, i as int, k)),
            decreases n - j,
        {
            if j != i && !flag {
                match (parsed[i], parsed[j]) {
                    (Some((si, ei)), Some((sj, ej))) => {
                        if ej > sj && sj < ei && si < ej {
                            assert(ranges_overlap(rs, i as int, j as int));
                            flag = true;
                        } else {
                            assert(!(range_ok(rs[j as int]) && ranges_overlap(rs, i as int, j as int)));
                        }
                    },
                    _ => {},
                }
            }
            j = j + 1;
        }
        flags.push(flag);
        i = i + 1;
    }
    proof {
        lemma_no_flags_iff_accepted(rs, flags@);
    }
    (flags, error)
}

/// Two ranges share time.
pub open spec fn ranges_overlap(ranges: Seq<(String, String)>, i: int, j: int) -> bool {
    start_at(ranges, j) < end_at(ranges, i) && start_at(ranges, i) < end_at(ranges, j)
}

/// The well-formed ranges in start order: each is well formed, no position
/// occurs twice, every well-formed range occurs, and starts never decrease.
proof fn lemma_ok_order(ranges: Seq<(String, String)>)
    requires
        ranges.len() <= usize::MAX,
    ensures
        forall|a: int| 0 <= a < ok_order(ranges).len() ==> #[trigger] ok_order(ranges)[a] < ranges.len()
            && range_ok(ranges[ok_order(ranges)[a] as int]),
        forall|a: int, b: int| 0 <= a < b < ok_order(ranges).len() ==> #[trigger] ok_order(ranges)[a] != #[trigger] ok_order(ranges)[b],
        forall|a: int, b: int| 0 <= a < b < ok_order(ranges).len() ==> start_at(ranges, #[trigger] ok_order(ranges)[a] as int)
            <= start_at(ranges, #[trigger] ok_order(ranges)[b] as int),
        forall|i: int| 0 <= i < ranges.len() && range_ok(#[trigger] ranges[i]) ==> exists|a: int|
            0 <= a < ok_order(ranges).len() && ok_order(ranges)[a] == i,
{
    lemma_ok_positions(ranges);
    let idx = ok_positions(ranges);
    let keys = ok_start_keys(ranges);
    crate::sorting::lemma_stable_order_exists(keys, start_order());
    let p = stable_order_of(keys, start_order());
    let o = ok_order(ranges);
    assert forall|a: int| 0 <= a < o.len() implies #[trigger] o[a] < ranges.len() && range_ok(ranges[o[a] as int]) by {
        assert(p[a] < idx.len());
    }
    assert forall|a: int, b: int| 0 <= a < b < o.len() implies #[trigger] o[a] != #[trigger] o[b] by {
        assert(p[a] != p[b]);
        if p[a] < p[b] {
            assert(idx[p[a] as int] < idx[p[b] as int]);
        } else {
            assert(idx[p[b] as int] < idx[p[a] as int]);
        }
    }
    assert forall|a: int, b: int| 0 <= a < b < o.len() implies start_at(ranges, #[trigger] o[a] as int)
        <= start_at(ranges, #[trigger] o[b] as int) by {
        assert(start_order()(keys[p[a] as int], keys[p[b] as int]));
    }
    assert forall|i: int| 0 <= i < ranges.len() && range_ok(#[trigger] ranges[i]) implies exists|a: int|
        0 <= a < o.len() && o[a] == i by {
        let q = choose|q: int| 0 <= q < idx.len() && idx[q] == i;
        crate::sorting::lemma_permutation_onto(p, keys.len(), q as nat);
        let a = choose|a: int| 0 <= a < p.len() && p[a] == q;
        assert(o[a] == i);
    }
}

/// With no overlap between neighbours in start order, each range ends by
/// the time any later one starts.
proof fn lemma_sorted_ranges_apart(ranges: Seq<(String, String)>, a: int, b: int)
    requires
        ranges.len() <= usize::MAX,
        0 <= a < b < ok_order(ranges).len(),
        forall|k: int| !#[trigger] overlap_after(ranges, k),
    ensures
        end_at(ranges, ok_order(ranges)[a] as int) <= start_at(ranges, ok_order(ranges)[b] as int),
    decreases b - a,
{
    let o = ok_order(ranges);
    lemma_ok_order(ranges);
    assert(!overlap_after(ranges, b - 1));
    if b > a + 1 {
        lemma_sorted_ranges_apart(ranges, a, b - 1);
        assert(range_ok(ranges[o[b - 1] as int]));
    }
}

/// A list of ranges draws no message exactly when every range reads as two
/// clock times and ends after it starts, and no two ranges share time.
pub proof fn lemma_ranges_accepted_iff_disjoint(ranges: Seq<(String, String)>)
    requires
        ranges.len() <= usize::MAX,
    ensures
        range_error(ranges) is None <==> (
            (forall|i: int| 0 <= i < ranges.len() ==> range_ok(#[trigger] ranges[i]))
            && (forall|i: int, j: int| 0 <= i < ranges.len() && 0 <= j < ranges.len() && i != j
                ==> !#[trigger] ranges_overlap(ranges, i, j))),
{
    lemma_ok_order(ranges);
    let o = ok_order(ranges);
    if range_error(ranges) is None {
        assert forall|i: int, j: int| 0 <= i < ranges.len() && 0 <= j < ranges.len() && i != j
            implies !#[trigger] ranges_overlap(ranges, i, j) by {
            assert(range_ok(ranges[i]) && range_ok(ranges[j]));
            let a = choose|a: int| 0 <= a < o.len() && o[a] == i;
            let b = choose|b: int| 0 <= b < o.len() && o[b] == j;
            if a < b {
                lemma_sorted_ranges_apart(ranges, a, b);
            } else {
                lemma_sorted_ranges_apart(ranges, b, a);
            }
        }
    }
    if (forall|i: int| 0 <= i < ranges.len() ==> range_ok(#[trigger] ranges[i]))
        && (forall|i: int, j: int| 0 <= i < ranges.len() && 0 <= j < ranges.len() && i != j
            ==> !#[trigger] ranges_overlap(ranges, i, j)) {
        assert forall|k: int| !#[trigger] overlap_after(ranges, k) by {
            if overlap_after(ranges, k) {
                let x = o[k] as int;
                let y = o[k + 1] as int;
                assert(x != y);
                assert(start_at(ranges, x) <= start_at(ranges, y));
                assert(range_ok(ranges[y]));
                assert(ranges_overlap(ranges, x, y));
            }
        }
    }
}

// ---------------------------------------------------------------------------
// Covered ranges give back the available slots
// ---------------------------------------------------------------------------

pub open spec fn starts_sorted(spans: Seq<(nat, nat)>) -> bool {
    forall|a: int, b: int| 0 <= a < b < spans.len() ==> spans[a].0 <= spans[b].0
}

proof fn lemma_merge_starts(spans: Seq<(nat, nat)>, slots: Seq<TimeSlot>)
    ensures
        forall|k: int| 0 <= k < merge_covered(spans, slots).len() ==> exists|i: int|
            0 <= i < spans.len() && #[trigger] merge_covered(spans, slots)[k].0 == spans[i].0,
    decreases spans.len(),
{
    if spans.len() > 0 {
        let d = spans.drop_last();
        lemma_merge_starts(d, slots);
        let prev = merge_covered(d, slots);
        let m = merge_covered(spans, slots);
        assert forall|k: int| 0 <= k < m.len() implies exists|i: int| 0 <= i < spans.len() && #[trigger] m[k].0 == spans[i].0 by {
            if k < prev.len() {
                assert(m[k].0 == prev[k].0);
                let i = choose|i: int| 0 <= i < d.len() && prev[k].0 == d[i].0;
                assert(spans[i] == d[i]);
            } else {
                assert(m[k] == spans.last());
                assert(spans[spans.len() - 1] == spans.last());
            }
        }
    }
}

/// With spans sorted by start, every span lies within one of the merged
/// ranges.
proof fn lemma_merge_contains(spans: Seq<(nat, nat)>, slots: Seq<TimeSlot>, j: int)
    requires
        0 <= j < spans.len(),
        starts_sorted(spans),
    ensures
        exists|k: int| 0 <= k < merge_covered(spans, slots).len() && #[trigger] merge_covered(spans, slots)[k].0 <= spans[j].0
            && spans[j].1 <= merge_covered(spans, slots)[k].1,
    decreases spans.len(),
{
    let d = spans.drop_last();
    let prev = merge_covered(d, slots);
    let m = merge_covered(spans, slots);
    let (st, en) = spans.last();
    let merged = prev.len() > 0 && (st <= prev.last().1 || !spec_gap_has_slot(slots, prev.last().1, st));
    if j < spans.len() - 1 {
        assert(starts_sorted(d)) by {
            assert forall|a: int, b: int| 0 <= a < b < d.len() implies d[a].0 <= d[b].0 by {
                assert(d[a] == spans[a] && d[b] == spans[b]);
            }
        }
        lemma_merge_contains(d, slots, j);
        let k = choose|k: int| 0 <= k < prev.len() && #[trigger] prev[k].0 <= d[j].0 && d[j].1 <= prev[k].1;
        assert(d[j] == spans[j]);
        assert(m[k].0 <= spans[j].0 && spans[j].1 <= m[k].1);
    } else if merged {
        lemma_merge_starts(d, slots);
        let k = prev.len() - 1;
        let i = choose|i: int| 0 <= i < d.len() && #[trigger] prev[k].0 == d[i].0;
        assert(d[i] == spans[i]);
        assert(spans[i].0 <= spans[j].0);
        assert(m[k].0 <= spans[j].0 && spans[j].1 <= m[k].1);
    } else {
        let k = prev.len() as int;
        assert(m[k] == spans[j]);
    }
}

proof fn lemma_available_span_listed(vol: Volunteer, slots: Seq<TimeSlot>, i: int)
    requires
        0 <= i < slots.len(),
        available_for(vol, slots[i]),
    ensures
        exists|q: int| 0 <= q < available_spans(vol, slots).len() && #[trigger] available_spans(vol, slots)[q] == span_of(slots[i]),
        available_spans(vol, slots).len() <= slots.len(),
    decreases slots.len(),
{
    let d = slots.drop_last();
    let prev = available_spans(vol, d);
    let cur = available_spans(vol, slots);
    lemma_available_spans_len(vol, d);
    if i < slots.len() - 1 {
        assert(d[i] == slots[i]);
        lemma_available_span_listed(vol, d, i);
        let q = choose|q: int| 0 <= q < prev.len() && #[trigger] prev[q] == span_of(d[i]);
        assert(cur[q] == prev[q]);
    } else {
        assert(cur[prev.len() as int] == span_of(slots[i]));
    }
}

proof fn lemma_available_spans_len(vol: Volunteer, slots: Seq<TimeSlot>)
    ensures
        available_spans(vol, slots).len() <= slots.len(),
    decreases slots.len(),
{
    if slots.len() > 0 {
        lemma_available_spans_len(vol, slots.drop_last());
    }
}

proof fn lemma_ids_within_has(slots: Seq<TimeSlot>, ranges: Seq<(u32, u32)>, i: int)
    requires
        0 <= i < slots.len(),
        within_some_range(slots[i], ranges),
    ensures
        ids_within(slots, ranges).contains(slots[i].id@),
    decreases slots.len(),
{
    let d = slots.drop_last();
    if i < slots.len() - 1 {
        assert(d[i] == slots[i]);
        lemma_ids_within_has(d, ranges, i);
        let q = choose|q: int| 0 <= q < ids_within(d, ranges).len() && ids_within(d, ranges)[q] == slots[i].id@;
        if within_some_range(slots.last(), ranges) {
            assert(ids_within(slots, ranges)[q] == slots[i].id@);
        }
    } else {
        let w = ids_within(slots, ranges);
        assert(w[w.len() - 1] == slots[i].id@);
    }
}

/// Turning a volunteer's availability into covered ranges and back loses no
/// slot: every slot they are available for lies within one of the ranges,
/// so its id is among the slots the ranges give back.
pub proof fn lemma_covered_ranges_keep_slots(vol: Volunteer, slots: Seq<TimeSlot>, ranges: Seq<(u32, u32)>, i: int)
    requires
        slots.len() <= usize::MAX,
        pairs_view(ranges) == spec_covered_ranges(vol, slots),
        0 <= i < slots.len(),
        available_for(vol, slots[i]),
    ensures
        within_some_range(slots[i], ranges),
        ids_within(slots, ranges).contains(slots[i].id@),
{
    let spans = available_spans(vol, slots);
    lemma_available_span_listed(vol, slots, i);
    let q = choose|q: int| 0 <= q < spans.len() && #[trigger] spans[q] == span_of(slots[i]);
    let keys = starts_of(spans);
    crate::sorting::lemma_stable_order_exists(keys, start_order());
    let p = crate::sorting::stable_order_of(keys, start_order());
    crate::sorting::lemma_permutation_onto(p, keys.len(), q as nat);
    let a = choose|a: int| 0 <= a < p.len() && p[a] == q;
    let sorted = crate::sorting::sorted_by(spans, keys, start_order());
    assert(sorted[a] == spans[q]);
    assert(starts_sorted(sorted)) by {
        assert forall|x: int, y: int| 0 <= x < y < sorted.len() implies sorted[x].0 <= sorted[y].0 by {
            assert(start_order()(keys[p[x] as int], keys[p[y] as int]));
        }
    }
    lemma_merge_contains(sorted, slots, a);
    let m = merge_covered(sorted, slots);
    let k = choose|k: int| 0 <= k < m.len() && #[trigger] m[k].0 <= sorted[a].0 && sorted[a].1 <= m[k].1;
    assert(pairs_view(ranges)[k] == m[k]);
    assert(ranges[k].0 <= span_of(slots[i]).0 && span_of(slots[i]).1 <= ranges[k].1);
    lemma_ids_within_has(slots, ranges, i);
}

/// Every slot lasts a while, and no two slots share time.
pub open spec fn slots_apart(slots: Seq<TimeSlot>) -> bool {
    &&& forall|i: int| 0 <= i < slots.len() ==> span_of(#[trigger] slots[i]).0 < span_of(slots[i]).1
    &&& forall|i: int, j: int|
        0 <= i < slots.len() && 0 <= j < slots.len() && i != j ==> span_of(#[trigger] slots[i]).1 <= span_of(
            #[trigger] slots[j],
        ).0 || span_of(slots[j]).1 <= span_of(slots[i]).0
}

/// Each span is the span of a slot the volunteer is available for.
pub open spec fn spans_of_available(vol: Volunteer, slots: Seq<TimeSlot>, spans: Seq<(nat, nat)>) -> bool {
    forall|q: int| 0 <= q < spans.len() ==> #[trigger] span_of_available(vol, slots, spans[q])
}

/// `sp` is the span of a slot the volunteer is available for.
pub open spec fn span_of_available(vol: Volunteer, slots: Seq<TimeSlot>, sp: (nat, nat)) -> bool {
    exists|i: int| 0 <= i < slots.len() && available_for(vol, #[trigger] slots[i]) && sp == span_of(slots[i])
}

/// A slot lying within the span of another slot is that slot.
proof fn lemma_within_span_is_same(slots: Seq<TimeSlot>, a: int, c: int)
    requires
        slots_apart(slots),
        0 <= a < slots.len(),
        0 <= c < slots.len(),
        span_of(slots[a]).0 <= span_of(slots[c]).0,
        span_of(slots[c]).1 <= span_of(slots[a]).1,
    ensures
        a == c,
{
    if a != c {
        assert(span_of(slots[c]).0 < span_of(slots[c]).1);
        assert(span_of(slots[a]).1 <= span_of(slots[c]).0 || span_of(slots[c]).1 <= span_of(slots[a]).0);
    }
}

proof fn lemma_merge_sound(vol: Volunteer, slots: Seq<TimeSlot>, spans: Seq<(nat, nat)>)
    requires
        slots_apart(slots),
        spans_of_available(vol, slots, spans),
    ensures
        forall|k: int, j: int|
            0 <= k < merge_covered(spans, slots).len() && 0 <= j < slots.len() && #[trigger] merge_covered(
                spans,
                slots,
            )[k].0 <= span_of(#[trigger] slots[j]).0 && span_of(slots[j]).1 <= merge_covered(spans, slots)[k].1
                ==> available_for(vol, slots[j]),
    decreases spans.len(),
{
    if spans.len() > 0 {
        let d = spans.drop_last();
        assert(spans_of_available(vol, slots, d)) by {
            assert forall|q: int| 0 <= q < d.len() implies #[trigger] span_of_available(vol, slots, d[q]) by {
                assert(d[q] == spans[q]);
                assert(span_of_available(vol, slots, spans[q]));
            }
        }
        lemma_merge_sound(vol, slots, d);
        let prev = merge_covered(d, slots);
        let m = merge_covered(spans, slots);
        let (st, en) = spans.last();
        assert(span_of_available(vol, slots, spans[spans.len() - 1]));
        let a = choose|i: int| 0 <= i < slots.len() && available_for(vol, #[trigger] slots[i]) && spans[spans.len() - 1] == span_of(slots[i]);
        assert(spans.last() == span_of(slots[a]));
        assert forall|k: int, j: int|
            0 <= k < m.len() && 0 <= j < slots.len() && #[trigger] m[k].0 <= span_of(#[trigger] slots[j]).0 && span_of(
                slots[j],
            ).1 <= m[k].1 implies available_for(vol, slots[j]) by {
            let c0 = span_of(slots[j]).0;
            let c1 = span_of(slots[j]).1;
            assert(c0 < c1);
            if prev.len() > 0 && (st <= prev.last().1 || !spec_gap_has_slot(slots, prev.last().1, st)) {
                let l = prev.last();
                let last = prev.len() - 1;
                if k < last {
                    assert(m[k] == prev[k]);
                } else {
                    assert(m[k] == (l.0, if l.1 >= en { l.1 } else { en }));
                    if c1 <= l.1 {
                        assert(prev[last] == l);
                    } else if c0 >= st {
                        lemma_within_span_is_same(slots, a, j);
                    } else if st <= l.1 {
                        assert(span_of(slots[a]).1 <= c0 || c1 <= span_of(slots[a]).0 || a == j);
                        if a != j {
                            assert(span_of(slots[a]).0 < span_of(slots[a]).1);
                        }
                    } else {
                        assert(span_of(slots[j]).0 < st && span_of(slots[j]).1 > l.1);
                        assert(spec_gap_has_slot(slots, l.1, st));
                    }
                }
            } else {
                if k < prev.len() {
                    assert(m[k] == prev[k]);
                } else {
                    assert(m[k] == spans.last());
                    lemma_within_span_is_same(slots, a, j);
                }
            }
        }
    }
}

proof fn lemma_available_spans_from(vol: Volunteer, slots: Seq<TimeSlot>)
    ensures
        spans_of_available(vol, slots, available_spans(vol, slots)),
    decreases slots.len(),
{
    if slots.len() > 0 {
        let d = slots.drop_last();
        lemma_available_spans_from(vol, d);
        let prev = available_spans(vol, d);
        let cur = available_spans(vol, slots);
        assert forall|q: int| 0 <= q < cur.len() implies #[trigger] span_of_available(vol, slots, cur[q]) by {
            if q < prev.len() {
                assert(cur[q] == prev[q]);
                assert(span_of_available(vol, d, prev[q]));
                let i = choose|i: int| 0 <= i < d.len() && available_for(vol, #[trigger] d[i]) && prev[q] == span_of(d[i]);
                assert(slots[i] == d[i]);
                assert(available_for(vol, slots[i]) && cur[q] == span_of(slots[i]));
            } else {
                assert(available_for(vol, slots[slots.len() - 1]));
                assert(cur[q] == span_of(slots[slots.len() - 1]));
            }
        }
    }
}

/// Covered ranges claim no more than the volunteer offers: when every slot
/// lasts a while and no two slots share time, a slot lying entirely within
/// one of the ranges is a slot the volunteer is available for.
pub proof fn lemma_covered_ranges_sound(vol: Volunteer, slots: Seq<TimeSlot>, k: int, j: int)
    requires
        slots.len() <= usize::MAX,
        slots_apart(slots),
        0 <= k < spec_covered_ranges(vol, slots).len(),
        0 <= j < slots.len(),
        spec_covered_ranges(vol, slots)[k].0 <= span_of(slots[j]).0,
        span_of(slots[j]).1 <= spec_covered_ranges(vol, slots)[k].1,
    ensures
        available_for(vol, slots[j]),
{
    let spans = available_spans(vol, slots);
    lemma_available_spans_from(vol, slots);
    lemma_available_spans_len(vol, slots);
    let keys = starts_of(spans);
    crate::sorting::lemma_stable_order_exists(keys, start_order());
    let p = crate::sorting::stable_order_of(keys, start_order());
    let sorted = crate::sorting::sorted_by(spans, keys, start_order());
    assert(spans_of_available(vol, slots, sorted)) by {
        assert forall|q: int| 0 <= q < sorted.len() implies #[trigger] span_of_available(vol, slots, sorted[q]) by {
            assert(sorted[q] == spans[p[q] as int]);
            assert(p[q] < spans.len());
            assert(span_of_available(vol, slots, spans[p[q] as int]));
        }
    }
    lemma_merge_sound(vol, slots, sorted);
    assert(merge_covered(sorted, slots)[k].0 <= span_of(slots[j]).0);
}

/// Turning covered ranges back into slots gives only slots the volunteer is
/// available for, when every slot lasts a while and no two share time.
pub proof fn lemma_covered_ranges_add_no_slot(vol: Volunteer, slots: Seq<TimeSlot>, ranges: Seq<(u32, u32)>, x: Seq<char>)
    requires
        slots.len() <= usize::MAX,
        slots_apart(slots),
        pairs_view(ranges) == spec_covered_ranges(vol, slots),
        ids_within(slots, ranges).contains(x),
    ensures
        exists|q: int| 0 <= q < vol.availabilities@.len() && (#[trigger] vol.availabilities@[q])@ == x,
{
    lemma_ids_within_from(slots, ranges);
    let i = choose|i: int| 0 <= i < slots.len() && within_some_range(#[trigger] slots[i], ranges) && slots[i].id@ == x;
    let k = choose|k: int| 0 <= k < ranges.len() && #[trigger] ranges[k].0 <= span_of(slots[i]).0 && span_of(slots[i]).1 <= ranges[k].1;
    assert(pairs_view(ranges)[k] == (ranges[k].0 as nat, ranges[k].1 as nat));
    lemma_covered_ranges_sound(vol, slots, k, i);
}

proof fn lemma_ids_within_from(slots: Seq<TimeSlot>, ranges: Seq<(u32, u32)>)
    ensures
        forall|x: Seq<char>| #[trigger] ids_within(slots, ranges).contains(x) ==> exists|i: int|
            0 <= i < slots.len() && within_some_range(#[trigger] slots[i], ranges) && slots[i].id@ == x,
    decreases slots.len(),
{
    if slots.len() > 0 {
        let d = slots.drop_last();
        lemma_ids_within_from(d, ranges);
        let prev = ids_within(d, ranges);
        let cur = ids_within(slots, ranges);
        assert forall|x: Seq<char>| #[trigger] cur.contains(x) implies exists|i: int|
            0 <= i < slots.len() && within_some_range(#[trigger] slots[i], ranges) && slots[i].id@ == x by {
            let q = choose|q: int| 0 <= q < cur.len() && cur[q] == x;
            if q < prev.len() {
                assert(prev[q] == x);
                assert(prev.contains(x));
                let i = choose|i: int| 0 <= i < d.len() && within_some_range(#[trigger] d[i], ranges) && d[i].id@ == x;
                assert(slots[i] == d[i]);
            } else {
                assert(within_some_range(slots[slots.len() - 1], ranges));
            }
        }
    }
}

// ---------------------------------------------------------------------------
// Editing one day of a volunteer's availability
// ---------------------------------------------------------------------------

/// The slots of one day, in order.
pub open spec fn day_slots(slots: Seq<TimeSlot>, day: Seq<char>) -> Seq<TimeSlot>
    decreases slots.len(),
{
    if slots.len() == 0 {
        Seq::empty()
    } else if slots.last().day@ == day {
        day_slots(slots.drop_last(), day).push(slots.last())
    } else {
        day_slots(slots.drop_last(), day)
    }
}

pub open spec fn slot_ids(slots: Seq<TimeSlot>) -> Seq<Seq<char>> {
    slots.map_values(|s: TimeSlot| s.id@)
}

/// Some slot of the day has this id.
pub open spec fn day_has_slot(slots: Seq<TimeSlot>, day: Seq<char>, id: Seq<char>) -> bool {
    exists|j: int| 0 <= j < slots.len() && (#[trigger] slots[j]).day@ == day && slots[j].id@ == id
}

/// `held` without the ids of the day's slots.
pub open spec fn off_day(held: Seq<Seq<char>>, slots: Seq<TimeSlot>, day: Seq<char>) -> Seq<Seq<char>>
    decreases held.len(),
{
    if held.len() == 0 {
        Seq::empty()
    } else if day_has_slot(slots, day, held.last()) {
        off_day(held.drop_last(), slots, day)
    } else {
        off_day(held.drop_last(), slots, day).push(held.last())
    }
}

/// The readable ranges that end after they start, in minutes.
pub open spec fn usable_ranges(ranges: Seq<(String, String)>) -> Seq<(u32, u32)>
    decreases ranges.len(),
{
    if ranges.len() == 0 {
        Seq::empty()
    } else {
        let prev = usable_ranges(ranges.drop_last());
        match parsed_range(ranges.last()) {
            Some((st, en)) => if en > st {
                prev.push((st as u32, en as u32))
            } else {
                prev
            },
            None => prev,
        }
    }
}

/// The availability list as plain texts.
pub open spec fn held_ids(v: Volunteer) -> Seq<Seq<char>> {
    v.availabilities@.map_values(|s: String| s@)
}

/// Everything but the availability list is unchanged.
pub open spec fn same_but_availability(a: Volunteer, b: Volunteer) -> bool {
    &&& a.id == b.id
    &&& a.name == b.name
    &&& a.capabilities == b.capabilities
    &&& a.conflict_organizations == b.conflict_organizations
    &&& a.attendance_status == b.attendance_status
    &&& a.locked_field_ids == b.locked_field_ids
}

/// Copies of the day's slots, in order.
fn slots_of_day(slots: &Vec<TimeSlot>, day: &str) -> (r: Vec<TimeSlot>)
    ensures
        r@ == day_slots(slots@, day@),
{
    let mut out: Vec<TimeSlot> = Vec::new();
    let mut i: usize = 0;
    while i < slots.len()
        invariant
            i <= slots@.len(),
            out@ == day_slots(slots@.take(i as int), day@),
        decreases slots.len() - i,
    {
        let ghost t = slots@.take(i + 1);
        assert(t.drop_last() =~= slots@.take(i as int));
        assert(t.last() == slots@[i as int]);
        if crate::text::same_text(slots[i].day.as_str(), day) {
            out.push(crate::slots::copy_slot(&slots[i]));
        }
        i = i + 1;
    }
    assert(slots@.take(slots@.len() as int) =~= slots@);
    out
}

proof fn lemma_day_slots_fit(slots: Seq<TimeSlot>, day: Seq<char>)
    requires
        slots_fit(slots),
    ensures
        slots_fit(day_slots(slots, day)),
    decreases slots.len(),
{
    if slots.len() > 0 {
        assert(slots_fit(slots.drop_last())) by {
            assert forall|i: int| 0 <= i < slots.drop_last().len() implies (#[trigger] slots.drop_last()[i]).times_fit() by {
                assert(slots.drop_last()[i] == slots[i]);
            }
        }
        lemma_day_slots_fit(slots.drop_last(), day);
        assert(slots[slots.len() - 1].times_fit());
    }
}

/// Whether some slot of the day has this id.
fn is_day_slot(slots: &Vec<TimeSlot>, day: &str, id: &str) -> (r: bool)
    ensures
        r == day_has_slot(slots@, day@, id@),
{
    let mut j: usize = 0;
    while j < slots.len()
        invariant
            j <= slots@.len(),
            forall|k: int| 0 <= k < j ==> !((#[trigger] slots@[k]).day@ == day@ && slots@[k].id@ == id@),
        decreases slots.len() - j,
    {
        if crate::text::same_text(slots[j].day.as_str(), day) && crate::text::same_text(slots[j].id.as_str(), id) {
            return true;
        }
        j = j + 1;
    }
    false
}

/// The list without the ids of the day's slots.
fn without_day(held: &Vec<String>, slots: &Vec<TimeSlot>, day: &str) -> (r: Vec<String>)
    ensures
        r@.map_values(|s: String| s@) == off_day(held@.map_values(|s: String| s@), slots@, day@),
{
    let ghost h = held@.map_values(|s: String| s@);
    let mut out: Vec<String> = Vec::new();
    let mut i: usize = 0;
    while i < held.len()
        invariant
            i <= held@.len(),
            h == held@.map_values(|s: String| s@),
            out@.map_values(|s: String| s@) == off_day(h.take(i as int), slots@, day@),
        decreases held.len() - i,
    {
        let ghost t = h.take(i + 1);
        assert(t.drop_last() =~= h.take(i as int));
        assert(t.last() == held@[i as int]@);
        if !is_day_slot(slots, day, held[i].as_str()) {
            let ghost before = out@.map_values(|s: String| s@);
            out.push(held[i].clone());
            assert(out@.map_values(|s: String| s@) =~= before.push(held@[i as int]@));
        }
        i = i + 1;
    }
    assert(h.take(h.len() as int) =~= h);
    out
}

/// After marking a day available, the volunteer holds every id they held
/// before and every id of the day's slots.
pub proof fn lemma_marked_day_held(held: Seq<Seq<char>>, ids: Seq<Seq<char>>)
    ensures
        forall|x: Seq<char>| held.contains(x) ==> #[trigger] crate::generation::with_missing(held, ids).contains(x),
        forall|x: Seq<char>| ids.contains(x) ==> #[trigger] crate::generation::with_missing(held, ids).contains(x),
    decreases ids.len(),
{
    if ids.len() > 0 {
        let d = ids.drop_last();
        lemma_marked_day_held(held, d);
        let prev = crate::generation::with_missing(held, d);
        let cur = crate::generation::with_missing(held, ids);
        assert forall|x: Seq<char>| prev.contains(x) implies cur.contains(x) by {
            if !prev.contains(ids.last()) {
                let k = choose|k: int| 0 <= k < prev.len() && prev[k] == x;
                assert(cur[k] == x);
            }
        }
        assert forall|x: Seq<char>| ids.contains(x) implies cur.contains(x) by {
            let k = choose|k: int| 0 <= k < ids.len() && ids[k] == x;
            if k < ids.len() - 1 {
                assert(d[k] == x);
                assert(d.contains(x));
            } else if !prev.contains(ids.last()) {
                assert(cur[prev.len() as int] == x);
            }
        }
    }
}

/// After clearing a day, the volunteer holds no id of the day's slots and
/// still holds every other id they held.
pub proof fn lemma_cleared_day_held(held: Seq<Seq<char>>, slots: Seq<TimeSlot>, day: Seq<char>)
    ensures
        forall|k: int| 0 <= k < off_day(held, slots, day).len() ==> !day_has_slot(slots, day, #[trigger] off_day(held, slots, day)[k]),
        forall|x: Seq<char>| held.contains(x) && !day_has_slot(slots, day, x) ==> #[trigger] off_day(held, slots, day).contains(x),
    decreases held.len(),
{
    if held.len() > 0 {
        let d = held.drop_last();
        lemma_cleared_day_held(d, slots, day);
        let prev = off_day(d, slots, day);
        let cur = off_day(held, slots, day);
        assert forall|k: int| 0 <= k < cur.len() implies !day_has_slot(slots, day, #[trigger] cur[k]) by {
            if k < prev.len() {
                assert(cur[k] == prev[k]);
            }
        }
        assert forall|x: Seq<char>| held.contains(x) && !day_has_slot(slots, day, x) implies #[trigger] cur.contains(x) by {
            let k = choose|k: int| 0 <= k < held.len() && held[k] == x;
            if k < held.len() - 1 {
                assert(d[k] == x);
                assert(d.contains(x));
                assert(prev.contains(x));
                let q = choose|q: int| 0 <= q < prev.len() && prev[q] == x;
                assert(cur[q] == x);
            } else {
                assert(cur[prev.len() as int] == x);
            }
        }
    }
}

/// Marks the volunteer available for every slot of the day, adding the ids
/// not yet held in slot order.
pub fn mark_day_available(vol: &mut Volunteer, slots: &Vec<TimeSlot>, day: &str)
    ensures
        held_ids(*final(vol)) == crate::generation::with_missing(held_ids(*old(vol)), slot_ids(day_slots(slots@, day@))),
        same_but_availability(*final(vol), *old(vol)),
{
    let ghost start = held_ids(*vol);
    let mut i: usize = 0;
    while i < slots.len()
        invariant
            i <= slots@.len(),
            same_but_availability(*vol, *old(vol)),
            start == held_ids(*old(vol)),
            held_ids(*vol) == crate::generation::with_missing(start, slot_ids(day_slots(slots@.take(i as int), day@))),
        decreases slots.len() - i,
    {
        let ghost t = slots@.take(i + 1);
        assert(t.drop_last() =~= slots@.take(i as int));
        assert(t.last() == slots@[i as int]);
        let slot = &slots[i];
        if crate::text::same_text(slot.day.as_str(), day) {
            let ghost prev_ids = slot_ids(day_slots(slots@.take(i as int), day@));
            assert(slot_ids(day_slots(t, day@)) =~= prev_ids.push(slot.id@));
            assert(prev_ids.push(slot.id@).drop_last() =~= prev_ids);
            assert(prev_ids.push(slot.id@).last() == slot.id@);
            let ghost cur = held_ids(*vol);
            let present = contains_string(&vol.availabilities, slot.id.as_str());
            if present {
                proof {
                    let k = choose|k: int| 0 <= k < vol.availabilities@.len() && (#[trigger] vol.availabilities@[k])@ == slot.id@;
                    assert(cur[k] == slot.id@);
                    assert(cur.contains(slot.id@));
                }
            } else {
                assert(!cur.contains(slot.id@)) by {
                    if cur.contains(slot.id@) {
                        let k = choose|k: int| 0 <= k < cur.len() && cur[k] == slot.id@;
                        assert(vol.availabilities@[k]@ == slot.id@);
                    }
                }
                vol.availabilities.push(slot.id.clone());
                assert(held_ids(*vol) =~= cur.push(slot.id@));
            }
        } else {
            assert(slot_ids(day_slots(t, day@)) =~= slot_ids(day_slots(slots@.take(i as int), day@)));
        }
        i = i + 1;
    }
    assert(slots@.take(slots@.len() as int) =~= slots@);
}

/// Makes the volunteer unavailable for every slot of the day.
pub fn clear_day(vol: &mut Volunteer, slots: &Vec<TimeSlot>, day: &str)
    ensures
        held_ids(*final(vol)) == off_day(held_ids(*old(vol)), slots@, day@),
        same_but_availability(*final(vol), *old(vol)),
{
    let kept = without_day(&vol.availabilities, slots, day);
    vol.availabilities = kept;
}

/// The editor's ranges in minutes, as [`usable_ranges`] describes.
fn ranges_in_minutes(ranges: &Vec<(String, String)>) -> (r: Vec<(u32, u32)>)
    requires
        ranges_fit(ranges@),
    ensures
        r@ == usable_ranges(ranges@),
{
    let mut out: Vec<(u32, u32)> = Vec::new();
    let mut i: usize = 0;
    while i < ranges.len()
        invariant
            i <= ranges@.len(),
            ranges_fit(ranges@),
            out@ == usable_ranges(ranges@.take(i as int)),
        decreases ranges.len() - i,
    {
        let ghost t = ranges@.take(i + 1);
        assert(t.drop_last() =~= ranges@.take(i as int));
        assert(t.last() == ranges@[i as int]);
        let (a, b) = &ranges[i];
        assert(hhmm_fits(ranges@[i as int].0@) && hhmm_fits(ranges@[i as int].1@));
        match (parse_time_minutes(a.as_str()), parse_time_minutes(b.as_str())) {
            (Some(st), Some(en)) => {
                if en > st {
                    out.push((st, en));
                }
            },
            _ => {},
        }
        i = i + 1;
    }
    assert(ranges@.take(ranges@.len() as int) =~= ranges@);
    out
}

/// Writes the editor's result for one day back: the day's slot ids are
/// dropped, then the whole day's ids are added (`all_day`) or those of the
/// day's slots lying fully within a usable range.
pub fn apply_day_ranges(vol: &mut Volunteer, slots: &Vec<TimeSlot>, day: &str, all_day: bool, ranges: &Vec<(String, String)>)
    requires
        slots_fit(slots@),
        ranges_fit(ranges@),
    ensures
        held_ids(*final(vol)) == off_day(held_ids(*old(vol)), slots@, day@) + if all_day {
            slot_ids(day_slots(slots@, day@))
        } else {
            ids_within(day_slots(slots@, day@), usable_ranges(ranges@))
        },
        same_but_availability(*final(vol), *old(vol)),
{
    let mut kept = without_day(&vol.availabilities, slots, day);
    let mine = slots_of_day(slots, day);
    proof {
        lemma_day_slots_fit(slots@, day@);
    }
    let ghost base = kept@.map_values(|s: String| s@);
    if all_day {
        let mut i: usize = 0;
        while i < mine.len()
            invariant
                i <= mine@.len(),
                kept@.map_values(|s: String| s@) == base + slot_ids(mine@.take(i as int)),
            decreases mine.len() - i,
        {
            let ghost before = kept@.map_values(|s: String| s@);
            kept.push(mine[i].id.clone());
            assert(slot_ids(mine@.take(i + 1)) =~= slot_ids(mine@.take(i as int)).push(mine@[i as int].id@));
            assert(kept@.map_values(|s: String| s@) =~= before.push(mine@[i as int].id@));
            i = i + 1;
        }
        assert(mine@.take(mine@.len() as int) =~= mine@);
    } else {
        let minutes = ranges_in_minutes(ranges);
        let ids = slots_in_ranges(&mine, &minutes);
        let ghost want = ids_within(mine@, minutes@);
        let mut i: usize = 0;
        while i < ids.len()
            invariant
                i <= ids@.len(),
                ids@.len() == want.len(),
                forall|k: int| 0 <= k < ids@.len() ==> (#[trigger] ids@[k])@ == want[k],
                kept@.map_values(|s: String| s@) == base + want.take(i as int),
            decreases ids.len() - i,
        {
            let ghost before = kept@.map_values(|s: String| s@);
            kept.push(ids[i].clone());
            assert(want.take(i + 1) =~= want.take(i as int).push(want[i as int]));
            assert(kept@.map_values(|s: String| s@) =~= before.push(want[i as int]));
            i = i + 1;
        }
        assert(want.take(want.len() as int) =~= want);
    }
    vol.availabilities = kept;
}

} // verus!
