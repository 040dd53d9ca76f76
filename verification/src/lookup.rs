//! Finding configuration entries by id or name, as `iter().find(..)` does:
//! the first entry that matches, if any.
use vstd::prelude::*;
use crate::model::{Division, Field, Team, TimeSlot, Volunteer};
use crate::text::same_text;

verus! {

broadcast use vstd::string::group_string_axioms;

/// Index of the first element satisfying `p`, if any.
pub open spec fn first_where<T>(s: Seq<T>, p: spec_fn(T) -> bool) -> Option<int> {
    if exists|i: int| 0 <= i < s.len() && p(s[i]) {
        Some(
            choose|i: int|
                0 <= i < s.len() && p(s[i]) && forall|j: int| 0 <= j < i ==> !p(#[trigger] s[j]),
        )
    } else {
        None
    }
}

/// The first match is at `i` when `i` matches and nothing before it does.
pub proof fn lemma_first_where_at<T>(s: Seq<T>, p: spec_fn(T) -> bool, i: int)
    requires
        0 <= i < s.len(),
        p(s[i]),
        forall|j: int| 0 <= j < i ==> !p(#[trigger] s[j]),
    ensures
        first_where(s, p) == Some(i),
{
    let c = choose|c: int| 0 <= c < s.len() && p(s[c]) && forall|j: int| 0 <= j < c ==> !p(#[trigger] s[j]);
    assert(0 <= c < s.len() && p(s[c]) && forall|j: int| 0 <= j < c ==> !p(#[trigger] s[j]));
    if c < i {
        assert(!p(s[c]));
    } else if c > i {
        assert(!p(s[i]));
    }
}

proof fn lemma_first_match_exists<T>(s: Seq<T>, p: spec_fn(T) -> bool, i: int)
    requires
        0 <= i < s.len(),
        p(s[i]),
    ensures
        exists|c: int| 0 <= c < s.len() && p(s[c]) && forall|j: int| 0 <= j < c ==> !p(#[trigger] s[j]),
    decreases i,
{
    if exists|k: int| 0 <= k < i && p(s[k]) {
        let k = choose|k: int| 0 <= k < i && p(s[k]);
        lemma_first_match_exists(s, p, k);
    } else {
        assert(forall|j: int| 0 <= j < i ==> !p(#[trigger] s[j]));
    }
}

/// What `first_where` finds matches, and nothing before it does.
pub proof fn lemma_first_where_found<T>(s: Seq<T>, p: spec_fn(T) -> bool)
    ensures
        first_where(s, p) matches Some(i) ==> 0 <= i < s.len() && p(s[i]) && forall|j: int|
            0 <= j < i ==> !p(#[trigger] s[j]),
        first_where(s, p) is None ==> forall|j: int| 0 <= j < s.len() ==> !p(#[trigger] s[j]),
{
    if exists|i: int| 0 <= i < s.len() && p(s[i]) {
        let i = choose|i: int| 0 <= i < s.len() && p(s[i]);
        lemma_first_match_exists(s, p, i);
    }
}

/// With no match, there is no first match.
pub proof fn lemma_first_where_none<T>(s: Seq<T>, p: spec_fn(T) -> bool)
    requires
        forall|j: int| 0 <= j < s.len() ==> !p(#[trigger] s[j]),
    ensures
        first_where(s, p) is None,
{
}

/// The element found by `first_where`, if any.
pub open spec fn find_first<T>(s: Seq<T>, p: spec_fn(T) -> bool) -> Option<T> {
    match first_where(s, p) {
        Some(i) => Some(s[i]),
        None => None,
    }
}

pub open spec fn slot_has_id(id: Seq<char>) -> spec_fn(TimeSlot) -> bool {
    |t: TimeSlot| t.id@ == id
}

pub open spec fn field_has_id(id: Seq<char>) -> spec_fn(Field) -> bool {
    |f: Field| f.id@ == id
}

pub open spec fn division_has_id(id: Seq<char>) -> spec_fn(Division) -> bool {
    |d: Division| d.id@ == id
}

pub open spec fn division_has_name(name: Seq<char>) -> spec_fn(Division) -> bool {
    |d: Division| d.name@ == name
}

pub open spec fn team_has_name(name: Seq<char>) -> spec_fn(Team) -> bool {
    |t: Team| t.name@ == name
}

pub open spec fn volunteer_has_id(id: Seq<char>) -> spec_fn(Volunteer) -> bool {
    |v: Volunteer| v.id@ == id
}

/// `Some(i)` for the first position `i` of `r`, `None` otherwise.
pub open spec fn as_index(r: Option<usize>) -> Option<int> {
    match r {
        Some(i) => Some(i as int),
        None => None,
    }
}

/// The first time slot with this id.
pub fn find_slot(slots: &Vec<TimeSlot>, id: &str) -> (r: Option<usize>)
    ensures
        as_index(r) == first_where(slots@, slot_has_id(id@)),
        r matches Some(i) ==> i < slots@.len(),
{
    let ghost p = slot_has_id(id@);
    let mut i: usize = 0;
    while i < slots.len()
        invariant
            i <= slots@.len(),
            p == slot_has_id(id@),
            forall|j: int| 0 <= j < i ==> !p(#[trigger] slots@[j]),
        decreases slots.len() - i,
    {
        if same_text(slots[i].id.as_str(), id) {
            proof {
                lemma_first_where_at(slots@, p, i as int);
            }
            return Some(i);
        }
        i = i + 1;
    }
    proof {
        lemma_first_where_none(slots@, p);
    }
    None
}

/// The first field with this id.
pub fn find_field(fields: &Vec<Field>, id: &str) -> (r: Option<usize>)
    ensures
        as_index(r) == first_where(fields@, field_has_id(id@)),
        r matches Some(i) ==> i < fields@.len(),
{
    let ghost p = field_has_id(id@);
    let mut i: usize = 0;
    while i < fields.len()
        invariant
            i <= fields@.len(),
            p == field_has_id(id@),
            forall|j: int| 0 <= j < i ==> !p(#[trigger] fields@[j]),
        decreases fields.len() - i,
    {
        if same_text(fields[i].id.as_str(), id) {
            proof {
                lemma_first_where_at(fields@, p, i as int);
            }
            return Some(i);
        }
        i = i + 1;
    }
    proof {
        lemma_first_where_none(fields@, p);
    }
    None
}

/// The first division with this id.
pub fn find_division(divisions: &Vec<Division>, id: &str) -> (r: Option<usize>)
    ensures
        as_index(r) == first_where(divisions@, division_has_id(id@)),
        r matches Some(i) ==> i < divisions@.len(),
{
    let ghost p = division_has_id(id@);
    let mut i: usize = 0;
    while i < divisions.len()
        invariant
            i <= divisions@.len(),
            p == division_has_id(id@),
            forall|j: int| 0 <= j < i ==> !p(#[trigger] divisions@[j]),
        decreases divisions.len() - i,
    {
        if same_text(divisions[i].id.as_str(), id) {
            proof {
                lemma_first_where_at(divisions@, p, i as int);
            }
            return Some(i);
        }
        i = i + 1;
    }
    proof {
        lemma_first_where_none(divisions@, p);
    }
    None
}

/// The first division with this display name.
pub fn find_division_by_name(divisions: &Vec<Division>, name: &str) -> (r: Option<usize>)
    ensures
        as_index(r) == first_where(divisions@, division_has_name(name@)),
        r matches Some(i) ==> i < divisions@.len(),
{
    let ghost p = division_has_name(name@);
    let mut i: usize = 0;
    while i < divisions.len()
        invariant
            i <= divisions@.len(),
            p == division_has_name(name@),
            forall|j: int| 0 <= j < i ==> !p(#[trigger] divisions@[j]),
        decreases divisions.len() - i,
    {
        if same_text(divisions[i].name.as_str(), name) {
            proof {
                lemma_first_where_at(divisions@, p, i as int);
            }
            return Some(i);
        }
        i = i + 1;
    }
    proof {
        lemma_first_where_none(divisions@, p);
    }
    None
}

/// The first team with this name.
pub fn find_team(teams: &Vec<Team>, name: &str) -> (r: Option<usize>)
    ensures
        as_index(r) == first_where(teams@, team_has_name(name@)),
        r matches Some(i) ==> i < teams@.len(),
{
    let ghost p = team_has_name(name@);
    let mut i: usize = 0;
    while i < teams.len()
        invariant
            i <= teams@.len(),
            p == team_has_name(name@),
            forall|j: int| 0 <= j < i ==> !p(#[trigger] teams@[j]),
        decreases teams.len() - i,
    {
        if same_text(teams[i].name.as_str(), name) {
            proof {
                lemma_first_where_at(teams@, p, i as int);
            }
            return Some(i);
        }
        i = i + 1;
    }
    proof {
        lemma_first_where_none(teams@, p);
    }
    None
}

/// The first volunteer with this id.
pub fn find_volunteer(volunteers: &Vec<Volunteer>, id: &str) -> (r: Option<usize>)
    ensures
        as_index(r) == first_where(volunteers@, volunteer_has_id(id@)),
        r matches Some(i) ==> i < volunteers@.len(),
{
    let ghost p = volunteer_has_id(id@);
    let mut i: usize = 0;
    while i < volunteers.len()
        invariant
            i <= volunteers@.len(),
            p == volunteer_has_id(id@),
            forall|j: int| 0 <= j < i ==> !p(#[trigger] volunteers@[j]),
        decreases volunteers.len() - i,
    {
        if same_text(volunteers[i].id.as_str(), id) {
            proof {
                lemma_first_where_at(volunteers@, p, i as int);
            }
            return Some(i);
        }
        i = i + 1;
    }
    proof {
        lemma_first_where_none(volunteers@, p);
    }
    None
}

/// Whether the list holds a string equal to `s` (`Vec::contains`).
pub fn contains_string(list: &Vec<String>, s: &str) -> (r: bool)
    ensures
        r == exists|i: int| 0 <= i < list@.len() && (#[trigger] list@[i])@ == s@,
{
    let mut i: usize = 0;
    while i < list.len()
        invariant
            i <= list@.len(),
            forall|j: int| 0 <= j < i ==> (#[trigger] list@[j])@ != s@,
        decreases list.len() - i,
    {
        if same_text(list[i].as_str(), s) {
            return true;
        }
        i = i + 1;
    }
    false
}

} // verus!
