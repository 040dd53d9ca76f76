//! The workspace's panels and sub-views, and how they are labelled.
use vstd::prelude::*;
use crate::export::split_on;
use crate::text::{chars_of, push_chars, push_str, string_from};

verus! {

broadcast use vstd::string::group_string_axioms;

/// The panels of the workspace.
#[derive(PartialEq, Eq, Debug, Clone, Copy, Structural)]
pub enum Tab {
    Dashboard,
    Divisions,
    Teams,
    Fields,
    TimeSlots,
    Volunteers,
    Solver,
}

/// What the schedule view shows: every game, or one division's.
#[derive(PartialEq, Eq, Debug, Clone)]
pub enum ScheduleViewTab {
    AllGames,
    Division(String),
}

#[derive(PartialEq, Eq, Debug, Clone, Copy, Structural)]
pub enum DivisionSubTab {
    Rounds,
    Teams,
    Interviews,
}

#[derive(PartialEq, Eq, Debug, Clone, Copy, Structural)]
pub enum VolunteerSubTab {
    Availability,
    WorkloadHeatmap,
}

#[derive(PartialEq, Eq, Debug, Clone, Copy, Structural)]
pub enum TeamSubTab {
    List,
    GapAnalysis,
}

/// The navigation buttons, top to bottom.
pub open spec fn spec_tab_order() -> Seq<Tab> {
    seq![Tab::Dashboard, Tab::Divisions, Tab::Teams, Tab::Fields, Tab::TimeSlots, Tab::Volunteers, Tab::Solver]
}

pub fn tab_order() -> (r: Vec<Tab>)
    ensures
        r@ == spec_tab_order(),
{
    let mut r: Vec<Tab> = Vec::new();
    r.push(Tab::Dashboard);
    r.push(Tab::Divisions);
    r.push(Tab::Teams);
    r.push(Tab::Fields);
    r.push(Tab::TimeSlots);
    r.push(Tab::Volunteers);
    r.push(Tab::Solver);
    assert(r@ =~= spec_tab_order());
    r
}

/// The label of a panel's navigation button.
pub open spec fn spec_tab_label(t: Tab) -> Seq<char> {
    match t {
        Tab::Dashboard => "📊 Dashboard & Alerts"@,
        Tab::Divisions => "🏆 Divisions"@,
        Tab::Teams => "👥 Teams"@,
        Tab::Fields => "🏟 Fields & Arenas"@,
        Tab::TimeSlots => "📅 Time Slots"@,
        Tab::Volunteers => "👤 Volunteers"@,
        Tab::Solver => "⚙ Schedule Solver"@,
    }
}

/// The status shown on opening a panel: the second word of its label.
pub open spec fn spec_opened_message(t: Tab) -> Seq<char> {
    let words = split_on(spec_tab_label(t), ' ');
    let word = if words.len() > 1 {
        words[1]
    } else {
        Seq::empty()
    };
    "Opened "@ + word + " tab"@
}

impl Tab {
    pub fn label(&self) -> (r: &'static str)
        ensures
            r@ == spec_tab_label(*self),
    {
        match self {
            Tab::Dashboard => "📊 Dashboard & Alerts",
            Tab::Divisions => "🏆 Divisions",
            Tab::Teams => "👥 Teams",
            Tab::Fields => "🏟 Fields & Arenas",
            Tab::TimeSlots => "📅 Time Slots",
            Tab::Volunteers => "👤 Volunteers",
            Tab::Solver => "⚙ Schedule Solver",
        }
    }

    /// The status shown on opening the panel.
    pub fn opened_message(&self) -> (r: String)
        ensures
            r@ == spec_opened_message(*self),
    {
        let v = chars_of(self.label());
        let pieces = crate::export::split_chars(&v, ' ');
        let mut msg = string_from("Opened ");
        if pieces.len() > 1 {
            let w = &pieces[1];
            push_chars(&mut msg, w, 0, w.len());
            assert(w@.subrange(0, w@.len() as int) == w@);
        }
        push_str(&mut msg, " tab");
        msg
    }
}

} // verus!
