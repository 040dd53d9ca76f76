//! The tournament data model: divisions, teams, fields, time slots,
//! volunteers, the activities a schedule places, and the configuration that
//! holds them all.
use vstd::prelude::*;
use crate::helpers::{spec_time_minutes, hhmm_fits, lemma_fits_strict, colon_pieces, time_fits};
use crate::text::{chars_of, parse_u32, push_chars, push_decimal, push_str, string_from, has_prefix};

verus! {

broadcast use vstd::string::group_string_axioms;

/// Controls how aggressively the solver balances volunteer shifts
/// relative to each volunteer's availability window.
#[derive(Debug, Clone, Copy, PartialEq, Eq, Structural)]
pub enum FairnessMode {
    /// No fairness weighting: pure random selection.
    Off,
    /// Soft bias: prefer under-utilised volunteers via weighted-random sampling.
    Balanced,
    /// Strict bias: always pick the least-utilised qualified volunteer(s) first.
    Strict,
}

impl Default for FairnessMode {
    fn default() -> (r: Self)
        ensures
            r == FairnessMode::Balanced,
    {
        FairnessMode::Balanced
    }
}

#[derive(Debug, Clone, Copy, PartialEq, Eq, Structural)]
pub enum SpecialistMode {
    /// Volunteers can be assigned to any division they are qualified for.
    Off,
    /// Soft bias to keep volunteers in the same division.
    Balanced,
    /// Strong bias to avoid switching volunteers between divisions.
    Strict,
}

impl Default for SpecialistMode {
    fn default() -> (r: Self)
        ensures
            r == SpecialistMode::Off,
    {
        SpecialistMode::Off
    }
}

#[derive(Debug, Clone, Copy, PartialEq, Eq, Structural)]
pub enum SchedulingMode {
    /// e.g. Soccer: Team A vs Team B
    HeadToHead,
    /// e.g. Rescue/OnStage: Team A runs on an arena or stage
    IndividualRun,
}

#[derive(Debug, Clone, Copy, PartialEq, Eq, Structural)]
pub enum FinalsRounds {
    /// Top 2 (1 match)
    Grand,
    /// Top 4 (3 matches)
    Semis,
    /// Top 8 (7 matches)
    Quarter,
    /// Top 16 (15 matches)
    Eighths,
}

impl Default for FinalsRounds {
    fn default() -> (r: Self)
        ensures
            r == FinalsRounds::Grand,
    {
        FinalsRounds::Grand
    }
}

#[derive(Debug, Clone, PartialEq, Eq)]
pub struct Division {
    pub id: String,
    pub name: String,
    pub mode: SchedulingMode,
    /// Number of runs for individual runs, or total matches for head-to-head.
    pub games_per_team: usize,
    pub volunteers_required: usize,
    /// Default duration of a game or run, in minutes.
    pub duration_minutes: u32,
    /// `None` means allowed on all fields.
    pub allowed_fields: Option<Vec<String>>,
    pub interviews_enabled: bool,
    pub interview_volunteers_required: usize,
    pub interview_duration_minutes: u32,
    pub finals_enabled: bool,
    pub finals_rounds: Option<FinalsRounds>,
    pub finals_duration_minutes: Option<u32>,
    pub finals_third_place_playoff: bool,
    /// RGB colour.
    pub color: Option<[u8; 3]>,
    /// Per-division override (minutes) for the minimum recharge break between a
    /// team's consecutive matches. `None` inherits the global solver setting.
    pub min_match_break_minutes: Option<u32>,
}

#[derive(Debug, Clone, Copy, PartialEq, Eq, Hash, Structural)]
pub enum FieldKind {
    Competition,
    Interview,
}

impl Default for FieldKind {
    fn default() -> (r: Self)
        ensures
            r == FieldKind::Competition,
    {
        FieldKind::Competition
    }
}

#[derive(Debug, Clone, PartialEq, Eq)]
pub struct Team {
    pub name: String,
    /// Each team belongs to exactly one division.
    pub division_id: String,
    pub organization: String,
}

#[derive(Debug, Clone, PartialEq, Eq)]
pub struct Field {
    pub id: String,
    pub name: String,
    pub kind: FieldKind,
    /// `None` means allowed for all divisions.
    pub allowed_divisions: Option<Vec<String>>,
}

#[derive(Debug, Clone, PartialEq, Eq)]
pub struct TimeSlot {
    pub id: String,
    /// e.g. "Saturday"
    pub day: String,
    /// "HH:MM"
    pub start_time: String,
    /// "HH:MM"
    pub end_time: String,
    pub kind: FieldKind,
}

/// Minutes a clock string stands for, 0 when it does not read.
pub open spec fn minutes_or_zero(s: Seq<char>) -> nat {
    match spec_time_minutes(s) {
        Some(v) => v,
        None => 0,
    }
}

impl TimeSlot {
    /// Both clock strings of the slot read within `u32`.
    pub open spec fn times_fit(&self) -> bool {
        hhmm_fits(self.start_time@) && hhmm_fits(self.end_time@)
    }

    pub open spec fn spec_start_minutes(&self) -> nat {
        minutes_or_zero(self.start_time@)
    }

    pub open spec fn spec_end_minutes(&self) -> nat {
        minutes_or_zero(self.end_time@)
    }

    /// End minus start, or 0 when the end does not come after the start.
    pub open spec fn spec_duration_minutes(&self) -> nat {
        if self.spec_end_minutes() > self.spec_start_minutes() {
            (self.spec_end_minutes() - self.spec_start_minutes()) as nat
        } else {
            0
        }
    }

    pub fn duration_minutes(&self) -> (r: u32)
        requires
            self.times_fit(),
        ensures
            r == self.spec_duration_minutes(),
    {
        let start = match parse_time_minutes(&self.start_time) {
            Some(v) => v,
            None => 0,
        };
        let end = match parse_time_minutes(&self.end_time) {
            Some(v) => v,
            None => 0,
        };
        end.saturating_sub(start)
    }

    pub fn start_minutes(&self) -> (r: u32)
        requires
            self.times_fit(),
        ensures
            r == self.spec_start_minutes(),
    {
        match parse_time_minutes(&self.start_time) {
            Some(v) => v,
            None => 0,
        }
    }
}

/// Minutes since midnight of an `"HH:MM"` string: `None` unless splitting on
/// `:` gives exactly two pieces that both parse as `u32`.
pub fn parse_time_minutes(time_str: &str) -> (r: Option<u32>)
    requires
        hhmm_fits(time_str@),
    ensures
        match spec_time_minutes(time_str@) {
            Some(v) => r == Some(v as u32),
            None => r is None,
        },
{
    proof {
        lemma_fits_strict(time_str@);
    }
    let v = chars_of(time_str);
    match colon_pieces(&v) {
        None => None,
        Some(i) => {
            assert(v@.subrange(0, i as int) == v@.take(i as int));
            assert(v@.subrange(i + 1, v@.len() as int) == v@.skip(i + 1));
            let hours = match parse_u32(&v, 0, i) {
                Some(h) => h,
                None => {
                    return None;
                },
            };
            let minutes = match parse_u32(&v, i + 1, v.len()) {
                Some(m) => m,
                None => {
                    return None;
                },
            };
            Some(hours * 60 + minutes)
        },
    }
}

#[derive(Debug, Clone, Copy, PartialEq, Eq, Structural)]
pub enum AttendanceStatus {
    Pending,
    CheckedIn,
    NoShow,
}

impl Default for AttendanceStatus {
    fn default() -> (r: Self)
        ensures
            r == AttendanceStatus::Pending,
    {
        AttendanceStatus::Pending
    }
}

#[derive(Debug, Clone, PartialEq, Eq)]
pub struct Volunteer {
    pub id: String,
    pub name: String,
    /// Time slot IDs the volunteer is available for.
    pub availabilities: Vec<String>,
    /// Division IDs they can judge. `None` means they can judge anything.
    pub capabilities: Option<Vec<String>>,
    /// Organisation names they cannot judge.
    pub conflict_organizations: Vec<String>,
    /// Attendance per day, one entry per day name.
    pub attendance_status: Vec<(String, AttendanceStatus)>,
    /// Field/interview-table IDs this volunteer is locked to. `None` or an empty
    /// list means no restriction; otherwise the volunteer may only be rostered on
    /// an activity placed on one of these fields.
    pub locked_field_ids: Option<Vec<String>>,
}

/// The status recorded for `day` (the first entry for it), `Pending` when
/// none is recorded.
pub open spec fn attendance_of(entries: Seq<(String, AttendanceStatus)>, day: Seq<char>) -> AttendanceStatus
    decreases entries.len(),
{
    if entries.len() == 0 {
        AttendanceStatus::Pending
    } else if entries[0].0@ == day {
        entries[0].1
    } else {
        attendance_of(entries.drop_first(), day)
    }
}

impl Volunteer {
    pub fn status_for_day(&self, day: &str) -> (r: AttendanceStatus)
        ensures
            r == attendance_of(self.attendance_status@, day@),
    {
        let key = string_from(day);
        let mut i: usize = 0;
        assert(self.attendance_status@.skip(0) =~= self.attendance_status@);
        while i < self.attendance_status.len()
            invariant
                i <= self.attendance_status@.len(),
                key@ == day@,
                attendance_of(self.attendance_status@, day@) == attendance_of(self.attendance_status@.skip(i as int), day@),
            decreases self.attendance_status.len() - i,
        {
            let ghost rest = self.attendance_status@.skip(i as int);
            assert(rest[0] == self.attendance_status@[i as int]);
            if self.attendance_status[i].0 == key {
                return self.attendance_status[i].1;
            }
            assert(rest.drop_first() == self.attendance_status@.skip(i + 1));
            i = i + 1;
        }
        assert(self.attendance_status@.skip(i as int).len() == 0);
        AttendanceStatus::Pending
    }
}

/// Identifies what kind of match this is and, for round-robin matches, which
/// cycle/round it belongs to.
#[derive(Debug, Clone, Copy, PartialEq, Eq, Structural)]
pub enum MatchStage {
    RoundRobin { cycle: usize, round: usize },
    EighthFinal,
    QuarterFinal,
    SemiFinal,
    ThirdPlace,
    GrandFinal,
}

impl MatchStage {
    pub open spec fn spec_stage_num(self) -> nat {
        match self {
            MatchStage::RoundRobin { .. } => 0,
            MatchStage::EighthFinal => 1,
            MatchStage::QuarterFinal => 2,
            MatchStage::SemiFinal => 3,
            MatchStage::ThirdPlace => 4,
            MatchStage::GrandFinal => 5,
        }
    }

    pub open spec fn spec_label(self) -> Option<Seq<char>> {
        match self {
            MatchStage::RoundRobin { .. } => None,
            MatchStage::EighthFinal => Some("Eighth Finals"@),
            MatchStage::QuarterFinal => Some("Quarter Finals"@),
            MatchStage::SemiFinal => Some("Semi Finals"@),
            MatchStage::ThirdPlace => Some("3rd Place Playoff"@),
            MatchStage::GrandFinal => Some("Grand Final"@),
        }
    }

    pub open spec fn spec_is_final(self) -> bool {
        !(self is RoundRobin)
    }

    /// Numeric ordering used by the solver to enforce stage progression.
    /// RR=0, EF=1, QF=2, SF=3, 3rd-place=4, GF=5.
    pub fn stage_num(&self) -> (r: usize)
        ensures
            r == self.spec_stage_num(),
    {
        match self {
            MatchStage::RoundRobin { .. } => 0,
            MatchStage::EighthFinal => 1,
            MatchStage::QuarterFinal => 2,
            MatchStage::SemiFinal => 3,
            MatchStage::ThirdPlace => 4,
            MatchStage::GrandFinal => 5,
        }
    }

    pub fn label(&self) -> (r: Option<&'static str>)
        ensures
            match self.spec_label() {
                Some(t) => r is Some && r.unwrap()@ == t,
                None => r is None,
            },
    {
        match self {
            MatchStage::RoundRobin { .. } => None,
            MatchStage::EighthFinal => Some("Eighth Finals"),
            MatchStage::QuarterFinal => Some("Quarter Finals"),
            MatchStage::SemiFinal => Some("Semi Finals"),
            MatchStage::ThirdPlace => Some("3rd Place Playoff"),
            MatchStage::GrandFinal => Some("Grand Final"),
        }
    }

    pub fn is_final(&self) -> (r: bool)
        ensures
            r == self.spec_is_final(),
    {
        match self {
            MatchStage::RoundRobin { .. } => false,
            _ => true,
        }
    }
}

/// A stage is a final exactly when it carries a label and when its stage
/// number is above the round robin's.
pub proof fn lemma_final_stages(s: MatchStage)
    ensures
        s.spec_is_final() <==> s.spec_label() is Some,
        s.spec_is_final() <==> s.spec_stage_num() > 0,
        s.spec_stage_num() <= 5,
{
}

#[derive(Debug, Clone, PartialEq, Eq)]
pub enum Activity {
    Match {
        id: String,
        team_a: String,
        team_b: String,
        division_id: String,
        duration_minutes: u32,
        stage: MatchStage,
    },
    Run {
        id: String,
        team: String,
        division_id: String,
        run_number: usize,
        duration_minutes: u32,
    },
    Interview {
        id: String,
        team: String,
        division_id: String,
        duration_minutes: u32,
    },
}

/// `name` without a leading `"<division id> "`, when it has one.
pub open spec fn strip_division_prefix(name: Seq<char>, div: Seq<char>) -> Seq<char> {
    if div.push(' ').is_prefix_of(name) {
        name.skip(div.len() as int + 1)
    } else {
        name
    }
}

/// A team name without its division id prefix.
pub fn clean_team_name(name: &String, div_id: &String) -> (r: String)
    ensures
        r@ == strip_division_prefix(name@, div_id@),
{
    let n = chars_of(name.as_str());
    let mut p = chars_of(div_id.as_str());
    p.push(' ');
    let mut out = String::new();
    if has_prefix(&n, &p) {
        push_chars(&mut out, &n, p.len(), n.len());
        assert(n@.subrange(p@.len() as int, n@.len() as int) == n@.skip(p@.len() as int));
    } else {
        push_chars(&mut out, &n, 0, n.len());
        assert(n@.subrange(0, n@.len() as int) == n@);
    }
    out
}

pub open spec fn decimal_of(n: int) -> Seq<char> {
    crate::text::decimal(n as nat)
}

impl Activity {
    pub open spec fn spec_id(self) -> Seq<char> {
        match self {
            Activity::Match { id, .. } => id@,
            Activity::Run { id, .. } => id@,
            Activity::Interview { id, .. } => id@,
        }
    }

    pub open spec fn spec_division_id(self) -> Seq<char> {
        match self {
            Activity::Match { division_id, .. } => division_id@,
            Activity::Run { division_id, .. } => division_id@,
            Activity::Interview { division_id, .. } => division_id@,
        }
    }

    pub open spec fn spec_duration(self) -> u32 {
        match self {
            Activity::Match { duration_minutes, .. } => duration_minutes,
            Activity::Run { duration_minutes, .. } => duration_minutes,
            Activity::Interview { duration_minutes, .. } => duration_minutes,
        }
    }

    /// Names of the teams taking part, in order.
    pub open spec fn spec_teams(self) -> Seq<Seq<char>> {
        match self {
            Activity::Match { team_a, team_b, .. } => seq![team_a@, team_b@],
            Activity::Run { team, .. } => seq![team@],
            Activity::Interview { team, .. } => seq![team@],
        }
    }

    pub open spec fn spec_is_final(self) -> bool {
        match self {
            Activity::Match { stage, .. } => stage.spec_is_final(),
            _ => false,
        }
    }

    pub open spec fn spec_stage(self) -> nat {
        match self {
            Activity::Match { stage, .. } => stage.spec_stage_num(),
            _ => 0,
        }
    }

    pub open spec fn spec_stage_label(self) -> Option<Seq<char>> {
        match self {
            Activity::Match { stage, .. } => stage.spec_label(),
            _ => None,
        }
    }

    /// Sort position of the activity within its division's rounds.
    pub open spec fn spec_round_index(self) -> int {
        match self {
            Activity::Match { stage, .. } => match stage {
                MatchStage::RoundRobin { cycle, round } => cycle * 100 + round,
                _ => 10000 + (stage.spec_stage_num() * 100) as int,
            },
            Activity::Run { run_number, .. } => run_number as int,
            Activity::Interview { .. } => 0,
        }
    }

    /// The round index can be computed without overflowing `usize`.
    pub open spec fn round_index_fits(self) -> bool {
        self.spec_round_index() < usize::MAX
    }

    pub open spec fn spec_label(self) -> Seq<char> {
        match self {
            Activity::Match { team_a, team_b, stage, division_id, .. } => {
                let icon = if stage.spec_is_final() { "🏆 "@ } else { "⚽ "@ };
                icon + strip_division_prefix(team_a@, division_id@) + " vs "@
                    + strip_division_prefix(team_b@, division_id@)
            },
            Activity::Run { team, run_number, division_id, .. } => "🤖 "@ + strip_division_prefix(
                team@,
                division_id@,
            ) + " Run #"@ + decimal_of(run_number as int),
            Activity::Interview { team, division_id, .. } => "💬 "@ + strip_division_prefix(
                team@,
                division_id@,
            ) + " Interview"@,
        }
    }

    pub open spec fn spec_export_label(self) -> Seq<char> {
        match self {
            Activity::Match { team_a, team_b, stage, division_id, .. } => {
                let head = if stage.spec_is_final() { "[FINAL] "@ } else { Seq::<char>::empty() };
                head + strip_division_prefix(team_a@, division_id@) + " vs "@
                    + strip_division_prefix(team_b@, division_id@)
            },
            Activity::Run { team, run_number, division_id, .. } => strip_division_prefix(
                team@,
                division_id@,
            ) + " Run #"@ + decimal_of(run_number as int),
            Activity::Interview { team, division_id, .. } => strip_division_prefix(
                team@,
                division_id@,
            ) + " Interview"@,
        }
    }

    pub open spec fn spec_round_label(self) -> Seq<char> {
        match self {
            Activity::Match { stage, .. } => match stage {
                MatchStage::RoundRobin { .. } => "Round "@ + decimal_of(self.spec_round_index() + 1),
                _ => Seq::<char>::empty(),
            },
            Activity::Run { run_number, .. } => "Run #"@ + decimal_of(run_number as int),
            Activity::Interview { .. } => Seq::<char>::empty(),
        }
    }

    pub fn id(&self) -> (r: &str)
        ensures
            r@ == self.spec_id(),
    {
        match self {
            Activity::Match { id, .. } => id.as_str(),
            Activity::Run { id, .. } => id.as_str(),
            Activity::Interview { id, .. } => id.as_str(),
        }
    }

    pub fn division_id(&self) -> (r: &str)
        ensures
            r@ == self.spec_division_id(),
    {
        match self {
            Activity::Match { division_id, .. } => division_id.as_str(),
            Activity::Run { division_id, .. } => division_id.as_str(),
            Activity::Interview { division_id, .. } => division_id.as_str(),
        }
    }

    pub fn duration_minutes(&self) -> (r: u32)
        ensures
            r == self.spec_duration(),
    {
        match self {
            Activity::Match { duration_minutes, .. } => *duration_minutes,
            Activity::Run { duration_minutes, .. } => *duration_minutes,
            Activity::Interview { duration_minutes, .. } => *duration_minutes,
        }
    }

    pub fn teams(&self) -> (r: Vec<&str>)
        ensures
            r@.len() == self.spec_teams().len(),
            forall|i: int| 0 <= i < r@.len() ==> (#[trigger] r@[i])@ == self.spec_teams()[i],
    {
        match self {
            Activity::Match { team_a, team_b, .. } => {
                let mut v: Vec<&str> = Vec::new();
                v.push(team_a.as_str());
                v.push(team_b.as_str());
                v
            },
            Activity::Run { team, .. } => {
                let mut v: Vec<&str> = Vec::new();
                v.push(team.as_str());
                v
            },
            Activity::Interview { team, .. } => {
                let mut v: Vec<&str> = Vec::new();
                v.push(team.as_str());
                v
            },
        }
    }

    pub fn is_final(&self) -> (r: bool)
        ensures
            r == self.spec_is_final(),
    {
        match self {
            Activity::Match { stage, .. } => stage.is_final(),
            _ => false,
        }
    }

    pub fn label(&self) -> (r: String)
        ensures
            r@ == self.spec_label(),
    {
        match self {
            Activity::Match { team_a, team_b, stage, division_id, .. } => {
                let clean_a = clean_team_name(team_a, division_id);
                let clean_b = clean_team_name(team_b, division_id);
                let mut s = String::new();
                if stage.is_final() {
                    push_str(&mut s, "🏆 ");
                } else {
                    push_str(&mut s, "⚽ ");
                }
                push_str(&mut s, clean_a.as_str());
                push_str(&mut s, " vs ");
                push_str(&mut s, clean_b.as_str());
                s
            },
            Activity::Run { team, run_number, division_id, .. } => {
                let clean_t = clean_team_name(team, division_id);
                let mut s = String::new();
                push_str(&mut s, "🤖 ");
                push_str(&mut s, clean_t.as_str());
                push_str(&mut s, " Run #");
                push_decimal(&mut s, *run_number as u64);
                s
            },
            Activity::Interview { team, division_id, .. } => {
                let clean_t = clean_team_name(team, division_id);
                let mut s = String::new();
                push_str(&mut s, "💬 ");
                push_str(&mut s, clean_t.as_str());
                push_str(&mut s, " Interview");
                s
            },
        }
    }

    pub fn export_label(&self) -> (r: String)
        ensures
            r@ == self.spec_export_label(),
    {
        match self {
            Activity::Match { team_a, team_b, stage, division_id, .. } => {
                let clean_a = clean_team_name(team_a, division_id);
                let clean_b = clean_team_name(team_b, division_id);
                let mut s = String::new();
                if stage.is_final() {
                    push_str(&mut s, "[FINAL] ");
                }
                push_str(&mut s, clean_a.as_str());
                push_str(&mut s, " vs ");
                push_str(&mut s, clean_b.as_str());
                s
            },
            Activity::Run { team, run_number, division_id, .. } => {
                let clean_t = clean_team_name(team, division_id);
                let mut s = String::new();
                push_str(&mut s, clean_t.as_str());
                push_str(&mut s, " Run #");
                push_decimal(&mut s, *run_number as u64);
                s
            },
            Activity::Interview { team, division_id, .. } => {
                let clean_t = clean_team_name(team, division_id);
                let mut s = String::new();
                push_str(&mut s, clean_t.as_str());
                push_str(&mut s, " Interview");
                s
            },
        }
    }

    pub fn stage(&self) -> (r: usize)
        ensures
            r == self.spec_stage(),
    {
        match self {
            Activity::Match { stage, .. } => stage.stage_num(),
            _ => 0,
        }
    }

    pub fn stage_label(&self) -> (r: Option<&'static str>)
        ensures
            match self.spec_stage_label() {
                Some(t) => r is Some && r.unwrap()@ == t,
                None => r is None,
            },
    {
        match self {
            Activity::Match { stage, .. } => stage.label(),
            _ => None,
        }
    }

    pub fn round_label(&self) -> (r: String)
        requires
            self.round_index_fits(),
        ensures
            r@ == self.spec_round_label(),
    {
        match self {
            Activity::Match { stage: MatchStage::RoundRobin { .. }, .. } => {
                let mut s = String::new();
                push_str(&mut s, "Round ");
                push_decimal(&mut s, (self.round_index() + 1) as u64);
                s
            },
            Activity::Run { run_number, .. } => {
                let mut s = String::new();
                push_str(&mut s, "Run #");
                push_decimal(&mut s, *run_number as u64);
                s
            },
            _ => String::new(),
        }
    }

    /// Whether the round index can be computed without overflowing `usize`.
    pub fn round_index_in_range(&self) -> (r: bool)
        ensures
            r == self.round_index_fits(),
    {
        match self {
            Activity::Match { stage: MatchStage::RoundRobin { cycle, round }, .. } => {
                match cycle.checked_mul(100) {
                    Some(c) => match c.checked_add(*round) {
                        Some(v) => v < usize::MAX,
                        None => false,
                    },
                    None => false,
                }
            },
            Activity::Match { stage, .. } => {
                assert(stage.spec_stage_num() <= 5);
                true
            },
            Activity::Run { run_number, .. } => *run_number < usize::MAX,
            Activity::Interview { .. } => true,
        }
    }

    pub fn round_index(&self) -> (r: usize)
        requires
            self.round_index_fits(),
        ensures
            r == self.spec_round_index(),
    {
        match self {
            Activity::Match { stage: MatchStage::RoundRobin { cycle, round }, .. } => {
                cycle * 100 + round
            },
            Activity::Match { stage, .. } => {
                // Finals stages: EF=1, QF=2, SF=3, 3PL=4, GF=5.
                // Offset by a large number so they sort after any RR cycles.
                10000 + stage.stage_num() * 100
            },
            Activity::Run { run_number, .. } => *run_number,
            Activity::Interview { .. } => 0,
        }
    }
}

/// Finals sort after every round-robin round with fewer than a hundred
/// cycles, and later finals stages sort after earlier ones.
pub proof fn lemma_finals_sort_after_rounds(rr: Activity, fin: Activity)
    requires
        rr matches Activity::Match { stage: MatchStage::RoundRobin { cycle, round }, .. } && cycle < 99
            && round < 100,
        fin matches Activity::Match { stage, .. } && stage.spec_is_final(),
    ensures
        rr.spec_round_index() < 10000 < fin.spec_round_index(),
{
}

/// Among finals, the round index follows the stage number.
pub proof fn lemma_finals_round_index_order(a: Activity, b: Activity)
    requires
        a.spec_is_final(),
        b.spec_is_final(),
    ensures
        a.spec_stage() < b.spec_stage() <==> a.spec_round_index() < b.spec_round_index(),
{
}

/// Only matches can be finals, and a match is a final exactly when its
/// stage number is above the round robin's.
pub proof fn lemma_activity_final_iff_stage(a: Activity)
    ensures
        a.spec_is_final() <==> (a is Match && a.spec_stage() > 0),
        a.spec_is_final() <==> a.spec_stage_label() is Some,
{
}

#[derive(Debug, Clone)]
pub struct ScheduleAssignment {
    pub activity: Activity,
    pub time_slot_id: String,
    pub field_id: Option<String>,
    pub volunteer_ids: Vec<String>,
}

#[derive(Debug, Clone)]
pub struct Schedule {
    pub assignments: Vec<ScheduleAssignment>,
}

impl Default for Schedule {
    fn default() -> (r: Self)
        ensures
            r.assignments@.len() == 0,
    {
        Schedule { assignments: Vec::new() }
    }
}

#[derive(Debug, Clone, PartialEq, Eq)]
pub struct DayGenConfig {
    pub day: String,
    pub start_time: String,
    pub end_time: String,
    pub lunch_enabled: bool,
    pub lunch_start: String,
    pub lunch_duration: u32,
    pub interviews_enabled: bool,
}

/// Value taken by a missing `interviews_enabled` entry.
pub fn default_true() -> (r: bool)
    ensures
        r,
{
    true
}

impl Default for DayGenConfig {
    fn default() -> (r: Self)
        ensures
            r.day@ == "Saturday"@,
            r.start_time@ == "09:00"@,
            r.end_time@ == "17:00"@,
            r.lunch_enabled,
            r.lunch_start@ == "12:00"@,
            r.lunch_duration == 60,
            r.interviews_enabled,
    {
        Self {
            day: string_from("Saturday"),
            start_time: string_from("09:00"),
            end_time: string_from("17:00"),
            lunch_enabled: true,
            lunch_start: string_from("12:00"),
            lunch_duration: 60,
            interviews_enabled: true,
        }
    }
}

/// Everything a tournament is configured with, apart from the solver's
/// tuning weights.
#[derive(Debug, Clone)]
pub struct TournamentConfig {
    pub competition_name: String,
    pub divisions: Vec<Division>,
    pub teams: Vec<Team>,
    pub fields: Vec<Field>,
    pub time_slots: Vec<TimeSlot>,
    pub volunteers: Vec<Volunteer>,
    pub strict_capabilities: bool,
    /// Legacy field, kept for configurations saved before the solver settings
    /// carried their own fairness mode.
    pub fairness_mode: FairnessMode,
    pub day_configs: Vec<DayGenConfig>,
}

impl Default for TournamentConfig {
    fn default() -> (r: Self)
        ensures
            r.competition_name@.len() == 0,
            r.divisions@.len() == 0,
            r.teams@.len() == 0,
            r.fields@.len() == 0,
            r.time_slots@.len() == 0,
            r.volunteers@.len() == 0,
            !r.strict_capabilities,
            r.fairness_mode == FairnessMode::Balanced,
            r.day_configs@.len() == 0,
    {
        TournamentConfig {
            competition_name: String::new(),
            divisions: Vec::new(),
            teams: Vec::new(),
            fields: Vec::new(),
            time_slots: Vec::new(),
            volunteers: Vec::new(),
            strict_capabilities: false,
            fairness_mode: FairnessMode::Balanced,
            day_configs: Vec::new(),
        }
    }
}

impl TournamentConfig {
    /// Every time slot's clock strings read within `u32`.
    pub open spec fn slot_times_fit(&self) -> bool {
        forall|i: int| 0 <= i < self.time_slots@.len() ==> (#[trigger] self.time_slots@[i]).times_fit()
    }

    /// Whether every time slot's clock strings read within `u32`.
    pub fn slot_times_in_range(&self) -> (r: bool)
        ensures
            r == self.slot_times_fit(),
    {
        let mut i: usize = 0;
        while i < self.time_slots.len()
            invariant
                i <= self.time_slots@.len(),
                forall|j: int| 0 <= j < i ==> (#[trigger] self.time_slots@[j]).times_fit(),
            decreases self.time_slots.len() - i,
        {
            let slot = &self.time_slots[i];
            if !time_fits(slot.start_time.as_str()) || !time_fits(slot.end_time.as_str()) {
                assert(!self.time_slots@[i as int].times_fit());
                return false;
            }
            i = i + 1;
        }
        true
    }
}

/// The fairness mode a loaded configuration should use: a configuration saved
/// before solver settings existed carries its mode only in the legacy field,
/// so a default (`Balanced`) solver setting gives way to a non-default legacy
/// value.
pub fn migrate_legacy_fairness_mode(settings_mode: FairnessMode, legacy_mode: FairnessMode) -> (r: FairnessMode)
    ensures
        r == (if settings_mode == FairnessMode::Balanced && legacy_mode != FairnessMode::Balanced {
            legacy_mode
        } else {
            settings_mode
        }),
{
    if settings_mode == FairnessMode::Balanced && legacy_mode != FairnessMode::Balanced {
        legacy_mode
    } else {
        settings_mode
    }
}

} // verus!
