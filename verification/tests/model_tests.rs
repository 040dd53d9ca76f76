use rcja_tournament_scheduler::model::{Activity, MatchStage};

#[test]
fn round_robin_stage_round_index() {
    let a = Activity::Match {
        id: "div1_m_3_c2_r1".into(),
        team_a: "A".into(),
        team_b: "B".into(),
        division_id: "div1".into(),
        duration_minutes: 20,
        stage: MatchStage::RoundRobin { cycle: 2, round: 1 },
    };
    assert_eq!(a.stage(), 0);
    assert!(!a.is_final());
    // round_index = cycle * 100 + round
    assert_eq!(a.round_index(), 201);
    assert_eq!(a.stage_label(), None);
}

#[test]
fn finals_stage_ordering_and_labels() {
    let mk = |stage: MatchStage| Activity::Match {
        id: "x".into(),
        team_a: "A".into(),
        team_b: "B".into(),
        division_id: "d".into(),
        duration_minutes: 20,
        stage,
    };
    // Numeric stage ordering EF<QF<SF<3PL<GF, all distinct from RR(0).
    assert_eq!(mk(MatchStage::EighthFinal).stage(), 1);
    assert_eq!(mk(MatchStage::QuarterFinal).stage(), 2);
    assert_eq!(mk(MatchStage::SemiFinal).stage(), 3);
    assert_eq!(mk(MatchStage::ThirdPlace).stage(), 4);
    assert_eq!(mk(MatchStage::GrandFinal).stage(), 5);

    // Finals sort after any round-robin cycle.
    assert!(mk(MatchStage::EighthFinal).round_index() > 10_000);
    assert!(mk(MatchStage::GrandFinal).round_index() > mk(MatchStage::SemiFinal).round_index());

    assert_eq!(mk(MatchStage::GrandFinal).stage_label(), Some("Grand Final"));
    assert!(mk(MatchStage::GrandFinal).is_final());

    // A team named with a finals-looking substring must not be misclassified.
    let tricky = Activity::Match {
        id: "div_gf_team".into(),
        team_a: "Team _sf_ FC".into(),
        team_b: "B".into(),
        division_id: "d".into(),
        duration_minutes: 20,
        stage: MatchStage::RoundRobin { cycle: 0, round: 0 },
    };
    assert_eq!(tricky.stage(), 0);
    assert!(!tricky.is_final());
}
