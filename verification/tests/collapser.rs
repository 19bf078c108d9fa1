use photonsim::collapser::monte_carlo::{collapse, collapse_with, mock_collapse};
use photonsim::collapser::photon::{split_photon, Photon};
use photonsim::concurrency::cell::{CollapseResult, WpResult};
use photonsim::concurrency::operator::{IslandOfInteraction, Operator};

fn island(mode_max: u16, operators: &[Operator]) -> IslandOfInteraction {
    let mut island = IslandOfInteraction::new();
    island.mode_max = mode_max;
    for &operator in operators {
        island.add_operator(operator);
    }
    island
}

fn source() -> Operator {
    Operator::EPPS { store_handle: 0, time: 0, source_modes: [], sink_modes: [0, 1] }
}

fn spd(id: u16, mode: u16) -> Operator {
    Operator::SPD {
        id,
        wp_snowflake: 100 + mode as u32,
        time: 5,
        source_modes: [mode],
        sink_modes: [],
    }
}

fn success(id: u16, mode: u16) -> WpResult {
    WpResult::Success { time: 5, spd_id: id, wp_snowflake: 100 + mode as u32 }
}

fn empty(mode: u16) -> WpResult {
    WpResult::Empty { wp_snowflake: 100 + mode as u32 }
}

/// The outcomes by packet.
fn outcomes(result: &CollapseResult) -> Vec<WpResult> {
    let mut all: Vec<WpResult> = (0..result.len()).map(|i| result.at(i)).collect();
    all.sort_by_key(|outcome| outcome.wp_snowflake());
    all
}

/// A pair whose photons meet at a 2x2 component with a detector for each way out.
fn meeting() -> IslandOfInteraction {
    island(
        6,
        &[
            source(),
            Operator::DualBivariate {
                store_handle: 0,
                time: 0,
                packet_indistinguishability_bits: 9,
                source_modes: [0, 1],
                sink_modes: [2, 3, 4, 5],
            },
            spd(1, 2),
            spd(2, 3),
            spd(1, 4),
            spd(2, 5),
        ],
    )
}

#[test]
fn every_detector_of_the_stand_in_clicks() {
    let result = mock_collapse(&island(2, &[source(), spd(1, 0), spd(2, 1)]));
    assert_eq!(outcomes(&result), [success(1, 0), success(2, 1)]);
    assert_eq!(result.ref_cnt, 2);
    // more than lie inline
    let many: Vec<Operator> = (0..30).map(|mode| spd(1, mode)).collect();
    assert_eq!(mock_collapse(&island(30, &many)).len(), 30);
}

#[test]
fn a_pair_is_seen_by_both_detectors() {
    let pair = island(2, &[source(), spd(1, 0), spd(2, 1)]);
    let result = collapse(&pair, &|_: u64| true).unwrap();
    assert_eq!(outcomes(&result), [success(1, 0), success(2, 1)]);
}

#[test]
fn a_photon_takes_one_way() {
    assert_eq!(split_photon(Photon::Single, true), (Photon::Single, Photon::Vac));
    assert_eq!(split_photon(Photon::Single, false), (Photon::Vac, Photon::Single));
    assert_eq!(split_photon(Photon::Vac, true), (Photon::Vac, Photon::Vac));
    assert!(Photon::Vac.is_vac() && !Photon::Vac.is_single());
    let split = island(
        4,
        &[
            source(),
            Operator::DualUnivariate {
                store_handle: 0,
                time: 0,
                incidence_port_id: 0,
                source_modes: [0],
                sink_modes: [2, 3],
            },
            spd(1, 2),
            spd(2, 3),
            spd(3, 1),
        ],
    );
    let first = collapse_with(&split, &|| true, &|_: u64| true).unwrap();
    let second = collapse_with(&split, &|| false, &|_: u64| true).unwrap();
    assert_eq!(outcomes(&first), [success(3, 1), success(1, 2), empty(3)]);
    assert_eq!(outcomes(&second), [success(3, 1), empty(2), success(2, 3)]);
    // either way once, whatever the draw
    for _ in 0..50 {
        let drawn = outcomes(&collapse(&split, &|_: u64| true).unwrap());
        assert!(drawn == outcomes(&first) || drawn == outcomes(&second));
    }
}

#[test]
fn photons_that_cannot_be_told_apart_leave_together() {
    for _ in 0..50 {
        let result = outcomes(&collapse(&meeting(), &|bits: u64| bits == 9).unwrap());
        let first = [success(1, 2), empty(3), success(1, 4), empty(5)];
        let second = [empty(2), success(2, 3), empty(4), success(2, 5)];
        assert!(result == first || result == second);
    }
}

#[test]
fn photons_that_can_be_told_apart_go_their_own_ways() {
    let result = collapse_with(&meeting(), &|| true, &|_: u64| false).unwrap();
    let seen: Vec<WpResult> = outcomes(&result);
    assert_eq!(seen.len(), 4);
    let clicks = seen.iter().filter(|o| matches!(o, WpResult::Success { .. })).count();
    assert_eq!(clicks, 2);
}

#[test]
fn a_fibre_changes_nothing() {
    let delayed = island(
        3,
        &[
            source(),
            Operator::Single { store_handle: 0, time: 0, source_modes: [0], sink_modes: [2] },
            spd(1, 2),
            spd(2, 1),
        ],
    );
    let result = collapse(&delayed, &|_: u64| true).unwrap();
    assert_eq!(outcomes(&result), [success(2, 1), success(1, 2)]);
}

#[test]
fn no_outcome_where_a_photon_finds_no_operator() {
    // mode 1 is never consumed
    assert!(collapse(&island(2, &[source(), spd(1, 0)]), &|_: u64| true).is_none());
}

fn fibre(from: u16, to: u16) -> Operator {
    Operator::Single { store_handle: 0, time: 0, source_modes: [from], sink_modes: [to] }
}

#[test]
fn modes_that_no_photon_reaches_do_not_matter() {
    // nothing is emitted, so nobody asks who consumes mode 1
    let dark = collapse(&island(2, &[fibre(0, 1)]), &|_: u64| true).unwrap();
    assert_eq!(dark.len(), 0);
    assert_eq!(dark.ref_cnt, 0);
    // nor does it matter where that way would lead
    let circle = [source(), spd(1, 0), spd(2, 1), fibre(2, 3), fibre(3, 2)];
    let result = collapse(&island(4, &circle), &|_: u64| true).unwrap();
    assert_eq!(outcomes(&result), [success(1, 0), success(2, 1)]);
}

#[test]
fn a_mode_entered_twice_is_seen_twice() {
    let joined = [source(), fibre(0, 2), fibre(1, 2), spd(1, 2)];
    let result = collapse(&island(3, &joined), &|_: u64| true).unwrap();
    assert_eq!(outcomes(&result), [success(1, 2), success(1, 2)]);
    // both ways out of a 2x2 component: once a photon, once none
    let split = [
        source(),
        Operator::DualUnivariate {
            store_handle: 0,
            time: 0,
            incidence_port_id: 0,
            source_modes: [0],
            sink_modes: [2, 2],
        },
        spd(1, 2),
        spd(2, 1),
    ];
    let result = collapse_with(&island(3, &split), &|| true, &|_: u64| true).unwrap();
    let seen: Vec<WpResult> = (0..result.len()).map(|i| result.at(i)).collect();
    assert_eq!(seen, [success(2, 1), empty(2), success(1, 2)]);
}

#[test]
fn a_packet_that_meets_itself_waits_for_ever() {
    let lonely = [
        source(),
        Operator::DualBivariate {
            store_handle: 0,
            time: 0,
            packet_indistinguishability_bits: 9,
            source_modes: [0, 0],
            sink_modes: [2, 3, 4, 5],
        },
        spd(1, 1),
    ];
    let result = collapse(&island(2, &lonely), &|_: u64| true).unwrap();
    assert_eq!(outcomes(&result), [success(1, 1)]);
}

#[test]
fn no_outcome_where_the_way_leads_back() {
    let circle = [source(), fibre(0, 2), fibre(2, 0), spd(1, 1)];
    assert!(collapse(&island(3, &circle), &|_: u64| true).is_none());
}

#[test]
fn no_outcome_where_meetings_close_a_circle() {
    let pair = |sinks: [u16; 4]| Operator::DualBivariate {
        store_handle: 0,
        time: 0,
        packet_indistinguishability_bits: 9,
        source_modes: [0, 1],
        sink_modes: sinks,
    };
    let mut operators = vec![source(), pair([2, 3, 4, 5]), pair([2, 3, 4, 5])];
    operators.extend((2..6).map(|mode| spd(1, mode)));
    assert!(collapse(&island(6, &operators), &|_: u64| true).is_none());
}

#[test]
fn no_outcome_where_the_operators_make_no_plan() {
    // a mode that the island does not have
    assert!(collapse(&island(2, &[source(), spd(1, 0), spd(2, 7)]), &|_: u64| true).is_none());
    // packets meet that end elsewhere
    let ended = island(
        6,
        &[
            source(),
            spd(1, 0),
            Operator::DualBivariate {
                store_handle: 0,
                time: 0,
                packet_indistinguishability_bits: 9,
                source_modes: [0, 1],
                sink_modes: [2, 3, 4, 5],
            },
        ],
    );
    assert!(collapse(&ended, &|_: u64| true).is_none());
}

#[test]
fn the_last_operator_on_a_mode_consumes_it() {
    let twice = island(2, &[source(), spd(1, 0), spd(2, 0), spd(3, 1)]);
    let result = collapse(&twice, &|_: u64| true).unwrap();
    assert_eq!(outcomes(&result), [success(2, 0), success(3, 1)]);
}

#[test]
fn three_packets_that_meet_in_a_chain_are_drawn_together() {
    // two sources; the second packet of the first meets both packets of the second
    let pairs = |first: u16, second: u16, sinks: [u16; 4]| Operator::DualBivariate {
        store_handle: 0,
        time: 0,
        packet_indistinguishability_bits: 9,
        source_modes: [first, second],
        sink_modes: sinks,
    };
    let second_source =
        Operator::EPPS { store_handle: 0, time: 0, source_modes: [], sink_modes: [2, 3] };
    let mut operators = vec![
        source(),
        second_source,
        spd(9, 0),
        pairs(1, 2, [4, 5, 6, 7]),
        pairs(1, 3, [4, 5, 8, 9]),
    ];
    operators.extend((4..10).map(|mode| spd(1, mode)));
    let result = collapse(&island(10, &operators), &|_: u64| true).unwrap();
    let seen = outcomes(&result);
    assert_eq!(seen.len(), 7);
    // each of the three photons takes one of its two ways
    for ways in [1..3, 3..5, 5..7] {
        let clicks = seen[ways].iter().filter(|o| matches!(o, WpResult::Success { .. })).count();
        assert_eq!(clicks, 1);
    }
}
