use std::collections::HashMap;

use photonsim::nodes::dual_port_iterator::{DualPortCluster, DualPortIterator, PhotonicCluster};
use photonsim::nodes::packet::{WavePacket, WpBatch};
use photonsim::nodes::pairing::{DualPortPairing, DualPortPairingIterator};

/// Batch with uniform sigma=150 (overlap iff |dt| < 900) and unique snowflakes.
fn batch(times: &[u64], snowflake_base: u32) -> WpBatch {
    let b: Vec<WavePacket> = times
        .iter()
        .enumerate()
        .map(|(i, &time)| WavePacket {
            time,
            time_sigma: 150,
            wavelength_bits: 1550.0f32.to_bits(),
            wavelength_sigma_bits: 2.0f32.to_bits(),
            state_handle: 0,
            snowflake: snowflake_base + i as u32,
        })
        .collect();
    WpBatch {
        start_time: times.first().copied().unwrap_or(0),
        end_time: times.last().copied().unwrap_or(0),
        batch: b,
    }
}

const L: u32 = 0; // left snowflakes: 0..
const R: u32 = 10_000; // right snowflakes: 10_000..

fn collect(l: &[u64], r: &[u64]) -> Vec<DualPortCluster> {
    let mut iter = DualPortIterator::new(batch(l, L), batch(r, R));
    let mut out = Vec::new();
    while let Some(item) = iter.next() {
        out.push(item);
    }
    out
}

fn lefts(pc: &PhotonicCluster) -> Vec<WavePacket> {
    (0..pc.left_count()).map(|i| pc.left_at(i)).collect()
}

fn rights(pc: &PhotonicCluster) -> Vec<WavePacket> {
    (0..pc.right_count()).map(|i| pc.right_at(i)).collect()
}

fn pairs(pc: &PhotonicCluster) -> Vec<(u8, u8)> {
    (0..pc.pair_count()).map(|i| pc.pair_at(i)).collect()
}

fn times_of(pkts: &[WavePacket]) -> Vec<u64> {
    pkts.iter().map(|w| w.time).collect()
}

// ---------- structural invariants, checked on every cluster ----------
fn check_cluster(pc: &PhotonicCluster) {
    let (left_packets, right_packets, pairs) = (lefts(pc), rights(pc), pairs(pc));
    assert!(!pairs.is_empty(), "cluster with no pairs");
    // no duplicate packets within a side
    for pk in [&left_packets, &right_packets] {
        let mut sf: Vec<u32> = pk.iter().map(|w| w.snowflake).collect();
        sf.sort();
        sf.dedup();
        assert_eq!(sf.len(), pk.len(), "duplicate packet inside a cluster: {:?}", times_of(pk));
    }
    // every pair index in bounds & genuinely overlapping; every packet used by >= 1 pair
    let (mut lused, mut rused) =
        (vec![false; left_packets.len()], vec![false; right_packets.len()]);
    for &(a, b) in &pairs {
        let (a, b) = (a as usize, b as usize);
        assert!(a < left_packets.len() && b < right_packets.len(), "pair index out of bounds");
        assert!(
            left_packets[a].overlaps(&right_packets[b]),
            "pair ({}, {}) does not actually overlap: {} vs {}",
            a,
            b,
            left_packets[a].time,
            right_packets[b].time
        );
        lused[a] = true;
        rused[b] = true;
    }
    assert!(
        lused.iter().all(|&x| x) && rused.iter().all(|&x| x),
        "packet in cluster but in no pair"
    );
}

/// Every input packet must come out exactly once (isolate or cluster member).
fn check_exactly_once(l: &[u64], r: &[u64], out: &[DualPortCluster]) {
    let mut counts: HashMap<u32, u32> = HashMap::new();
    for c in out {
        match c {
            DualPortCluster::LeftIsolate(w) | DualPortCluster::RightIsolate(w) => {
                *counts.entry(w.snowflake).or_insert(0) += 1
            }
            DualPortCluster::Cluster(pc) => {
                check_cluster(pc);
                for w in lefts(pc).iter().chain(rights(pc).iter()) {
                    *counts.entry(w.snowflake).or_insert(0) += 1;
                }
            }
        }
    }
    for id in (0..l.len() as u32).map(|i| L + i).chain((0..r.len() as u32).map(|i| R + i)) {
        assert_eq!(
            counts.get(&id).copied().unwrap_or(0),
            1,
            "packet snowflake={} emitted {} times (want exactly 1)",
            id,
            counts.get(&id).copied().unwrap_or(0)
        );
    }
}

// ---------- degenerate shapes ----------
#[test]
fn both_empty() {
    assert!(collect(&[], &[]).is_empty());
}

#[test]
fn left_empty_yields_all_right_isolates() {
    let out = collect(&[], &[1000, 2000, 3000]);
    check_exactly_once(&[], &[1000, 2000, 3000], &out);
    assert_eq!(out.len(), 3);
    assert!(out.iter().all(|c| matches!(c, DualPortCluster::RightIsolate(_))));
}

#[test]
fn right_empty_yields_all_left_isolates() {
    let out = collect(&[1000, 2000, 3000], &[]);
    check_exactly_once(&[1000, 2000, 3000], &[], &out);
    assert_eq!(out.len(), 3);
    assert!(out.iter().all(|c| matches!(c, DualPortCluster::LeftIsolate(_))));
}

// ---------- single-cluster topologies ----------
#[test]
fn single_pair() {
    let out = collect(&[5000], &[5100]);
    check_exactly_once(&[5000], &[5100], &out);
    assert_eq!(out.len(), 1);
    match &out[0] {
        DualPortCluster::Cluster(pc) => {
            assert_eq!(pairs(pc).as_slice(), &[(0, 0)]);
            assert_eq!(times_of(&lefts(pc)), [5000]);
            assert_eq!(times_of(&rights(pc)), [5100]);
        }
        _ => panic!("expected a cluster"),
    }
}

#[test]
fn fan_out_one_left_two_rights() {
    let out = collect(&[5000], &[4500, 5500]);
    check_exactly_once(&[5000], &[4500, 5500], &out);
    assert_eq!(out.len(), 1);
    match &out[0] {
        DualPortCluster::Cluster(pc) => {
            assert_eq!(
                times_of(&lefts(pc)),
                [5000],
                "left packet must appear once, not per pair"
            );
            assert_eq!(times_of(&rights(pc)), [4500, 5500]);
            assert_eq!(pairs(pc).as_slice(), &[(0, 0), (0, 1)]);
        }
        _ => panic!("expected a cluster"),
    }
}

#[test]
fn fan_in_two_lefts_one_right() {
    let out = collect(&[4500, 5500], &[5000]);
    check_exactly_once(&[4500, 5500], &[5000], &out);
    assert_eq!(out.len(), 1);
    match &out[0] {
        DualPortCluster::Cluster(pc) => {
            assert_eq!(times_of(&lefts(pc)), [4500, 5500]);
            assert_eq!(times_of(&rights(pc)), [5000]);
            assert_eq!(pairs(pc).as_slice(), &[(0, 0), (1, 0)]);
        }
        _ => panic!("expected a cluster"),
    }
}

#[test]
fn zigzag_chain() {
    let out = collect(&[4500, 5500, 6500], &[5000, 6000]);
    check_exactly_once(&[4500, 5500, 6500], &[5000, 6000], &out);
    assert_eq!(out.len(), 1);
    match &out[0] {
        DualPortCluster::Cluster(pc) => {
            assert_eq!(times_of(&lefts(pc)), [4500, 5500, 6500]);
            assert_eq!(times_of(&rights(pc)), [5000, 6000]);
            assert_eq!(pairs(pc).as_slice(), &[(0, 0), (1, 0), (1, 1), (2, 1)]);
        }
        _ => panic!("expected a cluster"),
    }
}

#[test]
fn right_packet_revisited_across_three_lefts() {
    let out = collect(&[4500, 5000, 5500], &[5000]);
    check_exactly_once(&[4500, 5000, 5500], &[5000], &out);
    assert_eq!(out.len(), 1);
    match &out[0] {
        DualPortCluster::Cluster(pc) => {
            assert_eq!(times_of(&rights(pc)), [5000], "revisited right must be interned once");
            assert_eq!(pairs(pc).as_slice(), &[(0, 0), (1, 0), (2, 0)]);
        }
        _ => panic!("expected a cluster"),
    }
}

// ---------- multi-item sequences ----------
#[test]
fn trailing_cluster_is_flushed_at_end() {
    // iterator ends while a cluster is still pending -> it must still be yielded
    let out = collect(&[5000], &[5100]);
    assert_eq!(out.len(), 1, "pending cluster dropped at end of iteration");
}

#[test]
fn two_separate_clusters() {
    let out = collect(&[1000, 5000], &[1100, 5100]);
    check_exactly_once(&[1000, 5000], &[1100, 5100], &out);
    assert_eq!(out.len(), 2, "expected two clusters (second one must not be dropped)");
    assert!(out.iter().all(|c| matches!(c, DualPortCluster::Cluster(_))));
}

#[test]
fn original_example_sequence() {
    let l = [1000, 2000, 5000, 9000];
    let r = [5000, 7000, 9000, 10000, 20000];
    let out = collect(&l, &r);
    check_exactly_once(&l, &r, &out);
    // exact emission order (clusters lag their isolate neighbours by design)
    let sig: Vec<String> = out
        .iter()
        .map(|c| match c {
            DualPortCluster::LeftIsolate(w) => format!("L{}", w.time),
            DualPortCluster::RightIsolate(w) => format!("R{}", w.time),
            DualPortCluster::Cluster(pc) => {
                format!("C{:?}x{:?}", times_of(&lefts(pc)), times_of(&rights(pc)))
            }
        })
        .collect();
    assert_eq!(
        sig,
        ["L1000", "L2000", "R7000", "C[5000]x[5000]", "R10000", "R20000", "C[9000]x[9000]",]
    );
}

#[test]
fn right_isolate_before_first_overlap_is_not_dropped() {
    let out = collect(&[5000], &[1000, 5000]);
    check_exactly_once(&[5000], &[1000, 5000], &out);
}

// ---------- randomized exactly-once property ----------
fn lcg(s: &mut u64) -> u64 {
    *s = s.wrapping_mul(6364136223846793005).wrapping_add(1442695040888963407);
    *s >> 33
}

#[test]
fn property_every_packet_exactly_once() {
    let mut s = 0xC0FFEE_u64;
    for _ in 0..20_000 {
        let nl = (lcg(&mut s) % 12) as usize;
        let nr = (lcg(&mut s) % 12) as usize;
        let spread = 1000 + lcg(&mut s) % 20_000;
        let mut value_gen = |n: usize| -> Vec<u64> {
            let mut v: Vec<u64> = (0..n).map(|_| 1_000_000 + lcg(&mut s) % spread).collect();
            v.sort();
            v
        };
        let (l, r) = (value_gen(nl), value_gen(nr));
        let out = collect(&l, &r);
        check_exactly_once(&l, &r, &out);
    }
}

#[test]
fn pairings_come_before_they_are_clustered() {
    let mut iter = DualPortPairingIterator::new(batch(&[1000, 5000], L), batch(&[5100, 9000], R));
    let mut sig = Vec::new();
    while let Some(item) = iter.next() {
        sig.push(match item {
            DualPortPairing::LeftIsolate(w) => format!("L{}", w.time),
            DualPortPairing::RightIsolate(w) => format!("R{}", w.time),
            DualPortPairing::Pair(a, b) => format!("P{}x{}", a.time, b.time),
        });
    }
    assert_eq!(sig, ["L1000", "P5000x5100", "R9000"]);
    let (left, right) = iter.into_inner();
    assert_eq!(times_of(&left), [1000, 5000]);
    assert_eq!(times_of(&right), [5100, 9000]);
}

#[test]
fn a_cluster_finds_its_packets() {
    let out = collect(&[4500, 5500], &[5000]);
    match &out[0] {
        DualPortCluster::Cluster(pc) => {
            assert_eq!(pc.left_indexof(&pc.left_at(1)), Some(1));
            assert_eq!(pc.right_indexof(&pc.right_at(0)), Some(0));
            assert_eq!(pc.left_indexof(&pc.right_at(0)), None);
            // the later of the two last leading edges
            assert_eq!(pc.time(), 5500 - 450);
        }
        _ => panic!("expected a cluster"),
    }
}

#[test]
fn a_large_cluster_keeps_its_pairs() {
    let l: Vec<u64> = (0..120).map(|i| 10_000 + i).collect();
    let r: Vec<u64> = (0..120).map(|i| 10_050 + i).collect();
    let out = collect(&l, &r);
    check_exactly_once(&l, &r, &out);
    assert_eq!(out.len(), 1);
    match &out[0] {
        DualPortCluster::Cluster(pc) => {
            assert_eq!((pc.left_count(), pc.right_count()), (120, 120));
            assert_eq!(pc.pair_count(), 120 * 120);
        }
        _ => panic!("expected a cluster"),
    }
}

#[test]
fn clusters_are_connected_components() {
    let mut seed = 7u64;
    for _ in 0..40 {
        let mut draw = |n: u64| -> Vec<u64> {
            let mut times: Vec<u64> = (0..n).map(|_| lcg(&mut seed) % 12_000).collect();
            times.sort();
            times
        };
        let (l, r) = (draw(9), draw(8));
        let left = batch(&l, L).batch;
        let right = batch(&r, R).batch;
        // spread a number over everything that hangs together
        let mut name: Vec<usize> = (0..left.len() + right.len()).collect();
        loop {
            let before = name.clone();
            for (i, a) in left.iter().enumerate() {
                for (k, b) in right.iter().enumerate() {
                    if a.overlaps(b) {
                        let least = name[i].min(name[left.len() + k]);
                        name[i] = least;
                        name[left.len() + k] = least;
                    }
                }
            }
            if before == name {
                break;
            }
        }
        let left_name = |wp: &WavePacket| {
            name[left.iter().position(|p| p.snowflake == wp.snowflake).unwrap()]
        };
        let right_name = |wp: &WavePacket| {
            name[left.len() + right.iter().position(|p| p.snowflake == wp.snowflake).unwrap()]
        };
        let mut seen = Vec::new();
        for item in collect(&l, &r) {
            let names: Vec<usize> = match &item {
                DualPortCluster::LeftIsolate(wp) => {
                    assert!(right.iter().all(|p| !wp.overlaps(p)));
                    vec![left_name(wp)]
                }
                DualPortCluster::RightIsolate(wp) => {
                    assert!(left.iter().all(|p| !p.overlaps(wp)));
                    vec![right_name(wp)]
                }
                DualPortCluster::Cluster(pc) => {
                    let mut expected = Vec::new();
                    for (i, a) in lefts(pc).iter().enumerate() {
                        for (k, b) in rights(pc).iter().enumerate() {
                            if a.overlaps(b) {
                                expected.push((i as u8, k as u8));
                            }
                        }
                    }
                    // all of its pairs, in order
                    assert_eq!(pairs(pc), expected);
                    let mut names: Vec<usize> = lefts(pc).iter().map(left_name).collect();
                    names.extend(rights(pc).iter().map(right_name));
                    names
                }
            };
            assert!(names.iter().all(|n| *n == names[0]));
            assert!(!seen.contains(&names[0]));
            seen.push(names[0]);
        }
    }
}
