use photonsim::concurrency::cell::{InteractionCell, Tombstone};
use photonsim::concurrency::interaction_store::{Claim, InteractionStore};
use photonsim::concurrency::op_store::{OpStore, OperatorRecord};
use photonsim::concurrency::operator::{IslandOfInteraction, Operator};
use photonsim::concurrency::registry::{CellState, CellStateRegistry};
use photonsim::concurrency::slice::InteractionStoreSlice;
use photonsim::nodes::packet::WavePacket;

fn packet(state_handle: u32, snowflake: u32) -> WavePacket {
    WavePacket {
        time: 0,
        time_sigma: 1,
        wavelength_bits: 0,
        wavelength_sigma_bits: 0,
        state_handle,
        snowflake,
    }
}

fn island_of(snowflakes: &[u32]) -> InteractionCell {
    let mut island = IslandOfInteraction::new();
    for &snowflake in snowflakes {
        let mode = island.register_wavepacket(&packet(0, snowflake));
        island.add_operator(Operator::Dump { source_modes: [mode], sink_modes: [] });
    }
    InteractionCell::IslandOfInteraction(island)
}

/// A store with the states 0, 1, ... each of one packet with the number of the state.
fn store_with(n: u32) -> InteractionStore {
    let mut store = InteractionStore::new();
    let (mut slice, start, end) = store.create_states(n);
    assert_eq!((start, end), (0, n));
    for handle in 0..n {
        slice.set(handle, island_of(&[handle]));
    }
    assert!(store.release(slice));
    store
}

fn granted(claim: Claim) -> InteractionStoreSlice {
    match claim {
        Claim::Granted(slice) => slice,
        _ => panic!("expected the states"),
    }
}

#[test]
fn a_slice_gives_back_what_was_set() {
    let mut store = store_with(3);
    let mut batches = vec![vec![packet(1, 1)], vec![packet(2, 2), packet(1, 1)]];
    let slice = granted(store.get_states(&mut batches));
    assert_eq!(slice.held_count(), 2);
    assert_eq!((slice.held_at(0), slice.held_at(1)), (1, 2));
    assert!(slice.holds(1) && !slice.holds(0));
    match slice.get(2) {
        InteractionCell::IslandOfInteraction(island) => assert!(island.has_packet(&packet(2, 2))),
        _ => panic!("expected an island"),
    }
    let mut handles = slice.get_handles().iter();
    handles.sort();
    assert_eq!(handles, [1, 2]);
}

#[test]
fn a_state_is_held_by_one_worker() {
    let mut store = store_with(2);
    let mut first = vec![vec![packet(0, 0)]];
    let slice = granted(store.get_states(&mut first));
    let mut second = vec![vec![packet(1, 1), packet(0, 0)]];
    assert!(matches!(store.get_states(&mut second), Claim::Blocked));
    assert!(store.get_states_from_raw_handles(&vec![0]).is_none());
    let other = store.get_states_from_raw_handles(&vec![1]);
    assert!(other.is_some());
    assert!(store.release(other.unwrap()));
    assert!(store.release(slice));
    granted(store.get_states(&mut second));
}

#[test]
fn merged_states_are_found_over_tombstones() {
    let mut store = store_with(3);
    let mut batches = vec![vec![packet(0, 0), packet(1, 1)]];
    let mut slice = granted(store.get_states(&mut batches));
    assert!(slice.merge_islands(1, 0));
    // there is no island left to merge
    assert!(!slice.merge_islands(1, 0));
    assert!(!slice.merge_islands(0, 0));
    assert!(!slice.merge_islands(0, 17));
    assert_eq!((slice.moved_count(), slice.moved_at(0)), (1, 1));
    match slice.get(0) {
        InteractionCell::IslandOfInteraction(island) => {
            assert_eq!(island.active_packets.len(), 2);
            assert_eq!(island.mode_max, 2);
            // the donor's modes come after those of the recipient
            let moved = format!("{:?}", island.operator_at(1));
            assert_eq!(moved, "Dump { source_modes: [1], sink_modes: [] }");
        }
        _ => panic!("expected an island"),
    }
    assert!(store.release(slice));
    // the packet still has the old handle
    let mut batches = vec![vec![packet(1, 1)]];
    let slice = granted(store.get_states(&mut batches));
    assert_eq!(batches[0][0].state_handle, 0);
    assert!(slice.holds(0));
    assert!(store.release(slice));
    // the one reference of the tombstone is used up
    let mut batches = vec![vec![packet(1, 1)]];
    assert!(matches!(store.get_states(&mut batches), Claim::Stale));
}

#[test]
fn a_slice_leads_packets_over_its_own_tombstones() {
    let mut store = store_with(2);
    let mut batches = vec![vec![packet(0, 0), packet(1, 1)]];
    let mut slice = granted(store.get_states(&mut batches));
    assert!(slice.merge_islands(1, 0));
    let mut wp = packet(1, 1);
    assert!(slice.correct_state_handle_if_tombstone(&mut wp));
    assert_eq!(wp.state_handle, 0);
    // nothing is left for another packet
    let mut again = packet(1, 1);
    assert!(!slice.correct_state_handle_if_tombstone(&mut again));
    let mut stranger = packet(17, 1);
    assert!(!slice.correct_state_handle_if_tombstone(&mut stranger));
    assert!(slice.is_intact());
    assert!(store.release(slice));
}

#[test]
fn a_slice_that_hides_a_move_is_not_taken_back() {
    let mut store = store_with(2);
    let mut batches = vec![vec![packet(0, 0), packet(1, 1)]];
    let mut slice = granted(store.get_states(&mut batches));
    assert!(slice.merge_islands(1, 0));
    slice.set(1, InteractionCell::Vacant);
    assert!(!slice.is_intact());
    assert!(!store.release(slice));
}

#[test]
fn a_tombstone_that_is_not_marked_breaks_nothing() {
    let mut store = store_with(1);
    let mut batches = vec![vec![packet(0, 0)]];
    let mut slice = granted(store.get_states(&mut batches));
    slice.set(
        0,
        InteractionCell::Tombstone(Tombstone { ref_cnt: 1, move_destination: 0 }),
    );
    assert!(store.release(slice));
    granted(store.get_states(&mut batches));
}

#[test]
fn retired_states_make_room() {
    let mut store = store_with(400);
    let mut batches: Vec<Vec<WavePacket>> = vec![(0..300).map(|i| packet(i, i)).collect()];
    let mut slice = granted(store.get_states(&mut batches));
    for handle in 0..300 {
        slice.retire(handle);
    }
    assert!(store.release(slice));
    assert!(store.has_room_for(0x8000_0000 - 100));
    assert!(!store.has_room_for(0x8000_0000 - 99));
    // the handles go on; what is left stays where it was
    let (slice, start, end) = store.create_states(300);
    assert_eq!((start, end), (400, 700));
    assert!(store.release(slice));
    let mut batches = vec![vec![packet(399, 399)]];
    let slice = granted(store.get_states(&mut batches));
    match slice.get(399) {
        InteractionCell::IslandOfInteraction(island) => {
            assert!(island.has_packet(&packet(399, 399)))
        }
        _ => panic!("expected an island"),
    }
}

#[test]
fn a_store_grows() {
    let mut store = store_with(500);
    let (slice, start, end) = store.create_states(1000);
    assert_eq!((start, end), (500, 1500));
    assert!(store.release(slice));
    let mut batches = vec![vec![packet(0, 0), packet(499, 499)]];
    let slice = granted(store.get_states(&mut batches));
    for handle in [0, 499] {
        match slice.get(handle) {
            InteractionCell::IslandOfInteraction(island) => {
                assert!(island.has_packet(&packet(handle, handle)))
            }
            _ => panic!("expected an island"),
        }
    }
}

#[test]
fn a_registry_is_a_ring() {
    let mut registry = CellStateRegistry::with_capacity(64);
    assert_eq!((registry.capacity(), registry.len()), (64, 0));
    for state in [CellState::Locked, CellState::Moved, CellState::Retired, CellState::Free] {
        registry.push_back(state);
    }
    assert_eq!(registry.handles_from_front().to_vec(), [0, 1, 2, 3]);
    assert_eq!(registry.get(0), CellState::Locked);
    assert_eq!(registry.get(1), CellState::Moved);
    assert_eq!(registry.get(2), CellState::Retired);
    assert_eq!(registry.get(3), CellState::Free);
    registry.drop_front();
    assert_eq!((registry.start_index(), registry.end_index(), registry.len()), (1, 4, 3));
    registry.set(2, CellState::Locked);
    let grown = registry.resized(128);
    assert_eq!(grown.capacity(), 128);
    assert_eq!(grown.get(1), CellState::Moved);
    assert_eq!(grown.get(2), CellState::Locked);
    // a slot comes again after as many handles as there are slots
    assert_eq!(registry.get(2 + 64), CellState::Locked);
}

#[test]
fn states_take_two_bits() {
    for state in [CellState::Free, CellState::Locked, CellState::Moved, CellState::Retired] {
        assert_eq!(CellState::from_bits(state.to_bits()), state);
    }
    assert_eq!(CellState::from_bits(0b101), CellState::Locked);
}

#[test]
fn a_cell_gives_its_island_or_something_else() {
    let mut cell = island_of(&[5]);
    let island = cell.unwrap_as_island_or_else(|_| panic!("expected an island"));
    assert!(island.has_packet(&packet(0, 5)));
    let other = Box::leak(Box::new(IslandOfInteraction::new()));
    let mut vacant = InteractionCell::Vacant;
    let island = vacant.unwrap_as_island_or_else(|_| other);
    assert!(island.has_no_active_packets());
}

#[test]
fn operators_are_looked_up_by_handle() {
    let mut store = OpStore::new();
    // more than one bucket of the table
    for i in 0..100u32 {
        assert_eq!(store.add(vec![i, i + 1]), i as u16);
    }
    assert_eq!(store.len(), 100);
    assert_eq!(*store.get(40, 0), vec![40, 41]);
    store.set(40, vec![7], 5);
    assert_eq!(*store.get(40, 5), vec![7]);
    assert_eq!(*store.get(39, 5), vec![39, 40]);
    let record = OperatorRecord::new();
    assert_eq!((record.single.len(), record.dual.len(), record.epps.len()), (0, 0, 0));
}

#[test]
fn handles_of_operators_come_again() {
    let mut store = OpStore::new();
    for _ in 0..0x1_0000 {
        store.add(Vec::new());
    }
    assert_eq!(store.add(vec![1]), 0);
}

#[test]
fn giving_back_at_once_changes_nothing() {
    let mut store = store_with(3);
    for _ in 0..3 {
        let mut batches = vec![vec![packet(0, 0), packet(2, 2)]];
        let slice = granted(store.get_states(&mut batches));
        assert!(store.release(slice));
    }
    let mut batches = vec![vec![packet(0, 0), packet(1, 1), packet(2, 2)]];
    let slice = granted(store.get_states(&mut batches));
    for handle in 0..3 {
        match slice.get(handle) {
            InteractionCell::IslandOfInteraction(island) => {
                assert!(island.has_packet(&packet(handle, handle)));
                assert_eq!(island.operator_count(), 1);
            }
            _ => panic!("expected an island"),
        }
    }
}
