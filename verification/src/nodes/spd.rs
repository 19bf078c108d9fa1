//! A single-photon detector: packets end here.

use vstd::prelude::*;

use crate::collapser::monte_carlo::{certain_detection, certain_detections, mock_collapse};
use crate::concurrency::cell::{
    detection_of, first_result_for, CellView, CollapseResult, InteractionCell, WpResult,
};
use crate::concurrency::operator::{IslandView, Operator};
use crate::concurrency::slice::{InteractionStoreSlice, SliceView};
use crate::nodes::packet::WavePacket;

verus! {

pub enum SPDEvent<S> {
    ConnectTimeTagger(S),
}

pub struct SPDWorker<S> {
    pub tagger_channel: Option<S>,
    pub spd_id: u16,
}

/// The packet can be detected: its state is an island that knows it.
pub open spec fn can_detect(slice: SliceView, wp: WavePacket) -> bool {
    &&& slice.holds(wp.state_handle)
    &&& slice.cell(wp.state_handle) matches CellView::Island(island) && island.has_packet(
        wp.snowflake,
    )
}

/// The operator of a detector that the packet ends in.
pub open spec fn detection_operator(island: IslandView, wp: WavePacket, spd_id: u16) -> Operator {
    Operator::SPD {
        id: spd_id,
        wp_snowflake: wp.snowflake,
        time: wp.time,
        source_modes: [island.mode_of(wp.snowflake)],
        sink_modes: [],
    }
}

/// The island after the packet has ended in a detector.
pub open spec fn after_detection(island: IslandView, wp: WavePacket, spd_id: u16) -> IslandView {
    island.without_packet(wp.snowflake).with_operator(detection_operator(island, wp, spd_id))
}

/// One packet ends in the detector.
pub open spec fn detect(slice: SliceView, wp: WavePacket, spd_id: u16) -> Option<SliceView> {
    if can_detect(slice, wp) {
        Some(
            slice.with_cell(
                wp.state_handle,
                CellView::Island(
                    after_detection(slice.cell(wp.state_handle)->Island_0, wp, spd_id),
                ),
            ),
        )
    } else {
        None
    }
}

/// All the packets end in the detector, one after the other.
pub open spec fn detect_all(
    slice: SliceView,
    packets: Seq<WavePacket>,
    spd_id: u16,
) -> Option<SliceView>
    decreases packets.len(),
{
    if packets.len() == 0 {
        Some(slice)
    } else {
        match detect_all(slice, packets.drop_last(), spd_id) {
            None => None,
            Some(so_far) => detect(so_far, packets.last(), spd_id),
        }
    }
}

proof fn lemma_detect_fails(slice: SliceView, packets: Seq<WavePacket>, spd_id: u16, n: int)
    requires
        0 <= n <= packets.len(),
        detect_all(slice, packets.take(n), spd_id) is None,
    ensures
        detect_all(slice, packets, spd_id) is None,
    decreases packets.len() - n,
{
    if n < packets.len() {
        assert(packets.take(n + 1).drop_last() =~= packets.take(n));
        lemma_detect_fails(slice, packets, spd_id, n + 1);
    } else {
        assert(packets.take(n) =~= packets);
    }
}

/// Nothing of the island is in flight any more.
pub open spec fn is_finished(cell: CellView) -> bool {
    cell matches CellView::Island(island) && island.active_packets.len() == 0
}

/// Those of the handles whose islands are finished, in order.
pub open spec fn finished_among(slice: SliceView, handles: Seq<u32>) -> Seq<u32>
    decreases handles.len(),
{
    if handles.len() == 0 {
        seq![]
    } else if is_finished(slice.cell(handles.last())) {
        finished_among(slice, handles.drop_last()).push(handles.last())
    } else {
        finished_among(slice, handles.drop_last())
    }
}

/// The slice with the results in the cells of the handles, one each.
pub open spec fn with_results(
    slice: SliceView,
    handles: Seq<u32>,
    results: Seq<CollapseResult>,
) -> SliceView
    decreases handles.len(),
{
    if handles.len() == 0 {
        slice
    } else {
        let n = handles.len() - 1;
        with_results(slice, handles.drop_last(), results).with_cell(
            handles.last(),
            CellView::Result(results[n]@, results[n].ref_cnt),
        )
    }
}

impl<S> SPDWorker<S> {
    pub fn new(spd_id: u16) -> (worker: Self)
        ensures
            worker == (SPDWorker::<S> { tagger_channel: None, spd_id }),
    {
        Self { tagger_channel: None, spd_id }
    }

    pub fn handle_custom_event(&mut self, custom_event: SPDEvent<S>)
        ensures
            *final(self) == (SPDWorker {
                tagger_channel: Some(custom_event->ConnectTimeTagger_0),
                ..*old(self)
            }),
    {
        match custom_event {
            SPDEvent::ConnectTimeTagger(tagger_channel) => {
                self.tagger_channel = Some(tagger_channel);
            },
        }
    }

    /// Lets the packets of a batch end here: each is taken out of flight, and the
    /// detector is recorded with the mode that it was in. The answer is whether every
    /// packet's state is an island that knows it.
    pub fn register_detections(
        &self,
        packets: &Vec<WavePacket>,
        slice: &mut InteractionStoreSlice,
    ) -> (detected: bool)
        requires
            old(slice).wf(),
        ensures
            final(slice).wf(),
            detected == (detect_all(old(slice)@, packets@, self.spd_id) is Some),
            detected ==> detect_all(old(slice)@, packets@, self.spd_id) == Some(final(slice)@),
    {
        let ghost start = slice@;
        let n: usize = packets.len();
        let mut i: usize = 0;
        assert(packets@.take(0) =~= seq![]);
        while i < n
            invariant
                n == packets@.len(),
                i <= n,
                slice.wf(),
                start == old(slice)@,
                detect_all(start, packets@.take(i as int), self.spd_id) == Some(slice@),
            decreases n - i,
        {
            let wp_source = packets[i];
            assert(packets@.take(i + 1).drop_last() =~= packets@.take(i as int));
            assert(packets@.take(i + 1).last() == wp_source);
            let able = slice.holds(wp_source.state_handle) && match slice.get(
                wp_source.state_handle,
            ) {
                InteractionCell::IslandOfInteraction(island) => island.has_packet(&wp_source),
                _ => false,
            };
            if !able {
                proof {
                    lemma_detect_fails(start, packets@, self.spd_id, i + 1);
                }
                return false;
            }
            let ghost before = slice@.cell(wp_source.state_handle)->Island_0;
            let cell = slice.get_mut(wp_source.state_handle);
            if let InteractionCell::IslandOfInteraction(state) = cell {
                let source_mode: u16 = state.extract_wavepacket(&wp_source);
                state.add_operator(
                    Operator::SPD {
                        id: self.spd_id,
                        wp_snowflake: wp_source.snowflake,
                        time: wp_source.time,
                        source_modes: [source_mode],
                        sink_modes: [],
                    },
                );
                assert([source_mode] =~= [before.mode_of(wp_source.snowflake)]);
            }
            i += 1;
        }
        assert(packets@.take(n as int) =~= packets@);
        true
    }
}

/// The handles of the islands that are finished. There is no answer where a cell is no
/// island.
pub fn finished_handles(slice: &InteractionStoreSlice) -> (handles: Option<Vec<u32>>)
    requires
        slice.wf(),
    ensures
        handles is None <==> exists|p: int|
            0 <= p < slice@.cells.len() && !(#[trigger] slice@.cells[p] is Island),
        handles matches Some(h) ==> h@ == finished_among(slice@, slice@.indices),
{
    let ghost view = slice@;
    proof {
        slice.handles_are_held_once();
    }
    let n: usize = slice.held_count();
    let mut handles: Vec<u32> = Vec::new();
    let mut i: usize = 0;
    assert(view.indices.take(0) =~= seq![]);
    while i < n
        invariant
            slice.wf(),
            view == slice@,
            view.wf(),
            n == view.indices.len(),
            i <= n,
            forall|p: int| 0 <= p < i ==> #[trigger] view.cells[p] is Island,
            handles@ == finished_among(view, view.indices.take(i as int)),
        decreases n - i,
    {
        let handle: u32 = slice.held_at(i);
        assert(view.indices.contains(handle));
        assert(view.place(handle) == i) by {
            let p = view.indices.index_of(handle);
            assert(view.indices[p] == handle);
        }
        assert(view.indices.take(i + 1).drop_last() =~= view.indices.take(i as int));
        match slice.get(handle) {
            InteractionCell::IslandOfInteraction(state) => {
                if state.has_no_active_packets() {
                    handles.push(handle);
                }
            },
            _ => {
                return None;
            },
        }
        i += 1;
    }
    assert(view.indices.take(n as int) =~= view.indices);
    Some(handles)
}

/// The outcome for the island behind a handle: every detector clicks. There is none where
/// the handle is not held or no island is behind it.
pub fn result_of(slice: &InteractionStoreSlice, handle: u32) -> (result: Option<
    CollapseResult,
>)
    requires
        slice.wf(),
    ensures
        result is Some <==> slice@.holds(handle) && slice@.cell(handle) is Island,
        result matches Some(r) ==> r.wf() && r@ == certain_detections(
            slice@.cell(handle)->Island_0.operators,
        ),
{
    if !slice.holds(handle) {
        return None;
    }
    match slice.get(handle) {
        InteractionCell::IslandOfInteraction(state) => Some(mock_collapse(state)),
        _ => None,
    }
}

/// Puts the results in the cells of the handles, one each.
pub fn store_results(
    slice: &mut InteractionStoreSlice,
    handles: &Vec<u32>,
    results: Vec<CollapseResult>,
)
    requires
        old(slice).wf(),
        handles@.len() == results@.len(),
        forall|i: int|
            0 <= i < handles@.len() ==> old(slice)@.holds(#[trigger] handles@[i]),
    ensures
        final(slice).wf(),
        final(slice)@ == with_results(old(slice)@, handles@, results@),
{
    let ghost start = slice@;
    let ghost all = results@;
    let mut rest = results;
    let mut later: Vec<CollapseResult> = Vec::new();
    // the last comes off first, so they are turned round to come in order
    while rest.len() > 0
        invariant
            rest@.len() + later@.len() == all.len(),
            rest@ == all.take(rest@.len() as int),
            forall|k: int| 0 <= k < later@.len() ==> later@[k] == all[all.len() - 1 - k],
        decreases rest@.len(),
    {
        if let Some(result) = rest.pop() {
            later.push(result);
        }
    }
    let n: usize = handles.len();
    let mut i: usize = 0;
    assert(handles@.take(0) =~= seq![]);
    while i < n
        invariant
            n == handles@.len(),
            n == all.len(),
            i <= n,
            slice.wf(),
            slice@.indices == start.indices,
            forall|k: int| 0 <= k < n ==> start.holds(#[trigger] handles@[k]),
            later@.len() == n - i,
            forall|k: int| 0 <= k < later@.len() ==> later@[k] == all[n - 1 - k],
            slice@ == with_results(start, handles@.take(i as int), all),
        decreases n - i,
    {
        let handle: u32 = handles[i];
        assert(handles@.take(i + 1).drop_last() =~= handles@.take(i as int));
        if let Some(result) = later.pop() {
            slice.set(handle, InteractionCell::Result(result));
        }
        i += 1;
    }
    assert(handles@.take(n as int) =~= handles@);
}

/// There is a detector for the packet among the operators.
pub open spec fn has_detector(operators: Seq<Operator>, wp: WavePacket) -> bool {
    exists|k: int| 0 <= k < operators.len() && #[trigger] is_detector_of(operators[k], wp)
}

pub open spec fn is_detector_of(operator: Operator, wp: WavePacket) -> bool {
    operator matches Operator::SPD { wp_snowflake, time, .. } && wp_snowflake == wp.snowflake
        && time == wp.time
}

/// Every packet of a batch that ended in the detector is recorded in its island.
pub proof fn every_packet_is_detected(
    slice: SliceView,
    packets: Seq<WavePacket>,
    spd_id: u16,
    i: int,
)
    requires
        slice.wf(),
        detect_all(slice, packets, spd_id) is Some,
        0 <= i < packets.len(),
    ensures
        ({
            let after = detect_all(slice, packets, spd_id)->0;
            &&& after.wf()
            &&& after.indices == slice.indices
            &&& after.holds(packets[i].state_handle)
            &&& after.cell(packets[i].state_handle) matches CellView::Island(island)
                && has_detector(island.operators, packets[i])
        }),
    decreases packets.len(),
{
    let last = packets.len() - 1;
    if i < last {
        every_packet_is_detected(slice, packets.drop_last(), spd_id, i);
    } else if last > 0 {
        every_packet_is_detected(slice, packets.drop_last(), spd_id, 0);
    }
    let so_far = detect_all(slice, packets.drop_last(), spd_id)->0;
    let after = detect_all(slice, packets, spd_id)->0;
    let wp = packets.last();
    assert(so_far.indices[so_far.place(wp.state_handle)] == wp.state_handle);
    let before = so_far.cell(wp.state_handle)->Island_0;
    let now = after_detection(before, wp, spd_id);
    assert(after.cell(wp.state_handle) == CellView::Island(now));
    if i == last {
        assert(is_detector_of(now.operators[before.operators.len() as int], wp));
    } else {
        let h = packets[i].state_handle;
        assert(so_far.indices[so_far.place(h)] == h);
        if h == wp.state_handle {
            let k = choose|k: int|
                0 <= k < before.operators.len() && #[trigger] is_detector_of(
                    before.operators[k],
                    packets[i],
                );
            assert(now.operators[k] == before.operators[k]);
        } else {
            assert(after.cell(h) == so_far.cell(h));
        }
    }
}

/// Whatever has a detector in an island has a result when every detector clicks: no
/// packet is missing, and each is seen at its own time.
pub proof fn every_detected_packet_has_a_result(operators: Seq<Operator>, wp: WavePacket)
    requires
        has_detector(operators, wp),
    ensures
        first_result_for(certain_detections(operators), wp.snowflake) < certain_detections(
            operators,
        ).len(),
        detection_of(certain_detections(operators), wp) == Some(wp.time),
{
    let k = choose|k: int|
        0 <= k < operators.len() && #[trigger] is_detector_of(operators[k], wp);
    let j = lemma_detection_is_there(operators, k);
    lemma_first_result(certain_detections(operators), wp.snowflake, j);
    lemma_all_click(operators, first_result_for(certain_detections(operators), wp.snowflake));
}

proof fn lemma_all_click(operators: Seq<Operator>, i: int)
    requires
        0 <= i < certain_detections(operators).len(),
    ensures
        certain_detections(operators)[i] is Success,
    decreases operators.len(),
{
    if operators.len() > 0 && i < certain_detections(operators.drop_last()).len() {
        lemma_all_click(operators.drop_last(), i);
    }
}

proof fn lemma_detection_is_there(operators: Seq<Operator>, k: int) -> (j: int)
    requires
        0 <= k < operators.len(),
        certain_detection(operators[k]) is Some,
    ensures
        0 <= j < certain_detections(operators).len(),
        certain_detections(operators)[j] == certain_detection(operators[k])->0,
    decreases operators.len(),
{
    if k == operators.len() - 1 {
        certain_detections(operators).len() - 1
    } else {
        lemma_detection_is_there(operators.drop_last(), k)
    }
}

proof fn lemma_first_result(results: Seq<WpResult>, snowflake: u32, j: int)
    requires
        0 <= j < results.len(),
        results[j].snowflake() == snowflake,
    ensures
        0 <= first_result_for(results, snowflake) <= j,
    decreases results.len(),
{
    if results[0].snowflake() != snowflake {
        lemma_first_result(results.drop_first(), snowflake, j - 1);
    }
}

/// The handles that are finished are those of the list behind which nothing is in flight, in
/// the order of the list, each as often as there.
pub proof fn finished_islands_have_nothing_in_flight(slice: SliceView, handles: Seq<u32>)
    ensures
        finished_among(slice, handles) == handles.filter(
            |handle: u32|
                slice.cell(handle) matches CellView::Island(island)
                    && island.active_packets.len() == 0,
        ),
    decreases handles.len(),
{
    reveal(Seq::filter);
    let done = |handle: u32|
        slice.cell(handle) matches CellView::Island(island) && island.active_packets.len() == 0;
    if handles.len() > 0 {
        finished_islands_have_nothing_in_flight(slice, handles.drop_last());
        assert(done(handles.last()) == is_finished(slice.cell(handles.last())));
    } else {
        assert(finished_among(slice, handles) =~= handles.filter(done));
    }
}

/// Each result is stored behind its own handle, and nothing else changes.
pub proof fn results_go_to_their_handles(
    slice: SliceView,
    handles: Seq<u32>,
    results: Seq<CollapseResult>,
    handle: u32,
)
    requires
        slice.wf(),
        handles.len() <= results.len(),
        handles.no_duplicates(),
        forall|i: int| 0 <= i < handles.len() ==> slice.holds(#[trigger] handles[i]),
        slice.holds(handle),
    ensures
        ({
            let after = with_results(slice, handles, results);
            &&& after.indices == slice.indices
            &&& after.retired == slice.retired
            &&& after.moved == slice.moved
            &&& after.cells.len() == slice.cells.len()
            &&& forall|i: int|
                0 <= i < handles.len() && #[trigger] handles[i] == handle ==> (after.cell(
                    handle,
                ) matches CellView::Result(stored, refs) && stored == results[i]@ && refs
                    == results[i].ref_cnt)
            &&& !handles.contains(handle) ==> after.cell(handle) == slice.cell(handle)
        }),
    decreases handles.len(),
{
    if handles.len() > 0 {
        let rest = handles.drop_last();
        assert forall|i: int| 0 <= i < rest.len() implies slice.holds(#[trigger] rest[i]) by {
            assert(rest[i] == handles[i]);
        }
        results_go_to_their_handles(slice, rest, results, handle);
        let last = handles.last();
        let before = with_results(slice, rest, results);
        assert(handles[handles.len() - 1] == last);
        assert(slice.holds(last));
        assert(before.indices[before.place(last)] == last);
        assert(before.indices[before.place(handle)] == handle);
        assert forall|i: int| 0 <= i < handles.len() && #[trigger] handles[i] == handle implies i
            == handles.len() - 1 || rest[i] == handle by {}
        if rest.contains(handle) {
            let i = rest.index_of(handle);
            assert(handles[i] == handle);
        }
    }
}

/// The stand-in reports every detector of an island, and nothing else: as many clicks as there
/// are detectors, in their order, each with the name and time of its detector and the packet
/// that it waits for.
pub proof fn the_stand_in_reports_every_detector(operators: Seq<Operator>)
    ensures
        certain_detections(operators) == operators.filter(
            |operator: Operator| operator is SPD,
        ).map_values(
            |operator: Operator|
                WpResult::Success {
                    time: operator->SPD_time,
                    spd_id: operator->id,
                    wp_snowflake: operator->wp_snowflake,
                },
        ),
    decreases operators.len(),
{
    let is_spd = |operator: Operator| operator is SPD;
    let click = |operator: Operator|
        WpResult::Success {
            time: operator->SPD_time,
            spd_id: operator->id,
            wp_snowflake: operator->wp_snowflake,
        };
    reveal(Seq::filter);
    if operators.len() == 0 {
        assert(certain_detections(operators) =~= operators.filter(is_spd).map_values(click));
    } else {
        let rest = operators.drop_last();
        the_stand_in_reports_every_detector(rest);
        if operators.last() is SPD {
            assert(rest.filter(is_spd).push(operators.last()).map_values(click) =~= rest.filter(
                is_spd,
            ).map_values(click).push(click(operators.last())));
        }
    }
}

} // verus!
