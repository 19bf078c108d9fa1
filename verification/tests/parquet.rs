use photonsim::parquet::channels::{ChannelBuffer, ParquetWorker, TimeTagBatch};
use photonsim::parquet::sort::sort_by_time;
use photonsim::parquet::writer::{
    file_name, TimeTagStreamParquetWriter, WriterState, WriterStep,
};
use photonsim::types::NormalizedTimeTag;

fn tag(channel_id: u16, time_tag_ps: u64) -> NormalizedTimeTag {
    NormalizedTimeTag { channel_id, time_tag_ps }
}

fn batch(end_time: u64, times: &[u64]) -> TimeTagBatch {
    TimeTagBatch { start_time: 0, end_time, batch: times.to_vec() }
}

fn pairs(tags: &[NormalizedTimeTag]) -> Vec<(u16, u64)> {
    tags.iter().map(|t| (t.channel_id, t.time_tag_ps)).collect()
}

#[test]
fn tags_are_sorted_and_equal_times_keep_their_order() {
    let tags = vec![tag(1, 5), tag(2, 3), tag(3, 5), tag(4, 1), tag(5, 3)];
    assert_eq!(pairs(&sort_by_time(&tags)), [(4, 1), (2, 3), (5, 3), (1, 5), (3, 5)]);
    assert!(sort_by_time(&vec![]).is_empty());
}

#[test]
fn a_channel_absorbs_batches() {
    let mut channel = ChannelBuffer::new(7);
    channel.absorb(batch(10, &[1, 2]));
    channel.absorb(batch(20, &[11]));
    assert_eq!(channel.pending, [1, 2, 11]);
    assert_eq!((channel.channel_id, channel.frontier), (7, 20));
}

#[test]
fn only_what_is_final_is_emitted() {
    let mut worker = ParquetWorker::new();
    worker.add_channel(1);
    worker.add_channel(2);
    assert_eq!(worker.channel_count(), 2);
    assert_eq!(worker.youngest_channel(), 0);
    worker.absorb(0, batch(100, &[10, 50, 90]));
    assert_eq!(worker.youngest_channel(), 1);
    // the other channel can still have older tags
    assert!(worker.emit().is_none());
    worker.absorb(1, batch(60, &[20, 50, 60]));
    let first = worker.emit().unwrap();
    assert_eq!(pairs(&first), [(1, 10), (2, 20), (1, 50), (2, 50), (2, 60)]);
    worker.absorb(1, batch(200, &[70, 150]));
    let second = worker.emit().unwrap();
    assert_eq!(pairs(&second), [(2, 70), (1, 90)]);
    // the stream is in order across rounds
    assert!(first.last().unwrap().time_tag_ps <= second[0].time_tag_ps);
    assert_eq!(worker.rx_channels[1].pending, [150]);
}

#[test]
fn chunks_and_files_fill_up() {
    let writer = TimeTagStreamParquetWriter::with_limits(3, 7).unwrap();
    assert_eq!(writer.max_chunk_rows(), 3);
    let mut state = WriterState::new(&writer);
    let steps: Vec<WriterStep> = (0..8).map(|_| writer.add_row(&mut state)).collect();
    assert_eq!(
        steps,
        [
            WriterStep::Collect,
            WriterStep::Collect,
            WriterStep::WriteChunk,
            WriterStep::Collect,
            WriterStep::Collect,
            // a third chunk would not fit
            WriterStep::WriteChunkAndNextFile,
            WriterStep::Collect,
            WriterStep::Collect,
        ]
    );
    assert_eq!(state, WriterState { array_length: 2, chunk_count: 0, total_files: 2 });
    assert!(state.has_remaining());
    assert!(!WriterState::new(&writer).has_remaining());
    assert!(TimeTagStreamParquetWriter::with_limits(0, 7).is_none());
    assert!(TimeTagStreamParquetWriter::with_limits(8, 7).is_none());
}

#[test]
fn the_usual_limits() {
    assert_eq!(TimeTagStreamParquetWriter::new().max_chunk_rows(), 20_000_000);
    let writer = TimeTagStreamParquetWriter::default();
    assert_eq!(writer.max_chunk_rows(), 20_000_000);
    let mut state = WriterState { array_length: 19_999_999, chunk_count: 9, total_files: 1 };
    assert_eq!(writer.add_row(&mut state), WriterStep::WriteChunkAndNextFile);
    let mut state = WriterState { array_length: 19_999_999, chunk_count: 8, total_files: 1 };
    assert_eq!(writer.add_row(&mut state), WriterStep::WriteChunk);
}

#[test]
fn files_are_numbered() {
    assert_eq!(file_name("20260101T000000Z", "hom", 1), "20260101T000000Z_hom_0001.parquet");
    assert_eq!(file_name("t", "n", 42), "t_n_0042.parquet");
    assert_eq!(file_name("t", "n", 999), "t_n_0999.parquet");
    assert_eq!(file_name("t", "n", 1000), "t_n_1000.parquet");
    assert_eq!(file_name("t", "n", 123_456), "t_n_123456.parquet");
}
