use fanout_ring::buf4k::BLOCK_SIZE;
use fanout_ring::pipeline::Pipeline;

/// Deterministic chunk content: byte `i` of chunk `c`.
fn chunk_byte(c: usize, i: usize) -> u8 {
    ((c * 31 + i * 7) % 256) as u8
}

fn make_source(chunks: usize, blocks_per_chunk: usize) -> Vec<Vec<u8>> {
    let mut source = Vec::new();
    for c in 0..chunks {
        let mut chunk = Vec::new();
        for i in 0..blocks_per_chunk * BLOCK_SIZE {
            chunk.push(chunk_byte(c, i));
        }
        source.push(chunk);
    }
    source
}

fn concat(source: &[Vec<u8>]) -> Vec<u8> {
    let mut all = Vec::new();
    for chunk in source {
        all.extend_from_slice(chunk);
    }
    all
}

#[test]
fn run_round_trips_every_destination() {
    let source = make_source(5, 1);
    let expected = concat(&source);
    let mut p = Pipeline::new(source, 3, 2, 1);
    p.run();
    assert!(p.is_done());
    assert_eq!(p.output_bytes(0), &expected);
    assert_eq!(p.output_bytes(1), &expected);
}

#[test]
fn scenario_two_slots_three_destinations() {
    // Source of four deterministic chunks, two ring slots, three consumers,
    // driven under a deliberately uneven schedule: every destination must
    // still end up with exactly the whole stream, in order.
    let source = make_source(4, 1);
    let expected = concat(&source);
    let mut p = Pipeline::new(source, 2, 3, 1);

    // Uneven interleaving: consumer 2 lags, consumer 0 races ahead; steps
    // that are not enabled return false and change nothing.
    let schedule: [usize; 24] = [
        9, 0, 0, 9, 1, 9, 0, 9, 1, 2, 2, 9, 0, 1, 9, 2, 0, 1, 2, 9, 0, 1, 2, 2,
    ];
    for &who in schedule.iter() {
        if who == 9 {
            p.producer_step();
        } else {
            p.consumer_step(who);
        }
    }
    // Finish whatever the fixed schedule left undone.
    while !p.is_done() {
        let mut moved = p.producer_step();
        for j in 0..3 {
            moved |= p.consumer_step(j);
        }
        assert!(moved, "pipeline stalled although not done");
    }
    for j in 0..3 {
        assert_eq!(p.drained_count(j), 4);
        assert_eq!(p.output_bytes(j), &expected);
    }
}

#[test]
fn destinations_agree_at_equal_progress() {
    let source = make_source(3, 1);
    let mut p = Pipeline::new(source, 2, 2, 1);
    p.producer_step();
    p.producer_step();
    // Both consumers drain one chunk by different routes.
    assert!(p.consumer_step(0));
    assert!(p.consumer_step(1));
    assert_eq!(p.drained_count(0), p.drained_count(1));
    assert_eq!(p.output_bytes(0), p.output_bytes(1));
}

#[test]
fn single_slot_single_consumer_alternates_strictly() {
    let source = make_source(3, 1);
    let expected = concat(&source);
    let mut p = Pipeline::new(source, 1, 1, 1);
    for _ in 0..3 {
        assert!(p.producer_step());
        // The single slot is full and undrained: the producer must stall.
        assert!(!p.producer_step());
        assert!(p.consumer_step(0));
        // Nothing left to drain until the next fill.
        assert!(!p.consumer_step(0));
    }
    assert!(p.is_done());
    assert_eq!(p.output_bytes(0), &expected);
}

#[test]
fn blocked_consumer_stalls_producer_after_ring_fills() {
    // One consumer that never drains: the producer fills each of the two
    // ring slots once, then must stall rather than drop or overwrite data.
    let source = make_source(4, 1);
    let expected = concat(&source);
    let mut p = Pipeline::new(source, 2, 1, 1);
    assert!(p.producer_step());
    assert!(p.producer_step());
    assert!(!p.producer_step());
    assert!(!p.producer_step());
    assert_eq!(p.produced_count(), 2);
    // The consumer wakes up: draining frees one slot and only then can the
    // producer go on; no chunk was skipped meanwhile.
    assert!(p.consumer_step(0));
    assert!(p.producer_step());
    assert!(!p.producer_step());
    while !p.is_done() {
        let mut moved = p.producer_step();
        moved |= p.consumer_step(0);
        assert!(moved, "pipeline stalled although not done");
    }
    assert_eq!(p.output_bytes(0), &expected);
}

#[test]
fn consumer_reads_the_fill_it_was_due() {
    // The producer runs two fills ahead; the consumer still receives chunk 0
    // first, untouched by the later fill of the other slot.
    let source = make_source(3, 1);
    let mut p = Pipeline::new(source, 2, 1, 1);
    assert!(p.producer_step());
    assert!(p.producer_step());
    assert!(p.consumer_step(0));
    let out = p.output_bytes(0);
    assert_eq!(out.len(), BLOCK_SIZE);
    for i in 0..BLOCK_SIZE {
        assert_eq!(out[i], chunk_byte(0, i));
    }
}

#[test]
fn done_only_after_every_destination_drains_the_last_chunk() {
    let source = make_source(2, 1);
    let mut p = Pipeline::new(source, 2, 2, 1);
    while p.produced_count() < 2 {
        let mut moved = p.producer_step();
        moved |= p.consumer_step(0);
        assert!(moved);
    }
    // Consumer 0 finishes; consumer 1 has not drained the final chunk yet.
    while p.drained_count(0) < 2 {
        assert!(p.consumer_step(0));
    }
    assert!(!p.is_done());
    while p.drained_count(1) < 2 {
        assert!(p.consumer_step(1));
    }
    assert!(p.is_done());
}

#[test]
fn empty_source_is_done_at_once() {
    let source: Vec<Vec<u8>> = Vec::new();
    let mut p = Pipeline::new(source, 4, 2, 1);
    assert!(p.is_done());
    assert!(!p.producer_step());
    assert!(!p.consumer_step(0));
    assert!(!p.consumer_step(1));
    p.run();
    assert!(p.is_done());
    assert_eq!(p.output_bytes(0).len(), 0);
    assert_eq!(p.output_bytes(1).len(), 0);
}

#[test]
fn run_matches_manual_schedule() {
    let source = make_source(6, 1);
    let expected = concat(&source);
    let mut p = Pipeline::new(source, 4, 3, 1);
    p.run();
    assert!(p.is_done());
    for j in 0..3 {
        assert_eq!(p.output_bytes(j), &expected);
    }
}
