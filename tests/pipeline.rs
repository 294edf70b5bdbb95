use flowline::channel::{BoundedChannel, Received, SendOutcome};
use flowline::pipeline::{run_pipeline_model, IngestOrder, PipelineConfig, RunOutcome};
use flowline::record::{check_completeness, compute_checksum, do_work, validate_batch, Record};
use flowline::stage::{collect, ingest, needs_retry, transform, will_come_back, Route, MAX_RETRY_STAGE};

fn config(n: u32, feedback: usize, order: IngestOrder) -> PipelineConfig {
    PipelineConfig {
        num_records: n,
        input_capacity: 5,
        forward_capacity: 5,
        output_capacity: 5,
        feedback_capacity: feedback,
        order,
    }
}

fn byte_sum(s: &str) -> u32 {
    s.bytes().map(|b| b as u32).sum()
}

#[test]
fn scenario_a_interleaved_run_completes() {
    match run_pipeline_model(&config(500, 5, IngestOrder::Interleaved), 1_000_000) {
        RunOutcome::Completed(records) => {
            assert_eq!(records.len(), 500);
            let (missing, duplicates) = check_completeness(&records, 500);
            assert!(missing.is_empty());
            assert!(duplicates.is_empty());
            let (valid, invalid) = validate_batch(&records);
            assert_eq!(valid, 500);
            assert!(invalid.is_empty());
            for r in &records {
                if r.id % 10 == 0 {
                    assert_eq!(r.retry_count, 1);
                    assert_eq!(r.stage, 4);
                } else {
                    assert_eq!(r.retry_count, 0);
                    assert_eq!(r.stage, 2);
                }
            }
        }
        _ => panic!("the interleaved pipeline must complete"),
    }
}

#[test]
fn scenario_b_primary_first_deadlocks() {
    let outcome = run_pipeline_model(&config(500, 5, IngestOrder::PrimaryFirst), 1_000_000);
    assert!(matches!(outcome, RunOutcome::Deadlocked));
}

#[test]
fn primary_first_completes_with_large_feedback_channel() {
    match run_pipeline_model(&config(500, 64, IngestOrder::PrimaryFirst), 1_000_000) {
        RunOutcome::Completed(records) => {
            let (missing, duplicates) = check_completeness(&records, 500);
            assert!(missing.is_empty() && duplicates.is_empty());
        }
        _ => panic!("a feedback channel that holds every retried record cannot block"),
    }
}

#[test]
fn watchdog_fires_when_rounds_run_out() {
    let outcome = run_pipeline_model(&config(500, 5, IngestOrder::Interleaved), 10);
    assert!(matches!(outcome, RunOutcome::TimedOut));
}

#[test]
fn empty_run_completes_with_nothing() {
    match run_pipeline_model(&config(0, 1, IngestOrder::Interleaved), 100) {
        RunOutcome::Completed(records) => assert!(records.is_empty()),
        _ => panic!("an empty run must complete"),
    }
}

#[test]
fn small_capacities_still_complete_when_interleaved() {
    let cfg = PipelineConfig {
        num_records: 50,
        input_capacity: 1,
        forward_capacity: 1,
        output_capacity: 1,
        feedback_capacity: 1,
        order: IngestOrder::Interleaved,
    };
    match run_pipeline_model(&cfg, 100_000) {
        RunOutcome::Completed(records) => {
            assert_eq!(records.len(), 50);
            let (missing, duplicates) = check_completeness(&records, 50);
            assert!(missing.is_empty() && duplicates.is_empty());
        }
        _ => panic!("expected completion"),
    }
}

#[test]
fn scenario_c_retry_cap() {
    let mut r = Record::new(10);
    let mut feedback_passes = 0;
    let mut from_feedback = false;
    loop {
        let before = r.stage;
        ingest(&mut r, from_feedback);
        assert_eq!(r.stage, before + 1);
        let route = transform(&mut r);
        assert_eq!(r.stage, before + 2);
        if route == Route::Forward {
            break;
        }
        feedback_passes += 1;
        from_feedback = true;
    }
    assert!(feedback_passes <= MAX_RETRY_STAGE);
    assert_eq!(feedback_passes, 1);
    assert_eq!(r.stage, MAX_RETRY_STAGE);
    assert_eq!(r.retry_count, 1);
}

#[test]
fn forwarded_unconditionally_at_cap() {
    let mut r = Record::new(20);
    r.stage = MAX_RETRY_STAGE - 1;
    assert_eq!(transform(&mut r), Route::Forward);
    assert_eq!(r.stage, MAX_RETRY_STAGE);
    assert!(!needs_retry(&r));
    let mut early = Record::new(20);
    assert_eq!(transform(&mut early), Route::Feedback);
    let mut other = Record::new(21);
    assert_eq!(transform(&mut other), Route::Forward);
}

#[test]
fn will_come_back_predicts_routing() {
    let mut r = Record::new(30);
    ingest(&mut r, false);
    assert!(will_come_back(&r));
    assert_eq!(transform(&mut r), Route::Feedback);
    ingest(&mut r, true);
    assert!(!will_come_back(&r));
    assert_eq!(transform(&mut r), Route::Forward);
}

#[test]
fn new_record_payload_and_checksum() {
    let r = Record::new(7);
    assert_eq!(r.payload, "data-0007");
    assert_eq!(r.checksum, byte_sum("data-0007"));
    assert_eq!(r.stage, 0);
    assert_eq!(r.retry_count, 0);
    assert!(r.verify());
    assert_eq!(Record::new(123456).payload, "data-123456");
}

#[test]
fn do_work_appends_marker() {
    let mut r = Record::new(12);
    do_work(&mut r, "stage1");
    assert_eq!(r.payload, "data-0012 [stage1:s0:r0]");
    assert_eq!(r.stage, 1);
    assert_eq!(r.checksum, byte_sum("data-0012 [stage1:s0:r0]"));
    assert!(r.verify());
    r.mark_retry();
    do_work(&mut r, "stage1-redo");
    assert_eq!(r.payload, "data-0012 [stage1:s0:r0] [stage1-redo:s1:r1]");
}

#[test]
fn checksum_is_byte_sum() {
    assert_eq!(compute_checksum(""), 0);
    assert_eq!(compute_checksum("a"), 97);
    assert_eq!(compute_checksum("é"), 0xC3 + 0xA9);
    assert_eq!(compute_checksum("ab"), compute_checksum("ba"));
}

#[test]
fn advance_and_mark_retry() {
    let mut r = Record::new(1);
    r.advance();
    r.advance();
    r.mark_retry();
    assert_eq!(r.stage, 2);
    assert_eq!(r.retry_count, 1);
    assert_eq!(r.payload, "data-0001");
}

#[test]
fn validate_batch_reports_corrupt_ids() {
    let good = Record::new(1);
    let mut bad = Record::new(2);
    bad.payload.push('!');
    let mut also_bad = Record::new(3);
    also_bad.checksum = also_bad.checksum.wrapping_add(1);
    let (valid, invalid) = validate_batch(&[good, bad, also_bad]);
    assert_eq!(valid, 1);
    assert_eq!(invalid, vec![2, 3]);
}

#[test]
fn completeness_reports_missing_and_duplicates() {
    let records = vec![Record::new(1), Record::new(3), Record::new(3), Record::new(9), Record::new(4)];
    let (missing, duplicates) = check_completeness(&records, 5);
    assert_eq!(missing, vec![2, 5]);
    assert_eq!(duplicates, vec![3]);
    let (missing, duplicates) = check_completeness(&[], 0);
    assert!(missing.is_empty() && duplicates.is_empty());
}

#[test]
fn collect_checks_integrity() {
    let mut results = Vec::new();
    let mut bad = Record::new(5);
    bad.checksum = 0;
    assert!(collect(&mut results, Record::new(4)));
    assert!(!collect(&mut results, bad));
    assert_eq!(results.len(), 2);
}

#[test]
fn channel_is_fifo_bounded_and_closable() {
    let mut ch: BoundedChannel<u32> = BoundedChannel::new(2);
    assert!(matches!(ch.try_receive(), Received::Empty));
    assert!(matches!(ch.try_send(1), SendOutcome::Sent));
    assert!(matches!(ch.try_send(2), SendOutcome::Sent));
    assert!(ch.is_full());
    assert!(matches!(ch.try_send(3), SendOutcome::Full(3)));
    ch.close();
    ch.close();
    assert!(matches!(ch.try_send(4), SendOutcome::Closed(4)));
    assert!(matches!(ch.try_receive(), Received::Item(1)));
    assert!(matches!(ch.try_receive(), Received::Item(2)));
    assert!(matches!(ch.try_receive(), Received::Closed));
    assert_eq!(ch.len(), 0);
    assert_eq!(ch.capacity(), 2);
    assert!(ch.is_closed());
}

#[test]
fn interleaved_with_feedback_for_every_record_never_deadlocks() {
    for n in [1u32, 10, 37, 120] {
        let cfg = PipelineConfig {
            num_records: n,
            input_capacity: 1,
            forward_capacity: 2,
            output_capacity: 1,
            feedback_capacity: n as usize,
            order: IngestOrder::Interleaved,
        };
        match run_pipeline_model(&cfg, 10 * n as u64 + 5) {
            RunOutcome::Completed(records) => assert_eq!(records.len(), n as usize),
            _ => panic!("expected completion for {}", n),
        }
    }
}

#[test]
fn default_config_values() {
    let cfg = PipelineConfig::default();
    assert_eq!(cfg.num_records, 500);
    assert_eq!(cfg.feedback_capacity, 5);
    assert_eq!(cfg.order, IngestOrder::Interleaved);
}

#[test]
fn scenarios_within_the_stated_round_budget() {
    let budget = 10 * 500 + 5;
    match run_pipeline_model(&config(500, 5, IngestOrder::Interleaved), budget) {
        RunOutcome::Completed(records) => {
            assert_eq!(records.len(), 500);
            let ten = records.iter().filter(|r| r.id == 10).collect::<Vec<_>>();
            assert_eq!(ten.len(), 1);
            assert_eq!((ten[0].stage, ten[0].retry_count), (4, 1));
        }
        _ => panic!("interleaved run must complete within the budget"),
    }
    let outcome = run_pipeline_model(&config(500, 5, IngestOrder::PrimaryFirst), budget);
    assert!(matches!(outcome, RunOutcome::Deadlocked));
}
