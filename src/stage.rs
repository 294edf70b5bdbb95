use vstd::prelude::*;

use crate::record::{do_work, marker, Record};

verus! {

/// The stage counter from which a record is always forwarded, never fed back.
pub const MAX_RETRY_STAGE: u32 = 4;

/// Retry predicate of the transformation stage, applied after its own step.
pub open spec fn qualifies_for_retry(id: u32, stage: u32) -> bool {
    id % 10 == 0 && stage < MAX_RETRY_STAGE
}

/// Where the transformation stage sends a record.
#[derive(Debug, Clone, Copy, PartialEq, Eq, Structural)]
pub enum Route {
    /// On to the collection stage.
    Forward,
    /// Back to the ingestion stage for another pass.
    Feedback,
}

/// Whether `record` goes back through the feedback path.
pub fn needs_retry(record: &Record) -> (r: bool)
    ensures
        r == qualifies_for_retry(record.id, record.stage),
{
    record.id % 10 == 0 && record.stage < MAX_RETRY_STAGE
}

/// Whether a record that leaves the ingestion stage with this id and stage
/// will come back on the feedback path.
pub open spec fn comes_back(id: u32, stage: u32) -> bool {
    stage < u32::MAX && qualifies_for_retry(id, (stage + 1) as u32)
}

pub fn will_come_back(record: &Record) -> (r: bool)
    ensures
        r == comes_back(record.id, record.stage),
{
    record.stage < u32::MAX && record.id % 10 == 0 && record.stage + 1 < MAX_RETRY_STAGE
}

/// The ingestion stage's step on one record. A record that arrives on the
/// feedback path first has its retry count bumped.
pub fn ingest(record: &mut Record, from_feedback: bool)
    requires
        old(record).stage < u32::MAX,
        from_feedback ==> old(record).retry_count < u32::MAX,
    ensures
        final(record).id == old(record).id,
        final(record).stage == old(record).stage + 1,
        final(record).retry_count == old(record).retry_count + if from_feedback { 1int } else { 0 },
        final(record).payload@ == old(record).payload@ + marker(
            if from_feedback { "stage1-redo"@ } else { "stage1"@ },
            old(record).stage,
            final(record).retry_count,
        ),
        final(record).intact(),
{
    if from_feedback {
        record.mark_retry();
        do_work(record, "stage1-redo");
    } else {
        do_work(record, "stage1");
    }
}

/// The transformation stage's step on one record, and where it goes next.
pub fn transform(record: &mut Record) -> (r: Route)
    requires
        old(record).stage < u32::MAX,
    ensures
        final(record).id == old(record).id,
        final(record).stage == old(record).stage + 1,
        final(record).retry_count == old(record).retry_count,
        final(record).payload@ == old(record).payload@ + marker(
            "stage2"@,
            old(record).stage,
            old(record).retry_count,
        ),
        final(record).intact(),
        r == (if qualifies_for_retry(final(record).id, final(record).stage) {
            Route::Feedback
        } else {
            Route::Forward
        }),
{
    do_work(record, "stage2");
    if needs_retry(record) {
        Route::Feedback
    } else {
        Route::Forward
    }
}

/// The collection stage's step on one record: check its integrity, then
/// append it to the results. Returns whether it was intact.
pub fn collect(results: &mut Vec<Record>, record: Record) -> (r: bool)
    ensures
        final(results)@ == old(results)@.push(record),
        r == record.intact(),
{
    let ok = record.verify();
    results.push(record);
    ok
}

/// How many more times a record goes round the feedback path once the
/// transformation stage has given it stage counter `s`: it goes back while
/// the retry predicate holds, and each pass adds one ingestion and one
/// transformation step.
pub open spec fn passes(id: u32, s: nat) -> nat
    decreases MAX_RETRY_STAGE + 2 - s,
{
    if s < MAX_RETRY_STAGE && id % 10 == 0 {
        1 + passes(id, s + 2)
    } else {
        0
    }
}

/// Once its stage counter has reached `MAX_RETRY_STAGE`, a record is always
/// forwarded; and a record whose id is not a multiple of ten never goes back.
pub proof fn lemma_forwarded_at_cap(id: u32, stage: u32)
    ensures
        stage >= MAX_RETRY_STAGE ==> !qualifies_for_retry(id, stage),
        id % 10 != 0 ==> !qualifies_for_retry(id, stage),
{
}

/// A record goes round the feedback path at most `MAX_RETRY_STAGE` times,
/// and then reaches the collection stage: the number of passes is finite
/// and bounded, never more than `(MAX_RETRY_STAGE - s + 1) / 2`; a record
/// whose id is not a multiple of ten, or whose stage counter has reached
/// the cap, never goes back.
pub proof fn lemma_retry_bound(id: u32, s: nat)
    ensures
        passes(id, s) <= MAX_RETRY_STAGE,
        2 * passes(id, s) <= MAX_RETRY_STAGE + 1 - s || passes(id, s) == 0,
        id % 10 != 0 ==> passes(id, s) == 0,
        s >= MAX_RETRY_STAGE ==> passes(id, s) == 0,
    decreases MAX_RETRY_STAGE + 2 - s,
{
    if s < MAX_RETRY_STAGE && id % 10 == 0 {
        lemma_retry_bound(id, s + 2);
    }
}

} // verus!
