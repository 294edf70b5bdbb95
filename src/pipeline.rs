use vstd::prelude::*;

use crate::channel::{BoundedChannel, Received, SendOutcome};
use crate::record::{
    marker, duplicate_ids, id_count, ids_where, intact_count, corrupt_ids, missing_ids, Record,
};
use crate::stage::{
    collect, comes_back, ingest, passes, qualifies_for_retry, transform, will_come_back, Route, MAX_RETRY_STAGE,
};

verus! {

/// How the ingestion stage chooses between its two inputs.
#[derive(Debug, Clone, Copy, PartialEq, Eq, Structural)]
pub enum IngestOrder {
    /// Take a fed-back record whenever one is waiting, else a primary one.
    Interleaved,
    /// Drain the primary input to its end before reading feedback at all.
    PrimaryFirst,
}

/// The four parties of a run.
#[derive(Debug, Clone, Copy, PartialEq, Eq, Structural)]
pub enum Stage {
    Producer,
    Ingestion,
    Transformation,
    Collection,
}

/// Channel capacities, record count and ingestion order of one run.
#[derive(Debug, Clone, Copy)]
pub struct PipelineConfig {
    pub num_records: u32,
    pub input_capacity: usize,
    pub forward_capacity: usize,
    pub output_capacity: usize,
    pub feedback_capacity: usize,
    pub order: IngestOrder,
}

/// Records pushed through a run unless configured otherwise.
pub const NUM_RECORDS: u32 = 500;

/// Capacity of every channel unless configured otherwise.
pub const CHANNEL_BOUND: usize = 5;

impl Default for PipelineConfig {
    /// `NUM_RECORDS` records, every channel `CHANNEL_BOUND` slots, interleaved ingestion.
    fn default() -> (r: PipelineConfig)
        ensures
            r == (PipelineConfig {
                num_records: NUM_RECORDS,
                input_capacity: CHANNEL_BOUND,
                forward_capacity: CHANNEL_BOUND,
                output_capacity: CHANNEL_BOUND,
                feedback_capacity: CHANNEL_BOUND,
                order: IngestOrder::Interleaved,
            }),
    {
        PipelineConfig {
            num_records: NUM_RECORDS,
            input_capacity: CHANNEL_BOUND,
            forward_capacity: CHANNEL_BOUND,
            output_capacity: CHANNEL_BOUND,
            feedback_capacity: CHANNEL_BOUND,
            order: IngestOrder::Interleaved,
        }
    }
}

impl PipelineConfig {
    pub open spec fn valid(&self) -> bool {
        &&& self.input_capacity >= 1
        &&& self.forward_capacity >= 1
        &&& self.output_capacity >= 1
        &&& self.feedback_capacity >= 1
    }
}

/// The three terminal outcomes of a run, and the deadlock that a stepwise
/// run can see directly.
pub enum RunOutcome {
    /// Every stage finished; the records in collection order.
    Completed(Vec<Record>),
    /// No stage could move: each waits on a channel that will never change.
    Deadlocked,
    /// The watchdog's round budget ran out first.
    TimedOut,
    /// A stage met a channel in a state it cannot handle.
    StageFailed,
}

/// Records fresh from the producer: nothing done to them yet.
pub open spec fn all_fresh(s: Seq<Record>) -> bool {
    forall|i: int|
        #![trigger s[i]]
        0 <= i < s.len() ==> s[i].stage == 0 && s[i].retry_count == 0 && s[i].intact()
}

/// Intact records whose stage counter is at most `max` and at least their
/// retry count.
pub open spec fn all_within(s: Seq<Record>, max: u32) -> bool {
    forall|i: int|
        #![trigger s[i]]
        0 <= i < s.len() ==> s[i].stage <= max && s[i].retry_count <= s[i].stage && s[i].intact()
}

pub open spec fn all_intact(s: Seq<Record>) -> bool {
    forall|i: int| #![trigger s[i]] 0 <= i < s.len() ==> s[i].intact()
}

/// The stage counter and retry count a record has at each point of its
/// way: `Ingested` after an ingestion step, `Transformed` after a
/// transformation step, `Returning` on the feedback path, `Finished` once
/// forwarded to collection. One ingestion and one transformation step per
/// pass; only ids that are multiples of ten pass twice.
pub open spec fn shaped(r: Record, at: Shape) -> bool {
    let once_more = r.retry_count == 0 || (r.retry_count == 1 && r.id % 10 == 0);
    match at {
        Shape::Ingested => r.stage == 2 * r.retry_count + 1 && once_more,
        Shape::Transformed => r.stage == 2 * r.retry_count + 2 && once_more,
        Shape::Returning => r.stage == 2 && r.retry_count == 0 && r.id % 10 == 0,
        Shape::Finished => r.stage == 2 * (r.retry_count + 1) && r.retry_count == if r.id % 10 == 0 {
            1int
        } else {
            0
        },
    }
}

/// The points of a record's way that `shaped` describes.
pub ghost enum Shape {
    Ingested,
    Transformed,
    Returning,
    Finished,
}

pub open spec fn all_shaped(s: Seq<Record>, at: Shape) -> bool {
    forall|i: int| #![trigger s[i]] 0 <= i < s.len() ==> shaped(s[i], at)
}

/// `n` is what the ingestion step makes of `r`; `fed_back` when `r` came
/// round the feedback path.
pub open spec fn ingested_from(n: Record, r: Record, fed_back: bool) -> bool {
    &&& n.id == r.id
    &&& n.stage == r.stage + 1
    &&& n.retry_count == r.retry_count + if fed_back { 1int } else { 0 }
    &&& n.payload@ == r.payload@ + marker(
        if fed_back { "stage1-redo"@ } else { "stage1"@ },
        r.stage,
        n.retry_count,
    )
    &&& n.intact()
}

/// `n` is what the transformation step makes of `r`.
pub open spec fn transformed_from(n: Record, r: Record) -> bool {
    &&& n.id == r.id
    &&& n.stage == r.stage + 1
    &&& n.retry_count == r.retry_count
    &&& n.payload@ == r.payload@ + marker("stage2"@, r.stage, r.retry_count)
    &&& n.intact()
}

/// The route the transformation stage gives a record it has transformed.
pub open spec fn route_of(r: Record) -> Route {
    if qualifies_for_retry(r.id, r.stage) {
        Route::Feedback
    } else {
        Route::Forward
    }
}

/// No record of `s` has an id that is a multiple of ten.
pub open spec fn no_tens(s: Seq<Record>) -> bool {
    forall|i: int| #![trigger s[i]] 0 <= i < s.len() ==> s[i].id % 10 != 0
}

/// No record of `s` has been round the feedback path.
pub open spec fn first_pass(s: Seq<Record>) -> bool {
    forall|i: int| #![trigger s[i]] 0 <= i < s.len() ==> s[i].retry_count == 0
}

/// Whether `x` is one of `10, 20, ..., 10 * k`, as a count.
pub open spec fn tens_in(x: u32, k: nat) -> nat
    decreases k,
{
    if k == 0 {
        0
    } else {
        tens_in(x, (k - 1) as nat) + if x as int == 10 * k { 1nat } else { 0nat }
    }
}

/// Copies in `s` of the ids `10, 20, ..., 10 * k`.
pub open spec fn tens_count(s: Seq<Record>, k: nat) -> nat
    decreases k,
{
    if k == 0 {
        0
    } else {
        tens_count(s, (k - 1) as nat) + id_count(s, (10 * k) as u32)
    }
}

proof fn lemma_tens_in(x: u32, k: nat)
    ensures
        tens_in(x, k) == if x % 10 == 0 && 1 <= x / 10 <= k { 1nat } else { 0nat },
    decreases k,
{
    if k > 0 {
        lemma_tens_in(x, (k - 1) as nat);
    }
}

proof fn lemma_tens_push(s: Seq<Record>, r: Record, k: nat)
    requires
        10 * k <= u32::MAX,
    ensures
        tens_count(s.push(r), k) == tens_count(s, k) + tens_in(r.id, k),
    decreases k,
{
    if k > 0 {
        lemma_tens_push(s, r, (k - 1) as nat);
        lemma_id_count_push(s, r, (10 * k) as u32);
    }
}

proof fn lemma_tens_le(s: Seq<Record>, k: nat)
    requires
        10 * k <= u32::MAX,
    ensures
        tens_count(s, k) <= s.len(),
    decreases s.len(),
{
    if s.len() == 0 {
        lemma_tens_zero(s, k);
    } else {
        lemma_tens_le(s.drop_last(), k);
        lemma_tens_push(s.drop_last(), s.last(), k);
        lemma_tens_in(s.last().id, k);
        assert(s.drop_last().push(s.last()) == s);
    }
}

proof fn lemma_tens_zero(s: Seq<Record>, k: nat)
    requires
        s.len() == 0,
    ensures
        tens_count(s, k) == 0,
    decreases k,
{
    if k > 0 {
        lemma_tens_zero(s, (k - 1) as nat);
    }
}

proof fn lemma_tens_ge(s: Seq<Record>, k: nat)
    requires
        forall|i: nat| 1 <= i <= k ==> #[trigger] id_count(s, (10 * i) as u32) >= 1,
    ensures
        tens_count(s, k) >= k,
    decreases k,
{
    if k > 0 {
        assert(id_count(s, (10 * k) as u32) >= 1);
        lemma_tens_ge(s, (k - 1) as nat);
    }
}

proof fn lemma_no_tens_count(s: Seq<Record>, j: u32)
    requires
        no_tens(s),
        j % 10 == 0,
    ensures
        id_count(s, j) == 0,
    decreases s.len(),
{
    if s.len() > 0 {
        assert(s.drop_last().len() < s.len());
        assert forall|i: int| 0 <= i < s.drop_last().len() implies #[trigger] s.drop_last()[i].id % 10 != 0 by {
            assert(s.drop_last()[i] == s[i]);
        }
        lemma_no_tens_count(s.drop_last(), j);
        assert(s.last() == s[s.len() - 1]);
    }
}

/// How many held records carry `id` (zero or one).
pub open spec fn held_count(h: Option<Record>, id: u32) -> nat {
    match h {
        Some(r) => if r.id == id { 1 } else { 0 },
        None => 0,
    }
}

pub open spec fn routed_count(h: Option<(Record, Route)>, id: u32) -> nat {
    match h {
        Some(p) => if p.0.id == id { 1 } else { 0 },
        None => 0,
    }
}

/// A count taken from the front equals one taken from the back.
pub proof fn lemma_id_count_front(s: Seq<Record>, id: u32)
    requires
        s.len() > 0,
    ensures
        id_count(s, id) == id_count(s.drop_first(), id) + if s[0].id == id { 1nat } else { 0nat },
    decreases s.len(),
{
    if s.len() > 1 {
        lemma_id_count_front(s.drop_last(), id);
        assert(s.drop_last().drop_first() == s.drop_first().drop_last());
        assert(s.drop_first().last() == s.last());
        assert(s.drop_last()[0] == s[0]);
    } else {
        assert(s.drop_first().len() == 0);
        assert(s.drop_last().len() == 0);
        assert(id_count(s.drop_first(), id) == 0);
        assert(id_count(s.drop_last(), id) == 0);
        assert(s.last() == s[0]);
    }
}

pub proof fn lemma_id_count_push(s: Seq<Record>, r: Record, id: u32)
    ensures
        id_count(s.push(r), id) == id_count(s, id) + if r.id == id { 1nat } else { 0nat },
{
    assert(s.push(r).drop_last() == s);
}

/// When every id in `1..=k` occurs exactly once, none is missing and none
/// is duplicated.
pub proof fn lemma_exactly_once(s: Seq<Record>, k: nat)
    requires
        k <= u32::MAX,
        forall|j: u32| 1 <= j <= k ==> #[trigger] id_count(s, j) == 1,
    ensures
        ids_where(s, k, false) == Seq::<u32>::empty(),
        ids_where(s, k, true) == Seq::<u32>::empty(),
    decreases k,
{
    if k > 0 {
        assert(id_count(s, k as u32) == 1);
        lemma_exactly_once(s, (k - 1) as nat);
    }
}

/// How many records of `s` the transformation stage will send back.
pub open spec fn back_count(s: Seq<Record>) -> nat
    decreases s.len(),
{
    if s.len() == 0 {
        0
    } else {
        back_count(s.drop_last()) + if comes_back(s.last().id, s.last().stage) { 1nat } else { 0nat }
    }
}

pub proof fn lemma_back_count_front(s: Seq<Record>)
    requires
        s.len() > 0,
    ensures
        back_count(s) == back_count(s.drop_first()) + if comes_back(s[0].id, s[0].stage) { 1nat } else { 0nat },
    decreases s.len(),
{
    if s.len() > 1 {
        lemma_back_count_front(s.drop_last());
        assert(s.drop_last().drop_first() == s.drop_first().drop_last());
        assert(s.drop_first().last() == s.last());
        assert(s.drop_last()[0] == s[0]);
    } else {
        assert(back_count(s.drop_first()) == 0);
        assert(back_count(s.drop_last()) == 0);
        assert(s.last() == s[0]);
    }
}

pub proof fn lemma_back_count_bound(s: Seq<Record>)
    ensures
        back_count(s) <= s.len(),
    decreases s.len(),
{
    if s.len() > 0 {
        lemma_back_count_bound(s.drop_last());
    }
}

pub proof fn lemma_id_count_concat(a: Seq<Record>, b: Seq<Record>, id: u32)
    ensures
        id_count(a + b, id) == id_count(a, id) + id_count(b, id),
    decreases b.len(),
{
    if b.len() == 0 {
        assert(a + b == a);
    } else {
        lemma_id_count_concat(a, b.drop_last(), id);
        assert((a + b).drop_last() == a + b.drop_last());
        assert((a + b).last() == b.last());
    }
}

/// A record of `s` is counted in `id_count` under its own id.
pub proof fn lemma_id_count_member(s: Seq<Record>, i: int)
    requires
        0 <= i < s.len(),
    ensures
        id_count(s, s[i].id) >= 1,
    decreases s.len(),
{
    if i < s.len() - 1 {
        lemma_id_count_member(s.drop_last(), i);
        assert(s.drop_last()[i] == s[i]);
    }
}

/// Records whose ids are distinct and within `1..=n` number at most `n`.
pub proof fn lemma_ids_bounded(s: Seq<Record>, n: nat)
    requires
        forall|id: u32| #[trigger] id_count(s, id) <= 1,
        forall|i: int| 0 <= i < s.len() ==> 1 <= #[trigger] s[i].id <= n,
    ensures
        s.len() <= n,
{
    let ids = Seq::new(s.len(), |i: int| (s[i].id - 1) as usize);
    assert(ids.no_duplicates()) by {
        assert forall|i: int, j: int| 0 <= i < ids.len() && 0 <= j < ids.len() && i != j implies ids[i] != ids[j] by {
            if s[i].id == s[j].id {
                let (lo, hi) = if i < j { (i, j) } else { (j, i) };
                let t = s.take(hi + 1);
                lemma_id_count_member(s.take(hi), lo);
                assert(s.take(hi)[lo] == s[lo]);
                assert(t.drop_last() == s.take(hi));
                assert(t.last() == s[hi]);
                lemma_id_count_concat(t, s.skip(hi + 1), s[i].id);
                assert(t + s.skip(hi + 1) == s);
            }
        }
    }
    assert forall|i: int| 0 <= i < ids.len() implies #[trigger] ids[i] < n by {}
    crate::lru::lemma_distinct_bounded(ids, n);
}

pub open spec fn held_back(h: Option<Record>) -> nat {
    match h {
        Some(r) => if comes_back(r.id, r.stage) { 1 } else { 0 },
        None => 0,
    }
}

pub open spec fn routed_back(h: Option<(Record, Route)>) -> nat {
    match h {
        Some(p) => if p.1 == Route::Feedback { 1 } else { 0 },
        None => 0,
    }
}

pub open spec fn held_seq(h: Option<Record>) -> Seq<Record> {
    match h {
        Some(r) => seq![r],
        None => Seq::empty(),
    }
}

pub open spec fn routed_seq(h: Option<(Record, Route)>) -> Seq<Record> {
    match h {
        Some(p) => seq![p.0],
        None => Seq::empty(),
    }
}

/// Moves left for a record the transformation stage holds with stage
/// counter `s`: four per pass round the feedback path, then delivery and
/// collection.
pub open spec fn transformed_moves(id: u32, s: nat) -> nat {
    2 + 4 * passes(id, s)
}

/// Moves left for a record waiting at the ingestion stage's input.
pub open spec fn ingest_moves(r: Record) -> nat {
    3 + transformed_moves(r.id, r.stage as nat + 2)
}

/// Moves left for a record waiting at the transformation stage's input.
pub open spec fn forward_moves(r: Record) -> nat {
    1 + transformed_moves(r.id, r.stage as nat + 1)
}

/// Moves left for records waiting at the ingestion stage's input.
pub open spec fn ingest_sum(s: Seq<Record>) -> nat
    decreases s.len(),
{
    if s.len() == 0 {
        0
    } else {
        ingest_sum(s.drop_last()) + ingest_moves(s.last())
    }
}

/// Moves left for records waiting at the transformation stage's input.
pub open spec fn forward_sum(s: Seq<Record>) -> nat
    decreases s.len(),
{
    if s.len() == 0 {
        0
    } else {
        forward_sum(s.drop_last()) + forward_moves(s.last())
    }
}

pub proof fn lemma_sums_front(s: Seq<Record>)
    requires
        s.len() > 0,
    ensures
        ingest_sum(s) == ingest_moves(s[0]) + ingest_sum(s.drop_first()),
        forward_sum(s) == forward_moves(s[0]) + forward_sum(s.drop_first()),
    decreases s.len(),
{
    if s.len() > 1 {
        lemma_sums_front(s.drop_last());
        assert(s.drop_last().drop_first() == s.drop_first().drop_last());
        assert(s.drop_first().last() == s.last());
        assert(s.drop_last()[0] == s[0]);
    } else {
        assert(ingest_sum(s.drop_first()) == 0 && forward_sum(s.drop_first()) == 0);
        assert(ingest_sum(s.drop_last()) == 0 && forward_sum(s.drop_last()) == 0);
        assert(s.last() == s[0]);
    }
}

pub proof fn lemma_sums_push(s: Seq<Record>, r: Record)
    ensures
        ingest_sum(s.push(r)) == ingest_sum(s) + ingest_moves(r),
        forward_sum(s.push(r)) == forward_sum(s) + forward_moves(r),
{
    assert(s.push(r).drop_last() == s);
}

/// Moves left for the records the producer has yet to make, ids `next..=n`.
pub open spec fn unproduced(next: nat, n: nat) -> nat
    decreases n + 1 - next,
{
    if next > n {
        0
    } else {
        4 + transformed_moves(next as u32, 2) + unproduced(next + 1, n)
    }
}

proof fn lemma_unproduced_bound(next: nat, n: nat)
    requires
        n <= u32::MAX,
        next >= 1,
    ensures
        unproduced(next, n) <= 10 * (n + 1 - next) || next > n,
        next > n ==> unproduced(next, n) == 0,
    decreases n + 1 - next,
{
    if next <= n {
        lemma_unproduced_bound(next + 1, n);
        reveal_with_fuel(passes, 3);
        assert(passes(next as u32, 2) <= 1);
    }
}

/// The state of a run: producer, the four stages and the channels between them.
pub struct Pipeline {
    num_records: u32,
    order: IngestOrder,
    next_id: u64,
    input: BoundedChannel<Record>,
    ingest_hold: Option<Record>,
    primary_drained: bool,
    outstanding: u64,
    forward: BoundedChannel<Record>,
    transform_hold: Option<(Record, Route)>,
    transform_done: bool,
    feedback: BoundedChannel<Record>,
    output: BoundedChannel<Record>,
    collected: Vec<Record>,
    collection_done: bool,
    failed: bool,
}

impl Pipeline {
    /// How many records carrying `id` are anywhere in the pipeline.
    pub closed spec fn total(&self, id: u32) -> nat {
        id_count(self.input.items(), id) + held_count(self.ingest_hold, id) + id_count(
            self.forward.items(),
            id,
        ) + routed_count(self.transform_hold, id) + id_count(self.feedback.items(), id)
            + id_count(self.output.items(), id) + id_count(self.collected@, id)
    }

    /// Well-formed channels; the stage counters stay small enough that no
    /// step can overflow them; every record is intact; and each id that the
    /// producer has issued is in exactly one place.
    pub closed spec fn inv(&self) -> bool {
        &&& self.input.wf()
        &&& self.forward.wf()
        &&& self.feedback.wf()
        &&& self.output.wf()
        &&& 1 <= self.next_id <= self.num_records as int + 1
        &&& all_fresh(self.input.items())
        &&& match self.ingest_hold {
            Some(r) => r.stage <= MAX_RETRY_STAGE && r.retry_count <= r.stage && r.intact(),
            None => true,
        }
        &&& all_within(self.forward.items(), MAX_RETRY_STAGE)
        &&& match self.transform_hold {
            Some(p) => p.0.stage <= MAX_RETRY_STAGE + 1 && p.0.retry_count <= p.0.stage
                && p.0.intact() && (p.1 == Route::Feedback ==> p.0.stage < MAX_RETRY_STAGE),
            None => true,
        }
        &&& all_within(self.feedback.items(), (MAX_RETRY_STAGE - 1) as u32)
        &&& all_intact(self.output.items())
        &&& all_intact(self.collected@)
        &&& forall|id: u32| #[trigger]
            self.total(id) == if 1 <= id < self.next_id { 1nat } else { 0nat }
        &&& self.transform_hold matches Some(p) ==> (p.1 == Route::Feedback <==> qualifies_for_retry(
            p.0.id,
            p.0.stage,
        ))
        &&& self.outstanding == self.returning()
        &&& !self.failed
        &&& self.input.spec_closed() ==> self.next_id > self.num_records
        &&& self.primary_drained ==> self.input.spec_closed() && self.input.items().len() == 0
        &&& self.forward.spec_closed() ==> self.primary_drained && self.outstanding == 0
            && self.ingest_hold is None
        &&& self.feedback.spec_closed() || self.output.spec_closed() ==> self.transform_done
        &&& self.transform_done ==> self.transform_hold is None && self.forward.spec_closed()
            && self.forward.items().len() == 0 && self.feedback.spec_closed()
            && self.output.spec_closed()
        &&& self.collection_done ==> self.output.spec_closed() && self.output.items().len() == 0
        &&& self.order == IngestOrder::Interleaved ==> self.in_flight() <= self.forward.spec_capacity() + 2
        &&& self.order == IngestOrder::PrimaryFirst && !self.primary_drained ==> {
            &&& no_tens(self.output.items())
            &&& no_tens(self.collected@)
            &&& first_pass(self.forward.items())
            &&& self.ingest_hold matches Some(r) ==> r.retry_count == 0
            &&& self.transform_hold matches Some(p) ==> p.0.retry_count == 0
        }
        &&& self.order == IngestOrder::PrimaryFirst && self.num_records / 10 > self.forward.spec_capacity()
            + self.feedback.spec_capacity() + 1 ==> !self.primary_drained
        &&& self.ingest_hold matches Some(r) ==> shaped(r, Shape::Ingested)
        &&& all_shaped(self.forward.items(), Shape::Ingested)
        &&& self.transform_hold matches Some(p) ==> shaped(p.0, Shape::Transformed)
        &&& all_shaped(self.feedback.items(), Shape::Returning)
        &&& all_shaped(self.output.items(), Shape::Finished)
        &&& all_shaped(self.collected@, Shape::Finished)
    }

    /// Records between the ingestion stage and the feedback channel: held by
    /// ingestion, on the forward channel, held by transformation, or fed back.
    pub closed spec fn in_flight(&self) -> nat {
        held_seq(self.ingest_hold).len() + self.forward.items().len() + routed_seq(self.transform_hold).len()
            + self.feedback.items().len()
    }

    /// Records in flight that will come back on the feedback path, or are on it.
    pub closed spec fn returning(&self) -> nat {
        held_back(self.ingest_hold) + back_count(self.forward.items()) + routed_back(self.transform_hold)
            + self.feedback.items().len()
    }

    /// Moves left in the run: each move of a party takes exactly one off.
    pub closed spec fn potential(&self) -> nat {
        unproduced(self.next_id as nat, self.num_records as nat)
            + ingest_sum(self.input.items())
            + match self.ingest_hold { Some(r) => 1 + forward_moves(r), None => 0 }
            + forward_sum(self.forward.items())
            + match self.transform_hold { Some(p) => transformed_moves(p.0.id, p.0.stage as nat), None => 0 }
            + ingest_sum(self.feedback.items())
            + self.output.items().len()
            + (if self.input.spec_closed() { 0nat } else { 1nat })
            + (if self.primary_drained { 0nat } else { 1nat })
            + (if self.forward.spec_closed() { 0nat } else { 1nat })
            + (if self.transform_done { 0nat } else { 1nat })
            + (if self.collection_done { 0nat } else { 1nat })
    }

    /// The configuration that a run keeps throughout.
    pub closed spec fn settings(&self) -> (u32, IngestOrder, nat, nat, nat, nat) {
        (
            self.num_records,
            self.order,
            self.input.spec_capacity(),
            self.forward.spec_capacity(),
            self.output.spec_capacity(),
            self.feedback.spec_capacity(),
        )
    }

    /// Two states that agree on everything a move can read or change.
    pub closed spec fn same_state(&self, other: &Pipeline) -> bool {
        &&& self.settings() == other.settings()
        &&& self.next_id == other.next_id
        &&& self.input.items() == other.input.items()
        &&& self.input.spec_closed() == other.input.spec_closed()
        &&& self.ingest_hold == other.ingest_hold
        &&& self.primary_drained == other.primary_drained
        &&& self.outstanding == other.outstanding
        &&& self.forward.items() == other.forward.items()
        &&& self.forward.spec_closed() == other.forward.spec_closed()
        &&& self.transform_hold == other.transform_hold
        &&& self.transform_done == other.transform_done
        &&& self.feedback.items() == other.feedback.items()
        &&& self.feedback.spec_closed() == other.feedback.spec_closed()
        &&& self.output.items() == other.output.items()
        &&& self.output.spec_closed() == other.output.spec_closed()
        &&& self.collected@ == other.collected@
        &&& self.collection_done == other.collection_done
        &&& self.failed == other.failed
    }

    /// The producer can send its next record, or close its channel.
    pub closed spec fn producer_enabled(&self) -> bool {
        !self.input.spec_closed() && (self.next_id > self.num_records || self.input.items().len()
            < self.input.spec_capacity())
    }

    /// Ingestion can forward what it holds, close its output, or take a record.
    pub closed spec fn ingestion_enabled(&self) -> bool {
        match self.ingest_hold {
            Some(_) => self.forward.items().len() < self.forward.spec_capacity(),
            None => (self.primary_drained && self.outstanding == 0 && !self.forward.spec_closed())
                || ((self.order == IngestOrder::Interleaved || self.primary_drained)
                && self.feedback.items().len() > 0) || (!self.primary_drained && (
            self.input.items().len() > 0 || self.input.spec_closed())),
        }
    }

    /// Transformation can deliver what it holds, or take from its input.
    pub closed spec fn transformation_enabled(&self) -> bool {
        match self.transform_hold {
            Some(p) => if p.1 == Route::Feedback {
                self.feedback.items().len() < self.feedback.spec_capacity()
            } else {
                self.output.items().len() < self.output.spec_capacity()
            },
            None => !self.transform_done && (self.forward.items().len() > 0
                || self.forward.spec_closed()),
        }
    }

    /// Collection can take a record or see the end of its input.
    pub closed spec fn collection_enabled(&self) -> bool {
        !self.collection_done && (self.output.items().len() > 0 || self.output.spec_closed())
    }

    pub closed spec fn spec_collection_done(&self) -> bool {
        self.collection_done
    }

    /// Records waiting on the primary input, oldest first.
    pub closed spec fn input_items(&self) -> Seq<Record> {
        self.input.items()
    }

    pub closed spec fn input_closed(&self) -> bool {
        self.input.spec_closed()
    }

    /// The record ingestion has processed and not yet handed on.
    pub closed spec fn ingest_held(&self) -> Option<Record> {
        self.ingest_hold
    }

    /// Ingestion has seen the end of its primary input.
    pub closed spec fn drained_primary(&self) -> bool {
        self.primary_drained
    }

    /// Ingestion's count of records that will come or are coming back.
    pub closed spec fn due_back(&self) -> nat {
        self.outstanding as nat
    }

    pub closed spec fn forward_items(&self) -> Seq<Record> {
        self.forward.items()
    }

    pub closed spec fn forward_closed(&self) -> bool {
        self.forward.spec_closed()
    }

    /// The record transformation has processed, with its route.
    pub closed spec fn transform_held(&self) -> Option<(Record, Route)> {
        self.transform_hold
    }

    pub closed spec fn transform_finished(&self) -> bool {
        self.transform_done
    }

    pub closed spec fn feedback_items(&self) -> Seq<Record> {
        self.feedback.items()
    }

    pub closed spec fn feedback_closed(&self) -> bool {
        self.feedback.spec_closed()
    }

    pub closed spec fn output_items(&self) -> Seq<Record> {
        self.output.items()
    }

    pub closed spec fn output_closed(&self) -> bool {
        self.output.spec_closed()
    }

    /// What collection has gathered, in arrival order.
    pub closed spec fn collected_items(&self) -> Seq<Record> {
        self.collected@
    }

    /// Ids the producer has issued so far: `1..next_issue`.
    pub closed spec fn next_issue(&self) -> int {
        self.next_id as int
    }

    /// Records in flight that will come back on the feedback path, or are on it.
    pub open spec fn records_due_back(&self) -> nat {
        held_back(self.ingest_held()) + back_count(self.forward_items()) + routed_back(self.transform_held())
            + self.feedback_items().len()
    }

    /// How many records carrying `id` are anywhere in the pipeline.
    pub open spec fn copies(&self, id: u32) -> nat {
        id_count(self.input_items(), id) + held_count(self.ingest_held(), id) + id_count(
            self.forward_items(),
            id,
        ) + routed_count(self.transform_held(), id) + id_count(self.feedback_items(), id)
            + id_count(self.output_items(), id) + id_count(self.collected_items(), id)
    }

    /// What the invariant says of the views: each issued id is in exactly one
    /// place and no other id anywhere; ingestion's count of records due back is
    /// exact; a closed channel is closed for good by the party that closes it.
    pub proof fn lemma_state(&self)
        requires
            self.inv(),
        ensures
            forall|id: u32| #[trigger] self.copies(id) == if 1 <= id < self.next_issue() { 1nat } else { 0nat },
            self.due_back() == self.records_due_back(),
            self.forward_closed() ==> self.drained_primary() && self.due_back() == 0 && self.ingest_held() is None,
            self.drained_primary() ==> self.input_closed() && self.input_items().len() == 0,
            self.input_closed() ==> self.next_issue() > self.settings().0,
            self.feedback_closed() || self.output_closed() ==> self.transform_finished(),
            self.transform_finished() ==> self.transform_held() is None && self.forward_closed()
                && self.forward_items().len() == 0 && self.feedback_closed() && self.output_closed(),
            self.transform_held() matches Some(p) ==> p.1 == route_of(p.0),
    {
        assert forall|id: u32| #[trigger] self.copies(id) == if 1 <= id < self.next_issue() { 1nat } else { 0nat } by {
            assert(self.copies(id) == self.total(id));
        }
    }

    /// Whether `stage` has nothing left to do.
    pub closed spec fn spec_done(&self, stage: Stage) -> bool {
        match stage {
            Stage::Producer => self.input.spec_closed(),
            Stage::Ingestion => self.primary_drained && self.ingest_hold is None
                && self.forward.spec_closed() && self.feedback.spec_closed()
                && self.feedback.items().len() == 0,
            Stage::Transformation => self.transform_done,
            Stage::Collection => self.collection_done,
        }
    }

    proof fn lemma_in_flight(&self)
        requires
            self.inv(),
        ensures
            self.outstanding <= self.num_records,
    {
        let t = held_seq(self.ingest_hold) + self.forward.items() + routed_seq(self.transform_hold)
            + self.feedback.items();
        let a = held_seq(self.ingest_hold);
        let b = self.forward.items();
        let c = routed_seq(self.transform_hold);
        let d = self.feedback.items();
        assert forall|id: u32| #[trigger] id_count(t, id) <= 1 by {
            lemma_id_count_concat(a + b + c, d, id);
            lemma_id_count_concat(a + b, c, id);
            lemma_id_count_concat(a, b, id);
            assert(a.len() <= 1 && c.len() <= 1);
            if a.len() == 1 {
                assert(a.drop_last().len() == 0);
            }
            if c.len() == 1 {
                assert(c.drop_last().len() == 0);
            }
            assert(id_count(a, id) == held_count(self.ingest_hold, id)) by {
                reveal_with_fuel(id_count, 2);
            }
            assert(id_count(c, id) == routed_count(self.transform_hold, id)) by {
                reveal_with_fuel(id_count, 2);
            }
            assert(self.total(id) <= 1);
        }
        assert forall|i: int| 0 <= i < t.len() implies 1 <= #[trigger] t[i].id <= self.num_records by {
            lemma_id_count_member(t, i);
            let j = t[i].id;
            assert(id_count(t, j) >= 1);
            lemma_id_count_concat(a + b + c, d, j);
            lemma_id_count_concat(a + b, c, j);
            lemma_id_count_concat(a, b, j);
            assert(id_count(a, j) == held_count(self.ingest_hold, j)) by {
                reveal_with_fuel(id_count, 2);
            }
            assert(id_count(c, j) == routed_count(self.transform_hold, j)) by {
                reveal_with_fuel(id_count, 2);
            }
            assert(self.total(j) >= 1);
        }
        lemma_ids_bounded(t, self.num_records as nat);
        lemma_back_count_bound(b);
    }

    /// With interleaved ingestion some party can always move until collection
    /// is done: the pipeline cannot deadlock. Ingestion takes a primary record
    /// only while no fed-back record waits, so at most `forward` capacity plus
    /// two records are ever in flight, too few to fill both the forward and the
    /// feedback channel while both stages hold a record.
    /// With primary-first ingestion, ending the primary input needs every
    /// multiple of ten among the ids to wait between ingestion and the feedback
    /// channel at once.
    proof fn lemma_draining_needs_room(&self)
        requires
            self.inv(),
            self.order == IngestOrder::PrimaryFirst,
            !self.primary_drained,
            self.ingest_hold is None,
            self.input.items().len() == 0,
            self.input.spec_closed(),
        ensures
            self.num_records / 10 <= self.forward.spec_capacity() + self.feedback.spec_capacity() + 1,
    {
        let k = (self.num_records / 10) as nat;
        let a = self.forward.items();
        let c = routed_seq(self.transform_hold);
        let d = self.feedback.items();
        let t = a + c + d;
        assert forall|i: nat| 1 <= i <= k implies #[trigger] id_count(t, (10 * i) as u32) >= 1 by {
            let j = (10 * i) as u32;
            assert(self.total(j) == 1);
            lemma_no_tens_count(self.output.items(), j);
            lemma_no_tens_count(self.collected@, j);
            assert(id_count(self.input.items(), j) == 0);
            lemma_id_count_concat(a + c, d, j);
            lemma_id_count_concat(a, c, j);
            assert(id_count(c, j) == routed_count(self.transform_hold, j)) by {
                reveal_with_fuel(id_count, 2);
                if c.len() == 1 {
                    assert(c.drop_last().len() == 0);
                }
            }
        }
        lemma_tens_ge(t, k);
        lemma_tens_le(t, k);
    }

    pub proof fn lemma_some_stage_enabled(&self)
        requires
            self.inv(),
            self.settings().1 == IngestOrder::Interleaved,
            !self.spec_collection_done(),
        ensures
            self.producer_enabled() || self.ingestion_enabled() || self.transformation_enabled()
                || self.collection_enabled(),
    {
        if !self.collection_enabled() && !self.transformation_enabled() && !self.ingestion_enabled() {
            assert(self.outstanding == 0 || self.transform_hold is Some) by {
                reveal_with_fuel(back_count, 1);
            }
        }
    }

    pub closed spec fn spec_num_records(&self) -> u32 {
        self.num_records
    }

    /// A pipeline with empty, open channels, before the first record.
    pub fn new(config: &PipelineConfig) -> (r: Pipeline)
        requires
            config.valid(),
        ensures
            r.inv(),
            r.spec_num_records() == config.num_records,
            r.settings() == (
                config.num_records,
                config.order,
                config.input_capacity as nat,
                config.forward_capacity as nat,
                config.output_capacity as nat,
                config.feedback_capacity as nat,
            ),
            !r.spec_collection_done(),
            r.potential() <= 10 * config.num_records + 5,
    {
        let p = Pipeline {
            num_records: config.num_records,
            order: config.order,
            next_id: 1,
            input: BoundedChannel::new(config.input_capacity),
            ingest_hold: None,
            primary_drained: false,
            outstanding: 0,
            forward: BoundedChannel::new(config.forward_capacity),
            transform_hold: None,
            transform_done: false,
            feedback: BoundedChannel::new(config.feedback_capacity),
            output: BoundedChannel::new(config.output_capacity),
            collected: Vec::new(),
            collection_done: false,
            failed: false,
        };
        assert forall|id: u32| #[trigger] p.total(id) == if 1 <= id < p.next_id { 1nat } else { 0nat } by {
            assert(p.collected@.len() == 0);
        }
        proof {
            lemma_unproduced_bound(1, config.num_records as nat);
        }
        p
    }

    /// The producer's move: send the next record, or close the primary
    /// input once all `num_records` have gone in.
    pub fn produce(&mut self) -> (progress: bool)
        requires
            old(self).inv(),
        ensures
            final(self).inv(),
            final(self).spec_num_records() == old(self).spec_num_records(),
            final(self).settings() == old(self).settings(),
            old(self).producer_enabled() ==> progress,
            !progress ==> final(self).same_state(old(self)),
            progress ==> final(self).potential() < old(self).potential(),
    {
        if self.next_id > self.num_records as u64 {
            if self.input.is_closed() {
                false
            } else {
                let ghost before = *self;
                self.input.close();
                assert forall|id: u32| #[trigger]
                    self.total(id) == if 1 <= id < self.next_id { 1nat } else { 0nat } by {
                    assert(before.total(id) == if 1 <= id < before.next_id { 1nat } else { 0nat });
                }
                true
            }
        } else if self.input.is_full() || self.input.is_closed() {
            false
        } else {
            let record = Record::new(self.next_id as u32);
            let ghost before = *self;
            match self.input.try_send(record) {
                SendOutcome::Sent => {
                    proof { lemma_sums_push(before.input.items(), record); }
                    self.next_id = self.next_id + 1;
                    assert(self.input.items() == before.input.items().push(record));
                    assert(all_fresh(self.input.items()));
                    proof {
                        assert forall|id: u32| #[trigger]
                            self.total(id) == if 1 <= id < self.next_id { 1nat } else { 0nat } by {
                            lemma_id_count_push(before.input.items(), record, id);
                            assert(before.total(id) == if 1 <= id < before.next_id { 1nat } else { 0nat });
                        }
                    }
                    assert(self.inv());
                    true
                },
                _ => false,
            }
        }
    }

    /// Hand a received record to the ingestion step and hold the result
    /// until the forward channel takes it.
    fn accept(&mut self, record: Record, from_feedback: bool)
        requires
            old(self).ingest_hold.is_none(),
            record.intact(),
            record.retry_count <= record.stage,
            from_feedback ==> record.stage < MAX_RETRY_STAGE,
            !from_feedback ==> record.stage == 0,
            from_feedback ==> old(self).outstanding >= 1,
            old(self).outstanding <= u32::MAX,
        ensures
            final(self).outstanding == old(self).outstanding - (if from_feedback { 1int } else { 0 })
                + held_back(final(self).ingest_hold),
            final(self).failed == old(self).failed,
            final(self).order == old(self).order,
            final(self).ingest_hold.is_some(),
            final(self).ingest_hold.unwrap().id == record.id,
            final(self).ingest_hold.unwrap().stage <= MAX_RETRY_STAGE,
            final(self).ingest_hold.unwrap().stage == record.stage + 1,
            ingested_from(final(self).ingest_hold.unwrap(), record, from_feedback),
            final(self).ingest_hold.unwrap().retry_count == record.retry_count + if from_feedback { 1int } else { 0 },
            final(self).ingest_hold.unwrap().retry_count <= final(self).ingest_hold.unwrap().stage,
            final(self).ingest_hold.unwrap().intact(),
            final(self).spec_num_records() == old(self).spec_num_records(),
            final(self).next_id == old(self).next_id,
            final(self).input == old(self).input,
            final(self).forward == old(self).forward,
            final(self).feedback == old(self).feedback,
            final(self).output == old(self).output,
            final(self).transform_hold == old(self).transform_hold,
            final(self).collected == old(self).collected,
            final(self).primary_drained == old(self).primary_drained,
            final(self).transform_done == old(self).transform_done,
            final(self).collection_done == old(self).collection_done,
    {
        let mut record = record;
        if from_feedback {
            self.outstanding = self.outstanding - 1;
        }
        ingest(&mut record, from_feedback);
        if will_come_back(&record) {
            self.outstanding = self.outstanding + 1;
        }
        self.ingest_hold = Some(record);
    }

    /// The ingestion stage's move. It forwards the record it holds; else it
    /// closes its output once the primary input is drained and no record is
    /// still due back on the feedback path; else it takes the next record
    /// from feedback or from the primary input, as its order says.
    #[verifier::rlimit(100)]
    #[verifier::spinoff_prover]
    pub fn ingest_step(&mut self) -> (progress: bool)
        requires
            old(self).inv(),
        ensures
            final(self).inv(),
            final(self).spec_num_records() == old(self).spec_num_records(),
            final(self).settings() == old(self).settings(),
            old(self).ingestion_enabled() ==> progress,
            !progress ==> final(self).same_state(old(self)),
            progress ==> final(self).potential() < old(self).potential(),
            old(self).ingest_held() matches Some(r) ==> {
                &&& progress <==> old(self).forward_items().len() < old(self).settings().3
                &&& progress ==> final(self).forward_items() == old(self).forward_items().push(r)
                    && final(self).ingest_held() is None && final(self).input_items()
                    == old(self).input_items() && final(self).feedback_items() == old(self).feedback_items()
            },
            old(self).ingest_held() is None && old(self).drained_primary() && old(self).due_back() == 0
                && !old(self).forward_closed() ==> progress && final(self).forward_closed()
                && final(self).forward_items() == old(self).forward_items() && final(self).ingest_held() is None,
            old(self).ingest_held() is None && !(old(self).drained_primary() && old(self).due_back() == 0
                && !old(self).forward_closed()) && (old(self).settings().1 == IngestOrder::Interleaved
                || old(self).drained_primary()) && old(self).feedback_items().len() > 0 ==> {
                &&& progress
                &&& final(self).feedback_items() == old(self).feedback_items().drop_first()
                &&& final(self).input_items() == old(self).input_items()
                &&& final(self).forward_items() == old(self).forward_items()
                &&& final(self).ingest_held() matches Some(n) && ingested_from(n, old(self).feedback_items()[0], true)
            },
            old(self).ingest_held() is None && !(old(self).drained_primary() && old(self).due_back() == 0
                && !old(self).forward_closed()) && !((old(self).settings().1 == IngestOrder::Interleaved
                || old(self).drained_primary()) && old(self).feedback_items().len() > 0)
                && !old(self).drained_primary() && old(self).input_items().len() > 0 ==> {
                &&& progress
                &&& final(self).input_items() == old(self).input_items().drop_first()
                &&& final(self).feedback_items() == old(self).feedback_items()
                &&& final(self).forward_items() == old(self).forward_items()
                &&& final(self).ingest_held() matches Some(n) && ingested_from(n, old(self).input_items()[0], false)
            },
            old(self).ingest_held() is None && !(old(self).drained_primary() && old(self).due_back() == 0
                && !old(self).forward_closed()) && !((old(self).settings().1 == IngestOrder::Interleaved
                || old(self).drained_primary()) && old(self).feedback_items().len() > 0)
                && !old(self).drained_primary() && old(self).input_items().len() == 0
                && old(self).input_closed() ==> progress && final(self).drained_primary()
                && final(self).ingest_held() is None,
            final(self).forward_closed() ==> final(self).drained_primary() && final(self).records_due_back() == 0
                && final(self).ingest_held() is None,
    {
        let ghost start = *self;
        proof { self.lemma_in_flight(); }
        let held = self.ingest_hold.take();
        match held {
            Some(record) => {
                let ghost r0 = record;
                match self.forward.try_send(record) {
                    SendOutcome::Sent => {
                        assert(self.forward.items() == start.forward.items().push(r0));
                        assert(self.forward.items().drop_last() == start.forward.items());
                        proof { lemma_sums_push(start.forward.items(), r0); }
                        assert forall|id: u32| #[trigger]
                            self.total(id) == if 1 <= id < self.next_id { 1nat } else { 0nat } by {
                            lemma_id_count_push(start.forward.items(), r0, id);
                            assert(start.total(id) == if 1 <= id < start.next_id { 1nat } else { 0nat });
                        }
                        assert(all_within(self.forward.items(), MAX_RETRY_STAGE));
                        true
                    },
                    SendOutcome::Full(r) => {
                        self.ingest_hold = Some(r);
                        assert forall|id: u32| #[trigger]
                            self.total(id) == if 1 <= id < self.next_id { 1nat } else { 0nat } by {
                            assert(start.total(id) == if 1 <= id < start.next_id { 1nat } else { 0nat });
                        }
                        false
                    },
                    SendOutcome::Closed(r) => {
                        self.ingest_hold = Some(r);
                        self.failed = true;
                        assert forall|id: u32| #[trigger]
                            self.total(id) == if 1 <= id < self.next_id { 1nat } else { 0nat } by {
                            assert(start.total(id) == if 1 <= id < start.next_id { 1nat } else { 0nat });
                        }
                        false
                    },
                }
            },
            None => {
                if self.primary_drained && self.outstanding == 0 && !self.forward.is_closed() {
                    self.forward.close();
                    assert forall|id: u32| #[trigger]
                        self.total(id) == if 1 <= id < self.next_id { 1nat } else { 0nat } by {
                        assert(start.total(id) == if 1 <= id < start.next_id { 1nat } else { 0nat });
                    }
                    return true;
                }
                if self.order == IngestOrder::Interleaved || self.primary_drained {
                    let ghost before = *self;
                    match self.feedback.try_receive() {
                        Received::Item(r) => {
                            let ghost mid = *self;
                            proof { lemma_sums_front(before.feedback.items()); }
                            assert(before.feedback.items()[0] == r);
                            assert(self.feedback.items().len() == before.feedback.items().len() - 1);
                            assert(all_within(mid.feedback.items(), (MAX_RETRY_STAGE - 1) as u32)) by {
                                assert forall|i: int| 0 <= i < mid.feedback.items().len() implies
                                    mid.feedback.items()[i] == before.feedback.items()[i + 1] by {}
                            }
                            self.accept(r, true);
                            assert forall|id: u32| #[trigger]
                                self.total(id) == if 1 <= id < self.next_id { 1nat } else { 0nat } by {
                                lemma_id_count_front(before.feedback.items(), id);
                                assert(start.total(id) == if 1 <= id < start.next_id { 1nat } else { 0nat });
                            }
                            return true;
                        },
                        _ => {
                            assert(self.feedback.items() == before.feedback.items());
                        },
                    }
                }
                if !self.primary_drained {
                    let ghost before = *self;
                    match self.input.try_receive() {
                        Received::Item(r) => {
                            proof { lemma_sums_front(before.input.items()); }
                            assert(before.input.items()[0] == r);
                            assert(all_fresh(self.input.items())) by {
                                assert forall|i: int| 0 <= i < self.input.items().len() implies
                                    self.input.items()[i] == before.input.items()[i + 1] by {}
                            }
                            self.accept(r, false);
                            assert forall|id: u32| #[trigger]
                                self.total(id) == if 1 <= id < self.next_id { 1nat } else { 0nat } by {
                                lemma_id_count_front(before.input.items(), id);
                                assert(start.total(id) == if 1 <= id < start.next_id { 1nat } else { 0nat });
                            }
                            true
                        },
                        Received::Closed => {
                            proof {
                                if self.order == IngestOrder::PrimaryFirst {
                                    before.lemma_draining_needs_room();
                                }
                            }
                            self.primary_drained = true;
                            assert forall|id: u32| #[trigger]
                                self.total(id) == if 1 <= id < self.next_id { 1nat } else { 0nat } by {
                                assert(start.total(id) == if 1 <= id < start.next_id { 1nat } else { 0nat });
                            }
                            true
                        },
                        Received::Empty => {
                            assert forall|id: u32| #[trigger]
                                self.total(id) == if 1 <= id < self.next_id { 1nat } else { 0nat } by {
                                assert(start.total(id) == if 1 <= id < start.next_id { 1nat } else { 0nat });
                            }
                            false
                        },
                    }
                } else {
                    assert forall|id: u32| #[trigger]
                        self.total(id) == if 1 <= id < self.next_id { 1nat } else { 0nat } by {
                        assert(start.total(id) == if 1 <= id < start.next_id { 1nat } else { 0nat });
                    }
                    false
                }
            },
        }
    }

    /// The transformation stage's move: deliver the record it holds to the
    /// channel its route names; else take the next record from the forward
    /// channel and transform it; at the end of that stream, close both its
    /// outputs.
    pub fn transform_step(&mut self) -> (progress: bool)
        requires
            old(self).inv(),
        ensures
            final(self).inv(),
            final(self).spec_num_records() == old(self).spec_num_records(),
            final(self).settings() == old(self).settings(),
            old(self).transformation_enabled() ==> progress,
            !progress ==> final(self).same_state(old(self)),
            progress ==> final(self).potential() < old(self).potential(),
            old(self).transform_held() matches Some(p) ==> p.1 == Route::Feedback ==> {
                &&& progress <==> old(self).feedback_items().len() < old(self).settings().5
                &&& progress ==> final(self).feedback_items() == old(self).feedback_items().push(p.0)
                    && final(self).output_items() == old(self).output_items()
                    && final(self).forward_items() == old(self).forward_items()
                    && final(self).transform_held() is None
            },
            old(self).transform_held() matches Some(p) ==> p.1 == Route::Forward ==> {
                &&& progress <==> old(self).output_items().len() < old(self).settings().4
                &&& progress ==> final(self).output_items() == old(self).output_items().push(p.0)
                    && final(self).feedback_items() == old(self).feedback_items()
                    && final(self).forward_items() == old(self).forward_items()
                    && final(self).transform_held() is None
            },
            old(self).transform_held() is None && !old(self).transform_finished()
                && old(self).forward_items().len() > 0 ==> {
                &&& progress
                &&& final(self).forward_items() == old(self).forward_items().drop_first()
                &&& final(self).feedback_items() == old(self).feedback_items()
                &&& final(self).output_items() == old(self).output_items()
                &&& final(self).transform_held() matches Some(p) && transformed_from(p.0, old(self).forward_items()[0])
                    && p.1 == route_of(p.0)
            },
            old(self).transform_held() is None && !old(self).transform_finished()
                && old(self).forward_items().len() == 0 && old(self).forward_closed() ==> progress
                && final(self).transform_finished() && final(self).feedback_closed() && final(self).output_closed()
                && final(self).feedback_items() == old(self).feedback_items()
                && final(self).output_items() == old(self).output_items(),
    {
        let ghost start = *self;
        let held = self.transform_hold.take();
        match held {
            Some(pair) => {
                let (record, route) = pair;
                let ghost r0 = record;
                let sent = if route == Route::Feedback {
                    self.feedback.try_send(record)
                } else {
                    self.output.try_send(record)
                };
                match sent {
                    SendOutcome::Sent => {
                        proof {
                            lemma_sums_push(start.feedback.items(), r0);
                            if route == Route::Feedback {
                                assert(passes(r0.id, r0.stage as nat) == 1 + passes(r0.id, r0.stage as nat + 2));
                            } else {
                                assert(passes(r0.id, r0.stage as nat) == 0);
                            }
                        }
                        assert forall|id: u32| #[trigger]
                            self.total(id) == if 1 <= id < self.next_id { 1nat } else { 0nat } by {
                            lemma_id_count_push(start.feedback.items(), r0, id);
                            lemma_id_count_push(start.output.items(), r0, id);
                            assert(start.total(id) == if 1 <= id < start.next_id { 1nat } else { 0nat });
                        }
                        assert(all_within(self.feedback.items(), (MAX_RETRY_STAGE - 1) as u32));
                        assert(all_intact(self.output.items()));
                        true
                    },
                    SendOutcome::Full(r) => {
                        self.transform_hold = Some((r, route));
                        assert forall|id: u32| #[trigger]
                            self.total(id) == if 1 <= id < self.next_id { 1nat } else { 0nat } by {
                            assert(start.total(id) == if 1 <= id < start.next_id { 1nat } else { 0nat });
                        }
                        false
                    },
                    SendOutcome::Closed(r) => {
                        self.transform_hold = Some((r, route));
                        self.failed = true;
                        assert forall|id: u32| #[trigger]
                            self.total(id) == if 1 <= id < self.next_id { 1nat } else { 0nat } by {
                            assert(start.total(id) == if 1 <= id < start.next_id { 1nat } else { 0nat });
                        }
                        false
                    },
                }
            },
            None => {
                if self.transform_done {
                    assert forall|id: u32| #[trigger]
                        self.total(id) == if 1 <= id < self.next_id { 1nat } else { 0nat } by {
                        assert(start.total(id) == if 1 <= id < start.next_id { 1nat } else { 0nat });
                    }
                    return false;
                }
                match self.forward.try_receive() {
                    Received::Item(r) => {
                        let ghost r0 = r;
                        assert(start.forward.items()[0] == r0);
                        assert(all_within(self.forward.items(), MAX_RETRY_STAGE)) by {
                            assert forall|i: int| 0 <= i < self.forward.items().len() implies
                                self.forward.items()[i] == start.forward.items()[i + 1] by {}
                        }
                        proof {
                            lemma_back_count_front(start.forward.items());
                            lemma_sums_front(start.forward.items());
                        }
                        let mut record = r;
                        let route = transform(&mut record);
                        self.transform_hold = Some((record, route));
                        assert forall|id: u32| #[trigger]
                            self.total(id) == if 1 <= id < self.next_id { 1nat } else { 0nat } by {
                            lemma_id_count_front(start.forward.items(), id);
                            assert(start.total(id) == if 1 <= id < start.next_id { 1nat } else { 0nat });
                        }
                        true
                    },
                    Received::Closed => {
                        self.feedback.close();
                        self.output.close();
                        self.transform_done = true;
                        assert forall|id: u32| #[trigger]
                            self.total(id) == if 1 <= id < self.next_id { 1nat } else { 0nat } by {
                            assert(start.total(id) == if 1 <= id < start.next_id { 1nat } else { 0nat });
                        }
                        true
                    },
                    Received::Empty => {
                        assert forall|id: u32| #[trigger]
                            self.total(id) == if 1 <= id < self.next_id { 1nat } else { 0nat } by {
                            assert(start.total(id) == if 1 <= id < start.next_id { 1nat } else { 0nat });
                        }
                        false
                    },
                }
            },
        }
    }

    /// The collection stage's move: take the next record, check it and
    /// append it to the results; note the end of the stream.
    pub fn collect_step(&mut self) -> (progress: bool)
        requires
            old(self).inv(),
        ensures
            final(self).inv(),
            final(self).spec_num_records() == old(self).spec_num_records(),
            final(self).settings() == old(self).settings(),
            old(self).collection_enabled() ==> progress,
            !progress ==> final(self).same_state(old(self)),
            progress ==> final(self).potential() < old(self).potential(),
            !old(self).spec_collection_done() && old(self).output_items().len() > 0 ==> progress
                && final(self).output_items() == old(self).output_items().drop_first()
                && final(self).collected_items() == old(self).collected_items().push(old(self).output_items()[0]),
            !old(self).spec_collection_done() && old(self).output_items().len() == 0 && old(self).output_closed()
                ==> progress && final(self).spec_collection_done()
                && final(self).collected_items() == old(self).collected_items(),
            final(self).collected_items().len() >= old(self).collected_items().len(),
            final(self).collected_items().take(old(self).collected_items().len() as int) == old(self).collected_items(),
    {
        let ghost start = *self;
        if self.collection_done {
            return false;
        }
        match self.output.try_receive() {
            Received::Item(r) => {
                let ghost r0 = r;
                assert(start.output.items()[0] == r0);
                assert(all_intact(self.output.items())) by {
                    assert forall|i: int| 0 <= i < self.output.items().len() implies
                        self.output.items()[i] == start.output.items()[i + 1] by {}
                }
                collect(&mut self.collected, r);
                assert(all_intact(self.collected@));
                assert forall|id: u32| #[trigger]
                    self.total(id) == if 1 <= id < self.next_id { 1nat } else { 0nat } by {
                    lemma_id_count_front(start.output.items(), id);
                    lemma_id_count_push(start.collected@, r0, id);
                    assert(start.total(id) == if 1 <= id < start.next_id { 1nat } else { 0nat });
                }
                true
            },
            Received::Closed => {
                self.collection_done = true;
                assert forall|id: u32| #[trigger]
                    self.total(id) == if 1 <= id < self.next_id { 1nat } else { 0nat } by {
                    assert(start.total(id) == if 1 <= id < start.next_id { 1nat } else { 0nat });
                }
                true
            },
            Received::Empty => {
                assert forall|id: u32| #[trigger]
                    self.total(id) == if 1 <= id < self.next_id { 1nat } else { 0nat } by {
                    assert(start.total(id) == if 1 <= id < start.next_id { 1nat } else { 0nat });
                }
                false
            },
        }
    }

    /// Take one move of `stage`; returns whether anything changed.
    pub fn step(&mut self, stage: Stage) -> (progress: bool)
        requires
            old(self).inv(),
        ensures
            final(self).inv(),
            final(self).spec_num_records() == old(self).spec_num_records(),
            final(self).settings() == old(self).settings(),
            stage == Stage::Producer && old(self).producer_enabled() ==> progress,
            stage == Stage::Ingestion && old(self).ingestion_enabled() ==> progress,
            stage == Stage::Transformation && old(self).transformation_enabled() ==> progress,
            stage == Stage::Collection && old(self).collection_enabled() ==> progress,
            !progress ==> final(self).same_state(old(self)),
            progress ==> final(self).potential() < old(self).potential(),
    {
        match stage {
            Stage::Producer => self.produce(),
            Stage::Ingestion => self.ingest_step(),
            Stage::Transformation => self.transform_step(),
            Stage::Collection => self.collect_step(),
        }
    }

    /// Whether `stage` has nothing left to do: the producer once its channel
    /// is closed, ingestion once both its inputs are closed and drained and
    /// nothing is held, transformation once its input ended, collection once
    /// its input ended.
    pub fn is_done(&self, stage: Stage) -> (r: bool)
        ensures
            r == self.spec_done(stage),
    {
        match stage {
            Stage::Producer => self.input.is_closed(),
            Stage::Ingestion => self.primary_drained && self.ingest_hold.is_none()
                && self.forward.is_closed() && self.feedback.is_closed() && self.feedback.len()
                == 0,
            Stage::Transformation => self.transform_done,
            Stage::Collection => self.collection_done,
        }
    }

    /// Whether a stage met a channel in a state it cannot handle.
    pub fn has_failed(&self) -> (r: bool)
        ensures
            self.inv() ==> !r,
    {
        self.failed
    }

    /// The outcome of a run whose collection stage is done: the records in
    /// collection order when nothing was left behind, else a stage failure.
    pub fn finish(self) -> (r: RunOutcome)
        requires
            self.inv(),
        ensures
            r matches RunOutcome::Completed(v) ==> completed_well(v@, self.spec_num_records()),
            self.spec_collection_done() ==> r is Completed,
    {
        if self.failed || !self.collection_done || !self.drained() {
            return RunOutcome::StageFailed;
        }
        proof { lemma_drained_complete(&self); }
        RunOutcome::Completed(self.collected)
    }

    /// Whether every issued record has reached the results: all ids issued,
    /// nothing held, nothing left in any channel.
    fn drained(&self) -> (r: bool)
        ensures
            r <==> self.next_id == self.num_records as int + 1 && self.input.items().len() == 0
                && self.ingest_hold.is_none() && self.forward.items().len() == 0
                && self.transform_hold.is_none() && self.feedback.items().len() == 0
                && self.output.items().len() == 0,
    {
        self.next_id == self.num_records as u64 + 1 && self.input.len() == 0
            && self.ingest_hold.is_none() && self.forward.len() == 0
            && self.transform_hold.is_none() && self.feedback.len() == 0 && self.output.len() == 0
    }
}

/// Run the pipeline model: producer, ingestion, transformation and
/// collection each take one move per round, for at most `max_rounds`
/// rounds (the watchdog). A round in which no party can move is a
/// deadlock. A completed run has collected every id in `1..=num_records`
/// exactly once, every record intact. No stage ever fails. With interleaved
/// ingestion the run cannot deadlock, and it completes within
/// `10 * num_records + 5` rounds. With primary-first ingestion and more
/// multiples of ten among the ids than the forward and feedback channels
/// and transformation's hold can keep at once, it never completes: it
/// deadlocks, or times out on a smaller budget.
pub fn run_pipeline_model(config: &PipelineConfig, max_rounds: u64) -> (r: RunOutcome)
    requires
        config.valid(),
    ensures
        r matches RunOutcome::Completed(v) ==> completed_well(v@, config.num_records),
        !(r is StageFailed),
        config.order == IngestOrder::Interleaved ==> !(r is Deadlocked),
        max_rounds >= 10 * config.num_records + 5 ==> !(r is TimedOut),
        config.order == IngestOrder::Interleaved && max_rounds >= 10 * config.num_records + 5 ==> r is Completed,
        config.order == IngestOrder::PrimaryFirst && config.num_records / 10 > config.forward_capacity
            + config.feedback_capacity + 1 ==> !(r is Completed),
        config.order == IngestOrder::PrimaryFirst && config.num_records / 10 > config.forward_capacity
            + config.feedback_capacity + 1 && max_rounds >= 10 * config.num_records + 5 ==> r is Deadlocked,
{
    let mut p = Pipeline::new(config);
    let mut round: u64 = 0;
    while round < max_rounds
        invariant
            p.inv(),
            p.spec_num_records() == config.num_records,
            p.settings() == (
                config.num_records,
                config.order,
                config.input_capacity as nat,
                config.forward_capacity as nat,
                config.output_capacity as nat,
                config.feedback_capacity as nat,
            ),
            !p.spec_collection_done(),
            p.potential() + round <= 10 * config.num_records + 5,
        decreases max_rounds - round,
    {
        let ghost s0 = p;
        let a = p.step(Stage::Producer);
        let ghost s1 = p;
        let b = p.step(Stage::Ingestion);
        let ghost s2 = p;
        let c = p.step(Stage::Transformation);
        let ghost s3 = p;
        let d = p.step(Stage::Collection);
        if p.is_done(Stage::Collection) {
            return p.finish();
        }
        if !(a || b || c || d) {
            proof {
                if config.order == IngestOrder::Interleaved {
                    assert(s1.same_state(&s0) && s2.same_state(&s1) && s3.same_state(&s2)
                        && p.same_state(&s3));
                    assert(!s0.producer_enabled());
                    assert(!s0.ingestion_enabled());
                    assert(!s0.transformation_enabled());
                    assert(!s0.collection_enabled());
                    s0.lemma_some_stage_enabled();
                }
            }
            return RunOutcome::Deadlocked;
        }
        round = round + 1;
    }
    proof {
        assert(p.potential() >= 1);
    }
    RunOutcome::TimedOut
}

/// Every id in `1..=n` collected exactly once, and every record intact.
///
/// Exactly `n` records, one per id, no other ids; each has been through
/// ingestion and transformation once per pass, and only ids that are
/// multiples of ten went round the feedback path, once.
pub open spec fn completed_well(v: Seq<Record>, n: u32) -> bool {
    &&& missing_ids(v, n) == Seq::<u32>::empty()
    &&& duplicate_ids(v, n) == Seq::<u32>::empty()
    &&& corrupt_ids(v) == Seq::<u32>::empty()
    &&& intact_count(v) == v.len()
    &&& v.len() == n
    &&& forall|id: u32| 1 <= id <= n ==> #[trigger] id_count(v, id) == 1
    &&& forall|i: int|
        #![trigger v[i]]
        0 <= i < v.len() ==> {
            &&& 1 <= v[i].id <= n
            &&& v[i].stage == 2 * (v[i].retry_count + 1)
            &&& v[i].retry_count == if v[i].id % 10 == 0 { 1int } else { 0 }
            &&& v[i].retry_count <= MAX_RETRY_STAGE
            &&& v[i].id % 10 == 0 ==> v[i].stage >= MAX_RETRY_STAGE
        }
}

/// `id_count` summed over the ids `1..=k`.
pub open spec fn count_ids(s: Seq<Record>, k: nat) -> nat
    decreases k,
{
    if k == 0 {
        0
    } else {
        count_ids(s, (k - 1) as nat) + id_count(s, k as u32)
    }
}

proof fn lemma_count_ids_push(s: Seq<Record>, r: Record, k: nat)
    requires
        k <= u32::MAX,
    ensures
        count_ids(s.push(r), k) == count_ids(s, k) + if 1 <= r.id <= k { 1nat } else { 0nat },
    decreases k,
{
    if k > 0 {
        lemma_count_ids_push(s, r, (k - 1) as nat);
        lemma_id_count_push(s, r, k as u32);
    }
}

/// Counted over `1..=k`, records whose ids all lie there number `s.len()`.
proof fn lemma_count_ids_all(s: Seq<Record>, k: nat)
    requires
        k <= u32::MAX,
        forall|i: int| 0 <= i < s.len() ==> 1 <= #[trigger] s[i].id <= k,
    ensures
        count_ids(s, k) == s.len(),
    decreases s.len(),
{
    if s.len() == 0 {
        assert(count_ids(s, k) == 0) by {
            lemma_count_ids_zero(s, k);
        }
    } else {
        let t = s.drop_last();
        assert forall|i: int| 0 <= i < t.len() implies 1 <= #[trigger] t[i].id <= k by {
            assert(t[i] == s[i]);
        }
        lemma_count_ids_all(t, k);
        lemma_count_ids_push(t, s.last(), k);
        assert(t.push(s.last()) == s);
    }
}

proof fn lemma_count_ids_zero(s: Seq<Record>, k: nat)
    requires
        s.len() == 0,
    ensures
        count_ids(s, k) == 0,
    decreases k,
{
    if k > 0 {
        lemma_count_ids_zero(s, (k - 1) as nat);
    }
}

proof fn lemma_count_ids_ones(s: Seq<Record>, k: nat)
    requires
        k <= u32::MAX,
        forall|id: u32| 1 <= id <= k ==> #[trigger] id_count(s, id) == 1,
    ensures
        count_ids(s, k) == k,
    decreases k,
{
    if k > 0 {
        assert(id_count(s, k as u32) == 1);
        lemma_count_ids_ones(s, (k - 1) as nat);
    }
}

proof fn lemma_all_intact_counts(s: Seq<Record>)
    requires
        all_intact(s),
    ensures
        corrupt_ids(s) == Seq::<u32>::empty(),
        intact_count(s) == s.len(),
    decreases s.len(),
{
    if s.len() > 0 {
        assert(s.drop_last()[0] == s[0] || s.len() == 1);
        assert(all_intact(s.drop_last())) by {
            assert forall|i: int| 0 <= i < s.drop_last().len() implies s.drop_last()[i].intact() by {
                assert(s.drop_last()[i] == s[i]);
            }
        }
        lemma_all_intact_counts(s.drop_last());
        assert(s.last() == s[s.len() - 1]);
    }
}

proof fn lemma_drained_complete(p: &Pipeline)
    requires
        p.inv(),
        p.next_id == p.num_records as int + 1,
        p.input.items().len() == 0,
        p.ingest_hold.is_none(),
        p.forward.items().len() == 0,
        p.transform_hold.is_none(),
        p.feedback.items().len() == 0,
        p.output.items().len() == 0,
    ensures
        completed_well(p.collected@, p.num_records),
{
    assert forall|j: u32| 1 <= j <= p.num_records implies #[trigger] id_count(p.collected@, j) == 1 by {
        assert(p.total(j) == 1);
        assert(id_count(p.input.items(), j) == 0);
        assert(id_count(p.forward.items(), j) == 0);
        assert(id_count(p.feedback.items(), j) == 0);
        assert(id_count(p.output.items(), j) == 0);
    }
    lemma_exactly_once(p.collected@, p.num_records as nat);
    lemma_all_intact_counts(p.collected@);
    let v = p.collected@;
    assert forall|i: int| 0 <= i < v.len() implies 1 <= #[trigger] v[i].id <= p.num_records by {
        lemma_id_count_member(v, i);
        assert(p.total(v[i].id) >= 1);
    }
    lemma_count_ids_all(v, p.num_records as nat);
    lemma_count_ids_ones(v, p.num_records as nat);
    assert forall|i: int| 0 <= i < v.len() implies 1 <= v[i].id <= p.num_records && shaped(#[trigger] v[i], Shape::Finished) by {}
}

} // verus!
