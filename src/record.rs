use vstd::prelude::*;
use vstd::string::StringSliceAdditionalSpecFns;
use vstd::utf8::encode_utf8;

use crate::text::{decimal, padded_decimal, push_decimal, push_padded_decimal};

verus! {

/// Wrapping sum of a byte sequence, modulo 2^32.
pub open spec fn checksum_of(bytes: Seq<u8>) -> u32
    decreases bytes.len(),
{
    if bytes.len() == 0 {
        0u32
    } else {
        let sum = checksum_of(bytes.drop_last()) as int + bytes.last() as int;
        if sum > u32::MAX {
            (sum - 0x1_0000_0000) as u32
        } else {
            sum as u32
        }
    }
}

/// The fold of a payload: the checksum of its UTF-8 bytes.
pub open spec fn fold(payload: Seq<char>) -> u32 {
    checksum_of(encode_utf8(payload))
}

/// The payload a record is created with: `data-` and the id, at least four digits.
pub open spec fn initial_payload(id: u32) -> Seq<char> {
    "data-"@ + padded_decimal(id as nat, 4)
}

/// The marker a stage appends: ` [<stage name>:s<stage>:r<retries>]`.
pub open spec fn marker(name: Seq<char>, stage: u32, retry_count: u32) -> Seq<char> {
    " ["@ + name + ":s"@ + decimal(stage as nat) + ":r"@ + decimal(retry_count as nat) + "]"@
}

/// A unit of work flowing through the pipeline.
#[derive(Debug, Clone)]
pub struct Record {
    pub id: u32,
    pub payload: String,
    pub stage: u32,
    pub checksum: u32,
    pub retry_count: u32,
}

impl Record {
    /// Integrity: the checksum matches the payload.
    pub open spec fn intact(&self) -> bool {
        self.checksum == fold(self.payload@)
    }

    /// A fresh record: payload `data-<id>`, stage and retry count zero.
    pub fn new(id: u32) -> (r: Record)
        ensures
            r.id == id,
            r.payload@ == initial_payload(id),
            r.stage == 0,
            r.retry_count == 0,
            r.intact(),
    {
        let mut payload = String::new();
        payload.append("data-");
        push_padded_decimal(&mut payload, id, 4);
        let checksum = compute_checksum(payload.as_str());
        Record { id, payload, stage: 0, checksum, retry_count: 0 }
    }

    /// Advance the record to the next pipeline stage.
    pub fn advance(&mut self)
        requires
            old(self).stage < u32::MAX,
        ensures
            *final(self) == (Record { stage: (old(self).stage + 1) as u32, ..*old(self) }),
    {
        self.stage = self.stage + 1;
    }

    /// Count one more pass through the feedback path.
    pub fn mark_retry(&mut self)
        requires
            old(self).retry_count < u32::MAX,
        ensures
            *final(self) == (Record { retry_count: (old(self).retry_count + 1) as u32, ..*old(self) }),
    {
        self.retry_count = self.retry_count + 1;
    }

    /// Whether the checksum still matches the payload.
    pub fn verify(&self) -> (r: bool)
        ensures
            r == self.intact(),
    {
        compute_checksum(self.payload.as_str()) == self.checksum
    }
}

/// Sum of the UTF-8 bytes of `data`, wrapping modulo 2^32.
pub fn compute_checksum(data: &str) -> (r: u32)
    ensures
        r == fold(data@),
{
    let bytes = data.as_bytes();
    let mut acc: u32 = 0;
    let mut i: usize = 0;
    while i < bytes.len()
        invariant
            bytes@ == data.spec_bytes(),
            i <= bytes@.len(),
            acc == checksum_of(bytes@.take(i as int)),
        decreases bytes@.len() - i,
    {
        assert(bytes@.take(i as int + 1).drop_last() == bytes@.take(i as int));
        acc = acc.wrapping_add(bytes[i] as u32);
        i += 1;
    }
    assert(bytes@.take(i as int) == bytes@);
    acc
}

/// One processing step of a stage: append the stage's marker to the payload,
/// recompute the checksum and advance the stage counter.
pub fn do_work(record: &mut Record, stage_name: &str)
    requires
        old(record).stage < u32::MAX,
    ensures
        final(record).id == old(record).id,
        final(record).payload@ == old(record).payload@ + marker(
            stage_name@,
            old(record).stage,
            old(record).retry_count,
        ),
        final(record).stage == old(record).stage + 1,
        final(record).retry_count == old(record).retry_count,
        final(record).intact(),
{
    let mut payload = record.payload.clone();
    payload.append(" [");
    payload.append(stage_name);
    payload.append(":s");
    push_decimal(&mut payload, record.stage as u64);
    payload.append(":r");
    push_decimal(&mut payload, record.retry_count as u64);
    payload.append("]");
    record.checksum = compute_checksum(payload.as_str());
    record.payload = payload;
    record.advance();
}

/// Number of intact records in `s`.
pub open spec fn intact_count(s: Seq<Record>) -> nat
    decreases s.len(),
{
    if s.len() == 0 {
        0
    } else {
        intact_count(s.drop_last()) + if s.last().intact() { 1nat } else { 0nat }
    }
}

/// Ids of the records of `s` whose checksum does not match, in order.
pub open spec fn corrupt_ids(s: Seq<Record>) -> Seq<u32>
    decreases s.len(),
{
    if s.len() == 0 {
        Seq::empty()
    } else if s.last().intact() {
        corrupt_ids(s.drop_last())
    } else {
        corrupt_ids(s.drop_last()).push(s.last().id)
    }
}

/// How many records of `s` carry the id `id`.
pub open spec fn id_count(s: Seq<Record>, id: u32) -> nat
    decreases s.len(),
{
    if s.len() == 0 {
        0
    } else {
        id_count(s.drop_last(), id) + if s.last().id == id { 1nat } else { 0nat }
    }
}

/// Ids in `1..=k` that occur in `s` exactly `0` times (`dup == false`) or at
/// least twice (`dup == true`), in increasing order.
pub open spec fn ids_where(s: Seq<Record>, k: nat, dup: bool) -> Seq<u32>
    decreases k,
{
    if k == 0 {
        Seq::empty()
    } else {
        let rest = ids_where(s, (k - 1) as nat, dup);
        let c = id_count(s, k as u32);
        if (dup && c >= 2) || (!dup && c == 0) {
            rest.push(k as u32)
        } else {
            rest
        }
    }
}

/// Ids in `1..=n` that no record of `s` carries.
pub open spec fn missing_ids(s: Seq<Record>, n: u32) -> Seq<u32> {
    ids_where(s, n as nat, false)
}

/// Ids in `1..=n` that more than one record of `s` carries.
pub open spec fn duplicate_ids(s: Seq<Record>, n: u32) -> Seq<u32> {
    ids_where(s, n as nat, true)
}

proof fn lemma_intact_count_bound(s: Seq<Record>)
    ensures
        intact_count(s) <= s.len(),
    decreases s.len(),
{
    if s.len() > 0 {
        lemma_intact_count_bound(s.drop_last());
    }
}

/// Count the intact records of a batch and list the ids of the others.
pub fn validate_batch(records: &[Record]) -> (r: (usize, Vec<u32>))
    ensures
        r.0 == intact_count(records@),
        r.1@ == corrupt_ids(records@),
{
    let mut valid: usize = 0;
    let mut invalid_ids: Vec<u32> = Vec::new();
    let mut i: usize = 0;
    while i < records.len()
        invariant
            i <= records@.len(),
            valid == intact_count(records@.take(i as int)),
            invalid_ids@ == corrupt_ids(records@.take(i as int)),
        decreases records@.len() - i,
    {
        assert(records@.take(i as int + 1).drop_last() == records@.take(i as int));
        proof { lemma_intact_count_bound(records@.take(i as int)); }
        if records[i].verify() {
            valid = valid + 1;
        } else {
            invalid_ids.push(records[i].id);
        }
        i += 1;
    }
    assert(records@.take(i as int) == records@);
    (valid, invalid_ids)
}

/// Check that every id in `1..=expected_count` occurs exactly once in
/// `records`: returns the ids that are missing and those that occur more
/// than once, each in increasing order. Ids outside the range are ignored.
pub fn check_completeness(records: &[Record], expected_count: u32) -> (r: (Vec<u32>, Vec<u32>))
    requires
        expected_count < usize::MAX,
    ensures
        r.0@ == missing_ids(records@, expected_count),
        r.1@ == duplicate_ids(records@, expected_count),
{
    let size: usize = expected_count as usize + 1;
    let mut seen: Vec<usize> = Vec::new();
    while seen.len() < size
        invariant
            seen@.len() <= size,
            forall|j: int| 0 <= j < seen@.len() ==> seen@[j] == 0,
        decreases size - seen@.len(),
    {
        seen.push(0);
    }
    let mut i: usize = 0;
    while i < records.len()
        invariant
            i <= records@.len(),
            size == expected_count + 1,
            seen@.len() == size,
            forall|j: int| 0 <= j < size ==> seen@[j] == id_count(records@.take(i as int), j as u32),
            forall|j: int| 0 <= j < size ==> seen@[j] <= i,
        decreases records@.len() - i,
    {
        let ghost before = records@.take(i as int);
        assert(records@.take(i as int + 1).drop_last() == before);
        let id = records[i].id;
        if (id as usize) < size {
            let c = seen[id as usize];
            seen.set(id as usize, c + 1);
        }
        i += 1;
    }
    assert(records@.take(i as int) == records@);
    let mut missing: Vec<u32> = Vec::new();
    let mut duplicates: Vec<u32> = Vec::new();
    let mut id: u64 = 1;
    while id <= expected_count as u64
        invariant
            1 <= id <= expected_count as int + 1,
            size == expected_count + 1,
            seen@.len() == size,
            forall|j: int| 0 <= j < size ==> seen@[j] == id_count(records@, j as u32),
            missing@ == ids_where(records@, (id - 1) as nat, false),
            duplicates@ == ids_where(records@, (id - 1) as nat, true),
        decreases expected_count - id + 1,
    {
        let c = seen[id as usize];
        if c == 0 {
            missing.push(id as u32);
        } else if c >= 2 {
            duplicates.push(id as u32);
        }
        id = id + 1;
    }
    (missing, duplicates)
}

} // verus!
