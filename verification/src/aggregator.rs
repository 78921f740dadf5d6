use vstd::prelude::*;

verus! {

use crate::fileinfo::{FileInfo, FileInfoIncomplete};

/// Which of the four fingerprint fields a pipeline stage writes.
#[derive(Debug, Clone, Copy, PartialEq, Eq, Structural)]
pub enum HashField {
    Sha2,
    Mean,
    Gradient,
    Dct,
}

/// One in-flight record together with how many of its stage messages the
/// aggregator has already processed.
pub struct PendingRecord {
    pub record: FileInfoIncomplete,
    pub arrivals: u8,
}

/// The field of `rec` that `f` names.
pub open spec fn field_of(rec: FileInfoIncomplete, f: HashField) -> Option<String> {
    match f {
        HashField::Sha2 => rec.sha2_hash,
        HashField::Mean => rec.a_hash,
        HashField::Gradient => rec.d_hash,
        HashField::Dct => rec.p_hash,
    }
}

/// `rec` with the field that `f` names set to `v`.
pub open spec fn with_field(rec: FileInfoIncomplete, f: HashField, v: String) -> FileInfoIncomplete {
    match f {
        HashField::Sha2 => FileInfoIncomplete { sha2_hash: Some(v), ..rec },
        HashField::Mean => FileInfoIncomplete { a_hash: Some(v), ..rec },
        HashField::Gradient => FileInfoIncomplete { d_hash: Some(v), ..rec },
        HashField::Dct => FileInfoIncomplete { p_hash: Some(v), ..rec },
    }
}

/// Some pending record is named `name`.
pub open spec fn has_name(s: Seq<PendingRecord>, name: Seq<char>) -> bool {
    exists|i: int| 0 <= i < s.len() && s[i].record.filename@ == name
}

/// The index of the pending record named `name` (unique under `wf`).
pub open spec fn index_of_name(s: Seq<PendingRecord>, name: Seq<char>) -> int {
    choose|i: int| 0 <= i < s.len() && s[i].record.filename@ == name
}

/// The completion aggregator.
///
/// Four pipeline stages each write one field of a shared record and then
/// send the aggregator one message for it, so four messages arrive per
/// record, in no fixed order, each only after its stage's write. On each
/// message the aggregator checks completeness and tries to reclaim exclusive
/// ownership; the reclaim succeeds exactly on a record's last outstanding
/// message, so exactly one completed record is handed downstream.
pub struct Aggregator {
    pending: Vec<PendingRecord>,
}

impl View for Aggregator {
    type V = Seq<PendingRecord>;

    closed spec fn view(&self) -> Seq<PendingRecord> {
        self.pending@
    }
}

impl Aggregator {
    /// Record names are unique, each record has had at most four messages,
    /// and no more messages were processed for a record than fields were
    /// written to it (a stage writes before it sends).
    pub open spec fn wf(self) -> bool {
        &&& forall|i: int, j: int|
            0 <= i < j < self@.len() ==> self@[i].record.filename@ != self@[j].record.filename@
        &&& forall|i: int|
            0 <= i < self@.len() ==> (#[trigger] self@[i]).arrivals <= self@[i].record.fields_set()
    }

    /// Creates an aggregator with nothing in flight.
    pub fn new() -> (r: Aggregator)
        ensures
            r@ == Seq::<PendingRecord>::empty(),
            r.wf(),
    {
        Aggregator { pending: Vec::new() }
    }

    /// The index of the pending record named `path`, if any.
    fn find(&self, path: &String) -> (r: Option<usize>)
        requires
            self.wf(),
        ensures
            match r {
                Some(i) => i < self@.len() && self@[i as int].record.filename@ == path@ && i
                    == index_of_name(self@, path@),
                None => !has_name(self@, path@),
            },
    {
        let n = self.pending.len();
        for i in 0..n
            invariant
                self.wf(),
                n == self@.len(),
                forall|j: int| 0 <= j < i ==> self@[j].record.filename@ != path@,
        {
            if self.pending[i].record.filename == *path {
                proof {
                    let c = index_of_name(self@, path@);
                    assert(0 <= c < self@.len() && self@[c].record.filename@ == path@);
                    assert(c == i as int);
                }
                return Some(i);
            }
        }
        None
    }

    /// Starts tracking a fresh record for `path`, as the ingestion stage
    /// does when it reads a file. Refused when `path` is already in flight.
    pub fn start_record(&mut self, path: &String) -> (ok: bool)
        requires
            old(self).wf(),
        ensures
            final(self).wf(),
            ok == !has_name(old(self)@, path@),
            !ok ==> final(self)@ == old(self)@,
            ok ==> ({
                &&& final(self)@.len() == old(self)@.len() + 1
                &&& final(self)@[old(self)@.len() as int].record.filename@ == path@
                &&& final(self)@[old(self)@.len() as int].record.fields_set() == 0
                &&& final(self)@[old(self)@.len() as int].arrivals == 0
                &&& final(self)@.take(old(self)@.len() as int) == old(self)@
            }),
    {
        match self.find(path) {
            Some(_) => false,
            None => {
                let rec = FileInfoIncomplete::with_name(path.as_str());
                self.pending.push(PendingRecord { record: rec, arrivals: 0 });
                proof {
                    assert(final(self)@.take(old(self)@.len() as int) =~= old(self)@);
                }
                true
            },
        }
    }

    /// One stage's field write: sets the named field of `path`'s record.
    /// Refused when the record is unknown or the field was already written
    /// (fields are write-once).
    pub fn record_write(&mut self, path: &String, field: HashField, value: String) -> (ok: bool)
        requires
            old(self).wf(),
        ensures
            final(self).wf(),
            !has_name(old(self)@, path@) ==> !ok && final(self)@ == old(self)@,
            has_name(old(self)@, path@) ==> ({
                let i = index_of_name(old(self)@, path@);
                let pr = old(self)@[i];
                if field_of(pr.record, field) is Some {
                    !ok && final(self)@ == old(self)@
                } else {
                    ok && final(self)@ == old(self)@.update(
                        i,
                        PendingRecord { record: with_field(pr.record, field, value), ..pr },
                    )
                }
            }),
    {
        let i = match self.find(path) {
            Some(i) => i,
            None => {
                return false;
            },
        };
        let entry = &mut self.pending[i];
        let already = match field {
            HashField::Sha2 => entry.record.sha2_hash.is_some(),
            HashField::Mean => entry.record.a_hash.is_some(),
            HashField::Gradient => entry.record.d_hash.is_some(),
            HashField::Dct => entry.record.p_hash.is_some(),
        };
        if already {
            proof {
                assert(final(self)@ =~= old(self)@);
            }
            return false;
        }
        match field {
            HashField::Sha2 => {
                entry.record.sha2_hash = Some(value);
            },
            HashField::Mean => {
                entry.record.a_hash = Some(value);
            },
            HashField::Gradient => {
                entry.record.d_hash = Some(value);
            },
            HashField::Dct => {
                entry.record.p_hash = Some(value);
            },
        }
        proof {
            let ghost i_ = i as int;
            assert(final(self)@ =~= old(self)@.update(
                i_,
                PendingRecord {
                    record: with_field(old(self)@[i_].record, field, value),
                    ..old(self)@[i_]
                },
            ));
        }
        true
    }

    /// Processes one stage message for `path`'s record: checks completeness
    /// under a read of the record, then attempts the exclusive reclaim. The
    /// reclaim succeeds exactly on the record's fourth message — its last
    /// outstanding reference — and then hands back the completed record,
    /// which is complete because all four writes preceded their messages.
    pub fn record_arrival(&mut self, path: &String) -> (r: Option<FileInfo>)
        requires
            old(self).wf(),
            has_name(old(self)@, path@),
            old(self)@[index_of_name(old(self)@, path@)].arrivals < old(self)@[index_of_name(
                old(self)@,
                path@,
            )].record.fields_set(),
        ensures
            final(self).wf(),
            ({
                let i = index_of_name(old(self)@, path@);
                let pr = old(self)@[i];
                if pr.arrivals + 1 == 4 {
                    r matches Some(fi) && fi.filename@ == pr.record.filename@ && fi.a_hash
                        == pr.record.a_hash && fi.d_hash == pr.record.d_hash && fi.p_hash
                        == pr.record.p_hash && fi.sha2_hash == pr.record.sha2_hash
                        && fi.spec_complete() && final(self)@ == old(self)@.remove(i)
                } else {
                    r is None && final(self)@ == old(self)@.update(
                        i,
                        PendingRecord { arrivals: (pr.arrivals + 1) as u8, ..pr },
                    )
                }
            }),
    {
        let i = self.find(path).unwrap();
        let complete = self.pending[i].record.is_complete();
        let arrivals = self.pending[i].arrivals;
        proof {
            assert(arrivals < 4);
        }
        if complete && arrivals + 1 == 4 {
            let pr = self.pending.remove(i);
            Some(pr.record.into_file_info())
        } else {
            let entry = &mut self.pending[i];
            entry.arrivals = arrivals + 1;
            proof {
                let ghost i_ = i as int;
                assert(arrivals + 1 < 4);
                assert(final(self)@ =~= old(self)@.update(
                    i_,
                    PendingRecord { arrivals: (arrivals + 1) as u8, ..old(self)@[i_] },
                ));
            }
            None
        }
    }

    /// How many records are still in flight.
    pub fn in_flight(&self) -> (r: usize)
        ensures
            r == self@.len(),
    {
        self.pending.len()
    }
}

// What follows is the completion-uniqueness law, stated over the history of
// one record. A history interleaves the four stage-side field writes with
// the four aggregator-side message arrivals; the aggregator reclaims the
// record on an arrival exactly when it is the record's fourth. The law: in
// every valid history, exactly one arrival reclaims, and by then all four
// fields have been written.

/// One event in the life of a single record: a stage writes its field and
/// sends its message, or the aggregator processes one of those messages.
pub ghost enum RecordEvent {
    Write,
    Arrive,
}

/// Number of field writes in `e`.
pub open spec fn count_writes(e: Seq<RecordEvent>) -> int
    decreases e.len(),
{
    if e.len() == 0 {
        0
    } else {
        count_writes(e.drop_last()) + if e.last() is Write {
            1int
        } else {
            0int
        }
    }
}

/// Number of processed arrivals in `e`.
pub open spec fn count_arrivals(e: Seq<RecordEvent>) -> int
    decreases e.len(),
{
    if e.len() == 0 {
        0
    } else {
        count_arrivals(e.drop_last()) + if e.last() is Arrive {
            1int
        } else {
            0int
        }
    }
}

/// A possible history of one record: a message is processed only after it
/// was sent (writes precede their arrivals), and each of the four stages
/// writes at most once.
pub open spec fn valid_history(e: Seq<RecordEvent>) -> bool {
    forall|k: int|
        0 <= k <= e.len() ==> count_arrivals(#[trigger] e.take(k)) <= count_writes(e.take(k))
            && count_writes(e.take(k)) <= 4
}

/// The aggregator's reclaim succeeds at position `k`: the event is an
/// arrival, and it is the record's fourth — its last outstanding reference.
pub open spec fn reclaims_at(e: Seq<RecordEvent>, k: int) -> bool {
    &&& 0 <= k < e.len()
    &&& e[k] is Arrive
    &&& count_arrivals(e.take(k + 1)) == 4
}

/// Event counts never decrease along a history.
proof fn lemma_counts_monotone(e: Seq<RecordEvent>, k1: int, k2: int)
    requires
        0 <= k1 <= k2 <= e.len(),
    ensures
        count_arrivals(e.take(k1)) <= count_arrivals(e.take(k2)),
        count_writes(e.take(k1)) <= count_writes(e.take(k2)),
    decreases k2 - k1,
{
    if k1 < k2 {
        lemma_counts_monotone(e, k1, k2 - 1);
        assert(e.take(k2).drop_last() =~= e.take(k2 - 1));
    }
}

/// A history with `n >= 1` arrivals has a position where the `n`-th arrival
/// is processed.
proof fn lemma_nth_arrival_exists(e: Seq<RecordEvent>, n: int)
    requires
        count_arrivals(e) == n,
        n >= 1,
    ensures
        exists|k: int|
            0 <= k < e.len() && e[k] is Arrive && count_arrivals(#[trigger] e.take(k + 1)) == n,
    decreases e.len(),
{
    if e.len() > 0 {
        if e.last() is Arrive {
            let k = e.len() - 1;
            assert(e.take(k + 1) =~= e);
        } else {
            assert(count_arrivals(e.drop_last()) == n);
            lemma_nth_arrival_exists(e.drop_last(), n);
            let k = choose|k: int|
                0 <= k < e.drop_last().len() && e.drop_last()[k] is Arrive && count_arrivals(
                    #[trigger] e.drop_last().take(k + 1),
                ) == n;
            assert(e.drop_last().take(k + 1) =~= e.take(k + 1));
            assert(e[k] is Arrive && count_arrivals(e.take(k + 1)) == n);
        }
    }
}

/// Completion-uniqueness law: in any valid history of a record in which all
/// four fields are written and all four messages are processed, exactly one
/// arrival reclaims the record, and at that point every field write has
/// already happened — so exactly one complete record reaches the cache
/// sink, with no duplicates and no drops.
pub proof fn lemma_completion_uniqueness(e: Seq<RecordEvent>)
    requires
        valid_history(e),
        count_writes(e) == 4,
        count_arrivals(e) == 4,
    ensures
        exists|k: int| #[trigger] reclaims_at(e, k),
        forall|k1: int, k2: int| reclaims_at(e, k1) && reclaims_at(e, k2) ==> k1 == k2,
        forall|k: int| reclaims_at(e, k) ==> count_writes(e.take(k + 1)) == 4,
{
    lemma_nth_arrival_exists(e, 4);
    let k0 = choose|k: int|
        0 <= k < e.len() && e[k] is Arrive && count_arrivals(#[trigger] e.take(k + 1)) == 4;
    assert(reclaims_at(e, k0));
    assert forall|k1: int, k2: int| reclaims_at(e, k1) && reclaims_at(e, k2) implies k1 == k2 by {
        if k1 < k2 {
            lemma_counts_monotone(e, k1 + 1, k2);
            assert(e.take(k2 + 1).drop_last() =~= e.take(k2));
            assert(count_arrivals(e.take(k2 + 1)) >= 5);
            lemma_counts_monotone(e, k2 + 1, e.len() as int);
            assert(e.take(e.len() as int) =~= e);
        } else if k2 < k1 {
            lemma_counts_monotone(e, k2 + 1, k1);
            assert(e.take(k1 + 1).drop_last() =~= e.take(k1));
            assert(count_arrivals(e.take(k1 + 1)) >= 5);
            lemma_counts_monotone(e, k1 + 1, e.len() as int);
            assert(e.take(e.len() as int) =~= e);
        }
    }
    assert forall|k: int| reclaims_at(e, k) implies count_writes(e.take(k + 1)) == 4 by {
        assert(count_arrivals(e.take(k + 1)) <= count_writes(e.take(k + 1)));
    }
}

} // verus!
