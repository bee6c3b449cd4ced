//! The in-memory log of the daemon: a bounded ring of structured records
//! with increasing ids, queried by the id after which to continue.
use crate::model::{LogLevel, LogRecord, LogRecordView};
use vstd::prelude::*;

verus! {

/// How many records the log keeps.
pub const MAX_IN_MEMORY: usize = 10_000;

/// The records of `records` with an id above `after`, oldest first.
pub open spec fn newer_than(records: Seq<LogRecordView>, after: u64) -> Seq<LogRecordView>
    decreases records.len(),
{
    if records.len() == 0 {
        records
    } else {
        let rest = newer_than(records.drop_last(), after);
        if records.last().id > after {
            rest.push(records.last())
        } else {
            rest
        }
    }
}

/// At most `limit` of the records with an id above `after`, oldest first;
/// never more than the log can hold.
pub open spec fn records_after(records: Seq<LogRecordView>, after: u64, limit: nat) -> Seq<
    LogRecordView,
> {
    let newer = newer_than(records, after);
    let n = if limit < MAX_IN_MEMORY {
        limit
    } else {
        MAX_IN_MEMORY as nat
    };
    if newer.len() <= n {
        newer
    } else {
        newer.subrange(0, n as int)
    }
}

/// The records after one more is added: the oldest leaves a full log.
pub open spec fn with_record(records: Seq<LogRecordView>, record: LogRecordView) -> Seq<
    LogRecordView,
> {
    if records.len() >= MAX_IN_MEMORY {
        records.drop_first().push(record)
    } else {
        records.push(record)
    }
}

/// Whether the ids of `records` increase and stay below `next`.
pub open spec fn ids_below(records: Seq<LogRecordView>, next: u64) -> bool {
    &&& forall|i: int, j: int| 0 <= i < j < records.len() ==> records[i].id < records[j].id
    &&& forall|i: int| 0 <= i < records.len() ==> #[trigger] records[i].id < next
}

/// A structured log ring.
#[derive(Debug)]
pub struct LogStore {
    next_id: u64,
    records: Vec<LogRecord>,
}

impl LogStore {
    /// The kept records, oldest first.
    pub closed spec fn records(&self) -> Seq<LogRecordView> {
        self.records@.map_values(|r: LogRecord| r@)
    }

    /// The id the next record gets.
    pub closed spec fn next_id(&self) -> u64 {
        self.next_id
    }

    /// The log holds at most `MAX_IN_MEMORY` records, with increasing ids
    /// below the next one.
    pub open spec fn wf(&self) -> bool {
        &&& self.records().len() <= MAX_IN_MEMORY
        &&& ids_below(self.records(), self.next_id())
        &&& self.next_id() >= 1
    }

    /// An empty log whose first record gets id 1.
    pub fn memory_only() -> (r: Self)
        ensures
            r.wf(),
            r.records() == Seq::<LogRecordView>::empty(),
            r.next_id() == 1,
    {
        let r = LogStore { next_id: 1, records: Vec::new() };
        proof {
            assert(r.records() =~= Seq::<LogRecordView>::empty());
        }
        r
    }

    /// Whether a record can still be added (ids have not run out).
    pub fn can_emit(&self) -> (r: bool)
        ensures
            r == (self.next_id() < u64::MAX),
    {
        self.next_id < u64::MAX
    }

    /// Adds a record made at `unix_millis` and returns it. Ids are not
    /// reused: the next id must not have run out.
    pub fn emit(&mut self, level: LogLevel, target: String, message: String, unix_millis: i128) -> (r:
        LogRecord)
        requires
            old(self).wf(),
            old(self).next_id() < u64::MAX,
        ensures
            final(self).wf(),
            r@ == (LogRecordView {
                id: old(self).next_id(),
                unix_millis,
                level,
                target: target@,
                message: message@,
            }),
            final(self).next_id() == old(self).next_id() + 1,
            final(self).records() == with_record(old(self).records(), r@),
    {
        let record = LogRecord { id: self.next_id, unix_millis, level, target, message };
        let ghost before = self.records();
        self.next_id = self.next_id + 1;
        if self.records.len() >= MAX_IN_MEMORY {
            self.records.remove(0);
            proof {
                assert(self.records() =~= before.drop_first());
            }
        }
        let ghost kept = self.records();
        self.records.push(record.duplicate());
        proof {
            assert(self.records() =~= kept.push(record@));
            assert(self.records() == with_record(before, record@));
            assert forall|i: int, j: int|
                0 <= i < j < self.records().len() implies self.records()[i].id < self.records()[j].id by {
                if j == self.records().len() - 1 {
                    assert(kept[i] == self.records()[i]);
                    if before.len() >= MAX_IN_MEMORY {
                        assert(kept[i] == before[i + 1]);
                    } else {
                        assert(kept[i] == before[i]);
                    }
                } else if before.len() >= MAX_IN_MEMORY {
                    assert(self.records()[i] == before[i + 1]);
                    assert(self.records()[j] == before[j + 1]);
                } else {
                    assert(self.records()[i] == before[i]);
                    assert(self.records()[j] == before[j]);
                }
            }
            assert forall|i: int| 0 <= i < self.records().len() implies #[trigger] self.records()[i].id
                < self.next_id by {
                if i < self.records().len() - 1 {
                    if before.len() >= MAX_IN_MEMORY {
                        assert(self.records()[i] == before[i + 1]);
                    } else {
                        assert(self.records()[i] == before[i]);
                    }
                }
            }
        }
        record
    }

    /// At most `limit` records with an id above `after`, oldest first.
    pub fn after(&self, after: u64, limit: usize) -> (r: Vec<LogRecord>)
        ensures
            r@.map_values(|x: LogRecord| x@) == records_after(self.records(), after, limit as nat),
    {
        let n: usize = if limit < MAX_IN_MEMORY {
            limit
        } else {
            MAX_IN_MEMORY
        };
        let ghost all = self.records();
        let mut r: Vec<LogRecord> = Vec::new();
        let mut i: usize = 0;
        while i < self.records.len() && r.len() < n
            invariant
                all == self.records(),
                i <= all.len(),
                r@.len() <= n,
                r@.map_values(|x: LogRecord| x@) == newer_than(all.subrange(0, i as int), after),
            decreases self.records.len() - i,
        {
            let ghost before = r@.map_values(|x: LogRecord| x@);
            proof {
                assert(all.subrange(0, i + 1).drop_last() =~= all.subrange(0, i as int));
                assert(all[i as int] == self.records@[i as int]@);
            }
            if self.records[i].id > after {
                r.push(self.records[i].duplicate());
                proof {
                    assert(r@.map_values(|x: LogRecord| x@) =~= before.push(all[i as int]));
                }
            }
            i = i + 1;
        }
        proof {
            lemma_newer_prefix(all, i as int, after);
            let newer = newer_than(all, after);
            if r@.len() < n {
                assert(i == all.len());
                assert(all.subrange(0, i as int) =~= all);
            } else {
                assert(newer.subrange(0, n as int) =~= newer_than(all.subrange(0, i as int), after));
            }
        }
        r
    }

    /// Forgets every record; ids keep increasing.
    pub fn clear(&mut self)
        ensures
            old(self).wf() ==> final(self).wf(),
            final(self).records() == Seq::<LogRecordView>::empty(),
            final(self).next_id() == old(self).next_id(),
    {
        self.records.clear();
        proof {
            assert(self.records() =~= Seq::<LogRecordView>::empty());
        }
    }
}

/// The newer records of a prefix are a prefix of the newer records.
proof fn lemma_newer_prefix(records: Seq<LogRecordView>, i: int, after: u64)
    requires
        0 <= i <= records.len(),
    ensures
        newer_than(records.subrange(0, i), after).len() <= newer_than(records, after).len(),
        newer_than(records, after).subrange(0, newer_than(records.subrange(0, i), after).len() as int)
            == newer_than(records.subrange(0, i), after),
    decreases records.len() - i,
{
    if i < records.len() {
        lemma_newer_prefix(records, i + 1, after);
        let p = records.subrange(0, i + 1);
        assert(p.drop_last() =~= records.subrange(0, i));
        let small = newer_than(records.subrange(0, i), after);
        let big = newer_than(p, after);
        let all = newer_than(records, after);
        assert(big.subrange(0, small.len() as int) =~= small);
        assert(all.subrange(0, small.len() as int) =~= big.subrange(0, small.len() as int));
    } else {
        assert(records.subrange(0, i) =~= records);
        assert(newer_than(records, after).subrange(0, newer_than(records, after).len() as int)
            =~= newer_than(records, after));
    }
}

proof fn lemma_newer_than_none(records: Seq<LogRecordView>, after: u64)
    requires
        forall|i: int| 0 <= i < records.len() ==> #[trigger] records[i].id <= after,
    ensures
        newer_than(records, after) == Seq::<LogRecordView>::empty(),
    decreases records.len(),
{
    if records.len() > 0 {
        lemma_newer_than_none(records.drop_last(), after);
        assert(records[records.len() - 1].id <= after);
    }
}

/// Asking for the records after an id gives exactly the records with a
/// larger id, oldest first: the log's records filtered by their id.
pub proof fn law_newer_records_are_those_with_larger_ids(records: Seq<LogRecordView>, after: u64)
    ensures
        newer_than(records, after) == records.filter(|r: LogRecordView| r.id > after),
    decreases records.len(),
{
    reveal(Seq::filter);
    if records.len() > 0 {
        law_newer_records_are_those_with_larger_ids(records.drop_last(), after);
    }
    assert(newer_than(records, after) =~= records.filter(|r: LogRecordView| r.id > after));
}

/// The log is incremental: a record added after every stored one is the
/// only record newer than any id the log had handed out before it, so
/// asking for what follows such an id gives exactly that record.
pub proof fn law_records_are_incremental(
    records: Seq<LogRecordView>,
    next: u64,
    record: LogRecordView,
    seen: u64,
    limit: nat,
)
    requires
        records.len() <= MAX_IN_MEMORY,
        ids_below(records, next),
        record.id == next,
        seen < next,
        forall|i: int| 0 <= i < records.len() ==> #[trigger] records[i].id <= seen,
        limit >= 1,
    ensures
        records_after(with_record(records, record), seen, limit) == seq![record],
{
    let appended = with_record(records, record);
    let kept = appended.drop_last();
    assert forall|i: int| 0 <= i < kept.len() implies #[trigger] kept[i].id <= seen by {
        if records.len() >= MAX_IN_MEMORY {
            assert(kept[i] == records[i + 1]);
        } else {
            assert(kept[i] == records[i]);
        }
    }
    lemma_newer_than_none(kept, seen);
    assert(newer_than(appended, seen) =~= seq![record]);
}

} // verus!
