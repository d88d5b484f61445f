//! Scanning the processes of a run: every status record is read for its
//! affinity, and the processes that are pinned to a single core are kept, in
//! the order of the process list. The list is divided among the workers in
//! chunks; what the workers find, taken together chunk after chunk, is what
//! one pass over the whole list finds.

use crate::cores::{lemma_taken_set_of_both, taken_set, AffinityRecord};
use crate::partition::{
    chunk_end, chunk_start, lemma_chunk_in_list, lemma_chunks_tile, plan_chunks, Chunk,
};
use crate::record::{CoreScanner, ScanError};
use vstd::prelude::*;
use vstd::slice::slice_subrange;

verus! {

/// A process and what reading its status record gave.
#[derive(Debug, PartialEq, Eq)]
pub struct ProcessStatus {
    /// The name of the process among the running processes.
    pub process: String,
    /// The bytes of its status record, or `None` where the record was gone
    /// when it was to be read: the process had ended.
    pub record: Option<Vec<u8>>,
}

/// What a scan gave, with the records as a sequence.
pub open spec fn scanned(outcome: Result<Vec<AffinityRecord>, ScanError>) -> Result<
    Seq<AffinityRecord>,
    ScanError,
> {
    match outcome {
        Ok(records) => Ok(records@),
        Err(error) => Err(error),
    }
}

/// The records of two stretches of the process list, one after the other.
/// An error in the first stretch hides what the second gave.
pub open spec fn chained(
    first: Result<Seq<AffinityRecord>, ScanError>,
    second: Result<Seq<AffinityRecord>, ScanError>,
) -> Result<Seq<AffinityRecord>, ScanError> {
    match first {
        Err(error) => Err(error),
        Ok(records) => match second {
            Err(error) => Err(error),
            Ok(more) => Ok(records + more),
        },
    }
}

impl CoreScanner {
    /// The core that a process is pinned to. A process whose record was gone
    /// is pinned to none, and that is no error.
    pub open spec fn core_of(self, status: ProcessStatus) -> Result<Option<u32>, ScanError> {
        match status.record {
            None => Ok(None),
            Some(bytes) => self.extraction(bytes@),
        }
    }

    /// What one process adds to the records.
    pub open spec fn record_of(self, status: ProcessStatus) -> Result<
        Seq<AffinityRecord>,
        ScanError,
    > {
        match self.core_of(status) {
            Err(error) => Err(error),
            Ok(None) => Ok(Seq::empty()),
            Ok(Some(core)) => Ok(seq![AffinityRecord { process: status.process, core }]),
        }
    }

    /// The records of a process list: one for each process that is pinned to
    /// a single core, in the order of the list. The first record in error
    /// makes the whole scan fail with that error.
    pub open spec fn records_of(self, statuses: Seq<ProcessStatus>) -> Result<
        Seq<AffinityRecord>,
        ScanError,
    >
        decreases statuses.len(),
    {
        if statuses.len() == 0 {
            Ok(Seq::empty())
        } else {
            chained(self.records_of(statuses.drop_last()), self.record_of(statuses.last()))
        }
    }

    /// The records of two stretches of the list are those of the first,
    /// followed by those of the second.
    pub proof fn lemma_records_of_concat(self, first: Seq<ProcessStatus>, second: Seq<ProcessStatus>)
        ensures
            self.records_of(first + second) == chained(
                self.records_of(first),
                self.records_of(second),
            ),
        decreases second.len(),
    {
        if second.len() == 0 {
            assert(first + second =~= first);
            match self.records_of(first) {
                Ok(records) => {
                    assert(records + Seq::<AffinityRecord>::empty() =~= records);
                },
                Err(_) => {},
            }
        } else {
            let whole = first + second;
            assert(whole.drop_last() =~= first + second.drop_last());
            assert(whole.last() == second.last());
            self.lemma_records_of_concat(first, second.drop_last());
            match (
                self.records_of(first),
                self.records_of(second.drop_last()),
                self.record_of(second.last()),
            ) {
                (Ok(a), Ok(b), Ok(c)) => {
                    assert((a + b) + c =~= a + (b + c));
                },
                _ => {},
            }
        }
    }

    /// Whether some process of the list is pinned to `core`.
    pub open spec fn pins(self, statuses: Seq<ProcessStatus>, core: u32) -> bool {
        exists|i: int|
            0 <= i < statuses.len() && self.core_of(#[trigger] statuses[i]) == Ok::<
                Option<u32>,
                ScanError,
            >(Some(core))
    }

    /// A core is taken exactly if some process of the list is pinned to it.
    pub proof fn lemma_taken_iff_pinned(
        self,
        statuses: Seq<ProcessStatus>,
        records: Seq<AffinityRecord>,
        core: u32,
    )
        requires
            self.records_of(statuses) == Ok::<Seq<AffinityRecord>, ScanError>(records),
        ensures
            taken_set(records).contains(core) <==> self.pins(statuses, core),
        decreases statuses.len(),
    {
        if statuses.len() == 0 {
            assert(!taken_set(records).contains(core));
        } else {
            let before = statuses.drop_last();
            let last = statuses.last();
            let found = self.records_of(before)->Ok_0;
            let added = self.record_of(last)->Ok_0;
            self.lemma_taken_iff_pinned(before, found, core);
            lemma_taken_set_of_both(found, added);
            if self.core_of(last) == Ok::<Option<u32>, ScanError>(Some(core)) {
                assert(added[0].core == core);
                assert(statuses[statuses.len() - 1] == last);
            }
            if taken_set(added).contains(core) {
                let i = choose|i: int| 0 <= i < added.len() && (#[trigger] added[i]).core == core;
                assert(self.core_of(statuses[statuses.len() - 1]) == Ok::<Option<u32>, ScanError>(
                    Some(core),
                ));
            }
            if self.pins(before, core) {
                let i = choose|i: int|
                    0 <= i < before.len() && self.core_of(#[trigger] before[i]) == Ok::<
                        Option<u32>,
                        ScanError,
                    >(Some(core));
                assert(before[i] == statuses[i]);
            }
            if self.pins(statuses, core) {
                let i = choose|i: int|
                    0 <= i < statuses.len() && self.core_of(#[trigger] statuses[i]) == Ok::<
                        Option<u32>,
                        ScanError,
                    >(Some(core));
                if i < before.len() {
                    assert(before[i] == statuses[i]);
                }
            }
        }
    }

    /// The records of the list up to `end` are those up to `start`, followed
    /// by those of the stretch from `start` to `end`; and an error up to
    /// `end` is the error of the whole list.
    proof fn lemma_records_of_stretch(self, statuses: Seq<ProcessStatus>, start: int, end: int)
        requires
            0 <= start <= end <= statuses.len(),
        ensures
            self.records_of(statuses.take(end)) == chained(
                self.records_of(statuses.take(start)),
                self.records_of(statuses.subrange(start, end)),
            ),
            self.records_of(statuses.take(end)) is Err ==> self.records_of(statuses)
                == self.records_of(statuses.take(end)),
    {
        let done = statuses.take(start);
        let part = statuses.subrange(start, end);
        let rest = statuses.skip(end);
        assert(statuses.take(end) =~= done + part);
        assert(statuses =~= statuses.take(end) + rest);
        self.lemma_records_of_concat(done, part);
        self.lemma_records_of_concat(statuses.take(end), rest);
    }

    /// Reads the status of one process for the core that it is pinned to.
    pub fn status_core(&self, status: &ProcessStatus) -> (core: Result<Option<u32>, ScanError>)
        ensures
            core == self.core_of(*status),
    {
        match &status.record {
            None => Ok(None),
            Some(bytes) => self.taken_core(bytes.as_slice()),
        }
    }

    /// Scans a stretch of the process list, as one worker does.
    pub fn scan(&self, statuses: &[ProcessStatus]) -> (outcome: Result<
        Vec<AffinityRecord>,
        ScanError,
    >)
        ensures
            scanned(outcome) == self.records_of(statuses@),
    {
        let mut records: Vec<AffinityRecord> = Vec::new();
        let n: usize = statuses.len();
        let mut i: usize = 0;
        assert(statuses@.take(0) =~= Seq::<ProcessStatus>::empty());
        while i < n
            invariant
                i <= n,
                n == statuses@.len(),
                self.records_of(statuses@.take(i as int)) == Ok::<Seq<AffinityRecord>, ScanError>(
                    records@,
                ),
            decreases n - i,
        {
            let status: &ProcessStatus = &statuses[i];
            proof {
                let longer = statuses@.take(i + 1);
                assert(longer.drop_last() =~= statuses@.take(i as int));
                assert(longer.last() == *status);
                assert(statuses@ =~= longer + statuses@.skip(i + 1));
                self.lemma_records_of_concat(longer, statuses@.skip(i + 1));
            }
            match self.status_core(status) {
                Err(error) => {
                    return Err(error);
                },
                Ok(None) => {
                    assert(records@ + Seq::<AffinityRecord>::empty() =~= records@);
                },
                Ok(Some(core)) => {
                    let ghost before = records@;
                    records.push(AffinityRecord { process: status.process.clone(), core });
                    assert(records@ =~= before + seq![
                        AffinityRecord { process: status.process, core },
                    ]);
                },
            }
            i = i + 1;
        }
        assert(statuses@.take(n as int) =~= statuses@);
        Ok(records)
    }

    /// Scans the whole process list chunk by chunk, one chunk for each of
    /// `workers` workers, and puts together what they find. Without workers
    /// nothing is scanned and nothing found.
    pub fn reduce(&self, statuses: &Vec<ProcessStatus>, workers: u8) -> (outcome: Result<
        Vec<AffinityRecord>,
        ScanError,
    >)
        ensures
            workers == 0 ==> scanned(outcome) == Ok::<Seq<AffinityRecord>, ScanError>(
                Seq::empty(),
            ),
            workers >= 1 ==> scanned(outcome) == self.records_of(statuses@),
    {
        let mut records: Vec<AffinityRecord> = Vec::new();
        if workers == 0 {
            return Ok(records);
        }
        let total: usize = statuses.len();
        let chunks: Vec<Chunk> = plan_chunks(total, workers);
        let mut k: usize = 0;
        let ghost mut reached: int = 0;
        proof {
            lemma_chunks_tile(total as nat, workers as nat);
            assert(chunks[0].start == 0);
            assert(statuses@.take(0) =~= Seq::<ProcessStatus>::empty());
        }
        while k < chunks.len()
            invariant
                k <= chunks.len(),
                chunks.len() == workers,
                workers >= 1,
                total == statuses@.len(),
                forall|j: int|
                    0 <= j < workers ==> (#[trigger] chunks[j]).start == chunk_start(
                        total as nat,
                        workers as nat,
                        j as nat,
                    ) && chunks[j].end == chunk_end(total as nat, workers as nat, j as nat),
                0 <= reached <= total,
                k < chunks.len() ==> reached == chunks[k as int].start,
                0 < k ==> reached == chunks[k - 1].end,
                self.records_of(statuses@.take(reached)) == Ok::<Seq<AffinityRecord>, ScanError>(
                    records@,
                ),
            decreases chunks.len() - k,
        {
            let chunk: Chunk = chunks[k];
            proof {
                lemma_chunk_in_list(total as nat, workers as nat, k as nat);
                self.lemma_records_of_stretch(statuses@, chunk.start as int, chunk.end as int);
            }
            match self.scan(slice_subrange(statuses.as_slice(), chunk.start, chunk.end)) {
                Err(error) => {
                    return Err(error);
                },
                Ok(mut found) => {
                    records.append(&mut found);
                },
            }
            proof {
                reached = chunk.end as int;
            }
            k = k + 1;
        }
        proof {
            lemma_chunks_tile(total as nat, workers as nat);
            assert(reached == chunks[workers - 1].end);
            assert(statuses@.take(total as int) =~= statuses@);
        }
        Ok(records)
    }
}

} // verus!
