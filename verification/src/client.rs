//! The coverage client: the bitmaps it owns and the operations that a
//! collection run is made of.

use vstd::prelude::*;
use vstd::slice::*;
use vstd::string::StringSliceAdditionalSpecFns;
use crate::bitmap::{
    cleared, empty_bitmaps, key_of, make_key, observed, valid, BitmapModel, CoverageBitmap,
};
use crate::history::{run, Step};
use crate::path::{resolve_records, resolved_records};
use crate::record::{
    decoded, models, parse_records, serialize_records, serialized, CoverageRecord, RecordError,
    RecordModel,
};
use crate::session::{collect_coverage, collected};

verus! {

/// The file that line hits belong to after `records`: the path of the last
/// source file boundary, or the empty path if there was none or an end of
/// record came after it.
pub open spec fn current_file(records: Seq<RecordModel>) -> Seq<u8>
    decreases records.len(),
{
    if records.len() == 0 {
        Seq::<u8>::empty()
    } else {
        match records.last() {
            RecordModel::SourceFileBoundary { path } => path,
            RecordModel::EndOfRecord => Seq::<u8>::empty(),
            RecordModel::LineHit { .. } => current_file(records.drop_last()),
        }
    }
}

/// The observations that `records` amount to: one for each line hit, under
/// the key of its line in the current file, hit when the count is not zero.
pub open spec fn steps_of(records: Seq<RecordModel>) -> Seq<Step>
    decreases records.len(),
{
    if records.len() == 0 {
        Seq::<Step>::empty()
    } else {
        let head = steps_of(records.drop_last());
        match records.last() {
            RecordModel::LineHit { line, hit_count } => head.push(
                Step::Observe {
                    key: key_of(current_file(records.drop_last()), line),
                    hit: hit_count != 0,
                },
            ),
            _ => head,
        }
    }
}

/// The mathematical content of a client.
pub struct ClientModel {
    pub bitmaps: BitmapModel,
    pub output_path: Option<Seq<char>>,
    pub max_ratio: (u64, u64),
}

/// A coverage client. It owns the bitmaps, which live as long as it does.
#[derive(Debug)]
pub struct LcovCoverageClient {
    bitmap: CoverageBitmap,
    output_path: Option<String>,
    max_ratio: (u64, u64),
}

impl View for LcovCoverageClient {
    type V = ClientModel;

    closed spec fn view(&self) -> ClientModel {
        ClientModel {
            bitmaps: self.bitmap@,
            output_path: match self.output_path {
                Some(p) => Some(p@),
                None => None,
            },
            max_ratio: self.max_ratio,
        }
    }
}

impl LcovCoverageClient {
    /// Whether the index of the bitmaps' keys is in order.
    pub closed spec fn indexed(&self) -> bool {
        self.bitmap.indexed()
    }

    /// The invariant of a client: that of its bitmaps.
    pub open spec fn wf(&self) -> bool {
        valid(self@.bitmaps) && self.indexed()
    }

    /// A client with empty bitmaps.
    pub fn new(output_path: Option<String>) -> (client: LcovCoverageClient)
        ensures
            client.wf(),
            client@.bitmaps == empty_bitmaps(),
            client@.max_ratio == (0u64, 0u64),
            client@.output_path == match output_path {
                Some(p) => Some(p@),
                None => None,
            },
    {
        LcovCoverageClient { bitmap: CoverageBitmap::new(), output_path, max_ratio: (0, 0) }
    }

    /// What a session with the agent yields, given the bytes that arrived. A
    /// reset yields nothing, whether it was acknowledged or not; a fetch yields
    /// the coverage data gathered from the blocks that arrived whole. The
    /// client itself does not change.
    pub fn fetch_coverage_internal(&mut self, reset: bool, received: &[u8]) -> (buffer: Vec<u8>)
        ensures
            *final(self) == *old(self),
            buffer@ == if reset {
                Seq::<u8>::empty()
            } else {
                collected(received@)
            },
    {
        if reset {
            return Vec::new();
        }
        collect_coverage(received)
    }

    /// Takes canonical records into the bitmaps: every line hit is observed
    /// under the current file.
    pub fn apply_records(&mut self, records: &Vec<CoverageRecord>)
        requires
            old(self).wf(),
        ensures
            final(self).wf(),
            final(self)@.bitmaps == run(old(self)@.bitmaps, steps_of(models(records@))),
            final(self)@.output_path == old(self)@.output_path,
            final(self)@.max_ratio == old(self)@.max_ratio,
    {
        let ghost all = models(records@);
        let ghost start = self@.bitmaps;
        let mut current: Vec<u8> = Vec::new();
        let mut i: usize = 0;
        proof {
            assert(all.take(0) =~= Seq::<RecordModel>::empty());
        }
        while i < records.len()
            invariant
                i <= records@.len(),
                all == models(records@),
                self.wf(),
                self@.bitmaps == run(start, steps_of(all.take(i as int))),
                current@ == current_file(all.take(i as int)),
                self@.output_path == old(self)@.output_path,
                self@.max_ratio == old(self)@.max_ratio,
            decreases records@.len() - i,
        {
            proof {
                let upto = all.take(i + 1);
                assert(upto.drop_last() =~= all.take(i as int));
                assert(upto.last() == records@[i as int]@);
            }
            match &records[i] {
                CoverageRecord::SourceFileBoundary { path } => {
                    current = slice_to_vec(path.as_slice());
                },
                CoverageRecord::LineHit { line, hit_count } => {
                    let key = make_key(current.as_slice(), *line);
                    let _ = self.bitmap.observe(key.as_slice(), *hit_count != 0);
                    proof {
                        let steps = steps_of(all.take(i + 1));
                        assert(steps.drop_last() =~= steps_of(all.take(i as int)));
                    }
                },
                CoverageRecord::EndOfRecord => {
                    current = Vec::new();
                },
            }
            i = i + 1;
        }
        proof {
            assert(all.take(i as int) =~= all);
        }
    }

    /// Processes a buffer of coverage data: decodes its records, resolves
    /// their source paths against `project_root`, takes the line hits into the
    /// bitmaps and returns the records written out again with the resolved
    /// paths. `lookups[i]` is the canonical form that the file system gave for
    /// the joined path of record `i`. A malformed buffer changes nothing.
    pub fn process_coverage(
        &mut self,
        lcov_bytes: &[u8],
        project_root: &[u8],
        lookups: &Vec<Option<Vec<u8>>>,
    ) -> (r: Result<Vec<u8>, RecordError>)
        requires
            old(self).wf(),
        ensures
            final(self).wf(),
            final(self)@.output_path == old(self)@.output_path,
            final(self)@.max_ratio == old(self)@.max_ratio,
            match decoded(lcov_bytes@) {
                Ok(records) => {
                    let canonical = resolved_records(records, project_root@, lookups@);
                    &&& r is Ok
                    &&& r->Ok_0@ == serialized(canonical)
                    &&& final(self)@.bitmaps == run(old(self)@.bitmaps, steps_of(canonical))
                },
                Err(e) => r == Err::<Vec<u8>, RecordError>(e) && final(self)@ == old(self)@,
            },
    {
        let records = match parse_records(lcov_bytes) {
            Ok(records) => records,
            Err(e) => {
                return Err(e);
            },
        };
        let canonical = resolve_records(&records, project_root, lookups);
        self.apply_records(&canonical);
        Ok(serialize_records(&canonical))
    }

    /// Observes one line of a file: the line gets its slot if it has none
    /// yet, its bit in the current cycle becomes set exactly if `val` is not
    /// zero, and its bit in the total is set if it was set or `val` is not
    /// zero.
    pub fn set_cov_bit(&mut self, file: &str, line: u32, val: u8)
        requires
            old(self).wf(),
        ensures
            final(self).wf(),
            final(self)@.bitmaps == observed(
                old(self)@.bitmaps,
                key_of(file.spec_bytes(), line),
                val != 0,
            ),
            final(self)@.output_path == old(self)@.output_path,
            final(self)@.max_ratio == old(self)@.max_ratio,
    {
        let key = make_key(file.as_bytes(), line);
        let _ = self.bitmap.observe(key.as_slice(), val != 0);
    }

    /// Starts a new cycle: the cycle bits are cleared, the total stays.
    pub fn clear_cycle(&mut self)
        requires
            old(self).wf(),
        ensures
            final(self).wf(),
            final(self)@.bitmaps == cleared(old(self)@.bitmaps),
            final(self)@.output_path == old(self)@.output_path,
            final(self)@.max_ratio == old(self)@.max_ratio,
    {
        self.bitmap.clear_cycle();
    }

    /// The bitmaps of this client.
    pub fn bitmap(&self) -> (bitmap: &CoverageBitmap)
        ensures
            bitmap@ == self@.bitmaps,
            self.wf() ==> bitmap.wf(),
    {
        &self.bitmap
    }

    /// Where the caller wants the written records to go, if it said so.
    pub fn output_path(&self) -> (path: &Option<String>)
        ensures
            self@.output_path == match *path {
                Some(p) => Some(p@),
                None => None,
            },
    {
        &self.output_path
    }
}

} // verus!
