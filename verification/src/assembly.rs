//! The accumulators of a whole assembly: the contig registry, the stream of
//! reads that is walked over it, and what one read does to it.

use crate::cigar::{clip_hits, covers, lemma_cursor_monotone, CigarOp};
use crate::clip_report::{ClipSite, Ratio};
use crate::contig::{ContigData, ContigModel, WalkError};
use crate::zero_coverage::{in_some_run, is_zero_run, Interval};
use std::collections::HashMap;
use vstd::prelude::*;

verus! {

broadcast use vstd::std_specs::hash::group_hash_axioms;

/// A contig as the alignment header declares it.
#[derive(Clone, Debug, PartialEq, Eq)]
pub struct ContigRecord {
    pub name: String,
    pub length: usize,
}

/// A read as the alignment reader hands it over.
#[derive(Clone, Debug, PartialEq, Eq)]
pub struct ReadRecord {
    /// The index of the read's contig in the header.
    pub reference_id: i32,
    /// The leftmost position of the alignment on the contig, counted from 0.
    pub position: i64,
    /// The alignment operations, in order.
    pub ops: Vec<CigarOp>,
    /// Whether the read is unmapped.
    pub unmapped: bool,
}

/// Why a read cannot be walked over the assembly.
#[derive(Clone, Copy, Debug, PartialEq, Eq, Structural)]
pub enum ReadError {
    /// The header declares no contig for the read's reference id.
    UnknownContig,
    /// The read starts before position 0.
    NegativePosition,
    /// The accumulator of the read's contig does not admit the read.
    Walk(WalkError),
}

/// One row of the clip report: a reported clip site with its contig.
///
/// The clip ratio of the row is `clipping / coverage`, its relative position
/// `pos / length`.
#[derive(Clone, Debug, PartialEq, Eq)]
pub struct ClipRow {
    /// The reference id of the contig.
    pub contig: usize,
    /// The name of the contig.
    pub name: String,
    /// The length of the contig.
    pub length: usize,
    /// The position of the clip site.
    pub pos: usize,
    /// The coverage at the site.
    pub coverage: u32,
    /// The number of clips recorded at the site.
    pub clipping: u32,
}

/// One row of the zero-coverage report: an interval `[start, end)` of zero
/// coverage with its contig.
#[derive(Clone, Debug, PartialEq, Eq)]
pub struct ZeroRow {
    /// The reference id of the contig.
    pub contig: usize,
    /// The name of the contig.
    pub name: String,
    /// The length of the contig.
    pub length: usize,
    /// The first position of the interval.
    pub start: usize,
    /// The position after the last of the interval.
    pub end: usize,
}

impl ZeroRow {
    /// The interval of the row.
    pub open spec fn interval(self) -> Interval {
        Interval { start: self.start, end: self.end }
    }

    /// The number of positions in the interval.
    pub fn range_size(&self) -> (size: usize)
        requires
            self.start <= self.end,
        ensures
            size == self.end - self.start,
    {
        self.end - self.start
    }
}

/// What the accumulators of an assembly hold, as mathematical values.
pub struct AssemblyModel {
    /// The registry: the contigs in header order.
    pub contigs: Seq<ContigRecord>,
    /// The accumulator of each contig that a mapped read has touched, by
    /// reference id.
    pub data: Map<int, ContigModel>,
}

impl AssemblyModel {
    /// Every accumulator belongs to a contig of the registry and spans the
    /// length declared for it.
    pub open spec fn wf(self) -> bool {
        forall|id: int| #[trigger]
            self.data.dom().contains(id) ==> {
                &&& 0 <= id < self.contigs.len()
                &&& self.data[id].wf()
                &&& self.data[id].length() == self.contigs[id].length
            }
    }

    /// The assembly over the registry `contigs` before any read.
    pub open spec fn fresh(contigs: Seq<ContigRecord>) -> AssemblyModel {
        AssemblyModel { contigs, data: Map::empty() }
    }

    /// What processing the reads of a stream in order makes of the assembly.
    /// The first read that cannot be walked ends the run with its error.
    pub open spec fn run(self, reads: Seq<ReadRecord>) -> Result<AssemblyModel, ReadError>
        decreases reads.len(),
    {
        if reads.len() == 0 {
            Ok(self)
        } else {
            match self.run(reads.drop_last()) {
                Ok(so_far) => so_far.step(reads.last()),
                Err(error) => Err(error),
            }
        }
    }

    /// The accumulator that a read on contig `id` is walked over: the one
    /// that exists, or a fresh one of the declared length.
    pub open spec fn accumulator_or_fresh(self, id: int) -> ContigModel {
        if self.data.dom().contains(id) {
            self.data[id]
        } else {
            ContigModel::empty(self.contigs[id].length as nat)
        }
    }

    /// The coverage of position `p` of contig `id`, which is 0 as long as the
    /// contig has no accumulator.
    pub open spec fn coverage_at(self, id: int, p: int) -> nat {
        self.accumulator_or_fresh(id).coverage[p]
    }

    /// The number of clips recorded at `site` of contig `id`, which is 0 as
    /// long as the contig has no accumulator.
    pub open spec fn clip_count_at(self, id: int, site: nat) -> nat {
        self.accumulator_or_fresh(id).clip_count(site)
    }

    /// Whether contig `contig` has an accumulator and the registry declares
    /// it with this name and length.
    pub open spec fn heads_row(self, contig: usize, name: String, length: usize) -> bool {
        &&& contig < self.contigs.len()
        &&& self.data.dom().contains(contig as int)
        &&& name@ == self.contigs[contig as int].name@
        &&& length == self.contigs[contig as int].length
    }

    /// Whether `row` shows a reported clip site of its contig, with the
    /// coverage and the clip count found there.
    pub open spec fn shows_clip_row(
        self,
        row: ClipRow,
        min_dist_to_end: nat,
        min_ratio: Ratio,
    ) -> bool {
        &&& self.heads_row(row.contig, row.name, row.length)
        &&& self.data[row.contig as int].reports(row.pos as nat, min_dist_to_end, min_ratio)
        &&& row.coverage == self.data[row.contig as int].coverage[row.pos as int]
        &&& row.clipping == self.data[row.contig as int].clipping[row.pos as nat]
    }

    /// Whether `row` shows a maximal stretch of zero coverage of its contig.
    pub open spec fn shows_zero_row(self, row: ZeroRow) -> bool {
        &&& self.heads_row(row.contig, row.name, row.length)
        &&& is_zero_run(self.data[row.contig as int].coverage, row.interval())
    }

    /// Whether `rows` are the clip report of the assembly: one row for each
    /// reported clip site of each accumulator, ordered by contig and then by
    /// position.
    pub open spec fn lists_clip_rows(
        self,
        min_dist_to_end: nat,
        min_ratio: Ratio,
        rows: Seq<ClipRow>,
    ) -> bool {
        &&& forall|k: int|
            0 <= k < rows.len() ==> self.shows_clip_row(
                #[trigger] rows[k],
                min_dist_to_end,
                min_ratio,
            )
        &&& forall|k: int, l: int|
            0 <= k < l < rows.len() ==> {
                ||| (#[trigger] rows[k]).contig < (#[trigger] rows[l]).contig
                ||| rows[k].contig == rows[l].contig && rows[k].pos < rows[l].pos
            }
        &&& forall|id: int, p: nat|
            self.data.dom().contains(id) && #[trigger] self.data[id].reports(
                p,
                min_dist_to_end,
                min_ratio,
            ) ==> exists|k: int|
                0 <= k < rows.len() && (#[trigger] rows[k]).contig == id && rows[k].pos == p
    }

    /// Whether `rows` are the zero-coverage report of the assembly: one row
    /// for each maximal stretch of zero coverage of each accumulator, ordered
    /// by contig and then by position.
    pub open spec fn lists_zero_rows(self, rows: Seq<ZeroRow>) -> bool {
        &&& forall|k: int| 0 <= k < rows.len() ==> self.shows_zero_row(#[trigger] rows[k])
        &&& forall|k: int, l: int|
            0 <= k < l < rows.len() ==> {
                ||| (#[trigger] rows[k]).contig < (#[trigger] rows[l]).contig
                ||| rows[k].contig == rows[l].contig && rows[k].end <= rows[l].start
            }
        &&& forall|id: int, p: int|
            self.data.dom().contains(id) && 0 <= p < self.data[id].length() && (
            #[trigger] self.data[id].coverage[p]) == 0 ==> exists|k: int|
                0 <= k < rows.len() && (#[trigger] rows[k]).contig == id
                    && rows[k].interval().contains(p)
    }

    /// What processing one read makes of the assembly.
    ///
    /// An unmapped read changes nothing. A mapped read is walked over the
    /// accumulator of its contig, which is created if this is the contig's
    /// first read. A read that cannot be walked is an error, and the
    /// assembly stays as it was.
    pub open spec fn step(self, read: ReadRecord) -> Result<AssemblyModel, ReadError> {
        let id = read.reference_id as int;
        if read.unmapped {
            Ok(self)
        } else if !(0 <= id < self.contigs.len()) {
            Err(ReadError::UnknownContig)
        } else if read.position < 0 {
            Err(ReadError::NegativePosition)
        } else {
            let pos = read.position as nat;
            match self.accumulator_or_fresh(id).admits(pos, read.ops@) {
                Err(error) => Err(ReadError::Walk(error)),
                Ok(_) => Ok(
                    AssemblyModel {
                        contigs: self.contigs,
                        data: self.data.insert(
                            id,
                            self.accumulator_or_fresh(id).apply_read(pos, read.ops@),
                        ),
                    },
                ),
            }
        }
    }
}

/// The contig registry of an assembly and the accumulators of its contigs.
pub struct Assembly {
    contigs: Vec<ContigRecord>,
    data: HashMap<usize, ContigData>,
}

impl View for Assembly {
    type V = AssemblyModel;

    closed spec fn view(&self) -> AssemblyModel {
        AssemblyModel {
            contigs: self.contigs@,
            data: Map::new(
                |id: int| 0 <= id <= usize::MAX && self.data@.dom().contains(id as usize),
                |id: int| self.data@[id as usize]@,
            ),
        }
    }
}

impl Assembly {
    /// Every accumulator belongs to a contig of the registry and spans the
    /// length declared for it.
    pub closed spec fn wf(&self) -> bool {
        forall|id: usize| #[trigger]
            self.data@.dom().contains(id) ==> {
                &&& id < self.contigs@.len()
                &&& self.data@[id].wf()
                &&& self.data@[id]@.length() == self.contigs@[id as int].length
            }
    }

    /// A valid assembly holds a valid model.
    pub proof fn lemma_wf_model(&self)
        requires
            self.wf(),
        ensures
            self@.wf(),
    {
        assert forall|id: int| #[trigger] self@.data.dom().contains(id) implies {
            &&& 0 <= id < self@.contigs.len()
            &&& self@.data[id].wf()
            &&& self@.data[id].length() == self@.contigs[id].length
        } by {
            let key = id as usize;
            assert(self.data@.dom().contains(key));
            self.data@[key].lemma_wf_model();
        }
    }

    /// An assembly with the given registry and no accumulator yet.
    pub fn new(contigs: Vec<ContigRecord>) -> (assembly: Assembly)
        ensures
            assembly.wf(),
            assembly@ == AssemblyModel::fresh(contigs@),
    {
        let assembly = Assembly { contigs, data: HashMap::new() };
        assert(assembly@.data =~= Map::<int, ContigModel>::empty());
        assembly
    }

    /// The number of contigs in the registry.
    pub fn contig_count(&self) -> (count: usize)
        ensures
            count == self@.contigs.len(),
    {
        self.contigs.len()
    }

    /// The registry entry of contig `id`.
    pub fn contig(&self, id: usize) -> (record: &ContigRecord)
        requires
            id < self@.contigs.len(),
        ensures
            *record == self@.contigs[id as int],
    {
        &self.contigs[id]
    }

    /// The accumulator of contig `id`, if a mapped read has touched the
    /// contig.
    pub fn accumulator(&self, id: usize) -> (accumulator: Option<&ContigData>)
        requires
            self.wf(),
        ensures
            accumulator is Some <==> self@.data.dom().contains(id as int),
            accumulator matches Some(data) ==> data.wf() && data@ == self@.data[id as int],
    {
        self.data.get(&id)
    }

    /// The clip report: the clip sites of all accumulators that are reported
    /// under the given thresholds, ordered by contig and then by position.
    pub fn clip_report(&self, min_dist_to_end: usize, min_ratio: &Ratio) -> (rows: Vec<ClipRow>)
        requires
            self.wf(),
        ensures
            self@.lists_clip_rows(min_dist_to_end as nat, *min_ratio, rows@),
    {
        let ghost model = self@;
        let mut rows: Vec<ClipRow> = Vec::new();
        let mut id: usize = 0;
        while id < self.contigs.len()
            invariant
                self.wf(),
                model == self@,
                id <= self.contigs@.len(),
                forall|k: int|
                    0 <= k < rows@.len() ==> {
                        let row = #[trigger] rows@[k];
                        &&& model.shows_clip_row(row, min_dist_to_end as nat, *min_ratio)
                        &&& row.contig < id
                    },
                forall|k: int, l: int|
                    0 <= k < l < rows@.len() ==> {
                        ||| (#[trigger] rows@[k]).contig < (#[trigger] rows@[l]).contig
                        ||| rows@[k].contig == rows@[l].contig && rows@[k].pos < rows@[l].pos
                    },
                forall|c: int, p: nat|
                    c < id && model.data.dom().contains(c) && #[trigger] model.data[c].reports(
                        p,
                        min_dist_to_end as nat,
                        *min_ratio,
                    ) ==> exists|k: int|
                        0 <= k < rows@.len() && (#[trigger] rows@[k]).contig == c && rows@[k].pos
                            == p,
            decreases self.contigs@.len() - id,
        {
            if let Some(data) = self.data.get(&id) {
                let sites: Vec<ClipSite> = data.clip_sites(min_dist_to_end, min_ratio);
                let record = &self.contigs[id];
                let ghost earlier = rows@;
                let mut j: usize = 0;
                while j < sites.len()
                    invariant
                        model == self@,
                        id < self.contigs@.len(),
                        *record == self.contigs@[id as int],
                        model.data.dom().contains(id as int),
                        model.data[id as int].lists_clip_sites(
                            min_dist_to_end as nat,
                            *min_ratio,
                            sites@,
                        ),
                        j <= sites@.len(),
                        rows@.len() == earlier.len() + j,
                        forall|k: int| 0 <= k < earlier.len() ==> #[trigger] rows@[k] == earlier[k],
                        forall|k: int|
                            earlier.len() <= k < rows@.len() ==> {
                                let row = #[trigger] rows@[k];
                                let site = sites@[k - earlier.len()];
                                &&& model.heads_row(row.contig, row.name, row.length)
                                &&& row.contig == id
                                &&& row.pos == site.pos
                                &&& row.coverage == site.coverage
                                &&& row.clipping == site.clipping
                            },
                    decreases sites@.len() - j,
                {
                    let site = sites[j];
                    rows.push(
                        ClipRow {
                            contig: id,
                            name: record.name.clone(),
                            length: record.length,
                            pos: site.pos,
                            coverage: site.coverage,
                            clipping: site.clipping,
                        },
                    );
                    j += 1;
                }
                proof {
                    let acc = model.data[id as int];
                    assert forall|k: int, l: int| 0 <= k < l < rows@.len() implies {
                        ||| (#[trigger] rows@[k]).contig < (#[trigger] rows@[l]).contig
                        ||| rows@[k].contig == rows@[l].contig && rows@[k].pos < rows@[l].pos
                    } by {
                        if l < earlier.len() {
                            assert(rows@[k] == earlier[k] && rows@[l] == earlier[l]);
                        } else if k < earlier.len() {
                            assert(rows@[k] == earlier[k]);
                        } else {
                            assert(sites@[k - earlier.len()].pos < sites@[l - earlier.len()].pos);
                        }
                    }
                    assert forall|c: int, p: nat|
                        c < id + 1 && model.data.dom().contains(c)
                            && #[trigger] model.data[c].reports(
                            p,
                            min_dist_to_end as nat,
                            *min_ratio,
                        ) implies exists|k: int|
                        0 <= k < rows@.len() && (#[trigger] rows@[k]).contig == c && rows@[k].pos
                            == p by {
                        if c < id {
                            let k = choose|k: int|
                                0 <= k < earlier.len() && (#[trigger] earlier[k]).contig == c
                                    && earlier[k].pos == p;
                            assert(rows@[k] == earlier[k]);
                        } else {
                            let j = choose|j: int|
                                0 <= j < sites@.len() && (#[trigger] sites@[j]).pos == p;
                            assert(rows@[earlier.len() + j].pos == p);
                        }
                    }
                    assert forall|k: int| 0 <= k < rows@.len() implies {
                        let row = #[trigger] rows@[k];
                        &&& model.shows_clip_row(row, min_dist_to_end as nat, *min_ratio)
                        &&& row.contig < id + 1
                    } by {
                        if k < earlier.len() {
                            assert(rows@[k] == earlier[k]);
                        } else {
                            let site = sites@[k - earlier.len()];
                            assert(acc.reports(
                                site.pos as nat,
                                min_dist_to_end as nat,
                                *min_ratio,
                            ));
                        }
                    }
                }
            }
            id += 1;
        }
        rows
    }

    /// The zero-coverage report: the maximal stretches of zero coverage of
    /// all accumulators, ordered by contig and then by position.
    pub fn zero_coverage_report(&self) -> (rows: Vec<ZeroRow>)
        requires
            self.wf(),
        ensures
            self@.lists_zero_rows(rows@),
    {
        let ghost model = self@;
        let mut rows: Vec<ZeroRow> = Vec::new();
        let mut id: usize = 0;
        while id < self.contigs.len()
            invariant
                self.wf(),
                model == self@,
                id <= self.contigs@.len(),
                forall|k: int|
                    0 <= k < rows@.len() ==> {
                        let row = #[trigger] rows@[k];
                        &&& model.shows_zero_row(row)
                        &&& row.contig < id
                    },
                forall|k: int, l: int|
                    0 <= k < l < rows@.len() ==> {
                        ||| (#[trigger] rows@[k]).contig < (#[trigger] rows@[l]).contig
                        ||| rows@[k].contig == rows@[l].contig && rows@[k].end <= rows@[l].start
                    },
                forall|c: int, p: int|
                    c < id && model.data.dom().contains(c) && 0 <= p < model.data[c].length() && (
                    #[trigger] model.data[c].coverage[p]) == 0 ==> exists|k: int|
                        0 <= k < rows@.len() && (#[trigger] rows@[k]).contig == c
                            && rows@[k].interval().contains(p),
            decreases self.contigs@.len() - id,
        {
            if let Some(data) = self.data.get(&id) {
                let runs: Vec<Interval> = data.zero_intervals();
                let record = &self.contigs[id];
                let ghost earlier = rows@;
                let mut j: usize = 0;
                while j < runs.len()
                    invariant
                        model == self@,
                        id < self.contigs@.len(),
                        *record == self.contigs@[id as int],
                        model.data.dom().contains(id as int),
                        j <= runs@.len(),
                        rows@.len() == earlier.len() + j,
                        forall|k: int| 0 <= k < earlier.len() ==> #[trigger] rows@[k] == earlier[k],
                        forall|k: int|
                            earlier.len() <= k < rows@.len() ==> {
                                let row = #[trigger] rows@[k];
                                &&& model.heads_row(row.contig, row.name, row.length)
                                &&& row.contig == id
                                &&& row.interval() == runs@[k - earlier.len()]
                            },
                    decreases runs@.len() - j,
                {
                    let run = runs[j];
                    rows.push(
                        ZeroRow {
                            contig: id,
                            name: record.name.clone(),
                            length: record.length,
                            start: run.start,
                            end: run.end,
                        },
                    );
                    j += 1;
                }
                proof {
                    let acc = model.data[id as int];
                    assert forall|k: int, l: int| 0 <= k < l < rows@.len() implies {
                        ||| (#[trigger] rows@[k]).contig < (#[trigger] rows@[l]).contig
                        ||| rows@[k].contig == rows@[l].contig && rows@[k].end <= rows@[l].start
                    } by {
                        if l < earlier.len() {
                            assert(rows@[k] == earlier[k] && rows@[l] == earlier[l]);
                        } else if k < earlier.len() {
                            assert(rows@[k] == earlier[k]);
                        } else {
                            assert(rows@[k].interval() == runs@[k - earlier.len()]);
                            assert(rows@[l].interval() == runs@[l - earlier.len()]);
                            assert(runs@[k - earlier.len()].end <= runs@[l - earlier.len()].start);
                        }
                    }
                    assert forall|c: int, p: int|
                        c < id + 1 && model.data.dom().contains(c) && 0 <= p
                            < model.data[c].length() && (#[trigger] model.data[c].coverage[p])
                            == 0 implies exists|k: int|
                        0 <= k < rows@.len() && (#[trigger] rows@[k]).contig == c
                            && rows@[k].interval().contains(p) by {
                        if c < id {
                            let k = choose|k: int|
                                0 <= k < earlier.len() && (#[trigger] earlier[k]).contig == c
                                    && earlier[k].interval().contains(p);
                            assert(rows@[k] == earlier[k]);
                        } else {
                            assert(in_some_run(runs@, p));
                            let j = choose|j: int|
                                0 <= j < runs@.len() && (#[trigger] runs@[j]).contains(p);
                            assert(rows@[earlier.len() + j].interval() == runs@[j]);
                        }
                    }
                    assert forall|k: int| 0 <= k < rows@.len() implies {
                        let row = #[trigger] rows@[k];
                        &&& model.shows_zero_row(row)
                        &&& row.contig < id + 1
                    } by {
                        if k < earlier.len() {
                            assert(rows@[k] == earlier[k]);
                        } else {
                            assert(rows@[k].interval() == runs@[k - earlier.len()]);
                            assert(is_zero_run(acc.coverage, runs@[k - earlier.len()]));
                        }
                    }
                }
            }
            id += 1;
        }
        rows
    }

    /// Processes one read of the stream: an unmapped read is skipped, a
    /// mapped read is walked over the accumulator of its contig, which is
    /// created with the contig's first read. A read that cannot be walked is
    /// an error and leaves the assembly as it was.
    pub fn process_read(&mut self, read: &ReadRecord) -> (outcome: Result<(), ReadError>)
        requires
            old(self).wf(),
        ensures
            final(self).wf(),
            match old(self)@.step(*read) {
                Ok(next) => outcome is Ok && final(self)@ == next,
                Err(error) => outcome == Err::<(), ReadError>(error) && final(self)@ == old(self)@,
            },
            final(self)@.contigs == old(self)@.contigs,
            forall|id: int| #[trigger]
                final(self)@.data.dom().contains(id) <==> old(self)@.data.dom().contains(id) || (
                outcome is Ok && maps_to(*read, id)),
    {
        if read.unmapped {
            return Ok(());
        }
        if read.reference_id < 0 || read.reference_id as usize >= self.contigs.len() {
            return Err(ReadError::UnknownContig);
        }
        let id = read.reference_id as usize;
        if read.position < 0 {
            return Err(ReadError::NegativePosition);
        }
        if read.position as u64 > usize::MAX as u64 {
            proof {
                lemma_cursor_monotone(
                    read.position as nat,
                    read.ops@,
                    0,
                    read.ops@.len() as int,
                );
            }
            return Err(ReadError::Walk(WalkError::OutOfBounds));
        }
        let pos = read.position as usize;
        let length = self.contigs[id].length;
        let ghost before = self@;
        let (mut accumulator, known) = match self.data.remove(&id) {
            Some(accumulator) => (accumulator, true),
            None => (ContigData::new(length), false),
        };
        assert(accumulator@ == before.accumulator_or_fresh(id as int));
        match accumulator.try_apply_read(pos, read.ops.as_slice()) {
            Ok(_) => {
                self.data.insert(id, accumulator);
                assert(self@.data =~= before.step(*read).unwrap().data);
                Ok(())
            },
            Err(error) => {
                if known {
                    self.data.insert(id, accumulator);
                }
                assert(self@.data =~= before.data);
                Err(ReadError::Walk(error))
            },
        }
    }
}

/// Whether `read` is a mapped read on contig `id`.
pub open spec fn maps_to(read: ReadRecord, id: int) -> bool {
    !read.unmapped && read.reference_id == id
}

/// How many of the first `n` reads are mapped to contig `id` and cover its
/// position `p`.
pub open spec fn covering_reads(reads: Seq<ReadRecord>, n: int, id: int, p: nat) -> nat
    decreases n,
{
    if n <= 0 {
        0
    } else {
        covering_reads(reads, n - 1, id, p) + if maps_to(reads[n - 1], id) && covers(
            reads[n - 1].position as nat,
            reads[n - 1].ops@,
            p,
        ) {
            1nat
        } else {
            0nat
        }
    }
}

/// How many clips the first `n` reads record at `site` of contig `id`, a
/// contig of `contig_len` bases.
pub open spec fn recorded_clips(
    reads: Seq<ReadRecord>,
    n: int,
    id: int,
    contig_len: nat,
    site: nat,
) -> nat
    decreases n,
{
    if n <= 0 {
        0
    } else {
        recorded_clips(reads, n - 1, id, contig_len, site) + if maps_to(reads[n - 1], id) {
            clip_hits(
                contig_len,
                reads[n - 1].position as nat,
                reads[n - 1].ops@,
                reads[n - 1].ops@.len() as int,
                site,
            )
        } else {
            0nat
        }
    }
}

impl AssemblyModel {
    /// Processing a read keeps the registry and the validity of the
    /// assembly.
    pub proof fn lemma_step_keeps_shape(self, read: ReadRecord)
        requires
            self.wf(),
            self.step(read) is Ok,
        ensures
            self.step(read).unwrap().wf(),
            self.step(read).unwrap().contigs == self.contigs,
    {
        let id = read.reference_id as int;
        if !read.unmapped {
            self.accumulator_or_fresh(id).lemma_apply_read_keeps_shape(
                read.position as nat,
                read.ops@,
            );
        }
    }

    /// A run that succeeds keeps the registry and the validity of the
    /// assembly.
    pub proof fn lemma_run_keeps_shape(self, reads: Seq<ReadRecord>)
        requires
            self.wf(),
            self.run(reads) is Ok,
        ensures
            self.run(reads).unwrap().wf(),
            self.run(reads).unwrap().contigs == self.contigs,
        decreases reads.len(),
    {
        if reads.len() > 0 {
            self.lemma_run_keeps_shape(reads.drop_last());
            self.run(reads.drop_last()).unwrap().lemma_step_keeps_shape(reads.last());
        }
    }

    /// Accumulators are created by mapped reads alone: after a run, a contig
    /// has an accumulator exactly when it had one before or a mapped read of
    /// the stream lies on it.
    pub proof fn lemma_accumulators_follow_reads(self, reads: Seq<ReadRecord>, id: int)
        requires
            self.run(reads) is Ok,
        ensures
            self.run(reads).unwrap().data.dom().contains(id) <==> self.data.dom().contains(id)
                || exists|k: int| 0 <= k < reads.len() && maps_to(#[trigger] reads[k], id),
        decreases reads.len(),
    {
        if reads.len() > 0 {
            let earlier = reads.drop_last();
            let last = reads.last();
            self.lemma_accumulators_follow_reads(earlier, id);
            if exists|k: int| 0 <= k < earlier.len() && maps_to(#[trigger] earlier[k], id) {
                let k = choose|k: int| 0 <= k < earlier.len() && maps_to(#[trigger] earlier[k], id);
                assert(maps_to(reads[k], id));
            }
            if maps_to(last, id) {
                assert(maps_to(reads[reads.len() - 1], id));
            }
            if exists|k: int| 0 <= k < reads.len() && maps_to(#[trigger] reads[k], id) {
                let k = choose|k: int| 0 <= k < reads.len() && maps_to(#[trigger] reads[k], id);
                if k < earlier.len() {
                    assert(maps_to(earlier[k], id));
                }
            }
        }
    }

    /// Over an assembly that starts without accumulators, the contigs that no
    /// mapped read touches never get one.
    pub proof fn lemma_untouched_contig_has_no_accumulator(
        contigs: Seq<ContigRecord>,
        reads: Seq<ReadRecord>,
        id: int,
    )
        requires
            AssemblyModel::fresh(contigs).run(reads) is Ok,
            forall|k: int| 0 <= k < reads.len() ==> !maps_to(#[trigger] reads[k], id),
        ensures
            !AssemblyModel::fresh(contigs).run(reads).unwrap().data.dom().contains(id),
    {
        AssemblyModel::fresh(contigs).lemma_accumulators_follow_reads(reads, id);
    }

    /// After a run, the coverage of a position is what it was before plus
    /// the number of reads of the stream that are mapped to the contig and
    /// cover the position.
    pub proof fn lemma_coverage_counts_reads(self, reads: Seq<ReadRecord>, id: int, p: int)
        requires
            self.wf(),
            self.run(reads) is Ok,
            0 <= id < self.contigs.len(),
            0 <= p < self.contigs[id].length,
        ensures
            self.run(reads).unwrap().coverage_at(id, p) == self.coverage_at(id, p)
                + covering_reads(reads, reads.len() as int, id, p as nat),
        decreases reads.len(),
    {
        if reads.len() > 0 {
            let earlier = reads.drop_last();
            let last = reads.last();
            self.lemma_coverage_counts_reads(earlier, id, p);
            self.lemma_run_keeps_shape(earlier);
            let so_far = self.run(earlier).unwrap();
            assert(covering_reads(reads, reads.len() - 1, id, p as nat) == covering_reads(
                earlier,
                earlier.len() as int,
                id,
                p as nat,
            )) by {
                lemma_covering_reads_prefix(reads, earlier, earlier.len() as int, id, p as nat);
            }
            if maps_to(last, id) {
                so_far.accumulator_or_fresh(id).lemma_coverage_additive(
                    last.position as nat,
                    last.ops@,
                    p,
                );
            }
        }
    }

    /// After a run, the clip count of a site is what it was before plus the
    /// number of clips that the reads of the stream record there.
    pub proof fn lemma_clipping_counts_reads(self, reads: Seq<ReadRecord>, id: int, site: nat)
        requires
            self.wf(),
            self.run(reads) is Ok,
            0 <= id < self.contigs.len(),
        ensures
            self.run(reads).unwrap().clip_count_at(id, site) == self.clip_count_at(id, site)
                + recorded_clips(
                reads,
                reads.len() as int,
                id,
                self.contigs[id].length as nat,
                site,
            ),
        decreases reads.len(),
    {
        if reads.len() > 0 {
            let earlier = reads.drop_last();
            let last = reads.last();
            let contig_len = self.contigs[id].length as nat;
            self.lemma_clipping_counts_reads(earlier, id, site);
            self.lemma_run_keeps_shape(earlier);
            let so_far = self.run(earlier).unwrap();
            assert(recorded_clips(reads, reads.len() - 1, id, contig_len, site) == recorded_clips(
                earlier,
                earlier.len() as int,
                id,
                contig_len,
                site,
            )) by {
                lemma_recorded_clips_prefix(
                    reads,
                    earlier,
                    earlier.len() as int,
                    id,
                    contig_len,
                    site,
                );
            }
            if maps_to(last, id) {
                so_far.accumulator_or_fresh(id).lemma_clip_count_additive(
                    last.position as nat,
                    last.ops@,
                    site,
                );
            }
        }
    }

    /// Coverage never decreases along a run, and no clip count does.
    pub proof fn lemma_run_never_decreases(self, reads: Seq<ReadRecord>, id: int, p: int)
        requires
            self.wf(),
            self.run(reads) is Ok,
            0 <= id < self.contigs.len(),
            0 <= p < self.contigs[id].length,
        ensures
            self.run(reads).unwrap().coverage_at(id, p) >= self.coverage_at(id, p),
            self.run(reads).unwrap().clip_count_at(id, p as nat) >= self.clip_count_at(
                id,
                p as nat,
            ),
    {
        self.lemma_coverage_counts_reads(reads, id, p);
        self.lemma_clipping_counts_reads(reads, id, p as nat);
    }
}

/// The count over the first `n` reads does not depend on the reads after
/// them.
proof fn lemma_covering_reads_prefix(
    reads: Seq<ReadRecord>,
    earlier: Seq<ReadRecord>,
    n: int,
    id: int,
    p: nat,
)
    requires
        0 <= n <= earlier.len() <= reads.len(),
        forall|k: int| 0 <= k < earlier.len() ==> earlier[k] == reads[k],
    ensures
        covering_reads(reads, n, id, p) == covering_reads(earlier, n, id, p),
    decreases n,
{
    if n > 0 {
        lemma_covering_reads_prefix(reads, earlier, n - 1, id, p);
    }
}

/// The clips recorded by the first `n` reads do not depend on the reads
/// after them.
proof fn lemma_recorded_clips_prefix(
    reads: Seq<ReadRecord>,
    earlier: Seq<ReadRecord>,
    n: int,
    id: int,
    contig_len: nat,
    site: nat,
)
    requires
        0 <= n <= earlier.len() <= reads.len(),
        forall|k: int| 0 <= k < earlier.len() ==> earlier[k] == reads[k],
    ensures
        recorded_clips(reads, n, id, contig_len, site) == recorded_clips(
            earlier,
            n,
            id,
            contig_len,
            site,
        ),
    decreases n,
{
    if n > 0 {
        lemma_recorded_clips_prefix(reads, earlier, n - 1, id, contig_len, site);
    }
}

} // verus!
