//! The per-contig accumulator: a dense coverage array and a sparse map of
//! clip sites.

use crate::cigar::{
    clip_hits, clip_site, covers, cursor_at, end_cursor, in_bounds, lemma_clip_hits_at_most,
    lemma_clip_hits_monotone, lemma_covers_iff_hit, lemma_cursor_monotone, lemma_no_site_no_hit,
    lemma_span_hits_at_most_one, lemma_span_hits_before_cursor, lemma_span_hits_monotone,
    mark_of_clip, span_hits, CigarOp, OpKind,
};
use crate::clip_report::{is_far_from_ends, qualifies, ClipSite, Ratio};
use crate::zero_coverage::{
    counts, covered_count, tiles_zero_coverage, total_span, zero_intervals, Interval,
};
use std::collections::HashMap;
use vstd::prelude::*;

verus! {

broadcast use vstd::std_specs::hash::group_hash_axioms;

/// What an accumulator holds, as mathematical values.
pub struct ContigModel {
    /// Coverage per position; the length of the sequence is the contig length.
    pub coverage: Seq<nat>,
    /// Clip count per clip site. A site is in the domain exactly when at
    /// least one clip was recorded there.
    pub clipping: Map<nat, nat>,
}

impl ContigModel {
    /// The accumulator of a contig of `length` bases that no read has touched.
    pub open spec fn empty(length: nat) -> ContigModel {
        ContigModel { coverage: Seq::new(length, |p: int| 0nat), clipping: Map::empty() }
    }

    /// The contig length.
    pub open spec fn length(self) -> nat {
        self.coverage.len()
    }

    /// The number of clips recorded at `site`, zero where none was.
    pub open spec fn clip_count(self, site: nat) -> nat {
        if self.clipping.dom().contains(site) {
            self.clipping[site]
        } else {
            0
        }
    }

    /// Every stored clip count is positive.
    pub open spec fn wf(self) -> bool {
        forall|s: nat| self.clipping.dom().contains(s) ==> #[trigger] self.clipping[s] > 0
    }

    /// The model after one more clip at `site`.
    pub open spec fn add_clipping(self, site: nat) -> ContigModel {
        ContigModel {
            coverage: self.coverage,
            clipping: self.clipping.insert(site, self.clip_count(site) + 1),
        }
    }

    /// The model after one more read over the positions in `[start, end)`.
    pub open spec fn cover(self, start: nat, end: nat) -> ContigModel {
        ContigModel {
            coverage: Seq::new(
                self.coverage.len(),
                |p: int|
                    if start <= p < end {
                        self.coverage[p] + 1
                    } else {
                        self.coverage[p]
                    },
            ),
            clipping: self.clipping,
        }
    }

    /// The model after the first `n` operations of a read at `pos` have been
    /// walked: each position gains one per operation that covers it, each
    /// site one per clip recorded there.
    pub open spec fn apply_prefix(self, pos: nat, ops: Seq<CigarOp>, n: int) -> ContigModel {
        ContigModel {
            coverage: Seq::new(
                self.coverage.len(),
                |p: int| self.coverage[p] + span_hits(pos, ops, n, p as nat),
            ),
            clipping: Map::new(
                |s: nat| self.clip_count(s) + clip_hits(self.length(), pos, ops, n, s) > 0,
                |s: nat| self.clip_count(s) + clip_hits(self.length(), pos, ops, n, s),
            ),
        }
    }

    /// The model after a read at `pos` with operations `ops` has been walked.
    pub open spec fn apply_read(self, pos: nat, ops: Seq<CigarOp>) -> ContigModel {
        self.apply_prefix(pos, ops, ops.len() as int)
    }

    /// Whether every counter of the model fits the accumulator's counters.
    pub open spec fn representable(self) -> bool {
        &&& forall|p: int| 0 <= p < self.coverage.len() ==> #[trigger] self.coverage[p] <= u32::MAX
        &&& forall|s: nat| #[trigger] self.clip_count(s) <= u32::MAX
    }

    /// Whether a read at `pos` with operations `ops` can be walked over the
    /// accumulator, and if not, why not.
    ///
    /// It cannot when its cursor leaves the machine's range or one of its
    /// match-like operations leaves the contig, and it cannot when a counter
    /// would pass its largest value.
    pub open spec fn admits(self, pos: nat, ops: Seq<CigarOp>) -> Result<(), WalkError> {
        if !(end_cursor(pos, ops) <= usize::MAX && in_bounds(self.length(), pos, ops)) {
            Err(WalkError::OutOfBounds)
        } else if !self.apply_read(pos, ops).representable() {
            Err(WalkError::CounterOverflow)
        } else {
            Ok(())
        }
    }

    /// Whether the clip site at position `p` is reported under the given
    /// thresholds.
    pub open spec fn reports(self, p: nat, min_dist_to_end: nat, min_ratio: Ratio) -> bool {
        &&& self.clipping.dom().contains(p)
        &&& p < self.length()
        &&& qualifies(
            self.length(),
            p,
            self.coverage[p as int],
            self.clipping[p],
            min_dist_to_end,
            min_ratio,
        )
    }

    /// Whether `sites` are the reported clip sites of the accumulator, each
    /// with its coverage and clip count, in ascending order of position.
    pub open spec fn lists_clip_sites(
        self,
        min_dist_to_end: nat,
        min_ratio: Ratio,
        sites: Seq<ClipSite>,
    ) -> bool {
        &&& forall|k: int|
            0 <= k < sites.len() ==> {
                let site = #[trigger] sites[k];
                &&& self.reports(site.pos as nat, min_dist_to_end, min_ratio)
                &&& site.coverage == self.coverage[site.pos as int]
                &&& site.clipping == self.clipping[site.pos as nat]
            }
        &&& forall|k: int, l: int|
            0 <= k < l < sites.len() ==> (#[trigger] sites[k]).pos < (#[trigger] sites[l]).pos
        &&& forall|p: nat|
            self.reports(p, min_dist_to_end, min_ratio) ==> exists|k: int|
                0 <= k < sites.len() && (#[trigger] sites[k]).pos == p
    }
}

/// Why a read cannot be walked over an accumulator.
#[derive(Clone, Copy, Debug, PartialEq, Eq, Structural)]
pub enum WalkError {
    /// A match-like operation of the read leaves the contig, or the read's
    /// cursor leaves the machine's range.
    OutOfBounds,
    /// A coverage or clip counter would pass its largest value.
    CounterOverflow,
}

/// Coverage and clip counts of one contig.
#[derive(Debug)]
pub struct ContigData {
    coverage: Vec<u32>,
    clipping: HashMap<usize, u32>,
    length: usize,
}

impl View for ContigData {
    type V = ContigModel;

    closed spec fn view(&self) -> ContigModel {
        ContigModel {
            coverage: Seq::new(self.coverage@.len(), |p: int| self.coverage@[p] as nat),
            clipping: Map::new(
                |s: nat| s <= usize::MAX && self.clipping@.dom().contains(s as usize),
                |s: nat| self.clipping@[s as usize] as nat,
            ),
        }
    }
}

impl ContigData {
    /// The coverage array spans the contig, and every stored clip count is
    /// positive.
    pub closed spec fn wf(&self) -> bool {
        &&& self.coverage@.len() == self.length
        &&& forall|s: usize| self.clipping@.dom().contains(s) ==> #[trigger] self.clipping@[s] > 0
    }

    /// A valid accumulator holds a valid model whose counters fit.
    pub proof fn lemma_wf_model(&self)
        requires
            self.wf(),
        ensures
            self@.wf(),
            self@.representable(),
    {
    }

    /// An accumulator for a contig of `length` bases: zero coverage
    /// everywhere and no clip site.
    pub fn new(length: usize) -> (data: ContigData)
        ensures
            data.wf(),
            data@ == ContigModel::empty(length as nat),
    {
        let coverage = vec![0u32; length];
        let data = ContigData { coverage, clipping: HashMap::new(), length };
        assert(data@.coverage =~= ContigModel::empty(length as nat).coverage);
        assert(data@.clipping =~= ContigModel::empty(length as nat).clipping);
        data
    }

    /// An accumulator that starts from the given coverage array, with no
    /// clip site.
    pub fn from_coverage(coverage: Vec<u32>) -> (data: ContigData)
        ensures
            data.wf(),
            data@.coverage == counts(coverage@),
            data@.clipping == Map::<nat, nat>::empty(),
    {
        let length = coverage.len();
        let data = ContigData { coverage, clipping: HashMap::new(), length };
        assert(data@.coverage =~= counts(coverage@));
        assert(data@.clipping =~= Map::<nat, nat>::empty());
        data
    }

    /// The contig length.
    pub fn length(&self) -> (length: usize)
        requires
            self.wf(),
        ensures
            length == self@.length(),
    {
        self.length
    }

    /// The coverage at position `pos`.
    pub fn coverage(&self, pos: usize) -> (coverage: u32)
        requires
            self.wf(),
            pos < self@.length(),
        ensures
            coverage == self@.coverage[pos as int],
    {
        self.coverage[pos]
    }

    /// The number of clips recorded at position `pos`.
    pub fn clipping(&self, pos: usize) -> (clipping: u32)
        requires
            self.wf(),
        ensures
            clipping == self@.clip_count(pos as nat),
    {
        match self.clipping.get(&pos) {
            Some(count) => *count,
            None => 0,
        }
    }

    /// Records one clip at `pos`.
    pub fn add_clipping(&mut self, pos: usize)
        requires
            old(self).wf(),
            old(self)@.clip_count(pos as nat) < u32::MAX,
        ensures
            final(self).wf(),
            final(self)@ == old(self)@.add_clipping(pos as nat),
    {
        let count = self.clipping.entry(pos).or_insert(0);
        *count += 1;
        assert(self@.clipping =~= old(self)@.add_clipping(pos as nat).clipping);
        assert(self@.coverage =~= old(self)@.coverage);
    }

    /// Counts one more read over every position in `[start, end)`.
    fn cover(&mut self, start: usize, end: usize)
        requires
            old(self).wf(),
            start <= end <= old(self)@.length(),
            forall|p: int| start <= p < end ==> #[trigger] old(self)@.coverage[p] < u32::MAX,
        ensures
            final(self).wf(),
            final(self)@ == old(self)@.cover(start as nat, end as nat),
    {
        let mut p: usize = start;
        while p < end
            invariant
                self.wf(),
                start <= p <= end <= old(self)@.length(),
                self.clipping == old(self).clipping,
                self.coverage@.len() == old(self).coverage@.len(),
                forall|q: int|
                    0 <= q < self.coverage@.len() ==> #[trigger] self.coverage@[q] == if start <= q
                        < p {
                        old(self).coverage@[q] + 1
                    } else {
                        old(self).coverage@[q] as int
                    },
                forall|q: int| start <= q < end ==> #[trigger] old(self)@.coverage[q] < u32::MAX,
            decreases end - p,
        {
            assert(old(self)@.coverage[p as int] < u32::MAX);
            self.coverage[p] += 1;
            p += 1;
        }
        assert(self@.coverage =~= old(self)@.cover(start as nat, end as nat).coverage);
        assert(self@.clipping =~= old(self)@.clipping);
    }

    /// Walks a read at `pos` with operations `ops` over the accumulator:
    /// match-like operations raise the coverage of the positions they span,
    /// clips raise the count of the site they mark.
    pub fn apply_read(&mut self, pos: usize, ops: &[CigarOp])
        requires
            old(self).wf(),
            old(self)@.admits(pos as nat, ops@) is Ok,
        ensures
            final(self).wf(),
            final(self)@ == old(self)@.apply_read(pos as nat, ops@),
            final(self)@.length() == old(self)@.length(),
            forall|p: int|
                0 <= p < old(self)@.length() ==> #[trigger] final(self)@.coverage[p] >= old(
                    self,
                )@.coverage[p],
    {
        let ghost before = self@;
        proof {
            before.lemma_apply_prefix_zero(pos as nat, ops@);
        }
        let mut cursor: usize = pos;
        let mut i: usize = 0;
        while i < ops.len()
            invariant
                self.wf(),
                before.wf(),
                before == old(self)@,
                i <= ops.len(),
                cursor == cursor_at(pos as nat, ops@, i as int),
                end_cursor(pos as nat, ops@) <= usize::MAX,
                in_bounds(before.length(), pos as nat, ops@),
                before.apply_read(pos as nat, ops@).representable(),
                self@ == before.apply_prefix(pos as nat, ops@, i as int),
            decreases ops.len() - i,
        {
            let op = ops[i];
            let ghost now = self@;
            proof {
                lemma_cursor_monotone(pos as nat, ops@, i + 1, ops@.len() as int);
                assert(self@.length() == self.length);
                assert(before.apply_prefix(pos as nat, ops@, i as int).length()
                    == before.length());
            }
            match op.kind {
                OpKind::MatchLike => {
                    let end = cursor + op.len as usize;
                    proof {
                        before.lemma_cover_step(pos as nat, ops@, i as int);
                    }
                    if op.len > 0 {
                        self.cover(cursor, end);
                    }
                    assert(self@ == now.cover(cursor as nat, end as nat)) by {
                        assert(self@.coverage =~= now.cover(cursor as nat, end as nat).coverage);
                    }
                    cursor = end;
                },
                OpKind::Deletion => {
                    proof {
                        before.lemma_idle_step(pos as nat, ops@, i as int);
                    }
                    cursor = cursor + op.len as usize;
                },
                OpKind::Clip => {
                    match mark_of_clip(self.length, cursor, i == 0) {
                        Some(site) => {
                            proof {
                                before.lemma_clip_step(pos as nat, ops@, i as int);
                            }
                            self.add_clipping(site);
                        },
                        None => {
                            proof {
                                before.lemma_idle_step(pos as nat, ops@, i as int);
                            }
                        },
                    }
                },
                OpKind::Other => {
                    proof {
                        before.lemma_idle_step(pos as nat, ops@, i as int);
                    }
                },
            }
            i += 1;
        }
    }

    /// Decides whether the read's cursor stays in the machine's range and
    /// each of its match-like operations within the contig.
    pub fn is_in_bounds(&self, pos: usize, ops: &[CigarOp]) -> (ok: bool)
        requires
            self.wf(),
        ensures
            ok == (end_cursor(pos as nat, ops@) <= usize::MAX && in_bounds(
                self@.length(),
                pos as nat,
                ops@,
            )),
    {
        let mut cursor: usize = pos;
        let mut i: usize = 0;
        while i < ops.len()
            invariant
                self.wf(),
                i <= ops.len(),
                cursor == cursor_at(pos as nat, ops@, i as int),
                forall|j: int|
                    0 <= j < i && ops@[j].kind == OpKind::MatchLike && ops@[j].len > 0
                        ==> #[trigger] cursor_at(pos as nat, ops@, j) + ops@[j].len
                        <= self@.length(),
            decreases ops.len() - i,
        {
            let op = ops[i];
            proof {
                lemma_cursor_monotone(pos as nat, ops@, i + 1, ops@.len() as int);
            }
            match op.kind {
                OpKind::MatchLike | OpKind::Deletion => {
                    let len = op.len as usize;
                    if len > usize::MAX - cursor {
                        return false;
                    }
                    let end = cursor + len;
                    if matches!(op.kind, OpKind::MatchLike) && op.len > 0 && end > self.length {
                        return false;
                    }
                    cursor = end;
                },
                _ => {},
            }
            i += 1;
        }
        true
    }

    /// Decides whether every coverage counter in `[start, end)` is below its
    /// largest value.
    fn span_has_room(&self, start: usize, end: usize) -> (ok: bool)
        requires
            self.wf(),
            start <= end <= self@.length(),
        ensures
            ok == forall|p: int| start <= p < end ==> #[trigger] self@.coverage[p] < u32::MAX,
    {
        let mut q: usize = start;
        while q < end
            invariant
                self.wf(),
                start <= q <= end <= self@.length(),
                forall|p: int| start <= p < q ==> #[trigger] self@.coverage[p] < u32::MAX,
            decreases end - q,
        {
            if self.coverage[q] == u32::MAX {
                assert(!(self@.coverage[q as int] < u32::MAX));
                return false;
            }
            q += 1;
        }
        true
    }

    /// Decides whether every counter has room for the read.
    fn has_room(&self, pos: usize, ops: &[CigarOp]) -> (ok: bool)
        requires
            self.wf(),
            end_cursor(pos as nat, ops@) <= usize::MAX,
            in_bounds(self@.length(), pos as nat, ops@),
        ensures
            ok == self@.apply_read(pos as nat, ops@).representable(),
    {
        let ghost model = self@;
        proof {
            model.lemma_apply_prefix_zero(pos as nat, ops@);
            self.lemma_wf_model();
        }
        // The clips that the operations walked so far record, per site.
        let mut recorded: HashMap<usize, usize> = HashMap::new();
        let mut cursor: usize = pos;
        let mut i: usize = 0;
        while i < ops.len()
            invariant
                self.wf(),
                model.wf(),
                model == self@,
                i <= ops.len(),
                cursor == cursor_at(pos as nat, ops@, i as int),
                end_cursor(pos as nat, ops@) <= usize::MAX,
                in_bounds(model.length(), pos as nat, ops@),
                model.apply_prefix(pos as nat, ops@, i as int).representable(),
                forall|s: usize|
                    #[trigger] recorded@.dom().contains(s) ==> clip_hits(
                        model.length(),
                        pos as nat,
                        ops@,
                        i as int,
                        s as nat,
                    ) == recorded@[s],
                forall|s: usize|
                    !(#[trigger] recorded@.dom().contains(s)) ==> clip_hits(
                        model.length(),
                        pos as nat,
                        ops@,
                        i as int,
                        s as nat,
                    ) == 0,
            decreases ops.len() - i,
        {
            let op = ops[i];
            proof {
                lemma_cursor_monotone(pos as nat, ops@, i + 1, ops@.len() as int);
                assert(model.length() == self.length);
            }
            match op.kind {
                OpKind::MatchLike => {
                    let end = cursor + op.len as usize;
                    proof {
                        model.lemma_cover_room(pos as nat, ops@, i as int);
                    }
                    if op.len > 0 && !self.span_has_room(cursor, end) {
                        proof {
                            model.lemma_overflow_stays(pos as nat, ops@, i + 1);
                        }
                        return false;
                    }
                    cursor = end;
                },
                OpKind::Deletion => {
                    proof {
                        model.lemma_idle_step(pos as nat, ops@, i as int);
                    }
                    cursor = cursor + op.len as usize;
                },
                OpKind::Clip => {
                    match mark_of_clip(self.length, cursor, i == 0) {
                        Some(site) => {
                            let earlier: usize = match recorded.get(&site) {
                                Some(n) => *n,
                                None => 0,
                            };
                            let stored: u32 = self.clipping(site);
                            proof {
                                lemma_clip_hits_at_most(
                                    model.length(),
                                    pos as nat,
                                    ops@,
                                    i as int,
                                    site as nat,
                                );
                                model.lemma_clip_room(pos as nat, ops@, i as int);
                            }
                            if earlier >= (u32::MAX - stored) as usize {
                                proof {
                                    model.lemma_overflow_stays(pos as nat, ops@, i + 1);
                                }
                                return false;
                            }
                            recorded.insert(site, earlier + 1);
                        },
                        None => {
                            proof {
                                model.lemma_idle_step(pos as nat, ops@, i as int);
                            }
                        },
                    }
                },
                OpKind::Other => {
                    proof {
                        model.lemma_idle_step(pos as nat, ops@, i as int);
                    }
                },
            }
            i += 1;
        }
        true
    }

    /// Walks a read over the accumulator if it can be walked, and says why
    /// not if it cannot; the accumulator is then left as it was.
    pub fn try_apply_read(&mut self, pos: usize, ops: &[CigarOp]) -> (outcome: Result<
        (),
        WalkError,
    >)
        requires
            old(self).wf(),
        ensures
            final(self).wf(),
            outcome == old(self)@.admits(pos as nat, ops@),
            final(self)@ == match outcome {
                Ok(_) => old(self)@.apply_read(pos as nat, ops@),
                Err(_) => old(self)@,
            },
            final(self)@.length() == old(self)@.length(),
            forall|p: int|
                0 <= p < old(self)@.length() ==> #[trigger] final(self)@.coverage[p] >= old(
                    self,
                )@.coverage[p],
    {
        if !self.is_in_bounds(pos, ops) {
            return Err(WalkError::OutOfBounds);
        }
        if !self.has_room(pos, ops) {
            return Err(WalkError::CounterOverflow);
        }
        self.apply_read(pos, ops);
        Ok(())
    }

    /// The zero-coverage intervals of the contig, in ascending order.
    pub fn zero_intervals(&self) -> (runs: Vec<Interval>)
        requires
            self.wf(),
        ensures
            tiles_zero_coverage(self@.coverage, runs@),
            total_span(runs@, runs@.len() as int) + covered_count(
                self@.coverage,
                self@.length() as int,
            ) == self@.length(),
    {
        assert(self@.coverage =~= counts(self.coverage@));
        zero_intervals(self.coverage.as_slice())
    }

    /// The clip sites of the contig that are reported under the given
    /// thresholds, in ascending order of position.
    pub fn clip_sites(&self, min_dist_to_end: usize, min_ratio: &Ratio) -> (sites: Vec<ClipSite>)
        requires
            self.wf(),
        ensures
            self@.lists_clip_sites(min_dist_to_end as nat, *min_ratio, sites@),
    {
        let ghost model = self@;
        let mut sites: Vec<ClipSite> = Vec::new();
        let mut pos: usize = 0;
        while pos < self.length
            invariant
                self.wf(),
                model == self@,
                pos <= self.length,
                forall|k: int|
                    0 <= k < sites@.len() ==> {
                        let site = #[trigger] sites@[k];
                        &&& model.reports(site.pos as nat, min_dist_to_end as nat, *min_ratio)
                        &&& site.coverage == model.coverage[site.pos as int]
                        &&& site.clipping == model.clipping[site.pos as nat]
                        &&& site.pos < pos
                    },
                forall|k: int, l: int|
                    0 <= k < l < sites@.len() ==> (#[trigger] sites@[k]).pos < (
                    #[trigger] sites@[l]).pos,
                forall|p: nat|
                    p < pos && model.reports(p, min_dist_to_end as nat, *min_ratio) ==> exists|
                        k: int,
                    |
                        0 <= k < sites@.len() && (#[trigger] sites@[k]).pos == p,
            decreases self.length - pos,
        {
            let ghost earlier = sites@;
            if is_far_from_ends(self.length, pos, min_dist_to_end) {
                if let Some(count) = self.clipping.get(&pos) {
                    let coverage = self.coverage[pos];
                    if min_ratio.is_met(*count, coverage) {
                        sites.push(ClipSite { pos, coverage, clipping: *count });
                    }
                }
            }
            proof {
                assert forall|p: nat|
                    p < pos + 1 && model.reports(
                        p,
                        min_dist_to_end as nat,
                        *min_ratio,
                    ) implies exists|k: int|
                    0 <= k < sites@.len() && (#[trigger] sites@[k]).pos == p by {
                    if p < pos {
                        let k = choose|k: int|
                            0 <= k < earlier.len() && (#[trigger] earlier[k]).pos == p;
                        assert(sites@[k].pos == p);
                    } else {
                        assert(sites@[earlier.len() as int].pos == p);
                    }
                }
            }
            pos += 1;
        }
        sites
    }
}

/// What walking a read does to the counters, followed by the steps by which
/// the walk is shown to do it.
impl ContigModel {
    /// Walking a read keeps the contig length and the well-formedness of
    /// the model.
    pub proof fn lemma_apply_read_keeps_shape(self, pos: nat, ops: Seq<CigarOp>)
        requires
            self.wf(),
        ensures
            self.apply_read(pos, ops).wf(),
            self.apply_read(pos, ops).length() == self.length(),
    {
    }

    /// Additivity: a read raises the coverage of each position that it
    /// covers by exactly one, and of no other position.
    pub proof fn lemma_coverage_additive(self, pos: nat, ops: Seq<CigarOp>, p: int)
        requires
            0 <= p < self.length(),
        ensures
            self.apply_read(pos, ops).coverage[p] == self.coverage[p] + if covers(
                pos,
                ops,
                p as nat,
            ) {
                1nat
            } else {
                0nat
            },
    {
        lemma_covers_iff_hit(pos, ops, p as nat);
        lemma_span_hits_at_most_one(pos, ops, ops.len() as int, p as nat);
    }

    /// Coverage never decreases: after a read, every position has at least
    /// the coverage that it had before.
    pub proof fn lemma_coverage_never_decreases(self, pos: nat, ops: Seq<CigarOp>, p: int)
        requires
            0 <= p < self.length(),
        ensures
            self.apply_read(pos, ops).coverage[p] >= self.coverage[p],
    {
    }

    /// A read raises the clip count of each site by exactly the number of
    /// its operations that record a clip there; no count ever falls.
    pub proof fn lemma_clip_count_additive(self, pos: nat, ops: Seq<CigarOp>, site: nat)
        ensures
            self.apply_read(pos, ops).clip_count(site) == self.clip_count(site) + clip_hits(
                self.length(),
                pos,
                ops,
                ops.len() as int,
                site,
            ),
            self.apply_read(pos, ops).clip_count(site) >= self.clip_count(site),
    {
    }

    /// Clips on the contig's boundaries are not recorded: a read whose clips
    /// either open it at position 0 or come later with the cursor at the
    /// contig's end leaves every clip count as it was.
    pub proof fn lemma_boundary_clips_unrecorded(self, pos: nat, ops: Seq<CigarOp>)
        requires
            self.wf(),
            forall|i: int|
                0 <= i < ops.len() && (#[trigger] ops[i]).kind == OpKind::Clip ==> {
                    ||| i == 0 && pos == 0
                    ||| i > 0 && cursor_at(pos, ops, i) == self.length()
                },
        ensures
            self.apply_read(pos, ops).clipping == self.clipping,
    {
        assert forall|s: nat| clip_hits(self.length(), pos, ops, ops.len() as int, s) == 0 by {
            assert forall|i: int| 0 <= i < ops.len() implies clip_site(
                self.length(),
                pos,
                ops,
                i,
            ) != Some(s) by {
                assert(ops[i].kind == OpKind::Clip ==> clip_site(self.length(), pos, ops, i)
                    is None);
            }
            lemma_no_site_no_hit(self.length(), pos, ops, ops.len() as int, s);
        }
        assert(self.apply_read(pos, ops).clipping =~= self.clipping);
    }

    /// Walking no operation changes nothing.
    proof fn lemma_apply_prefix_zero(self, pos: nat, ops: Seq<CigarOp>)
        requires
            self.wf(),
        ensures
            self.apply_prefix(pos, ops, 0) == self,
    {
        assert(self.apply_prefix(pos, ops, 0).coverage =~= self.coverage);
        assert(self.apply_prefix(pos, ops, 0).clipping =~= self.clipping);
    }

    /// Walking an operation that neither covers nor records a clip changes
    /// nothing.
    proof fn lemma_idle_step(self, pos: nat, ops: Seq<CigarOp>, i: int)
        requires
            0 <= i < ops.len(),
            ops[i].kind != OpKind::MatchLike,
            clip_site(self.length(), pos, ops, i) is None,
        ensures
            self.apply_prefix(pos, ops, i + 1) == self.apply_prefix(pos, ops, i),
    {
        let a = self.apply_prefix(pos, ops, i + 1);
        let b = self.apply_prefix(pos, ops, i);
        assert(a.coverage =~= b.coverage);
        assert(a.clipping =~= b.clipping);
    }

    /// Walking a match-like operation covers its span once more, and the
    /// span's counters have room for it whenever the whole read fits.
    proof fn lemma_cover_step(self, pos: nat, ops: Seq<CigarOp>, i: int)
        requires
            0 <= i < ops.len(),
            ops[i].kind == OpKind::MatchLike,
            in_bounds(self.length(), pos, ops),
        ensures
            cursor_at(pos, ops, i + 1) == cursor_at(pos, ops, i) + ops[i].len,
            self.apply_prefix(pos, ops, i + 1) == self.apply_prefix(pos, ops, i).cover(
                cursor_at(pos, ops, i),
                cursor_at(pos, ops, i + 1),
            ),
            self.apply_read(pos, ops).representable() ==> forall|p: int|
                cursor_at(pos, ops, i) <= p < cursor_at(pos, ops, i + 1)
                    ==> #[trigger] self.apply_prefix(pos, ops, i).coverage[p] < u32::MAX,
            ops[i].len > 0 ==> cursor_at(pos, ops, i + 1) <= self.length(),
    {
        let start = cursor_at(pos, ops, i);
        let end = cursor_at(pos, ops, i + 1);
        let a = self.apply_prefix(pos, ops, i + 1);
        let b = self.apply_prefix(pos, ops, i);
        assert(a.coverage =~= b.cover(start, end).coverage);
        assert(a.clipping =~= b.cover(start, end).clipping);
        if self.apply_read(pos, ops).representable() {
            assert forall|p: int| start <= p < end implies #[trigger] b.coverage[p] < u32::MAX by {
                lemma_span_hits_monotone(pos, ops, i + 1, ops.len() as int, p as nat);
                assert(self.apply_read(pos, ops).coverage[p] <= u32::MAX);
            }
        }
    }

    /// Walking a clip that records a site counts one more clip there, and the
    /// site's counter has room for it whenever the whole read fits.
    proof fn lemma_clip_step(self, pos: nat, ops: Seq<CigarOp>, i: int)
        requires
            0 <= i < ops.len(),
            clip_site(self.length(), pos, ops, i) is Some,
        ensures
            self.apply_prefix(pos, ops, i + 1) == self.apply_prefix(pos, ops, i).add_clipping(
                clip_site(self.length(), pos, ops, i).unwrap(),
            ),
            self.apply_read(pos, ops).representable() ==> self.apply_prefix(
                pos,
                ops,
                i,
            ).clip_count(clip_site(self.length(), pos, ops, i).unwrap()) < u32::MAX,
    {
        let site = clip_site(self.length(), pos, ops, i).unwrap();
        let a = self.apply_prefix(pos, ops, i + 1);
        let b = self.apply_prefix(pos, ops, i);
        assert(a.coverage =~= b.add_clipping(site).coverage);
        assert(a.clipping =~= b.add_clipping(site).clipping);
        if self.apply_read(pos, ops).representable() {
            lemma_clip_hits_monotone(self.length(), pos, ops, i + 1, ops.len() as int, site);
            assert(self.apply_read(pos, ops).clip_count(site) <= u32::MAX);
        }
    }

    /// After a match-like operation every counter still fits exactly when
    /// they did before it and the untouched counters of its span have room.
    proof fn lemma_cover_room(self, pos: nat, ops: Seq<CigarOp>, i: int)
        requires
            0 <= i < ops.len(),
            ops[i].kind == OpKind::MatchLike,
            in_bounds(self.length(), pos, ops),
            self.apply_prefix(pos, ops, i).representable(),
        ensures
            cursor_at(pos, ops, i + 1) == cursor_at(pos, ops, i) + ops[i].len,
            ops[i].len > 0 ==> cursor_at(pos, ops, i + 1) <= self.length(),
            self.apply_prefix(pos, ops, i + 1).representable() <==> forall|p: int|
                cursor_at(pos, ops, i) <= p < cursor_at(pos, ops, i + 1)
                    ==> #[trigger] self.coverage[p] < u32::MAX,
    {
        let start = cursor_at(pos, ops, i);
        let end = cursor_at(pos, ops, i + 1);
        let a = self.apply_prefix(pos, ops, i + 1);
        let b = self.apply_prefix(pos, ops, i);
        if forall|p: int| start <= p < end ==> #[trigger] self.coverage[p] < u32::MAX {
            assert forall|p: int| 0 <= p < a.coverage.len() implies #[trigger] a.coverage[p]
                <= u32::MAX by {
                assert(b.coverage[p] <= u32::MAX);
                if start <= p < end {
                    assert(self.coverage[p] < u32::MAX);
                    if span_hits(pos, ops, i, p as nat) > 0 {
                        lemma_span_hits_before_cursor(pos, ops, i, p as nat);
                    }
                }
            }
            assert forall|s: nat| #[trigger] a.clip_count(s) <= u32::MAX by {
                assert(b.clip_count(s) <= u32::MAX);
            }
        }
        if a.representable() {
            assert forall|p: int| start <= p < end implies #[trigger] self.coverage[p]
                < u32::MAX by {
                assert(a.coverage[p] <= u32::MAX);
            }
        }
    }

    /// After a clip that records a site every counter still fits exactly
    /// when they did before it and the site's counter has room; the site's
    /// count at that point is what was stored plus what the read has
    /// recorded there so far.
    proof fn lemma_clip_room(self, pos: nat, ops: Seq<CigarOp>, i: int)
        requires
            0 <= i < ops.len(),
            clip_site(self.length(), pos, ops, i) is Some,
            self.apply_prefix(pos, ops, i).representable(),
        ensures
            self.apply_prefix(pos, ops, i + 1).representable() <==> self.clip_count(
                clip_site(self.length(), pos, ops, i).unwrap(),
            ) + clip_hits(
                self.length(),
                pos,
                ops,
                i,
                clip_site(self.length(), pos, ops, i).unwrap(),
            ) < u32::MAX,
    {
        let site = clip_site(self.length(), pos, ops, i).unwrap();
        let a = self.apply_prefix(pos, ops, i + 1);
        let b = self.apply_prefix(pos, ops, i);
        if self.clip_count(site) + clip_hits(self.length(), pos, ops, i, site) < u32::MAX {
            assert forall|p: int| 0 <= p < a.coverage.len() implies #[trigger] a.coverage[p]
                <= u32::MAX by {
                assert(b.coverage[p] <= u32::MAX);
            }
            assert forall|s: nat| #[trigger] a.clip_count(s) <= u32::MAX by {
                assert(b.clip_count(s) <= u32::MAX);
            }
        }
        if a.representable() {
            assert(a.clip_count(site) <= u32::MAX);
        }
    }

    /// A counter that has passed its largest value stays past it.
    proof fn lemma_overflow_stays(self, pos: nat, ops: Seq<CigarOp>, i: int)
        requires
            0 <= i <= ops.len(),
            !self.apply_prefix(pos, ops, i).representable(),
        ensures
            !self.apply_read(pos, ops).representable(),
    {
        let a = self.apply_prefix(pos, ops, i);
        let b = self.apply_read(pos, ops);
        if exists|p: int| 0 <= p < a.coverage.len() && !(#[trigger] a.coverage[p] <= u32::MAX) {
            let p = choose|p: int|
                0 <= p < a.coverage.len() && !(#[trigger] a.coverage[p] <= u32::MAX);
            lemma_span_hits_monotone(pos, ops, i, ops.len() as int, p as nat);
            assert(!(b.coverage[p] <= u32::MAX));
        } else {
            let s = choose|s: nat| !(#[trigger] a.clip_count(s) <= u32::MAX);
            lemma_clip_hits_monotone(self.length(), pos, ops, i, ops.len() as int, s);
            assert(!(b.clip_count(s) <= u32::MAX));
        }
    }
}

} // verus!
