//! Alignment operations and the linear walk that a read's operation list
//! describes over its contig.
//!
//! A read starts at its leftmost position. Each operation is met with the
//! cursor at the position that the operations before it have reached:
//! match-like operations and deletions move the cursor on by their length,
//! every other operation leaves it where it is.

use vstd::prelude::*;

verus! {

/// The class of an alignment operation, as far as coverage and clip
/// accounting are concerned.
#[derive(Clone, Copy, Debug, PartialEq, Eq, Structural)]
pub enum OpKind {
    /// Aligned match, sequence match or sequence mismatch.
    MatchLike,
    /// Deletion from the reference.
    Deletion,
    /// Soft or hard clip.
    Clip,
    /// Anything else; it has no effect.
    Other,
}

impl OpKind {
    /// The class of the operation that the alignment format writes as `code`.
    pub open spec fn of_code(code: char) -> OpKind {
        if code == 'M' || code == '=' || code == 'X' {
            OpKind::MatchLike
        } else if code == 'D' {
            OpKind::Deletion
        } else if code == 'S' || code == 'H' {
            OpKind::Clip
        } else {
            OpKind::Other
        }
    }

    /// Classifies an operation by its code letter.
    pub fn from_code(code: char) -> (kind: OpKind)
        ensures
            kind == OpKind::of_code(code),
    {
        match code {
            'M' | '=' | 'X' => OpKind::MatchLike,
            'D' => OpKind::Deletion,
            'S' | 'H' => OpKind::Clip,
            _ => OpKind::Other,
        }
    }
}

/// One alignment operation: its class and its length in bases.
#[derive(Clone, Copy, Debug, PartialEq, Eq, Structural)]
pub struct CigarOp {
    pub kind: OpKind,
    pub len: u32,
}

impl CigarOp {
    /// The operation with code letter `code` and length `len`.
    pub fn new(code: char, len: u32) -> (op: CigarOp)
        ensures
            op.kind == OpKind::of_code(code),
            op.len == len,
    {
        CigarOp { kind: OpKind::from_code(code), len }
    }

    /// The number of reference bases that the operation moves the cursor by.
    pub open spec fn ref_len(self) -> nat {
        match self.kind {
            OpKind::MatchLike | OpKind::Deletion => self.len as nat,
            _ => 0,
        }
    }
}

/// The cursor with which operation `i` of a read at `pos` is met: `pos`
/// plus the reference bases consumed by the operations before it.
pub open spec fn cursor_at(pos: nat, ops: Seq<CigarOp>, i: int) -> nat
    decreases i,
{
    if i <= 0 {
        pos
    } else {
        cursor_at(pos, ops, i - 1) + ops[i - 1].ref_len()
    }
}

/// Whether operation `i` of the read is match-like and its span holds
/// position `p`.
pub open spec fn op_covers(pos: nat, ops: Seq<CigarOp>, i: int, p: nat) -> bool {
    &&& ops[i].kind == OpKind::MatchLike
    &&& cursor_at(pos, ops, i) <= p < cursor_at(pos, ops, i) + ops[i].len
}

/// The site that a clip marks when it is met with the cursor at `cursor` on
/// a contig of `contig_len` bases, if it marks one.
///
/// A clip that opens the operation list marks the cursor itself, unless the
/// cursor is at the contig's start. A clip anywhere later marks the base
/// before the cursor (position 0 when the cursor is there), unless the
/// cursor is at the contig's end.
pub open spec fn clip_mark(contig_len: nat, cursor: nat, first: bool) -> Option<nat> {
    if first {
        if cursor != 0 {
            Some(cursor)
        } else {
            None
        }
    } else if cursor != contig_len {
        Some(
            if cursor == 0 {
                0
            } else {
                (cursor - 1) as nat
            },
        )
    } else {
        None
    }
}

/// The clip site that operation `i` of the read records on a contig of
/// `contig_len` bases, if it records one.
pub open spec fn clip_site(contig_len: nat, pos: nat, ops: Seq<CigarOp>, i: int) -> Option<nat> {
    if ops[i].kind == OpKind::Clip {
        clip_mark(contig_len, cursor_at(pos, ops, i), i == 0)
    } else {
        None
    }
}

/// Computes the site that a clip marks when it is met with the cursor at
/// `cursor`, if it marks one.
pub fn mark_of_clip(contig_len: usize, cursor: usize, first: bool) -> (site: Option<usize>)
    ensures
        match site {
            Some(s) => clip_mark(contig_len as nat, cursor as nat, first) == Some(s as nat),
            None => clip_mark(contig_len as nat, cursor as nat, first) is None,
        },
{
    if first {
        if cursor != 0 {
            Some(cursor)
        } else {
            None
        }
    } else if cursor != contig_len {
        Some(cursor.saturating_sub(1))
    } else {
        None
    }
}

/// How many of the first `n` operations of the read cover position `p`.
pub open spec fn span_hits(pos: nat, ops: Seq<CigarOp>, n: int, p: nat) -> nat
    decreases n,
{
    if n <= 0 {
        0
    } else {
        span_hits(pos, ops, n - 1, p) + if op_covers(pos, ops, n - 1, p) {
            1nat
        } else {
            0nat
        }
    }
}

/// How many of the first `n` operations of the read record a clip at `site`.
pub open spec fn clip_hits(contig_len: nat, pos: nat, ops: Seq<CigarOp>, n: int, site: nat) -> nat
    decreases n,
{
    if n <= 0 {
        0
    } else {
        clip_hits(contig_len, pos, ops, n - 1, site) + if clip_site(contig_len, pos, ops, n - 1)
            == Some(site) {
            1nat
        } else {
            0nat
        }
    }
}

/// Whether the read covers position `p` with a match-like operation.
pub open spec fn covers(pos: nat, ops: Seq<CigarOp>, p: nat) -> bool {
    exists|i: int| 0 <= i < ops.len() && op_covers(pos, ops, i, p)
}

/// Whether every match-like operation of the read lies within a contig of
/// `contig_len` bases.
pub open spec fn in_bounds(contig_len: nat, pos: nat, ops: Seq<CigarOp>) -> bool {
    forall|i: int|
        0 <= i < ops.len() && ops[i].kind == OpKind::MatchLike && ops[i].len > 0 ==> cursor_at(
            pos,
            ops,
            i,
        ) + ops[i].len <= contig_len
}

/// The position that the cursor has reached when the read is walked.
pub open spec fn end_cursor(pos: nat, ops: Seq<CigarOp>) -> nat {
    cursor_at(pos, ops, ops.len() as int)
}

/// The cursor never moves back.
pub proof fn lemma_cursor_monotone(pos: nat, ops: Seq<CigarOp>, i: int, j: int)
    requires
        i <= j,
    ensures
        cursor_at(pos, ops, i) <= cursor_at(pos, ops, j),
    decreases j - i,
{
    if i < j {
        lemma_cursor_monotone(pos, ops, i, j - 1);
        if j - 1 <= 0 {
            assert(cursor_at(pos, ops, j - 1) == pos);
        }
    }
}

/// Operations walked so far cover only positions before the cursor.
pub proof fn lemma_span_hits_before_cursor(pos: nat, ops: Seq<CigarOp>, n: int, p: nat)
    requires
        span_hits(pos, ops, n, p) > 0,
    ensures
        p < cursor_at(pos, ops, n),
    decreases n,
{
    if n > 0 {
        if op_covers(pos, ops, n - 1, p) {
        } else {
            lemma_span_hits_before_cursor(pos, ops, n - 1, p);
        }
    }
}

/// The spans of a read do not overlap: no position is covered twice.
pub proof fn lemma_span_hits_at_most_one(pos: nat, ops: Seq<CigarOp>, n: int, p: nat)
    ensures
        span_hits(pos, ops, n, p) <= 1,
    decreases n,
{
    if n > 0 {
        lemma_span_hits_at_most_one(pos, ops, n - 1, p);
        if op_covers(pos, ops, n - 1, p) && span_hits(pos, ops, n - 1, p) > 0 {
            lemma_span_hits_before_cursor(pos, ops, n - 1, p);
        }
    }
}

/// Walking more operations never takes a hit back.
pub proof fn lemma_span_hits_monotone(pos: nat, ops: Seq<CigarOp>, i: int, j: int, p: nat)
    requires
        i <= j,
    ensures
        span_hits(pos, ops, i, p) <= span_hits(pos, ops, j, p),
    decreases j - i,
{
    if i < j {
        lemma_span_hits_monotone(pos, ops, i, j - 1, p);
    }
}

/// Walking more operations never takes a recorded clip back.
pub proof fn lemma_clip_hits_monotone(
    contig_len: nat,
    pos: nat,
    ops: Seq<CigarOp>,
    i: int,
    j: int,
    site: nat,
)
    requires
        i <= j,
    ensures
        clip_hits(contig_len, pos, ops, i, site) <= clip_hits(contig_len, pos, ops, j, site),
    decreases j - i,
{
    if i < j {
        lemma_clip_hits_monotone(contig_len, pos, ops, i, j - 1, site);
    }
}

/// Each operation records at most one clip.
pub proof fn lemma_clip_hits_at_most(
    contig_len: nat,
    pos: nat,
    ops: Seq<CigarOp>,
    n: int,
    site: nat,
)
    requires
        0 <= n,
    ensures
        clip_hits(contig_len, pos, ops, n, site) <= n,
    decreases n,
{
    if n > 0 {
        lemma_clip_hits_at_most(contig_len, pos, ops, n - 1, site);
    }
}

/// A position is hit by the first `n` operations exactly when one of them
/// covers it.
pub proof fn lemma_span_hits_positive(pos: nat, ops: Seq<CigarOp>, n: int, p: nat)
    ensures
        span_hits(pos, ops, n, p) > 0 <==> exists|i: int| 0 <= i < n && op_covers(pos, ops, i, p),
    decreases n,
{
    if n > 0 {
        lemma_span_hits_positive(pos, ops, n - 1, p);
        if span_hits(pos, ops, n, p) > 0 {
            if op_covers(pos, ops, n - 1, p) {
                assert(0 <= n - 1 < n && op_covers(pos, ops, n - 1, p));
            } else {
                let i = choose|i: int| 0 <= i < n - 1 && op_covers(pos, ops, i, p);
                assert(0 <= i < n && op_covers(pos, ops, i, p));
            }
        }
        if exists|i: int| 0 <= i < n && op_covers(pos, ops, i, p) {
            let i = choose|i: int| 0 <= i < n && op_covers(pos, ops, i, p);
            if i < n - 1 {
                assert(0 <= i < n - 1 && op_covers(pos, ops, i, p));
            }
        }
    }
}

/// A read covers a position exactly when walking all of it hits the position
/// once.
pub proof fn lemma_covers_iff_hit(pos: nat, ops: Seq<CigarOp>, p: nat)
    ensures
        covers(pos, ops, p) <==> span_hits(pos, ops, ops.len() as int, p) == 1,
{
    lemma_span_hits_positive(pos, ops, ops.len() as int, p);
    lemma_span_hits_at_most_one(pos, ops, ops.len() as int, p);
}

/// A read made of match-like operations alone covers exactly the positions
/// from its start up to where its cursor ends.
pub proof fn lemma_match_only_covers_span(pos: nat, ops: Seq<CigarOp>, p: nat)
    requires
        forall|j: int| 0 <= j < ops.len() ==> (#[trigger] ops[j]).kind == OpKind::MatchLike,
    ensures
        covers(pos, ops, p) <==> pos <= p < end_cursor(pos, ops),
{
    lemma_match_prefix_covers_span(pos, ops, ops.len() as int, p);
    lemma_span_hits_positive(pos, ops, ops.len() as int, p);
}

/// The first `n` operations of a read made of match-like operations alone
/// hit exactly the positions from its start up to the cursor.
proof fn lemma_match_prefix_covers_span(pos: nat, ops: Seq<CigarOp>, n: int, p: nat)
    requires
        0 <= n <= ops.len(),
        forall|j: int| 0 <= j < ops.len() ==> (#[trigger] ops[j]).kind == OpKind::MatchLike,
    ensures
        span_hits(pos, ops, n, p) > 0 <==> pos <= p < cursor_at(pos, ops, n),
    decreases n,
{
    if n > 0 {
        lemma_match_prefix_covers_span(pos, ops, n - 1, p);
        lemma_cursor_monotone(pos, ops, 0, n - 1);
        assert(ops[n - 1].kind == OpKind::MatchLike);
    }
}

/// A clip that opens a read at the contig's start records nothing, and no
/// clip that opens a read ever marks position 0.
pub proof fn lemma_left_clip_at_start(contig_len: nat, cursor: nat)
    ensures
        clip_mark(contig_len, 0, true) is None,
        clip_mark(contig_len, cursor, true) != Some(0nat),
{
}

/// A clip after the first operation whose cursor stands at the contig's end
/// records nothing, and while the cursor has not passed that end no such clip
/// marks the contig length itself.
pub proof fn lemma_right_clip_at_end(contig_len: nat, cursor: nat)
    ensures
        clip_mark(contig_len, contig_len, false) is None,
        cursor <= contig_len ==> clip_mark(contig_len, cursor, false) != Some(contig_len),
{
}

/// Where none of the first `n` operations records a clip, no site is hit.
pub proof fn lemma_no_site_no_hit(
    contig_len: nat,
    pos: nat,
    ops: Seq<CigarOp>,
    n: int,
    site: nat,
)
    requires
        forall|i: int| 0 <= i < n ==> clip_site(contig_len, pos, ops, i) != Some(site),
    ensures
        clip_hits(contig_len, pos, ops, n, site) == 0,
    decreases n,
{
    if n > 0 {
        lemma_no_site_no_hit(contig_len, pos, ops, n - 1, site);
    }
}

} // verus!
