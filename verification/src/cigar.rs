//! Projection of a CIGAR operation sequence onto half-open reference
//! intervals.
//!
//! A running cursor starts at the alignment start.  Match-like operations
//! extend the current open run; a deletion or a reference skip closes the
//! run (yielding one interval) and advances the cursor; the remaining
//! operations neither extend nor yield.  A run still open when the CIGAR
//! ends is flushed.

use vstd::prelude::*;

verus! {

/// The kind of one CIGAR operation.
#[derive(Clone, Copy, Debug, PartialEq, Eq, Structural)]
pub enum Kind {
    Match,
    Insertion,
    Deletion,
    Skip,
    SoftClip,
    HardClip,
    Pad,
    SequenceMatch,
    SequenceMismatch,
}

/// One CIGAR operation: a kind and a length.
#[derive(Clone, Copy, Debug, PartialEq, Eq, Structural)]
pub struct CigarOp {
    pub kind: Kind,
    pub len: u32,
}

/// Operations that consume both reference and query and so extend the
/// current run.
pub open spec fn extends_run(k: Kind) -> bool {
    k == Kind::Match || k == Kind::SequenceMatch || k == Kind::SequenceMismatch
}

/// Operations that consume reference but not query: they close the current
/// run and advance the cursor.
pub open spec fn splits_run(k: Kind) -> bool {
    k == Kind::Deletion || k == Kind::Skip
}

/// How far the cursor advances over a whole CIGAR: the total length of its
/// reference-consuming operations.
pub open spec fn spec_ref_len(ops: Seq<CigarOp>) -> int
    decreases ops.len(),
{
    if ops.len() == 0 {
        0
    } else {
        let head = ops[0];
        let advance: int = if extends_run(head.kind) || splits_run(head.kind) {
            head.len as int
        } else {
            0
        };
        advance + spec_ref_len(ops.drop_first())
    }
}

/// The intervals yielded from `ops` when the cursor stands at `cursor` and
/// the current run, if any, opened at `run`.
pub open spec fn spec_project(ops: Seq<CigarOp>, cursor: int, run: Option<int>) -> Seq<(int, int)>
    decreases ops.len(),
{
    if ops.len() == 0 {
        match run {
            Some(rs) => seq![(rs, cursor)],
            None => Seq::empty(),
        }
    } else {
        let head = ops[0];
        let rest = ops.drop_first();
        if extends_run(head.kind) {
            let rs = match run {
                Some(rs) => rs,
                None => cursor,
            };
            spec_project(rest, cursor + head.len, Some(rs))
        } else if splits_run(head.kind) {
            match run {
                Some(rs) => seq![(rs, cursor)] + spec_project(rest, cursor + head.len, None),
                None => spec_project(rest, cursor + head.len, None),
            }
        } else {
            spec_project(rest, cursor, run)
        }
    }
}

/// The half-open reference intervals of an alignment whose CIGAR is `ops`
/// and whose 1-based start is `start`.
pub open spec fn spec_intervals(ops: Seq<CigarOp>, start: int) -> Seq<(int, int)> {
    spec_project(ops, start, None)
}

/// The total reference length of a CIGAR is non-negative.
pub proof fn lemma_ref_len_nonneg(ops: Seq<CigarOp>)
    ensures
        spec_ref_len(ops) >= 0,
    decreases ops.len(),
{
    if ops.len() > 0 {
        lemma_ref_len_nonneg(ops.drop_first());
    }
}

/// Projects a CIGAR onto its half-open reference intervals, eagerly.
///
/// `start` is the 1-based alignment start.
pub fn cigar_to_intervals(cigar: &Vec<CigarOp>, start: u64) -> (res: Vec<(u64, u64)>)
    requires
        start + spec_ref_len(cigar@) <= u64::MAX,
    ensures
        res@.map_values(|p: (u64, u64)| (p.0 as int, p.1 as int)) == spec_intervals(
            cigar@,
            start as int,
        ),
{
    let ghost all: Seq<CigarOp> = cigar@;
    let mut out: Vec<(u64, u64)> = Vec::new();
    let mut cursor: u64 = start;
    let mut run: Option<u64> = None;
    let mut i: usize = 0;
    proof {
        assert(all.subrange(0, all.len() as int) =~= all);
        lemma_ref_len_nonneg(all);
    }
    while i < cigar.len()
        invariant
            i <= cigar.len(),
            all == cigar@,
            cursor + spec_ref_len(all.subrange(i as int, all.len() as int)) <= u64::MAX,
            (match run {
                Some(rs) => rs <= cursor,
                None => true,
            }),
            spec_intervals(all, start as int) == out@.map_values(|p: (u64, u64)| (p.0 as int, p.1 as int))
                + spec_project(
                all.subrange(i as int, all.len() as int),
                cursor as int,
                (match run {
                    Some(rs) => Some(rs as int),
                    None => None,
                }),
            ),
        decreases cigar.len() - i,
    {
        let op = cigar[i];
        let ghost rem = all.subrange(i as int, all.len() as int);
        let ghost rem2 = all.subrange(i as int + 1, all.len() as int);
        proof {
            assert(rem[0] == all[i as int]);
            assert(rem.drop_first() =~= rem2);
            lemma_ref_len_nonneg(rem2);
        }
        let ghost out_before = out@;
        if matches!(op.kind, Kind::Match | Kind::SequenceMatch | Kind::SequenceMismatch) {
            if run.is_none() {
                run = Some(cursor);
            }
            cursor = cursor + op.len as u64;
        } else if matches!(op.kind, Kind::Deletion | Kind::Skip) {
            match run {
                Some(rs) => {
                    out.push((rs, cursor));
                    run = None;
                }
                None => (),
            }
            cursor = cursor + op.len as u64;
        }
        proof {
            assert(out@.map_values(|p: (u64, u64)| (p.0 as int, p.1 as int)) =~= out_before.map_values(
                |p: (u64, u64)| (p.0 as int, p.1 as int),
            ) + out@.subrange(out_before.len() as int, out@.len() as int).map_values(
                |p: (u64, u64)| (p.0 as int, p.1 as int),
            ));
        }
        i = i + 1;
    }
    proof {
        assert(all.subrange(all.len() as int, all.len() as int) =~= Seq::<CigarOp>::empty());
    }
    let ghost out_before = out@;
    match run {
        Some(rs) => {
            out.push((rs, cursor));
            proof {
                assert(out@.map_values(|p: (u64, u64)| (p.0 as int, p.1 as int))
                    =~= out_before.map_values(|p: (u64, u64)| (p.0 as int, p.1 as int)) + seq![
                    (rs as int, cursor as int),
                ]);
            }
        }
        None => {
            proof {
                assert(spec_intervals(all, start as int) =~= out@.map_values(
                    |p: (u64, u64)| (p.0 as int, p.1 as int),
                ));
            }
        }
    }
    out
}

/// A CIGAR of only match-like operations projects to exactly one interval,
/// `[start, start + L)` for `L` the total operation length.
pub proof fn lemma_all_match_single_interval(ops: Seq<CigarOp>, start: int)
    requires
        ops.len() > 0,
        forall|i: int| 0 <= i < ops.len() ==> extends_run(ops[i].kind),
    ensures
        spec_intervals(ops, start) == seq![(start, start + spec_ref_len(ops))],
{
    lemma_all_match_open_run(ops.drop_first(), start + ops[0].len, start);
    assert(spec_ref_len(ops) == ops[0].len + spec_ref_len(ops.drop_first()));
}

/// Helper: with an open run and only match-like operations left, exactly the
/// run's interval comes out, closed at the final cursor.
proof fn lemma_all_match_open_run(ops: Seq<CigarOp>, cursor: int, rs: int)
    requires
        forall|i: int| 0 <= i < ops.len() ==> extends_run(ops[i].kind),
    ensures
        spec_project(ops, cursor, Some(rs)) == seq![(rs, cursor + spec_ref_len(ops))],
    decreases ops.len(),
{
    if ops.len() == 0 {
    } else {
        assert(forall|i: int|
            0 <= i < ops.drop_first().len() ==> extends_run(ops.drop_first()[i].kind));
        lemma_all_match_open_run(ops.drop_first(), cursor + ops[0].len, rs);
    }
}

/// A CIGAR with no reference-consuming operation projects to no interval at
/// all.
pub proof fn lemma_no_reference_no_interval(ops: Seq<CigarOp>, start: int)
    requires
        forall|i: int| 0 <= i < ops.len() ==> !extends_run(ops[i].kind) && !splits_run(ops[i].kind),
    ensures
        spec_intervals(ops, start) == Seq::<(int, int)>::empty(),
    decreases ops.len(),
{
    lemma_no_reference_open(ops, start);
}

/// Helper for [`lemma_no_reference_no_interval`], generalized over the run
/// state.
proof fn lemma_no_reference_open(ops: Seq<CigarOp>, cursor: int)
    ensures
        (forall|i: int|
            0 <= i < ops.len() ==> !extends_run(ops[i].kind) && !splits_run(ops[i].kind))
            ==> spec_project(ops, cursor, None) == Seq::<(int, int)>::empty(),
    decreases ops.len(),
{
    if ops.len() > 0 {
        if forall|i: int|
            0 <= i < ops.len() ==> !extends_run(#[trigger] ops[i].kind) && !splits_run(
                ops[i].kind,
            ) {
            assert(forall|i: int|
                0 <= i < ops.drop_first().len() ==> #[trigger] ops.drop_first()[i] == ops[i + 1]);
        }
        lemma_no_reference_open(ops.drop_first(), cursor);
    }
}

} // verus!
