//! The counting engine: filtering, interval projection, feature lookup, the
//! strand rule, and the accounting of each read or pair.

pub mod context;
pub mod filter;

use vstd::prelude::*;

pub use self::context::{Context, ContextView, Counts};
pub use self::filter::{Filter, FilterReason};

use crate::cigar::{cigar_to_intervals, spec_intervals};
use crate::count::context::{
    lemma_counts_total_nonneg, lemma_get_le_total, lemma_increment_total, spec_increment,
};
use crate::count::filter::{spec_apply_filter, spec_bump};
use crate::features::{overlaps, spec_find_tree, FeatureEntryView, FeatureTree, Features};
use crate::record::{Record, RecordView, ReferenceSequence, ReferenceSequences};
use crate::record_pairs::{
    lemma_units_bounds, spec_classifiable, spec_counts_toward, spec_key, spec_mate_key,
    spec_pair_position, spec_pairing_run, spec_pairing_units, spec_views, PairPosition,
    RecordKeyView, RecordPairs,
};
use crate::strand::{Strand, StrandSpecification};

verus! {

broadcast use vstd::seq_lib::lemma_seq_contains_after_push, vstd::seq_lib::seq_to_set_is_finite;

/// A fatal error of a counting run.
#[derive(Clone, Copy, Debug, PartialEq, Eq, Structural)]
pub enum CountError {
    /// A mapped record carried a reference sequence id outside the header's
    /// reference table.
    InvalidReferenceSequenceId(i32),
    /// A record on the paired-end path was flagged neither read 1 nor
    /// read 2, or both.
    InvalidPairPosition,
}

/// The reference sequence a record's id points at: ids below zero or past
/// the table are rejected.
pub fn get_reference<'a>(reference_sequences: &'a ReferenceSequences, ref_id: i32) -> (res: Result<
    &'a ReferenceSequence,
    CountError,
>)
    ensures
        (res is Ok) <==> (0 <= ref_id && (ref_id as int) < reference_sequences@.len()),
        res matches Ok(r) ==> *r == reference_sequences@[ref_id as int],
        res matches Err(e) ==> e == CountError::InvalidReferenceSequenceId(ref_id),
{
    if ref_id < 0 {
        return Err(CountError::InvalidReferenceSequenceId(ref_id));
    }
    let idx = ref_id as usize;
    if idx >= reference_sequences.len() {
        return Err(CountError::InvalidReferenceSequenceId(ref_id));
    }
    Ok(&reference_sequences[idx])
}

/// The strand rule: whether an annotated entry's strand accepts a read seen
/// with the given effective orientation.  Without strand-specificity every
/// entry is accepted; under a strand-specific protocol the entry must be
/// annotated `Reverse` for an effectively reverse read, or `Forward` for an
/// effectively forward one, so `Unknown` and `Irrelevant` entries never
/// match.
pub open spec fn spec_strand_matches(
    strand_specification: StrandSpecification,
    entry_strand: Strand,
    effective_reverse: bool,
) -> bool {
    match strand_specification {
        StrandSpecification::Unstranded => true,
        StrandSpecification::Forward | StrandSpecification::Reverse => (entry_strand
            == Strand::Reverse && effective_reverse) || (entry_strand == Strand::Forward
            && !effective_reverse),
    }
}

/// The interval views of a projected interval vector.
pub open spec fn spec_iv_views(ivs: Seq<(u64, u64)>) -> Seq<(int, int)> {
    ivs.map_values(|p: (u64, u64)| (p.0 as int, p.1 as int))
}

/// Whether interval `i` of the read meets entry `j` of the tree under the
/// strand rule.
pub open spec fn spec_hit(
    entries: Seq<FeatureEntryView>,
    ivs: Seq<(int, int)>,
    strand_specification: StrandSpecification,
    effective_reverse: bool,
    i: int,
    j: int,
) -> bool {
    &&& 0 <= i < ivs.len()
    &&& 0 <= j < entries.len()
    &&& overlaps(entries[j], ivs[i].0, ivs[i].1)
    &&& spec_strand_matches(strand_specification, entries[j].strand, effective_reverse)
}

/// The set of gene names a read's intervals select from a tree under the
/// strand rule.
pub open spec fn spec_gene_set(
    entries: Seq<FeatureEntryView>,
    ivs: Seq<(int, int)>,
    strand_specification: StrandSpecification,
    effective_reverse: bool,
) -> Set<Seq<char>> {
    Set::new(
        |n: Seq<char>|
            exists|i: int, j: int|
                #[trigger] spec_hit(entries, ivs, strand_specification, effective_reverse, i, j)
                    && entries[j].name == n,
    )
}

/// The gene names selected by the hits strictly before position `(i, j)` of
/// the interval-by-entry scan.
pub open spec fn spec_gene_set_upto(
    entries: Seq<FeatureEntryView>,
    ivs: Seq<(int, int)>,
    strand_specification: StrandSpecification,
    effective_reverse: bool,
    i: int,
    j: int,
) -> Set<Seq<char>> {
    Set::new(
        |n: Seq<char>|
            exists|a: int, b: int|
                #[trigger] spec_hit(entries, ivs, strand_specification, effective_reverse, a, b)
                    && (a < i || (a == i && b < j)) && entries[b].name == n,
    )
}

proof fn lemma_upto_zero(
    entries: Seq<FeatureEntryView>,
    ivs: Seq<(int, int)>,
    ss: StrandSpecification,
    rev: bool,
)
    ensures
        spec_gene_set_upto(entries, ivs, ss, rev, 0, 0) == Set::<Seq<char>>::empty(),
{
    assert(spec_gene_set_upto(entries, ivs, ss, rev, 0, 0) =~= Set::<Seq<char>>::empty());
}

proof fn lemma_upto_step(
    entries: Seq<FeatureEntryView>,
    ivs: Seq<(int, int)>,
    ss: StrandSpecification,
    rev: bool,
    i: int,
    j: int,
)
    requires
        0 <= i < ivs.len(),
        0 <= j < entries.len(),
    ensures
        spec_hit(entries, ivs, ss, rev, i, j) ==> spec_gene_set_upto(entries, ivs, ss, rev, i, j + 1)
            == spec_gene_set_upto(entries, ivs, ss, rev, i, j).insert(entries[j].name),
        !spec_hit(entries, ivs, ss, rev, i, j) ==> spec_gene_set_upto(
            entries,
            ivs,
            ss,
            rev,
            i,
            j + 1,
        ) == spec_gene_set_upto(entries, ivs, ss, rev, i, j),
{
    let before = spec_gene_set_upto(entries, ivs, ss, rev, i, j);
    let after = spec_gene_set_upto(entries, ivs, ss, rev, i, j + 1);
    if spec_hit(entries, ivs, ss, rev, i, j) {
        assert forall|n: Seq<char>| after.contains(n) implies before.insert(
            entries[j].name,
        ).contains(n) by {
            let (a, b) = choose|a: int, b: int|
                #[trigger] spec_hit(entries, ivs, ss, rev, a, b) && (a < i || (a == i && b < j + 1))
                    && entries[b].name == n;
            if a == i && b == j {
            } else {
                assert(spec_hit(entries, ivs, ss, rev, a, b) && (a < i || (a == i && b < j))
                    && entries[b].name == n);
            }
        }
        assert forall|n: Seq<char>| before.insert(entries[j].name).contains(n) implies after.contains(
            n,
        ) by {
            if before.contains(n) {
                let (a, b) = choose|a: int, b: int|
                    #[trigger] spec_hit(entries, ivs, ss, rev, a, b) && (a < i || (a == i && b < j))
                        && entries[b].name == n;
                assert(spec_hit(entries, ivs, ss, rev, a, b) && (a < i || (a == i && b < j + 1))
                    && entries[b].name == n);
            } else {
                assert(n == entries[j].name);
                assert(spec_hit(entries, ivs, ss, rev, i, j) && (i < i || (i == i && j < j + 1))
                    && entries[j].name == n);
            }
        }
        assert(after =~= before.insert(entries[j].name));
    } else {
        assert forall|n: Seq<char>| after.contains(n) implies before.contains(n) by {
            let (a, b) = choose|a: int, b: int|
                #[trigger] spec_hit(entries, ivs, ss, rev, a, b) && (a < i || (a == i && b < j + 1))
                    && entries[b].name == n;
            assert(!(a == i && b == j));
            assert(spec_hit(entries, ivs, ss, rev, a, b) && (a < i || (a == i && b < j))
                && entries[b].name == n);
        }
        assert forall|n: Seq<char>| before.contains(n) implies after.contains(n) by {
            let (a, b) = choose|a: int, b: int|
                #[trigger] spec_hit(entries, ivs, ss, rev, a, b) && (a < i || (a == i && b < j))
                    && entries[b].name == n;
            assert(spec_hit(entries, ivs, ss, rev, a, b) && (a < i || (a == i && b < j + 1))
                && entries[b].name == n);
        }
        assert(after =~= before);
    }
}

proof fn lemma_upto_row(
    entries: Seq<FeatureEntryView>,
    ivs: Seq<(int, int)>,
    ss: StrandSpecification,
    rev: bool,
    i: int,
)
    requires
        0 <= i < ivs.len(),
    ensures
        spec_gene_set_upto(entries, ivs, ss, rev, i, entries.len() as int) == spec_gene_set_upto(
            entries,
            ivs,
            ss,
            rev,
            i + 1,
            0,
        ),
{
    let s1 = spec_gene_set_upto(entries, ivs, ss, rev, i, entries.len() as int);
    let s2 = spec_gene_set_upto(entries, ivs, ss, rev, i + 1, 0);
    assert forall|n: Seq<char>| s1.contains(n) implies s2.contains(n) by {
        let (a, b) = choose|a: int, b: int|
            #[trigger] spec_hit(entries, ivs, ss, rev, a, b) && (a < i || (a == i && b
                < entries.len())) && entries[b].name == n;
        assert(spec_hit(entries, ivs, ss, rev, a, b) && (a < i + 1 || (a == i + 1 && b < 0))
            && entries[b].name == n);
    }
    assert forall|n: Seq<char>| s2.contains(n) implies s1.contains(n) by {
        let (a, b) = choose|a: int, b: int|
            #[trigger] spec_hit(entries, ivs, ss, rev, a, b) && (a < i + 1 || (a == i + 1 && b < 0))
                && entries[b].name == n;
        assert(spec_hit(entries, ivs, ss, rev, a, b) && (a < i || (a == i && b < entries.len()))
            && entries[b].name == n);
    }
    assert(s1 =~= s2);
}

proof fn lemma_upto_full(
    entries: Seq<FeatureEntryView>,
    ivs: Seq<(int, int)>,
    ss: StrandSpecification,
    rev: bool,
)
    ensures
        spec_gene_set_upto(entries, ivs, ss, rev, ivs.len() as int, 0) == spec_gene_set(
            entries,
            ivs,
            ss,
            rev,
        ),
{
    let s1 = spec_gene_set_upto(entries, ivs, ss, rev, ivs.len() as int, 0);
    let s2 = spec_gene_set(entries, ivs, ss, rev);
    assert forall|n: Seq<char>| s1.contains(n) implies s2.contains(n) by {
        let (a, b) = choose|a: int, b: int|
            #[trigger] spec_hit(entries, ivs, ss, rev, a, b) && (a < ivs.len() || (a == ivs.len()
                && b < 0)) && entries[b].name == n;
        assert(spec_hit(entries, ivs, ss, rev, a, b) && entries[b].name == n);
    }
    assert forall|n: Seq<char>| s2.contains(n) implies s1.contains(n) by {
        let (a, b) = choose|a: int, b: int|
            #[trigger] spec_hit(entries, ivs, ss, rev, a, b) && entries[b].name == n;
        assert(spec_hit(entries, ivs, ss, rev, a, b) && (a < ivs.len() || (a == ivs.len() && b < 0))
            && entries[b].name == n);
    }
    assert(s1 =~= s2);
}

proof fn lemma_push_to_set(s: Seq<Seq<char>>, x: Seq<char>)
    ensures
        s.push(x).to_set() == s.to_set().insert(x),
        !s.contains(x) ==> s.no_duplicates() ==> s.push(x).no_duplicates(),
{
    assert forall|y: Seq<char>| s.push(x).to_set().contains(y) implies s.to_set().insert(
        x,
    ).contains(y) by {
        let k = choose|k: int| 0 <= k < s.push(x).len() && s.push(x)[k] == y;
        if k < s.len() {
            assert(s[k] == y);
        } else {
            assert(y == x);
        }
    }
    assert forall|y: Seq<char>| s.to_set().insert(x).contains(y) implies s.push(x).to_set().contains(
        y,
    ) by {
        if s.to_set().contains(y) {
            let k = choose|k: int| 0 <= k < s.len() && s[k] == y;
            assert(s.push(x)[k] == y);
        } else {
            assert(s.push(x)[s.len() as int] == x);
        }
    }
    assert(s.push(x).to_set() =~= s.to_set().insert(x));
    if !s.contains(x) && s.no_duplicates() {
        assert forall|p: int, q: int|
            0 <= p < s.push(x).len() && 0 <= q < s.push(x).len() && p != q implies s.push(x)[p]
            != s.push(x)[q] by {
            if p < s.len() && q < s.len() {
            } else if p < s.len() {
                assert(s[p] == s.push(x)[p]);
                assert(s.push(x)[q] == x);
            } else {
                assert(s.push(x)[p] == x);
                assert(s[q] == s.push(x)[q]);
            }
        }
    }
}

/// Whether one of the collected names reads `name`.
fn contains_name(names: &Vec<String>, name: &String) -> (b: bool)
    ensures
        b == names@.map_values(|s: String| s@).contains(name@),
{
    let ghost m = names@.map_values(|s: String| s@);
    let mut k: usize = 0;
    while k < names.len()
        invariant
            k <= names.len(),
            m == names@.map_values(|s: String| s@),
            forall|p: int| 0 <= p < k ==> #[trigger] m[p] != name@,
        decreases names.len() - k,
    {
        if names[k].eq(name) {
            proof {
                assert(m[k as int] == name@);
            }
            return true;
        }
        k = k + 1;
    }
    proof {
        assert(forall|p: int| 0 <= p < m.len() ==> #[trigger] m[p] != name@);
    }
    false
}

/// The gene names a read's projected intervals select from one tree, each
/// name once, under the configured strand rule.
pub fn find(
    tree: &FeatureTree,
    intervals: &Vec<(u64, u64)>,
    strand_specification: StrandSpecification,
    effective_reverse: bool,
) -> (names: Vec<String>)
    ensures
        names@.map_values(|s: String| s@).no_duplicates(),
        names@.map_values(|s: String| s@).to_set() == spec_gene_set(
            tree@,
            spec_iv_views(intervals@),
            strand_specification,
            effective_reverse,
        ),
{
    let ghost entries = tree@;
    let ghost ivs = spec_iv_views(intervals@);
    let mut names: Vec<String> = Vec::new();
    let mut i: usize = 0;
    proof {
        lemma_upto_zero(entries, ivs, strand_specification, effective_reverse);
        assert(names@.map_values(|s: String| s@) =~= Seq::<Seq<char>>::empty());
        assert(names@.map_values(|s: String| s@).to_set() =~= Set::<Seq<char>>::empty());
    }
    while i < intervals.len()
        invariant
            i <= intervals.len(),
            entries == tree@,
            ivs == spec_iv_views(intervals@),
            ivs.len() == intervals@.len(),
            entries.len() == tree.entries@.len(),
            names@.map_values(|s: String| s@).no_duplicates(),
            names@.map_values(|s: String| s@).to_set() == spec_gene_set_upto(
                entries,
                ivs,
                strand_specification,
                effective_reverse,
                i as int,
                0,
            ),
        decreases intervals.len() - i,
    {
        let lo = intervals[i].0;
        let hi = intervals[i].1;
        proof {
            assert(ivs[i as int] == (lo as int, hi as int));
        }
        let mut j: usize = 0;
        while j < tree.entries.len()
            invariant
                j <= tree.entries.len(),
                i < intervals.len(),
                entries == tree@,
                ivs == spec_iv_views(intervals@),
                ivs.len() == intervals@.len(),
                entries.len() == tree.entries@.len(),
                ivs[i as int] == (lo as int, hi as int),
                names@.map_values(|s: String| s@).no_duplicates(),
                names@.map_values(|s: String| s@).to_set() == spec_gene_set_upto(
                    entries,
                    ivs,
                    strand_specification,
                    effective_reverse,
                    i as int,
                    j as int,
                ),
            decreases tree.entries.len() - j,
        {
            let e = &tree.entries[j];
            proof {
                assert(entries[j as int] == tree.entries@[j as int]@);
            }
            let matched = match strand_specification {
                StrandSpecification::Unstranded => true,
                StrandSpecification::Forward | StrandSpecification::Reverse => (e.strand
                    == Strand::Reverse && effective_reverse) || (e.strand == Strand::Forward
                    && !effective_reverse),
            };
            let hit = e.start < hi && lo < e.end && matched;
            proof {
                assert(hit == spec_hit(
                    entries,
                    ivs,
                    strand_specification,
                    effective_reverse,
                    i as int,
                    j as int,
                ));
                lemma_upto_step(
                    entries,
                    ivs,
                    strand_specification,
                    effective_reverse,
                    i as int,
                    j as int,
                );
            }
            if hit {
                if !contains_name(&names, &e.name) {
                    let ghost before = names@.map_values(|s: String| s@);
                    names.push(e.name.clone());
                    proof {
                        assert(names@.map_values(|s: String| s@) =~= before.push(
                            entries[j as int].name,
                        ));
                        lemma_push_to_set(before, entries[j as int].name);
                    }
                } else {
                    proof {
                        assert(names@.map_values(|s: String| s@).to_set().contains(
                            entries[j as int].name,
                        ));
                        assert(names@.map_values(|s: String| s@).to_set().insert(
                            entries[j as int].name,
                        ) =~= names@.map_values(|s: String| s@).to_set());
                    }
                }
            }
            j = j + 1;
        }
        proof {
            lemma_upto_row(entries, ivs, strand_specification, effective_reverse, i as int);
        }
        i = i + 1;
    }
    proof {
        lemma_upto_full(entries, ivs, strand_specification, effective_reverse);
    }
    names
}

/// A finite one-element set's chosen element is its element.
proof fn lemma_singleton_elem(s: Set<Seq<char>>, x: Seq<char>)
    requires
        s.finite(),
        s.len() == 1,
        s.contains(x),
    ensures
        s.choose() == x,
{
    let c = s.choose();
    assert(exists|a: Seq<char>| s.contains(a));
    assert(s.contains(c));
    if c != x {
        assert(s.remove(x).contains(c));
        assert(s.remove(x).len() == 0);
        s.remove(x).lemma_len0_is_empty();
        assert(!s.remove(x).contains(c));
    }
}

/// The accounting rule over the final gene set of a read or pair: no gene
/// feeds `no_feature`, one gene feeds its count, several feed `ambiguous`.
pub open spec fn spec_account(ctx: ContextView, genes: Set<Seq<char>>) -> ContextView {
    if genes.len() == 0 {
        ContextView { no_feature: ((ctx.no_feature + 1) as u64), ..ctx }
    } else if genes.len() == 1 {
        ContextView { counts: spec_increment(ctx.counts, genes.choose()), ..ctx }
    } else {
        ContextView { ambiguous: ((ctx.ambiguous + 1) as u64), ..ctx }
    }
}

/// Every record or pair that reaches accounting lands in exactly one
/// category — one gene's count, `no_feature`, or `ambiguous` — and raises
/// the context's total by exactly one.
pub proof fn lemma_account_exactly_one(ctx: ContextView, genes: Set<Seq<char>>)
    requires
        ctx.total() < u64::MAX,
    ensures
        spec_account(ctx, genes).total() == ctx.total() + 1,
        genes.len() == 0 ==> spec_account(ctx, genes) == (ContextView {
            no_feature: ((ctx.no_feature + 1) as u64),
            ..ctx
        }),
        genes.len() == 1 ==> spec_account(ctx, genes).counts == spec_increment(
            ctx.counts,
            genes.choose(),
        ) && spec_account(ctx, genes).no_feature == ctx.no_feature && spec_account(
            ctx,
            genes,
        ).ambiguous == ctx.ambiguous,
        genes.len() >= 2 ==> spec_account(ctx, genes) == (ContextView {
            ambiguous: ((ctx.ambiguous + 1) as u64),
            ..ctx
        }),
{
    lemma_counts_total_nonneg(ctx.counts);
    if genes.len() == 1 {
        lemma_get_le_total(ctx.counts, genes.choose());
        lemma_increment_total(ctx.counts, genes.choose());
    }
}

/// Folds the gene-name set of one read or pair into the context.
pub fn update_intersections(ctx: &mut Context, intersections: Vec<String>)
    requires
        old(ctx)@.total() < u64::MAX,
        intersections@.map_values(|s: String| s@).no_duplicates(),
    ensures
        final(ctx)@ == spec_account(
            old(ctx)@,
            intersections@.map_values(|s: String| s@).to_set(),
        ),
{
    let ghost m = intersections@.map_values(|s: String| s@);
    proof {
        m.unique_seq_to_set();
        lemma_counts_total_nonneg(ctx@.counts);
    }
    if intersections.len() == 0 {
        ctx.no_feature = ctx.no_feature + 1;
    } else if intersections.len() == 1 {
        let name = &intersections[0];
        proof {
            assert(m[0] == name@);
            assert(m.to_set().contains(name@));
            lemma_singleton_elem(m.to_set(), name@);
            lemma_get_le_total(ctx@.counts, name@);
        }
        ctx.counts.increment(name);
    } else {
        ctx.ambiguous = ctx.ambiguous + 1;
    }
}

/// The reference sequence a record points at, and on a hit the tree under
/// its name; a name without a tree feeds `no_feature` once.
pub fn get_tree<'t>(
    ctx: &mut Context,
    features: &'t Features,
    reference_sequences: &ReferenceSequences,
    ref_id: i32,
) -> (res: Result<Option<&'t FeatureTree>, CountError>)
    requires
        old(ctx)@.total() < u64::MAX,
    ensures
        match res {
            Ok(t_opt) => {
                &&& 0 <= ref_id && (ref_id as int) < reference_sequences@.len()
                &&& match t_opt {
                    Some(t) => spec_find_tree(
                        features@,
                        reference_sequences@[ref_id as int].name@,
                    ) == Some(t@) && final(ctx)@ == old(ctx)@,
                    None => spec_find_tree(features@, reference_sequences@[ref_id as int].name@)
                        is None && final(ctx)@ == (ContextView {
                        no_feature: ((old(ctx)@.no_feature + 1) as u64),
                        ..old(ctx)@
                    }),
                }
            },
            Err(e) => {
                &&& !(0 <= ref_id && (ref_id as int) < reference_sequences@.len())
                &&& e == CountError::InvalidReferenceSequenceId(ref_id)
                &&& final(ctx)@ == old(ctx)@
            },
        },
{
    let reference = match get_reference(reference_sequences, ref_id) {
        Ok(r) => r,
        Err(e) => {
            return Err(e);
        },
    };
    proof {
        lemma_counts_total_nonneg(ctx@.counts);
    }
    match features.get(&reference.name) {
        Some(t) => Ok(Some(t)),
        None => {
            ctx.no_feature = ctx.no_feature + 1;
            Ok(None)
        },
    }
}

/// Whether the configuration inverts the observed read orientation before
/// the strand comparison.
pub open spec fn spec_invert(strand_specification: StrandSpecification) -> bool {
    strand_specification == StrandSpecification::Reverse
}

/// The orientation a read is compared under: its reverse flag, inverted
/// when the configuration asks for it.
pub open spec fn spec_effective_reverse(r: RecordView, invert: bool) -> bool {
    r.flags.spec_is_reverse() != invert
}

/// What processing one single-end record does to a context: a filtered
/// record feeds its filter counter; a surviving record's reference id must
/// index the reference table; a name without a tree feeds `no_feature`; and
/// otherwise the read's gene set is folded in by the accounting rule.
pub open spec fn spec_process_single(
    filter: Filter,
    features: Seq<(Seq<char>, Seq<FeatureEntryView>)>,
    references: Seq<ReferenceSequence>,
    strand_specification: StrandSpecification,
    ctx: ContextView,
    r: RecordView,
) -> Result<ContextView, CountError> {
    let verdict = filter.spec_reason(r);
    if verdict is Some {
        Ok(spec_apply_filter(ctx, verdict))
    } else if !(0 <= r.reference_sequence_id && (r.reference_sequence_id as int)
        < references.len()) {
        Err(CountError::InvalidReferenceSequenceId(r.reference_sequence_id))
    } else {
        match spec_find_tree(features, references[r.reference_sequence_id as int].name@) {
            None => Ok(ContextView { no_feature: ((ctx.no_feature + 1) as u64), ..ctx }),
            Some(entries) => Ok(
                spec_account(
                    ctx,
                    spec_gene_set(
                        entries,
                        spec_intervals(r.cigar, r.position + 1),
                        strand_specification,
                        spec_effective_reverse(r, spec_invert(strand_specification)),
                    ),
                ),
            ),
        }
    }
}

/// Processing one record raises the total by exactly one when it succeeds.
pub proof fn lemma_process_single_total(
    filter: Filter,
    features: Seq<(Seq<char>, Seq<FeatureEntryView>)>,
    references: Seq<ReferenceSequence>,
    strand_specification: StrandSpecification,
    ctx: ContextView,
    r: RecordView,
)
    requires
        ctx.total() < u64::MAX,
        spec_process_single(filter, features, references, strand_specification, ctx, r) is Ok,
    ensures
        spec_process_single(
            filter,
            features,
            references,
            strand_specification,
            ctx,
            r,
        )->Ok_0.total() == ctx.total() + 1,
{
    lemma_counts_total_nonneg(ctx.counts);
    let verdict = filter.spec_reason(r);
    if verdict is Some {
        crate::count::filter::lemma_bump_total(ctx, verdict->0);
    } else {
        let rid = r.reference_sequence_id as int;
        match spec_find_tree(features, references[rid].name@) {
            None => {},
            Some(entries) => {
                lemma_account_exactly_one(
                    ctx,
                    spec_gene_set(
                        entries,
                        spec_intervals(r.cigar, r.position + 1),
                        strand_specification,
                        spec_effective_reverse(r, spec_invert(strand_specification)),
                    ),
                );
            },
        }
    }
}

/// The 1-based alignment start of a record.
fn alignment_start(record: &Record) -> (start: u64)
    requires
        record@.position >= -1,
    ensures
        start as int == record@.position + 1,
{
    (record.position as i64 + 1) as u64
}

/// Counts one single-end record into the context.
pub fn count_single_end_record(
    ctx: &mut Context,
    features: &Features,
    reference_sequences: &ReferenceSequences,
    filter: &Filter,
    strand_specification: StrandSpecification,
    record: &Record,
) -> (res: Result<(), CountError>)
    requires
        old(ctx)@.total() < u64::MAX,
        record@.wf(),
    ensures
        match res {
            Ok(_) => spec_process_single(
                *filter,
                features@,
                reference_sequences@,
                strand_specification,
                old(ctx)@,
                record@,
            ) == Ok::<ContextView, CountError>(final(ctx)@),
            Err(e) => spec_process_single(
                *filter,
                features@,
                reference_sequences@,
                strand_specification,
                old(ctx)@,
                record@,
            ) == Err::<ContextView, CountError>(e) && final(ctx)@ == old(ctx)@,
        },
{
    if filter.filter(ctx, record) {
        return Ok(());
    }
    let start = alignment_start(record);
    proof {
        crate::cigar::lemma_ref_len_nonneg(record@.cigar);
    }
    let intervals = cigar_to_intervals(&record.cigar, start);
    let invert = match strand_specification {
        StrandSpecification::Reverse => true,
        _ => false,
    };
    let effective_reverse = record.flags.is_reverse() != invert;
    let tree = match get_tree(ctx, features, reference_sequences, record.reference_sequence_id) {
        Ok(Some(t)) => t,
        Ok(None) => {
            return Ok(());
        },
        Err(e) => {
            return Err(e);
        },
    };
    let names = find(tree, &intervals, strand_specification, effective_reverse);
    proof {
        assert(spec_iv_views(intervals@) == spec_intervals(record@.cigar, record@.position + 1));
    }
    update_intersections(ctx, names);
    Ok(())
}

/// What a whole single-end run computes: the records folded into the
/// context in order, stopping at the first fatal error.
pub open spec fn spec_count_single_seq(
    filter: Filter,
    features: Seq<(Seq<char>, Seq<FeatureEntryView>)>,
    references: Seq<ReferenceSequence>,
    strand_specification: StrandSpecification,
    ctx: ContextView,
    rs: Seq<RecordView>,
) -> Result<ContextView, CountError>
    decreases rs.len(),
{
    if rs.len() == 0 {
        Ok(ctx)
    } else {
        match spec_process_single(filter, features, references, strand_specification, ctx, rs[0]) {
            Ok(c2) => spec_count_single_seq(
                filter,
                features,
                references,
                strand_specification,
                c2,
                rs.drop_first(),
            ),
            Err(e) => Err(e),
        }
    }
}

proof fn lemma_count_single_snoc(
    filter: Filter,
    features: Seq<(Seq<char>, Seq<FeatureEntryView>)>,
    references: Seq<ReferenceSequence>,
    strand_specification: StrandSpecification,
    ctx: ContextView,
    rs: Seq<RecordView>,
    r: RecordView,
)
    ensures
        spec_count_single_seq(
            filter,
            features,
            references,
            strand_specification,
            ctx,
            rs.push(r),
        ) == (match spec_count_single_seq(
            filter,
            features,
            references,
            strand_specification,
            ctx,
            rs,
        ) {
            Ok(c) => spec_process_single(
                filter,
                features,
                references,
                strand_specification,
                c,
                r,
            ),
            Err(e) => Err(e),
        }),
    decreases rs.len(),
{
    reveal_with_fuel(spec_count_single_seq, 3);
    if rs.len() == 0 {
        assert(rs.push(r)[0] == r);
        assert(rs.push(r).drop_first() =~= Seq::<RecordView>::empty());
    } else {
        assert(rs.push(r)[0] == rs[0]);
        assert(rs.push(r).drop_first() =~= rs.drop_first().push(r));
        match spec_process_single(filter, features, references, strand_specification, ctx, rs[0]) {
            Ok(c2) => {
                lemma_count_single_snoc(
                    filter,
                    features,
                    references,
                    strand_specification,
                    c2,
                    rs.drop_first(),
                    r,
                );
                assert(spec_count_single_seq(
                    filter,
                    features,
                    references,
                    strand_specification,
                    ctx,
                    rs.push(r),
                ) == spec_count_single_seq(
                    filter,
                    features,
                    references,
                    strand_specification,
                    c2,
                    rs.drop_first().push(r),
                ));
            },
            Err(_) => {},
        }
    }
}

/// Counts a whole stream of single-end records.  On success the context is
/// the in-order fold of every record, and its total equals the number of
/// records: each record lands in exactly one category.
pub fn count_single_end_records(
    records: &Vec<Record>,
    features: &Features,
    reference_sequences: &ReferenceSequences,
    filter: &Filter,
    strand_specification: StrandSpecification,
) -> (res: Result<Context, CountError>)
    requires
        forall|k: int| 0 <= k < records@.len() ==> (#[trigger] records@[k])@.wf(),
    ensures
        match res {
            Ok(c) => spec_count_single_seq(
                *filter,
                features@,
                reference_sequences@,
                strand_specification,
                ContextView::empty(),
                records@.map_values(|r: Record| r@),
            ) == Ok::<ContextView, CountError>(c@) && c@.total() == records@.len(),
            Err(e) => spec_count_single_seq(
                *filter,
                features@,
                reference_sequences@,
                strand_specification,
                ContextView::empty(),
                records@.map_values(|r: Record| r@),
            ) == Err::<ContextView, CountError>(e),
        },
{
    let ghost all = records@.map_values(|r: Record| r@);
    let mut ctx = Context::new();
    let mut i: usize = 0;
    proof {
        assert(all.subrange(0, 0) =~= Seq::<RecordView>::empty());
    }
    while i < records.len()
        invariant
            i <= records.len(),
            all == records@.map_values(|r: Record| r@),
            all.len() == records@.len(),
            forall|k: int| 0 <= k < records@.len() ==> (#[trigger] records@[k])@.wf(),
            ctx@.total() == i,
            spec_count_single_seq(
                *filter,
                features@,
                reference_sequences@,
                strand_specification,
                ContextView::empty(),
                all.subrange(0, i as int),
            ) == Ok::<ContextView, CountError>(ctx@),
        decreases records.len() - i,
    {
        let ghost prefix = all.subrange(0, i as int);
        let ghost ctx_before = ctx@;
        proof {
            assert(i < u64::MAX) by {
                assert(i < records@.len());
                assert(records@.len() <= usize::MAX);
            }
        }
        let record = &records[i];
        let res = count_single_end_record(
            &mut ctx,
            features,
            reference_sequences,
            filter,
            strand_specification,
            record,
        );
        proof {
            lemma_count_single_snoc(
                *filter,
                features@,
                reference_sequences@,
                strand_specification,
                ContextView::empty(),
                prefix,
                record@,
            );
            assert(prefix.push(record@) =~= all.subrange(0, i as int + 1));
        }
        match res {
            Ok(_) => {
                proof {
                    lemma_process_single_total(
                        *filter,
                        features@,
                        reference_sequences@,
                        strand_specification,
                        ctx_before,
                        record@,
                    );
                }
            },
            Err(e) => {
                proof {
                    assert(spec_count_single_seq(
                        *filter,
                        features@,
                        reference_sequences@,
                        strand_specification,
                        ContextView::empty(),
                        all.subrange(0, i as int + 1),
                    ) == Err::<ContextView, CountError>(e));
                    lemma_count_err_prefix(
                        *filter,
                        features@,
                        reference_sequences@,
                        strand_specification,
                        ContextView::empty(),
                        all,
                        i as int + 1,
                        e,
                    );
                }
                return Err(e);
            },
        }
        i = i + 1;
    }
    proof {
        assert(all.subrange(0, all.len() as int) =~= all);
    }
    Ok(ctx)
}

/// A fatal error inside a prefix is the whole run's result.
proof fn lemma_count_err_prefix(
    filter: Filter,
    features: Seq<(Seq<char>, Seq<FeatureEntryView>)>,
    references: Seq<ReferenceSequence>,
    strand_specification: StrandSpecification,
    ctx: ContextView,
    rs: Seq<RecordView>,
    k: int,
    e: CountError,
)
    requires
        0 <= k <= rs.len(),
        spec_count_single_seq(
            filter,
            features,
            references,
            strand_specification,
            ctx,
            rs.subrange(0, k),
        ) == Err::<ContextView, CountError>(e),
    ensures
        spec_count_single_seq(filter, features, references, strand_specification, ctx, rs)
            == Err::<ContextView, CountError>(e),
    decreases k,
{
    if k == 0 {
        assert(rs.subrange(0, 0) =~= Seq::<RecordView>::empty());
        assert(false);
    } else {
        let pre = rs.subrange(0, k);
        if rs.len() > 0 {
            assert(pre[0] == rs[0]);
            match spec_process_single(
                filter,
                features,
                references,
                strand_specification,
                ctx,
                rs[0],
            ) {
                Ok(c2) => {
                    assert(pre.drop_first() =~= rs.drop_first().subrange(0, k - 1));
                    lemma_count_err_prefix(
                        filter,
                        features,
                        references,
                        strand_specification,
                        c2,
                        rs.drop_first(),
                        k - 1,
                        e,
                    );
                },
                Err(_) => {},
            }
        }
    }
}

/// The strand with forward and reverse exchanged; `Unknown` and
/// `Irrelevant` stay as they are.
pub open spec fn spec_swap_strand(s: Strand) -> Strand {
    match s {
        Strand::Forward => Strand::Reverse,
        Strand::Reverse => Strand::Forward,
        Strand::Unknown => Strand::Unknown,
        Strand::Irrelevant => Strand::Irrelevant,
    }
}

/// A feature index tree with every entry's strand exchanged.
pub open spec fn spec_swap_entries(entries: Seq<FeatureEntryView>) -> Seq<FeatureEntryView> {
    entries.map_values(
        |e: FeatureEntryView|
            FeatureEntryView {
                start: e.start,
                end: e.end,
                name: e.name,
                strand: spec_swap_strand(e.strand),
            },
    )
}

/// Strand-rule symmetry: exchanging forward and reverse in every feature's
/// strand and in every read's orientation leaves the rule's verdict
/// unchanged, under any strand specification.
pub proof fn lemma_strand_match_symmetry(
    strand_specification: StrandSpecification,
    entry_strand: Strand,
    effective_reverse: bool,
)
    ensures
        spec_strand_matches(
            strand_specification,
            spec_swap_strand(entry_strand),
            !effective_reverse,
        ) == spec_strand_matches(strand_specification, entry_strand, effective_reverse),
{
}

/// Strand symmetry lifted to whole gene sets: a tree with every strand
/// exchanged, read with the opposite orientation, selects exactly the same
/// gene names.
pub proof fn lemma_gene_set_symmetry(
    entries: Seq<FeatureEntryView>,
    ivs: Seq<(int, int)>,
    strand_specification: StrandSpecification,
    effective_reverse: bool,
)
    ensures
        spec_gene_set(
            spec_swap_entries(entries),
            ivs,
            strand_specification,
            !effective_reverse,
        ) == spec_gene_set(entries, ivs, strand_specification, effective_reverse),
{
    let swapped = spec_swap_entries(entries);
    let s1 = spec_gene_set(swapped, ivs, strand_specification, !effective_reverse);
    let s2 = spec_gene_set(entries, ivs, strand_specification, effective_reverse);
    let flipped = !effective_reverse;
    assert forall|n: Seq<char>| s1.contains(n) implies s2.contains(n) by {
        let (a, b) = choose|a: int, b: int|
            #[trigger] spec_hit(swapped, ivs, strand_specification, flipped, a, b)
                && swapped[b].name == n;
        lemma_strand_match_symmetry(strand_specification, entries[b].strand, effective_reverse);
        assert(spec_hit(entries, ivs, strand_specification, effective_reverse, a, b)
            && entries[b].name == n);
    }
    assert forall|n: Seq<char>| s2.contains(n) implies s1.contains(n) by {
        let (a, b) = choose|a: int, b: int|
            #[trigger] spec_hit(entries, ivs, strand_specification, effective_reverse, a, b)
                && entries[b].name == n;
        lemma_strand_match_symmetry(strand_specification, entries[b].strand, effective_reverse);
        assert(spec_hit(swapped, ivs, strand_specification, !effective_reverse, a, b)
            && swapped[b].name == n);
        assert(s1.contains(n));
    }
    assert(s1 =~= s2);
}

/// Ignoring strand selects a superset: any gene a strand-specific run
/// selects for a read, a strand-blind run selects too.
pub proof fn lemma_unstranded_superset(
    entries: Seq<FeatureEntryView>,
    ivs: Seq<(int, int)>,
    strand_specification: StrandSpecification,
    effective_reverse: bool,
)
    ensures
        spec_gene_set(entries, ivs, strand_specification, effective_reverse).subset_of(
            spec_gene_set(entries, ivs, StrandSpecification::Unstranded, effective_reverse),
        ),
{
    let s1 = spec_gene_set(entries, ivs, strand_specification, effective_reverse);
    let s2 = spec_gene_set(entries, ivs, StrandSpecification::Unstranded, effective_reverse);
    assert forall|n: Seq<char>| s1.contains(n) implies s2.contains(n) by {
        let (a, b) = choose|a: int, b: int|
            #[trigger] spec_hit(entries, ivs, strand_specification, effective_reverse, a, b)
                && entries[b].name == n;
        assert(spec_hit(entries, ivs, StrandSpecification::Unstranded, effective_reverse, a, b)
            && entries[b].name == n);
    }
}

/// What processing one mate pair does to a context: the pair filter's
/// verdict feeds one counter; otherwise both mates' reference ids must
/// index the reference table, a missing tree for either mate feeds
/// `no_feature` once, and otherwise the union of the two mates' gene sets
/// is folded in by the accounting rule.  Mate 2 is compared with the
/// inverted orientation: the mates sequence opposite strands.
pub open spec fn spec_process_pair(
    filter: Filter,
    features: Seq<(Seq<char>, Seq<FeatureEntryView>)>,
    references: Seq<ReferenceSequence>,
    strand_specification: StrandSpecification,
    ctx: ContextView,
    r1: RecordView,
    r2: RecordView,
) -> Result<ContextView, CountError> {
    let verdict = filter.spec_pair_reason(r1, r2);
    if verdict is Some {
        Ok(spec_apply_filter(ctx, verdict))
    } else if !(0 <= r1.reference_sequence_id && (r1.reference_sequence_id as int)
        < references.len()) {
        Err(CountError::InvalidReferenceSequenceId(r1.reference_sequence_id))
    } else {
        match spec_find_tree(features, references[r1.reference_sequence_id as int].name@) {
            None => Ok(ContextView { no_feature: ((ctx.no_feature + 1) as u64), ..ctx }),
            Some(entries1) => {
                if !(0 <= r2.reference_sequence_id && (r2.reference_sequence_id as int)
                    < references.len()) {
                    Err(CountError::InvalidReferenceSequenceId(r2.reference_sequence_id))
                } else {
                    match spec_find_tree(
                        features,
                        references[r2.reference_sequence_id as int].name@,
                    ) {
                        None => Ok(ContextView { no_feature: ((ctx.no_feature + 1) as u64), ..ctx }),
                        Some(entries2) => Ok(
                            spec_account(
                                ctx,
                                spec_gene_set(
                                    entries1,
                                    spec_intervals(r1.cigar, r1.position + 1),
                                    strand_specification,
                                    spec_effective_reverse(r1, spec_invert(strand_specification)),
                                ) + spec_gene_set(
                                    entries2,
                                    spec_intervals(r2.cigar, r2.position + 1),
                                    strand_specification,
                                    spec_effective_reverse(r2, !spec_invert(strand_specification)),
                                ),
                            ),
                        ),
                    }
                }
            },
        }
    }
}

/// Processing one pair raises the total by exactly one when it succeeds.
pub proof fn lemma_process_pair_total(
    filter: Filter,
    features: Seq<(Seq<char>, Seq<FeatureEntryView>)>,
    references: Seq<ReferenceSequence>,
    strand_specification: StrandSpecification,
    ctx: ContextView,
    r1: RecordView,
    r2: RecordView,
)
    requires
        ctx.total() < u64::MAX,
        spec_process_pair(filter, features, references, strand_specification, ctx, r1, r2) is Ok,
    ensures
        spec_process_pair(
            filter,
            features,
            references,
            strand_specification,
            ctx,
            r1,
            r2,
        )->Ok_0.total() == ctx.total() + 1,
{
    lemma_counts_total_nonneg(ctx.counts);
    let verdict = filter.spec_pair_reason(r1, r2);
    if verdict is Some {
        crate::count::filter::lemma_bump_total(ctx, verdict->0);
    } else {
        let rid1 = r1.reference_sequence_id as int;
        match spec_find_tree(features, references[rid1].name@) {
            None => {},
            Some(entries1) => {
                let rid2 = r2.reference_sequence_id as int;
                match spec_find_tree(features, references[rid2].name@) {
                    None => {},
                    Some(entries2) => {
                        lemma_account_exactly_one(
                            ctx,
                            spec_gene_set(
                                entries1,
                                spec_intervals(r1.cigar, r1.position + 1),
                                strand_specification,
                                spec_effective_reverse(r1, spec_invert(strand_specification)),
                            ) + spec_gene_set(
                                entries2,
                                spec_intervals(r2.cigar, r2.position + 1),
                                strand_specification,
                                spec_effective_reverse(r2, !spec_invert(strand_specification)),
                            ),
                        );
                    },
                }
            },
        }
    }
}

/// What a whole paired run computes over the pairs the buffer emits.
pub open spec fn spec_count_pairs_seq(
    filter: Filter,
    features: Seq<(Seq<char>, Seq<FeatureEntryView>)>,
    references: Seq<ReferenceSequence>,
    strand_specification: StrandSpecification,
    ctx: ContextView,
    ps: Seq<(RecordView, RecordView)>,
) -> Result<ContextView, CountError>
    decreases ps.len(),
{
    if ps.len() == 0 {
        Ok(ctx)
    } else {
        match spec_process_pair(
            filter,
            features,
            references,
            strand_specification,
            ctx,
            ps[0].0,
            ps[0].1,
        ) {
            Ok(c2) => spec_count_pairs_seq(
                filter,
                features,
                references,
                strand_specification,
                c2,
                ps.drop_first(),
            ),
            Err(e) => Err(e),
        }
    }
}

proof fn lemma_count_pairs_snoc(
    filter: Filter,
    features: Seq<(Seq<char>, Seq<FeatureEntryView>)>,
    references: Seq<ReferenceSequence>,
    strand_specification: StrandSpecification,
    ctx: ContextView,
    ps: Seq<(RecordView, RecordView)>,
    q: (RecordView, RecordView),
)
    ensures
        spec_count_pairs_seq(
            filter,
            features,
            references,
            strand_specification,
            ctx,
            ps.push(q),
        ) == (match spec_count_pairs_seq(
            filter,
            features,
            references,
            strand_specification,
            ctx,
            ps,
        ) {
            Ok(c) => spec_process_pair(
                filter,
                features,
                references,
                strand_specification,
                c,
                q.0,
                q.1,
            ),
            Err(e) => Err(e),
        }),
    decreases ps.len(),
{
    reveal_with_fuel(spec_count_pairs_seq, 3);
    if ps.len() == 0 {
        assert(ps.push(q)[0] == q);
        assert(ps.push(q).drop_first() =~= Seq::<(RecordView, RecordView)>::empty());
    } else {
        assert(ps.push(q)[0] == ps[0]);
        assert(ps.push(q).drop_first() =~= ps.drop_first().push(q));
        match spec_process_pair(
            filter,
            features,
            references,
            strand_specification,
            ctx,
            ps[0].0,
            ps[0].1,
        ) {
            Ok(c2) => {
                lemma_count_pairs_snoc(
                    filter,
                    features,
                    references,
                    strand_specification,
                    c2,
                    ps.drop_first(),
                    q,
                );
            },
            Err(_) => {},
        }
    }
}

/// The collected names of both mates, each once.
fn union_names(names1: Vec<String>, names2: &Vec<String>) -> (r: Vec<String>)
    requires
        names1@.map_values(|s: String| s@).no_duplicates(),
    ensures
        r@.map_values(|s: String| s@).no_duplicates(),
        r@.map_values(|s: String| s@).to_set() == names1@.map_values(|s: String| s@).to_set()
            + names2@.map_values(|s: String| s@).to_set(),
{
    let ghost aset = names1@.map_values(|s: String| s@).to_set();
    let ghost b = names2@.map_values(|s: String| s@);
    let mut out = names1;
    let mut i: usize = 0;
    proof {
        assert(b.take(0) =~= Seq::<Seq<char>>::empty());
        assert(b.take(0).to_set() =~= Set::<Seq<char>>::empty());
        assert(aset + b.take(0).to_set() =~= aset);
    }
    while i < names2.len()
        invariant
            i <= names2.len(),
            b == names2@.map_values(|s: String| s@),
            b.len() == names2@.len(),
            out@.map_values(|s: String| s@).no_duplicates(),
            out@.map_values(|s: String| s@).to_set() == aset + b.take(i as int).to_set(),
        decreases names2.len() - i,
    {
        let name = &names2[i];
        proof {
            assert(b[i as int] == name@);
            assert(b.take(i as int + 1) =~= b.take(i as int).push(b[i as int]));
            lemma_push_to_set(b.take(i as int), b[i as int]);
        }
        if !contains_name(&out, name) {
            let ghost before = out@.map_values(|s: String| s@);
            out.push(name.clone());
            proof {
                assert(out@.map_values(|s: String| s@) =~= before.push(name@));
                lemma_push_to_set(before, name@);
                assert(before.push(name@).to_set() =~= aset + b.take(i as int + 1).to_set());
            }
        } else {
            proof {
                assert(out@.map_values(|s: String| s@).to_set() =~= aset + b.take(
                    i as int + 1,
                ).to_set());
            }
        }
        i = i + 1;
    }
    proof {
        assert(b.take(b.len() as int) =~= b);
    }
    out
}

/// Counts a stream of paired-end records: records are paired by the
/// buffer's key symmetry, each emitted pair is filtered and accounted as
/// one unit, and the buffer with the residual singletons is handed back.
/// On success the emitted pairs, the residual singletons, and the
/// duplicate-key overwrite count equal the canonical pairing run
/// [`spec_pairing_run`] over the whole stream; the context is the in-order
/// fold of those pairs and its total equals their number.
pub fn count_paired_end_records(
    records: Vec<Record>,
    features: &Features,
    reference_sequences: &ReferenceSequences,
    filter: &Filter,
    strand_specification: StrandSpecification,
) -> (res: Result<(Context, RecordPairs), CountError>)
    requires
        forall|k: int| 0 <= k < records@.len() ==> (#[trigger] records@[k])@.wf(),
    ensures
        match res {
            Ok(out) => {
                &&& out.1.wf()
                &&& out.1.spec_done()
                &&& spec_count_pairs_seq(
                    *filter,
                    features@,
                    reference_sequences@,
                    strand_specification,
                    ContextView::empty(),
                    out.1.spec_emitted_pairs(),
                ) == Ok::<ContextView, CountError>(out.0@)
                &&& out.0@.total() == out.1.spec_emitted_pairs().len()
                &&& forall|k: int|
                    0 <= k < out.1.spec_emitted_pairs().len() ==> {
                        &&& (#[trigger] out.1.spec_emitted_pairs()[k]).0.read_name
                            == out.1.spec_emitted_pairs()[k].1.read_name
                        &&& PairPosition::spec_from_flags(out.1.spec_emitted_pairs()[k].0.flags)
                            == Some(PairPosition::First)
                        &&& PairPosition::spec_from_flags(out.1.spec_emitted_pairs()[k].1.flags)
                            == Some(PairPosition::Second)
                        &&& (exists|i: int|
                            0 <= i < spec_views(records@).len() && #[trigger] spec_views(
                                records@,
                            )[i] == out.1.spec_emitted_pairs()[k].0)
                        &&& (exists|i: int|
                            0 <= i < spec_views(records@).len() && #[trigger] spec_views(
                                records@,
                            )[i] == out.1.spec_emitted_pairs()[k].1)
                        &&& spec_key(out.1.spec_emitted_pairs()[k].0) == spec_mate_key(
                            out.1.spec_emitted_pairs()[k].1,
                        )
                        &&& spec_counts_toward(
                            out.1.spec_emitted_pairs()[k].0,
                            !filter.with_secondary_records && !filter.with_supplementary_records,
                        )
                        &&& spec_counts_toward(
                            out.1.spec_emitted_pairs()[k].1,
                            !filter.with_secondary_records && !filter.with_supplementary_records,
                        )
                    }
                &&& 2 * out.1.spec_emitted_pairs().len() + out.1.spec_buffered()
                    + out.1.spec_overwritten() == spec_pairing_units(
                    spec_views(records@),
                    !filter.with_secondary_records && !filter.with_supplementary_records,
                )
                &&& out.1.spec_emitted_pairs() == spec_pairing_run(
                    spec_views(records@),
                    !filter.with_secondary_records && !filter.with_supplementary_records,
                ).emitted
                &&& out.1.spec_buffer_views() == spec_pairing_run(
                    spec_views(records@),
                    !filter.with_secondary_records && !filter.with_supplementary_records,
                ).buf.map_values(|q: (RecordKeyView, RecordView)| q.1)
                &&& out.1.spec_overwritten() == spec_pairing_run(
                    spec_views(records@),
                    !filter.with_secondary_records && !filter.with_supplementary_records,
                ).overwritten
            },
            Err(e) => {
                &&& (e == CountError::InvalidPairPosition ==> exists|k: int|
                    0 <= k < spec_views(records@).len() && !spec_classifiable(
                        #[trigger] spec_views(records@)[k],
                    ))
                &&& (e matches CountError::InvalidReferenceSequenceId(id) ==> !(0 <= id && (
                id as int) < reference_sequences@.len()) && exists|k: int|
                    0 <= k < spec_views(records@).len() && (#[trigger] spec_views(
                        records@,
                    )[k]).reference_sequence_id == id)
            },
        },
{
    let primary_only = !filter.with_secondary_records && !filter.with_supplementary_records;
    let ghost units_total = spec_pairing_units(spec_views(records@), primary_only);
    let ghost n_records = records@.len();
    let n_exec = records.len();
    proof {
        assert(n_records == n_exec);
        lemma_units_bounds(spec_views(records@), primary_only);
    }
    let mut ctx = Context::new();
    let mut pairs = RecordPairs::new(records, primary_only);
    loop
        invariant
            pairs.wf(),
            pairs.spec_units_total() == units_total,
            pairs.spec_source() == spec_views(records@),
            pairs.spec_primary_only() == primary_only,
            0 <= units_total <= n_records,
            n_records <= usize::MAX,
            2 * pairs.spec_emitted_pairs().len() <= units_total,
            pairs.spec_remaining() >= 0,
            ctx@.total() == pairs.spec_emitted_pairs().len(),
            spec_count_pairs_seq(
                *filter,
                features@,
                reference_sequences@,
                strand_specification,
                ContextView::empty(),
                pairs.spec_emitted_pairs(),
            ) == Ok::<ContextView, CountError>(ctx@),
            forall|k: int|
                0 <= k < pairs.spec_emitted_pairs().len() ==> {
                    &&& (#[trigger] pairs.spec_emitted_pairs()[k]).0.read_name
                        == pairs.spec_emitted_pairs()[k].1.read_name
                    &&& PairPosition::spec_from_flags(pairs.spec_emitted_pairs()[k].0.flags)
                        == Some(PairPosition::First)
                    &&& PairPosition::spec_from_flags(pairs.spec_emitted_pairs()[k].1.flags)
                        == Some(PairPosition::Second)
                    &&& (exists|i: int|
                        0 <= i < spec_views(records@).len() && #[trigger] spec_views(records@)[i]
                            == pairs.spec_emitted_pairs()[k].0)
                    &&& (exists|i: int|
                        0 <= i < spec_views(records@).len() && #[trigger] spec_views(records@)[i]
                            == pairs.spec_emitted_pairs()[k].1)
                    &&& spec_key(pairs.spec_emitted_pairs()[k].0) == spec_mate_key(
                        pairs.spec_emitted_pairs()[k].1,
                    )
                    &&& spec_counts_toward(pairs.spec_emitted_pairs()[k].0, primary_only)
                    &&& spec_counts_toward(pairs.spec_emitted_pairs()[k].1, primary_only)
                },
        ensures
            pairs.spec_done(),
            2 * pairs.spec_emitted_pairs().len() + pairs.spec_buffered() + pairs.spec_overwritten()
                == units_total,
            pairs.spec_emitted_pairs() == spec_pairing_run(
                spec_views(records@),
                primary_only,
            ).emitted,
            pairs.spec_buffer_views() == spec_pairing_run(
                spec_views(records@),
                primary_only,
            ).buf.map_values(|q: (RecordKeyView, RecordView)| q.1),
            pairs.spec_overwritten() == spec_pairing_run(
                spec_views(records@),
                primary_only,
            ).overwritten,
        decreases pairs.spec_remaining(),
    {
        let ghost emitted_before = pairs.spec_emitted_pairs();
        let ghost ctx_before = ctx@;
        match pairs.next_pair() {
            None => {
                proof {
                    assert(pairs.spec_source().take(pairs.spec_consumed()) =~= spec_views(
                        records@,
                    ));
                }
                break ;
            },
            Some(Err(e)) => {
                return Err(e);
            },
            Some(Ok((r1, r2))) => {
                proof {
                    let i1 = choose|i: int|
                        0 <= i < pairs.spec_source().len() && #[trigger] pairs.spec_source()[i]
                            == r1@;
                    let i2 = choose|i: int|
                        0 <= i < pairs.spec_source().len() && #[trigger] pairs.spec_source()[i]
                            == r2@;
                    assert(spec_views(records@)[i1] == r1@);
                    assert(spec_views(records@)[i2] == r2@);
                    lemma_count_pairs_snoc(
                        *filter,
                        features@,
                        reference_sequences@,
                        strand_specification,
                        ContextView::empty(),
                        emitted_before,
                        (r1@, r2@),
                    );
                    assert(ctx@.total() < u64::MAX);
                }
                if filter.filter_pair(&mut ctx, &r1, &r2) {
                } else {
                    let start1 = alignment_start(&r1);
                    proof {
                        crate::cigar::lemma_ref_len_nonneg(r1@.cigar);
                    }
                    let intervals1 = cigar_to_intervals(&r1.cigar, start1);
                    let invert1 = match strand_specification {
                        StrandSpecification::Reverse => true,
                        _ => false,
                    };
                    let effective_reverse1 = r1.flags.is_reverse() != invert1;
                    match get_tree(
                        &mut ctx,
                        features,
                        reference_sequences,
                        r1.reference_sequence_id,
                    ) {
                        Err(e) => {
                            proof {
                                let i1 = choose|i: int|
                                    0 <= i < pairs.spec_source().len()
                                        && #[trigger] pairs.spec_source()[i] == r1@;
                                assert(spec_views(records@)[i1].reference_sequence_id
                                    == r1@.reference_sequence_id);
                            }
                            return Err(e);
                        },
                        Ok(None) => {},
                        Ok(Some(tree1)) => {
                            let names1 = find(
                                tree1,
                                &intervals1,
                                strand_specification,
                                effective_reverse1,
                            );
                            let start2 = alignment_start(&r2);
                            proof {
                                crate::cigar::lemma_ref_len_nonneg(r2@.cigar);
                            }
                            let intervals2 = cigar_to_intervals(&r2.cigar, start2);
                            let invert2 = match strand_specification {
                                StrandSpecification::Reverse => false,
                                _ => true,
                            };
                            let effective_reverse2 = r2.flags.is_reverse() != invert2;
                            match get_tree(
                                &mut ctx,
                                features,
                                reference_sequences,
                                r2.reference_sequence_id,
                            ) {
                                Err(e) => {
                                    proof {
                                        let i2 = choose|i: int|
                                            0 <= i < pairs.spec_source().len()
                                                && #[trigger] pairs.spec_source()[i] == r2@;
                                        assert(spec_views(records@)[i2].reference_sequence_id
                                            == r2@.reference_sequence_id);
                                    }
                                    return Err(e);
                                },
                                Ok(None) => {},
                                Ok(Some(tree2)) => {
                                    let names2 = find(
                                        tree2,
                                        &intervals2,
                                        strand_specification,
                                        effective_reverse2,
                                    );
                                    let names = union_names(names1, &names2);
                                    update_intersections(&mut ctx, names);
                                },
                            }
                        },
                    }
                }
                proof {
                    lemma_process_pair_total(
                        *filter,
                        features@,
                        reference_sequences@,
                        strand_specification,
                        ctx_before,
                        r1@,
                        r2@,
                    );
                }
            },
        }
    }
    Ok((ctx, pairs))
}

/// What processing one residual singleton does to a context: as a
/// single-end record, except that the read's orientation is first set by
/// its pair position — mate 1 as it stands, mate 2 inverted — and then by
/// the strand specification; a record that is neither mate is a fatal
/// error.
pub open spec fn spec_process_singleton(
    filter: Filter,
    features: Seq<(Seq<char>, Seq<FeatureEntryView>)>,
    references: Seq<ReferenceSequence>,
    strand_specification: StrandSpecification,
    ctx: ContextView,
    r: RecordView,
) -> Result<ContextView, CountError> {
    let verdict = filter.spec_reason(r);
    if verdict is Some {
        Ok(spec_apply_filter(ctx, verdict))
    } else if !spec_classifiable(r) {
        Err(CountError::InvalidPairPosition)
    } else if !(0 <= r.reference_sequence_id && (r.reference_sequence_id as int)
        < references.len()) {
        Err(CountError::InvalidReferenceSequenceId(r.reference_sequence_id))
    } else {
        match spec_find_tree(features, references[r.reference_sequence_id as int].name@) {
            None => Ok(ContextView { no_feature: ((ctx.no_feature + 1) as u64), ..ctx }),
            Some(entries) => Ok(
                spec_account(
                    ctx,
                    spec_gene_set(
                        entries,
                        spec_intervals(r.cigar, r.position + 1),
                        strand_specification,
                        spec_effective_reverse(
                            r,
                            (spec_pair_position(r) == PairPosition::Second) != spec_invert(
                                strand_specification,
                            ),
                        ),
                    ),
                ),
            ),
        }
    }
}

/// Processing one singleton raises the total by exactly one when it
/// succeeds.
pub proof fn lemma_process_singleton_total(
    filter: Filter,
    features: Seq<(Seq<char>, Seq<FeatureEntryView>)>,
    references: Seq<ReferenceSequence>,
    strand_specification: StrandSpecification,
    ctx: ContextView,
    r: RecordView,
)
    requires
        ctx.total() < u64::MAX,
        spec_process_singleton(filter, features, references, strand_specification, ctx, r) is Ok,
    ensures
        spec_process_singleton(
            filter,
            features,
            references,
            strand_specification,
            ctx,
            r,
        )->Ok_0.total() == ctx.total() + 1,
{
    lemma_counts_total_nonneg(ctx.counts);
    let verdict = filter.spec_reason(r);
    if verdict is Some {
        crate::count::filter::lemma_bump_total(ctx, verdict->0);
    } else {
        let rid = r.reference_sequence_id as int;
        match spec_find_tree(features, references[rid].name@) {
            None => {},
            Some(entries) => {
                lemma_account_exactly_one(
                    ctx,
                    spec_gene_set(
                        entries,
                        spec_intervals(r.cigar, r.position + 1),
                        strand_specification,
                        spec_effective_reverse(
                            r,
                            (spec_pair_position(r) == PairPosition::Second) != spec_invert(
                                strand_specification,
                            ),
                        ),
                    ),
                );
            },
        }
    }
}

/// What a whole singleton pass computes: the residual records folded into
/// the context in order, stopping at the first fatal error.
pub open spec fn spec_count_singletons_seq(
    filter: Filter,
    features: Seq<(Seq<char>, Seq<FeatureEntryView>)>,
    references: Seq<ReferenceSequence>,
    strand_specification: StrandSpecification,
    ctx: ContextView,
    rs: Seq<RecordView>,
) -> Result<ContextView, CountError>
    decreases rs.len(),
{
    if rs.len() == 0 {
        Ok(ctx)
    } else {
        match spec_process_singleton(
            filter,
            features,
            references,
            strand_specification,
            ctx,
            rs[0],
        ) {
            Ok(c2) => spec_count_singletons_seq(
                filter,
                features,
                references,
                strand_specification,
                c2,
                rs.drop_first(),
            ),
            Err(e) => Err(e),
        }
    }
}

proof fn lemma_count_singletons_snoc(
    filter: Filter,
    features: Seq<(Seq<char>, Seq<FeatureEntryView>)>,
    references: Seq<ReferenceSequence>,
    strand_specification: StrandSpecification,
    ctx: ContextView,
    rs: Seq<RecordView>,
    r: RecordView,
)
    ensures
        spec_count_singletons_seq(
            filter,
            features,
            references,
            strand_specification,
            ctx,
            rs.push(r),
        ) == (match spec_count_singletons_seq(
            filter,
            features,
            references,
            strand_specification,
            ctx,
            rs,
        ) {
            Ok(c) => spec_process_singleton(
                filter,
                features,
                references,
                strand_specification,
                c,
                r,
            ),
            Err(e) => Err(e),
        }),
    decreases rs.len(),
{
    reveal_with_fuel(spec_count_singletons_seq, 3);
    if rs.len() == 0 {
        assert(rs.push(r)[0] == r);
        assert(rs.push(r).drop_first() =~= Seq::<RecordView>::empty());
    } else {
        assert(rs.push(r)[0] == rs[0]);
        assert(rs.push(r).drop_first() =~= rs.drop_first().push(r));
        match spec_process_singleton(
            filter,
            features,
            references,
            strand_specification,
            ctx,
            rs[0],
        ) {
            Ok(c2) => {
                lemma_count_singletons_snoc(
                    filter,
                    features,
                    references,
                    strand_specification,
                    c2,
                    rs.drop_first(),
                    r,
                );
            },
            Err(_) => {},
        }
    }
}

proof fn lemma_count_singletons_err_prefix(
    filter: Filter,
    features: Seq<(Seq<char>, Seq<FeatureEntryView>)>,
    references: Seq<ReferenceSequence>,
    strand_specification: StrandSpecification,
    ctx: ContextView,
    rs: Seq<RecordView>,
    k: int,
    e: CountError,
)
    requires
        0 <= k <= rs.len(),
        spec_count_singletons_seq(
            filter,
            features,
            references,
            strand_specification,
            ctx,
            rs.subrange(0, k),
        ) == Err::<ContextView, CountError>(e),
    ensures
        spec_count_singletons_seq(filter, features, references, strand_specification, ctx, rs)
            == Err::<ContextView, CountError>(e),
    decreases k,
{
    if k == 0 {
        assert(rs.subrange(0, 0) =~= Seq::<RecordView>::empty());
        assert(false);
    } else {
        let pre = rs.subrange(0, k);
        if rs.len() > 0 {
            assert(pre[0] == rs[0]);
            match spec_process_singleton(
                filter,
                features,
                references,
                strand_specification,
                ctx,
                rs[0],
            ) {
                Ok(c2) => {
                    assert(pre.drop_first() =~= rs.drop_first().subrange(0, k - 1));
                    lemma_count_singletons_err_prefix(
                        filter,
                        features,
                        references,
                        strand_specification,
                        c2,
                        rs.drop_first(),
                        k - 1,
                        e,
                    );
                },
                Err(_) => {},
            }
        }
    }
}

/// Counts the residual singletons of a paired-end run.  On success the
/// context is the in-order fold of every record and its total equals the
/// number of records.
pub fn count_paired_end_record_singletons(
    records: &Vec<Record>,
    features: &Features,
    reference_sequences: &ReferenceSequences,
    filter: &Filter,
    strand_specification: StrandSpecification,
) -> (res: Result<Context, CountError>)
    requires
        forall|k: int| 0 <= k < records@.len() ==> (#[trigger] records@[k])@.wf(),
    ensures
        match res {
            Ok(c) => spec_count_singletons_seq(
                *filter,
                features@,
                reference_sequences@,
                strand_specification,
                ContextView::empty(),
                records@.map_values(|r: Record| r@),
            ) == Ok::<ContextView, CountError>(c@) && c@.total() == records@.len(),
            Err(e) => spec_count_singletons_seq(
                *filter,
                features@,
                reference_sequences@,
                strand_specification,
                ContextView::empty(),
                records@.map_values(|r: Record| r@),
            ) == Err::<ContextView, CountError>(e),
        },
{
    let ghost all = records@.map_values(|r: Record| r@);
    let mut ctx = Context::new();
    let mut i: usize = 0;
    proof {
        assert(all.subrange(0, 0) =~= Seq::<RecordView>::empty());
    }
    while i < records.len()
        invariant
            i <= records.len(),
            all == records@.map_values(|r: Record| r@),
            all.len() == records@.len(),
            forall|k: int| 0 <= k < records@.len() ==> (#[trigger] records@[k])@.wf(),
            ctx@.total() == i,
            spec_count_singletons_seq(
                *filter,
                features@,
                reference_sequences@,
                strand_specification,
                ContextView::empty(),
                all.subrange(0, i as int),
            ) == Ok::<ContextView, CountError>(ctx@),
        decreases records.len() - i,
    {
        let ghost prefix = all.subrange(0, i as int);
        let ghost ctx_before = ctx@;
        proof {
            assert(i < u64::MAX) by {
                assert(i < records@.len());
                assert(records@.len() <= usize::MAX);
            }
            lemma_count_singletons_snoc(
                *filter,
                features@,
                reference_sequences@,
                strand_specification,
                ContextView::empty(),
                prefix,
                records@[i as int]@,
            );
            assert(prefix.push(records@[i as int]@) =~= all.subrange(0, i as int + 1));
        }
        let record = &records[i];
        if !filter.filter(&mut ctx, record) {
            let pair_position = match PairPosition::from_flags(record.flags) {
                Some(p) => p,
                None => {
                    proof {
                        lemma_count_singletons_err_prefix(
                            *filter,
                            features@,
                            reference_sequences@,
                            strand_specification,
                            ContextView::empty(),
                            all,
                            i as int + 1,
                            CountError::InvalidPairPosition,
                        );
                    }
                    return Err(CountError::InvalidPairPosition);
                },
            };
            let start = alignment_start(record);
            proof {
                crate::cigar::lemma_ref_len_nonneg(record@.cigar);
            }
            let intervals = cigar_to_intervals(&record.cigar, start);
            let position_reverse = match pair_position {
                PairPosition::First => false,
                PairPosition::Second => true,
            };
            let invert = match strand_specification {
                StrandSpecification::Reverse => true,
                _ => false,
            };
            let effective_reverse = record.flags.is_reverse() != (position_reverse != invert);
            match get_tree(&mut ctx, features, reference_sequences, record.reference_sequence_id) {
                Err(e) => {
                    proof {
                        lemma_count_singletons_err_prefix(
                            *filter,
                            features@,
                            reference_sequences@,
                            strand_specification,
                            ContextView::empty(),
                            all,
                            i as int + 1,
                            e,
                        );
                    }
                    return Err(e);
                },
                Ok(None) => {},
                Ok(Some(tree)) => {
                    let names = find(tree, &intervals, strand_specification, effective_reverse);
                    update_intersections(&mut ctx, names);
                },
            }
        }
        proof {
            lemma_process_singleton_total(
                *filter,
                features@,
                reference_sequences@,
                strand_specification,
                ctx_before,
                records@[i as int]@,
            );
        }
        i = i + 1;
    }
    proof {
        assert(all.subrange(0, all.len() as int) =~= all);
    }
    Ok(ctx)
}

/// A record without a reference sequence is attributed to `unmapped` by the
/// filter's first rule, so it never reaches the feature lookup: processing
/// it only raises the `unmapped` counter.
pub proof fn lemma_missing_reference_filtered(
    filter: Filter,
    features: Seq<(Seq<char>, Seq<FeatureEntryView>)>,
    references: Seq<ReferenceSequence>,
    strand_specification: StrandSpecification,
    ctx: ContextView,
    r: RecordView,
)
    requires
        r.wf(),
        r.reference_sequence_id < 0,
    ensures
        filter.spec_reason(r) == Some(FilterReason::Unmapped),
        spec_process_single(filter, features, references, strand_specification, ctx, r)
            == Ok::<ContextView, CountError>(spec_bump(ctx, FilterReason::Unmapped)),
{
}


/// A record with its orientation flag flipped and everything else as it
/// stands.
pub open spec fn spec_flip_reverse(r: RecordView) -> RecordView {
    RecordView { flags: crate::record::Flags { bits: r.flags.bits ^ 0x10 }, ..r }
}

/// A feature index with every entry's strand exchanged.
pub open spec fn spec_swap_features(
    features: Seq<(Seq<char>, Seq<FeatureEntryView>)>,
) -> Seq<(Seq<char>, Seq<FeatureEntryView>)> {
    features.map_values(|p: (Seq<char>, Seq<FeatureEntryView>)| (p.0, spec_swap_entries(p.1)))
}

proof fn lemma_flip_reverse_flags(b: u16)
    ensures
        (b ^ 0x10) & 0x4 == b & 0x4,
        ((b ^ 0x10) & 0x10 == 0) == (b & 0x10 != 0),
        (b ^ 0x10) & 0x40 == b & 0x40,
        (b ^ 0x10) & 0x80 == b & 0x80,
        (b ^ 0x10) & 0x100 == b & 0x100,
        (b ^ 0x10) & 0x400 == b & 0x400,
        (b ^ 0x10) & 0x800 == b & 0x800,
{
    assert((b ^ 0x10) & 0x4 == b & 0x4) by (bit_vector);
    assert(((b ^ 0x10) & 0x10 == 0) == (b & 0x10 != 0)) by (bit_vector);
    assert((b ^ 0x10) & 0x40 == b & 0x40) by (bit_vector);
    assert((b ^ 0x10) & 0x80 == b & 0x80) by (bit_vector);
    assert((b ^ 0x10) & 0x100 == b & 0x100) by (bit_vector);
    assert((b ^ 0x10) & 0x400 == b & 0x400) by (bit_vector);
    assert((b ^ 0x10) & 0x800 == b & 0x800) by (bit_vector);
}

proof fn lemma_find_tree_swap(features: Seq<(Seq<char>, Seq<FeatureEntryView>)>, name: Seq<char>)
    ensures
        spec_find_tree(spec_swap_features(features), name) == (match spec_find_tree(
            features,
            name,
        ) {
            Some(t) => Some(spec_swap_entries(t)),
            None => None,
        }),
    decreases features.len(),
{
    let swapped = spec_swap_features(features);
    if features.len() == 0 {
    } else {
        assert(swapped[0] == (features[0].0, spec_swap_entries(features[0].1)));
        assert(swapped.drop_first() =~= spec_swap_features(features.drop_first()));
        lemma_find_tree_swap(features.drop_first(), name);
    }
}

/// Strand-rule symmetry for one record: exchanging every feature's strand
/// and flipping the record's orientation flag, under the same strand
/// specification, processes to the identical context.
pub proof fn lemma_process_single_symmetry(
    filter: Filter,
    features: Seq<(Seq<char>, Seq<FeatureEntryView>)>,
    references: Seq<ReferenceSequence>,
    strand_specification: StrandSpecification,
    ctx: ContextView,
    r: RecordView,
)
    ensures
        spec_process_single(
            filter,
            spec_swap_features(features),
            references,
            strand_specification,
            ctx,
            spec_flip_reverse(r),
        ) == spec_process_single(filter, features, references, strand_specification, ctx, r),
{
    let fr = spec_flip_reverse(r);
    lemma_flip_reverse_flags(r.flags.bits);
    assert(filter.spec_reason(fr) == filter.spec_reason(r));
    if filter.spec_reason(r) is None && 0 <= r.reference_sequence_id && (
    r.reference_sequence_id as int) < references.len() {
        let name = references[r.reference_sequence_id as int].name@;
        lemma_find_tree_swap(features, name);
        match spec_find_tree(features, name) {
            None => {},
            Some(entries) => {
                let ivs = spec_intervals(r.cigar, r.position + 1);
                let eff = spec_effective_reverse(r, spec_invert(strand_specification));
                assert(spec_effective_reverse(fr, spec_invert(strand_specification)) == !eff);
                lemma_gene_set_symmetry(entries, ivs, strand_specification, eff);
            },
        }
    }
}

/// Strand-rule symmetry for a whole single-end run: exchanging every
/// feature's strand and flipping every record's orientation flag, under the
/// same strand specification, yields the identical result — the same gene
/// counts and the same bookkeeping totals.
pub proof fn lemma_count_single_symmetry(
    filter: Filter,
    features: Seq<(Seq<char>, Seq<FeatureEntryView>)>,
    references: Seq<ReferenceSequence>,
    strand_specification: StrandSpecification,
    ctx: ContextView,
    rs: Seq<RecordView>,
)
    ensures
        spec_count_single_seq(
            filter,
            spec_swap_features(features),
            references,
            strand_specification,
            ctx,
            rs.map_values(|r: RecordView| spec_flip_reverse(r)),
        ) == spec_count_single_seq(filter, features, references, strand_specification, ctx, rs),
    decreases rs.len(),
{
    let flipped = rs.map_values(|r: RecordView| spec_flip_reverse(r));
    if rs.len() == 0 {
        assert(flipped.len() == 0);
    } else {
        assert(flipped[0] == spec_flip_reverse(rs[0]));
        assert(flipped.drop_first() =~= rs.drop_first().map_values(
            |r: RecordView| spec_flip_reverse(r),
        ));
        lemma_process_single_symmetry(
            filter,
            features,
            references,
            strand_specification,
            ctx,
            rs[0],
        );
        match spec_process_single(filter, features, references, strand_specification, ctx, rs[0]) {
            Ok(c2) => {
                lemma_count_single_symmetry(
                    filter,
                    features,
                    references,
                    strand_specification,
                    c2,
                    rs.drop_first(),
                );
            },
            Err(_) => {},
        }
    }
}

} // verus!
