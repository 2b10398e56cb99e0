//! Per-record and per-pair filtering, with the counter each drop feeds.

use vstd::prelude::*;
use crate::count::context::{Context, ContextView, lemma_counts_total_nonneg};
use crate::record::{Record, RecordView};

verus! {

/// Why a record was dropped before counting.
#[derive(Clone, Copy, Debug, PartialEq, Eq, Structural)]
pub enum FilterReason {
    Unmapped,
    Secondary,
    Supplementary,
    LowQuality,
    Duplicate,
    Nonunique,
}

/// A context with the counter belonging to `reason` raised by one.
pub open spec fn spec_bump(ctx: ContextView, reason: FilterReason) -> ContextView {
    match reason {
        FilterReason::Unmapped => ContextView { unmapped: ((ctx.unmapped + 1) as u64), ..ctx },
        FilterReason::Secondary => ContextView { secondary: ((ctx.secondary + 1) as u64), ..ctx },
        FilterReason::Supplementary => ContextView {
            supplementary: ((ctx.supplementary + 1) as u64),
            ..ctx
        },
        FilterReason::LowQuality => ContextView {
            low_quality: ((ctx.low_quality + 1) as u64),
            ..ctx
        },
        FilterReason::Duplicate => ContextView { duplicate: ((ctx.duplicate + 1) as u64), ..ctx },
        FilterReason::Nonunique => ContextView { nonunique: ((ctx.nonunique + 1) as u64), ..ctx },
    }
}

/// The context a filter verdict leaves behind: on a drop the matching
/// counter is raised; a kept record changes nothing.
pub open spec fn spec_apply_filter(ctx: ContextView, verdict: Option<FilterReason>) -> ContextView {
    match verdict {
        Some(reason) => spec_bump(ctx, reason),
        None => ctx,
    }
}

/// A bump raises the total by exactly one.
pub proof fn lemma_bump_total(ctx: ContextView, reason: FilterReason)
    requires
        ctx.total() < u64::MAX,
    ensures
        spec_bump(ctx, reason).total() == ctx.total() + 1,
{
    lemma_counts_total_nonneg(ctx.counts);
}

/// The configured filter.
pub struct Filter {
    pub min_mapping_quality: u8,
    pub with_secondary_records: bool,
    pub with_supplementary_records: bool,
    pub with_nonunique_records: bool,
}

impl Filter {
    pub fn new(
        min_mapping_quality: u8,
        with_secondary_records: bool,
        with_supplementary_records: bool,
        with_nonunique_records: bool,
    ) -> (f: Filter)
        ensures
            f == (Filter {
                min_mapping_quality,
                with_secondary_records,
                with_supplementary_records,
                with_nonunique_records,
            }),
    {
        Filter { min_mapping_quality, with_secondary_records, with_supplementary_records, with_nonunique_records }
    }

    /// The first matching drop rule for one record, if any: unmapped,
    /// disallowed secondary, disallowed supplementary, low mapping quality,
    /// duplicate, disallowed multi-mapper — in that order.
    pub open spec fn spec_reason(self, r: RecordView) -> Option<FilterReason> {
        if r.flags.spec_is_unmapped() {
            Some(FilterReason::Unmapped)
        } else if !self.with_secondary_records && r.flags.spec_is_secondary() {
            Some(FilterReason::Secondary)
        } else if !self.with_supplementary_records && r.flags.spec_is_supplementary() {
            Some(FilterReason::Supplementary)
        } else if r.mapping_quality < self.min_mapping_quality {
            Some(FilterReason::LowQuality)
        } else if r.flags.spec_is_duplicate() {
            Some(FilterReason::Duplicate)
        } else if !self.with_nonunique_records && (match r.alignment_hits {
            Some(h) => h > 1,
            None => false,
        }) {
            Some(FilterReason::Nonunique)
        } else {
            None
        }
    }

    /// The verdict for a pair: the first mate's drop rule, else the second's.
    pub open spec fn spec_pair_reason(self, r1: RecordView, r2: RecordView) -> Option<
        FilterReason,
    > {
        match self.spec_reason(r1) {
            Some(reason) => Some(reason),
            None => self.spec_reason(r2),
        }
    }

    /// Decides the drop rule for one record without touching any counter.
    pub fn reason(&self, record: &Record) -> (res: Option<FilterReason>)
        ensures
            res == self.spec_reason(record@),
    {
        if record.flags.is_unmapped() {
            Some(FilterReason::Unmapped)
        } else if !self.with_secondary_records && record.flags.is_secondary() {
            Some(FilterReason::Secondary)
        } else if !self.with_supplementary_records && record.flags.is_supplementary() {
            Some(FilterReason::Supplementary)
        } else if record.mapping_quality < self.min_mapping_quality {
            Some(FilterReason::LowQuality)
        } else if record.flags.is_duplicate() {
            Some(FilterReason::Duplicate)
        } else if !self.with_nonunique_records && (match record.alignment_hits {
            Some(h) => h > 1,
            None => false,
        }) {
            Some(FilterReason::Nonunique)
        } else {
            None
        }
    }

    /// Applies the single-record filter: on a drop, raises the counter the
    /// rule feeds and reports `true`.
    pub fn filter(&self, ctx: &mut Context, record: &Record) -> (dropped: bool)
        requires
            old(ctx)@.total() < u64::MAX,
        ensures
            dropped == (self.spec_reason(record@) is Some),
            final(ctx)@ == spec_apply_filter(old(ctx)@, self.spec_reason(record@)),
    {
        let verdict = self.reason(record);
        apply_verdict(ctx, verdict)
    }

    /// Applies the filter to a pair: if either mate is dropped, the rule of
    /// the first dropping mate feeds its counter exactly once.
    pub fn filter_pair(&self, ctx: &mut Context, r1: &Record, r2: &Record) -> (dropped: bool)
        requires
            old(ctx)@.total() < u64::MAX,
        ensures
            dropped == (self.spec_pair_reason(r1@, r2@) is Some),
            final(ctx)@ == spec_apply_filter(old(ctx)@, self.spec_pair_reason(r1@, r2@)),
    {
        let verdict = match self.reason(r1) {
            Some(reason) => Some(reason),
            None => self.reason(r2),
        };
        apply_verdict(ctx, verdict)
    }
}

/// Feeds a drop verdict into the context's counters.
fn apply_verdict(ctx: &mut Context, verdict: Option<FilterReason>) -> (dropped: bool)
    requires
        old(ctx)@.total() < u64::MAX,
    ensures
        dropped == (verdict is Some),
        final(ctx)@ == spec_apply_filter(old(ctx)@, verdict),
{
    proof {
        lemma_counts_total_nonneg(ctx@.counts);
    }
    match verdict {
        None => false,
        Some(reason) => {
            match reason {
                FilterReason::Unmapped => {
                    ctx.unmapped = ctx.unmapped + 1;
                }
                FilterReason::Secondary => {
                    ctx.secondary = ctx.secondary + 1;
                }
                FilterReason::Supplementary => {
                    ctx.supplementary = ctx.supplementary + 1;
                }
                FilterReason::LowQuality => {
                    ctx.low_quality = ctx.low_quality + 1;
                }
                FilterReason::Duplicate => {
                    ctx.duplicate = ctx.duplicate + 1;
                }
                FilterReason::Nonunique => {
                    ctx.nonunique = ctx.nonunique + 1;
                }
            }
            true
        }
    }
}

} // verus!
