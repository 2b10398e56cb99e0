use squab::cigar::{cigar_to_intervals, CigarOp, Kind};
use squab::count::{
    count_paired_end_record_singletons, count_single_end_record, count_single_end_records,
    get_reference, Context, CountError, Filter,
};
use squab::features::{FeatureEntry, FeatureTree, Features};
use squab::record::{Flags, Record, ReferenceSequence, ReferenceSequences};
use squab::strand::{Strand, StrandSpecification};

fn make_record(flags: u16, reference_sequence_id: i32, position: i32, cigar: Vec<CigarOp>) -> Record {
    Record {
        read_name: b"read1".to_vec(),
        flags: Flags::new(flags),
        reference_sequence_id,
        position,
        mate_reference_sequence_id: -1,
        mate_position: -1,
        template_length: 0,
        mapping_quality: 60,
        cigar,
        alignment_hits: None,
    }
}

fn match_op(len: u32) -> CigarOp {
    CigarOp {
        kind: Kind::Match,
        len,
    }
}

fn build_features(entries: Vec<(u64, u64, &str, Strand)>) -> Features {
    let mut tree = FeatureTree::new();
    for (start, end, name, strand) in entries {
        tree.insert(FeatureEntry {
            start,
            end,
            name: String::from(name),
            strand,
        });
    }
    let mut features = Features::new();
    features.insert(String::from("chr1"), tree);
    features
}

fn chr1_references() -> ReferenceSequences {
    vec![ReferenceSequence::new(String::from("chr1"), 1000)]
}

fn permissive_filter() -> Filter {
    Filter::new(0, true, true, true)
}

fn assert_only_counter(ctx: &Context, no_feature: u64, ambiguous: u64) {
    assert_eq!(ctx.no_feature, no_feature);
    assert_eq!(ctx.ambiguous, ambiguous);
    assert_eq!(ctx.low_quality, 0);
    assert_eq!(ctx.unmapped, 0);
    assert_eq!(ctx.nonunique, 0);
    assert_eq!(ctx.duplicate, 0);
    assert_eq!(ctx.secondary, 0);
    assert_eq!(ctx.supplementary, 0);
}

#[test]
fn test_get_reference() {
    let reference_sequences: ReferenceSequences = vec![
        ReferenceSequence::new(String::from("chr1"), 7),
        ReferenceSequence::new(String::from("chr2"), 12),
        ReferenceSequence::new(String::from("chr3"), 148),
    ];

    let reference = get_reference(&reference_sequences, 1).unwrap();
    assert_eq!(reference.name(), "chr2");
    assert_eq!(reference.len(), 12);

    let reference = get_reference(&reference_sequences, -2);
    assert!(reference.is_err());

    let reference = get_reference(&reference_sequences, 5);
    assert!(reference.is_err());
}

#[test]
fn test_cigar_projection_single_run() {
    let intervals = cigar_to_intervals(&vec![match_op(5)], 10);
    assert_eq!(intervals, vec![(10, 15)]);
}

#[test]
fn test_cigar_projection_split_read() {
    let cigar = vec![
        match_op(3),
        CigarOp {
            kind: Kind::Skip,
            len: 2,
        },
        match_op(3),
    ];
    let intervals = cigar_to_intervals(&cigar, 10);
    assert_eq!(intervals, vec![(10, 13), (15, 18)]);
}

#[test]
fn test_cigar_projection_all_soft_clips() {
    let cigar = vec![
        CigarOp {
            kind: Kind::SoftClip,
            len: 4,
        },
        CigarOp {
            kind: Kind::SoftClip,
            len: 2,
        },
    ];
    let intervals = cigar_to_intervals(&cigar, 10);
    assert!(intervals.is_empty());
}

#[test]
fn test_empty_input_yields_empty_context() {
    let features = build_features(vec![(10, 20, "GENE_A", Strand::Forward)]);
    let references = chr1_references();
    let filter = permissive_filter();
    let ctx = count_single_end_records(
        &Vec::new(),
        &features,
        &references,
        &filter,
        StrandSpecification::Unstranded,
    )
    .unwrap();
    assert_only_counter(&ctx, 0, 0);
    assert_eq!(ctx.counts.get(&String::from("GENE_A")), 0);
}

#[test]
fn test_single_end_one_gene_hit() {
    let features = build_features(vec![(10, 20, "GENE_A", Strand::Forward)]);
    let references = chr1_references();
    let filter = permissive_filter();
    let records = vec![make_record(0, 0, 9, vec![match_op(5)])];
    let ctx = count_single_end_records(
        &records,
        &features,
        &references,
        &filter,
        StrandSpecification::Unstranded,
    )
    .unwrap();
    assert_eq!(ctx.counts.get(&String::from("GENE_A")), 1);
    assert_only_counter(&ctx, 0, 0);
}

#[test]
fn test_single_end_strand_mismatch() {
    let features = build_features(vec![(10, 20, "GENE_A", Strand::Forward)]);
    let references = chr1_references();
    let filter = permissive_filter();
    let records = vec![make_record(0x10, 0, 9, vec![match_op(5)])];
    let ctx = count_single_end_records(
        &records,
        &features,
        &references,
        &filter,
        StrandSpecification::Forward,
    )
    .unwrap();
    assert_eq!(ctx.counts.get(&String::from("GENE_A")), 0);
    assert_only_counter(&ctx, 1, 0);
}

#[test]
fn test_single_end_ambiguous() {
    let features = build_features(vec![
        (10, 20, "A", Strand::Forward),
        (10, 20, "B", Strand::Forward),
    ]);
    let references = chr1_references();
    let filter = permissive_filter();
    let records = vec![make_record(0, 0, 9, vec![match_op(5)])];
    let ctx = count_single_end_records(
        &records,
        &features,
        &references,
        &filter,
        StrandSpecification::Unstranded,
    )
    .unwrap();
    assert_eq!(ctx.counts.get(&String::from("A")), 0);
    assert_eq!(ctx.counts.get(&String::from("B")), 0);
    assert_only_counter(&ctx, 0, 1);
}

#[test]
fn test_all_soft_clips_counts_no_feature() {
    let features = build_features(vec![(10, 20, "GENE_A", Strand::Forward)]);
    let references = chr1_references();
    let filter = permissive_filter();
    let records = vec![make_record(
        0,
        0,
        9,
        vec![CigarOp {
            kind: Kind::SoftClip,
            len: 5,
        }],
    )];
    let ctx = count_single_end_records(
        &records,
        &features,
        &references,
        &filter,
        StrandSpecification::Unstranded,
    )
    .unwrap();
    assert_eq!(ctx.counts.get(&String::from("GENE_A")), 0);
    assert_only_counter(&ctx, 1, 0);
}

#[test]
fn test_low_quality_filter() {
    let features = build_features(vec![(10, 20, "GENE_A", Strand::Forward)]);
    let references = chr1_references();
    let filter = Filter::new(10, true, true, true);
    let mut record = make_record(0, 0, 9, vec![match_op(5)]);
    record.mapping_quality = 5;
    let ctx = count_single_end_records(
        &vec![record],
        &features,
        &references,
        &filter,
        StrandSpecification::Unstranded,
    )
    .unwrap();
    assert_eq!(ctx.low_quality, 1);
    assert_eq!(ctx.no_feature, 0);
    assert_eq!(ctx.ambiguous, 0);
    assert_eq!(ctx.counts.get(&String::from("GENE_A")), 0);
}

#[test]
fn test_unmapped_never_reaches_lookup() {
    let features = build_features(vec![(10, 20, "GENE_A", Strand::Forward)]);
    let references = chr1_references();
    let filter = permissive_filter();
    // An unmapped record carries no reference sequence: it must land in the
    // unmapped counter, not in an invalid-reference error.
    let records = vec![make_record(0x4, -1, -1, Vec::new())];
    let ctx = count_single_end_records(
        &records,
        &features,
        &references,
        &filter,
        StrandSpecification::Unstranded,
    )
    .unwrap();
    assert_eq!(ctx.unmapped, 1);
    assert_eq!(ctx.no_feature, 0);
}

#[test]
fn test_secondary_supplementary_duplicate_nonunique_filters() {
    let features = build_features(vec![(10, 20, "GENE_A", Strand::Forward)]);
    let references = chr1_references();
    let filter = Filter::new(0, false, false, false);

    let secondary = make_record(0x100, 0, 9, vec![match_op(5)]);
    let supplementary = make_record(0x800, 0, 9, vec![match_op(5)]);
    let duplicate = make_record(0x400, 0, 9, vec![match_op(5)]);
    let mut nonunique = make_record(0, 0, 9, vec![match_op(5)]);
    nonunique.alignment_hits = Some(5);

    let ctx = count_single_end_records(
        &vec![secondary, supplementary, duplicate, nonunique],
        &features,
        &references,
        &filter,
        StrandSpecification::Unstranded,
    )
    .unwrap();
    assert_eq!(ctx.secondary, 1);
    assert_eq!(ctx.supplementary, 1);
    assert_eq!(ctx.duplicate, 1);
    assert_eq!(ctx.nonunique, 1);
    assert_eq!(ctx.counts.get(&String::from("GENE_A")), 0);
}

#[test]
fn test_invalid_reference_sequence_id_is_fatal() {
    let features = build_features(vec![(10, 20, "GENE_A", Strand::Forward)]);
    let references = chr1_references();
    let filter = permissive_filter();
    let mut ctx = Context::new();
    let record = make_record(0, 5, 9, vec![match_op(5)]);
    let res = count_single_end_record(
        &mut ctx,
        &features,
        &references,
        &filter,
        StrandSpecification::Unstranded,
        &record,
    );
    assert_eq!(res, Err(CountError::InvalidReferenceSequenceId(5)));
}

#[test]
fn test_missing_tree_counts_no_feature() {
    let features = build_features(vec![(10, 20, "GENE_A", Strand::Forward)]);
    let references = vec![
        ReferenceSequence::new(String::from("chr1"), 1000),
        ReferenceSequence::new(String::from("chr9"), 1000),
    ];
    let filter = permissive_filter();
    let records = vec![make_record(0, 1, 9, vec![match_op(5)])];
    let ctx = count_single_end_records(
        &records,
        &features,
        &references,
        &filter,
        StrandSpecification::Unstranded,
    )
    .unwrap();
    assert_eq!(ctx.no_feature, 1);
}

#[test]
fn test_singleton_unclassifiable_is_fatal() {
    let features = build_features(vec![(10, 20, "GENE_A", Strand::Forward)]);
    let references = chr1_references();
    let filter = permissive_filter();
    let records = vec![make_record(0, 0, 9, vec![match_op(5)])];
    let res = count_paired_end_record_singletons(
        &records,
        &features,
        &references,
        &filter,
        StrandSpecification::Unstranded,
    );
    assert_eq!(res.err(), Some(CountError::InvalidPairPosition));
}

#[test]
fn test_singleton_mate_one_counts() {
    let features = build_features(vec![(10, 20, "GENE_A", Strand::Forward)]);
    let references = chr1_references();
    let filter = permissive_filter();
    let records = vec![make_record(0x40, 0, 9, vec![match_op(5)])];
    let ctx = count_paired_end_record_singletons(
        &records,
        &features,
        &references,
        &filter,
        StrandSpecification::Unstranded,
    )
    .unwrap();
    assert_eq!(ctx.counts.get(&String::from("GENE_A")), 1);
    assert_only_counter(&ctx, 0, 0);
}

#[test]
fn test_strand_reverse_specification_matches_reverse_read() {
    // Under a reverse protocol a forward-flagged read is compared as
    // effectively reverse, so a reverse-stranded gene matches.
    let features = build_features(vec![(10, 20, "GENE_A", Strand::Reverse)]);
    let references = chr1_references();
    let filter = permissive_filter();
    let records = vec![make_record(0, 0, 9, vec![match_op(5)])];
    let ctx = count_single_end_records(
        &records,
        &features,
        &references,
        &filter,
        StrandSpecification::Reverse,
    )
    .unwrap();
    assert_eq!(ctx.counts.get(&String::from("GENE_A")), 1);
}

#[test]
fn test_every_record_lands_in_exactly_one_category() {
    let features = build_features(vec![
        (10, 20, "A", Strand::Forward),
        (10, 20, "B", Strand::Forward),
        (50, 60, "C", Strand::Forward),
    ]);
    let references = chr1_references();
    let filter = Filter::new(10, true, true, true);

    let hit = make_record(0, 0, 49, vec![match_op(5)]);
    let ambiguous = make_record(0, 0, 9, vec![match_op(5)]);
    let no_feature = make_record(0, 0, 500, vec![match_op(5)]);
    let unmapped = make_record(0x4, -1, -1, Vec::new());
    let mut low_quality = make_record(0, 0, 9, vec![match_op(5)]);
    low_quality.mapping_quality = 0;

    let ctx = count_single_end_records(
        &vec![hit, ambiguous, no_feature, unmapped, low_quality],
        &features,
        &references,
        &filter,
        StrandSpecification::Unstranded,
    )
    .unwrap();

    let counted = ctx.counts.get(&String::from("A"))
        + ctx.counts.get(&String::from("B"))
        + ctx.counts.get(&String::from("C"));
    let total = counted
        + ctx.no_feature
        + ctx.ambiguous
        + ctx.low_quality
        + ctx.unmapped
        + ctx.nonunique
        + ctx.duplicate
        + ctx.secondary
        + ctx.supplementary;
    assert_eq!(total, 5);
    assert_eq!(counted, 1);
    assert_eq!(ctx.ambiguous, 1);
    assert_eq!(ctx.no_feature, 1);
    assert_eq!(ctx.unmapped, 1);
    assert_eq!(ctx.low_quality, 1);
}

#[test]
fn test_strand_symmetry_on_swapped_input() {
    // Exchanging every feature's strand and every read's orientation leaves
    // the counts unchanged.
    let references = chr1_references();
    let filter = permissive_filter();

    let features = build_features(vec![
        (10, 20, "A", Strand::Forward),
        (50, 60, "B", Strand::Reverse),
    ]);
    let records = vec![
        make_record(0, 0, 9, vec![match_op(5)]),
        make_record(0x10, 0, 49, vec![match_op(5)]),
    ];
    let ctx = count_single_end_records(
        &records,
        &features,
        &references,
        &filter,
        StrandSpecification::Forward,
    )
    .unwrap();

    let swapped_features = build_features(vec![
        (10, 20, "A", Strand::Reverse),
        (50, 60, "B", Strand::Forward),
    ]);
    let swapped_records = vec![
        make_record(0x10, 0, 9, vec![match_op(5)]),
        make_record(0, 0, 49, vec![match_op(5)]),
    ];
    let swapped_ctx = count_single_end_records(
        &swapped_records,
        &swapped_features,
        &references,
        &filter,
        StrandSpecification::Forward,
    )
    .unwrap();

    for name in ["A", "B"] {
        assert_eq!(
            ctx.counts.get(&String::from(name)),
            swapped_ctx.counts.get(&String::from(name))
        );
    }
    assert_eq!(ctx.no_feature, swapped_ctx.no_feature);
    assert_eq!(ctx.ambiguous, swapped_ctx.ambiguous);
}

#[test]
fn test_unstranded_selects_superset_of_gene_names() {
    // A read matching one gene under a strand-specific run still reaches
    // that gene (and possibly more) when strand is ignored.
    let references = chr1_references();
    let filter = permissive_filter();
    let features = build_features(vec![(10, 20, "A", Strand::Forward)]);
    let records = vec![make_record(0, 0, 9, vec![match_op(5)])];

    let stranded = count_single_end_records(
        &records,
        &features,
        &references,
        &filter,
        StrandSpecification::Forward,
    )
    .unwrap();
    let unstranded = count_single_end_records(
        &records,
        &features,
        &references,
        &filter,
        StrandSpecification::Unstranded,
    )
    .unwrap();
    assert_eq!(stranded.counts.get(&String::from("A")), 1);
    assert_eq!(unstranded.counts.get(&String::from("A")), 1);
}
