use squab::cigar::{CigarOp, Kind};
use squab::count::{count_paired_end_records, Filter};
use squab::features::{FeatureEntry, FeatureTree, Features};
use squab::record::{Flags, Record, ReferenceSequence, ReferenceSequences};
use squab::record_pairs::{PairPosition, RecordPairs};
use squab::strand::{Strand, StrandSpecification};

fn mate_record(
    name: &[u8],
    flags: u16,
    position: i32,
    mate_position: i32,
    template_length: i32,
) -> Record {
    Record {
        read_name: name.to_vec(),
        flags: Flags::new(flags),
        reference_sequence_id: 0,
        position,
        mate_reference_sequence_id: 0,
        mate_position,
        template_length,
        mapping_quality: 60,
        cigar: vec![CigarOp {
            kind: Kind::Match,
            len: 5,
        }],
        alignment_hits: None,
    }
}

fn gene_a_features() -> Features {
    let mut tree = FeatureTree::new();
    tree.insert(FeatureEntry {
        start: 1,
        end: 200,
        name: String::from("GENE_A"),
        strand: Strand::Forward,
    });
    let mut features = Features::new();
    features.insert(String::from("chr1"), tree);
    features
}

fn chr1_references() -> ReferenceSequences {
    vec![ReferenceSequence::new(String::from("chr1"), 1000)]
}

#[test]
fn test_mate_is_involution() {
    assert_eq!(PairPosition::First.mate(), PairPosition::Second);
    assert_eq!(PairPosition::Second.mate(), PairPosition::First);
    assert_eq!(PairPosition::First.mate().mate(), PairPosition::First);
    assert_eq!(PairPosition::Second.mate().mate(), PairPosition::Second);
}

#[test]
fn test_pair_buffer_emits_mates_in_order() {
    let r1 = mate_record(b"frag", 0x40, 9, 99, 100);
    let r2 = mate_record(b"frag", 0x80, 99, 9, -100);
    // Mate 2 arrives first: the pair must still come out as (mate 1, mate 2).
    let mut pairs = RecordPairs::new(vec![r2, r1], false);
    let (a, b) = pairs.next_pair().unwrap().unwrap();
    assert_eq!(a.read_name, b"frag".to_vec());
    assert_eq!(b.read_name, b"frag".to_vec());
    assert!(a.flags.is_read_1());
    assert!(b.flags.is_read_2());
    assert!(pairs.next_pair().is_none());
}

#[test]
fn test_paired_end_counting() {
    let r1 = mate_record(b"frag", 0x40, 9, 99, 100);
    let r2 = mate_record(b"frag", 0x80, 99, 9, -100);
    let features = gene_a_features();
    let references = chr1_references();
    let filter = Filter::new(0, true, true, true);
    let (ctx, mut pairs) = count_paired_end_records(
        vec![r1, r2],
        &features,
        &references,
        &filter,
        StrandSpecification::Unstranded,
    )
    .unwrap();
    assert_eq!(ctx.counts.get(&String::from("GENE_A")), 1);
    assert_eq!(ctx.no_feature, 0);
    assert_eq!(ctx.ambiguous, 0);
    let mut singletons = pairs.singletons();
    assert!(singletons.next().is_none());
}

#[test]
fn test_unpaired_record_stays_as_singleton() {
    let r1 = mate_record(b"frag", 0x40, 9, 99, 100);
    let features = gene_a_features();
    let references = chr1_references();
    let filter = Filter::new(0, true, true, true);
    let (ctx, mut pairs) = count_paired_end_records(
        vec![r1],
        &features,
        &references,
        &filter,
        StrandSpecification::Unstranded,
    )
    .unwrap();
    assert_eq!(ctx.counts.get(&String::from("GENE_A")), 0);
    let mut singletons = pairs.singletons();
    let leftover = singletons.next().unwrap();
    assert_eq!(leftover.read_name, b"frag".to_vec());
    assert!(singletons.next().is_none());
}

#[test]
fn test_unclassifiable_record_fails_pairing() {
    let r = mate_record(b"frag", 0, 9, 99, 100);
    let mut pairs = RecordPairs::new(vec![r], false);
    let res = pairs.next_pair().unwrap();
    assert!(res.is_err());
}

#[test]
fn test_primary_only_skips_secondary_records() {
    let secondary = mate_record(b"frag", 0x40 | 0x100, 9, 99, 100);
    let mut pairs = RecordPairs::new(vec![secondary], true);
    assert!(pairs.next_pair().is_none());
    let mut singletons = pairs.singletons();
    assert!(singletons.next().is_none());
}

#[test]
fn test_pairing_is_order_insensitive() {
    let features = gene_a_features();
    let references = chr1_references();
    let filter = Filter::new(0, true, true, true);

    let r1 = mate_record(b"frag", 0x40, 9, 99, 100);
    let r2 = mate_record(b"frag", 0x80, 99, 9, -100);
    let (ctx_fwd, _) = count_paired_end_records(
        vec![r1.duplicate(), r2.duplicate()],
        &features,
        &references,
        &filter,
        StrandSpecification::Unstranded,
    )
    .unwrap();
    let (ctx_rev, _) = count_paired_end_records(
        vec![r2, r1],
        &features,
        &references,
        &filter,
        StrandSpecification::Unstranded,
    )
    .unwrap();
    assert_eq!(ctx_fwd.counts.get(&String::from("GENE_A")), 1);
    assert_eq!(ctx_rev.counts.get(&String::from("GENE_A")), 1);
    assert_eq!(ctx_fwd.no_feature, ctx_rev.no_feature);
    assert_eq!(ctx_fwd.ambiguous, ctx_rev.ambiguous);
}

#[test]
fn test_duplicate_key_overwrites_last_wins() {
    let features = gene_a_features();
    let references = chr1_references();
    let filter = Filter::new(0, true, true, true);

    // Two copies of mate 1 share one buffer key: the second overwrites the
    // first, and the mate completes exactly one pair with the survivor.
    let first = mate_record(b"frag", 0x40, 9, 99, 100);
    let second = mate_record(b"frag", 0x40, 9, 99, 100);
    let mate = mate_record(b"frag", 0x80, 99, 9, -100);
    let (ctx, pairs) = count_paired_end_records(
        vec![first, second, mate],
        &features,
        &references,
        &filter,
        StrandSpecification::Unstranded,
    )
    .unwrap();
    assert_eq!(ctx.counts.get(&String::from("GENE_A")), 1);
    let mut singletons = pairs.singletons();
    assert!(singletons.next().is_none());
}
