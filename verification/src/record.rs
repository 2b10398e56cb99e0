//! A plain model of an aligned record: the fields of an alignment that the
//! counting engine reads, already decoded from the binary container.

use vstd::prelude::*;
use crate::cigar::CigarOp;

verus! {

/// The flag bitfield of an alignment record, with the standard bit layout.
#[derive(Clone, Copy, Debug, PartialEq, Eq, Structural)]
pub struct Flags {
    pub bits: u16,
}

impl Flags {
    pub open spec fn spec_is_unmapped(self) -> bool {
        self.bits & 0x4 != 0
    }

    pub open spec fn spec_is_reverse(self) -> bool {
        self.bits & 0x10 != 0
    }

    pub open spec fn spec_is_read_1(self) -> bool {
        self.bits & 0x40 != 0
    }

    pub open spec fn spec_is_read_2(self) -> bool {
        self.bits & 0x80 != 0
    }

    pub open spec fn spec_is_secondary(self) -> bool {
        self.bits & 0x100 != 0
    }

    pub open spec fn spec_is_duplicate(self) -> bool {
        self.bits & 0x400 != 0
    }

    pub open spec fn spec_is_supplementary(self) -> bool {
        self.bits & 0x800 != 0
    }

    pub fn new(bits: u16) -> (f: Flags)
        ensures
            f.bits == bits,
    {
        Flags { bits }
    }

    pub fn is_unmapped(&self) -> (b: bool)
        ensures
            b == self.spec_is_unmapped(),
    {
        self.bits & 0x4 != 0
    }

    pub fn is_reverse(&self) -> (b: bool)
        ensures
            b == self.spec_is_reverse(),
    {
        self.bits & 0x10 != 0
    }

    pub fn is_read_1(&self) -> (b: bool)
        ensures
            b == self.spec_is_read_1(),
    {
        self.bits & 0x40 != 0
    }

    pub fn is_read_2(&self) -> (b: bool)
        ensures
            b == self.spec_is_read_2(),
    {
        self.bits & 0x80 != 0
    }

    pub fn is_secondary(&self) -> (b: bool)
        ensures
            b == self.spec_is_secondary(),
    {
        self.bits & 0x100 != 0
    }

    pub fn is_duplicate(&self) -> (b: bool)
        ensures
            b == self.spec_is_duplicate(),
    {
        self.bits & 0x400 != 0
    }

    pub fn is_supplementary(&self) -> (b: bool)
        ensures
            b == self.spec_is_supplementary(),
    {
        self.bits & 0x800 != 0
    }
}

/// An aligned record as the counting engine sees it.
///
/// Positions are 0-based; a reference sequence id or position of `-1` means
/// "none" (unmapped / no mate).  `alignment_hits` carries the value of the
/// `NH` auxiliary tag when the aligner wrote one.
pub struct Record {
    pub read_name: Vec<u8>,
    pub flags: Flags,
    pub reference_sequence_id: i32,
    pub position: i32,
    pub mate_reference_sequence_id: i32,
    pub mate_position: i32,
    pub template_length: i32,
    pub mapping_quality: u8,
    pub cigar: Vec<CigarOp>,
    pub alignment_hits: Option<u32>,
}

/// The mathematical value of a record.
pub struct RecordView {
    pub read_name: Seq<u8>,
    pub flags: Flags,
    pub reference_sequence_id: i32,
    pub position: i32,
    pub mate_reference_sequence_id: i32,
    pub mate_position: i32,
    pub template_length: i32,
    pub mapping_quality: u8,
    pub cigar: Seq<CigarOp>,
    pub alignment_hits: Option<u32>,
}

impl View for Record {
    type V = RecordView;

    open spec fn view(&self) -> RecordView {
        RecordView {
            read_name: self.read_name@,
            flags: self.flags,
            reference_sequence_id: self.reference_sequence_id,
            position: self.position,
            mate_reference_sequence_id: self.mate_reference_sequence_id,
            mate_position: self.mate_position,
            template_length: self.template_length,
            mapping_quality: self.mapping_quality,
            cigar: self.cigar@,
            alignment_hits: self.alignment_hits,
        }
    }
}

impl RecordView {
    /// A record the engine accepts: its numeric fields fit the machine
    /// arithmetic the engine performs, and a missing reference sequence only
    /// comes with the unmapped flag set, as the container format guarantees.
    pub open spec fn wf(self) -> bool {
        &&& self.position >= -1
        &&& self.template_length > i32::MIN
        &&& self.reference_sequence_id < 0 ==> self.flags.spec_is_unmapped()
        &&& self.position + 1 + crate::cigar::spec_ref_len(self.cigar) <= u64::MAX
    }
}

impl Record {
    /// Copies a record field by field.
    pub fn duplicate(&self) -> (r: Record)
        ensures
            r@ == self@,
    {
        let r = Record {
            read_name: clone_bytes(&self.read_name),
            flags: self.flags,
            reference_sequence_id: self.reference_sequence_id,
            position: self.position,
            mate_reference_sequence_id: self.mate_reference_sequence_id,
            mate_position: self.mate_position,
            template_length: self.template_length,
            mapping_quality: self.mapping_quality,
            cigar: clone_ops(&self.cigar),
            alignment_hits: self.alignment_hits,
        };
        r
    }
}

/// Copies a byte vector element by element.
pub(crate) fn clone_bytes(v: &Vec<u8>) -> (r: Vec<u8>)
    ensures
        r@ == v@,
{
    let mut r: Vec<u8> = Vec::new();
    let mut i: usize = 0;
    while i < v.len()
        invariant
            i <= v.len(),
            r@ == v@.subrange(0, i as int),
        decreases v.len() - i,
    {
        r.push(v[i]);
        i = i + 1;
        proof {
            assert(r@ =~= v@.subrange(0, i as int));
        }
    }
    proof {
        assert(r@ =~= v@);
    }
    r
}

/// Copies a CIGAR operation vector element by element.
fn clone_ops(v: &Vec<CigarOp>) -> (r: Vec<CigarOp>)
    ensures
        r@ == v@,
{
    let mut r: Vec<CigarOp> = Vec::new();
    let mut i: usize = 0;
    while i < v.len()
        invariant
            i <= v.len(),
            r@ == v@.subrange(0, i as int),
        decreases v.len() - i,
    {
        r.push(v[i]);
        i = i + 1;
        proof {
            assert(r@ =~= v@.subrange(0, i as int));
        }
    }
    proof {
        assert(r@ =~= v@);
    }
    r
}

/// One reference sequence of the alignment header: its name and length.
pub struct ReferenceSequence {
    pub name: String,
    pub len: u64,
}

impl ReferenceSequence {
    pub open spec fn spec_name(self) -> Seq<char> {
        self.name@
    }

    pub open spec fn spec_len(self) -> u64 {
        self.len
    }

    pub fn new(name: String, len: u64) -> (r: ReferenceSequence)
        ensures
            r.spec_name() == name@,
            r.spec_len() == len,
    {
        ReferenceSequence { name, len }
    }

    pub fn name(&self) -> (r: &str)
        ensures
            r@ == self.spec_name(),
    {
        self.name.as_str()
    }

    pub fn len(&self) -> (r: u64)
        ensures
            r == self.spec_len(),
    {
        self.len
    }
}

/// The reference table of the alignment header: reference sequences in the
/// order their numeric ids index them.
pub type ReferenceSequences = Vec<ReferenceSequence>;

} // verus!
