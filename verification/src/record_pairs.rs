//! The record-pair buffer: turns a name-unordered stream of alignment
//! records into mate pairs, holding unmatched halves in a buffer keyed so
//! that a record's key equals its mate's mate-key.

pub mod pair_position;

pub use self::pair_position::PairPosition;

use vstd::prelude::*;
use crate::count::CountError;
use crate::record::{clone_bytes, Flags, Record, RecordView};

verus! {

/// The buffer key of a record: read name, pair position, this record's
/// reference id and position, the mate's reference id and position, and the
/// template length.  A negative id or position stands for "none".
pub type RecordKey = (Vec<u8>, PairPosition, Option<i32>, Option<i32>, Option<i32>, Option<
    i32,
>, i32);

/// The mathematical value of a buffer key.
pub type RecordKeyView = (Seq<u8>, PairPosition, Option<i32>, Option<i32>, Option<i32>, Option<
    i32,
>, i32);

pub open spec fn key_view(k: RecordKey) -> RecordKeyView {
    (k.0@, k.1, k.2, k.3, k.4, k.5, k.6)
}

/// A nullable field of the key: negative means "none".
pub open spec fn spec_opt_field(x: i32) -> Option<i32> {
    if x < 0 {
        None
    } else {
        Some(x)
    }
}

/// Whether a record's flags classify it as mate 1 or mate 2 at all.
pub open spec fn spec_classifiable(r: RecordView) -> bool {
    PairPosition::spec_from_flags(r.flags) is Some
}

/// The pair position of a classifiable record.
pub open spec fn spec_pair_position(r: RecordView) -> PairPosition {
    match PairPosition::spec_from_flags(r.flags) {
        Some(p) => p,
        None => PairPosition::First,
    }
}

/// The key a record is buffered under.
pub open spec fn spec_key(r: RecordView) -> RecordKeyView {
    (
        r.read_name,
        spec_pair_position(r),
        spec_opt_field(r.reference_sequence_id),
        spec_opt_field(r.position),
        spec_opt_field(r.mate_reference_sequence_id),
        spec_opt_field(r.mate_position),
        r.template_length,
    )
}

/// The key a record's mate will arrive under: pair position swapped, the
/// positional fields exchanged, and the template length negated.
pub open spec fn spec_mate_key(r: RecordView) -> RecordKeyView {
    (
        r.read_name,
        spec_pair_position(r).spec_mate(),
        spec_opt_field(r.mate_reference_sequence_id),
        spec_opt_field(r.mate_position),
        spec_opt_field(r.reference_sequence_id),
        spec_opt_field(r.position),
        ((0 - r.template_length) as i32),
    )
}

/// A record's flags with the two mate bits exchanged.
pub open spec fn spec_swap_mate_flags(f: Flags) -> Flags {
    Flags {
        bits: ((f.bits & 0xFF3F) | (if f.spec_is_read_2() {
            0x40u16
        } else {
            0u16
        }) | (if f.spec_is_read_1() {
            0x80u16
        } else {
            0u16
        })),
    }
}

/// The mate of a record, as the key symmetry sees it: mate bits exchanged,
/// positional fields exchanged, template length negated.
pub open spec fn spec_mate_of(r: RecordView) -> RecordView {
    RecordView {
        flags: spec_swap_mate_flags(r.flags),
        reference_sequence_id: r.mate_reference_sequence_id,
        position: r.mate_position,
        mate_reference_sequence_id: r.reference_sequence_id,
        mate_position: r.position,
        template_length: ((0 - r.template_length) as i32),
        ..r
    }
}

/// Key symmetry: a record's own key equals the mate-key of its mate, field
/// by field, so when the mate arrives its lookup finds the record.
pub proof fn lemma_key_mate_key(r: RecordView)
    requires
        spec_classifiable(r),
        r.template_length > i32::MIN,
    ensures
        spec_key(r) == spec_mate_key(spec_mate_of(r)),
{
    let b = r.flags.bits;
    let m = spec_mate_of(r);
    if r.flags.spec_is_read_1() && !r.flags.spec_is_read_2() {
        assert(b & 0x40 != 0 && b & 0x80 == 0 ==> (((b & 0xFF3F) | 0x80u16) & 0x40u16 == 0 && ((b
            & 0xFF3F) | 0x80u16) & 0x80u16 != 0)) by (bit_vector);
        assert(((b & 0xFF3F) | 0u16) | 0x80u16 == (b & 0xFF3F) | 0x80u16) by (bit_vector);
        assert(m.flags.bits == (b & 0xFF3F) | 0x80u16);
        assert(spec_pair_position(m) == PairPosition::Second);
    } else {
        assert(b & 0x80 != 0 && b & 0x40 == 0 ==> (((b & 0xFF3F) | 0x40u16) & 0x80u16 == 0 && ((b
            & 0xFF3F) | 0x40u16) & 0x40u16 != 0)) by (bit_vector);
        assert(((b & 0xFF3F) | 0x40u16) | 0u16 == (b & 0xFF3F) | 0x40u16) by (bit_vector);
        assert(m.flags.bits == (b & 0xFF3F) | 0x40u16);
        assert(spec_pair_position(m) == PairPosition::First);
    }
}

/// Whether a record takes part in pairing at all: primary (when only
/// primary records are paired) and classifiable as mate 1 or mate 2.
pub open spec fn spec_counts_toward(r: RecordView, primary_only: bool) -> bool {
    !(primary_only && (r.flags.spec_is_secondary() || r.flags.spec_is_supplementary()))
}

pub open spec fn spec_pairing_unit(r: RecordView, primary_only: bool) -> bool {
    spec_counts_toward(r, primary_only) && spec_classifiable(r)
}

/// How many records of a stream take part in pairing.
pub open spec fn spec_pairing_units(s: Seq<RecordView>, primary_only: bool) -> int
    decreases s.len(),
{
    if s.len() == 0 {
        0
    } else {
        (if spec_pairing_unit(s[0], primary_only) {
            1int
        } else {
            0int
        }) + spec_pairing_units(s.drop_first(), primary_only)
    }
}

proof fn lemma_units_snoc(s: Seq<RecordView>, r: RecordView, primary_only: bool)
    ensures
        spec_pairing_units(s.push(r), primary_only) == spec_pairing_units(s, primary_only) + (
        if spec_pairing_unit(r, primary_only) {
            1int
        } else {
            0int
        }),
    decreases s.len(),
{
    reveal_with_fuel(spec_pairing_units, 3);
    if s.len() == 0 {
        assert(s.push(r)[0] == r);
        assert(s.push(r).drop_first() =~= Seq::<RecordView>::empty());
    } else {
        assert(s.push(r)[0] == s[0]);
        assert(s.push(r).drop_first() =~= s.drop_first().push(r));
        lemma_units_snoc(s.drop_first(), r, primary_only);
    }
}

/// A stream holds between zero and its length of pairing units.
pub proof fn lemma_units_bounds(s: Seq<RecordView>, primary_only: bool)
    ensures
        0 <= spec_pairing_units(s, primary_only) <= s.len(),
    decreases s.len(),
{
    if s.len() > 0 {
        lemma_units_bounds(s.drop_first(), primary_only);
    }
}

proof fn lemma_units_take_le(s: Seq<RecordView>, i: int, primary_only: bool)
    requires
        0 <= i <= s.len(),
    ensures
        spec_pairing_units(s.take(i), primary_only) <= spec_pairing_units(s, primary_only),
    decreases s.len() - i,
{
    if i == s.len() {
        assert(s.take(i) =~= s);
    } else {
        assert(s.take(i + 1) =~= s.take(i).push(s[i]));
        lemma_units_snoc(s.take(i), s[i], primary_only);
        lemma_units_take_le(s, i + 1, primary_only);
    }
}

pub open spec fn spec_views(s: Seq<Record>) -> Seq<RecordView> {
    s.map_values(|r: Record| r@)
}

/// The whole state of the pairing algorithm at one point of the stream: the
/// keyed buffer in insertion order, the pairs emitted so far, and how many
/// records a duplicate key overwrote.
pub struct PairingState {
    pub buf: Seq<(RecordKeyView, RecordView)>,
    pub emitted: Seq<(RecordView, RecordView)>,
    pub overwritten: int,
}

/// The first buffer slot stored under `k`, if any.
pub open spec fn spec_buf_lookup(
    buf: Seq<(RecordKeyView, RecordView)>,
    k: RecordKeyView,
) -> Option<int>
    decreases buf.len(),
{
    if buf.len() == 0 {
        None
    } else if buf[0].0 == k {
        Some(0)
    } else {
        match spec_buf_lookup(buf.drop_first(), k) {
            Some(j) => Some(j + 1),
            None => None,
        }
    }
}

/// What one pulled record does to the pairing state.  A record that does
/// not take part (non-primary under `primary_only`, or unclassifiable — the
/// latter also stops the run with an error) leaves the state alone.  A
/// record whose mate-key matches a buffered record removes that record and
/// emits the pair ordered by pair position; otherwise the record is stored
/// under its own key, overwriting any record already there (last one wins).
pub open spec fn spec_pairing_step(
    st: PairingState,
    r: RecordView,
    primary_only: bool,
) -> PairingState {
    if !(spec_counts_toward(r, primary_only) && spec_classifiable(r)) {
        st
    } else {
        match spec_buf_lookup(st.buf, spec_mate_key(r)) {
            Some(j) => {
                let mate = st.buf[j].1;
                let pair = if st.buf[j].0.1 == PairPosition::First {
                    (mate, r)
                } else {
                    (r, mate)
                };
                PairingState {
                    buf: st.buf.remove(j),
                    emitted: st.emitted.push(pair),
                    overwritten: st.overwritten,
                }
            },
            None => {
                match spec_buf_lookup(st.buf, spec_key(r)) {
                    Some(m) => PairingState {
                        buf: st.buf.update(m, (spec_key(r), r)),
                        emitted: st.emitted,
                        overwritten: st.overwritten + 1,
                    },
                    None => PairingState {
                        buf: st.buf.push((spec_key(r), r)),
                        emitted: st.emitted,
                        overwritten: st.overwritten,
                    },
                }
            },
        }
    }
}

/// The state the pairing algorithm reaches after an empty stream.
pub open spec fn spec_initial_pairing_state() -> PairingState {
    PairingState { buf: Seq::empty(), emitted: Seq::empty(), overwritten: 0 }
}

/// The state the pairing algorithm reaches after consuming `rs`, record by
/// record.  This is the whole algorithm as one mathematical function: it
/// fixes which pairs come out, in which order, what stays buffered, and how
/// many duplicates were overwritten.
pub open spec fn spec_pairing_run(rs: Seq<RecordView>, primary_only: bool) -> PairingState
    decreases rs.len(),
{
    if rs.len() == 0 {
        spec_initial_pairing_state()
    } else {
        spec_pairing_step(spec_pairing_run(rs.drop_last(), primary_only), rs.last(), primary_only)
    }
}

/// The mathematical value of the executable buffer.
pub open spec fn spec_buf_view(b: Seq<(RecordKey, Record)>) -> Seq<(RecordKeyView, RecordView)> {
    b.map_values(|p: (RecordKey, Record)| (key_view(p.0), p.1@))
}

proof fn lemma_run_snoc(rs: Seq<RecordView>, r: RecordView, primary_only: bool)
    ensures
        spec_pairing_run(rs.push(r), primary_only) == spec_pairing_step(
            spec_pairing_run(rs, primary_only),
            r,
            primary_only,
        ),
{
    assert(rs.push(r).drop_last() =~= rs);
    assert(rs.push(r).last() == r);
}

proof fn lemma_buf_lookup_at(bv: Seq<(RecordKeyView, RecordView)>, k: RecordKeyView, j: int)
    requires
        0 <= j < bv.len(),
        bv[j].0 == k,
        forall|i: int| 0 <= i < j ==> (#[trigger] bv[i]).0 != k,
    ensures
        spec_buf_lookup(bv, k) == Some(j),
    decreases j,
{
    if j == 0 {
    } else {
        assert(bv[0].0 != k);
        let t = bv.drop_first();
        assert(t[j - 1] == bv[j]);
        assert(forall|i: int| 0 <= i < j - 1 ==> (#[trigger] t[i]).0 != k) by {
            assert(forall|i: int| 0 <= i < j - 1 ==> #[trigger] t[i] == bv[i + 1]);
        }
        lemma_buf_lookup_at(t, k, j - 1);
    }
}

proof fn lemma_buf_lookup_absent(bv: Seq<(RecordKeyView, RecordView)>, k: RecordKeyView)
    requires
        forall|i: int| 0 <= i < bv.len() ==> (#[trigger] bv[i]).0 != k,
    ensures
        spec_buf_lookup(bv, k) is None,
    decreases bv.len(),
{
    if bv.len() > 0 {
        assert(bv[0].0 != k);
        let t = bv.drop_first();
        assert(forall|i: int| 0 <= i < t.len() ==> (#[trigger] t[i]).0 != k) by {
            assert(forall|i: int| 0 <= i < t.len() ==> #[trigger] t[i] == bv[i + 1]);
        }
        lemma_buf_lookup_absent(t, k);
    }
}

/// Key symmetry is mutual: if one record's own key is the other's mate-key,
/// the converse holds as well.
pub proof fn lemma_key_symmetric(a: RecordView, b: RecordView)
    requires
        spec_classifiable(a),
        spec_classifiable(b),
        a.template_length > i32::MIN,
        b.template_length > i32::MIN,
        spec_key(a) == spec_mate_key(b),
    ensures
        spec_key(b) == spec_mate_key(a),
{
    crate::record_pairs::pair_position::lemma_mate_involution(spec_pair_position(b));
    assert(spec_key(a).6 == spec_mate_key(b).6);
    assert(a.template_length == ((0 - b.template_length) as i32));
    assert(a.template_length == 0 - b.template_length);
    assert(((0 - a.template_length) as i32) == b.template_length);
    assert(spec_key(b).1 == spec_mate_key(a).1);
    assert(spec_key(b) == spec_mate_key(a));
}

fn opt_equal(a: Option<i32>, b: Option<i32>) -> (r: bool)
    ensures
        r == (a == b),
{
    match (a, b) {
        (None, None) => true,
        (Some(x), Some(y)) => x == y,
        _ => false,
    }
}

fn bytes_equal(a: &Vec<u8>, b: &Vec<u8>) -> (r: bool)
    ensures
        r == (a@ == b@),
{
    if a.len() != b.len() {
        return false;
    }
    let mut i: usize = 0;
    while i < a.len()
        invariant
            i <= a.len(),
            a@.len() == b@.len(),
            forall|k: int| 0 <= k < i ==> a@[k] == b@[k],
        decreases a.len() - i,
    {
        if a[i] != b[i] {
            return false;
        }
        i = i + 1;
    }
    proof {
        assert(a@ =~= b@);
    }
    true
}

fn keys_equal(a: &RecordKey, b: &RecordKey) -> (r: bool)
    ensures
        r == (key_view(*a) == key_view(*b)),
{
    let names = bytes_equal(&a.0, &b.0);
    let r = names && a.1 == b.1 && opt_equal(a.2, b.2) && opt_equal(a.3, b.3) && opt_equal(
        a.4,
        b.4,
    ) && opt_equal(a.5, b.5) && a.6 == b.6;
    r
}

/// Builds a record's own buffer key.
fn key(record: &Record) -> (k: RecordKey)
    requires
        spec_classifiable(record@),
    ensures
        key_view(k) == spec_key(record@),
{
    let pos = match PairPosition::from_flags(record.flags) {
        Some(p) => p,
        None => PairPosition::First,
    };
    (
        clone_bytes(&record.read_name),
        pos,
        opt_field(record.reference_sequence_id),
        opt_field(record.position),
        opt_field(record.mate_reference_sequence_id),
        opt_field(record.mate_position),
        record.template_length,
    )
}

/// Builds the key a record's mate will arrive under.
fn mate_key(record: &Record) -> (k: RecordKey)
    requires
        spec_classifiable(record@),
        record@.template_length > i32::MIN,
    ensures
        key_view(k) == spec_mate_key(record@),
{
    let pos = match PairPosition::from_flags(record.flags) {
        Some(p) => p,
        None => PairPosition::First,
    };
    (
        clone_bytes(&record.read_name),
        pos.mate(),
        opt_field(record.mate_reference_sequence_id),
        opt_field(record.mate_position),
        opt_field(record.reference_sequence_id),
        opt_field(record.position),
        0i32 - record.template_length,
    )
}

fn opt_field(x: i32) -> (r: Option<i32>)
    ensures
        r == spec_opt_field(x),
{
    if x < 0 {
        None
    } else {
        Some(x)
    }
}

fn is_not_primary(record: &Record) -> (b: bool)
    ensures
        b == (record@.flags.spec_is_secondary() || record@.flags.spec_is_supplementary()),
{
    record.flags.is_secondary() || record.flags.is_supplementary()
}

/// The first buffer slot whose key reads `key`, if any.
fn find_key(buf: &Vec<(RecordKey, Record)>, key: &RecordKey) -> (res: Option<usize>)
    ensures
        match res {
            Some(j) => (j as int) < buf@.len() && key_view(buf@[j as int].0) == key_view(*key)
                && forall|k: int|
                0 <= k < j ==> key_view((#[trigger] buf@[k]).0) != key_view(*key),
            None => forall|k: int|
                0 <= k < buf@.len() ==> key_view((#[trigger] buf@[k]).0) != key_view(*key),
        },
{
    let mut j: usize = 0;
    while j < buf.len()
        invariant
            j <= buf.len(),
            forall|k: int| 0 <= k < j ==> key_view((#[trigger] buf@[k]).0) != key_view(*key),
        decreases buf.len() - j,
    {
        if keys_equal(&buf[j].0, key) {
            return Some(j);
        }
        j = j + 1;
    }
    None
}

/// Pairing is order-insensitive for a template's two mates: whichever mate
/// arrives first, the canonical run emits the same single pair, mate 1
/// before mate 2, and leaves nothing buffered.
pub proof fn lemma_pairing_order_insensitive(a: RecordView, b: RecordView, primary_only: bool)
    requires
        spec_counts_toward(a, primary_only),
        spec_counts_toward(b, primary_only),
        spec_classifiable(a),
        spec_classifiable(b),
        a.template_length > i32::MIN,
        b.template_length > i32::MIN,
        spec_key(a) == spec_mate_key(b),
        spec_pair_position(a) == PairPosition::First,
    ensures
        spec_pairing_run(seq![a, b], primary_only).emitted == seq![(a, b)],
        spec_pairing_run(seq![b, a], primary_only).emitted == seq![(a, b)],
        spec_pairing_run(seq![a, b], primary_only).buf == Seq::<(RecordKeyView, RecordView)>::empty(),
        spec_pairing_run(seq![b, a], primary_only).buf == Seq::<(RecordKeyView, RecordView)>::empty(),
{
    reveal_with_fuel(spec_pairing_run, 4);
    reveal_with_fuel(spec_buf_lookup, 3);
    lemma_key_symmetric(a, b);
    let st0 = spec_initial_pairing_state();

    assert(seq![a, b].drop_last() =~= seq![a]);
    assert(seq![a, b].last() == b);
    assert(seq![a].drop_last() =~= Seq::<RecordView>::empty());
    assert(seq![a].last() == a);
    assert(spec_buf_lookup(st0.buf, spec_mate_key(a)) is None);
    assert(spec_buf_lookup(st0.buf, spec_key(a)) is None);
    let st_a = spec_pairing_step(st0, a, primary_only);
    assert(st_a.buf == st0.buf.push((spec_key(a), a)));
    assert(st_a.buf.len() == 1 && st_a.buf[0] == (spec_key(a), a));
    assert(st_a.buf[0].0 == spec_mate_key(b));
    assert(spec_buf_lookup(st_a.buf, spec_mate_key(b)) == Some(0int));
    let st_ab = spec_pairing_step(st_a, b, primary_only);
    assert(st_a.buf[0].0.1 == PairPosition::First);
    assert(st_ab.emitted =~= seq![(a, b)]);
    assert(st_ab.buf =~= Seq::<(RecordKeyView, RecordView)>::empty());
    assert(spec_pairing_run(seq![a, b], primary_only) == st_ab);

    assert(seq![b, a].drop_last() =~= seq![b]);
    assert(seq![b, a].last() == a);
    assert(seq![b].drop_last() =~= Seq::<RecordView>::empty());
    assert(seq![b].last() == b);
    assert(spec_buf_lookup(st0.buf, spec_mate_key(b)) is None);
    assert(spec_buf_lookup(st0.buf, spec_key(b)) is None);
    let st_b = spec_pairing_step(st0, b, primary_only);
    assert(st_b.buf == st0.buf.push((spec_key(b), b)));
    assert(st_b.buf.len() == 1 && st_b.buf[0] == (spec_key(b), b));
    assert(st_b.buf[0].0 == spec_mate_key(a));
    assert(spec_buf_lookup(st_b.buf, spec_mate_key(a)) == Some(0int));
    let st_ba = spec_pairing_step(st_b, a, primary_only);
    assert(st_b.buf[0].0.1 == PairPosition::Second) by {
        crate::record_pairs::pair_position::lemma_mate_involution(spec_pair_position(b));
        assert(spec_key(a).1 == spec_mate_key(b).1);
    }
    assert(st_ba.emitted =~= seq![(a, b)]);
    assert(st_ba.buf =~= Seq::<(RecordKeyView, RecordView)>::empty());
    assert(spec_pairing_run(seq![b, a], primary_only) == st_ba);
}

/// What the buffer's invariant pins down: the executable state always
/// equals the canonical run of the pairing algorithm over the consumed
/// prefix of the stream.
proof fn lemma_canonical_state(p: RecordPairs)
    requires
        p.wf(),
    ensures
        p.spec_emitted_pairs() == spec_pairing_run(
            p.spec_source().take(p.spec_consumed()),
            p.spec_primary_only(),
        ).emitted,
        p.spec_buffer_views() == spec_pairing_run(
            p.spec_source().take(p.spec_consumed()),
            p.spec_primary_only(),
        ).buf.map_values(|q: (RecordKeyView, RecordView)| q.1),
        p.spec_overwritten() == spec_pairing_run(
            p.spec_source().take(p.spec_consumed()),
            p.spec_primary_only(),
        ).overwritten,
{
    let run = spec_pairing_run(p.spec_source().take(p.spec_consumed()), p.spec_primary_only());
    assert(spec_buf_view(p.buf@) == run.buf);
    assert(p.spec_buffer_views() =~= run.buf.map_values(|q: (RecordKeyView, RecordView)| q.1));
}

/// The pairing buffer over a stream of records.
pub struct RecordPairs {
    records: Vec<Record>,
    next_index: usize,
    buf: Vec<(RecordKey, Record)>,
    primary_only: bool,
    pairs_emitted: Ghost<Seq<(RecordView, RecordView)>>,
    overwritten: Ghost<int>,
}

impl RecordPairs {
    /// The pairs emitted so far, in order.
    pub closed spec fn spec_emitted_pairs(self) -> Seq<(RecordView, RecordView)> {
        self.pairs_emitted@
    }

    /// How many records still sit unpaired in the buffer.
    pub closed spec fn spec_buffered(self) -> int {
        self.buf@.len() as int
    }

    /// How many records were discarded by a same-key overwrite.
    pub closed spec fn spec_overwritten(self) -> int {
        self.overwritten@
    }

    /// Whether the whole stream has been consumed.
    pub closed spec fn spec_done(self) -> bool {
        self.next_index == self.records@.len()
    }

    /// How many records are still unconsumed.
    pub closed spec fn spec_remaining(self) -> int {
        self.records@.len() - self.next_index
    }

    /// How many records of the stream have been consumed.
    pub closed spec fn spec_consumed(self) -> int {
        self.next_index as int
    }

    /// How many records of the whole stream take part in pairing.
    pub closed spec fn spec_units_total(self) -> int {
        spec_pairing_units(spec_views(self.records@), self.primary_only)
    }

    /// The whole input stream, as mathematical values.
    pub closed spec fn spec_source(self) -> Seq<RecordView> {
        spec_views(self.records@)
    }

    /// Whether only primary records take part in pairing.
    pub closed spec fn spec_primary_only(self) -> bool {
        self.primary_only
    }

    /// The buffered singletons, in buffer order.
    pub closed spec fn spec_buffer_views(self) -> Seq<RecordView> {
        self.buf@.map_values(|p: (RecordKey, Record)| p.1@)
    }

    /// The buffer's invariant: every buffered record sits under its own
    /// key; every consumed record that takes part in pairing is either
    /// inside an emitted pair, still buffered, or was overwritten by a
    /// duplicate key; and the whole state — buffer, emitted pairs, and
    /// overwrite count — equals the canonical pairing run over the consumed
    /// prefix of the stream.
    pub closed spec fn wf(self) -> bool {
        &&& self.next_index <= self.records@.len()
        &&& (forall|k: int| 0 <= k < self.records@.len() ==> (#[trigger] self.records@[k])@.wf())
        &&& (forall|k: int|
            0 <= k < self.buf@.len() ==> {
                &&& (#[trigger] self.buf@[k]).1@.wf()
                &&& spec_classifiable(self.buf@[k].1@)
                &&& spec_counts_toward(self.buf@[k].1@, self.primary_only)
                &&& key_view(self.buf@[k].0) == spec_key(self.buf@[k].1@)
                &&& exists|i: int|
                    0 <= i < spec_views(self.records@).len() && #[trigger] spec_views(
                        self.records@,
                    )[i] == self.buf@[k].1@
            })
        &&& self.overwritten@ >= 0
        &&& spec_pairing_units(
            spec_views(self.records@).take(self.next_index as int),
            self.primary_only,
        ) == 2 * self.pairs_emitted@.len() + self.buf@.len() + self.overwritten@
        &&& spec_buf_view(self.buf@) == spec_pairing_run(
            spec_views(self.records@).take(self.next_index as int),
            self.primary_only,
        ).buf
        &&& self.pairs_emitted@ == spec_pairing_run(
            spec_views(self.records@).take(self.next_index as int),
            self.primary_only,
        ).emitted
        &&& self.overwritten@ == spec_pairing_run(
            spec_views(self.records@).take(self.next_index as int),
            self.primary_only,
        ).overwritten
    }

    /// A fresh pairing buffer over a record stream.
    pub fn new(records: Vec<Record>, primary_only: bool) -> (p: RecordPairs)
        requires
            forall|k: int| 0 <= k < records@.len() ==> (#[trigger] records@[k])@.wf(),
        ensures
            p.wf(),
            p.spec_emitted_pairs() == Seq::<(RecordView, RecordView)>::empty(),
            p.spec_buffered() == 0,
            p.spec_overwritten() == 0,
            p.spec_units_total() == spec_pairing_units(spec_views(records@), primary_only),
            p.spec_remaining() == records@.len(),
            p.spec_source() == spec_views(records@),
            p.spec_primary_only() == primary_only,
            p.spec_consumed() == 0,
    {
        let p = RecordPairs {
            records,
            next_index: 0,
            buf: Vec::new(),
            primary_only,
            pairs_emitted: Ghost(Seq::empty()),
            overwritten: Ghost(0),
        };
        proof {
            assert(spec_views(p.records@).take(0) =~= Seq::<RecordView>::empty());
            assert(spec_buf_view(p.buf@) =~= Seq::<(RecordKeyView, RecordView)>::empty());
        }
        p
    }

    /// Pulls records until a pair completes: the pair is emitted with mate 1
    /// first, both mates sharing a read name and the first's key equal to
    /// the second's mate-key.  `None` means the stream is exhausted; what
    /// never paired stays in the buffer.  A record that is neither read 1
    /// nor read 2 is a fatal error.
    ///
    /// The emitted pairs, the buffer, and the overwrite count are not just
    /// constrained but determined: they always equal [`spec_pairing_run`],
    /// the pairing algorithm as one mathematical function of the consumed
    /// prefix of the stream.
    #[verifier::rlimit(60)]
    pub fn next_pair(&mut self) -> (res: Option<Result<(Record, Record), CountError>>)
        requires
            old(self).wf(),
        ensures
            final(self).wf(),
            final(self).spec_units_total() == old(self).spec_units_total(),
            final(self).spec_source() == old(self).spec_source(),
            final(self).spec_primary_only() == old(self).spec_primary_only(),
            2 * final(self).spec_emitted_pairs().len() <= final(self).spec_units_total(),
            final(self).spec_remaining() <= old(self).spec_remaining(),
            final(self).spec_remaining() >= 0,
            res is Some ==> final(self).spec_remaining() < old(self).spec_remaining(),
            old(self).spec_consumed() <= final(self).spec_consumed(),
            final(self).spec_consumed() <= final(self).spec_source().len(),
            final(self).spec_emitted_pairs() == spec_pairing_run(
                final(self).spec_source().take(final(self).spec_consumed()),
                final(self).spec_primary_only(),
            ).emitted,
            final(self).spec_buffer_views() == spec_pairing_run(
                final(self).spec_source().take(final(self).spec_consumed()),
                final(self).spec_primary_only(),
            ).buf.map_values(|q: (RecordKeyView, RecordView)| q.1),
            final(self).spec_overwritten() == spec_pairing_run(
                final(self).spec_source().take(final(self).spec_consumed()),
                final(self).spec_primary_only(),
            ).overwritten,
            match res {
                None => {
                    &&& final(self).spec_done()
                    &&& final(self).spec_consumed() == final(self).spec_source().len()
                    &&& final(self).spec_emitted_pairs() == old(self).spec_emitted_pairs()
                    &&& final(self).spec_units_total() == 2 * final(self).spec_emitted_pairs().len()
                        + final(self).spec_buffered() + final(self).spec_overwritten()
                },
                Some(pair_or_err) => match pair_or_err {
                    Ok((r1, r2)) => {
                        &&& final(self).spec_emitted_pairs() == old(self).spec_emitted_pairs().push((r1@, r2@))
                        &&& (exists|i: int|
                            0 <= i < final(self).spec_source().len()
                                && #[trigger] final(self).spec_source()[i] == r1@)
                        &&& (exists|i: int|
                            0 <= i < final(self).spec_source().len()
                                && #[trigger] final(self).spec_source()[i] == r2@)
                        &&& r1@.read_name == r2@.read_name
                        &&& PairPosition::spec_from_flags(r1@.flags) == Some(PairPosition::First)
                        &&& PairPosition::spec_from_flags(r2@.flags) == Some(PairPosition::Second)
                        &&& spec_key(r1@) == spec_mate_key(r2@)
                        &&& spec_counts_toward(r1@, final(self).spec_primary_only())
                        &&& spec_counts_toward(r2@, final(self).spec_primary_only())
                        &&& r1@.wf()
                        &&& r2@.wf()
                    },
                    Err(e) => {
                        &&& e == CountError::InvalidPairPosition
                        &&& final(self).spec_emitted_pairs() == old(self).spec_emitted_pairs()
                        &&& final(self).spec_consumed() >= 1
                        &&& spec_counts_toward(
                            final(self).spec_source()[final(self).spec_consumed() - 1],
                            final(self).spec_primary_only(),
                        )
                        &&& !spec_classifiable(
                            final(self).spec_source()[final(self).spec_consumed() - 1],
                        )
                        &&& exists|k: int|
                            0 <= k < final(self).spec_source().len() && spec_counts_toward(
                                #[trigger] final(self).spec_source()[k],
                                final(self).spec_primary_only(),
                            ) && !spec_classifiable(final(self).spec_source()[k])
                    },
                },
            },
    {
        while self.next_index < self.records.len()
            invariant
                self.wf(),
                self.records@ == old(self).records@,
                self.primary_only == old(self).primary_only,
                self.pairs_emitted@ == old(self).pairs_emitted@,
                old(self).next_index <= self.next_index,
                old(self).wf(),
            decreases self.records@.len() - self.next_index,
        {
            let idx = self.next_index;
            let record = self.records[idx].duplicate();
            let ghost prev_taken = spec_views(self.records@).take(idx as int);
            let ghost run_before = spec_pairing_run(prev_taken, self.primary_only);
            self.next_index = idx + 1;
            let ghost run_after = spec_pairing_run(
                spec_views(self.records@).take(idx as int + 1),
                self.primary_only,
            );
            proof {
                assert(spec_views(self.records@).take(idx as int + 1) =~= prev_taken.push(
                    record@,
                ));
                lemma_units_snoc(prev_taken, record@, self.primary_only);
                lemma_run_snoc(prev_taken, record@, self.primary_only);
                assert(run_after == spec_pairing_step(run_before, record@, self.primary_only));
                assert(spec_buf_view(self.buf@) == run_before.buf);
            }
            let skip = self.primary_only && is_not_primary(&record);
            if skip {
                proof {
                    assert(!spec_counts_toward(record@, self.primary_only));
                    assert(run_after == run_before);
                }
            } else {
                let pos_opt = PairPosition::from_flags(record.flags);
                if pos_opt.is_none() {
                    proof {
                        assert(!spec_classifiable(record@));
                        assert(run_after == run_before);
                        lemma_units_take_le(
                            spec_views(self.records@),
                            self.next_index as int,
                            self.primary_only,
                        );
                        assert(self.spec_source()[idx as int] == record@);
                        assert(spec_counts_toward(
                            self.spec_source()[idx as int],
                            self.spec_primary_only(),
                        ) && !spec_classifiable(self.spec_source()[idx as int]));
                        assert(exists|k: int|
                            0 <= k < self.spec_source().len() && spec_counts_toward(
                                #[trigger] self.spec_source()[k],
                                self.spec_primary_only(),
                            ) && !spec_classifiable(self.spec_source()[k]));
                        assert(self.spec_consumed() - 1 == idx as int);
                        lemma_canonical_state(*self);
                    }
                    return Some(Err(CountError::InvalidPairPosition));
                }
                let mkey = mate_key(&record);
                match find_key(&self.buf, &mkey) {
                    Some(j) => {
                        let ghost buf_before = self.buf@;
                        let (k, mate) = self.buf.remove(j);
                        proof {
                            assert(key_view(k) == spec_key(mate@));
                            assert(key_view(k) == spec_mate_key(record@));
                            assert(spec_pair_position(mate@) == spec_pair_position(
                                record@,
                            ).spec_mate());
                            assert(self.spec_source()[idx as int] == record@);
                            assert(exists|i: int|
                                0 <= i < self.spec_source().len() && #[trigger] self.spec_source()[i]
                                    == record@);
                            assert(exists|i: int|
                                0 <= i < spec_views(self.records@).len() && #[trigger] spec_views(
                                    self.records@,
                                )[i] == buf_before[j as int].1@);
                            assert(exists|i: int|
                                0 <= i < self.spec_source().len() && #[trigger] self.spec_source()[i]
                                    == mate@) by {
                                let i = choose|i: int|
                                    0 <= i < spec_views(self.records@).len() && #[trigger] spec_views(
                                        self.records@,
                                    )[i] == buf_before[j as int].1@;
                                assert(self.spec_source()[i] == mate@);
                            }
                            assert forall|k: int| 0 <= k < self.buf@.len() implies exists|i: int|
                                0 <= i < spec_views(self.records@).len() && #[trigger] spec_views(
                                    self.records@,
                                )[i] == (#[trigger] self.buf@[k]).1@ by {
                                let prev_k: int = if k < j { k } else { k + 1 };
                                assert(self.buf@[k] == buf_before[prev_k]);
                                let i = choose|i: int|
                                    0 <= i < spec_views(self.records@).len() && #[trigger] spec_views(
                                        self.records@,
                                    )[i] == buf_before[prev_k].1@;
                                assert(spec_views(self.records@)[i] == self.buf@[k].1@);
                            }
                            let bv = run_before.buf;
                            assert(bv == spec_buf_view(buf_before));
                            assert(bv[j as int] == (key_view(buf_before[j as int].0), buf_before[
                                j as int
                            ].1@));
                            assert(bv[j as int].0 == spec_mate_key(record@));
                            assert forall|i: int| 0 <= i < j implies (#[trigger] bv[i]).0
                                != spec_mate_key(record@) by {
                                assert(bv[i] == (key_view(buf_before[i].0), buf_before[i].1@));
                            }
                            lemma_buf_lookup_at(bv, spec_mate_key(record@), j as int);
                            assert(spec_buf_lookup(bv, spec_mate_key(record@)) == Some(j as int));
                            assert(run_after.buf == bv.remove(j as int));
                            assert(spec_buf_view(self.buf@) =~= bv.remove(j as int));
                            assert(bv[j as int].1 == mate@);
                            assert(bv[j as int].0.1 == key_view(k).1);
                        }
                        let pair = match k.1 {
                            PairPosition::First => (mate, record),
                            PairPosition::Second => (record, mate),
                        };
                        let ghost i_mate = choose|i: int|
                            0 <= i < spec_views(self.records@).len() && #[trigger] spec_views(
                                self.records@,
                            )[i] == buf_before[j as int].1@;
                        self.pairs_emitted = Ghost(self.pairs_emitted@.push((pair.0@, pair.1@)));
                        proof {
                            assert(pair.0@ == mate@ || pair.0@ == record@);
                            assert(pair.1@ == mate@ || pair.1@ == record@);
                            if k.1 == PairPosition::First {
                                assert(pair.0@ == mate@ && pair.1@ == record@);
                                assert(run_before.buf[j as int].0.1 == PairPosition::First);
                            } else {
                                assert(pair.0@ == record@ && pair.1@ == mate@);
                                assert(run_before.buf[j as int].0.1 == PairPosition::Second);
                            }
                            assert(run_after.emitted == run_before.emitted.push((pair.0@, pair.1@)));
                            assert(self.pairs_emitted@ == run_after.emitted);
                            assert(self.overwritten@ == run_after.overwritten);
                            assert(spec_buf_view(self.buf@) == run_after.buf);
                            assert(0 <= i_mate < self.spec_source().len() && self.spec_source()[i_mate] == mate@);
                            assert(0 <= idx < self.spec_source().len() && self.spec_source()[idx as int] == record@);
                            assert(exists|i: int|
                                0 <= i < self.spec_source().len() && #[trigger] self.spec_source()[i]
                                    == pair.0@) by {
                                if pair.0@ == mate@ {
                                    assert(self.spec_source()[i_mate] == pair.0@);
                                } else {
                                    assert(self.spec_source()[idx as int] == pair.0@);
                                }
                            }
                            assert(exists|i: int|
                                0 <= i < self.spec_source().len() && #[trigger] self.spec_source()[i]
                                    == pair.1@) by {
                                if pair.1@ == mate@ {
                                    assert(self.spec_source()[i_mate] == pair.1@);
                                } else {
                                    assert(self.spec_source()[idx as int] == pair.1@);
                                }
                            }
                            lemma_units_take_le(
                                spec_views(self.records@),
                                self.next_index as int,
                                self.primary_only,
                            );
                            assert(spec_classifiable(record@));
                            assert(spec_counts_toward(record@, self.primary_only));
                            if k.1 == PairPosition::First {
                                assert(spec_key(pair.0@) == spec_mate_key(pair.1@));
                            } else {
                                lemma_key_symmetric(mate@, record@);
                                assert(spec_key(pair.0@) == spec_mate_key(pair.1@));
                            }
                            lemma_canonical_state(*self);
                        }
                        return Some(Ok(pair));
                    },
                    None => {
                        let kk = key(&record);
                        match find_key(&self.buf, &kk) {
                            Some(m) => {
                                let ghost buf_prev = self.buf@;
                                self.buf.set(m, (kk, record));
                                self.overwritten = Ghost(self.overwritten@ + 1);
                                proof {
                                    let bv = run_before.buf;
                                    assert(bv == spec_buf_view(buf_prev));
                                    assert forall|i: int| 0 <= i < bv.len() implies (
                                    #[trigger] bv[i]).0 != spec_mate_key(record@) by {
                                        assert(bv[i] == (key_view(buf_prev[i].0), buf_prev[i].1@));
                                    }
                                    lemma_buf_lookup_absent(bv, spec_mate_key(record@));
                                    assert(bv[m as int] == (key_view(buf_prev[m as int].0), buf_prev[
                                        m as int
                                    ].1@));
                                    assert(bv[m as int].0 == spec_key(record@));
                                    assert forall|i: int| 0 <= i < m implies (#[trigger] bv[i]).0
                                        != spec_key(record@) by {
                                        assert(bv[i] == (key_view(buf_prev[i].0), buf_prev[i].1@));
                                    }
                                    lemma_buf_lookup_at(bv, spec_key(record@), m as int);
                                    assert(run_after.buf == bv.update(
                                        m as int,
                                        (spec_key(record@), record@),
                                    ));
                                    assert(spec_buf_view(self.buf@) =~= bv.update(
                                        m as int,
                                        (spec_key(record@), record@),
                                    ));
                                    assert(self.pairs_emitted@ == run_after.emitted);
                                    assert(self.overwritten@ == run_after.overwritten);
                                    assert forall|k: int|
                                        0 <= k < self.buf@.len() implies exists|i: int|
                                        0 <= i < spec_views(self.records@).len()
                                            && #[trigger] spec_views(self.records@)[i] == (
                                        #[trigger] self.buf@[k]).1@ by {
                                        if k == m {
                                            assert(spec_views(self.records@)[idx as int]
                                                == self.buf@[k].1@);
                                        } else {
                                            assert(self.buf@[k] == buf_prev[k]);
                                            let i = choose|i: int|
                                                0 <= i < spec_views(self.records@).len()
                                                    && #[trigger] spec_views(self.records@)[i]
                                                    == buf_prev[k].1@;
                                            assert(spec_views(self.records@)[i]
                                                == self.buf@[k].1@);
                                        }
                                    }
                                }
                            },
                            None => {
                                let ghost buf_prev = self.buf@;
                                self.buf.push((kk, record));
                                proof {
                                    let bv = run_before.buf;
                                    assert(bv == spec_buf_view(buf_prev));
                                    assert forall|i: int| 0 <= i < bv.len() implies (
                                    #[trigger] bv[i]).0 != spec_mate_key(record@) by {
                                        assert(bv[i] == (key_view(buf_prev[i].0), buf_prev[i].1@));
                                    }
                                    lemma_buf_lookup_absent(bv, spec_mate_key(record@));
                                    assert forall|i: int| 0 <= i < bv.len() implies (
                                    #[trigger] bv[i]).0 != spec_key(record@) by {
                                        assert(bv[i] == (key_view(buf_prev[i].0), buf_prev[i].1@));
                                    }
                                    lemma_buf_lookup_absent(bv, spec_key(record@));
                                    assert(run_after.buf == bv.push((spec_key(record@), record@)));
                                    assert(spec_buf_view(self.buf@) =~= bv.push(
                                        (spec_key(record@), record@),
                                    ));
                                    assert(self.pairs_emitted@ == run_after.emitted);
                                    assert(self.overwritten@ == run_after.overwritten);
                                    assert forall|k: int|
                                        0 <= k < self.buf@.len() implies exists|i: int|
                                        0 <= i < spec_views(self.records@).len()
                                            && #[trigger] spec_views(self.records@)[i] == (
                                        #[trigger] self.buf@[k]).1@ by {
                                        if k == buf_prev.len() {
                                            assert(spec_views(self.records@)[idx as int]
                                                == self.buf@[k].1@);
                                        } else {
                                            assert(self.buf@[k] == buf_prev[k]);
                                            let i = choose|i: int|
                                                0 <= i < spec_views(self.records@).len()
                                                    && #[trigger] spec_views(self.records@)[i]
                                                    == buf_prev[k].1@;
                                            assert(spec_views(self.records@)[i]
                                                == self.buf@[k].1@);
                                        }
                                    }
                                }
                            },
                        }
                    },
                }
            }
        }
        proof {
            assert(spec_views(self.records@).take(self.records@.len() as int) =~= spec_views(
                self.records@,
            ));
            lemma_canonical_state(*self);
        }
        None
    }

    /// Hands the residual unpaired records out and empties the buffer.
    pub fn singletons(self) -> (s: Singletons)
        requires
            self.wf(),
        ensures
            s.spec_records() == self.spec_buffer_views(),
            forall|k: int|
                0 <= k < s.spec_records().len() ==> (#[trigger] s.spec_records()[k]).wf()
                    && spec_classifiable(s.spec_records()[k]),
    {
        let mut buf = self.buf;
        let mut records: Vec<Record> = Vec::new();
        let ghost views = buf@.map_values(|p: (RecordKey, Record)| p.1@);
        let mut i: usize = 0;
        proof {
            assert(records@.map_values(|r: Record| r@) =~= views.take(0));
        }
        while i < buf.len()
            invariant
                i <= buf.len(),
                views == buf@.map_values(|p: (RecordKey, Record)| p.1@),
                records@.map_values(|r: Record| r@) == views.take(i as int),
                forall|k: int|
                    0 <= k < views.len() ==> (#[trigger] views[k]).wf() && spec_classifiable(
                        views[k],
                    ),
            decreases buf.len() - i,
        {
            let r = buf[i].1.duplicate();
            let ghost prev = records@;
            records.push(r);
            proof {
                assert(records@.map_values(|r2: Record| r2@) =~= prev.map_values(
                    |r2: Record| r2@,
                ).push(views[i as int]));
                assert(views.take(i as int + 1) =~= views.take(i as int).push(views[i as int]));
            }
            i = i + 1;
        }
        proof {
            assert(views.take(views.len() as int) =~= views);
        }
        Singletons { records, next: 0 }
    }
}

/// The residual unpaired records of a finished pairing run.
pub struct Singletons {
    records: Vec<Record>,
    next: usize,
}

impl Singletons {
    /// The singletons not yet handed out, in order.
    pub closed spec fn spec_records(self) -> Seq<RecordView> {
        if self.next <= self.records@.len() {
            spec_views(self.records@).skip(self.next as int)
        } else {
            Seq::empty()
        }
    }

    /// The next residual record, if any is left.
    pub fn next(&mut self) -> (res: Option<Record>)
        ensures
            match res {
                Some(r) => old(self).spec_records().len() > 0 && r@ == old(self).spec_records()[0]
                    && final(self).spec_records() == old(self).spec_records().drop_first(),
                None => old(self).spec_records().len() == 0 && final(self).spec_records() == old(self).spec_records(),
            },
    {
        let ghost before = self.spec_records();
        if self.next < self.records.len() {
            let r = self.records[self.next].duplicate();
            self.next = self.next + 1;
            proof {
                assert(self.spec_records() =~= before.drop_first());
                assert(r@ == before[0]);
            }
            Some(r)
        } else {
            None
        }
    }
}

} // verus!
