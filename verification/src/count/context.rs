//! The result of a counting run: per-gene counts and bookkeeping totals.

use vstd::prelude::*;

verus! {

/// What a count table holds at `name`: the value of its first entry under
/// that name, or zero.
pub open spec fn spec_get_count(s: Seq<(Seq<char>, u64)>, name: Seq<char>) -> u64
    decreases s.len(),
{
    if s.len() == 0 {
        0
    } else if s[0].0 == name {
        s[0].1
    } else {
        spec_get_count(s.drop_first(), name)
    }
}

/// A count table after one more observation of `name`: the first entry under
/// that name is raised by one, or a fresh entry `(name, 1)` is appended.
pub open spec fn spec_increment(s: Seq<(Seq<char>, u64)>, name: Seq<char>) -> Seq<(Seq<char>, u64)>
    decreases s.len(),
{
    if s.len() == 0 {
        seq![(name, 1u64)]
    } else if s[0].0 == name {
        seq![(s[0].0, ((s[0].1 + 1) as u64))] + s.drop_first()
    } else {
        seq![s[0]] + spec_increment(s.drop_first(), name)
    }
}

/// The sum of a count table's values.
pub open spec fn spec_counts_total(s: Seq<(Seq<char>, u64)>) -> int
    decreases s.len(),
{
    if s.len() == 0 {
        0
    } else {
        s[0].1 + spec_counts_total(s.drop_first())
    }
}

/// A count table's sum is non-negative.
pub proof fn lemma_counts_total_nonneg(s: Seq<(Seq<char>, u64)>)
    ensures
        spec_counts_total(s) >= 0,
    decreases s.len(),
{
    if s.len() > 0 {
        lemma_counts_total_nonneg(s.drop_first());
    }
}

/// No single entry exceeds the table's sum.
pub proof fn lemma_get_le_total(s: Seq<(Seq<char>, u64)>, name: Seq<char>)
    ensures
        spec_get_count(s, name) <= spec_counts_total(s),
    decreases s.len(),
{
    if s.len() > 0 {
        lemma_get_le_total(s.drop_first(), name);
        lemma_counts_total_nonneg(s.drop_first());
    }
}

/// One more observation raises the table's sum by exactly one.
pub proof fn lemma_increment_total(s: Seq<(Seq<char>, u64)>, name: Seq<char>)
    requires
        spec_get_count(s, name) < u64::MAX,
    ensures
        spec_counts_total(spec_increment(s, name)) == spec_counts_total(s) + 1,
    decreases s.len(),
{
    if s.len() == 0 {
        let t = spec_increment(s, name);
        assert(t[0] == (name, 1u64));
        assert(t.drop_first() =~= Seq::<(Seq<char>, u64)>::empty());
        assert(spec_counts_total(t) == t[0].1 + spec_counts_total(t.drop_first()));
    } else if s[0].0 == name {
        let t = spec_increment(s, name);
        assert(s[0].1 < u64::MAX);
        assert(t[0] == (s[0].0, ((s[0].1 + 1) as u64)));
        assert(t.drop_first() =~= s.drop_first());
        assert(spec_counts_total(t) == t[0].1 + spec_counts_total(t.drop_first()));
    } else {
        let t = spec_increment(s, name);
        assert(t[0] == s[0]);
        assert(t.drop_first() =~= spec_increment(s.drop_first(), name));
        assert(spec_counts_total(t) == t[0].1 + spec_counts_total(t.drop_first()));
        lemma_increment_total(s.drop_first(), name);
    }
}

/// An observation of one name leaves every other name's count unchanged,
/// and raises that name's count by one.
pub proof fn lemma_increment_get(s: Seq<(Seq<char>, u64)>, name: Seq<char>, other: Seq<char>)
    requires
        spec_get_count(s, name) < u64::MAX,
    ensures
        spec_get_count(spec_increment(s, name), name) == spec_get_count(s, name) + 1,
        other != name ==> spec_get_count(spec_increment(s, name), other) == spec_get_count(
            s,
            other,
        ),
    decreases s.len(),
{
    if s.len() == 0 {
        let t = spec_increment(s, name);
        assert(t[0] == (name, 1u64));
        assert(t.drop_first() =~= Seq::<(Seq<char>, u64)>::empty());
        assert(spec_get_count(t, name) == t[0].1);
        assert(other != name ==> spec_get_count(t, other) == spec_get_count(
            t.drop_first(),
            other,
        ));
    } else if s[0].0 == name {
        let t = spec_increment(s, name);
        assert(s[0].1 < u64::MAX);
        assert(t[0] == (s[0].0, ((s[0].1 + 1) as u64)));
        assert(t.drop_first() =~= s.drop_first());
        assert(spec_get_count(t, name) == t[0].1);
        assert(other != name ==> spec_get_count(t, other) == spec_get_count(
            t.drop_first(),
            other,
        ));
    } else {
        let t = spec_increment(s, name);
        assert(t[0] == s[0]);
        assert(t.drop_first() =~= spec_increment(s.drop_first(), name));
        assert(spec_get_count(t, name) == spec_get_count(t.drop_first(), name));
        assert(spec_get_count(t, other) == if t[0].0 == other {
            t[0].1
        } else {
            spec_get_count(t.drop_first(), other)
        });
        lemma_increment_get(s.drop_first(), name, other);
    }
}

/// The per-gene count table.
pub struct Counts {
    pub entries: Vec<(String, u64)>,
}

impl View for Counts {
    type V = Seq<(Seq<char>, u64)>;

    open spec fn view(&self) -> Seq<(Seq<char>, u64)> {
        self.entries@.map_values(|p: (String, u64)| (p.0@, p.1))
    }
}

impl Counts {
    pub fn new() -> (c: Counts)
        ensures
            c@ == Seq::<(Seq<char>, u64)>::empty(),
    {
        let c = Counts { entries: Vec::new() };
        proof {
            assert(c@ =~= Seq::<(Seq<char>, u64)>::empty());
        }
        c
    }

    /// The count recorded for `name`, or zero.
    pub fn get(&self, name: &String) -> (res: u64)
        ensures
            res == spec_get_count(self@, name@),
    {
        let mut i: usize = 0;
        proof {
            assert(self@.subrange(0, self@.len() as int) =~= self@);
        }
        while i < self.entries.len()
            invariant
                i <= self.entries.len(),
                spec_get_count(self@, name@) == spec_get_count(
                    self@.subrange(i as int, self@.len() as int),
                    name@,
                ),
            decreases self.entries.len() - i,
        {
            proof {
                assert(self@.subrange(i as int, self@.len() as int).drop_first() =~= self@.subrange(
                    i as int + 1,
                    self@.len() as int,
                ));
                assert(self@.subrange(i as int, self@.len() as int)[0] == self@[i as int]);
            }
            if self.entries[i].0.eq(name) {
                return self.entries[i].1;
            }
            i = i + 1;
        }
        proof {
            assert(self@.subrange(self@.len() as int, self@.len() as int) =~= Seq::<
                (Seq<char>, u64),
            >::empty());
        }
        0
    }

    /// Records one more observation of `name`.
    pub fn increment(&mut self, name: &String)
        requires
            spec_get_count(old(self)@, name@) < u64::MAX,
        ensures
            final(self)@ == spec_increment(old(self)@, name@),
    {
        let ghost whole = old(self)@;
        let mut i: usize = 0;
        proof {
            assert(whole.subrange(0, whole.len() as int) =~= whole);
            assert(whole.subrange(0, 0) =~= Seq::<(Seq<char>, u64)>::empty());
            assert(whole.subrange(0, 0) + spec_increment(
                whole.subrange(0, whole.len() as int),
                name@,
            ) =~= spec_increment(whole, name@));
        }
        while i < self.entries.len()
            invariant
                i <= self.entries.len(),
                whole == self@,
                whole == old(self)@,
                spec_get_count(whole, name@) < u64::MAX,
                spec_get_count(whole, name@) == spec_get_count(
                    whole.subrange(i as int, whole.len() as int),
                    name@,
                ),
                spec_increment(whole, name@) == whole.subrange(0, i as int) + spec_increment(
                    whole.subrange(i as int, whole.len() as int),
                    name@,
                ),
                forall|j: int| 0 <= j < i ==> #[trigger] whole[j].0 != name@,
            decreases self.entries.len() - i,
        {
            proof {
                assert(whole.subrange(i as int, whole.len() as int).drop_first() =~= whole.subrange(
                    i as int + 1,
                    whole.len() as int,
                ));
                assert(whole.subrange(i as int, whole.len() as int)[0] == whole[i as int]);
            }
            if self.entries[i].0.eq(name) {
                let v = self.entries[i].1;
                self.entries.set(i, (name.clone(), v + 1));
                proof {
                    let sub = whole.subrange(i as int, whole.len() as int);
                    assert(whole[i as int].0 == name@);
                    assert(sub[0] == whole[i as int]);
                    assert(spec_increment(sub, name@) == seq![
                        (sub[0].0, ((sub[0].1 + 1) as u64)),
                    ] + sub.drop_first());
                    assert(self@ =~= whole.subrange(0, i as int) + (seq![
                        (whole[i as int].0, ((whole[i as int].1 + 1) as u64)),
                    ] + whole.subrange(i as int + 1, whole.len() as int)));
                    assert(self@ == spec_increment(whole, name@));
                }
                return ;
            }
            proof {
                assert(whole.subrange(0, i as int + 1) =~= whole.subrange(0, i as int) + seq![
                    whole[i as int],
                ]);
                assert(whole.subrange(0, i as int) + (seq![whole[i as int]] + spec_increment(
                    whole.subrange(i as int + 1, whole.len() as int),
                    name@,
                )) =~= whole.subrange(0, i as int + 1) + spec_increment(
                    whole.subrange(i as int + 1, whole.len() as int),
                    name@,
                ));
            }
            i = i + 1;
        }
        proof {
            assert(whole.subrange(whole.len() as int, whole.len() as int) =~= Seq::<
                (Seq<char>, u64),
            >::empty());
        }
        self.entries.push((name.clone(), 1));
        proof {
            assert(self@ =~= whole.subrange(0, whole.len() as int) + seq![(name@, 1u64)]);
            assert(whole.subrange(0, whole.len() as int) =~= whole);
        }
    }
}

/// The mathematical value of a [`Context`].
pub struct ContextView {
    pub counts: Seq<(Seq<char>, u64)>,
    pub no_feature: u64,
    pub ambiguous: u64,
    pub low_quality: u64,
    pub unmapped: u64,
    pub nonunique: u64,
    pub duplicate: u64,
    pub secondary: u64,
    pub supplementary: u64,
}

impl ContextView {
    /// Every unit the run has accounted: gene counts plus every bookkeeping
    /// counter.
    pub open spec fn total(self) -> int {
        spec_counts_total(self.counts) + self.no_feature + self.ambiguous + self.low_quality
            + self.unmapped + self.nonunique + self.duplicate + self.secondary + self.supplementary
    }

    /// The context holding nothing at all.
    pub open spec fn empty() -> ContextView {
        ContextView {
            counts: Seq::empty(),
            no_feature: 0,
            ambiguous: 0,
            low_quality: 0,
            unmapped: 0,
            nonunique: 0,
            duplicate: 0,
            secondary: 0,
            supplementary: 0,
        }
    }
}

/// The aggregate result of a counting run.
pub struct Context {
    pub counts: Counts,
    pub no_feature: u64,
    pub ambiguous: u64,
    pub low_quality: u64,
    pub unmapped: u64,
    pub nonunique: u64,
    pub duplicate: u64,
    pub secondary: u64,
    pub supplementary: u64,
}

impl View for Context {
    type V = ContextView;

    open spec fn view(&self) -> ContextView {
        ContextView {
            counts: self.counts@,
            no_feature: self.no_feature,
            ambiguous: self.ambiguous,
            low_quality: self.low_quality,
            unmapped: self.unmapped,
            nonunique: self.nonunique,
            duplicate: self.duplicate,
            secondary: self.secondary,
            supplementary: self.supplementary,
        }
    }
}

impl Context {
    pub fn new() -> (c: Context)
        ensures
            c@ == ContextView::empty(),
    {
        let c = Context {
            counts: Counts::new(),
            no_feature: 0,
            ambiguous: 0,
            low_quality: 0,
            unmapped: 0,
            nonunique: 0,
            duplicate: 0,
            secondary: 0,
            supplementary: 0,
        };
        c
    }
}

impl Default for Context {
    /// A fresh context holds nothing at all.
    fn default() -> (c: Context)
        ensures
            c@ == ContextView::empty(),
    {
        Context::new()
    }
}

} // verus!
