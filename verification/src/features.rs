//! The feature index: per reference sequence, the annotated gene intervals.

use vstd::prelude::*;
use crate::strand::Strand;

verus! {

/// One annotated interval: a half-open `[start, end)` span of 1-based
/// reference coordinates, the gene it belongs to, and the gene's strand.
pub struct FeatureEntry {
    pub start: u64,
    pub end: u64,
    pub name: String,
    pub strand: Strand,
}

/// The mathematical value of a feature entry.
pub struct FeatureEntryView {
    pub start: u64,
    pub end: u64,
    pub name: Seq<char>,
    pub strand: Strand,
}

impl View for FeatureEntry {
    type V = FeatureEntryView;

    open spec fn view(&self) -> FeatureEntryView {
        FeatureEntryView {
            start: self.start,
            end: self.end,
            name: self.name@,
            strand: self.strand,
        }
    }
}

/// Whether an entry's half-open span meets the half-open query `[lo, hi)`.
pub open spec fn overlaps(e: FeatureEntryView, lo: int, hi: int) -> bool {
    (e.start as int) < hi && lo < (e.end as int)
}

/// The annotated intervals of one reference sequence.
pub struct FeatureTree {
    pub entries: Vec<FeatureEntry>,
}

impl View for FeatureTree {
    type V = Seq<FeatureEntryView>;

    open spec fn view(&self) -> Seq<FeatureEntryView> {
        self.entries@.map_values(|e: FeatureEntry| e@)
    }
}

impl FeatureTree {
    pub fn new() -> (t: FeatureTree)
        ensures
            t@ == Seq::<FeatureEntryView>::empty(),
    {
        let t = FeatureTree { entries: Vec::new() };
        proof {
            assert(t@ =~= Seq::<FeatureEntryView>::empty());
        }
        t
    }

    pub fn insert(&mut self, entry: FeatureEntry)
        ensures
            final(self)@ == old(self)@.push(entry@),
    {
        let ghost before = self.entries@;
        self.entries.push(entry);
        proof {
            assert(self@ =~= before.map_values(|e: FeatureEntry| e@).push(self.entries@.last()@));
        }
    }
}

/// What looking a name up in the feature index yields: the first tree
/// recorded under that name, if any.
pub open spec fn spec_find_tree(
    refs: Seq<(Seq<char>, Seq<FeatureEntryView>)>,
    name: Seq<char>,
) -> Option<Seq<FeatureEntryView>>
    decreases refs.len(),
{
    if refs.len() == 0 {
        None
    } else if refs[0].0 == name {
        Some(refs[0].1)
    } else {
        spec_find_tree(refs.drop_first(), name)
    }
}

/// The feature index: for each reference sequence name, its annotated
/// intervals.
pub struct Features {
    pub refs: Vec<(String, FeatureTree)>,
}

impl View for Features {
    type V = Seq<(Seq<char>, Seq<FeatureEntryView>)>;

    open spec fn view(&self) -> Seq<(Seq<char>, Seq<FeatureEntryView>)> {
        self.refs@.map_values(|p: (String, FeatureTree)| (p.0@, p.1@))
    }
}

impl Features {
    pub fn new() -> (f: Features)
        ensures
            f@ == Seq::<(Seq<char>, Seq<FeatureEntryView>)>::empty(),
    {
        let f = Features { refs: Vec::new() };
        proof {
            assert(f@ =~= Seq::<(Seq<char>, Seq<FeatureEntryView>)>::empty());
        }
        f
    }

    pub fn insert(&mut self, name: String, tree: FeatureTree)
        ensures
            final(self)@ == old(self)@.push((name@, tree@)),
    {
        let ghost before = self@;
        self.refs.push((name, tree));
        proof {
            assert(self@ =~= before.push((self.refs@.last().0@, self.refs@.last().1@)));
        }
    }

    /// The tree recorded under `name`, if any.
    pub fn get<'a>(&'a self, name: &String) -> (res: Option<&'a FeatureTree>)
        ensures
            match res {
                Some(t) => spec_find_tree(self@, name@) == Some(t@),
                None => spec_find_tree(self@, name@) is None,
            },
    {
        let mut i: usize = 0;
        proof {
            assert(self@.subrange(0, self@.len() as int) =~= self@);
        }
        while i < self.refs.len()
            invariant
                i <= self.refs.len(),
                spec_find_tree(self@, name@) == spec_find_tree(
                    self@.subrange(i as int, self@.len() as int),
                    name@,
                ),
                forall|j: int| 0 <= j < i ==> #[trigger] self@[j].0 != name@,
            decreases self.refs.len() - i,
        {
            proof {
                assert(self@.subrange(i as int, self@.len() as int).drop_first() =~= self@.subrange(
                    i as int + 1,
                    self@.len() as int,
                ));
                assert(self@.subrange(i as int, self@.len() as int)[0] == self@[i as int]);
            }
            if self.refs[i].0.eq(name) {
                return Some(&self.refs[i].1);
            }
            i = i + 1;
        }
        proof {
            assert(self@.subrange(self@.len() as int, self@.len() as int) =~= Seq::<
                (Seq<char>, Seq<FeatureEntryView>),
            >::empty());
        }
        None
    }
}

} // verus!
