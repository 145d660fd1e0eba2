use vstd::prelude::*;
use crate::assoc::{distinct_keys, entries_map, has_key, lemma_entries_map_keys, lemma_entries_map_push, lemma_entries_map_update, lemma_entries_map_value, position};

verus! {

/// Where a dependency is to be taken from instead of its declared source.
#[derive(Clone, Debug, PartialEq, Eq)]
pub enum Replacement {
    /// A version-control URL, given by the user.
    Remote(String),
    /// The path of a patched copy inside the working directory.
    Local(String),
}

/// The mathematical value of a [`Replacement`].
pub ghost enum Source {
    Remote(Seq<char>),
    Local(Seq<char>),
}

impl View for Replacement {
    type V = Source;

    open spec fn view(&self) -> Source {
        match self {
            Replacement::Remote(url) => Source::Remote(url@),
            Replacement::Local(path) => Source::Local(path@),
        }
    }
}

impl Replacement {
    /// A copy of the replacement.
    pub fn duplicate(&self) -> (copy: Replacement)
        ensures
            copy@ == self@,
    {
        match self {
            Replacement::Remote(url) => Replacement::Remote(url.clone()),
            Replacement::Local(path) => Replacement::Local(path.clone()),
        }
    }
}

/// The replacements to apply to one manifest, by dependency name.
#[derive(Clone, Debug, PartialEq, Eq)]
pub struct Substitutions {
    pub entries: Vec<(String, Replacement)>,
}

impl View for Substitutions {
    type V = Map<Seq<char>, Source>;

    open spec fn view(&self) -> Map<Seq<char>, Source> {
        entries_map(self.pairs())
    }
}

impl Substitutions {
    /// The entries as pairs of mathematical values, in order.
    pub open spec fn pairs(&self) -> Seq<(Seq<char>, Source)> {
        self.entries@.map_values(|e: (String, Replacement)| (e.0@, e.1@))
    }

    /// No name has two entries.
    pub open spec fn wf(&self) -> bool {
        distinct_keys(self.pairs())
    }

    /// The empty mapping.
    pub fn new() -> (subs: Substitutions)
        ensures
            subs.wf(),
            subs@ == Map::<Seq<char>, Source>::empty(),
            subs.entries@.len() == 0,
    {
        let subs = Substitutions { entries: Vec::new() };
        assert(subs.pairs() =~= Seq::empty());
        subs
    }

    /// Maps `name` to `replacement`; an earlier entry for the name is
    /// replaced.
    pub fn insert(&mut self, name: String, replacement: Replacement)
        requires
            old(self).wf(),
        ensures
            final(self).wf(),
            final(self)@ == old(self)@.insert(name@, replacement@),
    {
        let ghost before = self.pairs();
        match position(&self.entries, name.as_str()) {
            Some(i) => {
                proof {
                    lemma_entries_map_update(before, i as int, replacement@);
                }
                self.entries.set(i, (name, replacement));
                assert(self.pairs() =~= before.update(i as int, (name@, replacement@)));
            },
            None => {
                proof {
                    lemma_entries_map_push(before, name@, replacement@);
                    assert(!has_key(before, name@)) by {
                        if has_key(before, name@) {
                            let i = choose|i: int|
                                0 <= i < before.len() && #[trigger] before[i].0 == name@;
                            assert(self.entries@[i].0@ == name@);
                        }
                    }
                }
                self.entries.push((name, replacement));
                assert(self.pairs() =~= before.push((name@, replacement@)));
            },
        }
    }

    /// The replacement for `name`, if there is one.
    pub fn get(&self, name: &str) -> (found: Option<&Replacement>)
        requires
            self.wf(),
        ensures
            match found {
                Some(r) => self@.contains_key(name@) && self@[name@] == r@,
                None => !self@.contains_key(name@),
            },
    {
        proof {
            lemma_entries_map_keys(self.pairs(), name@);
        }
        match position(&self.entries, name) {
            Some(i) => {
                proof {
                    lemma_entries_map_value(self.pairs(), i as int);
                }
                Some(&self.entries[i].1)
            },
            None => {
                assert(!has_key(self.pairs(), name@)) by {
                    if has_key(self.pairs(), name@) {
                        let i = choose|i: int|
                            0 <= i < self.pairs().len() && #[trigger] self.pairs()[i].0 == name@;
                        assert(self.entries@[i].0@ == name@);
                    }
                }
                None
            },
        }
    }

    /// Whether no name is mapped.
    pub fn is_empty(&self) -> (empty: bool)
        ensures
            empty == (self@ == Map::<Seq<char>, Source>::empty()),
            empty == (self.entries@.len() == 0),
    {
        proof {
            if self.entries@.len() > 0 {
                let last = self.pairs().last();
                assert(self@.contains_key(last.0));
            } else {
                assert(self.pairs() =~= Seq::empty());
            }
        }
        self.entries.len() == 0
    }

    /// The number of names that are mapped.
    pub fn len(&self) -> (count: usize)
        ensures
            count == self.entries@.len(),
    {
        self.entries.len()
    }
}

} // verus!
