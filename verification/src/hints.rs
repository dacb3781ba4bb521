//! Hints shown after the player fails a scenario.
use vstd::prelude::*;

verus! {

/// Hints shown after the player fails a scenario, each at most once.
pub struct Hints {
    hints: Vec<String>,
}

impl Hints {
    /// The hints, in the order they were added.
    pub closed spec fn view(&self) -> Seq<Seq<char>> {
        self.hints@.map_values(|h: String| h@)
    }

    /// No hint occurs twice.
    pub open spec fn wf(&self) -> bool {
        self.view().no_duplicates()
    }

    /// No hints.
    pub fn new() -> (hints: Hints)
        ensures
            hints.view() == Seq::<Seq<char>>::empty(),
            hints.wf(),
    {
        let hints = Hints { hints: Vec::new() };
        proof {
            assert(hints.view() =~= Seq::<Seq<char>>::empty());
        }
        hints
    }

    /// Adds a single hint, unless it is there already.
    pub fn push(&mut self, hint: String)
        requires
            old(self).wf(),
        ensures
            final(self).wf(),
            old(self).view().contains(hint@) ==> final(self).view() == old(self).view(),
            !old(self).view().contains(hint@) ==> final(self).view() == old(self).view().push(hint@),
    {
        let mut i: usize = 0;
        let ghost v = self.view();
        while i < self.hints.len()
            invariant
                i <= self.hints@.len(),
                v == self.view(),
                v == old(self).view(),
                self.wf(),
                v.len() == self.hints@.len(),
                forall|j: int| 0 <= j < i ==> v[j] != hint@,
            decreases self.hints@.len() - i,
        {
            if self.hints[i] == hint {
                proof {
                    assert(v[i as int] == hint@);
                    assert(v.contains(hint@));
                }
                return;
            }
            i += 1;
        }
        self.hints.push(hint);
        proof {
            assert(self.view() =~= v.push(hint@));
            assert(!v.contains(hint@));
        }
    }

    /// All hints, in the order they were added.
    pub fn iter<'a>(&'a self) -> (all: Vec<&'a str>)
        ensures
            all@.len() == self.view().len(),
            forall|i: int| 0 <= i < all@.len() ==> (#[trigger] all@[i])@ == self.view()[i],
    {
        let mut all: Vec<&'a str> = Vec::new();
        let mut i: usize = 0;
        while i < self.hints.len()
            invariant
                i <= self.hints@.len(),
                all@.len() == i,
                self.view().len() == self.hints@.len(),
                forall|j: int| 0 <= j < i ==> (#[trigger] all@[j])@ == self.view()[j],
            decreases self.hints@.len() - i,
        {
            all.push(self.hints[i].as_str());
            i += 1;
        }
        all
    }

    /// Number of hints.
    pub fn len(&self) -> (n: usize)
        ensures
            n == self.view().len(),
    {
        self.hints.len()
    }

    /// The hint at position `i`.
    pub fn get(&self, i: usize) -> (hint: &String)
        requires
            i < self.view().len(),
        ensures
            hint@ == self.view()[i as int],
    {
        &self.hints[i]
    }
}

} // verus!
