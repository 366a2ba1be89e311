//! The shared state container: a registry of named singleton resources.
use vstd::prelude::*;

verus! {

/// Process-wide store of singleton resources, each known by its name.
pub struct World {
    resources: Vec<String>,
}

impl View for World {
    type V = Set<Seq<char>>;

    /// The names of the resources present.
    closed spec fn view(&self) -> Set<Seq<char>> {
        Set::new(|n: Seq<char>| exists|i: int| 0 <= i < self.resources@.len() && #[trigger] self.resources@[i]@ == n)
    }
}

impl World {
    /// An empty store.
    pub fn new() -> (w: World)
        ensures
            w@ == Set::<Seq<char>>::empty(),
    {
        let w = World { resources: Vec::new() };
        assert(w@ =~= Set::<Seq<char>>::empty());
        w
    }

    /// Whether a resource of this name is present.
    pub fn contains(&self, name: &str) -> (r: bool)
        ensures
            r == self@.contains(name@),
    {
        let target = name.to_owned();
        let mut i: usize = 0;
        while i < self.resources.len()
            invariant
                i <= self.resources@.len(),
                target@ == name@,
                forall|j: int| 0 <= j < i ==> #[trigger] self.resources@[j]@ != name@,
            decreases self.resources@.len() - i,
        {
            if self.resources[i] == target {
                assert(self@.contains(name@) ) by {
                    assert(self.resources@[i as int]@ == name@);
                }
                return true;
            }
            i = i + 1;
        }
        false
    }

    /// Makes a resource of this name present; one already present stays as it is.
    pub fn insert(&mut self, name: &str)
        ensures
            final(self)@ == old(self)@.insert(name@),
    {
        if !self.contains(name) {
            let ghost before = self.resources@;
            self.resources.push(name.to_owned());
            assert forall|n: Seq<char>| self@.contains(n) <==> old(self)@.insert(name@).contains(n) by {
                if n == name@ {
                    assert(self.resources@[before.len() as int]@ == n);
                } else if old(self)@.contains(n) {
                    let j = choose|j: int| 0 <= j < before.len() && #[trigger] before[j]@ == n;
                    assert(self.resources@[j]@ == n);
                }
            }
            assert(self@ =~= old(self)@.insert(name@));
        } else {
            assert(self@ =~= old(self)@.insert(name@));
        }
    }
}

} // verus!
