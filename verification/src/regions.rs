//! The regions that players have come from.

use vstd::hash_map::StringHashMap;
use vstd::prelude::*;

verus! {

/// Every region seen so far, numbered from zero in the order of appearance.
pub struct RegionTable {
    names: Vec<String>,
    numbers: StringHashMap<usize>,
}

impl View for RegionTable {
    type V = Seq<Seq<char>>;

    /// The names, each at its number.
    closed spec fn view(&self) -> Seq<Seq<char>> {
        self.names@.map_values(|name: String| name@)
    }
}

impl RegionTable {
    /// The two sides of the table agree.
    pub closed spec fn wf(self) -> bool {
        &&& forall|i: int|
            0 <= i < self@.len() ==> self.numbers@.contains_key(#[trigger] self@[i])
                && self.numbers@[self@[i]] == i
        &&& forall|name: Seq<char>| #[trigger]
            self.numbers@.contains_key(name) ==> self.numbers@[name] < self@.len()
                && self@[self.numbers@[name] as int] == name
    }

    /// No region has two numbers, and every number fits an index.
    pub proof fn lemma_distinct(self)
        requires
            self.wf(),
        ensures
            self@.no_duplicates(),
            self@.len() <= usize::MAX,
    {
        assert(self@.len() == self.names.len());
        assert forall|i: int, j: int| 0 <= i < self@.len() && 0 <= j < self@.len() && i != j implies self@[i]
            != self@[j] by {
            assert(self.numbers@[self@[i]] == i);
            assert(self.numbers@[self@[j]] == j);
        }
    }

    /// A table without regions.
    pub fn new() -> (table: Self)
        ensures
            table.wf(),
            table@ == Seq::<Seq<char>>::empty(),
    {
        let table = RegionTable { names: Vec::new(), numbers: StringHashMap::new() };
        assert(table@ =~= Seq::empty());
        table
    }

    /// How many regions there are.
    pub fn len(&self) -> (n: usize)
        ensures
            n == self@.len(),
    {
        self.names.len()
    }

    /// The number of a region.
    pub fn find(&self, name: &str) -> (number: Option<usize>)
        requires
            self.wf(),
        ensures
            match number {
                Some(i) => i < self@.len() && self@[i as int] == name@,
                None => !self@.contains(name@),
            },
    {
        match self.numbers.get(name) {
            Some(number) => Some(*number),
            None => None,
        }
    }

    /// The name behind a number.
    pub fn name(&self, number: usize) -> (name: &str)
        requires
            number < self@.len(),
        ensures
            name@ == self@[number as int],
    {
        self.names[number].as_str()
    }

    /// Adds a region that is not in the table, and returns its number.
    pub fn add(&mut self, name: &str) -> (number: usize)
        requires
            old(self).wf(),
            !old(self)@.contains(name@),
        ensures
            final(self).wf(),
            final(self)@ == old(self)@.push(name@),
            number == old(self)@.len(),
    {
        let number: usize = self.names.len();
        self.names.push(name.to_owned());
        self.numbers.insert(name.to_owned(), number);
        proof {
            assert(self@ =~= old(self)@.push(name@));
            assert forall|i: int| 0 <= i < self@.len() implies self.numbers@.contains_key(
                #[trigger] self@[i],
            ) && self.numbers@[self@[i]] == i by {
                if i < old(self)@.len() {
                    assert(old(self)@[i] == self@[i]);
                }
            }
        }
        number
    }

    /// The names of all regions.
    pub fn snapshot(&self) -> (names: Vec<String>)
        ensures
            names@.map_values(|name: String| name@) == self@,
    {
        let mut names: Vec<String> = Vec::new();
        for i in 0..self.names.len()
            invariant
                names@ =~= self.names@.take(i as int),
        {
            names.push(self.names[i].clone());
        }
        assert(names@ =~= self.names@);
        names
    }
}

} // verus!
