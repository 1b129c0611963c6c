use vstd::prelude::*;
use crate::pattern::{Pattern, Record};

verus! {

pub open spec fn names_view(ns: Seq<String>) -> Seq<Seq<char>> {
    ns.map_values(|s: String| s@)
}

/// The text that stands for a wildcarded field.
pub open spec fn wildcard_text() -> Seq<char> {
    "*"@
}

/// The categorical values met so far, each with the id that is its position.
pub struct Vocabulary {
    names: Vec<String>,
}

impl Vocabulary {
    pub closed spec fn names(&self) -> Seq<Seq<char>> {
        names_view(self.names@)
    }

    pub closed spec fn wf(&self) -> bool {
        forall|i: int, j: int| 0 <= i < self.names@.len() && 0 <= j < self.names@.len() && i != j
            ==> (#[trigger] self.names@[i])@ != (#[trigger] self.names@[j])@
    }

    /// A vocabulary that knows no value yet.
    pub fn new() -> (r: Vocabulary)
        ensures
            r.wf(),
            r.names() == Seq::<Seq<char>>::empty(),
    {
        let r = Vocabulary { names: Vec::new() };
        assert(r.names() =~= Seq::<Seq<char>>::empty());
        r
    }

    /// The number of values known.
    pub fn len(&self) -> (r: usize)
        ensures
            r == self.names().len(),
    {
        self.names.len()
    }

    /// The id of `s`, if it is known.
    pub fn lookup(&self, s: &str) -> (r: Option<u64>)
        ensures
            r matches Some(id) ==> id < self.names().len() && self.names()[id as int] == s@,
            r is None ==> !self.names().contains(s@),
    {
        let key = String::from_str(s);
        let mut i: usize = 0;
        while i < self.names.len()
            invariant
                i <= self.names@.len(),
                key@ == s@,
                forall|j: int| 0 <= j < i ==> (#[trigger] self.names()[j]) != s@,
            decreases self.names@.len() - i,
        {
            if self.names[i] == key {
                return Some(i as u64);
            }
            i += 1;
        }
        None
    }

    /// The id of `s`, which is added as a new value when it is not known.
    pub fn intern(&mut self, s: &str) -> (id: u64)
        requires
            old(self).wf(),
            old(self).names().len() < u64::MAX,
        ensures
            final(self).wf(),
            id < final(self).names().len(),
            final(self).names()[id as int] == s@,
            old(self).names().contains(s@) ==> final(self).names() == old(self).names(),
            !old(self).names().contains(s@) ==> final(self).names() == old(self).names().push(s@),
    {
        match self.lookup(s) {
            Some(id) => id,
            None => {
                let id = self.names.len() as u64;
                let ghost n0 = self.names@;
                let owned = String::from_str(s);
                self.names.push(owned);
                proof {
                    assert(self.names@ =~= n0.push(owned));
                    assert(self.names() =~= names_view(n0).push(s@));
                    assert forall|i: int, j: int| 0 <= i < self.names@.len() && 0 <= j < self.names@.len() && i != j
                        implies (#[trigger] self.names@[i])@ != (#[trigger] self.names@[j])@ by {
                        if i < n0.len() && j < n0.len() {
                        } else if i < n0.len() {
                            assert(names_view(n0)[i] == self.names@[i]@);
                        } else {
                            assert(names_view(n0)[j] == self.names@[j]@);
                        }
                    }
                }
                id
            },
        }
    }

    /// The record of ids for `fields`, adding the values not known yet.
    pub fn encode(&mut self, fields: &Vec<String>) -> (r: Record)
        requires
            old(self).wf(),
            old(self).names().len() + fields@.len() < u64::MAX,
        ensures
            final(self).wf(),
            r@.len() == fields@.len(),
            forall|i: int| 0 <= i < r@.len() ==> (#[trigger] r@[i]) < final(self).names().len()
                && final(self).names()[r@[i] as int] == fields@[i]@,
            old(self).names().is_prefix_of(final(self).names()),
    {
        let mut r: Record = Vec::new();
        let mut i: usize = 0;
        while i < fields.len()
            invariant
                i <= fields@.len(),
                self.wf(),
                self.names().len() <= old(self).names().len() + i,
                old(self).names().len() + fields@.len() < u64::MAX,
                old(self).names().is_prefix_of(self.names()),
                r@.len() == i,
                forall|j: int| 0 <= j < i ==> (#[trigger] r@[j]) < self.names().len() && self.names()[r@[j] as int] == fields@[j]@,
            decreases fields@.len() - i,
        {
            let ghost before = self.names();
            let id = self.intern(fields[i].as_str());
            proof {
                assert(before.is_prefix_of(self.names()));
                assert forall|j: int| 0 <= j < i implies (#[trigger] r@[j]) < self.names().len() && self.names()[r@[j] as int] == fields@[j]@ by {
                    assert(before[r@[j] as int] == self.names()[r@[j] as int]);
                }
            }
            r.push(id);
            i += 1;
        }
        r
    }

    /// The text of each field of `p`: the value's name, or `*` where the
    /// field is wildcarded. A field whose id is unknown is refused.
    pub fn render(&self, p: &Pattern) -> (r: Option<Vec<String>>)
        ensures
            r is Some <==> forall|i: int| 0 <= i < p@.len() ==> (#[trigger] p@[i] matches Some(id) ==> id < self.names().len()),
            r matches Some(v) ==> v@.len() == p@.len() && forall|i: int| 0 <= i < p@.len() ==> (#[trigger] v@[i])@ == match p@[i] {
                Some(id) => self.names()[id as int],
                None => wildcard_text(),
            },
    {
        let mut v: Vec<String> = Vec::new();
        let mut i: usize = 0;
        while i < p.len()
            invariant
                i <= p@.len(),
                v@.len() == i,
                forall|j: int| 0 <= j < i ==> (#[trigger] p@[j] matches Some(id) ==> id < self.names().len()),
                forall|j: int| 0 <= j < i ==> (#[trigger] v@[j])@ == match p@[j] {
                    Some(id) => self.names()[id as int],
                    None => wildcard_text(),
                },
            decreases p@.len() - i,
        {
            match p[i] {
                Some(id) => {
                    if id >= self.names.len() as u64 {
                        return None;
                    }
                    v.push(self.names[id as usize].clone());
                },
                None => {
                    v.push(String::from_str("*"));
                },
            }
            i += 1;
        }
        Some(v)
    }
}

} // verus!
