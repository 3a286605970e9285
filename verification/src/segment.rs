//! Surname segmentation: splitting a name into its surname and given name,
//! recognising two-character compound surnames from an allow-list.

use crate::EmptyNameError;
use vstd::prelude::*;

verus! {

/// The allow-list of two-character compound surnames, each stored as its
/// pair of characters. Loaded once; only read afterwards.
pub struct CompoundSet {
    pairs: Vec<(char, char)>,
}

impl CompoundSet {
    /// Whether the two-character string `c0 c1` is a known compound surname.
    pub closed spec fn spec_has(self, c0: char, c1: char) -> bool {
        self.pairs@.contains((c0, c1))
    }

    /// An empty allow-list: no name has a compound surname.
    pub fn new() -> (s: CompoundSet)
        ensures
            forall|c0: char, c1: char| !s.spec_has(c0, c1),
    {
        CompoundSet { pairs: Vec::new() }
    }

    /// Add one compound surname, given as its two characters.
    pub fn insert(&mut self, c0: char, c1: char)
        ensures
            forall|d0: char, d1: char|
                final(self).spec_has(d0, d1) <==> (old(self).spec_has(d0, d1) || (d0 == c0 && d1
                    == c1)),
    {
        let ghost prev = self.pairs@;
        self.pairs.push((c0, c1));
        proof {
            let cur = self.pairs@;
            assert(cur[prev.len() as int] == (c0, c1));
            assert forall|d0: char, d1: char|
                cur.contains((d0, d1)) implies prev.contains((d0, d1)) || (d0 == c0 && d1
                == c1) by {
                let i: int = choose|i: int| 0 <= i < cur.len() && cur[i] == (d0, d1);
                if i < prev.len() {
                    assert(prev[i] == (d0, d1));
                }
            }
            assert forall|d0: char, d1: char|
                prev.contains((d0, d1)) implies cur.contains((d0, d1)) by {
                let i: int = choose|i: int| 0 <= i < prev.len() && prev[i] == (d0, d1);
                assert(cur[i] == (d0, d1));
            }
        }
    }

    /// Whether the pair `c0 c1` is in the allow-list.
    pub fn contains(&self, c0: char, c1: char) -> (r: bool)
        ensures
            r == self.spec_has(c0, c1),
    {
        let mut i: usize = 0;
        while i < self.pairs.len()
            invariant
                i <= self.pairs@.len(),
                forall|k: int| 0 <= k < i ==> self.pairs@[k] != (c0, c1),
            decreases self.pairs@.len() - i,
        {
            let p = self.pairs[i];
            if p.0 == c0 && p.1 == c1 {
                proof {
                    assert(self.pairs@[i as int] == (c0, c1));
                }
                return true;
            }
            i = i + 1;
        }
        false
    }
}

/// The split of a name into (surname, given name): the two-character prefix
/// when it is a listed compound surname, else the first character alone; the
/// rest is the given name. Meaningful only for a non-empty name.
pub open spec fn spec_split(name: Seq<char>, set: CompoundSet) -> (Seq<char>, Seq<char>)
    recommends
        name.len() > 0,
{
    if name.len() >= 2 && set.spec_has(name[0], name[1]) {
        (name.take(2), name.skip(2))
    } else {
        (name.take(1), name.skip(1))
    }
}

/// The characters of `name` from position `from` on.
fn suffix_from(name: &Vec<char>, from: usize) -> (r: Vec<char>)
    requires
        from <= name@.len(),
    ensures
        r@ == name@.skip(from as int),
{
    let mut r: Vec<char> = Vec::new();
    let mut i: usize = from;
    while i < name.len()
        invariant
            from <= i <= name@.len(),
            r@ == name@.subrange(from as int, i as int),
        decreases name@.len() - i,
    {
        r.push(name[i]);
        i = i + 1;
        proof {
            assert(r@ =~= name@.subrange(from as int, i as int));
        }
    }
    proof {
        assert(r@ =~= name@.skip(from as int));
    }
    r
}

/// Split a non-empty name into its surname and given name.
pub fn split_parts(name: &Vec<char>, set: &CompoundSet) -> (sg: (Vec<char>, Vec<char>))
    requires
        name@.len() > 0,
    ensures
        (sg.0@, sg.1@) == spec_split(name@, *set),
{
    if name.len() >= 2 && set.contains(name[0], name[1]) {
        let mut surname: Vec<char> = Vec::new();
        surname.push(name[0]);
        surname.push(name[1]);
        let given = suffix_from(name, 2);
        proof {
            assert(surname@ =~= name@.take(2));
        }
        (surname, given)
    } else {
        let mut surname: Vec<char> = Vec::new();
        surname.push(name[0]);
        let given = suffix_from(name, 1);
        proof {
            assert(surname@ =~= name@.take(1));
        }
        (surname, given)
    }
}

/// Split a name into its surname and given name; an empty name is rejected
/// with [`EmptyNameError`] instead of being split.
pub fn split_name(name: &Vec<char>, compound_surnames_set: &CompoundSet) -> (r: Result<
    (Vec<char>, Vec<char>),
    EmptyNameError,
>)
    ensures
        r is Ok <==> name@.len() > 0,
        r is Ok ==> ((r->Ok_0.0@, r->Ok_0.1@) == spec_split(name@, *compound_surnames_set)),
{
    if name.len() == 0 {
        Err(EmptyNameError)
    } else {
        Ok(split_parts(name, compound_surnames_set))
    }
}

/// A single-character name always splits into (that character, empty given
/// name), whatever the compound-surname allow-list holds: the two-character
/// prefix cannot be formed, so the compound check is skipped.
pub proof fn lemma_split_single_char(name: Seq<char>, set: CompoundSet)
    requires
        name.len() == 1,
    ensures
        spec_split(name, set).0 == name,
        spec_split(name, set).1 == Seq::<char>::empty(),
{
    assert(name.take(1) =~= name);
    assert(name.skip(1) =~= Seq::<char>::empty());
}

} // verus!
