//! The code table: an immutable mapping from a character to its ordering
//! code, built once from external records and consulted by every comparison.

use vstd::prelude::*;

verus! {

/// One record of the code table: a character and its ordering code.
pub struct CodeEntry {
    pub word: char,
    pub code: Vec<char>,
}

/// The sentinel code used for any character that has no entry in the table.
/// It takes part in comparisons exactly like a stored code.
pub open spec fn default_code() -> Seq<char> {
    seq!['6', '6', '6', '6', '6']
}

/// The code stored for `c` among `entries`, scanning from the most recent
/// record backwards: on duplicate characters the last record wins.
pub open spec fn spec_lookup(entries: Seq<CodeEntry>, c: char) -> Option<Seq<char>>
    decreases entries.len(),
{
    if entries.len() == 0 {
        None
    } else if entries.last().word == c {
        Some(entries.last().code@)
    } else {
        spec_lookup(entries.drop_last(), c)
    }
}

/// Mapping from a single character to its ordering code. Records are added
/// once at start-up; afterwards the table is only read.
pub struct CodeTable {
    entries: Vec<CodeEntry>,
}

impl CodeTable {
    /// The records in insertion order.
    pub closed spec fn spec_entries(self) -> Seq<CodeEntry> {
        self.entries@
    }

    /// The code that comparisons use for `c`: the stored code when a record
    /// for `c` exists, else the default sentinel.
    pub open spec fn spec_code(self, c: char) -> Seq<char> {
        match spec_lookup(self.spec_entries(), c) {
            Some(code) => code,
            None => default_code(),
        }
    }

    /// An empty table: every character falls back to the default code.
    pub fn new() -> (t: CodeTable)
        ensures
            forall|c: char| t.spec_code(c) == default_code(),
    {
        let t = CodeTable { entries: Vec::new() };
        proof {
            assert(forall|c: char| spec_lookup(t.entries@, c) is None);
        }
        t
    }

    /// Add one record. A record added later for the same character
    /// overrides the earlier one.
    pub fn insert(&mut self, word: char, code: Vec<char>)
        ensures
            final(self).spec_code(word) == code@,
            forall|c: char| c != word ==> final(self).spec_code(c) == old(self).spec_code(c),
    {
        let ghost prev = self.entries@;
        let ghost codeview = code@;
        self.entries.push(CodeEntry { word, code });
        proof {
            assert(self.entries@.last().word == word);
            assert(self.entries@.last().code@ == codeview);
            assert(self.entries@.drop_last() =~= prev);
        }
    }

    /// The code for `c`: the stored one if present, else the default.
    pub fn code_of(&self, c: char) -> (r: Vec<char>)
        ensures
            r@ == self.spec_code(c),
    {
        let mut i: usize = self.entries.len();
        proof {
            assert(self.entries@.take(i as int) =~= self.entries@);
        }
        while i > 0
            invariant
                i <= self.entries@.len(),
                spec_lookup(self.entries@, c) == spec_lookup(self.entries@.take(i as int), c),
            decreases i,
        {
            i = i - 1;
            let e = &self.entries[i];
            proof {
                assert(self.entries@.take(i as int + 1).last() == self.entries@[i as int]);
                assert(self.entries@.take(i as int + 1).drop_last() =~= self.entries@.take(
                    i as int,
                ));
            }
            if e.word == c {
                let r = e.code.clone();
                proof {
                    assert(forall|k: int|
                        0 <= k < e.code@.len() ==> r@[k] == #[trigger] e.code@[k]);
                    assert(r@ =~= e.code@);
                }
                return r;
            }
        }
        proof {
            assert(self.entries@.take(0) =~= Seq::<CodeEntry>::empty());
        }
        let mut d: Vec<char> = Vec::new();
        d.push('6');
        d.push('6');
        d.push('6');
        d.push('6');
        d.push('6');
        proof {
            assert(d@ =~= default_code());
        }
        d
    }
}

} // verus!
