//! The name comparator: orders two names by looking up each character's
//! ordering code, comparing code length before code content, and falling
//! back to whole-string length when every compared position ties.

use crate::segment::spec_split;
use crate::segment::split_parts;
use crate::segment::CompoundSet;
use crate::table::CodeTable;
use core::cmp::Ordering;
use vstd::prelude::*;

verus! {

/// Position-by-position order on two codes of equal length, by the
/// characters' Unicode scalar values.
pub open spec fn spec_lex(a: Seq<char>, b: Seq<char>) -> Ordering
    recommends
        a.len() == b.len(),
    decreases a.len(),
{
    if a.len() == 0 || b.len() == 0 {
        Ordering::Equal
    } else if (a[0] as u32) < (b[0] as u32) {
        Ordering::Less
    } else if (a[0] as u32) > (b[0] as u32) {
        Ordering::Greater
    } else {
        spec_lex(a.drop_first(), b.drop_first())
    }
}

/// Order on two codes: a shorter code sorts before a longer one, whatever
/// their contents; codes of equal length are compared lexicographically.
pub open spec fn spec_cmp_codes(a: Seq<char>, b: Seq<char>) -> Ordering {
    if a.len() < b.len() {
        Ordering::Less
    } else if a.len() > b.len() {
        Ordering::Greater
    } else {
        spec_lex(a, b)
    }
}

/// Compare two codes: by length first, then lexicographically.
pub fn cmp_codes(a: &Vec<char>, b: &Vec<char>) -> (r: Ordering)
    ensures
        r == spec_cmp_codes(a@, b@),
{
    if a.len() < b.len() {
        return Ordering::Less;
    }
    if a.len() > b.len() {
        return Ordering::Greater;
    }
    let mut i: usize = 0;
    proof {
        assert(a@.skip(0) =~= a@);
        assert(b@.skip(0) =~= b@);
    }
    while i < a.len()
        invariant
            a@.len() == b@.len(),
            i <= a@.len(),
            spec_lex(a@, b@) == spec_lex(a@.skip(i as int), b@.skip(i as int)),
        decreases a@.len() - i,
    {
        let x = a[i] as u32;
        let y = b[i] as u32;
        proof {
            assert(a@.skip(i as int)[0] == a@[i as int]);
            assert(b@.skip(i as int)[0] == b@[i as int]);
            assert(a@.skip(i as int).drop_first() =~= a@.skip(i as int + 1));
            assert(b@.skip(i as int).drop_first() =~= b@.skip(i as int + 1));
        }
        if x < y {
            return Ordering::Less;
        }
        if x > y {
            return Ordering::Greater;
        }
        i = i + 1;
    }
    Ordering::Equal
}

/// Order on two character sequences under the code table `dict`: walk both
/// as far as the shorter extends, comparing each position's codes; on the
/// first inequality stop with that answer; when every compared position
/// ties, the shorter whole sequence sorts first, equal lengths tie.
pub open spec fn spec_compare_chars(a: Seq<char>, b: Seq<char>, dict: CodeTable) -> Ordering
    decreases a.len(),
{
    if a.len() == 0 || b.len() == 0 {
        if a.len() < b.len() {
            Ordering::Less
        } else if a.len() > b.len() {
            Ordering::Greater
        } else {
            Ordering::Equal
        }
    } else if spec_cmp_codes(dict.spec_code(a[0]), dict.spec_code(b[0])) != Ordering::Equal {
        spec_cmp_codes(dict.spec_code(a[0]), dict.spec_code(b[0]))
    } else {
        spec_compare_chars(a.drop_first(), b.drop_first(), dict)
    }
}

/// Compare two character sequences by their codes, code length before code
/// content, with whole-sequence length as the final tie-break.
pub fn compare_chars(a: &Vec<char>, b: &Vec<char>, dict: &CodeTable) -> (r: Ordering)
    ensures
        r == spec_compare_chars(a@, b@, *dict),
{
    let mut i: usize = 0;
    proof {
        assert(a@.skip(0) =~= a@);
        assert(b@.skip(0) =~= b@);
    }
    while i < a.len() && i < b.len()
        invariant
            i <= a@.len(),
            i <= b@.len(),
            spec_compare_chars(a@, b@, *dict) == spec_compare_chars(
                a@.skip(i as int),
                b@.skip(i as int),
                *dict,
            ),
        decreases a@.len() - i,
    {
        let code1 = dict.code_of(a[i]);
        let code2 = dict.code_of(b[i]);
        proof {
            assert(a@.skip(i as int)[0] == a@[i as int]);
            assert(b@.skip(i as int)[0] == b@[i as int]);
            assert(a@.skip(i as int).drop_first() =~= a@.skip(i as int + 1));
            assert(b@.skip(i as int).drop_first() =~= b@.skip(i as int + 1));
        }
        match cmp_codes(&code1, &code2) {
            Ordering::Equal => {
                i = i + 1;
            },
            ord => {
                return ord;
            },
        }
    }
    if a.len() < b.len() {
        Ordering::Less
    } else if a.len() > b.len() {
        Ordering::Greater
    } else {
        Ordering::Equal
    }
}

/// Order on two non-empty names: split both into surname and given name,
/// compare the surnames; when the surnames tie, the given names decide.
pub open spec fn spec_compare_names(
    a: Seq<char>,
    b: Seq<char>,
    set: CompoundSet,
    dict: CodeTable,
) -> Ordering
    recommends
        a.len() > 0,
        b.len() > 0,
{
    let sa = spec_split(a, set).0;
    let ga = spec_split(a, set).1;
    let sb = spec_split(b, set).0;
    let gb = spec_split(b, set).1;
    if spec_compare_chars(sa, sb, dict) == Ordering::Equal {
        spec_compare_chars(ga, gb, dict)
    } else {
        spec_compare_chars(sa, sb, dict)
    }
}

/// Compare two non-empty names: surnames first, given names on a tie.
pub fn compare_names(
    a: &Vec<char>,
    b: &Vec<char>,
    compound_surnames_set: &CompoundSet,
    word_dict: &CodeTable,
) -> (r: Ordering)
    requires
        a@.len() > 0,
        b@.len() > 0,
    ensures
        r == spec_compare_names(a@, b@, *compound_surnames_set, *word_dict),
{
    let (surname_a, given_a) = split_parts(a, compound_surnames_set);
    let (surname_b, given_b) = split_parts(b, compound_surnames_set);
    match compare_chars(&surname_a, &surname_b, word_dict) {
        Ordering::Equal => compare_chars(&given_a, &given_b, word_dict),
        ord => ord,
    }
}

/// The opposite of an ordering answer.
pub open spec fn flip_ord(o: Ordering) -> Ordering {
    match o {
        Ordering::Less => Ordering::Greater,
        Ordering::Equal => Ordering::Equal,
        Ordering::Greater => Ordering::Less,
    }
}

pub proof fn lemma_lex_refl(a: Seq<char>)
    ensures
        spec_lex(a, a) == Ordering::Equal,
    decreases a.len(),
{
    if a.len() > 0 {
        lemma_lex_refl(a.drop_first());
    }
}

pub proof fn lemma_lex_eq(a: Seq<char>, b: Seq<char>)
    requires
        a.len() == b.len(),
        spec_lex(a, b) == Ordering::Equal,
    ensures
        a == b,
    decreases a.len(),
{
    if a.len() == 0 {
        assert(a =~= b);
    } else {
        assert((a[0] as u32) == (b[0] as u32));
        vstd::utf8::char_u32_cast(a[0], a[0] as u32);
        vstd::utf8::char_u32_cast(b[0], b[0] as u32);
        assert(a[0] == b[0]);
        lemma_lex_eq(a.drop_first(), b.drop_first());
        assert(forall|i: int| 1 <= i < a.len() ==> a[i] == a.drop_first()[i - 1]);
        assert(forall|i: int| 1 <= i < b.len() ==> b[i] == b.drop_first()[i - 1]);
        assert(a =~= b);
    }
}

pub proof fn lemma_lex_flip(a: Seq<char>, b: Seq<char>)
    requires
        a.len() == b.len(),
    ensures
        spec_lex(b, a) == flip_ord(spec_lex(a, b)),
    decreases a.len(),
{
    if a.len() > 0 {
        lemma_lex_flip(a.drop_first(), b.drop_first());
    }
}

pub proof fn lemma_lex_trans(a: Seq<char>, b: Seq<char>, c: Seq<char>)
    requires
        a.len() == b.len(),
        b.len() == c.len(),
        spec_lex(a, b) == Ordering::Less,
        spec_lex(b, c) == Ordering::Less,
    ensures
        spec_lex(a, c) == Ordering::Less,
    decreases a.len(),
{
    assert(a.len() > 0);
    if (a[0] as u32) == (b[0] as u32) && (b[0] as u32) == (c[0] as u32) {
        lemma_lex_trans(a.drop_first(), b.drop_first(), c.drop_first());
    }
}

pub proof fn lemma_cmp_codes_refl(a: Seq<char>)
    ensures
        spec_cmp_codes(a, a) == Ordering::Equal,
{
    lemma_lex_refl(a);
}

/// Codes that compare `Equal` are the same code: equal length and equal at
/// every position.
pub proof fn lemma_cmp_codes_eq(a: Seq<char>, b: Seq<char>)
    requires
        spec_cmp_codes(a, b) == Ordering::Equal,
    ensures
        a == b,
{
    lemma_lex_eq(a, b);
}

pub proof fn lemma_cmp_codes_flip(a: Seq<char>, b: Seq<char>)
    ensures
        spec_cmp_codes(b, a) == flip_ord(spec_cmp_codes(a, b)),
{
    if a.len() == b.len() {
        lemma_lex_flip(a, b);
    }
}

pub proof fn lemma_cmp_codes_trans(a: Seq<char>, b: Seq<char>, c: Seq<char>)
    requires
        spec_cmp_codes(a, b) == Ordering::Less,
        spec_cmp_codes(b, c) == Ordering::Less,
    ensures
        spec_cmp_codes(a, c) == Ordering::Less,
{
    if a.len() == b.len() && b.len() == c.len() {
        lemma_lex_trans(a, b, c);
    }
}

pub proof fn lemma_compare_chars_refl(a: Seq<char>, dict: CodeTable)
    ensures
        spec_compare_chars(a, a, dict) == Ordering::Equal,
    decreases a.len(),
{
    if a.len() > 0 {
        lemma_cmp_codes_refl(dict.spec_code(a[0]));
        lemma_compare_chars_refl(a.drop_first(), dict);
    }
}

/// Swapping the two sides of the character comparison flips its answer.
pub proof fn lemma_compare_chars_flip(a: Seq<char>, b: Seq<char>, dict: CodeTable)
    ensures
        spec_compare_chars(b, a, dict) == flip_ord(spec_compare_chars(a, b, dict)),
    decreases a.len() + b.len(),
{
    if a.len() > 0 && b.len() > 0 {
        lemma_cmp_codes_flip(dict.spec_code(a[0]), dict.spec_code(b[0]));
        if spec_cmp_codes(dict.spec_code(a[0]), dict.spec_code(b[0])) == Ordering::Equal {
            lemma_compare_chars_flip(a.drop_first(), b.drop_first(), dict);
        }
    }
}

/// The character comparison is transitive: in particular `Equal` chains
/// with `Equal`, and a `Less` anywhere in a non-`Greater` chain gives
/// `Less`.
pub proof fn lemma_compare_chars_trans(a: Seq<char>, b: Seq<char>, c: Seq<char>, dict: CodeTable)
    requires
        spec_compare_chars(a, b, dict) != Ordering::Greater,
        spec_compare_chars(b, c, dict) != Ordering::Greater,
    ensures
        spec_compare_chars(a, c, dict) != Ordering::Greater,
        spec_compare_chars(a, b, dict) == Ordering::Equal && spec_compare_chars(b, c, dict)
            == Ordering::Equal ==> spec_compare_chars(a, c, dict) == Ordering::Equal,
        spec_compare_chars(a, b, dict) == Ordering::Less || spec_compare_chars(b, c, dict)
            == Ordering::Less ==> spec_compare_chars(a, c, dict) == Ordering::Less,
    decreases a.len() + b.len() + c.len(),
{
    if a.len() == 0 {
        // `a` compares at most `Equal` with anything; `Less` whenever `c`
        // is non-empty, and then some of `b`, `c` is non-empty as well.
    } else {
        assert(b.len() > 0);
        assert(c.len() > 0);
        let ka = dict.spec_code(a[0]);
        let kb = dict.spec_code(b[0]);
        let kc = dict.spec_code(c[0]);
        let hab = spec_cmp_codes(ka, kb);
        let hbc = spec_cmp_codes(kb, kc);
        assert(hab != Ordering::Greater);
        assert(hbc != Ordering::Greater);
        if hab == Ordering::Equal && hbc == Ordering::Equal {
            lemma_cmp_codes_eq(ka, kb);
            lemma_cmp_codes_eq(kb, kc);
            lemma_cmp_codes_refl(ka);
            lemma_compare_chars_trans(a.drop_first(), b.drop_first(), c.drop_first(), dict);
        } else if hab == Ordering::Less && hbc == Ordering::Less {
            lemma_cmp_codes_trans(ka, kb, kc);
        } else if hab == Ordering::Less {
            lemma_cmp_codes_eq(kb, kc);
        } else {
            lemma_cmp_codes_eq(ka, kb);
        }
    }
}

/// Swapping the two sides of the name comparison flips its answer.
pub proof fn lemma_compare_names_flip(a: Seq<char>, b: Seq<char>, set: CompoundSet, dict: CodeTable)
    ensures
        spec_compare_names(b, a, set, dict) == flip_ord(spec_compare_names(a, b, set, dict)),
{
    let sa = spec_split(a, set).0;
    let ga = spec_split(a, set).1;
    let sb = spec_split(b, set).0;
    let gb = spec_split(b, set).1;
    lemma_compare_chars_flip(sa, sb, dict);
    lemma_compare_chars_flip(ga, gb, dict);
}

/// The name comparison is transitive, in the same three senses as the
/// character comparison.
pub proof fn lemma_compare_names_trans(
    a: Seq<char>,
    b: Seq<char>,
    c: Seq<char>,
    set: CompoundSet,
    dict: CodeTable,
)
    requires
        spec_compare_names(a, b, set, dict) != Ordering::Greater,
        spec_compare_names(b, c, set, dict) != Ordering::Greater,
    ensures
        spec_compare_names(a, c, set, dict) != Ordering::Greater,
        spec_compare_names(a, b, set, dict) == Ordering::Equal && spec_compare_names(
            b,
            c,
            set,
            dict,
        ) == Ordering::Equal ==> spec_compare_names(a, c, set, dict) == Ordering::Equal,
        spec_compare_names(a, b, set, dict) == Ordering::Less || spec_compare_names(
            b,
            c,
            set,
            dict,
        ) == Ordering::Less ==> spec_compare_names(a, c, set, dict) == Ordering::Less,
{
    let sa = spec_split(a, set).0;
    let ga = spec_split(a, set).1;
    let sb = spec_split(b, set).0;
    let gb = spec_split(b, set).1;
    let sc = spec_split(c, set).0;
    let gc = spec_split(c, set).1;
    lemma_compare_chars_trans(sa, sb, sc, dict);
    if spec_compare_chars(sa, sb, dict) == Ordering::Equal && spec_compare_chars(sb, sc, dict)
        == Ordering::Equal {
        lemma_compare_chars_trans(ga, gb, gc, dict);
    }
}

/// A shorter code always sorts before a longer one, whatever either code
/// holds.
pub proof fn lemma_shorter_code_first(a: Seq<char>, b: Seq<char>)
    requires
        a.len() < b.len(),
    ensures
        spec_cmp_codes(a, b) == Ordering::Less,
{
}

/// When two names share an identical surname under the segmenter, their
/// order is fully determined by the given-name comparison.
pub proof fn lemma_same_surname_given_decides(
    a: Seq<char>,
    b: Seq<char>,
    set: CompoundSet,
    dict: CodeTable,
)
    requires
        spec_split(a, set).0 == spec_split(b, set).0,
    ensures
        spec_compare_names(a, b, set, dict) == spec_compare_chars(
            spec_split(a, set).1,
            spec_split(b, set).1,
            dict,
        ),
{
    lemma_compare_chars_refl(spec_split(a, set).0, dict);
}

} // verus!
