//! The sort driver: reverse the input once, then sort it stably with the
//! name comparator. Reversing first means that among names the comparator
//! ranks as fully equal, the later-listed input name comes out earlier.

use crate::compare::compare_names;
use crate::compare::lemma_compare_names_flip;
use crate::compare::lemma_compare_names_trans;
use crate::compare::spec_compare_names;
use crate::segment::CompoundSet;
use crate::table::CodeTable;
use crate::EmptyNameError;
use core::cmp::Ordering;
use vstd::prelude::*;

verus! {

/// The character sequences of a sequence of names.
pub open spec fn views_of(s: Seq<Vec<char>>) -> Seq<Seq<char>> {
    Seq::new(s.len(), |i: int| s[i]@)
}

/// `a` sorts at or before `b`.
pub open spec fn spec_le(a: Seq<char>, b: Seq<char>, set: CompoundSet, dict: CodeTable) -> bool {
    spec_compare_names(a, b, set, dict) != Ordering::Greater
}

/// Every pair of positions is in order.
pub open spec fn spec_sorted(s: Seq<Seq<char>>, set: CompoundSet, dict: CodeTable) -> bool {
    forall|i: int, j: int| 0 <= i < j < s.len() ==> spec_le(s[i], s[j], set, dict)
}

/// Insertion of `x` into `s`: `x` goes right before the first element that
/// compares `Greater` to it, so among ties the element already in place
/// stays in front.
pub open spec fn spec_insert(
    x: Seq<char>,
    s: Seq<Seq<char>>,
    set: CompoundSet,
    dict: CodeTable,
) -> Seq<Seq<char>>
    decreases s.len(),
{
    if s.len() == 0 {
        seq![x]
    } else if spec_compare_names(s[0], x, set, dict) == Ordering::Greater {
        seq![x] + s
    } else {
        seq![s[0]] + spec_insert(x, s.drop_first(), set, dict)
    }
}

/// Stable insertion sort: elements are inserted in input order, so two
/// elements the comparator ties keep their relative order.
pub open spec fn spec_sort(
    s: Seq<Seq<char>>,
    set: CompoundSet,
    dict: CodeTable,
) -> Seq<Seq<char>>
    decreases s.len(),
{
    if s.len() == 0 {
        s
    } else {
        spec_insert(s.last(), spec_sort(s.drop_last(), set, dict), set, dict)
    }
}

proof fn lemma_insert_elements(x: Seq<char>, s: Seq<Seq<char>>, set: CompoundSet, dict: CodeTable)
    ensures
        spec_insert(x, s, set, dict).len() == s.len() + 1,
        forall|i: int|
            0 <= i < s.len() + 1 ==> (#[trigger] spec_insert(x, s, set, dict)[i] == x
                || s.contains(spec_insert(x, s, set, dict)[i])),
    decreases s.len(),
{
    let r = spec_insert(x, s, set, dict);
    if s.len() == 0 {
    } else if spec_compare_names(s[0], x, set, dict) == Ordering::Greater {
        assert forall|i: int| 0 <= i < s.len() + 1 implies (r[i] == x || s.contains(r[i])) by {
            if i > 0 {
                assert(r[i] == s[i - 1]);
            }
        }
    } else {
        let t = spec_insert(x, s.drop_first(), set, dict);
        lemma_insert_elements(x, s.drop_first(), set, dict);
        assert forall|i: int| 0 <= i < s.len() + 1 implies (r[i] == x || s.contains(r[i])) by {
            if i == 0 {
                assert(s[0] == r[0]);
                assert(s.contains(r[0]));
            } else {
                assert(r[i] == t[i - 1]);
                if t[i - 1] == x {
                } else {
                    let k: int = choose|k: int|
                        0 <= k < s.drop_first().len() && s.drop_first()[k] == t[i - 1];
                    assert(s[k + 1] == t[i - 1]);
                    assert(s.contains(r[i]));
                }
            }
        }
    }
}

proof fn lemma_insert_sorted(x: Seq<char>, s: Seq<Seq<char>>, set: CompoundSet, dict: CodeTable)
    requires
        spec_sorted(s, set, dict),
    ensures
        spec_sorted(spec_insert(x, s, set, dict), set, dict),
    decreases s.len(),
{
    let r = spec_insert(x, s, set, dict);
    if s.len() == 0 {
    } else if spec_compare_names(s[0], x, set, dict) == Ordering::Greater {
        lemma_compare_names_flip(s[0], x, set, dict);
        assert forall|j: int| 0 <= j < s.len() implies spec_le(x, s[j], set, dict) by {
            if j > 0 {
                assert(spec_le(s[0], s[j], set, dict));
                lemma_compare_names_trans(x, s[0], s[j], set, dict);
            }
        }
        assert forall|i: int, j: int| 0 <= i < j < r.len() implies spec_le(
            r[i],
            r[j],
            set,
            dict,
        ) by {
            assert(r[j] == s[j - 1]);
            if i > 0 {
                assert(r[i] == s[i - 1]);
            }
        }
    } else {
        let tail = s.drop_first();
        let t = spec_insert(x, tail, set, dict);
        assert forall|i: int, j: int| 0 <= i < j < tail.len() implies spec_le(
            tail[i],
            tail[j],
            set,
            dict,
        ) by {
            assert(tail[i] == s[i + 1]);
            assert(tail[j] == s[j + 1]);
        }
        lemma_insert_sorted(x, tail, set, dict);
        lemma_insert_elements(x, tail, set, dict);
        assert forall|j: int| 0 <= j < t.len() implies spec_le(s[0], t[j], set, dict) by {
            if t[j] == x {
            } else {
                let k: int = choose|k: int| 0 <= k < tail.len() && tail[k] == t[j];
                assert(s[k + 1] == t[j]);
                assert(spec_le(s[0], s[k + 1], set, dict));
            }
        }
        assert forall|i: int, j: int| 0 <= i < j < r.len() implies spec_le(
            r[i],
            r[j],
            set,
            dict,
        ) by {
            assert(r[j] == t[j - 1]);
            if i > 0 {
                assert(r[i] == t[i - 1]);
            }
        }
    }
}

proof fn lemma_insert_multiset(x: Seq<char>, s: Seq<Seq<char>>, set: CompoundSet, dict: CodeTable)
    ensures
        spec_insert(x, s, set, dict).to_multiset() == s.to_multiset().insert(x),
    decreases s.len(),
{
    let r = spec_insert(x, s, set, dict);
    if s.len() == 0 {
        assert(r =~= s.insert(0, x));
        vstd::seq_lib::to_multiset_insert(s, 0, x);
    } else if spec_compare_names(s[0], x, set, dict) == Ordering::Greater {
        assert(r =~= s.insert(0, x));
        vstd::seq_lib::to_multiset_insert(s, 0, x);
    } else {
        let tail = s.drop_first();
        let t = spec_insert(x, tail, set, dict);
        lemma_insert_multiset(x, tail, set, dict);
        assert(r =~= t.insert(0, s[0]));
        vstd::seq_lib::to_multiset_insert(t, 0, s[0]);
        assert(s =~= tail.insert(0, s[0]));
        vstd::seq_lib::to_multiset_insert(tail, 0, s[0]);
        assert(tail.to_multiset().insert(x).insert(s[0]) =~= tail.to_multiset().insert(
            s[0],
        ).insert(x));
    }
}

/// The sort's output is sorted: every pair of positions is in order under
/// the name comparator.
pub proof fn lemma_sort_sorted(s: Seq<Seq<char>>, set: CompoundSet, dict: CodeTable)
    ensures
        spec_sorted(spec_sort(s, set, dict), set, dict),
    decreases s.len(),
{
    if s.len() > 0 {
        lemma_sort_sorted(s.drop_last(), set, dict);
        lemma_insert_sorted(s.last(), spec_sort(s.drop_last(), set, dict), set, dict);
    }
}

/// The sort's output holds exactly the input's names, each as often as it
/// appears: a permutation.
pub proof fn lemma_sort_permutes(s: Seq<Seq<char>>, set: CompoundSet, dict: CodeTable)
    ensures
        spec_sort(s, set, dict).to_multiset() == s.to_multiset(),
        spec_sort(s, set, dict).len() == s.len(),
    decreases s.len(),
{
    if s.len() > 0 {
        lemma_sort_permutes(s.drop_last(), set, dict);
        lemma_insert_multiset(s.last(), spec_sort(s.drop_last(), set, dict), set, dict);
        lemma_insert_elements(s.last(), spec_sort(s.drop_last(), set, dict), set, dict);
        vstd::seq_lib::to_multiset_build(s.drop_last(), s.last());
        assert(s =~= s.drop_last().push(s.last()));
    }
}

/// The tie class of `x`: whether a name compares `Equal` to it.
pub open spec fn spec_ties(x: Seq<char>, set: CompoundSet, dict: CodeTable) -> spec_fn(
    Seq<char>,
) -> bool {
    (|y: Seq<char>| spec_compare_names(y, x, set, dict) == Ordering::Equal)
}

proof fn lemma_filter_one(z: Seq<char>, p: spec_fn(Seq<char>) -> bool)
    ensures
        seq![z].filter(p) == if p(z) {
            seq![z]
        } else {
            Seq::<Seq<char>>::empty()
        },
{
    reveal(Seq::filter);
    assert(seq![z].drop_last() == Seq::<Seq<char>>::empty()) by {
        assert(seq![z].drop_last() =~= Seq::<Seq<char>>::empty());
    }
    assert(Seq::<Seq<char>>::empty().filter(p) == Seq::<Seq<char>>::empty());
    assert(seq![z].last() == z);
    if p(z) {
        assert(Seq::<Seq<char>>::empty().push(z) =~= seq![z]);
    }
}

proof fn lemma_filter_none(s: Seq<Seq<char>>, p: spec_fn(Seq<char>) -> bool)
    requires
        forall|k: int| 0 <= k < s.len() ==> !p(s[k]),
    ensures
        s.filter(p) == Seq::<Seq<char>>::empty(),
    decreases s.len(),
{
    reveal(Seq::filter);
    if s.len() > 0 {
        lemma_filter_none(s.drop_last(), p);
    }
}

/// Inserting `z` into a sorted `t` puts, within the tie class of any name
/// `x`, exactly the same names in exactly the same order as appending `z`.
proof fn lemma_insert_filter(
    z: Seq<char>,
    t: Seq<Seq<char>>,
    x: Seq<char>,
    set: CompoundSet,
    dict: CodeTable,
)
    requires
        spec_sorted(t, set, dict),
    ensures
        spec_insert(z, t, set, dict).filter(spec_ties(x, set, dict)) == t.push(z).filter(
            spec_ties(x, set, dict),
        ),
    decreases t.len(),
{
    let p = spec_ties(x, set, dict);
    if t.len() == 0 {
        assert(t.push(z) =~= seq![z]);
    } else if spec_compare_names(t[0], z, set, dict) == Ordering::Greater {
        assert(spec_insert(z, t, set, dict) == seq![z] + t);
        assert(t.push(z) =~= t + seq![z]);
        Seq::filter_distributes_over_add(seq![z], t, p);
        Seq::filter_distributes_over_add(t, seq![z], p);
        lemma_filter_one(z, p);
        if p(z) {
            assert forall|k: int| 0 <= k < t.len() implies !p(t[k]) by {
                lemma_compare_names_flip(t[0], z, set, dict);
                if k > 0 {
                    assert(spec_le(t[0], t[k], set, dict));
                    lemma_compare_names_trans(z, t[0], t[k], set, dict);
                }
                // here z sorts strictly before t[k], so the two do not tie
                assert(spec_compare_names(z, t[k], set, dict) == Ordering::Less);
                lemma_compare_names_flip(t[k], z, set, dict);
                if p(t[k]) {
                    lemma_compare_names_flip(x, z, set, dict);
                    lemma_compare_names_trans(t[k], x, z, set, dict);
                    assert(false);
                }
            }
            lemma_filter_none(t, p);
            assert(seq![z].filter(p) + t.filter(p) =~= t.filter(p) + seq![z].filter(p));
        } else {
            assert(seq![z].filter(p) + t.filter(p) =~= t.filter(p));
            assert(t.filter(p) + seq![z].filter(p) =~= t.filter(p));
        }
    } else {
        let tail = t.drop_first();
        assert forall|i: int, k: int| 0 <= i < k < tail.len() implies spec_le(
            tail[i],
            tail[k],
            set,
            dict,
        ) by {
            assert(tail[i] == t[i + 1]);
            assert(tail[k] == t[k + 1]);
        }
        lemma_insert_filter(z, tail, x, set, dict);
        assert(spec_insert(z, t, set, dict) == seq![t[0]] + spec_insert(z, tail, set, dict));
        Seq::filter_distributes_over_add(seq![t[0]], spec_insert(z, tail, set, dict), p);
        Seq::filter_distributes_over_add(seq![t[0]], tail.push(z), p);
        assert(t.push(z) =~= seq![t[0]] + tail.push(z));
    }
}

/// Stability of the sort: within the tie class of any name `x`, the output
/// lists exactly the input's names, in the input's order. Two names the
/// comparator ties never swap.
pub proof fn lemma_sort_stable(
    s: Seq<Seq<char>>,
    x: Seq<char>,
    set: CompoundSet,
    dict: CodeTable,
)
    ensures
        spec_sort(s, set, dict).filter(spec_ties(x, set, dict)) == s.filter(
            spec_ties(x, set, dict),
        ),
    decreases s.len(),
{
    let p = spec_ties(x, set, dict);
    if s.len() > 0 {
        let sorted_prefix = spec_sort(s.drop_last(), set, dict);
        lemma_sort_stable(s.drop_last(), x, set, dict);
        lemma_sort_sorted(s.drop_last(), set, dict);
        lemma_insert_filter(s.last(), sorted_prefix, x, set, dict);
        assert(sorted_prefix.push(s.last()) =~= sorted_prefix + seq![s.last()]);
        Seq::filter_distributes_over_add(sorted_prefix, seq![s.last()], p);
        assert(s =~= s.drop_last() + seq![s.last()]);
        Seq::filter_distributes_over_add(s.drop_last(), seq![s.last()], p);
    }
}

/// Where `x` belongs in the sorted prefix `names[0 .. i]`: after every
/// leading element that does not compare `Greater` to it.
fn insertion_point(
    names: &Vec<Vec<char>>,
    x: &Vec<char>,
    i: usize,
    compound_surnames_set: &CompoundSet,
    word_dict: &CodeTable,
) -> (j: usize)
    requires
        i <= names@.len(),
        x@.len() > 0,
        forall|k: int| 0 <= k < names@.len() ==> names@[k]@.len() > 0,
    ensures
        j <= i,
        forall|k: int|
            j <= k < i ==> spec_compare_names(names@[k]@, x@, *compound_surnames_set, *word_dict)
                == Ordering::Greater,
        j > 0 ==> spec_compare_names(names@[j - 1]@, x@, *compound_surnames_set, *word_dict)
            != Ordering::Greater,
{
    let mut j: usize = i;
    while j > 0
        invariant
            j <= i,
            i <= names@.len(),
            x@.len() > 0,
            forall|k: int| 0 <= k < names@.len() ==> names@[k]@.len() > 0,
            forall|k: int|
                j <= k < i ==> spec_compare_names(
                    names@[k]@,
                    x@,
                    *compound_surnames_set,
                    *word_dict,
                ) == Ordering::Greater,
        decreases j,
    {
        let c = compare_names(&names[j - 1], x, compound_surnames_set, word_dict);
        match c {
            Ordering::Greater => {
                j = j - 1;
            },
            _ => {
                return j;
            },
        }
    }
    j
}

/// A sorted sequence with only `Greater` elements from position `j` on,
/// and a non-`Greater` one right before `j`, takes an insertion exactly at
/// `j`.
proof fn lemma_insert_at_point(
    x: Seq<char>,
    s: Seq<Seq<char>>,
    j: int,
    set: CompoundSet,
    dict: CodeTable,
)
    requires
        spec_sorted(s, set, dict),
        0 <= j <= s.len(),
        forall|k: int|
            j <= k < s.len() ==> spec_compare_names(s[k], x, set, dict) == Ordering::Greater,
        j > 0 ==> spec_compare_names(s[j - 1], x, set, dict) != Ordering::Greater,
    ensures
        spec_insert(x, s, set, dict) == s.take(j) + seq![x] + s.skip(j),
    decreases s.len(),
{
    if s.len() == 0 {
        assert(spec_insert(x, s, set, dict) =~= s.take(j) + seq![x] + s.skip(j));
    } else if spec_compare_names(s[0], x, set, dict) == Ordering::Greater {
        if j > 0 {
            if j == 1 {
                assert(false);
            } else {
                assert(spec_le(s[0], s[j - 1], set, dict));
                lemma_compare_names_trans(s[0], s[j - 1], x, set, dict);
                assert(false);
            }
        }
        assert(spec_insert(x, s, set, dict) =~= s.take(0) + seq![x] + s.skip(0));
    } else {
        assert(j > 0);
        let tail = s.drop_first();
        assert forall|i: int, k: int| 0 <= i < k < tail.len() implies spec_le(
            tail[i],
            tail[k],
            set,
            dict,
        ) by {
            assert(tail[i] == s[i + 1]);
            assert(tail[k] == s[k + 1]);
        }
        assert forall|k: int| j - 1 <= k < tail.len() implies spec_compare_names(
            tail[k],
            x,
            set,
            dict,
        ) == Ordering::Greater by {
            assert(tail[k] == s[k + 1]);
        }
        if j - 1 > 0 {
            assert(tail[j - 2] == s[j - 1]);
        }
        lemma_insert_at_point(x, tail, j - 1, set, dict);
        assert(spec_insert(x, s, set, dict) =~= s.take(j) + seq![x] + s.skip(j));
    }
}

/// Stable sort of `names` under the comparator: afterwards `names` holds
/// exactly the stable insertion sort of what it held before.
pub fn sort_names(
    names: &mut Vec<Vec<char>>,
    compound_surnames_set: &CompoundSet,
    word_dict: &CodeTable,
)
    requires
        forall|k: int| 0 <= k < old(names)@.len() ==> old(names)@[k]@.len() > 0,
    ensures
        views_of(final(names)@) == spec_sort(
            views_of(old(names)@),
            *compound_surnames_set,
            *word_dict,
        ),
        forall|k: int| 0 <= k < final(names)@.len() ==> final(names)@[k]@.len() > 0,
{
    let ghost orig = names@;
    let ghost gset = *compound_surnames_set;
    let ghost gdict = *word_dict;
    let mut i: usize = 0;
    proof {
        assert(names@.skip(0) =~= orig.skip(0));
        assert(views_of(names@).take(0) =~= views_of(orig).take(0));
    }
    while i < names.len()
        invariant
            i <= names@.len(),
            names@.len() == orig.len(),
            forall|k: int| 0 <= k < names@.len() ==> names@[k]@.len() > 0,
            views_of(names@).take(i as int) == spec_sort(
                views_of(orig).take(i as int),
                gset,
                gdict,
            ),
            names@.skip(i as int) == orig.skip(i as int),
            gset == *compound_surnames_set,
            gdict == *word_dict,
        decreases names@.len() - i,
    {
        let ghost prev = names@;
        let ghost p = views_of(prev).take(i as int);
        let x = names.remove(i);
        proof {
            assert(x == prev[i as int]);
            assert(prev.skip(i as int)[0] == prev[i as int]);
            assert(x@.len() > 0);
            assert forall|k: int| 0 <= k < names@.len() implies names@[k]@.len() > 0 by {
                if k < i {
                    assert(names@[k] == prev[k]);
                } else {
                    assert(names@[k] == prev[k + 1]);
                }
            }
            assert(names@.take(i as int) =~= prev.take(i as int));
            assert(views_of(names@).take(i as int) =~= p);
            lemma_sort_sorted(views_of(orig).take(i as int), gset, gdict);
            assert(spec_sorted(p, gset, gdict));
        }
        let j = insertion_point(&names, &x, i, compound_surnames_set, word_dict);
        proof {
            assert forall|k: int| j <= k < i implies spec_compare_names(
                p[k],
                x@,
                gset,
                gdict,
            ) == Ordering::Greater by {
                assert(p[k] == names@[k]@);
            }
            if j > 0 {
                assert(p[j - 1] == names@[j - 1]@);
            }
            lemma_insert_at_point(x@, p, j as int, gset, gdict);
        }
        let ghost mid = names@;
        names.insert(j, x);
        proof {
            assert(names@ == mid.insert(j as int, x));
            assert forall|k: int| 0 <= k < names@.len() implies names@[k]@.len() > 0 by {
                if k < j {
                    assert(names@[k] == mid[k]);
                } else if k == j {
                    assert(names@[k] == x);
                } else {
                    assert(names@[k] == mid[k - 1]);
                }
            }
            // the new prefix of length i + 1 is exactly the insertion of x
            assert(views_of(names@).take(i as int + 1) =~= p.take(j as int) + seq![x@] + p.skip(
                j as int,
            )) by {
                assert forall|k: int| 0 <= k < i + 1 implies views_of(names@).take(i as int + 1)[k]
                    == (p.take(j as int) + seq![x@] + p.skip(j as int))[k] by {
                    if k < j {
                        assert(names@[k] == mid[k]);
                        assert(mid[k] == prev[k]);
                    } else if k == j {
                        assert(names@[k] == x);
                    } else {
                        assert(names@[k] == mid[k - 1]);
                        assert(mid[k - 1] == prev[k - 1]);
                    }
                }
            }
            // and that insertion is the sorted prefix one element further
            let nv = views_of(orig).take(i as int + 1);
            assert(nv.last() == orig[i as int]@);
            assert(orig.skip(i as int)[0] == orig[i as int]);
            assert(prev.skip(i as int)[0] == prev[i as int]);
            assert(orig[i as int] == prev[i as int]);
            assert(nv.drop_last() =~= views_of(orig).take(i as int));
            assert(spec_sort(nv, gset, gdict) == spec_insert(x@, p, gset, gdict));
            assert(views_of(names@).take(i as int + 1) == spec_sort(nv, gset, gdict));
            // the suffix past i + 1 is untouched
            assert(names@.skip(i as int + 1) =~= orig.skip(i as int + 1)) by {
                assert forall|k: int| 0 <= k < names@.len() - i - 1 implies #[trigger] (names@.skip(
                    i as int + 1,
                )[k]) == orig.skip(i as int + 1)[k] by {
                    assert(names@[i + 1 + k] == mid[i + k]);
                    assert(mid[i + k] == prev[i + 1 + k]);
                    assert(prev.skip(i as int)[k + 1] == prev[i + 1 + k]);
                    assert(orig.skip(i as int)[k + 1] == orig[i + 1 + k]);
                }
            }
        }
        i = i + 1;
    }
    proof {
        assert(views_of(names@).take(i as int) =~= views_of(names@));
        assert(views_of(orig).take(i as int) =~= views_of(orig));
    }
}

/// Reverse the order of `names`.
pub fn reverse_names(names: &mut Vec<Vec<char>>)
    ensures
        final(names)@ == old(names)@.reverse(),
{
    let ghost orig = names@;
    let mut out: Vec<Vec<char>> = Vec::new();
    proof {
        assert(names@ =~= orig.take(names@.len() as int));
        assert(out@ =~= orig.skip(names@.len() as int).reverse());
    }
    while names.len() > 0
        invariant
            names@.len() <= orig.len(),
            names@ == orig.take(names@.len() as int),
            out@ == orig.skip(names@.len() as int).reverse(),
        decreases names@.len(),
    {
        let ghost n: int = names@.len() as int;
        let x = names.pop().unwrap();
        out.push(x);
        proof {
            assert(names@ =~= orig.take(n - 1));
            assert(orig.take(n)[n - 1] == orig[n - 1]);
            assert(out@ =~= orig.skip(n - 1).reverse()) by {
                assert forall|k: int| 0 <= k < orig.len() - n + 1 implies out@[k] == orig.skip(
                    n - 1,
                ).reverse()[k] by {
                    if k < orig.len() - n {
                        assert(out@[k] == orig.skip(n).reverse()[k]);
                        assert(orig.skip(n).reverse()[k] == orig[orig.len() - 1 - k]);
                        assert(orig.skip(n - 1).reverse()[k] == orig[orig.len() - 1 - k]);
                    } else {
                        assert(out@[k] == orig[n - 1]);
                        assert(orig.skip(n - 1).reverse()[k] == orig[n - 1]);
                    }
                }
            }
        }
    }
    proof {
        assert(orig.skip(0) =~= orig);
    }
    *names = out;
}

/// The sort driver: reject an empty name, else reverse the list and sort
/// it stably under the comparator. Among names the comparator ties, the
/// name listed later in the input comes out first.
pub fn order_names(
    names: Vec<Vec<char>>,
    compound_surnames_set: &CompoundSet,
    word_dict: &CodeTable,
) -> (r: Result<Vec<Vec<char>>, EmptyNameError>)
    ensures
        r is Ok <==> (forall|k: int| 0 <= k < names@.len() ==> names@[k]@.len() > 0),
        r is Ok ==> views_of(r->Ok_0@) == spec_sort(
            views_of(names@).reverse(),
            *compound_surnames_set,
            *word_dict,
        ),
        r is Ok ==> spec_sorted(views_of(r->Ok_0@), *compound_surnames_set, *word_dict),
        r is Ok ==> views_of(r->Ok_0@).to_multiset() == views_of(names@).to_multiset(),
{
    let ghost orig = names@;
    let mut i: usize = 0;
    while i < names.len()
        invariant
            i <= names@.len(),
            names@ == orig,
            forall|k: int| 0 <= k < i ==> names@[k]@.len() > 0,
        decreases names@.len() - i,
    {
        if names[i].len() == 0 {
            return Err(EmptyNameError);
        }
        i = i + 1;
    }
    let mut sorted_names = names;
    reverse_names(&mut sorted_names);
    proof {
        assert forall|k: int| 0 <= k < sorted_names@.len() implies sorted_names@[k]@.len() > 0 by {
            assert(sorted_names@[k] == orig[orig.len() - 1 - k]);
        }
    }
    sort_names(&mut sorted_names, compound_surnames_set, word_dict);
    proof {
        assert(views_of(orig.reverse()) =~= views_of(orig).reverse());
        lemma_sort_sorted(views_of(orig).reverse(), *compound_surnames_set, *word_dict);
        lemma_sort_permutes(views_of(orig).reverse(), *compound_surnames_set, *word_dict);
        views_of(orig).lemma_reverse_to_multiset();
    }
    Ok(sorted_names)
}

} // verus!
