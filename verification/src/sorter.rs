//! The order of station names, and sorting entries by name.

use vstd::prelude::*;
use vstd::seq_lib::{lemma_multiset_commutative, to_multiset_build};

verus! {

/// Whether `a` comes no later than `b` when the two agree before place `i`:
/// the first byte that differs decides, and a name that ends first comes
/// first.
pub open spec fn lex_le_from(a: Seq<u8>, b: Seq<u8>, i: int) -> bool
    decreases a.len() - i,
{
    if i >= a.len() {
        true
    } else if i >= b.len() {
        false
    } else if a[i] != b[i] {
        a[i] < b[i]
    } else {
        lex_le_from(a, b, i + 1)
    }
}

/// Byte-wise lexicographic order: whether `a` comes no later than `b`.
pub open spec fn lex_le(a: Seq<u8>, b: Seq<u8>) -> bool {
    lex_le_from(a, b, 0)
}

/// Whether `a` comes before `b`.
pub open spec fn lex_lt(a: Seq<u8>, b: Seq<u8>) -> bool {
    lex_le(a, b) && a != b
}

/// Whether the names of the entries never go down.
pub open spec fn sorted_by_name<V>(es: Seq<(Vec<u8>, V)>) -> bool {
    forall|i: int, j: int| 0 <= i < j < es.len() ==> lex_le(es[i].0@, es[j].0@)
}

/// Whether the names of the entries never go up.
pub open spec fn descending_by_name<V>(es: Seq<(Vec<u8>, V)>) -> bool {
    forall|i: int, j: int| 0 <= i < j < es.len() ==> lex_le(es[j].0@, es[i].0@)
}

/// Whether no name of the entries comes after `bound`.
pub open spec fn none_above<V>(es: Seq<(Vec<u8>, V)>, bound: Seq<u8>) -> bool {
    forall|i: int| 0 <= i < es.len() ==> lex_le(#[trigger] es[i].0@, bound)
}

/// Whether no name of the entries comes before `bound`.
pub open spec fn none_below<V>(es: Seq<(Vec<u8>, V)>, bound: Seq<u8>) -> bool {
    forall|i: int| 0 <= i < es.len() ==> lex_le(bound, #[trigger] es[i].0@)
}

proof fn lemma_lex_total_from(a: Seq<u8>, b: Seq<u8>, i: int)
    requires
        0 <= i,
    ensures
        lex_le_from(a, b, i) || lex_le_from(b, a, i),
    decreases a.len() - i,
{
    if i < a.len() && i < b.len() && a[i] == b[i] {
        lemma_lex_total_from(a, b, i + 1);
    }
}

proof fn lemma_lex_transitive_from(a: Seq<u8>, b: Seq<u8>, c: Seq<u8>, i: int)
    requires
        0 <= i,
        lex_le_from(a, b, i),
        lex_le_from(b, c, i),
    ensures
        lex_le_from(a, c, i),
    decreases a.len() - i,
{
    if i < a.len() && a[i] == b[i] && b[i] == c[i] {
        lemma_lex_transitive_from(a, b, c, i + 1);
    }
}

proof fn lemma_lex_antisymmetric_from(a: Seq<u8>, b: Seq<u8>, i: int)
    requires
        0 <= i <= a.len(),
        i <= b.len(),
        forall|j: int| 0 <= j < i ==> a[j] == b[j],
        lex_le_from(a, b, i),
        lex_le_from(b, a, i),
    ensures
        a == b,
    decreases a.len() - i,
{
    if i < a.len() {
        lemma_lex_antisymmetric_from(a, b, i + 1);
    } else {
        assert(a =~= b);
    }
}

proof fn lemma_lex_reflexive_from(a: Seq<u8>, i: int)
    requires
        0 <= i,
    ensures
        lex_le_from(a, a, i),
    decreases a.len() - i,
{
    if i < a.len() {
        lemma_lex_reflexive_from(a, i + 1);
    }
}

/// The order of names is total: of two names, one comes no later than the
/// other, and every name comes no later than itself.
pub proof fn lemma_lex_total(a: Seq<u8>, b: Seq<u8>)
    ensures
        lex_le(a, b) || lex_le(b, a),
        lex_le(a, a),
{
    lemma_lex_total_from(a, b, 0);
    lemma_lex_reflexive_from(a, 0);
}

/// The order of names is transitive.
pub proof fn lemma_lex_transitive(a: Seq<u8>, b: Seq<u8>, c: Seq<u8>)
    requires
        lex_le(a, b),
        lex_le(b, c),
    ensures
        lex_le(a, c),
{
    lemma_lex_transitive_from(a, b, c, 0);
}

/// Two names that each come no later than the other are the same name.
pub proof fn lemma_lex_antisymmetric(a: Seq<u8>, b: Seq<u8>)
    requires
        lex_le(a, b),
        lex_le(b, a),
    ensures
        a == b,
{
    lemma_lex_antisymmetric_from(a, b, 0);
}

/// Whether the name `a` comes no later than the name `b`.
pub fn name_le(a: &[u8], b: &[u8]) -> (r: bool)
    ensures
        r == lex_le(a@, b@),
{
    let mut i: usize = 0;
    loop
        invariant
            i <= a@.len(),
            i <= b@.len(),
            lex_le(a@, b@) == lex_le_from(a@, b@, i as int),
        decreases a@.len() - i,
    {
        if i >= a.len() {
            return true;
        }
        if i >= b.len() {
            return false;
        }
        if a[i] != b[i] {
            return a[i] < b[i];
        }
        i = i + 1;
    }
}

/// Merges two sorted runs into one run in descending order.
fn merge_descending<V>(left: Vec<(Vec<u8>, V)>, right: Vec<(Vec<u8>, V)>) -> (back: Vec<
    (Vec<u8>, V),
>)
    requires
        sorted_by_name(left@),
        sorted_by_name(right@),
    ensures
        descending_by_name(back@),
        back@.to_multiset() == left@.to_multiset().add(right@.to_multiset()),
{
    let mut left = left;
    let mut right = right;
    let ghost total = left@.to_multiset().add(right@.to_multiset());
    let mut back: Vec<(Vec<u8>, V)> = Vec::new();
    assert(back@.to_multiset() =~= vstd::multiset::Multiset::empty()) by {
        back@.to_multiset_ensures();
        assert(back@.to_multiset().len() == 0);
    }
    assert(back@.to_multiset().add(left@.to_multiset()).add(right@.to_multiset()) =~= total);
    while left.len() > 0 || right.len() > 0
        invariant
            sorted_by_name(left@),
            sorted_by_name(right@),
            descending_by_name(back@),
            back@.len() > 0 ==> none_above(left@, back@.last().0@) && none_above(
                right@,
                back@.last().0@,
            ),
            back@.to_multiset().add(left@.to_multiset()).add(right@.to_multiset()) == total,
        decreases left@.len() + right@.len(),
    {
        let ghost old_back = back@;
        let ghost old_left = left@;
        let ghost old_right = right@;
        let from_left = if left.len() == 0 {
            false
        } else if right.len() == 0 {
            true
        } else {
            name_le(right[right.len() - 1].0.as_slice(), left[left.len() - 1].0.as_slice())
        };
        let taken = if from_left {
            left.pop().unwrap()
        } else {
            right.pop().unwrap()
        };
        back.push(taken);
        proof {
            let top = taken.0@;
            if from_left {
                assert(old_left =~= left@.push(taken));
                to_multiset_build(left@, taken);
            } else {
                assert(old_right =~= right@.push(taken));
                to_multiset_build(right@, taken);
                if old_left.len() > 0 {
                    lemma_lex_total(old_right.last().0@, old_left.last().0@);
                }
            }
            to_multiset_build(old_back, taken);
            assert(back@.to_multiset().add(left@.to_multiset()).add(right@.to_multiset())
                =~= total);
            assert forall|i: int| 0 <= i < left@.len() implies lex_le(
                #[trigger] left@[i].0@,
                top,
            ) by {
                assert(left@[i] == old_left[i]);
                if from_left {
                    assert(lex_le(old_left[i].0@, old_left[old_left.len() - 1].0@));
                } else {
                    assert(lex_le(old_left[i].0@, old_left.last().0@)) by {
                        if i < old_left.len() - 1 {
                            assert(lex_le(old_left[i].0@, old_left[old_left.len() - 1].0@));
                        } else {
                            lemma_lex_total(old_left[i].0@, old_left[i].0@);
                        }
                    }
                    lemma_lex_transitive(old_left[i].0@, old_left.last().0@, top);
                }
            }
            assert forall|i: int| 0 <= i < right@.len() implies lex_le(
                #[trigger] right@[i].0@,
                top,
            ) by {
                assert(right@[i] == old_right[i]);
                if !from_left {
                    assert(lex_le(old_right[i].0@, old_right[old_right.len() - 1].0@));
                } else {
                    assert(lex_le(old_right[i].0@, old_right.last().0@)) by {
                        if i < old_right.len() - 1 {
                            assert(lex_le(old_right[i].0@, old_right[old_right.len() - 1].0@));
                        } else {
                            lemma_lex_total(old_right[i].0@, old_right[i].0@);
                        }
                    }
                    lemma_lex_transitive(old_right[i].0@, old_right.last().0@, top);
                }
            }
            assert forall|i: int, j: int| 0 <= i < j < back@.len() implies lex_le(
                back@[j].0@,
                back@[i].0@,
            ) by {
                if j < old_back.len() {
                    assert(back@[i] == old_back[i] && back@[j] == old_back[j]);
                    assert(lex_le(old_back[j].0@, old_back[i].0@));
                } else {
                    assert(back@[i] == old_back[i]);
                    assert(back@[j] == taken);
                    assert(lex_le(top, old_back.last().0@)) by {
                        if from_left {
                            assert(old_left[old_left.len() - 1] == taken);
                            assert(lex_le(old_left[old_left.len() - 1].0@, old_back.last().0@));
                        } else {
                            assert(old_right[old_right.len() - 1] == taken);
                            assert(lex_le(old_right[old_right.len() - 1].0@, old_back.last().0@));
                        }
                    }
                    if i < old_back.len() - 1 {
                        assert(lex_le(old_back[old_back.len() - 1].0@, old_back[i].0@));
                        lemma_lex_transitive(top, old_back.last().0@, old_back[i].0@);
                    } else {
                        assert(old_back[i] == old_back.last());
                    }
                    assert(lex_le(top, old_back[i].0@));
                }
            }
            assert(sorted_by_name(left@)) by {
                assert forall|i: int, j: int| 0 <= i < j < left@.len() implies lex_le(
                    left@[i].0@,
                    left@[j].0@,
                ) by {
                    assert(left@[i] == old_left[i] && left@[j] == old_left[j]);
                }
            }
            assert(sorted_by_name(right@)) by {
                assert forall|i: int, j: int| 0 <= i < j < right@.len() implies lex_le(
                    right@[i].0@,
                    right@[j].0@,
                ) by {
                    assert(right@[i] == old_right[i] && right@[j] == old_right[j]);
                }
            }
        }
    }
    proof {
        assert(left@.to_multiset() =~= vstd::multiset::Multiset::empty()) by {
            left@.to_multiset_ensures();
            assert(left@.to_multiset().len() == 0);
        }
        assert(right@.to_multiset() =~= vstd::multiset::Multiset::empty()) by {
            right@.to_multiset_ensures();
            assert(right@.to_multiset().len() == 0);
        }
        assert(back@.to_multiset() =~= total);
    }
    back
}

/// Turns a descending run around.
fn reversed<V>(back: Vec<(Vec<u8>, V)>) -> (out: Vec<(Vec<u8>, V)>)
    requires
        descending_by_name(back@),
    ensures
        sorted_by_name(out@),
        out@.to_multiset() == back@.to_multiset(),
{
    let mut back = back;
    let ghost total = back@.to_multiset();
    let mut out: Vec<(Vec<u8>, V)> = Vec::new();
    assert(out@.to_multiset() =~= vstd::multiset::Multiset::empty()) by {
        out@.to_multiset_ensures();
        assert(out@.to_multiset().len() == 0);
    }
    assert(out@.to_multiset().add(back@.to_multiset()) =~= total);
    while back.len() > 0
        invariant
            descending_by_name(back@),
            sorted_by_name(out@),
            out@.len() > 0 ==> none_below(back@, out@.last().0@),
            out@.to_multiset().add(back@.to_multiset()) == total,
        decreases back@.len(),
    {
        let ghost old_back = back@;
        let ghost old_out = out@;
        let taken = back.pop().unwrap();
        out.push(taken);
        proof {
            let top = taken.0@;
            assert(old_back =~= back@.push(taken));
            to_multiset_build(back@, taken);
            to_multiset_build(old_out, taken);
            assert(out@.to_multiset().add(back@.to_multiset()) =~= total);
            assert forall|i: int| 0 <= i < back@.len() implies lex_le(
                top,
                #[trigger] back@[i].0@,
            ) by {
                assert(back@[i] == old_back[i]);
                assert(lex_le(old_back[old_back.len() - 1].0@, old_back[i].0@));
            }
            assert forall|i: int, j: int| 0 <= i < j < out@.len() implies lex_le(
                out@[i].0@,
                out@[j].0@,
            ) by {
                if j < old_out.len() {
                    assert(out@[i] == old_out[i] && out@[j] == old_out[j]);
                    assert(lex_le(old_out[i].0@, old_out[j].0@));
                } else {
                    assert(out@[i] == old_out[i]);
                    assert(out@[j] == taken);
                    assert(lex_le(old_out.last().0@, top)) by {
                        assert(old_back[old_back.len() - 1] == taken);
                        assert(lex_le(old_out.last().0@, old_back[old_back.len() - 1].0@));
                    }
                    if i < old_out.len() - 1 {
                        assert(lex_le(old_out[i].0@, old_out[old_out.len() - 1].0@));
                        lemma_lex_transitive(old_out[i].0@, old_out.last().0@, top);
                    } else {
                        assert(old_out[i] == old_out.last());
                    }
                    assert(lex_le(old_out[i].0@, top));
                }
            }
            assert(descending_by_name(back@)) by {
                assert forall|i: int, j: int| 0 <= i < j < back@.len() implies lex_le(
                    back@[j].0@,
                    back@[i].0@,
                ) by {
                    assert(back@[i] == old_back[i] && back@[j] == old_back[j]);
                }
            }
        }
    }
    proof {
        assert(back@.to_multiset() =~= vstd::multiset::Multiset::empty()) by {
            back@.to_multiset_ensures();
            assert(back@.to_multiset().len() == 0);
        }
        assert(out@.to_multiset() =~= total);
    }
    out
}

/// Sorts entries by the byte-wise lexicographic order of their names.  The
/// result holds the same entries, each as often as before; entries of equal
/// names may change places.
pub fn sort_by_name<V>(entries: Vec<(Vec<u8>, V)>) -> (r: Vec<(Vec<u8>, V)>)
    ensures
        sorted_by_name(r@),
        r@.to_multiset() == entries@.to_multiset(),
    decreases entries@.len(),
{
    let mut left = entries;
    if left.len() <= 1 {
        return left;
    }
    let ghost whole = left@;
    let right = left.split_off(left.len() / 2);
    proof {
        assert(whole =~= left@ + right@);
        lemma_multiset_commutative(left@, right@);
    }
    let left = sort_by_name(left);
    let right = sort_by_name(right);
    reversed(merge_descending(left, right))
}

} // verus!
