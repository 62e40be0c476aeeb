//! Sorting machinery: a total preorder trait with verified obligations, an
//! insertion sort proved to sort by it and to keep the multiset of elements,
//! and the orderings the library sorts by (frequency ranks and
//! case-insensitive names).

use vstd::prelude::*;
use vstd::multiset::Multiset;
use crate::text::{
    lemma_lex_le_total, lemma_lex_le_trans, lex_le, lex_le_str, lower_str_of, to_lowercase_str,
};

verus! {

/// A total preorder: any two values compare, and comparison is transitive.
/// Sorting by it is well defined up to ties.
pub trait TotalOrdered: Sized {
    /// The order being sorted by.
    spec fn le_spec(&self, other: &Self) -> bool;

    /// Any two values are comparable.
    proof fn lemma_le_total(a: Self, b: Self)
        ensures
            a.le_spec(&b) || b.le_spec(&a),
    ;

    /// The order is transitive.
    proof fn lemma_le_trans(a: Self, b: Self, c: Self)
        requires
            a.le_spec(&b),
            b.le_spec(&c),
        ensures
            a.le_spec(&c),
    ;

    /// Decides the order.
    fn le(&self, other: &Self) -> (r: bool)
        ensures
            r == self.le_spec(other),
    ;
}

/// Sorts by the type's order: the result is sorted and holds exactly the
/// input's elements, multiplicities included.
pub fn insertion_sort<T: TotalOrdered>(input: Vec<T>) -> (r: Vec<T>)
    ensures
        forall|i: int, j: int| 0 <= i < j < r@.len() ==> #[trigger] r@[i].le_spec(&(r@[j])),
        r@.to_multiset() == input@.to_multiset(),
{
    let ghost orig = input@;
    let ghost leq = |a: T, b: T| a.le_spec(&b);
    let mut rest = input;
    let mut out: Vec<T> = Vec::new();
    proof {
        broadcast use vstd::seq_lib::group_to_multiset_ensures;

        assert(out@.to_multiset().add(rest@.to_multiset()) =~= orig.to_multiset());
    }
    while rest.len() > 0
        invariant
            vstd::relations::sorted_by(out@, leq),
            leq == (|a: T, b: T| a.le_spec(&b)),
            out@.to_multiset().add(rest@.to_multiset()) == orig.to_multiset(),
        decreases rest@.len(),
    {
        let ghost prev_rest = rest@;
        let x = rest.remove(0);
        let mut p: usize = 0;
        while p < out.len() && out[p].le(&x)
            invariant
                0 <= p <= out@.len(),
                forall|j: int| 0 <= j < p ==> #[trigger] out@[j].le_spec(&x),
            decreases out@.len() - p,
        {
            p = p + 1;
        }
        let ghost prev_out = out@;
        out.insert(p, x);
        proof {
            broadcast use vstd::seq_lib::group_to_multiset_ensures;

            assert forall|i: int, j: int| 0 <= i < j < out@.len() implies #[trigger] leq(
                out@[i],
                out@[j],
            ) by {
                if j < p {
                    assert(out@[i] == prev_out[i] && out@[j] == prev_out[j]);
                } else if i < p && j == p {
                    assert(out@[i] == prev_out[i]);
                    assert(prev_out[i].le_spec(&x));
                } else if i < p && j > p {
                    assert(out@[i] == prev_out[i] && out@[j] == prev_out[j - 1]);
                } else if i == p {
                    assert(out@[j] == prev_out[j - 1]);
                    if p < prev_out.len() {
                        assert(!prev_out[p as int].le_spec(&x));
                        T::lemma_le_total(x, prev_out[p as int]);
                        if j - 1 > p {
                            assert(leq(prev_out[p as int], prev_out[j - 1]));
                            T::lemma_le_trans(x, prev_out[p as int], prev_out[j - 1]);
                        }
                    }
                } else {
                    assert(out@[i] == prev_out[i - 1] && out@[j] == prev_out[j - 1]);
                }
            }
            assert(prev_out.subrange(0, p as int) + prev_out.subrange(
                p as int,
                prev_out.len() as int,
            ) =~= prev_out);
            vstd::seq_lib::lemma_multiset_commutative(
                prev_out.subrange(0, p as int),
                prev_out.subrange(p as int, prev_out.len() as int),
            );
            vstd::seq_lib::lemma_multiset_commutative(
                prev_out.subrange(0, p as int).push(x),
                prev_out.subrange(p as int, prev_out.len() as int),
            );
            assert(out@ == prev_out.subrange(0, p as int).push(x) + prev_out.subrange(
                p as int,
                prev_out.len() as int,
            ));
            assert(out@.to_multiset() =~= prev_out.to_multiset().insert(x));
            assert(prev_rest.remove(0).to_multiset() =~= prev_rest.to_multiset().remove(
                prev_rest[0],
            ));
            assert(out@.to_multiset().add(rest@.to_multiset()) =~= orig.to_multiset());
        }
    }
    proof {
        assert(rest@.to_multiset() =~= Multiset::<T>::empty());
        assert(out@.to_multiset().add(Multiset::<T>::empty()) =~= out@.to_multiset());
        assert forall|i: int, j: int| 0 <= i < j < out@.len() implies #[trigger] out@[i].le_spec(
            &(out@[j]),
        ) by {
            assert(leq(out@[i], out@[j]));
        }
    }
    out
}

/// Sequences with the same multiset of elements keep the same multiset
/// under any element-wise map.
pub proof fn lemma_map_values_to_multiset<A, B>(s1: Seq<A>, s2: Seq<A>, f: spec_fn(A) -> B)
    requires
        s1.to_multiset() == s2.to_multiset(),
    ensures
        s1.map_values(f).to_multiset() == s2.map_values(f).to_multiset(),
    decreases s1.len(),
{
    broadcast use vstd::seq_lib::group_to_multiset_ensures;

    if s1.len() == 0 {
        assert(s2.to_multiset().len() == 0);
        assert(s2.len() == 0);
        assert(s1.map_values(f) =~= s2.map_values(f));
    } else {
        let x = s1.last();
        assert(s1.drop_last().push(x) =~= s1);
        assert(s1.to_multiset().count(x) > 0);
        assert(s2.to_multiset().count(x) > 0);
        assert(s2.contains(x));
        let i = choose|i: int| 0 <= i < s2.len() && s2[i] == x;
        assert(s2.remove(i).to_multiset() =~= s2.to_multiset().remove(x));
        assert(s1.drop_last().to_multiset() =~= s1.to_multiset().remove(x));
        lemma_map_values_to_multiset(s1.drop_last(), s2.remove(i), f);
        assert(s1.map_values(f) =~= s1.drop_last().map_values(f).push(f(x)));
        assert(s2.remove(i).map_values(f) =~= s2.map_values(f).remove(i));
        assert(s2.map_values(f).remove(i).to_multiset() =~= s2.map_values(f).to_multiset().remove(
            f(x),
        ));
        assert(s1.drop_last().map_values(f).push(f(x)).to_multiset() =~= s1.drop_last().map_values(
            f,
        ).to_multiset().insert(f(x)));
        assert(s2.map_values(f).to_multiset().count(f(x)) > 0);
        assert(s1.map_values(f).to_multiset() =~= s2.map_values(f).to_multiset());
    }
}

/// A word with how often it occurs, ordered by falling frequency and then
/// alphabetically by code point.
impl TotalOrdered for (String, usize) {
    open spec fn le_spec(&self, other: &Self) -> bool {
        self.1 > other.1 || (self.1 == other.1 && lex_le(self.0@, other.0@))
    }

    proof fn lemma_le_total(a: Self, b: Self) {
        lemma_lex_le_total(a.0@, b.0@);
    }

    proof fn lemma_le_trans(a: Self, b: Self, c: Self) {
        if a.1 == b.1 && b.1 == c.1 {
            lemma_lex_le_trans(a.0@, b.0@, c.0@);
        }
    }

    fn le(&self, other: &Self) -> (r: bool) {
        if self.1 > other.1 {
            true
        } else if self.1 < other.1 {
            false
        } else {
            lex_le_str(self.0.as_str(), other.0.as_str())
        }
    }
}

/// A letter with how often it occurs, ordered by falling frequency and then
/// alphabetically by code point.
impl TotalOrdered for (char, usize) {
    open spec fn le_spec(&self, other: &Self) -> bool {
        self.1 > other.1 || (self.1 == other.1 && self.0 as u32 <= other.0 as u32)
    }

    proof fn lemma_le_total(a: Self, b: Self) {
    }

    proof fn lemma_le_trans(a: Self, b: Self, c: Self) {
    }

    fn le(&self, other: &Self) -> (r: bool) {
        if self.1 > other.1 {
            true
        } else if self.1 < other.1 {
            false
        } else {
            self.0 as u32 <= other.0 as u32
        }
    }
}

/// A count paired with a value, ordered by falling count and then falling
/// value: the rank order of the most-frequent-numbers query.
impl TotalOrdered for (usize, i32) {
    open spec fn le_spec(&self, other: &Self) -> bool {
        self.0 > other.0 || (self.0 == other.0 && self.1 >= other.1)
    }

    proof fn lemma_le_total(a: Self, b: Self) {
    }

    proof fn lemma_le_trans(a: Self, b: Self, c: Self) {
    }

    fn le(&self, other: &Self) -> (r: bool) {
        if self.0 > other.0 {
            true
        } else if self.0 < other.0 {
            false
        } else {
            self.1 >= other.1
        }
    }
}

/// Names ordered case-insensitively: by the lexicographic order of their
/// lowercase forms.
impl TotalOrdered for String {
    open spec fn le_spec(&self, other: &Self) -> bool {
        lex_le(lower_str_of(self@), lower_str_of(other@))
    }

    proof fn lemma_le_total(a: Self, b: Self) {
        lemma_lex_le_total(lower_str_of(a@), lower_str_of(b@));
    }

    proof fn lemma_le_trans(a: Self, b: Self, c: Self) {
        lemma_lex_le_trans(lower_str_of(a@), lower_str_of(b@), lower_str_of(c@));
    }

    fn le(&self, other: &Self) -> (r: bool) {
        let a = to_lowercase_str(self.as_str());
        let b = to_lowercase_str(other.as_str());
        lex_le_str(a.as_str(), b.as_str())
    }
}

} // verus!
