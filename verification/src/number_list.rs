//! The numbers that are still available: a multiset, kept in ascending order.

use vstd::prelude::*;
use vstd::multiset::{group_multiset_axioms, lemma_multiset_empty_len, Multiset};
use vstd::seq_lib::{
    group_to_multiset_ensures, to_multiset_build, to_multiset_contains, to_multiset_len,
    to_multiset_remove,
};
use crate::operation::Operation;
use crate::pairs::{
    drawn_from, law_pairing, lemma_pair_count, pair_at, pair_limit, pair_lt, pair_values,
    NumberListPairIterator,
};
use crate::sorting::{canonical, is_sorted, law_canonical, lemma_sorted_is_canonical, sort_ascending};

verus! {

/// The two operands of `op`, each as often as `op` uses it.
pub open spec fn operands(op: Operation) -> Multiset<u32> {
    Multiset::empty().insert(op.op1).insert(op.op2)
}

/// The numbers `s` hold both operands of `op`: twice the same number only
/// where it occurs twice.
pub open spec fn has_operands(s: Seq<u32>, op: Operation) -> bool {
    operands(op).subset_of(s.to_multiset())
}

/// The numbers `s` after `op` has been applied to them: one occurrence of each
/// operand is gone, the result has come in, and the whole is in ascending
/// order again.
pub open spec fn substituted(s: Seq<u32>, op: Operation) -> Seq<u32> {
    let rest = s.remove_value(op.op1).remove_value(op.op2);
    match op.outcome() {
        Some(v) => canonical(rest.push(v)),
        None => canonical(rest),
    }
}

/// Taking out the first occurrence of a number takes one occurrence out of
/// the multiset.
proof fn lemma_remove_value(s: Seq<u32>, x: u32)
    ensures
        s.remove_value(x).to_multiset() == s.to_multiset().remove(x),
{
    broadcast use group_multiset_axioms;

    s.index_of_first_ensures(x);
    match s.index_of_first(x) {
        Some(i) => {
            to_multiset_remove(s, i);
        },
        None => {
            to_multiset_contains(s, x);
        },
    }
}

/// Applying an operation to numbers that hold its operands removes exactly
/// one occurrence of each operand, also where the two are equal, and adds
/// exactly one occurrence of the result. One number fewer is left, in
/// ascending order.
pub proof fn law_substitution(s: Seq<u32>, op: Operation)
    requires
        has_operands(s, op),
        op.outcome() is Some,
    ensures
        substituted(s, op).to_multiset() == s.to_multiset().sub(operands(op)).insert(
            op.outcome().unwrap(),
        ),
        substituted(s, op).len() == s.len() - 1,
        is_sorted(substituted(s, op)),
{
    broadcast use group_multiset_axioms;
    broadcast use group_to_multiset_ensures;

    let v = op.outcome().unwrap();
    let once = s.remove_value(op.op1);
    let rest = once.remove_value(op.op2);
    lemma_remove_value(s, op.op1);
    lemma_remove_value(once, op.op2);
    to_multiset_build(rest, v);
    law_canonical(rest.push(v));
    assert(substituted(s, op).to_multiset().len() == s.to_multiset().len() - 1);
}

/// Numbers at two different positions serve as the operands of an operation,
/// whichever operator it has and in whichever order they are given.
pub proof fn lemma_drawn_has_operands(s: Seq<u32>, p: (u32, u32), op: Operation)
    requires
        drawn_from(s, p),
        (op.op1 == p.0 && op.op2 == p.1) || (op.op1 == p.1 && op.op2 == p.0),
    ensures
        has_operands(s, op),
        s.len() >= 2,
{
    broadcast use group_multiset_axioms;

    let (i, j) = choose|i: int, j: int| 0 <= i < j < s.len() && p == #[trigger] pair_at(s, (i, j));
    let without = s.remove(j);
    to_multiset_remove(s, j);
    assert(without[i] == s[i]);
    to_multiset_contains(without, s[i]);
    to_multiset_contains(s, s[j]);
    assert forall|x: u32| operands(op).count(x) <= s.to_multiset().count(x) by {}
}

/// The operands that a scan has left out so far.
spec fn taken(found1: bool, found2: bool, op: Operation) -> Multiset<u32> {
    let first = if found1 {
        Multiset::singleton(op.op1)
    } else {
        Multiset::empty()
    };
    let second = if found2 {
        Multiset::singleton(op.op2)
    } else {
        Multiset::empty()
    };
    first.add(second)
}

/// A multiset of numbers, held in ascending order.
///
/// Two lists with the same numbers are equal, in whichever order the numbers
/// were given.
#[derive(Debug, Hash)]
pub struct NumberList {
    numbers: Vec<u32>,
}

impl View for NumberList {
    type V = Seq<u32>;

    closed spec fn view(&self) -> Seq<u32> {
        self.numbers@
    }
}

impl NumberList {
    /// The numbers are in ascending order. This holds of every list.
    #[verifier::type_invariant]
    pub open spec fn ascending(self) -> bool {
        is_sorted(self@)
    }

    /// The numbers of the list, each as often as it occurs.
    pub open spec fn multiset(&self) -> Multiset<u32> {
        self@.to_multiset()
    }

    /// The list of the given numbers, in whichever order they come.
    pub fn new(numbers: Vec<u32>) -> (r: Self)
        ensures
            r@ == canonical(numbers@),
            is_sorted(r@),
            r.multiset() == numbers@.to_multiset(),
            r@.len() == numbers@.len(),
    {
        Self { numbers: sort_ascending(numbers) }
    }

    /// The operand pairs of the list, each with its larger number first, in
    /// the order in which they are to be tried.
    ///
    /// The numbers at any two different positions are among them, and none
    /// comes twice, however often a number occurs in the list.
    pub fn build_pairs(&self) -> (r: Vec<(u32, u32)>)
        ensures
            r@ == pair_values(self@),
            r@.len() <= pair_limit(self@.len()),
            forall|i: int, j: int|
                0 <= i < j < self@.len() ==> r@.contains(#[trigger] pair_at(self@, (i, j))),
            forall|k: int| 0 <= k < r@.len() ==> drawn_from(self@, #[trigger] r@[k]),
            forall|k: int| 0 <= k < r@.len() ==> (#[trigger] r@[k]).0 >= r@[k].1,
            forall|k: int, l: int|
                0 <= k < l < r@.len() ==> pair_lt(#[trigger] r@[k], #[trigger] r@[l]),
            r@.no_duplicates(),
    {
        let mut cursor = NumberListPairIterator::new(&self.numbers);
        let mut pairs: Vec<(u32, u32)> = Vec::new();
        loop
            invariant
                cursor.wf(),
                cursor.numbers() == self.numbers@,
                pairs@ + cursor.remaining() == pair_values(self.numbers@),
            ensures
                pairs@ == pair_values(self.numbers@),
            decreases cursor.remaining().len(),
        {
            match cursor.next() {
                Some(pair) => pairs.push(pair),
                None => break ,
            }
        }
        proof {
            use_type_invariant(self);
            law_pairing(self@);
            lemma_pair_count(self@);
        }
        pairs
    }

    /// The list after `operation` has been applied to it: the first
    /// occurrence of each operand is left out, and the result is put in.
    pub fn substitute_operation(&self, operation: &Operation) -> (r: Self)
        requires
            has_operands(self@, *operation),
            operation.outcome() is Some,
        ensures
            r@ == substituted(self@, *operation),
            is_sorted(r@),
            r.multiset() == self.multiset().sub(operands(*operation)).insert(
                operation.outcome().unwrap(),
            ),
            r@.len() == self@.len() - 1,
    {
        broadcast use group_multiset_axioms;

        let ghost s = self.numbers@;
        let ghost op = *operation;
        let value = operation.result().unwrap();
        proof {
            law_substitution(s, op);
        }
        let mut found1 = false;
        let mut found2 = false;
        let mut numbers: Vec<u32> = Vec::with_capacity(self.numbers.len() - 1);
        numbers.push(value);
        assert(s.take(0) == Seq::<u32>::empty());
        proof {
            to_multiset_build(Seq::<u32>::empty(), value);
            to_multiset_len(Seq::<u32>::empty());
            lemma_multiset_empty_len(Seq::<u32>::empty().to_multiset());
            assert(numbers@.to_multiset() =~= s.take(0).to_multiset().sub(
                taken(found1, found2, op),
            ).insert(value));
        }
        let mut k: usize = 0;
        while k < self.numbers.len()
            invariant
                k <= s.len(),
                s == self.numbers@,
                op == *operation,
                found1 <==> s.take(k as int).to_multiset().count(op.op1) >= 1,
                found2 <==> (if op.op1 == op.op2 {
                    s.take(k as int).to_multiset().count(op.op1) >= 2
                } else {
                    s.take(k as int).to_multiset().count(op.op2) >= 1
                }),
                numbers@.to_multiset() == s.take(k as int).to_multiset().sub(
                    taken(found1, found2, op),
                ).insert(value),
            decreases s.len() - k,
        {
            let item = self.numbers[k];
            proof {
                assert(s.take(k + 1) == s.take(k as int).push(item));
                to_multiset_build(s.take(k as int), item);
            }
            if !found1 && item == operation.op1 {
                found1 = true;
            } else if !found2 && item == operation.op2 {
                found2 = true;
            } else {
                proof {
                    to_multiset_build(numbers@, item);
                }
                numbers.push(item);
            }
            k += 1;
        }
        proof {
            assert(s.take(s.len() as int) == s);
            assert(taken(found1, found2, op) =~= operands(op));
            lemma_sorted_is_canonical(numbers@, substituted(s, op));
        }
        Self { numbers: sort_ascending(numbers) }
    }

    /// How many numbers are left.
    pub fn len(&self) -> (r: usize)
        ensures
            r == self@.len(),
    {
        self.numbers.len()
    }

    /// The numbers in ascending order.
    pub fn as_slice(&self) -> (r: &[u32])
        ensures
            r@ == self@,
            is_sorted(r@),
    {
        proof {
            use_type_invariant(self);
        }
        self.numbers.as_slice()
    }
}

impl Clone for NumberList {
    fn clone(&self) -> (r: Self)
        ensures
            r@ == self@,
    {
        proof {
            use_type_invariant(self);
        }
        let numbers = self.numbers.clone();
        Self { numbers }
    }
}

impl PartialEq for NumberList {
    fn eq(&self, other: &Self) -> (r: bool) {
        if self.numbers.len() != other.numbers.len() {
            return false;
        }
        let mut k: usize = 0;
        while k < self.numbers.len()
            invariant
                k <= self.numbers@.len(),
                self.numbers@.len() == other.numbers@.len(),
                forall|i: int| 0 <= i < k ==> self.numbers@[i] == other.numbers@[i],
            decreases self.numbers@.len() - k,
        {
            if self.numbers[k] != other.numbers[k] {
                return false;
            }
            k += 1;
        }
        assert(self.numbers@ =~= other.numbers@);
        true
    }
}

impl Eq for NumberList {

}

impl vstd::std_specs::cmp::PartialEqSpecImpl for NumberList {
    open spec fn obeys_eq_spec() -> bool {
        true
    }

    open spec fn eq_spec(&self, other: &Self) -> bool {
        self@ == other@
    }
}

} // verus!
