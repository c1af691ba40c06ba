//! The lists of numbers that a search has already met.

use vstd::prelude::*;
use crate::number_list::NumberList;

verus! {

/// The number of buckets of a [`VisitedSet`].
pub const BUCKET_COUNT: usize = 65521;

/// The factor by which the bucket number grows from one number to the next.
pub const BUCKET_STEP: u64 = 1000003;

/// The bucket in which a list of numbers is kept.
pub open spec fn bucket_of(s: Seq<u32>) -> nat
    decreases s.len(),
{
    if s.len() == 0 {
        0
    } else {
        ((bucket_of(s.drop_last()) * BUCKET_STEP + s.last()) % (BUCKET_COUNT as int)) as nat
    }
}

fn bucket_index(list: &NumberList) -> (r: usize)
    ensures
        r == bucket_of(list@),
        r < BUCKET_COUNT,
{
    let numbers = list.as_slice();
    let mut bucket: u64 = 0;
    let mut k: usize = 0;
    while k < numbers.len()
        invariant
            k <= numbers@.len(),
            bucket == bucket_of(numbers@.take(k as int)),
            bucket < BUCKET_COUNT,
        decreases numbers@.len() - k,
    {
        assert(numbers@.take(k + 1).drop_last() == numbers@.take(k as int));
        bucket = (bucket * BUCKET_STEP + numbers[k] as u64) % (BUCKET_COUNT as u64);
        k += 1;
    }
    assert(numbers@.take(numbers@.len() as int) == numbers@);
    bucket as usize
}

/// A set of lists of numbers.
///
/// Lists with the same numbers are the same member, in whichever order the
/// numbers were given when the lists were made.
pub struct VisitedSet {
    buckets: Vec<Vec<NumberList>>,
}

impl View for VisitedSet {
    type V = Set<Seq<u32>>;

    closed spec fn view(&self) -> Set<Seq<u32>> {
        Set::new(
            |s: Seq<u32>|
                exists|b: int, k: int|
                    0 <= b < self.buckets@.len() && 0 <= k < self.buckets@[b]@.len()
                        && (#[trigger] self.buckets@[b]@[k])@ == s,
        )
    }
}

impl VisitedSet {
    /// Every member lies in the bucket that its numbers lead to.
    pub closed spec fn wf(&self) -> bool {
        &&& self.buckets@.len() == BUCKET_COUNT
        &&& forall|b: int, k: int|
            0 <= b < self.buckets@.len() && 0 <= k < self.buckets@[b]@.len() ==> bucket_of(
                (#[trigger] self.buckets@[b]@[k])@,
            ) == b
    }

    /// The empty set.
    pub fn new() -> (r: Self)
        ensures
            r.wf(),
            r@ == Set::<Seq<u32>>::empty(),
    {
        let mut buckets: Vec<Vec<NumberList>> = Vec::with_capacity(BUCKET_COUNT);
        let mut b: usize = 0;
        while b < BUCKET_COUNT
            invariant
                b <= BUCKET_COUNT,
                buckets@.len() == b,
                forall|i: int| 0 <= i < b ==> (#[trigger] buckets@[i])@.len() == 0,
            decreases BUCKET_COUNT - b,
        {
            buckets.push(Vec::new());
            b += 1;
        }
        Self { buckets }
    }

    /// Whether a list with the numbers of `list` is a member.
    pub fn contains(&self, list: &NumberList) -> (r: bool)
        requires
            self.wf(),
        ensures
            r == self@.contains(list@),
    {
        let b = bucket_index(list);
        let bucket = &self.buckets[b];
        let mut k: usize = 0;
        while k < bucket.len()
            invariant
                b < self.buckets@.len(),
                bucket@ == self.buckets@[b as int]@,
                k <= bucket@.len(),
                forall|i: int| 0 <= i < k ==> (#[trigger] bucket@[i])@ != list@,
            decreases bucket@.len() - k,
        {
            if bucket[k] == *list {
                return true;
            }
            k += 1;
        }
        false
    }

    /// Makes `list` a member.
    pub fn insert(&mut self, list: NumberList)
        requires
            old(self).wf(),
        ensures
            final(self).wf(),
            final(self)@ == old(self)@.insert(list@),
    {
        let b = bucket_index(&list);
        let ghost before = self.buckets@;
        let ghost added = list@;
        self.buckets[b].push(list);
        proof {
            let after = self.buckets@;
            assert forall|s: Seq<u32>| final(self)@.contains(s) <==> old(self)@.insert(added).contains(
                s,
            ) by {
                if old(self)@.contains(s) {
                    let (c, k) = choose|c: int, k: int|
                        0 <= c < before.len() && 0 <= k < before[c]@.len() && (
                        #[trigger] before[c]@[k])@ == s;
                    assert((after[c]@[k])@ == s);
                }
                if s == added {
                    assert((after[b as int]@[before[b as int]@.len() as int])@ == s);
                }
            }
        }
    }
}

} // verus!
