//! List processing: sums, filters and projections over vectors.

use vstd::prelude::*;

verus! {

/// A person on a roster.
#[derive(Debug)]
pub struct Person {
    pub name: String,
    pub age: i32,
}

impl PartialEq for Person {
    fn eq(&self, other: &Person) -> (r: bool) {
        let names_equal = self.name == other.name;
        names_equal && self.age == other.age
    }
}

impl vstd::std_specs::cmp::PartialEqSpecImpl for Person {
    open spec fn obeys_eq_spec() -> bool {
        true
    }

    open spec fn eq_spec(&self, other: &Person) -> bool {
        self.name@ == other.name@ && self.age == other.age
    }
}

/// Sum of a sequence of numbers, as an unbounded integer.
pub open spec fn sum_ints(s: Seq<i32>) -> int
    decreases s.len(),
{
    if s.len() == 0 {
        0
    } else {
        sum_ints(s.drop_last()) + s.last()
    }
}

/// Adds up a list of numbers; the caller keeps every partial sum in range.
pub fn compute_sum_of_numbers(numbers: Vec<i32>) -> (r: i32)
    requires
        forall|k: int|
            0 <= k <= numbers@.len() ==> i32::MIN <= #[trigger] sum_ints(numbers@.take(k))
                <= i32::MAX,
    ensures
        r == sum_ints(numbers@),
{
    let mut acc: i32 = 0;
    let mut i: usize = 0;
    proof {
        assert(numbers@.take(0) =~= Seq::<i32>::empty());
    }
    while i < numbers.len()
        invariant
            0 <= i <= numbers@.len(),
            acc == sum_ints(numbers@.take(i as int)),
            forall|k: int|
                0 <= k <= numbers@.len() ==> i32::MIN <= #[trigger] sum_ints(numbers@.take(k))
                    <= i32::MAX,
        decreases numbers@.len() - i,
    {
        proof {
            assert(numbers@.take(i + 1).drop_last() =~= numbers@.take(i as int));
            assert(sum_ints(numbers@.take(i + 1)) == acc + numbers@[i as int]);
        }
        acc = acc + numbers[i];
        i = i + 1;
    }
    proof {
        assert(numbers@.take(numbers@.len() as int) =~= numbers@);
    }
    acc
}

/// Whether a number is even.
pub open spec fn is_even_value(x: i32) -> bool {
    (x as int) % 2 == 0
}

/// The even numbers of a sequence, in order.
pub open spec fn evens_of(s: Seq<i32>) -> Seq<i32> {
    s.filter(|x: i32| is_even_value(x))
}

/// Keeps the even numbers of a list, in order.
pub fn find_even_numbers(numbers: Vec<i32>) -> (r: Vec<i32>)
    ensures
        r@ == evens_of(numbers@),
{
    let mut r: Vec<i32> = Vec::new();
    let mut i: usize = 0;
    proof {
        reveal(Seq::filter);
        assert(r@ =~= evens_of(numbers@.take(0)));
    }
    while i < numbers.len()
        invariant
            0 <= i <= numbers@.len(),
            r@ == evens_of(numbers@.take(i as int)),
        decreases numbers@.len() - i,
    {
        proof {
            reveal(Seq::filter);
            assert(numbers@.take(i + 1).drop_last() =~= numbers@.take(i as int));
        }
        if crate::basics::is_even(numbers[i]) {
            r.push(numbers[i]);
        }
        i = i + 1;
    }
    proof {
        assert(numbers@.take(numbers@.len() as int) =~= numbers@);
    }
    r
}

/// Whether a number is strictly positive.
pub open spec fn is_positive_value(x: i32) -> bool {
    x > 0
}

/// The strictly positive numbers of a sequence, in order.
pub open spec fn positives_of(s: Seq<i32>) -> Seq<i32> {
    s.filter(|x: i32| is_positive_value(x))
}

/// Keeps the strictly positive numbers of a list, in order.
pub fn find_positive_numbers(numbers: Vec<i32>) -> (r: Vec<i32>)
    ensures
        r@ == positives_of(numbers@),
{
    let mut r: Vec<i32> = Vec::new();
    let mut i: usize = 0;
    proof {
        reveal(Seq::filter);
        assert(r@ =~= positives_of(numbers@.take(0)));
    }
    while i < numbers.len()
        invariant
            0 <= i <= numbers@.len(),
            r@ == positives_of(numbers@.take(i as int)),
        decreases numbers@.len() - i,
    {
        proof {
            reveal(Seq::filter);
            assert(numbers@.take(i + 1).drop_last() =~= numbers@.take(i as int));
        }
        if numbers[i] > 0 {
            r.push(numbers[i]);
        }
        i = i + 1;
    }
    proof {
        assert(numbers@.take(numbers@.len() as int) =~= numbers@);
    }
    r
}

/// The last number of a list, or zero when it is empty.
pub fn find_last_number_or_zero(numbers: Vec<i32>) -> (r: i32)
    ensures
        r == if numbers@.len() == 0 {
            0
        } else {
            numbers@.last()
        },
{
    if numbers.len() == 0 {
        0
    } else {
        numbers[numbers.len() - 1]
    }
}

/// Sum of the ages on a roster, as an unbounded integer.
pub open spec fn sum_ages(s: Seq<Person>) -> int
    decreases s.len(),
{
    if s.len() == 0 {
        0
    } else {
        sum_ages(s.drop_last()) + s.last().age
    }
}

/// Adds up all ages; the caller keeps every partial sum in range.
pub fn find_total_age(persons: Vec<Person>) -> (r: i32)
    requires
        forall|k: int|
            0 <= k <= persons@.len() ==> i32::MIN <= #[trigger] sum_ages(persons@.take(k))
                <= i32::MAX,
    ensures
        r == sum_ages(persons@),
{
    let mut acc: i32 = 0;
    let mut i: usize = 0;
    proof {
        assert(persons@.take(0) =~= Seq::<Person>::empty());
    }
    while i < persons.len()
        invariant
            0 <= i <= persons@.len(),
            acc == sum_ages(persons@.take(i as int)),
            forall|k: int|
                0 <= k <= persons@.len() ==> i32::MIN <= #[trigger] sum_ages(persons@.take(k))
                    <= i32::MAX,
        decreases persons@.len() - i,
    {
        proof {
            assert(persons@.take(i + 1).drop_last() =~= persons@.take(i as int));
            assert(sum_ages(persons@.take(i + 1)) == acc + persons@[i as int].age);
        }
        acc = acc + persons[i].age;
        i = i + 1;
    }
    proof {
        assert(persons@.take(persons@.len() as int) =~= persons@);
    }
    acc
}

/// The elements of `s` selected by the mask `keep`, in order.
pub open spec fn mask_filter(s: Seq<Person>, keep: Seq<bool>) -> Seq<Person>
    recommends
        keep.len() == s.len(),
    decreases s.len(),
{
    if s.len() == 0 {
        Seq::empty()
    } else {
        let rest = mask_filter(s.drop_last(), keep.drop_last());
        if keep.len() == s.len() && keep.last() {
            rest.push(s.last())
        } else {
            rest
        }
    }
}

/// Keeps the persons the predicate accepts, in order. The predicate may
/// be any callable; the mask records what it answered for each entry.
pub fn find_sub_list_from_predicate<F: Fn(&Person) -> bool>(
    persons: Vec<Person>,
    predicate: F,
) -> (r: Vec<Person>)
    requires
        forall|q: &Person| #[trigger] call_requires(predicate, (q,)),
    ensures
        exists|keep: Seq<bool>|
            keep.len() == persons@.len() && (forall|t: int|
                0 <= t < keep.len() ==> call_ensures(predicate, (&persons@[t],), #[trigger] keep[t]))
                && r@ == mask_filter(persons@, keep),
{
    let ghost orig = persons@;
    proof {
        assert(orig.len() <= usize::MAX) by {
            assert(persons.len() == persons@.len());
        }
    }
    let mut rest = persons;
    let mut r: Vec<Person> = Vec::new();
    let ghost mut keep = Seq::<bool>::empty();
    let mut i: usize = 0;
    proof {
        assert(rest@ =~= orig.skip(0));
        assert(r@ =~= mask_filter(orig.take(0), keep));
    }
    while rest.len() > 0
        invariant
            0 <= i,
            orig.len() <= usize::MAX,
            i + rest@.len() == orig.len(),
            rest@ == orig.skip(i as int),
            keep.len() == i,
            forall|t: int|
                0 <= t < keep.len() ==> call_ensures(predicate, (&orig[t],), #[trigger] keep[t]),
            r@ == mask_filter(orig.take(i as int), keep),
            forall|q: &Person| #[trigger] call_requires(predicate, (q,)),
        decreases rest@.len(),
    {
        let p = rest.remove(0);
        proof {
            assert(p == orig[i as int]);
            assert(rest@ =~= orig.skip(i as int + 1));
        }
        let b = predicate(&p);
        proof {
            assert(orig.take(i as int + 1).drop_last() =~= orig.take(i as int));
            assert(keep.push(b).drop_last() =~= keep);
            assert(orig.take(i as int + 1).last() == orig[i as int]);
        }
        if b {
            r.push(p);
        }
        proof {
            keep = keep.push(b);
            assert(r@ == mask_filter(orig.take(i as int + 1), keep));
        }
        i = i + 1;
    }
    proof {
        assert(orig.take(orig.len() as int) =~= orig);
        assert(rest@.len() == 0);
    }
    r
}

/// Repeats each element of a list twice, in place order.
pub fn duplicate(elements: Vec<i32>) -> (r: Vec<i32>)
    ensures
        r@.len() == 2 * elements@.len(),
        forall|k: int|
            0 <= k < elements@.len() ==> #[trigger] r@[2 * k] == elements@[k] && r@[2 * k + 1]
                == elements@[k],
{
    let mut r: Vec<i32> = Vec::new();
    let mut i: usize = 0;
    while i < elements.len()
        invariant
            0 <= i <= elements@.len(),
            r@.len() == 2 * i,
            forall|k: int|
                0 <= k < i ==> #[trigger] r@[2 * k] == elements@[k] && r@[2 * k + 1]
                    == elements@[k],
        decreases elements@.len() - i,
    {
        let ghost prev = r@;
        let x = elements[i];
        r.push(x);
        r.push(x);
        proof {
            assert forall|k: int|
                0 <= k < i + 1 implies #[trigger] r@[2 * k] == elements@[k] && r@[2 * k + 1]
                == elements@[k] by {
                if k < i {
                    assert(r@[2 * k] == prev[2 * k]);
                    assert(r@[2 * k + 1] == prev[2 * k + 1]);
                } else {
                    assert(r@[2 * k] == x);
                    assert(r@[2 * k + 1] == x);
                }
            }
        }
        i = i + 1;
    }
    r
}

} // verus!
