//! Totals under text keys: the result of grouping amounts.

use vstd::prelude::*;
use vstd::string::StringExecFns;

verus! {

/// A key with the total of the amounts grouped under it.
#[derive(Debug)]
struct Slot {
    key: String,
    total: i128,
}

/// Totals under distinct text keys, in the order in which the keys first
/// occurred.
#[derive(Debug)]
pub struct Totals {
    slots: Vec<Slot>,
}

/// The entries that result from adding `amount` under `key`: the total of
/// `key` grows by it, and a key that was absent is appended with it.
pub open spec fn added(entries: Seq<(Seq<char>, int)>, key: Seq<char>, amount: int) -> Seq<
    (Seq<char>, int),
> {
    if exists|j: int| 0 <= j < entries.len() && (#[trigger] entries[j]).0 == key {
        Seq::new(
            entries.len(),
            |j: int|
                if entries[j].0 == key {
                    (key, entries[j].1 + amount)
                } else {
                    entries[j]
                },
        )
    } else {
        entries.push((key, amount))
    }
}

/// The total under `key`, if the key is among the entries.
pub open spec fn total_under(entries: Seq<(Seq<char>, int)>, key: Seq<char>) -> Option<int> {
    if exists|j: int| 0 <= j < entries.len() && (#[trigger] entries[j]).0 == key {
        let j = choose|j: int| 0 <= j < entries.len() && (#[trigger] entries[j]).0 == key;
        Some(entries[j].1)
    } else {
        None
    }
}

/// The sum of the totals.
pub open spec fn sum_of(entries: Seq<(Seq<char>, int)>) -> int
    decreases entries.len(),
{
    if entries.len() == 0 {
        0
    } else {
        sum_of(entries.drop_last()) + entries.last().1
    }
}

/// The quotient of `a` by a positive `n`, rounded toward zero.
pub open spec fn quotient_toward_zero(a: int, n: int) -> int {
    if a >= 0 {
        a / n
    } else {
        -((-a) / n)
    }
}

/// The arithmetic mean of the totals in whole hundredths, rounded toward
/// zero; zero if there are no totals.
pub open spec fn mean_of(entries: Seq<(Seq<char>, int)>) -> int {
    if entries.len() == 0 {
        0
    } else {
        quotient_toward_zero(sum_of(entries), entries.len() as int)
    }
}

/// Whether no key occurs twice among the entries.
pub open spec fn distinct_keys(entries: Seq<(Seq<char>, int)>) -> bool {
    forall|i: int, j: int|
        0 <= i < j < entries.len() ==> (#[trigger] entries[i]).0 != (#[trigger] entries[j]).0
}

impl View for Totals {
    type V = Seq<(Seq<char>, int)>;

    closed spec fn view(&self) -> Seq<(Seq<char>, int)> {
        Seq::new(self.slots@.len(), |j: int| (self.slots@[j].key@, self.slots@[j].total as int))
    }
}

impl Totals {
    #[verifier::type_invariant]
    spec fn keys_are_distinct(self) -> bool {
        distinct_keys(self@)
    }

    /// No totals.
    pub fn new() -> (r: Totals)
        ensures
            r@ == Seq::<(Seq<char>, int)>::empty(),
    {
        let r = Totals { slots: Vec::new() };
        assert(r@ =~= Seq::<(Seq<char>, int)>::empty());
        r
    }

    /// The number of keys.
    pub fn len(&self) -> (n: usize)
        ensures
            n == self@.len(),
    {
        self.slots.len()
    }

    /// The key at place `i`.
    pub fn key(&self, i: usize) -> (key: &String)
        requires
            i < self@.len(),
        ensures
            key@ == self@[i as int].0,
    {
        &self.slots[i].key
    }

    /// The total at place `i`.
    pub fn total(&self, i: usize) -> (total: i128)
        requires
            i < self@.len(),
        ensures
            total == self@[i as int].1,
    {
        self.slots[i].total
    }

    /// The place of `key`, if it is among the keys.
    pub fn position(&self, key: &String) -> (r: Option<usize>)
        ensures
            r matches Some(j) ==> j < self@.len() && self@[j as int].0 == key@,
            r is None ==> forall|j: int| 0 <= j < self@.len() ==> (#[trigger] self@[j]).0 != key@,
    {
        let mut j: usize = 0;
        while j < self.slots.len()
            invariant
                j <= self.slots.len(),
                forall|i: int| 0 <= i < j ==> (#[trigger] self@[i]).0 != key@,
            decreases self.slots.len() - j,
        {
            if self.slots[j].key == *key {
                return Some(j);
            }
            j = j + 1;
        }
        None
    }

    /// The total under `key`, if it is among the keys.
    pub fn get(&self, key: &str) -> (r: Option<i128>)
        ensures
            r matches Some(total) ==> total_under(self@, key@) == Some(total as int),
            r is None ==> total_under(self@, key@) is None,
    {
        proof {
            use_type_invariant(self);
        }
        let key = String::from_str(key);
        match self.position(&key) {
            Some(j) => {
                assert(self@[j as int].0 == key@);
                Some(self.slots[j].total)
            },
            None => None,
        }
    }

    /// The totals with `amount` added to the total under `key`.
    pub fn add(self, key: String, amount: i64) -> (r: Totals)
        requires
            forall|j: int|
                0 <= j < self@.len() ==> i128::MIN <= (#[trigger] self@[j]).1 + amount
                    <= i128::MAX,
        ensures
            r@ == added(self@, key@, amount as int),
    {
        proof {
            use_type_invariant(&self);
        }
        let ghost before = self@;
        let found = self.position(&key);
        let mut slots = self.slots;
        match found {
            Some(j) => {
                assert(before[j as int].0 == key@);
                let total = slots[j].total + amount as i128;
                slots[j].total = total;
            },
            None => {
                slots.push(Slot { key, total: amount as i128 });
            },
        }
        let ghost after = Seq::new(slots@.len(), |j: int| (slots@[j].key@, slots@[j].total as int));
        assert(after =~= added(before, key@, amount as int));
        let r = Totals { slots };
        assert(r@ =~= after);
        r
    }
}

} // verus!
