//! Totals by category for each month.

use crate::totals::{sum_of, Totals};
use vstd::prelude::*;
use vstd::string::StringExecFns;

verus! {

/// A month with the totals of its categories.
#[derive(Debug)]
struct MonthSlot {
    month: String,
    totals: Totals,
}

/// The totals of the categories of each month, under distinct month keys in
/// the order in which the months first occurred.
#[derive(Debug)]
pub struct Breakdown {
    slots: Vec<MonthSlot>,
}

/// Whether no month occurs twice.
pub open spec fn distinct_months(months: Seq<(Seq<char>, Seq<(Seq<char>, int)>)>) -> bool {
    forall|i: int, j: int|
        0 <= i < j < months.len() ==> (#[trigger] months[i]).0 != (#[trigger] months[j]).0
}

/// The totals of `month`, if it is among the months.
pub open spec fn totals_under(
    months: Seq<(Seq<char>, Seq<(Seq<char>, int)>)>,
    month: Seq<char>,
) -> Option<Seq<(Seq<char>, int)>> {
    if exists|j: int| 0 <= j < months.len() && (#[trigger] months[j]).0 == month {
        let j = choose|j: int| 0 <= j < months.len() && (#[trigger] months[j]).0 == month;
        Some(months[j].1)
    } else {
        None
    }
}

/// The sum of all the totals of all the months.
pub open spec fn sum_of_all(months: Seq<(Seq<char>, Seq<(Seq<char>, int)>)>) -> int
    decreases months.len(),
{
    if months.len() == 0 {
        0
    } else {
        sum_of_all(months.drop_last()) + sum_of(months.last().1)
    }
}

impl View for Breakdown {
    type V = Seq<(Seq<char>, Seq<(Seq<char>, int)>)>;

    closed spec fn view(&self) -> Seq<(Seq<char>, Seq<(Seq<char>, int)>)> {
        Seq::new(self.slots@.len(), |j: int| (self.slots@[j].month@, self.slots@[j].totals@))
    }
}

impl Breakdown {
    #[verifier::type_invariant]
    spec fn months_are_distinct(self) -> bool {
        distinct_months(self@)
    }

    /// No months.
    pub fn new() -> (r: Breakdown)
        ensures
            r@ == Seq::<(Seq<char>, Seq<(Seq<char>, int)>)>::empty(),
    {
        let r = Breakdown { slots: Vec::new() };
        assert(r@ =~= Seq::<(Seq<char>, Seq<(Seq<char>, int)>)>::empty());
        r
    }

    /// The number of months.
    pub fn len(&self) -> (n: usize)
        ensures
            n == self@.len(),
    {
        self.slots.len()
    }

    /// The key of the month at place `i`.
    pub fn month(&self, i: usize) -> (month: &String)
        requires
            i < self@.len(),
        ensures
            month@ == self@[i as int].0,
    {
        &self.slots[i].month
    }

    /// The totals of the month at place `i`.
    pub fn totals(&self, i: usize) -> (totals: &Totals)
        requires
            i < self@.len(),
        ensures
            totals@ == self@[i as int].1,
    {
        &self.slots[i].totals
    }

    /// The place of `month`, if it is among the months.
    pub fn position(&self, month: &String) -> (r: Option<usize>)
        ensures
            r matches Some(j) ==> j < self@.len() && self@[j as int].0 == month@,
            r is None ==> forall|j: int| 0 <= j < self@.len() ==> (#[trigger] self@[j]).0 != month@,
    {
        let mut j: usize = 0;
        while j < self.slots.len()
            invariant
                j <= self.slots.len(),
                forall|i: int| 0 <= i < j ==> (#[trigger] self@[i]).0 != month@,
            decreases self.slots.len() - j,
        {
            if self.slots[j].month == *month {
                return Some(j);
            }
            j = j + 1;
        }
        None
    }

    /// The totals of `month`, if it is among the months.
    pub fn get(&self, month: &str) -> (r: Option<&Totals>)
        ensures
            r matches Some(totals) ==> totals_under(self@, month@) == Some(totals@),
            r is None ==> totals_under(self@, month@) is None,
    {
        proof {
            use_type_invariant(self);
        }
        let month = String::from_str(month);
        match self.position(&month) {
            Some(j) => {
                assert(self@[j as int].0 == month@);
                Some(&self.slots[j].totals)
            },
            None => None,
        }
    }

    /// The breakdown with a month that it does not hold yet added at the end.
    pub fn with(self, month: String, totals: Totals) -> (r: Breakdown)
        requires
            forall|j: int| 0 <= j < self@.len() ==> (#[trigger] self@[j]).0 != month@,
        ensures
            r@ == self@.push((month@, totals@)),
    {
        proof {
            use_type_invariant(&self);
        }
        let ghost before = self@;
        let mut slots = self.slots;
        slots.push(MonthSlot { month, totals });
        let ghost after = Seq::new(
            slots@.len(),
            |j: int| (slots@[j].month@, slots@[j].totals@),
        );
        assert(after =~= before.push((month@, totals@)));
        let r = Breakdown { slots };
        assert(r@ =~= after);
        r
    }
}

} // verus!
