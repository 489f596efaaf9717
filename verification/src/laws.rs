//! What holds of the summaries of any transactions.

use crate::breakdown::sum_of_all;
use crate::grouping::{
    keys_of, lemma_keys_cover, lemma_keys_distinct, lemma_keys_occur, lemma_tally_sum,
    lemma_within_all, members_of, total_amount, total_of, totals_by, Grouping,
};
use crate::spending::monthly_totals;
use crate::timestamp::lemma_month_label_injective;
use crate::totals::{distinct_keys, mean_of, quotient_toward_zero, sum_of, total_under};
use crate::transaction::Entry;
use vstd::prelude::*;

verus! {

/// The totals under the keys of a grouping sum to the sum of all the amounts:
/// every transaction counts under exactly one key.
pub proof fn lemma_totals_partition(entries: Seq<Entry>, grouping: Grouping)
    ensures
        sum_of(totals_by(entries, grouping)) == total_amount(entries),
{
    let keys = keys_of(entries, grouping);
    lemma_keys_distinct(entries, grouping);
    lemma_tally_sum(entries, grouping, keys);
    assert forall|i: int| 0 <= i < entries.len() implies keys.contains(
        grouping.key_of(#[trigger] entries[i]),
    ) by {
        lemma_keys_cover(entries, grouping, i);
    }
    lemma_within_all(entries, grouping, keys);
}

/// The totals of the categories sum to the sum of all the amounts.
pub proof fn lemma_category_totals_sum(entries: Seq<Entry>)
    ensures
        sum_of(totals_by(entries, Grouping::Category)) == total_amount(entries),
{
    lemma_totals_partition(entries, Grouping::Category);
}

/// The totals of the months sum to the sum of all the amounts.
pub proof fn lemma_month_totals_sum(entries: Seq<Entry>)
    ensures
        sum_of(totals_by(entries, Grouping::Month)) == total_amount(entries),
{
    lemma_totals_partition(entries, Grouping::Month);
}

/// The mean of the monthly totals is the sum of all the amounts divided by
/// the number of months in which a transaction lies, not by the number of
/// transactions; it is zero if there is no transaction.
pub proof fn lemma_mean_is_per_month(entries: Seq<Entry>)
    ensures
        mean_of(totals_by(entries, Grouping::Month)) == if entries.len() == 0 {
            0
        } else {
            quotient_toward_zero(
                total_amount(entries),
                keys_of(entries, Grouping::Month).len() as int,
            )
        },
{
    lemma_totals_partition(entries, Grouping::Month);
    if entries.len() > 0 {
        lemma_keys_cover(entries, Grouping::Month, 0);
    }
}

/// The amounts of the transactions grouped under a key sum to the total under
/// that key.
pub proof fn lemma_members_total(entries: Seq<Entry>, grouping: Grouping, key: Seq<char>)
    ensures
        total_amount(members_of(entries, grouping, key)) == total_of(entries, grouping, key),
    decreases entries.len(),
{
    if entries.len() > 0 {
        lemma_members_total(entries.drop_last(), grouping, key);
        if grouping.key_of(entries.last()) == key {
            let members = members_of(entries, grouping, key);
            assert(members.drop_last() =~= members_of(entries.drop_last(), grouping, key));
        }
    }
}

/// Months whose category totals sum to the monthly totals have the same sum
/// in all.
pub proof fn lemma_sums_agree(
    months: Seq<(Seq<char>, Seq<(Seq<char>, int)>)>,
    totals: Seq<(Seq<char>, int)>,
)
    requires
        months.len() == totals.len(),
        forall|j: int| 0 <= j < months.len() ==> sum_of((#[trigger] months[j]).1) == totals[j].1,
    ensures
        sum_of_all(months) == sum_of(totals),
    decreases months.len(),
{
    if months.len() > 0 {
        assert forall|j: int| 0 <= j < months.drop_last().len() implies sum_of(
            (#[trigger] months.drop_last()[j]).1,
        ) == totals.drop_last()[j].1 by {
            assert(months.drop_last()[j] == months[j]);
        }
        lemma_sums_agree(months.drop_last(), totals.drop_last());
        assert(sum_of(months[months.len() - 1].1) == totals[months.len() - 1].1);
    }
}

/// The totals of all the categories of all the months sum to the sum of all
/// the amounts.
pub proof fn lemma_monthly_partition(entries: Seq<Entry>)
    ensures
        sum_of_all(monthly_totals(entries)) == total_amount(entries),
{
    let months = monthly_totals(entries);
    let totals = totals_by(entries, Grouping::Month);
    assert forall|j: int| 0 <= j < months.len() implies sum_of((#[trigger] months[j]).1)
        == totals[j].1 by {
        let members = members_of(entries, Grouping::Month, months[j].0);
        lemma_totals_partition(members, Grouping::Category);
        lemma_members_total(entries, Grouping::Month, months[j].0);
    }
    lemma_sums_agree(months, totals);
    lemma_totals_partition(entries, Grouping::Month);
}

/// The sum of the amounts of the transactions of one month and one category.
pub open spec fn pair_total(entries: Seq<Entry>, month: Seq<char>, category: Seq<char>) -> int
    decreases entries.len(),
{
    if entries.len() == 0 {
        0
    } else {
        pair_total(entries.drop_last(), month, category) + if entries.last().month() == month
            && entries.last().category == category {
            entries.last().amount as int
        } else {
            0
        }
    }
}

/// The total of a category within a month is the sum over the transactions
/// of that month and that category: grouping within each month is grouping by
/// the pair of month and category.
pub proof fn lemma_pair_total(entries: Seq<Entry>, month: Seq<char>, category: Seq<char>)
    ensures
        total_of(members_of(entries, Grouping::Month, month), Grouping::Category, category)
            == pair_total(entries, month, category),
    decreases entries.len(),
{
    if entries.len() > 0 {
        lemma_pair_total(entries.drop_last(), month, category);
        if entries.last().month() == month {
            let members = members_of(entries, Grouping::Month, month);
            assert(members.drop_last() =~= members_of(
                entries.drop_last(),
                Grouping::Month,
                month,
            ));
        }
    }
}

/// A key has a total exactly if some transaction has that very key: no key
/// is filled in with zero, and keys that differ in any character, be it only
/// in case, are different keys.
pub proof fn lemma_keys_exact(entries: Seq<Entry>, grouping: Grouping, key: Seq<char>)
    ensures
        (exists|j: int|
            0 <= j < totals_by(entries, grouping).len() && (#[trigger] totals_by(
                entries,
                grouping,
            )[j]).0 == key) <==> (exists|i: int|
            0 <= i < entries.len() && grouping.key_of(#[trigger] entries[i]) == key),
{
    let keys = keys_of(entries, grouping);
    let totals = totals_by(entries, grouping);
    if exists|j: int| 0 <= j < totals.len() && (#[trigger] totals[j]).0 == key {
        let j = choose|j: int| 0 <= j < totals.len() && (#[trigger] totals[j]).0 == key;
        assert(keys[j] == key);
        lemma_keys_occur(entries, grouping, key);
    }
    if exists|i: int| 0 <= i < entries.len() && grouping.key_of(#[trigger] entries[i]) == key {
        let i = choose|i: int|
            0 <= i < entries.len() && grouping.key_of(#[trigger] entries[i]) == key;
        lemma_keys_cover(entries, grouping, i);
        let j = choose|j: int| 0 <= j < keys.len() && keys[j] == key;
        assert(totals[j].0 == key);
    }
}

/// No key has two totals.
pub proof fn lemma_one_total_per_key(entries: Seq<Entry>, grouping: Grouping)
    ensures
        distinct_keys(totals_by(entries, grouping)),
{
    lemma_keys_distinct(entries, grouping);
    let keys = keys_of(entries, grouping);
    let totals = totals_by(entries, grouping);
    assert forall|i: int, j: int| 0 <= i < j < totals.len() implies (#[trigger] totals[i]).0 != (
    #[trigger] totals[j]).0 by {
        assert(keys[i] != keys[j]);
    }
}

/// Looking a key up among the totals gives the sum of the amounts of the
/// transactions with that key, and nothing for a key that no transaction has.
pub proof fn lemma_total_under(entries: Seq<Entry>, grouping: Grouping, key: Seq<char>)
    ensures
        total_under(totals_by(entries, grouping), key) == if exists|i: int|
            0 <= i < entries.len() && grouping.key_of(#[trigger] entries[i]) == key {
            Some(total_of(entries, grouping, key))
        } else {
            None
        },
{
    lemma_keys_exact(entries, grouping, key);
    let totals = totals_by(entries, grouping);
    if exists|j: int| 0 <= j < totals.len() && (#[trigger] totals[j]).0 == key {
        let j = choose|j: int| 0 <= j < totals.len() && (#[trigger] totals[j]).0 == key;
        assert(totals[j].1 == total_of(entries, grouping, keys_of(entries, grouping)[j]));
    }
}

/// Two transactions are grouped under the same month exactly if their dates
/// lie in the same month of the same year.
pub proof fn lemma_same_month(a: Entry, b: Entry)
    ensures
        a.month() == b.month() <==> a.date.year == b.date.year && a.date.month == b.date.month,
{
    if a.month() == b.month() {
        lemma_month_label_injective(
            a.date.year as int,
            a.date.month as int,
            b.date.year as int,
            b.date.month as int,
        );
    }
}

} // verus!
