//! Spending summaries: totals by category, by month, and by category within
//! each month, and the mean of the monthly totals.

use crate::breakdown::Breakdown;
use crate::grouping::{
    keys_of, lemma_absent_members, lemma_count_bound, lemma_keys_distinct, lemma_tally_sum,
    lemma_total_bound, lemma_totals_step, lemma_within_bound, members_of, tally, totals_by,
    Grouping,
};
use crate::totals::{mean_of, sum_of, Totals};
use crate::transaction::{Entry, Transaction};
use vstd::prelude::*;

verus! {

/// For each month in which a transaction lies, the totals of the categories
/// of the transactions of that month.
pub open spec fn monthly_totals(entries: Seq<Entry>) -> Seq<(Seq<char>, Seq<(Seq<char>, int)>)> {
    let months = keys_of(entries, Grouping::Month);
    Seq::new(
        months.len(),
        |j: int|
            (
                months[j],
                totals_by(members_of(entries, Grouping::Month, months[j]), Grouping::Category),
            ),
    )
}

/// The totals of the transactions under each key of the grouping, the keys in
/// the order in which they first occur.
pub fn spending_by(transactions: &[Transaction], grouping: Grouping) -> (r: Totals)
    ensures
        r@ == totals_by(transactions.deep_view(), grouping),
{
    let ghost all = transactions.deep_view();
    let mut totals = Totals::new();
    for i in 0..transactions.len()
        invariant
            all == transactions.deep_view(),
            totals@ == totals_by(all.take(i as int), grouping),
    {
        let key = grouping.key(&transactions[i]);
        let amount = transactions[i].amount;
        proof {
            let seen = all.take(i as int);
            assert forall|j: int| 0 <= j < totals@.len() implies i128::MIN <= (
            #[trigger] totals@[j]).1 + amount <= i128::MAX by {
                lemma_total_bound(seen, grouping, keys_of(seen, grouping)[j]);
                lemma_count_bound(seen.len(), 0xffff_ffff_ffff_fffe);
            }
            lemma_totals_step(seen, grouping, all[i as int]);
            assert(all.take(i + 1) =~= seen.push(all[i as int]));
        }
        totals = totals.add(key, amount);
    }
    proof {
        assert(all.take(transactions.len() as int) =~= all);
    }
    totals
}

/// The total spent in each category that occurs among the transactions.
///
/// Categories are compared exactly, so `Food` and `food` are two categories.
pub fn spending_per_category(transactions: &[Transaction]) -> (r: Totals)
    ensures
        r@ == totals_by(transactions.deep_view(), Grouping::Category),
{
    spending_by(transactions, Grouping::Category)
}

/// The total spent in each month in which a transaction lies, under the key
/// of the month: the year and the month number joined by a hyphen.
pub fn spending_per_month(transactions: &[Transaction]) -> (r: Totals)
    ensures
        r@ == totals_by(transactions.deep_view(), Grouping::Month),
{
    spending_by(transactions, Grouping::Month)
}

/// The mean of the monthly totals: the sum of the totals of the months in
/// which a transaction lies, divided by the number of those months and
/// rounded toward zero to a whole hundredth. Zero if there is no transaction.
pub fn spending_month_average(transactions: &[Transaction]) -> (r: i128)
    ensures
        r == mean_of(totals_by(transactions.deep_view(), Grouping::Month)),
        transactions@.len() == 0 ==> r == 0,
{
    let months = spending_per_month(transactions);
    let count = months.len();
    if count == 0 {
        return 0;
    }
    let size = transactions.len();
    let ghost all = transactions.deep_view();
    let ghost keys = keys_of(all, Grouping::Month);
    let mut sum: i128 = 0;
    for j in 0..count
        invariant
            count == months@.len(),
            all.len() == size,
            keys == keys_of(all, Grouping::Month),
            months@ == totals_by(all, Grouping::Month),
            sum == sum_of(months@.take(j as int)),
    {
        proof {
            let next = keys.take(j + 1);
            lemma_keys_distinct(all, Grouping::Month);
            lemma_tally_sum(all, Grouping::Month, next);
            lemma_within_bound(all, Grouping::Month, next);
            assert(months@.take(j + 1) =~= tally(all, Grouping::Month, next));
            assert(months@.take(j + 1).drop_last() =~= months@.take(j as int));
            lemma_count_bound(all.len(), 0xffff_ffff_ffff_ffff);
        }
        sum = sum + months.total(j);
    }
    proof {
        assert(months@.take(count as int) =~= months@);
        lemma_keys_distinct(all, Grouping::Month);
        lemma_tally_sum(all, Grouping::Month, keys);
        lemma_within_bound(all, Grouping::Month, keys);
        lemma_count_bound(all.len(), 0xffff_ffff_ffff_ffff);
    }
    if sum >= 0 {
        sum / (count as i128)
    } else {
        -((-sum) / (count as i128))
    }
}

/// The transactions of one month.
struct Cluster {
    month: String,
    members: Vec<Transaction>,
}

/// Whether the clusters are the months of the transactions, in the order in
/// which they first occur, each with the transactions that lie in it.
spec fn clustered(clusters: Seq<Cluster>, entries: Seq<Entry>) -> bool {
    let months = keys_of(entries, Grouping::Month);
    &&& clusters.len() == months.len()
    &&& forall|j: int|
        0 <= j < clusters.len() ==> (#[trigger] clusters[j]).month@ == months[j]
            && clusters[j].members.deep_view() == members_of(entries, Grouping::Month, months[j])
}

/// Clusters the transactions by month.
fn cluster_by_month(transactions: &[Transaction]) -> (clusters: Vec<Cluster>)
    ensures
        clustered(clusters@, transactions.deep_view()),
{
    let ghost all = transactions.deep_view();
    let mut clusters: Vec<Cluster> = Vec::new();
    for i in 0..transactions.len()
        invariant
            all == transactions.deep_view(),
            clustered(clusters@, all.take(i as int)),
    {
        let ghost seen = all.take(i as int);
        let ghost months = keys_of(seen, Grouping::Month);
        let ghost before = clusters@;
        let month = transactions[i].month();
        let copy = transactions[i].clone();
        let mut j: usize = 0;
        let mut found = false;
        while j < clusters.len() && !found
            invariant
                j <= clusters.len(),
                clusters@ == before,
                found ==> j < clusters.len() && clusters@[j as int].month@ == month@,
                forall|k: int| 0 <= k < j ==> (#[trigger] clusters@[k]).month@ != month@,
            decreases clusters.len() - j + if found { 0int } else { 1int },
        {
            if clusters[j].month == month {
                found = true;
            } else {
                j = j + 1;
            }
        }
        proof {
            assert(all.take(i + 1) =~= seen.push(all[i as int]));
            assert(all.take(i + 1).drop_last() =~= seen);
            lemma_keys_distinct(seen, Grouping::Month);
        }
        if found {
            let ghost members = clusters@[j as int].members.deep_view();
            clusters[j].members.push(copy);
            proof {
                assert(clusters@[j as int].members.deep_view() =~= members.push(copy@));
                assert(months[j as int] == month@);
                assert(clustered(clusters@, all.take(i + 1)));
            }
        } else {
            let mut members: Vec<Transaction> = Vec::new();
            members.push(copy);
            clusters.push(Cluster { month, members });
            proof {
                assert(!months.contains(month@)) by {
                    if months.contains(month@) {
                        let k = choose|k: int| 0 <= k < months.len() && months[k] == month@;
                        assert(before[k].month@ == months[k]);
                    }
                }
                lemma_absent_members(seen, Grouping::Month, month@);
                assert(members.deep_view() =~= Seq::<Entry>::empty().push(copy@));
                assert(clustered(clusters@, all.take(i + 1)));
            }
        }
    }
    proof {
        assert(all.take(transactions.len() as int) =~= all);
    }
    clusters
}

/// For each month in which a transaction lies, the total spent in each
/// category that occurs among the transactions of that month.
pub fn spending_per_month_per_category(transactions: &[Transaction]) -> (r: Breakdown)
    ensures
        r@ == monthly_totals(transactions.deep_view()),
{
    let ghost all = transactions.deep_view();
    let ghost months = keys_of(all, Grouping::Month);
    let clusters = cluster_by_month(transactions);
    let mut breakdown = Breakdown::new();
    for j in 0..clusters.len()
        invariant
            months == keys_of(all, Grouping::Month),
            clustered(clusters@, all),
            breakdown@ == monthly_totals(all).take(j as int),
    {
        let members = clusters[j].members.as_slice();
        proof {
            assert(members.deep_view() =~= clusters@[j as int].members.deep_view());
        }
        let totals = spending_per_category(members);
        let month = clusters[j].month.clone();
        proof {
            lemma_keys_distinct(all, Grouping::Month);
            assert(clusters@[j as int].month@ == months[j as int]);
            assert forall|k: int| 0 <= k < breakdown@.len() implies (#[trigger] breakdown@[k]).0
                != month@ by {
                assert(breakdown@[k].0 == months[k]);
            }
            assert(monthly_totals(all).take(j + 1) =~= monthly_totals(all).take(j as int).push(
                (month@, totals@),
            ));
        }
        breakdown = breakdown.with(month, totals);
    }
    proof {
        assert(monthly_totals(all).take(clusters.len() as int) =~= monthly_totals(all));
    }
    breakdown
}

} // verus!
