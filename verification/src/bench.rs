//! The arithmetic of the timing test: means, averages and thread groups.
use vstd::prelude::*;

verus! {

/// The sum of `s`.
pub open spec fn sum_of(s: Seq<i64>) -> int
    decreases s.len(),
{
    if s.len() == 0 {
        0
    } else {
        sum_of(s.drop_last()) + s.last()
    }
}

/// Whether every running sum of `s` fits in an `i64`.
pub open spec fn sums_fit(s: Seq<i64>) -> bool {
    forall|i: int| 0 <= i <= s.len() ==> i64::MIN <= #[trigger] sum_of(s.take(i)) <= i64::MAX
}

/// The mean of the time differences of one test thread when their sum is
/// positive; else the sum itself, which marks the run as failed.
pub fn mean_difference(differences: &Vec<i64>) -> (r: i64)
    requires
        sums_fit(differences@),
        differences.len() <= i64::MAX,
    ensures
        r == (if sum_of(differences@) > 0 {
            sum_of(differences@) / (differences@.len() as int)
        } else {
            sum_of(differences@)
        }),
{
    let mut total: i64 = 0;
    let mut i: usize = 0;
    assert(differences@.take(0) =~= Seq::<i64>::empty());
    while i < differences.len()
        invariant
            i <= differences.len(),
            sums_fit(differences@),
            total == sum_of(differences@.take(i as int)),
        decreases differences.len() - i,
    {
        assert(differences@.take(i as int + 1).drop_last() =~= differences@.take(i as int));
        assert(i64::MIN <= sum_of(differences@.take(i as int + 1)) <= i64::MAX);
        total = total + differences[i];
        i = i + 1;
    }
    assert(differences@.take(differences.len() as int) =~= differences@);
    if differences.len() == 0 {
        assert(total == 0);
    }
    if total > 0 {
        total / (differences.len() as i64)
    } else {
        total
    }
}

/// The sum of the positive entries of `s`.
pub open spec fn positive_sum(s: Seq<i64>) -> int
    decreases s.len(),
{
    if s.len() == 0 {
        0
    } else {
        positive_sum(s.drop_last()) + if s.last() > 0 { s.last() as int } else { 0 }
    }
}

/// The average over all test threads of their positive results: the sum of
/// the positive results divided by the number of threads.
pub fn total_average(scores: &Vec<i64>) -> (r: i64)
    requires
        0 < scores.len() <= i64::MAX,
        positive_sum(scores@) <= i64::MAX,
    ensures
        r == positive_sum(scores@) / (scores@.len() as int),
{
    let mut total: i64 = 0;
    let mut i: usize = 0;
    assert(scores@.take(0) =~= Seq::<i64>::empty());
    while i < scores.len()
        invariant
            i <= scores.len(),
            positive_sum(scores@) <= i64::MAX,
            total == positive_sum(scores@.take(i as int)),
            0 <= total,
        decreases scores.len() - i,
    {
        let ghost prefix = scores@.take(i as int + 1);
        assert(prefix.drop_last() =~= scores@.take(i as int));
        proof {
            lemma_positive_sum_prefix(scores@, i as int + 1);
        }
        if scores[i] > 0 {
            total = total + scores[i];
        }
        i = i + 1;
    }
    assert(scores@.take(scores.len() as int) =~= scores@);
    total / (scores.len() as i64)
}

proof fn lemma_positive_sum_prefix(s: Seq<i64>, i: int)
    requires
        0 <= i <= s.len(),
    ensures
        0 <= positive_sum(s.take(i)) <= positive_sum(s),
    decreases s.len(),
{
    if i < s.len() {
        assert(s.drop_last().take(i) =~= s.take(i));
        lemma_positive_sum_prefix(s.drop_last(), i);
    } else {
        assert(s.take(i) =~= s);
        if s.len() > 0 {
            lemma_positive_sum_prefix(s.drop_last(), s.len() - 1);
        }
    }
}

/// Dealing `items` out in order into groups of `per_group`: the groups
/// filled so far and the group being filled. A group is closed only when the
/// next item arrives and it is full.
pub open spec fn deal<T>(items: Seq<T>, per_group: nat) -> (Seq<Seq<T>>, Seq<T>)
    decreases items.len(),
{
    if items.len() == 0 {
        (Seq::empty(), Seq::empty())
    } else {
        let (groups, current) = deal(items.drop_last(), per_group);
        if current.len() == per_group {
            (groups.push(current), seq![items.last()])
        } else {
            (groups, current.push(items.last()))
        }
    }
}

/// The groups that the timing test runs on one thread each: `items` dealt
/// out in order into groups of `per_group`, the last group holding what is
/// left (and empty when there are no items).
pub open spec fn groups_of<T>(items: Seq<T>, per_group: nat) -> Seq<Seq<T>> {
    let (groups, current) = deal(items, per_group);
    groups.push(current)
}

/// Deals `items` out into groups (see [`groups_of`]).
pub fn group_instances<T>(items: Vec<T>, per_group: usize) -> (groups: Vec<Vec<T>>)
    ensures
        groups@.map_values(|g: Vec<T>| g@) == groups_of(items@, per_group as nat),
{
    let ghost all = items@;
    assert(all.len() == items.len());
    let mut items = items;
    let mut groups: Vec<Vec<T>> = Vec::new();
    let mut current: Vec<T> = Vec::new();
    let mut i: usize = 0;
    assert(all.take(0) =~= Seq::<T>::empty());
    assert(groups@.map_values(|g: Vec<T>| g@) =~= Seq::<Seq<T>>::empty());
    while items.len() > 0
        invariant
            i + items@.len() == all.len(),
            all.len() <= usize::MAX,
            items@ == all.subrange(i as int, all.len() as int),
            (groups@.map_values(|g: Vec<T>| g@), current@) == deal(all.take(i as int), per_group as nat),
        decreases items@.len(),
    {
        let item = items.remove(0);
        assert(item == all[i as int]);
        assert(all.take(i as int + 1).drop_last() =~= all.take(i as int));
        if current.len() == per_group {
            let ghost before = groups@.map_values(|g: Vec<T>| g@);
            let ghost full = current@;
            let mut fresh: Vec<T> = Vec::new();
            fresh.push(item);
            groups.push(current);
            current = fresh;
            assert(groups@.map_values(|g: Vec<T>| g@) =~= before.push(full));
            assert(current@ =~= seq![all[i as int]]);
        } else {
            current.push(item);
        }
        assert(items@ =~= all.subrange(i as int + 1, all.len() as int));
        i = i + 1;
    }
    assert(all.take(i as int) =~= all);
    let ghost before = groups@.map_values(|g: Vec<T>| g@);
    let ghost last = current@;
    groups.push(current);
    assert(groups@.map_values(|g: Vec<T>| g@) =~= before.push(last));
    groups
}

} // verus!
