use vstd::multiset::Multiset;
use vstd::prelude::*;

use crate::min_heap::key_le;
use crate::{balance_key, quota_key, ValidatorStake};

verus! {

/// Total stake of a sequence of block producers.
pub open spec fn stake_sum(s: Seq<ValidatorStake>) -> nat
    decreases s.len(),
{
    if s.len() == 0 {
        0
    } else {
        stake_sum(s.drop_last()) + s.last().stake as nat
    }
}

/// No two entries of `s` share an account.
pub open spec fn ids_distinct(s: Seq<ValidatorStake>) -> bool {
    forall|i: int, j: int|
        0 <= i < j < s.len() ==> (#[trigger] s[i]).account_id@ != (#[trigger] s[j]).account_id@
}

/// Some entry of `s` belongs to the account `id`.
pub open spec fn holds_id(s: Seq<ValidatorStake>, id: Seq<char>) -> bool {
    exists|i: int| 0 <= i < s.len() && (#[trigger] s[i]).account_id@ == id
}

/// The number of entries to hand out: every producer once, or enough to fill
/// every shard to its quota, whichever is more.
pub open spec fn required_count(n: int, num_shards: int, min_per_shard: int) -> int {
    if n > num_shards * min_per_shard {
        n
    } else {
        num_shards * min_per_shard
    }
}

/// The first `k` entries of the endless repetition of `producers`.
pub open spec fn supply(producers: Seq<ValidatorStake>, k: int) -> Seq<ValidatorStake> {
    Seq::new(k as nat, |i: int| producers[i % (producers.len() as int)])
}

/// Every shard holds at least `m` entries.
pub open spec fn all_filled(shards: Seq<Seq<ValidatorStake>>, m: int) -> bool {
    forall|t: int| 0 <= t < shards.len() ==> #[trigger] shards[t].len() >= m
}

/// Shard `t` does not hold the account `id`, and no other such shard has a smaller
/// (count, stake, index).
pub open spec fn is_quota_choice(shards: Seq<Seq<ValidatorStake>>, id: Seq<char>, t: int) -> bool {
    &&& 0 <= t < shards.len()
    &&& !holds_id(shards[t], id)
    &&& forall|u: int|
        0 <= u < shards.len() && !holds_id(#[trigger] shards[u], id) ==> key_le(
            quota_key(shards, t),
            quota_key(shards, u),
        )
}

/// No other shard has a smaller (stake, count, index) than shard `t`.
pub open spec fn is_balance_choice(shards: Seq<Seq<ValidatorStake>>, t: int) -> bool {
    &&& 0 <= t < shards.len()
    &&& forall|u: int|
        0 <= u < shards.len() ==> key_le(balance_key(shards, t), #[trigger] balance_key(shards, u))
}

/// The shard that receives an entry of account `id` while some shard is below
/// its quota.
pub open spec fn quota_choice(shards: Seq<Seq<ValidatorStake>>, id: Seq<char>) -> int {
    choose|t: int| is_quota_choice(shards, id, t)
}

/// The shard that receives an entry once every shard has its quota.
pub open spec fn balance_choice(shards: Seq<Seq<ValidatorStake>>) -> int {
    choose|t: int| is_balance_choice(shards, t)
}

/// The shards after the first `k` entries of the supply have been handed out.
pub open spec fn assignment_after(
    producers: Seq<ValidatorStake>,
    num_shards: nat,
    min_per_shard: int,
    k: nat,
) -> Seq<Seq<ValidatorStake>>
    decreases k,
{
    if k == 0 {
        Seq::new(num_shards, |i: int| Seq::<ValidatorStake>::empty())
    } else {
        let prev = assignment_after(producers, num_shards, min_per_shard, (k - 1) as nat);
        let v = producers[(k - 1) % (producers.len() as int)];
        let t = if all_filled(prev, min_per_shard) {
            balance_choice(prev)
        } else {
            quota_choice(prev, v.account_id@)
        };
        prev.update(t, prev[t].push(v))
    }
}

/// The quota fill completes: at every step while some shard is below its quota,
/// some shard does not hold the next producer yet, and once the supply is handed
/// out every shard has its quota.
pub open spec fn quota_fill_completes(
    producers: Seq<ValidatorStake>,
    num_shards: nat,
    min_per_shard: int,
) -> bool {
    let required = required_count(producers.len() as int, num_shards as int, min_per_shard);
    &&& all_filled(
        assignment_after(producers, num_shards, min_per_shard, required as nat),
        min_per_shard,
    )
    &&& forall|k: nat|
        k < required && !all_filled(
            #[trigger] assignment_after(producers, num_shards, min_per_shard, k),
            min_per_shard,
        ) ==> exists|t: int|
            #[trigger] is_quota_choice(
                assignment_after(producers, num_shards, min_per_shard, k),
                producers[(k as int) % (producers.len() as int)].account_id@,
                t,
            )
}

/// A shard whose key is no greater than that of every eligible shard is the
/// quota choice.
pub proof fn lemma_quota_choice(shards: Seq<Seq<ValidatorStake>>, id: Seq<char>, s: int)
    requires
        shards.len() <= usize::MAX,
        is_quota_choice(shards, id, s),
    ensures
        quota_choice(shards, id) == s,
{
    let t = quota_choice(shards, id);
    assert(is_quota_choice(shards, id, t));
    assert(key_le(quota_key(shards, t), quota_key(shards, s)));
    assert(key_le(quota_key(shards, s), quota_key(shards, t)));
}

/// A shard whose key is no greater than that of every shard is the balance choice.
pub proof fn lemma_balance_choice(shards: Seq<Seq<ValidatorStake>>, s: int)
    requires
        shards.len() <= usize::MAX,
        is_balance_choice(shards, s),
    ensures
        balance_choice(shards) == s,
{
    let t = balance_choice(shards);
    assert(is_balance_choice(shards, t));
    assert(key_le(balance_key(shards, t), balance_key(shards, s)));
    assert(key_le(balance_key(shards, s), balance_key(shards, t)));
}

/// Every entry handed to some shard, with multiplicity.
pub open spec fn assigned(shards: Seq<Seq<ValidatorStake>>) -> Multiset<ValidatorStake>
    decreases shards.len(),
{
    if shards.len() == 0 {
        Multiset::empty()
    } else {
        assigned(shards.drop_last()).add(shards.last().to_multiset())
    }
}

/// The stake handed out over all shards.
pub open spec fn assigned_stake(shards: Seq<Seq<ValidatorStake>>) -> nat
    decreases shards.len(),
{
    if shards.len() == 0 {
        0
    } else {
        assigned_stake(shards.drop_last()) + stake_sum(shards.last())
    }
}

/// Appending `v` to one shard adds `v` to what is handed out, and its stake to the
/// stake handed out.
pub proof fn lemma_assign_one(shards: Seq<Seq<ValidatorStake>>, s: int, v: ValidatorStake)
    requires
        0 <= s < shards.len(),
    ensures
        assigned(shards.update(s, shards[s].push(v))) == assigned(shards).insert(v),
        assigned_stake(shards.update(s, shards[s].push(v))) == assigned_stake(shards) + v.stake,
    decreases shards.len(),
{
    broadcast use vstd::seq_lib::group_to_multiset_ensures, vstd::multiset::group_multiset_axioms;

    let u = shards.update(s, shards[s].push(v));
    if s == shards.len() - 1 {
        assert(u.drop_last() =~= shards.drop_last());
        vstd::seq_lib::to_multiset_build(shards[s], v);
        assert(shards[s].push(v).drop_last() =~= shards[s]);
        assert(assigned(u) =~= assigned(shards).insert(v));
    } else {
        lemma_assign_one(shards.drop_last(), s, v);
        assert(u.drop_last() =~= shards.drop_last().update(s, shards[s].push(v)));
        assert(assigned(u) =~= assigned(shards).insert(v));
    }
}

/// An entry of one shard is among those handed out, and a shard's stake is at most
/// the stake handed out.
pub proof fn lemma_shard_within(shards: Seq<Seq<ValidatorStake>>, s: int)
    requires
        0 <= s < shards.len(),
    ensures
        forall|v: ValidatorStake| shards[s].contains(v) ==> #[trigger] assigned(shards).count(v) > 0,
        stake_sum(shards[s]) <= assigned_stake(shards),
        shards[s].len() <= assigned(shards).len(),
    decreases shards.len(),
{
    broadcast use vstd::seq_lib::group_to_multiset_ensures, vstd::multiset::group_multiset_axioms;

    if s < shards.len() - 1 {
        lemma_shard_within(shards.drop_last(), s);
        assert(shards.drop_last()[s] == shards[s]);
    }
    assert forall|v: ValidatorStake| shards[s].contains(v) implies #[trigger] assigned(shards).count(v) > 0 by {
        if s < shards.len() - 1 {
            assert(shards.drop_last()[s].contains(v));
            assert(assigned(shards.drop_last()).count(v) > 0);
        } else {
            assert(shards.last().to_multiset().count(v) > 0);
        }
    }
}

/// Nothing is handed out while every shard is empty.
pub proof fn lemma_nothing_assigned(shards: Seq<Seq<ValidatorStake>>)
    requires
        forall|s: int| 0 <= s < shards.len() ==> #[trigger] shards[s].len() == 0,
    ensures
        assigned(shards) == Multiset::<ValidatorStake>::empty(),
        assigned_stake(shards) == 0,
    decreases shards.len(),
{
    broadcast use vstd::seq_lib::group_to_multiset_ensures, vstd::multiset::group_multiset_axioms;

    if shards.len() > 0 {
        let d = shards.drop_last();
        assert forall|s: int| 0 <= s < d.len() implies #[trigger] d[s].len() == 0 by {
            assert(d[s] == shards[s]);
        }
        lemma_nothing_assigned(d);
        assert(shards.last() =~= Seq::<ValidatorStake>::empty());
        assert(assigned(shards) =~= Multiset::<ValidatorStake>::empty());
    }
}

/// On the first lap through distinct producers, the next producer is in no shard yet.
pub proof fn lemma_first_lap_fresh(
    producers: Seq<ValidatorStake>,
    shards: Seq<Seq<ValidatorStake>>,
    k: int,
)
    requires
        ids_distinct(producers),
        0 <= k < producers.len(),
        assigned(shards) == supply(producers, k).to_multiset(),
    ensures
        forall|t: int| 0 <= t < shards.len() ==> !holds_id(#[trigger] shards[t], producers[k].account_id@),
{
    broadcast use vstd::seq_lib::group_to_multiset_ensures, vstd::multiset::group_multiset_axioms;

    lemma_supply_prefix(producers, k);
    assert forall|t: int| 0 <= t < shards.len() implies !holds_id(#[trigger] shards[t], producers[k].account_id@) by {
        if holds_id(shards[t], producers[k].account_id@) {
            let i = choose|i: int| 0 <= i < shards[t].len() && (#[trigger] shards[t][i]).account_id@
                == producers[k].account_id@;
            let x = shards[t][i];
            lemma_shard_within(shards, t);
            assert(shards[t].contains(x));
            assert(assigned(shards).count(x) > 0);
            assert(supply(producers, k).contains(x));
            let j = choose|j: int| 0 <= j < k && supply(producers, k)[j] == x;
            assert(producers.subrange(0, k)[j] == producers[j]);
        }
    }
}

/// Appending an entry of an account that a shard does not hold keeps its accounts
/// distinct.
pub proof fn lemma_distinct_push(s: Seq<ValidatorStake>, v: ValidatorStake)
    requires
        ids_distinct(s),
        !holds_id(s, v.account_id@),
    ensures
        ids_distinct(s.push(v)),
{
    assert forall|i: int, j: int| 0 <= i < j < s.push(v).len() implies (#[trigger] s.push(v)[i]).account_id@
        != (#[trigger] s.push(v)[j]).account_id@ by {
        if j == s.len() {
            assert(s[i] == s.push(v)[i]);
        } else {
            assert(s[i] == s.push(v)[i]);
            assert(s[j] == s.push(v)[j]);
        }
    }
}

/// The number of entries handed out is the sum of the shard lengths: at most
/// `shards.len() * m` when no shard holds more than `m`, and less when one holds
/// fewer.
pub proof fn lemma_assigned_len_bound(shards: Seq<Seq<ValidatorStake>>, m: int, short: int)
    requires
        0 <= short < shards.len(),
        forall|s: int| 0 <= s < shards.len() ==> #[trigger] shards[s].len() <= m,
        shards[short].len() < m,
    ensures
        assigned(shards).len() < shards.len() * m,
    decreases shards.len(),
{
    broadcast use vstd::seq_lib::group_to_multiset_ensures, vstd::multiset::group_multiset_axioms;

    let k = shards.len() - 1;
    let d = shards.drop_last();
    assert(assigned(shards).len() == assigned(d).len() + shards[k].len());
    assert forall|s: int| 0 <= s < d.len() implies #[trigger] d[s].len() <= m by {
        assert(d[s] == shards[s]);
    }
    assert(shards.len() * m == k * m + m) by (nonlinear_arith)
        requires
            shards.len() == k + 1,
    ;
    if short < k {
        assert(d[short] == shards[short]);
        lemma_assigned_len_bound(d, m, short);
    } else {
        lemma_assigned_len_at_most(d, m);
    }
}

/// No more than `shards.len() * m` entries are handed out when no shard holds
/// more than `m`.
pub proof fn lemma_assigned_len_at_most(shards: Seq<Seq<ValidatorStake>>, m: int)
    requires
        forall|s: int| 0 <= s < shards.len() ==> #[trigger] shards[s].len() <= m,
    ensures
        assigned(shards).len() <= shards.len() * m,
    decreases shards.len(),
{
    broadcast use vstd::seq_lib::group_to_multiset_ensures, vstd::multiset::group_multiset_axioms;

    if shards.len() > 0 {
        let k = shards.len() - 1;
        let d = shards.drop_last();
        assert(assigned(shards).len() == assigned(d).len() + shards[k].len());
        assert forall|s: int| 0 <= s < d.len() implies #[trigger] d[s].len() <= m by {
            assert(d[s] == shards[s]);
        }
        lemma_assigned_len_at_most(d, m);
        assert(shards.len() * m == k * m + m) by (nonlinear_arith)
            requires
                shards.len() == k + 1,
        ;
    }
}

/// At least `shards.len() * m` entries are handed out when every shard holds
/// `m` or more.
pub proof fn lemma_assigned_len_at_least(shards: Seq<Seq<ValidatorStake>>, m: int)
    requires
        forall|s: int| 0 <= s < shards.len() ==> #[trigger] shards[s].len() >= m,
    ensures
        assigned(shards).len() >= shards.len() * m,
    decreases shards.len(),
{
    broadcast use vstd::seq_lib::group_to_multiset_ensures, vstd::multiset::group_multiset_axioms;

    if shards.len() > 0 {
        let k = shards.len() - 1;
        let d = shards.drop_last();
        assert(assigned(shards).len() == assigned(d).len() + shards[k].len());
        assert forall|s: int| 0 <= s < d.len() implies #[trigger] d[s].len() >= m by {
            assert(d[s] == shards[s]);
        }
        lemma_assigned_len_at_least(d, m);
        assert(shards.len() * m == k * m + m) by (nonlinear_arith)
            requires
                shards.len() == k + 1,
        ;
    }
}

/// The supply grows one producer at a time, in cyclic order.
pub proof fn lemma_supply_step(producers: Seq<ValidatorStake>, k: int)
    requires
        producers.len() > 0,
        k >= 0,
    ensures
        supply(producers, k + 1) == supply(producers, k).push(producers[(k as int) % (producers.len() as int)]),
        stake_sum(supply(producers, k + 1)) == stake_sum(supply(producers, k)) + producers[k
            % (producers.len() as int)].stake,
{
    assert(supply(producers, k + 1).drop_last() =~= supply(producers, k));
    assert(supply(producers, k + 1) =~= supply(producers, k).push(producers[(k as int) % (producers.len() as int)]));
}

/// A shorter supply holds no more stake.
pub proof fn lemma_supply_stake_monotone(producers: Seq<ValidatorStake>, k: int, m: int)
    requires
        producers.len() > 0,
        0 <= k <= m,
    ensures
        stake_sum(supply(producers, k)) <= stake_sum(supply(producers, m)),
    decreases m - k,
{
    if k < m {
        lemma_supply_step(producers, m - 1);
        lemma_supply_stake_monotone(producers, k, m - 1);
    }
}

/// While no lap is complete, the supply is a prefix of the producers.
pub proof fn lemma_supply_prefix(producers: Seq<ValidatorStake>, k: int)
    requires
        0 <= k <= producers.len(),
    ensures
        supply(producers, k) == producers.subrange(0, k),
{
    assert forall|i: int| 0 <= i < k implies supply(producers, k)[i] == producers[i] by {
        vstd::arithmetic::div_mod::lemma_small_mod(i as nat, producers.len());
    }
    assert(supply(producers, k) =~= producers.subrange(0, k));
}

} // verus!
