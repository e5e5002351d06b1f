pub mod min_heap;
pub mod model;

use vstd::multiset::Multiset;
use vstd::prelude::*;

use crate::min_heap::{key_le, MinHeap};
use crate::model::{
    all_filled, assigned, assigned_stake, assignment_after, holds_id, ids_distinct,
    is_quota_choice, lemma_assign_one, lemma_assigned_len_at_least, lemma_assigned_len_bound,
    lemma_balance_choice, lemma_distinct_push, lemma_first_lap_fresh, lemma_nothing_assigned,
    lemma_quota_choice, lemma_shard_within, lemma_supply_stake_monotone, lemma_supply_step,
    quota_fill_completes, required_count, stake_sum, supply,
};

verus! {

pub type Balance = u128;

pub type ShardId = usize;

pub type AccountId = String;

/// A block producer: an account and the stake that it holds.
#[derive(Debug, Clone, Hash, PartialEq, Eq)]
pub struct ValidatorStake {
    pub account_id: AccountId,
    pub stake: Balance,
}

impl ValidatorStake {
    /// A block producer of account `account_id` holding `stake`.
    pub fn new(account_id: AccountId, stake: Balance) -> (r: Self)
        ensures
            r.account_id == account_id,
            r.stake == stake,
    {
        ValidatorStake { account_id, stake }
    }

    /// A copy with the same account and stake.
    fn duplicate(&self) -> (r: Self)
        ensures
            r == *self,
    {
        ValidatorStake { account_id: self.account_id.clone(), stake: self.stake }
    }
}

/// Why no assignment was made.
#[derive(Debug, Clone, Copy, PartialEq, Eq)]
pub enum AssignmentError {
    /// Fewer block producers than the quota of a single shard.
    InsufficientSupply,
    /// The duplicate-avoiding greedy fill spent the bounded cyclic supply before
    /// every shard reached its quota.
    QuotaUnreachable,
}

/// Queue key while shards are filled to their quota: count, stake, shard.
pub type QuotaKey = (usize, Balance, ShardId);

/// Queue key while the surplus is balanced: stake, count, shard.
pub type BalanceKey = (Balance, usize, ShardId);

/// The contents of each shard.
pub open spec fn shards_of(r: Seq<Vec<ValidatorStake>>) -> Seq<Seq<ValidatorStake>> {
    r.map_values(|v: Vec<ValidatorStake>| v@)
}

/// The quota key of shard `s`.
pub open spec fn quota_key(shards: Seq<Seq<ValidatorStake>>, s: int) -> QuotaKey {
    (shards[s].len() as usize, stake_sum(shards[s]) as u128, s as usize)
}

/// The balance key of shard `s`.
pub open spec fn balance_key(shards: Seq<Seq<ValidatorStake>>, s: int) -> BalanceKey {
    (stake_sum(shards[s]) as u128, shards[s].len() as usize, s as usize)
}

/// `h` holds the current quota key of every shard, once, except the keys in `aside`.
spec fn quota_queue(
    h: Multiset<QuotaKey>,
    shards: Seq<Seq<ValidatorStake>>,
    aside: Seq<QuotaKey>,
) -> bool {
    forall|k: QuotaKey|
        #[trigger] h.count(k) == if k.2 < shards.len() && k == quota_key(shards, k.2 as int)
            && !aside.contains(k) {
            1nat
        } else {
            0nat
        }
}

/// `h` holds the current balance key of every shard in `moved`, once.
spec fn balance_queue(
    h: Multiset<BalanceKey>,
    shards: Seq<Seq<ValidatorStake>>,
    moved: Set<int>,
) -> bool {
    forall|k: BalanceKey|
        #[trigger] h.count(k) == if k.2 < shards.len() && k == balance_key(shards, k.2 as int)
            && moved.contains(k.2 as int) {
            1nat
        } else {
            0nat
        }
}

/// The keys taken out of the queue: those set aside, then the chosen one.
spec fn taken(aside: Seq<QuotaKey>, target: Option<QuotaKey>) -> Seq<QuotaKey> {
    match target {
        Some(k) => aside.push(k),
        None => aside,
    }
}

/// Placing `v` in shard `s`, whose key was taken out of the queue, and queueing the
/// shard's new key.
proof fn lemma_place(
    h: Multiset<QuotaKey>,
    shards: Seq<Seq<ValidatorStake>>,
    s: int,
    v: ValidatorStake,
    aside: Seq<QuotaKey>,
)
    requires
        0 <= s < shards.len() <= usize::MAX,
        quota_queue(h, shards, aside.push(quota_key(shards, s))),
        forall|i: int| 0 <= i < aside.len() ==> (#[trigger] aside[i]).2 != s,
        shards[s].len() + 1 <= usize::MAX,
        stake_sum(shards[s]) + v.stake <= u128::MAX,
    ensures
        quota_queue(
            h.insert(
                (
                    (shards[s].len() + 1) as usize,
                    (stake_sum(shards[s]) + v.stake) as u128,
                    s as usize,
                ),
            ),
            shards.update(s, shards[s].push(v)),
            aside,
        ),
{
    broadcast use vstd::multiset::group_multiset_axioms, vstd::seq_lib::lemma_seq_contains_after_push;

    let u = shards.update(s, shards[s].push(v));
    assert(u[s].drop_last() =~= shards[s]);
    let nk = ((shards[s].len() + 1) as usize, (stake_sum(shards[s]) + v.stake) as u128, s as usize);
    assert(nk == quota_key(u, s));
    assert forall|k: QuotaKey| #[trigger] h.insert(nk).count(k) == if k.2 < u.len() && k
        == quota_key(u, k.2 as int) && !aside.contains(k) {
        1nat
    } else {
        0nat
    } by {
        assert(aside.push(quota_key(shards, s)).contains(k) <==> aside.contains(k) || k == quota_key(shards, s));
        if k.2 as int == s {
            assert(!aside.contains(k)) by {
                if aside.contains(k) {
                    let i = choose|i: int| 0 <= i < aside.len() && aside[i] == k;
                    assert(aside[i].2 != s);
                }
            }
            assert(h.count(k) == 0);
        } else {
            if k.2 < u.len() {
                assert(quota_key(u, k.2 as int) == quota_key(shards, k.2 as int));
            }
        }
    }
}

/// Taking `k` out of the queue moves it among the taken keys.
proof fn lemma_queue_take(
    h: Multiset<QuotaKey>,
    shards: Seq<Seq<ValidatorStake>>,
    aside: Seq<QuotaKey>,
    k: QuotaKey,
)
    requires
        quota_queue(h, shards, aside),
        h.count(k) > 0,
        aside.no_duplicates(),
    ensures
        quota_queue(h.remove(k), shards, aside.push(k)),
        aside.push(k).no_duplicates(),
        !aside.contains(k),
{
    broadcast use vstd::multiset::group_multiset_axioms, vstd::seq_lib::lemma_seq_contains_after_push;

    assert forall|a: int, b: int| 0 <= a < b < aside.push(k).len() implies aside.push(k)[a] != aside.push(k)[b] by {
        if b == aside.len() {
            assert(aside.contains(aside[a]));
        }
    }
}

/// Putting back the key set aside at `j` leaves those after it aside.
proof fn lemma_restore(
    h: Multiset<QuotaKey>,
    shards: Seq<Seq<ValidatorStake>>,
    aside: Seq<QuotaKey>,
    j: int,
)
    requires
        0 <= j < aside.len(),
        aside.no_duplicates(),
        aside[j].2 < shards.len(),
        aside[j] == quota_key(shards, aside[j].2 as int),
        quota_queue(h, shards, aside.subrange(j, aside.len() as int)),
    ensures
        quota_queue(h.insert(aside[j]), shards, aside.subrange(j + 1, aside.len() as int)),
{
    broadcast use vstd::multiset::group_multiset_axioms;

    let rest = aside.subrange(j, aside.len() as int);
    let after = aside.subrange(j + 1, aside.len() as int);
    assert(rest[0] == aside[j]);
    assert forall|k: QuotaKey| rest.contains(k) <==> k == aside[j] || after.contains(k) by {
        if rest.contains(k) {
            let i = choose|i: int| 0 <= i < rest.len() && rest[i] == k;
            if i > 0 {
                assert(after[i - 1] == k);
            }
        }
        if after.contains(k) {
            let i = choose|i: int| 0 <= i < after.len() && after[i] == k;
            assert(rest[i + 1] == k);
        }
    }
    assert(!after.contains(aside[j])) by {
        if after.contains(aside[j]) {
            let i = choose|i: int| 0 <= i < after.len() && after[i] == aside[j];
            assert(aside[j + 1 + i] == aside[j]);
        }
    }
}

/// Placing `v` in shard `s`, whose balance key was the one taken out of the queue,
/// and queueing the shard's new key.
proof fn lemma_place_balance(
    h: Multiset<BalanceKey>,
    shards: Seq<Seq<ValidatorStake>>,
    s: int,
    v: ValidatorStake,
    moved: Set<int>,
)
    requires
        0 <= s < shards.len() <= usize::MAX,
        moved.contains(s),
        balance_queue(h, shards, moved),
        shards[s].len() + 1 <= usize::MAX,
        stake_sum(shards[s]) + v.stake <= u128::MAX,
    ensures
        balance_queue(
            h.remove(balance_key(shards, s)).insert(
                (
                    (stake_sum(shards[s]) + v.stake) as u128,
                    (shards[s].len() + 1) as usize,
                    s as usize,
                ),
            ),
            shards.update(s, shards[s].push(v)),
            moved,
        ),
{
    broadcast use vstd::multiset::group_multiset_axioms;

    let u = shards.update(s, shards[s].push(v));
    assert(u[s].drop_last() =~= shards[s]);
    let nk = ((stake_sum(shards[s]) + v.stake) as u128, (shards[s].len() + 1) as usize, s as usize);
    assert(nk == balance_key(u, s));
    let h2 = h.remove(balance_key(shards, s)).insert(nk);
    assert forall|k: BalanceKey| #[trigger] h2.count(k) == if k.2 < u.len() && k
        == balance_key(u, k.2 as int) && moved.contains(k.2 as int) {
        1nat
    } else {
        0nat
    } by {
        if k.2 as int != s && k.2 < u.len() {
            assert(balance_key(u, k.2 as int) == balance_key(shards, k.2 as int));
        }
    }
}

/// Whether `shard` already holds an entry of the account `id`.
fn holds_account(shard: &Vec<ValidatorStake>, id: &String) -> (r: bool)
    ensures
        r == holds_id(shard@, id@),
{
    let mut i: usize = 0;
    while i < shard.len()
        invariant
            i <= shard@.len(),
            forall|j: int| 0 <= j < i ==> (#[trigger] shard@[j]).account_id@ != id@,
        decreases shard@.len() - i,
    {
        if shard[i].account_id == *id {
            return true;
        }
        i = i + 1;
    }
    false
}

/// Whether some queued shard is still below `quota`.
fn quota_pending(heap: &MinHeap<QuotaKey>, quota: usize) -> (r: bool)
    requires
        heap.wf(),
    ensures
        r <==> exists|k: QuotaKey| heap@.contains(k) && k.0 < quota,
{
    match heap.peek() {
        None => {
            proof {
                assert(heap@ =~= Multiset::<QuotaKey>::empty());
            }
            false
        },
        Some(least) => {
            if least.0 < quota {
                true
            } else {
                proof {
                    assert forall|k: QuotaKey| heap@.contains(k) implies k.0 >= quota by {
                        assert(key_le(*least, k));
                    }
                }
                false
            }
        },
    }
}

/// Assigns block producers to shards: the i-th element of the result holds the
/// producers assigned to shard i, in the order of assignment.
///
/// The producers are handed out in order, repeated from the start as often as
/// needed, until every shard holds at least `min_validators_per_shard` of them
/// and every producer has been handed out once. While some shard is below its
/// quota, each producer goes to the shard of fewest producers (then least stake,
/// then lowest index) that does not hold its account yet; the rest go to the
/// shard of least stake.
pub fn assign_shards(
    block_producers: Vec<ValidatorStake>,
    num_shards: usize,
    min_validators_per_shard: usize,
) -> (r: Result<Vec<Vec<ValidatorStake>>, AssignmentError>)
    requires
        num_shards > 0,
        num_shards * min_validators_per_shard <= usize::MAX,
        ids_distinct(block_producers@),
        block_producers@.len() > 0 ==> stake_sum(
            supply(
                block_producers@,
                required_count(
                    block_producers@.len() as int,
                    num_shards as int,
                    min_validators_per_shard as int,
                ),
            ),
        ) <= u128::MAX,
    ensures
        r == Err::<Vec<Vec<ValidatorStake>>, AssignmentError>(AssignmentError::InsufficientSupply)
            <==> block_producers@.len() < min_validators_per_shard,
        r == Err::<Vec<Vec<ValidatorStake>>, AssignmentError>(AssignmentError::QuotaUnreachable)
            ==> block_producers@.len() < num_shards * min_validators_per_shard,
        r is Ok <==> block_producers@.len() >= min_validators_per_shard && quota_fill_completes(
            block_producers@,
            num_shards as nat,
            min_validators_per_shard as int,
        ),
        block_producers@.len() >= num_shards * min_validators_per_shard ==> r is Ok,
        r matches Ok(res) ==> {
            let shards = shards_of(res@);
            let required = required_count(
                block_producers@.len() as int,
                num_shards as int,
                min_validators_per_shard as int,
            );
            &&& shards == assignment_after(
                block_producers@,
                num_shards as nat,
                min_validators_per_shard as int,
                required as nat,
            )
            &&& shards.len() == num_shards
            &&& forall|s: int|
                0 <= s < shards.len() ==> #[trigger] shards[s].len() >= min_validators_per_shard
            &&& forall|s: int| 0 <= s < shards.len() ==> ids_distinct(#[trigger] shards[s])
            &&& assigned(shards) == supply(block_producers@, required).to_multiset()
            &&& assigned(shards).len() == required
        },
{
    broadcast use vstd::laws_cmp::group_laws_cmp, vstd::seq_lib::group_to_multiset_ensures,
        vstd::multiset::group_multiset_axioms;

    let n = block_producers.len();
    let quota = min_validators_per_shard;
    if n < quota {
        proof {
            assert(num_shards * quota >= quota) by (nonlinear_arith)
                requires
                    num_shards > 0,
            ;
        }
        return Err(AssignmentError::InsufficientSupply);
    }
    let quota_total = num_shards * quota;
    let required: usize = if n > quota_total {
        n
    } else {
        quota_total
    };
    let ghost bps = block_producers@;
    let ghost total = stake_sum(supply(bps, required as int));

    // Every shard starts empty, queued under the key (0, 0, shard).
    let mut result: Vec<Vec<ValidatorStake>> = Vec::new();
    let mut heap: MinHeap<QuotaKey> = MinHeap::new();
    let mut s: usize = 0;
    while s < num_shards
        invariant
            s <= num_shards,
            heap.wf(),
            result@.len() == s,
            forall|t: int| 0 <= t < s ==> (#[trigger] result@[t])@.len() == 0,
            quota_queue(heap@, shards_of(result@), Seq::empty()),
        decreases num_shards - s,
    {
        let ghost old_shards = shards_of(result@);
        heap.push((0, 0, s));
        result.push(Vec::new());
        proof {
            let shards = shards_of(result@);
            assert(shards =~= old_shards.push(Seq::empty()));
            assert(stake_sum(shards[s as int]) == 0);
            assert forall|k: QuotaKey| #[trigger] heap@.count(k) == if k.2 < shards.len() && k
                == quota_key(shards, k.2 as int) && !Seq::<QuotaKey>::empty().contains(k) {
                1nat
            } else {
                0nat
            } by {
                if k.2 < s {
                    assert(shards[k.2 as int] == old_shards[k.2 as int]);
                }
            }
        }
        s = s + 1;
    }
    proof {
        assert forall|t: int| 0 <= t < num_shards implies #[trigger] shards_of(result@)[t]
            =~= Seq::<ValidatorStake>::empty() by {
            assert(result@[t]@.len() == 0);
        }
        assert(shards_of(result@) =~= assignment_after(bps, num_shards as nat, quota as int, 0));
        lemma_nothing_assigned(shards_of(result@));
        assert(supply(bps, 0) =~= Seq::<ValidatorStake>::empty());
        assert(assigned(shards_of(result@)) =~= supply(bps, 0).to_multiset());
    }

    // Fill every shard up to its quota.
    let mut idx: usize = 0;
    while quota_pending(&heap, quota)
        invariant
            n == bps.len(),
            n >= quota,
            quota == min_validators_per_shard,
            required == required_count(n as int, num_shards as int, quota as int),
            quota_total == num_shards * quota,
            num_shards > 0,
            block_producers@ == bps,
            ids_distinct(bps),
            n > 0 ==> total == stake_sum(supply(bps, required as int)),
            n > 0 ==> total <= u128::MAX,
            idx <= required,
            heap.wf(),
            result@.len() == num_shards,
            quota_queue(heap@, shards_of(result@), Seq::empty()),
            shards_of(result@) == assignment_after(bps, num_shards as nat, quota as int, idx as nat),
            forall|k: nat|
                k < idx && !all_filled(
                    #[trigger] assignment_after(bps, num_shards as nat, quota as int, k),
                    quota as int,
                ) ==> exists|t: int|
                    #[trigger] is_quota_choice(
                        assignment_after(bps, num_shards as nat, quota as int, k),
                        bps[(k as int) % (n as int)].account_id@,
                        t,
                    ),
            assigned(shards_of(result@)) == supply(bps, idx as int).to_multiset(),
            assigned_stake(shards_of(result@)) == stake_sum(supply(bps, idx as int)),
            forall|t: int| 0 <= t < num_shards ==> ids_distinct(#[trigger] shards_of(result@)[t]),
            n >= quota_total ==> forall|a: int, b: int|
                0 <= a < num_shards && 0 <= b < num_shards ==> #[trigger] shards_of(result@)[a].len()
                    <= #[trigger] shards_of(result@)[b].len() + 1,
        decreases required - idx,
    {
        let ghost shards = shards_of(result@);
        proof {
            assert(supply(bps, idx as int).len() == idx);
            vstd::seq_lib::to_multiset_len(supply(bps, idx as int));
        }
        if idx >= required {
            proof {
                assert(n < quota_total) by {
                    if n >= quota_total {
                        let k = choose|k: QuotaKey| heap@.contains(k) && k.0 < quota;
                        let t = k.2 as int;
                        assert(k == quota_key(shards, t));
                        assert forall|u: int| 0 <= u < shards.len() implies #[trigger] shards[u].len()
                            <= quota by {
                            assert(shards[u].len() <= shards[t].len() + 1);
                        }
                        lemma_assigned_len_bound(shards, quota as int, t);
                    }
                }
            }
            return Err(AssignmentError::QuotaUnreachable);
        }
        proof {
            assert(heap@.len() > 0 && !all_filled(shards, quota as int)) by {
                let k = choose|k: QuotaKey| heap@.contains(k) && k.0 < quota;
                if heap@.len() == 0 {
                    assert(heap@ =~= Multiset::<QuotaKey>::empty());
                }
                let t = k.2 as int;
                assert(k == quota_key(shards, t));
                lemma_shard_within(shards, t);
                assert(shards[t].len() < quota);
            }
            lemma_supply_step(bps, idx as int);
            lemma_supply_stake_monotone(bps, idx as int + 1, required as int);
            vstd::arithmetic::div_mod::lemma_mod_bound(idx as int, n as int);
            vstd::seq_lib::to_multiset_build(supply(bps, idx as int), bps[(idx % n) as int]);
        }
        let bp = block_producers[idx % n].duplicate();
        let ghost h0 = heap@;
        let least = heap.pop().unwrap();
        let (count, stake, shard) = least;
        proof {
            assert(h0.count(least) > 0);
            assert(least == quota_key(shards, shard as int));
            lemma_shard_within(shards, shard as int);
        }
        if idx < n || !holds_account(&result[shard], &bp.account_id) {
            proof {
                if idx < n {
                    vstd::arithmetic::div_mod::lemma_small_mod(idx as nat, n as nat);
                    lemma_first_lap_fresh(bps, shards, idx as int);
                }
            }
            let ghost popped = heap@;
            proof {
                assert(Seq::<QuotaKey>::empty().push(least) =~= seq![least]);
                assert forall|k: QuotaKey| #[trigger] popped.count(k) == if k.2 < shards.len() && k
                    == quota_key(shards, k.2 as int) && !seq![least].contains(k) {
                    1nat
                } else {
                    0nat
                } by {
                    assert(seq![least].contains(k) <==> k == least) by {
                        if k == least {
                            assert(seq![least][0] == least);
                        }
                    }
                }
            }
            heap.push((count + 1, stake + bp.stake, shard));
            result[shard].push(bp);
            proof {
                assert(!holds_id(shards[shard as int], bp.account_id@));
                assert forall|u: int| 0 <= u < shards.len() && !holds_id(#[trigger] shards[u], bp.account_id@)
                    implies key_le(quota_key(shards, shard as int), quota_key(shards, u)) by {
                    assert(h0.count(quota_key(shards, u)) == 1);
                }
                lemma_quota_choice(shards, bp.account_id@, shard as int);
                assert(is_quota_choice(
                    assignment_after(bps, num_shards as nat, quota as int, idx as nat),
                    bps[(idx as int) % (n as int)].account_id@,
                    shard as int,
                ));
                lemma_place(popped, shards, shard as int, bp, Seq::empty());
                assert(shards_of(result@) =~= shards.update(shard as int, shards[shard as int].push(bp)));
                lemma_assign_one(shards, shard as int, bp);
                lemma_distinct_push(shards[shard as int], bp);
                if n >= quota_total {
                    assert forall|t: int| 0 <= t < num_shards implies shards[shard as int].len()
                        <= #[trigger] shards[t].len() by {
                        assert(h0.count(quota_key(shards, t)) == 1);
                        assert(key_le(least, quota_key(shards, t)));
                    }
                }
            }
        } else {
            // `bp` is already in this shard: set queued shards aside until one
            // without it comes up.
            proof {
                assert(n < quota_total);
            }
            let mut aside: Vec<QuotaKey> = Vec::new();
            aside.push(least);
            let mut target: Option<QuotaKey> = None;
            proof {
                assert(aside@ =~= seq![least]);
                assert forall|k: QuotaKey| #[trigger] heap@.count(k) == if k.2 < shards.len() && k
                    == quota_key(shards, k.2 as int) && !aside@.contains(k) {
                    1nat
                } else {
                    0nat
                } by {
                    assert(aside@.contains(k) <==> k == least) by {
                        if k == least {
                            assert(aside@[0] == least);
                        }
                    }
                }
            }
            while target.is_none()
                invariant
                    n == block_producers@.len(),
                    quota == min_validators_per_shard,
                    n >= quota,
                    n < quota_total,
                    quota_total == num_shards * quota,
                    block_producers@ == bps,
                    required == required_count(n as int, num_shards as int, quota as int),
                    idx < required,
                    bp == bps[(idx as int) % (n as int)],
                    shards == assignment_after(bps, num_shards as nat, quota as int, idx as nat),
                    !all_filled(shards, quota as int),
                    heap.wf(),
                    shards == shards_of(result@),
                    shards.len() == num_shards,
                    quota_queue(heap@, shards, taken(aside@, target)),
                    taken(aside@, target).no_duplicates(),
                    forall|i: int|
                        0 <= i < aside@.len() ==> (#[trigger] aside@[i]).2 < num_shards && aside@[i]
                            == quota_key(shards, aside@[i].2 as int) && holds_id(
                            shards[aside@[i].2 as int],
                            bp.account_id@,
                        ),
                    target matches Some(k) ==> k.2 < num_shards && k == quota_key(shards, k.2 as int)
                        && !holds_id(shards[k.2 as int], bp.account_id@) && forall|u: int|
                        0 <= u < shards.len() && !holds_id(#[trigger] shards[u], bp.account_id@)
                            ==> key_le(k, quota_key(shards, u)),
                decreases heap@.len() + if target is None { 1int } else { 0int },
            {
                let ghost h1 = heap@;
                let ghost a1 = aside@;
                match heap.pop() {
                    None => {
                        proof {
                            assert forall|t: int| !is_quota_choice(shards, bp.account_id@, t) by {
                                if is_quota_choice(shards, bp.account_id@, t) {
                                    if a1.contains(quota_key(shards, t)) {
                                        let i = choose|i: int| 0 <= i < a1.len() && a1[i] == quota_key(shards, t);
                                        assert(a1[i].2 == t);
                                    }
                                    assert(h1.count(quota_key(shards, t)) == 1);
                                }
                            }
                            assert(!quota_fill_completes(bps, num_shards as nat, quota as int)) by {
                                let k = idx as nat;
                                assert(k < required && !all_filled(assignment_after(bps, num_shards as nat, quota as int, k), quota as int));
                            }
                        }
                        return Err(AssignmentError::QuotaUnreachable);
                    },
                    Some(next) => {
                        proof {
                            assert(h1.count(next) > 0);
                            assert(next == quota_key(shards, next.2 as int));
                            assert(!a1.contains(next));
                        }
                        if holds_account(&result[next.2], &bp.account_id) {
                            aside.push(next);
                            proof {
                                lemma_queue_take(h1, shards, a1, next);
                            }
                        } else {
                            target = Some(next);
                            proof {
                                lemma_queue_take(h1, shards, a1, next);
                                assert forall|u: int|
                                    0 <= u < shards.len() && !holds_id(#[trigger] shards[u], bp.account_id@)
                                    implies key_le(next, quota_key(shards, u)) by {
                                    if a1.contains(quota_key(shards, u)) {
                                        let i = choose|i: int| 0 <= i < a1.len() && a1[i] == quota_key(shards, u);
                                        assert(a1[i].2 == u);
                                    }
                                    assert(h1.count(quota_key(shards, u)) == 1);
                                }
                            }
                        }
                    },
                }
            }
            let chosen = target.unwrap();
            let (count, stake, shard) = chosen;
            proof {
                assert forall|i: int| 0 <= i < aside@.len() implies (#[trigger] aside@[i]).2 != shard by {
                    if aside@[i].2 == shard {
                        assert(aside@.push(chosen)[i] == aside@.push(chosen)[aside@.len() as int]);
                    }
                }
                lemma_shard_within(shards, shard as int);
            }
            let ghost popped = heap@;
            heap.push((count + 1, stake + bp.stake, shard));
            result[shard].push(bp);
            let ghost placed = shards.update(shard as int, shards[shard as int].push(bp));
            proof {
                lemma_quota_choice(shards, bp.account_id@, shard as int);
                assert(is_quota_choice(
                    assignment_after(bps, num_shards as nat, quota as int, idx as nat),
                    bps[(idx as int) % (n as int)].account_id@,
                    shard as int,
                ));
                lemma_place(popped, shards, shard as int, bp, aside@);
                assert(shards_of(result@) =~= placed);
                lemma_assign_one(shards, shard as int, bp);
                lemma_distinct_push(shards[shard as int], bp);
                assert(aside@.no_duplicates()) by {
                    assert forall|a: int, b: int| 0 <= a < b < aside@.len() implies aside@[a] != aside@[b] by {
                        assert(aside@.push(chosen)[a] == aside@[a]);
                        assert(aside@.push(chosen)[b] == aside@[b]);
                    }
                }
                assert(aside@.subrange(0, aside@.len() as int) =~= aside@);
            }
            // Put back the shards that were set aside.
            let mut j: usize = 0;
            while j < aside.len()
                invariant
                    heap.wf(),
                    j <= aside@.len(),
                    placed.len() == num_shards,
                    aside@.no_duplicates(),
                    forall|i: int|
                        0 <= i < aside@.len() ==> (#[trigger] aside@[i]).2 < num_shards && aside@[i]
                            == quota_key(placed, aside@[i].2 as int),
                    quota_queue(heap@, placed, aside@.subrange(j as int, aside@.len() as int)),
                decreases aside@.len() - j,
            {
                proof {
                    lemma_restore(heap@, placed, aside@, j as int);
                }
                heap.push(aside[j]);
                j = j + 1;
            }
            proof {
                assert(aside@.subrange(aside@.len() as int, aside@.len() as int) =~= Seq::<QuotaKey>::empty());
            }
        }
        idx = idx + 1;
    }

    let ghost shards = shards_of(result@);
    proof {
        assert forall|t: int| 0 <= t < num_shards implies #[trigger] shards[t].len() >= quota by {
            lemma_shard_within(shards, t);
            vstd::seq_lib::to_multiset_len(supply(bps, idx as int));
            assert(heap@.count(quota_key(shards, t)) == 1);
            assert(heap@.contains(quota_key(shards, t)));
        }
        lemma_assigned_len_at_least(shards, quota as int);
        vstd::seq_lib::to_multiset_len(supply(bps, idx as int));
    }
    if idx < required {
        // Surplus remains: queue the shards by stake instead.
        let mut balance: MinHeap<BalanceKey> = MinHeap::new();
        let ghost mut moved: Set<int> = Set::empty();
        proof {
            assert forall|k: BalanceKey| #[trigger] balance@.count(k) == if k.2 < shards.len() && k
                == balance_key(shards, k.2 as int) && moved.contains(k.2 as int) {
                1nat
            } else {
                0nat
            } by {}
        }
        while heap.len() > 0
            invariant
                heap.wf(),
                balance.wf(),
                shards == shards_of(result@),
                shards.len() == num_shards,
                forall|k: QuotaKey|
                    #[trigger] heap@.count(k) == if k.2 < shards.len() && k == quota_key(
                        shards,
                        k.2 as int,
                    ) && !moved.contains(k.2 as int) {
                        1nat
                    } else {
                        0nat
                    },
                balance_queue(balance@, shards, moved),
            decreases heap@.len(),
        {
            let ghost h0 = heap@;
            let k = heap.pop().unwrap();
            proof {
                assert(h0.count(k) > 0);
            }
            balance.push((k.1, k.0, k.2));
            proof {
                moved = moved.insert(k.2 as int);
            }
        }
        proof {
            assert forall|t: int| 0 <= t < num_shards implies moved.contains(t) by {
                assert(heap@ =~= Multiset::<QuotaKey>::empty());
                assert(heap@.count(quota_key(shards, t)) == 0);
            }
        }
        while idx < required
            invariant
                n == bps.len(),
                required == n,
                num_shards > 0,
                quota == min_validators_per_shard,
                block_producers@ == bps,
                ids_distinct(bps),
                total == stake_sum(supply(bps, required as int)),
                total <= u128::MAX,
                idx <= required,
                balance.wf(),
                result@.len() == num_shards,
                forall|t: int| 0 <= t < num_shards ==> moved.contains(t),
                balance_queue(balance@, shards_of(result@), moved),
                shards_of(result@) == assignment_after(bps, num_shards as nat, quota as int, idx as nat),
                forall|k: nat|
                    k < idx && !all_filled(
                        #[trigger] assignment_after(bps, num_shards as nat, quota as int, k),
                        quota as int,
                    ) ==> exists|t: int|
                        #[trigger] is_quota_choice(
                            assignment_after(bps, num_shards as nat, quota as int, k),
                            bps[(k as int) % (n as int)].account_id@,
                            t,
                        ),
                assigned(shards_of(result@)) == supply(bps, idx as int).to_multiset(),
                assigned_stake(shards_of(result@)) == stake_sum(supply(bps, idx as int)),
                forall|t: int| 0 <= t < num_shards ==> ids_distinct(#[trigger] shards_of(result@)[t]),
                forall|t: int|
                    0 <= t < num_shards ==> #[trigger] shards_of(result@)[t].len() >= quota,
            decreases required - idx,
        {
            let ghost shards = shards_of(result@);
            proof {
                vstd::seq_lib::to_multiset_len(supply(bps, idx as int));
                lemma_supply_step(bps, idx as int);
                lemma_supply_stake_monotone(bps, idx as int + 1, required as int);
                vstd::arithmetic::div_mod::lemma_small_mod(idx as nat, n as nat);
                vstd::seq_lib::to_multiset_build(supply(bps, idx as int), bps[idx as int]);
                lemma_first_lap_fresh(bps, shards, idx as int);
                assert(balance@.count(balance_key(shards, 0)) == 1);
            }
            let bp = block_producers[idx].duplicate();
            let ghost h0 = balance@;
            let least = balance.pop().unwrap();
            let (stake, count, shard) = least;
            proof {
                assert(h0.count(least) > 0);
                lemma_shard_within(shards, shard as int);
            }
            balance.push((stake + bp.stake, count + 1, shard));
            result[shard].push(bp);
            proof {
                assert forall|u: int| 0 <= u < shards.len() implies key_le(
                    balance_key(shards, shard as int),
                    #[trigger] balance_key(shards, u),
                ) by {
                    assert(h0.count(balance_key(shards, u)) == 1);
                }
                lemma_balance_choice(shards, shard as int);
                lemma_place_balance(h0, shards, shard as int, bp, moved);
                assert(shards_of(result@) =~= shards.update(shard as int, shards[shard as int].push(bp)));
                lemma_assign_one(shards, shard as int, bp);
                lemma_distinct_push(shards[shard as int], bp);
            }
            idx = idx + 1;
        }
    }
    proof {
        vstd::seq_lib::to_multiset_len(supply(bps, idx as int));
    }
    Ok(result)
}

} // verus!
