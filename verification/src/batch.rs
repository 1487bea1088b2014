//! The batch engine: runs a list of deals shard by shard, folds every
//! outcome into extremal statistics, and merges the per-shard results — with
//! the proof that the merged extremes equal those of one sequential scan.

use vstd::prelude::*;
use std::collections::VecDeque;
use crate::card::Card;
use crate::codec::{decoded, valid_hash, CodecError, DECK_SIZE, HAND_SIZE};
use crate::codec::{clone_hash, decode_deck_strict, get_players_from_hash};
use crate::game::{simulate_game, simulate_spec, TURN_CUTOFF};
use crate::stats::{fold_outcome, init_stats, merge_spec, StatsModel};
use crate::stats::{merge_stats, new_stats, RunStatistics};

verus! {

/// A batch configuration the runner rejects before simulating anything.
#[derive(Copy, Clone, PartialEq, Eq, Structural, Debug)]
pub enum BatchError {
    /// No worker at all was requested.
    ZeroWorkers,
    /// The deal count is not a multiple of the worker count, so no static
    /// equal partition exists.
    IndivisibleWorkload,
}

/// The outcome of one valid deal: the first 26 decoded symbols are player 1's
/// hand, the last 26 player 2's, the discard pile starts empty.
pub open spec fn deal_outcome(hash: Seq<char>) -> (nat, bool) {
    simulate_spec(
        decoded(hash).subrange(0, HAND_SIZE as int),
        decoded(hash).subrange(HAND_SIZE as int, DECK_SIZE as int),
        Seq::empty(),
    )
}

/// One deal folded into running statistics: a malformed hash contributes
/// nothing, a valid one contributes its simulated outcome.
pub open spec fn fold_deal(s: StatsModel, hash: Seq<char>) -> StatsModel {
    if valid_hash(hash) {
        fold_outcome(s, hash, deal_outcome(hash).0, deal_outcome(hash).1)
    } else {
        s
    }
}

/// A sequential scan: every deal of the list folded into `s`, in order.
pub open spec fn scan_deals(deals: Seq<Seq<char>>, s: StatsModel) -> StatsModel
    decreases deals.len(),
{
    if deals.len() == 0 {
        s
    } else {
        scan_deals(deals.drop_first(), fold_deal(s, deals[0]))
    }
}

/// Shard `i` of a partition into runs of `k` consecutive deals.
pub open spec fn shard_of(deals: Seq<Seq<char>>, k: nat, i: nat) -> Seq<Seq<char>> {
    deals.subrange((i * k) as int, ((i + 1) * k) as int)
}

/// The first `i` shards scanned independently and merged in shard order.
pub open spec fn merged_shards(deals: Seq<Seq<char>>, k: nat, i: nat) -> StatsModel
    decreases i,
{
    if i == 0 {
        init_stats()
    } else {
        merge_spec(
            merged_shards(deals, k, (i - 1) as nat),
            scan_deals(shard_of(deals, k, (i - 1) as nat), init_stats()),
        )
    }
}

/// What a whole batch produces: the deals split into `workers` equal
/// contiguous shards, each scanned from fresh statistics, the shard results
/// merged in shard order.
pub open spec fn batch_spec(deals: Seq<Seq<char>>, workers: nat) -> StatsModel
    recommends
        workers >= 1,
        deals.len() % workers == 0,
{
    merged_shards(deals, deals.len() / workers, workers)
}

/// Validates and simulates one deal: `Ok` with the simulated pair exactly
/// when the hash is well formed, the decode error otherwise.
pub fn run_deal(hash: &Vec<char>) -> (r: Result<(usize, bool), CodecError>)
    ensures
        r is Ok <==> valid_hash(hash@),
        r matches Ok(o) ==> (o.0 as nat, o.1) == deal_outcome(hash@) && 1 <= o.0 <= TURN_CUTOFF,
        r matches Err(e) ==> (e == CodecError::WrongLength <==> hash@.len() != DECK_SIZE),
{
    match decode_deck_strict(hash) {
        Ok(_) => {
            let mut player1: VecDeque<Card> = VecDeque::new();
            let mut player2: VecDeque<Card> = VecDeque::new();
            let mut discard_pile: VecDeque<Card> = VecDeque::new();
            get_players_from_hash(hash, &mut player1, &mut player2);
            proof {
                assert(player1@ =~= decoded(hash@).subrange(0, HAND_SIZE as int));
                assert(player2@ =~= decoded(hash@).subrange(HAND_SIZE as int, DECK_SIZE as int));
            }
            let (turns, suspicious) = simulate_game(&mut player1, &mut player2, &mut discard_pile);
            Ok((turns, suspicious))
        },
        Err(e) => Err(e),
    }
}

/// Folds one simulated outcome into the statistics under the
/// strict-improvement policy of [`fold_outcome`].
pub fn fold_into(stats: RunStatistics, hash: &Vec<char>, turns: usize, suspicious: bool) -> (r:
    RunStatistics)
    requires
        stats.suspicious_games < usize::MAX,
    ensures
        r@ == fold_outcome(stats@, hash@, turns as nat, suspicious),
{
    let mut r = stats;
    if turns > r.most_turns {
        r.most_turns = turns;
        r.most_hash = clone_hash(hash);
    }
    if turns < r.least_turns {
        r.least_turns = turns;
        r.least_hash = clone_hash(hash);
    }
    if suspicious {
        r.suspicious_games = r.suspicious_games + 1;
    }
    r
}

/// Scans `count` deals starting at `start`, sequentially and in order, from
/// fresh statistics. Returns the folded statistics together with one result
/// per deal: the simulated pair, or the decode error of a malformed deal,
/// which spoils only that deal.
pub fn run_shard(deals: &Vec<Vec<char>>, start: usize, count: usize) -> (r: (
    RunStatistics,
    Vec<Result<(usize, bool), CodecError>>,
))
    requires
        start + count <= deals@.len(),
    ensures
        r.0@ == scan_deals(
            deals.deep_view().subrange(start as int, (start + count) as int),
            init_stats(),
        ),
        r.0.suspicious_games <= count,
        r.1@.len() == count,
        forall|i: int|
            0 <= i < count ==> ((#[trigger] r.1@[i]) is Ok <==> valid_hash(
                deals.deep_view()[start + i],
            )),
        forall|i: int|
            0 <= i < count ==> ((#[trigger] r.1@[i]) matches Ok(o) ==> (o.0 as nat, o.1)
                == deal_outcome(deals.deep_view()[start + i])),
{
    let ghost dv = deals.deep_view();
    let n = deals.len();
    let mut stats = new_stats();
    let mut results: Vec<Result<(usize, bool), CodecError>> = Vec::new();
    let mut i: usize = 0;
    while i < count
        invariant
            i <= count,
            n == deals@.len(),
            start + count <= n,
            dv == deals.deep_view(),
            dv.len() == deals@.len(),
            stats@ == scan_deals(dv.subrange(start as int, (start + i) as int), init_stats()),
            stats.suspicious_games <= i,
            results@.len() == i,
            forall|k: int|
                0 <= k < i ==> ((#[trigger] results@[k]) is Ok <==> valid_hash(dv[start + k])),
            forall|k: int|
                0 <= k < i ==> ((#[trigger] results@[k]) matches Ok(o) ==> (o.0 as nat, o.1)
                    == deal_outcome(dv[start + k])),
        decreases count - i,
    {
        let hash = &deals[start + i];
        proof {
            assert(hash@ == dv[start + i]);
        }
        let res = run_deal(hash);
        let ghost pre = stats@;
        match res {
            Ok((turns, suspicious)) => {
                stats = fold_into(stats, hash, turns, suspicious);
            },
            Err(_) => {},
        }
        proof {
            assert(stats@ == fold_deal(pre, dv[start + i]));
            let a = dv.subrange(start as int, start + i);
            let b = dv.subrange(start as int, start + i + 1);
            assert(b =~= a + seq![dv[start + i]]);
            lemma_scan_concat(a, seq![dv[start + i]], init_stats());
            assert(seq![dv[start + i]].drop_first() =~= Seq::<Seq<char>>::empty());
            assert(scan_deals(seq![dv[start + i]], pre) == scan_deals(
                Seq::<Seq<char>>::empty(),
                fold_deal(pre, dv[start + i]),
            ));
        }
        results.push(res);
        i += 1;
    }
    (stats, results)
}

/// Scanning a concatenation equals scanning the second part from the result
/// of scanning the first.
pub proof fn lemma_scan_concat(a: Seq<Seq<char>>, b: Seq<Seq<char>>, s: StatsModel)
    ensures
        scan_deals(a + b, s) == scan_deals(b, scan_deals(a, s)),
    decreases a.len(),
{
    if a.len() == 0 {
        assert(a + b =~= b);
    } else {
        assert((a + b).drop_first() =~= a.drop_first() + b);
        assert((a + b)[0] == a[0]);
        lemma_scan_concat(a.drop_first(), b, fold_deal(s, a[0]));
    }
}

/// Runs a whole batch: rejects a zero worker count or an indivisible
/// workload before any simulation, otherwise scans the `workers` equal
/// contiguous shards in order and merges their statistics, exactly as
/// [`batch_spec`] describes.
pub fn run_batch(deals: &Vec<Vec<char>>, workers: usize) -> (r: Result<
    RunStatistics,
    BatchError,
>)
    ensures
        workers == 0 ==> r == Err::<RunStatistics, BatchError>(BatchError::ZeroWorkers),
        workers >= 1 && deals@.len() % (workers as nat) != 0 ==> r == Err::<
            RunStatistics,
            BatchError,
        >(BatchError::IndivisibleWorkload),
        r is Ok <==> (workers >= 1 && deals@.len() % (workers as nat) == 0),
        r matches Ok(stats) ==> stats@ == batch_spec(deals.deep_view(), workers as nat),
{
    let ghost dv = deals.deep_view();
    if workers == 0 {
        return Err(BatchError::ZeroWorkers);
    }
    if deals.len() % workers != 0 {
        return Err(BatchError::IndivisibleWorkload);
    }
    let n = deals.len();
    let k = n / workers;
    proof {
        assert(workers * k == n) by (nonlinear_arith)
            requires
                workers >= 1,
                k == n as int / workers as int,
                n as int % workers as int == 0,
        ;
    }
    let mut acc = new_stats();
    let mut i: usize = 0;
    while i < workers
        invariant
            i <= workers,
            workers >= 1,
            dv == deals.deep_view(),
            dv.len() == deals@.len(),
            n == deals@.len(),
            workers * k == n,
            acc@ == merged_shards(dv, k as nat, i as nat),
            acc.suspicious_games <= i * k,
        decreases workers - i,
    {
        proof {
            assert(i * k + k == (i + 1) * k) by (nonlinear_arith);
            assert((i + 1) * k <= workers * k) by (nonlinear_arith)
                requires
                    i + 1 <= workers,
                    k >= 0,
            ;
            assert(i * k <= workers * k) by (nonlinear_arith)
                requires
                    i <= workers,
                    k >= 0,
            ;
        }
        let start = i * k;
        let (shard_stats, _) = run_shard(deals, start, k);
        proof {
            assert(shard_of(dv, k as nat, i as nat) == dv.subrange(
                start as int,
                (start + k) as int,
            ));
        }
        acc = merge_stats(acc, shard_stats);
        i += 1;
    }
    proof {
        assert(acc@ == batch_spec(dv, workers as nat));
    }
    Ok(acc)
}

/// What one deal contributes to the running maximum: its turn count if it is
/// valid, nothing otherwise.
spec fn deal_most(hash: Seq<char>) -> nat {
    if valid_hash(hash) {
        deal_outcome(hash).0
    } else {
        0
    }
}

/// What one deal contributes to the running minimum: its turn count, clipped
/// at the sentinel, if it is valid; the sentinel otherwise.
spec fn deal_least(hash: Seq<char>) -> nat {
    if valid_hash(hash) {
        if deal_outcome(hash).0 < usize::MAX as nat {
            deal_outcome(hash).0
        } else {
            usize::MAX as nat
        }
    } else {
        usize::MAX as nat
    }
}

/// What one deal contributes to the suspicious count.
spec fn deal_susp(hash: Seq<char>) -> nat {
    if valid_hash(hash) && deal_outcome(hash).1 {
        1
    } else {
        0
    }
}

/// The largest turn count among the valid deals of a list.
spec fn most_of(deals: Seq<Seq<char>>) -> nat
    decreases deals.len(),
{
    if deals.len() == 0 {
        0
    } else {
        if deal_most(deals[0]) > most_of(deals.drop_first()) {
            deal_most(deals[0])
        } else {
            most_of(deals.drop_first())
        }
    }
}

/// The smallest turn count among the valid deals of a list, the sentinel if
/// there is none.
spec fn least_of(deals: Seq<Seq<char>>) -> nat
    decreases deals.len(),
{
    if deals.len() == 0 {
        usize::MAX as nat
    } else {
        if deal_least(deals[0]) < least_of(deals.drop_first()) {
            deal_least(deals[0])
        } else {
            least_of(deals.drop_first())
        }
    }
}

/// The number of suspicious games among the valid deals of a list.
spec fn susp_of(deals: Seq<Seq<char>>) -> nat
    decreases deals.len(),
{
    if deals.len() == 0 {
        0
    } else {
        deal_susp(deals[0]) + susp_of(deals.drop_first())
    }
}

/// The running minimum never exceeds the sentinel.
proof fn lemma_least_of_bound(deals: Seq<Seq<char>>)
    ensures
        least_of(deals) <= usize::MAX as nat,
    decreases deals.len(),
{
    if deals.len() != 0 {
        lemma_least_of_bound(deals.drop_first());
    }
}

/// A sequential scan's numeric fields in closed form: the maximum, the
/// minimum and the sum of its deals' contributions, combined with the
/// starting statistics.
proof fn lemma_scan_fields(deals: Seq<Seq<char>>, s: StatsModel)
    requires
        s.least_turns <= usize::MAX as nat,
    ensures
        scan_deals(deals, s).most_turns == if most_of(deals) > s.most_turns {
            most_of(deals)
        } else {
            s.most_turns
        },
        scan_deals(deals, s).least_turns == if least_of(deals) < s.least_turns {
            least_of(deals)
        } else {
            s.least_turns
        },
        scan_deals(deals, s).suspicious_games == s.suspicious_games + susp_of(deals),
    decreases deals.len(),
{
    if deals.len() != 0 {
        lemma_scan_fields(deals.drop_first(), fold_deal(s, deals[0]));
    }
}

/// The contributions of a concatenation combine the contributions of its
/// parts: maxima by maximum, minima by minimum, counts by sum.
proof fn lemma_fields_concat(a: Seq<Seq<char>>, b: Seq<Seq<char>>)
    ensures
        most_of(a + b) == if most_of(a) > most_of(b) {
            most_of(a)
        } else {
            most_of(b)
        },
        least_of(a + b) == if least_of(a) < least_of(b) {
            least_of(a)
        } else {
            least_of(b)
        },
        susp_of(a + b) == susp_of(a) + susp_of(b),
    decreases a.len(),
{
    if a.len() == 0 {
        assert(a + b =~= b);
        lemma_least_of_bound(b);
    } else {
        assert((a + b).drop_first() =~= a.drop_first() + b);
        assert((a + b)[0] == a[0]);
        lemma_fields_concat(a.drop_first(), b);
    }
}

/// The numeric fields of the first `i` merged shards are those of the first
/// `i * k` deals.
proof fn lemma_merged_prefix(deals: Seq<Seq<char>>, k: nat, i: nat)
    requires
        i * k <= deals.len(),
    ensures
        merged_shards(deals, k, i).most_turns == most_of(deals.subrange(0, (i * k) as int)),
        merged_shards(deals, k, i).least_turns == least_of(deals.subrange(0, (i * k) as int)),
        merged_shards(deals, k, i).suspicious_games == susp_of(deals.subrange(0, (i * k) as int)),
    decreases i,
{
    if i == 0 {
        assert(i * k == 0) by (nonlinear_arith)
            requires
                i == 0,
        ;
        assert(deals.subrange(0, 0) =~= Seq::<Seq<char>>::empty());
    } else {
        let j = (i - 1) as nat;
        assert(j * k + k == i * k && (j + 1) * k == i * k) by (nonlinear_arith)
            requires
                j == i - 1,
        ;
        assert(j * k <= i * k) by (nonlinear_arith)
            requires
                j <= i,
                k >= 0,
        ;
        lemma_merged_prefix(deals, k, j);
        let prefix = deals.subrange(0, (j * k) as int);
        let shard = shard_of(deals, k, j);
        assert(deals.subrange(0, (i * k) as int) =~= prefix + shard);
        lemma_scan_fields(shard, init_stats());
        lemma_least_of_bound(shard);
        lemma_least_of_bound(prefix);
        lemma_fields_concat(prefix, shard);
    }
}

/// The parallel-and-merge result agrees with a single sequential scan: for a
/// workload that divides evenly over the workers, the batch's maximum and
/// minimum turn counts and its suspicious-game count are exactly those of one
/// scan over the whole deal list. (The hash attached to a tied extreme may
/// differ between the two, which is why the hashes are not part of the law.)
pub proof fn lemma_batch_matches_sequential_scan(deals: Seq<Seq<char>>, workers: nat)
    requires
        workers >= 1,
        deals.len() % workers == 0,
    ensures
        batch_spec(deals, workers).most_turns == scan_deals(deals, init_stats()).most_turns,
        batch_spec(deals, workers).least_turns == scan_deals(deals, init_stats()).least_turns,
        batch_spec(deals, workers).suspicious_games == scan_deals(
            deals,
            init_stats(),
        ).suspicious_games,
{
    let k = deals.len() / workers;
    assert(workers * k == deals.len()) by (nonlinear_arith)
        requires
            workers >= 1,
            k == deals.len() / workers,
            deals.len() % workers == 0,
    ;
    lemma_merged_prefix(deals, k, workers);
    assert(deals.subrange(0, (workers * k) as int) =~= deals);
    lemma_scan_fields(deals, init_stats());
    lemma_least_of_bound(deals);
}

} // verus!
