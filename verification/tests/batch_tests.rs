use beggar::batch::{run_batch, run_deal, run_shard, BatchError};
use beggar::codec::{get_hash_from_array, CodecError};
use beggar::permutation::next_permutation;
use beggar::stats::{merge_stats, new_stats, RunStatistics};

const SEED: &str = "------------------------------------JJJJQQQQKKKKAAAA";

fn chars(s: &str) -> Vec<char> {
    s.chars().collect()
}

/// The first `n` decks the generator enumerates after the seed, as hashes.
fn first_deals(n: usize) -> Vec<Vec<char>> {
    let mut deck = beggar::codec::get_array_from_hash(&chars(SEED));
    let mut deals = Vec::new();
    for _ in 0..n {
        assert!(next_permutation(&mut deck));
        let mut hash: Vec<char> = Vec::new();
        get_hash_from_array(&deck, &mut hash);
        deals.push(hash);
    }
    deals
}

#[test]
fn zero_workers_is_rejected() {
    let deals = first_deals(4);
    assert_eq!(run_batch(&deals, 0), Err(BatchError::ZeroWorkers));
}

#[test]
fn indivisible_workload_is_rejected() {
    let deals = first_deals(5);
    assert_eq!(run_batch(&deals, 2), Err(BatchError::IndivisibleWorkload));
    assert_eq!(run_batch(&deals, 3), Err(BatchError::IndivisibleWorkload));
}

#[test]
fn sharded_extremes_match_a_sequential_scan() {
    let deals = first_deals(8);
    let sequential = run_batch(&deals, 1).unwrap();
    for workers in [2usize, 4, 8] {
        let sharded = run_batch(&deals, workers).unwrap();
        assert_eq!(sharded.most_turns, sequential.most_turns);
        assert_eq!(sharded.least_turns, sequential.least_turns);
        assert_eq!(sharded.suspicious_games, sequential.suspicious_games);
    }
}

#[test]
fn batch_agrees_with_manual_shard_merge() {
    let deals = first_deals(6);
    let whole = run_batch(&deals, 2).unwrap();
    let (left, _) = run_shard(&deals, 0, 3);
    let (right, _) = run_shard(&deals, 3, 3);
    let merged = merge_stats(merge_stats(new_stats(), left), right);
    assert_eq!(whole, merged);
}

#[test]
fn malformed_deal_spoils_only_itself() {
    let mut deals = first_deals(3);
    deals[1] = chars("too-short");
    let (stats, outcomes) = run_shard(&deals, 0, 3);
    assert_eq!(outcomes.len(), 3);
    assert!(outcomes[0].is_ok());
    assert_eq!(outcomes[1], Err(CodecError::WrongLength));
    assert!(outcomes[2].is_ok());
    // Both valid deals still counted toward the extremes.
    assert!(stats.most_turns >= 1);
    assert!(stats.least_turns <= 10000);
}

#[test]
fn run_deal_matches_simulator() {
    let deals = first_deals(1);
    let (turns, suspicious) = run_deal(&deals[0]).unwrap();
    assert!(turns >= 1);
    assert!(!suspicious || turns == 10000);
    assert_eq!(run_deal(&chars("JQKA")), Err(CodecError::WrongLength));
}

#[test]
fn fold_updates_only_on_strict_improvement() {
    let deals = first_deals(2);
    let stats = new_stats();
    let stats = beggar::batch::fold_into(stats, &deals[0], 7, false);
    assert_eq!(stats.most_turns, 7);
    assert_eq!(stats.least_turns, 7);
    assert_eq!(stats.most_hash, deals[0]);
    // A tie must not replace the stored hash.
    let stats = beggar::batch::fold_into(stats, &deals[1], 7, true);
    assert_eq!(stats.most_turns, 7);
    assert_eq!(stats.most_hash, deals[0]);
    assert_eq!(stats.least_hash, deals[0]);
    assert_eq!(stats.suspicious_games, 1);
}

#[test]
fn merge_keeps_the_accumulator_on_ties() {
    let a = RunStatistics {
        most_turns: 9,
        least_turns: 3,
        suspicious_games: 1,
        most_hash: chars("aaa"),
        least_hash: chars("bbb"),
    };
    let b = RunStatistics {
        most_turns: 9,
        least_turns: 3,
        suspicious_games: 2,
        most_hash: chars("ccc"),
        least_hash: chars("ddd"),
    };
    let merged = merge_stats(a, b);
    assert_eq!(merged.most_turns, 9);
    assert_eq!(merged.most_hash, chars("aaa"));
    assert_eq!(merged.least_hash, chars("bbb"));
    assert_eq!(merged.suspicious_games, 3);
}
