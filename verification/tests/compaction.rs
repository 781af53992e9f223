use std::sync::Arc;

use mini_lsm::compact::{
    CompactionController, CompactionOptions, CompactionTask, LeveledCompactionController,
    LeveledCompactionOptions, SimpleLeveledCompactionController, SimpleLeveledCompactionOptions,
    TieredCompactionController, TieredCompactionOptions,
};
use mini_lsm::key::KeyVec;
use mini_lsm::lsm_storage::{LsmStorageOptions, LsmStorageState};
use mini_lsm::table::SsTable;

const MB: u64 = 1024 * 1024;

fn state(options: CompactionOptions) -> LsmStorageState {
    LsmStorageState::create(&LsmStorageOptions::default_for_week2_test(options))
}

fn key(k: &str) -> KeyVec {
    KeyVec::from_bytes_with_ts(k.as_bytes().to_vec(), 0)
}

fn load(s: &mut LsmStorageState, id: usize, size: u64, first: &str, last: &str) {
    let t = SsTable::create_meta_only(id, size, key(first), key(last));
    s.sstables.insert(id, Arc::new(t));
}

fn leveled() -> LeveledCompactionOptions {
    LeveledCompactionOptions {
        level_size_multiplier: 10,
        level0_file_num_compaction_trigger: 2,
        max_levels: 3,
        base_level_size_mb: 1,
    }
}

fn ranks(c: &LeveledCompactionController, s: &LsmStorageState) -> Vec<u64> {
    c.get_level_priorities(s)
        .iter()
        .map(|(size, target)| {
            let p = if *target == 0 { 0.0 } else { *size as f64 / *target as f64 };
            p.to_bits()
        })
        .collect()
}

#[test]
fn simple_tasks_begin_with_l0() {
    let o = SimpleLeveledCompactionOptions {
        size_ratio_percent: 200,
        level0_file_num_compaction_trigger: 2,
        max_levels: 3,
    };
    let c = SimpleLeveledCompactionController::new(o);
    let mut s = state(CompactionOptions::Simple(o));
    assert!(c.generate_compaction_task(&s).is_none());
    s.l0_sstables = vec![4, 3];
    s.levels[0].1 = vec![1, 2];
    let task = c.generate_compaction_task(&s).unwrap();
    assert_eq!(task.upper_level, None);
    assert_eq!(task.upper_level_sst_ids, vec![4, 3]);
    assert_eq!(task.lower_level, 1);
    assert_eq!(task.lower_level_sst_ids, vec![1, 2]);
    assert!(!task.is_lower_level_bottom_level);
    // A table that was flushed meanwhile stays.
    s.l0_sstables = vec![5, 4, 3];
    let (s, consumed) = c.apply_compaction_result(s, &task, &[6, 7]);
    assert_eq!(s.l0_sstables, vec![5]);
    assert_eq!(s.levels[0], (1, vec![6, 7]));
    assert_eq!(consumed, vec![4, 3, 1, 2]);
}

#[test]
fn simple_tasks_go_down_level_by_level() {
    let o = SimpleLeveledCompactionOptions {
        size_ratio_percent: 200,
        level0_file_num_compaction_trigger: 9,
        max_levels: 3,
    };
    let c = SimpleLeveledCompactionController::new(o);
    let mut s = state(CompactionOptions::Simple(o));
    s.levels[0].1 = vec![1];
    s.levels[1].1 = vec![2, 3];
    s.levels[2].1 = vec![4, 5, 6];
    let task = c.generate_compaction_task(&s).unwrap();
    assert_eq!((task.upper_level, task.lower_level), (Some(2), 3));
    assert!(task.is_lower_level_bottom_level);
    let (s, consumed) = c.apply_compaction_result(s, &task, &[9]);
    assert_eq!(s.levels[1], (2, vec![]));
    assert_eq!(s.levels[2], (3, vec![9]));
    assert_eq!(consumed, vec![2, 3, 4, 5, 6]);
}

#[test]
fn tiers_are_merged_for_three_reasons() {
    let o = TieredCompactionOptions {
        num_tiers: 3,
        max_size_amplification_percent: 200,
        size_ratio: 1,
        min_merge_width: 2,
        max_merge_width: None,
    };
    let c = TieredCompactionController::new(o);
    let mut s = state(CompactionOptions::Tiered(o));
    s.levels = vec![(1, vec![1]), (2, vec![2])];
    assert!(c.generate_compaction_task(&s).is_none());
    // Too much above the last tier.
    s.levels = vec![(1, vec![1]), (2, vec![2]), (3, vec![3])];
    let task = c.generate_compaction_task(&s).unwrap();
    assert_eq!(task.tiers.len(), 3);
    assert!(task.bottom_tier_included);
    // A tier that is too large for what is above it.
    s.levels = vec![(1, vec![1]), (2, vec![2]), (3, vec![3, 4, 5, 6])];
    let task = c.generate_compaction_task(&s).unwrap();
    assert_eq!(task.tiers, vec![(1, vec![1]), (2, vec![2])]);
    assert!(!task.bottom_tier_included);
    let (after, consumed) = c.apply_compaction_result(s, &task, &[8]);
    assert_eq!(after.levels, vec![(1, vec![8]), (2, vec![3, 4, 5, 6])]);
    assert_eq!(consumed, vec![1, 2]);
    // Too many tiers.
    let mut s = state(CompactionOptions::Tiered(o));
    s.levels = vec![(1, vec![1, 2]), (2, vec![3, 4]), (3, vec![5, 6, 7]), (4, vec![8, 9, 10, 11])];
    let c = TieredCompactionController::new(TieredCompactionOptions { size_ratio: 500, ..o });
    let task = c.generate_compaction_task(&s).unwrap();
    assert_eq!(task.tiers.len(), 3);
    assert!(!task.bottom_tier_included);
    assert!(c.generate_ampilification_compaction_task(&s).is_none());
    assert!(c.generate_size_ratio_compaction_task(&s).is_none());
    assert!(c.generate_reduce_tier_num_compaction_task(&s).is_some());
}

#[test]
fn level_targets_follow_the_last_level() {
    let c = LeveledCompactionController::new(leveled());
    let mut s = state(CompactionOptions::Leveled(leveled()));
    assert_eq!(c.get_level_target_sizes(&s), vec![0, 0, MB as usize]);
    load(&mut s, 1, 50 * MB, "a", "z");
    s.levels[2].1 = vec![1];
    assert_eq!(LeveledCompactionController::get_level_size(&s, 3), 50 * MB as usize);
    assert_eq!(
        c.get_level_target_sizes(&s),
        vec![MB as usize / 2, 5 * MB as usize, 50 * MB as usize]
    );
    assert_eq!(c.find_first_level_with_positive_target_size(&s), 1);
}

#[test]
fn leveled_tasks_merge_l0_with_what_overlaps() {
    let c = LeveledCompactionController::new(leveled());
    let mut s = state(CompactionOptions::Leveled(leveled()));
    load(&mut s, 1, MB, "a", "f");
    load(&mut s, 2, MB, "g", "m");
    load(&mut s, 3, MB, "n", "z");
    load(&mut s, 8, 10, "h", "i");
    load(&mut s, 9, 10, "k", "p");
    s.levels[2].1 = vec![1, 2, 3];
    s.l0_sstables = vec![9, 8];
    let r = ranks(&c, &s);
    let task = c.generate_compaction_task(&s, &r).unwrap();
    assert_eq!(task.upper_level, None);
    assert_eq!(task.upper_level_sst_ids, vec![9, 8]);
    assert_eq!(task.lower_level, 2);
    assert!(task.lower_level_sst_ids.is_empty());
    let (first, last) = LeveledCompactionController::find_key_range(&s, &[9, 8]);
    assert_eq!((first.key_ref(), last.key_ref()), (&b"h"[..], &b"p"[..]));
    assert_eq!(LeveledCompactionController::find_overlapping_ssts(&s, &[9, 8], 3), vec![2, 3]);
}

#[test]
fn leveled_tasks_take_the_level_with_the_highest_priority() {
    let c = LeveledCompactionController::new(leveled());
    let mut s = state(CompactionOptions::Leveled(leveled()));
    load(&mut s, 1, 50 * MB, "a", "m");
    load(&mut s, 2, 20 * MB, "c", "d");
    load(&mut s, 3, MB, "n", "z");
    s.levels[2].1 = vec![1];
    s.levels[1].1 = vec![2];
    s.levels[0].1 = vec![3];
    let r = ranks(&c, &s);
    // L1 is at twice its target, L2 at four times.
    assert_eq!(c.get_top_priority_level(&s, &r), Some(2));
    let task = c.generate_compaction_task(&s, &r).unwrap();
    assert_eq!((task.upper_level, task.lower_level), (Some(2), 3));
    assert_eq!(task.upper_level_sst_ids, vec![2]);
    assert_eq!(task.lower_level_sst_ids, vec![1]);
    assert!(task.is_lower_level_bottom_level);
    load(&mut s, 10, MB, "c", "m");
    load(&mut s, 11, MB, "a", "b");
    let (s, consumed) = c.apply_compaction_result(s, &task, &[10, 11], false);
    assert!(s.levels[1].1.is_empty());
    assert_eq!(s.levels[2].1, vec![11, 10]);
    assert_eq!(consumed, vec![2, 1]);
}

#[test]
fn no_level_above_its_target_means_no_task() {
    let c = LeveledCompactionController::new(leveled());
    let mut s = state(CompactionOptions::Leveled(leveled()));
    load(&mut s, 1, 50 * MB, "a", "m");
    s.levels[2].1 = vec![1];
    let r = ranks(&c, &s);
    assert!(c.generate_compaction_task(&s, &r).is_none());
}

#[test]
fn controllers_know_their_tasks() {
    let o = TieredCompactionOptions {
        num_tiers: 2,
        max_size_amplification_percent: 1,
        size_ratio: 1,
        min_merge_width: 2,
        max_merge_width: None,
    };
    let tiered = CompactionController::Tiered(TieredCompactionController::new(o));
    assert!(!tiered.flush_to_l0());
    assert!(CompactionController::NoCompaction.flush_to_l0());
    let mut s = state(CompactionOptions::Tiered(o));
    s.levels = vec![(1, vec![1]), (2, vec![2])];
    let task = tiered.generate_compaction_task(&s, &[]).unwrap();
    assert!(task.compact_to_bottom_level());
    assert!(tiered.accepts_task(&s, &task, &[3]));
    let full = CompactionTask::ForceFullCompaction { l0_sstables: vec![], l1_sstables: vec![] };
    assert!(full.compact_to_bottom_level());
    assert!(!tiered.accepts_task(&s, &full, &[3]));
    let (s, consumed) = tiered.apply_compaction_result(s, &task, &[3], true);
    assert_eq!(s.levels, vec![(1, vec![3])]);
    assert_eq!(consumed, vec![1, 2]);
}

#[test]
fn the_number_of_levels_follows_the_options() {
    let simple = CompactionOptions::Simple(SimpleLeveledCompactionOptions {
        size_ratio_percent: 1,
        level0_file_num_compaction_trigger: 1,
        max_levels: 4,
    });
    assert_eq!(
        state(simple).levels,
        vec![(1, vec![]), (2, vec![]), (3, vec![]), (4, vec![])]
    );
    assert_eq!(state(CompactionOptions::NoCompaction).levels, vec![(1, vec![])]);
    let o = LsmStorageOptions::default_for_week2_test(CompactionOptions::NoCompaction);
    assert_eq!((o.block_size, o.target_sst_size, o.num_memtable_limit), (4096, 1 << 20, 2));
}
