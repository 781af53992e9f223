use std::collections::HashMap;
use std::sync::Arc;

use mini_lsm::bound::Bound;
use mini_lsm::compact::{
    CompactionOptions, SimpleLeveledCompactionOptions, TieredCompactionOptions,
};
use mini_lsm::error::LsmError;
use mini_lsm::iterators::StorageIterator;
use mini_lsm::key::KeySlice;
use mini_lsm::lsm_storage::recovery::{Recovery, StoredFiles};
use mini_lsm::lsm_storage::{Action, CompactionFilter, LsmStorageInner, LsmStorageOptions};
use mini_lsm::manifest::ManifestRecord;

/// A stand-in for the directory of an engine.
struct Disk {
    records: Vec<ManifestRecord>,
    files: StoredFiles,
}

impl Disk {
    fn new() -> Self {
        Disk {
            records: Vec::new(),
            files: StoredFiles { ssts: HashMap::new(), wals: HashMap::new() },
        }
    }

    fn run(&mut self, actions: Vec<Action>) {
        for action in actions {
            match action {
                Action::AppendWal { id, record } => {
                    self.files.wals.get_mut(&id).unwrap().extend(record)
                }
                Action::CreateWal { id } => {
                    self.files.wals.insert(id, Vec::new());
                }
                Action::WriteManifest(record) => self.records.push(record),
                Action::WriteSst(sst) => {
                    self.files.ssts.insert(sst.sst_id(), sst.file.0.clone().unwrap());
                }
                Action::SyncWal { .. } | Action::SyncDir => {}
            }
        }
    }

    fn reopen(&self, options: LsmStorageOptions) -> Result<LsmStorageInner, LsmError> {
        LsmStorageInner::open(options, Some(Recovery { records: &self.records, files: &self.files }))
    }
}

fn options(compaction_options: CompactionOptions, enable_wal: bool) -> LsmStorageOptions {
    LsmStorageOptions {
        block_size: 128,
        target_sst_size: 512,
        num_memtable_limit: 2,
        compaction_options,
        enable_wal,
        serializable: false,
    }
}

fn simple() -> CompactionOptions {
    CompactionOptions::Simple(SimpleLeveledCompactionOptions {
        size_ratio_percent: 200,
        level0_file_num_compaction_trigger: 2,
        max_levels: 3,
    })
}

fn tiered() -> CompactionOptions {
    CompactionOptions::Tiered(TieredCompactionOptions {
        num_tiers: 3,
        max_size_amplification_percent: 200,
        size_ratio: 1,
        min_merge_width: 2,
        max_merge_width: None,
    })
}

fn scan(e: &mut LsmStorageInner, lower: Bound<&[u8]>, upper: Bound<&[u8]>) -> Vec<(String, String)> {
    let (mut iter, _) = e.scan(lower, upper).unwrap();
    let mut out = Vec::new();
    while iter.is_valid() {
        out.push((
            String::from_utf8(iter.key().to_vec()).unwrap(),
            String::from_utf8(iter.value().to_vec()).unwrap(),
        ));
        iter.next().unwrap();
    }
    out
}

fn all(e: &mut LsmStorageInner) -> Vec<(String, String)> {
    scan(e, Bound::Unbounded, Bound::Unbounded)
}

fn pairs(list: &[(&str, &str)]) -> Vec<(String, String)> {
    list.iter().map(|(k, v)| (k.to_string(), v.to_string())).collect()
}

#[test]
fn a_new_engine_is_empty() {
    let mut e = LsmStorageInner::open(LsmStorageOptions::default_for_week1_day6_test(), None).unwrap();
    assert_eq!(e.mvcc().latest_commit_ts(), 1);
    assert_eq!(e.next_sst_id, 1);
    assert!(all(&mut e).is_empty());
    assert_eq!(e.get(b"a").unwrap(), None);
    assert_eq!(e.get(b"").unwrap(), None);
    assert_eq!(e.state.levels.len(), 1);
}

#[test]
fn reads_find_the_newest_version_wherever_it_is() {
    let mut e = LsmStorageInner::open(options(CompactionOptions::NoCompaction, false), None).unwrap();
    e.put(b"a", b"1");
    e.put(b"b", b"1");
    e.force_flush();
    e.put(b"b", b"2");
    e.force_freeze_memtable();
    e.put(b"c", b"3");
    e.delete(b"a");
    assert_eq!(e.state.l0_sstables.len(), 1);
    assert_eq!(e.state.imm_memtables.len(), 1);
    assert_eq!(e.get(b"a").unwrap(), None);
    assert_eq!(e.get(b"b").unwrap(), Some(b"2".to_vec()));
    assert_eq!(all(&mut e), pairs(&[("b", "2"), ("c", "3")]));
    assert_eq!(
        LsmStorageInner::get_from_sstables(&e.state, b"b").unwrap(),
        Some(b"1".to_vec())
    );
    assert_eq!(LsmStorageInner::get_from_sstables(&e.state, b"x").unwrap(), None);
}

#[test]
fn a_missing_table_is_reported() {
    let mut e = LsmStorageInner::open(options(CompactionOptions::NoCompaction, false), None).unwrap();
    e.put(b"a", b"1");
    e.force_flush();
    assert_eq!(
        LsmStorageInner::get_in_level(&e.state, b"a", &[77]).err(),
        Some(LsmError::SstableNotFound(77))
    );
    assert_eq!(
        LsmStorageInner::collect_sstables(&[0, 78], &e.state).err(),
        Some(LsmError::SstableNotFound(78))
    );
}

#[test]
fn scans_respect_their_ends() {
    let mut e = LsmStorageInner::open(options(CompactionOptions::NoCompaction, false), None).unwrap();
    for (i, k) in ["a", "b", "c", "d", "e"].iter().enumerate() {
        e.put(k.as_bytes(), k.as_bytes());
        if i % 2 == 0 {
            e.force_flush();
        }
    }
    let keys = |v: Vec<(String, String)>| v.into_iter().map(|p| p.0).collect::<Vec<_>>().join("");
    assert_eq!(keys(scan(&mut e, Bound::Included(b"b"), Bound::Included(b"d"))), "bcd");
    assert_eq!(keys(scan(&mut e, Bound::Excluded(b"b"), Bound::Excluded(b"d"))), "c");
    assert_eq!(keys(scan(&mut e, Bound::Excluded(b"a"), Bound::Unbounded)), "bcde");
    assert_eq!(keys(scan(&mut e, Bound::Unbounded, Bound::Excluded(b"a"))), "");
    assert_eq!(keys(scan(&mut e, Bound::Included(b"d"), Bound::Included(b"b"))), "");
}

#[test]
fn a_large_memtable_is_frozen() {
    let mut e = LsmStorageInner::open(options(CompactionOptions::NoCompaction, true), None).unwrap();
    let mut disk = Disk::new();
    let mut frozen = false;
    for i in 0..60 {
        let actions = e.put(format!("k{:02}", i).as_bytes(), b"0123456789");
        for a in &actions {
            if let Action::CreateWal { id } = a {
                assert_eq!(*id, e.state.memtable.id());
                frozen = true;
            }
        }
        disk.run(actions);
    }
    assert!(frozen);
    assert!(!e.state.imm_memtables.is_empty());
    assert!(matches!(disk.records[0], ManifestRecord::NewMemtable(1)));
    assert_eq!(all(&mut e).len(), 60);
}

#[test]
fn freezing_creates_a_log_and_flushing_records_a_table() {
    let mut e = LsmStorageInner::open(options(CompactionOptions::NoCompaction, true), None).unwrap();
    // The first mem-table has no log.
    assert!(e.put(b"a", b"1").is_empty());
    let actions = e.force_freeze_memtable();
    assert!(matches!(
        actions[..],
        [Action::CreateWal { id: 1 }, Action::WriteManifest(ManifestRecord::NewMemtable(1))]
    ));
    let actions = e.put(b"b", b"2");
    assert!(matches!(actions[..], [Action::AppendWal { id: 1, .. }]));
    let actions = e.force_freeze_memtable();
    assert!(matches!(
        actions[..],
        [
            Action::SyncWal { id: 1 },
            Action::CreateWal { id: 2 },
            Action::WriteManifest(ManifestRecord::NewMemtable(2)),
        ]
    ));
    assert_eq!(e.get_earliest_imm_memtable(), Some(0));
    let actions = e.force_flush_next_imm_memtable();
    assert!(matches!(
        actions[..],
        [Action::WriteSst(_), Action::SyncDir, Action::WriteManifest(ManifestRecord::Flush(0))]
    ));
    assert_eq!(e.state.l0_sstables, vec![0]);
    e.force_flush_next_imm_memtable();
    assert!(e.force_flush_next_imm_memtable().is_empty());
    assert_eq!(e.state.l0_sstables, vec![1, 0]);
    assert_eq!(all(&mut e), pairs(&[("a", "1"), ("b", "2")]));
}

#[test]
fn flushes_are_triggered_by_the_number_of_memtables() {
    let mut e = LsmStorageInner::open(options(CompactionOptions::NoCompaction, false), None).unwrap();
    e.put(b"a", b"1");
    e.force_freeze_memtable();
    assert!(e.trigger_flush().is_empty());
    e.force_freeze_memtable();
    assert_eq!(e.trigger_flush().len(), 3);
    assert_eq!(e.state.imm_memtables.len(), 1);
}

#[test]
fn what_is_flushed_is_recovered() {
    let opts = options(CompactionOptions::NoCompaction, false);
    let mut e = LsmStorageInner::open(opts, None).unwrap();
    let mut disk = Disk::new();
    disk.run(e.put(b"a", b"1"));
    disk.run(e.put(b"b", b"1"));
    disk.run(e.force_flush());
    disk.run(e.put(b"b", b"2"));
    disk.run(e.delete(b"a"));
    disk.run(e.force_flush());
    let ts = e.mvcc().latest_commit_ts();
    let mut again = disk.reopen(opts).unwrap();
    assert_eq!(all(&mut again), pairs(&[("b", "2")]));
    assert_eq!(again.mvcc().latest_commit_ts(), ts + 1);
    assert_eq!(again.state.l0_sstables, e.state.l0_sstables);
    // Tables 0 and 1 are there, so the new mem-table has id 2.
    assert_eq!(again.state.memtable.id(), 2);
    assert_eq!(again.next_sst_id, 3);
    assert_eq!(again.get_with_ts(2, b"a").unwrap(), Some(b"1".to_vec()));
}

#[test]
fn what_is_logged_is_recovered() {
    let opts = options(CompactionOptions::NoCompaction, true);
    let mut e = LsmStorageInner::open(opts, None).unwrap();
    let mut disk = Disk::new();
    disk.run(e.force_freeze_memtable());
    disk.run(e.put(b"a", b"1"));
    disk.run(e.put(b"b", b"2"));
    disk.run(e.force_freeze_memtable());
    disk.run(e.delete(b"a"));
    let mut again = disk.reopen(opts).unwrap();
    assert_eq!(again.state.imm_memtables.len(), 2);
    assert_eq!(all(&mut again), pairs(&[("b", "2")]));
    assert_eq!(again.mvcc().latest_commit_ts(), e.mvcc().latest_commit_ts() + 1);
    // A mem-table that has been flushed is not brought back from its log.
    disk.run(e.force_flush_next_imm_memtable());
    disk.run(e.force_flush_next_imm_memtable());
    let mut again = disk.reopen(opts).unwrap();
    assert_eq!(again.state.l0_sstables, vec![1, 0]);
    assert_eq!(again.state.imm_memtables.len(), 1);
    assert_eq!(again.state.imm_memtables[0].id(), 2);
    assert_eq!(again.state.memtable.id(), 3);
    assert_eq!(again.next_sst_id, 4);
    assert!(again.ids_sound());
    assert_eq!(all(&mut again), pairs(&[("b", "2")]));
}

#[test]
fn a_restart_can_be_followed_by_another() {
    for opts in [options(CompactionOptions::NoCompaction, true), options(tiered(), true)] {
        let mut disk = Disk::new();
        let mut e = LsmStorageInner::open(opts, None).unwrap();
        for life in 0..4 {
            // The first mem-table of every life has no log.
            disk.run(e.force_freeze_memtable());
            disk.run(e.put(format!("k{}", life).as_bytes(), b"1"));
            disk.run(e.put(b"k", format!("{}", life).as_bytes()));
            if life % 2 == 0 {
                while e.get_earliest_imm_memtable().is_some() {
                    disk.run(e.force_flush_next_imm_memtable());
                }
            }
            let before = all(&mut e);
            assert_eq!(before.len(), life + 2);
            e = disk.reopen(opts).unwrap();
            assert!(e.ids_sound());
            assert_eq!(all(&mut e), before);
        }
        assert_eq!(e.get(b"k").unwrap(), Some(b"3".to_vec()));
    }
}

#[test]
fn tiers_are_recovered_as_tiers() {
    let opts = options(tiered(), false);
    let mut disk = Disk::new();
    let mut e = LsmStorageInner::open(opts, None).unwrap();
    disk.run(e.put(b"a", b"1"));
    disk.run(e.force_flush());
    disk.run(e.put(b"a", b"2"));
    disk.run(e.force_flush());
    let again = disk.reopen(opts).unwrap();
    assert!(again.state.l0_sstables.is_empty());
    assert_eq!(again.state.levels, vec![(1, vec![1]), (2, vec![0])]);
    assert_eq!(again.state.levels, e.state.levels);
    assert_eq!(again.get(b"a").unwrap(), Some(b"2".to_vec()));
}

#[test]
fn a_restart_shows_what_compactions_have_left() {
    for opts in [
        options(CompactionOptions::NoCompaction, false),
        options(simple(), false),
        options(tiered(), false),
    ] {
        let mut disk = Disk::new();
        let mut e = LsmStorageInner::open(opts, None).unwrap();
        for round in 0..5 {
            for i in 0..6 {
                disk.run(e.put(format!("k{}", i).as_bytes(), format!("{}", round).as_bytes()));
            }
            disk.run(e.delete(format!("k{}", round).as_bytes()));
            disk.run(e.force_flush());
            let actions = match opts.compaction_options {
                CompactionOptions::NoCompaction => e.force_full_compaction(),
                _ => e.trigger_compaction(),
            };
            disk.run(actions.unwrap());
        }
        let before = all(&mut e);
        assert_eq!(before.len(), 5);
        let mut again = disk.reopen(opts).unwrap();
        assert_eq!(all(&mut again), before);
        assert_eq!(again.get(b"k4").unwrap(), None);
    }
}

#[test]
fn closing_without_a_log_flushes_everything() {
    let opts = options(CompactionOptions::NoCompaction, false);
    let mut disk = Disk::new();
    let mut e = LsmStorageInner::open(opts, None).unwrap();
    disk.run(e.put(b"a", b"1"));
    disk.run(e.force_freeze_memtable());
    disk.run(e.put(b"b", b"2"));
    disk.run(e.close());
    assert!(e.state.imm_memtables.is_empty());
    assert!(e.state.memtable.is_empty());
    assert_eq!(e.state.l0_sstables, vec![1, 0]);
    let mut again = disk.reopen(opts).unwrap();
    assert_eq!(all(&mut again), pairs(&[("a", "1"), ("b", "2")]));
}

#[test]
fn closing_with_a_log_changes_nothing() {
    let mut e = LsmStorageInner::open(options(CompactionOptions::NoCompaction, true), None).unwrap();
    e.put(b"a", b"1");
    e.force_freeze_memtable();
    assert!(e.close().is_empty());
    assert_eq!(e.state.imm_memtables.len(), 1);
    assert!(e.state.l0_sstables.is_empty());
}

#[test]
fn an_id_with_two_meanings_is_not_recovered() {
    let opts = options(tiered(), true);
    let mut disk = Disk::new();
    let mut e = LsmStorageInner::open(opts, None).unwrap();
    disk.run(e.put(b"a", b"1"));
    disk.run(e.force_flush());
    disk.records.push(ManifestRecord::Flush(0));
    assert_eq!(disk.reopen(opts).err(), Some(LsmError::Malformed));
    disk.records = vec![ManifestRecord::NewMemtable(4), ManifestRecord::NewMemtable(4)];
    disk.files.wals.insert(4, Vec::new());
    assert_eq!(disk.reopen(opts).err(), Some(LsmError::Malformed));
    // No id is left behind the last one.
    disk.records = vec![ManifestRecord::NewMemtable(usize::MAX)];
    disk.files.wals.insert(usize::MAX, Vec::new());
    assert_eq!(disk.reopen(opts).err(), Some(LsmError::Malformed));
    disk.records = vec![ManifestRecord::NewMemtable(usize::MAX - 1)];
    disk.files.wals.insert(usize::MAX - 1, Vec::new());
    assert_eq!(disk.reopen(opts).unwrap().next_sst_id, usize::MAX);
    // With table 0 there, the new mem-table takes one more id.
    disk.records.push(ManifestRecord::Flush(0));
    assert_eq!(disk.reopen(opts).err(), Some(LsmError::Malformed));
}

#[test]
fn an_empty_manifest_gives_a_new_engine() {
    let opts = LsmStorageOptions::default_for_week1_test();
    let mut e = Disk::new().reopen(opts).unwrap();
    assert_eq!(e.state.memtable.id(), 0);
    assert!(e.state.imm_memtables.is_empty());
    assert!(e.state.l0_sstables.is_empty());
    assert_eq!(e.state.levels, vec![(1, Vec::new())]);
    assert!(e.state.sstables.is_empty());
    assert_eq!(e.next_sst_id(), 1);
}

#[test]
fn id_zero_is_taken_where_it_is_free() {
    let opts = options(CompactionOptions::NoCompaction, true);
    let mut disk = Disk::new();
    let mut e = LsmStorageInner::open(opts, None).unwrap();
    disk.run(e.force_freeze_memtable());
    disk.run(e.put(b"a", b"1"));
    // Mem-table 0 was empty and had no log, so only mem-table 1 comes back.
    let mut again = disk.reopen(opts).unwrap();
    assert_eq!(again.state.imm_memtables[0].id(), 1);
    assert_eq!(again.state.memtable.id(), 0);
    assert_eq!(again.next_sst_id, 2);
    disk.run(again.put(b"b", b"2"));
    disk.run(again.force_flush());
    disk.run(again.force_flush());
    assert_eq!(again.state.l0_sstables, vec![0, 1]);
    let mut again = disk.reopen(opts).unwrap();
    assert_eq!(again.state.memtable.id(), 3);
    assert_eq!(all(&mut again), pairs(&[("a", "1"), ("b", "2")]));
}

#[test]
fn a_scan_of_all_versions_skips_nothing() {
    let mut e = LsmStorageInner::open(options(CompactionOptions::NoCompaction, false), None).unwrap();
    e.put(b"a", b"1");
    e.put(b"b", b"1");
    e.force_flush();
    e.delete(b"a");
    let mut iter = e.create_lsm_iter(Bound::Unbounded, Bound::Unbounded).unwrap();
    let mut found = Vec::new();
    while iter.is_valid() {
        found.push((iter.key().key_ref().to_vec(), iter.key().ts(), iter.value().to_vec()));
        iter.next().unwrap();
    }
    assert_eq!(
        found,
        vec![
            (b"a".to_vec(), 4, Vec::new()),
            (b"a".to_vec(), 2, b"1".to_vec()),
            (b"b".to_vec(), 3, b"1".to_vec()),
        ]
    );
}

#[test]
fn keys_without_a_fingerprint_are_found() {
    let mut e = LsmStorageInner::open(options(CompactionOptions::NoCompaction, false), None).unwrap();
    e.put(&[255; 5], b"1");
    e.put(b"a", b"2");
    e.force_flush();
    assert_eq!(e.get(&[255; 5]).unwrap(), Some(b"1".to_vec()));
    assert_eq!(e.get(b"a").unwrap(), Some(b"2".to_vec()));
    assert_eq!(e.get(&[255; 6]).unwrap(), None);
}

#[test]
fn recovery_reports_what_is_missing_or_broken() {
    let opts = options(CompactionOptions::NoCompaction, true);
    let mut disk = Disk::new();
    disk.records.push(ManifestRecord::Flush(3));
    assert_eq!(disk.reopen(opts).err(), Some(LsmError::SstableNotFound(3)));
    disk.files.ssts.insert(3, vec![0; 4]);
    assert_eq!(disk.reopen(opts).err(), Some(LsmError::Malformed));
    disk.records = vec![ManifestRecord::NewMemtable(4)];
    assert_eq!(disk.reopen(opts).err(), Some(LsmError::WalNotFound(4)));
    disk.files.wals.insert(4, vec![9]);
    assert_eq!(disk.reopen(opts).err(), Some(LsmError::UnexpectedEnd));
}

#[test]
fn a_table_with_broken_blocks_is_not_loaded() {
    let opts = options(CompactionOptions::NoCompaction, false);
    let mut e = LsmStorageInner::open(opts, None).unwrap();
    let mut disk = Disk::new();
    disk.run(e.put(b"a", b"1"));
    disk.run(e.force_flush());
    disk.files.ssts.get_mut(&0).unwrap()[0] = 200;
    assert_eq!(disk.reopen(opts).err(), Some(LsmError::Malformed));
}

#[test]
fn a_full_compaction_merges_l0_and_l1() {
    let mut e = LsmStorageInner::open(options(CompactionOptions::NoCompaction, false), None).unwrap();
    for i in 0..30 {
        e.put(format!("k{:02}", i).as_bytes(), format!("{:020}", i).as_bytes());
        if i % 7 == 0 {
            e.force_flush();
        }
    }
    e.force_flush();
    while e.get_earliest_imm_memtable().is_some() {
        e.force_flush_next_imm_memtable();
    }
    let before = all(&mut e);
    let first_id = e.next_sst_id;
    let actions = e.force_full_compaction().unwrap();
    assert!(e.state.l0_sstables.is_empty());
    assert_eq!(e.state.levels.len(), 1);
    assert_eq!(e.state.levels[0].0, 1);
    assert!(e.state.levels[0].1.len() > 1);
    assert_eq!(e.state.levels[0].1[0], first_id);
    assert_eq!(actions.len(), e.state.levels[0].1.len());
    assert!(actions.iter().all(|a| matches!(a, Action::WriteSst(_))));
    assert_eq!(e.state.sstables.len(), actions.len());
    assert_eq!(all(&mut e), before);
    assert_eq!(e.get(b"k11").unwrap(), Some(b"00000000000000000011".to_vec()));
}

#[test]
fn a_bottom_compaction_keeps_deleted_keys_deleted() {
    let mut e = LsmStorageInner::open(options(CompactionOptions::NoCompaction, false), None).unwrap();
    e.put(b"a", b"1");
    e.force_flush();
    e.delete(b"a");
    e.put(b"b", b"1");
    e.force_flush();
    assert_eq!(e.get(b"a").unwrap(), None);
    e.delete(b"c");
    e.force_flush();
    assert_eq!(e.get(b"a").unwrap(), None);
    e.force_full_compaction().unwrap();
    assert_eq!(e.get(b"a").unwrap(), None);
    assert_eq!(e.get(b"b").unwrap(), Some(b"1".to_vec()));
    assert_eq!(e.get_with_ts(2, b"a").unwrap(), Some(b"1".to_vec()));
    // The tombstone of a key that has no older version is gone, the other one is not.
    let mut iter = e.create_lsm_iter(Bound::Unbounded, Bound::Unbounded).unwrap();
    let mut keys = Vec::new();
    while iter.is_valid() {
        keys.extend_from_slice(iter.key().key_ref());
        iter.next().unwrap();
    }
    assert_eq!(keys, b"aab");
}

#[test]
fn a_full_compaction_above_other_levels_keeps_tombstones() {
    let mut e = LsmStorageInner::open(options(simple(), false), None).unwrap();
    for k in [b"a", b"b"] {
        e.put(k, b"1");
        e.force_flush();
    }
    for _ in 0..3 {
        e.trigger_compaction().unwrap();
    }
    assert_eq!(e.state.levels[2].1.len(), 1);
    e.delete(b"a");
    e.force_flush();
    e.force_full_compaction().unwrap();
    assert_eq!(e.state.levels[0].1.len(), 1);
    assert_eq!(e.get(b"a").unwrap(), None);
    assert_eq!(all(&mut e), pairs(&[("b", "1")]));
}

#[test]
fn simple_compaction_keeps_what_is_read() {
    let mut e = LsmStorageInner::open(options(simple(), false), None).unwrap();
    for round in 0..6 {
        for i in 0..10 {
            e.put(format!("k{:02}", i).as_bytes(), format!("{}-{}", round, i).as_bytes());
        }
        e.force_flush();
        let before = all(&mut e);
        e.trigger_compaction().unwrap();
        assert_eq!(all(&mut e), before);
        assert_eq!(before.len(), 10);
        assert_eq!(before[3].1, format!("{}-3", round));
    }
    assert!(e.state.levels.iter().any(|l| !l.1.is_empty()));
    assert!(e.state.l0_sstables.len() < 2);
    assert!(e.state.lists_sound());
}

#[test]
fn simple_compaction_moves_levels_down() {
    let mut e = LsmStorageInner::open(options(simple(), false), None).unwrap();
    for k in [b"a", b"b"] {
        e.put(k, b"1");
        e.force_flush();
    }
    e.trigger_compaction().unwrap();
    assert!(e.state.l0_sstables.is_empty());
    assert_eq!(e.state.levels[0].1.len(), 1);
    // L2 has too few tables for L1.
    e.trigger_compaction().unwrap();
    assert!(e.state.levels[0].1.is_empty());
    assert_eq!(e.state.levels[1].1.len(), 1);
    e.trigger_compaction().unwrap();
    assert_eq!(e.state.levels[2].1.len(), 1);
    assert!(e.trigger_compaction().unwrap().is_empty());
    assert_eq!(all(&mut e), pairs(&[("a", "1"), ("b", "1")]));
}

#[test]
fn tiered_compaction_keeps_what_is_read() {
    let mut e = LsmStorageInner::open(options(tiered(), false), None).unwrap();
    for round in 0..7 {
        for i in 0..8 {
            e.put(format!("k{:02}", i).as_bytes(), format!("{}-{}", round, i).as_bytes());
        }
        e.force_flush();
        assert!(e.state.l0_sstables.is_empty());
        let before = all(&mut e);
        e.trigger_compaction().unwrap();
        assert_eq!(all(&mut e), before);
        for (i, level) in e.state.levels.iter().enumerate() {
            assert_eq!(level.0, i + 1);
        }
    }
    assert!(e.state.levels.len() <= 3);
    assert!(e.state.lists_sound());
}

#[test]
fn compaction_filters_are_collected() {
    let mut e = LsmStorageInner::open(LsmStorageOptions::default_for_week1_test(), None).unwrap();
    e.add_compaction_filter(CompactionFilter::Prefix(b"table/".to_vec()));
    assert_eq!(e.compaction_filters.len(), 1);
}

#[test]
fn pairs_that_do_not_fit_are_told_apart() {
    assert!(LsmStorageInner::accepts(b"k", b""));
    assert!(!LsmStorageInner::accepts(b"", b"v"));
    assert!(LsmStorageInner::accepts(&[1; 65523], &[1; 65535]));
    assert!(!LsmStorageInner::accepts(&[1; 65524], b""));
    assert!(!LsmStorageInner::accepts(b"k", &[1; 65536]));
}

#[test]
fn large_entries_survive_a_flush() {
    let mut e = LsmStorageInner::open(options(CompactionOptions::NoCompaction, false), None).unwrap();
    e.put(&[b'k'; 65523], &[b'v'; 65535]);
    e.put(b"z", b"1");
    e.force_flush();
    while e.get_earliest_imm_memtable().is_some() {
        e.force_flush_next_imm_memtable();
    }
    assert_eq!(e.get(&[b'k'; 65523]).unwrap(), Some(vec![b'v'; 65535]));
    assert_eq!(e.get(b"z").unwrap(), Some(b"1".to_vec()));
}

#[test]
fn seeking_a_table_to_an_excluded_end_skips_all_its_versions() {
    let mut e = LsmStorageInner::open(options(CompactionOptions::NoCompaction, false), None).unwrap();
    e.put(b"a", b"1");
    e.put(b"a", b"2");
    e.put(b"b", b"1");
    e.force_flush();
    let table = Arc::clone(&e.state.sstables[&0]);
    let mut iter = mini_lsm::table::SsTableIterator::create_and_seek_to_first(table).unwrap();
    LsmStorageInner::sst_iter_seek_to_key(
        Bound::Excluded(KeySlice::from_slice(b"a", u64::MAX)),
        &mut iter,
    )
    .unwrap();
    assert_eq!(iter.key().key_ref(), b"b");
}

#[test]
fn a_compaction_without_ids_changes_nothing() {
    for options in [options(CompactionOptions::NoCompaction, false), options(simple(), false)] {
        let mut e = LsmStorageInner::open(options, None).unwrap();
        e.put(b"a", b"1");
        e.force_flush();
        e.put(b"a", b"2");
        e.force_flush();
        e.next_sst_id = usize::MAX - 2;
        let result = match options.compaction_options {
            CompactionOptions::Simple(_) => e.trigger_compaction(),
            _ => e.force_full_compaction(),
        };
        assert_eq!(result.err(), Some(LsmError::OutOfIds));
        assert_eq!(e.next_sst_id, usize::MAX - 2);
        assert_eq!(e.state.l0_sstables.len(), 2);
        assert_eq!(e.get(b"a").unwrap(), Some(b"2".to_vec()));
        e.next_sst_id = usize::MAX - 3;
        let result = match options.compaction_options {
            CompactionOptions::Simple(_) => e.trigger_compaction(),
            _ => e.force_full_compaction(),
        };
        assert_eq!(result.unwrap().len(), 1);
        assert_eq!(e.state.levels[0].1, vec![usize::MAX - 3]);
        assert_eq!(e.get(b"a").unwrap(), Some(b"2".to_vec()));
    }
}

#[test]
fn ids_that_stand_for_two_things_are_noticed() {
    let opts = options(CompactionOptions::NoCompaction, false);
    let mut e = LsmStorageInner::open(opts, None).unwrap();
    let mut disk = Disk::new();
    disk.run(e.put(b"a", b"1"));
    disk.run(e.force_flush());
    assert!(e.sst_ids_sound());
    assert!(e.ids_sound());
    let mut again = disk.reopen(opts).unwrap();
    assert!(again.sst_ids_sound());
    assert!(again.ids_sound());
    again.next_sst_id = 1;
    assert!(again.sst_ids_sound());
    assert!(!again.ids_sound());
    again.next_sst_id = 0;
    assert!(!again.sst_ids_sound());
    e.state.levels[0].1.push(0);
    assert!(!e.sst_ids_sound());
}
