//! Cached values in files.

use clash_prism_core::cache::{compile_cache_key, hex_text, is_expired, DiskCache};
use clash_prism_core::output::StepOutcome;
use clash_prism_core::store::{cached_file_of, is_old_cache_file, CacheStep};

const K: &str = "8254c329a92850f6d539dd376f4816ee2764517da5e0235514af433164480d7a";

#[test]
fn files_are_named_by_digests() {
    assert_eq!(
        compile_cache_key(b"abc"),
        "ba7816bf8f01cfea414140de5dae2223b00361a396177a9cb410ff61f20015ad"
    );
    assert_eq!(
        compile_cache_key(b""),
        "e3b0c44298fc1c149afbf4c8996fb92427ae41e4649b934ca495991b7852b855"
    );
    assert_eq!(hex_text(&[0, 9, 10, 255]), "00090aff");
    let w = DiskCache::new().set("dir/", "k");
    assert_eq!(w.target_path, format!("dir/{}.cache", K));
    assert_eq!(w.temp_path, format!("dir/{}.tmp", K));
    assert_eq!(cached_file_of(&format!("{}.tmp", K)), Some(format!("{}.cache", K)));
}

#[test]
fn a_value_is_cached_step_by_step() {
    let mut w = DiskCache::new().set("", "k");
    let mut steps = vec![w.step];
    while w.step != CacheStep::Done {
        w.advance(StepOutcome::Performed).unwrap();
        steps.push(w.step);
    }
    assert_eq!(
        steps,
        vec![
            CacheStep::Create,
            CacheStep::Write,
            CacheStep::Sync,
            CacheStep::Rename,
            CacheStep::Done,
        ]
    );
    w.advance(StepOutcome::Failed("late".to_string())).unwrap();
    assert_eq!(w.step, CacheStep::Done);
}

#[test]
fn another_file_system_needs_a_copy() {
    let mut w = DiskCache::new().set("", "k");
    for _ in 0..3 {
        w.advance(StepOutcome::Performed).unwrap();
    }
    w.advance(StepOutcome::CrossDevice("EXDEV".to_string())).unwrap();
    assert_eq!(w.step, CacheStep::Copy);
    w.advance(StepOutcome::Performed).unwrap();
    assert_eq!(w.step, CacheStep::DropTemp);
    w.advance(StepOutcome::Failed("busy".to_string())).unwrap();
    assert_eq!(w.step, CacheStep::Done);
}

fn fault_after(n: usize) -> String {
    let mut w = DiskCache::new().set("", "k");
    for _ in 0..n {
        w.advance(StepOutcome::Performed).unwrap();
    }
    w.advance(StepOutcome::Failed("no".to_string())).unwrap_err()
}

#[test]
fn faults_of_single_steps() {
    assert_eq!(fault_after(0), "创建临时文件失败: no");
    assert_eq!(fault_after(1), "写入临时文件失败: no");
    assert_eq!(fault_after(2), "sync_all 失败: no");
}

#[test]
fn a_file_that_cannot_be_replaced_is_discarded() {
    let mut w = DiskCache::new().set("", "k");
    for _ in 0..3 {
        w.advance(StepOutcome::Performed).unwrap();
    }
    w.advance(StepOutcome::Failed("no".to_string())).unwrap();
    assert_eq!(w.step, CacheStep::Discard);
    assert_eq!(w.advance(StepOutcome::Performed).unwrap_err(), "原子重命名失败: no");
    let mut c = DiskCache::new().set("d/", "k");
    for _ in 0..3 {
        c.advance(StepOutcome::Performed).unwrap();
    }
    c.advance(StepOutcome::CrossDevice("x".to_string())).unwrap();
    c.advance(StepOutcome::Failed("full".to_string())).unwrap();
    assert_eq!(c.step, CacheStep::Discard);
    assert_eq!(
        c.advance(StepOutcome::Failed("gone".to_string())).unwrap_err(),
        format!("跨文件系统复制失败 (d/{}.tmp → d/{}.cache): full", K, K)
    );
}

#[test]
fn old_files_and_files_left_behind() {
    assert!(is_old_cache_file("a.cache", 10, 100, 50));
    assert!(!is_old_cache_file("a.cache", 50, 100, 50));
    assert!(!is_old_cache_file("a.cache", 10, 100, 1000));
    assert!(!is_old_cache_file("a.tmp", 10, 100, 50));
    assert!(!is_old_cache_file(".cache", 10, 100, 50));
    assert!(is_expired(49, 100, 50));
    assert!(!is_expired(50, 100, 50));
    assert_eq!(cached_file_of("a.b.tmp"), Some("a.b.cache".to_string()));
    assert_eq!(cached_file_of(".tmp"), None);
    assert_eq!(cached_file_of("a.cache"), None);
}

#[test]
fn every_tenth_write_tidies_up() {
    let mut cache = DiskCache::new();
    let due: Vec<bool> = (0..20).map(|_| cache.note_write()).collect();
    let expected: Vec<bool> = (1..21).map(|n| n % 10 == 0).collect();
    assert_eq!(due, expected);
    cache.write_count = u64::MAX;
    assert!(cache.note_write());
    assert_eq!(cache.write_count, 0);
}
