//! Watching of configuration files.
//!
//! The types are those of a watcher; watching itself is not part of this build,
//! and a watcher that is run says so.

use vstd::prelude::*;
use crate::ir::Patch;
use crate::reload::{HotReloadStrategy, StrategyView};

verus! {

/// A change to a file.
#[derive(Debug, Clone)]
pub struct FileChangeEvent {
    /// The file.
    pub path: String,
    /// What happened to it.
    pub kind: FileChangeKind,
}

/// What happened to a file.
#[derive(Debug, Clone, Copy, PartialEq, Eq, Structural)]
pub enum FileChangeKind {
    /// It was modified or created.
    Modified,
    /// It was removed.
    Removed,
}

/// What to watch, and what to do on a change.
#[derive(Debug, Clone)]
pub struct WatchConfig {
    /// The directory to watch.
    pub watch_dir: String,
    /// Where the configuration is written.
    pub output_path: String,
    /// How the core is told.
    pub hot_reload: HotReloadStrategy,
    /// How long changes are gathered, in milliseconds.
    pub debounce_ms: u64,
    /// Whether to compile at the start.
    pub compile_on_start: bool,
    /// The directories that are not watched.
    pub skip_dirs: Vec<String>,
}

impl Default for WatchConfig {
    fn default() -> (r: WatchConfig)
        ensures
            r.watch_dir@ == "."@,
            r.output_path@ == "./config.yaml"@,
            r.hot_reload@ == StrategyView::Off,
            r.debounce_ms == 300,
            r.compile_on_start,
            crate::order::texts(r.skip_dirs@) == seq!["node_modules"@, "target"@],
    {
        let mut skip_dirs: Vec<String> = Vec::new();
        skip_dirs.push("node_modules".to_owned());
        skip_dirs.push("target".to_owned());
        assert(crate::order::texts(skip_dirs@) =~= seq!["node_modules"@, "target"@]);
        WatchConfig {
            watch_dir: ".".to_owned(),
            output_path: "./config.yaml".to_owned(),
            hot_reload: HotReloadStrategy::Off,
            debounce_ms: 300,
            compile_on_start: true,
            skip_dirs,
        }
    }
}

/// What a compilation did.
#[derive(Debug, Clone)]
pub struct CompileStats {
    /// The number of patches.
    pub patch_count: usize,
    /// How long it took, in microseconds.
    pub duration_us: u64,
    /// The number of bytes that were written.
    pub output_bytes: usize,
    /// Whether they were written.
    pub write_success: bool,
    /// What came of telling the core.
    pub reload_detail: Option<String>,
}

/// What is done on changes.
pub trait WatchCallback: Send + 'static {
    /// What is done on one change.
    fn on_change(&mut self, event: &FileChangeEvent) -> Result<CompileStats, String>;

    /// What is done on several changes.
    fn on_batch_change(&mut self, events: &[FileChangeEvent]) -> Result<CompileStats, String>;
}

/// A watcher of files.
#[derive(Debug)]
pub struct FileWatcher {
    /// What to watch.
    pub config: WatchConfig,
}

impl FileWatcher {
    /// A watcher.
    pub fn new(config: WatchConfig) -> (r: Result<FileWatcher, String>)
        ensures
            r == Ok::<FileWatcher, String>(FileWatcher { config }),
    {
        Ok(FileWatcher { config })
    }

    /// Says that watching is not part of this build.
    pub fn run<F>(&self, _parse_fn: F) -> (r: Result<(), String>) where
        F: Fn(&str, Option<String>) -> Result<Vec<Patch>, String>,

        ensures
            r matches Err(m) && m@ == "watcher feature is not enabled"@,
    {
        Err("watcher feature is not enabled".to_owned())
    }

    /// Says that watching is not part of this build.
    pub fn run_with_callback(&self, _callback: Box<dyn WatchCallback>) -> (r: Result<(), String>)
        ensures
            r matches Err(m) && m@ == "watcher feature is not enabled"@,
    {
        Err("watcher feature is not enabled".to_owned())
    }
}

} // verus!
