use mhws_tex_decompressor::metadata::{PakMetadata, METADATA_KEY, METADATA_VERSION};
use mhws_tex_decompressor::pipeline::{
    entry_action, is_target_path, select_entries, writer_capacity, EntryAction, RewriteFailure, RewriteProgress,
    RewriteStats,
};

#[test]
fn selection_depends_on_mode() {
    let targets = vec![true, false, true, false];
    assert_eq!(select_entries(&targets, false), vec![0, 2]);
    assert_eq!(select_entries(&targets, true), vec![0, 1, 2, 3]);
    assert_eq!(select_entries(&vec![], false), Vec::<usize>::new());
    assert_eq!(writer_capacity(2), 3);
    assert_eq!(writer_capacity(0), 1);
}

#[test]
fn entry_actions() {
    assert_eq!(entry_action(true), EntryAction::Transform);
    assert_eq!(entry_action(false), EntryAction::Copy);
}

#[test]
fn failed_transform_stops_dispatch_and_keeps_written_entries() {
    let mut progress = RewriteProgress::new();
    for entry in 0..10usize {
        if !progress.should_dispatch() {
            break;
        }
        if entry == 7 {
            progress.record_failure(entry);
        } else {
            progress.record_written(100);
        }
    }
    let outcome = progress.finish();
    assert_eq!(
        outcome,
        Err(RewriteFailure { failed_entry: 7, entries_written: 7, bytes_written: 700 })
    );
    assert!(progress.entries_written < 10);
}

#[test]
fn first_failure_is_kept() {
    let mut progress = RewriteProgress::new();
    progress.record_written(5);
    progress.record_failure(3);
    progress.record_written(6);
    progress.record_failure(1);
    assert!(!progress.should_dispatch());
    assert_eq!(
        progress.finish(),
        Err(RewriteFailure { failed_entry: 3, entries_written: 2, bytes_written: 11 })
    );
}

#[test]
fn completed_run_reports_counts() {
    let mut progress = RewriteProgress::new();
    assert!(progress.should_dispatch());
    progress.record_written(10);
    progress.record_written(u64::MAX);
    assert_eq!(
        progress.finish(),
        Ok(RewriteStats { entries_written: 2, bytes_written: u64::MAX })
    );
}

#[test]
fn metadata_record() {
    let m = PakMetadata::new(true);
    assert!(m.is_full_package());
    assert_eq!(m.version(), 1);
    assert_eq!(METADATA_VERSION, 1);
    assert!(!PakMetadata::new(false).is_full_package());
    assert_eq!(METADATA_KEY, "__TEX_DECOMPRESSOR_METADATA__");
}

#[test]
fn target_paths_are_textures_of_the_packed_version() {
    assert!(is_target_path("natives/STM/a/b.tex.241106027"));
    assert!(!is_target_path("natives/STM/a/b.tex.241106028"));
    assert!(!is_target_path("natives/STM/a/b.mesh"));
    assert!(!is_target_path(""));
}
