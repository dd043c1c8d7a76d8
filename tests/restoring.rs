use mhws_tex_decompressor::chain::RemovalPlan;
use mhws_tex_decompressor::metadata::PakMetadata;
use mhws_tex_decompressor::restore::{
    backup_name, classify_file, plan_restore, restore_kind, temp_name, FileKind, RemovalStep,
    RestoreAction, RestoreKind, RestoreStep, ScannedFile,
};

fn scanned(name: &str, meta: Option<PakMetadata>) -> ScannedFile {
    ScannedFile { name: name.to_string(), metadata: meta }
}

#[test]
fn file_classification() {
    assert_eq!(classify_file("re_chunk_000.pak.backup"), FileKind::Backup);
    assert_eq!(classify_file("re_chunk_000.pak"), FileKind::Container);
    assert_eq!(classify_file("re_chunk_000.pak.sub_000.pak"), FileKind::Container);
    assert_eq!(classify_file("re_dlc_stm_3308900.pak"), FileKind::Other);
    assert_eq!(classify_file("re_chunk_000.pak.temp"), FileKind::Other);
    assert_eq!(classify_file("notes.txt"), FileKind::Other);
    assert_eq!(backup_name("re_chunk_000.pak"), "re_chunk_000.pak.backup");
    assert_eq!(temp_name("re_chunk_000.pak"), "re_chunk_000.pak.temp");
}

#[test]
fn restore_kinds() {
    assert_eq!(restore_kind(None), RestoreKind::NotGenerated);
    assert_eq!(restore_kind(Some(PakMetadata::new(true))), RestoreKind::FullRestore);
    assert_eq!(restore_kind(Some(PakMetadata::new(false))), RestoreKind::PatchRemoval);
}

#[test]
fn full_package_with_backup_is_restored() {
    let files = vec![
        scanned("re_chunk_000.pak", None),
        scanned("re_chunk_000.pak.sub_000.pak", Some(PakMetadata::new(true))),
    ];
    let backups = vec!["re_chunk_000.pak.sub_000.pak.backup".to_string()];
    let plan = plan_restore(&files, &backups);
    assert_eq!(plan.restores, vec![RestoreStep { file: 1, action: RestoreAction::RestoreBackup }]);
    assert!(plan.removals.is_empty());
}

#[test]
fn full_package_without_backup_is_reported() {
    let files = vec![scanned("re_chunk_000.pak.sub_000.pak", Some(PakMetadata::new(true)))];
    let plan = plan_restore(&files, &vec!["re_chunk_000.pak.backup".to_string()]);
    assert_eq!(plan.restores, vec![RestoreStep { file: 0, action: RestoreAction::MissingBackup }]);
}

#[test]
fn generated_patches_are_removed_from_the_top() {
    let files = vec![
        scanned("re_chunk_000.pak.sub_000.pak", None),
        scanned("re_chunk_000.pak.sub_000.pak.patch_001.pak", None),
        scanned("re_chunk_000.pak.sub_000.pak.patch_002.pak", Some(PakMetadata::new(false))),
        scanned("re_chunk_000.pak.sub_000.pak.patch_004.pak", Some(PakMetadata::new(false))),
        scanned("re_chunk_000.pak.sub_000.pak.patch_003.pak", None),
    ];
    let plan = plan_restore(&files, &vec![]);
    assert!(plan.restores.is_empty());
    assert_eq!(
        plan.removals,
        vec![
            RemovalStep { file: 3, plan: RemovalPlan::DeleteFinal },
            RemovalStep { file: 2, plan: RemovalPlan::DeletePlaceholder },
        ]
    );
}

#[test]
fn consecutive_generated_patches_are_all_deleted() {
    let files = vec![
        scanned("re_chunk_000.pak.sub_000.pak.patch_002.pak", Some(PakMetadata::new(false))),
        scanned("re_chunk_000.pak.sub_000.pak.patch_001.pak", None),
        scanned("re_chunk_000.pak.sub_000.pak.patch_003.pak", Some(PakMetadata::new(false))),
        scanned("re_chunk_bad.pak", Some(PakMetadata::new(false))),
    ];
    let plan = plan_restore(&files, &vec![]);
    assert_eq!(
        plan.removals,
        vec![
            RemovalStep { file: 2, plan: RemovalPlan::DeleteFinal },
            RemovalStep { file: 0, plan: RemovalPlan::DeleteFinal },
        ]
    );
}

#[test]
fn removals_follow_the_patch_ordinal_not_the_name_length() {
    let files = vec![
        scanned("re_chunk_000.pak.sub_000.pak.patch_002.pak", Some(PakMetadata::new(false))),
        scanned(
            "re_chunk_000.pak.sub_000.pak.patch_001.pak.patch_003.pak",
            Some(PakMetadata::new(false)),
        ),
    ];
    let plan = plan_restore(&files, &vec![]);
    assert_eq!(
        plan.removals,
        vec![
            RemovalStep { file: 0, plan: RemovalPlan::DeleteFinal },
            RemovalStep { file: 1, plan: RemovalPlan::DeleteFinal },
        ]
    );
}
