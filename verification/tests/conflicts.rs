use arc_overlay::fs::ConflictV2;
use arc_overlay::fs::ConflictManager;
use arc_overlay::fs::ModDir;
use arc_overlay::fs::ModFile;
use arc_overlay::fs::Modpack;
use arc_overlay::fs::check_for_conflicts;
use arc_overlay::fs::get_additional_files;
use arc_overlay::hashing::fingerprint;
use arc_overlay::replacement_files::ArcFiles;
use arc_overlay::replacement_files::FsEntry;
use arc_overlay::hashing::hash40;
use arc_overlay::replacement_files::ArchiveTable;
use arc_overlay::replacement_files::SizeEntry;

fn dir(root: &str, files: &[(&str, u64)]) -> ModDir {
    let mut d = ModDir::default();
    d.root = String::from(root);
    for (path, size) in files {
        d.files.push(ModFile { path: String::from(*path), size: *size });
    }
    d
}

#[test]
fn two_overlapping_dirs_yield_one_conflict() {
    let a = dir("mods/a", &[("mods/a/fighter/model.numatb", 10)]);
    let b = dir("mods/b", &[("mods/b/fighter/model.numatb", 10)]);
    let c = dir("mods/c", &[("mods/c/sound/bank.nus3audio", 4)]);
    let pack = Modpack { mods: vec![a.clone(), b.clone(), c.clone()] };
    let (accepted, mut manager) = check_for_conflicts(pack);
    assert_eq!(accepted.0.mods.len(), 1);
    assert!(accepted.0.mods[0] == c);
    let record = manager.next().unwrap();
    assert!(record.first == a);
    assert!(record.second == b);
    assert!(manager.next().is_none());
}

#[test]
fn size_mismatch_is_no_conflict() {
    // Same relative path, different declared sizes: the entries are not
    // identical, so no conflict is reported and both directories survive.
    let a = dir("mods/a", &[("mods/a/fighter/model.numatb", 10)]);
    let b = dir("mods/b", &[("mods/b/fighter/model.numatb", 20)]);
    let pack = Modpack { mods: vec![a.clone(), b.clone()] };
    let (accepted, mut manager) = check_for_conflicts(pack);
    assert!(manager.next().is_none());
    assert_eq!(accepted.0.mods.len(), 2);
    assert!(accepted.0.mods[0] == a);
    assert!(accepted.0.mods[1] == b);
}

#[test]
fn rebase_drops_records_naming_a_directory() {
    let a = dir("mods/a", &[("mods/a/x/y.bin", 1)]);
    let b = dir("mods/b", &[("mods/b/x/y.bin", 1)]);
    let c = dir("mods/c", &[("mods/c/z/w.bin", 2)]);
    let d = dir("mods/d", &[("mods/d/z/w.bin", 2)]);
    let records = vec![
        ConflictV2::new(a.clone(), b.clone()),
        ConflictV2::new(c.clone(), d.clone()),
    ];
    let mut manager = ConflictManager::from(records);
    manager.rebase(&a);
    let left = manager.next().unwrap();
    assert!(left.first == c);
    assert!(left.second == d);
    assert!(manager.next().is_none());
}

#[test]
fn mod_dir_equality_ignores_patches() {
    let mut a = dir("mods/a", &[("mods/a/x/y.bin", 1)]);
    let mut b = dir("mods/a", &[("mods/a/x/y.bin", 1)]);
    a.patches.push(String::from("patch/one"));
    b.patches.push(String::from("patch/two"));
    assert!(a == b);
    let c = dir("mods/a", &[("mods/a/x/y.bin", 2)]);
    assert!(a != c);
}

#[test]
fn get_patch_hashes_relative_paths() {
    let d = dir("mods/a", &[("mods/a/fighter/model.numatb", 10), ("mods/a/sound/se.bin", 3)]);
    let patch = d.get_patch();
    assert_eq!(patch.len(), 2);
    assert_eq!(patch[0], (hash40("fighter/model.numatb"), 10));
    assert_eq!(patch[1], (hash40("sound/se.bin"), 3));
}

#[test]
fn get_filesystem_maps_hashes_to_full_paths() {
    let d = dir("mods/a", &[("mods/a/fighter/model.numatb", 10)]);
    let fs = d.get_filesystem();
    assert_eq!(fs.len(), 1);
    assert_eq!(
        fs.get(&hash40("fighter/model.numatb")).unwrap(),
        "mods/a/fighter/model.numatb"
    );
}

#[test]
fn get_additional_files_splits_on_archive_knowledge() {
    let known = ModFile { path: String::from("fighter/model.numatb"), size: 10 };
    let extra = ModFile { path: String::from("fighter/extra.numatb"), size: 11 };
    let mut table = ArchiveTable::new();
    table.insert_entry(
        hash40("fighter/model.numatb"),
        SizeEntry { offset_in_folder: 0, comp_size: 0, decomp_size: 5, flags: 0 },
    );
    let mut files = vec![known.clone(), extra.clone()];
    let taken = get_additional_files(&mut files, &table);
    assert_eq!(taken.len(), 1);
    assert!(taken[0] == known);
    assert_eq!(files.len(), 1);
    assert!(files[0] == extra);
}

#[test]
fn grouped_and_flat_resolution_differ() {
    // The same two directories: the grouped scan reports no conflict (the
    // sizes differ), while a flat scan lets the later directory win.
    let a = dir("mods/a", &[("mods/a/fighter/model.numatb", 10)]);
    let b = dir("mods/b", &[("mods/b/fighter/model.numatb", 20)]);
    let pack = Modpack { mods: vec![a, b] };
    let (accepted, mut manager) = check_for_conflicts(pack);
    assert!(manager.next().is_none());
    assert_eq!(accepted.0.mods.len(), 2);

    let mut arc = ArcFiles::new();
    let roots = vec![
        FsEntry::Dir {
            name: String::from("a"),
            size: 0,
            entries: vec![FsEntry::Dir {
                name: String::from("fighter"),
                size: 0,
                entries: vec![FsEntry::File { name: String::from("model.numatb"), size: 10 }],
            }],
        },
        FsEntry::Dir {
            name: String::from("b"),
            size: 0,
            entries: vec![FsEntry::Dir {
                name: String::from("fighter"),
                size: 0,
                entries: vec![FsEntry::File { name: String::from("model.numatb"), size: 20 }],
            }],
        },
    ];
    arc.visit_umm_dirs("mods", &roots, 1);
    let winner = arc.get(fingerprint("fighter/model.numatb")).unwrap();
    assert_eq!(winner.filesize, 20);
}
