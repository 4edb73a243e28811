use arc_overlay::hashing::fingerprint;
use arc_overlay::replacement_files::ArcFiles;
use arc_overlay::replacement_files::ArchiveTable;
use arc_overlay::replacement_files::FileCtx;
use arc_overlay::replacement_files::FsEntry;
use arc_overlay::replacement_files::ScanError;
use arc_overlay::replacement_files::SizeEntry;
use arc_overlay::replacement_files::region_for_path;

fn entry(h: u32) -> SizeEntry {
    SizeEntry { offset_in_folder: 7, comp_size: 40, decomp_size: h, flags: 0 }
}

#[test]
fn region_default_when_untagged() {
    assert_eq!(region_for_path("fighter/model.numatb", 5), 5);
}

#[test]
fn region_from_tag() {
    assert_eq!(region_for_path("model+jp_ja.numatb", 5), 0);
    assert_eq!(region_for_path("model+us_en.numatb", 5), 1);
    assert_eq!(region_for_path("model+eu_de.numatb", 5), 7);
    assert_eq!(region_for_path("model+zh_tw.numatb", 5), 13);
}

#[test]
fn region_unknown_tag_falls_back() {
    assert_eq!(region_for_path("model+xx_yy.numatb", 5), 1);
}

#[test]
fn region_without_extension_is_default() {
    assert_eq!(region_for_path("model+us_en", 5), 5);
}

#[test]
fn file_ctx_get_region() {
    let mut ctx = FileCtx::new();
    ctx.path = String::from("mods/model+eu_it.numatb");
    assert_eq!(ctx.get_region(1), 9);
}

#[test]
fn visit_file_accepts_matching_file() {
    let ctx = ArcFiles::visit_file("mods/fighter/model.numatb", 10, 4, 1).unwrap();
    assert_eq!(ctx.path, "mods/fighter/model.numatb");
    assert_eq!(ctx.hash, fingerprint("fighter/model.numatb"));
    assert_eq!(ctx.filesize, 10);
    assert!(!ctx.virtual_file);
    assert!(ctx.orig_subfile.is_none());
}

#[test]
fn visit_file_skips_hidden() {
    let r = ArcFiles::visit_file("mods/fighter/.model.numatb", 10, 4, 1);
    assert!(matches!(r, Err(ScanError::HiddenEntry)));
}

#[test]
fn visit_file_skips_missing_extension() {
    let r = ArcFiles::visit_file("mods/fighter/README", 10, 4, 1);
    assert!(matches!(r, Err(ScanError::MissingExtension)));
}

#[test]
fn visit_file_skips_other_region() {
    let r = ArcFiles::visit_file("mods/model+jp_ja.numatb", 10, 4, 1);
    assert!(matches!(r, Err(ScanError::RegionMismatch)));
}

#[test]
fn insert_or_update_keeps_one_winner() {
    let mut arc = ArcFiles::new();
    let h = fingerprint("fighter/model.numatb");
    for (path, size) in [("mods/a/fighter/model.numatb", 10u32), (
        "mods/b/fighter/model.numatb",
        20u32,
    ), ("mods/c/fighter/model.numatb", 30u32)] {
        let mut ctx = FileCtx::new();
        ctx.path = String::from(path);
        ctx.hash = h;
        ctx.filesize = size;
        arc.insert_or_update(ctx);
    }
    assert_eq!(arc.0.len(), 1);
    let winner = arc.get(h).unwrap();
    assert_eq!(winner.path, "mods/c/fighter/model.numatb");
    assert_eq!(winner.filesize, 30);
    assert_eq!(arc.resolve_physical_path(h).unwrap(), "mods/c/fighter/model.numatb");
}

#[test]
fn size_negotiation_raises_and_backs_up_once() {
    let mut table = ArchiveTable::new();
    let h = fingerprint("fighter/model.numatb");
    table.insert_entry(h, entry(50));

    let mut ctx = FileCtx::new();
    ctx.hash = h;
    ctx.filesize = 30;
    ctx.filesize_replacement(&mut table);
    // A smaller replacement never lowers the recorded size.
    assert_eq!(table.get_data(h).unwrap().decomp_size, 50);
    assert_eq!(ctx.orig_subfile, Some(entry(50)));

    ctx.filesize = 80;
    ctx.filesize_replacement(&mut table);
    assert_eq!(table.get_data(h).unwrap().decomp_size, 80);
    // The backup still holds the original entry.
    assert_eq!(ctx.orig_subfile, Some(entry(50)));

    ctx.filesize = 60;
    ctx.filesize_replacement(&mut table);
    // max(50, max(30, 80, 60)) == 80
    assert_eq!(table.get_data(h).unwrap().decomp_size, 80);
    assert_eq!(ctx.orig_subfile, Some(entry(50)));
    // The untouched fields survive every negotiation.
    assert_eq!(table.get_data(h).unwrap().offset_in_folder, 7);
    assert_eq!(table.get_data(h).unwrap().comp_size, 40);
}

#[test]
fn size_negotiation_skips_unknown_fingerprint() {
    let mut table = ArchiveTable::new();
    let mut ctx = FileCtx::new();
    ctx.hash = 12345;
    ctx.filesize = 30;
    ctx.filesize_replacement(&mut table);
    assert!(table.get_data(12345).is_none());
    assert!(ctx.orig_subfile.is_none());
}

fn mod_tree(size: u64) -> Vec<FsEntry> {
    vec![FsEntry::Dir {
        name: String::from("fighter"),
        size: 0,
        entries: vec![FsEntry::File { name: String::from("model.numatb"), size }],
    }]
}

#[test]
fn flat_scan_of_two_directories_last_wins() {
    // Two drop-in directories supply the same internal path with different
    // sizes: the later-visited one silently wins.
    let mut arc = ArcFiles::new();
    let roots = vec![
        FsEntry::Dir { name: String::from("a"), size: 0, entries: mod_tree(10) },
        FsEntry::Dir { name: String::from("b"), size: 0, entries: mod_tree(20) },
    ];
    arc.visit_umm_dirs("mods", &roots, 1);
    let h = fingerprint("fighter/model.numatb");
    let winner = arc.get(h).unwrap();
    assert_eq!(winner.filesize, 20);
    assert_eq!(winner.path, "mods/b/fighter/model.numatb");
    assert_eq!(arc.0.len(), 1);
}

#[test]
fn scan_skips_hidden_directories_and_plain_files() {
    let mut arc = ArcFiles::new();
    let roots = vec![
        FsEntry::Dir { name: String::from(".git"), size: 0, entries: mod_tree(10) },
        FsEntry::File { name: String::from("readme.txt"), size: 5 },
        FsEntry::Dir { name: String::from("a"), size: 0, entries: mod_tree(10) },
    ];
    arc.visit_umm_dirs("mods", &roots, 1);
    assert_eq!(arc.0.len(), 1);
    let h = fingerprint("fighter/model.numatb");
    assert_eq!(arc.get(h).unwrap().path, "mods/a/fighter/model.numatb");
}

#[test]
fn scan_treats_extension_directory_as_pseudo_file() {
    // A directory whose own name carries an extension is one opaque record,
    // not recursed into.
    let mut arc = ArcFiles::new();
    let entries = vec![FsEntry::Dir {
        name: String::from("movie.webm"),
        size: 99,
        entries: vec![FsEntry::File { name: String::from("part0.bin"), size: 1 }],
    }];
    arc.visit_dir("mods/a", &entries, 6, 1);
    assert_eq!(arc.0.len(), 1);
    let h = fingerprint("movie.webm");
    assert_eq!(arc.get(h).unwrap().filesize, 99);
    let inner = fingerprint("movie.webm/part0.bin");
    assert!(arc.get(inner).is_none());
}

#[test]
fn scan_rewrites_mp4_fingerprint() {
    let mut arc = ArcFiles::new();
    let entries = vec![FsEntry::File { name: String::from("intro.mp4"), size: 3 }];
    arc.visit_dir("mods/a", &entries, 6, 1);
    let h = fingerprint("intro.webm");
    assert!(arc.get(h).is_some());
}

#[test]
fn region_short_tag_falls_back() {
    assert_eq!(region_for_path("model+us.numatb", 5), 1);
}
