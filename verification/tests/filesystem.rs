use std::collections::HashMap;

use arc_overlay::fs::ModFileSystem;
use arc_overlay::fs::acquire_extension_handler;
use arc_overlay::fs::look_for_conflicts;
use arc_overlay::fs::Modpack;

fn one_file_fs(hash: u64) -> ModFileSystem {
    let mut files: HashMap<u64, String> = HashMap::new();
    files.insert(hash, String::from("mods/a/fighter/model.numatb"));
    ModFileSystem::new(files)
}

#[test]
fn get_physical_path_resolves_known_hash() {
    let fsys = one_file_fs(77);
    assert_eq!(
        fsys.get_physical_path(77).unwrap(),
        "mods/a/fighter/model.numatb"
    );
    assert!(fsys.get_physical_path(78).is_none());
}

#[test]
fn chunk_consumption_protocol() {
    // filesize 100, chunks of 40, 40, 20: the fingerprint comes out exactly
    // when the counter is exhausted.
    let mut fsys = one_file_fs(77);
    fsys.set_incoming_file(77, 100);
    assert_eq!(fsys.sub_remaining_bytes(40), None);
    assert_eq!(fsys.sub_remaining_bytes(40), None);
    assert_eq!(fsys.sub_remaining_bytes(20), Some(77));
}

#[test]
fn oversized_chunk_finishes_immediately() {
    let mut fsys = one_file_fs(77);
    fsys.set_incoming_file(77, 100);
    assert_eq!(fsys.sub_remaining_bytes(150), Some(77));
    // Nothing is pending afterwards.
    assert_eq!(fsys.sub_remaining_bytes(1), None);
}

#[test]
fn new_incoming_file_abandons_pending_one() {
    let mut fsys = {
        let mut files: HashMap<u64, String> = HashMap::new();
        files.insert(1, String::from("a.bin"));
        files.insert(2, String::from("b.bin"));
        ModFileSystem::new(files)
    };
    fsys.set_incoming_file(1, 10);
    fsys.set_incoming_file(2, 30);
    assert_eq!(fsys.sub_remaining_bytes(30), Some(2));
}

#[test]
fn get_incoming_file_takes_once() {
    let mut fsys = one_file_fs(77);
    fsys.set_incoming_file(77, 4);
    assert_eq!(fsys.get_incoming_file(), Some(77));
    assert_eq!(fsys.get_incoming_file(), None);
}

#[test]
fn no_extension_handlers_registered() {
    assert!(acquire_extension_handler(0xabc).is_none());
}

#[test]
fn look_for_conflicts_accepts_any_pack() {
    look_for_conflicts(Modpack::default());
}
