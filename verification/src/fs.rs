//! Mod packages and conflict arbitration.
//!
//! A `ModDir` is one independently-authored mod directory; a `Modpack` is a
//! set of them. Two directories conflict when they contribute one identical
//! (relative path, size) entry; conflicting directories are excluded wholesale
//! and reported, never merged. `ModFileSystem` answers path lookups for the
//! load interceptor and tracks the chunked consumption of one incoming file.

use vstd::prelude::*;
use vstd::string::StrSliceExecFns;
use std::collections::HashMap;
use crate::hashing::eq_str;
use crate::hashing::fingerprint_of;
use crate::hashing::hash40;
use crate::replacement_files::ArchiveTable;

verus! {

broadcast use vstd::std_specs::hash::group_hash_axioms;

/// One file contributed by a mod directory: its physical path and declared
/// size in bytes.
#[derive(Debug)]
pub struct ModFile {
    pub path: String,
    pub size: u64,
}

/// The mathematical image of a `ModFile`.
pub struct ModFileV {
    pub path: Seq<char>,
    pub size: u64,
}

impl View for ModFile {
    type V = ModFileV;

    open spec fn view(&self) -> ModFileV {
        ModFileV { path: self.path@, size: self.size }
    }
}

impl Clone for ModFile {
    fn clone(&self) -> (res: Self)
        ensures
            res == *self,
    {
        ModFile { path: self.path.clone(), size: self.size }
    }
}

impl PartialEq for ModFile {
    fn eq(&self, other: &Self) -> (r: bool) {
        eq_str(self.path.as_str(), other.path.as_str()) && self.size == other.size
    }
}

impl vstd::std_specs::cmp::PartialEqSpecImpl for ModFile {
    open spec fn obeys_eq_spec() -> bool {
        true
    }

    open spec fn eq_spec(&self, other: &ModFile) -> bool {
        self@ == other@
    }
}

/// The views of a directory's file list.
pub open spec fn files_view(files: Seq<ModFile>) -> Seq<ModFileV> {
    files.map_values(|f: ModFile| f@)
}

/// The mathematical image of a `ModDir`.
pub struct ModDirV {
    pub root: Seq<char>,
    pub files: Seq<ModFileV>,
    pub patches: Seq<Seq<char>>,
}

/// One mod directory: its root path, the files it contributes, and opaque
/// patch sub-paths reserved for format-specific patching.
#[derive(Debug)]
pub struct ModDir {
    pub root: String,
    pub files: Vec<ModFile>,
    pub patches: Vec<String>,
}

impl View for ModDir {
    type V = ModDirV;

    open spec fn view(&self) -> ModDirV {
        ModDirV {
            root: self.root@,
            files: files_view(self.files@),
            patches: self.patches@.map_values(|s: String| s@),
        }
    }
}

/// Two directories are the same for arbitration purposes when their roots
/// and file lists agree; the reserved patch list does not participate.
pub open spec fn dir_eq(a: ModDirV, b: ModDirV) -> bool {
    a.root == b.root && a.files == b.files
}

fn files_eq(a: &Vec<ModFile>, b: &Vec<ModFile>) -> (r: bool)
    ensures
        r == (files_view(a@) == files_view(b@)),
{
    if a.len() != b.len() {
        proof {
            if files_view(a@) == files_view(b@) {
                assert(files_view(a@).len() == files_view(b@).len());
            }
        }
        return false;
    }
    let n = a.len();
    let mut i: usize = 0;
    while i < n
        invariant
            0 <= i <= n,
            n == a@.len(),
            n == b@.len(),
            forall|j: int| 0 <= j < i ==> a@[j]@ == b@[j]@,
        decreases n - i,
    {
        let same = eq_str(a[i].path.as_str(), b[i].path.as_str()) && a[i].size == b[i].size;
        if !same {
            proof {
                if files_view(a@) == files_view(b@) {
                    assert(files_view(a@)[i as int] == files_view(b@)[i as int]);
                }
            }
            return false;
        }
        i += 1;
    }
    proof {
        assert(files_view(a@) =~= files_view(b@));
    }
    true
}

fn clone_strings(v: &Vec<String>) -> (r: Vec<String>)
    ensures
        r@ == v@,
{
    let mut r: Vec<String> = Vec::new();
    let mut i: usize = 0;
    while i < v.len()
        invariant
            0 <= i <= v@.len(),
            r@ == v@.take(i as int),
        decreases v@.len() - i,
    {
        r.push(v[i].clone());
        proof {
            assert(v@.take(i + 1) =~= v@.take(i as int).push(v@[i as int]));
        }
        i += 1;
    }
    proof {
        assert(v@.take(v@.len() as int) =~= v@);
    }
    r
}

fn clone_files(v: &Vec<ModFile>) -> (r: Vec<ModFile>)
    ensures
        r@ == v@,
{
    let mut r: Vec<ModFile> = Vec::new();
    let mut i: usize = 0;
    while i < v.len()
        invariant
            0 <= i <= v@.len(),
            r@ == v@.take(i as int),
        decreases v@.len() - i,
    {
        r.push(v[i].clone());
        proof {
            assert(v@.take(i + 1) =~= v@.take(i as int).push(v@[i as int]));
        }
        i += 1;
    }
    proof {
        assert(v@.take(v@.len() as int) =~= v@);
    }
    r
}

impl Clone for ModDir {
    fn clone(&self) -> (res: Self)
        ensures
            res@ == self@,
    {
        ModDir {
            root: self.root.clone(),
            files: clone_files(&self.files),
            patches: clone_strings(&self.patches),
        }
    }
}

impl PartialEq for ModDir {
    fn eq(&self, other: &Self) -> (r: bool) {
        eq_str(self.root.as_str(), other.root.as_str()) && files_eq(&self.files, &other.files)
    }
}

impl vstd::std_specs::cmp::PartialEqSpecImpl for ModDir {
    open spec fn obeys_eq_spec() -> bool {
        true
    }

    open spec fn eq_spec(&self, other: &ModDir) -> bool {
        dir_eq(self@, other@)
    }
}

impl Default for ModDir {
    fn default() -> (r: Self)
        ensures
            r.root@ == Seq::<char>::empty(),
            r.files@ == Seq::<ModFile>::empty(),
            r.patches@ == Seq::<String>::empty(),
    {
        ModDir { root: String::new(), files: Vec::new(), patches: Vec::new() }
    }
}

/// The user's set of mod directories.
pub struct Modpack {
    pub mods: Vec<ModDir>,
}

impl Default for Modpack {
    fn default() -> (r: Self)
        ensures
            r.mods@ == Seq::<ModDir>::empty(),
    {
        Modpack { mods: Vec::new() }
    }
}

/// A modpack whose directories passed arbitration with zero conflicts.
pub struct UnconflictingModpack(pub Modpack);

/// Legacy conflict report: the two mod roots involved, by path alone.
#[derive(Debug, Default, PartialEq, Eq, Hash)]
pub struct Conflict {
    conflicting_mod: String,
    conflict_with: String,
}

/// One reported conflict: an unordered pair of directories contributing an
/// identical entry.
pub struct ConflictV2 {
    pub first: ModDir,
    pub second: ModDir,
}

impl View for ConflictV2 {
    type V = (ModDirV, ModDirV);

    open spec fn view(&self) -> (ModDirV, ModDirV) {
        (self.first@, self.second@)
    }
}

impl ConflictV2 {
    pub fn new(first: ModDir, second: ModDir) -> (r: Self)
        ensures
            r.first == first,
            r.second == second,
    {
        Self { first, second }
    }
}

/// The views of a conflict list.
pub open spec fn conflicts_view(cs: Seq<ConflictV2>) -> Seq<(ModDirV, ModDirV)> {
    cs.map_values(|c: ConflictV2| c@)
}

/// The collection of reported conflicts, consumed one at a time by a
/// resolution flow.
pub struct ConflictManager(Vec<ConflictV2>);

impl View for ConflictManager {
    type V = Seq<(ModDirV, ModDirV)>;

    closed spec fn view(&self) -> Seq<(ModDirV, ModDirV)> {
        conflicts_view(self.0@)
    }
}

impl From<Vec<ConflictV2>> for ConflictManager {
    fn from(vec: Vec<ConflictV2>) -> (r: Self)
        ensures
            r@ == conflicts_view(vec@),
    {
        ConflictManager(vec)
    }
}

impl vstd::std_specs::convert::FromSpecImpl<Vec<ConflictV2>> for ConflictManager {
    closed spec fn obeys_from_spec() -> bool {
        true
    }

    closed spec fn from_spec(vec: Vec<ConflictV2>) -> ConflictManager {
        ConflictManager(vec)
    }
}

/// Whether a directory is named by any record of a conflict list.
pub open spec fn dir_mentioned(d: ModDirV, cs: Seq<(ModDirV, ModDirV)>) -> bool {
    exists|k: int| 0 <= k < cs.len() && (dir_eq(cs[k].0, d) || dir_eq(cs[k].1, d))
}

impl ConflictManager {
    /// Drop every record naming a directory no longer under consideration.
    pub fn rebase(&mut self, dir: &ModDir)
        ensures
            final(self)@ == old(self)@.filter(
                |c: (ModDirV, ModDirV)| !(dir_eq(c.0, dir@) || dir_eq(c.1, dir@)),
            ),
    {
        let ghost pred = |c: (ModDirV, ModDirV)| !(dir_eq(c.0, dir@) || dir_eq(c.1, dir@));
        let ghost cv = conflicts_view(old(self).0@);
        let mut kept: Vec<ConflictV2> = Vec::new();
        let n = self.0.len();
        let mut i: usize = 0;
        while i < n
            invariant
                0 <= i <= n,
                n == old(self).0@.len(),
                self.0@ == old(self).0@,
                cv == conflicts_view(old(self).0@),
                conflicts_view(kept@) == cv.take(i as int).filter(pred),
                pred == (|c: (ModDirV, ModDirV)| !(dir_eq(c.0, dir@) || dir_eq(c.1, dir@))),
            decreases n - i,
        {
            let c = &self.0[i];
            let hit = c.first == *dir || c.second == *dir;
            proof {
                reveal(Seq::filter);
                assert(cv.take(i + 1).drop_last() =~= cv.take(i as int));
                assert(cv.take(i + 1).last() == cv[i as int]);
                assert(cv[i as int] == old(self).0@[i as int]@);
            }
            if !hit {
                let copy = ConflictV2 { first: c.first.clone(), second: c.second.clone() };
                kept.push(copy);
                proof {
                    assert(conflicts_view(kept@) =~= conflicts_view(kept@.drop_last()).push(
                        kept@.last()@,
                    ));
                }
            }
            i += 1;
        }
        proof {
            assert(cv.take(n as int) =~= cv);
        }
        self.0 = kept;
    }

    /// Pop one remaining conflict for presentation; no ordering is promised
    /// beyond "some remaining record".
    pub fn next(&mut self) -> (r: Option<ConflictV2>)
        ensures
            old(self)@.len() == 0 ==> r is None && final(self)@ == old(self)@,
            old(self)@.len() > 0 ==> (r matches Some(c) && c@ == old(self)@.last()
                && final(self)@ == old(self)@.drop_last()),
    {
        let r = self.0.pop();
        proof {
            if old(self).0@.len() > 0 {
                assert(conflicts_view(self.0@) =~= conflicts_view(old(self).0@).drop_last());
            } else {
                assert(conflicts_view(self.0@) =~= conflicts_view(old(self).0@));
            }
        }
        r
    }
}

/// The in-memory filesystem the load interceptor queries: the winning path
/// per fingerprint, plus the chunk-consumption state of the one file
/// currently being streamed in.
pub struct ModFileSystem {
    files: HashMap<u64, String>,
    incoming_file: Option<u64>,
    remaining_bytes: usize,
}

impl ModFileSystem {
    pub closed spec fn files_map(&self) -> Map<u64, String> {
        self.files@
    }

    pub closed spec fn incoming(&self) -> Option<u64> {
        self.incoming_file
    }

    pub closed spec fn remaining(&self) -> usize {
        self.remaining_bytes
    }

    pub fn new(files: HashMap<u64, String>) -> (r: Self)
        ensures
            r.files_map() == files@,
            r.incoming() is None,
            r.remaining() == 0,
    {
        Self { files, incoming_file: None, remaining_bytes: 0 }
    }

    /// The physical path resolved for a fingerprint, if any.
    pub fn get_physical_path(&self, hash: u64) -> (r: Option<String>)
        ensures
            match r {
                Some(p) => self.files_map().contains_key(hash) && p@ == self.files_map()[hash]@,
                None => !self.files_map().contains_key(hash),
            },
    {
        match self.files.get(&hash) {
            Some(p) => Some(p.clone()),
            None => None,
        }
    }

    /// Announce that a known file is about to be streamed in, `filesize`
    /// bytes long. A previously pending file is abandoned.
    pub fn set_incoming_file(&mut self, hash: u64, filesize: usize)
        requires
            old(self).files_map().contains_key(hash),
        ensures
            final(self).incoming() == Some(hash),
            final(self).remaining() == filesize,
            final(self).files_map() == old(self).files_map(),
    {
        self.incoming_file = Some(hash);
        self.remaining_bytes = filesize;
    }

    /// Take the pending fingerprint, clearing it.
    pub fn get_incoming_file(&mut self) -> (r: Option<u64>)
        ensures
            r == old(self).incoming(),
            final(self).incoming() is None,
            final(self).remaining() == old(self).remaining(),
            final(self).files_map() == old(self).files_map(),
    {
        let r = self.incoming_file;
        self.incoming_file = None;
        r
    }

    /// Consume one chunk of the incoming file: once the chunk covers the
    /// remaining bytes, the pending fingerprint is handed out and cleared;
    /// otherwise the remainder shrinks by the chunk size.
    pub fn sub_remaining_bytes(&mut self, size: usize) -> (r: Option<u64>)
        ensures
            size >= old(self).remaining() ==> r == old(self).incoming() && final(self).incoming()
                is None && final(self).remaining() == old(self).remaining(),
            size < old(self).remaining() ==> r is None && final(self).incoming() == old(
                self,
            ).incoming() && final(self).remaining() == old(self).remaining() - size,
            final(self).files_map() == old(self).files_map(),
    {
        if size >= self.remaining_bytes {
            self.get_incoming_file()
        } else {
            self.remaining_bytes = self.remaining_bytes - size;
            None
        }
    }
}

/// Split off the files the archive actually knows: those whose full-path
/// hash has an entry in the archive's table are returned, the rest (the
/// "extra" files) stay behind.
pub fn get_additional_files(files: &mut Vec<ModFile>, arc: &ArchiveTable) -> (r: Vec<ModFile>)
    ensures
        final(files)@ == old(files)@.filter(
            |f: ModFile| !arc@.contains_key(fingerprint_of(f.path@)),
        ),
        r@ == old(files)@.filter(|f: ModFile| arc@.contains_key(fingerprint_of(f.path@))),
{
    let ghost keep_pred = |f: ModFile| !arc@.contains_key(fingerprint_of(f.path@));
    let ghost take_pred = |f: ModFile| arc@.contains_key(fingerprint_of(f.path@));
    let mut kept: Vec<ModFile> = Vec::new();
    let mut taken: Vec<ModFile> = Vec::new();
    let n = files.len();
    let mut i: usize = 0;
    while i < n
        invariant
            0 <= i <= n,
            n == old(files)@.len(),
            files@ == old(files)@,
            kept@ == old(files)@.take(i as int).filter(keep_pred),
            taken@ == old(files)@.take(i as int).filter(take_pred),
            keep_pred == (|f: ModFile| !arc@.contains_key(fingerprint_of(f.path@))),
            take_pred == (|f: ModFile| arc@.contains_key(fingerprint_of(f.path@))),
        decreases n - i,
    {
        let h = hash40(files[i].path.as_str());
        let known = arc.contains(h);
        proof {
            reveal(Seq::filter);
            assert(old(files)@.take(i + 1).drop_last() =~= old(files)@.take(i as int));
            assert(old(files)@.take(i + 1).last() == old(files)@[i as int]);
        }
        if known {
            taken.push(files[i].clone());
        } else {
            kept.push(files[i].clone());
        }
        i += 1;
    }
    proof {
        assert(old(files)@.take(n as int) =~= old(files)@);
    }
    *files = kept;
    taken
}

/// Reserved entry point of the arbitration flow; the current resolution
/// strategy handles everything in `check_for_conflicts`.
pub fn look_for_conflicts(_modpack: Modpack) {
}

/// Look up a patch handler for a file extension; no handlers are registered.
pub fn acquire_extension_handler(_extension: u64) -> (r: Option<()>)
    ensures
        r is None,
{
    None
}

/// A format-specific patcher that rewrites a file's bytes before they are
/// handed to the game.
pub trait ExtensionHandler {
    fn patch_file(&self, buffer: &[u8]) -> Vec<u8>;
}

/// Marker type for the message-archive patch handler.
pub struct MsbtHandler;


/// The (relative path, size) pair a directory contributes at index `i`: the
/// file's path with the root and its separator sliced off.
pub open spec fn rel_entry(d: ModDirV, i: int) -> (Seq<char>, u64) {
    (d.files[i].path.skip(d.root.len() as int + 1), d.files[i].size)
}

/// A file path lies under a directory root: `root`, a separator, and a
/// nonempty remainder.
pub open spec fn file_under_root(root: Seq<char>, p: Seq<char>) -> bool {
    p.len() > root.len() + 1 && p.take(root.len() as int) == root && p[root.len() as int] == '/'
}

/// Every contributed file lies under the directory's root.
pub open spec fn dir_wf(d: ModDirV) -> bool {
    forall|i: int| 0 <= i < d.files.len() ==> file_under_root(d.root, #[trigger] d.files[i].path)
}

/// Two directories conflict when they contribute one identical
/// (relative path, size) entry.
pub open spec fn entries_intersect(a: ModDirV, b: ModDirV) -> bool {
    exists|i: int, j: int|
        0 <= i < a.files.len() && 0 <= j < b.files.len() && rel_entry(a, i) == rel_entry(b, j)
}

fn dirs_conflict(a: &ModDir, b: &ModDir) -> (r: bool)
    requires
        dir_wf(a@),
        dir_wf(b@),
    ensures
        r == entries_intersect(a@, b@),
{
    let ra = a.root.as_str().unicode_len();
    let rb = b.root.as_str().unicode_len();
    let mut i: usize = 0;
    while i < a.files.len()
        invariant
            0 <= i <= a.files@.len(),
            dir_wf(a@),
            dir_wf(b@),
            ra == a.root@.len(),
            rb == b.root@.len(),
            a@.files.len() == a.files@.len(),
            b@.files.len() == b.files@.len(),
            forall|x: int, y: int|
                0 <= x < i && 0 <= y < b.files@.len() ==> rel_entry(a@, x) != rel_entry(b@, y),
        decreases a.files@.len() - i,
    {
        let pa = a.files[i].path.as_str();
        let na = pa.unicode_len();
        proof {
            assert(a@.files[i as int] == a.files@[i as int]@);
            assert(file_under_root(a@.root, a@.files[i as int].path));
            assert(na > ra + 1);
        }
        let rel_a = pa.substring_char(ra + 1, na);
        proof {
            assert(rel_a@ =~= a@.files[i as int].path.skip(a@.root.len() as int + 1));
        }
        let sz_a = a.files[i].size;
        let mut j: usize = 0;
        while j < b.files.len()
            invariant
                0 <= i < a.files@.len(),
                0 <= j <= b.files@.len(),
                dir_wf(a@),
                dir_wf(b@),
                rb == b.root@.len(),
                a@.files.len() == a.files@.len(),
                b@.files.len() == b.files@.len(),
                rel_a@ == rel_entry(a@, i as int).0,
                sz_a == rel_entry(a@, i as int).1,
                forall|y: int| 0 <= y < j ==> rel_entry(a@, i as int) != rel_entry(b@, y),
            decreases b.files@.len() - j,
        {
            let pb = b.files[j].path.as_str();
            let nb = pb.unicode_len();
            proof {
                assert(b@.files[j as int] == b.files@[j as int]@);
                assert(file_under_root(b@.root, b@.files[j as int].path));
                assert(nb > rb + 1);
            }
            let rel_b = pb.substring_char(rb + 1, nb);
            proof {
                assert(rel_b@ =~= b@.files[j as int].path.skip(b@.root.len() as int + 1));
            }
            if eq_str(rel_a, rel_b) && sz_a == b.files[j].size {
                proof {
                    assert(rel_entry(a@, i as int) == rel_entry(b@, j as int));
                }
                return true;
            }
            proof {
                assert(rel_entry(a@, i as int) != rel_entry(b@, j as int));
            }
            j += 1;
        }
        i += 1;
    }
    proof {
        if entries_intersect(a@, b@) {
            let (x, y): (int, int) = choose|x: int, y: int|
                0 <= x < a@.files.len() && 0 <= y < b@.files.len() && rel_entry(a@, x)
                    == rel_entry(b@, y);
            assert(rel_entry(a@, x) != rel_entry(b@, y));
        }
    }
    false
}

/// The conflict records of one directory against a list of later ones, in
/// order.
pub open spec fn pairs_with(d: ModDirV, rest: Seq<ModDirV>) -> Seq<(ModDirV, ModDirV)>
    decreases rest.len(),
{
    if rest.len() == 0 {
        Seq::empty()
    } else {
        (if entries_intersect(d, rest[0]) {
            seq![(d, rest[0])]
        } else {
            Seq::empty()
        }) + pairs_with(d, rest.drop_first())
    }
}

/// One conflict record per unordered pair of distinct directories that
/// contribute an identical entry, in scan order.
pub open spec fn conflict_list(mods: Seq<ModDirV>) -> Seq<(ModDirV, ModDirV)>
    decreases mods.len(),
{
    if mods.len() == 0 {
        Seq::empty()
    } else {
        pairs_with(mods[0], mods.drop_first()) + conflict_list(mods.drop_first())
    }
}

/// The views of a directory list.
pub open spec fn mods_view(s: Seq<ModDir>) -> Seq<ModDirV> {
    s.map_values(|d: ModDir| d@)
}

/// The directories that survive arbitration: those no conflict record
/// mentions.
pub open spec fn accepted_mods(mods: Seq<ModDirV>) -> Seq<ModDirV> {
    mods.filter(|d: ModDirV| !dir_mentioned(d, conflict_list(mods)))
}

proof fn lemma_seq_add_assoc<A>(x: Seq<A>, y: Seq<A>, z: Seq<A>)
    ensures
        (x + y) + z == x + (y + z),
{
    assert((x + y) + z =~= x + (y + z));
}

fn dir_in_conflicts(cs: &Vec<ConflictV2>, d: &ModDir) -> (r: bool)
    ensures
        r == dir_mentioned(d@, conflicts_view(cs@)),
{
    let mut t: usize = 0;
    while t < cs.len()
        invariant
            0 <= t <= cs@.len(),
            forall|u: int|
                0 <= u < t ==> !(dir_eq(conflicts_view(cs@)[u].0, d@) || dir_eq(
                    conflicts_view(cs@)[u].1,
                    d@,
                )),
        decreases cs@.len() - t,
    {
        if cs[t].first == *d || cs[t].second == *d {
            proof {
                assert(conflicts_view(cs@)[t as int] == cs@[t as int]@);
            }
            return true;
        }
        proof {
            assert(conflicts_view(cs@)[t as int] == cs@[t as int]@);
        }
        t += 1;
    }
    false
}

/// Arbitrate a modpack: every pair of distinct directories contributing an
/// identical (relative path, size) entry is recorded as one conflict, and
/// every directory mentioned by any record is excluded from the accepted
/// set — conflicting directories are dropped wholesale, never merged.
pub fn check_for_conflicts(modpack: Modpack) -> (r: (UnconflictingModpack, ConflictManager))
    requires
        forall|k: int| 0 <= k < modpack.mods@.len() ==> #[trigger] dir_wf(modpack.mods@[k]@),
    ensures
        r.1@ == conflict_list(mods_view(modpack.mods@)),
        mods_view(r.0.0.mods@) == accepted_mods(mods_view(modpack.mods@)),
{
    let mods = modpack.mods;
    let ghost mv = mods_view(mods@);
    let n = mods.len();
    let mut conflicts: Vec<ConflictV2> = Vec::new();
    proof {
        assert(conflicts_view(conflicts@) =~= Seq::<(ModDirV, ModDirV)>::empty());
        assert(mv.skip(0) =~= mv);
        assert(Seq::<(ModDirV, ModDirV)>::empty() + conflict_list(mv) =~= conflict_list(mv));
    }
    let mut i: usize = 0;
    while i < n
        invariant
            0 <= i <= n,
            n == mods@.len(),
            mv == mods_view(mods@),
            forall|k: int| 0 <= k < mods@.len() ==> #[trigger] dir_wf(mods@[k]@),
            conflicts_view(conflicts@) + conflict_list(mv.skip(i as int)) == conflict_list(mv),
        decreases n - i,
    {
        let mut j: usize = i + 1;
        proof {
            assert(mv.skip(i as int)[0] == mv[i as int]);
            assert(mv.skip(i as int).drop_first() =~= mv.skip(i + 1));
            assert(conflict_list(mv.skip(i as int)) == pairs_with(mv[i as int], mv.skip(i + 1))
                + conflict_list(mv.skip(i + 1)));
            lemma_seq_add_assoc(
                conflicts_view(conflicts@),
                pairs_with(mv[i as int], mv.skip(i + 1)),
                conflict_list(mv.skip(i + 1)),
            );
        }
        while j < n
            invariant
                0 <= i < n,
                i < j <= n,
                n == mods@.len(),
                mv == mods_view(mods@),
                forall|k: int| 0 <= k < mods@.len() ==> #[trigger] dir_wf(mods@[k]@),
                conflicts_view(conflicts@) + pairs_with(mv[i as int], mv.skip(j as int))
                    + conflict_list(mv.skip(i + 1)) == conflict_list(mv),
            decreases n - j,
        {
            proof {
                assert(mv.skip(j as int)[0] == mv[j as int]);
                assert(mv.skip(j as int).drop_first() =~= mv.skip(j + 1));
                assert(mods@[i as int]@ == mv[i as int]);
                assert(mods@[j as int]@ == mv[j as int]);
            }
            let ghost old_conflicts = conflicts;
            if dirs_conflict(&mods[i], &mods[j]) {
                let record = ConflictV2::new(mods[i].clone(), mods[j].clone());
                proof {
                    assert(record@ == (mv[i as int], mv[j as int]));
                }
                conflicts.push(record);
                proof {
                    assert(conflicts_view(conflicts@) =~= conflicts_view(old_conflicts@)
                        + seq![(mv[i as int], mv[j as int])]);
                }
            }
            proof {
                let d0 = mv[i as int];
                let hd: Seq<(ModDirV, ModDirV)> = if entries_intersect(d0, mv[j as int]) {
                    seq![(d0, mv[j as int])]
                } else {
                    Seq::empty()
                };
                assert(pairs_with(d0, mv.skip(j as int)) == hd + pairs_with(d0, mv.skip(j + 1)));
                let cv_old = conflicts_view(old_conflicts@);
                if entries_intersect(d0, mv[j as int]) {
                    assert(conflicts_view(conflicts@) =~= cv_old + hd);
                    lemma_seq_add_assoc(cv_old, hd, pairs_with(d0, mv.skip(j + 1)));
                    assert(cv_old + pairs_with(d0, mv.skip(j as int)) =~= (cv_old + hd)
                        + pairs_with(d0, mv.skip(j + 1))) by {
                        lemma_seq_add_assoc(cv_old, hd, pairs_with(d0, mv.skip(j + 1)));
                    }
                    assert(conflicts_view(conflicts@) + pairs_with(d0, mv.skip(j + 1))
                        + conflict_list(mv.skip(i + 1)) == conflict_list(mv));
                } else {
                    assert(hd + pairs_with(d0, mv.skip(j + 1)) =~= pairs_with(d0, mv.skip(j + 1)));
                    assert(conflicts_view(conflicts@) + pairs_with(d0, mv.skip(j + 1))
                        + conflict_list(mv.skip(i + 1)) == conflict_list(mv));
                }
            }
            j += 1;
        }
        proof {
            assert(mv.skip(n as int) =~= Seq::<ModDirV>::empty());
            assert(pairs_with(mv[i as int], Seq::<ModDirV>::empty()) == Seq::<(
                ModDirV,
                ModDirV,
            )>::empty());
            assert(conflicts_view(conflicts@) + Seq::<(ModDirV, ModDirV)>::empty()
                =~= conflicts_view(conflicts@));
            assert(conflicts_view(conflicts@) + conflict_list(mv.skip(i + 1)) == conflict_list(
                mv,
            ));
        }
        i += 1;
    }
    proof {
        assert(mv.skip(n as int) =~= Seq::<ModDirV>::empty());
        assert(conflict_list(Seq::<ModDirV>::empty()) == Seq::<(ModDirV, ModDirV)>::empty());
        assert(conflicts_view(conflicts@) =~= conflict_list(mv));
    }
    let ghost pred = |d: ModDirV| !dir_mentioned(d, conflict_list(mv));
    let mut kept: Vec<ModDir> = Vec::new();
    proof {
        reveal(Seq::filter);
        assert(mv.take(0) =~= Seq::<ModDirV>::empty());
        assert(mods_view(kept@) =~= Seq::<ModDirV>::empty().filter(pred));
    }
    let mut k: usize = 0;
    while k < n
        invariant
            0 <= k <= n,
            n == mods@.len(),
            mv == mods_view(mods@),
            conflicts_view(conflicts@) == conflict_list(mv),
            mods_view(kept@) == mv.take(k as int).filter(pred),
            pred == (|d: ModDirV| !dir_mentioned(d, conflict_list(mv))),
        decreases n - k,
    {
        let mentioned = dir_in_conflicts(&conflicts, &mods[k]);
        proof {
            reveal(Seq::filter);
            assert(mods@[k as int]@ == mv[k as int]);
            assert(mv.take(k + 1).drop_last() =~= mv.take(k as int));
            assert(mv.take(k + 1).last() == mv[k as int]);
        }
        if !mentioned {
            kept.push(mods[k].clone());
            proof {
                assert(mods_view(kept@) =~= mods_view(kept@.drop_last()).push(kept@.last()@));
            }
        }
        k += 1;
    }
    proof {
        assert(mv.take(n as int) =~= mv);
    }
    (UnconflictingModpack(Modpack { mods: kept }), ConflictManager(conflicts))
}

proof fn lemma_intersect_respects_eq(a: ModDirV, a2: ModDirV, b: ModDirV)
    requires
        dir_eq(a, a2),
        entries_intersect(a, b),
    ensures
        entries_intersect(a2, b),
{
    let (i, j): (int, int) = choose|i: int, j: int|
        0 <= i < a.files.len() && 0 <= j < b.files.len() && rel_entry(a, i) == rel_entry(b, j);
    assert(rel_entry(a2, i) == rel_entry(a, i));
}

proof fn lemma_intersect_respects_eq_right(b: ModDirV, b2: ModDirV, a: ModDirV)
    requires
        dir_eq(b, b2),
        entries_intersect(a, b),
    ensures
        entries_intersect(a, b2),
{
    let (i, j): (int, int) = choose|i: int, j: int|
        0 <= i < a.files.len() && 0 <= j < b.files.len() && rel_entry(a, i) == rel_entry(b, j);
    assert(rel_entry(b2, j) == rel_entry(b, j));
}

/// Law: two directories sharing one identical (relative path, size) entry
/// yield exactly one conflict record, naming both; both leave the accepted
/// set, while a third directory overlapping neither of them stays in it.
pub proof fn lemma_arbiter_totality(a: ModDirV, b: ModDirV, c: ModDirV)
    requires
        entries_intersect(a, b),
        !entries_intersect(a, c),
        !entries_intersect(c, a),
        !entries_intersect(b, c),
        !entries_intersect(c, b),
    ensures
        conflict_list(seq![a, b, c]) == seq![(a, b)],
        accepted_mods(seq![a, b, c]) == seq![c],
{
    let s = seq![a, b, c];
    assert(s.drop_first() =~= seq![b, c]);
    assert(seq![b, c].drop_first() =~= seq![c]);
    assert(seq![c].drop_first() =~= Seq::<ModDirV>::empty());
    assert(pairs_with(a, Seq::<ModDirV>::empty()) == Seq::<(ModDirV, ModDirV)>::empty());
    assert(pairs_with(a, seq![c]) =~= Seq::<(ModDirV, ModDirV)>::empty());
    assert(pairs_with(a, seq![b, c]) =~= seq![(a, b)]);
    assert(pairs_with(b, Seq::<ModDirV>::empty()) == Seq::<(ModDirV, ModDirV)>::empty());
    assert(pairs_with(b, seq![c]) =~= Seq::<(ModDirV, ModDirV)>::empty());
    assert(pairs_with(c, Seq::<ModDirV>::empty()) == Seq::<(ModDirV, ModDirV)>::empty());
    assert(conflict_list(Seq::<ModDirV>::empty()) == Seq::<(ModDirV, ModDirV)>::empty());
    assert(conflict_list(seq![c]) =~= Seq::<(ModDirV, ModDirV)>::empty());
    assert(conflict_list(seq![b, c]) =~= Seq::<(ModDirV, ModDirV)>::empty());
    assert(conflict_list(s) =~= seq![(a, b)]);

    let cs = seq![(a, b)];
    let pred = |d: ModDirV| !dir_mentioned(d, conflict_list(s));
    assert(dir_mentioned(a, cs)) by {
        assert(dir_eq(cs[0].0, a));
    }
    assert(dir_mentioned(b, cs)) by {
        assert(dir_eq(cs[0].1, b));
    }
    assert(!dir_mentioned(c, cs)) by {
        if dir_eq(cs[0].0, c) {
            lemma_intersect_respects_eq(a, c, b);
        }
        if dir_eq(cs[0].1, c) {
            lemma_intersect_respects_eq_right(b, c, a);
        }
    }
    reveal(Seq::filter);
    assert(s.drop_last() =~= seq![a, b]);
    assert(seq![a, b].drop_last() =~= seq![a]);
    assert(seq![a].drop_last() =~= Seq::<ModDirV>::empty());
    assert(Seq::<ModDirV>::empty().filter(pred) == Seq::<ModDirV>::empty());
    assert(seq![a].filter(pred) =~= Seq::<ModDirV>::empty());
    assert(seq![a, b].filter(pred) =~= Seq::<ModDirV>::empty());
    assert(accepted_mods(s) =~= seq![c]);
}


/// A path-keyed map seen through its values' views.
pub open spec fn paths_view(m: Map<u64, String>) -> Map<u64, Seq<char>> {
    Map::new(|h: u64| m.contains_key(h), |h: u64| m[h]@)
}

/// The filesystem a directory contributes, folded over its first `i` files:
/// the hash of each relative path mapped to the full physical path, later
/// files overwriting earlier ones.
pub open spec fn dir_fs_spec(d: ModDirV, i: int) -> Map<u64, Seq<char>>
    decreases i,
{
    if i <= 0 {
        Map::empty()
    } else {
        dir_fs_spec(d, i - 1).insert(fingerprint_of(rel_entry(d, i - 1).0), d.files[i - 1].path)
    }
}

impl ModDir {
    /// The (fingerprint, size) pairs this directory contributes, keyed by
    /// the archive hash of each relative path.
    pub fn get_patch(&self) -> (r: Vec<(u64, u64)>)
        requires
            dir_wf(self@),
        ensures
            r@.len() == self@.files.len(),
            forall|i: int|
                0 <= i < r@.len() ==> r@[i] == (
                    fingerprint_of(rel_entry(self@, i).0),
                    self@.files[i].size,
                ),
    {
        let rl = self.root.as_str().unicode_len();
        let mut r: Vec<(u64, u64)> = Vec::new();
        let n = self.files.len();
        let mut i: usize = 0;
        while i < n
            invariant
                0 <= i <= n,
                n == self.files@.len(),
                dir_wf(self@),
                rl == self@.root.len(),
                self@.files.len() == self.files@.len(),
                r@.len() == i,
                forall|k: int|
                    0 <= k < i ==> r@[k] == (
                        fingerprint_of(rel_entry(self@, k).0),
                        self@.files[k].size,
                    ),
            decreases n - i,
        {
            let p = self.files[i].path.as_str();
            let pn = p.unicode_len();
            proof {
                assert(self@.files[i as int] == self.files@[i as int]@);
                assert(file_under_root(self@.root, self@.files[i as int].path));
                assert(pn > rl + 1);
            }
            let rel = p.substring_char(rl + 1, pn);
            proof {
                assert(rel@ =~= rel_entry(self@, i as int).0);
            }
            let h = hash40(rel);
            r.push((h, self.files[i].size));
            i += 1;
        }
        r
    }

    /// The overlay filesystem this directory contributes: relative-path
    /// hashes mapped to full physical paths.
    pub fn get_filesystem(&self) -> (r: HashMap<u64, String>)
        requires
            dir_wf(self@),
        ensures
            paths_view(r@) == dir_fs_spec(self@, self@.files.len() as int),
    {
        let rl = self.root.as_str().unicode_len();
        let mut r: HashMap<u64, String> = HashMap::new();
        proof {
            assert(paths_view(r@) =~= dir_fs_spec(self@, 0));
        }
        let n = self.files.len();
        let mut i: usize = 0;
        while i < n
            invariant
                0 <= i <= n,
                n == self.files@.len(),
                dir_wf(self@),
                rl == self@.root.len(),
                self@.files.len() == self.files@.len(),
                paths_view(r@) == dir_fs_spec(self@, i as int),
            decreases n - i,
        {
            let p = self.files[i].path.as_str();
            let pn = p.unicode_len();
            proof {
                assert(self@.files[i as int] == self.files@[i as int]@);
                assert(file_under_root(self@.root, self@.files[i as int].path));
                assert(pn > rl + 1);
            }
            let rel = p.substring_char(rl + 1, pn);
            proof {
                assert(rel@ =~= rel_entry(self@, i as int).0);
            }
            let h = hash40(rel);
            r.insert(h, self.files[i].path.clone());
            proof {
                assert(paths_view(r@) =~= dir_fs_spec(self@, i + 1));
            }
            i += 1;
        }
        r
    }
}

impl Default for ModFileSystem {
    fn default() -> (r: Self)
        ensures
            r.files_map() == Map::<u64, String>::empty(),
            r.incoming() is None,
            r.remaining() == 0,
    {
        ModFileSystem { files: HashMap::new(), incoming_file: None, remaining_bytes: 0 }
    }
}

} // verus!
