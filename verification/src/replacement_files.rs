//! Discovery and resolution of replacement files.
//!
//! A scan walks a directory tree (presented as plain data), classifies every
//! entry, fingerprints the surviving candidates and feeds them into the
//! overlay index `ArcFiles`, negotiating sizes against the archive's own
//! bookkeeping (`ArchiveTable`).

use vstd::prelude::*;
use vstd::string::StrSliceExecFns;
use vstd::string::StringExecFns;
use std::collections::HashMap;
use crate::hashing::eq_str;
use crate::hashing::filename_start;
use crate::hashing::find_first_from;
use crate::hashing::find_last;
use crate::hashing::fingerprint;
use crate::hashing::fingerprint_of;
use crate::hashing::normalize_spec;

verus! {

broadcast use vstd::std_specs::hash::group_hash_axioms;

/// The fields of the archive's size bookkeeping that this engine reads and
/// patches (modeled after the archive's per-file data record).
#[derive(Clone, Copy, PartialEq, Eq, Structural, Debug)]
pub struct SizeEntry {
    pub offset_in_folder: u32,
    pub comp_size: u32,
    pub decomp_size: u32,
    pub flags: u32,
}

/// The archive's live size table, keyed by fingerprint. The engine never
/// removes entries; it only raises recorded decompressed sizes.
pub struct ArchiveTable {
    entries: HashMap<u64, SizeEntry>,
}

impl View for ArchiveTable {
    type V = Map<u64, SizeEntry>;

    closed spec fn view(&self) -> Map<u64, SizeEntry> {
        self.entries@
    }
}

impl ArchiveTable {
    pub fn new() -> (r: Self)
        ensures
            r@ == Map::<u64, SizeEntry>::empty(),
    {
        ArchiveTable { entries: HashMap::new() }
    }

    pub fn insert_entry(&mut self, hash: u64, entry: SizeEntry)
        ensures
            final(self)@ == old(self)@.insert(hash, entry),
    {
        self.entries.insert(hash, entry);
    }

    /// Whether the archive knows this fingerprint at all.
    pub fn contains(&self, hash: u64) -> (r: bool)
        ensures
            r == self@.contains_key(hash),
    {
        self.entries.contains_key(&hash)
    }

    pub fn get_data(&self, hash: u64) -> (r: Option<SizeEntry>)
        ensures
            match r {
                Some(e) => self@.contains_key(hash) && e == self@[hash],
                None => !self@.contains_key(hash),
            },
    {
        match self.entries.get(&hash) {
            Some(e) => Some(*e),
            None => None,
        }
    }
}

/// Why a scanned entry produced no candidate record.
#[derive(Clone, Copy, PartialEq, Eq, Structural, Debug)]
pub enum ScanError {
    /// The entry's name starts with a period.
    HiddenEntry,
    /// The entry carries no file extension.
    MissingExtension,
    /// The entry is a regional variant for another region.
    RegionMismatch,
}

/// One overlay record: the physical file selected for a fingerprint.
pub struct FileCtx {
    pub path: String,
    pub hash: u64,
    pub filesize: u32,
    pub virtual_file: bool,
    /// The archive's original size-table entry, captured once by the first
    /// size negotiation.
    pub orig_subfile: Option<SizeEntry>,
}

/// The mathematical image of a `FileCtx`.
pub struct FileCtxV {
    pub path: Seq<char>,
    pub hash: u64,
    pub filesize: u32,
    pub virtual_file: bool,
    pub orig_subfile: Option<SizeEntry>,
}

impl View for FileCtx {
    type V = FileCtxV;

    open spec fn view(&self) -> FileCtxV {
        FileCtxV {
            path: self.path@,
            hash: self.hash,
            filesize: self.filesize,
            virtual_file: self.virtual_file,
            orig_subfile: self.orig_subfile,
        }
    }
}

/// The region index chosen for a five-character tag embedded after `+` in a
/// filename. An unrecognized tag falls back to index 1, as the host runtime
/// does.
pub open spec fn region_tag_value(tag: Seq<char>) -> u32 {
    if tag == "jp_ja"@ {
        0
    } else if tag == "us_en"@ {
        1
    } else if tag == "us_fr"@ {
        2
    } else if tag == "us_es"@ {
        3
    } else if tag == "eu_en"@ {
        4
    } else if tag == "eu_fr"@ {
        5
    } else if tag == "eu_es"@ {
        6
    } else if tag == "eu_de"@ {
        7
    } else if tag == "eu_nl"@ {
        8
    } else if tag == "eu_it"@ {
        9
    } else if tag == "eu_ru"@ {
        10
    } else if tag == "kr_ko"@ {
        11
    } else if tag == "zh_cn"@ {
        12
    } else if tag == "zh_tw"@ {
        13
    } else {
        1
    }
}

/// Whether the final path component has an extension (a `.` after at least
/// one leading character).
pub open spec fn has_extension(path: Seq<char>) -> bool {
    let name = path.skip(filename_start(path));
    match name.index_of_last('.') {
        Some(k) => k >= 1,
        None => false,
    }
}

/// Whether the final path component starts with a period.
pub open spec fn hidden_name(path: Seq<char>) -> bool {
    filename_start(path) < path.len() && path[filename_start(path)] == '.'
}

/// The region index of a candidate path: the embedded tag when one is
/// present and long enough, otherwise the runtime's active region. Total —
/// a missing or short tag never fails.
pub open spec fn region_of(path: Seq<char>, default_region: u32) -> u32 {
    if !has_extension(path) {
        default_region
    } else {
        let name = path.skip(filename_start(path));
        match name.index_of_first('+') {
            None => default_region,
            Some(m) => if m + 6 <= name.len() {
                region_tag_value(name.subrange(m + 1, m + 6))
            } else {
                1
            },
        }
    }
}

fn has_extension_exec(path: &str) -> (r: bool)
    ensures
        r == has_extension(path@),
{
    let n = path.unicode_len();
    let fs: usize = match find_last(path, '/') {
        Some(k) => k + 1,
        None => 0,
    };
    proof {
        assert(fs as int == filename_start(path@));
    }
    let name = path.substring_char(fs, n);
    proof {
        assert(name@ =~= path@.skip(fs as int));
    }
    match find_last(name, '.') {
        Some(k) => k >= 1,
        None => false,
    }
}

/// Compute the region index of a path string.
pub fn region_for_path(path: &str, default_region: u32) -> (r: u32)
    ensures
        r == region_of(path@, default_region),
{
    let n = path.unicode_len();
    let fs: usize = match find_last(path, '/') {
        Some(k) => k + 1,
        None => 0,
    };
    proof {
        assert(fs as int == filename_start(path@));
    }
    let name = path.substring_char(fs, n);
    proof {
        assert(name@ =~= path@.skip(fs as int));
    }
    let has_ext = match find_last(name, '.') {
        Some(k) => k >= 1,
        None => false,
    };
    if !has_ext {
        return default_region;
    }
    let nm = name.unicode_len();
    match find_first_from(name, '+', 0) {
        None => {
            proof {
                assert(name@.subrange(0, name@.len() as int) =~= name@);
            }
            default_region
        },
        Some(m) => {
            proof {
                assert(name@.subrange(0, name@.len() as int) =~= name@);
            }
            if nm >= 6 && m <= nm - 6 {
                let tag = name.substring_char(m + 1, m + 6);
                if eq_str(tag, "jp_ja") {
                    0
                } else if eq_str(tag, "us_en") {
                    1
                } else if eq_str(tag, "us_fr") {
                    2
                } else if eq_str(tag, "us_es") {
                    3
                } else if eq_str(tag, "eu_en") {
                    4
                } else if eq_str(tag, "eu_fr") {
                    5
                } else if eq_str(tag, "eu_es") {
                    6
                } else if eq_str(tag, "eu_de") {
                    7
                } else if eq_str(tag, "eu_nl") {
                    8
                } else if eq_str(tag, "eu_it") {
                    9
                } else if eq_str(tag, "eu_ru") {
                    10
                } else if eq_str(tag, "kr_ko") {
                    11
                } else if eq_str(tag, "zh_cn") {
                    12
                } else if eq_str(tag, "zh_tw") {
                    13
                } else {
                    1
                }
            } else {
                1
            }
        },
    }
}

/// Raising a size entry to a candidate size: the recorded decompressed size
/// only ever grows.
pub open spec fn negotiate_entry(e: SizeEntry, size: u32) -> SizeEntry {
    SizeEntry { decomp_size: if e.decomp_size < size { size } else { e.decomp_size }, ..e }
}

/// The backup slot after one negotiation: captured once, never overwritten.
pub open spec fn backup_after(b: Option<SizeEntry>, e: SizeEntry) -> Option<SizeEntry> {
    match b {
        Some(x) => Some(x),
        None => Some(e),
    }
}

impl FileCtx {
    pub fn new() -> (r: Self)
        ensures
            r.path@ == Seq::<char>::empty(),
            r.hash == 0,
            r.filesize == 0,
            r.virtual_file == false,
            r.orig_subfile is None,
    {
        FileCtx { path: String::new(), hash: 0, filesize: 0, virtual_file: false, orig_subfile: None }
    }

    /// The region this record targets: the tag embedded in its filename, or
    /// the runtime's active region when none is present.
    pub fn get_region(&self, default_region: u32) -> (r: u32)
        ensures
            r == region_of(self.path@, default_region),
    {
        region_for_path(self.path.as_str(), default_region)
    }

    /// Negotiate this record's size against the archive's size table: if the
    /// fingerprint is unknown there, nothing changes; otherwise the original
    /// entry is backed up (first capture only) and the recorded decompressed
    /// size is raised to this record's size when it is larger.
    pub fn filesize_replacement(&mut self, table: &mut ArchiveTable)
        ensures
            final(self).path == old(self).path,
            final(self).hash == old(self).hash,
            final(self).filesize == old(self).filesize,
            final(self).virtual_file == old(self).virtual_file,
            !old(table)@.contains_key(old(self).hash) ==> final(table)@ == old(table)@
                && final(self).orig_subfile == old(self).orig_subfile,
            old(table)@.contains_key(old(self).hash) ==> {
                let entry = old(table)@[old(self).hash];
                &&& final(self).orig_subfile == backup_after(old(self).orig_subfile, entry)
                &&& final(table)@ == old(table)@.insert(
                    old(self).hash,
                    negotiate_entry(entry, old(self).filesize),
                )
            },
    {
        let hash = self.hash;
        match table.get_data(hash) {
            None => {},
            Some(entry) => {
                if self.orig_subfile.is_none() {
                    self.orig_subfile = Some(entry);
                }
                if entry.decomp_size < self.filesize {
                    table.insert_entry(
                        hash,
                        SizeEntry {
                            offset_in_folder: entry.offset_in_folder,
                            comp_size: entry.comp_size,
                            decomp_size: self.filesize,
                            flags: entry.flags,
                        },
                    );
                } else {
                    proof {
                        assert(old(table)@.insert(hash, negotiate_entry(entry, self.filesize))
                            =~= old(table)@);
                    }
                }
            },
        }
    }
}

/// One run of repeated negotiations over a table entry and a backup slot.
pub open spec fn negotiate_run(e: SizeEntry, b: Option<SizeEntry>, sizes: Seq<u32>) -> (
    SizeEntry,
    Option<SizeEntry>,
)
    decreases sizes.len(),
{
    if sizes.len() == 0 {
        (e, b)
    } else {
        negotiate_run(negotiate_entry(e, sizes[0]), backup_after(b, e), sizes.drop_first())
    }
}

/// The largest of a sequence of candidate sizes (0 when there are none).
pub open spec fn max_size(sizes: Seq<u32>) -> u32
    decreases sizes.len(),
{
    if sizes.len() == 0 {
        0
    } else {
        let m = max_size(sizes.drop_first());
        if sizes[0] > m {
            sizes[0]
        } else {
            m
        }
    }
}

proof fn lemma_negotiate_run_props(e: SizeEntry, b: Option<SizeEntry>, sizes: Seq<u32>)
    ensures
        negotiate_run(e, b, sizes).0.decomp_size == if max_size(sizes) > e.decomp_size {
            max_size(sizes)
        } else {
            e.decomp_size
        },
        negotiate_run(e, b, sizes).0.offset_in_folder == e.offset_in_folder,
        negotiate_run(e, b, sizes).0.comp_size == e.comp_size,
        negotiate_run(e, b, sizes).0.flags == e.flags,
        negotiate_run(e, b, sizes).1 == if sizes.len() == 0 {
            b
        } else {
            backup_after(b, e)
        },
    decreases sizes.len(),
{
    if sizes.len() > 0 {
        lemma_negotiate_run_props(
            negotiate_entry(e, sizes[0]),
            backup_after(b, e),
            sizes.drop_first(),
        );
    }
}

/// Law: over any run of size negotiations against one table entry, the
/// recorded decompressed size ends at the maximum of its original value and
/// every candidate size — it never shrinks — the other fields are untouched,
/// and the backup captures the original entry exactly once, on the first
/// negotiation.
pub proof fn lemma_size_negotiation(e: SizeEntry, sizes: Seq<u32>)
    ensures
        negotiate_run(e, None, sizes).0.decomp_size == if max_size(sizes) > e.decomp_size {
            max_size(sizes)
        } else {
            e.decomp_size
        },
        negotiate_run(e, None, sizes).0.offset_in_folder == e.offset_in_folder,
        negotiate_run(e, None, sizes).0.comp_size == e.comp_size,
        negotiate_run(e, None, sizes).0.flags == e.flags,
        sizes.len() > 0 ==> negotiate_run(e, None, sizes).1 == Some(e),
        sizes.len() == 0 ==> negotiate_run(e, None, sizes).1 is None,
{
    lemma_negotiate_run_props(e, None, sizes);
}

/// The overlay index: at most one winning record per fingerprint.
pub struct ArcFiles(pub HashMap<u64, FileCtx>);

/// A map of records seen through their views.
pub open spec fn arc_view(m: Map<u64, FileCtx>) -> Map<u64, FileCtxV> {
    Map::new(|h: u64| m.contains_key(h), |h: u64| m[h]@)
}

impl View for ArcFiles {
    type V = Map<u64, FileCtxV>;

    open spec fn view(&self) -> Map<u64, FileCtxV> {
        arc_view(self.0@)
    }
}

/// The record left for a fingerprint after ingesting a candidate: a fresh
/// insertion, or an update of the physical path and size of the present
/// winner (its backup and virtual flag survive).
pub open spec fn merged_record(m: Map<u64, FileCtxV>, c: FileCtxV) -> FileCtxV {
    if m.contains_key(c.hash) {
        FileCtxV { path: c.path, filesize: c.filesize, ..m[c.hash] }
    } else {
        c
    }
}

impl ArcFiles {
    pub fn new() -> (r: Self)
        ensures
            r@ == Map::<u64, FileCtxV>::empty(),
    {
        let r = ArcFiles(HashMap::new());
        proof {
            assert(r@ =~= Map::<u64, FileCtxV>::empty());
        }
        r
    }

    pub fn get(&self, hash: u64) -> (r: Option<&FileCtx>)
        ensures
            match r {
                Some(c) => self@.contains_key(hash) && c@ == self@[hash],
                None => !self@.contains_key(hash),
            },
    {
        self.0.get(&hash)
    }

    /// Resolve the physical path selected for a fingerprint, if any.
    pub fn resolve_physical_path(&self, hash: u64) -> (r: Option<&String>)
        ensures
            match r {
                Some(p) => self@.contains_key(hash) && p@ == self@[hash].path,
                None => !self@.contains_key(hash),
            },
    {
        match self.0.get(&hash) {
            Some(c) => Some(&c.path),
            None => None,
        }
    }

    /// Ingest one candidate record, keeping at most one winner per
    /// fingerprint: the latest candidate's path and size always win.
    pub fn insert_or_update(&mut self, record: FileCtx)
        ensures
            final(self)@ == old(self)@.insert(record.hash, merged_record(old(self)@, record@)),
    {
        let hash = record.hash;
        let existing: Option<(u64, bool, Option<SizeEntry>)> = match self.0.get(&hash) {
            Some(c) => Some((c.hash, c.virtual_file, c.orig_subfile)),
            None => None,
        };
        match existing {
            Some((ehash, evirt, eorig)) => {
                let merged = FileCtx {
                    path: record.path,
                    hash: ehash,
                    filesize: record.filesize,
                    virtual_file: evirt,
                    orig_subfile: eorig,
                };
                self.0.insert(hash, merged);
                proof {
                    assert(final(self)@ =~= old(self)@.insert(
                        record.hash,
                        merged_record(old(self)@, record@),
                    ));
                }
            },
            None => {
                self.0.insert(hash, record);
                proof {
                    assert(final(self)@ =~= old(self)@.insert(
                        record.hash,
                        merged_record(old(self)@, record@),
                    ));
                }
            },
        }
    }
}

/// Repeated ingestion, as `insert_or_update` performs it.
pub open spec fn ingest_all(m: Map<u64, FileCtxV>, rs: Seq<FileCtxV>) -> Map<u64, FileCtxV>
    decreases rs.len(),
{
    if rs.len() == 0 {
        m
    } else {
        ingest_all(m.insert(rs[0].hash, merged_record(m, rs[0])), rs.drop_first())
    }
}

/// Law: after ingesting any run of candidate records sharing one
/// fingerprint, exactly one record remains for it — carrying the
/// last-ingested candidate's physical path and size — and every other
/// fingerprint's record is untouched.
pub proof fn lemma_flat_scan_last_wins(m: Map<u64, FileCtxV>, rs: Seq<FileCtxV>, h: u64)
    requires
        rs.len() > 0,
        forall|i: int| 0 <= i < rs.len() ==> rs[i].hash == h,
    ensures
        ingest_all(m, rs).contains_key(h),
        ingest_all(m, rs)[h].path == rs.last().path,
        ingest_all(m, rs)[h].filesize == rs.last().filesize,
        ingest_all(m, rs).dom() == m.dom().insert(h),
        forall|k: u64|
            k != h && m.contains_key(k) ==> ingest_all(m, rs)[k] == m[k],
    decreases rs.len(),
{
    let m1 = m.insert(rs[0].hash, merged_record(m, rs[0]));
    assert(rs[0].hash == h);
    if rs.len() == 1 {
        assert(rs.drop_first().len() == 0);
        assert(ingest_all(m, rs) == ingest_all(m1, rs.drop_first()));
        assert(ingest_all(m, rs) == m1);
        assert(m1.dom() =~= m.dom().insert(h));
        assert forall|k: u64| k != h && m.contains_key(k) implies ingest_all(m, rs)[k] == m[k] by {
            assert(m1[k] == m[k]);
        }
    } else {
        lemma_flat_scan_last_wins(m1, rs.drop_first(), h);
        assert(rs.drop_first().last() == rs.last());
        assert(ingest_all(m, rs).dom() =~= m.dom().insert(h));
        assert forall|k: u64| k != h && m.contains_key(k) implies ingest_all(m, rs)[k] == m[k] by {
            assert(m1.contains_key(k) && m1[k] == m[k]);
            assert(ingest_all(m1, rs.drop_first())[k] == m1[k]);
        }
    }
}

/// A directory tree presented as plain data. The caller (outside this
/// library) reads the real filesystem into this shape; the scan logic over
/// it is verified.
pub enum FsEntry {
    File { name: String, size: u64 },
    Dir { name: String, size: u64, entries: Vec<FsEntry> },
}

/// The internal path hashed for a candidate: the part of the physical path
/// past the scan root, normalized.
pub open spec fn game_path_of(path: Seq<char>, arc_dir_len: int) -> Seq<char> {
    normalize_spec(path.skip(arc_dir_len + 1))
}

/// What one scanned entry yields: a candidate record, or the reason it is
/// skipped.
pub open spec fn candidate_spec(path: Seq<char>, size: u64, arc_dir_len: int, region: u32) -> Result<
    FileCtxV,
    ScanError,
> {
    if hidden_name(path) {
        Err(ScanError::HiddenEntry)
    } else if !has_extension(path) {
        Err(ScanError::MissingExtension)
    } else if region_of(path, region) != region {
        Err(ScanError::RegionMismatch)
    } else {
        Ok(
            FileCtxV {
                path: path,
                hash: fingerprint_of(game_path_of(path, arc_dir_len)),
                filesize: size as u32,
                virtual_file: false,
                orig_subfile: None,
            },
        )
    }
}

pub open spec fn scan_result_view(r: Result<FileCtx, ScanError>) -> Result<FileCtxV, ScanError> {
    match r {
        Ok(c) => Ok(c@),
        Err(e) => Err(e),
    }
}

impl ArcFiles {
    /// Classify one filesystem entry: hidden names and extension-less
    /// entries are skipped, regional variants for another region are
    /// filtered, and the survivors become candidate records fingerprinted
    /// over their game-internal path.
    pub fn visit_file(full_path: &str, size: u64, arc_dir_len: usize, active_region: u32) -> (r:
        Result<FileCtx, ScanError>)
        requires
            arc_dir_len + 1 <= full_path@.len(),
        ensures
            scan_result_view(r) == candidate_spec(
                full_path@,
                size,
                arc_dir_len as int,
                active_region,
            ),
    {
        let n = full_path.unicode_len();
        let fs: usize = match find_last(full_path, '/') {
            Some(k) => k + 1,
            None => 0,
        };
        proof {
            assert(fs as int == filename_start(full_path@));
        }
        if fs < n && full_path.get_char(fs) == '.' {
            return Err(ScanError::HiddenEntry);
        }
        if !has_extension_exec(full_path) {
            return Err(ScanError::MissingExtension);
        }
        let reg = region_for_path(full_path, active_region);
        if reg != active_region {
            return Err(ScanError::RegionMismatch);
        }
        let game = full_path.substring_char(arc_dir_len + 1, n);
        proof {
            assert(game@ =~= full_path@.skip(arc_dir_len + 1));
        }
        let hash = fingerprint(game);
        Ok(
            FileCtx {
                path: String::from_str(full_path),
                hash,
                filesize: #[verifier::truncate] (size as u32),
                virtual_file: false,
                orig_subfile: None,
            },
        )
    }
}

fn join_path(dir: &str, name: &str) -> (r: String)
    ensures
        r@ == dir@ + seq!['/'] + name@,
{
    let r = String::from_str(dir).concat("/").concat(name);
    proof {
        reveal_strlit("/");
        assert("/"@ =~= seq!['/']);
        assert(r@ =~= dir@ + seq!['/'] + name@);
    }
    r
}

/// The overlay map after one scanned entry, flat-scan rules: files and
/// extension-bearing directories become candidates; plain directories are
/// walked recursively.
pub open spec fn scan_entry_spec(
    m: Map<u64, FileCtxV>,
    dir_path: Seq<char>,
    e: FsEntry,
    arc_dir_len: int,
    region: u32,
) -> Map<u64, FileCtxV>
    decreases e,
{
    match e {
        FsEntry::File { name, size } => apply_candidate(
            m,
            dir_path + seq!['/'] + name@,
            size,
            arc_dir_len,
            region,
        ),
        FsEntry::Dir { name, size, entries } => {
            let full = dir_path + seq!['/'] + name@;
            if has_extension(full) {
                apply_candidate(m, full, size, arc_dir_len, region)
            } else {
                scan_entries_spec(m, full, entries@, arc_dir_len, region)
            }
        },
    }
}

/// The overlay map after one scanned directory's entries, in order.
pub open spec fn scan_entries_spec(
    m: Map<u64, FileCtxV>,
    dir_path: Seq<char>,
    es: Seq<FsEntry>,
    arc_dir_len: int,
    region: u32,
) -> Map<u64, FileCtxV>
    decreases es,
{
    if es.len() == 0 {
        m
    } else {
        scan_entries_spec(
            scan_entry_spec(m, dir_path, es[0], arc_dir_len, region),
            dir_path,
            es.drop_first(),
            arc_dir_len,
            region,
        )
    }
}

pub open spec fn apply_candidate(
    m: Map<u64, FileCtxV>,
    path: Seq<char>,
    size: u64,
    arc_dir_len: int,
    region: u32,
) -> Map<u64, FileCtxV> {
    match candidate_spec(path, size, arc_dir_len, region) {
        Ok(c) => m.insert(c.hash, merged_record(m, c)),
        Err(_) => m,
    }
}

proof fn lemma_scan_entries_snoc(
    m: Map<u64, FileCtxV>,
    dir_path: Seq<char>,
    es: Seq<FsEntry>,
    e: FsEntry,
    arc_dir_len: int,
    region: u32,
)
    ensures
        scan_entries_spec(m, dir_path, es.push(e), arc_dir_len, region) == scan_entry_spec(
            scan_entries_spec(m, dir_path, es, arc_dir_len, region),
            dir_path,
            e,
            arc_dir_len,
            region,
        ),
    decreases es.len(),
{
    if es.len() == 0 {
        assert(es.push(e)[0] == e);
        assert(es.push(e).drop_first() =~= Seq::<FsEntry>::empty());
        let m1 = scan_entry_spec(m, dir_path, e, arc_dir_len, region);
        assert(scan_entries_spec(m, dir_path, es.push(e), arc_dir_len, region)
            == scan_entries_spec(m1, dir_path, es.push(e).drop_first(), arc_dir_len, region));
        assert(scan_entries_spec(m1, dir_path, Seq::<FsEntry>::empty(), arc_dir_len, region) == m1);
        assert(scan_entries_spec(m, dir_path, es, arc_dir_len, region) == m);
    } else {
        assert(es.push(e)[0] == es[0]);
        assert(es.push(e).drop_first() =~= es.drop_first().push(e));
        lemma_scan_entries_snoc(
            scan_entry_spec(m, dir_path, es[0], arc_dir_len, region),
            dir_path,
            es.drop_first(),
            e,
            arc_dir_len,
            region,
        );
    }
}

impl ArcFiles {
    /// Walk one directory's entries, flat-scan rules: later candidates for a
    /// fingerprint overwrite earlier ones (path and size), directories with
    /// an extension are taken as single pseudo-files, plain directories are
    /// recursed into.
    pub fn visit_dir(
        &mut self,
        dir_path: &str,
        entries: &Vec<FsEntry>,
        arc_dir_len: usize,
        active_region: u32,
    )
        requires
            arc_dir_len <= dir_path@.len(),
        ensures
            final(self)@ == scan_entries_spec(
                old(self)@,
                dir_path@,
                entries@,
                arc_dir_len as int,
                active_region,
            ),
        decreases entries@,
    {
        let ghost m0 = self@;
        let mut i: usize = 0;
        while i < entries.len()
            invariant
                0 <= i <= entries.len(),
                arc_dir_len <= dir_path@.len(),
                self@ == scan_entries_spec(
                    m0,
                    dir_path@,
                    entries@.take(i as int),
                    arc_dir_len as int,
                    active_region,
                ),
            decreases entries.len() - i,
        {
            let e = &entries[i];
            match e {
                FsEntry::File { name, size } => {
                    let full = join_path(dir_path, name.as_str());
                    match Self::visit_file(full.as_str(), *size, arc_dir_len, active_region) {
                        Ok(ctx) => {
                            self.insert_or_update(ctx);
                        },
                        Err(_) => {},
                    }
                },
                FsEntry::Dir { name, size, entries: children } => {
                    let full = join_path(dir_path, name.as_str());
                    if has_extension_exec(full.as_str()) {
                        match Self::visit_file(full.as_str(), *size, arc_dir_len, active_region) {
                            Ok(ctx) => {
                                self.insert_or_update(ctx);
                            },
                            Err(_) => {},
                        }
                    } else {
                        proof {
                            assert(decreases_to!(entries@ => entries@[i as int]));
                            assert(decreases_to!(entries@[i as int] => children@));
                        }
                        self.visit_dir(full.as_str(), children, arc_dir_len, active_region);
                    }
                },
            }
            proof {
                assert(entries@.take(i + 1) =~= entries@.take(i as int).push(entries@[i as int]));
                lemma_scan_entries_snoc(
                    m0,
                    dir_path@,
                    entries@.take(i as int),
                    entries@[i as int],
                    arc_dir_len as int,
                    active_region,
                );
            }
            i += 1;
        }
        proof {
            assert(entries@.take(entries@.len() as int) =~= entries@);
        }
    }
}

/// The overlay map after a compatibility scan over a set of mod root
/// directories: hidden names are skipped, files at the top level are
/// ignored, and each directory is scanned with itself as the root.
pub open spec fn umm_entry_spec(
    m: Map<u64, FileCtxV>,
    dir_path: Seq<char>,
    e: FsEntry,
    region: u32,
) -> Map<u64, FileCtxV> {
    match e {
        FsEntry::File { .. } => m,
        FsEntry::Dir { name, entries, .. } => {
            if name@.len() > 0 && name@[0] == '.' {
                m
            } else {
                let full = dir_path + seq!['/'] + name@;
                scan_entries_spec(m, full, entries@, full.len() as int, region)
            }
        },
    }
}

pub open spec fn umm_spec(
    m: Map<u64, FileCtxV>,
    dir_path: Seq<char>,
    es: Seq<FsEntry>,
    region: u32,
) -> Map<u64, FileCtxV>
    decreases es.len(),
{
    if es.len() == 0 {
        m
    } else {
        umm_spec(umm_entry_spec(m, dir_path, es[0], region), dir_path, es.drop_first(), region)
    }
}

proof fn lemma_umm_snoc(
    m: Map<u64, FileCtxV>,
    dir_path: Seq<char>,
    es: Seq<FsEntry>,
    e: FsEntry,
    region: u32,
)
    ensures
        umm_spec(m, dir_path, es.push(e), region) == umm_entry_spec(
            umm_spec(m, dir_path, es, region),
            dir_path,
            e,
            region,
        ),
    decreases es.len(),
{
    if es.len() == 0 {
        assert(es.push(e)[0] == e);
        assert(es.push(e).drop_first() =~= Seq::<FsEntry>::empty());
        let m1 = umm_entry_spec(m, dir_path, e, region);
        assert(umm_spec(m, dir_path, es.push(e), region)
            == umm_spec(m1, dir_path, es.push(e).drop_first(), region));
        assert(umm_spec(m1, dir_path, Seq::<FsEntry>::empty(), region) == m1);
        assert(umm_spec(m, dir_path, es, region) == m);
    } else {
        assert(es.push(e)[0] == es[0]);
        assert(es.push(e).drop_first() =~= es.drop_first().push(e));
        lemma_umm_snoc(umm_entry_spec(m, dir_path, es[0], region), dir_path, es.drop_first(), e, region);
    }
}

impl ArcFiles {
    /// Compatibility scan over a directory of drop-in mod directories: each
    /// non-hidden subdirectory is scanned as its own root.
    pub fn visit_umm_dirs(&mut self, dir_path: &str, entries: &Vec<FsEntry>, active_region: u32)
        ensures
            final(self)@ == umm_spec(old(self)@, dir_path@, entries@, active_region),
    {
        let ghost m0 = self@;
        let mut i: usize = 0;
        while i < entries.len()
            invariant
                0 <= i <= entries.len(),
                self@ == umm_spec(m0, dir_path@, entries@.take(i as int), active_region),
            decreases entries.len() - i,
        {
            let e = &entries[i];
            match e {
                FsEntry::File { .. } => {},
                FsEntry::Dir { name, size: _, entries: children } => {
                    let hidden = if name.as_str().unicode_len() > 0 {
                        name.as_str().get_char(0) == '.'
                    } else {
                        false
                    };
                    if !hidden {
                        let full = join_path(dir_path, name.as_str());
                        let root_len = full.as_str().unicode_len();
                        self.visit_dir(full.as_str(), children, root_len, active_region);
                    }
                },
            }
            proof {
                assert(entries@.take(i + 1) =~= entries@.take(i as int).push(entries@[i as int]));
                lemma_umm_snoc(
                    m0,
                    dir_path@,
                    entries@.take(i as int),
                    entries@[i as int],
                    active_region,
                );
            }
            i += 1;
        }
        proof {
            assert(entries@.take(entries@.len() as int) =~= entries@);
        }
    }
}

} // verus!
