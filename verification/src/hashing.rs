//! Path normalization and fingerprinting.
//!
//! A candidate path is normalized exactly as the archive format expects —
//! `;` becomes `:`, an embedded region tag is stripped, and an `.mp4` suffix
//! is rewritten to `.webm` — and the result is hashed into the 64-bit
//! fingerprint that keys every overlay lookup.

use vstd::prelude::*;
use vstd::string::StrSliceExecFns;
use vstd::string::StringExecFns;

verus! {

/// The CRC-32 (IEEE) checksum of a byte sequence, as `crc32fast` computes
/// it: a pure function of the bytes alone.
pub uninterp spec fn crc32_of(b: Seq<u8>) -> u32;

/// Relies on `crc32fast::hash`: one CRC-32 (IEEE) checksum over the whole
/// slice, depending on the bytes alone.
#[verifier::external_body]
fn crc32_of_slice(b: &[u8]) -> (r: u32)
    ensures
        r == crc32_of(b@),
{
    crc32fast::hash(b)
}

/// The archive's 40-bit path hash: the string's UTF-8 byte length in the
/// upper bits, its CRC-32 in the lower 32.
pub open spec fn fingerprint_of(s: Seq<char>) -> u64 {
    (((vstd::utf8::encode_utf8(s).len() as u64) << 32) + crc32_of(vstd::utf8::encode_utf8(s))) as u64
}

/// Relies on `String::push`: appends exactly the given character.
#[verifier::external_body]
fn push_char(s: &mut String, c: char)
    ensures
        final(s)@ == old(s)@.push(c),
{
    s.push(c);
}

/// Index of the first character of the final path component (just past the
/// last `/`, or 0 when the path has no separator).
pub open spec fn filename_start(s: Seq<char>) -> int {
    match s.index_of_last('/') {
        Some(k) => k + 1,
        None => 0,
    }
}

/// Step 1 of normalization: `;` stands in for the reserved `:` on disk.
pub open spec fn replace_semicolons(s: Seq<char>) -> Seq<char> {
    s.map_values(|c: char| if c == ';' { ':' } else { c })
}

/// Step 2 of normalization: if the filename carries a region tag (a `+`
/// before the final `.`), drop everything from the `+` up to the final `.`.
pub open spec fn strip_region_tag(s: Seq<char>) -> Seq<char> {
    let fs = filename_start(s);
    match s.subrange(fs, s.len() as int).index_of_first('+') {
        None => s,
        Some(p0) => {
            let p = fs + p0;
            match s.index_of_last('.') {
                None => s,
                Some(d) => if p < d {
                    s.take(p) + s.skip(d)
                } else {
                    s
                },
            }
        },
    }
}

pub open spec fn mp4_suffix() -> Seq<char> {
    seq!['.', 'm', 'p', '4']
}

pub open spec fn webm_suffix() -> Seq<char> {
    seq!['.', 'w', 'e', 'b', 'm']
}

/// Step 3 of normalization: the archive only indexes the transcoded
/// extension, so `.mp4` becomes `.webm`.
pub open spec fn rewrite_mp4(s: Seq<char>) -> Seq<char> {
    if s.len() >= 4 && s.skip(s.len() - 4) == mp4_suffix() {
        s.take(s.len() - 4) + webm_suffix()
    } else {
        s
    }
}

/// The complete normalization applied before hashing.
pub open spec fn normalize_spec(s: Seq<char>) -> Seq<char> {
    rewrite_mp4(strip_region_tag(replace_semicolons(s)))
}

proof fn lemma_first_index_characterized(s: Seq<char>, c: char, k: int)
    requires
        0 <= k < s.len(),
        s[k] == c,
        forall|j: int| 0 <= j < k ==> s[j] != c,
    ensures
        s.index_of_first(c) == Some(k),
{
    s.index_of_first_ensures(c);
    assert(s.contains(c));
    let idx = s.index_of_first(c)->Some_0;
    if idx < k {
        assert(s[idx] != c);
    }
    if idx > k {
        assert(s[k] != c);
    }
}

proof fn lemma_no_index_of_first(s: Seq<char>, c: char)
    requires
        forall|j: int| 0 <= j < s.len() ==> s[j] != c,
    ensures
        s.index_of_first(c) is None,
{
    s.index_of_first_ensures(c);
    if s.contains(c) {
        let w = choose|w: int| 0 <= w < s.len() && s[w] == c;
        assert(s[w] != c);
    }
}

proof fn lemma_last_index_characterized(s: Seq<char>, c: char, k: int)
    requires
        0 <= k < s.len(),
        s[k] == c,
        forall|j: int| k < j < s.len() ==> s[j] != c,
    ensures
        s.index_of_last(c) == Some(k),
{
    s.index_of_last_ensures(c);
    assert(s.contains(c));
    let idx = s.index_of_last(c)->Some_0;
    if idx < k {
        assert(s[k] != c);
    }
    if idx > k {
        assert(s[idx] != c);
    }
}

proof fn lemma_no_index_of_last(s: Seq<char>, c: char)
    requires
        forall|j: int| 0 <= j < s.len() ==> s[j] != c,
    ensures
        s.index_of_last(c) is None,
{
    s.index_of_last_ensures(c);
    if s.contains(c) {
        let w = choose|w: int| 0 <= w < s.len() && s[w] == c;
        assert(s[w] != c);
    }
}

/// Character-wise string equality.
pub(crate) fn eq_str(a: &str, b: &str) -> (r: bool)
    ensures
        r == (a@ == b@),
{
    let n = a.unicode_len();
    let m = b.unicode_len();
    if n != m {
        proof {
            if a@ == b@ {
                assert(a@.len() == b@.len());
            }
        }
        return false;
    }
    let mut i: usize = 0;
    while i < n
        invariant
            0 <= i <= n,
            n == a@.len(),
            n == b@.len(),
            forall|j: int| 0 <= j < i ==> a@[j] == b@[j],
        decreases n - i,
    {
        if a.get_char(i) != b.get_char(i) {
            proof {
                if a@ == b@ {
                    assert(a@[i as int] == b@[i as int]);
                }
            }
            return false;
        }
        i += 1;
    }
    proof {
        assert(a@ =~= b@);
    }
    true
}

/// Scan for the last occurrence of `c` in `s`.
pub(crate) fn find_last(s: &str, c: char) -> (r: Option<usize>)
    ensures
        r matches Some(k) ==> k < s@.len() && s@.index_of_last(c) == Some(k as int),
        r is None ==> s@.index_of_last(c) is None,
{
    let n = s.unicode_len();
    let mut i: usize = 0;
    let mut found: Option<usize> = None;
    while i < n
        invariant
            0 <= i <= n,
            n == s@.len(),
            match found {
                Some(k) => 0 <= k < i && s@[k as int] == c && (forall|j: int|
                    k < j < i ==> s@[j] != c),
                None => forall|j: int| 0 <= j < i ==> s@[j] != c,
            },
        decreases n - i,
    {
        if s.get_char(i) == c {
            found = Some(i);
        }
        i += 1;
    }
    proof {
        match found {
            Some(k) => lemma_last_index_characterized(s@, c, k as int),
            None => lemma_no_index_of_last(s@, c),
        }
    }
    found
}

/// Scan for the first occurrence of `c` in `s` at or past `from`.
pub(crate) fn find_first_from(s: &str, c: char, from: usize) -> (r: Option<usize>)
    requires
        from <= s@.len(),
    ensures
        r matches Some(k) ==> from <= k && s@.subrange(from as int, s@.len() as int).index_of_first(
            c,
        ) == Some(k - from),
        r is None ==> s@.subrange(from as int, s@.len() as int).index_of_first(c) is None,
{
    let ghost sub = s@.subrange(from as int, s@.len() as int);
    let n = s.unicode_len();
    let mut i: usize = from;
    while i < n
        invariant
            from <= i <= n,
            n == s@.len(),
            sub == s@.subrange(from as int, s@.len() as int),
            forall|j: int| from <= j < i ==> s@[j] != c,
        decreases n - i,
    {
        if s.get_char(i) == c {
            proof {
                assert(sub[i - from] == s@[i as int]);
                assert(forall|j: int| 0 <= j < i - from ==> sub[j] == s@[j + from] && sub[j] != c);
                lemma_first_index_characterized(sub, c, i - from);
            }
            return Some(i);
        }
        i += 1;
    }
    proof {
        assert(forall|j: int| 0 <= j < sub.len() ==> sub[j] == s@[j + from] && sub[j] != c);
        lemma_no_index_of_first(sub, c);
    }
    None
}

/// Normalize a path exactly as the archive's indexing does: substitute the
/// reserved separator, strip the region tag, and rewrite the video suffix.
pub fn normalize(path: &str) -> (r: String)
    ensures
        r@ == normalize_spec(path@),
{
    let n = path.unicode_len();
    let mut t = String::new();
    let mut i: usize = 0;
    while i < n
        invariant
            0 <= i <= n,
            n == path@.len(),
            t@ == replace_semicolons(path@).take(i as int),
        decreases n - i,
    {
        let c = path.get_char(i);
        let c2: char = if c == ';' {
            ':'
        } else {
            c
        };
        push_char(&mut t, c2);
        proof {
            assert(replace_semicolons(path@).take(i + 1) =~= replace_semicolons(path@).take(
                i as int,
            ).push(c2));
        }
        i += 1;
    }
    proof {
        assert(t@ =~= replace_semicolons(path@));
    }
    let ghost u = t@;

    // Strip the region tag.
    let ts = t.as_str();
    let m = ts.unicode_len();
    let fs: usize = match find_last(ts, '/') {
        Some(k) => k + 1,
        None => 0,
    };
    proof {
        assert(fs as int == filename_start(u));
    }
    let stripped: String = match find_first_from(ts, '+', fs) {
        Some(p) => {
            match find_last(ts, '.') {
                Some(d) => {
                    if p < d {
                        let head = ts.substring_char(0, p);
                        let tail = ts.substring_char(d, m);
                        String::from_str(head).concat(tail)
                    } else {
                        t
                    }
                },
                None => t,
            }
        },
        None => t,
    };
    proof {
        assert(stripped@ == strip_region_tag(u));
    }
    let ghost v = stripped@;

    // Rewrite a trailing ".mp4" to ".webm".
    let ss = stripped.as_str();
    let sl = ss.unicode_len();
    if sl >= 4 && ss.get_char(sl - 4) == '.' && ss.get_char(sl - 3) == 'm' && ss.get_char(sl - 2)
        == 'p' && ss.get_char(sl - 1) == '4' {
        let head = ss.substring_char(0, sl - 4);
        let r = String::from_str(head).concat(".webm");
        proof {
            assert(v.skip(v.len() - 4) =~= mp4_suffix());
            reveal_strlit(".webm");
            assert(".webm"@ =~= webm_suffix());
        }
        r
    } else {
        proof {
            if v.len() >= 4 && v.skip(v.len() - 4) == mp4_suffix() {
                assert(v.skip(v.len() - 4)[0] == v[v.len() - 4]);
                assert(v.skip(v.len() - 4)[1] == v[v.len() - 3]);
                assert(v.skip(v.len() - 4)[2] == v[v.len() - 2]);
                assert(v.skip(v.len() - 4)[3] == v[v.len() - 1]);
            }
        }
        stripped
    }
}

/// The fingerprint of a path: its normalization, hashed by the archive's
/// own algorithm.
/// The archive's hash of a string as it stands, with no normalization.
pub fn hash40(path: &str) -> (r: u64)
    ensures
        r == fingerprint_of(path@),
{
    let bytes = path.as_bytes();
    let crc = crc32_of_slice(bytes);
    let blen = bytes.len();
    let hi: u64 = (blen as u64) << 32;
    proof {
        let b: u64 = blen as u64;
        assert((b << 32) <= 0xFFFFFFFF00000000u64) by (bit_vector);
    }
    hi + (crc as u64)
}

pub fn fingerprint(path: &str) -> (r: u64)
    ensures
        r == fingerprint_of(normalize_spec(path@)),
{
    let n = normalize(path);
    hash40(n.as_str())
}

/// Law: fingerprinting is deterministic — one normalized path always maps to
/// one fingerprint value, in every run.
pub proof fn lemma_fingerprint_deterministic(p: Seq<char>)
    ensures
        fingerprint_of(p) == fingerprint_of(p),
{
}

pub open spec fn no_semi(x: Seq<char>) -> bool {
    forall|i: int| 0 <= i < x.len() ==> x[i] != ';'
}

pub open spec fn no_plus_in_filename(x: Seq<char>) -> bool {
    forall|i: int| filename_start(x) <= i < x.len() ==> x[i] != '+'
}

proof fn lemma_filename_start_bounds(x: Seq<char>)
    ensures
        0 <= filename_start(x) <= x.len(),
        forall|j: int| filename_start(x) <= j < x.len() ==> x[j] != '/',
        filename_start(x) > 0 ==> x[filename_start(x) - 1] == '/',
{
    x.index_of_last_ensures('/');
}

proof fn lemma_replace_noop(x: Seq<char>)
    requires
        no_semi(x),
    ensures
        replace_semicolons(x) == x,
{
    assert(replace_semicolons(x) =~= x);
}

proof fn lemma_replace_no_semi(x: Seq<char>)
    ensures
        no_semi(replace_semicolons(x)),
{
    assert forall|i: int| 0 <= i < replace_semicolons(x).len() implies replace_semicolons(x)[i]
        != ';' by {
        assert(replace_semicolons(x)[i] == if x[i] == ';' {
            ':'
        } else {
            x[i]
        });
    }
}

proof fn lemma_strip_no_semi(u: Seq<char>)
    requires
        no_semi(u),
    ensures
        no_semi(strip_region_tag(u)),
{
    let t = strip_region_tag(u);
    let fs = filename_start(u);
    lemma_filename_start_bounds(u);
    match u.subrange(fs, u.len() as int).index_of_first('+') {
        None => {},
        Some(p0) => {
            let p = fs + p0;
            match u.index_of_last('.') {
                None => {},
                Some(d) => {
                    if p < d {
                        u.subrange(fs, u.len() as int).index_of_first_ensures('+');
                        u.index_of_last_ensures('.');
                        assert forall|i: int| 0 <= i < t.len() implies t[i] != ';' by {
                            if i < p {
                                assert(t[i] == u[i]);
                            } else {
                                assert(t[i] == u[d + (i - p)]);
                            }
                        }
                    }
                },
            }
        },
    }
}

proof fn lemma_rewrite_no_semi(t: Seq<char>)
    requires
        no_semi(t),
    ensures
        no_semi(rewrite_mp4(t)),
{
    let w = rewrite_mp4(t);
    if t.len() >= 4 && t.skip(t.len() - 4) == mp4_suffix() {
        assert forall|i: int| 0 <= i < w.len() implies w[i] != ';' by {
            if i < t.len() - 4 {
                assert(w[i] == t[i]);
            } else {
                assert(w[i] == webm_suffix()[i - (t.len() - 4)]);
            }
        }
    }
}

/// A path whose filename carries no `+` is left alone by the region strip.
proof fn lemma_strip_noop_no_plus(x: Seq<char>)
    requires
        no_plus_in_filename(x),
    ensures
        strip_region_tag(x) == x,
{
    let fs = filename_start(x);
    lemma_filename_start_bounds(x);
    let sub = x.subrange(fs, x.len() as int);
    assert(forall|j: int| 0 <= j < sub.len() ==> sub[j] == x[fs + j] && sub[j] != '+');
    lemma_no_index_of_first(sub, '+');
}

/// Once the region tag is stripped, stripping again is a no-op, and the same
/// holds after the `.mp4` rewrite is applied on top.
proof fn lemma_strip_then_rewrite_stable(u: Seq<char>)
    ensures
        strip_region_tag(rewrite_mp4(strip_region_tag(u))) == rewrite_mp4(strip_region_tag(u)),
{
    let l = u.len() as int;
    let fs = filename_start(u);
    lemma_filename_start_bounds(u);
    let t = strip_region_tag(u);
    let w = rewrite_mp4(t);
    let sub = u.subrange(fs, l);
    match sub.index_of_first('+') {
        None => {
            sub.index_of_first_ensures('+');
            assert(t == u);
            lemma_rewrite_of_stripped_noop(u);
        },
        Some(p0) => {
            sub.index_of_first_ensures('+');
            let p = fs + p0;
            assert(u[p] == '+');
            assert(forall|j: int| fs <= j < p ==> u[j] == sub[j - fs] && u[j] != '+');
            match u.index_of_last('.') {
                None => {
                    u.index_of_last_ensures('.');
                    assert(t == u);
                    lemma_rewrite_of_stripped_noop(u);
                },
                Some(d) => {
                    u.index_of_last_ensures('.');
                    if p < d {
                        assert(t == u.take(p) + u.skip(d));
                        assert(t.len() == p + (l - d));
                        // the filename of `t` starts where it did in `u`
                        assert(fs <= p) by {
                            sub.index_of_first_ensures('+');
                        }
                        assert(forall|i: int| 0 <= i < p ==> t[i] == u[i]);
                        assert(forall|i: int| p <= i < t.len() ==> t[i] == u[d + (i - p)]);
                        assert(filename_start(t) == fs) by {
                            if fs > 0 {
                                assert(t[fs - 1] == u[fs - 1]);
                                assert(u[fs - 1] == '/');
                                assert forall|j: int| fs - 1 < j < t.len() implies t[j] != '/' by {
                                    if j < p {
                                        assert(t[j] == u[j]);
                                    } else {
                                        assert(t[j] == u[d + (j - p)]);
                                        assert(d + (j - p) >= fs);
                                    }
                                }
                                lemma_last_index_characterized(t, '/', fs - 1);
                            } else {
                                assert forall|j: int| 0 <= j < t.len() implies t[j] != '/' by {
                                    if j < p {
                                        assert(t[j] == u[j]);
                                    } else {
                                        assert(t[j] == u[d + (j - p)]);
                                    }
                                }
                                lemma_no_index_of_last(t, '/');
                            }
                        }
                        // the last '.' of `t` sits exactly at index p
                        assert(t[p] == u[d]);
                        assert forall|j: int| p < j < t.len() implies t[j] != '.' by {
                            assert(t[j] == u[d + (j - p)]);
                        }
                        lemma_last_index_characterized(t, '.', p);
                        // no '+' between the filename start and p
                        assert(forall|j: int| fs <= j < p ==> t[j] != '+');
                        if t.len() >= 4 && t.skip(t.len() - 4) == mp4_suffix() {
                            // the suffix ".mp4" begins exactly at the last '.'
                            let wl = t.len() as int;
                            assert(t[wl - 4] == mp4_suffix()[0]);
                            assert(wl - 4 <= p);
                            if wl - 4 < p {
                                assert(t[p] == t.skip(wl - 4)[p - (wl - 4)]);
                                assert(t[p] == '.');
                                assert(mp4_suffix()[p - (wl - 4)] != '.');
                            }
                            assert(wl - 4 == p);
                            assert(w == t.take(p) + webm_suffix());
                            assert(no_plus_in_filename(w)) by {
                                lemma_fstart_after_append(t, p, fs, webm_suffix());
                                assert forall|j: int| filename_start(w) <= j < w.len() implies w[j]
                                    != '+' by {
                                    if j < p {
                                        assert(w[j] == t[j]);
                                    } else {
                                        assert(w[j] == webm_suffix()[j - p]);
                                    }
                                }
                            }
                            lemma_strip_noop_no_plus(w);
                        } else {
                            assert(w == t);
                            // any '+' in the filename of `t` lies past the last '.',
                            // so no further strip fires
                            let tsub = t.subrange(fs, t.len() as int);
                            match tsub.index_of_first('+') {
                                None => {},
                                Some(q0) => {
                                    tsub.index_of_first_ensures('+');
                                    let q = fs + q0;
                                    assert(t[q] == '+');
                                    assert(q != p);
                                    assert(q > p);
                                    assert(!(q < p));
                                },
                            }
                        }
                    } else {
                        assert(t == u);
                        lemma_rewrite_of_stripped_noop(u);
                    }
                },
            }
        },
    }
}

/// Helper: appending a slash-free suffix to a slash-free-tail prefix keeps
/// the filename start unchanged.
proof fn lemma_fstart_after_append(t: Seq<char>, p: int, fs: int, sfx: Seq<char>)
    requires
        0 <= fs <= p <= t.len(),
        filename_start(t) == fs,
        forall|j: int| 0 <= j < sfx.len() ==> sfx[j] != '/',
        fs > 0 ==> t[fs - 1] == '/',
        forall|j: int| fs <= j < t.len() ==> t[j] != '/',
    ensures
        filename_start(t.take(p) + sfx) == fs,
{
    let w = t.take(p) + sfx;
    if fs > 0 {
        assert(w[fs - 1] == t[fs - 1]);
        assert forall|j: int| fs - 1 < j < w.len() implies w[j] != '/' by {
            if j < p {
                assert(w[j] == t[j]);
            } else {
                assert(w[j] == sfx[j - p]);
            }
        }
        lemma_last_index_characterized(w, '/', fs - 1);
    } else {
        assert forall|j: int| 0 <= j < w.len() implies w[j] != '/' by {
            if j < p {
                assert(w[j] == t[j]);
            } else {
                assert(w[j] == sfx[j - p]);
            }
        }
        lemma_no_index_of_last(w, '/');
    }
}

/// When the strip pass leaves `u` unchanged, the rewrite cannot create a new
/// strippable tag either.
proof fn lemma_rewrite_of_stripped_noop(u: Seq<char>)
    requires
        strip_region_tag(u) == u,
    ensures
        strip_region_tag(rewrite_mp4(u)) == rewrite_mp4(u),
{
    let l = u.len() as int;
    let fs = filename_start(u);
    lemma_filename_start_bounds(u);
    let sub = u.subrange(fs, l);
    if u.len() >= 4 && u.skip(l - 4) == mp4_suffix() {
        let w = rewrite_mp4(u);
        assert(w == u.take(l - 4) + webm_suffix());
        // `u` ends in ".mp4", so its last '.' exists and is at l - 4 or later;
        // the strip left `u` alone, so its filename has no '+' before that dot.
        assert(u[l - 4] == '.');
        match sub.index_of_first('+') {
            None => {
                sub.index_of_first_ensures('+');
                assert forall|j: int| fs <= j < l implies u[j] != '+' by {
                    assert(sub[j - fs] == u[j]);
                    if u[j] == '+' {
                        assert(sub.contains('+'));
                    }
                }
                assert(no_plus_in_filename(u));
                assert(no_plus_in_filename(w)) by {
                    lemma_fstart_after_append_general(u, l - 4, fs, webm_suffix());
                    assert forall|j: int| filename_start(w) <= j < w.len() implies w[j] != '+' by {
                        if j < l - 4 {
                            assert(w[j] == u[j]);
                        } else {
                            assert(w[j] == webm_suffix()[j - (l - 4)]);
                        }
                    }
                }
                lemma_strip_noop_no_plus(w);
            },
            Some(p0) => {
                sub.index_of_first_ensures('+');
                let p = fs + p0;
                assert(u[p] == '+');
                match u.index_of_last('.') {
                    None => {
                        u.index_of_last_ensures('.');
                        assert(u[l - 4] != '.');
                    },
                    Some(d) => {
                        u.index_of_last_ensures('.');
                        // strip was a no-op, so p >= d; the tail ".mp4" holds no '+',
                        // so p < l - 4 <= d — contradiction
                        assert(d >= l - 4);
                        assert(!(p < d));
                        if p >= l - 4 {
                            assert(u[p] == u.skip(l - 4)[p - (l - 4)]);
                            assert(mp4_suffix()[p - (l - 4)] != '+');
                        }
                        assert(false);
                    },
                }
            },
        }
    }
}

/// Same as `lemma_fstart_after_append`, phrased from the bounds lemma alone.
proof fn lemma_fstart_after_append_general(t: Seq<char>, p: int, fs: int, sfx: Seq<char>)
    requires
        0 <= fs <= p <= t.len(),
        filename_start(t) == fs,
        forall|j: int| 0 <= j < sfx.len() ==> sfx[j] != '/',
    ensures
        filename_start(t.take(p) + sfx) == fs,
{
    lemma_filename_start_bounds(t);
    lemma_fstart_after_append(t, p, fs, sfx);
}

/// Law: normalization is idempotent — normalizing an already-normalized path
/// changes nothing.
pub proof fn lemma_normalize_idempotent(s: Seq<char>)
    ensures
        normalize_spec(normalize_spec(s)) == normalize_spec(s),
{
    let u = replace_semicolons(s);
    let t = strip_region_tag(u);
    let w = rewrite_mp4(t);
    lemma_replace_no_semi(s);
    lemma_strip_no_semi(u);
    lemma_rewrite_no_semi(t);
    lemma_replace_noop(w);
    lemma_strip_then_rewrite_stable(u);
    // the rewrite is idempotent: a rewritten path ends in ".webm", not ".mp4"
    if t.len() >= 4 && t.skip(t.len() as int - 4) == mp4_suffix() {
        let wl = w.len() as int;
        assert(w == t.take(t.len() as int - 4) + webm_suffix());
        assert(w[wl - 4] == webm_suffix()[1]);
        if w.len() >= 4 && w.skip(wl - 4) == mp4_suffix() {
            assert(w.skip(wl - 4)[0] == w[wl - 4]);
            assert(false);
        }
    } else {
        assert(w == t);
        if w.len() >= 4 && w.skip(w.len() as int - 4) == mp4_suffix() {
            assert(false);
        }
    }
}

} // verus!
