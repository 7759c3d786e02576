use vstd::prelude::*;
use crate::order::{seq_char_le, TotalOrder};
use crate::order::{lemma_seq_char_le_antisym, lemma_seq_char_le_total, lemma_seq_char_le_trans};
use crate::text::{str_eq, str_le};
use crate::order::{sort_dedup, strictly_sorted, view_seq};
use crate::archive::tar::{bad_tar_entry, copy_bytes, first_bad_tar_entry, lemma_first_bad_tar_entry};
use crate::archive::zip::is_dir_name;
use vstd::utf8::{decode_utf8, valid_utf8};

pub mod tar;
pub mod zip;

verus! {

/// The container format of an archive file, decided by its name alone.
#[derive(Clone, Copy, PartialEq, Eq, Structural, Debug)]
pub enum Extension {
    Zip,
    Tar,
    TarGz,
}

/// `c` is `l` itself, or the upper-case form of the lower-case letter `l`.
pub open spec fn char_matches_lower(c: char, l: char) -> bool {
    c == l || (('a' as u32) <= (l as u32) <= ('z' as u32) && (c as u32) + 32 == (l as u32))
}

/// Character by character, `a` is `p` up to letter case (`p` is lower case).
pub open spec fn seq_matches_lower(a: Seq<char>, p: Seq<char>) -> bool {
    a.len() == p.len() && forall|j: int| 0 <= j < a.len() ==> char_matches_lower(a[j], #[trigger] p[j])
}

/// The index of the last `'.'` in `s`, or `-1` if there is none.
pub open spec fn last_dot(s: Seq<char>) -> int
    decreases s.len(),
{
    if s.len() == 0 {
        -1
    } else if s[s.len() - 1] == '.' {
        s.len() - 1
    } else {
        last_dot(s.drop_last())
    }
}

pub proof fn lemma_last_dot(s: Seq<char>)
    ensures
        -1 <= last_dot(s) < s.len(),
        last_dot(s) >= 0 ==> s[last_dot(s)] == '.',
        forall|j: int| last_dot(s) < j < s.len() ==> s[j] != '.',
    decreases s.len(),
{
    if s.len() > 0 && s[s.len() - 1] != '.' {
        lemma_last_dot(s.drop_last());
        assert(forall|j: int| 0 <= j < s.len() - 1 ==> s.drop_last()[j] == s[j]);
    }
}

/// The trailing dot-separated component of the file name: everything after
/// the last dot, or the whole name when it has no dot.
pub open spec fn name_suffix(s: Seq<char>) -> Seq<char> {
    s.skip(last_dot(s) + 1)
}

/// Classification of a file name, the reference for [`classify`]: the
/// trailing component decides the format (`zip`, `tar`, or `gz` preceded
/// by a `tar` component), compared without regard to letter case; any
/// other trailing component, lower-cased, is the error value.
pub open spec fn spec_classify(s: Seq<char>) -> Result<Extension, Seq<char>> {
    let ld = last_dot(s);
    let ext = name_suffix(s);
    if seq_matches_lower(ext, seq!['z', 'i', 'p']) {
        Ok(Extension::Zip)
    } else if seq_matches_lower(ext, seq!['t', 'a', 'r']) {
        Ok(Extension::Tar)
    } else if seq_matches_lower(ext, seq!['g', 'z']) && ld >= 0 && seq_matches_lower(
        s.subrange(last_dot(s.take(ld)) + 1, ld),
        seq!['t', 'a', 'r'],
    ) {
        Ok(Extension::TarGz)
    } else {
        Err(crate::text::lower_of(ext))
    }
}

/// Decides whether `c` equals `l`, ignoring case (`l` is lower case).
fn char_eq_ci(c: char, l: char) -> (r: bool)
    ensures
        r == char_matches_lower(c, l),
{
    proof {
        vstd::utf8::char_is_scalar(c);
    }
    c == l || (('a' as u32) <= (l as u32) && (l as u32) <= ('z' as u32) && (c as u32) + 32 == (
    l as u32))
}

/// The index of the last `'.'` strictly below `from`, if any.
pub(crate) fn find_last_dot_before(name: &str, from: usize) -> (r: Option<usize>)
    requires
        from <= name@.len(),
    ensures
        match r {
            Some(i) => i < from && name@[i as int] == '.' && forall|j: int|
                i < j < from ==> name@[j] != '.',
            None => forall|j: int| 0 <= j < from ==> name@[j] != '.',
        },
{
    let mut i: usize = from;
    while i > 0
        invariant
            i <= from <= name@.len(),
            forall|j: int| i <= j < from ==> name@[j] != '.',
        decreases i,
    {
        i -= 1;
        if name.get_char(i) == '.' {
            return Some(i);
        }
    }
    None
}

/// Checks the characters of `name` from `start` on against the lower-case
/// pattern `p`, ignoring case.
fn suffix_matches(name: &str, start: usize, p: &str) -> (r: bool)
    requires
        start <= name@.len(),
    ensures
        r == seq_matches_lower(name@.skip(start as int), p@),
{
    let nlen = name.unicode_len();
    let plen = p.unicode_len();
    if nlen - start != plen {
        assert(name@.skip(start as int).len() != p@.len());
        return false;
    }
    let mut i: usize = 0;
    while i < plen
        invariant
            0 <= i <= plen,
            start + plen == nlen,
            nlen == name@.len(),
            plen == p@.len(),
            forall|j: int|
                0 <= j < i ==> char_matches_lower(name@.skip(start as int)[j], #[trigger] p@[j]),
        decreases plen - i,
    {
        let c = name.get_char(start + i);
        let l = p.get_char(i);
        if !char_eq_ci(c, l) {
            assert(name@.skip(start as int)[i as int] == name@[start + i]);
            return false;
        }
        assert(name@.skip(start as int)[i as int] == name@[start + i]);
        i += 1;
    }
    true
}

/// Maps a file name to the container format its suffix announces:
/// `zip`, `tar`, or `tar` followed by `gz`, ignoring letter case.  Any
/// other name fails with the offending trailing component, lower-cased.
pub fn classify(name: &str) -> (r: Result<Extension, Error>)
    ensures
        match r {
            Ok(e) => spec_classify(name@) == Ok::<Extension, Seq<char>>(e),
            Err(err) => spec_classify(name@) is Err && err@ == ErrorView::UnknownExtension(
                spec_classify(name@)->Err_0,
            ),
        },
{
    let len = name.unicode_len();
    let ld = find_last_dot_before(name, len);
    proof {
        lemma_last_dot(name@);
    }
    let start: usize = match ld {
        Some(i) => {
            proof {
                assert(last_dot(name@) == i);
            }
            i + 1
        },
        None => {
            proof {
                assert(last_dot(name@) == -1);
            }
            0
        },
    };
    if suffix_matches(name, start, "zip") {
        proof {
            reveal_strlit("zip");
            assert("zip"@ =~= seq!['z', 'i', 'p']);
        }
        return Ok(Extension::Zip);
    }
    if suffix_matches(name, start, "tar") {
        proof {
            reveal_strlit("tar");
            assert("tar"@ =~= seq!['t', 'a', 'r']);
        }
        return Ok(Extension::Tar);
    }
    proof {
        reveal_strlit("zip");
        reveal_strlit("tar");
        reveal_strlit("gz");
        assert("zip"@ =~= seq!['z', 'i', 'p']);
        assert("tar"@ =~= seq!['t', 'a', 'r']);
        assert("gz"@ =~= seq!['g', 'z']);
    }
    if suffix_matches(name, start, "gz") && start > 0 {
        let ld_i = start - 1;
        proof {
            assert(last_dot(name@) == ld_i);
        }
        let prev = find_last_dot_before(name, ld_i);
        let pstart: usize = match prev {
            Some(i) => i + 1,
            None => 0,
        };
        proof {
            let taken = name@.take(ld_i as int);
            lemma_last_dot(taken);
            assert(forall|j: int| 0 <= j < ld_i ==> taken[j] == name@[j]);
            match prev {
                Some(i) => {
                    assert(taken[i as int] == '.');
                    assert forall|j: int| i < j < ld_i implies taken[j] != '.' by {
                        assert(name@[j] != '.');
                    }
                    if last_dot(taken) > i {
                        assert(name@[last_dot(taken)] != '.');
                    }
                    assert(last_dot(taken) == i);
                },
                None => {
                    assert forall|j: int| 0 <= j < ld_i implies taken[j] != '.' by {
                        assert(name@[j] != '.');
                    }
                    assert(last_dot(taken) == -1);
                },
            }
            assert(last_dot(taken) == pstart - 1);
        }
        if ld_i - pstart == 3 && char_eq_ci(name.get_char(pstart), 't') && char_eq_ci(
            name.get_char(pstart + 1),
            'a',
        ) && char_eq_ci(name.get_char(pstart + 2), 'r') {
            proof {
                let second = name@.subrange(pstart as int, ld_i as int);
                assert(second.len() == 3);
                assert(second[0] == name@[pstart as int]);
                assert(second[1] == name@[pstart + 1]);
                assert(second[2] == name@[pstart + 2]);
                let p = seq!['t', 'a', 'r'];
                assert forall|j: int| 0 <= j < 3 implies char_matches_lower(
                    second[j],
                    #[trigger] p[j],
                ) by {
                    if j == 0 {
                    } else if j == 1 {
                    } else {
                        assert(p[2] == 'r');
                    }
                }
            }
            return Ok(Extension::TarGz);
        }
    }
    let suffix = name.substring_char(start, len);
    proof {
        assert(suffix@ =~= name_suffix(name@));
    }
    Err(Error::UnknownExtension(crate::text::lowercase(suffix)))
}

/// The normalized description of one member of a container: its path, its
/// recorded uncompressed size, and, where the container stores one, its
/// integrity checksum.
#[derive(Clone, Debug)]
pub struct FileEntry {
    pub path: String,
    pub size: u32,
    pub crc32: Option<u32>,
}

/// The mathematical value of a [`FileEntry`].
pub struct FileEntryView {
    pub path: Seq<char>,
    pub size: u32,
    pub crc32: Option<u32>,
}

impl View for FileEntry {
    type V = FileEntryView;

    open spec fn view(&self) -> FileEntryView {
        FileEntryView { path: self.path@, size: self.size, crc32: self.crc32 }
    }
}

/// A path names a member holding bzip2-compressed data when its last four
/// characters are `.bz2`, the letters compared without regard to case.
pub open spec fn is_bz2_name(s: Seq<char>) -> bool {
    s.len() >= 4 && s[s.len() - 4] == '.' && char_matches_lower(s[s.len() - 3], 'b')
        && char_matches_lower(s[s.len() - 2], 'z') && s[s.len() - 1] == '2'
}

/// Checksum order: an absent checksum sorts before any present one.
pub open spec fn crc_le(a: Option<u32>, b: Option<u32>) -> bool {
    match (a, b) {
        (Option::None, _) => true,
        (Option::Some(_), Option::None) => false,
        (Option::Some(x), Option::Some(y)) => x <= y,
    }
}

/// The canonical order of entry records: by path, then size, then
/// checksum, an absent checksum first.
pub open spec fn entry_le(a: FileEntryView, b: FileEntryView) -> bool {
    if a.path != b.path {
        seq_char_le(a.path, b.path)
    } else if a.size != b.size {
        a.size < b.size
    } else {
        crc_le(a.crc32, b.crc32)
    }
}

impl FileEntry {
    pub fn new(path: String, size: u32, crc32: Option<u32>) -> (r: Self)
        ensures
            r@ == (FileEntryView { path: path@, size, crc32 }),
    {
        Self { path, size, crc32 }
    }

    /// Whether this member carries a second, bzip2 compression layer,
    /// decided by its path suffix alone.
    pub fn is_bzip2(&self) -> (r: bool)
        ensures
            r == is_bz2_name(self.path@),
    {
        let len = self.path.as_str().unicode_len();
        len >= 4 && self.path.as_str().get_char(len - 4) == '.' && char_eq_ci(
            self.path.as_str().get_char(len - 3),
            'b',
        ) && char_eq_ci(self.path.as_str().get_char(len - 2), 'z') && self.path.as_str().get_char(
            len - 1,
        ) == '2'
    }
}

impl TotalOrder for FileEntry {
    open spec fn le(a: FileEntryView, b: FileEntryView) -> bool {
        entry_le(a, b)
    }

    proof fn lemma_le_total(a: FileEntryView, b: FileEntryView) {
        if a.path != b.path {
            lemma_seq_char_le_total(a.path, b.path);
        }
    }

    proof fn lemma_le_antisym(a: FileEntryView, b: FileEntryView) {
        if a.path != b.path {
            lemma_seq_char_le_antisym(a.path, b.path);
        }
    }

    proof fn lemma_le_trans(a: FileEntryView, b: FileEntryView, c: FileEntryView) {
        lemma_entry_le_trans_paths(a.path, b.path, c.path);
    }

    fn le_exec(&self, other: &Self) -> (r: bool) {
        if !str_eq(self.path.as_str(), other.path.as_str()) {
            str_le(self.path.as_str(), other.path.as_str())
        } else if self.size != other.size {
            self.size < other.size
        } else {
            match (self.crc32, other.crc32) {
                (Option::None, _) => true,
                (Option::Some(_), Option::None) => false,
                (Option::Some(x), Option::Some(y)) => x <= y,
            }
        }
    }
}

/// The path comparisons underlying transitivity of [`entry_le`].
proof fn lemma_entry_le_trans_paths(a: Seq<char>, b: Seq<char>, c: Seq<char>)
    ensures
        seq_char_le(a, b) && seq_char_le(b, c) ==> seq_char_le(a, c),
        seq_char_le(a, b) && seq_char_le(b, a) ==> a == b,
        seq_char_le(b, c) && seq_char_le(c, b) ==> b == c,
        seq_char_le(a, c) && seq_char_le(c, a) ==> a == c,
{
    if seq_char_le(a, b) && seq_char_le(b, c) {
        lemma_seq_char_le_trans(a, b, c);
    }
    if seq_char_le(a, b) && seq_char_le(b, a) {
        lemma_seq_char_le_antisym(a, b);
    }
    if seq_char_le(b, c) && seq_char_le(c, b) {
        lemma_seq_char_le_antisym(b, c);
    }
    if seq_char_le(a, c) && seq_char_le(c, a) {
        lemma_seq_char_le_antisym(a, c);
    }
}

impl PartialEq for FileEntry {
    fn eq(&self, other: &Self) -> (r: bool) {
        str_eq(self.path.as_str(), other.path.as_str()) && self.size == other.size && match (
        self.crc32, other.crc32) {
            (Option::None, Option::None) => true,
            (Option::Some(x), Option::Some(y)) => x == y,
            _ => false,
        }
    }
}

impl vstd::std_specs::cmp::PartialEqSpecImpl for FileEntry {
    open spec fn obeys_eq_spec() -> bool {
        true
    }

    open spec fn eq_spec(&self, other: &FileEntry) -> bool {
        self@ == other@
    }
}

/// What can go wrong while listing or reading an archive.
#[derive(Debug)]
pub enum Error {
    /// The ZIP library failed to read the archive; carries its report.
    Zip(String),
    /// The underlying container cursor failed; carries the report.
    Io(String),
    /// The file name's trailing component names no supported format.
    UnknownExtension(String),
    /// A member path that is not valid text; carries its raw bytes.
    InvalidEntryPath(Vec<u8>),
    /// One member failed to decode; the rest of the archive is unaffected.
    DecodingIo(FileEntry, String),
}

/// A size as the 32-bit record field stores it: the container's recorded
/// size reduced to its low 32 bits.
pub open spec fn trunc_u32(x: u64) -> u32 {
    (x % 0x1_0000_0000) as u32
}

/// The entry record of one TAR member: its decoded path, its size, and no
/// checksum, since the format stores none.
pub open spec fn tar_record_of(e: (Seq<u8>, u64, Seq<u8>)) -> FileEntryView {
    FileEntryView { path: decode_utf8(e.0), size: trunc_u32(e.1), crc32: None }
}

/// `v` is the record of some positive-size member of a TAR index.
pub open spec fn is_tar_record(entries: Seq<(Seq<u8>, u64, Seq<u8>)>, v: FileEntryView) -> bool {
    exists|i: int|
        0 <= i < entries.len() && (#[trigger] entries[i]).1 > 0 && v == tar_record_of(entries[i])
}

/// The entry record of one ZIP member: its path, its size, and the
/// checksum the central directory stores.
pub open spec fn zip_record_of(e: (Seq<char>, u64, u32)) -> FileEntryView {
    FileEntryView { path: e.0, size: trunc_u32(e.1), crc32: Some(e.2) }
}

/// `v` is the record of some positive-size, non-directory member of a
/// ZIP index: a directory-named member (its path ends in `'/'`) never
/// makes a record.
pub open spec fn is_zip_record(entries: Seq<(Seq<char>, u64, u32)>, v: FileEntryView) -> bool {
    exists|i: int|
        0 <= i < entries.len() && (#[trigger] entries[i]).1 > 0 && !is_dir_name(entries[i].0) && v == zip_record_of(entries[i])
}

/// What listing the members of a TAR stream must yield, given the index
/// the cursor produced: the sorted records of the positive-size members,
/// unless some member, whatever its size, has an unreadable path — then
/// the first such path's error — or the cursor failed.
pub open spec fn tar_listing_post(
    entries: Seq<(Seq<u8>, u64, Seq<u8>)>,
    broken: bool,
    r: Result<Seq<FileEntryView>, ErrorView>,
) -> bool {
    match r {
        Ok(vs) => first_bad_tar_entry(entries) == -1 && !broken && strictly_sorted::<FileEntry>(vs)
            && (forall|v: FileEntryView| vs.contains(v) <==> is_tar_record(entries, v)),
        Err(e) => match e {
            ErrorView::Io(_) => first_bad_tar_entry(entries) == -1 && broken,
            ErrorView::InvalidEntryPath(p) => first_bad_tar_entry(entries) >= 0 && p
                == entries[first_bad_tar_entry(entries)].0,
            _ => false,
        },
    }
}

/// The views of a listing result.
pub open spec fn listing_views(r: Result<Vec<FileEntry>, Error>) -> Result<
    Seq<FileEntryView>,
    ErrorView,
> {
    match r {
        Ok(v) => Ok(view_seq(v@)),
        Err(e) => Err(e@),
    }
}

/// Builds the sorted entry records of a TAR index, as
/// [`tar_listing_post`] describes.
fn build_tar_records(raw: &Vec<crate::archive::tar::TarEntryRaw>, err: Option<String>) -> (r:
    Result<Vec<FileEntry>, Error>)
    ensures
        tar_listing_post(view_seq(raw@), err is Some, listing_views(r)),
{
    let ghost entries = view_seq(raw@);
    proof {
        lemma_first_bad_tar_entry(entries);
    }
    let mut records: Vec<FileEntry> = Vec::new();
    let mut k: usize = 0;
    proof {
        assert(view_seq(records@) =~= Seq::<FileEntryView>::empty());
    }
    while k < raw.len()
        invariant
            0 <= k <= raw.len(),
            entries == view_seq(raw@),
            raw@.len() == entries.len(),
            forall|j: int| 0 <= j < k ==> !bad_tar_entry(#[trigger] entries[j]),
            forall|v: FileEntryView|
                view_seq(records@).contains(v) <==> exists|i: int|
                    0 <= i < k && (#[trigger] entries[i]).1 > 0 && v == tar_record_of(entries[i]),
        decreases raw.len() - k,
    {
        let ghost prev = view_seq(records@);
        assert(entries[k as int] == raw@[k as int]@);
        match crate::decode::utf8_to_string(raw[k].path.as_slice()) {
            None => {
                proof {
                    lemma_first_bad_tar_entry(entries);
                    let fb = first_bad_tar_entry(entries);
                    assert(bad_tar_entry(entries[k as int]));
                    assert(fb >= 0);
                    assert(fb >= 0 ==> bad_tar_entry(entries[fb]));
                    assert(forall|j: int| 0 <= j < k ==> !bad_tar_entry(#[trigger] entries[j]));
                    assert(fb >= k);
                    assert(fb <= k);
                    assert(entries[k as int].0 == raw@[k as int].path@);
                }
                return Err(Error::InvalidEntryPath(copy_bytes(&raw[k].path)));
            },
            Some(path) => {
                if raw[k].size > 0 {
                    let size: u32 = #[verifier::truncate] (raw[k].size as u32);
                    let record = FileEntry::new(path, size, None);
                    proof {
                        let sz = raw@[k as int].size;
                        assert((sz as u32) == ((sz % 0x1_0000_0000) as u32)) by (bit_vector);
                        assert(record@ == tar_record_of(entries[k as int]));
                    }
                    records.push(record);
                    proof {
                        let x = tar_record_of(entries[k as int]);
                        assert(view_seq(records@) =~= prev.push(x));
                        assert forall|v: FileEntryView| view_seq(records@).contains(v) <==> exists|
                            i: int,
                        |
                            0 <= i < k + 1 && (#[trigger] entries[i]).1 > 0 && v == tar_record_of(
                                entries[i],
                            ) by {
                            crate::order::lemma_push_contains(prev, x, v);
                            if prev.contains(v) {
                                let i = choose|i: int|
                                    0 <= i < k && (#[trigger] entries[i]).1 > 0 && v
                                        == tar_record_of(entries[i]);
                                assert(0 <= i < k + 1 && entries[i].1 > 0 && v == tar_record_of(
                                    entries[i],
                                ));
                            } else if v == x {
                                assert(0 <= k < k + 1 && entries[k as int].1 > 0 && v
                                    == tar_record_of(entries[k as int]));
                            }
                            if exists|i: int|
                                0 <= i < k + 1 && (#[trigger] entries[i]).1 > 0 && v
                                    == tar_record_of(entries[i]) {
                                let i = choose|i: int|
                                    0 <= i < k + 1 && (#[trigger] entries[i]).1 > 0 && v
                                        == tar_record_of(entries[i]);
                                if i < k {
                                    assert(prev.contains(v));
                                }
                            }
                        }
                    }
                } else {
                    proof {
                        assert(entries[k as int].1 == 0);
                        assert forall|v: FileEntryView| view_seq(records@).contains(v) <==> exists|
                            i: int,
                        |
                            0 <= i < k + 1 && (#[trigger] entries[i]).1 > 0 && v == tar_record_of(
                                entries[i],
                            ) by {
                            if exists|i: int|
                                0 <= i < k + 1 && (#[trigger] entries[i]).1 > 0 && v
                                    == tar_record_of(entries[i]) {
                                let i = choose|i: int|
                                    0 <= i < k + 1 && (#[trigger] entries[i]).1 > 0 && v
                                        == tar_record_of(entries[i]);
                                assert(i < k);
                            }
                        }
                    }
                }
            },
        }
        k += 1;
    }
    if let Some(msg) = err {
        return Err(Error::Io(msg));
    }
    Ok(sort_dedup(records))
}

/// What listing the members of a ZIP archive must yield: the sorted
/// records of the positive-size, non-directory members of its index,
/// each with its checksum present, or the reading failure.
pub open spec fn zip_listing_post(
    index: Option<Seq<(Seq<char>, u64, u32)>>,
    r: Result<Seq<FileEntryView>, ErrorView>,
) -> bool {
    match r {
        Ok(vs) => index matches Some(entries) && strictly_sorted::<FileEntry>(vs) && (forall|
            v: FileEntryView,
        | vs.contains(v) <==> is_zip_record(entries, v)),
        Err(e) => index is None && e is Zip,
    }
}

/// Builds the sorted entry records of a ZIP index.
fn build_zip_records(raw: &Vec<crate::archive::zip::ZipEntryRaw>) -> (r: Vec<FileEntry>)
    ensures
        strictly_sorted::<FileEntry>(view_seq(r@)),
        forall|v: FileEntryView|
            view_seq(r@).contains(v) <==> is_zip_record(view_seq(raw@), v),
{
    let ghost entries = view_seq(raw@);
    let mut records: Vec<FileEntry> = Vec::new();
    let mut k: usize = 0;
    proof {
        assert(view_seq(records@) =~= Seq::<FileEntryView>::empty());
    }
    while k < raw.len()
        invariant
            0 <= k <= raw.len(),
            entries == view_seq(raw@),
            raw@.len() == entries.len(),
            forall|v: FileEntryView|
                view_seq(records@).contains(v) <==> exists|i: int|
                    0 <= i < k && (#[trigger] entries[i]).1 > 0 && !is_dir_name(entries[i].0) && v == zip_record_of(entries[i]),
        decreases raw.len() - k,
    {
        let ghost prev = view_seq(records@);
        assert(entries[k as int] == raw@[k as int]@);
        let plen = raw[k].path.as_str().unicode_len();
        let dir = plen > 0 && raw[k].path.as_str().get_char(plen - 1) == '/';
        proof {
            assert(dir == is_dir_name(entries[k as int].0));
        }
        if raw[k].size > 0 && !dir {
            let size: u32 = #[verifier::truncate] (raw[k].size as u32);
            let record = FileEntry::new(raw[k].path.clone(), size, Some(raw[k].crc32));
            proof {
                let sz = raw@[k as int].size;
                assert((sz as u32) == ((sz % 0x1_0000_0000) as u32)) by (bit_vector);
                assert(record@ == zip_record_of(entries[k as int]));
            }
            records.push(record);
            proof {
                let x = zip_record_of(entries[k as int]);
                assert(view_seq(records@) =~= prev.push(x));
                assert forall|v: FileEntryView| view_seq(records@).contains(v) <==> exists|i: int|
                    0 <= i < k + 1 && (#[trigger] entries[i]).1 > 0 && !is_dir_name(entries[i].0) && v == zip_record_of(
                        entries[i],
                    ) by {
                    crate::order::lemma_push_contains(prev, x, v);
                    if prev.contains(v) {
                        let i = choose|i: int|
                            0 <= i < k && (#[trigger] entries[i]).1 > 0 && !is_dir_name(entries[i].0) && v == zip_record_of(
                                entries[i],
                            );
                        assert(0 <= i < k + 1 && entries[i].1 > 0 && !is_dir_name(entries[i].0) && v == zip_record_of(
                            entries[i],
                        ));
                    } else if v == x {
                        assert(0 <= k < k + 1 && entries[k as int].1 > 0 && !is_dir_name(entries[k as int].0) && v == zip_record_of(
                            entries[k as int],
                        ));
                    }
                    if exists|i: int|
                        0 <= i < k + 1 && (#[trigger] entries[i]).1 > 0 && !is_dir_name(entries[i].0) && v == zip_record_of(
                            entries[i],
                        ) {
                        let i = choose|i: int|
                            0 <= i < k + 1 && (#[trigger] entries[i]).1 > 0 && !is_dir_name(entries[i].0) && v == zip_record_of(
                                entries[i],
                            );
                        if i < k {
                            assert(prev.contains(v));
                        }
                    }
                }
            }
        } else {
            proof {
                assert(entries[k as int].1 == 0 || is_dir_name(entries[k as int].0));
                assert forall|v: FileEntryView| view_seq(records@).contains(v) <==> exists|i: int|
                    0 <= i < k + 1 && (#[trigger] entries[i]).1 > 0 && !is_dir_name(entries[i].0) && v == zip_record_of(
                        entries[i],
                    ) by {
                    if exists|i: int|
                        0 <= i < k + 1 && (#[trigger] entries[i]).1 > 0 && !is_dir_name(entries[i].0) && v == zip_record_of(
                            entries[i],
                        ) {
                        let i = choose|i: int|
                            0 <= i < k + 1 && (#[trigger] entries[i]).1 > 0 && !is_dir_name(entries[i].0) && v == zip_record_of(
                                entries[i],
                            );
                        assert(i < k);
                    }
                }
            }
        }
        k += 1;
    }
    sort_dedup(records)
}

/// Lists the entry records of the archive held in a byte buffer, under
/// the format its file name announces.  The records are strictly sorted
/// with duplicates dropped; zero-size and directory-named members never
/// appear; ZIP records carry a checksum and TAR records none.  Fails
/// when the name announces no supported format, when the container
/// cannot be read, or on the first TAR member path that is not valid
/// text.
pub fn list_entries(name: &str, data: &[u8]) -> (r: Result<Vec<FileEntry>, Error>)
    ensures
        match spec_classify(name@) {
            Err(suffix) => r matches Err(e) && e@ == ErrorView::UnknownExtension(suffix),
            Ok(Extension::Zip) => zip_listing_post(
                crate::archive::zip::zip_entries_of(data@),
                listing_views(r),
            ),
            Ok(Extension::Tar) => tar_listing_post(
                crate::archive::tar::tar_entries_of(data@).0,
                crate::archive::tar::tar_entries_of(data@).1,
                listing_views(r),
            ),
            Ok(Extension::TarGz) => tar_listing_post(
                crate::archive::tar::tar_gz_entries_of(data@).0,
                crate::archive::tar::tar_gz_entries_of(data@).1,
                listing_views(r),
            ),
        },
{
    let extension = match classify(name) {
        Ok(e) => e,
        Err(e) => {
            return Err(e);
        },
    };
    match extension {
        Extension::Zip => {
            match crate::archive::zip::zip_raw_entries(data) {
                Ok(raw) => Ok(build_zip_records(&raw)),
                Err(msg) => Err(Error::Zip(msg)),
            }
        },
        Extension::Tar => {
            let (raw, err) = crate::archive::tar::tar_raw_entries(data);
            build_tar_records(&raw, err)
        },
        Extension::TarGz => {
            let (raw, err) = crate::archive::tar::tar_gz_raw_entries(data);
            build_tar_records(&raw, err)
        },
    }
}


/// One pending member of a ZIP content pass: its metadata and its
/// position in the archive's central directory.
pub struct ZipCursorEntry {
    pub path: String,
    pub size: u64,
    pub crc32: u32,
    pub index: usize,
}

impl View for ZipCursorEntry {
    type V = (Seq<char>, u64, u32, int);

    open spec fn view(&self) -> (Seq<char>, u64, u32, int) {
        (self.path@, self.size, self.crc32, self.index as int)
    }
}

/// The content pass over one archive: one arm per container strategy,
/// each owning its own cursor.  ZIP members are pending in a reversed
/// list drained from its back, so they come out in forward index order;
/// TAR members are walked front to back with a position.
pub enum ArchiveEntries {
    Zip { data: Vec<u8>, entries: Vec<ZipCursorEntry> },
    Tar { entries: Vec<crate::archive::tar::TarEntryRaw>, pos: usize, err: Option<String> },
    TarGz { entries: Vec<crate::archive::tar::TarEntryRaw>, pos: usize, err: Option<String> },
}

/// The mathematical value of an [`ArchiveEntries`].
pub enum ArchiveEntriesView {
    Zip { data: Seq<u8>, remaining: Seq<(Seq<char>, u64, u32, int)> },
    Tar { entries: Seq<(Seq<u8>, u64, Seq<u8>)>, pos: int, pending_err: bool },
    TarGz { entries: Seq<(Seq<u8>, u64, Seq<u8>)>, pos: int, pending_err: bool },
}

impl View for ArchiveEntries {
    type V = ArchiveEntriesView;

    open spec fn view(&self) -> ArchiveEntriesView {
        match self {
            ArchiveEntries::Zip { data, entries } => ArchiveEntriesView::Zip {
                data: data@,
                remaining: view_seq(entries@),
            },
            ArchiveEntries::Tar { entries, pos, err } => ArchiveEntriesView::Tar {
                entries: view_seq(entries@),
                pos: *pos as int,
                pending_err: err is Some,
            },
            ArchiveEntries::TarGz { entries, pos, err } => ArchiveEntriesView::TarGz {
                entries: view_seq(entries@),
                pos: *pos as int,
                pending_err: err is Some,
            },
        }
    }
}

/// The pending ZIP members of the first `k` index entries —
/// positive-size, non-directory members only — in reverse index order:
/// position `k - 1` first.
pub open spec fn zip_rev_iter(entries: Seq<(Seq<char>, u64, u32)>, k: int) -> Seq<
    (Seq<char>, u64, u32, int),
>
    decreases k,
{
    if k <= 0 {
        Seq::empty()
    } else {
        (if entries[k - 1].1 > 0 && !is_dir_name(entries[k - 1].0) {
            seq![(entries[k - 1].0, entries[k - 1].1, entries[k - 1].2, k - 1)]
        } else {
            Seq::empty()
        }) + zip_rev_iter(entries, k - 1)
    }
}

/// What one step of a TAR content pass meets at or after `pos`: the end
/// of the archive, a member whose path is unreadable, or a member with
/// content, zero-size members skipped on the way.
pub enum TarStep {
    End,
    BadPath(int),
    Item(int),
}

pub open spec fn tar_step_of(entries: Seq<(Seq<u8>, u64, Seq<u8>)>, pos: int) -> TarStep
    decreases entries.len() - pos,
    when 0 <= pos <= entries.len()
{
    if pos >= entries.len() {
        TarStep::End
    } else if !valid_utf8(entries[pos].0) {
        TarStep::BadPath(pos)
    } else if entries[pos].1 == 0 {
        tar_step_of(entries, pos + 1)
    } else {
        TarStep::Item(pos)
    }
}

/// How one call of `next` treats a TAR-like state: skip zero-size
/// members, yield the first member with content or its per-member
/// failure, report a pending cursor error once at the end, and advance
/// the position so that no member is visited twice.
pub open spec fn tar_next_post(
    entries: Seq<(Seq<u8>, u64, Seq<u8>)>,
    pos: int,
    pending: bool,
    new_pos: int,
    new_pending: bool,
    r: Option<Result<(FileEntry, String), Error>>,
) -> bool {
    0 <= pos <= entries.len() ==> match tar_step_of(entries, pos) {
        TarStep::End => new_pos == entries.len() && !new_pending && (if pending {
            r matches Some(Err(e)) && e@ is Io
        } else {
            r is None
        }),
        TarStep::BadPath(i) => new_pos == i + 1 && new_pending == pending && (r matches Some(
            Err(e),
        ) && e@ == ErrorView::InvalidEntryPath(entries[i].0)),
        TarStep::Item(i) => new_pos == i + 1 && new_pending == pending && ({
            let entry = tar_record_of(entries[i]);
            match crate::decode::spec_decode(decode_utf8(entries[i].0), entries[i].2) {
                Some(t) => r matches Some(Ok(p)) && p.0@ == entry && p.1@ == t,
                None => r matches Some(Err(e)) && (e@ matches ErrorView::DecodingIo(fe, _) && fe
                    == entry),
            }
        }),
    }
}

/// One step of a TAR-like content pass, as [`tar_next_post`] describes.
fn tar_next(
    entries: &Vec<crate::archive::tar::TarEntryRaw>,
    pos: &mut usize,
    err: &mut Option<String>,
) -> (r: Option<Result<(FileEntry, String), Error>>)
    ensures
        tar_next_post(
            view_seq(entries@),
            *old(pos) as int,
            (*old(err)) is Some,
            *final(pos) as int,
            (*final(err)) is Some,
            r,
        ),
        *final(pos) >= *old(pos),
{
    let ghost all = view_seq(entries@);
    while *pos < entries.len()
        invariant
            all == view_seq(entries@),
            all.len() == entries@.len(),
            *err == *old(err),
            *pos >= *old(pos),
            *old(pos) as int <= all.len() ==> *pos as int <= all.len() && tar_step_of(
                all,
                *old(pos) as int,
            ) == tar_step_of(all, *pos as int),
        decreases entries@.len() - *pos as int,
    {
        let k = *pos;
        assert(all[k as int] == entries@[k as int]@);
        *pos = k + 1;
        match crate::decode::utf8_to_string(entries[k].path.as_slice()) {
            None => {
                proof {
                    assert(tar_step_of(all, k as int) == TarStep::BadPath(k as int));
                }
                return Some(
                    Err(Error::InvalidEntryPath(copy_bytes(&entries[k].path))),
                );
            },
            Some(path) => {
                if entries[k].size > 0 {
                    proof {
                        assert(tar_step_of(all, k as int) == TarStep::Item(k as int));
                    }
                    let size: u32 = #[verifier::truncate] (entries[k].size as u32);
                    let entry = FileEntry::new(path, size, None);
                    proof {
                        let sz = entries@[k as int].size;
                        assert((sz as u32) == ((sz % 0x1_0000_0000) as u32)) by (bit_vector);
                        assert(entry@ == tar_record_of(all[k as int]));
                    }
                    return Some(
                        match crate::decode::decode_entry(&entry, entries[k].data.as_slice()) {
                            Ok(t) => Ok((entry, t)),
                            Err(e) => Err(e),
                        },
                    );
                }
                proof {
                    assert(tar_step_of(all, k as int) == tar_step_of(all, k + 1 as int));
                }
            },
        }
    }
    match err.take() {
        Some(msg) => Some(Err(Error::Io(msg))),
        None => None,
    }
}

impl ArchiveEntries {
    /// Opens a content pass over a ZIP archive held in a byte buffer,
    /// holding its positive-size, non-directory members in reverse
    /// index order, to be drained from the back.  Fails exactly when
    /// the buffer is not a readable archive.
    pub fn from_zip(data: Vec<u8>) -> (r: Result<ArchiveEntries, Error>)
        ensures
            match r {
                Ok(it) => crate::archive::zip::zip_entries_of(data@) matches Some(entries) && it@
                    == (ArchiveEntriesView::Zip {
                    data: data@,
                    remaining: zip_rev_iter(entries, entries.len() as int),
                }),
                Err(e) => crate::archive::zip::zip_entries_of(data@) is None && e@ is Zip,
            },
    {
        let mut raw = match crate::archive::zip::zip_raw_entries(data.as_slice()) {
            Ok(es) => es,
            Err(msg) => {
                return Err(Error::Zip(msg));
            },
        };
        let ghost entries = crate::archive::zip::zip_entries_of(data@).unwrap();
        let ghost full = entries.len() as int;
        let mut pending: Vec<ZipCursorEntry> = Vec::new();
        proof {
            assert(view_seq(pending@) + zip_rev_iter(entries, full) =~= zip_rev_iter(
                entries,
                full,
            ));
        }
        while raw.len() > 0
            invariant
                entries == crate::archive::zip::zip_entries_of(data@).unwrap(),
                crate::archive::zip::zip_entries_of(data@) is Some,
                view_seq(raw@) == entries.take(raw@.len() as int),
                raw@.len() <= entries.len(),
                full == entries.len() as int,
                view_seq(pending@) + zip_rev_iter(entries, raw@.len() as int) == zip_rev_iter(
                    entries,
                    full,
                ),
            decreases raw.len(),
        {
            let ghost k = raw@.len() as int;
            let ghost prev = view_seq(pending@);
            let ghost old_raw = raw@;
            let m = raw.pop().unwrap();
            proof {
                assert(m == old_raw[k - 1]);
                assert(view_seq(old_raw)[k - 1] == old_raw[k - 1]@);
                assert(m@ == entries[k - 1]);
                assert forall|j: int| 0 <= j < k - 1 implies view_seq(raw@)[j] == entries.take(
                    k - 1,
                )[j] by {
                    assert(raw@[j] == old_raw[j]);
                    assert(view_seq(old_raw)[j] == entries[j]);
                }
                assert(view_seq(raw@) =~= entries.take(k - 1));
            }
            let plen = m.path.as_str().unicode_len();
            let dir = plen > 0 && m.path.as_str().get_char(plen - 1) == '/';
            proof {
                assert(dir == is_dir_name(entries[k - 1].0));
            }
            if m.size > 0 && !dir {
                let index = raw.len();
                let item = ZipCursorEntry { path: m.path, size: m.size, crc32: m.crc32, index };
                proof {
                    assert(item@ == (entries[k - 1].0, entries[k - 1].1, entries[k - 1].2, k - 1));
                }
                pending.push(item);
                proof {
                    assert(view_seq(pending@) =~= prev.push(item@));
                    assert(zip_rev_iter(entries, k) =~= seq![item@] + zip_rev_iter(
                        entries,
                        k - 1,
                    ));
                    assert(prev.push(item@) + zip_rev_iter(entries, k - 1) =~= prev + (seq![
                        item@] + zip_rev_iter(entries, k - 1)));
                }
            } else {
                proof {
                    assert(zip_rev_iter(entries, k) =~= zip_rev_iter(entries, k - 1));
                }
            }
        }
        proof {
            assert(zip_rev_iter(entries, 0) =~= Seq::<(Seq<char>, u64, u32, int)>::empty());
            assert(view_seq(pending@) =~= view_seq(pending@) + zip_rev_iter(entries, 0));
        }
        Ok(ArchiveEntries::Zip { data, entries: pending })
    }

    /// Opens a content pass over an uncompressed TAR archive held in a
    /// byte buffer.
    pub fn from_tar(data: &[u8]) -> (r: ArchiveEntries)
        ensures
            r@ == (ArchiveEntriesView::Tar {
                entries: crate::archive::tar::tar_entries_of(data@).0,
                pos: 0,
                pending_err: crate::archive::tar::tar_entries_of(data@).1,
            }),
    {
        let (entries, err) = crate::archive::tar::tar_raw_entries(data);
        ArchiveEntries::Tar { entries, pos: 0, err }
    }

    /// Opens a content pass over a gzip-compressed TAR archive held in a
    /// byte buffer: the gzip layer is decoded once for the whole stream.
    pub fn from_tar_gz(data: &[u8]) -> (r: ArchiveEntries)
        ensures
            r@ == (ArchiveEntriesView::TarGz {
                entries: crate::archive::tar::tar_gz_entries_of(data@).0,
                pos: 0,
                pending_err: crate::archive::tar::tar_gz_entries_of(data@).1,
            }),
    {
        let (entries, err) = crate::archive::tar::tar_gz_raw_entries(data);
        ArchiveEntries::TarGz { entries, pos: 0, err }
    }

    /// Yields the next member and its decoded text, or a per-member
    /// failure that leaves the rest of the pass usable; `None` when the
    /// pass is over.  ZIP members come in forward index order off the
    /// back of the reversed pending list, a member whose data cannot be
    /// read or decoded failing alone with its record; TAR members in
    /// stream order with zero-size placeholders skipped silently; a TAR
    /// cursor error is reported once, after the members read before it.
    pub fn next(&mut self) -> (r: Option<Result<(FileEntry, String), Error>>)
        ensures
            match old(self)@ {
                ArchiveEntriesView::Zip { data, remaining } => final(self)@ matches
                    ArchiveEntriesView::Zip { data: d2, remaining: r2 } && d2 == data && (
                if remaining.len() == 0 {
                    r2 == remaining && r is None
                } else {
                    let m = remaining.last();
                    let entry = FileEntryView { path: m.0, size: trunc_u32(m.1), crc32: Some(m.2) };
                    r2 == remaining.drop_last() && (match crate::archive::zip::zip_data_of(
                        data,
                        m.3,
                    ) {
                        None => r matches Some(Err(e)) && (e@ matches ErrorView::DecodingIo(
                            fe,
                            _,
                        ) && fe == entry),
                        Some(b) => match crate::decode::spec_decode(m.0, b) {
                            Some(t) => r matches Some(Ok(p)) && p.0@ == entry && p.1@ == t,
                            None => r matches Some(Err(e)) && (e@ matches ErrorView::DecodingIo(
                                fe,
                                _,
                            ) && fe == entry),
                        },
                    })
                }),
                ArchiveEntriesView::Tar { entries, pos, pending_err } => final(self)@ matches
                    ArchiveEntriesView::Tar { entries: e2, pos: p2, pending_err: pe2 } && e2
                    == entries && tar_next_post(entries, pos, pending_err, p2, pe2, r),
                ArchiveEntriesView::TarGz { entries, pos, pending_err } => final(self)@ matches
                    ArchiveEntriesView::TarGz { entries: e2, pos: p2, pending_err: pe2 } && e2
                    == entries && tar_next_post(entries, pos, pending_err, p2, pe2, r),
            },
    {
        match self {
            ArchiveEntries::Zip { data, entries } => match entries.pop() {
                None => None,
                Some(m) => {
                    let size: u32 = #[verifier::truncate] (m.size as u32);
                    proof {
                        let sz = m.size;
                        assert((sz as u32) == ((sz % 0x1_0000_0000) as u32)) by (bit_vector);
                    }
                    let ghost mv = m@;
                    let entry = FileEntry::new(m.path, size, Some(m.crc32));
                    match crate::archive::zip::zip_entry_data(data.as_slice(), m.index) {
                        Err(msg) => Some(Err(Error::DecodingIo(entry, msg))),
                        Ok(b) => match crate::decode::decode_entry(&entry, b.as_slice()) {
                            Ok(t) => Some(Ok((entry, t))),
                            Err(e) => Some(Err(e)),
                        },
                    }
                },
            },
            ArchiveEntries::Tar { entries, pos, err } => tar_next(entries, pos, err),
            ArchiveEntries::TarGz { entries, pos, err } => tar_next(entries, pos, err),
        }
    }
}

/// Every pending member of a ZIP content pass has positive recorded
/// size: zero-size members never enter the pass.  Where the recorded
/// size fits the 32-bit record field, the yielded record's size is
/// positive too.
pub proof fn lemma_zip_iter_positive(entries: Seq<(Seq<char>, u64, u32)>, k: int, j: int)
    requires
        0 <= j < zip_rev_iter(entries, k).len(),
    ensures
        zip_rev_iter(entries, k)[j].1 > 0,
        zip_rev_iter(entries, k)[j].1 < 0x1_0000_0000 ==> trunc_u32(zip_rev_iter(entries, k)[j].1)
            > 0,
    decreases k,
{
    if k > 0 {
        let kept = entries[k - 1].1 > 0 && !is_dir_name(entries[k - 1].0);
        if kept && j == 0 {
        } else if kept {
            lemma_zip_iter_positive(entries, k - 1, j - 1);
        } else {
            assert(zip_rev_iter(entries, k) =~= zip_rev_iter(entries, k - 1));
            lemma_zip_iter_positive(entries, k - 1, j);
        }
    }
}

/// A TAR content pass only ever yields a member of positive recorded
/// size: zero-size members are skipped, never decoded.  Where the
/// recorded size fits the 32-bit record field, the yielded record's
/// size is positive too.
pub proof fn lemma_tar_step_positive(entries: Seq<(Seq<u8>, u64, Seq<u8>)>, pos: int, i: int)
    requires
        0 <= pos <= entries.len(),
        tar_step_of(entries, pos) == TarStep::Item(i),
    ensures
        0 <= i < entries.len(),
        entries[i].1 > 0,
        entries[i].1 < 0x1_0000_0000 ==> tar_record_of(entries[i]).size > 0,
    decreases entries.len() - pos,
{
    if pos < entries.len() && valid_utf8(entries[pos].0) && entries[pos].1 == 0 {
        lemma_tar_step_positive(entries, pos + 1, i);
    }
}

/// Classification is a pure function of the file name alone: names
/// with the same characters classify alike, and no file content weighs
/// in.
pub proof fn lemma_classify_deterministic(a: Seq<char>, b: Seq<char>)
    requires
        a == b,
    ensures
        spec_classify(a) == spec_classify(b),
{
}

/// A TAR content pass yields only members of positive recorded size:
/// any item `next` yields is the record of such a member, zero-size
/// placeholders having been skipped unseen.
pub proof fn lemma_tar_next_yields_positive(
    entries: Seq<(Seq<u8>, u64, Seq<u8>)>,
    pos: int,
    pending: bool,
    new_pos: int,
    new_pending: bool,
    r: Option<Result<(FileEntry, String), Error>>,
)
    requires
        0 <= pos <= entries.len(),
        tar_next_post(entries, pos, pending, new_pos, new_pending, r),
        r matches Some(x) && x is Ok,
    ensures
        exists|i: int|
            0 <= i < entries.len() && (#[trigger] entries[i]).1 > 0 && (r->Some_0->Ok_0).0@
                == tar_record_of(entries[i]),
{
    match tar_step_of(entries, pos) {
        TarStep::End => {
            assert(false);
        },
        TarStep::BadPath(_) => {
            assert(false);
        },
        TarStep::Item(i) => {
            lemma_tar_step_positive(entries, pos, i);
            assert(0 <= i < entries.len() && entries[i].1 > 0 && (r->Some_0->Ok_0).0@
                == tar_record_of(entries[i]));
        },
    }
}

/// A ZIP content pass yields only positive-size, non-directory member
/// records: the next pending element always has positive recorded size,
/// positive in the record field too when it fits.
pub proof fn lemma_zip_next_yields_positive(entries: Seq<(Seq<char>, u64, u32)>, k: int)
    requires
        zip_rev_iter(entries, k).len() > 0,
    ensures
        zip_rev_iter(entries, k).last().1 > 0,
        zip_rev_iter(entries, k).last().1 < 0x1_0000_0000 ==> trunc_u32(
            zip_rev_iter(entries, k).last().1,
        ) > 0,
{
    lemma_zip_iter_positive(entries, k, zip_rev_iter(entries, k).len() - 1);
}

/// In a ZIP listing every record carries a checksum, for the format
/// stores one per member.
pub proof fn lemma_zip_records_have_checksum(
    entries: Seq<(Seq<char>, u64, u32)>,
    v: FileEntryView,
)
    requires
        is_zip_record(entries, v),
    ensures
        v.crc32 is Some,
{
    let i = choose|i: int|
        0 <= i < entries.len() && (#[trigger] entries[i]).1 > 0 && !is_dir_name(entries[i].0) && v == zip_record_of(entries[i]);
    assert(v == zip_record_of(entries[i]));
}

/// In a TAR listing no record carries a checksum, for the format stores
/// none.
pub proof fn lemma_tar_records_have_no_checksum(
    entries: Seq<(Seq<u8>, u64, Seq<u8>)>,
    v: FileEntryView,
)
    requires
        is_tar_record(entries, v),
    ensures
        v.crc32 is None,
{
    let i = choose|i: int|
        0 <= i < entries.len() && (#[trigger] entries[i]).1 > 0 && v == tar_record_of(entries[i]);
    assert(v == tar_record_of(entries[i]));
}

/// Where every member's recorded size fits the record field, no listed
/// TAR record shows size zero: zero-size members never appear.
pub proof fn lemma_tar_listing_positive(entries: Seq<(Seq<u8>, u64, Seq<u8>)>, v: FileEntryView)
    requires
        is_tar_record(entries, v),
        forall|i: int| 0 <= i < entries.len() ==> (#[trigger] entries[i]).1 < 0x1_0000_0000,
    ensures
        v.size > 0,
{
    let i = choose|i: int|
        0 <= i < entries.len() && (#[trigger] entries[i]).1 > 0 && v == tar_record_of(entries[i]);
    assert(v == tar_record_of(entries[i]));
}

/// Where every member's recorded size fits the record field, no listed
/// ZIP record shows size zero: zero-size members never appear.
pub proof fn lemma_zip_listing_positive(entries: Seq<(Seq<char>, u64, u32)>, v: FileEntryView)
    requires
        is_zip_record(entries, v),
        forall|i: int| 0 <= i < entries.len() ==> (#[trigger] entries[i]).1 < 0x1_0000_0000,
    ensures
        v.size > 0,
{
    let i = choose|i: int|
        0 <= i < entries.len() && (#[trigger] entries[i]).1 > 0 && !is_dir_name(entries[i].0) && v == zip_record_of(entries[i]);
    assert(v == zip_record_of(entries[i]));
}

/// End to end: a ZIP index holding exactly two positive-size,
/// non-directory members with distinct paths lists as exactly two
/// records, each with its checksum present, in strict path order.
pub proof fn lemma_zip_listing_two_members(
    entries: Seq<(Seq<char>, u64, u32)>,
    vs: Seq<FileEntryView>,
)
    requires
        entries.len() == 2,
        entries[0].1 > 0,
        entries[1].1 > 0,
        !is_dir_name(entries[0].0),
        !is_dir_name(entries[1].0),
        entries[0].0 != entries[1].0,
        strictly_sorted::<FileEntry>(vs),
        forall|v: FileEntryView| vs.contains(v) <==> is_zip_record(entries, v),
    ensures
        vs.len() == 2,
        vs[0].crc32 is Some,
        vs[1].crc32 is Some,
        seq_char_le(vs[0].path, vs[1].path),
        vs[0].path != vs[1].path,
{
    let r0 = zip_record_of(entries[0]);
    let r1 = zip_record_of(entries[1]);
    assert(r0.path != r1.path);
    assert(is_zip_record(entries, r0)) by {
        assert(0 <= 0 < entries.len() && entries[0].1 > 0 && !is_dir_name(entries[0].0) && r0
            == zip_record_of(entries[0]));
    }
    assert(is_zip_record(entries, r1)) by {
        assert(0 <= 1 < entries.len() && entries[1].1 > 0 && !is_dir_name(entries[1].0) && r1
            == zip_record_of(entries[1]));
    }
    assert(vs.contains(r0));
    assert(vs.contains(r1));
    let i0 = choose|i: int| 0 <= i < vs.len() && vs[i] == r0;
    let i1 = choose|i: int| 0 <= i < vs.len() && vs[i] == r1;
    assert(i0 != i1);
    assert(vs.len() >= 2);
    assert forall|i: int| 0 <= i < vs.len() implies vs[i] == r0 || vs[i] == r1 by {
        assert(vs.contains(vs[i]));
        let j = choose|j: int|
            0 <= j < entries.len() && (#[trigger] entries[j]).1 > 0 && !is_dir_name(
                entries[j].0,
            ) && vs[i] == zip_record_of(entries[j]);
        assert(j == 0 || j == 1);
    }
    if vs.len() >= 3 {
        assert(vs[0] != vs[1] && vs[0] != vs[2] && vs[1] != vs[2]);
        assert(false);
    }
    assert(vs[0] != vs[1]);
    assert(vs[0].path != vs[1].path) by {
        if vs[0].path == vs[1].path {
            assert((vs[0] == r0 && vs[1] == r1) || (vs[0] == r1 && vs[1] == r0));
        }
    }
    assert(entry_le(vs[0], vs[1]));
}

/// End to end: a TAR index holding one zero-size member and one
/// positive-size member, both with readable paths, lists as exactly the
/// positive member's record, without a checksum; when its recorded size
/// fits the 32-bit record field, the record shows it exactly.
pub proof fn lemma_tar_listing_one_file(
    entries: Seq<(Seq<u8>, u64, Seq<u8>)>,
    vs: Seq<FileEntryView>,
)
    requires
        entries.len() == 2,
        entries[0].1 == 0,
        entries[1].1 > 0,
        entries[1].1 < 0x1_0000_0000,
        strictly_sorted::<FileEntry>(vs),
        forall|v: FileEntryView| vs.contains(v) <==> is_tar_record(entries, v),
    ensures
        vs.len() == 1,
        vs[0] == tar_record_of(entries[1]),
        vs[0].size == entries[1].1,
        vs[0].crc32 is None,
{
    let r = tar_record_of(entries[1]);
    assert(is_tar_record(entries, r)) by {
        assert(0 <= 1 < entries.len() && entries[1].1 > 0 && r == tar_record_of(entries[1]));
    }
    assert(vs.contains(r));
    assert(vs.len() >= 1);
    assert forall|i: int| 0 <= i < vs.len() implies vs[i] == r by {
        assert(vs.contains(vs[i]));
        let j = choose|j: int|
            0 <= j < entries.len() && (#[trigger] entries[j]).1 > 0 && vs[i] == tar_record_of(
                entries[j],
            );
        assert(j == 1);
    }
    if vs.len() >= 2 {
        assert(vs[0] != vs[1]);
        assert(false);
    }
}

/// End to end, the content pass: over a TAR index holding one zero-size
/// member and one positive-size member, both with readable paths, the
/// first step meets the positive member alone and the pass then ends:
/// the zero-size placeholder never shows as a yielded item.
pub proof fn lemma_tar_pass_one_file(entries: Seq<(Seq<u8>, u64, Seq<u8>)>)
    requires
        entries.len() == 2,
        entries[0].1 == 0,
        valid_utf8(entries[0].0),
        valid_utf8(entries[1].0),
        entries[1].1 > 0,
    ensures
        tar_step_of(entries, 0) == TarStep::Item(1),
        tar_step_of(entries, 2) == TarStep::End,
{
    assert(tar_step_of(entries, 0) == tar_step_of(entries, 1));
    assert(tar_step_of(entries, 1) == TarStep::Item(1));
}

/// The mathematical value of an [`Error`].
pub enum ErrorView {
    Zip(Seq<char>),
    Io(Seq<char>),
    UnknownExtension(Seq<char>),
    InvalidEntryPath(Seq<u8>),
    DecodingIo(FileEntryView, Seq<char>),
}

impl View for Error {
    type V = ErrorView;

    open spec fn view(&self) -> ErrorView {
        match self {
            Error::Zip(s) => ErrorView::Zip(s@),
            Error::Io(s) => ErrorView::Io(s@),
            Error::UnknownExtension(s) => ErrorView::UnknownExtension(s@),
            Error::InvalidEntryPath(p) => ErrorView::InvalidEntryPath(p@),
            Error::DecodingIo(e, s) => ErrorView::DecodingIo(e@, s@),
        }
    }
}

} // verus!
