use vstd::prelude::*;
use crate::decode::{bunzip, bunzip_of, utf8_to_string};
use crate::order::{sort_dedup, strictly_sorted, view_seq, TotalOrder};
use crate::text::{spec_lines, split_lines, str_eq};
use vstd::utf8::{decode_utf8, valid_utf8};

verus! {

/// One member as the ZIP central directory describes it: its path, its
/// uncompressed size, and its stored checksum.
pub struct ZipEntryRaw {
    pub path: String,
    pub size: u64,
    pub crc32: u32,
}

impl View for ZipEntryRaw {
    type V = (Seq<char>, u64, u32);

    open spec fn view(&self) -> (Seq<char>, u64, u32) {
        (self.path@, self.size, self.crc32)
    }
}

/// What the ZIP index of a byte buffer holds: the members the library's
/// name-keyed index keeps, directories included, in central directory
/// order — members sharing a name collapse to one entry; nothing when
/// the buffer is not a readable ZIP archive.
pub uninterp spec fn zip_entries_of(data: Seq<u8>) -> Option<Seq<(Seq<char>, u64, u32)>>;

/// The decompressed bytes of the member at one index of that order, or
/// nothing when the index names no member or its data cannot be read.
pub uninterp spec fn zip_data_of(data: Seq<u8>, i: int) -> Option<Seq<u8>>;

/// Relies on zip's `ZipArchive::new` and `by_index_raw`: the central
/// directory read from a byte buffer is a function of the bytes, each
/// entry carrying its decoded name, size and checksum, in central
/// directory order.
#[verifier::external_body]
pub(crate) fn zip_raw_entries(data: &[u8]) -> (r: Result<Vec<ZipEntryRaw>, String>)
    ensures
        match r {
            Ok(es) => zip_entries_of(data@) == Some(view_seq(es@)),
            Err(_) => zip_entries_of(data@) is None,
        },
{
    let mut archive = match zip::ZipArchive::new(std::io::Cursor::new(data)) {
        Ok(a) => a,
        Err(e) => return Err(format!("{}", e)),
    };
    let mut out = Vec::new();
    for i in 0..archive.len() {
        let f = archive.by_index_raw(i).map_err(|e| format!("{}", e))?;
        out.push(ZipEntryRaw { path: f.name().to_string(), size: f.size(), crc32: f.crc32() });
    }
    Ok(out)
}

/// Relies on zip's `ZipArchive::by_index` read to completion:
/// decompressing the member at one index of the central directory is a
/// function of the buffer and the index, and fails exactly when the
/// archive, the index or the member's data is bad.
#[verifier::external_body]
pub(crate) fn zip_entry_data(data: &[u8], i: usize) -> (r: Result<Vec<u8>, String>)
    ensures
        match r {
            Ok(out) => zip_data_of(data@, i as int) == Some(out@),
            Err(_) => zip_data_of(data@, i as int) is None,
        },
{
    let mut archive = match zip::ZipArchive::new(std::io::Cursor::new(data)) {
        Ok(a) => a,
        Err(e) => return Err(format!("{}", e)),
    };
    let mut f = archive.by_index(i).map_err(|e| format!("{}", e))?;
    let mut out = Vec::new();
    match std::io::Read::read_to_end(&mut f, &mut out) {
        Ok(_) => Ok(out),
        Err(e) => Err(format!("{}", e)),
    }
}

/// What can go wrong while reading members out of a ZIP archive.
#[derive(Debug)]
pub enum Error {
    /// A member's data failed to decode; carries the report.
    Io(String),
    /// The ZIP library failed to read the archive or find the member.
    Zip(String),
}

/// The mathematical value of an [`Error`].
pub enum ErrorView {
    Io(Seq<char>),
    Zip(Seq<char>),
}

impl View for Error {
    type V = ErrorView;

    open spec fn view(&self) -> ErrorView {
        match self {
            Error::Io(s) => ErrorView::Io(s@),
            Error::Zip(s) => ErrorView::Zip(s@),
        }
    }
}

/// A member name that denotes a directory: it ends in `'/'`.
pub open spec fn is_dir_name(s: Seq<char>) -> bool {
    s.len() > 0 && s[s.len() - 1] == '/'
}

/// `v` is the path of some member of `entries` that is not a directory
/// (its name does not end in `'/'`).
pub open spec fn is_zip_file_name(entries: Seq<(Seq<char>, u64, u32)>, v: Seq<char>) -> bool {
    exists|i: int|
        0 <= i < entries.len() && (#[trigger] entries[i]).0 == v && !(v.len() > 0 && v[v.len() - 1]
            == '/')
}

/// Lists the member names of a ZIP archive held in a byte buffer:
/// every name not ending in `'/'`, strictly sorted with duplicates
/// dropped.  Fails exactly when the buffer is not a readable archive.
pub fn list(data: &[u8]) -> (r: Result<Vec<String>, Error>)
    ensures
        match r {
            Ok(names) => zip_entries_of(data@) matches Some(entries) && strictly_sorted::<String>(
                view_seq(names@),
            ) && (forall|v: Seq<char>| view_seq(names@).contains(v) <==> is_zip_file_name(
                entries,
                v,
            )),
            Err(e) => zip_entries_of(data@) is None && e@ is Zip,
        },
{
    let raw = match zip_raw_entries(data) {
        Ok(es) => es,
        Err(msg) => {
            return Err(Error::Zip(msg));
        },
    };
    let ghost entries = zip_entries_of(data@).unwrap();
    let mut names: Vec<String> = Vec::new();
    let mut k: usize = 0;
    proof {
        assert(view_seq(names@) =~= Seq::<Seq<char>>::empty());
    }
    while k < raw.len()
        invariant
            0 <= k <= raw.len(),
            entries == zip_entries_of(data@).unwrap(),
            zip_entries_of(data@) is Some,
            view_seq(raw@) == entries,
            raw@.len() == entries.len(),
            forall|v: Seq<char>|
                view_seq(names@).contains(v) <==> exists|i: int|
                    0 <= i < k && (#[trigger] entries[i]).0 == v && !(v.len() > 0 && v[v.len() - 1]
                        == '/'),
        decreases raw.len() - k,
    {
        let ghost prev = view_seq(names@);
        assert(entries[k as int] == raw@[k as int]@);
        let plen = raw[k].path.as_str().unicode_len();
        let is_dir = plen > 0 && raw[k].path.as_str().get_char(plen - 1) == '/';
        if !is_dir {
            let name = raw[k].path.as_str().to_owned();
            names.push(name);
            proof {
                let x = entries[k as int].0;
                assert(view_seq(names@) =~= prev.push(x));
                assert forall|v: Seq<char>| view_seq(names@).contains(v) <==> exists|i: int|
                    0 <= i < k + 1 && (#[trigger] entries[i]).0 == v && !(v.len() > 0 && v[v.len()
                        - 1] == '/') by {
                    crate::order::lemma_push_contains(prev, x, v);
                    if prev.contains(v) {
                        let i = choose|i: int|
                            0 <= i < k && (#[trigger] entries[i]).0 == v && !(v.len() > 0
                                && v[v.len() - 1] == '/');
                        assert(0 <= i < k + 1 && entries[i].0 == v && !(v.len() > 0 && v[v.len()
                            - 1] == '/'));
                    } else if v == x {
                        assert(0 <= k < k + 1 && entries[k as int].0 == v && !(v.len() > 0
                            && v[v.len() - 1] == '/'));
                    }
                    if exists|i: int|
                        0 <= i < k + 1 && (#[trigger] entries[i]).0 == v && !(v.len() > 0
                            && v[v.len() - 1] == '/') {
                        let i = choose|i: int|
                            0 <= i < k + 1 && (#[trigger] entries[i]).0 == v && !(v.len() > 0
                                && v[v.len() - 1] == '/');
                        if i < k {
                            assert(prev.contains(v));
                        }
                    }
                }
            }
        } else {
            proof {
                assert forall|v: Seq<char>| view_seq(names@).contains(v) <==> exists|i: int|
                    0 <= i < k + 1 && (#[trigger] entries[i]).0 == v && !(v.len() > 0 && v[v.len()
                        - 1] == '/') by {
                    if exists|i: int|
                        0 <= i < k + 1 && (#[trigger] entries[i]).0 == v && !(v.len() > 0
                            && v[v.len() - 1] == '/') {
                        let i = choose|i: int|
                            0 <= i < k + 1 && (#[trigger] entries[i]).0 == v && !(v.len() > 0
                                && v[v.len() - 1] == '/');
                        assert(i < k);
                    }
                }
            }
        }
        k += 1;
    }
    let sorted = sort_dedup(names);
    Ok(sorted)
}

/// The first index at which `entries` holds a member named `name`, or
/// `-1` if there is none.
pub open spec fn find_name(entries: Seq<(Seq<char>, u64, u32)>, name: Seq<char>) -> int
    decreases entries.len(),
{
    if entries.len() == 0 {
        -1
    } else if entries[0].0 == name {
        0
    } else {
        let r = find_name(entries.drop_first(), name);
        if r == -1 {
            -1
        } else {
            r + 1
        }
    }
}

pub proof fn lemma_find_name(entries: Seq<(Seq<char>, u64, u32)>, name: Seq<char>)
    ensures
        -1 <= find_name(entries, name) < entries.len(),
        find_name(entries, name) >= 0 ==> entries[find_name(entries, name)].0 == name,
        forall|j: int|
            0 <= j < find_name(entries, name) ==> (#[trigger] entries[j]).0 != name,
        find_name(entries, name) == -1 ==> forall|j: int|
            0 <= j < entries.len() ==> (#[trigger] entries[j]).0 != name,
    decreases entries.len(),
{
    if entries.len() > 0 && entries[0].0 != name {
        let d = entries.drop_first();
        lemma_find_name(d, name);
        assert(forall|j: int| 0 <= j < entries.len() - 1 ==> #[trigger] d[j] == entries[j + 1]);
        assert forall|j: int|
            0 <= j < find_name(entries, name) implies (#[trigger] entries[j]).0 != name by {
            if j > 0 {
                assert(d[j - 1] == entries[j]);
            }
        }
        if find_name(entries, name) == -1 {
            assert forall|j: int|
                0 <= j < entries.len() implies (#[trigger] entries[j]).0 != name by {
                if j > 0 {
                    assert(d[j - 1] == entries[j]);
                }
            }
        }
    }
}

/// The position of the first member named `name`, if any.
fn find_entry_index(raw: &Vec<ZipEntryRaw>, name: &str) -> (r: Option<usize>)
    ensures
        match r {
            Some(i) => find_name(view_seq(raw@), name@) == i as int,
            None => find_name(view_seq(raw@), name@) == -1,
        },
{
    let ghost entries = view_seq(raw@);
    let mut k: usize = 0;
    while k < raw.len()
        invariant
            0 <= k <= raw.len(),
            entries == view_seq(raw@),
            raw@.len() == entries.len(),
            forall|j: int| 0 <= j < k ==> (#[trigger] entries[j]).0 != name@,
        decreases raw.len() - k,
    {
        assert(entries[k as int] == raw@[k as int]@);
        if str_eq(raw[k].path.as_str(), name) {
            proof {
                lemma_find_name(entries, name@);
                if find_name(entries, name@) > k as int {
                    assert(entries[k as int].0 != name@);
                }
                if 0 <= find_name(entries, name@) < k as int {
                    assert(entries[find_name(entries, name@)].0 != name@);
                }
                if find_name(entries, name@) == -1 {
                    assert(entries[k as int].0 != name@);
                }
                assert(find_name(entries, name@) == k as int);
            }
            return Some(k);
        }
        k += 1;
    }
    proof {
        lemma_find_name(entries, name@);
        if find_name(entries, name@) >= 0 {
            assert(entries[find_name(entries, name@)].0 == name@);
        }
    }
    None
}

/// Reads the named member of a ZIP archive held in a byte buffer, runs
/// its data through the bzip2 decoder, and returns the decoded text as
/// lines.  Fails with the ZIP condition when the archive cannot be read
/// or holds no member of that name, and with the decoding condition when
/// the member's data cannot be read or is not bzip2-compressed text.
pub fn extract(data: &[u8], name: &str) -> (r: Result<Vec<String>, Error>)
    ensures
        match r {
            Ok(lines) => ({
                &&& zip_entries_of(data@) matches Some(entries)
                &&& find_name(entries, name@) >= 0
                &&& zip_data_of(data@, find_name(entries, name@)) matches Some(b)
                &&& bunzip_of(b) matches Some(t)
                &&& valid_utf8(t)
                &&& view_seq(lines@) == spec_lines(decode_utf8(t))
            }),
            Err(e) => match e@ {
                ErrorView::Zip(_) => {
                    ||| zip_entries_of(data@) is None
                    ||| (zip_entries_of(data@) matches Some(entries) && find_name(entries, name@)
                        == -1)
                },
                ErrorView::Io(_) => {
                    &&& zip_entries_of(data@) matches Some(entries)
                    &&& find_name(entries, name@) >= 0
                    &&& match zip_data_of(data@, find_name(entries, name@)) {
                        Some(b) => match bunzip_of(b) {
                            Some(t) => !valid_utf8(t),
                            None => true,
                        },
                        None => true,
                    }
                },
            },
        },
{
    let raw = match zip_raw_entries(data) {
        Ok(es) => es,
        Err(msg) => {
            return Err(Error::Zip(msg));
        },
    };
    let ghost entries = zip_entries_of(data@).unwrap();
    let found = match find_entry_index(&raw, name) {
        Some(i) => i,
        None => {
            return Err(Error::Zip("file not found in archive".to_owned()));
        },
    };
    let member = match zip_entry_data(data, found) {
        Ok(b) => b,
        Err(msg) => {
            return Err(Error::Io(msg));
        },
    };
    let text = match bunzip(member.as_slice()) {
        Ok(t) => t,
        Err(msg) => {
            return Err(Error::Io(msg));
        },
    };
    let decoded = match utf8_to_string(text.as_slice()) {
        Some(s) => s,
        None => {
            return Err(Error::Io("stream did not contain valid UTF-8".to_owned()));
        },
    };
    Ok(split_lines(decoded.as_str()))
}

} // verus!
