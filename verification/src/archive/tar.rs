use vstd::prelude::*;
use crate::order::{
    lemma_seq_char_le_antisym, lemma_seq_char_le_total, lemma_seq_char_le_trans, seq_char_le,
    sort_dedup, strictly_sorted, view_seq, TotalOrder,
};
use crate::text::{str_eq, str_le};
use crate::decode::utf8_to_string;
use vstd::utf8::{decode_utf8, valid_utf8};

verus! {

/// One member as the TAR cursor hands it over: its raw path bytes, the
/// size its header records, and its content bytes.
pub struct TarEntryRaw {
    pub path: Vec<u8>,
    pub size: u64,
    pub data: Vec<u8>,
}

impl View for TarEntryRaw {
    type V = (Seq<u8>, u64, Seq<u8>);

    open spec fn view(&self) -> (Seq<u8>, u64, Seq<u8>) {
        (self.path@, self.size, self.data@)
    }
}

/// What the TAR cursor yields over a byte buffer: the members it can
/// read, in stream order, and whether it then stopped with an error
/// instead of reaching the end of the archive.
pub uninterp spec fn tar_entries_of(data: Seq<u8>) -> (Seq<(Seq<u8>, u64, Seq<u8>)>, bool);

/// As [`tar_entries_of`], for a gzip-compressed buffer: the gzip layer is
/// decoded once for the whole stream, under the TAR cursor.
pub uninterp spec fn tar_gz_entries_of(data: Seq<u8>) -> (Seq<(Seq<u8>, u64, Seq<u8>)>, bool);

/// Relies on tar's `Archive` over a byte slice: the entries, their paths,
/// header sizes and contents are a function of the bytes; a corrupt
/// archive ends the cursor with an error after the sound leading entries.
#[verifier::external_body]
pub(crate) fn tar_raw_entries(data: &[u8]) -> (r: (Vec<TarEntryRaw>, Option<String>))
    ensures
        view_seq(r.0@) == tar_entries_of(data@).0,
        (r.1 is Some) == tar_entries_of(data@).1,
{
    let mut archive = tar::Archive::new(data);
    let mut out = Vec::new();
    let entries = match archive.entries() { Ok(es) => es, Err(e) => return (out, Some(format!("{}", e))) };
    for entry in entries {
        let one = entry.and_then(|mut e| {
            let (path, size, mut buf) = (e.path_bytes().to_vec(), e.size(), Vec::new());
            std::io::Read::read_to_end(&mut e, &mut buf)?;
            Ok(TarEntryRaw { path, size, data: buf })
        });
        match one { Ok(t) => out.push(t), Err(e) => return (out, Some(format!("{}", e))) }
    }
    (out, None)
}

/// Relies on flate2's `GzDecoder` under tar's `Archive`: one whole-stream
/// gzip layer, then the TAR cursor, with the same reading discipline as
/// [`tar_raw_entries`].
#[verifier::external_body]
pub(crate) fn tar_gz_raw_entries(data: &[u8]) -> (r: (Vec<TarEntryRaw>, Option<String>))
    ensures
        view_seq(r.0@) == tar_gz_entries_of(data@).0,
        (r.1 is Some) == tar_gz_entries_of(data@).1,
{
    let mut archive = tar::Archive::new(flate2::read::GzDecoder::new(data));
    let mut out = Vec::new();
    let entries = match archive.entries() { Ok(es) => es, Err(e) => return (out, Some(format!("{}", e))) };
    for entry in entries {
        let one = entry.and_then(|mut e| {
            let (path, size, mut buf) = (e.path_bytes().to_vec(), e.size(), Vec::new());
            std::io::Read::read_to_end(&mut e, &mut buf)?;
            Ok(TarEntryRaw { path, size, data: buf })
        });
        match one { Ok(t) => out.push(t), Err(e) => return (out, Some(format!("{}", e))) }
    }
    (out, None)
}

/// One path and size pair of a TAR listing.
#[derive(Debug)]
pub struct TarItem {
    pub path: String,
    pub size: u64,
}

/// The mathematical value of a [`TarItem`].
pub struct TarItemView {
    pub path: Seq<char>,
    pub size: u64,
}

impl View for TarItem {
    type V = TarItemView;

    open spec fn view(&self) -> TarItemView {
        TarItemView { path: self.path@, size: self.size }
    }
}

impl TotalOrder for TarItem {
    open spec fn le(a: TarItemView, b: TarItemView) -> bool {
        if a.path != b.path {
            seq_char_le(a.path, b.path)
        } else {
            a.size <= b.size
        }
    }

    proof fn lemma_le_total(a: TarItemView, b: TarItemView) {
        if a.path != b.path {
            lemma_seq_char_le_total(a.path, b.path);
        }
    }

    proof fn lemma_le_antisym(a: TarItemView, b: TarItemView) {
        if a.path != b.path {
            lemma_seq_char_le_antisym(a.path, b.path);
        }
    }

    proof fn lemma_le_trans(a: TarItemView, b: TarItemView, c: TarItemView) {
        if seq_char_le(a.path, b.path) && seq_char_le(b.path, c.path) {
            lemma_seq_char_le_trans(a.path, b.path, c.path);
        }
        if seq_char_le(a.path, b.path) && seq_char_le(b.path, a.path) {
            lemma_seq_char_le_antisym(a.path, b.path);
        }
        if seq_char_le(b.path, c.path) && seq_char_le(c.path, b.path) {
            lemma_seq_char_le_antisym(b.path, c.path);
        }
    }

    fn le_exec(&self, other: &Self) -> (r: bool) {
        if !str_eq(self.path.as_str(), other.path.as_str()) {
            str_le(self.path.as_str(), other.path.as_str())
        } else {
            self.size <= other.size
        }
    }
}

/// What can go wrong while listing a TAR archive.
#[derive(Debug)]
pub enum Error {
    /// The underlying cursor failed; carries its report.
    Io(String),
    /// A member path that is not valid text; carries its raw bytes.
    InvalidEntryPath(Vec<u8>),
}

/// A member whose path bytes are not valid text: listing fails on the
/// first of these, whatever its recorded size.
pub open spec fn bad_tar_entry(e: (Seq<u8>, u64, Seq<u8>)) -> bool {
    !valid_utf8(e.0)
}

/// The index of the first entry the listing rejects, or `-1`.
pub open spec fn first_bad_tar_entry(entries: Seq<(Seq<u8>, u64, Seq<u8>)>) -> int
    decreases entries.len(),
{
    if entries.len() == 0 {
        -1
    } else if bad_tar_entry(entries[0]) {
        0
    } else {
        let r = first_bad_tar_entry(entries.drop_first());
        if r == -1 {
            -1
        } else {
            r + 1
        }
    }
}

pub proof fn lemma_first_bad_tar_entry(entries: Seq<(Seq<u8>, u64, Seq<u8>)>)
    ensures
        -1 <= first_bad_tar_entry(entries) < entries.len(),
        first_bad_tar_entry(entries) >= 0 ==> bad_tar_entry(entries[first_bad_tar_entry(entries)]),
        forall|j: int|
            0 <= j < first_bad_tar_entry(entries) ==> !bad_tar_entry(#[trigger] entries[j]),
        first_bad_tar_entry(entries) == -1 ==> forall|j: int|
            0 <= j < entries.len() ==> !bad_tar_entry(#[trigger] entries[j]),
    decreases entries.len(),
{
    if entries.len() > 0 && !bad_tar_entry(entries[0]) {
        let d = entries.drop_first();
        lemma_first_bad_tar_entry(d);
        assert(forall|j: int| 0 <= j < entries.len() - 1 ==> #[trigger] d[j] == entries[j + 1]);
        assert forall|j: int|
            0 <= j < first_bad_tar_entry(entries) implies !bad_tar_entry(entries[j]) by {
            if j > 0 {
                assert(d[j - 1] == entries[j]);
                assert(!bad_tar_entry(d[j - 1]));
            }
        }
        if first_bad_tar_entry(entries) == -1 {
            assert forall|j: int| 0 <= j < entries.len() implies !bad_tar_entry(entries[j]) by {
                if j > 0 {
                    assert(d[j - 1] == entries[j]);
                    assert(!bad_tar_entry(d[j - 1]));
                }
            }
        }
    }
}

/// A listing line for one member whose path decodes: its path and size.
pub open spec fn tar_item_of(e: (Seq<u8>, u64, Seq<u8>)) -> TarItemView {
    TarItemView { path: decode_utf8(e.0), size: e.1 }
}

/// `v` describes some positive-size member of `entries`.
pub open spec fn is_tar_item(entries: Seq<(Seq<u8>, u64, Seq<u8>)>, v: TarItemView) -> bool {
    exists|i: int|
        0 <= i < entries.len() && (#[trigger] entries[i]).1 > 0 && v == tar_item_of(entries[i])
}

/// Lists the members of a TAR archive held in a byte buffer: one line per
/// member of positive recorded size, holding its path and that size,
/// strictly sorted by path and size with duplicates dropped.  Fails on
/// the first member whose path is not valid text, whatever its size,
/// else on a cursor error; zero-size members with readable paths never
/// appear.
pub fn list(data: &[u8]) -> (r: Result<Vec<TarItem>, Error>)
    ensures
        ({
            let (entries, broken) = tar_entries_of(data@);
            match r {
                Ok(items) => first_bad_tar_entry(entries) == -1 && !broken && strictly_sorted::<
                    TarItem,
                >(view_seq(items@)) && (forall|v: TarItemView|
                    view_seq(items@).contains(v) <==> is_tar_item(entries, v)),
                Err(e) => match e@ {
                    ErrorView::Io(_) => first_bad_tar_entry(entries) == -1 && broken,
                    ErrorView::InvalidEntryPath(p) => first_bad_tar_entry(entries) >= 0 && p
                        == entries[first_bad_tar_entry(entries)].0,
                },
            }
        }),
{
    let (raw, err) = tar_raw_entries(data);
    let ghost entries = tar_entries_of(data@).0;
    proof {
        lemma_first_bad_tar_entry(entries);
    }
    let mut items: Vec<TarItem> = Vec::new();
    let mut k: usize = 0;
    while k < raw.len()
        invariant
            0 <= k <= raw.len(),
            entries == tar_entries_of(data@).0,
            (err is Some) == tar_entries_of(data@).1,
            view_seq(raw@) == entries,
            raw@.len() == entries.len(),
            forall|j: int| 0 <= j < k ==> !bad_tar_entry(#[trigger] entries[j]),
            forall|v: TarItemView|
                view_seq(items@).contains(v) <==> exists|i: int|
                    0 <= i < k && (#[trigger] entries[i]).1 > 0 && v == tar_item_of(entries[i]),
        decreases raw.len() - k,
    {
        let ghost prev_items = view_seq(items@);
        assert(entries[k as int] == raw@[k as int]@);
        match utf8_to_string(raw[k].path.as_slice()) {
            None => {
                proof {
                    lemma_first_bad_tar_entry(entries);
                    let fb = first_bad_tar_entry(entries);
                    assert(bad_tar_entry(entries[k as int]));
                    assert(fb >= 0);
                    assert(fb >= 0 ==> bad_tar_entry(entries[fb]));
                    assert(forall|j: int| 0 <= j < k ==> !bad_tar_entry(#[trigger] entries[j]));
                    assert(fb >= k);
                    assert(fb <= k);
                    assert(first_bad_tar_entry(entries) == k as int);
                    assert(entries[k as int].0 == raw@[k as int].path@);
                }
                return Err(Error::InvalidEntryPath(copy_bytes(&raw[k].path)));
            },
            Some(path) => {
                if raw[k].size > 0 {
                    let item = TarItem { path, size: raw[k].size };
                    proof {
                        assert(item@ == tar_item_of(entries[k as int]));
                    }
                    items.push(item);
                    proof {
                        let ghost x = tar_item_of(entries[k as int]);
                        assert(view_seq(items@) =~= prev_items.push(x));
                        assert forall|v: TarItemView| view_seq(items@).contains(v) <==> exists|
                            i: int,
                        |
                            0 <= i < k + 1 && (#[trigger] entries[i]).1 > 0 && v == tar_item_of(
                                entries[i],
                            ) by {
                            crate::order::lemma_push_contains(prev_items, x, v);
                            if prev_items.contains(v) {
                                let i = choose|i: int|
                                    0 <= i < k && (#[trigger] entries[i]).1 > 0 && v
                                        == tar_item_of(entries[i]);
                                assert(0 <= i < k + 1 && entries[i].1 > 0 && v == tar_item_of(
                                    entries[i],
                                ));
                            } else if v == x {
                                assert(0 <= k < k + 1 && entries[k as int].1 > 0 && v
                                    == tar_item_of(entries[k as int]));
                            }
                            if exists|i: int|
                                0 <= i < k + 1 && (#[trigger] entries[i]).1 > 0 && v
                                    == tar_item_of(entries[i]) {
                                let i = choose|i: int|
                                    0 <= i < k + 1 && (#[trigger] entries[i]).1 > 0 && v
                                        == tar_item_of(entries[i]);
                                if i < k {
                                    assert(prev_items.contains(v));
                                }
                            }
                        }
                    }
                } else {
                    proof {
                        assert(entries[k as int].1 == 0);
                        assert forall|v: TarItemView| view_seq(items@).contains(v) <==> exists|
                            i: int,
                        |
                            0 <= i < k + 1 && (#[trigger] entries[i]).1 > 0 && v == tar_item_of(
                                entries[i],
                            ) by {
                            if exists|i: int|
                                0 <= i < k + 1 && (#[trigger] entries[i]).1 > 0 && v
                                    == tar_item_of(entries[i]) {
                                let i = choose|i: int|
                                    0 <= i < k + 1 && (#[trigger] entries[i]).1 > 0 && v
                                        == tar_item_of(entries[i]);
                                assert(i < k);
                            }
                        }
                    }
                }
            },
        }
        k += 1;
    }
    if let Some(msg) = err {
        return Err(Error::Io(msg));
    }
    let sorted = sort_dedup(items);
    proof {
        assert forall|v: TarItemView| view_seq(sorted@).contains(v) <==> is_tar_item(entries, v) by {}
    }
    Ok(sorted)
}

/// A copy of a byte vector with the same contents.
pub(crate) fn copy_bytes(b: &Vec<u8>) -> (r: Vec<u8>)
    ensures
        r@ == b@,
{
    let mut out: Vec<u8> = Vec::new();
    let mut i: usize = 0;
    while i < b.len()
        invariant
            0 <= i <= b@.len(),
            out@ == b@.take(i as int),
        decreases b@.len() - i,
    {
        out.push(b[i]);
        proof {
            assert(out@ =~= b@.take(i + 1 as int));
        }
        i += 1;
    }
    proof {
        assert(b@.take(b@.len() as int) =~= b@);
    }
    out
}

/// The mathematical value of an [`Error`].
pub enum ErrorView {
    Io(Seq<char>),
    InvalidEntryPath(Seq<u8>),
}

impl View for Error {
    type V = ErrorView;

    open spec fn view(&self) -> ErrorView {
        match self {
            Error::Io(s) => ErrorView::Io(s@),
            Error::InvalidEntryPath(p) => ErrorView::InvalidEntryPath(p@),
        }
    }
}

} // verus!
