use vstd::prelude::*;
use crate::archive::{last_dot, lemma_last_dot};
use crate::codec::{hex_bytes, hex_decode, is_hex_seq, parse_hex_u32, parse_i64, spec_parse_hex_u32,
    spec_parse_i64};
use crate::order::{
    lemma_seq_char_le_antisym, lemma_seq_char_le_total, lemma_seq_char_le_trans, seq_char_le,
    sort_dedup, strictly_sorted, view_seq, TotalOrder,
};
use crate::text::{str_eq, str_le};

verus! {

/// One expected archive member as the sidecar catalog describes it: the
/// collection it belongs to, its path, size and checksum, and two
/// content digests.
#[derive(Debug)]
pub struct Record {
    pub item: String,
    pub name: String,
    pub size: i64,
    pub crc32: u32,
    pub md5: [u8; 16],
    pub sha1: [u8; 20],
}

/// The mathematical value of a [`Record`].
pub struct RecordView {
    pub item: Seq<char>,
    pub name: Seq<char>,
    pub size: i64,
    pub crc32: u32,
    pub md5: Seq<u8>,
    pub sha1: Seq<u8>,
}

impl View for Record {
    type V = RecordView;

    open spec fn view(&self) -> RecordView {
        RecordView {
            item: self.item@,
            name: self.name@,
            size: self.size,
            crc32: self.crc32,
            md5: self.md5@,
            sha1: self.sha1@,
        }
    }
}

/// Lexicographic "less than or equal" on byte sequences.
pub open spec fn seq_u8_le(a: Seq<u8>, b: Seq<u8>) -> bool
    decreases a.len(),
{
    if a.len() == 0 {
        true
    } else if b.len() == 0 {
        false
    } else if a[0] < b[0] {
        true
    } else if b[0] < a[0] {
        false
    } else {
        seq_u8_le(a.drop_first(), b.drop_first())
    }
}

pub proof fn lemma_seq_u8_le_total(a: Seq<u8>, b: Seq<u8>)
    ensures
        seq_u8_le(a, b) || seq_u8_le(b, a),
    decreases a.len(),
{
    if a.len() > 0 && b.len() > 0 && a[0] == b[0] {
        lemma_seq_u8_le_total(a.drop_first(), b.drop_first());
    }
}

pub proof fn lemma_seq_u8_le_antisym(a: Seq<u8>, b: Seq<u8>)
    requires
        seq_u8_le(a, b),
        seq_u8_le(b, a),
    ensures
        a == b,
    decreases a.len(),
{
    if a.len() > 0 && b.len() > 0 {
        lemma_seq_u8_le_antisym(a.drop_first(), b.drop_first());
        assert(a =~= seq![a[0]] + a.drop_first());
        assert(b =~= seq![b[0]] + b.drop_first());
    }
}

pub proof fn lemma_seq_u8_le_trans(a: Seq<u8>, b: Seq<u8>, c: Seq<u8>)
    requires
        seq_u8_le(a, b),
        seq_u8_le(b, c),
    ensures
        seq_u8_le(a, c),
    decreases a.len(),
{
    if a.len() > 0 && b.len() > 0 && c.len() > 0 {
        if a[0] == b[0] && b[0] == c[0] {
            lemma_seq_u8_le_trans(a.drop_first(), b.drop_first(), c.drop_first());
        }
    }
}

/// The canonical order of catalog records: by collection, path, size,
/// checksum, then the digests.
pub open spec fn record_le(a: RecordView, b: RecordView) -> bool {
    if a.item != b.item {
        seq_char_le(a.item, b.item)
    } else if a.name != b.name {
        seq_char_le(a.name, b.name)
    } else if a.size != b.size {
        a.size < b.size
    } else if a.crc32 != b.crc32 {
        a.crc32 < b.crc32
    } else if a.md5 != b.md5 {
        seq_u8_le(a.md5, b.md5)
    } else {
        seq_u8_le(a.sha1, b.sha1)
    }
}

/// Decides the lexicographic order of two byte slices.
fn bytes_le(a: &[u8], b: &[u8]) -> (r: bool)
    ensures
        r == seq_u8_le(a@, b@),
{
    let alen = a.len();
    let blen = b.len();
    let mut i: usize = 0;
    loop
        invariant
            0 <= i <= alen,
            i <= blen,
            alen == a@.len(),
            blen == b@.len(),
            forall|j: int| 0 <= j < i ==> a@[j] == b@[j],
        decreases alen - i,
    {
        proof {
            lemma_seq_u8_le_common_prefix(a@, b@, i as int);
        }
        if i == alen {
            proof {
                assert(a@.skip(i as int).len() == 0);
            }
            return true;
        }
        if i == blen {
            proof {
                assert(b@.skip(i as int).len() == 0);
                assert(a@.skip(i as int).len() > 0);
            }
            return false;
        }
        let ca = a[i];
        let cb = b[i];
        proof {
            assert(a@.skip(i as int)[0] == a@[i as int]);
            assert(b@.skip(i as int)[0] == b@[i as int]);
        }
        if ca < cb {
            return true;
        }
        if cb < ca {
            return false;
        }
        i += 1;
    }
}

/// Decides whether two byte slices hold the same bytes.
fn bytes_eq(a: &[u8], b: &[u8]) -> (r: bool)
    ensures
        r == (a@ == b@),
{
    if a.len() != b.len() {
        return false;
    }
    let mut i: usize = 0;
    while i < a.len()
        invariant
            0 <= i <= a@.len(),
            a@.len() == b@.len(),
            forall|j: int| 0 <= j < i ==> a@[j] == b@[j],
        decreases a@.len() - i,
    {
        if a[i] != b[i] {
            return false;
        }
        i += 1;
    }
    proof {
        assert(a@ =~= b@);
    }
    true
}

proof fn lemma_seq_u8_le_common_prefix(a: Seq<u8>, b: Seq<u8>, i: int)
    requires
        0 <= i <= a.len(),
        i <= b.len(),
        forall|j: int| 0 <= j < i ==> a[j] == b[j],
    ensures
        seq_u8_le(a, b) == seq_u8_le(a.skip(i), b.skip(i)),
    decreases i,
{
    if i > 0 {
        assert(a.drop_first() =~= a.skip(1));
        assert(b.drop_first() =~= b.skip(1));
        lemma_seq_u8_le_common_prefix(a.skip(1), b.skip(1), i - 1);
        assert(a.skip(1).skip(i - 1) =~= a.skip(i));
        assert(b.skip(1).skip(i - 1) =~= b.skip(i));
    } else {
        assert(a.skip(0) =~= a);
        assert(b.skip(0) =~= b);
    }
}

impl TotalOrder for Record {
    open spec fn le(a: RecordView, b: RecordView) -> bool {
        record_le(a, b)
    }

    proof fn lemma_le_total(a: RecordView, b: RecordView) {
        lemma_seq_char_le_total(a.item, b.item);
        lemma_seq_char_le_total(a.name, b.name);
        lemma_seq_u8_le_total(a.md5, b.md5);
        lemma_seq_u8_le_total(a.sha1, b.sha1);
    }

    proof fn lemma_le_antisym(a: RecordView, b: RecordView) {
        if a.item != b.item {
            lemma_seq_char_le_antisym(a.item, b.item);
        } else if a.name != b.name {
            lemma_seq_char_le_antisym(a.name, b.name);
        } else if a.size == b.size && a.crc32 == b.crc32 {
            if a.md5 != b.md5 {
                lemma_seq_u8_le_antisym(a.md5, b.md5);
            } else {
                lemma_seq_u8_le_antisym(a.sha1, b.sha1);
            }
        }
    }

    proof fn lemma_le_trans(a: RecordView, b: RecordView, c: RecordView) {
        lemma_char_le_facts(a.item, b.item, c.item);
        lemma_char_le_facts(a.name, b.name, c.name);
        lemma_u8_le_facts(a.md5, b.md5, c.md5);
        lemma_u8_le_facts(a.sha1, b.sha1, c.sha1);
    }

    fn le_exec(&self, other: &Self) -> (r: bool) {
        if !str_eq(self.item.as_str(), other.item.as_str()) {
            str_le(self.item.as_str(), other.item.as_str())
        } else if !str_eq(self.name.as_str(), other.name.as_str()) {
            str_le(self.name.as_str(), other.name.as_str())
        } else if self.size != other.size {
            self.size < other.size
        } else if self.crc32 != other.crc32 {
            self.crc32 < other.crc32
        } else if !bytes_eq(self.md5.as_slice(), other.md5.as_slice()) {
            bytes_le(self.md5.as_slice(), other.md5.as_slice())
        } else {
            bytes_le(self.sha1.as_slice(), other.sha1.as_slice())
        }
    }
}

/// The order facts for one character-sequence component.
proof fn lemma_char_le_facts(a: Seq<char>, b: Seq<char>, c: Seq<char>)
    ensures
        seq_char_le(a, b) && seq_char_le(b, c) ==> seq_char_le(a, c),
        seq_char_le(a, b) && seq_char_le(b, a) ==> a == b,
        seq_char_le(b, c) && seq_char_le(c, b) ==> b == c,
        seq_char_le(a, b) || seq_char_le(b, a),
        seq_char_le(b, c) || seq_char_le(c, b),
{
    if seq_char_le(a, b) && seq_char_le(b, c) {
        lemma_seq_char_le_trans(a, b, c);
    }
    if seq_char_le(a, b) && seq_char_le(b, a) {
        lemma_seq_char_le_antisym(a, b);
    }
    if seq_char_le(b, c) && seq_char_le(c, b) {
        lemma_seq_char_le_antisym(b, c);
    }
    lemma_seq_char_le_total(a, b);
    lemma_seq_char_le_total(b, c);
}

/// The order facts for one byte-sequence component.
proof fn lemma_u8_le_facts(a: Seq<u8>, b: Seq<u8>, c: Seq<u8>)
    ensures
        seq_u8_le(a, b) && seq_u8_le(b, c) ==> seq_u8_le(a, c),
        seq_u8_le(a, b) && seq_u8_le(b, a) ==> a == b,
        seq_u8_le(b, c) && seq_u8_le(c, b) ==> b == c,
        seq_u8_le(a, b) || seq_u8_le(b, a),
        seq_u8_le(b, c) || seq_u8_le(c, b),
{
    if seq_u8_le(a, b) && seq_u8_le(b, c) {
        lemma_seq_u8_le_trans(a, b, c);
    }
    if seq_u8_le(a, b) && seq_u8_le(b, a) {
        lemma_seq_u8_le_antisym(a, b);
    }
    if seq_u8_le(b, c) && seq_u8_le(c, b) {
        lemma_seq_u8_le_antisym(b, c);
    }
    lemma_seq_u8_le_total(a, b);
    lemma_seq_u8_le_total(b, c);
}

/// What can go wrong while reading a metadata catalog.
#[derive(Debug)]
pub enum Error {
    /// The XML library rejected the document; carries its report.
    Roxmltree(String),
    /// Reading the file failed; carries the report.
    Io(String),
    /// No collection name can be taken from the file name.
    InvalidPath(String),
    /// A retained catalog entry with a missing or malformed field;
    /// carries the member name, and fails the whole document.
    InvalidRecord(String),
}

/// The mathematical value of an [`Error`].
pub enum ErrorView {
    Roxmltree(Seq<char>),
    Io(Seq<char>),
    InvalidPath(Seq<char>),
    InvalidRecord(Seq<char>),
}

impl View for Error {
    type V = ErrorView;

    open spec fn view(&self) -> ErrorView {
        match self {
            Error::Roxmltree(s) => ErrorView::Roxmltree(s@),
            Error::Io(s) => ErrorView::Io(s@),
            Error::InvalidPath(s) => ErrorView::InvalidPath(s@),
            Error::InvalidRecord(s) => ErrorView::InvalidRecord(s@),
        }
    }
}

/// One child of a catalog entry, as the XML tree holds it: whether it is
/// an element, its tag, and its text, if any.
pub struct XmlField {
    pub is_elem: bool,
    pub tag: String,
    pub text: Option<String>,
}

impl View for XmlField {
    type V = (bool, Seq<char>, Option<Seq<char>>);

    open spec fn view(&self) -> (bool, Seq<char>, Option<Seq<char>>) {
        (
            self.is_elem,
            self.tag@,
            match &self.text {
                Some(t) => Some(t@),
                None => None,
            },
        )
    }
}

/// One child of the catalog's root element: whether it is an element,
/// its tag, its `name` attribute, if any, and its own children.
pub struct XmlNode {
    pub is_elem: bool,
    pub tag: String,
    pub name_attr: Option<String>,
    pub fields: Vec<XmlField>,
}

impl View for XmlNode {
    type V = (bool, Seq<char>, Option<Seq<char>>, Seq<(bool, Seq<char>, Option<Seq<char>>)>);

    open spec fn view(&self) -> (
        bool,
        Seq<char>,
        Option<Seq<char>>,
        Seq<(bool, Seq<char>, Option<Seq<char>>)>,
    ) {
        (
            self.is_elem,
            self.tag@,
            match &self.name_attr {
                Some(t) => Some(t@),
                None => None,
            },
            view_seq(self.fields@),
        )
    }
}

/// What the XML reader makes of a catalog document: the children of its
/// root element, each with its tag, `name` attribute and children; or
/// nothing when the text is not a well-formed document.
pub uninterp spec fn xml_nodes_of(doc: Seq<char>) -> Option<
    Seq<(bool, Seq<char>, Option<Seq<char>>, Seq<(bool, Seq<char>, Option<Seq<char>>)>)>,
>;

/// Relies on roxmltree's `Document::parse` and its node accessors: the
/// tree read from a string is a function of the string; each root child
/// is taken with its node kind, tag name, `name` attribute, and its own
/// children's kinds, tags and text.
#[verifier::external_body]
fn xml_file_nodes(doc: &str) -> (r: Result<Vec<XmlNode>, String>)
    ensures
        match r {
            Ok(ns) => xml_nodes_of(doc@) == Some(view_seq(ns@)),
            Err(_) => xml_nodes_of(doc@) is None,
        },
{
    let parsed = match roxmltree::Document::parse(doc) {
        Ok(d) => d,
        Err(e) => return Err(format!("{}", e)),
    };
    Ok(parsed.root_element().children().map(|n| XmlNode {
        is_elem: n.is_element(),
        tag: n.tag_name().name().to_string(),
        name_attr: n.attribute("name").map(|v| v.to_string()),
        fields: n.children().map(|c| XmlField {
            is_elem: c.is_element(),
            tag: c.tag_name().name().to_string(),
            text: c.text().map(|t| t.to_string()),
        }).collect(),
    }).collect())
}

/// The text of the last element child with the given tag and some text:
/// a later field of the same tag stands for an earlier one.
pub open spec fn field_lookup(
    fields: Seq<(bool, Seq<char>, Option<Seq<char>>)>,
    key: Seq<char>,
) -> Option<Seq<char>>
    decreases fields.len(),
{
    if fields.len() == 0 {
        None
    } else if fields.last().0 && fields.last().1 == key && fields.last().2 is Some {
        fields.last().2
    } else {
        field_lookup(fields.drop_last(), key)
    }
}

/// Looks up a field's text, as [`field_lookup`] describes.
fn lookup(fields: &Vec<XmlField>, key: &str) -> (r: Option<String>)
    ensures
        match r {
            Some(t) => field_lookup(view_seq(fields@), key@) == Some(t@),
            None => field_lookup(view_seq(fields@), key@) is None,
        },
{
    let ghost fs = view_seq(fields@);
    let mut i: usize = fields.len();
    proof {
        assert(fs.take(i as int) =~= fs);
    }
    while i > 0
        invariant
            0 <= i <= fields@.len(),
            fs == view_seq(fields@),
            fs.len() == fields@.len(),
            field_lookup(fs, key@) == field_lookup(fs.take(i as int), key@),
        decreases i,
    {
        i -= 1;
        assert(fs[i as int] == fields@[i as int]@);
        proof {
            assert(fs.take(i + 1 as int).last() == fs[i as int]);
            assert(fs.take(i + 1 as int).drop_last() =~= fs.take(i as int));
        }
        let matches_key = fields[i].is_elem && str_eq(fields[i].tag.as_str(), key);
        if matches_key {
            match &fields[i].text {
                Some(t) => {
                    let out = t.clone();
                    return Some(out);
                },
                None => {
                },
            }
        }
    }
    proof {
        assert(fs.take(0) =~= Seq::<(bool, Seq<char>, Option<Seq<char>>)>::empty());
    }
    None
}

/// A catalog entry the reader retains: a `file` element with a `name`
/// attribute whose `format` field is exactly `ZIP` or `TAR`.
pub open spec fn node_retained(
    n: (bool, Seq<char>, Option<Seq<char>>, Seq<(bool, Seq<char>, Option<Seq<char>>)>),
) -> bool {
    &&& n.0
    &&& n.1 == seq!['f', 'i', 'l', 'e']
    &&& n.2 is Some
    &&& {
        ||| field_lookup(n.3, seq!['f', 'o', 'r', 'm', 'a', 't']) == Some(seq!['Z', 'I', 'P'])
        ||| field_lookup(n.3, seq!['f', 'o', 'r', 'm', 'a', 't']) == Some(seq!['T', 'A', 'R'])
    }
}

/// A retained entry's required fields are present and well formed: a
/// size, a hexadecimal checksum that fits 32 bits, and digests of 16 and
/// 20 bytes.
pub open spec fn node_fields_ok(
    n: (bool, Seq<char>, Option<Seq<char>>, Seq<(bool, Seq<char>, Option<Seq<char>>)>),
) -> bool {
    &&& match field_lookup(n.3, seq!['s', 'i', 'z', 'e']) {
        Some(t) => spec_parse_i64(t) is Some,
        None => false,
    }
    &&& match field_lookup(n.3, seq!['c', 'r', 'c', '3', '2']) {
        Some(t) => spec_parse_hex_u32(t) is Some,
        None => false,
    }
    &&& match field_lookup(n.3, seq!['m', 'd', '5']) {
        Some(t) => is_hex_seq(t) && hex_bytes(t).len() == 16,
        None => false,
    }
    &&& match field_lookup(n.3, seq!['s', 'h', 'a', '1']) {
        Some(t) => is_hex_seq(t) && hex_bytes(t).len() == 20,
        None => false,
    }
}

/// The record a well-formed retained entry denotes, under a collection
/// name.
pub open spec fn record_of_node(
    item: Seq<char>,
    n: (bool, Seq<char>, Option<Seq<char>>, Seq<(bool, Seq<char>, Option<Seq<char>>)>),
) -> RecordView {
    RecordView {
        item,
        name: n.2->0,
        size: spec_parse_i64(field_lookup(n.3, seq!['s', 'i', 'z', 'e'])->0)->0 as i64,
        crc32: spec_parse_hex_u32(field_lookup(n.3, seq!['c', 'r', 'c', '3', '2'])->0)->0,
        md5: hex_bytes(field_lookup(n.3, seq!['m', 'd', '5'])->0),
        sha1: hex_bytes(field_lookup(n.3, seq!['s', 'h', 'a', '1'])->0),
    }
}

/// A retained entry whose required fields are missing or malformed: the
/// whole document fails on the first of these.
pub open spec fn bad_node(
    n: (bool, Seq<char>, Option<Seq<char>>, Seq<(bool, Seq<char>, Option<Seq<char>>)>),
) -> bool {
    node_retained(n) && !node_fields_ok(n)
}

/// The index of the first entry that fails the document, or `-1`.
pub open spec fn first_bad_node(
    nodes: Seq<(bool, Seq<char>, Option<Seq<char>>, Seq<(bool, Seq<char>, Option<Seq<char>>)>)>,
) -> int
    decreases nodes.len(),
{
    if nodes.len() == 0 {
        -1
    } else if bad_node(nodes[0]) {
        0
    } else {
        let r = first_bad_node(nodes.drop_first());
        if r == -1 {
            -1
        } else {
            r + 1
        }
    }
}

pub proof fn lemma_first_bad_node(
    nodes: Seq<(bool, Seq<char>, Option<Seq<char>>, Seq<(bool, Seq<char>, Option<Seq<char>>)>)>,
)
    ensures
        -1 <= first_bad_node(nodes) < nodes.len(),
        first_bad_node(nodes) >= 0 ==> bad_node(nodes[first_bad_node(nodes)]),
        forall|j: int| 0 <= j < first_bad_node(nodes) ==> !bad_node(#[trigger] nodes[j]),
        first_bad_node(nodes) == -1 ==> forall|j: int|
            0 <= j < nodes.len() ==> !bad_node(#[trigger] nodes[j]),
    decreases nodes.len(),
{
    if nodes.len() > 0 && !bad_node(nodes[0]) {
        let d = nodes.drop_first();
        lemma_first_bad_node(d);
        assert(forall|j: int| 0 <= j < nodes.len() - 1 ==> #[trigger] d[j] == nodes[j + 1]);
        assert forall|j: int| 0 <= j < first_bad_node(nodes) implies !bad_node(nodes[j]) by {
            if j > 0 {
                assert(d[j - 1] == nodes[j]);
                assert(!bad_node(d[j - 1]));
            }
        }
        if first_bad_node(nodes) == -1 {
            assert forall|j: int| 0 <= j < nodes.len() implies !bad_node(nodes[j]) by {
                if j > 0 {
                    assert(d[j - 1] == nodes[j]);
                    assert(!bad_node(d[j - 1]));
                }
            }
        }
    }
}

/// `v` is the record of some retained, well-formed entry of the
/// document, under the collection name `item`.
pub open spec fn is_catalog_record(
    item: Seq<char>,
    nodes: Seq<(bool, Seq<char>, Option<Seq<char>>, Seq<(bool, Seq<char>, Option<Seq<char>>)>)>,
    v: RecordView,
) -> bool {
    exists|i: int|
        0 <= i < nodes.len() && node_retained(#[trigger] nodes[i]) && v == record_of_node(
            item,
            nodes[i],
        )
}

/// The first 16 bytes of `v`, as a fixed digest.
fn bytes16(v: &Vec<u8>) -> (r: [u8; 16])
    requires
        v@.len() == 16,
    ensures
        r@ == v@,
{
    let r: [u8; 16] = [v[0], v[1], v[2], v[3], v[4], v[5], v[6], v[7], v[8], v[9], v[10], v[11],
        v[12], v[13], v[14], v[15]];
    proof {
        assert(r@ =~= v@);
    }
    r
}

/// The first 20 bytes of `v`, as a fixed digest.
fn bytes20(v: &Vec<u8>) -> (r: [u8; 20])
    requires
        v@.len() == 20,
    ensures
        r@ == v@,
{
    let r: [u8; 20] = [v[0], v[1], v[2], v[3], v[4], v[5], v[6], v[7], v[8], v[9], v[10], v[11],
        v[12], v[13], v[14], v[15], v[16], v[17], v[18], v[19]];
    proof {
        assert(r@ =~= v@);
    }
    r
}

/// Reads the metadata catalog out of an XML document: the collection
/// name comes from the catalog's file name; of the root's children,
/// exactly the `file` elements whose `format` field is `ZIP` or `TAR`
/// are retained, each as a record of name, size, checksum and digests,
/// strictly sorted with duplicates dropped.  The whole document fails on
/// the first retained entry with a missing or malformed field, rather
/// than skipping it.
pub fn read_metadata(file_name: &str, xml: &str) -> (r: Result<Vec<Record>, Error>)
    ensures
        match spec_item_name(file_name@) {
            None => r matches Err(e) && e@ == ErrorView::InvalidPath(file_name@),
            Some(item) => match xml_nodes_of(xml@) {
                None => r matches Err(e) && e@ is Roxmltree,
                Some(nodes) => if first_bad_node(nodes) >= 0 {
                    r matches Err(e) && e@ == ErrorView::InvalidRecord(
                        nodes[first_bad_node(nodes)].2->0,
                    )
                } else {
                    r matches Ok(records) && strictly_sorted::<Record>(view_seq(records@)) && (
                    forall|v: RecordView|
                        view_seq(records@).contains(v) <==> is_catalog_record(item, nodes, v))
                },
            },
        },
{
    let item = match extract_item_name(file_name) {
        Some(i) => i,
        None => {
            return Err(Error::InvalidPath(file_name.to_owned()));
        },
    };
    let nodes = match xml_file_nodes(xml) {
        Ok(ns) => ns,
        Err(m) => {
            return Err(Error::Roxmltree(m));
        },
    };
    let ghost nvs = xml_nodes_of(xml@).unwrap();
    proof {
        reveal_strlit("file");
        reveal_strlit("format");
        reveal_strlit("ZIP");
        reveal_strlit("TAR");
        reveal_strlit("size");
        reveal_strlit("crc32");
        reveal_strlit("md5");
        reveal_strlit("sha1");
    }
    let mut records: Vec<Record> = Vec::new();
    let mut k: usize = 0;
    proof {
        assert(view_seq(records@) =~= Seq::<RecordView>::empty());
    }
    while k < nodes.len()
        invariant
            spec_item_name(file_name@) == Some(item@),
            nvs == xml_nodes_of(xml@).unwrap(),
            xml_nodes_of(xml@) is Some,
            view_seq(nodes@) == nvs,
            nodes@.len() == nvs.len(),
            0 <= k <= nodes.len(),
            forall|j: int| 0 <= j < k ==> !bad_node(#[trigger] nvs[j]),
            forall|v: RecordView|
                view_seq(records@).contains(v) <==> exists|i: int|
                    0 <= i < k && node_retained(#[trigger] nvs[i]) && v == record_of_node(
                        item@,
                        nvs[i],
                    ),
        decreases nodes@.len() - k,
    {
        proof {
            reveal_strlit("file");
            reveal_strlit("format");
            reveal_strlit("ZIP");
            reveal_strlit("TAR");
            reveal_strlit("size");
            reveal_strlit("crc32");
            reveal_strlit("md5");
            reveal_strlit("sha1");
            assert(("file")@ =~= seq!['f', 'i', 'l', 'e']);
            assert(("format")@ =~= seq!['f', 'o', 'r', 'm', 'a', 't']);
            assert(("ZIP")@ =~= seq!['Z', 'I', 'P']);
            assert(("TAR")@ =~= seq!['T', 'A', 'R']);
            assert(("size")@ =~= seq!['s', 'i', 'z', 'e']);
            assert(("crc32")@ =~= seq!['c', 'r', 'c', '3', '2']);
            assert(("md5")@ =~= seq!['m', 'd', '5']);
            assert(("sha1")@ =~= seq!['s', 'h', 'a', '1']);
        }
        let ghost prev = view_seq(records@);
        let ghost nv = nvs[k as int];
        assert(nv == nodes@[k as int]@);
        let tag_ok = nodes[k].is_elem && str_eq(nodes[k].tag.as_str(), "file");
        let name: Option<String> = match &nodes[k].name_attr {
            Some(n) => Some(n.clone()),
            None => None,
        };
        let format = lookup(&nodes[k].fields, "format");
        let format_ok: bool = match &format {
            Some(f) => str_eq(f.as_str(), "ZIP") || str_eq(f.as_str(), "TAR"),
            None => false,
        };
        let retained = tag_ok && name.is_some() && format_ok;
        proof {
            assert(view_seq(nodes@[k as int].fields@) == nv.3);
            assert(retained == node_retained(nv));
        }
        if retained {
            let name = name.unwrap();
            proof {
                assert(Some(name@) == nv.2);
            }
            let size = match lookup(&nodes[k].fields, "size") {
                Some(t) => match parse_i64(t.as_str()) {
                    Some(v) => v,
                    None => {
                        proof {
                            lemma_bad_at(nvs, k as int);
                        }
                        return Err(Error::InvalidRecord(name));
                    },
                },
                None => {
                    proof {
                        lemma_bad_at(nvs, k as int);
                    }
                    return Err(Error::InvalidRecord(name));
                },
            };
            let crc32 = match lookup(&nodes[k].fields, "crc32") {
                Some(t) => match parse_hex_u32(t.as_str()) {
                    Some(v) => v,
                    None => {
                        proof {
                            lemma_bad_at(nvs, k as int);
                        }
                        return Err(Error::InvalidRecord(name));
                    },
                },
                None => {
                    proof {
                        lemma_bad_at(nvs, k as int);
                    }
                    return Err(Error::InvalidRecord(name));
                },
            };
            let md5 = match lookup(&nodes[k].fields, "md5") {
                Some(t) => match hex_decode(t.as_str()) {
                    Some(v) => if v.len() == 16 {
                        bytes16(&v)
                    } else {
                        proof {
                            lemma_bad_at(nvs, k as int);
                        }
                        return Err(Error::InvalidRecord(name));
                    },
                    None => {
                        proof {
                            lemma_bad_at(nvs, k as int);
                        }
                        return Err(Error::InvalidRecord(name));
                    },
                },
                None => {
                    proof {
                        lemma_bad_at(nvs, k as int);
                    }
                    return Err(Error::InvalidRecord(name));
                },
            };
            let sha1 = match lookup(&nodes[k].fields, "sha1") {
                Some(t) => match hex_decode(t.as_str()) {
                    Some(v) => if v.len() == 20 {
                        bytes20(&v)
                    } else {
                        proof {
                            lemma_bad_at(nvs, k as int);
                        }
                        return Err(Error::InvalidRecord(name));
                    },
                    None => {
                        proof {
                            lemma_bad_at(nvs, k as int);
                        }
                        return Err(Error::InvalidRecord(name));
                    },
                },
                None => {
                    proof {
                        lemma_bad_at(nvs, k as int);
                    }
                    return Err(Error::InvalidRecord(name));
                },
            };
            let record = Record { item: item.clone(), name, size, crc32, md5, sha1 };
            proof {
                assert(node_fields_ok(nv));
                assert(record@ == record_of_node(item@, nv));
            }
            records.push(record);
            proof {
                let x = record_of_node(item@, nv);
                assert(view_seq(records@) =~= prev.push(x));
                assert forall|v: RecordView| view_seq(records@).contains(v) <==> exists|i: int|
                    0 <= i < k + 1 && node_retained(#[trigger] nvs[i]) && v == record_of_node(
                        item@,
                        nvs[i],
                    ) by {
                    crate::order::lemma_push_contains(prev, x, v);
                    if prev.contains(v) {
                        let i = choose|i: int|
                            0 <= i < k && node_retained(#[trigger] nvs[i]) && v == record_of_node(
                                item@,
                                nvs[i],
                            );
                        assert(0 <= i < k + 1 && node_retained(nvs[i]) && v == record_of_node(
                            item@,
                            nvs[i],
                        ));
                    } else if v == x {
                        assert(0 <= k < k + 1 && node_retained(nvs[k as int]) && v
                            == record_of_node(item@, nvs[k as int]));
                    }
                    if exists|i: int|
                        0 <= i < k + 1 && node_retained(#[trigger] nvs[i]) && v == record_of_node(
                            item@,
                            nvs[i],
                        ) {
                        let i = choose|i: int|
                            0 <= i < k + 1 && node_retained(#[trigger] nvs[i]) && v
                                == record_of_node(item@, nvs[i]);
                        if i < k {
                            assert(prev.contains(v));
                        }
                    }
                }
            }
        } else {
            proof {
                assert(!node_retained(nv));
                assert forall|v: RecordView| view_seq(records@).contains(v) <==> exists|i: int|
                    0 <= i < k + 1 && node_retained(#[trigger] nvs[i]) && v == record_of_node(
                        item@,
                        nvs[i],
                    ) by {
                    if exists|i: int|
                        0 <= i < k + 1 && node_retained(#[trigger] nvs[i]) && v == record_of_node(
                            item@,
                            nvs[i],
                        ) {
                        let i = choose|i: int|
                            0 <= i < k + 1 && node_retained(#[trigger] nvs[i]) && v
                                == record_of_node(item@, nvs[i]);
                        assert(i < k);
                    }
                }
            }
        }
        k += 1;
    }
    proof {
        lemma_first_bad_node(nvs);
        if first_bad_node(nvs) >= 0 {
            assert(!bad_node(nvs[first_bad_node(nvs)]));
        }
    }
    Ok(sort_dedup(records))
}

/// With no bad entry before `k` and a bad one at `k`, the document
/// fails exactly at `k`.
proof fn lemma_bad_at(
    nvs: Seq<(bool, Seq<char>, Option<Seq<char>>, Seq<(bool, Seq<char>, Option<Seq<char>>)>)>,
    k: int,
)
    requires
        0 <= k < nvs.len(),
        bad_node(nvs[k]),
        forall|j: int| 0 <= j < k ==> !bad_node(#[trigger] nvs[j]),
    ensures
        first_bad_node(nvs) == k,
{
    lemma_first_bad_node(nvs);
    let fb = first_bad_node(nvs);
    assert(fb >= 0);
    assert(fb >= 0 ==> bad_node(nvs[fb]));
    assert(fb >= k);
    assert(fb <= k);
}

/// The collection name a catalog file name yields: its stem (the name up
/// to the last dot, a lone leading dot not counting) with the fixed
/// `_files` suffix stripped; nothing when the stem does not carry it.
pub open spec fn spec_item_name(s: Seq<char>) -> Option<Seq<char>> {
    let stem = if last_dot(s) >= 1 {
        s.take(last_dot(s))
    } else {
        s
    };
    if stem.len() >= 6 && stem.skip(stem.len() - 6) == seq!['_', 'f', 'i', 'l', 'e', 's'] {
        Some(stem.take(stem.len() - 6))
    } else {
        None
    }
}

/// Takes the collection name out of a catalog file name, as
/// [`spec_item_name`] describes.
pub fn extract_item_name(name: &str) -> (r: Option<String>)
    ensures
        match r {
            Some(s) => spec_item_name(name@) == Some(s@),
            None => spec_item_name(name@) is None,
        },
{
    let len = name.unicode_len();
    let ld = crate::archive::find_last_dot_before(name, len);
    proof {
        lemma_last_dot(name@);
    }
    let stem_len: usize = match ld {
        Some(i) => {
            proof {
                assert(last_dot(name@) == i);
            }
            if i >= 1 {
                i
            } else {
                len
            }
        },
        None => {
            proof {
                assert(last_dot(name@) == -1);
            }
            len
        },
    };
    let ghost stem = if last_dot(name@) >= 1 {
        name@.take(last_dot(name@))
    } else {
        name@
    };
    proof {
        assert(stem =~= name@.take(stem_len as int));
    }
    if stem_len < 6 {
        return None;
    }
    let suffix_ok = name.get_char(stem_len - 6) == '_' && name.get_char(stem_len - 5) == 'f'
        && name.get_char(stem_len - 4) == 'i' && name.get_char(stem_len - 3) == 'l'
        && name.get_char(stem_len - 2) == 'e' && name.get_char(stem_len - 1) == 's';
    if !suffix_ok {
        proof {
            assert(stem.skip(stem.len() - 6) != seq!['_', 'f', 'i', 'l', 'e', 's']) by {
                let suf = stem.skip(stem.len() - 6);
                let pat = seq!['_', 'f', 'i', 'l', 'e', 's'];
                if suf == pat {
                    assert(suf[0] == name@[stem_len - 6]);
                    assert(suf[1] == name@[stem_len - 5]);
                    assert(suf[2] == name@[stem_len - 4]);
                    assert(suf[3] == name@[stem_len - 3]);
                    assert(suf[4] == name@[stem_len - 2]);
                    assert(suf[5] == name@[stem_len - 1]);
                }
            }
        }
        return None;
    }
    proof {
        assert(stem.skip(stem.len() - 6) =~= seq!['_', 'f', 'i', 'l', 'e', 's']) by {
            let suf = stem.skip(stem.len() - 6);
            assert(suf[0] == name@[stem_len - 6]);
            assert(suf[1] == name@[stem_len - 5]);
            assert(suf[2] == name@[stem_len - 4]);
            assert(suf[3] == name@[stem_len - 3]);
            assert(suf[4] == name@[stem_len - 2]);
            assert(suf[5] == name@[stem_len - 1]);
        }
    }
    let item = name.substring_char(0, stem_len - 6).to_owned();
    proof {
        assert(item@ =~= stem.take(stem.len() - 6));
    }
    Some(item)
}

} // verus!
