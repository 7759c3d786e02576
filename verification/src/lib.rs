/// Container readers and the unified content pass: format
/// classification, entry records, listings, and per-member decoding
/// for ZIP, TAR and gzip-compressed TAR archives.
pub mod archive;
/// Verified hexadecimal and decimal readers for catalog fields.
pub mod codec;
/// The per-member decompression layer: bzip2 under a name test, then
/// text decoding.
pub mod decode;
/// The fixed timestamp naming scheme of archive members.
pub mod name;
/// A total order over views, and sorting with duplicates dropped.
pub mod order;
/// The sidecar XML metadata catalog.
pub mod source;
/// String comparison, equality and line splitting.
pub mod text;
