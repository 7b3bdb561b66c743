//! Unpacking a package tarball (gzip, then tar) into a snapshot.
use std::io::{Cursor, Read};
use vstd::prelude::*;
use crate::files::{FileMap, FileMapEntry, FileType, Snapshot};
use crate::package::{ensure_directories, normalize_path, normalized, strip_common_root, stripped, with_implied_dirs};

verus! {

/// One member of a tar archive: its path, its kind and its bytes.
pub struct TarMember {
    pub path: String,
    pub is_dir: bool,
    pub is_file: bool,
    pub data: Vec<u8>,
}

impl View for TarMember {
    type V = (Seq<char>, bool, bool, Seq<u8>);

    open spec fn view(&self) -> (Seq<char>, bool, bool, Seq<u8>) {
        (self.path@, self.is_dir, self.is_file, self.data@)
    }
}

/// Where reading a tar archive failed, with the reader's own message.
pub enum TarError {
    Parse(String),
    Entry(String),
    Path(String),
    Read(String),
}

/// The members that the tar reader lists for an archive.
pub uninterp spec fn tar_members_of(bytes: Seq<u8>) -> Seq<(Seq<char>, bool, bool, Seq<u8>)>;

/// The tar reader lists every member of the archive without an error.
pub uninterp spec fn tar_readable(bytes: Seq<u8>) -> bool;

/// Gzip decompression of the bytes reads to the end without an error.
pub uninterp spec fn gunzip_ok(bytes: Seq<u8>) -> bool;

/// The bytes that gzip decompression gives.
pub uninterp spec fn gunzip_of(bytes: Seq<u8>) -> Seq<u8>;

/// The text of bytes read as UTF-8, invalid sequences replaced.
pub uninterp spec fn utf8_lossy_of(bytes: Seq<u8>) -> Seq<char>;

/// Relies on `tar::Archive::entries` over the bytes and, for each entry,
/// `Header::entry_type`, `Entry::path` (shown as text, invalid UTF-8
/// replaced) and reading the entry to its end: on success, the members in
/// archive order.
#[verifier::external_body]
fn read_tar(bytes: &Vec<u8>) -> (r: Result<Vec<TarMember>, TarError>)
    ensures
        r is Ok <==> tar_readable(bytes@),
        r is Ok ==> r->Ok_0@.map_values(|m: TarMember| m@) == tar_members_of(bytes@),
{
    let mut archive = tar::Archive::new(Cursor::new(bytes));
    let mut out = Vec::new();
    for entry in archive.entries().map_err(|e| TarError::Parse(e.to_string()))? {
        let mut entry = entry.map_err(|e| TarError::Entry(e.to_string()))?;
        let kind = entry.header().entry_type();
        let path = entry.path().map_err(|e| TarError::Path(e.to_string()))?.display().to_string();
        let mut data = Vec::new();
        entry.read_to_end(&mut data).map_err(|e| TarError::Read(e.to_string()))?;
        out.push(TarMember { path, is_dir: kind.is_dir(), is_file: kind.is_file(), data });
    }
    Ok(out)
}

/// Relies on `flate2::read::GzDecoder` read to its end: on success, the
/// decompressed bytes; on failure, the decoder's message.
#[verifier::external_body]
fn gunzip(bytes: &Vec<u8>) -> (r: Result<Vec<u8>, String>)
    ensures
        r is Ok <==> gunzip_ok(bytes@),
        r is Ok ==> r->Ok_0@ == gunzip_of(bytes@),
{
    let mut out = Vec::new();
    match flate2::read::GzDecoder::new(bytes.as_slice()).read_to_end(&mut out) {
        Ok(_) => Ok(out),
        Err(e) => Err(e.to_string()),
    }
}

/// Relies on `String::from_utf8_lossy`: the text of the bytes, invalid UTF-8
/// replaced.
#[verifier::external_body]
fn utf8_lossy(bytes: &Vec<u8>) -> (r: String)
    ensures
        r@ == utf8_lossy_of(bytes@),
{
    String::from_utf8_lossy(bytes.as_slice()).into_owned()
}

/// The entries that tar members give: directories empty, files with their
/// text, under normalized paths; members with an empty path, or neither file
/// nor directory, give none.
pub open spec fn members_map(s: Seq<(Seq<char>, bool, bool, Seq<u8>)>) -> Snapshot
    decreases s.len(),
{
    if s.len() == 0 {
        Map::empty()
    } else {
        let m = members_map(s.drop_last());
        let (path, is_dir, is_file, data) = s.last();
        let key = normalized(path, is_dir);
        if key.len() == 0 {
            m
        } else if is_dir {
            m.insert(key, (FileType::Directory, Seq::empty()))
        } else if is_file {
            m.insert(key, (FileType::File, utf8_lossy_of(data)))
        } else {
            m
        }
    }
}

/// The snapshot of a package from its tar members.
pub open spec fn snapshot_of_members(s: Seq<(Seq<char>, bool, bool, Seq<u8>)>) -> Snapshot {
    stripped(with_implied_dirs(members_map(s)))
}

/// The snapshot of a package from its tar members: entries, implied
/// directories, and the common top-level directory removed.
pub fn files_from_members(members: &Vec<TarMember>) -> (r: FileMap)
    ensures
        r@ == snapshot_of_members(members@.map_values(|m: TarMember| m@)),
{
    let ghost views = members@.map_values(|m: TarMember| m@);
    let mut files = FileMap::new();
    let mut i: usize = 0;
    while i < members.len()
        invariant
            views == members@.map_values(|m: TarMember| m@),
            i <= members@.len(),
            files@ == members_map(views.subrange(0, i as int)),
        decreases members@.len() - i,
    {
        let m = &members[i];
        assert(views.subrange(0, i + 1).drop_last() =~= views.subrange(0, i as int));
        let key = normalize_path(m.path.as_str(), m.is_dir);
        if key.as_str().is_empty() {
        } else if m.is_dir {
            files.insert(key, FileMapEntry { file_type: FileType::Directory, content: String::new() });
        } else if m.is_file {
            let text = utf8_lossy(&m.data);
            files.insert(key, FileMapEntry { file_type: FileType::File, content: text });
        }
        i = i + 1;
    }
    assert(views.subrange(0, i as int) =~= views);
    ensure_directories(&mut files);
    strip_common_root(files)
}

/// The message of a tar failure.
pub open spec fn tar_error_text(e: TarError) -> Seq<char> {
    match e {
        TarError::Parse(m) => "Tar parsing failed: "@ + m@,
        TarError::Entry(m) => "Tar entry error: "@ + m@,
        TarError::Path(m) => "Tar path error: "@ + m@,
        TarError::Read(m) => "Tar read failed: "@ + m@,
    }
}

/// The message of a tar failure.
pub fn tar_error_message(e: TarError) -> (r: String)
    ensures
        r@ == tar_error_text(e),
{
    let (prefix, m) = match e {
        TarError::Parse(m) => ("Tar parsing failed: ", m),
        TarError::Entry(m) => ("Tar entry error: ", m),
        TarError::Path(m) => ("Tar path error: ", m),
        TarError::Read(m) => ("Tar read failed: ", m),
    };
    let mut r = String::from_str(prefix);
    r.append(m.as_str());
    r
}

/// The snapshot of an uncompressed tar archive.
pub fn parse_tar_bytes(bytes: &Vec<u8>) -> (r: Result<FileMap, String>)
    ensures
        r is Ok <==> tar_readable(bytes@),
        r is Ok ==> r->Ok_0@ == snapshot_of_members(tar_members_of(bytes@)),
{
    match read_tar(bytes) {
        Ok(members) => Ok(files_from_members(&members)),
        Err(e) => Err(tar_error_message(e)),
    }
}

/// The snapshot of a gzip-compressed tar archive.
pub fn extract_tarball_bytes(bytes: &Vec<u8>) -> (r: Result<FileMap, String>)
    ensures
        r is Ok <==> (gunzip_ok(bytes@) && tar_readable(gunzip_of(bytes@))),
        r is Ok ==> r->Ok_0@ == snapshot_of_members(tar_members_of(gunzip_of(bytes@))),
        !gunzip_ok(bytes@) ==> r is Err && exists|m: Seq<char>| r->Err_0@ == "Gzip decompression failed: "@ + m,
{
    match gunzip(bytes) {
        Ok(data) => parse_tar_bytes(&data),
        Err(m) => {
            let mut r = String::from_str("Gzip decompression failed: ");
            r.append(m.as_str());
            assert(r@ == "Gzip decompression failed: "@ + m@);
            Err(r)
        },
    }
}

} // verus!
