use vstd::prelude::*;
use vstd::string::StringSliceAdditionalSpecFns;
use vstd::utf8::{decode_utf8, valid_utf8};

use crate::bencode::{
    dict_get, encode, entries_view, from_bytes, law_parse_encode_roundtrip, spec_encode,
    spec_lookup, spec_parse, spec_parse_entries, spec_string, Bencode, BencodeView,
};
use crate::helpers::{sha1, sha1_digest, timestamp_in_range, timestamp_is_valid, utf8_to_string};
use crate::wire_protocol::copy_range;

verus! {

broadcast use vstd::std_specs::vec::group_vec_axioms, vstd::seq::group_seq_axioms;

/// The bytes of a dictionary key, as it is spelled in a torrent file.
pub open spec fn key(name: &str) -> Seq<u8> {
    name.spec_bytes()
}

/// The text a byte string spells, when it is valid UTF-8.
pub open spec fn text_of(v: BencodeView) -> Option<Seq<char>> {
    match v {
        BencodeView::Bytes(b) => if valid_utf8(b) {
            Some(decode_utf8(b))
        } else {
            None
        },
        _ => None,
    }
}

/// The bytes of a byte string.
pub open spec fn bytes_of(v: BencodeView) -> Option<Seq<u8>> {
    match v {
        BencodeView::Bytes(b) => Some(b),
        _ => None,
    }
}

/// A non-negative integer.
pub open spec fn size_of(v: BencodeView) -> Option<u64> {
    match v {
        BencodeView::Integer(i) => if 0 <= i <= u64::MAX {
            Some(i as u64)
        } else {
            None
        },
        _ => None,
    }
}

/// An integer that fits a byte.
pub open spec fn byte_of(v: BencodeView) -> Option<u8> {
    match v {
        BencodeView::Integer(i) => if 0 <= i <= u8::MAX {
            Some(i as u8)
        } else {
            None
        },
        _ => None,
    }
}

/// An integer of any sign, such as a Unix time.
pub open spec fn integer_of(v: BencodeView) -> Option<i64> {
    match v {
        BencodeView::Integer(i) => if i64::MIN <= i <= i64::MAX {
            Some(i as i64)
        } else {
            None
        },
        _ => None,
    }
}

/// A list of texts.
pub open spec fn texts_of(v: BencodeView) -> Option<Seq<Seq<char>>> {
    match v {
        BencodeView::List(items) => if forall|i: int| 0 <= i < items.len() ==> (#[trigger] text_of(items[i])) is Some {
            Some(Seq::new(items.len(), |i: int| text_of(items[i])->0))
        } else {
            None
        },
        _ => None,
    }
}

/// A list of lists of texts, such as the tiers of an `announce-list`.
pub open spec fn tiers_of(v: BencodeView) -> Option<Seq<Seq<Seq<char>>>> {
    match v {
        BencodeView::List(items) => if forall|i: int| 0 <= i < items.len() ==> (#[trigger] texts_of(items[i])) is Some {
            Some(Seq::new(items.len(), |i: int| texts_of(items[i])->0))
        } else {
            None
        },
        _ => None,
    }
}

/// The texts of a list of strings.
pub open spec fn strings_view(v: Seq<String>) -> Seq<Seq<char>> {
    Seq::new(v.len(), |i: int| v[i]@)
}

/// The texts of a list of lists of strings.
pub open spec fn tiers_view(v: Seq<Vec<String>>) -> Seq<Seq<Seq<char>>> {
    Seq::new(v.len(), |i: int| strings_view(v[i]@))
}

/// The text of an optional string.
pub open spec fn opt_text(v: Option<String>) -> Option<Seq<char>> {
    match v {
        Some(s) => Some(s@),
        None => None,
    }
}

/// The integer value of a read, as a plain value.
pub(crate) fn read_integer(v: &Bencode) -> (r: Option<i64>)
    ensures
        r == integer_of(v@),
{
    match v {
        Bencode::Integer(i) => Some(*i),
        _ => None,
    }
}

/// A non-negative integer value.
pub(crate) fn read_size(v: &Bencode) -> (r: Option<u64>)
    ensures
        r == size_of(v@),
{
    match v {
        Bencode::Integer(i) => if *i >= 0 {
            Some(*i as u64)
        } else {
            None
        },
        _ => None,
    }
}

/// An integer value that fits a byte.
pub(crate) fn read_byte(v: &Bencode) -> (r: Option<u8>)
    ensures
        r == byte_of(v@),
{
    match v {
        Bencode::Integer(i) => if 0 <= *i && *i <= 255 {
            Some(*i as u8)
        } else {
            None
        },
        _ => None,
    }
}

/// A copy of a byte string value.
pub(crate) fn read_bytes(v: &Bencode) -> (r: Option<Vec<u8>>)
    ensures
        match bytes_of(v@) {
            Some(b) => r matches Some(x) && x@ == b,
            None => r is None,
        },
{
    match v {
        Bencode::Bytes(b) => Some(copy_range(b.as_slice(), 0, b.len())),
        _ => None,
    }
}

/// The text a byte string value spells.
pub(crate) fn read_text(v: &Bencode) -> (r: Option<String>)
    ensures
        match text_of(v@) {
            Some(t) => r matches Some(s) && s@ == t,
            None => r is None,
        },
{
    match v {
        Bencode::Bytes(b) => {
            let copied = copy_range(b.as_slice(), 0, b.len());
            assert(copied@ =~= b@);
            utf8_to_string(copied)
        },
        _ => None,
    }
}

/// A list of texts.
pub(crate) fn read_texts(v: &Bencode) -> (r: Option<Vec<String>>)
    ensures
        match texts_of(v@) {
            Some(t) => r matches Some(s) && strings_view(s@) == t,
            None => r is None,
        },
{
    match v {
        Bencode::List(items) => {
            let ghost items_view = v@->List_0;
            assert(v@ == BencodeView::List(items_view));
            let mut out: Vec<String> = Vec::new();
            let mut k: usize = 0;
            while k < items.len()
                invariant
                    v@ == BencodeView::List(items_view),
                    k <= items@.len(),
                    items_view.len() == items@.len(),
                    forall|j: int| 0 <= j < items@.len() ==> items_view[j] == #[trigger] items@[j]@,
                    out@.len() == k,
                    forall|j: int| 0 <= j < k ==> (#[trigger] text_of(items_view[j])) is Some,
                    forall|j: int| 0 <= j < k ==> out@[j]@ == (#[trigger] text_of(items_view[j]))->0,
                decreases items@.len() - k,
            {
                match read_text(&items[k]) {
                    Some(s) => {
                        out.push(s);
                    },
                    None => {
                        assert(text_of(items_view[k as int]) is None);
                        assert(v@ == BencodeView::List(items_view));
                        assert(!(forall|i: int| 0 <= i < items_view.len() ==> (#[trigger] text_of(items_view[i])) is Some));
                        return None;
                    },
                }
                k = k + 1;
            }
            assert(strings_view(out@) =~= Seq::new(items_view.len(), |i: int| text_of(items_view[i])->0));
            Some(out)
        },
        _ => None,
    }
}

/// A list of lists of texts.
pub(crate) fn read_tiers(v: &Bencode) -> (r: Option<Vec<Vec<String>>>)
    ensures
        match tiers_of(v@) {
            Some(t) => r matches Some(s) && tiers_view(s@) == t,
            None => r is None,
        },
{
    match v {
        Bencode::List(items) => {
            let ghost items_view = v@->List_0;
            assert(v@ == BencodeView::List(items_view));
            let mut out: Vec<Vec<String>> = Vec::new();
            let mut k: usize = 0;
            while k < items.len()
                invariant
                    v@ == BencodeView::List(items_view),
                    k <= items@.len(),
                    items_view.len() == items@.len(),
                    forall|j: int| 0 <= j < items@.len() ==> items_view[j] == #[trigger] items@[j]@,
                    out@.len() == k,
                    forall|j: int| 0 <= j < k ==> (#[trigger] texts_of(items_view[j])) is Some,
                    forall|j: int| 0 <= j < k ==> strings_view(out@[j]@) == (#[trigger] texts_of(items_view[j]))->0,
                decreases items@.len() - k,
            {
                match read_texts(&items[k]) {
                    Some(s) => {
                        out.push(s);
                    },
                    None => {
                        assert(texts_of(items_view[k as int]) is None);
                        assert(!(forall|i: int| 0 <= i < items_view.len() ==> (#[trigger] texts_of(items_view[i])) is Some));
                        return None;
                    },
                }
                k = k + 1;
            }
            assert(tiers_view(out@) =~= Seq::new(items_view.len(), |i: int| texts_of(items_view[i])->0));
            Some(out)
        },
        _ => None,
    }
}

/// A required text field.
pub open spec fn required_text(f: Option<BencodeView>) -> Option<Seq<char>> {
    match f {
        Some(v) => text_of(v),
        None => None,
    }
}

/// A required field holding a non-negative integer.
pub open spec fn required_size(f: Option<BencodeView>) -> Option<u64> {
    match f {
        Some(v) => size_of(v),
        None => None,
    }
}

/// A required byte-string field.
pub open spec fn required_bytes(f: Option<BencodeView>) -> Option<Seq<u8>> {
    match f {
        Some(v) => bytes_of(v),
        None => None,
    }
}

/// A required field holding a list of texts.
pub open spec fn required_texts(f: Option<BencodeView>) -> Option<Seq<Seq<char>>> {
    match f {
        Some(v) => texts_of(v),
        None => None,
    }
}

/// An optional text field: absent is fine, present must be text.
pub open spec fn optional_text(f: Option<BencodeView>) -> Option<Option<Seq<char>>> {
    match f {
        None => Some(None),
        Some(v) => match text_of(v) {
            Some(t) => Some(Some(t)),
            None => None,
        },
    }
}

/// An optional field holding a non-negative integer.
pub open spec fn optional_size(f: Option<BencodeView>) -> Option<Option<u64>> {
    match f {
        None => Some(None),
        Some(v) => match size_of(v) {
            Some(n) => Some(Some(n)),
            None => None,
        },
    }
}

/// An optional field holding an integer that fits a byte.
pub open spec fn optional_byte(f: Option<BencodeView>) -> Option<Option<u8>> {
    match f {
        None => Some(None),
        Some(v) => match byte_of(v) {
            Some(n) => Some(Some(n)),
            None => None,
        },
    }
}

/// The optional `creation date` entry: when it is there, a count of seconds
/// since the Unix epoch that chrono can turn into an instant.
pub open spec fn creation_date_of(f: Option<BencodeView>) -> Option<Option<i64>> {
    match f {
        None => Some(None),
        Some(v) => match integer_of(v) {
            Some(n) => if timestamp_in_range(n) {
                Some(Some(n))
            } else {
                None
            },
            None => None,
        },
    }
}

/// An optional field holding tiers of texts.
pub open spec fn optional_tiers(f: Option<BencodeView>) -> Option<Option<Seq<Seq<Seq<char>>>>> {
    match f {
        None => Some(None),
        Some(v) => match tiers_of(v) {
            Some(t) => Some(Some(t)),
            None => None,
        },
    }
}

/// One file of a multi-file torrent.
#[derive(Clone, Debug)]
pub struct File {
    pub length: u64,
    pub md5sum: Option<String>,
    /// The path below the torrent's directory, one component per entry.
    pub path: Vec<String>,
}

/// A [`File`] as plain values.
pub struct FileView {
    pub length: u64,
    pub md5sum: Option<Seq<char>>,
    pub path: Seq<Seq<char>>,
}

impl View for File {
    type V = FileView;

    open spec fn view(&self) -> FileView {
        FileView { length: self.length, md5sum: opt_text(self.md5sum), path: strings_view(self.path@) }
    }
}

/// The plain values of a list of files.
pub open spec fn files_view(v: Seq<File>) -> Seq<FileView> {
    Seq::new(v.len(), |i: int| v[i]@)
}

/// A file entry: `length`, optionally `md5sum`, and `path`.
pub open spec fn file_of(v: BencodeView) -> Option<FileView> {
    match v {
        BencodeView::Dict(e) => {
            let length = required_size(spec_lookup(e, key("length")));
            let md5sum = optional_text(spec_lookup(e, key("md5sum")));
            let path = required_texts(spec_lookup(e, key("path")));
            if length is Some && md5sum is Some && path is Some {
                Some(FileView { length: length->0, md5sum: md5sum->0, path: path->0 })
            } else {
                None
            }
        },
        _ => None,
    }
}

/// A list of file entries.
pub open spec fn files_of(v: BencodeView) -> Option<Seq<FileView>> {
    match v {
        BencodeView::List(items) => if forall|i: int| 0 <= i < items.len() ==> (#[trigger] file_of(items[i])) is Some {
            Some(Seq::new(items.len(), |i: int| file_of(items[i])->0))
        } else {
            None
        },
        _ => None,
    }
}

/// An optional field holding file entries.
pub open spec fn optional_files(f: Option<BencodeView>) -> Option<Option<Seq<FileView>>> {
    match f {
        None => Some(None),
        Some(v) => match files_of(v) {
            Some(t) => Some(Some(t)),
            None => None,
        },
    }
}

/// Reads a file entry.
pub(crate) fn read_file(v: &Bencode) -> (r: Option<File>)
    ensures
        match file_of(v@) {
            Some(f) => r matches Some(x) && x@ == f,
            None => r is None,
        },
{
    match v {
        Bencode::Dict(entries) => {
            assert(v@->Dict_0 =~= entries_view(entries@));
            let length = match dict_get(entries, "length".as_bytes()) {
                Some(x) => match read_size(x) {
                    Some(n) => n,
                    None => return None,
                },
                None => return None,
            };
            let md5sum = match dict_get(entries, "md5sum".as_bytes()) {
                Some(x) => match read_text(x) {
                    Some(t) => Some(t),
                    None => return None,
                },
                None => None,
            };
            let path = match dict_get(entries, "path".as_bytes()) {
                Some(x) => match read_texts(x) {
                    Some(t) => t,
                    None => return None,
                },
                None => return None,
            };
            Some(File { length, md5sum, path })
        },
        _ => None,
    }
}

/// Reads a list of file entries.
pub(crate) fn read_files(v: &Bencode) -> (r: Option<Vec<File>>)
    ensures
        match files_of(v@) {
            Some(t) => r matches Some(s) && files_view(s@) == t,
            None => r is None,
        },
{
    match v {
        Bencode::List(items) => {
            let ghost items_view = v@->List_0;
            assert(v@ == BencodeView::List(items_view));
            let mut out: Vec<File> = Vec::new();
            let mut k: usize = 0;
            while k < items.len()
                invariant
                    v@ == BencodeView::List(items_view),
                    k <= items@.len(),
                    items_view.len() == items@.len(),
                    forall|j: int| 0 <= j < items@.len() ==> items_view[j] == #[trigger] items@[j]@,
                    out@.len() == k,
                    forall|j: int| 0 <= j < k ==> (#[trigger] file_of(items_view[j])) is Some,
                    forall|j: int| 0 <= j < k ==> out@[j]@ == (#[trigger] file_of(items_view[j]))->0,
                decreases items@.len() - k,
            {
                match read_file(&items[k]) {
                    Some(f) => {
                        out.push(f);
                    },
                    None => {
                        assert(file_of(items_view[k as int]) is None);
                        assert(!(forall|i: int| 0 <= i < items_view.len() ==> (#[trigger] file_of(items_view[i])) is Some));
                        return None;
                    },
                }
                k = k + 1;
            }
            assert(files_view(out@) =~= Seq::new(items_view.len(), |i: int| file_of(items_view[i])->0));
            Some(out)
        },
        _ => None,
    }
}

/// The `info` dictionary: what the torrent's content is and how it is cut
/// into pieces.
#[derive(Clone, Debug)]
pub struct Info {
    pub piece_length: u64,
    /// The pieces' SHA-1 hashes, 20 bytes each, end to end.
    pub pieces: Vec<u8>,
    pub private: Option<u8>,
    pub name: String,
    /// The length of a single-file torrent.
    pub length: Option<u64>,
    pub md5sum: Option<String>,
    /// The files of a multi-file torrent.
    pub files: Option<Vec<File>>,
}

/// An [`Info`] as plain values.
pub struct InfoView {
    pub piece_length: u64,
    pub pieces: Seq<u8>,
    pub private: Option<u8>,
    pub name: Seq<char>,
    pub length: Option<u64>,
    pub md5sum: Option<Seq<char>>,
    pub files: Option<Seq<FileView>>,
}

impl View for Info {
    type V = InfoView;

    open spec fn view(&self) -> InfoView {
        InfoView {
            piece_length: self.piece_length,
            pieces: self.pieces@,
            private: self.private,
            name: self.name@,
            length: self.length,
            md5sum: opt_text(self.md5sum),
            files: match self.files {
                Some(f) => Some(files_view(f@)),
                None => None,
            },
        }
    }
}

/// The `info` dictionary read from a value: `piece length`, `pieces` and
/// `name` are required, `private`, `length`, `md5sum` and `files` optional,
/// and any other key is ignored.
pub open spec fn info_of(v: BencodeView) -> Option<InfoView> {
    match v {
        BencodeView::Dict(e) => {
            let piece_length = required_size(spec_lookup(e, key("piece length")));
            let pieces = required_bytes(spec_lookup(e, key("pieces")));
            let private = optional_byte(spec_lookup(e, key("private")));
            let name = required_text(spec_lookup(e, key("name")));
            let length = optional_size(spec_lookup(e, key("length")));
            let md5sum = optional_text(spec_lookup(e, key("md5sum")));
            let files = optional_files(spec_lookup(e, key("files")));
            if piece_length is Some && pieces is Some && private is Some && name is Some && length is Some
                && md5sum is Some && files is Some {
                Some(
                    InfoView {
                        piece_length: piece_length->0,
                        pieces: pieces->0,
                        private: private->0,
                        name: name->0,
                        length: length->0,
                        md5sum: md5sum->0,
                        files: files->0,
                    },
                )
            } else {
                None
            }
        },
        _ => None,
    }
}

impl Info {
    /// Reads the `info` dictionary out of a value.
    pub fn from_bencode(v: &Bencode) -> (r: Option<Info>)
        ensures
            match info_of(v@) {
                Some(i) => r matches Some(x) && x@ == i,
                None => r is None,
            },
    {
        match v {
            Bencode::Dict(entries) => {
                assert(v@->Dict_0 =~= entries_view(entries@));
                let piece_length = match dict_get(entries, "piece length".as_bytes()) {
                    Some(x) => match read_size(x) {
                        Some(n) => n,
                        None => return None,
                    },
                    None => return None,
                };
                let pieces = match dict_get(entries, "pieces".as_bytes()) {
                    Some(x) => match read_bytes(x) {
                        Some(b) => b,
                        None => return None,
                    },
                    None => return None,
                };
                let private = match dict_get(entries, "private".as_bytes()) {
                    Some(x) => match read_byte(x) {
                        Some(b) => Some(b),
                        None => return None,
                    },
                    None => None,
                };
                let name = match dict_get(entries, "name".as_bytes()) {
                    Some(x) => match read_text(x) {
                        Some(t) => t,
                        None => return None,
                    },
                    None => return None,
                };
                let length = match dict_get(entries, "length".as_bytes()) {
                    Some(x) => match read_size(x) {
                        Some(n) => Some(n),
                        None => return None,
                    },
                    None => None,
                };
                let md5sum = match dict_get(entries, "md5sum".as_bytes()) {
                    Some(x) => match read_text(x) {
                        Some(t) => Some(t),
                        None => return None,
                    },
                    None => None,
                };
                let files = match dict_get(entries, "files".as_bytes()) {
                    Some(x) => match read_files(x) {
                        Some(f) => Some(f),
                        None => return None,
                    },
                    None => None,
                };
                Some(Info { piece_length, pieces, private, name, length, md5sum, files })
            },
            _ => None,
        }
    }
}

/// Why a torrent file could not be read.
#[derive(Clone, Copy, Debug, PartialEq, Eq, Structural)]
pub enum MetadataError {
    /// The bytes are not one bencoded value.
    Malformed,
    /// The value is not a torrent: not a dictionary, a required field is
    /// missing, or a field has the wrong kind of value.
    NotATorrent,
}

/// Torrent metadata, as a `.torrent` file carries it.
#[derive(Clone, Debug)]
pub struct Torrent {
    pub info: Info,
    /// The primary tracker. Optional: an `announce-list` alone is enough.
    pub announce: Option<String>,
    /// Tracker tiers, most preferred first.
    pub announce_list: Option<Vec<Vec<String>>>,
    /// When the torrent was made, in seconds since the Unix epoch.
    pub creation_date: Option<i64>,
    pub comment: Option<String>,
    pub created_by: Option<String>,
    pub encoding: Option<String>,
    /// The SHA-1 of the bencoded `info` dictionary: the torrent's identity.
    pub info_hash: [u8; 20],
}

/// A [`Torrent`] as plain values.
pub struct TorrentView {
    pub info: InfoView,
    pub announce: Option<Seq<char>>,
    pub announce_list: Option<Seq<Seq<Seq<char>>>>,
    pub creation_date: Option<i64>,
    pub comment: Option<Seq<char>>,
    pub created_by: Option<Seq<char>>,
    pub encoding: Option<Seq<char>>,
    pub info_hash: Seq<u8>,
}

impl View for Torrent {
    type V = TorrentView;

    open spec fn view(&self) -> TorrentView {
        TorrentView {
            info: self.info@,
            announce: opt_text(self.announce),
            announce_list: match self.announce_list {
                Some(l) => Some(tiers_view(l@)),
                None => None,
            },
            creation_date: self.creation_date,
            comment: opt_text(self.comment),
            created_by: opt_text(self.created_by),
            encoding: opt_text(self.encoding),
            info_hash: self.info_hash@,
        }
    }
}

/// The value a whole buffer holds, when it holds exactly one.
pub open spec fn spec_document(b: Seq<u8>) -> Option<BencodeView> {
    match spec_parse(b) {
        Some((v, n)) => if n == b.len() {
            Some(v)
        } else {
            None
        },
        None => None,
    }
}

/// The value of a dictionary's `info` entry.
pub open spec fn info_value(v: BencodeView) -> Option<BencodeView> {
    match v {
        BencodeView::Dict(e) => spec_lookup(e, key("info")),
        _ => None,
    }
}

/// The torrent a value describes. `info` is required; `announce`,
/// `announce-list`, `creation date`, `comment`, `created by` and `encoding`
/// are optional; other keys are ignored. The info hash is the SHA-1 of the
/// `info` value written out again, which the grammar makes the very bytes it
/// was read from.
pub open spec fn torrent_of(v: BencodeView) -> Option<TorrentView> {
    match v {
        BencodeView::Dict(e) => {
            let info = match spec_lookup(e, key("info")) {
                Some(x) => info_of(x),
                None => None,
            };
            let announce = optional_text(spec_lookup(e, key("announce")));
            let announce_list = optional_tiers(spec_lookup(e, key("announce-list")));
            let creation_date = creation_date_of(spec_lookup(e, key("creation date")));
            let comment = optional_text(spec_lookup(e, key("comment")));
            let created_by = optional_text(spec_lookup(e, key("created by")));
            let encoding = optional_text(spec_lookup(e, key("encoding")));
            if info is Some && announce is Some && announce_list is Some && creation_date is Some && comment is Some
                && created_by is Some && encoding is Some {
                Some(
                    TorrentView {
                        info: info->0,
                        announce: announce->0,
                        announce_list: announce_list->0,
                        creation_date: creation_date->0,
                        comment: comment->0,
                        created_by: created_by->0,
                        encoding: encoding->0,
                        info_hash: sha1_digest(spec_encode(spec_lookup(e, key("info"))->0)),
                    },
                )
            } else {
                None
            }
        },
        _ => None,
    }
}

/// Whether `b` is one bencoded dictionary with an `info` entry.
pub open spec fn has_info(b: Seq<u8>) -> bool {
    &&& spec_document(b) is Some
    &&& info_value(spec_document(b)->0) is Some
}

/// The SHA-1 of a torrent file's `info` dictionary, over the bytes it is
/// written as.
pub fn info_hash(torrent_file_data: &[u8]) -> (r: [u8; 20])
    requires
        has_info(torrent_file_data@),
    ensures
        r@ == sha1_digest(spec_encode(info_value(spec_document(torrent_file_data@)->0)->0)),
{
    let doc = match from_bytes(torrent_file_data) {
        Some(d) => d,
        None => {
            return [0u8; 20];
        },
    };
    match &doc {
        Bencode::Dict(entries) => {
            assert(doc@->Dict_0 =~= entries_view(entries@));
            match dict_get(entries, "info".as_bytes()) {
                Some(x) => {
                    let bytes = encode(x);
                    sha1(bytes.as_slice())
                },
                None => [0u8; 20],
            }
        },
        _ => [0u8; 20],
    }
}

/// An optional text field of a dictionary.
pub(crate) fn optional_text_field(entries: &Vec<(Vec<u8>, Bencode)>, name: &[u8]) -> (r: Option<Option<String>>)
    ensures
        match optional_text(spec_lookup(entries_view(entries@), name@)) {
            Some(t) => r matches Some(x) && opt_text(x) == t,
            None => r is None,
        },
{
    match dict_get(entries, name) {
        Some(x) => match read_text(x) {
            Some(t) => Some(Some(t)),
            None => None,
        },
        None => Some(None),
    }
}

impl Torrent {
    /// Reads torrent metadata from the bytes of a `.torrent` file.
    pub fn parse_from_bytes(torrent_data: &[u8]) -> (r: Result<Torrent, MetadataError>)
        ensures
            match spec_document(torrent_data@) {
                None => r == Err::<Torrent, MetadataError>(MetadataError::Malformed),
                Some(v) => match torrent_of(v) {
                    Some(t) => r matches Ok(x) && x@ == t,
                    None => r == Err::<Torrent, MetadataError>(MetadataError::NotATorrent),
                },
            },
    {
        let doc = match from_bytes(torrent_data) {
            Some(d) => d,
            None => return Err(MetadataError::Malformed),
        };
        let entries = match &doc {
            Bencode::Dict(entries) => entries,
            _ => return Err(MetadataError::NotATorrent),
        };
        assert(doc@->Dict_0 =~= entries_view(entries@));
        let info_entry = match dict_get(entries, "info".as_bytes()) {
            Some(x) => x,
            None => return Err(MetadataError::NotATorrent),
        };
        let info = match Info::from_bencode(info_entry) {
            Some(i) => i,
            None => return Err(MetadataError::NotATorrent),
        };
        let announce = match optional_text_field(entries, "announce".as_bytes()) {
            Some(t) => t,
            None => return Err(MetadataError::NotATorrent),
        };
        let announce_list = match dict_get(entries, "announce-list".as_bytes()) {
            Some(x) => match read_tiers(x) {
                Some(t) => Some(t),
                None => return Err(MetadataError::NotATorrent),
            },
            None => None,
        };
        let creation_date = match dict_get(entries, "creation date".as_bytes()) {
            Some(x) => match read_integer(x) {
                Some(t) => if timestamp_is_valid(t) {
                    Some(t)
                } else {
                    return Err(MetadataError::NotATorrent);
                },
                None => return Err(MetadataError::NotATorrent),
            },
            None => None,
        };
        let comment = match optional_text_field(entries, "comment".as_bytes()) {
            Some(t) => t,
            None => return Err(MetadataError::NotATorrent),
        };
        let created_by = match optional_text_field(entries, "created by".as_bytes()) {
            Some(t) => t,
            None => return Err(MetadataError::NotATorrent),
        };
        let encoding = match optional_text_field(entries, "encoding".as_bytes()) {
            Some(t) => t,
            None => return Err(MetadataError::NotATorrent),
        };
        let info_bytes = encode(info_entry);
        let info_hash = sha1(info_bytes.as_slice());
        Ok(Torrent { info, announce, announce_list, creation_date, comment, created_by, encoding, info_hash })
    }
}

/// Reads `.torrent` files.
pub struct TorrentFileParser;

impl TorrentFileParser {
    /// Reads torrent metadata from the bytes of a `.torrent` file.
    pub fn parse_from_bytes(data: &[u8]) -> (r: Result<Torrent, MetadataError>)
        ensures
            match spec_document(data@) {
                None => r == Err::<Torrent, MetadataError>(MetadataError::Malformed),
                Some(v) => match torrent_of(v) {
                    Some(t) => r matches Ok(x) && x@ == t,
                    None => r == Err::<Torrent, MetadataError>(MetadataError::NotATorrent),
                },
            },
    {
        Torrent::parse_from_bytes(data)
    }
}

/// The tiers of an `announce-list`, one after another.
pub open spec fn flatten_tiers(t: Seq<Seq<Seq<char>>>) -> Seq<Seq<char>>
    decreases t.len(),
{
    if t.len() == 0 {
        Seq::empty()
    } else {
        flatten_tiers(t.drop_last()) + t.last()
    }
}

/// Each text at its first appearance only, in order.
pub open spec fn first_occurrences(s: Seq<Seq<char>>) -> Seq<Seq<char>>
    decreases s.len(),
{
    if s.len() == 0 {
        Seq::empty()
    } else {
        let d = first_occurrences(s.drop_last());
        if d.contains(s.last()) {
            d
        } else {
            d.push(s.last())
        }
    }
}

/// Every tracker URL a torrent names, in order of preference, repeats
/// included: `announce`, then each tier of `announce-list`.
pub open spec fn tracker_candidates(t: TorrentView) -> Seq<Seq<char>> {
    (match t.announce {
        Some(a) => seq![a],
        None => Seq::empty(),
    }) + (match t.announce_list {
        Some(l) => flatten_tiers(l),
        None => Seq::empty(),
    })
}

/// Whether `s` holds a string with the text `t`.
fn contains_text(v: &Vec<String>, t: &String) -> (r: bool)
    ensures
        r == strings_view(v@).contains(t@),
{
    let mut k: usize = 0;
    while k < v.len()
        invariant
            k <= v@.len(),
            forall|j: int| 0 <= j < k ==> v@[j]@ != t@,
        decreases v@.len() - k,
    {
        if v[k] == *t {
            assert(strings_view(v@)[k as int] == t@);
            return true;
        }
        k = k + 1;
    }
    assert forall|j: int| 0 <= j < strings_view(v@).len() implies strings_view(v@)[j] != t@ by {
        assert(strings_view(v@)[j] == v@[j]@);
    }
    false
}

impl Torrent {
    /// Every tracker URL for this torrent: the primary `announce` first, then
    /// the `announce-list` tiers in order. Duplicates are dropped: tiers
    /// normally repeat the primary URL.
    pub fn announce_urls(&self) -> (r: Vec<String>)
        ensures
            strings_view(r@) == first_occurrences(tracker_candidates(self@)),
    {
        let mut all: Vec<String> = Vec::new();
        match &self.announce {
            Some(a) => {
                all.push(a.clone());
            },
            None => {},
        }
        let ghost head = strings_view(all@);
        assert(head =~= match self@.announce {
            Some(a) => seq![a],
            None => Seq::<Seq<char>>::empty(),
        });
        match &self.announce_list {
            Some(tiers) => {
                let ghost tv = tiers_view(tiers@);
                let mut t: usize = 0;
                while t < tiers.len()
                    invariant
                        t <= tiers@.len(),
                        tv == tiers_view(tiers@),
                        strings_view(all@) == head + flatten_tiers(tv.take(t as int)),
                    decreases tiers@.len() - t,
                {
                    let tier = &tiers[t];
                    let ghost before = strings_view(all@);
                    let mut u: usize = 0;
                    while u < tier.len()
                        invariant
                            u <= tier@.len(),
                            strings_view(all@) == before + strings_view(tier@).take(u as int),
                        decreases tier@.len() - u,
                    {
                        let ghost prev = all@;
                        all.push(tier[u].clone());
                        proof {
                            assert(strings_view(all@) =~= strings_view(prev).push(tier@[u as int]@));
                            assert(strings_view(tier@).take(u + 1) =~= strings_view(tier@).take(u as int).push(
                                tier@[u as int]@,
                            ));
                        }
                        u = u + 1;
                        assert(strings_view(all@) =~= before + strings_view(tier@).take(u as int));
                    }
                    proof {
                        assert(strings_view(tier@).take(u as int) =~= strings_view(tier@));
                        assert(tv.take(t + 1).drop_last() =~= tv.take(t as int));
                        assert(tv.take(t + 1).last() == strings_view(tier@));
                        assert(head + flatten_tiers(tv.take(t + 1)) =~= before + strings_view(tier@));
                    }
                    t = t + 1;
                }
                assert(tv.take(t as int) =~= tv);
            },
            None => {
                assert(strings_view(all@) =~= head + Seq::<Seq<char>>::empty());
            },
        }
        let ghost candidates = strings_view(all@);
        assert(candidates == tracker_candidates(self@));
        let mut out: Vec<String> = Vec::new();
        let mut k: usize = 0;
        while k < all.len()
            invariant
                k <= all@.len(),
                candidates == strings_view(all@),
                strings_view(out@) == first_occurrences(candidates.take(k as int)),
            decreases all@.len() - k,
        {
            proof {
                assert(candidates.take(k + 1).drop_last() =~= candidates.take(k as int));
                assert(candidates.take(k + 1).last() == all@[k as int]@);
            }
            if !contains_text(&out, &all[k]) {
                let ghost prev = out@;
                out.push(all[k].clone());
                assert(strings_view(out@) =~= strings_view(prev).push(all@[k as int]@));
                assert(strings_view(out@) =~= first_occurrences(candidates.take(k as int)).push(all@[k as int]@));
            }
            k = k + 1;
        }
        assert(candidates.take(k as int) =~= candidates);
        out
    }
}

proof fn lemma_first_occurrences(s: Seq<Seq<char>>)
    ensures
        forall|i: int, j: int|
            0 <= i < j < first_occurrences(s).len() ==> first_occurrences(s)[i] != first_occurrences(s)[j],
        forall|x: Seq<char>| s.contains(x) <==> first_occurrences(s).contains(x),
        s.len() > 0 ==> first_occurrences(s).len() > 0 && first_occurrences(s)[0] == s[0],
    decreases s.len(),
{
    if s.len() > 0 {
        let p = s.drop_last();
        lemma_first_occurrences(p);
        let d = first_occurrences(p);
        let f = first_occurrences(s);
        assert forall|x: Seq<char>| s.contains(x) <==> f.contains(x) by {
            if s.contains(x) {
                let k = choose|k: int| 0 <= k < s.len() && s[k] == x;
                if k < s.len() - 1 {
                    assert(p[k] == x);
                    assert(p.contains(x));
                    assert(d.contains(x));
                    let m = choose|m: int| 0 <= m < d.len() && d[m] == x;
                    assert(f[m] == x);
                } else if d.contains(x) {
                    let m = choose|m: int| 0 <= m < d.len() && d[m] == x;
                    assert(f[m] == x);
                } else {
                    assert(f[d.len() as int] == x);
                }
            }
            if f.contains(x) {
                if x == s.last() {
                    assert(s[s.len() - 1] == x);
                } else {
                    let m = choose|m: int| 0 <= m < f.len() && f[m] == x;
                    assert(m < d.len());
                    assert(d[m] == x);
                    assert(d.contains(x));
                    assert(p.contains(x));
                    let k = choose|k: int| 0 <= k < p.len() && p[k] == x;
                    assert(s[k] == x);
                }
            }
        }
        if p.len() == 0 {
            assert(d.len() == 0);
        } else {
            assert(p[0] == s[0]);
        }
    }
}

/// No tracker URL is listed twice.
pub proof fn law_announce_urls_distinct(t: TorrentView)
    ensures
        forall|i: int, j: int|
            0 <= i < j < first_occurrences(tracker_candidates(t)).len() ==> first_occurrences(
                tracker_candidates(t),
            )[i] != first_occurrences(tracker_candidates(t))[j],
{
    lemma_first_occurrences(tracker_candidates(t));
}

/// A URL is listed exactly when the torrent names it, as `announce` or in
/// any tier of `announce-list`.
pub proof fn law_announce_urls_complete(t: TorrentView, url: Seq<char>)
    ensures
        first_occurrences(tracker_candidates(t)).contains(url) <==> (t.announce == Some(url) || (
        t.announce_list matches Some(l) && flatten_tiers(l).contains(url))),
{
    let c = tracker_candidates(t);
    lemma_first_occurrences(c);
    let head = match t.announce {
        Some(a) => seq![a],
        None => Seq::<Seq<char>>::empty(),
    };
    let tail = match t.announce_list {
        Some(l) => flatten_tiers(l),
        None => Seq::<Seq<char>>::empty(),
    };
    assert(c == head + tail);
    if c.contains(url) {
        let k = choose|k: int| 0 <= k < c.len() && c[k] == url;
        if k >= head.len() {
            assert(tail[k - head.len()] == url);
        }
    }
    if t.announce == Some(url) {
        assert(c[0] == url);
    }
    if t.announce_list matches Some(l) && flatten_tiers(l).contains(url) {
        let k = choose|k: int| 0 <= k < tail.len() && tail[k] == url;
        assert(c[k + head.len()] == url);
    }
}

/// The primary tracker, when there is one, comes first.
pub proof fn law_announce_first(t: TorrentView)
    requires
        t.announce is Some,
    ensures
        first_occurrences(tracker_candidates(t)).len() > 0,
        first_occurrences(tracker_candidates(t))[0] == t.announce->0,
{
    let c = tracker_candidates(t);
    lemma_first_occurrences(c);
    assert(c[0] == t.announce->0);
}

/// Where a dictionary's entries were read from, the value of any key appears
/// there verbatim, written exactly as it is written again.
proof fn lemma_entry_bytes(b: Seq<u8>, k: Seq<u8>)
    requires
        spec_parse_entries(b) is Some,
        spec_lookup((spec_parse_entries(b)->0).0, k) is Some,
    ensures
        exists|i: int|
            0 <= i && i + spec_encode(spec_lookup((spec_parse_entries(b)->0).0, k)->0).len() <= b.len()
                && #[trigger] b.subrange(i, i + spec_encode(spec_lookup((spec_parse_entries(b)->0).0, k)->0).len())
                == spec_encode(spec_lookup((spec_parse_entries(b)->0).0, k)->0),
    decreases b.len(),
{
    let (entries, m) = spec_parse_entries(b)->0;
    let (key, kn) = spec_string(b)->0;
    let after_key = b.subrange(kn as int, b.len() as int);
    let (v, vn) = spec_parse(after_key)->0;
    let tail = after_key.subrange(vn as int, after_key.len() as int);
    let rest = (spec_parse_entries(tail)->0).0;
    assert(entries == seq![(key, v)] + rest);
    assert(entries[0] == (key, v));
    assert(entries.drop_first() =~= rest);
    let target = spec_lookup(entries, k)->0;
    if key == k {
        law_parse_encode_roundtrip(after_key);
        assert(target == v);
        assert(b.subrange(kn as int, (kn + vn) as int) =~= after_key.take(vn as int));
    } else {
        assert(spec_lookup(rest, k) == spec_lookup(entries, k));
        lemma_entry_bytes(tail, k);
        let n = spec_encode(target).len();
        let i = choose|i: int| 0 <= i && i + n <= tail.len() && #[trigger] tail.subrange(i, i + n) == spec_encode(target);
        assert(b.subrange(kn + vn + i, kn + vn + i + n) =~= tail.subrange(i, i + n));
    }
}

/// The info hash is taken over the `info` dictionary exactly as the file
/// writes it: its bytes appear verbatim in the file, key order, unknown keys
/// and all.
pub proof fn law_info_hash_covers_file_bytes(data: Seq<u8>)
    requires
        has_info(data),
    ensures
        exists|i: int|
            0 <= i && i + spec_encode(info_value(spec_document(data)->0)->0).len() <= data.len()
                && #[trigger] data.subrange(i, i + spec_encode(info_value(spec_document(data)->0)->0).len())
                == spec_encode(info_value(spec_document(data)->0)->0),
{
    let doc = spec_document(data)->0;
    let body = data.drop_first();
    assert(data[0] == 100u8);
    let e = (spec_parse_entries(body)->0).0;
    assert(doc == BencodeView::Dict(e));
    lemma_entry_bytes(body, key("info"));
    let target = info_value(doc)->0;
    let n = spec_encode(target).len();
    let i = choose|i: int| 0 <= i && i + n <= body.len() && #[trigger] body.subrange(i, i + n) == spec_encode(target);
    assert(data.subrange(i + 1, i + 1 + n) =~= body.subrange(i, i + n));
}

/// The lengths of `files`, added up.
pub open spec fn files_total(files: Seq<FileView>) -> int
    decreases files.len(),
{
    if files.len() == 0 {
        0
    } else {
        files_total(files.drop_last()) + files.last().length
    }
}

/// The torrent's length: `length` for a single file, otherwise the files'
/// lengths added up, and zero when it gives neither.
pub open spec fn spec_total_length(i: InfoView) -> int {
    match i.length {
        Some(n) => n as int,
        None => match i.files {
            Some(f) => files_total(f),
            None => 0,
        },
    }
}

pub(crate) proof fn lemma_files_total_prefix(files: Seq<FileView>, k: int)
    requires
        0 <= k <= files.len(),
    ensures
        0 <= files_total(files.take(k)) <= files_total(files),
    decreases files.len(),
{
    if files.len() > 0 {
        if k == files.len() {
            assert(files.take(k) =~= files);
            lemma_files_total_prefix(files.drop_last(), k - 1);
            assert(files.drop_last().take(k - 1) =~= files.drop_last());
        } else {
            lemma_files_total_prefix(files.drop_last(), k);
            assert(files.drop_last().take(k) =~= files.take(k));
        }
    }
}

impl Info {
    /// The length of the torrent's content.
    pub fn total_length(&self) -> (r: u64)
        requires
            spec_total_length(self@) <= u64::MAX,
        ensures
            r == spec_total_length(self@),
    {
        match self.length {
            Some(n) => n,
            None => match &self.files {
                Some(files) => {
                    let ghost fv = files_view(files@);
                    let mut sum: u64 = 0;
                    let mut k: usize = 0;
                    while k < files.len()
                        invariant
                            k <= files@.len(),
                            fv == files_view(files@),
                            files_total(fv) <= u64::MAX,
                            sum == files_total(fv.take(k as int)),
                        decreases files@.len() - k,
                    {
                        proof {
                            assert(fv.take(k + 1).drop_last() =~= fv.take(k as int));
                            lemma_files_total_prefix(fv, k + 1);
                        }
                        sum = sum + files[k].length;
                        k = k + 1;
                    }
                    assert(fv.take(k as int) =~= fv);
                    sum
                },
                None => 0,
            },
        }
    }
}

impl Info {
    /// Whether the torrent's length fits a `u64`: the files' lengths can add
    /// up to more.
    pub fn total_length_fits(&self) -> (r: bool)
        ensures
            r == (spec_total_length(self@) <= u64::MAX),
    {
        match self.length {
            Some(_) => true,
            None => match &self.files {
                Some(files) => {
                    let ghost fv = files_view(files@);
                    let mut sum: u64 = 0;
                    let mut k: usize = 0;
                    assert(self@.files == Some(fv));
                    while k < files.len()
                        invariant
                            k <= files@.len(),
                            fv == files_view(files@),
                            self@.files == Some(fv),
                            self@.length is None,
                            sum == files_total(fv.take(k as int)),
                        decreases files@.len() - k,
                    {
                        proof {
                            assert(fv.take(k + 1).drop_last() =~= fv.take(k as int));
                            assert(fv.take(k + 1).last() == fv[k as int]);
                            assert(fv[k as int].length == files@[k as int].length);
                            assert(files_total(fv.take(k + 1)) == sum + files@[k as int].length);
                        }
                        if sum > u64::MAX - files[k].length {
                            proof {
                                lemma_files_total_prefix(fv, k + 1);
                                assert(self@.files == Some(fv));
                                assert(spec_total_length(self@) == files_total(fv));
                            }
                            return false;
                        }
                        sum = sum + files[k].length;
                        k = k + 1;
                    }
                    assert(fv.take(k as int) =~= fv);
                    true
                },
                None => true,
            },
        }
    }
}

} // verus!
