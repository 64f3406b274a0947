//! The metainfo (`.torrent`) file: a bencoded dictionary with the tracker URL
//! under `announce` and the description of the content under `info`.
use vstd::prelude::*;
use vstd::string::StringSliceAdditionalSpecFns;

use crate::bencode_encoding::{encode, fits, lemma_decode_encoded, lemma_entries_fit};
use crate::bytes_bencode::{decode_prefix, spec_decode, BencodeValue, SpecValue};
use crate::utils::cryptography::{sha1_digest, sha1_hash};
use crate::utils::text::{hex_string, hex_text, string_from_utf8};

verus! {

/// A file of a torrent with several files.
#[derive(Default, Debug, Clone)]
pub struct File {
    /// Length of the file in bytes.
    pub length: usize,
    /// One or more strings that together represent the path and file name:
    /// each a directory name, the last the file name.
    pub path: Vec<String>,
}

/// Whether a torrent holds a single file (and its length) or several.
#[derive(Debug, Clone)]
pub enum FileKey {
    SingleFile { length: usize },
    MultiFile { files: Vec<File> },
}

impl Default for FileKey {
    fn default() -> (r: Self)
        ensures
            r matches FileKey::SingleFile { length } && length == 0,
    {
        FileKey::SingleFile { length: 0 }
    }
}

impl FileKey {
    /// The length of a single-file torrent; none for a torrent of several
    /// files.
    pub fn single_length(&self) -> (r: Option<usize>)
        ensures
            match self {
                FileKey::SingleFile { length } => r == Some(*length),
                FileKey::MultiFile { .. } => r is None,
            },
    {
        match self {
            FileKey::SingleFile { length } => Some(*length),
            FileKey::MultiFile { .. } => None,
        }
    }
}

#[derive(Default, Debug, Clone)]
pub struct Info {
    /// Suggested name to save the file (single file) or directory (several
    /// files) as. It is purely advisory.
    pub name: String,
    /// Number of bytes in each piece the file is split into.
    pub piece_length: usize,
    /// The SHA-1 digests of the pieces, 20 bytes each, one after the other.
    pub pieces: Vec<u8>,
    /// Single file or several files.
    pub key: FileKey,
}

#[derive(Default, Debug, Clone)]
pub struct TorrentFile {
    /// The URL of the tracker.
    pub announce: String,
    /// The description of the content.
    pub info: Info,
}

/// A file in mathematical form.
pub struct FileView {
    pub length: usize,
    pub path: Seq<Seq<char>>,
}

/// Single or several files in mathematical form.
pub enum FileKeyView {
    SingleFile(usize),
    MultiFile(Seq<FileView>),
}

/// The description of the content in mathematical form.
pub struct InfoView {
    pub name: Seq<char>,
    pub piece_length: usize,
    pub pieces: Seq<u8>,
    pub key: FileKeyView,
}

/// A metainfo file in mathematical form.
pub struct TorrentView {
    pub announce: Seq<char>,
    pub info: InfoView,
}

pub open spec fn strings_view(v: Seq<String>) -> Seq<Seq<char>> {
    Seq::new(v.len(), |i: int| v[i]@)
}

impl File {
    pub open spec fn view(&self) -> FileView {
        FileView { length: self.length, path: strings_view(self.path@) }
    }
}

pub open spec fn files_view(v: Seq<File>) -> Seq<FileView> {
    Seq::new(v.len(), |i: int| v[i].view())
}

impl FileKey {
    pub open spec fn view(&self) -> FileKeyView {
        match self {
            FileKey::SingleFile { length } => FileKeyView::SingleFile(*length),
            FileKey::MultiFile { files } => FileKeyView::MultiFile(files_view(files@)),
        }
    }
}

impl Info {
    pub open spec fn view(&self) -> InfoView {
        InfoView {
            name: self.name@,
            piece_length: self.piece_length,
            pieces: self.pieces@,
            key: self.key.view(),
        }
    }
}

impl TorrentFile {
    pub open spec fn view(&self) -> TorrentView {
        TorrentView { announce: self.announce@, info: self.info.view() }
    }
}

/// The value stored under `key` in a dictionary; when the key occurs more
/// than once, the last one counts.
pub open spec fn dict_lookup(entries: Seq<(Seq<u8>, SpecValue)>, key: Seq<u8>) -> Option<SpecValue>
    decreases entries.len(),
{
    if entries.len() == 0 {
        None
    } else if entries.last().0 == key {
        Some(entries.last().1)
    } else {
        dict_lookup(entries.drop_last(), key)
    }
}

/// A string value read as UTF-8 text.
pub open spec fn text_of(v: SpecValue) -> Option<Seq<char>> {
    match v {
        SpecValue::Bytes(b) => if vstd::utf8::valid_utf8(b) {
            Some(vstd::utf8::decode_utf8(b))
        } else {
            None
        },
        _ => None,
    }
}

/// An integer value that fits a `usize`.
pub open spec fn usize_of(v: SpecValue) -> Option<usize> {
    match v {
        SpecValue::Int(i) => if 0 <= i <= usize::MAX {
            Some(i as usize)
        } else {
            None
        },
        _ => None,
    }
}

/// A list of strings read as texts.
pub open spec fn texts_of(l: Seq<SpecValue>) -> Option<Seq<Seq<char>>> {
    if forall|i: int| 0 <= i < l.len() ==> (#[trigger] text_of(l[i])) is Some {
        Some(Seq::new(l.len(), |i: int| text_of(l[i])->0))
    } else {
        None
    }
}

/// Reads `<key>` from a dictionary value.
pub open spec fn field(v: SpecValue, key: Seq<u8>) -> Option<SpecValue> {
    match v {
        SpecValue::Dict(e) => dict_lookup(e, key),
        _ => None,
    }
}

/// A file: a dictionary with `length` and `path`, a list of strings.
pub open spec fn file_of(v: SpecValue) -> Option<FileView> {
    match (field(v, "length".spec_bytes()), field(v, "path".spec_bytes())) {
        (Some(l), Some(SpecValue::List(p))) => match (usize_of(l), texts_of(p)) {
            (Some(length), Some(path)) => Some(FileView { length, path }),
            _ => None,
        },
        _ => None,
    }
}

/// A list of files.
pub open spec fn files_of(l: Seq<SpecValue>) -> Option<Seq<FileView>> {
    if forall|i: int| 0 <= i < l.len() ==> (#[trigger] file_of(l[i])) is Some {
        Some(Seq::new(l.len(), |i: int| file_of(l[i])->0))
    } else {
        None
    }
}

/// A single file when `length` is a length, else several files when `files`
/// is a list of files.
pub open spec fn key_of(v: SpecValue) -> Option<FileKeyView> {
    match field(v, "length".spec_bytes()) {
        Some(l) if usize_of(l) is Some => Some(FileKeyView::SingleFile(usize_of(l)->0)),
        _ => match field(v, "files".spec_bytes()) {
            Some(SpecValue::List(l)) => match files_of(l) {
                Some(files) => Some(FileKeyView::MultiFile(files)),
                None => None,
            },
            _ => None,
        },
    }
}

/// The `info` dictionary: `name`, `piece length`, `pieces` and the file key.
/// Other keys are ignored.
pub open spec fn info_of(v: SpecValue) -> Option<InfoView> {
    match (
        field(v, "name".spec_bytes()),
        field(v, "piece length".spec_bytes()),
        field(v, "pieces".spec_bytes()),
        key_of(v),
    ) {
        (Some(n), Some(pl), Some(SpecValue::Bytes(pieces)), Some(key)) => match (
            text_of(n),
            usize_of(pl),
        ) {
            (Some(name), Some(piece_length)) => Some(
                InfoView { name, piece_length, pieces, key },
            ),
            _ => None,
        },
        _ => None,
    }
}

/// The metainfo dictionary: `announce` and `info`. Other keys are ignored.
pub open spec fn torrent_of(v: SpecValue) -> Option<TorrentView> {
    match (field(v, "announce".spec_bytes()), field(v, "info".spec_bytes())) {
        (Some(a), Some(i)) => match (text_of(a), info_of(i)) {
            (Some(announce), Some(info)) => Some(TorrentView { announce, info }),
            _ => None,
        },
        _ => None,
    }
}

/// The metainfo that a bencoded file describes.
pub open spec fn metafile_of(encoded: Seq<u8>) -> Option<TorrentView> {
    match spec_decode(encoded) {
        Some((v, _)) => torrent_of(v),
        None => None,
    }
}

/// Whether two byte strings are equal.
pub(crate) fn bytes_eq(a: &[u8], b: &[u8]) -> (r: bool)
    ensures
        r == (a@ == b@),
{
    if a.len() != b.len() {
        return false;
    }
    let mut i: usize = 0;
    while i < a.len()
        invariant
            i <= a@.len(),
            a@.len() == b@.len(),
            forall|j: int| 0 <= j < i ==> a@[j] == b@[j],
        decreases a@.len() - i,
    {
        if a[i] != b[i] {
            return false;
        }
        i = i + 1;
    }
    assert(a@ =~= b@);
    true
}

/// The value stored under `key` in a decoded dictionary.
pub(crate) fn lookup<'a>(v: &'a BencodeValue, key: &[u8]) -> (r: Option<&'a BencodeValue>)
    ensures
        match r {
            Some(x) => field(v.view_value(), key@) == Some(x.view_value()),
            None => field(v.view_value(), key@) is None,
        },
{
    match v {
        BencodeValue::Dict(entries) => {
            proof {
                crate::bytes_bencode::lemma_view_dict(*v);
            }
            let ghost e = crate::bytes_bencode::view_entries(entries@);
            let mut i = entries.len();
            assert(e.take(i as int) =~= e);
            while i > 0
                invariant
                    i <= entries@.len(),
                    e == crate::bytes_bencode::view_entries(entries@),
                    v.view_value() == SpecValue::Dict(e),
                    dict_lookup(e, key@) == dict_lookup(e.take(i as int), key@),
                decreases i,
            {
                let ghost t = e.take(i as int);
                assert(t.drop_last() =~= e.take(i - 1));
                assert(t.last() == e[i - 1]);
                assert(e[i - 1] == (entries@[i - 1].0@, entries@[i - 1].1.view_value()));
                if bytes_eq(entries[i - 1].0.as_slice(), key) {
                    assert(dict_lookup(t, key@) == Some(e[i - 1].1));
                    assert(v.view_value() == SpecValue::Dict(e));
                    return Some(&entries[i - 1].1);
                }
                i = i - 1;
            }
            None
        },
        _ => None,
    }
}

/// A string value read as UTF-8 text.
pub(crate) fn text_from(v: &BencodeValue) -> (r: Option<String>)
    ensures
        match r {
            Some(s) => text_of(v.view_value()) == Some(s@),
            None => text_of(v.view_value()) is None,
        },
{
    match v {
        BencodeValue::Bytes(b) => string_from_utf8(b.clone()),
        _ => None,
    }
}

/// An integer value that fits a `usize`.
fn usize_from(v: &BencodeValue) -> (r: Option<usize>)
    ensures
        r == usize_of(v.view_value()),
{
    match v {
        BencodeValue::Int(i) => if *i >= 0 && (*i as u64) <= (usize::MAX as u64) {
            Some(*i as usize)
        } else {
            None
        },
        _ => None,
    }
}

/// A list of strings read as texts.
fn texts_from(l: &Vec<BencodeValue>) -> (r: Option<Vec<String>>)
    ensures
        match r {
            Some(t) => texts_of(crate::bytes_bencode::view_values(l@)) == Some(strings_view(t@)),
            None => texts_of(crate::bytes_bencode::view_values(l@)) is None,
        },
{
    let ghost vl = crate::bytes_bencode::view_values(l@);
    let mut out: Vec<String> = Vec::new();
    let mut i: usize = 0;
    while i < l.len()
        invariant
            i <= l@.len(),
            vl == crate::bytes_bencode::view_values(l@),
            out@.len() == i,
            forall|j: int| 0 <= j < i ==> text_of(vl[j]) == Some(#[trigger] out@[j]@),
        decreases l@.len() - i,
    {
        match text_from(&l[i]) {
            Some(s) => {
                out.push(s);
            },
            None => {
                assert(text_of(vl[i as int]) is None);
                return None;
            },
        }
        i = i + 1;
    }
    assert forall|j: int| 0 <= j < vl.len() implies (#[trigger] text_of(vl[j])) is Some by {
        assert(text_of(vl[j]) == Some(out@[j]@));
    }
    assert(Seq::new(vl.len(), |j: int| text_of(vl[j])->0) =~= strings_view(out@));
    Some(out)
}

/// A file: a dictionary with `length` and `path`.
fn file_from(v: &BencodeValue) -> (r: Option<File>)
    ensures
        match r {
            Some(f) => file_of(v.view_value()) == Some(f.view()),
            None => file_of(v.view_value()) is None,
        },
{
    let l = lookup(v, "length".as_bytes());
    let p = lookup(v, "path".as_bytes());
    match (l, p) {
        (Some(lv), Some(pv)) => match pv {
            BencodeValue::List(items) => {
                proof {
                    crate::bytes_bencode::lemma_view_list(*pv);
                }
                match (usize_from(lv), texts_from(items)) {
                    (Some(length), Some(path)) => Some(File { length, path }),
                    _ => None,
                }
            },
            _ => None,
        },
        _ => None,
    }
}

/// A list of files.
fn files_from(l: &Vec<BencodeValue>) -> (r: Option<Vec<File>>)
    ensures
        match r {
            Some(f) => files_of(crate::bytes_bencode::view_values(l@)) == Some(files_view(f@)),
            None => files_of(crate::bytes_bencode::view_values(l@)) is None,
        },
{
    let ghost vl = crate::bytes_bencode::view_values(l@);
    let mut out: Vec<File> = Vec::new();
    let mut i: usize = 0;
    while i < l.len()
        invariant
            i <= l@.len(),
            vl == crate::bytes_bencode::view_values(l@),
            out@.len() == i,
            forall|j: int| 0 <= j < i ==> file_of(vl[j]) == Some(#[trigger] out@[j].view()),
        decreases l@.len() - i,
    {
        match file_from(&l[i]) {
            Some(f) => {
                out.push(f);
            },
            None => {
                assert(file_of(vl[i as int]) is None);
                return None;
            },
        }
        i = i + 1;
    }
    assert forall|j: int| 0 <= j < vl.len() implies (#[trigger] file_of(vl[j])) is Some by {
        assert(file_of(vl[j]) == Some(out@[j].view()));
    }
    assert(Seq::new(vl.len(), |j: int| file_of(vl[j])->0) =~= files_view(out@));
    Some(out)
}

/// The file key of an `info` dictionary.
fn key_from(v: &BencodeValue) -> (r: Option<FileKey>)
    ensures
        match r {
            Some(k) => key_of(v.view_value()) == Some(k.view()),
            None => key_of(v.view_value()) is None,
        },
{
    match lookup(v, "length".as_bytes()) {
        Some(l) => {
            match usize_from(l) {
                Some(length) => {
                    return Some(FileKey::SingleFile { length });
                },
                None => {},
            }
        },
        None => {},
    }
    match lookup(v, "files".as_bytes()) {
        Some(fv) => match fv {
            BencodeValue::List(l) => {
                proof {
                    crate::bytes_bencode::lemma_view_list(*fv);
                }
                match files_from(l) {
                    Some(files) => Some(FileKey::MultiFile { files }),
                    None => None,
                }
            },
            _ => None,
        },
        None => None,
    }
}

impl Info {
    /// The `info` dictionary of a metainfo file.
    pub fn from_value(v: &BencodeValue) -> (r: Option<Info>)
        ensures
            match r {
                Some(i) => info_of(v.view_value()) == Some(i.view()),
                None => info_of(v.view_value()) is None,
            },
    {
        let n = lookup(v, "name".as_bytes());
        let pl = lookup(v, "piece length".as_bytes());
        let pc = lookup(v, "pieces".as_bytes());
        let key = key_from(v);
        match (n, pl, pc, key) {
            (Some(n), Some(pl), Some(BencodeValue::Bytes(pieces)), Some(key)) => {
                match (text_from(n), usize_from(pl)) {
                    (Some(name), Some(piece_length)) => Some(
                        Info { name, piece_length, pieces: pieces.clone(), key },
                    ),
                    _ => None,
                }
            },
            _ => None,
        }
    }

    /// The SHA-1 digest of each piece in lower-case hexadecimal, in order.
    /// Bytes that do not fill a last 20-byte digest are left out.
    pub fn pieces_hashes(&self) -> (r: Vec<String>)
        ensures
            r@.len() == self.pieces@.len() / 20,
            forall|i: int|
                0 <= i < r@.len() ==> (#[trigger] r@[i])@ == hex_text(
                    self.pieces@.subrange(20 * i, 20 * i + 20),
                    false,
                ),
    {
        let mut out: Vec<String> = Vec::new();
        let count = self.pieces.len() / 20;
        let mut i: usize = 0;
        while i < count
            invariant
                count == self.pieces@.len() / 20,
                i <= count,
                out@.len() == i,
                forall|j: int|
                    0 <= j < i ==> (#[trigger] out@[j])@ == hex_text(
                        self.pieces@.subrange(20 * j, 20 * j + 20),
                        false,
                    ),
            decreases count - i,
        {
            proof {
                vstd::arithmetic::div_mod::lemma_fundamental_div_mod(self.pieces@.len() as int, 20);
            }
            assert(20 * i + 20 <= self.pieces.len());
            let chunk = &self.pieces.as_slice()[20 * i..20 * i + 20];
            out.push(hex_string(chunk));
            i = i + 1;
        }
        out
    }
}

/// A key that occurs once in a dictionary gives the value stored with it.
pub proof fn lemma_dict_lookup_unique(entries: Seq<(Seq<u8>, SpecValue)>, key: Seq<u8>, j: int)
    requires
        0 <= j < entries.len(),
        entries[j].0 == key,
        forall|i: int| 0 <= i < entries.len() && i != j ==> (#[trigger] entries[i]).0 != key,
    ensures
        dict_lookup(entries, key) == Some(entries[j].1),
    decreases entries.len(),
{
    if j < entries.len() - 1 {
        let d = entries.drop_last();
        assert forall|i: int| 0 <= i < d.len() && i != j implies (#[trigger] d[i]).0 != key by {
            assert(d[i] == entries[i]);
        }
        lemma_dict_lookup_unique(d, key, j);
    }
}

/// A key that occurs nowhere in a dictionary gives nothing.
pub proof fn lemma_dict_lookup_absent(entries: Seq<(Seq<u8>, SpecValue)>, key: Seq<u8>)
    requires
        forall|i: int| 0 <= i < entries.len() ==> (#[trigger] entries[i]).0 != key,
    ensures
        dict_lookup(entries, key) is None,
    decreases entries.len(),
{
    if entries.len() > 0 {
        let d = entries.drop_last();
        assert forall|i: int| 0 <= i < d.len() implies (#[trigger] d[i]).0 != key by {
            assert(d[i] == entries[i]);
        }
        lemma_dict_lookup_absent(d, key);
    }
}

/// Looking a key up in two runs of entries, one after the other: the later
/// run wins.
pub proof fn lemma_dict_lookup_concat(
    a: Seq<(Seq<u8>, SpecValue)>,
    b: Seq<(Seq<u8>, SpecValue)>,
    key: Seq<u8>,
)
    ensures
        dict_lookup(a + b, key) == match dict_lookup(b, key) {
            Some(x) => Some(x),
            None => dict_lookup(a, key),
        },
    decreases b.len(),
{
    if b.len() == 0 {
        assert(a + b =~= a);
    } else {
        assert((a + b).drop_last() =~= a + b.drop_last());
        assert((a + b).last() == b.last());
        lemma_dict_lookup_concat(a, b.drop_last(), key);
    }
}

/// The bytes of the keys of a metainfo file.
proof fn lemma_metainfo_keys()
    ensures
        "length".spec_bytes() == seq![108u8, 101, 110, 103, 116, 104],
        "name".spec_bytes() == seq![110u8, 97, 109, 101],
        "piece length".spec_bytes() == seq![
            112u8, 105, 101, 99, 101, 32, 108, 101, 110, 103, 116, 104,
        ],
        "pieces".spec_bytes() == seq![112u8, 105, 101, 99, 101, 115],
        "files".spec_bytes() == seq![102u8, 105, 108, 101, 115],
        "path".spec_bytes() == seq![112u8, 97, 116, 104],
        "announce".spec_bytes() == seq![97u8, 110, 110, 111, 117, 110, 99, 101],
        "info".spec_bytes() == seq![105u8, 110, 102, 111],
{
    broadcast use vstd::string::is_ascii_spec_bytes;

    reveal_strlit("length");
    reveal_strlit("name");
    reveal_strlit("piece length");
    reveal_strlit("pieces");
    reveal_strlit("files");
    reveal_strlit("path");
    reveal_strlit("announce");
    reveal_strlit("info");
    assert(vstd::string::is_ascii("length"));
    assert(vstd::string::is_ascii("name"));
    assert(vstd::string::is_ascii("piece length"));
    assert(vstd::string::is_ascii("pieces"));
    assert(vstd::string::is_ascii("files"));
    assert(vstd::string::is_ascii("path"));
    assert(vstd::string::is_ascii("announce"));
    assert(vstd::string::is_ascii("info"));
    assert("length".spec_bytes() =~= seq![108u8, 101, 110, 103, 116, 104]);
    assert("name".spec_bytes() =~= seq![110u8, 97, 109, 101]);
    assert("piece length".spec_bytes() =~= seq![
        112u8, 105, 101, 99, 101, 32, 108, 101, 110, 103, 116, 104,
    ]);
    assert("pieces".spec_bytes() =~= seq![112u8, 105, 101, 99, 101, 115]);
    assert("files".spec_bytes() =~= seq![102u8, 105, 108, 101, 115]);
    assert("path".spec_bytes() =~= seq![112u8, 97, 116, 104]);
    assert("announce".spec_bytes() =~= seq![97u8, 110, 110, 111, 117, 110, 99, 101]);
    assert("info".spec_bytes() =~= seq![105u8, 110, 102, 111]);
}

/// The info dictionary of a single file, with its keys in sorted order.
pub open spec fn single_file_info(
    name: Seq<char>,
    piece_length: int,
    pieces: Seq<u8>,
    length: int,
) -> SpecValue {
    SpecValue::Dict(
        seq![
            ("length".spec_bytes(), SpecValue::Int(length)),
            ("name".spec_bytes(), SpecValue::Bytes(vstd::utf8::encode_utf8(name))),
            ("piece length".spec_bytes(), SpecValue::Int(piece_length)),
            ("pieces".spec_bytes(), SpecValue::Bytes(pieces)),
        ],
    )
}

/// A single-file info dictionary is read as written, over the whole range of
/// `usize`: with any name, any piece hashes, and a piece length and a file
/// length that both lie in `0..=usize::MAX`, it gives that name, those
/// hashes, that piece length and a single file of that length; with either
/// number outside that range it is refused.
pub proof fn lemma_single_file_info(
    name: Seq<char>,
    piece_length: int,
    pieces: Seq<u8>,
    length: int,
)
    ensures
        info_of(single_file_info(name, piece_length, pieces, length)) == if 0 <= piece_length
            <= usize::MAX && 0 <= length <= usize::MAX {
            Some(
                InfoView {
                    name,
                    piece_length: piece_length as usize,
                    pieces,
                    key: FileKeyView::SingleFile(length as usize),
                },
            )
        } else {
            None::<InfoView>
        },
{
    broadcast use vstd::utf8::encode_utf8_valid_utf8, vstd::utf8::encode_utf8_decode_utf8;

    lemma_metainfo_keys();
    let v = single_file_info(name, piece_length, pieces, length);
    let e = v->Dict_0;
    let k_length = "length".spec_bytes();
    let k_name = "name".spec_bytes();
    let k_pl = "piece length".spec_bytes();
    let k_pieces = "pieces".spec_bytes();
    let k_files = "files".spec_bytes();
    assert(e[0].0 == k_length && e[1].0 == k_name && e[2].0 == k_pl && e[3].0 == k_pieces);
    assert(k_length[0] != k_name[0] && k_length[0] != k_pieces[0] && k_name[0] != k_pieces[0]);
    assert(k_length.len() != k_pl.len() && k_name.len() != k_pl.len() && k_pieces.len()
        != k_pl.len());
    assert(k_files[0] != k_length[0] && k_files[0] != k_name[0] && k_files[0] != k_pieces[0]);
    assert(k_files.len() != k_pl.len());
    lemma_dict_lookup_unique(e, k_length, 0);
    lemma_dict_lookup_unique(e, k_name, 1);
    lemma_dict_lookup_unique(e, k_pl, 2);
    lemma_dict_lookup_unique(e, k_pieces, 3);
    lemma_dict_lookup_absent(e, k_files);
    assert(text_of(SpecValue::Bytes(vstd::utf8::encode_utf8(name))) == Some(name));
}

/// The path of a file as a bencoded list of its components' UTF-8 bytes.
pub open spec fn path_list(path: Seq<Seq<char>>) -> Seq<SpecValue> {
    Seq::new(path.len(), |i: int| SpecValue::Bytes(vstd::utf8::encode_utf8(path[i])))
}

/// The dictionary of a file of a torrent with several files, with its keys
/// in sorted order.
pub open spec fn file_dict(length: int, path: Seq<Seq<char>>) -> SpecValue {
    SpecValue::Dict(
        seq![
            ("length".spec_bytes(), SpecValue::Int(length)),
            ("path".spec_bytes(), SpecValue::List(path_list(path))),
        ],
    )
}

/// The info dictionary of several files, each a length and a path, with its
/// keys in sorted order.
pub open spec fn multi_file_info(
    name: Seq<char>,
    piece_length: int,
    pieces: Seq<u8>,
    files: Seq<(int, Seq<Seq<char>>)>,
) -> SpecValue {
    SpecValue::Dict(
        seq![
            (
                "files".spec_bytes(),
                SpecValue::List(Seq::new(files.len(), |i: int| file_dict(files[i].0, files[i].1))),
            ),
            ("name".spec_bytes(), SpecValue::Bytes(vstd::utf8::encode_utf8(name))),
            ("piece length".spec_bytes(), SpecValue::Int(piece_length)),
            ("pieces".spec_bytes(), SpecValue::Bytes(pieces)),
        ],
    )
}

/// A file's dictionary is read as written: its length, when it lies in
/// `0..=usize::MAX`, and its path, component by component.
proof fn lemma_file_dict(length: int, path: Seq<Seq<char>>)
    ensures
        file_of(file_dict(length, path)) == if 0 <= length <= usize::MAX {
            Some(FileView { length: length as usize, path })
        } else {
            None::<FileView>
        },
{
    broadcast use vstd::utf8::encode_utf8_valid_utf8, vstd::utf8::encode_utf8_decode_utf8;

    lemma_metainfo_keys();
    let e = file_dict(length, path)->Dict_0;
    let k_length = "length".spec_bytes();
    let k_path = "path".spec_bytes();
    assert(e[0].0 == k_length && e[1].0 == k_path && k_length.len() != k_path.len());
    lemma_dict_lookup_unique(e, k_length, 0);
    lemma_dict_lookup_unique(e, k_path, 1);
    let l = path_list(path);
    assert forall|i: int| 0 <= i < l.len() implies (#[trigger] text_of(l[i])) == Some(path[i]) by {}
    assert(texts_of(l) == Some(path)) by {
        assert(Seq::new(l.len(), |i: int| text_of(l[i])->0) =~= path);
    }
}

/// An info dictionary of several files is read as written, over the whole
/// range of `usize`: with any name, any piece hashes and any paths, a piece
/// length and file lengths that all lie in `0..=usize::MAX` give that name,
/// those hashes, that piece length and those files, in order; with any of
/// those numbers outside that range it is refused.
pub proof fn lemma_multi_file_info(
    name: Seq<char>,
    piece_length: int,
    pieces: Seq<u8>,
    files: Seq<(int, Seq<Seq<char>>)>,
)
    ensures
        info_of(multi_file_info(name, piece_length, pieces, files)) == if 0 <= piece_length
            <= usize::MAX && forall|i: int|
            0 <= i < files.len() ==> 0 <= #[trigger] files[i].0 <= usize::MAX {
            Some(
                InfoView {
                    name,
                    piece_length: piece_length as usize,
                    pieces,
                    key: FileKeyView::MultiFile(
                        Seq::new(
                            files.len(),
                            |i: int| FileView { length: files[i].0 as usize, path: files[i].1 },
                        ),
                    ),
                },
            )
        } else {
            None::<InfoView>
        },
{
    broadcast use vstd::utf8::encode_utf8_valid_utf8, vstd::utf8::encode_utf8_decode_utf8;

    lemma_metainfo_keys();
    let v = multi_file_info(name, piece_length, pieces, files);
    let e = v->Dict_0;
    let k_length = "length".spec_bytes();
    let k_name = "name".spec_bytes();
    let k_pl = "piece length".spec_bytes();
    let k_pieces = "pieces".spec_bytes();
    let k_files = "files".spec_bytes();
    assert(e[0].0 == k_files && e[1].0 == k_name && e[2].0 == k_pl && e[3].0 == k_pieces);
    assert(k_files[0] != k_name[0] && k_files[0] != k_pieces[0] && k_name[0] != k_pieces[0]);
    assert(k_files.len() != k_pl.len() && k_name.len() != k_pl.len() && k_pieces.len()
        != k_pl.len());
    assert(k_length[0] != k_files[0] && k_length[0] != k_name[0] && k_length[0] != k_pieces[0]);
    assert(k_length.len() != k_pl.len());
    lemma_dict_lookup_unique(e, k_files, 0);
    lemma_dict_lookup_unique(e, k_name, 1);
    lemma_dict_lookup_unique(e, k_pl, 2);
    lemma_dict_lookup_unique(e, k_pieces, 3);
    lemma_dict_lookup_absent(e, k_length);
    assert(text_of(SpecValue::Bytes(vstd::utf8::encode_utf8(name))) == Some(name));
    let l = Seq::new(files.len(), |i: int| file_dict(files[i].0, files[i].1));
    assert forall|i: int| 0 <= i < l.len() implies #[trigger] file_of(l[i]) == if 0 <= files[i].0
        <= usize::MAX {
        Some(FileView { length: files[i].0 as usize, path: files[i].1 })
    } else {
        None::<FileView>
    } by {
        lemma_file_dict(files[i].0, files[i].1);
    }
    if forall|i: int| 0 <= i < files.len() ==> 0 <= #[trigger] files[i].0 <= usize::MAX {
        assert forall|i: int| 0 <= i < l.len() implies (#[trigger] file_of(l[i])) is Some by {
            assert(0 <= files[i].0 <= usize::MAX);
        }
        assert(files_of(l) == Some(
            Seq::new(
                files.len(),
                |i: int| FileView { length: files[i].0 as usize, path: files[i].1 },
            ),
        )) by {
            assert(Seq::new(l.len(), |i: int| file_of(l[i])->0) =~= Seq::new(
                files.len(),
                |i: int| FileView { length: files[i].0 as usize, path: files[i].1 },
            ));
        }
    } else {
        let j = choose|i: int| 0 <= i < files.len() && !(0 <= #[trigger] files[i].0 <= usize::MAX);
        assert(file_of(l[j]) is None);
        assert(files_of(l) is None);
    }
}

/// A metainfo dictionary of a tracker URL and an info dictionary, with its
/// keys in sorted order.
pub open spec fn torrent_dict(announce: Seq<char>, info: SpecValue) -> SpecValue {
    SpecValue::Dict(
        seq![
            ("announce".spec_bytes(), SpecValue::Bytes(vstd::utf8::encode_utf8(announce))),
            ("info".spec_bytes(), info),
        ],
    )
}

/// A metainfo dictionary is read as written: its tracker URL, and what its
/// info dictionary describes; it is refused when that is refused.
pub proof fn lemma_torrent_dict(announce: Seq<char>, info: SpecValue)
    ensures
        torrent_of(torrent_dict(announce, info)) == match info_of(info) {
            Some(i) => Some(TorrentView { announce, info: i }),
            None => None::<TorrentView>,
        },
{
    broadcast use vstd::utf8::encode_utf8_valid_utf8, vstd::utf8::encode_utf8_decode_utf8;

    lemma_metainfo_keys();
    let e = torrent_dict(announce, info)->Dict_0;
    let k_a = "announce".spec_bytes();
    let k_i = "info".spec_bytes();
    assert(e[0].0 == k_a && e[1].0 == k_i && k_a.len() != k_i.len());
    lemma_dict_lookup_unique(e, k_a, 0);
    lemma_dict_lookup_unique(e, k_i, 1);
    assert(text_of(SpecValue::Bytes(vstd::utf8::encode_utf8(announce))) == Some(announce));
}

/// A single-file metainfo file, as written, is read back whole: the bytes
/// of a dictionary of a tracker URL and a single-file info dictionary give
/// that URL, name, piece length, piece hashes and file length, for every
/// piece length and file length up to the largest integer that the decoder
/// reads (and that a `usize` holds).
pub proof fn lemma_single_file_metafile(
    announce: Seq<char>,
    name: Seq<char>,
    piece_length: int,
    pieces: Seq<u8>,
    length: int,
)
    requires
        0 <= piece_length <= usize::MAX,
        piece_length <= i64::MAX,
        0 <= length <= usize::MAX,
        length <= i64::MAX,
        vstd::utf8::encode_utf8(announce).len() <= usize::MAX,
        vstd::utf8::encode_utf8(name).len() <= usize::MAX,
        pieces.len() <= usize::MAX,
    ensures
        metafile_of(encode(torrent_dict(announce, single_file_info(name, piece_length, pieces, length))))
            == Some(
            TorrentView {
                announce,
                info: InfoView {
                    name,
                    piece_length: piece_length as usize,
                    pieces,
                    key: FileKeyView::SingleFile(length as usize),
                },
            },
        ),
{
    lemma_metainfo_keys();
    let info = single_file_info(name, piece_length, pieces, length);
    let ie = info->Dict_0;
    assert forall|i: int| 0 <= i < ie.len() implies (#[trigger] ie[i]).0.len() <= usize::MAX
        && fits(ie[i].1) by {
        if i == 2 {
            assert(fits(SpecValue::Int(piece_length)));
        }
    }
    lemma_entries_fit(ie);
    let t = torrent_dict(announce, info);
    let te = t->Dict_0;
    assert forall|i: int| 0 <= i < te.len() implies (#[trigger] te[i]).0.len() <= usize::MAX
        && fits(te[i].1) by {}
    lemma_entries_fit(te);
    lemma_decode_encoded(t, Seq::empty());
    assert(encode(t) + Seq::<u8>::empty() =~= encode(t));
    lemma_single_file_info(name, piece_length, pieces, length);
    lemma_torrent_dict(announce, info);
}

/// The tag that precedes the `info` dictionary in a metainfo file.
pub open spec fn info_tag() -> Seq<u8> {
    "4:info".spec_bytes()
}

/// The six bytes of `s` from `j`.
pub open spec fn window(s: Seq<u8>, j: int) -> Seq<u8> {
    s.subrange(j, j + 6)
}

/// `s[i..i + 6]` is the info tag and no earlier window is.
pub open spec fn is_first_tag(s: Seq<u8>, i: int) -> bool {
    &&& 0 <= i && i + 6 <= s.len()
    &&& window(s, i) == info_tag()
    &&& forall|j: int| 0 <= j < i ==> #[trigger] window(s, j) != info_tag()
}

/// The position of the first info tag in `s`, if any.
pub open spec fn first_tag(s: Seq<u8>) -> Option<int> {
    if exists|i: int| is_first_tag(s, i) {
        Some(choose|i: int| is_first_tag(s, i))
    } else {
        None
    }
}

proof fn lemma_first_tag(s: Seq<u8>, i: int)
    requires
        is_first_tag(s, i),
    ensures
        first_tag(s) == Some(i),
{
    let k = choose|k: int| is_first_tag(s, k);
    assert(is_first_tag(s, k));
    if k < i {
        assert(window(s, k) != info_tag());
    }
    if i < k {
        assert(window(s, i) != info_tag());
    }
}

impl TorrentFile {
    /// An empty metainfo: no tracker, an empty single file.
    pub fn new() -> (r: Self)
        ensures
            r.announce@ == Seq::<char>::empty(),
            r.info.name@ == Seq::<char>::empty(),
            r.info.piece_length == 0,
            r.info.pieces@ == Seq::<u8>::empty(),
            r.info.key matches FileKey::SingleFile { length } && length == 0,
    {
        TorrentFile {
            announce: String::new(),
            info: Info {
                name: String::new(),
                piece_length: 0,
                pieces: Vec::new(),
                key: FileKey::SingleFile { length: 0 },
            },
        }
    }

    /// The metainfo described by a decoded value.
    pub fn from_value(v: &BencodeValue) -> (r: Option<TorrentFile>)
        ensures
            match r {
                Some(t) => torrent_of(v.view_value()) == Some(t.view()),
                None => torrent_of(v.view_value()) is None,
            },
    {
        let a = lookup(v, "announce".as_bytes());
        let i = lookup(v, "info".as_bytes());
        match (a, i) {
            (Some(a), Some(i)) => match (text_from(a), Info::from_value(i)) {
                (Some(announce), Some(info)) => Some(TorrentFile { announce, info }),
                _ => None,
            },
            _ => None,
        }
    }

    /// The metainfo of a bencoded file, if it describes one.
    pub fn from_bencode(encoded: &[u8]) -> (r: Option<TorrentFile>)
        ensures
            match r {
                Some(t) => metafile_of(encoded@) == Some(t.view()),
                None => metafile_of(encoded@) is None,
            },
    {
        match decode_prefix(encoded) {
            Some((v, _)) => TorrentFile::from_value(&v),
            None => None,
        }
    }

    /// The metainfo of a bencoded file.
    pub fn parse_metafile(&self, encoded_value: &Vec<u8>) -> (r: TorrentFile)
        requires
            metafile_of(encoded_value@) is Some,
        ensures
            metafile_of(encoded_value@) == Some(r.view()),
    {
        match TorrentFile::from_bencode(encoded_value.as_slice()) {
            Some(t) => t,
            None => TorrentFile::new(),
        }
    }

    /// The info hash: the SHA-1 digest of what follows the first `4:info` tag
    /// in the file, up to but not including the file's last byte (the `e`
    /// that closes the metainfo dictionary). `None` when there is no tag.
    pub fn info_hash(&self, encoded_value: &[u8]) -> (r: Option<Vec<u8>>)
        requires
            first_tag(encoded_value@) matches Some(p) ==> p + 6 <= encoded_value@.len() - 1,
        ensures
            match first_tag(encoded_value@) {
                Some(p) => r matches Some(d) && d@ == sha1_digest(
                    encoded_value@.subrange(p + 6, encoded_value@.len() - 1),
                ) && d@.len() == 20,
                None => r is None,
            },
    {
        match first_info_tag(encoded_value) {
            Some(pos) => {
                assert(pos + 6 <= encoded_value.len() - 1);
                let start = pos + 6;
                let after_tag = &encoded_value[start..encoded_value.len() - 1];
                Some(sha1_hash(after_tag))
            },
            None => None,
        }
    }
}

/// The position of the first `4:info` tag in the file, if any.
pub fn first_info_tag(encoded_value: &[u8]) -> (r: Option<usize>)
    ensures
        match r {
            Some(p) => first_tag(encoded_value@) == Some(p as int),
            None => first_tag(encoded_value@) is None,
        },
{
    let tag = "4:info".as_bytes();
    if encoded_value.len() < 6 {
        proof {
            if exists|i: int| is_first_tag(encoded_value@, i) {
                let k = choose|k: int| is_first_tag(encoded_value@, k);
                assert(k + 6 <= encoded_value@.len());
            }
        }
        return None;
    }
    let mut pos: usize = 0;
    while pos <= encoded_value.len() - 6
        invariant
            encoded_value@.len() >= 6,
            tag@ == info_tag(),
            pos <= encoded_value@.len(),
            forall|j: int| 0 <= j < pos ==> #[trigger] window(encoded_value@, j) != info_tag(),
        decreases encoded_value@.len() - pos,
    {
        let w = &encoded_value[pos..pos + 6];
        assert(w@ =~= window(encoded_value@, pos as int));
        if bytes_eq(w, tag) {
            proof {
                lemma_first_tag(encoded_value@, pos as int);
            }
            return Some(pos);
        }
        pos = pos + 1;
    }
    proof {
        if exists|i: int| is_first_tag(encoded_value@, i) {
            let k = choose|k: int| is_first_tag(encoded_value@, k);
            assert(k + 6 <= encoded_value@.len());
            assert(k < pos);
        }
    }
    None
}

} // verus!
