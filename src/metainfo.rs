//! The metainfo model: a typed view over a decoded metainfo dictionary.
use vstd::prelude::*;
use crate::bencode::{BValue, OwnedValue, field, copy_bytes};

verus! {

/// The key `announce`.
pub open spec fn key_announce() -> Seq<u8> {
    seq![97u8, 110, 110, 111, 117, 110, 99, 101]
}

fn key_announce_bytes() -> (r: Vec<u8>)
    ensures
        r@ == key_announce(),
{
    let r: Vec<u8> = vec![97u8, 110, 110, 111, 117, 110, 99, 101];
    assert(r@ =~= key_announce());
    r
}

/// The key `info`.
pub open spec fn key_info() -> Seq<u8> {
    seq![105u8, 110, 102, 111]
}

fn key_info_bytes() -> (r: Vec<u8>)
    ensures
        r@ == key_info(),
{
    let r: Vec<u8> = vec![105u8, 110, 102, 111];
    assert(r@ =~= key_info());
    r
}

/// The key `name`.
pub open spec fn key_name() -> Seq<u8> {
    seq![110u8, 97, 109, 101]
}

fn key_name_bytes() -> (r: Vec<u8>)
    ensures
        r@ == key_name(),
{
    let r: Vec<u8> = vec![110u8, 97, 109, 101];
    assert(r@ =~= key_name());
    r
}

/// The key `piece length`.
pub open spec fn key_piece_length() -> Seq<u8> {
    seq![112u8, 105, 101, 99, 101, 32, 108, 101, 110, 103, 116, 104]
}

fn key_piece_length_bytes() -> (r: Vec<u8>)
    ensures
        r@ == key_piece_length(),
{
    let r: Vec<u8> = vec![112u8, 105, 101, 99, 101, 32, 108, 101, 110, 103, 116, 104];
    assert(r@ =~= key_piece_length());
    r
}

/// The key `pieces`.
pub open spec fn key_pieces() -> Seq<u8> {
    seq![112u8, 105, 101, 99, 101, 115]
}

fn key_pieces_bytes() -> (r: Vec<u8>)
    ensures
        r@ == key_pieces(),
{
    let r: Vec<u8> = vec![112u8, 105, 101, 99, 101, 115];
    assert(r@ =~= key_pieces());
    r
}

/// The key `length`.
pub open spec fn key_length() -> Seq<u8> {
    seq![108u8, 101, 110, 103, 116, 104]
}

fn key_length_bytes() -> (r: Vec<u8>)
    ensures
        r@ == key_length(),
{
    let r: Vec<u8> = vec![108u8, 101, 110, 103, 116, 104];
    assert(r@ =~= key_length());
    r
}

/// The key `files`.
pub open spec fn key_files() -> Seq<u8> {
    seq![102u8, 105, 108, 101, 115]
}

fn key_files_bytes() -> (r: Vec<u8>)
    ensures
        r@ == key_files(),
{
    let r: Vec<u8> = vec![102u8, 105, 108, 101, 115];
    assert(r@ =~= key_files());
    r
}

/// The key `path`.
pub open spec fn key_path() -> Seq<u8> {
    seq![112u8, 97, 116, 104]
}

fn key_path_bytes() -> (r: Vec<u8>)
    ensures
        r@ == key_path(),
{
    let r: Vec<u8> = vec![112u8, 97, 116, 104];
    assert(r@ =~= key_path());
    r
}

/// The key `md5sum`.
pub open spec fn key_md5sum() -> Seq<u8> {
    seq![109u8, 100, 53, 115, 117, 109]
}

fn key_md5sum_bytes() -> (r: Vec<u8>)
    ensures
        r@ == key_md5sum(),
{
    let r: Vec<u8> = vec![109u8, 100, 53, 115, 117, 109];
    assert(r@ =~= key_md5sum());
    r
}

/// The key `creation date`.
pub open spec fn key_creation_date() -> Seq<u8> {
    seq![99u8, 114, 101, 97, 116, 105, 111, 110, 32, 100, 97, 116, 101]
}

fn key_creation_date_bytes() -> (r: Vec<u8>)
    ensures
        r@ == key_creation_date(),
{
    let r: Vec<u8> = vec![99u8, 114, 101, 97, 116, 105, 111, 110, 32, 100, 97, 116, 101];
    assert(r@ =~= key_creation_date());
    r
}

/// The key `comment`.
pub open spec fn key_comment() -> Seq<u8> {
    seq![99u8, 111, 109, 109, 101, 110, 116]
}

fn key_comment_bytes() -> (r: Vec<u8>)
    ensures
        r@ == key_comment(),
{
    let r: Vec<u8> = vec![99u8, 111, 109, 109, 101, 110, 116];
    assert(r@ =~= key_comment());
    r
}

/// The key `created by`.
pub open spec fn key_created_by() -> Seq<u8> {
    seq![99u8, 114, 101, 97, 116, 101, 100, 32, 98, 121]
}

fn key_created_by_bytes() -> (r: Vec<u8>)
    ensures
        r@ == key_created_by(),
{
    let r: Vec<u8> = vec![99u8, 114, 101, 97, 116, 101, 100, 32, 98, 121];
    assert(r@ =~= key_created_by());
    r
}

/// A non-negative integer that fits in `usize`.
pub open spec fn size_of(o: Option<BValue>) -> Option<nat> {
    match o {
        Some(BValue::Int(n)) => if 0 <= n <= usize::MAX {
            Some(n as nat)
        } else {
            None
        },
        _ => None,
    }
}

/// A byte string.
pub open spec fn bytes_of(o: Option<BValue>) -> Option<Seq<u8>> {
    match o {
        Some(BValue::Bytes(b)) => Some(b),
        _ => None,
    }
}

/// An optional byte-string field: absent, or a byte string.
pub open spec fn optional_bytes_ok(o: Option<BValue>) -> bool {
    o is None || bytes_of(o) is Some
}

/// A path: a list of byte strings.
pub open spec fn path_ok(o: Option<BValue>) -> bool {
    match o {
        Some(BValue::List(xs)) => forall|i: int| 0 <= i < xs.len() ==> #[trigger] xs[i] is Bytes,
        _ => false,
    }
}

/// A well-formed entry of `info.files`.
pub open spec fn file_ok(f: BValue) -> bool {
    f is Dict && size_of(field(f, key_length())) is Some && path_ok(field(f, key_path()))
        && optional_bytes_ok(field(f, key_md5sum()))
}

/// The sum of the lengths of file entries.
pub open spec fn files_total(fs: Seq<BValue>) -> int
    decreases fs.len(),
{
    if fs.len() == 0 {
        0
    } else {
        files_total(fs.drop_last()) + size_of(field(fs.last(), key_length()))->0
    }
}

/// The entries of `info.files`, when it is a list.
pub open spec fn file_list(i: BValue) -> Seq<BValue> {
    match field(i, key_files()) {
        Some(BValue::List(fs)) => fs,
        _ => Seq::empty(),
    }
}

/// The total length an `info` dictionary describes.
pub open spec fn info_total(i: BValue) -> int {
    if field(i, key_length()) is Some {
        size_of(field(i, key_length()))->0 as int
    } else {
        files_total(file_list(i))
    }
}

/// How many pieces `total` bytes make in pieces of `piece_length` bytes.
pub open spec fn piece_count(total: int, piece_length: int) -> int {
    (total + piece_length - 1) / piece_length
}

/// A well-formed `info` dictionary.
pub open spec fn info_ok(i: BValue) -> bool {
    &&& i is Dict
    &&& bytes_of(field(i, key_name())) is Some
    &&& size_of(field(i, key_piece_length())) is Some
    &&& size_of(field(i, key_piece_length()))->0 > 0
    &&& bytes_of(field(i, key_pieces())) is Some
    &&& bytes_of(field(i, key_pieces()))->0.len() % 20 == 0
    &&& (field(i, key_length()) is Some <==> field(i, key_files()) is None)
    &&& (field(i, key_length()) is Some ==> size_of(field(i, key_length())) is Some)
    &&& (field(i, key_files()) is Some ==> field(i, key_files()) matches Some(BValue::List(_)))
    &&& (forall|k: int| 0 <= k < file_list(i).len() ==> file_ok(#[trigger] file_list(i)[k]))
    &&& info_total(i) <= usize::MAX
    &&& piece_count(info_total(i), size_of(field(i, key_piece_length()))->0 as int) == bytes_of(
        field(i, key_pieces()),
    )->0.len() / 20
}

/// A well-formed metainfo dictionary.
pub open spec fn metainfo_ok(v: BValue) -> bool {
    &&& v is Dict
    &&& bytes_of(field(v, key_announce())) is Some
    &&& field(v, key_info()) is Some
    &&& info_ok(field(v, key_info())->0)
    &&& (field(v, key_creation_date()) is None || field(v, key_creation_date()) matches Some(BValue::Int(_)))
    &&& optional_bytes_ok(field(v, key_comment()))
    &&& optional_bytes_ok(field(v, key_created_by()))
}

/// One file of a multi-file torrent.
#[derive(Debug)]
pub struct File {
    pub length: usize,
    pub md5sum: Option<Vec<u8>>,
    /// Path components, outermost first.
    pub path: Vec<Vec<u8>>,
}

/// The `info` dictionary. A single-file torrent has no `files` and its size
/// in `length`; a multi-file torrent has `files` and `length` 0.
#[derive(Debug)]
pub struct Info {
    pub files: Option<Vec<File>>,
    pub length: usize,
    pub name: Vec<u8>,
    pub piece_length: usize,
    pub pieces: Vec<[u8; 20]>,
}

#[derive(Debug)]
pub struct MetaInfo {
    pub info: Info,
    pub announce: Vec<u8>,
    pub creation_date: Option<i64>,
    pub comment: Option<Vec<u8>>,
    pub created_by: Option<Vec<u8>>,
}

/// An optional byte string read from an optional field.
pub open spec fn optional_bytes_match(o: Option<BValue>, m: Option<Vec<u8>>) -> bool {
    match o {
        Some(BValue::Bytes(b)) => m is Some && m->0@ == b,
        _ => m is None,
    }
}

/// `file` holds what the entry `f` says.
pub open spec fn file_describes(f: BValue, file: File) -> bool {
    &&& file.length == size_of(field(f, key_length()))->0
    &&& optional_bytes_match(field(f, key_md5sum()), file.md5sum)
    &&& file.path@.len() == field(f, key_path())->0->List_0.len()
    &&& forall|j: int|
        0 <= j < file.path@.len() ==> #[trigger] file.path@[j]@ == field(f, key_path())->0->List_0[j]->Bytes_0
}

/// `pieces` is the digest table split into 20-byte digests.
pub open spec fn digests_describe(b: Seq<u8>, pieces: Seq<[u8; 20]>) -> bool {
    &&& pieces.len() == b.len() / 20
    &&& forall|k: int| 0 <= k < pieces.len() ==> #[trigger] pieces[k]@ == b.subrange(20 * k, 20 * k + 20)
}

/// `info` holds what the dictionary `i` says.
pub open spec fn info_describes(i: BValue, info: Info) -> bool {
    &&& info.name@ == bytes_of(field(i, key_name()))->0
    &&& info.piece_length == size_of(field(i, key_piece_length()))->0
    &&& digests_describe(bytes_of(field(i, key_pieces()))->0, info.pieces@)
    &&& field(i, key_length()) is Some ==> info.files is None && info.length == size_of(field(i, key_length()))->0
    &&& field(i, key_length()) is None ==> info.files is Some && info.length == 0
        && info.files->0@.len() == file_list(i).len()
        && forall|k: int| 0 <= k < file_list(i).len() ==> file_describes(#[trigger] file_list(i)[k], info.files->0@[k])
}

/// `m` holds what the metainfo dictionary `v` says.
pub open spec fn metainfo_describes(v: BValue, m: MetaInfo) -> bool {
    &&& m.announce@ == bytes_of(field(v, key_announce()))->0
    &&& info_describes(field(v, key_info())->0, m.info)
    &&& match field(v, key_creation_date()) {
        Some(BValue::Int(n)) => m.creation_date is Some && m.creation_date->0 == n,
        _ => m.creation_date is None,
    }
    &&& optional_bytes_match(field(v, key_comment()), m.comment)
    &&& optional_bytes_match(field(v, key_created_by()), m.created_by)
}

/// The sum of the lengths of files.
pub open spec fn file_lengths(fs: Seq<File>) -> int
    decreases fs.len(),
{
    if fs.len() == 0 {
        0
    } else {
        file_lengths(fs.drop_last()) + fs.last().length
    }
}

/// The number of bytes the torrent holds.
pub open spec fn total_length(info: Info) -> int {
    match info.files {
        None => info.length as int,
        Some(fs) => file_lengths(fs@),
    }
}

/// The invariants of a parsed `Info`: positive piece length, a total that
/// fits in `usize`, and one digest per piece.
pub open spec fn info_wf(info: Info) -> bool {
    &&& info.piece_length > 0
    &&& total_length(info) <= usize::MAX
    &&& piece_count(total_length(info), info.piece_length as int) == info.pieces@.len()
}

/// Why a metainfo dictionary was refused.
#[derive(Debug, PartialEq, Eq, Structural)]
pub enum MetainfoError {
    /// A required key is missing, a value has the wrong type, or the
    /// fields contradict one another.
    MetainfoShape,
}


/// The integer held by a value.
fn extract_integer(value: &OwnedValue) -> (r: Option<i64>)
    ensures
        match value@ {
            BValue::Int(n) => r == Some(n as i64) && r->0 as int == n,
            _ => r is None,
        },
{
    if let OwnedValue::Integer(num) = value {
        Some(*num)
    } else {
        None
    }
}

/// A copy of the byte string held by a value.
fn extract_bytes(value: &OwnedValue) -> (r: Option<Vec<u8>>)
    ensures
        match value@ {
            BValue::Bytes(b) => r is Some && r->0@ == b,
            _ => r is None,
        },
{
    if let OwnedValue::Str(bytes) = value {
        Some(copy_bytes(bytes))
    } else {
        None
    }
}

/// The items of a list value.
fn extract_list(value: &OwnedValue) -> (r: Option<&Vec<OwnedValue>>)
    ensures
        match value@ {
            BValue::List(xs) => r is Some && xs.len() == r->0@.len() && forall|i: int|
                0 <= i < xs.len() ==> #[trigger] xs[i] == r->0@[i]@,
            _ => r is None,
        },
{
    if let OwnedValue::List(list) = value {
        proof {
            crate::bencode::lemma_list_view(*list);
        }
        Some(list)
    } else {
        None
    }
}

/// The byte string of an optional field.
fn optional_bytes(o: Option<&OwnedValue>) -> (r: Result<Option<Vec<u8>>, MetainfoError>)
    ensures
        match r {
            Ok(m) => optional_bytes_ok(opt_view(o)) && optional_bytes_match(opt_view(o), m),
            Err(_) => !optional_bytes_ok(opt_view(o)),
        },
{
    match o {
        None => Ok(None),
        Some(v) => match extract_bytes(v) {
            Some(b) => Ok(Some(b)),
            None => Err(MetainfoError::MetainfoShape),
        },
    }
}

/// The model of an optional value.
pub open spec fn opt_view(o: Option<&OwnedValue>) -> Option<BValue> {
    match o {
        Some(v) => Some(v@),
        None => None,
    }
}

/// A non-negative integer field that fits in `usize`.
fn read_size(o: Option<&OwnedValue>) -> (r: Option<usize>)
    ensures
        match r {
            Some(n) => size_of(opt_view(o)) == Some(n as nat),
            None => size_of(opt_view(o)) is None,
        },
{
    match o {
        Some(v) => match extract_integer(v) {
            Some(n) => if n >= 0 && (n as u64) <= (usize::MAX as u64) {
                Some(n as usize)
            } else {
                None
            },
            None => None,
        },
        None => None,
    }
}

/// Splits the `pieces` byte string into 20-byte digests; `None` when its
/// length is not a multiple of 20 or it is not a byte string.
fn extract_groups_bytes(value: &OwnedValue) -> (r: Option<Vec<[u8; 20]>>)
    ensures
        match r {
            Some(p) => bytes_of(Some(value@)) is Some && bytes_of(Some(value@))->0.len() % 20 == 0
                && digests_describe(bytes_of(Some(value@))->0, p@),
            None => bytes_of(Some(value@)) is None || bytes_of(Some(value@))->0.len() % 20 != 0,
        },
{
    if let OwnedValue::Str(bytes) = value {
        if bytes.len() % 20 != 0 {
            return None;
        }
        let mut chunks: Vec<[u8; 20]> = Vec::new();
        let blen: usize = bytes.len();
        let n: usize = bytes.len() / 20;
        let mut k: usize = 0;
        while k < n
            invariant
                n == bytes@.len() / 20,
                bytes@.len() % 20 == 0,
                k <= n,
                chunks@.len() == k,
                blen == bytes@.len(),
                forall|j: int| 0 <= j < k ==> #[trigger] chunks@[j]@ == bytes@.subrange(20 * j, 20 * j + 20),
            decreases n - k,
        {
            let mut array: [u8; 20] = [0u8; 20];
            let mut i: usize = 0;
            assert(20 * k + 20 <= bytes@.len()) by (nonlinear_arith)
                requires
                    k < n,
                    n == bytes@.len() / 20,
                    bytes@.len() % 20 == 0,
            {
                assert(bytes@.len() == 20 * n + bytes@.len() % 20);
            }
            while i < 20
                invariant
                    k < n,
                    n == bytes@.len() / 20,
                    20 * k + 20 <= bytes@.len(),
                    blen == bytes@.len(),
                    i <= 20,
                    forall|j: int| 0 <= j < i ==> array@[j] == bytes@[20 * k + j],
                decreases 20 - i,
            {
                array[i] = bytes[20 * k + i];
                i += 1;
            }
            assert(array@ =~= bytes@.subrange(20 * k, 20 * k + 20));
            chunks.push(array);
            k += 1;
        }
        Some(chunks)
    } else {
        None
    }
}

/// Reads one entry of `info.files`.
fn parse_file(f: &OwnedValue) -> (r: Result<File, MetainfoError>)
    ensures
        match r {
            Ok(file) => file_ok(f@) && file_describes(f@, file),
            Err(_) => !file_ok(f@),
        },
{
    if !matches!(f, OwnedValue::Dict(_, _)) {
        return Err(MetainfoError::MetainfoShape);
    }
    let length = match read_size(f.get(&key_length_bytes())) {
        Some(n) => n,
        None => {
            return Err(MetainfoError::MetainfoShape);
        },
    };
    let md5sum = optional_bytes(f.get(&key_md5sum_bytes()))?;
    let parts = match f.get(&key_path_bytes()) {
        Some(p) => match extract_list(p) {
            Some(xs) => xs,
            None => {
                return Err(MetainfoError::MetainfoShape);
            },
        },
        None => {
            return Err(MetainfoError::MetainfoShape);
        },
    };
    let ghost xs = field(f@, key_path())->0->List_0;
    let mut path: Vec<Vec<u8>> = Vec::new();
    let mut j: usize = 0;
    while j < parts.len()
        invariant
            field(f@, key_path()) == Some(BValue::List(xs)),
            xs.len() == parts@.len(),
            forall|i: int| 0 <= i < xs.len() ==> #[trigger] xs[i] == parts@[i]@,
            j <= parts.len(),
            path@.len() == j,
            forall|i: int| 0 <= i < j ==> xs[i] == BValue::Bytes(#[trigger] path@[i]@),
        decreases parts.len() - j,
    {
        match extract_bytes(&parts[j]) {
            Some(b) => {
                assert(xs[j as int] == parts@[j as int]@);
                path.push(b);
            },
            None => {
                assert(xs[j as int] == parts@[j as int]@);
                return Err(MetainfoError::MetainfoShape);
            },
        }
        j += 1;
    }
    assert(path_ok(field(f@, key_path()))) by {
        assert forall|i: int| 0 <= i < xs.len() implies #[trigger] xs[i] is Bytes by {
            assert(xs[i] == BValue::Bytes(path@[i]@));
        }
    }
    assert forall|i: int| 0 <= i < path@.len() implies #[trigger] path@[i]@ == xs[i]->Bytes_0 by {
        assert(xs[i] == BValue::Bytes(path@[i]@));
    }
    Ok(File { length, md5sum, path })
}

proof fn lemma_files_total_prefix(fs: Seq<BValue>, k: int)
    requires
        0 <= k <= fs.len(),
        forall|i: int| 0 <= i < fs.len() ==> file_ok(#[trigger] fs[i]),
    ensures
        files_total(fs.subrange(0, k)) <= files_total(fs),
        files_total(fs.subrange(0, k)) >= 0,
    decreases fs.len() - k,
{
    if k < fs.len() {
        lemma_files_total_prefix(fs, k + 1);
        assert(fs.subrange(0, k + 1).drop_last() =~= fs.subrange(0, k));
    } else {
        assert(fs.subrange(0, k) =~= fs);
        lemma_files_total_nonneg(fs);
    }
    lemma_files_total_nonneg(fs.subrange(0, k));
    if false {
    }
}

proof fn lemma_files_total_nonneg(fs: Seq<BValue>)
    ensures
        files_total(fs) >= 0,
    decreases fs.len(),
{
    if fs.len() > 0 {
        lemma_files_total_nonneg(fs.drop_last());
    }
}

/// Reads the entries of `info.files` and the sum of their lengths.
fn extract_list_files(list: &Vec<OwnedValue>) -> (r: Result<(Vec<File>, usize), MetainfoError>)
    ensures
        match r {
            Ok((files, total)) => (forall|k: int| 0 <= k < list@.len() ==> file_ok(#[trigger] list@[k]@))
                && files_total(crate::bencode::views(list@)) == total
                && file_lengths(files@) == total && files@.len() == list@.len()
                && forall|k: int| 0 <= k < list@.len() ==> file_describes(#[trigger] list@[k]@, files@[k]),
            Err(_) => !(forall|k: int| 0 <= k < list@.len() ==> file_ok(#[trigger] list@[k]@))
                || files_total(crate::bencode::views(list@)) > usize::MAX,
        },
{
    let ghost fs = crate::bencode::views(list@);
    let mut files: Vec<File> = Vec::new();
    let mut total: usize = 0;
    let mut k: usize = 0;
    while k < list.len()
        invariant
            fs == crate::bencode::views(list@),
            k <= list@.len(),
            files@.len() == k,
            forall|i: int| 0 <= i < k ==> file_ok(#[trigger] list@[i]@),
            forall|i: int| 0 <= i < k ==> file_describes(#[trigger] list@[i]@, files@[i]),
            total == files_total(fs.subrange(0, k as int)),
            total == file_lengths(files@),
        decreases list@.len() - k,
    {
        let file = match parse_file(&list[k]) {
            Ok(file) => file,
            Err(e) => {
                return Err(e);
            },
        };
        let ghost old_files = files@;
        let flen = file.length;
        proof {
            assert(fs.subrange(0, k + 1).drop_last() =~= fs.subrange(0, k as int));
            assert(fs.subrange(0, k + 1).last() == list@[k as int]@);
        }
        if flen > usize::MAX - total {
            proof {
                let q = fs.subrange(0, k + 1);
                assert(files_total(q) > usize::MAX);
                if forall|i: int| 0 <= i < list@.len() ==> file_ok(#[trigger] list@[i]@) {
                    assert forall|i: int| 0 <= i < fs.len() implies file_ok(#[trigger] fs[i]) by {
                        assert(fs[i] == list@[i]@);
                    }
                    lemma_files_total_prefix(fs, k + 1);
                }
            }
            return Err(MetainfoError::MetainfoShape);
        }
        total = total + flen;
        files.push(file);
        proof {
            assert(files@.drop_last() =~= old_files);
        }
        k += 1;
    }
    assert(fs.subrange(0, k as int) =~= fs);
    Ok((files, total))
}

/// Reads an `info` dictionary.
pub fn parse_info(d: &OwnedValue) -> (r: Result<Info, MetainfoError>)
    ensures
        match r {
            Ok(info) => info_ok(d@) && info_describes(d@, info) && info_wf(info) && total_length(info) == info_total(d@),
            Err(_) => !info_ok(d@),
        },
{
    if !matches!(d, OwnedValue::Dict(_, _)) {
        return Err(MetainfoError::MetainfoShape);
    }
    let name = match d.get(&key_name_bytes()) {
        Some(v) => match extract_bytes(v) {
            Some(b) => b,
            None => {
                return Err(MetainfoError::MetainfoShape);
            },
        },
        None => {
            return Err(MetainfoError::MetainfoShape);
        },
    };
    let piece_length = match read_size(d.get(&key_piece_length_bytes())) {
        Some(n) => n,
        None => {
            return Err(MetainfoError::MetainfoShape);
        },
    };
    if piece_length == 0 {
        return Err(MetainfoError::MetainfoShape);
    }
    let pieces = match d.get(&key_pieces_bytes()) {
        Some(v) => match extract_groups_bytes(v) {
            Some(p) => p,
            None => {
                return Err(MetainfoError::MetainfoShape);
            },
        },
        None => {
            return Err(MetainfoError::MetainfoShape);
        },
    };
    let length_field = d.get(&key_length_bytes());
    let files_field = d.get(&key_files_bytes());
    let (files, length, total): (Option<Vec<File>>, usize, usize) = match (length_field, files_field) {
        (Some(_), None) => match read_size(length_field) {
            Some(n) => (None, n, n),
            None => {
                return Err(MetainfoError::MetainfoShape);
            },
        },
        (None, Some(fv)) => match extract_list(fv) {
            Some(list) => {
                match extract_list_files(list) {
                    Ok((fs, t)) => {
                        proof {
                            let ws = file_list(d@);
                            assert(ws =~= crate::bencode::views(list@));
                        }
                        (Some(fs), 0, t)
                    },
                    Err(e) => {
                        proof {
                            let ws = file_list(d@);
                            assert(ws =~= crate::bencode::views(list@));
                            if forall|k: int| 0 <= k < list@.len() ==> file_ok(#[trigger] list@[k]@) {
                                assert forall|k: int| 0 <= k < ws.len() implies file_ok(#[trigger] ws[k]) by {
                                    assert(ws[k] == list@[k]@);
                                }
                            } else {
                                let k = choose|k: int| 0 <= k < list@.len() && !file_ok(#[trigger] list@[k]@);
                                assert(ws[k] == list@[k]@);
                            }
                        }
                        return Err(e);
                    },
                }
            },
            None => {
                return Err(MetainfoError::MetainfoShape);
            },
        },
        _ => {
            return Err(MetainfoError::MetainfoShape);
        },
    };
    let q = total / piece_length;
    if total % piece_length != 0 {
        assert(q < usize::MAX) by (nonlinear_arith)
            requires
                q == total / piece_length,
                total % piece_length != 0,
                piece_length > 0,
                total <= usize::MAX,
        {
            assert(piece_length >= 2);
        }
    }
    let count = if total % piece_length == 0 { q } else { q + 1 };
    proof {
        let t = total as int;
        let p = piece_length as int;
        assert(count == piece_count(t, p)) by (nonlinear_arith)
            requires
                p > 0,
                t >= 0,
                count == t / p + if t % p == 0 { 0int } else { 1int },
        {
            assert(t == p * (t / p) + t % p);
            assert((t + p - 1) == p * (t / p) + (t % p + p - 1));
            if t % p == 0 {
                assert((t + p - 1) / p == t / p);
            } else {
                assert((t + p - 1) / p == t / p + 1);
            }
        }
    }
    if count != pieces.len() {
        return Err(MetainfoError::MetainfoShape);
    }
    Ok(Info { files, length, name, piece_length, pieces })
}

/// Reads a decoded metainfo dictionary.
pub fn parse_metainfo(dict: &OwnedValue) -> (r: Result<MetaInfo, MetainfoError>)
    ensures
        match r {
            Ok(m) => metainfo_ok(dict@) && metainfo_describes(dict@, m) && info_wf(m.info),
            Err(_) => !metainfo_ok(dict@),
        },
{
    if !matches!(dict, OwnedValue::Dict(_, _)) {
        return Err(MetainfoError::MetainfoShape);
    }
    let announce = match dict.get(&key_announce_bytes()) {
        Some(v) => match extract_bytes(v) {
            Some(b) => b,
            None => {
                return Err(MetainfoError::MetainfoShape);
            },
        },
        None => {
            return Err(MetainfoError::MetainfoShape);
        },
    };
    let info = match dict.get(&key_info_bytes()) {
        Some(v) => parse_info(v)?,
        None => {
            return Err(MetainfoError::MetainfoShape);
        },
    };
    let creation_date = match dict.get(&key_creation_date_bytes()) {
        Some(v) => match extract_integer(v) {
            Some(n) => Some(n),
            None => {
                return Err(MetainfoError::MetainfoShape);
            },
        },
        None => None,
    };
    let comment = optional_bytes(dict.get(&key_comment_bytes()))?;
    let created_by = optional_bytes(dict.get(&key_created_by_bytes()))?;
    Ok(MetaInfo { info, announce, creation_date, comment, created_by })
}


proof fn lemma_file_lengths_prefix(fs: Seq<File>, k: int)
    requires
        0 <= k <= fs.len(),
    ensures
        0 <= file_lengths(fs.subrange(0, k)) <= file_lengths(fs),
    decreases fs.len() - k,
{
    if k < fs.len() {
        lemma_file_lengths_prefix(fs, k + 1);
        assert(fs.subrange(0, k + 1).drop_last() =~= fs.subrange(0, k));
    } else {
        assert(fs.subrange(0, k) =~= fs);
    }
    lemma_file_lengths_nonneg(fs.subrange(0, k));
}

proof fn lemma_file_lengths_nonneg(fs: Seq<File>)
    ensures
        file_lengths(fs) >= 0,
    decreases fs.len(),
{
    if fs.len() > 0 {
        lemma_file_lengths_nonneg(fs.drop_last());
    }
}

/// The number of bytes the torrent holds: `length` for a single file, else
/// the sum of the file lengths.
pub fn compute_length(info: &Info) -> (r: usize)
    requires
        total_length(*info) <= usize::MAX,
    ensures
        r == total_length(*info),
{
    match &info.files {
        None => info.length,
        Some(files) => {
            let mut length: usize = 0;
            let mut k: usize = 0;
            while k < files.len()
                invariant
                    info.files == Some(*files),
                    file_lengths(files@) <= usize::MAX,
                    k <= files@.len(),
                    length == file_lengths(files@.subrange(0, k as int)),
                decreases files@.len() - k,
            {
                proof {
                    assert(files@.subrange(0, k + 1).drop_last() =~= files@.subrange(0, k as int));
                    lemma_file_lengths_prefix(files@, k + 1);
                }
                length = length + files[k].length;
                k += 1;
            }
            assert(files@.subrange(0, k as int) =~= files@);
            length
        },
    }
}

/// The size of piece `i` of `n` pieces over `total` bytes: `piece_length`
/// for every piece but the last, which holds the rest.
pub open spec fn piece_size_of(total: int, piece_length: int, n: int, i: int) -> int {
    if i < n - 1 {
        piece_length
    } else {
        (total - 1) % piece_length + 1
    }
}

/// The size of piece `piece_i`.
pub fn piece_size(info: &Info, piece_i: usize) -> (r: usize)
    requires
        info_wf(*info),
        piece_i < info.pieces@.len(),
    ensures
        r == piece_size_of(total_length(*info), info.piece_length as int, info.pieces@.len() as int, piece_i as int),
{
    let n = info.pieces.len();
    if piece_i < n - 1 {
        info.piece_length
    } else {
        let total = compute_length(info);
        proof {
            let t = total as int;
            let p = info.piece_length as int;
            assert(t >= 1) by (nonlinear_arith)
                requires
                    p > 0,
                    t >= 0,
                    (t + p - 1) / p >= 1,
            {
                if t == 0 {
                    assert((p - 1) / p == 0);
                }
            }
            assert((t - 1) % p + 1 <= p) by (nonlinear_arith)
                requires
                    p > 0,
                    t >= 1,
            {
            }
        }
        (total - 1) % info.piece_length + 1
    }
}

/// The sum of the sizes of the first `k` pieces.
pub open spec fn piece_sizes_sum(total: int, piece_length: int, k: int) -> int
    decreases k,
{
    if k <= 0 {
        0
    } else {
        piece_sizes_sum(total, piece_length, k - 1) + piece_size_of(
            total,
            piece_length,
            piece_count(total, piece_length),
            k - 1,
        )
    }
}

/// The pieces of a torrent add up to its length, and every piece but the
/// last is exactly `piece_length` long.
pub proof fn lemma_piece_sizes_cover_total(total: int, piece_length: int)
    requires
        total >= 0,
        piece_length > 0,
    ensures
        piece_sizes_sum(total, piece_length, piece_count(total, piece_length)) == total,
        forall|i: int|
            0 <= i < piece_count(total, piece_length) - 1 ==> piece_size_of(
                total,
                piece_length,
                piece_count(total, piece_length),
                i,
            ) == piece_length,
{
    let n = piece_count(total, piece_length);
    if total == 0 {
        assert(n == 0) by (nonlinear_arith)
            requires
                piece_length > 0,
                n == (piece_length - 1) / piece_length,
        {
        }
    } else {
        let q = (total - 1) / piece_length;
        let rem = (total - 1) % piece_length;
        assert(n == q + 1 && total == q * piece_length + rem + 1 && 0 <= rem < piece_length && q >= 0) by (nonlinear_arith)
            requires
                piece_length > 0,
                total >= 1,
                n == (total + piece_length - 1) / piece_length,
                q == (total - 1) / piece_length,
                rem == (total - 1) % piece_length,
        {
            assert(total - 1 == piece_length * q + rem);
            assert(total + piece_length - 1 == piece_length * (q + 1) + rem);
        }
        lemma_full_pieces_sum(total, piece_length, q);
        assert(piece_sizes_sum(total, piece_length, n) == piece_sizes_sum(total, piece_length, q) + rem + 1);
        assert(q * piece_length == piece_length * q) by (nonlinear_arith);
    }
}

proof fn lemma_full_pieces_sum(total: int, piece_length: int, k: int)
    requires
        0 <= k <= piece_count(total, piece_length) - 1,
        piece_length > 0,
    ensures
        piece_sizes_sum(total, piece_length, k) == k * piece_length,
    decreases k,
{
    if k > 0 {
        lemma_full_pieces_sum(total, piece_length, k - 1);
        assert(piece_size_of(total, piece_length, piece_count(total, piece_length), k - 1) == piece_length);
        assert((k - 1) * piece_length + piece_length == k * piece_length) by (nonlinear_arith);
    } else {
        assert(k * piece_length == 0) by (nonlinear_arith) requires k == 0;
    }
}

/// The `info` sub-dictionary of a metainfo dictionary.
pub fn extract_info_field(dict: &OwnedValue) -> (r: Option<&OwnedValue>)
    ensures
        match r {
            Some(i) => field(dict@, key_info()) == Some(i@) && i@ is Dict,
            None => !(field(dict@, key_info()) matches Some(BValue::Dict(_))),
        },
{
    match dict.get(&key_info_bytes()) {
        Some(v) => if matches!(v, OwnedValue::Dict(_, _)) {
            Some(v)
        } else {
            None
        },
        None => None,
    }
}

} // verus!


