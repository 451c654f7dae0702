//! Assembling delivered blocks into pieces, pieces into the torrent's bytes,
//! and those bytes into its files.
use vstd::prelude::*;
use crate::bencode::copy_bytes;
use crate::metainfo::{File, Info, file_lengths, total_length};

verus! {

/// `buf` with the bytes from `begin` on replaced by `data`.
pub open spec fn write_range(buf: Seq<u8>, begin: int, data: Seq<u8>) -> Seq<u8> {
    buf.subrange(0, begin) + data + buf.subrange(begin + data.len(), buf.len() as int)
}

/// Copies `data` into `buf` at `begin`.
pub fn write_block(buf: &mut Vec<u8>, begin: usize, data: &[u8])
    requires
        begin + data@.len() <= old(buf)@.len(),
    ensures
        final(buf)@ == write_range(old(buf)@, begin as int, data@),
{
    let mut i: usize = 0;
    let blen = buf.len();
    while i < data.len()
        invariant
            blen == buf@.len(),
            begin + data@.len() <= buf@.len(),
            i <= data@.len(),
            buf@.len() == old(buf)@.len(),
            buf@ == write_range(old(buf)@, begin as int, data@.subrange(0, i as int)),
        decreases data@.len() - i,
    {
        buf[begin + i] = data[i];
        i += 1;
        assert(buf@ =~= write_range(old(buf)@, begin as int, data@.subrange(0, i as int)));
    }
    assert(data@.subrange(0, i as int) =~= data@);
}

/// Blocks written to disjoint ranges give the same bytes in either order, so
/// the assembled piece does not depend on which peer delivered first.
pub proof fn lemma_disjoint_writes_commute(buf: Seq<u8>, b1: int, d1: Seq<u8>, b2: int, d2: Seq<u8>)
    requires
        0 <= b1,
        0 <= b2,
        b1 + d1.len() <= buf.len(),
        b2 + d2.len() <= buf.len(),
        b1 + d1.len() <= b2 || b2 + d2.len() <= b1,
    ensures
        write_range(write_range(buf, b1, d1), b2, d2) == write_range(write_range(buf, b2, d2), b1, d1),
{
    let x = write_range(write_range(buf, b1, d1), b2, d2);
    let y = write_range(write_range(buf, b2, d2), b1, d1);
    assert(x.len() == y.len());
    assert forall|k: int| 0 <= k < x.len() implies x[k] == y[k] by {
        if b1 <= k < b1 + d1.len() {
            assert(x[k] == d1[k - b1]);
            assert(y[k] == d1[k - b1]);
        } else if b2 <= k < b2 + d2.len() {
            assert(x[k] == d2[k - b2]);
            assert(y[k] == d2[k - b2]);
        } else {
            assert(x[k] == buf[k]);
            assert(y[k] == buf[k]);
        }
    }
    assert(x =~= y);
}

/// The buffer of one piece while its blocks arrive.
#[derive(Debug)]
pub struct PieceAssembly {
    pub buffer: Vec<u8>,
    pub received: usize,
}

impl PieceAssembly {
    /// An empty buffer for a piece of `size` bytes.
    pub fn new(size: usize) -> (r: PieceAssembly)
        ensures
            r.buffer@ == Seq::new(size as nat, |i: int| 0u8),
            r.received == 0,
    {
        let mut buffer: Vec<u8> = Vec::new();
        let mut i: usize = 0;
        while i < size
            invariant
                i <= size,
                buffer@ == Seq::new(i as nat, |k: int| 0u8),
            decreases size - i,
        {
            buffer.push(0u8);
            i += 1;
            assert(buffer@ =~= Seq::new(i as nat, |k: int| 0u8));
        }
        PieceAssembly { buffer, received: 0 }
    }

    /// Stores a delivered block at `begin` and counts its bytes. Returns
    /// whether the piece is complete; `None` when the block falls outside the
    /// piece.
    pub fn accept(&mut self, begin: usize, block: &[u8]) -> (r: Option<bool>)
        ensures
            (begin + block@.len() <= old(self).buffer@.len() && old(self).received + block@.len() <= usize::MAX) ==> (
            r == Some(final(self).received == final(self).buffer@.len()) && final(self).buffer@ == write_range(
                old(self).buffer@,
                begin as int,
                block@,
            ) && final(self).received == old(self).received + block@.len()),
            !(begin + block@.len() <= old(self).buffer@.len() && old(self).received + block@.len() <= usize::MAX) ==> (
            r is None && *final(self) == *old(self)),
    {
        if begin > self.buffer.len() || block.len() > self.buffer.len() - begin || block.len() > usize::MAX
            - self.received {
            return None;
        }
        write_block(&mut self.buffer, begin, block);
        self.received = self.received + block.len();
        Some(self.received == self.buffer.len())
    }
}

/// Copies a verified piece into the torrent's bytes at `piece_i * piece_length`.
pub fn place_piece(all: &mut Vec<u8>, piece_i: usize, piece_length: usize, data: &[u8]) -> (r: bool)
    ensures
        r == (piece_i * piece_length + data@.len() <= old(all)@.len()),
        r ==> final(all)@ == write_range(old(all)@, piece_i * piece_length, data@),
        !r ==> final(all)@ == old(all)@,
{
    if piece_length > 0 && piece_i > all.len() / piece_length {
        proof {
            assert(piece_i * piece_length > all@.len()) by (nonlinear_arith)
                requires
                    piece_length > 0,
                    piece_i > all@.len() as int / piece_length as int,
            {
                assert(all@.len() < piece_length * (all@.len() as int / piece_length as int + 1));
            }
        }
        return false;
    }
    proof {
        if piece_length > 0 {
            assert(piece_i * piece_length <= all@.len()) by (nonlinear_arith)
                requires
                    piece_length > 0,
                    piece_i <= all@.len() as int / piece_length as int,
            {
                assert(piece_i * piece_length <= (all@.len() as int / piece_length as int) * piece_length);
                assert((all@.len() as int / piece_length as int) * piece_length <= all@.len());
            }
        }
    }
    let offset = piece_i * piece_length;
    if data.len() > all.len() - offset {
        return false;
    }
    write_block(all, offset, data);
    true
}

/// Where file `k` starts: the lengths of the files before it.
pub open spec fn file_offset(files: Seq<File>, k: int) -> int {
    file_lengths(files.subrange(0, k))
}

/// The bytes of each file, cut from the torrent's bytes in list order.
pub open spec fn file_slices(files: Seq<File>, bytes: Seq<u8>) -> Seq<Seq<u8>> {
    Seq::new(
        files.len(),
        |k: int| bytes.subrange(file_offset(files, k), file_offset(files, k) + files[k].length),
    )
}

proof fn lemma_file_offset_step(files: Seq<File>, k: int)
    requires
        0 <= k < files.len(),
    ensures
        file_offset(files, k + 1) == file_offset(files, k) + files[k].length,
        file_offset(files, k) >= 0,
    decreases k,
{
    assert(files.subrange(0, k + 1).drop_last() =~= files.subrange(0, k));
    if k > 0 {
        lemma_file_offset_step(files, k - 1);
    } else {
        assert(files.subrange(0, 0).len() == 0);
    }
}

/// The files' bytes, joined in list order, are the torrent's bytes.
pub proof fn lemma_files_concatenate(files: Seq<File>, bytes: Seq<u8>)
    requires
        file_lengths(files) == bytes.len(),
    ensures
        file_slices(files, bytes).flatten() == bytes,
{
    let sl = file_slices(files, bytes);
    let n = files.len() as int;
    assert forall|k: int| 0 <= k <= n implies #[trigger] sl.subrange(0, k).flatten() == bytes.subrange(0, file_offset(files, k)) && file_offset(files, k) <= bytes.len() by {
        lemma_prefix_flatten(files, bytes, k);
    }
    assert(files.subrange(0, n) =~= files);
    assert(sl.subrange(0, n) =~= sl);
    assert(bytes.subrange(0, bytes.len() as int) =~= bytes);
}

proof fn lemma_offsets_bounded(files: Seq<File>, k: int)
    requires
        0 <= k <= files.len(),
    ensures
        0 <= file_offset(files, k) <= file_lengths(files),
    decreases files.len() - k,
{
    if k < files.len() {
        lemma_offsets_bounded(files, k + 1);
        lemma_file_offset_step(files, k);
    } else {
        assert(files.subrange(0, k) =~= files);
        if k == 0 {
            assert(files.subrange(0, 0).len() == 0);
        } else {
            lemma_file_offset_step(files, k - 1);
        }
    }
}

proof fn lemma_prefix_flatten(files: Seq<File>, bytes: Seq<u8>, k: int)
    requires
        file_lengths(files) == bytes.len(),
        0 <= k <= files.len(),
    ensures
        file_slices(files, bytes).subrange(0, k).flatten() == bytes.subrange(0, file_offset(files, k)),
        file_offset(files, k) <= bytes.len(),
    decreases k,
{
    let sl = file_slices(files, bytes);
    lemma_offsets_bounded(files, k);
    if k == 0 {
        assert(files.subrange(0, 0).len() == 0);
        assert(sl.subrange(0, 0) =~= Seq::<Seq<u8>>::empty());
        assert(bytes.subrange(0, 0) =~= Seq::<u8>::empty());
    } else {
        lemma_prefix_flatten(files, bytes, k - 1);
        lemma_file_offset_step(files, k - 1);
        assert(sl.subrange(0, k) =~= sl.subrange(0, k - 1).push(sl[k - 1]));
        sl.subrange(0, k - 1).lemma_flatten_push(sl[k - 1]);
        assert(bytes.subrange(0, file_offset(files, k)) =~= bytes.subrange(0, file_offset(files, k - 1))
            + bytes.subrange(file_offset(files, k - 1), file_offset(files, k)));
    }
}

/// A finished download: the torrent's bytes and the files they make.
#[derive(Debug)]
pub struct Downloaded {
    pub bytes: Vec<u8>,
    pub files: Vec<File>,
}

/// The bytes of one file of a download.
#[derive(Debug)]
pub struct DownloadedFile {
    /// Position of the file in the list.
    pub index: usize,
    pub bytes: Vec<u8>,
}

impl DownloadedFile {
    pub fn bytes(&self) -> (r: &[u8])
        ensures
            r@ == self.bytes@,
    {
        self.bytes.as_slice()
    }
}

impl Downloaded {
    /// The download of a torrent: a single-file torrent makes one file named
    /// after the torrent and holding `length` bytes; a multi-file torrent its
    /// files in list order.
    pub fn new(info: Info, bytes: Vec<u8>) -> (r: Downloaded)
        ensures
            r.bytes@ == bytes@,
            info.files is None ==> r.files@.len() == 1 && r.files@[0].length == info.length
                && r.files@[0].path@.len() == 1 && r.files@[0].path@[0]@ == info.name@,
            info.files is Some ==> r.files@ == info.files->0@,
            file_lengths(r.files@) == total_length(info),
    {
        let files = match info.files {
            Some(fs) => fs,
            None => {
                let mut path: Vec<Vec<u8>> = Vec::new();
                path.push(copy_bytes(&info.name));
                let mut fs: Vec<File> = Vec::new();
                fs.push(File { length: info.length, md5sum: None, path });
                proof {
                    assert(fs@.drop_last() =~= Seq::<File>::empty());
                    assert(file_lengths(fs@.drop_last()) == 0);
                    assert(fs@.last().length == info.length);
                    assert(file_lengths(fs@) == file_lengths(fs@.drop_last()) + fs@.last().length);
                }
                fs
            },
        };
        Downloaded { bytes, files }
    }

    /// The bytes of file `k`.
    pub fn file(&self, k: usize, offset: usize) -> (r: DownloadedFile)
        requires
            k < self.files@.len(),
            offset == file_offset(self.files@, k as int),
            file_lengths(self.files@) <= self.bytes@.len(),
        ensures
            r.index == k,
            r.bytes@ == file_slices(self.files@, self.bytes@)[k as int],
    {
        proof {
            lemma_offsets_bounded(self.files@, k + 1);
            lemma_file_offset_step(self.files@, k as int);
        }
        let len = self.files[k].length;
        let mut out: Vec<u8> = Vec::new();
        let mut i: usize = 0;
        let blen = self.bytes.len();
        while i < len
            invariant
                blen == self.bytes@.len(),
                offset + len <= self.bytes@.len(),
                i <= len,
                out@ == self.bytes@.subrange(offset as int, offset + i),
            decreases len - i,
        {
            out.push(self.bytes[offset + i]);
            i += 1;
            assert(out@ =~= self.bytes@.subrange(offset as int, offset + i));
        }
        DownloadedFile { index: k, bytes: out }
    }
}

/// Walks the files of a download in list order.
#[derive(Debug)]
pub struct DownloadedIter {
    pub offset: usize,
    pub next_file: usize,
}

impl DownloadedIter {
    pub fn new(d: &Downloaded) -> (r: DownloadedIter)
        ensures
            r.offset == 0,
            r.next_file == 0,
    {
        DownloadedIter { offset: 0, next_file: 0 }
    }

    /// The next file, or `None` after the last.
    pub fn next(&mut self, d: &Downloaded) -> (r: Option<DownloadedFile>)
        requires
            file_lengths(d.files@) <= d.bytes@.len(),
            old(self).next_file <= d.files@.len(),
            old(self).offset == file_offset(d.files@, old(self).next_file as int),
        ensures
            old(self).next_file == d.files@.len() ==> r is None && *final(self) == *old(self),
            old(self).next_file < d.files@.len() ==> r is Some && r->0.index == old(self).next_file
                && r->0.bytes@ == file_slices(d.files@, d.bytes@)[old(self).next_file as int]
                && final(self).next_file == old(self).next_file + 1
                && final(self).offset == file_offset(d.files@, final(self).next_file as int),
    {
        if self.next_file >= d.files.len() {
            return None;
        }
        let k = self.next_file;
        proof {
            lemma_offsets_bounded(d.files@, k + 1);
            lemma_file_offset_step(d.files@, k as int);
        }
        let f = d.file(k, self.offset);
        let blen = d.bytes.len();
        self.offset = self.offset + d.files[k].length;
        self.next_file = k + 1;
        Some(f)
    }
}

} // verus!
