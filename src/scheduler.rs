//! The rarest-first piece scheduler and the block plan of a piece.
use vstd::prelude::*;
use crate::bencode::{bytes_less, bytes_less_exec, lemma_bytes_less_irreflexive, lemma_bytes_less_total, lemma_bytes_less_transitive};
use crate::metainfo::{Info, info_wf, total_length, piece_size, piece_size_of};
use crate::wire::{BLOCK_MAX, Bitfield, Request, holds_piece, be32};

verus! {

/// One piece still to fetch: which peers hold it, its index, size and digest.
#[derive(Debug)]
pub struct PieceFile {
    /// Indices of the peers holding the piece, ascending.
    pub peers: Vec<usize>,
    pub piece_i: usize,
    pub length: usize,
    pub hash: [u8; 20],
}

/// `peers` lists, in ascending order, exactly the peers whose bitfield marks piece `i`.
pub open spec fn holders_describe(peers: Seq<usize>, bitfields: Seq<Bitfield>, i: int) -> bool {
    &&& forall|a: int, b: int| 0 <= a < b < peers.len() ==> peers[a] < peers[b]
    &&& forall|k: usize| peers.contains(k) <==> (k < bitfields.len() && holds_piece(bitfields[k as int]@, i))
}

impl PieceFile {
    /// The descriptor of piece `piece_i`, given the bitfields of the peers.
    pub fn new(piece_i: usize, info: &Info, bitfields: &Vec<Bitfield>) -> (r: Self)
        requires
            info_wf(*info),
            piece_i < info.pieces@.len(),
        ensures
            r.piece_i == piece_i,
            r.hash == info.pieces@[piece_i as int],
            r.length == piece_size_of(total_length(*info), info.piece_length as int, info.pieces@.len() as int, piece_i as int),
            holders_describe(r.peers@, bitfields@, piece_i as int),
    {
        let mut peers: Vec<usize> = Vec::new();
        let mut k: usize = 0;
        while k < bitfields.len()
            invariant
                k <= bitfields@.len(),
                forall|a: int, b: int| 0 <= a < b < peers@.len() ==> peers@[a] < peers@[b],
                forall|a: int| 0 <= a < peers@.len() ==> peers@[a] < k,
                forall|j: usize| peers@.contains(j) ==> j < k,
                forall|j: usize| peers@.contains(j) <==> (j < k && holds_piece(bitfields@[j as int]@, piece_i as int)),
            decreases bitfields@.len() - k,
        {
            let ghost before = peers@;
            let has = bitfields[k].has_piece(piece_i);
            assert(has == holds_piece(bitfields@[k as int]@, piece_i as int));
            if has {
                peers.push(k);
                proof {
                    assert(peers@[before.len() as int] == k);
                    assert forall|j: usize| peers@.contains(j) <==> (before.contains(j) || j == k) by {
                        if before.contains(j) {
                            let w = choose|w: int| 0 <= w < before.len() && before[w] == j;
                            assert(peers@[w] == j);
                        }
                        if peers@.contains(j) && j != k {
                            let w = choose|w: int| 0 <= w < peers@.len() && peers@[w] == j;
                            assert(before[w] == j);
                        }
                    }
                    assert forall|j: usize| peers@.contains(j) <==> (j < k + 1 && holds_piece(bitfields@[j as int]@, piece_i as int)) by {
                        if j == k {
                            assert(peers@.contains(j));
                        } else if j < k {
                            assert(peers@.contains(j) <==> before.contains(j));
                        } else {
                            assert(!before.contains(j));
                        }
                    }
                }
            } else {
                assert forall|j: usize| peers@.contains(j) <==> (j < k + 1 && holds_piece(bitfields@[j as int]@, piece_i as int)) by {
                    if j == k {
                        assert(!holds_piece(bitfields@[j as int]@, piece_i as int));
                    }
                }
            }
            k += 1;
        }
        PieceFile { peers, piece_i, length: piece_size(info, piece_i), hash: info.pieces[piece_i] }
    }

    pub fn peers(&self) -> (r: &Vec<usize>)
        ensures
            r@ == self.peers@,
    {
        &self.peers
    }

    pub fn index(&self) -> (r: usize)
        ensures
            r == self.piece_i,
    {
        self.piece_i
    }

    pub fn hash(&self) -> (r: [u8; 20])
        ensures
            r == self.hash,
    {
        self.hash
    }

    pub fn length(&self) -> (r: usize)
        ensures
            r == self.length,
    {
        self.length
    }
}

/// The scheduling order: fewer holding peers first, then by digest, then by
/// length, then by index.
pub open spec fn comes_before(a: PieceFile, b: PieceFile) -> bool {
    if a.peers@.len() != b.peers@.len() {
        a.peers@.len() < b.peers@.len()
    } else if a.hash@ != b.hash@ {
        bytes_less(a.hash@, b.hash@)
    } else if a.length != b.length {
        a.length < b.length
    } else {
        a.piece_i < b.piece_i
    }
}

/// Whether `a` is scheduled before `b`.
pub fn scheduled_before(a: &PieceFile, b: &PieceFile) -> (r: bool)
    ensures
        r == comes_before(*a, *b),
{
    if a.peers.len() != b.peers.len() {
        a.peers.len() < b.peers.len()
    } else if !arrays_equal(&a.hash, &b.hash) {
        bytes_less_exec(a.hash.as_slice(), b.hash.as_slice())
    } else if a.length != b.length {
        a.length < b.length
    } else {
        a.piece_i < b.piece_i
    }
}

fn arrays_equal(a: &[u8; 20], b: &[u8; 20]) -> (r: bool)
    ensures
        r == (a@ == b@),
{
    let mut i: usize = 0;
    while i < 20
        invariant
            i <= 20,
            forall|k: int| 0 <= k < i ==> a@[k] == b@[k],
        decreases 20 - i,
    {
        if a[i] != b[i] {
            return false;
        }
        i += 1;
    }
    assert(a@ =~= b@);
    true
}

/// The pieces to fetch, and those that no connected peer holds.
#[derive(Debug)]
pub struct PieceQueue {
    pub need: Vec<PieceFile>,
    pub no_peers: Vec<PieceFile>,
}

/// The pieces that some peer holds, in order.
pub open spec fn with_holders(s: Seq<PieceFile>) -> Seq<PieceFile> {
    s.filter(|p: PieceFile| p.peers@.len() > 0)
}

/// The pieces that no peer holds, in order.
pub open spec fn without_holders(s: Seq<PieceFile>) -> Seq<PieceFile> {
    s.filter(|p: PieceFile| p.peers@.len() == 0)
}

impl PieceQueue {
    /// Puts each piece held by some peer in the queue and sets the others aside.
    pub fn new(pieces: Vec<PieceFile>) -> (r: Self)
        ensures
            r.need@ == with_holders(pieces@),
            r.no_peers@ == without_holders(pieces@),
    {
        let mut need: Vec<PieceFile> = Vec::new();
        let mut no_peers: Vec<PieceFile> = Vec::new();
        let mut rest = pieces;
        let ghost all = rest@;
        let ghost mut taken: Seq<PieceFile> = Seq::empty();
        reveal(Seq::filter);
        assert(with_holders(taken) =~= Seq::<PieceFile>::empty());
        assert(without_holders(taken) =~= Seq::<PieceFile>::empty());
        assert(all =~= taken + rest@);
        while rest.len() > 0
            invariant
                all == taken + rest@,
                need@ == with_holders(taken),
                no_peers@ == without_holders(taken),
            decreases rest@.len(),
        {
            let p = rest.remove(0);
            proof {
                let t2 = taken.push(p);
                assert(t2.drop_last() =~= taken);
                reveal(Seq::filter);
                assert(all =~= t2 + rest@);
                taken = t2;
            }
            if p.peers.len() > 0 {
                need.push(p);
            } else {
                no_peers.push(p);
            }
        }
        assert(taken + rest@ =~= taken);
        PieceQueue { need, no_peers }
    }

    /// Takes the piece that comes first in the scheduling order.
    pub fn pop(&mut self) -> (r: Option<PieceFile>)
        ensures
            old(self).need@.len() == 0 <==> r is None,
            final(self).no_peers@ == old(self).no_peers@,
            r is Some ==> exists|i: int|
                0 <= i < old(self).need@.len() && old(self).need@[i] == r->0 && final(self).need@
                    == old(self).need@.remove(i),
            r is Some ==> forall|j: int|
                0 <= j < final(self).need@.len() ==> !comes_before(#[trigger] final(self).need@[j], r->0),
    {
        if self.need.len() == 0 {
            return None;
        }
        let mut best: usize = 0;
        let mut i: usize = 1;
        while i < self.need.len()
            invariant
                self.need@ == old(self).need@,
                self.no_peers@ == old(self).no_peers@,
                1 <= i <= self.need@.len(),
                best < i,
                forall|j: int| 0 <= j < i ==> !comes_before(#[trigger] self.need@[j], self.need@[best as int]),
            decreases self.need@.len() - i,
        {
            if scheduled_before(&self.need[i], &self.need[best]) {
                proof {
                    assert forall|j: int| 0 <= j < i + 1 implies !comes_before(#[trigger] self.need@[j], self.need@[i as int]) by {
                        if j < i {
                            lemma_order_transitive_neg(self.need@[j], self.need@[best as int], self.need@[i as int]);
                        } else {
                            lemma_order_irreflexive(self.need@[i as int]);
                        }
                    }
                }
                best = i;
            }
            i += 1;
        }
        let ghost before = self.need@;
        let p = self.need.remove(best);
        proof {
            assert forall|j: int| 0 <= j < self.need@.len() implies !comes_before(#[trigger] self.need@[j], p) by {
                if j < best {
                    assert(self.need@[j] == before[j]);
                } else {
                    assert(self.need@[j] == before[j + 1]);
                }
            }
        }
        Some(p)
    }
}

proof fn lemma_order_irreflexive(a: PieceFile)
    ensures
        !comes_before(a, a),
{
    lemma_bytes_less_irreflexive(a.hash@);
}

/// If `x` is not before `y` and `z` is before `y`, then `x` is not before `z`.
proof fn lemma_order_transitive_neg(x: PieceFile, y: PieceFile, z: PieceFile)
    requires
        !comes_before(x, y),
        comes_before(z, y),
    ensures
        !comes_before(x, z),
{
    lemma_bytes_less_total(x.hash@, y.hash@);
    lemma_bytes_less_total(x.hash@, z.hash@);
    lemma_bytes_less_total(z.hash@, y.hash@);
    if comes_before(x, z) {
        if bytes_less(x.hash@, z.hash@) && bytes_less(z.hash@, y.hash@) {
            lemma_bytes_less_transitive(x.hash@, z.hash@, y.hash@);
        }
    }
}


/// How many blocks a piece of `size` bytes takes.
pub open spec fn block_count(size: int) -> int {
    (size + BLOCK_MAX - 1) / (BLOCK_MAX as int)
}

/// The size of block `b` of a piece of `size` bytes: `BLOCK_MAX` but for
/// the last block, which holds the rest.
pub open spec fn block_size_of(size: int, b: int) -> int {
    if b < block_count(size) - 1 {
        BLOCK_MAX as int
    } else {
        (size - 1) % (BLOCK_MAX as int) + 1
    }
}

pub fn nblocks(piece_size: usize) -> (r: usize)
    requires
        piece_size + BLOCK_MAX - 1 <= usize::MAX,
    ensures
        r == block_count(piece_size as int),
{
    (piece_size + (BLOCK_MAX - 1)) / BLOCK_MAX
}

pub fn block_size(piece_size: usize, block: usize) -> (r: usize)
    requires
        piece_size + BLOCK_MAX - 1 <= usize::MAX,
        block < block_count(piece_size as int),
    ensures
        r == block_size_of(piece_size as int, block as int),
        0 < r <= BLOCK_MAX,
{
    let n = nblocks(piece_size);
    if block < n - 1 {
        BLOCK_MAX
    } else {
        assert(piece_size >= 1);
        (piece_size - 1) % BLOCK_MAX + 1
    }
}

/// The request for block `block` of piece `piece_i`.
pub fn block_request(piece_i: usize, piece_size: usize, block: usize) -> (r: Request)
    requires
        piece_i <= u32::MAX,
        piece_size <= u32::MAX,
        piece_size + BLOCK_MAX - 1 <= usize::MAX,
        block < block_count(piece_size as int),
    ensures
        be32(r.index@) == piece_i,
        be32(r.begin@) == block * BLOCK_MAX,
        be32(r.length@) == block_size_of(piece_size as int, block as int),
{
    let size = block_size(piece_size, block);
    assert(block * BLOCK_MAX < piece_size) by (nonlinear_arith)
        requires
            block < (piece_size + BLOCK_MAX - 1) / (BLOCK_MAX as int),
            BLOCK_MAX == 16384,
    {
    }
    Request::new(piece_i as u32, (block * BLOCK_MAX) as u32, size as u32)
}

} // verus!

