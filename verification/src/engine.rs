//! The download engine's bookkeeping: block partitioning, piece
//! reassembly, hash verification, and the assignment of pieces to
//! sessions.  The sockets live outside; every decision here is pure.

use vstd::prelude::*;

use crate::torrent::{num_pieces_of, sha1_of};
use crate::utils::{bytes_eq, push_all};

verus! {

/// The largest block a request may ask for.
pub const BLOCK_SIZE: u32 = 16384;

/// How many blocks a piece of `piece_len` bytes has: the rounded-up
/// quotient by the block size.
pub open spec fn num_blocks_of(piece_len: int) -> int {
    piece_len / 16384 + if piece_len % 16384 == 0 {
        0int
    } else {
        1int
    }
}

/// The length of block `k` of a piece: the block size, except the
/// last block takes what is left.
pub open spec fn spec_block_len(piece_len: int, k: int) -> int {
    if piece_len - 16384 * k >= 16384 {
        16384
    } else {
        piece_len - 16384 * k
    }
}

/// Partitions a piece into its `(begin, length)` blocks, in order.
pub fn block_layout(piece_len: u32) -> (r: Vec<(u32, u32)>)
    ensures
        r@.len() == num_blocks_of(piece_len as int),
        forall|k: int|
            0 <= k < r@.len() ==> (#[trigger] r@[k]).0 == 16384 * k && r@[k].1 == spec_block_len(
                piece_len as int,
                k,
            ),
{
    let mut out: Vec<(u32, u32)> = Vec::new();
    let mut begin: u32 = 0;
    let mut left: u32 = piece_len;
    proof {
        assert(piece_len as int == 16384 * ((piece_len as int) / 16384) + (piece_len as int)
            % 16384);
    }
    while left > 0
        invariant
            begin <= piece_len,
            left == piece_len - begin,
            left > 0 ==> begin as int == 16384 * out@.len(),
            left == 0 ==> out@.len() == num_blocks_of(piece_len as int),
            out@.len() <= num_blocks_of(piece_len as int),
            forall|k: int|
                0 <= k < out@.len() ==> (#[trigger] out@[k]).0 == 16384 * k && out@[k].1
                    == spec_block_len(piece_len as int, k),
        decreases left,
    {
        let l: u32 = if left >= 16384 {
            16384
        } else {
            left
        };
        out.push((begin, l));
        proof {
            assert(piece_len as int == 16384 * ((piece_len as int) / 16384) + (piece_len as int)
                % 16384);
            if left == l {
                if l == 16384 {
                    vstd::arithmetic::div_mod::lemma_fundamental_div_mod_converse(
                        piece_len as int,
                        16384,
                        out@.len() as int,
                        0,
                    );
                } else {
                    vstd::arithmetic::div_mod::lemma_fundamental_div_mod_converse(
                        piece_len as int,
                        16384,
                        out@.len() - 1,
                        l as int,
                    );
                }
            }
        }
        begin = begin + l;
        left = left - l;
    }
    proof {
        assert(piece_len as int == 16384 * ((piece_len as int) / 16384) + (piece_len as int)
            % 16384);
    }
    out
}

/// The size of piece `index`: the piece length, except the last
/// piece takes what is left of the file.
pub fn piece_size(index: usize, total_len: usize, piece_len: usize) -> (r: usize)
    requires
        piece_len >= 1,
        index < num_pieces_of(total_len as int, piece_len as int),
    ensures
        r as int == if total_len - piece_len * index >= piece_len {
            piece_len as int
        } else {
            total_len - piece_len * index
        },
        1 <= r <= piece_len,
{
    proof {
        assert(index as int <= 0xFFFFFFFFFFFFFFFFint);
        assert(piece_len as int <= 0xFFFFFFFFFFFFFFFFint);
        assert((index as int) * (piece_len as int) < u128::MAX as int) by (nonlinear_arith)
            requires
                0 <= index as int <= 0xFFFFFFFFFFFFFFFFint,
                0 <= piece_len as int <= 0xFFFFFFFFFFFFFFFFint,
        ;
    }
    let start: u128 = (index as u128) * (piece_len as u128);
    let total: u128 = total_len as u128;
    proof {
        vstd::arithmetic::div_mod::lemma_fundamental_div_mod(total_len as int, piece_len as int);
        vstd::arithmetic::mul::lemma_mul_inequality(
            index as int,
            total_len as int / piece_len as int,
            piece_len as int,
        );
        vstd::arithmetic::mul::lemma_mul_is_commutative(index as int, piece_len as int);
        vstd::arithmetic::mul::lemma_mul_is_commutative(
            total_len as int / piece_len as int,
            piece_len as int,
        );
        if total_len as int % piece_len as int == 0 {
            assert(index as int <= total_len as int / piece_len as int - 1);
            vstd::arithmetic::mul::lemma_mul_inequality(
                index as int + 1,
                total_len as int / piece_len as int,
                piece_len as int,
            );
            vstd::arithmetic::mul::lemma_mul_is_distributive_add_other_way(
                piece_len as int,
                index as int,
                1,
            );
        }
    }
    if total - start >= piece_len as u128 {
        piece_len
    } else {
        (total - start) as usize
    }
}

/// A piece being reassembled from its blocks.
pub struct PieceBuffer {
    /// The piece's size in bytes.
    pub piece_len: u32,
    /// One slot per block, filled as blocks arrive.
    pub blocks: Vec<Option<Vec<u8>>>,
}

/// A well-formed buffer: one slot per block, and every filled slot
/// holds exactly its block's bytes count.
pub open spec fn buf_wf(b: PieceBuffer) -> bool {
    &&& b.blocks@.len() == num_blocks_of(b.piece_len as int)
    &&& forall|k: int|
        0 <= k < b.blocks@.len() ==> match #[trigger] b.blocks@[k] {
            Option::Some(d) => d@.len() == spec_block_len(b.piece_len as int, k),
            Option::None => true,
        }
}

/// The concatenation of the blocks from slot `k` on.
pub open spec fn assembled(blocks: Seq<Option<Vec<u8>>>, k: int) -> Seq<u8>
    decreases blocks.len() - k,
{
    if k < 0 || k >= blocks.len() {
        Seq::empty()
    } else {
        blocks[k]->Some_0@ + assembled(blocks, k + 1)
    }
}

impl PieceBuffer {
    /// An empty buffer for a piece of `piece_len` bytes.
    pub fn new(piece_len: u32) -> (r: Self)
        ensures
            buf_wf(r),
            r.piece_len == piece_len,
            forall|k: int| 0 <= k < r.blocks@.len() ==> (#[trigger] r.blocks@[k]) is None,
    {
        let layout = block_layout(piece_len);
        let n = layout.len();
        let mut blocks: Vec<Option<Vec<u8>>> = Vec::new();
        let mut i: usize = 0;
        while i < n
            invariant
                0 <= i <= n,
                blocks@.len() == i,
                forall|k: int| 0 <= k < i ==> (#[trigger] blocks@[k]) is None,
            decreases n - i,
        {
            blocks.push(None);
            i = i + 1;
        }
        PieceBuffer { piece_len, blocks }
    }

    /// Stores an arriving block.  Accepts exactly a block-aligned
    /// `begin` within the piece whose data is its block's size; an
    /// accepted block fills its slot, anything else leaves the
    /// buffer alone.
    pub fn add_block(&mut self, begin: u32, data: Vec<u8>) -> (r: bool)
        requires
            buf_wf(*old(self)),
        ensures
            buf_wf(*final(self)),
            final(self).piece_len == old(self).piece_len,
            r == (begin % 16384 == 0 && (begin as int) / 16384 < old(self).blocks@.len()
                && data@.len() == spec_block_len(old(self).piece_len as int, begin as int / 16384)),
            r ==> final(self).blocks@ == old(self).blocks@.update(
                begin as int / 16384,
                Option::Some(data),
            ),
            !r ==> final(self).blocks@ == old(self).blocks@,
    {
        if begin % 16384 != 0 {
            return false;
        }
        let idx = (begin / 16384) as usize;
        proof {
            assert(begin as int / 16384 == (begin / 16384) as int);
        }
        if idx >= self.blocks.len() {
            return false;
        }
        let expect = {
            let pl = self.piece_len;
            let off: u32 = begin;
            if pl - off >= 16384 {
                16384
            } else {
                pl - off
            }
        };
        proof {
            assert(begin as int == 16384 * (begin as int / 16384)) by {
                assert(begin as int == 16384 * (begin as int / 16384) + begin as int % 16384);
            }
            assert(begin <= self.piece_len) by {
                lemma_block_start_in_piece(self.piece_len as int, begin as int / 16384);
            }
        }
        if data.len() != expect as usize {
            return false;
        }
        self.blocks[idx] = Some(data);
        true
    }

    /// Every slot is filled.
    pub fn complete(&self) -> (r: bool)
        ensures
            r == (forall|k: int| 0 <= k < self.blocks@.len() ==> (#[trigger] self.blocks@[k])
                is Some),
    {
        let n = self.blocks.len();
        let mut i: usize = 0;
        while i < n
            invariant
                0 <= i <= n,
                n == self.blocks@.len(),
                forall|k: int| 0 <= k < i ==> (#[trigger] self.blocks@[k]) is Some,
            decreases n - i,
        {
            match &self.blocks[i] {
                Some(_) => {},
                None => {
                    return false;
                },
            }
            i = i + 1;
        }
        true
    }

    /// Concatenates the blocks in order; with every slot filled the
    /// result is the whole piece.
    pub fn assemble(&self) -> (r: Vec<u8>)
        requires
            buf_wf(*self),
            forall|k: int| 0 <= k < self.blocks@.len() ==> (#[trigger] self.blocks@[k]) is Some,
        ensures
            r@ == assembled(self.blocks@, 0),
            r@.len() == self.piece_len,
    {
        let n = self.blocks.len();
        let mut out: Vec<u8> = Vec::new();
        let mut i: usize = 0;
        proof {
            lemma_assembled_len(self.blocks@, self.piece_len as int, 0);
        }
        while i < n
            invariant
                0 <= i <= n,
                n == self.blocks@.len(),
                buf_wf(*self),
                forall|k: int| 0 <= k < n ==> (#[trigger] self.blocks@[k]) is Some,
                out@ + assembled(self.blocks@, i as int) == assembled(self.blocks@, 0),
            decreases n - i,
        {
            match &self.blocks[i] {
                Some(d) => {
                    push_all(&mut out, d.as_slice());
                    proof {
                        assert(assembled(self.blocks@, i as int) == self.blocks@[i as int]->Some_0@
                            + assembled(self.blocks@, i as int + 1));
                        assert((out@ + self.blocks@[i as int]->Some_0@) + assembled(
                            self.blocks@,
                            i as int + 1,
                        ) =~= out@ + assembled(self.blocks@, i as int));
                    }
                },
                None => {
                    proof {
                        assert(self.blocks@[i as int] is Some);
                    }
                    assert(false);
                },
            }
            i = i + 1;
        }
        proof {
            assert(assembled(self.blocks@, n as int) =~= Seq::<u8>::empty());
            assert(out@ + assembled(self.blocks@, n as int) =~= out@);
        }
        out
    }
}

/// A block's start lies inside the piece.
proof fn lemma_block_start_in_piece(piece_len: int, k: int)
    requires
        0 <= k < num_blocks_of(piece_len),
    ensures
        16384 * k <= piece_len,
{
    assert(piece_len == 16384 * (piece_len / 16384) + piece_len % 16384);
    assert(k <= piece_len / 16384);
}

/// The assembled blocks from slot `k` on hold exactly the bytes the
/// piece has past the start of block `k`.
proof fn lemma_assembled_len(blocks: Seq<Option<Vec<u8>>>, piece_len: int, k: int)
    requires
        0 <= k <= blocks.len(),
        blocks.len() == num_blocks_of(piece_len),
        forall|m: int|
            0 <= m < blocks.len() ==> match #[trigger] blocks[m] {
                Option::Some(d) => d@.len() == spec_block_len(piece_len, m),
                Option::None => false,
            },
    ensures
        assembled(blocks, k).len() == if k < blocks.len() {
            piece_len - 16384 * k
        } else {
            0int
        },
    decreases blocks.len() - k,
{
    assert(piece_len == 16384 * (piece_len / 16384) + piece_len % 16384);
    if k < blocks.len() {
        lemma_assembled_len(blocks, piece_len, k + 1);
    }
}

/// The SHA-1 of the data equals the expected 20-byte hash.
pub fn verify_piece(data: &Vec<u8>, expected: &Vec<u8>) -> (r: bool)
    ensures
        r == (sha1_of(data@) == expected@),
{
    let digest = crate::torrent::sha1_bytes(data);
    bytes_eq(&digest, expected)
}

/// Where one piece stands in the download.
#[derive(Debug, Clone, Copy, PartialEq, Eq, Structural)]
pub enum PieceStatus {
    /// Not assigned to any session.
    Pending,
    /// Assigned to the session with this number.
    InFlight(usize),
    /// Downloaded and verified.
    Done,
}

/// The engine's view of the whole download: one status per piece.
/// No two sessions ever hold the same piece, because each piece
/// records the one session it is assigned to.
pub struct DownloadState {
    /// One status per piece.
    pub statuses: Vec<PieceStatus>,
}

impl DownloadState {
    /// A fresh download of `n` pieces, all pending.
    pub fn new(n: usize) -> (r: Self)
        ensures
            r.statuses@.len() == n,
            forall|k: int| 0 <= k < n ==> (#[trigger] r.statuses@[k]) is Pending,
    {
        let mut statuses: Vec<PieceStatus> = Vec::new();
        let mut i: usize = 0;
        while i < n
            invariant
                0 <= i <= n,
                statuses@.len() == i,
                forall|k: int| 0 <= k < i ==> (#[trigger] statuses@[k]) is Pending,
            decreases n - i,
        {
            statuses.push(PieceStatus::Pending);
            i = i + 1;
        }
        DownloadState { statuses }
    }

    /// Assigns the first pending piece to `session`, round-robin
    /// style: yields its index, or nothing when no piece is pending.
    pub fn assign_next(&mut self, session: usize) -> (r: Option<usize>)
        ensures
            match r {
                Some(idx) => {
                    &&& 0 <= idx < old(self).statuses@.len()
                    &&& old(self).statuses@[idx as int] is Pending
                    &&& (forall|k: int|
                        0 <= k < idx ==> !((#[trigger] old(self).statuses@[k]) is Pending))
                    &&& final(self).statuses@ == old(self).statuses@.update(
                        idx as int,
                        PieceStatus::InFlight(session),
                    )
                },
                None => {
                    &&& final(self).statuses@ == old(self).statuses@
                    &&& forall|k: int|
                        0 <= k < old(self).statuses@.len() ==> !((
                        #[trigger] old(self).statuses@[k]) is Pending)
                },
            },
    {
        let n = self.statuses.len();
        let mut i: usize = 0;
        while i < n
            invariant
                0 <= i <= n,
                n == self.statuses@.len(),
                self.statuses@ == old(self).statuses@,
                forall|k: int| 0 <= k < i ==> !((#[trigger] self.statuses@[k]) is Pending),
            decreases n - i,
        {
            let p = self.statuses[i];
            match p {
                PieceStatus::Pending => {
                    self.statuses[i] = PieceStatus::InFlight(session);
                    return Some(i);
                },
                _ => {},
            }
            i = i + 1;
        }
        None
    }

    /// Records a verified piece.
    pub fn mark_done(&mut self, idx: usize)
        requires
            idx < old(self).statuses@.len(),
        ensures
            final(self).statuses@ == old(self).statuses@.update(idx as int, PieceStatus::Done),
    {
        self.statuses[idx] = PieceStatus::Done;
    }

    /// Returns a failed session's pieces to the pending pool; every
    /// other piece keeps its status.
    pub fn release_session(&mut self, session: usize)
        ensures
            final(self).statuses@.len() == old(self).statuses@.len(),
            forall|k: int|
                0 <= k < old(self).statuses@.len() ==> (#[trigger] final(self).statuses@[k]) == (
                if old(self).statuses@[k] == PieceStatus::InFlight(session) {
                    PieceStatus::Pending
                } else {
                    old(self).statuses@[k]
                }),
    {
        let n = self.statuses.len();
        let mut i: usize = 0;
        while i < n
            invariant
                0 <= i <= n,
                n == self.statuses@.len() == old(self).statuses@.len(),
                forall|k: int| i <= k < n ==> self.statuses@[k] == old(self).statuses@[k],
                forall|k: int|
                    0 <= k < i ==> (#[trigger] self.statuses@[k]) == (
                    if old(self).statuses@[k] == PieceStatus::InFlight(session) {
                        PieceStatus::Pending
                    } else {
                        old(self).statuses@[k]
                    }),
            decreases n - i,
        {
            let p = self.statuses[i];
            if p == PieceStatus::InFlight(session) {
                self.statuses[i] = PieceStatus::Pending;
            }
            i = i + 1;
        }
    }

    /// Every piece is downloaded and verified.
    pub fn all_done(&self) -> (r: bool)
        ensures
            r == (forall|k: int| 0 <= k < self.statuses@.len() ==> (#[trigger] self.statuses@[k])
                is Done),
    {
        let n = self.statuses.len();
        let mut i: usize = 0;
        while i < n
            invariant
                0 <= i <= n,
                n == self.statuses@.len(),
                forall|k: int| 0 <= k < i ==> (#[trigger] self.statuses@[k]) is Done,
            decreases n - i,
        {
            let p = self.statuses[i];
            match p {
                PieceStatus::Done => {},
                _ => {
                    return false;
                },
            }
            i = i + 1;
        }
        true
    }
}

} // verus!
