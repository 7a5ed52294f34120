//! Wire form of the adjacency matrix: a list of labelled peers and a packed
//! square bit matrix over them.

use vstd::prelude::*;
use std::collections::BTreeSet;
use crate::peer_set::{set_contains, set_insert, PeerSet};
use crate::{PeerId, Version};

verus! {

/// Bit `k` of a byte, counting from the least significant one.
pub open spec fn byte_bit(b: u8, k: u8) -> bool {
    (b >> k) & 1 == 1
}

/// Bit `idx` of a packed bit string.
pub open spec fn packed_bit(bytes: Seq<u8>, idx: int) -> bool {
    byte_bit(bytes[idx / 8], (idx % 8) as u8)
}

/// Number of bytes that hold `bits` bits.
pub open spec fn packed_len(bits: int) -> int {
    (bits + 7) / 8
}

/// Setting bit `k` of a byte sets that bit and leaves the others.
proof fn lemma_set_bit(b: u8, k: u8, j: u8)
    by (bit_vector)
    requires
        k < 8,
        j < 8,
    ensures
        byte_bit(b | (1u8 << k), j) == (j == k || byte_bit(b, j)),
{
}

/// No bit of the zero byte is set.
proof fn lemma_zero_byte(j: u8)
    by (bit_vector)
    requires
        j < 8,
    ensures
        !byte_bit(0u8, j),
{
}

/// Two bytes with the same eight bits are the same byte.
proof fn lemma_byte_of_bits(x: u8, y: u8)
    by (bit_vector)
    requires
        byte_bit(x, 0) == byte_bit(y, 0),
        byte_bit(x, 1) == byte_bit(y, 1),
        byte_bit(x, 2) == byte_bit(y, 2),
        byte_bit(x, 3) == byte_bit(y, 3),
        byte_bit(x, 4) == byte_bit(y, 4),
        byte_bit(x, 5) == byte_bit(y, 5),
        byte_bit(x, 6) == byte_bit(y, 6),
        byte_bit(x, 7) == byte_bit(y, 7),
    ensures
        x == y,
{
}

/// Two packed bit strings of the same length with the same bits are the
/// same.
pub proof fn lemma_packed_bits_unique(a: Seq<u8>, b: Seq<u8>)
    requires
        a.len() == b.len(),
        forall|i: int| 0 <= i < 8 * a.len() ==> #[trigger] packed_bit(a, i) == packed_bit(b, i),
    ensures
        a == b,
{
    assert forall|k: int| 0 <= k < a.len() implies a[k] == b[k] by {
        assert(packed_bit(a, 8 * k) == packed_bit(b, 8 * k));
        assert(packed_bit(a, 8 * k + 1) == packed_bit(b, 8 * k + 1));
        assert(packed_bit(a, 8 * k + 2) == packed_bit(b, 8 * k + 2));
        assert(packed_bit(a, 8 * k + 3) == packed_bit(b, 8 * k + 3));
        assert(packed_bit(a, 8 * k + 4) == packed_bit(b, 8 * k + 4));
        assert(packed_bit(a, 8 * k + 5) == packed_bit(b, 8 * k + 5));
        assert(packed_bit(a, 8 * k + 6) == packed_bit(b, 8 * k + 6));
        assert(packed_bit(a, 8 * k + 7) == packed_bit(b, 8 * k + 7));
        lemma_byte_of_bits(a[k], b[k]);
    }
    assert(a =~= b);
}

/// Every index below `n * n` is the index of a cell of an `n` by `n`
/// matrix.
pub proof fn lemma_index_is_cell(n: int, i: int)
    requires
        0 <= n,
        0 <= i < n * n,
    ensures
        0 <= i / n < n,
        0 <= i % n < n,
        (i / n) * n + i % n == i,
{
    assert(n > 0) by (nonlinear_arith)
        requires
            0 <= n,
            0 <= i < n * n,
    ;
    vstd::arithmetic::div_mod::lemma_fundamental_div_mod(i, n);
    vstd::arithmetic::div_mod::lemma_mod_bound(i, n);
    let q = i / n;
    let r = i % n;
    assert(i == n * q + r);
    assert(0 <= q < n) by (nonlinear_arith)
        requires
            i == n * q + r,
            0 <= r < n,
            0 <= i < n * n,
    ;
    assert(q * n == n * q) by (nonlinear_arith);
}

/// Cells of a square matrix are laid out row by row: a cell that comes
/// earlier has the smaller index.
pub proof fn lemma_cell_index(n: int, r1: int, c1: int, r2: int, c2: int)
    by (nonlinear_arith)
    requires
        0 <= r1,
        0 <= c1 < n,
        0 <= c2 < n,
        r1 < r2 || (r1 == r2 && c1 < c2),
    ensures
        0 <= r1 * n + c1 < r2 * n + c2,
{
}

/// Every cell of an `n` by `n` matrix has an index below `n * n`.
pub proof fn lemma_cell_in_range(n: int, r: int, c: int)
    by (nonlinear_arith)
    requires
        0 <= r < n,
        0 <= c < n,
    ensures
        0 <= r * n + c < n * n,
        0 <= r * n,
{
}

/// The adjacency matrix as it travels between neighbours.
#[derive(Debug)]
pub struct RouteConnBitmap {
    /// Row and column labels: each peer with the version of its adjacency set.
    pub peer_ids: Vec<(PeerId, Version)>,
    /// Bit `row * n + col` says whether the row's peer lists the column's peer.
    pub bitmap: Vec<u8>,
}

impl Clone for RouteConnBitmap {
    fn clone(&self) -> (r: Self)
        ensures
            r.peer_ids@ == self.peer_ids@,
            r.bitmap@ == self.bitmap@,
    {
        let mut peer_ids: Vec<(PeerId, Version)> = Vec::new();
        let mut i: usize = 0;
        while i < self.peer_ids.len()
            invariant
                i <= self.peer_ids.len(),
                peer_ids@ == self.peer_ids@.take(i as int),
            decreases self.peer_ids.len() - i,
        {
            peer_ids.push(self.peer_ids[i]);
            i += 1;
        }
        let mut bitmap: Vec<u8> = Vec::new();
        let mut j: usize = 0;
        while j < self.bitmap.len()
            invariant
                j <= self.bitmap.len(),
                bitmap@ == self.bitmap@.take(j as int),
            decreases self.bitmap.len() - j,
        {
            bitmap.push(self.bitmap[j]);
            j += 1;
        }
        RouteConnBitmap { peer_ids, bitmap }
    }
}

impl RouteConnBitmap {
    /// Number of labelled peers.
    pub open spec fn size(&self) -> int {
        self.peer_ids@.len() as int
    }

    /// Bit `idx` of the matrix.
    pub open spec fn bit(&self, idx: int) -> bool {
        packed_bit(self.bitmap@, idx)
    }

    /// Whether the matrix is long enough to hold a bit for each pair of labels.
    pub open spec fn covers(&self) -> bool {
        &&& self.size() * self.size() <= usize::MAX
        &&& self.size() * self.size() <= 8 * self.bitmap@.len()
    }

    /// Whether the matrix has exactly the length that its labels call for.
    pub open spec fn exact(&self) -> bool {
        &&& self.size() * self.size() + 7 <= usize::MAX
        &&& self.bitmap@.len() == packed_len(self.size() * self.size())
    }

    /// Whether every bit behind the last bit of the matrix is 0.
    pub open spec fn padding_clear(&self) -> bool {
        forall|i: int|
            self.size() * self.size() <= i < 8 * self.bitmap@.len() ==> !#[trigger] self.bit(i)
    }

    /// Whether the peer labelled `row` reports the peer labelled `col` as a
    /// direct neighbour.
    pub open spec fn connected(&self, row: int, col: int) -> bool {
        self.bit(row * self.size() + col)
    }

    /// The peers that the peer labelled `row` reports as direct neighbours.
    pub open spec fn row_set(&self, row: int) -> Set<PeerId> {
        Set::new(
            |p: PeerId|
                exists|col: int|
                    0 <= col < self.size() && #[trigger] self.peer_ids@[col].0 == p
                        && self.connected(row, col),
        )
    }

    /// A matrix over no peers.
    pub fn new() -> (r: Self)
        ensures
            r.peer_ids@.len() == 0,
            r.bitmap@.len() == 0,
            r.exact(),
    {
        let r = RouteConnBitmap { peer_ids: Vec::new(), bitmap: Vec::new() };
        assert(r.size() == 0);
        assert(r.size() * r.size() == 0);
        r
    }

    /// Whether the matrix is long enough for its labels (`covers`).
    pub fn is_well_formed(&self) -> (r: bool)
        ensures
            r == self.covers(),
    {
        let n = self.peer_ids.len();
        match n.checked_mul(n) {
            None => false,
            Some(cells) => {
                // cells <= 8 * len, without computing 8 * len
                let full = self.bitmap.len();
                cells / 8 < full || (cells / 8 == full && cells % 8 == 0)
            },
        }
    }

    /// Reads bit `idx`.
    pub fn get_bit(&self, idx: usize) -> (r: bool)
        requires
            idx < 8 * self.bitmap@.len(),
        ensures
            r == self.bit(idx as int),
    {
        let byte_idx = idx / 8;
        let bit_idx: u8 = (idx % 8) as u8;
        let byte = self.bitmap[byte_idx];
        (byte >> bit_idx) & 1 == 1
    }

    /// Decodes one row: the set of the peers that the peer labelled `peer_idx`
    /// reports as direct neighbours.
    pub fn get_connected_peers(&self, peer_idx: usize) -> (r: PeerSet)
        requires
            peer_idx < self.peer_ids@.len(),
            self.covers(),
        ensures
            r@ == self.row_set(peer_idx as int),
    {
        let mut connected_peers: PeerSet = BTreeSet::new();
        let n = self.peer_ids.len();
        let mut idx: usize = 0;
        proof {
            lemma_cell_in_range(n as int, peer_idx as int, 0);
        }
        let base = peer_idx * n;
        while idx < n
            invariant
                idx <= n,
                n == self.peer_ids@.len(),
                peer_idx < n,
                self.covers(),
                base == peer_idx * n,
                forall|p: PeerId|
                    connected_peers@.contains(p) <==> exists|col: int|
                        0 <= col < idx && #[trigger] self.peer_ids@[col].0 == p && self.connected(
                            peer_idx as int,
                            col,
                        ),
            decreases n - idx,
        {
            proof {
                lemma_cell_in_range(n as int, peer_idx as int, idx as int);
            }
            let ghost before = connected_peers@;
            if self.get_bit(base + idx) {
                set_insert(&mut connected_peers, self.peer_ids[idx].0);
            }
            proof {
                let here = self.peer_ids@[idx as int].0;
                assert forall|p: PeerId|
                    connected_peers@.contains(p) <==> exists|col: int|
                        0 <= col < idx + 1 && #[trigger] self.peer_ids@[col].0 == p
                            && self.connected(peer_idx as int, col) by {
                    if connected_peers@.contains(p) {
                        if before.contains(p) {
                            let col = choose|col: int|
                                0 <= col < idx && #[trigger] self.peer_ids@[col].0 == p
                                    && self.connected(peer_idx as int, col);
                            assert(0 <= col < idx + 1 && self.peer_ids@[col].0 == p
                                && self.connected(peer_idx as int, col));
                        } else {
                            assert(p == here);
                            assert(self.peer_ids@[idx as int].0 == p && self.connected(
                                peer_idx as int,
                                idx as int,
                            ));
                        }
                    }
                    if exists|col: int|
                        0 <= col < idx + 1 && #[trigger] self.peer_ids@[col].0 == p
                            && self.connected(peer_idx as int, col) {
                        let col = choose|col: int|
                            0 <= col < idx + 1 && #[trigger] self.peer_ids@[col].0 == p
                                && self.connected(peer_idx as int, col);
                        if col < idx {
                            assert(before.contains(p));
                        }
                    }
                }
            }
            idx += 1;
        }
        assert(connected_peers@ =~= self.row_set(peer_idx as int));
        connected_peers
    }

    /// Encodes an adjacency matrix: `rows[i]` is the set that the peer labelled
    /// `i` reports. The matrix has exactly the length that the labels call for,
    /// its bit for a pair of labels is set exactly when the row's set holds
    /// the column's peer, and the bits that are left over in the last byte
    /// are 0.
    pub fn build(peer_ids: Vec<(PeerId, Version)>, rows: &Vec<PeerSet>) -> (r: Self)
        requires
            rows@.len() == peer_ids@.len(),
            peer_ids@.len() * peer_ids@.len() + 7 <= usize::MAX,
        ensures
            r.peer_ids@ == peer_ids@,
            r.exact(),
            r.covers(),
            r.padding_clear(),
            forall|row: int, col: int|
                0 <= row < r.size() && 0 <= col < r.size() ==> (#[trigger] r.connected(row, col)
                    <==> rows@[row]@.contains(peer_ids@[col].0)),
    {
        let n = peer_ids.len();
        let cells = n * n;
        let len = (cells + 7) / 8;
        let mut bitmap: Vec<u8> = Vec::new();
        let mut k: usize = 0;
        while k < len
            invariant
                k <= len,
                bitmap@.len() == k,
                forall|i: int| 0 <= i < k ==> bitmap@[i] == 0u8,
            decreases len - k,
        {
            bitmap.push(0);
            k += 1;
        }
        proof {
            assert forall|i: int| 0 <= i < 8 * len implies !#[trigger] packed_bit(bitmap@, i) by {
                lemma_zero_byte((i % 8) as u8);
            }
            assert(0 * n == 0);
        }
        let mut row: usize = 0;
        while row < n
            invariant
                row <= n,
                n == peer_ids@.len(),
                rows@.len() == n,
                cells == n * n,
                cells + 7 <= usize::MAX,
                bitmap@.len() == len,
                len == packed_len(cells as int),
                forall|r1: int, c1: int|
                    0 <= r1 < row && 0 <= c1 < n ==> (#[trigger] packed_bit(bitmap@, r1 * n + c1)
                        <==> rows@[r1]@.contains(peer_ids@[c1].0)),
                forall|i: int|
                    row * n <= i < 8 * len ==> !#[trigger] packed_bit(bitmap@, i),
            decreases n - row,
        {
            let mut col: usize = 0;
            proof {
                lemma_cell_in_range(n as int, row as int, 0);
            }
            let base = row * n;
            while col < n
                invariant
                    col <= n,
                    row < n,
                    n == peer_ids@.len(),
                    rows@.len() == n,
                    cells == n * n,
                    cells + 7 <= usize::MAX,
                    base == row * n,
                    bitmap@.len() == len,
                    len == packed_len(cells as int),
                    forall|r1: int, c1: int|
                        0 <= r1 < row && 0 <= c1 < n ==> (#[trigger] packed_bit(
                            bitmap@,
                            r1 * n + c1,
                        ) <==> rows@[r1]@.contains(peer_ids@[c1].0)),
                    forall|c1: int|
                        0 <= c1 < col ==> (#[trigger] packed_bit(bitmap@, row * n + c1)
                            <==> rows@[row as int]@.contains(peer_ids@[c1].0)),
                    forall|i: int|
                        row * n + col <= i < 8 * len ==> !#[trigger] packed_bit(bitmap@, i),
                decreases n - col,
            {
                proof {
                    lemma_cell_in_range(n as int, row as int, col as int);
                }
                let bit_idx = base + col;
                if set_contains(&rows[row], peer_ids[col].0) {
                    let ghost old_bits = bitmap@;
                    let byte_idx = bit_idx / 8;
                    let shift: u8 = (bit_idx % 8) as u8;
                    let byte = bitmap[byte_idx];
                    bitmap.set(byte_idx, byte | (1u8 << shift));
                    proof {
                        assert forall|i: int| 0 <= i < 8 * len implies (#[trigger] packed_bit(
                            bitmap@,
                            i,
                        ) <==> (i == bit_idx || packed_bit(old_bits, i))) by {
                            if i / 8 == byte_idx as int {
                                lemma_set_bit(byte, shift, (i % 8) as u8);
                            }
                        }
                        assert forall|r1: int, c1: int| 0 <= r1 < row && 0 <= c1 < n implies (
                        #[trigger] packed_bit(bitmap@, r1 * n + c1) <==> rows@[r1]@.contains(
                            peer_ids@[c1].0,
                        )) by {
                            lemma_cell_index(n as int, r1, c1, row as int, col as int);
                            lemma_cell_in_range(n as int, r1, c1);
                        }
                        assert forall|c1: int| 0 <= c1 < col + 1 implies (#[trigger] packed_bit(
                            bitmap@,
                            row * n + c1,
                        ) <==> rows@[row as int]@.contains(peer_ids@[c1].0)) by {
                            lemma_cell_in_range(n as int, row as int, c1);
                        }
                    }
                } else {
                    proof {
                        assert forall|c1: int| 0 <= c1 < col + 1 implies (#[trigger] packed_bit(
                            bitmap@,
                            row * n + c1,
                        ) <==> rows@[row as int]@.contains(peer_ids@[c1].0)) by {
                            lemma_cell_in_range(n as int, row as int, c1);
                        }
                    }
                }
                col += 1;
            }
            proof {
                assert((row + 1) * n == row * n + n) by (nonlinear_arith);
            }
            row += 1;
        }
        let r = RouteConnBitmap { peer_ids, bitmap };
        proof {
            assert(r.padding_clear()) by {
                assert forall|i: int|
                    r.size() * r.size() <= i < 8 * r.bitmap@.len() implies !#[trigger] r.bit(i) by {
                    assert(!packed_bit(r.bitmap@, i));
                }
            }
            assert forall|row: int, col: int| 0 <= row < r.size() && 0 <= col < r.size() implies (
            #[trigger] r.connected(row, col) <==> rows@[row]@.contains(peer_ids@[col].0)) by {
                assert(packed_bit(r.bitmap@, row * n + col) <==> rows@[row]@.contains(
                    peer_ids@[col].0,
                ));
            }
        }
        r
    }
}

/// Encoding an adjacency matrix and decoding a row gives back the row's set,
/// as far as its members are among the labels.
pub proof fn lemma_bitmap_round_trip(bitmap: RouteConnBitmap, rows: Seq<Set<PeerId>>, row: int)
    requires
        rows.len() == bitmap.size(),
        0 <= row < bitmap.size(),
        forall|r: int, c: int|
            0 <= r < bitmap.size() && 0 <= c < bitmap.size() ==> (#[trigger] bitmap.connected(r, c)
                <==> rows[r].contains(bitmap.peer_ids@[c].0)),
    ensures
        bitmap.row_set(row) == rows[row].intersect(
            Set::new(
                |p: PeerId|
                    exists|c: int| 0 <= c < bitmap.size() && #[trigger] bitmap.peer_ids@[c].0 == p,
            ),
        ),
        (forall|p: PeerId|
            rows[row].contains(p) ==> exists|c: int|
                0 <= c < bitmap.size() && #[trigger] bitmap.peer_ids@[c].0 == p)
            ==> bitmap.row_set(row) == rows[row],
{
    let labels = Set::new(
        |p: PeerId| exists|c: int| 0 <= c < bitmap.size() && #[trigger] bitmap.peer_ids@[c].0 == p,
    );
    assert forall|p: PeerId| bitmap.row_set(row).contains(p) <==> rows[row].intersect(
        labels,
    ).contains(p) by {
        if bitmap.row_set(row).contains(p) {
            let c = choose|c: int|
                0 <= c < bitmap.size() && #[trigger] bitmap.peer_ids@[c].0 == p && bitmap.connected(
                    row,
                    c,
                );
            assert(rows[row].contains(bitmap.peer_ids@[c].0));
        }
        if rows[row].intersect(labels).contains(p) {
            let c = choose|c: int| 0 <= c < bitmap.size() && #[trigger] bitmap.peer_ids@[c].0 == p;
            assert(bitmap.connected(row, c));
        }
    }
    assert(bitmap.row_set(row) =~= rows[row].intersect(labels));
    if forall|p: PeerId|
        rows[row].contains(p) ==> exists|c: int|
            0 <= c < bitmap.size() && #[trigger] bitmap.peer_ids@[c].0 == p {
        assert(rows[row].intersect(labels) =~= rows[row]);
    }
}

} // verus!
