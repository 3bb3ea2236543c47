//! The board store: a fixed-length sequence of tiles with snapshot reads and
//! validated writes. It is the single source of truth that a rendering layer
//! binds to and that the game controller mutates.

use vstd::prelude::*;
use vstd::multiset::Multiset;

verus! {

/// One cell of the board: a face value plus visibility and solved flags.
#[derive(Clone, Copy, PartialEq, Eq, Structural, Debug)]
pub struct Tile {
    /// Which icon this tile displays; two tiles share a face value to form a pair.
    pub image_index: u32,
    /// True while the tile is face-up.
    pub image_visible: bool,
    /// True once this tile's pair has been matched; it then never flips back.
    pub solved: bool,
}

/// The ways a board operation can fail.
#[derive(Clone, Copy, PartialEq, Eq, Structural, Debug)]
pub enum BoardError {
    /// A write targeted a tile index beyond the board length.
    IndexOutOfRange,
    /// The base tile set repeats a face value, so the doubled board could not
    /// show every face exactly twice.
    MalformedBaseConfiguration,
}

/// A tile that is face-up but not yet matched.
pub open spec fn flipped_unsolved(t: Tile) -> bool {
    t.image_visible && !t.solved
}

/// A tile that is face-down and unmatched, as after a reset.
pub open spec fn cleared(t: Tile) -> bool {
    !t.image_visible && !t.solved
}

/// The same tile with both flags lowered.
pub open spec fn clear(t: Tile) -> Tile {
    Tile { image_index: t.image_index, image_visible: false, solved: false }
}

/// The same tile marked as matched; its visibility is untouched.
pub open spec fn solve(t: Tile) -> Tile {
    Tile { image_index: t.image_index, image_visible: t.image_visible, solved: true }
}

/// The same tile turned face-down; its solved flag is untouched.
pub open spec fn face_down(t: Tile) -> Tile {
    Tile { image_index: t.image_index, image_visible: false, solved: t.solved }
}

/// The sequence of face values shown by a sequence of tiles, in board order.
pub open spec fn faces(s: Seq<Tile>) -> Seq<u32> {
    s.map_values(|t: Tile| t.image_index)
}

/// The face values of a board with their multiplicities, order forgotten.
pub open spec fn face_multiset(s: Seq<Tile>) -> Multiset<u32> {
    faces(s).to_multiset()
}

/// Every face value that appears on the board appears in exactly two positions.
pub open spec fn paired(s: Seq<Tile>) -> bool {
    forall|v: u32| face_multiset(s).count(v) == 0 || face_multiset(s).count(v) == 2
}

/// Every tile is face-down and unmatched.
pub open spec fn all_cleared(s: Seq<Tile>) -> bool {
    forall|k: int| 0 <= k < s.len() ==> cleared(#[trigger] s[k])
}

/// Every tile has been matched: the round is complete.
pub open spec fn all_solved(s: Seq<Tile>) -> bool {
    forall|k: int| 0 <= k < s.len() ==> (#[trigger] s[k]).solved
}

/// A board laid out as two copies of a base with no repeated face value shows
/// every face value it has in exactly two positions: the pairing invariant
/// holds of every board built from a well-formed base.
pub proof fn lemma_doubled_base_is_paired(s: Seq<Tile>, base: Seq<u32>)
    requires
        base.no_duplicates(),
        faces(s) == base + base,
    ensures
        paired(s),
{
    broadcast use vstd::seq_lib::group_to_multiset_ensures;
    broadcast use vstd::multiset::group_multiset_axioms;

    vstd::seq_lib::lemma_multiset_commutative(base, base);
    base.lemma_multiset_has_no_duplicates();
    assert forall|v: u32| face_multiset(s).count(v) == 0 || face_multiset(s).count(v) == 2 by {
        assert(face_multiset(s).count(v) == base.to_multiset().count(v)
            + base.to_multiset().count(v));
        if base.to_multiset().count(v) > 0 {
            assert(base.to_multiset().contains(v));
            assert(base.to_multiset().count(v) == 1);
        }
    }
}

/// Rearranging a board's face values, as a reset does, cannot break the
/// pairing invariant: it speaks only of how often each face appears.
pub proof fn lemma_pairing_preserved_by_permutation(a: Seq<Tile>, b: Seq<Tile>)
    requires
        paired(a),
        face_multiset(a) == face_multiset(b),
    ensures
        paired(b),
{
}

/// The board store: owns the ordered tile sequence for one session. The
/// sequence's length is fixed at construction and preserved by every write.
#[derive(Debug)]
pub struct Board {
    tiles: Vec<Tile>,
}

impl View for Board {
    type V = Seq<Tile>;

    closed spec fn view(&self) -> Seq<Tile> {
        self.tiles@
    }
}

impl Board {
    /// Builds the session board from a base set of face values by laying the
    /// base out twice, every tile face-down and unmatched. A base that repeats
    /// a face value is rejected: the doubled board could not show every face
    /// exactly twice.
    pub fn from_base(base: &Vec<u32>) -> (r: Result<Board, BoardError>)
        ensures
            match r {
                Ok(b) => base@.no_duplicates()
                    && b@.len() == 2 * base@.len()
                    && faces(b@) == base@ + base@
                    && all_cleared(b@),
                Err(e) => e == BoardError::MalformedBaseConfiguration
                    && !base@.no_duplicates(),
            },
    {
        let n = base.len();
        let mut i: usize = 0;
        while i < n
            invariant
                i <= n,
                n == base@.len(),
                forall|p: int, q: int| 0 <= p < q < base@.len() && p < i ==> base@[p] != base@[q],
            decreases n - i,
        {
            let mut j: usize = i + 1;
            while j < n
                invariant
                    i < j <= n,
                    n == base@.len(),
                    forall|q: int| i < q < j ==> base@[i as int] != base@[q],
                decreases n - j,
            {
                if base[i] == base[j] {
                    return Err(BoardError::MalformedBaseConfiguration);
                }
                j = j + 1;
            }
            i = i + 1;
        }
        let mut tiles: Vec<Tile> = Vec::new();
        let mut k: usize = 0;
        while k < n
            invariant
                k <= n,
                n == base@.len(),
                tiles@.len() == k,
                all_cleared(tiles@),
                faces(tiles@) =~= base@.take(k as int),
            decreases n - k,
        {
            tiles.push(Tile { image_index: base[k], image_visible: false, solved: false });
            k = k + 1;
        }
        let mut k2: usize = 0;
        while k2 < n
            invariant
                k2 <= n,
                n == base@.len(),
                tiles@.len() == n + k2,
                all_cleared(tiles@),
                faces(tiles@) =~= base@ + base@.take(k2 as int),
            decreases n - k2,
        {
            let ghost pre = tiles@;
            tiles.push(Tile { image_index: base[k2], image_visible: false, solved: false });
            k2 = k2 + 1;
            proof {
                let target = base@ + base@.take(k2 as int);
                assert forall|i: int| 0 <= i < faces(tiles@).len() implies faces(
                    tiles@,
                )[i] == target[i] by {
                    if i < pre.len() {
                        assert(faces(tiles@)[i] == faces(pre)[i]);
                    }
                }
                assert(faces(tiles@) =~= target);
            }
        }
        proof {
            assert(faces(tiles@) =~= base@ + base@);
        }
        Ok(Board { tiles })
    }

    /// Number of tiles on the board.
    pub fn len(&self) -> (n: usize)
        ensures
            n == self@.len(),
    {
        self.tiles.len()
    }

    /// Snapshot read of the whole board, with no side effect.
    pub fn get_tiles(&self) -> (r: Vec<Tile>)
        ensures
            r@ == self@,
    {
        let mut r: Vec<Tile> = Vec::new();
        let mut k: usize = 0;
        while k < self.tiles.len()
            invariant
                k <= self.tiles.len(),
                r@ == self.tiles@.take(k as int),
            decreases self.tiles.len() - k,
        {
            r.push(self.tiles[k]);
            k = k + 1;
            proof {
                assert(r@ =~= self.tiles@.take(k as int));
            }
        }
        proof {
            assert(r@ =~= self.tiles@);
        }
        r
    }

    /// Atomically replaces the whole sequence; the board length is fixed for
    /// the session, so the replacement must have the same length.
    pub fn set_tiles(&mut self, tiles: Vec<Tile>)
        requires
            tiles@.len() == old(self)@.len(),
        ensures
            final(self)@ == tiles@,
    {
        self.tiles = tiles;
    }

    /// Replaces one tile; rejects an index beyond the board length.
    pub fn set_tile_at(&mut self, index: usize, tile: Tile) -> (r: Result<(), BoardError>)
        ensures
            index < old(self)@.len() ==> r == Ok::<(), BoardError>(())
                && final(self)@ == old(self)@.update(index as int, tile),
            index >= old(self)@.len() ==> r == Err::<(), BoardError>(BoardError::IndexOutOfRange)
                && final(self)@ == old(self)@,
    {
        if index < self.tiles.len() {
            self.tiles[index] = tile;
            Ok(())
        } else {
            Err(BoardError::IndexOutOfRange)
        }
    }
}

} // verus!
