//! The game controller: reset (shuffle and clear), pair matching, and win
//! detection, together with the laws that a round preserves.

use rand::seq::SliceRandom;
use vstd::multiset::Multiset;
use vstd::prelude::*;

use crate::board::all_cleared;
use crate::board::all_solved;
use crate::board::clear;
use crate::board::cleared;
use crate::board::face_down;
use crate::board::face_multiset;
use crate::board::faces;
use crate::board::flipped_unsolved;
use crate::board::paired;
use crate::board::solve;
use crate::board::Board;
use crate::board::BoardError;
use crate::board::Tile;

verus! {

/// Relies on rand's `SliceRandom::shuffle`: a Fisher-Yates pass that rearranges
/// the slice in place by swaps, so the tiles afterwards are exactly the tiles
/// before, in some order.
#[verifier::external_body]
fn shuffle_tiles(tiles: &mut Vec<Tile>)
    ensures
        final(tiles)@.len() == old(tiles)@.len(),
        final(tiles)@.to_multiset() == old(tiles)@.to_multiset(),
{
    let mut rng = rand::thread_rng();
    tiles.shuffle(&mut rng);
}

/// Two boards that hold the same tiles, in whatever order, show the same face
/// values with the same multiplicities.
pub proof fn lemma_permutation_preserves_faces(a: Seq<Tile>, b: Seq<Tile>)
    requires
        a.to_multiset() == b.to_multiset(),
    ensures
        face_multiset(a) == face_multiset(b),
    decreases a.len(),
{
    broadcast use vstd::seq_lib::group_to_multiset_ensures;
    broadcast use vstd::multiset::group_multiset_axioms;

    if a.len() == 0 {
        assert(a.to_multiset().len() == a.len());
        assert(b.to_multiset().len() == b.len());
        assert(faces(a) =~= faces(b));
    } else {
        let t = a.last();
        let x = t.image_index;
        assert(a.contains(t));
        assert(b.to_multiset().count(t) > 0);
        assert(b.contains(t));
        let i = choose|i: int| 0 <= i < b.len() && b[i] == t;
        assert(a.drop_last() =~= a.remove(a.len() - 1));
        assert(a.drop_last().to_multiset() == a.to_multiset().remove(t));
        assert(b.remove(i).to_multiset() == b.to_multiset().remove(t));
        lemma_permutation_preserves_faces(a.drop_last(), b.remove(i));
        assert(faces(a.drop_last()) =~= faces(a).remove(faces(a).len() - 1));
        assert(faces(b.remove(i)) =~= faces(b).remove(i));
        assert(faces(a)[faces(a).len() - 1] == x);
        assert(faces(a).remove(faces(a).len() - 1).to_multiset() == faces(a).to_multiset().remove(
            x,
        ));
        assert(faces(b)[i] == x);
        assert(faces(b).remove(i).to_multiset() == faces(b).to_multiset().remove(x));
        assert(faces(a).contains(x));
        assert(faces(b).contains(x));
        let ma = face_multiset(a);
        let mb = face_multiset(b);
        assert(ma.count(x) > 0);
        assert(mb.count(x) > 0);
        assert(ma.remove(x) == mb.remove(x));
        assert forall|v: u32| ma.count(v) == mb.count(v) by {
            assert(Multiset::singleton(x).count(v) == if v == x {
                1nat
            } else {
                0nat
            });
            assert(ma.remove(x).count(v) == mb.remove(x).count(v));
        }
        assert(ma =~= mb);
    }
}

/// The round-end law: when a finished board satisfies the pairing invariant,
/// the board after the finale (`clear_all`, which keeps every face in place)
/// followed by the next shuffle (`reset_board`, which keeps the stock of
/// faces) satisfies it as well: every new round starts paired.
pub proof fn lemma_finished_round_restarts_paired(
    finished: Seq<Tile>,
    after_finale: Seq<Tile>,
    next_round: Seq<Tile>,
)
    requires
        paired(finished),
        faces(after_finale) == faces(finished),
        face_multiset(next_round) == face_multiset(after_finale),
    ensures
        paired(next_round),
{
    crate::board::lemma_pairing_preserved_by_permutation(finished, next_round);
}

/// A copy of the tile sequence with every flag lowered and every face kept.
fn cleared_copy(tiles: &Vec<Tile>) -> (r: Vec<Tile>)
    ensures
        r@.len() == tiles@.len(),
        forall|k: int| 0 <= k < tiles@.len() ==> r@[k] == clear(#[trigger] tiles@[k]),
{
    let mut r: Vec<Tile> = Vec::new();
    let mut k: usize = 0;
    while k < tiles.len()
        invariant
            k <= tiles@.len(),
            r@.len() == k,
            forall|p: int| 0 <= p < k ==> r@[p] == clear(#[trigger] tiles@[p]),
        decreases tiles@.len() - k,
    {
        let t = tiles[k];
        r.push(Tile { image_index: t.image_index, image_visible: false, solved: false });
        k = k + 1;
    }
    r
}

/// Starts a new round: shuffles the tiles uniformly at random and lowers every
/// flag, whatever state the board was in. The board keeps its length and its
/// stock of face values; only their order changes.
pub fn reset_board(board: &mut Board)
    ensures
        final(board)@.len() == old(board)@.len(),
        face_multiset(final(board)@) == face_multiset(old(board)@),
        all_cleared(final(board)@),
{
    let mut tiles = board.get_tiles();
    shuffle_tiles(&mut tiles);
    proof {
        lemma_permutation_preserves_faces(old(board)@, tiles@);
    }
    let fresh = cleared_copy(&tiles);
    proof {
        assert(faces(fresh@) =~= faces(tiles@));
        assert forall|k: int| 0 <= k < fresh@.len() implies cleared(#[trigger] fresh@[k]) by {
            assert(fresh@[k] == clear(tiles@[k]));
        }
    }
    board.set_tiles(fresh);
}

/// The end-of-round finale: turns every tile face-down and unmatched, keeping
/// each face value in its place.
pub fn clear_all(board: &mut Board)
    ensures
        final(board)@.len() == old(board)@.len(),
        faces(final(board)@) == faces(old(board)@),
        all_cleared(final(board)@),
{
    let tiles = board.get_tiles();
    let fresh = cleared_copy(&tiles);
    proof {
        assert(faces(fresh@) =~= faces(tiles@));
        assert forall|k: int| 0 <= k < fresh@.len() implies cleared(#[trigger] fresh@[k]) by {
            assert(fresh@[k] == clear(tiles@[k]));
        }
    }
    board.set_tiles(fresh);
}

/// What the pair-check decided, and which tiles it looked at. On a mismatch
/// the caller must disable interaction, wait `MISMATCH_HIDE_DELAY_MS`, then
/// hand the recorded indices and tile snapshots to `hide_mismatched_pair`.
#[derive(Clone, Copy, PartialEq, Eq, Structural, Debug)]
pub enum PairOutcome {
    /// Fewer than two tiles are face-up and unmatched: nothing to compare yet.
    NoPair,
    /// The first two face-up unmatched tiles share a face; both were marked solved.
    Matched { first: usize, second: usize },
    /// The first two face-up unmatched tiles differ; the board was left as it was.
    Mismatched { first: usize, second: usize },
}

/// `i` and `j` are the first two positions, in index order, whose tiles are
/// face-up and unmatched.
pub open spec fn first_two_flipped(s: Seq<Tile>, i: int, j: int) -> bool {
    &&& 0 <= i < j < s.len()
    &&& flipped_unsolved(s[i])
    &&& flipped_unsolved(s[j])
    &&& forall|k: int| 0 <= k < i ==> !flipped_unsolved(#[trigger] s[k])
    &&& forall|k: int| i < k < j ==> !flipped_unsolved(#[trigger] s[k])
}

/// At least two tiles are face-up and unmatched.
pub open spec fn has_two_flipped(s: Seq<Tile>) -> bool {
    exists|i: int, j: int|
        0 <= i < j < s.len() && flipped_unsolved(#[trigger] s[i]) && flipped_unsolved(
            #[trigger] s[j],
        )
}

/// First index at or after `start` whose tile is face-up and unmatched.
fn find_flipped_from(tiles: &Vec<Tile>, start: usize) -> (r: Option<usize>)
    ensures
        match r {
            Some(i) => start <= i < tiles@.len() && flipped_unsolved(tiles@[i as int]) && forall|
                k: int,
            | start <= k < i ==> !flipped_unsolved(#[trigger] tiles@[k]),
            None => forall|k: int|
                start <= k < tiles@.len() ==> !flipped_unsolved(#[trigger] tiles@[k]),
        },
{
    let mut k: usize = start;
    while k < tiles.len()
        invariant
            start <= k,
            forall|p: int| start <= p < k ==> !flipped_unsolved(#[trigger] tiles@[p]),
        decreases tiles@.len() - k,
    {
        let t = tiles[k];
        if t.image_visible && !t.solved {
            return Some(k);
        }
        k = k + 1;
    }
    None
}

/// The pair-check, run after a tile interaction. It scans the board in index
/// order for tiles that are face-up and unmatched. With fewer than two it does
/// nothing. Otherwise it takes exactly the first two: equal faces are marked
/// solved at once, their visibility untouched; unequal faces leave the board
/// unchanged, and the outcome tells the caller to hide them after the delay.
pub fn check_if_pair_solved(board: &mut Board) -> (r: PairOutcome)
    ensures
        final(board)@.len() == old(board)@.len(),
        match r {
            PairOutcome::NoPair => !has_two_flipped(old(board)@) && final(board)@ == old(board)@,
            PairOutcome::Matched { first, second } => {
                &&& first_two_flipped(old(board)@, first as int, second as int)
                &&& old(board)@[first as int].image_index == old(
                    board,
                )@[second as int].image_index
                &&& final(board)@ == old(board)@.update(
                    first as int,
                    solve(old(board)@[first as int]),
                ).update(second as int, solve(old(board)@[second as int]))
            },
            PairOutcome::Mismatched { first, second } => {
                &&& first_two_flipped(old(board)@, first as int, second as int)
                &&& old(board)@[first as int].image_index != old(
                    board,
                )@[second as int].image_index
                &&& final(board)@ == old(board)@
            },
        },
{
    let tiles = board.get_tiles();
    let n = tiles.len();
    let first = match find_flipped_from(&tiles, 0) {
        Some(i) => i,
        None => {
            return PairOutcome::NoPair;
        },
    };
    proof {
        assert(first < n);
    }
    let second = match find_flipped_from(&tiles, first + 1) {
        Some(j) => j,
        None => {
            return PairOutcome::NoPair;
        },
    };
    let t1 = tiles[first];
    let t2 = tiles[second];
    if t1.image_index == t2.image_index {
        let _ = board.set_tile_at(
            first,
            Tile { image_index: t1.image_index, image_visible: t1.image_visible, solved: true },
        );
        let _ = board.set_tile_at(
            second,
            Tile { image_index: t2.image_index, image_visible: t2.image_visible, solved: true },
        );
        PairOutcome::Matched { first, second }
    } else {
        PairOutcome::Mismatched { first, second }
    }
}

/// The delayed half of a mismatch: turns the two snapshotted tiles face-down
/// and writes them back at the recorded indices. The snapshots, not the live
/// board, are what is written, so a board changed in the meantime is simply
/// overwritten at those two places; indices are re-checked against the current
/// length first, and an out-of-range index leaves the board untouched.
pub fn hide_mismatched_pair(board: &mut Board, first: usize, t1: Tile, second: usize, t2: Tile) -> (r:
    Result<(), BoardError>)
    ensures
        first < old(board)@.len() && second < old(board)@.len() ==> r == Ok::<(), BoardError>(())
            && final(board)@ == old(board)@.update(first as int, face_down(t1)).update(
            second as int,
            face_down(t2),
        ),
        !(first < old(board)@.len() && second < old(board)@.len()) ==> r == Err::<
            (),
            BoardError,
        >(BoardError::IndexOutOfRange) && final(board)@ == old(board)@,
{
    if first < board.len() && second < board.len() {
        let _ = board.set_tile_at(
            first,
            Tile { image_index: t1.image_index, image_visible: false, solved: t1.solved },
        );
        let _ = board.set_tile_at(
            second,
            Tile { image_index: t2.image_index, image_visible: false, solved: t2.solved },
        );
        Ok(())
    } else {
        Err(BoardError::IndexOutOfRange)
    }
}

/// The finish-check, run after every solved pair: reports whether every tile
/// on the board has been matched, and mutates nothing. On `true` the caller
/// runs the finale: after `FINISH_CLEAR_DELAY_MS` it clears the board with
/// `clear_all`, and `FINISH_RESTART_DELAY_MS` later it starts the next round
/// with `reset_board`.
pub fn check_if_game_finished(board: &Board) -> (finished: bool)
    ensures
        finished == all_solved(board@),
{
    let tiles = board.get_tiles();
    let mut k: usize = 0;
    while k < tiles.len()
        invariant
            k <= tiles@.len(),
            tiles@ == board@,
            forall|p: int| 0 <= p < k ==> (#[trigger] tiles@[p]).solved,
        decreases tiles@.len() - k,
    {
        if !tiles[k].solved {
            proof {
                assert(!board@[k as int].solved);
            }
            return false;
        }
        k = k + 1;
    }
    true
}

/// Milliseconds a mismatched pair stays face-up before it is hidden again.
pub const MISMATCH_HIDE_DELAY_MS: u64 = 1000;

/// Milliseconds between the end of a round and the clearing of the board.
pub const FINISH_CLEAR_DELAY_MS: u64 = 1000;

/// Milliseconds between the clearing of a finished board and the next shuffle.
pub const FINISH_RESTART_DELAY_MS: u64 = 250;

} // verus!

