//! Engine for "clear cascade" puzzle mechanics: partition a board's tiles
//! into connected same-kind groups, select the groups large enough to clear,
//! widen the selection by the nuisance rule, let the remaining tiles fall,
//! and repeat the whole pass to score chain reactions.
//!
//! The board itself is a capability interface ([`Board`] and its companions):
//! the engine works on opaque `usize` handles and never assumes a concrete
//! layout. A board implementation supplies enumeration, adjacency and the
//! same-kind predicate, and is expected to meet the contracts stated on the
//! trait methods.

pub mod connect;
pub mod gravity;
pub mod quicksim;
pub mod standard;

use vstd::prelude::*;
use crate::connect::{
    connected, edge, groups_disjoint, groups_tidy, heads_canonical, in_some_group, is_path,
    same_group, tile_order, lemma_connected_refl, lemma_connected_sym, lemma_connected_trans,
    lemma_edge_connected, lemma_heads_push, lemma_heads_remove, lemma_path_in_same_group,
    lemma_tile_order,
};
use vstd::seq_lib::lemma_no_dup_in_concat;

verus! {

broadcast use vstd::seq_lib::group_seq_properties;

/// A board of tiles, seen through opaque position handles.
///
/// Implementations must honour the method contracts and keep [`board_wf`]
/// true: `tiles` enumerates each position at most once, `connects` is
/// symmetric, and the neighbour relation is symmetric. The engine's
/// guarantees hold only for such boards.
pub trait Board {
    /// The positions the engine should consider, in a stable order.
    spec fn spec_tiles(&self) -> Seq<usize>;

    /// The positions adjacent to `handle`.
    spec fn spec_neighbors(&self, handle: usize) -> Seq<usize>;

    /// Whether the tiles at `a` and `b` belong to the same clearable kind.
    spec fn spec_connects(&self, a: usize, b: usize) -> bool;

    /// Whether the position `handle` currently holds air (is empty). This is
    /// the board's ghost notion of emptiness: banishing empties a position,
    /// gravity only rearranges which positions are empty, and the chain
    /// simulation ends because each of its clearing passes makes at least
    /// one more position empty.
    spec fn spec_is_air(&self, handle: usize) -> bool;

    /// Enumerates all of the tiles in this board.
    ///
    /// Doesn't need to list air tiles, but it shouldn't matter if it does.
    fn tiles(&self) -> (r: Vec<usize>)
        ensures
            r@ == self.spec_tiles(),
    ;

    /// Lists all the neighbors of a tile.
    fn neighbors(&self, handle: usize) -> (r: Vec<usize>)
        ensures
            r@ == self.spec_neighbors(handle),
    ;

    /// Do the tiles at the handles `a` and `b` connect?
    fn connects(&self, a: usize, b: usize) -> (r: bool)
        ensures
            r == self.spec_connects(a, b),
    ;
}

/// The conditions the engine assumes of every board it is given: distinct
/// handles in the enumeration, a symmetric `connects` predicate, and a
/// symmetric adjacency relation. These are obligations on the board
/// implementation, not checked at run time.
pub open spec fn board_wf<B: Board + ?Sized>(board: &B) -> bool {
    &&& board.spec_tiles().no_duplicates()
    &&& forall|a: usize, b: usize|
        #![trigger board.spec_connects(a, b)]
        board.spec_connects(a, b) == board.spec_connects(b, a)
    &&& forall|a: usize, b: usize|
        #![trigger board.spec_neighbors(a).contains(b)]
        board.spec_neighbors(a).contains(b) ==> board.spec_neighbors(b).contains(a)
}

/// A board whose tiles can be banished: removed, leaving air behind.
pub trait BanishBoard: Board {
    /// Removes the tile at `handle`, leaving the position empty. The
    /// position itself survives: the enumeration and the adjacency stay as
    /// they were, but the emptied position no longer connects to anything.
    fn banish(&mut self, handle: usize)
        ensures
            final(self).spec_tiles() == old(self).spec_tiles(),
            forall|h2: usize| #![trigger final(self).spec_neighbors(h2)]
                final(self).spec_neighbors(h2) == old(self).spec_neighbors(h2),
            board_wf(old(self)) ==> board_wf(final(self)),
            final(self).spec_is_air(handle),
            forall|u: usize| #![trigger final(self).spec_is_air(u)]
                u != handle ==> final(self).spec_is_air(u) == old(self).spec_is_air(u),
            forall|x: usize| #![trigger final(self).spec_connects(handle, x)]
                !final(self).spec_connects(handle, x),
            forall|a: usize, b: usize| #![trigger final(self).spec_connects(a, b)]
                a != handle && b != handle
                    ==> final(self).spec_connects(a, b) == old(self).spec_connects(a, b),
    ;
}

/// How many entries of `s` hold a non-air tile on `board`.
pub open spec fn count_solid<B: Board + ?Sized>(board: &B, s: Seq<usize>) -> nat
    decreases s.len(),
{
    if s.len() == 0 {
        0nat
    } else {
        count_solid(board, s.drop_last()) + if board.spec_is_air(s.last()) {
            0nat
        } else {
            1nat
        }
    }
}

/// How many of the board's tiles are not air. Banishing a non-air tile
/// strictly shrinks this measure, and gravity preserves it: the chain
/// simulation loop terminates because of that.
pub open spec fn solid_count<B: Board + ?Sized>(board: &B) -> nat {
    count_solid(board, board.spec_tiles())
}

/// Returns whether `group` lists `handle`.
pub fn contains_handle(group: &Vec<usize>, handle: usize) -> (r: bool)
    ensures
        r == group@.contains(handle),
{
    let mut i: usize = 0;
    while i < group.len()
        invariant
            0 <= i <= group@.len(),
            forall|j: int| 0 <= j < i ==> group@[j] != handle,
        decreases group@.len() - i,
    {
        if group[i] == handle {
            return true;
        }
        i = i + 1;
    }
    false
}

/// An ordered collection of groups, owned by the caller of a grouping pass.
#[derive(Default, Clone)]
pub struct Groups {
    pub groups: Vec<Vec<usize>>,
}

/// A read-only snapshot of groups, used by the pop, nuisance and scoring
/// passes. The engine copies group contents instead of borrowing them;
/// the observable behaviour is the same either way.
#[derive(Default, Clone)]
pub struct RefGroups {
    pub groups: Vec<Vec<usize>>,
}

impl View for Groups {
    type V = Seq<Seq<usize>>;

    open spec fn view(&self) -> Seq<Seq<usize>> {
        self.groups.deep_view()
    }
}

impl View for RefGroups {
    type V = Seq<Seq<usize>>;

    open spec fn view(&self) -> Seq<Seq<usize>> {
        self.groups.deep_view()
    }
}

impl Groups {
    /// Find the first group containing the handle provided, and extract it
    /// from the `Groups`.
    pub fn find(&mut self, handle: usize) -> (r: Option<Vec<usize>>)
        ensures
            match r {
                Some(g) => {
                    &&& exists|i: int|
                        0 <= i < old(self)@.len()
                        && old(self)@[i] == g@
                        && final(self)@ =~= old(self)@.remove(i)
                        && (forall|j: int| 0 <= j < i ==> !old(self)@[j].contains(handle))
                    &&& g@.contains(handle)
                },
                None => {
                    &&& final(self)@ == old(self)@
                    &&& forall|j: int|
                        0 <= j < old(self)@.len() ==> !old(self)@[j].contains(handle)
                },
            },
{
        let mut i: usize = 0;
        while i < self.groups.len()
            invariant
                0 <= i <= self.groups@.len(),
                self@ == old(self)@,
                forall|j: int| 0 <= j < i ==> !self@[j].contains(handle),
            decreases self.groups@.len() - i,
        {
            if contains_handle(&self.groups[i], handle) {
                let g = self.groups.remove(i);
                proof {
                    assert(old(self)@[i as int] == g@);
                    assert(final(self)@ =~= old(self)@.remove(i as int));
                }
                return Some(g);
            }
            i = i + 1;
        }
        None
    }

    /// Add a group into the `Groups`.
    pub fn push(&mut self, group: Vec<usize>)
        ensures
            final(self)@ == old(self)@.push(group@),
    {
        self.groups.push(group);
        proof {
            assert(self@ =~~= old(self)@.push(group@));
        }
    }

    /// Gets a `RefGroups` snapshot of this `Groups`.
    pub fn as_ref(&self) -> (r: RefGroups)
        ensures
            r@ == self@,
    {
        RefGroups { groups: self.groups.clone() }
    }
}

/// The groups of `gs` that have at least `threshold` members, in order.
pub open spec fn popped_view(gs: Seq<Seq<usize>>, threshold: usize) -> Seq<Seq<usize>> {
    gs.filter(|g: Seq<usize>| g.len() >= threshold)
}

impl RefGroups {
    /// Find the first group containing the handle provided, and return a copy
    /// of it.
    pub fn find(&self, handle: usize) -> (r: Option<Vec<usize>>)
        ensures
            match r {
                Some(g) => {
                    &&& exists|i: int|
                        0 <= i < self@.len()
                        && self@[i] == g@
                        && (forall|j: int| 0 <= j < i ==> !self@[j].contains(handle))
                    &&& g@.contains(handle)
                },
                None => forall|j: int|
                    0 <= j < self@.len() ==> !self@[j].contains(handle),
            },
    {
        let mut i: usize = 0;
        while i < self.groups.len()
            invariant
                0 <= i <= self.groups@.len(),
                forall|j: int| 0 <= j < i ==> !self@[j].contains(handle),
            decreases self.groups@.len() - i,
        {
            if contains_handle(&self.groups[i], handle) {
                let g = self.groups[i].clone();
                proof {
                    assert(self@[i as int] =~= g@);
                }
                return Some(g);
            }
            i = i + 1;
        }
        None
    }

    /// Returns `true` if some group contains the handle provided.
    ///
    /// This is how the nuisance pass asks whether a tile sits beside the
    /// current selection.
    pub fn test(&self, handle: usize) -> (r: bool)
        ensures
            r == in_some_group(self@, handle),
    {
        let mut i: usize = 0;
        while i < self.groups.len()
            invariant
                0 <= i <= self.groups@.len(),
                forall|j: int| 0 <= j < i ==> !self@[j].contains(handle),
            decreases self.groups@.len() - i,
        {
            if contains_handle(&self.groups[i], handle) {
                proof {
                    assert(self@[i as int] =~= self.groups@[i as int]@);
                    assert(self@[i as int].contains(handle));
                }
                return true;
            }
            i = i + 1;
        }
        proof {
            if in_some_group(self@, handle) {
                let j = choose|j: int| 0 <= j < self@.len() && #[trigger] self@[j].contains(handle);
                assert(false);
            }
        }
        false
    }

    /// The selection pass: keeps the groups with at least `pieces_to_pop`
    /// members, in their original order. A group is kept exactly when its
    /// size reaches the threshold.
    pub fn owanimo_pop(&self, pieces_to_pop: usize) -> (r: RefGroups)
        ensures
            r@ == popped_view(self@, pieces_to_pop),
    {
        let mut out: Vec<Vec<usize>> = Vec::new();
        let mut i: usize = 0;
        while i < self.groups.len()
            invariant
                0 <= i <= self.groups@.len(),
                out.deep_view() == popped_view(self@.take(i as int), pieces_to_pop),
            decreases self.groups@.len() - i,
        {
            let g = &self.groups[i];
            let ghost pre = out.deep_view();
            if g.len() >= pieces_to_pop {
                out.push(g.clone());
            }
            proof {
                reveal(Seq::filter);
                let prefix = self@.take(i + 1 as int);
                assert(prefix.drop_last() =~= self@.take(i as int));
                assert(prefix.last() == self@[i as int]);
                assert(self@[i as int] =~= g@);
                if g@.len() >= pieces_to_pop {
                    assert(out.deep_view() =~~= pre.push(g@));
                    assert(popped_view(prefix, pieces_to_pop)
                        == popped_view(self@.take(i as int), pieces_to_pop).push(self@[i as int]));
                } else {
                    assert(popped_view(prefix, pieces_to_pop)
                        == popped_view(self@.take(i as int), pieces_to_pop));
                }
            }
            i = i + 1;
        }
        proof {
            assert(self@.take(self@.len() as int) =~= self@);
        }
        RefGroups { groups: out }
    }

    /// Turns this `RefGroups` into an owned `Groups` with the same contents.
    pub fn to_owned(&self) -> (r: Groups)
        ensures
            r@ == self@,
    {
        Groups { groups: self.groups.clone() }
    }
}

/// Calculates a Score from the state of the board and the pieces that have
/// popped.
///
/// A scorer is a pure function of the board snapshot and the cleared groups:
/// each implementation names its result with a `spec` function and promises
/// that `score` computes exactly that.
pub trait Scorer<B: Board> {
    /// The score this scorer assigns, as a mathematical function.
    spec fn spec_score(&self, board: &B, popped: Seq<Seq<usize>>) -> u64;

    /// Computes the score for the cleared groups `popped` on `board`.
    fn score(&self, board: &B, popped: &RefGroups) -> (r: u64)
        ensures
            r == self.spec_score(board, popped@),
    ;
}

impl<B: Board> Scorer<B> for () {
    open spec fn spec_score(&self, board: &B, popped: Seq<Seq<usize>>) -> u64 {
        0u64
    }

    fn score(&self, _board: &B, _popped: &RefGroups) -> u64 {
        0
    }
}

impl<B: Board> Scorer<B> for u64 {
    open spec fn spec_score(&self, board: &B, popped: Seq<Seq<usize>>) -> u64 {
        *self
    }

    fn score(&self, _board: &B, _popped: &RefGroups) -> u64 {
        *self
    }
}

/// The grouping pass: partitions the board's tiles into maximal connected
/// components under the `connects` relation along neighbour edges.
///
/// The result is a family of pairwise disjoint, duplicate-free, nonempty
/// groups whose union is exactly the board's tile enumeration, and two
/// handles share a group exactly when a path of connecting edges joins them.
/// The family's shape is canonical: each group leads with its member that
/// the board enumerates last, and the groups stand in the order of those
/// leading members — so what the standard scorers read (order, sizes, and
/// each group's first member) is determined by the board alone.
pub fn owanimo_grouper<B: Board>(board: &B) -> (r: Groups)
    requires
        board_wf(board),
    ensures
        board.spec_tiles().len() <= usize::MAX,
        groups_disjoint(r@),
        groups_tidy(r@),
        heads_canonical(board.spec_tiles(), r@),
        forall|x: usize| #![trigger in_some_group(r@, x)]
            in_some_group(r@, x) <==> board.spec_tiles().contains(x),
        forall|a: usize, b: usize|
            #![trigger same_group(r@, a, b)]
            #![trigger connected(board, a, b)]
            same_group(r@, a, b) <==> connected(board, a, b),
{
    let tiles = board.tiles();
    let tiles_len = tiles.len();
    proof {
        assert(tiles_len == board.spec_tiles().len());
    }
    let mut groups = Groups { groups: Vec::new() };
    let mut ti: usize = 0;
    while ti < tiles.len()
        invariant
            board_wf(board),
            tiles@ == board.spec_tiles(),
            ti <= tiles@.len(),
            groups_disjoint(groups@),
            groups_tidy(groups@),
            heads_canonical(tiles@, groups@),
            forall|x: usize| #![trigger in_some_group(groups@, x)]
                in_some_group(groups@, x) <==> tiles@.take(ti as int).contains(x),
            forall|j: int, a: usize, b: usize|
                #![trigger groups@[j].contains(a), groups@[j].contains(b)]
                0 <= j < groups@.len() && groups@[j].contains(a) && groups@[j].contains(b)
                    ==> connected(board, a, b),
            forall|a: usize, b: usize| #![trigger edge(board, a, b)]
                tiles@.take(ti as int).contains(a) && tiles@.take(ti as int).contains(b)
                    && edge(board, a, b) ==> same_group(groups@, a, b),
        decreases tiles@.len() - ti,
    {
        let tile = tiles[ti];
        proof {
            if tiles@.take(ti as int).contains(tile) {
                let j = choose|j: int| 0 <= j < ti && tiles@.take(ti as int)[j] == tile;
                assert(tiles@[j] == tiles@[ti as int]);
                assert(false);
            }
        }
        let mut me_group: Vec<usize> = Vec::new();
        me_group.push(tile);
        proof {
            assert(tiles@.contains(tile)) by {
                assert(tiles@[ti as int] == tile);
            }
            lemma_connected_refl(board, tile);
            assert forall|a: usize| me_group@.contains(a)
                implies connected(board, tile, a) by {
                let idx = choose|idx: int| 0 <= idx < me_group@.len() && me_group@[idx] == a;
                assert(me_group@[0] == tile);
            }
        }
        let neigh = board.neighbors(tile);
        let mut ni: usize = 0;
        while ni < neigh.len()
            invariant
                board_wf(board),
                tiles@ == board.spec_tiles(),
                ti < tiles@.len(),
                tile == tiles@[ti as int],
                !tiles@.take(ti as int).contains(tile),
                neigh@ == board.spec_neighbors(tile),
                ni <= neigh@.len(),
                groups_disjoint(groups@),
                groups_tidy(groups@),
                heads_canonical(tiles@, groups@),
                me_group@.no_duplicates(),
                me_group@.contains(tile),
                me_group@[0] == tile,
                forall|x: usize| #![trigger me_group@.contains(x)]
                    me_group@.contains(x) ==> !in_some_group(groups@, x),
                forall|x: usize|
                    #![trigger in_some_group(groups@, x)]
                    #![trigger me_group@.contains(x)]
                    (in_some_group(groups@, x) || me_group@.contains(x))
                        <==> (tiles@.take(ti as int).contains(x) || x == tile),
                forall|j: int, a: usize, b: usize|
                    #![trigger groups@[j].contains(a), groups@[j].contains(b)]
                    0 <= j < groups@.len() && groups@[j].contains(a) && groups@[j].contains(b)
                        ==> connected(board, a, b),
                forall|a: usize| #![trigger me_group@.contains(a)]
                    me_group@.contains(a) ==> connected(board, tile, a),
                forall|a: usize, b: usize| #![trigger edge(board, a, b)]
                    tiles@.take(ti as int).contains(a) && tiles@.take(ti as int).contains(b)
                        && edge(board, a, b)
                        ==> same_group(groups@, a, b)
                            || (me_group@.contains(a) && me_group@.contains(b)),
                forall|k: int| #![trigger neigh@[k]]
                    0 <= k < ni && board.spec_connects(tile, neigh@[k])
                        && tiles@.take(ti as int).contains(neigh@[k])
                        ==> me_group@.contains(neigh@[k]),
            decreases neigh@.len() - ni,
        {
            let n = neigh[ni];
            proof {
                assert(neigh@[ni as int] == n);
                assert(neigh@.contains(n));
            }
            if board.connects(tile, n) {
                let ghost gsnap = groups@;
                let ghost msnap = me_group@;
                let found = groups.find(n);
                match found {
                    Some(mut g) => {
                        let ghost gv = g@;
                        proof {
                            let gi = choose|i: int|
                                0 <= i < gsnap.len() && gsnap[i] == gv
                                && groups@ =~= gsnap.remove(i)
                                && (forall|j: int| 0 <= j < i ==> !gsnap[j].contains(n));
                            // How the indices of the remaining groups relate
                            // to the indices before the extraction.
                            assert forall|j: int| 0 <= j < groups@.len()
                                implies groups@[j] == (if j < gi { gsnap[j] } else { gsnap[j + 1] }) by {
                                assert(groups@ == gsnap.remove(gi));
                            }
                            // The extracted group is disjoint from the group
                            // under construction.
                            assert forall|i: int, j: int|
                                0 <= i < msnap.len() && 0 <= j < gv.len()
                                implies msnap[i] != gv[j] by {
                                assert(msnap.contains(msnap[i]));
                                assert(gsnap[gi].contains(gv[j]));
                                assert(in_some_group(gsnap, gv[j]));
                            }
                            lemma_no_dup_in_concat(msnap, gv);
                            // Every member of the extracted group is connected
                            // to the tile being processed.
                            assert(tiles@.contains(tile)) by {
                                assert(tiles@[ti as int] == tile);
                            }
                            assert(in_some_group(gsnap, n)) by {
                                assert(gsnap[gi].contains(n));
                            }
                            assert(tiles@.take(ti as int).contains(n));
                            assert(tiles@.contains(n)) by {
                                let j = choose|j: int|
                                    0 <= j < ti && tiles@.take(ti as int)[j] == n;
                                assert(tiles@[j] == n);
                            }
                            assert(edge(board, tile, n));
                            lemma_edge_connected(board, tile, n);
                        }
                        me_group.append(&mut g);
                        proof {
                            let gi = choose|i: int|
                                0 <= i < gsnap.len() && gsnap[i] == gv
                                && groups@ =~= gsnap.remove(i)
                                && (forall|j: int| 0 <= j < i ==> !gsnap[j].contains(n));
                            assert(me_group@ == msnap + gv);
                            assert(me_group@[0] == msnap[0]);
                            lemma_heads_remove(tiles@, gsnap, gi);
                            assert(groups@ == gsnap.remove(gi));
                            assert forall|j: int| 0 <= j < groups@.len()
                                implies groups@[j] == (if j < gi { gsnap[j] } else { gsnap[j + 1] }) by {
                                assert(groups@ == gsnap.remove(gi));
                            }
                            assert forall|x: usize| #![trigger me_group@.contains(x)]
                                me_group@.contains(x)
                                implies msnap.contains(x) || gv.contains(x) by {
                                let idx = choose|idx: int|
                                    0 <= idx < me_group@.len() && me_group@[idx] == x;
                                if idx < msnap.len() {
                                    assert(msnap[idx] == x);
                                } else {
                                    assert(gv[idx - msnap.len()] == x);
                                }
                            }
                            // the group under construction stays disjoint
                            // from the remaining groups
                            assert forall|x: usize| #![trigger me_group@.contains(x)]
                                me_group@.contains(x)
                                implies !in_some_group(groups@, x) by {
                                if in_some_group(groups@, x) {
                                    let j = choose|j: int|
                                        0 <= j < groups@.len() && #[trigger] groups@[j].contains(x);
                                    if j < gi {
                                        assert(gsnap[j].contains(x));
                                    } else {
                                        assert(gsnap[j + 1].contains(x));
                                    }
                                    if msnap.contains(x) {
                                        assert(in_some_group(gsnap, x));
                                        assert(false);
                                    } else {
                                        assert(gv.contains(x));
                                        assert(gsnap[gi].contains(x));
                                        assert(false);
                                    }
                                }
                            }
                            // membership bookkeeping
                            assert forall|x: usize|
                                #![trigger in_some_group(groups@, x)]
                                #![trigger me_group@.contains(x)]
                                (in_some_group(groups@, x) || me_group@.contains(x))
                                    <==> (tiles@.take(ti as int).contains(x) || x == tile) by {
                                if in_some_group(groups@, x) {
                                    let j = choose|j: int|
                                        0 <= j < groups@.len() && #[trigger] groups@[j].contains(x);
                                    if j < gi {
                                        assert(gsnap[j].contains(x));
                                    } else {
                                        assert(gsnap[j + 1].contains(x));
                                    }
                                    assert(in_some_group(gsnap, x));
                                }
                                if me_group@.contains(x) {
                                    if msnap.contains(x) {
                                    } else {
                                        assert(gv.contains(x));
                                        assert(gsnap[gi].contains(x));
                                        assert(in_some_group(gsnap, x));
                                    }
                                }
                                if tiles@.take(ti as int).contains(x) || x == tile {
                                    assert(in_some_group(gsnap, x) || msnap.contains(x));
                                    if msnap.contains(x) {
                                        assert(me_group@.contains(x));
                                    } else if in_some_group(gsnap, x) {
                                        let j = choose|j: int|
                                            0 <= j < gsnap.len() && #[trigger] gsnap[j].contains(x);
                                        if j == gi {
                                            assert(gv.contains(x));
                                            let idx = choose|idx: int|
                                                0 <= idx < gv.len() && gv[idx] == x;
                                            assert(me_group@[msnap.len() + idx] == x);
                                            assert(me_group@.contains(x));
                                        } else if j < gi {
                                            assert(groups@[j].contains(x));
                                            assert(in_some_group(groups@, x));
                                        } else {
                                            assert(groups@[j - 1].contains(x));
                                            assert(in_some_group(groups@, x));
                                        }
                                    }
                                }
                            }
                            // connectivity of the group under construction
                            assert forall|a: usize| #![trigger me_group@.contains(a)]
                                me_group@.contains(a)
                                implies connected(board, tile, a) by {
                                if msnap.contains(a) {
                                } else {
                                    assert(gv.contains(a));
                                    assert(gsnap[gi].contains(a));
                                    assert(gsnap[gi].contains(n));
                                    assert(connected(board, n, a));
                                    lemma_connected_trans(board, tile, n, a);
                                }
                            }
                            // saturation: every connecting edge among the
                            // visited tiles still lands in one family member
                            assert forall|a: usize, b: usize| #![trigger edge(board, a, b)]
                                tiles@.take(ti as int).contains(a)
                                    && tiles@.take(ti as int).contains(b)
                                    && edge(board, a, b)
                                implies same_group(groups@, a, b)
                                    || (me_group@.contains(a) && me_group@.contains(b)) by {
                                if same_group(gsnap, a, b) {
                                    let j = choose|j: int|
                                        0 <= j < gsnap.len() && #[trigger] gsnap[j].contains(a)
                                        && gsnap[j].contains(b);
                                    if j == gi {
                                        assert(gv.contains(a) && gv.contains(b));
                                        let ia = choose|idx: int|
                                            0 <= idx < gv.len() && gv[idx] == a;
                                        assert(me_group@[msnap.len() + ia] == a);
                                        let ib = choose|idx: int|
                                            0 <= idx < gv.len() && gv[idx] == b;
                                        assert(me_group@[msnap.len() + ib] == b);
                                        assert(me_group@.contains(a) && me_group@.contains(b));
                                    } else if j < gi {
                                        assert(groups@[j].contains(a) && groups@[j].contains(b));
                                        assert(same_group(groups@, a, b));
                                    } else {
                                        assert(groups@[j - 1].contains(a) && groups@[j - 1].contains(b));
                                        assert(same_group(groups@, a, b));
                                    }
                                } else {
                                    assert(msnap.contains(a) && msnap.contains(b));
                                    assert(me_group@.contains(a) && me_group@.contains(b));
                                }
                            }
                            // soundness carries over to the remaining groups
                            assert forall|j: int, a: usize, b: usize|
                                #![trigger groups@[j].contains(a), groups@[j].contains(b)]
                                0 <= j < groups@.len() && groups@[j].contains(a)
                                    && groups@[j].contains(b)
                                implies connected(board, a, b) by {
                                if j < gi {
                                    assert(gsnap[j].contains(a) && gsnap[j].contains(b));
                                } else {
                                    assert(gsnap[j + 1].contains(a) && gsnap[j + 1].contains(b));
                                }
                            }
                            // the remaining groups stay pairwise disjoint and tidy
                            assert forall|j1: int, j2: int, x: usize|
                                #![trigger groups@[j1].contains(x), groups@[j2].contains(x)]
                                0 <= j1 < groups@.len() && 0 <= j2 < groups@.len() && j1 != j2
                                    && groups@[j1].contains(x)
                                implies !groups@[j2].contains(x) by {
                                let o1: int = if j1 < gi { j1 } else { j1 + 1 };
                                let o2: int = if j2 < gi { j2 } else { j2 + 1 };
                                assert(groups@[j1] == gsnap[o1]);
                                assert(groups@[j2] == gsnap[o2]);
                                assert(o1 != o2);
                            }
                            assert forall|j: int| 0 <= j < groups@.len()
                                implies (#[trigger] groups@[j]).no_duplicates()
                                    && groups@[j].len() >= 1 by {
                                if j < gi {
                                    assert(groups@[j] == gsnap[j]);
                                } else {
                                    assert(groups@[j] == gsnap[j + 1]);
                                }
                            }
                            // the new member list covers the current neighbour
                            assert(gv.contains(n));
                            let idx = choose|idx: int| 0 <= idx < gv.len() && gv[idx] == n;
                            assert(me_group@[msnap.len() + idx] == n);
                            assert(me_group@.contains(n));
                        }
                    },
                    None => {
                        proof {
                            if tiles@.take(ti as int).contains(n) {
                                assert(!in_some_group(groups@, n)) by {
                                    if in_some_group(groups@, n) {
                                        let j = choose|j: int|
                                            0 <= j < groups@.len()
                                            && #[trigger] groups@[j].contains(n);
                                        assert(false);
                                    }
                                }
                                assert(me_group@.contains(n));
                            }
                        }
                    },
                }
            }
            ni = ni + 1;
        }
        let ghost gfam = groups@;
        let ghost mg = me_group@;
        groups.push(me_group);
        proof {
            assert(groups@ == gfam.push(mg));
            assert forall|j: int| 0 <= j < groups@.len()
                implies groups@[j] == (if j < gfam.len() { gfam[j] } else { mg }) by {}
            assert(tiles@.take(ti + 1 as int) =~= tiles@.take(ti as int).push(tile));
            // disjointness with the newly pushed group
            assert forall|j1: int, j2: int, x: usize|
                #![trigger groups@[j1].contains(x), groups@[j2].contains(x)]
                0 <= j1 < groups@.len() && 0 <= j2 < groups@.len() && j1 != j2
                    && groups@[j1].contains(x)
                implies !groups@[j2].contains(x) by {
                if j1 < gfam.len() && j2 < gfam.len() {
                    assert(gfam[j1].contains(x));
                    assert(!gfam[j2].contains(x));
                } else if j1 == gfam.len() {
                    assert(mg.contains(x));
                    assert(!in_some_group(gfam, x));
                    if groups@[j2].contains(x) {
                        assert(gfam[j2].contains(x));
                        assert(in_some_group(gfam, x));
                    }
                } else {
                    assert(gfam[j1].contains(x));
                    assert(in_some_group(gfam, x));
                    if groups@[j2].contains(x) {
                        assert(mg.contains(x));
                        assert(!in_some_group(gfam, x));
                    }
                }
            }
            assert(mg.len() >= 1) by {
                let idx = choose|idx: int| 0 <= idx < mg.len() && mg[idx] == tile;
            }
            // the new group leads with the tile just processed, the latest
            // member in enumeration order, later than every head so far
            lemma_tile_order(tiles@, tile, ti as int);
            assert forall|m: int| 0 <= m < mg.len()
                implies tile_order(tiles@, #[trigger] mg[m]) <= tile_order(tiles@, mg[0]) by {
                assert(mg.contains(mg[m]));
                if mg[m] == tile {
                } else {
                    assert(tiles@.take(ti as int).contains(mg[m]));
                    let i1 = choose|i1: int|
                        0 <= i1 < ti && tiles@.take(ti as int)[i1] == mg[m];
                    assert(tiles@[i1] == mg[m]);
                    lemma_tile_order(tiles@, mg[m], i1);
                }
            }
            assert forall|j: int| #![trigger gfam[j]] 0 <= j < gfam.len()
                implies gfam[j].len() >= 1
                    && tile_order(tiles@, gfam[j][0]) < tile_order(tiles@, mg[0]) by {
                assert(gfam[j].contains(gfam[j][0]));
                assert(in_some_group(gfam, gfam[j][0]));
                assert(tiles@.take(ti as int).contains(gfam[j][0]));
                let i1 = choose|i1: int|
                    0 <= i1 < ti && tiles@.take(ti as int)[i1] == gfam[j][0];
                assert(tiles@[i1] == gfam[j][0]);
                lemma_tile_order(tiles@, gfam[j][0], i1);
            }
            lemma_heads_push(tiles@, gfam, mg);
            // membership after the push
            assert forall|x: usize| #![trigger in_some_group(groups@, x)]
                in_some_group(groups@, x) <==> tiles@.take(ti + 1 as int).contains(x) by {
                if in_some_group(groups@, x) {
                    let j = choose|j: int|
                        0 <= j < groups@.len() && #[trigger] groups@[j].contains(x);
                    if j < gfam.len() {
                        assert(gfam[j].contains(x));
                        assert(in_some_group(gfam, x));
                        assert(tiles@.take(ti as int).contains(x));
                    } else {
                        assert(mg.contains(x));
                        assert(tiles@.take(ti as int).contains(x) || x == tile);
                    }
                    assert(tiles@.take(ti + 1 as int).contains(x));
                }
                if tiles@.take(ti + 1 as int).contains(x) {
                    assert(tiles@.take(ti as int).contains(x) || x == tile);
                    assert(in_some_group(gfam, x) || mg.contains(x));
                    if in_some_group(gfam, x) {
                        let j = choose|j: int|
                            0 <= j < gfam.len() && #[trigger] gfam[j].contains(x);
                        assert(groups@[j].contains(x));
                    } else {
                        assert(groups@[gfam.len() as int].contains(x));
                    }
                    assert(in_some_group(groups@, x));
                }
            }
            // soundness of the pushed group
            assert forall|j: int, a: usize, b: usize|
                #![trigger groups@[j].contains(a), groups@[j].contains(b)]
                0 <= j < groups@.len() && groups@[j].contains(a) && groups@[j].contains(b)
                implies connected(board, a, b) by {
                if j < gfam.len() {
                    assert(gfam[j].contains(a) && gfam[j].contains(b));
                } else {
                    assert(mg.contains(a) && mg.contains(b));
                    assert(connected(board, tile, a));
                    assert(connected(board, tile, b));
                    lemma_connected_sym(board, tile, a);
                    lemma_connected_trans(board, a, tile, b);
                }
            }
            // saturation after the push
            assert forall|a: usize, b: usize| #![trigger edge(board, a, b)]
                tiles@.take(ti + 1 as int).contains(a) && tiles@.take(ti + 1 as int).contains(b)
                    && edge(board, a, b)
                implies same_group(groups@, a, b) by {
                let va = tiles@.take(ti as int).contains(a);
                let vb = tiles@.take(ti as int).contains(b);
                if va && vb {
                    if same_group(gfam, a, b) {
                        let j = choose|j: int|
                            0 <= j < gfam.len() && #[trigger] gfam[j].contains(a)
                            && gfam[j].contains(b);
                        assert(groups@[j].contains(a) && groups@[j].contains(b));
                    } else {
                        assert(mg.contains(a) && mg.contains(b));
                        assert(groups@[gfam.len() as int].contains(a));
                        assert(groups@[gfam.len() as int].contains(b));
                    }
                } else if a == tile && b == tile {
                    assert(groups@[gfam.len() as int].contains(tile));
                } else {
                    // exactly one of the two is the tile just processed;
                    // the other is an already-visited connecting neighbour,
                    // so the inner loop has merged it into the new group
                    let other: usize = if a == tile { b } else { a };
                    assert(edge(board, tile, other)) by {
                        if a == tile {
                        } else {
                            assert(edge(board, a, tile));
                            assert(board.spec_neighbors(a).contains(tile));
                            assert(board.spec_neighbors(tile).contains(a));
                            assert(board.spec_connects(a, tile) == board.spec_connects(tile, a));
                        }
                    }
                    assert(board.spec_neighbors(tile).contains(other));
                    let k = choose|k: int|
                        0 <= k < neigh@.len() && neigh@[k] == other;
                    assert(board.spec_connects(tile, neigh@[k]));
                    assert(tiles@.take(ti as int).contains(neigh@[k]));
                    assert(mg.contains(other));
                    assert(mg.contains(tile));
                    assert(groups@[gfam.len() as int].contains(a));
                    assert(groups@[gfam.len() as int].contains(b));
                }
            }
            assert forall|j: int| 0 <= j < groups@.len()
                implies (#[trigger] groups@[j]).no_duplicates() && groups@[j].len() >= 1 by {
                if j < gfam.len() {
                    assert(groups@[j] == gfam[j]);
                }
            }
        }
        ti = ti + 1;
    }
    proof {
        assert(tiles@.take(tiles@.len() as int) =~= tiles@);
        assert forall|a: usize, b: usize|
            #![trigger same_group(groups@, a, b)]
            #![trigger connected(board, a, b)]
            same_group(groups@, a, b) <==> connected(board, a, b) by {
            if same_group(groups@, a, b) {
                let j = choose|j: int|
                    0 <= j < groups@.len() && #[trigger] groups@[j].contains(a)
                    && groups@[j].contains(b);
                assert(connected(board, a, b));
            }
            if connected(board, a, b) {
                let p = choose|p: Seq<usize>|
                    is_path(board, p) && p.first() == a && p.last() == b;
                assert forall|x: usize| #![trigger in_some_group(groups@, x)]
                    board.spec_tiles().contains(x) implies in_some_group(groups@, x) by {}
                lemma_path_in_same_group(board, groups@, p);
            }
        }
    }
    groups
}

} // verus!
