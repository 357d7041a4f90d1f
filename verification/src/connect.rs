//! Connectivity of tiles under the board's adjacency and `connects`
//! relations, and the spec-level vocabulary for partitions of tiles
//! into groups.

use vstd::prelude::*;
use crate::Board;
use crate::board_wf;

verus! {

/// One step of connectivity: `b` is listed among the neighbours of `a`
/// and the two tiles connect.
pub open spec fn edge<B: Board>(board: &B, a: usize, b: usize) -> bool {
    board.spec_neighbors(a).contains(b) && board.spec_connects(a, b)
}

/// A walk over the board: at least one node, every node a tile, and
/// every consecutive pair joined by an edge.
pub open spec fn is_path<B: Board>(board: &B, p: Seq<usize>) -> bool {
    &&& p.len() >= 1
    &&& forall|i: int| 0 <= i < p.len() ==> board.spec_tiles().contains(#[trigger] p[i])
    &&& forall|i: int| 0 <= i < p.len() - 1 ==> edge(board, #[trigger] p[i], p[i + 1])
}

/// Two tiles are connected when some walk joins them.
pub open spec fn connected<B: Board>(board: &B, x: usize, y: usize) -> bool {
    exists|p: Seq<usize>| is_path(board, p) && p.first() == x && p.last() == y
}

/// Whether some group of `gs` lists `x`.
pub open spec fn in_some_group(gs: Seq<Seq<usize>>, x: usize) -> bool {
    exists|j: int| 0 <= j < gs.len() && #[trigger] gs[j].contains(x)
}

/// Whether one group of `gs` lists both `a` and `b`.
pub open spec fn same_group(gs: Seq<Seq<usize>>, a: usize, b: usize) -> bool {
    exists|j: int| 0 <= j < gs.len() && #[trigger] gs[j].contains(a) && gs[j].contains(b)
}

/// No handle is listed by two distinct groups of `gs`.
pub open spec fn groups_disjoint(gs: Seq<Seq<usize>>) -> bool {
    forall|j1: int, j2: int, x: usize|
        #![trigger gs[j1].contains(x), gs[j2].contains(x)]
        0 <= j1 < gs.len() && 0 <= j2 < gs.len() && j1 != j2 && gs[j1].contains(x)
            ==> !gs[j2].contains(x)
}

/// Every group of `gs` is nonempty and lists each of its handles once.
pub open spec fn groups_tidy(gs: Seq<Seq<usize>>) -> bool {
    forall|j: int| 0 <= j < gs.len() ==> (#[trigger] gs[j]).no_duplicates() && gs[j].len() >= 1
}

/// Whether `gs` is a grouping of `board`'s tiles: a disjoint, tidy family
/// whose union is the board's tile enumeration and whose groups hold two
/// handles together exactly when they are connected.
pub open spec fn is_grouping<B: Board>(board: &B, gs: Seq<Seq<usize>>) -> bool {
    &&& groups_disjoint(gs)
    &&& groups_tidy(gs)
    &&& forall|x: usize| #![trigger in_some_group(gs, x)]
        in_some_group(gs, x) <==> board.spec_tiles().contains(x)
    &&& forall|a: usize, b: usize|
        #![trigger same_group(gs, a, b)]
        #![trigger connected(board, a, b)]
        same_group(gs, a, b) <==> connected(board, a, b)
}

/// The partition the grouping contract describes is canonical: two families
/// that both satisfy it on one board group exactly the same handles
/// together. In particular, the partition the grouping pass computes does
/// not depend on the order in which the board enumerates its tiles: any two
/// runs agree on which handles share a group.
pub proof fn lemma_grouping_canonical<B: Board>(
    board: &B,
    gs1: Seq<Seq<usize>>,
    gs2: Seq<Seq<usize>>,
)
    requires
        is_grouping(board, gs1),
        is_grouping(board, gs2),
    ensures
        forall|a: usize, b: usize|
            #![trigger same_group(gs1, a, b)]
            #![trigger same_group(gs2, a, b)]
            same_group(gs1, a, b) == same_group(gs2, a, b),
{
    assert forall|a: usize, b: usize|
        #![trigger same_group(gs1, a, b)]
        #![trigger same_group(gs2, a, b)]
        same_group(gs1, a, b) == same_group(gs2, a, b) by {
        assert(same_group(gs1, a, b) == connected(board, a, b));
        assert(same_group(gs2, a, b) == connected(board, a, b));
    }
}


/// The position of `x` in the duplicate-free enumeration `tiles`.
pub open spec fn tile_order(tiles: Seq<usize>, x: usize) -> int {
    choose|i: int| 0 <= i < tiles.len() && tiles[i] == x
}

/// In a duplicate-free enumeration the position of an entry is unique.
pub proof fn lemma_tile_order(tiles: Seq<usize>, x: usize, i: int)
    requires
        tiles.no_duplicates(),
        0 <= i < tiles.len(),
        tiles[i] == x,
    ensures
        tile_order(tiles, x) == i,
{
    let i0 = choose|i0: int| 0 <= i0 < tiles.len() && tiles[i0] == x;
    assert(0 <= i0 < tiles.len() && tiles[i0] == x);
    if i0 != i {
        assert(tiles[i0] != tiles[i]);
        assert(false);
    }
}

/// Each group's first member is its latest member in enumeration order, and
/// the groups stand in the order of those first members. Together with the
/// partition this pins everything the standard scorers read: which group
/// comes where, how large it is, and which member leads it.
pub open spec fn heads_canonical(tiles: Seq<usize>, gs: Seq<Seq<usize>>) -> bool {
    &&& forall|j: int, m: int|
        #![trigger gs[j][m]]
        0 <= j < gs.len() && 0 <= m < gs[j].len()
            ==> tile_order(tiles, gs[j][m]) <= tile_order(tiles, gs[j][0])
    &&& forall|j1: int, j2: int|
        #![trigger gs[j1], gs[j2]]
        0 <= j1 < j2 < gs.len()
            ==> tile_order(tiles, gs[j1][0]) < tile_order(tiles, gs[j2][0])
}

/// Taking one group out of a family keeps the heads canonical.
pub proof fn lemma_heads_remove(tiles: Seq<usize>, gs: Seq<Seq<usize>>, i: int)
    requires
        0 <= i < gs.len(),
        heads_canonical(tiles, gs),
    ensures
        heads_canonical(tiles, gs.remove(i)),
{
    let ng = gs.remove(i);
    assert forall|j: int, m: int|
        #![trigger ng[j][m]]
        0 <= j < ng.len() && 0 <= m < ng[j].len()
        implies tile_order(tiles, ng[j][m]) <= tile_order(tiles, ng[j][0]) by {
        if j < i {
            assert(ng[j] == gs[j]);
        } else {
            assert(ng[j] == gs[j + 1]);
        }
    }
    assert forall|j1: int, j2: int|
        #![trigger ng[j1], ng[j2]]
        0 <= j1 < j2 < ng.len()
        implies tile_order(tiles, ng[j1][0]) < tile_order(tiles, ng[j2][0]) by {
        let o1: int = if j1 < i { j1 } else { j1 + 1 };
        let o2: int = if j2 < i { j2 } else { j2 + 1 };
        assert(ng[j1] == gs[o1] && ng[j2] == gs[o2]);
        assert(o1 < o2);
    }
}

/// Appending a group led by a later member than every head so far keeps the
/// heads canonical.
pub proof fn lemma_heads_push(tiles: Seq<usize>, gs: Seq<Seq<usize>>, g: Seq<usize>)
    requires
        heads_canonical(tiles, gs),
        g.len() >= 1,
        forall|m: int| 0 <= m < g.len()
            ==> tile_order(tiles, #[trigger] g[m]) <= tile_order(tiles, g[0]),
        forall|j: int| #![trigger gs[j]]
            0 <= j < gs.len()
                ==> gs[j].len() >= 1 && tile_order(tiles, gs[j][0]) < tile_order(tiles, g[0]),
    ensures
        heads_canonical(tiles, gs.push(g)),
{
    let ng = gs.push(g);
    assert forall|j: int, m: int|
        #![trigger ng[j][m]]
        0 <= j < ng.len() && 0 <= m < ng[j].len()
        implies tile_order(tiles, ng[j][m]) <= tile_order(tiles, ng[j][0]) by {
        if j < gs.len() {
            assert(ng[j] == gs[j]);
        } else {
            assert(ng[j] == g);
        }
    }
    assert forall|j1: int, j2: int|
        #![trigger ng[j1], ng[j2]]
        0 <= j1 < j2 < ng.len()
        implies tile_order(tiles, ng[j1][0]) < tile_order(tiles, ng[j2][0]) by {
        assert(ng[j1] == gs[j1]);
        if j2 < gs.len() {
            assert(ng[j2] == gs[j2]);
        } else {
            assert(ng[j2] == g);
        }
    }
}


/// A handle that heads a group of one head-canonical grouping heads a group
/// of any other head-canonical grouping of the same board.
proof fn lemma_head_exchange<B: Board>(
    board: &B,
    gsa: Seq<Seq<usize>>,
    gsb: Seq<Seq<usize>>,
    x: usize,
)
    requires
        board_wf(board),
        is_grouping(board, gsa),
        is_grouping(board, gsb),
        heads_canonical(board.spec_tiles(), gsa),
        heads_canonical(board.spec_tiles(), gsb),
        exists|j: int| 0 <= j < gsa.len() && (#[trigger] gsa[j])[0] == x,
    ensures
        exists|j: int| 0 <= j < gsb.len() && (#[trigger] gsb[j])[0] == x,
{
    let tiles = board.spec_tiles();
    let j = choose|j: int| 0 <= j < gsa.len() && (#[trigger] gsa[j])[0] == x;
    assert(gsa[j].len() >= 1);
    assert(gsa[j].contains(x));
    assert(in_some_group(gsa, x));
    assert(tiles.contains(x));
    assert(in_some_group(gsb, x));
    let j2 = choose|j2: int| 0 <= j2 < gsb.len() && #[trigger] gsb[j2].contains(x);
    let h = gsb[j2][0];
    assert(gsb[j2].len() >= 1);
    assert(gsb[j2].contains(h));
    // the head of x's group in the other family comes no earlier than x ...
    let m = choose|m: int| 0 <= m < gsb[j2].len() && gsb[j2][m] == x;
    assert(gsb[j2][m] == x);
    assert(tile_order(tiles, x) <= tile_order(tiles, h));
    // ... and no later: it is connected to x, so it sits in x's own group,
    // whose head x is
    assert(same_group(gsb, x, h));
    assert(connected(board, x, h));
    assert(same_group(gsa, x, h));
    let j3 = choose|j3: int|
        0 <= j3 < gsa.len() && #[trigger] gsa[j3].contains(x) && gsa[j3].contains(h);
    assert(j3 == j);
    let m2 = choose|m2: int| 0 <= m2 < gsa[j].len() && gsa[j][m2] == h;
    assert(gsa[j][m2] == h);
    assert(tile_order(tiles, h) <= tile_order(tiles, x));
    // equal positions in a duplicate-free enumeration mean equal handles
    assert(tiles.contains(h)) by {
        assert(in_some_group(gsb, h));
    }
    assert(tiles[tile_order(tiles, x)] == x && 0 <= tile_order(tiles, x) < tiles.len()) by {
        let iw = choose|iw: int| 0 <= iw < tiles.len() && tiles[iw] == x;
        assert(0 <= iw < tiles.len() && tiles[iw] == x);
    }
    assert(tiles[tile_order(tiles, h)] == h && 0 <= tile_order(tiles, h) < tiles.len()) by {
        let iw = choose|iw: int| 0 <= iw < tiles.len() && tiles[iw] == h;
        assert(0 <= iw < tiles.len() && tiles[iw] == h);
    }
    assert(h == x);
    assert(gsb[j2][0] == x);
}

/// Two sequences of tiles that rise strictly in enumeration order and have
/// the same members are equal.
proof fn lemma_sorted_same_members(tiles: Seq<usize>, s1: Seq<usize>, s2: Seq<usize>)
    requires
        tiles.no_duplicates(),
        forall|i: int| 0 <= i < s1.len() ==> tiles.contains(#[trigger] s1[i]),
        forall|i: int| 0 <= i < s2.len() ==> tiles.contains(#[trigger] s2[i]),
        forall|i: int, j: int|
            #![trigger s1[i], s1[j]]
            0 <= i < j < s1.len() ==> tile_order(tiles, s1[i]) < tile_order(tiles, s1[j]),
        forall|i: int, j: int|
            #![trigger s2[i], s2[j]]
            0 <= i < j < s2.len() ==> tile_order(tiles, s2[i]) < tile_order(tiles, s2[j]),
        forall|x: usize| s1.contains(x) == #[trigger] s2.contains(x),
    ensures
        s1 == s2,
    decreases s1.len(),
{
    if s1.len() == 0 {
        if s2.len() > 0 {
            assert(s2.contains(s2[0]));
            assert(s1.contains(s2[0]));
            assert(false);
        }
        assert(s1 =~= s2);
    } else {
        let l1 = s1.last();
        assert(s1.contains(l1));
        assert(s2.contains(l1));
        let l2 = s2.last();
        assert(s2.contains(l2));
        assert(s1.contains(l2));
        // the two last entries have the same position, so they are equal
        let i1 = choose|i1: int| 0 <= i1 < s1.len() && s1[i1] == l2;
        assert(tile_order(tiles, s1[i1]) <= tile_order(tiles, l1));
        let i2 = choose|i2: int| 0 <= i2 < s2.len() && s2[i2] == l1;
        assert(tile_order(tiles, s2[i2]) <= tile_order(tiles, l2));
        assert(tile_order(tiles, l1) == tile_order(tiles, l2));
        assert(tiles[tile_order(tiles, l1)] == l1 && 0 <= tile_order(tiles, l1) < tiles.len())
            by {
            let iw = choose|iw: int| 0 <= iw < tiles.len() && tiles[iw] == l1;
            assert(0 <= iw < tiles.len() && tiles[iw] == l1);
        }
        assert(tiles[tile_order(tiles, l2)] == l2 && 0 <= tile_order(tiles, l2) < tiles.len())
            by {
            let iw = choose|iw: int| 0 <= iw < tiles.len() && tiles[iw] == l2;
            assert(0 <= iw < tiles.len() && tiles[iw] == l2);
        }
        assert(l1 == l2);
        // the remainders have the same members: a member below the top is
        // not the top, since its position is strictly smaller
        let d1 = s1.drop_last();
        let d2 = s2.drop_last();
        assert forall|x: usize| d1.contains(x) == #[trigger] d2.contains(x) by {
            assert forall|x2: usize| d1.contains(x2)
                implies #[trigger] s1.contains(x2) && x2 != l1 by {
                let i = choose|i: int| 0 <= i < d1.len() && d1[i] == x2;
                assert(s1[i] == x2);
                assert(tile_order(tiles, s1[i]) < tile_order(tiles, l1));
            }
            assert forall|x2: usize| d2.contains(x2)
                implies #[trigger] s2.contains(x2) && x2 != l2 by {
                let i = choose|i: int| 0 <= i < d2.len() && d2[i] == x2;
                assert(s2[i] == x2);
                assert(tile_order(tiles, s2[i]) < tile_order(tiles, l2));
            }
            if s1.contains(x) && x != l1 {
                let i = choose|i: int| 0 <= i < s1.len() && s1[i] == x;
                assert(i < s1.len() - 1);
                assert(d1[i] == x);
                assert(d1.contains(x));
            }
            if s2.contains(x) && x != l2 {
                let i = choose|i: int| 0 <= i < s2.len() && s2[i] == x;
                assert(i < s2.len() - 1);
                assert(d2[i] == x);
                assert(d2.contains(x));
            }
        }
        assert forall|i: int| 0 <= i < d1.len() implies tiles.contains(#[trigger] d1[i]) by {
            assert(d1[i] == s1[i]);
        }
        assert forall|i: int| 0 <= i < d2.len() implies tiles.contains(#[trigger] d2[i]) by {
            assert(d2[i] == s2[i]);
        }
        lemma_sorted_same_members(tiles, d1, d2);
        assert(d1.len() == d2.len());
        assert(s1.len() == s2.len());
        assert forall|i: int| 0 <= i < s1.len() implies s1[i] == s2[i] by {
            if i < s1.len() - 1 {
                assert(d1[i] == s1[i]);
                assert(d2[i] == s2[i]);
                assert(d1[i] == d2[i]);
            } else {
                assert(s1[i] == l1 && s2[i] == l2);
            }
        }
        assert(s1 =~= s2);
    }
}

/// On one board, the head-canonical grouping is unique in all the standard
/// scorers can read: two such families have the same length, and group for
/// group the same leading member, the same member set and the same size.
/// Scoring is therefore determined by the board alone.
pub proof fn lemma_grouping_deterministic<B: Board>(
    board: &B,
    gs1: Seq<Seq<usize>>,
    gs2: Seq<Seq<usize>>,
)
    requires
        board_wf(board),
        is_grouping(board, gs1),
        is_grouping(board, gs2),
        heads_canonical(board.spec_tiles(), gs1),
        heads_canonical(board.spec_tiles(), gs2),
    ensures
        gs1.len() == gs2.len(),
        forall|j: int|
            #![trigger gs1[j]]
            #![trigger gs2[j]]
            0 <= j < gs1.len()
                ==> gs1[j][0] == gs2[j][0] && gs1[j].to_set() == gs2[j].to_set()
                    && gs1[j].len() == gs2[j].len(),
{
    let tiles = board.spec_tiles();
    let hs1 = Seq::new(gs1.len(), |j: int| gs1[j][0]);
    let hs2 = Seq::new(gs2.len(), |j: int| gs2[j][0]);
    assert forall|i: int| 0 <= i < hs1.len() implies tiles.contains(#[trigger] hs1[i]) by {
        assert(gs1[i].len() >= 1);
        assert(gs1[i].contains(gs1[i][0]));
        assert(in_some_group(gs1, gs1[i][0]));
    }
    assert forall|i: int| 0 <= i < hs2.len() implies tiles.contains(#[trigger] hs2[i]) by {
        assert(gs2[i].len() >= 1);
        assert(gs2[i].contains(gs2[i][0]));
        assert(in_some_group(gs2, gs2[i][0]));
    }
    assert forall|i: int, j: int|
        #![trigger hs1[i], hs1[j]]
        0 <= i < j < hs1.len()
        implies tile_order(tiles, hs1[i]) < tile_order(tiles, hs1[j]) by {
        assert(tile_order(tiles, gs1[i][0]) < tile_order(tiles, gs1[j][0]));
    }
    assert forall|i: int, j: int|
        #![trigger hs2[i], hs2[j]]
        0 <= i < j < hs2.len()
        implies tile_order(tiles, hs2[i]) < tile_order(tiles, hs2[j]) by {
        assert(tile_order(tiles, gs2[i][0]) < tile_order(tiles, gs2[j][0]));
    }
    assert forall|x: usize| hs1.contains(x) == #[trigger] hs2.contains(x) by {
        if hs1.contains(x) {
            let i = choose|i: int| 0 <= i < hs1.len() && hs1[i] == x;
            assert(gs1[i][0] == x);
            lemma_head_exchange(board, gs1, gs2, x);
            let j = choose|j: int| 0 <= j < gs2.len() && (#[trigger] gs2[j])[0] == x;
            assert(hs2[j] == x);
        }
        if hs2.contains(x) {
            let i = choose|i: int| 0 <= i < hs2.len() && hs2[i] == x;
            assert(gs2[i][0] == x);
            lemma_head_exchange(board, gs2, gs1, x);
            let j = choose|j: int| 0 <= j < gs1.len() && (#[trigger] gs1[j])[0] == x;
            assert(hs1[j] == x);
        }
    }
    lemma_sorted_same_members(tiles, hs1, hs2);
    assert(gs1.len() == gs2.len());
    assert forall|j: int|
        #![trigger gs1[j]]
        #![trigger gs2[j]]
        0 <= j < gs1.len()
        implies gs1[j][0] == gs2[j][0] && gs1[j].to_set() == gs2[j].to_set()
            && gs1[j].len() == gs2[j].len() by {
        assert(hs1[j] == hs2[j]);
        let h = gs1[j][0];
        assert(gs2[j][0] == h);
        assert(gs1[j].len() >= 1 && gs2[j].len() >= 1);
        // both groups hold exactly the component of their shared head
        assert forall|y: usize| gs1[j].contains(y) == #[trigger] gs2[j].contains(y) by {
            if gs1[j].contains(y) {
                assert(gs1[j].contains(h));
                assert(same_group(gs1, h, y));
                assert(connected(board, h, y));
                assert(same_group(gs2, h, y));
                let jb = choose|jb: int|
                    0 <= jb < gs2.len() && #[trigger] gs2[jb].contains(h) && gs2[jb].contains(y);
                assert(gs2[j].contains(h));
                assert(jb == j);
            }
            if gs2[j].contains(y) {
                assert(gs2[j].contains(h));
                assert(same_group(gs2, h, y));
                assert(connected(board, h, y));
                assert(same_group(gs1, h, y));
                let ja = choose|ja: int|
                    0 <= ja < gs1.len() && #[trigger] gs1[ja].contains(h) && gs1[ja].contains(y);
                assert(gs1[j].contains(h));
                assert(ja == j);
            }
        }
        assert(gs1[j].to_set() =~= gs2[j].to_set());
        gs1[j].unique_seq_to_set();
        gs2[j].unique_seq_to_set();
    }
}

/// A tile is connected to itself.
pub proof fn lemma_connected_refl<B: Board>(board: &B, x: usize)
    requires
        board.spec_tiles().contains(x),
    ensures
        connected(board, x, x),
{
    let p = seq![x];
    assert(is_path(board, p));
    assert(p.first() == x && p.last() == x);
}

/// An edge between two tiles makes them connected.
pub proof fn lemma_edge_connected<B: Board>(board: &B, x: usize, y: usize)
    requires
        board.spec_tiles().contains(x),
        board.spec_tiles().contains(y),
        edge(board, x, y),
    ensures
        connected(board, x, y),
{
    let p = seq![x, y];
    assert(p[0] == x && p[1] == y);
    assert(is_path(board, p));
    assert(p.first() == x && p.last() == y);
}

/// On a well-formed board, connectivity is symmetric.
pub proof fn lemma_connected_sym<B: Board>(board: &B, x: usize, y: usize)
    requires
        board_wf(board),
        connected(board, x, y),
    ensures
        connected(board, y, x),
{
    let p = choose|p: Seq<usize>| is_path(board, p) && p.first() == x && p.last() == y;
    let q = p.reverse();
    assert(q.len() == p.len());
    assert forall|i: int| 0 <= i < q.len() implies board.spec_tiles().contains(#[trigger] q[i]) by {
        assert(q[i] == p[p.len() - 1 - i]);
    }
    assert forall|i: int| 0 <= i < q.len() - 1 implies edge(board, #[trigger] q[i], q[i + 1]) by {
        let k = p.len() - 1 - i;
        assert(q[i] == p[k] && q[i + 1] == p[k - 1]);
        assert(edge(board, p[k - 1], p[k]));
        assert(board.spec_neighbors(p[k - 1]).contains(p[k]));
        assert(board.spec_neighbors(p[k]).contains(p[k - 1]));
        assert(board.spec_connects(p[k - 1], p[k]) == board.spec_connects(p[k], p[k - 1]));
    }
    assert(is_path(board, q));
    assert(q.first() == p.last() && q.last() == p.first());
}

/// Connectivity is transitive.
pub proof fn lemma_connected_trans<B: Board>(board: &B, x: usize, y: usize, z: usize)
    requires
        connected(board, x, y),
        connected(board, y, z),
    ensures
        connected(board, x, z),
{
    let p = choose|p: Seq<usize>| is_path(board, p) && p.first() == x && p.last() == y;
    let q = choose|q: Seq<usize>| is_path(board, q) && q.first() == y && q.last() == z;
    let r = p + q.drop_first();
    assert(r.len() == p.len() + q.len() - 1);
    assert forall|i: int| 0 <= i < r.len() implies board.spec_tiles().contains(#[trigger] r[i]) by {
        if i < p.len() {
            assert(r[i] == p[i]);
        } else {
            assert(r[i] == q[i - p.len() + 1]);
        }
    }
    assert forall|i: int| 0 <= i < r.len() - 1 implies edge(board, #[trigger] r[i], r[i + 1]) by {
        if i + 1 < p.len() {
            assert(r[i] == p[i] && r[i + 1] == p[i + 1]);
            assert(edge(board, p[i], p[i + 1]));
        } else if i + 1 == p.len() {
            assert(r[i] == p[p.len() - 1]);
            assert(p.last() == y && q.first() == y);
            assert(r[i] == y);
            assert(r[i + 1] == q[1]);
            assert(edge(board, q[0], q[1]));
        } else {
            let k = i - p.len() + 1;
            assert(r[i] == q[k] && r[i + 1] == q[k + 1]);
            assert(edge(board, q[k], q[k + 1]));
        }
    }
    assert(is_path(board, r));
    assert(r.first() == x);
    assert(r.last() == q.last());
}

/// In a disjoint family of groups, sharing a group is transitive.
pub proof fn lemma_same_group_trans(gs: Seq<Seq<usize>>, a: usize, b: usize, c: usize)
    requires
        groups_disjoint(gs),
        same_group(gs, a, b),
        same_group(gs, b, c),
    ensures
        same_group(gs, a, c),
{
    let j1 = choose|j: int| 0 <= j < gs.len() && #[trigger] gs[j].contains(a) && gs[j].contains(b);
    let j2 = choose|j: int| 0 <= j < gs.len() && #[trigger] gs[j].contains(b) && gs[j].contains(c);
    if j1 != j2 {
        assert(gs[j1].contains(b));
        assert(!gs[j2].contains(b));
        assert(false);
    }
    assert(gs[j1].contains(a) && gs[j1].contains(c));
}

/// When a disjoint family of groups covers all tiles and holds the two ends
/// of every edge together, it holds the two ends of every walk together.
pub proof fn lemma_path_in_same_group<B: Board>(board: &B, gs: Seq<Seq<usize>>, p: Seq<usize>)
    requires
        is_path(board, p),
        groups_disjoint(gs),
        forall|x: usize| #![trigger in_some_group(gs, x)]
            board.spec_tiles().contains(x) ==> in_some_group(gs, x),
        forall|a: usize, b: usize| #![trigger edge(board, a, b)]
            board.spec_tiles().contains(a) && board.spec_tiles().contains(b)
                && edge(board, a, b) ==> same_group(gs, a, b),
    ensures
        same_group(gs, p.first(), p.last()),
    decreases p.len(),
{
    if p.len() == 1 {
        assert(board.spec_tiles().contains(p[0]));
        assert(in_some_group(gs, p[0]));
        let j = choose|j: int| 0 <= j < gs.len() && #[trigger] gs[j].contains(p[0]);
        assert(gs[j].contains(p.first()) && gs[j].contains(p.last()));
    } else {
        let q = p.drop_last();
        assert(q.len() == p.len() - 1);
        assert forall|i: int| 0 <= i < q.len() implies board.spec_tiles().contains(#[trigger] q[i]) by {
            assert(q[i] == p[i]);
        }
        assert forall|i: int| 0 <= i < q.len() - 1 implies edge(board, #[trigger] q[i], q[i + 1]) by {
            assert(q[i] == p[i] && q[i + 1] == p[i + 1]);
            assert(edge(board, p[i], p[i + 1]));
        }
        assert(is_path(board, q));
        lemma_path_in_same_group(board, gs, q);
        let n = p.len() - 1;
        assert(q.last() == p[n - 1]);
        assert(edge(board, p[n - 1], p[n]));
        assert(board.spec_tiles().contains(p[n - 1]) && board.spec_tiles().contains(p[n]));
        assert(same_group(gs, p[n - 1], p[n]));
        lemma_same_group_trans(gs, p.first(), p[n - 1], p[n]);
    }
}

} // verus!
