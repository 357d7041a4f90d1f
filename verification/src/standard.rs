//! The standard scoring system: composable scorers over the cleared groups,
//! table-driven bonuses, and the nuisance-expansion pass.

use vstd::prelude::*;
use crate::{Board, RefGroups, Scorer};
use crate::connect::in_some_group;

verus! {

/// `a + b`, clamped to the largest score.
pub open spec fn sat_add(a: u64, b: u64) -> u64 {
    if a + b > u64::MAX {
        u64::MAX
    } else {
        (a + b) as u64
    }
}

/// `a * b`, clamped to the largest score.
pub open spec fn sat_mul(a: u64, b: u64) -> u64 {
    if a * b > u64::MAX {
        u64::MAX
    } else {
        (a * b) as u64
    }
}

/// Computes `a + b`, clamped to the largest score.
pub fn add_sat(a: u64, b: u64) -> (r: u64)
    ensures
        r == sat_add(a, b),
{
    a.saturating_add(b)
}

/// Computes `a * b`, clamped to the largest score.
pub fn mul_sat(a: u64, b: u64) -> (r: u64)
    ensures
        r == sat_mul(a, b),
{
    match a.checked_mul(b) {
        Some(v) => v,
        None => u64::MAX,
    }
}

/// A bonus table lookup: the entry at `i` when in range, the last entry when
/// beyond the end, and zero when the table is empty. Lookups never fail.
pub open spec fn clamp_lookup(table: Seq<u64>, i: int) -> u64 {
    if table.len() == 0 {
        0u64
    } else if 0 <= i < table.len() {
        table[i]
    } else {
        table[table.len() - 1]
    }
}

/// Looks `index` up in `table`, clamping to the last entry and yielding zero
/// on an empty table.
pub fn table_lookup(table: &[u64], index: usize) -> (r: u64)
    ensures
        r == clamp_lookup(table@, index as int),
{
    if table.len() == 0 {
        0
    } else if index < table.len() {
        table[index]
    } else {
        table[table.len() - 1]
    }
}

/// Display the score as a pair; multiply the two numbers together to get the
/// actual score.
///
/// The first number is ten points a cleared piece plus the point bonus; the
/// second is the sum of the chain, colour and group bonuses. All arithmetic
/// clamps at the largest score instead of wrapping.
///
/// Make sure you filter `popped` down to the groups actually popped when
/// using the standard scorers. Feel free to use `&()` or a bare `u64` as a
/// scorer.
pub fn score<B: Board, PC: Scorer<B>, PB: Scorer<B>, CP: Scorer<B>, CB: Scorer<B>, GB: Scorer<B>>(
    board: &B,
    popped: &RefGroups,
    pieces_cleared: &PC,
    point_bonus: &PB,
    chain_power: &CP,
    color_bonus: &CB,
    group_bonus: &GB,
) -> (r: (u64, u64))
    ensures
        r.0 == sat_add(
            sat_mul(10, pieces_cleared.spec_score(board, popped@)),
            point_bonus.spec_score(board, popped@),
        ),
        r.1 == sat_add(
            sat_add(
                chain_power.spec_score(board, popped@),
                color_bonus.spec_score(board, popped@),
            ),
            group_bonus.spec_score(board, popped@),
        ),
{
    let base = add_sat(
        mul_sat(10, pieces_cleared.score(board, popped)),
        point_bonus.score(board, popped),
    );
    let multiplier = add_sat(
        add_sat(chain_power.score(board, popped), color_bonus.score(board, popped)),
        group_bonus.score(board, popped),
    );
    (base, multiplier)
}

/// The standard combined scorer: base points times a combined multiplier.
pub struct StandardScorer<
    'a,
    B: Board,
    PC: Scorer<B>,
    PB: Scorer<B>,
    CP: Scorer<B>,
    CB: Scorer<B>,
    GB: Scorer<B>,
> {
    pub pieces_cleared: &'a PC,
    pub point_bonus: &'a PB,
    pub chain_power: &'a CP,
    pub color_bonus: &'a CB,
    pub group_bonus: &'a GB,
    pub phantom: core::marker::PhantomData<B>,
}

impl<
    'a,
    B: Board,
    PC: Scorer<B>,
    PB: Scorer<B>,
    CP: Scorer<B>,
    CB: Scorer<B>,
    GB: Scorer<B>,
> Scorer<B> for StandardScorer<'a, B, PC, PB, CP, CB, GB> {
    open spec fn spec_score(&self, board: &B, popped: Seq<Seq<usize>>) -> u64 {
        sat_mul(
            sat_add(
                sat_mul(10, self.pieces_cleared.spec_score(board, popped)),
                self.point_bonus.spec_score(board, popped),
            ),
            sat_add(
                sat_add(
                    self.chain_power.spec_score(board, popped),
                    self.color_bonus.spec_score(board, popped),
                ),
                self.group_bonus.spec_score(board, popped),
            ),
        )
    }

    fn score(&self, board: &B, popped: &RefGroups) -> u64 {
        let (a, b) = score(
            board,
            popped,
            self.pieces_cleared,
            self.point_bonus,
            self.chain_power,
            self.color_bonus,
            self.group_bonus,
        );
        mul_sat(a, b)
    }
}

/// The total number of pieces in the groups, clamped to the largest score.
pub open spec fn spec_pieces_cleared(gs: Seq<Seq<usize>>) -> u64
    decreases gs.len(),
{
    if gs.len() == 0 {
        0u64
    } else {
        sat_add(spec_pieces_cleared(gs.drop_last()), gs.last().len() as u64)
    }
}

/// Counts a cleared piece for every member of every group.
///
/// Note that if you use special pieces that are worth more, you should
/// implement your own scorer here.
pub struct TrivialPiecesCleared;

impl<B: Board> Scorer<B> for TrivialPiecesCleared {
    open spec fn spec_score(&self, board: &B, popped: Seq<Seq<usize>>) -> u64 {
        spec_pieces_cleared(popped)
    }

    fn score(&self, _board: &B, popped: &RefGroups) -> u64 {
        let mut total: u64 = 0;
        let mut i: usize = 0;
        while i < popped.groups.len()
            invariant
                0 <= i <= popped.groups@.len(),
                total == spec_pieces_cleared(popped@.take(i as int)),
            decreases popped.groups@.len() - i,
        {
            let ghost pre = popped@.take(i as int);
            total = add_sat(total, popped.groups[i].len() as u64);
            proof {
                let prefix = popped@.take(i + 1 as int);
                assert(prefix.drop_last() =~= pre);
                assert(prefix.last() == popped@[i as int]);
                assert(popped@[i as int].len() == popped.groups@[i as int]@.len());
            }
            i = i + 1;
        }
        proof {
            assert(popped@.take(popped@.len() as int) =~= popped@);
        }
        total
    }
}

/// A board that can name a colour for (some of) its tiles.
///
/// A colour is an opaque small token, like a handle.
pub trait ColorBoard: Board {
    /// The colour of the tile at `handle`, when it has one.
    spec fn spec_color(&self, handle: usize) -> Option<usize>;

    /// The colour of the tile at `handle`, when it has one.
    fn color(&self, handle: usize) -> (r: Option<usize>)
        ensures
            r == self.spec_color(handle),
    ;
}

/// A set of distinct values, backed by a `hashbrown::HashSet`. The verifier
/// sees the set only through `distinct_view` and the wrappers below.
#[verifier::external_body]
pub struct DistinctSet {
    set: hashbrown::HashSet<usize>,
}

/// The distinct values a `DistinctSet` holds.
pub uninterp spec fn distinct_view(s: DistinctSet) -> Set<usize>;

/// Relies on hashbrown::HashSet::new: creates an empty set.
#[verifier::external_body]
fn distinct_new() -> (r: DistinctSet)
    ensures
        distinct_view(r) == Set::<usize>::empty(),
{
    DistinctSet { set: hashbrown::HashSet::new() }
}

/// Relies on hashbrown::HashSet::insert: afterward the set holds `v` along
/// with everything it already held.
#[verifier::external_body]
fn distinct_insert(s: &mut DistinctSet, v: usize)
    ensures
        distinct_view(*final(s)) == distinct_view(*old(s)).insert(v),
{
    s.set.insert(v);
}

/// Relies on hashbrown::HashSet::len: the number of distinct values held.
#[verifier::external_body]
fn distinct_len(s: &DistinctSet) -> (r: usize)
    ensures
        r == distinct_view(*s).len(),
{
    s.set.len()
}

/// The colours of the lead (first) members of the groups: the set of colours
/// `c` such that some group's first member has colour `c`.
pub open spec fn first_colors<B: ColorBoard>(board: &B, gs: Seq<Seq<usize>>) -> Set<usize> {
    Set::new(
        |c: usize|
            exists|j: int|
                0 <= j < gs.len() && (#[trigger] gs[j]).len() > 0
                    && board.spec_color(gs[j][0]) == Some(c),
    )
}

/// A colour bonus read from a table, indexed by how many distinct colours
/// appear among the cleared groups.
///
/// Note: only checks the first member of every group.
pub struct ColorBonusTable<'a> {
    pub table: &'a [u64],
}

impl<'a, B: ColorBoard> Scorer<B> for ColorBonusTable<'a> {
    open spec fn spec_score(&self, board: &B, popped: Seq<Seq<usize>>) -> u64 {
        clamp_lookup(self.table@, first_colors(board, popped).len() as int)
    }

    fn score(&self, board: &B, popped: &RefGroups) -> u64 {
        let mut colors = distinct_new();
        let mut i: usize = 0;
        proof {
            assert(distinct_view(colors) =~= first_colors(board, popped@.take(0)));
        }
        while i < popped.groups.len()
            invariant
                0 <= i <= popped.groups@.len(),
                distinct_view(colors) == first_colors(board, popped@.take(i as int)),
                distinct_view(colors).finite(),
            decreases popped.groups@.len() - i,
        {
            let ghost pre = distinct_view(colors);
            let g = &popped.groups[i];
            if g.len() > 0 {
                match board.color(g[0]) {
                    Some(c) => {
                        distinct_insert(&mut colors, c);
                    },
                    None => {},
                }
            }
            proof {
                let prefix = popped@.take(i + 1 as int);
                assert(popped@[i as int] =~= g@);
                assert forall|c: usize|
                    first_colors(board, prefix).contains(c)
                    == distinct_view(colors).contains(c) by {
                    if first_colors(board, prefix).contains(c) {
                        let j = choose|j: int|
                            0 <= j < prefix.len() && (#[trigger] prefix[j]).len() > 0
                                && board.spec_color(prefix[j][0]) == Some(c);
                        if j < i {
                            assert(popped@.take(i as int)[j] == prefix[j]);
                            assert(first_colors(board, popped@.take(i as int)).contains(c));
                            assert(pre.contains(c));
                        } else {
                            assert(prefix[j] == g@);
                        }
                    }
                    if distinct_view(colors).contains(c) {
                        if pre.contains(c) {
                            let j = choose|j: int|
                                0 <= j < i && (#[trigger] popped@.take(i as int)[j]).len() > 0
                                    && board.spec_color(popped@.take(i as int)[j][0]) == Some(c);
                            assert(prefix[j] == popped@.take(i as int)[j]);
                            assert((prefix[j]).len() > 0
                                && board.spec_color(prefix[j][0]) == Some(c));
                        } else {
                            assert(g@.len() > 0 && board.spec_color(g@[0]) == Some(c));
                            assert(prefix[i as int] == g@);
                            assert((prefix[i as int]).len() > 0
                                && board.spec_color(prefix[i as int][0]) == Some(c));
                        }
                    }
                }
                assert(distinct_view(colors) =~= first_colors(board, prefix));
            }
            i = i + 1;
        }
        proof {
            assert(popped@.take(popped@.len() as int) =~= popped@);
        }
        let n = distinct_len(&colors);
        table_lookup(self.table, n)
    }
}

/// A board that opts groups in or out of the group-size bonus.
pub trait GroupBoard: Board {
    /// Whether this group counts toward the group bonus.
    spec fn spec_consider(&self, group: Seq<usize>) -> bool;

    /// Whether this group counts toward the group bonus.
    fn consider_for_group_bonus(&self, group: &Vec<usize>) -> (r: bool)
        ensures
            r == self.spec_consider(group@),
    ;
}

/// A colour board whose group-bonus rule is "the group's first member has a
/// colour". Implement this marker to get that `GroupBoard` behaviour.
pub trait GroupFromColorBoard: ColorBoard {

}

impl<T: GroupFromColorBoard> GroupBoard for T {
    open spec fn spec_consider(&self, group: Seq<usize>) -> bool {
        group.len() > 0 && self.spec_color(group[0]) is Some
    }

    fn consider_for_group_bonus(&self, group: &Vec<usize>) -> bool {
        if group.len() > 0 {
            match self.color(group[0]) {
                Some(_) => true,
                None => false,
            }
        } else {
            false
        }
    }
}

/// The group bonus: for every considered group, the table entry indexed by
/// the group's size, all summed with clamping.
pub open spec fn spec_group_bonus<B: GroupBoard>(
    board: &B,
    table: Seq<u64>,
    gs: Seq<Seq<usize>>,
) -> u64
    decreases gs.len(),
{
    if gs.len() == 0 {
        0u64
    } else {
        let rest = spec_group_bonus(board, table, gs.drop_last());
        if board.spec_consider(gs.last()) {
            sat_add(rest, clamp_lookup(table, gs.last().len() as int))
        } else {
            rest
        }
    }
}

/// A group-size bonus read from a table, summed over the groups the board
/// opts in.
pub struct GroupBonusTable<'a> {
    pub table: &'a [u64],
}

impl<'a, B: GroupBoard> Scorer<B> for GroupBonusTable<'a> {
    open spec fn spec_score(&self, board: &B, popped: Seq<Seq<usize>>) -> u64 {
        spec_group_bonus(board, self.table@, popped)
    }

    fn score(&self, board: &B, popped: &RefGroups) -> u64 {
        let mut total: u64 = 0;
        let mut i: usize = 0;
        while i < popped.groups.len()
            invariant
                0 <= i <= popped.groups@.len(),
                total == spec_group_bonus(board, self.table@, popped@.take(i as int)),
            decreases popped.groups@.len() - i,
        {
            let g = &popped.groups[i];
            let ghost pre = popped@.take(i as int);
            if board.consider_for_group_bonus(g) {
                total = add_sat(total, table_lookup(self.table, g.len()));
            }
            proof {
                let prefix = popped@.take(i + 1 as int);
                assert(prefix.drop_last() =~= pre);
                assert(prefix.last() =~= g@);
            }
            i = i + 1;
        }
        proof {
            assert(popped@.take(popped@.len() as int) =~= popped@);
        }
        total
    }
}

/// A board that marks nuisance tiles: tiles cleared only by standing beside
/// a cleared group, never by grouping of their own.
pub trait NuisanceBoard: Board {
    /// Whether the tile at `handle` is a nuisance tile.
    spec fn spec_nuisance(&self, handle: usize) -> bool;

    /// Will this tile be cleared when a neighbouring tile is cleared?
    fn nuisance(&self, handle: usize) -> (r: bool)
        ensures
            r == self.spec_nuisance(handle),
    ;
}

/// The singleton groups the nuisance pass appends: one for every tile of
/// `tiles` that is a nuisance tile with at least one neighbour inside the
/// selection, in enumeration order.
pub open spec fn nuisance_added_over<B: NuisanceBoard>(
    board: &B,
    selected: Seq<Seq<usize>>,
    tiles: Seq<usize>,
) -> Seq<Seq<usize>> {
    tiles.filter(
        |p: usize|
            board.spec_nuisance(p) && exists|k: int|
                0 <= k < board.spec_neighbors(p).len()
                    && in_some_group(selected, #[trigger] board.spec_neighbors(p)[k]),
    ).map_values(|p: usize| seq![p])
}

/// The singleton groups the nuisance pass appends to `selected` on `board`.
pub open spec fn nuisance_added<B: NuisanceBoard>(
    board: &B,
    selected: Seq<Seq<usize>>,
) -> Seq<Seq<usize>> {
    nuisance_added_over(board, selected, board.spec_tiles())
}

/// Returns whether some handle of `handles` lies in some group of `sel`.
fn any_in_selection(sel: &RefGroups, handles: &Vec<usize>) -> (r: bool)
    ensures
        r == exists|k: int|
            0 <= k < handles@.len() && in_some_group(sel@, #[trigger] handles@[k]),
{
    let mut k: usize = 0;
    while k < handles.len()
        invariant
            0 <= k <= handles@.len(),
            forall|k2: int| 0 <= k2 < k ==> !in_some_group(sel@, #[trigger] handles@[k2]),
        decreases handles@.len() - k,
    {
        if sel.test(handles[k]) {
            proof {
                assert(in_some_group(sel@, handles@[k as int]));
            }
            return true;
        }
        k = k + 1;
    }
    false
}

impl RefGroups {
    /// The nuisance pass: appends, after the selected groups, a fresh
    /// singleton group for every nuisance tile with at least one neighbour
    /// inside the original selection.
    ///
    /// Membership is tested against the selection this pass was given, never
    /// against the singletons it adds: a nuisance tile whose only cleared
    /// neighbour is another freshly added nuisance tile is not included.
    pub fn owanimo_nuisance<B: NuisanceBoard>(&self, board: &B) -> (r: RefGroups)
        ensures
            r@ == self@ + nuisance_added(board, self@),
    {
        let mut out: Vec<Vec<usize>> = self.groups.clone();
        let tiles = board.tiles();
        let mut ti: usize = 0;
        proof {
            assert(out.deep_view() =~~= self@ + nuisance_added_over(
                board,
                self@,
                tiles@.take(0),
            ));
        }
        while ti < tiles.len()
            invariant
                tiles@ == board.spec_tiles(),
                0 <= ti <= tiles@.len(),
                out.deep_view() == self@ + nuisance_added_over(
                    board,
                    self@,
                    tiles@.take(ti as int),
                ),
            decreases tiles@.len() - ti,
        {
            let ghost pre = out.deep_view();
            let p = tiles[ti];
            let mut added = false;
            if board.nuisance(p) {
                let neigh = board.neighbors(p);
                if any_in_selection(self, &neigh) {
                    let mut single: Vec<usize> = Vec::new();
                    single.push(p);
                    out.push(single);
                    added = true;
                    proof {
                        assert(out.deep_view() =~~= pre.push(seq![p]));
                    }
                }
            }
            proof {
                reveal(Seq::filter);
                let prefix = tiles@.take(ti + 1 as int);
                assert(prefix.drop_last() =~= tiles@.take(ti as int));
                assert(prefix.last() == tiles@[ti as int]);
                let pred = |q: usize|
                    board.spec_nuisance(q) && exists|k: int|
                        0 <= k < board.spec_neighbors(q).len()
                            && in_some_group(self@, #[trigger] board.spec_neighbors(q)[k]);
                if added {
                    assert(pred(p));
                    assert(prefix.filter(pred)
                        == tiles@.take(ti as int).filter(pred).push(p));
                    assert(nuisance_added_over(board, self@, prefix)
                        =~= nuisance_added_over(board, self@, tiles@.take(ti as int)).push(
                        seq![p],
                    ));
                    assert(out.deep_view() =~~= self@ + nuisance_added_over(
                        board,
                        self@,
                        prefix,
                    ));
                } else {
                    assert(!pred(p));
                    assert(prefix.filter(pred) == tiles@.take(ti as int).filter(pred));
                    assert(out.deep_view() =~~= self@ + nuisance_added_over(
                        board,
                        self@,
                        prefix,
                    ));
                }
            }
            ti = ti + 1;
        }
        proof {
            assert(tiles@.take(tiles@.len() as int) =~= tiles@);
        }
        RefGroups { groups: out }
    }
}

} // verus!
