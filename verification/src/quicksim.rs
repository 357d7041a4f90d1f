//! The chain simulation loop: gravity, grouping, selection, nuisance
//! expansion, scoring and removal, repeated until a pass clears nothing.

use vstd::prelude::*;
use crate::{
    BanishBoard, Board, RefGroups, Scorer, board_wf, count_solid, owanimo_grouper, popped_view,
    solid_count,
};
use crate::connect::{heads_canonical, in_some_group, is_grouping};
use crate::gravity::GravityBoard;
use crate::standard::{
    NuisanceBoard, StandardScorer, add_sat, clamp_lookup, nuisance_added, sat_add, sat_mul,
    table_lookup,
};

verus! {

/// A board with every capability the chain simulation needs.
pub trait QuickSimBoard: Board + BanishBoard + GravityBoard + NuisanceBoard + Sized {

}

/// What one run of the chain simulation produced: the accumulated score, the
/// number of chain steps that cleared something, the total number of pieces
/// cleared, and the largest number of pieces cleared by one step.
#[derive(Debug, PartialEq, Eq)]
pub struct SimResult {
    pub score: u64,
    pub chain: u64,
    pub pieces_cleared: u64,
    pub max_pieces_at_once: u64,
}

/// The selection one simulation pass clears, given the grouping `gs`: the
/// groups of at least `threshold` members, then the nuisance singletons.
pub open spec fn cleared_view<B: NuisanceBoard>(
    board: &B,
    gs: Seq<Seq<usize>>,
    threshold: usize,
) -> Seq<Seq<usize>> {
    popped_view(gs, threshold) + nuisance_added(board, popped_view(gs, threshold))
}

/// Whether `x` is a member of some group of `popped`.
pub open spec fn in_selection(popped: Seq<Seq<usize>>, x: usize) -> bool {
    exists|j: int, m: int|
        #![trigger popped[j][m]]
        0 <= j < popped.len() && 0 <= m < popped[j].len() && popped[j][m] == x
}

/// Whether some member of some group of `popped` is a non-air tile on
/// `board`: banishing the selection then leaves one more empty position.
pub open spec fn clears_solid<B: Board>(board: &B, popped: Seq<Seq<usize>>) -> bool {
    exists|j: int, m: int|
        #![trigger popped[j][m]]
        0 <= j < popped.len() && 0 <= m < popped[j].len()
            && !board.spec_is_air(popped[j][m])
}

/// What one gravity settling step may do to a board, as far as the gravity
/// trait states it: the enumeration survives, well-formedness survives, and
/// the number of non-air tiles is unchanged.
pub open spec fn fall_rel<B: Board>(pre: B, post: B) -> bool {
    &&& post.spec_tiles() == pre.spec_tiles()
    &&& board_wf(&pre) ==> board_wf(&post)
    &&& solid_count(&post) == solid_count(&pre)
}

/// `post` is `pre` with exactly the members of `popped` banished: those
/// positions are now air, every other position keeps its airness, the
/// enumeration and well-formedness survive, and a banished position no
/// longer connects to anything.
pub open spec fn banished_from<B: Board>(pre: B, popped: Seq<Seq<usize>>, post: B) -> bool {
    &&& post.spec_tiles() == pre.spec_tiles()
    &&& board_wf(&pre) ==> board_wf(&post)
    &&& forall|x: usize| #![trigger post.spec_is_air(x)]
        post.spec_is_air(x) == (pre.spec_is_air(x) || in_selection(popped, x))
    &&& forall|j: int, m: int, x: usize|
        #![trigger post.spec_connects(popped[j][m], x)]
        0 <= j < popped.len() && 0 <= m < popped[j].len()
            ==> !post.spec_connects(popped[j][m], x)
}


/// Every recorded pass of the account is well formed, grouped by the
/// canonical head-ordered grouping, and keeps the run's tile enumeration.
pub open spec fn run_passes_ok<B: QuickSimBoard>(
    start: B,
    boards: Seq<B>,
    gss: Seq<Seq<Seq<usize>>>,
) -> bool {
    forall|i: int| #![trigger boards[i]]
        0 <= i < boards.len()
            ==> board_wf(&boards[i]) && is_grouping(&boards[i], gss[i])
                && heads_canonical(boards[i].spec_tiles(), gss[i])
                && boards[i].spec_tiles() == start.spec_tiles()
}

/// Every recorded pass of the account cleared something.
pub open spec fn run_positive<B: QuickSimBoard, PC: Scorer<B>>(
    boards: Seq<B>,
    gss: Seq<Seq<Seq<usize>>>,
    threshold: usize,
    pc: &PC,
) -> bool {
    forall|i: int| #![trigger boards[i]]
        0 <= i < boards.len()
            ==> pc.spec_score(&boards[i], cleared_view(&boards[i], gss[i], threshold)) > 0
}

/// Each settled board of the account after the first is reached from its
/// predecessor by banishing that pass's selection and letting gravity settle.
pub open spec fn run_links<B: QuickSimBoard>(
    boards: Seq<B>,
    gss: Seq<Seq<Seq<usize>>>,
    threshold: usize,
) -> bool
    decreases boards.len(),
{
    boards.len() <= 1 || {
        &&& run_links(boards.drop_last(), gss.drop_last(), threshold)
        &&& exists|mid: B|
            #[trigger] banished_from(
                boards[boards.len() - 2],
                cleared_view(&boards[boards.len() - 2], gss[boards.len() - 2], threshold),
                mid,
            ) && fall_rel(mid, boards[boards.len() - 1])
    }
}

/// The pass-by-pass account of one run of the chain loop starting from
/// `start`: `boards[i]` is the settled board pass `i` ran on and `gss[i]`
/// the grouping it computed. Every pass but the last cleared something, the
/// last pass cleared nothing, the first settled board comes from `start` by
/// one gravity step, and each later one from its predecessor by banishing
/// that pass's selection and letting gravity settle again.
pub open spec fn sim_run<B: QuickSimBoard, PC: Scorer<B>>(
    start: B,
    boards: Seq<B>,
    gss: Seq<Seq<Seq<usize>>>,
    threshold: usize,
    pc: &PC,
) -> bool {
    &&& boards.len() == gss.len()
    &&& boards.len() >= 1
    &&& fall_rel(start, boards[0])
    &&& run_passes_ok(start, boards, gss)
    &&& run_positive(boards.drop_last(), gss.drop_last(), threshold, pc)
    &&& pc.spec_score(
        &boards.last(),
        cleared_view(&boards.last(), gss.last(), threshold),
    ) == 0
    &&& run_links(boards, gss, threshold)
}

/// The standard-formula score of the pass at chain depth `depth` of a run:
/// ten points a cleared piece plus the point bonus, times the sum of the
/// chain power at `depth` (a clamped table lookup) and the colour and group
/// bonuses, all clamping at the largest score.
pub open spec fn pass_score<
    B: QuickSimBoard,
    PC: Scorer<B>,
    PB: Scorer<B>,
    CB: Scorer<B>,
    GB: Scorer<B>,
>(
    b: B,
    gs: Seq<Seq<usize>>,
    threshold: usize,
    pc: &PC,
    pb: &PB,
    table: Seq<u64>,
    depth: int,
    cb: &CB,
    gb: &GB,
) -> u64 {
    let popped = cleared_view(&b, gs, threshold);
    sat_mul(
        sat_add(sat_mul(10, pc.spec_score(&b, popped)), pb.spec_score(&b, popped)),
        sat_add(
            sat_add(clamp_lookup(table, depth), cb.spec_score(&b, popped)),
            gb.spec_score(&b, popped),
        ),
    )
}

/// The clamped total score of the recorded passes, the pass at index `i`
/// scored with chain power `clamp_lookup(table, i)`.
pub open spec fn total_score<
    B: QuickSimBoard,
    PC: Scorer<B>,
    PB: Scorer<B>,
    CB: Scorer<B>,
    GB: Scorer<B>,
>(
    boards: Seq<B>,
    gss: Seq<Seq<Seq<usize>>>,
    threshold: usize,
    pc: &PC,
    pb: &PB,
    table: Seq<u64>,
    cb: &CB,
    gb: &GB,
) -> u64
    decreases boards.len(),
{
    if boards.len() == 0 {
        0u64
    } else {
        sat_add(
            total_score(boards.drop_last(), gss.drop_last(), threshold, pc, pb, table, cb, gb),
            pass_score(
                boards.last(),
                gss.last(),
                threshold,
                pc,
                pb,
                table,
                boards.len() - 1,
                cb,
                gb,
            ),
        )
    }
}

/// The clamped total of the cleared-piece counts of the recorded passes.
pub open spec fn total_pieces<B: QuickSimBoard, PC: Scorer<B>>(
    boards: Seq<B>,
    gss: Seq<Seq<Seq<usize>>>,
    threshold: usize,
    pc: &PC,
) -> u64
    decreases boards.len(),
{
    if boards.len() == 0 {
        0u64
    } else {
        sat_add(
            total_pieces(boards.drop_last(), gss.drop_last(), threshold, pc),
            pc.spec_score(
                &boards.last(),
                cleared_view(&boards.last(), gss.last(), threshold),
            ),
        )
    }
}

/// The largest cleared-piece count among the recorded passes, zero when
/// there are none.
pub open spec fn max_pieces<B: QuickSimBoard, PC: Scorer<B>>(
    boards: Seq<B>,
    gss: Seq<Seq<Seq<usize>>>,
    threshold: usize,
    pc: &PC,
) -> u64
    decreases boards.len(),
{
    if boards.len() == 0 {
        0u64
    } else {
        let rest = max_pieces(boards.drop_last(), gss.drop_last(), threshold, pc);
        let v = pc.spec_score(
            &boards.last(),
            cleared_view(&boards.last(), gss.last(), threshold),
        );
        if v > rest {
            v
        } else {
            rest
        }
    }
}

/// Members of a filtered sequence are members of the sequence.
proof fn lemma_filter_members<A>(s: Seq<A>, pred: spec_fn(A) -> bool, x: A)
    requires
        s.filter(pred).contains(x),
    ensures
        s.contains(x),
    decreases s.len(),
{
    reveal(Seq::filter);
    if s.len() == 0 {
    } else {
        let d = s.drop_last();
        if pred(s.last()) && x == s.last() {
            assert(s[s.len() - 1] == x);
        } else {
            if pred(s.last()) {
                assert(s.filter(pred) == d.filter(pred).push(s.last()));
                let i = choose|i: int|
                    0 <= i < s.filter(pred).len() && s.filter(pred)[i] == x;
                assert(i < d.filter(pred).len());
                assert(d.filter(pred)[i] == x);
                assert(d.filter(pred).contains(x));
            } else {
                assert(s.filter(pred) == d.filter(pred));
            }
            lemma_filter_members(d, pred, x);
            let i = choose|i: int| 0 <= i < d.len() && d[i] == x;
            assert(s[i] == x);
        }
    }
}

/// There are never more non-air entries than entries.
proof fn lemma_count_solid_le_len<B: Board>(board: &B, s: Seq<usize>)
    ensures
        count_solid(board, s) <= s.len(),
    decreases s.len(),
{
    if s.len() > 0 {
        lemma_count_solid_le_len(board, s.drop_last());
    }
}

/// Growing the set of air positions never raises the number of non-air
/// entries, and strictly lowers it when a listed entry turned to air.
proof fn lemma_count_solid_superset<B: Board>(prev: &B, cur: &B, s: Seq<usize>)
    requires
        forall|u: usize| #![trigger prev.spec_is_air(u)]
            prev.spec_is_air(u) ==> cur.spec_is_air(u),
    ensures
        count_solid(cur, s) <= count_solid(prev, s),
        (exists|i: int|
            0 <= i < s.len() && !prev.spec_is_air(#[trigger] s[i]) && cur.spec_is_air(s[i]))
            ==> count_solid(cur, s) < count_solid(prev, s),
    decreases s.len(),
{
    if s.len() == 0 {
    } else {
        let d = s.drop_last();
        lemma_count_solid_superset(prev, cur, d);
        assert(prev.spec_is_air(s.last()) ==> cur.spec_is_air(s.last()));
        if exists|i: int|
            0 <= i < s.len() && !prev.spec_is_air(#[trigger] s[i]) && cur.spec_is_air(s[i]) {
            let i = choose|i: int|
                0 <= i < s.len() && !prev.spec_is_air(#[trigger] s[i]) && cur.spec_is_air(s[i]);
            if i < s.len() - 1 {
                assert(d[i] == s[i]);
                assert(!prev.spec_is_air(d[i]) && cur.spec_is_air(d[i]));
            }
        }
    }
}


/// Appending one pass to a run's account extends the three running totals by
/// exactly that pass's values.
proof fn lemma_totals_push<
    B: QuickSimBoard,
    PC: Scorer<B>,
    PB: Scorer<B>,
    CB: Scorer<B>,
    GB: Scorer<B>,
>(
    boards: Seq<B>,
    gss: Seq<Seq<Seq<usize>>>,
    b: B,
    gs: Seq<Seq<usize>>,
    threshold: usize,
    pc: &PC,
    pb: &PB,
    table: Seq<u64>,
    cb: &CB,
    gb: &GB,
)
    ensures
        total_score(boards.push(b), gss.push(gs), threshold, pc, pb, table, cb, gb) == sat_add(
            total_score(boards, gss, threshold, pc, pb, table, cb, gb),
            pass_score(b, gs, threshold, pc, pb, table, boards.len() as int, cb, gb),
        ),
        total_pieces(boards.push(b), gss.push(gs), threshold, pc) == sat_add(
            total_pieces(boards, gss, threshold, pc),
            pc.spec_score(&b, cleared_view(&b, gs, threshold)),
        ),
        max_pieces(boards.push(b), gss.push(gs), threshold, pc) == (
        if pc.spec_score(&b, cleared_view(&b, gs, threshold)) > max_pieces(
            boards,
            gss,
            threshold,
            pc,
        ) {
            pc.spec_score(&b, cleared_view(&b, gs, threshold))
        } else {
            max_pieces(boards, gss, threshold, pc)
        }),
{
    assert(boards.push(b).drop_last() =~= boards);
    assert(gss.push(gs).drop_last() =~= gss);
    assert(boards.push(b).last() == b);
    assert(gss.push(gs).last() == gs);
}

/// Appending a settled board reached from the account's last pass by one
/// banish-and-fall step keeps every consecutive pair of the account linked.
proof fn lemma_links_push<B: QuickSimBoard>(
    boards: Seq<B>,
    gss: Seq<Seq<Seq<usize>>>,
    b: B,
    gs: Seq<Seq<usize>>,
    prefall: B,
    threshold: usize,
)
    requires
        boards.len() == gss.len(),
        run_links(boards, gss, threshold),
        boards.len() > 0 ==> banished_from(
            boards.last(),
            cleared_view(&boards.last(), gss.last(), threshold),
            prefall,
        ) && fall_rel(prefall, b),
    ensures
        run_links(boards.push(b), gss.push(gs), threshold),
{
    let nb = boards.push(b);
    let ng = gss.push(gs);
    assert(nb.drop_last() =~= boards);
    assert(ng.drop_last() =~= gss);
    if boards.len() > 0 {
        assert(nb[nb.len() - 2] == boards.last());
        assert(ng[nb.len() - 2] == gss.last());
        assert(nb[nb.len() - 1] == b);
        assert(banished_from(
            nb[nb.len() - 2],
            cleared_view(&nb[nb.len() - 2], ng[nb.len() - 2], threshold),
            prefall,
        ) && fall_rel(prefall, nb[nb.len() - 1]));
    }
}

/// Appending a pass whose board shares the run's enumeration keeps every
/// recorded pass well formed, grouped and on the same enumeration.
proof fn lemma_pass_facts_push<B: QuickSimBoard>(
    start: B,
    boards: Seq<B>,
    gss: Seq<Seq<Seq<usize>>>,
    b: B,
    gs: Seq<Seq<usize>>,
)
    requires
        boards.len() == gss.len(),
        run_passes_ok(start, boards, gss),
        board_wf(&b),
        is_grouping(&b, gs),
        heads_canonical(b.spec_tiles(), gs),
        b.spec_tiles() == start.spec_tiles(),
    ensures
        run_passes_ok(start, boards.push(b), gss.push(gs)),
{
    assert forall|i: int| #![trigger boards.push(b)[i]]
        0 <= i < boards.push(b).len()
        implies board_wf(&boards.push(b)[i]) && is_grouping(&boards.push(b)[i], gss.push(gs)[i])
            && heads_canonical(boards.push(b)[i].spec_tiles(), gss.push(gs)[i])
            && boards.push(b)[i].spec_tiles() == start.spec_tiles() by {
        if i < boards.len() {
            assert(boards.push(b)[i] == boards[i] && gss.push(gs)[i] == gss[i]);
        } else {
            assert(boards.push(b)[i] == b && gss.push(gs)[i] == gs);
        }
    }
}

/// Appending a pass with a positive cleared count keeps every recorded pass
/// positive.
proof fn lemma_positive_push<B: QuickSimBoard, PC: Scorer<B>>(
    boards: Seq<B>,
    gss: Seq<Seq<Seq<usize>>>,
    b: B,
    gs: Seq<Seq<usize>>,
    threshold: usize,
    pc: &PC,
)
    requires
        boards.len() == gss.len(),
        run_positive(boards, gss, threshold, pc),
        pc.spec_score(&b, cleared_view(&b, gs, threshold)) > 0,
    ensures
        run_positive(boards.push(b), gss.push(gs), threshold, pc),
{
    assert forall|i: int| #![trigger boards.push(b)[i]]
        0 <= i < boards.push(b).len()
        implies pc.spec_score(
            &boards.push(b)[i],
            cleared_view(&boards.push(b)[i], gss.push(gs)[i], threshold),
        ) > 0 by {
        if i < boards.len() {
            assert(boards.push(b)[i] == boards[i] && gss.push(gs)[i] == gss[i]);
        } else {
            assert(boards.push(b)[i] == b && gss.push(gs)[i] == gs);
        }
    }
}

/// One clearing pass, computed without touching the board: group, select,
/// expand, and score with the standard formula, `chain_power` standing as
/// this pass's chain multiplier. Returns the pass's score, its cleared-piece
/// count as the piece scorer measures it, and the expanded selection.
pub fn sim_pass<
    B: QuickSimBoard,
    PC: Scorer<B>,
    PB: Scorer<B>,
    CB: Scorer<B>,
    GB: Scorer<B>,
>(
    board: &B,
    pieces_to_pop: usize,
    pc: &PC,
    pb: &PB,
    chain_power: u64,
    cb: &CB,
    gb: &GB,
) -> (r: (u64, u64, RefGroups))
    requires
        board_wf(board),
    ensures
        board.spec_tiles().len() <= usize::MAX,
        forall|j: int, m: int|
            0 <= j < r.2@.len() && 0 <= m < r.2@[j].len()
                ==> board.spec_tiles().contains(#[trigger] r.2@[j][m]),
        exists|gs: Seq<Seq<usize>>|
            {
                let popped = cleared_view(board, gs, pieces_to_pop);
                &&& #[trigger] is_grouping(board, gs)
                &&& heads_canonical(board.spec_tiles(), gs)
                &&& r.2@ == popped
                &&& r.0 == sat_mul(
                    sat_add(
                        sat_mul(10, pc.spec_score(board, popped)),
                        pb.spec_score(board, popped),
                    ),
                    sat_add(
                        sat_add(chain_power, cb.spec_score(board, popped)),
                        gb.spec_score(board, popped),
                    ),
                )
                &&& r.1 == pc.spec_score(board, popped)
            },
{
    let grps = owanimo_grouper(board);
    let binding = grps.as_ref();
    let selected = binding.owanimo_pop(pieces_to_pop);
    let pg = selected.owanimo_nuisance(board);
    let scorer = StandardScorer {
        pieces_cleared: pc,
        point_bonus: pb,
        chain_power: &chain_power,
        color_bonus: cb,
        group_bonus: gb,
        phantom: core::marker::PhantomData,
    };
    let this_score = scorer.score(board, &pg);
    let this_pieces = pc.score(board, &pg);
    proof {
        let gs = grps@;
        let popped = pg@;
        assert(popped == cleared_view(board, gs, pieces_to_pop));
        assert(is_grouping(board, gs));
        assert(heads_canonical(board.spec_tiles(), gs));
        assert(this_score == scorer.spec_score(board, popped));
        assert(this_pieces == pc.spec_score(board, popped));
        // every member of the selection is one of the board's tiles
        let pv = popped_view(gs, pieces_to_pop);
        let na = nuisance_added(board, pv);
        assert forall|j: int, m: int|
            0 <= j < popped.len() && 0 <= m < popped[j].len()
            implies board.spec_tiles().contains(#[trigger] popped[j][m]) by {
            if j < pv.len() {
                assert(popped[j] == pv[j]);
                assert(pv.contains(pv[j]));
                lemma_filter_members(
                    gs,
                    |g: Seq<usize>| g.len() >= pieces_to_pop,
                    pv[j],
                );
                let j2 = choose|j2: int| 0 <= j2 < gs.len() && gs[j2] == pv[j];
                assert(gs[j2].contains(popped[j][m]));
                assert(in_some_group(gs, popped[j][m]));
            } else {
                let pred = |q: usize|
                    board.spec_nuisance(q) && exists|k: int|
                        0 <= k < board.spec_neighbors(q).len()
                            && in_some_group(pv, #[trigger] board.spec_neighbors(q)[k]);
                let filtered = board.spec_tiles().filter(pred);
                assert(popped[j] == na[j - pv.len()]);
                assert(na[j - pv.len()] == seq![filtered[j - pv.len()]]);
                assert(popped[j][m] == filtered[j - pv.len()]);
                assert(filtered.contains(filtered[j - pv.len()]));
                lemma_filter_members(board.spec_tiles(), pred, filtered[j - pv.len()]);
            }
        }
    }
    (this_score, this_pieces, pg)
}

/// Banishes every member of every group of `popped` from the board, so that
/// the board afterwards stands in `banished_from` to the board before.
fn banish_selection<B: QuickSimBoard>(board: &mut B, popped: &RefGroups)
    requires
        board_wf(old(board)),
        forall|j: int, m: int|
            0 <= j < popped@.len() && 0 <= m < popped@[j].len()
                ==> old(board).spec_tiles().contains(#[trigger] popped@[j][m]),
    ensures
        banished_from(*old(board), popped@, *final(board)),
        board_wf(final(board)),
        solid_count(final(board)) <= solid_count(old(board)),
        clears_solid(old(board), popped@)
            ==> solid_count(final(board)) < solid_count(old(board)),
{
    let ghost pv = popped@;
    let mut gi: usize = 0;
    while gi < popped.groups.len()
        invariant
            pv == popped@,
            board_wf(board),
            board.spec_tiles() == old(board).spec_tiles(),
            0 <= gi <= pv.len(),
            forall|x: usize| #![trigger board.spec_is_air(x)]
                board.spec_is_air(x) == (old(board).spec_is_air(x) || exists|j: int, m: int|
                    #![trigger pv[j][m]]
                    0 <= j < gi && 0 <= m < pv[j].len() && pv[j][m] == x),
            forall|j: int, m: int, x: usize|
                #![trigger board.spec_connects(pv[j][m], x)]
                0 <= j < gi && 0 <= m < pv[j].len()
                    ==> !board.spec_connects(pv[j][m], x),
        decreases pv.len() - gi,
    {
        let g = &popped.groups[gi];
        let mut mi: usize = 0;
        while mi < g.len()
            invariant
                pv == popped@,
                board_wf(board),
                board.spec_tiles() == old(board).spec_tiles(),
                0 <= gi < pv.len(),
                g@ == pv[gi as int],
                0 <= mi <= g@.len(),
                forall|x: usize| #![trigger board.spec_is_air(x)]
                    board.spec_is_air(x) == (old(board).spec_is_air(x) || exists|j: int, m: int|
                        #![trigger pv[j][m]]
                        0 <= j <= gi && 0 <= m < pv[j].len()
                            && (j < gi || m < mi) && pv[j][m] == x),
                forall|j: int, m: int, x: usize|
                    #![trigger board.spec_connects(pv[j][m], x)]
                    0 <= j < gi && 0 <= m < pv[j].len()
                        ==> !board.spec_connects(pv[j][m], x),
                forall|m: int, x: usize|
                    #![trigger board.spec_connects(pv[gi as int][m], x)]
                    0 <= m < mi ==> !board.spec_connects(pv[gi as int][m], x),
            decreases g@.len() - mi,
        {
            let ghost prev = *board;
            let p = g[mi];
            board.banish(p);
            proof {
                assert forall|x: usize| #![trigger board.spec_is_air(x)]
                    board.spec_is_air(x) == (old(board).spec_is_air(x) || exists|j: int, m: int|
                        #![trigger pv[j][m]]
                        0 <= j <= gi && 0 <= m < pv[j].len()
                            && (j < gi || m < mi + 1) && pv[j][m] == x) by {
                    if x == p {
                        assert(pv[gi as int][mi as int] == x);
                        assert(board.spec_is_air(x));
                    } else {
                        assert(board.spec_is_air(x) == prev.spec_is_air(x));
                        if exists|j: int, m: int|
                            #![trigger pv[j][m]]
                            0 <= j <= gi && 0 <= m < pv[j].len()
                                && (j < gi || m < mi + 1) && pv[j][m] == x {
                            let (j, m): (int, int) = choose|j: int, m: int|
                                #![trigger pv[j][m]]
                                0 <= j <= gi && 0 <= m < pv[j].len()
                                    && (j < gi || m < mi + 1) && pv[j][m] == x;
                            assert(!(j == gi && m == mi));
                            assert(j < gi || m < mi);
                        }
                    }
                }
                assert forall|j: int, m: int, x: usize|
                    (0 <= j < gi && 0 <= m < pv[j].len())
                        || (j == gi && 0 <= m < mi + 1 && m < pv[j].len())
                    implies !(#[trigger] board.spec_connects(pv[j][m], x)) by {
                    let hh = pv[j][m];
                    if j == gi && m == mi {
                        assert(!board.spec_connects(p, x));
                    } else {
                        assert(!prev.spec_connects(hh, x));
                        if hh == p {
                            assert(!board.spec_connects(hh, x));
                        } else if x == p {
                            assert(!board.spec_connects(p, hh));
                            assert(board.spec_connects(hh, p) == board.spec_connects(p, hh));
                        } else {
                            assert(board.spec_connects(hh, x) == prev.spec_connects(hh, x));
                        }
                    }
                }
            }
            mi = mi + 1;
        }
        gi = gi + 1;
    }
    proof {
        assert forall|x: usize| #![trigger board.spec_is_air(x)]
            board.spec_is_air(x) == (old(board).spec_is_air(x) || in_selection(pv, x)) by {
            if in_selection(pv, x) {
                let (j, m): (int, int) = choose|j: int, m: int|
                    #![trigger pv[j][m]]
                    0 <= j < pv.len() && 0 <= m < pv[j].len() && pv[j][m] == x;
                assert(board.spec_is_air(x));
            }
        }
        assert forall|u: usize| #![trigger old(board).spec_is_air(u)]
            old(board).spec_is_air(u) implies board.spec_is_air(u) by {}
        lemma_count_solid_superset(old(board), board, old(board).spec_tiles());
        if clears_solid(old(board), pv) {
            let (j, m): (int, int) = choose|j: int, m: int|
                #![trigger pv[j][m]]
                0 <= j < pv.len() && 0 <= m < pv[j].len()
                    && !old(board).spec_is_air(pv[j][m]);
            let h = pv[j][m];
            assert(old(board).spec_tiles().contains(h));
            let i = choose|i: int|
                0 <= i < old(board).spec_tiles().len() && old(board).spec_tiles()[i] == h;
            assert(in_selection(pv, h));
            assert(board.spec_is_air(h));
            assert(!old(board).spec_is_air(old(board).spec_tiles()[i])
                && board.spec_is_air(old(board).spec_tiles()[i]));
        }
    }
}

/// The chain simulation: let the board settle, run one clearing pass, and,
/// if it cleared anything, remove the selection, accumulate the totals, and
/// repeat; a pass that clears nothing ends the run without removing or
/// accumulating anything. The chain-power table is indexed by the chain
/// depth and clamps to its last entry; all accumulation clamps at the
/// largest score.
///
/// The piece scorer must report a positive count only for selections that
/// still hold a non-air tile, so that every counted pass empties at least
/// one more position: that is what bounds the loop, and the run makes at
/// most one clearing pass per initially non-air tile.
#[verifier::rlimit(100)]
pub fn quick_sim<
    B: QuickSimBoard,
    PC: Scorer<B>,
    PB: Scorer<B>,
    CB: Scorer<B>,
    GB: Scorer<B>,
>(
    board: &mut B,
    pieces_to_pop: usize,
    pc: &PC,
    pb: &PB,
    chain_power_table: &[u64],
    cb: &CB,
    gb: &GB,
) -> (r: SimResult)
    requires
        board_wf(old(board)),
        forall|b: B, gs: Seq<Seq<usize>>|
            is_grouping(&b, gs)
                && #[trigger] pc.spec_score(&b, cleared_view(&b, gs, pieces_to_pop)) > 0
                ==> clears_solid(&b, cleared_view(&b, gs, pieces_to_pop)),
    ensures
        board_wf(final(board)),
        final(board).spec_tiles() == old(board).spec_tiles(),
        r.chain <= r.pieces_cleared,
        r.max_pieces_at_once <= r.pieces_cleared,
        exists|boards: Seq<B>, gss: Seq<Seq<Seq<usize>>>|
            {
                &&& #[trigger] sim_run(*old(board), boards, gss, pieces_to_pop, pc)
                &&& *final(board) == boards.last()
                &&& boards.len() - 1 <= solid_count(old(board))
                &&& r.chain == boards.len() - 1
                &&& r.score == total_score(
                    boards.drop_last(),
                    gss.drop_last(),
                    pieces_to_pop,
                    pc,
                    pb,
                    chain_power_table@,
                    cb,
                    gb,
                )
                &&& r.pieces_cleared == total_pieces(
                    boards.drop_last(),
                    gss.drop_last(),
                    pieces_to_pop,
                    pc,
                )
                &&& r.max_pieces_at_once == max_pieces(
                    boards.drop_last(),
                    gss.drop_last(),
                    pieces_to_pop,
                    pc,
                )
            },
{
    let mut score: u64 = 0;
    let mut chain: u64 = 0;
    let mut pieces_cleared: u64 = 0;
    let mut max_pieces_at_once: u64 = 0;
    let ghost mut boards: Seq<B> = Seq::empty();
    let ghost mut gss: Seq<Seq<Seq<usize>>> = Seq::empty();
    loop
        invariant_except_break
            chain as int == boards.len(),
            boards.len() + solid_count(board) <= solid_count(old(board)),
            run_positive(boards, gss, pieces_to_pop, pc),
            boards.len() > 0 ==> banished_from(
                boards.last(),
                cleared_view(&boards.last(), gss.last(), pieces_to_pop),
                *board,
            ),
            score == total_score(
                boards,
                gss,
                pieces_to_pop,
                pc,
                pb,
                chain_power_table@,
                cb,
                gb,
            ),
            pieces_cleared == total_pieces(boards, gss, pieces_to_pop, pc),
            max_pieces_at_once == max_pieces(boards, gss, pieces_to_pop, pc),
        invariant
            board_wf(board),
            board.spec_tiles() == old(board).spec_tiles(),
            boards.len() == gss.len(),
            boards.len() == 0 ==> *board == *old(board),
            boards.len() > 0 ==> fall_rel(*old(board), boards[0]),
            run_passes_ok(*old(board), boards, gss),
            run_links(boards, gss, pieces_to_pop),
            chain <= pieces_cleared,
            max_pieces_at_once <= pieces_cleared,
            forall|b: B, gs2: Seq<Seq<usize>>|
                is_grouping(&b, gs2)
                    && #[trigger] pc.spec_score(&b, cleared_view(&b, gs2, pieces_to_pop)) > 0
                    ==> clears_solid(&b, cleared_view(&b, gs2, pieces_to_pop)),
        ensures
            board_wf(board),
            board.spec_tiles() == old(board).spec_tiles(),
            chain <= pieces_cleared,
            max_pieces_at_once <= pieces_cleared,
            sim_run(*old(board), boards, gss, pieces_to_pop, pc),
            *board == boards.last(),
            boards.len() - 1 <= solid_count(old(board)),
            chain as int == boards.len() - 1,
            score == total_score(
                boards.drop_last(),
                gss.drop_last(),
                pieces_to_pop,
                pc,
                pb,
                chain_power_table@,
                cb,
                gb,
            ),
            pieces_cleared == total_pieces(boards.drop_last(), gss.drop_last(), pieces_to_pop, pc),
            max_pieces_at_once == max_pieces(
                boards.drop_last(),
                gss.drop_last(),
                pieces_to_pop,
                pc,
            ),
        decreases solid_count(board),
    {
        let ghost prefall = *board;
        board.fall();
        let ghost settled = *board;
        let idx = if chain > (usize::MAX as u64) {
            usize::MAX
        } else {
            chain as usize
        };
        let cpow = table_lookup(chain_power_table, idx);
        let (this_score, this_pieces, pg) = sim_pass(
            board,
            pieces_to_pop,
            pc,
            pb,
            cpow,
            cb,
            gb,
        );
        proof {
            // the chain depth fits in the table index, so the chain power
            // used is exactly the clamped lookup at this pass's depth
            lemma_count_solid_le_len(old(board), old(board).spec_tiles());
            assert(old(board).spec_tiles().len() == settled.spec_tiles().len());
            assert(solid_count(old(board)) <= usize::MAX);
            assert(chain as int == boards.len());
            assert(idx as int == boards.len());
            assert(cpow == clamp_lookup(chain_power_table@, boards.len() as int));
        }
        let ghost gs = choose|gs: Seq<Seq<usize>>|
            {
                let popped = cleared_view(&settled, gs, pieces_to_pop);
                &&& #[trigger] is_grouping(&settled, gs)
                &&& heads_canonical(settled.spec_tiles(), gs)
                &&& pg@ == popped
                &&& this_score == sat_mul(
                    sat_add(
                        sat_mul(10, pc.spec_score(&settled, popped)),
                        pb.spec_score(&settled, popped),
                    ),
                    sat_add(
                        sat_add(cpow, cb.spec_score(&settled, popped)),
                        gb.spec_score(&settled, popped),
                    ),
                )
                &&& this_pieces == pc.spec_score(&settled, popped)
            };
        let ghost boards_pre = boards;
        let ghost gss_pre = gss;
        proof {
            if boards_pre.len() == 0 {
                assert(fall_rel(*old(board), settled));
            }
            lemma_links_push(boards_pre, gss_pre, settled, gs, prefall, pieces_to_pop);
            lemma_pass_facts_push(*old(board), boards_pre, gss_pre, settled, gs);
            lemma_totals_push(
                boards_pre,
                gss_pre,
                settled,
                gs,
                pieces_to_pop,
                pc,
                pb,
                chain_power_table@,
                cb,
                gb,
            );
            boards = boards_pre.push(settled);
            gss = gss_pre.push(gs);
            assert(boards.drop_last() =~= boards_pre);
            assert(gss.drop_last() =~= gss_pre);
            assert(boards.last() == settled && gss.last() == gs);
        }
        if this_pieces == 0 {
            proof {
                assert(run_positive(boards.drop_last(), gss.drop_last(), pieces_to_pop, pc));
                assert(sim_run(*old(board), boards, gss, pieces_to_pop, pc));
                assert(*board == boards.last());
                assert(total_score(
                    boards.drop_last(),
                    gss.drop_last(),
                    pieces_to_pop,
                    pc,
                    pb,
                    chain_power_table@,
                    cb,
                    gb,
                ) == score);
                assert(total_pieces(boards.drop_last(), gss.drop_last(), pieces_to_pop, pc)
                    == pieces_cleared);
                assert(max_pieces(boards.drop_last(), gss.drop_last(), pieces_to_pop, pc)
                    == max_pieces_at_once);
            }
            break;
        }
        banish_selection(board, &pg);
        score = add_sat(score, this_score);
        pieces_cleared = add_sat(pieces_cleared, this_pieces);
        if this_pieces > max_pieces_at_once {
            max_pieces_at_once = this_pieces;
        }
        proof {
            // the counted pass emptied at least one more position
            assert(pc.spec_score(&settled, cleared_view(&settled, gs, pieces_to_pop)) > 0);
            assert(clears_solid(&settled, cleared_view(&settled, gs, pieces_to_pop)));
            assert(solid_count(board) < solid_count(&settled));
            lemma_positive_push(boards_pre, gss_pre, settled, gs, pieces_to_pop, pc);
            // the accumulators follow their recursive totals
            assert(score == total_score(
                boards,
                gss,
                pieces_to_pop,
                pc,
                pb,
                chain_power_table@,
                cb,
                gb,
            ));
            assert(pieces_cleared == total_pieces(boards, gss, pieces_to_pop, pc));
            assert(max_pieces_at_once == max_pieces(boards, gss, pieces_to_pop, pc));
            assert(chain as int + 1 == boards.len());
            assert(boards.len() <= solid_count(old(board)));
        }
        chain = add_sat(chain, 1);
    }
    proof {
        assert(sim_run(*old(board), boards, gss, pieces_to_pop, pc));
    }
    SimResult { score, chain, pieces_cleared, max_pieces_at_once }
}

} // verus!
