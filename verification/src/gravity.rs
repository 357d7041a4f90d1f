//! The gravity engine: stable in-place compaction of columns of handles,
//! floating "air" toward the high-index end while the remaining tiles keep
//! their relative order and sink toward index zero.

use vstd::prelude::*;
use vstd::pervasive::VecAdditionalExecFns;
use vstd::multiset::Multiset;
use crate::Board;
use crate::board_wf;
use crate::solid_count;

verus! {

broadcast use {
    vstd::seq_lib::group_to_multiset_ensures,
    vstd::multiset::group_multiset_axioms,
    vstd::seq_lib::group_filter_ensures,
};

/// A board over which gravity can act as a whole.
pub trait GravityBoard: Board {
    /// Lets every unsupported tile fall once; returns whether anything moved.
    ///
    /// What exactly "falls" means is the implementation's own affair; every
    /// implementation must leave the tile enumeration unchanged and keep the
    /// board well formed.
    fn fall(&mut self) -> (r: bool)
        ensures
            final(self).spec_tiles() == old(self).spec_tiles(),
            board_wf(old(self)) ==> board_wf(final(self)),
            solid_count(final(self)) == solid_count(old(self)),
    ;
}

/// A board that exposes its storage as columns of handles, so that the
/// engine's own compaction can implement gravity for it.
pub trait AutoGravityBoard: Board + Sized {
    /// The board's positions as columns of handles, lowest position first.
    spec fn spec_columns(&self) -> Seq<Seq<usize>>;

    /// Whether the position `handle` currently holds air.
    fn is_air(&self, handle: usize) -> (r: bool)
        ensures
            r == self.spec_is_air(handle),
    ;

    /// Hands out the board's columns of handles, lowest position first.
    fn columns(&self) -> (r: Vec<Vec<usize>>)
        ensures
            r.deep_view() == self.spec_columns(),
    ;

    /// Applies reordered columns back to the board's storage: afterward the
    /// position `spec_columns()[c][k]` holds the content that sat at
    /// `cols[c][k]` before the call. The reordering must be a per-column
    /// permutation of the board's own columns; handing the columns back
    /// unreordered changes nothing.
    fn apply_columns(&mut self, cols: &Vec<Vec<usize>>)
        requires
            cols.deep_view().len() == old(self).spec_columns().len(),
            forall|c: int| 0 <= c < cols.deep_view().len()
                ==> (#[trigger] cols.deep_view()[c]).to_multiset()
                    == old(self).spec_columns()[c].to_multiset(),
        ensures
            final(self).spec_tiles() == old(self).spec_tiles(),
            final(self).spec_columns() == old(self).spec_columns(),
            board_wf(old(self)) ==> board_wf(final(self)),
            solid_count(final(self)) == solid_count(old(self)),
            forall|c: int, k: int|
                0 <= c < old(self).spec_columns().len()
                    && 0 <= k < old(self).spec_columns()[c].len()
                ==> final(self).spec_is_air(#[trigger] old(self).spec_columns()[c][k])
                    == old(self).spec_is_air(cols.deep_view()[c][k]),
            cols.deep_view() == old(self).spec_columns() ==> *final(self) == *old(self),
    ;
}

/// The non-air entries of a column, in order.
pub open spec fn solid_part<B: AutoGravityBoard>(board: &B, col: Seq<usize>) -> Seq<usize> {
    col.filter(|h: usize| !board.spec_is_air(h))
}

/// The air entries of a column, in order.
pub open spec fn air_part<B: AutoGravityBoard>(board: &B, col: Seq<usize>) -> Seq<usize> {
    col.filter(|h: usize| board.spec_is_air(h))
}

/// Whether some air entry sits below some non-air entry, i.e. whether
/// compaction would move anything.
pub open spec fn has_fall<B: AutoGravityBoard>(board: &B, col: Seq<usize>) -> bool {
    exists|i: int, j: int|
        #![trigger col[i], col[j]]
        0 <= i < j < col.len() && board.spec_is_air(col[i]) && !board.spec_is_air(col[j])
}

/// A column splits, entry by entry, into its solid part and its air part.
proof fn lemma_filter_split_len<B: AutoGravityBoard>(board: &B, s: Seq<usize>)
    ensures
        solid_part(board, s).len() + air_part(board, s).len() == s.len(),
    decreases s.len(),
{
    reveal(Seq::filter);
    if s.len() == 0 {
        assert(solid_part(board, s) =~= Seq::<usize>::empty());
        assert(air_part(board, s) =~= Seq::<usize>::empty());
    } else {
        lemma_filter_split_len(board, s.drop_last());
    }
}

/// How the solid and air parts of a prefix grow by one entry.
proof fn lemma_parts_step<B: AutoGravityBoard>(board: &B, s: Seq<usize>, j: int)
    requires
        0 <= j < s.len(),
    ensures
        board.spec_is_air(s[j]) ==> air_part(board, s.take(j + 1))
            == air_part(board, s.take(j)).push(s[j]),
        board.spec_is_air(s[j]) ==> solid_part(board, s.take(j + 1))
            == solid_part(board, s.take(j)),
        !board.spec_is_air(s[j]) ==> solid_part(board, s.take(j + 1))
            == solid_part(board, s.take(j)).push(s[j]),
        !board.spec_is_air(s[j]) ==> air_part(board, s.take(j + 1))
            == air_part(board, s.take(j)),
{
    reveal(Seq::filter);
    assert(s.take(j + 1).drop_last() =~= s.take(j));
    assert(s.take(j + 1).last() == s[j]);
}

/// A prefix holds an air entry exactly when its air part is nonempty.
proof fn lemma_air_exists<B: AutoGravityBoard>(board: &B, s: Seq<usize>)
    ensures
        (air_part(board, s).len() > 0)
            == exists|i: int| 0 <= i < s.len() && board.spec_is_air(#[trigger] s[i]),
    decreases s.len(),
{
    reveal(Seq::filter);
    if s.len() == 0 {
        assert(air_part(board, s) =~= Seq::<usize>::empty());
    } else {
        let d = s.drop_last();
        lemma_air_exists(board, d);
        assert(s.drop_last() == d);
        if board.spec_is_air(s.last()) {
            assert(air_part(board, s) == air_part(board, d).push(s.last()));
            assert(board.spec_is_air(s[s.len() - 1]));
        } else {
            assert(air_part(board, s) == air_part(board, d));
            if exists|i: int| 0 <= i < s.len() && board.spec_is_air(#[trigger] s[i]) {
                let i = choose|i: int| 0 <= i < s.len() && board.spec_is_air(#[trigger] s[i]);
                assert(i < d.len());
                assert(board.spec_is_air(d[i]));
            }
            if exists|i: int| 0 <= i < d.len() && board.spec_is_air(#[trigger] d[i]) {
                let i = choose|i: int| 0 <= i < d.len() && board.spec_is_air(#[trigger] d[i]);
                assert(board.spec_is_air(s[i]));
            }
        }
    }
}

/// How `has_fall` over a prefix changes as the prefix grows by one entry.
proof fn lemma_has_fall_step<B: AutoGravityBoard>(board: &B, s: Seq<usize>, j: int)
    requires
        0 <= j < s.len(),
    ensures
        board.spec_is_air(s[j]) ==> has_fall(board, s.take(j + 1))
            == has_fall(board, s.take(j)),
        !board.spec_is_air(s[j]) ==> has_fall(board, s.take(j + 1))
            == (has_fall(board, s.take(j)) || air_part(board, s.take(j)).len() > 0),
{
    let p = s.take(j + 1);
    let q = s.take(j);
    lemma_air_exists(board, q);
    if has_fall(board, q) {
        let (i2, j2): (int, int) = choose|i2: int, j2: int|
            #![trigger q[i2], q[j2]]
            0 <= i2 < j2 < q.len() && board.spec_is_air(q[i2]) && !board.spec_is_air(q[j2]);
        assert(p[i2] == q[i2] && p[j2] == q[j2]);
        assert(has_fall(board, p));
    }
    if board.spec_is_air(s[j]) {
        if has_fall(board, p) {
            let (i2, j2): (int, int) = choose|i2: int, j2: int|
                #![trigger p[i2], p[j2]]
                0 <= i2 < j2 < p.len() && board.spec_is_air(p[i2]) && !board.spec_is_air(p[j2]);
            assert(j2 != j);
            assert(q[i2] == p[i2] && q[j2] == p[j2]);
            assert(has_fall(board, q));
        }
    } else {
        if air_part(board, q).len() > 0 {
            let i = choose|i: int| 0 <= i < q.len() && board.spec_is_air(#[trigger] q[i]);
            assert(p[i] == q[i] && p[j] == s[j]);
            assert(has_fall(board, p));
        }
        if has_fall(board, p) && !has_fall(board, q) {
            let (i2, j2): (int, int) = choose|i2: int, j2: int|
                #![trigger p[i2], p[j2]]
                0 <= i2 < j2 < p.len() && board.spec_is_air(p[i2]) && !board.spec_is_air(p[j2]);
            if j2 < j {
                assert(q[i2] == p[i2] && q[j2] == p[j2]);
                assert(has_fall(board, q));
                assert(false);
            } else {
                assert(board.spec_is_air(q[i2]));
            }
        }
    }
}

/// A column whose air already sits wholly above its tiles has nothing left
/// to fall. Together with the contract of `compact_column` this gives
/// idempotence: a second compaction of a column reports "no change" and
/// leaves the column exactly as it was.
pub proof fn lemma_compacted_has_no_fall<B: AutoGravityBoard>(board: &B, col: Seq<usize>)
    requires
        forall|k1: int, k2: int|
            0 <= k1 < k2 < col.len() && board.spec_is_air(#[trigger] col[k1])
                ==> board.spec_is_air(#[trigger] col[k2]),
    ensures
        !has_fall(board, col),
{
    if has_fall(board, col) {
        let (i, j): (int, int) = choose|i: int, j: int|
            #![trigger col[i], col[j]]
            0 <= i < j < col.len() && board.spec_is_air(col[i]) && !board.spec_is_air(col[j]);
        assert(board.spec_is_air(col[j]));
        assert(false);
    }
}

/// The gravity pass for one column: reorders the handles in place so that
/// the non-air entries keep their order and sink to the low indices while
/// every air entry floats above them; returns whether anything moved.
///
/// The column afterwards is a permutation of the column before; something
/// moves exactly when some air entry sat below some non-air entry, and when
/// nothing moves the column is untouched.
#[verifier::rlimit(100)]
pub fn compact_column<B: AutoGravityBoard>(board: &B, column: &mut Vec<usize>) -> (r: bool)
    ensures
        final(column)@.len() == old(column)@.len(),
        solid_part(board, final(column)@) == solid_part(board, old(column)@),
        final(column)@.to_multiset() == old(column)@.to_multiset(),
        forall|k: int|
            0 <= k < final(column)@.len()
                ==> (board.spec_is_air(#[trigger] final(column)@[k])
                    <==> k >= solid_part(board, old(column)@).len()),
        r == has_fall(board, old(column)@),
        !r ==> final(column)@ == old(column)@,
{
    let ghost oc = column@;
    let mut w: usize = 0;
    let mut j: usize = 0;
    let mut moved = false;
    while j < column.len()
        invariant
            w <= j <= column@.len(),
            column@.len() == oc.len(),
            oc == old(column)@,
            column@.subrange(0, w as int) == solid_part(board, oc.take(j as int)),
            column@.to_multiset() == oc.to_multiset(),
            forall|k: int| w <= k < j ==> board.spec_is_air(#[trigger] column@[k]),
            forall|k: int| j <= k < oc.len() ==> column@[k] == oc[k],
            moved == has_fall(board, oc.take(j as int)),
            !moved ==> column@ == oc,
        decreases column@.len() - j,
    {
        let ghost pre = column@;
        proof {
            lemma_parts_step(board, oc, j as int);
            lemma_has_fall_step(board, oc, j as int);
            lemma_filter_split_len(board, oc.take(j as int));
            assert(column@[j as int] == oc[j as int]);
            assert(air_part(board, oc.take(j as int)).len() == j - w);
        }
        if !board.is_air(column[j]) {
            if w < j {
                moved = true;
            }
            let a = column[j];
            let b = column[w];
            column.set(j, b);
            column.set(w, a);
            proof {
                let mid = pre.update(j as int, pre[w as int]);
                assert(column@ == mid.update(w as int, pre[j as int]));
                assert(column@.subrange(0, w + 1 as int)
                    =~= pre.subrange(0, w as int).push(oc[j as int]));
                assert(column@.subrange(0, w + 1 as int)
                    == solid_part(board, oc.take(j + 1 as int)));
                assert(column@.to_multiset() =~= pre.to_multiset()) by {
                    assert(mid.to_multiset() == pre.to_multiset().remove(pre[j as int]).insert(
                        pre[w as int],
                    ));
                    assert(mid[w as int] == if w == j { pre[w as int] } else { pre[w as int] });
                    assert(column@.to_multiset() == mid.to_multiset().remove(mid[w as int]).insert(
                        pre[j as int],
                    ));
                    assert(pre.to_multiset().count(pre[j as int]) > 0) by {
                        assert(pre.contains(pre[j as int]));
                    }
                    assert(pre.to_multiset().count(pre[w as int]) > 0) by {
                        assert(pre.contains(pre[w as int]));
                    }
                }
                if w == j {
                    assert(column@ =~= pre);
                }
            }
            w = w + 1;
        }
        j = j + 1;
    }
    proof {
        assert(oc.take(oc.len() as int) =~= oc);
        let solid = |h: usize| !board.spec_is_air(h);
        assert(column@ =~= column@.subrange(0, w as int)
            + column@.subrange(w as int, column@.len() as int));
        assert(solid_part(board, column@) == solid_part(board, oc)) by {
            Seq::filter_distributes_over_add(
                column@.subrange(0, w as int),
                column@.subrange(w as int, column@.len() as int),
                solid,
            );
            lemma_filter_all_solid(board, column@.subrange(0, w as int));
            lemma_filter_all_air(board, column@.subrange(w as int, column@.len() as int));
            assert(solid_part(board, column@)
                =~= solid_part(board, column@.subrange(0, w as int))
                    + solid_part(board, column@.subrange(w as int, column@.len() as int)));
            assert(solid_part(board, oc) + Seq::<usize>::empty() =~= solid_part(board, oc));
        }
        assert(w == solid_part(board, oc).len());
        assert forall|k: int| 0 <= k < column@.len()
            implies (board.spec_is_air(#[trigger] column@[k])
                <==> k >= solid_part(board, oc).len()) by {
            if k < w {
                assert(column@.subrange(0, w as int)[k] == column@[k]);
                assert(solid_part(board, oc)[k] == column@[k]);
            }
        }
    }
    moved
}

/// Gravity over the whole board: compacts every column and writes the
/// reordering back through `apply_columns`; returns whether any column
/// changed, that is, whether anything fell.
pub fn auto_fall<B: AutoGravityBoard>(board: &mut B) -> (r: bool)
    ensures
        final(board).spec_tiles() == old(board).spec_tiles(),
        final(board).spec_columns() == old(board).spec_columns(),
        board_wf(old(board)) ==> board_wf(final(board)),
        solid_count(final(board)) == solid_count(old(board)),
        r == exists|c: int|
            0 <= c < old(board).spec_columns().len()
                && has_fall(old(board), #[trigger] old(board).spec_columns()[c]),
        forall|c: int, k: int|
            0 <= c < old(board).spec_columns().len()
                && 0 <= k < old(board).spec_columns()[c].len()
                ==> (final(board).spec_is_air(#[trigger] old(board).spec_columns()[c][k])
                    <==> k >= solid_part(old(board), old(board).spec_columns()[c]).len()),
        !r ==> *final(board) == *old(board),
{
    let cols = board.columns();
    let mut out: Vec<Vec<usize>> = Vec::new();
    let mut moved = false;
    let mut c: usize = 0;
    while c < cols.len()
        invariant
            *board == *old(board),
            cols.deep_view() == board.spec_columns(),
            c <= cols@.len(),
            out@.len() == c,
            forall|ci: int| 0 <= ci < c
                ==> (#[trigger] out.deep_view()[ci]).to_multiset()
                    == cols.deep_view()[ci].to_multiset(),
            forall|ci: int, k: int|
                0 <= ci < c && 0 <= k < out.deep_view()[ci].len()
                    ==> (board.spec_is_air(#[trigger] out.deep_view()[ci][k])
                        <==> k >= solid_part(board, cols.deep_view()[ci]).len()),
            forall|ci: int| 0 <= ci < c
                ==> (#[trigger] out.deep_view()[ci]).len() == cols.deep_view()[ci].len(),
            moved == exists|ci: int|
                0 <= ci < c && has_fall(board, #[trigger] cols.deep_view()[ci]),
            !moved ==> forall|ci: int| 0 <= ci < c
                ==> #[trigger] out.deep_view()[ci] == cols.deep_view()[ci],
        decreases cols@.len() - c,
    {
        let ghost outpre = out.deep_view();
        let mut col = cols[c].clone();
        proof {
            assert(col@ =~= cols.deep_view()[c as int]);
        }
        let ch = compact_column(board, &mut col);
        if ch {
            moved = true;
        }
        out.push(col);
        proof {
            assert(out.deep_view() =~~= outpre.push(col@));
            assert(col@.len() == cols.deep_view()[c as int].len()) by {
                assert(col@.to_multiset() == cols.deep_view()[c as int].to_multiset());
                assert(col@.to_multiset().len() == col@.len());
                assert(cols.deep_view()[c as int].to_multiset().len()
                    == cols.deep_view()[c as int].len());
            }
            if moved {
                if ch {
                    assert(has_fall(board, cols.deep_view()[c as int]));
                }
            }
            if exists|ci: int|
                0 <= ci < c + 1 && has_fall(board, #[trigger] cols.deep_view()[ci]) {
                let ci = choose|ci: int|
                    0 <= ci < c + 1 && has_fall(board, #[trigger] cols.deep_view()[ci]);
                if ci < c {
                    assert(moved);
                } else {
                    assert(has_fall(board, cols.deep_view()[c as int]));
                    assert(moved);
                }
            }
        }
        c = c + 1;
    }
    proof {
        if !moved {
            assert(out.deep_view() =~~= cols.deep_view());
        }
    }
    board.apply_columns(&out);
    proof {
        assert forall|c2: int, k: int|
            0 <= c2 < old(board).spec_columns().len()
                && 0 <= k < old(board).spec_columns()[c2].len()
            implies (board.spec_is_air(#[trigger] old(board).spec_columns()[c2][k])
                <==> k >= solid_part(old(board), old(board).spec_columns()[c2]).len()) by {
            assert(board.spec_is_air(old(board).spec_columns()[c2][k])
                == old(board).spec_is_air(out.deep_view()[c2][k]));
            assert(old(board).spec_is_air(out.deep_view()[c2][k])
                <==> k >= solid_part(old(board), cols.deep_view()[c2]).len());
        }
    }
    moved
}

impl<T: AutoGravityBoard> GravityBoard for T {
    /// Gravity through the engine's own column compaction: reports whether
    /// any column had something to fall, and leaves every column with its
    /// own tiles at the bottom and its air above — position `k` of a column
    /// is empty afterwards exactly when `k` is past the column's old number
    /// of tiles, so each column keeps its own tile count and a second call
    /// changes nothing and reports no fall.
    fn fall(&mut self) -> (r: bool)
        ensures
            final(self).spec_columns() == old(self).spec_columns(),
            r == exists|c: int|
                0 <= c < old(self).spec_columns().len()
                    && has_fall(old(self), #[trigger] old(self).spec_columns()[c]),
            forall|c: int, k: int|
                0 <= c < old(self).spec_columns().len()
                    && 0 <= k < old(self).spec_columns()[c].len()
                    ==> (final(self).spec_is_air(#[trigger] old(self).spec_columns()[c][k])
                        <==> k >= solid_part(old(self), old(self).spec_columns()[c]).len()),
            !r ==> *final(self) == *old(self),
    {
        auto_fall(self)
    }
}

/// Filtering a sequence of non-air entries by "not air" keeps all of it.
proof fn lemma_filter_all_solid<B: AutoGravityBoard>(board: &B, s: Seq<usize>)
    requires
        forall|k: int| 0 <= k < s.len() ==> !board.spec_is_air(#[trigger] s[k]),
    ensures
        solid_part(board, s) == s,
    decreases s.len(),
{
    reveal(Seq::filter);
    if s.len() == 0 {
        assert(solid_part(board, s) =~= s);
    } else {
        let d = s.drop_last();
        lemma_filter_all_solid(board, d);
        assert(solid_part(board, s) == solid_part(board, d).push(s.last()));
        assert(solid_part(board, s) =~= s);
    }
}

/// Filtering a sequence of air entries by "not air" drops all of it.
proof fn lemma_filter_all_air<B: AutoGravityBoard>(board: &B, s: Seq<usize>)
    requires
        forall|k: int| 0 <= k < s.len() ==> board.spec_is_air(#[trigger] s[k]),
    ensures
        solid_part(board, s) == Seq::<usize>::empty(),
    decreases s.len(),
{
    reveal(Seq::filter);
    if s.len() == 0 {
        assert(solid_part(board, s) =~= Seq::<usize>::empty());
    } else {
        let d = s.drop_last();
        lemma_filter_all_air(board, d);
        assert(solid_part(board, s) == solid_part(board, d));
    }
}

} // verus!
