//! Incremental bookkeeping of the score of a placement: for each musician
//! and attendee, how many other musicians block the line between them, and
//! what the pair would score when unblocked. The geometry (which positions
//! block which lines, and what a pair scores) is computed by the caller;
//! this module keeps the counts and the total consistent under adding,
//! removing and swapping musicians.
use vstd::prelude::*;

verus! {

/// The absolute value of an integer.
pub open spec fn abs_value(x: int) -> int {
    if x < 0 {
        -x
    } else {
        x
    }
}

/// The number of positions `b < n` with `placed[b]`, `b != m` and
/// `flags[b]`: how many placed musicians other than `m` block a line.
pub open spec fn blocker_count(flags: Seq<bool>, placed: Seq<bool>, m: int, n: int) -> int
    decreases n,
{
    if n <= 0 {
        0
    } else {
        blocker_count(flags, placed, m, n - 1) + (if placed[n - 1] && n - 1 != m && flags[n - 1] {
            1int
        } else {
            0int
        })
    }
}

/// The sum of the absolute values of the first `n` gains.
pub open spec fn seq_weight(g: Seq<i64>, n: int) -> int
    decreases n,
{
    if n <= 0 {
        0
    } else {
        seq_weight(g, n - 1) + abs_value(g[n - 1] as int)
    }
}

/// The state of a tally: which musicians are placed, for each musician and
/// attendee the number of blocking musicians, and what the pair scores when
/// unblocked.
pub struct TallyView {
    pub placed: Seq<bool>,
    pub counts: Seq<Seq<usize>>,
    pub gains: Seq<Seq<i64>>,
    pub n_attendees: nat,
}

impl TallyView {
    pub open spec fn n_musicians(self) -> nat {
        self.placed.len()
    }

    /// The rows have one entry per attendee.
    pub open spec fn shaped(self) -> bool {
        &&& self.counts.len() == self.placed.len()
        &&& self.gains.len() == self.placed.len()
        &&& forall|m: int|
            0 <= m < self.placed.len() ==> (#[trigger] self.counts[m]).len() == self.n_attendees
        &&& forall|m: int|
            0 <= m < self.placed.len() ==> (#[trigger] self.gains[m]).len() == self.n_attendees
    }

    /// What musician `m` scores with attendee `a`: its gain when nobody
    /// blocks the line, else nothing.
    pub open spec fn live(self, m: int, a: int) -> int {
        if self.counts[m][a] == 0 {
            self.gains[m][a] as int
        } else {
            0
        }
    }

    /// What musician `m` scores with the first `n` attendees.
    pub open spec fn row_live(self, m: int, n: int) -> int
        decreases n,
    {
        if n <= 0 {
            0
        } else {
            self.row_live(m, n - 1) + self.live(m, n - 1)
        }
    }

    pub open spec fn row_weight(self, m: int, n: int) -> int
        decreases n,
    {
        if n <= 0 {
            0
        } else {
            self.row_weight(m, n - 1) + abs_value(self.gains[m][n - 1] as int)
        }
    }

    pub open spec fn total_upto(self, k: int) -> int
        decreases k,
    {
        if k <= 0 {
            0
        } else {
            self.total_upto(k - 1) + self.row_live(k - 1, self.n_attendees as int)
        }
    }

    pub open spec fn weight_upto(self, k: int) -> int
        decreases k,
    {
        if k <= 0 {
            0
        } else {
            self.weight_upto(k - 1) + self.row_weight(k - 1, self.n_attendees as int)
        }
    }

    /// The score: the sum over all musicians and attendees of what the pair
    /// scores.
    pub open spec fn total(self) -> int {
        self.total_upto(self.n_musicians() as int)
    }

    /// The sum of the absolute values of all gains.
    pub open spec fn weight(self) -> int {
        self.weight_upto(self.n_musicians() as int)
    }

    /// A musician that is not placed has no counts and no gains, and the
    /// gains are small enough that every score and every difference of two
    /// scores fits in `i64`.
    pub open spec fn wf(self) -> bool {
        &&& self.shaped()
        &&& forall|m: int, a: int|
            #![trigger self.counts[m][a]]
            #![trigger self.gains[m][a]]
            0 <= m < self.placed.len() && 0 <= a < self.n_attendees && !self.placed[m]
                ==> self.counts[m][a] == 0 && self.gains[m][a] == 0
        &&& self.weight() <= i64::MAX / 2
    }
}

proof fn lemma_row_same(v: TallyView, mv: int, w: TallyView, mw: int, n: int)
    requires
        forall|b: int|
            0 <= b < n ==> w.live(mw, b) == v.live(mv, b) && #[trigger] w.gains[mw][b]
                == v.gains[mv][b],
    ensures
        w.row_live(mw, n) == v.row_live(mv, n),
        w.row_weight(mw, n) == v.row_weight(mv, n),
    decreases n,
{
    if n > 0 {
        lemma_row_same(v, mv, w, mw, n - 1);
        assert(w.gains[mw][n - 1] == v.gains[mv][n - 1]);
    }
}

proof fn lemma_row_point(v: TallyView, w: TallyView, m: int, a: int, n: int)
    requires
        0 <= a < n,
        forall|b: int| 0 <= b < n && b != a ==> #[trigger] w.live(m, b) == v.live(m, b),
        forall|b: int| 0 <= b < n && b != a ==> #[trigger] w.gains[m][b] == v.gains[m][b],
    ensures
        w.row_live(m, n) == v.row_live(m, n) - v.live(m, a) + w.live(m, a),
        w.row_weight(m, n) == v.row_weight(m, n) - abs_value(v.gains[m][a] as int) + abs_value(
            w.gains[m][a] as int,
        ),
    decreases n,
{
    if n - 1 == a {
        lemma_row_same(v, m, w, m, n - 1);
    } else {
        lemma_row_point(v, w, m, a, n - 1);
        assert(w.gains[m][n - 1] == v.gains[m][n - 1]);
    }
}

proof fn lemma_row_bound(v: TallyView, m: int, n: int)
    ensures
        0 <= v.row_weight(m, n),
        -v.row_weight(m, n) <= v.row_live(m, n) <= v.row_weight(m, n),
    decreases n,
{
    if n > 0 {
        lemma_row_bound(v, m, n - 1);
    }
}

proof fn lemma_total_same(v: TallyView, w: TallyView, k: int)
    requires
        v.n_attendees == w.n_attendees,
        forall|j: int|
            0 <= j < k ==> #[trigger] w.row_live(j, w.n_attendees as int) == v.row_live(
                j,
                v.n_attendees as int,
            ) && w.row_weight(j, w.n_attendees as int) == v.row_weight(j, v.n_attendees as int),
    ensures
        w.total_upto(k) == v.total_upto(k),
        w.weight_upto(k) == v.weight_upto(k),
    decreases k,
{
    if k > 0 {
        lemma_total_same(v, w, k - 1);
        assert(w.row_live(k - 1, w.n_attendees as int) == v.row_live(k - 1, v.n_attendees as int));
    }
}

proof fn lemma_total_point(v: TallyView, w: TallyView, r: int, k: int)
    requires
        v.n_attendees == w.n_attendees,
        0 <= r < k,
        forall|j: int|
            0 <= j < k && j != r ==> #[trigger] w.row_live(j, w.n_attendees as int) == v.row_live(
                j,
                v.n_attendees as int,
            ) && w.row_weight(j, w.n_attendees as int) == v.row_weight(j, v.n_attendees as int),
    ensures
        w.total_upto(k) == v.total_upto(k) - v.row_live(r, v.n_attendees as int) + w.row_live(
            r,
            w.n_attendees as int,
        ),
        w.weight_upto(k) == v.weight_upto(k) - v.row_weight(r, v.n_attendees as int)
            + w.row_weight(r, w.n_attendees as int),
    decreases k,
{
    if k - 1 == r {
        lemma_total_same(v, w, k - 1);
    } else {
        lemma_total_point(v, w, r, k - 1);
        assert(w.row_live(k - 1, w.n_attendees as int) == v.row_live(k - 1, v.n_attendees as int));
    }
}

proof fn lemma_total_bound(v: TallyView, k: int)
    ensures
        0 <= v.weight_upto(k),
        -v.weight_upto(k) <= v.total_upto(k) <= v.weight_upto(k),
    decreases k,
{
    if k > 0 {
        lemma_total_bound(v, k - 1);
        lemma_row_bound(v, k - 1, v.n_attendees as int);
    }
}

/// Changing one cell changes the total by the change of what that pair
/// scores, and the weight by the change of the absolute value of its gain.
proof fn lemma_cell(v: TallyView, w: TallyView, k: int, a: int)
    requires
        v.n_attendees == w.n_attendees,
        v.placed.len() == w.placed.len(),
        0 <= k < v.placed.len(),
        0 <= a < v.n_attendees,
        forall|m: int, b: int|
            #![trigger w.counts[m][b]]
            #![trigger w.gains[m][b]]
            0 <= m < v.placed.len() && 0 <= b < v.n_attendees && (m != k || b != a)
                ==> w.counts[m][b] == v.counts[m][b] && w.gains[m][b] == v.gains[m][b],
    ensures
        w.total() == v.total() - v.live(k, a) + w.live(k, a),
        w.weight() == v.weight() - abs_value(v.gains[k][a] as int) + abs_value(w.gains[k][a] as int),
{
    let na = v.n_attendees as int;
    assert forall|b: int| 0 <= b < na && b != a implies w.live(k, b) == v.live(k, b)
        && #[trigger] w.gains[k][b] == v.gains[k][b] by {
        assert(w.counts[k][b] == v.counts[k][b]);
    }
    lemma_row_point(v, w, k, a, na);
    assert forall|j: int| 0 <= j < v.placed.len() && j != k implies #[trigger] w.row_live(j, na)
        == v.row_live(j, na) && w.row_weight(j, na) == v.row_weight(j, na) by {
        assert forall|b: int| 0 <= b < na implies w.live(j, b) == v.live(j, b)
            && #[trigger] w.gains[j][b] == v.gains[j][b] by {
            assert(w.counts[j][b] == v.counts[j][b]);
        }
        lemma_row_same(v, j, w, j, na);
    }
    lemma_total_point(v, w, k, v.placed.len() as int);
}

proof fn lemma_seq_weight_prefix(g: Seq<i64>, k: int, n: int)
    requires
        0 <= k <= n,
    ensures
        0 <= seq_weight(g, k) <= seq_weight(g, n),
    decreases n,
{
    if n > k {
        lemma_seq_weight_prefix(g, k, n - 1);
    } else if k > 0 {
        lemma_seq_weight_prefix(g, k - 1, k - 1);
    }
}


proof fn lemma_zero_rows(v: TallyView, k: int)
    requires
        forall|j: int, b: int|
            0 <= j < k && 0 <= b < v.n_attendees ==> #[trigger] v.gains[j][b] == 0,
    ensures
        v.total_upto(k) == 0,
        v.weight_upto(k) == 0,
    decreases k,
{
    if k > 0 {
        lemma_zero_rows(v, k - 1);
        lemma_zero_row(v, k - 1, v.n_attendees as int);
    }
}

proof fn lemma_zero_row(v: TallyView, m: int, n: int)
    requires
        n <= v.n_attendees,
        forall|b: int| 0 <= b < n ==> #[trigger] v.gains[m][b] == 0,
    ensures
        v.row_live(m, n) == 0,
        v.row_weight(m, n) == 0,
    decreases n,
{
    if n > 0 {
        lemma_zero_row(v, m, n - 1);
        assert(v.gains[m][n - 1] == 0);
    }
}


/// The count of the line from `k` to `a` after a musician `m` was added
/// (`up`) or removed: one more or one less when `k` is another placed
/// musician and `blocks[k][a]` says that `m` stands in that line.
pub open spec fn bumped_count(v: TallyView, m: int, blocks: Seq<Vec<bool>>, up: bool, k: int, a: int) -> int {
    if k != m && v.placed[k] && blocks[k]@[a] {
        if up {
            v.counts[k][a] + 1
        } else {
            v.counts[k][a] - 1
        }
    } else {
        v.counts[k][a] as int
    }
}

/// `blocks` has one flag per placed musician and attendee.
pub open spec fn flags_shaped(blocks: Seq<Vec<bool>>, rows: nat, cols: nat) -> bool {
    &&& blocks.len() == rows
    &&& forall|k: int| 0 <= k < rows ==> (#[trigger] blocks[k])@.len() == cols
}


/// `new` is `old` after musician `m` was placed: its counts are the numbers
/// of placed musicians that `blocked_by[a]` flags, its gains are `gains`,
/// and every line to which `blocks` adds `m` as a blocker counts one more.
pub open spec fn is_added(
    old: TallyView,
    new: TallyView,
    m: int,
    blocked_by: Seq<Vec<bool>>,
    gains: Seq<i64>,
    blocks: Seq<Vec<bool>>,
) -> bool {
    &&& new.n_attendees == old.n_attendees
    &&& new.placed == old.placed.update(m, true)
    &&& new.shaped()
    &&& forall|a: int|
        0 <= a < old.n_attendees ==> #[trigger] new.counts[m][a] == blocker_count(
            blocked_by[a]@,
            old.placed,
            m,
            old.n_musicians() as int,
        )
    &&& new.gains[m] == gains
    &&& forall|k: int, a: int|
        0 <= k < old.n_musicians() && 0 <= a < old.n_attendees && k != m
            ==> #[trigger] new.counts[k][a] == bumped_count(old, m, blocks, true, k, a)
    &&& forall|k: int| 0 <= k < old.n_musicians() && k != m ==> #[trigger] new.gains[k] == old.gains[k]
}

/// `new` is `old` after musician `m` was taken away: its counts and gains
/// are 0, and every line that `blocks` says it stood in counts one less.
pub open spec fn is_removed(old: TallyView, new: TallyView, m: int, blocks: Seq<Vec<bool>>) -> bool {
    &&& new.n_attendees == old.n_attendees
    &&& new.placed == old.placed.update(m, false)
    &&& new.shaped()
    &&& forall|a: int| 0 <= a < old.n_attendees ==> #[trigger] new.counts[m][a] == 0
    &&& forall|a: int| 0 <= a < old.n_attendees ==> #[trigger] new.gains[m][a] == 0
    &&& forall|k: int, a: int|
        0 <= k < old.n_musicians() && 0 <= a < old.n_attendees && k != m
            ==> #[trigger] new.counts[k][a] == bumped_count(old, m, blocks, false, k, a)
    &&& forall|k: int| 0 <= k < old.n_musicians() && k != m ==> #[trigger] new.gains[k] == old.gains[k]
}

/// `new` is `old` after musicians `m1` and `m2` traded places: the flags and
/// counts of the two are exchanged (nobody else is blocked differently), and
/// the gains of each at its new place are `gains1` and `gains2`.
pub open spec fn is_swapped(
    old: TallyView,
    new: TallyView,
    m1: int,
    m2: int,
    gains1: Seq<i64>,
    gains2: Seq<i64>,
) -> bool {
    &&& new.n_attendees == old.n_attendees
    &&& new.placed == old.placed.update(m1, old.placed[m2]).update(m2, old.placed[m1])
    &&& new.counts == old.counts.update(m1, old.counts[m2]).update(m2, old.counts[m1])
    &&& new.shaped()
    &&& forall|k: int|
        0 <= k < old.n_musicians() && k != m1 && k != m2 ==> #[trigger] new.gains[k] == old.gains[k]
    &&& old.placed[m2] ==> new.gains[m1] == gains1
    &&& old.placed[m1] ==> new.gains[m2] == gains2
    &&& !old.placed[m2] ==> forall|a: int| 0 <= a < old.n_attendees ==> #[trigger] new.gains[m1][a] == 0
    &&& !old.placed[m1] ==> forall|a: int| 0 <= a < old.n_attendees ==> #[trigger] new.gains[m2][a] == 0
}

/// What the weight of a tally becomes when `m1` and `m2` trade places with
/// the given gains at their new places.
pub open spec fn swapped_weight(v: TallyView, m1: int, m2: int, gains1: Seq<i64>, gains2: Seq<i64>) -> int {
    v.weight() - v.row_weight(m1, v.n_attendees as int) - v.row_weight(m2, v.n_attendees as int) + (
    if v.placed[m2] {
        seq_weight(gains1, v.n_attendees as int)
    } else {
        0
    }) + (if v.placed[m1] {
        seq_weight(gains2, v.n_attendees as int)
    } else {
        0
    })
}

/// Taking a musician away right after placing it, with the same blocking
/// facts, gives back the tally as it was; so the two changes of the score
/// cancel.
pub proof fn lemma_remove_undoes_add(
    s0: TallyView,
    s1: TallyView,
    s2: TallyView,
    m: int,
    blocked_by: Seq<Vec<bool>>,
    gains: Seq<i64>,
    blocks: Seq<Vec<bool>>,
)
    requires
        s0.wf(),
        0 <= m < s0.n_musicians(),
        !s0.placed[m],
        is_added(s0, s1, m, blocked_by, gains, blocks),
        is_removed(s1, s2, m, blocks),
    ensures
        s2 == s0,
        s2.total() - s1.total() == -(s1.total() - s0.total()),
{
    let na = s0.n_attendees as int;
    assert(s2.placed =~= s0.placed);
    assert forall|k: int| 0 <= k < s0.n_musicians() implies #[trigger] s2.counts[k] =~= s0.counts[k] by {
        assert forall|a: int| 0 <= a < na implies s2.counts[k][a] == s0.counts[k][a] by {
            if k != m {
                assert(s1.placed[k] == s0.placed[k]);
                assert(s1.counts[k][a] == bumped_count(s0, m, blocks, true, k, a));
            } else {
                assert(s0.counts[m][a] == 0);
            }
        }
    }
    assert forall|k: int| 0 <= k < s0.n_musicians() implies #[trigger] s2.gains[k] =~= s0.gains[k] by {
        if k == m {
            assert forall|a: int| 0 <= a < na implies s2.gains[m][a] == s0.gains[m][a] by {
                assert(s0.gains[m][a] == 0);
            }
        }
    }
    assert(s2.counts =~~= s0.counts);
    assert(s2.gains =~~= s0.gains);
}

/// Trading the places of the same two musicians twice, with the gains they
/// had at first, gives back the tally as it was; so the two changes of the
/// score cancel.
pub proof fn lemma_swap_twice(
    s0: TallyView,
    s1: TallyView,
    s2: TallyView,
    m1: int,
    m2: int,
    gains1: Seq<i64>,
    gains2: Seq<i64>,
)
    requires
        s0.wf(),
        0 <= m1 < s0.n_musicians(),
        0 <= m2 < s0.n_musicians(),
        m1 != m2,
        is_swapped(s0, s1, m1, m2, gains1, gains2),
        is_swapped(s1, s2, m1, m2, s0.gains[m1], s0.gains[m2]),
    ensures
        s2 == s0,
        s2.total() - s1.total() == -(s1.total() - s0.total()),
{
    let na = s0.n_attendees as int;
    assert(s2.placed =~= s0.placed);
    assert(s2.counts =~~= s0.counts);
    assert forall|k: int| 0 <= k < s0.n_musicians() implies #[trigger] s2.gains[k] =~= s0.gains[k] by {
        if k == m1 && !s0.placed[m1] {
            assert forall|a: int| 0 <= a < na implies s2.gains[m1][a] == s0.gains[m1][a] by {
                assert(s0.gains[m1][a] == 0);
            }
        }
        if k == m2 && !s0.placed[m2] {
            assert forall|a: int| 0 <= a < na implies s2.gains[m2][a] == s0.gains[m2][a] by {
                assert(s0.gains[m2][a] == 0);
            }
        }
    }
    assert(s2.gains =~~= s0.gains);
}


/// Placed musician `b`, other than `k`, stands in the line from `k` to
/// attendee `a`, where `blocks(b, k, a)` says whether the place of `b`
/// blocks that line.
pub open spec fn blocks_line(blocks: spec_fn(int, int, int) -> bool, placed: Seq<bool>, b: int, k: int, a: int) -> bool {
    placed[b] && b != k && blocks(b, k, a)
}

/// How many of the first `n` musicians stand in the line from `k` to `a`.
pub open spec fn blockers(blocks: spec_fn(int, int, int) -> bool, placed: Seq<bool>, k: int, a: int, n: int) -> int
    decreases n,
{
    if n <= 0 {
        0
    } else {
        blockers(blocks, placed, k, a, n - 1) + (if blocks_line(blocks, placed, n - 1, k, a) {
            1int
        } else {
            0int
        })
    }
}

spec fn blockers_except(
    blocks: spec_fn(int, int, int) -> bool,
    placed: Seq<bool>,
    k: int,
    a: int,
    n: int,
    j1: int,
    j2: int,
) -> int
    decreases n,
{
    if n <= 0 {
        0
    } else {
        blockers_except(blocks, placed, k, a, n - 1, j1, j2) + (if n - 1 != j1 && n - 1 != j2
            && blocks_line(blocks, placed, n - 1, k, a) {
            1int
        } else {
            0int
        })
    }
}

/// The count of every line from a placed musician is the number of placed
/// musicians that `blocks` puts in that line.
pub open spec fn counts_follow(v: TallyView, blocks: spec_fn(int, int, int) -> bool) -> bool {
    forall|k: int, a: int|
        0 <= k < v.n_musicians() && 0 <= a < v.n_attendees && v.placed[k]
            ==> #[trigger] v.counts[k][a] == blockers(blocks, v.placed, k, a, v.n_musicians() as int)
}

/// `m1` and `m2` exchanged.
pub open spec fn traded(x: int, m1: int, m2: int) -> int {
    if x == m1 {
        m2
    } else if x == m2 {
        m1
    } else {
        x
    }
}

proof fn lemma_blockers_point(
    r1: spec_fn(int, int, int) -> bool,
    p1: Seq<bool>,
    k1: int,
    r2: spec_fn(int, int, int) -> bool,
    p2: Seq<bool>,
    k2: int,
    a: int,
    j: int,
    n: int,
)
    requires
        forall|b: int|
            0 <= b < n && b != j ==> blocks_line(r2, p2, b, k2, a) == blocks_line(r1, p1, b, k1, a),
    ensures
        0 <= j < n ==> blockers(r2, p2, k2, a, n) == blockers(r1, p1, k1, a, n) - (if blocks_line(
            r1,
            p1,
            j,
            k1,
            a,
        ) {
            1int
        } else {
            0int
        }) + (if blocks_line(r2, p2, j, k2, a) {
            1int
        } else {
            0int
        }),
        !(0 <= j < n) ==> blockers(r2, p2, k2, a, n) == blockers(r1, p1, k1, a, n),
    decreases n,
{
    if n > 0 {
        lemma_blockers_point(r1, p1, k1, r2, p2, k2, a, j, n - 1);
    }
}

proof fn lemma_blockers_split(
    r: spec_fn(int, int, int) -> bool,
    p: Seq<bool>,
    k: int,
    a: int,
    j1: int,
    j2: int,
    n: int,
)
    requires
        0 <= j1 < n,
        0 <= j2 < n,
        j1 != j2,
    ensures
        blockers(r, p, k, a, n) == blockers_except(r, p, k, a, n, j1, j2) + (if blocks_line(
            r,
            p,
            j1,
            k,
            a,
        ) {
            1int
        } else {
            0int
        }) + (if blocks_line(r, p, j2, k, a) {
            1int
        } else {
            0int
        }),
    decreases n,
{
    lemma_blockers_split_prefix(r, p, k, a, j1, j2, n);
}

proof fn lemma_blockers_split_prefix(
    r: spec_fn(int, int, int) -> bool,
    p: Seq<bool>,
    k: int,
    a: int,
    j1: int,
    j2: int,
    n: int,
)
    ensures
        blockers(r, p, k, a, n) == blockers_except(r, p, k, a, n, j1, j2) + (if 0 <= j1 < n
            && blocks_line(r, p, j1, k, a) {
            1int
        } else {
            0int
        }) + (if 0 <= j2 < n && j2 != j1 && blocks_line(r, p, j2, k, a) {
            1int
        } else {
            0int
        }),
    decreases n,
{
    if n > 0 {
        lemma_blockers_split_prefix(r, p, k, a, j1, j2, n - 1);
    }
}

proof fn lemma_blockers_except_same(
    r1: spec_fn(int, int, int) -> bool,
    p1: Seq<bool>,
    k1: int,
    r2: spec_fn(int, int, int) -> bool,
    p2: Seq<bool>,
    k2: int,
    a: int,
    j1: int,
    j2: int,
    n: int,
)
    requires
        forall|b: int|
            0 <= b < n && b != j1 && b != j2 ==> blocks_line(r2, p2, b, k2, a) == blocks_line(
                r1,
                p1,
                b,
                k1,
                a,
            ),
    ensures
        blockers_except(r2, p2, k2, a, n, j1, j2) == blockers_except(r1, p1, k1, a, n, j1, j2),
    decreases n,
{
    if n > 0 {
        lemma_blockers_except_same(r1, p1, k1, r2, p2, k2, a, j1, j2, n - 1);
    }
}

proof fn lemma_blocker_count_is_blockers(
    flags: Seq<bool>,
    p1: Seq<bool>,
    r: spec_fn(int, int, int) -> bool,
    p2: Seq<bool>,
    m: int,
    a: int,
    n: int,
)
    requires
        forall|b: int| 0 <= b < n && b != m ==> p1[b] == p2[b] && flags[b] == r(b, m, a),
    ensures
        blocker_count(flags, p1, m, n) == blockers(r, p2, m, a, n),
    decreases n,
{
    if n > 0 {
        lemma_blocker_count_is_blockers(flags, p1, r, p2, m, a, n - 1);
    }
}

/// Placing `m`, with blocking facts taken from a relation `after` that
/// agrees with `before` on every pair not involving `m`, keeps the counts
/// equal to the numbers of blocking musicians.
pub proof fn lemma_add_keeps_counts(
    old: TallyView,
    new: TallyView,
    m: int,
    blocked_by: Seq<Vec<bool>>,
    gains: Seq<i64>,
    blocks: Seq<Vec<bool>>,
    before: spec_fn(int, int, int) -> bool,
    after: spec_fn(int, int, int) -> bool,
)
    requires
        old.wf(),
        0 <= m < old.n_musicians(),
        !old.placed[m],
        is_added(old, new, m, blocked_by, gains, blocks),
        counts_follow(old, before),
        forall|b: int, k: int, a: int| b != m && k != m ==> #[trigger] after(b, k, a) == before(b, k, a),
        forall|a: int, b: int|
            0 <= a < old.n_attendees && 0 <= b < old.n_musicians() ==> #[trigger] after(b, m, a)
                == blocked_by[a]@[b],
        forall|k: int, a: int|
            0 <= k < old.n_musicians() && 0 <= a < old.n_attendees ==> #[trigger] after(m, k, a)
                == blocks[k]@[a],
    ensures
        counts_follow(new, after),
{
    let n = old.n_musicians() as int;
    assert forall|k: int, a: int|
        0 <= k < new.n_musicians() && 0 <= a < new.n_attendees && new.placed[k]
            implies #[trigger] new.counts[k][a] == blockers(after, new.placed, k, a, n) by {
        if k == m {
            lemma_blocker_count_is_blockers(blocked_by[a]@, old.placed, after, new.placed, m, a, n);
        } else {
            assert(old.placed[k]);
            assert(new.counts[k][a] == bumped_count(old, m, blocks, true, k, a));
            lemma_blockers_point(before, old.placed, k, after, new.placed, k, a, m, n);
        }
    }
}

/// Taking `m` away, with blocking facts taken from the relation of the
/// current places, keeps the counts equal to the numbers of blocking
/// musicians.
pub proof fn lemma_remove_keeps_counts(
    old: TallyView,
    new: TallyView,
    m: int,
    blocks: Seq<Vec<bool>>,
    rel: spec_fn(int, int, int) -> bool,
)
    requires
        old.wf(),
        0 <= m < old.n_musicians(),
        old.placed[m],
        is_removed(old, new, m, blocks),
        counts_follow(old, rel),
        forall|k: int, a: int|
            0 <= k < old.n_musicians() && 0 <= a < old.n_attendees ==> #[trigger] rel(m, k, a)
                == blocks[k]@[a],
    ensures
        counts_follow(new, rel),
{
    let n = old.n_musicians() as int;
    assert forall|k: int, a: int|
        0 <= k < new.n_musicians() && 0 <= a < new.n_attendees && new.placed[k]
            implies #[trigger] new.counts[k][a] == blockers(rel, new.placed, k, a, n) by {
        assert(k != m);
        assert(old.placed[k]);
        assert(new.counts[k][a] == bumped_count(old, m, blocks, false, k, a));
        lemma_blockers_point(rel, old.placed, k, rel, new.placed, k, a, m, n);
    }
}

/// Letting `m1` and `m2` trade places, where the relation `after` is
/// `before` with the two exchanged, keeps the counts equal to the numbers of
/// blocking musicians.
pub proof fn lemma_swap_keeps_counts(
    old: TallyView,
    new: TallyView,
    m1: int,
    m2: int,
    gains1: Seq<i64>,
    gains2: Seq<i64>,
    before: spec_fn(int, int, int) -> bool,
    after: spec_fn(int, int, int) -> bool,
)
    requires
        old.wf(),
        0 <= m1 < old.n_musicians(),
        0 <= m2 < old.n_musicians(),
        m1 != m2,
        is_swapped(old, new, m1, m2, gains1, gains2),
        counts_follow(old, before),
        forall|b: int, k: int, a: int|
            #[trigger] after(b, k, a) == before(traded(b, m1, m2), traded(k, m1, m2), a),
    ensures
        counts_follow(new, after),
{
    let n = old.n_musicians() as int;
    assert forall|k: int, a: int|
        0 <= k < new.n_musicians() && 0 <= a < new.n_attendees && new.placed[k]
            implies #[trigger] new.counts[k][a] == blockers(after, new.placed, k, a, n) by {
        let sk = traded(k, m1, m2);
        assert(new.placed[k] == old.placed[sk]);
        assert(new.counts[k] == old.counts[sk]);
        assert(old.counts[sk][a] == blockers(before, old.placed, sk, a, n));
        assert forall|b: int| 0 <= b < n && b != m1 && b != m2 implies blocks_line(
            after,
            new.placed,
            b,
            k,
            a,
        ) == blocks_line(before, old.placed, b, sk, a) by {
            assert(after(b, k, a) == before(b, sk, a));
            assert(new.placed[b] == old.placed[b]);
        }
        lemma_blockers_except_same(before, old.placed, sk, after, new.placed, k, a, m1, m2, n);
        lemma_blockers_split(before, old.placed, sk, a, m1, m2, n);
        lemma_blockers_split(after, new.placed, k, a, m1, m2, n);
        assert(after(m1, k, a) == before(m2, sk, a));
        assert(after(m2, k, a) == before(m1, sk, a));
        assert(new.placed[m1] == old.placed[m2]);
        assert(new.placed[m2] == old.placed[m1]);
    }
}


/// What placed musician `m` scores with attendee `a` when `blocks` says who
/// stands in which line: its gain if nobody does, else nothing.
pub open spec fn pair_score(v: TallyView, blocks: spec_fn(int, int, int) -> bool, m: int, a: int) -> int {
    if v.placed[m] && blockers(blocks, v.placed, m, a, v.n_musicians() as int) == 0 {
        v.gains[m][a] as int
    } else {
        0
    }
}

pub open spec fn row_score(v: TallyView, blocks: spec_fn(int, int, int) -> bool, m: int, n: int) -> int
    decreases n,
{
    if n <= 0 {
        0
    } else {
        row_score(v, blocks, m, n - 1) + pair_score(v, blocks, m, n - 1)
    }
}

pub open spec fn score_upto(v: TallyView, blocks: spec_fn(int, int, int) -> bool, k: int) -> int
    decreases k,
{
    if k <= 0 {
        0
    } else {
        score_upto(v, blocks, k - 1) + row_score(v, blocks, k - 1, v.n_attendees as int)
    }
}

/// The score of the placement computed from scratch: the sum over placed
/// musicians and attendees of the gains of the pairs that nobody blocks.
pub open spec fn fresh_score(v: TallyView, blocks: spec_fn(int, int, int) -> bool) -> int {
    score_upto(v, blocks, v.n_musicians() as int)
}

proof fn lemma_row_score(v: TallyView, blocks: spec_fn(int, int, int) -> bool, m: int, n: int)
    requires
        v.wf(),
        counts_follow(v, blocks),
        0 <= m < v.n_musicians(),
        n <= v.n_attendees,
    ensures
        v.row_live(m, n) == row_score(v, blocks, m, n),
    decreases n,
{
    if n > 0 {
        lemma_row_score(v, blocks, m, n - 1);
        let a = n - 1;
        if !v.placed[m] {
            assert(v.counts[m][a] == 0 && v.gains[m][a] == 0);
        } else {
            assert(v.counts[m][a] == blockers(blocks, v.placed, m, a, v.n_musicians() as int));
        }
    }
}

proof fn lemma_score_upto(v: TallyView, blocks: spec_fn(int, int, int) -> bool, k: int)
    requires
        v.wf(),
        counts_follow(v, blocks),
        k <= v.n_musicians(),
    ensures
        v.total_upto(k) == score_upto(v, blocks, k),
    decreases k,
{
    if k > 0 {
        lemma_score_upto(v, blocks, k - 1);
        lemma_row_score(v, blocks, k - 1, v.n_attendees as int);
    }
}

/// When the counts are the numbers of blocking musicians, the total of the
/// tally is the score computed from scratch.
pub proof fn lemma_total_is_fresh_score(v: TallyView, blocks: spec_fn(int, int, int) -> bool)
    requires
        v.wf(),
        counts_follow(v, blocks),
    ensures
        v.total() == fresh_score(v, blocks),
{
    lemma_score_upto(v, blocks, v.n_musicians() as int);
}

/// Counts and gains of placed musicians, kept so that the score of a
/// placement can be updated as musicians come, go and trade places.
pub struct ScoreTally {
    placed: Vec<bool>,
    n_blocking: Vec<Vec<usize>>,
    gains: Vec<Vec<i64>>,
    n_attendees: usize,
}

impl View for ScoreTally {
    type V = TallyView;

    closed spec fn view(&self) -> TallyView {
        TallyView {
            placed: self.placed@,
            counts: Seq::new(self.n_blocking@.len(), |m: int| self.n_blocking@[m]@),
            gains: Seq::new(self.gains@.len(), |m: int| self.gains@[m]@),
            n_attendees: self.n_attendees as nat,
        }
    }
}

fn zero_counts(n: usize) -> (r: Vec<usize>)
    ensures
        r@.len() == n,
        forall|i: int| 0 <= i < n ==> #[trigger] r@[i] == 0,
{
    let mut r: Vec<usize> = Vec::new();
    let mut i: usize = 0;
    while i < n
        invariant
            i <= n,
            r@.len() == i,
            forall|j: int| 0 <= j < i ==> #[trigger] r@[j] == 0,
        decreases n - i,
    {
        r.push(0);
        i = i + 1;
    }
    r
}

fn zero_gains(n: usize) -> (r: Vec<i64>)
    ensures
        r@.len() == n,
        forall|i: int| 0 <= i < n ==> #[trigger] r@[i] == 0,
{
    let mut r: Vec<i64> = Vec::new();
    let mut i: usize = 0;
    while i < n
        invariant
            i <= n,
            r@.len() == i,
            forall|j: int| 0 <= j < i ==> #[trigger] r@[j] == 0,
        decreases n - i,
    {
        r.push(0);
        i = i + 1;
    }
    r
}

impl ScoreTally {
    /// A tally with no musician placed.
    pub fn new(n_musicians: usize, n_attendees: usize) -> (t: Self)
        ensures
            t@.wf(),
            t@.n_attendees == n_attendees,
            t@.placed == Seq::new(n_musicians as nat, |m: int| false),
            t@.total() == 0,
            forall|blocks: spec_fn(int, int, int) -> bool| counts_follow(t@, blocks),
    {
        let mut placed: Vec<bool> = Vec::new();
        let mut n_blocking: Vec<Vec<usize>> = Vec::new();
        let mut gains: Vec<Vec<i64>> = Vec::new();
        let mut m: usize = 0;
        while m < n_musicians
            invariant
                m <= n_musicians,
                placed@.len() == m,
                n_blocking@.len() == m,
                gains@.len() == m,
                forall|j: int| 0 <= j < m ==> !(#[trigger] placed@[j]),
                forall|j: int| 0 <= j < m ==> (#[trigger] n_blocking@[j])@.len() == n_attendees,
                forall|j: int| 0 <= j < m ==> (#[trigger] gains@[j])@.len() == n_attendees,
                forall|j: int, b: int|
                    0 <= j < m && 0 <= b < n_attendees ==> #[trigger] n_blocking@[j]@[b] == 0,
                forall|j: int, b: int|
                    0 <= j < m && 0 <= b < n_attendees ==> #[trigger] gains@[j]@[b] == 0,
            decreases n_musicians - m,
        {
            placed.push(false);
            n_blocking.push(zero_counts(n_attendees));
            gains.push(zero_gains(n_attendees));
            m = m + 1;
        }
        let t = ScoreTally { placed, n_blocking, gains, n_attendees };
        proof {
            let v = t@;
            assert(v.placed =~= Seq::new(n_musicians as nat, |m: int| false));
            assert forall|j: int, b: int|
                0 <= j < v.placed.len() && 0 <= b < v.n_attendees implies #[trigger] v.gains[j][b]
                == 0 by {
                assert(t.gains@[j]@[b] == 0);
            }
            lemma_zero_rows(v, v.placed.len() as int);
            assert forall|j: int| 0 <= j < v.placed.len() implies (#[trigger] v.counts[j]).len()
                == v.n_attendees && v.counts[j] == t.n_blocking@[j]@ by {}
            assert forall|j: int| 0 <= j < v.placed.len() implies (#[trigger] v.gains[j]).len()
                == v.n_attendees && v.gains[j] == t.gains@[j]@ by {}
            assert forall|j: int, b: int|
                0 <= j < v.placed.len() && 0 <= b < v.n_attendees implies #[trigger] v.counts[j][b]
                == 0 by {
                assert(v.counts[j] == t.n_blocking@[j]@);
            }
        }
        t
    }

    /// Whether musician `m` is placed.
    pub fn is_placed(&self, m: usize) -> (b: bool)
        requires
            m < self@.n_musicians(),
        ensures
            b == self@.placed[m as int],
    {
        self.placed[m]
    }

    /// How many placed musicians block the line from musician `m` to
    /// attendee `a`.
    pub fn n_blocking(&self, m: usize, a: usize) -> (c: usize)
        requires
            self@.shaped(),
            m < self@.n_musicians(),
            a < self@.n_attendees,
        ensures
            c == self@.counts[m as int][a as int],
    {
        proof {
            assert(self@.counts[m as int] == self.n_blocking@[m as int]@);
        }
        self.n_blocking[m][a]
    }

    fn set_count(&mut self, m: usize, a: usize, c: usize)
        requires
            old(self)@.shaped(),
            m < old(self)@.n_musicians(),
            a < old(self)@.n_attendees,
        ensures
            final(self)@.shaped(),
            final(self)@.placed == old(self)@.placed,
            final(self)@.n_attendees == old(self)@.n_attendees,
            final(self)@.gains == old(self)@.gains,
            final(self)@.counts == old(self)@.counts.update(
                m as int,
                old(self)@.counts[m as int].update(a as int, c),
            ),
            final(self)@.total() == old(self)@.total() - old(self)@.live(m as int, a as int)
                + final(self)@.live(m as int, a as int),
            final(self)@.weight() == old(self)@.weight(),
    {
        proof {
            assert(old(self)@.counts[m as int] == old(self).n_blocking@[m as int]@);
        }
        self.n_blocking[m].set(a, c);
        proof {
            let v = old(self)@;
            let w = self@;
            assert(w.counts =~~= v.counts.update(m as int, v.counts[m as int].update(a as int, c)));
            assert(w.gains =~~= v.gains);
            lemma_cell(v, w, m as int, a as int);
        }
    }

    fn set_gain(&mut self, m: usize, a: usize, g: i64)
        requires
            old(self)@.shaped(),
            m < old(self)@.n_musicians(),
            a < old(self)@.n_attendees,
        ensures
            final(self)@.shaped(),
            final(self)@.placed == old(self)@.placed,
            final(self)@.n_attendees == old(self)@.n_attendees,
            final(self)@.counts == old(self)@.counts,
            final(self)@.gains == old(self)@.gains.update(
                m as int,
                old(self)@.gains[m as int].update(a as int, g),
            ),
            final(self)@.total() == old(self)@.total() - old(self)@.live(m as int, a as int)
                + final(self)@.live(m as int, a as int),
            final(self)@.weight() == old(self)@.weight() - abs_value(
                old(self)@.gains[m as int][a as int] as int,
            ) + abs_value(g as int),
    {
        proof {
            assert(old(self)@.gains[m as int] == old(self).gains@[m as int]@);
        }
        self.gains[m].set(a, g);
        proof {
            let v = old(self)@;
            let w = self@;
            assert(w.gains =~~= v.gains.update(m as int, v.gains[m as int].update(a as int, g)));
            assert(w.counts =~~= v.counts);
            lemma_cell(v, w, m as int, a as int);
        }
    }
}


impl ScoreTally {
    /// Sets the counts of row `m`, whose gains are all 0, to the number of
    /// placed musicians other than `m` that `blocked_by` flags.
    fn count_blockers(&mut self, m: usize, blocked_by: &Vec<Vec<bool>>)
        requires
            old(self)@.shaped(),
            m < old(self)@.n_musicians(),
            flags_shaped(blocked_by@, old(self)@.n_attendees, old(self)@.n_musicians()),
            forall|a: int| 0 <= a < old(self)@.n_attendees ==> #[trigger] old(self)@.gains[m as int][a] == 0,
        ensures
            final(self)@.shaped(),
            final(self)@.placed == old(self)@.placed,
            final(self)@.n_attendees == old(self)@.n_attendees,
            final(self)@.gains == old(self)@.gains,
            forall|j: int|
                0 <= j < old(self)@.n_musicians() && j != m ==> #[trigger] final(self)@.counts[j]
                    == old(self)@.counts[j],
            forall|a: int|
                0 <= a < old(self)@.n_attendees ==> #[trigger] final(self)@.counts[m as int][a]
                    == blocker_count(blocked_by@[a]@, old(self)@.placed, m as int, old(self)@.n_musicians() as int),
            final(self)@.total() == old(self)@.total(),
            final(self)@.weight() == old(self)@.weight(),
    {
        let ghost v0 = self@;
        let n_a = self.n_attendees;
        let n_m = self.placed.len();
        let mut a: usize = 0;
        while a < n_a
            invariant
                v0 == old(self)@,
                n_a == v0.n_attendees,
                n_m == v0.n_musicians(),
                a <= n_a,
                m < n_m,
                flags_shaped(blocked_by@, v0.n_attendees, v0.n_musicians()),
                forall|b: int| 0 <= b < n_a ==> #[trigger] v0.gains[m as int][b] == 0,
                self@.shaped(),
                self@.placed == v0.placed,
                self@.n_attendees == v0.n_attendees,
                self@.gains == v0.gains,
                forall|j: int| 0 <= j < n_m && j != m ==> #[trigger] self@.counts[j] == v0.counts[j],
                forall|b: int|
                    0 <= b < a ==> #[trigger] self@.counts[m as int][b] == blocker_count(
                        blocked_by@[b]@,
                        v0.placed,
                        m as int,
                        n_m as int,
                    ),
                self@.total() == v0.total(),
                self@.weight() == v0.weight(),
            decreases n_a - a,
        {
            let row = &blocked_by[a];
            let mut c: usize = 0;
            let mut b: usize = 0;
            while b < n_m
                invariant
                    n_m == v0.n_musicians(),
                    row@.len() == n_m,
                    self@.placed == v0.placed,
                    self.placed@ == v0.placed,
                    b <= n_m,
                    c <= b,
                    c == blocker_count(row@, v0.placed, m as int, b as int),
                decreases n_m - b,
            {
                proof {
                    assert(self@.placed == self.placed@);
                }
                if b != m && self.placed[b] && row[b] {
                    c = c + 1;
                }
                b = b + 1;
            }
            self.set_count(m, a, c);
            a = a + 1;
        }
    }

    /// Sets the gains of row `m`, which are all 0, to `gains`; returns the
    /// change of the total.
    fn put_gains(&mut self, m: usize, gains: &Vec<i64>) -> (diff: i64)
        requires
            old(self)@.shaped(),
            m < old(self)@.n_musicians(),
            gains@.len() == old(self)@.n_attendees,
            forall|a: int| 0 <= a < old(self)@.n_attendees ==> #[trigger] old(self)@.gains[m as int][a] == 0,
            old(self)@.weight() + seq_weight(gains@, gains@.len() as int) <= i64::MAX / 2,
        ensures
            final(self)@.shaped(),
            final(self)@.placed == old(self)@.placed,
            final(self)@.n_attendees == old(self)@.n_attendees,
            final(self)@.counts == old(self)@.counts,
            final(self)@.gains == old(self)@.gains.update(m as int, gains@),
            final(self)@.weight() == old(self)@.weight() + seq_weight(gains@, gains@.len() as int),
            diff == final(self)@.total() - old(self)@.total(),
    {
        let ghost v0 = self@;
        let n_a = self.n_attendees;
        let mut diff: i64 = 0;
        let mut a: usize = 0;
        proof {
            lemma_total_bound(v0, v0.n_musicians() as int);
        }
        while a < n_a
            invariant
                v0 == old(self)@,
                n_a == v0.n_attendees,
                gains@.len() == n_a,
                a <= n_a,
                m < v0.n_musicians(),
                0 <= v0.weight(),
                -v0.weight() <= v0.total() <= v0.weight(),
                v0.weight() + seq_weight(gains@, n_a as int) <= i64::MAX / 2,
                self@.shaped(),
                self@.placed == v0.placed,
                self@.n_attendees == v0.n_attendees,
                self@.counts == v0.counts,
                self@.gains.len() == v0.gains.len(),
                forall|j: int| 0 <= j < v0.n_musicians() && j != m ==> #[trigger] self@.gains[j] == v0.gains[j],
                forall|b: int| 0 <= b < a ==> #[trigger] self@.gains[m as int][b] == gains@[b],
                forall|b: int| a <= b < n_a ==> #[trigger] self@.gains[m as int][b] == 0,
                self@.weight() == v0.weight() + seq_weight(gains@, a as int),
                diff == self@.total() - v0.total(),
            decreases n_a - a,
        {
            let g = gains[a];
            let c = self.n_blocking(m, a);
            self.set_gain(m, a, g);
            proof {
                lemma_seq_weight_prefix(gains@, a + 1, n_a as int);
                lemma_total_bound(self@, self@.n_musicians() as int);
            }
            if c == 0 {
                diff = diff + g;
            }
            a = a + 1;
        }
        proof {
            assert(self@.gains[m as int] =~= gains@);
            assert(self@.gains =~~= v0.gains.update(m as int, gains@));
        }
        diff
    }

    /// Sets the gains of row `m` to 0; returns the change of the total.
    fn clear_gains(&mut self, m: usize) -> (diff: i64)
        requires
            old(self)@.shaped(),
            m < old(self)@.n_musicians(),
            old(self)@.weight() <= i64::MAX / 2,
        ensures
            final(self)@.shaped(),
            final(self)@.placed == old(self)@.placed,
            final(self)@.n_attendees == old(self)@.n_attendees,
            final(self)@.counts == old(self)@.counts,
            forall|j: int|
                0 <= j < old(self)@.n_musicians() && j != m ==> #[trigger] final(self)@.gains[j]
                    == old(self)@.gains[j],
            forall|a: int| 0 <= a < old(self)@.n_attendees ==> #[trigger] final(self)@.gains[m as int][a] == 0,
            final(self)@.weight() == old(self)@.weight() - old(self)@.row_weight(
                m as int,
                old(self)@.n_attendees as int,
            ),
            diff == final(self)@.total() - old(self)@.total(),
    {
        let ghost v0 = self@;
        let n_a = self.n_attendees;
        let mut diff: i64 = 0;
        let mut a: usize = 0;
        proof {
            lemma_total_bound(v0, v0.n_musicians() as int);
        }
        while a < n_a
            invariant
                v0 == old(self)@,
                n_a == v0.n_attendees,
                a <= n_a,
                m < v0.n_musicians(),
                0 <= v0.weight() <= i64::MAX / 2,
                -v0.weight() <= v0.total() <= v0.weight(),
                self@.shaped(),
                self@.placed == v0.placed,
                self@.n_attendees == v0.n_attendees,
                self@.counts == v0.counts,
                self@.gains.len() == v0.gains.len(),
                forall|j: int| 0 <= j < v0.n_musicians() && j != m ==> #[trigger] self@.gains[j] == v0.gains[j],
                forall|b: int| 0 <= b < a ==> #[trigger] self@.gains[m as int][b] == 0,
                forall|b: int| a <= b < n_a ==> #[trigger] self@.gains[m as int][b] == v0.gains[m as int][b],
                self@.weight() == v0.weight() - v0.row_weight(m as int, a as int),
                diff == self@.total() - v0.total(),
            decreases n_a - a,
        {
            let c = self.n_blocking(m, a);
            proof {
                assert(self@.gains[m as int] == self.gains@[m as int]@);
            }
            let g = self.gains[m][a];
            self.set_gain(m, a, 0);
            proof {
                lemma_row_bound(v0, m as int, a + 1);
                lemma_total_bound(self@, self@.n_musicians() as int);
            }
            if c == 0 {
                diff = diff - g;
            }
            a = a + 1;
        }
        diff
    }

    /// Sets the counts of row `m`, whose gains are all 0, to 0.
    fn clear_counts(&mut self, m: usize)
        requires
            old(self)@.shaped(),
            m < old(self)@.n_musicians(),
            forall|a: int| 0 <= a < old(self)@.n_attendees ==> #[trigger] old(self)@.gains[m as int][a] == 0,
        ensures
            final(self)@.shaped(),
            final(self)@.placed == old(self)@.placed,
            final(self)@.n_attendees == old(self)@.n_attendees,
            final(self)@.gains == old(self)@.gains,
            forall|j: int|
                0 <= j < old(self)@.n_musicians() && j != m ==> #[trigger] final(self)@.counts[j]
                    == old(self)@.counts[j],
            forall|a: int| 0 <= a < old(self)@.n_attendees ==> #[trigger] final(self)@.counts[m as int][a] == 0,
            final(self)@.total() == old(self)@.total(),
            final(self)@.weight() == old(self)@.weight(),
    {
        let ghost v0 = self@;
        let n_a = self.n_attendees;
        let mut a: usize = 0;
        while a < n_a
            invariant
                v0 == old(self)@,
                n_a == v0.n_attendees,
                a <= n_a,
                m < v0.n_musicians(),
                forall|b: int| 0 <= b < n_a ==> #[trigger] v0.gains[m as int][b] == 0,
                self@.shaped(),
                self@.placed == v0.placed,
                self@.n_attendees == v0.n_attendees,
                self@.gains == v0.gains,
                forall|j: int| 0 <= j < v0.n_musicians() && j != m ==> #[trigger] self@.counts[j] == v0.counts[j],
                forall|b: int| 0 <= b < a ==> #[trigger] self@.counts[m as int][b] == 0,
                self@.total() == v0.total(),
                self@.weight() == v0.weight(),
            decreases n_a - a,
        {
            self.set_count(m, a, 0);
            a = a + 1;
        }
    }
}


impl ScoreTally {
    /// Adds (`up`) or takes away one count for every line from another
    /// placed musician `k` to an attendee `a` that `blocks[k][a]` flags;
    /// returns the change of the total.
    fn bump(&mut self, m: usize, blocks: &Vec<Vec<bool>>, up: bool) -> (diff: i64)
        requires
            old(self)@.shaped(),
            m < old(self)@.n_musicians(),
            old(self)@.weight() <= i64::MAX / 2,
            flags_shaped(blocks@, old(self)@.n_musicians(), old(self)@.n_attendees),
            forall|k: int, a: int|
                0 <= k < old(self)@.n_musicians() && 0 <= a < old(self)@.n_attendees && k != m
                    && old(self)@.placed[k] && #[trigger] blocks@[k]@[a] ==> if up {
                    old(self)@.counts[k][a] < usize::MAX
                } else {
                    old(self)@.counts[k][a] >= 1
                },
        ensures
            final(self)@.shaped(),
            final(self)@.placed == old(self)@.placed,
            final(self)@.n_attendees == old(self)@.n_attendees,
            final(self)@.gains == old(self)@.gains,
            forall|k: int, a: int|
                0 <= k < old(self)@.n_musicians() && 0 <= a < old(self)@.n_attendees
                    ==> #[trigger] final(self)@.counts[k][a] == bumped_count(
                    old(self)@,
                    m as int,
                    blocks@,
                    up,
                    k,
                    a,
                ),
            final(self)@.weight() == old(self)@.weight(),
            diff == final(self)@.total() - old(self)@.total(),
    {
        let ghost v0 = self@;
        let n_a = self.n_attendees;
        let n_m = self.placed.len();
        let mut diff: i64 = 0;
        proof {
            lemma_total_bound(v0, v0.n_musicians() as int);
        }
        let mut k: usize = 0;
        while k < n_m
            invariant
                v0 == old(self)@,
                n_a == v0.n_attendees,
                n_m == v0.n_musicians(),
                k <= n_m,
                m < n_m,
                0 <= v0.weight() <= i64::MAX / 2,
                -v0.weight() <= v0.total() <= v0.weight(),
                flags_shaped(blocks@, v0.n_musicians(), v0.n_attendees),
                forall|j: int, a: int|
                    0 <= j < n_m && 0 <= a < n_a && j != m && v0.placed[j] && #[trigger] blocks@[j]@[a]
                        ==> if up {
                        v0.counts[j][a] < usize::MAX
                    } else {
                        v0.counts[j][a] >= 1
                    },
                self@.shaped(),
                self@.placed == v0.placed,
                self.placed@ == v0.placed,
                self@.n_attendees == v0.n_attendees,
                self@.gains == v0.gains,
                self@.weight() == v0.weight(),
                forall|j: int, a: int|
                    0 <= j < k && 0 <= a < n_a ==> #[trigger] self@.counts[j][a] == bumped_count(
                        v0,
                        m as int,
                        blocks@,
                        up,
                        j,
                        a,
                    ),
                forall|j: int| k <= j < n_m ==> #[trigger] self@.counts[j] == v0.counts[j],
                diff == self@.total() - v0.total(),
            decreases n_m - k,
        {
            if k != m && self.placed[k] {
                let row = &blocks[k];
                let mut a: usize = 0;
                while a < n_a
                    invariant
                        v0 == old(self)@,
                        n_a == v0.n_attendees,
                        n_m == v0.n_musicians(),
                        k < n_m,
                        k != m,
                        v0.placed[k as int],
                        row@ == blocks@[k as int]@,
                        row@.len() == n_a,
                        a <= n_a,
                        0 <= v0.weight() <= i64::MAX / 2,
                        -v0.weight() <= v0.total() <= v0.weight(),
                        forall|b: int|
                            0 <= b < n_a && #[trigger] row@[b] ==> if up {
                                v0.counts[k as int][b] < usize::MAX
                            } else {
                                v0.counts[k as int][b] >= 1
                            },
                        self@.shaped(),
                        self@.placed == v0.placed,
                        self.placed@ == v0.placed,
                        self@.n_attendees == v0.n_attendees,
                        self@.gains == v0.gains,
                        self@.weight() == v0.weight(),
                        forall|j: int, b: int|
                            0 <= j < k && 0 <= b < n_a ==> #[trigger] self@.counts[j][b]
                                == bumped_count(v0, m as int, blocks@, up, j, b),
                        forall|b: int|
                            0 <= b < a ==> #[trigger] self@.counts[k as int][b] == bumped_count(
                                v0,
                                m as int,
                                blocks@,
                                up,
                                k as int,
                                b,
                            ),
                        forall|b: int| a <= b < n_a ==> #[trigger] self@.counts[k as int][b] == v0.counts[k as int][b],
                        forall|j: int| k < j < n_m ==> #[trigger] self@.counts[j] == v0.counts[j],
                        diff == self@.total() - v0.total(),
                    decreases n_a - a,
                {
                    if row[a] {
                        let c0 = self.n_blocking(k, a);
                        proof {
                            assert(self@.gains[k as int] == self.gains@[k as int]@);
                        }
                        let g = self.gains[k][a];
                        if up {
                            let c = c0 + 1;
                            self.set_count(k, a, c);
                            proof {
                                lemma_total_bound(self@, self@.n_musicians() as int);
                            }
                            if c == 1 {
                                diff = diff - g;
                            }
                        } else {
                            let c = c0 - 1;
                            self.set_count(k, a, c);
                            proof {
                                lemma_total_bound(self@, self@.n_musicians() as int);
                            }
                            if c == 0 {
                                diff = diff + g;
                            }
                        }
                    }
                    a = a + 1;
                }
            }
            k = k + 1;
        }
        diff
    }

    /// Exchanges the placement flags and the count rows of `m1` and `m2`,
    /// whose gains are all 0.
    fn exchange_rows(&mut self, m1: usize, m2: usize)
        requires
            old(self)@.shaped(),
            m1 < old(self)@.n_musicians(),
            m2 < old(self)@.n_musicians(),
            m1 != m2,
            forall|a: int| 0 <= a < old(self)@.n_attendees ==> #[trigger] old(self)@.gains[m1 as int][a] == 0,
            forall|a: int| 0 <= a < old(self)@.n_attendees ==> #[trigger] old(self)@.gains[m2 as int][a] == 0,
        ensures
            final(self)@.shaped(),
            final(self)@.n_attendees == old(self)@.n_attendees,
            final(self)@.placed == old(self)@.placed.update(m1 as int, old(self)@.placed[m2 as int]).update(
                m2 as int,
                old(self)@.placed[m1 as int],
            ),
            final(self)@.counts == old(self)@.counts.update(m1 as int, old(self)@.counts[m2 as int]).update(
                m2 as int,
                old(self)@.counts[m1 as int],
            ),
            final(self)@.gains == old(self)@.gains,
            final(self)@.total() == old(self)@.total(),
            final(self)@.weight() == old(self)@.weight(),
    {
        let ghost v0 = self@;
        let p1 = self.placed[m1];
        let p2 = self.placed[m2];
        self.placed.set(m1, p2);
        self.placed.set(m2, p1);
        let mut tmp: Vec<usize> = Vec::new();
        std::mem::swap(&mut tmp, &mut self.n_blocking[m1]);
        std::mem::swap(&mut tmp, &mut self.n_blocking[m2]);
        std::mem::swap(&mut tmp, &mut self.n_blocking[m1]);
        proof {
            let w = self@;
            let na = v0.n_attendees as int;
            assert(w.placed =~= v0.placed.update(m1 as int, v0.placed[m2 as int]).update(
                m2 as int,
                v0.placed[m1 as int],
            ));
            assert(w.counts =~~= v0.counts.update(m1 as int, v0.counts[m2 as int]).update(
                m2 as int,
                v0.counts[m1 as int],
            ));
            assert(w.gains =~~= v0.gains);
            lemma_zero_row(v0, m1 as int, na);
            lemma_zero_row(v0, m2 as int, na);
            lemma_zero_row(w, m1 as int, na);
            lemma_zero_row(w, m2 as int, na);
            assert forall|j: int| 0 <= j < v0.n_musicians() implies #[trigger] w.row_live(j, na)
                == v0.row_live(j, na) && w.row_weight(j, na) == v0.row_weight(j, na) by {
                if j != m1 && j != m2 {
                    lemma_row_same(v0, j, w, j, na);
                }
            }
            lemma_total_same(v0, w, v0.n_musicians() as int);
        }
    }
}


impl ScoreTally {
    fn set_placed(&mut self, m: usize, b: bool)
        requires
            old(self)@.shaped(),
            m < old(self)@.n_musicians(),
        ensures
            final(self)@.shaped(),
            final(self)@.placed == old(self)@.placed.update(m as int, b),
            final(self)@.n_attendees == old(self)@.n_attendees,
            final(self)@.counts == old(self)@.counts,
            final(self)@.gains == old(self)@.gains,
            final(self)@.total() == old(self)@.total(),
            final(self)@.weight() == old(self)@.weight(),
    {
        self.placed.set(m, b);
        proof {
            let v = old(self)@;
            let w = self@;
            assert(w.counts =~~= v.counts);
            assert(w.gains =~~= v.gains);
            assert forall|j: int| 0 <= j < v.n_musicians() implies #[trigger] w.row_live(
                j,
                v.n_attendees as int,
            ) == v.row_live(j, v.n_attendees as int) && w.row_weight(j, v.n_attendees as int)
                == v.row_weight(j, v.n_attendees as int) by {
                lemma_row_same(v, j, w, j, v.n_attendees as int);
            }
            lemma_total_same(v, w, v.n_musicians() as int);
        }
    }

    /// Places musician `m`. `blocked_by[a][b]` says whether musician `b`
    /// stands in the line from `m` to attendee `a`, `gains[a]` what `m`
    /// scores with `a` when nothing stands in between, and `blocks[k][a]`
    /// whether `m` stands in the line from musician `k` to `a`. Returns the
    /// change of the score.
    pub fn add_musician(
        &mut self,
        m: usize,
        blocked_by: &Vec<Vec<bool>>,
        gains: &Vec<i64>,
        blocks: &Vec<Vec<bool>>,
    ) -> (diff: i64)
        requires
            old(self)@.wf(),
            m < old(self)@.n_musicians(),
            !old(self)@.placed[m as int],
            flags_shaped(blocked_by@, old(self)@.n_attendees, old(self)@.n_musicians()),
            gains@.len() == old(self)@.n_attendees,
            flags_shaped(blocks@, old(self)@.n_musicians(), old(self)@.n_attendees),
            old(self)@.weight() + seq_weight(gains@, gains@.len() as int) <= i64::MAX / 2,
            forall|k: int, a: int|
                0 <= k < old(self)@.n_musicians() && 0 <= a < old(self)@.n_attendees && k != m
                    && old(self)@.placed[k] && #[trigger] blocks@[k]@[a] ==> old(self)@.counts[k][a]
                    < usize::MAX,
        ensures
            final(self)@.wf(),
            is_added(old(self)@, final(self)@, m as int, blocked_by@, gains@, blocks@),
            diff == final(self)@.total() - old(self)@.total(),
    {
        let ghost v0 = self@;
        self.count_blockers(m, blocked_by);
        let ghost v1 = self@;
        let d1 = self.put_gains(m, gains);
        let ghost v2 = self@;
        let d2 = self.bump(m, blocks, true);
        self.set_placed(m, true);
        proof {
            let w = self@;
            lemma_total_bound(v0, v0.n_musicians() as int);
            lemma_total_bound(w, w.n_musicians() as int);
            assert forall|k: int, a: int|
                0 <= k < v0.n_musicians() && 0 <= a < v0.n_attendees && k != m
                    implies #[trigger] w.counts[k][a] == bumped_count(v0, m as int, blocks@, true, k, a) by {
                assert(v2.counts[k] == v0.counts[k]);
            }
            assert forall|k: int| 0 <= k < v0.n_musicians() && k != m implies #[trigger] w.gains[k]
                == v0.gains[k] by {
                assert(v2.gains[k] == v0.gains[k]);
            }
            assert forall|a: int| 0 <= a < v0.n_attendees implies #[trigger] w.counts[m as int][a]
                == blocker_count(blocked_by@[a]@, v0.placed, m as int, v0.n_musicians() as int) by {
                assert(v2.counts[m as int][a] == v1.counts[m as int][a]);
            }
            assert forall|k: int, a: int|
                #![trigger w.counts[k][a]]
                #![trigger w.gains[k][a]]
                0 <= k < w.placed.len() && 0 <= a < w.n_attendees && !w.placed[k]
                    implies w.counts[k][a] == 0 && w.gains[k][a] == 0 by {
                assert(v0.counts[k][a] == 0 && v0.gains[k][a] == 0);
                assert(v2.counts[k] == v0.counts[k]);
            }
        }
        d1 + d2
    }

    /// Takes musician `m` away. `blocks[k][a]` says whether `m` stood in
    /// the line from musician `k` to attendee `a`. Returns the change of the
    /// score.
    pub fn remove_musician(&mut self, m: usize, blocks: &Vec<Vec<bool>>) -> (diff: i64)
        requires
            old(self)@.wf(),
            m < old(self)@.n_musicians(),
            old(self)@.placed[m as int],
            flags_shaped(blocks@, old(self)@.n_musicians(), old(self)@.n_attendees),
            forall|k: int, a: int|
                0 <= k < old(self)@.n_musicians() && 0 <= a < old(self)@.n_attendees && k != m
                    && old(self)@.placed[k] && #[trigger] blocks@[k]@[a] ==> old(self)@.counts[k][a]
                    >= 1,
        ensures
            final(self)@.wf(),
            is_removed(old(self)@, final(self)@, m as int, blocks@),
            diff == final(self)@.total() - old(self)@.total(),
    {
        let ghost v0 = self@;
        let d1 = self.clear_gains(m);
        proof {
            lemma_row_bound(v0, m as int, v0.n_attendees as int);
        }
        self.clear_counts(m);
        let ghost v2 = self@;
        let d2 = self.bump(m, blocks, false);
        self.set_placed(m, false);
        proof {
            let w = self@;
            lemma_total_bound(v0, v0.n_musicians() as int);
            lemma_total_bound(w, w.n_musicians() as int);
            assert forall|k: int, a: int|
                0 <= k < v0.n_musicians() && 0 <= a < v0.n_attendees && k != m
                    implies #[trigger] w.counts[k][a] == bumped_count(v0, m as int, blocks@, false, k, a) by {
                assert(v2.counts[k] == v0.counts[k]);
            }
            assert forall|a: int| 0 <= a < v0.n_attendees implies #[trigger] w.counts[m as int][a]
                == 0 by {
                assert(w.counts[m as int][a] == bumped_count(v2, m as int, blocks@, false, m as int, a));
            }
            assert forall|k: int, a: int|
                #![trigger w.counts[k][a]]
                #![trigger w.gains[k][a]]
                0 <= k < w.placed.len() && 0 <= a < w.n_attendees && !w.placed[k]
                    implies w.counts[k][a] == 0 && w.gains[k][a] == 0 by {
                if k != m {
                    assert(v0.counts[k][a] == 0 && v0.gains[k][a] == 0);
                    assert(v2.counts[k] == v0.counts[k]);
                }
            }
        }
        d1 + d2
    }

    /// Lets musicians `m1` and `m2` trade places. `gains1[a]` is what `m1`
    /// scores with attendee `a` at the place of `m2` when nothing stands in
    /// between (read only when `m2` is placed), and `gains2` likewise for
    /// `m2`. Nobody's blocking changes. Returns the change of the score.
    pub fn swap_musicians(
        &mut self,
        m1: usize,
        m2: usize,
        gains1: &Vec<i64>,
        gains2: &Vec<i64>,
    ) -> (diff: i64)
        requires
            old(self)@.wf(),
            m1 < old(self)@.n_musicians(),
            m2 < old(self)@.n_musicians(),
            m1 != m2,
            old(self)@.placed[m2 as int] ==> gains1@.len() == old(self)@.n_attendees,
            old(self)@.placed[m1 as int] ==> gains2@.len() == old(self)@.n_attendees,
            swapped_weight(old(self)@, m1 as int, m2 as int, gains1@, gains2@) <= i64::MAX / 2,
        ensures
            final(self)@.wf(),
            is_swapped(old(self)@, final(self)@, m1 as int, m2 as int, gains1@, gains2@),
            diff == final(self)@.total() - old(self)@.total(),
    {
        let ghost v0 = self@;
        proof {
            lemma_row_bound(v0, m1 as int, v0.n_attendees as int);
            lemma_row_bound(v0, m2 as int, v0.n_attendees as int);
            lemma_total_bound(v0, v0.n_musicians() as int);
            lemma_seq_weight_prefix(gains1@, 0, v0.n_attendees as int);
            lemma_seq_weight_prefix(gains2@, 0, v0.n_attendees as int);
        }
        let d1 = self.clear_gains(m1);
        let ghost v1 = self@;
        let d2 = self.clear_gains(m2);
        let ghost v2 = self@;
        proof {
            assert(v1.gains[m2 as int] == v0.gains[m2 as int]);
            lemma_row_same(v0, m2 as int, v1, m2 as int, v0.n_attendees as int);
            assert(v2.gains[m1 as int] == v1.gains[m1 as int]);
            lemma_total_bound(v2, v2.n_musicians() as int);
        }
        self.exchange_rows(m1, m2);
        let ghost v3 = self@;
        let mut diff = d1 + d2;
        if self.placed[m1] {
            let d3 = self.put_gains(m1, gains1);
            proof {
                lemma_total_bound(self@, self@.n_musicians() as int);
            }
            diff = diff + d3;
        }
        let ghost v4 = self@;
        if self.placed[m2] {
            proof {
                assert(self@.gains[m2 as int] == v3.gains[m2 as int]);
            }
            let d4 = self.put_gains(m2, gains2);
            proof {
                lemma_total_bound(self@, self@.n_musicians() as int);
            }
            diff = diff + d4;
        }
        proof {
            let w = self@;
            assert forall|k: int|
                0 <= k < v0.n_musicians() && k != m1 && k != m2 implies #[trigger] w.gains[k]
                == v0.gains[k] by {
                assert(v4.gains[k] == v0.gains[k]);
            }
            if !v0.placed[m2 as int] {
                assert forall|a: int| 0 <= a < v0.n_attendees implies #[trigger] w.gains[m1 as int][a]
                    == 0 by {
                    assert(v3.gains[m1 as int][a] == 0);
                }
            }
            if !v0.placed[m1 as int] {
                assert forall|a: int| 0 <= a < v0.n_attendees implies #[trigger] w.gains[m2 as int][a]
                    == 0 by {
                    assert(v4.gains[m2 as int] == v3.gains[m2 as int]);
                }
            }
            if v0.placed[m2 as int] {
                assert(v4.gains[m1 as int] == gains1@);
            }
            assert forall|k: int, a: int|
                #![trigger w.counts[k][a]]
                #![trigger w.gains[k][a]]
                0 <= k < w.placed.len() && 0 <= a < w.n_attendees && !w.placed[k]
                    implies w.counts[k][a] == 0 && w.gains[k][a] == 0 by {
                if k != m1 && k != m2 {
                    assert(v0.counts[k][a] == 0 && v0.gains[k][a] == 0);
                } else if k == m1 {
                    assert(v0.counts[m2 as int][a] == 0);
                } else {
                    assert(v0.counts[m1 as int][a] == 0);
                }
            }
        }
        diff
    }
}

} // verus!
