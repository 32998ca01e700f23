//! Sequence diff (Myers, O(ND)) over lines, plus a line-level three-way merge.

use vstd::prelude::*;
use vstd::std_specs::cmp::PartialEqSpec;

use crate::lines::{lines_of, number_items, slice_views};

pub use crate::lines::split_lines;
pub use crate::merge::{diff3, Merge};
pub use crate::patch::byte_edits;
pub use crate::unified::unified;

verus! {

/// One hunk of a diff: `a[a_from..a_to)` is replaced by `b[b_from..b_to)`.
#[derive(Clone, Copy, Debug, PartialEq, Eq, Structural)]
pub struct Hunk {
    pub a_from: usize,
    pub a_to: usize,
    pub b_from: usize,
    pub b_to: usize,
}

/// A place in the edit grid: `a[..x]` has been turned into `b[..y]`.
pub struct Point {
    pub x: int,
    pub y: int,
}

/// A step off the diagonal: at `(x, y)`, insert `b[y]` or delete `a[x]`.
pub struct Step {
    pub x: int,
    pub y: int,
    pub insert: bool,
}

impl Step {
    /// Where the step leads.
    pub open spec fn end(self) -> Point {
        if self.insert {
            Point { x: self.x, y: self.y + 1 }
        } else {
            Point { x: self.x + 1, y: self.y }
        }
    }
}

/// The end of the run of equal items from a place on.
pub open spec fn snake<T>(a: Seq<T>, b: Seq<T>, p: Point) -> Point
    decreases a.len() - p.x,
{
    if p.x < a.len() && p.y < b.len() && a[p.x] == b[p.y] {
        snake(a, b, Point { x: p.x + 1, y: p.y + 1 })
    } else {
        p
    }
}

/// The step that reaches furthest on diagonal `2 * t - d`, given the furthest places of
/// the round before: down from the next diagonal or right from the one before.
pub open spec fn best_step(prev: Seq<Option<Point>>, d: int, t: int, n: int, m: int) -> Option<Step> {
    let down = if t < d && prev[t] is Some && prev[t]->Some_0.y < m {
        Some(Step { x: prev[t]->Some_0.x, y: prev[t]->Some_0.y, insert: true })
    } else {
        None
    };
    let right = if t > 0 && prev[t - 1] is Some && prev[t - 1]->Some_0.x < n {
        Some(Step { x: prev[t - 1]->Some_0.x, y: prev[t - 1]->Some_0.y, insert: false })
    } else {
        None
    };
    match (down, right) {
        (Some(p), Some(q)) => if q.x < p.x {
            down
        } else {
            right
        },
        (Some(_), None) => down,
        (None, _) => right,
    }
}

/// The furthest place on each diagonal that `d` edits can reach; entry `t` is for diagonal
/// `2 * t - d`.
pub open spec fn reach_row<T>(a: Seq<T>, b: Seq<T>, d: nat) -> Seq<Option<Point>>
    decreases d,
{
    if d == 0 {
        seq![Some(snake(a, b, Point { x: 0, y: 0 }))]
    } else {
        let prev = reach_row(a, b, (d - 1) as nat);
        Seq::new(
            d + 1,
            |t: int|
                match best_step(prev, d as int, t, a.len() as int, b.len() as int) {
                    Some(s) => Some(snake(a, b, s.end())),
                    None => None,
                },
        )
    }
}

/// The end of the edit grid.
pub open spec fn corner<T>(a: Seq<T>, b: Seq<T>) -> Point {
    Point { x: a.len() as int, y: b.len() as int }
}

/// `d` edits lead to the end, on diagonal `2 * t - d`.
pub open spec fn arrives<T>(a: Seq<T>, b: Seq<T>, d: nat, t: int) -> bool {
    0 <= t <= d && reach_row(a, b, d)[t] == Some(corner(a, b))
}

/// No fewer than `d` edits lead to the end.
pub open spec fn none_before<T>(a: Seq<T>, b: Seq<T>, d: nat) -> bool {
    forall|e: nat, t: int| e < d ==> !#[trigger] arrives(a, b, e, t)
}

/// The steps on the way to the furthest place of entry `t` of row `d`.
pub open spec fn steps_to<T>(a: Seq<T>, b: Seq<T>, d: nat, t: int) -> Seq<Step>
    decreases d,
{
    if d == 0 {
        Seq::empty()
    } else {
        match best_step(reach_row(a, b, (d - 1) as nat), d as int, t, a.len() as int, b.len() as int) {
            Some(s) => steps_to(
                a,
                b,
                (d - 1) as nat,
                if s.insert {
                    t
                } else {
                    t - 1
                },
            ).push(s),
            None => Seq::empty(),
        }
    }
}

/// A hunk as a mathematical value.
pub struct HunkView {
    pub a_from: int,
    pub a_to: int,
    pub b_from: int,
    pub b_to: int,
}

impl View for Hunk {
    type V = HunkView;

    open spec fn view(&self) -> HunkView {
        HunkView {
            a_from: self.a_from as int,
            a_to: self.a_to as int,
            b_from: self.b_from as int,
            b_to: self.b_to as int,
        }
    }
}

pub open spec fn hunk_views(hs: Seq<Hunk>) -> Seq<HunkView> {
    Seq::new(hs.len(), |i: int| hs[i]@)
}

/// Add a step to the hunks so far: it widens the last one, or begins one of its own.
pub open spec fn add_step(hs: Seq<HunkView>, s: Step) -> Seq<HunkView> {
    let e = s.end();
    if hs.len() > 0 && hs.last().a_to == s.x && hs.last().b_to == s.y {
        hs.drop_last().push(HunkView { a_to: e.x, b_to: e.y, ..hs.last() })
    } else {
        hs.push(HunkView { a_from: s.x, a_to: e.x, b_from: s.y, b_to: e.y })
    }
}

/// Consecutive steps grouped into hunks.
pub open spec fn hunks_of(steps: Seq<Step>) -> Seq<HunkView>
    decreases steps.len(),
{
    if steps.len() == 0 {
        Seq::empty()
    } else {
        add_step(hunks_of(steps.drop_last()), steps.last())
    }
}

/// Length of the common prefix.
pub open spec fn common_prefix_len<T>(a: Seq<T>, b: Seq<T>) -> int {
    snake(a, b, Point { x: 0, y: 0 }).x
}

/// Length of the common suffix of `a` and `b`, at most `max`.
pub open spec fn common_suffix_len<T>(a: Seq<T>, b: Seq<T>, max: int) -> int
    decreases max,
{
    if max <= 0 || a.len() == 0 || b.len() == 0 || a.last() != b.last() {
        0
    } else {
        1 + common_suffix_len(a.drop_last(), b.drop_last(), max - 1)
    }
}

pub open spec fn shorter(x: int, y: int) -> int {
    if x <= y {
        x
    } else {
        y
    }
}

/// The part of `a` between the prefix and the suffix it shares with `b`.
pub open spec fn trimmed<T>(a: Seq<T>, b: Seq<T>) -> (int, Seq<T>, Seq<T>) {
    let pre = common_prefix_len(a, b);
    let suf = common_suffix_len(a, b, shorter(a.len() - pre, b.len() - pre));
    (pre, a.subrange(pre, a.len() - suf), b.subrange(pre, b.len() - suf))
}

/// The hunks of the middle part: those of the shortest edit script, or a single one when
/// that has more than `max_d` edits.
pub open spec fn middle_hunks<T>(a: Seq<T>, b: Seq<T>, max_d: nat, hs: Seq<HunkView>) -> bool {
    if exists|d: nat, t: int| d <= max_d && #[trigger] arrives(a, b, d, t) {
        exists|d: nat, t: int|
            d <= max_d && none_before(a, b, d) && #[trigger] arrives(a, b, d, t) && hs == hunks_of(
                steps_to(a, b, d, t),
            )
    } else {
        hs == seq![HunkView { a_from: 0, a_to: a.len() as int, b_from: 0, b_to: b.len() as int }]
    }
}

pub open spec fn shift_hunks(hs: Seq<HunkView>, by: int) -> Seq<HunkView> {
    Seq::new(
        hs.len(),
        |i: int|
            HunkView {
                a_from: hs[i].a_from + by,
                a_to: hs[i].a_to + by,
                b_from: hs[i].b_from + by,
                b_to: hs[i].b_to + by,
            },
    )
}

/// `hs` is the diff of `a` and `b`.
#[verifier::opaque]
pub open spec fn is_diff<T>(a: Seq<T>, b: Seq<T>, max_d: nat, hs: Seq<HunkView>) -> bool {
    let (pre, a2, b2) = trimmed(a, b);
    if a2.len() == 0 && b2.len() == 0 {
        hs == Seq::<HunkView>::empty()
    } else if a2.len() == 0 || b2.len() == 0 {
        hs == seq![HunkView { a_from: pre, a_to: pre + a2.len(), b_from: pre, b_to: pre + b2.len() }]
    } else {
        exists|mid: Seq<HunkView>| #[trigger] middle_hunks(a2, b2, max_d, mid) && hs == shift_hunks(mid, pre)
    }
}

/// From `p` to `q`, `a` and `b` run alike.
pub open spec fn alike<T>(a: Seq<T>, b: Seq<T>, p: Point, q: Point) -> bool {
    &&& 0 <= p.x <= q.x <= a.len()
    &&& 0 <= p.y <= q.y <= b.len()
    &&& q.x - p.x == q.y - p.y
    &&& a.subrange(p.x, q.x) == b.subrange(p.y, q.y)
}

proof fn lemma_snake<T>(a: Seq<T>, b: Seq<T>, p: Point)
    requires
        0 <= p.x <= a.len(),
        0 <= p.y <= b.len(),
    ensures
        alike(a, b, p, snake(a, b, p)),
        ({
            let e = snake(a, b, p);
            e.x == a.len() || e.y == b.len() || a[e.x] != b[e.y]
        }),
    decreases a.len() - p.x,
{
    if p.x < a.len() && p.y < b.len() && a[p.x] == b[p.y] {
        let q = Point { x: p.x + 1, y: p.y + 1 };
        lemma_snake(a, b, q);
        let e = snake(a, b, p);
        assert(a.subrange(p.x, e.x) =~= seq![a[p.x]] + a.subrange(q.x, e.x));
        assert(b.subrange(p.y, e.y) =~= seq![b[p.y]] + b.subrange(q.y, e.y));
    } else {
        assert(a.subrange(p.x, p.x) =~= b.subrange(p.y, p.y));
    }
}

/// Entries of a row lie in the grid, on their diagonal.
proof fn lemma_row<T>(a: Seq<T>, b: Seq<T>, d: nat)
    ensures
        reach_row(a, b, d).len() == d + 1,
        forall|t: int|
            0 <= t <= d ==> (#[trigger] reach_row(a, b, d)[t] matches Some(p) ==> 0 <= p.x <= a.len() && 0 <= p.y
                <= b.len() && p.x - p.y == 2 * t - d),
    decreases d,
{
    if d == 0 {
        lemma_snake(a, b, Point { x: 0, y: 0 });
    } else {
        let prev = reach_row(a, b, (d - 1) as nat);
        lemma_row(a, b, (d - 1) as nat);
        assert forall|t: int| 0 <= t <= d implies (#[trigger] reach_row(a, b, d)[t] matches Some(p) ==> 0 <= p.x
            <= a.len() && 0 <= p.y <= b.len() && p.x - p.y == 2 * t - d) by {
            match best_step(prev, d as int, t, a.len() as int, b.len() as int) {
                Some(s) => {
                    lemma_best_step(prev, d as int, t, a.len() as int, b.len() as int);
                    lemma_snake(a, b, s.end());
                },
                None => {},
            }
        }
    }
}

/// The best step starts at an entry of the previous row.
proof fn lemma_best_step(prev: Seq<Option<Point>>, d: int, t: int, n: int, m: int)
    requires
        best_step(prev, d, t, n, m) is Some,
    ensures
        ({
            let s = best_step(prev, d, t, n, m)->Some_0;
            let from = if s.insert {
                t
            } else {
                t - 1
            };
            &&& s.insert ==> t < d && s.y < m
            &&& !s.insert ==> t > 0 && s.x < n
            &&& prev[from] == Some(Point { x: s.x, y: s.y })
        }),
{
}

/// Items whose `==` is equality.
pub open spec fn plain_eq<T: PartialEq>() -> bool {
    &&& T::obeys_eq_spec()
    &&& forall|x: T, y: T| #[trigger] x.eq_spec(&y) == (x == y)
}

/// A row of places, as computed.
spec fn row_view(row: Seq<Option<(usize, usize)>>) -> Seq<Option<Point>> {
    Seq::new(
        row.len(),
        |t: int|
            match row[t] {
                Some(p) => Some(Point { x: p.0 as int, y: p.1 as int }),
                None => None,
            },
    )
}

fn run_snake<T: PartialEq>(a: &[T], b: &[T], x: usize, y: usize) -> (r: (usize, usize))
    requires
        plain_eq::<T>(),
        x <= a@.len(),
        y <= b@.len(),
    ensures
        (Point { x: r.0 as int, y: r.1 as int }) == snake(a@, b@, Point { x: x as int, y: y as int }),
{
    let mut i: usize = x;
    let mut j: usize = y;
    while i < a.len() && j < b.len() && a[i] == b[j]
        invariant
            plain_eq::<T>(),
            i <= a@.len(),
            j <= b@.len(),
            snake(a@, b@, Point { x: x as int, y: y as int }) == snake(
                a@,
                b@,
                Point { x: i as int, y: j as int },
            ),
        decreases a@.len() - i,
    {
        i += 1;
        j += 1;
    }
    (i, j)
}

/// The best step to entry `t` of row `d`: where it starts, and whether it inserts.
fn choose_step(prev: &Vec<Option<(usize, usize)>>, d: usize, t: usize, n: usize, m: usize) -> (r: Option<
    (usize, usize, bool),
>)
    requires
        d >= 1,
        t <= d,
        prev@.len() == d,
    ensures
        match (r, best_step(row_view(prev@), d as int, t as int, n as int, m as int)) {
            (Some(s), Some(g)) => g == (Step { x: s.0 as int, y: s.1 as int, insert: s.2 }),
            (None, None) => true,
            _ => false,
        },
{
    let down: Option<(usize, usize)> = if t < d {
        match prev[t] {
            Some(p) => if p.1 < m {
                Some(p)
            } else {
                None
            },
            None => None,
        }
    } else {
        None
    };
    let right: Option<(usize, usize)> = if t > 0 {
        match prev[t - 1] {
            Some(p) => if p.0 < n {
                Some(p)
            } else {
                None
            },
            None => None,
        }
    } else {
        None
    };
    match (down, right) {
        (Some(p), Some(q)) => if q.0 < p.0 {
            Some((p.0, p.1, true))
        } else {
            Some((q.0, q.1, false))
        },
        (Some(p), None) => Some((p.0, p.1, true)),
        (None, Some(q)) => Some((q.0, q.1, false)),
        (None, None) => None,
    }
}

/// Every row computed so far is the one the definition gives.
spec fn rows_ok<T>(a: Seq<T>, b: Seq<T>, rows: Seq<Vec<Option<(usize, usize)>>>) -> bool {
    forall|d: int| 0 <= d < rows.len() ==> row_view((#[trigger] rows[d])@) == reach_row(a, b, d as nat)
}

/// The hunks of the shortest edit script, following the rows back from the end.
fn trace_back<T>(a: &[T], b: &[T], rows: &Vec<Vec<Option<(usize, usize)>>>, d: usize, t: usize) -> (hunks: Vec<Hunk>)
    requires
        rows_ok(a@, b@, rows@),
        d < rows@.len(),
        arrives(a@, b@, d as nat, t as int),
    ensures
        hunk_views(hunks@) == hunks_of(steps_to(a@, b@, d as nat, t as int)),
{
    let n: usize = a.len();
    let m: usize = b.len();
    // Steps from the last to the first.
    let mut steps: Vec<(usize, usize, bool)> = Vec::new();
    let mut e: usize = d;
    let mut at: usize = t;
    let ghost all = steps_to(a@, b@, d as nat, t as int);
    assert(steps_to(a@, b@, e as nat, at as int) + rev_steps(steps@) =~= all);
    while e > 0
        invariant
            rows_ok(a@, b@, rows@),
            n == a@.len(),
            m == b@.len(),
            e <= d < rows@.len(),
            at <= e,
            reach_row(a@, b@, e as nat)[at as int] is Some,
            all == steps_to(a@, b@, d as nat, t as int),
            steps_to(a@, b@, e as nat, at as int) + rev_steps(steps@) == all,
        decreases e,
    {
        let ghost prev = reach_row(a@, b@, (e - 1) as nat);
        proof {
            lemma_row(a@, b@, (e - 1) as nat);
            lemma_row(a@, b@, e as nat);
            assert(row_view(rows@[e - 1]@) == prev);
            assert(rows@[e - 1]@.len() == row_view(rows@[e - 1]@).len());
        }
        let s: (usize, usize, bool) = choose_step(&rows[e - 1], e, at, n, m).unwrap();
        let ghost g = best_step(prev, e as int, at as int, n as int, m as int)->Some_0;
        proof {
            lemma_best_step(prev, e as int, at as int, n as int, m as int);
        }
        let ghost before = steps@;
        steps.push(s);
        proof {
            let from = if g.insert {
                at as int
            } else {
                at - 1
            };
            assert(rev_steps(steps@) =~= seq![g] + rev_steps(before));
            assert(steps_to(a@, b@, (e - 1) as nat, from) + rev_steps(steps@) =~= all);
        }
        if !s.2 {
            at -= 1;
        }
        e -= 1;
    }
    assert(rev_steps(steps@) =~= all);
    // Group consecutive steps into hunks.
    let mut hunks: Vec<Hunk> = Vec::new();
    let mut i: usize = steps.len();
    let ghost len = steps@.len();
    assert(hunk_views(hunks@) =~= hunks_of(all.take(0)));
    proof {
        lemma_steps_fit(a@, b@, d as nat, t as int);
    }
    while i > 0
        invariant
            i <= steps@.len(),
            len == steps@.len(),
            rev_steps(steps@) == all,
            n == a@.len(),
            m == b@.len(),
            forall|k: int|
                0 <= k < all.len() ==> 0 <= (#[trigger] all[k]).x && 0 <= all[k].y && all[k].end().x <= n && all[k].end().y
                    <= m,
            hunk_views(hunks@) == hunks_of(all.take(len - i)),
        decreases i,
    {
        let s: (usize, usize, bool) = steps[i - 1];
        let ghost g = all[len - i];
        proof {
            assert(g == (Step { x: s.0 as int, y: s.1 as int, insert: s.2 }));
            assert(all.take(len - i + 1).drop_last() =~= all.take(len - i));
        }
        let (a_to, b_to): (usize, usize) = if s.2 {
            (s.0, s.1 + 1)
        } else {
            (s.0 + 1, s.1)
        };
        let ghost before = hunks@;
        let count: usize = hunks.len();
        if count > 0 && hunks[count - 1].a_to == s.0 && hunks[count - 1].b_to == s.1 {
            let last: Hunk = hunks[count - 1];
            hunks.pop();
            hunks.push(Hunk { a_from: last.a_from, a_to, b_from: last.b_from, b_to });
        } else {
            hunks.push(Hunk { a_from: s.0, a_to, b_from: s.1, b_to });
        }
        i -= 1;
        assert(hunk_views(hunks@) =~= add_step(hunk_views(before), g));
    }
    assert(all.take(len as int) =~= all);
    hunks
}

/// Steps kept from the last to the first, put in order.
spec fn rev_steps(steps: Seq<(usize, usize, bool)>) -> Seq<Step> {
    Seq::new(
        steps.len(),
        |i: int|
            {
                let s = steps[steps.len() - 1 - i];
                Step { x: s.0 as int, y: s.1 as int, insert: s.2 }
            },
    )
}

proof fn lemma_steps_fit<T>(a: Seq<T>, b: Seq<T>, d: nat, t: int)
    requires
        0 <= t <= d,
        reach_row(a, b, d)[t] is Some,
    ensures
        forall|k: int|
            0 <= k < steps_to(a, b, d, t).len() ==> 0 <= (#[trigger] steps_to(a, b, d, t)[k]).x && 0 <= steps_to(
                a,
                b,
                d,
                t,
            )[k].y && steps_to(a, b, d, t)[k].end().x <= a.len() && steps_to(a, b, d, t)[k].end().y <= b.len(),
        steps_to(a, b, d, t).len() == d,
    decreases d,
{
    if d > 0 {
        let prev = reach_row(a, b, (d - 1) as nat);
        lemma_row(a, b, (d - 1) as nat);
        lemma_best_step(prev, d as int, t, a.len() as int, b.len() as int);
        let s = best_step(prev, d as int, t, a.len() as int, b.len() as int)->Some_0;
        let from = if s.insert {
            t
        } else {
            t - 1
        };
        assert(prev[from] is Some);
        lemma_steps_fit(a, b, (d - 1) as nat, from);
        let front = steps_to(a, b, (d - 1) as nat, from);
        let all = steps_to(a, b, d, t);
        assert forall|k: int| 0 <= k < all.len() implies 0 <= (#[trigger] all[k]).x && 0 <= all[k].y && all[k].end().x
            <= a.len() && all[k].end().y <= b.len() by {
            if k < front.len() {
                assert(all[k] == front[k]);
            }
        }
    }
}

/// Classic Myers forward algorithm with a trace, returning hunks. `None` if D > max_d.
fn myers<T: PartialEq>(a: &[T], b: &[T], max_d: usize) -> (r: Option<Vec<Hunk>>)
    requires
        plain_eq::<T>(),
    ensures
        match r {
            Some(hs) => exists|d: nat, t: int|
                d <= max_d && none_before(a@, b@, d) && #[trigger] arrives(a@, b@, d, t) && hunk_views(hs@) == hunks_of(
                    steps_to(a@, b@, d, t),
                ),
            None => forall|d: nat, t: int| d <= max_d ==> !#[trigger] arrives(a@, b@, d, t),
        },
{
    let n: usize = a.len();
    let m: usize = b.len();
    let mut rows: Vec<Vec<Option<(usize, usize)>>> = Vec::new();
    let first: (usize, usize) = run_snake(a, b, 0, 0);
    let mut row0: Vec<Option<(usize, usize)>> = Vec::new();
    row0.push(Some(first));
    assert(row_view(row0@) =~= reach_row(a@, b@, 0));
    let done: bool = first.0 == n && first.1 == m;
    rows.push(row0);
    if done {
        assert(reach_row(a@, b@, 0)[0] == Some(corner(a@, b@)));
        assert(arrives(a@, b@, 0, 0));
        let hs = trace_back(a, b, &rows, 0, 0);
        return Some(hs);
    }
    proof {
        assert forall|t: int| !#[trigger] arrives(a@, b@, 0, t) by {
            if 0 <= t <= 0 {
                assert(reach_row(a@, b@, 0)[0] == row_view(rows@[0]@)[0]);
            }
        }
    }
    let mut d: usize = 0;
    while d < max_d
        invariant
            plain_eq::<T>(),
            n == a@.len(),
            m == b@.len(),
            d <= max_d,
            rows@.len() == d + 1,
            rows_ok(a@, b@, rows@),
            forall|e: nat, t: int| e <= d ==> !#[trigger] arrives(a@, b@, e, t),
        decreases max_d - d,
    {
        d += 1;
        let ghost prev = reach_row(a@, b@, (d - 1) as nat);
        let ghost want = reach_row(a@, b@, d as nat);
        proof {
            lemma_row(a@, b@, (d - 1) as nat);
            assert(row_view(rows@[d - 1]@) == prev);
            assert(rows@[d - 1]@.len() == row_view(rows@[d - 1]@).len());
        }
        let mut row: Vec<Option<(usize, usize)>> = Vec::new();
        let mut t: usize = 0;
        let mut hit: Option<usize> = None;
        loop
            invariant_except_break
                t <= d,
                row@.len() == t,
            invariant
                plain_eq::<T>(),
                n == a@.len(),
                m == b@.len(),
                1 <= d,
                rows@.len() == d,
                rows@[d - 1]@.len() == d,
                row_view(rows@[d - 1]@) == prev,
                prev == reach_row(a@, b@, (d - 1) as nat),
                want == reach_row(a@, b@, d as nat),
                forall|k: int| 0 <= k < row@.len() ==> #[trigger] row_view(row@)[k] == want[k],
                match hit {
                    Some(h) => arrives(a@, b@, d as nat, h as int),
                    None => forall|k: int| 0 <= k < row@.len() ==> !#[trigger] arrives(a@, b@, d as nat, k),
                },
            ensures
                row@.len() == d + 1,
            decreases d - t,
        {
            let cell: Option<(usize, usize)> = match choose_step(&rows[d - 1], d, t, n, m) {
                Some(s) => {
                    proof {
                        lemma_row(a@, b@, (d - 1) as nat);
                        lemma_best_step(prev, d as int, t as int, n as int, m as int);
                    }
                    if s.2 {
                        Some(run_snake(a, b, s.0, s.1 + 1))
                    } else {
                        Some(run_snake(a, b, s.0 + 1, s.1))
                    }
                },
                None => None,
            };
            let ghost before = row@;
            row.push(cell);
            proof {
                assert forall|k: int| 0 <= k < t + 1 implies #[trigger] row_view(row@)[k] == want[k] by {
                    if k < t {
                        assert(row_view(before)[k] == want[k]);
                    }
                }
            }
            if hit.is_none() {
                match cell {
                    Some(p) => {
                        if p.0 == n && p.1 == m {
                            assert(row_view(row@)[t as int] == want[t as int]);
                            assert(arrives(a@, b@, d as nat, t as int));
                            hit = Some(t);
                        }
                    },
                    None => {},
                }
                if hit.is_none() {
                    assert(row_view(row@)[t as int] == want[t as int]);
                    assert(!arrives(a@, b@, d as nat, t as int));
                }
            }
            if t == d {
                break;
            }
            t += 1;
        }
        assert(row_view(row@) =~= want) by {
            lemma_row(a@, b@, d as nat);
        }
        let ghost rows0 = rows@;
        rows.push(row);
        proof {
            assert forall|e: int| 0 <= e < rows@.len() implies row_view((#[trigger] rows@[e])@) == reach_row(
                a@,
                b@,
                e as nat,
            ) by {
                if e < d {
                    assert(rows@[e] == rows0[e]);
                }
            }
        }
        match hit {
            Some(h) => {
                let hs = trace_back(a, b, &rows, d, h);
                assert(none_before(a@, b@, d as nat));
                return Some(hs);
            },
            None => {},
        }
        proof {
            assert forall|e: nat, k: int| e <= d implies !#[trigger] arrives(a@, b@, e, k) by {
                if e == d && 0 <= k <= d {
                    assert(!arrives(a@, b@, d as nat, k));
                }
            }
        }
    }
    None
}

pub(crate) proof fn lemma_suffix<T>(a: Seq<T>, b: Seq<T>, max: int)
    requires
        0 <= max <= a.len(),
        max <= b.len(),
    ensures
        0 <= common_suffix_len(a, b, max) <= max,
        a.skip(a.len() - common_suffix_len(a, b, max)) == b.skip(b.len() - common_suffix_len(a, b, max)),
    decreases max,
{
    let s = common_suffix_len(a, b, max);
    if max <= 0 || a.last() != b.last() {
        assert(a.skip(a.len() as int) =~= b.skip(b.len() as int));
    } else {
        lemma_suffix(a.drop_last(), b.drop_last(), max - 1);
        let fa = a.drop_last();
        let fb = b.drop_last();
        assert(a.skip(a.len() - s) =~= fa.skip(fa.len() - (s - 1)).push(a.last()));
        assert(b.skip(b.len() - s) =~= fb.skip(fb.len() - (s - 1)).push(b.last()));
    }
}

pub proof fn lemma_trimmed<T>(a: Seq<T>, b: Seq<T>)
    ensures
        ({
            let (pre, a2, b2) = trimmed(a, b);
            let suf = a.len() - pre - a2.len();
            &&& 0 <= pre
            &&& pre + a2.len() <= a.len()
            &&& pre + b2.len() <= b.len()
            &&& suf == b.len() - pre - b2.len()
            &&& a.take(pre) == b.take(pre)
            &&& a.skip(pre + a2.len()) == b.skip(pre + b2.len())
            &&& a2 == a.subrange(pre, pre + a2.len())
            &&& b2 == b.subrange(pre, pre + b2.len())
        }),
{
    let o = Point { x: 0, y: 0 };
    lemma_snake(a, b, o);
    let pre = common_prefix_len(a, b);
    assert(a.take(pre) =~= a.subrange(0, pre));
    assert(b.take(pre) =~= b.subrange(0, pre));
    lemma_suffix(a, b, shorter(a.len() - pre, b.len() - pre));
}

/// Lengths of the common prefix, and of the common suffix of what is left.
pub fn trim<T: PartialEq>(a: &[T], b: &[T]) -> (r: (usize, usize))
    requires
        plain_eq::<T>(),
    ensures
        r.0 == common_prefix_len(a@, b@),
        r.1 == common_suffix_len(a@, b@, shorter(a@.len() - r.0, b@.len() - r.0)),
        r.0 + r.1 <= a@.len(),
        r.0 + r.1 <= b@.len(),
        a@.take(r.0 as int) == b@.take(r.0 as int),
        a@.skip(a@.len() - r.1) == b@.skip(b@.len() - r.1),
{
    let (pre, _py): (usize, usize) = run_snake(a, b, 0, 0);
    proof {
        lemma_snake(a@, b@, Point { x: 0, y: 0 });
        lemma_trimmed(a@, b@);
    }
    let n: usize = a.len();
    let m: usize = b.len();
    let max: usize = if n - pre <= m - pre {
        n - pre
    } else {
        m - pre
    };
    let mut suf: usize = 0;
    assert(a@.take(n as int) =~= a@);
    assert(b@.take(m as int) =~= b@);
    while suf < max && a[n - 1 - suf] == b[m - 1 - suf]
        invariant
            plain_eq::<T>(),
            n == a@.len(),
            m == b@.len(),
            suf <= max,
            max <= n,
            max <= m,
            common_suffix_len(a@, b@, max as int) == suf + common_suffix_len(
                a@.take(n - suf),
                b@.take(m - suf),
                max - suf,
            ),
        decreases max - suf,
    {
        proof {
            assert(a@.take(n - suf).last() == a@[n - 1 - suf]);
            assert(b@.take(m - suf).last() == b@[m - 1 - suf]);
            assert(a@.take(n - suf).drop_last() =~= a@.take(n - suf - 1));
            assert(b@.take(m - suf).drop_last() =~= b@.take(m - suf - 1));
        }
        suf += 1;
    }
    proof {
        if suf < max {
            assert(a@.take(n - suf).last() == a@[n - 1 - suf]);
            assert(b@.take(m - suf).last() == b@[m - 1 - suf]);
        }
        assert(suf == common_suffix_len(a@, b@, max as int));
        lemma_suffix(a@, b@, max as int);
        assert(a@.take(pre as int) =~= a@.subrange(0, pre as int));
        assert(b@.take(pre as int) =~= b@.subrange(0, pre as int));
    }
    (pre, suf)
}

/// Diff two sequences, returning hunks in ascending order. If the edit distance
/// exceeds `max_d`, falls back to one hunk covering everything between the common
/// prefix and suffix (bounded memory).
pub fn diff_seq<T: PartialEq>(a: &[T], b: &[T], max_d: usize) -> (hunks: Vec<Hunk>)
    requires
        plain_eq::<T>(),
    ensures
        is_diff(a@, b@, max_d as nat, hunk_views(hunks@)),
{
    // Trim common prefix/suffix.
    let (pre, suf): (usize, usize) = trim(a, b);
    let n: usize = a.len();
    let m: usize = b.len();
    proof {
        reveal(is_diff);
    }
    let a2 = vstd::slice::slice_subrange(a, pre, n - suf);
    let b2 = vstd::slice::slice_subrange(b, pre, m - suf);
    let mut out: Vec<Hunk> = Vec::new();
    if a2.len() == 0 && b2.len() == 0 {
        assert(hunk_views(out@) =~= Seq::<HunkView>::empty());
        return out;
    }
    if a2.len() == 0 || b2.len() == 0 {
        let h = Hunk { a_from: pre, a_to: pre + a2.len(), b_from: pre, b_to: pre + b2.len() };
        out.push(h);
        assert(hunk_views(out@) =~= seq![h@]);
        return out;
    }
    let hunks: Vec<Hunk> = match myers(a2, b2, max_d) {
        Some(h) => h,
        None => {
            let h = Hunk { a_from: 0, a_to: a2.len(), b_from: 0, b_to: b2.len() };
            let mut one: Vec<Hunk> = Vec::new();
            one.push(h);
            assert(hunk_views(one@) =~= seq![h@]);
            one
        },
    };
    let ghost mid = hunk_views(hunks@);
    proof {
        assert(middle_hunks(a2@, b2@, max_d as nat, mid));
        lemma_middle_fits(a2@, b2@, max_d as nat, mid);
    }
    let mut i: usize = 0;
    while i < hunks.len()
        invariant
            i <= hunks@.len(),
            mid == hunk_views(hunks@),
            a2@.len() + pre <= n,
            b2@.len() + pre <= m,
            forall|k: int|
                0 <= k < mid.len() ==> 0 <= (#[trigger] mid[k]).a_from && mid[k].a_to <= a2@.len() && 0 <= mid[k].b_from
                    && mid[k].b_to <= b2@.len() && mid[k].a_from <= mid[k].a_to && mid[k].b_from <= mid[k].b_to,
            out@.len() == i,
            forall|k: int| 0 <= k < i ==> (#[trigger] out@[k])@ == shift_hunks(mid, pre as int)[k],
        decreases hunks@.len() - i,
    {
        let h: Hunk = hunks[i];
        assert(mid[i as int] == h@);
        out.push(
            Hunk { a_from: h.a_from + pre, a_to: h.a_to + pre, b_from: h.b_from + pre, b_to: h.b_to + pre },
        );
        i += 1;
    }
    assert(hunk_views(out@) =~= shift_hunks(mid, pre as int));
    out
}

/// `hs` turns `a[..p.x]` into `b[..p.y]`: everything outside the hunks runs alike, no hunk
/// is empty, and none touches the next.
pub open spec fn turns<T>(a: Seq<T>, b: Seq<T>, hs: Seq<HunkView>, p: Point) -> bool
    decreases hs.len(),
{
    if hs.len() == 0 {
        alike(a, b, Point { x: 0, y: 0 }, p)
    } else {
        let h = hs.last();
        &&& 0 <= h.a_from <= h.a_to
        &&& 0 <= h.b_from <= h.b_to
        &&& h.a_from < h.a_to || h.b_from < h.b_to
        &&& turns(a, b, hs.drop_last(), Point { x: h.a_from, y: h.b_from })
        &&& alike(a, b, Point { x: h.a_to, y: h.b_to }, p)
        &&& hs.len() > 1 ==> hs[hs.len() - 2].a_to < h.a_from
    }
}

/// Number of items inserted and deleted.
pub open spec fn cost(hs: Seq<HunkView>) -> int
    decreases hs.len(),
{
    if hs.len() == 0 {
        0
    } else {
        cost(hs.drop_last()) + (hs.last().a_to - hs.last().a_from) + (hs.last().b_to - hs.last().b_from)
    }
}

/// The steps lead to `p` through runs that are alike.
spec fn leads<T>(a: Seq<T>, b: Seq<T>, steps: Seq<Step>, p: Point) -> bool
    decreases steps.len(),
{
    if steps.len() == 0 {
        alike(a, b, Point { x: 0, y: 0 }, p)
    } else {
        let s = steps.last();
        leads(a, b, steps.drop_last(), Point { x: s.x, y: s.y }) && alike(a, b, s.end(), p)
    }
}

proof fn lemma_leads<T>(a: Seq<T>, b: Seq<T>, d: nat, t: int)
    requires
        0 <= t <= d,
        reach_row(a, b, d)[t] is Some,
    ensures
        leads(a, b, steps_to(a, b, d, t), reach_row(a, b, d)[t]->Some_0),
        steps_to(a, b, d, t).len() == d,
    decreases d,
{
    lemma_row(a, b, d);
    if d == 0 {
        lemma_snake(a, b, Point { x: 0, y: 0 });
    } else {
        let prev = reach_row(a, b, (d - 1) as nat);
        lemma_row(a, b, (d - 1) as nat);
        lemma_best_step(prev, d as int, t, a.len() as int, b.len() as int);
        let s = best_step(prev, d as int, t, a.len() as int, b.len() as int)->Some_0;
        let from = if s.insert {
            t
        } else {
            t - 1
        };
        assert(prev[from] is Some);
        lemma_leads(a, b, (d - 1) as nat, from);
        lemma_snake(a, b, s.end());
        let front = steps_to(a, b, (d - 1) as nat, from);
        assert(front.push(s).drop_last() =~= front);
    }
}

proof fn lemma_hunks_turn<T>(a: Seq<T>, b: Seq<T>, steps: Seq<Step>, p: Point)
    requires
        leads(a, b, steps, p),
    ensures
        turns(a, b, hunks_of(steps), p),
        cost(hunks_of(steps)) == steps.len(),
    decreases steps.len(),
{
    if steps.len() > 0 {
        let front = steps.drop_last();
        let s = steps.last();
        let q = Point { x: s.x, y: s.y };
        lemma_hunks_turn(a, b, front, q);
        let hs = hunks_of(front);
        let e = s.end();
        lemma_alike_point(a, b, hs, q);
        if hs.len() > 0 && hs.last().a_to == s.x && hs.last().b_to == s.y {
            let h = HunkView { a_to: e.x, b_to: e.y, ..hs.last() };
            let out = hs.drop_last().push(h);
            assert(out.drop_last() =~= hs.drop_last());
            if hs.len() > 1 {
                assert(out[out.len() - 2] == hs[hs.len() - 2]);
            }
        } else {
            let h = HunkView { a_from: s.x, a_to: e.x, b_from: s.y, b_to: e.y };
            let out = hs.push(h);
            assert(out.drop_last() =~= hs);
            if hs.len() > 0 {
                assert(alike(a, b, Point { x: hs.last().a_to, y: hs.last().b_to }, q));
                assert(out[out.len() - 2] == hs.last());
            }
        }
    }
}

proof fn lemma_alike_point<T>(a: Seq<T>, b: Seq<T>, hs: Seq<HunkView>, p: Point)
    requires
        turns(a, b, hs, p),
    ensures
        0 <= p.x <= a.len(),
        0 <= p.y <= b.len(),
{
}

proof fn lemma_middle_fits<T>(a: Seq<T>, b: Seq<T>, max_d: nat, hs: Seq<HunkView>)
    requires
        a.len() > 0,
        middle_hunks(a, b, max_d, hs),
    ensures
        turns(a, b, hs, corner(a, b)),
        forall|k: int|
            0 <= k < hs.len() ==> 0 <= (#[trigger] hs[k]).a_from && hs[k].a_to <= a.len() && 0 <= hs[k].b_from
                && hs[k].b_to <= b.len() && hs[k].a_from <= hs[k].a_to && hs[k].b_from <= hs[k].b_to,
{
    if exists|d: nat, t: int| d <= max_d && #[trigger] arrives(a, b, d, t) {
        let (d, t) = choose|d: nat, t: int|
            d <= max_d && none_before(a, b, d) && #[trigger] arrives(a, b, d, t) && hs == hunks_of(steps_to(a, b, d, t));
        lemma_leads(a, b, d, t);
        lemma_hunks_turn(a, b, steps_to(a, b, d, t), corner(a, b));
    } else {
        let o = Point { x: 0, y: 0 };
        let c = corner(a, b);
        assert(a.subrange(0, 0) =~= b.subrange(0, 0));
        assert(a.subrange(c.x, c.x) =~= b.subrange(c.y, c.y));
        assert(hs.drop_last() =~= Seq::empty());
        reveal_with_fuel(turns, 2);
    }
    lemma_turns_fit(a, b, hs, corner(a, b));
}

/// Hunks lie inside both sequences, in order.
pub proof fn lemma_turns_fit<T>(a: Seq<T>, b: Seq<T>, hs: Seq<HunkView>, p: Point)
    requires
        turns(a, b, hs, p),
    ensures
        0 <= p.x <= a.len(),
        0 <= p.y <= b.len(),
        forall|k: int|
            0 <= k < hs.len() ==> 0 <= (#[trigger] hs[k]).a_from && hs[k].a_to <= p.x && 0 <= hs[k].b_from && hs[k].b_to
                <= p.y && hs[k].a_from <= hs[k].a_to && hs[k].b_from <= hs[k].b_to,
        forall|j: int, k: int|
            0 <= j < k < hs.len() ==> (#[trigger] hs[j]).a_to < (#[trigger] hs[k]).a_from && hs[j].b_to < hs[k].b_from,
    decreases hs.len(),
{
    if hs.len() > 0 {
        let h = hs.last();
        let front = hs.drop_last();
        let q = Point { x: h.a_from, y: h.b_from };
        lemma_turns_fit(a, b, front, q);
        assert forall|k: int| 0 <= k < hs.len() implies 0 <= (#[trigger] hs[k]).a_from && hs[k].a_to <= p.x && 0
            <= hs[k].b_from && hs[k].b_to <= p.y && hs[k].a_from <= hs[k].a_to && hs[k].b_from <= hs[k].b_to by {
            if k < front.len() {
                assert(hs[k] == front[k]);
            }
        }
        assert forall|j: int, k: int| 0 <= j < k < hs.len() implies (#[trigger] hs[j]).a_to < (#[trigger] hs[k]).a_from
            && hs[j].b_to < hs[k].b_from by {
            if k < front.len() {
                assert(hs[j] == front[j] && hs[k] == front[k]);
            } else {
                let last = front[front.len() - 1];
                assert(hs[j] == front[j]);
                assert(last == hs[hs.len() - 2]);
                assert(turns(a, b, front, q));
                assert(front.last() == last);
                assert(alike(a, b, Point { x: last.a_to, y: last.b_to }, q));
                if j < front.len() - 1 {
                    assert(front[j].a_to < last.a_from);
                }
            }
        }
    }
}

/// Shifting a diff of the middle parts makes one of the whole.
proof fn lemma_turns_shift<T>(a: Seq<T>, b: Seq<T>, pre: int, a2: Seq<T>, b2: Seq<T>, hs: Seq<HunkView>, p: Point)
    requires
        0 <= pre,
        pre + a2.len() <= a.len(),
        pre + b2.len() <= b.len(),
        a2 == a.subrange(pre, pre + a2.len()),
        b2 == b.subrange(pre, pre + b2.len()),
        a.take(pre) == b.take(pre),
        turns(a2, b2, hs, p),
    ensures
        turns(a, b, shift_hunks(hs, pre), Point { x: p.x + pre, y: p.y + pre }),
        cost(shift_hunks(hs, pre)) == cost(hs),
    decreases hs.len(),
{
    let out = shift_hunks(hs, pre);
    let p2 = Point { x: p.x + pre, y: p.y + pre };
    if hs.len() == 0 {
        assert(a.subrange(0, p2.x) =~= a.take(pre) + a2.subrange(0, p.x));
        assert(b.subrange(0, p2.y) =~= b.take(pre) + b2.subrange(0, p.y));
    } else {
        let h = hs.last();
        let front = hs.drop_last();
        lemma_turns_shift(a, b, pre, a2, b2, front, Point { x: h.a_from, y: h.b_from });
        assert(out.drop_last() =~= shift_hunks(front, pre));
        lemma_turns_fit(a2, b2, hs, p);
        assert(a.subrange(h.a_to + pre, p2.x) =~= a2.subrange(h.a_to, p.x));
        assert(b.subrange(h.b_to + pre, p2.y) =~= b2.subrange(h.b_to, p.y));
        if hs.len() > 1 {
            assert(out[out.len() - 2].a_to == hs[hs.len() - 2].a_to + pre);
        }
    }
}

/// A diff of two sequences turns the first into the second.
pub proof fn law_diff_turns<T>(a: Seq<T>, b: Seq<T>, max_d: nat, hs: Seq<HunkView>)
    requires
        is_diff(a, b, max_d, hs),
    ensures
        turns(a, b, hs, corner(a, b)),
{
    reveal(is_diff);
    lemma_trimmed(a, b);
    let (pre, a2, b2) = trimmed(a, b);
    let o = Point { x: 0, y: 0 };
    let c = corner(a, b);
    assert(a.subrange(0, pre) =~= a.take(pre));
    assert(b.subrange(0, pre) =~= b.take(pre));
    assert(a.skip(pre + a2.len()) =~= a.subrange(pre + a2.len(), c.x));
    assert(b.skip(pre + b2.len()) =~= b.subrange(pre + b2.len(), c.y));
    if a2.len() == 0 && b2.len() == 0 {
        assert(a =~= a.take(pre) + a.skip(pre));
        assert(b =~= b.take(pre) + b.skip(pre));
        assert(a.subrange(0, c.x) =~= a);
        assert(b.subrange(0, c.y) =~= b);
    } else if a2.len() == 0 || b2.len() == 0 {
        assert(hs.drop_last() =~= Seq::empty());
        reveal_with_fuel(turns, 2);
    } else {
        let mid = choose|mid: Seq<HunkView>| #[trigger] middle_hunks(a2, b2, max_d, mid) && hs == shift_hunks(mid, pre);
        lemma_middle_fits(a2, b2, max_d, mid);
        lemma_turns_shift(a, b, pre, a2, b2, mid, corner(a2, b2));
        lemma_extend_alike(a, b, hs, Point { x: pre + a2.len(), y: pre + b2.len() });
    }
}

proof fn lemma_extend_alike<T>(a: Seq<T>, b: Seq<T>, hs: Seq<HunkView>, p: Point)
    requires
        turns(a, b, hs, p),
        alike(a, b, p, corner(a, b)),
    ensures
        turns(a, b, hs, corner(a, b)),
{
    let c = corner(a, b);
    if hs.len() == 0 {
        assert(a.subrange(0, c.x) =~= a.subrange(0, p.x) + a.subrange(p.x, c.x));
        assert(b.subrange(0, c.y) =~= b.subrange(0, p.y) + b.subrange(p.y, c.y));
    } else {
        let h = hs.last();
        lemma_turns_fit(a, b, hs, p);
        assert(a.subrange(h.a_to, c.x) =~= a.subrange(h.a_to, p.x) + a.subrange(p.x, c.x));
        assert(b.subrange(h.b_to, c.y) =~= b.subrange(h.b_to, p.y) + b.subrange(p.y, c.y));
    }
}

/// Exactly `d` insertions and deletions turn `a[..x]` into `b[..y]`, in some order.
pub open spec fn reach<T>(a: Seq<T>, b: Seq<T>, d: nat, x: int, y: int) -> bool
    decreases x + y,
{
    if x < 0 || y < 0 {
        false
    } else {
        ||| x == 0 && y == 0 && d == 0
        ||| x > 0 && y > 0 && a[x - 1] == b[y - 1] && reach(a, b, d, x - 1, y - 1)
        ||| x > 0 && d > 0 && reach(a, b, (d - 1) as nat, x - 1, y)
        ||| y > 0 && d > 0 && reach(a, b, (d - 1) as nat, x, y - 1)
    }
}

/// At most `c` edits lead to the end.
spec fn arrives_within<T>(a: Seq<T>, b: Seq<T>, c: int) -> bool {
    exists|d: nat, t: int| d <= c && #[trigger] arrives(a, b, d, t)
}

/// From a place where `a` is used up, insertions lead to the end.
proof fn lemma_border_a<T>(a: Seq<T>, b: Seq<T>, d: nat, t: int, y: int)
    requires
        0 <= t <= d,
        reach_row(a, b, d)[t] == Some(Point { x: a.len() as int, y }),
    ensures
        arrives_within(a, b, d + b.len() - y),
    decreases b.len() - y,
{
    lemma_row(a, b, d);
    if y == b.len() {
        assert(arrives(a, b, d, t));
    } else {
        let n = a.len() as int;
        let m = b.len() as int;
        let row = reach_row(a, b, d + 1);
        assert(row[t] == match best_step(reach_row(a, b, d), (d + 1) as int, t, n, m) {
            Some(s) => Some(snake(a, b, s.end())),
            None => None,
        });
        assert(row[t] == Some(Point { x: n, y: y + 1 }));
        lemma_border_a(a, b, d + 1, t, y + 1);
    }
}

/// From a place where `b` is used up, deletions lead to the end.
proof fn lemma_border_b<T>(a: Seq<T>, b: Seq<T>, d: nat, t: int, x: int)
    requires
        0 <= t <= d,
        reach_row(a, b, d)[t] == Some(Point { x, y: b.len() as int }),
    ensures
        arrives_within(a, b, d + a.len() - x),
    decreases a.len() - x,
{
    lemma_row(a, b, d);
    if x == a.len() {
        assert(arrives(a, b, d, t));
    } else {
        let n = a.len() as int;
        let m = b.len() as int;
        let prev = reach_row(a, b, d);
        let row = reach_row(a, b, d + 1);
        if t + 1 <= d {
            assert(prev[t + 1] matches Some(p) ==> p.x - p.y == 2 * (t + 1) - d);
        }
        assert(row[t + 1] == match best_step(prev, (d + 1) as int, t + 1, n, m) {
            Some(s) => Some(snake(a, b, s.end())),
            None => None,
        });
        assert(row[t + 1] == Some(Point { x: x + 1, y: m }));
        lemma_border_b(a, b, d + 1, t + 1, x + 1);
    }
}

pub open spec fn gap(x: int) -> int {
    if x < 0 {
        -x
    } else {
        x
    }
}

/// No place that `d` edits can reach lies past the one kept for its diagonal, unless the
/// end is reached no later without it.
proof fn lemma_furthest<T>(a: Seq<T>, b: Seq<T>, d: nat, x: int, y: int)
    requires
        reach(a, b, d, x, y),
        x <= a.len(),
        y <= b.len(),
    ensures
        ({
            let t = (x - y + d) / 2;
            &&& 0 <= x
            &&& 0 <= y
            &&& 0 <= t <= d
            &&& 2 * t - d == x - y
            &&& {
                ||| reach_row(a, b, d)[t] is Some && reach_row(a, b, d)[t]->Some_0.x >= x
                ||| arrives_within(a, b, d + gap((a.len() - b.len()) - (x - y)))
            }
        }),
    decreases x + y,
{
    let n = a.len() as int;
    let m = b.len() as int;
    let t = (x - y + d) / 2;
    lemma_row(a, b, d);
    if x == 0 && y == 0 && d == 0 {
        lemma_snake(a, b, Point { x: 0, y: 0 });
    } else if x > 0 && y > 0 && a[x - 1] == b[y - 1] && reach(a, b, d, x - 1, y - 1) {
        lemma_furthest(a, b, d, x - 1, y - 1);
        if reach_row(a, b, d)[t] is Some && reach_row(a, b, d)[t]->Some_0.x >= x - 1 {
            let p = reach_row(a, b, d)[t]->Some_0;
            lemma_row_stops(a, b, d, t);
            if p.x == x - 1 {
                assert(p.y == y - 1);
            }
        }
    } else if x > 0 && d > 0 && reach(a, b, (d - 1) as nat, x - 1, y) {
        let e = (d - 1) as nat;
        lemma_furthest(a, b, e, x - 1, y);
        lemma_row(a, b, e);
        let prev = reach_row(a, b, e);
        assert((x - 1 - y + e) / 2 == t - 1);
        if prev[t - 1] is Some && prev[t - 1]->Some_0.x >= x - 1 {
            let q = prev[t - 1]->Some_0;
            if q.x == n {
                lemma_border_a(a, b, e, t - 1, q.y);
                lemma_within(a, b, e + m - q.y, d + gap((n - m) - (x - y)));
            } else {
                lemma_cell(a, b, d, t);
                let s = best_step(prev, d as int, t, n, m)->Some_0;
                lemma_best_step(prev, d as int, t, n, m);
                lemma_snake(a, b, s.end());
            }
        } else {
            lemma_within(a, b, e + gap((n - m) - (x - 1 - y)), d + gap((n - m) - (x - y)));
        }
    } else {
        let e = (d - 1) as nat;
        lemma_furthest(a, b, e, x, y - 1);
        lemma_row(a, b, e);
        let prev = reach_row(a, b, e);
        assert((x - (y - 1) + e) / 2 == t);
        if prev[t] is Some && prev[t]->Some_0.x >= x {
            let p = prev[t]->Some_0;
            if p.y == m {
                lemma_border_b(a, b, e, t, p.x);
                lemma_within(a, b, e + n - p.x, d + gap((n - m) - (x - y)));
            } else {
                lemma_cell(a, b, d, t);
                let s = best_step(prev, d as int, t, n, m)->Some_0;
                lemma_best_step(prev, d as int, t, n, m);
                lemma_snake(a, b, s.end());
            }
        } else {
            lemma_within(a, b, e + gap((n - m) - (x - (y - 1))), d + gap((n - m) - (x - y)));
        }
    }
}

proof fn lemma_cell<T>(a: Seq<T>, b: Seq<T>, d: nat, t: int)
    requires
        d > 0,
        0 <= t <= d,
    ensures
        reach_row(a, b, d)[t] == match best_step(
            reach_row(a, b, (d - 1) as nat),
            d as int,
            t,
            a.len() as int,
            b.len() as int,
        ) {
            Some(s) => Some(snake(a, b, s.end())),
            None => None,
        },
{
}

proof fn lemma_row_stops<T>(a: Seq<T>, b: Seq<T>, d: nat, t: int)
    requires
        0 <= t <= d,
        reach_row(a, b, d)[t] is Some,
    ensures
        ({
            let p = reach_row(a, b, d)[t]->Some_0;
            p.x == a.len() || p.y == b.len() || a[p.x] != b[p.y]
        }),
{
    if d == 0 {
        lemma_snake(a, b, Point { x: 0, y: 0 });
    } else {
        lemma_cell(a, b, d, t);
        let prev = reach_row(a, b, (d - 1) as nat);
        lemma_row(a, b, (d - 1) as nat);
        lemma_best_step(prev, d as int, t, a.len() as int, b.len() as int);
        let s = best_step(prev, d as int, t, a.len() as int, b.len() as int)->Some_0;
        lemma_snake(a, b, s.end());
    }
}

proof fn lemma_within<T>(a: Seq<T>, b: Seq<T>, c: int, e: int)
    requires
        arrives_within(a, b, c),
        c <= e,
    ensures
        arrives_within(a, b, e),
{
    let (d, t) = choose|d: nat, t: int| d <= c && #[trigger] arrives(a, b, d, t);
    assert(arrives(a, b, d, t));
}

/// Where no row before `d` arrives, fewer than `d` edits are not enough.
proof fn lemma_shortest<T>(a: Seq<T>, b: Seq<T>, d: nat, e: nat)
    requires
        none_before(a, b, d),
        e < d,
    ensures
        !reach(a, b, e, a.len() as int, b.len() as int),
{
    let n = a.len() as int;
    let m = b.len() as int;
    if reach(a, b, e, n, m) {
        lemma_furthest(a, b, e, n, m);
        lemma_row(a, b, e);
        let t = (n - m + e) / 2;
        if reach_row(a, b, e)[t] is Some && reach_row(a, b, e)[t]->Some_0.x >= n {
            assert(arrives(a, b, e, t));
        } else {
            let (d0, t0) = choose|d0: nat, t0: int| d0 <= e && #[trigger] arrives(a, b, d0, t0);
            assert(arrives(a, b, d0, t0));
        }
    }
}

/// Leaving out the last item of `b` costs at most one edit more.
proof fn lemma_drop_b<T>(a: Seq<T>, b: Seq<T>, d: nat, x: int, y: int)
    requires
        reach(a, b, d, x, y),
        y > 0,
    ensures
        exists|e: nat| e <= d + 1 && #[trigger] reach(a, b, e, x, y - 1),
    decreases x + y,
{
    if y > 0 && d > 0 && reach(a, b, (d - 1) as nat, x, y - 1) {
    } else if x > 0 && a[x - 1] == b[y - 1] && reach(a, b, d, x - 1, y - 1) {
        assert(reach(a, b, d + 1, x, y - 1));
    } else {
        lemma_drop_b(a, b, (d - 1) as nat, x - 1, y);
        let e = choose|e: nat| e <= d && #[trigger] reach(a, b, e, x - 1, y - 1);
        assert(reach(a, b, e + 1, x, y - 1));
    }
}

proof fn lemma_drop_a<T>(a: Seq<T>, b: Seq<T>, d: nat, x: int, y: int)
    requires
        reach(a, b, d, x, y),
        x > 0,
    ensures
        exists|e: nat| e <= d + 1 && #[trigger] reach(a, b, e, x - 1, y),
    decreases x + y,
{
    if x > 0 && d > 0 && reach(a, b, (d - 1) as nat, x - 1, y) {
    } else if y > 0 && a[x - 1] == b[y - 1] && reach(a, b, d, x - 1, y - 1) {
        assert(reach(a, b, d + 1, x - 1, y));
    } else {
        lemma_drop_a(a, b, (d - 1) as nat, x, y - 1);
        let e = choose|e: nat| e <= d && #[trigger] reach(a, b, e, x - 1, y - 1);
        assert(reach(a, b, e + 1, x - 1, y));
    }
}

/// A common last item need not be edited.
proof fn lemma_drop_both<T>(a: Seq<T>, b: Seq<T>, d: nat, x: int, y: int)
    requires
        reach(a, b, d, x, y),
        x > 0,
        y > 0,
        a[x - 1] == b[y - 1],
    ensures
        exists|e: nat| e <= d && #[trigger] reach(a, b, e, x - 1, y - 1),
{
    if reach(a, b, d, x - 1, y - 1) {
    } else if d > 0 && reach(a, b, (d - 1) as nat, x - 1, y) {
        lemma_drop_b(a, b, (d - 1) as nat, x - 1, y);
    } else {
        lemma_drop_a(a, b, (d - 1) as nat, x, y - 1);
    }
}

proof fn lemma_drop_suffix<T>(a: Seq<T>, b: Seq<T>, d: nat, s: int)
    requires
        reach(a, b, d, a.len() as int, b.len() as int),
        0 <= s <= a.len(),
        s <= b.len(),
        a.skip(a.len() - s) == b.skip(b.len() - s),
    ensures
        exists|e: nat| e <= d && #[trigger] reach(a, b, e, a.len() - s, b.len() - s),
    decreases s,
{
    if s > 0 {
        let n = a.len() - s;
        let m = b.len() - s;
        assert(a.skip(n)[0] == b.skip(m)[0]);
        assert(a.skip(n + 1) =~= a.skip(n).skip(1));
        assert(b.skip(m + 1) =~= b.skip(m).skip(1));
        lemma_drop_suffix(a, b, d, s - 1);
        let e = choose|e: nat| e <= d && #[trigger] reach(a, b, e, n + 1, m + 1);
        lemma_drop_both(a, b, e, n + 1, m + 1);
    }
}

proof fn lemma_reach_edge<T>(a: Seq<T>, b: Seq<T>, d: nat, x: int, y: int)
    requires
        x >= 0,
        y >= 0,
        x == 0 || y == 0,
    ensures
        reach(a, b, d, x, y) <==> d == x + y,
    decreases x + y,
{
    if x > 0 && d > 0 {
        lemma_reach_edge(a, b, (d - 1) as nat, x - 1, y);
    }
    if y > 0 && d > 0 {
        lemma_reach_edge(a, b, (d - 1) as nat, x, y - 1);
    }
}

/// A common first item need not be edited.
proof fn lemma_drop_first<T>(a: Seq<T>, b: Seq<T>, d: nat, x: int, y: int)
    requires
        a.len() > 0,
        b.len() > 0,
        a[0] == b[0],
        1 <= x <= a.len(),
        1 <= y <= b.len(),
        reach(a, b, d, x, y),
    ensures
        exists|e: nat| e <= d && #[trigger] reach(a.skip(1), b.skip(1), e, x - 1, y - 1),
    decreases x + y,
{
    let a1 = a.skip(1);
    let b1 = b.skip(1);
    if x == 1 || y == 1 {
        lemma_reach_edge(a1, b1, (x - 1 + y - 1) as nat, x - 1, y - 1);
        lemma_reach_gap(a, b, d, x, y);
        assert(reach(a1, b1, (x - 1 + y - 1) as nat, x - 1, y - 1));
    } else if a[x - 1] == b[y - 1] && reach(a, b, d, x - 1, y - 1) {
        lemma_drop_first(a, b, d, x - 1, y - 1);
        let e = choose|e: nat| e <= d && #[trigger] reach(a1, b1, e, x - 2, y - 2);
        assert(a1[x - 2] == a[x - 1] && b1[y - 2] == b[y - 1]);
        assert(reach(a1, b1, e, x - 1, y - 1));
    } else if d > 0 && reach(a, b, (d - 1) as nat, x - 1, y) {
        lemma_drop_first(a, b, (d - 1) as nat, x - 1, y);
        let e = choose|e: nat| e <= d - 1 && #[trigger] reach(a1, b1, e, x - 2, y - 1);
        assert(reach(a1, b1, e + 1, x - 1, y - 1));
    } else {
        lemma_drop_first(a, b, (d - 1) as nat, x, y - 1);
        let e = choose|e: nat| e <= d - 1 && #[trigger] reach(a1, b1, e, x - 1, y - 2);
        assert(reach(a1, b1, e + 1, x - 1, y - 1));
    }
}

/// Reaching a diagonal takes at least as many edits as it is off the first.
proof fn lemma_reach_gap<T>(a: Seq<T>, b: Seq<T>, d: nat, x: int, y: int)
    requires
        reach(a, b, d, x, y),
    ensures
        d >= x - y,
        d >= y - x,
    decreases x + y,
{
    if x == 0 && y == 0 && d == 0 {
    } else if x > 0 && y > 0 && a[x - 1] == b[y - 1] && reach(a, b, d, x - 1, y - 1) {
        lemma_reach_gap(a, b, d, x - 1, y - 1);
    } else if x > 0 && d > 0 && reach(a, b, (d - 1) as nat, x - 1, y) {
        lemma_reach_gap(a, b, (d - 1) as nat, x - 1, y);
    } else {
        lemma_reach_gap(a, b, (d - 1) as nat, x, y - 1);
    }
}

proof fn lemma_drop_prefix<T>(a: Seq<T>, b: Seq<T>, d: nat, s: int)
    requires
        0 <= s <= a.len(),
        s <= b.len(),
        a.take(s) == b.take(s),
        reach(a, b, d, a.len() as int, b.len() as int),
    ensures
        exists|e: nat| e <= d && #[trigger] reach(a.skip(s), b.skip(s), e, a.len() - s, b.len() - s),
    decreases s,
{
    if s == 0 {
        assert(a.skip(0) =~= a);
        assert(b.skip(0) =~= b);
    } else {
        assert(a[0] == a.take(s)[0]);
        assert(b[0] == b.take(s)[0]);
        lemma_drop_first(a, b, d, a.len() as int, b.len() as int);
        let a1 = a.skip(1);
        let b1 = b.skip(1);
        let e = choose|e: nat| e <= d && #[trigger] reach(a1, b1, e, a.len() - 1, b.len() - 1);
        assert(a1.take(s - 1) =~= a.take(s).skip(1));
        assert(b1.take(s - 1) =~= b.take(s).skip(1));
        lemma_drop_prefix(a1, b1, e, s - 1);
        assert(a1.skip(s - 1) =~= a.skip(s));
        assert(b1.skip(s - 1) =~= b.skip(s));
    }
}

/// Reaching a place does not depend on what comes after it.
proof fn lemma_reach_local<T>(a: Seq<T>, b: Seq<T>, n: int, m: int, d: nat, x: int, y: int)
    requires
        0 <= n <= a.len(),
        0 <= m <= b.len(),
        x <= n,
        y <= m,
    ensures
        reach(a, b, d, x, y) <==> reach(a.take(n), b.take(m), d, x, y),
    decreases x + y,
{
    if x >= 0 && y >= 0 {
        if x > 0 && y > 0 {
            assert(a.take(n)[x - 1] == a[x - 1]);
            assert(b.take(m)[y - 1] == b[y - 1]);
            lemma_reach_local(a, b, n, m, d, x - 1, y - 1);
        }
        if x > 0 && d > 0 {
            lemma_reach_local(a, b, n, m, (d - 1) as nat, x - 1, y);
        }
        if y > 0 && d > 0 {
            lemma_reach_local(a, b, n, m, (d - 1) as nat, x, y - 1);
        }
    }
}

/// A diff is a shortest edit script, unless every script has more than `max_d` edits.
pub proof fn law_diff_is_shortest<T>(a: Seq<T>, b: Seq<T>, max_d: nat, hs: Seq<HunkView>, e: nat)
    requires
        is_diff(a, b, max_d, hs),
        reach(a, b, e, a.len() as int, b.len() as int),
        e <= max_d,
    ensures
        cost(hs) <= e,
{
    reveal(is_diff);
    lemma_trimmed(a, b);
    let (pre, a2, b2) = trimmed(a, b);
    let suf = a.len() - pre - a2.len();
    lemma_drop_prefix(a, b, e, pre);
    let ap = a.skip(pre);
    let bp = b.skip(pre);
    let e1 = choose|e1: nat| e1 <= e && #[trigger] reach(ap, bp, e1, a.len() - pre, b.len() - pre);
    assert(ap.skip(a2.len() as int) =~= a.skip(pre + a2.len()));
    assert(bp.skip(b2.len() as int) =~= b.skip(pre + b2.len()));
    lemma_drop_suffix(ap, bp, e1, suf);
    let e2 = choose|e2: nat| e2 <= e1 && #[trigger] reach(ap, bp, e2, a2.len() as int, b2.len() as int);
    lemma_reach_local(ap, bp, a2.len() as int, b2.len() as int, e2, a2.len() as int, b2.len() as int);
    assert(ap.take(a2.len() as int) =~= a2);
    assert(bp.take(b2.len() as int) =~= b2);
    assert(reach(a2, b2, e2, a2.len() as int, b2.len() as int));
    lemma_reach_gap(a2, b2, e2, a2.len() as int, b2.len() as int);
    if a2.len() == 0 && b2.len() == 0 {
    } else if a2.len() == 0 || b2.len() == 0 {
        assert(hs.drop_last() =~= Seq::empty());
        reveal_with_fuel(cost, 2);
    } else {
        let mid = choose|mid: Seq<HunkView>| #[trigger] middle_hunks(a2, b2, max_d, mid) && hs == shift_hunks(mid, pre);
        lemma_middle_fits(a2, b2, max_d, mid);
        lemma_turns_shift(a, b, pre, a2, b2, mid, corner(a2, b2));
        if !(exists|d: nat, t: int| d <= max_d && #[trigger] arrives(a2, b2, d, t)) {
            assert(none_before(a2, b2, max_d + 1));
            lemma_shortest(a2, b2, max_d + 1, e2);
        }
        let (d, t) = choose|d: nat, t: int|
            d <= max_d && none_before(a2, b2, d) && #[trigger] arrives(a2, b2, d, t) && mid == hunks_of(
                steps_to(a2, b2, d, t),
            );
        lemma_leads(a2, b2, d, t);
        lemma_hunks_turn(a2, b2, steps_to(a2, b2, d, t), corner(a2, b2));
        if e2 < d {
            lemma_shortest(a2, b2, d, e2);
        }
    }
}

proof fn lemma_snake_same<T>(a: Seq<T>, x: int)
    requires
        0 <= x <= a.len(),
    ensures
        snake(a, a, Point { x, y: x }) == corner(a, a),
    decreases a.len() - x,
{
    if x < a.len() {
        lemma_snake_same(a, x + 1);
    }
}

/// A sequence does not differ from itself.
pub proof fn law_no_diff<T>(a: Seq<T>, max_d: nat, hs: Seq<HunkView>)
    requires
        is_diff(a, a, max_d, hs),
    ensures
        hs.len() == 0,
{
    reveal(is_diff);
    lemma_trimmed(a, a);
    lemma_snake_same(a, 0);
}

/// The diff of two sequences is determined by them.
pub proof fn lemma_diff_unique<T>(a: Seq<T>, b: Seq<T>, max_d: nat, x: Seq<HunkView>, y: Seq<HunkView>)
    requires
        is_diff(a, b, max_d, x),
        is_diff(a, b, max_d, y),
    ensures
        x == y,
{
    reveal(is_diff);
    let (pre, a2, b2) = trimmed(a, b);
    if a2.len() > 0 && b2.len() > 0 {
        let p = choose|mid: Seq<HunkView>| #[trigger] middle_hunks(a2, b2, max_d, mid) && x == shift_hunks(mid, pre);
        let q = choose|mid: Seq<HunkView>| #[trigger] middle_hunks(a2, b2, max_d, mid) && y == shift_hunks(mid, pre);
        if exists|d: nat, t: int| d <= max_d && #[trigger] arrives(a2, b2, d, t) {
            let (d1, t1) = choose|d: nat, t: int|
                d <= max_d && none_before(a2, b2, d) && #[trigger] arrives(a2, b2, d, t) && p == hunks_of(
                    steps_to(a2, b2, d, t),
                );
            let (d2, t2) = choose|d: nat, t: int|
                d <= max_d && none_before(a2, b2, d) && #[trigger] arrives(a2, b2, d, t) && q == hunks_of(
                    steps_to(a2, b2, d, t),
                );
            if d1 < d2 {
                assert(!arrives(a2, b2, d1, t1));
            } else if d2 < d1 {
                assert(!arrives(a2, b2, d2, t2));
            }
            lemma_row(a2, b2, d1);
            assert(t1 == t2);
        }
    }
}

/// The least number of edits, up to `d`, that leads to the end, given that `d` does.
proof fn lemma_least<T>(a: Seq<T>, b: Seq<T>, d: nat, t: int) -> (r: (nat, int))
    requires
        arrives(a, b, d, t),
    ensures
        r.0 <= d,
        none_before(a, b, r.0),
        arrives(a, b, r.0, r.1),
    decreases d,
{
    if none_before(a, b, d) {
        (d, t)
    } else {
        let (e, u) = choose|e: nat, u: int| e < d && #[trigger] arrives(a, b, e, u);
        lemma_least(a, b, e, u)
    }
}

/// The diff of two sequences.
pub open spec fn diff_of<T>(a: Seq<T>, b: Seq<T>, max_d: nat) -> Seq<HunkView> {
    choose|hs: Seq<HunkView>| is_diff(a, b, max_d, hs)
}

/// Any two sequences have a diff.
pub proof fn lemma_diff_of<T>(a: Seq<T>, b: Seq<T>, max_d: nat)
    ensures
        is_diff(a, b, max_d, diff_of(a, b, max_d)),
{
    let (pre, a2, b2) = trimmed(a, b);
    let hs = if a2.len() == 0 && b2.len() == 0 {
        Seq::<HunkView>::empty()
    } else if a2.len() == 0 || b2.len() == 0 {
        seq![HunkView { a_from: pre, a_to: pre + a2.len(), b_from: pre, b_to: pre + b2.len() }]
    } else {
        let mid = if exists|d: nat, t: int| d <= max_d && #[trigger] arrives(a2, b2, d, t) {
            let (d, t) = choose|d: nat, t: int| d <= max_d && #[trigger] arrives(a2, b2, d, t);
            let (e, u) = lemma_least(a2, b2, d, t);
            hunks_of(steps_to(a2, b2, e, u))
        } else {
            seq![HunkView { a_from: 0, a_to: a2.len() as int, b_from: 0, b_to: b2.len() as int }]
        };
        assert(middle_hunks(a2, b2, max_d, mid));
        shift_hunks(mid, pre)
    };
    assert(is_diff(a, b, max_d, hs)) by {
        reveal(is_diff);
    }
}

/// Two sequences that agree with two others on which items are equal.
pub open spec fn same_pattern<T, U>(a: Seq<T>, b: Seq<T>, x: Seq<U>, y: Seq<U>) -> bool {
    &&& a.len() == x.len()
    &&& b.len() == y.len()
    &&& forall|i: int, j: int|
        #![trigger a[i], b[j]]
        #![trigger x[i], y[j]]
        0 <= i < a.len() && 0 <= j < b.len() ==> (a[i] == b[j] <==> x[i] == y[j])
}

proof fn lemma_pattern_snake<T, U>(a: Seq<T>, b: Seq<T>, x: Seq<U>, y: Seq<U>, p: Point)
    requires
        same_pattern(a, b, x, y),
        0 <= p.x,
        0 <= p.y,
    ensures
        snake(a, b, p) == snake(x, y, p),
    decreases a.len() - p.x,
{
    if p.x < a.len() && p.y < b.len() && a[p.x] == b[p.y] {
        assert(x[p.x] == y[p.y]);
        lemma_pattern_snake(a, b, x, y, Point { x: p.x + 1, y: p.y + 1 });
    } else if p.x < a.len() && p.y < b.len() {
        assert(x[p.x] != y[p.y]);
    }
}

proof fn lemma_pattern_row<T, U>(a: Seq<T>, b: Seq<T>, x: Seq<U>, y: Seq<U>, d: nat)
    requires
        same_pattern(a, b, x, y),
    ensures
        reach_row(a, b, d) == reach_row(x, y, d),
    decreases d,
{
    let r = reach_row(a, b, d);
    let s = reach_row(x, y, d);
    lemma_row(a, b, d);
    lemma_row(x, y, d);
    if d == 0 {
        lemma_pattern_snake(a, b, x, y, Point { x: 0, y: 0 });
    } else {
        lemma_pattern_row(a, b, x, y, (d - 1) as nat);
        let prev = reach_row(a, b, (d - 1) as nat);
        lemma_row(a, b, (d - 1) as nat);
        assert forall|t: int| 0 <= t <= d implies r[t] == s[t] by {
            lemma_cell(a, b, d, t);
            lemma_cell(x, y, d, t);
            match best_step(prev, d as int, t, a.len() as int, b.len() as int) {
                Some(g) => {
                    lemma_best_step(prev, d as int, t, a.len() as int, b.len() as int);
                    lemma_pattern_snake(a, b, x, y, g.end());
                },
                None => {},
            }
        }
        assert(r =~= s);
    }
}

proof fn lemma_pattern_steps<T, U>(a: Seq<T>, b: Seq<T>, x: Seq<U>, y: Seq<U>, d: nat, t: int)
    requires
        same_pattern(a, b, x, y),
    ensures
        steps_to(a, b, d, t) == steps_to(x, y, d, t),
    decreases d,
{
    if d > 0 {
        lemma_pattern_row(a, b, x, y, (d - 1) as nat);
        match best_step(reach_row(a, b, (d - 1) as nat), d as int, t, a.len() as int, b.len() as int) {
            Some(s) => {
                lemma_pattern_steps(
                    a,
                    b,
                    x,
                    y,
                    (d - 1) as nat,
                    if s.insert {
                        t
                    } else {
                        t - 1
                    },
                );
            },
            None => {},
        }
    }
}

proof fn lemma_pattern_suffix<T, U>(a: Seq<T>, b: Seq<T>, x: Seq<U>, y: Seq<U>, max: int)
    requires
        same_pattern(a, b, x, y),
    ensures
        common_suffix_len(a, b, max) == common_suffix_len(x, y, max),
    decreases max,
{
    if max > 0 && a.len() > 0 && b.len() > 0 {
        assert(a[a.len() - 1] == b[b.len() - 1] <==> x[x.len() - 1] == y[y.len() - 1]);
        if a.last() == b.last() {
            let (a1, b1, x1, y1) = (a.drop_last(), b.drop_last(), x.drop_last(), y.drop_last());
            assert forall|i: int, j: int|
                #![trigger a1[i], b1[j]]
                #![trigger x1[i], y1[j]]
                0 <= i < a1.len() && 0 <= j < b1.len() implies (a1[i] == b1[j] <==> x1[i] == y1[j]) by {
                assert(a[i] == b[j] <==> x[i] == y[j]);
            }
            lemma_pattern_suffix(a1, b1, x1, y1, max - 1);
        }
    }
}

/// The diff depends only on which items are equal.
pub proof fn lemma_diff_pattern<T, U>(a: Seq<T>, b: Seq<T>, x: Seq<U>, y: Seq<U>, max_d: nat, hs: Seq<HunkView>)
    requires
        same_pattern(a, b, x, y),
        is_diff(x, y, max_d, hs),
    ensures
        is_diff(a, b, max_d, hs),
{
    reveal(is_diff);
    lemma_pattern_snake(a, b, x, y, Point { x: 0, y: 0 });
    let pre = common_prefix_len(a, b);
    lemma_pattern_suffix(a, b, x, y, shorter(a.len() - pre, b.len() - pre));
    let (_p, a2, b2) = trimmed(a, b);
    let (_q, x2, y2) = trimmed(x, y);
    lemma_trimmed(a, b);
    lemma_trimmed(x, y);
    let suf = common_suffix_len(a, b, shorter(a.len() - pre, b.len() - pre));
    lemma_snake(a, b, Point { x: 0, y: 0 });
    lemma_suffix(a, b, shorter(a.len() - pre, b.len() - pre));
    assert(common_prefix_len(x, y) == pre);
    assert(x2 == x.subrange(pre, x.len() - suf));
    assert(y2 == y.subrange(pre, y.len() - suf));
    assert forall|i: int, j: int|
        #![trigger a2[i], b2[j]]
        #![trigger x2[i], y2[j]]
        0 <= i < a2.len() && 0 <= j < b2.len() implies (a2[i] == b2[j] <==> x2[i] == y2[j]) by {
        assert(a[pre + i] == b[pre + j] <==> x[pre + i] == y[pre + j]);
    }
    if a2.len() > 0 && b2.len() > 0 {
        let mid = choose|mid: Seq<HunkView>| #[trigger] middle_hunks(x2, y2, max_d, mid) && hs == shift_hunks(mid, pre);
        assert forall|d: nat, t: int| #[trigger] arrives(a2, b2, d, t) == arrives(x2, y2, d, t) by {
            lemma_pattern_row(a2, b2, x2, y2, d);
        }
        if exists|d: nat, t: int| d <= max_d && #[trigger] arrives(x2, y2, d, t) {
            let (d, t) = choose|d: nat, t: int|
                d <= max_d && none_before(x2, y2, d) && #[trigger] arrives(x2, y2, d, t) && mid == hunks_of(
                    steps_to(x2, y2, d, t),
                );
            lemma_pattern_steps(a2, b2, x2, y2, d, t);
            assert(arrives(a2, b2, d, t));
            assert(none_before(a2, b2, d)) by {
                assert forall|e: nat, s: int| e < d implies !#[trigger] arrives(a2, b2, e, s) by {
                    assert(!arrives(x2, y2, e, s));
                }
            }
        } else {
            assert forall|d: nat, t: int| d <= max_d implies !#[trigger] arrives(a2, b2, d, t) by {
                assert(!arrives(x2, y2, d, t));
            }
        }
        assert(middle_hunks(a2, b2, max_d, mid));
    }
}

/// Edits a line diff may have before it gives up looking for the shortest one.
pub const MAX_LINE_EDITS: usize = 4096;

/// Diff two sequences of byte strings.
pub fn item_diff<'a>(al: &Vec<&'a [u8]>, bl: &Vec<&'a [u8]>, max_d: usize) -> (hunks: Vec<Hunk>)
    ensures
        hunk_views(hunks@) == diff_of(slice_views(al@), slice_views(bl@), max_d as nat),
{
    let (x, y) = number_items(al, bl);
    let hunks = diff_seq(x.as_slice(), y.as_slice(), max_d);
    proof {
        let va = slice_views(al@);
        let vb = slice_views(bl@);
        assert(same_pattern(va, vb, x@, y@));
        lemma_diff_pattern(va, vb, x@, y@, max_d as nat, hunk_views(hunks@));
        lemma_diff_of(va, vb, max_d as nat);
        lemma_diff_unique(va, vb, max_d as nat, hunk_views(hunks@), diff_of(va, vb, max_d as nat));
    }
    hunks
}

/// Diff two sequences of lines.
pub fn line_diff<'a>(al: &Vec<&'a [u8]>, bl: &Vec<&'a [u8]>) -> (hunks: Vec<Hunk>)
    ensures
        hunk_views(hunks@) == diff_of(slice_views(al@), slice_views(bl@), MAX_LINE_EDITS as nat),
{
    item_diff(al, bl, MAX_LINE_EDITS)
}

/// The line diff of two texts.
pub open spec fn text_hunks(a: Seq<u8>, b: Seq<u8>) -> Seq<HunkView> {
    diff_of(lines_of(a), lines_of(b), MAX_LINE_EDITS as nat)
}

/// The line diff of two texts turns the lines of the first into those of the second.
pub proof fn lemma_text_hunks(a: Seq<u8>, b: Seq<u8>)
    ensures
        turns(lines_of(a), lines_of(b), text_hunks(a, b), corner(lines_of(a), lines_of(b))),
{
    lemma_diff_of(lines_of(a), lines_of(b), MAX_LINE_EDITS as nat);
    law_diff_turns(lines_of(a), lines_of(b), MAX_LINE_EDITS as nat, text_hunks(a, b));
}

/// A place where the two sequences do not go on alike.
spec fn apart<T>(a: Seq<T>, b: Seq<T>, x: int, y: int) -> bool {
    x >= a.len() || y >= b.len() || a[x] != b[y]
}

proof fn lemma_row_apart<T>(a: Seq<T>, b: Seq<T>, d: nat, t: int)
    requires
        0 <= t <= d,
        reach_row(a, b, d)[t] is Some,
    ensures
        apart(a, b, reach_row(a, b, d)[t]->0.x, reach_row(a, b, d)[t]->0.y),
{
    if d == 0 {
        lemma_snake(a, b, Point { x: 0, y: 0 });
    } else {
        let prev = reach_row(a, b, (d - 1) as nat);
        lemma_row(a, b, (d - 1) as nat);
        lemma_best_step(prev, d as int, t, a.len() as int, b.len() as int);
        let s = best_step(prev, d as int, t, a.len() as int, b.len() as int)->0;
        lemma_snake(a, b, s.end());
    }
}

proof fn lemma_steps_apart<T>(a: Seq<T>, b: Seq<T>, d: nat, t: int)
    requires
        0 <= t <= d,
    ensures
        forall|i: int|
            0 <= i < steps_to(a, b, d, t).len() ==> apart(
                a,
                b,
                (#[trigger] steps_to(a, b, d, t)[i]).x,
                steps_to(a, b, d, t)[i].y,
            ),
    decreases d,
{
    if d > 0 {
        let prev = reach_row(a, b, (d - 1) as nat);
        lemma_row(a, b, (d - 1) as nat);
        match best_step(prev, d as int, t, a.len() as int, b.len() as int) {
            Some(s) => {
                lemma_best_step(prev, d as int, t, a.len() as int, b.len() as int);
                let u = if s.insert {
                    t
                } else {
                    t - 1
                };
                lemma_steps_apart(a, b, (d - 1) as nat, u);
                lemma_row_apart(a, b, (d - 1) as nat, u);
                let front = steps_to(a, b, (d - 1) as nat, u);
                assert forall|i: int| 0 <= i < steps_to(a, b, d, t).len() implies apart(
                    a,
                    b,
                    (#[trigger] steps_to(a, b, d, t)[i]).x,
                    steps_to(a, b, d, t)[i].y,
                ) by {
                    if i < front.len() {
                        assert(steps_to(a, b, d, t)[i] == front[i]);
                    }
                }
            },
            None => {},
        }
    }
}

/// Every hunk begins where one of its steps does.
proof fn lemma_hunks_apart<T>(a: Seq<T>, b: Seq<T>, steps: Seq<Step>)
    requires
        forall|i: int| 0 <= i < steps.len() ==> apart(a, b, (#[trigger] steps[i]).x, steps[i].y),
    ensures
        forall|i: int|
            0 <= i < hunks_of(steps).len() ==> apart(a, b, (#[trigger] hunks_of(steps)[i]).a_from, hunks_of(steps)[i].b_from),
    decreases steps.len(),
{
    if steps.len() > 0 {
        let front = steps.drop_last();
        assert forall|i: int| 0 <= i < front.len() implies apart(a, b, (#[trigger] front[i]).x, front[i].y) by {
            assert(front[i] == steps[i]);
        }
        lemma_hunks_apart(a, b, front);
        let hs = hunks_of(front);
        let all = hunks_of(steps);
        assert(steps[steps.len() - 1] == steps.last());
        assert forall|i: int| 0 <= i < all.len() implies apart(a, b, (#[trigger] all[i]).a_from, all[i].b_from) by {
            if i < hs.len() {
                assert(all[i].a_from == hs[i].a_from && all[i].b_from == hs[i].b_from);
            }
        }
    }
}

/// A hunk that takes items away and puts others there begins with items that differ.
pub proof fn law_hunks_differ<T>(a: Seq<T>, b: Seq<T>, max_d: nat, hs: Seq<HunkView>)
    requires
        is_diff(a, b, max_d, hs),
    ensures
        forall|i: int|
            0 <= i < hs.len() && (#[trigger] hs[i]).a_from < hs[i].a_to && hs[i].b_from < hs[i].b_to ==> a[hs[i].a_from]
                != b[hs[i].b_from],
{
    reveal(is_diff);
    law_diff_turns(a, b, max_d, hs);
    lemma_turns_fit(a, b, hs, corner(a, b));
    lemma_trimmed(a, b);
    lemma_snake(a, b, Point { x: 0, y: 0 });
    let (pre, a2, b2) = trimmed(a, b);
    if a2.len() > 0 && b2.len() > 0 {
        let mid = choose|mid: Seq<HunkView>| #[trigger] middle_hunks(a2, b2, max_d, mid) && hs == shift_hunks(mid, pre);
        assert(a2[0] == a[pre] && b2[0] == b[pre]);
        lemma_middle_fits(a2, b2, max_d, mid);
        lemma_turns_fit(a2, b2, mid, corner(a2, b2));
        if exists|d: nat, t: int| d <= max_d && #[trigger] arrives(a2, b2, d, t) {
            let (d, t) = choose|d: nat, t: int|
                d <= max_d && none_before(a2, b2, d) && #[trigger] arrives(a2, b2, d, t) && mid == hunks_of(
                    steps_to(a2, b2, d, t),
                );
            lemma_steps_apart(a2, b2, d, t);
            lemma_hunks_apart(a2, b2, steps_to(a2, b2, d, t));
        }
        assert forall|i: int|
            0 <= i < hs.len() && (#[trigger] hs[i]).a_from < hs[i].a_to && hs[i].b_from < hs[i].b_to implies a[hs[i].a_from]
            != b[hs[i].b_from] by {
            let h = mid[i];
            assert(hs[i].a_from == h.a_from + pre && hs[i].b_from == h.b_from + pre);
            assert(apart(a2, b2, h.a_from, h.b_from));
        }
    }
}

/// The hunks of a diff lie between the prefix and the suffix that the two sequences share.
pub(crate) proof fn lemma_diff_inside<T>(a: Seq<T>, b: Seq<T>, max_d: nat, hs: Seq<HunkView>)
    requires
        is_diff(a, b, max_d, hs),
    ensures
        ({
            let (pre, a2, b2) = trimmed(a, b);
            forall|i: int| 0 <= i < hs.len() ==> pre <= (#[trigger] hs[i]).a_from <= hs[i].a_to <= pre + a2.len()
        }),
        trimmed(a, b).1.len() == 0 && trimmed(a, b).2.len() == 0 ==> hs.len() == 0,
{
    reveal(is_diff);
    lemma_trimmed(a, b);
    let (pre, a2, b2) = trimmed(a, b);
    if a2.len() > 0 && b2.len() > 0 {
        let mid = choose|mid: Seq<HunkView>| #[trigger] middle_hunks(a2, b2, max_d, mid) && hs == shift_hunks(mid, pre);
        lemma_middle_fits(a2, b2, max_d, mid);
        lemma_turns_fit(a2, b2, mid, corner(a2, b2));
        assert forall|i: int| 0 <= i < hs.len() implies pre <= (#[trigger] hs[i]).a_from <= hs[i].a_to <= pre + a2.len() by {
            let h = mid[i];
            assert(hs[i].a_from == h.a_from + pre);
        }
    }
}

pub(crate) proof fn lemma_suffix_at_least<T>(a: Seq<T>, b: Seq<T>, max: int, n: int)
    requires
        0 <= n <= max,
        max <= a.len(),
        max <= b.len(),
        a.skip(a.len() - n) == b.skip(b.len() - n),
    ensures
        common_suffix_len(a, b, max) >= n,
    decreases n,
{
    if n > 0 {
        assert(a.last() == a.skip(a.len() - n).last());
        assert(b.last() == b.skip(b.len() - n).last());
        let x = a.drop_last();
        let y = b.drop_last();
        assert(x.skip(x.len() - (n - 1)) =~= a.skip(a.len() - n).drop_last());
        assert(y.skip(y.len() - (n - 1)) =~= b.skip(b.len() - n).drop_last());
        lemma_suffix_at_least(x, y, max - 1, n - 1);
    } else {
        lemma_suffix(a, b, max);
    }
}

/// Hunks that turn one item into another are one hunk.
proof fn lemma_swap_one<T>(a: Seq<T>, b: Seq<T>, hs: Seq<HunkView>)
    requires
        a.len() == 1,
        b.len() == 1,
        a[0] != b[0],
        turns(a, b, hs, corner(a, b)),
    ensures
        forall|i: int|
            0 <= i < hs.len() ==> (#[trigger] hs[i]) == (HunkView { a_from: 0, a_to: 1, b_from: 0, b_to: 1 }),
{
    let c = corner(a, b);
    lemma_turns_fit(a, b, hs, c);
    if hs.len() > 0 {
        let h = hs.last();
        assert(hs[hs.len() - 1] == h);
        let p = Point { x: h.a_to, y: h.b_to };
        let q = Point { x: h.a_from, y: h.b_from };
        assert(alike(a, b, p, c));
        if h.a_to == 0 {
            assert(a.subrange(0, 1)[0] == b.subrange(0, 1)[0]);
        }
        let front = hs.drop_last();
        assert(turns(a, b, front, q));
        if front.len() > 0 {
            let g = front.last();
            assert(front[front.len() - 1] == g && hs[hs.len() - 2] == g);
            assert(alike(a, b, Point { x: g.a_to, y: g.b_to }, q));
        } else {
            assert(alike(a, b, Point { x: 0, y: 0 }, q));
            if h.a_from == 1 {
                assert(a.subrange(0, 1)[0] == b.subrange(0, 1)[0]);
            }
        }
    }
}

/// Of two sequences that differ in one item only, the diff has that item alone.
pub(crate) proof fn lemma_diff_of_one<T>(a: Seq<T>, b: Seq<T>, k: int, max_d: nat, hs: Seq<HunkView>)
    requires
        is_diff(a, b, max_d, hs),
        a.len() == b.len(),
        forall|j: int| 0 <= j < a.len() && j != k ==> a[j] == b[j],
    ensures
        0 <= k < a.len() && a[k] != b[k] ==> forall|i: int|
            0 <= i < hs.len() ==> (#[trigger] hs[i]) == (HunkView { a_from: k, a_to: k + 1, b_from: k, b_to: k + 1 }),
        !(0 <= k < a.len() && a[k] != b[k]) ==> hs.len() == 0,
{
    lemma_diff_inside(a, b, max_d, hs);
    lemma_trimmed(a, b);
    lemma_snake(a, b, Point { x: 0, y: 0 });
    let (pre, a2, b2) = trimmed(a, b);
    if 0 <= k < a.len() && a[k] != b[k] {
        if pre > k {
            assert(a.subrange(0, pre)[k] == b.subrange(0, pre)[k]);
        }
        assert(pre == k);
        let n = a.len() - k - 1;
        assert(a.skip(a.len() - n) =~= b.skip(b.len() - n));
        let most = shorter(a.len() - pre, b.len() - pre);
        lemma_suffix(a, b, most);
        lemma_suffix_at_least(a, b, most, n);
        assert(a2.len() == a.len() - common_suffix_len(a, b, most) - pre);
        if common_suffix_len(a, b, most) > n {
            let m = common_suffix_len(a, b, most);
            assert(a.skip(a.len() - m)[k - (a.len() - m)] == a[k]);
            assert(b.skip(b.len() - m)[k - (b.len() - m)] == b[k]);
        }
        assert(a2 =~= seq![a[k]]);
        assert(b2 =~= seq![b[k]]);
        reveal(is_diff);
        let mid = choose|mid: Seq<HunkView>| #[trigger] middle_hunks(a2, b2, max_d, mid) && hs == shift_hunks(mid, pre);
        lemma_middle_fits(a2, b2, max_d, mid);
        lemma_swap_one(a2, b2, mid);
    } else {
        assert(a =~= b);
        law_no_diff(a, max_d, hs);
    }
}

/// The hunks of a diff lie behind what the two sequences have in common at their front.
pub(crate) proof fn lemma_diff_behind<T>(a: Seq<T>, b: Seq<T>, k: int, max_d: nat, hs: Seq<HunkView>)
    requires
        is_diff(a, b, max_d, hs),
        0 <= k <= a.len(),
        k <= b.len(),
        a.take(k) == b.take(k),
    ensures
        forall|i: int| 0 <= i < hs.len() ==> k <= (#[trigger] hs[i]).a_from <= hs[i].a_to <= a.len(),
{
    lemma_diff_inside(a, b, max_d, hs);
    lemma_trimmed(a, b);
    lemma_snake(a, b, Point { x: 0, y: 0 });
    let pre = trimmed(a, b).0;
    if pre < k {
        assert(a.take(k)[pre] == a[pre]);
        assert(b.take(k)[pre] == b[pre]);
    }
}

} // verus!
