//! The layout solver: per axis, a bottom-up best-size pass over anchor
//! chains, then a top-down pass that places each child in its parent.
use vstd::prelude::*;
use crate::geom::Vec2;
use crate::item::{Item, ItemImp, anchored_low, anchored_high};
use crate::util::{clamp32, sat_add, sat_sub, max, half, halve, quot, div_toward_zero};
use super::{Context, node_ok, tree_ok, same_links, sizes_ok, lemma_update_keeps_tree};

verus! {

/// What the best-size pass reads of an item: its anchor bits, explicit size,
/// margins and neighbours.
pub struct Anchors {
    pub flags: u32,
    pub size: Vec2,
    pub margins: Seq<i32>,
    pub relto: Seq<Item>,
}

/// The layout inputs of every record of an arena.
pub open spec fn anchors_of<Wgt, Hnd>(items: Seq<ItemImp<Wgt, Hnd>>) -> Seq<Anchors> {
    Seq::new(
        items.len(),
        |i: int|
            Anchors {
                flags: items[i].layout_flags,
                size: items[i].size,
                margins: items[i].margins@,
                relto: items[i].relto@,
            },
    )
}

/// Whether item `m` anchors to its neighbour on the low (or high) side of
/// axis `d`.
pub open spec fn anchored(a: Seq<Anchors>, m: int, d: int, high: bool) -> bool {
    if high {
        anchored_high(a[m].flags, d)
    } else {
        anchored_low(a[m].flags, d)
    }
}

/// The neighbour of item `m` on the low (or high) side of axis `d`.
pub open spec fn link(a: Seq<Anchors>, m: int, d: int, high: bool) -> int {
    a[m].relto[if high { d + 2 } else { d }].itemid as int
}

/// The items reached from `m` by following its neighbour links on one
/// side of axis `d` for as long as each item anchors that way, at most
/// `fuel` links.
pub open spec fn walk(a: Seq<Anchors>, m: int, d: int, high: bool, fuel: nat) -> Seq<int>
    decreases fuel,
{
    if fuel == 0 || !anchored(a, m, d, high) || link(a, m, d, high) == -1 {
        Seq::empty()
    } else {
        seq![link(a, m, d, high)] + walk(a, link(a, m, d, high), d, high, (fuel - 1) as nat)
    }
}

/// What item `m` of size `sz` demands along axis `d`: its size and both
/// margins, summed with saturation.
pub open spec fn demand(a: Seq<Anchors>, m: int, d: int, sz: int) -> int {
    clamp32(clamp32(sz + a[m].margins[d]) + a[m].margins[d + 2])
}

/// Whether item `m` has an explicit size on axis `d`.
pub open spec fn fixed(a: Seq<Anchors>, m: int, d: int) -> bool {
    a[m].size.at(d) > 0
}

/// `acc` plus the demands of the items of `s` (children of `j`), in order,
/// with saturation; with `hard`, only items of explicit size count.
pub open spec fn fold_demand(
    a: Seq<Anchors>,
    kids: Seq<Seq<int>>,
    j: int,
    s: Seq<int>,
    acc: int,
    d: int,
    hard: bool,
) -> int
    decreases a.len() - j, 0int, s.len(),
{
    if s.len() == 0 {
        acc
    } else {
        let m = s[0];
        let sz = if j < m < a.len() { best(a, kids, m, d) } else { 0 };
        let add = if hard && !fixed(a, m, d) { 0 } else { demand(a, m, d, sz) };
        fold_demand(a, kids, j, s.drop_first(), clamp32(acc + add), d, hard)
    }
}

/// The items of the chain through child `c`: `c`, then its low-side
/// neighbours, then its high-side ones.
pub open spec fn chain(a: Seq<Anchors>, c: int, d: int) -> Seq<int> {
    seq![c] + walk(a, c, d, false, a.len() as nat) + walk(a, c, d, true, a.len() as nat)
}

/// The total demand of the chain through child `c` of `j` (with `hard`,
/// of its members of explicit size only).
pub open spec fn chain_demand(a: Seq<Anchors>, kids: Seq<Seq<int>>, j: int, c: int, d: int, hard: bool) -> int
    decreases a.len() - j, 1int, 0int,
{
    if 0 <= j < c < a.len() {
        let first = demand(a, c, d, best(a, kids, c, d));
        let start = if hard && !fixed(a, c, d) { 0 } else { first };
        let low = walk(a, c, d, false, a.len() as nat);
        let high = walk(a, c, d, true, a.len() as nat);
        fold_demand(a, kids, j, high, fold_demand(a, kids, j, low, start, d, hard), d, hard)
    } else {
        0
    }
}

/// `acc` plus the demands of the items of `s`, in order, each counted with
/// its current extent along `d`, with saturation; with `hard`, only items
/// of explicit size count.
pub open spec fn fold_extent<Wgt, Hnd>(items: Seq<ItemImp<Wgt, Hnd>>, s: Seq<int>, acc: int, d: int, hard: bool) -> int
    decreases s.len(),
{
    if s.len() == 0 {
        acc
    } else {
        let a = anchors_of(items);
        let m = s[0];
        let add = if hard && !fixed(a, m, d) { 0 } else { demand(a, m, d, items[m].rect.size(d) as int) };
        fold_extent(items, s.drop_first(), clamp32(acc + add), d, hard)
    }
}

/// The demand sums read only rectangles and layout inputs.
pub proof fn lemma_fold_extent_frame<Wgt, Hnd>(
    x: Seq<ItemImp<Wgt, Hnd>>,
    y: Seq<ItemImp<Wgt, Hnd>>,
    s: Seq<int>,
    acc: int,
    d: int,
    hard: bool,
)
    requires
        x.len() == y.len(),
        anchors_of(x) == anchors_of(y),
        forall|m: int| 0 <= m < x.len() ==> (#[trigger] x[m]).rect == y[m].rect,
        forall|t: int| 0 <= t < s.len() ==> 0 <= #[trigger] s[t] < x.len(),
    ensures
        fold_extent(x, s, acc, d, hard) == fold_extent(y, s, acc, d, hard),
    decreases s.len(),
{
    if s.len() > 0 {
        let m = s[0];
        assert(x[m].rect == y[m].rect);
        assert forall|t: int| 0 <= t < s.drop_first().len() implies 0 <= #[trigger] s.drop_first()[t] < x.len() by {
            assert(s.drop_first()[t] == s[t + 1]);
        }
        let a = anchors_of(x);
        let add = if hard && !fixed(a, m, d) { 0 } else { demand(a, m, d, x[m].rect.size(d) as int) };
        lemma_fold_extent_frame(x, y, s.drop_first(), clamp32(acc + add), d, hard);
    }
}

/// The total demand of the chain through `c`, each member counted with its
/// current extent along `d` (with `hard`, members of explicit size only).
pub open spec fn chain_extent<Wgt, Hnd>(items: Seq<ItemImp<Wgt, Hnd>>, c: int, d: int, hard: bool) -> int {
    let a = anchors_of(items);
    let first = demand(a, c, d, items[c].rect.size(d) as int);
    let start = if hard && !fixed(a, c, d) { 0 } else { first };
    let low = walk(a, c, d, false, a.len() as nat);
    let high = walk(a, c, d, true, a.len() as nat);
    fold_extent(items, high, fold_extent(items, low, start, d, hard), d, hard)
}

/// Over the children of `j` from the `k`-th on, skipping those already in
/// a chain (`seen`), the largest chain demand (with `hard`, the largest
/// fixed chain demand), starting from `acc`.
pub open spec fn kids_demand(
    a: Seq<Anchors>,
    kids: Seq<Seq<int>>,
    j: int,
    k: int,
    seen: Set<int>,
    acc: int,
    d: int,
    hard: bool,
) -> int
    decreases a.len() - j, 2int, kids[j].len() - k,
{
    if !(0 <= j < a.len()) || !(0 <= k < kids[j].len()) {
        acc
    } else {
        let c = kids[j][k];
        if seen.contains(c) || !(j < c < a.len()) {
            kids_demand(a, kids, j, k + 1, seen, acc, d, hard)
        } else {
            let v = chain_demand(a, kids, j, c, d, hard);
            kids_demand(
                a,
                kids,
                j,
                k + 1,
                seen + chain(a, c, d).to_set(),
                if acc > v { acc } else { v },
                d,
                hard,
            )
        }
    }
}

/// The best size of item `j` on axis `d`: its explicit size if it has one,
/// else the largest total demand over the chains of its children.
pub open spec fn best(a: Seq<Anchors>, kids: Seq<Seq<int>>, j: int, d: int) -> int
    decreases a.len() - j, 3int, 0int,
{
    if !(0 <= j < a.len()) {
        0
    } else if fixed(a, j, d) {
        a[j].size.at(d) as int
    } else {
        kids_demand(a, kids, j, 0, Set::empty(), 0, d, false)
    }
}

/// The largest fixed demand over the chains of the children of `j`: what
/// the best-size pass leaves in `computed_size`.
pub open spec fn hard_demand(a: Seq<Anchors>, kids: Seq<Seq<int>>, j: int, d: int) -> int {
    kids_demand(a, kids, j, 0, Set::empty(), 0, d, true)
}

/// Whether item `m` fills its parent's slack on axis `d`: anchored on both
/// sides, with no explicit size.
pub open spec fn dynamic(a: Seq<Anchors>, m: int, d: int) -> bool {
    anchored_low(a[m].flags, d) && anchored_high(a[m].flags, d) && !fixed(a, m, d)
}

impl<Wgt, Hnd> Context<Wgt, Hnd> {
    /// The layout inputs of the arena.
    pub open spec fn anchors(&self) -> Seq<Anchors> {
        anchors_of(self.records())
    }

    /// Whether every neighbour link joins two children of one parent.
    pub open spec fn links_siblings(&self) -> bool {
        forall|i: int, k: int|
            0 <= i < self.count() && 0 <= k < 4 && #[trigger] self.rec(i).relto@[k].itemid != -1
                ==> self.parent_of(self.rec(i).relto@[k].itemid as int) == self.parent_of(i)
    }

    /// Neighbour links stay between siblings while the links are unchanged.
    pub proof fn lemma_frame_siblings(&self, other: &Self)
        requires
            other.wf(),
            other.links_siblings(),
            self.count() == other.count(),
            forall|m: int| 0 <= m < self.count() ==> same_links(#[trigger] self.rec(m), other.rec(m)),
        ensures
            self.links_siblings(),
    {
        assert forall|i: int, k: int|
            0 <= i < self.count() && 0 <= k < 4 && #[trigger] self.rec(i).relto@[k].itemid != -1 implies
            self.parent_of(self.rec(i).relto@[k].itemid as int) == self.parent_of(i) by {
            assert(same_links(self.rec(i), other.rec(i)));
            assert(other.rec(i).relto@[k] == self.rec(i).relto@[k]);
            other.lemma_wf_tree();
            assert(node_ok(other.records(), other.kid_lists(), i));
            let n = self.rec(i).relto@[k].itemid as int;
            assert(other.parent_of(n) == other.parent_of(i));
            if 0 <= n < self.count() {
                assert(same_links(self.rec(n), other.rec(n)));
            }
        }
    }

    /// The best size of item `i` on axis `d`.
    pub open spec fn best_size(&self, i: int, d: int) -> int {
        best(self.anchors(), self.kid_lists(), i, d)
    }

    /// Whether every child of `j` has its best size on axis `d` as extent.
    pub open spec fn kids_at_best(&self, j: int, d: int) -> bool {
        forall|m: int|
            0 <= m < self.count() && self.parent_of(m) == j ==> #[trigger] self.rec(m).rect.size(d)
                == self.best_size(m, d)
    }

    /// The largest fixed demand over the chains of the children of `i`.
    pub open spec fn hard_size(&self, i: int, d: int) -> int {
        hard_demand(self.anchors(), self.kid_lists(), i, d)
    }
}


/// What the best-size pass on axis `d` leaves of record `o`: its extent is
/// `b`, its fixed demand `h`, and it is not yet placed.
pub open spec fn sized_as<Wgt, Hnd>(o: ItemImp<Wgt, Hnd>, n: ItemImp<Wgt, Hnd>, d: int, b: int, h: int) -> bool {
    &&& n == (ItemImp {
        rect: o.rect.with_size(d, b as i32),
        computed_size: o.computed_size.with_at(d, h as i32),
        sized: n.sized,
        placed: n.placed,
        ..o
    })
    &&& n.placed@ == seq![false, false]
    &&& n.sized@.len() == 2
    &&& i32::MIN <= b <= i32::MAX
    &&& i32::MIN <= h <= i32::MAX
}

impl<Wgt, Hnd> Context<Wgt, Hnd> {
    /// Whether `self` and `other` agree on everything but the records, and
    /// on the links and layout inputs of every record.
    pub open spec fn same_frame(&self, other: &Self) -> bool {
        &&& self.wf()
        &&& self.count() == other.count()
        &&& self.anchors() == other.anchors()
        &&& self.kid_lists() == other.kid_lists()
        &&& self.same_but_records(other)
        &&& forall|m: int| 0 <= m < self.count() ==> same_links(#[trigger] self.rec(m), other.rec(m))
    }

}

/// Replacing a record by one with the same links and layout inputs keeps
/// the hierarchy and the layout inputs of the arena.
pub proof fn lemma_put<Wgt, Hnd>(
    a: Seq<ItemImp<Wgt, Hnd>>,
    kids: Seq<Seq<int>>,
    i: int,
    r: ItemImp<Wgt, Hnd>,
)
    requires
        tree_ok(a, kids),
        forall|m: int| 0 <= m < a.len() ==> sizes_ok(#[trigger] a[m]),
        0 <= i < a.len(),
        same_links(a[i], r),
        r.size == a[i].size,
        r.layout_flags == a[i].layout_flags,
        r.margins == a[i].margins,
    ensures
        tree_ok(a.update(i, r), kids),
        forall|m: int| 0 <= m < a.len() ==> sizes_ok(#[trigger] a.update(i, r)[m]),
        anchors_of(a.update(i, r)) == anchors_of(a),
        forall|m: int| 0 <= m < a.len() ==> same_links(#[trigger] a.update(i, r)[m], a[m]),
{
    lemma_update_keeps_tree(a, kids, i, r);
    assert(anchors_of(a.update(i, r)) =~= anchors_of(a));
    assert forall|m: int| 0 <= m < a.len() implies sizes_ok(#[trigger] a.update(i, r)[m]) by {
        assert(sizes_ok(a[m]));
    }
}

impl<Wgt, Hnd> Context<Wgt, Hnd> {
    /// Marks item `i` as counted in a chain on axis `d`.
    fn mark_sized(&mut self, i: usize, d: usize)
        requires
            old(self).wf(),
            i < old(self).count(),
            d < 2,
        ensures
            final(self).records() == old(self).records().update(
                i as int,
                (ItemImp { sized: final(self).rec(i as int).sized, ..old(self).rec(i as int) }),
            ),
            final(self).rec(i as int).sized@ == old(self).rec(i as int).sized@.update(d as int, true),
            final(self).same_frame(old(self)),
    {
        let ghost old_items = self.items@;
        self.items[i].sized[d] = true;
        proof {
            lemma_put(old_items, self.kids@, i as int, self.items@[i as int]);
        }
    }

    /// Marks item `i` as placed on axis `d`.
    fn mark_placed(&mut self, i: usize, d: usize)
        requires
            old(self).wf(),
            i < old(self).count(),
            d < 2,
        ensures
            final(self).records() == old(self).records().update(
                i as int,
                (ItemImp { placed: final(self).rec(i as int).placed, ..old(self).rec(i as int) }),
            ),
            final(self).rec(i as int).placed@ == old(self).rec(i as int).placed@.update(d as int, true),
            final(self).same_frame(old(self)),
    {
        let ghost old_items = self.items@;
        self.items[i].placed[d] = true;
        proof {
            lemma_put(old_items, self.kids@, i as int, self.items@[i as int]);
        }
    }

    /// Clears the progress marks of item `i` on both axes.
    fn reset_marks(&mut self, i: usize)
        requires
            old(self).wf(),
            i < old(self).count(),
        ensures
            final(self).records() == old(self).records().update(
                i as int,
                (ItemImp {
                    sized: final(self).rec(i as int).sized,
                    placed: final(self).rec(i as int).placed,
                    ..old(self).rec(i as int)
                }),
            ),
            final(self).rec(i as int).sized@ == seq![false, false],
            final(self).rec(i as int).placed@ == seq![false, false],
            final(self).same_frame(old(self)),
    {
        let ghost old_items = self.items@;
        self.items[i].sized = [false, false];
        self.items[i].placed = [false, false];
        proof {
            assert(self.items@ =~= old_items.update(i as int, self.items@[i as int]));
            lemma_put(old_items, self.kids@, i as int, self.items@[i as int]);
            assert(self.items@[i as int].sized@ =~= seq![false, false]);
            assert(self.items@[i as int].placed@ =~= seq![false, false]);
        }
    }

    /// Sets the extent of item `i` on axis `d`.
    fn set_extent(&mut self, i: usize, d: usize, v: i32)
        requires
            old(self).wf(),
            i < old(self).count(),
            d < 2,
        ensures
            final(self).records() == old(self).records().update(
                i as int,
                (ItemImp { rect: old(self).rec(i as int).rect.with_size(d as int, v), ..old(self).rec(i as int) }),
            ),
            final(self).same_frame(old(self)),
    {
        let ghost old_items = self.items@;
        self.items[i].rect.set_size(d, v);
        proof {
            lemma_put(old_items, self.kids@, i as int, self.items@[i as int]);
        }
    }

    /// Sets the position of item `i` on axis `d`.
    fn set_offset(&mut self, i: usize, d: usize, v: i32)
        requires
            old(self).wf(),
            i < old(self).count(),
            d < 2,
        ensures
            final(self).records() == old(self).records().update(
                i as int,
                (ItemImp { rect: old(self).rec(i as int).rect.with_pos(d as int, v), ..old(self).rec(i as int) }),
            ),
            final(self).same_frame(old(self)),
    {
        let ghost old_items = self.items@;
        self.items[i].rect.set_pos(d, v);
        proof {
            lemma_put(old_items, self.kids@, i as int, self.items@[i as int]);
        }
    }

    /// Sets the fixed demand of item `i` on axis `d`.
    fn set_computed(&mut self, i: usize, d: usize, v: i32)
        requires
            old(self).wf(),
            i < old(self).count(),
            d < 2,
        ensures
            final(self).records() == old(self).records().update(
                i as int,
                (ItemImp {
                    computed_size: old(self).rec(i as int).computed_size.with_at(d as int, v),
                    ..old(self).rec(i as int)
                }),
            ),
            final(self).same_frame(old(self)),
    {
        let ghost old_items = self.items@;
        self.items[i].computed_size.set(d, v);
        proof {
            lemma_put(old_items, self.kids@, i as int, self.items@[i as int]);
        }
    }

    /// The demand of item `i` along axis `d`: its extent and both margins.
    fn demand_of(&self, i: usize, d: usize) -> (r: i32)
        requires
            i < self.count(),
            d < 2,
        ensures
            r == demand(self.anchors(), i as int, d as int, self.rec(i as int).rect.size(d as int) as int),
    {
        let r = &self.items[i];
        sat_add(sat_add(r.rect.get_size(d), r.margins[d]), r.margins[d + 2])
    }
}

/// What a sequence with one more element holds.
pub proof fn lemma_push_contains(s: Seq<int>, x: int, m: int)
    ensures
        s.push(x).contains(m) == (s.contains(m) || m == x),
{
    if s.contains(m) {
        let i = choose|i: int| 0 <= i < s.len() && s[i] == m;
        assert(s.push(x)[i] == m);
    }
    if m == x {
        assert(s.push(x)[s.len() as int] == x);
    }
    if s.push(x).contains(m) {
        let i = choose|i: int| 0 <= i < s.push(x).len() && s.push(x)[i] == m;
        if i < s.len() {
            assert(s[i] == m);
        }
    }
}

impl<Wgt, Hnd> Context<Wgt, Hnd> {
    /// Walks from `start`, a child of `j`, along its neighbours on one side
    /// of axis `d`, adding each one's demand to `need` (and, for those of
    /// explicit size, to `hard`), and marking each as counted.
    fn walk_chain(&mut self, j: usize, start: usize, d: usize, high: bool, need0: i32, hard0: i32) -> (r: (
        i32,
        i32,
    ))
        requires
            old(self).wf(),
            old(self).links_siblings(),
            j < start < old(self).count(),
            old(self).parent_of(start as int) == j,
            d < 2,
        ensures
            final(self).same_frame(old(self)),
            ({
                let a = old(self).anchors();
                let w = walk(a, start as int, d as int, high, a.len() as nat);
                &&& r.0 == fold_extent(old(self).records(), w, need0 as int, d as int, false)
                &&& r.1 == fold_extent(old(self).records(), w, hard0 as int, d as int, true)
                &&& old(self).kids_at_best(j as int, d as int) ==> r.0 == fold_demand(
                    a,
                    old(self).kid_lists(),
                    j as int,
                    w,
                    need0 as int,
                    d as int,
                    false,
                ) && r.1 == fold_demand(a, old(self).kid_lists(), j as int, w, hard0 as int, d as int, true)
                &&& forall|m: int| #[trigger] w.contains(m) ==> 0 <= m < old(self).count() && old(self).parent_of(m) == j
                &&& forall|m: int|
                    0 <= m < old(self).count() ==> #[trigger] final(self).rec(m) == (ItemImp {
                        sized: final(self).rec(m).sized,
                        ..old(self).rec(m)
                    }) && final(self).rec(m).sized@ == old(self).rec(m).sized@.update(
                        d as int,
                        old(self).rec(m).sized@[d as int] || w.contains(m),
                    )
            }),
    {
        let ghost a = self.anchors();
        let ghost kids = self.kid_lists();
        let ghost full = walk(a, start as int, d as int, high, a.len() as nat);
        let ghost mut walked: Seq<int> = Seq::empty();
        let ghost pre = *self;
        let mut need = need0;
        let mut hard = hard0;
        let mut prev = start;
        let mut fuel = self.items.len();
        proof {
            assert(full =~= walked + walk(a, start as int, d as int, high, fuel as nat));
            assert forall|m: int| 0 <= m < self.count() implies #[trigger] self.rec(m) == (ItemImp {
                sized: self.rec(m).sized,
                ..pre.rec(m)
            }) && self.rec(m).sized@ =~= pre.rec(m).sized@.update(
                d as int,
                pre.rec(m).sized@[d as int] || walked.contains(m),
            ) by {
                assert(pre.rec(m).sized@.len() == 2);
            }
        }
        while fuel > 0
            invariant
                self.same_frame(&pre),
                pre.wf(),
                pre.links_siblings(),
                a == pre.anchors(),
                kids == pre.kid_lists(),
                j < prev < self.count(),
                pre.parent_of(prev as int) == j,
                d < 2,
                full == walked + walk(a, prev as int, d as int, high, fuel as nat),
                fold_extent(pre.records(), full, need0 as int, d as int, false) == fold_extent(
                    pre.records(),
                    walk(a, prev as int, d as int, high, fuel as nat),
                    need as int,
                    d as int,
                    false,
                ),
                fold_extent(pre.records(), full, hard0 as int, d as int, true) == fold_extent(
                    pre.records(),
                    walk(a, prev as int, d as int, high, fuel as nat),
                    hard as int,
                    d as int,
                    true,
                ),
                pre.kids_at_best(j as int, d as int) ==> fold_demand(a, kids, j as int, full, need0 as int, d as int, false) == fold_demand(
                    a,
                    kids,
                    j as int,
                    walk(a, prev as int, d as int, high, fuel as nat),
                    need as int,
                    d as int,
                    false,
                ),
                pre.kids_at_best(j as int, d as int) ==> fold_demand(a, kids, j as int, full, hard0 as int, d as int, true) == fold_demand(
                    a,
                    kids,
                    j as int,
                    walk(a, prev as int, d as int, high, fuel as nat),
                    hard as int,
                    d as int,
                    true,
                ),
                forall|m: int| #[trigger] walked.contains(m) ==> 0 <= m < pre.count() && pre.parent_of(m) == j,
                forall|m: int|
                    0 <= m < pre.count() ==> #[trigger] self.rec(m) == (ItemImp {
                        sized: self.rec(m).sized,
                        ..pre.rec(m)
                    }) && self.rec(m).sized@ == pre.rec(m).sized@.update(
                        d as int,
                        pre.rec(m).sized@[d as int] || walked.contains(m),
                    ),
            ensures
                walk(a, prev as int, d as int, high, fuel as nat).len() == 0,
            decreases fuel,
        {
            let flags = self.items[prev].layout_flags;
            let bit: u32 = if high { 4 } else { 1 };
            proof {
                assert(flags == a[prev as int].flags);
            }
            if (flags >> (d as u32)) & bit == 0 {
                assert(!anchored(a, prev as int, d as int, high));
                break;
            }
            let side: usize = if high { d + 2 } else { d };
            let n = self.items[prev].relto[side];
            proof {
                assert(n == a[prev as int].relto[side as int]);
            }
            if n.itemid == -1 {
                assert(link(a, prev as int, d as int, high) == -1);
                break;
            }
            let ni = n.itemid as usize;
            proof {
                pre.lemma_wf_tree();
                assert(node_ok(pre.records(), pre.kid_lists(), prev as int));
                assert(pre.rec(prev as int).relto@[side as int] == self.rec(prev as int).relto@[side as int]);
                assert(pre.rec(prev as int).relto@[side as int].itemid != -1);
                assert(node_ok(pre.records(), pre.kid_lists(), ni as int));
                assert(link(a, prev as int, d as int, high) == ni);
                assert(anchored(a, prev as int, d as int, high));
                let rest = walk(a, ni as int, d as int, high, (fuel - 1) as nat);
                assert(walk(a, prev as int, d as int, high, fuel as nat) == seq![ni as int] + rest);
                assert((seq![ni as int] + rest).drop_first() =~= rest);
                assert(self.rec(ni as int).rect == pre.rec(ni as int).rect);
            }
            let dm = self.demand_of(ni, d);
            need = sat_add(need, dm);
            if self.items[ni].size.get(d) > 0 {
                hard = sat_add(hard, dm);
            }
            self.mark_sized(ni, d);
            proof {
                let rest = walk(a, ni as int, d as int, high, (fuel - 1) as nat);
                let w0 = walked;
                walked = walked.push(ni as int);
                assert(full =~= walked + rest);
                assert forall|m: int| #[trigger] walked.contains(m) implies 0 <= m < pre.count()
                    && pre.parent_of(m) == j by {
                    if m != ni {
                        assert(w0.contains(m));
                    }
                }
                assert forall|m: int| 0 <= m < pre.count() implies #[trigger] self.rec(m) == (ItemImp {
                    sized: self.rec(m).sized,
                    ..pre.rec(m)
                }) && self.rec(m).sized@ == pre.rec(m).sized@.update(
                    d as int,
                    pre.rec(m).sized@[d as int] || walked.contains(m),
                ) by {
                    lemma_push_contains(w0, ni as int, m);
                    assert(pre.rec(m).sized@.len() == 2);
                    assert(self.rec(m).sized@ =~= pre.rec(m).sized@.update(
                        d as int,
                        pre.rec(m).sized@[d as int] || walked.contains(m),
                    ));
                }
            }
            prev = ni;
            fuel = fuel - 1;
        }
        proof {
            assert(full =~= walked);
        }
        (need, hard)
    }
}

/// What the concatenation of two sequences holds.
pub proof fn lemma_add_contains(s: Seq<int>, t: Seq<int>, m: int)
    ensures
        (s + t).contains(m) == (s.contains(m) || t.contains(m)),
{
    if s.contains(m) {
        let i = choose|i: int| 0 <= i < s.len() && s[i] == m;
        assert((s + t)[i] == m);
    }
    if t.contains(m) {
        let i = choose|i: int| 0 <= i < t.len() && t[i] == m;
        assert((s + t)[s.len() + i] == m);
    }
    if (s + t).contains(m) {
        let i = choose|i: int| 0 <= i < (s + t).len() && (s + t)[i] == m;
        if i < s.len() {
            assert(s[i] == m);
        } else {
            assert(t[i - s.len()] == m);
        }
    }
}

/// What the chain through `c` holds.
pub proof fn lemma_chain_contains(a: Seq<Anchors>, c: int, d: int, m: int)
    ensures
        chain(a, c, d).contains(m) == (m == c || walk(a, c, d, false, a.len() as nat).contains(m)
            || walk(a, c, d, true, a.len() as nat).contains(m)),
{
    let low = walk(a, c, d, false, a.len() as nat);
    let high = walk(a, c, d, true, a.len() as nat);
    lemma_add_contains(seq![c], low, m);
    lemma_add_contains(seq![c] + low, high, m);
    assert(seq![c].contains(m) == (m == c)) by {
        if m == c {
            assert(seq![c][0] == c);
        }
    }
}

impl<Wgt, Hnd> Context<Wgt, Hnd> {
    /// The total demand of the chain through child `c` of `j` on axis `d`,
    /// and its fixed demand; marks the chain's members as counted.
    fn compute_chain_size(&mut self, j: usize, c: usize, d: usize) -> (r: (i32, i32))
        requires
            old(self).wf(),
            old(self).links_siblings(),
            j < c < old(self).count(),
            old(self).parent_of(c as int) == j,
            d < 2,
        ensures
            final(self).same_frame(old(self)),
            ({
                let a = old(self).anchors();
                let ch = chain(a, c as int, d as int);
                &&& r.0 == chain_extent(old(self).records(), c as int, d as int, false)
                &&& r.1 == chain_extent(old(self).records(), c as int, d as int, true)
                &&& old(self).kids_at_best(j as int, d as int) ==> r.0 == chain_demand(
                    a,
                    old(self).kid_lists(),
                    j as int,
                    c as int,
                    d as int,
                    false,
                ) && r.1 == chain_demand(a, old(self).kid_lists(), j as int, c as int, d as int, true)
                &&& forall|m: int| #[trigger] ch.contains(m) ==> 0 <= m < old(self).count() && old(self).parent_of(m) == j
                &&& forall|m: int|
                    0 <= m < old(self).count() ==> #[trigger] final(self).rec(m) == (ItemImp {
                        sized: final(self).rec(m).sized,
                        ..old(self).rec(m)
                    }) && final(self).rec(m).sized@ == old(self).rec(m).sized@.update(
                        d as int,
                        old(self).rec(m).sized@[d as int] || ch.contains(m),
                    )
            }),
    {
        let ghost pre = *self;
        let ghost a = self.anchors();
        let dm = self.demand_of(c, d);
        let hs = if self.items[c].size.get(d) > 0 { dm } else { 0 };
        self.mark_sized(c, d);
        let ghost s1 = *self;
        proof {
            if pre.kids_at_best(j as int, d as int) {
                assert forall|m: int|
                    0 <= m < self.count() && self.parent_of(m) == j implies #[trigger] self.rec(m).rect.size(
                    d as int,
                ) == self.best_size(m, d as int) by {
                    assert(pre.rec(m).rect.size(d as int) == pre.best_size(m, d as int));
                }
            }
        }
        proof {
            self.lemma_frame_siblings(&pre);
        }
        let (n1, h1) = self.walk_chain(j, c, d, false, dm, hs);
        let ghost s2 = *self;
        proof {
            if pre.kids_at_best(j as int, d as int) {
                assert forall|m: int|
                    0 <= m < self.count() && self.parent_of(m) == j implies #[trigger] self.rec(m).rect.size(
                    d as int,
                ) == self.best_size(m, d as int) by {
                    assert(s1.rec(m).rect.size(d as int) == s1.best_size(m, d as int));
                    assert(self.rec(m).rect == s1.rec(m).rect);
                }
            }
        }
        proof {
            self.lemma_frame_siblings(&pre);
        }
        let (n2, h2) = self.walk_chain(j, c, d, true, n1, h1);
        proof {
            let low = walk(a, c as int, d as int, false, a.len() as nat);
            let high = walk(a, c as int, d as int, true, a.len() as nat);
            assert forall|m: int| 0 <= m < pre.count() implies (#[trigger] s1.records()[m]).rect == pre.records()[m].rect by {
                assert(s1.rec(m).rect == pre.rec(m).rect);
            }
            assert forall|m: int| 0 <= m < pre.count() implies (#[trigger] s2.records()[m]).rect == pre.records()[m].rect by {
                assert(s2.rec(m).rect == s1.rec(m).rect);
                assert(s1.rec(m).rect == pre.rec(m).rect);
            }
            assert forall|t: int| 0 <= t < low.len() implies 0 <= #[trigger] low[t] < pre.count() by {
                assert(low.contains(low[t]));
            }
            assert forall|t: int| 0 <= t < high.len() implies 0 <= #[trigger] high[t] < pre.count() by {
                assert(high.contains(high[t]));
            }
            assert(anchors_of(s1.records()) == anchors_of(pre.records()));
            assert(anchors_of(s2.records()) == anchors_of(pre.records()));
            lemma_fold_extent_frame(s1.records(), pre.records(), low, dm as int, d as int, false);
            lemma_fold_extent_frame(s1.records(), pre.records(), low, hs as int, d as int, true);
            lemma_fold_extent_frame(s2.records(), pre.records(), high, n1 as int, d as int, false);
            lemma_fold_extent_frame(s2.records(), pre.records(), high, h1 as int, d as int, true);
            let ch = chain(a, c as int, d as int);
            assert forall|m: int| #[trigger] ch.contains(m) implies 0 <= m < pre.count() && pre.parent_of(m) == j by {
                lemma_chain_contains(a, c as int, d as int, m);
            }
            assert forall|m: int| 0 <= m < pre.count() implies #[trigger] self.rec(m) == (ItemImp {
                sized: self.rec(m).sized,
                ..pre.rec(m)
            }) && self.rec(m).sized@ == pre.rec(m).sized@.update(
                d as int,
                pre.rec(m).sized@[d as int] || ch.contains(m),
            ) by {
                lemma_chain_contains(a, c as int, d as int, m);
                assert(s2.rec(m).sized@ == s1.rec(m).sized@.update(d as int, s1.rec(m).sized@[d as int] || low.contains(m)));
                assert(self.rec(m).sized@ == s2.rec(m).sized@.update(d as int, s2.rec(m).sized@[d as int] || high.contains(m)));
                assert(pre.rec(m).sized@.len() == 2);
                assert(self.rec(m).sized@ =~= pre.rec(m).sized@.update(
                    d as int,
                    pre.rec(m).sized@[d as int] || ch.contains(m),
                ));
            }
        }
        (n2, h2)
    }

    /// Sets the extent of `j` on axis `d` to its explicit size, or else to
    /// the largest chain demand of its children, and its fixed demand to the
    /// largest fixed chain demand; the children must be sized already.
    fn compute_size_dim(&mut self, j: usize, d: usize)
        requires
            old(self).wf(),
            old(self).links_siblings(),
            j < old(self).count(),
            d < 2,
            forall|m: int|
                0 <= m < old(self).count() && old(self).parent_of(m) == j ==> #[trigger] old(self).rec(
                    m,
                ).rect.size(d as int) == old(self).best_size(m, d as int) && !old(self).rec(m).sized@[d as int],
        ensures
            final(self).same_frame(old(self)),
            final(self).rec(j as int) == (ItemImp {
                rect: old(self).rec(j as int).rect.with_size(d as int, old(self).best_size(j as int, d as int) as i32),
                computed_size: old(self).rec(j as int).computed_size.with_at(
                    d as int,
                    old(self).hard_size(j as int, d as int) as i32,
                ),
                ..old(self).rec(j as int)
            }),
            forall|m: int|
                0 <= m < old(self).count() && m != j ==> #[trigger] final(self).rec(m) == (ItemImp {
                    sized: final(self).rec(m).sized,
                    ..old(self).rec(m)
                }) && (old(self).parent_of(m) != j ==> final(self).rec(m).sized == old(self).rec(m).sized),
            forall|m: int|
                0 <= m < old(self).count() && old(self).parent_of(m) == j ==> (#[trigger] final(self).rec(
                    m,
                )).sized@[d as int],
            i32::MIN <= old(self).best_size(j as int, d as int) <= i32::MAX,
            i32::MIN <= old(self).hard_size(j as int, d as int) <= i32::MAX,
    {
        let ghost pre = *self;
        let ghost a = self.anchors();
        let ghost kids = self.kid_lists();
        let ghost ks = kids[j as int];
        let ghost mut seen: Set<int> = Set::empty();
        proof {
            pre.lemma_wf_tree();
            assert(node_ok(pre.records(), kids, j as int));
        }
        let mut need: i32 = 0;
        let mut hard: i32 = 0;
        proof {
            assert forall|m: int| 0 <= m < pre.count() implies #[trigger] self.rec(m) == (ItemImp {
                sized: self.rec(m).sized,
                ..pre.rec(m)
            }) && self.rec(m).sized@.len() == 2 && (pre.parent_of(m) == j ==> self.rec(m).sized@[d as int]
                == seen.contains(m)) && (pre.parent_of(m) != j ==> self.rec(m).sized == pre.rec(m).sized) by {
                assert(pre.rec(m).sized@.len() == 2);
                if pre.parent_of(m) == j {
                    assert(pre.rec(m).rect.size(d as int) == pre.best_size(m, d as int));
                }
            }
        }
        let mut kid = self.items[j].firstkid;
        let mut k: usize = 0;
        while kid.itemid != -1
            invariant
                self.same_frame(&pre),
                pre.wf(),
                pre.links_siblings(),
                a == pre.anchors(),
                kids == pre.kid_lists(),
                j < pre.count(),
                d < 2,
                ks == kids[j as int],
                0 <= k <= ks.len(),
                kid.itemid == (if k < ks.len() { ks[k as int] } else { -1 }),
                kids_demand(a, kids, j as int, 0, Set::empty(), 0, d as int, false) == kids_demand(
                    a,
                    kids,
                    j as int,
                    k as int,
                    seen,
                    need as int,
                    d as int,
                    false,
                ),
                kids_demand(a, kids, j as int, 0, Set::empty(), 0, d as int, true) == kids_demand(
                    a,
                    kids,
                    j as int,
                    k as int,
                    seen,
                    hard as int,
                    d as int,
                    true,
                ),
                forall|m: int|
                    0 <= m < pre.count() ==> #[trigger] self.rec(m) == (ItemImp {
                        sized: self.rec(m).sized,
                        ..pre.rec(m)
                    }) && self.rec(m).sized@.len() == 2 && (pre.parent_of(m) == j ==> self.rec(m).sized@[d as int]
                        == seen.contains(m)) && (pre.parent_of(m) != j ==> self.rec(m).sized == pre.rec(m).sized),
                forall|m: int|
                    0 <= m < pre.count() && pre.parent_of(m) == j ==> #[trigger] pre.rec(m).rect.size(
                        d as int,
                    ) == pre.best_size(m, d as int) && !pre.rec(m).sized@[d as int],
                forall|t: int| 0 <= t < k ==> seen.contains(#[trigger] ks[t]),
            decreases ks.len() - k,
        {
            let c = kid.itemid as usize;
            proof {
                pre.lemma_wf_tree();
                assert(node_ok(pre.records(), kids, j as int));
                assert(j < ks[k as int] < pre.count());
                assert(pre.parent_of(c as int) == j);
                assert(node_ok(pre.records(), kids, c as int));
            }
            if !self.items[c].sized[d] {
                proof {
                    assert forall|m: int|
                        0 <= m < self.count() && self.parent_of(m) == j implies #[trigger] self.rec(m).rect.size(
                        d as int,
                    ) == self.best_size(m, d as int) by {
                        assert(pre.rec(m).rect.size(d as int) == pre.best_size(m, d as int));
                    }
                }
                let ghost s0 = *self;
                proof {
                    self.lemma_frame_siblings(&pre);
                }
                let (ns, hs) = self.compute_chain_size(j, c, d);
                need = max(need, ns);
                hard = max(hard, hs);
                proof {
                    let ch = chain(a, c as int, d as int);
                    let seen0 = seen;
                    seen = seen + ch.to_set();
                    lemma_chain_contains(a, c as int, d as int, c as int);
                    assert(ch.to_set().contains(c as int));
                    assert forall|t: int| 0 <= t < k implies seen.contains(#[trigger] ks[t]) by {
                        assert(seen0.contains(ks[t]));
                    }
                    assert forall|m: int| 0 <= m < pre.count() implies #[trigger] self.rec(m) == (ItemImp {
                        sized: self.rec(m).sized,
                        ..pre.rec(m)
                    }) && self.rec(m).sized@.len() == 2 && (pre.parent_of(m) == j ==> self.rec(m).sized@[d as int]
                        == seen.contains(m)) && (pre.parent_of(m) != j ==> self.rec(m).sized == pre.rec(m).sized) by {
                        assert(s0.rec(m).sized@.len() == 2);
                        if pre.parent_of(m) != j {
                            assert(!ch.contains(m));
                            assert(self.rec(m).sized@ =~= s0.rec(m).sized@);
                        }
                    }
                }
            }
            proof {
                assert(same_links(self.rec(c as int), pre.rec(c as int)));
                assert(self.rec(c as int).sized@[d as int] == seen.contains(c as int));
                assert(seen.contains(ks[k as int]));
            }
            kid = self.items[c].nextitem;
            k = k + 1;
        }
        proof {
            assert forall|m: int| 0 <= m < pre.count() && pre.parent_of(m) == j implies (#[trigger] self.rec(
                m,
            )).sized@[d as int] by {
                assert(node_ok(pre.records(), kids, m));
                assert(ks[pre.rec(m).kidid as int] == m);
                assert(seen.contains(ks[pre.rec(m).kidid as int]));
            }
        }
        let sz = self.items[j].size.get(d);
        proof {
            assert(kids_demand(a, kids, j as int, k as int, seen, need as int, d as int, false) == need);
            assert(kids_demand(a, kids, j as int, k as int, seen, hard as int, d as int, true) == hard);
            assert(a[j as int].size == pre.rec(j as int).size);
        }
        if sz > 0 {
            self.set_extent(j, d, sz);
        } else {
            self.set_extent(j, d, need);
        }
        self.set_computed(j, d, hard);
        proof {
            assert(self.rec(j as int).sized == pre.rec(j as int).sized);
        }
    }

    /// Whether an item lies below another depends on the links alone.
    pub proof fn lemma_desc_frame(&self, other: &Self, m: int, i: int)
        requires
            self.count() == other.count(),
            forall|x: int| 0 <= x < self.count() ==> same_links(#[trigger] self.rec(x), other.rec(x)),
        ensures
            self.is_desc(m, i) == other.is_desc(m, i),
        decreases m,
    {
        if m != i && 0 <= m < self.count() {
            assert(same_links(self.rec(m), other.rec(m)));
            if 0 <= self.parent_of(m) < m {
                self.lemma_desc_frame(other, self.parent_of(m), i);
            }
        }
    }

    /// Two different children of one parent have disjoint subtrees.
    pub proof fn lemma_siblings_disjoint(&self, m: int, c1: int, c2: int)
        requires
            self.wf(),
            0 <= c1 < self.count(),
            0 <= c2 < self.count(),
            c1 != c2,
            self.parent_of(c1) == self.parent_of(c2),
            self.parent_of(c1) != -1,
        ensures
            !(self.is_desc(m, c1) && self.is_desc(m, c2)),
        decreases m,
    {
        self.lemma_wf_tree();
        assert(node_ok(self.records(), self.kid_lists(), c1));
        assert(node_ok(self.records(), self.kid_lists(), c2));
        if !(self.is_desc(m, c1) && self.is_desc(m, c2)) {
        } else if m == c1 {
            self.lemma_desc_index(self.parent_of(c1), c2);
        } else if m == c2 {
            self.lemma_desc_index(self.parent_of(c2), c1);
        } else {
            self.lemma_siblings_disjoint(self.parent_of(m), c1, c2);
        }
    }

    /// An item strictly below `j` lies in the subtree of a child of `j`.
    pub proof fn lemma_desc_kid(&self, m: int, j: int) -> (c: int)
        requires
            self.wf(),
            self.is_desc(m, j),
            m != j,
        ensures
            0 <= c < self.count(),
            self.parent_of(c) == j,
            self.is_desc(m, c),
        decreases m,
    {
        let p = self.parent_of(m);
        if p == j {
            m
        } else {
            let c = self.lemma_desc_kid(p, j);
            self.lemma_desc_index(p, c);
            c
        }
    }

    /// Runs the best-size pass on axis `d` over the subtree of `j`: every
    /// item of it gets its best size as extent and its largest fixed chain
    /// demand as computed size, and loses its progress marks (`j` keeps
    /// none; its descendants may be marked as counted).
    fn compute_best_size(&mut self, j: usize, d: usize)
        requires
            old(self).wf(),
            old(self).links_siblings(),
            j < old(self).count(),
            d < 2,
        ensures
            final(self).same_frame(old(self)),
            forall|m: int|
                0 <= m < old(self).count() && !old(self).is_desc(m, j as int) ==> #[trigger] final(self).rec(m)
                    == old(self).rec(m),
            forall|m: int|
                0 <= m < old(self).count() && #[trigger] old(self).is_desc(m, j as int) ==> sized_as(
                    old(self).rec(m),
                    final(self).rec(m),
                    d as int,
                    old(self).best_size(m, d as int),
                    old(self).hard_size(m, d as int),
                ),
            !final(self).rec(j as int).sized@[d as int],
        decreases old(self).count() - j,
    {
        let ghost pre = *self;
        let ghost kids = self.kid_lists();
        let ghost ks = kids[j as int];
        proof {
            pre.lemma_wf_tree();
            assert(node_ok(pre.records(), kids, j as int));
        }
        self.reset_marks(j);
        let ghost mid = *self;
        let mut kid = self.items[j].firstkid;
        let mut k: usize = 0;
        while kid.itemid != -1
            invariant
                pre == *old(self),
                self.same_frame(&pre),
                mid.same_frame(&pre),
                pre.wf(),
                pre.links_siblings(),
                kids == pre.kid_lists(),
                j < pre.count(),
                d < 2,
                ks == kids[j as int],
                0 <= k <= ks.len(),
                kid.itemid == (if k < ks.len() { ks[k as int] } else { -1 }),
                mid.rec(j as int).sized@ == seq![false, false],
                mid.rec(j as int).placed@ == seq![false, false],
                mid.rec(j as int) == (ItemImp {
                    sized: mid.rec(j as int).sized,
                    placed: mid.rec(j as int).placed,
                    ..pre.rec(j as int)
                }),
                forall|m: int| 0 <= m < pre.count() && m != j ==> #[trigger] mid.rec(m) == pre.rec(m),
                forall|t: int, m: int|
                    0 <= t < k && 0 <= m < pre.count() && #[trigger] pre.is_desc(m, ks[t]) ==> sized_as(
                        pre.rec(m),
                        self.rec(m),
                        d as int,
                        pre.best_size(m, d as int),
                        pre.hard_size(m, d as int),
                    ),
                forall|t: int| 0 <= t < k ==> !(#[trigger] self.rec(ks[t])).sized@[d as int],
                forall|m: int|
                    0 <= m < pre.count() && (forall|t: int| 0 <= t < k ==> !(#[trigger] pre.is_desc(m, ks[t])))
                        ==> #[trigger] self.rec(m) == mid.rec(m),
            decreases ks.len() - k,
        {
            let c = kid.itemid as usize;
            proof {
                pre.lemma_wf_tree();
                assert(node_ok(pre.records(), kids, j as int));
                assert(j < ks[k as int] < pre.count());
                assert(node_ok(pre.records(), kids, c as int));
                self.lemma_frame_siblings(&pre);
            }
            let ghost s0 = *self;
            self.compute_best_size(c, d);
            proof {
                assert forall|m: int| 0 <= m < pre.count() implies #[trigger] s0.is_desc(m, c as int) == pre.is_desc(m, c as int) by {
                    s0.lemma_desc_frame(&pre, m, c as int);
                }
                assert forall|t: int, m: int|
                    0 <= t <= k && 0 <= m < pre.count() && #[trigger] pre.is_desc(m, ks[t]) implies sized_as(
                    pre.rec(m),
                    self.rec(m),
                    d as int,
                    pre.best_size(m, d as int),
                    pre.hard_size(m, d as int),
                ) by {
                    assert(node_ok(pre.records(), kids, ks[t]));
                    if t < k {
                        if s0.is_desc(m, c as int) {
                            assert(pre.is_desc(m, c as int));
                            pre.lemma_siblings_disjoint(m, ks[t], c as int);
                        }
                        assert(self.rec(m) == s0.rec(m));
                    } else {
                        assert(s0.is_desc(m, c as int));
                        assert forall|t2: int| 0 <= t2 < k implies !(#[trigger] pre.is_desc(m, ks[t2])) by {
                            if pre.is_desc(m, ks[t2]) {
                                assert(node_ok(pre.records(), kids, ks[t2]));
                                pre.lemma_siblings_disjoint(m, ks[t2], c as int);
                            }
                        }
                        assert(s0.rec(m) == mid.rec(m));
                        pre.lemma_desc_index(m, c as int);
                        assert(mid.rec(m) == pre.rec(m));
                    }
                }
                assert forall|t: int| 0 <= t <= k implies !(#[trigger] self.rec(ks[t])).sized@[d as int] by {
                    if t < k {
                        assert(node_ok(pre.records(), kids, ks[t]));
                        assert(pre.is_desc(ks[t], ks[t]));
                        if s0.is_desc(ks[t], c as int) {
                            pre.lemma_siblings_disjoint(ks[t], ks[t], c as int);
                        }
                    }
                }
                assert forall|m: int|
                    0 <= m < pre.count() && (forall|t: int| 0 <= t < k + 1 ==> !(#[trigger] pre.is_desc(m, ks[t])))
                        implies #[trigger] self.rec(m) == mid.rec(m) by {
                    assert(!pre.is_desc(m, ks[k as int]));
                    assert(!s0.is_desc(m, c as int));
                }
                assert(same_links(self.rec(c as int), pre.rec(c as int)));
            }
            kid = self.items[c].nextitem;
            k = k + 1;
        }
        proof {
            self.lemma_frame_siblings(&pre);
            assert forall|m: int|
                0 <= m < self.count() && self.parent_of(m) == j implies #[trigger] self.rec(m).rect.size(
                d as int,
            ) == self.best_size(m, d as int) && !self.rec(m).sized@[d as int] by {
                assert(same_links(self.rec(m), pre.rec(m)));
                assert(node_ok(pre.records(), kids, m));
                let t = pre.rec(m).kidid as int;
                assert(ks[t] == m);
                assert(pre.is_desc(m, m));
            }
        }
        let ghost s1 = *self;
        self.compute_size_dim(j, d);
        proof {
            assert forall|m: int|
                0 <= m < pre.count() && !pre.is_desc(m, j as int) implies #[trigger] self.rec(m) == pre.rec(m) by {
                assert(pre.is_desc(j as int, j as int));
                assert forall|t: int| 0 <= t < ks.len() implies !(#[trigger] pre.is_desc(m, ks[t])) by {
                    assert(node_ok(pre.records(), kids, ks[t]));
                    if pre.is_desc(m, ks[t]) {
                        assert(pre.is_desc(ks[t], j as int));
                        pre.lemma_desc_trans(m, ks[t], j as int);
                    }
                }
                if m != j {
                    assert(s1.rec(m) == mid.rec(m));
                    assert(node_ok(pre.records(), kids, m));
                    if pre.parent_of(m) == j {
                        assert(pre.is_desc(m, j as int));
                    }
                }
            }
            assert forall|t: int| 0 <= t < ks.len() implies !(#[trigger] pre.is_desc(j as int, ks[t])) by {
                assert(node_ok(pre.records(), kids, j as int));
                if pre.is_desc(j as int, ks[t]) {
                    pre.lemma_desc_index(j as int, ks[t]);
                }
            }
            assert(s1.rec(j as int) == mid.rec(j as int));
            assert forall|m: int|
                0 <= m < pre.count() && #[trigger] pre.is_desc(m, j as int) implies sized_as(
                pre.rec(m),
                self.rec(m),
                d as int,
                pre.best_size(m, d as int),
                pre.hard_size(m, d as int),
            ) by {
                if m == j {
                } else {
                    let c = pre.lemma_desc_kid(m, j as int);
                    assert(node_ok(pre.records(), kids, c));
                    let t = pre.rec(c).kidid as int;
                    assert(ks[t] == c);
                    assert(sized_as(pre.rec(m), s1.rec(m), d as int, pre.best_size(m, d as int), pre.hard_size(m, d as int)));
                }
            }
        }
    }
}

/// How many records of `s` are not yet placed on axis `d`.
pub open spec fn unplaced<Wgt, Hnd>(s: Seq<ItemImp<Wgt, Hnd>>, d: int) -> nat
    decreases s.len(),
{
    if s.len() == 0 {
        0
    } else {
        unplaced(s.drop_last(), d) + if s.last().placed@[d] { 0nat } else { 1nat }
    }
}

/// Placing items never raises the number of unplaced ones.
pub proof fn lemma_unplaced_mono<Wgt, Hnd>(s1: Seq<ItemImp<Wgt, Hnd>>, s2: Seq<ItemImp<Wgt, Hnd>>, d: int)
    requires
        s1.len() == s2.len(),
        forall|m: int| 0 <= m < s1.len() && (#[trigger] s1[m]).placed@[d] ==> s2[m].placed@[d],
    ensures
        unplaced(s2, d) <= unplaced(s1, d),
    decreases s1.len(),
{
    if s1.len() > 0 {
        lemma_unplaced_mono(s1.drop_last(), s2.drop_last(), d);
        assert(s1.last() == s1[s1.len() - 1]);
    }
}

/// Placing one unplaced item lowers the number of unplaced ones by one.
pub proof fn lemma_unplaced_mark<Wgt, Hnd>(s1: Seq<ItemImp<Wgt, Hnd>>, s2: Seq<ItemImp<Wgt, Hnd>>, d: int, i: int)
    requires
        s1.len() == s2.len(),
        0 <= i < s1.len(),
        !s1[i].placed@[d],
        s2[i].placed@[d],
        forall|m: int| 0 <= m < s1.len() && m != i ==> (#[trigger] s1[m]).placed@[d] == s2[m].placed@[d],
    ensures
        unplaced(s2, d) + 1 == unplaced(s1, d),
    decreases s1.len(),
{
    if i < s1.len() - 1 {
        lemma_unplaced_mark(s1.drop_last(), s2.drop_last(), d, i);
        assert(s1.last() == s1[s1.len() - 1]);
    } else {
        lemma_unplaced_mono(s1.drop_last(), s2.drop_last(), d);
        lemma_unplaced_mono(s2.drop_last(), s1.drop_last(), d);
    }
}

/// There are no more unplaced items than items.
pub proof fn lemma_unplaced_le<Wgt, Hnd>(s: Seq<ItemImp<Wgt, Hnd>>, d: int)
    ensures
        unplaced(s, d) <= s.len(),
    decreases s.len(),
{
    if s.len() > 0 {
        lemma_unplaced_le(s.drop_last(), d);
    }
}

/// What the position pass on axis `d` may do to record `o`: move it along
/// `d`, resize it along `d` only where `resizable`, and mark it placed.
pub open spec fn placed_as<Wgt, Hnd>(o: ItemImp<Wgt, Hnd>, n: ItemImp<Wgt, Hnd>, d: int, resizable: bool) -> bool {
    &&& n == (ItemImp { rect: n.rect, placed: n.placed, ..o })
    &&& n.rect == o.rect.with_pos(d, n.rect.pos(d)).with_size(d, n.rect.size(d))
    &&& (!resizable ==> n.rect.size(d) == o.rect.size(d))
    &&& n.placed@.len() == 2
    &&& n.placed@[1 - d] == o.placed@[1 - d]
    &&& (o.placed@[d] ==> n.placed@[d])
}

/// Whether item `m` anchors to a neighbour on either side of axis `d`.
pub open spec fn linked(a: Seq<Anchors>, m: int, d: int) -> bool {
    (anchored(a, m, d, false) && link(a, m, d, false) != -1) || (anchored(a, m, d, true) && link(a, m, d, true)
        != -1)
}

/// Whether `r` is where the position pass puts item `m`, which anchors to
/// no neighbour on axis `d`, in a parent of extent `span` along `d`: at the
/// low margin when anchored low (also when filling, and then, without an
/// explicit size, as wide as the span less both margins); against the far
/// side less the high margin when anchored high only; else centred, offset
/// by the low margin.
pub open spec fn settled(a: Seq<Anchors>, m: int, d: int, span: int, r: crate::geom::Rect) -> bool {
    let lo = anchored_low(a[m].flags, d);
    let hi = anchored_high(a[m].flags, d);
    let mlo = a[m].margins[d];
    let mhi = a[m].margins[d + 2];
    let size = r.size(d);
    if lo && !hi {
        r.pos(d) == mlo
    } else if !lo && hi {
        r.pos(d) == clamp32(clamp32(span - size) - mhi)
    } else if lo && hi {
        r.pos(d) == mlo && (!fixed(a, m, d) ==> size == clamp32(clamp32(span - mlo) - mhi))
    } else {
        r.pos(d) == clamp32(half(clamp32(span - size)) + mlo)
    }
}

/// Where the low-side neighbour `l`, at `lr`, lets an item start along
/// axis `d`: past its far edge and its high margin.
pub open spec fn past(a: Seq<Anchors>, l: int, d: int, lr: crate::geom::Rect) -> int {
    clamp32(clamp32(lr.pos(d) + lr.size(d)) + a[l].margins[d + 2])
}

/// Whether `r` is where the position pass puts item `m` on axis `d`, in a
/// parent of extent `span` whose children's chains demand `demand` at most,
/// given the rectangles `lr` and `rr` of its low- and high-side neighbours:
/// the space runs from past the low neighbour (or the parent's low side) to
/// before the high one (or the parent's high side); an item anchored low
/// only starts there after its low margin; one anchored high only ends
/// there before its high margin; a fill item of explicit size sits against
/// its low anchor, or against its high one when it has a low neighbour; a
/// fill item without one spans the space less its margins, or, after a low
/// neighbour, takes the parent's slack less its margins and ends against
/// its high anchor; any other item is centred, offset by its low margin.
#[verifier::opaque]
pub open spec fn placed_rule(
    a: Seq<Anchors>,
    m: int,
    d: int,
    span: int,
    demand: int,
    lr: crate::geom::Rect,
    rr: crate::geom::Rect,
    r: crate::geom::Rect,
) -> bool {
    let hasl = anchored_low(a[m].flags, d) && link(a, m, d, false) != -1;
    let hasr = anchored_high(a[m].flags, d) && link(a, m, d, true) != -1;
    let x = if hasl { past(a, link(a, m, d, false), d, lr) } else { 0 };
    let s1 = if hasl { clamp32(span - x) } else { span };
    let s = if hasr { clamp32(clamp32(rr.pos(d) - a[link(a, m, d, true)].margins[d]) - x) } else { s1 };
    rule_in(a, m, d, span, demand, x, s, hasl, 1, r)
}

/// `placed_rule` with `shares` dynamic items sharing the slack: where the
/// position pass puts item `m` when it resolves it as the `shares`-th
/// dynamic item of its group.
#[verifier::opaque]
pub open spec fn placed_rule_shared(
    a: Seq<Anchors>,
    m: int,
    d: int,
    span: int,
    demand: int,
    lr: crate::geom::Rect,
    rr: crate::geom::Rect,
    r: crate::geom::Rect,
    shares: int,
) -> bool {
    let hasl = anchored_low(a[m].flags, d) && link(a, m, d, false) != -1;
    let hasr = anchored_high(a[m].flags, d) && link(a, m, d, true) != -1;
    let x = if hasl { past(a, link(a, m, d, false), d, lr) } else { 0 };
    let s1 = if hasl { clamp32(span - x) } else { span };
    let s = if hasr { clamp32(clamp32(rr.pos(d) - a[link(a, m, d, true)].margins[d]) - x) } else { s1 };
    rule_in(a, m, d, span, demand, x, s, hasl, shares, r)
}

/// Whether `r` is where the position pass puts item `m` on axis `d` in the
/// space that starts at `x` and runs `s` on, in a parent of extent `span`
/// whose children's chains demand `demand` at most, with `shares` dynamic
/// items sharing the slack (`hasl`: whether the space starts past a low
/// neighbour).
#[verifier::opaque]
pub open spec fn rule_in(
    a: Seq<Anchors>,
    m: int,
    d: int,
    span: int,
    demand: int,
    x: int,
    s: int,
    hasl: bool,
    shares: int,
    r: crate::geom::Rect,
) -> bool {
    let lo = anchored_low(a[m].flags, d);
    let hi = anchored_high(a[m].flags, d);
    let mlo = a[m].margins[d];
    let mhi = a[m].margins[d + 2];
    let size = r.size(d);
    if lo && !hi {
        r.pos(d) == clamp32(x + mlo)
    } else if !lo && hi {
        r.pos(d) == clamp32(clamp32(clamp32(x + s) - size) - mhi)
    } else if lo && hi {
        if fixed(a, m, d) && !hasl {
            r.pos(d) == clamp32(x + mlo)
        } else if fixed(a, m, d) {
            r.pos(d) == clamp32(clamp32(clamp32(x + s) - size) - mhi)
        } else if !hasl {
            r.pos(d) == clamp32(x + mlo) && size == clamp32(clamp32(s - mlo) - mhi)
        } else {
            &&& size == clamp32(clamp32(quot(clamp32(span - demand), shares) - mlo) - mhi)
            &&& r.pos(d) == clamp32(clamp32(clamp32(x + s) - size) - mhi)
        }
    } else {
        r.pos(d) == clamp32(clamp32(x + half(clamp32(s - size))) + mlo)
    }
}

impl<Wgt, Hnd> Context<Wgt, Hnd> {
    /// Whether item `m` is a child that fills its parent's slack on axis `d`.
    pub open spec fn dynamic_child(&self, m: int, d: int) -> bool {
        dynamic(self.anchors(), m, d) && self.parent_of(m) != -1
    }

    /// Whether the neighbours that item `m` anchors to on axis `d` are
    /// placed on that axis already.
    pub open spec fn neighbours_placed(&self, m: int, d: int) -> bool {
        let a = self.anchors();
        &&& anchored(a, m, d, false) && link(a, m, d, false) != -1 ==> self.rec(link(a, m, d, false)).placed@[d]
        &&& anchored(a, m, d, true) && link(a, m, d, true) != -1 ==> self.rec(link(a, m, d, true)).placed@[d]
    }

    /// The rectangle of the neighbour that item `m` anchors to on the low
    /// (or high) side of axis `d`, or an empty one when it anchors to none.
    pub open spec fn neighbour_rect(&self, m: int, d: int, high: bool) -> crate::geom::Rect {
        let a = self.anchors();
        if anchored(a, m, d, high) && link(a, m, d, high) != -1 {
            self.rec(link(a, m, d, high)).rect
        } else {
            crate::geom::Rect { x: 0, y: 0, w: 0, h: 0 }
        }
    }

    /// Whether item `m` sits on axis `d` where the placement rule puts it,
    /// given its parent and its neighbours as they are.
    pub open spec fn placed_by_rule(&self, m: int, d: int) -> bool {
        let p = self.parent_of(m);
        placed_rule(
            self.anchors(),
            m,
            d,
            self.rec(p).rect.size(d) as int,
            self.rec(p).computed_size.at(d) as int,
            self.neighbour_rect(m, d, false),
            self.neighbour_rect(m, d, true),
            self.rec(m).rect,
        )
    }

    /// Whether item `m` sits on axis `d` where the placement rule puts it as
    /// the `shares`-th dynamic item of its group, given its parent and its
    /// neighbours as they are.
    pub open spec fn placed_with_shares(&self, m: int, d: int, shares: int) -> bool {
        let p = self.parent_of(m);
        placed_rule_shared(
            self.anchors(),
            m,
            d,
            self.rec(p).rect.size(d) as int,
            self.rec(p).computed_size.at(d) as int,
            self.neighbour_rect(m, d, false),
            self.neighbour_rect(m, d, true),
            self.rec(m).rect,
            shares,
        )
    }

    /// Whether item `m` anchors to itself on axis `d`.
    pub open spec fn self_linked(&self, m: int, d: int) -> bool {
        let a = self.anchors();
        (anchored(a, m, d, false) && link(a, m, d, false) == m) || (anchored(a, m, d, true) && link(a, m, d, true)
            == m)
    }

    /// Whether the neighbours that item `m` anchors to on axis `d` come
    /// before it among its siblings.
    pub open spec fn links_back(&self, m: int, d: int) -> bool {
        let a = self.anchors();
        &&& anchored(a, m, d, false) && link(a, m, d, false) != -1 ==> self.rec(link(a, m, d, false)).kidid
            < self.rec(m).kidid
        &&& anchored(a, m, d, true) && link(a, m, d, true) != -1 ==> self.rec(link(a, m, d, true)).kidid
            < self.rec(m).kidid
    }

    /// Whether every child of `j` anchors on axis `d` only to earlier
    /// siblings.
    pub open spec fn family_links_back(&self, j: int, d: int) -> bool {
        forall|m: int| 0 <= m < self.count() && self.parent_of(m) == j ==> #[trigger] self.links_back(m, d)
    }

    /// What the position pass on axis `d` may have done between `self` and
    /// `other`, to every record.
    pub open spec fn placed_from(&self, other: &Self, d: int) -> bool {
        &&& self.same_frame(other)
        &&& forall|m: int|
            0 <= m < self.count() ==> #[trigger] placed_as(other.rec(m), self.rec(m), d, other.dynamic_child(m, d))
        &&& forall|m: int| 0 <= m < self.count() && other.parent_of(m) == -1 ==> #[trigger] self.rec(m) == other.rec(m)
    }

    /// Sets the position (and, for a fill item without explicit size, the
    /// extent) of child `i` of `j` on axis `d`, in the space that starts at
    /// `x` and runs `s` on, with `shares` dynamic items sharing the slack.
    fn place_within(&mut self, j: usize, i: usize, d: usize, x: i32, s: i32, hasl: bool, shares: i32)
        requires
            old(self).wf(),
            j < old(self).count(),
            i < old(self).count(),
            i != j,
            d < 2,
            !fixed(old(self).anchors(), i as int, d as int) ==> shares >= 1,
        ensures
            final(self).same_frame(old(self)),
            final(self).records() == old(self).records().update(
                i as int,
                (ItemImp { rect: final(self).rec(i as int).rect, ..old(self).rec(i as int) }),
            ),
            final(self).rec(i as int).rect == old(self).rec(i as int).rect.with_pos(
                d as int,
                final(self).rec(i as int).rect.pos(d as int),
            ).with_size(d as int, final(self).rec(i as int).rect.size(d as int)),
            !dynamic(old(self).anchors(), i as int, d as int) ==> final(self).rec(i as int).rect.size(d as int)
                == old(self).rec(i as int).rect.size(d as int),
            rule_in(
                old(self).anchors(),
                i as int,
                d as int,
                old(self).rec(j as int).rect.size(d as int) as int,
                old(self).rec(j as int).computed_size.at(d as int) as int,
                x as int,
                s as int,
                hasl,
                shares as int,
                final(self).rec(i as int).rect,
            ),
    {
        let flags = self.items[i].layout_flags;
        let lo = (flags >> (d as u32)) & 1 != 0;
        let hi = (flags >> (d as u32)) & 4 != 0;
        let mlo = self.items[i].margins[d];
        let mhi = self.items[i].margins[d + 2];
        let size = self.items[i].rect.get_size(d);
        let fixed_size = self.items[i].size.get(d) > 0;
        let span = self.items[j].rect.get_size(d);
        let demand = self.items[j].computed_size.get(d);
        let ghost pre = *self;
        if lo && !hi {
            self.set_offset(i, d, sat_add(x, mlo));
        } else if !lo && hi {
            self.set_offset(i, d, sat_sub(sat_sub(sat_add(x, s), size), mhi));
        } else if lo && hi {
            if fixed_size {
                if !hasl {
                    self.set_offset(i, d, sat_add(x, mlo));
                } else {
                    self.set_offset(i, d, sat_sub(sat_sub(sat_add(x, s), size), mhi));
                }
            } else {
                let width = sat_sub(span, demand);
                let space = div_toward_zero(width, shares);
                if !hasl {
                    self.set_offset(i, d, sat_add(x, mlo));
                    self.set_extent(i, d, sat_sub(sat_sub(s, mlo), mhi));
                } else {
                    let w = sat_sub(sat_sub(space, mlo), mhi);
                    self.set_extent(i, d, w);
                    self.set_offset(i, d, sat_sub(sat_sub(sat_add(x, s), w), mhi));
                }
            }
        } else {
            let h = halve(sat_sub(s, size));
            self.set_offset(i, d, sat_add(sat_add(x, h), mlo));
        }
        proof {
            reveal(rule_in);
            assert(self.records() =~= pre.records().update(i as int, self.rec(i as int)));
            assert(same_links(self.rec(i as int), pre.rec(i as int)));
            assert forall|m: int| 0 <= m < self.count() implies same_links(#[trigger] self.rec(m), old(self).rec(m)) by {
                if m != i {
                    assert(self.rec(m) == old(self).rec(m));
                }
            }
        }
    }

    /// Places child `i` of `j` on axis `d` (after its neighbours), unless it
    /// was placed already: against its low neighbour (or the parent's low
    /// side), against its high one, centred between them, or, for a fill
    /// item without explicit size, stretched by an equal share of the
    /// parent's slack among the `dyncount` dynamic items placed so far.
    /// Unless `i` anchors to itself, when the call ends `i` sits where the
    /// placement rule puts it against its parent and its neighbours as they
    /// are then, with the final `dyncount` as its share count.
    #[verifier::spinoff_prover]
    #[verifier::rlimit(80)]
    fn layout_child_item(&mut self, j: usize, i: usize, dyncount: &mut i32, d: usize)
        requires
            old(self).wf(),
            old(self).links_siblings(),
            j < i < old(self).count(),
            old(self).parent_of(i as int) == j,
            d < 2,
            0 <= *old(dyncount),
            *old(dyncount) + unplaced(old(self).records(), d as int) <= old(self).count(),
        ensures
            final(self).placed_from(old(self), d as int),
            final(self).rec(i as int).placed@[d as int],
            *old(dyncount) <= *final(dyncount),
            *final(dyncount) + unplaced(final(self).records(), d as int) <= *old(dyncount) + unplaced(
                old(self).records(),
                d as int,
            ),
            forall|m: int|
                0 <= m < old(self).count() && (old(self).parent_of(m) != j || old(self).rec(m).placed@[d as int]
                    || !final(self).rec(m).placed@[d as int]) ==> #[trigger] final(self).rec(m) == old(self).rec(m),
            forall|m: int|
                0 <= m < old(self).count() && !old(self).rec(m).placed@[d as int] && final(self).rec(
                    m,
                ).placed@[d as int] && !linked(old(self).anchors(), m, d as int) ==> settled(
                    old(self).anchors(),
                    m,
                    d as int,
                    old(self).rec(j as int).rect.size(d as int) as int,
                    #[trigger] final(self).rec(m).rect,
                ),
            old(self).rec(i as int).placed@[d as int] ==> final(self).records() == old(self).records()
                && *final(dyncount) == *old(dyncount),
            !old(self).rec(i as int).placed@[d as int] && old(self).neighbours_placed(i as int, d as int)
                ==> forall|m: int| 0 <= m < old(self).count() && m != i ==> #[trigger] final(self).rec(m) == old(self).rec(m),
            !old(self).rec(i as int).placed@[d as int] && *old(dyncount) == 0 && old(self).neighbours_placed(
                i as int,
                d as int,
            ) ==> final(self).placed_by_rule(i as int, d as int),
            !old(self).rec(i as int).placed@[d as int] && !old(self).self_linked(i as int, d as int)
                ==> final(self).placed_with_shares(i as int, d as int, *final(dyncount) as int),
        decreases unplaced(old(self).records(), d as int),
    {
        let ghost pre = *self;
        proof {
            assert(pre.rec(i as int).placed@.len() == 2);
            assert forall|m: int| 0 <= m < pre.count() implies #[trigger] placed_as(pre.rec(m), self.rec(m), d as int, pre.dynamic_child(m, d as int)) by {
                assert(pre.rec(m).placed@.len() == 2);
                assert(pre.rec(m).rect.with_pos(d as int, pre.rec(m).rect.pos(d as int)).with_size(d as int, pre.rec(m).rect.size(d as int)) == pre.rec(m).rect);
            }
            assert forall|m: int| 0 <= m < self.count() implies same_links(#[trigger] self.rec(m), pre.rec(m)) by {}
        }
        if self.items[i].placed[d] {
            return;
        }
        self.mark_placed(i, d);
        let ghost nb_ready = pre.neighbours_placed(i as int, d as int);
        let ghost ready = nb_ready && *old(dyncount) == 0;
        proof {
            lemma_unplaced_mark(pre.records(), self.records(), d as int, i as int);
        }
        let fixed_size = self.items[i].size.get(d) > 0;
        if !fixed_size {
            *dyncount = *dyncount + 1;
        }
        let ghost dyn_here = *dyncount;
        let ghost mut lrect = crate::geom::Rect { x: 0, y: 0, w: 0, h: 0 };
        let ghost mut rrect = crate::geom::Rect { x: 0, y: 0, w: 0, h: 0 };
        let mut x: i32 = 0;
        let mut s: i32 = self.items[j].rect.get_size(d);
        let flags = self.items[i].layout_flags;
        let lo = (flags >> (d as u32)) & 1 != 0;
        let hi = (flags >> (d as u32)) & 4 != 0;
        let l = self.items[i].relto[d];
        let r = self.items[i].relto[d + 2];
        let hasl = lo && l.itemid != -1;
        let hasr = hi && r.itemid != -1;
        proof {
            pre.lemma_wf_tree();
            assert(node_ok(pre.records(), pre.kid_lists(), i as int));
            assert(node_ok(pre.records(), pre.kid_lists(), j as int));
        }
        if hasl {
            let li = l.itemid as usize;
            proof {
                assert(pre.rec(i as int).relto@[d as int] == l);
                assert(pre.parent_of(li as int) == j);
                assert(node_ok(pre.records(), pre.kid_lists(), li as int));
                self.lemma_frame_siblings(&pre);
            }
            let ghost s0 = *self;
            self.layout_child_item(j, li, dyncount, d);
            proof {
                assert(s0.rec(j as int) == pre.rec(j as int));
                assert forall|m: int| 0 <= m < pre.count() && (pre.parent_of(m) != j || pre.rec(m).placed@[d as int]
                    || !self.rec(m).placed@[d as int]) && m != i implies #[trigger] self.rec(m) == pre.rec(m) by {
                    assert(s0.rec(m) == pre.rec(m));
                    assert(same_links(s0.rec(m), pre.rec(m)));
                }
                assert forall|m: int| 0 <= m < pre.count() && !pre.rec(m).placed@[d as int] && self.rec(
                    m,
                ).placed@[d as int] && !linked(pre.anchors(), m, d as int) && m != i implies settled(
                    pre.anchors(),
                    m,
                    d as int,
                    pre.rec(j as int).rect.size(d as int) as int,
                    #[trigger] self.rec(m).rect,
                ) by {
                    assert(s0.rec(m) == pre.rec(m));
                    assert(same_links(s0.rec(m), pre.rec(m)));
                }
                assert forall|m: int| 0 <= m < pre.count() && pre.parent_of(m) == -1 implies #[trigger] self.rec(m) == pre.rec(m) by {
                    assert(same_links(s0.rec(m), pre.rec(m)));
                    assert(s0.rec(m) == pre.rec(m));
                }
                assert(placed_as(s0.rec(i as int), self.rec(i as int), d as int, s0.dynamic_child(i as int, d as int)));
                assert forall|m: int| 0 <= m < pre.count() implies #[trigger] placed_as(pre.rec(m), self.rec(m), d as int, pre.dynamic_child(m, d as int)) by {
                    assert(placed_as(pre.rec(m), s0.rec(m), d as int, pre.dynamic_child(m, d as int)));
                    assert(placed_as(s0.rec(m), self.rec(m), d as int, s0.dynamic_child(m, d as int)));
                }
            }
            proof {
                if nb_ready {
                    assert(pre.rec(li as int).placed@[d as int]);
                    assert(s0.rec(li as int) == pre.rec(li as int));
                    assert(self.records() == s0.records());
                }
            }
            proof {
                lrect = self.rec(li as int).rect;
            }
            let lpos = self.items[li].rect.get_pos(d);
            let lsize = self.items[li].rect.get_size(d);
            let lm = self.items[li].margins[d + 2];
            x = sat_add(sat_add(lpos, lsize), lm);
            s = sat_sub(s, x);
        }
        if hasr {
            let ri = r.itemid as usize;
            proof {
                assert(pre.rec(i as int).relto@[d as int + 2] == r);
                assert(pre.parent_of(ri as int) == j);
                assert(node_ok(pre.records(), pre.kid_lists(), ri as int));
                self.lemma_frame_siblings(&pre);
            }
            let ghost s0 = *self;
            self.layout_child_item(j, ri, dyncount, d);
            proof {
                assert(s0.rec(j as int) == pre.rec(j as int));
                assert forall|m: int| 0 <= m < pre.count() && (pre.parent_of(m) != j || pre.rec(m).placed@[d as int]
                    || !self.rec(m).placed@[d as int]) && m != i implies #[trigger] self.rec(m) == pre.rec(m) by {
                    assert(same_links(s0.rec(m), pre.rec(m)));
                    if pre.rec(m).placed@[d as int] || pre.parent_of(m) != j {
                        assert(s0.rec(m) == pre.rec(m));
                    } else {
                        assert(!s0.rec(m).placed@[d as int]);
                        assert(s0.rec(m) == pre.rec(m));
                    }
                }
                assert forall|m: int| 0 <= m < pre.count() && !pre.rec(m).placed@[d as int] && self.rec(
                    m,
                ).placed@[d as int] && !linked(pre.anchors(), m, d as int) && m != i implies settled(
                    pre.anchors(),
                    m,
                    d as int,
                    pre.rec(j as int).rect.size(d as int) as int,
                    #[trigger] self.rec(m).rect,
                ) by {
                    if s0.rec(m).placed@[d as int] {
                        assert(self.rec(m) == s0.rec(m));
                        assert(settled(pre.anchors(), m, d as int, pre.rec(j as int).rect.size(d as int) as int, s0.rec(m).rect));
                    } else {
                        assert(s0.rec(m) == pre.rec(m));
                        assert(same_links(s0.rec(m), pre.rec(m)));
                    }
                }
                assert forall|m: int| 0 <= m < pre.count() && pre.parent_of(m) == -1 implies #[trigger] self.rec(m) == pre.rec(m) by {
                    assert(same_links(s0.rec(m), pre.rec(m)));
                    assert(s0.rec(m) == pre.rec(m));
                }
                assert(placed_as(s0.rec(i as int), self.rec(i as int), d as int, s0.dynamic_child(i as int, d as int)));
                assert forall|m: int| 0 <= m < pre.count() implies #[trigger] placed_as(pre.rec(m), self.rec(m), d as int, pre.dynamic_child(m, d as int)) by {
                    assert(placed_as(pre.rec(m), s0.rec(m), d as int, pre.dynamic_child(m, d as int)));
                    assert(placed_as(s0.rec(m), self.rec(m), d as int, s0.dynamic_child(m, d as int)));
                }
            }
            proof {
                if nb_ready {
                    assert(pre.rec(ri as int).placed@[d as int]);
                    assert(s0.rec(ri as int) == pre.rec(ri as int));
                    assert(self.records() == s0.records());
                }
            }
            proof {
                rrect = self.rec(ri as int).rect;
                if hasl {
                    let li = l.itemid as int;
                    assert(s0.rec(li).placed@[d as int]);
                    assert(self.rec(li) == s0.rec(li));
                }
            }
            let rpos = self.items[ri].rect.get_pos(d);
            let rm = self.items[ri].margins[d];
            s = sat_sub(sat_sub(rpos, rm), x);
        }
        let ghost s2 = *self;
        proof {
            assert(same_links(s2.rec(i as int), pre.rec(i as int)));
            if !hasl && !hasr {
                assert(!linked(pre.anchors(), i as int, d as int));
            }
            if !linked(pre.anchors(), i as int, d as int) {
                assert(!hasl && !hasr);
                assert(x == 0 && s == pre.rec(j as int).rect.size(d as int));
            }
            assert(s2.rec(j as int) == pre.rec(j as int));
            if !fixed_size {
                assert(*dyncount >= dyn_here >= 1);
            }
        }
        self.place_within(j, i, d, x, s, hasl, *dyncount);
        proof {
            assert(self.rec(i as int).placed == s2.rec(i as int).placed);
            assert forall|m: int| 0 <= m < pre.count() implies #[trigger] placed_as(pre.rec(m), self.rec(m), d as int, pre.dynamic_child(m, d as int)) by {
                assert(placed_as(pre.rec(m), s2.rec(m), d as int, pre.dynamic_child(m, d as int)));
                if m == i {
                    assert(pre.parent_of(i as int) != -1);
                }
            }
            assert forall|m: int| 0 <= m < pre.count() && pre.parent_of(m) == -1 implies #[trigger] self.rec(m) == pre.rec(m) by {
                assert(s2.rec(m) == pre.rec(m));
            }
            assert(self.records() =~= s2.records().update(i as int, self.rec(i as int)));
            assert(self.rec(i as int).placed@[d as int]);
            lemma_unplaced_mono(s2.records(), self.records(), d as int);
            lemma_unplaced_mono(self.records(), s2.records(), d as int);
            if !pre.self_linked(i as int, d as int) {
                let a = pre.anchors();
                assert(self.anchors() == a);
                assert(self.rec(j as int) == pre.rec(j as int));
                if hasl {
                    assert(l.itemid != i);
                    assert(self.rec(l.itemid as int) == s2.rec(l.itemid as int));
                    assert(self.neighbour_rect(i as int, d as int, false) == lrect);
                }
                if hasr {
                    assert(r.itemid != i);
                    assert(self.rec(r.itemid as int) == s2.rec(r.itemid as int));
                    assert(self.neighbour_rect(i as int, d as int, true) == rrect);
                }
                assert(self.placed_with_shares(i as int, d as int, *dyncount as int)) by {
                    reveal(placed_rule_shared);
                }
            }
            if !linked(pre.anchors(), i as int, d as int) {
                assert(settled(
                    pre.anchors(),
                    i as int,
                    d as int,
                    pre.rec(j as int).rect.size(d as int) as int,
                    self.rec(i as int).rect,
                )) by {
                    reveal(rule_in);
                }
            }
            if ready {
                let a = pre.anchors();
                let li = link(a, i as int, d as int, false);
                let ri = link(a, i as int, d as int, true);
                assert(*dyncount == (if fixed_size { 0i32 } else { 1i32 }));
                assert(hasl == (anchored_low(a[i as int].flags, d as int) && li != -1));
                assert(hasr == (anchored_high(a[i as int].flags, d as int) && ri != -1));
                if hasl {
                    assert(self.rec(li) == s2.rec(li));
                    assert(x == past(a, li, d as int, self.rec(li).rect));
                }
                if hasr {
                    assert(self.rec(ri) == s2.rec(ri));
                }
                assert(self.anchors() == a);
                assert(self.rec(j as int) == pre.rec(j as int));
                assert(self.placed_by_rule(i as int, d as int)) by {
                    reveal(placed_rule);
                    reveal(rule_in);
                }
            }
            if nb_ready {
                assert forall|m: int| 0 <= m < pre.count() && m != i implies #[trigger] self.rec(m) == pre.rec(m) by {
                    assert(self.rec(m) == s2.rec(m));
                }
            }
        }
    }
}

impl<Wgt, Hnd> Context<Wgt, Hnd> {
    /// What the position pass may do composes.
    pub proof fn lemma_placed_trans(a: &Self, b: &Self, c: &Self, d: int)
        requires
            b.placed_from(a, d),
            c.placed_from(b, d),
        ensures
            c.placed_from(a, d),
    {
        assert forall|m: int| 0 <= m < c.count() implies #[trigger] placed_as(a.rec(m), c.rec(m), d, a.dynamic_child(m, d)) by {
            assert(placed_as(a.rec(m), b.rec(m), d, a.dynamic_child(m, d)));
            assert(placed_as(b.rec(m), c.rec(m), d, b.dynamic_child(m, d)));
            assert(same_links(b.rec(m), a.rec(m)));
        }
        assert forall|m: int| 0 <= m < c.count() implies same_links(#[trigger] c.rec(m), a.rec(m)) by {
            assert(same_links(c.rec(m), b.rec(m)));
            assert(same_links(b.rec(m), a.rec(m)));
        }
        assert forall|m: int| 0 <= m < c.count() && a.parent_of(m) == -1 implies #[trigger] c.rec(m) == a.rec(m) by {
            assert(same_links(b.rec(m), a.rec(m)));
            assert(b.rec(m) == a.rec(m));
        }
    }

    /// Nothing done is within what the position pass may do.
    pub proof fn lemma_placed_refl(&self, d: int)
        requires
            self.wf(),
            0 <= d < 2,
        ensures
            self.placed_from(self, d),
    {
        assert forall|m: int| 0 <= m < self.count() implies #[trigger] placed_as(self.rec(m), self.rec(m), d, self.dynamic_child(m, d)) by {
            assert(self.rec(m).placed@.len() == 2);
            assert(self.rec(m).rect.with_pos(d, self.rec(m).rect.pos(d)).with_size(d, self.rec(m).rect.size(d)) == self.rec(m).rect);
        }
        assert forall|m: int| 0 <= m < self.count() implies same_links(#[trigger] self.rec(m), self.rec(m)) by {}
    }

    /// Places every child of `j` on axis `d`, in sibling order, each with a
    /// fresh count of dynamic items.
    fn layout_item_dim(&mut self, j: usize, d: usize)
        requires
            old(self).wf(),
            old(self).links_siblings(),
            j < old(self).count(),
            d < 2,
        ensures
            final(self).placed_from(old(self), d as int),
            forall|m: int|
                0 <= m < old(self).count() && (old(self).parent_of(m) != j || old(self).rec(m).placed@[d as int])
                    ==> #[trigger] final(self).rec(m) == old(self).rec(m),
            forall|m: int|
                0 <= m < old(self).count() && old(self).parent_of(m) == j ==> (#[trigger] final(self).rec(
                    m,
                )).placed@[d as int],
            forall|m: int|
                0 <= m < old(self).count() && old(self).parent_of(m) == j && !old(self).rec(m).placed@[d as int]
                    && !linked(old(self).anchors(), m, d as int) ==> settled(
                    old(self).anchors(),
                    m,
                    d as int,
                    old(self).rec(j as int).rect.size(d as int) as int,
                    #[trigger] final(self).rec(m).rect,
                ),
            old(self).family_links_back(j as int, d as int) && (forall|m: int|
                0 <= m < old(self).count() && old(self).parent_of(m) == j ==> !(#[trigger] old(self).rec(
                    m,
                )).placed@[d as int]) ==> forall|m: int|
                0 <= m < old(self).count() && old(self).parent_of(m) == j ==> #[trigger] final(self).placed_by_rule(
                    m,
                    d as int,
                ),
    {
        let ghost pre = *self;
        let ghost kids = self.kid_lists();
        let ghost ks = kids[j as int];
        let ghost back = pre.family_links_back(j as int, d as int) && (forall|m: int|
            0 <= m < pre.count() && pre.parent_of(m) == j ==> !(#[trigger] pre.rec(m)).placed@[d as int]);
        proof {
            pre.lemma_wf_tree();
            assert(node_ok(pre.records(), kids, j as int));
            self.lemma_placed_refl(d as int);
            if back {
                assert forall|t: int| 0 <= t < ks.len() implies !(#[trigger] self.rec(ks[t])).placed@[d as int] by {
                    assert(pre.parent_of(ks[t]) == j);
                }
            }
        }
        let mut kid = self.items[j].firstkid;
        let mut k: usize = 0;
        while kid.itemid != -1
            invariant
                self.placed_from(&pre, d as int),
                pre.wf(),
                pre.links_siblings(),
                kids == pre.kid_lists(),
                j < pre.count(),
                d < 2,
                ks == kids[j as int],
                0 <= k <= ks.len(),
                kid.itemid == (if k < ks.len() { ks[k as int] } else { -1 }),
                forall|m: int|
                    0 <= m < pre.count() && (pre.parent_of(m) != j || pre.rec(m).placed@[d as int]
                        || !self.rec(m).placed@[d as int]) ==> #[trigger] self.rec(m) == pre.rec(m),
                forall|t: int| 0 <= t < k ==> (#[trigger] self.rec(ks[t])).placed@[d as int],
                forall|m: int|
                    0 <= m < pre.count() && !pre.rec(m).placed@[d as int] && self.rec(m).placed@[d as int]
                        && !linked(pre.anchors(), m, d as int) ==> settled(
                        pre.anchors(),
                        m,
                        d as int,
                        pre.rec(j as int).rect.size(d as int) as int,
                        #[trigger] self.rec(m).rect,
                    ),
                back ==> pre.family_links_back(j as int, d as int),
                back ==> forall|t: int| k <= t < ks.len() ==> !(#[trigger] self.rec(ks[t])).placed@[d as int],
                back ==> forall|t: int| 0 <= t < k ==> #[trigger] self.placed_by_rule(ks[t], d as int),
            decreases ks.len() - k,
        {
            let c = kid.itemid as usize;
            proof {
                pre.lemma_wf_tree();
                assert(node_ok(pre.records(), kids, j as int));
                assert(j < ks[k as int] < pre.count());
                assert(node_ok(pre.records(), kids, c as int));
                self.lemma_frame_siblings(&pre);
                assert(same_links(self.rec(c as int), pre.rec(c as int)));
                lemma_unplaced_le(self.records(), d as int);
            }
            let ghost s0 = *self;
            proof {
                if back {
                    assert(!s0.rec(c as int).placed@[d as int]);
                    assert(pre.links_back(c as int, d as int));
                    let a = pre.anchors();
                    assert(s0.anchors() == a);
                    assert forall|high: bool| anchored(a, c as int, d as int, high) && link(a, c as int, d as int, high) != -1
                        implies s0.rec(link(a, c as int, d as int, high)).placed@[d as int] by {
                        let n = link(a, c as int, d as int, high);
                        let side = if high { d as int + 2 } else { d as int };
                        assert(pre.rec(c as int).relto@[side].itemid == n);
                        assert(node_ok(pre.records(), kids, c as int));
                        assert(pre.parent_of(n) == j);
                        assert(node_ok(pre.records(), kids, n));
                        let t = pre.rec(n).kidid as int;
                        assert(ks[t] == n);
                        assert(t < k);
                    }
                    assert(s0.neighbours_placed(c as int, d as int));
                }
            }
            let mut dyncount: i32 = 0;
            self.layout_child_item(j, c, &mut dyncount, d);
            proof {
                Self::lemma_placed_trans(&pre, &s0, self, d as int);
                if back {
                    assert forall|t: int| k + 1 <= t < ks.len() implies !(#[trigger] self.rec(ks[t])).placed@[d as int] by {
                        assert(node_ok(pre.records(), kids, j as int));
                        assert(ks[t] != c);
                        assert(self.rec(ks[t]) == s0.rec(ks[t]));
                    }
                    assert forall|t: int| 0 <= t < k + 1 implies #[trigger] self.placed_by_rule(ks[t], d as int) by {
                        if t < k {
                            let m = ks[t];
                            let a = pre.anchors();
                            assert(s0.placed_by_rule(m, d as int));
                            assert(node_ok(pre.records(), kids, j as int));
                            assert(node_ok(pre.records(), kids, m));
                            assert(s0.rec(m).placed@[d as int]);
                            assert(self.rec(m) == s0.rec(m));
                            assert(self.rec(j as int) == s0.rec(j as int));
                            assert(pre.links_back(m, d as int));
                            assert forall|high: bool| anchored(a, m, d as int, high) && link(a, m, d as int, high) != -1
                                implies self.rec(link(a, m, d as int, high)) == s0.rec(link(a, m, d as int, high)) by {
                                let n = link(a, m, d as int, high);
                                let side = if high { d as int + 2 } else { d as int };
                                assert(pre.rec(m).relto@[side].itemid == n);
                                assert(pre.parent_of(n) == j);
                                assert(node_ok(pre.records(), kids, n));
                                let tn = pre.rec(n).kidid as int;
                                assert(ks[tn] == n);
                                assert(s0.rec(n).placed@[d as int]);
                            }
                            assert(self.neighbour_rect(m, d as int, false) == s0.neighbour_rect(m, d as int, false));
                            assert(self.neighbour_rect(m, d as int, true) == s0.neighbour_rect(m, d as int, true));
                            assert(self.parent_of(m) == s0.parent_of(m));
                        }
                    }
                }
                assert(same_links(self.rec(c as int), pre.rec(c as int)));
                assert(s0.rec(j as int) == pre.rec(j as int));
                assert forall|m: int|
                    0 <= m < pre.count() && (pre.parent_of(m) != j || pre.rec(m).placed@[d as int]
                        || !self.rec(m).placed@[d as int]) implies #[trigger] self.rec(m) == pre.rec(m) by {
                    assert(same_links(s0.rec(m), pre.rec(m)));
                    if pre.parent_of(m) != j || pre.rec(m).placed@[d as int] {
                        assert(s0.rec(m) == pre.rec(m));
                    } else {
                        assert(!s0.rec(m).placed@[d as int] || s0.rec(m) == pre.rec(m));
                    }
                }
                assert forall|t: int| 0 <= t < k + 1 implies (#[trigger] self.rec(ks[t])).placed@[d as int] by {
                    if t < k {
                        assert(s0.rec(ks[t]).placed@[d as int]);
                    }
                }
                assert forall|m: int|
                    0 <= m < pre.count() && !pre.rec(m).placed@[d as int] && self.rec(m).placed@[d as int]
                        && !linked(pre.anchors(), m, d as int) implies settled(
                        pre.anchors(),
                        m,
                        d as int,
                        pre.rec(j as int).rect.size(d as int) as int,
                        #[trigger] self.rec(m).rect,
                    ) by {
                    assert(same_links(s0.rec(m), pre.rec(m)));
                    if s0.rec(m).placed@[d as int] {
                        assert(self.rec(m) == s0.rec(m));
                        assert(settled(pre.anchors(), m, d as int, pre.rec(j as int).rect.size(d as int) as int, s0.rec(m).rect));
                    } else {
                        assert(s0.rec(m) == pre.rec(m));
                    }
                }
            }
            kid = self.items[c].nextitem;
            k = k + 1;
        }
        proof {
            pre.lemma_wf_tree();
            assert forall|m: int| 0 <= m < pre.count() && pre.parent_of(m) == j implies (#[trigger] self.rec(
                m,
            )).placed@[d as int] by {
                assert(node_ok(pre.records(), kids, m));
                assert(ks[pre.rec(m).kidid as int] == m);
            }
            if back {
                assert forall|m: int| 0 <= m < pre.count() && pre.parent_of(m) == j implies #[trigger] self.placed_by_rule(m, d as int) by {
                    assert(node_ok(pre.records(), kids, m));
                    assert(ks[pre.rec(m).kidid as int] == m);
                }
            }
        }
    }

    /// Whether an item sits where the placement rule puts it depends on its
    /// own record, its parent's and its neighbours' alone.
    pub proof fn lemma_rule_frame(&self, other: &Self, m: int, d: int)
        requires
            self.anchors() == other.anchors(),
            self.rec(m) == other.rec(m),
            self.rec(self.parent_of(m)) == other.rec(self.parent_of(m)),
            anchored(self.anchors(), m, d, false) && link(self.anchors(), m, d, false) != -1 ==> self.rec(
                link(self.anchors(), m, d, false),
            ) == other.rec(link(self.anchors(), m, d, false)),
            anchored(self.anchors(), m, d, true) && link(self.anchors(), m, d, true) != -1 ==> self.rec(
                link(self.anchors(), m, d, true),
            ) == other.rec(link(self.anchors(), m, d, true)),
        ensures
            self.placed_by_rule(m, d) == other.placed_by_rule(m, d),
    {
        assert(self.neighbour_rect(m, d, false) == other.neighbour_rect(m, d, false));
        assert(self.neighbour_rect(m, d, true) == other.neighbour_rect(m, d, true));
    }

    /// The neighbours an item anchors to are its siblings.
    pub proof fn lemma_neighbour_sibling(&self, m: int, d: int, high: bool)
        requires
            self.wf(),
            self.links_siblings(),
            0 <= m < self.count(),
            0 <= d < 2,
            anchored(self.anchors(), m, d, high) && link(self.anchors(), m, d, high) != -1,
        ensures
            0 <= link(self.anchors(), m, d, high) < self.count(),
            self.parent_of(link(self.anchors(), m, d, high)) == self.parent_of(m),
    {
        self.lemma_wf_tree();
        assert(node_ok(self.records(), self.kid_lists(), m));
        let side = if high { d + 2 } else { d };
        assert(self.rec(m).relto@[side].itemid == link(self.anchors(), m, d, high));
    }

    /// Whether an item sits where the placement rule puts it on axis `d`
    /// depends only on what lies along `d`.
    pub proof fn lemma_rule_axis(&self, other: &Self, m: int, d: int)
        requires
            self.anchors() == other.anchors(),
            self.parent_of(m) == other.parent_of(m),
            self.rec(m).rect.pos(d) == other.rec(m).rect.pos(d),
            self.rec(m).rect.size(d) == other.rec(m).rect.size(d),
            self.rec(self.parent_of(m)).rect.size(d) == other.rec(self.parent_of(m)).rect.size(d),
            self.rec(self.parent_of(m)).computed_size.at(d) == other.rec(self.parent_of(m)).computed_size.at(d),
            self.neighbour_rect(m, d, false).pos(d) == other.neighbour_rect(m, d, false).pos(d),
            self.neighbour_rect(m, d, false).size(d) == other.neighbour_rect(m, d, false).size(d),
            self.neighbour_rect(m, d, true).pos(d) == other.neighbour_rect(m, d, true).pos(d),
        ensures
            self.placed_by_rule(m, d) == other.placed_by_rule(m, d),
    {
        reveal(placed_rule);
        reveal(rule_in);
    }

    /// Whether siblings anchor only backwards depends on the links alone.
    pub proof fn lemma_links_back_frame(&self, other: &Self, j: int, d: int)
        requires
            other.wf(),
            0 <= d < 2,
            self.count() == other.count(),
            self.anchors() == other.anchors(),
            forall|x: int| 0 <= x < self.count() ==> same_links(#[trigger] self.rec(x), other.rec(x)),
        ensures
            self.family_links_back(j, d) == other.family_links_back(j, d),
    {
        let a = self.anchors();
        assert forall|m: int| 0 <= m < self.count() implies #[trigger] self.links_back(m, d) == other.links_back(m, d)
            && self.parent_of(m) == other.parent_of(m) by {
            assert(same_links(self.rec(m), other.rec(m)));
            other.lemma_wf_tree();
            assert(node_ok(other.records(), other.kid_lists(), m));
            assert(other.rec(m).relto@[d] == other.anchors()[m].relto[d]);
            assert(other.rec(m).relto@[d + 2] == other.anchors()[m].relto[d + 2]);
            if anchored(a, m, d, false) && link(a, m, d, false) != -1 && 0 <= link(a, m, d, false) < self.count() {
                assert(same_links(self.rec(link(a, m, d, false)), other.rec(link(a, m, d, false))));
            }
            if anchored(a, m, d, true) && link(a, m, d, true) != -1 && 0 <= link(a, m, d, true) < self.count() {
                assert(same_links(self.rec(link(a, m, d, true)), other.rec(link(a, m, d, true))));
            }
        }
        if self.family_links_back(j, d) {
            assert forall|m: int| 0 <= m < other.count() && other.parent_of(m) == j implies #[trigger] other.links_back(m, d) by {
                assert(self.links_back(m, d));
            }
        }
        if other.family_links_back(j, d) {
            assert forall|m: int| 0 <= m < self.count() && self.parent_of(m) == j implies #[trigger] self.links_back(m, d) by {
                assert(other.links_back(m, d));
            }
        }
    }

    /// Runs the position pass on axis `d` over the subtree of `j`, parents
    /// before children; the items below `j` must not be placed yet.
    fn layout_item(&mut self, j: usize, d: usize)
        requires
            old(self).wf(),
            old(self).links_siblings(),
            j < old(self).count(),
            d < 2,
            forall|m: int|
                0 <= m < old(self).count() && m != j && #[trigger] old(self).is_desc(m, j as int)
                    ==> !old(self).rec(m).placed@[d as int],
        ensures
            final(self).placed_from(old(self), d as int),
            forall|m: int|
                0 <= m < old(self).count() && (m == j || !old(self).is_desc(m, j as int))
                    ==> #[trigger] final(self).rec(m) == old(self).rec(m),
            forall|m: int|
                0 <= m < old(self).count() && m != j && old(self).is_desc(m, j as int) && !linked(
                    old(self).anchors(),
                    m,
                    d as int,
                ) ==> settled(
                    old(self).anchors(),
                    m,
                    d as int,
                    final(self).rec(old(self).parent_of(m)).rect.size(d as int) as int,
                    #[trigger] final(self).rec(m).rect,
                ),
            forall|m: int|
                0 <= m < old(self).count() && m != j && old(self).is_desc(m, j as int) && old(self).family_links_back(
                    old(self).parent_of(m),
                    d as int,
                ) ==> #[trigger] final(self).placed_by_rule(m, d as int),
        decreases old(self).count() - j,
    {
        let ghost pre = *self;
        let ghost kids = self.kid_lists();
        let ghost ks = kids[j as int];
        proof {
            pre.lemma_wf_tree();
            assert(node_ok(pre.records(), kids, j as int));
            assert forall|m: int| 0 <= m < pre.count() && pre.parent_of(m) == j implies pre.is_desc(m, j as int)
                && m != j by {
                assert(node_ok(pre.records(), kids, m));
                assert(pre.is_desc(j as int, j as int));
            }
        }
        proof {
            if pre.family_links_back(j as int, d as int) {
                assert forall|m: int| 0 <= m < pre.count() && pre.parent_of(m) == j implies !(#[trigger] pre.rec(m)).placed@[d as int] by {
                    assert(pre.is_desc(m, j as int) && m != j);
                }
            }
        }
        self.layout_item_dim(j, d);
        let ghost s1 = *self;
        proof {
            assert(same_links(self.rec(j as int), pre.rec(j as int)));
            assert forall|m: int| 0 <= m < pre.count() implies #[trigger] s1.is_desc(m, j as int) == pre.is_desc(m, j as int) by {
                s1.lemma_desc_frame(&pre, m, j as int);
            }
        }
        let mut kid = self.items[j].firstkid;
        let mut k: usize = 0;
        while kid.itemid != -1
            invariant
                pre == *old(self),
                self.placed_from(&pre, d as int),
                s1.placed_from(&pre, d as int),
                forall|m: int|
                    0 <= m < pre.count() && m != j && #[trigger] pre.is_desc(m, j as int) ==> !pre.rec(
                        m,
                    ).placed@[d as int],
                pre.wf(),
                pre.links_siblings(),
                kids == pre.kid_lists(),
                j < pre.count(),
                d < 2,
                ks == kids[j as int],
                0 <= k <= ks.len(),
                kid.itemid == (if k < ks.len() { ks[k as int] } else { -1 }),
                forall|m: int|
                    0 <= m < pre.count() && (pre.parent_of(m) != j || pre.rec(m).placed@[d as int])
                        ==> #[trigger] s1.rec(m) == pre.rec(m),
                forall|m: int|
                    0 <= m < pre.count() && pre.parent_of(m) == j && !linked(pre.anchors(), m, d as int) ==> settled(
                        pre.anchors(),
                        m,
                        d as int,
                        pre.rec(j as int).rect.size(d as int) as int,
                        #[trigger] s1.rec(m).rect,
                    ),
                forall|m: int| 0 <= m < pre.count() && (m == j || !pre.is_desc(m, j as int)) ==> #[trigger] self.rec(m) == pre.rec(m),
                forall|m: int| 0 <= m < pre.count() && pre.parent_of(m) == j ==> #[trigger] self.rec(m) == s1.rec(m),
                forall|m: int|
                    0 <= m < pre.count() && (forall|t: int| 0 <= t < k ==> !(#[trigger] pre.is_desc(m, ks[t]))) ==> #[trigger] self.rec(m)
                        == s1.rec(m),
                forall|t: int, m: int|
                    0 <= t < k && 0 <= m < pre.count() && m != ks[t] && #[trigger] pre.is_desc(m, ks[t]) && !linked(
                        pre.anchors(),
                        m,
                        d as int,
                    ) ==> settled(
                        pre.anchors(),
                        m,
                        d as int,
                        self.rec(pre.parent_of(m)).rect.size(d as int) as int,
                        self.rec(m).rect,
                    ),
                pre.family_links_back(j as int, d as int) ==> forall|m: int|
                    0 <= m < pre.count() && pre.parent_of(m) == j ==> #[trigger] s1.placed_by_rule(m, d as int),
                forall|t: int, m: int|
                    0 <= t < k && 0 <= m < pre.count() && m != ks[t] && #[trigger] pre.is_desc(m, ks[t])
                        && pre.family_links_back(pre.parent_of(m), d as int) ==> self.placed_by_rule(m, d as int),
            decreases ks.len() - k,
        {
            let c = kid.itemid as usize;
            let ghost s0 = *self;
            proof {
                pre.lemma_wf_tree();
                assert(node_ok(pre.records(), kids, j as int));
                assert(j < ks[k as int] < pre.count());
                assert(node_ok(pre.records(), kids, c as int));
                self.lemma_frame_siblings(&pre);
                assert(pre.is_desc(j as int, j as int));
                assert(pre.parent_of(c as int) == j);
                assert(pre.is_desc(c as int, j as int));
                assert forall|m: int| 0 <= m < s0.count() && m != c && #[trigger] s0.is_desc(m, c as int)
                    implies !s0.rec(m).placed@[d as int] by {
                    s0.lemma_desc_frame(&pre, m, c as int);
                    assert forall|t: int| 0 <= t < k implies !(#[trigger] pre.is_desc(m, ks[t])) by {
                        assert(node_ok(pre.records(), kids, ks[t]));
                        pre.lemma_siblings_disjoint(m, ks[t], c as int);
                    }
                    assert(s0.rec(m) == s1.rec(m));
                    assert(pre.is_desc(c as int, j as int));
                    pre.lemma_desc_trans(m, c as int, j as int);
                    assert(pre.parent_of(m) != j) by {
                        if pre.parent_of(m) == j {
                            pre.lemma_desc_index(pre.parent_of(m), c as int);
                        }
                    }
                    assert(s1.rec(m) == pre.rec(m));
                    pre.lemma_desc_index(m, c as int);
                    assert(!pre.rec(m).placed@[d as int]);
                }
            }
            self.layout_item(c, d);
            proof {
                Self::lemma_placed_trans(&pre, &s0, self, d as int);
                assert(same_links(self.rec(c as int), pre.rec(c as int)));
                assert forall|m: int| 0 <= m < pre.count() implies #[trigger] s0.is_desc(m, c as int) == pre.is_desc(m, c as int) by {
                    s0.lemma_desc_frame(&pre, m, c as int);
                }
                assert forall|m: int| 0 <= m < pre.count() && (m == j || !pre.is_desc(m, j as int)) implies #[trigger] self.rec(m) == pre.rec(m) by {
                    if pre.is_desc(m, c as int) {
                        assert(pre.is_desc(c as int, j as int));
                        pre.lemma_desc_trans(m, c as int, j as int);
                        pre.lemma_desc_index(m, c as int);
                    }
                }
                assert forall|m: int| 0 <= m < pre.count() && pre.parent_of(m) == j implies #[trigger] self.rec(m) == s1.rec(m) by {
                    assert(node_ok(pre.records(), kids, m));
                    if m != c && pre.is_desc(m, c as int) {
                        pre.lemma_siblings_disjoint(m, m, c as int);
                        assert(pre.is_desc(m, m));
                    }
                }
                assert forall|m: int|
                    0 <= m < pre.count() && (forall|t: int| 0 <= t < k + 1 ==> !(#[trigger] pre.is_desc(m, ks[t]))) implies #[trigger] self.rec(m)
                        == s1.rec(m) by {
                    assert(!pre.is_desc(m, ks[k as int]));
                }
                assert forall|t: int, m: int|
                    0 <= t < k + 1 && 0 <= m < pre.count() && m != ks[t] && #[trigger] pre.is_desc(m, ks[t]) && !linked(
                        pre.anchors(),
                        m,
                        d as int,
                    ) implies settled(
                        pre.anchors(),
                        m,
                        d as int,
                        self.rec(pre.parent_of(m)).rect.size(d as int) as int,
                        self.rec(m).rect,
                    ) by {
                    assert(node_ok(pre.records(), kids, ks[t]));
                    let p = pre.parent_of(m);
                    assert(pre.is_desc(p, ks[t]));
                    if t < k {
                        if pre.is_desc(m, c as int) {
                            pre.lemma_siblings_disjoint(m, ks[t], c as int);
                        }
                        if pre.is_desc(p, c as int) {
                            pre.lemma_siblings_disjoint(p, ks[t], c as int);
                        }
                        assert(self.rec(m) == s0.rec(m));
                        assert(self.rec(p) == s0.rec(p));
                    } else {
                        assert(s0.is_desc(m, c as int));
                        assert(same_links(s0.rec(m), pre.rec(m)));
                    }
                }
                assert forall|t: int, m: int|
                    0 <= t < k + 1 && 0 <= m < pre.count() && m != ks[t] && #[trigger] pre.is_desc(m, ks[t])
                        && pre.family_links_back(pre.parent_of(m), d as int) implies self.placed_by_rule(m, d as int) by {
                    assert(node_ok(pre.records(), kids, ks[t]));
                    let p = pre.parent_of(m);
                    assert(pre.is_desc(p, ks[t]));
                    if t < k {
                        if pre.is_desc(m, c as int) {
                            pre.lemma_siblings_disjoint(m, ks[t], c as int);
                        }
                        if pre.is_desc(p, c as int) {
                            pre.lemma_siblings_disjoint(p, ks[t], c as int);
                        }
                        assert(self.rec(m) == s0.rec(m));
                        assert(self.rec(p) == s0.rec(p));
                        let a = pre.anchors();
                        assert forall|high: bool| anchored(a, m, d as int, high) && link(a, m, d as int, high) != -1
                            implies self.rec(link(a, m, d as int, high)) == s0.rec(link(a, m, d as int, high)) by {
                            let n = link(a, m, d as int, high);
                            pre.lemma_neighbour_sibling(m, d as int, high);
                            pre.lemma_wf_tree();
                            assert(node_ok(pre.records(), kids, n));
                            assert(pre.is_desc(n, ks[t]));
                            if pre.is_desc(n, c as int) {
                                pre.lemma_siblings_disjoint(n, ks[t], c as int);
                            }
                        }
                        assert(same_links(s0.rec(m), pre.rec(m)));
                        self.lemma_rule_frame(&s0, m, d as int);
                    } else {
                        assert(s0.is_desc(m, c as int));
                        assert(same_links(s0.rec(m), pre.rec(m)));
                        s0.lemma_links_back_frame(&pre, p, d as int);
                    }
                }
            }
            kid = self.items[c].nextitem;
            k = k + 1;
        }
        proof {
            assert forall|m: int|
                0 <= m < pre.count() && m != j && pre.is_desc(m, j as int) && !linked(pre.anchors(), m, d as int)
                    implies settled(
                pre.anchors(),
                m,
                d as int,
                self.rec(pre.parent_of(m)).rect.size(d as int) as int,
                #[trigger] self.rec(m).rect,
            ) by {
                if pre.parent_of(m) == j {
                    assert(self.rec(m) == s1.rec(m));
                    assert(self.rec(j as int) == pre.rec(j as int));
                } else {
                    let c = pre.lemma_desc_kid(m, j as int);
                    assert(node_ok(pre.records(), kids, c));
                    let t = pre.rec(c).kidid as int;
                    assert(ks[t] == c);
                    assert(pre.is_desc(m, ks[t]));
                }
            }
            assert forall|m: int|
                0 <= m < pre.count() && m != j && pre.is_desc(m, j as int) && pre.family_links_back(
                    pre.parent_of(m),
                    d as int,
                ) implies #[trigger] self.placed_by_rule(m, d as int) by {
                if pre.parent_of(m) == j {
                    assert(s1.placed_by_rule(m, d as int));
                    assert(self.rec(m) == s1.rec(m));
                    assert(node_ok(pre.records(), kids, j as int));
                    assert(self.rec(j as int) == pre.rec(j as int));
                    assert(s1.rec(j as int) == pre.rec(j as int));
                    let a = pre.anchors();
                    assert forall|high: bool| anchored(a, m, d as int, high) && link(a, m, d as int, high) != -1
                        implies self.rec(link(a, m, d as int, high)) == s1.rec(link(a, m, d as int, high)) by {
                        pre.lemma_neighbour_sibling(m, d as int, high);
                    }
                    assert(same_links(s1.rec(m), pre.rec(m)));
                    self.lemma_rule_frame(&s1, m, d as int);
                } else {
                    let c = pre.lemma_desc_kid(m, j as int);
                    assert(node_ok(pre.records(), kids, c));
                    let t = pre.rec(c).kidid as int;
                    assert(ks[t] == c);
                    assert(pre.is_desc(m, ks[t]));
                }
            }
        }
    }
}

impl<Wgt, Hnd> Context<Wgt, Hnd> {
    /// Whether item `m` has an explicit size on axis `d`.
    pub open spec fn has_fixed_size(&self, m: int, d: int) -> bool {
        fixed(self.anchors(), m, d)
    }

    /// Resolves the rectangles of the tree under the root: on the horizontal
    /// axis, then on the vertical one, first every item's best size
    /// (children first), then every child's place and, for fill items
    /// without explicit size, extent (parents first). The root sits at its
    /// leading margins.
    ///
    /// Afterwards, on each axis and for every item of the tree: an item of
    /// explicit size has that size; an item without one that is not a fill
    /// child has its best size, the largest total demand over the chains of
    /// its children; every item's computed size is the largest fixed
    /// demand over those chains. A child that anchors to no neighbour sits
    /// where `settled` says, in its parent's final extent; a child whose
    /// siblings all anchor only to earlier siblings sits where the placement
    /// rule puts it against its parent's and its neighbours' final
    /// rectangles. (Where siblings anchor to each other in both directions,
    /// an item may be placed against a neighbour that is itself still being
    /// placed.)
    #[verifier::spinoff_prover]
    #[verifier::rlimit(100)]
    pub fn layout(&mut self)
        requires
            old(self).wf(),
            old(self).links_siblings(),
        ensures
            final(self).same_frame(old(self)),
            forall|m: int|
                0 <= m < old(self).count() ==> #[trigger] final(self).rec(m) == (ItemImp {
                    rect: final(self).rec(m).rect,
                    computed_size: final(self).rec(m).computed_size,
                    sized: final(self).rec(m).sized,
                    placed: final(self).rec(m).placed,
                    ..old(self).rec(m)
                }),
            forall|m: int, d: int|
                #![trigger final(self).rec(m).rect.size(d)]
                0 <= m < old(self).count() && 0 <= d < 2 && old(self).is_desc(m, 0)
                    && old(self).has_fixed_size(m, d) ==> final(self).rec(m).rect.size(d) == old(self).rec(
                    m,
                ).size.at(d),
            forall|m: int, d: int|
                #![trigger final(self).rec(m).rect.size(d)]
                0 <= m < old(self).count() && 0 <= d < 2 && old(self).is_desc(m, 0)
                    && !old(self).has_fixed_size(m, d) && !old(self).dynamic_child(m, d) ==> final(self).rec(
                    m,
                ).rect.size(d) == old(self).best_size(m, d),
            forall|m: int, d: int|
                #![trigger final(self).rec(m).computed_size.at(d)]
                0 <= m < old(self).count() && 0 <= d < 2 && old(self).is_desc(m, 0)
                    ==> final(self).rec(m).computed_size.at(d) == old(self).hard_size(m, d),
            forall|m: int, d: int|
                #![trigger final(self).rec(m).rect.pos(d)]
                0 < m < old(self).count() && 0 <= d < 2 && old(self).is_desc(m, 0) && !linked(
                    old(self).anchors(),
                    m,
                    d,
                ) ==> settled(
                    old(self).anchors(),
                    m,
                    d,
                    final(self).rec(old(self).parent_of(m)).rect.size(d) as int,
                    final(self).rec(m).rect,
                ),
            forall|m: int, d: int|
                #![trigger final(self).placed_by_rule(m, d)]
                0 < m < old(self).count() && 0 <= d < 2 && old(self).is_desc(m, 0) && old(self).family_links_back(
                    old(self).parent_of(m),
                    d,
                ) ==> final(self).placed_by_rule(m, d),
            old(self).count() > 0 ==> final(self).rec(0).rect.x == old(self).rec(0).margins@[0]
                && final(self).rec(0).rect.y == old(self).rec(0).margins@[1],
            old(self).count() == 0 ==> final(self).records() == old(self).records(),
    {
        if self.items.len() == 0 {
            proof {
                assert forall|m: int| 0 <= m < self.count() implies same_links(#[trigger] self.rec(m), self.rec(m)) by {}
            }
            return;
        }
        let ghost s0 = *self;
        self.layout_axis(0);
        let ghost s1 = *self;
        proof {
            self.lemma_frame_siblings(&s0);
        }
        self.layout_axis(1);
        proof {
            let s2 = *self;
            s0.lemma_wf_tree();
            assert forall|m: int| 0 <= m < s0.count() implies same_links(#[trigger] s2.rec(m), s0.rec(m)) && s2.rec(m)
                == (ItemImp {
                rect: s2.rec(m).rect,
                computed_size: s2.rec(m).computed_size,
                sized: s2.rec(m).sized,
                placed: s2.rec(m).placed,
                ..s0.rec(m)
            }) by {
                assert(same_links(s2.rec(m), s1.rec(m)));
                assert(same_links(s1.rec(m), s0.rec(m)));
            }
            assert forall|m: int| 0 <= m < s0.count() implies #[trigger] s1.is_desc(m, 0) == s0.is_desc(m, 0) by {
                s1.lemma_desc_frame(&s0, m, 0);
            }
            assert forall|m: int, d: int|
                #![trigger s2.rec(m).rect.size(d)]
                0 <= m < s0.count() && 0 <= d < 2 && s0.is_desc(m, 0) && !s0.has_fixed_size(m, d)
                    && !s0.dynamic_child(m, d) implies s2.rec(m).rect.size(d) == s0.best_size(m, d) by {
                assert(same_links(s1.rec(m), s0.rec(m)));
            }
            assert forall|m: int, d: int|
                #![trigger s2.rec(m).rect.size(d)]
                0 <= m < s0.count() && 0 <= d < 2 && s0.is_desc(m, 0) && s0.has_fixed_size(m, d) implies s2.rec(
                m,
            ).rect.size(d) == s0.rec(m).size.at(d) by {
                assert(same_links(s1.rec(m), s0.rec(m)));
            }
            assert forall|m: int, d: int|
                #![trigger s2.rec(m).computed_size.at(d)]
                0 <= m < s0.count() && 0 <= d < 2 && s0.is_desc(m, 0) implies s2.rec(m).computed_size.at(d)
                    == s0.hard_size(m, d) by {}
            assert forall|m: int, d: int|
                #![trigger s2.rec(m).rect.pos(d)]
                0 < m < s0.count() && 0 <= d < 2 && s0.is_desc(m, 0) && !linked(s0.anchors(), m, d) implies settled(
                s0.anchors(),
                m,
                d,
                s2.rec(s0.parent_of(m)).rect.size(d) as int,
                s2.rec(m).rect,
            ) by {
                assert(same_links(s1.rec(m), s0.rec(m)));
                assert(node_ok(s0.records(), s0.kid_lists(), m));
                if d == 0 {
                    assert(settled(s0.anchors(), m, 0, s1.rec(s0.parent_of(m)).rect.size(0) as int, s1.rec(m).rect));
                }
            }
            assert forall|m: int, d: int|
                #![trigger s2.placed_by_rule(m, d)]
                0 < m < s0.count() && 0 <= d < 2 && s0.is_desc(m, 0) && s0.family_links_back(s0.parent_of(m), d)
                    implies s2.placed_by_rule(m, d) by {
                assert(same_links(s1.rec(m), s0.rec(m)));
                assert(node_ok(s0.records(), s0.kid_lists(), m));
                let p = s0.parent_of(m);
                s1.lemma_links_back_frame(&s0, p, d);
                if d == 0 {
                    assert(s1.placed_by_rule(m, 0));
                    s2.lemma_rule_axis(&s1, m, 0);
                }
            }
        }
    }

    /// Runs both passes on axis `d` over the tree under the root, and puts
    /// the root at its leading margin on that axis.
    fn layout_axis(&mut self, d: usize)
        requires
            old(self).wf(),
            old(self).links_siblings(),
            old(self).count() > 0,
            d < 2,
        ensures
            final(self).same_frame(old(self)),
            forall|m: int|
                0 <= m < old(self).count() ==> #[trigger] final(self).rec(m) == (ItemImp {
                    rect: final(self).rec(m).rect,
                    computed_size: final(self).rec(m).computed_size,
                    sized: final(self).rec(m).sized,
                    placed: final(self).rec(m).placed,
                    ..old(self).rec(m)
                }) && final(self).rec(m).rect == old(self).rec(m).rect.with_pos(
                    d as int,
                    final(self).rec(m).rect.pos(d as int),
                ).with_size(d as int, final(self).rec(m).rect.size(d as int))
                    && final(self).rec(m).computed_size == old(self).rec(m).computed_size.with_at(
                    d as int,
                    final(self).rec(m).computed_size.at(d as int),
                ),
            forall|m: int|
                0 <= m < old(self).count() && #[trigger] old(self).is_desc(m, 0) ==> {
                    &&& final(self).rec(m).computed_size.at(d as int) == old(self).hard_size(m, d as int)
                    &&& !old(self).dynamic_child(m, d as int) ==> final(self).rec(m).rect.size(d as int)
                        == old(self).best_size(m, d as int)
                },
            final(self).rec(0).rect.pos(d as int) == old(self).rec(0).margins@[d as int],
            forall|m: int|
                0 < m < old(self).count() && old(self).is_desc(m, 0) && !linked(old(self).anchors(), m, d as int)
                    ==> settled(
                    old(self).anchors(),
                    m,
                    d as int,
                    final(self).rec(old(self).parent_of(m)).rect.size(d as int) as int,
                    #[trigger] final(self).rec(m).rect,
                ),
            forall|m: int|
                0 < m < old(self).count() && old(self).is_desc(m, 0) && old(self).family_links_back(
                    old(self).parent_of(m),
                    d as int,
                ) ==> #[trigger] final(self).placed_by_rule(m, d as int),
    {
        let ghost s0 = *self;
        self.compute_best_size(0, d);
        let ghost s1 = *self;
        let m0 = self.items[0].margins[d];
        self.set_offset(0, d, m0);
        let ghost s2 = *self;
        proof {
            self.lemma_frame_siblings(&s0);
            assert forall|m: int| 0 <= m < self.count() && m != 0 && #[trigger] self.is_desc(m, 0)
                implies !self.rec(m).placed@[d as int] by {
                self.lemma_desc_frame(&s0, m, 0);
                assert(sized_as(s0.rec(m), s1.rec(m), d as int, s0.best_size(m, d as int), s0.hard_size(m, d as int)));
            }
        }
        self.layout_item(0, d);
        proof {
            let s3 = *self;
            s0.lemma_wf_tree();
            assert(node_ok(s0.records(), s0.kid_lists(), 0));
            assert forall|m: int| 0 <= m < s0.count() implies #[trigger] s2.is_desc(m, 0) == s0.is_desc(m, 0) by {
                s2.lemma_desc_frame(&s0, m, 0);
            }
            assert forall|m: int|
                0 <= m < s0.count() implies #[trigger] s3.rec(m) == (ItemImp {
                    rect: s3.rec(m).rect,
                    computed_size: s3.rec(m).computed_size,
                    sized: s3.rec(m).sized,
                    placed: s3.rec(m).placed,
                    ..s0.rec(m)
                }) && s3.rec(m).rect == s0.rec(m).rect.with_pos(
                    d as int,
                    s3.rec(m).rect.pos(d as int),
                ).with_size(d as int, s3.rec(m).rect.size(d as int))
                    && s3.rec(m).computed_size == s0.rec(m).computed_size.with_at(
                    d as int,
                    s3.rec(m).computed_size.at(d as int),
                ) by {
                assert(placed_as(s2.rec(m), s3.rec(m), d as int, s2.dynamic_child(m, d as int)));
                if s0.is_desc(m, 0) {
                    assert(sized_as(s0.rec(m), s1.rec(m), d as int, s0.best_size(m, d as int), s0.hard_size(m, d as int)));
                } else {
                    assert(s1.rec(m) == s0.rec(m));
                }
            }
            assert forall|m: int|
                0 <= m < s0.count() && #[trigger] s0.is_desc(m, 0) implies {
                    &&& s3.rec(m).computed_size.at(d as int) == s0.hard_size(m, d as int)
                    &&& !s0.dynamic_child(m, d as int) ==> s3.rec(m).rect.size(d as int) == s0.best_size(m, d as int)
                } by {
                assert(placed_as(s2.rec(m), s3.rec(m), d as int, s2.dynamic_child(m, d as int)));
                assert(sized_as(s0.rec(m), s1.rec(m), d as int, s0.best_size(m, d as int), s0.hard_size(m, d as int)));
                assert(same_links(s2.rec(m), s0.rec(m)));
            }
            assert forall|m: int|
                0 < m < s0.count() && s0.is_desc(m, 0) && s0.family_links_back(s0.parent_of(m), d as int)
                    implies #[trigger] s3.placed_by_rule(m, d as int) by {
                assert(same_links(s2.rec(m), s0.rec(m)));
                s2.lemma_links_back_frame(&s0, s0.parent_of(m), d as int);
            }
            assert forall|m: int|
                0 < m < s0.count() && s0.is_desc(m, 0) && !linked(s0.anchors(), m, d as int) implies settled(
                s0.anchors(),
                m,
                d as int,
                s3.rec(s0.parent_of(m)).rect.size(d as int) as int,
                #[trigger] s3.rec(m).rect,
            ) by {
                assert(same_links(s2.rec(m), s0.rec(m)));
            }
            assert(same_links(s2.rec(0), s0.rec(0)));
            assert(s3.rec(0) == s2.rec(0));
        }
    }
}

} // verus!
