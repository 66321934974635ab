//! Properties of the hierarchy and of hit-testing that hold of every
//! well-formed context.
use vstd::prelude::*;
use crate::item::Item;
use super::Context;

verus! {

impl<Wgt, Hnd> Context<Wgt, Hnd> {
    /// The items above an item form one line: of two of them, one lies
    /// below the other.
    pub proof fn lemma_ancestors_linear(&self, h: int, a: int, b: int)
        requires
            self.is_desc(h, a),
            self.is_desc(h, b),
        ensures
            self.is_desc(a, b) || self.is_desc(b, a),
        decreases h,
    {
        if h != a && h != b {
            self.lemma_ancestors_linear(self.parent_of(h), a, b);
        }
    }

    /// No item of the subtree of `i` that holds the hit is frozen.
    proof fn lemma_hit_path_unfrozen(&self, i: int, x: int, y: int, f: int)
        requires
            self.wf(),
            self.hit(i, x, y) != -1,
            self.is_desc(self.hit(i, x, y), f),
            self.is_desc(f, i),
        ensures
            !self.rec(f).frozen,
        decreases self.count() - i, self.children(i).len() + 1,
    {
        let r = self.rec(i).rect;
        let lx = x - r.x;
        let ly = y - r.y;
        if f != i {
            if self.hit_kids(i, 0, lx, ly) != -1 {
                self.lemma_hit_kids_path_unfrozen(i, 0, lx, ly, f);
            } else {
                self.lemma_desc_index(i, f);
                self.lemma_desc_index(f, i);
            }
        }
    }

    proof fn lemma_hit_kids_path_unfrozen(&self, i: int, k: int, x: int, y: int, f: int)
        requires
            self.wf(),
            0 <= i < self.count(),
            self.hit_kids(i, k, x, y) != -1,
            self.is_desc(self.hit_kids(i, k, x, y), f),
            self.is_desc(f, i),
            f != i,
        ensures
            !self.rec(f).frozen,
        decreases self.count() - i, self.children(i).len() - k,
    {
        let c = self.children(i)[k];
        let h = self.hit(c, x, y);
        if h != -1 {
            self.lemma_hit_in(c, x, y);
            self.lemma_wf_tree();
            assert(super::node_ok(self.records(), self.kid_lists(), i));
            assert(self.rec(c).parent.itemid == i);
            assert(self.is_desc(i, i));
            assert(self.is_desc(c, i));
            self.lemma_ancestors_linear(h, f, c);
            if self.is_desc(f, c) {
                self.lemma_hit_path_unfrozen(c, x, y, f);
            } else {
                // `c` lies below `f`, and `f` below `i`: `f` is `c` or `i`.
                assert(self.is_desc(c, f));
                if c != f {
                    assert(self.is_desc(i, f));
                    self.lemma_desc_index(i, f);
                    self.lemma_desc_index(f, i);
                }
                self.lemma_hit_path_unfrozen(c, x, y, f);
            }
        } else {
            self.lemma_hit_kids_path_unfrozen(i, k + 1, x, y, f);
        }
    }

    /// A frozen item and everything below it are invisible to the hit test
    /// from the root: whatever the point, the item found is neither a frozen
    /// item nor below one. As `process` takes its hot and active items from
    /// this hit test only, neither ever becomes hot or active.
    pub proof fn law_frozen_never_hit(&self, x: int, y: int, f: int)
        requires
            self.wf(),
            0 <= f < self.count(),
            self.rec(f).frozen,
        ensures
            self.hit(0, x, y) == -1 || !self.is_desc(self.hit(0, x, y), f),
    {
        let h = self.hit(0, x, y);
        if h != -1 && self.is_desc(h, f) {
            self.lemma_hit_in(0, x, y);
            self.lemma_ancestors_linear(h, f, 0);
            if !self.is_desc(f, 0) {
                assert(self.is_desc(0, f));
                self.lemma_desc_index(0, f);
            }
            self.lemma_hit_path_unfrozen(0, x, y, f);
        }
    }

    /// A point outside the root's rectangle hits nothing.
    pub proof fn law_outside_root_misses(&self, x: int, y: int)
        requires
            self.count() > 0,
            !(self.rec(0).rect.x <= x < self.rec(0).rect.x + self.rec(0).rect.w && self.rec(0).rect.y <= y
                < self.rec(0).rect.y + self.rec(0).rect.h),
        ensures
            self.hit(0, x, y) == -1,
    {
    }

    /// A point inside a leaf hits that leaf when it is inside every
    /// rectangle on the way down from `i` and outside every earlier sibling
    /// of each item on that way: `path` lists the items from `i` down to
    /// the leaf, `xs` and `ys` the point in the coordinates of each one's
    /// parent.
    pub proof fn law_hit_reaches_leaf(&self, path: Seq<int>, xs: Seq<int>, ys: Seq<int>)
        requires
            self.wf(),
            path.len() >= 1,
            xs.len() == path.len(),
            ys.len() == path.len(),
            forall|t: int| 0 <= t < path.len() ==> 0 <= #[trigger] path[t] < self.count(),
            forall|t: int| 0 <= t < path.len() ==> !(#[trigger] self.rec(path[t])).frozen,
            forall|t: int|
                #![trigger path[t]]
                0 <= t < path.len() ==> {
                    let r = self.rec(path[t]).rect;
                    r.x <= xs[t] < r.x + r.w && r.y <= ys[t] < r.y + r.h
                },
            forall|t: int|
                #![trigger path[t]]
                1 <= t < path.len() ==> {
                    let r = self.rec(path[t - 1]).rect;
                    &&& self.parent_of(path[t]) == path[t - 1]
                    &&& xs[t] == xs[t - 1] - r.x
                    &&& ys[t] == ys[t - 1] - r.y
                    &&& forall|k: int|
                        0 <= k < self.rec(path[t]).kidid ==> self.hit(
                            #[trigger] self.children(path[t - 1])[k],
                            xs[t],
                            ys[t],
                        ) == -1
                },
            self.children(path.last()).len() == 0,
        ensures
            self.hit(path[0], xs[0], ys[0]) == path.last(),
        decreases path.len(),
    {
        let i = path[0];
        let r = self.rec(i).rect;
        if path.len() == 1 {
            assert(self.hit_kids(i, 0, xs[0] - r.x, ys[0] - r.y) == -1);
        } else {
            let rest = path.drop_first();
            let c = path[1];
            assert(self.parent_of(c) == i);
            self.law_hit_reaches_leaf(rest, xs.drop_first(), ys.drop_first());
            self.lemma_wf_tree();
            assert(super::node_ok(self.records(), self.kid_lists(), c));
            let kc = self.rec(c).kidid as int;
            self.lemma_hit_kids_skips(i, 0, kc, xs[1], ys[1]);
        }
    }

    /// The hit among the children from the `k`-th on is that of the `kc`-th
    /// child when the ones between miss.
    proof fn lemma_hit_kids_skips(&self, i: int, k: int, kc: int, x: int, y: int)
        requires
            self.wf(),
            0 <= i < self.count(),
            0 <= k <= kc < self.children(i).len(),
            forall|q: int| 0 <= q < kc ==> self.hit(#[trigger] self.children(i)[q], x, y) == -1,
            self.hit(self.children(i)[kc], x, y) != -1,
        ensures
            self.hit_kids(i, k, x, y) == self.hit(self.children(i)[kc], x, y),
        decreases kc - k,
    {
        self.lemma_wf_tree();
        assert(super::node_ok(self.records(), self.kid_lists(), i));
        assert(i < self.children(i)[k] < self.count());
        if k < kc {
            self.lemma_hit_kids_skips(i, k + 1, kc, x, y);
        }
    }

    /// Every handle is stale in an empty context, as `clear` leaves it: a
    /// read through one fails its precondition instead of reading nothing.
    pub proof fn law_cleared_handles_stale(&self, it: Item)
        requires
            self.count() == 0,
        ensures
            !self.has(it),
    {
    }
}

} // verus!
