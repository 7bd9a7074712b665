//! The spatial index: a tree whose internal nodes split their region at the
//! midpoint of every axis, with at most one item per leaf.
use vstd::prelude::*;

use crate::point::Point;
use crate::region::{
    child_index,
    child_of,
    child_offset,
    child_size,
    in_region,
    lemma_child_index,
    lemma_child_shrinks,
    lemma_child_unique,
    lemma_child_within,
    origin,
    region_fits,
    size_sum,
    child_region,
    lemma_no_meet,
    within,
    Rectangle,
};
use crate::{D, N};

verus! {

/// Something stored in the tree at a fixed position.
pub trait Locatable {
    /// The coordinates of the item's position.
    spec fn location(&self) -> Seq<u64>;

    /// The item's position.
    fn position(&self) -> (r: &Point)
        ensures
            r@ == self.location(),
    ;
}

/// The contents of a non-empty node: either `N` children, one per orthant of
/// the node's region, or a single item.
pub enum RawVoxel<T> {
    SubCell(Vec<Voxel<T>>),
    Value(T),
}

/// A node of the tree; `None` is an empty node.
pub struct Voxel<T>(pub Option<Box<RawVoxel<T>>>);

/// Why an insertion was refused.
#[derive(Debug, Clone, Copy, PartialEq, Eq, Structural)]
pub enum InsertError {
    /// An item with exactly this position is already stored.
    DuplicatePosition,
    /// The position lies outside `[0, size)` in some dimension.
    OutOfDomain,
}

/// `N` empty nodes.
fn empty_children<T>() -> (r: Vec<Voxel<T>>)
    ensures
        r@.len() == N,
        forall|i: int| 0 <= i < N ==> (#[trigger] r@[i]).0 is None,
{
    let mut ch: Vec<Voxel<T>> = Vec::new();
    let mut i: usize = 0;
    while i < N
        invariant
            i <= N,
            ch@.len() == i,
            forall|j: int| 0 <= j < i ==> (#[trigger] ch@[j]).0 is None,
        decreases N - i,
    {
        ch.push(Voxel(None));
        i = i + 1;
    }
    ch
}

impl<T> RawVoxel<T> {
    /// An internal node with `N` empty children.
    pub fn subcell() -> (r: RawVoxel<T>)
        ensures
            r is SubCell,
            r->SubCell_0@.len() == N,
            forall|i: int| 0 <= i < N ==> (#[trigger] r->SubCell_0@[i]).0 is None,
    {
        RawVoxel::SubCell(empty_children())
    }

    /// A node holding `value`.
    pub fn value(value: T) -> (r: RawVoxel<T>)
        ensures
            r == RawVoxel::Value(value),
    {
        RawVoxel::Value(value)
    }
}

impl<T> Voxel<T> {
    /// An internal node with `N` empty children.
    pub fn subcell() -> (r: Voxel<T>)
        ensures
            r.is_internal(),
            r.kids().len() == N,
            forall|i: int| 0 <= i < N ==> (#[trigger] r.kids()[i]).0 is None,
    {
        Voxel(Some(Box::new(RawVoxel::subcell())))
    }

    /// A leaf holding `value`.
    pub fn value(value: T) -> (r: Voxel<T>)
        ensures
            r.0 == Some(Box::new(RawVoxel::Value(value))),
    {
        Voxel(Some(Box::new(RawVoxel::value(value))))
    }

    /// The node has children.
    pub open spec fn is_internal(self) -> bool {
        match self.0 {
            Some(b) => *b is SubCell,
            None => false,
        }
    }

    /// The children of an internal node; empty otherwise.
    pub open spec fn kids(self) -> Seq<Voxel<T>> {
        match self.0 {
            Some(b) => match *b {
                RawVoxel::SubCell(ch) => ch@,
                RawVoxel::Value(_) => Seq::empty(),
            },
            None => Seq::empty(),
        }
    }
}

impl<T: Locatable> Voxel<T> {
    /// Every item lies in the region of the node that holds it, and every
    /// internal node has one child per orthant.
    pub open spec fn wf(self, off: Seq<u64>, size: Seq<u64>) -> bool
        decreases self,
    {
        match self.0 {
            None => true,
            Some(b) => match *b {
                RawVoxel::Value(v) => in_region(v.location(), off, size),
                RawVoxel::SubCell(ch) => {
                    &&& ch@.len() == N
                    &&& forall|i: int|
                        0 <= i < N ==> (#[trigger] ch@[i]).wf(
                            child_offset(off, size, i),
                            child_size(size, i),
                        )
                },
            },
        }
    }

    /// The items under the first `k` children (all items, for a leaf),
    /// keyed by position.
    pub open spec fn items_upto(self, k: int) -> Map<Seq<u64>, T>
        decreases self, k,
    {
        match self.0 {
            None => Map::empty(),
            Some(b) => match *b {
                RawVoxel::Value(v) => map![v.location() => v],
                RawVoxel::SubCell(ch) => if 0 < k <= ch@.len() {
                    self.items_upto(k - 1).union_prefer_right(ch@[k - 1].items_upto(N as int))
                } else {
                    Map::empty()
                },
            },
        }
    }

    /// All items under the node, keyed by position.
    pub open spec fn items(self) -> Map<Seq<u64>, T> {
        self.items_upto(N as int)
    }

    /// Every internal node holds at least two items: a node is subdivided
    /// only when a second item arrives.
    pub open spec fn compact(self) -> bool
        decreases self,
    {
        match self.0 {
            None => true,
            Some(b) => match *b {
                RawVoxel::Value(_) => true,
                RawVoxel::SubCell(ch) => {
                    &&& two_keys(self.items())
                    &&& forall|i: int| 0 <= i < ch@.len() ==> (#[trigger] ch@[i]).compact()
                },
            },
        }
    }

    /// The items under the first `k` children that lie in `rect`, depth
    /// first, children in ascending index order.
    pub open spec fn query_upto(self, rect: Rectangle, k: int) -> Seq<T>
        decreases self, k,
    {
        match self.0 {
            None => Seq::empty(),
            Some(b) => match *b {
                RawVoxel::Value(v) => if rect.holds(v.location()) {
                    seq![v]
                } else {
                    Seq::empty()
                },
                RawVoxel::SubCell(ch) => if 0 < k <= ch@.len() {
                    self.query_upto(rect, k - 1) + ch@[k - 1].query_upto(rect, N as int)
                } else {
                    Seq::empty()
                },
            },
        }
    }

    /// The leaves under the first `k` children, depth first, each with the
    /// child indices leading to it appended to `path`.
    pub open spec fn leaves_upto(self, path: Seq<usize>, k: int) -> Seq<(Seq<usize>, T)>
        decreases self, k,
    {
        match self.0 {
            None => Seq::empty(),
            Some(b) => match *b {
                RawVoxel::Value(v) => seq![(path, v)],
                RawVoxel::SubCell(ch) => if 0 < k <= ch@.len() {
                    self.leaves_upto(path, k - 1) + ch@[k - 1].leaves_upto(
                        path.push((k - 1) as usize),
                        ch@[k - 1].kids().len() as int,
                    )
                } else {
                    Seq::empty()
                },
            },
        }
    }

    /// The items under the node that lie in `rect`, depth first.
    pub open spec fn query(self, rect: Rectangle) -> Seq<T> {
        self.query_upto(rect, N as int)
    }
}

/// The region `(offset, size)` reached from the root region `(0, domain)`
/// by following the child indices of `path`.
pub open spec fn region_of_path(domain: Seq<u64>, path: Seq<usize>) -> (Seq<u64>, Seq<u64>)
    decreases path.len(),
{
    if path.len() == 0 {
        (origin(), domain)
    } else {
        let up = region_of_path(domain, path.drop_last());
        (child_offset(up.0, up.1, path.last() as int), child_size(up.1, path.last() as int))
    }
}

/// `p` lies in the region reached by `path`.
pub open spec fn on_path(domain: Seq<u64>, path: Seq<usize>, p: Seq<u64>) -> bool {
    in_region(p, region_of_path(domain, path).0, region_of_path(domain, path).1)
}

/// `path` is where a tree holding the positions `keys` keeps the item at
/// `x`: every step is a child index, the region it leads to holds `x` and no
/// other key, and the region one level up holds another key.
pub open spec fn leaf_path_of(domain: Seq<u64>, keys: Set<Seq<u64>>, path: Seq<usize>, x: Seq<u64>) -> bool {
    &&& forall|j: int| 0 <= j < path.len() ==> #[trigger] path[j] < N
    &&& on_path(domain, path, x)
    &&& forall|q: Seq<u64>| #[trigger] keys.contains(q) && on_path(domain, path, q) ==> q == x
    &&& path.len() > 0 ==> exists|q: Seq<u64>|
        #[trigger] keys.contains(q) && q != x && on_path(domain, path.drop_last(), q)
}

pub proof fn lemma_path_fits(domain: Seq<u64>, path: Seq<usize>)
    requires
        domain.len() == D,
    ensures
        region_fits(region_of_path(domain, path).0, region_of_path(domain, path).1),
    decreases path.len(),
{
    if path.len() > 0 {
        lemma_path_fits(domain, path.drop_last());
        let up = region_of_path(domain, path.drop_last());
        lemma_child_within(up.0, up.1, path.last() as int);
    }
}

/// A point on a path is on each of its prefixes.
pub proof fn lemma_path_prefix(domain: Seq<u64>, path: Seq<usize>, m: int, y: Seq<u64>)
    requires
        domain.len() == D,
        0 <= m <= path.len(),
        on_path(domain, path, y),
    ensures
        on_path(domain, path.subrange(0, m), y),
    decreases path.len(),
{
    if m == path.len() {
        assert(path.subrange(0, m) =~= path);
    } else {
        let up = region_of_path(domain, path.drop_last());
        lemma_path_fits(domain, path.drop_last());
        lemma_child_within(up.0, up.1, path.last() as int);
        lemma_path_prefix(domain, path.drop_last(), m, y);
        assert(path.drop_last().subrange(0, m) =~= path.subrange(0, m));
    }
}

/// Two paths of one length whose regions share a point are the same path.
pub proof fn lemma_path_forced(domain: Seq<u64>, p1: Seq<usize>, p2: Seq<usize>, x: Seq<u64>)
    requires
        domain.len() == D,
        p1.len() == p2.len(),
        forall|j: int| 0 <= j < p1.len() ==> #[trigger] p1[j] < N,
        forall|j: int| 0 <= j < p2.len() ==> #[trigger] p2[j] < N,
        on_path(domain, p1, x),
        on_path(domain, p2, x),
    ensures
        p1 == p2,
    decreases p1.len(),
{
    if p1.len() == 0 {
        assert(p1 =~= p2);
    } else {
        let n = p1.len() - 1;
        lemma_path_prefix(domain, p1, n, x);
        lemma_path_prefix(domain, p2, n, x);
        assert(p1.subrange(0, n) =~= p1.drop_last());
        assert(p2.subrange(0, n) =~= p2.drop_last());
        lemma_path_forced(domain, p1.drop_last(), p2.drop_last(), x);
        let up = region_of_path(domain, p1.drop_last());
        lemma_path_fits(domain, p1.drop_last());
        lemma_child_unique(x, up.0, up.1, p1.last() as int);
        lemma_child_unique(x, up.0, up.1, p2.last() as int);
        assert(p1 =~= p2.drop_last().push(p2.last()));
        assert(p2 =~= p2.drop_last().push(p2.last()));
    }
}

/// The path to an item's leaf depends only on the set of stored positions,
/// not on the order in which they were inserted.
pub proof fn lemma_leaf_path_unique(
    domain: Seq<u64>,
    keys: Set<Seq<u64>>,
    x: Seq<u64>,
    p1: Seq<usize>,
    p2: Seq<usize>,
)
    requires
        domain.len() == D,
        leaf_path_of(domain, keys, p1, x),
        leaf_path_of(domain, keys, p2, x),
    ensures
        p1 == p2,
{
    if p1.len() == p2.len() {
        lemma_path_forced(domain, p1, p2, x);
    } else {
        let (s, l) = if p1.len() < p2.len() {
            (p1, p2)
        } else {
            (p2, p1)
        };
        let q = choose|q: Seq<u64>| #[trigger] keys.contains(q) && q != x && on_path(domain, l.drop_last(), q);
        let m = s.len() as int;
        lemma_path_prefix(domain, l.drop_last(), m, q);
        lemma_path_prefix(domain, l, m, x);
        assert(l.drop_last().subrange(0, m) =~= l.subrange(0, m));
        assert forall|j: int| 0 <= j < m implies #[trigger] l.subrange(0, m)[j] < N by {
            assert(l.subrange(0, m)[j] == l[j]);
        }
        lemma_path_forced(domain, s, l.subrange(0, m), x);
    }
}

/// `m` has at least two keys.
pub open spec fn two_keys<K, V>(m: Map<K, V>) -> bool {
    exists|p: K, q: K| p != q && #[trigger] m.contains_key(p) && #[trigger] m.contains_key(q)
}

/// A listing of leaves with owned paths, as plain values.
pub open spec fn listing_view<T>(s: Seq<(Vec<usize>, &T)>) -> Seq<(Seq<usize>, T)> {
    s.map_values(|e: (Vec<usize>, &T)| (e.0@, *e.1))
}

/// The values behind a sequence of references.
pub open spec fn derefs<T>(s: Seq<&T>) -> Seq<T> {
    s.map_values(|x: &T| *x)
}

/// Items lie in their node's region, at the key of their position; and an
/// internal node holds a position exactly when the child whose region holds
/// that position does.
pub proof fn lemma_items<T: Locatable>(v: Voxel<T>, off: Seq<u64>, size: Seq<u64>, k: int)
    requires
        v.wf(off, size),
        region_fits(off, size),
        0 <= k <= N,
    ensures
        forall|p: Seq<u64>| #[trigger]
            v.items_upto(k).contains_key(p) ==> in_region(p, off, size) && v.items_upto(k)[p].location()
                == p && 0 <= child_index(p, off, size) < N,
        v.is_internal() ==> forall|p: Seq<u64>| #[trigger]
            v.items_upto(k).contains_key(p) <==> (in_region(p, off, size) && child_index(p, off, size) < k
                && v.kids()[child_index(p, off, size)].items().contains_key(p)),
        v.is_internal() ==> forall|p: Seq<u64>| #[trigger]
            v.items_upto(k).contains_key(p) ==> v.items_upto(k)[p] == v.kids()[child_index(
                p,
                off,
                size,
            )].items()[p],
    decreases v, k,
{
    assert forall|p: Seq<u64>| #[trigger] in_region(p, off, size) implies 0 <= child_index(p, off, size) < N by {
        lemma_child_index(p, off, size);
    }
    match v.0 {
        None => {
            assert(v.items_upto(k) =~= Map::empty());
        },
        Some(b) => match *b {
            RawVoxel::Value(x) => {
                assert(v.items_upto(k) =~= map![x.location() => x]);
            },
            RawVoxel::SubCell(ch) => {
                if k == 0 {
                    assert(v.items_upto(k) =~= Map::empty());
                } else {
                    lemma_items(v, off, size, k - 1);
                    let c = ch@[k - 1];
                    let co = child_offset(off, size, k - 1);
                    let cs = child_size(size, k - 1);
                    assert(c.wf(co, cs));
                    lemma_child_within(off, size, k - 1);
                    lemma_items(c, co, cs, N as int);
                    assert(v.kids() == ch@);
                    let pre = v.items_upto(k - 1);
                    let cur = v.items_upto(k);
                    assert(cur == pre.union_prefer_right(c.items()));
                    assert forall|p: Seq<u64>| #[trigger] c.items().contains_key(p) implies in_region(p, off, size)
                        && child_index(p, off, size) == k - 1 by {
                        lemma_child_unique(p, off, size, k - 1);
                    }
                    assert forall|p: Seq<u64>| #[trigger] cur.contains_key(p) implies in_region(p, off, size)
                        && cur[p].location() == p && child_index(p, off, size) < k
                        && v.kids()[child_index(p, off, size)].items().contains_key(p)
                        && cur[p] == v.kids()[child_index(p, off, size)].items()[p] by {
                        if c.items().contains_key(p) {
                            assert(cur[p] == c.items()[p]);
                        } else {
                            assert(pre.contains_key(p));
                            assert(cur[p] == pre[p]);
                        }
                    }
                    assert forall|p: Seq<u64>| in_region(p, off, size) && child_index(p, off, size) < k
                        && #[trigger] v.kids()[child_index(p, off, size)].items().contains_key(p)
                        implies cur.contains_key(p) by {
                        if child_index(p, off, size) < k - 1 {
                            assert(pre.contains_key(p));
                        }
                    }
                }
            },
        },
    }
}

/// A query returns each stored item that lies in the box exactly once, and
/// nothing else.
pub proof fn lemma_query<T: Locatable>(v: Voxel<T>, off: Seq<u64>, size: Seq<u64>, rect: Rectangle, k: int)
    requires
        v.wf(off, size),
        region_fits(off, size),
        0 <= k <= N,
    ensures
        forall|i: int|
            0 <= i < v.query_upto(rect, k).len() ==> {
                let x = #[trigger] v.query_upto(rect, k)[i];
                &&& rect.holds(x.location())
                &&& v.items_upto(k).contains_key(x.location())
                &&& v.items_upto(k)[x.location()] == x
            },
        forall|p: Seq<u64>|
            #[trigger] v.items_upto(k).contains_key(p) && rect.holds(p) ==> exists|i: int|
                0 <= i < v.query_upto(rect, k).len() && (#[trigger] v.query_upto(rect, k)[i]).location() == p,
        forall|i: int, j: int|
            0 <= i < v.query_upto(rect, k).len() && 0 <= j < v.query_upto(rect, k).len() && i != j
                ==> (#[trigger] v.query_upto(rect, k)[i]).location() != (#[trigger] v.query_upto(
                rect,
                k,
            )[j]).location(),
    decreases v, k,
{
    lemma_items(v, off, size, k);
    match v.0 {
        None => {
            assert(v.query_upto(rect, k) =~= Seq::empty());
        },
        Some(b) => match *b {
            RawVoxel::Value(x) => {
                assert(v.items_upto(k) =~= map![x.location() => x]);
                if rect.holds(x.location()) {
                    assert(v.query_upto(rect, k) =~= seq![x]);
                    assert(v.query_upto(rect, k)[0] == x);
                } else {
                    assert(v.query_upto(rect, k) =~= Seq::empty());
                }
            },
            RawVoxel::SubCell(ch) => {
                if k == 0 {
                    assert(v.query_upto(rect, k) =~= Seq::empty());
                } else {
                    lemma_query(v, off, size, rect, k - 1);
                    lemma_items(v, off, size, k - 1);
                    let c = ch@[k - 1];
                    let co = child_offset(off, size, k - 1);
                    let cs = child_size(size, k - 1);
                    assert(c.wf(co, cs));
                    assert(v.kids() == ch@);
                    lemma_child_within(off, size, k - 1);
                    lemma_query(c, co, cs, rect, N as int);
                    lemma_items(c, co, cs, N as int);
                    let pre = v.query_upto(rect, k - 1);
                    let cq = c.query(rect);
                    let q = v.query_upto(rect, k);
                    assert(q == pre + cq);
                    assert forall|p: Seq<u64>| #[trigger] c.items().contains_key(p) implies child_index(p, off, size)
                        == k - 1 by {
                        lemma_child_unique(p, off, size, k - 1);
                    }
                    assert forall|i: int| 0 <= i < q.len() implies {
                        let x = #[trigger] q[i];
                        &&& rect.holds(x.location())
                        &&& v.items_upto(k).contains_key(x.location())
                        &&& v.items_upto(k)[x.location()] == x
                    } by {
                        if i < pre.len() {
                            assert(q[i] == pre[i]);
                            let l = pre[i].location();
                            assert(v.items_upto(k - 1).contains_key(l));
                            assert(v.items_upto(k).contains_key(l));
                            assert(v.items_upto(k)[l] == v.kids()[child_index(l, off, size)].items()[l]);
                        } else {
                            assert(q[i] == cq[i - pre.len()]);
                            let l = cq[i - pre.len()].location();
                            assert(c.items().contains_key(l));
                            assert(child_index(l, off, size) == k - 1);
                            assert(v.items_upto(k).contains_key(l));
                        }
                    }
                    assert forall|p: Seq<u64>| #[trigger]
                        v.items_upto(k).contains_key(p) && rect.holds(p) implies exists|i: int|
                        0 <= i < q.len() && (#[trigger] q[i]).location() == p by {
                        if child_index(p, off, size) < k - 1 {
                            assert(v.items_upto(k - 1).contains_key(p));
                            let i = choose|i: int| 0 <= i < pre.len() && (#[trigger] pre[i]).location() == p;
                            assert(q[i] == pre[i]);
                        } else {
                            assert(c.items().contains_key(p));
                            let j = choose|j: int| 0 <= j < cq.len() && (#[trigger] cq[j]).location() == p;
                            assert(q[pre.len() + j] == cq[j]);
                        }
                    }
                    assert forall|i: int, j: int|
                        0 <= i < q.len() && 0 <= j < q.len() && i != j implies (#[trigger] q[i]).location()
                        != (#[trigger] q[j]).location() by {
                        if i < pre.len() && j < pre.len() {
                            assert(q[i] == pre[i] && q[j] == pre[j]);
                        } else if i >= pre.len() && j >= pre.len() {
                            assert(q[i] == cq[i - pre.len()] && q[j] == cq[j - pre.len()]);
                        } else if i < pre.len() {
                            assert(q[i] == pre[i] && q[j] == cq[j - pre.len()]);
                            assert(v.items_upto(k - 1).contains_key(pre[i].location()));
                            assert(c.items().contains_key(cq[j - pre.len()].location()));
                            assert(child_index(pre[i].location(), off, size) < k - 1);
                        } else {
                            assert(q[j] == pre[j] && q[i] == cq[i - pre.len()]);
                            assert(v.items_upto(k - 1).contains_key(pre[j].location()));
                            assert(c.items().contains_key(cq[i - pre.len()].location()));
                            assert(child_index(pre[j].location(), off, size) < k - 1);
                        }
                    }
                }
            },
        },
    }
}

/// The leaf listing holds each stored item exactly once.
pub proof fn lemma_leaves<T: Locatable>(v: Voxel<T>, off: Seq<u64>, size: Seq<u64>, path: Seq<usize>, k: int)
    requires
        v.wf(off, size),
        region_fits(off, size),
        0 <= k <= N,
    ensures
        forall|i: int|
            0 <= i < v.leaves_upto(path, k).len() ==> {
                let x = (#[trigger] v.leaves_upto(path, k)[i]).1;
                &&& v.items_upto(k).contains_key(x.location())
                &&& v.items_upto(k)[x.location()] == x
            },
        forall|p: Seq<u64>|
            #[trigger] v.items_upto(k).contains_key(p) ==> exists|i: int|
                0 <= i < v.leaves_upto(path, k).len() && (#[trigger] v.leaves_upto(path, k)[i]).1.location() == p,
        forall|i: int, j: int|
            0 <= i < v.leaves_upto(path, k).len() && 0 <= j < v.leaves_upto(path, k).len() && i != j
                ==> (#[trigger] v.leaves_upto(path, k)[i]).1.location() != (#[trigger] v.leaves_upto(
                path,
                k,
            )[j]).1.location(),
    decreases v, k,
{
    lemma_items(v, off, size, k);
    match v.0 {
        None => {
            assert(v.leaves_upto(path, k) =~= Seq::empty());
        },
        Some(b) => match *b {
            RawVoxel::Value(x) => {
                assert(v.items_upto(k) =~= map![x.location() => x]);
                assert(v.leaves_upto(path, k) =~= seq![(path, x)]);
                assert(v.leaves_upto(path, k)[0] == (path, x));
            },
            RawVoxel::SubCell(ch) => {
                if k == 0 {
                    assert(v.leaves_upto(path, k) =~= Seq::empty());
                } else {
                    lemma_leaves(v, off, size, path, k - 1);
                    lemma_items(v, off, size, k - 1);
                    let c = ch@[k - 1];
                    let co = child_offset(off, size, k - 1);
                    let cs = child_size(size, k - 1);
                    let cpath = path.push((k - 1) as usize);
                    let ck = c.kids().len() as int;
                    assert(c.wf(co, cs));
                    assert(v.kids() == ch@);
                    lemma_child_within(off, size, k - 1);
                    assert(c.items_upto(ck) == c.items());
                    lemma_leaves(c, co, cs, cpath, ck);
                    lemma_items(c, co, cs, N as int);
                    let pre = v.leaves_upto(path, k - 1);
                    let cl = c.leaves_upto(cpath, ck);
                    let q = v.leaves_upto(path, k);
                    assert(q == pre + cl);
                    assert forall|p: Seq<u64>| #[trigger] c.items().contains_key(p) implies child_index(p, off, size)
                        == k - 1 by {
                        lemma_child_unique(p, off, size, k - 1);
                    }
                    assert forall|i: int| 0 <= i < q.len() implies {
                        let x = (#[trigger] q[i]).1;
                        &&& v.items_upto(k).contains_key(x.location())
                        &&& v.items_upto(k)[x.location()] == x
                    } by {
                        if i < pre.len() {
                            assert(q[i] == pre[i]);
                            let l = pre[i].1.location();
                            assert(v.items_upto(k - 1).contains_key(l));
                            assert(v.items_upto(k).contains_key(l));
                            assert(v.items_upto(k)[l] == v.kids()[child_index(l, off, size)].items()[l]);
                        } else {
                            assert(q[i] == cl[i - pre.len()]);
                            let l = cl[i - pre.len()].1.location();
                            assert(c.items().contains_key(l));
                            assert(child_index(l, off, size) == k - 1);
                            assert(v.items_upto(k).contains_key(l));
                        }
                    }
                    assert forall|p: Seq<u64>| #[trigger] v.items_upto(k).contains_key(p) implies exists|i: int|
                        0 <= i < q.len() && (#[trigger] q[i]).1.location() == p by {
                        if child_index(p, off, size) < k - 1 {
                            assert(v.items_upto(k - 1).contains_key(p));
                            let i = choose|i: int| 0 <= i < pre.len() && (#[trigger] pre[i]).1.location() == p;
                            assert(q[i] == pre[i]);
                        } else {
                            assert(c.items().contains_key(p));
                            let j = choose|j: int| 0 <= j < cl.len() && (#[trigger] cl[j]).1.location() == p;
                            assert(q[pre.len() + j] == cl[j]);
                        }
                    }
                    assert forall|i: int, j: int|
                        0 <= i < q.len() && 0 <= j < q.len() && i != j implies (#[trigger] q[i]).1.location()
                        != (#[trigger] q[j]).1.location() by {
                        if i < pre.len() && j < pre.len() {
                            assert(q[i] == pre[i] && q[j] == pre[j]);
                        } else if i >= pre.len() && j >= pre.len() {
                            assert(q[i] == cl[i - pre.len()] && q[j] == cl[j - pre.len()]);
                        } else if i < pre.len() {
                            assert(q[i] == pre[i] && q[j] == cl[j - pre.len()]);
                            assert(v.items_upto(k - 1).contains_key(pre[i].1.location()));
                            assert(c.items().contains_key(cl[j - pre.len()].1.location()));
                            assert(child_index(pre[i].1.location(), off, size) < k - 1);
                        } else {
                            assert(q[j] == pre[j] && q[i] == cl[i - pre.len()]);
                            assert(v.items_upto(k - 1).contains_key(pre[j].1.location()));
                            assert(c.items().contains_key(cl[i - pre.len()].1.location()));
                            assert(child_index(pre[j].1.location(), off, size) < k - 1);
                        }
                    }
                }
            },
        },
    }
}

/// Each leaf's path leads to a region that holds its item and no other
/// stored position, while the region one level up holds another one.
pub proof fn lemma_leaf_paths<T: Locatable>(
    v: Voxel<T>,
    domain: Seq<u64>,
    path: Seq<usize>,
    k: int,
)
    requires
        v.wf(region_of_path(domain, path).0, region_of_path(domain, path).1),
        v.compact(),
        region_fits(region_of_path(domain, path).0, region_of_path(domain, path).1),
        0 <= k <= N,
    ensures
        forall|i: int|
            0 <= i < v.leaves_upto(path, k).len() ==> {
                let e = #[trigger] v.leaves_upto(path, k)[i];
                &&& forall|j: int| path.len() <= j < e.0.len() ==> #[trigger] e.0[j] < N
                &&& e.0.len() >= path.len()
                &&& e.0.subrange(0, path.len() as int) == path
                &&& on_path(domain, e.0, e.1.location())
                &&& forall|q: Seq<u64>|
                    on_path(domain, e.0, q) ==> on_path(domain, path, q)
                &&& forall|q: Seq<u64>|
                    #[trigger] v.items().contains_key(q) && on_path(domain, e.0, q) ==> q == e.1.location()
                &&& e.0.len() > path.len() ==> exists|q: Seq<u64>|
                    #[trigger] v.items().contains_key(q) && q != e.1.location() && on_path(
                        domain,
                        e.0.drop_last(),
                        q,
                    )
            },
    decreases v, k,
{
    let off = region_of_path(domain, path).0;
    let size = region_of_path(domain, path).1;
    lemma_items(v, off, size, N as int);
    match v.0 {
        None => {
            assert(v.leaves_upto(path, k) =~= Seq::empty());
        },
        Some(b) => match *b {
            RawVoxel::Value(x) => {
                assert(v.items() =~= map![x.location() => x]);
                assert(v.leaves_upto(path, k) =~= seq![(path, x)]);
                assert(v.leaves_upto(path, k)[0] == (path, x));
                assert(path.subrange(0, path.len() as int) =~= path);
            },
            RawVoxel::SubCell(ch) => {
                if k == 0 {
                    assert(v.leaves_upto(path, k) =~= Seq::empty());
                } else {
                    lemma_leaf_paths(v, domain, path, k - 1);
                    let c = ch@[k - 1];
                    let cpath = path.push((k - 1) as usize);
                    assert(cpath.drop_last() =~= path);
                    let co = child_offset(off, size, k - 1);
                    let cs = child_size(size, k - 1);
                    assert(region_of_path(domain, cpath) == (co, cs));
                    let ck = c.kids().len() as int;
                    assert(c.wf(co, cs));
                    assert(c.compact());
                    assert(v.kids() == ch@);
                    lemma_child_within(off, size, k - 1);
                    lemma_leaf_paths(c, domain, cpath, ck);
                    lemma_items(c, co, cs, N as int);
                    let pre = v.leaves_upto(path, k - 1);
                    let cl = c.leaves_upto(cpath, ck);
                    let q = v.leaves_upto(path, k);
                    assert(q == pre + cl);
                    assert forall|x: Seq<u64>| #[trigger] c.items().contains_key(x) implies v.items().contains_key(x)
                        by {
                        lemma_child_unique(x, off, size, k - 1);
                    }
                    let (a1, b1) = choose|a1: Seq<u64>, b1: Seq<u64>|
                        a1 != b1 && #[trigger] v.items().contains_key(a1) && #[trigger] v.items().contains_key(b1);
                    assert forall|i: int| 0 <= i < q.len() implies {
                        let e = #[trigger] q[i];
                        &&& forall|j: int| path.len() <= j < e.0.len() ==> #[trigger] e.0[j] < N
                        &&& e.0.len() >= path.len()
                        &&& e.0.subrange(0, path.len() as int) == path
                        &&& on_path(domain, e.0, e.1.location())
                        &&& forall|y: Seq<u64>| on_path(domain, e.0, y) ==> on_path(domain, path, y)
                        &&& forall|y: Seq<u64>|
                            #[trigger] v.items().contains_key(y) && on_path(domain, e.0, y) ==> y == e.1.location()
                        &&& e.0.len() > path.len() ==> exists|y: Seq<u64>|
                            #[trigger] v.items().contains_key(y) && y != e.1.location() && on_path(
                                domain,
                                e.0.drop_last(),
                                y,
                            )
                    } by {
                        if i < pre.len() {
                            assert(q[i] == pre[i]);
                        } else {
                            let e = cl[i - pre.len()];
                            assert(q[i] == e);
                            assert(e.0.subrange(0, cpath.len() as int) == cpath);
                            assert(e.0.subrange(0, path.len() as int) =~= cpath.subrange(0, path.len() as int));
                            assert(cpath.subrange(0, path.len() as int) =~= path);
                            assert forall|j: int| path.len() <= j < e.0.len() implies #[trigger] e.0[j] < N by {
                                if j == path.len() {
                                    assert(e.0[j] == e.0.subrange(0, cpath.len() as int)[j]);
                                }
                            }
                            assert forall|y: Seq<u64>| on_path(domain, e.0, y) implies on_path(domain, path, y) by {
                                assert(on_path(domain, cpath, y));
                            }
                            assert forall|y: Seq<u64>|
                                #[trigger] v.items().contains_key(y) && on_path(domain, e.0, y) implies y
                                == e.1.location() by {
                                assert(on_path(domain, cpath, y));
                                lemma_child_unique(y, off, size, k - 1);
                                assert(c.items().contains_key(y));
                            }
                            if e.0.len() > cpath.len() {
                                let y = choose|y: Seq<u64>|
                                    #[trigger] c.items().contains_key(y) && y != e.1.location() && on_path(
                                        domain,
                                        e.0.drop_last(),
                                        y,
                                    );
                                assert(v.items().contains_key(y));
                            } else {
                                assert(e.0 =~= cpath) by {
                                    assert(e.0 =~= e.0.subrange(0, cpath.len() as int));
                                }
                                assert(e.0.drop_last() =~= path);
                                if a1 != e.1.location() {
                                    assert(on_path(domain, path, a1));
                                } else {
                                    assert(on_path(domain, path, b1));
                                }
                            }
                        }
                    }
                }
            },
        },
    }
}

/// Inserts `value` under `voxel`, whose region is `(off, size)`.
fn add_to<T: Locatable>(voxel: &mut Voxel<T>, off: Point, size: Point, value: T) -> (r: Result<(), InsertError>)
    requires
        old(voxel).wf(off@, size@),
        old(voxel).compact(),
        region_fits(off@, size@),
        in_region(value.location(), off@, size@),
    ensures
        final(voxel).wf(off@, size@),
        final(voxel).compact(),
        old(voxel).items().contains_key(value.location()) ==> r == Err::<(), InsertError>(InsertError::DuplicatePosition)
            && *final(voxel) == *old(voxel),
        !old(voxel).items().contains_key(value.location()) && old(voxel).0 is None ==> final(voxel).0 == Some(
            Box::new(RawVoxel::Value(value)),
        ),
        !old(voxel).items().contains_key(value.location()) && old(voxel).0 is Some ==> final(voxel).is_internal(),
        old(voxel).is_internal() ==> final(voxel).kids().len() == N && forall|j: int|
            0 <= j < N && j != child_index(value.location(), off@, size@) ==> #[trigger] final(voxel).kids()[j]
                == old(voxel).kids()[j],
        !old(voxel).items().contains_key(value.location()) ==> r == Ok::<(), InsertError>(())
            && final(voxel).items() == old(voxel).items().insert(value.location(), value),
    decreases *old(voxel),
{
    let ghost old_v = *voxel;
    let ghost p = value.location();
    proof {
        lemma_items(old_v, off@, size@, N as int);
    }
    if contains_in(voxel, off, size, value.position()) {
        return Err(InsertError::DuplicatePosition);
    }
    let cur = voxel.0.take();
    match cur {
        None => {
            *voxel = Voxel::value(value);
            proof {
                assert(old_v.items() =~= Map::empty());
                assert(voxel.items() =~= Map::<Seq<u64>, T>::empty().insert(p, value));
            }
            Ok(())
        },
        Some(b) => {
            match *b {
                RawVoxel::Value(existing) => {
                    let ghost q = existing.location();
                    proof {
                        assert(old_v.items() =~= map![q => existing]);
                    }
                    *voxel = split(existing, value, off, size);
                    proof {
                        assert(voxel.items() =~= old_v.items().insert(p, value));
                    }
                    Ok(())
                },
                RawVoxel::SubCell(mut ch) => {
                    let (ci, co, cs) = child_of(value.position(), &off, &size);
                    proof {
                        lemma_child_index(p, off@, size@);
                        lemma_child_within(off@, size@, ci as int);
                        assert(ch@[ci as int].wf(co@, cs@));
                    }
                    let ghost old_c = ch@[ci as int];
                    let ghost ch0 = ch@;
                    assert(old_v.kids() == ch0);
                    let r = add_to(&mut ch[ci], co, cs, value);
                    *voxel = Voxel(Some(Box::new(RawVoxel::SubCell(ch))));
                    proof {
                        let nv = *voxel;
                        assert(nv.kids() == ch0.update(ci as int, ch@[ci as int]));
                        assert forall|i: int| 0 <= i < N implies (#[trigger] ch@[i]).wf(
                            child_offset(off@, size@, i),
                            child_size(size@, i),
                        ) by {
                            if i != ci {
                                assert(ch@[i] == old_v.kids()[i]);
                            }
                        }
                        assert(nv.wf(off@, size@));
                        lemma_items(nv, off@, size@, N as int);
                        {
                            assert(!old_c.items().contains_key(p));
                            let m = old_v.items().insert(p, value);
                            assert forall|x: Seq<u64>| nv.items().contains_key(x) <==> m.contains_key(x) by {
                                if in_region(x, off@, size@) && child_index(x, off@, size@) != ci {
                                    lemma_child_index(x, off@, size@);
                                    assert(nv.kids()[child_index(x, off@, size@)] == old_v.kids()[child_index(x, off@, size@)]);
                                }
                            }
                            assert forall|x: Seq<u64>| #[trigger] nv.items().contains_key(x) implies nv.items()[x] == m[x] by {
                                let cx = child_index(x, off@, size@);
                                lemma_child_index(x, off@, size@);
                                assert(nv.items()[x] == nv.kids()[cx].items()[x]);
                                if cx != ci {
                                    assert(nv.kids()[cx] == old_v.kids()[cx]);
                                    assert(x != p);
                                    assert(old_v.items().contains_key(x));
                                } else if x != p {
                                    assert(nv.kids()[cx].items()[x] == old_c.items()[x]);
                                    assert(old_v.items().contains_key(x));
                                }
                            }
                            assert(nv.items() =~= m);
                            let (a1, b1) = choose|a1: Seq<u64>, b1: Seq<u64>|
                                a1 != b1 && #[trigger] old_v.items().contains_key(a1)
                                    && #[trigger] old_v.items().contains_key(b1);
                            assert(nv.items().contains_key(a1) && nv.items().contains_key(b1));
                            assert forall|i: int| 0 <= i < ch@.len() implies (#[trigger] ch@[i]).compact() by {
                                if i != ci {
                                    assert(ch@[i] == old_v.kids()[i]);
                                }
                            }
                            assert(nv.compact());
                        }
                    }
                    r
                },
            }
        },
    }
}

/// A subtree for the region `(off, size)` that holds exactly `a` and `b`.
fn split<T: Locatable>(a: T, b: T, off: Point, size: Point) -> (r: Voxel<T>)
    requires
        region_fits(off@, size@),
        in_region(a.location(), off@, size@),
        in_region(b.location(), off@, size@),
        a.location() != b.location(),
    ensures
        r.wf(off@, size@),
        r.compact(),
        r.items() == map![a.location() => a].insert(b.location(), b),
        r.is_internal(),
        r.kids().len() == N,
        ({
            let ia = child_index(a.location(), off@, size@);
            let ib = child_index(b.location(), off@, size@);
            &&& ia != ib ==> r.kids()[ia].0 == Some(Box::new(RawVoxel::Value(a)))
            &&& ia != ib ==> r.kids()[ib].0 == Some(Box::new(RawVoxel::Value(b)))
            &&& ia == ib ==> r.kids()[ia].is_internal()
            &&& forall|j: int| 0 <= j < N && j != ia && j != ib ==> (#[trigger] r.kids()[j]).0 is None
        }),
    decreases size_sum(size@, D as int),
{
    let ghost pa = a.location();
    let ghost pb = b.location();
    let ap = a.position();
    let bp = b.position();
    assert(ap@.len() == D && bp@.len() == D);
    let (ia, ao, asz) = child_of(ap, &off, &size);
    let (ib, _, _) = child_of(bp, &off, &size);
    proof {
        lemma_child_index(pa, off@, size@);
        lemma_child_index(pb, off@, size@);
        lemma_child_within(off@, size@, ia as int);
        lemma_child_within(off@, size@, ib as int);
    }
    let mut ch: Vec<Voxel<T>> = empty_children();
    if ia == ib {
        proof {
            lemma_child_shrinks(pa, pb, off@, size@, ia as int);
        }
        ch[ia] = split(a, b, ao, asz);
    } else {
        ch[ia] = Voxel::value(a);
        ch[ib] = Voxel::value(b);
    }
    let r = Voxel(Some(Box::new(RawVoxel::SubCell(ch))));
    proof {
        assert forall|i: int| 0 <= i < N implies (#[trigger] ch@[i]).wf(
            child_offset(off@, size@, i),
            child_size(size@, i),
        ) by {}
        assert(r.wf(off@, size@));
        lemma_items(r, off@, size@, N as int);
        let m = map![pa => a].insert(pb, b);
        assert forall|x: Seq<u64>| r.items().contains_key(x) <==> m.contains_key(x) by {
            if r.items().contains_key(x) {
                let cx = child_index(x, off@, size@);
                if cx != ia && cx != ib {
                    assert(ch@[cx].items() =~= Map::empty());
                }
                if ia != ib && cx == ia {
                    assert(ch@[cx].items() =~= map![pa => a]);
                }
                if ia != ib && cx == ib {
                    assert(ch@[cx].items() =~= map![pb => b]);
                }
            }
            if x == pa {
                if ia != ib {
                    assert(ch@[ia as int].items() =~= map![pa => a]);
                }
            }
            if x == pb {
                if ia != ib {
                    assert(ch@[ib as int].items() =~= map![pb => b]);
                }
            }
        }
        assert forall|x: Seq<u64>| #[trigger] r.items().contains_key(x) implies r.items()[x] == m[x] by {
            let cx = child_index(x, off@, size@);
            if ia != ib && cx == ia {
                assert(ch@[cx].items() =~= map![pa => a]);
            }
            if ia != ib && cx == ib {
                assert(ch@[cx].items() =~= map![pb => b]);
            }
        }
        assert(r.items() =~= m);
        assert(m.contains_key(pa) && m.contains_key(pb));
        assert(r.items().contains_key(pa) && r.items().contains_key(pb));
        assert forall|i: int| 0 <= i < ch@.len() implies (#[trigger] ch@[i]).compact() by {}
        assert(r.compact());
    }
    r
}

/// Whether the node for region `(off, size)` holds an item at `p`.
fn contains_in<T: Locatable>(voxel: &Voxel<T>, off: Point, size: Point, p: &Point) -> (r: bool)
    requires
        voxel.wf(off@, size@),
        region_fits(off@, size@),
        in_region(p@, off@, size@),
    ensures
        r == voxel.items().contains_key(p@),
    decreases voxel,
{
    proof {
        lemma_items(*voxel, off@, size@, N as int);
    }
    match &voxel.0 {
        None => false,
        Some(b) => match &**b {
            RawVoxel::Value(v) => *v.position() == *p,
            RawVoxel::SubCell(ch) => {
                let (ci, co, cs) = child_of(p, &off, &size);
                proof {
                    lemma_child_index(p@, off@, size@);
                    lemma_child_within(off@, size@, ci as int);
                }
                contains_in(&ch[ci], co, cs, p)
            },
        },
    }
}

/// Appends to `out` the items under `voxel`, whose region is `(off, size)`,
/// that lie in `rect`, skipping children whose region misses `rect`.
fn query_in<'a, T: Locatable>(
    voxel: &'a Voxel<T>,
    off: Point,
    size: Point,
    rect: &Rectangle,
    out: &mut Vec<&'a T>,
)
    requires
        voxel.wf(off@, size@),
        region_fits(off@, size@),
    ensures
        derefs(final(out)@) == derefs(old(out)@) + voxel.query(*rect),
    decreases voxel,
{
    match &voxel.0 {
        None => {
            assert(voxel.query(*rect) =~= Seq::empty());
            assert(derefs(out@) =~= derefs(out@) + voxel.query(*rect));
        },
        Some(b) => match &**b {
            RawVoxel::Value(v) => {
                let ghost before = derefs(out@);
                if rect.contains(v.position()) {
                    out.push(v);
                    assert(voxel.query(*rect) =~= seq![*v]);
                    assert(derefs(out@) =~= before + voxel.query(*rect));
                } else {
                    assert(voxel.query(*rect) =~= Seq::empty());
                    assert(derefs(out@) =~= before + voxel.query(*rect));
                }
            },
            RawVoxel::SubCell(ch) => {
                let ghost start = derefs(out@);
                assert(voxel.kids() == ch@);
                let mut i: usize = 0;
                while i < N
                    invariant
                        i <= N,
                        voxel.wf(off@, size@),
                        region_fits(off@, size@),
                        voxel.kids() == ch@,
                        ch@.len() == N,
                        derefs(out@) == start + voxel.query_upto(*rect, i as int),
                    decreases N - i,
                {
                    let (co, cs) = child_region(&off, &size, i);
                    proof {
                        lemma_child_within(off@, size@, i as int);
                    }
                    let c = &ch[i];
                    assert(c.wf(co@, cs@));
                    if rect.overlaps(&co, &cs) {
                        query_in(c, co, cs, rect, out);
                    } else {
                        proof {
                            lemma_query(*c, co@, cs@, *rect, N as int);
                            lemma_items(*c, co@, cs@, N as int);
                            if c.query(*rect).len() > 0 {
                                let x = c.query(*rect)[0];
                                lemma_no_meet(*rect, co@, cs@, x.location());
                            }
                            assert(c.query(*rect) =~= Seq::empty());
                        }
                    }
                    assert(voxel.query_upto(*rect, i + 1) == voxel.query_upto(*rect, i as int) + c.query(*rect));
                    assert(derefs(out@) =~= start + voxel.query_upto(*rect, i + 1));
                    i = i + 1;
                }
            },
        },
    }
}

/// `path` followed by `i`.
fn extend(path: &Vec<usize>, i: usize) -> (r: Vec<usize>)
    ensures
        r@ == path@.push(i),
{
    let mut r: Vec<usize> = Vec::new();
    let mut j: usize = 0;
    while j < path.len()
        invariant
            j <= path@.len(),
            r@ == path@.subrange(0, j as int),
        decreases path@.len() - j,
    {
        r.push(path[j]);
        j = j + 1;
        assert(r@ =~= path@.subrange(0, j as int));
    }
    assert(path@.subrange(0, path@.len() as int) =~= path@);
    r.push(i);
    r
}

/// Appends to `out` every leaf under `voxel`, depth first, with its path
/// from the root (`path` leads to `voxel`).
fn leaves_in<'a, T: Locatable>(voxel: &'a Voxel<T>, path: Vec<usize>, out: &mut Vec<(Vec<usize>, &'a T)>)
    ensures
        listing_view(final(out)@) == listing_view(old(out)@) + voxel.leaves_upto(path@, voxel.kids().len() as int),
    decreases voxel,
{
    match &voxel.0 {
        None => {
            assert(listing_view(out@) =~= listing_view(out@) + voxel.leaves_upto(path@, 0));
        },
        Some(b) => match &**b {
            RawVoxel::Value(v) => {
                let ghost before = listing_view(out@);
                let ghost pv = path@;
                out.push((path, v));
                assert(voxel.leaves_upto(pv, 0) =~= seq![(pv, *v)]);
                assert(listing_view(out@) =~= before + voxel.leaves_upto(pv, 0));
            },
            RawVoxel::SubCell(ch) => {
                let ghost start = listing_view(out@);
                let mut i: usize = 0;
                while i < ch.len()
                    invariant
                        i <= ch@.len(),
                        voxel.kids() == ch@,
                        listing_view(out@) == start + voxel.leaves_upto(path@, i as int),
                    decreases ch@.len() - i,
                {
                    let sub = extend(&path, i);
                    leaves_in(&ch[i], sub, out);
                    assert(voxel.leaves_upto(path@, i + 1) == voxel.leaves_upto(path@, i as int) + ch@[i as int].leaves_upto(
                        path@.push(i),
                        ch@[i as int].kids().len() as int,
                    ));
                    assert(listing_view(out@) =~= start + voxel.leaves_upto(path@, i + 1));
                    i = i + 1;
                }
            },
        },
    }
}

/// What `add` makes of the contents `m` of a tree with domain `domain`: the
/// item is stored when its position lies in the domain and is still free.
pub open spec fn model_add<T: Locatable>(m: Map<Seq<u64>, T>, domain: Seq<u64>, item: T) -> Map<Seq<u64>, T> {
    if in_region(item.location(), origin(), domain) && !m.contains_key(item.location()) {
        m.insert(item.location(), item)
    } else {
        m
    }
}

/// The contents after adding `items` to `m`, first to last.
pub open spec fn model_add_all<T: Locatable>(m: Map<Seq<u64>, T>, domain: Seq<u64>, items: Seq<T>) -> Map<
    Seq<u64>,
    T,
>
    decreases items.len(),
{
    if items.len() == 0 {
        m
    } else {
        model_add(model_add_all(m, domain, items.drop_last()), domain, items.last())
    }
}

/// A spatial index over the box `[0, size)`, holding at most one item per
/// position.
pub struct Tree<T> {
    size: Point,
    root: Voxel<T>,
}

impl<T: Locatable> View for Tree<T> {
    type V = Map<Seq<u64>, T>;

    /// The stored items, keyed by position.
    closed spec fn view(&self) -> Map<Seq<u64>, T> {
        self.root.items()
    }
}

impl<T: Locatable> Tree<T> {
    /// The extent of the domain in each dimension.
    pub closed spec fn domain(self) -> Seq<u64> {
        self.size@
    }

    /// The tree's internal invariant.
    pub closed spec fn wf(self) -> bool {
        &&& self.root.wf(origin(), self.size@)
        &&& self.root.compact()
    }

    /// Every stored item with the child indices leading to its leaf, in the
    /// order `leaves` lists them.
    pub closed spec fn listing(self) -> Seq<(Seq<usize>, T)> {
        self.root.leaves_upto(Seq::empty(), self.root.kids().len() as int)
    }

    /// The items in `rect`, in the order a query returns them.
    pub closed spec fn found(self, rect: Rectangle) -> Seq<T> {
        self.root.query(rect)
    }

    /// An empty tree over the domain `[0, size)`.
    pub fn new(size: Point) -> (r: Self)
        ensures
            r.wf(),
            r@ == Map::<Seq<u64>, T>::empty(),
            r.domain() == size@,
    {
        let r = Tree { size: size, root: Voxel(None) };
        assert(r@ =~= Map::<Seq<u64>, T>::empty());
        r
    }

    /// Stores `item`. Refused with `OutOfDomain` when its position lies
    /// outside `[0, size)`, and with `DuplicatePosition` when an item with the
    /// same position is already stored; the tree is then unchanged.
    pub fn add(&mut self, item: T) -> (r: Result<(), InsertError>)
        requires
            old(self).wf(),
        ensures
            final(self).wf(),
            final(self).domain() == old(self).domain(),
            final(self)@ == model_add(old(self)@, old(self).domain(), item),
            !in_region(item.location(), origin(), old(self).domain()) ==> r == Err::<(), InsertError>(
                InsertError::OutOfDomain,
            ),
            in_region(item.location(), origin(), old(self).domain()) && old(self)@.contains_key(item.location())
                ==> r == Err::<(), InsertError>(InsertError::DuplicatePosition),
            in_region(item.location(), origin(), old(self).domain()) && !old(self)@.contains_key(item.location())
                ==> r == Ok::<(), InsertError>(()),
    {
        let zero = Point::zero();
        assert(zero@ =~= origin());
        if !within(item.position(), &zero, &self.size) {
            return Err(InsertError::OutOfDomain);
        }
        add_to(&mut self.root, zero, self.size, item)
    }

    /// Whether an item is stored at exactly `p`.
    pub fn contains(&self, p: Point) -> (r: bool)
        requires
            self.wf(),
        ensures
            r == self@.contains_key(p@),
    {
        let zero = Point::zero();
        assert(zero@ =~= origin());
        proof {
            lemma_items(self.root, origin(), self.size@, N as int);
        }
        if !within(&p, &zero, &self.size) {
            return false;
        }
        contains_in(&self.root, zero, self.size, &p)
    }

    /// Every stored item with the child indices leading from the root to
    /// its leaf, depth first with children in ascending index order.
    pub fn leaves<'a>(&'a self) -> (r: Vec<(Vec<usize>, &'a T)>)
        requires
            self.wf(),
        ensures
            listing_view(r@) == self.listing(),
            forall|i: int|
                0 <= i < r@.len() ==> {
                    let e = #[trigger] listing_view(r@)[i];
                    leaf_path_of(self.domain(), self@.dom(), e.0, e.1.location())
                },
            forall|i: int|
                0 <= i < r@.len() ==> {
                    let x = (#[trigger] listing_view(r@)[i]).1;
                    &&& self@.contains_key(x.location())
                    &&& self@[x.location()] == x
                },
            forall|p: Seq<u64>|
                #[trigger] self@.contains_key(p) ==> exists|i: int|
                    0 <= i < r@.len() && (#[trigger] listing_view(r@)[i]).1.location() == p,
            forall|i: int, j: int|
                0 <= i < r@.len() && 0 <= j < r@.len() && i != j ==> (#[trigger] listing_view(r@)[i]).1.location()
                    != (#[trigger] listing_view(r@)[j]).1.location(),
    {
        proof {
            lemma_leaves(self.root, origin(), self.size@, Seq::empty(), self.root.kids().len() as int);
            assert(region_of_path(self.size@, Seq::empty()) == (origin(), self.size@));
            lemma_leaf_paths(self.root, self.size@, Seq::empty(), self.root.kids().len() as int);
            assert(self.root.items_upto(self.root.kids().len() as int) == self.root.items());
        }
        let mut out: Vec<(Vec<usize>, &'a T)> = Vec::new();
        let path: Vec<usize> = Vec::new();
        assert(path@ =~= Seq::<usize>::empty());
        leaves_in(&self.root, path, &mut out);
        assert(listing_view(out@) =~= self.listing());
        proof {
            let l = self.root.leaves_upto(Seq::empty(), self.root.kids().len() as int);
            assert forall|i: int| 0 <= i < out@.len() implies {
                let e = #[trigger] listing_view(out@)[i];
                leaf_path_of(self.domain(), self@.dom(), e.0, e.1.location())
            } by {
                assert(listing_view(out@)[i] == l[i]);
                let e = l[i];
                assert forall|q: Seq<u64>| #[trigger] self@.dom().contains(q) && on_path(self.domain(), e.0, q)
                    implies q == e.1.location() by {
                    assert(self.root.items().contains_key(q));
                }
                if e.0.len() > 0 {
                    let q = choose|q: Seq<u64>|
                        #[trigger] self.root.items().contains_key(q) && q != e.1.location() && on_path(
                            self.domain(),
                            e.0.drop_last(),
                            q,
                        );
                    assert(self@.dom().contains(q));
                }
            }
        }
        out
    }

    /// The stored items whose position lies in `rect`, each once, depth
    /// first with children in ascending index order.
    pub fn query_intersecting<'a>(&'a self, rect: &Rectangle) -> (r: Vec<&'a T>)
        requires
            self.wf(),
        ensures
            derefs(r@) == self.found(*rect),
            forall|i: int|
                0 <= i < r@.len() ==> {
                    let x = #[trigger] derefs(r@)[i];
                    &&& rect.holds(x.location())
                    &&& self@.contains_key(x.location())
                    &&& self@[x.location()] == x
                },
            forall|p: Seq<u64>|
                #[trigger] self@.contains_key(p) && rect.holds(p) ==> exists|i: int|
                    0 <= i < r@.len() && (#[trigger] derefs(r@)[i]).location() == p,
            forall|i: int, j: int|
                0 <= i < r@.len() && 0 <= j < r@.len() && i != j ==> (#[trigger] derefs(r@)[i]).location()
                    != (#[trigger] derefs(r@)[j]).location(),
    {
        let zero = Point::zero();
        assert(zero@ =~= origin());
        let mut out: Vec<&'a T> = Vec::new();
        assert(derefs(out@) =~= Seq::empty());
        query_in(&self.root, zero, self.size, rect, &mut out);
        proof {
            lemma_query(self.root, origin(), self.size@, *rect, N as int);
            assert(derefs(out@) =~= self.root.query(*rect));
        }
        out
    }
}

/// Round trip: after adding items with distinct positions inside the domain
/// to an empty tree, the tree holds a position exactly when one of the items
/// has it, and holds that item there.
pub proof fn lemma_round_trip<T: Locatable>(domain: Seq<u64>, items: Seq<T>, p: Seq<u64>)
    requires
        forall|i: int| 0 <= i < items.len() ==> in_region(#[trigger] items[i].location(), origin(), domain),
        forall|i: int, j: int|
            0 <= i < j < items.len() ==> (#[trigger] items[i]).location() != (#[trigger] items[j]).location(),
    ensures
        model_add_all(Map::empty(), domain, items).contains_key(p) <==> exists|i: int|
            0 <= i < items.len() && (#[trigger] items[i]).location() == p,
        forall|i: int|
            0 <= i < items.len() ==> model_add_all(Map::empty(), domain, items)[#[trigger] items[i].location()]
                == items[i],
    decreases items.len(),
{
    if items.len() > 0 {
        let init = items.drop_last();
        lemma_round_trip(domain, init, p);
        let m0 = model_add_all(Map::empty(), domain, init);
        let last = items.last();
        assert forall|i: int| 0 <= i < init.len() implies m0.contains_key(#[trigger] init[i].location()) by {
            lemma_round_trip(domain, init, init[i].location());
        }
        assert(!m0.contains_key(last.location())) by {
            if m0.contains_key(last.location()) {
                lemma_round_trip(domain, init, last.location());
                let i = choose|i: int| 0 <= i < init.len() && (#[trigger] init[i]).location() == last.location();
                assert(items[i] == init[i]);
            }
        }
        assert(in_region(items[items.len() - 1].location(), origin(), domain));
        if exists|i: int| 0 <= i < items.len() && (#[trigger] items[i]).location() == p {
            let i = choose|i: int| 0 <= i < items.len() && (#[trigger] items[i]).location() == p;
            if i < items.len() - 1 {
                assert(init[i] == items[i]);
            }
        }
        if exists|i: int| 0 <= i < init.len() && (#[trigger] init[i]).location() == p {
            let i = choose|i: int| 0 <= i < init.len() && (#[trigger] init[i]).location() == p;
            assert(items[i] == init[i]);
        }
        assert forall|i: int| 0 <= i < items.len() implies model_add_all(Map::empty(), domain, items)[
            #[trigger] items[i].location()] == items[i] by {
            if i < items.len() - 1 {
                assert(init[i] == items[i]);
            }
        }
    }
}

/// Every stored item lies in the box spanning the whole domain, so a query
/// over that box returns every stored item.
pub proof fn lemma_full_domain<T: Locatable>(t: Tree<T>, rect: Rectangle, p: Seq<u64>)
    requires
        t.wf(),
        rect.min@ == origin(),
        rect.max@ == t.domain(),
        t@.contains_key(p),
    ensures
        rect.holds(p),
{
    lemma_items(t.root, origin(), t.size@, N as int);
}

/// A domain with no extent in some dimension holds no position: every
/// insertion into it is refused with `OutOfDomain`.
pub proof fn lemma_empty_domain(domain: Seq<u64>, p: Seq<u64>)
    requires
        exists|i: int| 0 <= i < D && #[trigger] domain[i] == 0,
    ensures
        !in_region(p, origin(), domain),
{
    let i = choose|i: int| 0 <= i < D && #[trigger] domain[i] == 0;
    assert(origin()[i] == 0);
    assert(!(origin()[i] <= p[i] && p[i] < origin()[i] + domain[i]));
}

} // verus!
