//! The search engine: capability traits for node references, costs and
//! per-node scratch storage, and the incremental uniform-cost path finder.

use vstd::prelude::*;

verus! {

use core::cmp::Ordering;
use vstd::set_lib::lemma_len_subset;

/// An absolute, accumulated cost value.
///
/// A comparison context travels alongside every cost comparison, so the
/// ordering may depend on auxiliary state; the grid realization uses a
/// trivial unit context.
pub trait AbsoluteCost: Sized + Copy {
    type CmpContext;

    /// Whether `self` orders at or below `other` under context `ctx`.
    spec fn le_spec(&self, other: &Self, ctx: &Self::CmpContext) -> bool;

    /// The cost of the empty path.
    spec fn zero_spec() -> Self;

    /// The cost reached by extending a path of cost `self` by an edge of
    /// cost `delta`.
    spec fn add_spec(&self, delta: &Self) -> Self;

    /// The ordering is total.
    proof fn lemma_le_total(a: &Self, b: &Self, ctx: &Self::CmpContext)
        ensures
            a.le_spec(b, ctx) || b.le_spec(a, ctx),
    ;

    /// The ordering is transitive.
    proof fn lemma_le_trans(a: &Self, b: &Self, c: &Self, ctx: &Self::CmpContext)
        requires
            a.le_spec(b, ctx),
            b.le_spec(c, ctx),
        ensures
            a.le_spec(c, ctx),
    ;

    fn context_cmp(&self, other: &Self, ctx: &Self::CmpContext) -> (r: Ordering)
        ensures
            self.le_spec(other, ctx) <==> r != Ordering::Greater,
    ;

    fn zero_cost() -> (r: Self)
        ensures
            r == Self::zero_spec(),
    ;

    fn add_cost(&self, delta: &Self) -> (r: Self)
        ensures
            r == self.add_spec(delta),
    ;
}

/// A relative change in cost: the per-edge weight a map hands out.
pub trait RelativeCost: Sized + Copy {

}

impl RelativeCost for usize {

}

impl AbsoluteCost for usize {
    type CmpContext = ();

    open spec fn le_spec(&self, other: &Self, ctx: &()) -> bool {
        *self <= *other
    }

    open spec fn zero_spec() -> usize {
        0
    }

    /// Addition saturates at the machine limit instead of wrapping.
    open spec fn add_spec(&self, delta: &Self) -> usize {
        if *self + *delta <= usize::MAX {
            (*self + *delta) as usize
        } else {
            usize::MAX
        }
    }

    proof fn lemma_le_total(a: &usize, b: &usize, ctx: &()) {
    }

    proof fn lemma_le_trans(a: &usize, b: &usize, c: &usize, ctx: &()) {
    }

    fn context_cmp(&self, other: &Self, ctx: &()) -> (r: Ordering) {
        if *self < *other {
            Ordering::Less
        } else if *self == *other {
            Ordering::Equal
        } else {
            Ordering::Greater
        }
    }

    fn zero_cost() -> (r: usize) {
        0
    }

    fn add_cost(&self, delta: &Self) -> (r: usize) {
        if *delta <= usize::MAX - *self {
            *self + *delta
        } else {
            usize::MAX
        }
    }
}

/// Requirements on the values used to reference nodes of a map: copyable,
/// equality-comparable handles.
pub trait NodeReference: Sized + Copy {
    /// Decides equality of two node references.
    fn node_eq(&self, other: &Self) -> (r: bool)
        ensures
            r <==> *self == *other,
    ;
}

/// Per-node scratch storage: a container holding one value of type `T` for
/// every node its map addresses.
pub trait MapStorage<T: Copy>: Sized {
    type Reference: NodeReference;

    /// Structural well-formedness of the container.
    spec fn wf(&self) -> bool;

    /// The set of node references the storage has a slot for.
    spec fn dom(&self) -> Set<Self::Reference>;

    /// The stored value at each slot.
    spec fn contents(&self) -> Map<Self::Reference, T>;

    /// A well-formed storage addresses finitely many nodes.
    proof fn lemma_wf_dom(&self)
        requires
            self.wf(),
        ensures
            self.dom().finite(),
    ;

    fn is_valid(&self, node: Self::Reference) -> (r: bool)
        requires
            self.wf(),
        ensures
            r <==> self.dom().contains(node),
    ;

    fn get(&self, node: Self::Reference) -> (r: T)
        requires
            self.wf(),
            self.dom().contains(node),
        ensures
            r == self.contents()[node],
    ;

    fn set(&mut self, node: Self::Reference, value: T)
        requires
            old(self).wf(),
            old(self).dom().contains(node),
        ensures
            final(self).wf(),
            final(self).dom() == old(self).dom(),
            final(self).contents() == old(self).contents().insert(node, value),
    ;
}

/// An explorable map: validity checks and neighbor enumeration with a
/// per-edge cost.
pub trait MapTrait: Sized {
    /// The type that can be used to reference nodes in the map.
    type Reference: NodeReference;

    /// The per-edge cost the map charges for a move.
    type Cost: RelativeCost;

    /// Structural well-formedness of the map.
    spec fn wf(&self) -> bool;

    /// The set of addressable (in-bounds) node references, traversable or not.
    spec fn nodes(&self) -> Set<Self::Reference>;

    /// The neighbors reachable from `node` in one move, each with the cost
    /// of that move.
    spec fn neighbors(&self, node: Self::Reference) -> Seq<(Self::Reference, Self::Cost)>;

    /// Every neighbor a well-formed map yields is itself addressable.
    proof fn lemma_neighbors_in_nodes(&self, node: Self::Reference)
        requires
            self.wf(),
            self.nodes().contains(node),
        ensures
            forall|i: int|
                0 <= i < self.neighbors(node).len() ==> self.nodes().contains(
                    #[trigger] self.neighbors(node)[i].0,
                ),
    ;

    /// Check if the provided node reference is valid.
    fn is_valid(&self, node: Self::Reference) -> (r: bool)
        requires
            self.wf(),
        ensures
            r <==> self.nodes().contains(node),
    ;

    /// Return the neighbors of the provided node and the cost required to go
    /// there.
    fn neighbors_of(&self, node: Self::Reference) -> (r: Vec<(Self::Reference, Self::Cost)>)
        requires
            self.wf(),
            self.nodes().contains(node),
        ensures
            r@ == self.neighbors(node),
    ;
}

/// What the search has recorded about one settled node: the accumulated cost
/// to reach it and the predecessor it was reached from (`None` marks the
/// start node).
#[derive(Clone, Copy, Debug, PartialEq, Eq)]
pub struct VisitedItem<C, R> {
    pub cost: C,
    pub from: Option<R>,
}

/// One slot of the search's scratch storage: `None` until the node is
/// settled, then the settled record, never rewritten.
#[derive(Clone, Copy, Debug, PartialEq, Eq)]
pub struct Visited<C, R>(pub Option<VisitedItem<C, R>>);

impl<C, R> Default for Visited<C, R> {
    fn default() -> (r: Self)
        ensures
            r.0 is None,
    {
        Visited(None)
    }
}

/// The entries stored in the frontier priority queue: a candidate expansion
/// of `point` at tentative cost `cost`, reached from `from`.
#[derive(Copy, Clone, Debug)]
pub struct ToVisit<C, R> {
    pub cost: C,
    pub point: R,
    pub from: Option<R>,
}

/// The outcome of a successful search: the ordered node sequence from
/// `start` to `goal` inclusive, and the total cost of walking it.
#[derive(Debug, PartialEq, Eq)]
pub struct PathResult<C, R> {
    pub path: Vec<R>,
    pub start: R,
    pub goal: R,
    pub total_cost: C,
}

/// The mathematical shape of a `PathResult`.
#[verifier::ext_equal]
pub ghost struct PathResultView<C, R> {
    pub path: Seq<R>,
    pub start: R,
    pub goal: R,
    pub total_cost: C,
}

impl<C, R> View for PathResult<C, R> {
    type V = PathResultView<C, R>;

    open spec fn view(&self) -> PathResultView<C, R> {
        PathResultView {
            path: self.path@,
            start: self.start,
            goal: self.goal,
            total_cost: self.total_cost,
        }
    }
}

/// Copies a vector of plain values.
fn copy_vec<T: Copy>(v: &Vec<T>) -> (r: Vec<T>)
    ensures
        r@ == v@,
{
    let mut r: Vec<T> = Vec::new();
    let mut i: usize = 0;
    while i < v.len()
        invariant
            i <= v@.len(),
            r@ == v@.subrange(0, i as int),
        decreases v@.len() - i,
    {
        r.push(v[i]);
        proof {
            assert(r@ =~= v@.subrange(0, i + 1 as int));
        }
        i += 1;
    }
    proof {
        assert(r@ =~= v@);
    }
    r
}

impl<C: Copy, R: Copy> Clone for PathResult<C, R> {
    fn clone(&self) -> (r: Self)
        ensures
            r@ == self@,
    {
        PathResult {
            path: copy_vec(&self.path),
            start: self.start,
            goal: self.goal,
            total_cost: self.total_cost,
        }
    }
}

/// The search's state machine: `Computing` until the frontier either settles
/// the goal (`PathFound`) or runs dry (`NoPathFound`); the two terminal
/// states are sticky.
#[derive(Debug, PartialEq, Eq)]
pub enum PathFinderState<C, R> {
    Computing,
    NoPathFound,
    PathFound(PathResult<C, R>),
}

/// The mathematical shape of a `PathFinderState`.
#[verifier::ext_equal]
pub ghost enum StateView<C, R> {
    Computing,
    NoPathFound,
    PathFound(PathResultView<C, R>),
}

impl<C, R> View for PathFinderState<C, R> {
    type V = StateView<C, R>;

    open spec fn view(&self) -> StateView<C, R> {
        match self {
            PathFinderState::Computing => StateView::Computing,
            PathFinderState::NoPathFound => StateView::NoPathFound,
            PathFinderState::PathFound(res) => StateView::PathFound(res@),
        }
    }
}

impl<C: Copy, R: Copy> Clone for PathFinderState<C, R> {
    fn clone(&self) -> (r: Self)
        ensures
            r@ == self@,
    {
        match self {
            PathFinderState::Computing => PathFinderState::Computing,
            PathFinderState::NoPathFound => PathFinderState::NoPathFound,
            PathFinderState::PathFound(res) => PathFinderState::PathFound(res.clone()),
        }
    }
}

impl<C, R> PathFinderState<C, R> {
    /// Whether the search has reached one of its two terminal states.
    pub fn is_done(&self) -> (r: bool)
        ensures
            r <==> !(self@ is Computing),
    {
        !matches!(self, PathFinderState::Computing)
    }
}

/// A snapshot of everything the search engine knows: its configuration, the
/// per-node scratch storage, the frontier, the order nodes were settled in,
/// and the state machine's position.
#[verifier::ext_equal]
#[verifier::reject_recursive_types(R)]
pub ghost struct PathFinderView<R, K, C> {
    pub start: R,
    pub goal: R,
    pub context: K,
    pub dom: Set<R>,
    pub contents: Map<R, Visited<C, R>>,
    pub frontier: Seq<ToVisit<C, R>>,
    pub settle_order: Seq<R>,
    pub state: StateView<C, R>,
}

impl<R, K, C: AbsoluteCost<CmpContext = K>> PathFinderView<R, K, C> {
    /// Whether `n` has been settled: its storage slot written with a final
    /// cost and predecessor.
    pub open spec fn settled(self, n: R) -> bool {
        self.dom.contains(n) && self.contents[n].0 is Some
    }

    /// The set of settled nodes.
    pub open spec fn settled_set(self) -> Set<R> {
        Set::new(|n: R| self.settled(n))
    }

    /// The index of the lowest-cost entry among the first `n` frontier
    /// entries, earliest first on ties.
    pub open spec fn min_idx_upto(s: Seq<ToVisit<C, R>>, ctx: K, n: int) -> int
        decreases n,
    {
        if n <= 1 {
            0
        } else {
            let m = Self::min_idx_upto(s, ctx, n - 1);
            if s[m].cost.le_spec(&s[n - 1].cost, &ctx) {
                m
            } else {
                n - 1
            }
        }
    }

    /// The index the frontier pops next: the first lowest-cost entry.
    pub open spec fn min_cost_index(s: Seq<ToVisit<C, R>>, ctx: K) -> int {
        Self::min_idx_upto(s, ctx, s.len() as int)
    }

    /// The popped index is in range and its cost is at or below every
    /// other frontier entry's cost.
    pub proof fn lemma_min_cost_index(s: Seq<ToVisit<C, R>>, ctx: K, n: int)
        requires
            1 <= n <= s.len(),
        ensures
            0 <= Self::min_idx_upto(s, ctx, n) < n,
            forall|j: int|
                0 <= j < n ==> Self::min_idx_upto(s, ctx, n) == j || s[Self::min_idx_upto(
                    s,
                    ctx,
                    n,
                )].cost.le_spec(&s[j].cost, &ctx),
        decreases n,
    {
        if n > 1 {
            Self::lemma_min_cost_index(s, ctx, n - 1);
            let m = Self::min_idx_upto(s, ctx, n - 1);
            let k = Self::min_idx_upto(s, ctx, n);
            assert forall|j: int| 0 <= j < n implies k == j || s[k].cost.le_spec(
                &s[j].cost,
                &ctx,
            ) by {
                if j < n - 1 && j != k {
                    if s[m].cost.le_spec(&s[n - 1].cost, &ctx) {
                        assert(k == m);
                    } else {
                        assert(k == n - 1);
                        C::lemma_le_total(&s[m].cost, &s[n - 1].cost, &ctx);
                        if j != m {
                            C::lemma_le_trans(&s[k].cost, &s[m].cost, &s[j].cost, &ctx);
                        }
                    }
                }
            }
        }
    }

    /// The predecessor chain recorded in `contents`, walked backward from
    /// `n` and listed start-first.  `fuel` bounds the walk; any fuel at
    /// least the chain's length gives the full chain.
    pub open spec fn chain(contents: Map<R, Visited<C, R>>, n: R, fuel: nat) -> Seq<R>
        decreases fuel,
    {
        match contents[n].0 {
            Some(item) => match item.from {
                Some(p) => if fuel > 0 {
                    Self::chain(contents, p, (fuel - 1) as nat) + seq![n]
                } else {
                    seq![n]
                },
                None => seq![n],
            },
            None => seq![n],
        }
    }

    /// The frontier entries one settlement pushes: one entry per not-yet-
    /// settled neighbor, in the order the map yields them.
    pub open spec fn push_batch(
        contents: Map<R, Visited<C, R>>,
        dom: Set<R>,
        base: C,
        from: R,
        nbrs: Seq<(R, C)>,
    ) -> Seq<ToVisit<C, R>>
        decreases nbrs.len(),
    {
        if nbrs.len() == 0 {
            Seq::empty()
        } else {
            let prefix = Self::push_batch(contents, dom, base, from, nbrs.drop_last());
            let p = nbrs.last().0;
            let w = nbrs.last().1;
            if dom.contains(p) && contents[p].0 is Some {
                prefix
            } else {
                prefix.push(ToVisit { cost: base.add_spec(&w), point: p, from: Some(from) })
            }
        }
    }

    /// The engine's internal invariant, over the snapshot alone.
    pub open spec fn inv(self) -> bool {
        &&& self.dom.finite()
        &&& self.dom.contains(self.start)
        &&& forall|i: int|
            0 <= i < self.frontier.len() ==> self.dom.contains(#[trigger] self.frontier[i].point)
        &&& forall|i: int|
            0 <= i < self.frontier.len() ==> match #[trigger] self.frontier[i].from {
                Some(p) => self.settled(p),
                None => self.frontier[i].point == self.start,
            }
        &&& self.settle_order.no_duplicates()
        &&& forall|i: int|
            0 <= i < self.settle_order.len() ==> self.settled(#[trigger] self.settle_order[i])
        &&& forall|n: R| self.settled(n) ==> self.settle_order.contains(n)
        &&& forall|i: int|
            0 <= i < self.settle_order.len() ==> match self.contents[#[trigger] self.settle_order[i]].0 {
                Some(item) => match item.from {
                    Some(p) => exists|j: int| 0 <= j < i && self.settle_order[j] == p,
                    None => self.settle_order[i] == self.start,
                },
                None => true,
            }
    }

    /// No more nodes can have been settled than the storage has slots.
    pub proof fn lemma_settle_order_bound(self)
        requires
            self.inv(),
        ensures
            self.settle_order.len() <= self.dom.len(),
    {
        self.settle_order.unique_seq_to_set();
        assert(self.settle_order.to_set() <= self.dom);
        lemma_len_subset(self.settle_order.to_set(), self.dom);
    }

    /// Every batched entry points at one of the neighbors and records the
    /// settled node as its predecessor.
    pub proof fn lemma_push_batch_elems(
        contents: Map<R, Visited<C, R>>,
        dom: Set<R>,
        base: C,
        from: R,
        nbrs: Seq<(R, C)>,
    )
        ensures
            forall|t: int|
                0 <= t < Self::push_batch(contents, dom, base, from, nbrs).len() ==> {
                    let e = #[trigger] Self::push_batch(contents, dom, base, from, nbrs)[t];
                    e.from == Some(from) && exists|u: int|
                        0 <= u < nbrs.len() && nbrs[u].0 == e.point
                },
        decreases nbrs.len(),
    {
        if nbrs.len() > 0 {
            Self::lemma_push_batch_elems(contents, dom, base, from, nbrs.drop_last());
            let whole = Self::push_batch(contents, dom, base, from, nbrs);
            let prefix = Self::push_batch(contents, dom, base, from, nbrs.drop_last());
            assert forall|t: int| 0 <= t < whole.len() implies {
                let e = #[trigger] whole[t];
                e.from == Some(from) && exists|u: int| 0 <= u < nbrs.len() && nbrs[u].0 == e.point
            } by {
                if t < prefix.len() {
                    assert(whole[t] == prefix[t]);
                    let u = choose|u: int|
                        0 <= u < nbrs.drop_last().len() && nbrs.drop_last()[u].0 == prefix[t].point;
                    assert(nbrs[u].0 == whole[t].point);
                } else {
                    assert(whole[t].point == nbrs[nbrs.len() - 1].0);
                }
            }
        }
    }

    /// Discarding a frontier entry (however it was chosen) keeps the
    /// invariant.
    pub proof fn lemma_discard_inv(self, i: int)
        requires
            self.inv(),
            0 <= i < self.frontier.len(),
        ensures
            (Self { frontier: self.frontier.remove(i), ..self }).inv(),
    {
        let v = Self { frontier: self.frontier.remove(i), ..self };
        assert forall|t: int| 0 <= t < v.frontier.len() implies v.dom.contains(
            #[trigger] v.frontier[t].point,
        ) && match v.frontier[t].from {
            Some(p) => v.settled(p),
            None => v.frontier[t].point == v.start,
        } by {
            if t < i {
                assert(v.frontier[t] == self.frontier[t]);
            } else {
                assert(v.frontier[t] == self.frontier[t + 1]);
            }
        }
    }

    /// Settling the not-yet-settled entry at frontier index `i` — removing
    /// it, writing its storage slot and appending it to the settlement
    /// order — keeps the invariant.
    pub proof fn lemma_settle_inv(self, i: int)
        requires
            self.inv(),
            0 <= i < self.frontier.len(),
            !self.settled(self.frontier[i].point),
        ensures
            ({
                let e = self.frontier[i];
                let v = Self {
                    contents: self.contents.insert(
                        e.point,
                        Visited(Some(VisitedItem { cost: e.cost, from: e.from })),
                    ),
                    settle_order: self.settle_order.push(e.point),
                    frontier: self.frontier.remove(i),
                    ..self
                };
                v.inv()
            }),
    {
        let e = self.frontier[i];
        let v = Self {
            contents: self.contents.insert(
                e.point,
                Visited(Some(VisitedItem { cost: e.cost, from: e.from })),
            ),
            settle_order: self.settle_order.push(e.point),
            frontier: self.frontier.remove(i),
            ..self
        };
        let n = self.settle_order.len() as int;

        // old settlements carry over untouched
        assert forall|x: R| self.settled(x) implies v.settled(x) && v.contents[x]
            == self.contents[x] by {
            assert(x != e.point);
        }

        // frontier entries after the removal
        assert forall|t: int| 0 <= t < v.frontier.len() implies v.dom.contains(
            #[trigger] v.frontier[t].point,
        ) && match v.frontier[t].from {
            Some(p) => v.settled(p),
            None => v.frontier[t].point == v.start,
        } by {
            if t < i {
                assert(v.frontier[t] == self.frontier[t]);
            } else {
                assert(v.frontier[t] == self.frontier[t + 1]);
            }
        }

        // the settled node was new to the settlement order
        assert(!self.settle_order.contains(e.point));

        // the settlement order stays duplicate-free
        assert forall|a: int, b: int|
            0 <= a < v.settle_order.len() && 0 <= b < v.settle_order.len() && a != b implies
            v.settle_order[a] != v.settle_order[b] by {
            if a < n && b < n {
                assert(self.settle_order[a] == v.settle_order[a]);
                assert(self.settle_order[b] == v.settle_order[b]);
            } else if a == n {
                assert(v.settle_order[b] == self.settle_order[b]);
                assert(self.settle_order.contains(self.settle_order[b]) == true || b >= n);
            } else {
                assert(v.settle_order[a] == self.settle_order[a]);
            }
        }

        // every order entry is settled
        assert forall|t: int| 0 <= t < v.settle_order.len() implies v.settled(
            #[trigger] v.settle_order[t],
        ) by {
            if t < n {
                assert(self.settled(self.settle_order[t]));
            }
        }

        // every settled node is in the order
        assert forall|x: R| v.settled(x) implies v.settle_order.contains(x) by {
            if x == e.point {
                assert(v.settle_order[n] == x);
                assert(v.settle_order.contains(x));
            } else {
                assert(v.contents[x] == self.contents[x]);
                assert(self.settled(x));
                assert(self.settle_order.contains(x));
                let j = choose|j: int|
                    0 <= j < self.settle_order.len() && self.settle_order[j] == x;
                assert(v.settle_order[j] == x);
                assert(v.settle_order.contains(x));
            }
        }

        // predecessor links stay anchored earlier in the order
        assert forall|t: int| 0 <= t < v.settle_order.len() implies match v.contents[#[trigger] v.settle_order[t]].0 {
            Some(item) => match item.from {
                Some(p) => exists|j: int| 0 <= j < t && v.settle_order[j] == p,
                None => v.settle_order[t] == v.start,
            },
            None => true,
        } by {
            if t < n {
                assert(v.settle_order[t] == self.settle_order[t]);
                assert(self.settled(self.settle_order[t]));
                assert(v.contents[v.settle_order[t]] == self.contents[self.settle_order[t]]);
                match self.contents[self.settle_order[t]].0 {
                    Some(item) => match item.from {
                        Some(p) => {
                            let j = choose|j: int|
                                0 <= j < t && self.settle_order[j] == p;
                            assert(v.settle_order[j] == p);
                        },
                        None => {},
                    },
                    None => {},
                }
            } else {
                assert(v.settle_order[t] == e.point);
                assert(v.contents[e.point].0 == Some(
                    VisitedItem { cost: e.cost, from: e.from },
                ));
                assert(match self.frontier[i].from {
                    Some(q) => self.settled(q),
                    None => self.frontier[i].point == self.start,
                });
                match e.from {
                    Some(p) => {
                        assert(self.settled(p));
                        assert(self.settle_order.contains(p));
                        let j = choose|j: int|
                            0 <= j < self.settle_order.len() && self.settle_order[j] == p;
                        assert(v.settle_order[j] == p);
                    },
                    None => {
                        assert(e.point == self.start);
                    },
                }
            }
        }
    }
}

/// The incremental uniform-cost search engine.
///
/// It owns its frontier and its scratch storage exclusively; a caller
/// advances it one expansion at a time with [`Self::step`] or drains it
/// with [`Self::finish`].
#[verifier::reject_recursive_types(R)]
#[verifier::reject_recursive_types(K)]
#[verifier::reject_recursive_types(C)]
pub struct PathFinder<
    R: NodeReference,
    K,
    C: AbsoluteCost<CmpContext = K> + RelativeCost,
    S: MapStorage<Visited<C, R>, Reference = R>,
    M: MapTrait<Reference = R, Cost = C>,
> {
    start: R,
    goal: R,
    context: K,
    visited: S,
    visit_list: Vec<ToVisit<C, R>>,
    state: PathFinderState<C, R>,
    settle_order: Ghost<Seq<R>>,
    _map: core::marker::PhantomData<M>,
}

impl<
    R: NodeReference,
    K,
    C: AbsoluteCost<CmpContext = K> + RelativeCost,
    S: MapStorage<Visited<C, R>, Reference = R>,
    M: MapTrait<Reference = R, Cost = C>,
> PathFinder<R, K, C, S, M> {
    /// Everything the engine knows, as one mathematical snapshot.
    pub closed spec fn model(&self) -> PathFinderView<R, K, C> {
        PathFinderView {
            start: self.start,
            goal: self.goal,
            context: self.context,
            dom: self.visited.dom(),
            contents: self.visited.contents(),
            frontier: self.visit_list@,
            settle_order: self.settle_order@,
            state: self.state@,
        }
    }

    /// The engine's invariant: a well-formed storage and a coherent
    /// snapshot.
    pub closed spec fn wf(&self) -> bool {
        &&& self.visited.wf()
        &&& self.model().inv()
    }

    /// Whether `m` is a map this engine may step over: every node the map
    /// addresses has a storage slot, and every pending frontier entry names
    /// one of the map's nodes.
    pub closed spec fn compat(&self, m: M) -> bool {
        &&& m.nodes() <= self.visited.dom()
        &&& forall|i: int|
            0 <= i < self.visit_list@.len() ==> m.nodes().contains(
                #[trigger] self.visit_list@[i].point,
            )
    }

    /// How a caller shows an engine and a map fit together: the map's nodes
    /// all have storage slots, and every pending frontier entry names one of
    /// the map's nodes.
    pub proof fn lemma_compat(&self, m: M)
        requires
            m.nodes() <= self.model().dom,
            forall|i: int|
                0 <= i < self.model().frontier.len() ==> m.nodes().contains(
                    #[trigger] self.model().frontier[i].point,
                ),
        ensures
            self.compat(m),
    {
        assert forall|i: int| 0 <= i < self.visit_list@.len() implies m.nodes().contains(
            #[trigger] self.visit_list@[i].point,
        ) by {
            assert(m.nodes().contains(self.model().frontier[i].point));
        }
    }

    /// What one call of [`Self::step`] does to a snapshot.
    pub open spec fn step_model(s: PathFinderView<R, K, C>, m: M) -> PathFinderView<R, K, C> {
        if !(s.state is Computing) {
            s
        } else if s.frontier.len() == 0 {
            PathFinderView { state: StateView::NoPathFound, ..s }
        } else {
            let i = PathFinderView::<R, K, C>::min_cost_index(s.frontier, s.context);
            let e = s.frontier[i];
            let rest = s.frontier.remove(i);
            if s.settled(e.point) {
                PathFinderView { frontier: rest, ..s }
            } else {
                let contents1 = s.contents.insert(
                    e.point,
                    Visited(Some(VisitedItem { cost: e.cost, from: e.from })),
                );
                let order1 = s.settle_order.push(e.point);
                if e.point == s.goal {
                    let path = PathFinderView::<R, K, C>::chain(contents1, s.goal, s.dom.len());
                    PathFinderView {
                        contents: contents1,
                        settle_order: order1,
                        frontier: rest,
                        state: StateView::PathFound(
                            PathResultView {
                                path,
                                start: s.start,
                                goal: s.goal,
                                total_cost: e.cost,
                            },
                        ),
                        ..s
                    }
                } else {
                    let pushes = PathFinderView::<R, K, C>::push_batch(
                        contents1,
                        s.dom,
                        e.cost,
                        e.point,
                        m.neighbors(e.point),
                    );
                    PathFinderView {
                        contents: contents1,
                        settle_order: order1,
                        frontier: rest + pushes,
                        ..s
                    }
                }
            }
        }
    }

    /// `n` calls of [`Self::step`], folded over a snapshot.
    pub open spec fn run_model(s: PathFinderView<R, K, C>, m: M, n: nat) -> PathFinderView<R, K, C>
        decreases n,
    {
        if n == 0 {
            s
        } else {
            Self::step_model(Self::run_model(s, m, (n - 1) as nat), m)
        }
    }

    /// A fresh engine: the frontier holds one zero-cost entry for `start`,
    /// nothing is settled yet, and the state is `Computing`.
    ///
    /// The storage must be freshly allocated for this search: it decides
    /// which nodes exist and must not carry settlements from another run.
    pub fn new(start: R, goal: R, visited: S, context: K) -> (r: Self)
        requires
            visited.wf(),
            visited.dom().contains(start),
            forall|n: R|
                visited.dom().contains(n) ==> (#[trigger] visited.contents()[n]).0 is None,
        ensures
            r.wf(),
            r.model() == (PathFinderView {
                start,
                goal,
                context,
                dom: visited.dom(),
                contents: visited.contents(),
                frontier: seq![ToVisit { cost: C::zero_spec(), point: start, from: None }],
                settle_order: Seq::<R>::empty(),
                state: StateView::<C, R>::Computing,
            }),
    {
        let mut visit_list: Vec<ToVisit<C, R>> = Vec::new();
        visit_list.push(ToVisit { cost: C::zero_cost(), point: start, from: None });
        let r = PathFinder {
            start,
            goal,
            context,
            visited,
            visit_list,
            state: PathFinderState::Computing,
            settle_order: Ghost(Seq::empty()),
            _map: core::marker::PhantomData,
        };
        proof {
            r.visited.lemma_wf_dom();
            assert(r.model().frontier =~= seq![
                ToVisit { cost: C::zero_spec(), point: start, from: None },
            ]);
            assert(forall|n: R| !r.model().settled(n));
            assert(r.model() =~= (PathFinderView {
                start,
                goal,
                context,
                dom: r.visited.dom(),
                contents: r.visited.contents(),
                frontier: seq![ToVisit { cost: C::zero_spec(), point: start, from: None }],
                settle_order: Seq::<R>::empty(),
                state: StateView::<C, R>::Computing,
            }));
        }
        r
    }

    /// The engine's current state, read-only.
    pub fn state(&self) -> (r: &PathFinderState<C, R>)
        ensures
            r@ == self.model().state,
    {
        &self.state
    }

    /// The scratch storage recording every settled node, read-only.
    pub fn get_visited(&self) -> (r: &S)
        ensures
            r.dom() == self.model().dom,
            r.contents() == self.model().contents,
            self.wf() ==> r.wf(),
    {
        &self.visited
    }

    /// The node the search started from.
    pub fn start(&self) -> (r: R)
        ensures
            r == self.model().start,
    {
        self.start
    }

    /// The node the search is looking for.
    pub fn goal(&self) -> (r: R)
        ensures
            r == self.model().goal,
    {
        self.goal
    }

    /// Advances the search by one expansion.
    ///
    /// A terminal state is sticky: the call changes nothing and returns it
    /// again.  Otherwise the lowest-cost frontier entry is popped; an entry
    /// for an already-settled node is discarded silently (lazy deletion),
    /// an empty frontier ends the search with `NoPathFound`, and settling
    /// the goal reconstructs the path and ends it with `PathFound`.  At
    /// most one node is settled per call, and a node once settled is never
    /// written again.
    pub fn step(&mut self, map: &M) -> (r: PathFinderState<C, R>)
        requires
            old(self).wf(),
            old(self).compat(*map),
            map.wf(),
        ensures
            final(self).wf(),
            final(self).compat(*map),
            final(self).model() == Self::step_model(old(self).model(), *map),
            r@ == final(self).model().state,
    {
        let ghost pre = old(self).model();
        if self.state.is_done() {
            let r = self.state.clone();
            proof {
                assert(self.model() =~= Self::step_model(pre, *map));
            }
            return r;
        }
        if self.visit_list.len() == 0 {
            self.state = PathFinderState::NoPathFound;
            proof {
                assert(self.model() =~= Self::step_model(pre, *map));
            }
            return self.state.clone();
        }
        let idx = Self::min_index(&self.visit_list, &self.context);
        let ghost i = idx as int;
        let visit = self.visit_list.remove(idx);
        proof {
            assert(visit == pre.frontier[i]);
            assert(pre.dom.contains(visit.point));
        }
        let seen = self.visited.get(visit.point);
        if seen.0.is_some() {
            // a later, better entry already settled this node: lazy deletion
            proof {
                assert(pre.settled(visit.point));
                pre.lemma_discard_inv(i);
                assert(self.model() =~= Self::step_model(pre, *map));
                assert forall|t: int| 0 <= t < self.visit_list@.len() implies map.nodes().contains(
                    #[trigger] self.visit_list@[t].point,
                ) by {
                    if t < i {
                        assert(self.visit_list@[t] == pre.frontier[t]);
                    } else {
                        assert(self.visit_list@[t] == pre.frontier[t + 1]);
                    }
                }
            }
            return self.state.clone();
        }
        // settle the node: the one write its storage slot ever receives
        self.visited.set(
            visit.point,
            Visited(Some(VisitedItem { cost: visit.cost, from: visit.from })),
        );
        proof {
            self.settle_order@ = self.settle_order@.push(visit.point);
            pre.lemma_settle_inv(i);
        }
        let ghost mid = self.model();
        proof {
            assert(mid.inv());
            assert forall|t: int| 0 <= t < self.visit_list@.len() implies map.nodes().contains(
                #[trigger] self.visit_list@[t].point,
            ) by {
                if t < i {
                    assert(self.visit_list@[t] == pre.frontier[t]);
                } else {
                    assert(self.visit_list@[t] == pre.frontier[t + 1]);
                }
            }
        }
        if visit.point.node_eq(&self.goal) {
            // the goal is settled: reconstruct the path behind it
            let path = self.backtrack();
            self.state = PathFinderState::PathFound(
                PathResult { path, start: self.start, goal: self.goal, total_cost: visit.cost },
            );
            proof {
                assert(self.model() =~= Self::step_model(pre, *map));
            }
            return self.state.clone();
        }
        // expand: push every not-yet-settled neighbor onto the frontier
        let neighbors = map.neighbors_of(visit.point);
        proof {
            map.lemma_neighbors_in_nodes(visit.point);
        }
        let ghost rest = pre.frontier.remove(i);
        let ghost contents1 = self.visited.contents();
        let mut j: usize = 0;
        while j < neighbors.len()
            invariant
                map.wf(),
                j <= neighbors@.len(),
                self.visited.wf(),
                self.visited.contents() == contents1,
                self.visited.dom() == pre.dom,
                self.start == pre.start,
                self.goal == pre.goal,
                self.context == pre.context,
                self.state@ == pre.state,
                self.settle_order@ == pre.settle_order.push(visit.point),
                neighbors@ == map.neighbors(visit.point),
                forall|t: int|
                    0 <= t < neighbors@.len() ==> map.nodes().contains(
                        #[trigger] neighbors@[t].0,
                    ),
                map.nodes() <= pre.dom,
                self.visit_list@ == rest + PathFinderView::<R, K, C>::push_batch(
                    contents1,
                    pre.dom,
                    visit.cost,
                    visit.point,
                    neighbors@.subrange(0, j as int),
                ),
            decreases neighbors@.len() - j,
        {
            let entry = neighbors[j];
            let p = entry.0;
            let w = entry.1;
            let ghost before = self.visit_list@;
            let got = self.visited.get(p);
            if !got.0.is_some() {
                let cost = visit.cost.add_cost(&w);
                self.visit_list.push(ToVisit { cost, point: p, from: Some(visit.point) });
            }
            j += 1;
            proof {
                let sub1 = neighbors@.subrange(0, j as int);
                assert(sub1.drop_last() =~= neighbors@.subrange(0, j - 1));
                assert(sub1.last() == neighbors@[j - 1]);
                assert(self.visit_list@ =~= rest + PathFinderView::<R, K, C>::push_batch(
                    contents1,
                    pre.dom,
                    visit.cost,
                    visit.point,
                    sub1,
                ));
            }
        }
        proof {
            assert(neighbors@.subrange(0, neighbors@.len() as int) =~= neighbors@);
            let pushes = PathFinderView::<R, K, C>::push_batch(
                contents1,
                pre.dom,
                visit.cost,
                visit.point,
                neighbors@,
            );
            PathFinderView::<R, K, C>::lemma_push_batch_elems(
                contents1,
                pre.dom,
                visit.cost,
                visit.point,
                neighbors@,
            );
            assert(self.model() =~= Self::step_model(pre, *map));
            // the invariant survives: removed entries keep their clauses,
            // and every pushed entry names an addressable, unsettled node
            // whose predecessor was just settled
            assert(mid.inv());
            assert forall|t: int| 0 <= t < self.visit_list@.len() implies self.model().dom.contains(
                #[trigger] self.visit_list@[t].point,
            ) && match self.visit_list@[t].from {
                Some(q) => self.model().settled(q),
                None => self.visit_list@[t].point == self.model().start,
            } by {
                if t < rest.len() {
                    assert(self.visit_list@[t] == rest[t]);
                    assert(mid.frontier[t] == rest[t]);
                    assert(mid.dom.contains(rest[t].point) && match rest[t].from {
                        Some(q) => mid.settled(q),
                        None => rest[t].point == mid.start,
                    });
                } else {
                    assert(self.visit_list@[t] == pushes[t - rest.len()]);
                }
            }
            assert forall|t: int| 0 <= t < self.visit_list@.len() implies map.nodes().contains(
                #[trigger] self.visit_list@[t].point,
            ) by {
                if t < rest.len() {
                    assert(self.visit_list@[t] == rest[t]);
                    if i <= t {
                        assert(rest[t] == pre.frontier[t + 1]);
                    } else {
                        assert(rest[t] == pre.frontier[t]);
                    }
                } else {
                    assert(self.visit_list@[t] == pushes[t - rest.len()]);
                }
            }
            assert(self.model().inv());
        }
        self.state.clone()
    }

    /// Repeatedly calls [`Self::step`] until a terminal state is produced,
    /// consuming the engine and handing the storage back to the caller.
    ///
    /// The result is exactly what some number of single steps from the
    /// starting snapshot produces, ending in the first terminal state they
    /// reach.
    pub fn finish(self, map: &M) -> (r: (PathFinderState<C, R>, S))
        requires
            self.wf(),
            self.compat(*map),
            map.wf(),
        ensures
            exists|n: nat|
                {
                    let m = #[trigger] Self::run_model(self.model(), *map, n);
                    &&& !(m.state is Computing)
                    &&& r.0@ == m.state
                    &&& r.1.wf()
                    &&& r.1.dom() == m.dom
                    &&& r.1.contents() == m.contents
                },
    {
        let ghost s0 = self.model();
        let mut pf = self;
        let ghost mut n: nat = 0;
        loop
            invariant
                s0 == self.model(),
                pf.wf(),
                pf.compat(*map),
                map.wf(),
                pf.model() == Self::run_model(s0, *map, n),
            decreases
                    pf.model().dom.len() - pf.model().settle_order.len(),
                    pf.model().frontier.len(),
        {
            let ghost prev = pf.model();
            let s = pf.step(map);
            proof {
                n = n + 1;
                assert(pf.model() == Self::run_model(s0, *map, n));
            }
            if s.is_done() {
                proof {
                    let m = Self::run_model(s0, *map, n);
                    assert(Self::run_model(self.model(), *map, n) == m);
                    assert(!(m.state is Computing));
                    assert(s@ == m.state);
                    assert(pf.visited.wf());
                    assert(pf.visited.dom() == m.dom);
                    assert(pf.visited.contents() == m.contents);
                }
                return (s, pf.visited);
            }
            proof {
                // the search cannot spin: each continuing step either
                // settles a new node or shrinks the frontier
                assert(prev.state is Computing);
                assert(prev.frontier.len() > 0);
                pf.model().lemma_settle_order_bound();
                assert(pf.model() == Self::step_model(prev, *map));
                PathFinderView::<R, K, C>::lemma_min_cost_index(
                    prev.frontier,
                    prev.context,
                    prev.frontier.len() as int,
                );
                let i = PathFinderView::<R, K, C>::min_cost_index(prev.frontier, prev.context);
                assert(0 <= i < prev.frontier.len());
                assert(prev.frontier.remove(i).len() == prev.frontier.len() - 1);
                if prev.settled(prev.frontier[i].point) {
                    assert(pf.model().settle_order == prev.settle_order);
                    assert(pf.model().frontier == prev.frontier.remove(i));
                    assert(pf.model().frontier.len() < prev.frontier.len());
                } else {
                    assert(pf.model().settle_order.len() == prev.settle_order.len() + 1);
                }
            }
        }
    }

    /// Terminal states are sticky: once a snapshot's state is no longer
    /// `Computing`, a step changes nothing at all — not the state, not the
    /// storage, not the frontier.
    pub proof fn lemma_terminal_step_is_noop(s: PathFinderView<R, K, C>, m: M)
        requires
            !(s.state is Computing),
        ensures
            Self::step_model(s, m) == s,
    {
    }

    /// One step never rewrites a settled node's slot, and it settles at
    /// most one new node.
    pub proof fn lemma_step_settles_at_most_once(s: PathFinderView<R, K, C>, m: M)
        ensures
            forall|x: R|
                s.settled(x) ==> Self::step_model(s, m).settled(x) && Self::step_model(
                    s,
                    m,
                ).contents[x] == s.contents[x],
            Self::step_model(s, m).settled_set() == s.settled_set() || exists|x: R|
                !s.settled(x) && Self::step_model(s, m).settled_set() == s.settled_set().insert(
                    x,
                ),
    {
        let post = Self::step_model(s, m);
        if s.state is Computing && s.frontier.len() > 0 {
            let i = PathFinderView::<R, K, C>::min_cost_index(s.frontier, s.context);
            let e = s.frontier[i];
            if !s.settled(e.point) {
                if s.dom.contains(e.point) {
                    assert(post.settled_set() =~= s.settled_set().insert(e.point));
                } else {
                    assert(post.settled_set() =~= s.settled_set());
                }
            } else {
                assert(post.settled_set() =~= s.settled_set());
            }
        } else {
            assert(post.settled_set() =~= s.settled_set());
        }
    }

    /// Settlement is monotonic and permanent across a whole run: whatever a
    /// node's slot holds after `n1` steps, it still holds after any later
    /// step — each slot is written at most once.
    pub proof fn lemma_run_settles_once(
        s: PathFinderView<R, K, C>,
        m: M,
        n1: nat,
        n2: nat,
        x: R,
    )
        requires
            n1 <= n2,
            Self::run_model(s, m, n1).settled(x),
        ensures
            Self::run_model(s, m, n2).settled(x),
            Self::run_model(s, m, n2).contents[x] == Self::run_model(s, m, n1).contents[x],
        decreases n2 - n1,
    {
        if n1 < n2 {
            Self::lemma_run_settles_once(s, m, n1, (n2 - 1) as nat, x);
            Self::lemma_step_settles_at_most_once(Self::run_model(s, m, (n2 - 1) as nat), m);
        }
    }

    /// Once a run reaches a terminal snapshot, every longer run returns
    /// that same snapshot.
    pub proof fn lemma_terminal_run_stays(s: PathFinderView<R, K, C>, m: M, n1: nat, n2: nat)
        requires
            n1 <= n2,
            !(Self::run_model(s, m, n1).state is Computing),
        ensures
            Self::run_model(s, m, n2) == Self::run_model(s, m, n1),
        decreases n2 - n1,
    {
        if n1 < n2 {
            Self::lemma_terminal_run_stays(s, m, n1, (n2 - 1) as nat);
            Self::lemma_terminal_step_is_noop(Self::run_model(s, m, (n2 - 1) as nat), m);
        }
    }

    /// However many steps it takes to reach a terminal snapshot, it is the
    /// same snapshot: draining the engine with `finish` and stepping it by
    /// hand until it stops produce identical final states and storage.
    pub proof fn lemma_terminal_run_unique(s: PathFinderView<R, K, C>, m: M, n1: nat, n2: nat)
        requires
            !(Self::run_model(s, m, n1).state is Computing),
            !(Self::run_model(s, m, n2).state is Computing),
        ensures
            Self::run_model(s, m, n1) == Self::run_model(s, m, n2),
    {
        if n1 <= n2 {
            Self::lemma_terminal_run_stays(s, m, n1, n2);
        } else {
            Self::lemma_terminal_run_stays(s, m, n2, n1);
        }
    }

    /// The index the frontier pops next: the first entry whose cost is at
    /// or below every other entry's.
    fn min_index(list: &Vec<ToVisit<C, R>>, ctx: &K) -> (r: usize)
        requires
            list@.len() >= 1,
        ensures
            r < list@.len(),
            r as int == PathFinderView::<R, K, C>::min_cost_index(list@, *ctx),
    {
        let mut best: usize = 0;
        let mut i: usize = 1;
        while i < list.len()
            invariant
                1 <= i <= list@.len(),
                best < i,
                best as int == PathFinderView::<R, K, C>::min_idx_upto(list@, *ctx, i as int),
            decreases list@.len() - i,
        {
            match list[best].cost.context_cmp(&list[i].cost, ctx) {
                Ordering::Greater => {
                    best = i;
                },
                _ => {},
            }
            i += 1;
        }
        best
    }

    /// Reconstructs the path by walking predecessor links backward from the
    /// goal, then reversing.
    ///
    /// The engine's invariant rules out a link to an unsettled node, so the
    /// walk cannot fail and always ends at the start node.
    fn backtrack(&self) -> (r: Vec<R>)
        requires
            self.visited.wf(),
            self.model().inv(),
            self.model().settled(self.model().goal),
        ensures
            r@ == PathFinderView::<R, K, C>::chain(
                self.model().contents,
                self.model().goal,
                self.model().dom.len(),
            ),
    {
        let ghost v = self.model();
        let ghost fuel0 = v.dom.len();
        proof {
            v.lemma_settle_order_bound();
        }
        let mut path: Vec<R> = Vec::new();
        path.push(self.goal);
        let mut cur: R = self.goal;
        let ghost mut oidx: int = choose|j: int|
            0 <= j < v.settle_order.len() && v.settle_order[j] == v.goal;
        proof {
            assert(v.settle_order.contains(v.goal));
            assert(v.settle_order[oidx] == cur);
            assert(path@.drop_last().reverse() =~= Seq::<R>::empty());
        }
        loop
            invariant_except_break
                v == self.model(),
                self.visited.wf(),
                v.inv(),
                fuel0 == v.dom.len(),
                path@.len() >= 1,
                path@.last() == cur,
                v.settled(cur),
                0 <= oidx < v.settle_order.len(),
                v.settle_order[oidx] == cur,
                fuel0 - (path@.len() - 1) >= oidx + 1,
                PathFinderView::<R, K, C>::chain(v.contents, v.goal, fuel0)
                    == PathFinderView::<R, K, C>::chain(
                    v.contents,
                    cur,
                    (fuel0 - (path@.len() - 1)) as nat,
                ) + path@.drop_last().reverse(),
            ensures
                path@.reverse() == PathFinderView::<R, K, C>::chain(v.contents, v.goal, fuel0),
            decreases oidx,
        {
            let ghost fuel = (fuel0 - (path@.len() - 1)) as nat;
            let item = self.visited.get(cur);
            match item.0 {
                Some(vi) => {
                    match vi.from {
                        Some(p) => {
                            let ghost prev = path@;
                            proof {
                                assert(exists|j: int|
                                    0 <= j < oidx && v.settle_order[j] == p) by {
                                    assert(v.settle_order[oidx] == cur);
                                }
                                let j = choose|j: int| 0 <= j < oidx && v.settle_order[j] == p;
                                assert(v.settled(v.settle_order[j]));
                                let tail = PathFinderView::<R, K, C>::chain(
                                    v.contents,
                                    p,
                                    (fuel - 1) as nat,
                                );
                                assert(PathFinderView::<R, K, C>::chain(v.contents, cur, fuel)
                                    == tail + seq![cur]);
                                assert(seq![cur] + prev.drop_last().reverse() =~= prev.reverse());
                                assert((tail + seq![cur]) + prev.drop_last().reverse() =~= tail + (
                                seq![cur] + prev.drop_last().reverse()));
                                assert(PathFinderView::<R, K, C>::chain(v.contents, v.goal, fuel0)
                                    == tail + prev.reverse());
                                oidx = j;
                            }
                            path.push(p);
                            cur = p;
                            proof {
                                assert(path@.drop_last() =~= prev);
                            }
                        },
                        None => {
                            proof {
                                assert(PathFinderView::<R, K, C>::chain(v.contents, cur, fuel)
                                    =~= seq![cur]);
                                assert(seq![cur] + path@.drop_last().reverse() =~= path@.reverse());
                            }
                            break ;
                        },
                    }
                },
                None => {
                    proof {
                        assert(false);
                    }
                    break ;
                },
            }
        }
        let mut rev: Vec<R> = Vec::new();
        let mut k: usize = path.len();
        while k > 0
            invariant
                k <= path@.len(),
                rev@.len() == path@.len() - k,
                forall|t: int|
                    0 <= t < rev@.len() ==> rev@[t] == path@[path@.len() - 1 - t],
            decreases k,
        {
            k -= 1;
            rev.push(path[k]);
        }
        proof {
            assert(rev@ =~= path@.reverse());
        }
        rev
    }
}

} // verus!
