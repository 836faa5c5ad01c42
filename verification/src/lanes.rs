//! Graph-lane layout for the commit timeline.
//!
//! The history is walked newest first. Each lane holds the id of the commit it expects to
//! draw next. A commit takes the lane reserved for it (or a fresh one, reusing a freed
//! slot when there is one); its first parent continues that lane, a root commit frees it,
//! and every further parent of a merge reserves a lane of its own unless one already
//! expects it.

use vstd::prelude::*;

use crate::text::{chars_of, opt_view, string_from, views};

verus! {

/// A lane's view: the commit id it expects next, or `None` when it is free.
pub type LaneView = Option<Seq<char>>;

/// The first index of `l` that holds `v`, or `l.len()` when none does.
pub open spec fn first_match(l: Seq<LaneView>, v: LaneView) -> nat
    decreases l.len(),
{
    if l.len() == 0 {
        0
    } else if l[0] == v {
        0
    } else {
        1 + first_match(l.drop_first(), v)
    }
}

/// Reserve a lane for `id`: the first free slot, or a new slot at the end.
pub open spec fn alloc_lane(l: Seq<LaneView>, id: Seq<char>) -> Seq<LaneView> {
    let f = first_match(l, None);
    if f < l.len() {
        l.update(f as int, Some(id))
    } else {
        l.push(Some(id))
    }
}

/// Make sure some lane expects `id`, allocating one if none does.
pub open spec fn reserve(l: Seq<LaneView>, id: Seq<char>) -> Seq<LaneView> {
    if first_match(l, Some(id)) < l.len() {
        l
    } else {
        alloc_lane(l, id)
    }
}

/// `reserve` for each of `ids`, in order.
pub open spec fn reserve_all(l: Seq<LaneView>, ids: Seq<Seq<char>>) -> Seq<LaneView>
    decreases ids.len(),
{
    if ids.len() == 0 {
        l
    } else {
        reserve_all(reserve(l, ids[0]), ids.drop_first())
    }
}

/// The lane a commit `id` is drawn in: the first one that expects it, else the first
/// free one, else a new one at the end.
pub open spec fn lane_for(l: Seq<LaneView>, id: Seq<char>) -> nat {
    let f = first_match(l, Some(id));
    if f < l.len() {
        f
    } else {
        first_match(l, None)
    }
}

/// What the commit's own lane expects next: its first parent, or nothing for a root.
pub open spec fn continuation(parents: Seq<Seq<char>>) -> LaneView {
    if parents.len() > 0 {
        Some(parents[0])
    } else {
        None
    }
}

/// The lanes after drawing commit `id` with `parents`.
pub open spec fn placed_lanes(l: Seq<LaneView>, id: Seq<char>, parents: Seq<Seq<char>>) -> Seq<
    LaneView,
> {
    let k = lane_for(l, id);
    let l1 = if k < l.len() {
        l
    } else {
        l.push(None)
    };
    let l2 = l1.update(k as int, continuation(parents));
    if parents.len() > 0 {
        reserve_all(l2, parents.drop_first())
    } else {
        l2
    }
}

/// `first_match` is the first index holding `v`, or the length when there is none.
pub proof fn lemma_first_match(l: Seq<LaneView>, v: LaneView)
    ensures
        first_match(l, v) <= l.len(),
        first_match(l, v) < l.len() ==> l[first_match(l, v) as int] == v,
        forall|j: int| 0 <= j < first_match(l, v) ==> l[j] != v,
    decreases l.len(),
{
    if l.len() > 0 && l[0] != v {
        lemma_first_match(l.drop_first(), v);
        assert forall|j: int| 0 <= j < first_match(l, v) implies l[j] != v by {
            if j > 0 {
                assert(l[j] == l.drop_first()[j - 1]);
            }
        }
    }
}

/// Reserving keeps every occupied lane and only ever adds one slot.
pub proof fn lemma_reserve(l: Seq<LaneView>, id: Seq<char>)
    ensures
        reserve(l, id).len() <= l.len() + 1,
        l.len() <= reserve(l, id).len(),
        forall|j: int| 0 <= j < l.len() && l[j] is Some ==> reserve(l, id)[j] == l[j],
        first_match(reserve(l, id), Some(id)) < reserve(l, id).len(),
{
    lemma_first_match(l, Some(id));
    lemma_first_match(l, None);
    let r = reserve(l, id);
    if first_match(l, Some(id)) < l.len() {
    } else {
        let f = first_match(l, None);
        assert(r[f as int] == Some(id));
        lemma_first_match(r, Some(id));
    }
}

/// Reserving a run of ids keeps every occupied lane, adds at most one slot per id, and
/// leaves every id of the run expected by some lane.
pub proof fn lemma_reserve_all(l: Seq<LaneView>, ids: Seq<Seq<char>>)
    ensures
        l.len() <= reserve_all(l, ids).len() <= l.len() + ids.len(),
        forall|j: int| 0 <= j < l.len() && l[j] is Some ==> reserve_all(l, ids)[j] == l[j],
        forall|q: int|
            #![trigger ids[q]]
            0 <= q < ids.len() ==> exists|j: int|
                0 <= j < reserve_all(l, ids).len() && #[trigger] reserve_all(l, ids)[j] == Some(
                    ids[q],
                ),
    decreases ids.len(),
{
    if ids.len() > 0 {
        let r1 = reserve(l, ids[0]);
        lemma_reserve(l, ids[0]);
        lemma_reserve_all(r1, ids.drop_first());
        let r = reserve_all(l, ids);
        assert(r == reserve_all(r1, ids.drop_first()));
        lemma_first_match(r1, Some(ids[0]));
        let f = first_match(r1, Some(ids[0]));
        assert(r[f as int] == Some(ids[0]));
        assert forall|q: int| #![trigger ids[q]] 0 <= q < ids.len() implies exists|j: int|
            0 <= j < r.len() && #[trigger] r[j] == Some(ids[q]) by {
            if q == 0 {
                assert(r[f as int] == Some(ids[q]));
            } else {
                assert(ids[q] == ids.drop_first()[q - 1]);
            }
        }
    }
}

/// The laws of one placement: the lane is in range and now expects the first parent;
/// every parent is expected by some lane; every other occupied lane is untouched; at
/// most one slot per parent (one for a root) is added.
pub proof fn lemma_placed_lanes(l: Seq<LaneView>, id: Seq<char>, parents: Seq<Seq<char>>)
    ensures
        ({
            let k = lane_for(l, id);
            let r = placed_lanes(l, id, parents);
            &&& k <= l.len()
            &&& k < r.len()
            &&& r[k as int] == continuation(parents)
            &&& forall|q: int|
                #![trigger parents[q]]
                0 <= q < parents.len() ==> exists|j: int|
                    0 <= j < r.len() && #[trigger] r[j] == Some(parents[q])
            &&& forall|j: int| 0 <= j < l.len() && j != k && l[j] is Some ==> r[j] == l[j]
            &&& r.len() <= l.len() + if parents.len() == 0 {
                1
            } else {
                parents.len()
            }
        }),
{
    lemma_first_match(l, Some(id));
    lemma_first_match(l, None);
    let k = lane_for(l, id);
    let l1 = if k < l.len() {
        l
    } else {
        l.push(None)
    };
    let l2 = l1.update(k as int, continuation(parents));
    let r = placed_lanes(l, id, parents);
    if parents.len() > 0 {
        let rest = parents.drop_first();
        lemma_reserve_all(l2, rest);
        assert(r == reserve_all(l2, rest));
        assert(l2[k as int] is Some);
        assert(r[k as int] == continuation(parents));
        assert forall|q: int| #![trigger parents[q]] 0 <= q < parents.len() implies exists|j: int|
            0 <= j < r.len() && #[trigger] r[j] == Some(parents[q]) by {
            if q == 0 {
                assert(r[k as int] == Some(parents[q]));
            } else {
                assert(parents[q] == rest[q - 1]);
            }
        }
        assert forall|j: int| 0 <= j < l.len() && j != k && l[j] is Some implies r[j] == l[j] by {
            assert(l2[j] == l[j]);
        }
    }
}

/// The first parent continues the child's lane: after drawing a commit whose first
/// parent is `parents[0]`, that parent is drawn in the child's lane, or in a lane to its
/// left that already expected it.
pub proof fn law_first_parent_continues_lane(
    l: Seq<LaneView>,
    id: Seq<char>,
    parents: Seq<Seq<char>>,
)
    requires
        parents.len() > 0,
    ensures
        lane_for(placed_lanes(l, id, parents), parents[0]) <= lane_for(l, id),
        (forall|j: int| 0 <= j < lane_for(l, id) ==> l[j] != Some(parents[0])) ==> lane_for(
            placed_lanes(l, id, parents),
            parents[0],
        ) == lane_for(l, id),
{
    lemma_placed_lanes(l, id, parents);
    let k = lane_for(l, id);
    let r = placed_lanes(l, id, parents);
    let p = parents[0];
    lemma_first_match(r, Some(p));
    assert(r[k as int] == Some(p));
    if (forall|j: int| 0 <= j < k ==> l[j] != Some(p)) {
        assert forall|j: int| 0 <= j < k implies r[j] != Some(p) by {
            if l[j] is Some {
                assert(r[j] == l[j]);
            } else {
                let l1 = if k < l.len() {
                    l
                } else {
                    l.push(None)
                };
                let l2 = l1.update(k as int, continuation(parents));
                assert(l2[k as int] == Some(p));
                lemma_first_match(l2, Some(p));
                assert(l2[j] == l[j]);
                lemma_reserve_all_fills(l2, parents.drop_first(), p, j);
            }
        }
    }
}

/// Reserving a run of ids puts into a slot `j` that expected no `p` only ids of the run
/// that no lane expected yet; in particular never an id already expected (such as `p`).
proof fn lemma_reserve_all_fills(l: Seq<LaneView>, ids: Seq<Seq<char>>, p: Seq<char>, j: int)
    requires
        0 <= j < l.len(),
        l[j] != Some(p),
        first_match(l, Some(p)) < l.len(),
    ensures
        reserve_all(l, ids)[j] != Some(p),
        first_match(reserve_all(l, ids), Some(p)) < reserve_all(l, ids).len(),
    decreases ids.len(),
{
    if ids.len() > 0 {
        let r1 = reserve(l, ids[0]);
        lemma_first_match(l, Some(p));
        lemma_first_match(l, Some(ids[0]));
        lemma_first_match(l, None);
        lemma_reserve(l, ids[0]);
        let f = first_match(l, Some(p));
        assert(r1[f as int] == Some(p));
        lemma_first_match(r1, Some(p));
        assert(r1[j] != Some(p)) by {
            if first_match(l, Some(ids[0])) >= l.len() && ids[0] == p {
                assert(l[f as int] == Some(p));
            }
        }
        lemma_reserve_all_fills(r1, ids.drop_first(), p, j);
    }
}

/// Reserving a run of ids changes or adds only slots that then expect an id of the run that
/// no other slot expects: an id already expected never gets a second lane.
pub proof fn lemma_reserve_all_unique(l: Seq<LaneView>, ids: Seq<Seq<char>>, j: int)
    requires
        0 <= j < reserve_all(l, ids).len(),
        j >= l.len() || reserve_all(l, ids)[j] != l[j],
    ensures
        exists|q: int| 0 <= q < ids.len() && reserve_all(l, ids)[j] == Some(#[trigger] ids[q]),
        forall|i: int| 0 <= i < reserve_all(l, ids).len() && i != j ==> reserve_all(l, ids)[i] != reserve_all(l, ids)[j],
    decreases ids.len(),
{
    let r = reserve_all(l, ids);
    if ids.len() == 0 {
        assert(r == l);
    } else {
        let id0 = ids[0];
        let rest = ids.drop_first();
        let r1 = reserve(l, id0);
        assert(r == reserve_all(r1, rest));
        lemma_reserve(l, id0);
        lemma_reserve_all(r1, rest);
        lemma_first_match(l, Some(id0));
        lemma_first_match(l, None);
        if j >= r1.len() || r[j] != r1[j] {
            lemma_reserve_all_unique(r1, rest, j);
            let q = choose|q: int| 0 <= q < rest.len() && r[j] == Some(#[trigger] rest[q]);
            assert(rest[q] == ids[q + 1]);
        } else {
            // `j` is the slot that reserving the first id allocated.
            let f = first_match(l, None);
            assert(first_match(l, Some(id0)) >= l.len());
            assert(j == f);
            assert(r1[j] == Some(id0));
            assert(r[j] == Some(ids[0]));
            assert forall|i: int| 0 <= i < r.len() && i != j implies r[i] != r[j] by {
                if i >= r1.len() || r[i] != r1[i] {
                    lemma_reserve_all_unique(r1, rest, i);
                } else {
                    if i < l.len() {
                        assert(r1[i] == l[i]);
                    }
                }
            }
        }
    }
}

/// Reserving ids that some lane already expects changes nothing.
proof fn lemma_reserve_all_known(l: Seq<LaneView>, ids: Seq<Seq<char>>)
    requires
        forall|q: int| 0 <= q < ids.len() ==> first_match(l, Some(#[trigger] ids[q])) < l.len(),
    ensures
        reserve_all(l, ids) == l,
    decreases ids.len(),
{
    if ids.len() > 0 {
        assert(first_match(l, Some(ids[0])) < l.len());
        assert(reserve(l, ids[0]) == l);
        let rest = ids.drop_first();
        assert forall|q: int| 0 <= q < rest.len() implies first_match(l, Some(#[trigger] rest[q])) < l.len() by {
            assert(rest[q] == ids[q + 1]);
        }
        lemma_reserve_all_known(l, rest);
    }
}

/// A merge parent that a lane already expects gets no lane of its own: every slot besides the
/// commit's own lane that the placement filled or added expects a further parent that no other
/// slot expects, and when every further parent was already expected (or is the first parent),
/// the only slot added is the commit's own lane when it had none reserved.
pub proof fn law_known_parent_gets_no_lane(l: Seq<LaneView>, id: Seq<char>, parents: Seq<Seq<char>>)
    ensures
        ({
            let k = lane_for(l, id) as int;
            let r = placed_lanes(l, id, parents);
            &&& forall|j: int|
                0 <= j < r.len() && j != k && (j >= l.len() || r[j] != l[j]) ==> {
                    &&& (exists|q: int| 1 <= q < parents.len() && r[j] == Some(#[trigger] parents[q]))
                    &&& forall|i: int| 0 <= i < r.len() && i != j ==> r[i] != r[j]
                }
            &&& (forall|q: int|
                1 <= q < parents.len() ==> #[trigger] parents[q] == parents[0] || exists|j: int|
                    0 <= j < l.len() && j != k && l[j] == Some(parents[q])) ==> r.len() == if k < l.len() {
                l.len()
            } else {
                l.len() + 1
            }
        }),
{
    lemma_first_match(l, Some(id));
    lemma_first_match(l, None);
    let k = lane_for(l, id) as int;
    let l1 = if k < l.len() {
        l
    } else {
        l.push(None)
    };
    let l2 = l1.update(k, continuation(parents));
    let r = placed_lanes(l, id, parents);
    if parents.len() > 0 {
        let rest = parents.drop_first();
        assert(r == reserve_all(l2, rest));
        assert forall|j: int| 0 <= j < r.len() && j != k && (j >= l.len() || r[j] != l[j]) implies {
            &&& (exists|q: int| 1 <= q < parents.len() && r[j] == Some(#[trigger] parents[q]))
            &&& forall|i: int| 0 <= i < r.len() && i != j ==> r[i] != r[j]
        } by {
            if j < l.len() {
                assert(l2[j] == l[j]);
            }
            let rr = reserve_all(l2, rest);
            assert(0 <= j < rr.len() && (j >= l2.len() || rr[j] != l2[j]));
            lemma_reserve_all_unique(l2, rest, j);
            let q = choose|q: int| 0 <= q < rest.len() && rr[j] == Some(#[trigger] rest[q]);
            assert(rest[q] == parents[q + 1]);
        }
        if forall|q: int|
            1 <= q < parents.len() ==> #[trigger] parents[q] == parents[0] || exists|j: int|
                0 <= j < l.len() && j != k && l[j] == Some(parents[q]) {
            assert forall|q: int| 0 <= q < rest.len() implies first_match(l2, Some(#[trigger] rest[q]))
                < l2.len() by {
                let p = rest[q];
                assert(p == parents[q + 1]);
                lemma_first_match(l2, Some(p));
                if p == parents[0] {
                    assert(l2[k] == Some(p));
                } else {
                    let j = choose|j: int| 0 <= j < l.len() && j != k && l[j] == Some(p);
                    assert(l2[j] == Some(p));
                }
            }
            lemma_reserve_all_known(l2, rest);
        }
    } else {
        assert forall|j: int| 0 <= j < r.len() && j != k implies !(j >= l.len() || r[j] != l[j]) by {
            assert(r[j] == l2[j]);
        }
    }
}

/// Once reserving has to add a slot, every slot is taken.
proof fn lemma_reserve_all_full(l: Seq<LaneView>, ids: Seq<Seq<char>>)
    ensures
        reserve_all(l, ids).len() > l.len() ==> forall|j: int|
            0 <= j < reserve_all(l, ids).len() ==> (#[trigger] reserve_all(l, ids)[j]) is Some,
    decreases ids.len(),
{
    if ids.len() > 0 {
        let id0 = ids[0];
        let rest = ids.drop_first();
        let r1 = reserve(l, id0);
        let r = reserve_all(l, ids);
        assert(r == reserve_all(r1, rest));
        lemma_reserve(l, id0);
        lemma_reserve_all(r1, rest);
        lemma_reserve_all_full(r1, rest);
        lemma_first_match(l, Some(id0));
        lemma_first_match(l, None);
        if r.len() > l.len() && r1.len() > l.len() {
            assert forall|j: int| 0 <= j < r.len() implies (#[trigger] r[j]) is Some by {
                if j < r1.len() && r[j] == r1[j] {
                    if j < l.len() {
                        assert(l[j] is Some);
                        assert(r1[j] == l[j]);
                    }
                } else {
                    lemma_reserve_all_unique(r1, rest, j);
                }
            }
        }
    }
}

/// Where a placement draws its commit: in the first lane that expects it; else in the first
/// free lane; else in a new lane at the end. Further parents take a new slot only once no
/// slot is free.
pub proof fn law_placement_lanes(l: Seq<LaneView>, id: Seq<char>, parents: Seq<Seq<char>>)
    ensures
        ({
            let k = lane_for(l, id) as int;
            let r = placed_lanes(l, id, parents);
            &&& (exists|j: int| 0 <= j < l.len() && l[j] == Some(id)) ==> k < l.len() && l[k] == Some(id)
                && forall|j: int| 0 <= j < k ==> l[j] != Some(id)
            &&& (forall|j: int| 0 <= j < l.len() ==> l[j] != Some(id)) ==> k <= l.len() && (k < l.len()
                ==> l[k] is None) && forall|j: int| 0 <= j < k ==> l[j] is Some
            &&& r.len() > (if k < l.len() {
                l.len()
            } else {
                l.len() + 1
            }) ==> forall|j: int| 0 <= j < r.len() ==> (#[trigger] r[j]) is Some
        }),
{
    lemma_first_match(l, Some(id));
    lemma_first_match(l, None);
    let k = lane_for(l, id) as int;
    let l1 = if k < l.len() {
        l
    } else {
        l.push(None)
    };
    let l2 = l1.update(k, continuation(parents));
    let r = placed_lanes(l, id, parents);
    if exists|j: int| 0 <= j < l.len() && l[j] == Some(id) {
        let j = choose|j: int| 0 <= j < l.len() && l[j] == Some(id);
        assert(first_match(l, Some(id)) < l.len());
    }
    if parents.len() > 0 {
        let rest = parents.drop_first();
        assert(r == reserve_all(l2, rest));
        lemma_reserve_all_full(l2, rest);
    }
}

/// The lane allocator behind the commit timeline.
pub struct LaneLayout {
    lanes: Vec<Option<String>>,
    placed: usize,
}

impl View for LaneLayout {
    type V = Seq<LaneView>;

    closed spec fn view(&self) -> Seq<LaneView> {
        self.lanes@.map_values(|o: Option<String>| opt_view(o))
    }
}

impl LaneLayout {
    /// How many commits have been placed (saturating at `usize::MAX`).
    pub closed spec fn placed_count(&self) -> nat {
        self.placed as nat
    }

    /// An empty layout: no lanes, nothing placed.
    pub fn new() -> (r: Self)
        ensures
            r@ == Seq::<LaneView>::empty(),
            r.placed_count() == 0,
    {
        let r = LaneLayout { lanes: Vec::new(), placed: 0 };
        assert(r@ =~= Seq::<LaneView>::empty());
        r
    }

    /// The first slot that holds `v` (`None` for a free slot), or the number of lanes.
    fn position(&self, v: &Option<String>) -> (r: usize)
        ensures
            r == first_match(self@, opt_view(*v)),
    {
        let n = self.lanes.len();
        let mut i: usize = 0;
        while i < n
            invariant
                n == self.lanes@.len(),
                i <= n,
                forall|j: int| 0 <= j < i ==> self@[j] != opt_view(*v),
            decreases n - i,
        {
            let same = match (&self.lanes[i], v) {
                (Some(a), Some(b)) => *a == *b,
                (None, None) => true,
                _ => false,
            };
            assert(self@[i as int] == opt_view(self.lanes@[i as int]));
            assert(same == (self@[i as int] == opt_view(*v)));
            if same {
                proof {
                    lemma_first_match(self@, opt_view(*v));
                }
                return i;
            }
            i = i + 1;
        }
        proof {
            lemma_first_match(self@, opt_view(*v));
        }
        i
    }

    /// Reserve a lane for `id`, reusing the first free slot when there is one.
    fn allocate(&mut self, id: String) -> (k: usize)
        ensures
            final(self)@ == alloc_lane(old(self)@, id@),
            k == first_match(old(self)@, None),
            final(self).placed_count() == old(self).placed_count(),
    {
        let free = self.position(&None);
        if free < self.lanes.len() {
            self.lanes.set(free, Some(id));
            assert(self@ =~= alloc_lane(old(self)@, id@));
            free
        } else {
            self.lanes.push(Some(id));
            assert(self@ =~= alloc_lane(old(self)@, id@));
            free
        }
    }

    /// Draw commit `id`, whose parents are `parents` (first parent first), and return the
    /// lane it is drawn in.
    pub fn place(&mut self, id: &String, parents: &Vec<String>) -> (lane: usize)
        ensures
            lane == lane_for(old(self)@, id@),
            final(self)@ == placed_lanes(old(self)@, id@, views(parents@)),
            final(self).placed_count() == if old(self).placed_count() < usize::MAX {
                old(self).placed_count() + 1
            } else {
                old(self).placed_count()
            },
            // The commit's lane now expects its first parent (or is free for a root).
            lane < final(self)@.len(),
            final(self)@[lane as int] == continuation(views(parents@)),
            // Every parent is expected by some lane.
            forall|q: int|
                #![trigger parents@[q]]
                0 <= q < parents@.len() ==> exists|j: int|
                    0 <= j < final(self)@.len() && #[trigger] final(self)@[j] == Some(
                        parents@[q]@,
                    ),
            // Every other occupied lane keeps the commit it expects.
            forall|j: int|
                0 <= j < old(self)@.len() && j != lane && old(self)@[j] is Some ==> final(self)@[j]
                    == old(self)@[j],
            // A root adds at most one lane; any other commit at most one per parent.
            final(self)@.len() <= old(self)@.len() + if parents@.len() == 0 {
                1
            } else {
                parents@.len()
            },
            // The lane is the first that expected the commit, else the first free one, else
            // a new one.
            (exists|j: int| 0 <= j < old(self)@.len() && old(self)@[j] == Some(id@)) ==> lane < old(
                self,
            )@.len() && old(self)@[lane as int] == Some(id@) && forall|j: int|
                0 <= j < lane ==> old(self)@[j] != Some(id@),
            (forall|j: int| 0 <= j < old(self)@.len() ==> old(self)@[j] != Some(id@)) ==> lane <= old(
                self,
            )@.len() && (lane < old(self)@.len() ==> old(self)@[lane as int] is None) && forall|j: int|
                0 <= j < lane ==> old(self)@[j] is Some,
            // Further parents take a new slot only once no slot is free.
            final(self)@.len() > (if lane < old(self)@.len() {
                old(self)@.len()
            } else {
                old(self)@.len() + 1
            }) ==> forall|j: int| 0 <= j < final(self)@.len() ==> (#[trigger] final(self)@[j]) is Some,
            // A slot besides the commit's lane that was filled or added expects a further
            // parent, and no other slot expects the same.
            forall|j: int|
                0 <= j < final(self)@.len() && j != lane && (j >= old(self)@.len() || final(self)@[j]
                    != old(self)@[j]) ==> {
                    &&& (exists|q: int|
                        1 <= q < parents@.len() && final(self)@[j] == Some(#[trigger] parents@[q]@))
                    &&& forall|i: int|
                        0 <= i < final(self)@.len() && i != j ==> final(self)@[i] != final(self)@[j]
                },
            // When every further parent is already expected (or is the first parent), no lane
            // is added but the commit's own when it had none reserved.
            (forall|q: int|
                1 <= q < parents@.len() ==> #[trigger] parents@[q]@ == parents@[0]@ || exists|j: int|
                    0 <= j < old(self)@.len() && j != lane && old(self)@[j] == Some(parents@[q]@))
                ==> final(self)@.len() == if lane < old(self)@.len() {
                old(self)@.len()
            } else {
                old(self)@.len() + 1
            },
    {
        let ghost l = self@;
        let ghost ps = views(parents@);
        proof {
            lemma_placed_lanes(l, id@, ps);
            lemma_first_match(l, Some(id@));
            lemma_first_match(l, None);
        }
        let reserved = self.position(&Some(id.clone()));
        assert(self.lanes@.len() == l.len());
        let lane = if reserved < self.lanes.len() {
            reserved
        } else {
            self.allocate(id.clone())
        };
        assert(lane == lane_for(l, id@));
        assert(self.lanes@.len() == self@.len());
        assert(lane < self@.len());
        let next: Option<String> = if parents.len() > 0 {
            Some(parents[0].clone())
        } else {
            None
        };
        assert(opt_view(next) == continuation(ps));
        let ghost before_set = self@;
        self.lanes.set(lane, next);
        assert(self@ =~= before_set.update(lane as int, opt_view(next)));
        let ghost l1 = if lane < l.len() {
            l
        } else {
            l.push(None)
        };
        let ghost l2 = l1.update(lane as int, continuation(ps));
        assert(self@ =~= l2);
        let n = parents.len();
        if n > 0 {
            let mut i: usize = 1;
            assert(ps.subrange(1, n as int) =~= ps.drop_first());
            while i < n
                invariant
                    1 <= i <= n,
                    n == parents@.len(),
                    ps == views(parents@),
                    reserve_all(self@, ps.subrange(i as int, n as int)) == reserve_all(
                        l2,
                        ps.drop_first(),
                    ),
                    self.placed == old(self).placed,
                decreases n - i,
            {
                let ghost cur = self@;
                let ghost sub = ps.subrange(i as int, n as int);
                assert(sub.drop_first() =~= ps.subrange(i as int + 1, n as int));
                assert(sub[0] == parents@[i as int]@);
                let known = self.position(&Some(parents[i].clone()));
                if known >= self.lanes.len() {
                    self.allocate(parents[i].clone());
                }
                assert(self@ == reserve(cur, sub[0]));
                i = i + 1;
            }
            assert(ps.subrange(n as int, n as int) =~= Seq::<Seq<char>>::empty());
        }
        if self.placed < usize::MAX {
            self.placed = self.placed + 1;
        }
        proof {
            let r = self@;
            assert forall|q: int| #![trigger parents@[q]] 0 <= q < parents@.len() implies exists|j: int|
                0 <= j < r.len() && #[trigger] r[j] == Some(parents@[q]@) by {
                assert(ps[q] == parents@[q]@);
            }
            law_known_parent_gets_no_lane(l, id@, ps);
            law_placement_lanes(l, id@, ps);
            let k = lane as int;
            assert forall|j: int|
                0 <= j < r.len() && j != lane && (j >= l.len() || r[j] != l[j]) implies {
                &&& (exists|q: int| 1 <= q < parents@.len() && r[j] == Some(#[trigger] parents@[q]@))
                &&& forall|i: int| 0 <= i < r.len() && i != j ==> r[i] != r[j]
            } by {
                let q = choose|q: int| 1 <= q < ps.len() && r[j] == Some(#[trigger] ps[q]);
                assert(ps[q] == parents@[q]@);
            }
            if forall|q: int|
                1 <= q < parents@.len() ==> #[trigger] parents@[q]@ == parents@[0]@ || exists|j: int|
                    0 <= j < l.len() && j != lane && l[j] == Some(parents@[q]@) {
                assert forall|q: int| 1 <= q < ps.len() implies #[trigger] ps[q] == ps[0] || exists|j: int|
                    0 <= j < l.len() && j != k && l[j] == Some(ps[q]) by {
                    assert(ps[q] == parents@[q]@);
                    assert(ps[0] == parents@[0]@);
                }
            }
        }
        lane
    }

    /// Whether at least `limit` commits have been placed; the timeline stops there, so a
    /// walk always yields at least one commit when the history has one.
    pub fn limit_reached(&self, limit: usize) -> (r: bool)
        ensures
            r == (self.placed_count() >= limit),
    {
        self.placed >= limit
    }

    /// The number of lanes in use so far (occupied or free).
    pub fn width(&self) -> (r: usize)
        ensures
            r == self@.len(),
    {
        self.lanes.len()
    }
}

/// The abbreviated id shown for a commit: its first 8 characters (all of it when
/// shorter).
pub open spec fn abbreviated(id: Seq<char>) -> Seq<char> {
    if id.len() <= 8 {
        id
    } else {
        id.take(8)
    }
}

/// The abbreviated id of commit `id`.
pub fn short_id(id: &str) -> (r: String)
    ensures
        r@ == abbreviated(id@),
{
    let cs = chars_of(id);
    let n = if cs.len() <= 8 {
        cs.len()
    } else {
        8
    };
    let mut out: Vec<char> = Vec::new();
    let mut i: usize = 0;
    while i < n
        invariant
            n <= cs@.len(),
            i <= n,
            out@ == cs@.take(i as int),
        decreases n - i,
    {
        out.push(cs[i]);
        assert(out@ =~= cs@.take(i as int + 1));
        i = i + 1;
    }
    assert(cs@.len() <= 8 ==> cs@.take(n as int) =~= cs@);
    string_from(&out)
}

} // verus!
