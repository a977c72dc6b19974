use std::collections::HashMap;

use priority_queue::PriorityQueue;
use vstd::prelude::*;
use vstd::set::fold::{is_fun_commutative, lemma_fold_empty, lemma_fold_insert};
use vstd::set_lib::lemma_len_subset;

use crate::board::{
    coord_key, coord_key_exec, key_coord, key_coord_exec, lemma_coord_key_injective,
    lemma_key_coord_bijective, lemma_neighbour_list_props, neighbour_list, Board,
};
use crate::coordinates::{adjacent, hex_dist, Coordinates};
use crate::direction::Direction;
use crate::tile::Tile;

verus! {

broadcast use vstd::std_specs::hash::group_hash_axioms;

// ---------------------------------------------------------------------
// The frontier of the search is a priority queue of an outside crate,
// used behind trusted wrappers. Its contents are named as the map from
// queued item to its priority: the queue keeps at most one entry per
// item, and `push` on a present item replaces that item's priority.
/// Priority queue of the priority-queue crate, declared so that a
/// frontier of board keys can be held in verified code.
#[verifier::external_type_specification]
#[verifier::external_body]
#[verifier::reject_recursive_types(I)]
#[verifier::reject_recursive_types(P)]
#[verifier::reject_recursive_types(H)]
pub struct ExPriorityQueue<I, P, H>(PriorityQueue<I, P, H>);

/// The contents of a frontier: each queued key, mapped to its priority.
pub uninterp spec fn frontier_view(q: PriorityQueue<u64, i64>) -> Map<u64, i64>;

/// The contents of a frontier with nothing queued.
pub open spec fn empty_frontier() -> Map<u64, i64> {
    Map::empty()
}

/// Relies on PriorityQueue::new: creates an empty queue.
#[verifier::external_body]
fn pq_new() -> (q: PriorityQueue<u64, i64>)
    ensures
        frontier_view(q) == empty_frontier(),
{
    PriorityQueue::new()
}

/// Relies on PriorityQueue::push: inserts the item with the given
/// priority; an item already queued keeps one entry, its priority
/// replaced and the old priority returned.
#[verifier::external_body]
fn pq_push(q: &mut PriorityQueue<u64, i64>, item: u64, priority: i64) -> (r: Option<i64>)
    ensures
        frontier_view(*final(q)) == frontier_view(*old(q)).insert(item, priority),
        r == if frontier_view(*old(q)).dom().contains(item) {
            Some(frontier_view(*old(q))[item])
        } else {
            None::<i64>
        },
{
    q.push(item, priority)
}

/// Relies on PriorityQueue::pop: removes and returns an item whose
/// priority is greatest, or nothing from an empty queue.
#[verifier::external_body]
fn pq_pop(q: &mut PriorityQueue<u64, i64>) -> (r: Option<(u64, i64)>)
    ensures
        match r {
            None => frontier_view(*old(q)) == empty_frontier() && frontier_view(*final(q))
                == frontier_view(*old(q)),
            Some(pair) => {
                &&& frontier_view(*old(q)).dom().contains(pair.0)
                &&& frontier_view(*old(q))[pair.0] == pair.1
                &&& frontier_view(*final(q)) == frontier_view(*old(q)).remove(pair.0)
                &&& forall|other: u64| #[trigger]
                    frontier_view(*old(q)).dom().contains(other) ==> frontier_view(*old(q))[other]
                        <= pair.1
            },
        },
{
    q.pop()
}

/// Relies on PriorityQueue::is_empty.
#[verifier::external_body]
fn pq_is_empty(q: &PriorityQueue<u64, i64>) -> (r: bool)
    ensures
        r == (frontier_view(*q) == empty_frontier()),
{
    q.is_empty()
}

// ---------------------------------------------------------------------
// A sum over a finite cost map, the potential that shrinks with every
// improvement the search records; it makes the search loop's
// termination measure.
/// The cost recorded for key `k`, or zero for an absent key.
pub open spec fn cost_at(m: Map<u64, u64>, k: u64) -> nat {
    if m.dom().contains(k) {
        m[k] as nat
    } else {
        0
    }
}

/// Sum of the recorded costs of the keys of `s`.
pub open spec fn sum_over(s: Set<u64>, m: Map<u64, u64>) -> nat {
    s.fold(0, |acc: nat, k: u64| acc + cost_at(m, k))
}

/// Sum of all costs recorded in `m`.
pub open spec fn map_sum(m: Map<u64, u64>) -> nat {
    sum_over(m.dom(), m)
}

proof fn lemma_sum_fun_commutative(m: Map<u64, u64>)
    ensures
        is_fun_commutative(|acc: nat, k: u64| acc + cost_at(m, k)),
{
}

/// Two maps that record the same cost on every key of `s` sum alike
/// over `s`.
proof fn lemma_sum_congruent(s: Set<u64>, m1: Map<u64, u64>, m2: Map<u64, u64>)
    requires
        s.finite(),
        forall|k: u64| s.contains(k) ==> cost_at(m1, k) == cost_at(m2, k),
    ensures
        sum_over(s, m1) == sum_over(s, m2),
    decreases s.len(),
{
    lemma_sum_fun_commutative(m1);
    lemma_sum_fun_commutative(m2);
    let f1 = |acc: nat, k: u64| acc + cost_at(m1, k);
    let f2 = |acc: nat, k: u64| acc + cost_at(m2, k);
    if s.len() == 0 {
        assert(s =~= Set::empty());
        lemma_fold_empty(0nat, f1);
        lemma_fold_empty(0nat, f2);
    } else {
        let a = s.choose();
        assert(s.contains(a));
        let rest = s.remove(a);
        lemma_sum_congruent(rest, m1, m2);
        lemma_fold_insert(rest, 0nat, f1, a);
        lemma_fold_insert(rest, 0nat, f2, a);
        assert(rest.insert(a) =~= s);
    }
}

/// Summing over `s` splits off any one key of `s`.
proof fn lemma_sum_remove(s: Set<u64>, m: Map<u64, u64>, k: u64)
    requires
        s.finite(),
        s.contains(k),
    ensures
        sum_over(s, m) == sum_over(s.remove(k), m) + cost_at(m, k),
{
    lemma_sum_fun_commutative(m);
    let f = |acc: nat, k2: u64| acc + cost_at(m, k2);
    lemma_fold_insert(s.remove(k), 0nat, f, k);
    assert(s.remove(k).insert(k) =~= s);
}

/// Lowering the cost recorded for a present key lowers the sum by the
/// same difference.
proof fn lemma_sum_update(m: Map<u64, u64>, k: u64, v: u64)
    requires
        m.dom().finite(),
        m.dom().contains(k),
    ensures
        map_sum(m.insert(k, v)) + m[k] == map_sum(m) + v,
{
    let m2 = m.insert(k, v);
    assert(m2.dom() =~= m.dom());
    lemma_sum_remove(m.dom(), m, k);
    lemma_sum_remove(m2.dom(), m2, k);
    assert(m2.dom().remove(k) =~= m.dom().remove(k));
    lemma_sum_congruent(m.dom().remove(k), m2, m);
}

// ---------------------------------------------------------------------
// What it means for a sequence of coordinates to be a path.
/// `p` walks from a neighbour of `from` to `to`, each step between
/// adjacent hexes, and every hex it visits is a free tile of `m`. The
/// start itself is not part of the walk and need not be free.
pub open spec fn is_free_path(
    m: Map<Coordinates, Tile>,
    from: Coordinates,
    to: Coordinates,
    p: Seq<Coordinates>,
) -> bool {
    &&& p.len() >= 1
    &&& p[p.len() - 1] == to
    &&& adjacent(from, p[0])
    &&& forall|i: int| 0 <= i < p.len() - 1 ==> adjacent(#[trigger] p[i], p[i + 1])
    &&& forall|i: int| 0 <= i < p.len() ==> m.dom().contains(#[trigger] p[i]) && m[p[i]].free
}

/// A key whose every free on-board neighbour is already recorded.
pub open spec fn expanded(m: Map<Coordinates, Tile>, recorded: Set<u64>, k: u64) -> bool {
    forall|d: Direction|
        {
            let n = key_coord(k).spec_step(d);
            m.dom().contains(#[trigger] key_coord(k).spec_step(d)) && m[n].free ==> recorded.contains(
                coord_key(n),
            )
        }
}


/// When every recorded key is expanded, a free path from a recorded
/// start leads only through recorded keys.
proof fn lemma_chain_visited(
    m: Map<Coordinates, Tile>,
    recorded: Set<u64>,
    from: Coordinates,
    p: Seq<Coordinates>,
    j: int,
)
    requires
        recorded.contains(coord_key(from)),
        forall|k: u64| #[trigger] recorded.contains(k) ==> expanded(m, recorded, k),
        is_free_path(m, from, p[p.len() - 1], p),
        0 <= j <= p.len(),
    ensures
        forall|i: int| 0 <= i < j ==> recorded.contains(coord_key(#[trigger] p[i])),
    decreases j,
{
    if j > 0 {
        lemma_chain_visited(m, recorded, from, p, j - 1);
        let prev = if j == 1 {
            from
        } else {
            p[j - 2]
        };
        let pk = coord_key(prev);
        assert(recorded.contains(pk));
        assert(adjacent(prev, p[j - 1]));
        let d = choose|d: Direction| p[j - 1] == prev.spec_step(d);
        lemma_key_coord_bijective(pk, prev);
        assert(key_coord(pk).spec_step(d) == p[j - 1]);
        assert(m.dom().contains(p[j - 1]) && m[p[j - 1]].free);
        assert(recorded.contains(coord_key(p[j - 1])));
    }
}


/// A key expanded against a smaller record set stays expanded against a
/// larger one.
proof fn lemma_expanded_monotone(m: Map<Coordinates, Tile>, s1: Set<u64>, s2: Set<u64>, k: u64)
    requires
        expanded(m, s1, k),
        forall|x: u64| s1.contains(x) ==> s2.contains(x),
    ensures
        expanded(m, s2, k),
{
    assert forall|d: Direction|
        m.dom().contains(#[trigger] key_coord(k).spec_step(d)) && m[key_coord(k).spec_step(
            d,
        )].free implies s2.contains(coord_key(key_coord(k).spec_step(d))) by {
        assert(s1.contains(coord_key(key_coord(k).spec_step(d))));
    }
}

/// The standing relations between the board, the cost record `cs`, the
/// predecessor record `cf`, and the frontier contents `fv` while the
/// search runs.
spec fn search_inv(
    board: Board,
    m: Map<Coordinates, Tile>,
    keys: Set<u64>,
    from: Coordinates,
    cs: Map<u64, u64>,
    cf: Map<u64, u64>,
    fv: Map<u64, i64>,
) -> bool {
    &&& m == board@
    &&& keys == board.key_set()
    &&& keys.finite()
    &&& (forall|c: Coordinates| m.dom().contains(c) <==> keys.contains(#[trigger] coord_key(c)))
    &&& (forall|k: u64| #[trigger] keys.contains(k) ==> m.dom().contains(key_coord(k)))
    &&& cs.dom().contains(coord_key(from))
    &&& cs[coord_key(from)] == 0
    &&& cf.dom() == cs.dom().remove(coord_key(from))
    &&& (forall|k: u64| #[trigger]
        cf.dom().contains(k) ==> m.dom().contains(key_coord(k)) && m[key_coord(k)].free)
    &&& (forall|k: u64| #[trigger]
        cf.dom().contains(k) ==> cs.dom().contains(cf[k]) && cs[cf[k]] < cs[k] && adjacent(
            key_coord(cf[k]),
            key_coord(k),
        ))
    &&& (forall|k: u64| #[trigger] fv.dom().contains(k) ==> cs.dom().contains(k))
    &&& (forall|k: u64| #[trigger] cs.dom().contains(k) ==> keys.contains(k) || k == coord_key(from))
    &&& (forall|k: u64| #[trigger] cs.dom().contains(k) ==> cs[k] + 1 <= cs.dom().len())
    &&& fv.dom().finite()
}

/// Every recorded key still waits in the frontier or is fully expanded.
spec fn frontier_closed(
    m: Map<Coordinates, Tile>,
    cs: Map<u64, u64>,
    fv: Map<u64, i64>,
) -> bool {
    forall|k: u64| #[trigger]
        cs.dom().contains(k) ==> fv.dom().contains(k) || expanded(m, cs.dom(), k)
}

impl Board {
    /// Shortest-path query: a best-first search over free tiles whose
    /// frontier is ordered by hex distance to the goal, followed by a
    /// walk back through the recorded predecessors.
    ///
    /// Returns the walked tiles in order, `from` exclusive and `to`
    /// inclusive; returns nothing exactly when `from == to` or no walk
    /// over free tiles connects the two.
    #[verifier::rlimit(100)]
    pub fn path(&self, from: Coordinates, to: Coordinates) -> (r: Option<Vec<Coordinates>>)
        requires
            self.wf(),
            i32::MIN < from.q < i32::MAX,
            i32::MIN < from.r < i32::MAX,
        ensures
            r matches Some(p) ==> is_free_path(self@, from, to, p@),
            r matches Some(p) ==> forall|i: int| 0 <= i < p@.len() ==> p@[i] != from,
            (r is Some) <==> (from != to && exists|p: Seq<Coordinates>|
                is_free_path(self@, from, to, p)),
    {
        let ghost m = self@;
        let ghost keys = self.key_set();
        proof {
            self.lemma_key_set();
        }
        let from_key = coord_key_exec(from);
        let to_key = coord_key_exec(to);
        let mut frontier = pq_new();
        pq_push(&mut frontier, from_key, 0);
        let mut came_from: HashMap<u64, u64> = HashMap::new();
        let mut cost: HashMap<u64, u64> = HashMap::new();
        cost.insert(from_key, 0);
        proof {
            assert(cost@.dom() =~= Set::empty().insert(from_key));
            assert(came_from@.dom() =~= cost@.dom().remove(from_key));
            assert(frontier_view(frontier).dom() =~= Set::empty().insert(from_key));
            assert(cost@.dom().len() == 1);
        }
        loop
            invariant_except_break
                frontier_closed(m, cost@, frontier_view(frontier)),
            invariant
                self.wf(),
                i32::MIN < from.q < i32::MAX,
                i32::MIN < from.r < i32::MAX,
                from_key == coord_key(from),
                to_key == coord_key(to),
                search_inv(*self, m, keys, from, cost@, came_from@, frontier_view(frontier)),
            ensures
                (frontier_view(frontier) == empty_frontier() && frontier_closed(
                    m,
                    cost@,
                    frontier_view(frontier),
                )) || cost@.dom().contains(coord_key(to)),
            decreases
                keys.len() + 1 - cost@.dom().len(),
                map_sum(cost@),
                frontier_view(frontier).dom().len(),
        {
            proof {
                lemma_len_subset(cost@.dom(), keys.insert(coord_key(from)));
                assert(keys.insert(coord_key(from)).len() <= keys.len() + 1);
            }
            if pq_is_empty(&frontier) {
                break;
            }
            let ghost fv_start = frontier_view(frontier);
            let popped = pq_pop(&mut frontier);
            let (ck, _ck_prio) = popped.unwrap();
            if ck == to_key {
                break;
            }
            let ghost cs0 = cost@;
            let ghost fv0 = frontier_view(frontier);
            let current = key_coord_exec(ck);
            proof {
                lemma_key_coord_bijective(ck, from);
                if ck != coord_key(from) {
                    assert(came_from@.dom().contains(ck));
                    assert(m.dom().contains(current));
                    assert(self@.dom().contains(current));
                }
            }
            let cur_cost = *cost.get(&ck).unwrap();
            let nbrs = self.neighbours(current);
            proof {
                lemma_neighbour_list_props(m, current);
            }
            let ghost mut fresh_count: int = 0;
            let ghost mut improved: int = 0;
            let mut idx: usize = 0;
            while idx < nbrs.len()
                invariant
                    self.wf(),
                    i32::MIN < from.q < i32::MAX,
                    i32::MIN < from.r < i32::MAX,
                    from_key == coord_key(from),
                    search_inv(*self, m, keys, from, cost@, came_from@, frontier_view(frontier)),
                    0 <= idx <= nbrs@.len(),
                    nbrs@ == neighbour_list(m, current),
                    forall|j: int|
                        0 <= j < nbrs@.len() ==> m.dom().contains(#[trigger] nbrs@[j]) && (
                        exists|d: Direction| nbrs@[j] == current.spec_step(d)),
                    current == key_coord(ck),
                    ck == coord_key(current),
                    cost@.dom().contains(ck),
                    cost@[ck] == cur_cost,
                    forall|j: int|
                        0 <= j < idx ==> (m[#[trigger] nbrs@[j]].free ==> cost@.dom().contains(
                            coord_key(nbrs@[j]),
                        )),
                    forall|k: u64| #[trigger]
                        cost@.dom().contains(k) ==> k == ck || frontier_view(
                            frontier,
                        ).dom().contains(k) || expanded(m, cost@.dom(), k),
                    fresh_count >= 0,
                    improved >= 0,
                    forall|k: u64| cs0.dom().contains(k) ==> cost@.dom().contains(k),
                    cost@.dom().len() == cs0.dom().len() + fresh_count,
                    fresh_count == 0 ==> cost@.dom() == cs0.dom(),
                    fresh_count == 0 && improved == 0 ==> cost@ == cs0 && frontier_view(frontier)
                        == fv0,
                    fresh_count == 0 && improved > 0 ==> map_sum(cost@) < map_sum(cs0),
                decreases nbrs@.len() - idx,
            {
                let n = nbrs[idx];
                let t = self.get(n).unwrap();
                if t.free {
                    let nk = coord_key_exec(n);
                    let cl = cost.len();
                    proof {
                        lemma_key_coord_bijective(nk, n);
                        assert(cl == cost@.dom().len());
                        assert(cur_cost + 1 <= cl);
                    }
                    let new_cost = cur_cost + 1;
                    let improve = match cost.get(&nk) {
                        None => true,
                        Some(c) => new_cost < *c,
                    };
                    if improve {
                        proof {
                            // the start never improves: its cost is zero
                            if nk == coord_key(from) {
                                assert(cost@[nk] == 0);
                                assert(false);
                            }
                            // a neighbour is never its own center
                            let d = choose|d: Direction| n == current.spec_step(d);
                            if n == current {
                                assert(hex_dist(current, n) == 0);
                                crate::coordinates::lemma_step_adjacent(current, d);
                                assert(false);
                            }
                            if nk == ck {
                                lemma_coord_key_injective(n, current);
                                assert(false);
                            }
                        }
                        let dist = n.distance_wide(to);
                        proof {
                            assert(hex_dist(n, to) < 0x8000_0000_0000_0000);
                        }
                        let pr: i64 = -(dist as i64);
                        let ghost cs_before = cost@;
                        let ghost was_fresh = !cost@.dom().contains(nk);
                        cost.insert(nk, new_cost);
                        came_from.insert(nk, ck);
                        pq_push(&mut frontier, nk, pr);
                        proof {
                            assert(came_from@.dom() =~= cost@.dom().remove(coord_key(from)));
                            if was_fresh {
                                fresh_count = fresh_count + 1;
                                assert(cost@.dom() =~= cs_before.dom().insert(nk));
                                assert(cost@.dom().len() == cs_before.dom().len() + 1);
                            } else {
                                improved = improved + 1;
                                assert(cost@.dom() =~= cs_before.dom());
                                lemma_sum_update(cs_before, nk, new_cost);
                                if fresh_count == 0 {
                                    assert(map_sum(cost@) < map_sum(cs0));
                                }
                            }
                            // every previously recorded key keeps its standing
                            assert forall|k: u64| #[trigger]
                                cost@.dom().contains(k) implies cost@[k] + 1
                                <= cost@.dom().len() by {
                                if k != nk {
                                    assert(cs_before.dom().contains(k));
                                    assert(cs_before[k] + 1 <= cs_before.dom().len());
                                    assert(cs_before.dom().len() <= cost@.dom().len());
                                } else {
                                    if was_fresh {
                                        assert(new_cost + 1 <= cs_before.dom().len() + 1);
                                    } else {
                                        assert(new_cost < cs_before[nk]);
                                    }
                                }
                            }
                            assert forall|k: u64| #[trigger]
                                cost@.dom().contains(k) implies k == ck || frontier_view(
                                frontier,
                            ).dom().contains(k) || expanded(m, cost@.dom(), k) by {
                                if k != nk && cs_before.dom().contains(k) && !(k == ck
                                    || frontier_view(frontier).dom().contains(k)) {
                                    assert(expanded(m, cs_before.dom(), k));
                                    lemma_expanded_monotone(m, cs_before.dom(), cost@.dom(), k);
                                }
                            }
                        }
                    }
                }
                idx = idx + 1;
            }
            proof {
                // the popped key is now fully expanded
                assert forall|d: Direction|
                    m.dom().contains(#[trigger] key_coord(ck).spec_step(d)) && m[key_coord(
                        ck,
                    ).spec_step(d)].free implies cost@.dom().contains(
                    coord_key(key_coord(ck).spec_step(d)),
                ) by {
                    let n = current.spec_step(d);
                    assert(neighbour_list(m, current).contains(n));
                    let j = choose|j: int|
                        0 <= j < neighbour_list(m, current).len() && neighbour_list(m, current)[j]
                            == n;
                    assert(m[nbrs@[j]].free);
                }
                assert(expanded(m, cost@.dom(), ck));
                assert forall|k: u64| #[trigger]
                    cost@.dom().contains(k) implies frontier_view(frontier).dom().contains(k)
                    || expanded(m, cost@.dom(), k) by {}
                // the measure shrank
                lemma_len_subset(cost@.dom(), keys.insert(coord_key(from)));
                if fresh_count == 0 && improved == 0 {
                    assert(frontier_view(frontier) == fv_start.remove(ck));
                    assert(fv_start.dom().remove(ck).len() < fv_start.dom().len());
                    assert(frontier_view(frontier).dom() =~= fv_start.dom().remove(ck));
                }
            }
        }
        // walk the recorded predecessors backwards from the goal
        let lookup = came_from.get(&to_key);
        if lookup.is_none() {
            proof {
                lemma_key_coord_bijective(to_key, to);
                if from != to {
                    if coord_key(to) == coord_key(from) {
                        lemma_coord_key_injective(to, from);
                    }
                    assert(!cost@.dom().contains(coord_key(to)));
                    assert(frontier_view(frontier) == empty_frontier());
                    assert forall|p: Seq<Coordinates>| !is_free_path(m, from, to, p) by {
                        if is_free_path(m, from, to, p) {
                            assert forall|k: u64| #[trigger]
                                cost@.dom().contains(k) implies expanded(m, cost@.dom(), k) by {
                                assert(!frontier_view(frontier).dom().contains(k));
                            }
                            lemma_chain_visited(m, cost@.dom(), from, p, p.len() as int);
                            assert(cost@.dom().contains(coord_key(p[p.len() - 1])));
                            assert(false);
                        }
                    }
                }
            }
            return None;
        }
        proof {
            assert(came_from@.dom().contains(coord_key(to)));
            if coord_key(to) == coord_key(from) {
                lemma_coord_key_injective(to, from);
                assert(false);
            }
            assert(from != to);
        }
        let mut rev: Vec<Coordinates> = Vec::new();
        let mut cur: Coordinates = to;
        while !(cur.q == from.q && cur.r == from.r)
            invariant
                search_inv(*self, m, keys, from, cost@, came_from@, frontier_view(frontier)),
                from_key == coord_key(from),
                cost@.dom().contains(coord_key(cur)),
                cur != from ==> came_from@.dom().contains(coord_key(cur)),
                rev@.len() == 0 ==> cur == to,
                rev@.len() > 0 ==> rev@[0] == to && adjacent(cur, rev@[rev@.len() - 1]),
                forall|i: int| 0 <= i < rev@.len() - 1 ==> adjacent(rev@[i + 1], #[trigger] rev@[i]),
                forall|i: int|
                    0 <= i < rev@.len() ==> m.dom().contains(#[trigger] rev@[i]) && m[rev@[i]].free
                        && rev@[i] != from,
            decreases cost@[coord_key(cur)],
        {
            proof {
                assert(cur != from);
            }
            rev.push(cur);
            let ck2 = coord_key_exec(cur);
            let pk = *came_from.get(&ck2).unwrap();
            let ghost old_cur = cur;
            cur = key_coord_exec(pk);
            proof {
                lemma_key_coord_bijective(ck2, old_cur);
                assert(came_from@.dom().contains(ck2));
                assert(adjacent(key_coord(pk), key_coord(ck2)));
                assert(cost@[pk] < cost@[ck2]);
                if cur != from {
                    lemma_key_coord_bijective(pk, from);
                    if pk == coord_key(from) {
                        assert(key_coord(pk) == from);
                        assert(false);
                    }
                    assert(cost@.dom().contains(pk));
                    assert(came_from@.dom().contains(pk));
                }
            }
        }
        let mut out: Vec<Coordinates> = Vec::new();
        let mut i2: usize = rev.len();
        proof {
            assert(rev@.len() >= 1);
        }
        while i2 > 0
            invariant
                0 <= i2 <= rev@.len(),
                out@.len() == rev@.len() - i2,
                forall|j: int|
                    0 <= j < out@.len() ==> #[trigger] out@[j] == rev@[rev@.len() - 1 - j],
            decreases i2,
        {
            i2 = i2 - 1;
            let c = rev[i2];
            out.push(c);
        }
        proof {
            let p = out@;
            let rv = rev@;
            let len = rv.len() as int;
            assert(p.len() == len);
            assert(p[len - 1] == rv[0]);
            assert(adjacent(from, p[0])) by {
                assert(p[0] == rv[len - 1]);
                assert(adjacent(cur, rv[len - 1]));
            }
            assert forall|i: int| 0 <= i < p.len() - 1 implies adjacent(#[trigger] p[i], p[i + 1]) by {
                assert(p[i] == rv[len - 1 - i]);
                assert(p[i + 1] == rv[len - 2 - i]);
                assert(adjacent(rv[(len - 2 - i) + 1], rv[len - 2 - i]));
            }
            assert forall|i: int| 0 <= i < p.len() implies m.dom().contains(#[trigger] p[i])
                && m[p[i]].free && p[i] != from by {
                assert(p[i] == rv[len - 1 - i]);
            }
            assert(is_free_path(m, from, to, p));
        }
        Some(out)
    }
}


/// A goal hex all six neighbours of which exist and are filled cannot be
/// reached: no walk over free tiles ends there from a start that is not
/// itself adjacent to the goal.
pub proof fn lemma_enclosed_goal_unreachable(
    m: Map<Coordinates, Tile>,
    from: Coordinates,
    to: Coordinates,
)
    requires
        forall|c: Coordinates| #[trigger]
            m.dom().contains(c) ==> -crate::coordinates::COORD_LIMIT <= c.q
                <= crate::coordinates::COORD_LIMIT && -crate::coordinates::COORD_LIMIT <= c.r
                <= crate::coordinates::COORD_LIMIT,
        forall|d: Direction|
            m.dom().contains(#[trigger] to.spec_step(d)) && !m[to.spec_step(d)].free,
        !adjacent(from, to),
    ensures
        forall|p: Seq<Coordinates>| !is_free_path(m, from, to, p),
{
    assert forall|p: Seq<Coordinates>| !is_free_path(m, from, to, p) by {
        if is_free_path(m, from, to, p) {
            let len = p.len() as int;
            assert(p[len - 1] == to);
            if len == 1 {
                assert(adjacent(from, to));
            } else {
                let x = p[len - 2];
                assert(adjacent(x, p[len - 1]));
                let d = choose|d: Direction| p[len - 1] == x.spec_step(d);
                assert(m.dom().contains(x) && m[x].free);
                assert(m.dom().contains(to));
                assert(to == x.spec_step(d));
                assert(x == to.spec_step(d.spec_opposite()));
                assert(!m[x].free);
            }
        }
    }
}

/// No walk over free tiles is shorter than the hex distance between its
/// endpoints.
pub proof fn lemma_path_length_at_least_distance(
    m: Map<Coordinates, Tile>,
    from: Coordinates,
    to: Coordinates,
    p: Seq<Coordinates>,
)
    requires
        forall|c: Coordinates| #[trigger]
            m.dom().contains(c) ==> -crate::coordinates::COORD_LIMIT <= c.q
                <= crate::coordinates::COORD_LIMIT && -crate::coordinates::COORD_LIMIT <= c.r
                <= crate::coordinates::COORD_LIMIT,
        i32::MIN < from.q < i32::MAX,
        i32::MIN < from.r < i32::MAX,
        is_free_path(m, from, to, p),
    ensures
        p.len() >= hex_dist(from, to),
    decreases p.len(),
{
    let len = p.len() as int;
    let d = choose|d: Direction| p[0] == from.spec_step(d);
    assert(m.dom().contains(p[0]));
    assert(p[0] == from.spec_step(d));
    assert(hex_dist(from, p[0]) == 1) by {
        crate::coordinates::lemma_step_adjacent(from, d);
    }
    if len == 1 {
        crate::coordinates::lemma_distance_metric(from, to, to);
    } else {
        let rest = p.subrange(1, len);
        assert(is_free_path(m, p[0], to, rest)) by {
            assert(rest[rest.len() - 1] == p[len - 1]);
            assert(adjacent(p[0], p[1]));
            assert(forall|i: int|
                0 <= i < rest.len() - 1 ==> adjacent(#[trigger] rest[i], rest[i + 1]));
            assert(forall|i: int|
                0 <= i < rest.len() ==> m.dom().contains(#[trigger] rest[i]) && m[rest[i]].free);
        }
        lemma_path_length_at_least_distance(m, p[0], to, rest);
        crate::coordinates::lemma_distance_metric(from, p[0], to);
        assert(hex_dist(from, to) <= hex_dist(from, p[0]) + hex_dist(p[0], to));
    }
}

} // verus!
