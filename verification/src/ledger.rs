//! The books of a search in progress: the best cost known for each state,
//! the records of the states that were reached, and the working set, with
//! the invariant that makes the search exact.

use vstd::prelude::*;
use crate::heading::Direction;
use crate::route::{Node, inside, rectangular, entry_cost, legal_step, is_seed, is_walk, is_terminal, walk_cost, lemma_walk_extend, lemma_walk_prefix, lemma_walk_inside};
use crate::frontier::{Frontier, Entry};
use crate::table::{valid_node, state_count, slot, lemma_slot_in_range, lemma_slot_injective};

verus! {

/// The cost that stands for "not reached".
pub const UNREACHED: usize = usize::MAX;

/// The record of a state that the search reached: where it is, what it cost
/// to get there, and the number of the record that it was reached from.
#[derive(Copy, Clone, Debug)]
pub struct State {
    pub pos: (usize, usize),
    pub cost: usize,
    pub direction: Direction,
    pub straight_line: u8,
    pub prev: Option<usize>,
}

impl State {
    /// The state that the record is about.
    pub open spec fn node(self) -> Node {
        Node { x: self.pos.0 as int, y: self.pos.1 as int, dir: self.direction, run: self.straight_line as int }
    }
}

/// What is searched for: the grid, the mode, the start and goal cells, and a
/// ceiling on the cost of a cell.
pub struct Task {
    pub g: Seq<Seq<usize>>,
    pub ultra: bool,
    pub start: (int, int),
    pub goal: (int, int),
    pub cap: int,
}

/// How far the search has come within one round: the state that is being
/// expanded, if any, with the number of headings already tried from it, and
/// the number of headings for which the start has been entered.
pub struct Phase {
    pub cur: Option<Node>,
    pub handled: int,
    pub seeded: int,
}

/// The task is one that the tables have room for: the grid is rectangular,
/// the start is a cell, no cell costs more than the ceiling, and the ceiling
/// times the number of states fits a machine word.
pub open spec fn task_fits(t: Task) -> bool {
    &&& rectangular(t.g)
    &&& inside(t.g, t.start.0, t.start.1)
    &&& 0 <= t.cap
    &&& forall|x: int, y: int| inside(t.g, x, y) ==> #[trigger] entry_cost(t.g, x, y) <= t.cap
    &&& (state_count(t.g) + 1) * (t.cap + 1) <= usize::MAX
}

/// Record `i` is a seed of cost nothing, or was reached from an earlier
/// record by a legal step and costs the entry of its cell more.
pub open spec fn record_ok(t: Task, arena: Seq<State>, i: int) -> bool {
    &&& valid_node(t.g, arena[i].node())
    &&& match arena[i].prev {
        None => is_seed(t.g, t.start, arena[i].node()) && arena[i].cost == 0,
        Some(j) => {
            &&& j < i
            &&& legal_step(t.g, t.ultra, arena[j as int].node(), arena[i].node())
            &&& arena[i].cost == arena[j as int].cost + entry_cost(t.g, arena[i].node().x, arena[i].node().y)
        },
    }
}

/// The states from a seed to record `i`, along the records' predecessors.
pub open spec fn trail(arena: Seq<State>, i: int) -> Seq<Node>
    decreases i,
{
    if 0 <= i < arena.len() {
        match arena[i].prev {
            Some(j) => if j < i {
                trail(arena, j as int).push(arena[i].node())
            } else {
                seq![arena[i].node()]
            },
            None => seq![arena[i].node()],
        }
    } else {
        Seq::empty()
    }
}

/// The books of a search.
pub struct Search {
    pub dist: Vec<usize>,
    pub arena: Vec<State>,
    pub frontier: Frontier,
    pub done: Ghost<Set<int>>,
    pub live: Ghost<Seq<usize>>,
    pub floor: Ghost<int>,
}

impl Search {
    /// The best cost known for a state.
    pub open spec fn best(&self, t: Task, n: Node) -> usize {
        self.dist@[slot(t.g, n)]
    }

    /// The state has been expanded: its best cost is final.
    pub open spec fn settled(&self, t: Task, n: Node) -> bool {
        self.done@.contains(slot(t.g, n))
    }

    /// The number of the record that carries the state's best cost.
    pub open spec fn carrier(&self, t: Task, n: Node) -> usize {
        self.live@[slot(t.g, n)]
    }

    /// The tables have one slot for each state, and the expanded states are
    /// among them.
    pub open spec fn sized(&self, t: Task) -> bool {
        &&& task_fits(t)
        &&& self.dist@.len() == state_count(t.g)
        &&& self.live@.len() == state_count(t.g)
        &&& self.done@.finite()
        &&& forall|k: int| #[trigger] self.done@.contains(k) ==> 0 <= k < state_count(t.g)
        &&& self.done@.len() <= state_count(t.g)
        &&& self.frontier.well_formed()
        &&& 0 <= self.floor@
    }

    /// Record `i` is sound, costs no less than the best known for its state,
    /// and no more than the ceiling times the number of expansions.
    pub open spec fn record_sound(&self, t: Task, i: int) -> bool {
        &&& record_ok(t, self.arena@, i)
        &&& self.dist@[slot(t.g, self.arena@[i].node())] <= self.arena@[i].cost
        &&& self.arena@[i].cost <= self.done@.len() * t.cap
    }

    /// Every record is sound.
    pub open spec fn records_ok(&self, t: Task) -> bool {
        forall|i: int| 0 <= i < self.arena@.len() ==> #[trigger] self.record_sound(t, i)
    }

    /// Every entry of the working set belongs to a record and has its cost,
    /// which is no less than the last cost taken out; it is held once; and if
    /// its cost is the best known for its state, its record carries the state,
    /// which is not expanded yet.
    pub open spec fn entries_ok(&self, t: Task) -> bool {
        forall|e: Entry|
            #[trigger] self.frontier@.count(e) > 0 ==> {
                &&& e.1 < self.arena@.len()
                &&& self.arena@[e.1 as int].cost == e.0
                &&& self.floor@ <= e.0
                &&& self.frontier@.count(e) == 1
                &&& e.0 == self.dist@[slot(t.g, self.arena@[e.1 as int].node())] ==> {
                    &&& e.1 == self.live@[slot(t.g, self.arena@[e.1 as int].node())]
                    &&& !self.done@.contains(slot(t.g, self.arena@[e.1 as int].node()))
                }
            }
    }

    /// Every state that was reached has a record that carries its best cost,
    /// and an entry for it in the working set until it is expanded.
    pub open spec fn carried(&self, t: Task) -> bool {
        forall|n: Node|
            valid_node(t.g, n) && #[trigger] self.best(t, n) < UNREACHED ==> {
                &&& self.carrier(t, n) < self.arena@.len()
                &&& self.arena@[self.carrier(t, n) as int].node() == n
                &&& self.arena@[self.carrier(t, n) as int].cost == self.best(t, n)
                &&& !self.settled(t, n) ==> self.frontier@.count((self.best(t, n), self.carrier(t, n))) > 0
            }
    }

    /// An expanded state costs no more than the last cost taken out, leaves
    /// room for one more cell below the ceiling's budget, and is not terminal.
    pub open spec fn settled_ok(&self, t: Task) -> bool {
        forall|n: Node|
            valid_node(t.g, n) && #[trigger] self.settled(t, n) ==> {
                &&& self.best(t, n) <= self.floor@
                &&& self.best(t, n) + t.cap <= self.done@.len() * t.cap
                &&& !is_terminal(t.ultra, t.goal, n)
            }
    }

    /// Every legal step from an expanded state has been tried: the state it
    /// leads to costs no more than the step makes it. Of the state that is
    /// being expanded, only the headings tried so far count.
    pub open spec fn closed_ok(&self, t: Task, ph: Phase) -> bool {
        forall|n: Node, v: Node|
            valid_node(t.g, n) && valid_node(t.g, v) && self.settled(t, n) && #[trigger] legal_step(
                t.g,
                t.ultra,
                n,
                v,
            ) && (ph.cur == Some(n) ==> v.dir.ordinal() < ph.handled) ==> self.best(t, v) <= self.best(t, n)
                + entry_cost(t.g, v.x, v.y)
    }

    /// The seeds entered so far cost nothing.
    pub open spec fn seeds_ok(&self, t: Task, ph: Phase) -> bool {
        forall|n: Node| #[trigger] is_seed(t.g, t.start, n) && n.dir.ordinal() < ph.seeded ==> self.best(t, n) == 0
    }

    /// The state that is being expanded is valid, counts as expanded, and
    /// costs what was last taken out.
    pub open spec fn phase_ok(&self, t: Task, ph: Phase) -> bool {
        &&& 0 <= ph.handled <= 4
        &&& 0 <= ph.seeded <= 4
        &&& match ph.cur {
            Some(u) => valid_node(t.g, u) && self.settled(t, u) && self.best(t, u) == self.floor@,
            None => true,
        }
    }

    /// The invariant of the search.
    pub open spec fn inv(&self, t: Task, ph: Phase) -> bool {
        &&& self.sized(t)
        &&& self.records_ok(t)
        &&& self.entries_ok(t)
        &&& self.carried(t)
        &&& self.settled_ok(t)
        &&& self.closed_ok(t, ph)
        &&& self.seeds_ok(t, ph)
        &&& self.phase_ok(t, ph)
    }
}

/// The trail of a sound record is a walk that ends in the record's state and
/// costs what the record says.
pub proof fn lemma_trail_is_walk(t: Task, arena: Seq<State>, i: int)
    requires
        forall|k: int| 0 <= k <= i ==> record_ok(t, arena, k),
        0 <= i < arena.len(),
    ensures
        is_walk(t.g, t.ultra, t.start, trail(arena, i)),
        trail(arena, i).last() == arena[i].node(),
        walk_cost(t.g, trail(arena, i)) == arena[i].cost,
    decreases i,
{
    assert(record_ok(t, arena, i));
    match arena[i].prev {
        Some(j) => {
            lemma_trail_is_walk(t, arena, j as int);
            lemma_walk_extend(t.g, t.ultra, t.start, trail(arena, j as int), arena[i].node());
        },
        None => {
            let p = seq![arena[i].node()];
            assert(trail(arena, i) == p);
            assert(p[0] == arena[i].node());
        },
    }
}

/// The budget of `k` expansions is that of `n` at most, where `k <= n`, and
/// that of `n` stays below the product of the successors.
pub proof fn lemma_budget_monotone(k: int, n: int, cap: int)
    requires
        0 <= k <= n,
        0 <= cap,
    ensures
        0 <= k * cap <= n * cap,
        (k + 1) * cap == k * cap + cap,
        n * cap + cap < (n + 1) * (cap + 1),
        n < (n + 1) * (cap + 1),
{
    assert(n * cap + cap < (n + 1) * (cap + 1) && n < (n + 1) * (cap + 1)) by (nonlinear_arith)
        requires
            0 <= n,
            0 <= cap,
    ;
    assert(0 <= k * cap <= n * cap) by (nonlinear_arith)
        requires
            0 <= k <= n,
            0 <= cap,
    ;
    assert((k + 1) * cap == k * cap + cap) by (nonlinear_arith);
}

impl Search {
    /// No walk is cheaper than the books say: a walk that ends in an
    /// expanded state costs no less than the state's best cost, and a walk
    /// that ends in any other state costs no less than some entry of the
    /// working set.
    pub proof fn lemma_walk_bound(&self, t: Task, ph: Phase, p: Seq<Node>)
        requires
            self.inv(t, ph),
            ph.cur is None,
            ph.seeded == 4,
            is_walk(t.g, t.ultra, t.start, p),
        ensures
            valid_node(t.g, p.last()),
            self.settled(t, p.last()) ==> self.best(t, p.last()) <= walk_cost(t.g, p),
            !self.settled(t, p.last()) ==> exists|e: Entry|
                #[trigger] self.frontier@.count(e) > 0 && e.0 <= walk_cost(t.g, p),
        decreases p.len(),
    {
        let v = p.last();
        lemma_walk_inside(t.g, t.ultra, t.start, p, p.len() - 1);
        assert(valid_node(t.g, v));
        if p.len() == 1 {
            assert(is_seed(t.g, t.start, v));
            assert(self.best(t, v) == 0);
            if !self.settled(t, v) {
                let e: Entry = (self.best(t, v), self.carrier(t, v));
                assert(self.frontier@.count(e) > 0);
            }
        } else {
            let q = p.drop_last();
            let u = q.last();
            lemma_walk_prefix(t.g, t.ultra, t.start, p);
            self.lemma_walk_bound(t, ph, q);
            assert(walk_cost(t.g, p) == walk_cost(t.g, q) + entry_cost(t.g, v.x, v.y));
            assert(entry_cost(t.g, v.x, v.y) <= t.cap);
            if self.settled(t, u) {
                assert(legal_step(t.g, t.ultra, u, v));
                assert(self.best(t, v) <= self.best(t, u) + entry_cost(t.g, v.x, v.y));
                lemma_budget_monotone(self.done@.len() as int, state_count(t.g), t.cap);
                assert(self.best(t, v) < UNREACHED);
                if !self.settled(t, v) {
                    let e: Entry = (self.best(t, v), self.carrier(t, v));
                    assert(self.frontier@.count(e) > 0);
                }
            } else {
                let e = choose|e: Entry| #[trigger] self.frontier@.count(e) > 0 && e.0 <= walk_cost(t.g, q);
                assert(self.frontier@.count(e) > 0 && e.0 <= walk_cost(t.g, p));
                if self.settled(t, v) {
                    assert(self.best(t, v) <= self.floor@);
                }
            }
        }
    }
}

impl Search {
    /// Fresh books: no state reached, no record, an empty working set.
    pub(crate) fn new(n: usize, Ghost(t): Ghost<Task>) -> (s: Search)
        requires
            task_fits(t),
            n == state_count(t.g),
        ensures
            s.inv(t, Phase { cur: None, handled: 4, seeded: 0 }),
            s.done@ == Set::<int>::empty(),
            s.frontier@.len() == 0,
            s.arena@.len() == 0,
            s.floor@ == 0,
            forall|k: int| 0 <= k < n ==> s.dist@[k] == UNREACHED,
    {
        let mut dist: Vec<usize> = Vec::new();
        let mut i: usize = 0;
        while i < n
            invariant
                i <= n,
                dist@.len() == i,
                forall|k: int| 0 <= k < i ==> dist@[k] == UNREACHED,
            decreases n - i,
        {
            dist.push(UNREACHED);
            i = i + 1;
        }
        let s = Search {
            dist,
            arena: Vec::new(),
            frontier: Frontier::new(),
            done: Ghost(Set::<int>::empty()),
            live: Ghost(Seq::new(n as nat, |k: int| 0usize)),
            floor: Ghost(0int),
        };
        proof {
            let ph = Phase { cur: None, handled: 4, seeded: 0 };
            assert(s.sized(t));
            assert(s.entries_ok(t)) by {
                assert forall|e: Entry| #[trigger] s.frontier@.count(e) > 0 implies false by {
                    vstd::multiset::axiom_count_le_len(s.frontier@, e);
                }
            }
            assert(s.carried(t)) by {
                assert forall|m: Node| valid_node(t.g, m) && #[trigger] s.best(t, m) < UNREACHED implies false by {
                    lemma_slot_in_range(t.g, m);
                }
            }
            assert(s.inv(t, ph));
        }
        s
    }

    /// Enters a cheaper record for a state: it becomes the state's best
    /// cost and carrier, and joins the working set.
    pub(crate) fn improve(&mut self, rec: State, k: usize, Ghost(t): Ghost<Task>, Ghost(ph): Ghost<Phase>)
        requires
            old(self).inv(t, ph),
            valid_node(t.g, rec.node()),
            k == slot(t.g, rec.node()),
            rec.cost < old(self).best(t, rec.node()),
            old(self).floor@ <= rec.cost,
            rec.cost <= old(self).done@.len() * t.cap,
            record_ok(t, old(self).arena@.push(rec), old(self).arena@.len() as int),
        ensures
            final(self).inv(t, ph),
            final(self).best(t, rec.node()) == rec.cost,
            forall|n: Node|
                valid_node(t.g, n) && n != rec.node() ==> #[trigger] final(self).best(t, n) == old(self).best(t, n),
            final(self).done@ == old(self).done@,
            final(self).floor@ == old(self).floor@,
            final(self).frontier@.len() == old(self).frontier@.len() + 1,
            final(self).arena@ == old(self).arena@.push(rec),
    {
        let id: usize = self.arena.len();
        let ghost v = rec.node();
        proof {
            lemma_slot_in_range(t.g, v);
        }
        self.dist.set(k, rec.cost);
        self.arena.push(rec);
        self.frontier.push(rec.cost, id);
        self.live = Ghost(self.live@.update(k as int, id));
        proof {
            let a0 = old(self).arena@;
            let a1 = self.arena@;
            assert(!old(self).settled(t, v));
            assert forall|n: Node| valid_node(t.g, n) implies (#[trigger] slot(t.g, n) == k <==> n == v) by {
                if slot(t.g, n) == k {
                    lemma_slot_injective(t.g, n, v);
                }
            }
            assert forall|n: Node| valid_node(t.g, n) implies {
                &&& 0 <= slot(t.g, n) < state_count(t.g)
                &&& #[trigger] self.best(t, n) == if n == v {
                    rec.cost
                } else {
                    old(self).best(t, n)
                }
                &&& self.carrier(t, n) == if n == v {
                    id
                } else {
                    old(self).carrier(t, n)
                }
                &&& self.settled(t, n) == old(self).settled(t, n)
            } by {
                lemma_slot_in_range(t.g, n);
                assert(slot(t.g, n) == k <==> n == v);
            }
            assert(self.sized(t));
            assert(self.records_ok(t)) by {
                assert forall|i: int| 0 <= i < a1.len() implies #[trigger] self.record_sound(t, i) by {
                    if i < a0.len() {
                        assert(a1[i] == a0[i]);
                        assert(old(self).record_sound(t, i));
                        assert(self.best(t, a0[i].node()) <= old(self).best(t, a0[i].node()));
                        match a0[i].prev {
                            Some(j) => {
                                assert(a1[j as int] == a0[j as int]);
                            },
                            None => {},
                        }
                    }
                }
            }
            assert(self.entries_ok(t)) by {
                assert forall|e: Entry| #[trigger] self.frontier@.count(e) > 0 implies {
                    &&& e.1 < a1.len()
                    &&& a1[e.1 as int].cost == e.0
                    &&& self.floor@ <= e.0
                    &&& self.frontier@.count(e) == 1
                    &&& e.0 == self.dist@[slot(t.g, a1[e.1 as int].node())] ==> {
                        &&& e.1 == self.live@[slot(t.g, a1[e.1 as int].node())]
                        &&& !self.done@.contains(slot(t.g, a1[e.1 as int].node()))
                    }
                } by {
                    if e == (rec.cost, id) {
                        if old(self).frontier@.count(e) > 0 {
                            assert(e.1 < a0.len());
                        }
                        assert(self.best(t, v) == rec.cost);
                    } else {
                        assert(old(self).frontier@.count(e) > 0);
                        assert(a1[e.1 as int] == a0[e.1 as int]);
                        assert(old(self).record_sound(t, e.1 as int));
                        let m = a0[e.1 as int].node();
                        assert(self.best(t, m) <= old(self).best(t, m));
                        assert(self.carrier(t, m) == if m == v {
                            id
                        } else {
                            old(self).carrier(t, m)
                        });
                    }
                }
            }
            assert(self.carried(t)) by {
                assert forall|n: Node| valid_node(t.g, n) && #[trigger] self.best(t, n) < UNREACHED implies {
                    &&& self.carrier(t, n) < a1.len()
                    &&& a1[self.carrier(t, n) as int].node() == n
                    &&& a1[self.carrier(t, n) as int].cost == self.best(t, n)
                    &&& !self.settled(t, n) ==> self.frontier@.count((self.best(t, n), self.carrier(t, n))) > 0
                } by {
                    if n != v {
                        assert(old(self).best(t, n) < UNREACHED);
                        assert(a1[old(self).carrier(t, n) as int] == a0[old(self).carrier(t, n) as int]);
                    }
                }
            }
            assert(self.settled_ok(t)) by {
                assert forall|n: Node| valid_node(t.g, n) && #[trigger] self.settled(t, n) implies {
                    &&& self.best(t, n) <= self.floor@
                    &&& self.best(t, n) + t.cap <= self.done@.len() * t.cap
                    &&& !is_terminal(t.ultra, t.goal, n)
                } by {
                    assert(old(self).settled(t, n));
                }
            }
            assert(self.closed_ok(t, ph)) by {
                assert forall|n: Node, w: Node|
                    valid_node(t.g, n) && valid_node(t.g, w) && self.settled(t, n) && #[trigger] legal_step(
                        t.g,
                        t.ultra,
                        n,
                        w,
                    ) && (ph.cur == Some(n) ==> w.dir.ordinal() < ph.handled) implies self.best(t, w)
                    <= self.best(t, n) + entry_cost(t.g, w.x, w.y) by {
                    assert(old(self).settled(t, n));
                    assert(self.best(t, w) <= old(self).best(t, w));
                }
            }
            assert(self.seeds_ok(t, ph)) by {
                assert forall|n: Node| #[trigger]
                    is_seed(t.g, t.start, n) && n.dir.ordinal() < ph.seeded implies self.best(t, n) == 0 by {
                    assert(valid_node(t.g, n));
                    assert(old(self).best(t, n) == 0);
                }
            }
            assert(self.phase_ok(t, ph));
        }
    }
}

} // verus!
