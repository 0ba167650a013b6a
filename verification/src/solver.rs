//! The search itself: a shortest-path search over the states of a traveller,
//! which takes states out of the working set in the order of their cost.

use vstd::prelude::*;
use vstd::string::StringSliceAdditionalSpecFns;
use crate::heading::Direction;
use crate::route::{Node, width, inside, entry_cost, legal_step, step_to, lemma_step_to, is_seed, is_terminal, is_route, walk_cost, reachable, is_least_cost};
use crate::states::{Step, steps_view, successor};
use crate::grid::{Grid, MalformedInput, parsed, lemma_parsed_size};
use crate::frontier::Entry;
use crate::table::{valid_node, state_count, slot, slot_of, lemma_slot_in_range, lemma_slot_injective, lemma_cell_in_range};
use crate::ledger::{Search, State, Task, Phase, UNREACHED, task_fits, record_ok, trail, lemma_trail_is_walk, lemma_budget_monotone};

verus! {

impl Search {
    /// Enters the start in one heading, at no cost and with no cell travelled.
    pub(crate) fn seed(&mut self, w: usize, h: usize, start: (usize, usize), d: Direction, Ghost(t): Ghost<Task>)
        requires
            old(self).inv(t, Phase { cur: None, handled: 4, seeded: d.ordinal() }),
            old(self).done@ == Set::<int>::empty(),
            old(self).floor@ == 0,
            w == width(t.g),
            h == t.g.len(),
            t.start == (start.0 as int, start.1 as int),
            forall|n: Node|
                valid_node(t.g, n) && !(is_seed(t.g, t.start, n) && n.dir.ordinal() < d.ordinal()) ==> #[trigger] old(self).best(t, n) == UNREACHED,
        ensures
            final(self).inv(t, Phase { cur: None, handled: 4, seeded: d.ordinal() + 1 }),
            final(self).done@ == Set::<int>::empty(),
            final(self).floor@ == 0,
            final(self).frontier@.len() == old(self).frontier@.len() + 1,
            forall|n: Node|
                valid_node(t.g, n) && !(is_seed(t.g, t.start, n) && n.dir.ordinal() < d.ordinal() + 1) ==> #[trigger] final(self).best(t, n) == UNREACHED,
    {
        let rec = State { pos: start, cost: 0, direction: d, straight_line: 0, prev: None };
        let ghost ph = Phase { cur: None, handled: 4, seeded: d.ordinal() };
        proof {
            lemma_budget_monotone(0, state_count(t.g), t.cap);
            lemma_cell_in_range(w as int, h as int, start.0 as int, start.1 as int);
            assert(is_seed(t.g, t.start, rec.node()));
            assert(self.done@.len() == 0);
            assert(self.done@.len() * t.cap == 0) by (nonlinear_arith)
                requires
                    self.done@.len() == 0,
            ;
        }
        assert(state_count(t.g) == h * w * 44) by (nonlinear_arith)
            requires
                state_count(t.g) == t.g.len() * width(t.g) * 44,
                w == width(t.g),
                h == t.g.len(),
        ;
        let k = slot_of(w, h, start.0, start.1, d, 0);
        assert(k == slot(t.g, rec.node()));
        self.improve(rec, k, Ghost(t), Ghost(ph));
        proof {
            let ph1 = Phase { cur: None, handled: 4, seeded: d.ordinal() + 1 };
            assert(self.closed_ok(t, ph1)) by {
                assert forall|n: Node, v: Node|
                    valid_node(t.g, n) && valid_node(t.g, v) && self.settled(t, n) && #[trigger] legal_step(
                        t.g,
                        t.ultra,
                        n,
                        v,
                    ) && (ph1.cur == Some(n) ==> v.dir.ordinal() < ph1.handled) implies self.best(t, v)
                    <= self.best(t, n) + entry_cost(t.g, v.x, v.y) by {
                    assert(!self.settled(t, n));
                }
            }
            assert(self.seeds_ok(t, ph1)) by {
                assert forall|n: Node| #[trigger]
                    is_seed(t.g, t.start, n) && n.dir.ordinal() < ph1.seeded implies self.best(t, n) == 0 by {
                    if n.dir.ordinal() < d.ordinal() {
                        assert(is_seed(t.g, t.start, n) && n.dir.ordinal() < ph.seeded);
                        assert(old(self).best(t, n) == 0);
                    } else {
                        assert(n.dir == d);
                        assert(n == rec.node());
                    }
                }
            }
            assert(self.inv(t, ph1));
        }
    }
}

impl Search {
    /// Whatever state a legal step from `u` into heading `d` leads to costs
    /// no more than the step makes it.
    pub open spec fn heading_closed(&self, t: Task, u: Node, d: Direction) -> bool {
        forall|v: Node|
            valid_node(t.g, v) && #[trigger] legal_step(t.g, t.ultra, u, v) && v.dir == d ==> self.best(t, v)
                <= self.best(t, u) + entry_cost(t.g, v.x, v.y)
    }

    /// Once the heading with ordinal `handled` is closed for the state that
    /// is being expanded, one more heading counts as tried.
    pub proof fn lemma_heading_done(&self, t: Task, u: Node, d: Direction)
        requires
            self.inv(t, Phase { cur: Some(u), handled: d.ordinal(), seeded: 4 }),
            self.heading_closed(t, u, d),
        ensures
            self.inv(t, Phase { cur: Some(u), handled: d.ordinal() + 1, seeded: 4 }),
    {
        let ph = Phase { cur: Some(u), handled: d.ordinal(), seeded: 4 };
        let ph1 = Phase { cur: Some(u), handled: d.ordinal() + 1, seeded: 4 };
        assert(self.closed_ok(t, ph));
        assert(self.closed_ok(t, ph1)) by {
            assert forall|n: Node, v: Node|
                valid_node(t.g, n) && valid_node(t.g, v) && self.settled(t, n) && #[trigger] legal_step(
                    t.g,
                    t.ultra,
                    n,
                    v,
                ) && (ph1.cur == Some(n) ==> v.dir.ordinal() < ph1.handled) implies self.best(t, v)
                <= self.best(t, n) + entry_cost(t.g, v.x, v.y) by {
                if n == u && v.dir.ordinal() == d.ordinal() {
                    assert(v.dir == d);
                } else {
                    assert(ph.cur == Some(n) ==> v.dir.ordinal() < ph.handled);
                }
            }
        }
        assert(self.seeds_ok(t, ph1)) by {
            assert(self.seeds_ok(t, ph));
        }
    }
}

/// Where no step from `u` into heading `d` is legal, nothing is left to
/// try in that heading.
pub proof fn lemma_no_step(s: &Search, t: Task, u: Node, d: Direction)
    requires
        step_to(t.g, t.ultra, u, d) is None,
    ensures
        s.heading_closed(t, u, d),
{
    assert forall|v: Node|
        valid_node(t.g, v) && #[trigger] legal_step(t.g, t.ultra, u, v) && v.dir == d implies s.best(t, v)
        <= s.best(t, u) + entry_cost(t.g, v.x, v.y) by {
        lemma_step_to(t.g, t.ultra, u, v);
    }
}

/// The legal step from `u` into a heading leads to one state only.
pub proof fn lemma_one_step(s: &Search, t: Task, u: Node, c: Node)
    requires
        legal_step(t.g, t.ultra, u, c),
        s.best(t, c) <= s.best(t, u) + entry_cost(t.g, c.x, c.y),
    ensures
        s.heading_closed(t, u, c.dir),
{
    assert forall|v: Node|
        valid_node(t.g, v) && #[trigger] legal_step(t.g, t.ultra, u, v) && v.dir == c.dir implies s.best(t, v)
        <= s.best(t, u) + entry_cost(t.g, v.x, v.y) by {
        assert(v == c);
    }
}

impl Search {
    /// Tries the step from the state that is being expanded into heading `d`:
    /// where the step is legal and makes the state it leads to cheaper, that
    /// state gets a new record and joins the working set.
    pub(crate) fn relax(
        &mut self,
        grid: &Grid,
        w: usize,
        h: usize,
        cur: State,
        id: usize,
        d: Direction,
        ultra: bool,
        Ghost(t): Ghost<Task>,
    )
        requires
            old(self).inv(t, Phase { cur: Some(cur.node()), handled: d.ordinal(), seeded: 4 }),
            grid.well_formed(),
            grid@ == t.g,
            ultra == t.ultra,
            w == width(t.g),
            h == t.g.len(),
            id < old(self).arena@.len(),
            old(self).arena@[id as int] == cur,
            cur.cost == old(self).floor@,
        ensures
            final(self).inv(t, Phase { cur: Some(cur.node()), handled: d.ordinal() + 1, seeded: 4 }),
            final(self).done@ == old(self).done@,
            final(self).floor@ == old(self).floor@,
            final(self).frontier@.len() <= old(self).frontier@.len() + 1,
            id < final(self).arena@.len(),
            final(self).arena@[id as int] == cur,
    {
        let ghost u = cur.node();
        let ghost ph = Phase { cur: Some(u), handled: d.ordinal(), seeded: 4 };
        proof {
            lemma_budget_monotone(self.done@.len() as int, state_count(t.g), t.cap);
            assert(self.settled(t, u));
            assert(self.best(t, u) + t.cap <= self.done@.len() * t.cap);
            assert(cur.pos.0 < w && cur.pos.1 < h);
            assert(state_count(t.g) == h * w * 44) by (nonlinear_arith)
                requires
                    state_count(t.g) == t.g.len() * width(t.g) * 44,
                    w == width(t.g),
                    h == t.g.len(),
            ;
        }
        let from = Step { pos: cur.pos, direction: cur.direction, straight_line: cur.straight_line };
        assert(from@ == u);
        let (to, step_cost) = match successor(grid, from, d, ultra) {
            Some(m) => m,
            None => {
                proof {
                    lemma_no_step(self, t, u, d);
                    self.lemma_heading_done(t, u, d);
                }
                return ;
            },
        };
        proof {
            lemma_step_to(t.g, t.ultra, u, to@);
            assert(legal_step(t.g, t.ultra, u, to@));
            assert(entry_cost(t.g, to.pos.0 as int, to.pos.1 as int) <= t.cap);
        }
        let rec = State {
            pos: to.pos,
            cost: cur.cost + step_cost,
            direction: to.direction,
            straight_line: to.straight_line,
            prev: Some(id),
        };
        assert(rec.node() == to@);
        let k = slot_of(w, h, to.pos.0, to.pos.1, to.direction, to.straight_line);
        proof {
            assert(legal_step(t.g, t.ultra, u, rec.node()));
            assert(valid_node(t.g, rec.node()));
            lemma_slot_in_range(t.g, rec.node());
        }
        if rec.cost < self.dist[k] {
            proof {
                let a = self.arena@.push(rec);
                assert(a[id as int] == cur);
                assert(record_ok(t, a, self.arena@.len() as int));
            }
            self.improve(rec, k, Ghost(t), Ghost(ph));
            proof {
                assert(self.best(t, u) == self.floor@);
            }
        }
        proof {
            lemma_one_step(self, t, u, rec.node());
            self.lemma_heading_done(t, u, d);
        }
    }
}

/// `post` is `pre` with the entry `e`, one of least cost, taken out of the
/// working set.
pub open spec fn took(pre: Search, post: Search, e: Entry) -> bool {
    &&& post.dist@ == pre.dist@
    &&& post.arena@ == pre.arena@
    &&& post.done@ == pre.done@
    &&& post.live@ == pre.live@
    &&& post.floor@ == pre.floor@
    &&& post.frontier.well_formed()
    &&& pre.frontier@.count(e) > 0
    &&& forall|o: Entry| pre.frontier@.count(o) > 0 ==> e.0 <= o.0
    &&& forall|o: Entry|
        (#[trigger] post.frontier@.count(o)) == pre.frontier@.count(o) - if o == e {
            1int
        } else {
            0int
        }
}

/// The phase between two rounds: no state is being expanded.
pub open spec fn idle() -> Phase {
    Phase { cur: None, handled: 4, seeded: 4 }
}

/// Taking out a stale entry, one that costs more than the best known for
/// its state, keeps the invariant.
pub proof fn lemma_discard(pre: Search, post: Search, t: Task, e: Entry)
    requires
        pre.inv(t, idle()),
        took(pre, post, e),
        e.0 > pre.best(t, pre.arena@[e.1 as int].node()),
    ensures
        post.inv(t, idle()),
{
    let ph = idle();
    assert forall|n: Node| valid_node(t.g, n) implies {
        &&& #[trigger] post.best(t, n) == pre.best(t, n)
        &&& post.carrier(t, n) == pre.carrier(t, n)
        &&& post.settled(t, n) == pre.settled(t, n)
    } by {}
    assert(post.records_ok(t)) by {
        assert forall|i: int| 0 <= i < post.arena@.len() implies #[trigger] post.record_sound(t, i) by {
            assert(pre.record_sound(t, i));
        }
    }
    assert(post.entries_ok(t)) by {
        assert forall|o: Entry| #[trigger] post.frontier@.count(o) > 0 implies {
            &&& o.1 < post.arena@.len()
            &&& post.arena@[o.1 as int].cost == o.0
            &&& post.floor@ <= o.0
            &&& post.frontier@.count(o) == 1
            &&& o.0 == post.dist@[slot(t.g, post.arena@[o.1 as int].node())] ==> {
                &&& o.1 == post.live@[slot(t.g, post.arena@[o.1 as int].node())]
                &&& !post.done@.contains(slot(t.g, post.arena@[o.1 as int].node()))
            }
        } by {
            assert(pre.frontier@.count(o) > 0);
        }
    }
    assert(post.carried(t)) by {
        assert forall|n: Node| valid_node(t.g, n) && #[trigger] post.best(t, n) < UNREACHED implies {
            &&& post.carrier(t, n) < post.arena@.len()
            &&& post.arena@[post.carrier(t, n) as int].node() == n
            &&& post.arena@[post.carrier(t, n) as int].cost == post.best(t, n)
            &&& !post.settled(t, n) ==> post.frontier@.count((post.best(t, n), post.carrier(t, n))) > 0
        } by {
            assert(pre.best(t, n) < UNREACHED);
            let o: Entry = (pre.best(t, n), pre.carrier(t, n));
            if o == e {
                assert(pre.arena@[e.1 as int].node() == n);
            }
        }
    }
    assert(post.settled_ok(t)) by {
        assert forall|n: Node| valid_node(t.g, n) && #[trigger] post.settled(t, n) implies {
            &&& post.best(t, n) <= post.floor@
            &&& post.best(t, n) + t.cap <= post.done@.len() * t.cap
            &&& !is_terminal(t.ultra, t.goal, n)
        } by {
            assert(pre.settled(t, n));
        }
    }
    assert(post.closed_ok(t, ph)) by {
        assert forall|n: Node, v: Node|
            valid_node(t.g, n) && valid_node(t.g, v) && post.settled(t, n) && #[trigger] legal_step(
                t.g,
                t.ultra,
                n,
                v,
            ) && (ph.cur == Some(n) ==> v.dir.ordinal() < ph.handled) implies post.best(t, v) <= post.best(t, n)
            + entry_cost(t.g, v.x, v.y) by {
            assert(pre.settled(t, n));
        }
    }
    assert(post.seeds_ok(t, ph)) by {
        assert forall|n: Node| #[trigger]
            is_seed(t.g, t.start, n) && n.dir.ordinal() < ph.seeded implies post.best(t, n) == 0 by {
            assert(pre.best(t, n) == 0);
            assert(valid_node(t.g, n));
        }
    }
}

impl Search {
    /// Marks the state of the entry that was taken out as expanded: its cost
    /// is final, and becomes the least that any later entry can have.
    pub(crate) fn settle(&mut self, e: Entry, k: usize, Ghost(pre): Ghost<Search>, Ghost(t): Ghost<Task>)
        requires
            pre.inv(t, idle()),
            took(pre, *old(self), e),
            k == slot(t.g, pre.arena@[e.1 as int].node()),
            e.0 == pre.best(t, pre.arena@[e.1 as int].node()),
            !is_terminal(t.ultra, t.goal, pre.arena@[e.1 as int].node()),
        ensures
            final(self).inv(t, Phase { cur: Some(pre.arena@[e.1 as int].node()), handled: 0, seeded: 4 }),
            final(self).done@.len() == pre.done@.len() + 1,
            final(self).floor@ == e.0,
            final(self).frontier@ == old(self).frontier@,
            final(self).arena@ == pre.arena@,
    {
        let ghost u = pre.arena@[e.1 as int].node();
        let ghost ph = Phase { cur: Some(u), handled: 0, seeded: 4 };
        proof {
            assert(pre.record_sound(t, e.1 as int));
            lemma_slot_in_range(t.g, u);
            assert(!pre.settled(t, u));
        }
        self.done = Ghost(self.done@.insert(k as int));
        self.floor = Ghost(e.0 as int);
        proof {
            let count = state_count(t.g);
            assert(self.done@.len() == pre.done@.len() + 1);
            assert(self.done@.len() <= count) by {
                vstd::set_lib::lemma_int_range(0, count);
                assert(self.done@.subset_of(vstd::set_lib::set_int_range(0, count)));
                vstd::set_lib::lemma_len_subset(self.done@, vstd::set_lib::set_int_range(0, count));
            }
            lemma_budget_monotone(pre.done@.len() as int, count, t.cap);
            assert forall|n: Node| valid_node(t.g, n) implies (#[trigger] slot(t.g, n) == k <==> n == u) by {
                if slot(t.g, n) == k {
                    lemma_slot_injective(t.g, n, u);
                }
            }
            assert forall|n: Node| valid_node(t.g, n) implies {
                &&& #[trigger] self.best(t, n) == pre.best(t, n)
                &&& self.carrier(t, n) == pre.carrier(t, n)
                &&& self.settled(t, n) == (pre.settled(t, n) || n == u)
            } by {
                assert(slot(t.g, n) == k <==> n == u);
            }
            assert(self.sized(t));
            assert(self.records_ok(t)) by {
                assert forall|i: int| 0 <= i < self.arena@.len() implies #[trigger] self.record_sound(t, i) by {
                    assert(pre.record_sound(t, i));
                }
            }
            assert(self.entries_ok(t)) by {
                assert forall|o: Entry| #[trigger] self.frontier@.count(o) > 0 implies {
                    &&& o.1 < self.arena@.len()
                    &&& self.arena@[o.1 as int].cost == o.0
                    &&& self.floor@ <= o.0
                    &&& self.frontier@.count(o) == 1
                    &&& o.0 == self.dist@[slot(t.g, self.arena@[o.1 as int].node())] ==> {
                        &&& o.1 == self.live@[slot(t.g, self.arena@[o.1 as int].node())]
                        &&& !self.done@.contains(slot(t.g, self.arena@[o.1 as int].node()))
                    }
                } by {
                    assert(pre.frontier@.count(o) > 0);
                    assert(o != e);
                    assert(pre.record_sound(t, o.1 as int));
                    let m = pre.arena@[o.1 as int].node();
                    assert(valid_node(t.g, m));
                    assert(slot(t.g, m) == k <==> m == u);
                }
            }
            assert(self.carried(t)) by {
                assert forall|n: Node| valid_node(t.g, n) && #[trigger] self.best(t, n) < UNREACHED implies {
                    &&& self.carrier(t, n) < self.arena@.len()
                    &&& self.arena@[self.carrier(t, n) as int].node() == n
                    &&& self.arena@[self.carrier(t, n) as int].cost == self.best(t, n)
                    &&& !self.settled(t, n) ==> self.frontier@.count((self.best(t, n), self.carrier(t, n))) > 0
                } by {
                    assert(pre.best(t, n) < UNREACHED);
                    let o: Entry = (pre.best(t, n), pre.carrier(t, n));
                    if o == e {
                        assert(pre.arena@[e.1 as int].node() == n);
                    }
                }
            }
            assert(self.settled_ok(t)) by {
                assert forall|n: Node| valid_node(t.g, n) && #[trigger] self.settled(t, n) implies {
                    &&& self.best(t, n) <= self.floor@
                    &&& self.best(t, n) + t.cap <= self.done@.len() * t.cap
                    &&& !is_terminal(t.ultra, t.goal, n)
                } by {
                    if n != u {
                        assert(pre.settled(t, n));
                    }
                }
            }
            assert(self.closed_ok(t, ph)) by {
                assert forall|n: Node, v: Node|
                    valid_node(t.g, n) && valid_node(t.g, v) && self.settled(t, n) && #[trigger] legal_step(
                        t.g,
                        t.ultra,
                        n,
                        v,
                    ) && (ph.cur == Some(n) ==> v.dir.ordinal() < ph.handled) implies self.best(t, v)
                    <= self.best(t, n) + entry_cost(t.g, v.x, v.y) by {
                    assert(n != u);
                    assert(pre.settled(t, n));
                }
            }
            assert(self.seeds_ok(t, ph)) by {
                assert forall|n: Node| #[trigger]
                    is_seed(t.g, t.start, n) && n.dir.ordinal() < ph.seeded implies self.best(t, n) == 0 by {
                    assert(valid_node(t.g, n));
                    assert(pre.best(t, n) == 0);
                }
            }
            assert(self.phase_ok(t, ph));
        }
    }

    /// When all four headings have been tried, the round is over.
    pub proof fn lemma_round_over(&self, t: Task, u: Node)
        requires
            self.inv(t, Phase { cur: Some(u), handled: 4, seeded: 4 }),
        ensures
            self.inv(t, idle()),
    {
        let ph = Phase { cur: Some(u), handled: 4, seeded: 4 };
        assert(self.closed_ok(t, ph));
        assert(self.closed_ok(t, idle())) by {
            assert forall|n: Node, v: Node|
                valid_node(t.g, n) && valid_node(t.g, v) && self.settled(t, n) && #[trigger] legal_step(
                    t.g,
                    t.ultra,
                    n,
                    v,
                ) implies self.best(t, v) <= self.best(t, n) + entry_cost(t.g, v.x, v.y) by {
                assert(0 <= v.dir.ordinal() < 4);
            }
        }
        assert(self.seeds_ok(t, idle())) by {
            assert(self.seeds_ok(t, ph));
        }
    }
}

/// The route that ends in record `id`: the trail of the record, from the
/// seed to the record's state.
pub(crate) fn trace(arena: &Vec<State>, id: usize, Ghost(t): Ghost<Task>) -> (path: Vec<Step>)
    requires
        id < arena@.len(),
        forall|i: int| 0 <= i < arena@.len() ==> #[trigger] record_ok(t, arena@, i),
    ensures
        steps_view(path@) == trail(arena@, id as int),
{
    let ghost whole = trail(arena@, id as int);
    let ghost tail: Seq<Node> = Seq::empty();
    let mut rev: Vec<Step> = Vec::new();
    let mut i: usize = id;
    loop
        invariant_except_break
            whole == trail(arena@, i as int) + tail,
        invariant
            i < arena@.len(),
            forall|j: int| 0 <= j < arena@.len() ==> #[trigger] record_ok(t, arena@, j),
            tail.len() == rev@.len(),
            forall|k: int| 0 <= k < rev@.len() ==> (#[trigger] rev@[k])@ == tail[tail.len() - 1 - k],
        ensures
            whole == tail,
            whole.len() == rev@.len(),
            forall|k: int| 0 <= k < rev@.len() ==> (#[trigger] rev@[k])@ == whole[whole.len() - 1 - k],
        decreases i,
    {
        let s = arena[i];
        let ghost before = rev@;
        let ghost longer = seq![s.node()] + tail;
        rev.push(Step { pos: s.pos, direction: s.direction, straight_line: s.straight_line });
        proof {
            assert(record_ok(t, arena@, i as int));
            assert forall|k: int| 0 <= k < rev@.len() implies (#[trigger] rev@[k])@ == longer[longer.len() - 1
                - k] by {
                if k < before.len() {
                    assert(rev@[k] == before[k]);
                    assert(longer[longer.len() - 1 - k] == tail[tail.len() - 1 - k]);
                }
            }
        }
        match s.prev {
            Some(j) => {
                proof {
                    assert(whole =~= trail(arena@, j as int) + longer);
                    tail = longer;
                }
                i = j;
            },
            None => {
                proof {
                    assert(whole =~= longer);
                    tail = longer;
                }
                break ;
            },
        }
    }
    let n: usize = rev.len();
    let mut path: Vec<Step> = Vec::new();
    let mut k: usize = 0;
    while k < n
        invariant
            n == rev@.len(),
            k <= n,
            path@.len() == k,
            forall|m: int| 0 <= m < k ==> (#[trigger] path@[m]) == rev@[n - 1 - m],
        decreases n - k,
    {
        path.push(rev[n - 1 - k]);
        k = k + 1;
    }
    proof {
        assert(steps_view(path@) =~= whole);
    }
    path
}

/// A ceiling on the cost of a cell under which the search cannot overflow:
/// no cell costs more, and the ceiling times the number of states fits a
/// machine word.
pub open spec fn cost_ceiling(g: Seq<Seq<usize>>, cap: int) -> bool {
    &&& 0 <= cap
    &&& forall|x: int, y: int| inside(g, x, y) ==> #[trigger] entry_cost(g, x, y) <= cap
    &&& (state_count(g) + 1) * (cap + 1) <= usize::MAX
}

/// The grid is one that can be searched on this machine.
pub open spec fn within_limits(g: Seq<Seq<usize>>) -> bool {
    exists|cap: int| cost_ceiling(g, cap)
}

/// The least cost of a route from `start` to `goal`, both given as column
/// and row, with one such route; `None` where no route leads to the goal.
///
/// A route starts in any heading. It never reverses. In the standard mode it
/// keeps a heading for three cells at most; in the ultra mode for ten at
/// most, and it turns, or ends on the goal, only after four cells in one
/// heading. The cost of a route is the sum of the costs of the cells it
/// enters.
pub fn straight_line_restricted_dijkstra(
    start: (usize, usize),
    goal: (usize, usize),
    grid: &Grid,
    ultra: bool,
) -> (r: Option<(usize, Vec<Step>)>)
    requires
        grid.well_formed(),
        inside(grid@, start.0 as int, start.1 as int),
        within_limits(grid@),
    ensures
        match r {
            Some((cost, path)) => {
                &&& is_route(
                    grid@,
                    ultra,
                    (start.0 as int, start.1 as int),
                    (goal.0 as int, goal.1 as int),
                    steps_view(path@),
                )
                &&& walk_cost(grid@, steps_view(path@)) == cost
                &&& is_least_cost(
                    grid@,
                    ultra,
                    (start.0 as int, start.1 as int),
                    (goal.0 as int, goal.1 as int),
                    cost as int,
                )
            },
            None => !reachable(grid@, ultra, (start.0 as int, start.1 as int), (goal.0 as int, goal.1 as int)),
        },
{
    let (h, w) = grid.dimensions();
    let ghost cap = choose|cap: int| cost_ceiling(grid@, cap);
    let ghost t = Task {
        g: grid@,
        ultra,
        start: (start.0 as int, start.1 as int),
        goal: (goal.0 as int, goal.1 as int),
        cap,
    };
    let ghost count = state_count(grid@);
    proof {
        assert(task_fits(t));
        lemma_cell_in_range(w as int, h as int, start.0 as int, start.1 as int);
        assert(count == h * w * 44);
        lemma_budget_monotone(0, count, cap);
        assert(h * w <= h * w * 44) by (nonlinear_arith)
            requires
                0 <= h * w,
        ;
    }
    let total: usize = h * w * 44;
    let mut search = Search::new(total, Ghost(t));
    proof {
        assert forall|n: Node| valid_node(t.g, n) implies #[trigger] search.best(t, n) == UNREACHED by {
            lemma_slot_in_range(t.g, n);
        }
    }
    search.seed(w, h, start, Direction::Up, Ghost(t));
    search.seed(w, h, start, Direction::Down, Ghost(t));
    search.seed(w, h, start, Direction::Left, Ghost(t));
    search.seed(w, h, start, Direction::Right, Ghost(t));
    loop
        invariant
            search.inv(t, idle()),
            grid.well_formed(),
            t.g == grid@,
            t.ultra == ultra,
            t.goal == (goal.0 as int, goal.1 as int),
            t.start == (start.0 as int, start.1 as int),
            w == width(t.g),
            h == t.g.len(),
            count == state_count(t.g),
            count == h * w * 44,
            count <= usize::MAX,
        decreases 5 * (count - search.done@.len()) + search.frontier@.len(),
    {
        let ghost pre = search;
        let e = match search.frontier.pop() {
            Some(e) => e,
            None => {
                proof {
                    assert forall|q: Seq<Node>| !is_route(t.g, ultra, t.start, t.goal, q) by {
                        if is_route(t.g, ultra, t.start, t.goal, q) {
                            pre.lemma_walk_bound(t, idle(), q);
                            let o = choose|o: Entry| #[trigger]
                                pre.frontier@.count(o) > 0 && o.0 <= walk_cost(t.g, q);
                            vstd::multiset::axiom_count_le_len(pre.frontier@, o);
                        }
                    }
                }
                return None;
            },
        };
        proof {
            assert(took(pre, search, e));
            assert(pre.record_sound(t, e.1 as int));
        }
        let id: usize = e.1;
        let cur = search.arena[id];
        let k = slot_of(w, h, cur.pos.0, cur.pos.1, cur.direction, cur.straight_line);
        if e.0 > search.dist[k] {
            proof {
                lemma_discard(pre, search, t, e);
            }
            continue ;
        }
        if cur.pos.0 == goal.0 && cur.pos.1 == goal.1 && (!ultra || cur.straight_line >= 4) {
            proof {
                assert forall|i: int| 0 <= i < search.arena@.len() implies #[trigger] record_ok(
                    t,
                    search.arena@,
                    i,
                ) by {
                    assert(pre.record_sound(t, i));
                }
            }
            let path = trace(&search.arena, id, Ghost(t));
            proof {
                lemma_trail_is_walk(t, search.arena@, id as int);
                assert(is_terminal(ultra, t.goal, cur.node()));
                assert(is_route(t.g, ultra, t.start, t.goal, steps_view(path@)));
                assert forall|q: Seq<Node>| is_route(t.g, ultra, t.start, t.goal, q) implies e.0 <= walk_cost(
                    t.g,
                    q,
                ) by {
                    pre.lemma_walk_bound(t, idle(), q);
                    let o = choose|o: Entry| #[trigger] pre.frontier@.count(o) > 0 && o.0 <= walk_cost(t.g, q);
                    assert(e.0 <= o.0);
                }
            }
            return Some((e.0, path));
        }
        search.settle(e, k, Ghost(pre), Ghost(t));
        search.relax(grid, w, h, cur, id, Direction::Up, ultra, Ghost(t));
        search.relax(grid, w, h, cur, id, Direction::Down, ultra, Ghost(t));
        search.relax(grid, w, h, cur, id, Direction::Left, ultra, Ghost(t));
        search.relax(grid, w, h, cur, id, Direction::Right, ultra, Ghost(t));
        proof {
            search.lemma_round_over(t, cur.node());
        }
    }
}

/// Why no least cost could be given.
#[derive(Copy, Clone, Debug, PartialEq, Eq)]
pub enum SolveError {
    /// The text stands for no grid.
    Malformed(MalformedInput),
    /// No route leads to the goal.
    UnreachableGoal,
}

/// The cell in the last column of the last row.
pub open spec fn far_corner(g: Seq<Seq<usize>>) -> (int, int) {
    (width(g) - 1, g.len() - 1)
}

/// The least cost of a route from the first cell of the first row of the
/// grid that the text stands for to the last cell of its last row, with one
/// such route: in the standard mode, or, where `part2` is set, in the ultra
/// mode.
pub fn solve(input: &str, part2: bool) -> (r: Result<(usize, Vec<Step>), SolveError>)
    requires
        input.spec_bytes().len() * 440 + 10 <= usize::MAX,
        parsed(input.spec_bytes()) is Ok ==> inside(parsed(input.spec_bytes())->Ok_0, 0, 0),
    ensures
        match parsed(input.spec_bytes()) {
            Err(e) => r == Err::<(usize, Vec<Step>), SolveError>(SolveError::Malformed(e)),
            Ok(g) => match r {
                Ok((cost, path)) => {
                    &&& is_route(g, part2, (0, 0), far_corner(g), steps_view(path@))
                    &&& walk_cost(g, steps_view(path@)) == cost
                    &&& is_least_cost(g, part2, (0, 0), far_corner(g), cost as int)
                },
                Err(e) => e == SolveError::UnreachableGoal && !reachable(g, part2, (0, 0), far_corner(g)),
            },
        },
{
    let grid = match Grid::parse(input) {
        Ok(grid) => grid,
        Err(e) => {
            return Err(SolveError::Malformed(e));
        },
    };
    let (h, w) = grid.dimensions();
    proof {
        let g = grid@;
        lemma_parsed_size(input.spec_bytes());
        assert((state_count(g) + 1) * (9 + 1) <= usize::MAX) by (nonlinear_arith)
            requires
                state_count(g) == g.len() * width(g) * 44,
                g.len() * width(g) <= input.spec_bytes().len(),
                input.spec_bytes().len() * 440 + 10 <= usize::MAX,
        ;
        assert(cost_ceiling(g, 9));
    }
    match straight_line_restricted_dijkstra((0, 0), (w - 1, h - 1), &grid, part2) {
        Some(found) => Ok(found),
        None => Err(SolveError::UnreachableGoal),
    }
}

/// The least cost in the standard mode, with a route of that cost.
pub fn part1(input: &str) -> (r: Result<(usize, Vec<Step>), SolveError>)
    requires
        input.spec_bytes().len() * 440 + 10 <= usize::MAX,
        parsed(input.spec_bytes()) is Ok ==> inside(parsed(input.spec_bytes())->Ok_0, 0, 0),
    ensures
        match parsed(input.spec_bytes()) {
            Err(e) => r == Err::<(usize, Vec<Step>), SolveError>(SolveError::Malformed(e)),
            Ok(g) => match r {
                Ok((cost, path)) => {
                    &&& is_route(g, false, (0, 0), far_corner(g), steps_view(path@))
                    &&& walk_cost(g, steps_view(path@)) == cost
                    &&& is_least_cost(g, false, (0, 0), far_corner(g), cost as int)
                },
                Err(e) => e == SolveError::UnreachableGoal && !reachable(g, false, (0, 0), far_corner(g)),
            },
        },
{
    solve(input, false)
}

/// The least cost in the ultra mode, with a route of that cost.
pub fn part2(input: &str) -> (r: Result<(usize, Vec<Step>), SolveError>)
    requires
        input.spec_bytes().len() * 440 + 10 <= usize::MAX,
        parsed(input.spec_bytes()) is Ok ==> inside(parsed(input.spec_bytes())->Ok_0, 0, 0),
    ensures
        match parsed(input.spec_bytes()) {
            Err(e) => r == Err::<(usize, Vec<Step>), SolveError>(SolveError::Malformed(e)),
            Ok(g) => match r {
                Ok((cost, path)) => {
                    &&& is_route(g, true, (0, 0), far_corner(g), steps_view(path@))
                    &&& walk_cost(g, steps_view(path@)) == cost
                    &&& is_least_cost(g, true, (0, 0), far_corner(g), cost as int)
                },
                Err(e) => e == SolveError::UnreachableGoal && !reachable(g, true, (0, 0), far_corner(g)),
            },
        },
{
    solve(input, true)
}

/// The greatest cost among the cells of the first `rows` rows.
pub open spec fn peak(g: Seq<Seq<usize>>, rows: int) -> int
    decreases rows,
{
    if rows <= 0 {
        0
    } else {
        let below = peak(g, rows - 1);
        let here = row_peak(g[rows - 1], g[rows - 1].len() as int);
        if here > below {
            here
        } else {
            below
        }
    }
}

/// The greatest cost among the first `cols` cells of a row.
pub open spec fn row_peak(row: Seq<usize>, cols: int) -> int
    decreases cols,
{
    if cols <= 0 {
        0
    } else {
        let before = row_peak(row, cols - 1);
        if row[cols - 1] > before {
            row[cols - 1] as int
        } else {
            before
        }
    }
}

/// No cell among the first `cols` of a row costs more than their peak, and
/// whatever no cell costs more than is no less than the peak.
pub proof fn lemma_row_peak(row: Seq<usize>, cols: int, cap: int)
    requires
        0 <= cols <= row.len(),
    ensures
        0 <= row_peak(row, cols),
        forall|x: int| 0 <= x < cols ==> #[trigger] row[x] <= row_peak(row, cols),
        0 <= cap && (forall|x: int| 0 <= x < cols ==> #[trigger] row[x] <= cap) ==> row_peak(row, cols) <= cap,
    decreases cols,
{
    if cols > 0 {
        lemma_row_peak(row, cols - 1, cap);
    }
}

/// No cell of the first `rows` rows costs more than their peak, and
/// whatever no cell costs more than is no less than the peak.
pub proof fn lemma_peak(g: Seq<Seq<usize>>, rows: int, cap: int)
    requires
        0 <= rows <= g.len(),
    ensures
        0 <= peak(g, rows),
        forall|x: int, y: int| 0 <= y < rows && 0 <= x < g[y].len() ==> (#[trigger] g[y][x]) <= peak(g, rows),
        0 <= cap && (forall|x: int, y: int| 0 <= y < rows && 0 <= x < g[y].len() ==> (#[trigger] g[y][x]) <= cap)
            ==> peak(g, rows) <= cap,
    decreases rows,
{
    if rows > 0 {
        lemma_peak(g, rows - 1, cap);
        let row = g[rows - 1];
        lemma_row_peak(row, row.len() as int, cap);
        if 0 <= cap && (forall|x: int, y: int|
            0 <= y < rows && 0 <= x < g[y].len() ==> (#[trigger] g[y][x]) <= cap) {
            assert forall|x: int| 0 <= x < row.len() implies #[trigger] row[x] <= cap by {
                assert(g[rows - 1][x] <= cap);
            }
        }
    }
}

/// Whether the grid is one that can be searched on this machine.
pub fn searchable(grid: &Grid) -> (ok: bool)
    requires
        grid.well_formed(),
    ensures
        ok == within_limits(grid@),
{
    let (h, w) = grid.dimensions();
    let ghost g = grid@;
    let mut top: usize = 0;
    let mut y: usize = 0;
    while y < h
        invariant
            grid.well_formed(),
            g == grid@,
            h == g.len(),
            w == width(g),
            y <= h,
            top == peak(g, y as int),
        decreases h - y,
    {
        let mut x: usize = 0;
        let ghost below = top;
        let mut here: usize = 0;
        assert(g[y as int].len() == g[0].len());
        while x < w
            invariant
                grid.well_formed(),
                g == grid@,
                h == g.len(),
                w == width(g),
                y < h,
                x <= w,
                w == g[y as int].len(),
                here == row_peak(g[y as int], x as int),
            decreases w - x,
        {
            let c = grid.cost(y, x);
            if c > here {
                here = c;
            }
            x = x + 1;
        }
        if here > top {
            top = here;
        }
        y = y + 1;
    }
    let ghost count = state_count(g);
    proof {
        lemma_peak(g, h as int, 0);
        assert forall|x: int, y: int| inside(g, x, y) implies #[trigger] entry_cost(g, x, y) <= top by {
            assert(g[y].len() == g[0].len());
            assert(g[y][x] <= peak(g, h as int));
        }
        assert forall|cap: int| cost_ceiling(g, cap) implies top <= cap by {
            lemma_peak(g, h as int, cap);
            assert forall|x: int, y: int| 0 <= y < h && 0 <= x < g[y].len() implies (#[trigger] g[y][x]) <= cap by {
                assert(g[y].len() == g[0].len());
                assert(entry_cost(g, x, y) <= cap);
            }
        }
        assert forall|cap: int| cost_ceiling(g, cap) implies (count + 1) * (top + 1) <= usize::MAX by {
            assert((count + 1) * (top + 1) <= (count + 1) * (cap + 1)) by (nonlinear_arith)
                requires
                    0 <= count,
                    0 <= top <= cap,
            ;
        }
        assert(count == h * w * 44);
        assert(0 <= h * w <= h * w * 44) by (nonlinear_arith)
            requires
                0 <= h,
                0 <= w,
        ;
        assert(count + 1 <= (count + 1) * (top + 1)) by (nonlinear_arith)
            requires
                0 <= count,
                0 <= top,
        ;
    }
    let cells = match h.checked_mul(w) {
        Some(v) => v,
        None => {
            return false;
        },
    };
    let states = match cells.checked_mul(44) {
        Some(v) => v,
        None => {
            return false;
        },
    };
    let states1 = match states.checked_add(1) {
        Some(v) => v,
        None => {
            return false;
        },
    };
    let top1 = match top.checked_add(1) {
        Some(v) => v,
        None => {
            proof {
                assert((count + 1) * (top + 1) > usize::MAX) by (nonlinear_arith)
                    requires
                        0 <= count,
                        top + 1 > usize::MAX,
                ;
            }
            return false;
        },
    };
    match states1.checked_mul(top1) {
        Some(_) => {
            assert(cost_ceiling(g, top as int));
            true
        },
        None => false,
    }
}

} // verus!
