//! Pairwise collision detection over the agents, with an observer protocol
//! and a suppression set that keeps a conflict from being re-reported on
//! every subsequent tick.

use vstd::prelude::*;
use crate::grid::Node;
use crate::agent::Agent;
use crate::stats::{Statistics, sat_usize, sat_add_usize};

verus! {

/// The kind of a detected conflict.
#[derive(Copy, Clone, PartialEq, Eq, Structural, Debug)]
pub enum CollisionType {
    Direct,
    Proximity,
}

/// A transient record of one detected conflict between two agents.
#[derive(Copy, Clone, PartialEq, Eq, Structural, Debug)]
pub struct CollisionEvent {
    pub agent1_id: usize,
    pub agent2_id: usize,
    pub collision_type: CollisionType,
    pub collision_point: Node,
}

/// An unordered pair of agent ids, stored with the smaller id first.
#[derive(Copy, Clone, PartialEq, Eq, Structural, Hash, Debug)]
pub struct AgentPair(pub usize, pub usize);

/// The normalized pair of two ids.
pub open spec fn norm_pair(a: usize, b: usize) -> AgentPair {
    if a < b {
        AgentPair(a, b)
    } else {
        AgentPair(b, a)
    }
}

impl AgentPair {
    pub fn new(a: usize, b: usize) -> (r: AgentPair)
        ensures
            r == norm_pair(a, b),
    {
        if a < b {
            AgentPair(a, b)
        } else {
            AgentPair(b, a)
        }
    }
}

/// One reroute demand: the agent must replan around `avoid_point`.
#[derive(Copy, Clone, PartialEq, Eq, Structural, Debug)]
pub struct RerouteRequest {
    pub agent_id: usize,
    pub avoid_point: Node,
}

// ---------------------------------------------------------------------------
// What one agent pair yields
// ---------------------------------------------------------------------------

/// First element of `xs`, from position `t` on, that `ys` contains.
pub open spec fn first_common_from(xs: Seq<Node>, ys: Seq<Node>, t: int) -> Option<Node>
    decreases xs.len() - t,
{
    if t < 0 || t >= xs.len() {
        None
    } else if ys.contains(xs[t]) {
        Some(xs[t])
    } else {
        first_common_from(xs, ys, t + 1)
    }
}

/// First element of `xs`, from position `t` on, equal to `n`.
pub open spec fn first_eq_from(xs: Seq<Node>, n: Node, t: int) -> Option<Node>
    decreases xs.len() - t,
{
    if t < 0 || t >= xs.len() {
        None
    } else if xs[t] == n {
        Some(xs[t])
    } else {
        first_eq_from(xs, n, t + 1)
    }
}

/// The first cell where the lookaheads of `a` and `b` conflict: all of a's
/// forward nodes against all of b's first, then a's forward nodes against
/// b's position, then b's forward nodes against a's position.
pub open spec fn forward_hit(a: Agent, b: Agent) -> Option<Node> {
    match first_common_from(a.forward_path@, b.forward_path@, 0) {
        Some(pt) => Some(pt),
        None => match first_eq_from(a.forward_path@, b.current_point, 0) {
            Some(pt) => Some(pt),
            None => first_eq_from(b.forward_path@, a.current_point, 0),
        },
    }
}

/// The event an unsuppressed pair yields: a direct collision when the two
/// agents share a cell, else a proximity collision at the first conflicting
/// lookahead cell, else nothing.
pub open spec fn pair_event(a: Agent, b: Agent) -> Option<CollisionEvent> {
    if a.current_point == b.current_point {
        Some(CollisionEvent {
            agent1_id: a.id,
            agent2_id: b.id,
            collision_type: CollisionType::Direct,
            collision_point: a.current_point,
        })
    } else {
        match forward_hit(a, b) {
            Some(pt) => Some(CollisionEvent {
                agent1_id: a.id,
                agent2_id: b.id,
                collision_type: CollisionType::Proximity,
                collision_point: pt,
            }),
            None => None,
        }
    }
}

// ---------------------------------------------------------------------------
// The scan over all pairs
// ---------------------------------------------------------------------------

/// The events that scanning the pairs `(i, j)`, `(i, j+1)`, ..., in index
/// order emits, starting from the suppression list `ign`: a pair already
/// suppressed is skipped, and an emitted event suppresses its pair at once.
pub open spec fn scan_from(agents: Seq<Agent>, i: int, j: int, ign: Seq<AgentPair>) -> Seq<
    CollisionEvent,
>
    decreases agents.len() - i, agents.len() + 1 - j,
{
    if i < 0 || j <= i {
        Seq::empty()
    } else if i >= agents.len() {
        Seq::empty()
    } else if j >= agents.len() {
        scan_from(agents, i + 1, i + 2, ign)
    } else {
        let p = norm_pair(agents[i].id, agents[j].id);
        if ign.contains(p) {
            scan_from(agents, i, j + 1, ign)
        } else {
            match pair_event(agents[i], agents[j]) {
                Some(e) => seq![e] + scan_from(agents, i, j + 1, ign.push(p)),
                None => scan_from(agents, i, j + 1, ign),
            }
        }
    }
}

/// All events of one full detection pass over `agents`.
pub open spec fn scan_events(agents: Seq<Agent>, ign: Seq<AgentPair>) -> Seq<CollisionEvent> {
    scan_from(agents, 0, 1, ign)
}

// ---------------------------------------------------------------------------
// Derived views of an event list
// ---------------------------------------------------------------------------

/// The normalized pairs of the events, in order.
pub open spec fn event_pairs(es: Seq<CollisionEvent>) -> Seq<AgentPair>
    decreases es.len(),
{
    if es.len() == 0 {
        Seq::empty()
    } else {
        event_pairs(es.drop_last()).push(norm_pair(es.last().agent1_id, es.last().agent2_id))
    }
}

/// The direct-collision events, in order.
pub open spec fn direct_events(es: Seq<CollisionEvent>) -> Seq<CollisionEvent>
    decreases es.len(),
{
    if es.len() == 0 {
        Seq::empty()
    } else if es.last().collision_type == CollisionType::Direct {
        direct_events(es.drop_last()).push(es.last())
    } else {
        direct_events(es.drop_last())
    }
}

/// The proximity events, in order.
pub open spec fn prox_events(es: Seq<CollisionEvent>) -> Seq<CollisionEvent>
    decreases es.len(),
{
    if es.len() == 0 {
        Seq::empty()
    } else if es.last().collision_type == CollisionType::Proximity {
        prox_events(es.drop_last()).push(es.last())
    } else {
        prox_events(es.drop_last())
    }
}

/// The reroute requests the events give rise to: one per implicated agent
/// per proximity event, in order.
pub open spec fn requests_of(es: Seq<CollisionEvent>) -> Seq<RerouteRequest>
    decreases es.len(),
{
    if es.len() == 0 {
        Seq::empty()
    } else if es.last().collision_type == CollisionType::Proximity {
        requests_of(es.drop_last()).push(
            RerouteRequest { agent_id: es.last().agent1_id, avoid_point: es.last().collision_point },
        ).push(
            RerouteRequest { agent_id: es.last().agent2_id, avoid_point: es.last().collision_point },
        )
    } else {
        requests_of(es.drop_last())
    }
}

// ---------------------------------------------------------------------------
// Observers
// ---------------------------------------------------------------------------

/// A registered collision observer. The logger keeps a trace of the direct
/// collisions for the outside world to print; the request collector queues
/// reroute requests for every proximity event.
pub enum CollisionObserver {
    Logger { trace: Vec<CollisionEvent> },
    Assistant { requests: Vec<RerouteRequest> },
}

/// How one observer reacts to a single event.
pub open spec fn observer_step1(pre: CollisionObserver, post: CollisionObserver, e: CollisionEvent) -> bool {
    match (pre, post) {
        (CollisionObserver::Logger { trace: t0 }, CollisionObserver::Logger { trace: t1 }) => {
            t1@ == if e.collision_type == CollisionType::Direct {
                t0@.push(e)
            } else {
                t0@
            }
        },
        (
            CollisionObserver::Assistant { requests: r0 },
            CollisionObserver::Assistant { requests: r1 },
        ) => {
            r1@ == if e.collision_type == CollisionType::Proximity {
                r0@.push(RerouteRequest { agent_id: e.agent1_id, avoid_point: e.collision_point })
                    .push(RerouteRequest { agent_id: e.agent2_id, avoid_point: e.collision_point })
            } else {
                r0@
            }
        },
        _ => false,
    }
}

/// How one observer reacts to a whole event list.
pub open spec fn observer_step(pre: CollisionObserver, post: CollisionObserver, es: Seq<CollisionEvent>) -> bool {
    match (pre, post) {
        (CollisionObserver::Logger { trace: t0 }, CollisionObserver::Logger { trace: t1 }) => {
            t1@ == t0@ + direct_events(es)
        },
        (
            CollisionObserver::Assistant { requests: r0 },
            CollisionObserver::Assistant { requests: r1 },
        ) => {
            r1@ == r0@ + requests_of(es)
        },
        _ => false,
    }
}

/// Reacting to `es` and then to one more event is reacting to `es.push(e)`.
proof fn lemma_observer_step_compose(
    o0: CollisionObserver,
    o1: CollisionObserver,
    o2: CollisionObserver,
    es: Seq<CollisionEvent>,
    e: CollisionEvent,
)
    requires
        observer_step(o0, o1, es),
        observer_step1(o1, o2, e),
    ensures
        observer_step(o0, o2, es.push(e)),
{
    assert(es.push(e).drop_last() =~= es);
    assert(es.push(e).last() == e);
    match (o0, o2) {
        (CollisionObserver::Logger { trace: t0 }, CollisionObserver::Logger { trace: t2 }) => {
            if e.collision_type == CollisionType::Direct {
                assert(t2@ =~= t0@ + direct_events(es.push(e)));
            } else {
                assert(t2@ =~= t0@ + direct_events(es.push(e)));
            }
        },
        (
            CollisionObserver::Assistant { requests: r0 },
            CollisionObserver::Assistant { requests: r2 },
        ) => {
            if e.collision_type == CollisionType::Proximity {
                assert(r2@ =~= r0@ + requests_of(es.push(e)));
            } else {
                assert(r2@ =~= r0@ + requests_of(es.push(e)));
            }
        },
        _ => {},
    }
}

/// Feed one event to one observer.
fn step_observer(ob: CollisionObserver, event: &CollisionEvent) -> (r: CollisionObserver)
    ensures
        observer_step1(ob, r, *event),
{
    match ob {
        CollisionObserver::Logger { mut trace } => {
            match event.collision_type {
                CollisionType::Direct => {
                    trace.push(*event);
                }
                CollisionType::Proximity => {}
            }
            CollisionObserver::Logger { trace }
        }
        CollisionObserver::Assistant { mut requests } => {
            match event.collision_type {
                CollisionType::Proximity => {
                    requests.push(
                        RerouteRequest { agent_id: event.agent1_id, avoid_point: event.collision_point },
                    );
                    requests.push(
                        RerouteRequest { agent_id: event.agent2_id, avoid_point: event.collision_point },
                    );
                }
                CollisionType::Direct => {}
            }
            CollisionObserver::Assistant { requests }
        }
    }
}

/// The queued reroute requests of the observers from position `k` on, in
/// registration order.
pub open spec fn queued_from(obs: Seq<CollisionObserver>, k: int) -> Seq<RerouteRequest>
    decreases obs.len() - k,
{
    if k < 0 || k >= obs.len() {
        Seq::empty()
    } else {
        (match obs[k] {
            CollisionObserver::Assistant { requests } => requests@,
            CollisionObserver::Logger { trace: _ } => Seq::empty(),
        }) + queued_from(obs, k + 1)
    }
}

/// All queued reroute requests, in registration order.
pub open spec fn queued_requests(obs: Seq<CollisionObserver>) -> Seq<RerouteRequest> {
    queued_from(obs, 0)
}

/// The collected direct-collision traces of the loggers from position `k`
/// on, in registration order.
pub open spec fn trace_from(obs: Seq<CollisionObserver>, k: int) -> Seq<CollisionEvent>
    decreases obs.len() - k,
{
    if k < 0 || k >= obs.len() {
        Seq::empty()
    } else {
        (match obs[k] {
            CollisionObserver::Logger { trace } => trace@,
            CollisionObserver::Assistant { requests: _ } => Seq::empty(),
        }) + trace_from(obs, k + 1)
    }
}

// ---------------------------------------------------------------------------
// The detector
// ---------------------------------------------------------------------------

/// The pairwise collision detector: an ordered list of observers and the set
/// of agent pairs whose conflict was already reported. The suppression list
/// is cleared by the driver whenever the agents advance one step.
pub struct CollisionDetector {
    pub observers: Vec<CollisionObserver>,
    pub ignored_pairs: Vec<AgentPair>,
}

impl CollisionDetector {
    pub fn new() -> (d: CollisionDetector)
        ensures
            d.observers@.len() == 0,
            d.ignored_pairs@.len() == 0,
    {
        CollisionDetector { observers: Vec::new(), ignored_pairs: Vec::new() }
    }

    pub fn register_observer(&mut self, ob: CollisionObserver)
        ensures
            final(self).observers@ == old(self).observers@.push(ob),
            final(self).ignored_pairs@ == old(self).ignored_pairs@,
    {
        self.observers.push(ob);
    }

    /// Forget all suppressed pairs, so that the next scan re-evaluates every
    /// pair against the agents' fresh positions.
    pub fn clear_ignored(&mut self)
        ensures
            final(self).ignored_pairs@.len() == 0,
            final(self).observers == old(self).observers,
    {
        self.ignored_pairs.clear();
    }

    fn contains_pair(&self, p: AgentPair) -> (r: bool)
        ensures
            r == self.ignored_pairs@.contains(p),
    {
        let mut k: usize = 0;
        while k < self.ignored_pairs.len()
            invariant
                k <= self.ignored_pairs@.len(),
                forall|t: int| 0 <= t < k ==> self.ignored_pairs@[t] != p,
            decreases self.ignored_pairs@.len() - k,
        {
            if self.ignored_pairs[k] == p {
                return true;
            }
            k = k + 1;
        }
        false
    }

    /// Announce one event to every observer, in registration order.
    fn notify(&mut self, event: &CollisionEvent)
        ensures
            final(self).observers@.len() == old(self).observers@.len(),
            forall|t: int|
                0 <= t < old(self).observers@.len()
                    ==> observer_step1(old(self).observers@[t], final(self).observers@[t], *event),
            final(self).ignored_pairs@ == old(self).ignored_pairs@,
    {
        let ghost obs0 = self.observers@;
        let mut k: usize = 0;
        while k < self.observers.len()
            invariant
                k <= obs0.len(),
                self.observers@.len() == obs0.len(),
                self.ignored_pairs@ == old(self).ignored_pairs@,
                obs0 == old(self).observers@,
                forall|t: int|
                    0 <= t < k ==> observer_step1(obs0[t], #[trigger] self.observers@[t], *event),
                forall|t: int| k <= t < obs0.len() ==> #[trigger] self.observers@[t] == obs0[t],
            decreases obs0.len() - k,
        {
            let ob = self.observers.remove(k);
            let ob2 = step_observer(ob, event);
            self.observers.insert(k, ob2);
            k = k + 1;
        }
    }

    /// One full detection pass: scan every unordered pair of agents in index
    /// order; report a direct collision when two agents share a cell, else a
    /// proximity collision when their lookaheads conflict; announce each
    /// event to the observers, suppress the pair, and count the event.
    pub fn check_agents(&mut self, agents: &Vec<Agent>, stats: &mut Statistics)
        ensures
            ({
                let es = scan_events(agents@, old(self).ignored_pairs@);
                &&& final(self).ignored_pairs@ == old(self).ignored_pairs@ + event_pairs(es)
                &&& final(self).observers@.len() == old(self).observers@.len()
                &&& (forall|t: int|
                    0 <= t < old(self).observers@.len()
                        ==> observer_step(old(self).observers@[t], final(self).observers@[t], es))
                &&& final(stats).collisions == sat_usize(
                    old(stats).collisions + direct_events(es).len())
                &&& final(stats).detections == sat_usize(
                    old(stats).detections + prox_events(es).len())
                &&& final(stats).recalculations == old(stats).recalculations
                &&& final(stats).total_path_length == old(stats).total_path_length
                &&& final(stats).total_steps == old(stats).total_steps
            }),
    {
        let ghost ign0 = self.ignored_pairs@;
        let ghost obs0 = self.observers@;
        let ghost full = scan_events(agents@, ign0);
        let ghost emitted: Seq<CollisionEvent> = Seq::empty();
        let mut emitted_exec: Ghost<Seq<CollisionEvent>> = Ghost(emitted);

        let mut i: usize = 0;
        while i < agents.len()
            invariant
                i <= agents@.len(),
                full == scan_events(agents@, ign0),
                full == emitted_exec@ + scan_from(agents@, i as int, i as int + 1,
                    self.ignored_pairs@),
                self.ignored_pairs@ == ign0 + event_pairs(emitted_exec@),
                self.observers@.len() == obs0.len(),
                obs0 == old(self).observers@,
                ign0 == old(self).ignored_pairs@,
                forall|t: int|
                    0 <= t < obs0.len() ==> observer_step(obs0[t], #[trigger] self.observers@[t],
                        emitted_exec@),
                stats.collisions == sat_usize(
                    old(stats).collisions + direct_events(emitted_exec@).len()),
                stats.detections == sat_usize(
                    old(stats).detections + prox_events(emitted_exec@).len()),
                stats.recalculations == old(stats).recalculations,
                stats.total_path_length == old(stats).total_path_length,
                stats.total_steps == old(stats).total_steps,
            decreases agents@.len() - i,
        {
            let mut j: usize = i + 1;
            while j < agents.len()
                invariant
                    i < agents@.len(),
                    i < j <= agents@.len() + 1,
                    full == scan_events(agents@, ign0),
                    full == emitted_exec@ + scan_from(agents@, i as int, j as int,
                        self.ignored_pairs@),
                    self.ignored_pairs@ == ign0 + event_pairs(emitted_exec@),
                    self.observers@.len() == obs0.len(),
                    obs0 == old(self).observers@,
                    ign0 == old(self).ignored_pairs@,
                    forall|t: int|
                        0 <= t < obs0.len() ==> observer_step(obs0[t],
                            #[trigger] self.observers@[t], emitted_exec@),
                    stats.collisions == sat_usize(
                        old(stats).collisions + direct_events(emitted_exec@).len()),
                    stats.detections == sat_usize(
                        old(stats).detections + prox_events(emitted_exec@).len()),
                    stats.recalculations == old(stats).recalculations,
                    stats.total_path_length == old(stats).total_path_length,
                    stats.total_steps == old(stats).total_steps,
                decreases agents@.len() - j,
            {
                let a = &agents[i];
                let b = &agents[j];
                let pair = AgentPair::new(a.id, b.id);
                let ghost ign_here = self.ignored_pairs@;
                if !self.contains_pair(pair) {
                    let mut event_opt: Option<CollisionEvent> = None;
                    if a.current_point == b.current_point {
                        event_opt = Some(CollisionEvent {
                            agent1_id: a.id,
                            agent2_id: b.id,
                            collision_type: CollisionType::Direct,
                            collision_point: a.current_point,
                        });
                    } else {
                        match Self::find_forward_collision(a, b) {
                            Some(pt) => {
                                event_opt = Some(CollisionEvent {
                                    agent1_id: a.id,
                                    agent2_id: b.id,
                                    collision_type: CollisionType::Proximity,
                                    collision_point: pt,
                                });
                            }
                            None => {}
                        }
                    }
                    proof {
                        assert(event_opt == pair_event(agents@[i as int], agents@[j as int]));
                    }
                    match event_opt {
                        Some(event) => {
                            let ghost obs_pre = self.observers@;
                            self.notify(&event);
                            self.ignored_pairs.push(pair);
                            match event.collision_type {
                                CollisionType::Direct => {
                                    stats.collisions = sat_add_usize(stats.collisions, 1);
                                }
                                CollisionType::Proximity => {
                                    stats.detections = sat_add_usize(stats.detections, 1);
                                }
                            }
                            proof {
                                let es = emitted_exec@;
                                let es2 = es.push(event);
                                assert(es2.drop_last() =~= es);
                                assert(event_pairs(es2) == event_pairs(es).push(pair));
                                assert(direct_events(es2) == if event.collision_type
                                    == CollisionType::Direct {
                                    direct_events(es).push(event)
                                } else {
                                    direct_events(es)
                                });
                                assert(prox_events(es2) == if event.collision_type
                                    == CollisionType::Proximity {
                                    prox_events(es).push(event)
                                } else {
                                    prox_events(es)
                                });
                                assert forall|t: int| 0 <= t < obs0.len() implies observer_step(
                                    obs0[t], #[trigger] self.observers@[t], es2) by {
                                    lemma_observer_step_compose(obs0[t], obs_pre[t],
                                        self.observers@[t], es, event);
                                }
                                assert(self.ignored_pairs@ =~= ign0 + event_pairs(es2));
                                assert(seq![event] + scan_from(agents@, i as int, j as int + 1,
                                    self.ignored_pairs@) == scan_from(agents@, i as int, j as int,
                                    ign0 + event_pairs(es)));
                                assert(es2 + scan_from(agents@, i as int, j as int + 1,
                                    self.ignored_pairs@) =~= es + (seq![event] + scan_from(
                                    agents@, i as int, j as int + 1, self.ignored_pairs@)));
                            }
                            emitted_exec = Ghost(emitted_exec@.push(event));
                        }
                        None => {
                            proof {
                                assert(scan_from(agents@, i as int, j as int, ign_here)
                                    == scan_from(agents@, i as int, j as int + 1, ign_here));
                            }
                        }
                    }
                } else {
                    proof {
                        assert(scan_from(agents@, i as int, j as int, ign_here)
                            == scan_from(agents@, i as int, j as int + 1, ign_here));
                    }
                }
                j = j + 1;
            }
            proof {
                assert(scan_from(agents@, i as int, agents@.len() as int, self.ignored_pairs@)
                    == scan_from(agents@, i as int + 1, i as int + 2, self.ignored_pairs@));
            }
            i = i + 1;
        }
        proof {
            assert(scan_from(agents@, agents@.len() as int, agents@.len() as int + 1,
                self.ignored_pairs@) =~= Seq::<CollisionEvent>::empty());
            assert(emitted_exec@ + Seq::<CollisionEvent>::empty() =~= emitted_exec@);
        }
    }

    /// The first conflicting lookahead cell of two agents, in the fixed scan
    /// order.
    pub fn find_forward_collision(a: &Agent, b: &Agent) -> (r: Option<Node>)
        ensures
            r == forward_hit(*a, *b),
    {
        let mut t: usize = 0;
        while t < a.forward_path.len()
            invariant
                t <= a.forward_path@.len(),
                first_common_from(a.forward_path@, b.forward_path@, 0) == first_common_from(
                    a.forward_path@, b.forward_path@, t as int),
            decreases a.forward_path@.len() - t,
        {
            let node = a.forward_path[t];
            if crate::grid::contains_node(&b.forward_path, node) {
                return Some(node);
            }
            t = t + 1;
        }
        let mut t: usize = 0;
        while t < a.forward_path.len()
            invariant
                t <= a.forward_path@.len(),
                first_common_from(a.forward_path@, b.forward_path@, 0) is None,
                first_eq_from(a.forward_path@, b.current_point, 0) == first_eq_from(
                    a.forward_path@, b.current_point, t as int),
            decreases a.forward_path@.len() - t,
        {
            let node = a.forward_path[t];
            if node == b.current_point {
                return Some(node);
            }
            t = t + 1;
        }
        let mut t: usize = 0;
        while t < b.forward_path.len()
            invariant
                t <= b.forward_path@.len(),
                first_common_from(a.forward_path@, b.forward_path@, 0) is None,
                first_eq_from(a.forward_path@, b.current_point, 0) is None,
                first_eq_from(b.forward_path@, a.current_point, 0) == first_eq_from(
                    b.forward_path@, a.current_point, t as int),
            decreases b.forward_path@.len() - t,
        {
            let node = b.forward_path[t];
            if node == a.current_point {
                return Some(node);
            }
            t = t + 1;
        }
        None
    }

    /// Whether any request collector holds a pending reroute request.
    pub fn has_requests(&self) -> (r: bool)
        ensures
            r == (queued_requests(self.observers@).len() > 0),
    {
        let mut k: usize = 0;
        while k < self.observers.len()
            invariant
                k <= self.observers@.len(),
                queued_requests(self.observers@) == queued_from(self.observers@, k as int),
            decreases self.observers@.len() - k,
        {
            proof {
                assert(queued_from(self.observers@, k as int) == (match self.observers@[k as int] {
                    CollisionObserver::Assistant { requests } => requests@,
                    CollisionObserver::Logger { trace: _ } => Seq::empty(),
                }) + queued_from(self.observers@, k as int + 1));
            }
            match &self.observers[k] {
                CollisionObserver::Assistant { requests } => {
                    if requests.len() > 0 {
                        return true;
                    }
                }
                CollisionObserver::Logger { trace: _ } => {}
            }
            proof {
                assert(queued_from(self.observers@, k as int)
                    =~= queued_from(self.observers@, k as int + 1));
            }
            k = k + 1;
        }
        proof {
            assert(queued_from(self.observers@, k as int) =~= Seq::<RerouteRequest>::empty());
        }
        false
    }

    /// Atomically drain every request collector, returning all queued
    /// requests in registration order.
    pub fn take_requests(&mut self) -> (r: Vec<RerouteRequest>)
        ensures
            r@ == queued_requests(old(self).observers@),
            queued_requests(final(self).observers@).len() == 0,
            final(self).observers@.len() == old(self).observers@.len(),
            trace_from(final(self).observers@, 0) == trace_from(old(self).observers@, 0),
            final(self).ignored_pairs@ == old(self).ignored_pairs@,
    {
        let ghost obs0 = self.observers@;
        let mut r: Vec<RerouteRequest> = Vec::new();
        let mut k: usize = 0;
        while k < self.observers.len()
            invariant
                k <= obs0.len(),
                self.observers@.len() == obs0.len(),
                obs0 == old(self).observers@,
                self.ignored_pairs@ == old(self).ignored_pairs@,
                queued_from(obs0, 0) == r@ + queued_from(obs0, k as int),
                forall|t: int| k <= t < obs0.len() ==> #[trigger] self.observers@[t] == obs0[t],
                forall|t: int|
                    0 <= t < k ==> match (obs0[t], #[trigger] self.observers@[t]) {
                        (
                            CollisionObserver::Logger { trace: t0 },
                            CollisionObserver::Logger { trace: t1 },
                        ) => t1@ == t0@,
                        (
                            CollisionObserver::Assistant { requests: _ },
                            CollisionObserver::Assistant { requests: r1 },
                        ) => r1@.len() == 0,
                        _ => false,
                    },
            decreases obs0.len() - k,
        {
            let ghost r0 = r@;
            proof {
                assert(queued_from(obs0, k as int) == (match obs0[k as int] {
                    CollisionObserver::Assistant { requests } => requests@,
                    CollisionObserver::Logger { trace: _ } => Seq::empty(),
                }) + queued_from(obs0, k as int + 1));
            }
            let ob = self.observers.remove(k);
            let ob2 = match ob {
                CollisionObserver::Assistant { mut requests } => {
                    r.append(&mut requests);
                    CollisionObserver::Assistant { requests }
                }
                CollisionObserver::Logger { trace } => CollisionObserver::Logger { trace },
            };
            self.observers.insert(k, ob2);
            proof {
                assert(queued_from(obs0, 0) =~= r@ + queued_from(obs0, k as int + 1));
            }
            k = k + 1;
        }
        proof {
            assert(queued_from(obs0, obs0.len() as int) =~= Seq::<RerouteRequest>::empty());
            assert(r@ + Seq::<RerouteRequest>::empty() =~= r@);
            lemma_drained_empty(self.observers@, obs0, 0);
            lemma_trace_same(self.observers@, obs0, 0);
        }
        r
    }

    /// Atomically drain every logger's trace of direct collisions, returning
    /// the collected events in registration order.
    pub fn take_trace(&mut self) -> (r: Vec<CollisionEvent>)
        ensures
            r@ == trace_from(old(self).observers@, 0),
            trace_from(final(self).observers@, 0).len() == 0,
            final(self).observers@.len() == old(self).observers@.len(),
            queued_from(final(self).observers@, 0) == queued_from(old(self).observers@, 0),
            final(self).ignored_pairs@ == old(self).ignored_pairs@,
    {
        let ghost obs0 = self.observers@;
        let mut r: Vec<CollisionEvent> = Vec::new();
        let mut k: usize = 0;
        while k < self.observers.len()
            invariant
                k <= obs0.len(),
                self.observers@.len() == obs0.len(),
                obs0 == old(self).observers@,
                self.ignored_pairs@ == old(self).ignored_pairs@,
                trace_from(obs0, 0) == r@ + trace_from(obs0, k as int),
                forall|t: int| k <= t < obs0.len() ==> #[trigger] self.observers@[t] == obs0[t],
                forall|t: int|
                    0 <= t < k ==> match (obs0[t], #[trigger] self.observers@[t]) {
                        (
                            CollisionObserver::Logger { trace: _ },
                            CollisionObserver::Logger { trace: t1 },
                        ) => t1@.len() == 0,
                        (
                            CollisionObserver::Assistant { requests: r0 },
                            CollisionObserver::Assistant { requests: r1 },
                        ) => r1@ == r0@,
                        _ => false,
                    },
            decreases obs0.len() - k,
        {
            let ghost r0 = r@;
            proof {
                assert(trace_from(obs0, k as int) == (match obs0[k as int] {
                    CollisionObserver::Logger { trace } => trace@,
                    CollisionObserver::Assistant { requests: _ } => Seq::empty(),
                }) + trace_from(obs0, k as int + 1));
            }
            let ob = self.observers.remove(k);
            let ob2 = match ob {
                CollisionObserver::Logger { mut trace } => {
                    r.append(&mut trace);
                    CollisionObserver::Logger { trace }
                }
                CollisionObserver::Assistant { requests } => CollisionObserver::Assistant {
                    requests,
                },
            };
            self.observers.insert(k, ob2);
            proof {
                assert(trace_from(obs0, 0) =~= r@ + trace_from(obs0, k as int + 1));
            }
            k = k + 1;
        }
        proof {
            assert(trace_from(obs0, obs0.len() as int) =~= Seq::<CollisionEvent>::empty());
            assert(r@ + Seq::<CollisionEvent>::empty() =~= r@);
            lemma_trace_drained(self.observers@, obs0, 0);
        }
        r
    }
}

/// If every collector is empty, nothing is queued.
proof fn lemma_drained_empty(obs: Seq<CollisionObserver>, obs0: Seq<CollisionObserver>, k: int)
    requires
        obs.len() == obs0.len(),
        forall|t: int|
            0 <= t < obs.len() ==> match (obs0[t], #[trigger] obs[t]) {
                (
                    CollisionObserver::Logger { trace: t0 },
                    CollisionObserver::Logger { trace: t1 },
                ) => t1@ == t0@,
                (
                    CollisionObserver::Assistant { requests: _ },
                    CollisionObserver::Assistant { requests: r1 },
                ) => r1@.len() == 0,
                _ => false,
            },
        0 <= k,
    ensures
        queued_from(obs, k).len() == 0,
    decreases obs.len() - k,
{
    if k < obs.len() {
        lemma_drained_empty(obs, obs0, k + 1);
    }
}

/// Draining the collectors leaves every logger's trace as it was.
proof fn lemma_trace_same(obs: Seq<CollisionObserver>, obs0: Seq<CollisionObserver>, k: int)
    requires
        obs.len() == obs0.len(),
        forall|t: int|
            0 <= t < obs.len() ==> match (obs0[t], #[trigger] obs[t]) {
                (
                    CollisionObserver::Logger { trace: t0 },
                    CollisionObserver::Logger { trace: t1 },
                ) => t1@ == t0@,
                (
                    CollisionObserver::Assistant { requests: _ },
                    CollisionObserver::Assistant { requests: r1 },
                ) => r1@.len() == 0,
                _ => false,
            },
        0 <= k,
    ensures
        trace_from(obs, k) == trace_from(obs0, k),
    decreases obs.len() - k,
{
    if k < obs.len() {
        lemma_trace_same(obs, obs0, k + 1);
    }
}

/// Draining the loggers empties every trace and keeps every queue.
proof fn lemma_trace_drained(obs: Seq<CollisionObserver>, obs0: Seq<CollisionObserver>, k: int)
    requires
        obs.len() == obs0.len(),
        forall|t: int|
            0 <= t < obs.len() ==> match (obs0[t], #[trigger] obs[t]) {
                (
                    CollisionObserver::Logger { trace: _ },
                    CollisionObserver::Logger { trace: t1 },
                ) => t1@.len() == 0,
                (
                    CollisionObserver::Assistant { requests: r0 },
                    CollisionObserver::Assistant { requests: r1 },
                ) => r1@ == r0@,
                _ => false,
            },
        0 <= k,
    ensures
        trace_from(obs, k).len() == 0,
        queued_from(obs, k) == queued_from(obs0, k),
    decreases obs.len() - k,
{
    if k < obs.len() {
        lemma_trace_drained(obs, obs0, k + 1);
    }
}

/// Collision suppression: once a pair is in the suppression list, a scan
/// starting from that list emits no event for it.
pub proof fn lemma_collision_suppression(
    agents: Seq<Agent>,
    i: int,
    j: int,
    ign: Seq<AgentPair>,
    p: AgentPair,
)
    requires
        ign.contains(p),
    ensures
        forall|t: int|
            0 <= t < scan_from(agents, i, j, ign).len() ==> norm_pair(
                (#[trigger] scan_from(agents, i, j, ign)[t]).agent1_id,
                scan_from(agents, i, j, ign)[t].agent2_id,
            ) != p,
    decreases agents.len() - i, agents.len() + 1 - j,
{
    if i < 0 || j <= i || i >= agents.len() {
    } else if j >= agents.len() {
        lemma_collision_suppression(agents, i + 1, i + 2, ign, p);
    } else {
        let q = norm_pair(agents[i].id, agents[j].id);
        if ign.contains(q) {
            lemma_collision_suppression(agents, i, j + 1, ign, p);
        } else {
            match pair_event(agents[i], agents[j]) {
                Some(e) => {
                    assert(ign.push(q).contains(p)) by {
                        let t = choose|t: int| 0 <= t < ign.len() && ign[t] == p;
                        assert(ign.push(q)[t] == p);
                    }
                    lemma_collision_suppression(agents, i, j + 1, ign.push(q), p);
                    assert forall|t: int|
                        0 <= t < scan_from(agents, i, j, ign).len() implies norm_pair(
                        (#[trigger] scan_from(agents, i, j, ign)[t]).agent1_id,
                        scan_from(agents, i, j, ign)[t].agent2_id,
                    ) != p by {
                        let es = scan_from(agents, i, j + 1, ign.push(q));
                        assert(scan_from(agents, i, j, ign) == seq![e] + es);
                        if t == 0 {
                            assert(scan_from(agents, i, j, ign)[0] == e);
                            assert(norm_pair(e.agent1_id, e.agent2_id) == q);
                        } else {
                            assert(scan_from(agents, i, j, ign)[t] == es[t - 1]);
                        }
                    }
                }
                None => {
                    lemma_collision_suppression(agents, i, j + 1, ign, p);
                }
            }
        }
    }
}

} // verus!
