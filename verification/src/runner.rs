//! Scenario execution: compile each scenario's operations into a plan,
//! enumerate every ordering of the plan, execute each ordering against a
//! fresh copy of the baseline store, and verify the link-reachability
//! invariant after every act.
//!
//! Printing the outcomes is left to the caller; everything here returns
//! plain results.

use vstd::prelude::*;

verus! {

use crate::actor::{dispatch_case, Actor};
use crate::config::Config;
use crate::db::{spec_check_errors, store_reachable, Checker, Db};
use crate::graph::{spec_permute, Id};
use crate::path::Path;
use crate::payload::Payload;
use crate::planner::{Client, DocUpdate, Planner};
use crate::store::Store;
use crate::strutil::str_eq;
use vstd::string::StringExecFns;

/// One operation of a scenario: a client updates or removes one key.
pub enum PlanStep<U> {
    Update { client: String, key: String, update: U },
    Remove { client: String, key: String },
}

/// A named scenario: the operations that prepare the baseline store, and
/// the operations whose interleavings are checked.
pub struct Scenario<U> {
    pub name: String,
    pub init: Vec<PlanStep<U>>,
    pub plan: Vec<PlanStep<U>>,
}

/// The outcome of checking one scenario under one configuration: how
/// many orderings were checked, and — on the first violation — the
/// reported errors, the store at that instant, the failing ordering and
/// the failing step.
pub enum TestResult<T> {
    Pass { count: usize },
    Fail { count: usize, errors: Vec<String>, state: Store<Db<T>>, plan: Vec<Id>, step: usize },
}

impl<T: Payload> TestResult<T> {
    /// The number of orderings checked, whatever the outcome.
    pub open spec fn spec_count(&self) -> usize {
        match *self {
            TestResult::Pass { count } => count,
            TestResult::Fail { count, .. } => count,
        }
    }

    pub fn is_pass(&self) -> (r: bool)
        ensures
            r == (self matches TestResult::Pass { .. }),
    {
        match self {
            TestResult::Pass { .. } => true,
            TestResult::Fail { .. } => false,
        }
    }

    pub fn count(&self) -> (r: usize)
        ensures
            match self {
                TestResult::Pass { count } => r == count,
                TestResult::Fail { count, .. } => r == count,
            },
    {
        match self {
            TestResult::Pass { count } => *count,
            TestResult::Fail { count, .. } => *count,
        }
    }
}

/// Plan one step on a planner: an update when a transformation is given,
/// a remove otherwise, shaped by the client's configuration.  A step
/// whose plan would not fit in the node id space is not planned and
/// `false` comes back; this can only happen when the graph already holds
/// nearly `usize::MAX` nodes.
pub fn apply_step<T: Payload, U: DocUpdate<T>>(
    planner: &mut Planner<U>,
    client: &Client,
    key: &str,
    update: Option<U>,
) -> (r: bool)
    requires
        old(planner).wf(),
    ensures
        final(planner).wf(),
        final(planner).config == old(planner).config,
        r == (old(planner).graph.nodes@.len() + 2 * crate::path::spec_links(key@).len() + 2
            <= usize::MAX),
        !r ==> *final(planner) == *old(planner),
        r ==> forall|k: Seq<char>|
            final(planner).clients@.contains(k) <==> (old(planner).clients@.contains(k) || k
                == client.id@),
        r ==> match update {
            Some(_) => if client.config.update == crate::config::Update::GetBeforePut {
                crate::planner::update_gbp_shape(
                    *old(planner),
                    *final(planner),
                    client.id@,
                    key@,
                )
            } else {
                crate::planner::update_rbl_shape(
                    *old(planner),
                    *final(planner),
                    client.id@,
                    key@,
                )
            },
            None => if client.config.remove == crate::config::Remove::UnlinkParallel {
                crate::planner::remove_par_shape::<U>(
                    *old(planner),
                    *final(planner),
                    client.id@,
                    key@,
                )
            } else {
                crate::planner::remove_seq_shape::<U>(
                    *old(planner),
                    *final(planner),
                    client.id@,
                    key@,
                )
            },
        },
{
    let p = Path::new(key);
    let links = p.links();
    let n = links.len();
    proof {
        assert(links.deep_view().len() == crate::path::spec_links(key@).len());
    }
    let avail = usize::MAX - planner.graph.len();
    if avail < 2 || (avail - 2) / 2 < n {
        proof {
            assert(planner.graph.nodes@.len() + 2 * crate::path::spec_links(key@).len() + 2
                > usize::MAX);
        }
        return false;
    }
    proof {
        assert(planner.graph.nodes@.len() + 2 * crate::path::spec_links(key@).len() + 2
            <= usize::MAX);
    }
    match update {
        Some(u) => {
            client.update(planner, key, u);
        },
        None => {
            client.remove(planner, key);
        },
    }
    true
}

/// The client and key a step names.
pub open spec fn step_client<U>(step: PlanStep<U>) -> Seq<char> {
    match step {
        PlanStep::Update { client, .. } => client@,
        PlanStep::Remove { client, .. } => client@,
    }
}

pub open spec fn step_key<U>(step: PlanStep<U>) -> Seq<char> {
    match step {
        PlanStep::Update { key, .. } => key@,
        PlanStep::Remove { key, .. } => key@,
    }
}

/// What planning one step does: the client is registered, and — when the
/// plan fits in the node id space — the graph grows by the step's plan
/// shape under the planner's configuration.
pub open spec fn step_applied<U>(pre: Planner<U>, post: Planner<U>, step: PlanStep<U>) -> bool {
    let cid = step_client(step);
    let key = step_key(step);
    let fits = pre.graph.nodes@.len() + 2 * crate::path::spec_links(key).len() + 2 <= usize::MAX;
    &&& post.config == pre.config
    &&& forall|k: Seq<char>| post.clients@.contains(k) <==> (pre.clients@.contains(k) || k == cid)
    &&& if !fits {
        post.graph == pre.graph
    } else {
        match step {
            PlanStep::Update { .. } => if pre.config.update == crate::config::Update::GetBeforePut {
                crate::planner::update_gbp_shape(pre, post, cid, key)
            } else {
                crate::planner::update_rbl_shape(pre, post, cid, key)
            },
            PlanStep::Remove { .. } => if pre.config.remove
                == crate::config::Remove::UnlinkParallel {
                crate::planner::remove_par_shape::<U>(pre, post, cid, key)
            } else {
                crate::planner::remove_seq_shape::<U>(pre, post, cid, key)
            },
        }
    }
}

/// What planning a list of steps does: each step applied in turn.
pub open spec fn steps_applied<U>(pre: Planner<U>, post: Planner<U>, steps: Seq<PlanStep<U>>) -> bool
    decreases steps.len(),
{
    if steps.len() == 0 {
        post == pre
    } else {
        exists|mid: Planner<U>|
            steps_applied(pre, mid, steps.drop_last()) && step_applied(
                mid,
                post,
                steps.last(),
            )
    }
}

/// Plan every step of a list under its named client.
pub fn apply_steps<T: Payload, U: DocUpdate<T>>(planner: &mut Planner<U>, steps: &Vec<PlanStep<U>>)
    requires
        old(planner).wf(),
    ensures
        final(planner).wf(),
        final(planner).config == old(planner).config,
        steps_applied(*old(planner), *final(planner), steps@),
{
    let mut i: usize = 0;
    proof {
        assert(steps@.take(0) =~= Seq::<PlanStep<U>>::empty());
    }
    while i < steps.len()
        invariant
            planner.wf(),
            planner.config == old(planner).config,
            0 <= i <= steps.len(),
            steps_applied(*old(planner), *planner, steps@.take(i as int)),
        decreases steps.len() - i,
    {
        let ghost mid = *planner;
        match &steps[i] {
            PlanStep::Update { client, key, update } => {
                let c = planner.client(client.as_str());
                apply_step::<T, U>(planner, &c, key.as_str(), Some(update.dup()));
            },
            PlanStep::Remove { client, key } => {
                let c = planner.client(client.as_str());
                apply_step::<T, U>(planner, &c, key.as_str(), None);
            },
        }
        proof {
            assert(step_applied(mid, *planner, steps@[i as int]));
            assert(steps@.take(i + 1).drop_last() =~= steps@.take(i as int));
            assert(steps@.take(i + 1).last() == steps@[i as int]);
            assert(steps_applied(*old(planner), mid, steps@.take(i + 1).drop_last()));
            assert(steps_applied(*old(planner), *planner, steps@.take(i + 1)));
        }
        i += 1;
    }
    proof {
        assert(steps@.take(steps@.len() as int) =~= steps@);
    }
}


/// A planner that has compiled nothing yet.
pub open spec fn planner_empty<U>(p: Planner<U>, config: Config) -> bool {
    &&& p.wf()
    &&& p.graph.nodes@.len() == 0
    &&& p.clients@.len() == 0
    &&& p.config == config
}

/// A store that records nothing yet.
pub open spec fn store_empty<T: Payload>(s: Store<Db<T>>, config: Config) -> bool {
    &&& s.wf()
    &&& s.entries().len() == 0
    &&& s.seq == 0
    &&& s.config == config
}

/// An actor that has acted on nothing yet.
pub open spec fn actor_fresh<T: Payload>(a: Actor<T>, config: Config) -> bool {
    &&& a.wf()
    &&& a.cache.entries().len() == 0
    &&& a.crashed == false
    &&& a.unlinks@.len() == 0
    &&& a.config == config
}

/// A store observably equal to another: the same records, mutation
/// counter and configuration.
pub open spec fn store_like<T: Payload>(a: Store<Db<T>>, b: Store<Db<T>>) -> bool {
    &&& b.entries() == a.entries()
    &&& b.seq == a.seq
    &&& b.config == a.config
}

/// One act of an ordering executed by a single actor: the dispatch
/// effect of the act named by the node id.
pub open spec fn solo_step<T: Payload, U: DocUpdate<T>>(
    planner: Planner<U>,
    id: Id,
    s0: Store<Db<T>>,
    a0: Actor<T>,
    s1: Store<Db<T>>,
    a1: Actor<T>,
) -> bool {
    let act = planner.graph.nodes@[id - 1].value;
    &&& 1 <= id <= planner.graph.nodes@.len()
    &&& if a0.crashed {
        a1 == a0 && s1 == s0
    } else {
        dispatch_case::<T, U>(a0, a1, s0, s1, act)
    }
}

/// The first `j` acts of an ordering executed in turn by a single actor.
pub open spec fn solo_run<T: Payload, U: DocUpdate<T>>(
    planner: Planner<U>,
    ordering: Seq<Id>,
    j: int,
    s0: Store<Db<T>>,
    a0: Actor<T>,
    s1: Store<Db<T>>,
    a1: Actor<T>,
) -> bool
    decreases j,
{
    if j <= 0 {
        s1 == s0 && a1 == a0
    } else {
        exists|sm: Store<Db<T>>, am: Actor<T>|
            #[trigger] solo_step(planner, ordering[j - 1], sm, am, s1, a1) && solo_run(
                planner,
                ordering,
                j - 1,
                s0,
                a0,
                sm,
                am,
            )
    }
}

/// A baseline built for a scenario: some planner compiled from its
/// preparation steps, whose first enumerated ordering a single fresh
/// actor executed against an empty store, ending in this store.
pub open spec fn baseline_built<T: Payload, U: DocUpdate<T>>(
    config: Config,
    init: Seq<PlanStep<U>>,
    r: Store<Db<T>>,
) -> bool {
    exists|p0: Planner<U>, p: Planner<U>, s0: Store<Db<T>>, a0: Actor<T>, a1: Actor<T>|
        {
            &&& #[trigger] steps_applied(p0, p, init)
            &&& planner_empty(p0, config)
            &&& store_empty(s0, config)
            &&& actor_fresh(a0, config)
            &&& #[trigger] solo_run(
                p,
                spec_permute(p.graph.spec_nodes())[0],
                spec_permute(p.graph.spec_nodes())[0].len() as int,
                s0,
                a0,
                r,
                a1,
            )
        }
}

/// Build the baseline store of a scenario by running its preparation
/// steps, in insertion order, under a single temporary client.
pub fn create_store<T: Payload, U: DocUpdate<T>>(config: Config, init: &Vec<PlanStep<U>>) -> (r:
    Store<Db<T>>)
    ensures
        r.wf(),
        r.config_of() == config,
        baseline_built::<T, U>(config, init@, r),
{
    let mut planner: Planner<U> = Planner::new(config);
    let ghost p0 = planner;
    apply_steps::<T, U>(&mut planner, init);
    let mut store: Store<Db<T>> = Store::new(config);
    let ghost s0 = store;
    let gl = planner.graph.len();
    let orderings = planner.orderings();
    proof {
        crate::graph::lemma_graph_wf_nodes(planner.graph);
        assert(planner.graph.spec_nodes().len() == gl);
        crate::graph::lemma_permute_nonempty(planner.graph.spec_nodes());
        crate::graph::lemma_permute_sound(planner.graph.spec_nodes());
        assert(orderings@.len() == orderings.deep_view().len());
        assert(orderings@.len() > 0);
    }
    let mut actor: Actor<T> = Actor::new(config);
    let ghost a0 = actor;
    let plan = &orderings[0];
    let ghost ns = planner.graph.spec_nodes();
    let ghost ord = spec_permute(ns)[0];
    proof {
        assert(orderings.deep_view()[0] == orderings@[0].deep_view());
        assert(plan@ =~= plan.deep_view());
        assert(plan@ == ord);
        assert(crate::graph::is_linear_extension(ns, plan@));
        assert forall|x: int| 0 <= x < plan@.len() implies 1 <= #[trigger] plan@[x]
            <= planner.graph.nodes@.len() by {
            assert(crate::graph::node_ids(ns).contains(plan@[x]));
            let a = choose|a: int|
                0 <= a < crate::graph::node_ids(ns).len() && crate::graph::node_ids(ns)[a]
                    == plan@[x];
            assert(ns[a].0 == plan@[x]);
        }
        assert(plan@.len() == ns.len());
        assert(ns.len() <= usize::MAX);
    }
    let mut j: usize = 0;
    while j < plan.len()
        invariant
            planner.wf(),
            actor.wf(),
            store.wf(),
            store.config_of() == config,
            plan@ == ord,
            ord == spec_permute(planner.graph.spec_nodes())[0],
            forall|x: int|
                0 <= x < plan@.len() ==> 1 <= #[trigger] plan@[x] <= planner.graph.nodes@.len(),
            plan@.len() <= usize::MAX,
            0 <= j <= plan@.len(),
            store.seq <= j,
            solo_run(planner, ord, j as int, s0, a0, store, actor),
        decreases plan@.len() - j,
    {
        let id = plan[j];
        let ghost sm = store;
        let ghost am = actor;
        let act = planner.act(id);
        actor.dispatch(&mut store, act);
        proof {
            let jj: int = j as int + 1;
            assert(ord[jj - 1] == ord[j as int]);
            assert(solo_step(planner, ord[jj - 1], sm, am, store, actor));
            assert(solo_run(planner, ord, jj - 1, s0, a0, sm, am));
            assert(solo_run(planner, ord, jj, s0, a0, store, actor));
        }
        j += 1;
    }
    proof {
        assert(steps_applied(p0, planner, init@));
        assert(planner_empty(p0, config));
        assert(store_empty(s0, config));
        assert(actor_fresh(a0, config));
        assert(ord.len() == plan@.len());
        assert(solo_run(
            planner,
            spec_permute(planner.graph.spec_nodes())[0],
            spec_permute(planner.graph.spec_nodes())[0].len() as int,
            s0,
            a0,
            store,
            actor,
        ));
    }
    store
}

/// The roster of actors an ordering runs with: each registered client id
/// with its actor, in client order.
pub open spec fn roster_view<T: Payload>(v: Vec<(String, Actor<T>)>) -> Seq<(Seq<char>, Actor<T>)> {
    v@.map_values(|p: (String, Actor<T>)| (p.0@, p.1))
}

/// A roster of fresh actors, one per client id, in order.
pub open spec fn roster_fresh<T: Payload>(
    roster: Seq<(Seq<char>, Actor<T>)>,
    ids: Seq<Seq<char>>,
    config: Config,
) -> bool {
    &&& roster.len() == ids.len()
    &&& forall|x: int|
        0 <= x < roster.len() ==> (#[trigger] roster[x]).0 == ids[x] && actor_fresh(
            roster[x].1,
            config,
        )
}

/// One act routed to its owning actor: the first roster entry whose id is
/// the act's client dispatches it; every other actor is untouched.  A
/// store whose mutation counter has reached the machine limit leaves the
/// act undispatched.
pub open spec fn team_dispatch<T: Payload, U: DocUpdate<T>>(
    planner: Planner<U>,
    id: Id,
    s0: Store<Db<T>>,
    as0: Seq<(Seq<char>, Actor<T>)>,
    s1: Store<Db<T>>,
    as1: Seq<(Seq<char>, Actor<T>)>,
) -> bool {
    let act = planner.graph.nodes@[id - 1].value;
    &&& 1 <= id <= planner.graph.nodes@.len()
    &&& as1.len() == as0.len()
    &&& exists|f: int|
        {
            &&& 0 <= f < as0.len()
            &&& (#[trigger] as0[f]).0 == act.client_id@
            &&& forall|g: int| 0 <= g < f ==> (#[trigger] as0[g]).0 != act.client_id@
            &&& as1[f].0 == as0[f].0
            &&& forall|g: int| 0 <= g < as0.len() && g != f ==> #[trigger] as1[g] == as0[g]
            &&& if s0.seq < usize::MAX {
                if as0[f].1.crashed {
                    as1[f].1 == as0[f].1 && s1 == s0
                } else {
                    dispatch_case::<T, U>(as0[f].1, as1[f].1, s0, s1, act)
                }
            } else {
                as1[f].1 == as0[f].1 && s1 == s0
            }
        }
}

/// What a checker call that reported no violation says: an unchanged
/// mutation counter is answered from memory; otherwise the store was
/// scanned and no message was produced.
pub open spec fn check_ok_step<T: Payload>(c0: Checker, c1: Checker, s: Store<Db<T>>) -> bool {
    if c0.seq == s.seq {
        c1 == c0
    } else {
        &&& spec_check_errors(s.entries(), s@).len() == 0
        &&& c1.seq == s.seq
    }
}

/// One checked step of an ordering: the act dispatched to its actor, then
/// the invariant verified without complaint.
pub open spec fn team_step<T: Payload, U: DocUpdate<T>>(
    planner: Planner<U>,
    id: Id,
    s0: Store<Db<T>>,
    as0: Seq<(Seq<char>, Actor<T>)>,
    c0: Checker,
    s1: Store<Db<T>>,
    as1: Seq<(Seq<char>, Actor<T>)>,
    c1: Checker,
) -> bool {
    &&& team_dispatch(planner, id, s0, as0, s1, as1)
    &&& check_ok_step(c0, c1, s1)
}

/// The first `j` acts of an ordering executed and checked in turn.
pub open spec fn team_run<T: Payload, U: DocUpdate<T>>(
    planner: Planner<U>,
    ordering: Seq<Id>,
    j: int,
    s0: Store<Db<T>>,
    as0: Seq<(Seq<char>, Actor<T>)>,
    c0: Checker,
    s1: Store<Db<T>>,
    as1: Seq<(Seq<char>, Actor<T>)>,
    c1: Checker,
) -> bool
    decreases j,
{
    if j <= 0 {
        s1 == s0 && as1 == as0 && c1 == c0
    } else {
        exists|sm: Store<Db<T>>, amid: Seq<(Seq<char>, Actor<T>)>, cm: Checker|
            #[trigger] team_step(planner, ordering[j - 1], sm, amid, cm, s1, as1, c1) && team_run(
                planner,
                ordering,
                j - 1,
                s0,
                as0,
                c0,
                sm,
                amid,
                cm,
            )
    }
}

/// One failing step: the act dispatched, and then the checker — seeing a
/// changed mutation counter — scanned the store and reported violations.
pub open spec fn team_fail<T: Payload, U: DocUpdate<T>>(
    planner: Planner<U>,
    id: Id,
    s0: Store<Db<T>>,
    as0: Seq<(Seq<char>, Actor<T>)>,
    c0: Checker,
    s1: Store<Db<T>>,
    as1: Seq<(Seq<char>, Actor<T>)>,
) -> bool {
    &&& team_dispatch(planner, id, s0, as0, s1, as1)
    &&& c0.seq != s1.seq
    &&& spec_check_errors(s1.entries(), s1@).len() > 0
}

/// A clean execution: from a fresh roster over a copy of the baseline,
/// every act of the ordering runs and every check passes.
pub open spec fn clean_run<T: Payload, U: DocUpdate<T>>(
    planner: Planner<U>,
    ordering: Seq<Id>,
    baseline: Store<Db<T>>,
    config: Config,
) -> bool {
    exists|
        s0: Store<Db<T>>,
        as0: Seq<(Seq<char>, Actor<T>)>,
        c0: Checker,
        s1: Store<Db<T>>,
        as1: Seq<(Seq<char>, Actor<T>)>,
        c1: Checker,
    |
        {
            &&& store_like(baseline, s0)
            &&& roster_fresh(as0, planner.clients@, config)
            &&& c0.seq == 0
            &&& #[trigger] team_run(
                planner,
                ordering,
                ordering.len() as int,
                s0,
                as0,
                c0,
                s1,
                as1,
                c1,
            )
        }
}

/// Exhibits a clean run from its witnesses.
proof fn lemma_clean_run_intro<T: Payload, U: DocUpdate<T>>(
    planner: Planner<U>,
    ordering: Seq<Id>,
    baseline: Store<Db<T>>,
    config: Config,
    s0: Store<Db<T>>,
    as0: Seq<(Seq<char>, Actor<T>)>,
    c0: Checker,
    s1: Store<Db<T>>,
    as1: Seq<(Seq<char>, Actor<T>)>,
    c1: Checker,
)
    requires
        store_like(baseline, s0),
        roster_fresh(as0, planner.clients@, config),
        c0.seq == 0,
        team_run(planner, ordering, ordering.len() as int, s0, as0, c0, s1, as1, c1),
    ensures
        clean_run(planner, ordering, baseline, config),
{
}

/// A failing execution: from a fresh roster over a copy of the baseline,
/// some checked prefix of the ordering runs clean, and the act at `step`
/// leaves a store the checker rejects — `state` being that store.
pub open spec fn failing_run<T: Payload, U: DocUpdate<T>>(
    planner: Planner<U>,
    ordering: Seq<Id>,
    step: int,
    baseline: Store<Db<T>>,
    config: Config,
    state: Store<Db<T>>,
) -> bool {
    exists|
        s0: Store<Db<T>>,
        as0: Seq<(Seq<char>, Actor<T>)>,
        c0: Checker,
        sm: Store<Db<T>>,
        amid: Seq<(Seq<char>, Actor<T>)>,
        cm: Checker,
        s1: Store<Db<T>>,
        as1: Seq<(Seq<char>, Actor<T>)>,
    |
        {
            &&& store_like(baseline, s0)
            &&& roster_fresh(as0, planner.clients@, config)
            &&& c0.seq == 0
            &&& #[trigger] team_run(planner, ordering, step, s0, as0, c0, sm, amid, cm)
            &&& #[trigger] team_fail(planner, ordering[step], sm, amid, cm, s1, as1)
            &&& store_like(s1, state)
        }
}

/// Exhibits a failing run: the given states witness a checked prefix and
/// a failing step.
proof fn lemma_failing_run_intro<T: Payload, U: DocUpdate<T>>(
    planner: Planner<U>,
    ordering: Seq<Id>,
    step: int,
    baseline: Store<Db<T>>,
    config: Config,
    state: Store<Db<T>>,
    s0: Store<Db<T>>,
    as0: Seq<(Seq<char>, Actor<T>)>,
    c0: Checker,
    sm: Store<Db<T>>,
    amid: Seq<(Seq<char>, Actor<T>)>,
    cm: Checker,
    s1: Store<Db<T>>,
    as1: Seq<(Seq<char>, Actor<T>)>,
)
    requires
        store_like(baseline, s0),
        roster_fresh(as0, planner.clients@, config),
        c0.seq == 0,
        team_run(planner, ordering, step, s0, as0, c0, sm, amid, cm),
        team_fail(planner, ordering[step], sm, amid, cm, s1, as1),
        store_like(s1, state),
    ensures
        failing_run(planner, ordering, step, baseline, config, state),
{
}

/// Execute one ordering of a plan against a fresh copy of the baseline,
/// one actor per client, verifying the invariant after every act.
/// `None` means every check passed; otherwise the errors, the store at
/// the violation, and the index of the violating act come back.
pub fn run_ordering<T: Payload, U: DocUpdate<T>>(
    config: Config,
    baseline: &Store<Db<T>>,
    planner: &Planner<U>,
    ordering: &Vec<Id>,
) -> (r: Option<(Vec<String>, Store<Db<T>>, usize)>)
    requires
        planner.wf(),
        baseline.wf(),
        forall|x: int|
            0 <= x < ordering@.len() ==> 1 <= #[trigger] ordering@[x]
                <= planner.graph.nodes@.len(),
    ensures
        match r {
            None => clean_run(*planner, ordering@, *baseline, config),
            Some((errors, state, step)) => {
                &&& step < ordering@.len()
                &&& state.wf()
                &&& errors.deep_view() == spec_check_errors(state.entries(), state@)
                &&& errors.deep_view().len() > 0
                &&& !store_reachable(state.entries(), state@)
                &&& failing_run(*planner, ordering@, step as int, *baseline, config, state)
            },
        },
{
    let mut store = baseline.dup();
    let ghost s0g = store;
    let client_ids = planner.clients();
    let mut actors: Vec<(String, Actor<T>)> = Vec::new();
    let mut ci: usize = 0;
    while ci < client_ids.len()
        invariant
            0 <= ci <= client_ids@.len(),
            client_ids.deep_view() == planner.clients@,
            actors@.len() == ci,
            forall|x: int|
                0 <= x < ci ==> (#[trigger] actors@[x]).0@ == planner.clients@[x] && actor_fresh(
                    actors@[x].1,
                    config,
                ),
        decreases client_ids@.len() - ci,
    {
        let name = client_ids[ci].clone();
        proof {
            assert(client_ids.deep_view()[ci as int] == client_ids@[ci as int]@);
        }
        actors.push((name, Actor::new(config)));
        ci += 1;
    }
    let ghost as0g = roster_view(actors);
    proof {
        assert(roster_fresh(as0g, planner.clients@, config));
    }
    let mut checker = Checker::new();
    let ghost c0g = checker;
    let mut i: usize = 0;
    while i < ordering.len()
        invariant
            planner.wf(),
            store.wf(),
            forall|x: int|
                0 <= x < ordering@.len() ==> 1 <= #[trigger] ordering@[x]
                    <= planner.graph.nodes@.len(),
            forall|x: int|
                0 <= x < actors@.len() ==> (#[trigger] actors@[x]).0@ == planner.clients@[x]
                    && actors@[x].1.wf(),
            actors@.len() == planner.clients@.len(),
            0 <= i <= ordering@.len(),
            store_like(*baseline, s0g),
            roster_fresh(as0g, planner.clients@, config),
            c0g.seq == 0,
            team_run(
                *planner,
                ordering@,
                i as int,
                s0g,
                as0g,
                c0g,
                store,
                roster_view(actors),
                checker,
            ),
        decreases ordering@.len() - i,
    {
        let id = ordering[i];
        let act = planner.act(id);
        let ghost smg = store;
        let ghost asmg = roster_view(actors);
        let ghost cmg = checker;
        proof {
            assert(planner.clients@.contains(act.client_id@));
        }
        let mut ai: usize = 0;
        let mut found: Option<usize> = None;
        let na = actors.len();
        while found.is_none() && ai < na
            invariant
                na == actors@.len(),
                0 <= ai <= na,
                forall|x: int|
                    0 <= x < actors@.len() ==> (#[trigger] actors@[x]).0@ == planner.clients@[x]
                        && actors@[x].1.wf(),
                match found {
                    None => forall|x: int|
                        0 <= x < ai ==> (#[trigger] actors@[x]).0@ != act.client_id@,
                    Some(f) => f < na && actors@[f as int].0@ == act.client_id@ && forall|g: int|
                        0 <= g < f ==> (#[trigger] actors@[g]).0@ != act.client_id@,
                },
            decreases na - ai,
        {
            if str_eq(actors[ai].0.as_str(), act.client_id.as_str()) {
                found = Some(ai);
            }
            ai += 1;
        }
        proof {
            if found is None {
                let x = choose|x: int|
                    0 <= x < planner.clients@.len() && planner.clients@[x] == act.client_id@;
                assert(actors@[x].0@ == act.client_id@);
                assert(false);
            }
        }
        match found {
            Some(f) => {
                let ghost fg = f as int;
                if store.seq < usize::MAX {
                    let ghost av = actors@;
                    let mut pair = actors.remove(f);
                    pair.1.dispatch(&mut store, act);
                    actors.insert(f, pair);
                    proof {
                        assert forall|g: int|
                            0 <= g < actors@.len() && g != fg implies #[trigger] actors@[g]
                            == av[g] by {
                            if g < fg {
                                assert(actors@[g] == av.remove(fg)[g]);
                            } else {
                                assert(actors@[g] == av.remove(fg)[g - 1]);
                            }
                        }
                        assert(actors@.len() == av.len());
                        assert(actors@[fg].0 == av[fg].0);
                        assert forall|g: int|
                            0 <= g < actors@.len() && g != fg implies #[trigger] roster_view(
                            actors,
                        )[g] == asmg[g] by {
                            assert(actors@[g] == av[g]);
                        }
                        assert(roster_view(actors)[fg].0 == asmg[fg].0);
                        assert(roster_view(actors).len() == asmg.len());
                        assert(team_dispatch(
                            *planner,
                            ordering@[i as int],
                            smg,
                            asmg,
                            store,
                            roster_view(actors),
                        ));
                    }
                } else {
                    proof {
                        assert(roster_view(actors) =~= asmg);
                        assert(team_dispatch(
                            *planner,
                            ordering@[i as int],
                            smg,
                            asmg,
                            store,
                            roster_view(actors),
                        ));
                    }
                }
            },
            None => {},
        }
        match checker.check(&store) {
            Ok(_) => {
                proof {
                    assert(check_ok_step(cmg, checker, store));
                    let jj: int = i as int + 1;
                    assert(ordering@[jj - 1] == ordering@[i as int]);
                    assert(team_step(
                        *planner,
                        ordering@[jj - 1],
                        smg,
                        asmg,
                        cmg,
                        store,
                        roster_view(actors),
                        checker,
                    ));
                    assert(team_run(
                        *planner,
                        ordering@,
                        jj - 1,
                        s0g,
                        as0g,
                        c0g,
                        smg,
                        asmg,
                        cmg,
                    ));
                    assert(team_run(
                        *planner,
                        ordering@,
                        jj,
                        s0g,
                        as0g,
                        c0g,
                        store,
                        roster_view(actors),
                        checker,
                    ));
                }
            },
            Err(errors) => {
                let state = store.dup();
                proof {
                    assert(errors.deep_view().len() > 0);
                    assert(errors.deep_view() == spec_check_errors(state.entries(), state@));
                    crate::db::lemma_check_ok_iff_reachable(state.entries(), state@);
                    assert(team_fail(
                        *planner,
                        ordering@[i as int],
                        smg,
                        asmg,
                        cmg,
                        store,
                        roster_view(actors),
                    ));
                    assert(store_like(store, state));
                    lemma_failing_run_intro(
                        *planner,
                        ordering@,
                        i as int,
                        *baseline,
                        config,
                        state,
                        s0g,
                        as0g,
                        c0g,
                        smg,
                        asmg,
                        cmg,
                        store,
                        roster_view(actors),
                    );
                }
                return Some((errors, state, i));
            },
        }
        i += 1;
    }
    proof {
        lemma_clean_run_intro(
            *planner,
            ordering@,
            *baseline,
            config,
            s0g,
            as0g,
            c0g,
            store,
            roster_view(actors),
            checker,
        );
    }
    None
}

/// What `check_scenario` reports: for some planner compiled from the
/// scenario's plan and some baseline built from its preparation, a pass
/// counts every enumerated ordering; a failure carries the first failing
/// ordering, the failing step, the rejected store and the checker's
/// messages.
pub open spec fn check_scenario_post<T: Payload, U: DocUpdate<T>>(
    config: Config,
    plan_steps: Seq<PlanStep<U>>,
    init: Seq<PlanStep<U>>,
    r: TestResult<T>,
) -> bool {
    exists|p0: Planner<U>, p: Planner<U>, baseline: Store<Db<T>>|
        {
            &&& planner_empty(p0, config)
            &&& #[trigger] steps_applied(p0, p, plan_steps)
            &&& #[trigger] baseline_built::<T, U>(config, init, baseline)
            &&& {
                let ords = spec_permute(p.graph.spec_nodes());
                match r {
                    TestResult::Pass { count } => count == ords.len(),
                    TestResult::Fail { count, errors, state, plan, step } => {
                        &&& 1 <= count <= ords.len()
                        &&& plan@ == ords[count - 1]
                        &&& step < plan@.len()
                        &&& state.wf()
                        &&& errors.deep_view() == spec_check_errors(state.entries(), state@)
                        &&& errors.deep_view().len() > 0
                        &&& !store_reachable(state.entries(), state@)
                        &&& failing_run(p, ords[count - 1], step as int, baseline, config, state)
                    },
                }
            }
        }
}

/// Exhibits a scenario outcome from its witnesses.
proof fn lemma_scenario_post_intro<T: Payload, U: DocUpdate<T>>(
    config: Config,
    plan_steps: Seq<PlanStep<U>>,
    init: Seq<PlanStep<U>>,
    r: TestResult<T>,
    p0: Planner<U>,
    p: Planner<U>,
    baseline: Store<Db<T>>,
)
    requires
        planner_empty(p0, config),
        steps_applied(p0, p, plan_steps),
        baseline_built::<T, U>(config, init, baseline),
        ({
            let ords = spec_permute(p.graph.spec_nodes());
            match r {
                TestResult::Pass { count } => count == ords.len(),
                TestResult::Fail { count, errors, state, plan, step } => {
                    &&& 1 <= count <= ords.len()
                    &&& plan@ == ords[count - 1]
                    &&& step < plan@.len()
                    &&& state.wf()
                    &&& errors.deep_view() == spec_check_errors(state.entries(), state@)
                    &&& errors.deep_view().len() > 0
                    &&& !store_reachable(state.entries(), state@)
                    &&& failing_run(p, ords[count - 1], step as int, baseline, config, state)
                },
            }
        }),
    ensures
        check_scenario_post::<T, U>(config, plan_steps, init, r),
{
}

/// Check one scenario under one configuration: enumerate every ordering
/// of its plan and execute each against a fresh copy of the baseline.
pub fn check_scenario<T: Payload, U: DocUpdate<T>>(config: Config, scenario: &Scenario<U>) -> (r:
    TestResult<T>)
    ensures
        check_scenario_post::<T, U>(config, scenario.plan@, scenario.init@, r),
        r matches TestResult::Fail { errors, state, .. } ==> errors.deep_view().len() > 0
            && state.wf(),
{
    let mut planner: Planner<U> = Planner::new(config);
    let ghost p0g = planner;
    apply_steps::<T, U>(&mut planner, &scenario.plan);
    let baseline: Store<Db<T>> = create_store::<T, U>(config, &scenario.init);
    let orderings = planner.orderings();
    let mut n: usize = 0;
    let total = orderings.len();
    while n < total
        invariant
            planner.wf(),
            baseline.wf(),
            planner_empty(p0g, config),
            steps_applied(p0g, planner, scenario.plan@),
            baseline_built::<T, U>(config, scenario.init@, baseline),
            total == orderings@.len(),
            orderings.deep_view() == crate::graph::spec_permute(planner.graph.spec_nodes()),
            0 <= n <= total,
        decreases total - n,
    {
        let ordering = &orderings[n];
        proof {
            crate::graph::lemma_graph_wf_nodes(planner.graph);
            crate::graph::lemma_permute_sound(planner.graph.spec_nodes());
            assert(orderings.deep_view()[n as int] == orderings@[n as int].deep_view());
            assert(orderings@[n as int].deep_view() =~= orderings@[n as int]@);
            assert(crate::graph::is_linear_extension(
                planner.graph.spec_nodes(),
                orderings@[n as int]@,
            ));
            assert forall|x: int| 0 <= x < ordering@.len() implies 1 <= #[trigger] ordering@[x]
                <= planner.graph.nodes@.len() by {
                let ns = planner.graph.spec_nodes();
                assert(crate::graph::node_ids(ns).contains(ordering@[x]));
                let a = choose|a: int|
                    0 <= a < crate::graph::node_ids(ns).len() && crate::graph::node_ids(ns)[a]
                        == ordering@[x];
                assert(ns[a].0 == ordering@[x]);
            }
        }
        match run_ordering::<T, U>(config, &baseline, &planner, ordering) {
            Some((errors, state, step)) => {
                let plan = ordering.clone();
                proof {
                    assert(plan@ =~= ordering@);
                    let ords = spec_permute(planner.graph.spec_nodes());
                    assert(ords[n as int] == ordering@);
                    lemma_scenario_post_intro::<T, U>(
                        config,
                        scenario.plan@,
                        scenario.init@,
                        TestResult::Fail {
                            count: (n + 1) as usize,
                            errors: errors,
                            state: state,
                            plan: plan,
                            step: step,
                        },
                        p0g,
                        planner,
                        baseline,
                    );
                }
                return TestResult::Fail { count: n + 1, errors, state, plan, step };
            },
            None => {},
        }
        n += 1;
    }
    proof {
        assert(spec_permute(planner.graph.spec_nodes()).len() == total);
        lemma_scenario_post_intro::<T, U>(
            config,
            scenario.plan@,
            scenario.init@,
            TestResult::Pass { count: total },
            p0g,
            planner,
            baseline,
        );
    }
    TestResult::Pass { count: total }
}

/// One line of the report: the scenario's name, and whether it passed
/// and how many orderings were checked according to some outcome that
/// `check_scenario` can report for it.
pub open spec fn report_entry_ok<T: Payload, U: DocUpdate<T>>(
    config: Config,
    scenario: Scenario<U>,
    entry: (String, bool, usize),
) -> bool {
    &&& entry.0@ == scenario.name@
    &&& exists|tr: TestResult<T>|
        {
            &&& #[trigger] check_scenario_post::<T, U>(config, scenario.plan@, scenario.init@, tr)
            &&& entry.1 == (tr matches TestResult::Pass { .. })
            &&& entry.2 == tr.spec_count()
        }
}

/// Exhibits a report line from the outcome it reports.
proof fn lemma_report_entry_intro<T: Payload, U: DocUpdate<T>>(
    config: Config,
    scenario: Scenario<U>,
    entry: (String, bool, usize),
    tr: TestResult<T>,
)
    requires
        entry.0@ == scenario.name@,
        check_scenario_post::<T, U>(config, scenario.plan@, scenario.init@, tr),
        entry.1 == (tr matches TestResult::Pass { .. }),
        entry.2 == tr.spec_count(),
    ensures
        report_entry_ok::<T, U>(config, scenario, entry),
{
}

/// Runs a set of scenarios under a set of configurations.
pub struct Runner<U> {
    pub configs: Vec<Config>,
    pub scenarios: Vec<Scenario<U>>,
}

impl<U> Runner<U> {
    pub fn new() -> (r: Runner<U>)
        ensures
            r.configs@.len() == 0,
            r.scenarios@.len() == 0,
    {
        Runner { configs: Vec::new(), scenarios: Vec::new() }
    }

    /// Register configurations to run every scenario under.
    pub fn configs(&mut self, configs: &Vec<Config>)
        ensures
            final(self).configs@ == old(self).configs@ + configs@,
            final(self).scenarios == old(self).scenarios,
    {
        let mut i: usize = 0;
        while i < configs.len()
            invariant
                0 <= i <= configs@.len(),
                self.configs@ =~= old(self).configs@ + configs@.take(i as int),
                self.scenarios == old(self).scenarios,
            decreases configs@.len() - i,
        {
            self.configs.push(configs[i]);
            proof {
                assert(self.configs@ =~= old(self).configs@ + configs@.take(i + 1));
            }
            i += 1;
        }
        proof {
            assert(configs@.take(configs@.len() as int) =~= configs@);
        }
    }

    /// Register a scenario by name with its preparation and plan.
    pub fn add(&mut self, name: &str, init: Vec<PlanStep<U>>, plan: Vec<PlanStep<U>>)
        ensures
            final(self).configs == old(self).configs,
            final(self).scenarios@.len() == old(self).scenarios@.len() + 1,
            forall|i: int|
                0 <= i < old(self).scenarios@.len() ==> #[trigger] final(self).scenarios@[i]
                    == old(self).scenarios@[i],
            final(self).scenarios@.last().name@ == name@,
    {
        self.scenarios.push(Scenario { name: name.to_owned(), init, plan });
    }

    /// Check every scenario under every configuration; for each
    /// configuration, each scenario's name with whether it passed and
    /// how many orderings were checked.
    pub fn run_all<T: Payload>(&self) -> (r: Vec<(Config, Vec<(String, bool, usize)>)>)
        where U: DocUpdate<T>,
        ensures
            r@.len() == self.configs@.len(),
            forall|i: int| 0 <= i < r@.len() ==> (#[trigger] r@[i]).0 == self.configs@[i],
            forall|i: int|
                0 <= i < r@.len() ==> (#[trigger] r@[i]).1@.len() == self.scenarios@.len(),
            forall|i: int, j: int|
                0 <= i < r@.len() && 0 <= j < self.scenarios@.len() ==> report_entry_ok::<T, U>(
                    self.configs@[i],
                    self.scenarios@[j],
                    #[trigger] r@[i].1@[j],
                ),
    {
        let mut out: Vec<(Config, Vec<(String, bool, usize)>)> = Vec::new();
        let mut i: usize = 0;
        while i < self.configs.len()
            invariant
                0 <= i <= self.configs@.len(),
                out@.len() == i,
                forall|x: int| 0 <= x < i ==> (#[trigger] out@[x]).0 == self.configs@[x],
                forall|x: int|
                    0 <= x < i ==> (#[trigger] out@[x]).1@.len() == self.scenarios@.len(),
                forall|x: int, y: int|
                    0 <= x < i && 0 <= y < self.scenarios@.len() ==> report_entry_ok::<T, U>(
                        self.configs@[x],
                        self.scenarios@[y],
                        #[trigger] out@[x].1@[y],
                    ),
            decreases self.configs@.len() - i,
        {
            let config = self.configs[i];
            let mut results: Vec<(String, bool, usize)> = Vec::new();
            let mut j: usize = 0;
            while j < self.scenarios.len()
                invariant
                    0 <= j <= self.scenarios@.len(),
                    results@.len() == j,
                    config == self.configs@[i as int],
                    0 <= i < self.configs@.len(),
                    forall|y: int|
                        0 <= y < j ==> report_entry_ok::<T, U>(
                            self.configs@[i as int],
                            self.scenarios@[y],
                            #[trigger] results@[y],
                        ),
                decreases self.scenarios@.len() - j,
            {
                let result: TestResult<T> = check_scenario::<T, U>(config, &self.scenarios[j]);
                let passed = result.is_pass();
                let count = result.count();
                let name = self.scenarios[j].name.clone();
                let ghost entry = (name, passed, count);
                results.push((name, passed, count));
                proof {
                    lemma_report_entry_intro::<T, U>(
                        config,
                        self.scenarios@[j as int],
                        entry,
                        result,
                    );
                    assert(results@[j as int] == entry);
                }
                j += 1;
            }
            out.push((config, results));
            i += 1;
        }
        out
    }
}

/// The decimal form of a number, digits grouped in threes by commas.
pub open spec fn spec_digits(n: nat) -> Seq<char>
    decreases n,
{
    if n < 10 {
        seq![spec_digit(n)]
    } else {
        spec_digits(n / 10) + seq![spec_digit(n % 10)]
    }
}

pub open spec fn spec_digit(d: nat) -> char {
    if d == 0 {
        '0'
    } else if d == 1 {
        '1'
    } else if d == 2 {
        '2'
    } else if d == 3 {
        '3'
    } else if d == 4 {
        '4'
    } else if d == 5 {
        '5'
    } else if d == 6 {
        '6'
    } else if d == 7 {
        '7'
    } else if d == 8 {
        '8'
    } else {
        '9'
    }
}

/// A group of three digits, zero-padded.
pub open spec fn spec_pad3(n: nat) -> Seq<char> {
    seq![spec_digit((n / 100) % 10), spec_digit((n / 10) % 10), spec_digit(n % 10)]
}

/// The grouped decimal form: `1234567` reads `1,234,567`.
pub open spec fn spec_grouped(n: nat) -> Seq<char>
    decreases n,
{
    if n < 1000 {
        spec_digits(n)
    } else {
        spec_grouped(n / 1000) + seq![','] + spec_pad3(n % 1000)
    }
}

fn digit_str(d: usize) -> (r: &'static str)
    requires
        d < 10,
    ensures
        r@ == seq![spec_digit(d as nat)],
{
    let r = if d == 0 {
        "0"
    } else if d == 1 {
        "1"
    } else if d == 2 {
        "2"
    } else if d == 3 {
        "3"
    } else if d == 4 {
        "4"
    } else if d == 5 {
        "5"
    } else if d == 6 {
        "6"
    } else if d == 7 {
        "7"
    } else if d == 8 {
        "8"
    } else {
        "9"
    };
    proof {
        reveal_strlit("0");
        reveal_strlit("1");
        reveal_strlit("2");
        reveal_strlit("3");
        reveal_strlit("4");
        reveal_strlit("5");
        reveal_strlit("6");
        reveal_strlit("7");
        reveal_strlit("8");
        reveal_strlit("9");
        assert(r@ =~= seq![spec_digit(d as nat)]);
    }
    r
}

fn format_digits(n: usize) -> (r: String)
    ensures
        r@ == spec_digits(n as nat),
    decreases n,
{
    if n < 10 {
        String::from_str(digit_str(n))
    } else {
        let r = format_digits(n / 10).concat(digit_str(n % 10));
        proof {
            assert(r@ =~= spec_digits(n as nat));
        }
        r
    }
}

/// The number in decimal with commas between groups of three digits.
pub fn format_number(n: usize) -> (r: String)
    ensures
        r@ == spec_grouped(n as nat),
    decreases n,
{
    if n < 1000 {
        format_digits(n)
    } else {
        let head = format_number(n / 1000);
        let m = n % 1000;
        let r = head.concat(",").concat(digit_str((m / 100) % 10)).concat(
            digit_str((m / 10) % 10),
        ).concat(digit_str(m % 10));
        proof {
            reveal_strlit(",");
            assert(r@ =~= spec_grouped(n as nat));
        }
        r
    }
}

} // verus!
