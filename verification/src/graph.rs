//! The dependency graph and the enumerator of its topological orderings.
//!
//! Nodes get stable 1-based ids in insertion order; each node lists the
//! ids of earlier nodes it depends on, so the graph is acyclic by
//! construction.  `orderings` yields every linear extension of the
//! graph — every order of the node ids in which each node comes after
//! all of its dependencies — backtracking over the available nodes in
//! insertion order, so the enumeration is deterministic.

use vstd::prelude::*;

verus! {

use vstd::slice::slice_to_vec;

pub type Id = usize;

/// A dependency graph node: its id, the ids it depends on, and its value.
pub struct Node<T> {
    pub id: Id,
    pub deps: Vec<Id>,
    pub value: T,
}

/// An append-only dependency graph.
pub struct Graph<T> {
    pub nodes: Vec<Node<T>>,
}

/// The dependency structure of a graph: each node's id with the ids it
/// depends on, in insertion order.
pub type NodeSpec = Seq<(Id, Seq<Id>)>;

/// The dependency sequence with every occurrence of `id` dropped.
pub open spec fn drop_dep(deps: Seq<Id>, id: Id) -> Seq<Id>
    decreases deps.len(),
{
    if deps.len() == 0 {
        Seq::empty()
    } else {
        (if deps[0] == id {
            Seq::empty()
        } else {
            seq![deps[0]]
        }) + drop_dep(deps.drop_first(), id)
    }
}

/// What dropping an id keeps: exactly the other dependencies.
pub proof fn lemma_drop_dep(deps: Seq<Id>, id: Id)
    ensures
        forall|d: Id| #[trigger] drop_dep(deps, id).contains(d) <==> (deps.contains(d) && d
            != id),
    decreases deps.len(),
{
    let r = drop_dep(deps, id);
    if deps.len() == 0 {
        assert(r.len() == 0);
        assert forall|d: Id| #[trigger] r.contains(d) implies (deps.contains(d) && d != id) by {
            let p = choose|p: int| 0 <= p < r.len() && r[p] == d;
        }
    } else {
        let t = deps.drop_first();
        lemma_drop_dep(t, id);
        let rt = drop_dep(t, id);
        assert forall|d: Id| #[trigger] r.contains(d) implies (deps.contains(d) && d != id) by {
            let p = choose|p: int| 0 <= p < r.len() && r[p] == d;
            if deps[0] == id {
                assert(r =~= rt);
                assert(rt.contains(d));
                assert(t.contains(d) && d != id);
                let q = choose|q: int| 0 <= q < t.len() && t[q] == d;
                assert(t[q] == deps[q + 1]);
                assert(deps.contains(d));
            } else {
                assert(r == seq![deps[0]] + rt);
                if p == 0 {
                    assert(d == deps[0]);
                    assert(deps.contains(d));
                } else {
                    assert(r[p] == rt[p - 1]);
                    assert(rt.contains(d));
                    assert(t.contains(d) && d != id);
                    let q = choose|q: int| 0 <= q < t.len() && t[q] == d;
                    assert(t[q] == deps[q + 1]);
                    assert(deps.contains(d));
                }
            }
        }
        assert forall|d: Id| deps.contains(d) && d != id implies #[trigger] r.contains(d) by {
            let q = choose|q: int| 0 <= q < deps.len() && deps[q] == d;
            if q == 0 {
                assert(r == seq![deps[0]] + rt);
                assert(r[0] == d);
                assert(r.contains(d));
            } else {
                assert(t[q - 1] == deps[q]);
                assert(t.contains(d));
                assert(rt.contains(d));
                let p = choose|p: int| 0 <= p < rt.len() && rt[p] == d;
                if deps[0] == id {
                    assert(r =~= rt);
                    assert(r[p] == d);
                } else {
                    assert(r == seq![deps[0]] + rt);
                    assert(r[p + 1] == d);
                }
                assert(r.contains(d));
            }
        }
    }
}

/// The graph after an available node is taken: the node is removed and
/// no remaining node depends on it any more.
pub open spec fn remove_node(ns: NodeSpec, k: int) -> NodeSpec
    recommends
        0 <= k < ns.len(),
{
    ns.remove(k).map_values(|p: (Id, Seq<Id>)| (p.0, drop_dep(p.1, ns[k].0)))
}

/// All topological orderings of the graph, in the deterministic order
/// the enumerator yields them: the empty graph has exactly the empty
/// ordering; otherwise each available node in insertion order heads the
/// orderings of the graph that remains without it.
pub open spec fn spec_permute(ns: NodeSpec) -> Seq<Seq<Id>>
    decreases ns.len(), ns.len() + 1,
{
    if ns.len() == 0 {
        seq![Seq::<Id>::empty()]
    } else {
        spec_branches(ns, 0)
    }
}

/// The orderings contributed by the available nodes at positions
/// `k` and later.
pub open spec fn spec_branches(ns: NodeSpec, k: int) -> Seq<Seq<Id>>
    decreases ns.len(), ns.len() - k,
{
    if k < 0 || k >= ns.len() {
        Seq::empty()
    } else {
        let rest = spec_branches(ns, k + 1);
        if ns[k].1.len() == 0 {
            spec_permute(remove_node(ns, k)).map_values(|o: Seq<Id>| seq![ns[k].0] + o) + rest
        } else {
            rest
        }
    }
}

impl<T> Graph<T> {
    /// Each node's id is its 1-based position, and dependencies point
    /// only at earlier nodes.
    pub open spec fn wf(&self) -> bool {
        forall|i: int|
            0 <= i < self.nodes@.len() ==> ((#[trigger] self.nodes@[i]).id == i + 1 && forall|
                j: int,
            |
                0 <= j < self.nodes@[i].deps@.len() ==> 1 <= #[trigger] self.nodes@[i].deps@[j]
                    <= i)
    }

    /// The dependency structure the enumerator works on.
    pub open spec fn spec_nodes(&self) -> NodeSpec {
        Seq::new(self.nodes@.len(), |i: int| (self.nodes@[i].id, self.nodes@[i].deps@))
    }

    pub fn new() -> (r: Graph<T>)
        ensures
            r.nodes@.len() == 0,
            r.wf(),
    {
        Graph { nodes: Vec::new() }
    }

    pub fn len(&self) -> (r: usize)
        ensures
            r == self.nodes@.len(),
    {
        self.nodes.len()
    }

    /// Append a node depending on the given earlier ids; its id — one
    /// past the previous count — is returned.
    pub fn add(&mut self, deps: &[Id], value: T) -> (r: Id)
        requires
            old(self).wf(),
            old(self).nodes@.len() < usize::MAX,
            forall|j: int| 0 <= j < deps@.len() ==> 1 <= #[trigger] deps@[j] <= old(self).nodes@.len(),
        ensures
            final(self).wf(),
            r == old(self).nodes@.len() + 1,
            final(self).nodes@.len() == old(self).nodes@.len() + 1,
            final(self).spec_nodes() == old(self).spec_nodes().push((r, deps@)),
            final(self).nodes@.last().value == value,
            final(self).nodes@.last().deps@ == deps@,
            forall|i: int|
                0 <= i < old(self).nodes@.len() ==> final(self).nodes@[i]
                    == old(self).nodes@[i],
    {
        let node_id = self.nodes.len() + 1;
        let d = slice_to_vec(deps);
        self.nodes.push(Node { id: node_id, deps: d, value });
        proof {
            assert(self.spec_nodes() =~= old(self).spec_nodes().push((node_id, deps@)));
        }
        node_id
    }

    /// The value of the node with the given id.
    pub fn value(&self, id: Id) -> (r: &T)
        requires
            self.wf(),
            1 <= id <= self.nodes@.len(),
        ensures
            r == self.nodes@[id - 1].value,
    {
        &self.nodes[id - 1].value
    }

    /// The dependencies of the node with the given id.
    pub fn deps(&self, id: Id) -> (r: &Vec<Id>)
        requires
            self.wf(),
            1 <= id <= self.nodes@.len(),
        ensures
            r@ == self.nodes@[id - 1].deps@,
    {
        &self.nodes[id - 1].deps
    }

    /// Every topological ordering of the graph, as sequences of node
    /// ids, in the enumerator's deterministic order.
    pub fn orderings(&self) -> (r: Vec<Vec<Id>>)
        requires
            self.wf(),
        ensures
            r.deep_view() == spec_permute(self.spec_nodes()),
    {
        let mut ns: Vec<(Id, Vec<Id>)> = Vec::new();
        let mut i: usize = 0;
        while i < self.nodes.len()
            invariant
                self.wf(),
                0 <= i <= self.nodes@.len(),
                ns.deep_view() =~= self.spec_nodes().take(i as int),
            decreases self.nodes@.len() - i,
        {
            let d = slice_to_vec(self.nodes[i].deps.as_slice());
            let el = (self.nodes[i].id, d);
            let ghost gns = ns;
            let ghost gel = el;
            ns.push(el);
            proof {
                crate::strutil::lemma_deep_view_push(gns, ns, gel);
                assert(gel.deep_view() == (gel.0, gel.1.deep_view()));
                assert(gel.1.deep_view() =~= gel.1@);
                assert(ns.deep_view() =~= self.spec_nodes().take(i + 1));
            }
            i += 1;
        }
        proof {
            assert(self.spec_nodes().take(self.nodes@.len() as int) =~= self.spec_nodes());
        }
        permute(ns)
    }
}

/// Every topological ordering of the given dependency structure, by
/// backtracking over the available nodes in insertion order.
pub fn permute(nodes: Vec<(Id, Vec<Id>)>) -> (r: Vec<Vec<Id>>)
    ensures
        r.deep_view() == spec_permute(nodes.deep_view()),
    decreases nodes@.len(),
{
    let ghost dv = nodes.deep_view();
    proof {
        assert(dv.len() == nodes@.len());
    }
    if nodes.len() == 0 {
        let mut r: Vec<Vec<Id>> = Vec::new();
        let inner: Vec<Id> = Vec::new();
        let ghost gr = r;
        let ghost ginner = inner;
        r.push(inner);
        proof {
            crate::strutil::lemma_deep_view_push(gr, r, ginner);
            assert(ginner.deep_view() =~= Seq::<Id>::empty());
            assert(r.deep_view() =~= spec_permute(dv));
        }
        return r;
    }
    let mut out: Vec<Vec<Id>> = Vec::new();
    let n = nodes.len();
    let mut k: usize = 0;
    while k < n
        invariant
            n == nodes@.len(),
            dv == nodes.deep_view(),
            dv.len() == n,
            n > 0,
            0 <= k <= n,
            out.deep_view() + spec_branches(dv, k as int) =~= spec_branches(dv, 0),
        decreases n - k,
    {
        proof {
            assert(dv[k as int] == (nodes@[k as int].0, nodes@[k as int].1@));
        }
        if nodes[k].1.len() == 0 {
            let action = nodes[k].0;
            // The graph without the chosen node, its id dropped from
            // every dependency list.
            let mut remaining: Vec<(Id, Vec<Id>)> = Vec::new();
            let mut i: usize = 0;
            while i < n
                invariant
                    n == nodes@.len(),
                    dv == nodes.deep_view(),
                    dv.len() == n,
                    0 <= k < n,
                    action == dv[k as int].0,
                    0 <= i <= n,
                    remaining.deep_view() =~= remove_node(dv, k as int).take(
                        if i <= k {
                            i as int
                        } else {
                            i - 1
                        },
                    ),
                decreases n - i,
            {
                if i != k {
                    let mut fd: Vec<Id> = Vec::new();
                    let deps = &nodes[i].1;
                    let m = deps.len();
                    let mut j: usize = 0;
                    proof {
                        assert(dv[i as int] == (nodes@[i as int].0, nodes@[i as int].1@));
                        assert(deps@.skip(0) =~= deps@);
                        assert(fd@ =~= Seq::<Id>::empty());
                        assert(fd@ + drop_dep(deps@.skip(0), action) =~= drop_dep(deps@, action));
                    }
                    while j < m
                        invariant
                            m == deps@.len(),
                            0 <= j <= m,
                            fd@ + drop_dep(deps@.skip(j as int), action) =~= drop_dep(
                                deps@,
                                action,
                            ),
                        decreases m - j,
                    {
                        proof {
                            assert(deps@.skip(j as int)[0] == deps@[j as int]);
                            assert(deps@.skip(j as int).drop_first() =~= deps@.skip(j + 1));
                        }
                        if deps[j] != action {
                            fd.push(deps[j]);
                        }
                        j += 1;
                    }
                    proof {
                        assert(deps@.skip(m as int) =~= Seq::<Id>::empty());
                        assert(fd@ =~= drop_dep(deps@, action));
                    }
                    let el = (nodes[i].0, fd);
                    let ghost grem = remaining;
                    let ghost gel = el;
                    remaining.push(el);
                    proof {
                        crate::strutil::lemma_deep_view_push(grem, remaining, gel);
                        assert(gel.deep_view() == (gel.0, gel.1.deep_view()));
                        assert(gel.1.deep_view() =~= gel.1@);
                        let rn = remove_node(dv, k as int);
                        let pos: int = if i < k {
                            i as int
                        } else {
                            i - 1
                        };
                        assert(dv.remove(k as int)[pos] == (if i < k {
                            dv[i as int]
                        } else {
                            dv[i as int]
                        }));
                        assert(rn[pos] == (dv[i as int].0, drop_dep(dv[i as int].1, action)));
                        assert(remaining.deep_view() =~= rn.take(pos + 1));
                    }
                }
                i += 1;
            }
            proof {
                assert(remove_node(dv, k as int).len() == n - 1);
                assert(remaining.deep_view() =~= remove_node(dv, k as int));
                assert(remaining@.len() == remaining.deep_view().len());
            }
            let sub = permute(remaining);
            let s = sub.len();
            let mut j: usize = 0;
            while j < s
                invariant
                    n == nodes@.len(),
                    dv == nodes.deep_view(),
                    dv.len() == n,
                    0 <= k < n,
                    dv[k as int].1.len() == 0,
                    action == dv[k as int].0,
                    s == sub@.len(),
                    sub.deep_view() == spec_permute(remove_node(dv, k as int)),
                    0 <= j <= s,
                    out.deep_view() + spec_permute(remove_node(dv, k as int)).skip(
                        j as int,
                    ).map_values(|o: Seq<Id>| seq![dv[k as int].0] + o) + spec_branches(
                        dv,
                        k + 1,
                    ) =~= spec_branches(dv, 0),
                decreases s - j,
            {
                let mut v: Vec<Id> = Vec::new();
                v.push(action);
                let row = &sub[j];
                let rl = row.len();
                let mut m: usize = 0;
                while m < rl
                    invariant
                        rl == row@.len(),
                        0 <= m <= rl,
                        v@ =~= seq![action] + row@.take(m as int),
                    decreases rl - m,
                {
                    v.push(row[m]);
                    proof {
                        assert(v@ =~= seq![action] + row@.take(m + 1));
                    }
                    m += 1;
                }
                proof {
                    assert(row@.take(rl as int) =~= row@);
                    assert(v@ =~= seq![action] + row@);
                }
                let ghost gout = out;
                let ghost gv = v;
                out.push(v);
                proof {
                    crate::strutil::lemma_deep_view_push(gout, out, gv);
                    let sp = spec_permute(remove_node(dv, k as int));
                    assert(sub.deep_view()[j as int] == sub@[j as int].deep_view());
                    assert(sub@[j as int].deep_view() =~= row@);
                    assert(gv.deep_view() =~= seq![dv[k as int].0] + sp[j as int]);
                    assert(sp.skip(j as int)[0] == sp[j as int]);
                    assert(sp.skip(j as int).drop_first() =~= sp.skip(j + 1));
                    assert(sp.skip(j as int).map_values(|o: Seq<Id>| seq![dv[k as int].0] + o)
                        =~= seq![gv.deep_view()] + sp.skip(j + 1).map_values(
                        |o: Seq<Id>| seq![dv[k as int].0] + o,
                    ));
                    assert(out.deep_view() + spec_permute(remove_node(dv, k as int)).skip(j + 1)
                        .map_values(|o: Seq<Id>| seq![dv[k as int].0] + o) + spec_branches(
                        dv,
                        k + 1,
                    ) =~= spec_branches(dv, 0));
                }
                j += 1;
            }
            proof {
                let sp = spec_permute(remove_node(dv, k as int));
                assert(sp.skip(s as int) =~= Seq::<Seq<Id>>::empty());
                assert(sp.skip(s as int).map_values(|o: Seq<Id>| seq![dv[k as int].0] + o)
                    =~= Seq::<Seq<Id>>::empty());
                assert(spec_branches(dv, k as int) == sp.map_values(
                    |o: Seq<Id>| seq![dv[k as int].0] + o,
                ) + spec_branches(dv, k + 1));
                assert(sp.skip(0) =~= sp);
                assert(out.deep_view() + spec_branches(dv, k + 1) =~= spec_branches(dv, 0));
            }
        } else {
            proof {
                assert(spec_branches(dv, k as int) == spec_branches(dv, k + 1));
            }
        }
        k += 1;
    }
    proof {
        assert(spec_branches(dv, n as int) =~= Seq::<Seq<Id>>::empty());
        assert(out.deep_view() =~= spec_branches(dv, 0));
    }
    out
}


/// The node ids, in insertion order.
pub open spec fn node_ids(ns: NodeSpec) -> Seq<Id> {
    ns.map_values(|p: (Id, Seq<Id>)| p.0)
}

/// A well-formed dependency structure: ids are distinct, and every
/// dependency names another node.
pub open spec fn wf_nodes(ns: NodeSpec) -> bool {
    &&& forall|i: int, j: int|
        0 <= i < j < ns.len() ==> (#[trigger] ns[i]).0 != (#[trigger] ns[j]).0
    &&& forall|i: int, j: int|
        0 <= i < ns.len() && 0 <= j < ns[i].1.len() ==> (node_ids(ns).contains(
            #[trigger] ns[i].1[j],
        ) && ns[i].1[j] != ns[i].0)
}

/// Whether `a` occurs before `b` in the ordering.
pub open spec fn comes_before(ord: Seq<Id>, a: Id, b: Id) -> bool {
    exists|p: int, q: int| 0 <= p < q < ord.len() && ord[p] == a && ord[q] == b
}

/// A linear extension of the dependency structure: the node ids, each
/// exactly once, every node after all of its dependencies.
pub open spec fn is_linear_extension(ns: NodeSpec, ord: Seq<Id>) -> bool {
    &&& ord.len() == ns.len()
    &&& forall|p: int, q: int| 0 <= p < q < ord.len() ==> ord[p] != ord[q]
    &&& forall|p: int| 0 <= p < ord.len() ==> node_ids(ns).contains(#[trigger] ord[p])
    &&& forall|i: int| 0 <= i < ns.len() ==> ord.contains((#[trigger] ns[i]).0)
    &&& forall|i: int, j: int|
        0 <= i < ns.len() && 0 <= j < ns[i].1.len() ==> comes_before(
            ord,
            #[trigger] ns[i].1[j],
            ns[i].0,
        )
}

/// Taking an available node leaves a well-formed structure whose ids are
/// the remaining ones.
pub proof fn lemma_remove_node_wf(ns: NodeSpec, k: int)
    requires
        wf_nodes(ns),
        0 <= k < ns.len(),
    ensures
        wf_nodes(remove_node(ns, k)),
        remove_node(ns, k).len() == ns.len() - 1,
        forall|m: int|
            0 <= m < ns.len() - 1 ==> #[trigger] remove_node(ns, k)[m] == (
                ns[if m < k { m } else { m + 1 }].0,
                drop_dep(ns[if m < k { m } else { m + 1 }].1, ns[k].0),
            ),
{
    let rn = remove_node(ns, k);
    assert forall|m: int| 0 <= m < ns.len() - 1 implies #[trigger] rn[m] == (
        ns[if m < k { m } else { m + 1 }].0,
        drop_dep(ns[if m < k { m } else { m + 1 }].1, ns[k].0),
    ) by {
        assert(ns.remove(k)[m] == ns[if m < k { m } else { m + 1 }]);
    }
    assert forall|i: int, j: int| 0 <= i < j < rn.len() implies (#[trigger] rn[i]).0
        != (#[trigger] rn[j]).0 by {
        let i2: int = if i < k { i } else { i + 1 };
        let j2: int = if j < k { j } else { j + 1 };
        assert(rn[i].0 == ns[i2].0 && rn[j].0 == ns[j2].0);
    }
    assert forall|i: int, j: int| 0 <= i < rn.len() && 0 <= j < rn[i].1.len() implies (node_ids(
        rn,
    ).contains(#[trigger] rn[i].1[j]) && rn[i].1[j] != rn[i].0) by {
        let i2: int = if i < k { i } else { i + 1 };
        let d = rn[i].1[j];
        lemma_drop_dep(ns[i2].1, ns[k].0);
        assert(drop_dep(ns[i2].1, ns[k].0).contains(d));
        assert(ns[i2].1.contains(d) && d != ns[k].0);
        let j2 = choose|j2: int| 0 <= j2 < ns[i2].1.len() && ns[i2].1[j2] == d;
        assert(node_ids(ns).contains(d) && d != ns[i2].0);
        let a = choose|a: int| 0 <= a < node_ids(ns).len() && node_ids(ns)[a] == d;
        assert(ns[a].0 == d);
        assert(a != k);
        let m: int = if a < k { a } else { a - 1 };
        assert(rn[m].0 == d);
        assert(node_ids(rn)[m] == d);
        assert(node_ids(rn).contains(d));
    }
}

/// Every ordering the enumerator yields is a linear extension.
pub proof fn lemma_permute_sound(ns: NodeSpec)
    requires
        wf_nodes(ns),
    ensures
        forall|x: int|
            0 <= x < spec_permute(ns).len() ==> is_linear_extension(
                ns,
                #[trigger] spec_permute(ns)[x],
            ),
    decreases ns.len(), ns.len() + 1,
{
    if ns.len() == 0 {
        assert forall|x: int| 0 <= x < spec_permute(ns).len() implies is_linear_extension(
            ns,
            #[trigger] spec_permute(ns)[x],
        ) by {
            assert(spec_permute(ns)[0] =~= Seq::<Id>::empty());
        }
    } else {
        lemma_branches_sound(ns, 0);
        assert forall|x: int| 0 <= x < spec_permute(ns).len() implies is_linear_extension(
            ns,
            #[trigger] spec_permute(ns)[x],
        ) by {
            assert(spec_permute(ns)[x] == spec_branches(ns, 0)[x]);
        }
    }
}

proof fn lemma_branches_sound(ns: NodeSpec, k: int)
    requires
        wf_nodes(ns),
        ns.len() > 0,
        0 <= k,
    ensures
        forall|x: int|
            0 <= x < spec_branches(ns, k).len() ==> is_linear_extension(
                ns,
                #[trigger] spec_branches(ns, k)[x],
            ),
    decreases ns.len(), ns.len() - k,
{
    if k >= ns.len() {
    } else {
        lemma_branches_sound(ns, k + 1);
        if ns[k].1.len() == 0 {
            let rn = remove_node(ns, k);
            lemma_remove_node_wf(ns, k);
            lemma_permute_sound(rn);
            let sp = spec_permute(rn);
            let mapped = sp.map_values(|o: Seq<Id>| seq![ns[k].0] + o);
            assert forall|x: int| 0 <= x < mapped.len() implies is_linear_extension(
                ns,
                #[trigger] mapped[x],
            ) by {
                let o = sp[x];
                let y = mapped[x];
                assert(y == seq![ns[k].0] + o);
                assert(is_linear_extension(rn, o));
                lemma_prepend_linear_extension(ns, k, o);
            }
            assert forall|x: int| 0 <= x < spec_branches(ns, k).len() implies is_linear_extension(
                ns,
                #[trigger] spec_branches(ns, k)[x],
            ) by {
                if x < mapped.len() {
                    assert(spec_branches(ns, k)[x] == mapped[x]);
                } else {
                    assert(spec_branches(ns, k)[x] == spec_branches(ns, k + 1)[x - mapped.len()]);
                }
            }
        } else {
            assert forall|x: int| 0 <= x < spec_branches(ns, k).len() implies is_linear_extension(
                ns,
                #[trigger] spec_branches(ns, k)[x],
            ) by {
                assert(spec_branches(ns, k)[x] == spec_branches(ns, k + 1)[x]);
            }
        }
    }
}

/// Prefixing an available node to a linear extension of the remaining
/// graph gives a linear extension of the whole graph.
proof fn lemma_prepend_linear_extension(ns: NodeSpec, k: int, o: Seq<Id>)
    requires
        wf_nodes(ns),
        0 <= k < ns.len(),
        ns[k].1.len() == 0,
        is_linear_extension(remove_node(ns, k), o),
    ensures
        is_linear_extension(ns, seq![ns[k].0] + o),
{
    let rn = remove_node(ns, k);
    lemma_remove_node_wf(ns, k);
    let y = seq![ns[k].0] + o;
    assert(y.len() == ns.len());
    assert(y[0] == ns[k].0);
    assert(forall|p: int| 1 <= p < y.len() ==> y[p] == o[p - 1]);

    // ids of the remaining graph never collide with the taken node's id
    assert forall|p: int| 1 <= p < y.len() implies #[trigger] y[p] != ns[k].0 by {
        assert(node_ids(rn).contains(o[p - 1]));
        let a = choose|a: int| 0 <= a < node_ids(rn).len() && node_ids(rn)[a] == o[p - 1];
        assert(rn[a].0 == o[p - 1]);
        let a2: int = if a < k { a } else { a + 1 };
        assert(rn[a].0 == ns[a2].0);
    }

    assert forall|p: int, q: int| 0 <= p < q < y.len() implies y[p] != y[q] by {
        if p > 0 {
            assert(o[p - 1] != o[q - 1]);
        }
    }

    assert forall|p: int| 0 <= p < y.len() implies node_ids(ns).contains(#[trigger] y[p]) by {
        if p == 0 {
            assert(node_ids(ns)[k] == ns[k].0);
        } else {
            assert(node_ids(rn).contains(o[p - 1]));
            let a = choose|a: int| 0 <= a < node_ids(rn).len() && node_ids(rn)[a] == o[p - 1];
            assert(rn[a].0 == o[p - 1]);
            let a2: int = if a < k { a } else { a + 1 };
            assert(node_ids(ns)[a2] == ns[a2].0);
        }
    }

    assert forall|i: int| 0 <= i < ns.len() implies y.contains((#[trigger] ns[i]).0) by {
        if i == k {
            assert(y[0] == ns[k].0);
        } else {
            let m: int = if i < k { i } else { i - 1 };
            assert(rn[m].0 == ns[i].0);
            assert(o.contains(rn[m].0));
            let q = choose|q: int| 0 <= q < o.len() && o[q] == rn[m].0;
            assert(y[q + 1] == ns[i].0);
        }
    }

    assert forall|i: int, j: int| 0 <= i < ns.len() && 0 <= j < ns[i].1.len() implies comes_before(
        y,
        #[trigger] ns[i].1[j],
        ns[i].0,
    ) by {
        if i != k {
            let m: int = if i < k { i } else { i - 1 };
            assert(rn[m].0 == ns[i].0);
            assert(rn[m].1 == drop_dep(ns[i].1, ns[k].0));
            let d = ns[i].1[j];
            if d == ns[k].0 {
                assert(o.contains(rn[m].0));
                let q = choose|q: int| 0 <= q < o.len() && o[q] == rn[m].0;
                assert(y[0] == d && y[q + 1] == ns[i].0);
                assert(0 < q + 1 < y.len());
            } else {
                lemma_drop_dep(ns[i].1, ns[k].0);
                assert(ns[i].1.contains(d));
                assert(rn[m].1.contains(d));
                let j2 = choose|j2: int| 0 <= j2 < rn[m].1.len() && rn[m].1[j2] == d;
                assert(comes_before(o, rn[m].1[j2], rn[m].0));
                let (p, q): (int, int) = choose|p: int, q: int|
                    0 <= p < q < o.len() && o[p] == d && o[q] == rn[m].0;
                assert(y[p + 1] == d && y[q + 1] == ns[i].0);
                assert(0 <= p + 1 < q + 1 < y.len());
            }
        }
    }
}

/// No ordering repeats: the enumeration is duplicate-free.
pub proof fn lemma_permute_distinct(ns: NodeSpec)
    requires
        wf_nodes(ns),
    ensures
        forall|a: int, b: int|
            0 <= a < b < spec_permute(ns).len() ==> spec_permute(ns)[a] != spec_permute(ns)[b],
    decreases ns.len(), ns.len() + 1,
{
    if ns.len() > 0 {
        lemma_branches_distinct(ns, 0);
        assert forall|a: int, b: int|
            0 <= a < b < spec_permute(ns).len() implies spec_permute(ns)[a] != spec_permute(
            ns,
        )[b] by {
            assert(spec_permute(ns)[a] == spec_branches(ns, 0)[a]);
            assert(spec_permute(ns)[b] == spec_branches(ns, 0)[b]);
        }
    }
}

proof fn lemma_branches_distinct(ns: NodeSpec, k: int)
    requires
        wf_nodes(ns),
        ns.len() > 0,
        0 <= k,
    ensures
        forall|a: int, b: int|
            0 <= a < b < spec_branches(ns, k).len() ==> spec_branches(ns, k)[a] != spec_branches(
                ns,
                k,
            )[b],
        forall|x: int|
            0 <= x < spec_branches(ns, k).len() ==> ((#[trigger] spec_branches(ns, k)[x]).len() > 0
                && exists|j: int| k <= j < ns.len() && ns[j].0 == spec_branches(ns, k)[x][0]),
    decreases ns.len(), ns.len() - k,
{
    if k >= ns.len() {
    } else {
        lemma_branches_distinct(ns, k + 1);
        let br = spec_branches(ns, k);
        let rest = spec_branches(ns, k + 1);
        if ns[k].1.len() == 0 {
            let rn = remove_node(ns, k);
            lemma_remove_node_wf(ns, k);
            lemma_permute_distinct(rn);
            let sp = spec_permute(rn);
            let mapped = sp.map_values(|o: Seq<Id>| seq![ns[k].0] + o);
            assert(br == mapped + rest);
            assert forall|x: int| 0 <= x < br.len() implies ((#[trigger] br[x]).len() > 0
                && exists|j: int| k <= j < ns.len() && ns[j].0 == br[x][0]) by {
                if x < mapped.len() {
                    assert(br[x] == seq![ns[k].0] + sp[x]);
                    assert(br[x][0] == ns[k].0);
                    assert(k <= k < ns.len() && ns[k].0 == br[x][0]);
                } else {
                    assert(br[x] == rest[x - mapped.len()]);
                    let j = choose|j: int|
                        k + 1 <= j < ns.len() && ns[j].0 == rest[x - mapped.len()][0];
                    assert(k <= j < ns.len() && ns[j].0 == br[x][0]);
                }
            }
            assert forall|a: int, b: int| 0 <= a < b < br.len() implies br[a] != br[b] by {
                if b < mapped.len() {
                    let oa = sp[a];
                    let ob = sp[b];
                    assert(oa != ob);
                    assert(br[a] == seq![ns[k].0] + oa && br[b] == seq![ns[k].0] + ob);
                    if br[a] == br[b] {
                        assert(oa.len() == ob.len());
                        assert forall|p: int| 0 <= p < oa.len() implies oa[p] == ob[p] by {
                            assert((seq![ns[k].0] + oa)[p + 1] == oa[p]);
                            assert((seq![ns[k].0] + ob)[p + 1] == ob[p]);
                        }
                        assert(oa =~= ob);
                    }
                } else if a >= mapped.len() {
                    assert(br[a] == rest[a - mapped.len()] && br[b] == rest[b - mapped.len()]);
                } else {
                    assert(br[a] == seq![ns[k].0] + sp[a]);
                    assert(br[a][0] == ns[k].0);
                    assert(br[b] == rest[b - mapped.len()]);
                    let j = choose|j: int|
                        k + 1 <= j < ns.len() && ns[j].0 == rest[b - mapped.len()][0];
                    assert(ns[j].0 != ns[k].0);
                    assert(br[b][0] != br[a][0]);
                }
            }
        } else {
            assert(br == rest);
            assert forall|x: int| 0 <= x < br.len() implies ((#[trigger] br[x]).len() > 0
                && exists|j: int| k <= j < ns.len() && ns[j].0 == br[x][0]) by {
                assert(br[x] == rest[x]);
                let j = choose|j: int| k + 1 <= j < ns.len() && ns[j].0 == rest[x][0];
                assert(k <= j < ns.len() && ns[j].0 == br[x][0]);
            }
            assert forall|a: int, b: int| 0 <= a < b < br.len() implies br[a] != br[b] by {
                assert(br[a] == rest[a] && br[b] == rest[b]);
            }
        }
    }
}

/// Splitting a linear extension: its head is an available node, and its
/// tail is a linear extension of the graph without that node.
proof fn lemma_split_linear_extension(ns: NodeSpec, k: int, ord: Seq<Id>)
    requires
        wf_nodes(ns),
        is_linear_extension(ns, ord),
        ns.len() > 0,
        0 <= k < ns.len(),
        ns[k].0 == ord[0],
    ensures
        ns[k].1.len() == 0,
        is_linear_extension(remove_node(ns, k), ord.drop_first()),
{
    let rn = remove_node(ns, k);
    lemma_remove_node_wf(ns, k);
    let t = ord.drop_first();
    assert(forall|p: int| 0 <= p < t.len() ==> t[p] == ord[p + 1]);

    if ns[k].1.len() > 0 {
        let d = ns[k].1[0];
        assert(comes_before(ord, d, ns[k].0));
        let (p, q): (int, int) = choose|p: int, q: int|
            0 <= p < q < ord.len() && ord[p] == d && ord[q] == ns[k].0;
        assert(ord[q] == ord[0]);
        assert(false);
    }

    assert(t.len() == rn.len());

    assert forall|p: int, q: int| 0 <= p < q < t.len() implies t[p] != t[q] by {
        assert(ord[p + 1] != ord[q + 1]);
    }

    assert forall|p: int| 0 <= p < t.len() implies node_ids(rn).contains(#[trigger] t[p]) by {
        assert(node_ids(ns).contains(ord[p + 1]));
        let a = choose|a: int| 0 <= a < node_ids(ns).len() && node_ids(ns)[a] == ord[p + 1];
        assert(ns[a].0 == ord[p + 1]);
        assert(ord[p + 1] != ord[0]);
        assert(a != k);
        let m: int = if a < k { a } else { a - 1 };
        assert(rn[m].0 == ns[a].0);
        assert(node_ids(rn)[m] == rn[m].0);
    }

    assert forall|i: int| 0 <= i < rn.len() implies t.contains((#[trigger] rn[i]).0) by {
        let i2: int = if i < k { i } else { i + 1 };
        assert(rn[i].0 == ns[i2].0);
        assert(ord.contains(ns[i2].0));
        let q = choose|q: int| 0 <= q < ord.len() && ord[q] == ns[i2].0;
        assert(ns[i2].0 != ns[k].0);
        assert(q != 0);
        assert(t[q - 1] == ns[i2].0);
    }

    assert forall|i: int, j: int| 0 <= i < rn.len() && 0 <= j < rn[i].1.len() implies comes_before(
        t,
        #[trigger] rn[i].1[j],
        rn[i].0,
    ) by {
        let i2: int = if i < k { i } else { i + 1 };
        assert(rn[i].0 == ns[i2].0);
        assert(rn[i].1 == drop_dep(ns[i2].1, ns[k].0));
        let d = rn[i].1[j];
        lemma_drop_dep(ns[i2].1, ns[k].0);
        assert(rn[i].1.contains(d));
        assert(ns[i2].1.contains(d) && d != ns[k].0);
        let j2 = choose|j2: int| 0 <= j2 < ns[i2].1.len() && ns[i2].1[j2] == d;
        assert(comes_before(ord, ns[i2].1[j2], ns[i2].0));
        let (p, q): (int, int) = choose|p: int, q: int|
            0 <= p < q < ord.len() && ord[p] == d && ord[q] == ns[i2].0;
        assert(ord[0] == ns[k].0);
        assert(p != 0);
        assert(t[p - 1] == d && t[q - 1] == ns[i2].0);
        assert(0 <= p - 1 < q - 1 < t.len());
    }
}

/// An ordering of one branch occurs among the orderings of all branches
/// from `k0` on.
proof fn lemma_branches_contain(ns: NodeSpec, k0: int, k: int, y: Seq<Id>)
    requires
        ns.len() > 0,
        0 <= k0 <= k < ns.len(),
        ns[k].1.len() == 0,
        spec_permute(remove_node(ns, k)).map_values(|o: Seq<Id>| seq![ns[k].0] + o).contains(y),
    ensures
        spec_branches(ns, k0).contains(y),
    decreases ns.len() - k0,
{
    let mapped = spec_permute(remove_node(ns, k0)).map_values(|o: Seq<Id>| seq![ns[k0].0] + o);
    let rest = spec_branches(ns, k0 + 1);
    if k0 == k {
        let m = spec_permute(remove_node(ns, k)).map_values(|o: Seq<Id>| seq![ns[k].0] + o);
        let x = choose|x: int| 0 <= x < m.len() && m[x] == y;
        assert(spec_branches(ns, k0)[x] == y);
    } else {
        lemma_branches_contain(ns, k0 + 1, k, y);
        let x = choose|x: int| 0 <= x < rest.len() && rest[x] == y;
        if ns[k0].1.len() == 0 {
            assert(spec_branches(ns, k0)[mapped.len() + x] == y);
        } else {
            assert(spec_branches(ns, k0)[x] == y);
        }
    }
}

/// Every linear extension is yielded: the enumeration is complete.
pub proof fn lemma_permute_complete(ns: NodeSpec, ord: Seq<Id>)
    requires
        wf_nodes(ns),
        is_linear_extension(ns, ord),
    ensures
        spec_permute(ns).contains(ord),
    decreases ns.len(),
{
    if ns.len() == 0 {
        assert(ord =~= Seq::<Id>::empty());
        assert(spec_permute(ns)[0] == ord);
    } else {
        assert(node_ids(ns).contains(ord[0]));
        let k = choose|k: int| 0 <= k < node_ids(ns).len() && node_ids(ns)[k] == ord[0];
        assert(ns[k].0 == ord[0]);
        lemma_split_linear_extension(ns, k, ord);
        let rn = remove_node(ns, k);
        lemma_remove_node_wf(ns, k);
        let t = ord.drop_first();
        lemma_permute_complete(rn, t);
        let sp = spec_permute(rn);
        let x = choose|x: int| 0 <= x < sp.len() && sp[x] == t;
        let mapped = sp.map_values(|o: Seq<Id>| seq![ns[k].0] + o);
        assert(mapped[x] == seq![ns[k].0] + t);
        assert(seq![ns[k].0] + t =~= ord);
        assert(mapped.contains(ord));
        lemma_branches_contain(ns, 0, k, ord);
    }
}

/// Every ordering yielded for a well-formed graph respects its edges:
/// each dependency comes before the node that names it.
pub proof fn lemma_orderings_respect_deps(ns: NodeSpec)
    requires
        wf_nodes(ns),
    ensures
        forall|x: int, i: int, j: int|
            0 <= x < spec_permute(ns).len() && 0 <= i < ns.len() && 0 <= j < ns[i].1.len()
                ==> comes_before(#[trigger] spec_permute(ns)[x], #[trigger] ns[i].1[j], ns[i].0),
{
    lemma_permute_sound(ns);
}

/// A well-formed graph's dependency structure is well-formed.
pub proof fn lemma_graph_wf_nodes<T>(g: Graph<T>)
    requires
        g.wf(),
    ensures
        wf_nodes(g.spec_nodes()),
{
    let ns = g.spec_nodes();
    assert forall|i: int, j: int|
        0 <= i < ns.len() && 0 <= j < ns[i].1.len() implies (node_ids(ns).contains(
        #[trigger] ns[i].1[j],
    ) && ns[i].1[j] != ns[i].0) by {
        let d = ns[i].1[j];
        assert(d == g.nodes@[i].deps@[j]);
        assert(1 <= d <= i);
        assert(ns[d - 1].0 == d);
        assert(node_ids(ns)[d - 1] == d);
    }
}

/// The insertion order of a well-formed graph is itself a linear
/// extension, so the enumeration is never empty.
pub proof fn lemma_permute_nonempty(ns: NodeSpec)
    requires
        wf_nodes(ns),
        forall|i: int, j: int|
            0 <= i < ns.len() && 0 <= j < ns[i].1.len() ==> (#[trigger] ns[i].1[j]) as int <= i,
        forall|i: int| 0 <= i < ns.len() ==> (#[trigger] ns[i]).0 == i + 1,
        ns.len() <= usize::MAX,
    ensures
        spec_permute(ns).len() > 0,
{
    let ord = Seq::new(ns.len(), |i: int| (i + 1) as Id);
    assert forall|i: int| 0 <= i < ns.len() implies ord.contains((#[trigger] ns[i]).0) by {
        assert(ord[i] == ns[i].0);
    }
    assert forall|p: int| 0 <= p < ord.len() implies node_ids(ns).contains(#[trigger] ord[p]) by {
        assert(node_ids(ns)[p] == ns[p].0);
        assert(ns[p].0 == ord[p]);
    }
    assert forall|i: int, j: int| 0 <= i < ns.len() && 0 <= j < ns[i].1.len() implies comes_before(
        ord,
        #[trigger] ns[i].1[j],
        ns[i].0,
    ) by {
        let d = ns[i].1[j];
        assert(node_ids(ns).contains(d));
        let a = choose|a: int| 0 <= a < node_ids(ns).len() && node_ids(ns)[a] == d;
        assert(ns[a].0 == d);
        assert(a == d - 1);
        assert(d as int <= i);
        assert(d != ns[i].0);
        assert(ord[d - 1] == d && ord[i] == ns[i].0);
        assert(0 <= d - 1 < i < ord.len());
    }
    assert(ord.len() == ns.len());
    assert forall|p: int, q: int| 0 <= p < q < ord.len() implies ord[p] != ord[q] by {
        assert(ord[p] == p + 1 && ord[q] == q + 1);
    }
    assert(is_linear_extension(ns, ord));
    lemma_permute_complete(ns, ord);
    if spec_permute(ns).len() == 0 {
        assert(!spec_permute(ns).contains(ord));
    }
}

} // verus!
