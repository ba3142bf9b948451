//! Acts — the primitive steps clients perform — and the planner that
//! compiles a high-level update or remove of one key by one client into a
//! dependency graph of acts.
//!
//! An update lists every ancestor directory and gets the document (no
//! order imposed among the reads), then links every edge of the key's
//! chain (each link after all the reads), then puts the document (after
//! all the links).  A remove performs the same reads, removes the
//! document, and then unlinks the chain bottom-up, each unlink after the
//! previous one.

use vstd::prelude::*;

verus! {

use crate::config::{Config, Remove, Update};
use crate::db::NameSet;
use crate::graph::{Graph, Id};
use crate::path::{spec_dirs, spec_links, Path};

/// A document transformation a client supplies with a put: from the
/// current document, if any, to the new one — or to `None` for no write.
/// A transformation is pure — its result is a function of the document
/// alone, named by `apply_spec` — and must hand back a document that
/// satisfies its invariant.
pub trait DocUpdate<T: crate::payload::Payload>: Sized {
    /// What the transformation yields for each current document.
    spec fn apply_spec(&self, doc: Option<T::V>) -> Option<T::V>;

    fn apply(&self, doc: Option<T>) -> (r: Option<T>)
        requires
            doc matches Some(v) ==> v.inv(),
        ensures
            r.deep_view() == self.apply_spec(doc.deep_view()),
            r matches Some(v) ==> v.inv(),
    ;

    /// A copy of this transformation, so one planned operation can be
    /// replayed under several configurations.
    fn dup(&self) -> (r: Self)
        ensures
            forall|d: Option<T::V>| #[trigger] r.apply_spec(d) == self.apply_spec(d),
    ;
}

/// The update that keeps the document as it is.
pub struct KeepDoc;

impl<T: crate::payload::Payload> DocUpdate<T> for KeepDoc {
    open spec fn apply_spec(&self, doc: Option<T::V>) -> Option<T::V> {
        doc
    }

    fn apply(&self, doc: Option<T>) -> (r: Option<T>) {
        doc
    }

    fn dup(&self) -> (r: Self) {
        KeepDoc
    }
}

/// The update that writes a fixed document, whatever was there.
pub struct SetDoc<T: crate::payload::Payload> {
    doc: T,
}

impl<T: crate::payload::Payload> SetDoc<T> {
    #[verifier::type_invariant]
    spec fn type_inv(&self) -> bool {
        self.doc.inv()
    }

    pub fn new(doc: T) -> (r: SetDoc<T>)
        requires
            doc.inv(),
    {
        SetDoc { doc }
    }
}

impl<T: crate::payload::Payload> DocUpdate<T> for SetDoc<T> {
    closed spec fn apply_spec(&self, _doc: Option<T::V>) -> Option<T::V> {
        Some(self.doc.deep_view())
    }

    fn apply(&self, _doc: Option<T>) -> (r: Option<T>) {
        proof {
            use_type_invariant(self);
        }
        Some(self.doc.dup())
    }

    fn dup(&self) -> (r: Self) {
        proof {
            use_type_invariant(self);
        }
        SetDoc { doc: self.doc.dup() }
    }
}

/// The update that never writes.
pub struct DropDoc;

impl<T: crate::payload::Payload> DocUpdate<T> for DropDoc {
    open spec fn apply_spec(&self, _doc: Option<T::V>) -> Option<T::V> {
        None
    }

    fn apply(&self, _doc: Option<T>) -> (r: Option<T>) {
        None
    }

    fn dup(&self) -> (r: Self) {
        DropDoc
    }
}

/// A primitive operation on one key.  `Put` carries the client's
/// document transformation.
#[derive(Debug)]
pub enum Op<U> {
    Get,
    Put(U),
    Rm,
    List,
    Link(String),
    Unlink(String),
}

/// The mathematical value of an operation: the transformation carried by
/// a put does not take part in comparisons.
pub enum OpModel {
    Get,
    Put,
    Rm,
    List,
    Link(Seq<char>),
    Unlink(Seq<char>),
}

/// The operation's model.
pub open spec fn op_model<U>(op: Op<U>) -> OpModel {
    match op {
        Op::Get => OpModel::Get,
        Op::Put(_) => OpModel::Put,
        Op::Rm => OpModel::Rm,
        Op::List => OpModel::List,
        Op::Link(n) => OpModel::Link(n@),
        Op::Unlink(n) => OpModel::Unlink(n@),
    }
}

impl<U> PartialEq for Op<U> {
    /// Two operations are equal when they are the same kind of step on
    /// the same name; what a put would write is not compared.
    fn eq(&self, other: &Op<U>) -> (r: bool) {
        match (self, other) {
            (Op::Get, Op::Get) => true,
            (Op::Put(_), Op::Put(_)) => true,
            (Op::Rm, Op::Rm) => true,
            (Op::List, Op::List) => true,
            (Op::Link(a), Op::Link(b)) => crate::strutil::str_eq(a.as_str(), b.as_str()),
            (Op::Unlink(a), Op::Unlink(b)) => crate::strutil::str_eq(a.as_str(), b.as_str()),
            _ => false,
        }
    }
}

impl<U> vstd::std_specs::cmp::PartialEqSpecImpl for Op<U> {
    open spec fn obeys_eq_spec() -> bool {
        true
    }

    open spec fn eq_spec(&self, other: &Op<U>) -> bool {
        op_model(*self) == op_model(*other)
    }
}

/// One step of one client: which client, on which key, doing what.
#[derive(Debug, PartialEq)]
pub struct Act<U> {
    pub client_id: String,
    pub path: Path,
    pub op: Op<U>,
}

impl<U> Act<U> {
    pub fn new(client_id: &str, path: Path, op: Op<U>) -> (r: Act<U>)
        ensures
            r.client_id@ == client_id@,
            r.path == path,
            r.op == op,
    {
        Act { client_id: client_id.to_owned(), path, op }
    }
}

/// Whether an act is the given step by the given client on the given key.
pub open spec fn act_is<U>(a: Act<U>, client: Seq<char>, path: Seq<char>, op: OpModel) -> bool {
    &&& a.client_id@ == client
    &&& a.path@ == path
    &&& a.path.wf()
    &&& op_model(a.op) == op
}

/// Compiles client operations into a shared dependency graph of acts.
pub struct Planner<U> {
    pub graph: Graph<Act<U>>,
    pub config: Config,
    pub clients: NameSet,
}

impl<U> Planner<U> {
    /// The graph is well-formed, every act's key is parsed, and every
    /// act's client is registered.
    pub open spec fn wf(&self) -> bool {
        &&& self.graph.wf()
        &&& self.clients.wf()
        &&& forall|i: int|
            0 <= i < self.graph.nodes@.len() ==> self.clients@.contains(
                (#[trigger] self.graph.nodes@[i]).value.client_id@,
            )
        &&& forall|i: int|
            0 <= i < self.graph.nodes@.len() ==> (#[trigger] self.graph.nodes@[i]).value.path.wf()
    }

    pub fn new(config: Config) -> (r: Planner<U>)
        ensures
            r.wf(),
            r.graph.nodes@.len() == 0,
            r.clients@ == Seq::<Seq<char>>::empty(),
            r.config == config,
    {
        Planner { graph: Graph::new(), config, clients: NameSet::new() }
    }

    /// Register a client and hand out its acting handle.
    pub fn client(&mut self, id: &str) -> (r: Client)
        requires
            old(self).wf(),
        ensures
            final(self).wf(),
            final(self).graph == old(self).graph,
            final(self).config == old(self).config,
            forall|k: Seq<char>|
                final(self).clients@.contains(k) <==> (old(self).clients@.contains(k) || k
                    == id@),
            r.id@ == id@,
            r.config == old(self).config,
    {
        self.clients.insert(id);
        Client { id: id.to_owned(), config: self.config }
    }

    /// The registered client ids, in ascending order.
    pub fn clients(&self) -> (r: Vec<String>)
        requires
            self.wf(),
        ensures
            r.deep_view() == self.clients@,
    {
        let c = self.clients.dup();
        c.entries
    }

    /// Every topological ordering of the compiled acts, as node ids.
    pub fn orderings(&self) -> (r: Vec<Vec<Id>>)
        requires
            self.wf(),
        ensures
            r.deep_view() == crate::graph::spec_permute(self.graph.spec_nodes()),
    {
        self.graph.orderings()
    }

    /// The act compiled as the given node.
    pub fn act(&self, id: Id) -> (r: &Act<U>)
        requires
            self.wf(),
            1 <= id <= self.graph.nodes@.len(),
        ensures
            r == self.graph.nodes@[id - 1].value,
    {
        self.graph.value(id)
    }
}

/// A client handle: acts it plans are tagged with its id.
pub struct Client {
    pub id: String,
    pub config: Config,
}

/// The shape of a plan for `update` that orders all reads before all
/// links: with `n` links, nodes `b+1 ..= b+n` list the ancestor
/// directories and `b+n+1` gets the document, none with dependencies;
/// nodes `b+n+2 ..= b+2n+1` link each edge, each depending on all the
/// reads; node `b+2n+2` puts the document, depending on all the links.
pub open spec fn update_rbl_shape<U>(
    pre: Planner<U>,
    post: Planner<U>,
    client: Seq<char>,
    key: Seq<char>,
) -> bool {
    let b = pre.graph.nodes@.len() as int;
    let n = spec_links(key).len() as int;
    let nodes = post.graph.nodes@;
    &&& nodes.len() == b + 2 * n + 2
    &&& forall|i: int| 0 <= i < b ==> #[trigger] nodes[i] == pre.graph.nodes@[i]
    &&& forall|i: int|
        0 <= i < n ==> act_is(
            (#[trigger] nodes[b + i]).value,
            client,
            spec_dirs(key)[i],
            OpModel::List,
        ) && nodes[b + i].deps@ =~= Seq::<Id>::empty()
    &&& act_is(nodes[b + n].value, client, key, OpModel::Get) && nodes[b + n].deps@ =~= Seq::<
        Id,
    >::empty()
    &&& forall|i: int|
        0 <= i < n ==> act_is(
            (#[trigger] nodes[b + n + 1 + i]).value,
            client,
            spec_links(key)[i].0,
            OpModel::Link(spec_links(key)[i].1),
        ) && nodes[b + n + 1 + i].deps@ =~= Seq::new((n + 1) as nat, |t: int| (b + 1 + t) as Id)
    &&& act_is(nodes[b + 2 * n + 1].value, client, key, OpModel::Put) && nodes[b + 2 * n
        + 1].deps@ =~= Seq::new(n as nat, |t: int| (b + n + 2 + t) as Id)
}

/// The shape of a plan for `update` that only orders each link after its
/// own list, and the put after the get and all links: for each edge a
/// list node then its link node, then the get, then the put.
pub open spec fn update_gbp_shape<U>(
    pre: Planner<U>,
    post: Planner<U>,
    client: Seq<char>,
    key: Seq<char>,
) -> bool {
    let b = pre.graph.nodes@.len() as int;
    let n = spec_links(key).len() as int;
    let nodes = post.graph.nodes@;
    &&& nodes.len() == b + 2 * n + 2
    &&& forall|i: int| 0 <= i < b ==> #[trigger] nodes[i] == pre.graph.nodes@[i]
    &&& forall|i: int|
        0 <= i < n ==> act_is(
            (#[trigger] nodes[b + 2 * i]).value,
            client,
            spec_dirs(key)[i],
            OpModel::List,
        ) && nodes[b + 2 * i].deps@ =~= Seq::<Id>::empty()
    &&& forall|i: int|
        0 <= i < n ==> act_is(
            (#[trigger] nodes[b + 2 * i + 1]).value,
            client,
            spec_links(key)[i].0,
            OpModel::Link(spec_links(key)[i].1),
        ) && nodes[b + 2 * i + 1].deps@ =~= seq![(b + 2 * i + 1) as Id]
    &&& act_is(nodes[b + 2 * n].value, client, key, OpModel::Get) && nodes[b + 2 * n].deps@
        =~= Seq::<Id>::empty()
    &&& act_is(nodes[b + 2 * n + 1].value, client, key, OpModel::Put) && nodes[b + 2 * n
        + 1].deps@ =~= seq![(b + 2 * n + 1) as Id] + Seq::new(n as nat, |t: int| (b + 2 * t
        + 2) as Id)
}

/// The shape of a plan for `remove` with the reverse-sequential unlink
/// chain: the same reads as an update, a remove depending on all of
/// them, then one unlink per edge from the deepest up, each depending on
/// the previous step.
pub open spec fn remove_seq_shape<U>(
    pre: Planner<U>,
    post: Planner<U>,
    client: Seq<char>,
    key: Seq<char>,
) -> bool {
    let b = pre.graph.nodes@.len() as int;
    let n = spec_links(key).len() as int;
    let nodes = post.graph.nodes@;
    &&& nodes.len() == b + 2 * n + 2
    &&& forall|i: int| 0 <= i < b ==> #[trigger] nodes[i] == pre.graph.nodes@[i]
    &&& forall|i: int|
        0 <= i < n ==> act_is(
            (#[trigger] nodes[b + i]).value,
            client,
            spec_dirs(key)[i],
            OpModel::List,
        ) && nodes[b + i].deps@ =~= Seq::<Id>::empty()
    &&& act_is(nodes[b + n].value, client, key, OpModel::Get) && nodes[b + n].deps@ =~= Seq::<
        Id,
    >::empty()
    &&& act_is(nodes[b + n + 1].value, client, key, OpModel::Rm) && nodes[b + n + 1].deps@
        =~= Seq::new((n + 1) as nat, |t: int| (b + 1 + t) as Id)
    &&& forall|i: int|
        0 <= i < n ==> act_is(
            (#[trigger] nodes[b + n + 2 + i]).value,
            client,
            spec_links(key)[n - 1 - i].0,
            OpModel::Unlink(spec_links(key)[n - 1 - i].1),
        ) && nodes[b + n + 2 + i].deps@ =~= seq![(b + n + 2 + i) as Id]
}

/// The shape of a plan for `remove` with parallel unlinks: as the
/// reverse-sequential shape, but every unlink depends directly on the
/// remove alone.
pub open spec fn remove_par_shape<U>(
    pre: Planner<U>,
    post: Planner<U>,
    client: Seq<char>,
    key: Seq<char>,
) -> bool {
    let b = pre.graph.nodes@.len() as int;
    let n = spec_links(key).len() as int;
    let nodes = post.graph.nodes@;
    &&& nodes.len() == b + 2 * n + 2
    &&& forall|i: int| 0 <= i < b ==> #[trigger] nodes[i] == pre.graph.nodes@[i]
    &&& forall|i: int|
        0 <= i < n ==> act_is(
            (#[trigger] nodes[b + i]).value,
            client,
            spec_dirs(key)[i],
            OpModel::List,
        ) && nodes[b + i].deps@ =~= Seq::<Id>::empty()
    &&& act_is(nodes[b + n].value, client, key, OpModel::Get) && nodes[b + n].deps@ =~= Seq::<
        Id,
    >::empty()
    &&& act_is(nodes[b + n + 1].value, client, key, OpModel::Rm) && nodes[b + n + 1].deps@
        =~= Seq::new((n + 1) as nat, |t: int| (b + 1 + t) as Id)
    &&& forall|i: int|
        0 <= i < n ==> act_is(
            (#[trigger] nodes[b + n + 2 + i]).value,
            client,
            spec_links(key)[i].0,
            OpModel::Unlink(spec_links(key)[i].1),
        ) && nodes[b + n + 2 + i].deps@ =~= seq![(b + n + 2) as Id]
}

impl Client {
    pub fn new(id: &str, config: Config) -> (r: Client)
        ensures
            r.id@ == id@,
            r.config == config,
    {
        Client { id: id.to_owned(), config }
    }

    /// This client's act on a key.
    fn act<U>(&self, path: &str, op: Op<U>) -> (r: Act<U>)
        ensures
            act_is(r, self.id@, path@, op_model(op)),
            r.op == op,
    {
        Act::new(self.id.as_str(), Path::new(path), op)
    }

    /// Plan the reads of an operation on `path`: one list per ancestor
    /// directory and one get of the key, none ordered before another.
    fn do_reads<U>(&self, planner: &mut Planner<U>, path: &Path) -> (r: Vec<Id>)
        requires
            old(planner).wf(),
            path.wf(),
            old(planner).clients@.contains(self.id@),
            old(planner).graph.nodes@.len() + spec_links(path@).len() + 1 <= usize::MAX,
        ensures
            final(planner).wf(),
            final(planner).config == old(planner).config,
            final(planner).clients == old(planner).clients,
            final(planner).graph.nodes@.len() == old(planner).graph.nodes@.len() + spec_links(
                path@,
            ).len() + 1,
            forall|i: int|
                0 <= i < old(planner).graph.nodes@.len() ==> #[trigger] final(planner).graph.nodes@[i] == old(planner).graph.nodes@[i],
            ({
                let b = old(planner).graph.nodes@.len() as int;
                let n = spec_links(path@).len() as int;
                let nodes = final(planner).graph.nodes@;
                &&& forall|i: int|
                    0 <= i < n ==> act_is(
                        (#[trigger] nodes[b + i]).value,
                        self.id@,
                        spec_dirs(path@)[i],
                        OpModel::List,
                    ) && nodes[b + i].deps@ =~= Seq::<Id>::empty()
                &&& act_is(nodes[b + n].value, self.id@, path@, OpModel::Get) && nodes[b
                    + n].deps@ =~= Seq::<Id>::empty()
                &&& r@ =~= Seq::new((n + 1) as nat, |t: int| (b + 1 + t) as Id)
            }),
    {
        let ghost b = planner.graph.nodes@.len() as int;
        let dirs = path.dirs();
        let n = dirs.len();
        proof {
            assert(dirs.deep_view().len() == spec_links(path@).len());
        }
        let empty_deps: Vec<Id> = Vec::new();
        let mut reads: Vec<Id> = Vec::new();
        let mut i: usize = 0;
        while i < n
            invariant
                planner.wf(),
                planner.config == old(planner).config,
                planner.clients == old(planner).clients,
                old(planner).clients@.contains(self.id@),
                path.wf(),
                n == dirs@.len(),
                dirs.deep_view() == spec_dirs(path@),
                n == spec_links(path@).len(),
                b == old(planner).graph.nodes@.len() as int,
                b + n + 1 <= usize::MAX,
                empty_deps@.len() == 0,
                0 <= i <= n,
                planner.graph.nodes@.len() == b + i,
                forall|j: int|
                    0 <= j < b ==> #[trigger] planner.graph.nodes@[j] == old(planner).graph.nodes@[j],
                forall|j: int|
                    0 <= j < i ==> act_is(
                        (#[trigger] planner.graph.nodes@[b + j]).value,
                        self.id@,
                        spec_dirs(path@)[j],
                        OpModel::List,
                    ) && planner.graph.nodes@[b + j].deps@ =~= Seq::<Id>::empty(),
                reads@ =~= Seq::new(i as nat, |t: int| (b + 1 + t) as Id),
            decreases n - i,
        {
            let a = self.act(dirs[i].as_str(), Op::List);
            proof {
                assert(dirs.deep_view()[i as int] == dirs@[i as int]@);
            }
            let id = planner.graph.add(empty_deps.as_slice(), a);
            reads.push(id);
            proof {
                assert(reads@ =~= Seq::new((i + 1) as nat, |t: int| (b + 1 + t) as Id));
            }
            i += 1;
        }
        let g = self.act(path.full(), Op::Get);
        let id = planner.graph.add(empty_deps.as_slice(), g);
        reads.push(id);
        proof {
            assert(reads@ =~= Seq::new((n + 1) as nat, |t: int| (b + 1 + t) as Id));
        }
        reads
    }

    /// Plan an update of `key` by this client.
    pub fn update<U>(&self, planner: &mut Planner<U>, key: &str, update: U)
        requires
            old(planner).wf(),
            old(planner).graph.nodes@.len() + 2 * spec_links(key@).len() + 2 <= usize::MAX,
        ensures
            final(planner).wf(),
            final(planner).config == old(planner).config,
            forall|k: Seq<char>|
                final(planner).clients@.contains(k) <==> (old(planner).clients@.contains(k) || k
                    == self.id@),
            if self.config.update == Update::GetBeforePut {
                update_gbp_shape(*old(planner), *final(planner), self.id@, key@)
            } else {
                update_rbl_shape(*old(planner), *final(planner), self.id@, key@)
            },
    {
        planner.clients.insert(self.id.as_str());
        if self.config.update == Update::GetBeforePut {
            self.update_get_before_put(planner, key, update);
        } else {
            self.update_reads_before_links(planner, key, update);
        }
    }

    fn update_reads_before_links<U>(&self, planner: &mut Planner<U>, key: &str, update: U)
        requires
            old(planner).wf(),
            old(planner).clients@.contains(self.id@),
            old(planner).graph.nodes@.len() + 2 * spec_links(key@).len() + 2 <= usize::MAX,
        ensures
            final(planner).wf(),
            final(planner).config == old(planner).config,
            final(planner).clients == old(planner).clients,
            update_rbl_shape(*old(planner), *final(planner), self.id@, key@),
    {
        let path = Path::new(key);
        let ghost b = planner.graph.nodes@.len() as int;
        let reads = self.do_reads(planner, &path);
        let links = path.links();
        let n = links.len();
        proof {
            assert(links.deep_view().len() == spec_links(key@).len());
            assert(reads@.len() == n + 1);
        }
        let mut link_ids: Vec<Id> = Vec::new();
        let ghost mid = *planner;
        let mut i: usize = 0;
        while i < n
            invariant
                planner.wf(),
                planner.config == old(planner).config,
                planner.clients == old(planner).clients,
                old(planner).clients@.contains(self.id@),
                path.wf(),
                path@ == key@,
                n == links@.len(),
                links.deep_view() == spec_links(key@),
                b == old(planner).graph.nodes@.len() as int,
                b + 2 * n + 2 <= usize::MAX,
                reads@ =~= Seq::new((n + 1) as nat, |t: int| (b + 1 + t) as Id),
                0 <= i <= n,
                mid.graph.nodes@.len() == b + n + 1,
                forall|j: int|
                    0 <= j < b ==> #[trigger] mid.graph.nodes@[j] == old(planner).graph.nodes@[j],
                planner.graph.nodes@.len() == b + n + 1 + i,
                forall|j: int|
                    0 <= j < b + n + 1 ==> #[trigger] planner.graph.nodes@[j] == mid.graph.nodes@[j],
                forall|j: int|
                    0 <= j < n ==> act_is(
                        (#[trigger] planner.graph.nodes@[b + j]).value,
                        self.id@,
                        spec_dirs(key@)[j],
                        OpModel::List,
                    ) && planner.graph.nodes@[b + j].deps@ =~= Seq::<Id>::empty(),
                act_is(planner.graph.nodes@[b + n].value, self.id@, key@, OpModel::Get)
                    && planner.graph.nodes@[b + n].deps@ =~= Seq::<Id>::empty(),
                forall|j: int|
                    0 <= j < i ==> act_is(
                        (#[trigger] planner.graph.nodes@[b + n + 1 + j]).value,
                        self.id@,
                        spec_links(key@)[j].0,
                        OpModel::Link(spec_links(key@)[j].1),
                    ) && planner.graph.nodes@[b + n + 1 + j].deps@ =~= Seq::new(
                        (n + 1) as nat,
                        |t: int| (b + 1 + t) as Id,
                    ),
                link_ids@ =~= Seq::new(i as nat, |t: int| (b + n + 2 + t) as Id),
            decreases n - i,
        {
            let name = links[i].1.clone();
            let dir_act: Act<U> = {
                proof {
                    assert(links.deep_view()[i as int] == (
                        links@[i as int].0@,
                        links@[i as int].1@,
                    ));
                }
                self.act(links[i].0.as_str(), Op::Link(name))
            };
            let id = planner.graph.add(reads.as_slice(), dir_act);
            link_ids.push(id);
            proof {
                assert(link_ids@ =~= Seq::new((i + 1) as nat, |t: int| (b + n + 2 + t) as Id));
            }
            i += 1;
        }
        let put = self.act(path.full(), Op::Put(update));
        planner.graph.add(link_ids.as_slice(), put);
    }

    fn update_get_before_put<U>(&self, planner: &mut Planner<U>, key: &str, update: U)
        requires
            old(planner).wf(),
            old(planner).clients@.contains(self.id@),
            old(planner).graph.nodes@.len() + 2 * spec_links(key@).len() + 2 <= usize::MAX,
        ensures
            final(planner).wf(),
            final(planner).config == old(planner).config,
            final(planner).clients == old(planner).clients,
            update_gbp_shape(*old(planner), *final(planner), self.id@, key@),
    {
        let path = Path::new(key);
        let ghost b = planner.graph.nodes@.len() as int;
        let links = path.links();
        let n = links.len();
        proof {
            assert(links.deep_view().len() == spec_links(key@).len());
        }
        let empty_deps: Vec<Id> = Vec::new();
        let mut link_ids: Vec<Id> = Vec::new();
        let mut i: usize = 0;
        while i < n
            invariant
                planner.wf(),
                planner.config == old(planner).config,
                planner.clients == old(planner).clients,
                old(planner).clients@.contains(self.id@),
                path.wf(),
                path@ == key@,
                n == links@.len(),
                links.deep_view() == spec_links(key@),
                b == old(planner).graph.nodes@.len() as int,
                b + 2 * n + 2 <= usize::MAX,
                empty_deps@.len() == 0,
                0 <= i <= n,
                planner.graph.nodes@.len() == b + 2 * i,
                forall|j: int|
                    0 <= j < b ==> #[trigger] planner.graph.nodes@[j] == old(planner).graph.nodes@[j],
                forall|j: int|
                    0 <= j < i ==> act_is(
                        (#[trigger] planner.graph.nodes@[b + 2 * j]).value,
                        self.id@,
                        spec_dirs(key@)[j],
                        OpModel::List,
                    ) && planner.graph.nodes@[b + 2 * j].deps@ =~= Seq::<Id>::empty(),
                forall|j: int|
                    0 <= j < i ==> act_is(
                        (#[trigger] planner.graph.nodes@[b + 2 * j + 1]).value,
                        self.id@,
                        spec_links(key@)[j].0,
                        OpModel::Link(spec_links(key@)[j].1),
                    ) && planner.graph.nodes@[b + 2 * j + 1].deps@ =~= seq![(b + 2 * j + 1) as Id],
                link_ids@ =~= Seq::new(i as nat, |t: int| (b + 2 * t + 2) as Id),
            decreases n - i,
        {
            proof {
                assert(links.deep_view()[i as int] == (links@[i as int].0@, links@[i as int].1@));
            }
            let list_act: Act<U> = self.act(links[i].0.as_str(), Op::List);
            let lid = planner.graph.add(empty_deps.as_slice(), list_act);
            let name = links[i].1.clone();
            let link_act: Act<U> = self.act(links[i].0.as_str(), Op::Link(name));
            let mut dv: Vec<Id> = Vec::new();
            dv.push(lid);
            let kid = planner.graph.add(dv.as_slice(), link_act);
            link_ids.push(kid);
            proof {
                assert(planner.graph.nodes@[b + 2 * i].deps@ =~= Seq::<Id>::empty());
                assert(planner.graph.nodes@[b + 2 * i + 1].deps@ =~= seq![(b + 2 * i + 1) as Id]);
                assert(link_ids@ =~= Seq::new((i + 1) as nat, |t: int| (b + 2 * t + 2) as Id));
            }
            i += 1;
        }
        let g: Act<U> = self.act(path.full(), Op::Get);
        let gid = planner.graph.add(empty_deps.as_slice(), g);
        let mut deps: Vec<Id> = Vec::new();
        deps.push(gid);
        let mut j: usize = 0;
        while j < n
            invariant
                n == link_ids@.len(),
                link_ids@ =~= Seq::new(n as nat, |t: int| (b + 2 * t + 2) as Id),
                gid == b + 2 * n + 1,
                b + 2 * n + 2 <= usize::MAX,
                b >= 0,
                0 <= j <= n,
                deps@ =~= seq![gid] + Seq::new(j as nat, |t: int| (b + 2 * t + 2) as Id),
            decreases n - j,
        {
            deps.push(link_ids[j]);
            proof {
                assert(deps@ =~= seq![gid] + Seq::new((j + 1) as nat, |t: int| (b + 2 * t
                    + 2) as Id));
            }
            j += 1;
        }
        let put = self.act(path.full(), Op::Put(update));
        planner.graph.add(deps.as_slice(), put);
    }

    /// Plan a remove of `key` by this client.
    pub fn remove<U>(&self, planner: &mut Planner<U>, key: &str)
        requires
            old(planner).wf(),
            old(planner).graph.nodes@.len() + 2 * spec_links(key@).len() + 2 <= usize::MAX,
        ensures
            final(planner).wf(),
            final(planner).config == old(planner).config,
            forall|k: Seq<char>|
                final(planner).clients@.contains(k) <==> (old(planner).clients@.contains(k) || k
                    == self.id@),
            if self.config.remove == Remove::UnlinkParallel {
                remove_par_shape::<U>(*old(planner), *final(planner), self.id@, key@)
            } else {
                remove_seq_shape::<U>(*old(planner), *final(planner), self.id@, key@)
            },
    {
        planner.clients.insert(self.id.as_str());
        if self.config.remove == Remove::UnlinkParallel {
            self.remove_unlink_parallel(planner, key);
        } else {
            self.remove_unlink_reverse_sequential(planner, key);
        }
    }

    fn remove_unlink_reverse_sequential<U>(&self, planner: &mut Planner<U>, key: &str)
        requires
            old(planner).wf(),
            old(planner).clients@.contains(self.id@),
            old(planner).graph.nodes@.len() + 2 * spec_links(key@).len() + 2 <= usize::MAX,
        ensures
            final(planner).wf(),
            final(planner).config == old(planner).config,
            final(planner).clients == old(planner).clients,
            remove_seq_shape::<U>(*old(planner), *final(planner), self.id@, key@),
    {
        let path = Path::new(key);
        let ghost b = planner.graph.nodes@.len() as int;
        let reads = self.do_reads(planner, &path);
        let links = path.links();
        let n = links.len();
        proof {
            assert(links.deep_view().len() == spec_links(key@).len());
            assert(reads@.len() == n + 1);
        }
        let rm: Act<U> = self.act(path.full(), Op::Rm);
        let mut op = planner.graph.add(reads.as_slice(), rm);
        let ghost mid = *planner;
        let mut i: usize = 0;
        while i < n
            invariant
                planner.wf(),
                planner.config == old(planner).config,
                planner.clients == old(planner).clients,
                old(planner).clients@.contains(self.id@),
                path.wf(),
                path@ == key@,
                n == links@.len(),
                links.deep_view() == spec_links(key@),
                b == old(planner).graph.nodes@.len() as int,
                b + 2 * n + 2 <= usize::MAX,
                0 <= i <= n,
                planner.graph.nodes@.len() == b + n + 2 + i,
                op == b + n + 2 + i,
                mid.graph.nodes@.len() == b + n + 2,
                forall|j: int|
                    0 <= j < b ==> #[trigger] mid.graph.nodes@[j] == old(planner).graph.nodes@[j],
                forall|j: int|
                    0 <= j < b + n + 2 ==> #[trigger] planner.graph.nodes@[j] == mid.graph.nodes@[j],
                forall|j: int|
                    0 <= j < n ==> act_is(
                        (#[trigger] planner.graph.nodes@[b + j]).value,
                        self.id@,
                        spec_dirs(key@)[j],
                        OpModel::List,
                    ) && planner.graph.nodes@[b + j].deps@ =~= Seq::<Id>::empty(),
                act_is(planner.graph.nodes@[b + n].value, self.id@, key@, OpModel::Get)
                    && planner.graph.nodes@[b + n].deps@ =~= Seq::<Id>::empty(),
                act_is(planner.graph.nodes@[b + n + 1].value, self.id@, key@, OpModel::Rm)
                    && planner.graph.nodes@[b + n + 1].deps@ =~= Seq::new(
                    (n + 1) as nat,
                    |t: int| (b + 1 + t) as Id,
                ),
                forall|j: int|
                    0 <= j < i ==> act_is(
                        (#[trigger] planner.graph.nodes@[b + n + 2 + j]).value,
                        self.id@,
                        spec_links(key@)[n - 1 - j].0,
                        OpModel::Unlink(spec_links(key@)[n - 1 - j].1),
                    ) && planner.graph.nodes@[b + n + 2 + j].deps@ =~= seq![(b + n + 2
                        + j) as Id],
            decreases n - i,
        {
            let ri = n - 1 - i;
            proof {
                assert(links.deep_view()[ri as int] == (
                    links@[ri as int].0@,
                    links@[ri as int].1@,
                ));
            }
            let name = links[ri].1.clone();
            let unlink: Act<U> = self.act(links[ri].0.as_str(), Op::Unlink(name));
            let mut dv: Vec<Id> = Vec::new();
            dv.push(op);
            op = planner.graph.add(dv.as_slice(), unlink);
            proof {
                assert(planner.graph.nodes@[b + n + 2 + i].deps@ =~= seq![(b + n + 2 + i) as Id]);
            }
            i += 1;
        }
    }

    fn remove_unlink_parallel<U>(&self, planner: &mut Planner<U>, key: &str)
        requires
            old(planner).wf(),
            old(planner).clients@.contains(self.id@),
            old(planner).graph.nodes@.len() + 2 * spec_links(key@).len() + 2 <= usize::MAX,
        ensures
            final(planner).wf(),
            final(planner).config == old(planner).config,
            final(planner).clients == old(planner).clients,
            remove_par_shape::<U>(*old(planner), *final(planner), self.id@, key@),
    {
        let path = Path::new(key);
        let ghost b = planner.graph.nodes@.len() as int;
        let reads = self.do_reads(planner, &path);
        let links = path.links();
        let n = links.len();
        proof {
            assert(links.deep_view().len() == spec_links(key@).len());
            assert(reads@.len() == n + 1);
        }
        let rm: Act<U> = self.act(path.full(), Op::Rm);
        let rid = planner.graph.add(reads.as_slice(), rm);
        let ghost mid = *planner;
        let mut i: usize = 0;
        while i < n
            invariant
                planner.wf(),
                planner.config == old(planner).config,
                planner.clients == old(planner).clients,
                old(planner).clients@.contains(self.id@),
                path.wf(),
                path@ == key@,
                n == links@.len(),
                links.deep_view() == spec_links(key@),
                b == old(planner).graph.nodes@.len() as int,
                b + 2 * n + 2 <= usize::MAX,
                0 <= i <= n,
                planner.graph.nodes@.len() == b + n + 2 + i,
                rid == b + n + 2,
                mid.graph.nodes@.len() == b + n + 2,
                forall|j: int|
                    0 <= j < b ==> #[trigger] mid.graph.nodes@[j] == old(planner).graph.nodes@[j],
                forall|j: int|
                    0 <= j < b + n + 2 ==> #[trigger] planner.graph.nodes@[j] == mid.graph.nodes@[j],
                forall|j: int|
                    0 <= j < n ==> act_is(
                        (#[trigger] planner.graph.nodes@[b + j]).value,
                        self.id@,
                        spec_dirs(key@)[j],
                        OpModel::List,
                    ) && planner.graph.nodes@[b + j].deps@ =~= Seq::<Id>::empty(),
                act_is(planner.graph.nodes@[b + n].value, self.id@, key@, OpModel::Get)
                    && planner.graph.nodes@[b + n].deps@ =~= Seq::<Id>::empty(),
                act_is(planner.graph.nodes@[b + n + 1].value, self.id@, key@, OpModel::Rm)
                    && planner.graph.nodes@[b + n + 1].deps@ =~= Seq::new(
                    (n + 1) as nat,
                    |t: int| (b + 1 + t) as Id,
                ),
                forall|j: int|
                    0 <= j < i ==> act_is(
                        (#[trigger] planner.graph.nodes@[b + n + 2 + j]).value,
                        self.id@,
                        spec_links(key@)[j].0,
                        OpModel::Unlink(spec_links(key@)[j].1),
                    ) && planner.graph.nodes@[b + n + 2 + j].deps@ =~= seq![(b + n + 2) as Id],
            decreases n - i,
        {
            proof {
                assert(links.deep_view()[i as int] == (links@[i as int].0@, links@[i as int].1@));
            }
            let name = links[i].1.clone();
            let unlink: Act<U> = self.act(links[i].0.as_str(), Op::Unlink(name));
            let mut dv: Vec<Id> = Vec::new();
            dv.push(rid);
            planner.graph.add(dv.as_slice(), unlink);
            proof {
                assert(planner.graph.nodes@[b + n + 2 + i].deps@ =~= seq![(b + n + 2) as Id]);
            }
            i += 1;
        }
    }
}

} // verus!
