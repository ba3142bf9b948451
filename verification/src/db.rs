//! Stored values — documents and directories — and the structural checker
//! for the link-reachability invariant.
//!
//! A stored value is either an application document or a directory: the
//! set of its direct child names.  The checker walks every present
//! document and verifies that each ancestor directory exists and lists
//! the next component of the document's key.

use vstd::prelude::*;

verus! {

use crate::path::{spec_is_dir, spec_links, str_is_dir, Path};
use crate::payload::Payload;
use crate::store::{
    keys_distinct, keys_sorted_seq, lemma_seq_to_map_lookup, lemma_sorted_distinct, Cache, Rev,
    Store,
};
use crate::strutil::{lemma_lex_lt_transitive, lemma_lex_lt_trichotomy, lex_lt, str_eq, str_lt};
use vstd::string::StringExecFns;

/// The set of child names of a directory, kept sorted and without
/// duplicates so that equal sets are equal values.
#[derive(Debug, PartialEq, Eq)]
pub struct NameSet {
    pub entries: Vec<String>,
}

impl View for NameSet {
    type V = Seq<Seq<char>>;

    open spec fn view(&self) -> Seq<Seq<char>> {
        self.entries.deep_view()
    }
}

impl DeepView for NameSet {
    type V = Seq<Seq<char>>;

    open spec fn deep_view(&self) -> Seq<Seq<char>> {
        self.entries.deep_view()
    }
}

impl NameSet {
    /// The names are strictly ascending: sorted and duplicate-free.
    pub open spec fn wf(&self) -> bool {
        keys_sorted_seq(self@)
    }

    pub fn new() -> (r: NameSet)
        ensures
            r@ == Seq::<Seq<char>>::empty(),
            r.wf(),
    {
        let r = NameSet { entries: Vec::new() };
        proof {
            assert(r@ =~= Seq::<Seq<char>>::empty());
        }
        r
    }

    pub fn len(&self) -> (r: usize)
        ensures
            r == self@.len(),
    {
        self.entries.len()
    }

    pub fn contains(&self, name: &str) -> (r: bool)
        ensures
            r == self@.contains(name@),
    {
        let mut i: usize = 0;
        while i < self.entries.len()
            invariant
                0 <= i <= self.entries.len(),
                forall|j: int| 0 <= j < i ==> #[trigger] self@[j] != name@,
            decreases self.entries.len() - i,
        {
            if str_eq(self.entries[i].as_str(), name) {
                proof {
                    assert(self@[i as int] == name@);
                }
                return true;
            }
            proof {
                assert(self@[i as int] == self.entries@[i as int]@);
            }
            i += 1;
        }
        proof {
            if self@.contains(name@) {
                let j = choose|j: int| 0 <= j < self@.len() && self@[j] == name@;
                assert(self@[j] != name@);
            }
        }
        false
    }

    /// Whether the set holds exactly the one given name.
    pub fn is_only(&self, name: &str) -> (r: bool)
        ensures
            r == (self@ == seq![name@]),
    {
        if self.entries.len() != 1 {
            proof {
                assert(self@.len() == self.entries.len());
            }
            false
        } else {
            let e = str_eq(self.entries[0].as_str(), name);
            proof {
                assert(self@[0] == self.entries@[0]@);
                if e {
                    assert(self@ =~= seq![name@]);
                }
                if self@ == seq![name@] {
                    assert(self@[0] == name@);
                }
            }
            e
        }
    }

    /// Add a name; a name already listed is left as it is.
    pub fn insert(&mut self, name: &str)
        requires
            old(self).wf(),
        ensures
            final(self).wf(),
            forall|k: Seq<char>|
                final(self)@.contains(k) <==> (old(self)@.contains(k) || k == name@),
    {
        let mut p: usize = 0;
        while p < self.entries.len() && str_lt(self.entries[p].as_str(), name)
            invariant
                self.wf(),
                0 <= p <= self.entries.len(),
                forall|j: int| 0 <= j < p ==> lex_lt(#[trigger] self@[j], name@),
            decreases self.entries.len() - p,
        {
            proof {
                assert(self@[p as int] == self.entries@[p as int]@);
            }
            p += 1;
        }
        if p < self.entries.len() && str_eq(self.entries[p].as_str(), name) {
            proof {
                assert(self@[p as int] == name@);
                assert(forall|k: Seq<char>|
                    self@.contains(k) <==> (self@.contains(k) || k == name@));
            }
            return ;
        }
        let ghost pre = *self;
        proof {
            if p < self.entries.len() {
                assert(self@[p as int] == self.entries@[p as int]@);
                lemma_lex_lt_trichotomy(self@[p as int], name@);
            }
        }
        self.entries.insert(p, name.to_owned());
        proof {
            assert(self@ =~= pre@.insert(p as int, name@));
            let es = self@;
            let pe = pre@;
            assert forall|i: int, j: int| 0 <= i < j < es.len() implies lex_lt(es[i], es[j]) by {
                if j < p {
                    assert(es[i] == pe[i] && es[j] == pe[j]);
                } else if i < p && j == p {
                    assert(es[i] == pe[i]);
                } else if i < p && j > p {
                    assert(es[i] == pe[i] && es[j] == pe[j - 1]);
                } else if i == p {
                    assert(es[j] == pe[j - 1]);
                    if j - 1 == p {
                        assert(lex_lt(name@, pe[p as int]));
                    } else {
                        lemma_lex_lt_transitive(name@, pe[p as int], pe[j - 1]);
                    }
                } else {
                    assert(es[i] == pe[i - 1] && es[j] == pe[j - 1]);
                }
            }
            assert forall|k: Seq<char>|
                es.contains(k) <==> (pe.contains(k) || k == name@) by {
                if es.contains(k) {
                    let j = choose|j: int| 0 <= j < es.len() && es[j] == k;
                    if j < p {
                        assert(pe[j] == k);
                    } else if j > p {
                        assert(pe[j - 1] == k);
                    }
                }
                if pe.contains(k) {
                    let j = choose|j: int| 0 <= j < pe.len() && pe[j] == k;
                    if j < p {
                        assert(es[j] == k);
                    } else {
                        assert(es[j + 1] == k);
                    }
                }
                if k == name@ {
                    assert(es[p as int] == k);
                }
            }
        }
    }

    /// Drop a name; a name not listed leaves the set as it is.
    pub fn remove(&mut self, name: &str)
        requires
            old(self).wf(),
        ensures
            final(self).wf(),
            forall|k: Seq<char>|
                final(self)@.contains(k) <==> (old(self)@.contains(k) && k != name@),
    {
        proof {
            crate::store::lemma_sorted_keys_distinct(self@);
        }
        let mut i: usize = 0;
        let mut idx: Option<usize> = None;
        let n = self.entries.len();
        while idx.is_none() && i < n
            invariant
                n == self.entries.len(),
                0 <= i <= n,
                match idx {
                    None => forall|j: int| 0 <= j < i ==> #[trigger] self@[j] != name@,
                    Some(f) => f < n && self@[f as int] == name@,
                },
            decreases n - i,
        {
            if str_eq(self.entries[i].as_str(), name) {
                proof {
                    assert(self@[i as int] == name@);
                }
                idx = Some(i);
            } else {
                proof {
                    assert(self@[i as int] == self.entries@[i as int]@);
                }
            }
            i += 1;
        }
        match idx {
            Some(f) => {
                let ghost pre = *self;
                self.entries.remove(f);
                proof {
                    assert(self@ =~= pre@.remove(f as int));
                    let es = self@;
                    let pe = pre@;
                    assert forall|a: int, b: int| 0 <= a < b < es.len() implies lex_lt(
                        es[a],
                        es[b],
                    ) by {
                        let a2: int = if a < f { a } else { a + 1 };
                        let b2: int = if b < f { b } else { b + 1 };
                        assert(es[a] == pe[a2] && es[b] == pe[b2]);
                    }
                    assert forall|k: Seq<char>|
                        es.contains(k) <==> (pe.contains(k) && k != name@) by {
                        if es.contains(k) {
                            let j = choose|j: int| 0 <= j < es.len() && es[j] == k;
                            let j2: int = if j < f { j } else { j + 1 };
                            assert(pe[j2] == k);
                            if k == name@ {
                                assert(pe[j2] == pe[f as int]);
                            }
                        }
                        if pe.contains(k) && k != name@ {
                            let j = choose|j: int| 0 <= j < pe.len() && pe[j] == k;
                            if j < f {
                                assert(es[j] == k);
                            } else {
                                assert(j > f);
                                assert(es[j - 1] == k);
                            }
                        }
                    }
                }
            },
            None => {
                proof {
                    if self@.contains(name@) {
                        let j = choose|j: int| 0 <= j < self@.len() && self@[j] == name@;
                        assert(self@[j] != name@);
                    }
                }
            },
        }
    }

    /// An observably identical copy of the set.
    pub fn dup(&self) -> (r: NameSet)
        ensures
            r@ == self@,
            r.wf() == self.wf(),
    {
        let mut out: Vec<String> = Vec::new();
        let mut i: usize = 0;
        while i < self.entries.len()
            invariant
                0 <= i <= self.entries.len(),
                out.deep_view() =~= self.entries.deep_view().take(i as int),
            decreases self.entries.len() - i,
        {
            let el = self.entries[i].clone();
            let ghost gout = out;
            let ghost gel = el;
            out.push(el);
            proof {
                crate::strutil::lemma_deep_view_push(gout, out, gel);
                assert(out.deep_view() =~= self.entries.deep_view().take(i + 1));
            }
            i += 1;
        }
        proof {
            assert(self.entries.deep_view().take(self.entries.len() as int)
                =~= self.entries.deep_view());
        }
        NameSet { entries: out }
    }
}

/// A stored value: an application document, or a directory listing its
/// direct children.
#[derive(Debug, PartialEq, Eq)]
pub enum Db<T> {
    Doc(T),
    Dir(NameSet),
}

/// The mathematical value of a stored value.
pub enum DbModel<TV> {
    Doc(TV),
    Dir(Seq<Seq<char>>),
}

impl<T: DeepView> DeepView for Db<T> {
    type V = DbModel<T::V>;

    open spec fn deep_view(&self) -> DbModel<T::V> {
        match self {
            Db::Doc(t) => DbModel::Doc(t.deep_view()),
            Db::Dir(ns) => DbModel::Dir(ns.deep_view()),
        }
    }
}

impl<T: DeepView> View for Db<T> {
    type V = DbModel<T::V>;

    open spec fn view(&self) -> DbModel<T::V> {
        self.deep_view()
    }
}

impl<T: Payload> Payload for Db<T> {
    open spec fn inv(&self) -> bool {
        match self {
            Db::Doc(t) => t.inv(),
            Db::Dir(ns) => ns.wf(),
        }
    }

    fn dup(&self) -> (r: Self) {
        match self {
            Db::Doc(t) => Db::Doc(t.dup()),
            Db::Dir(ns) => Db::Dir(ns.dup()),
        }
    }
}

impl<T: Payload> Db<T> {
    /// A directory holding the given names.
    pub fn dir_from(entries: &[&str]) -> (r: Db<T>)
        ensures
            r matches Db::Dir(ns) && ns.wf() && forall|k: Seq<char>|
                ns@.contains(k) <==> entries.deep_view().contains(k),
    {
        let mut ns = NameSet::new();
        let mut i: usize = 0;
        while i < entries.len()
            invariant
                0 <= i <= entries.len(),
                ns.wf(),
                forall|k: Seq<char>|
                    ns@.contains(k) <==> entries.deep_view().take(i as int).contains(k),
            decreases entries.len() - i,
        {
            let ghost pre = ns;
            ns.insert(entries[i]);
            proof {
                assert(entries.deep_view()[i as int] == entries@[i as int]@);
                assert forall|k: Seq<char>|
                    ns@.contains(k) <==> entries.deep_view().take(i + 1).contains(k) by {
                    let dv = entries.deep_view();
                    if ns@.contains(k) {
                        if pre@.contains(k) {
                            let j = choose|j: int| 0 <= j < i && #[trigger] dv.take(i as int)[j] == k;
                            assert(dv.take(i + 1)[j] == k);
                        } else {
                            assert(dv.take(i + 1)[i as int] == k);
                        }
                    }
                    if dv.take(i + 1).contains(k) {
                        let j = choose|j: int| 0 <= j <= i && #[trigger] dv.take(i + 1)[j] == k;
                        if j < i {
                            assert(dv.take(i as int)[j] == k);
                        }
                    }
                }
            }
            i += 1;
        }
        proof {
            assert(entries.deep_view().take(entries.len() as int) =~= entries.deep_view());
        }
        Db::Dir(ns)
    }
}

/// The store and cache instantiated at stored values.
pub type DbStore<T> = Store<Db<T>>;

pub type DbCache<T> = Cache<Db<T>>;

/// The message reported when an ancestor directory of a document is
/// absent, tombstoned, or holds a document.
pub open spec fn msg_missing(dir: Seq<char>, doc: Seq<char>) -> Seq<char> {
    "dir '"@ + dir + "', required by doc '"@ + doc + "', is missing"@
}

/// The message reported when an ancestor directory exists but does not
/// list the next component of the document's key.
pub open spec fn msg_unlinked(dir: Seq<char>, name: Seq<char>, doc: Seq<char>) -> Seq<char> {
    "dir '"@ + dir + "' does not include name '"@ + name + "', required by doc '"@ + doc + "'"@
}

/// Whether one link of a document holds: its parent directory is present
/// as a directory that lists the child's name.
pub open spec fn link_ok<TV>(
    m: Map<Seq<char>, (Rev, Option<DbModel<TV>>)>,
    dir: Seq<char>,
    name: Seq<char>,
) -> bool {
    m.dom().contains(dir) && match m[dir].1 {
        Some(DbModel::Dir(es)) => es.contains(name),
        _ => false,
    }
}

/// The errors one link of a document contributes.
pub open spec fn link_errors<TV>(
    m: Map<Seq<char>, (Rev, Option<DbModel<TV>>)>,
    doc: Seq<char>,
    dir: Seq<char>,
    name: Seq<char>,
) -> Seq<Seq<char>> {
    if m.dom().contains(dir) && (m[dir].1 matches Some(DbModel::Dir(_))) {
        match m[dir].1 {
            Some(DbModel::Dir(es)) => if es.contains(name) {
                Seq::empty()
            } else {
                seq![msg_unlinked(dir, name, doc)]
            },
            _ => Seq::empty(),
        }
    } else {
        seq![msg_missing(dir, doc)]
    }
}

/// The errors of a document's links from position `i` on.
pub open spec fn doc_errors_from<TV>(
    m: Map<Seq<char>, (Rev, Option<DbModel<TV>>)>,
    doc: Seq<char>,
    i: int,
) -> Seq<Seq<char>>
    decreases spec_links(doc).len() - i,
{
    let ls = spec_links(doc);
    if i < 0 || i >= ls.len() {
        Seq::empty()
    } else {
        link_errors(m, doc, ls[i].0, ls[i].1) + doc_errors_from(m, doc, i + 1)
    }
}

/// The errors the checker reports for one document.
pub open spec fn spec_doc_errors<TV>(
    m: Map<Seq<char>, (Rev, Option<DbModel<TV>>)>,
    doc: Seq<char>,
) -> Seq<Seq<char>> {
    doc_errors_from(m, doc, 0)
}

/// The errors of the store's recorded keys from position `i` on: each
/// present document contributes the errors of its links, in key order.
pub open spec fn check_from<TV>(
    es: Seq<(Seq<char>, (Rev, Option<DbModel<TV>>))>,
    m: Map<Seq<char>, (Rev, Option<DbModel<TV>>)>,
    i: int,
) -> Seq<Seq<char>>
    decreases es.len() - i,
{
    if i < 0 || i >= es.len() {
        Seq::empty()
    } else {
        let head = if !spec_is_dir(es[i].0) && es[i].1.1 is Some {
            spec_doc_errors(m, es[i].0)
        } else {
            Seq::empty()
        };
        head + check_from(es, m, i + 1)
    }
}

/// Every error message the checker reports for a store, in order.
pub open spec fn spec_check_errors<TV>(
    es: Seq<(Seq<char>, (Rev, Option<DbModel<TV>>))>,
    m: Map<Seq<char>, (Rev, Option<DbModel<TV>>)>,
) -> Seq<Seq<char>> {
    check_from(es, m, 0)
}

/// The link-reachability invariant: every present document is reachable
/// through a chain of directory entries from the root.
pub open spec fn links_ok<TV>(
    m: Map<Seq<char>, (Rev, Option<DbModel<TV>>)>,
    doc: Seq<char>,
) -> bool {
    forall|i: int|
        0 <= i < spec_links(doc).len() ==> link_ok(
            m,
            (#[trigger] spec_links(doc)[i]).0,
            spec_links(doc)[i].1,
        )
}

pub open spec fn store_reachable<TV>(
    es: Seq<(Seq<char>, (Rev, Option<DbModel<TV>>))>,
    m: Map<Seq<char>, (Rev, Option<DbModel<TV>>)>,
) -> bool {
    forall|i: int|
        0 <= i < es.len() ==> ((!spec_is_dir(#[trigger] es[i].0) && es[i].1.1 is Some) ==> links_ok(
            m,
            es[i].0,
        ))
}

proof fn lemma_doc_errors_empty<TV>(
    m: Map<Seq<char>, (Rev, Option<DbModel<TV>>)>,
    doc: Seq<char>,
    i: int,
)
    requires
        0 <= i <= spec_links(doc).len(),
    ensures
        (doc_errors_from(m, doc, i).len() == 0) <==> (forall|j: int|
            i <= j < spec_links(doc).len() ==> link_ok(
                m,
                (#[trigger] spec_links(doc)[j]).0,
                spec_links(doc)[j].1,
            )),
    decreases spec_links(doc).len() - i,
{
    let ls = spec_links(doc);
    if i < ls.len() {
        lemma_doc_errors_empty(m, doc, i + 1);
        assert(link_errors(m, doc, ls[i].0, ls[i].1).len() == 0 <==> link_ok(
            m,
            ls[i].0,
            ls[i].1,
        ));
    }
}

proof fn lemma_check_empty<TV>(
    es: Seq<(Seq<char>, (Rev, Option<DbModel<TV>>))>,
    m: Map<Seq<char>, (Rev, Option<DbModel<TV>>)>,
    i: int,
)
    requires
        0 <= i <= es.len(),
    ensures
        (check_from(es, m, i).len() == 0) <==> (forall|j: int|
            i <= j < es.len() ==> ((!spec_is_dir(#[trigger] es[j].0) && es[j].1.1 is Some)
                ==> links_ok(m, es[j].0))),
    decreases es.len() - i,
{
    if i < es.len() {
        lemma_check_empty(es, m, i + 1);
        if !spec_is_dir(es[i].0) && es[i].1.1 is Some {
            lemma_doc_errors_empty(m, es[i].0, 0);
        }
    }
}

/// Link-reachability: the checker reports no error exactly when every
/// present document is reachable from the root through directory entries.
pub proof fn lemma_check_ok_iff_reachable<TV>(
    es: Seq<(Seq<char>, (Rev, Option<DbModel<TV>>))>,
    m: Map<Seq<char>, (Rev, Option<DbModel<TV>>)>,
)
    ensures
        (spec_check_errors(es, m).len() == 0) <==> store_reachable(es, m),
{
    lemma_check_empty(es, m, 0);
}

fn build_msg_missing(dir: &str, doc: &str) -> (r: String)
    ensures
        r@ == msg_missing(dir@, doc@),
{
    let s = String::from_str("dir '").concat(dir).concat("', required by doc '").concat(
        doc,
    ).concat("', is missing");
    proof {
        assert(s@ =~= msg_missing(dir@, doc@));
    }
    s
}

fn build_msg_unlinked(dir: &str, name: &str, doc: &str) -> (r: String)
    ensures
        r@ == msg_unlinked(dir@, name@, doc@),
{
    let s = String::from_str("dir '").concat(dir).concat("' does not include name '").concat(
        name,
    ).concat("', required by doc '").concat(doc).concat("'");
    proof {
        assert(s@ =~= msg_unlinked(dir@, name@, doc@));
    }
    s
}

/// Verifies the link-reachability invariant on a store, remembering the
/// `seq` at which the store last passed so an unchanged store is not
/// walked again.
pub struct Checker {
    pub seq: Rev,
    pub errors: Vec<String>,
}

impl Checker {
    pub fn new() -> (r: Checker)
        ensures
            r.seq == 0,
            r.errors.deep_view() == Seq::<Seq<char>>::empty(),
    {
        let r = Checker { seq: 0, errors: Vec::new() };
        proof {
            assert(r.errors.deep_view() =~= Seq::<Seq<char>>::empty());
        }
        r
    }

    /// Append the errors of one present document's links.
    fn check_doc<T: Payload>(&mut self, store: &Store<Db<T>>, doc: &str)
        requires
            store.wf(),
        ensures
            final(self).seq == old(self).seq,
            final(self).errors.deep_view() == old(self).errors.deep_view() + spec_doc_errors(
                store@,
                doc@,
            ),
    {
        let ghost pre_errors = self.errors.deep_view();
        let path = Path::new(doc);
        let links = path.links();
        let n = links.len();
        proof {
            assert(links.deep_view() == spec_links(doc@));
        }
        let mut i: usize = 0;
        while i < n
            invariant
                store.wf(),
                n == links.len(),
                links.deep_view() == spec_links(doc@),
                0 <= i <= n,
                self.seq == old(self).seq,
                self.errors.deep_view() + doc_errors_from(store@, doc@, i as int) =~= pre_errors
                    + spec_doc_errors(store@, doc@),
            decreases n - i,
        {
            let ghost m = store@;
            let ghost ls = spec_links(doc@);
            let dir: &String = &links[i].0;
            let name: &String = &links[i].1;
            proof {
                assert(links.deep_view()[i as int] == (links@[i as int].0@, links@[i as int].1@));
                assert((dir@, name@) == ls[i as int]);
            }
            let mut pushed = false;
            match store.get(dir.as_str()) {
                Some(v) => {
                    match v {
                        Db::Dir(ns) => {
                            if !ns.contains(name.as_str()) {
                                let msg = build_msg_unlinked(dir.as_str(), name.as_str(), doc);
                                let ghost gerrs = self.errors;
                                let ghost gmsg = msg;
                                self.errors.push(msg);
                                proof {
                                    crate::strutil::lemma_deep_view_push(
                                        gerrs,
                                        self.errors,
                                        gmsg,
                                    );
                                }
                            }
                        },
                        Db::Doc(_) => {
                            let msg = build_msg_missing(dir.as_str(), doc);
                            let ghost gerrs = self.errors;
                            let ghost gmsg = msg;
                            self.errors.push(msg);
                            proof {
                                crate::strutil::lemma_deep_view_push(gerrs, self.errors, gmsg);
                            }
                        },
                    }
                },
                None => {
                    let msg = build_msg_missing(dir.as_str(), doc);
                    let ghost gerrs = self.errors;
                    let ghost gmsg = msg;
                    self.errors.push(msg);
                    proof {
                        crate::strutil::lemma_deep_view_push(gerrs, self.errors, gmsg);
                    }
                },
            }
            proof {
                assert(doc_errors_from(m, doc@, i as int) == link_errors(
                    m,
                    doc@,
                    ls[i as int].0,
                    ls[i as int].1,
                ) + doc_errors_from(m, doc@, i + 1));
                assert(self.errors.deep_view() + doc_errors_from(m, doc@, i + 1) =~= pre_errors
                    + spec_doc_errors(m, doc@));
            }
            i += 1;
        }
        proof {
            assert(doc_errors_from(store@, doc@, n as int) =~= Seq::<Seq<char>>::empty());
            assert(self.errors.deep_view() =~= pre_errors + spec_doc_errors(store@, doc@));
        }
    }

    /// Verify the invariant.  A store whose `seq` matches the last
    /// accepted one passes at once; otherwise every present document's
    /// links are walked, and the messages — exactly those of
    /// `spec_check_errors`, in key order — are reported on failure.
    pub fn check<T: Payload>(&mut self, store: &Store<Db<T>>) -> (r: Result<(), Vec<String>>)
        requires
            store.wf(),
        ensures
            old(self).seq == store.seq ==> r is Ok && *final(self) == *old(self),
            old(self).seq != store.seq ==> match r {
                Ok(_) => spec_check_errors(store.entries(), store@).len() == 0 && final(self).seq
                    == store.seq,
                Err(e) => {
                    &&& e.deep_view() == spec_check_errors(store.entries(), store@)
                    &&& e.deep_view().len() > 0
                    &&& final(self).seq == old(self).seq
                },
            },
    {
        if self.seq == store.seq {
            return Ok(());
        }
        self.errors = Vec::new();
        proof {
            assert(self.errors.deep_view() =~= Seq::<Seq<char>>::empty());
            lemma_sorted_distinct(store.entries());
            lemma_seq_to_map_lookup(store.entries());
        }
        let ks = store.keys();
        let n = ks.len();
        proof {
            assert(ks.deep_view().len() == store.entries().len());
        }
        let ghost es = store.entries();
        let ghost m = store@;
        let mut i: usize = 0;
        while i < n
            invariant
                store.wf(),
                n == ks.len(),
                ks.deep_view().len() == es.len(),
                forall|j: int| 0 <= j < n ==> #[trigger] ks.deep_view()[j] == es[j].0,
                es == store.entries(),
                m == store@,
                keys_distinct(es),
                forall|ii: int|
                    0 <= ii < es.len() ==> m.dom().contains(#[trigger] es[ii].0) && m[es[ii].0]
                        == es[ii].1,
                0 <= i <= n,
                self.seq == old(self).seq,
                self.errors.deep_view() + check_from(es, m, i as int) =~= spec_check_errors(
                    es,
                    m,
                ),
            decreases n - i,
        {
            let key: &String = &ks[i];
            proof {
                assert(ks.deep_view()[i as int] == ks@[i as int]@);
                assert(key@ == es[i as int].0);
            }
            if !str_is_dir(key.as_str()) {
                let present = store.get(key.as_str()).is_some();
                proof {
                    assert(m[key@] == es[i as int].1);
                }
                if present {
                    self.check_doc(store, key.as_str());
                }
            }
            proof {
                assert(check_from(es, m, i as int) == (if !spec_is_dir(es[i as int].0)
                    && es[i as int].1.1 is Some {
                    spec_doc_errors(m, es[i as int].0)
                } else {
                    Seq::empty()
                }) + check_from(es, m, i + 1));
                assert(self.errors.deep_view() + check_from(es, m, i + 1) =~= spec_check_errors(
                    es,
                    m,
                ));
            }
            i += 1;
        }
        proof {
            assert(check_from(es, m, n as int) =~= Seq::<Seq<char>>::empty());
            assert(self.errors.deep_view() =~= spec_check_errors(es, m));
        }
        if self.errors.len() == 0 {
            proof {
                assert(self.errors.deep_view().len() == 0);
            }
            self.seq = store.seq;
            Ok(())
        } else {
            let e = self.errors.clone();
            proof {
                assert(e.len() == self.errors.len());
                assert forall|k: int| 0 <= k < e.len() implies e.deep_view()[k]
                    == self.errors.deep_view()[k] by {
                    assert(vstd::pervasive::cloned(self.errors@[k], e@[k]));
                    assert(e@[k]@ == self.errors@[k]@);
                }
                assert(e.deep_view() =~= self.errors.deep_view());
            }
            Err(e)
        }
    }
}

} // verus!
