//! The executor of primitive acts against a store, through a per-client
//! cache.
//!
//! An actor owns one cache and a crash latch: the first cache operation
//! that fails a compare-and-swap flips the latch, and from then on every
//! dispatched act is a no-op.  A remove also records which ancestor
//! directories held only the removed entry at the moment of removal;
//! later unlink acts are honoured only for those.

use vstd::prelude::*;

verus! {

use crate::config::Config;
use crate::db::{Db, DbModel, NameSet};
use crate::path::{spec_links, Path};
use crate::payload::Payload;
use crate::planner::{Act, DocUpdate, Op};
use crate::store::{cas_ok, spec_get_rev, spec_read, spec_rev, Cache, Rev, Store};

/// The cache model of an actor over payloads with view `TV`.
pub type CacheM<TV> = Map<Seq<char>, Option<(Rev, Option<DbModel<TV>>)>>;

/// The store model over payloads with view `TV`.
pub type StoreM<TV> = Map<Seq<char>, (Rev, Option<DbModel<TV>>)>;

/// The cache after a read-through of one key: a key already observed is
/// untouched; otherwise the store's record is memoized.
pub open spec fn read_step<TV>(c: CacheM<TV>, m: StoreM<TV>, strict: bool, k: Seq<char>) -> CacheM<
    TV,
> {
    if c.dom().contains(k) {
        c
    } else {
        c.insert(k, spec_read(m, strict, k))
    }
}

/// The document a cache entry shows, when it shows one.
pub open spec fn doc_view<TV>(entry: Option<(Rev, Option<DbModel<TV>>)>) -> Option<TV> {
    match crate::store::cache_doc(entry) {
        Some(DbModel::Doc(t)) => Some(t),
        _ => None,
    }
}

/// The directory listing a cache entry shows, when it shows one.
pub open spec fn listing_view<TV>(entry: Option<(Rev, Option<DbModel<TV>>)>) -> Option<
    Seq<Seq<char>>,
> {
    match crate::store::cache_doc(entry) {
        Some(DbModel::Dir(es)) => Some(es),
        _ => None,
    }
}

/// What a write through the cache does to cache, store and crash latch.
pub open spec fn write_post<T: Payload>(
    prec: CacheM<T::V>,
    postc: CacheM<T::V>,
    pres: Store<Db<T>>,
    posts: Store<Db<T>>,
    k: Seq<char>,
    v: DbModel<T::V>,
    ok: bool,
) -> bool {
    &&& ok == cas_ok(pres@, pres.spec_strict(), k, spec_get_rev(prec, k))
    &&& Store::<Db<T>>::mutation_post(
        pres,
        posts,
        k,
        spec_get_rev(prec, k),
        Some(v),
        if ok {
            Some((spec_rev(pres@, k) + 1) as Rev)
        } else {
            None
        },
    )
    &&& postc == if ok {
        prec.insert(k, Some(((spec_rev(pres@, k) + 1) as Rev, Some(v))))
    } else {
        prec.remove(k)
    }
}

/// What `put` does when the actor has not crashed: the document the
/// cache shows is read, the client's pure transformation of exactly that
/// document is computed, and — when it yields a document — that document
/// is written with the cache's CAS bookkeeping, latching the crash flag
/// on failure.
pub open spec fn put_case<T: Payload, U: DocUpdate<T>>(
    pre: Actor<T>,
    post: Actor<T>,
    pres: Store<Db<T>>,
    posts: Store<Db<T>>,
    path: Seq<char>,
    u: U,
) -> bool {
    let c1 = read_step(pre.cache@, pres@, pres.spec_strict(), path);
    match u.apply_spec(doc_view(c1[path])) {
        None => post.cache@ == c1 && posts == pres && post.crashed == false,
        Some(w) => {
            let ok = cas_ok(pres@, pres.spec_strict(), path, spec_get_rev(c1, path));
            &&& write_post::<T>(c1, post.cache@, pres, posts, path, DbModel::Doc(w), ok)
            &&& post.crashed == !ok
        },
    }
}

/// What `link` does when the actor has not crashed and does not skip:
/// the written directory holds the listed names plus the new entry.
pub open spec fn link_case<T: Payload>(
    pre: Actor<T>,
    post: Actor<T>,
    pres: Store<Db<T>>,
    posts: Store<Db<T>>,
    path: Seq<char>,
    entry: Seq<char>,
    ws: Seq<Seq<char>>,
) -> bool {
    let c1 = read_step(pre.cache@, pres@, pres.spec_strict(), path);
    let base = match listing_view(c1[path]) {
        Some(es) => es,
        None => Seq::<Seq<char>>::empty(),
    };
    let ok = cas_ok(pres@, pres.spec_strict(), path, spec_get_rev(c1, path));
    &&& crate::store::keys_sorted_seq(ws)
    &&& forall|k: Seq<char>| ws.contains(k) <==> (base.contains(k) || k == entry)
    &&& write_post::<T>(c1, post.cache@, pres, posts, path, DbModel::Dir(ws), ok)
    &&& post.crashed == !ok
}

/// What an authorized `unlink` does: the written directory holds the
/// listed names less the entry.
pub open spec fn unlink_case<T: Payload>(
    pre: Actor<T>,
    post: Actor<T>,
    pres: Store<Db<T>>,
    posts: Store<Db<T>>,
    path: Seq<char>,
    entry: Seq<char>,
    ws: Seq<Seq<char>>,
) -> bool {
    let c1 = read_step(pre.cache@, pres@, pres.spec_strict(), path);
    let base = match listing_view(c1[path]) {
        Some(es) => es,
        None => Seq::<Seq<char>>::empty(),
    };
    let ok = cas_ok(pres@, pres.spec_strict(), path, spec_get_rev(c1, path));
    &&& crate::store::keys_sorted_seq(ws)
    &&& forall|k: Seq<char>| ws.contains(k) <==> (base.contains(k) && k != entry)
    &&& write_post::<T>(c1, post.cache@, pres, posts, path, DbModel::Dir(ws), ok)
    &&& post.crashed == !ok
}

/// What a read through the cache — a get or a list — does when the
/// actor has not crashed: the key's record is memoized and nothing else
/// changes.
pub open spec fn read_case<T: Payload>(
    pre: Actor<T>,
    post: Actor<T>,
    s: Store<Db<T>>,
    path: Seq<char>,
) -> bool {
    &&& post.cache@ == read_step(pre.cache@, s@, s.spec_strict(), path)
    &&& post.crashed == pre.crashed
    &&& post.unlinks == pre.unlinks
    &&& post.config == pre.config
}

/// `put_case` together with the parts of the actor a put never touches.
pub open spec fn put_full_case<T: Payload, U: DocUpdate<T>>(
    pre: Actor<T>,
    post: Actor<T>,
    pres: Store<Db<T>>,
    posts: Store<Db<T>>,
    path: Seq<char>,
    u: U,
) -> bool {
    &&& post.unlinks == pre.unlinks
    &&& post.config == pre.config
    &&& put_case::<T, U>(pre, post, pres, posts, path, u)
}

/// What `link` does when the actor has not crashed: nothing when the
/// entry is already listed and links are skipped; otherwise the entry is
/// added to the listed names and the directory written back.
pub open spec fn link_full_case<T: Payload>(
    pre: Actor<T>,
    post: Actor<T>,
    pres: Store<Db<T>>,
    posts: Store<Db<T>>,
    path: Seq<char>,
    entry: Seq<char>,
) -> bool {
    let c1 = read_step(pre.cache@, pres@, pres.spec_strict(), path);
    let base = match listing_view(c1[path]) {
        Some(es) => es,
        None => Seq::<Seq<char>>::empty(),
    };
    &&& post.unlinks == pre.unlinks
    &&& post.config == pre.config
    &&& if pre.config.skip_links && base.contains(entry) {
        post.cache@ == c1 && posts == pres && post.crashed == false
    } else {
        exists|ws: Seq<Seq<char>>| link_case::<T>(pre, post, pres, posts, path, entry, ws)
    }
}

/// What `unlink` does when the actor has not crashed: nothing unless a
/// prior remove marked the directory; otherwise the entry is dropped
/// from the listed names and the directory written back.
pub open spec fn unlink_full_case<T: Payload>(
    pre: Actor<T>,
    post: Actor<T>,
    pres: Store<Db<T>>,
    posts: Store<Db<T>>,
    path: Seq<char>,
    entry: Seq<char>,
) -> bool {
    &&& post.config == pre.config
    &&& if !pre.unlinks@.contains(path) {
        post == pre && posts == pres
    } else {
        &&& post.unlinks == pre.unlinks
        &&& exists|ws: Seq<Seq<char>>| unlink_case::<T>(pre, post, pres, posts, path, entry, ws)
    }
}

/// What `rm` does when the actor has not crashed: nothing when the key
/// shows no document; a crash on a CAS conflict; on success the document
/// is tombstoned and the key's chain is walked bottom-up, marking every
/// ancestor that held only the removed entry.
pub open spec fn rm_case<T: Payload>(
    pre: Actor<T>,
    post: Actor<T>,
    pres: Store<Db<T>>,
    posts: Store<Db<T>>,
    path: Seq<char>,
) -> bool {
    let c1 = read_step(pre.cache@, pres@, pres.spec_strict(), path);
    let ok = cas_ok(pres@, pres.spec_strict(), path, spec_get_rev(c1, path));
    &&& post.config == pre.config
    &&& if doc_view(c1[path]) is None {
        &&& post.cache@ == c1
        &&& posts == pres
        &&& post.crashed == false
        &&& post.unlinks == pre.unlinks
    } else if !ok {
        &&& post.cache@ == c1.remove(path)
        &&& posts@ == crate::store::spec_touch(pres@, path)
        &&& posts.seq == pres.seq
        &&& post.crashed == true
        &&& post.unlinks == pre.unlinks
    } else {
        let walk = rm_walk(
            c1.insert(path, None),
            posts@,
            pres.spec_strict(),
            spec_links(path),
            spec_links(path).len() as int,
        );
        &&& posts@ == pres@.insert(path, ((spec_rev(pres@, path) + 1) as Rev, None))
        &&& posts.seq == pres.seq + 1
        &&& post.crashed == false
        &&& post.cache@ == walk.0
        &&& forall|k: Seq<char>| post.unlinks@.contains(k) <==> walk.1.contains(k)
    }
}

/// The walk a successful remove performs over the key's links, deepest
/// first: each ancestor directory is marked for unlinking and then
/// listed; the walk stops at the first directory that holds anything
/// besides the name just removed below it.  Yields the cache after the
/// walk's reads and the set of marked directories.
pub open spec fn rm_walk<TV>(
    c: CacheM<TV>,
    m: StoreM<TV>,
    strict: bool,
    links: Seq<(Seq<char>, Seq<char>)>,
    j: int,
) -> (CacheM<TV>, Set<Seq<char>>)
    decreases j,
{
    if j <= 0 {
        (c, Set::empty())
    } else {
        let dir = links[j - 1].0;
        let name = links[j - 1].1;
        let c1 = read_step(c, m, strict, dir);
        if listing_view(c1[dir]) == Some(seq![name]) {
            let rec = rm_walk(c1, m, strict, links, j - 1);
            (rec.0, rec.1.insert(dir))
        } else {
            (c1, Set::empty().insert(dir))
        }
    }
}

/// What dispatching one act does when the actor has not crashed: the
/// effect of the act's operation on the act's key, by operation.
pub open spec fn dispatch_case<T: Payload, U: DocUpdate<T>>(
    pre: Actor<T>,
    post: Actor<T>,
    pres: Store<Db<T>>,
    posts: Store<Db<T>>,
    act: Act<U>,
) -> bool {
    match act.op {
        Op::Get => read_case::<T>(pre, post, pres, act.path@) && posts == pres,
        Op::List => read_case::<T>(pre, post, pres, act.path@) && posts == pres,
        Op::Put(u) => put_full_case::<T, U>(pre, post, pres, posts, act.path@, u),
        Op::Rm => rm_case::<T>(pre, post, pres, posts, act.path@),
        Op::Link(name) => link_full_case::<T>(pre, post, pres, posts, act.path@, name@),
        Op::Unlink(name) => unlink_full_case::<T>(pre, post, pres, posts, act.path@, name@),
    }
}

/// Executes primitive acts against a store through its own cache.
pub struct Actor<T> {
    pub cache: Cache<Db<T>>,
    pub config: Config,
    pub crashed: bool,
    pub unlinks: NameSet,
}

impl<T: Payload> Actor<T> {
    pub open spec fn wf(&self) -> bool {
        &&& self.cache.wf()
        &&& self.unlinks.wf()
    }

    pub fn new(config: Config) -> (r: Actor<T>)
        ensures
            r.wf(),
            r.cache@ == Map::<Seq<char>, Option<(Rev, Option<DbModel<T::V>>)>>::empty(),
            r.cache.entries().len() == 0,
            r.config == config,
            r.crashed == false,
            r.unlinks@ == Seq::<Seq<char>>::empty(),
    {
        Actor { cache: Cache::new(), config, crashed: false, unlinks: NameSet::new() }
    }

    /// Read the document at a key; a crashed actor reads nothing.
    pub fn get(&mut self, store: &Store<Db<T>>, path: &str) -> (r: Option<T>)
        requires
            old(self).wf(),
            store.wf(),
        ensures
            final(self).wf(),
            final(self).config == old(self).config,
            final(self).crashed == old(self).crashed,
            final(self).unlinks == old(self).unlinks,
            old(self).crashed ==> *final(self) == *old(self) && r is None,
            !old(self).crashed ==> {
                &&& read_case::<T>(*old(self), *final(self), *store, path@)
                &&& r.deep_view() == doc_view(final(self).cache@[path@])
            },
            r matches Some(v) ==> v.inv(),
    {
        if self.crashed {
            return None;
        }
        let v = self.cache.read(store, path);
        match v {
            Some(Db::Doc(value)) => Some(value),
            _ => None,
        }
    }

    /// List the directory at a key; a crashed actor reads nothing.
    pub fn list(&mut self, store: &Store<Db<T>>, path: &str) -> (r: Option<NameSet>)
        requires
            old(self).wf(),
            store.wf(),
        ensures
            final(self).wf(),
            final(self).config == old(self).config,
            final(self).crashed == old(self).crashed,
            final(self).unlinks == old(self).unlinks,
            old(self).crashed ==> *final(self) == *old(self) && r is None,
            !old(self).crashed ==> {
                &&& read_case::<T>(*old(self), *final(self), *store, path@)
                &&& match r {
                    Some(ns) => listing_view(final(self).cache@[path@]) == Some(ns@) && ns.wf(),
                    None => listing_view(final(self).cache@[path@]) is None,
                }
            },
    {
        if self.crashed {
            return None;
        }
        let v = self.cache.read(store, path);
        match v {
            Some(Db::Dir(value)) => Some(value),
            _ => None,
        }
    }

    /// Write a value at a key with the cache's CAS bookkeeping; a failed
    /// CAS latches the crash flag.
    pub fn write(&mut self, store: &mut Store<Db<T>>, key: &str, value: Db<T>)
        requires
            old(self).wf(),
            old(store).wf(),
            old(store).seq < usize::MAX,
            value.inv(),
        ensures
            final(self).wf(),
            final(store).wf(),
            final(store).config_of() == old(store).config_of(),
            final(self).config == old(self).config,
            final(self).unlinks == old(self).unlinks,
            ({
                let ok = cas_ok(
                    old(store)@,
                    old(store).spec_strict(),
                    key@,
                    spec_get_rev(old(self).cache@, key@),
                );
                &&& write_post::<T>(
                    old(self).cache@,
                    final(self).cache@,
                    *old(store),
                    *final(store),
                    key@,
                    value.deep_view(),
                    ok,
                )
                &&& final(self).crashed == (old(self).crashed || !ok)
            }),
    {
        if !self.cache.write(store, key, value) {
            self.crashed = true;
        }
    }

    /// Apply the client's transformation to the current document and put
    /// the result, if the transformation yields one.
    pub fn put<U: DocUpdate<T>>(&mut self, store: &mut Store<Db<T>>, path: &str, update: &U)
        requires
            old(self).wf(),
            old(store).wf(),
            old(store).seq < usize::MAX,
        ensures
            final(self).wf(),
            final(store).wf(),
            final(store).config_of() == old(store).config_of(),
            final(self).config == old(self).config,
            final(self).unlinks == old(self).unlinks,
            old(self).crashed ==> *final(self) == *old(self) && *final(store) == *old(store),
            old(self).crashed ==> final(self).crashed,
            !old(self).crashed ==> put_full_case::<T, U>(
                *old(self),
                *final(self),
                *old(store),
                *final(store),
                path@,
                *update,
            ),
    {
        if !self.crashed {
            let cur = self.get(store, path);
            proof {
                assert(cur.deep_view() == doc_view(self.cache@[path@]));
            }
            let next = update.apply(cur);
            match next {
                Some(value) => {
                    let ghost w = value.deep_view();
                    self.write(store, path, Db::Doc(value));
                    proof {
                        assert(put_case::<T, U>(
                            *old(self),
                            *self,
                            *old(store),
                            *store,
                            path@,
                            *update,
                        ));
                    }
                },
                None => {
                    proof {
                        assert(put_case::<T, U>(
                            *old(self),
                            *self,
                            *old(store),
                            *store,
                            path@,
                            *update,
                        ));
                    }
                },
            }
        }
    }

    /// Record an entry in the directory at a key, creating the directory
    /// if need be.  With `skip_links` set, an entry already present
    /// leaves the directory untouched.
    pub fn link(&mut self, store: &mut Store<Db<T>>, path: &str, entry: &str)
        requires
            old(self).wf(),
            old(store).wf(),
            old(store).seq < usize::MAX,
        ensures
            final(self).wf(),
            final(store).wf(),
            final(store).config_of() == old(store).config_of(),
            final(self).config == old(self).config,
            final(self).unlinks == old(self).unlinks,
            old(self).crashed ==> *final(self) == *old(self) && *final(store) == *old(store),
            old(self).crashed ==> final(self).crashed,
            !old(self).crashed ==> link_full_case::<T>(
                *old(self),
                *final(self),
                *old(store),
                *final(store),
                path@,
                entry@,
            ),
    {
        if !self.crashed {
            let listed = self.list(store, path);
            let mut entries = match listed {
                Some(ns) => ns,
                None => NameSet::new(),
            };
            if !self.config.skip_links || !entries.contains(entry) {
                entries.insert(entry);
                let ghost ws = entries@;
                self.write(store, path, Db::Dir(entries));
                proof {
                    assert(link_case::<T>(
                        *old(self),
                        *self,
                        *old(store),
                        *store,
                        path@,
                        entry@,
                        ws,
                    ));
                }
            }
        }
    }

    /// Remove an entry from the directory at a key, where a prior remove
    /// authorized the unlink.
    pub fn unlink(&mut self, store: &mut Store<Db<T>>, path: &str, entry: &str)
        requires
            old(self).wf(),
            old(store).wf(),
            old(store).seq < usize::MAX,
        ensures
            final(self).wf(),
            final(store).wf(),
            final(store).config_of() == old(store).config_of(),
            final(self).config == old(self).config,
            final(self).unlinks == old(self).unlinks,
            old(self).crashed ==> *final(self) == *old(self) && *final(store) == *old(store),
            old(self).crashed ==> final(self).crashed,
            !old(self).crashed ==> unlink_full_case::<T>(
                *old(self),
                *final(self),
                *old(store),
                *final(store),
                path@,
                entry@,
            ),
    {
        if !self.crashed && self.unlinks.contains(path) {
            let listed = self.list(store, path);
            let mut entries = match listed {
                Some(ns) => ns,
                None => NameSet::new(),
            };
            entries.remove(entry);
            let ghost ws = entries@;
            self.write(store, path, Db::Dir(entries));
            proof {
                assert(unlink_case::<T>(*old(self), *self, *old(store), *store, path@, entry@, ws));
            }
        }
    }

    /// Remove the document at a key.  On success, walk the key's chain
    /// bottom-up, marking for unlinking every ancestor directory that
    /// held only the just-removed entry at that moment.
    pub fn rm(&mut self, store: &mut Store<Db<T>>, path: &Path)
        requires
            old(self).wf(),
            old(store).wf(),
            old(store).seq < usize::MAX,
            path.wf(),
        ensures
            final(self).wf(),
            final(store).wf(),
            final(store).config_of() == old(store).config_of(),
            final(self).config == old(self).config,
            old(self).crashed ==> *final(self) == *old(self) && *final(store) == *old(store),
            old(self).crashed ==> final(self).crashed,
            !old(self).crashed ==> rm_case::<T>(
                *old(self),
                *final(self),
                *old(store),
                *final(store),
                path@,
            ),
    {
        if self.crashed {
            return ;
        }
        let cur = self.get(store, path.full());
        if cur.is_none() {
            return ;
        }
        if !self.cache.remove(store, path.full()) {
            self.crashed = true;
            return ;
        }
        self.unlinks = NameSet::new();
        let ghost c1g = read_step(old(self).cache@, old(store)@, old(store).spec_strict(), path@);
        let ghost c2 = self.cache@;
        let ghost m2 = store@;
        let ghost strict = store.spec_strict();
        let ghost spost = *store;
        proof {
            assert(c2 == c1g.insert(path@, None));
            assert(doc_view(c1g[path@]) is Some);
            assert(cas_ok(old(store)@, old(store).spec_strict(), path@, spec_get_rev(c1g, path@)));
            assert(spost@ == old(store)@.insert(
                path@,
                ((spec_rev(old(store)@, path@) + 1) as Rev, None),
            ));
            assert(spost.seq == old(store).seq + 1);
            assert(strict == old(store).spec_strict());
        }
        let links = path.links();
        let n = links.len();
        proof {
            assert(links.deep_view() == spec_links(path@));
        }
        let ghost full = rm_walk(c2, m2, strict, spec_links(path@), n as int);
        let mut j: usize = n;
        while j > 0
            invariant
                self.wf(),
                self.crashed == false,
                self.config == old(self).config,
                store.wf(),
                *store == spost,
                store@ == m2,
                store.spec_strict() == strict,
                strict == old(store).spec_strict(),
                store.config_of() == old(store).config_of(),
                c1g == read_step(old(self).cache@, old(store)@, old(store).spec_strict(), path@),
                c2 == c1g.insert(path@, None),
                doc_view(c1g[path@]) is Some,
                cas_ok(old(store)@, old(store).spec_strict(), path@, spec_get_rev(c1g, path@)),
                spost@ == old(store)@.insert(
                    path@,
                    ((spec_rev(old(store)@, path@) + 1) as Rev, None),
                ),
                spost.seq == old(store).seq + 1,
                !old(self).crashed,
                n == links@.len(),
                links.deep_view() == spec_links(path@),
                n == spec_links(path@).len(),
                0 <= j <= n,
                full == rm_walk(c2, m2, strict, spec_links(path@), n as int),
                full.0 == rm_walk(self.cache@, m2, strict, spec_links(path@), j as int).0,
                forall|k: Seq<char>|
                    full.1.contains(k) <==> (rm_walk(
                        self.cache@,
                        m2,
                        strict,
                        spec_links(path@),
                        j as int,
                    ).1.contains(k) || self.unlinks@.contains(k)),
            decreases j,
        {
            let i = j - 1;
            let ghost cache_j = self.cache@;
            proof {
                assert(links.deep_view()[i as int] == (links@[i as int].0@, links@[i as int].1@));
            }
            let dir: &String = &links[i].0;
            let name: &String = &links[i].1;
            self.unlinks.insert(dir.as_str());
            let listed = self.list(store, dir.as_str());
            let stop = match listed {
                Some(ns) => !ns.is_only(name.as_str()),
                None => true,
            };
            proof {
                let ls = spec_links(path@);
                assert(self.cache@ == read_step(cache_j, m2, strict, dir@));
                if stop {
                    assert(listing_view(self.cache@[dir@]) != Some(seq![name@]));
                    assert(rm_walk(cache_j, m2, strict, ls, j as int) == (
                        self.cache@,
                        Set::<Seq<char>>::empty().insert(dir@),
                    ));
                    assert(full.0 == self.cache@);
                    assert forall|k: Seq<char>|
                        full.1.contains(k) <==> self.unlinks@.contains(k) by {
                        assert(rm_walk(cache_j, m2, strict, ls, j as int).1.contains(k) <==> k
                            == dir@);
                    }
                } else {
                    assert(listing_view(self.cache@[dir@]) == Some(seq![name@]));
                    assert(rm_walk(cache_j, m2, strict, ls, j as int).0 == rm_walk(
                        self.cache@,
                        m2,
                        strict,
                        ls,
                        i as int,
                    ).0);
                    assert forall|k: Seq<char>|
                        full.1.contains(k) <==> (rm_walk(
                            self.cache@,
                            m2,
                            strict,
                            ls,
                            i as int,
                        ).1.contains(k) || self.unlinks@.contains(k)) by {
                        assert(rm_walk(cache_j, m2, strict, ls, j as int).1 == rm_walk(
                            self.cache@,
                            m2,
                            strict,
                            ls,
                            i as int,
                        ).1.insert(dir@));
                    }
                }
            }
            if stop {
                return ;
            }
            j -= 1;
        }
        proof {
            assert(rm_walk(self.cache@, m2, strict, spec_links(path@), 0).0 == self.cache@);
            assert forall|k: Seq<char>|
                full.1.contains(k) <==> self.unlinks@.contains(k) by {
                assert(!rm_walk(self.cache@, m2, strict, spec_links(path@), 0).1.contains(k));
            }
        }
    }

    /// Dispatch one act: perform its operation on its key, unless this
    /// actor has crashed, in which case nothing happens.  A crash latch,
    /// once set, never clears, and every dispatch advances the store's
    /// mutation count by at most one.
    pub fn dispatch<U: DocUpdate<T>>(&mut self, store: &mut Store<Db<T>>, act: &Act<U>)
        requires
            old(self).wf(),
            old(store).wf(),
            old(store).seq < usize::MAX,
            act.path.wf(),
        ensures
            final(self).wf(),
            final(store).wf(),
            final(store).config_of() == old(store).config_of(),
            final(self).config == old(self).config,
            old(self).crashed ==> *final(self) == *old(self) && *final(store) == *old(store),
            old(self).crashed ==> final(self).crashed,
            old(store).seq <= final(store).seq <= old(store).seq + 1,
            !old(self).crashed ==> dispatch_case::<T, U>(
                *old(self),
                *final(self),
                *old(store),
                *final(store),
                *act,
            ),
    {
        match &act.op {
            Op::Get => {
                self.get(store, act.path.full());
            },
            Op::Put(update) => {
                self.put(store, act.path.full(), update);
            },
            Op::Rm => {
                self.rm(store, &act.path);
            },
            Op::List => {
                self.list(store, act.path.full());
            },
            Op::Link(name) => {
                self.link(store, act.path.full(), name.as_str());
            },
            Op::Unlink(name) => {
                self.unlink(store, act.path.full(), name.as_str());
            },
        }
    }
}

} // verus!
