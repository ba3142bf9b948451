//! The versioned key-value store with compare-and-swap writes, and the
//! per-client read-your-writes cache over it.
//!
//! Keys are strings; every key carries a revision that starts at 0 and is
//! bumped by each successful mutation.  A mutation names the revision it
//! expects; a mismatch fails and changes nothing (except that a never-seen
//! key becomes recorded with revision 0).  The store's `seq` counts the
//! successful mutations.

use vstd::prelude::*;

verus! {

use crate::config::{Cas, Config};
use crate::payload::Payload;
use crate::strutil::{lemma_lex_lt_transitive, lemma_lex_lt_trichotomy, lex_lt, str_eq, str_lt};

pub type Rev = usize;

/// The association map described by a sequence of key/value entries,
/// later entries overriding earlier ones.
pub open spec fn seq_to_map<RV>(es: Seq<(Seq<char>, RV)>) -> Map<Seq<char>, RV>
    decreases es.len(),
{
    if es.len() == 0 {
        Map::empty()
    } else {
        seq_to_map(es.drop_last()).insert(es.last().0, es.last().1)
    }
}

/// No two entries share a key.
pub open spec fn keys_distinct<RV>(es: Seq<(Seq<char>, RV)>) -> bool {
    forall|i: int, j: int| 0 <= i < j < es.len() ==> es[i].0 != es[j].0
}

/// Entry keys are strictly ascending in lexicographic order.
pub open spec fn keys_sorted<RV>(es: Seq<(Seq<char>, RV)>) -> bool {
    forall|i: int, j: int| 0 <= i < j < es.len() ==> lex_lt(es[i].0, es[j].0)
}

pub proof fn lemma_sorted_distinct<RV>(es: Seq<(Seq<char>, RV)>)
    requires
        keys_sorted(es),
    ensures
        keys_distinct(es),
{
    assert forall|i: int, j: int| 0 <= i < j < es.len() implies es[i].0 != es[j].0 by {
        lemma_lex_lt_trichotomy(es[i].0, es[j].0);
    }
}

/// With distinct keys, the map described by the entries holds exactly
/// those keys, each bound to its entry's value.
pub proof fn lemma_seq_to_map_lookup<RV>(es: Seq<(Seq<char>, RV)>)
    requires
        keys_distinct(es),
    ensures
        forall|i: int|
            0 <= i < es.len() ==> seq_to_map(es).dom().contains(#[trigger] es[i].0)
                && seq_to_map(es)[es[i].0] == es[i].1,
        forall|k: Seq<char>|
            seq_to_map(es).dom().contains(k) ==> exists|i: int|
                0 <= i < es.len() && #[trigger] es[i].0 == k,
    decreases es.len(),
{
    if es.len() > 0 {
        let d = es.drop_last();
        lemma_seq_to_map_lookup(d);
        assert forall|i: int|
            0 <= i < es.len() implies seq_to_map(es).dom().contains(#[trigger] es[i].0)
            && seq_to_map(es)[es[i].0] == es[i].1 by {
            if i < es.len() - 1 {
                assert(d[i] == es[i]);
                assert(es[i].0 != es[es.len() - 1].0);
            }
        }
        assert forall|k: Seq<char>| seq_to_map(es).dom().contains(k) implies exists|i: int|
            0 <= i < es.len() && #[trigger] es[i].0 == k by {
            if k == es.last().0 {
                assert(es[es.len() - 1].0 == k);
            } else {
                assert(seq_to_map(d).dom().contains(k));
                let i = choose|i: int| 0 <= i < d.len() && #[trigger] d[i].0 == k;
                assert(d[i] == es[i]);
                assert(es[i].0 == k);
            }
        }
    }
}

/// Replacing the value at one position updates the described map at that
/// entry's key.
pub proof fn lemma_seq_to_map_update<RV>(es: Seq<(Seq<char>, RV)>, i: int, r: RV)
    requires
        keys_distinct(es),
        0 <= i < es.len(),
    ensures
        seq_to_map(es.update(i, (es[i].0, r))) == seq_to_map(es).insert(es[i].0, r),
    decreases es.len(),
{
    let es2 = es.update(i, (es[i].0, r));
    if i == es.len() - 1 {
        assert(es2.drop_last() =~= es.drop_last());
        assert(es2.last() == (es[i].0, r));
        assert(seq_to_map(es2) =~= seq_to_map(es).insert(es[i].0, r));
    } else {
        let d = es.drop_last();
        assert(es2.drop_last() =~= d.update(i, (d[i].0, r)));
        lemma_seq_to_map_update(d, i, r);
        assert(es2.last() == es.last());
        assert(d[i].0 == es[i].0);
        assert(es[i].0 != es.last().0);
        assert(seq_to_map(es2) =~= seq_to_map(es).insert(es[i].0, r));
    }
}

/// Inserting an entry with a fresh key anywhere in the sequence inserts
/// its binding into the described map.
pub proof fn lemma_seq_to_map_insert<RV>(es: Seq<(Seq<char>, RV)>, p: int, k: Seq<char>, r: RV)
    requires
        0 <= p <= es.len(),
        forall|i: int| 0 <= i < es.len() ==> #[trigger] es[i].0 != k,
    ensures
        seq_to_map(es.insert(p, (k, r))) == seq_to_map(es).insert(k, r),
    decreases es.len(),
{
    let es2 = es.insert(p, (k, r));
    if p == es.len() {
        assert(es2.drop_last() =~= es);
        assert(es2.last() == (k, r));
    } else {
        let d = es.drop_last();
        assert(es2.drop_last() =~= d.insert(p, (k, r)));
        assert(forall|i: int| 0 <= i < d.len() ==> #[trigger] d[i].0 != k);
        lemma_seq_to_map_insert(d, p, k, r);
        assert(es2.last() == es.last());
        assert(es.last().0 != k);
        assert(seq_to_map(es2) =~= seq_to_map(es).insert(k, r));
    }
}

/// What `read` returns: under strict CAS every recorded key is visible
/// with its revision; under lax CAS a tombstone reads as missing.
pub open spec fn spec_read<VV>(
    m: Map<Seq<char>, (Rev, Option<VV>)>,
    strict: bool,
    k: Seq<char>,
) -> Option<(Rev, Option<VV>)> {
    if m.dom().contains(k) && (strict || m[k].1 is Some) {
        Some(m[k])
    } else {
        None
    }
}

/// The current revision of a key: 0 until the key is first recorded.
pub open spec fn spec_rev<VV>(m: Map<Seq<char>, (Rev, Option<VV>)>, k: Seq<char>) -> Rev {
    if m.dom().contains(k) {
        m[k].0
    } else {
        0
    }
}

/// Whether a mutation against expectation `expected` passes the CAS rule.
pub open spec fn cas_ok<VV>(
    m: Map<Seq<char>, (Rev, Option<VV>)>,
    strict: bool,
    k: Seq<char>,
    expected: Option<Rev>,
) -> bool {
    let exp = match expected {
        Some(r) => r,
        None => 0,
    };
    let present = m.dom().contains(k) && m[k].1 is Some;
    (strict || present) ==> spec_rev(m, k) == exp
}

/// The map after a failed mutation: unchanged, except that a never-seen
/// key becomes recorded with revision 0 and no value.
pub open spec fn spec_touch<VV>(
    m: Map<Seq<char>, (Rev, Option<VV>)>,
    k: Seq<char>,
) -> Map<Seq<char>, (Rev, Option<VV>)> {
    if m.dom().contains(k) {
        m
    } else {
        m.insert(k, (0, None))
    }
}

/// A versioned key-value store with compare-and-swap mutations.
pub struct Store<V> {
    pub data: Vec<(String, (Rev, Option<V>))>,
    pub config: Config,
    pub seq: Rev,
}

impl<V: Payload> View for Store<V> {
    type V = Map<Seq<char>, (Rev, Option<V::V>)>;

    open spec fn view(&self) -> Map<Seq<char>, (Rev, Option<V::V>)> {
        seq_to_map(self.entries())
    }
}

impl<V: Payload> Store<V> {
    /// The recorded entries, in key order.
    pub open spec fn entries(&self) -> Seq<(Seq<char>, (Rev, Option<V::V>))> {
        self.data.deep_view()
    }

    pub open spec fn config_of(&self) -> Config {
        self.config
    }

    /// Whether the store applies the CAS rule to tombstoned keys too.
    pub open spec fn spec_strict(&self) -> bool {
        self.config_of().store == Cas::Strict
    }

    /// Entries are sorted by key, revisions never exceed `seq`, and every
    /// stored value satisfies its invariant.
    pub open spec fn wf(&self) -> bool {
        &&& keys_sorted(self.entries())
        &&& forall|i: int| 0 <= i < self.data.len() ==> #[trigger] self.data@[i].1.0 <= self.seq
        &&& forall|i: int|
            0 <= i < self.data.len() ==> (#[trigger] self.data@[i].1.1 matches Some(v) ==> v.inv())
    }

    pub fn new(config: Config) -> (r: Store<V>)
        ensures
            r@ == Map::<Seq<char>, (Rev, Option<V::V>)>::empty(),
            r.entries() == Seq::<(Seq<char>, (Rev, Option<V::V>))>::empty(),
            r.seq == 0,
            r.config_of() == config,
            r.wf(),
    {
        let r = Store { data: Vec::new(), config, seq: 0 };
        proof {
            assert(r.entries() =~= Seq::<(Seq<char>, (Rev, Option<V::V>))>::empty());
        }
        r
    }

    pub fn is_strict(&self) -> (r: bool)
        ensures
            r == self.spec_strict(),
    {
        self.config.store == Cas::Strict
    }

    /// The index of the entry holding `key`, if the key is recorded.
    fn find(&self, key: &str) -> (r: Option<usize>)
        requires
            self.wf(),
        ensures
            match r {
                Some(i) => i < self.entries().len() && self.entries()[i as int].0 == key@
                    && self@.dom().contains(key@) && self@[key@] == self.entries()[i as int].1,
                None => !self@.dom().contains(key@),
            },
    {
        proof {
            lemma_sorted_distinct(self.entries());
            lemma_seq_to_map_lookup(self.entries());
        }
        let mut i: usize = 0;
        while i < self.data.len()
            invariant
                self.wf(),
                0 <= i <= self.data.len(),
                forall|j: int| 0 <= j < i ==> #[trigger] self.entries()[j].0 != key@,
                keys_distinct(self.entries()),
                forall|ii: int|
                    0 <= ii < self.entries().len() ==> self@.dom().contains(
                        #[trigger] self.entries()[ii].0,
                    ) && self@[self.entries()[ii].0] == self.entries()[ii].1,
                forall|k: Seq<char>|
                    self@.dom().contains(k) ==> exists|ii: int|
                        0 <= ii < self.entries().len() && #[trigger] self.entries()[ii].0 == k,
            decreases self.data.len() - i,
        {
            if str_eq(self.data[i].0.as_str(), key) {
                proof {
                    assert(self.entries()[i as int].0 == self.data@[i as int].0@);
                }
                return Some(i);
            }
            proof {
                assert(self.entries()[i as int].0 == self.data@[i as int].0@);
            }
            i += 1;
        }
        None
    }

    /// The stored value of a present key.
    pub fn get(&self, key: &str) -> (r: Option<&V>)
        requires
            self.wf(),
        ensures
            match r {
                Some(v) => self@.dom().contains(key@) && self@[key@].1 == Some(v.deep_view())
                    && v.inv(),
                None => !self@.dom().contains(key@) || self@[key@].1 is None,
            },
    {
        match self.find(key) {
            Some(i) => {
                proof {
                    assert(self.entries()[i as int] == self.data.deep_view()[i as int]);
                }
                match &self.data[i].1.1 {
                    Some(v) => Some(v),
                    None => None,
                }
            },
            None => None,
        }
    }

    /// The record of a key: its revision and current value, subject to
    /// the visibility rule of the configured CAS mode.
    pub fn read(&self, key: &str) -> (r: Option<(Rev, Option<V>)>)
        requires
            self.wf(),
        ensures
            r.deep_view() == spec_read(self@, self.spec_strict(), key@),
            match r {
                Some((_, Some(v))) => v.inv(),
                _ => true,
            },
    {
        let strict = self.is_strict();
        match self.find(key) {
            Some(i) => {
                proof {
                    assert(self.entries()[i as int] == self.data.deep_view()[i as int]);
                }
                let rev = self.data[i].1.0;
                match &self.data[i].1.1 {
                    Some(v) => Some((rev, Some(v.dup()))),
                    None => {
                        if strict {
                            Some((rev, None))
                        } else {
                            None
                        }
                    },
                }
            },
            None => None,
        }
    }

    pub fn write(&mut self, key: &str, rev: Option<Rev>, value: V) -> (r: Option<Rev>)
        requires
            old(self).wf(),
            old(self).seq < usize::MAX,
            value.inv(),
        ensures
            final(self).wf(),
            final(self).config_of() == old(self).config_of(),
            Store::<V>::mutation_post(*old(self), *final(self), key@, rev, Some(value.deep_view()), r),
    {
        self.set_key(key, rev, Some(value))
    }

    pub fn remove(&mut self, key: &str, rev: Option<Rev>) -> (r: Option<Rev>)
        requires
            old(self).wf(),
            old(self).seq < usize::MAX,
        ensures
            final(self).wf(),
            final(self).config_of() == old(self).config_of(),
            Store::<V>::mutation_post(*old(self), *final(self), key@, rev, None, r),
    {
        self.set_key(key, rev, None)
    }

    /// What a mutation does: on a CAS match the key's record is replaced
    /// with the new value at the next revision and `seq` advances by one;
    /// on a mismatch nothing changes except that an unseen key becomes
    /// recorded at revision 0, and the mutation reports failure.
    pub open spec fn mutation_post(
        pre: Store<V>,
        post: Store<V>,
        k: Seq<char>,
        expected: Option<Rev>,
        value: Option<V::V>,
        r: Option<Rev>,
    ) -> bool {
        if cas_ok(pre@, pre.spec_strict(), k, expected) {
            &&& r == Some((spec_rev(pre@, k) + 1) as Rev)
            &&& spec_rev(pre@, k) < usize::MAX
            &&& post@ == pre@.insert(k, ((spec_rev(pre@, k) + 1) as Rev, value))
            &&& post.seq == pre.seq + 1
        } else {
            &&& r is None
            &&& post@ == spec_touch(pre@, k)
            &&& post.seq == pre.seq
        }
    }

    /// Apply one CAS mutation; `value` of `None` writes a tombstone.
    pub fn set_key(&mut self, key: &str, rev: Option<Rev>, value: Option<V>) -> (r: Option<Rev>)
        requires
            old(self).wf(),
            old(self).seq < usize::MAX,
            value matches Some(v) ==> v.inv(),
        ensures
            final(self).wf(),
            final(self).config_of() == old(self).config_of(),
            Store::<V>::mutation_post(
                *old(self),
                *final(self),
                key@,
                rev,
                match value {
                    Some(v) => Some(v.deep_view()),
                    None => None,
                },
                r,
            ),
    {
        proof {
            lemma_sorted_distinct(self.entries());
            lemma_seq_to_map_lookup(self.entries());
        }
        let client_rev = match rev {
            Some(r) => r,
            None => 0,
        };
        let is_strict = self.is_strict();
        let found = self.find(key);
        match found {
            Some(i) => {
                let cur_rev = self.data[i].1.0;
                let cur_present = self.data[i].1.1.is_some();
                proof {
                    assert(self.entries()[i as int] == self.data.deep_view()[i as int]);
                }
                if (is_strict || cur_present) && cur_rev != client_rev {
                    proof {
                        assert(spec_touch(self@, key@) =~= self@);
                    }
                    return None;
                }
                let ghost pre = *self;
                let new_rev: Rev = cur_rev + 1;
                self.data.remove(i);
                self.data.insert(i, (key.to_owned(), (new_rev, value)));
                self.seq = self.seq + 1;
                proof {
                    assert(self.data@ =~= pre.data@.update(i as int, self.data@[i as int]));
                    assert(self.entries() =~= pre.entries().update(
                        i as int,
                        (key@, (new_rev, self.data.deep_view()[i as int].1.1)),
                    ));
                    lemma_seq_to_map_update(
                        pre.entries(),
                        i as int,
                        self.entries()[i as int].1,
                    );
                    assert(self@ == pre@.insert(key@, self.entries()[i as int].1));
                    assert(keys_sorted(self.entries()));
                }
                Some(new_rev)
            },
            None => {
                if is_strict && client_rev != 0 {
                    // CAS mismatch against the implicit revision 0: record
                    // the key as touched, changing nothing else.
                    self.insert_fresh(key, (0, None));
                    return None;
                }
                let new_rev: Rev = 1;
                self.seq = self.seq + 1;
                self.insert_fresh(key, (new_rev, value));
                Some(new_rev)
            },
        }
    }

    /// Insert a record for a key that is not yet recorded, keeping the
    /// entries sorted.
    fn insert_fresh(&mut self, key: &str, rec: (Rev, Option<V>))
        requires
            old(self).wf(),
            !old(self)@.dom().contains(key@),
            rec.0 <= old(self).seq,
            rec.1 matches Some(v) ==> v.inv(),
        ensures
            final(self).wf(),
            final(self).seq == old(self).seq,
            final(self).config_of() == old(self).config_of(),
            final(self)@ == old(self)@.insert(
                key@,
                (
                    rec.0,
                    match rec.1 {
                        Some(v) => Some(v.deep_view()),
                        None => None,
                    },
                ),
            ),
    {
        proof {
            lemma_sorted_distinct(self.entries());
            lemma_seq_to_map_lookup(self.entries());
        }
        let mut p: usize = 0;
        while p < self.data.len() && !str_lt(key, self.data[p].0.as_str())
            invariant
                self.wf(),
                0 <= p <= self.data.len(),
                forall|j: int| 0 <= j < p ==> lex_lt(#[trigger] self.entries()[j].0, key@),
                keys_distinct(self.entries()),
                forall|ii: int|
                    0 <= ii < self.entries().len() ==> self@.dom().contains(
                        #[trigger] self.entries()[ii].0,
                    ),
                !self@.dom().contains(key@),
            decreases self.data.len() - p,
        {
            proof {
                assert(self.entries()[p as int].0 == self.data@[p as int].0@);
                assert(self.entries()[p as int].0 != key@);
                lemma_lex_lt_trichotomy(key@, self.entries()[p as int].0);
            }
            p += 1;
        }
        let ghost pre = *self;
        proof {
            if p < self.data.len() {
                assert(self.entries()[p as int].0 == self.data@[p as int].0@);
            }
        }
        self.data.insert(p, (key.to_owned(), rec));
        proof {
            assert(self.entries() =~= pre.entries().insert(p as int, self.entries()[p as int]));
            assert(self.entries()[p as int].0 == key@);
            assert(forall|i: int|
                0 <= i < pre.entries().len() ==> #[trigger] pre.entries()[i].0 != key@);
            lemma_seq_to_map_insert(pre.entries(), p as int, key@, self.entries()[p as int].1);
            let es = self.entries();
            assert forall|i: int, j: int| 0 <= i < j < es.len() implies lex_lt(es[i].0, es[j].0) by {
                let pe = pre.entries();
                if j < p {
                    assert(es[i] == pe[i] && es[j] == pe[j]);
                } else if i < p && j == p {
                    assert(es[i] == pe[i]);
                } else if i < p && j > p {
                    assert(es[i] == pe[i] && es[j] == pe[j - 1]);
                } else if i == p {
                    assert(es[j] == pe[j - 1]);
                    if j - 1 == p {
                        assert(lex_lt(key@, pe[p as int].0));
                    } else {
                        assert(lex_lt(key@, pe[p as int].0));
                        assert(lex_lt(pe[p as int].0, pe[j - 1].0));
                        lemma_lex_lt_transitive(key@, pe[p as int].0, pe[j - 1].0);
                    }
                } else {
                    assert(es[i] == pe[i - 1] && es[j] == pe[j - 1]);
                }
            }
        }
    }

    /// All recorded keys, in ascending lexicographic order.
    pub fn keys(&self) -> (r: Vec<String>)
        requires
            self.wf(),
        ensures
            r.deep_view().len() == self.entries().len(),
            forall|i: int|
                0 <= i < r.deep_view().len() ==> #[trigger] r.deep_view()[i]
                    == self.entries()[i].0,
            keys_sorted_seq(r.deep_view()),
            forall|k: Seq<char>| self@.dom().contains(k) <==> r.deep_view().contains(k),
    {
        proof {
            lemma_sorted_distinct(self.entries());
            lemma_seq_to_map_lookup(self.entries());
        }
        let mut out: Vec<String> = Vec::new();
        let mut i: usize = 0;
        while i < self.data.len()
            invariant
                self.wf(),
                0 <= i <= self.data.len(),
                out.deep_view().len() == i,
                forall|j: int|
                    0 <= j < i ==> #[trigger] out.deep_view()[j] == self.entries()[j].0,
            decreases self.data.len() - i,
        {
            let el = self.data[i].0.clone();
            let ghost gout = out;
            let ghost gel = el;
            out.push(el);
            proof {
                crate::strutil::lemma_deep_view_push(gout, out, gel);
                assert(self.entries()[i as int].0 == self.data@[i as int].0@);
            }
            i += 1;
        }
        proof {
            assert forall|k: Seq<char>| self@.dom().contains(k) implies out.deep_view().contains(
                k,
            ) by {
                let j = choose|j: int|
                    0 <= j < self.entries().len() && #[trigger] self.entries()[j].0 == k;
                assert(out.deep_view()[j] == k);
            }
            assert forall|k: Seq<char>| out.deep_view().contains(k) implies self@.dom().contains(
                k,
            ) by {
                let j = choose|j: int|
                    0 <= j < out.deep_view().len() && #[trigger] out.deep_view()[j] == k;
                assert(self.entries()[j].0 == k);
            }
        }
        out
    }

    /// An independent copy of the store.
    pub fn dup(&self) -> (r: Store<V>)
        requires
            self.wf(),
        ensures
            r@ == self@,
            r.entries() == self.entries(),
            r.seq == self.seq,
            r.config_of() == self.config_of(),
            r.wf(),
    {
        let mut data: Vec<(String, (Rev, Option<V>))> = Vec::new();
        let mut i: usize = 0;
        while i < self.data.len()
            invariant
                self.wf(),
                0 <= i <= self.data.len(),
                data.deep_view() =~= self.entries().take(i as int),
                forall|j: int|
                    0 <= j < i ==> (#[trigger] data@[j].1.1 matches Some(v) ==> v.inv()),
                forall|j: int| 0 <= j < i ==> #[trigger] data@[j].1.0 <= self.seq,
            decreases self.data.len() - i,
        {
            let k = self.data[i].0.clone();
            let v = match &self.data[i].1.1 {
                Some(v) => Some(v.dup()),
                None => None,
            };
            let el = (k, (self.data[i].1.0, v));
            let ghost gdata = data;
            let ghost gel = el;
            data.push(el);
            proof {
                crate::strutil::lemma_deep_view_push(gdata, data, gel);
                assert(self.entries()[i as int] == self.data.deep_view()[i as int]);
                assert(data.deep_view() =~= self.entries().take(i + 1));
            }
            i += 1;
        }
        let r = Store { data, config: self.config, seq: self.seq };
        proof {
            assert(self.entries().take(self.data.len() as int) =~= self.entries());
            assert(r.entries() == self.entries());
        }
        r
    }
}

/// Sorted name sequences are canonical: two strictly sorted sequences
/// that hold the same names are the same sequence.  The directory value
/// a link or unlink writes is therefore determined by its membership.
pub proof fn lemma_sorted_unique_equal(a: Seq<Seq<char>>, b: Seq<Seq<char>>)
    requires
        keys_sorted_seq(a),
        keys_sorted_seq(b),
        forall|k: Seq<char>| a.contains(k) <==> b.contains(k),
    ensures
        a == b,
    decreases a.len(),
{
    if a.len() == 0 {
        if b.len() > 0 {
            assert(b.contains(b[0]));
            assert(a.contains(b[0]));
        }
        assert(a =~= b);
    } else {
        assert(a.contains(a[0]));
        assert(b.contains(a[0]));
        if b.len() == 0 {
            assert(false);
        }
        assert(b.contains(b[0]));
        assert(a.contains(b[0]));
        let i = choose|i: int| 0 <= i < b.len() && b[i] == a[0];
        let j = choose|j: int| 0 <= j < a.len() && a[j] == b[0];
        lemma_lex_lt_trichotomy(a[0], b[0]);
        if a[0] != b[0] {
            if lex_lt(a[0], b[0]) {
                assert(i > 0);
                assert(lex_lt(b[0], b[i]));
                lemma_lex_lt_transitive(a[0], b[0], b[i]);
                lemma_lex_lt_trichotomy(a[0], b[i]);
                assert(false);
            } else {
                assert(j > 0);
                assert(lex_lt(a[0], a[j]));
                lemma_lex_lt_transitive(b[0], a[0], a[j]);
                lemma_lex_lt_trichotomy(b[0], a[j]);
                assert(false);
            }
        }
        let at = a.drop_first();
        let bt = b.drop_first();
        assert(forall|p: int| 0 <= p < at.len() ==> #[trigger] at[p] == a[p + 1]);
        assert(forall|p: int| 0 <= p < bt.len() ==> #[trigger] bt[p] == b[p + 1]);
        assert forall|k: Seq<char>| at.contains(k) <==> bt.contains(k) by {
            lemma_sorted_tail_membership(a, k);
            lemma_sorted_tail_membership(b, k);
            assert(a[0] == b[0]);
        }
        lemma_sorted_unique_equal(at, bt);
        assert(a.len() == b.len());
        assert forall|p: int| 0 <= p < a.len() implies a[p] == b[p] by {
            if p > 0 {
                assert(at[p - 1] == bt[p - 1]);
            }
        }
        assert(a =~= b);
    }
}

/// A name is in the tail of a sorted sequence exactly when it is in the
/// sequence and is not its head.
proof fn lemma_sorted_tail_membership(a: Seq<Seq<char>>, k: Seq<char>)
    requires
        keys_sorted_seq(a),
        a.len() > 0,
    ensures
        a.drop_first().contains(k) <==> (a.contains(k) && k != a[0]),
{
    let at = a.drop_first();
    if at.contains(k) {
        let p = choose|p: int| 0 <= p < at.len() && at[p] == k;
        assert(a[p + 1] == k);
        assert(a.contains(k));
        assert(lex_lt(a[0], a[p + 1]));
        lemma_lex_lt_trichotomy(a[0], k);
    }
    if a.contains(k) && k != a[0] {
        let p = choose|p: int| 0 <= p < a.len() && a[p] == k;
        assert(p > 0);
        assert(at[p - 1] == k);
        assert(at.contains(k));
    }
}

/// CAS monotonicity: across any mutation, no key's revision ever
/// decreases, and a successful mutation bumps its key's revision by
/// exactly one.
pub proof fn lemma_rev_monotonic<V: Payload>(
    pre: Store<V>,
    post: Store<V>,
    k: Seq<char>,
    expected: Option<Rev>,
    value: Option<V::V>,
    r: Option<Rev>,
)
    requires
        Store::<V>::mutation_post(pre, post, k, expected, value, r),
    ensures
        forall|q: Seq<char>| spec_rev(pre@, q) <= #[trigger] spec_rev(post@, q),
        r is Some ==> spec_rev(post@, k) == spec_rev(pre@, k) + 1,
        r is None ==> forall|q: Seq<char>| spec_rev(pre@, q) == #[trigger] spec_rev(post@, q),
{
}

/// `seq` totality: the store's `seq` counts exactly the successful
/// mutations — it advances by one on success and not at all on failure.
pub proof fn lemma_seq_totality<V: Payload>(
    pre: Store<V>,
    post: Store<V>,
    k: Seq<char>,
    expected: Option<Rev>,
    value: Option<V::V>,
    r: Option<Rev>,
)
    requires
        Store::<V>::mutation_post(pre, post, k, expected, value, r),
    ensures
        post.seq == pre.seq + (if r is Some {
            1int
        } else {
            0int
        }),
{
}

/// Read-your-writes: a successful write through a cache leaves the key
/// observed at the written value, so the next read of that key through
/// the same cache consults no store and returns exactly that value.
pub proof fn lemma_cache_read_your_writes<VV>(
    c: Map<Seq<char>, Option<(Rev, Option<VV>)>>,
    k: Seq<char>,
    rev: Rev,
    v: VV,
)
    ensures
        c.insert(k, Some((rev, Some(v)))).dom().contains(k),
        cache_doc(c.insert(k, Some((rev, Some(v))))[k]) == Some(v),
{
}

/// A sequence of keys in strictly ascending lexicographic order.
pub open spec fn keys_sorted_seq(ks: Seq<Seq<char>>) -> bool {
    forall|i: int, j: int| 0 <= i < j < ks.len() ==> lex_lt(ks[i], ks[j])
}

/// A strictly sorted key sequence has no duplicates.
pub proof fn lemma_sorted_keys_distinct(ks: Seq<Seq<char>>)
    requires
        keys_sorted_seq(ks),
    ensures
        forall|i: int, j: int| 0 <= i < j < ks.len() ==> ks[i] != ks[j],
{
    assert forall|i: int, j: int| 0 <= i < j < ks.len() implies ks[i] != ks[j] by {
        lemma_lex_lt_trichotomy(ks[i], ks[j]);
    }
}

/// Removing an entry removes its binding from the described map.
pub proof fn lemma_seq_to_map_remove<RV>(es: Seq<(Seq<char>, RV)>, i: int)
    requires
        keys_distinct(es),
        0 <= i < es.len(),
    ensures
        seq_to_map(es.remove(i)) == seq_to_map(es).remove(es[i].0),
    decreases es.len(),
{
    let es2 = es.remove(i);
    let d = es.drop_last();
    if i == es.len() - 1 {
        assert(es2 =~= d);
        lemma_seq_to_map_lookup(d);
        if seq_to_map(d).dom().contains(es[i].0) {
            let j = choose|j: int| 0 <= j < d.len() && #[trigger] d[j].0 == es[i].0;
            assert(es[j].0 == es[i].0);
            assert(false);
        }
        assert(seq_to_map(es2) =~= seq_to_map(es).remove(es[i].0));
    } else {
        assert(es2.drop_last() =~= d.remove(i));
        assert(d[i] == es[i]);
        lemma_seq_to_map_remove(d, i);
        assert(es2.last() == es.last());
        assert(es.last().0 != es[i].0);
        assert(seq_to_map(es2) =~= seq_to_map(es).remove(es[i].0));
    }
}

/// What a cache entry says the document is: the memoized value, when the
/// entry records a present key.
pub open spec fn cache_doc<VV>(entry: Option<(Rev, Option<VV>)>) -> Option<VV> {
    match entry {
        Some((_, Some(v))) => Some(v),
        _ => None,
    }
}

/// The revision a cache would use for its next CAS attempt on a key.
pub open spec fn spec_get_rev<VV>(
    m: Map<Seq<char>, Option<(Rev, Option<VV>)>>,
    k: Seq<char>,
) -> Option<Rev> {
    if m.dom().contains(k) {
        match m[k] {
            Some((rev, _)) => Some(rev),
            None => None,
        }
    } else {
        None
    }
}

/// A per-client read-your-writes view over a store.  Each entry memoizes
/// an observation: `None` for a key seen absent, `Some((rev, value))` for
/// a key seen at a revision (`value` `None` meaning a tombstone).
pub struct Cache<V> {
    pub data: Vec<(String, Option<(Rev, Option<V>)>)>,
}

impl<V: Payload> View for Cache<V> {
    type V = Map<Seq<char>, Option<(Rev, Option<V::V>)>>;

    open spec fn view(&self) -> Map<Seq<char>, Option<(Rev, Option<V::V>)>> {
        seq_to_map(self.entries())
    }
}

impl<V: Payload> Cache<V> {
    /// The memoized observations, in key order.
    pub open spec fn entries(&self) -> Seq<(Seq<char>, Option<(Rev, Option<V::V>)>)> {
        self.data.deep_view()
    }

    /// Entries are sorted by key and memoized values satisfy their
    /// invariant.
    pub open spec fn wf(&self) -> bool {
        &&& keys_sorted(self.entries())
        &&& forall|i: int|
            0 <= i < self.data.len() ==> (#[trigger] self.data@[i].1 matches Some((_r, Some(v)))
                ==> v.inv())
    }

    pub fn new() -> (r: Cache<V>)
        ensures
            r@ == Map::<Seq<char>, Option<(Rev, Option<V::V>)>>::empty(),
            r.entries() == Seq::<(Seq<char>, Option<(Rev, Option<V::V>)>)>::empty(),
            r.wf(),
    {
        let r = Cache { data: Vec::new() };
        proof {
            assert(r.entries() =~= Seq::<(Seq<char>, Option<(Rev, Option<V::V>)>)>::empty());
        }
        r
    }

    /// The index of the observation for `key`, if one is memoized.
    fn find(&self, key: &str) -> (r: Option<usize>)
        requires
            self.wf(),
        ensures
            match r {
                Some(i) => i < self.entries().len() && self.entries()[i as int].0 == key@
                    && self@.dom().contains(key@) && self@[key@] == self.entries()[i as int].1,
                None => !self@.dom().contains(key@),
            },
    {
        proof {
            lemma_sorted_distinct(self.entries());
            lemma_seq_to_map_lookup(self.entries());
        }
        let mut i: usize = 0;
        while i < self.data.len()
            invariant
                self.wf(),
                0 <= i <= self.data.len(),
                forall|j: int| 0 <= j < i ==> #[trigger] self.entries()[j].0 != key@,
                keys_distinct(self.entries()),
                forall|ii: int|
                    0 <= ii < self.entries().len() ==> self@.dom().contains(
                        #[trigger] self.entries()[ii].0,
                    ) && self@[self.entries()[ii].0] == self.entries()[ii].1,
                forall|k: Seq<char>|
                    self@.dom().contains(k) ==> exists|ii: int|
                        0 <= ii < self.entries().len() && #[trigger] self.entries()[ii].0 == k,
            decreases self.data.len() - i,
        {
            if str_eq(self.data[i].0.as_str(), key) {
                proof {
                    assert(self.entries()[i as int].0 == self.data@[i as int].0@);
                }
                return Some(i);
            }
            proof {
                assert(self.entries()[i as int].0 == self.data@[i as int].0@);
            }
            i += 1;
        }
        None
    }

    /// Memoize an observation for a key with no memoized entry, keeping
    /// the entries sorted.
    fn insert_fresh(&mut self, key: &str, rec: Option<(Rev, Option<V>)>)
        requires
            old(self).wf(),
            !old(self)@.dom().contains(key@),
            rec matches Some((_r, Some(v))) ==> v.inv(),
        ensures
            final(self).wf(),
            final(self)@ == old(self)@.insert(key@, rec.deep_view()),
    {
        proof {
            lemma_sorted_distinct(self.entries());
            lemma_seq_to_map_lookup(self.entries());
        }
        let mut p: usize = 0;
        while p < self.data.len() && !str_lt(key, self.data[p].0.as_str())
            invariant
                self.wf(),
                0 <= p <= self.data.len(),
                forall|j: int| 0 <= j < p ==> lex_lt(#[trigger] self.entries()[j].0, key@),
                keys_distinct(self.entries()),
                forall|ii: int|
                    0 <= ii < self.entries().len() ==> self@.dom().contains(
                        #[trigger] self.entries()[ii].0,
                    ),
                !self@.dom().contains(key@),
            decreases self.data.len() - p,
        {
            proof {
                assert(self.entries()[p as int].0 == self.data@[p as int].0@);
                assert(self.entries()[p as int].0 != key@);
                lemma_lex_lt_trichotomy(key@, self.entries()[p as int].0);
            }
            p += 1;
        }
        let ghost pre = *self;
        proof {
            if p < self.data.len() {
                assert(self.entries()[p as int].0 == self.data@[p as int].0@);
            }
        }
        self.data.insert(p, (key.to_owned(), rec));
        proof {
            assert(self.entries() =~= pre.entries().insert(p as int, self.entries()[p as int]));
            assert(self.entries()[p as int].0 == key@);
            assert(self.entries()[p as int].1 == rec.deep_view());
            assert(forall|i: int|
                0 <= i < pre.entries().len() ==> #[trigger] pre.entries()[i].0 != key@);
            lemma_seq_to_map_insert(pre.entries(), p as int, key@, self.entries()[p as int].1);
            let es = self.entries();
            assert forall|i: int, j: int| 0 <= i < j < es.len() implies lex_lt(es[i].0, es[j].0) by {
                let pe = pre.entries();
                if j < p {
                    assert(es[i] == pe[i] && es[j] == pe[j]);
                } else if i < p && j == p {
                    assert(es[i] == pe[i]);
                } else if i < p && j > p {
                    assert(es[i] == pe[i] && es[j] == pe[j - 1]);
                } else if i == p {
                    assert(es[j] == pe[j - 1]);
                    if j - 1 == p {
                        assert(lex_lt(key@, pe[p as int].0));
                    } else {
                        assert(lex_lt(key@, pe[p as int].0));
                        assert(lex_lt(pe[p as int].0, pe[j - 1].0));
                        lemma_lex_lt_transitive(key@, pe[p as int].0, pe[j - 1].0);
                    }
                } else {
                    assert(es[i] == pe[i - 1] && es[j] == pe[j - 1]);
                }
            }
        }
    }

    /// Replace the observation memoized for `key` with `rec`.
    fn set_entry(&mut self, key: &str, rec: Option<(Rev, Option<V>)>)
        requires
            old(self).wf(),
            rec matches Some((_r, Some(v))) ==> v.inv(),
        ensures
            final(self).wf(),
            final(self)@ == old(self)@.insert(key@, rec.deep_view()),
    {
        proof {
            lemma_sorted_distinct(self.entries());
        }
        match self.find(key) {
            Some(i) => {
                let ghost pre = *self;
                self.data.remove(i);
                self.data.insert(i, (key.to_owned(), rec));
                proof {
                    assert(self.data@ =~= pre.data@.update(i as int, self.data@[i as int]));
                    assert(self.entries() =~= pre.entries().update(
                        i as int,
                        (key@, rec.deep_view()),
                    ));
                    assert(pre.entries()[i as int].0 == key@);
                    lemma_seq_to_map_update(pre.entries(), i as int, rec.deep_view());
                    assert(keys_sorted(self.entries()));
                }
            },
            None => {
                self.insert_fresh(key, rec);
            },
        }
    }

    /// Drop any observation memoized for `key`.
    fn evict(&mut self, key: &str)
        requires
            old(self).wf(),
        ensures
            final(self).wf(),
            final(self)@ == old(self)@.remove(key@),
    {
        proof {
            lemma_sorted_distinct(self.entries());
        }
        match self.find(key) {
            Some(i) => {
                let ghost pre = *self;
                self.data.remove(i);
                proof {
                    assert(self.entries() =~= pre.entries().remove(i as int));
                    lemma_seq_to_map_remove(pre.entries(), i as int);
                    let es = self.entries();
                    assert forall|a: int, b: int| 0 <= a < b < es.len() implies lex_lt(
                        es[a].0,
                        es[b].0,
                    ) by {
                        let pe = pre.entries();
                        let a2: int = if a < i { a } else { a + 1 };
                        let b2: int = if b < i { b } else { b + 1 };
                        assert(es[a] == pe[a2] && es[b] == pe[b2]);
                    }
                }
            },
            None => {
                proof {
                    assert(self@.remove(key@) =~= self@);
                }
            },
        }
    }

    /// Read a key through the cache: the first read of a key fetches and
    /// memoizes the store's record; later reads return the memoized value
    /// without consulting the store.
    pub fn read(&mut self, store: &Store<V>, key: &str) -> (r: Option<V>)
        requires
            old(self).wf(),
            store.wf(),
        ensures
            final(self).wf(),
            final(self)@ == if old(self)@.dom().contains(key@) {
                old(self)@
            } else {
                old(self)@.insert(key@, spec_read(store@, store.spec_strict(), key@))
            },
            final(self)@.dom().contains(key@),
            r.deep_view() == cache_doc(final(self)@[key@]),
            r matches Some(v) ==> v.inv(),
    {
        let hit = self.find(key).is_some();
        if !hit {
            let rec = store.read(key);
            self.insert_fresh(key, rec);
        }
        match self.find(key) {
            Some(i) => {
                proof {
                    assert(self.entries()[i as int] == self.data.deep_view()[i as int]);
                }
                match &self.data[i].1 {
                    Some((_rev, Some(v))) => Some(v.dup()),
                    _ => None,
                }
            },
            None => None,
        }
    }

    /// Write through the cache with a CAS against the last observed
    /// revision.  Success memoizes the new record; failure evicts the
    /// entry so the next read refetches the committed truth.
    pub fn write(&mut self, store: &mut Store<V>, key: &str, value: V) -> (r: bool)
        requires
            old(self).wf(),
            old(store).wf(),
            old(store).seq < usize::MAX,
            value.inv(),
        ensures
            final(self).wf(),
            final(store).wf(),
            final(store).config_of() == old(store).config_of(),
            r == cas_ok(
                old(store)@,
                old(store).spec_strict(),
                key@,
                spec_get_rev(old(self)@, key@),
            ),
            Store::<V>::mutation_post(
                *old(store),
                *final(store),
                key@,
                spec_get_rev(old(self)@, key@),
                Some(value.deep_view()),
                if r {
                    Some((spec_rev(old(store)@, key@) + 1) as Rev)
                } else {
                    None
                },
            ),
            final(self)@ == if r {
                old(self)@.insert(
                    key@,
                    Some(((spec_rev(old(store)@, key@) + 1) as Rev, Some(value.deep_view()))),
                )
            } else {
                old(self)@.remove(key@)
            },
    {
        let old_rev = self.get_rev(key);
        match store.write(key, old_rev, value.dup()) {
            Some(new_rev) => {
                self.set_entry(key, Some((new_rev, Some(value))));
                true
            },
            None => {
                self.evict(key);
                false
            },
        }
    }

    /// Remove through the cache with a CAS against the last observed
    /// revision.  Success memoizes the key as absent; failure evicts.
    pub fn remove(&mut self, store: &mut Store<V>, key: &str) -> (r: bool)
        requires
            old(self).wf(),
            old(store).wf(),
            old(store).seq < usize::MAX,
        ensures
            final(self).wf(),
            final(store).wf(),
            final(store).config_of() == old(store).config_of(),
            r == cas_ok(
                old(store)@,
                old(store).spec_strict(),
                key@,
                spec_get_rev(old(self)@, key@),
            ),
            Store::<V>::mutation_post(
                *old(store),
                *final(store),
                key@,
                spec_get_rev(old(self)@, key@),
                None,
                if r {
                    Some((spec_rev(old(store)@, key@) + 1) as Rev)
                } else {
                    None
                },
            ),
            final(self)@ == if r {
                old(self)@.insert(key@, None)
            } else {
                old(self)@.remove(key@)
            },
    {
        let old_rev = self.get_rev(key);
        match store.remove(key, old_rev) {
            Some(_new_rev) => {
                self.set_entry(key, None);
                true
            },
            None => {
                self.evict(key);
                false
            },
        }
    }

    /// The revision this cache would use for its next CAS on `key`.
    pub fn get_rev(&self, key: &str) -> (r: Option<Rev>)
        requires
            self.wf(),
        ensures
            r == spec_get_rev(self@, key@),
    {
        match self.find(key) {
            Some(i) => {
                proof {
                    assert(self.entries()[i as int] == self.data.deep_view()[i as int]);
                }
                match &self.data[i].1 {
                    Some((rev, _)) => Some(*rev),
                    None => None,
                }
            },
            None => None,
        }
    }
}

} // verus!
