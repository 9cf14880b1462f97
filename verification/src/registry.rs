//! The client registry: a mutually-exclusive mapping from client identifier
//! to that client's hub subscription token. Registration overwrites any stale
//! record for the same identifier (last writer wins); removal is idempotent.
//!
//! The surrounding process serializes access (one lock around the whole
//! structure); nothing here performs I/O.

use vstd::prelude::*;

use crate::messages::ClientId;

verus! {

/// The mathematical content of an entry list: later entries win.
pub open spec fn map_of(s: Seq<(ClientId, usize)>) -> Map<u128, usize>
    decreases s.len(),
{
    if s.len() == 0 {
        Map::empty()
    } else {
        map_of(s.drop_last()).insert(s.last().0.0, s.last().1)
    }
}

/// Identifier-to-subscription bookkeeping for the connected sessions.
pub struct Registry {
    entries: Vec<(ClientId, usize)>,
}

impl View for Registry {
    type V = Map<u128, usize>;

    closed spec fn view(&self) -> Map<u128, usize> {
        map_of(self.entries@)
    }
}

impl Registry {
    /// No identifier is recorded twice.
    pub closed spec fn wf(self) -> bool {
        forall|i: int, j: int|
            0 <= i < j < self.entries@.len() ==> (#[trigger] self.entries@[i]).0.0 != (
            #[trigger] self.entries@[j]).0.0
    }

    pub fn new() -> (r: Registry)
        ensures
            r.wf(),
            r@ == Map::<u128, usize>::empty(),
    {
        Registry { entries: Vec::new() }
    }

    /// Record `id` with its subscription token, replacing any stale record.
    pub fn register(&mut self, id: ClientId, token: usize)
        requires
            old(self).wf(),
        ensures
            final(self).wf(),
            final(self)@ == old(self)@.insert(id.0, token),
    {
        let n = self.entries.len();
        let mut i: usize = 0;
        while i < n
            invariant
                i <= n,
                n == self.entries@.len(),
                self == old(self),
                old(self).wf(),
                forall|l: int| 0 <= l < i ==> (#[trigger] self.entries@[l]).0.0 != id.0,
            decreases n - i,
        {
            let e = self.entries[i];
            if e.0.0 == id.0 {
                self.entries[i] = (id, token);
                proof {
                    lemma_map_of_update(old(self).entries@, i as int, id, token);
                    assert forall|a: int, b: int|
                        0 <= a < b < self.entries@.len() implies (#[trigger] self.entries@[a]).0.0
                        != (#[trigger] self.entries@[b]).0.0 by {
                        assert(old(self).entries@[a].0.0 != old(self).entries@[b].0.0);
                        if a != i && b != i {
                            assert(self.entries@[a] == old(self).entries@[a]);
                            assert(self.entries@[b] == old(self).entries@[b]);
                        }
                    }
                }
                return;
            }
            i = i + 1;
        }
        self.entries.push((id, token));
        proof {
            assert(self.entries@.drop_last() =~= old(self).entries@);
            assert(self.entries@.last() == (id, token));
            assert forall|a: int, b: int|
                0 <= a < b < self.entries@.len() implies (#[trigger] self.entries@[a]).0.0 != (
            #[trigger] self.entries@[b]).0.0 by {
                if b < self.entries@.len() - 1 {
                    assert(old(self).entries@[a].0.0 != old(self).entries@[b].0.0);
                } else {
                    assert(self.entries@[a] == old(self).entries@[a]);
                }
            }
        }
    }

    /// Forget `id`. A no-op when it is not recorded.
    pub fn unregister(&mut self, id: ClientId)
        requires
            old(self).wf(),
        ensures
            final(self).wf(),
            final(self)@ == old(self)@.remove(id.0),
    {
        let n = self.entries.len();
        let mut i: usize = 0;
        while i < n
            invariant
                i <= n,
                n == self.entries@.len(),
                self == old(self),
                old(self).wf(),
                forall|l: int| 0 <= l < i ==> (#[trigger] self.entries@[l]).0.0 != id.0,
            decreases n - i,
        {
            let e = self.entries[i];
            if e.0.0 == id.0 {
                self.entries.remove(i);
                proof {
                    lemma_map_of_remove(old(self).entries@, i as int);
                    assert forall|a: int, b: int|
                        0 <= a < b < self.entries@.len() implies (#[trigger] self.entries@[a]).0.0
                        != (#[trigger] self.entries@[b]).0.0 by {
                        let a0 = if a < i { a } else { a + 1 };
                        let b0 = if b < i { b } else { b + 1 };
                        assert(self.entries@[a] == old(self).entries@[a0]);
                        assert(self.entries@[b] == old(self).entries@[b0]);
                        assert(old(self).entries@[a0].0.0 != old(self).entries@[b0].0.0);
                    }
                }
                return;
            }
            i = i + 1;
        }
        proof {
            lemma_map_of_props(self.entries@);
            assert(!self@.dom().contains(id.0));
            assert(self@ =~= self@.remove(id.0));
        }
    }

    /// Is `id` currently recorded?
    pub fn contains(&self, id: ClientId) -> (r: bool)
        requires
            self.wf(),
        ensures
            r == self@.dom().contains(id.0),
    {
        let n = self.entries.len();
        let mut i: usize = 0;
        proof {
            lemma_map_of_props(self.entries@);
        }
        while i < n
            invariant
                i <= n,
                n == self.entries@.len(),
                self.wf(),
                forall|l: int| 0 <= l < i ==> (#[trigger] self.entries@[l]).0.0 != id.0,
                forall|k: u128| #[trigger]
                    self@.dom().contains(k) <==> exists|l: int|
                        0 <= l < self.entries@.len() && (#[trigger] self.entries@[l]).0.0 == k,
            decreases n - i,
        {
            let e = self.entries[i];
            if e.0.0 == id.0 {
                return true;
            }
            i = i + 1;
        }
        false
    }

    /// The token recorded for `id`, when there is one.
    pub fn lookup(&self, id: ClientId) -> (r: Option<usize>)
        requires
            self.wf(),
        ensures
            match r {
                Some(token) => self@.dom().contains(id.0) && self@[id.0] == token,
                None => !self@.dom().contains(id.0),
            },
    {
        let n = self.entries.len();
        let mut i: usize = 0;
        proof {
            lemma_map_of_props(self.entries@);
        }
        while i < n
            invariant
                i <= n,
                n == self.entries@.len(),
                self.wf(),
                forall|l: int| 0 <= l < i ==> (#[trigger] self.entries@[l]).0.0 != id.0,
                forall|k: u128| #[trigger]
                    self@.dom().contains(k) <==> exists|l: int|
                        0 <= l < self.entries@.len() && (#[trigger] self.entries@[l]).0.0 == k,
                forall|l: int|
                    0 <= l < self.entries@.len() ==> self@.dom().contains(
                        (#[trigger] self.entries@[l]).0.0,
                    ) && self@[self.entries@[l].0.0] == self.entries@[l].1,
            decreases n - i,
        {
            let e = self.entries[i];
            if e.0.0 == id.0 {
                return Some(e.1);
            }
            i = i + 1;
        }
        None
    }
}

/// Replacing the entry that already holds a key is the map's `insert`.
proof fn lemma_map_of_update(s: Seq<(ClientId, usize)>, i: int, id: ClientId, token: usize)
    requires
        0 <= i < s.len(),
        s[i].0.0 == id.0,
        forall|a: int, b: int| 0 <= a < b < s.len() ==> (#[trigger] s[a]).0.0 != (#[trigger] s[b]).0.0,
    ensures
        map_of(s.update(i, (id, token))) == map_of(s).insert(id.0, token),
    decreases s.len(),
{
    let u = s.update(i, (id, token));
    if i == s.len() - 1 {
        assert(u.drop_last() =~= s.drop_last());
        assert(u.last() == (id, token));
        assert(map_of(u) =~= map_of(s).insert(id.0, token));
    } else {
        assert(u.drop_last() =~= s.drop_last().update(i, (id, token)));
        assert(u.last() == s.last());
        assert(forall|a: int, b: int|
            0 <= a < b < s.drop_last().len() ==> (#[trigger] s.drop_last()[a]).0.0 != (
            #[trigger] s.drop_last()[b]).0.0);
        assert(s.drop_last()[i] == s[i]);
        lemma_map_of_update(s.drop_last(), i, id, token);
        assert(s.last().0.0 != id.0);
        assert(map_of(u) =~= map_of(s).insert(id.0, token));
    }
}

/// Removing the entry that holds a key is the map's `remove`.
proof fn lemma_map_of_remove(s: Seq<(ClientId, usize)>, i: int)
    requires
        0 <= i < s.len(),
        forall|a: int, b: int| 0 <= a < b < s.len() ==> (#[trigger] s[a]).0.0 != (#[trigger] s[b]).0.0,
    ensures
        map_of(s.remove(i)) == map_of(s).remove(s[i].0.0),
    decreases s.len(),
{
    let r = s.remove(i);
    let key = s[i].0.0;
    if i == s.len() - 1 {
        assert(r =~= s.drop_last());
        lemma_map_of_props(s.drop_last());
        assert(forall|a: int, b: int|
            0 <= a < b < s.drop_last().len() ==> (#[trigger] s.drop_last()[a]).0.0 != (
            #[trigger] s.drop_last()[b]).0.0);
        assert(forall|l: int| 0 <= l < s.drop_last().len() ==> (#[trigger] s.drop_last()[l]).0.0 != key);
        assert(!map_of(s.drop_last()).dom().contains(key));
        assert(map_of(r) =~= map_of(s).remove(key));
    } else {
        assert(r.drop_last() =~= s.drop_last().remove(i));
        assert(r.last() == s.last());
        assert(forall|a: int, b: int|
            0 <= a < b < s.drop_last().len() ==> (#[trigger] s.drop_last()[a]).0.0 != (
            #[trigger] s.drop_last()[b]).0.0);
        assert(s.drop_last()[i] == s[i]);
        lemma_map_of_remove(s.drop_last(), i);
        assert(s.last().0.0 != key);
        assert(map_of(r) =~= map_of(s).remove(key));
    }
}

/// What the map knows, entry by entry, when identifiers are distinct.
proof fn lemma_map_of_props(s: Seq<(ClientId, usize)>)
    requires
        forall|a: int, b: int| 0 <= a < b < s.len() ==> (#[trigger] s[a]).0.0 != (#[trigger] s[b]).0.0,
    ensures
        forall|k: u128| #[trigger]
            map_of(s).dom().contains(k) <==> exists|l: int|
                0 <= l < s.len() && (#[trigger] s[l]).0.0 == k,
        forall|l: int|
            0 <= l < s.len() ==> map_of(s).dom().contains((#[trigger] s[l]).0.0) && map_of(s)[s[l].0.0]
                == s[l].1,
    decreases s.len(),
{
    if s.len() > 0 {
        assert(forall|a: int, b: int|
            0 <= a < b < s.drop_last().len() ==> (#[trigger] s.drop_last()[a]).0.0 != (
            #[trigger] s.drop_last()[b]).0.0);
        lemma_map_of_props(s.drop_last());
        assert(forall|l: int| 0 <= l < s.len() - 1 ==> s.drop_last()[l] == (#[trigger] s[l]));
        assert forall|k: u128| #[trigger]
            map_of(s).dom().contains(k) implies exists|l: int|
            0 <= l < s.len() && (#[trigger] s[l]).0.0 == k by {
            if k == s.last().0.0 {
                assert(s[s.len() - 1].0.0 == k);
            } else {
                assert(map_of(s.drop_last()).dom().contains(k));
                let l = choose|l: int| 0 <= l < s.drop_last().len() && (#[trigger] s.drop_last()[l]).0.0 == k;
                assert(s[l].0.0 == k);
            }
        }
        assert forall|l: int| 0 <= l < s.len() implies map_of(s).dom().contains(
            (#[trigger] s[l]).0.0,
        ) && map_of(s)[s[l].0.0] == s[l].1 by {
            if l == s.len() - 1 {
            } else {
                assert(s.drop_last()[l] == s[l]);
                assert(s[l].0.0 != s.last().0.0);
            }
        }
    }
}

} // verus!
