use vstd::prelude::*;

verus! {

/// Outcome of a `put` into the global metadata store: the record was written,
/// or an occupant was left untouched.
#[derive(Copy, Clone, Debug, Eq, PartialEq, Structural)]
pub enum PutStatus {
    Okay,
    Exists,
}

impl PutStatus {
    /// Turns `Exists` into the caller's error, built by `f`; `Okay` passes.
    pub fn to_err<E, F: FnOnce() -> E>(&self, f: F) -> (r: Result<(), E>)
        requires
            *self is Exists ==> call_requires(f, ()),
        ensures
            r is Err <==> *self is Exists,
            r matches Err(e) ==> call_ensures(f, (), e),
    {
        if self == &PutStatus::Exists {
            Err(f())
        } else {
            Ok(())
        }
    }
}

impl PutStatus {
    /// True exactly when the status reports an already-occupied slot.
    pub fn already_exists(&self) -> (r: bool)
        ensures
            r == (*self is Exists),
    {
        matches!(self, PutStatus::Exists)
    }
}

/// A peer node of the distributed filesystem, as the store records it.
pub struct Peer {
    pub addr: String,
}

/// A root the store knows by a unique identifier and, by expectation, a
/// unique name.
pub struct StorableRoot {
    pub name: String,
    pub path: String,
}

/// The record stored under `id` in an association list where the latest
/// entry for a key wins.
pub open spec fn seq_get<V>(s: Seq<(u128, V)>, id: u128) -> Option<V>
    decreases s.len(),
{
    if s.len() == 0 {
        None
    } else if s.last().0 == id {
        Some(s.last().1)
    } else {
        seq_get(s.drop_last(), id)
    }
}

/// No identifier appears twice.
pub open spec fn distinct_keys<V>(s: Seq<(u128, V)>) -> bool {
    forall|i: int, j: int| 0 <= i < j < s.len() ==> (#[trigger] s[i]).0 != (#[trigger] s[j]).0
}

proof fn lemma_seq_get_found<V>(s: Seq<(u128, V)>, i: int)
    requires
        distinct_keys(s),
        0 <= i < s.len(),
    ensures
        seq_get(s, s[i].0) == Some(s[i].1),
    decreases s.len(),
{
    if i < s.len() - 1 {
        assert(s.last().0 != s[i].0);
        assert forall|a: int, b: int| 0 <= a < b < s.drop_last().len() implies (
        #[trigger] s.drop_last()[a]).0 != (#[trigger] s.drop_last()[b]).0 by {
            assert(s.drop_last()[a] == s[a] && s.drop_last()[b] == s[b]);
        }
        lemma_seq_get_found(s.drop_last(), i);
        assert(s.drop_last()[i] == s[i]);
    }
}

proof fn lemma_seq_get_some_index<V>(s: Seq<(u128, V)>, id: u128)
    requires
        seq_get(s, id) is Some,
    ensures
        exists|i: int|
            0 <= i < s.len() && (#[trigger] s[i]).0 == id && s[i].1 == seq_get(s, id).unwrap(),
    decreases s.len(),
{
    if s.len() > 0 && s.last().0 != id {
        lemma_seq_get_some_index(s.drop_last(), id);
        let i = choose|i: int|
            0 <= i < s.drop_last().len() && (#[trigger] s.drop_last()[i]).0 == id
                && s.drop_last()[i].1 == seq_get(s.drop_last(), id).unwrap();
        assert(s[i] == s.drop_last()[i]);
    }
}

proof fn lemma_seq_get_update<V>(s: Seq<(u128, V)>, i: int, id: u128, v: V)
    requires
        distinct_keys(s),
        0 <= i < s.len(),
        s[i].0 == id,
    ensures
        distinct_keys(s.update(i, (id, v))),
        seq_get(s.update(i, (id, v)), id) == Some(v),
        forall|id2: u128|
            id2 != id ==> #[trigger] seq_get(s.update(i, (id, v)), id2) == seq_get(s, id2),
    decreases s.len(),
{
    let t = s.update(i, (id, v));
    assert forall|a: int, b: int| 0 <= a < b < t.len() implies (#[trigger] t[a]).0 != (
    #[trigger] t[b]).0 by {
        assert(s[a].0 == t[a].0 && s[b].0 == t[b].0);
    }
    if i == s.len() - 1 {
        assert(t.last() == (id, v));
        assert(t.drop_last() =~= s.drop_last());
    } else {
        assert(t.last() == s.last());
        assert(t.drop_last() =~= s.drop_last().update(i, (id, v)));
        assert forall|a: int, b: int| 0 <= a < b < s.drop_last().len() implies (
        #[trigger] s.drop_last()[a]).0 != (#[trigger] s.drop_last()[b]).0 by {
            assert(s.drop_last()[a] == s[a] && s.drop_last()[b] == s[b]);
        }
        assert(s.drop_last()[i] == s[i]);
        lemma_seq_get_update(s.drop_last(), i, id, v);
        assert(s.last().0 != id);
        assert forall|id2: u128| id2 != id implies #[trigger] seq_get(t, id2) == seq_get(
            s,
            id2,
        ) by {
            if t.last().0 != id2 {
                assert(seq_get(t, id2) == seq_get(t.drop_last(), id2));
            }
        }
    }
}

/// The key-value metadata store for peer and root records.  `put` writes
/// the record under `id`, unless the slot is occupied and `overwrite` is
/// false, in which case the stored record is left untouched and `Exists`
/// comes back.
pub trait GlobalStore: Sized {
    type Error;

    /// The store's own consistency condition.
    spec fn inv(&self) -> bool;

    /// The peer stored under `id`, if any.
    spec fn spec_get_peer(&self, id: u128) -> Option<Peer>;

    /// The root stored under `id`, if any.
    spec fn spec_get_root(&self, id: u128) -> Option<StorableRoot>;

    /// The identifiers under which peers are stored, each once, in the
    /// order `get_all_peers` reports them.
    spec fn peer_ids(&self) -> Seq<u128>;

    /// The identifiers under which roots are stored, each once, in the
    /// order `get_all_roots` reports them.
    spec fn root_ids(&self) -> Seq<u128>;

    fn put_peer(&mut self, id: u128, peer: &Peer, overwrite: bool) -> (r: Result<
        PutStatus,
        Self::Error,
    >)
        requires
            old(self).inv(),
        ensures
            final(self).inv(),
            r matches Ok(s) ==> {
                &&& (s is Exists) <==> (!overwrite && old(self).spec_get_peer(id) is Some)
                &&& (s is Exists) ==> *final(self) == *old(self)
                &&& (s is Okay) ==> final(self).spec_get_peer(id) == Some(*peer)
                &&& forall|id2: u128|
                    id2 != id ==> #[trigger] final(self).spec_get_peer(id2) == old(
                        self,
                    ).spec_get_peer(id2)
                &&& forall|id2: u128|
                    #[trigger] final(self).spec_get_root(id2) == old(self).spec_get_root(id2)
            },
    ;

    fn get_peer(&self, id: u128) -> (r: Result<Option<Peer>, Self::Error>)
        requires
            self.inv(),
        ensures
            r matches Ok(p) ==> p == self.spec_get_peer(id),
    ;

    fn get_all_peers(&self) -> (r: Result<Vec<Peer>, Self::Error>)
        requires
            self.inv(),
        ensures
            r matches Ok(v) ==> {
                &&& v@.len() == self.peer_ids().len()
                &&& forall|i: int|
                    0 <= i < v@.len() ==> #[trigger] self.spec_get_peer(self.peer_ids()[i])
                        == Some(v@[i])
            },
    ;

    fn put_root(&mut self, id: u128, root: &StorableRoot, overwrite: bool) -> (r: Result<
        PutStatus,
        Self::Error,
    >)
        requires
            old(self).inv(),
        ensures
            final(self).inv(),
            r matches Ok(s) ==> {
                &&& (s is Exists) <==> (!overwrite && old(self).spec_get_root(id) is Some)
                &&& (s is Exists) ==> *final(self) == *old(self)
                &&& (s is Okay) ==> final(self).spec_get_root(id) == Some(*root)
                &&& forall|id2: u128|
                    id2 != id ==> #[trigger] final(self).spec_get_root(id2) == old(
                        self,
                    ).spec_get_root(id2)
                &&& forall|id2: u128|
                    #[trigger] final(self).spec_get_peer(id2) == old(self).spec_get_peer(id2)
            },
    ;

    fn get_root(&self, id: u128) -> (r: Result<Option<StorableRoot>, Self::Error>)
        requires
            self.inv(),
        ensures
            r matches Ok(p) ==> p == self.spec_get_root(id),
    ;

    fn get_root_by_name(&self, name: &String) -> (r: Result<Option<StorableRoot>, Self::Error>)
        requires
            self.inv(),
        ensures
            r matches Ok(p) ==> match p {
                Some(root) => root.name@ == name@ && exists|id: u128|
                    #[trigger] self.spec_get_root(id) == Some(root),
                None => forall|id: u128|
                    (#[trigger] self.spec_get_root(id)) matches Some(rt) ==> rt.name@ != name@,
            },
    ;

    fn get_all_roots(&self) -> (r: Result<Vec<StorableRoot>, Self::Error>)
        requires
            self.inv(),
        ensures
            r matches Ok(v) ==> {
                &&& v@.len() == self.root_ids().len()
                &&& forall|i: int|
                    0 <= i < v@.len() ==> #[trigger] self.spec_get_root(self.root_ids()[i])
                        == Some(v@[i])
            },
    ;
}

/// The in-memory store: two association lists with distinct identifiers.
pub struct MemStore {
    peers: Vec<(u128, Peer)>,
    roots: Vec<(u128, StorableRoot)>,
}

impl MemStore {
    /// An empty store.
    pub fn new() -> (r: MemStore)
        ensures
            r.inv(),
            forall|id: u128| #[trigger] r.spec_get_peer(id) is None,
            forall|id: u128| #[trigger] r.spec_get_root(id) is None,
    {
        MemStore { peers: Vec::new(), roots: Vec::new() }
    }

    fn find_peer(&self, id: u128) -> (r: Option<usize>)
        ensures
            match r {
                Some(i) => i < self.peers@.len() && self.peers@[i as int].0 == id && seq_get(
                    self.peers@,
                    id,
                ) == Some(self.peers@[i as int].1),
                None => seq_get(self.peers@, id) is None && forall|m: int|
                    0 <= m < self.peers@.len() ==> (#[trigger] self.peers@[m]).0 != id,
            },
    {
        let mut k = self.peers.len();
        proof {
            assert(self.peers@.take(self.peers@.len() as int) =~= self.peers@);
        }
        while k > 0
            invariant
                k <= self.peers@.len(),
                seq_get(self.peers@, id) == seq_get(self.peers@.take(k as int), id),
                forall|m: int| k <= m < self.peers@.len() ==> (#[trigger] self.peers@[m]).0 != id,
            decreases k,
        {
            proof {
                assert(self.peers@.take(k as int).last() == self.peers@[k - 1]);
                assert(self.peers@.take(k as int).drop_last() =~= self.peers@.take(k - 1));
            }
            if self.peers[k - 1].0 == id {
                return Some(k - 1);
            }
            k = k - 1;
        }
        proof {
            assert(self.peers@.take(0) =~= Seq::<(u128, Peer)>::empty());
        }
        None
    }

    fn find_root(&self, id: u128) -> (r: Option<usize>)
        ensures
            match r {
                Some(i) => i < self.roots@.len() && self.roots@[i as int].0 == id && seq_get(
                    self.roots@,
                    id,
                ) == Some(self.roots@[i as int].1),
                None => seq_get(self.roots@, id) is None && forall|m: int|
                    0 <= m < self.roots@.len() ==> (#[trigger] self.roots@[m]).0 != id,
            },
    {
        let mut k = self.roots.len();
        proof {
            assert(self.roots@.take(self.roots@.len() as int) =~= self.roots@);
        }
        while k > 0
            invariant
                k <= self.roots@.len(),
                seq_get(self.roots@, id) == seq_get(self.roots@.take(k as int), id),
                forall|m: int| k <= m < self.roots@.len() ==> (#[trigger] self.roots@[m]).0 != id,
            decreases k,
        {
            proof {
                assert(self.roots@.take(k as int).last() == self.roots@[k - 1]);
                assert(self.roots@.take(k as int).drop_last() =~= self.roots@.take(k - 1));
            }
            if self.roots[k - 1].0 == id {
                return Some(k - 1);
            }
            k = k - 1;
        }
        proof {
            assert(self.roots@.take(0) =~= Seq::<(u128, StorableRoot)>::empty());
        }
        None
    }
}

impl GlobalStore for MemStore {
    type Error = ();

    closed spec fn inv(&self) -> bool {
        distinct_keys(self.peers@) && distinct_keys(self.roots@)
    }

    closed spec fn spec_get_peer(&self, id: u128) -> Option<Peer> {
        seq_get(self.peers@, id)
    }

    closed spec fn spec_get_root(&self, id: u128) -> Option<StorableRoot> {
        seq_get(self.roots@, id)
    }

    closed spec fn peer_ids(&self) -> Seq<u128> {
        self.peers@.map_values(|p: (u128, Peer)| p.0)
    }

    closed spec fn root_ids(&self) -> Seq<u128> {
        self.roots@.map_values(|p: (u128, StorableRoot)| p.0)
    }

    fn put_peer(&mut self, id: u128, peer: &Peer, overwrite: bool) -> (r: Result<
        PutStatus,
        Self::Error,
    >)
        ensures
            r is Ok,
    {
        let found = self.find_peer(id);
        match found {
            Some(i) => {
                if overwrite {
                    self.peers[i] = (id, Peer { addr: peer.addr.clone() });
                    proof {
                        lemma_seq_get_update(old(self).peers@, i as int, id, *peer);
                    }
                    Ok(PutStatus::Okay)
                } else {
                    Ok(PutStatus::Exists)
                }
            },
            None => {
                self.peers.push((id, Peer { addr: peer.addr.clone() }));
                proof {
                    assert(self.peers@.drop_last() =~= old(self).peers@);
                }
                Ok(PutStatus::Okay)
            },
        }
    }

    fn get_peer(&self, id: u128) -> (r: Result<Option<Peer>, Self::Error>)
        ensures
            r is Ok,
    {
        match self.find_peer(id) {
            Some(i) => {
                let p = &self.peers[i];
                Ok(Some(Peer { addr: p.1.addr.clone() }))
            },
            None => Ok(None),
        }
    }

    fn get_all_peers(&self) -> (r: Result<Vec<Peer>, Self::Error>)
        ensures
            r is Ok,
    {
        let mut out: Vec<Peer> = Vec::new();
        let mut k: usize = 0;
        while k < self.peers.len()
            invariant
                self.inv(),
                k <= self.peers@.len(),
                out@.len() == k,
                forall|i: int|
                    0 <= i < k ==> #[trigger] self.spec_get_peer(self.peer_ids()[i]) == Some(
                        out@[i],
                    ),
            decreases self.peers@.len() - k,
        {
            proof {
                lemma_seq_get_found(self.peers@, k as int);
            }
            out.push(Peer { addr: self.peers[k].1.addr.clone() });
            proof {
                assert(out@.last() == self.peers@[k as int].1);
                assert(self.peer_ids()[k as int] == self.peers@[k as int].0);
                assert forall|i: int| 0 <= i < k as int + 1 implies #[trigger] self.spec_get_peer(
                    self.peer_ids()[i],
                ) == Some(out@[i]) by {
                    if i < k as int {
                        assert(out@[i] == out@.drop_last()[i]);
                    }
                }
            }
            k = k + 1;
        }
        Ok(out)
    }

    fn put_root(&mut self, id: u128, root: &StorableRoot, overwrite: bool) -> (r: Result<
        PutStatus,
        Self::Error,
    >)
        ensures
            r is Ok,
    {
        let found = self.find_root(id);
        match found {
            Some(i) => {
                if overwrite {
                    self.roots[i] = (
                        id,
                        StorableRoot { name: root.name.clone(), path: root.path.clone() },
                    );
                    proof {
                        lemma_seq_get_update(old(self).roots@, i as int, id, *root);
                    }
                    Ok(PutStatus::Okay)
                } else {
                    Ok(PutStatus::Exists)
                }
            },
            None => {
                self.roots.push(
                    (id, StorableRoot { name: root.name.clone(), path: root.path.clone() }),
                );
                proof {
                    assert(self.roots@.drop_last() =~= old(self).roots@);
                }
                Ok(PutStatus::Okay)
            },
        }
    }

    fn get_root(&self, id: u128) -> (r: Result<Option<StorableRoot>, Self::Error>)
        ensures
            r is Ok,
    {
        match self.find_root(id) {
            Some(i) => {
                let p = &self.roots[i];
                Ok(Some(StorableRoot { name: p.1.name.clone(), path: p.1.path.clone() }))
            },
            None => Ok(None),
        }
    }

    fn get_root_by_name(&self, name: &String) -> (r: Result<Option<StorableRoot>, Self::Error>)
        ensures
            r is Ok,
    {
        let mut k: usize = 0;
        while k < self.roots.len()
            invariant
                self.inv(),
                k <= self.roots@.len(),
                forall|m: int| 0 <= m < k ==> (#[trigger] self.roots@[m]).1.name@ != name@,
            decreases self.roots@.len() - k,
        {
            if self.roots[k].1.name.eq(name) {
                proof {
                    lemma_seq_get_found(self.roots@, k as int);
                }
                let p = &self.roots[k];
                let found = StorableRoot { name: p.1.name.clone(), path: p.1.path.clone() };
                proof {
                    assert(found == self.roots@[k as int].1);
                    assert(self.spec_get_root(self.roots@[k as int].0) == Some(found));
                }
                return Ok(Some(found));
            }
            k = k + 1;
        }
        proof {
            assert forall|id: u128| #[trigger] seq_get(self.roots@, id) is Some implies seq_get(
                self.roots@,
                id,
            ).unwrap().name@ != name@ by {
                lemma_seq_get_some_index(self.roots@, id);
            }
        }
        Ok(None)
    }

    fn get_all_roots(&self) -> (r: Result<Vec<StorableRoot>, Self::Error>)
        ensures
            r is Ok,
    {
        let mut out: Vec<StorableRoot> = Vec::new();
        let mut k: usize = 0;
        while k < self.roots.len()
            invariant
                self.inv(),
                k <= self.roots@.len(),
                out@.len() == k,
                forall|i: int|
                    0 <= i < k ==> #[trigger] self.spec_get_root(self.root_ids()[i]) == Some(
                        out@[i],
                    ),
            decreases self.roots@.len() - k,
        {
            proof {
                lemma_seq_get_found(self.roots@, k as int);
            }
            let p = &self.roots[k];
            out.push(StorableRoot { name: p.1.name.clone(), path: p.1.path.clone() });
            proof {
                assert(out@.last() == self.roots@[k as int].1);
                assert(self.root_ids()[k as int] == self.roots@[k as int].0);
                assert forall|i: int| 0 <= i < k as int + 1 implies #[trigger] self.spec_get_root(
                    self.root_ids()[i],
                ) == Some(out@[i]) by {
                    if i < k as int {
                        assert(out@[i] == out@.drop_last()[i]);
                    }
                }
            }
            k = k + 1;
        }
        Ok(out)
    }
}

} // verus!
