use vstd::prelude::*;
use vstd::seq_lib::*;

verus! {

/// What the registry records for one live connection: the session key once
/// the handshake has derived it, and the queue of serialized frames waiting
/// to be written to the peer's socket.
pub struct SessionEntry {
    pub key: Option<Seq<u8>>,
    pub queue: Seq<Seq<u8>>,
}

struct Slot {
    id: u64,
    key: Option<Vec<u8>>,
    queue: Vec<Vec<u8>>,
}

spec fn key_view(k: Option<Vec<u8>>) -> Option<Seq<u8>> {
    match k {
        Some(v) => Some(v@),
        None => None,
    }
}

impl Slot {
    spec fn view(&self) -> SessionEntry {
        SessionEntry { key: key_view(self.key), queue: self.queue@.map_values(|m: Vec<u8>| m@) }
    }
}

/// No two slots answer to the same identifier.
spec fn uniq(s: Seq<Slot>) -> bool {
    forall|i: int, j: int| 0 <= i < j < s.len() ==> s[i].id != s[j].id
}

/// The directory a sequence of slots stands for.
spec fn map_of(s: Seq<Slot>) -> Map<u64, SessionEntry> {
    Map::new(
        |id: u64| exists|i: int| 0 <= i < s.len() && s[i].id == id,
        |id: u64| s[choose|i: int| 0 <= i < s.len() && s[i].id == id].view(),
    )
}

/// The directory of live connections, keyed by a peer identifier that is
/// unique while the peer stays connected. One entry is inserted when a
/// connection is accepted, its key is set exactly once when the handshake
/// completes, and the entry is removed exactly once on teardown.
///
/// The registry itself is a plain value; callers that share it across
/// threads serialize every operation under one lock.
pub struct Registry {
    slots: Vec<Slot>,
}

impl View for Registry {
    type V = Map<u64, SessionEntry>;

    closed spec fn view(&self) -> Map<u64, SessionEntry> {
        map_of(self.slots@)
    }
}

/// After an update of the slot at `i` that keeps its identifier and every
/// other slot, the directory is the old one with that identifier remapped.
proof fn lemma_update_at(olds: Seq<Slot>, news: Seq<Slot>, i: int)
    requires
        uniq(olds),
        0 <= i < olds.len(),
        news.len() == olds.len(),
        news[i].id == olds[i].id,
        forall|j: int| 0 <= j < olds.len() && j != i ==> news[j] == olds[j],
    ensures
        uniq(news),
        map_of(news) == map_of(olds).insert(olds[i].id, news[i].view()),
{
    let id = olds[i].id;
    assert(forall|j: int| 0 <= j < news.len() ==> news[j].id == olds[j].id);
    assert(uniq(news));
    assert forall|x: u64| map_of(news).dom().contains(x) implies map_of(olds).dom().contains(
        x,
    ) by {
        let w = choose|k: int| 0 <= k < news.len() && news[k].id == x;
        assert(olds[w].id == x);
    }
    assert forall|x: u64| map_of(olds).dom().contains(x) implies map_of(news).dom().contains(
        x,
    ) by {
        let w = choose|k: int| 0 <= k < olds.len() && olds[k].id == x;
        assert(news[w].id == x);
    }
    assert forall|x: u64|
        map_of(news).dom().contains(x) && x != id implies map_of(news)[x] == map_of(olds)[x] by {
        let w = choose|k: int| 0 <= k < news.len() && news[k].id == x;
        assert(w != i);
        let w2 = choose|k: int| 0 <= k < olds.len() && olds[k].id == x;
        assert(w2 == w);
        assert(news[w] == olds[w]);
    }
    assert(news[i].id == id);
    assert(map_of(news).dom().contains(id));
    let w = choose|k: int| 0 <= k < news.len() && news[k].id == id;
    assert(w == i);
    assert(map_of(news) =~= map_of(olds).insert(id, news[i].view()));
}

impl Registry {
    /// The registry invariant, preserved by every operation.
    pub closed spec fn inv(&self) -> bool {
        uniq(self.slots@)
    }

    /// An empty directory.
    pub fn new() -> (r: Registry)
        ensures
            r.inv(),
            r@ == Map::<u64, SessionEntry>::empty(),
    {
        let r = Registry { slots: Vec::new() };
        proof {
            assert(r@ =~= Map::<u64, SessionEntry>::empty());
        }
        r
    }

    fn position(&self, id: u64) -> (r: Option<usize>)
        requires
            self.inv(),
        ensures
            (match r {
                Some(i) => i < self.slots@.len() && self.slots@[i as int].id == id
                    && self@.dom().contains(id) && self@[id] == self.slots@[i as int].view(),
                None => !self@.dom().contains(id),
            }),
    {
        let mut i: usize = 0;
        while i < self.slots.len()
            invariant
                i <= self.slots@.len(),
                self.inv(),
                forall|j: int| 0 <= j < i ==> self.slots@[j].id != id,
            decreases self.slots@.len() - i,
        {
            if self.slots[i].id == id {
                proof {
                    assert(self@.dom().contains(id));
                    let w = choose|k: int|
                        0 <= k < self.slots@.len() && self.slots@[k].id == id;
                    assert(w == i);
                }
                return Some(i);
            }
            i = i + 1;
        }
        None
    }

    /// Whether a connection with this identifier is currently registered.
    pub fn contains(&self, id: u64) -> (r: bool)
        requires
            self.inv(),
        ensures
            r == self@.dom().contains(id),
    {
        self.position(id).is_some()
    }

    /// Register a newly accepted connection, before its handshake has run:
    /// no key, nothing queued. Refused if the identifier is already live.
    pub fn insert(&mut self, id: u64) -> (r: bool)
        requires
            old(self).inv(),
        ensures
            final(self).inv(),
            r == !old(self)@.dom().contains(id),
            r ==> final(self)@ == old(self)@.insert(
                id,
                (SessionEntry { key: None, queue: Seq::empty() }),
            ),
            !r ==> final(self)@ == old(self)@,
    {
        if self.position(id).is_some() {
            return false;
        }
        let ghost olds = self.slots@;
        self.slots.push(Slot { id, key: None, queue: Vec::new() });
        proof {
            let s = self.slots@;
            assert forall|x: u64| map_of(olds).dom().contains(x) implies map_of(
                s,
            ).dom().contains(x) by {
                let w = choose|k: int| 0 <= k < olds.len() && olds[k].id == x;
                assert(s[w].id == x);
            }
            assert forall|x: u64|
                map_of(s).dom().contains(x) && x != id implies map_of(olds).dom().contains(x)
                && map_of(s)[x] == map_of(olds)[x] by {
                let w = choose|k: int| 0 <= k < s.len() && s[k].id == x;
                assert(w < olds.len() && olds[w].id == x);
                let w2 = choose|k: int| 0 <= k < olds.len() && olds[k].id == x;
                assert(w2 == w);
            }
            assert(s[s.len() - 1].id == id);
            assert(self@.dom().contains(id));
            let w = choose|k: int| 0 <= k < s.len() && s[k].id == id;
            assert(w == s.len() - 1);
            assert(s[w].view().queue =~= Seq::<Seq<u8>>::empty());
            assert(self@[id] == (SessionEntry { key: None, queue: Seq::empty() }));
            assert(self@ =~= old(self)@.insert(id, (SessionEntry { key: None, queue: Seq::empty() })));
        }
        true
    }

    /// Record the session key derived for this connection. The key is
    /// write-once: a second attempt, or one for an unknown connection, is
    /// refused and changes nothing.
    pub fn set_key(&mut self, id: u64, key: Vec<u8>) -> (r: bool)
        requires
            old(self).inv(),
        ensures
            final(self).inv(),
            r == (old(self)@.dom().contains(id) && old(self)@[id].key is None),
            r ==> final(self)@ == old(self)@.insert(
                id,
                (SessionEntry { key: Some(key@), queue: old(self)@[id].queue }),
            ),
            !r ==> final(self)@ == old(self)@,
    {
        let ghost olds = self.slots@;
        match self.position(id) {
            None => false,
            Some(i) => {
                if self.slots[i].key.is_some() {
                    return false;
                }
                let mut slot = self.slots.remove(i);
                slot.key = Some(key);
                self.slots.insert(i, slot);
                proof {
                    assert(self.slots@ =~= olds.update(i as int, self.slots@[i as int]));
                    lemma_update_at(olds, self.slots@, i as int);
                    assert(self.slots@[i as int].view().queue == olds[i as int].view().queue);
                }
                true
            },
        }
    }

    /// Queue one serialized frame for the outbound pump of this connection.
    /// Refused if the connection is no longer registered.
    pub fn push_outbound(&mut self, id: u64, msg: Vec<u8>) -> (r: bool)
        requires
            old(self).inv(),
        ensures
            final(self).inv(),
            r == old(self)@.dom().contains(id),
            r ==> final(self)@ == old(self)@.insert(
                id,
                (SessionEntry { key: old(self)@[id].key, queue: old(self)@[id].queue.push(msg@) }),
            ),
            !r ==> final(self)@ == old(self)@,
    {
        let ghost olds = self.slots@;
        let ghost mv = msg@;
        match self.position(id) {
            None => false,
            Some(i) => {
                let mut slot = self.slots.remove(i);
                slot.queue.push(msg);
                self.slots.insert(i, slot);
                proof {
                    assert(self.slots@ =~= olds.update(i as int, self.slots@[i as int]));
                    lemma_update_at(olds, self.slots@, i as int);
                    assert(self.slots@[i as int].view().queue =~= olds[i as int].view().queue.push(
                        mv,
                    ));
                }
                true
            },
        }
    }

    /// Hand back the oldest queued frame for this connection, in the order
    /// the frames were queued.
    pub fn pop_outbound(&mut self, id: u64) -> (r: Option<Vec<u8>>)
        requires
            old(self).inv(),
        ensures
            final(self).inv(),
            (match r {
                Some(m) => old(self)@.dom().contains(id) && old(self)@[id].queue.len() > 0 && m@
                    == old(self)@[id].queue[0] && final(self)@ == old(self)@.insert(
                    id,
                    (SessionEntry {
                        key: old(self)@[id].key,
                        queue: old(self)@[id].queue.skip(1),
                    }),
                ),
                None => final(self)@ == old(self)@ && (!old(self)@.dom().contains(id) || old(
                    self,
                )@[id].queue.len() == 0),
            }),
    {
        let ghost olds = self.slots@;
        match self.position(id) {
            None => None,
            Some(i) => {
                if self.slots[i].queue.len() == 0 {
                    return None;
                }
                let mut slot = self.slots.remove(i);
                let m = slot.queue.remove(0);
                self.slots.insert(i, slot);
                proof {
                    assert(self.slots@ =~= olds.update(i as int, self.slots@[i as int]));
                    lemma_update_at(olds, self.slots@, i as int);
                    assert(self.slots@[i as int].view().queue =~= olds[i as int].view().queue.skip(
                        1,
                    ));
                }
                Some(m)
            },
        }
    }

    /// Look up the session key of this connection, if one has been set.
    pub fn get_key(&self, id: u64) -> (r: Option<Vec<u8>>)
        requires
            self.inv(),
        ensures
            (match r {
                Some(k) => self@.dom().contains(id) && self@[id].key == Some(k@),
                None => !self@.dom().contains(id) || self@[id].key is None,
            }),
    {
        match self.position(id) {
            None => None,
            Some(i) => {
                match &self.slots[i].key {
                    Some(k) => {
                        let r = k.clone();
                        proof {
                            assert(r@ =~= self.slots@[i as int].view().key.unwrap());
                        }
                        Some(r)
                    },
                    None => None,
                }
            },
        }
    }

    /// Evict a connection on teardown. Refused (and a no-op) if it was
    /// already removed, so teardown cannot evict twice.
    pub fn remove(&mut self, id: u64) -> (r: bool)
        requires
            old(self).inv(),
        ensures
            final(self).inv(),
            r == old(self)@.dom().contains(id),
            final(self)@ == old(self)@.remove(id),
    {
        let ghost olds = self.slots@;
        match self.position(id) {
            None => {
                proof {
                    assert(self@ =~= old(self)@.remove(id));
                }
                false
            },
            Some(i) => {
                self.slots.remove(i);
                proof {
                    let s = self.slots@;
                    assert(forall|j: int| 0 <= j < i ==> s[j] == olds[j]);
                    assert(forall|j: int| i <= j < s.len() ==> s[j] == olds[j + 1]);
                    assert(uniq(s));
                    assert forall|x: u64|
                        map_of(s).dom().contains(x) implies map_of(olds).dom().contains(x) && x
                        != id && map_of(s)[x] == map_of(olds)[x] by {
                        let w = choose|k: int| 0 <= k < s.len() && s[k].id == x;
                        let wo: int = if w < i {
                            w
                        } else {
                            w + 1
                        };
                        assert(olds[wo].id == x);
                        assert(wo != i);
                        let w2 = choose|k: int| 0 <= k < olds.len() && olds[k].id == x;
                        assert(w2 == wo);
                        assert(s[w] == olds[wo]);
                    }
                    assert forall|x: u64|
                        map_of(olds).dom().contains(x) && x != id implies map_of(
                        s,
                    ).dom().contains(x) by {
                        let w = choose|k: int| 0 <= k < olds.len() && olds[k].id == x;
                        assert(w != i);
                        if w < i {
                            assert(s[w].id == x);
                        } else {
                            assert(s[w - 1].id == x);
                        }
                    }
                    assert(self@ =~= old(self)@.remove(id));
                }
                true
            },
        }
    }

    /// How many connections are currently registered: exactly the live,
    /// never-removed ones.
    pub fn len(&self) -> (r: usize)
        requires
            self.inv(),
        ensures
            r == self@.dom().len(),
            self@.dom().finite(),
    {
        proof {
            self.lemma_dom_len();
        }
        self.slots.len()
    }

    /// The identifiers of every registered connection, each exactly once:
    /// a consistent snapshot for broadcast fan-out.
    pub fn ids(&self) -> (r: Vec<u64>)
        requires
            self.inv(),
        ensures
            r@.no_duplicates(),
            forall|x: u64| #[trigger] r@.contains(x) <==> self@.dom().contains(x),
    {
        let mut r: Vec<u64> = Vec::new();
        let mut i: usize = 0;
        while i < self.slots.len()
            invariant
                i <= self.slots@.len(),
                self.inv(),
                r@.len() == i,
                forall|j: int| 0 <= j < i ==> r@[j] == self.slots@[j].id,
            decreases self.slots@.len() - i,
        {
            let x = self.slots[i].id;
            r.push(x);
            i = i + 1;
        }
        proof {
            assert forall|x: u64| #[trigger] r@.contains(x) implies self@.dom().contains(x) by {
                let j = choose|j: int| 0 <= j < r@.len() && r@[j] == x;
                assert(self.slots@[j].id == x);
            }
            assert forall|x: u64| self@.dom().contains(x) implies r@.contains(x) by {
                let j = choose|j: int| 0 <= j < self.slots@.len() && self.slots@[j].id == x;
                assert(r@[j] == x);
            }
            assert(r@.no_duplicates()) by {
                assert forall|j: int, k: int|
                    0 <= j < r@.len() && 0 <= k < r@.len() && j != k implies r@[j] != r@[k] by {
                    assert(r@[j] == self.slots@[j].id && r@[k] == self.slots@[k].id);
                }
            }
        }
        r
    }

    /// The directory's domain is exactly one identifier per slot.
    proof fn lemma_dom_len(&self)
        requires
            self.inv(),
        ensures
            self@.dom().finite(),
            self@.dom().len() == self.slots@.len(),
    {
        let ids = self.slots@.map_values(|s: Slot| s.id);
        assert(ids.no_duplicates()) by {
            assert forall|j: int, k: int|
                0 <= j < ids.len() && 0 <= k < ids.len() && j != k implies ids[j] != ids[k] by {
                assert(ids[j] == self.slots@[j].id && ids[k] == self.slots@[k].id);
            }
        }
        ids.unique_seq_to_set();
        assert(self@.dom() =~= ids.to_set()) by {
            assert forall|x: u64| self@.dom().contains(x) implies ids.to_set().contains(x) by {
                let w = choose|k: int| 0 <= k < self.slots@.len() && self.slots@[k].id == x;
                assert(ids[w] == x);
            }
            assert forall|x: u64| ids.to_set().contains(x) implies self@.dom().contains(x) by {
                let w = choose|k: int| 0 <= k < ids.len() && ids[k] == x;
                assert(self.slots@[w].id == x);
            }
        }
    }
}

} // verus!
