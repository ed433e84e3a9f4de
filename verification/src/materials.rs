//! Reference counting of global materials: a global material is shared by
//! the materials that use it, registered in the render graph while it is
//! used, and unregistered when its last user goes.

use vstd::prelude::*;

verus! {

/// A global material: how many materials use it and whether its nodes are
/// registered in the render graph.
#[derive(PartialEq, Eq, Structural, Clone, Copy, Debug)]
pub struct GlobalMaterialData {
    pub refcount: usize,
    pub registered: bool,
}

/// The global materials, by type key, with the types whose nodes are to be
/// registered and those whose nodes are to be removed from the render graph.
pub struct GlobalMaterials {
    datas: Vec<(u64, GlobalMaterialData)>,
    register_queue: Vec<u64>,
    unregister_queue: Vec<u64>,
}

/// `s` holds no key twice.
pub open spec fn distinct_keys(s: Seq<u64>) -> bool {
    forall|i: int, j: int| 0 <= i < j < s.len() ==> s[i] != s[j]
}

/// Position of `key` in `v`, if there.
fn key_position(v: &Vec<u64>, key: u64) -> (r: Option<usize>)
    ensures
        r matches Some(i) ==> i < v@.len() && v@[i as int] == key,
        r is None ==> !v@.contains(key),
{
    let mut i: usize = 0;
    while i < v.len()
        invariant
            i <= v@.len(),
            forall|j: int| 0 <= j < i ==> v@[j] != key,
        decreases v@.len() - i,
    {
        if v[i] == key {
            return Some(i);
        }
        i = i + 1;
    }
    None
}

/// Adds `key` to the set `v`.
fn key_insert(v: &mut Vec<u64>, key: u64)
    requires
        distinct_keys(old(v)@),
    ensures
        distinct_keys(final(v)@),
        final(v)@.to_set() == old(v)@.to_set().insert(key),
{
    match key_position(v, key) {
        Some(_) => {
            assert(v@.to_set() =~= v@.to_set().insert(key));
        },
        None => {
            let ghost before = v@;
            v.push(key);
            proof {
                before.lemma_push_to_set_commute(key);
                assert forall|i: int, j: int| 0 <= i < j < v@.len() implies v@[i] != v@[j] by {
                    if j == before.len() {
                        assert(v@[i] == before[i]);
                        assert(before.contains(before[i]));
                    }
                }
            }
        },
    }
}

/// Removes `key` from the set `v`.
fn key_remove(v: &mut Vec<u64>, key: u64)
    requires
        distinct_keys(old(v)@),
    ensures
        distinct_keys(final(v)@),
        final(v)@.to_set() == old(v)@.to_set().remove(key),
{
    match key_position(v, key) {
        Some(i) => {
            let ghost before = v@;
            v.swap_remove(i);
            proof {
                let last = before.len() - 1;
                assert forall|a: int, b: int| 0 <= a < b < v@.len() implies v@[a] != v@[b] by {
                    let a2 = if a == i && (i as int) < last { last } else { a };
                    let b2 = if b == i && (i as int) < last { last } else { b };
                    assert(v@[a] == before[a2] && v@[b] == before[b2]);
                }
                assert forall|y: u64| #[trigger] v@.to_set().contains(y) == before.to_set().remove(key).contains(y) by {
                    if v@.contains(y) {
                        let a = choose|a: int| 0 <= a < v@.len() && v@[a] == y;
                        let a2 = if a == i && (i as int) < last { last } else { a };
                        assert(before[a2] == y);
                        assert(a2 != i);
                    }
                    if before.contains(y) && y != key {
                        let a = choose|a: int| 0 <= a < before.len() && before[a] == y;
                        if a == last && (i as int) < last {
                            assert(v@[i as int] == y);
                        } else {
                            assert(a != i);
                            assert(v@[a] == y);
                        }
                    }
                }
                assert(v@.to_set() =~= before.to_set().remove(key));
            }
        },
        None => {
            assert(v@.to_set() =~= v@.to_set().remove(key));
        },
    }
}

impl GlobalMaterials {
    /// Each global material by key.
    pub closed spec fn materials(&self) -> Map<u64, GlobalMaterialData> {
        Map::new(
            |k: u64| exists|i: int| 0 <= i < self.datas@.len() && #[trigger] self.datas@[i].0 == k,
            |k: u64| self.datas@[choose|i: int| 0 <= i < self.datas@.len() && #[trigger] self.datas@[i].0 == k].1,
        )
    }

    /// The types whose nodes are to be registered.
    pub closed spec fn to_register(&self) -> Set<u64> {
        self.register_queue@.to_set()
    }

    /// The types whose nodes are to be removed.
    pub closed spec fn to_unregister(&self) -> Set<u64> {
        self.unregister_queue@.to_set()
    }

    /// A global material that is used is registered or about to be; one
    /// whose last user went is about to be removed if it was registered, and
    /// gone otherwise.
    pub open spec fn consistent(&self) -> bool {
        &&& forall|k: u64| #[trigger] self.to_register().contains(k) <==> (self.materials().contains_key(k) && !self.materials()[k].registered)
        &&& forall|k: u64| #[trigger] self.to_unregister().contains(k) <==> (self.materials().contains_key(k) && self.materials()[k].registered && self.materials()[k].refcount == 0)
        &&& forall|k: u64| #[trigger] self.materials().contains_key(k) && !self.materials()[k].registered ==> self.materials()[k].refcount > 0
    }

    /// No key has two entries.
    pub closed spec fn keys_distinct(&self) -> bool {
        forall|i: int, j: int| 0 <= i < j < self.datas@.len() ==> self.datas@[i].0 != self.datas@[j].0
    }

    pub closed spec fn wf(&self) -> bool {
        &&& self.keys_distinct()
        &&& distinct_keys(self.register_queue@)
        &&& distinct_keys(self.unregister_queue@)
        &&& self.consistent()
    }

    proof fn lemma_lookup(&self, i: int)
        requires
            self.keys_distinct(),
            0 <= i < self.datas@.len(),
        ensures
            self.materials().contains_key(self.datas@[i].0),
            self.materials()[self.datas@[i].0] == self.datas@[i].1,
    {
        let k = self.datas@[i].0;
        assert(self.materials().contains_key(k));
        let j = choose|j: int| 0 <= j < self.datas@.len() && #[trigger] self.datas@[j].0 == k;
        assert(j == i);
    }

    /// No global material.
    pub fn new() -> (r: Self)
        ensures
            r.wf(),
            r.materials() == Map::<u64, GlobalMaterialData>::empty(),
            r.to_register() == Set::<u64>::empty(),
            r.to_unregister() == Set::<u64>::empty(),
    {
        let r = GlobalMaterials { datas: Vec::new(), register_queue: Vec::new(), unregister_queue: Vec::new() };
        assert(r.materials() =~= Map::<u64, GlobalMaterialData>::empty());
        assert(r.register_queue@.to_set() =~= Set::<u64>::empty());
        assert(r.unregister_queue@.to_set() =~= Set::<u64>::empty());
        r
    }

    /// The position of `key` among the materials.
    fn find(&self, key: u64) -> (r: Option<usize>)
        requires
            self.wf(),
        ensures
            r matches Some(i) ==> i < self.datas@.len() && self.datas@[i as int].0 == key,
            r is None ==> !self.materials().contains_key(key),
    {
        let mut i: usize = 0;
        while i < self.datas.len()
            invariant
                i <= self.datas@.len(),
                forall|j: int| 0 <= j < i ==> self.datas@[j].0 != key,
            decreases self.datas@.len() - i,
        {
            if self.datas[i].0 == key {
                return Some(i);
            }
            i = i + 1;
        }
        None
    }
}

impl GlobalMaterials {
    /// The materials are those of `old` with `key` set to `data`, when `datas`
    /// is `old`'s list with the entry of `key` set or added.
    proof fn lemma_set_entry(old: &Self, new: &Self, key: u64, data: GlobalMaterialData, i: int)
        requires
            old.keys_distinct(),
            0 <= i <= old.datas@.len(),
            i < old.datas@.len() ==> old.datas@[i].0 == key && new.datas@ == old.datas@.update(i, (key, data)),
            i == old.datas@.len() ==> !old.materials().contains_key(key) && new.datas@ == old.datas@.push((key, data)),
        ensures
            new.materials() == old.materials().insert(key, data),
            forall|a: int, b: int| 0 <= a < b < new.datas@.len() ==> new.datas@[a].0 != new.datas@[b].0,
    {
        assert forall|a: int, b: int| 0 <= a < b < new.datas@.len() implies new.datas@[a].0 != new.datas@[b].0 by {
            if i == old.datas@.len() && b == i {
                assert(new.datas@[a] == old.datas@[a]);
                assert(old.materials().contains_key(old.datas@[a].0));
            } else {
                if a != i {
                    assert(new.datas@[a] == old.datas@[a]);
                }
                if b != i {
                    assert(new.datas@[b] == old.datas@[b]);
                }
            }
        }
        assert forall|k: u64| #[trigger] new.materials().contains_key(k) == old.materials().insert(key, data).contains_key(k) by {
            if new.materials().contains_key(k) {
                let j = choose|j: int| 0 <= j < new.datas@.len() && #[trigger] new.datas@[j].0 == k;
                if j != i {
                    assert(old.datas@[j].0 == k);
                }
            }
            if old.materials().contains_key(k) {
                let j = choose|j: int| 0 <= j < old.datas@.len() && #[trigger] old.datas@[j].0 == k;
                assert(new.datas@[j].0 == k);
            }
            if k == key {
                assert(new.datas@[i].0 == key);
            }
        }
        assert forall|k: u64| #[trigger] new.materials().contains_key(k) implies new.materials()[k] == old.materials().insert(key, data)[k] by {
            let j = choose|j: int| 0 <= j < new.datas@.len() && #[trigger] new.datas@[j].0 == k;
            if j != i {
                assert(new.datas@[j] == old.datas@[j]);
                old.lemma_lookup(j);
            }
        }
        assert(new.materials() =~= old.materials().insert(key, data));
    }

    /// One more material uses the global material `key`: it is created
    /// when new, and is to be registered while it is not registered; it is
    /// no longer to be removed.
    pub fn increment(&mut self, key: u64)
        requires
            old(self).wf(),
            old(self).materials().contains_key(key) ==> old(self).materials()[key].refcount < usize::MAX,
        ensures
            final(self).wf(),
            final(self).materials() == old(self).materials().insert(
                key,
                GlobalMaterialData {
                    refcount: (if old(self).materials().contains_key(key) { old(self).materials()[key].refcount + 1 } else { 1 }) as usize,
                    registered: old(self).materials().contains_key(key) && old(self).materials()[key].registered,
                },
            ),
            final(self).to_unregister() == old(self).to_unregister().remove(key),
            final(self).to_register() == (if old(self).materials().contains_key(key) && old(self).materials()[key].registered {
                old(self).to_register()
            } else {
                old(self).to_register().insert(key)
            }),
            final(self).state() == increment_spec(old(self).state(), key),
    {
        let ghost s0 = *self;
        let pos = self.find(key);
        let data = match pos {
            Some(i) => {
                proof {
                    self.lemma_lookup(i as int);
                }
                let old_data = self.datas[i].1;
                let d = GlobalMaterialData { refcount: old_data.refcount + 1, registered: old_data.registered };
                self.datas.set(i, (key, d));
                proof {
                    Self::lemma_set_entry(&s0, self, key, d, i as int);
                }
                d
            },
            None => {
                let d = GlobalMaterialData { refcount: 1, registered: false };
                self.datas.push((key, d));
                proof {
                    Self::lemma_set_entry(&s0, self, key, d, s0.datas@.len() as int);
                }
                d
            },
        };
        key_remove(&mut self.unregister_queue, key);
        if !data.registered {
            key_insert(&mut self.register_queue, key);
        }
        proof {
            assert(self.to_register() =~= (if s0.materials().contains_key(key) && s0.materials()[key].registered {
                s0.to_register()
            } else {
                s0.to_register().insert(key)
            }));
            assert forall|k: u64| #[trigger] self.to_register().contains(k) <==> (self.materials().contains_key(k) && !self.materials()[k].registered) by {
                if k != key {
                    assert(s0.to_register().contains(k) <==> (s0.materials().contains_key(k) && !s0.materials()[k].registered));
                }
            }
            assert forall|k: u64| #[trigger] self.to_unregister().contains(k) <==> (self.materials().contains_key(k) && self.materials()[k].registered && self.materials()[k].refcount == 0) by {
                if k != key {
                    assert(s0.to_unregister().contains(k) <==> (s0.materials().contains_key(k) && s0.materials()[k].registered && s0.materials()[k].refcount == 0));
                }
            }
            assert forall|k: u64| #[trigger] self.materials().contains_key(k) && !self.materials()[k].registered implies self.materials()[k].refcount > 0 by {
                if k != key {
                    assert(s0.materials().contains_key(k) && !s0.materials()[k].registered);
                }
            }
        }
    }
}

impl GlobalMaterials {
    /// The materials are those of `old` without `key`, when `datas` is
    /// `old`'s list with the entry of `key` swapped out.
    proof fn lemma_remove_entry(old: &Self, new: &Self, key: u64, i: int)
        requires
            old.keys_distinct(),
            0 <= i < old.datas@.len(),
            old.datas@[i].0 == key,
            new.datas@ == old.datas@.update(i, old.datas@.last()).drop_last(),
        ensures
            new.materials() == old.materials().remove(key),
            forall|a: int, b: int| 0 <= a < b < new.datas@.len() ==> new.datas@[a].0 != new.datas@[b].0,
    {
        let last = old.datas@.len() - 1;
        assert(new.datas@.len() == old.datas@.len() - 1);
        assert forall|a: int| 0 <= a < new.datas@.len() implies #[trigger] new.datas@[a] == old.datas@[if a == i { last } else { a }] by {}
        assert forall|a: int, b: int| 0 <= a < b < new.datas@.len() implies new.datas@[a].0 != new.datas@[b].0 by {
            let a2 = if a == i { last } else { a };
            let b2 = if b == i { last } else { b };
            assert(new.datas@[a] == old.datas@[a2]);
            assert(new.datas@[b] == old.datas@[b2]);
        }
        assert forall|k: u64| #[trigger] new.materials().contains_key(k) == old.materials().remove(key).contains_key(k) by {
            if new.materials().contains_key(k) {
                let j = choose|j: int| 0 <= j < new.datas@.len() && #[trigger] new.datas@[j].0 == k;
                let j2 = if j == i { last } else { j };
                assert(new.datas@[j] == old.datas@[j2]);
                assert(old.datas@[j2].0 == k);
                assert(j2 != i);
            }
            if old.materials().contains_key(k) && k != key {
                let j = choose|j: int| 0 <= j < old.datas@.len() && #[trigger] old.datas@[j].0 == k;
                assert(j != i);
                if j == last {
                    assert(new.datas@[i].0 == k);
                } else {
                    assert(new.datas@[j].0 == k);
                }
            }
        }
        assert forall|k: u64| #[trigger] new.materials().contains_key(k) implies new.materials()[k] == old.materials().remove(key)[k] by {
            let j = choose|j: int| 0 <= j < new.datas@.len() && #[trigger] new.datas@[j].0 == k;
            let j2 = if j == i { last } else { j };
            assert(new.datas@[j] == old.datas@[j2]);
            old.lemma_lookup(j2);
        }
        assert(new.materials() =~= old.materials().remove(key));
    }

    /// One material fewer uses the global material `key`. When none is left,
    /// it is no longer to be registered, and is dropped if it was never
    /// registered, or else is to be removed.
    pub fn decrement(&mut self, key: u64)
        requires
            old(self).wf(),
            old(self).materials().contains_key(key),
            old(self).materials()[key].refcount > 0,
        ensures
            final(self).wf(),
            ({
                let d = old(self).materials()[key];
                let count = (d.refcount - 1) as usize;
                &&& final(self).materials() == (if count == 0 && !d.registered {
                    old(self).materials().remove(key)
                } else {
                    old(self).materials().insert(key, GlobalMaterialData { refcount: count, registered: d.registered })
                })
                &&& final(self).to_register() == (if count == 0 { old(self).to_register().remove(key) } else { old(self).to_register() })
                &&& final(self).to_unregister() == (if count == 0 && d.registered {
                    old(self).to_unregister().insert(key)
                } else {
                    old(self).to_unregister()
                })
            }),
            final(self).state() == decrement_spec(old(self).state(), key),
    {
        let ghost s0 = *self;
        let i = match self.find(key) {
            Some(i) => i,
            None => {
                assert(false);
                return;
            },
        };
        proof {
            self.lemma_lookup(i as int);
        }
        let d = self.datas[i].1;
        let nd = GlobalMaterialData { refcount: d.refcount - 1, registered: d.registered };
        if nd.refcount == 0 {
            key_remove(&mut self.register_queue, key);
            if !nd.registered {
                self.datas.swap_remove(i);
                proof {
                    Self::lemma_remove_entry(&s0, self, key, i as int);
                }
            } else {
                self.datas.set(i, (key, nd));
                proof {
                    Self::lemma_set_entry(&s0, self, key, nd, i as int);
                }
                key_insert(&mut self.unregister_queue, key);
            }
        } else {
            self.datas.set(i, (key, nd));
            proof {
                Self::lemma_set_entry(&s0, self, key, nd, i as int);
            }
        }
        proof {
            assert(s0.to_register().contains(key) <==> (s0.materials().contains_key(key) && !s0.materials()[key].registered));
            assert(s0.to_unregister().contains(key) <==> (s0.materials().contains_key(key) && s0.materials()[key].registered && s0.materials()[key].refcount == 0));
            assert forall|k: u64| #[trigger] self.to_register().contains(k) <==> (self.materials().contains_key(k) && !self.materials()[k].registered) by {
                if k != key {
                    assert(s0.to_register().contains(k) <==> (s0.materials().contains_key(k) && !s0.materials()[k].registered));
                }
            }
            assert forall|k: u64| #[trigger] self.to_unregister().contains(k) <==> (self.materials().contains_key(k) && self.materials()[k].registered && self.materials()[k].refcount == 0) by {
                if k != key {
                    assert(s0.to_unregister().contains(k) <==> (s0.materials().contains_key(k) && s0.materials()[k].registered && s0.materials()[k].refcount == 0));
                }
            }
            assert forall|k: u64| #[trigger] self.materials().contains_key(k) && !self.materials()[k].registered implies self.materials()[k].refcount > 0 by {
                if k != key {
                    assert(s0.materials().contains_key(k) && !s0.materials()[k].registered);
                }
            }
        }
    }
}

impl GlobalMaterials {
    /// Drops the global materials whose last user went, and gives their
    /// keys, so that their nodes can be removed from the render graph.
    pub fn take_unregistered(&mut self) -> (r: Vec<u64>)
        requires
            old(self).wf(),
        ensures
            final(self).wf(),
            distinct_keys(r@),
            r@.to_set() == old(self).to_unregister(),
            final(self).materials() == old(self).materials().remove_keys(old(self).to_unregister()),
            final(self).to_unregister() == Set::<u64>::empty(),
            final(self).to_register() == old(self).to_register(),
    {
        let ghost s0 = *self;
        let mut keys: Vec<u64> = Vec::new();
        std::mem::swap(&mut keys, &mut self.unregister_queue);
        proof {
            assert(self.unregister_queue@.to_set() =~= Set::<u64>::empty());
        }
        let mut t: usize = 0;
        while t < keys.len()
            invariant
                keys@ == s0.unregister_queue@,
                distinct_keys(keys@),
                t <= keys@.len(),
                self.unregister_queue@.len() == 0,
                self.register_queue@ == s0.register_queue@,
                forall|i: int, j: int| 0 <= i < j < self.datas@.len() ==> self.datas@[i].0 != self.datas@[j].0,
                self.materials() == s0.materials().remove_keys(keys@.take(t as int).to_set()),
                s0.wf(),
            decreases keys@.len() - t,
        {
            let key = keys[t];
            let ghost s1 = *self;
            proof {
                assert(s0.to_unregister().contains(key)) by {
                    assert(keys@[t as int] == key);
                }
                assert(!keys@.take(t as int).contains(key)) by {
                    if keys@.take(t as int).contains(key) {
                        let j = choose|j: int| 0 <= j < t && keys@.take(t as int)[j] == key;
                        assert(keys@[j] == keys@[t as int]);
                    }
                }
                assert(keys@.take(t as int + 1) =~= keys@.take(t as int).push(key));
                keys@.take(t as int).lemma_push_to_set_commute(key);
            }
            let found = entry_position(&self.datas, key);
            match found {
                Some(i) => {
                    self.datas.swap_remove(i);
                    proof {
                        Self::lemma_remove_entry(&s1, self, key, i as int);
                        assert(self.materials() =~= s0.materials().remove_keys(keys@.take(t as int + 1).to_set()));
                    }
                },
                None => {
                    proof {
                        assert(s0.materials().contains_key(key));
                        assert(s1.materials().contains_key(key));
                        let j = choose|j: int| 0 <= j < s1.datas@.len() && #[trigger] s1.datas@[j].0 == key;
                    }
                },
            }
            t = t + 1;
        }
        proof {
            assert(keys@.take(keys@.len() as int) =~= keys@);
            assert(self.to_unregister() =~= Set::<u64>::empty());
            assert forall|k: u64| #[trigger] self.to_register().contains(k) <==> (self.materials().contains_key(k) && !self.materials()[k].registered) by {
                assert(s0.to_register().contains(k) <==> (s0.materials().contains_key(k) && !s0.materials()[k].registered));
                assert(s0.to_unregister().contains(k) <==> (s0.materials().contains_key(k) && s0.materials()[k].registered && s0.materials()[k].refcount == 0));
                assert(keys@.to_set() == s0.to_unregister());
            }
            assert forall|k: u64| #[trigger] self.to_unregister().contains(k) <==> (self.materials().contains_key(k) && self.materials()[k].registered && self.materials()[k].refcount == 0) by {
                assert(s0.to_unregister().contains(k) <==> (s0.materials().contains_key(k) && s0.materials()[k].registered && s0.materials()[k].refcount == 0));
            }
            assert forall|k: u64| #[trigger] self.materials().contains_key(k) && !self.materials()[k].registered implies self.materials()[k].refcount > 0 by {
                assert(s0.materials().contains_key(k) && !s0.materials()[k].registered);
            }
        }
        keys
    }
}

/// The position of the entry of `key`, if there is one.
fn entry_position(datas: &Vec<(u64, GlobalMaterialData)>, key: u64) -> (r: Option<usize>)
    ensures
        r matches Some(i) ==> i < datas@.len() && datas@[i as int].0 == key,
        r is None ==> forall|j: int| 0 <= j < datas@.len() ==> datas@[j].0 != key,
{
    let mut i: usize = 0;
    while i < datas.len()
        invariant
            i <= datas@.len(),
            forall|j: int| 0 <= j < i ==> datas@[j].0 != key,
        decreases datas@.len() - i,
    {
        if datas[i].0 == key {
            return Some(i);
        }
        i = i + 1;
    }
    None
}

impl GlobalMaterials {
    /// Marks the global materials that are to be registered as registered,
    /// and gives their keys, so that their nodes can be registered.
    pub fn take_to_register(&mut self) -> (r: Vec<u64>)
        requires
            old(self).wf(),
        ensures
            final(self).wf(),
            distinct_keys(r@),
            r@.to_set() == old(self).to_register(),
            final(self).materials().dom() == old(self).materials().dom(),
            forall|k: u64|
                #[trigger] final(self).materials().contains_key(k) ==> final(self).materials()[k] == (if old(self).to_register().contains(k) {
                    GlobalMaterialData { refcount: old(self).materials()[k].refcount, registered: true }
                } else {
                    old(self).materials()[k]
                }),
            final(self).to_register() == Set::<u64>::empty(),
            final(self).to_unregister() == old(self).to_unregister(),
    {
        let ghost s0 = *self;
        let mut keys: Vec<u64> = Vec::new();
        std::mem::swap(&mut keys, &mut self.register_queue);
        let mut t: usize = 0;
        while t < keys.len()
            invariant
                keys@ == s0.register_queue@,
                distinct_keys(keys@),
                t <= keys@.len(),
                self.register_queue@.len() == 0,
                self.unregister_queue@ == s0.unregister_queue@,
                self.keys_distinct(),
                s0.wf(),
                self.materials().dom() == s0.materials().dom(),
                forall|k: u64|
                    #[trigger] self.materials().contains_key(k) ==> self.materials()[k] == (if keys@.take(t as int).contains(k) {
                        GlobalMaterialData { refcount: s0.materials()[k].refcount, registered: true }
                    } else {
                        s0.materials()[k]
                    }),
            decreases keys@.len() - t,
        {
            let key = keys[t];
            let ghost s1 = *self;
            proof {
                assert(s0.to_register().contains(key)) by {
                    assert(keys@[t as int] == key);
                }
                assert(!keys@.take(t as int).contains(key)) by {
                    if keys@.take(t as int).contains(key) {
                        let j = choose|j: int| 0 <= j < t && keys@.take(t as int)[j] == key;
                        assert(keys@[j] == keys@[t as int]);
                    }
                }
                assert(keys@.take(t as int + 1) =~= keys@.take(t as int).push(key));
            }
            match entry_position(&self.datas, key) {
                Some(i) => {
                    proof {
                        self.lemma_lookup(i as int);
                    }
                    let d = self.datas[i].1;
                    let nd = GlobalMaterialData { refcount: d.refcount, registered: true };
                    self.datas.set(i, (key, nd));
                    proof {
                        Self::lemma_set_entry(&s1, self, key, nd, i as int);
                        assert(self.materials().dom() =~= s0.materials().dom());
                        assert forall|k: u64|
                            #[trigger] self.materials().contains_key(k) implies self.materials()[k] == (if keys@.take(t as int + 1).contains(k) {
                                GlobalMaterialData { refcount: s0.materials()[k].refcount, registered: true }
                            } else {
                                s0.materials()[k]
                            }) by {
                            let t0 = keys@.take(t as int);
                            let t1 = keys@.take(t as int + 1);
                            assert(t1.contains(k) == (t0.contains(k) || k == key)) by {
                                if t1.contains(k) {
                                    let j = choose|j: int| 0 <= j < t1.len() && t1[j] == k;
                                    if j < t {
                                        assert(t0[j] == k);
                                    }
                                }
                                if t0.contains(k) {
                                    let j = choose|j: int| 0 <= j < t0.len() && t0[j] == k;
                                    assert(t1[j] == k);
                                }
                                if k == key {
                                    assert(t1[t as int] == key);
                                }
                            }
                        }
                    }
                },
                None => {
                    proof {
                        assert(s0.materials().contains_key(key));
                        assert(s1.materials().contains_key(key));
                        let j = choose|j: int| 0 <= j < s1.datas@.len() && #[trigger] s1.datas@[j].0 == key;
                    }
                },
            }
            t = t + 1;
        }
        proof {
            assert(keys@.take(keys@.len() as int) =~= keys@);
            assert(self.to_register() =~= Set::<u64>::empty());
            assert forall|k: u64| #[trigger] self.to_register().contains(k) <==> (self.materials().contains_key(k) && !self.materials()[k].registered) by {
                assert(s0.to_register().contains(k) <==> (s0.materials().contains_key(k) && !s0.materials()[k].registered));
                if self.materials().contains_key(k) {
                    assert(s0.materials().contains_key(k));
                }
            }
            assert forall|k: u64| #[trigger] self.to_unregister().contains(k) <==> (self.materials().contains_key(k) && self.materials()[k].registered && self.materials()[k].refcount == 0) by {
                assert(s0.to_unregister().contains(k) <==> (s0.materials().contains_key(k) && s0.materials()[k].registered && s0.materials()[k].refcount == 0));
                assert(s0.to_register().contains(k) <==> (s0.materials().contains_key(k) && !s0.materials()[k].registered));
                if self.materials().contains_key(k) {
                    assert(s0.materials().contains_key(k));
                    if s0.to_register().contains(k) {
                        assert(s0.materials()[k].refcount > 0);
                    }
                }
            }
            assert forall|k: u64| #[trigger] self.materials().contains_key(k) && !self.materials()[k].registered implies self.materials()[k].refcount > 0 by {
                assert(s0.materials().contains_key(k));
                assert(s0.to_register().contains(k) <==> (s0.materials().contains_key(k) && !s0.materials()[k].registered));
            }
        }
        keys
    }
}

/// The state (materials, keys to register, keys to unregister) after one
/// more user of `key`.
pub open spec fn increment_spec(
    s: (Map<u64, GlobalMaterialData>, Set<u64>, Set<u64>),
    key: u64,
) -> (Map<u64, GlobalMaterialData>, Set<u64>, Set<u64>) {
    let known = s.0.contains_key(key);
    let registered = known && s.0[key].registered;
    let count = if known { s.0[key].refcount + 1 } else { 1 };
    (
        s.0.insert(key, GlobalMaterialData { refcount: count as usize, registered }),
        if registered { s.1 } else { s.1.insert(key) },
        s.2.remove(key),
    )
}

/// The state after one user of `key` went.
pub open spec fn decrement_spec(
    s: (Map<u64, GlobalMaterialData>, Set<u64>, Set<u64>),
    key: u64,
) -> (Map<u64, GlobalMaterialData>, Set<u64>, Set<u64>) {
    let d = s.0[key];
    let count = (d.refcount - 1) as usize;
    (
        if count == 0 && !d.registered { s.0.remove(key) } else { s.0.insert(key, GlobalMaterialData { refcount: count, registered: d.registered }) },
        if count == 0 { s.1.remove(key) } else { s.1 },
        if count == 0 && d.registered { s.2.insert(key) } else { s.2 },
    )
}

impl GlobalMaterials {
    /// The materials, the keys to register and the keys to unregister.
    pub open spec fn state(&self) -> (Map<u64, GlobalMaterialData>, Set<u64>, Set<u64>) {
        (self.materials(), self.to_register(), self.to_unregister())
    }

    /// A new user of a global material followed by its going leaves the
    /// global materials as they were.
    pub proof fn lemma_increment_then_decrement(&self, key: u64)
        requires
            self.wf(),
            self.materials().contains_key(key) ==> self.materials()[key].refcount < usize::MAX,
        ensures
            decrement_spec(increment_spec(self.state(), key), key) == self.state(),
    {
        lemma_state_increment_decrement(self.state(), key);
    }
}

/// The state of the global materials: each material by key, the keys to
/// register and the keys to unregister.
pub open spec fn state_consistent(s: (Map<u64, GlobalMaterialData>, Set<u64>, Set<u64>)) -> bool {
    &&& forall|k: u64| #[trigger] s.1.contains(k) <==> (s.0.contains_key(k) && !s.0[k].registered)
    &&& forall|k: u64| #[trigger] s.2.contains(k) <==> (s.0.contains_key(k) && s.0[k].registered && s.0[k].refcount == 0)
    &&& forall|k: u64| #[trigger] s.0.contains_key(k) && !s.0[k].registered ==> s.0[k].refcount > 0
}

/// `n` more users of any global materials fit in the counters.
pub open spec fn counts_below(s: (Map<u64, GlobalMaterialData>, Set<u64>, Set<u64>), n: nat) -> bool {
    &&& n <= usize::MAX
    &&& forall|k: u64| #[trigger] s.0.contains_key(k) ==> s.0[k].refcount + n <= usize::MAX
}

/// The state after one more user of each key of `keys`, in order.
pub open spec fn increment_all_spec(
    s: (Map<u64, GlobalMaterialData>, Set<u64>, Set<u64>),
    keys: Seq<u64>,
) -> (Map<u64, GlobalMaterialData>, Set<u64>, Set<u64>)
    decreases keys.len(),
{
    if keys.len() == 0 {
        s
    } else {
        increment_spec(increment_all_spec(s, keys.drop_last()), keys.last())
    }
}

/// The state after one user of each key of `keys` went, in order.
pub open spec fn decrement_all_spec(
    s: (Map<u64, GlobalMaterialData>, Set<u64>, Set<u64>),
    keys: Seq<u64>,
) -> (Map<u64, GlobalMaterialData>, Set<u64>, Set<u64>)
    decreases keys.len(),
{
    if keys.len() == 0 {
        s
    } else {
        decrement_spec(decrement_all_spec(s, keys.drop_last()), keys.last())
    }
}

/// Each key of `keys`, in order, still has a user when it is its turn to
/// lose one.
pub open spec fn can_decrement_all(s: (Map<u64, GlobalMaterialData>, Set<u64>, Set<u64>), keys: Seq<u64>) -> bool
    decreases keys.len(),
{
    if keys.len() == 0 {
        true
    } else {
        let t = decrement_all_spec(s, keys.drop_last());
        &&& can_decrement_all(s, keys.drop_last())
        &&& t.0.contains_key(keys.last())
        &&& t.0[keys.last()].refcount > 0
    }
}

proof fn lemma_increment_consistent(s: (Map<u64, GlobalMaterialData>, Set<u64>, Set<u64>), key: u64, n: nat)
    requires
        state_consistent(s),
        counts_below(s, n + 1),
    ensures
        state_consistent(increment_spec(s, key)),
        counts_below(increment_spec(s, key), n),
        increment_spec(s, key).0.contains_key(key),
        increment_spec(s, key).0[key].refcount > 0,
        forall|k: u64| #[trigger] s.0.contains_key(k) ==> increment_spec(s, key).0.contains_key(k)
            && increment_spec(s, key).0[k].refcount >= s.0[k].refcount,
{
    let t = increment_spec(s, key);
    assert forall|k: u64| #[trigger] t.1.contains(k) <==> (t.0.contains_key(k) && !t.0[k].registered) by {
        if k != key {
            assert(s.1.contains(k) <==> (s.0.contains_key(k) && !s.0[k].registered));
        }
    }
    assert forall|k: u64| #[trigger] t.2.contains(k) <==> (t.0.contains_key(k) && t.0[k].registered && t.0[k].refcount == 0) by {
        if k != key {
            assert(s.2.contains(k) <==> (s.0.contains_key(k) && s.0[k].registered && s.0[k].refcount == 0));
        }
    }
    assert forall|k: u64| #[trigger] t.0.contains_key(k) && !t.0[k].registered implies t.0[k].refcount > 0 by {
        if k != key {
            assert(s.0.contains_key(k));
        }
    }
}

/// Increments keep every material and never lower a counter.
proof fn lemma_increment_all_grows(s: (Map<u64, GlobalMaterialData>, Set<u64>, Set<u64>), keys: Seq<u64>, n: nat)
    requires
        state_consistent(s),
        counts_below(s, n + keys.len()),
    ensures
        state_consistent(increment_all_spec(s, keys)),
        counts_below(increment_all_spec(s, keys), n),
        forall|k: u64| #[trigger] s.0.contains_key(k) ==> increment_all_spec(s, keys).0.contains_key(k)
            && increment_all_spec(s, keys).0[k].refcount >= s.0[k].refcount,
    decreases keys.len(),
{
    if keys.len() > 0 {
        let rest = keys.drop_last();
        lemma_increment_all_grows(s, rest, n + 1);
        let t = increment_all_spec(s, rest);
        lemma_increment_consistent(t, keys.last(), n);
    }
}

/// A user going of `key` and a new user of `other` give the same state in
/// either order.
proof fn lemma_decrement_increment_commute(
    u: (Map<u64, GlobalMaterialData>, Set<u64>, Set<u64>),
    other: u64,
    key: u64,
)
    requires
        state_consistent(u),
        counts_below(u, 1),
        u.0.contains_key(key),
        u.0[key].refcount > 0,
    ensures
        decrement_spec(increment_spec(u, other), key) == increment_spec(decrement_spec(u, key), other),
{
    let l = decrement_spec(increment_spec(u, other), key);
    let r = increment_spec(decrement_spec(u, key), other);
    assert(u.1.contains(key) <==> (u.0.contains_key(key) && !u.0[key].registered));
    assert(u.2.contains(key) <==> (u.0.contains_key(key) && u.0[key].registered && u.0[key].refcount == 0));
    assert(l.0 =~= r.0);
    assert(l.1 =~= r.1);
    assert(l.2 =~= r.2);
}

/// A user of `key` going after new users of `keys` leaves the same state as
/// it going first.
proof fn lemma_decrement_after_increments(
    t: (Map<u64, GlobalMaterialData>, Set<u64>, Set<u64>),
    keys: Seq<u64>,
    key: u64,
)
    requires
        state_consistent(t),
        counts_below(t, keys.len()),
        t.0.contains_key(key),
        t.0[key].refcount > 0,
    ensures
        decrement_spec(increment_all_spec(t, keys), key) == increment_all_spec(decrement_spec(t, key), keys),
    decreases keys.len(),
{
    if keys.len() > 0 {
        let rest = keys.drop_last();
        let y = keys.last();
        lemma_decrement_after_increments(t, rest, key);
        lemma_increment_all_grows(t, rest, 1);
        let u = increment_all_spec(t, rest);
        lemma_decrement_increment_commute(u, y, key);
    }
}

proof fn lemma_increment_all_cons(s: (Map<u64, GlobalMaterialData>, Set<u64>, Set<u64>), x: u64, ys: Seq<u64>)
    ensures
        increment_all_spec(s, seq![x] + ys) == increment_all_spec(increment_spec(s, x), ys),
    decreases ys.len(),
{
    if ys.len() == 0 {
        assert(seq![x] + ys =~= seq![x]);
        assert(seq![x].drop_last() =~= Seq::<u64>::empty());
        assert(increment_all_spec(s, Seq::<u64>::empty()) == s);
    } else {
        assert((seq![x] + ys).drop_last() =~= seq![x] + ys.drop_last());
        assert((seq![x] + ys).last() == ys.last());
        lemma_increment_all_cons(s, x, ys.drop_last());
    }
}

proof fn lemma_increment_all_append(s: (Map<u64, GlobalMaterialData>, Set<u64>, Set<u64>), xs: Seq<u64>, ys: Seq<u64>)
    ensures
        increment_all_spec(s, xs + ys) == increment_all_spec(increment_all_spec(s, xs), ys),
    decreases ys.len(),
{
    if ys.len() == 0 {
        assert(xs + ys =~= xs);
    } else {
        assert((xs + ys).drop_last() =~= xs + ys.drop_last());
        lemma_increment_all_append(s, xs, ys.drop_last());
    }
}

/// Taking back, in order, the users of `xs` from the state after the users
/// of `xs` then `ys` came leaves the state after the users of `ys` alone.
proof fn lemma_take_back(s: (Map<u64, GlobalMaterialData>, Set<u64>, Set<u64>), xs: Seq<u64>, ys: Seq<u64>)
    requires
        state_consistent(s),
        counts_below(s, xs.len() + ys.len()),
    ensures
        can_decrement_all(increment_all_spec(s, xs + ys), xs),
        decrement_all_spec(increment_all_spec(s, xs + ys), xs) == increment_all_spec(s, ys),
    decreases xs.len(),
{
    if xs.len() > 0 {
        let front = xs.drop_last();
        let x = xs.last();
        let zs = seq![x] + ys;
        assert(front + zs =~= xs + ys);
        lemma_take_back(s, front, zs);
        lemma_increment_all_cons(s, x, ys);
        lemma_increment_consistent(s, x, (ys.len() + xs.len() - 1) as nat);
        let t = increment_spec(s, x);
        lemma_decrement_after_increments(t, ys, x);
        lemma_increment_all_grows(t, ys, 0);
        lemma_state_increment_decrement(s, x);
    }
}

proof fn lemma_state_increment_decrement(s: (Map<u64, GlobalMaterialData>, Set<u64>, Set<u64>), key: u64)
    requires
        state_consistent(s),
        s.0.contains_key(key) ==> s.0[key].refcount < usize::MAX,
    ensures
        decrement_spec(increment_spec(s, key), key) == s,
{
    let t = increment_spec(s, key);
    let u = decrement_spec(t, key);
    assert(s.1.contains(key) <==> (s.0.contains_key(key) && !s.0[key].registered));
    assert(s.2.contains(key) <==> (s.0.contains_key(key) && s.0[key].registered && s.0[key].refcount == 0));
    assert(u.0 =~= s.0);
    assert(u.1 =~= s.1);
    assert(u.2 =~= s.2);
}

/// A material that brings the users of its global materials and takes them
/// back, in the same order, leaves the global materials as they were.
pub proof fn lemma_tuple_increment_then_decrement(s: (Map<u64, GlobalMaterialData>, Set<u64>, Set<u64>), keys: Seq<u64>)
    requires
        state_consistent(s),
        counts_below(s, keys.len()),
    ensures
        can_decrement_all(increment_all_spec(s, keys), keys),
        decrement_all_spec(increment_all_spec(s, keys), keys) == s,
{
    lemma_take_back(s, keys, Seq::<u64>::empty());
    assert(keys + Seq::<u64>::empty() =~= keys);
}

/// The global materials of a material, by type key, in order.
pub struct GlobalMaterialTuple {
    keys: Vec<u64>,
}

impl GlobalMaterialTuple {
    pub closed spec fn keys_spec(&self) -> Seq<u64> {
        self.keys@
    }

    pub fn new(keys: Vec<u64>) -> (r: Self)
        ensures
            r.keys_spec() == keys@,
    {
        GlobalMaterialTuple { keys }
    }

    /// One more user of each of the global materials, in order.
    pub fn increment(&self, store: &mut GlobalMaterials)
        requires
            old(store).wf(),
            counts_below(old(store).state(), self.keys_spec().len()),
        ensures
            final(store).wf(),
            final(store).state() == increment_all_spec(old(store).state(), self.keys_spec()),
    {
        let ghost s0 = store.state();
        let mut i: usize = 0;
        while i < self.keys.len()
            invariant
                i <= self.keys.len(),
                store.wf(),
                store.state() == increment_all_spec(s0, self.keys@.take(i as int)),
                state_consistent(s0),
                counts_below(s0, self.keys@.len()),
            decreases self.keys.len() - i,
        {
            proof {
                lemma_increment_all_grows(s0, self.keys@.take(i as int), (self.keys@.len() - i) as nat);
                let k = self.keys@[i as int];
                let st = store.state();
                if st.0.contains_key(k) {
                    assert(st.0[k].refcount + 1 <= usize::MAX);
                }
            }
            store.increment(self.keys[i]);
            proof {
                assert(self.keys@.take(i + 1).drop_last() =~= self.keys@.take(i as int));
            }
            i = i + 1;
        }
        proof {
            assert(self.keys@.take(i as int) =~= self.keys@);
        }
    }

    /// One user less of each of the global materials, in order.
    pub fn decrement(&self, store: &mut GlobalMaterials)
        requires
            old(store).wf(),
            can_decrement_all(old(store).state(), self.keys_spec()),
        ensures
            final(store).wf(),
            final(store).state() == decrement_all_spec(old(store).state(), self.keys_spec()),
    {
        let ghost s0 = store.state();
        let mut i: usize = 0;
        while i < self.keys.len()
            invariant
                i <= self.keys.len(),
                store.wf(),
                store.state() == decrement_all_spec(s0, self.keys@.take(i as int)),
                can_decrement_all(s0, self.keys@),
            decreases self.keys.len() - i,
        {
            proof {
                lemma_can_decrement_prefix(s0, self.keys@, (i + 1) as nat);
                assert(self.keys@.take(i + 1).drop_last() =~= self.keys@.take(i as int));
                assert(self.keys@.take(i + 1).last() == self.keys@[i as int]);
            }
            store.decrement(self.keys[i]);
            i = i + 1;
        }
        proof {
            assert(self.keys@.take(i as int) =~= self.keys@);
        }
    }
}

proof fn lemma_can_decrement_prefix(s: (Map<u64, GlobalMaterialData>, Set<u64>, Set<u64>), keys: Seq<u64>, n: nat)
    requires
        can_decrement_all(s, keys),
        n <= keys.len(),
    ensures
        can_decrement_all(s, keys.take(n as int)),
    decreases keys.len(),
{
    if n < keys.len() {
        lemma_can_decrement_prefix(s, keys.drop_last(), n);
        assert(keys.drop_last().take(n as int) =~= keys.take(n as int));
    } else {
        assert(keys.take(n as int) =~= keys);
    }
}

} // verus!
