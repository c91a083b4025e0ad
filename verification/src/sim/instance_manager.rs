//! The instances of a loaded project, numbered in creation order, one of them active.
use vstd::prelude::*;

verus! {

/// Why an instance could not be used.
#[derive(Clone, Copy, Debug, PartialEq, Eq)]
pub enum InstanceError {
    IndexOutOfRange(u32),
    NoActiveInstance,
}

/// One instance: its index and the project context it runs in.
#[derive(Clone, Copy, Debug)]
pub struct Instance<C> {
    pub index: u32,
    pub ctx: C,
}

/// Instances by index, the index the next one gets, and the active one.
pub struct InstanceManager<C> {
    instances: Vec<Instance<C>>,
    next_index: u32,
    active_index: Option<u32>,
}

/// Indices strictly increase along the sequence.
pub open spec fn indices_sorted<C>(s: Seq<Instance<C>>) -> bool {
    forall|i: int, j: int| 0 <= i < j < s.len() ==> #[trigger] s[i].index < #[trigger] s[j].index
}

/// The contexts of a sequence of instances, by index.
pub open spec fn instance_map<C>(s: Seq<Instance<C>>) -> Map<u32, C> {
    Map::new(
        |k: u32| exists|i: int| 0 <= i < s.len() && s[i].index == k,
        |k: u32| s[choose|i: int| 0 <= i < s.len() && s[i].index == k].ctx,
    )
}

proof fn lemma_instance_map_at<C>(s: Seq<Instance<C>>, i: int)
    requires
        indices_sorted(s),
        0 <= i < s.len(),
    ensures
        instance_map(s).contains_key(s[i].index),
        instance_map(s)[s[i].index] == s[i].ctx,
{
    let j = choose|j: int| 0 <= j < s.len() && s[j].index == s[i].index;
    if j < i {
        assert(s[j].index < s[i].index);
    } else if i < j {
        assert(s[i].index < s[j].index);
    }
}

impl<C> View for InstanceManager<C> {
    type V = Map<u32, C>;

    closed spec fn view(&self) -> Map<u32, C> {
        instance_map(self.instances@)
    }
}

impl<C: Copy> InstanceManager<C> {
    /// The index the next created instance gets.
    pub closed spec fn next(&self) -> u32 {
        self.next_index
    }

    /// The active instance, if any.
    pub closed spec fn active(&self) -> Option<u32> {
        self.active_index
    }

    /// Indices are kept in increasing order; the active index names a live
    /// instance and is absent only when there is none; no live index is at
    /// or past the next index unless that counter is saturated.
    pub closed spec fn wf(&self) -> bool {
        &&& indices_sorted(self.instances@)
        &&& match self.active_index {
            Some(a) => instance_map(self.instances@).contains_key(a),
            None => self.instances@.len() == 0,
        }
        &&& forall|i: int| 0 <= i < self.instances@.len() ==> #[trigger] self.instances@[i].index < self.next_index
            || self.next_index == u32::MAX
    }

    pub fn new() -> (m: Self)
        ensures
            m.wf(),
            m@ == Map::<u32, C>::empty(),
            m.next() == 0,
            m.active() is None,
    {
        let m = InstanceManager { instances: Vec::new(), next_index: 0, active_index: None };
        assert(m@ =~= Map::<u32, C>::empty());
        m
    }

    /// The active instance is absent exactly when there are no instances.
    pub proof fn lemma_active_is_live(&self)
        requires
            self.wf(),
        ensures
            match self.active() {
                Some(a) => self@.contains_key(a),
                None => self@.dom().is_empty(),
            },
    {
        if self.active_index is None {
            assert(self@.dom() =~= Set::<u32>::empty());
        }
    }

    /// Indices are never reused: until the counter saturates, the index the
    /// next instance gets is held by no live instance, nor by any larger one.
    pub proof fn lemma_next_index_fresh(&self, k: u32)
        requires
            self.wf(),
            self.next() < u32::MAX,
            self.next() <= k,
        ensures
            !self@.contains_key(k),
    {
        if self@.contains_key(k) {
            let i = choose|i: int| 0 <= i < self.instances@.len() && self.instances@[i].index == k;
            assert(self.instances@[i].index < self.next_index);
        }
    }

    /// Adds an instance running in `ctx`; it becomes active when none was.
    pub fn create(&mut self, ctx: C) -> (index: u32)
        requires
            old(self).wf(),
        ensures
            final(self).wf(),
            index == old(self).next(),
            final(self)@ == old(self)@.insert(index, ctx),
            final(self).next() == if old(self).next() == u32::MAX { u32::MAX } else { (old(self).next() + 1) as u32 },
            final(self).active() == if old(self).active() is None { Some(index) } else { old(self).active() },
    {
        let ghost s = self.instances@;
        let index = self.next_index;
        self.next_index = self.next_index.saturating_add(1);
        let n = self.instances.len();
        if n > 0 && self.instances[n - 1].index == index {
            self.instances.set(n - 1, Instance { index, ctx });
            proof {
                let t = self.instances@;
                assert(t == s.update(n - 1, Instance { index, ctx }));
                assert(indices_sorted(t));
                assert forall|k: u32| #[trigger] instance_map(t).contains_key(k) == instance_map(s).insert(index, ctx).contains_key(k) by {
                    if exists|i: int| 0 <= i < s.len() && s[i].index == k {
                        let i = choose|i: int| 0 <= i < s.len() && s[i].index == k;
                        assert(t[i].index == k);
                    }
                    if exists|i: int| 0 <= i < t.len() && t[i].index == k {
                        let i = choose|i: int| 0 <= i < t.len() && t[i].index == k;
                        assert(s[i].index == k);
                    }
                }
                assert forall|k: u32| #[trigger] instance_map(t).contains_key(k) implies instance_map(t)[k]
                    == instance_map(s).insert(index, ctx)[k] by {
                    let i = choose|i: int| 0 <= i < t.len() && t[i].index == k;
                    lemma_instance_map_at(t, i);
                    if i != n - 1 {
                        lemma_instance_map_at(s, i);
                    }
                }
                assert(instance_map(t) =~= instance_map(s).insert(index, ctx));
            }
        } else {
            self.instances.push(Instance { index, ctx });
            proof {
                let t = self.instances@;
                assert(t == s.push(Instance { index, ctx }));
                assert forall|i: int, j: int| 0 <= i < j < t.len() implies #[trigger] t[i].index < #[trigger] t[j].index by {
                    if j == s.len() {
                        assert(s[i].index < index || index == u32::MAX);
                        if index == u32::MAX && i < n - 1 {
                            assert(s[i].index < s[n - 1].index);
                        }
                    }
                }
                assert forall|k: u32| #[trigger] instance_map(t).contains_key(k) == instance_map(s).insert(index, ctx).contains_key(k) by {
                    if exists|i: int| 0 <= i < s.len() && s[i].index == k {
                        let i = choose|i: int| 0 <= i < s.len() && s[i].index == k;
                        assert(t[i].index == k);
                    }
                    if k == index {
                        assert(t[s.len() as int].index == k);
                    }
                    if exists|i: int| 0 <= i < t.len() && t[i].index == k {
                        let i = choose|i: int| 0 <= i < t.len() && t[i].index == k;
                        if i < s.len() {
                            assert(s[i].index == k);
                        }
                    }
                }
                assert forall|k: u32| #[trigger] instance_map(t).contains_key(k) implies instance_map(t)[k]
                    == instance_map(s).insert(index, ctx)[k] by {
                    let i = choose|i: int| 0 <= i < t.len() && t[i].index == k;
                    lemma_instance_map_at(t, i);
                    if i < s.len() {
                        lemma_instance_map_at(s, i);
                    }
                }
                assert(instance_map(t) =~= instance_map(s).insert(index, ctx));
            }
        }
        if self.active_index.is_none() {
            self.active_index = Some(index);
        }
        proof {
            let t = self.instances@;
            assert(instance_map(t).contains_key(index));
            if let Some(a) = old(self).active_index {
                assert(instance_map(s).contains_key(a));
                assert(instance_map(t).contains_key(a));
            }
        }
        index
    }

    /// The live indices in increasing order.
    pub fn list(&self) -> (r: Vec<u32>)
        requires
            self.wf(),
        ensures
            forall|i: int, j: int| 0 <= i < j < r@.len() ==> #[trigger] r@[i] < #[trigger] r@[j],
            forall|k: u32| self@.contains_key(k) <==> r@.contains(k),
    {
        let mut r: Vec<u32> = Vec::new();
        let mut i: usize = 0;
        while i < self.instances.len()
            invariant
                self.wf(),
                i <= self.instances@.len(),
                r@.len() == i,
                forall|j: int| 0 <= j < i ==> #[trigger] r@[j] == self.instances@[j].index,
            decreases self.instances@.len() - i,
        {
            r.push(self.instances[i].index);
            i = i + 1;
        }
        proof {
            let s = self.instances@;
            assert forall|k: u32| self@.contains_key(k) <==> r@.contains(k) by {
                if self@.contains_key(k) {
                    let j = choose|j: int| 0 <= j < s.len() && s[j].index == k;
                    assert(r@[j] == k);
                }
                if r@.contains(k) {
                    let j = choose|j: int| 0 <= j < r@.len() && r@[j] == k;
                    lemma_instance_map_at(s, j);
                }
            }
        }
        r
    }

    /// The contexts of the live instances, in increasing index order.
    pub fn iter_ctxs(&self) -> (r: Vec<C>)
        requires
            self.wf(),
        ensures
            exists|keys: Seq<u32>|
                #![trigger keys.len()]
                keys.len() == r@.len() && (forall|i: int, j: int| 0 <= i < j < keys.len() ==> #[trigger] keys[i] < #[trigger] keys[j])
                    && (forall|k: u32| self@.contains_key(k) <==> keys.contains(k))
                    && (forall|i: int| 0 <= i < keys.len() ==> #[trigger] r@[i] == self@[keys[i]]),
    {
        let mut r: Vec<C> = Vec::new();
        let mut i: usize = 0;
        while i < self.instances.len()
            invariant
                self.wf(),
                i <= self.instances@.len(),
                r@.len() == i,
                forall|j: int| 0 <= j < i ==> #[trigger] r@[j] == self.instances@[j].ctx,
            decreases self.instances@.len() - i,
        {
            r.push(self.instances[i].ctx);
            i = i + 1;
        }
        proof {
            let s = self.instances@;
            let keys = s.map_values(|x: Instance<C>| x.index);
            assert forall|k: u32| self@.contains_key(k) <==> keys.contains(k) by {
                if self@.contains_key(k) {
                    let j = choose|j: int| 0 <= j < s.len() && s[j].index == k;
                    assert(keys[j] == k);
                }
                if keys.contains(k) {
                    let j = choose|j: int| 0 <= j < keys.len() && keys[j] == k;
                    lemma_instance_map_at(s, j);
                }
            }
            assert forall|j: int| 0 <= j < keys.len() implies #[trigger] r@[j] == self@[keys[j]] by {
                lemma_instance_map_at(s, j);
            }
            assert(keys.len() == r@.len());
        }
        r
    }

    /// Makes a live instance the active one.
    pub fn select(&mut self, index: u32) -> (r: Result<(), InstanceError>)
        requires
            old(self).wf(),
        ensures
            final(self).wf(),
            final(self)@ == old(self)@,
            final(self).next() == old(self).next(),
            old(self)@.contains_key(index) ==> r is Ok && final(self).active() == Some(index),
            !old(self)@.contains_key(index) ==> r == Err::<(), InstanceError>(InstanceError::IndexOutOfRange(index))
                && final(self).active() == old(self).active(),
    {
        if !self.contains(index) {
            return Err(InstanceError::IndexOutOfRange(index));
        }
        self.active_index = Some(index);
        Ok(())
    }

    fn position(&self, index: u32) -> (r: Option<usize>)
        requires
            self.wf(),
        ensures
            match r {
                Some(i) => i < self.instances@.len() && self.instances@[i as int].index == index,
                None => !self@.contains_key(index),
            },
    {
        let mut i: usize = 0;
        while i < self.instances.len()
            invariant
                self.wf(),
                i <= self.instances@.len(),
                forall|j: int| 0 <= j < i ==> #[trigger] self.instances@[j].index != index,
            decreases self.instances@.len() - i,
        {
            if self.instances[i].index == index {
                return Some(i);
            }
            i = i + 1;
        }
        None
    }

    /// Whether an instance with this index is live.
    pub fn contains(&self, index: u32) -> (r: bool)
        requires
            self.wf(),
        ensures
            r == self@.contains_key(index),
    {
        match self.position(index) {
            Some(i) => {
                proof {
                    lemma_instance_map_at(self.instances@, i as int);
                }
                true
            },
            None => false,
        }
    }

    pub fn active_index(&self) -> (r: Option<u32>)
        ensures
            r == self.active(),
    {
        self.active_index
    }

    /// The instance a command addresses: the override if given, else the active one.
    pub fn resolve_target(&self, override_index: Option<u32>) -> (r: Result<u32, InstanceError>)
        requires
            self.wf(),
        ensures
            match (if override_index is Some { override_index } else { self.active() }) {
                None => r == Err::<u32, InstanceError>(InstanceError::NoActiveInstance),
                Some(i) => if self@.contains_key(i) {
                    r == Ok::<u32, InstanceError>(i)
                } else {
                    r == Err::<u32, InstanceError>(InstanceError::IndexOutOfRange(i))
                },
            },
    {
        let index = match override_index {
            Some(i) => i,
            None => match self.active_index {
                Some(i) => i,
                None => {
                    return Err(InstanceError::NoActiveInstance);
                },
            },
        };
        if !self.contains(index) {
            return Err(InstanceError::IndexOutOfRange(index));
        }
        Ok(index)
    }

    /// The context of a live instance.
    pub fn get_ctx(&self, index: u32) -> (r: Result<C, InstanceError>)
        requires
            self.wf(),
        ensures
            self@.contains_key(index) ==> r == Ok::<C, InstanceError>(self@[index]),
            !self@.contains_key(index) ==> r == Err::<C, InstanceError>(InstanceError::IndexOutOfRange(index)),
    {
        match self.position(index) {
            Some(i) => {
                proof {
                    lemma_instance_map_at(self.instances@, i as int);
                }
                Ok(self.instances[i].ctx)
            },
            None => Err(InstanceError::IndexOutOfRange(index)),
        }
    }

    pub fn len(&self) -> (r: usize)
        requires
            self.wf(),
        ensures
            r == self@.dom().len(),
    {
        proof {
            self.lemma_len();
        }
        self.instances.len()
    }

    pub fn is_empty(&self) -> (r: bool)
        requires
            self.wf(),
        ensures
            r == self@.dom().is_empty(),
    {
        proof {
            self.lemma_len();
            if self.instances@.len() > 0 {
                lemma_instance_map_at(self.instances@, 0);
                assert(self@.dom().contains(self.instances@[0].index));
            }
        }
        self.instances.len() == 0
    }

    proof fn lemma_len(&self)
        requires
            self.wf(),
        ensures
            self@.dom().len() == self.instances@.len(),
            self@.dom().finite(),
    {
        let s = self.instances@;
        let keys = s.map_values(|x: Instance<C>| x.index);
        assert(self@.dom() =~= keys.to_set()) by {
            assert forall|k: u32| self@.dom().contains(k) <==> keys.to_set().contains(k) by {
                if self@.dom().contains(k) {
                    let j = choose|j: int| 0 <= j < s.len() && s[j].index == k;
                    assert(keys[j] == k);
                }
                if keys.to_set().contains(k) {
                    let j = choose|j: int| 0 <= j < keys.len() && keys[j] == k;
                    assert(s[j].index == k);
                }
            }
        }
        assert(keys.no_duplicates()) by {
            assert forall|i: int, j: int| 0 <= i < keys.len() && 0 <= j < keys.len() && i != j implies keys[i] != keys[j] by {
                if i < j {
                    assert(s[i].index < s[j].index);
                } else {
                    assert(s[j].index < s[i].index);
                }
            }
        }
        keys.unique_seq_to_set();
    }

    /// Removes an instance and hands back its context; when it was active,
    /// the lowest remaining index becomes active.
    pub fn free(&mut self, index: u32) -> (r: Result<C, InstanceError>)
        requires
            old(self).wf(),
        ensures
            final(self).wf(),
            final(self).next() == old(self).next(),
            !old(self)@.contains_key(index) ==> r == Err::<C, InstanceError>(InstanceError::IndexOutOfRange(index))
                && final(self)@ == old(self)@ && final(self).active() == old(self).active(),
            old(self)@.contains_key(index) ==> r == Ok::<C, InstanceError>(old(self)@[index]) && final(self)@
                == old(self)@.remove(index) && (if old(self).active() == Some(index) {
                    match final(self).active() {
                        None => final(self)@.dom().is_empty(),
                        Some(a) => final(self)@.contains_key(a) && forall|k: u32| #[trigger] final(self)@.contains_key(k) ==> a <= k,
                    }
                } else {
                    final(self).active() == old(self).active()
                }),
    {
        let ghost s = self.instances@;
        let pos = match self.position(index) {
            Some(p) => p,
            None => {
                return Err(InstanceError::IndexOutOfRange(index));
            },
        };
        proof {
            lemma_instance_map_at(s, pos as int);
        }
        let removed = self.instances.remove(pos);
        let ghost t = self.instances@;
        proof {
            assert(t == s.remove(pos as int));
            assert forall|i: int, j: int| 0 <= i < j < t.len() implies #[trigger] t[i].index < #[trigger] t[j].index by {
                if j < pos {
                } else if i < pos {
                    assert(t[j] == s[j + 1]);
                } else {
                    assert(t[i] == s[i + 1] && t[j] == s[j + 1]);
                }
            }
            assert forall|k: u32| #[trigger] instance_map(t).contains_key(k) == instance_map(s).remove(index).contains_key(k) by {
                if exists|i: int| 0 <= i < s.len() && s[i].index == k && k != index {
                    let i = choose|i: int| 0 <= i < s.len() && s[i].index == k && k != index;
                    if i < pos {
                        assert(t[i].index == k);
                    } else {
                        assert(i != pos);
                        assert(t[i - 1].index == k);
                    }
                }
                if exists|i: int| 0 <= i < t.len() && t[i].index == k {
                    let i = choose|i: int| 0 <= i < t.len() && t[i].index == k;
                    if i < pos {
                        assert(s[i].index == k);
                        assert(s[i].index < s[pos as int].index);
                    } else {
                        assert(s[i + 1].index == k);
                        assert(s[pos as int].index < s[i + 1].index);
                    }
                }
            }
            assert forall|k: u32| #[trigger] instance_map(t).contains_key(k) implies instance_map(t)[k]
                == instance_map(s).remove(index)[k] by {
                let i = choose|i: int| 0 <= i < t.len() && t[i].index == k;
                lemma_instance_map_at(t, i);
                if i < pos {
                    lemma_instance_map_at(s, i);
                } else {
                    lemma_instance_map_at(s, i + 1);
                }
            }
            assert(instance_map(t) =~= instance_map(s).remove(index));
        }
        if self.active_index == Some(index) {
            if self.instances.len() > 0 {
                self.active_index = Some(self.instances[0].index);
                proof {
                    lemma_instance_map_at(t, 0);
                    assert forall|k: u32| #[trigger] instance_map(t).contains_key(k) implies t[0].index <= k by {
                        let i = choose|i: int| 0 <= i < t.len() && t[i].index == k;
                        if i > 0 {
                            assert(t[0].index < t[i].index);
                        }
                    }
                }
            } else {
                self.active_index = None;
                proof {
                    assert(instance_map(t).dom() =~= Set::<u32>::empty());
                }
            }
        } else {
            proof {
                if let Some(a) = self.active_index {
                    assert(instance_map(s).contains_key(a));
                    assert(instance_map(t).contains_key(a));
                }
            }
        }
        Ok(removed.ctx)
    }

    /// Removes every instance and hands back their contexts in increasing index order.
    pub fn clear(&mut self) -> (r: Vec<C>)
        requires
            old(self).wf(),
        ensures
            final(self).wf(),
            final(self)@ == Map::<u32, C>::empty(),
            final(self).next() == 0,
            final(self).active() is None,
            r@.len() == old(self)@.dom().len(),
            forall|v: C| #[trigger] r@.contains(v) <==> exists|k: u32| old(self)@.contains_key(k) && old(self)@[k] == v,
    {
        let ghost old_map = self@;
        proof {
            self.lemma_len();
        }
        let ctxs = self.iter_ctxs();
        self.instances = Vec::new();
        self.next_index = 0;
        self.active_index = None;
        proof {
            assert(self@ =~= Map::<u32, C>::empty());
            let keys = choose|keys: Seq<u32>|
                #![trigger keys.len()]
                keys.len() == ctxs@.len() && (forall|i: int, j: int| 0 <= i < j < keys.len() ==> #[trigger] keys[i] < #[trigger] keys[j])
                    && (forall|k: u32| old_map.contains_key(k) <==> keys.contains(k))
                    && (forall|i: int| 0 <= i < keys.len() ==> #[trigger] ctxs@[i] == old_map[keys[i]]);
            assert(keys.len() == ctxs@.len());
            assert forall|v: C| #[trigger] ctxs@.contains(v) <==> exists|k: u32| old_map.contains_key(k) && old_map[k] == v by {
                if ctxs@.contains(v) {
                    let i = choose|i: int| 0 <= i < ctxs@.len() && ctxs@[i] == v;
                    assert(keys.contains(keys[i]));
                    assert(old_map.contains_key(keys[i]));
                }
                if exists|k: u32| old_map.contains_key(k) && old_map[k] == v {
                    let k = choose|k: u32| old_map.contains_key(k) && old_map[k] == v;
                    assert(keys.contains(k));
                    let i = choose|i: int| 0 <= i < keys.len() && keys[i] == k;
                    assert(ctxs@[i] == v);
                }
            }
            assert(keys.no_duplicates()) by {
                assert forall|i: int, j: int| 0 <= i < keys.len() && 0 <= j < keys.len() && i != j implies keys[i] != keys[j] by {
                    if i < j {
                        assert(keys[i] < keys[j]);
                    } else {
                        assert(keys[j] < keys[i]);
                    }
                }
            }
            assert(old_map.dom() =~= keys.to_set());
            keys.unique_seq_to_set();
        }
        ctxs
    }
}

} // verus!
