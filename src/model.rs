use vstd::prelude::*;

verus! {

/// True when `i` is the index of the first occurrence of `key` in `keys`.
pub open spec fn is_first_match(keys: Seq<u64>, key: u64, i: int) -> bool {
    &&& 0 <= i < keys.len()
    &&& keys[i] == key
    &&& forall|j: int| 0 <= j < i ==> keys[j] != key
}

/// The index of the first occurrence of `key` in `keys`, where there is one.
pub open spec fn first_match(keys: Seq<u64>, key: u64) -> int {
    choose|i: int| is_first_match(keys, key, i)
}

/// Where the `j`-th entry left after taking out the first occurrence of `key`
/// (if any) stood before.
pub open spec fn kept_index(keys: Seq<u64>, key: u64, j: int) -> int {
    if keys.contains(key) && j >= first_match(keys, key) {
        j + 1
    } else {
        j
    }
}

/// There is one first occurrence at most: any index that is one is the one
/// `first_match` picks.
pub proof fn lemma_first_match_unique(keys: Seq<u64>, key: u64, i: int)
    requires
        is_first_match(keys, key, i),
    ensures
        first_match(keys, key) == i,
{
    let c = first_match(keys, key);
    assert(is_first_match(keys, key, c));
    if c < i {
        assert(keys[c] != key);
    } else if c > i {
        assert(keys[i] != key);
    }
}

/// In strictly increasing identities, every occurrence is the first one.
pub proof fn lemma_first_match_of_increasing(keys: Seq<u64>, key: u64, k: int)
    requires
        forall|i: int, j: int| 0 <= i < j < keys.len() ==> keys[i] < keys[j],
        0 <= k < keys.len(),
        keys[k] == key,
    ensures
        is_first_match(keys, key, k),
        first_match(keys, key) == k,
{
    assert forall|j: int| 0 <= j < k implies keys[j] != key by {
        assert(keys[j] < keys[k]);
    }
    lemma_first_match_unique(keys, key, k);
}

/// The abstract state of a service.
///
/// `keys` lists the identities of the registered subscribers in registration
/// order, and `next_key` is the identity the next subscriber will get.
/// `delivered` is the service's account of its notifications, in order, as
/// pairs (identity of the subscriber, value passed): the service writes an
/// entry beside each callback call it makes. That the calls themselves happen
/// is stated separately, by `call_ensures` in the contracts of `subscribe` and
/// `emit`.
pub ghost struct ServiceModel<State> {
    pub latest: State,
    pub keys: Seq<u64>,
    pub next_key: nat,
    pub delivered: Seq<(u64, State)>,
}

/// One call on a service, as far as the model sees it.
pub ghost enum Operation<State> {
    Subscribe,
    Unsubscribe(u64),
    Emit(State),
}

impl<State> ServiceModel<State> {
    /// A fresh service: holds `s`, nobody subscribed, nothing delivered.
    pub open spec fn initial(s: State) -> Self {
        ServiceModel { latest: s, keys: Seq::empty(), next_key: 0, delivered: Seq::empty() }
    }

    /// Identities are handed out in increasing order and never reused: the
    /// registered ones are strictly increasing, and every identity seen so far
    /// is below `next_key`.
    pub open spec fn wf(self) -> bool {
        &&& self.next_key <= u64::MAX
        &&& forall|i: int, j: int| 0 <= i < j < self.keys.len() ==> self.keys[i] < self.keys[j]
        &&& forall|i: int| 0 <= i < self.keys.len() ==> self.keys[i] < self.next_key
        &&& forall|i: int| 0 <= i < self.delivered.len() ==> self.delivered[i].0 < self.next_key
    }

    /// Subscribing: the newcomer gets the current value at once, then is
    /// registered under the next identity.
    pub open spec fn subscribed(self) -> Self {
        ServiceModel {
            latest: self.latest,
            keys: self.keys.push(self.next_key as u64),
            next_key: self.next_key + 1,
            delivered: self.delivered.push((self.next_key as u64, self.latest)),
        }
    }

    /// Unsubscribing `key`: its first registration is removed, if there is one.
    pub open spec fn unsubscribed(self, key: u64) -> Self {
        if self.keys.contains(key) {
            ServiceModel { keys: self.keys.remove(first_match(self.keys, key)), ..self }
        } else {
            self
        }
    }

    /// What an emission of `v` hands to the registered subscribers, in order.
    pub open spec fn notifications(self, v: State) -> Seq<(u64, State)> {
        self.keys.map_values(|k: u64| (k, v))
    }

    /// Emitting `v`: it becomes the latest value and every registered
    /// subscriber receives it once, in registration order.
    pub open spec fn emitted(self, v: State) -> Self {
        ServiceModel {
            latest: v,
            delivered: self.delivered + self.notifications(v),
            ..self
        }
    }

    /// Emitting each value of `vs` in turn.
    pub open spec fn emitted_all(self, vs: Seq<State>) -> Self
        decreases vs.len(),
    {
        if vs.len() == 0 {
            self
        } else {
            self.emitted_all(vs.drop_last()).emitted(vs.last())
        }
    }

    /// The effect of one operation.
    pub open spec fn step(self, op: Operation<State>) -> Self {
        match op {
            Operation::Subscribe => self.subscribed(),
            Operation::Unsubscribe(key) => self.unsubscribed(key),
            Operation::Emit(v) => self.emitted(v),
        }
    }

    /// The effect of the operations of `ops`, in turn.
    pub open spec fn run(self, ops: Seq<Operation<State>>) -> Self
        decreases ops.len(),
    {
        if ops.len() == 0 {
            self
        } else {
            self.run(ops.drop_last()).step(ops.last())
        }
    }
}

/// A fresh service is well formed.
pub proof fn lemma_initial_wf<State>(s: State)
    ensures
        ServiceModel::initial(s).wf(),
{
}

/// Subscribing keeps the model well formed while identities remain.
pub proof fn lemma_subscribed_wf<State>(m: ServiceModel<State>)
    requires
        m.wf(),
        m.next_key < u64::MAX,
    ensures
        m.subscribed().wf(),
{
    let m2 = m.subscribed();
    assert forall|i: int| 0 <= i < m2.delivered.len() implies m2.delivered[i].0 < m2.next_key by {
        if i < m.delivered.len() {
            assert(m2.delivered[i] == m.delivered[i]);
        }
    }
}

/// Unsubscribing keeps the model well formed, and afterwards `key` is no
/// longer registered.
pub proof fn lemma_unsubscribed_wf<State>(m: ServiceModel<State>, key: u64)
    requires
        m.wf(),
    ensures
        m.unsubscribed(key).wf(),
        !m.unsubscribed(key).keys.contains(key),
{
    if m.keys.contains(key) {
        let i = choose|k: int| 0 <= k < m.keys.len() && m.keys[k] == key;
        lemma_first_match_of_increasing(m.keys, key, i);
        let ks = m.keys.remove(i);
        assert forall|a: int, b: int| 0 <= a < b < ks.len() implies ks[a] < ks[b] by {
            let a2 = if a < i { a } else { a + 1 };
            let b2 = if b < i { b } else { b + 1 };
            assert(ks[a] == m.keys[a2]);
            assert(ks[b] == m.keys[b2]);
        }
        assert forall|a: int| 0 <= a < ks.len() implies ks[a] != key by {
            let a2 = if a < i { a } else { a + 1 };
            assert(ks[a] == m.keys[a2]);
            assert(a2 != i);
            if a2 < i {
                assert(m.keys[a2] < m.keys[i]);
            } else {
                assert(m.keys[i] < m.keys[a2]);
            }
        }
        assert forall|a: int| 0 <= a < ks.len() implies ks[a] < m.next_key by {
            let a2 = if a < i { a } else { a + 1 };
            assert(ks[a] == m.keys[a2]);
        }
    }
}

/// Emitting keeps the model well formed.
pub proof fn lemma_emitted_wf<State>(m: ServiceModel<State>, v: State)
    requires
        m.wf(),
    ensures
        m.emitted(v).wf(),
{
    let m2 = m.emitted(v);
    assert forall|i: int| 0 <= i < m2.delivered.len() implies m2.delivered[i].0 < m2.next_key by {
        if i >= m.delivered.len() {
            assert(m2.delivered[i] == m.notifications(v)[i - m.delivered.len()]);
        }
    }
}

} // verus!
