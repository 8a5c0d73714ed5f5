use vstd::prelude::*;

use crate::model::{
    first_match, is_first_match, kept_index, lemma_emitted_wf, lemma_first_match_of_increasing,
    lemma_first_match_unique, lemma_initial_wf,
    lemma_subscribed_wf, lemma_unsubscribed_wf, ServiceModel,
};

verus! {

/// A handle on one subscription: the identity under which its callback was
/// registered. It is needed to unsubscribe.
pub struct StateServiceSubscription {
    callback_pair_key: u64,
}

impl View for StateServiceSubscription {
    type V = u64;

    closed spec fn view(&self) -> u64 {
        self.callback_pair_key
    }
}

impl StateServiceSubscription {
    /// A handle on the subscription registered under `callback_pair_key`.
    pub fn new(callback_pair_key: u64) -> (r: Self)
        ensures
            r@ == callback_pair_key,
    {
        StateServiceSubscription { callback_pair_key }
    }
}

/// Lets a caller register a callback with a `StateService`.
pub trait Subscriber<State, Callback: Fn(&State)> {
    fn subscribe(service: &mut StateService<State, Callback>, callback: Callback) -> (r:
        StateServiceSubscription)
        requires
            old(service).well_formed(),
            forall|s: &State| call_requires(callback, (s,)),
            old(service)@.next_key < u64::MAX,
        ensures
            final(service).well_formed(),
            final(service)@ == old(service)@.subscribed(),
            final(service)@.wf(),
            r@ == old(service)@.next_key,
            final(service).callbacks() == old(service).callbacks().push(callback),
            final(service).callbacks().len() == final(service)@.keys.len(),
            call_ensures(callback, (&old(service)@.latest,), ()),
    ;
}

/// Lets a caller withdraw a subscription from a `StateService`.
pub trait Subscription<State, Callback: Fn(&State)>: View<V = u64> {
    fn unsubscribe(&self, service: &mut StateService<State, Callback>)
        requires
            old(service).well_formed(),
        ensures
            final(service).well_formed(),
            final(service)@.wf(),
            final(service)@ == old(service)@.unsubscribed(self@),
            final(service).callbacks() == old(service).callbacks_without(self@),
            final(service).callbacks().len() == final(service)@.keys.len(),
    ;
}

impl<State, Callback: Fn(&State)> Subscription<State, Callback> for StateServiceSubscription {
    fn unsubscribe(&self, service: &mut StateService<State, Callback>) {
        service.remove_subscriber(self.callback_pair_key);
    }
}

/// Holds the latest value of a state and the callbacks registered on it, in
/// registration order, each under its own identity.
pub struct StateService<State, Callback: Fn(&State)> {
    latest_state: State,
    subscribers: Vec<(u64, Callback)>,
    next_key: u64,
    /// The account of notifications: an entry (identity, value passed) is
    /// written beside each callback call.
    delivered: Ghost<Seq<(u64, State)>>,
}

impl<State, Callback: Fn(&State)> View for StateService<State, Callback> {
    type V = ServiceModel<State>;

    closed spec fn view(&self) -> ServiceModel<State> {
        ServiceModel {
            latest: self.latest_state,
            keys: self.subscribers@.map_values(|p: (u64, Callback)| p.0),
            next_key: self.next_key as nat,
            delivered: self.delivered@,
        }
    }
}

impl<State, Callback: Fn(&State)> StateService<State, Callback> {
    /// The abstract state is well formed and every registered callback
    /// accepts any state.
    pub closed spec fn well_formed(&self) -> bool {
        &&& self@.wf()
        &&& forall|i: int, s: &State|
            0 <= i < self.subscribers@.len() ==> #[trigger] call_requires(
                self.subscribers@[i].1,
                (s,),
            )
    }

    /// The registered callbacks, in registration order: the one at index `i`
    /// is registered under the identity `self@.keys[i]`.
    pub closed spec fn callbacks(&self) -> Seq<Callback> {
        self.subscribers@.map_values(|p: (u64, Callback)| p.1)
    }

    /// The registered callbacks once the first one registered under `key`,
    /// if any, is taken out.
    pub open spec fn callbacks_without(&self, key: u64) -> Seq<Callback> {
        if self@.keys.contains(key) {
            self.callbacks().remove(first_match(self@.keys, key))
        } else {
            self.callbacks()
        }
    }

    /// Unsubscribing `key` keeps every other callback beside its own
    /// identity, in registration order: the callback at index `j` afterwards
    /// and the `j`-th remaining identity are the pair that stood together at
    /// index `kept_index(.., j)` before.
    pub proof fn lemma_callbacks_without_keep_identities(&self, key: u64)
        requires
            self.well_formed(),
        ensures
            self.callbacks().len() == self@.keys.len(),
            self.callbacks_without(key).len() == self@.unsubscribed(key).keys.len(),
            forall|j: int|
                0 <= j < self.callbacks_without(key).len() ==> {
                    let i = kept_index(self@.keys, key, j);
                    &&& 0 <= i < self.callbacks().len()
                    &&& #[trigger] self.callbacks_without(key)[j] == self.callbacks()[i]
                    &&& self@.unsubscribed(key).keys[j] == self@.keys[i]
                },
    {
        assert(self.callbacks().len() == self@.keys.len());
        if self@.keys.contains(key) {
            let k = choose|k: int| 0 <= k < self@.keys.len() && self@.keys[k] == key;
            lemma_first_match_of_increasing(self@.keys, key, k);
        }
    }

    /// A service that holds `init_state` and has no subscriber.
    pub fn new(init_state: State) -> (r: Self)
        ensures
            r.well_formed(),
            r@ == ServiceModel::initial(init_state),
            r@.wf(),
            r.callbacks().len() == 0,
    {
        let r = StateService {
            latest_state: init_state,
            subscribers: Vec::new(),
            next_key: 0,
            delivered: Ghost(Seq::empty()),
        };
        assert(r@.keys =~= Seq::<u64>::empty());
        proof {
            lemma_initial_wf(init_state);
        }
        r
    }

    /// Calls `callback` with the latest state, then registers it under a fresh
    /// identity and returns the handle on it. Identities come from a counter,
    /// so they never repeat; the counter must not be exhausted.
    pub fn subscribe(service: &mut StateService<State, Callback>, callback: Callback) -> (r:
        StateServiceSubscription)
        requires
            old(service).well_formed(),
            forall|s: &State| call_requires(callback, (s,)),
            old(service)@.next_key < u64::MAX,
        ensures
            final(service).well_formed(),
            final(service)@ == old(service)@.subscribed(),
            final(service)@.wf(),
            r@ == old(service)@.next_key,
            final(service).callbacks() == old(service).callbacks().push(callback),
            final(service).callbacks().len() == final(service)@.keys.len(),
            call_ensures(callback, (&old(service)@.latest,), ()),
    {
        service.add_subscriber(callback)
    }

    /// Replays the latest state to `callback`, then appends it to the
    /// subscribers under the next identity.
    pub(crate) fn add_subscriber(&mut self, callback: Callback) -> (r: StateServiceSubscription)
        requires
            old(self).well_formed(),
            forall|s: &State| call_requires(callback, (s,)),
            old(self)@.next_key < u64::MAX,
        ensures
            final(self).well_formed(),
            final(self)@ == old(self)@.subscribed(),
            final(self)@.wf(),
            r@ == old(self)@.next_key,
            final(self).callbacks() == old(self).callbacks().push(callback),
            final(self).callbacks().len() == final(self)@.keys.len(),
            call_ensures(callback, (&old(self)@.latest,), ()),
    {
        let ghost before = self@;
        proof {
            lemma_subscribed_wf(before);
        }
        // The newcomer learns the current value before anything else.
        callback(&self.latest_state);
        let key = self.next_key;
        let ghost delivered = self.delivered@.push((key, self.latest_state));
        let ghost old_keys = self@.keys;
        let ghost old_callbacks = self.callbacks();
        self.subscribers.push((key, callback));
        assert(self.subscribers@.map_values(|p: (u64, Callback)| p.0) =~= old_keys.push(key));
        assert(self.callbacks() =~= old_callbacks.push(callback));
        self.delivered = Ghost(delivered);
        self.next_key = key + 1;
        StateServiceSubscription::new(key)
    }

    /// The position of the first subscriber registered under `key`.
    fn position_of(&self, key: u64) -> (r: Option<usize>)
        ensures
            match r {
                Some(i) => is_first_match(self@.keys, key, i as int),
                None => !self@.keys.contains(key),
            },
    {
        let mut i: usize = 0;
        while i < self.subscribers.len()
            invariant
                i <= self.subscribers@.len(),
                forall|j: int| 0 <= j < i ==> self@.keys[j] != key,
            decreases self.subscribers@.len() - i,
        {
            if self.subscribers[i].0 == key {
                return Some(i);
            }
            i = i + 1;
        }
        None
    }

    /// Removes the first subscriber registered under `callback_pair_key`; does
    /// nothing if there is none.
    pub(crate) fn remove_subscriber(&mut self, callback_pair_key: u64)
        requires
            old(self).well_formed(),
        ensures
            final(self).well_formed(),
            final(self)@ == old(self)@.unsubscribed(callback_pair_key),
            final(self)@.wf(),
            final(self).callbacks() == old(self).callbacks_without(callback_pair_key),
            final(self).callbacks().len() == final(self)@.keys.len(),
    {
        let ghost old_keys = self@.keys;
        let ghost old_subs = self.subscribers@;
        proof {
            lemma_unsubscribed_wf(self@, callback_pair_key);
        }
        match self.position_of(callback_pair_key) {
            Some(i) => {
                proof {
                    lemma_first_match_unique(old_keys, callback_pair_key, i as int);
                }
                let _ = self.subscribers.remove(i);
                assert(self@.keys =~= old_keys.remove(i as int));
                assert(self.callbacks() =~= old_subs.map_values(|p: (u64, Callback)| p.1).remove(
                    i as int,
                ));
                assert forall|j: int, s: &State| 0 <= j < self.subscribers@.len()
                    implies call_requires(self.subscribers@[j].1, (s,)) by {
                    let j2 = if j < i { j } else { j + 1 };
                    assert(self.subscribers@[j] == old_subs[j2]);
                }
            },
            None => {
                assert(self.callbacks() =~= old_subs.map_values(|p: (u64, Callback)| p.1));
            },
        }
    }

    /// Makes `next_state` the latest state, then calls every registered
    /// callback with it once, in registration order.
    pub fn emit(&mut self, next_state: State)
        requires
            old(self).well_formed(),
        ensures
            final(self).well_formed(),
            final(self)@ == old(self)@.emitted(next_state),
            final(self)@.wf(),
            final(self).callbacks() == old(self).callbacks(),
            final(self).callbacks().len() == final(self)@.keys.len(),
            forall|j: int|
                0 <= j < old(self).callbacks().len() ==> call_ensures(
                    #[trigger] old(self).callbacks()[j],
                    (&next_state,),
                    (),
                ),
    {
        proof {
            lemma_emitted_wf(self@, next_state);
        }
        let ghost start = self.delivered@;
        let ghost keys = self@.keys;
        let ghost subs = self.subscribers@;
        self.latest_state = next_state;
        let ghost mut log = start;
        let mut i: usize = 0;
        while i < self.subscribers.len()
            invariant
                i <= self.subscribers@.len(),
                self@.keys == keys,
                self.latest_state == next_state,
                self.delivered@ == start,
                forall|j: int, s: &State|
                    0 <= j < self.subscribers@.len() ==> #[trigger] call_requires(
                        self.subscribers@[j].1,
                        (s,),
                    ),
                log =~= start + keys.take(i as int).map_values(|k: u64| (k, next_state)),
                self.subscribers@ == subs,
                forall|j: int|
                    0 <= j < i ==> call_ensures(#[trigger] subs[j].1, (&next_state,), ()),
            decreases self.subscribers@.len() - i,
        {
            let callback = &self.subscribers[i].1;
            callback(&self.latest_state);
            proof {
                log = log.push((keys[i as int], self.latest_state));
                assert(keys.take(i + 1) =~= keys.take(i as int).push(keys[i as int]));
            }
            i = i + 1;
        }
        assert(keys.take(i as int) =~= keys);
        self.delivered = Ghost(log);
    }

    /// A clone of the latest state.
    pub fn get_latest_state(&self) -> (r: State)
        where
            State: Clone,
        requires
            self.well_formed(),
        ensures
            cloned(self@.latest, r),
            self@.wf(),
    {
        self.latest_state.clone()
    }
}

impl<State, Callback: Fn(&State)> Subscriber<State, Callback> for StateService<State, Callback> {
    fn subscribe(service: &mut StateService<State, Callback>, callback: Callback) -> (r:
        StateServiceSubscription) {
        service.add_subscriber(callback)
    }
}

} // verus!
