use vstd::prelude::*;

use crate::model::{
    lemma_emitted_wf, lemma_first_match_of_increasing, lemma_subscribed_wf, lemma_unsubscribed_wf,
    Operation, ServiceModel,
};

verus! {

/// A run of emissions leaves the registrations alone, only appends to the
/// record of deliveries, and delivers only to registered identities.
pub proof fn lemma_emitted_all_frame<State>(m: ServiceModel<State>, vs: Seq<State>)
    ensures
        m.emitted_all(vs).keys == m.keys,
        m.emitted_all(vs).next_key == m.next_key,
        m.emitted_all(vs).delivered.len() >= m.delivered.len(),
        m.emitted_all(vs).delivered.subrange(0, m.delivered.len() as int) == m.delivered,
        forall|j: int|
            m.delivered.len() <= j < m.emitted_all(vs).delivered.len() ==> m.keys.contains(
                #[trigger] m.emitted_all(vs).delivered[j].0,
            ),
        m.wf() ==> m.emitted_all(vs).wf(),
    decreases vs.len(),
{
    if vs.len() > 0 {
        let p = m.emitted_all(vs.drop_last());
        lemma_emitted_all_frame(m, vs.drop_last());
        let e = p.emitted(vs.last());
        assert(e.delivered.subrange(0, m.delivered.len() as int) =~= m.delivered) by {
            assert(p.delivered.subrange(0, m.delivered.len() as int) == m.delivered);
            assert forall|j: int| 0 <= j < m.delivered.len() implies e.delivered[j]
                == m.delivered[j] by {
                assert(e.delivered[j] == p.delivered[j]);
                assert(p.delivered.subrange(0, m.delivered.len() as int)[j] == p.delivered[j]);
            }
        }
        assert forall|j: int| m.delivered.len() <= j < e.delivered.len() implies m.keys.contains(
            #[trigger] e.delivered[j].0,
        ) by {
            if j >= p.delivered.len() {
                let k = j - p.delivered.len();
                assert(e.delivered[j] == p.notifications(vs.last())[k]);
                assert(m.keys[k] == e.delivered[j].0);
            } else {
                assert(e.delivered[j] == p.delivered[j]);
            }
        }
        if m.wf() {
            lemma_emitted_wf(p, vs.last());
        }
    }
}

/// Construction: a service made from `s` holds `s`.
pub proof fn lemma_new_holds_initial<State>(s: State)
    ensures
        ServiceModel::initial(s).latest == s,
        ServiceModel::initial(s).wf(),
{
}

/// Latest value: after one or more emissions the service holds the last value
/// emitted, whatever its subscribers.
pub proof fn lemma_latest_is_last_emitted<State>(m: ServiceModel<State>, vs: Seq<State>)
    requires
        vs.len() > 0,
    ensures
        m.emitted_all(vs).latest == vs.last(),
{
}

/// Replay on subscribe: after any run of emissions, the account of
/// notifications gains one entry for a new subscriber, with the last value
/// emitted (or the value held before the run, if it was empty), and holds none
/// for its identity before. `subscribe` itself states the call on that value.
pub proof fn lemma_replay_on_subscribe<State>(m: ServiceModel<State>, vs: Seq<State>)
    requires
        m.wf(),
    ensures
        ({
            let e = m.emitted_all(vs);
            let key = e.next_key as u64;
            let expected = if vs.len() == 0 {
                m.latest
            } else {
                vs.last()
            };
            &&& e.subscribed().delivered == e.delivered.push((key, expected))
            &&& forall|j: int| 0 <= j < e.delivered.len() ==> #[trigger] e.delivered[j].0 != key
        }),
{
    lemma_emitted_all_frame(m, vs);
}

/// Fan out in order: an emission of `v` adds to the account of notifications
/// one entry with `v` for every registered subscriber, in registration order,
/// after what was there before. `emit` itself states the call of each
/// registered callback on `v`.
pub proof fn lemma_fan_out_in_order<State>(m: ServiceModel<State>, v: State)
    requires
        m.wf(),
    ensures
        ({
            let d = m.emitted(v).delivered;
            let n = m.delivered.len() as int;
            &&& d.len() == n + m.keys.len()
            &&& d.subrange(0, n) == m.delivered
            &&& forall|i: int| 0 <= i < m.keys.len() ==> #[trigger] d[n + i] == (m.keys[i], v)
            &&& forall|i: int, j: int|
                0 <= i < j < m.keys.len() ==> #[trigger] d[n + i].0 != #[trigger] d[n + j].0
        }),
{
    let d = m.emitted(v).delivered;
    let n = m.delivered.len() as int;
    assert(d.subrange(0, n) =~= m.delivered);
    assert forall|i: int| 0 <= i < m.keys.len() implies #[trigger] d[n + i] == (m.keys[i], v) by {
        assert(d[n + i] == m.notifications(v)[i]);
    }
    assert forall|i: int, j: int| 0 <= i < j < m.keys.len() implies #[trigger] d[n + i].0
        != #[trigger] d[n + j].0 by {
        assert(d[n + i] == m.notifications(v)[i]);
        assert(d[n + j] == m.notifications(v)[j]);
        assert(m.keys[i] < m.keys[j]);
    }
}

/// Unsubscribing removes exactly one: after unsubscribing `h`, an emission of
/// `v` notifies every other registered subscriber exactly once, in
/// registration order (identities grow with it), and never `h`.
pub proof fn lemma_unsubscribe_removes_exactly_one<State>(
    m: ServiceModel<State>,
    h: u64,
    v: State,
)
    requires
        m.wf(),
    ensures
        ({
            let u = m.unsubscribed(h);
            let new = u.notifications(v);
            &&& u.emitted(v).delivered == m.delivered + new
            &&& new.len() == if m.keys.contains(h) {
                m.keys.len() - 1
            } else {
                m.keys.len() as int
            }
            &&& forall|j: int| 0 <= j < new.len() ==> #[trigger] new[j].0 != h && new[j].1 == v
            &&& forall|j: int| 0 <= j < new.len() ==> m.keys.contains(#[trigger] new[j].0)
            &&& forall|k: u64|
                k != h && #[trigger] m.keys.contains(k) ==> exists|j: int|
                    0 <= j < new.len() && #[trigger] new[j].0 == k
            &&& forall|a: int, b: int|
                0 <= a < b < new.len() ==> #[trigger] new[a].0 < #[trigger] new[b].0
        }),
{
    let u = m.unsubscribed(h);
    let new = u.notifications(v);
    lemma_unsubscribed_wf(m, h);
    if m.keys.contains(h) {
        let i = choose|k: int| 0 <= k < m.keys.len() && m.keys[k] == h;
        lemma_first_match_of_increasing(m.keys, h, i);
        assert(u.keys == m.keys.remove(i));
        assert forall|j: int| 0 <= j < new.len() implies m.keys.contains(#[trigger] new[j].0) by {
            let j2 = if j < i { j } else { j + 1 };
            assert(new[j].0 == m.keys[j2]);
        }
        assert forall|kk: u64| kk != h && #[trigger] m.keys.contains(kk) implies exists|j: int|
            0 <= j < new.len() && #[trigger] new[j].0 == kk by {
            let p = choose|p: int| 0 <= p < m.keys.len() && m.keys[p] == kk;
            assert(p != i);
            let j = if p < i { p } else { p - 1 };
            assert(new[j].0 == kk);
        }
    } else {
        assert forall|j: int| 0 <= j < new.len() implies m.keys.contains(#[trigger] new[j].0) by {
            assert(new[j].0 == m.keys[j]);
        }
        assert forall|kk: u64| kk != h && #[trigger] m.keys.contains(kk) implies exists|j: int|
            0 <= j < new.len() && #[trigger] new[j].0 == kk by {
            let p = choose|p: int| 0 <= p < m.keys.len() && m.keys[p] == kk;
            assert(new[p].0 == kk);
        }
    }
    assert forall|a: int, b: int| 0 <= a < b < new.len() implies #[trigger] new[a].0
        < #[trigger] new[b].0 by {
        assert(new[a].0 == u.keys[a]);
        assert(new[b].0 == u.keys[b]);
    }
}

/// Unsubscribing is idempotent: a second unsubscription of the same handle
/// changes nothing.
pub proof fn lemma_unsubscribe_idempotent<State>(m: ServiceModel<State>, h: u64)
    requires
        m.wf(),
    ensures
        m.unsubscribed(h).unsubscribed(h) == m.unsubscribed(h),
{
    lemma_unsubscribed_wf(m, h);
}

/// Once unsubscribed, a subscriber receives nothing from any later run of
/// emissions.
pub proof fn lemma_unsubscribed_never_notified<State>(
    m: ServiceModel<State>,
    h: u64,
    vs: Seq<State>,
)
    requires
        m.wf(),
    ensures
        ({
            let u = m.unsubscribed(h);
            let e = u.emitted_all(vs);
            forall|j: int|
                u.delivered.len() <= j < e.delivered.len() ==> #[trigger] e.delivered[j].0 != h
        }),
{
    let u = m.unsubscribed(h);
    lemma_unsubscribed_wf(m, h);
    lemma_emitted_all_frame(u, vs);
}

/// Unsubscribing changes only the registrations, and keeps only registered
/// identities.
proof fn lemma_unsubscribed_frame<State>(m: ServiceModel<State>, key: u64)
    requires
        m.wf(),
    ensures
        m.unsubscribed(key).latest == m.latest,
        m.unsubscribed(key).next_key == m.next_key,
        m.unsubscribed(key).delivered == m.delivered,
        forall|a: int|
            0 <= a < m.unsubscribed(key).keys.len() ==> m.keys.contains(
                #[trigger] m.unsubscribed(key).keys[a],
            ),
{
    if m.keys.contains(key) {
        let i = choose|k: int| 0 <= k < m.keys.len() && m.keys[k] == key;
        lemma_first_match_of_increasing(m.keys, key, i);
        let ks = m.unsubscribed(key).keys;
        assert forall|a: int| 0 <= a < ks.len() implies m.keys.contains(#[trigger] ks[a]) by {
            let a2 = if a < i { a } else { a + 1 };
            assert(ks[a] == m.keys[a2]);
        }
    }
}

/// What a run keeps while `h` is an identity that was handed out and is no
/// longer registered: the run never registers it again and never delivers to
/// it.
proof fn lemma_run_avoids<State>(m: ServiceModel<State>, h: u64, ops: Seq<Operation<State>>)
    requires
        m.wf(),
        h < m.next_key,
        !m.keys.contains(h),
        m.next_key + ops.len() <= u64::MAX,
    ensures
        m.run(ops).wf(),
        m.next_key <= m.run(ops).next_key <= m.next_key + ops.len(),
        !m.run(ops).keys.contains(h),
        m.run(ops).delivered.len() >= m.delivered.len(),
        forall|j: int|
            m.delivered.len() <= j < m.run(ops).delivered.len() ==> #[trigger] m.run(
                ops,
            ).delivered[j].0 != h,
    decreases ops.len(),
{
    if ops.len() > 0 {
        let p = m.run(ops.drop_last());
        lemma_run_avoids(m, h, ops.drop_last());
        let r = p.step(ops.last());
        match ops.last() {
            Operation::Subscribe => {
                lemma_subscribed_wf(p);
                assert(h < p.next_key);
                assert forall|a: int| 0 <= a < r.keys.len() implies r.keys[a] != h by {
                    if a < p.keys.len() {
                        assert(r.keys[a] == p.keys[a]);
                    }
                }
                assert forall|j: int| m.delivered.len() <= j < r.delivered.len() implies #[trigger]
                r.delivered[j].0 != h by {
                    if j < p.delivered.len() {
                        assert(r.delivered[j] == p.delivered[j]);
                    }
                }
            },
            Operation::Unsubscribe(k) => {
                lemma_unsubscribed_wf(p, k);
                lemma_unsubscribed_frame(p, k);
                assert forall|a: int| 0 <= a < r.keys.len() implies r.keys[a] != h by {
                    assert(p.keys.contains(r.keys[a]));
                }
            },
            Operation::Emit(v) => {
                lemma_emitted_wf(p, v);
                assert forall|j: int| m.delivered.len() <= j < r.delivered.len() implies #[trigger]
                r.delivered[j].0 != h by {
                    if j < p.delivered.len() {
                        assert(r.delivered[j] == p.delivered[j]);
                    } else {
                        let q = j - p.delivered.len();
                        assert(r.delivered[j] == p.notifications(v)[q]);
                        assert(p.keys[q] == r.delivered[j].0);
                    }
                }
            },
        }
    }
}

/// A stale handle stays stale: once `h`, handed out by this service, is
/// unsubscribed, no later run of subscriptions, unsubscriptions and
/// emissions delivers anything to it, since identities are never reused.
pub proof fn lemma_stale_handle_never_notified<State>(
    m: ServiceModel<State>,
    h: u64,
    ops: Seq<Operation<State>>,
)
    requires
        m.wf(),
        h < m.next_key,
        m.next_key + ops.len() <= u64::MAX,
    ensures
        ({
            let u = m.unsubscribed(h);
            let r = u.run(ops);
            &&& !r.keys.contains(h)
            &&& forall|j: int|
                u.delivered.len() <= j < r.delivered.len() ==> #[trigger] r.delivered[j].0 != h
        }),
{
    lemma_unsubscribed_wf(m, h);
    lemma_unsubscribed_frame(m, h);
    lemma_run_avoids(m.unsubscribed(h), h, ops);
}

} // verus!
