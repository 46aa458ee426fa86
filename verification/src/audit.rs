//! Audit event stream: the recent-events ring that queries read.
//!
//! Every call that succeeds, and every refused one, is recorded as an event.
//! The newest events stay in a ring of fixed capacity; queries read them
//! newest first.

use vstd::prelude::*;

use crate::auth::KeyGrant;
use crate::text::str_equal;

verus! {

/// Capacity of the ring that queries read.
pub const RING_CAP: usize = 5000;

/// One audit event.
#[derive(Debug, Clone, PartialEq)]
pub struct AuditEvent {
    pub ts: i64,
    pub action: String,
    pub tenant: String,
    pub owner: String,
    pub detail: String,
}

/// Model of an audit event.
pub struct AuditModel {
    pub ts: i64,
    pub action: Seq<char>,
    pub tenant: Seq<char>,
    pub owner: Seq<char>,
    pub detail: Seq<char>,
}

impl View for AuditEvent {
    type V = AuditModel;

    open spec fn view(&self) -> AuditModel {
        AuditModel {
            ts: self.ts,
            action: self.action@,
            tenant: self.tenant@,
            owner: self.owner@,
            detail: self.detail@,
        }
    }
}

pub open spec fn events_view(v: Seq<AuditEvent>) -> Seq<AuditModel> {
    Seq::new(v.len(), |i: int| v[i]@)
}

impl AuditEvent {
    /// A copy of the event.
    pub fn duplicate(&self) -> (r: AuditEvent)
        ensures
            r@ == self@,
    {
        AuditEvent {
            ts: self.ts,
            action: self.action.clone(),
            tenant: self.tenant.clone(),
            owner: self.owner.clone(),
            detail: self.detail.clone(),
        }
    }
}

/// Whether an optional exact filter admits a value.
pub open spec fn admits(filter: Option<Seq<char>>, v: Seq<char>) -> bool {
    match filter {
        None => true,
        Some(f) => f == v,
    }
}

/// Whether an event passes the tenant, owner and action filters.
pub open spec fn event_selected(
    e: AuditModel,
    tenant: Option<Seq<char>>,
    owner: Option<Seq<char>>,
    action: Option<Seq<char>>,
) -> bool {
    admits(tenant, e.tenant) && admits(owner, e.owner) && admits(action, e.action)
}

/// The answer of a query: the selected events, newest first, at most
/// `limit` of them.
pub open spec fn query_result(
    evs: Seq<AuditModel>,
    tenant: Option<Seq<char>>,
    owner: Option<Seq<char>>,
    action: Option<Seq<char>>,
    limit: nat,
) -> Seq<AuditModel>
    decreases evs.len(),
{
    if limit == 0 || evs.len() == 0 {
        Seq::empty()
    } else if event_selected(evs.last(), tenant, owner, action) {
        seq![evs.last()] + query_result(evs.drop_last(), tenant, owner, action, (limit - 1) as nat)
    } else {
        query_result(evs.drop_last(), tenant, owner, action, limit)
    }
}

/// The events that pass the filters, newest first.
pub open spec fn selected_newest_first(
    evs: Seq<AuditModel>,
    tenant: Option<Seq<char>>,
    owner: Option<Seq<char>>,
    action: Option<Seq<char>>,
) -> Seq<AuditModel> {
    evs.reverse().filter(|e: AuditModel| event_selected(e, tenant, owner, action))
}

/// A query answers with the first `limit` of the selected events taken
/// newest first.
pub proof fn lemma_query_is_newest_first(
    evs: Seq<AuditModel>,
    tenant: Option<Seq<char>>,
    owner: Option<Seq<char>>,
    action: Option<Seq<char>>,
    limit: nat,
)
    ensures
        ({
            let f = selected_newest_first(evs, tenant, owner, action);
            query_result(evs, tenant, owner, action, limit) == f.take(if limit < f.len() { limit as int } else { f.len() as int })
        }),
    decreases evs.len(),
{
    let p = |e: AuditModel| event_selected(e, tenant, owner, action);
    let f = selected_newest_first(evs, tenant, owner, action);
    if evs.len() == 0 {
        assert(evs.reverse() =~= Seq::<AuditModel>::empty());
        assert(Seq::<AuditModel>::empty().filter(p) =~= Seq::<AuditModel>::empty()) by {
            reveal(Seq::filter);
        }
        assert(f.take(0) =~= Seq::<AuditModel>::empty());
    } else {
        let pre = evs.drop_last();
        let x = evs.last();
        assert(evs.reverse() =~= seq![x] + pre.reverse());
        pre.reverse().lemma_filter_prepend(x, p);
        let fp = selected_newest_first(pre, tenant, owner, action);
        assert(f == (if p(x) { seq![x] } else { Seq::<AuditModel>::empty() }) + fp);
        if limit == 0 {
            assert(f.take(0) =~= Seq::<AuditModel>::empty());
        } else if p(x) {
            lemma_query_is_newest_first(pre, tenant, owner, action, (limit - 1) as nat);
            let l1 = (limit - 1) as nat;
            let n1 = if l1 < fp.len() { l1 as int } else { fp.len() as int };
            assert(f.take(n1 + 1) =~= seq![x] + fp.take(n1));
        } else {
            lemma_query_is_newest_first(pre, tenant, owner, action, limit);
            assert(f =~= fp);
        }
    }
}

/// The last `cap` elements of `s` (all of them when there are fewer).
pub open spec fn keep_last<T>(s: Seq<T>, cap: nat) -> Seq<T> {
    if s.len() <= cap {
        s
    } else {
        s.skip(s.len() - cap)
    }
}

pub open spec fn opt_str(o: Option<&str>) -> Option<Seq<char>> {
    match o {
        Some(s) => Some(s@),
        None => None,
    }
}

/// The view of an optional string.
pub open spec fn opt_string(o: Option<String>) -> Option<Seq<char>> {
    match o {
        Some(s) => Some(s@),
        None => None,
    }
}

/// The tenant an audit query is held to: a key bound to one tenant sees
/// that tenant only, whatever the request asked for; the wildcard key, and
/// open mode (no grant), see the tenant asked for (all when none).
pub fn audit_tenant(grant: Option<&KeyGrant>, requested: Option<&str>) -> (r: Option<String>)
    ensures
        match grant {
            Some(g) => if g.tenant@ == "*"@ {
                opt_string(r) == opt_str(requested)
            } else {
                opt_string(r) == Some(g.tenant@)
            },
            None => opt_string(r) == opt_str(requested),
        },
{
    match grant {
        Some(g) => if !str_equal(g.tenant.as_str(), "*") {
            return Some(g.tenant.clone());
        },
        None => {},
    }
    match requested {
        Some(t) => Some(t.to_owned()),
        None => None,
    }
}

/// A query held to a tenant answers with that tenant's events only.
pub proof fn lemma_query_stays_in_tenant(
    evs: Seq<AuditModel>,
    tenant: Seq<char>,
    owner: Option<Seq<char>>,
    action: Option<Seq<char>>,
    limit: nat,
)
    ensures
        forall|i: int| 0 <= i < query_result(evs, Some(tenant), owner, action, limit).len()
            ==> (#[trigger] query_result(evs, Some(tenant), owner, action, limit)[i]).tenant == tenant,
    decreases evs.len(),
{
    if limit == 0 || evs.len() == 0 {
    } else {
        lemma_query_stays_in_tenant(evs.drop_last(), tenant, owner, action, limit);
        lemma_query_stays_in_tenant(evs.drop_last(), tenant, owner, action, (limit - 1) as nat);
        let r = query_result(evs, Some(tenant), owner, action, limit);
        if event_selected(evs.last(), Some(tenant), owner, action) {
            let rest = query_result(evs.drop_last(), Some(tenant), owner, action, (limit - 1) as nat);
            assert(r == seq![evs.last()] + rest);
            assert forall|i: int| 0 <= i < r.len() implies (#[trigger] r[i]).tenant == tenant by {
                if i > 0 {
                    assert(r[i] == rest[i - 1]);
                } else {
                    assert(r[0] == evs.last());
                }
            }
        } else {
            assert(r == query_result(evs.drop_last(), Some(tenant), owner, action, limit));
        }
    }
}

fn admits_exec(filter: Option<&str>, v: &String) -> (r: bool)
    ensures
        r == admits(opt_str(filter), v@),
{
    match filter {
        None => true,
        Some(f) => str_equal(f, v.as_str()),
    }
}

/// The ring of recent events.
pub struct AuditRing {
    events: Vec<AuditEvent>,
    cap: usize,
}

impl AuditRing {
    /// The events held, oldest first.
    pub closed spec fn contents(&self) -> Seq<AuditModel> {
        events_view(self.events@)
    }

    pub closed spec fn capacity(&self) -> nat {
        self.cap as nat
    }

    pub closed spec fn wf(&self) -> bool {
        0 < self.cap && self.events@.len() <= self.cap
    }

    /// An empty ring holding at most `cap` events.
    pub fn new(cap: usize) -> (r: AuditRing)
        requires
            cap > 0,
        ensures
            r.wf(),
            r.capacity() == cap,
            r.contents() == Seq::<AuditModel>::empty(),
    {
        let r = AuditRing { events: Vec::new(), cap };
        assert(r.contents() =~= Seq::<AuditModel>::empty());
        r
    }

    /// Number of events held.
    pub fn len(&self) -> (r: usize)
        ensures
            r == self.contents().len(),
    {
        self.events.len()
    }

    /// Appends an event; when the ring is full the oldest event leaves.
    pub fn push(&mut self, ev: AuditEvent)
        requires
            old(self).wf(),
        ensures
            final(self).wf(),
            final(self).capacity() == old(self).capacity(),
            final(self).contents() == if old(self).contents().len() >= old(self).capacity() {
                old(self).contents().drop_first().push(ev@)
            } else {
                old(self).contents().push(ev@)
            },
    {
        let ghost before = self.events@;
        let ghost e = ev@;
        if self.events.len() >= self.cap {
            self.events.remove(0);
        }
        let ghost mid = self.events@;
        self.events.push(ev);
        proof {
            if before.len() >= self.cap {
                assert(mid =~= before.drop_first());
                assert(events_view(self.events@) =~= events_view(before).drop_first().push(e));
            } else {
                assert(events_view(self.events@) =~= events_view(before).push(e));
            }
        }
    }

    /// The selected events, newest first, at most `limit` of them.
    pub fn query(&self, tenant: Option<&str>, owner: Option<&str>, action: Option<&str>, limit: usize) -> (r: Vec<AuditEvent>)
        ensures
            events_view(r@) == query_result(self.contents(), opt_str(tenant), opt_str(owner), opt_str(action), limit as nat),
    {
        let ghost all = self.contents();
        let ghost t = opt_str(tenant);
        let ghost o = opt_str(owner);
        let ghost a = opt_str(action);
        let mut out: Vec<AuditEvent> = Vec::new();
        let mut i: usize = self.events.len();
        assert(all.take(i as int) =~= all);
        while i > 0 && out.len() < limit
            invariant
                i <= self.events@.len(),
                all == events_view(self.events@),
                t == opt_str(tenant),
                o == opt_str(owner),
                a == opt_str(action),
                out@.len() <= limit,
                query_result(all, t, o, a, limit as nat) == events_view(out@) + query_result(all.take(i as int), t, o, a, (limit - out@.len()) as nat),
            decreases i,
        {
            let ghost pre = all.take(i as int);
            assert(pre.drop_last() =~= all.take(i - 1));
            assert(pre.last() == self.events@[i - 1]@);
            let e = &self.events[i - 1];
            let ghost lim = (limit - out@.len()) as nat;
            if admits_exec(tenant, &e.tenant) && admits_exec(owner, &e.owner) && admits_exec(action, &e.action) {
                assert(event_selected(e@, t, o, a));
                assert(query_result(pre, t, o, a, lim) == seq![e@] + query_result(all.take(i - 1), t, o, a, (lim - 1) as nat));
                let ghost prev = out@;
                out.push(e.duplicate());
                assert(events_view(out@) =~= events_view(prev).push(e@));
                assert(events_view(prev) + (seq![e@] + query_result(all.take(i - 1), t, o, a, (limit - prev.len() - 1) as nat)) =~= events_view(out@) + query_result(all.take(i - 1), t, o, a, (limit - out@.len()) as nat));
            }
            else {
                assert(!event_selected(e@, t, o, a));
                assert(query_result(pre, t, o, a, lim) == query_result(all.take(i - 1), t, o, a, lim));
            }
            i = i - 1;
        }
        proof {
            if out@.len() == limit {
                assert(query_result(all.take(i as int), t, o, a, 0) == Seq::<AuditModel>::empty());
            } else {
                assert(all.take(0) =~= Seq::<AuditModel>::empty());
            }
            assert(events_view(out@) + Seq::<AuditModel>::empty() =~= events_view(out@));
        }
        out
    }
}

/// The ring keeps the newest events: if it held the last `cap` events of
/// a history, after a push it holds the last `cap` events of the history
/// with the new event appended.
pub proof fn lemma_ring_keeps_latest(held: Seq<AuditModel>, history: Seq<AuditModel>, cap: nat, e: AuditModel)
    requires
        cap > 0,
        held == keep_last(history, cap),
    ensures
        keep_last(history.push(e), cap) == if held.len() >= cap {
            held.drop_first().push(e)
        } else {
            held.push(e)
        },
{
    let h2 = history.push(e);
    if history.len() < cap {
        assert(held == history);
    } else {
        assert(held.len() == cap);
        assert(keep_last(h2, cap) =~= held.drop_first().push(e));
    }
}

/// Rebuilds the ring from the lines of the log's tail, in file order: lines
/// that did not parse are `None`; when the tail starts inside the log, its
/// first line is cut and is skipped.
pub fn preload(lines: Vec<Option<AuditEvent>>, skip_first: bool, cap: usize) -> (r: AuditRing)
    requires
        cap > 0,
    ensures
        r.wf(),
        r.capacity() == cap,
        r.contents() == keep_last(preloaded(lines@, skip_first), cap as nat),
{
    let mut ring = AuditRing::new(cap);
    let ghost kept = preloaded(lines@, skip_first);
    let mut i: usize = 0;
    while i < lines.len()
        invariant
            i <= lines@.len(),
            ring.wf(),
            ring.capacity() == cap,
            cap > 0,
            kept == preloaded(lines@, skip_first),
            ring.contents() == keep_last(preloaded(lines@.take(i as int), skip_first), cap as nat),
        decreases lines@.len() - i,
    {
        let ghost before = preloaded(lines@.take(i as int), skip_first);
        assert(lines@.take(i + 1).drop_last() =~= lines@.take(i as int));
        if !(skip_first && i == 0) {
            match &lines[i] {
                Some(ev) => {
                    proof {
                        lemma_ring_keeps_latest(ring.contents(), before, cap as nat, ev@);
                    }
                    ring.push(ev.duplicate());
                },
                None => {},
            }
        }
        i = i + 1;
    }
    assert(lines@.take(lines@.len() as int) =~= lines@);
    ring
}

/// The events that preloading keeps, in file order.
pub open spec fn preloaded(lines: Seq<Option<AuditEvent>>, skip_first: bool) -> Seq<AuditModel>
    decreases lines.len(),
{
    if lines.len() == 0 {
        Seq::empty()
    } else {
        let before = preloaded(lines.drop_last(), skip_first);
        if skip_first && lines.len() == 1 {
            before
        } else {
            match lines.last() {
                Some(ev) => before.push(ev@),
                None => before,
            }
        }
    }
}

/// The event a log line holds, if it parsed.
pub open spec fn line_event(line: Option<AuditEvent>) -> Option<AuditModel> {
    match line {
        Some(ev) => Some(ev@),
        None => None,
    }
}

/// Preloading loses no event it should keep: read from the start of the
/// log, it keeps the event of every line that parsed, in file order; read
/// from inside the log, it drops exactly the first (cut) line and keeps the
/// events of all the others.
pub proof fn lemma_preload_keeps_every_event(lines: Seq<Option<AuditEvent>>)
    ensures
        preloaded(lines, false) == lines.filter_map(|l: Option<AuditEvent>| line_event(l)),
        lines.len() > 0 ==> preloaded(lines, true) == lines.drop_first().filter_map(
            |l: Option<AuditEvent>| line_event(l),
        ),
    decreases lines.len(),
{
    if lines.len() > 0 {
        let d = lines.drop_last();
        lemma_preload_keeps_every_event(d);
        match lines.last() {
            Some(ev) => {
                assert(preloaded(d, false).push(ev@) =~= preloaded(d, false) + seq![ev@]);
            },
            None => {},
        }
        if lines.len() > 1 {
            let t = lines.drop_first();
            let f = |l: Option<AuditEvent>| line_event(l);
            assert(t.drop_last() =~= d.drop_first());
            assert(t.last() == lines.last());
            assert(preloaded(d, true) == d.drop_first().filter_map(f));
            match lines.last() {
                Some(ev) => {
                    assert(t.filter_map(f) == t.drop_last().filter_map(f) + seq![ev@]);
                    assert(preloaded(d, true).push(ev@) =~= preloaded(d, true) + seq![ev@]);
                },
                None => {
                    assert(t.filter_map(f) == t.drop_last().filter_map(f));
                },
            }
            match lines.last() {
                Some(ev) => {
                    assert(preloaded(lines, true) == preloaded(d, true).push(ev@));
                },
                None => {
                    assert(preloaded(lines, true) == preloaded(d, true));
                },
            }
            assert(preloaded(lines, true) == t.filter_map(f));
        } else {
            let f = |l: Option<AuditEvent>| line_event(l);
            assert(lines.drop_first() =~= Seq::<Option<AuditEvent>>::empty());
            assert(d =~= Seq::<Option<AuditEvent>>::empty());
            assert(preloaded(lines, true) == preloaded(d, true));
            assert(preloaded(d, true) =~= Seq::<AuditModel>::empty());
            assert(lines.drop_first().filter_map(f) =~= Seq::<AuditModel>::empty());
        }
    }
}

} // verus!
