use vstd::prelude::*;
use crate::action::{Action, ActionType, InvariantViolation, Timestamp, distinct_paths, has_path};

verus! {

/// The last synchronisation time of one path.
#[derive(Debug, Clone)]
pub struct LedgerInfo {
    pub path: String,
    pub last_update: Timestamp,
}

/// The record of one path: its text and its time.
pub open spec fn info_pair(e: LedgerInfo) -> (Seq<char>, Timestamp) {
    (e.path@, e.last_update)
}

pub open spec fn pairs_of(s: Seq<LedgerInfo>) -> Seq<(Seq<char>, Timestamp)> {
    s.map_values(|e: LedgerInfo| info_pair(e))
}

/// The mapping that a list of records describes; a later record of a path
/// overrides an earlier one.
pub open spec fn entries_map(s: Seq<(Seq<char>, Timestamp)>) -> Map<Seq<char>, Timestamp>
    decreases s.len(),
{
    if s.len() == 0 {
        Map::empty()
    } else {
        entries_map(s.drop_last()).insert(s.last().0, s.last().1)
    }
}

pub open spec fn keys_distinct(s: Seq<(Seq<char>, Timestamp)>) -> bool {
    forall|i: int, j: int| 0 <= i < j < s.len() ==> s[i].0 != s[j].0
}

proof fn lemma_entries_dom(s: Seq<(Seq<char>, Timestamp)>, p: Seq<char>)
    ensures
        entries_map(s).contains_key(p) <==> exists|i: int| 0 <= i < s.len() && s[i].0 == p,
    decreases s.len(),
{
    if s.len() > 0 {
        lemma_entries_dom(s.drop_last(), p);
        if entries_map(s.drop_last()).contains_key(p) {
            let i = choose|i: int| 0 <= i < s.drop_last().len() && s.drop_last()[i].0 == p;
            assert(s[i].0 == p);
        }
        if exists|i: int| 0 <= i < s.len() && s[i].0 == p {
            let i = choose|i: int| 0 <= i < s.len() && s[i].0 == p;
            if i < s.len() - 1 {
                assert(s.drop_last()[i].0 == p);
            }
        }
    }
}

proof fn lemma_entries_value(s: Seq<(Seq<char>, Timestamp)>, i: int)
    requires
        keys_distinct(s),
        0 <= i < s.len(),
    ensures
        entries_map(s).contains_key(s[i].0),
        entries_map(s)[s[i].0] == s[i].1,
    decreases s.len(),
{
    if i < s.len() - 1 {
        lemma_entries_value(s.drop_last(), i);
    }
}

proof fn lemma_entries_update(s: Seq<(Seq<char>, Timestamp)>, i: int, p: Seq<char>, t: Timestamp)
    requires
        keys_distinct(s),
        0 <= i < s.len(),
        s[i].0 == p,
    ensures
        keys_distinct(s.update(i, (p, t))),
        entries_map(s.update(i, (p, t))) == entries_map(s).insert(p, t),
{
    let u = s.update(i, (p, t));
    assert forall|k: Seq<char>| #[trigger] entries_map(u).contains_key(k) <==> entries_map(s).insert(p, t).contains_key(k) by {
        lemma_entries_dom(u, k);
        lemma_entries_dom(s, k);
        if exists|j: int| 0 <= j < s.len() && s[j].0 == k {
            let j = choose|j: int| 0 <= j < s.len() && s[j].0 == k;
            assert(u[j].0 == k);
        }
        if exists|j: int| 0 <= j < u.len() && u[j].0 == k {
            let j = choose|j: int| 0 <= j < u.len() && u[j].0 == k;
            assert(s[j].0 == k);
        }
    }
    assert forall|k: Seq<char>| #[trigger] entries_map(u).contains_key(k) implies entries_map(u)[k] == entries_map(s).insert(p, t)[k] by {
        lemma_entries_dom(u, k);
        let j = choose|j: int| 0 <= j < u.len() && u[j].0 == k;
        lemma_entries_value(u, j);
        if j != i {
            lemma_entries_value(s, j);
        }
    }
    assert(entries_map(u) =~= entries_map(s).insert(p, t));
}

proof fn lemma_entries_remove(s: Seq<(Seq<char>, Timestamp)>, i: int)
    requires
        keys_distinct(s),
        0 <= i < s.len(),
    ensures
        keys_distinct(s.remove(i)),
        entries_map(s.remove(i)) == entries_map(s).remove(s[i].0),
{
    let u = s.remove(i);
    let p = s[i].0;
    assert(forall|j: int| 0 <= j < i ==> u[j] == s[j]);
    assert(forall|j: int| i <= j < u.len() ==> u[j] == s[j + 1]);
    assert forall|a: int, b: int| 0 <= a < b < u.len() implies u[a].0 != u[b].0 by {
        let a2 = if a < i { a } else { a + 1 };
        let b2 = if b < i { b } else { b + 1 };
        assert(u[a] == s[a2] && u[b] == s[b2]);
    }
    assert forall|k: Seq<char>| #[trigger] entries_map(u).contains_key(k) <==> entries_map(s).remove(p).contains_key(k) by {
        lemma_entries_dom(u, k);
        lemma_entries_dom(s, k);
        if exists|j: int| 0 <= j < s.len() && s[j].0 == k {
            let j = choose|j: int| 0 <= j < s.len() && s[j].0 == k;
            if j < i {
                assert(u[j].0 == k);
            } else if j > i {
                assert(u[j - 1].0 == k);
            }
        }
        if exists|j: int| 0 <= j < u.len() && u[j].0 == k {
            let j = choose|j: int| 0 <= j < u.len() && u[j].0 == k;
            let j2 = if j < i { j } else { j + 1 };
            assert(s[j2].0 == k);
        }
    }
    assert forall|k: Seq<char>| #[trigger] entries_map(u).contains_key(k) implies entries_map(u)[k] == entries_map(s).remove(p)[k] by {
        lemma_entries_dom(u, k);
        let j = choose|j: int| 0 <= j < u.len() && u[j].0 == k;
        lemma_entries_value(u, j);
        let j2 = if j < i { j } else { j + 1 };
        assert(s[j2] == u[j]);
        lemma_entries_value(s, j2);
    }
    assert(entries_map(u) =~= entries_map(s).remove(p));
}

/// What one concrete action does to a ledger at time `now`: a copy records
/// the path, a deletion forgets it, anything else leaves the ledger as it is.
pub open spec fn after_action(
    m: Map<Seq<char>, Timestamp>,
    p: Seq<char>,
    kind: ActionType,
    now: Timestamp,
) -> Map<Seq<char>, Timestamp> {
    match kind {
        ActionType::Local2Remote | ActionType::Remote2Local => m.insert(p, now),
        ActionType::DelLocal | ActionType::DelRemote => m.remove(p),
        _ => m,
    }
}

/// The ledger that follows a run of `acts` at time `now`, from the ledger
/// `g` that the run started with: a copied path is recorded at `now`, a
/// deleted one is dropped, an untouched one keeps its baseline in `g`.
pub open spec fn derived(
    g: Map<Seq<char>, Timestamp>,
    acts: Seq<Action>,
    now: Timestamp,
) -> Map<Seq<char>, Timestamp>
    decreases acts.len(),
{
    if acts.len() == 0 {
        Map::empty()
    } else {
        let m = derived(g, acts.drop_last(), now);
        let p = acts.last().path@;
        match acts.last().action {
            ActionType::Nothing => if g.contains_key(p) {
                m.insert(p, g[p])
            } else {
                m.remove(p)
            },
            k => after_action(m, p, k, now),
        }
    }
}

/// Some action of `acts` is still a conflict.
pub open spec fn has_conflict(acts: Seq<Action>) -> bool {
    exists|i: int| 0 <= i < acts.len() && (#[trigger] acts[i].action) is Error
}

/// Some action of `actions` is still a conflict that waits for a decision.
pub fn has_pending(actions: &Vec<Action>) -> (r: bool)
    ensures
        r == has_conflict(actions@),
{
    let mut i: usize = 0;
    while i < actions.len()
        invariant
            i <= actions@.len(),
            forall|j: int| 0 <= j < i ==> !(#[trigger] actions@[j].action is Error),
        decreases actions@.len() - i,
    {
        if actions[i].action.is_error() {
            return true;
        }
        i = i + 1;
    }
    false
}

/// Relies on time::OffsetDateTime::now_utc and unix_timestamp_nanos: the
/// instant of the call, in nanoseconds since the Unix epoch.
#[verifier::external_body]
fn current_time() -> (r: Timestamp) {
    time::OffsetDateTime::now_utc().unix_timestamp_nanos()
}

/// The records that `records` hands out for persisting describe, once read
/// back by `from_records`, the very mapping that was persisted.
pub proof fn lemma_ledger_round_trip(l: Ledger, recs: Seq<LedgerInfo>)
    requires
        l.wf(),
        pairs_of(recs) == l.record_pairs(),
    ensures
        entries_map(pairs_of(recs)) == l@,
{
}

/// For each path, the time at which both sides were last known to agree.
pub struct Ledger {
    path_map: Vec<LedgerInfo>,
}

impl View for Ledger {
    type V = Map<Seq<char>, Timestamp>;

    closed spec fn view(&self) -> Map<Seq<char>, Timestamp> {
        entries_map(pairs_of(self.path_map@))
    }
}

impl Ledger {
    /// No path is recorded twice.
    pub closed spec fn wf(&self) -> bool {
        keys_distinct(pairs_of(self.path_map@))
    }

    /// The records as they are held, in order.
    pub closed spec fn record_pairs(&self) -> Seq<(Seq<char>, Timestamp)> {
        pairs_of(self.path_map@)
    }

    pub fn new() -> (r: Ledger)
        ensures
            r.wf(),
            r@ == Map::<Seq<char>, Timestamp>::empty(),
    {
        Ledger { path_map: Vec::new() }
    }

    fn position(&self, path: &String) -> (r: Option<usize>)
        requires
            self.wf(),
        ensures
            match r {
                Some(i) => i < self.path_map@.len() && self.path_map@[i as int].path@ == path@,
                None => !self@.contains_key(path@),
            },
    {
        let mut i: usize = 0;
        while i < self.path_map.len()
            invariant
                i <= self.path_map@.len(),
                forall|j: int| 0 <= j < i ==> self.path_map@[j].path@ != path@,
            decreases self.path_map@.len() - i,
        {
            if self.path_map[i].path == *path {
                return Some(i);
            }
            i = i + 1;
        }
        proof {
            lemma_entries_dom(pairs_of(self.path_map@), path@);
        }
        None
    }

    /// The baseline of `path`, if the ledger has one.
    pub fn get(&self, path: &String) -> (r: Option<Timestamp>)
        requires
            self.wf(),
        ensures
            r == (if self@.contains_key(path@) { Some(self@[path@]) } else { None::<Timestamp> }),
    {
        match self.position(path) {
            Some(i) => {
                proof {
                    lemma_entries_value(pairs_of(self.path_map@), i as int);
                }
                Some(self.path_map[i].last_update)
            },
            None => None,
        }
    }

    /// Builds a ledger from persisted records; a later record of a path
    /// overrides an earlier one.
    pub fn from_records(recs: &Vec<LedgerInfo>) -> (r: Ledger)
        ensures
            r.wf(),
            r@ == entries_map(pairs_of(recs@)),
    {
        let mut r = Ledger::new();
        let mut i: usize = 0;
        while i < recs.len()
            invariant
                i <= recs@.len(),
                r.wf(),
                r@ == entries_map(pairs_of(recs@.take(i as int))),
            decreases recs@.len() - i,
        {
            r.insert(&recs[i].path, recs[i].last_update);
            proof {
                assert(pairs_of(recs@.take(i + 1)).drop_last() =~= pairs_of(recs@.take(i as int)));
            }
            i = i + 1;
        }
        assert(recs@.take(recs@.len() as int) =~= recs@);
        r
    }

    /// The records to persist, one per path.
    pub fn records(&self) -> (r: Vec<LedgerInfo>)
        requires
            self.wf(),
        ensures
            pairs_of(r@) == self.record_pairs(),
            keys_distinct(pairs_of(r@)),
    {
        let mut r: Vec<LedgerInfo> = Vec::new();
        let mut i: usize = 0;
        while i < self.path_map.len()
            invariant
                i <= self.path_map@.len(),
                pairs_of(r@) == pairs_of(self.path_map@.take(i as int)),
            decreases self.path_map@.len() - i,
        {
            let e = LedgerInfo { path: self.path_map[i].path.clone(), last_update: self.path_map[i].last_update };
            let ghost before = r@;
            r.push(e);
            proof {
                assert(pairs_of(r@) =~= pairs_of(before).push(info_pair(e)));
                assert(pairs_of(self.path_map@.take(i + 1)) =~= pairs_of(self.path_map@.take(i as int)).push(
                    info_pair(self.path_map@[i as int]),
                ));
            }
            i = i + 1;
        }
        assert(self.path_map@.take(self.path_map@.len() as int) =~= self.path_map@);
        r
    }

    /// Applies one concrete action at time `now`. Fails, leaving the ledger
    /// as it was, on a conflict that was not resolved.
    pub fn record(&mut self, file: &String, action: ActionType, now: Timestamp) -> (r: Result<(), InvariantViolation>)
        requires
            old(self).wf(),
        ensures
            final(self).wf(),
            r is Ok <==> !(action is Error),
            r is Ok ==> final(self)@ == after_action(old(self)@, file@, action, now),
            r is Err ==> final(self)@ == old(self)@,
    {
        match action {
            ActionType::DelLocal | ActionType::DelRemote => {
                self.remove(file);
                Ok(())
            },
            ActionType::Local2Remote | ActionType::Remote2Local => {
                self.insert(file, now);
                Ok(())
            },
            ActionType::Nothing => Ok(()),
            ActionType::Error(_) => Err(InvariantViolation::UnresolvedConflict(file.clone())),
        }
    }

    /// Applies one concrete action, recording a copy at the current time.
    pub fn update_ledger(&mut self, file: &String, action: ActionType) -> (r: Result<(), InvariantViolation>)
        requires
            old(self).wf(),
        ensures
            final(self).wf(),
            r is Ok <==> !(action is Error),
            r is Ok ==> exists|now: Timestamp| final(self)@ == after_action(old(self)@, file@, action, now),
            r is Err ==> final(self)@ == old(self)@,
    {
        let now = current_time();
        self.record(file, action, now)
    }

    /// The ledger after a run of `actions` at time `now`. Fails on the first
    /// conflict that was not resolved.
    pub fn derive_next(&self, actions: &Vec<Action>, now: Timestamp) -> (r: Result<Ledger, InvariantViolation>)
        requires
            self.wf(),
        ensures
            r is Ok <==> !has_conflict(actions@),
            match r {
                Ok(l) => l.wf() && l@ == derived(self@, actions@, now),
                Err(e) => e matches InvariantViolation::UnresolvedConflict(p)
                    && exists|i: int| 0 <= i < actions@.len() && actions@[i].action is Error && actions@[i].path@ == p@,
            },
    {
        let mut next = Ledger::new();
        let mut i: usize = 0;
        while i < actions.len()
            invariant
                i <= actions@.len(),
                self.wf(),
                next.wf(),
                next@ == derived(self@, actions@.take(i as int), now),
                !has_conflict(actions@.take(i as int)),
            decreases actions@.len() - i,
        {
            let a = &actions[i];
            proof {
                assert(actions@.take(i + 1).drop_last() =~= actions@.take(i as int));
                assert(actions@.take(i + 1).last() == actions@[i as int]);
            }
            match a.action {
                ActionType::Nothing => {
                    match self.get(&a.path) {
                        Some(t) => next.insert(&a.path, t),
                        None => next.remove(&a.path),
                    }
                },
                ActionType::Error(_) => {
                    return Err(InvariantViolation::UnresolvedConflict(a.path.clone()));
                },
                k => {
                    let _ = next.record(&a.path, k, now);
                },
            }
            proof {
                assert forall|j: int| 0 <= j < i + 1 implies !(#[trigger] actions@.take(i + 1)[j].action is Error) by {
                    if j < i {
                        assert(actions@.take(i as int)[j] == actions@.take(i + 1)[j]);
                    }
                }
            }
            i = i + 1;
        }
        assert(actions@.take(actions@.len() as int) =~= actions@);
        Ok(next)
    }

    /// The ledger after a run of `actions` that ends now.
    pub fn ledger_from(&self, actions: &Vec<Action>) -> (r: Result<Ledger, InvariantViolation>)
        requires
            self.wf(),
        ensures
            r is Ok <==> !has_conflict(actions@),
            match r {
                Ok(l) => l.wf() && exists|now: Timestamp| l@ == derived(self@, actions@, now),
                Err(e) => e matches InvariantViolation::UnresolvedConflict(_),
            },
    {
        let now = current_time();
        self.derive_next(actions, now)
    }

    /// Every recorded path, once each.
    pub fn paths(&self) -> (r: Vec<String>)
        requires
            self.wf(),
        ensures
            distinct_paths(r@),
            forall|p: Seq<char>| has_path(r@, p) <==> self@.contains_key(p),
    {
        let mut r: Vec<String> = Vec::new();
        let mut i: usize = 0;
        while i < self.path_map.len()
            invariant
                i <= self.path_map@.len(),
                self.wf(),
                r@.len() == i,
                forall|k: int| 0 <= k < i ==> r@[k]@ == self.path_map@[k].path@,
            decreases self.path_map@.len() - i,
        {
            r.push(self.path_map[i].path.clone());
            i = i + 1;
        }
        proof {
            let recs = pairs_of(self.path_map@);
            assert forall|a: int, b: int| 0 <= a < b < r@.len() implies r@[a]@ != r@[b]@ by {
                assert(recs[a].0 != recs[b].0);
            }
            assert forall|p: Seq<char>| has_path(r@, p) <==> self@.contains_key(p) by {
                lemma_entries_dom(recs, p);
                if has_path(r@, p) {
                    let k = choose|k: int| 0 <= k < r@.len() && r@[k]@ == p;
                    assert(recs[k].0 == p);
                }
                if self@.contains_key(p) {
                    let k = choose|k: int| 0 <= k < recs.len() && recs[k].0 == p;
                    assert(r@[k]@ == p);
                }
            }
        }
        r
    }

    /// Records `path` as synchronised at `time`.
    pub fn insert(&mut self, path: &String, time: Timestamp)
        requires
            old(self).wf(),
        ensures
            final(self).wf(),
            final(self)@ == old(self)@.insert(path@, time),
    {
        let info = LedgerInfo { path: path.clone(), last_update: time };
        match self.position(path) {
            Some(i) => {
                proof {
                    lemma_entries_update(pairs_of(self.path_map@), i as int, path@, time);
                    assert(pairs_of(self.path_map@.update(i as int, info)) =~= pairs_of(self.path_map@).update(i as int, (path@, time)));
                }
                self.path_map.set(i, info);
            },
            None => {
                let ghost before = pairs_of(self.path_map@);
                proof {
                    lemma_entries_dom(before, path@);
                    assert(pairs_of(self.path_map@.push(info)) =~= before.push((path@, time)));
                }
                self.path_map.push(info);
                proof {
                    let after = pairs_of(self.path_map@);
                    assert(after.drop_last() =~= before);
                    assert forall|a: int, b: int| 0 <= a < b < after.len() implies after[a].0 != after[b].0 by {
                        if b == before.len() {
                            assert(before[a].0 != path@);
                        } else {
                            assert(after[a] == before[a] && after[b] == before[b]);
                        }
                    }
                }
            },
        }
    }

    /// Forgets `path`.
    pub fn remove(&mut self, path: &String)
        requires
            old(self).wf(),
        ensures
            final(self).wf(),
            final(self)@ == old(self)@.remove(path@),
    {
        match self.position(path) {
            Some(i) => {
                proof {
                    lemma_entries_remove(pairs_of(self.path_map@), i as int);
                    assert(pairs_of(self.path_map@.remove(i as int)) =~= pairs_of(self.path_map@).remove(i as int));
                }
                self.path_map.remove(i);
            },
            None => {
                assert(self@.remove(path@) =~= self@);
            },
        }
    }
}

} // verus!
