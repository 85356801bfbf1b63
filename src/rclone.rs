use vstd::prelude::*;
use crate::action::{Action, ActionType, Timestamp, path_views, has_path};

verus! {

/// One entry of a listing of a storage location.
#[derive(Debug, Clone)]
pub struct RFileInfo {
    pub path: String,
    pub size: i64,
    pub mod_time: Timestamp,
    pub is_dir: bool,
}

/// The modification time that the listing `s` gives the regular file `p`:
/// the last entry of that path wins, directories never count.
pub open spec fn side_time(s: Seq<RFileInfo>, p: Seq<char>) -> Option<Timestamp>
    decreases s.len(),
{
    if s.len() == 0 {
        None
    } else if !s.last().is_dir && s.last().path@ == p {
        Some(s.last().mod_time)
    } else {
        side_time(s.drop_last(), p)
    }
}

/// The listing `s` holds `p` as a regular file.
pub open spec fn on_side(s: Seq<RFileInfo>, p: Seq<char>) -> bool {
    exists|i: int| 0 <= i < s.len() && !s[i].is_dir && s[i].path@ == p
}

pub proof fn lemma_side_time_some(s: Seq<RFileInfo>, p: Seq<char>)
    ensures
        side_time(s, p) is Some <==> on_side(s, p),
    decreases s.len(),
{
    if s.len() > 0 {
        let t = s.drop_last();
        lemma_side_time_some(t, p);
        if on_side(t, p) {
            let i = choose|i: int| 0 <= i < t.len() && !t[i].is_dir && t[i].path@ == p;
            assert(s[i] == t[i]);
        }
        if on_side(s, p) && !(!s.last().is_dir && s.last().path@ == p) {
            let i = choose|i: int| 0 <= i < s.len() && !s[i].is_dir && s[i].path@ == p;
            assert(t[i] == s[i]);
        }
    }
}

proof fn lemma_side_time_step(s: Seq<RFileInfo>, i: int, p: Seq<char>)
    requires
        0 <= i < s.len(),
    ensures
        side_time(s.take(i + 1), p) == (if !s[i].is_dir && s[i].path@ == p {
            Some(s[i].mod_time)
        } else {
            side_time(s.take(i), p)
        }),
{
    assert(s.take(i + 1).drop_last() =~= s.take(i));
}

pub proof fn lemma_on_side_take(s: Seq<RFileInfo>, i: int, p: Seq<char>)
    requires
        0 <= i < s.len(),
    ensures
        on_side(s.take(i + 1), p) <==> (on_side(s.take(i), p) || (!s[i].is_dir && s[i].path@ == p)),
{
    let a = s.take(i + 1);
    let b = s.take(i);
    if on_side(a, p) {
        let k = choose|k: int| 0 <= k < a.len() && !a[k].is_dir && a[k].path@ == p;
        if k < i {
            assert(b[k] == s[k]);
        }
    }
    if on_side(b, p) {
        let k = choose|k: int| 0 <= k < b.len() && !b[k].is_dir && b[k].path@ == p;
        assert(a[k] == s[k]);
    }
    if !s[i].is_dir && s[i].path@ == p {
        assert(a[i] == s[i]);
    }
}

/// The modification time of `path` in the listing `side`.
pub fn side_time_of(side: &Vec<RFileInfo>, path: &String) -> (r: Option<Timestamp>)
    ensures
        r == side_time(side@, path@),
{
    let mut r: Option<Timestamp> = None;
    let mut i: usize = 0;
    while i < side.len()
        invariant
            i <= side@.len(),
            r == side_time(side@.take(i as int), path@),
        decreases side@.len() - i,
    {
        proof {
            lemma_side_time_step(side@, i as int, path@);
        }
        if !side[i].is_dir && side[i].path == *path {
            r = Some(side[i].mod_time);
        }
        i = i + 1;
    }
    assert(side@.take(side@.len() as int) =~= side@);
    r
}

/// The paths of the actions of `s` whose kind is `k`, in order.
pub open spec fn paths_of_kind(s: Seq<Action>, k: ActionType) -> Seq<Seq<char>>
    decreases s.len(),
{
    if s.len() == 0 {
        Seq::empty()
    } else if s.last().action == k {
        paths_of_kind(s.drop_last(), k).push(s.last().path@)
    } else {
        paths_of_kind(s.drop_last(), k)
    }
}

/// The paths of all actions of one kind.
#[derive(Debug, Clone)]
pub struct ActionGroup {
    pub kind: ActionType,
    pub paths: Vec<String>,
}

/// Some action of `acts` has kind `k`.
pub open spec fn kind_occurs(acts: Seq<Action>, k: ActionType) -> bool {
    exists|j: int| 0 <= j < acts.len() && acts[j].action == k
}

/// Some group of `groups` has kind `k`.
pub open spec fn has_group(groups: Seq<ActionGroup>, k: ActionType) -> bool {
    exists|i: int| 0 <= i < groups.len() && groups[i].kind == k
}

/// `groups` holds one group per kind that occurs in `acts`, each with the
/// paths of that kind in the order of `acts`.
pub open spec fn grouped(acts: Seq<Action>, groups: Seq<ActionGroup>) -> bool {
    &&& forall|i: int, j: int| 0 <= i < j < groups.len() ==> groups[i].kind != groups[j].kind
    &&& forall|k: ActionType| has_group(groups, k) <==> kind_occurs(acts, k)
    &&& forall|i: int|
        0 <= i < groups.len() ==> path_views((#[trigger] groups[i]).paths@) == paths_of_kind(acts, groups[i].kind)
}

/// The paths of the actions of kind `k`.
fn paths_with_kind(actions: &Vec<Action>, k: ActionType) -> (r: Vec<String>)
    ensures
        path_views(r@) == paths_of_kind(actions@, k),
{
    let mut r: Vec<String> = Vec::new();
    let mut i: usize = 0;
    while i < actions.len()
        invariant
            i <= actions@.len(),
            path_views(r@) == paths_of_kind(actions@.take(i as int), k),
        decreases actions@.len() - i,
    {
        let ghost before = r@;
        if actions[i].action == k {
            r.push(actions[i].path.clone());
        }
        proof {
            assert(actions@.take(i + 1).drop_last() =~= actions@.take(i as int));
            assert(path_views(r@) =~= paths_of_kind(actions@.take(i + 1), k));
        }
        i = i + 1;
    }
    assert(actions@.take(actions@.len() as int) =~= actions@);
    r
}

/// Groups the paths of `actions` by kind, kinds in the order in which they
/// first occur.
pub fn sort_actions(actions: &Vec<Action>) -> (r: Vec<ActionGroup>)
    ensures
        grouped(actions@, r@),
{
    let mut r: Vec<ActionGroup> = Vec::new();
    let mut i: usize = 0;
    while i < actions.len()
        invariant
            i <= actions@.len(),
            forall|a: int, b: int| 0 <= a < b < r@.len() ==> r@[a].kind != r@[b].kind,
            forall|k: ActionType| has_group(r@, k) <==> kind_occurs(actions@.take(i as int), k),
            forall|a: int|
                0 <= a < r@.len() ==> path_views((#[trigger] r@[a]).paths@) == paths_of_kind(actions@, r@[a].kind),
        decreases actions@.len() - i,
    {
        let k = actions[i].action;
        let ghost before_groups = r@;
        let mut seen = false;
        let mut g: usize = 0;
        while g < r.len()
            invariant
                g <= r@.len(),
                seen <==> exists|a: int| 0 <= a < g && r@[a].kind == k,
            decreases r@.len() - g,
        {
            if r[g].kind == k {
                seen = true;
            }
            g = g + 1;
        }
        if !seen {
            let paths = paths_with_kind(actions, k);
            let ghost before = r@;
            r.push(ActionGroup { kind: k, paths });
            proof {
                assert forall|a: int| 0 <= a < before.len() implies r@[a] == before[a] by {}
            }
        }
        proof {
            let t0 = actions@.take(i as int);
            let t1 = actions@.take(i + 1);
            assert forall|kk: ActionType| has_group(r@, kk) <==> kind_occurs(t1, kk) by {
                if kind_occurs(t0, kk) {
                    let j = choose|j: int| 0 <= j < t0.len() && t0[j].action == kk;
                    assert(t1[j] == t0[j]);
                }
                if kind_occurs(t1, kk) {
                    let j = choose|j: int| 0 <= j < t1.len() && t1[j].action == kk;
                    if j < i {
                        assert(t0[j] == t1[j]);
                    }
                }
                if kk == k {
                    assert(t1[i as int].action == kk);
                    if seen {
                        assert(has_group(before_groups, kk));
                    } else {
                        assert(r@[before_groups.len() as int].kind == kk);
                    }
                }
                if has_group(before_groups, kk) {
                    let a = choose|a: int| 0 <= a < before_groups.len() && before_groups[a].kind == kk;
                    assert(r@[a] == before_groups[a]);
                }
                if has_group(r@, kk) && kk != k {
                    let a = choose|a: int| 0 <= a < r@.len() && r@[a].kind == kk;
                    assert(seen ==> r@ == before_groups);
                    assert(a < before_groups.len());
                    assert(before_groups[a] == r@[a]);
                }
            }
        }
        i = i + 1;
    }
    assert(actions@.take(actions@.len() as int) =~= actions@);
    r
}

/// `p` cut into consecutive pieces of `m` paths, the last one possibly
/// shorter.
pub open spec fn chunks_of(p: Seq<Seq<char>>, m: nat) -> Seq<Seq<Seq<char>>>
    decreases p.len(),
{
    if p.len() == 0 || m == 0 {
        Seq::empty()
    } else if p.len() <= m {
        seq![p]
    } else {
        seq![p.take(m as int)] + chunks_of(p.skip(m as int), m)
    }
}

/// One provider call's worth of paths, all of one kind.
#[derive(Debug, Clone)]
pub struct WorkUnit {
    pub kind: ActionType,
    pub paths: Vec<String>,
}

pub open spec fn unit_views(u: Seq<WorkUnit>) -> Seq<(ActionType, Seq<Seq<char>>)> {
    u.map_values(|w: WorkUnit| (w.kind, path_views(w.paths@)))
}

pub open spec fn tag(kind: ActionType, cs: Seq<Seq<Seq<char>>>) -> Seq<(ActionType, Seq<Seq<char>>)> {
    cs.map_values(|c: Seq<Seq<char>>| (kind, c))
}

/// The work units of one group: the whole group, or its pieces of `size`.
pub open spec fn units_of_group(kind: ActionType, p: Seq<Seq<char>>, size: Option<usize>) -> Seq<
    (ActionType, Seq<Seq<char>>),
> {
    match size {
        None => seq![(kind, p)],
        Some(m) => tag(kind, chunks_of(p, m as nat)),
    }
}

/// The work units of all groups, group after group.
pub open spec fn planned(groups: Seq<ActionGroup>, size: Option<usize>) -> Seq<(ActionType, Seq<Seq<char>>)>
    decreases groups.len(),
{
    if groups.len() == 0 {
        Seq::empty()
    } else {
        planned(groups.drop_last(), size) + units_of_group(
            groups.last().kind,
            path_views(groups.last().paths@),
            size,
        )
    }
}

/// The paths `p[from..to]`.
fn copy_range(p: &Vec<String>, from: usize, to: usize) -> (r: Vec<String>)
    requires
        from <= to <= p@.len(),
    ensures
        path_views(r@) == path_views(p@).subrange(from as int, to as int),
{
    let mut r: Vec<String> = Vec::new();
    let mut i: usize = from;
    while i < to
        invariant
            from <= i <= to <= p@.len(),
            path_views(r@) == path_views(p@).subrange(from as int, i as int),
        decreases to - i,
    {
        let ghost before = r@;
        r.push(p[i].clone());
        proof {
            assert(path_views(r@) =~= path_views(before).push(p@[i as int]@));
            assert(path_views(p@).subrange(from as int, i + 1) =~= path_views(p@).subrange(from as int, i as int).push(
                p@[i as int]@,
            ));
        }
        i = i + 1;
    }
    r
}

/// The work units of kind `kind` that cut `paths` into pieces of `m`.
fn chunk_paths(kind: ActionType, paths: &Vec<String>, m: usize) -> (r: Vec<WorkUnit>)
    requires
        m > 0,
    ensures
        unit_views(r@) == tag(kind, chunks_of(path_views(paths@), m as nat)),
{
    let ghost pv = path_views(paths@);
    let n = paths.len();
    let mut r: Vec<WorkUnit> = Vec::new();
    let mut i: usize = 0;
    proof {
        assert(pv.skip(0) =~= pv);
        assert(unit_views(r@) =~= Seq::<(ActionType, Seq<Seq<char>>)>::empty());
        assert(unit_views(r@) + tag(kind, chunks_of(pv, m as nat)) =~= tag(kind, chunks_of(pv, m as nat)));
    }
    while i < n
        invariant
            n == paths@.len(),
            pv == path_views(paths@),
            m > 0,
            i <= n,
            unit_views(r@) + tag(kind, chunks_of(pv.skip(i as int), m as nat)) == tag(kind, chunks_of(pv, m as nat)),
        decreases n - i,
    {
        let ghost rest = pv.skip(i as int);
        let end = if n - i <= m { n } else { i + m };
        let unit = WorkUnit { kind, paths: copy_range(paths, i, end) };
        let ghost before = r@;
        r.push(unit);
        proof {
            assert(unit_views(r@) =~= unit_views(before).push((kind, pv.subrange(i as int, end as int))));
            if rest.len() <= m {
                assert(rest =~= pv.subrange(i as int, end as int));
                assert(pv.skip(end as int) =~= Seq::<Seq<char>>::empty());
                assert(tag(kind, chunks_of(rest, m as nat)) =~= seq![(kind, rest)]);
                assert(unit_views(before) + tag(kind, chunks_of(rest, m as nat)) =~= unit_views(r@) + tag(
                    kind,
                    chunks_of(pv.skip(end as int), m as nat),
                ));
            } else {
                assert(rest.take(m as int) =~= pv.subrange(i as int, end as int));
                assert(rest.skip(m as int) =~= pv.skip(end as int));
                let tail = chunks_of(pv.skip(end as int), m as nat);
                assert(chunks_of(rest, m as nat) == seq![rest.take(m as int)] + tail);
                assert(tag(kind, seq![rest.take(m as int)] + tail) =~= seq![(kind, rest.take(m as int))] + tag(kind, tail));
                assert(unit_views(before) + tag(kind, chunks_of(rest, m as nat)) =~= unit_views(r@) + tag(kind, tail));
            }
        }
        i = end;
    }
    proof {
        assert(pv.skip(n as int) =~= Seq::<Seq<char>>::empty());
        assert(unit_views(r@) + tag(kind, chunks_of(pv.skip(n as int), m as nat)) =~= unit_views(r@));
    }
    r
}

/// Cuts each group into work units: the whole group when no batch size is
/// given, else consecutive pieces of at most `size` paths.
pub fn batch_actions(groups: &Vec<ActionGroup>, size: Option<usize>) -> (r: Vec<WorkUnit>)
    requires
        size matches Some(m) ==> m > 0,
    ensures
        unit_views(r@) == planned(groups@, size),
{
    let mut r: Vec<WorkUnit> = Vec::new();
    let mut g: usize = 0;
    while g < groups.len()
        invariant
            g <= groups@.len(),
            size matches Some(m) ==> m > 0,
            unit_views(r@) == planned(groups@.take(g as int), size),
        decreases groups@.len() - g,
    {
        let kind = groups[g].kind;
        let ghost before = r@;
        match size {
            None => {
                let unit = WorkUnit { kind, paths: copy_range(&groups[g].paths, 0, groups[g].paths.len()) };
                r.push(unit);
                proof {
                    assert(path_views(groups@[g as int].paths@).subrange(0, groups@[g as int].paths@.len() as int)
                        =~= path_views(groups@[g as int].paths@));
                    assert(unit_views(r@) =~= unit_views(before) + units_of_group(
                        kind,
                        path_views(groups@[g as int].paths@),
                        size,
                    ));
                }
            },
            Some(m) => {
                let mut units = chunk_paths(kind, &groups[g].paths, m);
                let ghost added = units@;
                r.append(&mut units);
                proof {
                    assert(unit_views(r@) =~= unit_views(before) + unit_views(added));
                }
            },
        }
        proof {
            assert(groups@.take(g + 1).drop_last() =~= groups@.take(g as int));
        }
        g = g + 1;
    }
    assert(groups@.take(groups@.len() as int) =~= groups@);
    r
}

/// One of the two storage locations of a link.
#[derive(PartialEq, Eq, Structural, Debug, Hash, Clone, Copy)]
pub enum Side {
    Local,
    Remote,
}

/// The provider operation that carries out a work unit.
#[derive(PartialEq, Eq, Structural, Debug, Hash, Clone, Copy)]
pub enum ProviderCall {
    /// Nothing to do: no call, no progress.
    Skip,
    /// Delete the unit's paths at one location.
    Delete(Side),
    /// Copy the unit's paths from the first location to the second.
    Copy(Side, Side),
    /// A conflict reached execution: the unit fails without a call.
    Unexpected,
}

pub open spec fn call_for(kind: ActionType) -> ProviderCall {
    match kind {
        ActionType::Nothing => ProviderCall::Skip,
        ActionType::DelLocal => ProviderCall::Delete(Side::Local),
        ActionType::DelRemote => ProviderCall::Delete(Side::Remote),
        ActionType::Local2Remote => ProviderCall::Copy(Side::Local, Side::Remote),
        ActionType::Remote2Local => ProviderCall::Copy(Side::Remote, Side::Local),
        ActionType::Error(_) => ProviderCall::Unexpected,
    }
}

impl WorkUnit {
    /// The single provider call that covers the whole unit.
    pub fn provider_call(&self) -> (r: ProviderCall)
        ensures
            r == call_for(self.kind),
    {
        match self.kind {
            ActionType::Nothing => ProviderCall::Skip,
            ActionType::DelLocal => ProviderCall::Delete(Side::Local),
            ActionType::DelRemote => ProviderCall::Delete(Side::Remote),
            ActionType::Local2Remote => ProviderCall::Copy(Side::Local, Side::Remote),
            ActionType::Remote2Local => ProviderCall::Copy(Side::Remote, Side::Local),
            ActionType::Error(_) => ProviderCall::Unexpected,
        }
    }
}

/// The number of actions of `s` that are not `Nothing`.
pub open spec fn busy_count(s: Seq<Action>) -> nat
    decreases s.len(),
{
    if s.len() == 0 {
        0
    } else {
        busy_count(s.drop_last()) + if s.last().action is Nothing {
            0nat
        } else {
            1nat
        }
    }
}

/// The number of progress events that a run of `actions` emits: a start
/// and a finish for every action that is not `Nothing`.
pub fn progress_total(actions: &Vec<Action>) -> (r: usize)
    requires
        actions@.len() <= usize::MAX / 2,
    ensures
        r == 2 * busy_count(actions@),
{
    let mut n: usize = 0;
    let mut i: usize = 0;
    while i < actions.len()
        invariant
            i <= actions@.len() <= usize::MAX / 2,
            n == busy_count(actions@.take(i as int)),
            n <= i,
        decreases actions@.len() - i,
    {
        proof {
            assert(actions@.take(i + 1).drop_last() =~= actions@.take(i as int));
        }
        if !(actions[i].action == ActionType::Nothing) {
            n = n + 1;
        }
        i = i + 1;
    }
    assert(actions@.take(actions@.len() as int) =~= actions@);
    2 * n
}

/// `done` out of `total` steps, scaled to `width`, rounded down.
pub fn progress_scaled(done: usize, total: usize, width: usize) -> (r: usize)
    requires
        0 < total,
        done <= total,
    ensures
        r as int == (done as int * width as int) / (total as int),
        r <= width,
{
    proof {
        let big: int = 0xffff_ffff_ffff_ffff;
        assert(done <= big && width <= big);
        assert((done as int) * (width as int) <= big * big) by (nonlinear_arith)
            requires done <= big, width <= big, 0 <= done, 0 <= width;
    }
    let p: u128 = done as u128 * width as u128;
    let q: u128 = p / total as u128;
    proof {
        let d = done as int;
        let t = total as int;
        let w = width as int;
        assert(d * w <= t * w) by (nonlinear_arith)
            requires d <= t, 0 <= w;
        assert((d * w) / t <= w) by (nonlinear_arith)
            requires d * w <= t * w, t > 0, 0 <= d, 0 <= w;
        assert(p as int == d * w);
    }
    q as usize
}

proof fn lemma_has_path_concat(a: Seq<String>, b: Seq<String>, p: Seq<char>)
    ensures
        has_path(a + b, p) <==> (has_path(a, p) || has_path(b, p)),
{
    let c = a + b;
    if has_path(c, p) {
        let j = choose|j: int| 0 <= j < c.len() && c[j]@ == p;
        if j < a.len() {
            assert(a[j] == c[j]);
        } else {
            assert(b[j - a.len()] == c[j]);
        }
    }
    if has_path(a, p) {
        let j = choose|j: int| 0 <= j < a.len() && a[j]@ == p;
        assert(c[j] == a[j]);
    }
    if has_path(b, p) {
        let j = choose|j: int| 0 <= j < b.len() && b[j]@ == p;
        assert(c[a.len() + j] == b[j]);
    }
}

/// Appends a copy of each of `paths` to `r`.
fn push_all(r: &mut Vec<String>, paths: &Vec<String>)
    ensures
        final(r)@ == old(r)@ + paths@,
{
    let ghost base = r@;
    let mut k: usize = 0;
    while k < paths.len()
        invariant
            k <= paths@.len(),
            r@ == base + paths@.take(k as int),
        decreases paths@.len() - k,
    {
        r.push(paths[k].clone());
        proof {
            assert(base + paths@.take(k + 1) =~= (base + paths@.take(k as int)).push(paths@[k as int]));
        }
        k = k + 1;
    }
    assert(paths@.take(paths@.len() as int) =~= paths@);
}

/// The paths of the units of `units` whose outcome in `results` (one per
/// unit, in the same order) is an error: their ledger baselines must stay.
pub fn failed_paths(units: &Vec<WorkUnit>, results: &Vec<Result<String, String>>) -> (r: Vec<String>)
    requires
        units@.len() == results@.len(),
    ensures
        forall|p: Seq<char>|
            has_path(r@, p) <==> exists|u: int|
                0 <= u < units@.len() && results@[u] is Err && has_path(units@[u].paths@, p),
{
    let mut r: Vec<String> = Vec::new();
    let mut u: usize = 0;
    while u < units.len()
        invariant
            u <= units@.len() == results@.len(),
            forall|p: Seq<char>|
                has_path(r@, p) <==> exists|v: int|
                    0 <= v < u && results@[v] is Err && has_path(units@[v].paths@, p),
        decreases units@.len() - u,
    {
        let ghost before = r@;
        if results[u].is_err() {
            push_all(&mut r, &units[u].paths);
        }
        proof {
            assert forall|p: Seq<char>|
                has_path(r@, p) <==> exists|v: int|
                    0 <= v < u + 1 && results@[v] is Err && has_path(units@[v].paths@, p) by {
                if results@[u as int] is Err {
                    lemma_has_path_concat(before, units@[u as int].paths@, p);
                }
                if exists|v: int| 0 <= v < u + 1 && results@[v] is Err && has_path(units@[v].paths@, p) {
                    let v = choose|v: int| 0 <= v < u + 1 && results@[v] is Err && has_path(units@[v].paths@, p);
                    if v < u {
                        assert(exists|w: int| 0 <= w < u && results@[w] is Err && has_path(units@[w].paths@, p));
                    }
                }
            }
        }
        u = u + 1;
    }
    r
}

/// The error messages among `s`, in order.
pub open spec fn error_messages(s: Seq<Result<String, String>>) -> Seq<String>
    decreases s.len(),
{
    if s.len() == 0 {
        Seq::empty()
    } else {
        match s.last() {
            Ok(_) => error_messages(s.drop_last()),
            Err(m) => error_messages(s.drop_last()).push(m),
        }
    }
}

/// Gathers the outcomes of all work units: success when every unit
/// succeeded, else every error message, none lost and none repeated.
pub fn aggregate(results: &Vec<Result<String, String>>) -> (r: Result<(), Vec<String>>)
    ensures
        r is Ok <==> forall|i: int| 0 <= i < results@.len() ==> results@[i] is Ok,
        r matches Err(e) ==> e@ == error_messages(results@),
{
    let mut errs: Vec<String> = Vec::new();
    let mut i: usize = 0;
    while i < results.len()
        invariant
            i <= results@.len(),
            errs@ == error_messages(results@.take(i as int)),
            errs@.len() == 0 <==> forall|j: int| 0 <= j < i ==> results@[j] is Ok,
        decreases results@.len() - i,
    {
        proof {
            assert(results@.take(i + 1).drop_last() =~= results@.take(i as int));
        }
        match &results[i] {
            Ok(_) => {},
            Err(m) => {
                errs.push(m.clone());
            },
        }
        i = i + 1;
    }
    assert(results@.take(results@.len() as int) =~= results@);
    if errs.len() == 0 {
        Ok(())
    } else {
        Err(errs)
    }
}

} // verus!
