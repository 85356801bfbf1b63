use vstd::prelude::*;
use crate::ledger::Ledger;
use crate::rclone::{RFileInfo, side_time, on_side, side_time_of, lemma_side_time_some, lemma_on_side_take};

verus! {

/// A point in time, in nanoseconds since the Unix epoch (UTC).
pub type Timestamp = i128;

/// Why both sides disagree on a path in a way that needs a decision.
#[derive(PartialEq, Eq, Structural, Debug, Hash, Clone, Copy)]
pub enum ErrorType {
    /// Both sides changed since the last synchronisation.
    TwoSideMod,
    /// The local side changed, the remote side deleted the file.
    ModAndDel,
    /// The local side deleted the file, the remote side changed it.
    DelAndMod,
    /// Both sides hold a file that was never synchronised.
    TwoNew,
}

/// What to do with one path.
#[derive(PartialEq, Eq, Structural, Debug, Hash, Clone, Copy)]
pub enum ActionType {
    Nothing,
    Error(ErrorType),
    DelLocal,
    DelRemote,
    Local2Remote,
    Remote2Local,
}

pub open spec fn error_label(e: ErrorType) -> Seq<char> {
    match e {
        ErrorType::TwoSideMod => "Conflicting modifications"@,
        ErrorType::ModAndDel => "Modification & Deletion"@,
        ErrorType::DelAndMod => "Deletion & Modification"@,
        ErrorType::TwoNew => "Conflicting new files"@,
    }
}

pub open spec fn action_label(k: ActionType) -> Seq<char> {
    match k {
        ActionType::Nothing => "Nothing to do"@,
        ActionType::Error(e) => error_label(e),
        ActionType::DelLocal => "Local Deletion"@,
        ActionType::DelRemote => "Remote Deletion"@,
        ActionType::Local2Remote => "copy Local -> Remote"@,
        ActionType::Remote2Local => "copy Remote -> Local"@,
    }
}

impl ActionType {
    /// The text that names this action to a user.
    pub fn label(&self) -> (r: String)
        ensures
            r@ == action_label(*self),
    {
        match self {
            ActionType::Nothing => "Nothing to do".to_owned(),
            ActionType::Error(e) => e.label(),
            ActionType::DelLocal => "Local Deletion".to_owned(),
            ActionType::DelRemote => "Remote Deletion".to_owned(),
            ActionType::Local2Remote => "copy Local -> Remote".to_owned(),
            ActionType::Remote2Local => "copy Remote -> Local".to_owned(),
        }
    }

    pub fn is_error(&self) -> (r: bool)
        ensures
            r == self is Error,
    {
        match self {
            ActionType::Error(_) => true,
            _ => false,
        }
    }
}

/// The side whose version wins a conflict.
#[derive(PartialEq, Eq, Structural, Debug, Hash, Clone, Copy)]
pub enum Disposition {
    KeepLocal,
    KeepRemote,
}

/// The concrete action that settles a conflict of kind `kind` in favour of
/// `d`. Honouring a deletion deletes the file on the other side too.
pub open spec fn resolution(kind: ErrorType, d: Disposition) -> ActionType {
    match (kind, d) {
        (ErrorType::DelAndMod, Disposition::KeepLocal) => ActionType::DelRemote,
        (ErrorType::ModAndDel, Disposition::KeepRemote) => ActionType::DelLocal,
        (_, Disposition::KeepLocal) => ActionType::Local2Remote,
        (_, Disposition::KeepRemote) => ActionType::Remote2Local,
    }
}

/// A kind that names one provider operation.
pub open spec fn is_transfer(kind: ActionType) -> bool {
    ||| kind is Local2Remote
    ||| kind is Remote2Local
    ||| kind is DelLocal
    ||| kind is DelRemote
}

impl ErrorType {
    /// The text that names this kind of conflict to a user.
    pub fn label(&self) -> (r: String)
        ensures
            r@ == error_label(*self),
    {
        match self {
            ErrorType::TwoSideMod => "Conflicting modifications".to_owned(),
            ErrorType::ModAndDel => "Modification & Deletion".to_owned(),
            ErrorType::DelAndMod => "Deletion & Modification".to_owned(),
            ErrorType::TwoNew => "Conflicting new files".to_owned(),
        }
    }

    pub fn resolve(&self, d: Disposition) -> (r: ActionType)
        ensures
            r == resolution(*self, d),
            is_transfer(r),
    {
        match (self, d) {
            (ErrorType::DelAndMod, Disposition::KeepLocal) => ActionType::DelRemote,
            (ErrorType::ModAndDel, Disposition::KeepRemote) => ActionType::DelLocal,
            (_, Disposition::KeepLocal) => ActionType::Local2Remote,
            (_, Disposition::KeepRemote) => ActionType::Remote2Local,
        }
    }
}

/// The number of conflicts among the first `i` actions of `s`.
pub open spec fn conflicts_before(s: Seq<Action>, i: int) -> nat
    decreases i,
{
    if i <= 0 {
        0
    } else {
        conflicts_before(s, i - 1) + if s[i - 1].action is Error {
            1nat
        } else {
            0nat
        }
    }
}

/// The kind `kind` once the decision numbered `c` of `choices` applies to
/// it: a conflict without a decision stays pending, other kinds stay.
pub open spec fn settled(kind: ActionType, choices: Seq<Disposition>, c: int) -> ActionType {
    match kind {
        ActionType::Error(k) => if 0 <= c < choices.len() {
            resolution(k, choices[c])
        } else {
            kind
        },
        _ => kind,
    }
}

/// One path together with what must happen to it.
#[derive(Debug, Clone)]
pub struct Action {
    pub action: ActionType,
    pub path: String,
}

/// The classification of a path, from its local time, its remote time and
/// its ledger baseline. `None` stands for a path that appears nowhere.
pub open spec fn classify(
    local: Option<Timestamp>,
    remote: Option<Timestamp>,
    baseline: Option<Timestamp>,
) -> Option<ActionType> {
    match (baseline, local, remote) {
        (_, None, None) => None,
        (None, Some(_), Some(_)) => Some(ActionType::Error(ErrorType::TwoNew)),
        (None, Some(_), None) => Some(ActionType::Local2Remote),
        (None, None, Some(_)) => Some(ActionType::Remote2Local),
        (Some(b), None, Some(r)) => if r <= b {
            Some(ActionType::DelRemote)
        } else {
            Some(ActionType::Error(ErrorType::DelAndMod))
        },
        (Some(b), Some(l), None) => if l <= b {
            Some(ActionType::DelLocal)
        } else {
            Some(ActionType::Error(ErrorType::ModAndDel))
        },
        (Some(b), Some(l), Some(r)) => if l <= b && r <= b {
            Some(ActionType::Nothing)
        } else if l > b && r <= b {
            Some(ActionType::Local2Remote)
        } else if l <= b && r > b {
            Some(ActionType::Remote2Local)
        } else {
            Some(ActionType::Error(ErrorType::TwoSideMod))
        },
    }
}

/// The text of each path in `s`.
pub open spec fn path_views(s: Seq<String>) -> Seq<Seq<char>> {
    s.map_values(|x: String| x@)
}

/// No two entries of `s` name the same path.
pub open spec fn distinct_paths(s: Seq<String>) -> bool {
    forall|i: int, j: int| 0 <= i < j < s.len() ==> s[i]@ != s[j]@
}

/// Some entry of `s` names `p`.
pub open spec fn has_path(s: Seq<String>, p: Seq<char>) -> bool {
    exists|i: int| 0 <= i < s.len() && s[i]@ == p
}

proof fn lemma_has_path_take(s: Seq<String>, i: int, p: Seq<char>)
    requires
        0 <= i < s.len(),
    ensures
        has_path(s.take(i + 1), p) <==> (has_path(s.take(i), p) || s[i]@ == p),
{
    let a = s.take(i + 1);
    let b = s.take(i);
    if has_path(a, p) {
        let k = choose|k: int| 0 <= k < a.len() && a[k]@ == p;
        if k < i {
            assert(b[k] == s[k]);
        }
    }
    if has_path(b, p) {
        let k = choose|k: int| 0 <= k < b.len() && b[k]@ == p;
        assert(a[k] == s[k]);
    }
    if s[i]@ == p {
        assert(a[i] == s[i]);
    }
}

/// Adds `p` to `paths` unless it is there already.
fn push_new_path(paths: &mut Vec<String>, p: &String)
    requires
        distinct_paths(old(paths)@),
    ensures
        distinct_paths(final(paths)@),
        forall|q: Seq<char>| has_path(final(paths)@, q) <==> (has_path(old(paths)@, q) || q == p@),
        has_path(old(paths)@, p@) ==> final(paths)@ == old(paths)@,
        !has_path(old(paths)@, p@) ==> final(paths)@.len() == old(paths)@.len() + 1
            && final(paths)@.drop_last() == old(paths)@ && final(paths)@.last()@ == p@,
{
    let mut i: usize = 0;
    while i < paths.len()
        invariant
            i <= paths@.len(),
            paths@ == old(paths)@,
            distinct_paths(paths@),
            forall|j: int| 0 <= j < i ==> paths@[j]@ != p@,
        decreases paths@.len() - i,
    {
        if paths[i] == *p {
            return;
        }
        i = i + 1;
    }
    let ghost before = paths@;
    let c = p.clone();
    paths.push(c);
    proof {
        assert(paths@.drop_last() =~= before);
        assert forall|q: Seq<char>| has_path(paths@, q) <==> (has_path(before, q) || q == p@) by {
            if has_path(before, q) {
                let j = choose|j: int| 0 <= j < before.len() && before[j]@ == q;
                assert(paths@[j]@ == q);
            }
            if has_path(paths@, q) {
                let j = choose|j: int| 0 <= j < paths@.len() && paths@[j]@ == q;
                if j < before.len() {
                    assert(before[j]@ == q);
                }
            }
            if q == p@ {
                assert(paths@[before.len() as int]@ == q);
            }
        }
    }
}

/// A defect detected at run time: the run stops, nothing is written.
#[derive(Debug, Clone)]
pub enum InvariantViolation {
    /// A path that neither side holds reached the classification.
    PathNowhere(String),
    /// A conflict reached the ledger update without a decision.
    UnresolvedConflict(String),
}

impl Action {
    pub fn new(path: &String, action_type: ActionType) -> (r: Action)
        ensures
            r.path@ == path@,
            r.action == action_type,
    {
        Action { path: path.clone(), action: action_type }
    }

    /// Settles this action with `d` if it is a conflict.
    pub fn resolve(&mut self, d: Disposition)
        ensures
            final(self).path == old(self).path,
            final(self).action == settled(old(self).action, seq![d], 0),
    {
        match self.action {
            ActionType::Error(k) => {
                self.action = k.resolve(d);
            },
            _ => {},
        }
    }

    /// Classifies `path` from its local time, its remote time and its ledger
    /// baseline.
    pub fn from(
        path: &String,
        local: Option<Timestamp>,
        remote: Option<Timestamp>,
        baseline: Option<Timestamp>,
    ) -> (r: Result<Action, InvariantViolation>)
        ensures
            match r {
                Ok(a) => classify(local, remote, baseline) == Some(a.action) && a.path@ == path@,
                Err(e) => classify(local, remote, baseline) is None && (e matches InvariantViolation::PathNowhere(p) && p@ == path@),
            },
    {
        match (baseline, local, remote) {
            (_, None, None) => Err(InvariantViolation::PathNowhere(path.clone())),
            (None, Some(_), Some(_)) => Ok(Self::new(path, ActionType::Error(ErrorType::TwoNew))),
            (None, Some(_), None) => Ok(Self::new(path, ActionType::Local2Remote)),
            (None, None, Some(_)) => Ok(Self::new(path, ActionType::Remote2Local)),
            (Some(b), None, Some(r)) => if r <= b {
                Ok(Self::new(path, ActionType::DelRemote))
            } else {
                Ok(Self::new(path, ActionType::Error(ErrorType::DelAndMod)))
            },
            (Some(b), Some(l), None) => if l <= b {
                Ok(Self::new(path, ActionType::DelLocal))
            } else {
                Ok(Self::new(path, ActionType::Error(ErrorType::ModAndDel)))
            },
            (Some(b), Some(l), Some(r)) => if l <= b && r <= b {
                Ok(Self::new(path, ActionType::Nothing))
            } else if l > b && r <= b {
                Ok(Self::new(path, ActionType::Local2Remote))
            } else if l <= b && r > b {
                Ok(Self::new(path, ActionType::Remote2Local))
            } else {
                Ok(Self::new(path, ActionType::Error(ErrorType::TwoSideMod)))
            },
        }
    }
}

/// Settles the conflicts of `actions` in order: the first conflict takes the
/// first decision of `choices`, and so on. Conflicts beyond the decisions
/// given stay pending.
pub fn handle_errors(actions: &mut Vec<Action>, choices: &Vec<Disposition>)
    ensures
        final(actions)@.len() == old(actions)@.len(),
        forall|i: int|
            0 <= i < old(actions)@.len() ==> (#[trigger] final(actions)@[i]).path == old(actions)@[i].path
                && final(actions)@[i].action == settled(
                old(actions)@[i].action,
                choices@,
                conflicts_before(old(actions)@, i) as int,
            ),
{
    let ghost start = actions@;
    let mut c: usize = 0;
    let mut i: usize = 0;
    while i < actions.len()
        invariant
            i <= actions@.len(),
            actions@.len() == start.len(),
            c == conflicts_before(start, i as int),
            c <= i,
            forall|j: int| i <= j < start.len() ==> actions@[j] == start[j],
            forall|j: int|
                0 <= j < i ==> (#[trigger] actions@[j]).path == start[j].path && actions@[j].action
                    == settled(start[j].action, choices@, conflicts_before(start, j) as int),
        decreases actions@.len() - i,
    {
        if let ActionType::Error(k) = actions[i].action {
            if c < choices.len() {
                let settled_kind = k.resolve(choices[c]);
                let a = Action { path: actions[i].path.clone(), action: settled_kind };
                actions.set(i, a);
            }
            c = c + 1;
        }
        i = i + 1;
    }
}

/// Turns the actions of the paths in `failed` into `Nothing`, so that the
/// ledger that follows keeps their earlier baseline and the next run tries
/// them again.
pub fn mark_failed(actions: &mut Vec<Action>, failed: &Vec<String>)
    ensures
        final(actions)@.len() == old(actions)@.len(),
        forall|i: int|
            0 <= i < old(actions)@.len() ==> (#[trigger] final(actions)@[i]).path == old(actions)@[i].path
                && final(actions)@[i].action == (if has_path(failed@, old(actions)@[i].path@) {
                ActionType::Nothing
            } else {
                old(actions)@[i].action
            }),
{
    let ghost start = actions@;
    let mut i: usize = 0;
    while i < actions.len()
        invariant
            i <= actions@.len(),
            actions@.len() == start.len(),
            forall|j: int| i <= j < start.len() ==> actions@[j] == start[j],
            forall|j: int|
                0 <= j < i ==> (#[trigger] actions@[j]).path == start[j].path && actions@[j].action == (if has_path(
                    failed@,
                    start[j].path@,
                ) {
                    ActionType::Nothing
                } else {
                    start[j].action
                }),
        decreases actions@.len() - i,
    {
        let mut hit = false;
        let mut k: usize = 0;
        while k < failed.len()
            invariant
                k <= failed@.len(),
                i < actions@.len(),
                hit <==> exists|j: int| 0 <= j < k && failed@[j]@ == actions@[i as int].path@,
            decreases failed@.len() - k,
        {
            if failed[k] == actions[i].path {
                hit = true;
            }
            k = k + 1;
        }
        if hit {
            let a = Action { path: actions[i].path.clone(), action: ActionType::Nothing };
            actions.set(i, a);
        }
        i = i + 1;
    }
}

/// The baseline that the ledger `g` holds for `p`.
pub open spec fn baseline(g: Map<Seq<char>, Timestamp>, p: Seq<char>) -> Option<Timestamp> {
    if g.contains_key(p) {
        Some(g[p])
    } else {
        None
    }
}

/// `acts` holds exactly one action for each path that either listing holds
/// as a regular file or the ledger records, and each action is the
/// classification of its path.
pub open spec fn reconciled(
    local: Seq<RFileInfo>,
    remote: Seq<RFileInfo>,
    g: Map<Seq<char>, Timestamp>,
    acts: Seq<Action>,
) -> bool {
    &&& forall|i: int, j: int| 0 <= i < j < acts.len() ==> acts[i].path@ != acts[j].path@
    &&& forall|p: Seq<char>|
        #[trigger] acts_have_path(acts, p) <==> (on_side(local, p) || on_side(remote, p) || g.contains_key(p))
    &&& forall|i: int|
        0 <= i < acts.len() ==> classify(
            side_time(local, acts[i].path@),
            side_time(remote, acts[i].path@),
            baseline(g, acts[i].path@),
        ) == Some(#[trigger] acts[i].action)
}

/// Some action of `acts` is for path `p`.
pub open spec fn acts_have_path(acts: Seq<Action>, p: Seq<char>) -> bool {
    exists|i: int| 0 <= i < acts.len() && acts[i].path@ == p
}

/// Some path that the ledger records is on neither side.
pub open spec fn stale_in_ledger(
    local: Seq<RFileInfo>,
    remote: Seq<RFileInfo>,
    g: Map<Seq<char>, Timestamp>,
    p: Seq<char>,
) -> bool {
    g.contains_key(p) && !on_side(local, p) && !on_side(remote, p)
}

/// The paths of the regular files in either listing, once each.
fn create_file_map(l1: &Vec<RFileInfo>, l2: &Vec<RFileInfo>) -> (r: Vec<String>)
    ensures
        distinct_paths(r@),
        forall|p: Seq<char>| has_path(r@, p) <==> (on_side(l1@, p) || on_side(l2@, p)),
{
    let mut r: Vec<String> = Vec::new();
    let mut i: usize = 0;
    while i < l1.len()
        invariant
            i <= l1@.len(),
            distinct_paths(r@),
            forall|p: Seq<char>| has_path(r@, p) <==> on_side(l1@.take(i as int), p),
        decreases l1@.len() - i,
    {
        if !l1[i].is_dir {
            push_new_path(&mut r, &l1[i].path);
        }
        proof {
            assert forall|p: Seq<char>| on_side(l1@.take(i + 1), p) <==> (on_side(l1@.take(i as int), p)
                || (!l1@[i as int].is_dir && l1@[i as int].path@ == p)) by {
                lemma_on_side_take(l1@, i as int, p);
            }
        }
        i = i + 1;
    }
    assert(l1@.take(l1@.len() as int) =~= l1@);
    let mut j: usize = 0;
    while j < l2.len()
        invariant
            j <= l2@.len(),
            distinct_paths(r@),
            forall|p: Seq<char>| has_path(r@, p) <==> (on_side(l1@, p) || on_side(l2@.take(j as int), p)),
        decreases l2@.len() - j,
    {
        if !l2[j].is_dir {
            push_new_path(&mut r, &l2[j].path);
        }
        proof {
            assert forall|p: Seq<char>| on_side(l2@.take(j + 1), p) <==> (on_side(l2@.take(j as int), p)
                || (!l2@[j as int].is_dir && l2@[j as int].path@ == p)) by {
                lemma_on_side_take(l2@, j as int, p);
            }
        }
        j = j + 1;
    }
    assert(l2@.take(l2@.len() as int) =~= l2@);
    r
}

/// Classifies every path that either listing holds as a regular file or that
/// the ledger records. Fails when the ledger records a path that neither
/// side holds.
pub fn gen_action_list(local: &Vec<RFileInfo>, remote: &Vec<RFileInfo>, ledger: &Ledger) -> (r:
    Result<Vec<Action>, InvariantViolation>)
    requires
        ledger.wf(),
    ensures
        r is Ok <==> !exists|p: Seq<char>| stale_in_ledger(local@, remote@, ledger@, p),
        match r {
            Ok(acts) => reconciled(local@, remote@, ledger@, acts@),
            Err(e) => e matches InvariantViolation::PathNowhere(p) && stale_in_ledger(local@, remote@, ledger@, p@),
        },
{
    let mut paths = create_file_map(local, remote);
    let known = ledger.paths();
    let mut i: usize = 0;
    while i < known.len()
        invariant
            i <= known@.len(),
            distinct_paths(paths@),
            forall|p: Seq<char>| has_path(paths@, p) <==> (on_side(local@, p) || on_side(remote@, p)
                || has_path(known@.take(i as int), p)),
        decreases known@.len() - i,
    {
        push_new_path(&mut paths, &known[i]);
        proof {
            assert forall|p: Seq<char>| has_path(known@.take(i + 1), p) <==> (has_path(known@.take(i as int), p)
                || known@[i as int]@ == p) by {
                lemma_has_path_take(known@, i as int, p);
            }
        }
        i = i + 1;
    }
    assert(known@.take(known@.len() as int) =~= known@);
    let mut acts: Vec<Action> = Vec::new();
    let mut k: usize = 0;
    while k < paths.len()
        invariant
            k <= paths@.len(),
            ledger.wf(),
            distinct_paths(paths@),
            forall|p: Seq<char>| has_path(paths@, p) <==> (on_side(local@, p) || on_side(remote@, p)
                || ledger@.contains_key(p)),
            acts@.len() == k,
            forall|j: int| 0 <= j < k ==> #[trigger] acts@[j].path@ == paths@[j]@,
            forall|j: int|
                0 <= j < k ==> classify(
                    side_time(local@, acts@[j].path@),
                    side_time(remote@, acts@[j].path@),
                    baseline(ledger@, acts@[j].path@),
                ) == Some(#[trigger] acts@[j].action),
        decreases paths@.len() - k,
    {
        let lt = side_time_of(local, &paths[k]);
        let rt = side_time_of(remote, &paths[k]);
        let bt = ledger.get(&paths[k]);
        match Action::from(&paths[k], lt, rt, bt) {
            Ok(a) => {
                acts.push(a);
            },
            Err(e) => {
                proof {
                    let p = paths@[k as int]@;
                    lemma_side_time_some(local@, p);
                    lemma_side_time_some(remote@, p);
                    assert(has_path(paths@, p));
                    assert(stale_in_ledger(local@, remote@, ledger@, p));
                }
                return Err(e);
            },
        }
        k = k + 1;
    }
    proof {
        assert forall|p: Seq<char>| !stale_in_ledger(local@, remote@, ledger@, p) by {
            if stale_in_ledger(local@, remote@, ledger@, p) {
                assert(has_path(paths@, p));
                let j = choose|j: int| 0 <= j < paths@.len() && paths@[j]@ == p;
                assert(acts@[j].path@ == p);
                let kind = acts@[j].action;
                lemma_side_time_some(local@, p);
                lemma_side_time_some(remote@, p);
                assert(classify(None, None, baseline(ledger@, p)) == Some(kind));
            }
        }
        assert forall|p: Seq<char>| acts_have_path(acts@, p) <==> has_path(paths@, p) by {
            if has_path(paths@, p) {
                let j = choose|j: int| 0 <= j < paths@.len() && paths@[j]@ == p;
                assert(acts@[j].path@ == p);
            }
            if exists|i: int| 0 <= i < acts@.len() && acts@[i].path@ == p {
                let j = choose|j: int| 0 <= j < acts@.len() && acts@[j].path@ == p;
                assert(paths@[j]@ == p);
            }
        }
        assert forall|a: int, b: int| 0 <= a < b < acts@.len() implies acts@[a].path@ != acts@[b].path@ by {
            assert(acts@[a].path@ == paths@[a]@);
            assert(acts@[b].path@ == paths@[b]@);
        }
        assert forall|p: Seq<char>| #[trigger] acts_have_path(acts@, p) <==> (on_side(local@, p)
                || on_side(remote@, p) || ledger@.contains_key(p)) by {
            assert(acts_have_path(acts@, p) <==> has_path(paths@, p));
        }
    }
    Ok(acts)
}

} // verus!
