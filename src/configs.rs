use vstd::prelude::*;

verus! {

/// A named link between a local folder and a remote location.
#[derive(Debug, Clone)]
pub struct Config {
    /// The folder that holds this link's own files (its ledger, its record).
    pub link_path: String,
    pub local: String,
    pub remote: String,
    pub update_rt: usize,
}

impl Config {
    pub fn new(link_path: &str, local: &str, remote: &str, update_rt: usize) -> (r: Config)
        ensures
            r.link_path@ == link_path@,
            r.local@ == local@,
            r.remote@ == remote@,
            r.update_rt == update_rt,
    {
        Config { link_path: link_path.to_owned(), local: local.to_owned(), remote: remote.to_owned(), update_rt }
    }
}

/// Why no single link could be chosen for a folder.
#[derive(PartialEq, Eq, Structural, Debug, Hash, Clone, Copy)]
pub enum LookupError {
    /// No link has this local folder.
    NotFound,
    /// Two or more links have this local folder.
    Ambiguous,
}

/// The one link of `configs` whose local folder is `folder`. Fails with
/// `NotFound` when there is none and with `Ambiguous` when there are
/// several.
pub fn find_by_local(configs: &Vec<Config>, folder: &String) -> (r: Result<usize, LookupError>)
    ensures
        match r {
            Ok(i) => i < configs@.len() && configs@[i as int].local@ == folder@ && forall|j: int|
                0 <= j < configs@.len() && j != i ==> configs@[j].local@ != folder@,
            Err(LookupError::NotFound) => forall|j: int|
                0 <= j < configs@.len() ==> configs@[j].local@ != folder@,
            Err(LookupError::Ambiguous) => exists|a: int, b: int|
                0 <= a < b < configs@.len() && configs@[a].local@ == folder@ && configs@[b].local@ == folder@,
        },
{
    let mut found: Option<usize> = None;
    let mut i: usize = 0;
    while i < configs.len()
        invariant
            i <= configs@.len(),
            match found {
                Some(k) => k < i && configs@[k as int].local@ == folder@ && forall|j: int|
                    0 <= j < i && j != k ==> configs@[j].local@ != folder@,
                None => forall|j: int| 0 <= j < i ==> configs@[j].local@ != folder@,
            },
        decreases configs@.len() - i,
    {
        if configs[i].local == *folder {
            match found {
                Some(k) => {
                    assert(configs@[k as int].local@ == folder@ && configs@[i as int].local@ == folder@);
                    return Err(LookupError::Ambiguous);
                },
                None => {
                    found = Some(i);
                },
            }
        }
        i = i + 1;
    }
    match found {
        Some(k) => Ok(k),
        None => Err(LookupError::NotFound),
    }
}

} // verus!
