//! Resolving the single filesystem location where the state is persisted:
//! the host's per-user local-data directory, extended by a fixed subpath.

use vstd::prelude::*;
use vstd::string::StringExecFns;

verus! {

/// A resolved storage location: the directory that holds the state file,
/// and the file itself.
pub struct StatePath {
    pub dir: String,
    pub file: String,
}

impl StatePath {
    /// The file lies directly in the directory, under the fixed name
    /// `state.yml`; a saver may therefore create the directory and then
    /// write the file.
    pub open spec fn wf(self) -> bool {
        self.file@ == self.dir@ + seq!['/', 's', 't', 'a', 't', 'e', '.', 'y', 'm', 'l']
    }
}

/// The storage location under a given per-user data directory: the
/// subdirectory `docuum`, holding the file `state.yml`.
pub fn locate_in(base: &str) -> (r: StatePath)
    ensures
        r.wf(),
        r.dir@ == base@ + seq!['/', 'd', 'o', 'c', 'u', 'u', 'm'],
{
    let mut dir = base.to_owned();
    dir.append("/docuum");
    let mut file = dir.clone();
    file.append("/state.yml");
    proof {
        reveal_strlit("/docuum");
        reveal_strlit("/state.yml");
        assert(dir@ =~= base@ + seq!['/', 'd', 'o', 'c', 'u', 'u', 'm']);
        assert(file@ =~= dir@ + seq!['/', 's', 't', 'a', 't', 'e', '.', 'y', 'm', 'l']);
    }
    StatePath { dir, file }
}

/// Relies on `dirs::data_local_dir`: the platform's per-user local-data
/// directory, or `None` when the environment does not expose one. Nothing
/// is assumed about the returned path itself.
#[verifier::external_body]
fn data_local_dir_string() -> (r: Option<String>) {
    match dirs::data_local_dir() {
        Option::Some(p) => Option::Some(p.to_string_lossy().into_owned()),
        Option::None => Option::None,
    }
}

/// Where the program state is persisted on disk, if the host exposes a
/// per-user data directory. Whatever directory the host names, the file
/// lies directly in the returned directory.
pub fn state_location() -> (r: Option<StatePath>)
    ensures
        r matches Some(p) ==> p.wf(),
{
    match data_local_dir_string() {
        Option::Some(base) => Option::Some(locate_in(base.as_str())),
        Option::None => Option::None,
    }
}

} // verus!
