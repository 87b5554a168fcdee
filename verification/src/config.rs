//! Configuration values and the upward search for `ouro.toml`.

use vstd::prelude::*;

use crate::parser::{opt_str, str_views};

verus! {

/// The settings of `ouro.toml`.
pub struct Config {
    pub binary: String,
    pub files: Vec<String>,
    pub prefix: String,
    pub jobs: Option<usize>,
}

/// The test-file glob used when none is configured.
pub const DEFAULT_FILES_GLOB: &'static str = "tests/**/*";

/// The file globs used when none is configured.
pub fn default_files() -> (r: Vec<String>)
    ensures
        str_views(r@) == seq![DEFAULT_FILES_GLOB@],
{
    let mut r: Vec<String> = Vec::new();
    r.push(String::from_str(DEFAULT_FILES_GLOB));
    assert(str_views(r@) =~= seq![DEFAULT_FILES_GLOB@]);
    r
}

/// The comment prefix used when none is configured.
pub fn default_prefix() -> (r: String)
    ensures
        r@ == "// "@,
{
    String::from_str("// ")
}

/// What `Path::parent` gives for the path `p`, as text.
pub uninterp spec fn path_parent(p: Seq<char>) -> Option<Seq<char>>;

/// What `Path::join` gives for the path `dir` and `name`, as text.
pub uninterp spec fn path_join(dir: Seq<char>, name: Seq<char>) -> Seq<char>;

/// The parent of the path `p` by `std::path::Path::parent`: `p` without its
/// final component, `None` for a root or the empty path. The result is named
/// by `path_parent`; what is stated besides is that it is shorter than `p`.
#[verifier::external_body]
fn parent_dir(p: &str) -> (r: Option<String>)
    ensures
        opt_str(r) == path_parent(p@),
        r matches Some(q) ==> q@.len() < p@.len(),
{
    std::path::Path::new(p).parent().map(|q| q.to_string_lossy().into_owned())
}

/// The path `name` under `dir` by `std::path::Path::join`. The result is
/// named by `path_join`.
#[verifier::external_body]
pub(crate) fn join_path(dir: &str, name: &str) -> (r: String)
    ensures
        r@ == path_join(dir@, name@),
{
    std::path::Path::new(dir).join(name).to_string_lossy().into_owned()
}

/// The name of the configuration file.
pub open spec fn config_name() -> Seq<char> {
    "ouro.toml"@
}

/// The `k`-th directory upward from `start` (`start` itself for `k == 0`),
/// while there is one.
pub open spec fn ancestor(start: Seq<char>, k: nat) -> Option<Seq<char>>
    decreases k,
{
    if k == 0 {
        Some(start)
    } else {
        match ancestor(start, (k - 1) as nat) {
            Some(d) => path_parent(d),
            None => None,
        }
    }
}

/// The `k`-th place upward from `start` where `ouro.toml` is looked for.
pub open spec fn candidate(start: Seq<char>, k: nat) -> Option<Seq<char>> {
    match ancestor(start, k) {
        Some(d) => Some(path_join(d, config_name())),
        None => None,
    }
}

proof fn lemma_ancestor_none_after(start: Seq<char>, k: nat, j: nat)
    requires
        ancestor(start, k) is None,
        k <= j,
    ensures
        ancestor(start, j) is None,
    decreases j - k,
{
    if k < j {
        lemma_ancestor_none_after(start, k, (j - 1) as nat);
    }
}

/// Every place upward from `start` where `ouro.toml` is looked for, nearest
/// first.
pub fn config_candidates(start: &str) -> (r: Vec<String>)
    ensures
        forall|k: int| 0 <= k < r@.len() ==> candidate(start@, k as nat) == Some(#[trigger] r@[k]@),
        candidate(start@, r@.len()) is None,
{
    let mut r: Vec<String> = Vec::new();
    let mut dir = String::from_str(start);
    loop
        invariant
            ancestor(start@, r@.len()) == Some(dir@),
            forall|k: int| 0 <= k < r@.len() ==> candidate(start@, k as nat) == Some(#[trigger] r@[k]@),
        decreases dir@.len(),
    {
        let c = join_path(dir.as_str(), "ouro.toml");
        r.push(c);
        match parent_dir(dir.as_str()) {
            Some(p) => {
                dir = p;
            },
            None => {
                return r;
            },
        }
    }
}

fn contains_string(v: &Vec<String>, s: &String) -> (r: bool)
    ensures
        r == str_views(v@).contains(s@),
{
    let mut i: usize = 0;
    while i < v.len()
        invariant
            0 <= i <= v@.len(),
            forall|j: int| 0 <= j < i ==> v@[j]@ != s@,
        decreases v@.len() - i,
    {
        if v[i] == *s {
            assert(str_views(v@)[i as int] == s@);
            return true;
        }
        i += 1;
    }
    assert forall|j: int| 0 <= j < v@.len() implies str_views(v@)[j] != s@ by {
        assert(str_views(v@)[j] == v@[j]@);
    }
    false
}

/// Whether `ouro.toml` is not found at the `k`-th place upward from `start`
/// among the files `existing`.
pub open spec fn absent_at(start: Seq<char>, existing: Seq<Seq<char>>, k: nat) -> bool {
    match candidate(start, k) {
        Some(x) => !existing.contains(x),
        None => true,
    }
}

/// Searches upward from `start` for `ouro.toml`, like Cargo does, among the
/// files `existing`: the nearest candidate that is one of them.
pub fn find_config_file(start: &str, existing: &Vec<String>) -> (r: Option<String>)
    ensures
        r matches Some(c) ==> exists|k: nat|
            {
                &&& #[trigger] candidate(start@, k) == Some(c@)
                &&& str_views(existing@).contains(c@)
                &&& forall|j: nat| j < k ==> #[trigger] absent_at(start@, str_views(existing@), j)
            },
        r is None ==> forall|k: nat| #[trigger] absent_at(start@, str_views(existing@), k),
{
    let mut dir = String::from_str(start);
    let ghost mut k: nat = 0;
    loop
        invariant
            ancestor(start@, k) == Some(dir@),
            forall|j: nat| j < k ==> #[trigger] absent_at(start@, str_views(existing@), j),
        decreases dir@.len(),
    {
        let c = join_path(dir.as_str(), "ouro.toml");
        assert(candidate(start@, k) == Some(c@));
        if contains_string(existing, &c) {
            return Some(c);
        }
        assert(absent_at(start@, str_views(existing@), k));
        match parent_dir(dir.as_str()) {
            Some(p) => {
                dir = p;
                proof {
                    k = k + 1;
                }
            },
            None => {
                assert forall|j: nat| #[trigger] absent_at(start@, str_views(existing@), j) by {
                    if j > k {
                        lemma_ancestor_none_after(start@, k + 1, j);
                    }
                }
                return None;
            },
        }
    }
}

} // verus!
