//! Cache path layout: metadata documents and downloaded archives under one
//! root directory, with `/` in package names mapped to `-` for path safety.
use vstd::prelude::*;
use vstd::string::StringExecFns;

verus! {

/// The path-safe form of a package name: every `/` becomes `-`.
pub open spec fn spec_safe_name(n: Seq<char>) -> Seq<char> {
    n.map_values(
        |c: char|
            if c == '/' {
                '-'
            } else {
                c
            },
    )
}

/// Relies on str::replace with a one-character pattern and a one-character
/// replacement: each occurrence of the pattern character becomes the
/// replacement character, everything else stays.
#[verifier::external_body]
fn replace_slash(s: &str) -> (r: String)
    ensures
        r@ == spec_safe_name(s@),
{
    s.replace('/', "-")
}

/// The cache: path computations under one root. Creating the root and its
/// subdirectories is the host shell's concern.
pub struct Cache {
    pub root: String,
}

impl Cache {
    /// A cache rooted at the given directory path.
    pub fn from_root(root: String) -> (r: Cache)
        ensures
            r.root@ == root@,
    {
        Cache { root }
    }

    /// Where the metadata document of a package is cached:
    /// `<root>/metadata/<safeName>.json`.
    pub fn get_metadata_path(&self, pkg_name: &str) -> (r: String)
        ensures
            r@ == self.root@ + "/metadata/"@ + spec_safe_name(pkg_name@) + ".json"@,
    {
        let mut p = self.root.clone();
        p.append("/metadata/");
        let safe = replace_slash(pkg_name);
        p.append(safe.as_str());
        p.append(".json");
        p
    }

    /// Where the archive of one released version is cached:
    /// `<root>/dist/<safeName>-<version>.zip`.
    pub fn get_dist_path(&self, pkg_name: &str, version: &str) -> (r: String)
        ensures
            r@ == self.root@ + "/dist/"@ + spec_safe_name(pkg_name@) + "-"@ + version@ + ".zip"@,
    {
        let mut p = self.root.clone();
        p.append("/dist/");
        let safe = replace_slash(pkg_name);
        p.append(safe.as_str());
        p.append("-");
        p.append(version);
        p.append(".zip");
        p
    }
}

} // verus!
