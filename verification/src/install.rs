use vstd::prelude::*;

verus! {

/// Where an installation put the compiler and its runtime.
#[derive(Debug)]
pub struct InstallResult {
    pub binary_path: String,
    pub runtime_root: String,
}

/// The path that `std::path::Path::join` makes of a base and a part.
pub uninterp spec fn path_join(base: Seq<char>, part: Seq<char>) -> Seq<char>;

/// Joins two paths with `std::path::Path::join`. On a relative part that is not
/// empty, joined to a base that is not empty and does not end in `/`, the
/// result is the base, `/` and the part.
#[verifier::external_body]
pub(crate) fn join_path(base: &str, part: &str) -> (r: String)
    ensures
        r@ == path_join(base@, part@),
        base@.len() > 0 && base@.last() != '/' && part@.len() > 0 && part@[0] != '/' ==> r@
            == base@ + "/"@ + part@,
{
    std::path::Path::new(base).join(part).to_string_lossy().into_owned()
}

/// Where an installation under `prefix` puts the compiler binary and the runtime.
pub fn install_paths(prefix: &str) -> (r: InstallResult)
    ensures
        r.binary_path@ == path_join(path_join(prefix@, "bin"@), "checkbe"@),
        r.runtime_root@ == path_join(prefix@, "lib/checkbe/runtime"@),
{
    let bin_dir = join_path(prefix, "bin");
    let binary_path = join_path(bin_dir.as_str(), "checkbe");
    let runtime_root = join_path(prefix, "lib/checkbe/runtime");
    InstallResult { binary_path, runtime_root }
}

} // verus!
