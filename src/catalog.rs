use vstd::prelude::*;

use crate::error::Error;
use crate::text::chars_of;

verus! {

/// The suffix of a dataset path that the catalog opens directly.
pub open spec fn lance_suffix() -> Seq<char> {
    seq!['.', 'l', 'a', 'n', 'c', 'e']
}

/// Whether a URL table reference names a dataset: it ends with `.lance`.
pub fn is_lance_url(url: &str) -> (r: bool)
    ensures
        r == (url@.len() >= 6 && url@.subrange(url@.len() - 6, url@.len() as int) == lance_suffix()),
{
    let cs = chars_of(url);
    let n = cs.len();
    if n < 6 {
        return false;
    }
    let r = cs[n - 6] == '.' && cs[n - 5] == 'l' && cs[n - 4] == 'a' && cs[n - 3] == 'n' && cs[n - 2] == 'c'
        && cs[n - 1] == 'e';
    proof {
        let tail = cs@.subrange(n - 6, n as int);
        if r {
            assert(tail =~= lance_suffix());
        } else if tail == lance_suffix() {
            assert(tail[0] == cs@[n - 6] && tail[1] == cs@[n - 5] && tail[2] == cs@[n - 4]);
            assert(tail[3] == cs@[n - 3] && tail[4] == cs@[n - 2] && tail[5] == cs@[n - 1]);
        }
    }
    r
}

/// Whether a cached table must be reloaded: the dataset it holds is older
/// than the namespace's latest version.
pub fn cached_table_is_stale(latest_version: u64, cached_version: u64) -> (r: bool)
    ensures
        r == (cached_version < latest_version),
{
    cached_version < latest_version
}

/// A default schema may be named only together with a default catalog.
pub fn check_params_valid(default_catalog: &Option<String>, default_schema: &Option<String>) -> (r: Result<(), Error>)
    ensures
        r is Err <==> (default_catalog is None && default_schema is Some),
        r matches Err(e) ==> e.is_internal(),
{
    match (default_catalog, default_schema) {
        (None, Some(_)) => Err(Error::Internal(
            "Default SchemaProvider must be used together with a default CatalogProvider".to_owned(),
        )),
        _ => Ok(()),
    }
}

} // verus!
