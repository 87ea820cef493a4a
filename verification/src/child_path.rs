//! Building child paths under a base path.

use vstd::prelude::*;

use crate::path::ConfigPath;

verus! {

/// Types that have a base path under which children can be named.
pub trait ChildPath {
    /// The base path.
    spec fn base(&self) -> Seq<Seq<char>>;

    /// The path of the child named `config_name` under the base path.
    fn child_path(&self, config_name: &str) -> (r: ConfigPath)
        ensures
            r@ == self.base().push(config_name@),
    ;
}

/// The path of the child named `config_name` under `path`.
pub fn child_path(path: &ConfigPath, config_name: &str) -> (r: ConfigPath)
    ensures
        r@ == path@.push(config_name@),
{
    path.clone().join(config_name)
}

} // verus!
