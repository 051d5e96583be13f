//! What a run is configured with: the directory trees to search.

use vstd::prelude::*;

verus! {

/// Why a configuration was refused.
#[derive(Clone, Copy, Debug, PartialEq, Eq, Structural)]
pub enum ConfigError {
    /// No directory to search was given.
    NoRoots,
}

/// The directory trees to search, at least one, and whether traversal
/// follows symbolic links. Following links can loop on a cyclic tree, so it
/// is off unless asked for.
#[derive(Debug, PartialEq, Eq)]
pub struct ScanConfig {
    roots: Vec<String>,
    follow_links: bool,
}

impl ScanConfig {
    #[verifier::type_invariant]
    spec fn inv(self) -> bool {
        self.roots@.len() > 0
    }

    /// The roots, in the order given.
    pub closed spec fn spec_roots(&self) -> Seq<String> {
        self.roots@
    }

    /// Whether traversal follows symbolic links.
    pub closed spec fn spec_follow_links(&self) -> bool {
        self.follow_links
    }

    /// A configuration over `roots` that does not follow symbolic links.
    /// An empty list of roots is refused.
    pub fn new(roots: Vec<String>) -> (config: Result<ScanConfig, ConfigError>)
        ensures
            config.is_ok() <==> roots@.len() > 0,
            config.is_ok() ==> config.unwrap().spec_roots() == roots@
                && !config.unwrap().spec_follow_links(),
            config.is_err() ==> config.unwrap_err() == ConfigError::NoRoots,
    {
        if roots.len() == 0 {
            Err(ConfigError::NoRoots)
        } else {
            Ok(ScanConfig { roots, follow_links: false })
        }
    }

    /// The same roots, following symbolic links or not as `follow` says.
    pub fn with_follow_links(self, follow: bool) -> (config: ScanConfig)
        ensures
            config.spec_roots() == self.spec_roots(),
            config.spec_follow_links() == follow,
    {
        proof {
            use_type_invariant(&self);
        }
        ScanConfig { roots: self.roots, follow_links: follow }
    }

    /// The roots, in the order given; there is at least one.
    pub fn roots(&self) -> (roots: &Vec<String>)
        ensures
            roots@ == self.spec_roots(),
            roots@.len() > 0,
    {
        proof {
            use_type_invariant(self);
        }
        &self.roots
    }

    /// Whether traversal follows symbolic links.
    pub fn follow_links(&self) -> (follow: bool)
        ensures
            follow == self.spec_follow_links(),
    {
        self.follow_links
    }
}

} // verus!
