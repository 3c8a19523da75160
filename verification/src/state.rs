//! Shared application state.

use vstd::prelude::*;

use crate::providers::ProviderKind;

verus! {

/// The immutable provider registry, constructed once at process start and
/// passed into the aggregation operations.
pub struct AppState {
    pub providers: Vec<ProviderKind>,
}

impl AppState {
    /// The default registry: one client per supported forge variant.
    pub fn new() -> (s: AppState)
        ensures
            s.providers@ == seq![
                ProviderKind::GitHub,
                ProviderKind::GitLab,
                ProviderKind::ForgeJo,
            ],
    {
        let mut v: Vec<ProviderKind> = Vec::new();
        v.push(ProviderKind::GitHub);
        v.push(ProviderKind::GitLab);
        v.push(ProviderKind::ForgeJo);
        proof {
            assert(v@ =~= seq![
                ProviderKind::GitHub,
                ProviderKind::GitLab,
                ProviderKind::ForgeJo,
            ]);
        }
        AppState { providers: v }
    }
}

} // verus!
