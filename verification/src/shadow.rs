use vstd::prelude::*;

verus! {

/// Which pipeline the shadow passes are built for.
#[derive(Clone, Copy, Debug, PartialEq, Eq, Structural)]
pub enum ShadowPipelineMode {
    Deferred,
    Forward,
}

impl ShadowPipelineMode {
    pub open spec fn spec_label(self) -> Seq<char> {
        match self {
            ShadowPipelineMode::Deferred => "DEFERRED"@,
            ShadowPipelineMode::Forward => "FORWARD"@,
        }
    }

    /// The upper-case name of the mode.
    pub fn label(self) -> (s: &'static str)
        ensures
            s@ == self.spec_label(),
            self == ShadowPipelineMode::Deferred ==> s@ == "DEFERRED"@,
            self == ShadowPipelineMode::Forward ==> s@ == "FORWARD"@,
    {
        match self {
            ShadowPipelineMode::Deferred => "DEFERRED",
            ShadowPipelineMode::Forward => "FORWARD",
        }
    }
}

} // verus!
