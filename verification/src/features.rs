//! Archive-wide features that a writer can be asked for.

use vstd::prelude::*;

verus! {

#[derive(Debug, Clone, Copy, PartialEq, Eq, Structural)]
pub enum Feature {
    Solid,
    HeaderEncryption,
    QuickOpen,
}

/// Every feature, in the order in which requests are checked.
pub open spec fn all_features() -> Seq<Feature> {
    seq![Feature::Solid, Feature::HeaderEncryption, Feature::QuickOpen]
}

/// How a feature is named in a message.
pub open spec fn feature_name(feature: Feature) -> Seq<char> {
    match feature {
        Feature::Solid => "solid compression"@,
        Feature::HeaderEncryption => "header encryption"@,
        Feature::QuickOpen => "a quick-open index"@,
    }
}

impl Feature {
    pub fn all() -> (features: Vec<Feature>)
        ensures
            features@ == all_features(),
    {
        vec![Feature::Solid, Feature::HeaderEncryption, Feature::QuickOpen]
    }

    pub fn name(self) -> (name: &'static str)
        ensures
            name@ == feature_name(self),
    {
        match self {
            Feature::Solid => "solid compression",
            Feature::HeaderEncryption => "header encryption",
            Feature::QuickOpen => "a quick-open index",
        }
    }
}

/// A choice of features.
#[derive(Debug, Clone, Copy, PartialEq, Eq, Structural)]
pub struct FeatureSet {
    pub solid: bool,
    pub header_encryption: bool,
    pub quick_open: bool,
}

impl FeatureSet {
    /// Whether the set holds `feature`.
    pub open spec fn holds(self, feature: Feature) -> bool {
        match feature {
            Feature::Solid => self.solid,
            Feature::HeaderEncryption => self.header_encryption,
            Feature::QuickOpen => self.quick_open,
        }
    }

    /// The first feature, in the order of [`all_features`], that is asked for
    /// and not allowed.
    pub open spec fn first_refused(self, allowed: FeatureSet) -> Option<Feature> {
        if self.solid && !allowed.solid {
            Some(Feature::Solid)
        } else if self.header_encryption && !allowed.header_encryption {
            Some(Feature::HeaderEncryption)
        } else if self.quick_open && !allowed.quick_open {
            Some(Feature::QuickOpen)
        } else {
            None
        }
    }

    /// No feature at all.
    pub fn store_only() -> (set: FeatureSet)
        ensures
            forall|feature: Feature| !set.holds(feature),
    {
        FeatureSet { solid: false, header_encryption: false, quick_open: false }
    }

    pub fn first_unsupported(self, allowed: FeatureSet) -> (refused: Option<Feature>)
        ensures
            refused == self.first_refused(allowed),
            refused is None <==> forall|feature: Feature|
                self.holds(feature) ==> #[trigger] allowed.holds(feature),
    {
        let refused = if self.solid && !allowed.solid {
            Some(Feature::Solid)
        } else if self.header_encryption && !allowed.header_encryption {
            Some(Feature::HeaderEncryption)
        } else if self.quick_open && !allowed.quick_open {
            Some(Feature::QuickOpen)
        } else {
            None
        };
        proof {
            if let Some(feature) = refused {
                assert(self.holds(feature) && !allowed.holds(feature));
            }
        }
        refused
    }
}

impl Default for FeatureSet {
    fn default() -> (set: FeatureSet)
        ensures
            forall|feature: Feature| !set.holds(feature),
    {
        FeatureSet::store_only()
    }
}

/// Features are refused just where one of them is not allowed. The one that is told is the
/// first of these.
pub proof fn law_the_first_missing_feature_is_refused(asked: FeatureSet, allowed: FeatureSet)
    ensures
        asked.first_refused(allowed) is None <==> {
            &&& asked.solid ==> allowed.solid
            &&& asked.header_encryption ==> allowed.header_encryption
            &&& asked.quick_open ==> allowed.quick_open
        },
        asked.first_refused(allowed) matches Some(feature) ==> asked.holds(feature)
            && !allowed.holds(feature) && forall|i: int|
            0 <= i < all_features().index_of(feature) && asked.holds(
                #[trigger] all_features()[i],
            ) ==> allowed.holds(all_features()[i]),
{
    if let Some(feature) = asked.first_refused(allowed) {
        assert(all_features()[0] is Solid && all_features()[1] is HeaderEncryption
            && all_features()[2] is QuickOpen);
        assert(all_features().contains(feature));
    }
}

} // verus!
