//! Controller configuration.
use crate::ipip::text;
use vstd::prelude::*;

verus! {

/// How the controller routes to remote Nodes.
#[derive(Debug, Clone, Copy, PartialEq, Eq, Structural)]
pub enum RoutingMode {
    Native,
    Direct,
}

impl Default for RoutingMode {
    fn default() -> (r: Self)
        ensures
            r == RoutingMode::Direct,
    {
        RoutingMode::Direct
    }
}

/// The lowercase form of a text, as `str::to_lowercase` maps it by Unicode's
/// case rules.
pub uninterp spec fn lowercase(s: Seq<char>) -> Seq<char>;

/// `str::to_lowercase`: the text with every character mapped to its lowercase
/// form. The Unicode mapping is not written out; the result is named
/// `lowercase` of the argument.
#[verifier::external_body]
fn to_lowercase(s: &str) -> (r: String)
    ensures
        r@ == lowercase(s@),
{
    s.to_lowercase()
}

/// The mode that a lowercased setting selects: `native` selects `Native`, and
/// anything else `Direct`.
pub open spec fn mode_of_lowercased(value: Seq<char>) -> RoutingMode {
    if value == "native"@ {
        RoutingMode::Native
    } else {
        RoutingMode::Direct
    }
}

impl RoutingMode {
    /// The mode that an already lowercased `ROUTING_MODE` value selects.
    pub fn from_lowercased(value: &str) -> (r: RoutingMode)
        ensures
            r == mode_of_lowercased(value@),
    {
        proof {
            reveal_strlit("native");
        }
        if text::str_eq(value, "native") {
            RoutingMode::Native
        } else {
            RoutingMode::Direct
        }
    }

    /// The mode that a `ROUTING_MODE` value selects, in any letter case; an
    /// unset value selects `Direct`.
    pub fn from_setting(value: Option<String>) -> (r: RoutingMode)
        ensures
            r == match value {
                Some(v) => mode_of_lowercased(lowercase(v@)),
                None => RoutingMode::Direct,
            },
    {
        match value {
            Some(v) => {
                let lowered = to_lowercase(v.as_str());
                RoutingMode::from_lowercased(lowered.as_str())
            },
            None => RoutingMode::Direct,
        }
    }
}

} // verus!
