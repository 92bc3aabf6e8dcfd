//! The daemon's config: a ruleset in nftables syntax, applied almost verbatim.

use crate::nftables::template;
use crate::text;
use vstd::prelude::*;

verus! {

#[derive(Debug, PartialEq)]
pub struct NftablesConfig {
    /// Ruleset text; `{{ name }}` placeholders in it are filled in.
    pub ruleset: String,
}

/// The ruleset refers to placeholders that nothing can fill in.
#[derive(Debug, PartialEq)]
pub struct UnknownPlaceholders {
    pub names: Vec<String>,
}

/// Refuses a ruleset that refers to an unknown placeholder, naming each of them.
pub fn validate(cfg: &NftablesConfig) -> (r: Result<(), UnknownPlaceholders>)
    ensures
        match r {
            Ok(_) => forall|t: Seq<char>|
                template::refers_to(cfg.ruleset@, t) ==> template::is_known(t),
            Err(e) => {
                &&& e.names@.len() > 0
                &&& text::ascending(text::texts(e.names@))
                &&& forall|t: Seq<char>| #[trigger]
                    text::texts(e.names@).contains(t) <==> template::refers_to(cfg.ruleset@, t)
                        && !template::is_known(t)
            },
        },
{
    let unknown = template::unknown_placeholders(cfg.ruleset.as_str());
    if unknown.len() == 0 {
        proof {
            assert forall|t: Seq<char>| template::refers_to(cfg.ruleset@, t) implies
            template::is_known(t) by {
                assert(!text::texts(unknown@).contains(t));
            }
        }
        Ok(())
    } else {
        Err(UnknownPlaceholders { names: unknown })
    }
}

/// How many times a default route is looked up before giving up.
pub const DEFAULT_ROUTE_RETRIES: u32 = 10;

/// What to do once a lookup of the default route has come back.
#[derive(Debug, PartialEq)]
pub enum Retry {
    Found(String),
    Again,
    GiveUp,
}

/// A lookup that finds a route ends the search; one that does not is repeated, up to the last
/// attempt.
pub fn retry_default_iface(attempt: u32, found: Option<String>) -> (r: Retry)
    ensures
        match found {
            Some(iface) => r == Retry::Found(iface),
            None => r == (if attempt < DEFAULT_ROUTE_RETRIES {
                Retry::Again
            } else {
                Retry::GiveUp
            }),
        },
{
    match found {
        Some(iface) => Retry::Found(iface),
        None => if attempt < DEFAULT_ROUTE_RETRIES {
            Retry::Again
        } else {
            Retry::GiveUp
        },
    }
}

} // verus!
