//! A kingdom-selection engine for a Dominion-style deck-building card game.
//!
//! Given a catalog of card piles, a set of user options and a deterministic
//! random stream, the engine searches for a set of ten (or more) supply piles
//! that satisfies the game's intrinsic rules (bane piles for Young Witch,
//! Potion for potion costs, reactions for attacks, ...) as well as the user's
//! inclusion lists and type quotas.

use vstd::prelude::*;

verus! {

/// Largest coin cost a kingdom card can have.
pub const MAXCOINCOST: i8 = 11;

/// A threshold standing in for "unbounded" in constraint state machines.
pub const MANY: u64 = 5000;

/// True when the field marks a card as in-supply or as a kingdom card.
pub fn bool_value(s: &str) -> (r: bool)
    ensures
        r == (s@ == "Y"@ || s@ == "y"@),
{
    crate::strutil::str_eq(s, "Y") || crate::strutil::str_eq(s, "y")
}

/// A small signed field; anything unparseable counts as -1.
pub fn short_value(s: &str) -> (r: i8)
    ensures
        r as int == match crate::costs::spec_parse_i8(s@) {
            Some(v) => v,
            None => -1,
        },
{
    match crate::strutil::parse_i8(s) {
        Some(v) => v,
        None => -1,
    }
}

/// The part of a group name before the first dash, grouping a set with
/// its related promotional sets.
pub fn group_name_prefix(group_name: &str) -> (r: String)
    ensures
        ({
            let idx = crate::costs::spec_find_char(group_name@, '-');
            if idx >= 0 {
                r@ == group_name@.subrange(0, idx)
            } else {
                r@ == group_name@
            }
        }),
{
    let len = group_name.unicode_len();
    match crate::costs::find_char(group_name, '-') {
        Some(i) => {
            proof {
                crate::costs::lemma_find_char_pub(group_name@, '-');
            }
            let p = group_name.substring_char(0, i);
            p.to_owned()
        },
        None => group_name.to_owned(),
    }
}

} // verus!

pub mod actions;
pub mod bad_rand;
pub mod cards;
pub mod collection;
pub mod config;
pub mod constraints;
pub mod costs;
pub mod laws;
pub mod piles;
pub mod properties;
pub mod selection;
pub mod strutil;
