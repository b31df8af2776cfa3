//! Key material as structured records.

use vstd::prelude::*;
use std::collections::BTreeMap;
use crate::symbol_map::distinct_keys;
use crate::symbol_map::pairs_to_map;

verus! {

/// The error of serde_json. Nothing is known of what it holds.
#[verifier::external_type_specification]
#[verifier::external_body]
pub struct ExJsonError(serde_json::Error);

/// The wiring that `serde_json::from_str` reads from `text` as a list of
/// numbers, where it reads one.
pub uninterp spec fn wiring_from_json(text: Seq<char>) -> Option<Seq<usize>>;

/// The text that `serde_json::to_string` writes for the list of numbers
/// `order`, where it writes one.
pub uninterp spec fn wiring_to_json(order: Seq<usize>) -> Option<Seq<char>>;

/// The wires that `serde_json::from_str` reads from `text` as a mapping
/// from characters to characters, where it reads one.
pub uninterp spec fn reflector_from_json(text: Seq<char>) -> Option<Map<char, char>>;

/// The text that `serde_json::to_string` writes for the mapping `wires`,
/// its entries in the order of their keys, where it writes one.
pub uninterp spec fn reflector_to_json(wires: Map<char, char>) -> Option<Seq<char>>;

/// `serde_json::from_str` on a list of numbers: what it returns depends on
/// `text` alone. It either reads a list or fails.
#[verifier::external_body]
pub(crate) fn parse_wiring(text: &str) -> (r: Result<Vec<usize>, serde_json::Error>)
    ensures
        match r {
            Ok(order) => wiring_from_json(text@) == Some(order@),
            Err(_) => wiring_from_json(text@) is None,
        },
{
    serde_json::from_str::<Vec<usize>>(text)
}

/// `serde_json::to_string` on a list of numbers: what it returns depends
/// on the numbers alone.
#[verifier::external_body]
pub(crate) fn print_wiring(order: &Vec<usize>) -> (r: Result<String, serde_json::Error>)
    ensures
        match r {
            Ok(text) => wiring_to_json(order@) == Some(text@),
            Err(_) => wiring_to_json(order@) is None,
        },
{
    serde_json::to_string(order)
}

/// `serde_json::from_str` on a mapping from characters to characters, read
/// into an ordered map and handed out as its entries: what it reads
/// depends on `text` alone, and no key comes twice among the entries.
#[verifier::external_body]
pub(crate) fn parse_reflector(text: &str) -> (r: Result<Vec<(char, char)>, serde_json::Error>)
    ensures
        match r {
            Ok(pairs) => distinct_keys(pairs@) && reflector_from_json(text@) == Some(
                pairs_to_map(pairs@),
            ),
            Err(_) => reflector_from_json(text@) is None,
        },
{
    match serde_json::from_str::<BTreeMap<char, char>>(text) {
        Ok(wires) => Ok(wires.into_iter().collect()),
        Err(e) => Err(e),
    }
}

/// `serde_json::to_string` on the ordered map that holds `pairs`, no two
/// of which have the same key: what it writes depends on the mapping
/// alone, since an ordered map hands out its entries by their keys.
#[verifier::external_body]
pub(crate) fn print_reflector(pairs: &Vec<(char, char)>) -> (r: Result<String, serde_json::Error>)
    requires
        distinct_keys(pairs@),
    ensures
        match r {
            Ok(text) => reflector_to_json(pairs_to_map(pairs@)) == Some(text@),
            Err(_) => reflector_to_json(pairs_to_map(pairs@)) is None,
        },
{
    serde_json::to_string(&pairs.iter().copied().collect::<BTreeMap<char, char>>())
}

} // verus!
