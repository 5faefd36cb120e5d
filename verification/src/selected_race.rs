//! The race-change request carried by a lobby message.

use crate::decode::{decode_value_spec, json_value_from_bw, MAX_DEPTH};
use crate::memory::Memory;
use crate::value::{Tree, Value};
use vstd::prelude::*;

verus! {

/// A request to change the race selected in a lobby slot.
#[derive(Debug, Copy, Clone, PartialEq, Eq)]
pub struct RequestRaceChange {
    pub id: u32,
    pub selected_race: u8,
}

/// The request that a message tree carries: present where `data.endpoint`
/// is the text `RequestRaceChange`, `data.data.id` is a number that fits a
/// `u32` and `data.data.selected_race` is a number that fits a `u8`.
pub open spec fn race_change_of(tree: Tree) -> Option<RequestRaceChange> {
    let data = tree.member("data"@);
    let payload = data.member("data"@);
    if data.member("endpoint"@).as_text() == Some("RequestRaceChange"@) {
        match (payload.member("id"@).as_u32(), payload.member("selected_race"@).as_u8()) {
            (Some(id), Some(selected_race)) => Some(RequestRaceChange { id, selected_race }),
            _ => None,
        }
    } else {
        None
    }
}

/// Whether two texts are the same.
fn same_text(a: &str, b: &str) -> (r: bool)
    ensures
        r == (a@ == b@),
{
    a.to_owned() == b.to_owned()
}

/// Extracts the race-change request from a decoded message, if it is one.
pub fn race_change_from_value(json: &Value) -> (r: Option<RequestRaceChange>)
    ensures
        r == race_change_of(json@),
{
    let data = match json.get("data") {
        Some(data) => data,
        None => {
            return None;
        },
    };
    let endpoint = match data.get("endpoint") {
        Some(endpoint) => endpoint,
        None => {
            return None;
        },
    };
    let name = match endpoint.as_str() {
        Some(name) => name,
        None => {
            return None;
        },
    };
    if !same_text(name, "RequestRaceChange") {
        return None;
    }
    let payload = match data.get("data") {
        Some(payload) => payload,
        None => {
            return None;
        },
    };
    let id = match payload.get("id") {
        Some(id) => id.as_u32(),
        None => None,
    };
    let selected_race = match payload.get("selected_race") {
        Some(selected_race) => selected_race.as_u8(),
        None => None,
    };
    match (id, selected_race) {
        (Some(id), Some(selected_race)) => Some(RequestRaceChange { id, selected_race }),
        _ => None,
    }
}

/// Decodes the packed value at `addr` and extracts the race-change request
/// from it. Nothing is returned where decoding fails or the message is not
/// such a request.
pub fn parse_race_change(mem: &Memory, addr: u64) -> (r: Option<RequestRaceChange>)
    ensures
        r == match decode_value_spec(mem@, addr as int, MAX_DEPTH as nat) {
            Ok(tree) => race_change_of(tree),
            Err(_) => None,
        },
{
    match json_value_from_bw(mem, addr) {
        Some(json) => race_change_from_value(&json),
        None => None,
    }
}

} // verus!
