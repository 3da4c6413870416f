//! Names for the entities of essential archetypes, so that the inspector
//! can tell them apart.
use vstd::prelude::*;
use vstd::string::StringExecFns;

use crate::text::{decimal, decimal_string};

verus! {

/// The name of a newly seen monitor: its own name if it has one, else its
/// number in the order monitors were seen, counting from one.
pub open spec fn monitor_name(name: Option<Seq<char>>, count: nat) -> Seq<char> {
    match name {
        Some(n) => "Monitor "@ + n,
        None => "Monitor "@ + decimal(count),
    }
}

/// Counts a newly seen monitor and returns its name.
pub fn monitor_label(name: Option<&String>, counter: &mut usize) -> (label: String)
    requires
        *old(counter) < usize::MAX,
    ensures
        *final(counter) == *old(counter) + 1,
        label@ == monitor_name(
            match name {
                Some(n) => Some(n@),
                None => None,
            },
            *final(counter) as nat,
        ),
{
    *counter = *counter + 1;
    let mut label = String::from_str("Monitor ");
    match name {
        Some(n) => label.append(n.as_str()),
        None => {
            let number = decimal_string(*counter as u64);
            label.append(number.as_str());
        },
    }
    label
}

/// The name given to an observer entity.
pub fn observer_label() -> (label: String)
    ensures
        label@ == "Observer"@,
{
    String::from_str("Observer")
}

/// The name given to a pointer entity.
pub fn pointer_label() -> (label: String)
    ensures
        label@ == "Pointer"@,
{
    String::from_str("Pointer")
}

} // verus!
