use vstd::prelude::*;

verus! {

/// The addresses of the switchboard's message hub.
#[derive(PartialEq, Clone, Copy, Debug, Eq, Hash, Structural)]
pub enum Address {
    Switchboard,
    Registry,
}

/// The kinds of data the switchboard's message hub carries: setting actions and setting events.
#[derive(Clone, Debug)]
pub enum Payload<A, E> {
    Action(A),
    Event(E),
}

} // verus!
