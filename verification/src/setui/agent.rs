use vstd::prelude::*;
use std::collections::HashSet;

verus! {

/// Errors an agent reports when it handles an invocation.
#[derive(Debug, Clone, Copy, PartialEq, Eq, Structural)]
pub enum AgentError {
    /// The agent does not handle the lifespan it was invoked for.
    UnhandledLifespan,
    /// Something the agent did not expect went wrong.
    UnexpectedError,
}

impl AgentError {
    /// The message that describes the error.
    pub fn message(&self) -> (r: &'static str)
        ensures
            r@ == match *self {
                AgentError::UnhandledLifespan => "Unhandled Lifespan"@,
                AgentError::UnexpectedError => "Unexpected Error"@,
            },
    {
        match self {
            AgentError::UnhandledLifespan => "Unhandled Lifespan",
            AgentError::UnexpectedError => "Unexpected Error",
        }
    }
}

/// Identification for an agent, used for logging.
#[derive(Clone, Debug, PartialEq, Eq, Hash)]
pub enum Descriptor {
    Component(String),
}

/// What an agent is given when it is created: the receptor its invocations
/// arrive on, the publisher of its events and the factory of switchboard
/// messengers.
pub struct Context<R, P, F> {
    pub receptor: R,
    publisher: P,
    switchboard_messenger_factory: F,
}

impl<R, P: Clone, F> Context<R, P, F> {
    /// Creates a context from its parts.
    pub fn new(receptor: R, publisher: P, switchboard_messenger_factory: F) -> (r: Self)
        ensures
            r.receptor() == receptor,
            r.publisher() == publisher,
            r.switchboard_messenger_factory() == switchboard_messenger_factory,
    {
        Context { receptor, publisher, switchboard_messenger_factory }
    }

    /// The receptor the context holds.
    pub closed spec fn receptor(&self) -> R {
        self.receptor
    }

    /// The publisher the context holds.
    pub closed spec fn publisher(&self) -> P {
        self.publisher
    }

    /// The factory of switchboard messengers the context holds.
    pub closed spec fn switchboard_messenger_factory(&self) -> F {
        self.switchboard_messenger_factory
    }

    /// Returns a copy of the publisher of the agent's events.
    pub fn get_publisher(&self) -> (r: P)
        ensures
            cloned::<P>(self.publisher(), r),
    {
        self.publisher.clone()
    }
}

/// The context of an agent during initialization: the setting components that are available.
#[derive(Debug)]
pub struct InitializationContext<S> {
    pub available_components: HashSet<S>,
}

impl<S> InitializationContext<S> {
    /// Creates an initialization context with the given available components.
    pub fn new(components: HashSet<S>) -> (r: Self)
        ensures
            r.available_components == components,
    {
        Self { available_components: components }
    }
}

/// The scope of an agent's life. Initialization components only run at the
/// beginning of the service; service components follow initialization and
/// run for the duration of the service.
#[derive(Debug)]
pub enum Lifespan<S> {
    Initialization(InitializationContext<S>),
    Service,
}

/// What is passed to an agent at each invocation: the lifespan it is invoked
/// for and the handle of the service context.
#[derive(Debug)]
pub struct Invocation<S, H> {
    pub lifespan: Lifespan<S>,
    pub service_context: H,
}

} // verus!
