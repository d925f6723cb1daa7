use vstd::prelude::*;

verus! {

/// Errors of the agent.
#[derive(Debug, PartialEq, Eq)]
pub enum IotEdgeError {
    Generic(&'static str),
    MqttSendError,
    MqttPubAckError,
}

impl From<&'static str> for IotEdgeError {
    fn from(s: &'static str) -> (r: IotEdgeError) {
        IotEdgeError::Generic(s)
    }
}

impl vstd::std_specs::convert::FromSpecImpl<&'static str> for IotEdgeError {
    open spec fn obeys_from_spec() -> bool {
        true
    }

    open spec fn from_spec(s: &'static str) -> IotEdgeError {
        IotEdgeError::Generic(s)
    }
}

} // verus!
