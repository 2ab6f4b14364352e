use crate::payload::NotificationPayload;
use crate::wire::{to_wire, wire_form};
use vstd::prelude::*;
use vstd::string::StringExecFns;

verus! {

/// The topic that the central notification router subscribes to.
pub const NOTIFICATION_TOPIC_ARN: &'static str =
    "arn:aws:sns:eu-west-1:982932998640:pushover-notifications";

/// Why a notification could not be dispatched.
#[derive(Debug, Clone)]
pub enum DispatchError {
    /// The ambient transport configuration could not be resolved.
    ConfigurationError(String),
    /// The payload could not be encoded in its wire form.
    SerializationError,
    /// The transport refused or failed the publish call; carries its message.
    TransportError(String),
}

/// One publish call: the message body and the topic it goes to.
#[derive(Debug, Clone)]
pub struct PublishRequest {
    pub topic_arn: String,
    pub message: String,
}

/// Builds the publish call for `payload`: its wire form, sent to `topic_arn`.
pub fn publish_request(topic_arn: &str, payload: &NotificationPayload) -> (r: Result<
    PublishRequest,
    DispatchError,
>)
    ensures
        r is Ok,
        r matches Ok(req) ==> req.topic_arn@ == topic_arn@ && req.message@ == wire_form(payload@),
{
    let message = to_wire(payload)?;
    Ok(PublishRequest { topic_arn: String::from_str(topic_arn), message })
}

/// The result of a publish, given what the transport answered: its failure
/// comes back unchanged as a transport error, and nothing is retried.
pub fn publish_outcome(sent: Result<(), String>) -> (r: Result<(), DispatchError>)
    ensures
        match sent {
            Ok(_) => r is Ok,
            Err(m) => r == Err::<(), DispatchError>(DispatchError::TransportError(m)),
        },
{
    match sent {
        Ok(()) => Ok(()),
        Err(m) => Err(DispatchError::TransportError(m)),
    }
}

/// Checks the ambient transport configuration before a handle is made from
/// it: a region must be named and credentials must be present. Gives back
/// the region.
pub fn resolve_configuration(region: Option<String>, has_credentials: bool) -> (r: Result<
    String,
    DispatchError,
>)
    ensures
        match region {
            Some(name) => if name@.len() > 0 && has_credentials {
                r matches Ok(s) && s@ == name@
            } else {
                r matches Err(DispatchError::ConfigurationError(_))
            },
            None => r matches Err(DispatchError::ConfigurationError(_)),
        },
{
    match region {
        Some(name) => {
            if name.as_str().is_empty() {
                Err(DispatchError::ConfigurationError(String::from_str("no region is configured")))
            } else if !has_credentials {
                Err(
                    DispatchError::ConfigurationError(
                        String::from_str("no credentials are configured"),
                    ),
                )
            } else {
                Ok(name)
            }
        },
        None => Err(DispatchError::ConfigurationError(String::from_str("no region is configured"))),
    }
}

} // verus!
