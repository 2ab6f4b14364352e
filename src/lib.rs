//! Client side of the push-notification bus: the notification event, its JSON
//! wire form, and the decisions around publishing it to the notification topic.

pub mod dispatch;
pub mod payload;
pub mod wire;

pub use dispatch::{
    DispatchError, publish_outcome, publish_request, resolve_configuration, PublishRequest, NOTIFICATION_TOPIC_ARN,
};
pub use payload::NotificationPayload;
pub use wire::{from_wire, to_wire};
