use vstd::prelude::*;

verus! {

/// The payload sent to the central notification router.
#[derive(Debug, Clone)]
pub struct NotificationPayload {
    /// Names the credential that selects the destination push channel.
    pub api_key_name: String,
    /// Heading of the push notification.
    pub title: String,
    /// Body text of the push notification.
    pub message: String,
}

/// The three fields of a payload, in wire order.
pub type PayloadModel = (Seq<char>, Seq<char>, Seq<char>);

impl View for NotificationPayload {
    type V = PayloadModel;

    open spec fn view(&self) -> PayloadModel {
        (self.api_key_name@, self.title@, self.message@)
    }
}

impl NotificationPayload {
    pub fn new(api_key_name: String, title: String, message: String) -> (r: NotificationPayload)
        ensures
            r@ == (api_key_name@, title@, message@),
    {
        NotificationPayload { api_key_name, title, message }
    }
}

} // verus!
