//! Relayed messages and the copies that validators submit of them.

use crate::identity::PublicKey;
use vstd::prelude::*;

verus! {

/// Service options that travel with a message.
#[derive(Debug)]
pub struct Sqos {
    pub reveal: bool,
}

/// What a message asks the destination to run.
#[derive(Debug)]
pub struct Content {
    pub contract: String,
    pub action: String,
    pub data: String,
}

/// One instruction relayed from one ledger to another.
#[derive(Debug)]
pub struct Message {
    pub from_chain: String,
    pub to_chain: String,
    pub sender: String,
    pub signer: String,
    pub sqos: Sqos,
    pub content: Content,
}

/// One validator's copy of a message for one round.
#[derive(Debug)]
pub struct MessageVerify {
    pub validator: PublicKey,
    pub message: Message,
}

/// The text of a `Content`.
pub struct ContentView {
    pub contract: Seq<char>,
    pub action: Seq<char>,
    pub data: Seq<char>,
}

/// The fields of a `Message`; two messages are equal when these agree.
pub struct MessageView {
    pub from_chain: Seq<char>,
    pub to_chain: Seq<char>,
    pub sender: Seq<char>,
    pub signer: Seq<char>,
    pub reveal: bool,
    pub content: ContentView,
}

/// A copy as the aggregation sees it: who sent it, and what it says.
pub struct MessageVerifyView {
    pub validator: Seq<u8>,
    pub message: MessageView,
}

impl View for Content {
    type V = ContentView;

    open spec fn view(&self) -> ContentView {
        ContentView { contract: self.contract@, action: self.action@, data: self.data@ }
    }
}

impl View for Message {
    type V = MessageView;

    open spec fn view(&self) -> MessageView {
        MessageView {
            from_chain: self.from_chain@,
            to_chain: self.to_chain@,
            sender: self.sender@,
            signer: self.signer@,
            reveal: self.sqos.reveal,
            content: self.content@,
        }
    }
}

impl View for MessageVerify {
    type V = MessageVerifyView;

    open spec fn view(&self) -> MessageVerifyView {
        MessageVerifyView { validator: self.validator@, message: self.message@ }
    }
}

impl DeepView for Message {
    type V = MessageView;

    open spec fn deep_view(&self) -> MessageView {
        self@
    }
}

impl DeepView for MessageVerify {
    type V = MessageVerifyView;

    open spec fn deep_view(&self) -> MessageVerifyView {
        self@
    }
}

impl Clone for Sqos {
    fn clone(&self) -> (copy: Sqos)
        ensures
            copy.reveal == self.reveal,
    {
        Sqos { reveal: self.reveal }
    }
}

impl Clone for Content {
    fn clone(&self) -> (copy: Content)
        ensures
            copy@ == self@,
    {
        Content {
            contract: self.contract.clone(),
            action: self.action.clone(),
            data: self.data.clone(),
        }
    }
}

impl Clone for Message {
    fn clone(&self) -> (copy: Message)
        ensures
            copy@ == self@,
    {
        Message {
            from_chain: self.from_chain.clone(),
            to_chain: self.to_chain.clone(),
            sender: self.sender.clone(),
            signer: self.signer.clone(),
            sqos: self.sqos.clone(),
            content: self.content.clone(),
        }
    }
}

impl Clone for MessageVerify {
    fn clone(&self) -> (copy: MessageVerify)
        ensures
            copy@ == self@,
    {
        MessageVerify { validator: self.validator.clone(), message: self.message.clone() }
    }
}

impl PartialEq for Message {
    /// Field-wise equality.
    fn eq(&self, other: &Message) -> (same: bool) {
        self.from_chain == other.from_chain && self.to_chain == other.to_chain && self.sender
            == other.sender && self.signer == other.signer && self.sqos.reveal == other.sqos.reveal
            && self.content.contract == other.content.contract && self.content.action
            == other.content.action && self.content.data == other.content.data
    }
}

impl Eq for Message {

}

impl vstd::std_specs::cmp::PartialEqSpecImpl for Message {
    open spec fn obeys_eq_spec() -> bool {
        true
    }

    open spec fn eq_spec(&self, other: &Message) -> bool {
        self@ == other@
    }
}

} // verus!
