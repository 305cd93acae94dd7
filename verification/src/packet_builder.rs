//! Builds outbound packets on behalf of the user: chat messages stamped
//! with a fresh identifier and the current time, and the channel requests.
//! The display name lives in one shared cell: every clone of a builder is
//! a handle onto the same nickname, and a rename through any handle is
//! seen by all of them.
use crate::arc_mutex_signal::AMSignal;
use crate::ident::Uuid;
use crate::packet::{ChatMessage, Packet, PacketV};
use vstd::prelude::*;

verus! {

/// Milliseconds since the Unix epoch, by the system clock.
///
/// Relies on std::time::SystemTime::now and its distance from the epoch;
/// the result is clamped into the non-negative range of an `i64` instead
/// of failing on clocks set before the epoch or absurdly far ahead.
#[verifier::external_body]
fn now_unix_millis() -> (r: i64)
    ensures
        r >= 0,
{
    match std::time::SystemTime::now().duration_since(std::time::SystemTime::UNIX_EPOCH) {
        Ok(d) => match i64::try_from(d.as_millis()) {
            Ok(v) => v,
            Err(_) => i64::MAX,
        },
        Err(_) => 0,
    }
}

/// Builds packets under a shared sender display name. The name is a
/// shared mutable cell, so no contract can pin which string a read
/// returns; the builder's contracts fix everything else about the
/// packets it makes.
pub struct PacketBuilder {
    nickname: AMSignal<String>,
}

impl PacketBuilder {
    pub fn new(nickname: String) -> (r: PacketBuilder) {
        PacketBuilder { nickname: AMSignal::new(nickname) }
    }

    /// Another handle onto the same shared nickname cell.
    pub fn clone(&self) -> (r: PacketBuilder) {
        PacketBuilder { nickname: self.nickname.clone() }
    }

    /// The display name most recently stored through any handle.
    pub fn get_nickname(&self) -> (r: String) {
        self.nickname.get_cloned()
    }

    /// Renames the user, for this handle and every clone of it.
    pub fn set_nickname(&self, new: &String) {
        self.nickname.set(new.clone());
    }

    /// A chat packet carrying `message` under the shared display name: a
    /// fresh random id (version 4, RFC 4122 variant), no reply-to, no
    /// direct recipient, stamped with the clock's current epoch
    /// milliseconds.
    pub fn chat_message(&self, message: String) -> (r: Packet)
        ensures
            (r@ matches PacketV::Chat(m) && m.message == message@ && m.in_reply_to is None
                && m.direct_message_to is None && m.sent >= 0 && (m.id >> 76) & 0xf == 4 && (
            m.id >> 62) & 0x3 == 2),
    {
        Packet::Chat(
            ChatMessage {
                id: Uuid::new_v4(),
                inReplyTo: None,
                message,
                user: self.nickname.get_cloned(),
                directMessageTo: None,
                sent: now_unix_millis(),
            },
        )
    }

    /// The channel-list request: a `ListChannels` packet with no list.
    pub fn list_channels(&self) -> (r: Packet)
        ensures
            r@ == (PacketV::ListChannels { channels: None }),
    {
        Packet::ListChannels { channels: None }
    }

    pub fn join_channel(&self, channel: String) -> (r: Packet)
        ensures
            r@ == (PacketV::JoinChannel { channel: channel@ }),
    {
        Packet::JoinChannel { channel }
    }
}

} // verus!
