//! What two machines tell each other.

use vstd::prelude::*;
use vstd::slice::slice_to_vec;

verus! {

/// Version of the protocol; both sides must speak the same.
pub const PROTOCOL_VERSION: u32 = 1;

/// A clipboard entry on its way to the other machine.
pub struct WireEntry {
    pub content: Vec<u8>,
    pub content_hash: i64,
    pub mime: String,
    pub created_at: i64,
    pub last_used: i64,
}

/// What an entry on its way holds.
#[verifier::ext_equal]
pub struct WireView {
    pub content: Seq<u8>,
    pub content_hash: int,
    pub mime: Seq<char>,
    pub created_at: int,
    pub last_used: int,
}

impl View for WireEntry {
    type V = WireView;

    open spec fn view(&self) -> WireView {
        WireView {
            content: self.content@,
            content_hash: self.content_hash as int,
            mime: self.mime@,
            created_at: self.created_at as int,
            last_used: self.last_used as int,
        }
    }
}

/// What a list of entries on their way holds.
pub open spec fn wire_views(v: Seq<WireEntry>) -> Seq<WireView> {
    v.map_values(|e: WireEntry| e@)
}

impl WireEntry {
    /// The same entry once more.
    pub fn copy(&self) -> (r: WireEntry)
        ensures
            r@ == self@,
    {
        let r = WireEntry {
            content: slice_to_vec(self.content.as_slice()),
            content_hash: self.content_hash,
            mime: self.mime.clone(),
            created_at: self.created_at,
            last_used: self.last_used,
        };
        assert(r@ =~= self@);
        r
    }
}

/// A message.
pub enum Message {
    /// The first message of each side.
    Hello { version: u32, host: String },
    /// The hashes of entries that the sender holds.
    Have(Vec<i64>),
    /// The hashes of entries that the sender asks for.
    Want(Vec<i64>),
    /// One entry of a batch.
    Entry(WireEntry),
    /// The end of a batch.
    Done,
}

/// What a message says.
pub enum MessageView {
    Hello { version: u32, host: Seq<char> },
    Have(Seq<i64>),
    Want(Seq<i64>),
    Entry(WireView),
    Done,
}

impl View for Message {
    type V = MessageView;

    open spec fn view(&self) -> MessageView {
        match self {
            Message::Hello { version, host } => MessageView::Hello {
                version: *version,
                host: host@,
            },
            Message::Have(h) => MessageView::Have(h@),
            Message::Want(h) => MessageView::Want(h@),
            Message::Entry(e) => MessageView::Entry(e@),
            Message::Done => MessageView::Done,
        }
    }
}

/// What a list of messages says.
pub open spec fn message_views(v: Seq<Message>) -> Seq<MessageView> {
    v.map_values(|m: Message| m@)
}

} // verus!
