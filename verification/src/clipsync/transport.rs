//! Connection lifecycle and the reconciliation session.
//!
//! Both machines run the same daemon. The lexicographically smaller hostname is
//! the client and dials out; the larger is the server and listens. Once a
//! connection exists the session is symmetric.

use crate::clip::db::{
    latest_created, latest_created_is_the_maximum, ClipboardDb, DbError, Table,
};
use crate::clipsync::protocol::{
    message_views, wire_views, Message, MessageView, WireEntry, WireView, PROTOCOL_VERSION,
};
use crate::clipsync::reconcile::{
    entries, entries_for, freshest, hashes, inserted, local_hashes, merge, merged, missing,
    missing_locally, round, wire_view,
};
use crate::clip::db::hash_ints;
use crate::desktop::slice_text;
use crate::text::{
    ascii_lower, chars_of, comes_before, order_goes_by_first_difference, order_is_total, precedes,
    same, starts_with, trim, trim_chars, views,
};
use vstd::prelude::*;

verus! {

/// TCP port the sync daemon listens on and connects to.
pub const SYNC_PORT: u16 = 47654;

/// Seconds before the first reconnection.
pub const BACKOFF_START: u64 = 1;

/// Most seconds before a reconnection.
pub const BACKOFF_MAX: u64 = 20;

/// Configuration of the daemon.
pub struct Config {
    /// This machine's hostname.
    pub local_host: String,
    /// The peer's hostname.
    pub peer_host: String,
}

/// What this machine does to get a connection.
#[derive(Clone, Copy, PartialEq, Eq, Structural)]
pub enum Role {
    Client,
    Server,
}

/// The role of a machine against another.
pub open spec fn role(local: Seq<char>, peer: Seq<char>) -> Role {
    if precedes(local, peer) {
        Role::Client
    } else {
        Role::Server
    }
}

impl Config {
    /// True when this machine should dial the peer (it owns the smaller name).
    /// Equal names fall back to listening, so that two identically-named hosts
    /// do not both dial.
    pub fn is_client(&self) -> (r: bool)
        ensures
            r == precedes(self.local_host@, self.peer_host@),
    {
        let a = chars_of(self.local_host.as_str());
        let b = chars_of(self.peer_host.as_str());
        comes_before(a.as_slice(), b.as_slice())
    }
}

/// Picks client or server behaviour from the configuration.
pub fn run(cfg: &Config) -> (r: Role)
    ensures
        r == role(cfg.local_host@, cfg.peer_host@),
{
    if cfg.is_client() {
        Role::Client
    } else {
        Role::Server
    }
}

/// Of two machines with different names exactly one dials; of two with the
/// same name neither does.
pub proof fn one_side_dials(a: Seq<char>, b: Seq<char>)
    ensures
        a != b ==> role(a, b) != role(b, a),
        a == b ==> role(a, b) == Role::Server && role(b, a) == Role::Server,
{
    order_is_total(a, b);
}

/// How long the client waits before it dials again, in seconds.
pub struct Backoff {
    pub wait: u64,
}

/// The wait after another one: twice as long, up to the maximum.
pub open spec fn next_wait(wait: int) -> int {
    if wait * 2 < BACKOFF_MAX {
        wait * 2
    } else {
        BACKOFF_MAX as int
    }
}

impl Backoff {
    /// The first wait.
    pub fn new() -> (r: Backoff)
        ensures
            r.wait == BACKOFF_START,
    {
        Backoff { wait: BACKOFF_START }
    }

    /// How long to wait after an attempt; one that connected starts over.
    pub fn after_attempt(&mut self, connected: bool) -> (r: u64)
        requires
            BACKOFF_START <= old(self).wait <= BACKOFF_MAX,
        ensures
            r == (if connected {
                BACKOFF_START
            } else {
                old(self).wait
            }),
            final(self).wait == next_wait(r as int),
            BACKOFF_START <= final(self).wait <= BACKOFF_MAX,
    {
        if connected {
            self.wait = BACKOFF_START;
        }
        let r: u64 = self.wait;
        let doubled: u64 = r * 2;
        self.wait = if doubled < BACKOFF_MAX {
            doubled
        } else {
            BACKOFF_MAX
        };
        r
    }
}

/// Waits between failing attempts grow, but not beyond the maximum.
pub proof fn waits_are_capped(wait: int)
    requires
        BACKOFF_START <= wait <= BACKOFF_MAX,
    ensures
        wait <= next_wait(wait) <= BACKOFF_MAX,
        wait < BACKOFF_MAX ==> wait < next_wait(wait),
{
}

/// Why a session ended.
pub enum SessionError {
    /// The peer speaks another version of the protocol.
    Version { peer: u32 },
    /// The first message was not a greeting.
    NotHello,
    /// The table refused an entry.
    Db(DbError),
}

/// The message with which a session begins.
pub fn greeting(cfg: &Config) -> (r: Message)
    ensures
        r@ == (MessageView::Hello { version: PROTOCOL_VERSION, host: cfg.local_host@ }),
{
    Message::Hello { version: PROTOCOL_VERSION, host: cfg.local_host.clone() }
}

/// Checks the peer's first message: a greeting in the same version. Returns the
/// peer's name.
pub fn handshake(first: &Message) -> (r: Result<String, SessionError>)
    ensures
        match first@ {
            MessageView::Hello { version, host } => if version == PROTOCOL_VERSION {
                r matches Ok(h) && h@ == host
            } else {
                r matches Err(SessionError::Version { peer }) && peer == version
            },
            _ => r matches Err(SessionError::NotHello),
        },
{
    match first {
        Message::Hello { version, host } => if *version != PROTOCOL_VERSION {
            Err(SessionError::Version { peer: *version })
        } else {
            Ok(host.clone())
        },
        _ => Err(SessionError::NotHello),
    }
}

/// The message that starts a round: all hashes that are held.
pub fn advertise(db: &ClipboardDb) -> (r: Message)
    ensures
        r matches Message::Have(h) && hash_ints(h@) == hashes(db@),
{
    Message::Have(local_hashes(db))
}

/// A session after the handshake: the entries of the batch that is coming in.
pub struct Session {
    pub incoming: Vec<WireEntry>,
}

/// What a message brings about.
pub struct Step {
    /// The messages to send, in order.
    pub send: Vec<Message>,
    /// The entry to put on the clipboard.
    pub apply: Option<WireEntry>,
    /// How many entries are sent.
    pub sent: usize,
    /// How many entries were new.
    pub merged: usize,
}

/// The messages that answer a request for entries: each entry, then the end of
/// the batch.
pub open spec fn batch_of(all: Seq<WireView>) -> Seq<MessageView> {
    all.map_values(|w: WireView| MessageView::Entry(w)).push(MessageView::Done)
}

/// The freshest of the merged entries, if nothing in the table was created
/// after it.
pub open spec fn to_apply(t: Table, newest: Option<WireView>) -> Option<WireView> {
    match newest {
        Some(w) => if w.created_at >= latest_created(t.rows) {
            Some(w)
        } else {
            None
        },
        None => None,
    }
}

/// Picks the freshest of the merged entries if it takes the clipboard.
pub fn apply_if_freshest(db: &ClipboardDb, newest: Option<WireEntry>) -> (r: Option<WireEntry>)
    ensures
        wire_view(r) == to_apply(db@, wire_view(newest)),
{
    match newest {
        Some(w) => if w.created_at < db.max_created_at() {
            None
        } else {
            Some(w)
        },
        None => None,
    }
}

/// One side of a session: its table, and the entries of the batch that is
/// coming in.
#[verifier::ext_equal]
pub struct Side {
    pub table: Table,
    pub incoming: Seq<WireView>,
}

impl Side {
    /// The side after a message of the peer: entries are collected and merged at
    /// the end of their batch.
    pub open spec fn taken(self, m: MessageView) -> Side {
        match m {
            MessageView::Entry(w) => Side { incoming: self.incoming.push(w), ..self },
            MessageView::Done => Side {
                table: merged(self.table, self.incoming),
                incoming: Seq::empty(),
            },
            _ => self,
        }
    }

    /// The side after several messages of the peer.
    pub open spec fn all_taken(self, messages: Seq<MessageView>) -> Side
        decreases messages.len(),
    {
        if messages.len() == 0 {
            self
        } else {
            self.all_taken(messages.drop_last()).taken(messages.last())
        }
    }

    /// The messages that answer one of the peer.
    pub open spec fn replies(self, m: MessageView) -> Seq<MessageView> {
        match m {
            MessageView::Have(peer) => seq![MessageView::Want(missing(self.table, peer))],
            MessageView::Want(wanted) => batch_of(entries(self.table, wanted)),
            _ => Seq::empty(),
        }
    }

    /// The entry that a message of the peer puts on the clipboard.
    pub open spec fn clipped(self, m: MessageView) -> Option<WireView> {
        match m {
            MessageView::Done => to_apply(
                merged(self.table, self.incoming),
                freshest(inserted(self.table, self.incoming)),
            ),
            _ => None,
        }
    }
}

impl Session {
    /// A session in which nothing has come in.
    pub fn new() -> (r: Session)
        ensures
            wire_views(r.incoming@) == Seq::<WireView>::empty(),
    {
        let r = Session { incoming: Vec::new() };
        assert(wire_views(r.incoming@) == Seq::<WireView>::empty());
        r
    }

    /// Takes one message of the peer.
    ///
    /// What the peer has is answered by asking for what is lacking here, what it
    /// wants by sending it; its entries are collected and merged at the end of
    /// their batch. A second greeting is noise.
    pub fn on_message(&mut self, db: &mut ClipboardDb, msg: Message) -> (r: Result<
        Step,
        SessionError,
    >)
        requires
            old(db)@.valid(),
        ensures
            final(db)@.valid(),
            ({
                let side = Side { table: old(db)@, incoming: wire_views(old(self).incoming@) };
                let next = Side { table: final(db)@, incoming: wire_views(final(self).incoming@) };
                r matches Ok(s) ==> next == side.taken(msg@) && message_views(s.send@)
                    == side.replies(msg@) && wire_view(s.apply) == side.clipped(msg@)
            }),
            ({
                let t = old(db)@;
                let held = wire_views(old(self).incoming@);
                let now = wire_views(final(self).incoming@);
                let same_table = final(db)@ == t;
                match msg@ {
                    MessageView::Hello { .. } => {
                        &&& r matches Ok(s) && s.send@.len() == 0 && s.apply is None && s.sent == 0
                            && s.merged == 0
                        &&& same_table
                        &&& now == held
                    },
                    MessageView::Have(peer) => {
                        &&& r matches Ok(s) && message_views(s.send@) == seq![
                            MessageView::Want(missing(t, peer)),
                        ] && s.apply is None && s.sent == 0 && s.merged == 0
                        &&& same_table
                        &&& now == held
                    },
                    MessageView::Want(wanted) => {
                        &&& r matches Ok(s) && message_views(s.send@) == batch_of(
                            entries(t, wanted),
                        ) && s.apply is None && s.sent == entries(t, wanted).len() && s.merged == 0
                        &&& same_table
                        &&& now == held
                    },
                    MessageView::Entry(w) => {
                        &&& r matches Ok(s) && s.send@.len() == 0 && s.apply is None && s.sent == 0
                            && s.merged == 0
                        &&& same_table
                        &&& now == held.push(w)
                    },
                    MessageView::Done => {
                        let new = inserted(t, held);
                        &&& now == Seq::<WireView>::empty()
                        &&& final(db)@ == (if r is Ok {
                            merged(t, held)
                        } else {
                            t
                        })
                        &&& r is Ok <==> t.last_id + new.len() <= i64::MAX
                        &&& r matches Ok(s) ==> {
                            &&& s.send@.len() == 0
                            &&& s.sent == 0
                            &&& s.merged == new.len()
                            &&& wire_view(s.apply) == to_apply(merged(t, held), freshest(new))
                        }
                        &&& r matches Err(e) ==> (e matches SessionError::Db(d) && d
                            == DbError::Full)
                    },
                }
            }),
    {
        let mut send: Vec<Message> = Vec::new();
        assert(message_views(send@) == Seq::<MessageView>::empty());
        match msg {
            Message::Hello { .. } => Ok(Step { send, apply: None, sent: 0, merged: 0 }),
            Message::Have(peer) => {
                let want = missing_locally(db, &peer);
                let ghost w = want@;
                send.push(Message::Want(want));
                assert(message_views(send@) == seq![MessageView::Want(w)]);
                Ok(Step { send, apply: None, sent: 0, merged: 0 })
            },
            Message::Want(wanted) => {
                let found = entries_for(db, &wanted);
                let ghost fv = wire_views(found@);
                let n: usize = found.len();
                let mut i: usize = 0;
                while i < n
                    invariant
                        i <= n == found@.len(),
                        fv == wire_views(found@),
                        send@.len() == i,
                        forall|j: int|
                            0 <= j < i ==> (#[trigger] send@[j])@ == MessageView::Entry(fv[j]),
                    decreases n - i,
                {
                    send.push(Message::Entry(found[i].copy()));
                    i = i + 1;
                }
                send.push(Message::Done);
                assert(message_views(send@) =~= batch_of(fv));
                Ok(Step { send, apply: None, sent: n, merged: 0 })
            },
            Message::Entry(e) => {
                let ghost held = self.incoming@;
                self.incoming.push(e);
                assert(wire_views(self.incoming@) == wire_views(held).push(e@));
                Ok(Step { send, apply: None, sent: 0, merged: 0 })
            },
            Message::Done => {
                let mut batch: Vec<WireEntry> = Vec::new();
                std::mem::swap(&mut batch, &mut self.incoming);
                let ghost held = wire_views(batch@);
                assert(wire_views(self.incoming@) == Seq::<WireView>::empty());
                if batch.len() == 0 {
                    assert(held == Seq::<WireView>::empty());
                    return Ok(Step { send, apply: None, sent: 0, merged: 0 });
                }
                match merge(db, batch) {
                    Ok(m) => {
                        let ghost new = inserted(old(db)@, held);
                        let count: usize = m.inserted;
                        let apply = if count > 0 {
                            apply_if_freshest(db, m.newest)
                        } else {
                            assert(new =~= Seq::<WireView>::empty());
                            None
                        };
                        Ok(Step { send, apply, sent: 0, merged: count })
                    },
                    Err(e) => Err(SessionError::Db(e)),
                }
            },
        }
    }
}

/// The arguments with which an entry of a mime type is put on the clipboard.
pub open spec fn clip_args(mime: Seq<char>) -> Seq<Seq<char>> {
    if "image/"@.is_prefix_of(mime) {
        seq!["--type"@, mime]
    } else {
        Seq::empty()
    }
}

/// A picture of any kind names its type, text of any kind does not.
pub proof fn pictures_name_their_type(kind: Seq<char>)
    ensures
        clip_args("image/"@ + kind) == seq!["--type"@, "image/"@ + kind],
        clip_args("text/"@ + kind).len() == 0,
{
    reveal_strlit("image/");
    reveal_strlit("text/");
    let (a, b) = ("image/"@, "text/"@);
    assert(a =~= (a + kind).subrange(0, a.len() as int));
    assert(a[0] == 'i' && (b + kind)[0] == 't');
    assert(a.is_prefix_of(b + kind) ==> (b + kind).subrange(0, a.len() as int)[0] == (b + kind)[0]);
}

/// The arguments with which an entry is put on the clipboard: pictures name
/// their type.
pub fn copy_args(mime: &str) -> (r: Vec<String>)
    ensures
        views(r@) == clip_args(mime@),
        views(r@) == (if "image/"@.is_prefix_of(mime@) {
            seq!["--type"@, mime@]
        } else {
            Seq::empty()
        }),
{
    let mut r: Vec<String> = Vec::new();
    if starts_with(mime, "image/") {
        r.push("--type".to_owned());
        r.push(mime.to_owned());
        assert(views(r@) == seq!["--type"@, mime@]);
    } else {
        assert(views(r@) == Seq::<Seq<char>>::empty());
    }
    r
}

/// A network interface: its name, and its address if that is of version 4.
pub struct Interface {
    pub name: String,
    pub ipv4: Option<u32>,
}

/// Why there is no address to listen on.
#[derive(Clone, Copy, PartialEq, Eq, Structural)]
pub enum NoAddress {
    /// The interface has no address of version 4.
    NoIpv4,
    /// There is no such interface.
    NotFound,
}

/// The address of the first interface of the tailnet that has one.
pub open spec fn tailnet_address(all: Seq<Interface>) -> Option<u32>
    decreases all.len(),
{
    if all.len() == 0 {
        None
    } else if all[0].name@ == "tailscale0"@ && all[0].ipv4 is Some {
        all[0].ipv4
    } else {
        tailnet_address(all.drop_first())
    }
}

/// Whether some interface is that of the tailnet.
pub open spec fn has_tailnet(all: Seq<Interface>) -> bool {
    exists|i: int| 0 <= i < all.len() && (#[trigger] all[i]).name@ == "tailscale0"@
}

/// Finds this host's tailnet address by interface name.
pub fn tailscale_ipv4(all: &Vec<Interface>) -> (r: Result<u32, NoAddress>)
    ensures
        r == (match tailnet_address(all@) {
            Some(a) => Ok::<u32, NoAddress>(a),
            None => if has_tailnet(all@) {
                Err::<u32, NoAddress>(NoAddress::NoIpv4)
            } else {
                Err::<u32, NoAddress>(NoAddress::NotFound)
            },
        }),
{
    let mut present = false;
    let mut i: usize = 0;
    assert(all@.skip(0) == all@);
    while i < all.len()
        invariant
            i <= all@.len(),
            tailnet_address(all@) == tailnet_address(all@.skip(i as int)),
            present == exists|j: int| 0 <= j < i && (#[trigger] all@[j]).name@ == "tailscale0"@,
        decreases all.len() - i,
    {
        assert(all@.skip(i as int).drop_first() == all@.skip(i + 1));
        assert(all@.skip(i as int)[0] == all@[i as int]);
        if same(all[i].name.as_str(), "tailscale0") {
            present = true;
            match all[i].ipv4 {
                Some(a) => {
                    return Ok(a);
                },
                None => {},
            }
        }
        i = i + 1;
    }
    if present {
        Err(NoAddress::NoIpv4)
    } else {
        Err(NoAddress::NotFound)
    }
}

/// The message for a missing address.
pub fn no_address_message(e: NoAddress) -> (r: String)
    ensures
        r@ == match e {
            NoAddress::NoIpv4 => "interface 'tailscale0' has no IPv4 address — is Tailscale up?"@,
            NoAddress::NotFound => "interface 'tailscale0' not found — is Tailscale up?"@,
        },
{
    match e {
        NoAddress::NoIpv4 => {
            "interface 'tailscale0' has no IPv4 address — is Tailscale up?".to_owned()
        },
        NoAddress::NotFound => "interface 'tailscale0' not found — is Tailscale up?".to_owned(),
    }
}

/// The hostname that the system's hostname file gives.
pub open spec fn host_name(content: Option<Seq<char>>) -> Seq<char> {
    match content {
        Some(c) => ascii_lower(trim(c)),
        None => "localhost"@,
    }
}

/// A hostname has no upper-case letter of A to Z and no white space around it,
/// and is otherwise as the file gives it.
pub proof fn host_names_are_plain(c: Seq<char>, i: int)
    ensures
        host_name(Some(c)).len() == trim(c).len(),
        0 <= i < trim(c).len() && 'A' <= trim(c)[i] <= 'Z' ==> host_name(Some(c))[i] as int
            == trim(c)[i] as int + ('a' as int - 'A' as int),
        0 <= i < trim(c).len() && !('A' <= trim(c)[i] <= 'Z') ==> host_name(Some(c))[i]
            == trim(c)[i],
        host_name(None) == "localhost"@,
{
}

/// This machine's hostname from the content of the system's hostname file,
/// without white space around it and in lower case.
pub fn hostname(content: Option<&str>) -> (r: String)
    ensures
        r@ == host_name(slice_text(content)),
        r@ == (match slice_text(content) {
            Some(c) => ascii_lower(trim(c)),
            None => "localhost"@,
        }),
{
    match content {
        Some(c) => {
            let all = chars_of(c);
            let t = trim_chars(all.as_slice());
            let mut r = String::new();
            let mut i: usize = 0;
            while i < t.len()
                invariant
                    i <= t@.len(),
                    r@ == ascii_lower(t@).take(i as int),
                decreases t.len() - i,
            {
                r.push(crate::clip::db::lower_letter(t[i]));
                assert(ascii_lower(t@).take(i + 1) == ascii_lower(t@).take(i as int).push(
                    ascii_lower(t@)[i as int],
                ));
                i = i + 1;
            }
            assert(ascii_lower(t@).take(t@.len() as int) == ascii_lower(t@));
            r
        },
        None => "localhost".to_owned(),
    }
}

/// The first wait is a second, and each is twice the one before it as long as
/// that is not more than twenty.
pub proof fn waits_double(wait: int)
    requires
        BACKOFF_START <= wait <= BACKOFF_MAX,
    ensures
        BACKOFF_START == 1,
        wait * 2 <= 20 ==> next_wait(wait) == wait * 2,
        wait * 2 > 20 ==> next_wait(wait) == 20,
{
}

/// What is put on the clipboard is the freshest of the new entries, and only if
/// no row was created after it.
pub proof fn applied_is_not_older(t: Table, newest: WireView)
    ensures
        to_apply(t, None) is None,
        to_apply(t, Some(newest)) matches Some(w) ==> w == newest,
        t.rows.len() > 0 ==> (to_apply(t, Some(newest)) is Some <==> forall|i: int|
            0 <= i < t.rows.len() ==> (#[trigger] t.rows[i]).created_at <= newest.created_at),
{
    latest_created_is_the_maximum(t.rows);
}

/// A batch is sent as its entries in order, and its end.
pub proof fn batch_ends_with_done(all: Seq<WireView>)
    ensures
        batch_of(all).len() == all.len() + 1,
        forall|i: int|
            0 <= i < all.len() ==> #[trigger] batch_of(all)[i] == MessageView::Entry(all[i]),
        batch_of(all).last() == MessageView::Done,
{
}

/// The address to listen on is that of the first interface of the tailnet that
/// has one of version 4.
pub proof fn tailnet_address_is_first(all: Seq<Interface>)
    ensures
        forall|k: int|
            #![trigger all[k]]
            0 <= k < all.len() && all[k].name@ == "tailscale0"@ && all[k].ipv4 is Some && (forall|
                j: int,
            |
                0 <= j < k ==> !((#[trigger] all[j]).name@ == "tailscale0"@ && all[j].ipv4 is Some))
                ==> tailnet_address(all) == all[k].ipv4,
        tailnet_address(all) is Some ==> exists|k: int|
            0 <= k < all.len() && (#[trigger] all[k]).name@ == "tailscale0"@ && all[k].ipv4
                == tailnet_address(all),
    decreases all.len(),
{
    if all.len() > 0 {
        let rest = all.drop_first();
        tailnet_address_is_first(rest);
        assert(forall|i: int| 0 <= i < rest.len() ==> #[trigger] rest[i] == all[i + 1]);
        if all[0].name@ == "tailscale0"@ && all[0].ipv4 is Some {
            assert forall|k: int|
                #![trigger all[k]]
                0 <= k < all.len() && all[k].name@ == "tailscale0"@ && all[k].ipv4 is Some && (
                forall|j: int|
                    0 <= j < k ==> !((#[trigger] all[j]).name@ == "tailscale0"@
                        && all[j].ipv4 is Some)) implies tailnet_address(all) == all[k].ipv4 by {
                if k > 0 {
                    assert(!(all[0].name@ == "tailscale0"@ && all[0].ipv4 is Some));
                }
            }
        } else {
            assert forall|k: int|
                #![trigger all[k]]
                0 <= k < all.len() && all[k].name@ == "tailscale0"@ && all[k].ipv4 is Some && (
                forall|j: int|
                    0 <= j < k ==> !((#[trigger] all[j]).name@ == "tailscale0"@
                        && all[j].ipv4 is Some)) implies tailnet_address(all) == all[k].ipv4 by {
                assert(k > 0);
                assert(rest[k - 1] == all[k]);
                assert forall|j: int| 0 <= j < k - 1 implies !((
                #[trigger] rest[j]).name@ == "tailscale0"@ && rest[j].ipv4 is Some) by {
                    assert(rest[j] == all[j + 1]);
                }
            }
            if tailnet_address(all) is Some {
                let k = choose|k: int|
                    0 <= k < rest.len() && (#[trigger] rest[k]).name@ == "tailscale0"@
                        && rest[k].ipv4 == tailnet_address(rest);
                assert(all[k + 1] == rest[k]);
            }
        }
    }
}

/// The machine whose name comes first in the order of characters dials.
pub proof fn smaller_name_dials(a: Seq<char>, b: Seq<char>, i: int)
    requires
        0 <= i < a.len(),
        i < b.len(),
        a.take(i) == b.take(i),
        (a[i] as int) < (b[i] as int),
    ensures
        role(a, b) == Role::Client,
        role(b, a) == Role::Server,
{
    order_goes_by_first_difference(a, b, i);
    order_goes_by_first_difference(b, a, i);
}

proof fn entries_are_collected(side: Side, all: Seq<WireView>)
    ensures
        side.all_taken(all.map_values(|w: WireView| MessageView::Entry(w))) == (Side {
            incoming: side.incoming + all,
            ..side
        }),
    decreases all.len(),
{
    let f = |w: WireView| MessageView::Entry(w);
    let messages = all.map_values(f);
    if all.len() == 0 {
        assert(side.incoming + all =~= side.incoming);
    } else {
        entries_are_collected(side, all.drop_last());
        assert(messages.drop_last() =~= all.drop_last().map_values(f));
        assert((side.incoming + all.drop_last()).push(all.last()) =~= side.incoming + all);
    }
}

/// A session carries out a round: told of the hashes of one side, the other asks
/// for what it lacks, and once it has taken the answer its table is the one that
/// the round gives. The side that answers is not changed.
pub proof fn session_makes_a_round(from: Table, to: Table, told: Seq<i64>)
    ensures
        ({
            let sender = Side { table: from, incoming: Seq::empty() };
            let receiver = Side { table: to, incoming: Seq::empty() };
            let asked = receiver.replies(MessageView::Have(told));
            &&& asked.len() == 1
            &&& receiver.taken(MessageView::Have(told)) == receiver
            &&& sender.taken(asked[0]) == sender
            &&& receiver.all_taken(sender.replies(asked[0])) == (Side {
                table: round(from, to, told),
                incoming: Seq::empty(),
            })
        }),
{
    let receiver = Side { table: to, incoming: Seq::empty() };
    let all = entries(from, missing(to, told));
    let answer = batch_of(all);
    let f = |w: WireView| MessageView::Entry(w);
    entries_are_collected(receiver, all);
    assert(answer.drop_last() =~= all.map_values(f));
    assert(answer.last() == MessageView::Done);
    assert(Seq::<WireView>::empty() + all =~= all);
}

/// Nothing but the end of a batch changes a table or the clipboard, and a second
/// greeting is noise.
pub proof fn only_batches_change_a_table(side: Side, m: MessageView)
    requires
        !(m is Done),
    ensures
        side.taken(m).table == side.table,
        side.clipped(m) is None,
        m is Hello ==> side.taken(m) == side && side.replies(m).len() == 0,
{
}

} // verus!
