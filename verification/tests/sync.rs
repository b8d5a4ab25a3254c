use launcher::clip::db::ClipboardDb;
use launcher::clipsync::db_observer::DbObserver;
use launcher::clipsync::protocol::{Message, WireEntry, PROTOCOL_VERSION};
use launcher::clipsync::reconcile::{entries_for, local_hashes, merge, missing_locally};
use launcher::clipsync::transport::{
    advertise, apply_if_freshest, copy_args, greeting, handshake, hostname, no_address_message, run,
    tailscale_ipv4, Backoff, Config, Interface, NoAddress, Role, Session, SessionError, BACKOFF_MAX,
};

fn config(local: &str, peer: &str) -> Config {
    Config { local_host: local.to_string(), peer_host: peer.to_string() }
}

fn wire(hash: i64, created_at: i64) -> WireEntry {
    WireEntry {
        content: vec![hash as u8],
        content_hash: hash,
        mime: "text/plain".to_string(),
        created_at,
        last_used: created_at,
    }
}

fn table(hashes: &[i64]) -> ClipboardDb {
    let mut db = ClipboardDb::new();
    for h in hashes {
        assert!(db.store(&[*h as u8], *h, "text/plain", None, 10 * *h).is_ok());
    }
    db
}

fn exchange(a: &mut ClipboardDb, b: &mut ClipboardDb) {
    let (mut at_a, mut at_b) = (Session::new(), Session::new());
    let mut to_b = vec![advertise(a)];
    let mut to_a = vec![advertise(b)];
    while !to_a.is_empty() || !to_b.is_empty() {
        let mut next_to_a = vec![];
        for m in to_b {
            next_to_a.extend(at_b.on_message(b, m).ok().unwrap().send);
        }
        let mut next_to_b = vec![];
        for m in to_a {
            next_to_b.extend(at_a.on_message(a, m).ok().unwrap().send);
        }
        to_a = next_to_a;
        to_b = next_to_b;
    }
}

fn sorted(db: &ClipboardDb) -> Vec<i64> {
    let mut v = local_hashes(db);
    v.sort();
    v
}

#[test]
fn exactly_one_side_dials() {
    assert!(config("alpha", "beta").is_client());
    assert!(!config("beta", "alpha").is_client());
    assert!(!config("same", "same").is_client());
    assert!(matches!(run(&config("alpha", "beta")), Role::Client));
    assert!(matches!(run(&config("beta", "alpha")), Role::Server));
}

#[test]
fn waits_double_up_to_the_maximum() {
    let mut b = Backoff::new();
    let waits: Vec<u64> = (0..7).map(|_| b.after_attempt(false)).collect();
    assert_eq!(waits, [1, 2, 4, 8, 16, 20, 20]);
    assert_eq!(b.after_attempt(true), 1);
    assert_eq!(b.after_attempt(false), 2);
    assert!(b.wait <= BACKOFF_MAX);
}

#[test]
fn greeting_is_understood() {
    let hello = greeting(&config("alpha", "beta"));
    assert!(matches!(handshake(&hello), Ok(h) if h == "alpha"));
    let other = Message::Hello { version: PROTOCOL_VERSION + 1, host: "x".to_string() };
    assert!(matches!(handshake(&other), Err(SessionError::Version { peer }) if peer == PROTOCOL_VERSION + 1));
    assert!(matches!(handshake(&Message::Done), Err(SessionError::NotHello)));
}

#[test]
fn hashes_are_compared() {
    let db = table(&[1, 2, 3]);
    assert_eq!(local_hashes(&db), [1, 2, 3]);
    assert_eq!(missing_locally(&db, &vec![2, 9, 3, 8]), [9, 8]);
    let found = entries_for(&db, &vec![3, 9, 1]);
    assert_eq!(found.iter().map(|e| e.content_hash).collect::<Vec<i64>>(), [3, 1]);
    assert_eq!(found[0].content, [3]);
}

#[test]
fn merge_inserts_what_is_new() {
    let mut db = table(&[1]);
    let r = merge(&mut db, vec![wire(1, 99), wire(5, 40), wire(6, 70), wire(7, 50)]).ok().unwrap();
    assert_eq!(r.inserted, 3);
    assert_eq!(r.newest.unwrap().content_hash, 6);
    assert_eq!(local_hashes(&db), [1, 5, 6, 7]);
    assert_eq!(db.get_by_hash(1).unwrap().created_at, 10);
    assert_eq!(db.get_by_hash(5).unwrap().created_at, 40);
}

#[test]
fn merge_into_a_full_table_fails() {
    let mut db = ClipboardDb::open(vec![], i64::MAX).unwrap();
    assert!(merge(&mut db, vec![wire(1, 1)]).is_err());
    let mut s = Session::new();
    assert!(s.on_message(&mut db, Message::Entry(wire(1, 1))).is_ok());
    assert!(matches!(s.on_message(&mut db, Message::Done), Err(SessionError::Db(_))));
}

#[test]
fn merge_adds_all_or_nothing() {
    let mut db = ClipboardDb::open(vec![], i64::MAX - 1).unwrap();
    assert!(merge(&mut db, vec![wire(1, 1), wire(2, 2)]).is_err());
    assert_eq!((db.count(), db.last_id()), (0, i64::MAX - 1));
    assert!(merge(&mut db, vec![wire(1, 1), wire(1, 3)]).is_ok());
    assert_eq!((db.count(), db.last_id()), (1, i64::MAX));
}

#[test]
fn session_answers_messages() {
    let mut db = table(&[1, 2]);
    let mut s = Session::new();
    let r = s.on_message(&mut db, Message::Have(vec![2, 3])).ok().unwrap();
    assert!(matches!(&r.send[..], [Message::Want(w)] if *w == vec![3]));
    let r = s.on_message(&mut db, Message::Want(vec![1, 9])).ok().unwrap();
    assert!(matches!(&r.send[..], [Message::Entry(e), Message::Done] if e.content_hash == 1));
    assert_eq!(r.sent, 1);
    let r = s.on_message(&mut db, Message::Entry(wire(3, 500))).ok().unwrap();
    assert!(r.send.is_empty());
    assert_eq!(db.count(), 2);
    let r = s.on_message(&mut db, Message::Done).ok().unwrap();
    assert_eq!(r.merged, 1);
    assert_eq!(r.apply.unwrap().content_hash, 3);
    assert_eq!(db.count(), 3);
    let r = s.on_message(&mut db, Message::Done).ok().unwrap();
    assert_eq!(r.merged, 0);
    assert!(r.apply.is_none());
    let r = s.on_message(&mut db, greeting(&config("a", "b"))).ok().unwrap();
    assert!(r.send.is_empty());
}

#[test]
fn round_unites_both_histories() {
    let mut a = table(&[1, 2, 3]);
    let mut b = table(&[3, 4]);
    exchange(&mut a, &mut b);
    assert_eq!(sorted(&a), [1, 2, 3, 4]);
    assert_eq!(sorted(&b), [1, 2, 3, 4]);
    assert!(missing_locally(&a, &local_hashes(&b)).is_empty());
}

#[test]
fn newer_local_copy_keeps_the_clipboard() {
    let db = table(&[1, 2]);
    assert!(apply_if_freshest(&db, Some(wire(9, 19))).is_none());
    assert_eq!(apply_if_freshest(&db, Some(wire(9, 20))).unwrap().content_hash, 9);
    assert!(apply_if_freshest(&db, None).is_none());
}

#[test]
fn observer_reports_added_rows() {
    let mut db = table(&[1, 2]);
    let mut o = DbObserver::new(&db);
    assert!(o.poll(&db).is_empty());
    assert!(db.store(b"x", 7, "text/plain", None, 1).is_ok());
    assert!(db.store(b"y", 8, "text/plain", None, 1).is_ok());
    assert!(db.store(b"x", 7, "text/plain", None, 2).is_ok());
    assert_eq!(o.poll(&db), [7, 8]);
    assert!(o.poll(&db).is_empty());
}

#[test]
fn pictures_are_copied_with_their_type() {
    assert_eq!(copy_args("image/png"), ["--type", "image/png"]);
    assert_eq!(copy_args("text/html"), Vec::<String>::new());
}

#[test]
fn tailnet_address_is_found_by_name() {
    let i = |name: &str, ipv4: Option<u32>| Interface { name: name.to_string(), ipv4 };
    assert_eq!(
        tailscale_ipv4(&vec![i("lo", Some(1)), i("tailscale0", None), i("tailscale0", Some(7))]).ok(),
        Some(7)
    );
    let none = tailscale_ipv4(&vec![i("tailscale0", None)]).err().unwrap();
    assert!(none == NoAddress::NoIpv4);
    assert!(no_address_message(none).contains("has no IPv4 address"));
    let none = tailscale_ipv4(&vec![i("eth0", Some(1))]).err().unwrap();
    assert!(none == NoAddress::NotFound);
    assert!(no_address_message(none).contains("not found"));
}

#[test]
fn hostname_is_trimmed_and_lowercased() {
    assert_eq!(hostname(Some(" MyHost\n")), "myhost");
    assert_eq!(hostname(None), "localhost");
}
