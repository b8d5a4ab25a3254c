//! The compositor's windows: their order, their workspaces, the event socket.

use crate::desktop::slice_text;
use crate::order::{ints, keys_of, numbers_are_ranked, rank, ranking, ranks};
use crate::text::{
    concat, decimal_is_read_back, digits_value, signed_decimal, signed_decimal_string,
};
use vstd::prelude::*;

verus! {

/// A workspace.
pub struct Workspace {
    pub id: i32,
    pub name: String,
}

/// A window.
pub struct Client {
    pub address: String,
    pub title: String,
    pub class: String,
    pub workspace: Workspace,
    pub focus_history_id: i32,
    pub pinned: bool,
}

/// What a workspace is.
pub struct WorkspaceView {
    pub id: int,
    pub name: Seq<char>,
}

/// What a window is.
pub struct ClientView {
    pub address: Seq<char>,
    pub title: Seq<char>,
    pub class: Seq<char>,
    pub workspace: WorkspaceView,
    pub focus_history_id: int,
    pub pinned: bool,
}

impl View for Workspace {
    type V = WorkspaceView;

    open spec fn view(&self) -> WorkspaceView {
        WorkspaceView { id: self.id as int, name: self.name@ }
    }
}

impl View for Client {
    type V = ClientView;

    open spec fn view(&self) -> ClientView {
        ClientView {
            address: self.address@,
            title: self.title@,
            class: self.class@,
            workspace: self.workspace@,
            focus_history_id: self.focus_history_id as int,
            pinned: self.pinned,
        }
    }
}

/// What a list of windows is.
pub open spec fn client_views(v: Seq<Client>) -> Seq<ClientView> {
    v.map_values(|c: Client| c@)
}

impl Client {
    /// The same window once more.
    pub fn copy(&self) -> (r: Client)
        ensures
            r@ == self@,
    {
        Client {
            address: self.address.clone(),
            title: self.title.clone(),
            class: self.class.clone(),
            workspace: Workspace { id: self.workspace.id, name: self.workspace.name.clone() },
            focus_history_id: self.focus_history_id,
            pinned: self.pinned,
        }
    }
}

/// Windows in the order of their focus history, the latest first.
pub open spec fn by_focus(v: Seq<ClientView>) -> Seq<ClientView> {
    ranking::<i128>(v.map_values(|c: ClientView| c.focus_history_id)).map_values(|i: int| v[i])
}

/// Sorts the windows by their focus history.
pub fn clients(found: &Vec<Client>) -> (r: Vec<Client>)
    ensures
        client_views(r@) == by_focus(client_views(found@)),
{
    let ghost fv = client_views(found@);
    let mut keys: Vec<i128> = Vec::new();
    let mut i: usize = 0;
    while i < found.len()
        invariant
            i <= found@.len(),
            keys@.len() == i,
            forall|j: int|
                0 <= j < i ==> #[trigger] keys@[j] as int == found@[j].focus_history_id as int,
        decreases found.len() - i,
    {
        keys.push(found[i].focus_history_id as i128);
        i = i + 1;
    }
    let ghost kv = fv.map_values(|c: ClientView| c.focus_history_id);
    assert(keys_of(keys@) == kv);
    let order = rank(&keys);
    let ghost ranked = ints(order@);
    let mut r: Vec<Client> = Vec::new();
    let mut k: usize = 0;
    while k < order.len()
        invariant
            k <= order@.len(),
            ranked == ints(order@),
            ranks::<i128>(ranked, kv),
            kv.len() == found@.len(),
            fv == client_views(found@),
            r@.len() == k,
            forall|j: int| 0 <= j < k ==> (#[trigger] r@[j])@ == fv[ranked[j]],
        decreases order.len() - k,
    {
        assert(ranked[k as int] == order@[k as int] as int);
        r.push(found[order[k]].copy());
        k = k + 1;
    }
    assert(client_views(r@) == by_focus(fv));
    r
}

/// The label of a workspace: its number, or its name if it has no number.
pub open spec fn label(w: WorkspaceView) -> Seq<char> {
    if w.id > 0 {
        signed_decimal(w.id)
    } else {
        w.name
    }
}

impl Workspace {
    /// The label of a workspace.
    pub fn label(&self) -> (r: String)
        ensures
            r@ == label(self@),
    {
        if self.id > 0 {
            signed_decimal_string(self.id as i128)
        } else {
            self.name.clone()
        }
    }
}

/// The path of the compositor's event socket, under the runtime directory
/// where one is set.
pub fn event_socket(runtime: Option<&str>, signature: &str) -> (r: String)
    ensures
        r@ == match slice_text(runtime) {
            Some(d) => d,
            None => "/tmp"@,
        } + "/hypr/"@ + signature@ + "/.socket2.sock"@,
{
    let dir = match runtime {
        Some(d) => d,
        None => "/tmp",
    };
    let a = concat(dir, "/hypr/");
    let b = concat(a.as_str(), signature);
    concat(b.as_str(), "/.socket2.sock")
}

/// Sorting windows by their focus history loses none and adds none, puts the
/// one with the smaller number first, and leaves those with the same as they
/// came.
pub proof fn latest_focus_comes_first(v: Seq<ClientView>)
    ensures
        by_focus(v).len() == v.len(),
        forall|c: ClientView| #[trigger] by_focus(v).contains(c) <==> v.contains(c),
        forall|i: int, j: int|
            0 <= i < j < v.len() ==> (#[trigger] by_focus(v)[i]).focus_history_id <= (
            #[trigger] by_focus(v)[j]).focus_history_id,
{
    let keys = v.map_values(|c: ClientView| c.focus_history_id);
    numbers_are_ranked(keys);
    let r = ranking::<i128>(keys);
    let all = by_focus(v);
    assert forall|c: ClientView| #[trigger] all.contains(c) <==> v.contains(c) by {
        if all.contains(c) {
            let k = choose|k: int| 0 <= k < all.len() && all[k] == c;
            assert(0 <= r[k] < v.len());
            assert(v[r[k]] == c);
        }
        if v.contains(c) {
            let i = choose|i: int| 0 <= i < v.len() && v[i] == c;
            assert(r.contains(i));
            let k = choose|k: int| 0 <= k < r.len() && r[k] == i;
            assert(all[k] == c);
        }
    }
    assert forall|i: int, j: int| 0 <= i < j < v.len() implies (
    #[trigger] all[i]).focus_history_id <= (#[trigger] all[j]).focus_history_id by {
        assert(0 <= r[i] < keys.len() && 0 <= r[j] < keys.len());
        assert(keys[r[i]] == all[i].focus_history_id && keys[r[j]] == all[j].focus_history_id);
    }
}

/// A workspace with a number is labelled by it in decimal, any other by its
/// name.
pub proof fn labels_are_numbers_or_names(w: WorkspaceView)
    ensures
        w.id > 0 ==> digits_value(label(w)) == Some(w.id),
        w.id <= 0 ==> label(w) == w.name,
{
    if w.id > 0 {
        decimal_is_read_back(w.id as nat);
    }
}

} // verus!
