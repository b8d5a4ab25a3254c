//! A map from names to file paths in which the first path given to a name stays.

use crate::keyfile::text_of;
use crate::text::views;
use vstd::hash_map::StringHashMap;
use vstd::prelude::*;

verus! {

/// What a map holds under a name.
pub open spec fn lookup(m: Map<Seq<char>, Seq<char>>, name: Seq<char>) -> Option<Seq<char>> {
    if m.contains_key(name) {
        Some(m[name])
    } else {
        None
    }
}

/// A map after a path was offered under a name: a name that has one keeps it.
pub open spec fn offered(
    m: Map<Seq<char>, Seq<char>>,
    name: Seq<char>,
    path: Seq<char>,
) -> Map<Seq<char>, Seq<char>> {
    if m.contains_key(name) {
        m
    } else {
        m.insert(name, path)
    }
}

/// File paths by name.
pub struct IconIndex {
    names: Vec<String>,
    paths: StringHashMap<String>,
}

impl View for IconIndex {
    type V = Map<Seq<char>, Seq<char>>;

    closed spec fn view(&self) -> Map<Seq<char>, Seq<char>> {
        self.paths@.map_values(|p: String| p@)
    }
}

impl IconIndex {
    #[verifier::type_invariant]
    spec fn lists_its_names(self) -> bool {
        &&& views(self.names@).no_duplicates()
        &&& forall|n: Seq<char>|
            self.paths@.contains_key(n) <==> #[trigger] views(self.names@).contains(n)
    }

    /// An empty map.
    pub fn new() -> (r: IconIndex)
        ensures
            r@ == Map::<Seq<char>, Seq<char>>::empty(),
    {
        let r = IconIndex { names: Vec::new(), paths: StringHashMap::new() };
        assert(r@ == Map::<Seq<char>, Seq<char>>::empty());
        r
    }

    /// The path under a name.
    pub fn get(&self, name: &str) -> (r: Option<String>)
        ensures
            text_of(r) == lookup(self@, name@),
    {
        match self.paths.get(name) {
            Some(p) => Some(p.clone()),
            None => None,
        }
    }

    /// Puts a path under a name that has none yet.
    pub fn offer(&mut self, name: String, path: String)
        ensures
            final(self)@ == offered(old(self)@, name@, path@),
    {
        proof {
            use_type_invariant(&*self);
        }
        if self.paths.contains_key(name.as_str()) {
            return;
        }
        let mut taken = IconIndex::new();
        std::mem::swap(&mut taken, self);
        let IconIndex { mut names, mut paths } = taken;
        let ghost listed = names@;
        let ghost held = paths@;
        names.push(name.clone());
        paths.insert(name, path);
        proof {
            let v = views(listed);
            assert(views(names@) == v.push(name@));
            assert(!v.contains(name@));
            assert forall|n: Seq<char>| paths@.contains_key(n) <==> #[trigger] views(
                names@,
            ).contains(n) by {
                assert(v.push(name@)[v.len() as int] == name@);
                if v.contains(n) {
                    let i = choose|i: int| 0 <= i < v.len() && v[i] == n;
                    assert(v.push(name@)[i] == n);
                }
                if views(names@).contains(n) && n != name@ {
                    let i = choose|i: int| 0 <= i < v.len() + 1 && v.push(name@)[i] == n;
                    assert(v[i] == n);
                }
            }
            assert(paths@.map_values(|p: String| p@) == held.map_values(
                |p: String| p@,
            ).insert(name@, path@));
        }
        *self = IconIndex { names, paths };
    }

    /// The names, in the order in which they came.
    pub fn names(&self) -> (r: Vec<String>)
        ensures
            views(r@).no_duplicates(),
            forall|n: Seq<char>| self@.contains_key(n) <==> #[trigger] views(r@).contains(n),
    {
        proof {
            use_type_invariant(self);
        }
        let mut r: Vec<String> = Vec::new();
        let mut i: usize = 0;
        while i < self.names.len()
            invariant
                i <= self.names.len(),
                views(r@) == views(self.names@).take(i as int),
            decreases self.names.len() - i,
        {
            let ghost head = r@;
            r.push(self.names[i].clone());
            assert(views(r@) == views(head).push(self.names@[i as int]@));
            assert(views(self.names@).take(i + 1) == views(self.names@).take(i as int).push(
                self.names@[i as int]@,
            ));
            i = i + 1;
        }
        assert(views(self.names@).take(views(self.names@).len() as int) == views(self.names@));
        r
    }

    /// Puts another path under a name that has one.
    pub fn replace(&mut self, name: &str, path: String)
        ensures
            final(self)@ == (if old(self)@.contains_key(name@) {
                old(self)@.insert(name@, path@)
            } else {
                old(self)@
            }),
    {
        proof {
            use_type_invariant(&*self);
        }
        if !self.paths.contains_key(name) {
            return;
        }
        let mut taken = IconIndex::new();
        std::mem::swap(&mut taken, self);
        let IconIndex { names, mut paths } = taken;
        let ghost held = paths@;
        paths.insert(name.to_owned(), path);
        proof {
            assert(paths@.map_values(|p: String| p@) == held.map_values(
                |p: String| p@,
            ).insert(name@, path@));
            assert forall|n: Seq<char>| paths@.contains_key(n) <==> #[trigger] views(
                names@,
            ).contains(n) by {
                assert(held.contains_key(n) <==> views(names@).contains(n));
            }
        }
        *self = IconIndex { names, paths };
    }
}

/// The first path that is offered under a name stays, later ones change
/// nothing, and other names keep theirs.
pub proof fn first_path_stays(
    m: Map<Seq<char>, Seq<char>>,
    name: Seq<char>,
    path: Seq<char>,
    other: Seq<char>,
)
    ensures
        lookup(m, name) is None ==> lookup(offered(m, name, path), name) == Some(path),
        lookup(m, name) is Some ==> lookup(offered(m, name, path), name) == lookup(m, name),
        other != name ==> lookup(offered(m, name, path), other) == lookup(m, other),
{
}

} // verus!
