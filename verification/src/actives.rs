//! The interfaces that take part: those that the version limits let through.

use crate::protocol::{
    at, interface_at, name_index, lemma_name_index, lemma_name_index_is, valid_id, Interface,
    InterfaceId, Protocol,
};
use crate::text::str_eq;
use vstd::prelude::*;

verus! {

/// All protocols, the interfaces in them that are active, and the interface of the display, which
/// is always active.
pub struct ActiveInterfacesA {
    pub protocols: Vec<Protocol>,
    pub map: Vec<InterfaceId>,
    pub display: InterfaceId,
}

pub type ActiveInterfaces = ActiveInterfacesA;

/// The names of the interfaces at some places.
pub open spec fn names_at(protocols: Seq<Protocol>, ids: Seq<InterfaceId>) -> Seq<Seq<char>> {
    Seq::new(ids.len(), |i: int| at(protocols, ids[i]).name@)
}

impl ActiveInterfacesA {
    /// Whether the places are those of interfaces with a version limit, no two of them with the same
    /// name, and each interface knows its place.
    pub open spec fn wf(self) -> bool {
        &&& forall|i: int| 0 <= i < self.map@.len() ==> self.place_ok(#[trigger] self.map@[i])
        &&& forall|i: int, j: int|
            0 <= i < j < self.map@.len() ==> at(self.protocols@, #[trigger] self.map@[i]).name@
                != at(self.protocols@, #[trigger] self.map@[j]).name@
        &&& self.place_ok(self.display)
        &&& forall|p: int, i: int|
            0 <= p < self.protocols@.len() && 0 <= i < self.protocols@[p].interfaces@.len()
                ==> #[trigger] self.protocols@[p].interfaces@[i].place == Some(
                InterfaceId { protocol: p as usize, index: i as usize },
            )
    }

    /// Whether there is an interface with a version limit at a place.
    pub open spec fn place_ok(self, id: InterfaceId) -> bool {
        &&& valid_id(self.protocols@, id)
        &&& at(self.protocols@, id).limited_version is Some
        &&& at(self.protocols@, id).place == Some(id)
    }

    /// The interface at a place.
    pub open spec fn get(self, id: InterfaceId) -> Interface {
        at(self.protocols@, id)
    }

    /// The place of the active interface with a name.
    pub open spec fn named(self, name: Seq<char>) -> Option<InterfaceId> {
        match name_index(names_at(self.protocols@, self.map@), name) {
            Some(i) => Some(self.map@[i]),
            None => None,
        }
    }

    /// The place of the active global interface with a name.
    pub open spec fn global_named(self, name: Seq<char>) -> Option<InterfaceId> {
        match self.named(name) {
            Some(id) => if self.get(id).parent is None {
                Some(id)
            } else {
                None
            },
            None => None,
        }
    }

    /// The place of the active interface with a name.
    pub fn find(&self, name: &str) -> (r: Option<InterfaceId>)
        requires
            self.wf(),
        ensures
            r == self.named(name@),
            r matches Some(id) ==> self.place_ok(id) && self.get(id).name@ == name@,
    {
        let n: usize = self.map.len();
        let ghost names = names_at(self.protocols@, self.map@);
        for i in 0..n
            invariant
                n == self.map@.len(),
                self.wf(),
                names == names_at(self.protocols@, self.map@),
                forall|j: int| 0 <= j < i ==> names[j] != name@,
        {
            assert(self.place_ok(self.map@[i as int]));
            let id = self.map[i];
            assert(names[i as int] == at(self.protocols@, id).name@);
            if str_eq(interface_at(&self.protocols, id).name.as_str(), name) {
                proof {
                    lemma_name_index_is(names, name@, i as int);
                }
                return Some(id);
            }
        }
        proof {
            lemma_name_index(names, name@);
        }
        None
    }

    /// The interface at a place.
    pub fn interface(&self, id: InterfaceId) -> (r: &Interface)
        requires
            valid_id(self.protocols@, id),
        ensures
            *r == self.get(id),
    {
        interface_at(&self.protocols, id)
    }

    /// The active interface with a name, if there is one.
    pub fn maybe_get_interface(&self, name: &str) -> (r: Option<&Interface>)
        requires
            self.wf(),
        ensures
            match self.named(name@) {
                Some(id) => r == Some(&self.get(id)) && self.place_ok(id),
                None => r is None,
            },
    {
        match self.find(name) {
            Some(id) => Some(self.interface(id)),
            None => None,
        }
    }

    /// The active interface with a name.
    pub fn get_interface(&self, name: &str) -> (r: &Interface)
        requires
            self.wf(),
            self.named(name@) is Some,
        ensures
            *r == self.get(self.named(name@)->0),
            self.place_ok(self.named(name@)->0),
    {
        self.maybe_get_interface(name).unwrap()
    }

    /// The active global interface with a name, if there is one.
    pub fn maybe_get_global(&self, name: &str) -> (r: Option<&Interface>)
        requires
            self.wf(),
        ensures
            match self.global_named(name@) {
                Some(id) => r == Some(&self.get(id)) && self.place_ok(id),
                None => r is None,
            },
    {
        match self.maybe_get_interface(name) {
            Some(i) => if i.parent.is_none() {
                Some(i)
            } else {
                None
            },
            None => None,
        }
    }

    /// The active global interface with a name.
    pub fn get_global(&self, name: &str) -> (r: &Interface)
        requires
            self.wf(),
            self.global_named(name@) is Some,
        ensures
            *r == self.get(self.global_named(name@)->0),
            self.place_ok(self.global_named(name@)->0),
    {
        self.maybe_get_global(name).unwrap()
    }

    /// The interface of the display.
    pub fn get_display(&self) -> (r: &Interface)
        requires
            self.wf(),
        ensures
            *r == self.get(self.display),
    {
        self.interface(self.display)
    }

    /// All active interfaces.
    pub fn iter(&self) -> (r: Vec<&Interface>)
        requires
            self.wf(),
        ensures
            r@.len() == self.map@.len(),
            forall|k: int| 0 <= k < r@.len() ==> *(#[trigger] r@[k]) == self.get(self.map@[k]),
    {
        let mut out: Vec<&Interface> = Vec::new();
        let n: usize = self.map.len();
        for i in 0..n
            invariant
                n == self.map@.len(),
                self.wf(),
                out@.len() == i,
                forall|k: int| 0 <= k < i ==> *(#[trigger] out@[k]) == self.get(self.map@[k]),
        {
            assert(self.place_ok(self.map@[i as int]));
            out.push(self.interface(self.map[i]));
        }
        out
    }
}

/// An active interface is found under its name, and under no other.
pub proof fn law_active_is_found(a: ActiveInterfacesA, k: int, name: Seq<char>)
    requires
        a.wf(),
        0 <= k < a.map@.len(),
    ensures
        a.named(name) == Some(a.map@[k]) <==> a.get(a.map@[k]).name@ == name,
{
    let names = names_at(a.protocols@, a.map@);
    lemma_name_index(names, name);
    assert(names[k] == a.get(a.map@[k]).name@);
    match name_index(names, name) {
        Some(i) => {
            assert(names[i] == a.get(a.map@[i]).name@);
            if i < k {
                assert(a.get(a.map@[i]).name@ != a.get(a.map@[k]).name@);
            }
            if k < i {
                assert(a.get(a.map@[k]).name@ != a.get(a.map@[i]).name@);
            }
        },
        None => {},
    }
}

/// An active interface is found as a global by its name exactly if it has no parent.
pub proof fn law_globals_are_found(a: ActiveInterfacesA, k: int, name: Seq<char>)
    requires
        a.wf(),
        0 <= k < a.map@.len(),
    ensures
        a.global_named(name) == Some(a.map@[k]) <==> a.get(a.map@[k]).name@ == name && a.get(
            a.map@[k],
        ).parent is None,
        (forall|i: int| 0 <= i < a.map@.len() ==> a.get(#[trigger] a.map@[i]).name@ != name)
            ==> a.global_named(name) is None,
{
    law_active_is_found(a, k, name);
    let names = names_at(a.protocols@, a.map@);
    lemma_name_index(names, name);
    if let Some(i) = name_index(names, name) {
        assert(names[i] == a.get(a.map@[i]).name@);
    }
}

} // verus!
