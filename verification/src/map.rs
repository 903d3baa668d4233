//! Which interface each live object has.

use crate::protocol::InterfaceId;
use vstd::prelude::*;

verus! {

/// The first of the object ids that the server hands out. Those below it are the client's.
pub const WL_SERVER_ID_START: u32 = 0xff00_0000;

/// What is known of an object id.
#[derive(Clone, Copy, Debug, PartialEq, Eq, Structural)]
pub enum ObjectEntry {
    Live(InterfaceId),
    Deleted(InterfaceId),
    NeverUsed,
}

/// Why an object id cannot be given an interface.
#[derive(Clone, Copy, Debug, PartialEq, Eq, Structural)]
pub enum IdMapError {
    /// The id skips over ids that have never been used.
    OutOfRange,
    /// The client reuses an id that is still in use.
    Duplicate,
}

/// The interfaces of all objects, those of the client's ids and those of the server's ids.
#[derive(Debug)]
pub struct IdMap {
    client_id_map: Vec<ObjectEntry>,
    server_id_map: Vec<ObjectEntry>,
}

/// The contents of an [`IdMap`].
#[verifier::ext_equal]
pub struct IdMapV {
    pub client: Seq<ObjectEntry>,
    pub server: Seq<ObjectEntry>,
}

/// Whether an id is one of those that the server hands out.
pub open spec fn is_server_id(id: u32) -> bool {
    id >= WL_SERVER_ID_START
}

/// The index of an id among those of its side.
pub open spec fn index_for(id: u32) -> int {
    if is_server_id(id) {
        id - WL_SERVER_ID_START
    } else {
        id as int
    }
}

impl IdMapV {
    /// Nothing is known of any id.
    pub open spec fn empty() -> IdMapV {
        IdMapV { client: Seq::empty(), server: Seq::empty() }
    }

    /// The entries of the side that an id belongs to.
    pub open spec fn side(self, id: u32) -> Seq<ObjectEntry> {
        if is_server_id(id) {
            self.server
        } else {
            self.client
        }
    }

    /// The map with the entries of one side replaced.
    pub open spec fn with_side(self, id: u32, entries: Seq<ObjectEntry>) -> IdMapV {
        if is_server_id(id) {
            IdMapV { server: entries, ..self }
        } else {
            IdMapV { client: entries, ..self }
        }
    }

    /// What is known of an id, if anything.
    pub open spec fn entry(self, id: u32) -> Option<ObjectEntry> {
        if index_for(id) < self.side(id).len() {
            Some(self.side(id)[index_for(id)])
        } else {
            None
        }
    }

    /// The interface of the live object with an id.
    pub open spec fn lookup(self, id: u32) -> Option<InterfaceId> {
        match self.entry(id) {
            Some(ObjectEntry::Live(i)) => Some(i),
            _ => None,
        }
    }

    /// Why an id cannot be added, if it cannot.
    pub open spec fn add_error(self, id: u32) -> Option<IdMapError> {
        if index_for(id) > self.side(id).len() {
            Some(IdMapError::OutOfRange)
        } else if !is_server_id(id) && self.lookup(id) is Some {
            Some(IdMapError::Duplicate)
        } else {
            None
        }
    }

    /// The map after an object has come to life.
    pub open spec fn added(self, id: u32, interface: InterfaceId) -> IdMapV {
        let side = self.side(id);
        if index_for(id) == side.len() {
            self.with_side(id, side.push(ObjectEntry::Live(interface)))
        } else {
            self.with_side(id, side.update(index_for(id), ObjectEntry::Live(interface)))
        }
    }

    /// The map after an object has gone.
    pub open spec fn deleted(self, id: u32) -> IdMapV {
        match self.lookup(id) {
            Some(i) => self.with_side(
                id,
                self.side(id).update(index_for(id), ObjectEntry::Deleted(i)),
            ),
            None => self,
        }
    }
}

impl View for IdMap {
    type V = IdMapV;

    closed spec fn view(&self) -> IdMapV {
        IdMapV { client: self.client_id_map@, server: self.server_id_map@ }
    }
}

impl IdMap {
    fn normalize_mut(&mut self, id: u32) -> (r: (&mut Vec<ObjectEntry>, u32))
        ensures
            r.1 == index_for(id),
            r.0@ == old(self)@.side(id),
            final(self)@ == old(self)@.with_side(id, final(r.0)@),
    {
        if id < WL_SERVER_ID_START {
            (&mut self.client_id_map, id)
        } else {
            (&mut self.server_id_map, id - WL_SERVER_ID_START)
        }
    }

    fn normalize(&self, id: u32) -> (r: (&Vec<ObjectEntry>, u32))
        ensures
            r.1 == index_for(id),
            r.0@ == self@.side(id),
    {
        if id < WL_SERVER_ID_START {
            (&self.client_id_map, id)
        } else {
            (&self.server_id_map, id - WL_SERVER_ID_START)
        }
    }

    /// A map that knows no id.
    pub fn new() -> (r: IdMap)
        ensures
            r@ == IdMapV::empty(),
    {
        IdMap { client_id_map: Vec::new(), server_id_map: Vec::new() }
    }

    /// A map in which the client's first id, the null id, is set aside, and the next one belongs
    /// to the display.
    pub fn with_display(display: InterfaceId) -> (r: IdMap)
        ensures
            r@ == (IdMapV {
                client: seq![ObjectEntry::NeverUsed, ObjectEntry::Live(display)],
                server: Seq::empty(),
            }),
    {
        let mut client_id_map: Vec<ObjectEntry> = Vec::new();
        client_id_map.push(ObjectEntry::NeverUsed);
        client_id_map.push(ObjectEntry::Live(display));
        assert(client_id_map@ =~= seq![ObjectEntry::NeverUsed, ObjectEntry::Live(display)]);
        IdMap { client_id_map, server_id_map: Vec::new() }
    }

    /// The interface of the live object with an id, if there is one.
    pub fn try_lookup(&self, id: u32) -> (r: Option<InterfaceId>)
        ensures
            r == self@.lookup(id),
    {
        let (map, index) = self.normalize(id);
        if (index as usize) < map.len() {
            match map[index as usize] {
                ObjectEntry::Live(interface) => Some(interface),
                _ => None,
            }
        } else {
            None
        }
    }

    /// The interface of a live object.
    pub fn lookup(&self, id: u32) -> (r: InterfaceId)
        requires
            self@.lookup(id) is Some,
        ensures
            Some(r) == self@.lookup(id),
    {
        self.try_lookup(id).unwrap()
    }

    /// Records that an object has come to life. The server may replace a live object of its own;
    /// the client may not.
    pub fn add(&mut self, id: u32, interface: InterfaceId) -> (r: Result<(), IdMapError>)
        ensures
            match r {
                Ok(_) => old(self)@.add_error(id) is None && final(self)@ == old(self)@.added(
                    id,
                    interface,
                ),
                Err(e) => old(self)@.add_error(id) == Some(e) && final(self)@ == old(self)@,
            },
    {
        let ghost before = self@;
        let (map, index) = self.normalize_mut(id);
        let i: usize = index as usize;
        if i == map.len() {
            map.push(ObjectEntry::Live(interface));
            Ok(())
        } else if i > map.len() {
            assert(before.with_side(id, before.side(id)) =~= before);
            Err(IdMapError::OutOfRange)
        } else {
            if let ObjectEntry::Live(_) = map[i] {
                // A server id differs from its index, a client id does not.
                if id == index {
                    assert(before.with_side(id, before.side(id)) =~= before);
                    return Err(IdMapError::Duplicate);
                }
            }
            map.set(i, ObjectEntry::Live(interface));
            Ok(())
        }
    }

    /// Records that an object has gone. An id that belongs to no live object is passed over.
    pub fn delete(&mut self, id: u32)
        ensures
            final(self)@ == old(self)@.deleted(id),
    {
        let ghost before = self@;
        let (map, index) = self.normalize_mut(id);
        let i: usize = index as usize;
        assert(before.with_side(id, before.side(id)) =~= before);
        if i < map.len() {
            if let ObjectEntry::Live(interface) = map[i] {
                map.set(i, ObjectEntry::Deleted(interface));
            }
        }
    }
}

/// What has been added is found, and nothing else has changed.
pub proof fn law_added_is_found(m: IdMapV, id: u32, interface: InterfaceId, other: u32)
    requires
        m.add_error(id) is None,
    ensures
        m.added(id, interface).lookup(id) == Some(interface),
        other != id ==> m.added(id, interface).entry(other) == m.entry(other),
{
}

/// What has been deleted is not found any more, and nothing else has changed.
pub proof fn law_deleted_is_gone(m: IdMapV, id: u32, other: u32)
    ensures
        m.deleted(id).lookup(id) is None,
        other != id ==> m.deleted(id).entry(other) == m.entry(other),
        m.deleted(id).deleted(id) == m.deleted(id),
{
}

/// A deleted id can be used again.
pub proof fn law_deleted_can_be_added(m: IdMapV, id: u32)
    requires
        m.lookup(id) is Some,
    ensures
        m.deleted(id).add_error(id) is None,
{
}

/// Which object is live is a matter of the entry at its own index: that of the client's list for an
/// id below `0xff000000`, and that of the server's list, counted from there, for any other.
pub proof fn law_lookup_is_by_index(m: IdMapV, id: u32, interface: InterfaceId)
    ensures
        m.lookup(id) == Some(interface) <==> if id < 0xff00_0000u32 {
            id < m.client.len() && m.client[id as int] == ObjectEntry::Live(interface)
        } else {
            id - 0xff00_0000 < m.server.len() && m.server[id - 0xff00_0000] == ObjectEntry::Live(
                interface,
            )
        },
{
}

/// An id of the server that skips over no other can always be added, whether or not a live object has
/// it: the server replaces its objects without a word, and is trusted to.
pub proof fn law_server_replaces_its_objects(m: IdMapV, id: u32, interface: InterfaceId)
    requires
        id >= 0xff00_0000,
        id - 0xff00_0000 <= m.server.len(),
    ensures
        m.add_error(id) is None,
        m.added(id, interface).lookup(id) == Some(interface),
        m.added(id, interface).client == m.client,
        m.added(id, interface).add_error(id) is None,
{
}

/// An id of the client that skips over no other can be added exactly if no live object has it: it is a
/// duplicate then, and no id of the server ever is. An id of either side that skips over others is out
/// of range.
pub proof fn law_what_can_be_added(m: IdMapV, id: u32)
    ensures
        m.add_error(id) == Some(IdMapError::Duplicate) <==> id < 0xff00_0000 && (exists|i: InterfaceId|
            #[trigger] m.lookup(id) == Some(i)),
        m.add_error(id) == Some(IdMapError::OutOfRange) <==> if id < 0xff00_0000u32 {
            id > m.client.len()
        } else {
            id - 0xff00_0000 > m.server.len()
        },
        id < 0xff00_0000 && id <= m.client.len() && m.lookup(id) is None ==> m.add_error(id) is None,
{
    if let Some(i) = m.lookup(id) {
        assert(m.lookup(id) == Some(i));
    }
}

/// What an object is, is changed by nothing but news of that object: adding it makes it live, with the
/// interface that it was given, deleting it makes it not live, and both leave all other objects, and
/// what can be added next, as they were.
pub proof fn law_objects_do_not_touch_each_other(
    m: IdMapV,
    id: u32,
    interface: InterfaceId,
    other: u32,
)
    requires
        m.add_error(id) is None,
        other != id,
    ensures
        m.added(id, interface).lookup(id) == Some(interface),
        m.added(id, interface).lookup(other) == m.lookup(other),
        m.deleted(id).lookup(id) is None,
        m.deleted(id).lookup(other) == m.lookup(other),
        m.deleted(id).client.len() == m.client.len(),
        m.deleted(id).server.len() == m.server.len(),
        m.deleted(id).add_error(other) == m.add_error(other),
        m.added(id, interface).client.len() == if id < 0xff00_0000u32 && id == m.client.len() {
            m.client.len() + 1
        } else {
            m.client.len()
        },
        m.added(id, interface).server.len() == if id >= 0xff00_0000u32 && id - 0xff00_0000
            == m.server.len() {
            m.server.len() + 1
        } else {
            m.server.len()
        },
{
}

} // verus!
