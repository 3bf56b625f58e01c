//! The connections of a daemon, each under the id it was given.
use std::collections::HashMap;
use vstd::prelude::*;

use crate::Id;

verus! {

broadcast use vstd::std_specs::hash::group_hash_axioms;

/// The open connections by id.  Ids are handed out in turn from zero, so a
/// connection never gets the id of another, open or closed.
pub struct Connections<C> {
    next_id: Id,
    connections: HashMap<Id, C>,
}

impl<C> View for Connections<C> {
    type V = Map<Id, C>;

    closed spec fn view(&self) -> Map<Id, C> {
        self.connections@
    }
}

impl<C> Connections<C> {
    #[verifier::type_invariant]
    spec fn ids_handed_out(self) -> bool {
        forall|id: Id| #[trigger] self.connections@.contains_key(id) ==> id < self.next_id
    }

    /// The id the next connection gets.
    pub closed spec fn next_id_view(&self) -> Id {
        self.next_id
    }

    /// No connections; the first gets id 0.
    pub fn new() -> (r: Self)
        ensures
            r@ == Map::<Id, C>::empty(),
            r.next_id_view() == 0,
    {
        Connections { next_id: 0, connections: HashMap::new() }
    }

    /// The id the next connection gets.
    pub fn next_id(&self) -> (r: Id)
        ensures
            r == self.next_id_view(),
    {
        self.next_id
    }

    /// Adds a connection under the next id, which no connection had before,
    /// and returns that id.
    pub fn create(&mut self, connection: C) -> (id: Id)
        requires
            old(self).next_id_view() < u64::MAX,
        ensures
            id == old(self).next_id_view(),
            !old(self)@.contains_key(id),
            final(self)@ == old(self)@.insert(id, connection),
            final(self).next_id_view() == id + 1,
    {
        proof {
            use_type_invariant(&*self);
        }
        let id = self.next_id;
        let mut connections = HashMap::new();
        std::mem::swap(&mut connections, &mut self.connections);
        connections.insert(id, connection);
        self.next_id = id + 1;
        self.connections = connections;
        id
    }

    /// Forgets the connection with this id, if there is one.
    pub fn drop(&mut self, id: Id)
        ensures
            final(self)@ == old(self)@.remove(id),
            final(self).next_id_view() == old(self).next_id_view(),
    {
        proof {
            use_type_invariant(&*self);
        }
        let mut connections = HashMap::new();
        std::mem::swap(&mut connections, &mut self.connections);
        connections.remove(&id);
        self.connections = connections;
    }

    /// The connection with this id, if there is one.
    pub fn get(&self, id: Id) -> (r: Option<&C>)
        ensures
            match r {
                Some(c) => self@.contains_key(id) && *c == self@[id],
                None => !self@.contains_key(id),
            },
    {
        self.connections.get(&id)
    }
}

} // verus!
