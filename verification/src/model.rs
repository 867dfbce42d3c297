//! The registry as the contracts see it, and what each call makes of it.

use vstd::prelude::*;
use crate::buffer::{silence, SAMPLE_BYTES};
use crate::error::SchemeError;
use crate::ids::{ascending, with_id, without_id};
use crate::mix::mixdown;
use crate::notify::{notices, Notification, Readiness};
use crate::request::{request_of, RequestView};

verus! {

/// What an endpoint is for.
#[derive(Clone, Copy, Debug, PartialEq, Eq, Structural)]
pub enum Role {
    /// Its owner writes samples that the attached connections read.
    Source,
    /// Its owner reads the mixdown of what the attached connections write.
    Sink,
}

/// An endpoint as the contracts see it.
pub struct EndpointView {
    /// The name the endpoint was created under.
    pub name: Seq<u8>,
    pub role: Role,
    /// The endpoint's own samples; for a sink, the aggregate.
    pub buffer: Seq<i32>,
    /// The ids of the attached connections, ascending.
    pub connections: Seq<usize>,
}

/// A connection as the contracts see it.
pub struct ConnectionView {
    /// The id of the endpoint the connection is attached to.
    pub target: usize,
    /// The connection's private samples, where the target is a sink.
    pub shadow: Option<Seq<i32>>,
}

/// The registry as the contracts see it.
pub struct SchemeView {
    /// The live endpoints by id.
    pub endpoints: Map<usize, EndpointView>,
    /// The live connections by id.
    pub connections: Map<usize, ConnectionView>,
    /// The names under which endpoints can be reached.
    pub names: Map<Seq<u8>, usize>,
}

impl SchemeView {
    /// The registry with nothing in it.
    pub open spec fn empty() -> SchemeView {
        SchemeView { endpoints: Map::empty(), connections: Map::empty(), names: Map::empty() }
    }

    /// Whether `id` is in use, by an endpoint or by a connection.
    pub open spec fn live(self, id: usize) -> bool {
        self.endpoints.contains_key(id) || self.connections.contains_key(id)
    }

    /// No id is both an endpoint and a connection.
    pub open spec fn classes_apart(self) -> bool {
        forall|id: usize|
            !(#[trigger] self.endpoints.contains_key(id) && self.connections.contains_key(id))
    }

    /// Each endpoint lists live connections that are attached to it, in
    /// ascending order.
    pub open spec fn endpoints_sound(self) -> bool {
        forall|e: usize| #[trigger]
            self.endpoints.contains_key(e) ==> {
                &&& ascending(self.endpoints[e].connections)
                &&& forall|i: int|
                    0 <= i < self.endpoints[e].connections.len() ==> {
                        let c = #[trigger] self.endpoints[e].connections[i];
                        self.connections.contains_key(c) && self.connections[c].target == e
                    }
            }
    }

    /// Each connection is attached to a live endpoint that lists it, and has
    /// a shadow buffer exactly where that endpoint is a sink, of the sink's length.
    pub open spec fn connections_sound(self) -> bool {
        forall|c: usize| #[trigger]
            self.connections.contains_key(c) ==> {
                let t = self.connections[c].target;
                &&& self.endpoints.contains_key(t)
                &&& self.endpoints[t].connections.contains(c)
                &&& self.connections[c].shadow.is_some() == (self.endpoints[t].role == Role::Sink)
                &&& self.connections[c].shadow.is_some()
                    ==> self.connections[c].shadow.unwrap().len() == self.endpoints[t].buffer.len()
            }
    }

    /// Each name leads to a live endpoint that carries it.
    pub open spec fn names_sound(self) -> bool {
        forall|n: Seq<u8>| #[trigger]
            self.names.contains_key(n) ==> self.endpoints.contains_key(self.names[n])
                && self.endpoints[self.names[n]].name == n
    }

    /// What holds of the registry between any two calls.
    pub open spec fn wf(self) -> bool {
        &&& self.classes_apart()
        &&& self.endpoints_sound()
        &&& self.connections_sound()
        &&& self.names_sound()
    }

    /// The registry after an endpoint was created under the fresh id `id`.
    /// The name leads to the new endpoint from now on, whatever it led to before.
    pub open spec fn create(self, id: usize, name: Seq<u8>, role: Role, len: nat) -> SchemeView {
        SchemeView {
            endpoints: self.endpoints.insert(
                id,
                EndpointView { name, role, buffer: silence(len), connections: Seq::empty() },
            ),
            connections: self.connections,
            names: self.names.insert(name, id),
        }
    }

    /// The shadow buffer of a new connection to `target`: silence of the
    /// sink's length, and none for a source.
    pub open spec fn fresh_shadow(self, target: usize) -> Option<Seq<i32>> {
        match self.endpoints[target].role {
            Role::Sink => Some(silence(self.endpoints[target].buffer.len())),
            Role::Source => None,
        }
    }

    /// The registry after a connection with the fresh id `id` was attached to
    /// the endpoint `target`.
    pub open spec fn attach(self, id: usize, target: usize) -> SchemeView {
        let e = self.endpoints[target];
        SchemeView {
            endpoints: self.endpoints.insert(
                target,
                EndpointView { connections: with_id(e.connections, id), ..e },
            ),
            connections: self.connections.insert(
                id,
                ConnectionView { target, shadow: self.fresh_shadow(target) },
            ),
            names: self.names,
        }
    }

    /// The shadow buffers of the connections attached to the sink `id`, in
    /// ascending order of the connections' ids.
    pub open spec fn shadows(self, id: usize) -> Seq<Seq<i32>> {
        let attached = self.endpoints[id].connections;
        Seq::new(attached.len(), |i: int| self.connections[attached[i]].shadow.unwrap())
    }

    /// What the aggregate buffer of the sink `id` holds after the next sync.
    pub open spec fn mixdown_of(self, id: usize) -> Seq<i32> {
        mixdown(self.shadows(id), self.endpoints[id].buffer.len())
    }

    /// The registry after a sync of the endpoint `id`: a sink's buffer holds
    /// its mixdown, and nothing else changes.
    pub open spec fn sync(self, id: usize) -> SchemeView {
        let e = self.endpoints[id];
        match e.role {
            Role::Source => self,
            Role::Sink => SchemeView {
                endpoints: self.endpoints.insert(
                    id,
                    EndpointView { buffer: self.mixdown_of(id), ..e },
                ),
                connections: self.connections,
                names: self.names,
            },
        }
    }

    /// What a sync of the endpoint `id` sends: to each attached connection,
    /// in ascending order, the buffer's length; read-ready from a source,
    /// write-ready from a sink.
    pub open spec fn sync_notices(self, id: usize) -> Seq<Notification> {
        let e = self.endpoints[id];
        notices(
            e.connections,
            match e.role {
                Role::Source => Readiness::Read,
                Role::Sink => Readiness::Write,
            },
            e.buffer.len() as usize,
        )
    }

    /// The registry after the endpoint `id` was closed: the endpoint, its
    /// name and every connection attached to it are gone.
    pub open spec fn close_endpoint(self, id: usize) -> SchemeView {
        let e = self.endpoints[id];
        SchemeView {
            endpoints: self.endpoints.remove(id),
            connections: self.connections.remove_keys(e.connections.to_set()),
            names: self.names.remove(e.name),
        }
    }

    /// The registry after the connection `id` was closed: it is gone, and
    /// its endpoint lists it no more.
    pub open spec fn close_connection(self, id: usize) -> SchemeView {
        let t = self.connections[id].target;
        let e = self.endpoints[t];
        SchemeView {
            endpoints: self.endpoints.insert(
                t,
                EndpointView { connections: without_id(e.connections, id), ..e },
            ),
            connections: self.connections.remove(id),
            names: self.names,
        }
    }

    /// The registry after the live id `id` was closed.
    pub open spec fn close(self, id: usize) -> SchemeView {
        if self.endpoints.contains_key(id) {
            self.close_endpoint(id)
        } else {
            self.close_connection(id)
        }
    }

    /// What closing the live id `id` sends: for an endpoint, the end of the
    /// stream to each attached connection in ascending order; for a
    /// connection, nothing.
    pub open spec fn close_notices(self, id: usize) -> Seq<Notification> {
        if self.endpoints.contains_key(id) {
            notices(self.endpoints[id].connections, Readiness::Write, 0)
        } else {
            Seq::empty()
        }
    }

    /// The id whose buffer a mapping of the live id `id` reaches: an
    /// endpoint's own; for a connection, its shadow buffer where it has one,
    /// and else the buffer of the source it is attached to.
    pub open spec fn owner(self, id: usize) -> usize {
        if self.endpoints.contains_key(id) || self.connections[id].shadow.is_some() {
            id
        } else {
            self.connections[id].target
        }
    }

    /// Whether `id` has a buffer of its own: an endpoint, or a connection to a sink.
    pub open spec fn owns_buffer(self, id: usize) -> bool {
        self.endpoints.contains_key(id) || (self.connections.contains_key(id)
            && self.connections[id].shadow.is_some())
    }

    /// The samples of the buffer that `owner` owns.
    pub open spec fn buffer(self, owner: usize) -> Seq<i32> {
        if self.endpoints.contains_key(owner) {
            self.endpoints[owner].buffer
        } else {
            self.connections[owner].shadow.unwrap()
        }
    }

    /// What a mapping of `size` bytes at `offset` of the id `id` answers: the
    /// owner of the buffer it reaches, where the offset is zero, the id is
    /// live and `size` is that buffer's length in bytes. Another offset is
    /// `Einval`, then an id that is not live `Ebadf`, then another size `Einval`.
    pub open spec fn map(self, id: usize, offset: usize, size: usize) -> Result<
        usize,
        SchemeError,
    > {
        if offset != 0 {
            Err(SchemeError::Einval)
        } else if !self.live(id) {
            Err(SchemeError::Ebadf)
        } else if size as int == SAMPLE_BYTES * self.buffer(self.owner(id)).len() {
            Ok(self.owner(id))
        } else {
            Err(SchemeError::Einval)
        }
    }

    /// The registry after the buffer that `owner` owns was overwritten with `samples`.
    pub open spec fn write(self, owner: usize, samples: Seq<i32>) -> SchemeView {
        if self.endpoints.contains_key(owner) {
            SchemeView {
                endpoints: self.endpoints.insert(
                    owner,
                    EndpointView { buffer: samples, ..self.endpoints[owner] },
                ),
                connections: self.connections,
                names: self.names,
            }
        } else {
            SchemeView {
                endpoints: self.endpoints,
                connections: self.connections.insert(
                    owner,
                    ConnectionView { shadow: Some(samples), ..self.connections[owner] },
                ),
                names: self.names,
            }
        }
    }

    /// Whether an open call with `path` and `flags` may leave the registry
    /// `post` and the answer `r` behind, when it found the registry `pre`.
    /// A path or flags that cannot be read leave `Einval` and no change.
    /// Creating leaves the new endpoint under an id that was not live.
    /// Attaching leaves the new connection under such an id where the name
    /// leads to an endpoint, and `Enoent` and no change where it does not.
    pub open spec fn opened(
        pre: SchemeView,
        post: SchemeView,
        path: Seq<u8>,
        flags: usize,
        r: Result<usize, SchemeError>,
    ) -> bool {
        match request_of(path, flags) {
            Err(error) => r == Err::<usize, SchemeError>(error) && post == pre,
            Ok(RequestView::Create { name, role, len }) => {
                &&& r matches Ok(id)
                &&& !pre.live(id)
                &&& post == pre.create(id, name, role, len as nat)
            },
            Ok(RequestView::Attach { name }) => if pre.names.contains_key(name) {
                &&& r matches Ok(id)
                &&& !pre.live(id)
                &&& post == pre.attach(id, pre.names[name])
            } else {
                r == Err::<usize, SchemeError>(SchemeError::Enoent) && post == pre
            },
        }
    }
}

} // verus!
