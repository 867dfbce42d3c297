//! The registry of endpoints and connections, and the five protocol calls.

use std::collections::HashMap;
use vstd::prelude::*;
use crate::buffer::AudioBuffer;
use crate::error::SchemeError;
use crate::ids::{gen_file_id, lemma_with_id, lemma_without_id, IdSet};
use crate::laws::{
    lemma_attach_wf, lemma_close_connection_wf, lemma_close_endpoint_wf, lemma_create_wf,
    lemma_sync_wf, lemma_write_wf,
};
use crate::mix::{mix_into, mixdown};
use crate::model::{ConnectionView, EndpointView, Role, SchemeView};
use crate::names::NameTable;
use crate::notify::{notify_all, Notification, Readiness};
use crate::request::{decode_open, OpenRequest};

verus! {

broadcast use vstd::std_specs::hash::group_hash_axioms;

/// An owned audio resource: a named buffer and the connections attached to it.
struct Endpoint {
    name: Vec<u8>,
    buffer: AudioBuffer,
    connections: IdSet,
    role: Role,
}

impl View for Endpoint {
    type V = EndpointView;

    closed spec fn view(&self) -> EndpointView {
        EndpointView {
            name: self.name@,
            role: self.role,
            buffer: self.buffer@,
            connections: self.connections@,
        }
    }
}

/// One attachment to an endpoint, with its private buffer where the
/// endpoint is a sink.
struct Connection {
    target: usize,
    shadow: Option<AudioBuffer>,
}

impl View for Connection {
    type V = ConnectionView;

    closed spec fn view(&self) -> ConnectionView {
        ConnectionView {
            target: self.target,
            shadow: match self.shadow {
                Some(buffer) => Some(buffer@),
                None => None,
            },
        }
    }
}

/// The class of a live id.
#[derive(Clone, Copy, Debug, PartialEq, Eq, Structural)]
pub enum IdClass {
    Endpoint,
    Connection,
}

/// The registry of endpoints and connections, and the five calls on it.
pub struct AudioScheme {
    endpoint_name_to_id: NameTable,
    endpoints: HashMap<usize, Endpoint>,
    connections: HashMap<usize, Connection>,
    used_file_ids: IdSet,
}

impl View for AudioScheme {
    type V = SchemeView;

    closed spec fn view(&self) -> SchemeView {
        SchemeView {
            endpoints: Map::new(
                |id: usize| self.endpoints@.contains_key(id),
                |id: usize| self.endpoints@[id]@,
            ),
            connections: Map::new(
                |id: usize| self.connections@.contains_key(id),
                |id: usize| self.connections@[id]@,
            ),
            names: self.endpoint_name_to_id@,
        }
    }
}

impl AudioScheme {
    /// The tables are in order: no name is bound twice, and the used ids
    /// are exactly the live ones, each once.
    pub closed spec fn tables_sound(&self) -> bool {
        &&& self.endpoint_name_to_id.wf()
        &&& self.used_file_ids.wf()
        &&& forall|id: usize| self.used_file_ids@.contains(id) <==> self@.live(id)
    }

    /// The registry is sound, and so are the tables that hold it.
    pub open spec fn wf(&self) -> bool {
        &&& self@.wf()
        &&& self.tables_sound()
    }

    /// The registry with nothing in it.
    pub fn new() -> (scheme: Self)
        ensures
            scheme.wf(),
            scheme@ == SchemeView::empty(),
    {
        let scheme = AudioScheme {
            endpoint_name_to_id: NameTable::new(),
            endpoints: HashMap::new(),
            connections: HashMap::new(),
            used_file_ids: IdSet::new(),
        };
        assert(scheme@.endpoints =~= Map::empty());
        assert(scheme@.connections =~= Map::empty());
        scheme
    }

    /// Classifies `id` by the table that holds it; an id in neither is `Ebadf`.
    pub fn resolve(&self, id: usize) -> (class: Result<IdClass, SchemeError>)
        requires
            self.wf(),
        ensures
            class == if self@.endpoints.contains_key(id) {
                Ok::<IdClass, SchemeError>(IdClass::Endpoint)
            } else if self@.connections.contains_key(id) {
                Ok::<IdClass, SchemeError>(IdClass::Connection)
            } else {
                Err::<IdClass, SchemeError>(SchemeError::Ebadf)
            },
    {
        if self.endpoints.contains_key(&id) {
            Ok(IdClass::Endpoint)
        } else if self.connections.contains_key(&id) {
            Ok(IdClass::Connection)
        } else {
            Err(SchemeError::Ebadf)
        }
    }

    /// Acknowledges a subscription to the events of `id` by handing `id`
    /// back; an id that is not live is `Ebadf`. Nothing is recorded, and
    /// `flags` are not consulted.
    pub fn fevent(&self, id: usize, flags: usize) -> (r: Result<usize, SchemeError>)
        requires
            self.wf(),
        ensures
            r == if self@.live(id) {
                Ok::<usize, SchemeError>(id)
            } else {
                Err::<usize, SchemeError>(SchemeError::Ebadf)
            },
    {
        if self.used_file_ids.contains(id) {
            Ok(id)
        } else {
            Err(SchemeError::Ebadf)
        }
    }
}

impl AudioScheme {
    /// Creates an endpoint named `name` with the role `role` and a buffer
    /// of `len` samples of silence, and answers with its id, which was not
    /// live before. From now on `name` leads to the new endpoint; an endpoint
    /// that had the name stays live under its id.
    pub fn create_endpoint(&mut self, name: Vec<u8>, role: Role, len: usize) -> (id: usize)
        requires
            old(self).wf(),
        ensures
            final(self).wf(),
            !old(self)@.live(id),
            final(self)@ == old(self)@.create(id, name@, role, len as nat),
    {
        let id = gen_file_id(&mut self.used_file_ids);
        let endpoint = Endpoint {
            name: vstd::slice::slice_to_vec(name.as_slice()),
            buffer: AudioBuffer::new(len),
            connections: IdSet::new(),
            role,
        };
        self.endpoints.insert(id, endpoint);
        self.endpoint_name_to_id.insert(name, id);
        proof {
            let post = old(self)@.create(id, name@, role, len as nat);
            lemma_with_id(old(self).used_file_ids@, id);
            lemma_create_wf(old(self)@, id, name@, role, len as nat);
            assert(self@.endpoints =~= post.endpoints);
            assert(self@.connections =~= post.connections);
            assert(self@ == post);
            assert forall|x: usize| self.used_file_ids@.contains(x) <==> self@.live(x) by {
                assert(old(self).used_file_ids@.contains(x) <==> old(self)@.live(x));
            }
        }
        id
    }

    /// Attaches a new connection to the endpoint that `name` leads to, and
    /// answers with the connection's id, which was not live before. Where
    /// the endpoint is a sink, the connection gets a shadow buffer of the
    /// sink's length, filled with silence. A name that leads nowhere is `Enoent`.
    pub fn attach_connection(&mut self, name: &[u8]) -> (r: Result<usize, SchemeError>)
        requires
            old(self).wf(),
        ensures
            final(self).wf(),
            match r {
                Ok(id) => {
                    &&& old(self)@.names.contains_key(name@)
                    &&& !old(self)@.live(id)
                    &&& final(self)@ == old(self)@.attach(id, old(self)@.names[name@])
                },
                Err(error) => {
                    &&& !old(self)@.names.contains_key(name@)
                    &&& error == SchemeError::Enoent
                    &&& final(self)@ == old(self)@
                },
            },
    {
        let target = match self.endpoint_name_to_id.get(name) {
            Some(target) => target,
            None => {
                return Err(SchemeError::Enoent);
            },
        };
        assert(old(self)@.endpoints.contains_key(target));
        let id = gen_file_id(&mut self.used_file_ids);
        let mut endpoint = self.endpoints.remove(&target).unwrap();
        let shadow = match endpoint.role {
            Role::Sink => Some(AudioBuffer::new(endpoint.buffer.len())),
            Role::Source => None,
        };
        endpoint.connections.insert(id);
        self.endpoints.insert(target, endpoint);
        self.connections.insert(id, Connection { target, shadow });
        proof {
            let post = old(self)@.attach(id, target);
            lemma_with_id(old(self).used_file_ids@, id);
            lemma_attach_wf(old(self)@, id, target);
            assert(self@.endpoints =~= post.endpoints);
            assert(self@.connections =~= post.connections);
            assert(self@ == post);
            assert forall|x: usize| self.used_file_ids@.contains(x) <==> self@.live(x) by {
                assert(old(self).used_file_ids@.contains(x) <==> old(self)@.live(x));
            }
        }
        Ok(id)
    }

    /// Opens `path`: with the creation flag, creates the endpoint that the
    /// path names; without it, attaches a connection to that endpoint.
    /// Answers with the new id. `uid` and `gid` are not consulted.
    pub fn open(&mut self, path: &[u8], flags: usize, uid: u32, gid: u32) -> (r: Result<
        usize,
        SchemeError,
    >)
        requires
            old(self).wf(),
        ensures
            final(self).wf(),
            SchemeView::opened(old(self)@, final(self)@, path@, flags, r),
    {
        match decode_open(path, flags) {
            Err(error) => Err(error),
            Ok(OpenRequest::Create { name, role, len }) => Ok(
                self.create_endpoint(name, role, len),
            ),
            Ok(OpenRequest::Attach { name }) => self.attach_connection(name.as_slice()),
        }
    }
}

impl AudioScheme {
    /// Grants a mapping of `size` bytes at `offset` of the id `id`, and
    /// answers with the id that owns the mapped buffer: `id` itself for an
    /// endpoint and for a connection to a sink, which maps its shadow
    /// buffer; the source's id for a connection to a source. The caller
    /// keeps the storage of each owner and turns the owner into an address.
    pub fn fmap(&self, id: usize, offset: usize, size: usize) -> (r: Result<usize, SchemeError>)
        requires
            self.wf(),
        ensures
            r == self@.map(id, offset, size),
    {
        if offset != 0 {
            return Err(SchemeError::Einval);
        }
        if let Some(endpoint) = self.endpoints.get(&id) {
            return endpoint.buffer.map(id, size);
        }
        let connection = match self.connections.get(&id) {
            Some(connection) => connection,
            None => {
                return Err(SchemeError::Ebadf);
            },
        };
        match &connection.shadow {
            Some(shadow) => shadow.map(id, size),
            None => {
                assert(self@.connections.contains_key(id));
                assert(self@.endpoints.contains_key(connection.target));
                let endpoint = self.endpoints.get(&connection.target).unwrap();
                endpoint.buffer.map(connection.target, size)
            },
        }
    }

    /// The buffer that `owner` owns: an endpoint's own buffer, or the
    /// shadow buffer of a connection to a sink.
    pub fn buffer(&self, owner: usize) -> (buffer: Option<&AudioBuffer>)
        requires
            self.wf(),
        ensures
            match buffer {
                Some(buffer) => self@.owns_buffer(owner) && buffer@ == self@.buffer(owner),
                None => !self@.owns_buffer(owner),
            },
    {
        if let Some(endpoint) = self.endpoints.get(&owner) {
            return Some(&endpoint.buffer);
        }
        match self.connections.get(&owner) {
            Some(connection) => match &connection.shadow {
                Some(shadow) => Some(shadow),
                None => None,
            },
            None => None,
        }
    }

    /// Overwrites the buffer that `owner` owns with `samples`, as its owner
    /// does through a mapping, and answers with the number of samples. An
    /// id without a buffer is `Ebadf`; samples of another number than the
    /// buffer's are `Einval`. A refused call changes nothing.
    pub fn write(&mut self, owner: usize, samples: &[i32]) -> (r: Result<usize, SchemeError>)
        requires
            old(self).wf(),
        ensures
            final(self).wf(),
            r == if !old(self)@.owns_buffer(owner) {
                Err::<usize, SchemeError>(SchemeError::Ebadf)
            } else if samples@.len() != old(self)@.buffer(owner).len() {
                Err::<usize, SchemeError>(SchemeError::Einval)
            } else {
                Ok::<usize, SchemeError>(samples.len())
            },
            final(self)@ == if r.is_ok() {
                old(self)@.write(owner, samples@)
            } else {
                old(self)@
            },
    {
        let fits = match self.buffer(owner) {
            Some(buffer) => buffer.len() == samples.len(),
            None => {
                return Err(SchemeError::Ebadf);
            },
        };
        if !fits {
            return Err(SchemeError::Einval);
        }
        if self.endpoints.contains_key(&owner) {
            let mut endpoint = self.endpoints.remove(&owner).unwrap();
            let _ = endpoint.buffer.load(samples);
            self.endpoints.insert(owner, endpoint);
        } else {
            let connection = self.connections.remove(&owner).unwrap();
            let mut shadow = connection.shadow.unwrap();
            let _ = shadow.load(samples);
            self.connections.insert(
                owner,
                Connection { target: connection.target, shadow: Some(shadow) },
            );
        }
        proof {
            let post = old(self)@.write(owner, samples@);
            lemma_write_wf(old(self)@, owner, samples@);
            assert(self@.endpoints =~= post.endpoints);
            assert(self@.connections =~= post.connections);
            assert(self@ == post);
            assert forall|x: usize| self.used_file_ids@.contains(x) <==> self@.live(x) by {
                assert(old(self).used_file_ids@.contains(x) <==> old(self)@.live(x));
            }
        }
        Ok(samples.len())
    }
}

impl AudioScheme {
    /// Syncs the endpoint `id`, and answers with zero.
    ///
    /// A source only announces itself: each attached connection is sent a
    /// read-ready notification with the buffer's length. A sink is first
    /// mixed down: its buffer is silenced, and the shadow buffers of the
    /// attached connections are mixed in, in ascending order of their ids;
    /// then each attached connection is sent a write-ready notification with
    /// the buffer's length. The notifications are appended to `outbox`.
    ///
    /// An id that is no live endpoint is `Ebadf`, and nothing changes.
    pub fn fsync(&mut self, id: usize, outbox: &mut Vec<Notification>) -> (r: Result<
        usize,
        SchemeError,
    >)
        requires
            old(self).wf(),
        ensures
            final(self).wf(),
            old(self)@.endpoints.contains_key(id) ==> {
                &&& r == Ok::<usize, SchemeError>(0)
                &&& final(self)@ == old(self)@.sync(id)
                &&& final(outbox)@ == old(outbox)@ + old(self)@.sync_notices(id)
            },
            !old(self)@.endpoints.contains_key(id) ==> {
                &&& r == Err::<usize, SchemeError>(SchemeError::Ebadf)
                &&& final(self)@ == old(self)@
                &&& final(outbox)@ == old(outbox)@
            },
    {
        if !self.endpoints.contains_key(&id) {
            return Err(SchemeError::Ebadf);
        }
        let ghost pre = self@;
        let ghost shadows = pre.shadows(id);
        let ghost links = self.connections@;
        let mut endpoint = self.endpoints.remove(&id).unwrap();
        let len = endpoint.buffer.len();
        match endpoint.role {
            Role::Source => {
                notify_all(outbox, endpoint.connections.as_slice(), Readiness::Read, len);
            },
            Role::Sink => {
                endpoint.buffer.zero();
                let attached = endpoint.connections.as_slice();
                let mut i: usize = 0;
                assert(shadows.take(0) =~= Seq::<Seq<i32>>::empty());
                while i < attached.len()
                    invariant
                        i <= attached@.len(),
                        pre.wf(),
                        pre.endpoints.contains_key(id),
                        pre.endpoints[id].role == Role::Sink,
                        attached@ == pre.endpoints[id].connections,
                        shadows == pre.shadows(id),
                        self.connections@ == links,
                        forall|c: usize| #[trigger]
                            pre.connections.contains_key(c) ==> links.contains_key(c)
                                && links[c]@ == pre.connections[c],
                        len == pre.endpoints[id].buffer.len(),
                        endpoint.name@ == pre.endpoints[id].name,
                        endpoint.role == pre.endpoints[id].role,
                        endpoint.connections@ == pre.endpoints[id].connections,
                        endpoint.buffer@ == mixdown(shadows.take(i as int), len as nat),
                    decreases attached@.len() - i,
                {
                    let c = attached[i];
                    assert(pre.connections.contains_key(pre.endpoints[id].connections[i as int]));
                    assert(pre.connections[c].target == id);
                    let connection = self.connections.get(&c).unwrap();
                    proof {
                        crate::mix::lemma_mixdown_len(shadows.take(i as int), len as nat);
                        assert(shadows.take(i + 1).drop_last() =~= shadows.take(i as int));
                        assert(shadows.take(i + 1).last() == shadows[i as int]);
                    }
                    match &connection.shadow {
                        Some(shadow) => {
                            mix_into(&mut endpoint.buffer, shadow);
                        },
                        None => {},
                    }
                    i += 1;
                }
                assert(shadows.take(i as int) =~= shadows);
                notify_all(outbox, attached, Readiness::Write, len);
            },
        }
        self.endpoints.insert(id, endpoint);
        proof {
            let post = pre.sync(id);
            lemma_sync_wf(pre, id);
            assert(self@.endpoints =~= post.endpoints);
            assert(self@.connections =~= post.connections);
            assert(self@ == post);
            assert forall|x: usize| self.used_file_ids@.contains(x) <==> self@.live(x) by {
                assert(old(self).used_file_ids@.contains(x) <==> old(self)@.live(x));
            }
        }
        Ok(0)
    }
}

impl AudioScheme {
    /// Tears the endpoint `id` down: the endpoint, the binding of its name
    /// and every connection attached to it go, and their ids are free again.
    fn release_endpoint(&mut self, id: usize, outbox: &mut Vec<Notification>)
        requires
            old(self).wf(),
            old(self)@.endpoints.contains_key(id),
        ensures
            final(self).wf(),
            final(self)@ == old(self)@.close_endpoint(id),
            final(outbox)@ == old(outbox)@ + old(self)@.close_notices(id),
    {
        let ghost pre = self@;
        let ghost links = self.connections@;
        let ghost used = self.used_file_ids@;
        let endpoint = self.endpoints.remove(&id).unwrap();
        self.endpoint_name_to_id.remove(endpoint.name.as_slice());
        self.used_file_ids.remove(id);
        proof {
            lemma_without_id(used, id);
        }
        let attached = endpoint.connections.as_slice();
        let ghost owners = self.endpoints@;
        let ghost names = self.endpoint_name_to_id;
        let mut i: usize = 0;
        assert(self.connections@ =~= links.remove_keys(attached@.take(0).to_set()));
        while i < attached.len()
            invariant
                i <= attached@.len(),
                self.used_file_ids.wf(),
                self.endpoints@ == owners,
                self.endpoint_name_to_id == names,
                self.connections@ == links.remove_keys(attached@.take(i as int).to_set()),
                forall|x: usize| #[trigger]
                    self.used_file_ids@.contains(x) <==> (used.contains(x) && x != id
                        && !attached@.take(i as int).contains(x)),
            decreases attached@.len() - i,
        {
            let c = attached[i];
            let ghost before = self.used_file_ids@;
            let ghost shorter = attached@.take(i as int);
            let ghost longer = attached@.take(i + 1);
            self.connections.remove(&c);
            self.used_file_ids.remove(c);
            proof {
                lemma_without_id(before, c);
                assert(longer =~= shorter.push(c));
                assert forall|x: usize| longer.contains(x) <==> (shorter.contains(x) || x
                    == c) by {
                    if shorter.contains(x) {
                        let k = choose|k: int| 0 <= k < shorter.len() && shorter[k] == x;
                        assert(longer[k] == x);
                    }
                    if x == c {
                        assert(longer[i as int] == x);
                    }
                }
                assert(longer.to_set() =~= shorter.to_set().insert(c));
                assert(self.connections@ =~= links.remove_keys(longer.to_set()));
                assert forall|x: usize| #[trigger]
                    self.used_file_ids@.contains(x) <==> (used.contains(x) && x != id
                        && !longer.contains(x)) by {
                    assert(before.contains(x) <==> (used.contains(x) && x != id
                        && !shorter.contains(x)));
                }
            }
            i += 1;
            assert(attached@.take(i as int) == longer);
        }
        assert(attached@.take(i as int) =~= attached@);
        notify_all(outbox, attached, Readiness::Write, 0);
        proof {
            let post = pre.close_endpoint(id);
            lemma_close_endpoint_wf(pre, id);
            assert(self@.endpoints =~= post.endpoints);
            assert(self@.connections =~= post.connections);
            assert(self@ == post);
            assert forall|x: usize| self.used_file_ids@.contains(x) <==> self@.live(x) by {
                assert(used.contains(x) <==> pre.live(x));
                assert(!(pre.endpoints.contains_key(x) && pre.connections.contains_key(x)));
                if attached@.contains(x) {
                    let k = choose|k: int| 0 <= k < attached@.len() && attached@[k] == x;
                    assert(pre.connections.contains_key(pre.endpoints[id].connections[k]));
                }
            }
        }
    }

    /// Tears the connection `id` down: it goes, its endpoint lists it no
    /// more, and its id is free again.
    fn release_connection(&mut self, id: usize)
        requires
            old(self).wf(),
            old(self)@.connections.contains_key(id),
        ensures
            final(self).wf(),
            final(self)@ == old(self)@.close_connection(id),
    {
        let ghost pre = self@;
        let ghost used = self.used_file_ids@;
        let connection = self.connections.remove(&id).unwrap();
        assert(pre.endpoints.contains_key(connection.target));
        let mut endpoint = self.endpoints.remove(&connection.target).unwrap();
        endpoint.connections.remove(id);
        self.endpoints.insert(connection.target, endpoint);
        self.used_file_ids.remove(id);
        proof {
            let post = pre.close_connection(id);
            lemma_without_id(used, id);
            lemma_close_connection_wf(pre, id);
            assert(self@.endpoints =~= post.endpoints);
            assert(self@.connections =~= post.connections);
            assert(self@ == post);
            assert forall|x: usize| self.used_file_ids@.contains(x) <==> self@.live(x) by {
                assert(used.contains(x) <==> pre.live(x));
                assert(!(pre.endpoints.contains_key(x) && pre.connections.contains_key(x)));
            }
        }
    }

    /// Closes the id `id`, and answers with zero.
    ///
    /// Closing an endpoint releases it with its name, and with it every
    /// connection attached to it: each of them is sent the end of the
    /// stream, a write-ready notification of length zero, appended to
    /// `outbox` in ascending order of the connections' ids. Closing a
    /// connection detaches it from its endpoint, and sends nothing.
    ///
    /// An id that is not live is `Ebadf`, and nothing changes.
    pub fn close(&mut self, id: usize, outbox: &mut Vec<Notification>) -> (r: Result<
        usize,
        SchemeError,
    >)
        requires
            old(self).wf(),
        ensures
            final(self).wf(),
            old(self)@.live(id) ==> {
                &&& r == Ok::<usize, SchemeError>(0)
                &&& final(self)@ == old(self)@.close(id)
                &&& final(outbox)@ == old(outbox)@ + old(self)@.close_notices(id)
            },
            !old(self)@.live(id) ==> {
                &&& r == Err::<usize, SchemeError>(SchemeError::Ebadf)
                &&& final(self)@ == old(self)@
                &&& final(outbox)@ == old(outbox)@
            },
    {
        match self.resolve(id) {
            Ok(IdClass::Endpoint) => {
                self.release_endpoint(id, outbox);
                Ok(0)
            },
            Ok(IdClass::Connection) => {
                self.release_connection(id);
                assert(outbox@ =~= old(outbox)@ + old(self)@.close_notices(id));
                Ok(0)
            },
            Err(error) => Err(error),
        }
    }
}

impl AudioScheme {
    /// The id of the endpoint that `name` leads to.
    pub fn lookup(&self, name: &[u8]) -> (id: Option<usize>)
        requires
            self.wf(),
        ensures
            id == if self@.names.contains_key(name@) {
                Some(self@.names[name@])
            } else {
                None
            },
    {
        self.endpoint_name_to_id.get(name)
    }

    /// The role of the endpoint `id`.
    pub fn role(&self, id: usize) -> (role: Option<Role>)
        requires
            self.wf(),
        ensures
            role == if self@.endpoints.contains_key(id) {
                Some(self@.endpoints[id].role)
            } else {
                None
            },
    {
        match self.endpoints.get(&id) {
            Some(endpoint) => Some(endpoint.role),
            None => None,
        }
    }

    /// The ids of the connections attached to the endpoint `id`, ascending.
    pub fn attached(&self, id: usize) -> (ids: Option<&[usize]>)
        requires
            self.wf(),
        ensures
            match ids {
                Some(ids) => self@.endpoints.contains_key(id) && ids@
                    == self@.endpoints[id].connections,
                None => !self@.endpoints.contains_key(id),
            },
    {
        match self.endpoints.get(&id) {
            Some(endpoint) => Some(endpoint.connections.as_slice()),
            None => None,
        }
    }

    /// The id of the endpoint that the connection `id` is attached to.
    pub fn target(&self, id: usize) -> (target: Option<usize>)
        requires
            self.wf(),
        ensures
            target == if self@.connections.contains_key(id) {
                Some(self@.connections[id].target)
            } else {
                None
            },
    {
        match self.connections.get(&id) {
            Some(connection) => Some(connection.target),
            None => None,
        }
    }
}

} // verus!
