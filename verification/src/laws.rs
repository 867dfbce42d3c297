//! What holds of the registry whatever is called on it: each step keeps it
//! sound, and closing, attaching and mapping do what their names promise.

use vstd::prelude::*;
use crate::buffer::SAMPLE_BYTES;
use crate::error::SchemeError;
use crate::ids::{
    ascending, lemma_rank_finds, lemma_rank_parts, lemma_with_id, lemma_without_id, rank,
};
use crate::mix::{contributes_nothing, lemma_mixdown_len, lemma_mixdown_without_silent};
use crate::model::{ConnectionView, Role, SchemeView};
use crate::notify::{Notification, Readiness};
use crate::request::{request_of, RequestView};

verus! {

/// The empty registry is sound.
pub proof fn lemma_empty_wf()
    ensures
        SchemeView::empty().wf(),
{
}

/// Creating an endpoint under a fresh id keeps the registry sound.
pub proof fn lemma_create_wf(pre: SchemeView, id: usize, name: Seq<u8>, role: Role, len: nat)
    requires
        pre.wf(),
        !pre.live(id),
    ensures
        pre.create(id, name, role, len).wf(),
{
    let post = pre.create(id, name, role, len);
    assert(post.classes_apart());
    assert(post.endpoints_sound()) by {
        assert forall|e: usize| #[trigger] post.endpoints.contains_key(e) implies {
            &&& ascending(post.endpoints[e].connections)
            &&& forall|i: int|
                0 <= i < post.endpoints[e].connections.len() ==> {
                    let c = #[trigger] post.endpoints[e].connections[i];
                    post.connections.contains_key(c) && post.connections[c].target == e
                }
        } by {
            if e != id {
                assert(pre.endpoints.contains_key(e));
            }
        }
    }
    assert(post.connections_sound()) by {
        assert forall|c: usize| #[trigger] post.connections.contains_key(c) implies {
            let t = post.connections[c].target;
            &&& post.endpoints.contains_key(t)
            &&& post.endpoints[t].connections.contains(c)
            &&& post.connections[c].shadow.is_some() == (post.endpoints[t].role == Role::Sink)
            &&& post.connections[c].shadow.is_some() ==> post.connections[c].shadow.unwrap().len()
                == post.endpoints[t].buffer.len()
        } by {
            assert(pre.connections.contains_key(c));
            assert(pre.endpoints.contains_key(pre.connections[c].target));
        }
    }
    assert(post.names_sound()) by {
        assert forall|n: Seq<u8>| #[trigger]
            post.names.contains_key(n) implies post.endpoints.contains_key(post.names[n])
            && post.endpoints[post.names[n]].name == n by {
            if n != name {
                assert(pre.names.contains_key(n));
                assert(pre.endpoints.contains_key(pre.names[n]));
            }
        }
    }
}

/// Attaching a connection under a fresh id keeps the registry sound, and
/// the endpoint lists the new connection.
pub proof fn lemma_attach_wf(pre: SchemeView, id: usize, target: usize)
    requires
        pre.wf(),
        !pre.live(id),
        pre.endpoints.contains_key(target),
    ensures
        pre.attach(id, target).wf(),
        pre.attach(id, target).endpoints[target].connections.contains(id),
        pre.attach(id, target).connections.contains_key(id),
{
    let post = pre.attach(id, target);
    let before = pre.endpoints[target].connections;
    lemma_with_id(before, id);
    assert(post.classes_apart()) by {
        assert forall|x: usize|
            !(#[trigger] post.endpoints.contains_key(x) && post.connections.contains_key(x)) by {
            if x != id && x != target {
                assert(!(pre.endpoints.contains_key(x) && pre.connections.contains_key(x)));
            }
            if x == target {
                assert(!(pre.endpoints.contains_key(x) && pre.connections.contains_key(x)));
            }
        }
    }
    assert(post.endpoints_sound()) by {
        assert forall|e: usize| #[trigger] post.endpoints.contains_key(e) implies {
            &&& ascending(post.endpoints[e].connections)
            &&& forall|i: int|
                0 <= i < post.endpoints[e].connections.len() ==> {
                    let c = #[trigger] post.endpoints[e].connections[i];
                    post.connections.contains_key(c) && post.connections[c].target == e
                }
        } by {
            assert(pre.endpoints.contains_key(e));
            let listed = post.endpoints[e].connections;
            assert forall|i: int| 0 <= i < listed.len() implies {
                let c = #[trigger] listed[i];
                post.connections.contains_key(c) && post.connections[c].target == e
            } by {
                let c = listed[i];
                if e == target {
                    assert(listed.contains(c));
                    if c != id {
                        assert(before.contains(c));
                        let k = choose|k: int| 0 <= k < before.len() && before[k] == c;
                        assert(pre.connections.contains_key(before[k]));
                    }
                } else {
                    assert(pre.connections.contains_key(pre.endpoints[e].connections[i]));
                }
            }
        }
    }
    assert(post.connections_sound()) by {
        assert forall|c: usize| #[trigger] post.connections.contains_key(c) implies {
            let t = post.connections[c].target;
            &&& post.endpoints.contains_key(t)
            &&& post.endpoints[t].connections.contains(c)
            &&& post.connections[c].shadow.is_some() == (post.endpoints[t].role == Role::Sink)
            &&& post.connections[c].shadow.is_some() ==> post.connections[c].shadow.unwrap().len()
                == post.endpoints[t].buffer.len()
        } by {
            if c != id {
                assert(pre.connections.contains_key(c));
                let t = pre.connections[c].target;
                assert(pre.endpoints.contains_key(t));
                assert(pre.endpoints[t].connections.contains(c));
            }
        }
    }
    assert(post.names_sound()) by {
        assert forall|n: Seq<u8>| #[trigger]
            post.names.contains_key(n) implies post.endpoints.contains_key(post.names[n])
            && post.endpoints[post.names[n]].name == n by {
            assert(pre.names.contains_key(n));
            assert(pre.endpoints.contains_key(pre.names[n]));
        }
    }
}

/// A sync keeps the registry sound, and the length of every buffer.
pub proof fn lemma_sync_wf(pre: SchemeView, id: usize)
    requires
        pre.wf(),
        pre.endpoints.contains_key(id),
    ensures
        pre.sync(id).wf(),
        pre.sync(id).endpoints[id].buffer.len() == pre.endpoints[id].buffer.len(),
{
    let post = pre.sync(id);
    lemma_mixdown_len(pre.shadows(id), pre.endpoints[id].buffer.len());
    assert(post.classes_apart()) by {
        assert forall|x: usize|
            !(#[trigger] post.endpoints.contains_key(x) && post.connections.contains_key(x)) by {
            assert(!(pre.endpoints.contains_key(x) && pre.connections.contains_key(x)));
        }
    }
    assert(post.endpoints_sound()) by {
        assert forall|e: usize| #[trigger] post.endpoints.contains_key(e) implies {
            &&& ascending(post.endpoints[e].connections)
            &&& forall|i: int|
                0 <= i < post.endpoints[e].connections.len() ==> {
                    let c = #[trigger] post.endpoints[e].connections[i];
                    post.connections.contains_key(c) && post.connections[c].target == e
                }
        } by {
            assert(pre.endpoints.contains_key(e));
            assert(post.endpoints[e].connections == pre.endpoints[e].connections);
        }
    }
    assert(post.connections_sound()) by {
        assert forall|c: usize| #[trigger] post.connections.contains_key(c) implies {
            let t = post.connections[c].target;
            &&& post.endpoints.contains_key(t)
            &&& post.endpoints[t].connections.contains(c)
            &&& post.connections[c].shadow.is_some() == (post.endpoints[t].role == Role::Sink)
            &&& post.connections[c].shadow.is_some() ==> post.connections[c].shadow.unwrap().len()
                == post.endpoints[t].buffer.len()
        } by {
            assert(pre.connections.contains_key(c));
            assert(pre.endpoints.contains_key(pre.connections[c].target));
        }
    }
    assert(post.names_sound()) by {
        assert forall|n: Seq<u8>| #[trigger]
            post.names.contains_key(n) implies post.endpoints.contains_key(post.names[n])
            && post.endpoints[post.names[n]].name == n by {
            assert(pre.names.contains_key(n));
            assert(pre.endpoints.contains_key(pre.names[n]));
        }
    }
}

/// Closing an endpoint keeps the registry sound.
pub proof fn lemma_close_endpoint_wf(pre: SchemeView, id: usize)
    requires
        pre.wf(),
        pre.endpoints.contains_key(id),
    ensures
        pre.close_endpoint(id).wf(),
{
    let post = pre.close_endpoint(id);
    let gone = pre.endpoints[id].connections;
    assert(post.classes_apart()) by {
        assert forall|x: usize|
            !(#[trigger] post.endpoints.contains_key(x) && post.connections.contains_key(x)) by {
            assert(!(pre.endpoints.contains_key(x) && pre.connections.contains_key(x)));
        }
    }
    assert(post.endpoints_sound()) by {
        assert forall|e: usize| #[trigger] post.endpoints.contains_key(e) implies {
            &&& ascending(post.endpoints[e].connections)
            &&& forall|i: int|
                0 <= i < post.endpoints[e].connections.len() ==> {
                    let c = #[trigger] post.endpoints[e].connections[i];
                    post.connections.contains_key(c) && post.connections[c].target == e
                }
        } by {
            assert(pre.endpoints.contains_key(e));
            let listed = post.endpoints[e].connections;
            assert forall|i: int| 0 <= i < listed.len() implies {
                let c = #[trigger] listed[i];
                post.connections.contains_key(c) && post.connections[c].target == e
            } by {
                let c = listed[i];
                assert(pre.connections.contains_key(pre.endpoints[e].connections[i]));
                if gone.contains(c) {
                    let k = choose|k: int| 0 <= k < gone.len() && gone[k] == c;
                    assert(pre.connections[gone[k]].target == id);
                }
            }
        }
    }
    assert(post.connections_sound()) by {
        assert forall|c: usize| #[trigger] post.connections.contains_key(c) implies {
            let t = post.connections[c].target;
            &&& post.endpoints.contains_key(t)
            &&& post.endpoints[t].connections.contains(c)
            &&& post.connections[c].shadow.is_some() == (post.endpoints[t].role == Role::Sink)
            &&& post.connections[c].shadow.is_some() ==> post.connections[c].shadow.unwrap().len()
                == post.endpoints[t].buffer.len()
        } by {
            assert(pre.connections.contains_key(c));
            let t = pre.connections[c].target;
            assert(pre.endpoints.contains_key(t));
            assert(pre.endpoints[t].connections.contains(c));
            assert(!gone.to_set().contains(c));
        }
    }
    assert(post.names_sound()) by {
        assert forall|n: Seq<u8>| #[trigger]
            post.names.contains_key(n) implies post.endpoints.contains_key(post.names[n])
            && post.endpoints[post.names[n]].name == n by {
            assert(pre.names.contains_key(n));
            assert(pre.endpoints.contains_key(pre.names[n]));
        }
    }
}

/// Closing a connection keeps the registry sound.
pub proof fn lemma_close_connection_wf(pre: SchemeView, id: usize)
    requires
        pre.wf(),
        pre.connections.contains_key(id),
    ensures
        pre.close_connection(id).wf(),
{
    let post = pre.close_connection(id);
    let target = pre.connections[id].target;
    let before = pre.endpoints[target].connections;
    assert(pre.endpoints.contains_key(target));
    lemma_without_id(before, id);
    assert(post.classes_apart()) by {
        assert forall|x: usize|
            !(#[trigger] post.endpoints.contains_key(x) && post.connections.contains_key(x)) by {
            assert(!(pre.endpoints.contains_key(x) && pre.connections.contains_key(x)));
        }
    }
    assert(post.endpoints_sound()) by {
        assert forall|e: usize| #[trigger] post.endpoints.contains_key(e) implies {
            &&& ascending(post.endpoints[e].connections)
            &&& forall|i: int|
                0 <= i < post.endpoints[e].connections.len() ==> {
                    let c = #[trigger] post.endpoints[e].connections[i];
                    post.connections.contains_key(c) && post.connections[c].target == e
                }
        } by {
            assert(pre.endpoints.contains_key(e));
            let listed = post.endpoints[e].connections;
            assert forall|i: int| 0 <= i < listed.len() implies {
                let c = #[trigger] listed[i];
                post.connections.contains_key(c) && post.connections[c].target == e
            } by {
                let c = listed[i];
                if e == target {
                    assert(listed.contains(c));
                    assert(before.contains(c) && c != id);
                    let k = choose|k: int| 0 <= k < before.len() && before[k] == c;
                    assert(pre.connections.contains_key(before[k]));
                } else {
                    assert(pre.connections.contains_key(pre.endpoints[e].connections[i]));
                    assert(pre.connections[c].target == e);
                }
            }
        }
    }
    assert(post.connections_sound()) by {
        assert forall|c: usize| #[trigger] post.connections.contains_key(c) implies {
            let t = post.connections[c].target;
            &&& post.endpoints.contains_key(t)
            &&& post.endpoints[t].connections.contains(c)
            &&& post.connections[c].shadow.is_some() == (post.endpoints[t].role == Role::Sink)
            &&& post.connections[c].shadow.is_some() ==> post.connections[c].shadow.unwrap().len()
                == post.endpoints[t].buffer.len()
        } by {
            assert(pre.connections.contains_key(c));
            let t = pre.connections[c].target;
            assert(pre.endpoints.contains_key(t));
            assert(pre.endpoints[t].connections.contains(c));
        }
    }
    assert(post.names_sound()) by {
        assert forall|n: Seq<u8>| #[trigger]
            post.names.contains_key(n) implies post.endpoints.contains_key(post.names[n])
            && post.endpoints[post.names[n]].name == n by {
            assert(pre.names.contains_key(n));
            assert(pre.endpoints.contains_key(pre.names[n]));
        }
    }
}

/// Overwriting a buffer with as many samples as it has keeps the registry sound.
pub proof fn lemma_write_wf(pre: SchemeView, owner: usize, samples: Seq<i32>)
    requires
        pre.wf(),
        pre.owns_buffer(owner),
        samples.len() == pre.buffer(owner).len(),
    ensures
        pre.write(owner, samples).wf(),
{
    let post = pre.write(owner, samples);
    assert(post.classes_apart()) by {
        assert forall|x: usize|
            !(#[trigger] post.endpoints.contains_key(x) && post.connections.contains_key(x)) by {
            assert(!(pre.endpoints.contains_key(x) && pre.connections.contains_key(x)));
        }
    }
    assert(post.endpoints_sound()) by {
        assert forall|e: usize| #[trigger] post.endpoints.contains_key(e) implies {
            &&& ascending(post.endpoints[e].connections)
            &&& forall|i: int|
                0 <= i < post.endpoints[e].connections.len() ==> {
                    let c = #[trigger] post.endpoints[e].connections[i];
                    post.connections.contains_key(c) && post.connections[c].target == e
                }
        } by {
            assert(pre.endpoints.contains_key(e));
            assert(post.endpoints[e].connections == pre.endpoints[e].connections);
            let listed = post.endpoints[e].connections;
            assert forall|i: int| 0 <= i < listed.len() implies {
                let c = #[trigger] listed[i];
                post.connections.contains_key(c) && post.connections[c].target == e
            } by {
                assert(pre.connections.contains_key(pre.endpoints[e].connections[i]));
            }
        }
    }
    assert(post.connections_sound()) by {
        assert forall|c: usize| #[trigger] post.connections.contains_key(c) implies {
            let t = post.connections[c].target;
            &&& post.endpoints.contains_key(t)
            &&& post.endpoints[t].connections.contains(c)
            &&& post.connections[c].shadow.is_some() == (post.endpoints[t].role == Role::Sink)
            &&& post.connections[c].shadow.is_some() ==> post.connections[c].shadow.unwrap().len()
                == post.endpoints[t].buffer.len()
        } by {
            assert(pre.connections.contains_key(c));
            assert(pre.endpoints.contains_key(pre.connections[c].target));
            assert(pre.connections.contains_key(owner) ==> pre.endpoints.contains_key(
                pre.connections[owner].target,
            ));
        }
    }
    assert(post.names_sound()) by {
        assert forall|n: Seq<u8>| #[trigger]
            post.names.contains_key(n) implies post.endpoints.contains_key(post.names[n])
            && post.endpoints[post.names[n]].name == n by {
            assert(pre.names.contains_key(n));
            assert(pre.endpoints.contains_key(pre.names[n]));
        }
    }
}

/// A mapping at offset zero of a live id is granted exactly when its size
/// is the byte length of the buffer it reaches, which some id owns; any
/// other size is `Einval`.
pub proof fn lemma_map_exact(pre: SchemeView, id: usize, size: usize)
    requires
        pre.wf(),
        pre.live(id),
    ensures
        pre.owns_buffer(pre.owner(id)),
        size as int == SAMPLE_BYTES * pre.buffer(pre.owner(id)).len() ==> pre.map(id, 0, size)
            == Ok::<usize, SchemeError>(pre.owner(id)),
        size as int != SAMPLE_BYTES * pre.buffer(pre.owner(id)).len() ==> pre.map(id, 0, size)
            == Err::<usize, SchemeError>(SchemeError::Einval),
{
    if !pre.endpoints.contains_key(id) {
        assert(pre.connections.contains_key(id));
        assert(pre.endpoints.contains_key(pre.connections[id].target));
    }
}

/// An open call that attaches answers `Enoent` where the name leads
/// nowhere; where it leads to an endpoint, the call succeeds, and the
/// endpoint lists the new connection from then on.
pub proof fn lemma_attach_outcome(
    pre: SchemeView,
    post: SchemeView,
    path: Seq<u8>,
    flags: usize,
    r: Result<usize, SchemeError>,
    name: Seq<u8>,
)
    requires
        pre.wf(),
        request_of(path, flags) == Ok::<RequestView, SchemeError>(RequestView::Attach { name }),
        SchemeView::opened(pre, post, path, flags, r),
    ensures
        !pre.names.contains_key(name) ==> r == Err::<usize, SchemeError>(SchemeError::Enoent),
        pre.names.contains_key(name) ==> {
            &&& r matches Ok(id)
            &&& post.connections.contains_key(id)
            &&& post.connections[id].target == pre.names[name]
            &&& post.endpoints.contains_key(pre.names[name])
            &&& post.endpoints[pre.names[name]].connections.contains(id)
        },
{
    if pre.names.contains_key(name) {
        let id = r.unwrap();
        assert(pre.endpoints.contains_key(pre.names[name]));
        lemma_attach_wf(pre, id, pre.names[name]);
    }
}

/// Closing an endpoint sends one end-of-stream notification to each
/// connection that was attached to it, and no other; after it the endpoint,
/// those connections and the endpoint's name are gone, and whatever was not
/// attached to it is as before.
pub proof fn lemma_close_endpoint(pre: SchemeView, id: usize)
    requires
        pre.wf(),
        pre.endpoints.contains_key(id),
    ensures
        pre.close_notices(id).len() == pre.endpoints[id].connections.len(),
        forall|i: int|
            0 <= i < pre.endpoints[id].connections.len() ==> #[trigger] pre.close_notices(id)[i]
                == (Notification {
                readiness: Readiness::Write,
                target: pre.endpoints[id].connections[i],
                length: 0,
            }),
        !pre.close(id).live(id),
        forall|c: usize|
            pre.connections.contains_key(c) ==> (#[trigger] pre.close(id).live(c)
                <==> pre.connections[c].target != id),
        !pre.close(id).names.contains_key(pre.endpoints[id].name),
        forall|e: usize|
            e != id && pre.endpoints.contains_key(e) ==> #[trigger] pre.close(
                id,
            ).endpoints.contains_key(e) && pre.close(id).endpoints[e] == pre.endpoints[e],
        forall|c: usize|
            pre.connections.contains_key(c) && pre.connections[c].target != id
                ==> #[trigger] pre.close(id).connections.contains_key(c) && pre.close(
                id,
            ).connections[c] == pre.connections[c],
{
    let post = pre.close(id);
    let gone = pre.endpoints[id].connections;
    assert forall|c: usize| pre.connections.contains_key(c) implies (#[trigger] post.live(c)
        <==> pre.connections[c].target != id) by {
        assert(!(pre.endpoints.contains_key(c) && pre.connections.contains_key(c)));
        let t = pre.connections[c].target;
        assert(pre.endpoints.contains_key(t));
        assert(pre.endpoints[t].connections.contains(c));
        if gone.contains(c) {
            let k = choose|k: int| 0 <= k < gone.len() && gone[k] == c;
            assert(pre.connections[gone[k]].target == id);
        }
    }
    assert(!(pre.endpoints.contains_key(id) && pre.connections.contains_key(id)));
}

/// Once an endpoint is closed, an open call that attaches to its name is `Enoent`.
pub proof fn lemma_closed_name_leads_nowhere(
    pre: SchemeView,
    id: usize,
    after: SchemeView,
    path: Seq<u8>,
    flags: usize,
    r: Result<usize, SchemeError>,
)
    requires
        pre.wf(),
        pre.endpoints.contains_key(id),
        request_of(path, flags) == Ok::<RequestView, SchemeError>(
            RequestView::Attach { name: pre.endpoints[id].name },
        ),
        SchemeView::opened(pre.close(id), after, path, flags, r),
    ensures
        r == Err::<usize, SchemeError>(SchemeError::Enoent),
        after == pre.close(id),
{
}

/// Closing a connection leaves every endpoint but its own as it was, and
/// with it the next mixdown of every other sink.
pub proof fn lemma_close_connection_elsewhere(pre: SchemeView, id: usize, other: usize)
    requires
        pre.wf(),
        pre.connections.contains_key(id),
        pre.endpoints.contains_key(other),
        other != pre.connections[id].target,
    ensures
        pre.close(id).endpoints.contains_key(other),
        pre.close(id).endpoints[other] == pre.endpoints[other],
        pre.close(id).shadows(other) == pre.shadows(other),
        pre.close(id).mixdown_of(other) == pre.mixdown_of(other),
{
    let post = pre.close(id);
    assert(!(pre.endpoints.contains_key(id) && pre.connections.contains_key(id)));
    let attached = pre.endpoints[other].connections;
    assert forall|i: int| 0 <= i < attached.len() implies post.connections[attached[i]]
        == pre.connections[attached[i]] by {
        assert(pre.connections.contains_key(pre.endpoints[other].connections[i]));
        assert(pre.connections[attached[i]].target == other);
    }
    assert(post.shadows(other) =~= pre.shadows(other));
}

/// The shadow buffers of `listed` in the connections `links`, in order.
pub open spec fn shadows_of(links: Map<usize, ConnectionView>, listed: Seq<usize>) -> Seq<
    Seq<i32>,
> {
    Seq::new(listed.len(), |i: int| links[listed[i]].shadow.unwrap())
}

/// Without the connection that stands at `place`, the shadow buffers of the
/// others are what they were, in their order.
proof fn lemma_shadows_without(
    before: Map<usize, ConnectionView>,
    after: Map<usize, ConnectionView>,
    listed: Seq<usize>,
    place: int,
)
    requires
        ascending(listed),
        0 <= place < listed.len(),
        forall|c: usize| c != listed[place] ==> #[trigger] after[c] == before[c],
    ensures
        shadows_of(after, listed.remove(place)) == shadows_of(before, listed).remove(place),
{
    let left = listed.remove(place);
    let kept = shadows_of(after, left);
    let cut = shadows_of(before, listed).remove(place);
    assert(kept.len() == cut.len());
    assert forall|i: int| 0 <= i < kept.len() implies kept[i] == cut[i] by {
        if i < place {
            assert(left[i] == listed[i]);
            assert(listed[i] < listed[place]);
        } else {
            assert(left[i] == listed[i + 1]);
            assert(listed[place] < listed[i + 1]);
        }
    }
    assert(kept =~= cut);
}

/// Closing a connection leaves its endpoint with the siblings in their
/// order, each with the shadow buffer it had: the next mixdown of its sink
/// mixes what it would have mixed, without the buffer of the one that left.
pub proof fn lemma_close_connection_siblings(pre: SchemeView, id: usize)
    requires
        pre.wf(),
        pre.connections.contains_key(id),
    ensures
        pre.endpoints[pre.connections[id].target].connections.contains(id),
        pre.close(id).endpoints[pre.connections[id].target].connections
            == pre.endpoints[pre.connections[id].target].connections.remove(
            rank(pre.endpoints[pre.connections[id].target].connections, id),
        ),
        pre.close(id).shadows(pre.connections[id].target) == pre.shadows(
            pre.connections[id].target,
        ).remove(rank(pre.endpoints[pre.connections[id].target].connections, id)),
{
    let post = pre.close(id);
    let target = pre.connections[id].target;
    let listed = pre.endpoints[target].connections;
    assert(!(pre.endpoints.contains_key(id) && pre.connections.contains_key(id)));
    assert(pre.endpoints.contains_key(target));
    assert(listed.contains(id));
    assert(ascending(listed));
    lemma_rank_parts(listed, id);
    lemma_rank_finds(listed, id);
    let place = rank(listed, id);
    assert(0 <= place < listed.len() && listed[place] == id);
    assert(post.endpoints[target].connections == listed.remove(place));
    lemma_shadows_without(pre.connections, post.connections, listed, place);
    assert(post.shadows(target) == shadows_of(post.connections, listed.remove(place)));
    assert(pre.shadows(target) == shadows_of(pre.connections, listed));
}

/// Closing a connection sends nothing and takes out that connection alone:
/// every other connection, every buffer, role and name is as before.
pub proof fn lemma_close_connection(pre: SchemeView, id: usize)
    requires
        pre.wf(),
        pre.connections.contains_key(id),
    ensures
        pre.close_notices(id).len() == 0,
        !pre.close(id).live(id),
        pre.close(id).names == pre.names,
        forall|c: usize|
            c != id && pre.connections.contains_key(c) ==> #[trigger] pre.close(
                id,
            ).connections.contains_key(c) && pre.close(id).connections[c] == pre.connections[c],
        forall|e: usize|
            pre.endpoints.contains_key(e) ==> {
                &&& #[trigger] pre.close(id).endpoints.contains_key(e)
                &&& pre.close(id).endpoints[e].buffer == pre.endpoints[e].buffer
                &&& pre.close(id).endpoints[e].name == pre.endpoints[e].name
                &&& pre.close(id).endpoints[e].role == pre.endpoints[e].role
            },
{
    assert(!(pre.endpoints.contains_key(id) && pre.connections.contains_key(id)));
    assert(pre.endpoints.contains_key(pre.connections[id].target));
}

/// Closing a connection whose shadow buffer contributes nothing, as that of
/// a connection which was never written to, leaves the next mixdown of its
/// own sink as it would have been.
pub proof fn lemma_close_silent_connection(pre: SchemeView, id: usize)
    requires
        pre.wf(),
        pre.connections.contains_key(id),
        pre.connections[id].shadow.is_some(),
        contributes_nothing(pre.connections[id].shadow.unwrap()),
    ensures
        pre.close(id).mixdown_of(pre.connections[id].target) == pre.mixdown_of(
            pre.connections[id].target,
        ),
{
    let target = pre.connections[id].target;
    let listed = pre.endpoints[target].connections;
    assert(pre.endpoints.contains_key(target));
    lemma_close_connection_siblings(pre, id);
    lemma_close_connection(pre, id);
    lemma_rank_parts(listed, id);
    lemma_rank_finds(listed, id);
    let place = rank(listed, id);
    assert(pre.shadows(target)[place] == pre.connections[listed[place]].shadow.unwrap());
    lemma_mixdown_without_silent(
        pre.shadows(target),
        place,
        pre.endpoints[target].buffer.len(),
    );
}

/// Whether every buffer that is owned both in `pre` and in `post` has the
/// length in `post` that it has in `pre`.
pub open spec fn lengths_kept(pre: SchemeView, post: SchemeView) -> bool {
    forall|owner: usize|
        pre.owns_buffer(owner) && post.owns_buffer(owner) ==> #[trigger] post.buffer(owner).len()
            == pre.buffer(owner).len()
}

/// The length of a buffer is fixed when it is made: creating, attaching,
/// syncing and closing leave every buffer that stays with its length.
pub proof fn lemma_lengths_fixed(
    pre: SchemeView,
    id: usize,
    name: Seq<u8>,
    role: Role,
    len: nat,
    target: usize,
)
    requires
        pre.wf(),
    ensures
        !pre.live(id) ==> lengths_kept(pre, pre.create(id, name, role, len)),
        !pre.live(id) && pre.endpoints.contains_key(target) ==> lengths_kept(
            pre,
            pre.attach(id, target),
        ),
        pre.endpoints.contains_key(id) ==> lengths_kept(pre, pre.sync(id)),
        pre.live(id) ==> lengths_kept(pre, pre.close(id)),
{
    assert(!(pre.endpoints.contains_key(id) && pre.connections.contains_key(id)));
    if !pre.live(id) {
        let post = pre.create(id, name, role, len);
        assert forall|owner: usize|
            pre.owns_buffer(owner) && post.owns_buffer(owner) implies #[trigger] post.buffer(
            owner,
        ).len() == pre.buffer(owner).len() by {}
        if pre.endpoints.contains_key(target) {
            let post = pre.attach(id, target);
            assert forall|owner: usize|
                pre.owns_buffer(owner) && post.owns_buffer(owner) implies #[trigger] post.buffer(
                owner,
            ).len() == pre.buffer(owner).len() by {
                assert(!(pre.endpoints.contains_key(owner) && pre.connections.contains_key(owner)));
            }
        }
    }
    if pre.endpoints.contains_key(id) {
        let post = pre.sync(id);
        lemma_sync_wf(pre, id);
        assert forall|owner: usize|
            pre.owns_buffer(owner) && post.owns_buffer(owner) implies #[trigger] post.buffer(
            owner,
        ).len() == pre.buffer(owner).len() by {}
    }
    if pre.live(id) {
        let post = pre.close(id);
        assert forall|owner: usize|
            pre.owns_buffer(owner) && post.owns_buffer(owner) implies #[trigger] post.buffer(
            owner,
        ).len() == pre.buffer(owner).len() by {
            assert(!(pre.endpoints.contains_key(owner) && pre.connections.contains_key(owner)));
            if pre.connections.contains_key(id) {
                assert(pre.endpoints.contains_key(pre.connections[id].target));
            }
        }
    }
}

} // verus!
