//! Readiness notifications, the packets that calls leave for the connections.

use vstd::prelude::*;

verus! {

/// What a readiness notification announces.
#[derive(Clone, Copy, Debug, PartialEq, Eq, Structural)]
pub enum Readiness {
    /// Fresh data stands in a buffer, ready to be read.
    Read,
    /// A buffer was refreshed; with a payload length of zero, the stream ended.
    Write,
}

/// A point-to-point packet for one connection.
#[derive(Clone, Copy, Debug, PartialEq, Eq, Structural)]
pub struct Notification {
    /// The operation code.
    pub readiness: Readiness,
    /// The id of the connection the packet is for.
    pub target: usize,
    /// The current length of the buffer in samples; zero for end of stream.
    pub length: usize,
}

/// One notification for each id of `targets`, in the order of `targets`.
pub open spec fn notices(targets: Seq<usize>, readiness: Readiness, length: usize) -> Seq<
    Notification,
> {
    Seq::new(
        targets.len(),
        |i: int| (Notification { readiness, target: targets[i], length }),
    )
}

/// Appends to `outbox` one notification for each id of `targets`, in order.
pub fn notify_all(
    outbox: &mut Vec<Notification>,
    targets: &[usize],
    readiness: Readiness,
    length: usize,
)
    ensures
        final(outbox)@ == old(outbox)@ + notices(targets@, readiness, length),
{
    let mut i: usize = 0;
    while i < targets.len()
        invariant
            i <= targets.len(),
            outbox@ == old(outbox)@ + notices(targets@.take(i as int), readiness, length),
        decreases targets.len() - i,
    {
        outbox.push(Notification { readiness, target: targets[i], length });
        i += 1;
        assert(outbox@ =~= old(outbox)@ + notices(targets@.take(i as int), readiness, length));
    }
    assert(targets@.take(i as int) =~= targets@);
}

} // verus!
