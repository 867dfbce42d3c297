//! Sets of ids in ascending order, and the allocation of fresh ids.

use vstd::prelude::*;

verus! {

/// Whether the ids of `ids` grow strictly from each one to the next.
pub open spec fn ascending(ids: Seq<usize>) -> bool {
    forall|i: int, j: int| 0 <= i < j < ids.len() ==> ids[i] < ids[j]
}

/// The number of ids of `ids` that are less than `id`.
pub open spec fn rank(ids: Seq<usize>, id: usize) -> int
    decreases ids.len(),
{
    if ids.len() == 0 {
        0
    } else {
        rank(ids.drop_last(), id) + if ids.last() < id {
            1int
        } else {
            0int
        }
    }
}

/// The ascending ids of `ids` together with `id`.
pub open spec fn with_id(ids: Seq<usize>, id: usize) -> Seq<usize> {
    if ids.contains(id) {
        ids
    } else {
        ids.insert(rank(ids, id), id)
    }
}

/// The ascending ids of `ids` but `id`.
pub open spec fn without_id(ids: Seq<usize>, id: usize) -> Seq<usize> {
    if ids.contains(id) {
        ids.remove(rank(ids, id))
    } else {
        ids
    }
}

/// In an ascending sequence the rank of `id` parts the ids below `id` from the rest.
pub proof fn lemma_rank_parts(ids: Seq<usize>, id: usize)
    requires
        ascending(ids),
    ensures
        0 <= rank(ids, id) <= ids.len(),
        forall|j: int| 0 <= j < rank(ids, id) ==> ids[j] < id,
        forall|j: int| rank(ids, id) <= j < ids.len() ==> ids[j] >= id,
    decreases ids.len(),
{
    if ids.len() > 0 {
        let front = ids.drop_last();
        lemma_rank_parts(front, id);
        if ids.last() < id {
            if rank(front, id) < front.len() {
                assert(front[rank(front, id)] >= id);
                assert(ids[rank(front, id)] < ids[ids.len() - 1]);
            }
        }
        assert forall|j: int| 0 <= j < rank(ids, id) implies ids[j] < id by {
            if j < front.len() {
                assert(ids[j] == front[j]);
            }
        }
        assert forall|j: int| rank(ids, id) <= j < ids.len() implies ids[j] >= id by {
            if j < front.len() {
                assert(ids[j] == front[j]);
            }
        }
    }
}

/// A place that parts the ids below `id` from the rest is the rank of `id`.
pub proof fn lemma_rank_is(ids: Seq<usize>, id: usize, place: int)
    requires
        0 <= place <= ids.len(),
        forall|j: int| 0 <= j < place ==> ids[j] < id,
        forall|j: int| place <= j < ids.len() ==> ids[j] >= id,
    ensures
        rank(ids, id) == place,
    decreases ids.len(),
{
    if ids.len() > 0 {
        let front = ids.drop_last();
        if place == ids.len() {
            lemma_rank_is(front, id, place - 1);
        } else {
            lemma_rank_is(front, id, place);
        }
    }
}

/// In an ascending sequence that holds `id`, `id` stands at its rank.
pub proof fn lemma_rank_finds(ids: Seq<usize>, id: usize)
    requires
        ascending(ids),
    ensures
        ids.contains(id) <==> (rank(ids, id) < ids.len() && ids[rank(ids, id)] == id),
{
    lemma_rank_parts(ids, id);
    if ids.contains(id) {
        let k = choose|k: int| 0 <= k < ids.len() && ids[k] == id;
        let r = rank(ids, id);
        assert(k >= r);
        if k > r {
            assert(ids[r] < ids[k]);
        }
    }
}

/// Adding an id keeps the order, and adds that id and no other.
pub proof fn lemma_with_id(ids: Seq<usize>, id: usize)
    requires
        ascending(ids),
    ensures
        ascending(with_id(ids, id)),
        with_id(ids, id).to_set() == ids.to_set().insert(id),
        forall|x: usize| with_id(ids, id).contains(x) <==> (x == id || ids.contains(x)),
{
    lemma_rank_parts(ids, id);
    lemma_rank_finds(ids, id);
    let r = rank(ids, id);
    let after = with_id(ids, id);
    if !ids.contains(id) {
        assert forall|i: int, j: int| 0 <= i < j < after.len() implies after[i] < after[j] by {
            if j < r {
                assert(after[i] == ids[i] && after[j] == ids[j]);
            } else if j == r {
                assert(after[i] == ids[i]);
            } else if i < r {
                assert(after[i] == ids[i] && after[j] == ids[j - 1]);
                assert(ids[j - 1] >= id);
                assert(ids[j - 1] != id);
            } else if i == r {
                assert(after[j] == ids[j - 1]);
                assert(ids[j - 1] >= id);
                assert(ids[j - 1] != id);
            } else {
                assert(after[i] == ids[i - 1] && after[j] == ids[j - 1]);
            }
        }
        assert forall|x: usize| after.contains(x) <==> (x == id || ids.contains(x)) by {
            if after.contains(x) {
                let k = choose|k: int| 0 <= k < after.len() && after[k] == x;
                if k < r {
                    assert(ids[k] == x);
                } else if k > r {
                    assert(ids[k - 1] == x);
                }
            }
            if x == id {
                assert(after[r] == x);
            } else if ids.contains(x) {
                let k = choose|k: int| 0 <= k < ids.len() && ids[k] == x;
                if k < r {
                    assert(after[k] == x);
                } else {
                    assert(after[k + 1] == x);
                }
            }
        }
    }
    assert(after.to_set() =~= ids.to_set().insert(id));
}

/// Taking an id out keeps the order, and takes out that id and no other.
pub proof fn lemma_without_id(ids: Seq<usize>, id: usize)
    requires
        ascending(ids),
    ensures
        ascending(without_id(ids, id)),
        without_id(ids, id).to_set() == ids.to_set().remove(id),
        forall|x: usize| without_id(ids, id).contains(x) <==> (x != id && ids.contains(x)),
{
    lemma_rank_parts(ids, id);
    lemma_rank_finds(ids, id);
    let r = rank(ids, id);
    let after = without_id(ids, id);
    if ids.contains(id) {
        assert forall|i: int, j: int| 0 <= i < j < after.len() implies after[i] < after[j] by {
            let oi = if i < r { i } else { i + 1 };
            let oj = if j < r { j } else { j + 1 };
            assert(after[i] == ids[oi] && after[j] == ids[oj]);
        }
        assert forall|x: usize| after.contains(x) <==> (x != id && ids.contains(x)) by {
            if after.contains(x) {
                let k = choose|k: int| 0 <= k < after.len() && after[k] == x;
                let ok = if k < r { k } else { k + 1 };
                assert(ids[ok] == x);
                if ok < r {
                    assert(ids[ok] < ids[r]);
                } else {
                    assert(ids[r] < ids[ok]);
                }
            }
            if x != id && ids.contains(x) {
                let k = choose|k: int| 0 <= k < ids.len() && ids[k] == x;
                if k < r {
                    assert(after[k] == x);
                } else {
                    assert(after[k - 1] == x);
                }
            }
        }
    }
    assert(after.to_set() =~= ids.to_set().remove(id));
}

/// A set of ids, kept in ascending order.
pub struct IdSet {
    ids: Vec<usize>,
}

impl View for IdSet {
    type V = Seq<usize>;

    closed spec fn view(&self) -> Seq<usize> {
        self.ids@
    }
}

impl IdSet {
    /// The ids stand in ascending order, so none stands twice.
    pub open spec fn wf(&self) -> bool {
        ascending(self@)
    }

    /// The empty set.
    pub fn new() -> (set: Self)
        ensures
            set@ == Seq::<usize>::empty(),
            set.wf(),
    {
        IdSet { ids: Vec::new() }
    }

    /// The number of ids.
    pub fn len(&self) -> (n: usize)
        ensures
            n == self@.len(),
    {
        self.ids.len()
    }

    /// The ids in ascending order.
    pub fn as_slice(&self) -> (ids: &[usize])
        ensures
            ids@ == self@,
    {
        self.ids.as_slice()
    }

    /// The number of ids below `id`: the place where `id` stands or would stand.
    pub fn place(&self, id: usize) -> (place: usize)
        requires
            self.wf(),
        ensures
            place == rank(self@, id),
            place <= self@.len(),
    {
        let mut low: usize = 0;
        let mut high: usize = self.ids.len();
        while low < high
            invariant
                low <= high <= self.ids@.len(),
                forall|j: int| 0 <= j < low ==> self.ids@[j] < id,
                forall|j: int| high <= j < self.ids@.len() ==> self.ids@[j] >= id,
                ascending(self.ids@),
            decreases high - low,
        {
            let middle = low + (high - low) / 2;
            if self.ids[middle] < id {
                assert forall|j: int| 0 <= j < middle + 1 implies self.ids@[j] < id by {
                    if j < middle {
                        assert(self.ids@[j] < self.ids@[middle as int]);
                    }
                }
                low = middle + 1;
            } else {
                assert forall|j: int| middle <= j < self.ids@.len() implies self.ids@[j] >= id by {
                    if j > middle {
                        assert(self.ids@[middle as int] < self.ids@[j]);
                    }
                }
                high = middle;
            }
        }
        proof {
            lemma_rank_is(self@, id, low as int);
        }
        low
    }

    /// Whether `id` is in the set.
    pub fn contains(&self, id: usize) -> (found: bool)
        requires
            self.wf(),
        ensures
            found == self@.contains(id),
    {
        let place = self.place(id);
        proof {
            lemma_rank_finds(self@, id);
        }
        place < self.ids.len() && self.ids[place] == id
    }

    /// Puts `id` into the set, and says whether it was new.
    pub fn insert(&mut self, id: usize) -> (fresh: bool)
        requires
            old(self).wf(),
        ensures
            final(self).wf(),
            fresh == !old(self)@.contains(id),
            final(self)@ == with_id(old(self)@, id),
            forall|x: usize| final(self)@.contains(x) <==> (x == id || old(self)@.contains(x)),
    {
        let place = self.place(id);
        proof {
            lemma_rank_finds(self@, id);
            lemma_with_id(self@, id);
        }
        if place < self.ids.len() && self.ids[place] == id {
            false
        } else {
            self.ids.insert(place, id);
            true
        }
    }

    /// Takes `id` out of the set, and says whether it was there.
    pub fn remove(&mut self, id: usize) -> (found: bool)
        requires
            old(self).wf(),
        ensures
            final(self).wf(),
            found == old(self)@.contains(id),
            final(self)@ == without_id(old(self)@, id),
            forall|x: usize| final(self)@.contains(x) <==> (x != id && old(self)@.contains(x)),
    {
        let place = self.place(id);
        proof {
            lemma_rank_finds(self@, id);
            lemma_without_id(self@, id);
        }
        if place < self.ids.len() && self.ids[place] == id {
            self.ids.remove(place);
            true
        } else {
            false
        }
    }

    /// The least id that is not in the set.
    pub fn first_free(&self) -> (id: usize)
        requires
            self.wf(),
        ensures
            !self@.contains(id),
            forall|below: usize| below < id ==> self@.contains(below),
    {
        let n = self.ids.len();
        let mut i: usize = 0;
        while i < n && self.ids[i] == i
            invariant
                i <= n,
                n == self.ids@.len(),
                forall|j: int| 0 <= j < i ==> self.ids@[j] == j,
            decreases n - i,
        {
            i += 1;
        }
        proof {
            assert forall|below: usize| below < i implies self@.contains(below) by {
                assert(self@[below as int] == below);
            }
            if self@.contains(i) {
                let k = choose|k: int| 0 <= k < self@.len() && self@[k] == i;
                if k < i {
                    assert(self@[k] == k);
                } else if k == i {
                } else {
                    lemma_at_least_index(self@, i as int);
                    assert(self@[i as int] < self@[k]);
                }
            }
        }
        i
    }
}

/// An ascending sequence holds at each place an id no less than the place.
pub proof fn lemma_at_least_index(ids: Seq<usize>, place: int)
    requires
        ascending(ids),
        0 <= place < ids.len(),
    ensures
        ids[place] >= place,
    decreases place,
{
    if place > 0 {
        lemma_at_least_index(ids, place - 1);
        assert(ids[place - 1] < ids[place]);
    }
}

/// A candidate id from the thread's random generator.
///
/// Calls `rand::random` for a `usize`. Nothing is claimed of the value: each
/// call may answer anything in the range of `usize`.
#[verifier::external_body]
fn random_id() -> usize {
    rand::random::<usize>()
}

/// Allocates an id that is not in `used`, and marks it as used.
///
/// Candidates are drawn at random from the whole range of `usize` until one
/// is free. Were `usize::MAX` candidates in a row taken, the least free id is
/// handed out, so that the call returns whatever is drawn.
pub fn gen_file_id(used: &mut IdSet) -> (id: usize)
    requires
        old(used).wf(),
    ensures
        final(used).wf(),
        !old(used)@.contains(id),
        final(used)@ == with_id(old(used)@, id),
        forall|x: usize| final(used)@.contains(x) <==> (x == id || old(used)@.contains(x)),
{
    let mut attempts: usize = usize::MAX;
    while attempts > 0
        invariant
            used.wf(),
            used@ == old(used)@,
        decreases attempts,
    {
        let candidate = random_id();
        if used.insert(candidate) {
            return candidate;
        }
        attempts -= 1;
    }
    let id = used.first_free();
    used.insert(id);
    id
}

/// Whether `ids` can be what successive allocations answer, the first of
/// them made while the ids of `used` are live and none released in between.
pub open spec fn allocated_in_turn(used: Set<usize>, ids: Seq<usize>) -> bool
    decreases ids.len(),
{
    ids.len() == 0 || (!used.contains(ids[0]) && allocated_in_turn(
        used.insert(ids[0]),
        ids.skip(1),
    ))
}

/// However many ids are allocated in turn, no two of them are the same, and
/// none is an id that was live before.
pub proof fn lemma_allocations_distinct(used: Set<usize>, ids: Seq<usize>)
    requires
        allocated_in_turn(used, ids),
    ensures
        forall|i: int| 0 <= i < ids.len() ==> !used.contains(#[trigger] ids[i]),
        forall|i: int, j: int| 0 <= i < j < ids.len() ==> ids[i] != ids[j],
    decreases ids.len(),
{
    if ids.len() > 0 {
        let rest = ids.skip(1);
        lemma_allocations_distinct(used.insert(ids[0]), rest);
        assert forall|i: int| 0 <= i < ids.len() implies !used.contains(#[trigger] ids[i]) by {
            if i > 0 {
                assert(rest[i - 1] == ids[i]);
            }
        }
        assert forall|i: int, j: int| 0 <= i < j < ids.len() implies ids[i] != ids[j] by {
            assert(rest[j - 1] == ids[j]);
            if i > 0 {
                assert(rest[i - 1] == ids[i]);
            }
        }
    }
}

} // verus!
