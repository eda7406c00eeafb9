//! The partitioned queue and its strategy-driven dequeue.
//!
//! A pipeline owns one FIFO buffer per partition key. The key set is fixed
//! at construction; the partitions are kept in a deterministic order,
//! lexicographic by the UTF-8 bytes of the key. A selection strategy picks
//! which partition's front item leaves next.

use std::collections::VecDeque;
use vstd::prelude::*;
use vstd::utf8::encode_utf8;

use crate::codec::encode_item;
use crate::codec::frame_bytes;
use crate::error::Error;

verus! {

broadcast use vstd::std_specs::vecdeque::group_vec_dequeue_axioms;

/// One buffered item: an order value and an opaque payload.
///
/// The payload is the JSON text of a structured value, held as bytes. The
/// core never inspects it; it passes through between the decode and encode
/// boundaries unchanged.
pub struct PipelineItem {
    pub order: usize,
    pub payload: Vec<u8>,
}

/// A FIFO buffer of items for one named partition.
pub struct PartitionState {
    pub partition_id: String,
    pub buffer: VecDeque<PipelineItem>,
}

/// The algorithm that picks which partition's front item leaves next.
#[derive(Clone, Copy, Debug, PartialEq, Eq, Structural)]
pub enum ReadStrategy {
    /// Pop from the partition at the cursor, advancing the cursor by one on
    /// every call; an empty partition at the cursor yields nothing even if
    /// other partitions hold items.
    RoundRobin { next: usize },
    /// Pop the front item with the strictly smallest order value over all
    /// non-empty partitions; ties go to the earliest partition.
    Ordered,
}

// ---------------------------------------------------------------------------
// Lexicographic order on byte sequences, the order of the partition ids.
// ---------------------------------------------------------------------------

/// Strict lexicographic order on byte sequences.
pub open spec fn lex_lt(a: Seq<u8>, b: Seq<u8>) -> bool
    decreases a.len(),
{
    if b.len() == 0 {
        false
    } else if a.len() == 0 {
        true
    } else if a[0] != b[0] {
        a[0] < b[0]
    } else {
        lex_lt(a.drop_first(), b.drop_first())
    }
}

/// Strict order on partition ids: lexicographic on their UTF-8 bytes.
pub open spec fn id_lt(a: Seq<char>, b: Seq<char>) -> bool {
    lex_lt(encode_utf8(a), encode_utf8(b))
}

proof fn lemma_lex_lt_skip(a: Seq<u8>, b: Seq<u8>, i: int)
    requires
        0 <= i <= a.len(),
        i <= b.len(),
        forall|k: int| 0 <= k < i ==> a[k] == b[k],
    ensures
        lex_lt(a, b) == lex_lt(a.skip(i), b.skip(i)),
    decreases i,
{
    if i > 0 {
        assert(a.drop_first().skip(i - 1) =~= a.skip(i));
        assert(b.drop_first().skip(i - 1) =~= b.skip(i));
        lemma_lex_lt_skip(a.drop_first(), b.drop_first(), i - 1);
    } else {
        assert(a.skip(0) =~= a);
        assert(b.skip(0) =~= b);
    }
}

proof fn lemma_lex_lt_trans(a: Seq<u8>, b: Seq<u8>, c: Seq<u8>)
    requires
        lex_lt(a, b),
        lex_lt(b, c),
    ensures
        lex_lt(a, c),
    decreases a.len() + b.len() + c.len(),
{
    if a.len() > 0 && b.len() > 0 && c.len() > 0 && a[0] == b[0] && b[0] == c[0] {
        lemma_lex_lt_trans(a.drop_first(), b.drop_first(), c.drop_first());
    }
}

proof fn lemma_lex_lt_connected(a: Seq<u8>, b: Seq<u8>)
    requires
        a != b,
    ensures
        lex_lt(a, b) || lex_lt(b, a),
    decreases a.len(),
{
    if a.len() == 0 && b.len() == 0 {
        assert(a =~= b);
    } else if a.len() > 0 && b.len() > 0 && a[0] == b[0] {
        if a.drop_first() == b.drop_first() {
            assert(a.drop_first().len() == a.len() - 1);
            assert(b.drop_first().len() == b.len() - 1);
            assert forall|i: int| 0 <= i < a.len() implies a[i] == b[i] by {
                if i > 0 {
                    assert(a[i] == a.drop_first()[i - 1]);
                    assert(b[i] == b.drop_first()[i - 1]);
                }
            }
            assert(a =~= b);
        }
        lemma_lex_lt_connected(a.drop_first(), b.drop_first());
    }
}

proof fn lemma_lex_lt_irrefl(a: Seq<u8>)
    ensures
        !lex_lt(a, a),
    decreases a.len(),
{
    if a.len() > 0 {
        lemma_lex_lt_irrefl(a.drop_first());
    }
}

/// Equal byte encodings come from equal id strings.
proof fn lemma_encode_injective(a: Seq<char>, b: Seq<char>)
    requires
        encode_utf8(a) == encode_utf8(b),
    ensures
        a == b,
{
    vstd::utf8::encode_utf8_decode_utf8(a);
    vstd::utf8::encode_utf8_decode_utf8(b);
}

/// Compares two byte slices for equality.
fn bytes_eq(x: &[u8], y: &[u8]) -> (r: bool)
    ensures
        r == (x@ == y@),
{
    if x.len() != y.len() {
        return false;
    }
    let mut i: usize = 0;
    while i < x.len()
        invariant
            x@.len() == y@.len(),
            i <= x@.len(),
            forall|k: int| 0 <= k < i ==> x@[k] == y@[k],
        decreases x@.len() - i,
    {
        if x[i] != y[i] {
            return false;
        }
        i += 1;
    }
    assert(x@ =~= y@);
    true
}

/// Compares two byte slices lexicographically.
fn bytes_lt(x: &[u8], y: &[u8]) -> (r: bool)
    ensures
        r == lex_lt(x@, y@),
{
    let mut i: usize = 0;
    loop
        invariant
            i <= x@.len(),
            i <= y@.len(),
            forall|k: int| 0 <= k < i ==> x@[k] == y@[k],
        decreases x@.len() - i,
    {
        proof {
            lemma_lex_lt_skip(x@, y@, i as int);
        }
        if i >= y.len() {
            assert(y@.skip(i as int).len() == 0);
            return false;
        }
        if i >= x.len() {
            assert(x@.skip(i as int).len() == 0);
            return true;
        }
        assert(x@.skip(i as int)[0] == x@[i as int]);
        assert(y@.skip(i as int)[0] == y@[i as int]);
        let xi = x[i];
        let yi = y[i];
        if xi < yi {
            return true;
        }
        if xi > yi {
            return false;
        }
        i += 1;
    }
}

// ---------------------------------------------------------------------------
// The selection transition, as a specification.
// ---------------------------------------------------------------------------

/// Whether a partition has a front item to offer.
pub open spec fn has_front(p: PartitionState) -> bool {
    p.buffer@.len() > 0
}

/// The order value of a partition's front item.
pub open spec fn front_order(p: PartitionState) -> usize
    recommends
        has_front(p),
{
    p.buffer@[0].order
}

/// Whether any partition holds an item.
pub open spec fn some_nonempty(parts: Seq<PartitionState>) -> bool {
    exists|k: int| 0 <= k < parts.len() && has_front(#[trigger] parts[k])
}

/// Whether `j` is the partition the Ordered strategy picks: the earliest
/// non-empty partition whose front item has the smallest order value.
pub open spec fn is_ordered_pick(parts: Seq<PartitionState>, j: int) -> bool {
    &&& 0 <= j < parts.len()
    &&& has_front(parts[j])
    &&& forall|k: int|
        0 <= k < parts.len() && has_front(#[trigger] parts[k]) ==> front_order(parts[j])
            <= front_order(parts[k])
    &&& forall|k: int|
        0 <= k < j && has_front(#[trigger] parts[k]) ==> front_order(parts[k]) > front_order(
            parts[j],
        )
}

/// Whether `post` is `pre` with the front item of partition `j` removed and
/// everything else untouched.
pub open spec fn popped_at(pre: Seq<PartitionState>, post: Seq<PartitionState>, j: int) -> bool {
    &&& 0 <= j < pre.len()
    &&& post.len() == pre.len()
    &&& forall|k: int| 0 <= k < pre.len() && k != j ==> post[k] == #[trigger] pre[k]
    &&& post[j].partition_id == pre[j].partition_id
    &&& pre[j].buffer@.len() > 0
    &&& post[j].buffer@ == pre[j].buffer@.drop_first()
}

/// The full effect of one selection call: how the strategy state and the
/// partitions change, and what comes back.
pub open spec fn select_transition(
    s0: ReadStrategy,
    p0: Seq<PartitionState>,
    s1: ReadStrategy,
    p1: Seq<PartitionState>,
    r: Option<PipelineItem>,
) -> bool {
    match s0 {
        ReadStrategy::Ordered => {
            &&& s1 == s0
            &&& if some_nonempty(p0) {
                exists|j: int|
                    #[trigger] is_ordered_pick(p0, j) && popped_at(p0, p1, j) && r == Some(
                        p0[j].buffer@[0],
                    )
            } else {
                r is None && p1 == p0
            }
        },
        ReadStrategy::RoundRobin { next } => {
            if p0.len() == 0 {
                s1 == s0 && r is None && p1 == p0
            } else {
                &&& s1 == (ReadStrategy::RoundRobin {
                    next: (((next + 1) as int % (p0.len() as int)) as usize),
                })
                &&& if has_front(p0[next as int]) {
                    r == Some(p0[next as int].buffer@[0]) && popped_at(p0, p1, next as int)
                } else {
                    r is None && p1 == p0
                }
            }
        },
    }
}

/// The Ordered pick is unique: two indices that both satisfy
/// `is_ordered_pick` are the same index.
pub proof fn lemma_ordered_pick_unique(parts: Seq<PartitionState>, j1: int, j2: int)
    requires
        is_ordered_pick(parts, j1),
        is_ordered_pick(parts, j2),
    ensures
        j1 == j2,
{
    if j1 < j2 {
        assert(front_order(parts[j1]) > front_order(parts[j2]));
        assert(front_order(parts[j2]) >= front_order(parts[j1]));
    }
    if j2 < j1 {
        assert(front_order(parts[j2]) > front_order(parts[j1]));
        assert(front_order(parts[j1]) >= front_order(parts[j2]));
    }
}

/// FIFO within a partition: when exactly one partition is non-empty, an
/// Ordered selection pops that partition's oldest item and leaves the rest
/// of its buffer in order, so repeated selections drain the partition in
/// exactly the order its items were appended.
pub proof fn lemma_fifo_within_partition(
    p0: Seq<PartitionState>,
    p1: Seq<PartitionState>,
    s1: ReadStrategy,
    r: Option<PipelineItem>,
    j: int,
)
    requires
        0 <= j < p0.len(),
        has_front(p0[j]),
        forall|k: int| 0 <= k < p0.len() && k != j ==> !has_front(#[trigger] p0[k]),
        select_transition(ReadStrategy::Ordered, p0, s1, p1, r),
    ensures
        r == Some(p0[j].buffer@[0]),
        popped_at(p0, p1, j),
        s1 == ReadStrategy::Ordered,
{
    assert(some_nonempty(p0));
    let jj = choose|jj: int|
        #[trigger] is_ordered_pick(p0, jj) && popped_at(p0, p1, jj) && r == Some(p0[jj].buffer@[0]);
    assert(has_front(p0[jj]));
    assert(jj == j);
}

impl ReadStrategy {
    /// Picks, removes and returns the next item from `partitions`,
    /// following this strategy and updating its state.
    pub fn select(&mut self, partitions: &mut Vec<PartitionState>) -> (r: Option<PipelineItem>)
        requires
            (*old(self)) matches ReadStrategy::RoundRobin { next } ==> old(
                partitions,
            )@.len() == 0 || next < old(partitions)@.len(),
        ensures
            select_transition(*old(self), old(partitions)@, *final(self), final(partitions)@, r),
    {
        let ghost p0 = partitions@;
        match *self {
            ReadStrategy::RoundRobin { next } => {
                if partitions.len() == 0 {
                    return None;
                }
                let i = next;
                *self = ReadStrategy::RoundRobin { next: (i + 1) % partitions.len() };
                if partitions[i].buffer.len() == 0 {
                    return None;
                }
                let mut st = partitions.remove(i);
                let item = st.buffer.pop_front();
                partitions.insert(i, st);
                proof {
                    assert(partitions@ =~= p0.update(i as int, partitions@[i as int]));
                    assert(popped_at(p0, partitions@, i as int));
                }
                item
            },
            ReadStrategy::Ordered => {
                let n = partitions.len();
                let mut best: Option<usize> = None;
                let mut i: usize = 0;
                while i < n
                    invariant
                        n == partitions@.len(),
                        i <= n,
                        partitions@ == p0,
                        best is None ==> forall|k: int|
                            0 <= k < i ==> !has_front(#[trigger] p0[k]),
                        best matches Some(b) ==> {
                            &&& 0 <= b < i <= p0.len()
                            &&& has_front(p0[b as int])
                            &&& forall|k: int|
                                0 <= k < i && has_front(#[trigger] p0[k]) ==> front_order(
                                    p0[b as int],
                                ) <= front_order(p0[k])
                            &&& forall|k: int|
                                0 <= k < b && has_front(#[trigger] p0[k]) ==> front_order(p0[k])
                                    > front_order(p0[b as int])
                        },
                    decreases n - i,
                {
                    if partitions[i].buffer.len() > 0 {
                        match best {
                            Option::Some(b) => {
                                if partitions[i].buffer[0].order < partitions[b].buffer[0].order {
                                    best = Some(i);
                                }
                            },
                            Option::None => {
                                best = Some(i);
                            },
                        }
                    }
                    i += 1;
                }
                match best {
                    Option::None => {
                        assert(!some_nonempty(p0));
                        None
                    },
                    Option::Some(j) => {
                        assert(is_ordered_pick(p0, j as int));
                        let mut st = partitions.remove(j);
                        let item = st.buffer.pop_front();
                        partitions.insert(j, st);
                        proof {
                            assert(partitions@ =~= p0.update(j as int, partitions@[j as int]));
                            assert(popped_at(p0, partitions@, j as int));
                            assert(some_nonempty(p0));
                        }
                        item
                    },
                }
            },
        }
    }
}

// ---------------------------------------------------------------------------
// The pipeline: partition store plus strategy.
// ---------------------------------------------------------------------------

/// Whether the partitions are strictly sorted by id, which also makes the
/// ids pairwise distinct.
pub open spec fn ids_sorted(parts: Seq<PartitionState>) -> bool {
    forall|j: int, k: int|
        0 <= j < k < parts.len() ==> id_lt(
            (#[trigger] parts[j]).partition_id@,
            (#[trigger] parts[k]).partition_id@,
        )
}

/// Whether some partition in `parts` is named `idv`.
pub open spec fn contains_id(parts: Seq<PartitionState>, idv: Seq<char>) -> bool {
    exists|j: int| 0 <= j < parts.len() && (#[trigger] parts[j]).partition_id@ == idv
}

/// Whether `v` is the name of one of the first `n` strings of `ids`.
pub open spec fn in_prefix(ids: Seq<String>, n: int, v: Seq<char>) -> bool {
    exists|i0: int| 0 <= i0 < n && (#[trigger] ids[i0])@ == v
}

/// Whether every partition name of `pre` still names a partition of `post`.
pub open spec fn retains_all(pre: Seq<PartitionState>, post: Seq<PartitionState>) -> bool {
    forall|j0: int|
        0 <= j0 < pre.len() ==> #[trigger] contains_id(post, pre[j0].partition_id@)
}

/// Whether every partition of `post` is named `idv` or carries a name from
/// `pre`.
pub open spec fn adds_only(pre: Seq<PartitionState>, post: Seq<PartitionState>, idv: Seq<char>) -> bool {
    forall|j: int|
        0 <= j < post.len() ==> (post[j].partition_id@ == idv || #[trigger] contains_id(
            pre,
            post[j].partition_id@,
        ))
}

/// Whether the partition names of `parts` are exactly the names of the
/// first `n` strings of `ids`.
pub open spec fn ids_match_prefix(parts: Seq<PartitionState>, ids: Seq<String>, n: int) -> bool {
    &&& forall|j: int|
        0 <= j < parts.len() ==> #[trigger] in_prefix(ids, n, parts[j].partition_id@)
    &&& forall|i0: int| 0 <= i0 < n ==> #[trigger] contains_id(parts, ids[i0]@)
}

/// The pipeline: the partition store and the active selection strategy.
pub struct Pipeline {
    pub partitions: Vec<PartitionState>,
    pub partition_read_strategy: ReadStrategy,
}

impl Pipeline {
    /// The well-formedness every pipeline keeps: partitions strictly sorted
    /// by id, and a round-robin cursor inside the partition range.
    pub open spec fn wf(self) -> bool {
        &&& ids_sorted(self.partitions@)
        &&& self.partition_read_strategy matches ReadStrategy::RoundRobin { next }
            ==> self.partitions@.len() == 0 || next < self.partitions@.len()
    }

    /// Whether a partition with the given id exists.
    pub open spec fn has_partition(self, id: Seq<char>) -> bool {
        contains_id(self.partitions@, id)
    }

    /// Creates a pipeline with one empty partition per distinct id, ordered
    /// lexicographically by the ids' UTF-8 bytes, under the Ordered
    /// strategy. Duplicate ids collapse to one partition.
    #[verifier::rlimit(60)]
    pub fn new(partition_ids: Vec<String>) -> (r: Pipeline)
        ensures
            r.wf(),
            r.partition_read_strategy == ReadStrategy::Ordered,
            forall|j: int|
                0 <= j < r.partitions@.len() ==> (#[trigger] r.partitions@[j]).buffer@.len() == 0,
            ids_match_prefix(r.partitions@, partition_ids@, partition_ids@.len() as int),
    {
        let mut parts: Vec<PartitionState> = Vec::new();
        let n = partition_ids.len();
        let mut i: usize = 0;
        while i < n
            invariant
                n == partition_ids@.len(),
                i <= n,
                ids_sorted(parts@),
                forall|j: int| 0 <= j < parts@.len() ==> (#[trigger] parts@[j]).buffer@.len() == 0,
                ids_match_prefix(parts@, partition_ids@, i as int),
            decreases n - i,
        {
            let id = partition_ids[i].clone();
            let ghost before = parts@;
            insert_sorted(&mut parts, id);
            proof {
                assert(id@ == (partition_ids@[i as int])@);
                lemma_membership_step(before, parts@, partition_ids@, i as int, id@);
            }
            i += 1;
        }
        Pipeline { partitions: parts, partition_read_strategy: ReadStrategy::Ordered }
    }

    /// Appends `items`, in order, to the partition named `partition_id`.
    /// Fails, changing nothing, when no such partition exists; the whole
    /// batch is appended otherwise.
    pub fn enqueue_items(&mut self, partition_id: &str, items: Vec<PipelineItem>) -> (r: Result<
        (),
        Error,
    >)
        requires
            old(self).wf(),
        ensures
            final(self).wf(),
            final(self).partition_read_strategy == old(self).partition_read_strategy,
            final(self).partitions@.len() == old(self).partitions@.len(),
            forall|j: int|
                0 <= j < final(self).partitions@.len() ==> (#[trigger] final(self).partitions@[j]).partition_id == old(self).partitions@[j].partition_id,
            r is Ok <==> old(self).has_partition(partition_id@),
            match r {
                Ok(_) => forall|j: int|
                    0 <= j < final(self).partitions@.len() ==> (#[trigger] final(self).partitions@[j]).buffer@ == if old(self).partitions@[j].partition_id@
                        == partition_id@ {
                        old(self).partitions@[j].buffer@ + items@
                    } else {
                        old(self).partitions@[j].buffer@
                    },
                Err(e) => {
                    &&& e == Error::PartitionDoesNotExist
                    &&& *final(self) == *old(self)
                },
            },
    {
        let ghost pre = *self;
        let n = self.partitions.len();
        let mut k: usize = 0;
        let mut found: Option<usize> = None;
        while k < n
            invariant
                *self == pre,
                n == self.partitions@.len(),
                k <= n,
                found is None ==> forall|j: int|
                    0 <= j < k ==> (#[trigger] self.partitions@[j]).partition_id@ != partition_id@,
                found matches Some(f) ==> 0 <= f < n && self.partitions@[
                    f as int].partition_id@ == partition_id@,
            decreases n - k,
        {
            if found.is_none() {
                if bytes_eq(
                    self.partitions[k].partition_id.as_str().as_bytes(),
                    partition_id.as_bytes(),
                ) {
                    proof {
                        lemma_encode_injective(
                            self.partitions@[k as int].partition_id@,
                            partition_id@,
                        );
                    }
                    found = Some(k);
                } else {
                    proof {
                        if self.partitions@[k as int].partition_id@ == partition_id@ {
                            assert(encode_utf8(self.partitions@[k as int].partition_id@)
                                == encode_utf8(partition_id@));
                        }
                    }
                }
            }
            k += 1;
        }
        match found {
            Option::None => {
                proof {
                    if pre.has_partition(partition_id@) {
                        let j = choose|j: int|
                            0 <= j < pre.partitions@.len() && (
                            #[trigger] pre.partitions@[j]).partition_id@ == partition_id@;
                        assert(pre.partitions@[j].partition_id@ != partition_id@);
                    }
                }
                Err(Error::PartitionDoesNotExist)
            },
            Option::Some(j) => {
                proof {
                    assert(pre.partitions@[j as int].partition_id@ == partition_id@);
                    assert(pre.has_partition(partition_id@));
                }
                let mut st = self.partitions.remove(j);
                let ghost orig_id = st.partition_id;
                let ghost orig_buf = st.buffer@;
                let mut items = items;
                let ghost orig_items = items@;
                while items.len() > 0
                    invariant
                        items@.len() <= orig_items.len(),
                        st.partition_id == orig_id,
                        st.buffer@ == orig_buf + orig_items.take(
                            orig_items.len() - items@.len(),
                        ),
                        items@ == orig_items.skip(orig_items.len() - items@.len()),
                    decreases items@.len(),
                {
                    let ghost consumed = orig_items.len() - items@.len();
                    let it = items.remove(0);
                    proof {
                        assert(it == orig_items[consumed as int]);
                        assert(items@ =~= orig_items.skip(consumed as int + 1));
                        assert(orig_items.take(consumed as int + 1) =~= orig_items.take(
                            consumed as int,
                        ).push(orig_items[consumed as int]));
                    }
                    st.buffer.push_back(it);
                }
                proof {
                    assert(orig_items.take(orig_items.len() as int) =~= orig_items);
                }
                self.partitions.insert(j, st);
                proof {
                    assert(self.partitions@ =~= pre.partitions@.update(
                        j as int,
                        self.partitions@[j as int],
                    ));
                    assert forall|j2: int|
                        0 <= j2 < self.partitions@.len() implies (
                    #[trigger] self.partitions@[j2]).partition_id == pre.partitions@[
                        j2].partition_id by {
                        if j2 == j as int {
                            assert(st.partition_id == orig_id);
                        }
                    }
                    assert forall|a: int, b: int|
                        0 <= a < b < self.partitions@.len() implies id_lt(
                        (#[trigger] self.partitions@[a]).partition_id@,
                        (#[trigger] self.partitions@[b]).partition_id@,
                    ) by {
                        assert(id_lt(
                            pre.partitions@[a].partition_id@,
                            pre.partitions@[b].partition_id@,
                        ));
                    }
                    assert forall|j2: int|
                        0 <= j2 < self.partitions@.len() implies (
                    #[trigger] self.partitions@[j2]).buffer@
                        == if pre.partitions@[j2].partition_id@ == partition_id@ {
                        pre.partitions@[j2].buffer@ + orig_items
                    } else {
                        pre.partitions@[j2].buffer@
                    } by {
                        if j2 != j as int && pre.partitions@[j2].partition_id@ == partition_id@ {
                            assert(id_lt(
                                pre.partitions@[if j2 < j as int {
                                    j2
                                } else {
                                    j as int
                                }].partition_id@,
                                pre.partitions@[if j2 < j as int {
                                    j as int
                                } else {
                                    j2
                                }].partition_id@,
                            ));
                            lemma_lex_lt_irrefl(encode_utf8(partition_id@));
                        }
                    }
                }
                Ok(())
            },
        }
    }

    /// Hands out the next item under the active strategy, or nothing when
    /// the strategy finds none. An all-empty pipeline always yields
    /// nothing, without error.
    pub fn next_item(&mut self) -> (r: Option<PipelineItem>)
        requires
            old(self).wf(),
        ensures
            final(self).wf(),
            select_transition(
                old(self).partition_read_strategy,
                old(self).partitions@,
                final(self).partition_read_strategy,
                final(self).partitions@,
                r,
            ),
            !some_nonempty(old(self).partitions@) ==> r is None,
    {
        let r = self.partition_read_strategy.select(&mut self.partitions);
        proof {
            let s0 = old(self).partition_read_strategy;
            let p0 = old(self).partitions@;
            {
                match s0 {
                    ReadStrategy::Ordered => {
                        if some_nonempty(p0) {
                            let j = choose|j: int|
                                #[trigger] is_ordered_pick(p0, j) && popped_at(
                                    p0,
                                    self.partitions@,
                                    j,
                                ) && r == Some(p0[j].buffer@[0]);
                            assert forall|a: int, b: int|
                                0 <= a < b < self.partitions@.len() implies id_lt(
                                (#[trigger] self.partitions@[a]).partition_id@,
                                (#[trigger] self.partitions@[b]).partition_id@,
                            ) by {
                                assert(p0[a].partition_id == self.partitions@[a].partition_id
                                    || a == j);
                                assert(id_lt(p0[a].partition_id@, p0[b].partition_id@));
                            }
                        }
                    },
                    ReadStrategy::RoundRobin { next } => {
                        if p0.len() > 0 && has_front(p0[next as int]) {
                            assert forall|a: int, b: int|
                                0 <= a < b < self.partitions@.len() implies id_lt(
                                (#[trigger] self.partitions@[a]).partition_id@,
                                (#[trigger] self.partitions@[b]).partition_id@,
                            ) by {
                                assert(id_lt(p0[a].partition_id@, p0[b].partition_id@));
                            }
                        }
                    },
                }
            }
        }
        r
    }

    /// Hands out the next item, encoded as the bytes of one
    /// `{"order":N,"payload":P}` object, or nothing when the strategy finds
    /// none. Encoding cannot fail, so the error arm never comes back.
    pub fn next_item_raw(&mut self) -> (r: Result<Option<Vec<u8>>, Error>)
        requires
            old(self).wf(),
        ensures
            final(self).wf(),
            r is Ok,
            match r {
                Ok(opt) => match opt {
                    Some(bytes) => exists|item: PipelineItem|
                        select_transition(
                            old(self).partition_read_strategy,
                            old(self).partitions@,
                            final(self).partition_read_strategy,
                            final(self).partitions@,
                            Some(item),
                        ) && bytes@ == #[trigger] frame_bytes(item.order as nat, item.payload@),
                    None => select_transition(
                        old(self).partition_read_strategy,
                        old(self).partitions@,
                        final(self).partition_read_strategy,
                        final(self).partitions@,
                        Option::<PipelineItem>::None,
                    ),
                },
                Err(_) => false,
            },
    {
        let item = match self.next_item() {
            Option::Some(item) => item,
            Option::None => {
                return Ok(None);
            },
        };
        let bytes = encode_item(&item);
        Ok(Some(bytes))
    }
}

/// One construction step keeps the partition ids in lockstep with the
/// processed prefix of the requested ids.
proof fn lemma_membership_step(
    pre: Seq<PartitionState>,
    post: Seq<PartitionState>,
    ids: Seq<String>,
    i: int,
    idv: Seq<char>,
)
    requires
        0 <= i < ids.len(),
        idv == ids[i]@,
        ids_match_prefix(pre, ids, i),
        adds_only(pre, post, idv),
        retains_all(pre, post),
        contains_id(post, idv),
    ensures
        ids_match_prefix(post, ids, i + 1),
{
    assert forall|j: int|
        0 <= j < post.len() implies #[trigger] in_prefix(ids, i + 1, post[j].partition_id@) by {
        if post[j].partition_id@ == idv {
            assert((ids[i])@ == post[j].partition_id@);
        } else {
            assert(post[j].partition_id@ == idv || contains_id(pre, post[j].partition_id@));
            let j0 = choose|j0: int|
                0 <= j0 < pre.len() && (#[trigger] pre[j0]).partition_id@ == (
                post[j]).partition_id@;
            assert(in_prefix(ids, i, pre[j0].partition_id@));
            let i0 = choose|i0: int|
                0 <= i0 < i && (#[trigger] ids[i0])@ == (pre[j0]).partition_id@;
            assert((ids[i0])@ == post[j].partition_id@);
        }
    }
    assert forall|i0: int| 0 <= i0 < i + 1 implies #[trigger] contains_id(post, ids[i0]@) by {
        if i0 == i {
            assert(contains_id(post, idv));
        } else {
            assert(contains_id(pre, ids[i0]@));
            let j0 = choose|j0: int|
                0 <= j0 < pre.len() && (#[trigger] pre[j0]).partition_id@ == ids[i0]@;
            assert(contains_id(post, pre[j0].partition_id@));
        }
    }
}

/// Inserts an empty partition named `id` into `parts`, keeping the strict
/// id order; an existing partition with the same id is replaced.
#[verifier::rlimit(60)]
fn insert_sorted(parts: &mut Vec<PartitionState>, id: String)
    requires
        ids_sorted(old(parts)@),
        forall|j: int| 0 <= j < old(parts)@.len() ==> (#[trigger] old(parts)@[j]).buffer@.len() == 0,
    ensures
        ids_sorted(final(parts)@),
        forall|j: int|
            0 <= j < final(parts)@.len() ==> (#[trigger] final(parts)@[j]).buffer@.len() == 0,
        adds_only(old(parts)@, final(parts)@, id@),
        retains_all(old(parts)@, final(parts)@),
        contains_id(final(parts)@, id@),
{
    let ghost pre = parts@;
    let n = parts.len();
    let mut k: usize = 0;
    while k < n && bytes_lt(parts[k].partition_id.as_str().as_bytes(), id.as_str().as_bytes())
        invariant
            parts@ == pre,
            n == parts@.len(),
            k <= n,
            forall|m: int| 0 <= m < k ==> id_lt((#[trigger] parts@[m]).partition_id@, id@),
        decreases n - k,
    {
        k += 1;
    }
    if k < n && bytes_eq(parts[k].partition_id.as_str().as_bytes(), id.as_str().as_bytes()) {
        // a partition with this id already exists; the later duplicate
        // collapses into it
        proof {
            lemma_encode_injective(parts@[k as int].partition_id@, id@);
            assert(parts@[k as int].partition_id@ == id@);
            assert forall|j0: int|
                0 <= j0 < pre.len() implies #[trigger] contains_id(
                parts@,
                pre[j0].partition_id@,
            ) by {
                assert(parts@[j0].partition_id@ == pre[j0].partition_id@);
            }
            assert forall|j: int|
                0 <= j < parts@.len() implies (parts@[j].partition_id@ == id@
                || #[trigger] contains_id(pre, parts@[j].partition_id@)) by {
                assert(pre[j].partition_id@ == parts@[j].partition_id@);
            }
            assert(parts@[k as int].partition_id@ == id@);
            assert(contains_id(parts@, id@));
        }
    } else {
        proof {
            if k < n {
                assert(!lex_lt(encode_utf8(parts@[k as int].partition_id@), encode_utf8(id@)));
                assert(encode_utf8(parts@[k as int].partition_id@) != encode_utf8(id@));
                lemma_lex_lt_connected(
                    encode_utf8(parts@[k as int].partition_id@),
                    encode_utf8(id@),
                );
                assert(id_lt(id@, parts@[k as int].partition_id@));
            }
        }
        let st = PartitionState { partition_id: id, buffer: VecDeque::new() };
        parts.insert(k, st);
        proof {
            assert forall|j: int, k2: int|
                0 <= j < k2 < parts@.len() implies id_lt(
                (#[trigger] parts@[j]).partition_id@,
                (#[trigger] parts@[k2]).partition_id@,
            ) by {
                let a = if j < k as int {
                    j
                } else {
                    j - 1
                };
                let b = if k2 < k as int {
                    k2
                } else {
                    k2 - 1
                };
                if j == k as int {
                    // inserted element against a later one: id < pre[b]
                    assert(id_lt(id@, pre[k as int].partition_id@));
                    if b > k as int {
                        assert(id_lt(pre[k as int].partition_id@, pre[b].partition_id@));
                        lemma_lex_lt_trans(
                            encode_utf8(id@),
                            encode_utf8(pre[k as int].partition_id@),
                            encode_utf8(pre[b].partition_id@),
                        );
                    }
                } else if k2 == k as int {
                    assert(id_lt(pre[a].partition_id@, id@));
                } else {
                    assert(id_lt(pre[a].partition_id@, pre[b].partition_id@));
                }
            }
            assert forall|j0: int|
                0 <= j0 < pre.len() implies #[trigger] contains_id(
                parts@,
                pre[j0].partition_id@,
            ) by {
                if j0 < k as int {
                    assert(parts@[j0].partition_id@ == pre[j0].partition_id@);
                } else {
                    assert(parts@[j0 + 1].partition_id@ == pre[j0].partition_id@);
                }
            }
            assert(parts@[k as int].partition_id@ == id@);
            assert(contains_id(parts@, id@));
            assert forall|j: int|
                0 <= j < parts@.len() implies (parts@[j].partition_id@ == id@
                || #[trigger] contains_id(pre, parts@[j].partition_id@)) by {
                if j < k as int {
                    assert(pre[j].partition_id@ == parts@[j].partition_id@);
                } else if j > k as int {
                    assert(pre[j - 1].partition_id@ == parts@[j].partition_id@);
                }
            }
        }
    }
}

} // verus!
