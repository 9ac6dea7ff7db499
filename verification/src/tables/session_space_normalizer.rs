use crate::errors::DeserializationError;
use crate::id_types::LocalId;
use crate::persistence_utils::Deserializer;
use crate::persistence_utils::le_bytes_to_nat;
use crate::persistence_utils::lemma_nat_to_le_bytes_len;
use crate::persistence_utils::nat_to_le_bytes;
use crate::persistence_utils::write_u64_to_vec;
use vstd::prelude::*;

verus! {

/// Whether a run sequence is well formed: every run `(base, count)` holds at
/// least one local, stays within the machine range, and each later run
/// starts strictly below the span of the one before it (runs that would
/// touch are coalesced on insertion).
pub open spec fn runs_wf(runs: Seq<(int, int)>) -> bool {
    &&& forall|i: int|
        0 <= i < runs.len() ==> {
            &&& (#[trigger] runs[i]).1 >= 1
            &&& runs[i].0 < 0
            &&& runs[i].0 - runs[i].1 >= i64::MIN
        }
    &&& forall|i: int|
        0 <= i < runs.len() - 1 ==> (#[trigger] runs[i + 1]).0 < runs[i].0 - runs[i].1
}

/// Whether the local `x` lies in one of the runs: each run `(base, count)`
/// covers the `count` locals from `base - (count - 1)` up to `base`.
pub open spec fn runs_contain(runs: Seq<(int, int)>, x: int) -> bool {
    exists|i: int| 0 <= i < runs.len() && (#[trigger] runs[i]).0 - runs[i].1 < x <= runs[i].0
}

/// In a well-formed run sequence, later runs lie strictly below earlier
/// ones.
pub proof fn lemma_runs_descending(runs: Seq<(int, int)>, i: int, j: int)
    requires
        runs_wf(runs),
        0 <= i < j < runs.len(),
    ensures
        runs[j].0 < runs[i].0 - runs[i].1,
    decreases j - i,
{
    assert(runs[i + 1].0 < runs[i].0 - runs[i].1);
    if i + 1 < j {
        lemma_runs_descending(runs, i + 1, j);
    }
}

/// A run-length-encoded set of local IDs, held only for the local session,
/// recording which locals were handed out as locals rather than as eager
/// finals. Runs are kept in descending order of base local.
#[derive(Debug)]
pub struct SessionSpaceNormalizer {
    leading_locals: Vec<(LocalId, u64)>,
}

impl SessionSpaceNormalizer {
    /// The recorded runs, most recent last, as `(base local, length)` pairs.
    pub closed spec fn view(&self) -> Seq<(int, int)> {
        Seq::new(self.leading_locals@.len(), |i: int| (self.leading_locals@[i].0@, self.leading_locals@[i].1 as int))
    }

    /// Whether the recorded runs are well formed.
    pub open spec fn wf(&self) -> bool {
        runs_wf(self@)
    }

    /// An empty normalizer.
    pub fn new() -> (r: SessionSpaceNormalizer)
        ensures
            r@ =~= Seq::<(int, int)>::empty(),
            r.wf(),
    {
        SessionSpaceNormalizer { leading_locals: Vec::new() }
    }

    /// Records `count` locals descending from `base_local`, coalescing with
    /// the previous run when the new run continues it exactly.
    pub fn add_local_range(&mut self, base_local: LocalId, count: u64)
        requires
            old(self).wf(),
            count >= 1,
            base_local@ < 0,
            base_local@ - count >= i64::MIN,
            old(self)@.len() > 0 ==> base_local@ <= old(self)@.last().0 - old(self)@.last().1,
        ensures
            final(self).wf(),
            final(self)@ == spec_add_run(old(self)@, base_local@, count as int),
            forall|x: int|
                runs_contain(final(self)@, x) == (runs_contain(old(self)@, x) || base_local@
                    - count < x <= base_local@),
    {
        let ghost old_runs = self@;
        let len = self.leading_locals.len();
        if len > 0 {
            let (last_local, last_count) = self.leading_locals[len - 1];
            if last_local.id() - (last_count as i64) == base_local.id() {
                let merged: u64 = last_count + count;
                self.leading_locals[len - 1] = (last_local, merged);
                proof {
                    let new_runs = self@;
                    assert(new_runs =~= old_runs.update(
                        len - 1,
                        (old_runs.last().0, old_runs.last().1 + count),
                    ));
                    assert(new_runs[len - 1].0 - new_runs[len - 1].1 == base_local@ - count);
                    assert forall|i: int| 0 <= i < new_runs.len() implies {
                        &&& (#[trigger] new_runs[i]).1 >= 1
                        &&& new_runs[i].0 < 0
                        &&& new_runs[i].0 - new_runs[i].1 >= i64::MIN
                    } by {
                        assert(old_runs[i].1 >= 1 && old_runs[i].0 < 0 && old_runs[i].0
                            - old_runs[i].1 >= i64::MIN);
                    }
                    assert forall|i: int| 0 <= i < new_runs.len() - 1 implies (
                    #[trigger] new_runs[i + 1]).0 < new_runs[i].0 - new_runs[i].1 by {
                        assert(old_runs[i + 1].0 < old_runs[i].0 - old_runs[i].1);
                    }
                    assert forall|x: int|
                        runs_contain(new_runs, x) == (runs_contain(old_runs, x) || base_local@
                            - count < x <= base_local@) by {
                        if runs_contain(new_runs, x) {
                            let i = choose|i: int|
                                0 <= i < new_runs.len() && (#[trigger] new_runs[i]).0
                                    - new_runs[i].1 < x <= new_runs[i].0;
                            if i < len - 1 {
                                assert(old_runs[i] == new_runs[i]);
                                assert(runs_contain(old_runs, x));
                            } else {
                                assert(old_runs[i].0 - old_runs[i].1 < x <= old_runs[i].0
                                    || base_local@ - count < x <= base_local@);
                            }
                        }
                        if runs_contain(old_runs, x) {
                            let i = choose|i: int|
                                0 <= i < old_runs.len() && (#[trigger] old_runs[i]).0
                                    - old_runs[i].1 < x <= old_runs[i].0;
                            assert(new_runs[i].0 - new_runs[i].1 < x <= new_runs[i].0);
                        }
                        if base_local@ - count < x <= base_local@ {
                            assert(new_runs[len - 1].0 - new_runs[len - 1].1 < x <= new_runs[len
                                - 1].0);
                        }
                    }
                }
                return ;
            }
        }
        self.leading_locals.push((base_local, count));
        proof {
            let new_runs = self@;
            assert(new_runs =~= old_runs.push((base_local@, count as int)));
            if old_runs.len() > 0 {
                assert(base_local@ < old_runs.last().0 - old_runs.last().1);
            }
            assert forall|i: int| 0 <= i < new_runs.len() implies {
                &&& (#[trigger] new_runs[i]).1 >= 1
                &&& new_runs[i].0 < 0
                &&& new_runs[i].0 - new_runs[i].1 >= i64::MIN
            } by {
                if i < old_runs.len() {
                    assert(old_runs[i].1 >= 1 && old_runs[i].0 < 0 && old_runs[i].0 - old_runs[i].1
                        >= i64::MIN);
                }
            }
            assert forall|i: int| 0 <= i < new_runs.len() - 1 implies (#[trigger] new_runs[i
                + 1]).0 < new_runs[i].0 - new_runs[i].1 by {
                if i + 1 < old_runs.len() {
                    assert(old_runs[i + 1].0 < old_runs[i].0 - old_runs[i].1);
                }
            }
            assert forall|x: int|
                runs_contain(new_runs, x) == (runs_contain(old_runs, x) || base_local@ - count < x
                    <= base_local@) by {
                if runs_contain(new_runs, x) {
                    let i = choose|i: int|
                        0 <= i < new_runs.len() && (#[trigger] new_runs[i]).0 - new_runs[i].1 < x
                            <= new_runs[i].0;
                    if i < old_runs.len() {
                        assert(runs_contain(old_runs, x));
                    }
                }
                if runs_contain(old_runs, x) {
                    let i = choose|i: int|
                        0 <= i < old_runs.len() && (#[trigger] old_runs[i]).0 - old_runs[i].1 < x
                            <= old_runs[i].0;
                    assert(new_runs[i].0 - new_runs[i].1 < x <= new_runs[i].0);
                }
                if base_local@ - count < x <= base_local@ {
                    assert(new_runs[new_runs.len() - 1].0 - new_runs[new_runs.len() - 1].1 < x
                        <= new_runs[new_runs.len() - 1].0);
                }
            }
        }
    }

    /// Whether `query` was handed out as a local: binary search over the
    /// descending runs.
    pub fn contains(&self, query: LocalId) -> (r: bool)
        requires
            self.wf(),
        ensures
            r == runs_contain(self@, query@),
    {
        let ghost runs = self@;
        let mut lo: usize = 0;
        let mut hi: usize = self.leading_locals.len();
        while lo < hi
            invariant
                self.wf(),
                runs == self@,
                0 <= lo <= hi <= runs.len(),
                forall|i: int|
                    0 <= i < runs.len() && !(lo <= i < hi) ==> !((#[trigger] runs[i]).0
                        - runs[i].1 < query@ <= runs[i].0),
            decreases hi - lo,
        {
            let mid: usize = lo + (hi - lo) / 2;
            let (current_local, current_count) = self.leading_locals[mid];
            if query.id() > current_local.id() {
                proof {
                    assert forall|i: int| mid <= i < hi implies !((#[trigger] runs[i]).0
                        - runs[i].1 < query@ <= runs[i].0) by {
                        if i > mid {
                            lemma_runs_descending(runs, mid as int, i);
                        }
                    }
                }
                hi = mid;
            } else if query.id() <= current_local.id() - (current_count as i64) {
                proof {
                    assert forall|i: int| lo <= i <= mid implies !((#[trigger] runs[i]).0
                        - runs[i].1 < query@ <= runs[i].0) by {
                        if i < mid {
                            lemma_runs_descending(runs, i, mid as int);
                        }
                    }
                }
                lo = mid + 1;
            } else {
                proof {
                    assert(runs[mid as int].0 - runs[mid as int].1 < query@ <= runs[mid as int].0);
                }
                return true;
            }
        }
        false
    }

    /// Compares the recorded runs of two normalizers.
    pub fn equals(&self, other: &SessionSpaceNormalizer) -> (r: bool)
        ensures
            r == (self@ == other@),
    {
        if self.leading_locals.len() != other.leading_locals.len() {
            return false;
        }
        let mut i: usize = 0;
        while i < self.leading_locals.len()
            invariant
                self@.len() == self.leading_locals@.len(),
                other@.len() == other.leading_locals@.len(),
                self@.len() == other@.len(),
                0 <= i <= self@.len(),
                forall|j: int| 0 <= j < i ==> self@[j] == other@[j],
            decreases self@.len() - i,
        {
            let (a_local, a_count) = self.leading_locals[i];
            let (b_local, b_count) = other.leading_locals[i];
            if a_local.id() != b_local.id() || a_count != b_count {
                proof {
                    assert(self@[i as int] != other@[i as int]);
                }
                return false;
            }
            i = i + 1;
        }
        proof {
            assert(self@ =~= other@);
        }
        true
    }

    /// How many runs are recorded.
    pub fn run_count(&self) -> (r: usize)
        ensures
            r == self@.len(),
    {
        self.leading_locals.len()
    }

    /// The run at `index`, as its base local and length.
    pub fn run_at(&self, index: usize) -> (r: (LocalId, u64))
        requires
            index < self@.len(),
        ensures
            r.0@ == self@[index as int].0,
            r.1 == self@[index as int].1,
    {
        self.leading_locals[index]
    }
}

/// What recording a run does to the run sequence: coalesce with the last run
/// when the new base continues it exactly, else append.
pub open spec fn spec_add_run(runs: Seq<(int, int)>, base: int, count: int) -> Seq<(int, int)> {
    if runs.len() > 0 && runs.last().0 - runs.last().1 == base {
        runs.update(runs.len() - 1, (runs.last().0, runs.last().1 + count))
    } else {
        runs.push((base, count))
    }
}

/// The serialized image of the runs: a run count, then each run as its base
/// local's generation count and its length, little-endian.
pub open spec fn spec_serialized_normalizer(runs: Seq<(int, int)>) -> Seq<u8> {
    nat_to_le_bytes(runs.len() as nat, 8) + spec_serialized_runs(runs)
}

/// The serialized runs alone, in order.
pub open spec fn spec_serialized_runs(runs: Seq<(int, int)>) -> Seq<u8>
    decreases runs.len(),
{
    if runs.len() == 0 {
        Seq::empty()
    } else {
        nat_to_le_bytes((-runs[0].0) as nat, 8) + nat_to_le_bytes(
            runs[0].1 as nat,
            8,
        ) + spec_serialized_runs(runs.skip(1))
    }
}

/// Serialized runs grow at the back as runs are appended.
pub proof fn lemma_serialized_runs_push(runs: Seq<(int, int)>, run: (int, int))
    ensures
        spec_serialized_runs(runs.push(run)) == spec_serialized_runs(runs) + nat_to_le_bytes(
            (-run.0) as nat,
            8,
        ) + nat_to_le_bytes(run.1 as nat, 8),
    decreases runs.len(),
{
    lemma_nat_to_le_bytes_len((-run.0) as nat, 8);
    lemma_nat_to_le_bytes_len(run.1 as nat, 8);
    if runs.len() == 0 {
        assert(runs.push(run).skip(1) =~= Seq::<(int, int)>::empty());
        assert(runs.push(run)[0] == run);
        assert(spec_serialized_runs(runs) =~= Seq::<u8>::empty());
        assert(spec_serialized_runs(runs.push(run)) == nat_to_le_bytes(
            (-runs.push(run)[0].0) as nat,
            8,
        ) + nat_to_le_bytes(runs.push(run)[0].1 as nat, 8) + spec_serialized_runs(
            runs.push(run).skip(1),
        ));
        assert(spec_serialized_runs(runs.push(run)) =~= spec_serialized_runs(runs)
            + nat_to_le_bytes((-run.0) as nat, 8) + nat_to_le_bytes(run.1 as nat, 8));
    } else {
        lemma_nat_to_le_bytes_len((-runs[0].0) as nat, 8);
        lemma_nat_to_le_bytes_len(runs[0].1 as nat, 8);
        lemma_serialized_runs_push(runs.skip(1), run);
        assert(runs.push(run).skip(1) =~= runs.skip(1).push(run));
        assert(runs.push(run)[0] == runs[0]);
        assert(spec_serialized_runs(runs.push(run)) =~= spec_serialized_runs(runs)
            + nat_to_le_bytes((-run.0) as nat, 8) + nat_to_le_bytes(run.1 as nat, 8));
    }
}

/// Each run occupies sixteen bytes in the serialized image.
pub proof fn lemma_serialized_runs_len(runs: Seq<(int, int)>)
    ensures
        spec_serialized_runs(runs).len() == 16 * runs.len(),
    decreases runs.len(),
{
    if runs.len() > 0 {
        lemma_nat_to_le_bytes_len((-runs[0].0) as nat, 8);
        lemma_nat_to_le_bytes_len(runs[0].1 as nat, 8);
        lemma_serialized_runs_len(runs.skip(1));
    }
}

/// Appends the serialized image of the normalizer's runs to `bytes`.
pub fn serialize_normalizer(normalizer: &SessionSpaceNormalizer, bytes: &mut Vec<u8>)
    requires
        normalizer.wf(),
    ensures
        final(bytes)@ == old(bytes)@ + spec_serialized_normalizer(normalizer@),
{
    let run_count = normalizer.run_count();
    write_u64_to_vec(bytes, run_count as u64);
    proof {
        lemma_nat_to_le_bytes_len(run_count as nat, 8);
        assert(spec_serialized_runs(normalizer@.take(0)) =~= Seq::<u8>::empty());
        assert(bytes@ =~= old(bytes)@ + nat_to_le_bytes(run_count as nat, 8)
            + spec_serialized_runs(normalizer@.take(0)));
        lemma_serialized_runs_len(normalizer@);
    }
    let mut i: usize = 0;
    while i < run_count
        invariant
            normalizer.wf(),
            run_count == normalizer@.len(),
            0 <= i <= run_count,
            bytes@ == old(bytes)@ + nat_to_le_bytes(run_count as nat, 8) + spec_serialized_runs(
                normalizer@.take(i as int),
            ),
        decreases run_count - i,
    {
        let (base_local, count) = normalizer.run_at(i);
        proof {
            lemma_nat_to_le_bytes_len((-base_local@) as nat, 8);
            lemma_nat_to_le_bytes_len(count as nat, 8);
        }
        write_u64_to_vec(bytes, base_local.to_generation_count());
        write_u64_to_vec(bytes, count);
        proof {
            let taken = normalizer@.take(i + 1);
            assert(taken.drop_last() =~= normalizer@.take(i as int));
            assert(taken =~= normalizer@.take(i as int).push(normalizer@[i as int]));
            lemma_serialized_runs_push(normalizer@.take(i as int), normalizer@[i as int]);
            assert(bytes@ =~= old(bytes)@ + nat_to_le_bytes(run_count as nat, 8)
                + spec_serialized_runs(taken));
            lemma_serialized_runs_len(taken);
        }
        i = i + 1;
    }
    proof {
        assert(normalizer@.take(run_count as int) =~= normalizer@);
    }
}

/// The result of parsing `k` runs of a serialized normalizer from `pos`,
/// having already accepted `acc`: the full run sequence and the position
/// after it, or nothing where the image is truncated or ill formed.
pub open spec fn spec_parse_runs(bytes: Seq<u8>, pos: int, k: nat, acc: Seq<(int, int)>) -> Option<
    (Seq<(int, int)>, int),
>
    decreases k,
{
    if k == 0 {
        Some((acc, pos))
    } else if pos + 16 <= bytes.len() {
        let gen = le_bytes_to_nat(bytes.subrange(pos, pos + 8)) as int;
        let count = le_bytes_to_nat(bytes.subrange(pos + 8, pos + 16)) as int;
        if 1 <= gen && 1 <= count && gen + count <= 0x8000000000000000 && (acc.len() == 0 || -gen
            < acc.last().0 - acc.last().1) {
            spec_parse_runs(bytes, pos + 16, (k - 1) as nat, acc.push((-gen, count)))
        } else {
            None
        }
    } else {
        None
    }
}

/// The result of parsing a serialized normalizer at `pos`: the run sequence
/// and the position after it, or nothing where the image is truncated or
/// ill formed.
pub open spec fn spec_parse_normalizer(bytes: Seq<u8>, pos: int) -> Option<(Seq<(int, int)>, int)> {
    if pos + 8 <= bytes.len() {
        let k = le_bytes_to_nat(bytes.subrange(pos, pos + 8));
        spec_parse_runs(bytes, pos + 8, k, Seq::empty())
    } else {
        None
    }
}

/// Reads a serialized normalizer back, rejecting images whose runs are not
/// well formed.
#[verifier::loop_isolation(false)]
pub fn deserialize_normalizer(deserializer: &mut Deserializer) -> (r: Result<
    SessionSpaceNormalizer,
    DeserializationError,
>)
    requires
        old(deserializer).error_view() is None,
    ensures
        final(deserializer).bytes_view() == old(deserializer).bytes_view(),
        match spec_parse_normalizer(old(deserializer).bytes_view(), old(deserializer).pos_view()) {
            Some((runs, end)) => {
                &&& r is Ok
                &&& r->Ok_0@ == runs
                &&& r->Ok_0.wf()
                &&& final(deserializer).is_at(old(deserializer).bytes_view(), end)
            },
            None => r is Err,
        },
{
    let ghost bytes = deserializer.bytes_view();
    let ghost pos0 = deserializer.pos_view();
    let run_count = deserializer.consume_u64();
    if deserializer.error().is_some() {
        return Err(DeserializationError::MalformedInput);
    }
    let mut normalizer = SessionSpaceNormalizer::new();
    let mut i: u64 = 0;
    while i < run_count
        invariant
            0 <= i <= run_count,
            normalizer.wf(),
            deserializer.bytes_view() == bytes,
            deserializer.error_view() is None,
            spec_parse_runs(bytes, pos0 + 8, run_count as nat, Seq::empty())
                == spec_parse_runs(
                bytes,
                deserializer.pos_view(),
                (run_count - i) as nat,
                normalizer@,
            ),
            normalizer@.len() > 0 ==> normalizer@.last().0 - normalizer@.last().1 >= i64::MIN,
        decreases run_count - i,
    {
        let ghost pos_here = deserializer.pos_view();
        let ghost runs_here = normalizer@;
        let gen = deserializer.consume_u64();
        let count = deserializer.consume_u64();
        if deserializer.error().is_some() {
            return Err(DeserializationError::MalformedInput);
        }
        proof {
            assert(pos_here + 16 <= bytes.len());
            assert(gen == le_bytes_to_nat(bytes.subrange(pos_here, pos_here + 8)));
            assert(count == le_bytes_to_nat(bytes.subrange(pos_here + 8, pos_here + 16)));
        }
        let ok_bounds = gen >= 1 && count >= 1 && count <= 0x8000000000000000u64 && gen
            <= 0x8000000000000000u64 - count;
        let mut ok_order = true;
        let len = normalizer.run_count();
        if len > 0 {
            let (last_local, last_count) = normalizer.run_at(len - 1);
            proof {
                assert(last_local@ - last_count >= i64::MIN);
            }
            if ok_bounds {
                ok_order = -((gen - 1) as i64) - 1 < last_local.id() - (last_count as i64);
            }
        }
        if !(ok_bounds && ok_order) {
            return Err(DeserializationError::MalformedInput);
        }
        let base_local = LocalId::from_generation_count(gen);
        normalizer.add_local_range(base_local, count);
        proof {
            assert(normalizer@ == runs_here.push((-(gen as int), count as int))
                || normalizer@ == spec_add_run(runs_here, -(gen as int), count as int));
        }
        i = i + 1;
    }
    Ok(normalizer)
}

} // verus!
