//! RAID-1: several devices presented as one, read-any and write-all.

use vstd::prelude::*;
use crate::block_device::{BLOCK_SIZE, BlockDevice, BlockDeviceError, BlockId};
use crate::sahne_syscalls::SyscallError;

verus! {

/// A failure of the mirror.
pub enum RaidError<D: BlockDevice> {
    /// Members failed; one error for each member that did.
    IoError(Vec<D::Error>),
    /// Fewer than two members were supplied.
    NotEnoughDevices,
    /// The members do not all have the same capacity.
    SizeMismatch,
    /// The host kernel refused a service.
    Syscall(SyscallError),
}

impl<D: BlockDevice> From<SyscallError> for RaidError<D> {
    /// A refusal of the host kernel, as the mirror reports it.
    fn from(e: SyscallError) -> (r: Self) {
        RaidError::Syscall(e)
    }
}

impl<D: BlockDevice> vstd::std_specs::convert::FromSpecImpl<SyscallError> for RaidError<D> {
    open spec fn obeys_from_spec() -> bool {
        true
    }

    open spec fn from_spec(e: SyscallError) -> Self {
        RaidError::Syscall(e)
    }
}

impl<D: BlockDevice> BlockDeviceError for RaidError<D> {

}

/// The errors among a run of per-member results, in member order.
pub open spec fn errors_of<E>(results: Seq<Result<(), E>>) -> Seq<E>
    decreases results.len(),
{
    if results.len() == 0 {
        Seq::empty()
    } else {
        match results.last() {
            Ok(_) => errors_of(results.drop_last()),
            Err(e) => errors_of(results.drop_last()).push(e),
        }
    }
}

/// Whether every member acknowledged.
pub open spec fn all_ok<E>(results: Seq<Result<(), E>>) -> bool {
    forall|i: int| 0 <= i < results.len() ==> (#[trigger] results[i]) is Ok
}

proof fn lemma_errors_of_empty<E>(results: Seq<Result<(), E>>)
    ensures
        errors_of(results).len() == 0 <==> all_ok(results),
        errors_of(results).len() <= results.len(),
    decreases results.len(),
{
    if results.len() > 0 {
        let front = results.drop_last();
        lemma_errors_of_empty(front);
        if results.last() is Ok {
            if all_ok(results) {
                assert forall|i: int| 0 <= i < front.len() implies (#[trigger] front[i]) is Ok by {
                    assert(results[i] is Ok);
                }
            }
            if all_ok(front) {
                assert forall|i: int| 0 <= i < results.len()
                    implies (#[trigger] results[i]) is Ok by {
                    if i < results.len() - 1 {
                        assert(front[i] is Ok);
                    }
                }
            }
        } else {
            assert(!(results[results.len() - 1] is Ok));
        }
    }
}

/// The write-all verdict over the per-member results: success only when
/// every member acknowledged, otherwise the failures in member order.
pub fn write_all_verdict<D: BlockDevice>(results: Vec<Result<(), D::Error>>) -> (r: Result<
    (),
    RaidError<D>,
>)
    ensures
        r is Ok <==> all_ok(results@),
        r is Err ==> r->Err_0 is IoError && r->Err_0->IoError_0@ == errors_of(results@),
{
    let ghost all = results@;
    let mut errors: Vec<D::Error> = Vec::new();
    for result in iter: results
        invariant
            iter.seq() == all,
            errors@ == errors_of(all.take(iter.index() as int)),
    {
        proof {
            let next = all.take(iter.index() + 1);
            assert(next.drop_last() =~= all.take(iter.index() as int));
            assert(next.last() == result);
        }
        match result {
            Ok(_) => {},
            Err(e) => {
                errors.push(e);
            },
        }
    }
    proof {
        assert(all.take(all.len() as int) =~= all);
        lemma_errors_of_empty(all);
    }
    if errors.len() == 0 {
        Ok(())
    } else {
        Err(RaidError::IoError(errors))
    }
}

/// Whether some member answered.
pub open spec fn any_ok<E>(results: Seq<Result<(), E>>) -> bool {
    exists|i: int| 0 <= i < results.len() && (#[trigger] results[i]) is Ok
}

proof fn lemma_errors_of_failures<E>(results: Seq<Result<(), E>>)
    requires
        !any_ok(results),
    ensures
        errors_of(results).len() == results.len(),
        forall|i: int| 0 <= i < results.len() ==> (#[trigger] results[i]) == Err::<(), E>(
            errors_of(results)[i],
        ),
    decreases results.len(),
{
    if results.len() > 0 {
        let front = results.drop_last();
        assert(!any_ok(front)) by {
            if any_ok(front) {
                let i = choose|i: int| 0 <= i < front.len() && (#[trigger] front[i]) is Ok;
                assert(results[i] is Ok);
            }
        }
        lemma_errors_of_failures(front);
        assert(!(results[results.len() - 1] is Ok));
        assert forall|i: int| 0 <= i < results.len()
            implies (#[trigger] results[i]) == Err::<(), E>(
            errors_of(results)[i],
        ) by {
            if i < front.len() {
                assert(front[i] == results[i]);
            }
        }
    }
}

/// The read-any verdict over the results of the members that were asked:
/// success when one of them answered, otherwise the failures in member
/// order, one for each member asked.
pub fn read_any_verdict<D: BlockDevice>(results: Vec<Result<(), D::Error>>) -> (r: Result<
    (),
    RaidError<D>,
>)
    ensures
        r is Ok <==> any_ok(results@),
        r is Err ==> r->Err_0 is IoError && r->Err_0->IoError_0@ == errors_of(results@)
            && r->Err_0->IoError_0@.len() == results@.len() && forall|i: int|
            0 <= i < results@.len() ==> (#[trigger] results@[i]) == Err::<(), D::Error>(
                r->Err_0->IoError_0@[i],
            ),
{
    let ghost all = results@;
    let mut errors: Vec<D::Error> = Vec::new();
    let mut answered: bool = false;
    for result in iter: results
        invariant
            iter.seq() == all,
            errors@ == errors_of(all.take(iter.index() as int)),
            answered == any_ok(all.take(iter.index() as int)),
    {
        proof {
            let seen = all.take(iter.index() as int);
            let next = all.take(iter.index() + 1);
            assert(next.drop_last() =~= seen);
            assert(next.last() == result);
            if any_ok(seen) {
                let i = choose|i: int| 0 <= i < seen.len() && (#[trigger] seen[i]) is Ok;
                assert(next[i] is Ok);
            }
            if any_ok(next) && !(result is Ok) {
                let i = choose|i: int| 0 <= i < next.len() && (#[trigger] next[i]) is Ok;
                assert(seen[i] is Ok);
            }
            if result is Ok {
                assert(next[next.len() - 1] is Ok);
            }
        }
        match result {
            Ok(_) => {
                answered = true;
            },
            Err(e) => {
                errors.push(e);
            },
        }
    }
    proof {
        assert(all.take(all.len() as int) =~= all);
        if !any_ok(all) {
            lemma_errors_of_failures(all);
        }
    }
    if answered {
        Ok(())
    } else {
        Err(RaidError::IoError(errors))
    }
}

/// Whether all of `devices` report the capacity of the first.
pub open spec fn same_capacity<D: BlockDevice>(devices: Seq<D>) -> bool {
    forall|i: int| 0 <= i < devices.len()
        ==> (#[trigger] devices[i]).capacity() == devices[0].capacity()
}

/// Whether every one of `devices` is well formed.
pub open spec fn all_wf<D: BlockDevice>(devices: Seq<D>) -> bool {
    forall|i: int| 0 <= i < devices.len() ==> (#[trigger] devices[i]).wf()
}

/// The blocks that some of `devices` may still have unflushed.
pub open spec fn any_unflushed<D: BlockDevice>(devices: Seq<D>) -> Set<BlockId> {
    Set::new(
        |id: BlockId|
            exists|i: int| 0 <= i < devices.len()
                && (#[trigger] devices[i]).unflushed().contains(id),
    )
}

/// Whether one of `devices` is readable.
pub open spec fn some_readable<D: BlockDevice>(devices: Seq<D>) -> bool {
    exists|i: int| 0 <= i < devices.len() && (#[trigger] devices[i]).readable()
}

/// Whether every one of `devices` is reliable.
pub open spec fn all_reliable<D: BlockDevice>(devices: Seq<D>) -> bool {
    forall|i: int| 0 <= i < devices.len() ==> (#[trigger] devices[i]).reliable()
}

/// The images that some member may return for block `id`.
pub open spec fn member_candidates<D: BlockDevice>(devices: Seq<D>, id: BlockId) -> Set<Seq<u8>> {
    Set::new(
        |image: Seq<u8>|
            exists|i: int| 0 <= i < devices.len()
                && (#[trigger] devices[i]).candidates(id).contains(image),
    )
}

/// Members that have the same candidates for a block give the mirror the
/// same candidates for it.
proof fn lemma_same_candidates<D: BlockDevice>(before: Seq<D>, after: Seq<D>, id: BlockId)
    requires
        before.len() == after.len(),
        forall|j: int|
            0 <= j < before.len()
                ==> (#[trigger] after[j]).candidates(id) == before[j].candidates(id),
    ensures
        member_candidates(after, id) == member_candidates(before, id),
{
    assert forall|image: Seq<u8>|
        member_candidates(after, id).contains(image) == member_candidates(before,
            id).contains(image) by {
        if member_candidates(after, id).contains(image) {
            let j = choose|j: int|
                0 <= j < after.len() && (#[trigger] after[j]).candidates(id).contains(image);
            assert(before[j].candidates(id).contains(image));
        }
        if member_candidates(before, id).contains(image) {
            let j = choose|j: int|
                0 <= j < before.len() && (#[trigger] before[j]).candidates(id).contains(image);
            assert(after[j].candidates(id) == before[j].candidates(id));
            assert(after[j].candidates(id).contains(image));
        }
    }
    assert(member_candidates(after, id) =~= member_candidates(before, id));
}

/// Two or more devices of equal capacity that are kept as copies of each
/// other.
pub struct Raid1Device<D: BlockDevice> {
    devices: Vec<D>,
    total_blocks: BlockId,
}

impl<D: BlockDevice> Raid1Device<D> {
    /// The members, in construction order.
    pub closed spec fn members(&self) -> Seq<D> {
        self.devices@
    }

    /// The capacity that the mirror reports.
    pub closed spec fn size(&self) -> BlockId {
        self.total_blocks
    }

    /// At least two well-formed members, each of the reported capacity.
    pub open spec fn valid(&self) -> bool {
        &&& self.members().len() >= 2
        &&& all_wf(self.members())
        &&& forall|i: int|
            0 <= i < self.members().len()
                ==> (#[trigger] self.members()[i]).capacity() == self.size()
    }

    /// Builds a mirror over `devices`.
    ///
    /// Fails with `NotEnoughDevices` for fewer than two devices and with
    /// `SizeMismatch` when some device's capacity differs from the smallest.
    pub fn new(devices: Vec<D>) -> (r: Result<Self, RaidError<D>>)
        requires
            all_wf(devices@),
        ensures
            devices@.len() < 2 ==> r is Err && r->Err_0 is NotEnoughDevices,
            devices@.len() >= 2 && !same_capacity(devices@) ==> r is Err
                && r->Err_0 is SizeMismatch,
            devices@.len() >= 2 && same_capacity(devices@) ==> r is Ok && r->Ok_0.valid()
                && r->Ok_0.members() == devices@ && r->Ok_0.size() == devices@[0].capacity(),
    {
        if devices.len() < 2 {
            return Err(RaidError::NotEnoughDevices);
        }
        let mut min_blocks: BlockId = devices[0].total_blocks();
        let mut i: usize = 1;
        while i < devices.len()
            invariant
                1 <= i <= devices@.len(),
                all_wf(devices@),
                forall|j: int| 0 <= j < i ==> min_blocks <= (#[trigger] devices@[j]).capacity(),
                exists|j: int| 0 <= j < i && min_blocks == (#[trigger] devices@[j]).capacity(),
            decreases devices@.len() - i,
        {
            let blocks: BlockId = devices[i].total_blocks();
            if blocks < min_blocks {
                min_blocks = blocks;
            }
            i += 1;
        }
        let mut k: usize = 0;
        while k < devices.len()
            invariant
                k <= devices@.len(),
                all_wf(devices@),
                forall|j: int| 0 <= j < k ==> min_blocks == (#[trigger] devices@[j]).capacity(),
                forall|j: int|
                    0 <= j < devices@.len() ==> min_blocks <= (#[trigger] devices@[j]).capacity(),
                exists|j: int|
                    0 <= j < devices@.len() && min_blocks == (#[trigger] devices@[j]).capacity(),
            decreases devices@.len() - k,
        {
            if devices[k].total_blocks() != min_blocks {
                return Err(RaidError::SizeMismatch);
            }
            k += 1;
        }
        Ok(Raid1Device { devices, total_blocks: min_blocks })
    }

    /// Takes the mirror apart into its members, in construction order.
    pub fn into_devices(self) -> (devices: Vec<D>)
        ensures
            devices@ == self.members(),
    {
        self.devices
    }
}

impl<D: BlockDevice> BlockDevice for Raid1Device<D> {
    type Error = RaidError<D>;

    open spec fn wf(&self) -> bool {
        self.valid()
    }

    open spec fn capacity(&self) -> u64 {
        self.size()
    }

    open spec fn candidates(&self, id: BlockId) -> Set<Seq<u8>> {
        member_candidates(self.members(), id)
    }

    /// The mirror is reliable where every member is.
    open spec fn reliable(&self) -> bool {
        all_reliable(self.members())
    }

    /// The mirror is readable where some member is.
    open spec fn readable(&self) -> bool {
        some_readable(self.members())
    }

    /// The flushes that the mirror has acknowledged are counted at its
    /// first member: a flush that the mirror acknowledges is one that every
    /// member has acknowledged.
    open spec fn flushes(&self) -> nat {
        self.members()[0].flushes()
    }

    /// A block is unflushed on the mirror while it is on some member.
    open spec fn unflushed(&self) -> Set<BlockId> {
        any_unflushed(self.members())
    }

    /// Tries the members in construction order and stops at the first that
    /// answers; the later members are not asked. Fails only when every
    /// member did, with the members' errors in construction order. Succeeds
    /// where some member is readable.
    fn read_block(&self, id: BlockId, buffer: &mut [u8]) -> (r: Result<(), RaidError<D>>)
        ensures
            r is Err ==> r->Err_0 is IoError && r->Err_0->IoError_0@.len() == self.members().len(),
    {
        let mut results: Vec<Result<(), D::Error>> = Vec::new();
        let mut answered: bool = false;
        let mut i: usize = 0;
        while i < self.devices.len() && !answered
            invariant
                i <= self.devices@.len(),
                self.valid(),
                results@.len() == i,
                buffer@.len() == old(buffer)@.len(),
                old(buffer)@.len() != BLOCK_SIZE ==> buffer@ == old(buffer)@,
                answered == any_ok(results@),
                answered ==> old(buffer)@.len() == BLOCK_SIZE && i > 0 && self.devices@[i
                    - 1].candidates(id).contains(buffer@),
                forall|j: int|
                    0 <= j < i && (#[trigger] self.devices@[j]).readable() && old(buffer)@.len()
                        == BLOCK_SIZE && id < self.total_blocks ==> answered,
            decreases self.devices@.len() - i,
        {
            let ghost asked = results@;
            let result = self.devices[i].read_block(id, buffer);
            proof {
                assert(self.devices@[i as int].capacity() == self.total_blocks);
                if any_ok(asked) {
                    let k = choose|k: int| 0 <= k < asked.len() && (#[trigger] asked[k]) is Ok;
                }
            }
            if result.is_ok() {
                answered = true;
            }
            results.push(result);
            proof {
                if answered {
                    assert(results@[i as int] is Ok);
                } else if any_ok(results@) {
                    let k = choose|k: int| 0 <= k < results@.len()
                        && (#[trigger] results@[k]) is Ok;
                    assert(asked[k] is Ok);
                }
            }
            i += 1;
        }
        proof {
            if answered {
                assert(self.members()[i - 1].candidates(id).contains(buffer@));
            }
            if some_readable(self.members()) && old(buffer)@.len() == BLOCK_SIZE && id
                < self.total_blocks && !answered {
                let k = choose|k: int|
                    0 <= k < self.members().len() && (#[trigger] self.members()[k]).readable();
                assert(self.devices@[k].readable());
            }
        }
        read_any_verdict::<D>(results)
    }

    /// Writes to every member, also after a failure, and succeeds only when
    /// all of them did; then every member holds `data` in block `id`.
    /// Whatever the result, every member that was reliable holds `data`, and
    /// no member has another block changed. A failure carries the errors of
    /// the members that failed, at least one and at most one for each member.
    fn write_block(&mut self, id: BlockId, data: &[u8]) -> (r: Result<(), RaidError<D>>)
        ensures
            final(self).members().len() == old(self).members().len(),
            r is Ok ==> forall|i: int|
                0 <= i < final(self).members().len()
                    ==> (#[trigger] final(self).members()[i]).candidates(id)
                    == set![data@],
            r is Err ==> r->Err_0 is IoError
                && 0 < r->Err_0->IoError_0@.len() <= old(self).members().len(),
            forall|i: int|
                0 <= i < final(self).members().len() ==> (old(self).members()[i].reliable() ==> (
                #[trigger] final(self).members()[i]).reliable())
                    && (old(self).members()[i].readable()
                    ==> final(self).members()[i].readable()),
            forall|i: int, other: BlockId|
                0 <= i < final(self).members().len() && other != id
                    ==> #[trigger] final(self).members()[i].candidates(other) == old(self).members()[i].candidates(
                    other,
                ),
            forall|i: int|
                0 <= i < final(self).members().len() && old(self).members()[i].reliable()
                    && data@.len() == BLOCK_SIZE && id < old(self).capacity()
                    ==> (#[trigger] final(self).members()[i]).candidates(id) == set![data@],
            forall|i: int|
                0 <= i < final(self).members().len()
                    ==> (#[trigger] final(self).members()[i]).flushes()
                    == old(self).members()[i].flushes(),
    {
        let mut results: Vec<Result<(), D::Error>> = Vec::new();
        let mut i: usize = 0;
        while i < self.devices.len()
            invariant
                i <= self.devices@.len(),
                self.devices@.len() == old(self).devices@.len(),
                self.total_blocks == old(self).total_blocks,
                self.valid(),
                old(self).valid(),
                results@.len() == i,
                forall|j: int, other: BlockId|
                    0 <= j < self.devices@.len() && other != id
                        ==> #[trigger] self.devices@[j].candidates(
                        other,
                    ) == old(self).devices@[j].candidates(other),
                forall|j: int|
                    i <= j < self.devices@.len()
                        ==> (#[trigger] self.devices@[j]).candidates(id) == old(self).devices@[j].candidates(id),
                forall|j: int|
                    0 <= j < i ==> (#[trigger] self.devices@[j]).candidates(id).subset_of(
                        old(self).devices@[j].candidates(id).insert(data@),
                    ),
                forall|j: int|
                    0 <= j < i && (#[trigger] results@[j]) is Ok ==> self.devices@[j].candidates(id)
                        == set![data@],
                data@.len() != BLOCK_SIZE ==> forall|j: int|
                    0 <= j < i ==> (#[trigger] results@[j]) is Err
                        && self.devices@[j].candidates(id)
                        == old(self).devices@[j].candidates(id),
                all_reliable(old(self).devices@) ==> all_reliable(self.devices@),
                all_reliable(old(self).devices@) && data@.len() == BLOCK_SIZE && id
                    < self.total_blocks ==> forall|j: int| 0 <= j < i
                        ==> (#[trigger] results@[j]) is Ok,
                forall|j: int|
                    i <= j < self.devices@.len()
                        ==> (#[trigger] self.devices@[j]) == old(self).devices@[j],
                forall|j: int|
                    0 <= j < i && old(self).devices@[j].reliable() && data@.len() == BLOCK_SIZE
                        && id
                        < self.total_blocks
                            ==> (#[trigger] self.devices@[j]).candidates(id) == set![
                        data@,
                    ],
                forall|j: int|
                    0 <= j < self.devices@.len()
                        ==> (#[trigger] self.devices@[j]).flushes() == old(self).devices@[j].flushes(),
                forall|j: int|
                    0 <= j < self.devices@.len() && old(self).devices@[j].readable() ==> (
                    #[trigger] self.devices@[j]).readable(),
                forall|j: int|
                    0 <= j < self.devices@.len() && old(self).devices@[j].reliable() ==> (
                    #[trigger] self.devices@[j]).reliable(),
                forall|j: int|
                    0 <= j < self.devices@.len()
                        ==> (#[trigger] self.devices@[j]).unflushed().subset_of(
                        old(self).devices@[j].unflushed().insert(id),
                    ),
            decreases self.devices@.len() - i,
        {
            let ghost before = self.devices@;
            let ghost taken = results@;
            let result = self.devices[i].write_block(id, data);
            results.push(result);
            proof {
                assert(forall|j: int| 0 <= j < before.len() && j != i
                    ==> self.devices@[j] == before[j]);
                assert(before[i as int] == old(self).devices@[i as int]);
                assert(before[i as int].capacity() == self.total_blocks);
                assert forall|j: int|
                    0 <= j < i + 1 && old(self).devices@[j].reliable() && data@.len() == BLOCK_SIZE
                        && id < self.total_blocks
                            implies (#[trigger] self.devices@[j]).candidates(id)
                    == set![data@] by {
                    if j < i {
                        assert(before[j].candidates(id) == set![data@]);
                    }
                }
                assert forall|j: int| 0 <= j < self.devices@.len() implies (
                #[trigger] self.devices@[j]).flushes() == old(self).devices@[j].flushes() by {
                    if j != i {
                        assert(before[j].flushes() == old(self).devices@[j].flushes());
                    }
                }
                assert forall|j: int|
                    0 <= j < self.devices@.len() && old(self).devices@[j].readable() implies (
                #[trigger] self.devices@[j]).readable() by {
                    if j != i {
                        assert(before[j].readable());
                    }
                }
                assert forall|j: int|
                    0 <= j < self.devices@.len() && old(self).devices@[j].reliable() implies (
                #[trigger] self.devices@[j]).reliable() by {
                    if j != i {
                        assert(before[j].reliable());
                    }
                }
                assert forall|j: int| 0 <= j < self.devices@.len() implies (
                #[trigger] self.devices@[j]).unflushed().subset_of(
                    old(self).devices@[j].unflushed().insert(id),
                ) by {
                    if j != i {
                        assert(before[j].unflushed().subset_of(
                            old(self).devices@[j].unflushed().insert(id),
                        ));
                    }
                }
                if all_reliable(old(self).devices@) {
                    assert(before[i as int].reliable());
                    assert forall|j: int| 0 <= j < self.devices@.len() implies (
                    #[trigger] self.devices@[j]).reliable() by {
                        if j != i {
                            assert(before[j].reliable());
                        }
                    }
                    if data@.len() == BLOCK_SIZE && id < self.total_blocks {
                        assert(before[i as int].capacity() == self.total_blocks);
                        assert forall|j: int| 0 <= j < i + 1
                            implies (#[trigger] results@[j]) is Ok by {
                            if j < i {
                                assert(taken[j] is Ok);
                            }
                        }
                    }
                }
            }
            i += 1;
        }
        let verdict = write_all_verdict::<D>(results);
        proof {
            let old_members = old(self).members();
            let new_members = self.members();
            lemma_errors_of_empty(results@);
            if some_readable(old_members) {
                let k = choose|k: int| 0 <= k < old_members.len()
                    && (#[trigger] old_members[k]).readable();
                assert(new_members[k].readable());
            }
            assert forall|x: BlockId| #[trigger] any_unflushed(new_members).contains(x)
                implies any_unflushed(
                old_members,
            ).insert(id).contains(x) by {
                let k = choose|k: int|
                    0 <= k < new_members.len()
                        && (#[trigger] new_members[k]).unflushed().contains(x);
                assert(new_members[k].unflushed().subset_of(old_members[k].unflushed().insert(id)));
                if x != id {
                    assert(old_members[k].unflushed().contains(x));
                }
            }
            assert forall|other: BlockId| other != id
                implies #[trigger] self.candidates(other) == old(self).candidates(other) by {
                lemma_same_candidates(old_members, new_members, other);
            }
            assert forall|image: Seq<u8>| self.candidates(id).contains(image)
                implies old(self).candidates(id).insert(data@).contains(image) by {
                let j = choose|j: int|
                    0 <= j < new_members.len()
                        && (#[trigger] new_members[j]).candidates(id).contains(
                        image,
                    );
                assert(new_members[j].candidates(id).subset_of(
                    old_members[j].candidates(id).insert(data@),
                ));
                if image != data@ {
                    assert(old_members[j].candidates(id).contains(image));
                }
            }
            if verdict is Ok {
                assert forall|j: int| 0 <= j < new_members.len() implies (
                #[trigger] new_members[j]).candidates(id) == set![data@] by {
                    assert(results@[j] is Ok);
                }
                assert forall|image: Seq<u8>| self.candidates(id).contains(image) == (image == data@) by {
                    if image == data@ {
                        assert(new_members[0].candidates(id).contains(image));
                    }
                    if self.candidates(id).contains(image) {
                        let j = choose|j: int|
                            0 <= j < new_members.len() && (#[trigger] new_members[j]).candidates(
                                id,
                            ).contains(image);
                        assert(new_members[j].candidates(id) == set![data@]);
                    }
                }
                assert(self.candidates(id) =~= set![data@]);
            }
            if data@.len() != BLOCK_SIZE {
                assert(results@[0] is Err);
                assert forall|j: int| 0 <= j < old_members.len()
                    implies (#[trigger] new_members[j]).candidates(
                    id,
                ) == old_members[j].candidates(id) by {
                    assert(results@[j] is Err);
                }
                lemma_same_candidates(old_members, new_members, id);
            }
        }
        verdict
    }

    fn total_blocks(&self) -> (n: BlockId) {
        self.total_blocks
    }

    /// Flushes every member, also after a failure, and succeeds only when
    /// all of them did: as they do where every member is reliable. After
    /// success every member has one more flush acknowledged, as has every
    /// reliable member whatever the result. A failure carries the errors of
    /// the members that failed, at least one and at most one for each
    /// member.
    fn flush(&mut self) -> (r: Result<(), RaidError<D>>)
        ensures
            final(self).members().len() == old(self).members().len(),
            forall|i: int, id: BlockId|
                0 <= i < final(self).members().len()
                    ==> #[trigger] final(self).members()[i].candidates(id)
                    == old(self).members()[i].candidates(id),
            r is Err ==> r->Err_0 is IoError
                && 0 < r->Err_0->IoError_0@.len() <= old(self).members().len(),
            forall|i: int|
                0 <= i < final(self).members().len() ==> (old(self).members()[i].reliable() ==> (
                #[trigger] final(self).members()[i]).reliable())
                    && (old(self).members()[i].readable()
                    ==> final(self).members()[i].readable()),
            forall|i: int|
                0 <= i < final(self).members().len()
                    ==> (#[trigger] final(self).members()[i]).flushes()
                    >= old(self).members()[i].flushes(),
            forall|i: int|
                0 <= i < final(self).members().len() && (r is Ok
                    || old(self).members()[i].reliable())
                    ==> (#[trigger] final(self).members()[i]).flushes() == old(self).members()[i].flushes()
                    + 1,
    {
        let mut results: Vec<Result<(), D::Error>> = Vec::new();
        let mut i: usize = 0;
        while i < self.devices.len()
            invariant
                forall|j: int|
                    i <= j < self.devices@.len()
                        ==> (#[trigger] self.devices@[j]) == old(self).devices@[j],
                forall|j: int|
                    0 <= j < i
                        ==> (#[trigger] self.devices@[j]).flushes() >= old(self).devices@[j].flushes(),
                forall|j: int|
                    0 <= j < i && ((#[trigger] results@[j]) is Ok
                        || old(self).devices@[j].reliable())
                        ==> self.devices@[j].flushes() == old(self).devices@[j].flushes() + 1,
                forall|j: int|
                    0 <= j < self.devices@.len() && old(self).devices@[j].readable() ==> (
                    #[trigger] self.devices@[j]).readable(),
                forall|j: int|
                    0 <= j < self.devices@.len() && old(self).devices@[j].reliable() ==> (
                    #[trigger] self.devices@[j]).reliable(),
                forall|j: int|
                    0 <= j < self.devices@.len()
                        ==> (#[trigger] self.devices@[j]).unflushed().subset_of(
                        old(self).devices@[j].unflushed(),
                    ),
                forall|j: int|
                    0 <= j < i && (#[trigger] results@[j]) is Ok ==> self.devices@[j].unflushed()
                        == Set::<BlockId>::empty(),
                i <= self.devices@.len(),
                self.devices@.len() == old(self).devices@.len(),
                self.total_blocks == old(self).total_blocks,
                self.valid(),
                results@.len() == i,
                forall|j: int, id: BlockId|
                    0 <= j < self.devices@.len()
                        ==> #[trigger] self.devices@[j].candidates(id) == old(self).devices@[j].candidates(id),
                all_reliable(old(self).devices@) ==> all_reliable(self.devices@),
                all_reliable(old(self).devices@) ==> forall|j: int|
                    0 <= j < i ==> (#[trigger] results@[j]) is Ok,
            decreases self.devices@.len() - i,
        {
            let ghost before = self.devices@;
            let ghost taken = results@;
            let result = self.devices[i].flush();
            results.push(result);
            proof {
                assert(forall|j: int| 0 <= j < before.len() && j != i
                    ==> self.devices@[j] == before[j]);
                assert(before[i as int] == old(self).devices@[i as int]);
                assert forall|j: int| 0 <= j < i + 1 implies (#[trigger] self.devices@[j]).flushes()
                    >= old(self).devices@[j].flushes() by {
                    if j < i {
                        assert(before[j].flushes() >= old(self).devices@[j].flushes());
                    }
                }
                assert forall|j: int|
                    0 <= j < i + 1 && ((#[trigger] results@[j]) is Ok
                        || old(self).devices@[j].reliable())
                    implies self.devices@[j].flushes() == old(self).devices@[j].flushes() + 1 by {
                    if j < i {
                        assert(taken[j] == results@[j]);
                        assert(self.devices@[j] == before[j]);
                    }
                }
                assert forall|j: int|
                    0 <= j < self.devices@.len() && old(self).devices@[j].readable() implies (
                #[trigger] self.devices@[j]).readable() by {
                    if j != i {
                        assert(before[j].readable());
                    }
                }
                assert forall|j: int|
                    0 <= j < self.devices@.len() && old(self).devices@[j].reliable() implies (
                #[trigger] self.devices@[j]).reliable() by {
                    if j != i {
                        assert(before[j].reliable());
                    }
                }
                assert forall|j: int| 0 <= j < self.devices@.len() implies (
                #[trigger] self.devices@[j]).unflushed().subset_of(
                    old(self).devices@[j].unflushed(),
                ) by {
                    if j != i {
                        assert(before[j].unflushed().subset_of(old(self).devices@[j].unflushed()));
                    }
                }
                assert forall|j: int| 0 <= j < i + 1 && (#[trigger] results@[j]) is Ok
                    implies self.devices@[j].unflushed() == Set::<BlockId>::empty() by {
                    if j < i {
                        assert(taken[j] == results@[j]);
                        assert(self.devices@[j] == before[j]);
                    }
                }
                if all_reliable(old(self).devices@) {
                    assert(before[i as int].reliable());
                    assert forall|j: int| 0 <= j < self.devices@.len() implies (
                    #[trigger] self.devices@[j]).reliable() by {
                        if j != i {
                            assert(before[j].reliable());
                        }
                    }
                    assert forall|j: int| 0 <= j < i + 1 implies (#[trigger] results@[j]) is Ok by {
                        if j < i {
                            assert(taken[j] is Ok);
                        }
                    }
                }
            }
            i += 1;
        }
        proof {
            let old_members = old(self).members();
            let new_members = self.members();
            assert forall|id: BlockId| #[trigger] self.candidates(id) == old(self).candidates(id) by {
                lemma_same_candidates(old_members, new_members, id);
            }
            lemma_errors_of_empty(results@);
            if some_readable(old_members) {
                let k = choose|k: int| 0 <= k < old_members.len()
                    && (#[trigger] old_members[k]).readable();
                assert(new_members[k].readable());
            }
            assert forall|x: BlockId| #[trigger] any_unflushed(new_members).contains(x)
                implies any_unflushed(
                old_members,
            ).contains(x) && !all_ok(results@) by {
                let k = choose|k: int|
                    0 <= k < new_members.len()
                        && (#[trigger] new_members[k]).unflushed().contains(x);
                assert(new_members[k].unflushed().subset_of(old_members[k].unflushed()));
                assert(old_members[k].unflushed().contains(x));
                if all_ok(results@) {
                    assert(results@[k] is Ok);
                }
            }
            if all_ok(results@) {
                assert(any_unflushed(new_members) =~= Set::<BlockId>::empty());
            }
            assert forall|j: int|
                0 <= j < new_members.len() && (all_ok(results@) || old_members[j].reliable())
                    implies (
            #[trigger] new_members[j]).flushes() == old_members[j].flushes() + 1 by {
                assert(results@[j] is Ok || old_members[j].reliable());
            }
        }
        write_all_verdict::<D>(results)
    }
}

/// Read-any: where a block has `data` as its only candidate on the mirror,
/// as after a successful write, every successful read of the mirror returns
/// `data`, whichever member answers; and the mirror has only that candidate
/// as soon as every member has.
pub proof fn lemma_read_any<D: BlockDevice>(mirror: &Raid1Device<D>, id: BlockId, data: Seq<u8>)
    requires
        mirror.valid(),
        forall|i: int|
            0 <= i < mirror.members().len()
                ==> (#[trigger] mirror.members()[i]).candidates(id) == set![
                data,
            ],
    ensures
        mirror.candidates(id) == set![data],
        forall|image: Seq<u8>| mirror.candidates(id).contains(image) ==> image == data,
{
    assert forall|image: Seq<u8>| mirror.candidates(id).contains(image) == (image == data) by {
        if image == data {
            assert(mirror.members()[0].candidates(id).contains(image));
        }
        if mirror.candidates(id).contains(image) {
            let i = choose|i: int|
                0 <= i < mirror.members().len()
                    && (#[trigger] mirror.members()[i]).candidates(id).contains(
                    image,
                );
            assert(mirror.members()[i].candidates(id) == set![data]);
        }
    }
    assert(mirror.candidates(id) =~= set![data]);
}

/// Write-all: where a block has `data` as its only candidate on the mirror,
/// no member has any other candidate for it, so a successful read of any
/// single member returns `data`.
pub proof fn lemma_write_all<D: BlockDevice>(
    mirror: &Raid1Device<D>,
    id: BlockId,
    data: Seq<u8>,
    member: int,
    image: Seq<u8>,
)
    requires
        mirror.candidates(id) == set![data],
        0 <= member < mirror.members().len(),
        mirror.members()[member].candidates(id).contains(image),
    ensures
        image == data,
{
    assert(mirror.candidates(id).contains(image));
}

} // verus!
