//! What the host does for a function with checkpoints.

use vstd::prelude::*;

verus! {

/// The answer of the host when it is asked whether to migrate, and the number of
/// checkpoints that it counts from then on. It asks for a migration when more
/// than `limit` checkpoints were counted, and starts counting anew.
pub open spec fn answer(checkpoint_num: int, limit: int) -> (bool, int) {
    if checkpoint_num > limit {
        (true, 0)
    } else {
        (false, checkpoint_num + 1)
    }
}

/// Answers whether to migrate. The result is one for a migration and zero
/// otherwise, as the function with checkpoints expects it.
pub fn should_migrate(checkpoint_num: &mut i32, limit: i32) -> (result: i32)
    requires
        *old(checkpoint_num) <= limit ==> *old(checkpoint_num) < i32::MAX,
    ensures
        result == (if answer(*old(checkpoint_num) as int, limit as int).0 {
            1int
        } else {
            0int
        }),
        *final(checkpoint_num) == answer(*old(checkpoint_num) as int, limit as int).1,
{
    if *checkpoint_num > limit {
        *checkpoint_num = 0;
        1
    } else {
        *checkpoint_num = *checkpoint_num + 1;
        0
    }
}

/// The number of checkpoints that the host counts after it was asked a number of
/// times.
pub open spec fn counted(limit: int, times: nat) -> int
    decreases times,
{
    if times == 0 {
        0
    } else {
        answer(counted(limit, (times - 1) as nat), limit).1
    }
}

/// The host asks for a migration at regular intervals: after each `limit + 1`
/// checkpoints at which it does not.
pub proof fn law_migrates_regularly(limit: int, times: nat)
    requires
        limit >= 0,
    ensures
        counted(limit, times) == times as int % (limit + 2),
        answer(counted(limit, times), limit).0 == (times as int % (limit + 2) == limit + 1),
    decreases times,
{
    let period = limit + 2;
    if times > 0 {
        let before = (times - 1) as nat;
        law_migrates_regularly(limit, before);
        let rest = before as int % period;
        let full = before as int / period;
        vstd::arithmetic::div_mod::lemma_fundamental_div_mod(before as int, period);
        if rest == limit + 1 {
            assert(times as int == period * (full + 1)) by (nonlinear_arith)
                requires
                    times as int == period * full + rest + 1,
                    rest + 1 == period,
            ;
            vstd::arithmetic::div_mod::lemma_fundamental_div_mod_converse(
                times as int,
                period,
                full + 1,
                0,
            );
        } else {
            vstd::arithmetic::div_mod::lemma_fundamental_div_mod_converse(
                times as int,
                period,
                full,
                rest + 1,
            );
        }
    } else {
        assert(0int % period == 0) by {
            vstd::arithmetic::div_mod::lemma_small_mod(0, period as nat);
        }
    }
}

/// The memory of a function after the host was asked to restore it: the saved
/// bytes over its start, if the function resumes.
pub open spec fn restored(memory: Seq<u8>, saved: Seq<u8>, is_resuming: bool) -> Seq<u8> {
    if is_resuming {
        Seq::new(
            memory.len(),
            |i: int|
                if i < saved.len() {
                    saved[i]
                } else {
                    memory[i]
                },
        )
    } else {
        memory
    }
}

/// Restores the memory of a function that resumes from the saved bytes.
pub fn restore_memory(memory: &mut [u8], saved: &[u8], is_resuming: bool)
    requires
        is_resuming ==> saved@.len() <= old(memory)@.len(),
    ensures
        final(memory)@ == restored(old(memory)@, saved@, is_resuming),
{
    if is_resuming {
        let ghost before = memory@;
        let mut i: usize = 0;
        while i < saved.len()
            invariant
                i <= saved@.len() <= before.len(),
                memory@.len() == before.len(),
                forall|j: int|
                    0 <= j < before.len() ==> #[trigger] memory@[j] == (if j < i {
                        saved@[j]
                    } else {
                        before[j]
                    }),
            decreases saved@.len() - i,
        {
            memory[i] = saved[i];
            i = i + 1;
        }
        assert(memory@ =~= restored(before, saved@, true));
    }
}

/// A memory that is restored from all the bytes that it had is as it was.
pub proof fn law_restored_whole(memory: Seq<u8>, saved: Seq<u8>)
    requires
        memory.len() == saved.len(),
    ensures
        restored(memory, saved, true) == saved,
{
    assert(restored(memory, saved, true) =~= saved);
}

/// A point in time in nanoseconds, given by its seconds and nanoseconds.
pub open spec fn nanoseconds(sec: int, nsec: int) -> int {
    sec * 1_000_000_000 + nsec
}

/// The time between two points in nanoseconds, each given by its seconds and
/// nanoseconds.
pub open spec fn nanoseconds_between(sec1: int, nsec1: int, sec2: int, nsec2: int) -> int {
    let first = nanoseconds(sec1, nsec1);
    let second = nanoseconds(sec2, nsec2);
    if first <= second {
        second - first
    } else {
        first - second
    }
}

/// Gives the time between two points in nanoseconds.
pub fn elapsed_nanoseconds(sec1: i64, nsec1: i64, sec2: i64, nsec2: i64) -> (elapsed: u64)
    requires
        nanoseconds_between(sec1 as int, nsec1 as int, sec2 as int, nsec2 as int) <= u64::MAX,
    ensures
        elapsed == nanoseconds_between(sec1 as int, nsec1 as int, sec2 as int, nsec2 as int),
{
    let first: i128 = sec1 as i128 * 1_000_000_000 + nsec1 as i128;
    let second: i128 = sec2 as i128 * 1_000_000_000 + nsec2 as i128;
    if first <= second {
        (second - first) as u64
    } else {
        (first - second) as u64
    }
}

/// The times of consecutive stretches add up to the time of the whole.
pub proof fn law_times_add_up(
    sec1: int,
    nsec1: int,
    sec2: int,
    nsec2: int,
    sec3: int,
    nsec3: int,
)
    requires
        nanoseconds(sec1, nsec1) <= nanoseconds(sec2, nsec2) <= nanoseconds(sec3, nsec3),
    ensures
        nanoseconds_between(sec1, nsec1, sec3, nsec3) == nanoseconds_between(
            sec1,
            nsec1,
            sec2,
            nsec2,
        ) + nanoseconds_between(sec2, nsec2, sec3, nsec3),
{
}

/// The number of checkpoints that the host counts after it was asked a number of times,
/// where it had counted some before.
pub open spec fn counted_from(start: int, limit: int, times: nat) -> int
    decreases times,
{
    if times == 0 {
        start
    } else {
        answer(counted_from(start, limit, (times - 1) as nat), limit).1
    }
}

/// Whatever the host has counted, it lets pass as many checkpoints as are left up to and
/// including the limit, asks for a migration at the next one, and counts from zero then. A
/// count above the limit leaves none.
pub proof fn law_migrates_when_limit_is_passed(start: int, limit: int, times: nat)
    ensures
        start <= limit && times <= limit - start + 1 ==> counted_from(start, limit, times) == start
            + times,
        start <= limit && times <= limit - start ==> !answer(
            counted_from(start, limit, times),
            limit,
        ).0,
        start <= limit && times == limit - start + 1 ==> answer(
            counted_from(start, limit, times),
            limit,
        ) == (true, 0int),
        start > limit ==> answer(start, limit) == (true, 0int),
    decreases times,
{
    if times > 0 {
        law_migrates_when_limit_is_passed(start, limit, (times - 1) as nat);
    }
}

/// A memory keeps its size when it is restored. If the function resumes, it starts with
/// the saved bytes and goes on as it was; otherwise it stays as it was.
pub proof fn law_restored(memory: Seq<u8>, saved: Seq<u8>, is_resuming: bool)
    requires
        is_resuming ==> saved.len() <= memory.len(),
    ensures
        is_resuming ==> restored(memory, saved, is_resuming) == saved + memory.subrange(
            saved.len() as int,
            memory.len() as int,
        ),
        !is_resuming ==> restored(memory, saved, is_resuming) == memory,
{
    if is_resuming {
        assert(restored(memory, saved, is_resuming) =~= saved + memory.subrange(
            saved.len() as int,
            memory.len() as int,
        ));
    }
}

/// The time between two points is the same in both directions, and grows by one for each
/// nanosecond and by a thousand million for each second by which the later point moves.
pub proof fn law_time_between(sec: int, nsec: int, seconds: int, nanos: int)
    ensures
        seconds >= 0 && nanos >= 0 ==> nanoseconds_between(sec, nsec, sec + seconds, nsec + nanos)
            == seconds * 1_000_000_000 + nanos,
        nanoseconds_between(sec, nsec, sec + seconds, nsec + nanos) == nanoseconds_between(
            sec + seconds,
            nsec + nanos,
            sec,
            nsec,
        ),
        nanoseconds_between(sec, nsec, sec + seconds, nsec + nanos) >= seconds * 1_000_000_000
            + nanos,
        nanoseconds_between(sec, nsec, sec + seconds, nsec + nanos) == nanoseconds_between(
            0,
            0,
            seconds,
            nanos,
        ),
{
}

} // verus!
