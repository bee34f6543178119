use vstd::prelude::*;

verus! {

/// Errno value for an invalid argument.
pub const EINVAL: i32 = 22;

/// Errno value for a timer that ran out.
pub const ETIME: i32 = 62;

/// Errno value for an operation that was not carried out.
pub const ECANCELED: i32 = 125;

/// The status a semaphore-creation call returns: a null result pointer is
/// rejected, every other call succeeds (the semaphore object itself is the
/// platform layer's to allocate).
pub fn __sys_sem_init(sem: u64, value: u32) -> (r: i32)
    ensures
        r == if sem == 0 {
            -EINVAL
        } else {
            0
        },
{
    let _ = value;
    if sem == 0 {
        -EINVAL
    } else {
        0
    }
}

/// The status a semaphore-destruction call returns: only a null pointer is
/// rejected.
pub fn __sys_sem_destroy(sem: u64) -> (r: i32)
    ensures
        r == if sem == 0 {
            -EINVAL
        } else {
            0
        },
{
    if sem == 0 {
        -EINVAL
    } else {
        0
    }
}

/// The status a semaphore-release call returns: only a null pointer is
/// rejected; the release itself is the platform layer's.
pub fn __sys_sem_post(sem: u64) -> (r: i32)
    ensures
        r == if sem == 0 {
            -EINVAL
        } else {
            0
        },
{
    if sem == 0 {
        -EINVAL
    } else {
        0
    }
}

/// The status a non-blocking acquire returns, given whether the semaphore
/// could be taken: a null pointer is invalid, a failed acquire is reported
/// as cancelled.
pub fn __sys_sem_trywait(sem: u64, acquired: bool) -> (r: i32)
    ensures
        r == if sem == 0 {
            -EINVAL
        } else if acquired {
            0
        } else {
            -ECANCELED
        },
{
    if sem == 0 {
        -EINVAL
    } else if acquired {
        0
    } else {
        -ECANCELED
    }
}

/// The absolute wakeup time of a timed acquire: the current processor
/// ticks plus a thousand ticks per millisecond, or no deadline at all when
/// the timeout is zero.
pub fn sem_wakeup_time(ticks: u64, ms: u32) -> (r: Option<u64>)
    requires
        ticks + (ms as u64) * 1000 <= u64::MAX,
    ensures
        r == if ms > 0 {
            Some((ticks + (ms as u64) * 1000) as u64)
        } else {
            None::<u64>
        },
{
    if ms > 0 {
        Some(ticks + (ms as u64) * 1000)
    } else {
        None
    }
}

/// The status a timed acquire returns, given whether the semaphore was
/// taken before the deadline: a null pointer is invalid, running out of
/// time is reported as such.
pub fn __sys_sem_timedwait(sem: u64, acquired: bool) -> (r: i32)
    ensures
        r == if sem == 0 {
            -EINVAL
        } else if acquired {
            0
        } else {
            -ETIME
        },
{
    if sem == 0 {
        -EINVAL
    } else if acquired {
        0
    } else {
        -ETIME
    }
}

} // verus!
