//! Repeating a read whose file was compacted in the meantime.
//!
//! A read opens the file of its tree and then works on what it opened. Where the
//! file was compacted in between, the read starts again on the new file.

use vstd::prelude::*;
use crate::error::{AbortError, Error};

verus! {

/// The answer of an attempt whose file was compacted while it was open.
pub open spec fn compacted<R>(answer: Result<R, Error>) -> bool {
    answer matches Err(error) && error.kind is TreeCompacted
}

/// As [`compacted`], for an attempt that the caller's own code may abort.
pub open spec fn compacted_abortable<R, E>(answer: Result<R, AbortError<E>>) -> bool {
    answer matches Err(AbortError::Nebari(error)) && error.kind is TreeCompacted
}

/// No answer to attempt `n` asks for another attempt.
pub open spec fn settles<R, F: Fn(u64) -> Result<R, Error>>(func: F, n: u64) -> bool {
    forall|answer: Result<R, Error>|
        #[trigger] call_ensures(func, (n,), answer) ==> !compacted(answer)
}

/// Some answer to attempt `n` asks for another attempt.
pub open spec fn may_repeat<R, F: Fn(u64) -> Result<R, Error>>(func: F, n: u64) -> bool {
    exists|answer: Result<R, Error>|
        #[trigger] call_ensures(func, (n,), answer) && compacted(answer)
}

/// `answer` is the first answer that asks for no other attempt.
pub open spec fn first_settled<R, F: Fn(u64) -> Result<R, Error>>(
    func: F,
    answer: Result<R, Error>,
) -> bool {
    exists|n: u64|
        {
            &&& #[trigger] call_ensures(func, (n,), answer)
            &&& forall|m: u64| m < n ==> #[trigger] may_repeat(func, m)
        }
}

/// As [`settles`], for attempts that the caller's own code may abort.
pub open spec fn settles_abortable<R, E, F: Fn(u64) -> Result<R, AbortError<E>>>(
    func: F,
    n: u64,
) -> bool {
    forall|answer: Result<R, AbortError<E>>|
        #[trigger] call_ensures(func, (n,), answer) ==> !compacted_abortable(answer)
}

/// As [`may_repeat`], for attempts that the caller's own code may abort.
pub open spec fn may_repeat_abortable<R, E, F: Fn(u64) -> Result<R, AbortError<E>>>(
    func: F,
    n: u64,
) -> bool {
    exists|answer: Result<R, AbortError<E>>|
        #[trigger] call_ensures(func, (n,), answer) && compacted_abortable(answer)
}

/// As [`first_settled`], for attempts that the caller's own code may abort.
pub open spec fn first_settled_abortable<R, E, F: Fn(u64) -> Result<R, AbortError<E>>>(
    func: F,
    answer: Result<R, AbortError<E>>,
) -> bool {
    exists|n: u64|
        {
            &&& #[trigger] call_ensures(func, (n,), answer)
            &&& forall|m: u64| m < n ==> #[trigger] may_repeat_abortable(func, m)
        }
}

/// Runs `func` until its answer is not that the tree was compacted, and returns
/// that answer. `func` is given the number of the attempt, from 0. Compaction
/// must leave the reader in peace at some attempt: otherwise no answer would come.
pub fn catch_compaction_and_retry<R, F: Fn(u64) -> Result<R, Error>>(func: F) -> (result: Result<
    R,
    Error,
>)
    requires
        forall|n: u64| #[trigger] call_requires(func, (n,)),
        exists|n: u64| #[trigger] settles(func, n),
    ensures
        !compacted(result),
        first_settled(func, result),
{
    let ghost last: u64 = choose|n: u64| #[trigger] settles(func, n);
    let mut attempt: u64 = 0;
    loop
        invariant
            forall|n: u64| #[trigger] call_requires(func, (n,)),
            settles(func, last),
            attempt <= last,
            forall|m: u64| m < attempt ==> #[trigger] may_repeat(func, m),
        decreases last - attempt,
    {
        match func(attempt) {
            Ok(result) => {
                return Ok(result);
            },
            Err(error) => {
                if error.kind.is_tree_compacted() {
                    proof {
                        let answer: Result<R, Error> = Err(error);
                        assert(call_ensures(func, (attempt,), answer) && compacted(answer));
                        assert(may_repeat(func, attempt));
                        assert(attempt != last);
                    }
                    attempt = attempt + 1;
                    continue;
                }
                return Err(error);
            },
        }
    }
}

/// As [`catch_compaction_and_retry`], for attempts that the caller's own code may
/// abort. An error of the caller is returned at once.
pub fn catch_compaction_and_retry_abortable<R, E, F: Fn(u64) -> Result<R, AbortError<E>>>(
    func: F,
) -> (result: Result<R, AbortError<E>>)
    requires
        forall|n: u64| #[trigger] call_requires(func, (n,)),
        exists|n: u64| #[trigger] settles_abortable(func, n),
    ensures
        !compacted_abortable(result),
        first_settled_abortable(func, result),
{
    let ghost last: u64 = choose|n: u64| #[trigger] settles_abortable(func, n);
    let mut attempt: u64 = 0;
    loop
        invariant
            forall|n: u64| #[trigger] call_requires(func, (n,)),
            settles_abortable(func, last),
            attempt <= last,
            forall|m: u64| m < attempt ==> #[trigger] may_repeat_abortable(func, m),
        decreases last - attempt,
    {
        match func(attempt) {
            Ok(result) => {
                return Ok(result);
            },
            Err(AbortError::Nebari(error)) => {
                if error.kind.is_tree_compacted() {
                    proof {
                        let answer: Result<R, AbortError<E>> = Err(AbortError::Nebari(error));
                        assert(call_ensures(func, (attempt,), answer));
                        assert(compacted_abortable(answer));
                        assert(may_repeat_abortable(func, attempt));
                        assert(attempt != last);
                    }
                    attempt = attempt + 1;
                    continue;
                }
                return Err(AbortError::Nebari(error));
            },
            Err(other) => {
                return Err(other);
            },
        }
    }
}

} // verus!
