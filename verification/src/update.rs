//! Changing several keys at once, or a key that depends on what it holds.

use vstd::prelude::*;
use crate::bytes;
use crate::bytes::{copy_bytes, same_optional};
use crate::error::CompareAndSwapError;
use crate::model;
use crate::model::{KeyIndex, ModificationResult, Operation};
use crate::state::TreeState;

verus! {

impl TreeState {
    /// Sets `key` to `value`. Returns the value that it had, and its new index.
    pub fn replace(&mut self, key: Vec<u8>, value: Vec<u8>) -> (result: (
        Option<Vec<u8>>,
        KeyIndex,
    ))
        requires
            old(self).wf(),
        ensures
            final(self).wf(),
            final(self)@ == old(self)@.set(key@, value@),
            bytes::optional(result.0) == old(self)@.value_of(key@),
            result.1 == old(self)@.next_index(value@),
    {
        let existing = self.get(key.as_slice());
        let index = self.set(key, value);
        (existing, index)
    }

    /// Sets `key` to `new`, or removes it where there is none, if its value is
    /// `expected`.
    pub fn compare_and_swap(
        &mut self,
        key: &[u8],
        expected: Option<&[u8]>,
        new: Option<Vec<u8>>,
    ) -> (result: Result<(), CompareAndSwapError>)
        requires
            old(self).wf(),
        ensures
            final(self).wf(),
            match result {
                Ok(()) => {
                    &&& old(self)@.value_of(key@) == model::expected_bytes(expected)
                    &&& final(self)@ == old(self)@.put(key@, bytes::optional(new))
                },
                Err(CompareAndSwapError::Conflict(existing)) => {
                    &&& old(self)@.value_of(key@) != model::expected_bytes(expected)
                    &&& bytes::optional(existing) == old(self)@.value_of(key@)
                    &&& final(self)@ == old(self)@
                },
                Err(CompareAndSwapError::Error(_)) => false,
            },
    {
        let existing = self.get(key);
        if same_optional(&existing, expected) {
            match new {
                Some(value) => {
                    let _ = self.set(copy_bytes(key), value);
                },
                None => {
                    let _ = self.remove(key);
                },
            }
            Ok(())
        } else {
            Err(CompareAndSwapError::Conflict(existing))
        }
    }

    /// Applies `operation` to each of `keys` in turn. Returns the keys that were
    /// changed.
    pub fn modify(&mut self, keys: Vec<Vec<u8>>, operation: Operation) -> (results: Vec<
        ModificationResult,
    >)
        requires
            old(self).wf(),
            operation.fits(keys@.len()),
        ensures
            final(self).wf(),
            final(self)@ == old(self)@.modified(
                bytes::all_owned(keys@),
                operation,
                keys@.len(),
            ),
            model::changed(results@) == old(self)@.modifications(
                bytes::all_owned(keys@),
                operation,
                keys@.len(),
            ),
    {
        let ghost start = self@;
        let ghost all = bytes::all_owned(keys@);
        let mut results: Vec<ModificationResult> = Vec::new();
        let mut i: usize = 0;
        assert(model::changed(results@) =~= Seq::empty());
        while i < keys.len()
            invariant
                self.wf(),
                operation.fits(keys@.len()),
                all == bytes::all_owned(keys@),
                i <= keys@.len(),
                self@ == start.modified(all, operation, i as nat),
                model::changed(results@) == start.modifications(all, operation, i as nat),
            decreases keys@.len() - i,
        {
            let ghost done = results@;
            assert(all[i as int] == keys@[i as int]@);
            match &operation {
                Operation::SetAll(value) => {
                    let index = self.set(
                        copy_bytes(keys[i].as_slice()),
                        copy_bytes(value.as_slice()),
                    );
                    results.push(
                        ModificationResult {
                            key: copy_bytes(keys[i].as_slice()),
                            index: Some(index),
                        },
                    );
                    assert(model::changed(results@) =~= model::changed(done).push(
                        (all[i as int], Some(index)),
                    ));
                },
                Operation::SetEach(values) => {
                    let index = self.set(
                        copy_bytes(keys[i].as_slice()),
                        copy_bytes(values[i].as_slice()),
                    );
                    results.push(
                        ModificationResult {
                            key: copy_bytes(keys[i].as_slice()),
                            index: Some(index),
                        },
                    );
                    assert(model::changed(results@) =~= model::changed(done).push(
                        (all[i as int], Some(index)),
                    ));
                },
                Operation::Remove => {
                    let removed = self.remove(keys[i].as_slice());
                    if removed.is_some() {
                        results.push(
                            ModificationResult {
                                key: copy_bytes(keys[i].as_slice()),
                                index: None,
                            },
                        );
                        assert(model::changed(results@) =~= model::changed(done).push(
                            (all[i as int], None),
                        ));
                    }
                },
            }
            i = i + 1;
        }
        results
    }
}

} // verus!
