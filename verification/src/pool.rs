//! The pool that writes the trees of a transaction.

use vstd::prelude::*;
use crate::channel;
use crate::channel::{recv, send, try_recv, unbounded};
use crate::error::Error;
use crate::files;
use crate::files::FileManager;
use crate::transaction_tree::{AnyTransactionTree, TransactionTree, TransactionTreeModel};

verus! {

/// The number of processors, by `num_cpus::get`, which always counts at least one.
pub assume_specification[ num_cpus::get ]() -> (count: usize)
    ensures
        count >= 1,
;

/// A pool of up to a given number of threads that have trees written in parallel. How
/// many have been started is counted by those who share the pool.
#[derive(Debug)]
pub struct ThreadPool {
    maximum_threads: usize,
}

/// A pool of threads, as a mathematical value.
pub struct PoolModel {
    /// The threads that may be started.
    pub maximum: usize,
}

impl View for ThreadPool {
    type V = PoolModel;

    closed spec fn view(&self) -> PoolModel {
        PoolModel { maximum: self.maximum_threads }
    }
}

impl PoolModel {
    /// The threads that are wanted to write `trees` trees. For a single tree there's
    /// no reason to split IO across threads.
    pub open spec fn desired(self, trees: nat) -> int {
        if trees <= 1 {
            0
        } else if trees < self.maximum {
            trees as int
        } else {
            self.maximum as int
        }
    }

    /// The pool can write `trees` trees. A single tree needs no thread, several
    /// need one at least. The threads are counted in 16 bits.
    pub open spec fn serves(self, trees: nat) -> bool {
        trees <= 1 || self.maximum > 0 && self.desired(trees) <= u16::MAX
    }

    /// The number of threads after one step towards writing `trees` trees, where there
    /// were `running`.
    pub open spec fn stepped(self, running: u16, trees: nat) -> u16 {
        if running >= self.desired(trees) {
            running
        } else {
            (running + 1) as u16
        }
    }

    /// The number of threads after as many steps as are needed, where there were
    /// `running`.
    pub open spec fn grown(self, running: u16, trees: nat) -> u16 {
        if running >= self.desired(trees) {
            running
        } else {
            self.desired(trees) as u16
        }
    }

    /// The number of threads after each of `steps` has been taken, in turn, by whoever
    /// shares the pool. A step is given by the number of trees that it is taken for.
    pub open spec fn shared(self, steps: Seq<nat>) -> u16
        decreases steps.len(),
    {
        if steps.len() == 0 {
            0
        } else {
            self.stepped(self.shared(steps.drop_last()), steps.last())
        }
    }
}

/// However many share a pool, and however their steps follow each other, together they
/// never start more threads than the pool may have.
pub proof fn law_shared_pool_is_bounded(pool: PoolModel, steps: Seq<nat>)
    requires
        forall|i: int| 0 <= i < steps.len() ==> pool.serves(#[trigger] steps[i]),
    ensures
        pool.shared(steps) <= pool.maximum,
    decreases steps.len(),
{
    if steps.len() > 0 {
        let before = steps.drop_last();
        assert forall|i: int| 0 <= i < before.len() implies pool.serves(#[trigger] before[i]) by {
            assert(before[i] == steps[i]);
        }
        law_shared_pool_is_bounded(pool, before);
        assert(pool.serves(steps[steps.len() - 1]));
    }
}

/// A commit raises the number of threads to what it wants, and no further. For a single
/// tree it starts none. Where there were no more threads than the pool may have, there
/// are no more afterwards.
pub proof fn law_growth_is_bounded(pool: PoolModel, running: u16, trees: nat)
    requires
        pool.serves(trees),
    ensures
        running <= pool.grown(running, trees),
        pool.desired(trees) <= pool.grown(running, trees),
        pool.grown(running, trees) <= running || pool.grown(running, trees) <= pool.desired(trees),
        trees <= 1 ==> pool.grown(running, trees) == running,
        running <= pool.maximum ==> pool.grown(running, trees) <= pool.maximum,
{
}

/// What is to be done about the number of threads.
#[derive(Clone, Copy, Debug, PartialEq, Eq, Structural)]
pub enum Scaling {
    /// There are enough threads.
    Enough,
    /// If there are still `running` threads, there are to be `next`, and one is to
    /// be started.
    Start { running: u16, next: u16 },
}

/// Trees that were handed to the pool, and the first error that came up.
pub struct WrittenTrees {
    pub trees: Vec<TransactionTree>,
    pub failure: Option<Error>,
}

/// The trees, as mathematical values.
pub open spec fn all_trees(trees: Seq<TransactionTree>) -> Seq<TransactionTreeModel> {
    Seq::new(trees.len(), |i: int| trees[i]@)
}

/// The trees after it has been noted for each what came of writing it.
pub open spec fn all_noted(
    trees: Seq<TransactionTreeModel>,
    results: Seq<Result<(), Error>>,
) -> Seq<TransactionTreeModel> {
    Seq::new(trees.len(), |i: int| trees[i].noted(results[i] is Ok))
}

/// Each of the trees is well formed.
pub open spec fn all_wf(trees: Seq<TransactionTree>) -> bool {
    forall|i: int| 0 <= i < trees.len() ==> (#[trigger] trees[i]).wf()
}

/// The same trees after it has been noted of all whether they were written.
pub open spec fn noted_as(
    trees: Seq<TransactionTreeModel>,
    written: bool,
) -> Seq<TransactionTreeModel> {
    Seq::new(trees.len(), |i: int| trees[i].noted(written))
}

/// `trees` are the ones that were handed out as `handed`, in any order, and it has been
/// noted for each that it was written.
pub open spec fn are_written(
    handed: Seq<TransactionTreeModel>,
    trees: Seq<TransactionTree>,
) -> bool {
    all_trees(trees).to_multiset() == noted_as(handed, true).to_multiset()
}

/// `trees` are some of those that were handed out as `handed`, in any order. Whether they
/// were written may have been noted.
pub open spec fn are_handed(
    handed: Seq<TransactionTreeModel>,
    trees: Seq<TransactionTree>,
) -> bool {
    noted_as(all_trees(trees), false).to_multiset().subset_of(
        noted_as(handed, false).to_multiset(),
    )
}

/// Puts together what came of writing each of `trees`. If one has failed, its error is
/// the failure of all.
pub fn gather(trees: Vec<TransactionTree>, results: Vec<Result<(), Error>>) -> (written:
    WrittenTrees)
    requires
        trees@.len() == results@.len(),
    ensures
        written.trees@ == trees@,
        files::first_failure(results@, written.failure),
{
    let ghost all = results@;
    let mut rest = results;
    let mut failure: Option<Error> = None;
    let ghost mut done: int = 0;
    assert(all.take(0) =~= Seq::empty());
    while rest.len() > 0
        invariant
            0 <= done <= all.len(),
            rest@ == all.skip(done),
            files::first_failure(all.take(done), failure),
        decreases rest@.len(),
    {
        let result = rest.remove(0);
        let ghost before = all.take(done);
        let ghost after = all.take(done + 1);
        proof {
            assert(result == all[done]);
            assert(all.skip(done).remove(0) =~= all.skip(done + 1));
            assert(after.drop_last() =~= before);
        }
        if failure.is_none() {
            if let Err(error) = result {
                failure = Some(error);
                assert(after[done] == Err::<(), Error>(error));
                assert(after.take(done) =~= before);
            }
        } else {
            proof {
                let i = choose|i: int|
                    {
                        &&& 0 <= i < before.len()
                        &&& #[trigger] before[i] == Err::<(), Error>(failure->0)
                        &&& files::all_ok(before.take(i))
                    };
                assert(after[i] == before[i]);
                assert(after.take(i) =~= before.take(i));
            }
        }
        proof {
            if failure is None {
                assert forall|i: int| 0 <= i < after.len() implies (#[trigger] after[i]) is Ok by {
                    if i < done {
                        assert(before[i] == after[i]);
                    }
                }
            }
            done = done + 1;
        }
    }
    assert(all.take(done) =~= all);
    WrittenTrees { trees, failure }
}

/// Writes the trees whose places wait in `places`, and reports each place.
fn transaction_commit_thread<M: FileManager>(
    places: &mut flume::Receiver<usize>,
    trees: &mut Vec<TransactionTree>,
    results: &mut Vec<Result<(), Error>>,
    completion_sender: &flume::Sender<usize>,
    completion_receiver: &mut flume::Receiver<usize>,
    files: &mut M,
)
    requires
        all_wf(old(trees)@),
        channel::waiting(*old(places)) == Seq::new(old(trees)@.len(), |i: int| i as usize),
        old(results)@.len() == 0,
        old(trees)@.len() <= usize::MAX,
        channel::feeds(*completion_sender, *old(completion_receiver)),
        channel::waiting(*old(completion_receiver)) == Seq::<usize>::empty(),
    ensures
        all_wf(final(trees)@),
        files::all_wrote(*old(files), all_trees(old(trees)@), final(results)@, *final(files)),
        all_trees(final(trees)@) == all_noted(all_trees(old(trees)@), final(results)@),
        channel::waiting(*final(places)) == Seq::<usize>::empty(),
        channel::waiting(*final(completion_receiver)) == channel::waiting(*old(places)),
{
    let ghost before = all_trees(trees@);
    let ghost all = channel::waiting(*places);
    let ghost count = trees@.len();
    let ghost mut done: int = 0;
    assert(all.skip(0) =~= all);
    assert(all.take(0) =~= Seq::empty());
    loop
        invariant
            all == Seq::new(count, |i: int| i as usize),
            count <= usize::MAX,
            0 <= done <= count,
            trees@.len() == count,
            before.len() == count,
            results@.len() == done,
            all_wf(trees@),
            channel::waiting(*places) == all.skip(done),
            channel::feeds(*completion_sender, *completion_receiver),
            channel::waiting(*completion_receiver) == all.take(done),
            files::all_wrote(*old(files), before.take(done), results@, *files),
            forall|i: int|
                0 <= i < done ==> (#[trigger] trees@[i])@ == before[i].noted(results@[i] is Ok),
            forall|i: int| done <= i < count ==> (#[trigger] trees@[i])@ == before[i],
        ensures
            done == count,
        decreases count - done,
    {
        match try_recv(places) {
            Ok(place) => {
                assert(place == done);
                let ghost then = *files;
                let ghost earlier = results@;
                let outcome = files.write_tree(&trees[place]);
                let ghost answer = outcome;
                let result = trees[place].commit(outcome);
                results.push(result);
                let _ = send(completion_sender, completion_receiver, place);
                proof {
                    files::lemma_wrote_next(
                        *old(files),
                        before.take(done),
                        earlier,
                        then,
                        before[done],
                        answer,
                        *files,
                    );
                    assert(before.take(done).push(before[done]) =~= before.take(done + 1));
                    assert(all.skip(done).drop_first() =~= all.skip(done + 1));
                    assert(all.take(done).push(place) =~= all.take(done + 1));
                    done = done + 1;
                }
            },
            Err(_) => {
                break;
            },
        }
    }
    assert(before.take(done) =~= before);
    assert(all.skip(done) =~= Seq::empty());
    assert(all.take(done) =~= all);
    assert(all_trees(trees@) =~= all_noted(before, results@));
}

impl ThreadPool {
    /// Returns a thread pool that will spawn up to `maximum_threads` to process
    /// file operations.
    #[must_use]
    pub fn new(maximum_threads: usize) -> (pool: ThreadPool)
        ensures
            pool@ == (PoolModel { maximum: maximum_threads }),
    {
        ThreadPool { maximum_threads }
    }

    /// The number of threads that may be started.
    #[must_use]
    pub fn maximum_threads(&self) -> (maximum: usize)
        ensures
            maximum == self@.maximum,
    {
        self.maximum_threads
    }

    /// What is to be done about the number of threads when `running` have been
    /// started and `tree_count` trees wait. There are to be as many threads as
    /// trees, but no more than the pool may have. If we only have one tree, there's no
    /// reason to split IO across threads.
    pub fn scale(&self, running: u16, tree_count: usize) -> (scaling: Scaling)
        requires
            self@.desired(tree_count as nat) <= u16::MAX,
        ensures
            match scaling {
                Scaling::Enough => running >= self@.desired(tree_count as nat),
                Scaling::Start { running: found, next } => {
                    &&& running < self@.desired(tree_count as nat)
                    &&& found == running
                    &&& next == self@.stepped(running, tree_count as nat)
                    &&& next == running + 1
                    &&& next <= self@.maximum
                },
            },
    {
        let desired_threads: usize = if tree_count <= 1 {
            0
        } else if tree_count < self.maximum_threads {
            tree_count
        } else {
            self.maximum_threads
        };
        if (running as usize) >= desired_threads {
            Scaling::Enough
        } else {
            Scaling::Start { running, next: running + 1 }
        }
    }

    /// Has each of `trees` written to `files`, once. `thread_count` is the number of
    /// threads that all who share the pool have started together.
    pub fn commit_trees<M: FileManager>(
        &self,
        thread_count: &mut u16,
        trees: Vec<TransactionTree>,
        files: &mut M,
    ) -> (written: WrittenTrees)
        requires
            all_wf(trees@),
            self@.serves(trees@.len()),
        ensures
            *final(thread_count) == self@.grown(*old(thread_count), trees@.len()),
            all_wf(written.trees@),
            exists|results: Seq<Result<(), Error>>|
                {
                    &&& #[trigger] files::all_wrote(
                        *old(files),
                        all_trees(trees@),
                        results,
                        *final(files),
                    )
                    &&& all_trees(written.trees@) == all_noted(all_trees(trees@), results)
                    &&& files::first_failure(results, written.failure)
                },
    {
        let ghost before = all_trees(trees@);
        let mut trees = trees;
        let mut results: Vec<Result<(), Error>> = Vec::new();
        let tree_count: usize = trees.len();
        // If we only have one tree, there's no reason to split IO across threads. If
        // we have multiple trees, we should split even with one cpu: if one thread
        // blocks, the other can continue executing.
        if tree_count == 1 {
            let outcome = files.write_tree(&trees[0]);
            let ghost answer = outcome;
            let result = trees[0].commit(outcome);
            proof {
                let none = before.take(0);
                assert(files::all_wrote(*old(files), none, results@, *old(files)));
                files::lemma_wrote_next(
                    *old(files),
                    none,
                    results@,
                    *old(files),
                    before[0],
                    answer,
                    *files,
                );
                assert(none.push(before[0]) =~= before);
            }
            results.push(result);
            assert(all_trees(trees@) =~= all_noted(before, results@));
            return gather(trees, results);
        }
        // Push the trees so that any existing threads can begin processing the queue.
        let (sender, mut receiver) = unbounded();
        let (completion_sender, mut completion_receiver) = unbounded();
        let mut place: usize = 0;
        assert(channel::waiting(receiver) =~= Seq::new(0, |i: int| i as usize));
        while place < tree_count
            invariant
                place <= tree_count,
                channel::feeds(sender, receiver),
                channel::waiting(receiver) == Seq::new(place as nat, |i: int| i as usize),
            decreases tree_count - place,
        {
            let _ = send(&sender, &mut receiver, place);
            assert(channel::waiting(receiver) =~= Seq::new(
                (place + 1) as nat,
                |i: int| i as usize,
            ));
            place = place + 1;
        }
        // Scale the queue if needed.
        loop
            invariant
                self@.desired(tree_count as nat) <= u16::MAX,
                *old(thread_count) <= *thread_count,
                *thread_count > *old(thread_count) ==> *thread_count <= self@.desired(
                    tree_count as nat,
                ),
            ensures
                *thread_count >= self@.desired(tree_count as nat),
            decreases u16::MAX - *thread_count,
        {
            match self.scale(*thread_count, tree_count) {
                Scaling::Enough => {
                    break;
                },
                Scaling::Start { next, .. } => {
                    *thread_count = next;
                },
            }
        }
        transaction_commit_thread(
            &mut receiver,
            &mut trees,
            &mut results,
            &completion_sender,
            &mut completion_receiver,
            files,
        );
        // Wait for our results
        let mut received: usize = 0;
        let ghost all = Seq::new(tree_count as nat, |i: int| i as usize);
        assert(all.skip(0) =~= all);
        while received < tree_count
            invariant
                received <= tree_count,
                all == Seq::new(tree_count as nat, |i: int| i as usize),
                channel::waiting(completion_receiver) == all.skip(received as int),
            decreases tree_count - received,
        {
            let _ = recv(&mut completion_receiver);
            assert(all.skip(received as int).drop_first() =~= all.skip(received + 1));
            received = received + 1;
        }
        proof {
            files::lemma_all_wrote_len(*old(files), before, results@, *files);
            assert(all_trees(trees@).len() == trees@.len());
        }
        gather(trees, results)
    }
}

impl Clone for ThreadPool {
    fn clone(&self) -> (pool: ThreadPool)
        ensures
            pool@ == self@,
    {
        ThreadPool { maximum_threads: self.maximum_threads }
    }
}

impl Default for ThreadPool {
    /// A pool with as many threads as there are processors.
    fn default() -> (pool: ThreadPool)
        ensures
            pool@.maximum >= 1,
    {
        ThreadPool::new(num_cpus::get())
    }
}

} // verus!
