//! The store of the nodes, and the record of what the index asks of it.

use crate::error::ErrorType;
use crate::node::{Held, Node};
use vstd::prelude::*;

verus! {

/// Where the nodes live: one object per node id. What a call returns is for
/// the store to decide; the index relies on none of it.
pub trait Store {
    /// The node that was last written under `id`.
    fn read(&self, id: u64) -> Result<Node, ErrorType>;

    /// Keeps the node under its id.
    fn write(&mut self, node: &Node) -> Result<(), ErrorType>;

    /// Marks the node under `id` for deletion; marking it twice is marking it
    /// once.
    fn schedule_delete(&mut self, id: u64) -> Result<(), ErrorType>;
}

/// The decimal digits of `n` in ASCII, the most significant first.
pub open spec fn decimal(n: nat) -> Seq<u8>
    decreases n,
{
    if n < 10 {
        seq![(48 + n) as u8]
    } else {
        decimal(n / 10).push((48 + n % 10) as u8)
    }
}

/// The name of the object that keeps the node `id` in a store of one object
/// per node: the id in decimal.
pub fn object_name(id: u64) -> (r: Vec<u8>)
    ensures
        r@ == decimal(id as nat),
    decreases id,
{
    if id < 10 {
        let mut out: Vec<u8> = Vec::new();
        out.push(48 + id as u8);
        assert(out@ =~= seq![(48 + id) as u8]);
        out
    } else {
        let mut out = object_name(id / 10);
        out.push(48 + (id % 10) as u8);
        out
    }
}

/// There is no first failure exactly where every answer is a success; and a
/// first failure is the failure of an answer before which every answer is a
/// success.
pub proof fn lemma_first_failure(answers: Seq<Result<(), ErrorType>>)
    ensures
        first_failure(answers) is None <==> forall|i: int|
            0 <= i < answers.len() ==> (#[trigger] answers[i]) is Ok,
        first_failure(answers) matches Some(e) ==> exists|i: int|
            {
                &&& 0 <= i < answers.len()
                &&& #[trigger] answers[i] == Err::<(), ErrorType>(e)
                &&& forall|j: int| 0 <= j < i ==> (#[trigger] answers[j]) is Ok
            },
    decreases answers.len(),
{
    if answers.len() > 0 {
        let front = answers.drop_last();
        lemma_first_failure(front);
        let n = front.len() as int;
        if first_failure(front) is None {
            assert forall|j: int| 0 <= j < n implies (#[trigger] answers[j]) is Ok by {
                assert(front[j] is Ok);
            }
            if answers.last() is Err {
                assert(answers[n] == Err::<(), ErrorType>(answers.last()->Err_0));
            } else {
                assert forall|i: int| 0 <= i < answers.len() implies (#[trigger] answers[i])
                    is Ok by {
                    if i < n {
                        assert(front[i] is Ok);
                    }
                }
            }
        } else {
            let e = first_failure(front)->0;
            let i = choose|i: int|
                {
                    &&& 0 <= i < front.len()
                    &&& #[trigger] front[i] == Err::<(), ErrorType>(e)
                    &&& forall|j: int| 0 <= j < i ==> (#[trigger] front[j]) is Ok
                };
            assert(answers[i] == Err::<(), ErrorType>(e));
            assert forall|j: int| 0 <= j < i implies (#[trigger] answers[j]) is Ok by {
                assert(front[j] is Ok);
            }
        }
    }
}

/// What the store answered to the deletions asked for since `before`.
pub open spec fn answers_since<S: Store>(
    before: StoreLog<S>,
    now: StoreLog<S>,
) -> Seq<Result<(), ErrorType>> {
    now.delete_answers().skip(before.delete_answers().len() as int)
}

/// `now` is `before` with more at its end.
pub open spec fn grown_from<T>(now: Seq<T>, before: Seq<T>) -> bool {
    &&& before.len() <= now.len()
    &&& forall|i: int| 0 <= i < before.len() ==> #[trigger] now[i] == before[i]
}

/// A node as it was handed to the store.
pub struct Written {
    pub id: u64,
    pub epoch: u64,
    pub level: u32,
    /// What the node held.
    pub held: Held,
    /// What the store answered.
    pub answer: Result<(), ErrorType>,
}

/// The first failure among the answers, if one of them is a failure.
pub open spec fn first_failure(answers: Seq<Result<(), ErrorType>>) -> Option<ErrorType>
    decreases answers.len(),
{
    if answers.len() == 0 {
        None
    } else {
        match first_failure(answers.drop_last()) {
            Some(e) => Some(e),
            None => match answers.last() {
                Ok(_) => None,
                Err(e) => Some(e),
            },
        }
    }
}

/// A store together with the record of the writes and the deletions that
/// were asked of it through this handle.
pub struct StoreLog<S: Store> {
    store: S,
    written: Ghost<Seq<Written>>,
    scheduled: Ghost<Seq<u64>>,
    answered: Ghost<Seq<Result<(), ErrorType>>>,
}

impl<S: Store> StoreLog<S> {
    /// The nodes handed to the store, in order.
    pub closed spec fn written(&self) -> Seq<Written> {
        self.written@
    }

    /// The ids whose deletion was asked for, in order.
    pub closed spec fn scheduled(&self) -> Seq<u64> {
        self.scheduled@
    }

    /// What the store answered to each deletion asked for, in order.
    pub closed spec fn delete_answers(&self) -> Seq<Result<(), ErrorType>> {
        self.answered@
    }

    /// Since `before`, nodes were written in the epoch `epoch` only, and no
    /// deletion was asked for.
    pub open spec fn wrote_since(&self, before: &StoreLog<S>, epoch: u64) -> bool {
        &&& grown_from(self.written(), before.written())
        &&& forall|i: int|
            before.written().len() <= i < self.written().len() ==> (#[trigger] self.written()[i]).epoch
                == epoch
        &&& self.scheduled() == before.scheduled()
        &&& self.delete_answers() == before.delete_answers()
    }

    /// Since `before`, no node above the level `top` was written.
    pub open spec fn wrote_up_to(&self, before: &StoreLog<S>, top: int) -> bool {
        &&& grown_from(self.written(), before.written())
        &&& forall|i: int|
            before.written().len() <= i < self.written().len() ==> (#[trigger] self.written()[i]).level
                <= top
    }

    /// A handle on `store` with nothing recorded yet.
    pub fn new(store: S) -> (r: StoreLog<S>)
        ensures
            r.inner() == store,
            r.written() == Seq::<Written>::empty(),
            r.scheduled() == Seq::<u64>::empty(),
            r.delete_answers() == Seq::<Result<(), ErrorType>>::empty(),
    {
        StoreLog {
            store: store,
            written: Ghost(Seq::empty()),
            scheduled: Ghost(Seq::empty()),
            answered: Ghost(Seq::empty()),
        }
    }

    /// Gives the store back.
    pub fn into_inner(self) -> (r: S)
        ensures
            r == self.inner(),
    {
        self.store
    }

    /// The store, to read from.
    pub fn store(&self) -> (r: &S)
        ensures
            *r == self.inner(),
    {
        &self.store
    }

    /// Reads the node under `id`. A node that does not hold what its kind
    /// must hold is refused as corrupt.
    pub fn read(&self, id: u64) -> (r: Result<Node, ErrorType>)
        ensures
            self.reads(id, r),
            r is Ok ==> r->Ok_0.wf(),
    {
        let raw = self.store.read(id);
        assert(self.answers(id, raw));
        match raw {
            Ok(node) => {
                if node.body.check() {
                    Ok(node)
                } else {
                    Err(ErrorType::Serialization)
                }
            },
            Err(e) => Err(e),
        }
    }

    /// The store behind the handle.
    pub closed spec fn inner(&self) -> S {
        self.store
    }

    /// `raw` is an answer of the store to a read of `id`.
    pub open spec fn answers(&self, id: u64, raw: Result<Node, ErrorType>) -> bool {
        call_ensures(S::read, (&self.inner(), id), raw)
    }

    /// What becomes of an answer of the store: a node that does not hold what
    /// its kind must hold is refused as corrupt, any other answer is kept.
    pub open spec fn checked(raw: Result<Node, ErrorType>) -> Result<Node, ErrorType> {
        match raw {
            Ok(node) => if node.wf() {
                Ok(node)
            } else {
                Err(ErrorType::Serialization)
            },
            Err(e) => Err(e),
        }
    }

    /// `r` is what reading `id` gives: an answer of the store, checked.
    pub open spec fn reads(&self, id: u64, r: Result<Node, ErrorType>) -> bool {
        exists|raw: Result<Node, ErrorType>|
            #[trigger] self.answers(id, raw) && r == StoreLog::<S>::checked(raw)
    }

    /// Hands a node to the store, and records the node and the store's
    /// answer.
    pub fn write(&mut self, node: &Node) -> (r: Result<(), ErrorType>)
        requires
            node.wf(),
        ensures
            final(self).written() == old(self).written().push(
                Written {
                    id: node.header.id,
                    epoch: node.header.epoch,
                    level: node.body.spec_level(),
                    held: node.body.held(),
                    answer: r,
                },
            ),
            final(self).scheduled() == old(self).scheduled(),
            final(self).delete_answers() == old(self).delete_answers(),
    {
        let r = self.store.write(node);
        proof {
            self.written@ = self.written@.push(
                Written {
                    id: node.header.id,
                    epoch: node.header.epoch,
                    level: node.body.spec_level(),
                    held: node.body.held(),
                    answer: r,
                },
            );
        }
        r
    }

    /// Asks the store to delete the node under `id`, and records the id and
    /// the store's answer.
    pub fn schedule_delete(&mut self, id: u64) -> (r: Result<(), ErrorType>)
        ensures
            final(self).scheduled() == old(self).scheduled().push(id),
            final(self).delete_answers() == old(self).delete_answers().push(r),
            final(self).written() == old(self).written(),
    {
        let r = self.store.schedule_delete(id);
        proof {
            self.scheduled@ = self.scheduled@.push(id);
            self.answered@ = self.answered@.push(r);
        }
        r
    }

    /// Writing in one epoch, step after step, is writing in that epoch.
    pub proof fn lemma_wrote_since_transitive(
        &self,
        middle: &StoreLog<S>,
        before: &StoreLog<S>,
        epoch: u64,
    )
        requires
            middle.wrote_since(before, epoch),
            self.wrote_since(middle, epoch),
        ensures
            self.wrote_since(before, epoch),
    {
        let a = before.written();
        let b = middle.written();
        let c = self.written();
        assert forall|i: int| 0 <= i < a.len() implies #[trigger] c[i] == a[i] by {
            assert(b[i] == a[i]);
            assert(c[i] == b[i]);
        }
        assert forall|i: int| a.len() <= i < c.len() implies (#[trigger] c[i]).epoch == epoch by {
            if i < b.len() {
                assert(c[i] == b[i]);
                assert(b[i].epoch == epoch);
            }
        }
    }

    /// Writing up to one level and then up to another is writing up to the
    /// higher of the two.
    pub proof fn lemma_wrote_up_to_transitive(
        &self,
        middle: &StoreLog<S>,
        before: &StoreLog<S>,
        first: int,
        second: int,
        top: int,
    )
        requires
            middle.wrote_up_to(before, first),
            self.wrote_up_to(middle, second),
            first <= top,
            second <= top,
        ensures
            self.wrote_up_to(before, top),
    {
        let a = before.written();
        let b = middle.written();
        let c = self.written();
        assert forall|i: int| 0 <= i < a.len() implies #[trigger] c[i] == a[i] by {
            assert(b[i] == a[i]);
            assert(c[i] == b[i]);
        }
        assert forall|i: int| a.len() <= i < c.len() implies (#[trigger] c[i]).level <= top by {
            if i < b.len() {
                assert(c[i] == b[i]);
                assert(b[i].level <= first);
            }
        }
    }
}

} // verus!
