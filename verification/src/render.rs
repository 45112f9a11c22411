//! How a block is drawn: a callback that all copies of a block share and that can be replaced
//! under them.

use vstd::prelude::*;
use parking_lot::Mutex;
use std::sync::Arc;

verus! {

/// The number under which the program keeps a callback that draws a block.
#[derive(Clone, Copy, Debug, Default, PartialEq, Eq, Hash, Structural)]
pub struct RenderBlock(pub u64);

/// `lock_api::Mutex`, which `parking_lot::Mutex` names: a lock with the value it guards.
#[verifier::external_type_specification]
#[verifier::external_body]
#[verifier::reject_recursive_types(R)]
#[verifier::reject_recursive_types(T)]
pub struct ExMutex<R, T: ?Sized>(parking_lot::lock_api::Mutex<R, T>);

/// `parking_lot::RawMutex`, the lock inside a `parking_lot::Mutex`.
#[verifier::external_type_specification]
#[verifier::external_body]
pub struct ExRawMutex(parking_lot::RawMutex);

/// The callbacks that a lock guards at one time or another, over its whole life. To Verus a lock is
/// no more than its identity, which stays while what it guards changes under shared references; so
/// this names all that it ever guards, and nothing names what it guards at a given moment.
pub uninterp spec fn ever_guarded(lock: Mutex<RenderBlock>) -> Set<RenderBlock>;

/// Calls `parking_lot::Mutex::new`. The new lock guards the callback it is given. That this stays
/// so until the next `store` is not claimed.
#[verifier::external_body]
fn new_lock(render: RenderBlock) -> (lock: Mutex<RenderBlock>)
    ensures
        ever_guarded(lock).contains(render),
{
    Mutex::new(render)
}

/// Calls `parking_lot::Mutex::lock`, stores through the guard, and reads back through the same
/// guard what the lock now guards: the callback that was stored. How long it stays there is not
/// claimed. No guard outlives the functions of this module, so the call waits for other threads
/// alone.
#[verifier::external_body]
fn store(lock: &Mutex<RenderBlock>, render: RenderBlock) -> (stored: RenderBlock)
    ensures
        stored == render,
        ever_guarded(*lock).contains(stored),
{
    let mut guard = lock.lock();
    *guard = render;
    *guard
}

/// Calls `parking_lot::Mutex::lock` and reads through the guard. The result is a callback that the
/// lock guards at some time. Which of them is not claimed: another holder of the lock may have
/// stored one at any time.
#[verifier::external_body]
fn load(lock: &Mutex<RenderBlock>) -> (render: RenderBlock)
    ensures
        ever_guarded(*lock).contains(render),
{
    *lock.lock()
}

/// The place where the copies of one block find their callback.
pub struct RenderSlot {
    lock: Arc<Mutex<RenderBlock>>,
}

impl Clone for RenderSlot {
    /// The same place, not another one.
    fn clone(&self) -> (copy: Self)
        ensures
            copy == *self,
    {
        RenderSlot { lock: self.lock.clone() }
    }
}

impl RenderSlot {
    /// The callback stands here at one time or another: the slot was made with it, or it was put
    /// here later, through this copy of the slot or another.
    pub closed spec fn ever_holds(self, render: RenderBlock) -> bool {
        ever_guarded(*self.lock).contains(render)
    }

    pub fn new(render: RenderBlock) -> (slot: Self)
        ensures
            slot.ever_holds(render),
    {
        RenderSlot { lock: Arc::new(new_lock(render)) }
    }

    /// Replaces the callback for all copies of the block.
    pub fn replace(&self, render: RenderBlock)
        ensures
            self.ever_holds(render),
    {
        let _stored: RenderBlock = store(&self.lock, render);
    }

    /// The callback at the time of the call.
    pub fn current(&self) -> (render: RenderBlock)
        ensures
            self.ever_holds(render),
    {
        load(&self.lock)
    }
}

} // verus!
