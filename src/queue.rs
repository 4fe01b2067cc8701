//! A bounded first-in first-out queue shared between threads, and the
//! registry of upstream services built on it. The queue's contents live in
//! a standard channel and change under other threads, so the contracts here
//! say nothing of them.
use std::sync::mpsc::{Receiver, SyncSender};
use std::sync::{Arc, Mutex, MutexGuard};
use vstd::prelude::*;

use crate::opts::Service;

verus! {

#[verifier::external_type_specification]
#[verifier::external_body]
#[verifier::reject_recursive_types(T)]
pub struct ExSyncSender<T>(SyncSender<T>);

#[verifier::external_type_specification]
#[verifier::external_body]
#[verifier::reject_recursive_types(T)]
pub struct ExReceiver<T>(Receiver<T>);

#[verifier::external_type_specification]
#[verifier::external_body]
#[verifier::reject_recursive_types(T)]
pub struct ExMutex<T: ?Sized>(Mutex<T>);

#[verifier::external_type_specification]
#[verifier::external_body]
#[verifier::reject_recursive_types(T)]
pub struct ExMutexGuard<'a, T: ?Sized + 'a>(MutexGuard<'a, T>);

/// Relies on `std::sync::mpsc::sync_channel`: a channel that holds at most
/// `bound` items.
#[verifier::external_body]
fn bounded_channel<T>(bound: usize) -> (r: (SyncSender<T>, Receiver<T>)) {
    std::sync::mpsc::sync_channel(bound)
}

/// Relies on `SyncSender::send`: queues `item`, waiting while the channel is
/// full; `false` where the receiving side is gone.
#[verifier::external_body]
fn send_item<T>(s: &SyncSender<T>, item: T) -> (r: bool) {
    s.send(item).is_ok()
}

/// Relies on `SyncSender::clone`: another handle on the same channel.
#[verifier::external_body]
fn clone_sender<T>(s: &SyncSender<T>) -> (r: SyncSender<T>) {
    s.clone()
}

/// Relies on `Mutex::new`.
#[verifier::external_body]
fn new_mutex<T>(t: T) -> (r: Mutex<T>) {
    Mutex::new(t)
}

/// Relies on `Arc::clone`: another handle on the same value.
#[verifier::external_body]
fn share<T>(a: &Arc<T>) -> (r: Arc<T>) {
    Arc::clone(a)
}

/// Relies on `Mutex::lock`: `None` where the lock is poisoned.
#[verifier::external_body]
fn lock<'a, T>(m: &'a Mutex<T>) -> (r: Option<MutexGuard<'a, T>>) {
    m.lock().ok()
}

/// Relies on `Receiver::recv`: the next item, waiting while the channel is
/// empty; `None` where every sending side is gone.
#[verifier::external_body]
fn receive<T>(g: &MutexGuard<'_, Receiver<T>>) -> (r: Option<T>) {
    g.recv().ok()
}

/// A bounded multi-producer, multi-consumer FIFO queue.
#[verifier::reject_recursive_types(T)]
pub struct CCFifoQueue<T> {
    pub pusher: SyncSender<T>,
    pub poller: Arc<Mutex<Receiver<T>>>,
}

impl<T> CCFifoQueue<T> {
    /// A queue holding `events`, in order, with room for exactly as many.
    pub fn new(events: Vec<T>) -> (r: Self) {
        let (pusher, receiver) = bounded_channel(events.len());
        for evt in events {
            let _ = send_item(&pusher, evt);
        }
        let poller = Arc::new(new_mutex(receiver));
        CCFifoQueue { pusher, poller }
    }

    /// Another handle on the same queue.
    pub fn clone(&self) -> (r: Self) {
        CCFifoQueue { pusher: clone_sender(&self.pusher), poller: share(&self.poller) }
    }

    /// Takes the item at the front, waiting while the queue is empty; `None`
    /// where the queue can no longer deliver.
    pub fn pop(&self) -> (r: Option<T>) {
        match lock(&*self.poller) {
            Some(guard) => receive(&guard),
            None => None,
        }
    }

    /// Puts `item` at the back, waiting while the queue is full; `false`
    /// where nobody can take it any more.
    pub fn push(&self, item: T) -> (r: bool) {
        send_item(&self.pusher, item)
    }
}

/// The registry of upstream services, each an address and a port.
pub struct AddrQueue {
    pub pusher: SyncSender<(String, u16)>,
    pub poller: Arc<Mutex<Receiver<(String, u16)>>>,
}

impl AddrQueue {
    /// A registry holding `addrs`, in order.
    pub fn new(addrs: Vec<(String, u16)>) -> (r: Self) {
        let q = CCFifoQueue::new(addrs);
        AddrQueue { pusher: q.pusher, poller: q.poller }
    }

    /// Another handle on the same registry.
    pub fn clone(&self) -> (r: Self) {
        AddrQueue { pusher: clone_sender(&self.pusher), poller: share(&self.poller) }
    }
}

/// Takes the service at the front of the registry and puts it straight
/// back at the end, so that the services take turns.
pub fn borrow_service(registry: &CCFifoQueue<Service>) -> (r: Option<Service>) {
    match registry.pop() {
        Some(service) => {
            let back = Service { addr: service.addr.clone(), port: service.port };
            let _ = registry.push(back);
            Some(service)
        },
        None => None,
    }
}

} // verus!
