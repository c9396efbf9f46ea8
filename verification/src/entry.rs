use vstd::prelude::*;
use std::sync::{Condvar, Mutex};
use crate::catalog::tail_from;
use crate::error::LoopError;

verus! {

/// Declares std::sync::Mutex so that it can stand in fields; its contents
/// are opaque here, touched only through the trusted operations below.
#[verifier::external_type_specification]
#[verifier::external_body]
#[verifier::reject_recursive_types(T)]
pub struct ExMutex<T: ?Sized>(Mutex<T>);

/// Declares std::sync::Condvar, the wake mechanism behind `wait_ready`.
#[verifier::external_type_specification]
#[verifier::external_body]
pub struct ExCondvar(Condvar);

/// A lazily populated, thread-safe holder for one frame's decoded pixel
/// buffer. The loader is the sole writer; once readiness is signaled the
/// buffer never changes, and arbitrarily many readers may block on it.
pub struct Entry {
    pub path: Vec<u8>,
    pub ready: Mutex<bool>,
    pub cvar: Condvar,
    pub data: Mutex<Option<Vec<u8>>>,
}

/// Relies on std::sync::Mutex::new: a fresh, unpoisoned lock around the
/// unready flag.
#[verifier::external_body]
fn new_flag() -> Mutex<bool> {
    Mutex::new(false)
}

/// Relies on std::sync::Condvar::new: a fresh condition variable.
#[verifier::external_body]
fn new_condvar() -> Condvar {
    Condvar::new()
}

/// Relies on std::sync::Mutex::new: a fresh, unpoisoned lock around the
/// empty pixel-buffer cell.
#[verifier::external_body]
fn new_cell() -> Mutex<Option<Vec<u8>>> {
    Mutex::new(None)
}

/// Decodes an image file into its raw pixel bytes. Relies on image::open
/// and image::DynamicImage::as_bytes; what comes back depends on the bytes
/// on disk, so nothing is stated beyond which error is possible.
#[verifier::external_body]
fn get_image_bytes(path: &Vec<u8>) -> (r: Result<Vec<u8>, LoopError>)
    ensures
        (match r {
            Ok(_) => true,
            Err(e) => e == LoopError::DecodeError,
        }),
{
    let p = String::from_utf8_lossy(path).into_owned();
    match image::open(p) {
        Ok(img) => Ok(img.as_bytes().to_vec()),
        Err(_) => Err(LoopError::DecodeError),
    }
}

impl Entry {
    /// Stores a decoded buffer, then marks readiness and wakes all blocked
    /// waiters. Relies on std::sync::Mutex::lock and
    /// std::sync::Condvar::notify_all; the readiness flag is set under its
    /// own lock after the buffer write, so a waiter that observes readiness
    /// observes the fully written buffer. Calling it again overwrites the
    /// buffer, a legal overwrite.
    #[verifier::external_body]
    pub fn fulfill(&self, bytes: Vec<u8>) {
        let mut cell = self.data.lock().unwrap();
        *cell = Some(bytes);
        let mut flag = self.ready.lock().unwrap();
        *flag = true;
        self.cvar.notify_all();
    }

    /// Blocks the calling thread until readiness has been signaled,
    /// rechecking the flag under the lock, and returns immediately when
    /// loading already completed. Relies on std::sync::Mutex::lock and
    /// std::sync::Condvar::wait.
    #[verifier::external_body]
    pub fn wait_ready(&self) -> (r: &Entry)
        ensures
            r == self,
    {
        let mut opt = self.ready.lock().unwrap();
        while !*opt {
            opt = self.cvar.wait(opt).unwrap();
        }
        self
    }

    /// A copy of the pixel buffer if ready, or nothing if not yet loaded; a
    /// non-blocking peek. Relies on std::sync::Mutex::lock; which of the
    /// two outcomes is seen depends on the loader's progress.
    #[verifier::external_body]
    pub fn get_data(&self) -> Option<Vec<u8>> {
        self.data.lock().ok().and_then(|x| x.clone())
    }

    /// Decodes this frame's file, stores the buffer and signals readiness.
    /// A decode failure is fatal for the whole run and is returned to the
    /// caller; readiness is then never signaled.
    pub fn load(&self) -> (r: Result<(), LoopError>)
        ensures
            r is Err ==> r == Err::<(), LoopError>(LoopError::DecodeError),
    {
        match get_image_bytes(&self.path) {
            Ok(bytes) => {
                self.fulfill(bytes);
                Ok(())
            },
            Err(_) => Err(LoopError::DecodeError),
        }
    }
}

impl Default for Entry {
    /// An unloaded entry with an empty path.
    fn default() -> (r: Entry)
        ensures
            r.path@ == Seq::<u8>::empty(),
    {
        Entry { path: Vec::new(), ready: new_flag(), cvar: new_condvar(), data: new_cell() }
    }
}

/// One unloaded frame handle per path, preserving catalog order.
pub fn make_entries(paths: &Vec<Vec<u8>>) -> (r: Vec<Entry>)
    ensures
        r@.len() == paths@.len(),
        forall|k: int| 0 <= k < r@.len() ==> r@[k].path@ == paths@[k]@,
{
    let mut out: Vec<Entry> = Vec::new();
    let mut i: usize = 0;
    while i < paths.len()
        invariant
            i <= paths@.len(),
            out@.len() == i,
            forall|k: int| 0 <= k < i ==> out@[k].path@ == paths@[k]@,
        decreases paths@.len() - i,
    {
        let path = tail_from(&paths[i], 0);
        proof {
            assert(path@ =~= paths@[i as int]@);
        }
        out.push(Entry { path, ready: new_flag(), cvar: new_condvar(), data: new_cell() });
        i += 1;
    }
    out
}

/// Blocks on each frame in catalog order and collects the decoded buffers.
/// A handle that signals readiness without a buffer counts as a decode
/// failure, which is fatal for the run.
pub fn gather_frames(entries: &Vec<Entry>) -> (r: Result<Vec<Vec<u8>>, LoopError>)
    ensures
        r is Ok ==> r.unwrap()@.len() == entries@.len(),
        r is Err ==> r == Err::<Vec<Vec<u8>>, LoopError>(LoopError::DecodeError),
{
    let mut out: Vec<Vec<u8>> = Vec::new();
    let mut i: usize = 0;
    while i < entries.len()
        invariant
            i <= entries@.len(),
            out@.len() == i,
        decreases entries@.len() - i,
    {
        let e = &entries[i];
        e.wait_ready();
        match e.get_data() {
            Some(bytes) => {
                out.push(bytes);
            },
            None => {
                return Err(LoopError::DecodeError);
            },
        }
        i += 1;
    }
    Ok(out)
}

} // verus!
