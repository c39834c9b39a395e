//! The lock that says a run is in progress, and how long it lasts.
//!
//! Two runs at once would interleave, so an exclusive lock is held for the whole of a
//! run.  The path of the lock is handed to every program that the run executes, and
//! only while it is held, so that a program that has to act after the run knows what
//! to wait on.

use vstd::prelude::*;

use crate::path;
use crate::text;
use crate::var;

verus! {

/// Where the lock is, beside the journal and the dump of the last run.
pub const RUN_LOCK: &'static str = "var/lib/detc/run.lock";

/// The file carries no content, and is readable by whoever can read the history of a
/// machine.
pub const MODE: u32 = 0o600;

/// Where a run of `detc` locks the system it is working on.
pub fn path(root: &str) -> (r: String)
    ensures
        r@ == path::joined(root@, RUN_LOCK@),
{
    path::join(root, RUN_LOCK)
}

/// The lock that a process holds right now, if any.
pub struct Slot {
    held: Option<String>,
}

impl View for Slot {
    type V = Option<Seq<char>>;

    closed spec fn view(&self) -> Option<Seq<char>> {
        text::text_of(self.held)
    }
}

/// Something that a process does with its lock.
pub enum Move {
    /// Taking the lock at a path.
    Take(Seq<char>),
    /// Releasing what is held.
    Release,
}

/// What a process holds once it did something, by what it held before.
pub open spec fn moved(held: Option<Seq<char>>, step: Move) -> Option<Seq<char>> {
    match step {
        Move::Take(path) => if held is None {
            Some(path)
        } else {
            held
        },
        Move::Release => None,
    }
}

/// What a process holds once it did several things, one after the other.
pub open spec fn moved_all(held: Option<Seq<char>>, steps: Seq<Move>) -> Option<Seq<char>>
    decreases steps.len(),
{
    if steps.len() == 0 {
        held
    } else {
        moved(moved_all(held, steps.drop_last()), steps.last())
    }
}

/// The lock that a run took is published from there to its release, whatever else is
/// tried in between, and not after.
pub proof fn law_the_lock_is_published_while_it_is_held(path: Seq<char>, between: Seq<Move>)
    requires
        forall|i: int| 0 <= i < between.len() ==> (#[trigger] between[i]) is Take,
    ensures
        moved_all(moved(None, Move::Take(path)), between) == Some(path),
        moved(moved_all(moved(None, Move::Take(path)), between), Move::Release) is None,
    decreases between.len(),
{
    if between.len() > 0 {
        assert forall|i: int| 0 <= i < between.drop_last().len() implies (
        #[trigger] between.drop_last()[i]) is Take by {
            assert(between.drop_last()[i] == between[i]);
        }
        law_the_lock_is_published_while_it_is_held(path, between.drop_last());
        assert(between[between.len() - 1] is Take);
    }
}

impl Slot {
    /// A process that holds no lock.
    pub fn new() -> (r: Self)
        ensures
            r@ is None,
    {
        Slot { held: None }
    }

    /// The lock of the run in progress, for whoever is told about it.
    pub fn held(&self) -> (r: Option<&str>)
        ensures
            self@ == (match r {
                Some(path) => Some(path@),
                None => None,
            }),
    {
        match &self.held {
            Some(path) => Some(path.as_str()),
            None => None,
        }
    }

    /// Whether another lock may be taken.  Two locks of one process are two open
    /// files, so the second would wait for the first and never get it.
    pub fn free(&self) -> (r: Result<(), String>)
        ensures
            var::outcome(r) == (match self@ {
                None => Ok(()),
                Some(path) => Err("This process is already running against "@ + path),
            }),
    {
        match &self.held {
            None => Ok(()),
            Some(path) => {
                let mut e = "This process is already running against ".to_owned();
                e.append(path.as_str());
                Err(e)
            },
        }
    }

    /// Take down the lock that a run took.  A second one is refused, and what is held
    /// stays what it is.
    pub fn take(&mut self, path: &str) -> (r: Result<(), String>)
        ensures
            final(self)@ == moved(old(self)@, Move::Take(path@)),
            match old(self)@ {
                None => r is Ok,
                Some(held) => var::outcome(r) == Err::<(), Seq<char>>(
                    "This process is already running against "@ + held,
                ),
            },
    {
        match self.free() {
            Ok(_) => {
                self.held = Some(path.to_owned());
                Ok(())
            },
            Err(e) => Err(e),
        }
    }

    /// Take down that the run is over.
    pub fn release(&mut self)
        ensures
            final(self)@ == moved(old(self)@, Move::Release),
    {
        self.held = None;
    }
}

/// A lock is held by who took it first, until it is released.
pub proof fn law_the_first_to_take_a_lock_holds_it(path: Seq<char>, other: Seq<char>)
    ensures
        moved(None, Move::Take(path)) == Some(path),
        moved(Some(other), Move::Take(path)) == Some(other),
        moved(Some(path), Move::Release) is None,
        moved(None, Move::Release) is None,
{
}

} // verus!
