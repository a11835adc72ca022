//! Shared accounting for incomplete IP datagrams. Completed datagrams are counted
//! so that the allowance can learn the working set; expiry and malformed traffic
//! cannot inflate it.
use vstd::prelude::*;

verus! {

/// What all incomplete datagrams of an endpoint may hold together: `used` is held
/// now, `target` is the allowance, and `completed` counts what completed datagrams
/// held since it was last taken.
#[derive(Clone, Copy, Debug, PartialEq, Eq, Structural)]
pub struct Limits {
    pub used: usize,
    pub target: usize,
    pub completed: usize,
}

/// A share of the allowance. Whoever holds it gives it back through `release`.
#[derive(Debug, PartialEq, Eq, Structural)]
pub struct Lease {
    pub bytes: usize,
}

impl Limits {
    /// Whether a share of `held` bytes may become one of `bytes`: growth stays
    /// within the allowance, and shrinking is always possible.
    pub open spec fn admits(self, held: int, bytes: int) -> bool {
        &&& self.used - held + bytes <= usize::MAX
        &&& bytes > held ==> self.used - held + bytes <= self.target
    }

    /// The accounts after a share of `held` bytes has become one of `bytes`.
    pub open spec fn after(self, held: int, bytes: int) -> Limits {
        Limits { used: (self.used - held + bytes) as usize, ..self }
    }

    /// An allowance of `initial` bytes, of which nothing is used.
    pub fn new(initial: usize) -> (r: Limits)
        ensures
            r == (Limits { used: 0, target: initial, completed: 0 }),
    {
        Limits { used: 0, target: initial, completed: 0 }
    }

    /// Takes a share, if the allowance has room for it.
    pub fn reserve(&mut self, bytes: usize) -> (r: Option<Lease>)
        ensures
            r is Some == old(self).admits(0, bytes as int),
            r matches Some(lease) ==> lease.bytes == bytes && *final(self) == old(self).after(
                0,
                bytes as int,
            ),
            r is None ==> *final(self) == *old(self),
    {
        let mut lease = Lease { bytes: 0 };
        if self.resize(&mut lease, bytes) {
            Some(lease)
        } else {
            None
        }
    }

    /// Changes the size of a share, if the allowance has room for its growth.
    pub fn resize(&mut self, lease: &mut Lease, bytes: usize) -> (r: bool)
        requires
            old(lease).bytes <= old(self).used,
        ensures
            r == old(self).admits(old(lease).bytes as int, bytes as int),
            r ==> final(lease).bytes == bytes && *final(self) == old(self).after(
                old(lease).bytes as int,
                bytes as int,
            ),
            !r ==> *final(self) == *old(self) && *final(lease) == *old(lease),
    {
        let rest: usize = self.used - lease.bytes;
        match rest.checked_add(bytes) {
            None => false,
            Some(total) => {
                if bytes > lease.bytes && total > self.target {
                    return false;
                }
                self.used = total;
                lease.bytes = bytes;
                true
            },
        }
    }

    /// Counts a share as that of a completed datagram.
    pub fn complete(&mut self, lease: &Lease)
        ensures
            *final(self) == old(self).learned(lease.bytes as int),
    {
        self.completed = self.completed.saturating_add(lease.bytes);
    }

    /// The accounts after a datagram that held `bytes` has completed.
    pub open spec fn learned(self, bytes: int) -> Limits {
        Limits {
            completed: if self.completed + bytes > usize::MAX {
                usize::MAX
            } else {
                (self.completed + bytes) as usize
            },
            ..self
        }
    }

    /// Gives a share back.
    pub fn release(&mut self, lease: Lease)
        requires
            lease.bytes <= old(self).used,
        ensures
            *final(self) == old(self).after(lease.bytes as int, 0),
    {
        self.used = self.used - lease.bytes;
    }

    /// Sets the allowance to what the capacity controller asks for.
    pub fn set_target(&mut self, target: usize)
        ensures
            *final(self) == (Limits { target, ..*old(self) }),
    {
        self.target = target;
    }

    /// Takes the count of completed bytes, for the capacity controller.
    pub fn take_completed(&mut self) -> (r: usize)
        ensures
            r == old(self).completed,
            *final(self) == (Limits { completed: 0, ..*old(self) }),
    {
        let completed: usize = self.completed;
        self.completed = 0;
        completed
    }
}

/// What is taken and given back leaves the accounts as they were.
pub proof fn law_release_undoes_reserve(limits: Limits, bytes: int)
    requires
        0 <= bytes,
        limits.admits(0, bytes),
    ensures
        limits.after(0, bytes).after(bytes, 0) == limits,
{
}

/// A share that was refused is admitted once enough has been given back.
pub proof fn law_release_makes_room(limits: Limits, held: int, bytes: int)
    requires
        0 <= bytes,
        0 <= held <= limits.used,
        limits.used - held + bytes <= limits.target,
    ensures
        limits.after(held, 0).admits(0, bytes),
{
}

/// A share may grow only within the allowance, and may always shrink; taking it moves the
/// accounts by exactly the difference, and nothing else.
pub proof fn law_shares_grow_within_the_allowance(limits: Limits, held: int, bytes: int)
    requires
        0 <= held <= limits.used,
        0 <= bytes,
    ensures
        bytes <= held ==> limits.admits(held, bytes),
        bytes > held ==> (limits.admits(held, bytes) <==> limits.used + (bytes - held)
            <= limits.target),
        limits.admits(held, bytes) ==> limits.after(held, bytes).used - limits.used == bytes - held,
        limits.after(held, bytes).target == limits.target,
        limits.after(held, bytes).completed == limits.completed,
{
}

/// What completes is counted, up to the largest count, and takes nothing else along.
pub proof fn law_completed_bytes_are_counted(limits: Limits, bytes: int)
    requires
        0 <= bytes,
    ensures
        limits.completed + bytes <= usize::MAX ==> limits.learned(bytes).completed
            == limits.completed + bytes,
        limits.learned(bytes).completed >= limits.completed,
        limits.learned(bytes).used == limits.used,
        limits.learned(bytes).target == limits.target,
{
}

} // verus!
