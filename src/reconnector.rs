use vstd::prelude::*;

verus! {

/// The most connection attempts in one chain.
pub const MAX_ATTEMPTS: i32 = 5;

/// The most `initialize` calls in one attempt.
pub const MAX_INITIALIZE_TRIES: u32 = 5;

/// Seconds to wait between attempts, and between `initialize` calls.
pub const WAITING_PERIOD_SECONDS: u64 = 1;

/// What the reconnect worker does after an attempt.
#[derive(Debug, Clone, Copy, PartialEq, Eq, Structural)]
pub enum Next {
    /// The reader is reading again: put it back in the active list and send
    /// the reader list to every operator socket.
    Rejoin,
    /// Disconnect, wait, and make attempt number `count`.
    Retry(i32),
    /// The chain is over; the reader stays out of the active list.
    GiveUp,
}

/// One link of the reconnection chain for the reader `id`: attempt `count`.
pub struct Reconnector {
    pub id: i64,
    pub count: i32,
}

/// The number of attempts a chain that starts at attempt `count` makes when
/// every attempt fails.
pub open spec fn attempts_left(count: int) -> nat
    decreases MAX_ATTEMPTS + 1 - count,
{
    if count > MAX_ATTEMPTS {
        0
    } else {
        1 + attempts_left(count + 1)
    }
}

impl Reconnector {
    pub fn new(id: i64, count: i32) -> (r: Reconnector)
        ensures
            r.id == id,
            r.count == count,
    {
        Reconnector { id, count }
    }

    /// Whether this link makes an attempt at all.
    pub fn should_attempt(&self) -> (r: bool)
        ensures
            r == (self.count <= MAX_ATTEMPTS),
    {
        self.count <= MAX_ATTEMPTS
    }

    /// Whether to call `initialize` again after `tries` calls, the last one
    /// failed.
    pub fn retry_initialize(tries: u32) -> (r: bool)
        ensures
            r == (tries < MAX_INITIALIZE_TRIES),
    {
        tries < MAX_INITIALIZE_TRIES
    }

    /// What follows an attempt: `connected` is whether `connect` succeeded,
    /// `reading` what the session then reports.
    pub fn after_attempt(&self, connected: bool, reading: Option<bool>) -> (n: Next)
        requires
            self.count <= MAX_ATTEMPTS,
        ensures
            connected && reading == Some(true) ==> n == Next::Rejoin,
            !(connected && reading == Some(true)) ==> n == if self.count < MAX_ATTEMPTS {
                Next::Retry((self.count + 1) as i32)
            } else {
                Next::GiveUp
            },
    {
        if connected && reading == Some(true) {
            Next::Rejoin
        } else if self.count < MAX_ATTEMPTS {
            Next::Retry(self.count + 1)
        } else {
            Next::GiveUp
        }
    }
}

/// A chain that fails every time makes exactly `MAX_ATTEMPTS` attempts when it
/// starts from the first.
pub proof fn lemma_attempt_cap()
    ensures
        attempts_left(1) == MAX_ATTEMPTS,
{
    reveal_with_fuel(attempts_left, 6);
}

} // verus!
