//! What a foreground makes of the responses waiting for it in one frame:
//! only the newest state is kept, and a frame reads at most `SKIP_BUDGET`
//! responses so that a fast worker cannot stall it.
use crate::hop_net::NetworkResponse;
use crate::thread_utils::CommandError;
use vstd::prelude::*;

verus! {

/// The most responses one frame reads.
pub const SKIP_BUDGET: usize = 1000;

/// The responses of one frame, folded together.
pub struct FrameUpdate {
    /// The newest state received, if any.
    pub state: Option<Vec<i8>>,
    /// Whether the worker reported an equilibrium.
    pub stopped: bool,
    /// The newest refusal received, if any.
    pub rejected: Option<CommandError>,
    /// How many responses were read.
    pub received: usize,
}

impl FrameUpdate {
    /// A frame that has read nothing yet.
    pub fn new() -> (r: Self)
        ensures
            r.state is None,
            !r.stopped,
            r.rejected is None,
            r.received == 0,
    {
        FrameUpdate { state: None, stopped: false, rejected: None, received: 0 }
    }

    /// Whether the frame may read another response.
    pub fn wants_more(&self) -> (r: bool)
        ensures
            r == (self.received < SKIP_BUDGET),
    {
        self.received < SKIP_BUDGET
    }

    /// Folds in the next response: a newer state replaces an older one.
    pub fn absorb(&mut self, response: NetworkResponse)
        requires
            old(self).received < SKIP_BUDGET,
        ensures
            final(self).received == old(self).received + 1,
            match response {
                NetworkResponse::NewState(s) => final(self).state == Some(s) && final(self).stopped
                    == old(self).stopped && final(self).rejected == old(self).rejected,
                NetworkResponse::Stopped => final(self).state == old(self).state
                    && final(self).stopped && final(self).rejected == old(self).rejected,
                NetworkResponse::Heartbeat => final(self).state == old(self).state
                    && final(self).stopped == old(self).stopped && final(self).rejected
                    == old(self).rejected,
                NetworkResponse::Rejected(e) => final(self).state == old(self).state
                    && final(self).stopped == old(self).stopped && final(self).rejected == Some(e),
            },
    {
        match response {
            NetworkResponse::NewState(s) => self.state = Some(s),
            NetworkResponse::Stopped => self.stopped = true,
            NetworkResponse::Heartbeat => {},
            NetworkResponse::Rejected(e) => self.rejected = Some(e),
        }
        self.received = self.received + 1;
    }
}

} // verus!
