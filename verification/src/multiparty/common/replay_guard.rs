//! Per-participant protection against retrying a share-generation call.
//!
//! A protocol's public randomness is derived deterministically from the
//! session, so producing a second share for the same session round exposes a
//! participant's secret contribution twice against the same public value. A
//! guard belongs to one participant's own process and refuses that second
//! share before any cryptographic work is done.

use vstd::prelude::*;

use crate::multiparty::common::participant::ParticipantId;
use crate::multiparty::common::session::{protocol_tag, SessionState};
use crate::multiparty::error::MultipartyError;

verus! {

/// `(session id, round, protocol tag, participant id)`.
pub type ReplayKey = (u64, u64, u32, u64);

/// The key a share for `participant` in `session`'s current round is recorded
/// under.
pub open spec fn replay_key(session: &SessionState, participant: ParticipantId) -> ReplayKey {
    (session@.id, session@.round, protocol_tag(session@.protocol), participant@)
}

/// The key of participant `p` in the current round of the session `s`.
pub open spec fn view_replay_key(s: crate::multiparty::common::session::SessionView, p: u64) -> ReplayKey {
    (s.id, s.round, protocol_tag(s.protocol), p)
}

/// Once a key has been recorded, it stays recorded: a second share for the
/// same session round and participant is refused, whatever else is
/// recorded in between.
pub proof fn lemma_recorded_stays_refused(used: Set<ReplayKey>, key: ReplayKey, later: Set<ReplayKey>)
    ensures
        used.insert(key).union(later).contains(key),
{
}

/// Tracks which `(session id, round, protocol, participant)` tuples already
/// produced a share and refuses a second one.
#[derive(Clone, Debug)]
pub struct ReplayGuard {
    used: Vec<ReplayKey>,
}

impl View for ReplayGuard {
    type V = Set<ReplayKey>;

    closed spec fn view(&self) -> Set<ReplayKey> {
        self.used@.to_set()
    }
}

impl Default for ReplayGuard {
    fn default() -> (r: Self)
        ensures
            r@ == Set::<ReplayKey>::empty(),
    {
        ReplayGuard::new()
    }
}

impl ReplayGuard {
    /// Creates an empty replay guard.
    pub fn new() -> (r: Self)
        ensures
            r@ == Set::<ReplayKey>::empty(),
    {
        let r = ReplayGuard { used: Vec::new() };
        assert(r.used@.to_set() =~= Set::<ReplayKey>::empty());
        r
    }

    /// Whether a share of `participant` for `session`'s current round was
    /// already recorded, so that a caller can refuse before sampling.
    pub fn has_recorded(&self, session: &SessionState, participant: ParticipantId) -> (r: bool)
        ensures
            r == self@.contains(replay_key(session, participant)),
    {
        let id = session.id().get();
        let round = session.round();
        let tag = session.protocol().tag();
        let who = participant.get();
        let ghost key = replay_key(session, participant);
        let mut i: usize = 0;
        while i < self.used.len()
            invariant
                i <= self.used@.len(),
                key == (id, round, tag, who),
                key == replay_key(session, participant),
                forall|j: int| 0 <= j < i ==> self.used@[j] != key,
            decreases self.used@.len() - i,
        {
            let entry = self.used[i];
            if entry.0 == id && entry.1 == round && entry.2 == tag && entry.3 == who {
                assert(self.used@[i as int] == key);
                assert(self.used@.to_set().contains(key));
                return true;
            }
            i = i + 1;
        }
        assert(!self.used@.to_set().contains(key)) by {
            if self.used@.to_set().contains(key) {
                assert(self.used@.contains(key));
            }
        }
        false
    }

    /// Records that `participant` is about to produce a share for `session`'s
    /// current round; refuses with `ReplayedShare` (recording nothing) when
    /// this exact tuple was already recorded on this guard.
    pub fn record_use(&mut self, session: &SessionState, participant: ParticipantId) -> (r: Result<
        (),
        MultipartyError,
    >)
        ensures
            old(self)@.contains(replay_key(session, participant)) ==> r == Err::<(), _>(
                MultipartyError::ReplayedShare,
            ) && final(self)@ == old(self)@,
            !old(self)@.contains(replay_key(session, participant)) ==> r is Ok && final(self)@
                == old(self)@.insert(replay_key(session, participant)),
    {
        let id = session.id().get();
        let round = session.round();
        let tag = session.protocol().tag();
        let who = participant.get();
        let ghost key = replay_key(session, participant);
        let mut i: usize = 0;
        while i < self.used.len()
            invariant
                i <= self.used@.len(),
                self.used@ == old(self).used@,
                key == (id, round, tag, who),
                key == replay_key(session, participant),
                forall|j: int| 0 <= j < i ==> self.used@[j] != key,
            decreases self.used@.len() - i,
        {
            let entry = self.used[i];
            if entry.0 == id && entry.1 == round && entry.2 == tag && entry.3 == who {
                assert(self.used@[i as int] == key);
                assert(self.used@.to_set().contains(key));
                return Err(MultipartyError::ReplayedShare);
            }
            i = i + 1;
        }
        assert(!self.used@.to_set().contains(key)) by {
            if self.used@.to_set().contains(key) {
                assert(self.used@.contains(key));
            }
        }
        let ghost before = self.used@;
        self.used.push((id, round, tag, who));
        assert(self.used@.to_set() =~= before.to_set().insert(key)) by {
            assert(self.used@ == before.push(key));
            assert forall|x: ReplayKey| self.used@.to_set().contains(x) == before.to_set().insert(
                key,
            ).contains(x) by {
                if self.used@.contains(x) && x != key {
                    let j = choose|j: int| 0 <= j < self.used@.len() && self.used@[j] == x;
                    assert(before[j] == x);
                }
                if before.contains(x) {
                    let j = choose|j: int| 0 <= j < before.len() && before[j] == x;
                    assert(self.used@[j] == x);
                }
                if x == key {
                    assert(self.used@[before.len() as int] == key);
                }
            }
        }
        Ok(())
    }
}

} // verus!
