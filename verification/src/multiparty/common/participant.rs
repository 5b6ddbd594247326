//! Participant identifiers and validated participant sets.

use vstd::prelude::*;

use crate::codec::{push_u64_le, u64_le};
use crate::multiparty::error::MultipartyError;

verus! {

/// Message of the error a zero participant id is refused with.
pub const PARTICIPANT_ID_ZERO: &'static str = "participant id must be nonzero";

/// Message of the error an empty participant set is refused with.
pub const PARTICIPANT_SET_EMPTY: &'static str = "participant set must be nonempty";

/// Stable, nonzero participant identifier.
#[derive(Clone, Copy, Debug, PartialEq, Eq, PartialOrd, Ord, Hash)]
pub struct ParticipantId(u64);

impl View for ParticipantId {
    type V = u64;

    closed spec fn view(&self) -> u64 {
        self.0
    }
}

impl ParticipantId {
    #[verifier::type_invariant]
    closed spec fn nonzero(self) -> bool {
        self.0 != 0
    }

    /// Creates a nonzero participant identifier.
    pub fn new(value: u64) -> (r: Result<Self, MultipartyError>)
        ensures
            value != 0 <==> r is Ok,
            r matches Ok(id) ==> id@ == value,
            value == 0 ==> r == Err::<Self, _>(MultipartyError::InvalidParameters(PARTICIPANT_ID_ZERO)),
    {
        if value == 0 {
            return Err(MultipartyError::InvalidParameters(PARTICIPANT_ID_ZERO));
        }
        Ok(ParticipantId(value))
    }

    /// Returns the raw participant id.
    pub fn get(self) -> (r: u64)
        ensures
            r == self@,
            r != 0,
    {
        proof {
            use_type_invariant(&self);
        }
        self.0
    }

    /// Appends the 8 little-endian bytes of the id.
    pub fn encode(self, out: &mut Vec<u8>)
        ensures
            final(out)@ == old(out)@ + u64_le(self@),
    {
        push_u64_le(out, self.0);
    }
}

/// Strictly increasing: the canonical order of a participant set.
pub open spec fn strictly_increasing(s: Seq<u64>) -> bool {
    forall|i: int, j: int| 0 <= i < j < s.len() ==> s[i] < s[j]
}

/// The raw ids of a sequence of participant ids.
pub open spec fn id_values(ids: Seq<ParticipantId>) -> Seq<u64> {
    ids.map_values(|p: ParticipantId| p@)
}

/// Some id occurs twice.
pub open spec fn has_duplicate(ids: Seq<u64>) -> bool {
    exists|i: int, j: int| 0 <= i < j < ids.len() && ids[i] == ids[j]
}

/// The length-prefixed encoding of a participant id list.
pub open spec fn participants_bytes(ids: Seq<u64>) -> Seq<u8> {
    u64_le(ids.len() as u64) + ids_bytes(ids)
}

/// The concatenated 8-byte encodings of `ids`.
pub open spec fn ids_bytes(ids: Seq<u64>) -> Seq<u8>
    decreases ids.len(),
{
    if ids.len() == 0 {
        Seq::empty()
    } else {
        ids_bytes(ids.drop_last()) + u64_le(ids.last())
    }
}

/// Validated participant set, kept in canonical (increasing id) order.
#[derive(Debug, PartialEq, Eq)]
pub struct ParticipantSet {
    participants: Vec<ParticipantId>,
}

impl View for ParticipantSet {
    type V = Seq<u64>;

    closed spec fn view(&self) -> Seq<u64> {
        id_values(self.participants@)
    }
}

impl Clone for ParticipantSet {
    fn clone(&self) -> (r: Self)
        ensures
            r@ == self@,
    {
        proof {
            use_type_invariant(self);
        }
        let mut participants: Vec<ParticipantId> = Vec::with_capacity(self.participants.len());
        let mut i: usize = 0;
        while i < self.participants.len()
            invariant
                i <= self.participants@.len(),
                participants@ == self.participants@.subrange(0, i as int),
            decreases self.participants@.len() - i,
        {
            participants.push(self.participants[i]);
            i = i + 1;
            assert(participants@ =~= self.participants@.subrange(0, i as int));
        }
        assert(participants@ =~= self.participants@);
        ParticipantSet { participants }
    }
}

impl ParticipantSet {
    #[verifier::type_invariant]
    closed spec fn canonical(self) -> bool {
        &&& self.participants@.len() > 0
        &&& strictly_increasing(id_values(self.participants@))
    }

    /// Creates a participant set in canonical (increasing id) order. Fails on
    /// an empty list, then on any id occurring twice.
    pub fn new(participants: Vec<ParticipantId>) -> (r: Result<Self, MultipartyError>)
        ensures
            participants@.len() == 0 ==> r == Err::<Self, _>(
                MultipartyError::InvalidParameters(PARTICIPANT_SET_EMPTY),
            ),
            participants@.len() > 0 && has_duplicate(id_values(participants@)) ==> r
                == Err::<Self, _>(MultipartyError::DuplicateParticipant),
            participants@.len() > 0 && !has_duplicate(id_values(participants@)) ==> r is Ok,
            r matches Ok(set) ==> {
                &&& set@.len() == participants@.len()
                &&& strictly_increasing(set@)
                &&& forall|x: u64| set@.contains(x) <==> id_values(participants@).contains(x)
            },
    {
        if participants.len() == 0 {
            return Err(MultipartyError::InvalidParameters(PARTICIPANT_SET_EMPTY));
        }
        let ghost input = id_values(participants@);
        let mut sorted: Vec<ParticipantId> = Vec::with_capacity(participants.len());
        let mut k: usize = 0;
        while k < participants.len()
            invariant
                k <= participants@.len(),
                input == id_values(participants@),
                sorted@.len() == k,
                strictly_increasing(id_values(sorted@)),
                forall|x: u64| id_values(sorted@).contains(x) <==> input.subrange(0, k as int).contains(x),
                !has_duplicate(input.subrange(0, k as int)),
            decreases participants@.len() - k,
        {
            let candidate = participants[k];
            let value = candidate.get();
            // Position of the first id not below the candidate.
            let mut pos: usize = 0;
            while pos < sorted.len() && sorted[pos].get() < value
                invariant
                    pos <= sorted@.len(),
                    forall|i: int| 0 <= i < pos ==> id_values(sorted@)[i] < value,
                decreases sorted@.len() - pos,
            {
                pos = pos + 1;
            }
            let ghost before = id_values(sorted@);
            let ghost prefix = input.subrange(0, k as int);
            let found = pos < sorted.len() && sorted[pos].get() == value;
            proof {
                if pos < sorted@.len() {
                    assert(before[pos as int] == sorted@[pos as int]@);
                    if !found {
                        assert(before[pos as int] > value);
                        assert forall|i: int| pos <= i < before.len() implies before[i] > value by {
                            if i > pos {
                                assert(before[pos as int] < before[i]);
                            }
                        }
                    }
                }
            }
            if found {
                proof {
                    assert(before[pos as int] == value);
                    assert(before.contains(value));
                    assert(prefix.contains(value));
                    let i = choose|i: int| 0 <= i < prefix.len() && prefix[i] == value;
                    assert(input[i] == input[k as int]);
                    assert(has_duplicate(input));
                }
                return Err(MultipartyError::DuplicateParticipant);
            }
            sorted.insert(pos, candidate);
            proof {
                let after = id_values(sorted@);
                assert(after =~= before.insert(pos as int, value));
                assert(forall|i: int| pos <= i < before.len() ==> before[i] > value);
                assert(input.subrange(0, k + 1) =~= prefix.push(value));
                if prefix.contains(value) {
                    assert(before.contains(value));
                    let i = choose|i: int| 0 <= i < before.len() && before[i] == value;
                    assert(false);
                }
                let nx = input.subrange(0, k + 1);
                assert(nx[k as int] == value);
                assert(after[pos as int] == value);
                assert forall|x: u64| after.contains(x) implies nx.contains(x) by {
                    let i = choose|i: int| 0 <= i < after.len() && after[i] == x;
                    if i < pos {
                        assert(before[i] == x);
                    } else if i > pos {
                        assert(before[i - 1] == x);
                    }
                    if x != value {
                        assert(before.contains(x));
                        assert(prefix.contains(x));
                        let j = choose|j: int| 0 <= j < prefix.len() && prefix[j] == x;
                        assert(nx[j] == x);
                    }
                }
                assert forall|x: u64| nx.contains(x) implies after.contains(x) by {
                    if x != value {
                        let j = choose|j: int| 0 <= j < nx.len() && nx[j] == x;
                        assert(j < k);
                        assert(prefix[j] == x);
                        assert(prefix.contains(x));
                        assert(before.contains(x));
                        let i = choose|i: int| 0 <= i < before.len() && before[i] == x;
                        if i < pos {
                            assert(after[i] == x);
                        } else {
                            assert(after[i + 1] == x);
                        }
                    }
                }
                assert forall|i: int, j: int| 0 <= i < j < nx.len() implies #[trigger] nx[i]
                    != #[trigger] nx[j] by {
                    assert(prefix[i] == nx[i]);
                    if j == k {
                        assert(prefix.contains(prefix[i]));
                    } else {
                        assert(prefix[j] == nx[j]);
                    }
                }
            }
            k = k + 1;
        }
        proof {
            assert(input.subrange(0, k as int) =~= input);
        }
        Ok(ParticipantSet { participants: sorted })
    }

    /// Returns participants in canonical order.
    pub fn participants(&self) -> (r: &[ParticipantId])
        ensures
            id_values(r@) == self@,
    {
        self.participants.as_slice()
    }

    /// Returns whether the set contains `participant` (binary search over the
    /// canonical order).
    pub fn contains(&self, participant: ParticipantId) -> (r: bool)
        ensures
            r == self@.contains(participant@),
    {
        proof {
            use_type_invariant(self);
        }
        let target = participant.get();
        let mut lo: usize = 0;
        let mut hi: usize = self.participants.len();
        while lo < hi
            invariant
                0 <= lo <= hi <= self@.len(),
                target == participant@,
                self@.len() == self.participants@.len(),
                strictly_increasing(self@),
                forall|i: int| 0 <= i < lo ==> self@[i] < target,
                forall|i: int| hi <= i < self@.len() ==> self@[i] > target,
            decreases hi - lo,
        {
            let mid = lo + (hi - lo) / 2;
            let value = self.participants[mid].get();
            assert(self@[mid as int] == value);
            if value == target {
                assert(self@[mid as int] == target);
                assert(self@.contains(target));
                return true;
            } else if value < target {
                assert forall|i: int| 0 <= i <= mid implies self@[i] < target by {
                    if i < mid {
                        assert(self@[i] < self@[mid as int]);
                    }
                }
                lo = mid + 1;
            } else {
                assert forall|i: int| mid <= i < self@.len() implies self@[i] > target by {
                    if i > mid {
                        assert(self@[i] > self@[mid as int]);
                    }
                }
                hi = mid;
            }
        }
        proof {
            if self@.contains(target) {
                let i = choose|i: int| 0 <= i < self@.len() && self@[i] == target;
                assert(false);
            }
        }
        false
    }

    /// Returns the number of participants.
    pub fn len(&self) -> (r: usize)
        ensures
            r == self@.len(),
            r > 0,
    {
        proof {
            use_type_invariant(self);
        }
        self.participants.len()
    }

    /// Returns whether the participant set is empty (never, by construction).
    pub fn is_empty(&self) -> (r: bool)
        ensures
            r == (self@.len() == 0),
            !r,
    {
        proof {
            use_type_invariant(self);
        }
        self.participants.len() == 0
    }

    /// Appends the count and then every id, 8 little-endian bytes each.
    pub fn encode(&self, out: &mut Vec<u8>)
        ensures
            final(out)@ == old(out)@ + participants_bytes(self@),
    {
        let ghost start = out@;
        push_u64_le(out, self.participants.len() as u64);
        let mut i: usize = 0;
        while i < self.participants.len()
            invariant
                i <= self@.len(),
                self@.len() == self.participants@.len(),
                out@ == start + u64_le(self@.len() as u64) + ids_bytes(self@.subrange(0, i as int)),
            decreases self@.len() - i,
        {
            self.participants[i].encode(out);
            proof {
                let next = self@.subrange(0, i + 1);
                assert(next.drop_last() =~= self@.subrange(0, i as int));
                assert(next.last() == self@[i as int]);
            }
            i = i + 1;
        }
        proof {
            assert(self@.subrange(0, self@.len() as int) =~= self@);
        }
    }
}

} // verus!
