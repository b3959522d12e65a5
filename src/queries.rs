//! What a node reports before an update: whether a rotation is under way, and
//! for an authority, how many blocks until its next turn to author.

use crate::encoding::decode_u64;
use crate::encoding::le_value;
use vstd::prelude::*;

verus! {

#[derive(Clone, Copy, Debug, PartialEq, Eq, Structural)]
pub struct PreUpdateStatus {
    pub rotation: bool,
    pub is_authority: bool,
    pub next_block_in: Option<usize>,
}

/// The engine id of Aura's pre-runtime digest items.
pub const AURA_ENGINE_ID: [u8; 4] = [97, 117, 114, 97];

/// The slot that a pre-runtime digest item announces: an item of the Aura
/// engine carries the slot number in its first eight bytes, little-endian; an
/// item of another engine, or one too short, announces none.
pub fn slot_from_pre_runtime_digest(engine_id: [u8; 4], data: &Vec<u8>) -> (r: Option<u64>)
    ensures
        r == (if engine_id@ == AURA_ENGINE_ID@ && data@.len() >= 8 {
            Some(le_value(data@.take(8)) as u64)
        } else {
            None::<u64>
        }),
{
    if engine_id[0] == 97 && engine_id[1] == 117 && engine_id[2] == 114 && engine_id[3] == 97 {
        proof {
            assert(engine_id@ =~= AURA_ENGINE_ID@);
        }
        decode_u64(data)
    } else {
        proof {
            if engine_id@ == AURA_ENGINE_ID@ {
                assert(engine_id@[0] == 97 && engine_id@[1] == 117);
                assert(engine_id@[2] == 114 && engine_id@[3] == 97);
            }
        }
        None
    }
}

/// Slots from `slot` forward to `index`, going round a ring of `len` slots.
pub open spec fn spec_distance(index: int, slot: int, len: int) -> int {
    if index >= slot {
        index - slot
    } else {
        len - slot + index
    }
}

pub fn compute_distance(index: usize, slot: usize, len: usize) -> (r: usize)
    requires
        index < slot ==> slot <= len,
    ensures
        r == spec_distance(index as int, slot as int, len as int),
{
    if index >= slot {
        index - slot
    } else {
        len - slot + index
    }
}

/// The status of an account, given whether the rotation phase is idle, the
/// account's position among the current authorities (if it is one), their
/// number, and the current slot.
pub fn pre_update_status(
    rotation_idle: bool,
    authority_index: Option<usize>,
    authority_count: usize,
    slot: usize,
) -> (r: PreUpdateStatus)
    requires
        authority_index matches Some(i) ==> i < authority_count,
    ensures
        r.rotation == !rotation_idle,
        r.is_authority == authority_index is Some,
        authority_index is None ==> r.next_block_in is None,
        authority_index matches Some(i) ==> r.next_block_in == Some(
            spec_distance(i as int, (slot % authority_count) as int, authority_count as int) as usize,
        ),
{
    match authority_index {
        Some(index) => {
            let current_relative_slot = slot % authority_count;
            PreUpdateStatus {
                rotation: !rotation_idle,
                is_authority: true,
                next_block_in: Some(compute_distance(index, current_relative_slot, authority_count)),
            }
        },
        None => PreUpdateStatus { rotation: !rotation_idle, is_authority: false, next_block_in: None },
    }
}

} // verus!
