//! Numbers of the storage procedures.

use vstd::prelude::*;

verus! {

// Client to node.

pub const STORE_FILE: u8 = 0;

pub const READ_FILE: u8 = 1;

// Satelite to node.

pub const GET_PIECE_PROOF: u8 = 2;

// Node to satelite.

pub const REGISTER_NODE: u8 = 3;

pub const HEARTBEAT: u8 = 4;

pub const GET_GC_META: u8 = 5;

// Client to satelite.

pub const REGISTER_CLIENT: u8 = 6;

pub const ALLOCATE_FILE: u8 = 7;

pub const DELETE_FILE: u8 = 8;

pub const ALLOCAET_BANDWIDTH: u8 = 9;

pub const GET_FILE_HOLDERS: u8 = 10;

/// The procedures are numbered from zero on: those of clients to nodes, of satelites
/// to nodes, of nodes to satelites and of clients to satelites, in that order.
pub proof fn lemma_procedures_numbered_in_turn()
    ensures
        STORE_FILE == 0,
        READ_FILE == STORE_FILE + 1,
        GET_PIECE_PROOF == READ_FILE + 1,
        REGISTER_NODE == GET_PIECE_PROOF + 1,
        HEARTBEAT == REGISTER_NODE + 1,
        GET_GC_META == HEARTBEAT + 1,
        REGISTER_CLIENT == GET_GC_META + 1,
        ALLOCATE_FILE == REGISTER_CLIENT + 1,
        DELETE_FILE == ALLOCATE_FILE + 1,
        ALLOCAET_BANDWIDTH == DELETE_FILE + 1,
        GET_FILE_HOLDERS == ALLOCAET_BANDWIDTH + 1,
{
}

} // verus!
