use orion::net::SocketAddr;
use orion::rpcs;
use orion::storage::{
    Address, BandwidthContext, BandwidthUse, CompactBandwidthUse, File, FileMeta, Proof, Request,
    Signature, StoreContext, PIECE_SIZE,
};

fn encode(address: &Address) -> Vec<u8> {
    let mut bytes = address.id.to_vec();
    bytes.extend(address.size.to_le_bytes());
    bytes
}

fn used(granted: u64, amount: u64) -> BandwidthUse {
    let context = BandwidthContext { dest: [1; 32], issuer: [2; 32], amount: granted };
    let signature = Signature { bytes: vec![1, 2, 3] };
    BandwidthUse { proof: Proof { public_key: vec![], context, nonce: 0, signature }, amount }
}

#[test]
fn file_names_are_hexadecimal() {
    let name = Address { id: [0xAB; 32], size: 0x0102 }.to_file_name(encode);
    assert_eq!(name, format!("{}0201000000000000", "ab".repeat(32)));
}

#[test]
fn different_files_have_different_names() {
    let one = Address { id: [1; 32], size: 5 };
    let other = Address { id: [1; 32], size: 6 };
    assert_ne!(one.to_file_name(encode), other.to_file_name(encode));
    assert_eq!(one.to_file_name(encode), one.to_file_name(encode));
}

#[test]
fn grants_are_exhausted_exactly_when_used_up() {
    assert!(used(10, 10).is_exhaused());
    assert!(!used(10, 9).is_exhaused());
    assert!(!used(10, 11).is_exhaused());
    assert!(used(0, 0).is_exhaused());
}

#[test]
fn procedures_are_numbered_in_order() {
    let numbers = [
        rpcs::STORE_FILE,
        rpcs::READ_FILE,
        rpcs::GET_PIECE_PROOF,
        rpcs::REGISTER_NODE,
        rpcs::HEARTBEAT,
        rpcs::GET_GC_META,
        rpcs::REGISTER_CLIENT,
        rpcs::ALLOCATE_FILE,
        rpcs::DELETE_FILE,
        rpcs::ALLOCAET_BANDWIDTH,
        rpcs::GET_FILE_HOLDERS,
    ];
    for (index, number) in numbers.iter().enumerate() {
        assert_eq!(*number as usize, index);
    }
}

#[test]
fn records_hold_what_they_are_given() {
    let address = Address { id: [1; 32], size: PIECE_SIZE as u64 };
    let holder = ([2; 32], SocketAddr::V4 { ip: [1, 2, 3, 4], port: 5 });
    let file: File<8> = File { address, holders: [holder; 8] };
    assert_eq!(file.holders[7].0, [2; 32]);
    assert_eq!(file.address.size, 1024);
    let meta: FileMeta<8> = FileMeta { holders: [3; 8], owner: [4; 32] };
    assert_eq!((meta.holders[0], meta.owner), (3, [4; 32]));
    let store = StoreContext { address, dest: [5; 32] };
    assert_eq!((store.address.id, store.dest), ([1; 32], [5; 32]));
    let compact = CompactBandwidthUse { signature: Signature { bytes: vec![9] }, amount: 1 };
    assert_eq!((compact.signature.bytes, compact.amount), (vec![9], 1));
    let request = Request { prefix: rpcs::READ_FILE, body: vec![1] };
    assert_eq!((request.prefix, request.body), (1, vec![1]));
}
