use replicant::identity::{get_random_id, Time};
use replicant::monotone::Nat;
use replicant::operation::{
    create_account, create_crdt_info, CRDTInfo, Operation, OperationData, OperationSigned,
};
use replicant::replica::create_crdt;
use replicant::wire::{decode_from, encode_to_vec, DecodeError};
use sodiumoxide::crypto::sign;

fn sample_op(desc: u32) -> Operation<u32> {
    sodiumoxide::init().unwrap();
    let (pk, sk) = sign::gen_keypair();
    let mut account = create_account(pk.as_ref().to_vec(), sk.0.to_vec()).unwrap();
    let maker = create_crdt(create_crdt_info(Nat::from(0), get_random_id()));
    maker.create_operation_from_description(&mut account, desc)
}

#[test]
fn integers_are_little_endian() {
    assert_eq!(encode_to_vec(&0x0403_0201u32), vec![1, 2, 3, 4]);
    assert_eq!(encode_to_vec(&Nat { value: 7 }), vec![7, 0, 0, 0]);
    let t = Time { secs: 0x0102, nanos: 3 };
    assert_eq!(encode_to_vec(&t), vec![2, 1, 0, 0, 0, 0, 0, 0, 3, 0, 0, 0]);
}

#[test]
fn header_round_trip() {
    let info = create_crdt_info(Nat::from(5), 0x0102);
    let bytes = encode_to_vec(&info);
    let mut expected = vec![2u8, 1];
    expected.extend_from_slice(&[0u8; 14]);
    expected.extend_from_slice(&[5, 0, 0, 0]);
    assert_eq!(bytes, expected);
    assert_eq!(decode_from::<CRDTInfo<Nat>>(&bytes), Ok(info));
    let random = create_crdt_info(Nat::from(u32::MAX), get_random_id());
    assert_eq!(decode_from::<CRDTInfo<Nat>>(&encode_to_vec(&random)), Ok(random));
}

#[test]
fn operation_round_trip() {
    let op = sample_op(9);
    let bytes = encode_to_vec(&op);
    assert_eq!(decode_from::<Operation<u32>>(&bytes), Ok(op.clone()));
    let signed = encode_to_vec(&op.data);
    assert_eq!(decode_from::<OperationSigned<u32>>(&signed), Ok(op.data.clone()));
}

#[test]
fn initial_marker_round_trip() {
    let data: OperationData<u32> = OperationData::Initial;
    assert_eq!(encode_to_vec(&data), vec![0, 0, 0, 0]);
    assert_eq!(decode_from::<OperationData<u32>>(&vec![0, 0, 0, 0]), Ok(OperationData::Initial));
    assert_eq!(encode_to_vec(&OperationData::Desc(6u32)), vec![1, 0, 0, 0, 6, 0, 0, 0]);
}

#[test]
fn malformed_bytes_are_errors() {
    let info = create_crdt_info(Nat::from(5), 77);
    let mut bytes = encode_to_vec(&info);
    bytes.push(0);
    assert_eq!(decode_from::<CRDTInfo<Nat>>(&bytes), Err(DecodeError));
    bytes.truncate(10);
    assert_eq!(decode_from::<CRDTInfo<Nat>>(&bytes), Err(DecodeError));
    assert_eq!(decode_from::<OperationData<u32>>(&vec![2, 0, 0, 0]), Err(DecodeError));
    assert_eq!(decode_from::<Operation<u32>>(&vec![]), Err(DecodeError));
    let mut long = vec![255u8; 8];
    long.extend_from_slice(&[1, 2, 3]);
    assert_eq!(decode_from::<Operation<u32>>(&long), Err(DecodeError));
}

#[test]
fn layout_matches_bincode() {
    let op = sample_op(4);
    let p = &op.data.payload;
    let reference = bincode::serialize(&(
        op.user_pub_key.clone(),
        op.data.signature.clone(),
        p.counter,
        p.time.secs,
        p.time.nanos,
        1u32,
        4u32,
    ))
    .unwrap();
    assert_eq!(encode_to_vec(&op), reference);
}

#[test]
fn byte_strings_are_length_framed() {
    let key: Vec<u8> = vec![7, 8, 9];
    let bytes = encode_to_vec(&key);
    assert_eq!(bytes, vec![3, 0, 0, 0, 0, 0, 0, 0, 7, 8, 9]);
    assert_eq!(decode_from::<Vec<u8>>(&bytes), Ok(key));
    assert_eq!(decode_from::<Vec<u8>>(&vec![4, 0, 0, 0, 0, 0, 0, 0, 7]), Err(DecodeError));
}
