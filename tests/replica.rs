use replicant::identity::{get_random_id, now, Time};
use replicant::monotone::Nat;
use replicant::operation::{create_account, create_crdt_info, Account, Operation, OperationData};
use replicant::replica::{create_crdt, Applyable, ApplyError, CRDT};
use sodiumoxide::crypto::sign;

fn keypair() -> (Vec<u8>, Vec<u8>) {
    sodiumoxide::init().unwrap();
    let (pk, sk) = sign::gen_keypair();
    (pk.as_ref().to_vec(), sk.0.to_vec())
}

fn new_account() -> Account {
    let (pk, sk) = keypair();
    create_account(pk, sk).unwrap()
}

fn fresh() -> CRDT<Nat> {
    create_crdt(create_crdt_info(Nat::from(0), get_random_id()))
}

/// Author A's operations carrying 1, 2 and 3, with A's key.
fn three_ops() -> (Vec<u8>, Vec<Operation<u32>>) {
    let mut account = new_account();
    let author = account.user_pub_key().clone();
    let maker = fresh();
    let ops = vec![1u32, 2, 3]
        .into_iter()
        .map(|d| maker.create_operation_from_description(&mut account, d))
        .collect();
    (author, ops)
}

fn deliver_all(crdt: &mut CRDT<Nat>, ops: &[Operation<u32>]) {
    for op in ops {
        assert_eq!(crdt.apply(op.clone()), Ok(()));
    }
}

#[test]
fn apply_desc_for_nats() {
    let mut account = new_account();
    let mut new = create_crdt(create_crdt_info(Nat::from(0), get_random_id()));

    new.apply_desc(&mut account, 3).unwrap();

    assert_eq!(new.value.value, 3);
}

#[test]
fn basic_nat_test() {
    let vs1: Vec<u32> = vec![1, 2, 3, 4, 5];

    let mut account = new_account();
    let mut try1 = create_crdt(create_crdt_info(Nat::from(0), get_random_id()));
    for desc in vs1.clone() {
        try1.apply_desc(&mut account, desc).unwrap();
    }

    assert_eq!(try1.value.value, vs1.iter().sum::<u32>());
}

#[test]
fn local_description_lands_in_outbox() {
    let mut account = new_account();
    let mut crdt = fresh();
    assert_eq!(crdt.apply_desc(&mut account, 7), Ok(()));
    assert_eq!(crdt.value.value, 7);
    assert_eq!(account.next_counter(), 1);
    let flushed = crdt.flush();
    assert_eq!(flushed.len(), 1);
    let op = flushed.get(&0).unwrap();
    assert_eq!(op.data.payload.counter, 0);
    assert_eq!(op.data.payload.contents, OperationData::Desc(7));
    assert_eq!(&op.user_pub_key, account.user_pub_key());
    assert_eq!(crdt.outbox_len(), 0);
    assert!(crdt.flush().is_empty());
    assert_eq!(crdt.value.value, 7);
    assert_eq!(crdt.state_vector_of(account.user_pub_key()), 1);
}

#[test]
fn incoming_operations_stay_out_of_the_outbox() {
    let (_, ops) = three_ops();
    let mut account = new_account();
    let mut crdt = fresh();
    deliver_all(&mut crdt, &ops);
    assert_eq!(crdt.outbox_len(), 0);
    crdt.apply_desc(&mut account, 10).unwrap();
    assert_eq!(crdt.value.value, 16);
    let flushed = crdt.flush();
    assert_eq!(flushed.len(), 1);
    assert_eq!(&flushed.get(&0).unwrap().user_pub_key, account.user_pub_key());
}

#[test]
fn flush_returns_everything_since_last_flush() {
    let mut account = new_account();
    let mut crdt = fresh();
    crdt.apply_desc(&mut account, 1).unwrap();
    crdt.apply_desc(&mut account, 2).unwrap();
    let first = crdt.flush();
    assert_eq!(first.len(), 2);
    assert!(first.contains_key(&0) && first.contains_key(&1));
    crdt.apply_desc(&mut account, 4).unwrap();
    let second = crdt.flush();
    assert_eq!(second.len(), 1);
    assert_eq!(second.get(&2).unwrap().data.payload.contents, OperationData::Desc(4));
    assert_eq!(crdt.value.value, 7);
}

#[test]
fn out_of_order_delivery_converges() {
    let (author, ops) = three_ops();
    let mut crdt = fresh();
    deliver_all(&mut crdt, &[ops[2].clone(), ops[0].clone(), ops[1].clone()]);
    assert_eq!(crdt.value.value, 6);
    assert_eq!(crdt.pending_len(&author), 0);
    assert_eq!(crdt.state_vector_of(&author), 3);
}

#[test]
fn gap_holds_later_operations() {
    let (author, ops) = three_ops();
    let mut crdt = fresh();
    deliver_all(&mut crdt, &[ops[0].clone(), ops[2].clone()]);
    assert_eq!(crdt.value.value, 1);
    assert_eq!(crdt.pending_len(&author), 1);
    assert_eq!(crdt.pending_of(&author, 2), Some(&ops[2].data));
    assert_eq!(crdt.state_vector_of(&author), 1);
    deliver_all(&mut crdt, &[ops[1].clone()]);
    assert_eq!(crdt.value.value, 6);
    assert_eq!(crdt.pending_len(&author), 0);
    assert_eq!(crdt.pending_of(&author, 2), None);
}

#[test]
fn two_authors_commute() {
    let mut a = new_account();
    let mut b = new_account();
    let maker = fresh();
    let op_a = maker.create_operation_from_description(&mut a, 5);
    let op_b = maker.create_operation_from_description(&mut b, 8);
    let mut first = fresh();
    deliver_all(&mut first, &[op_a.clone(), op_b.clone()]);
    let mut second = fresh();
    deliver_all(&mut second, &[op_b, op_a]);
    assert_eq!(first.value.value, 13);
    assert_eq!(second.value.value, 13);
}

#[test]
fn tampered_signature_is_rejected() {
    let (author, ops) = three_ops();
    let mut crdt = fresh();
    deliver_all(&mut crdt, &[ops[0].clone()]);
    let mut forged = ops[1].clone();
    forged.data.signature[0] ^= 1;
    assert_eq!(crdt.apply(forged), Err(ApplyError::SignatureInvalid));
    assert_eq!(crdt.value.value, 1);
    assert_eq!(crdt.state_vector_of(&author), 1);
    assert_eq!(crdt.pending_len(&author), 0);
}

#[test]
fn forged_payload_is_rejected() {
    let (author, ops) = three_ops();
    let mut crdt = fresh();
    let mut forged = ops[0].clone();
    forged.data.payload.contents = OperationData::Desc(100);
    assert_eq!(crdt.apply(forged), Err(ApplyError::SignatureInvalid));
    assert_eq!(crdt.value.value, 0);
    assert_eq!(crdt.state_vector_of(&author), 0);
    let mut short_key = ops[0].clone();
    short_key.user_pub_key.pop();
    assert_eq!(crdt.apply(short_key), Err(ApplyError::SignatureInvalid));
    let mut short_sig = ops[0].clone();
    short_sig.data.signature.pop();
    assert_eq!(crdt.apply(short_sig), Err(ApplyError::SignatureInvalid));
    assert_eq!(crdt.apply(ops[0].clone()), Ok(()));
    assert_eq!(crdt.value.value, 1);
}

#[test]
fn duplicates_are_folded_once() {
    let (author, ops) = three_ops();
    let mut crdt = fresh();
    let order = [0usize, 0, 1, 0, 2, 2];
    for i in order.iter() {
        assert_eq!(crdt.apply(ops[*i].clone()), Ok(()));
    }
    assert_eq!(crdt.value.value, 6);
    assert_eq!(crdt.state_vector_of(&author), 3);
    assert_eq!(crdt.pending_len(&author), 0);
}

#[test]
fn permutation_gives_same_state() {
    let (author, ops) = three_ops();
    let mut in_order = fresh();
    deliver_all(&mut in_order, &ops);
    for perm in [[0usize, 2, 1], [1, 0, 2], [1, 2, 0], [2, 1, 0]].iter() {
        let mut other = fresh();
        for i in perm.iter() {
            other.apply(ops[*i].clone()).unwrap();
        }
        assert_eq!(other.value, in_order.value);
        assert_eq!(other.state_vector_of(&author), in_order.state_vector_of(&author));
        assert_eq!(other.pending_len(&author), 0);
    }
}

#[test]
fn repeated_and_shuffled_gives_same_state() {
    let (author, ops) = three_ops();
    let mut once = fresh();
    deliver_all(&mut once, &ops);
    let mut many = fresh();
    for i in [2usize, 1, 2, 0, 1, 0, 2].iter() {
        many.apply(ops[*i].clone()).unwrap();
    }
    assert_eq!(many.value, once.value);
    assert_eq!(many.value.value, 6);
    assert_eq!(many.state_vector_of(&author), 3);
    assert_eq!(many.pending_len(&author), 0);
}

#[test]
fn missing_predecessor_blocks_then_drains() {
    let mut account = new_account();
    let author = account.user_pub_key().clone();
    let maker = fresh();
    let ops: Vec<Operation<u32>> = (1u32..=5)
        .map(|d| maker.create_operation_from_description(&mut account, d))
        .collect();
    let mut crdt = fresh();
    deliver_all(&mut crdt, &[ops[0].clone(), ops[4].clone(), ops[2].clone(), ops[3].clone()]);
    assert_eq!(crdt.value.value, 1);
    assert_eq!(crdt.state_vector_of(&author), 1);
    assert_eq!(crdt.pending_len(&author), 3);
    deliver_all(&mut crdt, &[ops[1].clone()]);
    assert_eq!(crdt.value.value, 15);
    assert_eq!(crdt.state_vector_of(&author), 5);
    assert_eq!(crdt.pending_len(&author), 0);
}

#[test]
fn conflicting_payload_at_same_counter_keeps_first() {
    let (pk, sk) = keypair();
    let mut honest = create_account(pk.clone(), sk.clone()).unwrap();
    let mut twin = create_account(pk.clone(), sk).unwrap();
    let maker = fresh();
    let _first = maker.create_operation_from_description(&mut honest, 1);
    let kept = maker.create_operation_from_description(&mut honest, 2);
    let _other_first = maker.create_operation_from_description(&mut twin, 1);
    let rival = maker.create_operation_from_description(&mut twin, 9);
    let mut crdt = fresh();
    assert_eq!(crdt.apply(kept.clone()), Ok(()));
    assert_eq!(crdt.apply(rival), Err(ApplyError::DuplicateAtDifferentSignature));
    assert_eq!(crdt.pending_of(&pk, 1), Some(&kept.data));
    assert_eq!(crdt.apply(kept), Ok(()));
    assert_eq!(crdt.pending_len(&pk), 1);
}

#[test]
fn mismatched_keys_make_no_account() {
    let (pk, sk) = keypair();
    let (other_pk, other_sk) = keypair();
    assert!(create_account(pk.clone(), other_sk.clone()).is_none());
    assert!(create_account(other_pk.clone(), sk.clone()).is_none());
    assert!(create_account(pk.clone(), sk[..63].to_vec()).is_none());
    let mut forged = sk.clone();
    forged[0] ^= 1;
    assert!(create_account(pk.clone(), forged).is_none());
    let account = create_account(pk.clone(), sk).unwrap();
    assert_eq!(account.user_pub_key(), &pk);
    assert_eq!(account.next_counter(), 0);
    assert!(create_account(other_pk, other_sk).is_some());
}

#[test]
fn account_from_seed_signs_verifiably() {
    sodiumoxide::init().unwrap();
    let seed = sign::Seed([7u8; 32]);
    let (pk, sk) = sign::keypair_from_seed(&seed);
    let mut account = create_account(pk.as_ref().to_vec(), sk.0.to_vec()).unwrap();
    let mut crdt = fresh();
    assert_eq!(crdt.apply_desc(&mut account, 4), Ok(()));
    assert_eq!(crdt.value.value, 4);
}

#[test]
fn initial_marker_takes_a_counter_and_changes_nothing() {
    let mut account = new_account();
    let author = account.user_pub_key().clone();
    let marker: Operation<u32> = account.create_operation(OperationData::Initial, now());
    assert!(marker.data.payload.contents.is_initial());
    let maker = fresh();
    let op = maker.create_operation_from_description(&mut account, 4);
    assert!(!op.data.payload.contents.is_initial());
    assert_eq!(op.data.payload.counter, 1);
    let mut crdt = fresh();
    deliver_all(&mut crdt, &[op, marker]);
    assert_eq!(crdt.value.value, 4);
    assert_eq!(crdt.state_vector_of(&author), 2);
}

#[test]
fn nat_saturates_and_converts() {
    assert_eq!(Nat::NAME, "Nat");
    let n = Nat::from(u32::MAX - 1);
    let author = vec![1u8; 32];
    assert_eq!(n.apply_without_idempotency_check(5, &author, 0).value, u32::MAX);
    assert_eq!(Nat::from(2).apply_without_idempotency_check(3, &author, 7).value, 5);
    assert_eq!(Nat::default().value, 0);
    let back: u32 = Nat { value: 9 }.into();
    assert_eq!(back, 9);
}

#[test]
fn saturation_through_the_engine() {
    let mut account = new_account();
    let mut crdt = create_crdt(create_crdt_info(Nat::from(u32::MAX - 2), get_random_id()));
    crdt.apply_desc(&mut account, 2).unwrap();
    assert_eq!(crdt.value.value, u32::MAX);
    crdt.apply_desc(&mut account, 10).unwrap();
    assert_eq!(crdt.value.value, u32::MAX);
}

#[test]
fn replica_keeps_its_header() {
    let info = create_crdt_info(Nat::from(11), 0xABCD);
    let crdt = create_crdt(info.clone());
    assert_eq!(crdt.info(), &info);
    assert_eq!(crdt.value.value, 11);
}

#[test]
fn created_operation_carries_given_time_and_valid_signature() {
    let mut account = new_account();
    let t = Time { secs: 42, nanos: 7 };
    let op: Operation<u32> = account.create_operation(OperationData::Desc(3), t);
    assert_eq!(op.data.payload.time, t);
    assert_eq!(op.data.signature.len(), 64);
    let payload = replicant::wire::encode_to_vec(&op.data.payload);
    let pk = sign::PublicKey::from_slice(&op.user_pub_key).unwrap();
    let sig = sign::Signature::from_bytes(&op.data.signature).unwrap();
    assert!(sign::verify_detached(&sig, &payload, &pk));
    assert!(op.data.payload.verify_sig(&op.data.signature, &op.user_pub_key));
    let other = new_account();
    assert!(!op.data.payload.verify_sig(&op.data.signature, other.user_pub_key()));
}

#[test]
fn clock_and_ids() {
    let t = now();
    assert!(t.secs > 1_500_000_000);
    assert!(t.nanos < 1_000_000_000);
    assert_ne!(get_random_id(), get_random_id());
}

#[test]
fn signing_with_key_bytes() {
    sodiumoxide::init().unwrap();
    let (pk, sk) = sign::gen_keypair();
    // libsodium lays a secret key out as its seed followed by its public key.
    assert_eq!(&sk.0[32..], pk.as_ref());
    let payload = replicant::operation::OperationCounted {
        counter: 3,
        time: Time { secs: 1, nanos: 2 },
        contents: OperationData::Desc(5u32),
    };
    let sig = payload.sign(&sk.0.to_vec());
    assert_eq!(sig.len(), 64);
    let encoded = replicant::wire::encode_to_vec(&payload);
    assert_ne!(sig, encoded);
    let detached = sign::Signature::from_bytes(&sig).unwrap();
    assert!(sign::verify_detached(&detached, &encoded, &pk));
    assert!(payload.verify_sig(&sig, &pk.as_ref().to_vec()));
    assert_eq!(sig, payload.sign(&sk.0.to_vec()));
}
