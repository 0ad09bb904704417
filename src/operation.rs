//! Operations: the signed, counted records that replicas exchange, and the
//! accounts that author them.
use crate::identity::{
    ed25519_signature, is_keypair, public_key_of_seed, sign_detached, signature_valid,
    verify_detached, Id, Signature, Time, UserPubKey, UserSecKey,
};
use crate::wire::{
    bytes_encoding, bytes_equal, le_bytes, lemma_parse_bytes_encoding, lemma_parse_le_encoding,
    lemma_pow256_facts, lemma_rest_of_concat, lemma_rest_of_suffix, parse_bytes, parse_le,
    pow256, push_bytes, push_le, push_u32, read_bytes, read_u128, read_u32, read_u64, rest_of,
    Encode,
};
use vstd::prelude::*;

verus! {

/// A per-author sequence number: an author's k-th operation carries k - 1.
pub type Counter = u32;

/// What an operation carries: a description of a change, or nothing but its
/// place in the author's sequence.
#[derive(Clone, Debug, PartialEq, Eq, Hash)]
pub enum OperationData<T> {
    Initial,
    Desc(T),
}

/// The signed part of an operation: its counter, when it was made, and what
/// it carries.
#[derive(Clone, Debug, PartialEq, Eq, Hash)]
pub struct OperationCounted<T> {
    pub counter: Counter,
    pub time: Time,
    pub contents: OperationData<T>,
}

/// A counted payload with the author's signature over its encoding.
#[derive(Clone, Debug, PartialEq, Eq, Hash)]
pub struct OperationSigned<T> {
    pub signature: Signature,
    pub payload: OperationCounted<T>,
}

/// A signed payload with the key of the author who signed it.
#[derive(Clone, Debug, PartialEq, Eq, Hash)]
pub struct Operation<T> {
    pub user_pub_key: UserPubKey,
    pub data: OperationSigned<T>,
}

/// The mathematical value of an [`OperationSigned`].
pub struct SignedView<V> {
    pub signature: Seq<u8>,
    pub payload: OperationCounted<V>,
}

/// The mathematical value of an [`Operation`].
pub struct OperationView<V> {
    pub user_pub_key: Seq<u8>,
    pub data: SignedView<V>,
}

/// The header of one replicated instance: its id and the value it starts from.
#[derive(Clone, Debug, PartialEq, Eq, Hash)]
pub struct CRDTInfo<T> {
    pub id: Id,
    pub initial_value: T,
}

impl<T: View> View for OperationData<T> {
    type V = OperationData<T::V>;

    open spec fn view(&self) -> OperationData<T::V> {
        match self {
            OperationData::Initial => OperationData::Initial,
            OperationData::Desc(d) => OperationData::Desc(d@),
        }
    }
}

impl<T: View> View for OperationCounted<T> {
    type V = OperationCounted<T::V>;

    open spec fn view(&self) -> OperationCounted<T::V> {
        OperationCounted { counter: self.counter, time: self.time, contents: self.contents@ }
    }
}

impl<T: View> View for OperationSigned<T> {
    type V = SignedView<T::V>;

    open spec fn view(&self) -> SignedView<T::V> {
        SignedView { signature: self.signature@, payload: self.payload@ }
    }
}

impl<T: View> View for Operation<T> {
    type V = OperationView<T::V>;

    open spec fn view(&self) -> OperationView<T::V> {
        OperationView { user_pub_key: self.user_pub_key@, data: self.data@ }
    }
}

impl<T: View> View for CRDTInfo<T> {
    type V = CRDTInfo<T::V>;

    open spec fn view(&self) -> CRDTInfo<T::V> {
        CRDTInfo { id: self.id, initial_value: self.initial_value@ }
    }
}

impl<T> OperationData<T> {
    /// Whether this carries no description.
    pub fn is_initial(&self) -> (r: bool)
        ensures
            r == (self is Initial),
    {
        match self {
            OperationData::Initial => true,
            OperationData::Desc(_) => false,
        }
    }
}

/// The bytes an author signs for a payload.
pub open spec fn signed_bytes<T: Encode>(p: OperationCounted<T::V>) -> Seq<u8> {
    OperationCounted::<T>::encoding(p)
}

/// Whether an operation carries a valid signature of its author over its
/// payload.
pub open spec fn is_authentic<T: Encode>(op: OperationView<T::V>) -> bool {
    signature_valid(op.data.signature, signed_bytes::<T>(op.data.payload), op.user_pub_key)
}

/// A copy of a byte string.
fn copy_bytes(b: &Vec<u8>) -> (r: Vec<u8>)
    ensures
        r@ == b@,
{
    let mut r: Vec<u8> = Vec::new();
    let mut i: usize = 0;
    while i < b.len()
        invariant
            i <= b@.len(),
            r@ == b@.subrange(0, i as int),
        decreases b@.len() - i,
    {
        r.push(b[i]);
        assert(r@ =~= b@.subrange(0, i + 1));
        i = i + 1;
    }
    assert(r@ =~= b@);
    r
}

proof fn lemma_vec_len_fits(b: &Vec<u8>)
    ensures
        b@.len() < pow256(8),
{
    broadcast use vstd::std_specs::vec::group_vec_axioms;

    lemma_pow256_facts();
    assert(b.len() == b@.len());
}

/// A byte string, such as a public key, framed by its length.
impl Encode for Vec<u8> {
    open spec fn encoding(v: Seq<u8>) -> Seq<u8> {
        bytes_encoding(v)
    }

    open spec fn parse(s: Seq<u8>) -> Option<(Seq<u8>, nat)> {
        parse_bytes(s)
    }

    proof fn lemma_parse_encoding(x: Vec<u8>, rest: Seq<u8>) {
        lemma_vec_len_fits(&x);
        lemma_parse_bytes_encoding(x@, rest);
        crate::wire::lemma_le_round_trip(x@.len(), 8);
    }

    proof fn lemma_parse_length(s: Seq<u8>) {
    }

    fn encode(&self, out: &mut Vec<u8>) {
        push_bytes(out, self);
    }

    fn decode(bytes: &Vec<u8>, pos: usize) -> (r: Option<(Vec<u8>, usize)>) {
        read_bytes(bytes, pos)
    }

    fn duplicate(&self) -> (r: Vec<u8>) {
        copy_bytes(self)
    }
}

impl Encode for Time {
    open spec fn encoding(v: Time) -> Seq<u8> {
        le_bytes(v.secs as nat, 8) + le_bytes(v.nanos as nat, 4)
    }

    open spec fn parse(s: Seq<u8>) -> Option<(Time, nat)> {
        match parse_le(s, 8) {
            None => None,
            Some(secs) => match parse_le(rest_of(s, 8), 4) {
                None => None,
                Some(nanos) => Some((Time { secs: secs as u64, nanos: nanos as u32 }, 12)),
            },
        }
    }

    proof fn lemma_parse_encoding(x: Time, rest: Seq<u8>) {
        let a = le_bytes(x.secs as nat, 8);
        let b = le_bytes(x.nanos as nat, 4);
        lemma_pow256_facts();
        assert((a + b) + rest =~= a + (b + rest));
        lemma_parse_le_encoding(x.secs as nat, 8, b + rest);
        crate::wire::lemma_le_round_trip(x.secs as nat, 8);
        crate::wire::lemma_le_round_trip(x.nanos as nat, 4);
        lemma_rest_of_concat(a, b + rest);
        lemma_parse_le_encoding(x.nanos as nat, 4, rest);
    }

    proof fn lemma_parse_length(s: Seq<u8>) {
    }

    fn encode(&self, out: &mut Vec<u8>) {
        push_le(out, self.secs as u128, 8);
        push_u32(out, self.nanos);
        assert(final(out)@ =~= old(out)@ + Self::encoding(self@));
    }

    fn decode(bytes: &Vec<u8>, pos: usize) -> (r: Option<(Time, usize)>) {
        let ghost s = bytes@.subrange(pos as int, bytes@.len() as int);
        let (secs, pos1) = match read_u64(bytes, pos) {
            Some(x) => x,
            None => return None,
        };
        proof {
            lemma_rest_of_suffix(bytes@, pos as nat, 8);
            lemma_pow256_facts();
        }
        let (nanos, pos2) = match read_u32(bytes, pos1) {
            Some(x) => x,
            None => return None,
        };
        Some((Time { secs, nanos }, pos2))
    }

    fn duplicate(&self) -> (r: Time) {
        *self
    }
}

impl<T: Encode> Encode for OperationData<T> {
    open spec fn encoding(v: OperationData<T::V>) -> Seq<u8> {
        match v {
            OperationData::Initial => le_bytes(0, 4),
            OperationData::Desc(d) => le_bytes(1, 4) + T::encoding(d),
        }
    }

    open spec fn parse(s: Seq<u8>) -> Option<(OperationData<T::V>, nat)> {
        match parse_le(s, 4) {
            None => None,
            Some(tag) => if tag == 0 {
                Some((OperationData::Initial, 4))
            } else if tag == 1 {
                match T::parse(rest_of(s, 4)) {
                    None => None,
                    Some((d, n)) => Some((OperationData::Desc(d), 4 + n)),
                }
            } else {
                None
            },
        }
    }

    proof fn lemma_parse_encoding(x: OperationData<T>, rest: Seq<u8>) {
        lemma_pow256_facts();
        match x {
            OperationData::Initial => {
                lemma_parse_le_encoding(0, 4, rest);
                crate::wire::lemma_le_round_trip(0, 4);
            },
            OperationData::Desc(d) => {
                let a = le_bytes(1, 4);
                let b = T::encoding(d@);
                assert((a + b) + rest =~= a + (b + rest));
                lemma_parse_le_encoding(1, 4, b + rest);
                crate::wire::lemma_le_round_trip(1, 4);
                lemma_rest_of_concat(a, b + rest);
                T::lemma_parse_encoding(d, rest);
            },
        }
    }

    proof fn lemma_parse_length(s: Seq<u8>) {
        if s.len() >= 4 {
            T::lemma_parse_length(rest_of(s, 4));
        }
    }

    fn encode(&self, out: &mut Vec<u8>) {
        match self {
            OperationData::Initial => {
                push_u32(out, 0);
            },
            OperationData::Desc(d) => {
                push_u32(out, 1);
                d.encode(out);
                assert(final(out)@ =~= old(out)@ + Self::encoding(self@));
            },
        }
    }

    fn decode(bytes: &Vec<u8>, pos: usize) -> (r: Option<(OperationData<T>, usize)>) {
        let (tag, pos1) = match read_u32(bytes, pos) {
            Some(x) => x,
            None => return None,
        };
        proof {
            lemma_pow256_facts();
        }
        if tag == 0 {
            Some((OperationData::Initial, pos1))
        } else if tag == 1 {
            proof {
                lemma_rest_of_suffix(bytes@, pos as nat, 4);
            }
            match T::decode(bytes, pos1) {
                Some((d, pos2)) => Some((OperationData::Desc(d), pos2)),
                None => None,
            }
        } else {
            None
        }
    }

    fn duplicate(&self) -> (r: OperationData<T>) {
        match self {
            OperationData::Initial => OperationData::Initial,
            OperationData::Desc(d) => OperationData::Desc(d.duplicate()),
        }
    }
}

impl<T: Encode> Encode for OperationCounted<T> {
    open spec fn encoding(v: OperationCounted<T::V>) -> Seq<u8> {
        le_bytes(v.counter as nat, 4) + (Time::encoding(v.time) + OperationData::<T>::encoding(
            v.contents,
        ))
    }

    open spec fn parse(s: Seq<u8>) -> Option<(OperationCounted<T::V>, nat)> {
        match parse_le(s, 4) {
            None => None,
            Some(counter) => match Time::parse(rest_of(s, 4)) {
                None => None,
                Some((time, n1)) => match OperationData::<T>::parse(rest_of(s, 4 + n1)) {
                    None => None,
                    Some((contents, n2)) => Some(
                        (
                            OperationCounted { counter: counter as u32, time, contents },
                            4 + n1 + n2,
                        ),
                    ),
                },
            },
        }
    }

    proof fn lemma_parse_encoding(x: OperationCounted<T>, rest: Seq<u8>) {
        let a = le_bytes(x.counter as nat, 4);
        let b = Time::encoding(x.time);
        let c = OperationData::<T>::encoding(x.contents@);
        lemma_pow256_facts();
        assert((a + (b + c)) + rest =~= a + (b + (c + rest)));
        lemma_parse_le_encoding(x.counter as nat, 4, b + (c + rest));
        crate::wire::lemma_le_round_trip(x.counter as nat, 4);
        lemma_rest_of_concat(a, b + (c + rest));
        Time::lemma_parse_encoding(x.time, c + rest);
        assert(rest_of(a + (b + (c + rest)), 4 + b.len()) =~= c + rest);
        OperationData::<T>::lemma_parse_encoding(x.contents, rest);
    }

    proof fn lemma_parse_length(s: Seq<u8>) {
        if s.len() >= 4 {
            Time::lemma_parse_length(rest_of(s, 4));
            if let Some((_, n1)) = Time::parse(rest_of(s, 4)) {
                OperationData::<T>::lemma_parse_length(rest_of(s, 4 + n1));
            }
        }
    }

    fn encode(&self, out: &mut Vec<u8>) {
        push_u32(out, self.counter);
        self.time.encode(out);
        self.contents.encode(out);
        assert(final(out)@ =~= old(out)@ + Self::encoding(self@));
    }

    fn decode(bytes: &Vec<u8>, pos: usize) -> (r: Option<(OperationCounted<T>, usize)>) {
        let ghost s = bytes@.subrange(pos as int, bytes@.len() as int);
        let (counter, pos1) = match read_u32(bytes, pos) {
            Some(x) => x,
            None => return None,
        };
        proof {
            lemma_pow256_facts();
            lemma_rest_of_suffix(bytes@, pos as nat, 4);
        }
        let (time, pos2) = match Time::decode(bytes, pos1) {
            Some(x) => x,
            None => return None,
        };
        proof {
            Time::lemma_parse_length(rest_of(s, 4));
            lemma_rest_of_suffix(bytes@, pos as nat, (pos2 - pos) as nat);
        }
        let (contents, pos3) = match OperationData::<T>::decode(bytes, pos2) {
            Some(x) => x,
            None => return None,
        };
        Some((OperationCounted { counter, time, contents }, pos3))
    }

    fn duplicate(&self) -> (r: OperationCounted<T>) {
        OperationCounted {
            counter: self.counter,
            time: self.time,
            contents: self.contents.duplicate(),
        }
    }
}

impl<T: Encode> Encode for OperationSigned<T> {
    open spec fn encoding(v: SignedView<T::V>) -> Seq<u8> {
        bytes_encoding(v.signature) + OperationCounted::<T>::encoding(v.payload)
    }

    open spec fn parse(s: Seq<u8>) -> Option<(SignedView<T::V>, nat)> {
        match parse_bytes(s) {
            None => None,
            Some((signature, n1)) => match OperationCounted::<T>::parse(rest_of(s, n1)) {
                None => None,
                Some((payload, n2)) => Some((SignedView { signature, payload }, n1 + n2)),
            },
        }
    }

    proof fn lemma_parse_encoding(x: OperationSigned<T>, rest: Seq<u8>) {
        let a = bytes_encoding(x.signature@);
        let b = OperationCounted::<T>::encoding(x.payload@);
        lemma_vec_len_fits(&x.signature);
        assert((a + b) + rest =~= a + (b + rest));
        lemma_parse_bytes_encoding(x.signature@, b + rest);
        crate::wire::lemma_le_round_trip(x.signature@.len(), 8);
        lemma_rest_of_concat(a, b + rest);
        OperationCounted::<T>::lemma_parse_encoding(x.payload, rest);
    }

    proof fn lemma_parse_length(s: Seq<u8>) {
        if let Some((_, n1)) = parse_bytes(s) {
            OperationCounted::<T>::lemma_parse_length(rest_of(s, n1));
        }
    }

    fn encode(&self, out: &mut Vec<u8>) {
        push_bytes(out, &self.signature);
        self.payload.encode(out);
        assert(final(out)@ =~= old(out)@ + Self::encoding(self@));
    }

    fn decode(bytes: &Vec<u8>, pos: usize) -> (r: Option<(OperationSigned<T>, usize)>) {
        let (signature, pos1) = match read_bytes(bytes, pos) {
            Some(x) => x,
            None => return None,
        };
        proof {
            lemma_rest_of_suffix(bytes@, pos as nat, (pos1 - pos) as nat);
        }
        let (payload, pos2) = match OperationCounted::<T>::decode(bytes, pos1) {
            Some(x) => x,
            None => return None,
        };
        Some((OperationSigned { signature, payload }, pos2))
    }

    fn duplicate(&self) -> (r: OperationSigned<T>) {
        OperationSigned { signature: copy_bytes(&self.signature), payload: self.payload.duplicate() }
    }
}

impl<T: Encode> Encode for Operation<T> {
    open spec fn encoding(v: OperationView<T::V>) -> Seq<u8> {
        bytes_encoding(v.user_pub_key) + OperationSigned::<T>::encoding(v.data)
    }

    open spec fn parse(s: Seq<u8>) -> Option<(OperationView<T::V>, nat)> {
        match parse_bytes(s) {
            None => None,
            Some((user_pub_key, n1)) => match OperationSigned::<T>::parse(rest_of(s, n1)) {
                None => None,
                Some((data, n2)) => Some((OperationView { user_pub_key, data }, n1 + n2)),
            },
        }
    }

    proof fn lemma_parse_encoding(x: Operation<T>, rest: Seq<u8>) {
        let a = bytes_encoding(x.user_pub_key@);
        let b = OperationSigned::<T>::encoding(x.data@);
        lemma_vec_len_fits(&x.user_pub_key);
        assert((a + b) + rest =~= a + (b + rest));
        lemma_parse_bytes_encoding(x.user_pub_key@, b + rest);
        crate::wire::lemma_le_round_trip(x.user_pub_key@.len(), 8);
        lemma_rest_of_concat(a, b + rest);
        OperationSigned::<T>::lemma_parse_encoding(x.data, rest);
    }

    proof fn lemma_parse_length(s: Seq<u8>) {
        if let Some((_, n1)) = parse_bytes(s) {
            OperationSigned::<T>::lemma_parse_length(rest_of(s, n1));
        }
    }

    fn encode(&self, out: &mut Vec<u8>) {
        push_bytes(out, &self.user_pub_key);
        self.data.encode(out);
        assert(final(out)@ =~= old(out)@ + Self::encoding(self@));
    }

    fn decode(bytes: &Vec<u8>, pos: usize) -> (r: Option<(Operation<T>, usize)>) {
        let (user_pub_key, pos1) = match read_bytes(bytes, pos) {
            Some(x) => x,
            None => return None,
        };
        proof {
            lemma_rest_of_suffix(bytes@, pos as nat, (pos1 - pos) as nat);
        }
        let (data, pos2) = match OperationSigned::<T>::decode(bytes, pos1) {
            Some(x) => x,
            None => return None,
        };
        Some((Operation { user_pub_key, data }, pos2))
    }

    fn duplicate(&self) -> (r: Operation<T>) {
        Operation { user_pub_key: copy_bytes(&self.user_pub_key), data: self.data.duplicate() }
    }
}

impl<T: Encode> Encode for CRDTInfo<T> {
    open spec fn encoding(v: CRDTInfo<T::V>) -> Seq<u8> {
        le_bytes(v.id as nat, 16) + T::encoding(v.initial_value)
    }

    open spec fn parse(s: Seq<u8>) -> Option<(CRDTInfo<T::V>, nat)> {
        match parse_le(s, 16) {
            None => None,
            Some(id) => match T::parse(rest_of(s, 16)) {
                None => None,
                Some((initial_value, n)) => Some(
                    (CRDTInfo { id: id as u128, initial_value }, 16 + n),
                ),
            },
        }
    }

    proof fn lemma_parse_encoding(x: CRDTInfo<T>, rest: Seq<u8>) {
        let a = le_bytes(x.id as nat, 16);
        let b = T::encoding(x.initial_value@);
        lemma_pow256_facts();
        assert((a + b) + rest =~= a + (b + rest));
        lemma_parse_le_encoding(x.id as nat, 16, b + rest);
        crate::wire::lemma_le_round_trip(x.id as nat, 16);
        lemma_rest_of_concat(a, b + rest);
        T::lemma_parse_encoding(x.initial_value, rest);
    }

    proof fn lemma_parse_length(s: Seq<u8>) {
        if s.len() >= 16 {
            T::lemma_parse_length(rest_of(s, 16));
        }
    }

    fn encode(&self, out: &mut Vec<u8>) {
        push_le(out, self.id, 16);
        self.initial_value.encode(out);
        assert(final(out)@ =~= old(out)@ + Self::encoding(self@));
    }

    fn decode(bytes: &Vec<u8>, pos: usize) -> (r: Option<(CRDTInfo<T>, usize)>) {
        let (id, pos1) = match read_u128(bytes, pos) {
            Some(x) => x,
            None => return None,
        };
        proof {
            lemma_pow256_facts();
            lemma_rest_of_suffix(bytes@, pos as nat, 16);
        }
        let (initial_value, pos2) = match T::decode(bytes, pos1) {
            Some(x) => x,
            None => return None,
        };
        Some((CRDTInfo { id, initial_value }, pos2))
    }

    fn duplicate(&self) -> (r: CRDTInfo<T>) {
        CRDTInfo { id: self.id, initial_value: self.initial_value.duplicate() }
    }
}

impl<T: Encode> OperationCounted<T> {
    /// Signs the encoding of this payload with the 64 secret-key bytes
    /// `user_secret_key`.
    pub fn sign(&self, user_secret_key: &Vec<u8>) -> (r: Signature)
        requires
            user_secret_key@.len() == 64,
        ensures
            r@ == ed25519_signature(signed_bytes::<T>(self@), user_secret_key@),
            r@.len() == 64,
            is_keypair(user_secret_key@) ==> signature_valid(
                r@,
                signed_bytes::<T>(self@),
                user_secret_key@.subrange(32, 64),
            ),
    {
        let mut encoded_payload: Vec<u8> = Vec::new();
        self.encode(&mut encoded_payload);
        assert(encoded_payload@ =~= signed_bytes::<T>(self@));
        sign_detached(&encoded_payload, user_secret_key)
    }

    /// Whether `signature` is a signature of this payload under `user_public_key`.
    pub fn verify_sig(&self, signature: &Signature, user_public_key: &UserPubKey) -> (r: bool)
        ensures
            r == signature_valid(signature@, signed_bytes::<T>(self@), user_public_key@),
    {
        let mut encoded_payload: Vec<u8> = Vec::new();
        self.encode(&mut encoded_payload);
        assert(encoded_payload@ =~= signed_bytes::<T>(self@));
        verify_detached(signature, &encoded_payload, user_public_key)
    }
}

/// The operation that the key `pk`, with secret-key bytes `sk`, authors
/// carrying `contents` under `counter` at `time`.
pub open spec fn authored<T: Encode>(
    pk: Seq<u8>,
    sk: Seq<u8>,
    counter: Counter,
    time: Time,
    contents: OperationData<T::V>,
) -> OperationView<T::V> {
    let payload = OperationCounted { counter, time, contents };
    OperationView {
        user_pub_key: pk,
        data: SignedView {
            signature: ed25519_signature(signed_bytes::<T>(payload), sk),
            payload,
        },
    }
}

/// A writer's identity and the counter it will give its next operation.
pub struct Account {
    user_pub_key: UserPubKey,
    user_sec_key: Vec<u8>,
    next_counter: u64,
}

impl Account {
    /// The keys are a real keypair: the secret key is a seed followed by
    /// its public key, and that public key is the one the account signs as.
    #[verifier::type_invariant]
    spec fn inv(&self) -> bool {
        &&& is_keypair(self.user_sec_key@)
        &&& self.user_pub_key@ == self.user_sec_key@.subrange(32, 64)
    }

    /// The public key the account signs as.
    pub closed spec fn pub_key(&self) -> Seq<u8> {
        self.user_pub_key@
    }

    /// The counter of the account's next operation.
    pub closed spec fn next(&self) -> nat {
        self.next_counter as nat
    }

    /// The bytes of the secret key the account signs with.
    pub closed spec fn secret(&self) -> Seq<u8> {
        self.user_sec_key@
    }

    pub fn user_pub_key(&self) -> (r: &UserPubKey)
        ensures
            r@ == self.pub_key(),
    {
        &self.user_pub_key
    }

    pub fn next_counter(&self) -> (r: u64)
        ensures
            r == self.next(),
    {
        self.next_counter
    }

    /// Authors an operation carrying `contents`, stamped with `time`, under
    /// the account's next counter, and moves the counter on by one. The
    /// operation is signed with the account's secret key, and its signature
    /// verifies.
    pub fn create_operation<T: Encode>(&mut self, contents: OperationData<T>, time: Time) -> (r:
        Operation<T>)
        requires
            old(self).next() <= u32::MAX,
        ensures
            r@ == authored::<T>(
                old(self).pub_key(),
                old(self).secret(),
                old(self).next() as Counter,
                time,
                contents@,
            ),
            r@.data.signature.len() == 64,
            is_authentic::<T>(r@),
            final(self).pub_key() == old(self).pub_key(),
            final(self).secret() == old(self).secret(),
            final(self).next() == old(self).next() + 1,
    {
        proof {
            use_type_invariant(&*self);
        }
        let payload = OperationCounted { counter: self.next_counter as Counter, time, contents };
        let signature = payload.sign(&self.user_sec_key);
        let op = Operation {
            user_pub_key: copy_bytes(&self.user_pub_key),
            data: OperationSigned { signature, payload },
        };
        self.next_counter = self.next_counter + 1;
        op
    }
}

/// The bytes of `b` from `from` up to `to`.
fn copy_range(b: &Vec<u8>, from: usize, to: usize) -> (r: Vec<u8>)
    requires
        from <= to <= b@.len(),
    ensures
        r@ == b@.subrange(from as int, to as int),
{
    let mut r: Vec<u8> = Vec::new();
    let mut i: usize = from;
    while i < to
        invariant
            from <= i <= to <= b@.len(),
            r@ == b@.subrange(from as int, i as int),
        decreases to - i,
    {
        r.push(b[i]);
        assert(r@ =~= b@.subrange(from as int, i + 1));
        i = i + 1;
    }
    r
}

/// An account that signs with `user_sec_key` as `user_pub_key`, starting at
/// counter zero. There is none when the two are not a keypair: the secret
/// key must be 64 bytes, a seed followed by the public key of that seed,
/// and that public key must be `user_pub_key`.
pub fn create_account(user_pub_key: UserPubKey, user_sec_key: UserSecKey) -> (r: Option<Account>)
    ensures
        r is Some <==> is_keypair(user_sec_key@) && user_pub_key@ == user_sec_key@.subrange(32, 64),
        r matches Some(a) ==> a.pub_key() == user_pub_key@ && a.secret() == user_sec_key@
            && a.next() == 0,
{
    if user_sec_key.len() != 64 {
        return None;
    }
    let seed = copy_range(&user_sec_key, 0, 32);
    let embedded = copy_range(&user_sec_key, 32, 64);
    let derived = public_key_of_seed(&seed);
    if !bytes_equal(&derived, &embedded) || !bytes_equal(&user_pub_key, &embedded) {
        return None;
    }
    Some(Account { user_pub_key, user_sec_key, next_counter: 0 })
}

/// The header of a new instance with the given starting value and id.
pub fn create_crdt_info<T>(applyable: T, id: Id) -> (r: CRDTInfo<T>)
    ensures
        r.id == id,
        r.initial_value == applyable,
{
    CRDTInfo { id, initial_value: applyable }
}

} // verus!
