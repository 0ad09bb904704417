//! The canonical byte encoding shared by signing, storage and transport.
//!
//! Fixed-width integers are little-endian; byte strings carry an eight-byte
//! length in front of them; enum variants are a four-byte index.
use vstd::prelude::*;

verus! {

/// `256` to the power `n`.
pub open spec fn pow256(n: nat) -> nat
    decreases n,
{
    if n == 0 {
        1
    } else {
        256 * pow256((n - 1) as nat)
    }
}

/// The low `n` bytes of `x`, least significant first.
pub open spec fn le_bytes(x: nat, n: nat) -> Seq<u8>
    decreases n,
{
    if n == 0 {
        Seq::empty()
    } else {
        seq![(x % 256) as u8] + le_bytes(x / 256, (n - 1) as nat)
    }
}

/// The number whose little-endian bytes are `s`.
pub open spec fn le_value(s: Seq<u8>) -> nat
    decreases s.len(),
{
    if s.len() == 0 {
        0
    } else {
        s[0] as nat + 256 * le_value(s.drop_first())
    }
}

/// A byte string framed by its length.
pub open spec fn bytes_encoding(b: Seq<u8>) -> Seq<u8> {
    le_bytes(b.len(), 8) + b
}

/// Reads a length-framed byte string at the front of `s`, with the number of
/// bytes it took.
pub open spec fn parse_bytes(s: Seq<u8>) -> Option<(Seq<u8>, nat)> {
    if s.len() < 8 {
        None
    } else {
        let n = le_value(s.subrange(0, 8));
        if s.len() - 8 < n {
            None
        } else {
            Some((s.subrange(8, 8 + n as int), 8 + n))
        }
    }
}

/// Reads `n` little-endian bytes at the front of `s`.
pub open spec fn parse_le(s: Seq<u8>, n: nat) -> Option<nat> {
    if s.len() < n {
        None
    } else {
        Some(le_value(s.subrange(0, n as int)))
    }
}

pub proof fn lemma_pow256_facts()
    ensures
        pow256(4) == 0x1_0000_0000,
        pow256(8) == 0x1_0000_0000_0000_0000,
        pow256(16) == 0x1_0000_0000_0000_0000_0000_0000_0000_0000,
{
    reveal_with_fuel(pow256, 17);
}

pub proof fn lemma_pow256_monotone(a: nat, b: nat)
    requires
        a <= b,
    ensures
        pow256(a) <= pow256(b),
    decreases b - a,
{
    if a < b {
        lemma_pow256_monotone(a, (b - 1) as nat);
    }
}

pub proof fn lemma_le_value_bound(s: Seq<u8>)
    ensures
        le_value(s) < pow256(s.len()),
    decreases s.len(),
{
    if s.len() > 0 {
        lemma_le_value_bound(s.drop_first());
        let r = le_value(s.drop_first());
        let p = pow256((s.len() - 1) as nat);
        assert(s[0] as nat + 256 * r < 256 * p) by (nonlinear_arith)
            requires
                r < p,
                s[0] < 256,
        ;
    }
}

/// Reading back the low `n` bytes of a number below `256^n` gives the number.
pub proof fn lemma_le_round_trip(x: nat, n: nat)
    requires
        x < pow256(n),
    ensures
        le_bytes(x, n).len() == n,
        le_value(le_bytes(x, n)) == x,
    decreases n,
{
    if n == 0 {
    } else {
        let p = pow256((n - 1) as nat);
        assert(x / 256 < p && x == 256 * (x / 256) + x % 256) by (nonlinear_arith)
            requires
                x < 256 * p,
        ;
        lemma_le_round_trip(x / 256, (n - 1) as nat);
        let s = le_bytes(x, n);
        assert(s.drop_first() =~= le_bytes(x / 256, (n - 1) as nat));
    }
}

/// Appending to an encoding leaves its prefix readable.
pub proof fn lemma_prefix_subrange(a: Seq<u8>, b: Seq<u8>)
    ensures
        (a + b).subrange(0, a.len() as int) == a,
        (a + b).subrange(a.len() as int, (a + b).len() as int) == b,
{
    assert((a + b).subrange(0, a.len() as int) =~= a);
    assert((a + b).subrange(a.len() as int, (a + b).len() as int) =~= b);
}

pub proof fn lemma_parse_le_encoding(x: nat, n: nat, rest: Seq<u8>)
    requires
        x < pow256(n),
    ensures
        parse_le(le_bytes(x, n) + rest, n) == Some(x),
{
    lemma_le_round_trip(x, n);
    lemma_prefix_subrange(le_bytes(x, n), rest);
}

pub proof fn lemma_parse_bytes_encoding(b: Seq<u8>, rest: Seq<u8>)
    requires
        b.len() < pow256(8),
    ensures
        parse_bytes(bytes_encoding(b) + rest) == Some((b, 8 + b.len())),
{
    let s = bytes_encoding(b) + rest;
    lemma_le_round_trip(b.len(), 8);
    assert(s.subrange(0, 8) =~= le_bytes(b.len(), 8));
    assert(s.subrange(8, 8 + b.len() as int) =~= b);
}

/// Appends the low `n` bytes of `x`, least significant first.
pub fn push_le(out: &mut Vec<u8>, x: u128, n: usize)
    requires
        n <= 16,
    ensures
        final(out)@ == old(out)@ + le_bytes(x as nat, n as nat),
{
    let mut v: u128 = x;
    let mut i: usize = 0;
    while i < n
        invariant
            i <= n,
            out@ + le_bytes(v as nat, (n - i) as nat) == old(out)@ + le_bytes(x as nat, n as nat),
        decreases n - i,
    {
        let ghost before = out@;
        let ghost rest = le_bytes(v as nat / 256, (n - i - 1) as nat);
        assert(le_bytes(v as nat, (n - i) as nat) == seq![(v as nat % 256) as u8] + rest);
        out.push((v % 256) as u8);
        assert(out@ + rest =~= before + (seq![(v as nat % 256) as u8] + rest));
        v = v / 256;
        i = i + 1;
    }
    assert(out@ + le_bytes(v as nat, 0) =~= out@);
}

/// Reads `n` little-endian bytes of `bytes` starting at `pos`.
pub fn read_le(bytes: &Vec<u8>, pos: usize, n: usize) -> (r: u128)
    requires
        n <= 16,
        pos + n <= bytes@.len(),
    ensures
        r == le_value(bytes@.subrange(pos as int, pos + n)),
{
    let mut v: u128 = 0;
    let mut i: usize = n;
    proof {
        assert(bytes@.subrange(pos + n, pos + n) =~= Seq::<u8>::empty());
    }
    while i > 0
        invariant
            i <= n <= 16,
            pos + n <= bytes.len(),
            v == le_value(bytes@.subrange(pos + i, pos + n)),
        decreases i,
    {
        let ghost tail = bytes@.subrange(pos + i, pos + n);
        let ghost whole = bytes@.subrange(pos + i - 1, pos + n);
        proof {
            lemma_le_value_bound(tail);
            lemma_pow256_monotone(tail.len() + 1, 16);
            lemma_pow256_facts();
            assert(whole.drop_first() =~= tail);
        }
        i = i - 1;
        let b = bytes[pos + i];
        proof {
            assert(v * 256 + b < pow256(tail.len() + 1)) by (nonlinear_arith)
                requires
                    v < pow256(tail.len()),
                    b < 256,
                    pow256(tail.len() + 1) == 256 * pow256(tail.len()),
            ;
        }
        v = v * 256 + b as u128;
    }
    v
}

/// Appends `b` framed by its length.
pub fn push_bytes(out: &mut Vec<u8>, b: &Vec<u8>)
    ensures
        final(out)@ == old(out)@ + bytes_encoding(b@),
{
    push_le(out, b.len() as u128, 8);
    let ghost mid = out@;
    let mut i: usize = 0;
    while i < b.len()
        invariant
            i <= b@.len(),
            out@ == mid + b@.subrange(0, i as int),
        decreases b@.len() - i,
    {
        out.push(b[i]);
        assert(out@ =~= mid + b@.subrange(0, i + 1));
        i = i + 1;
    }
    assert(b@.subrange(0, b@.len() as int) =~= b@);
    assert(out@ =~= old(out)@ + bytes_encoding(b@));
}

/// Reads a length-framed byte string at `pos`, with the position after it.
pub fn read_bytes(bytes: &Vec<u8>, pos: usize) -> (r: Option<(Vec<u8>, usize)>)
    requires
        pos <= bytes@.len(),
    ensures
        match parse_bytes(bytes@.subrange(pos as int, bytes@.len() as int)) {
            Some((b, n)) => r matches Some((v, p)) && v@ == b && p == pos + n,
            None => r is None,
        },
{
    let ghost s = bytes@.subrange(pos as int, bytes@.len() as int);
    if bytes.len() - pos < 8 {
        return None;
    }
    let n = read_le(bytes, pos, 8);
    proof {
        assert(s.subrange(0, 8) =~= bytes@.subrange(pos as int, pos + 8));
    }
    if ((bytes.len() - pos - 8) as u128) < n {
        return None;
    }
    let start = pos + 8;
    let end = start + n as usize;
    let mut v: Vec<u8> = Vec::new();
    let mut i: usize = start;
    while i < end
        invariant
            start <= i <= end <= bytes@.len(),
            v@ == bytes@.subrange(start as int, i as int),
        decreases end - i,
    {
        v.push(bytes[i]);
        assert(v@ =~= bytes@.subrange(start as int, i + 1));
        i = i + 1;
    }
    assert(v@ =~= s.subrange(8, 8 + n as int));
    Some((v, end))
}

/// Appends `x` as four little-endian bytes.
pub fn push_u32(out: &mut Vec<u8>, x: u32)
    ensures
        final(out)@ == old(out)@ + le_bytes(x as nat, 4),
{
    push_le(out, x as u128, 4);
}

/// Reads a four-byte little-endian number at `pos`, with the position after it.
pub fn read_u32(bytes: &Vec<u8>, pos: usize) -> (r: Option<(u32, usize)>)
    requires
        pos <= bytes@.len(),
    ensures
        match parse_le(bytes@.subrange(pos as int, bytes@.len() as int), 4) {
            Some(x) => r == Some((x as u32, (pos + 4) as usize)) && x < pow256(4) && pos + 4 <= bytes.len(),
            None => r is None,
        },
{
    if bytes.len() - pos < 4 {
        return None;
    }
    let v = read_le(bytes, pos, 4);
    proof {
        let s = bytes@.subrange(pos as int, bytes@.len() as int);
        assert(s.subrange(0, 4) =~= bytes@.subrange(pos as int, pos + 4));
        lemma_le_value_bound(s.subrange(0, 4));
        lemma_pow256_facts();
    }
    Some((v as u32, pos + 4))
}

/// Reads an eight-byte little-endian number at `pos`, with the position after it.
pub fn read_u64(bytes: &Vec<u8>, pos: usize) -> (r: Option<(u64, usize)>)
    requires
        pos <= bytes@.len(),
    ensures
        match parse_le(bytes@.subrange(pos as int, bytes@.len() as int), 8) {
            Some(x) => r == Some((x as u64, (pos + 8) as usize)) && x < pow256(8) && pos + 8 <= bytes.len(),
            None => r is None,
        },
{
    if bytes.len() - pos < 8 {
        return None;
    }
    let v = read_le(bytes, pos, 8);
    proof {
        let s = bytes@.subrange(pos as int, bytes@.len() as int);
        assert(s.subrange(0, 8) =~= bytes@.subrange(pos as int, pos + 8));
        lemma_le_value_bound(s.subrange(0, 8));
        lemma_pow256_facts();
    }
    Some((v as u64, pos + 8))
}

/// Reads a sixteen-byte little-endian number at `pos`, with the position after it.
pub fn read_u128(bytes: &Vec<u8>, pos: usize) -> (r: Option<(u128, usize)>)
    requires
        pos <= bytes@.len(),
    ensures
        match parse_le(bytes@.subrange(pos as int, bytes@.len() as int), 16) {
            Some(x) => r == Some((x as u128, (pos + 16) as usize)) && x < pow256(16) && pos + 16 <= bytes.len(),
            None => r is None,
        },
{
    if bytes.len() - pos < 16 {
        return None;
    }
    let v = read_le(bytes, pos, 16);
    proof {
        let s = bytes@.subrange(pos as int, bytes@.len() as int);
        assert(s.subrange(0, 16) =~= bytes@.subrange(pos as int, pos + 16));
        lemma_le_value_bound(s.subrange(0, 16));
        lemma_pow256_facts();
    }
    Some((v, pos + 16))
}

/// Whether two byte strings are equal.
pub fn bytes_equal(a: &Vec<u8>, b: &Vec<u8>) -> (r: bool)
    ensures
        r == (a@ == b@),
{
    if a.len() != b.len() {
        return false;
    }
    let mut i: usize = 0;
    while i < a.len()
        invariant
            a@.len() == b@.len(),
            i <= a@.len(),
            forall|j: int| 0 <= j < i ==> a@[j] == b@[j],
        decreases a@.len() - i,
    {
        if a[i] != b[i] {
            return false;
        }
        i = i + 1;
    }
    assert(a@ =~= b@);
    true
}

/// A type with a canonical encoding that reads back to the value it came from.
///
/// The encoding is self-delimiting: a reader finds where a value ends
/// without being told, so encodings can be laid one after another.
pub trait Encode: View + Sized {
    /// The bytes that stand for `v`.
    spec fn encoding(v: Self::V) -> Seq<u8>;

    /// The value at the front of `s`, with the number of bytes it took.
    spec fn parse(s: Seq<u8>) -> Option<(Self::V, nat)>;

    /// What follows an encoding does not disturb reading it back.
    proof fn lemma_parse_encoding(x: Self, rest: Seq<u8>)
        ensures
            Self::parse(Self::encoding(x@) + rest) == Some((x@, Self::encoding(x@).len())),
    ;

    /// A read never takes more bytes than it was given.
    proof fn lemma_parse_length(s: Seq<u8>)
        ensures
            Self::parse(s) matches Some((_, n)) ==> n <= s.len(),
    ;

    fn encode(&self, out: &mut Vec<u8>)
        ensures
            final(out)@ == old(out)@ + Self::encoding(self@),
    ;

    fn decode(bytes: &Vec<u8>, pos: usize) -> (r: Option<(Self, usize)>)
        requires
            pos <= bytes@.len(),
        ensures
            match Self::parse(bytes@.subrange(pos as int, bytes@.len() as int)) {
                Some((v, n)) => r matches Some((x, p)) && x@ == v && p == pos + n,
                None => r is None,
            },
    ;

    /// An equal copy.
    fn duplicate(&self) -> (r: Self)
        ensures
            r@ == self@,
    ;
}

/// Whether two values have the same mathematical value, decided by comparing
/// their encodings.
pub fn same_value<E: Encode>(x: &E, y: &E) -> (r: bool)
    ensures
        r == (x@ == y@),
{
    let mut bx: Vec<u8> = Vec::new();
    x.encode(&mut bx);
    let mut by: Vec<u8> = Vec::new();
    y.encode(&mut by);
    let r = bytes_equal(&bx, &by);
    proof {
        assert(bx@ =~= E::encoding(x@));
        assert(by@ =~= E::encoding(y@));
        E::lemma_parse_encoding(*x, Seq::empty());
        E::lemma_parse_encoding(*y, Seq::empty());
        assert(E::encoding(x@) + Seq::<u8>::empty() =~= E::encoding(x@));
        assert(E::encoding(y@) + Seq::<u8>::empty() =~= E::encoding(y@));
    }
    r
}

/// Bytes that are no valid encoding of the value asked for.
#[derive(Clone, Copy, Debug, PartialEq, Eq, Structural, Hash)]
pub struct DecodeError;

/// The value that `s` encodes, when `s` holds exactly one encoding.
pub open spec fn decoded<E: Encode>(s: Seq<u8>) -> Option<E::V> {
    match E::parse(s) {
        Some((v, n)) => if n == s.len() {
            Some(v)
        } else {
            None
        },
        None => None,
    }
}

/// The canonical encoding of `x`.
pub fn encode_to_vec<E: Encode>(x: &E) -> (r: Vec<u8>)
    ensures
        r@ == E::encoding(x@),
{
    let mut out: Vec<u8> = Vec::new();
    x.encode(&mut out);
    assert(out@ =~= E::encoding(x@));
    out
}

/// The value that `bytes` encode; an error when they are no encoding of one
/// value, or have bytes left over after it.
pub fn decode_from<E: Encode>(bytes: &Vec<u8>) -> (r: Result<E, DecodeError>)
    ensures
        match decoded::<E>(bytes@) {
            Some(v) => r matches Ok(x) && x@ == v,
            None => r is Err,
        },
{
    proof {
        assert(bytes@.subrange(0, bytes@.len() as int) =~= bytes@);
    }
    match E::decode(bytes, 0) {
        Some((x, p)) => if p == bytes.len() {
            Ok(x)
        } else {
            Err(DecodeError)
        },
        None => Err(DecodeError),
    }
}

/// Reading back an encoding gives the value it came from.
pub proof fn lemma_decoded_encoding<E: Encode>(x: E)
    ensures
        decoded::<E>(E::encoding(x@)) == Some(x@),
{
    E::lemma_parse_encoding(x, Seq::empty());
    assert(E::encoding(x@) + Seq::<u8>::empty() =~= E::encoding(x@));
}

/// The bytes of `s` from `n` on.
pub open spec fn rest_of(s: Seq<u8>, n: nat) -> Seq<u8> {
    s.subrange(n as int, s.len() as int)
}

pub proof fn lemma_rest_of_concat(a: Seq<u8>, b: Seq<u8>)
    ensures
        rest_of(a + b, a.len()) == b,
{
    lemma_prefix_subrange(a, b);
}

pub proof fn lemma_rest_of_suffix(bytes: Seq<u8>, pos: nat, n: nat)
    requires
        pos + n <= bytes.len(),
    ensures
        rest_of(rest_of(bytes, pos), n) == bytes.subrange((pos + n) as int, bytes.len() as int),
{
    assert(rest_of(rest_of(bytes, pos), n) =~= bytes.subrange((pos + n) as int, bytes.len() as int));
}

impl Encode for u32 {
    open spec fn encoding(v: u32) -> Seq<u8> {
        le_bytes(v as nat, 4)
    }

    open spec fn parse(s: Seq<u8>) -> Option<(u32, nat)> {
        match parse_le(s, 4) {
            Some(x) => Some((x as u32, 4)),
            None => None,
        }
    }

    proof fn lemma_parse_encoding(x: u32, rest: Seq<u8>) {
        lemma_pow256_facts();
        lemma_parse_le_encoding(x as nat, 4, rest);
        lemma_le_round_trip(x as nat, 4);
    }

    proof fn lemma_parse_length(s: Seq<u8>) {
    }

    fn encode(&self, out: &mut Vec<u8>) {
        push_u32(out, *self);
    }

    fn decode(bytes: &Vec<u8>, pos: usize) -> (r: Option<(u32, usize)>) {
        let r = read_u32(bytes, pos);
        proof {
            lemma_pow256_facts();
        }
        r
    }

    fn duplicate(&self) -> (r: u32) {
        *self
    }
}

} // verus!
