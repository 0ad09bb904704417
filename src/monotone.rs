//! `Nat`: a counter that only grows, the simplest replicated data type.
use crate::identity::UserPubKey;
use crate::operation::Counter;
use crate::replica::Applyable;
use crate::wire::Encode;
use vstd::prelude::*;

verus! {

/// A number that can only go up. If I add to it and you add to it, once we
/// merge it has grown by both. It stops at `u32::MAX`.
#[derive(Clone, Copy, Debug, PartialEq, Eq, Structural, PartialOrd, Ord, Hash)]
pub struct Nat {
    pub value: u32,
}

impl View for Nat {
    type V = Nat;

    open spec fn view(&self) -> Nat {
        *self
    }
}

/// `a + b`, or `u32::MAX` where the sum would not fit.
pub open spec fn saturating_sum(a: u32, b: u32) -> u32 {
    if a + b > u32::MAX {
        u32::MAX
    } else {
        (a + b) as u32
    }
}

impl Encode for Nat {
    open spec fn encoding(v: Nat) -> Seq<u8> {
        u32::encoding(v.value)
    }

    open spec fn parse(s: Seq<u8>) -> Option<(Nat, nat)> {
        match u32::parse(s) {
            Some((value, n)) => Some((Nat { value }, n)),
            None => None,
        }
    }

    proof fn lemma_parse_encoding(x: Nat, rest: Seq<u8>) {
        u32::lemma_parse_encoding(x.value, rest);
    }

    proof fn lemma_parse_length(s: Seq<u8>) {
        u32::lemma_parse_length(s);
    }

    fn encode(&self, out: &mut Vec<u8>) {
        self.value.encode(out);
    }

    fn decode(bytes: &Vec<u8>, pos: usize) -> (r: Option<(Nat, usize)>) {
        match u32::decode(bytes, pos) {
            Some((value, p)) => Some((Nat { value }, p)),
            None => None,
        }
    }

    fn duplicate(&self) -> (r: Nat) {
        *self
    }
}

impl Applyable for Nat {
    const NAME: &'static str = "Nat";

    type Description = u32;

    open spec fn fold(v: Nat, desc: u32, user_pub_key: Seq<u8>, counter: Counter) -> Nat {
        Nat { value: saturating_sum(v.value, desc) }
    }

    proof fn lemma_fold_commutes(
        v: Nat,
        d1: u32,
        a1: Seq<u8>,
        c1: Counter,
        d2: u32,
        a2: Seq<u8>,
        c2: Counter,
    ) {
    }

    fn apply_without_idempotency_check(
        &self,
        desc: u32,
        user_pub_key: &UserPubKey,
        counter: Counter,
    ) -> (r: Nat) {
        Nat { value: self.value.saturating_add(desc) }
    }
}

impl Default for Nat {
    fn default() -> (r: Nat)
        ensures
            r.value == 0,
    {
        Nat { value: 0 }
    }
}

impl From<u32> for Nat {
    fn from(item: u32) -> (r: Nat) {
        Nat { value: item }
    }
}

impl vstd::std_specs::convert::FromSpecImpl<u32> for Nat {
    open spec fn obeys_from_spec() -> bool {
        true
    }

    open spec fn from_spec(v: u32) -> Nat {
        Nat { value: v }
    }
}

impl From<Nat> for u32 {
    fn from(item: Nat) -> (r: u32) {
        item.value
    }
}

impl vstd::std_specs::convert::FromSpecImpl<Nat> for u32 {
    open spec fn obeys_from_spec() -> bool {
        true
    }

    open spec fn from_spec(v: Nat) -> u32 {
        v.value
    }
}

} // verus!
