//! What a type must offer to be held in a configuration node.
use vstd::prelude::*;

verus! {

/// A configuration value: it has a declared default and a stored form, and
/// every value reads back from its stored form.
pub trait ConfigValue: Sized {
    /// The value a node takes when the store has nothing usable for it.
    spec fn declared_default() -> Self;

    /// The stored form of `v`.
    spec fn encoding(v: Self) -> Seq<u8>;

    /// The value that the stored bytes `b` hold, if they hold one.
    spec fn decoding(b: Seq<u8>) -> Option<Self>;

    fn default_value() -> (r: Self)
        ensures
            r == Self::declared_default(),
    ;

    fn encode(&self) -> (r: Vec<u8>)
        ensures
            r@ == Self::encoding(*self),
    ;

    fn decode(b: &[u8]) -> (r: Option<Self>)
        ensures
            r == Self::decoding(b@),
    ;

    fn duplicate(&self) -> (r: Self)
        ensures
            r == *self,
    ;

    /// Every value reads back from its stored form.
    proof fn lemma_round_trip(v: Self)
        ensures
            Self::decoding(Self::encoding(v)) == Some(v),
    ;
}

/// The value a node takes for the bytes it found in the store, if any: what
/// they decode to, or else the declared default.
pub open spec fn value_from_store<T: ConfigValue>(found: Option<Seq<u8>>) -> T {
    match found {
        Some(b) => match T::decoding(b) {
            Some(v) => v,
            None => T::declared_default(),
        },
        None => T::declared_default(),
    }
}

/// Decodes the bytes found in the store, falling back to the declared default
/// where there are none or they do not decode.
pub fn decode_or_default<T: ConfigValue>(found: Option<&Vec<u8>>) -> (r: T)
    ensures
        r == value_from_store::<T>(
            match found {
                Some(b) => Some(b@),
                None => None,
            },
        ),
{
    match found {
        Some(b) => match T::decode(b.as_slice()) {
            Some(v) => v,
            None => T::default_value(),
        },
        None => T::default_value(),
    }
}

} // verus!
