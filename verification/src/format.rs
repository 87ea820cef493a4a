//! The serialization capability that leaf nodes are parameterized over.
//!
//! A [`Format`] converts between raw bytes and a typed content value, with
//! optional default content for empty or missing files. The conversion is
//! pinned down by per-implementation specification functions, and four proof
//! obligations tie them together: empty bytes always default, non-empty
//! bytes never default and decode independently of the defaults, absent
//! content serializes to no bytes, and serialization round-trips.

use vstd::prelude::*;

use crate::errors::ConfigError;

verus! {

/// The result of a deserialization: the content value, and `true` when it
/// was produced from defaults rather than from on-disk bytes.
pub struct Deserialized<Content>(pub Content, pub bool);

/// The view of an optional value.
pub open spec fn opt_view<T: View>(o: Option<T>) -> Option<T::V> {
    match o {
        Some(x) => Some(x@),
        None => None,
    }
}

/// The view of an optional borrowed value.
pub open spec fn opt_ref_view<T: View>(o: Option<&T>) -> Option<T::V> {
    match o {
        Some(x) => Some(x@),
        None => None,
    }
}

/// Converts between raw bytes and typed content. Formats must be duplicable
/// (`Clone`) because directories construct a fresh format instance for every
/// child discovered on disk.
pub trait Format: Sized + Clone {
    type Content: View;

    type Defaults: View;

    /// What deserializing `bytes` under the given defaults yields: the
    /// content's view and the defaulted flag, or `None` on decode failure.
    spec fn spec_deserialize(bytes: Seq<u8>, defaults: Option<<Self::Defaults as View>::V>) -> Option<
        (<Self::Content as View>::V, bool),
    >;

    /// The bytes that serializing the given content yields.
    spec fn spec_serialize(content: Option<<Self::Content as View>::V>) -> Seq<u8>;

    /// The content that stands in for an empty or missing file.
    spec fn spec_default_content(defaults: Option<<Self::Defaults as View>::V>) -> <Self::Content as View>::V;

    /// Law: empty bytes always deserialize, to the default content, with the
    /// defaulted flag set.
    proof fn lemma_deserialize_empty(defaults: Option<<Self::Defaults as View>::V>)
        ensures
            Self::spec_deserialize(Seq::empty(), defaults) == Some(
                (Self::spec_default_content(defaults), true),
            ),
    ;

    /// Law: non-empty bytes never set the defaulted flag, and decode the
    /// same way whatever defaults are supplied.
    proof fn lemma_deserialize_nonempty(
        bytes: Seq<u8>,
        d1: Option<<Self::Defaults as View>::V>,
        d2: Option<<Self::Defaults as View>::V>,
    )
        requires
            bytes.len() > 0,
        ensures
            Self::spec_deserialize(bytes, d1) == Self::spec_deserialize(bytes, d2),
            Self::spec_deserialize(bytes, d1) matches Some(p) ==> p.1 == false,
    ;

    /// Law: absent content serializes to no bytes.
    proof fn lemma_serialize_none()
        ensures
            Self::spec_serialize(None) == Seq::<u8>::empty(),
    ;

    /// Law: whenever content serializes to at least one byte, deserializing
    /// those bytes restores exactly that content, with no defaulting.
    proof fn lemma_round_trip(
        c: <Self::Content as View>::V,
        defaults: Option<<Self::Defaults as View>::V>,
    )
        requires
            Self::spec_serialize(Some(c)).len() > 0,
        ensures
            Self::spec_deserialize(Self::spec_serialize(Some(c)), defaults) == Some((c, false)),
    ;

    /// Decodes bytes into content, falling back to `defaults` when the
    /// input is empty.
    fn deserialize(&self, input: Vec<u8>, defaults: Option<&Self::Defaults>) -> (r: Result<
        Deserialized<Self::Content>,
        ConfigError,
    >)
        ensures
            match Self::spec_deserialize(input@, opt_ref_view(defaults)) {
                Some(p) => r matches Ok(d) && d.0@ == p.0 && d.1 == p.1,
                None => r matches Err(e) && e == ConfigError::Decode,
            },
    ;

    /// Encodes content into bytes; absent content becomes no bytes.
    fn serialize(&self, input: Option<&Self::Content>) -> (r: Vec<u8>)
        ensures
            r@ == Self::spec_serialize(opt_ref_view(input)),
    ;
}

} // verus!
