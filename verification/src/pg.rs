//! The boundary to the PostgreSQL driver: its types, and the calls into it that
//! the rest of the crate builds on. Nothing in this module is proved; each item
//! states what the driver's source shows.
//!
//! The contracts are those of `postgres-types` 0.2.2 and `bytes` 1. From 0.2.3
//! on the driver's string encoder writes a version byte of its own where the
//! target type is named `ltree`, which `text_to_sql` below does not allow for.

use crate::error::EncodingError;
use crate::hstore::distinct_keys;
use crate::hstore::framed;
use crate::hstore::map_of;
use crate::hstore::pairs_of;
use bytes::BufMut;
use bytes::BytesMut;
use std::collections::HashMap;
use tokio_postgres::types::FromSql;
use tokio_postgres::types::ToSql;
use tokio_postgres::types::Type;
use vstd::prelude::*;
use vstd::utf8::decode_utf8;
use vstd::utf8::encode_utf8;
use vstd::utf8::valid_utf8;

verus! {

/// `postgres_types::Type`, the driver's description of the type of a column or
/// of a parameter slot. Opaque here.
#[verifier::external_type_specification]
#[verifier::external_body]
pub struct ExType(Type);

/// `bytes::BytesMut`, the growable buffer that parameters are encoded into.
#[verifier::external_type_specification]
#[verifier::external_body]
pub struct ExBytesMut(BytesMut);

/// Whether an encoded parameter is NULL.
#[derive(Debug, Clone, Copy, PartialEq, Eq, Structural)]
pub enum IsNull {
    Yes,
    No,
}

/// The declared name of a type, as `Type::name` returns it.
pub uninterp spec fn declared_name(ty: Type) -> Seq<char>;

/// The bytes that a buffer holds, in the order in which they were written.
pub uninterp spec fn buffer_bytes(buf: BytesMut) -> Seq<u8>;

/// Whether the driver reads a column of this type as text, as
/// `<String as FromSql>::accepts` decides it.
pub uninterp spec fn accepts_text(ty: Type) -> bool;

/// `Type::name` returns the type's declared name.
pub assume_specification[ Type::name ](ty: &Type) -> (name: &str)
    ensures
        name@ == declared_name(*ty),
;

/// `BytesMut::len` is the number of bytes held.
pub assume_specification[ BytesMut::len ](buf: &BytesMut) -> (n: usize)
    ensures
        n == buffer_bytes(*buf).len(),
;

/// `BufMut::put_u8` on a `BytesMut` appends one byte and grows the buffer when
/// it is full. It is documented to panic when no byte remains to be written,
/// which for a `BytesMut` is at `usize::MAX` bytes.
#[verifier::external_body]
pub(crate) fn put_u8(out: &mut BytesMut, byte: u8)
    requires
        buffer_bytes(*old(out)).len() < usize::MAX,
    ensures
        buffer_bytes(*final(out)) == buffer_bytes(*old(out)).push(byte),
{
    out.put_u8(byte)
}

/// `<String as ToSql>::to_sql` appends the UTF-8 bytes of the text, whatever
/// the target type, and reports a value that is not NULL. It never fails; it
/// panics, as `put_u8` does, when the buffer cannot take the bytes.
#[verifier::external_body]
pub(crate) fn text_to_sql(text: &String, ty: &Type, out: &mut BytesMut) -> (r: Result<IsNull, EncodingError>)
    requires
        buffer_bytes(*old(out)).len() + encode_utf8(text@).len() <= usize::MAX,
    ensures
        r matches Ok(IsNull::No),
        buffer_bytes(*final(out)) == buffer_bytes(*old(out)) + encode_utf8(text@),
{
    match text.to_sql(ty, out) {
        Ok(tokio_postgres::types::IsNull::Yes) => Ok(IsNull::Yes),
        Ok(tokio_postgres::types::IsNull::No) => Ok(IsNull::No),
        Err(e) => Err(EncodingError::Inner(e.to_string())),
    }
}

/// `<String as FromSql>::accepts`: whether a column of this type is read as
/// text.
#[verifier::external_body]
pub(crate) fn text_accepts(ty: &Type) -> (r: bool)
    ensures
        r == accepts_text(*ty),
{
    <String as FromSql>::accepts(ty)
}

/// `<String as FromSql>::from_sql` reads the bytes as UTF-8, whatever the
/// type, and fails exactly when they are not.
#[verifier::external_body]
pub(crate) fn text_from_sql(ty: &Type, raw: &[u8]) -> (r: Option<String>)
    ensures
        r is Some <==> valid_utf8(raw@),
        r matches Some(text) ==> text@ == decode_utf8(raw@),
{
    <String as FromSql>::from_sql(ty, raw).ok()
}

/// `<HashMap<String, Option<String>> as FromSql>::accepts`: a column is read
/// as a bag of attributes exactly when its type is named `hstore`.
#[verifier::external_body]
pub(crate) fn hstore_accepts(ty: &Type) -> (r: bool)
    ensures
        r == (declared_name(*ty) == "hstore"@),
{
    <HashMap<String, Option<String>> as FromSql>::accepts(ty)
}

/// `<HashMap<String, Option<String>> as FromSql>::from_sql` parses a value in
/// `hstore` binary form, whatever the type: a count, then for each entry the
/// length and the bytes of the key and of the value, where a negative length
/// is NULL. It fails where a key or a value is not UTF-8. The entries are
/// collected into a map, so each key comes back once, with the value of its
/// last entry, and the pairs in no stated order. The parser panics where a
/// length in the value reaches past its end, so such values are left out.
#[verifier::external_body]
pub(crate) fn hstore_from_sql(ty: &Type, raw: &[u8]) -> (r: Option<Vec<(String, Option<String>)>>)
    requires
        framed(raw@),
    ensures
        r is Some <==> pairs_of(raw@) is Some,
        r matches Some(pairs) ==> distinct_keys(pairs.deep_view()) && map_of(pairs.deep_view())
            == map_of(pairs_of(raw@)->0),
{
    match <HashMap<String, Option<String>> as FromSql>::from_sql(ty, raw) {
        Ok(pairs) => Some(pairs.into_iter().collect()),
        Err(_) => None,
    }
}

} // verus!
