//! Random identifiers: a prefix and the simple form of a version-4 UUID.

use vstd::prelude::*;

use crate::chars::{append_str, chars_of, string_from_chars};

verus! {

/// Whether `s` is 32 lowercase hexadecimal digits, the simple form of a UUID.
pub open spec fn is_simple_uuid(s: Seq<char>) -> bool {
    &&& s.len() == 32
    &&& forall|i: int| 0 <= i < 32 ==> ('0' <= #[trigger] s[i] <= '9' || 'a' <= s[i] <= 'f')
}

/// A fresh random UUID in simple form.
///
/// Trusted: formats `uuid::Uuid::new_v4().simple()`, which the crate's
/// source writes as 32 lowercase hexadecimal digits. Which digits come out
/// is left open.
#[verifier::external_body]
pub(crate) fn random_simple_uuid() -> (s: String)
    ensures
        is_simple_uuid(s@),
{
    uuid::Uuid::new_v4().simple().to_string()
}

/// Whether `id` is `prefix` followed by a simple-form UUID.
pub open spec fn is_prefixed_uuid(id: Seq<char>, prefix: Seq<char>) -> bool {
    &&& id.len() == prefix.len() + 32
    &&& id.take(prefix.len() as int) == prefix
    &&& is_simple_uuid(id.skip(prefix.len() as int))
}

/// `prefix` followed by a fresh random UUID in simple form.
pub fn random_id(prefix: &str) -> (id: String)
    ensures
        is_prefixed_uuid(id@, prefix@),
{
    let mut v = chars_of(prefix);
    let uuid = random_simple_uuid();
    append_str(&mut v, uuid.as_str());
    proof {
        assert(v@.take(prefix@.len() as int) =~= prefix@);
        assert(v@.skip(prefix@.len() as int) =~= uuid@);
    }
    string_from_chars(v.as_slice())
}

} // verus!
