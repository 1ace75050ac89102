//! Random identifiers for boxes and executions.
use vstd::prelude::*;
use crate::text::join3;

verus! {

/// The characters of nanoid's URL-safe alphabet: letters, digits, '_' and '-'.
pub open spec fn is_id_char(c: char) -> bool {
    ('a' <= c && c <= 'z') || ('A' <= c && c <= 'Z') || ('0' <= c && c <= '9') || c == '_' || c == '-'
}

/// `size` random characters from `nanoid::format` with nanoid's default
/// random source and its `SAFE` alphabet. The source shows that `format`
/// pushes alphabet characters until the string holds `size` bytes; every
/// character of `SAFE` is one byte, so the result holds `size` characters,
/// each from the alphabet. Which ones is left to chance. For a size of 0
/// `format` asks for no random bytes and never returns, and it computes
/// `8 * size`, so `requires` leaves out both.
#[verifier::external_body]
fn random_suffix(size: usize) -> (s: String)
    requires
        1 <= size,
        8 * size <= usize::MAX,
    ensures
        s@.len() == size,
        forall|i: int| 0 <= i < size ==> is_id_char(#[trigger] s@[i]),
{
    nanoid::format(nanoid::rngs::default, &nanoid::alphabet::SAFE, size)
}

/// A fresh identifier: the prefix, an underscore, and twelve random
/// characters of the URL-safe alphabet.
pub fn gen_id(prefix: &str) -> (id: String)
    ensures
        id@.len() == prefix@.len() + 13,
        id@.subrange(0, prefix@.len() as int + 1) == prefix@ + "_"@,
        forall|i: int| prefix@.len() + 1 <= i < id@.len() ==> is_id_char(#[trigger] id@[i]),
{
    let suffix = random_suffix(12);
    proof {
        reveal_strlit("_");
    }
    let id = join3(prefix, "_", suffix.as_str());
    proof {
        assert(id@.subrange(0, prefix@.len() as int + 1) =~= prefix@ + "_"@);
        assert forall|i: int| prefix@.len() + 1 <= i < id@.len() implies is_id_char(#[trigger] id@[i]) by {
            assert(id@[i] == suffix@[i - prefix@.len() - 1]);
        }
    }
    id
}

} // verus!
