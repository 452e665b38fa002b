use sha1::{Digest, Sha1};
use vstd::prelude::*;

verus! {

/// The SHA-1 digest of `data`.
pub uninterp spec fn sha1_of(data: Seq<u8>) -> Seq<u8>;

/// Relies on sha1's `Digest::digest` for `Sha1`: the 20-byte digest of the input,
/// which depends on the bytes alone.
#[verifier::external_body]
fn sha1_digest(data: &[u8]) -> (r: [u8; 20])
    ensures
        r@ == sha1_of(data@),
{
    Sha1::digest(data).into()
}

/// A replacement build script, chosen by the digest of the script it replaces.
#[derive(Debug, Clone, Copy)]
pub struct MakepkgPatch {
    pub custom_content: &'static str,
    pub custom_sha1sum: [u8; 20],
    pub original_sha1sum: [u8; 20],
}

fn same_digest(a: &[u8; 20], b: &[u8; 20]) -> (r: bool)
    ensures
        r == (a@ == b@),
{
    let mut i: usize = 0;
    while i < 20
        invariant
            i <= 20,
            a@.len() == 20,
            b@.len() == 20,
            forall|j: int| 0 <= j < i ==> a@[j] == b@[j],
        decreases 20 - i,
    {
        if a[i] != b[i] {
            return false;
        }
        i = i + 1;
    }
    assert(a@ =~= b@);
    true
}

/// The first patch in `list` whose original digest is `hash`.
pub open spec fn first_match(list: Seq<MakepkgPatch>, hash: Seq<u8>, i: int) -> bool {
    &&& 0 <= i < list.len()
    &&& list[i].original_sha1sum@ == hash
    &&& forall|j: int| 0 <= j < i ==> list[j].original_sha1sum@ != hash
}

impl MakepkgPatch {
    /// The first patch of `list` made for a script with digest `hash`; the digest
    /// itself where none is.
    pub fn find_patch_by_hash(list: &[MakepkgPatch], hash: [u8; 20]) -> (r: Result<
        MakepkgPatch,
        [u8; 20],
    >)
        ensures
            match r {
                Ok(p) => exists|i: int| first_match(list@, hash@, i) && #[trigger] list@[i] == p,
                Err(h) => h == hash && forall|i: int|
                    0 <= i < list@.len() ==> #[trigger] list@[i].original_sha1sum@ != hash@,
            },
    {
        let mut i: usize = 0;
        while i < list.len()
            invariant
                i <= list@.len(),
                forall|j: int| 0 <= j < i ==> #[trigger] list@[j].original_sha1sum@ != hash@,
            decreases list@.len() - i,
        {
            if same_digest(&list[i].original_sha1sum, &hash) {
                assert(first_match(list@, hash@, i as int));
                return Ok(list[i]);
            }
            i = i + 1;
        }
        Err(hash)
    }

    /// The first patch of `list` made for the script `original_content`, by its
    /// SHA-1 digest; the digest itself where none is.
    pub fn find_patch(list: &[MakepkgPatch], original_content: &[u8]) -> (r: Result<
        MakepkgPatch,
        [u8; 20],
    >)
        ensures
            match r {
                Ok(p) => exists|i: int|
                    first_match(list@, sha1_of(original_content@), i) && #[trigger] list@[i] == p,
                Err(h) => h@ == sha1_of(original_content@) && forall|i: int|
                    0 <= i < list@.len() ==> #[trigger] list@[i].original_sha1sum@ != h@,
            },
    {
        let hash = sha1_digest(original_content);
        Self::find_patch_by_hash(list, hash)
    }
}

} // verus!
