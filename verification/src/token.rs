//! Single-use capability tokens: a credential is issued for a permission
//! string, stored in a node-shaped key space of its own, and consumed by the
//! same step that validates it, so a token can never be redeemed twice.
use vstd::prelude::*;

use rand::distr::{Alphanumeric, Distribution};

use crate::bytestr::{bytes_eq, clone_bytes};
use crate::kv::{KvMap, Record, RecordView};

verus! {

/// A byte of the token alphabet: an ASCII digit or letter.
pub open spec fn alnum_byte(b: u8) -> bool {
    (48 <= b <= 57) || (65 <= b <= 90) || (97 <= b <= 122)
}

/// Relies on rand's `Alphanumeric` distribution, sampled from the
/// thread-local generator: each drawn byte is an ASCII digit or letter, and
/// `take(8)` of the endless sample iterator yields exactly eight of them.
/// Nothing more can be promised of a random draw.
#[verifier::external_body]
fn random_token_id() -> (r: Vec<u8>)
    ensures
        r@.len() == 8,
        forall|i: int| 0 <= i < r@.len() ==> alnum_byte(#[trigger] r@[i]),
{
    Alphanumeric.sample_iter(rand::rng()).take(8).collect()
}

/// The token service: single-use credentials mapped to permission strings.
pub struct TokenStore {
    pub tokens: KvMap,
}

impl TokenStore {
    /// Well-formed: the backing key space is.
    pub open spec fn wf(self) -> bool {
        self.tokens.wf()
    }

    /// An empty token store.
    pub fn new() -> (r: TokenStore)
        ensures
            r.wf(),
            r.tokens@ == Map::<Seq<u8>, RecordView>::empty(),
    {
        TokenStore { tokens: KvMap::new() }
    }

    /// Issues a fresh random token for `permission`: the returned token is
    /// stored, mapped to the permission, until it is redeemed.
    pub fn issue(&mut self, permission: Vec<u8>, timestamp: i64) -> (token: Vec<u8>)
        requires
            old(self).wf(),
        ensures
            final(self).wf(),
            token@.len() == 8,
            forall|i: int| 0 <= i < token@.len() ==> alnum_byte(#[trigger] token@[i]),
            final(self).tokens@ == old(self).tokens@.insert(
                token@,
                RecordView { payload: permission@, timestamp: timestamp as int },
            ),
    {
        let token = random_token_id();
        let key = clone_bytes(token.as_slice());
        self.tokens.put(key, Record { payload: permission, timestamp });
        token
    }

    /// Redeems `token` against `required`: succeeds iff the token is stored
    /// and its permission equals `required` byte for byte, and consumes the
    /// token in the same step, so a second redemption of it fails. A failed
    /// redemption changes nothing.
    pub fn redeem(&mut self, token: &[u8], required: &[u8]) -> (ok: bool)
        requires
            old(self).wf(),
        ensures
            final(self).wf(),
            ok == (old(self).tokens@.contains_key(token@) && old(self).tokens@[token@].payload
                == required@),
            ok ==> final(self).tokens@ == old(self).tokens@.remove(token@),
            !ok ==> *final(self) == *old(self),
    {
        let permission_ok = match self.tokens.get(token) {
            Some(rec) => bytes_eq(rec.payload.as_slice(), required),
            None => false,
        };
        if permission_ok {
            let _ = self.tokens.delete(token);
            true
        } else {
            false
        }
    }
}

} // verus!
