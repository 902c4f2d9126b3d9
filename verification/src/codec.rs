//! The relation key codec: a relation's identity `(name, from, to)` is packed
//! into one composite key by joining the three components with a delimiter
//! byte. A component may not be empty and may not contain the delimiter;
//! encoding rejects anything else, so every stored key decodes losslessly back
//! to the triple it was built from.
use vstd::prelude::*;

use crate::bytestr::{append_bytes, copy_range};
use crate::RhyzomeError;

verus! {

/// The byte that separates the three components of a composite key: `_`.
pub const DELIMITER: u8 = 95;

/// No byte of `s` is the delimiter.
pub open spec fn delimiter_free(s: Seq<u8>) -> bool {
    forall|i: int| 0 <= i < s.len() ==> s[i] != DELIMITER
}

/// A byte string may stand as a key component iff it is non-empty and
/// delimiter-free.
pub open spec fn valid_component(s: Seq<u8>) -> bool {
    s.len() > 0 && delimiter_free(s)
}

/// The composite key for the relation identity `(name, from, to)`.
pub open spec fn spec_encode(name: Seq<u8>, from: Seq<u8>, to: Seq<u8>) -> Seq<u8> {
    name + seq![DELIMITER] + from + seq![DELIMITER] + to
}

/// `k` is the composite key of the triple `(name, from, to)`, all three
/// components being valid.
pub open spec fn is_decoding(k: Seq<u8>, name: Seq<u8>, from: Seq<u8>, to: Seq<u8>) -> bool {
    &&& valid_component(name)
    &&& valid_component(from)
    &&& valid_component(to)
    &&& k == spec_encode(name, from, to)
}

/// `k` is the composite key of some triple of valid components.
pub open spec fn decodable(k: Seq<u8>) -> bool {
    exists|n: Seq<u8>, f: Seq<u8>, t: Seq<u8>| is_decoding(k, n, f, t)
}

/// In a well-formed composite key the delimiter occurs at exactly two
/// positions: right after the name and right after the from-component.
pub proof fn lemma_decoding_delimiter_positions(k: Seq<u8>, n: Seq<u8>, f: Seq<u8>, t: Seq<u8>)
    requires
        is_decoding(k, n, f, t),
    ensures
        k.len() == n.len() + f.len() + t.len() + 2,
        k[n.len() as int] == DELIMITER,
        k[(n.len() + f.len() + 1) as int] == DELIMITER,
        forall|j: int|
            0 <= j < k.len() && j != n.len() && j != n.len() + f.len() + 1 ==> k[j] != DELIMITER,
{
    assert forall|j: int|
        0 <= j < k.len() && j != n.len() && j != n.len() + f.len() + 1 implies k[j]
        != DELIMITER by {
        if j < n.len() {
            assert(k[j] == n[j]);
        } else if j < n.len() + 1 + f.len() {
            assert(k[j] == f[j - n.len() - 1]);
        } else {
            assert(k[j] == t[j - n.len() - f.len() - 2]);
        }
    }
}

/// A composite key decodes to at most one triple.
pub proof fn lemma_decoding_unique(
    k: Seq<u8>,
    n1: Seq<u8>,
    f1: Seq<u8>,
    t1: Seq<u8>,
    n2: Seq<u8>,
    f2: Seq<u8>,
    t2: Seq<u8>,
)
    requires
        is_decoding(k, n1, f1, t1),
        is_decoding(k, n2, f2, t2),
    ensures
        n1 == n2,
        f1 == f2,
        t1 == t2,
{
    lemma_decoding_delimiter_positions(k, n1, f1, t1);
    lemma_decoding_delimiter_positions(k, n2, f2, t2);
    assert(n1.len() == n2.len()) by {
        if n1.len() < n2.len() {
            assert(k[n1.len() as int] == DELIMITER);
            assert(n1.len() != n2.len() + f2.len() + 1);
        } else if n2.len() < n1.len() {
            assert(k[n2.len() as int] == DELIMITER);
            assert(n2.len() != n1.len() + f1.len() + 1);
        }
    }
    assert(f1.len() == f2.len()) by {
        if f1.len() < f2.len() {
            assert(k[(n1.len() + f1.len() + 1) as int] == DELIMITER);
        } else if f2.len() < f1.len() {
            assert(k[(n2.len() + f2.len() + 1) as int] == DELIMITER);
        }
    }
    assert(t1.len() == t2.len());
    assert(n1 =~= n2) by {
        assert forall|j: int| 0 <= j < n1.len() implies n1[j] == n2[j] by {
            assert(k[j] == n1[j]);
            assert(k[j] == n2[j]);
        }
    }
    assert(f1 =~= f2) by {
        assert forall|j: int| 0 <= j < f1.len() implies f1[j] == f2[j] by {
            assert(k[n1.len() + 1 + j] == f1[j]);
            assert(k[n2.len() + 1 + j] == f2[j]);
        }
    }
    assert(t1 =~= t2) by {
        assert forall|j: int| 0 <= j < t1.len() implies t1[j] == t2[j] by {
            assert(k[n1.len() + f1.len() + 2 + j] == t1[j]);
            assert(k[n2.len() + f2.len() + 2 + j] == t2[j]);
        }
    }
}

/// Codec round trip: a key encoded from valid components decodes to exactly
/// those components, and to no others.
pub proof fn lemma_codec_round_trip(name: Seq<u8>, from: Seq<u8>, to: Seq<u8>)
    requires
        valid_component(name),
        valid_component(from),
        valid_component(to),
    ensures
        decodable(spec_encode(name, from, to)),
        forall|n: Seq<u8>, f: Seq<u8>, t: Seq<u8>|
            is_decoding(spec_encode(name, from, to), n, f, t) ==> n == name && f == from && t
                == to,
{
    assert(is_decoding(spec_encode(name, from, to), name, from, to));
    assert forall|n: Seq<u8>, f: Seq<u8>, t: Seq<u8>|
        is_decoding(spec_encode(name, from, to), n, f, t) implies n == name && f == from && t
        == to by {
        lemma_decoding_unique(spec_encode(name, from, to), n, f, t, name, from, to);
    }
}

/// Whether `s` may stand as a key component.
pub fn component_ok(s: &[u8]) -> (r: bool)
    ensures
        r == valid_component(s@),
{
    if s.len() == 0 {
        return false;
    }
    let mut i: usize = 0;
    while i < s.len()
        invariant
            0 <= i <= s@.len(),
            forall|j: int| 0 <= j < i ==> s@[j] != DELIMITER,
        decreases s@.len() - i,
    {
        if s[i] == DELIMITER {
            return false;
        }
        i = i + 1;
    }
    true
}

/// Builds the composite key for `(name, from, to)`, rejecting any component
/// that is empty or contains the delimiter.
pub fn encode(name: &[u8], from: &[u8], to: &[u8]) -> (r: Result<Vec<u8>, RhyzomeError>)
    ensures
        match r {
            Ok(k) => is_decoding(k@, name@, from@, to@),
            Err(e) => {
                &&& e == RhyzomeError::KeyEncodingError
                &&& !(valid_component(name@) && valid_component(from@) && valid_component(to@))
            },
        },
{
    if !component_ok(name) || !component_ok(from) || !component_ok(to) {
        return Err(RhyzomeError::KeyEncodingError);
    }
    let mut k: Vec<u8> = Vec::new();
    append_bytes(&mut k, name);
    k.push(DELIMITER);
    append_bytes(&mut k, from);
    k.push(DELIMITER);
    append_bytes(&mut k, to);
    proof {
        assert(k@ =~= spec_encode(name@, from@, to@));
    }
    Ok(k)
}

/// Splits a composite key back into its `(name, from, to)` triple; fails
/// unless the key consists of exactly three non-empty delimiter-separated
/// components.
pub fn decode(k: &[u8]) -> (r: Result<(Vec<u8>, Vec<u8>, Vec<u8>), RhyzomeError>)
    ensures
        match r {
            Ok(p) => is_decoding(k@, p.0@, p.1@, p.2@),
            Err(e) => e == RhyzomeError::KeyDecodingError && !decodable(k@),
        },
{
    let mut count: usize = 0;
    let mut d1: usize = 0;
    let mut d2: usize = 0;
    let mut d3: usize = 0;
    let mut i: usize = 0;
    while i < k.len()
        invariant
            0 <= i <= k@.len(),
            count == 0 ==> forall|j: int| 0 <= j < i ==> k@[j] != DELIMITER,
            count == 1 ==> d1 < i && k@[d1 as int] == DELIMITER && forall|j: int|
                0 <= j < i && j != d1 ==> k@[j] != DELIMITER,
            count == 2 ==> d1 < d2 < i && k@[d1 as int] == DELIMITER && k@[d2 as int] == DELIMITER
                && forall|j: int| 0 <= j < i && j != d1 && j != d2 ==> k@[j] != DELIMITER,
            count >= 3 ==> d1 < d2 < d3 < i && k@[d1 as int] == DELIMITER && k@[d2 as int]
                == DELIMITER && k@[d3 as int] == DELIMITER,
        decreases k@.len() - i,
    {
        if k[i] == DELIMITER {
            if count == 0 {
                d1 = i;
            } else if count == 1 {
                d2 = i;
            } else if count == 2 {
                d3 = i;
            }
            if count < 3 {
                count = count + 1;
            }
        }
        i = i + 1;
    }
    if count != 2 {
        proof {
            if decodable(k@) {
                let (n, f, t) = choose|n: Seq<u8>, f: Seq<u8>, t: Seq<u8>|
                    is_decoding(k@, n, f, t);
                lemma_decoding_delimiter_positions(k@, n, f, t);
                let p1 = n.len() as int;
                let p2 = (n.len() + f.len() + 1) as int;
                assert(k@[p1] == DELIMITER);
                assert(k@[p2] == DELIMITER);
                assert(p1 < p2 < k@.len());
                assert(false);
            }
        }
        return Err(RhyzomeError::KeyDecodingError);
    }
    if d1 == 0 || d2 <= d1 + 1 || d2 + 1 >= k.len() {
        proof {
            if decodable(k@) {
                let (n, f, t) = choose|n: Seq<u8>, f: Seq<u8>, t: Seq<u8>|
                    is_decoding(k@, n, f, t);
                lemma_decoding_delimiter_positions(k@, n, f, t);
                let p1 = n.len() as int;
                let p2 = (n.len() + f.len() + 1) as int;
                assert(k@[p1] == DELIMITER);
                assert(k@[p2] == DELIMITER);
                assert(p1 == d1 && p2 == d2);
                assert(false);
            }
        }
        return Err(RhyzomeError::KeyDecodingError);
    }
    let name = copy_range(k, 0, d1);
    let from = copy_range(k, d1 + 1, d2);
    let to = copy_range(k, d2 + 1, k.len());
    proof {
        let enc = spec_encode(name@, from@, to@);
        assert(enc.len() == k@.len());
        assert forall|j: int| 0 <= j < k@.len() implies enc[j] == k@[j] by {
            if j < d1 {
                assert(enc[j] == name@[j]);
                assert(name@[j] == k@[j]);
            } else if j == d1 {
                assert(enc[j] == DELIMITER);
            } else if j < d2 {
                assert(enc[j] == from@[j - d1 - 1]);
                assert(from@[j - d1 - 1] == k@[j]);
            } else if j == d2 {
                assert(enc[j] == DELIMITER);
            } else {
                assert(enc[j] == to@[j - d2 - 1]);
                assert(to@[j - d2 - 1] == k@[j]);
            }
        }
        assert(k@ =~= enc);
        assert(valid_component(name@));
        assert(valid_component(from@));
        assert(valid_component(to@));
    }
    Ok((name, from, to))
}

} // verus!
