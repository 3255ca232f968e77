use tiny_keccak::{Hasher, Xof};
use vstd::prelude::*;

verus! {

/// Content-addressed storage for challenge attachment files: a file is
/// keyed by a short hash of its bytes and published under
/// `/static/files/<hash>/<name>`. This module computes keys and URLs and
/// plans which stored directories a reconciliation pass keeps alive; the
/// filesystem writes themselves happen outside the crate.
///
/// The 8-byte digest that tiny_keccak's Shake v256 squeezes out of a byte
/// string; it depends on the bytes alone.
pub uninterp spec fn shake256_of(data: Seq<u8>) -> Seq<u8>;

/// Relies on tiny_keccak's `Shake::v256`: `update` absorbs the input and
/// `squeeze` fills the 8-byte buffer with a digest of the absorbed bytes.
#[verifier::external_body]
pub fn shake256_digest(data: &Vec<u8>) -> (digest: Vec<u8>)
    ensures
        digest@ == shake256_of(data@),
        digest@.len() == 8,
{
    let mut digest = vec![0u8; 8];
    let mut shake = tiny_keccak::Shake::v256();
    shake.update(data.as_slice());
    shake.squeeze(&mut digest);
    digest
}

/// The lowercase hex digit for a nibble.
pub open spec fn hex_digit(n: u8) -> char
    recommends
        n < 16,
{
    if n < 10 {
        (('0' as u8) + n) as char
    } else {
        (('a' as u8) + (n - 10)) as char
    }
}

/// The lowercase hex encoding of a byte string: two digits per byte, high
/// nibble first.
pub open spec fn hex_of(b: Seq<u8>) -> Seq<char>
    decreases b.len(),
{
    if b.len() == 0 {
        Seq::empty()
    } else {
        hex_of(b.drop_last()) + seq![hex_digit(b.last() / 16), hex_digit(b.last() % 16)]
    }
}

/// Relies on hex::encode: each byte becomes two lowercase hex digits, high
/// nibble first.
#[verifier::external_body]
pub fn hex_encode(b: &Vec<u8>) -> (r: String)
    ensures
        r@ == hex_of(b@),
{
    hex::encode(b.as_slice())
}

/// The content key a file is stored under: its Shake digest, hex-encoded.
pub open spec fn content_key(data: Seq<u8>) -> Seq<char> {
    hex_of(shake256_of(data))
}

pub fn hash_bytes(data: &Vec<u8>) -> (key: String)
    ensures
        key@ == content_key(data@),
{
    let digest = shake256_digest(data);
    hex_encode(&digest)
}

/// The public URL of a stored file.
pub open spec fn url_of(hash: Seq<char>, name: Seq<char>) -> Seq<char> {
    "/static/files/"@ + hash + "/"@ + name
}

pub fn asset_url(hash: &String, name: &String) -> (url: String)
    ensures
        url@ == url_of(hash@, name@),
{
    let mut url = String::new();
    url.append("/static/files/");
    url.append(hash.as_str());
    url.append("/");
    url.append(name.as_str());
    proof {
        assert(url@ =~= url_of(hash@, name@));
    }
    url
}

/// The views of a list of strings.
pub open spec fn names_of(v: Seq<String>) -> Seq<Seq<char>> {
    v.map_values(|s: String| s@)
}

/// Whether `s` occurs in `v`.
pub fn contains_name(v: &Vec<String>, s: &String) -> (r: bool)
    ensures
        r == names_of(v@).contains(s@),
{
    proof {
        assert(forall|j: int| 0 <= j < v@.len() ==> names_of(v@)[j] == v@[j]@);
    }
    let mut i: usize = 0;
    while i < v.len()
        invariant
            0 <= i <= v@.len(),
            forall|j: int| 0 <= j < i ==> v@[j]@ != s@,
        decreases v@.len() - i,
    {
        if v[i] == *s {
            assert(names_of(v@)[i as int] == s@);
            return true;
        }
        i += 1;
    }
    assert(forall|j: int| 0 <= j < v@.len() ==> names_of(v@)[j] != s@);
    false
}

/// The garbage-collection sweep of a reconciliation pass: of the asset
/// directories found on disk, exactly those whose hash no live challenge
/// references are removed; directories still referenced survive.
pub fn sweep_plan(existing: &Vec<String>, live: &Vec<String>) -> (removed: Vec<String>)
    ensures
        names_of(removed@) == names_of(existing@).filter(
            |d: Seq<char>| !names_of(live@).contains(d),
        ),
{
    let ghost pred = |d: Seq<char>| !names_of(live@).contains(d);
    let mut removed: Vec<String> = Vec::new();
    assert(names_of(removed@) =~= names_of(existing@).take(0).filter(pred));
    let mut i: usize = 0;
    while i < existing.len()
        invariant
            0 <= i <= existing@.len(),
            pred == (|d: Seq<char>| !names_of(live@).contains(d)),
            names_of(removed@) == names_of(existing@).take(i as int).filter(pred),
        decreases existing@.len() - i,
    {
        let ghost before = names_of(removed@);
        let keep = contains_name(live, &existing[i]);
        if !keep {
            removed.push(existing[i].clone());
        }
        proof {
            reveal_with_fuel(Seq::filter, 2);
            let prefix = names_of(existing@).take(i as int);
            let next = names_of(existing@).take(i + 1);
            assert(next.drop_last() =~= prefix);
            assert(next.last() == existing@[i as int]@);
            if pred(existing@[i as int]@) {
                assert(names_of(removed@) =~= before.push(existing@[i as int]@));
                assert(next.filter(pred) == prefix.filter(pred).push(next.last()));
            } else {
                assert(names_of(removed@) =~= before);
                assert(next.filter(pred) == prefix.filter(pred));
            }
            assert(names_of(removed@) =~= next.filter(pred));
        }
        i += 1;
    }
    proof {
        assert(names_of(existing@).take(existing@.len() as int) =~= names_of(existing@));
    }
    removed
}

} // verus!
