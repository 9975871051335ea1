//! Names of layer files: `{key_start}-{key_end}__{lsn_start}-{lsn_end}` for a
//! delta layer and `{key_start}-{key_end}__{lsn}` for an image layer, keys
//! as 32 and LSNs as 16 lower-case hexadecimal digits.
use vstd::prelude::*;
use crate::value::{Key, Lsn};
use crate::layer::HistoricLayer;
use crate::text::{hex_lower, encode_hex, join2};

verus! {

/// Big-endian bytes of a key.
pub open spec fn key_bytes(k: u128) -> Seq<u8> {
    Seq::new(16, |i: int| ((k >> (8 * (15 - i)) as u128) & 0xff) as u8)
}

/// Big-endian bytes of an LSN.
pub open spec fn lsn_bytes(l: u64) -> Seq<u8> {
    Seq::new(8, |i: int| ((l >> (8 * (7 - i)) as u64) & 0xff) as u8)
}

fn key_to_bytes(k: Key) -> (r: Vec<u8>)
    ensures
        r@ == key_bytes(k),
{
    let mut r: Vec<u8> = Vec::new();
    let mut i: u32 = 0;
    while i < 16
        invariant
            i <= 16,
            r@.len() == i,
            forall|q: int| 0 <= q < i ==> r@[q] == ((k >> (8 * (15 - q)) as u128) & 0xff) as u8,
        decreases 16 - i,
    {
        r.push(((k >> (8 * (15 - i))) & 0xff) as u8);
        i = i + 1;
    }
    assert(r@ =~= key_bytes(k));
    r
}

fn lsn_to_bytes(l: Lsn) -> (r: Vec<u8>)
    ensures
        r@ == lsn_bytes(l),
{
    let mut r: Vec<u8> = Vec::new();
    let mut i: u32 = 0;
    while i < 8
        invariant
            i <= 8,
            r@.len() == i,
            forall|q: int| 0 <= q < i ==> r@[q] == ((l >> (8 * (7 - q)) as u64) & 0xff) as u8,
        decreases 8 - i,
    {
        r.push(((l >> (8 * (7 - i))) & 0xff) as u8);
        i = i + 1;
    }
    assert(r@ =~= lsn_bytes(l));
    r
}

/// The file name of a layer.
pub open spec fn layer_file_name_spec(is_image: bool, ks: Key, ke: Key, ls: Lsn, le: Lsn) -> Seq<char> {
    let keys = hex_lower(key_bytes(ks)) + seq!['-'] + hex_lower(key_bytes(ke)) + seq!['_', '_'];
    if is_image {
        keys + hex_lower(lsn_bytes(ls))
    } else {
        keys + hex_lower(lsn_bytes(ls)) + seq!['-'] + hex_lower(lsn_bytes(le))
    }
}

/// The file name of a historic layer.
pub fn layer_file_name(l: &HistoricLayer) -> (r: String)
    ensures
        r@ == layer_file_name_spec(l.is_image, l.key_start, l.key_end, l.lsn_start, l.lsn_end),
{
    proof {
        reveal_strlit("-");
        reveal_strlit("__");
    }
    let ks = encode_hex(key_to_bytes(l.key_start).as_slice());
    let ke = encode_hex(key_to_bytes(l.key_end).as_slice());
    let ls = encode_hex(lsn_to_bytes(l.lsn_start).as_slice());
    let a = join2(ks.as_str(), "-");
    let b = join2(a.as_str(), ke.as_str());
    let c = join2(b.as_str(), "__");
    let d = join2(c.as_str(), ls.as_str());
    if l.is_image {
        assert(d@ =~= layer_file_name_spec(l.is_image, l.key_start, l.key_end, l.lsn_start, l.lsn_end));
        d
    } else {
        let le = encode_hex(lsn_to_bytes(l.lsn_end).as_slice());
        let e = join2(d.as_str(), "-");
        let f = join2(e.as_str(), le.as_str());
        assert(f@ =~= layer_file_name_spec(l.is_image, l.key_start, l.key_end, l.lsn_start, l.lsn_end));
        f
    }
}

} // verus!
