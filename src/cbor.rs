//! The CBOR encoding of a map whose keys and values are byte strings, with
//! its entries in canonical order (RFC 7049, section 3.9).

use vstd::prelude::*;

verus! {

/// The `k` low-order bytes of `n`, most significant first.
pub open spec fn be_bytes(n: nat, k: nat) -> Seq<u8>
    decreases k,
{
    if k == 0 {
        Seq::empty()
    } else {
        be_bytes(n / 256, (k - 1) as nat).push((n % 256) as u8)
    }
}

/// The initial bytes of a data item of major type `major` whose argument
/// is `n`, in its shortest form.
pub open spec fn head(major: u8, n: nat) -> Seq<u8> {
    let m = major as nat * 32;
    if n <= 23 {
        seq![(m + n) as u8]
    } else if n <= 0xff {
        seq![(m + 24) as u8] + be_bytes(n, 1)
    } else if n <= 0xffff {
        seq![(m + 25) as u8] + be_bytes(n, 2)
    } else if n <= 0xffff_ffff {
        seq![(m + 26) as u8] + be_bytes(n, 4)
    } else {
        seq![(m + 27) as u8] + be_bytes(n, 8)
    }
}

/// A byte string data item (major type 2).
pub open spec fn byte_string(b: Seq<u8>) -> Seq<u8> {
    head(2, b.len()) + b
}

/// The key/value pairs of a map data item, each as two byte strings.
pub open spec fn map_body(es: Seq<(Seq<u8>, Seq<u8>)>) -> Seq<u8>
    decreases es.len(),
{
    if es.len() == 0 {
        Seq::empty()
    } else {
        map_body(es.drop_last()) + byte_string(es.last().0) + byte_string(es.last().1)
    }
}

/// A map data item (major type 5) with the entries of `es`, in that order.
pub open spec fn byte_string_map(es: Seq<(Seq<u8>, Seq<u8>)>) -> Seq<u8> {
    head(5, es.len()) + map_body(es)
}

pub open spec fn entry_views(es: Seq<(Vec<u8>, Vec<u8>)>) -> Seq<(Seq<u8>, Seq<u8>)> {
    es.map_values(|e: (Vec<u8>, Vec<u8>)| (e.0@, e.1@))
}

fn push_be(out: &mut Vec<u8>, n: u64, k: usize)
    requires
        k <= 8,
    ensures
        final(out)@ == old(out)@ + be_bytes(n as nat, k as nat),
    decreases k,
{
    if k > 0 {
        push_be(out, n / 256, k - 1);
        out.push((n % 256) as u8);
        assert(final(out)@ =~= old(out)@ + be_bytes(n as nat, k as nat));
    } else {
        assert(final(out)@ =~= old(out)@ + be_bytes(n as nat, k as nat));
    }
}

fn push_head(out: &mut Vec<u8>, major: u8, n: u64)
    requires
        major < 8,
    ensures
        final(out)@ == old(out)@ + head(major, n as nat),
{
    let m: u8 = major * 32;
    if n <= 23 {
        out.push(m + n as u8);
        assert(final(out)@ =~= old(out)@ + head(major, n as nat));
    } else {
        let ghost start = out@;
        let (tag, k): (u8, usize) = if n <= 0xff {
            (24, 1)
        } else if n <= 0xffff {
            (25, 2)
        } else if n <= 0xffff_ffff {
            (26, 4)
        } else {
            (27, 8)
        };
        out.push(m + tag);
        push_be(out, n, k);
        assert(final(out)@ =~= start + (seq![(m + tag) as u8] + be_bytes(n as nat, k as nat)));
    }
}

fn push_bytes(out: &mut Vec<u8>, b: &Vec<u8>)
    ensures
        final(out)@ == old(out)@ + b@,
{
    let mut i: usize = 0;
    while i < b.len()
        invariant
            i <= b@.len(),
            out@ == old(out)@ + b@.subrange(0, i as int),
        decreases b@.len() - i,
    {
        out.push(b[i]);
        assert(b@.subrange(0, i + 1) == b@.subrange(0, i as int).push(b@[i as int]));
        i = i + 1;
    }
    assert(b@.subrange(0, b@.len() as int) == b@);
}

fn push_byte_string(out: &mut Vec<u8>, b: &Vec<u8>)
    ensures
        final(out)@ == old(out)@ + byte_string(b@),
{
    push_head(out, 2, b.len() as u64);
    push_bytes(out, b);
    assert(final(out)@ =~= old(out)@ + byte_string(b@));
}

/// Encodes `es` as a CBOR map of byte strings, keeping the order of `es`.
pub fn encode_byte_string_map(es: &Vec<(Vec<u8>, Vec<u8>)>) -> (r: Vec<u8>)
    ensures
        r@ == byte_string_map(entry_views(es@)),
{
    let mut out: Vec<u8> = Vec::new();
    push_head(&mut out, 5, es.len() as u64);
    let mut i: usize = 0;
    while i < es.len()
        invariant
            i <= es@.len(),
            out@ == head(5, es@.len() as nat) + map_body(entry_views(es@.subrange(0, i as int))),
        decreases es@.len() - i,
    {
        let ghost before = out@;
        push_byte_string(&mut out, &es[i].0);
        push_byte_string(&mut out, &es[i].1);
        proof {
            let pre = entry_views(es@.subrange(0, i as int));
            let cur = entry_views(es@.subrange(0, i + 1));
            assert(cur.drop_last() =~= pre);
            assert(out@ =~= head(5, es@.len() as nat) + map_body(cur));
        }
        i = i + 1;
    }
    assert(es@.subrange(0, es@.len() as int) == es@);
    out
}

} // verus!
