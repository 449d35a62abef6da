//! The outer container frame: a byte cipher with a fixed repeating key, and
//! a directory of named level payloads with length-prefixed records.  Both
//! directions are specified as pure functions over byte sequences and proved
//! to invert each other.

use vstd::prelude::*;
use vstd::slice::slice_subrange;

verus! {

/// The fixed key of the substrate's obfuscation cipher.
pub const CIPHER_KEY: u8 = 11;

/// The cipher: every byte is combined with the fixed key.
pub open spec fn xor_bytes(s: Seq<u8>) -> Seq<u8> {
    Seq::new(s.len(), |i: int| s[i] ^ CIPHER_KEY)
}

/// Applying the cipher twice gives the input back.
pub proof fn lemma_xor_involution(s: Seq<u8>)
    ensures
        xor_bytes(xor_bytes(s)) =~= s,
{
    assert forall|i: int| 0 <= i < s.len() implies xor_bytes(xor_bytes(s))[i] == s[i] by {
        let b = s[i];
        assert((b ^ CIPHER_KEY) ^ CIPHER_KEY == b) by (bit_vector);
    }
}

/// Executable cipher.
pub fn xor_exec(v: &Vec<u8>) -> (r: Vec<u8>)
    ensures
        r@ =~= xor_bytes(v@),
{
    let mut out: Vec<u8> = Vec::new();
    let mut i: usize = 0;
    while i < v.len()
        invariant
            0 <= i <= v.len(),
            out@.len() == i,
            forall|j: int| 0 <= j < i ==> out@[j] == (v@[j] ^ CIPHER_KEY),
        decreases v.len() - i,
    {
        out.push(v[i] ^ CIPHER_KEY);
        i = i + 1;
    }
    out
}

/// Little-endian bytes of a 32-bit length.
pub open spec fn le32_bytes(n: u64) -> Seq<u8> {
    seq![
        (n & 0xff) as u8,
        ((n >> 8) & 0xff) as u8,
        ((n >> 16) & 0xff) as u8,
        ((n >> 24) & 0xff) as u8,
    ]
}

/// The length encoded by four little-endian bytes.
pub open spec fn le32_value(s: Seq<u8>) -> int
    recommends
        s.len() == 4,
{
    (s[0] as int) + (s[1] as int) * 0x100 + (s[2] as int) * 0x10000 + (s[3] as int) * 0x1000000
}

/// Encoding a length below `2^32` and decoding it gives it back.
pub proof fn lemma_le32_round(n: u64)
    requires
        n < 0x100000000,
    ensures
        le32_value(le32_bytes(n)) == n,
{
    let b0 = (n & 0xff) as u8;
    let b1 = ((n >> 8) & 0xff) as u8;
    let b2 = ((n >> 16) & 0xff) as u8;
    let b3 = ((n >> 24) & 0xff) as u8;
    assert((b0 as u64) + (b1 as u64) * 0x100 + (b2 as u64) * 0x10000 + (b3 as u64) * 0x1000000
        == n) by (bit_vector)
        requires
            n < 0x100000000,
            b0 == (n & 0xff) as u8,
            b1 == ((n >> 8) & 0xff) as u8,
            b2 == ((n >> 16) & 0xff) as u8,
            b3 == ((n >> 24) & 0xff) as u8,
    ;
}

/// One directory: named, still-encoded level payloads, in order.
pub type SpecDir = Seq<(Seq<u8>, Seq<u8>)>;

/// A directory whose record lengths fit the four-byte length prefix.
pub open spec fn wf_dir(d: SpecDir) -> bool {
    forall|i: int|
        0 <= i < d.len() ==> (#[trigger] d[i]).0.len() < 0x100000000 && d[i].1.len() < 0x100000000
}

/// Bytes of a directory: for each record, the name's length, the name, the
/// payload's length, the payload.
pub open spec fn dir_bytes(d: SpecDir) -> Seq<u8>
    decreases d.len(),
{
    if d.len() == 0 {
        Seq::empty()
    } else {
        le32_bytes(d[0].0.len() as u64) + d[0].0 + le32_bytes(d[0].1.len() as u64) + d[0].1
            + dir_bytes(d.drop_first())
    }
}

/// Parses a directory.
pub open spec fn parse_dir(s: Seq<u8>) -> Option<SpecDir>
    decreases s.len(),
{
    if s.len() == 0 {
        Some(Seq::empty())
    } else if s.len() < 8 {
        None
    } else {
        let nl = le32_value(s.take(4));
        if s.len() < 8 + nl {
            None
        } else {
            let name = s.subrange(4, 4 + nl);
            let pl = le32_value(s.subrange(4 + nl, 8 + nl));
            if s.len() < 8 + nl + pl {
                None
            } else {
                let payload = s.subrange(8 + nl, 8 + nl + pl);
                match parse_dir(s.skip(8 + nl + pl)) {
                    Some(d) => Some(seq![(name, payload)] + d),
                    None => None,
                }
            }
        }
    }
}

/// Printing a well-formed directory and parsing the bytes gives it back.
pub proof fn lemma_parse_dir_round(d: SpecDir)
    requires
        wf_dir(d),
    ensures
        parse_dir(dir_bytes(d)) == Some(d),
    decreases d.len(),
{
    if d.len() == 0 {
        assert(dir_bytes(d) =~= Seq::<u8>::empty());
        assert(Seq::<(Seq<u8>, Seq<u8>)>::empty() =~= d);
    } else {
        let name = d[0].0;
        let payload = d[0].1;
        let nl = name.len() as int;
        let pl = payload.len() as int;
        let rest = dir_bytes(d.drop_first());
        let s = dir_bytes(d);
        lemma_le32_round(nl as u64);
        lemma_le32_round(pl as u64);
        assert(s =~= le32_bytes(nl as u64) + name + le32_bytes(pl as u64) + payload + rest);
        assert(s.len() >= 8 + nl + pl);
        assert(s.take(4) =~= le32_bytes(nl as u64));
        assert(le32_value(s.take(4)) == nl);
        assert(s.subrange(4, 4 + nl) =~= name);
        assert(s.subrange(4 + nl, 8 + nl) =~= le32_bytes(pl as u64));
        assert(le32_value(s.subrange(4 + nl, 8 + nl)) == pl);
        assert(s.subrange(8 + nl, 8 + nl + pl) =~= payload);
        assert(s.skip(8 + nl + pl) =~= rest);
        lemma_parse_dir_round(d.drop_first());
        assert(seq![(name, payload)] + d.drop_first() =~= d);
    }
}

/// The first payload filed under `name`.
pub open spec fn dir_find(d: SpecDir, name: Seq<u8>) -> Option<Seq<u8>>
    decreases d.len(),
{
    if d.len() == 0 {
        None
    } else if d[0].0 == name {
        Some(d[0].1)
    } else {
        dir_find(d.drop_first(), name)
    }
}

/// The directory with the first record under `name` given payload `p`.
pub open spec fn dir_replace(d: SpecDir, name: Seq<u8>, p: Seq<u8>) -> SpecDir
    decreases d.len(),
{
    if d.len() == 0 {
        Seq::empty()
    } else if d[0].0 == name {
        seq![(d[0].0, p)] + d.drop_first()
    } else {
        seq![d[0]] + dir_replace(d.drop_first(), name, p)
    }
}

/// Replacing one level's payload touches nothing else: the directory keeps
/// its length and record names, every record under another name is
/// byte-identical, and looking the name up afterwards finds the new payload.
pub proof fn lemma_dir_replace(d: SpecDir, name: Seq<u8>, p: Seq<u8>)
    requires
        dir_find(d, name) is Some,
    ensures
        dir_find(dir_replace(d, name, p), name) == Some(p),
        dir_replace(d, name, p).len() == d.len(),
        forall|i: int|
            0 <= i < d.len() ==> (#[trigger] dir_replace(d, name, p)[i]).0 == d[i].0,
        forall|i: int|
            0 <= i < d.len() && (#[trigger] d[i]).0 != name ==> dir_replace(d, name, p)[i] == d[i],
    decreases d.len(),
{
    if d.len() > 0 {
        if d[0].0 == name {
            let r = dir_replace(d, name, p);
            assert(r == seq![(d[0].0, p)] + d.drop_first());
            assert(r[0] == (d[0].0, p));
            assert(forall|i: int| 1 <= i < d.len() ==> r[i] == d[i]);
        } else {
            lemma_dir_replace(d.drop_first(), name, p);
            let r = dir_replace(d, name, p);
            let rr = dir_replace(d.drop_first(), name, p);
            assert(r == seq![d[0]] + rr);
            assert(r[0] == d[0]);
            assert(r.drop_first() =~= rr);
            assert forall|i: int| 0 <= i < d.len() implies (#[trigger] r[i]).0 == d[i].0 by {
                if i > 0 {
                    assert(r[i] == rr[i - 1]);
                    assert(d[i] == d.drop_first()[i - 1]);
                }
            }
            assert forall|i: int|
                0 <= i < d.len() && (#[trigger] d[i]).0 != name implies r[i] == d[i] by {
                if i > 0 {
                    assert(r[i] == rr[i - 1]);
                    assert(d[i] == d.drop_first()[i - 1]);
                }
            }
        }
    }
}

// ---------------------------------------------------------------------------
// executable directory handling
// ---------------------------------------------------------------------------

/// The model of an executable directory.
pub open spec fn view_dir(d: Seq<(Vec<u8>, Vec<u8>)>) -> SpecDir {
    d.map_values(|r: (Vec<u8>, Vec<u8>)| (r.0@, r.1@))
}

/// Byte-for-byte copy of a slice.
pub fn copy_slice(s: &[u8]) -> (r: Vec<u8>)
    ensures
        r@ == s@,
{
    let mut v: Vec<u8> = Vec::new();
    let mut i: usize = 0;
    while i < s.len()
        invariant
            0 <= i <= s@.len(),
            v@ == s@.take(i as int),
        decreases s@.len() - i,
    {
        v.push(*vstd::slice::slice_index_get(s, i));
        proof {
            assert(v@ =~= s@.take(i + 1));
        }
        i = i + 1;
    }
    proof {
        assert(s@.take(s@.len() as int) =~= s@);
    }
    v
}

/// Whether two byte vectors hold the same bytes.
pub fn eq_bytes(a: &Vec<u8>, b: &Vec<u8>) -> (r: bool)
    ensures
        r == (a@ == b@),
{
    if a.len() != b.len() {
        proof {
            assert(a@ != b@);
        }
        return false;
    }
    let mut i: usize = 0;
    while i < a.len()
        invariant
            0 <= i <= a.len(),
            a@.len() == b@.len(),
            forall|j: int| 0 <= j < i ==> a@[j] == b@[j],
        decreases a.len() - i,
    {
        if a[i] != b[i] {
            return false;
        }
        i = i + 1;
    }
    proof {
        assert(a@ =~= b@);
    }
    true
}

/// Reads a four-byte little-endian length at `off`.
fn read_le32(s: &[u8], off: usize) -> (r: u64)
    requires
        off + 4 <= s@.len(),
    ensures
        r as int == le32_value(s@.subrange(off as int, off as int + 4)),
        r < 0x100000000,
{
    let n = s.len();
    let b0 = *vstd::slice::slice_index_get(s, off);
    let b1 = *vstd::slice::slice_index_get(s, off + 1);
    let b2 = *vstd::slice::slice_index_get(s, off + 2);
    let b3 = *vstd::slice::slice_index_get(s, off + 3);
    let r = (b0 as u64) + (b1 as u64) * 0x100 + (b2 as u64) * 0x10000 + (b3 as u64) * 0x1000000;
    proof {
        let sub = s@.subrange(off as int, off as int + 4);
        assert(sub[0] == s@[off as int]);
        assert(sub[1] == s@[off as int + 1]);
        assert(sub[2] == s@[off as int + 2]);
        assert(sub[3] == s@[off as int + 3]);
    }
    r
}

/// Writes a four-byte little-endian length.
fn le32_exec(n: u64) -> (r: Vec<u8>)
    requires
        n < 0x100000000,
    ensures
        r@ == le32_bytes(n),
{
    let mut v: Vec<u8> = Vec::new();
    v.push((n & 0xff) as u8);
    v.push(((n >> 8) & 0xff) as u8);
    v.push(((n >> 16) & 0xff) as u8);
    v.push(((n >> 24) & 0xff) as u8);
    proof {
        assert(v@ =~= le32_bytes(n));
    }
    v
}

/// Parses a directory.
pub fn parse_dir_exec(s: &[u8]) -> (r: Option<Vec<(Vec<u8>, Vec<u8>)>>)
    ensures
        match r {
            Some(d) => parse_dir(s@) == Some(view_dir(d@)),
            None => parse_dir(s@) == None::<SpecDir>,
        },
    decreases s@.len(),
{
    let n = s.len();
    if n == 0 {
        let d: Vec<(Vec<u8>, Vec<u8>)> = Vec::new();
        proof {
            assert(view_dir(d@) =~= Seq::<(Seq<u8>, Seq<u8>)>::empty());
        }
        return Some(d);
    }
    if n < 8 {
        return None;
    }
    let nl64 = read_le32(s, 0);
    proof {
        assert(s@.take(4) =~= s@.subrange(0, 4));
    }
    if nl64 > (n - 8) as u64 {
        return None;
    }
    let nl = nl64 as usize;
    let name = copy_slice(slice_subrange(s, 4, 4 + nl));
    let pl64 = read_le32(s, 4 + nl);
    if pl64 > (n - 8 - nl) as u64 {
        return None;
    }
    let pl = pl64 as usize;
    let payload = copy_slice(slice_subrange(s, 8 + nl, 8 + nl + pl));
    let rest = slice_subrange(s, 8 + nl + pl, n);
    proof {
        assert(name@ =~= s@.subrange(4, 4 + nl as int));
        assert(payload@ =~= s@.subrange(8 + nl as int, 8 + nl as int + pl as int));
        assert(rest@ =~= s@.skip(8 + nl as int + pl as int));
    }
    match parse_dir_exec(rest) {
        None => None,
        Some(tail) => {
            let ghost tailv = view_dir(tail@);
            let mut d: Vec<(Vec<u8>, Vec<u8>)> = Vec::new();
            d.push((name, payload));
            let mut t2 = tail;
            d.append(&mut t2);
            proof {
                assert(view_dir(d@) =~= seq![(d@[0].0@, d@[0].1@)] + tailv);
            }
            Some(d)
        },
    }
}

/// Prints a directory; fails when a record's length does not fit the
/// four-byte prefix.
pub fn dir_bytes_exec(d: &[(Vec<u8>, Vec<u8>)]) -> (r: Option<Vec<u8>>)
    ensures
        match r {
            Some(v) => wf_dir(view_dir(d@)) && v@ == dir_bytes(view_dir(d@)),
            None => !wf_dir(view_dir(d@)),
        },
    decreases d@.len(),
{
    if d.len() == 0 {
        proof {
            assert(view_dir(d@) =~= Seq::<(Seq<u8>, Seq<u8>)>::empty());
        }
        return Some(Vec::new());
    }
    let rec = vstd::slice::slice_index_get(d, 0);
    if rec.0.len() as u64 >= 0x100000000u64 || rec.1.len() as u64 >= 0x100000000u64 {
        proof {
            assert(view_dir(d@)[0] == (d@[0].0@, d@[0].1@));
        }
        return None;
    }
    let rest = slice_subrange(d, 1, d.len());
    proof {
        assert(view_dir(rest@) =~= view_dir(d@).drop_first());
    }
    match dir_bytes_exec(rest) {
        None => {
            proof {
                if wf_dir(view_dir(d@)) {
                    let vd = view_dir(d@);
                    assert forall|i: int|
                        0 <= i < vd.drop_first().len() implies (#[trigger] vd.drop_first()[i]).0.len()
                        < 0x100000000 && vd.drop_first()[i].1.len() < 0x100000000 by {
                        assert(vd.drop_first()[i] == vd[i + 1]);
                    }
                }
            }
            None
        },
        Some(tail) => {
            let mut v = le32_exec(rec.0.len() as u64);
            let mut nm = copy_slice(rec.0.as_slice());
            v.append(&mut nm);
            let mut v2 = le32_exec(rec.1.len() as u64);
            v.append(&mut v2);
            let mut pb = copy_slice(rec.1.as_slice());
            v.append(&mut pb);
            let mut t2 = tail;
            v.append(&mut t2);
            proof {
                let vd = view_dir(d@);
                assert(vd[0] == (d@[0].0@, d@[0].1@));
                assert forall|i: int|
                    0 <= i < vd.len() implies (#[trigger] vd[i]).0.len() < 0x100000000
                    && vd[i].1.len() < 0x100000000 by {
                    if i > 0 {
                        assert(vd[i] == vd.drop_first()[i - 1]);
                    }
                }
                assert(v@ =~= le32_bytes(vd[0].0.len() as u64) + vd[0].0 + le32_bytes(
                    vd[0].1.len() as u64,
                ) + vd[0].1 + dir_bytes(vd.drop_first()));
            }
            Some(v)
        },
    }
}

/// Looks one level's payload up by name.
pub fn dir_find_exec(d: &[(Vec<u8>, Vec<u8>)], name: &Vec<u8>) -> (r: Option<Vec<u8>>)
    ensures
        match r {
            Some(p) => dir_find(view_dir(d@), name@) == Some(p@),
            None => dir_find(view_dir(d@), name@) == None::<Seq<u8>>,
        },
    decreases d@.len(),
{
    if d.len() == 0 {
        proof {
            assert(view_dir(d@) =~= Seq::<(Seq<u8>, Seq<u8>)>::empty());
        }
        return None;
    }
    let rec = vstd::slice::slice_index_get(d, 0);
    proof {
        assert(view_dir(d@)[0] == (d@[0].0@, d@[0].1@));
    }
    if eq_bytes(&rec.0, name) {
        Some(copy_slice(rec.1.as_slice()))
    } else {
        let rest = slice_subrange(d, 1, d.len());
        proof {
            assert(view_dir(rest@) =~= view_dir(d@).drop_first());
        }
        dir_find_exec(rest, name)
    }
}

/// Replaces the first record under `name` with payload `p`.
pub fn dir_replace_exec(d: &[(Vec<u8>, Vec<u8>)], name: &Vec<u8>, p: &Vec<u8>) -> (r: Vec<
    (Vec<u8>, Vec<u8>),
>)
    ensures
        view_dir(r@) == dir_replace(view_dir(d@), name@, p@),
    decreases d@.len(),
{
    if d.len() == 0 {
        let r: Vec<(Vec<u8>, Vec<u8>)> = Vec::new();
        proof {
            assert(view_dir(d@) =~= Seq::<(Seq<u8>, Seq<u8>)>::empty());
            assert(view_dir(r@) =~= dir_replace(view_dir(d@), name@, p@));
        }
        return r;
    }
    let rec = vstd::slice::slice_index_get(d, 0);
    proof {
        assert(view_dir(d@)[0] == (d@[0].0@, d@[0].1@));
    }
    let rest = slice_subrange(d, 1, d.len());
    proof {
        assert(view_dir(rest@) =~= view_dir(d@).drop_first());
    }
    if eq_bytes(&rec.0, name) {
        let mut out: Vec<(Vec<u8>, Vec<u8>)> = Vec::new();
        out.push((copy_slice(rec.0.as_slice()), copy_slice(p.as_slice())));
        let mut i: usize = 1;
        while i < d.len()
            invariant
                1 <= i <= d@.len(),
                d@.len() >= 1,
                out@.len() == i,
                view_dir(out@)[0] == (d@[0].0@, p@),
                forall|j: int| 1 <= j < i ==> #[trigger] view_dir(out@)[j] == view_dir(d@)[j],
            decreases d@.len() - i,
        {
            let ghost pre = out@;
            let e = vstd::slice::slice_index_get(d, i);
            out.push((copy_slice(e.0.as_slice()), copy_slice(e.1.as_slice())));
            proof {
                assert(out@ == pre.push(out@[i as int]));
                assert(view_dir(out@)[0] == (out@[0].0@, out@[0].1@));
                assert(view_dir(pre)[0] == (pre[0].0@, pre[0].1@));
                assert(out@[0] == pre[0]);
                assert forall|j: int| 1 <= j < i + 1 implies #[trigger] view_dir(out@)[j]
                    == view_dir(d@)[j] by {
                    assert(view_dir(out@)[j] == (out@[j].0@, out@[j].1@));
                    assert(view_dir(d@)[j] == (d@[j].0@, d@[j].1@));
                    if j < i {
                        assert(out@[j] == pre[j]);
                        assert(view_dir(pre)[j] == (pre[j].0@, pre[j].1@));
                    } else {
                        assert(out@[j].0@ == d@[j].0@ && out@[j].1@ == d@[j].1@);
                    }
                }
            }
            i = i + 1;
        }
        proof {
            let vd = view_dir(d@);
            let want = dir_replace(vd, name@, p@);
            assert(want == seq![(vd[0].0, p@)] + vd.drop_first());
            assert forall|j: int| 0 <= j < vd.len() implies view_dir(out@)[j] == want[j] by {
                if j > 0 {
                    assert(want[j] == vd.drop_first()[j - 1]);
                    assert(vd.drop_first()[j - 1] == vd[j]);
                    assert(vd[j] == (d@[j].0@, d@[j].1@));
                }
            }
            assert(view_dir(out@) =~= want);
        }
        out
    } else {
        let tail = dir_replace_exec(rest, name, p);
        let mut out: Vec<(Vec<u8>, Vec<u8>)> = Vec::new();
        out.push((copy_slice(rec.0.as_slice()), copy_slice(rec.1.as_slice())));
        let ghost tailv = view_dir(tail@);
        let mut t2 = tail;
        out.append(&mut t2);
        proof {
            let vd = view_dir(d@);
            assert(view_dir(out@) =~= seq![vd[0]] + tailv);
            assert(dir_replace(vd, name@, p@) == seq![vd[0]] + dir_replace(vd.drop_first(), name@, p@));
        }
        out
    }
}

} // verus!
