//! The inner level payload as delimited text: objects are separated by one
//! delimiter, properties within an object by another, and each property is
//! encoded as `key<sep>value`.  Printing and parsing are specified as pure
//! functions over byte sequences, and parsing a printed well-formed listing
//! is proved to give the listing back exactly.

use vstd::prelude::*;
use vstd::slice::slice_subrange;
use crate::obj::{
    PropVal, SpecVal, TargetObject, SpecObj, view_listing, wf_val, wf_obj, wf_listing, is_digit,
    is_text_start, is_text_byte,
};

verus! {

/// Delimiter between objects (`;`).
pub const OBJ_SEP: u8 = 59;
/// Delimiter between properties and between a key and its value (`,`).
pub const PROP_SEP: u8 = 44;
/// Delimiter between elements of a packed sub-list (`.`).
pub const LIST_SEP: u8 = 46;

// ---------------------------------------------------------------------------
// printing
// ---------------------------------------------------------------------------

/// Decimal digits of `n`, most significant first.
pub open spec fn dec_bytes(n: nat) -> Seq<u8>
    decreases n,
{
    if n < 10 {
        seq![(48 + n) as u8]
    } else {
        dec_bytes(n / 10).push((48 + n % 10) as u8)
    }
}

/// Bytes of a packed sub-list: decimals joined by `LIST_SEP`.
pub open spec fn list_bytes(l: Seq<u64>) -> Seq<u8>
    decreases l.len(),
{
    if l.len() == 0 {
        Seq::empty()
    } else if l.len() == 1 {
        dec_bytes(l[0] as nat)
    } else {
        dec_bytes(l[0] as nat) + seq![LIST_SEP] + list_bytes(l.drop_first())
    }
}

/// Bytes of one property value.
pub open spec fn val_bytes(v: SpecVal) -> Seq<u8> {
    match v {
        SpecVal::Int(n) => dec_bytes(n as nat),
        SpecVal::Text(t) => t,
        SpecVal::List(l) => list_bytes(l),
    }
}

/// Bytes of one property: `key<sep>value`.
pub open spec fn prop_bytes(p: (u64, SpecVal)) -> Seq<u8> {
    dec_bytes(p.0 as nat) + seq![PROP_SEP] + val_bytes(p.1)
}

/// Bytes of an object's properties, joined by `PROP_SEP`.
pub open spec fn props_bytes(ps: Seq<(u64, SpecVal)>) -> Seq<u8>
    decreases ps.len(),
{
    if ps.len() == 0 {
        Seq::empty()
    } else if ps.len() == 1 {
        prop_bytes(ps[0])
    } else {
        prop_bytes(ps[0]) + seq![PROP_SEP] + props_bytes(ps.drop_first())
    }
}

/// Bytes of one object.
pub open spec fn obj_bytes(o: SpecObj) -> Seq<u8> {
    props_bytes(o.props)
}

/// Bytes of a whole listing: objects joined by `OBJ_SEP`.
pub open spec fn listing_bytes(l: Seq<SpecObj>) -> Seq<u8>
    decreases l.len(),
{
    if l.len() == 0 {
        Seq::empty()
    } else if l.len() == 1 {
        obj_bytes(l[0])
    } else {
        obj_bytes(l[0]) + seq![OBJ_SEP] + listing_bytes(l.drop_first())
    }
}

// ---------------------------------------------------------------------------
// parsing
// ---------------------------------------------------------------------------

/// Position of the first occurrence of `c` in `s`.
pub open spec fn find_byte(s: Seq<u8>, c: u8) -> Option<int>
    decreases s.len(),
{
    if s.len() == 0 {
        None
    } else if s[0] == c {
        Some(0)
    } else {
        match find_byte(s.drop_first(), c) {
            Some(i) => Some(i + 1),
            None => None,
        }
    }
}

/// What `find_byte` returns is a position of `c`, and nothing before it is
/// `c`.
pub proof fn lemma_find_byte_some(s: Seq<u8>, c: u8)
    ensures
        match find_byte(s, c) {
            Some(i) => 0 <= i < s.len() && s[i] == c && forall|j: int| 0 <= j < i ==> s[j] != c,
            None => forall|j: int| 0 <= j < s.len() ==> s[j] != c,
        },
    decreases s.len(),
{
    if s.len() > 0 && s[0] != c {
        lemma_find_byte_some(s.drop_first(), c);
        match find_byte(s.drop_first(), c) {
            Some(i) => {
                assert(s[i + 1] == s.drop_first()[i]);
                assert forall|j: int| 0 <= j < i + 1 implies s[j] != c by {
                    if j > 0 {
                        assert(s[j] == s.drop_first()[j - 1]);
                    }
                }
            },
            None => {
                assert forall|j: int| 0 <= j < s.len() implies s[j] != c by {
                    if j > 0 {
                        assert(s[j] == s.drop_first()[j - 1]);
                    }
                }
            },
        }
    }
}

/// If nothing in `s` up to exclusive position `i` is `c` and `s[i]` is `c`,
/// the first occurrence is at `i`.
pub proof fn lemma_find_byte_at(s: Seq<u8>, c: u8, i: int)
    requires
        0 <= i < s.len(),
        s[i] == c,
        forall|j: int| 0 <= j < i ==> s[j] != c,
    ensures
        find_byte(s, c) == Some(i),
    decreases i,
{
    if i > 0 {
        lemma_find_byte_at(s.drop_first(), c, i - 1);
    }
}

/// If `c` does not occur in `s`, `find_byte` returns `None`.
pub proof fn lemma_find_byte_none(s: Seq<u8>, c: u8)
    requires
        forall|j: int| 0 <= j < s.len() ==> s[j] != c,
    ensures
        find_byte(s, c) == None::<int>,
{
    lemma_find_byte_some(s, c);
    if find_byte(s, c) is Some {
        let i = find_byte(s, c)->Some_0;
        assert(s[i] == c);
    }
}

/// Numeric value of a digit string.
pub open spec fn dec_value(s: Seq<u8>) -> int
    decreases s.len(),
{
    if s.len() == 0 {
        0
    } else {
        dec_value(s.drop_last()) * 10 + (s.last() - 48)
    }
}

/// All bytes are decimal digits.
pub open spec fn all_digits(s: Seq<u8>) -> bool {
    forall|i: int| 0 <= i < s.len() ==> is_digit(#[trigger] s[i])
}

/// A canonical decimal: non-empty, all digits, no leading zero.
pub open spec fn canonical_dec(s: Seq<u8>) -> bool {
    &&& s.len() >= 1
    &&& all_digits(s)
    &&& (s.len() == 1 || s[0] != 48)
}

/// Parses a canonical decimal that fits in `u64`.
pub open spec fn parse_dec(s: Seq<u8>) -> Option<u64> {
    if canonical_dec(s) && dec_value(s) <= u64::MAX {
        Some(dec_value(s) as u64)
    } else {
        None
    }
}

/// Parses a packed sub-list: decimals joined by `LIST_SEP`.
pub open spec fn parse_list(s: Seq<u8>) -> Option<Seq<u64>>
    decreases s.len(),
    via parse_list_dec
{
    match find_byte(s, LIST_SEP) {
        None => match parse_dec(s) {
            Some(n) => Some(seq![n]),
            None => None,
        },
        Some(i) => match (parse_dec(s.take(i)), parse_list(s.skip(i + 1))) {
            (Some(n), Some(rest)) => Some(seq![n] + rest),
            _ => None,
        },
    }
}

#[via_fn]
proof fn parse_list_dec(s: Seq<u8>) {
    lemma_find_byte_some(s, LIST_SEP);
}

/// Parses one property value, classified by shape: a packed list when the
/// list delimiter occurs, a decimal when the text starts with a digit, and
/// text otherwise.
pub open spec fn parse_val(s: Seq<u8>) -> Option<SpecVal> {
    if s.len() == 0 {
        None
    } else if find_byte(s, LIST_SEP) is Some {
        match parse_list(s) {
            Some(l) => if l.len() >= 2 {
                Some(SpecVal::List(l))
            } else {
                None
            },
            None => None,
        }
    } else if is_digit(s[0]) {
        match parse_dec(s) {
            Some(n) => Some(SpecVal::Int(n)),
            None => None,
        }
    } else if is_text_start(s[0]) && (forall|i: int| 0 <= i < s.len() ==> is_text_byte(#[trigger] s[i])) {
        Some(SpecVal::Text(s))
    } else {
        None
    }
}

/// Parses an object's properties: `key<sep>value` pairs joined by
/// `PROP_SEP`, every key positive.
pub open spec fn parse_props(s: Seq<u8>) -> Option<Seq<(u64, SpecVal)>>
    decreases s.len(),
    via parse_props_dec
{
    match find_byte(s, PROP_SEP) {
        None => None,
        Some(i) => match parse_dec(s.take(i)) {
            None => None,
            Some(k) => {
                if k < 1 {
                    None
                } else {
                    let rest = s.skip(i + 1);
                    match find_byte(rest, PROP_SEP) {
                        None => match parse_val(rest) {
                            Some(v) => Some(seq![(k, v)]),
                            None => None,
                        },
                        Some(j) => match (parse_val(rest.take(j)), parse_props(rest.skip(j + 1))) {
                            (Some(v), Some(tail)) => Some(seq![(k, v)] + tail),
                            _ => None,
                        },
                    }
                }
            },
        },
    }
}

#[via_fn]
proof fn parse_props_dec(s: Seq<u8>) {
    lemma_find_byte_some(s, PROP_SEP);
    match find_byte(s, PROP_SEP) {
        Some(i) => {
            lemma_find_byte_some(s.skip(i + 1), PROP_SEP);
        },
        None => {},
    }
}

/// No two properties share a key.
pub open spec fn unique_keys(ps: Seq<(u64, SpecVal)>) -> bool {
    forall|i: int, j: int| 0 <= i < j < ps.len() ==> (#[trigger] ps[i]).0 != (#[trigger] ps[j]).0
}

/// Parses one object and checks its keys are unique.
pub open spec fn parse_obj(s: Seq<u8>) -> Option<SpecObj> {
    match parse_props(s) {
        Some(ps) => if unique_keys(ps) {
            Some(SpecObj { props: ps })
        } else {
            None
        },
        None => None,
    }
}

/// Parses a whole listing: objects joined by `OBJ_SEP`.  The empty byte
/// string is the empty listing.
pub open spec fn parse_listing(s: Seq<u8>) -> Option<Seq<SpecObj>>
    decreases s.len(),
    via parse_listing_dec
{
    if s.len() == 0 {
        Some(Seq::empty())
    } else {
        match find_byte(s, OBJ_SEP) {
            None => match parse_obj(s) {
                Some(o) => Some(seq![o]),
                None => None,
            },
            Some(i) => match (parse_obj(s.take(i)), parse_listing(s.skip(i + 1))) {
                (Some(o), Some(rest)) => Some(seq![o] + rest),
                _ => None,
            },
        }
    }
}

#[via_fn]
proof fn parse_listing_dec(s: Seq<u8>) {
    lemma_find_byte_some(s, OBJ_SEP);
}

// ---------------------------------------------------------------------------
// round trip: parsing a printed well-formed listing gives it back
// ---------------------------------------------------------------------------

/// Decimal digits are digits, and the printed form is canonical.
pub proof fn lemma_dec_bytes_canonical(n: nat)
    ensures
        dec_bytes(n).len() >= 1,
        all_digits(dec_bytes(n)),
        canonical_dec(dec_bytes(n)),
        n >= 10 ==> dec_bytes(n).len() >= 2,
    decreases n,
{
    if n < 10 {
        assert(dec_bytes(n) == seq![(48 + n) as u8]);
        assert(is_digit(dec_bytes(n)[0]));
    } else {
        lemma_dec_bytes_canonical(n / 10);
        let p = dec_bytes(n / 10);
        let s = dec_bytes(n);
        assert(s == p.push((48 + n % 10) as u8));
        assert(n % 10 < 10);
        assert forall|i: int| 0 <= i < s.len() implies is_digit(#[trigger] s[i]) by {
            if i < p.len() {
                assert(s[i] == p[i]);
                assert(is_digit(p[i]));
            } else {
                assert(s[i] == (48 + n % 10) as u8);
            }
        }
        assert(s[0] == p[0]);
        assert(n / 10 >= 1);
        if n / 10 < 10 {
            assert(p == seq![(48 + n / 10) as u8]);
            assert(p[0] != 48);
        } else {
            assert(p.len() >= 2);
            assert(p[0] != 48);
        }
    }
}

/// The numeric value of the printed digits of `n` is `n`.
pub proof fn lemma_dec_value_of_bytes(n: nat)
    ensures
        dec_value(dec_bytes(n)) == n,
    decreases n,
{
    if n < 10 {
        assert(dec_bytes(n) == seq![(48 + n) as u8]);
        assert(dec_bytes(n).drop_last() =~= Seq::<u8>::empty());
        assert(dec_value(Seq::<u8>::empty()) == 0);
        assert(dec_bytes(n).last() == (48 + n) as u8);
        assert(dec_value(dec_bytes(n)) == 0 * 10 + ((48 + n) as u8 - 48));
    } else {
        lemma_dec_value_of_bytes(n / 10);
        let s = dec_bytes(n);
        assert(s == dec_bytes(n / 10).push((48 + n % 10) as u8));
        assert(s.drop_last() =~= dec_bytes(n / 10));
        assert(s.last() == (48 + n % 10) as u8);
        assert(dec_value(s) == dec_value(dec_bytes(n / 10)) * 10 + (n % 10));
        assert(n == (n / 10) * 10 + n % 10) by {
            vstd::arithmetic::div_mod::lemma_fundamental_div_mod(n as int, 10);
        }
    }
}

/// Printing then parsing a `u64` gives it back.
pub proof fn lemma_parse_dec_round(n: u64)
    ensures
        parse_dec(dec_bytes(n as nat)) == Some(n),
{
    lemma_dec_bytes_canonical(n as nat);
    lemma_dec_value_of_bytes(n as nat);
}

/// Printing then parsing a packed sub-list gives it back.
pub proof fn lemma_parse_list_round(l: Seq<u64>)
    requires
        l.len() >= 1,
    ensures
        parse_list(list_bytes(l)) == Some(l),
    decreases l.len(),
{
    lemma_dec_bytes_canonical(l[0] as nat);
    lemma_parse_dec_round(l[0]);
    if l.len() == 1 {
        lemma_find_byte_none(list_bytes(l), LIST_SEP);
        assert(seq![l[0]] =~= l);
    } else {
        let d = dec_bytes(l[0] as nat);
        let s = list_bytes(l);
        assert(s == d + seq![LIST_SEP] + list_bytes(l.drop_first()));
        assert forall|j: int| 0 <= j < d.len() implies s[j] != LIST_SEP by {
            assert(s[j] == d[j]);
            assert(is_digit(d[j]));
        }
        assert(s[d.len() as int] == LIST_SEP);
        lemma_find_byte_at(s, LIST_SEP, d.len() as int);
        assert(s.take(d.len() as int) =~= d);
        assert(s.skip(d.len() as int + 1) =~= list_bytes(l.drop_first()));
        lemma_parse_list_round(l.drop_first());
        assert(seq![l[0]] + l.drop_first() =~= l);
    }
}

/// Every byte of a printed packed sub-list is a digit or the list delimiter.
pub proof fn lemma_list_bytes_charset(l: Seq<u64>)
    ensures
        forall|i: int|
            0 <= i < list_bytes(l).len() ==> (is_digit(#[trigger] list_bytes(l)[i])
                || list_bytes(l)[i] == LIST_SEP),
    decreases l.len(),
{
    if l.len() == 0 {
    } else if l.len() == 1 {
        lemma_dec_bytes_canonical(l[0] as nat);
    } else {
        lemma_dec_bytes_canonical(l[0] as nat);
        lemma_list_bytes_charset(l.drop_first());
        let d = dec_bytes(l[0] as nat);
        let rest = list_bytes(l.drop_first());
        assert forall|i: int|
            0 <= i < list_bytes(l).len() implies (is_digit(#[trigger] list_bytes(l)[i])
                || list_bytes(l)[i] == LIST_SEP) by {
            if i < d.len() {
                assert(list_bytes(l)[i] == d[i]);
            } else if i == d.len() {
            } else {
                assert(list_bytes(l)[i] == rest[i - d.len() - 1]);
            }
        }
    }
}

/// No byte of a printed well-formed value is a property or object delimiter.
pub proof fn lemma_val_bytes_charset(v: SpecVal)
    requires
        wf_val(v),
    ensures
        forall|i: int|
            0 <= i < val_bytes(v).len() ==> ((#[trigger] val_bytes(v)[i]) != PROP_SEP
                && val_bytes(v)[i] != OBJ_SEP),
{
    match v {
        SpecVal::Int(n) => {
            lemma_dec_bytes_canonical(n as nat);
        },
        SpecVal::Text(_) => {},
        SpecVal::List(l) => {
            lemma_list_bytes_charset(l);
        },
    }
}

/// Printing then parsing one well-formed value gives it back.
pub proof fn lemma_parse_val_round(v: SpecVal)
    requires
        wf_val(v),
    ensures
        parse_val(val_bytes(v)) == Some(v),
{
    match v {
        SpecVal::Int(n) => {
            lemma_dec_bytes_canonical(n as nat);
            lemma_parse_dec_round(n);
            lemma_find_byte_none(dec_bytes(n as nat), LIST_SEP);
        },
        SpecVal::Text(t) => {
            assert forall|j: int| 0 <= j < t.len() implies t[j] != LIST_SEP by {
                assert(is_text_byte(t[j]));
            }
            lemma_find_byte_none(t, LIST_SEP);
        },
        SpecVal::List(l) => {
            let d = dec_bytes(l[0] as nat);
            let s = list_bytes(l);
            lemma_dec_bytes_canonical(l[0] as nat);
            assert(s == d + seq![LIST_SEP] + list_bytes(l.drop_first()));
            assert(s[d.len() as int] == LIST_SEP);
            assert forall|j: int| 0 <= j < d.len() implies s[j] != LIST_SEP by {
                assert(s[j] == d[j]);
            }
            lemma_find_byte_at(s, LIST_SEP, d.len() as int);
            lemma_parse_list_round(l);
        },
    }
}

/// Printing then parsing a well-formed property sequence gives it back.
pub proof fn lemma_parse_props_round(ps: Seq<(u64, SpecVal)>)
    requires
        ps.len() >= 1,
        forall|i: int| 0 <= i < ps.len() ==> (#[trigger] ps[i]).0 >= 1,
        forall|i: int| 0 <= i < ps.len() ==> wf_val((#[trigger] ps[i]).1),
    ensures
        parse_props(props_bytes(ps)) == Some(ps),
    decreases ps.len(),
{
    let k = ps[0].0;
    let v = ps[0].1;
    let d = dec_bytes(k as nat);
    let vb = val_bytes(v);
    lemma_dec_bytes_canonical(k as nat);
    lemma_parse_dec_round(k);
    lemma_val_bytes_charset(v);
    lemma_parse_val_round(v);
    if ps.len() == 1 {
        let s = props_bytes(ps);
        assert(s == prop_bytes(ps[0]));
        assert(s == d + seq![PROP_SEP] + vb);
        assert forall|j: int| 0 <= j < d.len() implies s[j] != PROP_SEP by {
            assert(s[j] == d[j]);
        }
        assert(s[d.len() as int] == PROP_SEP);
        lemma_find_byte_at(s, PROP_SEP, d.len() as int);
        assert(s.take(d.len() as int) =~= d);
        let rest = s.skip(d.len() as int + 1);
        assert(rest =~= vb);
        assert forall|j: int| 0 <= j < rest.len() implies rest[j] != PROP_SEP by {
            assert(rest[j] == vb[j]);
        }
        lemma_find_byte_none(rest, PROP_SEP);
        assert(seq![(k, v)] =~= ps);
    } else {
        lemma_parse_props_round(ps.drop_first());
        let tailb = props_bytes(ps.drop_first());
        let s = props_bytes(ps);
        assert(s == prop_bytes(ps[0]) + seq![PROP_SEP] + tailb);
        assert(s =~= d + seq![PROP_SEP] + (vb + seq![PROP_SEP] + tailb));
        assert forall|j: int| 0 <= j < d.len() implies s[j] != PROP_SEP by {
            assert(s[j] == d[j]);
        }
        assert(s[d.len() as int] == PROP_SEP);
        lemma_find_byte_at(s, PROP_SEP, d.len() as int);
        assert(s.take(d.len() as int) =~= d);
        let rest = s.skip(d.len() as int + 1);
        assert(rest =~= vb + seq![PROP_SEP] + tailb);
        assert forall|j: int| 0 <= j < vb.len() implies rest[j] != PROP_SEP by {
            assert(rest[j] == vb[j]);
        }
        assert(rest[vb.len() as int] == PROP_SEP);
        lemma_find_byte_at(rest, PROP_SEP, vb.len() as int);
        assert(rest.take(vb.len() as int) =~= vb);
        assert(rest.skip(vb.len() as int + 1) =~= tailb);
        assert(seq![(k, v)] + ps.drop_first() =~= ps);
    }
}

/// No byte of a printed well-formed object is the object delimiter.
pub proof fn lemma_obj_bytes_charset(ps: Seq<(u64, SpecVal)>)
    requires
        forall|i: int| 0 <= i < ps.len() ==> wf_val((#[trigger] ps[i]).1),
    ensures
        forall|i: int| 0 <= i < props_bytes(ps).len() ==> (#[trigger] props_bytes(ps)[i]) != OBJ_SEP,
        ps.len() >= 1 ==> props_bytes(ps).len() >= 1,
    decreases ps.len(),
{
    if ps.len() == 0 {
    } else {
        let d = dec_bytes(ps[0].0 as nat);
        let vb = val_bytes(ps[0].1);
        lemma_dec_bytes_canonical(ps[0].0 as nat);
        lemma_val_bytes_charset(ps[0].1);
        if ps.len() == 1 {
            let s = props_bytes(ps);
            assert(s == d + seq![PROP_SEP] + vb);
            assert forall|i: int| 0 <= i < s.len() implies (#[trigger] s[i]) != OBJ_SEP by {
                if i < d.len() {
                    assert(s[i] == d[i]);
                } else if i == d.len() {
                } else {
                    assert(s[i] == vb[i - d.len() - 1]);
                }
            }
        } else {
            lemma_obj_bytes_charset(ps.drop_first());
            let tailb = props_bytes(ps.drop_first());
            let s = props_bytes(ps);
            let pb = prop_bytes(ps[0]);
            assert(s == pb + seq![PROP_SEP] + tailb);
            assert forall|i: int| 0 <= i < s.len() implies (#[trigger] s[i]) != OBJ_SEP by {
                if i < pb.len() {
                    assert(s[i] == pb[i]);
                    if i < d.len() {
                        assert(pb[i] == d[i]);
                    } else if i == d.len() {
                    } else {
                        assert(pb[i] == vb[i - d.len() - 1]);
                    }
                } else if i == pb.len() {
                } else {
                    assert(s[i] == tailb[i - pb.len() - 1]);
                }
            }
        }
    }
}

/// Printing then parsing one well-formed object gives it back.
pub proof fn lemma_parse_obj_round(o: SpecObj)
    requires
        wf_obj(o),
    ensures
        parse_obj(obj_bytes(o)) == Some(o),
{
    lemma_parse_props_round(o.props);
}

/// Round trip of the text layer: printing a well-formed listing and parsing
/// the bytes gives the listing back exactly.
pub proof fn lemma_parse_listing_round(l: Seq<SpecObj>)
    requires
        wf_listing(l),
    ensures
        parse_listing(listing_bytes(l)) == Some(l),
    decreases l.len(),
{
    if l.len() == 0 {
        assert(listing_bytes(l) =~= Seq::<u8>::empty());
        assert(parse_listing(listing_bytes(l)) == Some(Seq::<SpecObj>::empty()));
        assert(Some(Seq::<SpecObj>::empty()) == Some(l)) by {
            assert(Seq::<SpecObj>::empty() =~= l);
        }
    } else if l.len() == 1 {
        lemma_obj_bytes_charset(l[0].props);
        lemma_parse_obj_round(l[0]);
        let s = listing_bytes(l);
        assert(s == obj_bytes(l[0]));
        lemma_find_byte_none(s, OBJ_SEP);
        assert(s.len() >= 1);
        assert(seq![l[0]] =~= l);
    } else {
        lemma_obj_bytes_charset(l[0].props);
        lemma_parse_obj_round(l[0]);
        lemma_parse_listing_round(l.drop_first());
        let ob = obj_bytes(l[0]);
        let tailb = listing_bytes(l.drop_first());
        let s = listing_bytes(l);
        assert(s == ob + seq![OBJ_SEP] + tailb);
        assert(s.len() >= 1);
        assert forall|j: int| 0 <= j < ob.len() implies s[j] != OBJ_SEP by {
            assert(s[j] == ob[j]);
        }
        assert(s[ob.len() as int] == OBJ_SEP);
        lemma_find_byte_at(s, OBJ_SEP, ob.len() as int);
        assert(s.take(ob.len() as int) =~= ob);
        assert(s.skip(ob.len() as int + 1) =~= tailb);
        assert(seq![l[0]] + l.drop_first() =~= l);
    }
}

// ---------------------------------------------------------------------------
// executable printing
// ---------------------------------------------------------------------------

/// Prints a decimal.
pub fn dec_exec(n: u64) -> (r: Vec<u8>)
    ensures
        r@ == dec_bytes(n as nat),
    decreases n,
{
    if n < 10 {
        let mut v: Vec<u8> = Vec::new();
        v.push(48 + n as u8);
        proof {
            assert(v@ =~= dec_bytes(n as nat));
        }
        v
    } else {
        let mut v = dec_exec(n / 10);
        v.push(48 + (n % 10) as u8);
        v
    }
}

/// Copies a byte vector.
fn copy_bytes(t: &Vec<u8>) -> (r: Vec<u8>)
    ensures
        r@ == t@,
{
    let mut v: Vec<u8> = Vec::new();
    let mut i: usize = 0;
    while i < t.len()
        invariant
            0 <= i <= t.len(),
            v@ == t@.take(i as int),
        decreases t.len() - i,
    {
        v.push(t[i]);
        proof {
            assert(v@ =~= t@.take(i + 1));
        }
        i = i + 1;
    }
    proof {
        assert(t@.take(t@.len() as int) =~= t@);
    }
    v
}

/// Prints a packed sub-list.
pub fn list_exec(l: &[u64]) -> (r: Vec<u8>)
    ensures
        r@ == list_bytes(l@),
    decreases l@.len(),
{
    if l.len() == 0 {
        Vec::new()
    } else if l.len() == 1 {
        dec_exec(*vstd::slice::slice_index_get(l, 0))
    } else {
        let mut v = dec_exec(*vstd::slice::slice_index_get(l, 0));
        v.push(LIST_SEP);
        let rest = slice_subrange(l, 1, l.len());
        let mut tail = list_exec(rest);
        v.append(&mut tail);
        proof {
            assert(rest@ =~= l@.drop_first());
            assert(v@ =~= dec_bytes(l@[0] as nat) + seq![LIST_SEP] + list_bytes(l@.drop_first()));
        }
        v
    }
}

/// Prints one property value.
pub fn val_exec(v: &PropVal) -> (r: Vec<u8>)
    ensures
        r@ == val_bytes(v@),
{
    match v {
        PropVal::Int(n) => dec_exec(*n),
        PropVal::Text(t) => copy_bytes(t),
        PropVal::List(l) => list_exec(l.as_slice()),
    }
}

/// Prints an object's properties.
pub fn props_exec(ps: &[(u64, PropVal)]) -> (r: Vec<u8>)
    ensures
        r@ == props_bytes(crate::obj::view_props(ps@)),
    decreases ps@.len(),
{
    if ps.len() == 0 {
        proof {
            assert(crate::obj::view_props(ps@) =~= Seq::<(u64, SpecVal)>::empty());
        }
        Vec::new()
    } else {
        let p = vstd::slice::slice_index_get(ps, 0);
        let mut v = dec_exec(p.0);
        v.push(PROP_SEP);
        let mut vb = val_exec(&p.1);
        v.append(&mut vb);
        let ghost vps = crate::obj::view_props(ps@);
        proof {
            assert(vps[0] == (ps@[0].0, ps@[0].1@));
            assert(v@ =~= prop_bytes(vps[0]));
        }
        if ps.len() == 1 {
            proof {
                assert(vps.len() == 1);
            }
            v
        } else {
            v.push(PROP_SEP);
            let rest = slice_subrange(ps, 1, ps.len());
            let mut tail = props_exec(rest);
            v.append(&mut tail);
            proof {
                assert(crate::obj::view_props(rest@) =~= vps.drop_first());
                assert(v@ =~= prop_bytes(vps[0]) + seq![PROP_SEP] + props_bytes(vps.drop_first()));
            }
            v
        }
    }
}

/// Prints one object.
pub fn obj_exec(o: &TargetObject) -> (r: Vec<u8>)
    ensures
        r@ == obj_bytes(o@),
{
    props_exec(o.props.as_slice())
}

/// Prints a whole listing.
pub fn listing_exec(l: &[TargetObject]) -> (r: Vec<u8>)
    ensures
        r@ == listing_bytes(view_listing(l@)),
    decreases l@.len(),
{
    if l.len() == 0 {
        proof {
            assert(view_listing(l@) =~= Seq::<SpecObj>::empty());
        }
        Vec::new()
    } else if l.len() == 1 {
        let r = obj_exec(vstd::slice::slice_index_get(l, 0));
        proof {
            assert(view_listing(l@).len() == 1);
            assert(view_listing(l@)[0] == l@[0]@);
        }
        r
    } else {
        let mut v = obj_exec(vstd::slice::slice_index_get(l, 0));
        v.push(OBJ_SEP);
        let rest = slice_subrange(l, 1, l.len());
        let mut tail = listing_exec(rest);
        v.append(&mut tail);
        proof {
            assert(view_listing(rest@) =~= view_listing(l@).drop_first());
            assert(view_listing(l@)[0] == l@[0]@);
            assert(v@ =~= obj_bytes(view_listing(l@)[0]) + seq![OBJ_SEP]
                + listing_bytes(view_listing(l@).drop_first()));
        }
        v
    }
}

// ---------------------------------------------------------------------------
// executable parsing
// ---------------------------------------------------------------------------

/// Finds the first occurrence of `c`.
pub fn find_exec(s: &[u8], c: u8) -> (r: Option<usize>)
    ensures
        match r {
            Some(i) => i < s@.len() && find_byte(s@, c) == Some(i as int),
            None => find_byte(s@, c) == None::<int>,
        },
{
    let mut i: usize = 0;
    while i < s.len()
        invariant
            0 <= i <= s@.len(),
            forall|j: int| 0 <= j < i ==> s@[j] != c,
        decreases s@.len() - i,
    {
        if *vstd::slice::slice_index_get(s, i) == c {
            proof {
                lemma_find_byte_at(s@, c, i as int);
            }
            return Some(i);
        }
        i = i + 1;
    }
    proof {
        lemma_find_byte_none(s@, c);
    }
    None
}

/// The twentieth power of ten, computed by unfolding.
proof fn lemma_pow10_20()
    ensures
        pow10(20) == 100000000000000000000,
{
    assert(pow10(0) == 1);
    assert(pow10(1) == 10);
    assert(pow10(2) == 100);
    assert(pow10(3) == 1000);
    assert(pow10(4) == 10000);
    assert(pow10(5) == 100000);
    assert(pow10(6) == 1000000);
    assert(pow10(7) == 10000000);
    assert(pow10(8) == 100000000);
    assert(pow10(9) == 1000000000);
    assert(pow10(10) == 10000000000);
    assert(pow10(11) == 100000000000);
    assert(pow10(12) == 1000000000000);
    assert(pow10(13) == 10000000000000);
    assert(pow10(14) == 100000000000000);
    assert(pow10(15) == 1000000000000000);
    assert(pow10(16) == 10000000000000000);
    assert(pow10(17) == 100000000000000000);
    assert(pow10(18) == 1000000000000000000);
    assert(pow10(19) == 10000000000000000000);
    assert(pow10(20) == 100000000000000000000);
}

/// Powers of ten.
pub open spec fn pow10(k: nat) -> int
    decreases k,
{
    if k == 0 {
        1
    } else {
        10 * pow10((k - 1) as nat)
    }
}

/// The value of a digit string is below `pow10` of its length.
proof fn lemma_dec_value_bound(s: Seq<u8>)
    requires
        all_digits(s),
    ensures
        0 <= dec_value(s) < pow10(s.len()),
    decreases s.len(),
{
    if s.len() > 0 {
        lemma_dec_value_bound(s.drop_last());
        assert(all_digits(s.drop_last())) by {
            assert(forall|i: int| 0 <= i < s.len() - 1 ==> s.drop_last()[i] == s[i]);
        }
        assert(is_digit(s.last()));
    }
}

/// A canonical decimal of at least two digits is at least `pow10` of one
/// less than its length.
proof fn lemma_dec_value_lower(s: Seq<u8>)
    requires
        canonical_dec(s),
        s.len() >= 2,
    ensures
        dec_value(s) >= pow10((s.len() - 1) as nat),
    decreases s.len(),
{
    let p = s.drop_last();
    assert(all_digits(p)) by {
        assert(forall|i: int| 0 <= i < s.len() - 1 ==> p[i] == s[i]);
    }
    assert(p[0] == s[0]);
    if s.len() == 2 {
        assert(p.len() == 1);
        assert(dec_value(p) == dec_value(p.drop_last()) * 10 + (p.last() - 48));
        assert(p.drop_last() =~= Seq::<u8>::empty());
        assert(dec_value(p) == p[0] - 48);
        assert(p[0] != 48 && is_digit(p[0]));
        assert(dec_value(p) >= 1);
        assert(dec_value(s) == dec_value(p) * 10 + (s.last() - 48));
        assert(is_digit(s.last()));
    } else {
        lemma_dec_value_lower(p);
        assert(is_digit(s.last()));
        assert(dec_value(s) == dec_value(p) * 10 + (s.last() - 48));
        assert(pow10((s.len() - 1) as nat) == 10 * pow10((s.len() - 2) as nat));
    }
}

/// Parses a canonical decimal.
pub fn parse_dec_exec(s: &[u8]) -> (r: Option<u64>)
    ensures
        r == parse_dec(s@),
{
    if s.len() == 0 {
        return None;
    }
    if s.len() > 1 && *vstd::slice::slice_index_get(s, 0) == 48 {
        return None;
    }
    if s.len() > 20 {
        // too many digits for a 64-bit value, or not a digit string at all
        let mut i: usize = 0;
        while i < s.len()
            invariant
                0 <= i <= s@.len(),
                forall|j: int| 0 <= j < i ==> is_digit(#[trigger] s@[j]),
            decreases s@.len() - i,
        {
            let b = *vstd::slice::slice_index_get(s, i);
            if b < 48 || b > 57 {
                return None;
            }
            i = i + 1;
        }
        proof {
            lemma_dec_value_lower(s@);
            lemma_pow10_20();
            lemma_pow10_mono(20, (s@.len() - 1) as nat);
        }
        return None;
    }
    let mut i: usize = 0;
    let mut acc: u128 = 0;
    while i < s.len()
        invariant
            0 <= i <= s@.len(),
            s@.len() <= 20,
            forall|j: int| 0 <= j < i ==> is_digit(#[trigger] s@[j]),
            acc == dec_value(s@.take(i as int)),
            acc < pow10(i as nat),
        decreases s@.len() - i,
    {
        let b = *vstd::slice::slice_index_get(s, i);
        if b < 48 || b > 57 {
            return None;
        }
        proof {
            assert(acc < pow10(20)) by {
                lemma_pow10_mono(i as nat, 20);
            }
            lemma_pow10_20();
            assert(s@.take(i + 1).drop_last() =~= s@.take(i as int));
            assert(s@.take(i + 1).last() == s@[i as int]);
        }
        acc = acc * 10 + ((b - 48) as u128);
        i = i + 1;
    }
    proof {
        assert(s@.take(s@.len() as int) =~= s@);
    }
    if acc <= u64::MAX as u128 {
        Some(acc as u64)
    } else {
        None
    }
}

/// `pow10` is monotone.
proof fn lemma_pow10_mono(a: nat, b: nat)
    requires
        a <= b,
    ensures
        pow10(a) <= pow10(b),
        pow10(a) >= 1,
    decreases b,
{
    if b > 0 {
        if a <= b - 1 {
            lemma_pow10_mono(a, (b - 1) as nat);
        } else {
            lemma_pow10_mono((a - 1) as nat, (b - 1) as nat);
        }
    }
}

/// Parses a packed sub-list.
pub fn parse_list_exec(s: &[u8]) -> (r: Option<Vec<u64>>)
    ensures
        match r {
            Some(v) => parse_list(s@) == Some(v@),
            None => parse_list(s@) == None::<Seq<u64>>,
        },
    decreases s@.len(),
{
    match find_exec(s, LIST_SEP) {
        None => match parse_dec_exec(s) {
            Some(n) => {
                let mut v: Vec<u64> = Vec::new();
                v.push(n);
                proof {
                    assert(v@ =~= seq![n]);
                }
                Some(v)
            },
            None => None,
        },
        Some(i) => {
            proof {
                lemma_find_byte_some(s@, LIST_SEP);
            }
            let n = s.len();
            let head = slice_subrange(s, 0, i);
            let tail = slice_subrange(s, i + 1, n);
            proof {
                assert(head@ =~= s@.take(i as int));
                assert(tail@ =~= s@.skip(i + 1));
            }
            match parse_dec_exec(head) {
                None => None,
                Some(n) => match parse_list_exec(tail) {
                    None => None,
                    Some(rest) => {
                        let mut v: Vec<u64> = Vec::new();
                        v.push(n);
                        let mut r2 = rest;
                        v.append(&mut r2);
                        proof {
                            assert(v@ =~= seq![n] + parse_list(s@.skip(i + 1))->Some_0);
                        }
                        Some(v)
                    },
                },
            }
        },
    }
}

/// Parses one property value.
pub fn parse_val_exec(s: &[u8]) -> (r: Option<PropVal>)
    ensures
        match r {
            Some(v) => parse_val(s@) == Some(v@),
            None => parse_val(s@) == None::<SpecVal>,
        },
{
    if s.len() == 0 {
        return None;
    }
    match find_exec(s, LIST_SEP) {
        Some(_) => match parse_list_exec(s) {
            Some(l) => {
                if l.len() >= 2 {
                    Some(PropVal::List(l))
                } else {
                    None
                }
            },
            None => None,
        },
        None => {
            let b0 = *vstd::slice::slice_index_get(s, 0);
            if 48 <= b0 && b0 <= 57 {
                match parse_dec_exec(s) {
                    Some(n) => Some(PropVal::Int(n)),
                    None => None,
                }
            } else if (97 <= b0 && b0 <= 122) || (65 <= b0 && b0 <= 90) || b0 == 95 {
                let mut i: usize = 0;
                let mut v: Vec<u8> = Vec::new();
                while i < s.len()
                    invariant
                        0 <= i <= s@.len(),
                        s@.len() > 0,
                        find_byte(s@, LIST_SEP) == None::<int>,
                        !is_digit(s@[0]),
                        is_text_start(s@[0]),
                        forall|j: int| 0 <= j < i ==> is_text_byte(#[trigger] s@[j]),
                        v@ == s@.take(i as int),
                    decreases s@.len() - i,
                {
                    let b = *vstd::slice::slice_index_get(s, i);
                    let ok = (97 <= b && b <= 122) || (65 <= b && b <= 90) || b == 95
                        || (48 <= b && b <= 57);
                    if !ok {
                        proof {
                            assert(!is_text_byte(s@[i as int]));
                        }
                        return None;
                    }
                    v.push(b);
                    proof {
                        assert(v@ =~= s@.take(i + 1));
                    }
                    i = i + 1;
                }
                proof {
                    assert(v@ =~= s@);
                }
                Some(PropVal::Text(v))
            } else {
                None
            }
        },
    }
}

/// Whatever parses as a value is well formed.
pub proof fn lemma_parse_val_wf(s: Seq<u8>)
    ensures
        parse_val(s) is Some ==> wf_val(parse_val(s)->Some_0),
{
    if parse_val(s) is Some {
        let v = parse_val(s)->Some_0;
        match v {
            SpecVal::Int(_) => {},
            SpecVal::List(_) => {},
            SpecVal::Text(t) => {
                assert(t == s);
            },
        }
    }
}

/// Whatever parses as a property sequence is non-empty with positive keys
/// and well-formed values.
pub proof fn lemma_parse_props_wf(s: Seq<u8>)
    ensures
        parse_props(s) is Some ==> {
            let ps = parse_props(s)->Some_0;
            &&& ps.len() >= 1
            &&& forall|i: int| 0 <= i < ps.len() ==> (#[trigger] ps[i]).0 >= 1
            &&& forall|i: int| 0 <= i < ps.len() ==> wf_val((#[trigger] ps[i]).1)
        },
    decreases s.len(),
{
    if parse_props(s) is Some {
        let i = find_byte(s, PROP_SEP)->Some_0;
        lemma_find_byte_some(s, PROP_SEP);
        let rest = s.skip(i + 1);
        match find_byte(rest, PROP_SEP) {
            None => {
                lemma_parse_val_wf(rest);
            },
            Some(j) => {
                lemma_find_byte_some(rest, PROP_SEP);
                lemma_parse_val_wf(rest.take(j));
                lemma_parse_props_wf(rest.skip(j + 1));
                let ps = parse_props(s)->Some_0;
                let tail = parse_props(rest.skip(j + 1))->Some_0;
                assert(ps == seq![(parse_dec(s.take(i))->Some_0, parse_val(rest.take(j))->Some_0)]
                    + tail);
                assert forall|k: int| 0 <= k < ps.len() implies (#[trigger] ps[k]).0 >= 1
                    && wf_val(ps[k].1) by {
                    if k > 0 {
                        assert(ps[k] == tail[k - 1]);
                    }
                }
            },
        }
    }
}

/// Whatever parses as a listing is well formed.
pub proof fn lemma_parse_listing_wf(s: Seq<u8>)
    ensures
        parse_listing(s) is Some ==> wf_listing(parse_listing(s)->Some_0),
    decreases s.len(),
{
    if s.len() != 0 && parse_listing(s) is Some {
        match find_byte(s, OBJ_SEP) {
            None => {
                lemma_parse_props_wf(s);
            },
            Some(i) => {
                lemma_find_byte_some(s, OBJ_SEP);
                lemma_parse_props_wf(s.take(i));
                lemma_parse_listing_wf(s.skip(i + 1));
                let l = parse_listing(s)->Some_0;
                let o = parse_obj(s.take(i))->Some_0;
                let tail = parse_listing(s.skip(i + 1))->Some_0;
                assert(l == seq![o] + tail);
                assert forall|k: int| 0 <= k < l.len() implies wf_obj(#[trigger] l[k]) by {
                    if k > 0 {
                        assert(l[k] == tail[k - 1]);
                    }
                }
            },
        }
    }
}

/// Parses an object's properties.
pub fn parse_props_exec(s: &[u8]) -> (r: Option<Vec<(u64, PropVal)>>)
    ensures
        match r {
            Some(ps) => parse_props(s@) == Some(crate::obj::view_props(ps@)),
            None => parse_props(s@) == None::<Seq<(u64, SpecVal)>>,
        },
    decreases s@.len(),
{
    match find_exec(s, PROP_SEP) {
        None => None,
        Some(i) => {
            let n = s.len();
            let head = slice_subrange(s, 0, i);
            proof {
                assert(head@ =~= s@.take(i as int));
            }
            match parse_dec_exec(head) {
                None => None,
                Some(k) => {
                    if k < 1 {
                        return None;
                    }
                    let rest = slice_subrange(s, i + 1, n);
                    proof {
                        assert(rest@ =~= s@.skip(i + 1));
                    }
                    match find_exec(rest, PROP_SEP) {
                        None => match parse_val_exec(rest) {
                            Some(v) => {
                                let mut ps: Vec<(u64, PropVal)> = Vec::new();
                                ps.push((k, v));
                                proof {
                                    assert(crate::obj::view_props(ps@) =~= seq![
                                        (k, ps@[0].1@),
                                    ]);
                                }
                                Some(ps)
                            },
                            None => None,
                        },
                        Some(j) => {
                            let m = rest.len();
                            let vh = slice_subrange(rest, 0, j);
                            let tl = slice_subrange(rest, j + 1, m);
                            proof {
                                assert(vh@ =~= rest@.take(j as int));
                                assert(tl@ =~= rest@.skip(j + 1));
                            }
                            match parse_val_exec(vh) {
                                None => None,
                                Some(v) => match parse_props_exec(tl) {
                                    None => None,
                                    Some(tail) => {
                                        let ghost tailv = crate::obj::view_props(tail@);
                                        let mut ps: Vec<(u64, PropVal)> = Vec::new();
                                        ps.push((k, v));
                                        let mut t2 = tail;
                                        ps.append(&mut t2);
                                        proof {
                                            assert(crate::obj::view_props(ps@) =~= seq![
                                                (k, ps@[0].1@),
                                            ] + tailv);
                                        }
                                        Some(ps)
                                    },
                                },
                            }
                        },
                    }
                },
            }
        },
    }
}

/// Whether the keys of a property vector are pairwise distinct.
pub fn unique_keys_exec(ps: &Vec<(u64, PropVal)>) -> (r: bool)
    ensures
        r == unique_keys(crate::obj::view_props(ps@)),
{
    let ghost vps = crate::obj::view_props(ps@);
    let mut i: usize = 0;
    while i < ps.len()
        invariant
            0 <= i <= ps.len(),
            vps == crate::obj::view_props(ps@),
            vps.len() == ps@.len(),
            forall|a: int, b: int| 0 <= a < b < ps@.len() && a < i ==> (#[trigger] vps[a]).0 != (#[trigger] vps[b]).0,
        decreases ps.len() - i,
    {
        let mut j: usize = i + 1;
        while j < ps.len()
            invariant
                0 <= i < j <= ps.len(),
                vps == crate::obj::view_props(ps@),
                vps.len() == ps@.len(),
                forall|b: int| i < b < j ==> (#[trigger] vps[b]).0 != vps[i as int].0,
            decreases ps.len() - j,
        {
            if ps[j].0 == ps[i].0 {
                proof {
                    assert(vps[j as int].0 == vps[i as int].0);
                }
                return false;
            }
            j = j + 1;
        }
        i = i + 1;
    }
    true
}

/// Parses one object.
pub fn parse_obj_exec(s: &[u8]) -> (r: Option<TargetObject>)
    ensures
        match r {
            Some(o) => parse_obj(s@) == Some(o@),
            None => parse_obj(s@) == None::<SpecObj>,
        },
{
    match parse_props_exec(s) {
        None => None,
        Some(ps) => {
            if unique_keys_exec(&ps) {
                Some(TargetObject { props: ps })
            } else {
                None
            }
        },
    }
}

/// Parses a whole listing.
pub fn parse_listing_exec(s: &[u8]) -> (r: Option<Vec<TargetObject>>)
    ensures
        match r {
            Some(l) => parse_listing(s@) == Some(view_listing(l@)),
            None => parse_listing(s@) == None::<Seq<SpecObj>>,
        },
    decreases s@.len(),
{
    if s.len() == 0 {
        let l: Vec<TargetObject> = Vec::new();
        proof {
            assert(view_listing(l@) =~= Seq::<SpecObj>::empty());
        }
        return Some(l);
    }
    match find_exec(s, OBJ_SEP) {
        None => match parse_obj_exec(s) {
            Some(o) => {
                let mut l: Vec<TargetObject> = Vec::new();
                l.push(o);
                proof {
                    assert(view_listing(l@) =~= seq![l@[0]@]);
                }
                Some(l)
            },
            None => None,
        },
        Some(i) => {
            let n = s.len();
            let head = slice_subrange(s, 0, i);
            let tail = slice_subrange(s, i + 1, n);
            proof {
                assert(head@ =~= s@.take(i as int));
                assert(tail@ =~= s@.skip(i + 1));
            }
            match parse_obj_exec(head) {
                None => None,
                Some(o) => match parse_listing_exec(tail) {
                    None => None,
                    Some(rest) => {
                        let ghost restv = view_listing(rest@);
                        let mut l: Vec<TargetObject> = Vec::new();
                        l.push(o);
                        let mut r2 = rest;
                        l.append(&mut r2);
                        proof {
                            assert(view_listing(l@) =~= seq![l@[0]@] + restv);
                        }
                        Some(l)
                    },
                },
            }
        },
    }
}

} // verus!

