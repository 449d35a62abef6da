//! The trigger-graph intermediate representation: an ordered collection of
//! function units, each an ordered sequence of objects, linked by identifier
//! references.  Flattening concatenates the units in order, resolves
//! cross-unit references to the referenced unit's entry group, and lowers
//! every object to a concrete target object.

use vstd::prelude::*;
use crate::BackendError;
use crate::cond::Cond;
use crate::obj::{
    PropVal, TargetObject, SpecObj, view_listing, view_props, wf_obj, wf_listing, KEY_KIND,
    KEY_TARGET, KEY_DELAY, KEY_COND, KIND_TRIGGER,
};
use crate::text::{dec_bytes, dec_exec, lemma_dec_bytes_canonical};

verus! {

/// What a trigger activates: a concrete identifier, or the entry group of
/// another function unit, resolved at link time.
#[derive(Clone, Copy, PartialEq, Eq, Structural, Debug)]
pub enum TargetRef {
    Id(u64),
    Unit(usize),
}

/// One object of the intermediate representation.
pub enum IrObj {
    /// A plain placed object, carried through unchanged.
    Plain { props: Vec<(u64, PropVal)> },
    /// A trigger: when `cond` holds it activates `target` after `delay`
    /// frames.
    Trigger { cond: Cond, target: TargetRef, delay: u64 },
}

/// One compiled, linkable unit: the group that activates it, and its
/// objects in order.
pub struct FunctionUnit {
    pub entry_group: u64,
    pub objects: Vec<IrObj>,
}

/// Prefix encoding of a condition as a text property value.
pub open spec fn cond_text(c: Cond) -> Seq<u8>
    decreases c,
{
    match c {
        Cond::Lit(b) => if b {
            seq![116u8]
        } else {
            seq![102u8]
        },
        Cond::Var(g) => seq![118u8] + dec_bytes(g as nat),
        Cond::Not(a) => seq![110u8] + cond_text(*a),
        Cond::And(a, b) => seq![97u8] + cond_text(*a) + cond_text(*b),
        Cond::Or(a, b) => seq![111u8] + cond_text(*a) + cond_text(*b),
    }
}

/// The encoding of a condition is non-empty, starts with a letter, and
/// holds only letters and digits.
pub proof fn lemma_cond_text_wf(c: Cond)
    ensures
        cond_text(c).len() >= 1,
        crate::obj::is_text_start(cond_text(c)[0]),
        forall|i: int| 0 <= i < cond_text(c).len() ==> crate::obj::is_text_byte(#[trigger] cond_text(c)[i]),
    decreases c,
{
    match c {
        Cond::Lit(_) => {},
        Cond::Var(g) => {
            lemma_dec_bytes_canonical(g as nat);
            let s = cond_text(c);
            let d = dec_bytes(g as nat);
            assert forall|i: int| 0 <= i < s.len() implies crate::obj::is_text_byte(
                #[trigger] s[i],
            ) by {
                if i > 0 {
                    assert(s[i] == d[i - 1]);
                    assert(crate::obj::is_digit(d[i - 1]));
                }
            }
        },
        Cond::Not(a) => {
            lemma_cond_text_wf(*a);
            let s = cond_text(c);
            let ta = cond_text(*a);
            assert forall|i: int| 0 <= i < s.len() implies crate::obj::is_text_byte(
                #[trigger] s[i],
            ) by {
                if i > 0 {
                    assert(s[i] == ta[i - 1]);
                }
            }
        },
        Cond::And(a, b) => {
            lemma_cond_text_wf(*a);
            lemma_cond_text_wf(*b);
            let s = cond_text(c);
            let ta = cond_text(*a);
            let tb = cond_text(*b);
            assert forall|i: int| 0 <= i < s.len() implies crate::obj::is_text_byte(
                #[trigger] s[i],
            ) by {
                if 0 < i <= ta.len() {
                    assert(s[i] == ta[i - 1]);
                } else if i > ta.len() {
                    assert(s[i] == tb[i - 1 - ta.len()]);
                }
            }
        },
        Cond::Or(a, b) => {
            lemma_cond_text_wf(*a);
            lemma_cond_text_wf(*b);
            let s = cond_text(c);
            let ta = cond_text(*a);
            let tb = cond_text(*b);
            assert forall|i: int| 0 <= i < s.len() implies crate::obj::is_text_byte(
                #[trigger] s[i],
            ) by {
                if 0 < i <= ta.len() {
                    assert(s[i] == ta[i - 1]);
                } else if i > ta.len() {
                    assert(s[i] == tb[i - 1 - ta.len()]);
                }
            }
        },
    }
}

/// Executable condition encoding.
pub fn cond_text_exec(c: &Cond) -> (r: Vec<u8>)
    ensures
        r@ == cond_text(*c),
    decreases *c,
{
    match c {
        Cond::Lit(b) => {
            let mut v: Vec<u8> = Vec::new();
            if *b {
                v.push(116);
            } else {
                v.push(102);
            }
            proof {
                assert(v@ =~= cond_text(*c));
            }
            v
        },
        Cond::Var(g) => {
            let mut v: Vec<u8> = Vec::new();
            v.push(118);
            let mut d = dec_exec(*g);
            v.append(&mut d);
            proof {
                assert(v@ =~= cond_text(*c));
            }
            v
        },
        Cond::Not(a) => {
            let mut v: Vec<u8> = Vec::new();
            v.push(110);
            let mut ta = cond_text_exec(a);
            v.append(&mut ta);
            proof {
                assert(v@ =~= cond_text(*c));
            }
            v
        },
        Cond::And(a, b) => {
            let mut v: Vec<u8> = Vec::new();
            v.push(97);
            let mut ta = cond_text_exec(a);
            v.append(&mut ta);
            let mut tb = cond_text_exec(b);
            v.append(&mut tb);
            proof {
                assert(v@ =~= cond_text(*c));
            }
            v
        },
        Cond::Or(a, b) => {
            let mut v: Vec<u8> = Vec::new();
            v.push(111);
            let mut ta = cond_text_exec(a);
            v.append(&mut ta);
            let mut tb = cond_text_exec(b);
            v.append(&mut tb);
            proof {
                assert(v@ =~= cond_text(*c));
            }
            v
        },
    }
}

/// Whether every cross-unit reference points at an existing unit.
pub open spec fn unit_refs_ok(units: Seq<FunctionUnit>) -> bool {
    forall|u: int, i: int|
        0 <= u < units.len() && 0 <= i < units[u].objects@.len()
            ==> match #[trigger] units[u].objects@[i] {
            IrObj::Trigger { target: TargetRef::Unit(k), .. } => (k as int) < units.len(),
            _ => true,
        }
}

/// The concrete identifier a reference resolves to.
pub open spec fn resolve(units: Seq<FunctionUnit>, t: TargetRef) -> u64 {
    match t {
        TargetRef::Id(g) => g,
        TargetRef::Unit(k) => units[k as int].entry_group,
    }
}

/// The target object one IR object lowers to.
pub open spec fn lower_obj(units: Seq<FunctionUnit>, o: IrObj) -> SpecObj {
    match o {
        IrObj::Plain { props } => SpecObj { props: view_props(props@) },
        IrObj::Trigger { cond, target, delay } => SpecObj {
            props: seq![
                (KEY_KIND, crate::obj::SpecVal::Int(KIND_TRIGGER)),
                (KEY_COND, crate::obj::SpecVal::Text(cond_text(cond))),
                (KEY_TARGET, crate::obj::SpecVal::Int(resolve(units, target))),
                (KEY_DELAY, crate::obj::SpecVal::Int(delay)),
            ],
        },
    }
}

/// The flattened objects of the units from index `k` on.
pub open spec fn flatten_from(units: Seq<FunctionUnit>, k: int) -> Seq<SpecObj>
    decreases units.len() - k when 0 <= k <= units.len()
{
    if k >= units.len() {
        Seq::empty()
    } else {
        units[k].objects@.map_values(|o: IrObj| lower_obj(units, o)) + flatten_from(units, k + 1)
    }
}

/// A well-formed plain object: lowering keeps every object well formed.
pub open spec fn wf_units(units: Seq<FunctionUnit>) -> bool {
    forall|u: int, i: int|
        0 <= u < units.len() && 0 <= i < units[u].objects@.len()
            ==> match #[trigger] units[u].objects@[i] {
            IrObj::Plain { props } => wf_obj(SpecObj { props: view_props(props@) }),
            _ => true,
        }
}

/// Lowers one IR object.  Fails when a cross-unit reference is out of
/// range.
fn lower_exec(units: &Vec<FunctionUnit>, o: &IrObj) -> (r: Result<TargetObject, BackendError>)
    ensures
        match r {
            Ok(t) => t@ == lower_obj(units@, *o) && (match *o {
                IrObj::Trigger { target: TargetRef::Unit(k), .. } => (k as int) < units@.len(),
                _ => true,
            }),
            Err(e) => e == BackendError::UnresolvedReference && (match *o {
                IrObj::Trigger { target: TargetRef::Unit(k), .. } => (k as int) >= units@.len(),
                _ => false,
            }),
        },
{
    match o {
        IrObj::Plain { props } => {
            let t = TargetObject { props: copy_props(props) };
            proof {
                assert(t@ == lower_obj(units@, *o));
            }
            Ok(t)
        },
        IrObj::Trigger { cond, target, delay } => {
            let tid: u64 = match target {
                TargetRef::Id(g) => *g,
                TargetRef::Unit(k) => {
                    if *k >= units.len() {
                        return Err(BackendError::UnresolvedReference);
                    }
                    units[*k].entry_group
                },
            };
            let mut props: Vec<(u64, PropVal)> = Vec::new();
            props.push((KEY_KIND, PropVal::Int(KIND_TRIGGER)));
            props.push((KEY_COND, PropVal::Text(cond_text_exec(cond))));
            props.push((KEY_TARGET, PropVal::Int(tid)));
            props.push((KEY_DELAY, PropVal::Int(*delay)));
            let t = TargetObject { props };
            proof {
                assert(t@.props =~= lower_obj(units@, *o).props);
            }
            Ok(t)
        },
    }
}

/// Structural copy of a property vector.
fn copy_props(props: &Vec<(u64, PropVal)>) -> (r: Vec<(u64, PropVal)>)
    ensures
        view_props(r@) == view_props(props@),
{
    let mut out: Vec<(u64, PropVal)> = Vec::new();
    let mut i: usize = 0;
    while i < props.len()
        invariant
            0 <= i <= props.len(),
            view_props(out@) == view_props(props@.take(i as int)),
        decreases props.len() - i,
    {
        let ghost pre = out@;
        out.push((props[i].0, crate::obj::clone_val(&props[i].1)));
        proof {
            assert(view_props(pre).len() == pre.len());
            assert(view_props(props@.take(i as int)).len() == i);
            assert forall|j: int| 0 <= j < i + 1 implies #[trigger] view_props(out@)[j]
                == view_props(props@.take(i + 1))[j] by {
                assert(view_props(out@)[j] == (out@[j].0, out@[j].1@));
                assert(view_props(props@.take(i + 1))[j] == (
                    props@.take(i + 1)[j].0,
                    props@.take(i + 1)[j].1@,
                ));
                if j < i {
                    assert(out@[j] == pre[j]);
                    assert(view_props(pre)[j] == (pre[j].0, pre[j].1@));
                    assert(view_props(props@.take(i as int))[j] == (
                        props@.take(i as int)[j].0,
                        props@.take(i as int)[j].1@,
                    ));
                    assert(props@.take(i + 1)[j] == props@.take(i as int)[j]);
                }
            }
            assert(view_props(out@) =~= view_props(props@.take(i + 1)));
        }
        i = i + 1;
    }
    proof {
        assert(props@.take(props@.len() as int) =~= props@);
    }
    out
}

/// Flattens the function units into one absolute object list, resolving
/// cross-unit references.  Fails with `UnresolvedReference` exactly when a
/// reference points at no unit; on success the list is the units' objects in
/// unit order, lowered, and is well formed when the units are.
pub fn flatten(units: &Vec<FunctionUnit>) -> (r: Result<Vec<TargetObject>, BackendError>)
    ensures
        match r {
            Ok(l) => view_listing(l@) == flatten_from(units@, 0) && unit_refs_ok(units@)
                && (wf_units(units@) ==> wf_listing(view_listing(l@))),
            Err(e) => e == BackendError::UnresolvedReference && !unit_refs_ok(units@),
        },
{
    let mut out: Vec<TargetObject> = Vec::new();
    let mut u: usize = units.len();
    // walk the units from the back so each step prepends one lowered unit
    while u > 0
        invariant
            0 <= u <= units.len(),
            view_listing(out@) == flatten_from(units@, u as int),
            forall|w: int, i: int|
                u <= w < units@.len() && 0 <= i < units@[w].objects@.len()
                    ==> match #[trigger] units@[w].objects@[i] {
                    IrObj::Trigger { target: TargetRef::Unit(k), .. } => (k as int) < units@.len(),
                    _ => true,
                },
        decreases u,
    {
        u = u - 1;
        let unit = &units[u];
        let mut lowered: Vec<TargetObject> = Vec::new();
        let mut i: usize = 0;
        while i < unit.objects.len()
            invariant
                0 <= i <= unit.objects@.len(),
                unit == &units@[u as int],
                u < units@.len(),
                view_listing(lowered@) =~= units@[u as int].objects@.take(i as int).map_values(
                    |o: IrObj| lower_obj(units@, o),
                ),
                forall|j: int| 0 <= j < i ==> match #[trigger] units@[u as int].objects@[j] {
                    IrObj::Trigger { target: TargetRef::Unit(k), .. } => (k as int) < units@.len(),
                    _ => true,
                },
            decreases unit.objects@.len() - i,
        {
            let ghost pre = lowered@;
            match lower_exec(units, &unit.objects[i]) {
                Ok(t) => {
                    lowered.push(t);
                },
                Err(e) => {
                    proof {
                        assert(!unit_refs_ok(units@));
                    }
                    return Err(e);
                },
            }
            proof {
                assert(view_listing(pre).len() == pre.len());
                assert(units@[u as int].objects@.take(i as int).map_values(
                    |o: IrObj| lower_obj(units@, o),
                ).len() == i);
                assert(pre.len() == i);
                assert(lowered@.len() == i + 1);
                assert(forall|j: int| 0 <= j < i ==> lowered@[j] == pre[j]);
                let want = units@[u as int].objects@.take(i + 1).map_values(
                    |o: IrObj| lower_obj(units@, o),
                );
                assert forall|j: int| 0 <= j < i + 1 implies #[trigger] view_listing(lowered@)[j]
                    == want[j] by {
                    assert(view_listing(lowered@)[j] == lowered@[j]@);
                    assert(want[j] == lower_obj(units@, units@[u as int].objects@.take(i + 1)[j]));
                    if j < i {
                        assert(lowered@[j] == pre[j]);
                        assert(view_listing(pre)[j] == pre[j]@);
                        assert(units@[u as int].objects@.take(i + 1)[j] == units@[
                            u as int
                        ].objects@.take(i as int)[j]);
                        assert(view_listing(pre)[j] == units@[u as int].objects@.take(
                            i as int,
                        ).map_values(|o: IrObj| lower_obj(units@, o))[j]);
                    }
                }
                assert(view_listing(lowered@) =~= want);
            }
            i = i + 1;
        }
        let ghost outpre = out@;
        let mut tail = out;
        out = lowered;
        out.append(&mut tail);
        proof {
            assert(units@[u as int].objects@.take(units@[u as int].objects@.len() as int) =~= units@[
                u as int
            ].objects@);
            assert(view_listing(out@) =~= units@[u as int].objects@.map_values(
                |o: IrObj| lower_obj(units@, o),
            ) + view_listing(outpre));
            assert(flatten_from(units@, u as int) == units@[u as int].objects@.map_values(
                |o: IrObj| lower_obj(units@, o),
            ) + flatten_from(units@, u + 1));
        }
    }
    proof {
        assert(unit_refs_ok(units@));
        if wf_units(units@) {
            lemma_flatten_wf(units@, 0);
        }
    }
    Ok(out)
}

/// Flattening well-formed units gives a well-formed listing.
proof fn lemma_flatten_wf(units: Seq<FunctionUnit>, k: int)
    requires
        wf_units(units),
        0 <= k <= units.len(),
    ensures
        wf_listing(flatten_from(units, k)),
    decreases units.len() - k,
{
    if k < units.len() {
        lemma_flatten_wf(units, k + 1);
        let head = units[k].objects@.map_values(|o: IrObj| lower_obj(units, o));
        let tail = flatten_from(units, k + 1);
        assert forall|i: int| 0 <= i < flatten_from(units, k).len() implies wf_obj(
            #[trigger] flatten_from(units, k)[i],
        ) by {
            if i < head.len() {
                assert(flatten_from(units, k)[i] == head[i]);
                assert(head[i] == lower_obj(units, units[k].objects@[i]));
                lemma_lower_wf(units, units[k].objects@[i]);
            } else {
                assert(flatten_from(units, k)[i] == tail[i - head.len()]);
            }
        }
    }
}

/// Lowering keeps a well-formed object well formed; a lowered trigger is
/// always well formed.
proof fn lemma_lower_wf(units: Seq<FunctionUnit>, o: IrObj)
    requires
        match o {
            IrObj::Plain { props } => wf_obj(SpecObj { props: view_props(props@) }),
            _ => true,
        },
    ensures
        wf_obj(lower_obj(units, o)),
{
    match o {
        IrObj::Plain { .. } => {},
        IrObj::Trigger { cond, .. } => {
            lemma_cond_text_wf(cond);
            let ps = lower_obj(units, o).props;
            assert(ps.len() == 4);
            assert(crate::obj::wf_val(ps[0].1));
            assert(crate::obj::wf_val(ps[1].1));
            assert(crate::obj::wf_val(ps[2].1));
            assert(crate::obj::wf_val(ps[3].1));
        },
    }
}

} // verus!
