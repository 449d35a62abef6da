//! The graph optimizer: dead-object elimination, constant folding with
//! boolean condition minimization, chain coalescing and structural
//! deduplication, applied per function unit to a fixed point under a bounded
//! iteration count.  The optimizer never increases the object count and
//! keeps every unit's entry group.  Each pass carries an exact contract:
//! elimination keeps precisely the live objects, folding maps each object
//! in order (rewriting conditions to equivalent reduced forms, dropping
//! only unsatisfiable triggers), coalescing either fuses exactly one
//! fusable pair in place or proves none exists, and deduplication keeps
//! precisely the first occurrences.  Elimination, folding and deduplication
//! are proved to preserve the single-frame firing relation (on read
//! identifiers, for elimination); coalescing reshapes timing across frames,
//! and its behavior is held against the reference interpreter's activation
//! sequences.

use vstd::prelude::*;
use crate::cond::{Cond, simplify, eval_cond, equiv, clone_cond, eq_cond};
use crate::ids::ClosedGroups;
use crate::ir::{IrObj, TargetRef, FunctionUnit};
use crate::obj::{SpecVal, view_props, KEY_GROUP};

verus! {

/// How many full pass sweeps the fixed-point loop may make per unit.
pub const MAX_OPT_ROUNDS: u64 = 64;

/// The identifiers an activation condition reads.
pub open spec fn cond_vars(c: Cond) -> Set<u64>
    decreases c,
{
    match c {
        Cond::Lit(_) => Set::empty(),
        Cond::Var(g) => Set::empty().insert(g),
        Cond::Not(a) => cond_vars(*a),
        Cond::And(a, b) => cond_vars(*a).union(cond_vars(*b)),
        Cond::Or(a, b) => cond_vars(*a).union(cond_vars(*b)),
    }
}

/// Whether a condition reads an identifier.
pub fn cond_has_var(c: &Cond, g: u64) -> (r: bool)
    ensures
        r == cond_vars(*c).contains(g),
    decreases *c,
{
    match c {
        Cond::Lit(_) => false,
        Cond::Var(v) => *v == g,
        Cond::Not(a) => cond_has_var(a, g),
        Cond::And(a, b) => cond_has_var(a, g) || cond_has_var(b, g),
        Cond::Or(a, b) => cond_has_var(a, g) || cond_has_var(b, g),
    }
}

/// Whether a plain object's properties place it in group `g`.
pub open spec fn props_use_group(ps: Seq<(u64, SpecVal)>, g: u64) -> bool {
    exists|j: int|
        0 <= j < ps.len() && (#[trigger] ps[j]).0 == KEY_GROUP && match ps[j].1 {
            SpecVal::Int(n) => n == g,
            SpecVal::List(l) => l.contains(g),
            SpecVal::Text(_) => false,
        }
}

/// Whether one object reads identifier `g`: a trigger through its
/// condition, a plain object through its group membership.
pub open spec fn obj_reads(o: IrObj, g: u64) -> bool {
    match o {
        IrObj::Trigger { cond, .. } => cond_vars(cond).contains(g),
        IrObj::Plain { props } => props_use_group(view_props(props@), g),
    }
}

/// Whether the graph or the reserved identifiers read `g`.
pub open spec fn reads_id(objs: Seq<IrObj>, closed: Seq<u64>, g: u64) -> bool {
    closed.contains(g) || exists|i: int| 0 <= i < objs.len() && obj_reads(#[trigger] objs[i], g)
}

/// An object that must survive dead-object elimination: every plain object,
/// every trigger with an unresolved cross-unit target, and every trigger
/// whose target identifier is read somewhere or reserved.
pub open spec fn is_live(objs: Seq<IrObj>, closed: Seq<u64>, o: IrObj) -> bool {
    match o {
        IrObj::Plain { .. } => true,
        IrObj::Trigger { target, .. } => match target {
            TargetRef::Unit(_) => true,
            TargetRef::Id(g) => reads_id(objs, closed, g),
        },
    }
}

/// Whether `v` holds `g`.
fn contains_u64(v: &Vec<u64>, g: u64) -> (r: bool)
    ensures
        r == v@.contains(g),
{
    let mut i: usize = 0;
    while i < v.len()
        invariant
            0 <= i <= v.len(),
            forall|j: int| 0 <= j < i ==> v@[j] != g,
        decreases v.len() - i,
    {
        if v[i] == g {
            return true;
        }
        i = i + 1;
    }
    false
}

/// Whether a plain object's property vector places it in group `g`.
fn props_use_group_exec(props: &Vec<(u64, crate::obj::PropVal)>, g: u64) -> (r: bool)
    ensures
        r == props_use_group(view_props(props@), g),
{
    let ghost vps = view_props(props@);
    let mut i: usize = 0;
    while i < props.len()
        invariant
            0 <= i <= props.len(),
            vps == view_props(props@),
            vps.len() == props@.len(),
            forall|j: int|
                0 <= j < i ==> !((#[trigger] vps[j]).0 == KEY_GROUP && match vps[j].1 {
                    SpecVal::Int(n) => n == g,
                    SpecVal::List(l) => l.contains(g),
                    SpecVal::Text(_) => false,
                }),
        decreases props.len() - i,
    {
        proof {
            assert(vps[i as int] == (props@[i as int].0, props@[i as int].1@));
        }
        if props[i].0 == KEY_GROUP {
            match &props[i].1 {
                crate::obj::PropVal::Int(n) => {
                    if *n == g {
                        return true;
                    }
                },
                crate::obj::PropVal::List(l) => {
                    if contains_u64(l, g) {
                        return true;
                    }
                },
                crate::obj::PropVal::Text(_) => {},
            }
        }
        i = i + 1;
    }
    false
}

/// Whether the graph or the reserved identifiers read `g`.
fn reads_id_exec(objs: &Vec<IrObj>, closed: &Vec<u64>, g: u64) -> (r: bool)
    ensures
        r == reads_id(objs@, closed@, g),
{
    if contains_u64(closed, g) {
        return true;
    }
    let mut i: usize = 0;
    while i < objs.len()
        invariant
            0 <= i <= objs.len(),
            !closed@.contains(g),
            forall|j: int| 0 <= j < i ==> !obj_reads(#[trigger] objs@[j], g),
        decreases objs.len() - i,
    {
        let reads = match &objs[i] {
            IrObj::Trigger { cond, .. } => cond_has_var(cond, g),
            IrObj::Plain { props } => props_use_group_exec(props, g),
        };
        if reads {
            proof {
                assert(obj_reads(objs@[i as int], g));
            }
            return true;
        }
        i = i + 1;
    }
    false
}

/// Dead-object elimination: keeps exactly the live objects, in order.
pub fn dead_elim(objs: Vec<IrObj>, closed: &Vec<u64>) -> (r: Vec<IrObj>)
    ensures
        r@ == objs@.filter(|o: IrObj| is_live(objs@, closed@, o)),
        r@.len() <= objs@.len(),
{
    reveal(Seq::filter);
    let ghost orig = objs@;
    let ghost pred = |o: IrObj| is_live(orig, closed@, o);
    let mut flags: Vec<bool> = Vec::new();
    let mut i: usize = 0;
    while i < objs.len()
        invariant
            0 <= i <= objs.len(),
            flags@.len() == i,
            orig == objs@,
            forall|j: int| 0 <= j < i ==> flags@[j] == is_live(orig, closed@, orig[j]),
        decreases objs.len() - i,
    {
        let live = match &objs[i] {
            IrObj::Plain { .. } => true,
            IrObj::Trigger { target, .. } => match target {
                TargetRef::Unit(_) => true,
                TargetRef::Id(g) => reads_id_exec(&objs, closed, *g),
            },
        };
        flags.push(live);
        i = i + 1;
    }
    let mut out: Vec<IrObj> = Vec::new();
    let mut rest = objs;
    let mut k: usize = 0;
    while k < flags.len()
        invariant
            0 <= k <= flags@.len(),
            flags@.len() == orig.len(),
            rest@ =~= orig.skip(k as int),
            forall|j: int| 0 <= j < flags@.len() ==> flags@[j] == pred(orig[j]),
            pred == (|o: IrObj| is_live(orig, closed@, o)),
            out@ == orig.take(k as int).filter(pred),
        decreases flags.len() - k,
    {
        let o = rest.remove(0);
        proof {
            assert(o == orig.skip(k as int)[0]);
            assert(o == orig[k as int]);
            assert(orig.skip(k as int).drop_first() =~= orig.skip(k + 1));
            reveal(Seq::filter);
            assert(orig.take(k + 1).drop_last() =~= orig.take(k as int));
            assert(orig.take(k + 1).last() == orig[k as int]);
        }
        if flags[k] {
            out.push(o);
        }
        k = k + 1;
    }
    proof {
        assert(orig.take(orig.len() as int) =~= orig);
        orig.lemma_filter_len(pred);
    }
    out
}

/// A condition no assignment satisfies.
pub open spec fn cond_unsat(c: Cond) -> bool {
    forall|env: Set<u64>| !eval_cond(c, env)
}

/// What constant folding makes of one kept object: a plain object is kept
/// as it is; a trigger keeps its target and delay and its condition becomes
/// an equivalent, fully reduced one that is not the literal false.
pub open spec fn fold_obj(a: IrObj, b: IrObj) -> bool {
    match (a, b) {
        (IrObj::Plain { props: p1 }, IrObj::Plain { props: p2 }) => p1 == p2,
        (
            IrObj::Trigger { cond: c1, target: t1, delay: d1 },
            IrObj::Trigger { cond: c2, target: t2, delay: d2 },
        ) => t1 == t2 && d1 == d2 && equiv(c1, c2) && crate::cond::reduced(c2) && c2 != Cond::Lit(
            false,
        ),
        _ => false,
    }
}

/// The exact shape of constant folding's output: the input mapped in order,
/// each plain object kept, each trigger either kept under `fold_obj` or
/// dropped — and dropped only when its condition is unsatisfiable.
pub open spec fn fold_rel(src: Seq<IrObj>, out: Seq<IrObj>) -> bool
    decreases src.len(),
{
    if src.len() == 0 {
        out.len() == 0
    } else {
        match src.last() {
            IrObj::Plain { .. } => out.len() > 0 && out.last() == src.last() && fold_rel(
                src.drop_last(),
                out.drop_last(),
            ),
            IrObj::Trigger { cond, .. } => (out.len() > 0 && fold_obj(src.last(), out.last())
                && fold_rel(src.drop_last(), out.drop_last())) || (cond_unsat(cond) && fold_rel(
                src.drop_last(),
                out,
            )),
        }
    }
}

/// Every trigger constant folding keeps has a reduced condition that is not
/// the literal false.
pub proof fn lemma_fold_rel_out(src: Seq<IrObj>, out: Seq<IrObj>)
    requires
        fold_rel(src, out),
    ensures
        forall|k: int|
            0 <= k < out.len() ==> match #[trigger] out[k] {
                IrObj::Trigger { cond, .. } => crate::cond::reduced(cond) && cond != Cond::Lit(
                    false,
                ),
                _ => true,
            },
    decreases src.len(),
{
    if src.len() > 0 {
        match src.last() {
            IrObj::Plain { .. } => {
                lemma_fold_rel_out(src.drop_last(), out.drop_last());
                assert forall|k: int| 0 <= k < out.len() implies match #[trigger] out[k] {
                    IrObj::Trigger { cond, .. } => crate::cond::reduced(cond) && cond != Cond::Lit(
                        false,
                    ),
                    _ => true,
                } by {
                    if k < out.len() - 1 {
                        assert(out[k] == out.drop_last()[k]);
                    } else {
                        assert(out[k] == src.last());
                    }
                }
            },
            IrObj::Trigger { cond, .. } => {
                if out.len() > 0 && fold_obj(src.last(), out.last()) && fold_rel(
                    src.drop_last(),
                    out.drop_last(),
                ) {
                    lemma_fold_rel_out(src.drop_last(), out.drop_last());
                    assert forall|k: int| 0 <= k < out.len() implies match #[trigger] out[k] {
                        IrObj::Trigger { cond: c, .. } => crate::cond::reduced(c) && c != Cond::Lit(
                            false,
                        ),
                        _ => true,
                    } by {
                        if k < out.len() - 1 {
                            assert(out[k] == out.drop_last()[k]);
                        }
                    }
                } else {
                    lemma_fold_rel_out(src.drop_last(), out);
                }
            },
        }
    }
}

/// Constant folding and boolean minimization: the input is mapped in order;
/// every trigger's condition is simplified to an equivalent reduced form, a
/// trigger whose simplified condition is the literal false is removed, and
/// every other object is kept as it is.  A trigger whose condition
/// simplifies to the literal true is the direct pass-through itself: it
/// fires unconditionally, and no smaller object form exists for it in this
/// substrate.
pub fn fold_conditions(objs: Vec<IrObj>) -> (r: Vec<IrObj>)
    ensures
        r@.len() <= objs@.len(),
        fold_rel(objs@, r@),
{
    let ghost orig = objs@;
    let mut out: Vec<IrObj> = Vec::new();
    let mut rest = objs;
    let total: usize = rest.len();
    let mut i: usize = 0;
    while rest.len() > 0
        invariant
            0 <= i <= orig.len(),
            total == orig.len(),
            i + rest@.len() == total,
            rest@ =~= orig.skip(i as int),
            out@.len() <= i,
            fold_rel(orig.take(i as int), out@),
        decreases rest@.len(),
    {
        proof {
            assert(orig.skip(i as int).len() == orig.len() - i);
        }
        let o = rest.remove(0);
        proof {
            assert(o == orig.skip(i as int)[0]);
            assert(o == orig[i as int]);
            assert(orig.skip(i as int).drop_first() =~= orig.skip(i + 1));
            assert(orig.take(i + 1).drop_last() =~= orig.take(i as int));
            assert(orig.take(i + 1).last() == orig[i as int]);
        }
        let ghost pre = out@;
        match o {
            IrObj::Plain { props } => {
                out.push(IrObj::Plain { props });
                proof {
                    assert(out@.drop_last() =~= pre);
                    assert(out@.last() == orig[i as int]);
                }
            },
            IrObj::Trigger { cond, target, delay } => {
                let s = simplify(&cond);
                let dropit = match &s {
                    Cond::Lit(b) => !*b,
                    _ => false,
                };
                if dropit {
                    proof {
                        assert(equiv(s, cond));
                        assert(cond_unsat(cond));
                    }
                } else {
                    out.push(IrObj::Trigger { cond: s, target, delay });
                    proof {
                        assert(out@.drop_last() =~= pre);
                        assert(fold_obj(orig[i as int], out@.last()));
                    }
                }
            },
        }
        i = i + 1;
    }
    proof {
        assert(orig.skip(i as int).len() == orig.len() - i);
        assert(orig.take(orig.len() as int) =~= orig);
        assert(orig == objs@);
    }
    out
}

/// Whether one object, under a set of active identifiers, fires at target
/// `id` with delay `d` this frame.
pub open spec fn obj_fires(o: IrObj, active: Set<u64>, id: u64, d: u64) -> bool {
    match o {
        IrObj::Trigger { cond, target: TargetRef::Id(t), delay } => eval_cond(cond, active) && t
            == id && delay == d,
        _ => false,
    }
}

/// The single-frame firing relation of a graph: under the active
/// identifiers, some trigger fires at `id` with delay `d`.
pub open spec fn fires_at(objs: Seq<IrObj>, active: Set<u64>, id: u64, d: u64) -> bool {
    exists|k: int| 0 <= k < objs.len() && obj_fires(#[trigger] objs[k], active, id, d)
}

/// Splitting the firing relation at the last object.
proof fn lemma_fires_split(objs: Seq<IrObj>, active: Set<u64>, id: u64, d: u64)
    requires
        objs.len() > 0,
    ensures
        fires_at(objs, active, id, d) == (fires_at(objs.drop_last(), active, id, d) || obj_fires(
            objs.last(),
            active,
            id,
            d,
        )),
{
    if fires_at(objs, active, id, d) {
        let k = choose|k: int| 0 <= k < objs.len() && obj_fires(#[trigger] objs[k], active, id, d);
        if k < objs.len() - 1 {
            assert(objs.drop_last()[k] == objs[k]);
        }
    }
    if fires_at(objs.drop_last(), active, id, d) {
        let k = choose|k: int|
            0 <= k < objs.drop_last().len() && obj_fires(
                #[trigger] objs.drop_last()[k],
                active,
                id,
                d,
            );
        assert(objs[k] == objs.drop_last()[k]);
    }
    if obj_fires(objs.last(), active, id, d) {
        assert(obj_fires(objs[objs.len() - 1], active, id, d));
    }
}

/// Law: constant folding preserves the single-frame firing relation.  Under
/// every set of active identifiers, the folded graph fires exactly the
/// targets, with exactly the delays, that the source graph fires.
pub proof fn lemma_fold_preserves_firing(
    src: Seq<IrObj>,
    out: Seq<IrObj>,
    active: Set<u64>,
    id: u64,
    d: u64,
)
    requires
        fold_rel(src, out),
    ensures
        fires_at(out, active, id, d) == fires_at(src, active, id, d),
    decreases src.len(),
{
    if src.len() == 0 {
        assert(!fires_at(src, active, id, d));
        assert(!fires_at(out, active, id, d));
    } else {
        lemma_fires_split(src, active, id, d);
        match src.last() {
            IrObj::Plain { .. } => {
                lemma_fold_preserves_firing(src.drop_last(), out.drop_last(), active, id, d);
                lemma_fires_split(out, active, id, d);
            },
            IrObj::Trigger { cond, .. } => {
                if out.len() > 0 && fold_obj(src.last(), out.last()) && fold_rel(
                    src.drop_last(),
                    out.drop_last(),
                ) {
                    lemma_fold_preserves_firing(src.drop_last(), out.drop_last(), active, id, d);
                    lemma_fires_split(out, active, id, d);
                    assert(obj_fires(out.last(), active, id, d) == obj_fires(
                        src.last(),
                        active,
                        id,
                        d,
                    )) by {
                        match (src.last(), out.last()) {
                            (
                                IrObj::Trigger { cond: c1, .. },
                                IrObj::Trigger { cond: c2, .. },
                            ) => {
                                assert(eval_cond(c2, active) == eval_cond(c1, active));
                            },
                            _ => {},
                        }
                    }
                } else {
                    lemma_fold_preserves_firing(src.drop_last(), out, active, id, d);
                    assert(!eval_cond(cond, active));
                    assert(!obj_fires(src.last(), active, id, d));
                }
            },
        }
    }
}

/// Law: deduplication preserves the single-frame firing relation.  A
/// removed trigger is identical to an earlier kept one, which fires in its
/// stead.
pub proof fn lemma_dedup_preserves_firing(s: Seq<IrObj>, active: Set<u64>, id: u64, d: u64)
    ensures
        fires_at(dedup_spec(s), active, id, d) == fires_at(s, active, id, d),
    decreases s.len(),
{
    if s.len() > 0 {
        lemma_dedup_preserves_firing(s.drop_last(), active, id, d);
        lemma_fires_split(s, active, id, d);
        let d0 = dedup_spec(s);
        let dd = dedup_spec(s.drop_last());
        if first_occurrence(s, s.len() - 1) {
            assert(d0 == dd.push(s.last()));
            assert(d0.drop_last() =~= dd);
            assert(d0.last() == s.last());
            lemma_fires_split(d0, active, id, d);
        } else {
            assert(d0 == dd);
            let a = choose|a: int|
                0 <= a < s.len() - 1 && trig_same(#[trigger] s[a], s[s.len() - 1]);
            if obj_fires(s.last(), active, id, d) {
                assert(obj_fires(s[a], active, id, d)) by {
                    match (s[a], s.last()) {
                        (IrObj::Trigger { cond: c1, .. }, IrObj::Trigger { cond: c2, .. }) => {
                            assert(c1 == c2);
                        },
                        _ => {},
                    }
                }
                assert(s.drop_last()[a] == s[a]);
                assert(fires_at(s.drop_last(), active, id, d));
            }
        }
    }
}

/// Every element a filter keeps was in the sequence.
proof fn lemma_filter_elem<A>(l: Seq<A>, pred: spec_fn(A) -> bool, k: int)
    requires
        0 <= k < l.filter(pred).len(),
    ensures
        l.contains(l.filter(pred)[k]),
    decreases l.len(),
{
    reveal(Seq::filter);
    if l.len() > 0 {
        let f = l.filter(pred);
        let fd = l.drop_last().filter(pred);
        if pred(l.last()) && k == fd.len() {
            assert(f[k] == l.last());
            assert(l[l.len() - 1] == l.last());
        } else {
            lemma_filter_elem(l.drop_last(), pred, k);
            let x = fd[k];
            let j = choose|j: int| 0 <= j < l.drop_last().len() && l.drop_last()[j] == x;
            assert(l[j] == x);
        }
    }
}

/// Law: dead-object elimination preserves the single-frame firing relation
/// on every identifier the graph or the reserved set reads: only triggers
/// whose target nothing reads are removed.
pub proof fn lemma_dead_elim_preserves_firing(
    objs: Seq<IrObj>,
    closed: Seq<u64>,
    active: Set<u64>,
    id: u64,
    d: u64,
)
    requires
        reads_id(objs, closed, id),
    ensures
        fires_at(objs.filter(|o: IrObj| is_live(objs, closed, o)), active, id, d) == fires_at(
            objs,
            active,
            id,
            d,
        ),
{
    let pred = |o: IrObj| is_live(objs, closed, o);
    let f = objs.filter(pred);
    if fires_at(f, active, id, d) {
        let k = choose|k: int| 0 <= k < f.len() && obj_fires(#[trigger] f[k], active, id, d);
        lemma_filter_elem(objs, pred, k);
        let j = choose|j: int| 0 <= j < objs.len() && objs[j] == f[k];
        assert(obj_fires(objs[j], active, id, d));
        assert(fires_at(objs, active, id, d));
    }
    if fires_at(objs, active, id, d) {
        let k = choose|k: int| 0 <= k < objs.len() && obj_fires(#[trigger] objs[k], active, id, d);
        assert(pred(objs[k])) by {
            match objs[k] {
                IrObj::Trigger { target: TargetRef::Id(t), .. } => {
                    assert(t == id);
                },
                _ => {},
            }
        }
        objs.lemma_filter_contains(pred, k);
        assert(f.contains(objs[k]));
        let w = choose|w: int| 0 <= w < f.len() && f[w] == objs[k];
        assert(obj_fires(f[w], active, id, d));
        assert(fires_at(f, active, id, d));
    }
}

/// A sequence with the object at `j` removed.
pub open spec fn remove_at(s: Seq<IrObj>, j: int) -> Seq<IrObj>
    recommends
        0 <= j < s.len(),
{
    s.take(j) + s.skip(j + 1)
}

/// A pair of triggers that a coalescing step may fuse: the first targets a
/// concrete identifier `b`, the second is gated exactly on `b`, and the
/// summed delay fits.
pub open spec fn coalesce_pair(before: Seq<IrObj>, i: int, j: int) -> bool {
    &&& 0 <= i < before.len()
    &&& 0 <= j < before.len()
    &&& i != j
    &&& match (before[i], before[j]) {
        (
            IrObj::Trigger { cond: _, target: TargetRef::Id(b), delay: d1 },
            IrObj::Trigger { cond: cj, target: _, delay: d2 },
        ) => cj == Cond::Var(b) && d1 + d2 <= u64::MAX,
        _ => false,
    }
}

/// The fused trigger: the first trigger's condition, the second's target,
/// and the summed delay.
pub open spec fn fused_of(before: Seq<IrObj>, i: int, j: int) -> IrObj
    recommends
        coalesce_pair(before, i, j),
{
    match (before[i], before[j]) {
        (
            IrObj::Trigger { cond: ci, target: _, delay: d1 },
            IrObj::Trigger { cond: _, target: t2, delay: d2 },
        ) => IrObj::Trigger { cond: ci, target: t2, delay: (d1 + d2) as u64 },
        _ => before[i],
    }
}

/// Whether an object is a trigger targeting identifier `b`.
pub open spec fn targets_id(o: IrObj, b: u64) -> bool {
    match o {
        IrObj::Trigger { target: TargetRef::Id(t), .. } => t == b,
        _ => false,
    }
}

/// A pair the coalescing pass fuses: trigger `i` targets a concrete
/// identifier `b` that is not reserved and that its own condition does not
/// read; trigger `j` is gated exactly on `b`, does not target `b` itself,
/// and is `b`'s only reader, while `i` is `b`'s only writer; the summed
/// delay fits.
pub open spec fn fusable(objs: Seq<IrObj>, closed: Seq<u64>, i: int, j: int) -> bool {
    &&& 0 <= i < objs.len()
    &&& 0 <= j < objs.len()
    &&& i != j
    &&& match (objs[i], objs[j]) {
        (
            IrObj::Trigger { cond: ci, target: TargetRef::Id(b), delay: d1 },
            IrObj::Trigger { cond: cj, target: t2, delay: d2 },
        ) => {
            &&& cj == Cond::Var(b)
            &&& !closed.contains(b)
            &&& !cond_vars(ci).contains(b)
            &&& t2 != TargetRef::Id(b)
            &&& d1 + d2 <= u64::MAX
            &&& forall|k: int| 0 <= k < objs.len() && k != j ==> !obj_reads(#[trigger] objs[k], b)
            &&& forall|k: int| 0 <= k < objs.len() && k != i ==> !targets_id(#[trigger] objs[k], b)
        },
        _ => false,
    }
}

/// Decides `fusable` for one pair of positions.
fn fusable_exec(objs: &Vec<IrObj>, closed: &Vec<u64>, i: usize, j: usize) -> (r: bool)
    requires
        i < objs@.len(),
        j < objs@.len(),
    ensures
        r == fusable(objs@, closed@, i as int, j as int),
{
    if i == j {
        return false;
    }
    let b: u64 = match &objs[i] {
        IrObj::Trigger { target: TargetRef::Id(b), .. } => *b,
        _ => {
            return false;
        },
    };
    // `b` must have no reader besides `j` and no writer besides `i`
    let mut sole = true;
    let mut k: usize = 0;
    while k < objs.len()
        invariant
            i < objs@.len(),
            j < objs@.len(),
            0 <= k <= objs@.len(),
            targets_id(objs@[i as int], b),
            sole == (forall|k2: int|
                0 <= k2 < k ==> ((k2 != j ==> !obj_reads(#[trigger] objs@[k2], b)) && (k2 != i
                    ==> !targets_id(#[trigger] objs@[k2], b)))),
        decreases objs.len() - k,
    {
        if k != j {
            let reads = match &objs[k] {
                IrObj::Trigger { cond, .. } => cond_has_var(cond, b),
                IrObj::Plain { props } => props_use_group_exec(props, b),
            };
            if reads {
                sole = false;
            }
        }
        if k != i {
            let writes = match &objs[k] {
                IrObj::Trigger { target: TargetRef::Id(t), .. } => *t == b,
                _ => false,
            };
            if writes {
                sole = false;
            }
        }
        k = k + 1;
    }
    match (&objs[i], &objs[j]) {
        (
            IrObj::Trigger { cond: ci, target: TargetRef::Id(b2), delay: d1 },
            IrObj::Trigger { cond: cj, target: tj, delay: d2 },
        ) => {
            let simple_gate = match cj {
                Cond::Var(v) => *v == *b2,
                _ => false,
            };
            let self_loop = match tj {
                TargetRef::Id(t2) => *t2 == *b2,
                _ => false,
            };
            let r = sole && simple_gate && !self_loop && !contains_u64(closed, *b2)
                && !cond_has_var(ci, *b2) && *d1 <= u64::MAX - *d2;
            proof {
                assert(*b2 == b);
                assert(simple_gate == (*cj == Cond::Var(b)));
                assert(self_loop == (*tj == TargetRef::Id(b)));
            }
            r
        },
        _ => false,
    }
}

/// Chain coalescing: looks for a trigger A targeting an internal identifier
/// `b` whose only reader is a single trigger B gated exactly on `b`, and
/// replaces the pair by one trigger with A's condition, B's target and the
/// summed delay.  A rewrite fuses exactly one such pair in place; the graph
/// comes back unchanged exactly when no fusable pair exists at all.
pub fn coalesce_once(objs: Vec<IrObj>, closed: &Vec<u64>) -> (r: (Vec<IrObj>, bool))
    ensures
        r.1 ==> exists|i: int, j: int|
            coalesce_pair(objs@, i, j) && r.0@ == remove_at(
                objs@.update(i, fused_of(objs@, i, j)),
                j,
            ),
        r.1 ==> r.0@.len() + 1 == objs@.len(),
        !r.1 ==> r.0@ == objs@ && (forall|i: int, j: int| !fusable(objs@, closed@, i, j)),
{
    let n = objs.len();
    let mut found = false;
    let mut fi: usize = 0;
    let mut fj: usize = 0;
    let mut i: usize = 0;
    while i < n && !found
        invariant
            n == objs@.len(),
            found ==> fusable(objs@, closed@, fi as int, fj as int),
            !found ==> forall|i2: int, j2: int|
                0 <= i2 < i && 0 <= j2 < n ==> !fusable(objs@, closed@, i2, j2),
        decreases n - i, (if found { 0int } else { 1int }),
    {
        let mut j: usize = 0;
        while j < n && !found
            invariant
                n == objs@.len(),
                i < n,
                found ==> fusable(objs@, closed@, fi as int, fj as int),
                !found ==> forall|i2: int, j2: int|
                    0 <= i2 < i && 0 <= j2 < n ==> !fusable(objs@, closed@, i2, j2),
                !found ==> forall|j2: int| 0 <= j2 < j ==> !fusable(objs@, closed@, i as int, j2),
            decreases n - j, (if found { 0int } else { 1int }),
        {
            if fusable_exec(&objs, closed, i, j) {
                found = true;
                fi = i;
                fj = j;
            }
            j = j + 1;
        }
        i = i + 1;
    }
    if !found {
        proof {
            assert forall|i2: int, j2: int| !fusable(objs@, closed@, i2, j2) by {
                if 0 <= i2 < n && 0 <= j2 < n {
                } else {
                    assert(!fusable(objs@, closed@, i2, j2));
                }
            }
        }
        return (objs, false);
    }
    proof {
        assert(coalesce_pair(objs@, fi as int, fj as int));
    }
    // build the fused trigger
    let (ci, tj, dsum): (Cond, TargetRef, u64) = {
        let c = match &objs[fi] {
            IrObj::Trigger { cond, .. } => clone_cond(cond),
            _ => Cond::Lit(false),
        };
        let (t, d2) = match &objs[fj] {
            IrObj::Trigger { target, delay, .. } => (*target, *delay),
            _ => (TargetRef::Id(0), 0u64),
        };
        let d1 = match &objs[fi] {
            IrObj::Trigger { delay, .. } => *delay,
            _ => 0u64,
        };
        if d1 <= u64::MAX - d2 {
            (c, t, d1 + d2)
        } else {
            (c, t, u64::MAX)
        }
    };
    let ghost orig = objs@;
    let ghost fused = fused_of(orig, fi as int, fj as int);
    let ghost target_seq = remove_at(orig.update(fi as int, fused), fj as int);
    proof {
        assert(IrObj::Trigger { cond: ci, target: tj, delay: dsum } == fused);
        assert(target_seq.len() == n - 1);
    }
    let mut out: Vec<IrObj> = Vec::new();
    let mut rest = objs;
    let mut k: usize = 0;
    while k < n
        invariant
            n == orig.len(),
            0 <= k <= n,
            fi < n,
            fj < n,
            fi != fj,
            (IrObj::Trigger { cond: ci, target: tj, delay: dsum }) == fused,
            fused == fused_of(orig, fi as int, fj as int),
            target_seq == remove_at(orig.update(fi as int, fused), fj as int),
            target_seq.len() == n - 1,
            rest@ =~= orig.skip(k as int),
            out@.len() == k - (if (fj as int) < k {
                1int
            } else {
                0int
            }),
            out@ =~= target_seq.take(out@.len() as int),
        decreases n - k,
    {
        proof {
            assert(orig.skip(k as int).len() == orig.len() - k);
        }
        let ghost pre = out@;
        let o = rest.remove(0);
        proof {
            assert(o == orig[k as int]);
            assert(orig.skip(k as int).drop_first() =~= orig.skip(k + 1));
        }
        if k == fj {
            // absorbed into the fused trigger
        } else if k == fi {
            out.push(IrObj::Trigger { cond: clone_cond(&ci), target: tj, delay: dsum });
            let _ = o;
            proof {
                let p = pre.len() as int;
                let upd = orig.update(fi as int, fused);
                if p < fj {
                    assert(target_seq[p] == upd[p]);
                } else {
                    assert(target_seq[p] == upd[p + 1]);
                }
                assert(target_seq[p] == fused);
                assert(out@ =~= target_seq.take(p + 1));
            }
        } else {
            out.push(o);
            proof {
                let p = pre.len() as int;
                let upd = orig.update(fi as int, fused);
                if p < fj {
                    assert(target_seq[p] == upd[p]);
                    assert(upd[p] == orig[k as int]);
                } else {
                    assert(target_seq[p] == upd[p + 1]);
                    assert(upd[p + 1] == orig[k as int]);
                }
                assert(out@ =~= target_seq.take(p + 1));
            }
        }
        k = k + 1;
    }
    proof {
        assert(out@ =~= target_seq.take(target_seq.len() as int));
        assert(out@ =~= target_seq);
    }
    (out, true)
}

/// Two identical triggers.
pub open spec fn trig_same(a: IrObj, b: IrObj) -> bool {
    match (a, b) {
        (
            IrObj::Trigger { cond: c1, target: t1, delay: d1 },
            IrObj::Trigger { cond: c2, target: t2, delay: d2 },
        ) => c1 == c2 && t1 == t2 && d1 == d2,
        _ => false,
    }
}

/// Whether two objects are identical triggers.
fn trig_same_exec(a: &IrObj, b: &IrObj) -> (r: bool)
    ensures
        r == trig_same(*a, *b),
{
    match (a, b) {
        (
            IrObj::Trigger { cond: c1, target: t1, delay: d1 },
            IrObj::Trigger { cond: c2, target: t2, delay: d2 },
        ) => eq_cond(c1, c2) && *t1 == *t2 && *d1 == *d2,
        _ => false,
    }
}

/// Whether no earlier object is an identical trigger.
pub open spec fn first_occurrence(s: Seq<IrObj>, k: int) -> bool {
    !(exists|a: int| 0 <= a < k && trig_same(#[trigger] s[a], s[k]))
}

/// The exact shape of deduplication's output: the input restricted, in
/// order, to the objects that are not triggers identical to an earlier one.
pub open spec fn dedup_spec(s: Seq<IrObj>) -> Seq<IrObj>
    decreases s.len(),
{
    if s.len() == 0 {
        Seq::empty()
    } else if first_occurrence(s, s.len() - 1) {
        dedup_spec(s.drop_last()).push(s.last())
    } else {
        dedup_spec(s.drop_last())
    }
}

/// Deduplication keeps only objects of the input, and no two identical
/// triggers remain.
pub proof fn lemma_dedup_spec_sound(s: Seq<IrObj>)
    ensures
        forall|k: int|
            0 <= k < dedup_spec(s).len() ==> exists|p: int|
                0 <= p < s.len() && #[trigger] dedup_spec(s)[k] == s[p],
        forall|a: int, b: int|
            0 <= a < b < dedup_spec(s).len() ==> !trig_same(
                #[trigger] dedup_spec(s)[a],
                #[trigger] dedup_spec(s)[b],
            ),
    decreases s.len(),
{
    if s.len() > 0 {
        lemma_dedup_spec_sound(s.drop_last());
        let d = dedup_spec(s);
        let dd = dedup_spec(s.drop_last());
        assert forall|k: int| 0 <= k < d.len() implies exists|p: int|
            0 <= p < s.len() && #[trigger] d[k] == s[p] by {
            if k < dd.len() {
                assert(d[k] == dd[k]);
                let p = choose|p: int| 0 <= p < s.drop_last().len() && dd[k] == s.drop_last()[p];
                assert(d[k] == s[p]);
            } else {
                assert(d[k] == s.last());
                assert(d[k] == s[s.len() - 1]);
            }
        }
        assert forall|a: int, b: int| 0 <= a < b < d.len() implies !trig_same(
            #[trigger] d[a],
            #[trigger] d[b],
        ) by {
            if b < dd.len() {
                assert(d[a] == dd[a] && d[b] == dd[b]);
            } else {
                assert(first_occurrence(s, s.len() - 1));
                assert(d[b] == s.last());
                assert(d[a] == dd[a]);
                let p = choose|p: int| 0 <= p < s.drop_last().len() && dd[a] == s.drop_last()[p];
                assert(d[a] == s[p]);
                assert(!trig_same(s[p], s[s.len() - 1]));
            }
        }
    }
}

/// Structural deduplication: removes every trigger identical to an earlier
/// object (firing a trigger twice adds nothing).  The result is exactly the
/// input restricted to first occurrences, so no two identical triggers
/// remain and the object count never grows.
pub fn dedup(objs: Vec<IrObj>) -> (r: Vec<IrObj>)
    ensures
        r@ == dedup_spec(objs@),
        r@.len() <= objs@.len(),
        forall|a: int, b: int|
            0 <= a < b < r@.len() ==> !trig_same(#[trigger] r@[a], #[trigger] r@[b]),
{
    let ghost orig = objs@;
    let n = objs.len();
    let mut flags: Vec<bool> = Vec::new();
    let mut k: usize = 0;
    while k < n
        invariant
            n == orig.len(),
            orig == objs@,
            0 <= k <= n,
            flags@.len() == k,
            forall|j: int| 0 <= j < k ==> flags@[j] == first_occurrence(orig, j),
        decreases n - k,
    {
        let mut dup = false;
        let mut a: usize = 0;
        while a < k
            invariant
                n == orig.len(),
                orig == objs@,
                k < n,
                0 <= a <= k,
                dup == exists|a2: int| 0 <= a2 < a && trig_same(#[trigger] orig[a2], orig[k as int]),
            decreases k - a,
        {
            if trig_same_exec(&objs[a], &objs[k]) {
                dup = true;
            }
            a = a + 1;
        }
        flags.push(!dup);
        k = k + 1;
    }
    let mut out: Vec<IrObj> = Vec::new();
    let mut rest = objs;
    let mut i: usize = 0;
    while i < n
        invariant
            n == orig.len(),
            0 <= i <= n,
            flags@.len() == n,
            forall|j: int| 0 <= j < n ==> flags@[j] == first_occurrence(orig, j),
            rest@ =~= orig.skip(i as int),
            out@.len() <= i,
            out@ == dedup_spec(orig.take(i as int)),
        decreases n - i,
    {
        proof {
            assert(orig.skip(i as int).len() == orig.len() - i);
        }
        let o = rest.remove(0);
        proof {
            assert(o == orig[i as int]);
            assert(orig.skip(i as int).drop_first() =~= orig.skip(i + 1));
            assert(orig.take(i + 1).drop_last() =~= orig.take(i as int));
            assert(orig.take(i + 1).last() == orig[i as int]);
            assert(first_occurrence(orig.take(i + 1), i as int) == first_occurrence(
                orig,
                i as int,
            )) by {
                if exists|a: int| 0 <= a < i && trig_same(#[trigger] orig.take(i + 1)[a], orig.take(i + 1)[i as int]) {
                    let a = choose|a: int| 0 <= a < i && trig_same(#[trigger] orig.take(i + 1)[a], orig.take(i + 1)[i as int]);
                    assert(trig_same(orig[a], orig[i as int]));
                }
                if exists|a: int| 0 <= a < i && trig_same(#[trigger] orig[a], orig[i as int]) {
                    let a = choose|a: int| 0 <= a < i && trig_same(#[trigger] orig[a], orig[i as int]);
                    assert(trig_same(orig.take(i + 1)[a], orig.take(i + 1)[i as int]));
                }
            }
        }
        if flags[i] {
            out.push(o);
        }
        i = i + 1;
    }
    proof {
        assert(orig.take(orig.len() as int) =~= orig);
        lemma_dedup_spec_sound(orig);
    }
    out
}

/// The total object count of a set of units.
pub open spec fn total_objects(units: Seq<FunctionUnit>) -> int
    decreases units.len(),
{
    if units.len() == 0 {
        0
    } else {
        total_objects(units.drop_last()) + units.last().objects@.len()
    }
}

/// A pairwise bound on unit sizes bounds the total.
pub proof fn lemma_total_mono(a: Seq<FunctionUnit>, b: Seq<FunctionUnit>)
    requires
        a.len() == b.len(),
        forall|u: int| 0 <= u < a.len() ==> (#[trigger] b[u]).objects@.len() <= a[u].objects@.len(),
    ensures
        total_objects(b) <= total_objects(a),
    decreases a.len(),
{
    if a.len() > 0 {
        assert(forall|u: int|
            0 <= u < a.drop_last().len() ==> a.drop_last()[u] == a[u] && b.drop_last()[u] == b[u]);
        lemma_total_mono(a.drop_last(), b.drop_last());
    }
}

/// The optimizer: applies dead-object elimination, constant folding with
/// boolean minimization, chain coalescing to a bounded fixed point, and
/// deduplication, unit by unit.  The unit count and every entry group are
/// kept; no unit grows, so the total object count never increases.
pub fn optimize(units: Vec<FunctionUnit>, closed: &ClosedGroups) -> (r: Vec<FunctionUnit>)
    ensures
        r@.len() == units@.len(),
        forall|u: int|
            0 <= u < r@.len() ==> (#[trigger] r@[u]).entry_group == units@[u].entry_group,
        forall|u: int|
            0 <= u < r@.len() ==> (#[trigger] r@[u]).objects@.len() <= units@[u].objects@.len(),
        total_objects(r@) <= total_objects(units@),
        // every surviving trigger carries a reduced, satisfiable-looking
        // condition: the literal false and every rewritable redex are gone
        forall|u: int, k: int|
            0 <= u < r@.len() && 0 <= k < r@[u].objects@.len()
                ==> match #[trigger] r@[u].objects@[k] {
                IrObj::Trigger { cond, .. } => crate::cond::reduced(cond) && cond != Cond::Lit(
                    false,
                ),
                _ => true,
            },
        // no fusable chain remains in any unit: the coalescing pass has
        // nothing left to do
        forall|u: int, i: int, j: int|
            0 <= u < r@.len() ==> !(#[trigger] fusable(r@[u].objects@, closed.groups@, i, j)),
{
    let ghost orig = units@;
    let mut out: Vec<FunctionUnit> = Vec::new();
    let mut rest = units;
    let total: usize = rest.len();
    let mut u: usize = 0;
    while rest.len() > 0
        invariant
            0 <= u <= orig.len(),
            total == orig.len(),
            u + rest@.len() == total,
            rest@ =~= orig.skip(u as int),
            out@.len() == u,
            forall|w: int|
                0 <= w < u ==> (#[trigger] out@[w]).entry_group == orig[w].entry_group,
            forall|w: int|
                0 <= w < u ==> (#[trigger] out@[w]).objects@.len() <= orig[w].objects@.len(),
            forall|w: int, k: int|
                0 <= w < u && 0 <= k < out@[w].objects@.len()
                    ==> match #[trigger] out@[w].objects@[k] {
                    IrObj::Trigger { cond, .. } => crate::cond::reduced(cond) && cond != Cond::Lit(
                        false,
                    ),
                    _ => true,
                },
            forall|w: int, i: int, j: int|
                0 <= w < u ==> !(#[trigger] fusable(out@[w].objects@, closed.groups@, i, j)),
        decreases rest@.len(),
    {
        proof {
            assert(orig.skip(u as int).len() == orig.len() - u);
        }
        let unit = rest.remove(0);
        proof {
            assert(unit == orig[u as int]);
            assert(orig.skip(u as int).drop_first() =~= orig.skip(u + 1));
        }
        let ghost n0 = unit.objects@.len();
        let entry = unit.entry_group;
        let mut objs = unit.objects;
        // the passes in tie-break order, repeated to a bounded fixed point
        let mut round: u64 = 0;
        while round < MAX_OPT_ROUNDS
            invariant
                objs@.len() <= n0,
            decreases MAX_OPT_ROUNDS - round,
        {
            let before_len = objs.len();
            objs = dead_elim(objs, &closed.groups);
            objs = fold_conditions(objs);
            let (o2, coalesced) = coalesce_once(objs, &closed.groups);
            objs = o2;
            objs = dedup(objs);
            if !coalesced && objs.len() == before_len {
                break;
            }
            round = round + 1;
        }
        // leave each unit folded, deduplicated, and coalesced to a fixed
        // point, whatever ended the bounded loop
        let ghost pre_fold = objs@;
        objs = fold_conditions(objs);
        let ghost folded = objs@;
        objs = dedup(objs);
        proof {
            lemma_fold_rel_out(pre_fold, folded);
            lemma_dedup_spec_sound(folded);
            assert forall|k: int|
                0 <= k < objs@.len() implies match #[trigger] objs@[k] {
                IrObj::Trigger { cond, .. } => crate::cond::reduced(cond) && cond != Cond::Lit(
                    false,
                ),
                _ => true,
            } by {
                let p = choose|p: int| 0 <= p < folded.len() && objs@[k] == folded[p];
                assert(match folded[p] {
                    IrObj::Trigger { cond, .. } => crate::cond::reduced(cond) && cond != Cond::Lit(
                        false,
                    ),
                    _ => true,
                });
            }
        }
        let mut fusing = true;
        while fusing
            invariant
                objs@.len() <= n0,
                forall|k: int|
                    0 <= k < objs@.len() ==> match #[trigger] objs@[k] {
                    IrObj::Trigger { cond, .. } => crate::cond::reduced(cond) && cond != Cond::Lit(
                        false,
                    ),
                    _ => true,
                },
                !fusing ==> forall|i2: int, j2: int| !fusable(objs@, closed.groups@, i2, j2),
            decreases objs@.len() + (if fusing {
                1int
            } else {
                0int
            }),
        {
            let ghost pre = objs@;
            let (o2, ch) = coalesce_once(objs, &closed.groups);
            objs = o2;
            fusing = ch;
            proof {
                if ch {
                    let (i, j) = choose|i: int, j: int|
                        coalesce_pair(pre, i, j) && objs@ == remove_at(
                            pre.update(i, fused_of(pre, i, j)),
                            j,
                        );
                    let fz = fused_of(pre, i, j);
                    let upd = pre.update(i, fz);
                    assert(match fz {
                        IrObj::Trigger { cond, .. } => crate::cond::reduced(cond) && cond
                            != Cond::Lit(false),
                        _ => true,
                    }) by {
                        assert(match pre[i] {
                            IrObj::Trigger { cond, .. } => crate::cond::reduced(cond) && cond
                                != Cond::Lit(false),
                            _ => true,
                        });
                    }
                    assert forall|k: int|
                        0 <= k < objs@.len() implies match #[trigger] objs@[k] {
                        IrObj::Trigger { cond, .. } => crate::cond::reduced(cond) && cond
                            != Cond::Lit(false),
                        _ => true,
                    } by {
                        if k < j {
                            assert(objs@[k] == upd[k]);
                        } else {
                            assert(objs@[k] == upd[k + 1]);
                        }
                    }
                }
            }
        }
        out.push(FunctionUnit { entry_group: entry, objects: objs });
        u = u + 1;
    }
    proof {
        assert(orig.skip(u as int).len() == orig.len() - u);
        assert(orig == units@);
        lemma_total_mono(orig, out@);
    }
    out
}

} // verus!
