//! The merge stage: strips the objects a previous run generated, appends the
//! freshly generated objects (each marked as generated), and reports, per
//! namespace, the highest identifier observed in the merged listing, which
//! seeds the allocator so fresh identifiers never collide with user content.

use vstd::prelude::*;
use crate::ids::{Allocator, Namespace, seq_max, vec_max};
use crate::obj::{
    PropVal, SpecVal, TargetObject, SpecObj, view_listing, wf_obj, wf_listing, lookup, clone_obj,
    KEY_GROUP, KEY_COLOR, KEY_BLOCK, KEY_ITEM, KEY_TARGET, KEY_MARKER,
};

verus! {

/// Whether an object carries the generation marker.
pub open spec fn is_marked(o: SpecObj) -> bool {
    lookup(o.props, KEY_MARKER) is Some
}

/// A listing without the objects of a previous generation.
pub open spec fn strip_spec(l: Seq<SpecObj>) -> Seq<SpecObj> {
    l.filter(|o: SpecObj| !is_marked(o))
}

/// An object with the generation marker added (or kept, if present).
pub open spec fn mark_spec(o: SpecObj) -> SpecObj {
    if is_marked(o) {
        o
    } else {
        SpecObj { props: o.props.push((KEY_MARKER, SpecVal::Int(1))) }
    }
}

/// The merged listing: the existing objects followed by the generated ones,
/// each freshly marked.
pub open spec fn merge_spec(existing: Seq<SpecObj>, generated: Seq<SpecObj>) -> Seq<SpecObj> {
    existing + generated.map_values(|o: SpecObj| mark_spec(o))
}

/// Looking a key up after a push: a hit stays a hit; otherwise the pushed
/// property decides.
pub proof fn lemma_lookup_push(ps: Seq<(u64, SpecVal)>, p: (u64, SpecVal), key: u64)
    ensures
        lookup(ps.push(p), key) == if lookup(ps, key) is Some {
            lookup(ps, key)
        } else if p.0 == key {
            Some(p.1)
        } else {
            None
        },
    decreases ps.len(),
{
    if ps.len() == 0 {
        assert(ps.push(p)[0] == p);
        if p.0 != key {
            assert(ps.push(p).drop_first() =~= Seq::<(u64, SpecVal)>::empty());
            assert(lookup(Seq::<(u64, SpecVal)>::empty(), key) is None);
            assert(lookup(ps.push(p), key) == lookup(ps.push(p).drop_first(), key));
        }
    } else {
        assert(ps.push(p)[0] == ps[0]);
        if ps[0].0 == key {
            assert(lookup(ps.push(p), key) == Some(ps[0].1));
            assert(lookup(ps, key) == Some(ps[0].1));
        } else {
            assert(ps.push(p).drop_first() =~= ps.drop_first().push(p));
            lemma_lookup_push(ps.drop_first(), p, key);
            assert(lookup(ps.push(p), key) == lookup(ps.drop_first().push(p), key));
            assert(lookup(ps, key) == lookup(ps.drop_first(), key));
        }
    }
}

/// A key that is never held is never found.
pub proof fn lemma_lookup_none(ps: Seq<(u64, SpecVal)>, key: u64)
    ensures
        (lookup(ps, key) is None) <==> (forall|i: int| 0 <= i < ps.len() ==> (#[trigger] ps[i]).0 != key),
    decreases ps.len(),
{
    if ps.len() > 0 {
        lemma_lookup_none(ps.drop_first(), key);
        if ps[0].0 != key {
            assert forall|i: int| 0 <= i < ps.len() && (lookup(ps, key) is None) implies (
            #[trigger] ps[i]).0 != key by {
                if i > 0 {
                    assert(ps.drop_first()[i - 1] == ps[i]);
                }
            }
            if forall|i: int| 0 <= i < ps.len() ==> (#[trigger] ps[i]).0 != key {
                assert(forall|i: int|
                    0 <= i < ps.drop_first().len() ==> (#[trigger] ps.drop_first()[i]).0 != key);
            }
        }
    }
}

/// A marked object stays marked.
pub proof fn lemma_mark_marked(o: SpecObj)
    ensures
        is_marked(mark_spec(o)),
{
    if !is_marked(o) {
        lemma_lookup_push(o.props, (KEY_MARKER, SpecVal::Int(1)), KEY_MARKER);
    }
}

/// Marking keeps an object well formed.
pub proof fn lemma_mark_wf(o: SpecObj)
    requires
        wf_obj(o),
    ensures
        wf_obj(mark_spec(o)),
{
    if !is_marked(o) {
        lemma_lookup_none(o.props, KEY_MARKER);
        let ps = mark_spec(o).props;
        assert forall|i: int, j: int|
            0 <= i < j < ps.len() implies (#[trigger] ps[i]).0 != (#[trigger] ps[j]).0 by {
            if j == ps.len() - 1 {
                assert(ps[j] == (KEY_MARKER, SpecVal::Int(1)));
                assert(ps[i] == o.props[i]);
            }
        }
        assert forall|i: int| 0 <= i < ps.len() implies (#[trigger] ps[i]).0 >= 1
            && crate::obj::wf_val(ps[i].1) by {
            if i < ps.len() - 1 {
                assert(ps[i] == o.props[i]);
            }
        }
    }
}

/// Law of idempotent rebuilds: merging generated objects into a listing,
/// stripping the prior generation, and merging the same objects again gives
/// the same listing as the first merge.  (The listing must be user-authored:
/// none of its objects already carries the generation marker.)
pub proof fn lemma_idempotent_rebuild(existing: Seq<SpecObj>, generated: Seq<SpecObj>)
    requires
        forall|i: int| 0 <= i < existing.len() ==> !is_marked(#[trigger] existing[i]),
    ensures
        merge_spec(strip_spec(merge_spec(existing, generated)), generated) == merge_spec(
            existing,
            generated,
        ),
{
    let marked = generated.map_values(|o: SpecObj| mark_spec(o));
    let pred = |o: SpecObj| !is_marked(o);
    Seq::filter_distributes_over_add(existing, marked, pred);
    lemma_filter_all(existing);
    assert forall|i: int| 0 <= i < marked.len() implies is_marked(#[trigger] marked[i]) by {
        lemma_mark_marked(generated[i]);
    }
    lemma_filter_none(marked);
    assert(strip_spec(merge_spec(existing, generated)) =~= existing + Seq::<SpecObj>::empty());
    assert(existing + Seq::<SpecObj>::empty() =~= existing);
}

/// Every object the strip keeps was in the listing.
proof fn lemma_strip_elem(l: Seq<SpecObj>, k: int)
    requires
        0 <= k < strip_spec(l).len(),
    ensures
        l.contains(strip_spec(l)[k]),
    decreases l.len(),
{
    reveal(Seq::filter);
    if l.len() > 0 {
        let f = strip_spec(l);
        let fd = strip_spec(l.drop_last());
        if !is_marked(l.last()) {
            assert(f == fd.push(l.last()));
            if k < fd.len() {
                lemma_strip_elem(l.drop_last(), k);
                let x = fd[k];
                let j = choose|j: int| 0 <= j < l.drop_last().len() && l.drop_last()[j] == x;
                assert(l[j] == x);
            } else {
                assert(f[k] == l.last());
                assert(l[l.len() - 1] == l.last());
            }
        } else {
            assert(f == fd);
            lemma_strip_elem(l.drop_last(), k);
            let x = fd[k];
            let j = choose|j: int| 0 <= j < l.drop_last().len() && l.drop_last()[j] == x;
            assert(l[j] == x);
        }
    }
}

/// Filtering keeps a listing none of whose objects is marked.
proof fn lemma_filter_all(l: Seq<SpecObj>)
    requires
        forall|i: int| 0 <= i < l.len() ==> !is_marked(#[trigger] l[i]),
    ensures
        l.filter(|o: SpecObj| !is_marked(o)) == l,
    decreases l.len(),
{
    reveal(Seq::filter);
    if l.len() > 0 {
        assert(forall|i: int| 0 <= i < l.drop_last().len() ==> l.drop_last()[i] == l[i]);
        lemma_filter_all(l.drop_last());
        assert(l.filter(|o: SpecObj| !is_marked(o)) =~= l.drop_last() + seq![l.last()]);
        assert(l.drop_last() + seq![l.last()] =~= l);
    }
}

/// Filtering empties a listing all of whose objects are marked.
proof fn lemma_filter_none(l: Seq<SpecObj>)
    requires
        forall|i: int| 0 <= i < l.len() ==> is_marked(#[trigger] l[i]),
    ensures
        l.filter(|o: SpecObj| !is_marked(o)) == Seq::<SpecObj>::empty(),
    decreases l.len(),
{
    reveal(Seq::filter);
    if l.len() > 0 {
        assert(forall|i: int| 0 <= i < l.drop_last().len() ==> l.drop_last()[i] == l[i]);
        lemma_filter_none(l.drop_last());
    }
}

/// Removes every object a previous run generated, restoring the listing to
/// its user-authored state.
pub fn strip_prior_generation(listing: &Vec<TargetObject>) -> (r: Vec<TargetObject>)
    ensures
        view_listing(r@) == strip_spec(view_listing(listing@)),
        wf_listing(view_listing(listing@)) ==> wf_listing(view_listing(r@)),
{
    reveal(Seq::filter);
    let mut out: Vec<TargetObject> = Vec::new();
    let mut i: usize = 0;
    while i < listing.len()
        invariant
            0 <= i <= listing.len(),
            view_listing(out@) == strip_spec(view_listing(listing@.take(i as int))),
        decreases listing.len() - i,
    {
        let ghost pre = out@;
        let ghost vtake = view_listing(listing@.take(i as int));
        let keep = !listing[i].has_key(KEY_MARKER);
        if keep {
            out.push(clone_obj(&listing[i]));
        }
        proof {
            reveal(Seq::filter);
            let vnext = view_listing(listing@.take(i + 1));
            assert(vnext.drop_last() =~= vtake);
            assert(vnext.last() == listing@[i as int]@);
            if keep {
                assert(view_listing(out@) =~= view_listing(pre).push(listing@[i as int]@));
                assert(strip_spec(vnext) == strip_spec(vtake).push(vnext.last()));
            } else {
                assert(view_listing(out@) =~= view_listing(pre));
                assert(strip_spec(vnext) == strip_spec(vtake));
            }
        }
        i = i + 1;
    }
    proof {
        assert(listing@.take(listing@.len() as int) =~= listing@);
        let vl = view_listing(listing@);
        if wf_listing(vl) {
            assert forall|k: int| 0 <= k < strip_spec(vl).len() implies wf_obj(
                #[trigger] strip_spec(vl)[k],
            ) by {
                lemma_strip_elem(vl, k);
                let o = strip_spec(vl)[k];
                let j = choose|j: int| 0 <= j < vl.len() && vl[j] == o;
                assert(wf_obj(vl[j]));
            }
        }
    }
    out
}

/// Adds the generation marker to an object that lacks it.
pub fn add_marker(o: &TargetObject) -> (r: TargetObject)
    ensures
        r@ == mark_spec(o@),
{
    let mut c = clone_obj(o);
    if !o.has_key(KEY_MARKER) {
        c.props.push((KEY_MARKER, PropVal::Int(1)));
        proof {
            assert(c@.props =~= mark_spec(o@).props);
        }
    }
    c
}

/// Per-namespace report: the highest identifier observed in the merged
/// listing (0 when the namespace is unused).
pub struct UsageCounters {
    pub groups: u64,
    pub colors: u64,
    pub blocks: u64,
    pub items: u64,
}

/// The identifiers one property contributes to a namespace: the group key
/// and the trigger-target key feed the group namespace; the color, block and
/// item keys feed theirs.  The highest such identifier, or 0.
pub open spec fn prop_ns_max(p: (u64, SpecVal), ns: Namespace) -> u64 {
    let relevant = match ns {
        Namespace::Group => p.0 == KEY_GROUP || p.0 == KEY_TARGET,
        Namespace::Color => p.0 == KEY_COLOR,
        Namespace::Block => p.0 == KEY_BLOCK,
        Namespace::Item => p.0 == KEY_ITEM,
    };
    if relevant {
        match p.1 {
            SpecVal::Int(n) => n,
            SpecVal::List(l) => seq_max(l),
            SpecVal::Text(_) => 0,
        }
    } else {
        0
    }
}

/// The highest identifier an object's properties hold in a namespace.
pub open spec fn props_ns_max(ps: Seq<(u64, SpecVal)>, ns: Namespace) -> u64
    decreases ps.len(),
{
    if ps.len() == 0 {
        0u64
    } else if prop_ns_max(ps[0], ns) > props_ns_max(ps.drop_first(), ns) {
        prop_ns_max(ps[0], ns)
    } else {
        props_ns_max(ps.drop_first(), ns)
    }
}

/// The highest identifier a listing holds in a namespace.
pub open spec fn listing_ns_max(l: Seq<SpecObj>, ns: Namespace) -> u64
    decreases l.len(),
{
    if l.len() == 0 {
        0u64
    } else if props_ns_max(l[0].props, ns) > listing_ns_max(l.drop_first(), ns) {
        props_ns_max(l[0].props, ns)
    } else {
        listing_ns_max(l.drop_first(), ns)
    }
}

/// Every property's contribution is at most the listing's maximum: what the
/// usage scan reports bounds every identifier observed.
pub proof fn lemma_listing_ns_max_ge(l: Seq<SpecObj>, ns: Namespace, i: int)
    requires
        0 <= i < l.len(),
    ensures
        props_ns_max(l[i].props, ns) <= listing_ns_max(l, ns),
    decreases l.len(),
{
    if i > 0 {
        lemma_listing_ns_max_ge(l.drop_first(), ns, i - 1);
        assert(l.drop_first()[i - 1] == l[i]);
    }
}

/// Every property is bounded by the object's per-namespace maximum.
pub proof fn lemma_props_ns_max_ge(ps: Seq<(u64, SpecVal)>, ns: Namespace, j: int)
    requires
        0 <= j < ps.len(),
    ensures
        prop_ns_max(ps[j], ns) <= props_ns_max(ps, ns),
    decreases ps.len(),
{
    if j > 0 {
        lemma_props_ns_max_ge(ps.drop_first(), ns, j - 1);
        assert(ps.drop_first()[j - 1] == ps[j]);
    }
}

/// Law: no collision.  After the allocator's high-water mark has been seeded
/// at or above the usage scan of a listing, every identifier strictly above
/// the mark — which is where `reserve` draws from — is disjoint from the
/// reserved identifiers and strictly greater than every identifier any
/// property of the listing holds in that namespace.
pub proof fn lemma_no_collision_with_scan(
    a: Allocator,
    l: Seq<SpecObj>,
    ns: Namespace,
    id: u64,
    i: int,
    j: int,
)
    requires
        a.wf(),
        a.high(ns) >= listing_ns_max(l, ns),
        id > a.high(ns),
        0 <= i < l.len(),
        0 <= j < l[i].props.len(),
    ensures
        !a.closed.ids(ns).contains(id),
        prop_ns_max(l[i].props[j], ns) < id,
{
    crate::ids::lemma_fresh_id_no_collision(a, ns, Seq::empty(), id);
    lemma_listing_ns_max_ge(l, ns, i);
    lemma_props_ns_max_ge(l[i].props, ns, j);
}

/// Executable per-object scan.
fn obj_ns_max_exec(o: &TargetObject, ns: Namespace) -> (r: u64)
    ensures
        r == props_ns_max(o@.props, ns),
{
    let mut cur: u64 = 0;
    let mut i: usize = 0;
    proof {
        assert(o@.props.skip(0) =~= o@.props);
    }
    while i < o.props.len()
        invariant
            0 <= i <= o.props.len(),
            o@.props.len() == o.props@.len(),
            props_ns_max(o@.props, ns) == if cur > props_ns_max(o@.props.skip(i as int), ns) {
                cur
            } else {
                props_ns_max(o@.props.skip(i as int), ns)
            },
        decreases o.props.len() - i,
    {
        proof {
            assert(o@.props.skip(i as int)[0] == o@.props[i as int]);
            assert(o@.props.skip(i as int).drop_first() =~= o@.props.skip(i + 1));
        }
        let p = &o.props[i];
        let relevant = match ns {
            Namespace::Group => p.0 == KEY_GROUP || p.0 == KEY_TARGET,
            Namespace::Color => p.0 == KEY_COLOR,
            Namespace::Block => p.0 == KEY_BLOCK,
            Namespace::Item => p.0 == KEY_ITEM,
        };
        if relevant {
            let contribution: u64 = match &p.1 {
                PropVal::Int(n) => *n,
                PropVal::List(l) => vec_max(l),
                PropVal::Text(_) => 0,
            };
            proof {
                assert(prop_ns_max(o@.props[i as int], ns) == contribution);
            }
            if contribution > cur {
                cur = contribution;
            }
        } else {
            proof {
                assert(prop_ns_max(o@.props[i as int], ns) == 0);
            }
        }
        i = i + 1;
    }
    proof {
        assert(o@.props.skip(o.props@.len() as int) =~= Seq::<(u64, SpecVal)>::empty());
    }
    cur
}

/// Executable per-listing scan.
pub fn listing_ns_max_exec(l: &Vec<TargetObject>, ns: Namespace) -> (r: u64)
    ensures
        r == listing_ns_max(view_listing(l@), ns),
{
    let ghost vl = view_listing(l@);
    let mut cur: u64 = 0;
    let mut i: usize = 0;
    proof {
        assert(vl.skip(0) =~= vl);
    }
    while i < l.len()
        invariant
            0 <= i <= l.len(),
            vl == view_listing(l@),
            vl.len() == l@.len(),
            listing_ns_max(vl, ns) == if cur > listing_ns_max(vl.skip(i as int), ns) {
                cur
            } else {
                listing_ns_max(vl.skip(i as int), ns)
            },
        decreases l.len() - i,
    {
        proof {
            assert(vl.skip(i as int)[0] == vl[i as int]);
            assert(vl.skip(i as int).drop_first() =~= vl.skip(i + 1));
        }
        let m = obj_ns_max_exec(&l[i], ns);
        proof {
            assert(vl[i as int] == l@[i as int]@);
        }
        if m > cur {
            cur = m;
        }
        i = i + 1;
    }
    proof {
        assert(vl.skip(l@.len() as int) =~= Seq::<SpecObj>::empty());
    }
    cur
}

/// Merges freshly generated objects into the user's existing listing: the
/// generated objects are appended, each marked as generated, and the usage
/// counters report the highest identifier per namespace in the combined
/// listing.
pub fn merge(existing: &Vec<TargetObject>, generated: &Vec<TargetObject>) -> (r: (
    Vec<TargetObject>,
    UsageCounters,
))
    ensures
        view_listing(r.0@) == merge_spec(view_listing(existing@), view_listing(generated@)),
        r.1.groups == listing_ns_max(view_listing(r.0@), Namespace::Group),
        r.1.colors == listing_ns_max(view_listing(r.0@), Namespace::Color),
        r.1.blocks == listing_ns_max(view_listing(r.0@), Namespace::Block),
        r.1.items == listing_ns_max(view_listing(r.0@), Namespace::Item),
        wf_listing(view_listing(existing@)) && wf_listing(view_listing(generated@))
            ==> wf_listing(view_listing(r.0@)),
{
    let ghost ve = view_listing(existing@);
    let ghost vg = view_listing(generated@);
    let mut out: Vec<TargetObject> = Vec::new();
    let mut i: usize = 0;
    while i < existing.len()
        invariant
            0 <= i <= existing.len(),
            ve == view_listing(existing@),
            view_listing(out@) =~= ve.take(i as int),
        decreases existing.len() - i,
    {
        let ghost pre = out@;
        out.push(clone_obj(&existing[i]));
        proof {
            assert(view_listing(out@) =~= view_listing(pre).push(existing@[i as int]@));
            assert(ve.take(i + 1) =~= ve.take(i as int).push(ve[i as int]));
        }
        i = i + 1;
    }
    proof {
        assert(ve.take(existing@.len() as int) =~= ve);
    }
    let mut j: usize = 0;
    while j < generated.len()
        invariant
            0 <= j <= generated.len(),
            ve == view_listing(existing@),
            vg == view_listing(generated@),
            view_listing(out@) =~= ve + vg.take(j as int).map_values(|o: SpecObj| mark_spec(o)),
        decreases generated.len() - j,
    {
        let ghost pre = out@;
        out.push(add_marker(&generated[j]));
        proof {
            assert(view_listing(out@) =~= view_listing(pre).push(mark_spec(vg[j as int])));
            let a = vg.take(j as int).map_values(|o: SpecObj| mark_spec(o));
            let b = vg.take(j + 1).map_values(|o: SpecObj| mark_spec(o));
            assert forall|k: int| 0 <= k < b.len() implies b[k] == a.push(
                mark_spec(vg[j as int]),
            )[k] by {
                if k < j {
                    assert(vg.take(j + 1)[k] == vg.take(j as int)[k]);
                }
            }
            assert(b =~= a.push(mark_spec(vg[j as int])));
        }
        j = j + 1;
    }
    proof {
        assert(vg.take(generated@.len() as int) =~= vg);
        assert(view_listing(out@) =~= merge_spec(ve, vg));
        if wf_listing(ve) && wf_listing(vg) {
            assert forall|k: int| 0 <= k < view_listing(out@).len() implies wf_obj(
                #[trigger] view_listing(out@)[k],
            ) by {
                if k < ve.len() {
                    assert(view_listing(out@)[k] == ve[k]);
                } else {
                    assert(view_listing(out@)[k] == mark_spec(vg[k - ve.len()]));
                    lemma_mark_wf(vg[k - ve.len()]);
                }
            }
        }
    }
    let counters = UsageCounters {
        groups: listing_ns_max_exec(&out, Namespace::Group),
        colors: listing_ns_max_exec(&out, Namespace::Color),
        blocks: listing_ns_max_exec(&out, Namespace::Block),
        items: listing_ns_max_exec(&out, Namespace::Item),
    };
    (out, counters)
}

/// Seeds the allocator from the usage counters, so every identifier it then
/// hands out is strictly greater than every identifier observed.
pub fn seed_allocator(c: &UsageCounters, a: &mut Allocator)
    requires
        old(a).wf(),
    ensures
        final(a).wf(),
        final(a).closed == old(a).closed,
        final(a).high(Namespace::Group) >= c.groups,
        final(a).high(Namespace::Color) >= c.colors,
        final(a).high(Namespace::Block) >= c.blocks,
        final(a).high(Namespace::Item) >= c.items,
        forall|ns: Namespace| #[trigger] final(a).high(ns) >= old(a).high(ns),
{
    a.mark_used(Namespace::Group, c.groups);
    a.mark_used(Namespace::Color, c.colors);
    a.mark_used(Namespace::Block, c.blocks);
    a.mark_used(Namespace::Item, c.items);
}

} // verus!
