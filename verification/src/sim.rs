//! A reference interpreter for the target substrate's per-frame activation
//! propagation: identifiers become active, triggers whose condition holds
//! fire once and schedule their target after their delay.  It is the
//! instrument the optimizer's behavior is held against: the externally
//! observed activation sequence of an optimized graph must equal that of the
//! original.

use vstd::prelude::*;
use crate::cond::eval_cond_exec;
use crate::ir::{IrObj, TargetRef};

verus! {

/// Whether an identifier may ever appear in the simulation's event list:
/// it is initially active or some trigger targets it.
pub open spec fn may_activate(objs: Seq<IrObj>, initial: Seq<u64>, id: u64) -> bool {
    initial.contains(id) || exists|j: int|
        0 <= j < objs.len() && match #[trigger] objs[j] {
            IrObj::Trigger { target: TargetRef::Id(t), .. } => t == id,
            _ => false,
        }
}

/// The event list is a well-formed first-activation record up to `frame`:
/// frames are bounded and nondecreasing, every identifier appears at most
/// once, is possible (initially active or some trigger's target), and is
/// recorded as active.
pub open spec fn sim_inv(
    objs: Seq<IrObj>,
    initial: Seq<u64>,
    events: Seq<(u64, u64)>,
    active: Seq<u64>,
    frames: u64,
    frame: u64,
) -> bool {
    &&& forall|k: int| 0 <= k < events.len() ==> (#[trigger] events[k]).0 <= frames
    &&& forall|k: int| 0 <= k < events.len() ==> (#[trigger] events[k]).0 <= frame
    &&& forall|k: int|
        0 <= k < events.len() ==> may_activate(objs, initial, (#[trigger] events[k]).1)
    &&& forall|k1: int, k2: int|
        0 <= k1 < k2 < events.len() ==> (#[trigger] events[k1]).0 <= (#[trigger] events[k2]).0
    &&& forall|k: int| 0 <= k < events.len() ==> active.contains((#[trigger] events[k]).1)
    &&& forall|k1: int, k2: int|
        0 <= k1 < k2 < events.len() ==> (#[trigger] events[k1]).1 != (#[trigger] events[k2]).1
}

/// The event list records `id` as activated at frame 0.
pub open spec fn seeded_at(events: Seq<(u64, u64)>, id: u64) -> bool {
    exists|k: int| 0 <= k < events.len() && #[trigger] events[k] == (0u64, id)
}

/// Every initially active identifier has an event at frame 0.
pub open spec fn seeded(events: Seq<(u64, u64)>, initial: Seq<u64>) -> bool {
    forall|j: int| 0 <= j < initial.len() ==> seeded_at(events, #[trigger] initial[j])
}

/// Appending events keeps the seed record.
proof fn lemma_seeded_grow(old_e: Seq<(u64, u64)>, new_e: Seq<(u64, u64)>, initial: Seq<u64>)
    requires
        seeded(old_e, initial),
        old_e.len() <= new_e.len(),
        forall|k: int| 0 <= k < old_e.len() ==> #[trigger] new_e[k] == old_e[k],
    ensures
        seeded(new_e, initial),
{
    assert forall|j: int| 0 <= j < initial.len() implies seeded_at(
        new_e,
        #[trigger] initial[j],
    ) by {
        let k = choose|k: int| 0 <= k < old_e.len() && #[trigger] old_e[k] == (0u64, initial[j]);
        assert(new_e[k] == (0u64, initial[j]));
    }
}

/// Runs the propagation for `frames` frames from the initially active
/// identifiers.  The result is the first-activation record of the run: for
/// each identifier that became active, one event with the frame at which it
/// first did, in nondecreasing frame order.  Every initially active
/// identifier appears at frame 0; every recorded identifier is initially
/// active or some trigger's target; no identifier appears twice.
pub fn simulate(objs: &Vec<IrObj>, initial: &Vec<u64>, frames: u64) -> (r: Vec<(u64, u64)>)
    ensures
        forall|k: int| 0 <= k < r@.len() ==> (#[trigger] r@[k]).0 <= frames,
        forall|k: int|
            0 <= k < r@.len() ==> may_activate(objs@, initial@, (#[trigger] r@[k]).1),
        forall|k1: int, k2: int|
            0 <= k1 < k2 < r@.len() ==> (#[trigger] r@[k1]).0 <= (#[trigger] r@[k2]).0,
        forall|k1: int, k2: int|
            0 <= k1 < k2 < r@.len() ==> (#[trigger] r@[k1]).1 != (#[trigger] r@[k2]).1,
        seeded(r@, initial@),
{
    let mut events: Vec<(u64, u64)> = Vec::new();
    let mut active: Vec<u64> = Vec::new();
    let mut fired: Vec<bool> = Vec::new();
    let mut pending: Vec<(u64, u64)> = Vec::new();
    let mut i: usize = 0;
    while i < objs.len()
        invariant
            0 <= i <= objs.len(),
            fired@.len() == i,
        decreases objs.len() - i,
    {
        fired.push(false);
        i = i + 1;
    }
    let mut j: usize = 0;
    while j < initial.len()
        invariant
            0 <= j <= initial.len(),
            fired@.len() == objs@.len(),
            sim_inv(objs@, initial@, events@, active@, frames, 0),
            forall|k: int| 0 <= k < active@.len() ==> initial@.contains(#[trigger] active@[k]),
            forall|k: int| 0 <= k < events@.len() ==> (#[trigger] events@[k]).0 == 0,
            forall|j2: int| 0 <= j2 < j ==> seeded_at(events@, #[trigger] initial@[j2]),
            forall|id: u64| active@.contains(id) ==> seeded_at(events@, id),
        decreases initial.len() - j,
    {
        let id = initial[j];
        let ghost pre_e = events@;
        let ghost pre_a = active@;
        if !crate::cond::contains_id(&active, id) {
            active.push(id);
            events.push((0, id));
            proof {
                assert(initial@.contains(initial@[j as int]));
                assert(forall|k: int| 0 <= k < pre_e.len() ==> #[trigger] events@[k] == pre_e[k]);
                assert forall|k: int|
                    0 <= k < events@.len() implies active@.contains(
                    (#[trigger] events@[k]).1,
                ) by {
                    if k < pre_e.len() {
                        assert(pre_a.contains(pre_e[k].1));
                        let w = choose|w: int| 0 <= w < pre_a.len() && pre_a[w] == pre_e[k].1;
                        assert(active@[w] == pre_e[k].1);
                    } else {
                        assert(active@[active@.len() - 1] == id);
                    }
                }
                assert forall|id2: u64| active@.contains(id2) implies seeded_at(events@, id2) by {
                    if pre_a.contains(id2) {
                        assert(seeded_at(pre_e, id2));
                        let k = choose|k: int|
                            0 <= k < pre_e.len() && #[trigger] pre_e[k] == (0u64, id2);
                        assert(events@[k] == (0u64, id2));
                    } else {
                        let w = choose|w: int| 0 <= w < active@.len() && active@[w] == id2;
                        assert(id2 == id);
                        assert(events@[events@.len() - 1] == (0u64, id));
                    }
                }
            }
        } else {
            proof {
                assert(active@.to_set().contains(id));
                assert(active@.contains(id));
                assert(seeded_at(events@, id));
            }
        }
        proof {
            assert forall|j2: int| 0 <= j2 < j + 1 implies seeded_at(
                events@,
                #[trigger] initial@[j2],
            ) by {
                if j2 < j {
                    assert(seeded_at(pre_e, initial@[j2]));
                    let k = choose|k: int|
                        0 <= k < pre_e.len() && #[trigger] pre_e[k] == (0u64, initial@[j2]);
                    assert(forall|k2: int|
                        0 <= k2 < pre_e.len() ==> #[trigger] events@[k2] == pre_e[k2]);
                    assert(events@[k] == (0u64, initial@[j2]));
                } else {
                    assert(initial@[j2] == id);
                    assert(active@.contains(id)) by {
                        if pre_a.len() < active@.len() {
                            assert(active@[active@.len() - 1] == id);
                        }
                    }
                    assert(seeded_at(events@, id));
                }
            }
        }
        j = j + 1;
    }
    let ghost seed_e = events@;
    proof {
        assert(seeded(events@, initial@));
    }
    let mut frame: u64 = 0;
    while frame <= frames
        invariant
            fired@.len() == objs@.len(),
            frame <= frames + 1,
            sim_inv(objs@, initial@, events@, active@, frames, frame),
            seeded(events@, initial@),
            forall|k: int|
                0 <= k < pending@.len() ==> may_activate(objs@, initial@, (#[trigger] pending@[k]).1),
        decreases frames - frame,
    {
        // deliver what is due this frame
        let mut p: usize = 0;
        while p < pending.len()
            invariant
                fired@.len() == objs@.len(),
                frame <= frames,
                sim_inv(objs@, initial@, events@, active@, frames, frame),
                seeded(events@, initial@),
                forall|k: int|
                    0 <= k < pending@.len() ==> may_activate(
                        objs@,
                        initial@,
                        (#[trigger] pending@[k]).1,
                    ),
            decreases pending.len() - p,
        {
            if pending[p].0 == frame {
                let id = pending[p].1;
                let ghost pre_e = events@;
                let ghost pre_a = active@;
                if !crate::cond::contains_id(&active, id) {
                    active.push(id);
                    events.push((frame, id));
                    proof {
                        lemma_record_step(pre_e, pre_a, events@, active@, objs@, initial@, frames, frame, id);
                        lemma_seeded_grow(pre_e, events@, initial@);
                    }
                }
            }
            p = p + 1;
        }
        // fire triggers whose condition holds, cascading within the frame
        let mut fuel: usize = objs.len();
        while fuel > 0
            invariant
                fired@.len() == objs@.len(),
                frame <= frames,
                sim_inv(objs@, initial@, events@, active@, frames, frame),
                seeded(events@, initial@),
                forall|k: int|
                    0 <= k < pending@.len() ==> may_activate(
                        objs@,
                        initial@,
                        (#[trigger] pending@[k]).1,
                    ),
            decreases fuel,
        {
            fuel = fuel - 1;
            let mut progressed = false;
            let mut t: usize = 0;
            while t < objs.len()
                invariant
                    fired@.len() == objs@.len(),
                    t <= objs@.len(),
                    frame <= frames,
                    sim_inv(objs@, initial@, events@, active@, frames, frame),
                    seeded(events@, initial@),
                    forall|k: int|
                        0 <= k < pending@.len() ==> may_activate(
                            objs@,
                            initial@,
                            (#[trigger] pending@[k]).1,
                        ),
                decreases objs.len() - t,
            {
                if !fired[t] {
                    match &objs[t] {
                        IrObj::Trigger { cond, target, delay } => {
                            if eval_cond_exec(cond, &active) {
                                fired.set(t, true);
                                progressed = true;
                                match target {
                                    TargetRef::Id(g) => {
                                        proof {
                                            assert(match objs@[t as int] {
                                                IrObj::Trigger {
                                                    target: TargetRef::Id(tt),
                                                    ..
                                                } => tt == *g,
                                                _ => false,
                                            });
                                        }
                                        if *delay == 0 {
                                            let ghost pre_e = events@;
                                            let ghost pre_a = active@;
                                            if !crate::cond::contains_id(&active, *g) {
                                                active.push(*g);
                                                events.push((frame, *g));
                                                proof {
                                                    lemma_record_step(pre_e, pre_a, events@, active@, objs@, initial@, frames, frame, *g);
                                                    lemma_seeded_grow(pre_e, events@, initial@);
                                                }
                                            }
                                        } else {
                                            if frame <= u64::MAX - *delay && frame + *delay
                                                <= frames {
                                                pending.push((frame + *delay, *g));
                                            }
                                        }
                                    },
                                    TargetRef::Unit(_) => {},
                                }
                            }
                        },
                        IrObj::Plain { .. } => {},
                    }
                }
                t = t + 1;
            }
            if !progressed {
                break;
            }
        }
        if frame == frames {
            break;
        }
        frame = frame + 1;
    }
    events
}

/// Recording a newly active identifier keeps the event list a well-formed
/// first-activation record.
proof fn lemma_record_step(
    pre_e: Seq<(u64, u64)>,
    pre_a: Seq<u64>,
    events: Seq<(u64, u64)>,
    active: Seq<u64>,
    objs: Seq<IrObj>,
    initial: Seq<u64>,
    frames: u64,
    frame: u64,
    id: u64,
)
    requires
        sim_inv(objs, initial, pre_e, pre_a, frames, frame),
        frame <= frames,
        !pre_a.contains(id),
        may_activate(objs, initial, id),
        events == pre_e.push((frame, id)),
        active == pre_a.push(id),
    ensures
        sim_inv(objs, initial, events, active, frames, frame),
{
    assert(forall|k: int| 0 <= k < pre_e.len() ==> #[trigger] events[k] == pre_e[k]);
    assert(events[events.len() - 1] == (frame, id));
    assert forall|k: int| 0 <= k < events.len() implies active.contains(
        (#[trigger] events[k]).1,
    ) by {
        if k < pre_e.len() {
            assert(pre_a.contains(pre_e[k].1));
            let w = choose|w: int| 0 <= w < pre_a.len() && pre_a[w] == pre_e[k].1;
            assert(active[w] == pre_e[k].1);
        } else {
            assert(active[active.len() - 1] == id);
        }
    }
    assert forall|k1: int, k2: int|
        0 <= k1 < k2 < events.len() implies (#[trigger] events[k1]).1 != (
    #[trigger] events[k2]).1 by {
        if k2 == events.len() - 1 {
            assert(pre_a.contains(pre_e[k1].1));
        }
    }
}

/// The events whose identifier is watched: what an outside observer of the
/// given identifiers sees of a run.
pub fn observed(events: &Vec<(u64, u64)>, watch: &Vec<u64>) -> (r: Vec<(u64, u64)>)
    ensures
        r@ == events@.filter(|e: (u64, u64)| watch@.contains(e.1)),
{
    reveal(Seq::filter);
    let mut out: Vec<(u64, u64)> = Vec::new();
    let mut i: usize = 0;
    while i < events.len()
        invariant
            0 <= i <= events.len(),
            out@ == events@.take(i as int).filter(|e: (u64, u64)| watch@.contains(e.1)),
        decreases events.len() - i,
    {
        let e = events[i];
        let mut hit = false;
        let mut w: usize = 0;
        while w < watch.len()
            invariant
                0 <= w <= watch.len(),
                hit == exists|k: int| 0 <= k < w && watch@[k] == e.1,
            decreases watch.len() - w,
        {
            if watch[w] == e.1 {
                hit = true;
            }
            w = w + 1;
        }
        proof {
            reveal(Seq::filter);
            assert(hit == watch@.contains(e.1));
            assert(events@.take(i + 1).drop_last() =~= events@.take(i as int));
            assert(events@.take(i + 1).last() == events@[i as int]);
        }
        if hit {
            out.push(e);
        }
        i = i + 1;
    }
    proof {
        assert(events@.take(events@.len() as int) =~= events@);
    }
    out
}

} // verus!
