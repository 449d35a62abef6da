//! The target substrate's object model: an object is a mapping from small
//! positive integer property keys to values (integers, text, or packed
//! integer sub-lists).  One reserved key identifies an object's kind; trigger
//! objects carry a target identifier, an encoded activation condition and a
//! delay.  Property keys within one object are unique; the order of objects
//! within a listing is semantically significant and is always preserved.

use vstd::prelude::*;

verus! {

/// Property key: the group identifier an object belongs to.
pub const KEY_GROUP: u64 = 1;
/// Property key: the color identifier an object uses.
pub const KEY_COLOR: u64 = 2;
/// Property key: the block identifier an object uses.
pub const KEY_BLOCK: u64 = 3;
/// Property key: the item identifier an object uses.
pub const KEY_ITEM: u64 = 4;
/// Property key: the object's kind (`0` plain, `1` trigger).
pub const KEY_KIND: u64 = 5;
/// Property key: the identifier a trigger activates.
pub const KEY_TARGET: u64 = 6;
/// Property key: a trigger's activation delay in frames.
pub const KEY_DELAY: u64 = 7;
/// Property key: a trigger's encoded activation condition.
pub const KEY_COND: u64 = 8;
/// Property key: marks an object as generated by this compiler.
pub const KEY_MARKER: u64 = 9;

/// Kind value for a trigger object.
pub const KIND_TRIGGER: u64 = 1;

/// One property value.
pub enum PropVal {
    /// A plain integer.
    Int(u64),
    /// Text over letters, digits and underscores, starting with a letter or
    /// an underscore.
    Text(Vec<u8>),
    /// A packed sub-list of at least two integers.
    List(Vec<u64>),
}

/// Mathematical model of a property value.
pub enum SpecVal {
    Int(u64),
    Text(Seq<u8>),
    List(Seq<u64>),
}

impl View for PropVal {
    type V = SpecVal;

    open spec fn view(&self) -> SpecVal {
        match self {
            PropVal::Int(n) => SpecVal::Int(*n),
            PropVal::Text(t) => SpecVal::Text(t@),
            PropVal::List(l) => SpecVal::List(l@),
        }
    }
}

/// One placed object of the target substrate.
pub struct TargetObject {
    pub props: Vec<(u64, PropVal)>,
}

/// Mathematical model of a placed object.
pub struct SpecObj {
    pub props: Seq<(u64, SpecVal)>,
}

/// The model of a property vector.
pub open spec fn view_props(ps: Seq<(u64, PropVal)>) -> Seq<(u64, SpecVal)> {
    ps.map_values(|p: (u64, PropVal)| (p.0, p.1@))
}

impl View for TargetObject {
    type V = SpecObj;

    open spec fn view(&self) -> SpecObj {
        SpecObj { props: view_props(self.props@) }
    }
}

/// The model of a whole listing.
pub open spec fn view_listing(l: Seq<TargetObject>) -> Seq<SpecObj> {
    l.map_values(|o: TargetObject| o@)
}

/// ASCII decimal digit.
pub open spec fn is_digit(b: u8) -> bool {
    48 <= b <= 57
}

/// ASCII letter or underscore: what a text value may start with.
pub open spec fn is_text_start(b: u8) -> bool {
    (97 <= b <= 122) || (65 <= b <= 90) || b == 95
}

/// A byte allowed inside a text value.
pub open spec fn is_text_byte(b: u8) -> bool {
    is_text_start(b) || is_digit(b)
}

/// A well-formed value: text is non-empty, starts with a letter or
/// underscore and holds only letters, digits and underscores; a packed list
/// has at least two elements (a one-element list is normalized to an
/// integer).
pub open spec fn wf_val(v: SpecVal) -> bool {
    match v {
        SpecVal::Int(_) => true,
        SpecVal::Text(t) => {
            &&& t.len() >= 1
            &&& is_text_start(t[0])
            &&& forall|i: int| 0 <= i < t.len() ==> is_text_byte(#[trigger] t[i])
        },
        SpecVal::List(l) => l.len() >= 2,
    }
}

/// A well-formed object: at least one property, every key positive, every
/// value well formed, and no key repeated.
pub open spec fn wf_obj(o: SpecObj) -> bool {
    &&& o.props.len() >= 1
    &&& forall|i: int| 0 <= i < o.props.len() ==> (#[trigger] o.props[i]).0 >= 1
    &&& forall|i: int| 0 <= i < o.props.len() ==> wf_val((#[trigger] o.props[i]).1)
    &&& forall|i: int, j: int|
        0 <= i < j < o.props.len() ==> (#[trigger] o.props[i]).0 != (#[trigger] o.props[j]).0
}

/// A well-formed listing: every object in it is well formed.
pub open spec fn wf_listing(l: Seq<SpecObj>) -> bool {
    forall|i: int| 0 <= i < l.len() ==> wf_obj(#[trigger] l[i])
}

/// The first value bound to `key`, if any.
pub open spec fn lookup(props: Seq<(u64, SpecVal)>, key: u64) -> Option<SpecVal>
    decreases props.len(),
{
    if props.len() == 0 {
        None
    } else if props[0].0 == key {
        Some(props[0].1)
    } else {
        lookup(props.drop_first(), key)
    }
}

/// Whether one value is well formed.
pub fn wf_val_check(v: &PropVal) -> (r: bool)
    ensures
        r == wf_val(v@),
{
    match v {
        PropVal::Int(_) => true,
        PropVal::List(l) => l.len() >= 2,
        PropVal::Text(t) => {
            if t.len() == 0 {
                return false;
            }
            let b0 = t[0];
            if !((97 <= b0 && b0 <= 122) || (65 <= b0 && b0 <= 90) || b0 == 95) {
                return false;
            }
            let mut i: usize = 0;
            while i < t.len()
                invariant
                    0 <= i <= t.len(),
                    v@ == SpecVal::Text(t@),
                    t@.len() >= 1,
                    is_text_start(t@[0]),
                    forall|j: int| 0 <= j < i ==> is_text_byte(#[trigger] t@[j]),
                decreases t.len() - i,
            {
                let b = t[i];
                if !((97 <= b && b <= 122) || (65 <= b && b <= 90) || b == 95 || (48 <= b && b
                    <= 57)) {
                    proof {
                        assert(!is_text_byte(t@[i as int]));
                    }
                    return false;
                }
                i = i + 1;
            }
            true
        },
    }
}

/// Whether one object is well formed.
pub fn wf_obj_check(o: &TargetObject) -> (r: bool)
    ensures
        r == wf_obj(o@),
{
    if o.props.len() == 0 {
        return false;
    }
    let mut i: usize = 0;
    while i < o.props.len()
        invariant
            0 <= i <= o.props.len(),
            o@.props.len() == o.props@.len(),
            o@.props.len() >= 1,
            forall|j: int| 0 <= j < i ==> (#[trigger] o@.props[j]).0 >= 1,
            forall|j: int| 0 <= j < i ==> wf_val((#[trigger] o@.props[j]).1),
            forall|a: int, b: int|
                0 <= a < b < o@.props.len() && a < i ==> (#[trigger] o@.props[a]).0 != (
                #[trigger] o@.props[b]).0,
        decreases o.props.len() - i,
    {
        proof {
            assert(o@.props[i as int] == (o.props@[i as int].0, o.props@[i as int].1@));
        }
        if o.props[i].0 < 1 {
            return false;
        }
        if !wf_val_check(&o.props[i].1) {
            return false;
        }
        let mut j: usize = i + 1;
        while j < o.props.len()
            invariant
                0 <= i < j <= o.props.len(),
                o@.props.len() == o.props@.len(),
                forall|b: int| i < b < j ==> (#[trigger] o@.props[b]).0 != o@.props[i as int].0,
            decreases o.props.len() - j,
        {
            proof {
                assert(o@.props[j as int] == (o.props@[j as int].0, o.props@[j as int].1@));
                assert(o@.props[i as int] == (o.props@[i as int].0, o.props@[i as int].1@));
            }
            if o.props[j].0 == o.props[i].0 {
                return false;
            }
            j = j + 1;
        }
        i = i + 1;
    }
    true
}

/// Whether a whole listing is well formed: what the codec's encoder expects
/// of its input.
pub fn wf_listing_check(l: &Vec<TargetObject>) -> (r: bool)
    ensures
        r == wf_listing(view_listing(l@)),
{
    let ghost vl = view_listing(l@);
    let mut i: usize = 0;
    while i < l.len()
        invariant
            0 <= i <= l.len(),
            vl == view_listing(l@),
            vl.len() == l@.len(),
            forall|j: int| 0 <= j < i ==> wf_obj(#[trigger] vl[j]),
        decreases l.len() - i,
    {
        proof {
            assert(vl[i as int] == l@[i as int]@);
        }
        if !wf_obj_check(&l[i]) {
            return false;
        }
        i = i + 1;
    }
    true
}

/// Structural copy of a property value.
pub fn clone_val(v: &PropVal) -> (r: PropVal)
    ensures
        r@ == v@,
{
    match v {
        PropVal::Int(n) => PropVal::Int(*n),
        PropVal::Text(t) => {
            let mut out: Vec<u8> = Vec::new();
            let mut i: usize = 0;
            while i < t.len()
                invariant
                    0 <= i <= t.len(),
                    out@ == t@.take(i as int),
                decreases t.len() - i,
            {
                out.push(t[i]);
                proof {
                    assert(out@ =~= t@.take(i + 1));
                }
                i = i + 1;
            }
            proof {
                assert(t@.take(t@.len() as int) =~= t@);
            }
            PropVal::Text(out)
        },
        PropVal::List(l) => {
            let mut out: Vec<u64> = Vec::new();
            let mut i: usize = 0;
            while i < l.len()
                invariant
                    0 <= i <= l.len(),
                    out@ == l@.take(i as int),
                decreases l.len() - i,
            {
                out.push(l[i]);
                proof {
                    assert(out@ =~= l@.take(i + 1));
                }
                i = i + 1;
            }
            proof {
                assert(l@.take(l@.len() as int) =~= l@);
            }
            PropVal::List(out)
        },
    }
}

/// Structural copy of an object.
pub fn clone_obj(o: &TargetObject) -> (r: TargetObject)
    ensures
        r@ == o@,
{
    let mut props: Vec<(u64, PropVal)> = Vec::new();
    let mut i: usize = 0;
    while i < o.props.len()
        invariant
            0 <= i <= o.props.len(),
            view_props(props@) == view_props(o.props@.take(i as int)),
        decreases o.props.len() - i,
    {
        let ghost pre = props@;
        props.push((o.props[i].0, clone_val(&o.props[i].1)));
        proof {
            assert(view_props(pre).len() == pre.len());
            assert(view_props(o.props@.take(i as int)).len() == i);
            assert(pre.len() == i);
            assert forall|j: int| 0 <= j < i + 1 implies #[trigger] view_props(props@)[j]
                == view_props(o.props@.take(i + 1))[j] by {
                assert(view_props(props@)[j] == (props@[j].0, props@[j].1@));
                assert(view_props(o.props@.take(i + 1))[j] == (
                    o.props@.take(i + 1)[j].0,
                    o.props@.take(i + 1)[j].1@,
                ));
                if j < i {
                    assert(props@[j] == pre[j]);
                    assert(view_props(pre)[j] == (pre[j].0, pre[j].1@));
                    assert(view_props(o.props@.take(i as int))[j] == (
                        o.props@.take(i as int)[j].0,
                        o.props@.take(i as int)[j].1@,
                    ));
                    assert(o.props@.take(i + 1)[j] == o.props@.take(i as int)[j]);
                }
            }
            assert(view_props(props@) =~= view_props(o.props@.take(i + 1)));
        }
        i = i + 1;
    }
    proof {
        assert(o.props@.take(o.props@.len() as int) =~= o.props@);
    }
    let r = TargetObject { props };
    proof {
        assert(r@.props == view_props(o.props@));
    }
    r
}

impl TargetObject {
    /// Whether the object carries a property under `key`.
    pub fn has_key(&self, key: u64) -> (r: bool)
        ensures
            r == (lookup(self@.props, key) is Some),
    {
        proof {
            assert(self@.props.skip(0) =~= self@.props);
        }
        let mut i: usize = 0;
        while i < self.props.len()
            invariant
                0 <= i <= self.props.len(),
                lookup(self@.props, key) == lookup(self@.props.skip(i as int), key),
                forall|j: int| 0 <= j < i ==> (#[trigger] self@.props[j]).0 != key,
            decreases self.props.len() - i,
        {
            proof {
                assert(self@.props.skip(i as int).len() == self.props@.len() - i);
                assert(self@.props.skip(i as int)[0] == self@.props[i as int]);
                assert(self@.props.skip(i as int).drop_first() =~= self@.props.skip(i + 1));
            }
            if self.props[i].0 == key {
                return true;
            }
            i = i + 1;
        }
        proof {
            assert(self@.props.skip(self.props@.len() as int) =~= Seq::<(u64, SpecVal)>::empty());
        }
        false
    }

    /// The integer bound to `key`, when the first property under `key`
    /// holds an integer.
    pub fn get_int(&self, key: u64) -> (r: Option<u64>)
        ensures
            match r {
                Some(n) => lookup(self@.props, key) == Some(SpecVal::Int(n)),
                None => forall|n: u64| lookup(self@.props, key) != Some(SpecVal::Int(n)),
            },
    {
        proof {
            assert(self@.props.skip(0) =~= self@.props);
        }
        let mut i: usize = 0;
        while i < self.props.len()
            invariant
                0 <= i <= self.props.len(),
                lookup(self@.props, key) == lookup(self@.props.skip(i as int), key),
                forall|j: int| 0 <= j < i ==> (#[trigger] self@.props[j]).0 != key,
            decreases self.props.len() - i,
        {
            proof {
                assert(self@.props.skip(i as int).len() == self.props@.len() - i);
                assert(self@.props.skip(i as int)[0] == self@.props[i as int]);
                assert(self@.props.skip(i as int).drop_first() =~= self@.props.skip(i + 1));
            }
            if self.props[i].0 == key {
                match &self.props[i].1 {
                    PropVal::Int(n) => {
                        return Some(*n);
                    },
                    _ => {
                        return None;
                    },
                }
            }
            i = i + 1;
        }
        proof {
            assert(self@.props.skip(self.props@.len() as int) =~= Seq::<(u64, SpecVal)>::empty());
        }
        None
    }
}

} // verus!
