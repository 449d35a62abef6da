use spwn_backend::BackendError;
use spwn_backend::cond::{Cond, eq_cond, eval_cond_exec, simplify};
use spwn_backend::codec::{decode_level, encode_level, pack_document, pack_level};
use spwn_backend::frame::xor_exec;
use spwn_backend::ids::{Allocator, ClosedGroups, Namespace, MAX_COLOR_ID};
use spwn_backend::ir::{flatten, FunctionUnit, IrObj, TargetRef};
use spwn_backend::merge::{add_marker, merge, strip_prior_generation};
use spwn_backend::obj::{PropVal, TargetObject, KEY_DELAY, KEY_KIND, KEY_TARGET};
use spwn_backend::optimize::optimize;
use spwn_backend::sim::{observed, simulate};
use spwn_backend::text::{listing_exec, parse_dec_exec, parse_listing_exec};

fn obj(props: Vec<(u64, PropVal)>) -> TargetObject {
    TargetObject { props }
}

fn bytes_of(l: &Vec<TargetObject>) -> Vec<u8> {
    listing_exec(&l[..])
}

fn closed(groups: Vec<u64>) -> ClosedGroups {
    ClosedGroups { groups, colors: Vec::new(), blocks: Vec::new(), items: Vec::new() }
}

#[test]
fn decimal_round_trip() {
    assert_eq!(parse_dec_exec(b"0"), Some(0));
    assert_eq!(parse_dec_exec(b"12345"), Some(12345));
    assert_eq!(parse_dec_exec(b"18446744073709551615"), Some(u64::MAX));
    assert_eq!(parse_dec_exec(b"18446744073709551616"), None);
    assert_eq!(parse_dec_exec(b"007"), None);
    assert_eq!(parse_dec_exec(b""), None);
    assert_eq!(parse_dec_exec(b"12a"), None);
}

#[test]
fn listing_text_round_trip() {
    let text = b"1,10,2,5;1,20,2,6";
    let l = parse_listing_exec(text).expect("listing parses");
    assert_eq!(l.len(), 2);
    assert_eq!(l[0].get_int(1), Some(10));
    assert_eq!(l[0].get_int(2), Some(5));
    assert_eq!(l[1].get_int(1), Some(20));
    assert_eq!(bytes_of(&l), text.to_vec());
}

#[test]
fn listing_text_values() {
    let text = b"1,7,8,av3nv4,3,1.2.9";
    let l = parse_listing_exec(text).expect("listing parses");
    assert_eq!(l.len(), 1);
    assert_eq!(bytes_of(&l), text.to_vec());
    match &l[0].props[1].1 {
        PropVal::Text(t) => assert_eq!(&t[..], b"av3nv4"),
        _ => panic!("expected a text value"),
    }
    match &l[0].props[2].1 {
        PropVal::List(v) => assert_eq!(v, &vec![1, 2, 9]),
        _ => panic!("expected a packed list"),
    }
}

#[test]
fn listing_text_rejects_malformed() {
    assert!(parse_listing_exec(b"1,").is_none());
    assert!(parse_listing_exec(b"1,,2").is_none());
    assert!(parse_listing_exec(b"nokey").is_none());
    assert!(parse_listing_exec(b"0,5").is_none());
    // duplicate keys within one object are rejected
    assert!(parse_listing_exec(b"1,5,1,6").is_none());
    // the empty text is the empty listing
    assert_eq!(parse_listing_exec(b"").map(|l| l.len()), Some(0));
}

#[test]
fn allocator_hands_out_fresh_ids() {
    let mut a = Allocator::new(closed(vec![5, 9]));
    a.mark_used(Namespace::Group, 3);
    let id = a.reserve(Namespace::Group).expect("space left");
    assert_eq!(id, 10);
    let id2 = a.reserve(Namespace::Group).expect("space left");
    assert_eq!(id2, 11);
    let c = a.reserve(Namespace::Color).expect("space left");
    assert_eq!(c, 1);
}

#[test]
fn allocator_capacity_exceeded() {
    let mut a = Allocator::new(ClosedGroups::new());
    a.mark_used(Namespace::Color, MAX_COLOR_ID);
    assert_eq!(a.reserve(Namespace::Color), Err(BackendError::CapacityExceeded));
    // the other namespaces are unaffected
    assert!(a.reserve(Namespace::Item).is_ok());
}

#[test]
fn condition_simplification() {
    // x && true == x
    let c = Cond::And(Box::new(Cond::Var(1)), Box::new(Cond::Lit(true)));
    assert!(eq_cond(&simplify(&c), &Cond::Var(1)));
    // double negation
    let c = Cond::Not(Box::new(Cond::Not(Box::new(Cond::Var(2)))));
    assert!(eq_cond(&simplify(&c), &Cond::Var(2)));
    // complement elimination
    let c = Cond::And(Box::new(Cond::Var(3)), Box::new(Cond::Not(Box::new(Cond::Var(3)))));
    assert!(eq_cond(&simplify(&c), &Cond::Lit(false)));
    // absorption: x || (x && y) == x
    let c = Cond::Or(
        Box::new(Cond::Var(4)),
        Box::new(Cond::And(Box::new(Cond::Var(4)), Box::new(Cond::Var(5)))),
    );
    assert!(eq_cond(&simplify(&c), &Cond::Var(4)));
    // evaluation agrees
    let env = vec![4u64];
    assert!(eval_cond_exec(&c, &env));
    assert!(eval_cond_exec(&simplify(&c), &env));
}

#[test]
fn merge_appends_and_counts() {
    // two plain objects using group 10 and 20
    let existing = parse_listing_exec(b"1,10,2,5;1,20,2,6").expect("listing parses");
    let mut alloc = Allocator::new(ClosedGroups::new());
    let scan = spwn_backend::merge::listing_ns_max_exec(&existing, Namespace::Group);
    assert_eq!(scan, 20);
    alloc.mark_used(Namespace::Group, scan);
    let fresh = alloc.reserve(Namespace::Group).expect("space left");
    assert!(fresh > 20);
    let generated = vec![obj(vec![
        (KEY_KIND, PropVal::Int(1)),
        (KEY_TARGET, PropVal::Int(fresh)),
        (KEY_DELAY, PropVal::Int(0)),
    ])];
    let (merged, counters) = merge(&existing, &generated);
    assert_eq!(merged.len(), 3);
    assert!(counters.groups >= 3);
    // the appended object carries the generation marker
    assert!(merged[2].has_key(spwn_backend::obj::KEY_MARKER));
}

#[test]
fn rebuild_is_idempotent() {
    let existing = parse_listing_exec(b"1,10,2,5;1,20,2,6").expect("listing parses");
    let generated = vec![obj(vec![
        (KEY_KIND, PropVal::Int(1)),
        (KEY_TARGET, PropVal::Int(21)),
        (KEY_DELAY, PropVal::Int(2)),
    ])];
    let (merged, counters) = merge(&existing, &generated);
    let stripped = strip_prior_generation(&merged);
    assert_eq!(bytes_of(&stripped), bytes_of(&existing));
    let (merged2, counters2) = merge(&stripped, &generated);
    assert_eq!(bytes_of(&merged2), bytes_of(&merged));
    assert_eq!(counters2.groups, counters.groups);
    assert_eq!(counters2.colors, counters.colors);
    assert_eq!(counters2.blocks, counters.blocks);
    assert_eq!(counters2.items, counters.items);
}

#[test]
fn marker_is_added_once() {
    let o = obj(vec![(1, PropVal::Int(10))]);
    let m = add_marker(&o);
    assert_eq!(m.props.len(), 2);
    let mm = add_marker(&m);
    assert_eq!(mm.props.len(), 2);
    assert_eq!(bytes_of(&vec![m]), bytes_of(&vec![mm]));
}

#[test]
fn document_round_trip() {
    let listing = parse_listing_exec(b"1,10,2,5;1,20,2,6").expect("listing parses");
    let other = parse_listing_exec(b"1,3").expect("listing parses");
    let dir = vec![
        (b"main".to_vec(), pack_level(&listing)),
        (b"other".to_vec(), pack_level(&other)),
    ];
    let doc = pack_document(&dir).expect("document packs");
    let back = decode_level(&doc, &b"main".to_vec()).expect("level decodes");
    assert_eq!(bytes_of(&back), bytes_of(&listing));

    // re-encoding the unmodified listing reproduces the document byte for byte
    let doc_same = encode_level(&back, &doc, &b"main".to_vec()).expect("level encodes");
    assert_eq!(doc_same, doc);

    // re-encode a grown listing into the document
    let mut grown = back;
    grown.push(obj(vec![
        (KEY_KIND, PropVal::Int(1)),
        (KEY_TARGET, PropVal::Int(21)),
        (KEY_DELAY, PropVal::Int(0)),
    ]));
    let doc2 = encode_level(&grown, &doc, &b"main".to_vec()).expect("level encodes");
    let back2 = decode_level(&doc2, &b"main".to_vec()).expect("level decodes");
    assert_eq!(bytes_of(&back2), bytes_of(&grown));
    // every other level is untouched
    let other_before = decode_level(&doc, &b"other".to_vec()).expect("level decodes");
    let other_after = decode_level(&doc2, &b"other".to_vec()).expect("level decodes");
    assert_eq!(bytes_of(&other_after), bytes_of(&other_before));
}

#[test]
fn decode_missing_level_not_found() {
    let listing = parse_listing_exec(b"1,10").expect("listing parses");
    let dir = vec![(b"main".to_vec(), pack_level(&listing))];
    let doc = pack_document(&dir).expect("document packs");
    assert!(matches!(decode_level(&doc, &b"absent".to_vec()), Err(BackendError::NotFound)));
    assert!(matches!(
        encode_level(&listing, &doc, &b"absent".to_vec()),
        Err(BackendError::NotFound)
    ));
}

#[test]
fn truncated_payload_is_invalid_format() {
    let listing = parse_listing_exec(b"1,10,2,5;1,20,2,6").expect("listing parses");
    let mut payload = pack_level(&listing);
    payload.truncate(payload.len() / 2);
    let dir = vec![(b"main".to_vec(), payload)];
    let doc = pack_document(&dir).expect("document packs");
    let before = doc.clone();
    assert!(matches!(decode_level(&doc, &b"main".to_vec()), Err(BackendError::InvalidFormat)));
    // decoding never mutates the document bytes
    assert_eq!(doc, before);
}

#[test]
fn garbage_document_is_invalid_format() {
    let doc = vec![1u8, 2, 3, 4, 5];
    assert!(matches!(decode_level(&doc, &b"main".to_vec()), Err(BackendError::InvalidFormat)));
}

#[test]
fn compression_actually_transforms() {
    let listing = parse_listing_exec(b"1,10,2,5;1,20,2,6").expect("listing parses");
    let payload = pack_level(&listing);
    let plain = xor_exec(&bytes_of(&listing));
    // the stored payload is the compressed form, not the bare ciphered text
    assert_ne!(payload, plain);
}

#[test]
fn flatten_resolves_unit_references() {
    let units = vec![
        FunctionUnit {
            entry_group: 1,
            objects: vec![IrObj::Trigger {
                cond: Cond::Var(1),
                target: TargetRef::Unit(1),
                delay: 2,
            }],
        },
        FunctionUnit {
            entry_group: 7,
            objects: vec![IrObj::Plain { props: vec![(1, PropVal::Int(7))] }],
        },
    ];
    let flat = flatten(&units).expect("references resolve");
    assert_eq!(flat.len(), 2);
    assert_eq!(flat[0].get_int(KEY_TARGET), Some(7));
    // the trigger carries its encoded condition and the lowering is well formed
    assert!(flat[0].has_key(spwn_backend::obj::KEY_COND));
    assert!(spwn_backend::obj::wf_listing_check(&flat));
}

#[test]
fn flatten_unresolved_reference() {
    let units = vec![FunctionUnit {
        entry_group: 1,
        objects: vec![IrObj::Trigger {
            cond: Cond::Var(1),
            target: TargetRef::Unit(5),
            delay: 0,
        }],
    }];
    assert!(matches!(flatten(&units), Err(BackendError::UnresolvedReference)));
}

#[test]
fn chain_is_coalesced_with_summed_delay() {
    // A -> B -> C where nothing else reads B's group
    let units = vec![FunctionUnit {
        entry_group: 1,
        objects: vec![
            IrObj::Trigger { cond: Cond::Var(1), target: TargetRef::Id(5), delay: 3 },
            IrObj::Trigger { cond: Cond::Var(5), target: TargetRef::Id(9), delay: 4 },
        ],
    }];
    let out = optimize(units, &closed(vec![1, 9]));
    assert_eq!(out.len(), 1);
    assert_eq!(out[0].objects.len(), 1);
    match &out[0].objects[0] {
        IrObj::Trigger { cond, target, delay } => {
            assert!(eq_cond(cond, &Cond::Var(1)));
            assert_eq!(*target, TargetRef::Id(9));
            assert_eq!(*delay, 7);
        }
        _ => panic!("expected the fused trigger"),
    }
}

#[test]
fn coalesce_reports_when_nothing_fuses() {
    // two triggers reading each other's reserved groups: nothing is fusable
    let objs = vec![
        IrObj::Trigger { cond: Cond::Var(1), target: TargetRef::Id(2), delay: 1 },
        IrObj::Trigger { cond: Cond::Var(2), target: TargetRef::Id(1), delay: 1 },
    ];
    let (out, changed) = spwn_backend::optimize::coalesce_once(objs, &vec![1, 2]);
    assert!(!changed);
    assert_eq!(out.len(), 2);
}

#[test]
fn fold_rewrites_and_drops() {
    let objs = vec![
        IrObj::Plain { props: vec![(1, PropVal::Int(4))] },
        IrObj::Trigger {
            cond: Cond::And(Box::new(Cond::Var(1)), Box::new(Cond::Lit(true))),
            target: TargetRef::Id(9),
            delay: 2,
        },
        IrObj::Trigger { cond: Cond::Lit(false), target: TargetRef::Id(9), delay: 2 },
    ];
    let out = spwn_backend::optimize::fold_conditions(objs);
    assert_eq!(out.len(), 2);
    match &out[1] {
        IrObj::Trigger { cond, .. } => assert!(eq_cond(cond, &Cond::Var(1))),
        _ => panic!("expected the folded trigger"),
    }
}

#[test]
fn dedup_keeps_first_occurrences() {
    let objs = vec![
        IrObj::Trigger { cond: Cond::Var(1), target: TargetRef::Id(9), delay: 1 },
        IrObj::Plain { props: vec![(1, PropVal::Int(4))] },
        IrObj::Trigger { cond: Cond::Var(1), target: TargetRef::Id(9), delay: 1 },
    ];
    let out = spwn_backend::optimize::dedup(objs);
    assert_eq!(out.len(), 2);
    assert!(matches!(&out[0], IrObj::Trigger { .. }));
    assert!(matches!(&out[1], IrObj::Plain { .. }));
}

#[test]
fn optimizer_never_grows_object_count() {
    let graphs = corpus();
    for (units, cl, _, _) in graphs {
        let before: usize = units.iter().map(|u| u.objects.len()).sum();
        let out = optimize(units, &cl);
        let after: usize = out.iter().map(|u| u.objects.len()).sum();
        assert!(after <= before);
    }
}

fn corpus() -> Vec<(Vec<FunctionUnit>, ClosedGroups, Vec<u64>, u64)> {
    let mut graphs = Vec::new();
    // a plain chain
    graphs.push((
        vec![FunctionUnit {
            entry_group: 1,
            objects: vec![
                IrObj::Trigger { cond: Cond::Var(1), target: TargetRef::Id(5), delay: 3 },
                IrObj::Trigger { cond: Cond::Var(5), target: TargetRef::Id(9), delay: 4 },
            ],
        }],
        closed(vec![1, 9]),
        vec![1],
        20,
    ));
    // a dead trigger and a duplicated trigger
    graphs.push((
        vec![FunctionUnit {
            entry_group: 1,
            objects: vec![
                IrObj::Trigger { cond: Cond::Var(1), target: TargetRef::Id(9), delay: 1 },
                IrObj::Trigger { cond: Cond::Var(1), target: TargetRef::Id(9), delay: 1 },
                IrObj::Trigger { cond: Cond::Var(1), target: TargetRef::Id(50), delay: 0 },
            ],
        }],
        closed(vec![1, 9]),
        vec![1],
        20,
    ));
    // compound conditions that minimize
    graphs.push((
        vec![FunctionUnit {
            entry_group: 1,
            objects: vec![
                IrObj::Trigger {
                    cond: Cond::And(Box::new(Cond::Var(1)), Box::new(Cond::Lit(true))),
                    target: TargetRef::Id(9),
                    delay: 2,
                },
                IrObj::Trigger {
                    cond: Cond::And(
                        Box::new(Cond::Var(1)),
                        Box::new(Cond::Not(Box::new(Cond::Var(1)))),
                    ),
                    target: TargetRef::Id(9),
                    delay: 5,
                },
            ],
        }],
        closed(vec![1, 9]),
        vec![1],
        20,
    ));
    // a cycle: valid toggling program, left alone but still equivalent
    graphs.push((
        vec![FunctionUnit {
            entry_group: 1,
            objects: vec![
                IrObj::Trigger { cond: Cond::Var(1), target: TargetRef::Id(2), delay: 1 },
                IrObj::Trigger { cond: Cond::Var(2), target: TargetRef::Id(1), delay: 1 },
                IrObj::Trigger { cond: Cond::Var(2), target: TargetRef::Id(9), delay: 0 },
            ],
        }],
        closed(vec![1, 2, 9]),
        vec![1],
        20,
    ));
    graphs
}

#[test]
fn optimizer_preserves_observed_activations() {
    for (units, cl, initial, frames) in corpus() {
        let pre: Vec<IrObj> = units
            .iter()
            .flat_map(|u| u.objects.iter().map(clone_ir))
            .collect();
        let out = optimize(units, &cl);
        let post: Vec<IrObj> = out
            .iter()
            .flat_map(|u| u.objects.iter().map(clone_ir))
            .collect();
        let watch = cl.groups.clone();
        let pre_events = observed(&simulate(&pre, &initial, frames), &watch);
        let post_events = observed(&simulate(&post, &initial, frames), &watch);
        assert_eq!(pre_events, post_events);
    }
}

fn clone_ir(o: &IrObj) -> IrObj {
    match o {
        IrObj::Plain { props } => IrObj::Plain {
            props: props
                .iter()
                .map(|(k, v)| {
                    (
                        *k,
                        match v {
                            PropVal::Int(n) => PropVal::Int(*n),
                            PropVal::Text(t) => PropVal::Text(t.clone()),
                            PropVal::List(l) => PropVal::List(l.clone()),
                        },
                    )
                })
                .collect(),
        },
        IrObj::Trigger { cond, target, delay } => IrObj::Trigger {
            cond: spwn_backend::cond::clone_cond(cond),
            target: *target,
            delay: *delay,
        },
    }
}
