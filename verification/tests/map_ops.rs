use prefix_trie::{AsView, AsViewMut, BitPrefix, Prefix, PrefixMap};

fn net(a: u32, len: usize) -> BitPrefix {
    let mut v: Vec<bool> = Vec::new();
    let mut i: usize = 0;
    while i < len {
        v.push((a >> (31 - i)) & 1 == 1);
        i += 1;
    }
    BitPrefix::new(v)
}

fn ip(a: u8, b: u8, c: u8, d: u8) -> u32 {
    ((a as u32) << 24) | ((b as u32) << 16) | ((c as u32) << 8) | (d as u32)
}

fn fixture() -> PrefixMap<BitPrefix, i32> {
    let mut pm: PrefixMap<BitPrefix, i32> = PrefixMap::new();
    pm.insert(net(ip(192, 168, 0, 0), 22), 1);
    pm.insert(net(ip(192, 168, 0, 0), 23), 2);
    pm.insert(net(ip(192, 168, 2, 0), 23), 3);
    pm.insert(net(ip(192, 168, 0, 0), 24), 4);
    pm.insert(net(ip(192, 168, 2, 0), 24), 5);
    pm
}

fn drain<'a>(
    it: &mut prefix_trie::Iter<'a, BitPrefix, i32>,
) -> Vec<(Vec<bool>, i32)> {
    let mut out = Vec::new();
    while let Some((p, v)) = it.next() {
        out.push((p.to_vec(), *v));
    }
    out
}

fn key(a: u32, len: usize) -> Vec<bool> {
    net(a, len).to_vec()
}

#[test]
fn get_returns_last_inserted() {
    let mut pm: PrefixMap<BitPrefix, i32> = PrefixMap::new();
    assert!(pm.get(&net(ip(10, 0, 0, 0), 8)).is_none());
    pm.insert(net(ip(10, 0, 0, 0), 8), 7);
    assert_eq!(pm.get(&net(ip(10, 0, 0, 0), 8)), Some(&7));
    let old = pm.insert(net(ip(10, 0, 0, 0), 8), 9);
    assert_eq!(old, Some(7));
    assert_eq!(pm.get(&net(ip(10, 0, 0, 0), 8)), Some(&9));
    assert!(pm.get(&net(ip(10, 0, 0, 0), 9)).is_none());
    assert!(pm.contains_key(&net(ip(10, 0, 0, 0), 8)));
    assert!(!pm.contains_key(&net(ip(11, 0, 0, 0), 8)));
}

#[test]
fn iter_is_lexicographic() {
    let pm = fixture();
    let mut it = pm.iter();
    let got = drain(&mut it);
    let want = vec![
        (key(ip(192, 168, 0, 0), 22), 1),
        (key(ip(192, 168, 0, 0), 23), 2),
        (key(ip(192, 168, 0, 0), 24), 4),
        (key(ip(192, 168, 2, 0), 23), 3),
        (key(ip(192, 168, 2, 0), 24), 5),
    ];
    assert_eq!(got, want);
}

#[test]
fn keys_and_values_follow_iter() {
    let pm = fixture();
    let mut ks = pm.keys();
    let mut got_k = Vec::new();
    while let Some(p) = ks.next() {
        got_k.push(p.to_vec());
    }
    assert_eq!(
        got_k,
        vec![
            key(ip(192, 168, 0, 0), 22),
            key(ip(192, 168, 0, 0), 23),
            key(ip(192, 168, 0, 0), 24),
            key(ip(192, 168, 2, 0), 23),
            key(ip(192, 168, 2, 0), 24),
        ]
    );
    let mut vs = pm.values();
    let mut got_v = Vec::new();
    while let Some(v) = vs.next() {
        got_v.push(*v);
    }
    assert_eq!(got_v, vec![1, 2, 4, 3, 5]);
}

#[test]
fn children_yields_subtree() {
    let pm = fixture();
    let mut it = pm.children(&net(ip(192, 168, 0, 0), 23));
    let got = drain(&mut it);
    let want = vec![
        (key(ip(192, 168, 0, 0), 23), 2),
        (key(ip(192, 168, 0, 0), 24), 4),
    ];
    assert_eq!(got, want);
}

#[test]
fn children_of_absent_region_is_empty() {
    let pm = fixture();
    let mut it = pm.children(&net(ip(10, 0, 0, 0), 8));
    assert!(it.next().is_none());
}

#[test]
fn into_children_yields_owned_subtree() {
    let pm = fixture();
    let mut it = pm.into_children(&net(ip(192, 168, 0, 0), 23));
    let mut got = Vec::new();
    while let Some((p, v)) = it.next() {
        got.push((p.to_vec(), v));
    }
    let want = vec![
        (key(ip(192, 168, 0, 0), 23), 2),
        (key(ip(192, 168, 0, 0), 24), 4),
    ];
    assert_eq!(got, want);
}

#[test]
fn into_iter_into_keys_into_values() {
    let pm = fixture();
    let mut it = pm.into_iter();
    let mut got = Vec::new();
    while let Some((p, v)) = it.next() {
        got.push((p.to_vec(), v));
    }
    assert_eq!(
        got,
        vec![
            (key(ip(192, 168, 0, 0), 22), 1),
            (key(ip(192, 168, 0, 0), 23), 2),
            (key(ip(192, 168, 0, 0), 24), 4),
            (key(ip(192, 168, 2, 0), 23), 3),
            (key(ip(192, 168, 2, 0), 24), 5),
        ]
    );
    let pm = fixture();
    let mut ik = pm.into_keys();
    let mut got_k = Vec::new();
    while let Some(p) = ik.next() {
        got_k.push(p.to_vec());
    }
    assert_eq!(got_k.len(), 5);
    assert_eq!(got_k[0], key(ip(192, 168, 0, 0), 22));
    let pm = fixture();
    let mut iv = pm.into_values();
    let mut got_v = Vec::new();
    while let Some(v) = iv.next() {
        got_v.push(v);
    }
    assert_eq!(got_v, vec![1, 2, 4, 3, 5]);
}

#[test]
fn remove_prunes_and_returns_value() {
    let mut pm = fixture();
    assert_eq!(pm.remove(&net(ip(192, 168, 0, 0), 23)), Some(2));
    assert!(pm.get(&net(ip(192, 168, 0, 0), 23)).is_none());
    assert_eq!(pm.remove(&net(ip(192, 168, 0, 0), 23)), None);
    let mut it = pm.iter();
    let got = drain(&mut it);
    let want = vec![
        (key(ip(192, 168, 0, 0), 22), 1),
        (key(ip(192, 168, 0, 0), 24), 4),
        (key(ip(192, 168, 2, 0), 23), 3),
        (key(ip(192, 168, 2, 0), 24), 5),
    ];
    assert_eq!(got, want);
}

#[test]
fn remove_keep_tree_then_reinsert_preserves_sequence() {
    let mut pm = fixture();
    assert_eq!(pm.remove_keep_tree(&net(ip(192, 168, 0, 0), 23)), Some(2));
    assert!(pm.get(&net(ip(192, 168, 0, 0), 23)).is_none());
    pm.insert(net(ip(192, 168, 0, 0), 23), 20);
    let mut it = pm.iter();
    let got = drain(&mut it);
    let want = vec![
        (key(ip(192, 168, 0, 0), 22), 1),
        (key(ip(192, 168, 0, 0), 23), 20),
        (key(ip(192, 168, 0, 0), 24), 4),
        (key(ip(192, 168, 2, 0), 23), 3),
        (key(ip(192, 168, 2, 0), 24), 5),
    ];
    assert_eq!(got, want);
}

#[test]
fn cover_yields_ancestors_least_specific_first() {
    let pm = fixture();
    let q = net(ip(192, 168, 0, 0), 24);
    let mut c = pm.cover(&q);
    let mut got = Vec::new();
    while let Some((p, v)) = c.next() {
        got.push((p.to_vec(), *v));
    }
    let want = vec![
        (key(ip(192, 168, 0, 0), 22), 1),
        (key(ip(192, 168, 0, 0), 23), 2),
        (key(ip(192, 168, 0, 0), 24), 4),
    ];
    assert_eq!(got, want);
    let mut ck = pm.cover_keys(&q);
    let mut got_k = Vec::new();
    while let Some(p) = ck.next() {
        got_k.push(p.to_vec());
    }
    assert_eq!(got_k.len(), 3);
    let mut cv = pm.cover_values(&q);
    let mut got_v = Vec::new();
    while let Some(v) = cv.next() {
        got_v.push(*v);
    }
    assert_eq!(got_v, vec![1, 2, 4]);
}

#[test]
fn cover_of_uncovered_prefix_is_empty() {
    let pm = fixture();
    let q = net(ip(10, 0, 0, 0), 8);
    let mut c = pm.cover(&q);
    assert!(c.next().is_none());
}

#[test]
fn from_entries_matches_repeated_insert() {
    let entries = vec![
        (net(ip(192, 168, 0, 0), 22), 1),
        (net(ip(192, 168, 0, 0), 23), 2),
        (net(ip(192, 168, 0, 0), 23), 20),
    ];
    let pm = PrefixMap::from_entries(entries);
    assert_eq!(pm.get(&net(ip(192, 168, 0, 0), 22)), Some(&1));
    assert_eq!(pm.get(&net(ip(192, 168, 0, 0), 23)), Some(&20));
}

#[test]
fn shape_is_insertion_order_independent() {
    let forward = fixture();
    let mut backward: PrefixMap<BitPrefix, i32> = PrefixMap::new();
    backward.insert(net(ip(192, 168, 2, 0), 24), 5);
    backward.insert(net(ip(192, 168, 0, 0), 24), 4);
    backward.insert(net(ip(192, 168, 2, 0), 23), 3);
    backward.insert(net(ip(192, 168, 0, 0), 23), 2);
    backward.insert(net(ip(192, 168, 0, 0), 22), 1);
    let mut itf = forward.iter();
    let mut itb = backward.iter();
    assert_eq!(drain(&mut itf), drain(&mut itb));
}

#[test]
fn root_prefix_can_store_a_value() {
    let mut pm: PrefixMap<BitPrefix, i32> = PrefixMap::new();
    pm.insert(net(0, 0), 42);
    assert_eq!(pm.get(&net(0, 0)), Some(&42));
    let q = net(ip(1, 2, 3, 4), 32);
    let mut c = pm.cover(&q);
    assert_eq!(c.next().map(|(p, v)| (p.to_vec(), *v)), Some((key(0, 0), 42)));
}

#[test]
fn empty_map_has_nothing() {
    let pm: PrefixMap<BitPrefix, i32> = PrefixMap::new();
    let mut it = pm.iter();
    assert!(it.next().is_none());
    assert!(pm.get(&net(ip(1, 0, 0, 0), 8)).is_none());
}

#[test]
fn bit_prefix_operations() {
    let a = net(ip(192, 168, 0, 0), 22);
    let b = net(ip(192, 168, 0, 0), 23);
    let c = net(ip(192, 168, 2, 0), 23);
    assert!(a.eq(&a));
    assert!(!a.eq(&b));
    assert!(a.contains(&b));
    assert!(!b.contains(&a));
    assert!(a.contains(&a));
    assert!(!b.contains(&c));
    let l = b.longest_common_prefix(&c);
    assert_eq!(l.to_vec(), key(ip(192, 168, 0, 0), 22));
    let z = <BitPrefix as Prefix>::zero();
    assert_eq!(z.prefix_len(), 0);
    assert!(z.contains(&a));
    assert!(prefix_trie::to_right(&a, &c));
    assert!(!prefix_trie::to_right(&a, &b));
}

#[test]
fn get_mut_updates_in_place() {
    let mut pm: PrefixMap<BitPrefix, i32> = PrefixMap::new();
    pm.insert(net(ip(10, 0, 0, 0), 8), 1);
    if let Some(v) = pm.get_mut(&net(ip(10, 0, 0, 0), 8)) {
        *v = 99;
    }
    assert_eq!(pm.get(&net(ip(10, 0, 0, 0), 8)), Some(&99));
    assert!(pm.get_mut(&net(ip(11, 0, 0, 0), 8)).is_none());
}

#[test]
fn entry_occupied_and_vacant() {
    let mut pm: PrefixMap<BitPrefix, i32> = PrefixMap::new();
    pm.insert(net(ip(10, 0, 0, 0), 8), 1);
    let e = pm.entry(net(ip(10, 0, 0, 0), 8));
    assert_eq!(e.get(&pm), Some(&1));
    assert_eq!(e.key(&pm).to_vec(), key(ip(10, 0, 0, 0), 8));
    assert_eq!(e.insert(&mut pm, 2), Some(1));
    assert_eq!(pm.get(&net(ip(10, 0, 0, 0), 8)), Some(&2));

    let e = pm.entry(net(ip(11, 0, 0, 0), 8));
    assert!(e.get(&pm).is_none());
    assert_eq!(e.insert(&mut pm, 5), None);
    assert_eq!(pm.get(&net(ip(11, 0, 0, 0), 8)), Some(&5));
}

#[test]
fn entry_or_insert_family() {
    let mut pm: PrefixMap<BitPrefix, i32> = PrefixMap::new();
    let e = pm.entry(net(ip(10, 0, 0, 0), 8));
    *e.or_insert(&mut pm, 7) += 1;
    assert_eq!(pm.get(&net(ip(10, 0, 0, 0), 8)), Some(&8));
    let e = pm.entry(net(ip(10, 0, 0, 0), 8));
    *e.or_insert(&mut pm, 100) += 1;
    assert_eq!(pm.get(&net(ip(10, 0, 0, 0), 8)), Some(&9));

    let e = pm.entry(net(ip(12, 0, 0, 0), 8));
    *e.or_insert_with(&mut pm, || 40) += 2;
    assert_eq!(pm.get(&net(ip(12, 0, 0, 0), 8)), Some(&42));

    let e = pm.entry(net(ip(13, 0, 0, 0), 8));
    *e.or_default(&mut pm) += 3;
    assert_eq!(pm.get(&net(ip(13, 0, 0, 0), 8)), Some(&3));

    let e = pm.entry(net(ip(13, 0, 0, 0), 8));
    if let Some(v) = e.get_mut(&mut pm) {
        *v *= 10;
    }
    assert_eq!(pm.get(&net(ip(13, 0, 0, 0), 8)), Some(&30));
}

#[test]
fn entry_and_modify_touches_only_occupied() {
    let mut pm: PrefixMap<BitPrefix, i32> = PrefixMap::new();
    pm.insert(net(ip(10, 0, 0, 0), 8), 6);
    let e = pm.entry(net(ip(10, 0, 0, 0), 8));
    let e = e.and_modify(&mut pm, |v| v * 7);
    assert_eq!(e.get(&pm), Some(&42));
    let e = pm.entry(net(ip(11, 0, 0, 0), 8));
    let e = e.and_modify(&mut pm, |v| v + 1);
    assert!(e.get(&pm).is_none());
    assert!(pm.get(&net(ip(11, 0, 0, 0), 8)).is_none());
}

#[test]
fn iter_mut_and_values_mut_update_each_value_once() {
    let mut pm = fixture();
    let mut it = pm.iter_mut();
    while let Some((p, v)) = it.next(&mut pm) {
        assert!(!p.to_vec().is_empty());
        *v *= 10;
    }
    let mut it = pm.iter();
    let got = drain(&mut it);
    let want = vec![
        (key(ip(192, 168, 0, 0), 22), 10),
        (key(ip(192, 168, 0, 0), 23), 20),
        (key(ip(192, 168, 0, 0), 24), 40),
        (key(ip(192, 168, 2, 0), 23), 30),
        (key(ip(192, 168, 2, 0), 24), 50),
    ];
    assert_eq!(got, want);

    let mut vm = pm.values_mut();
    while let Some(v) = vm.next(&mut pm) {
        *v += 1;
    }
    let mut vs = pm.values();
    let mut got_v = Vec::new();
    while let Some(v) = vs.next() {
        got_v.push(*v);
    }
    assert_eq!(got_v, vec![11, 21, 41, 31, 51]);
}

#[test]
fn children_mut_updates_only_the_subtree() {
    let mut pm = fixture();
    let q = net(ip(192, 168, 0, 0), 23);
    let mut it = pm.children_mut(&q);
    while let Some((_, v)) = it.next(&mut pm) {
        *v *= 10;
    }
    let mut all = pm.iter();
    let got = drain(&mut all);
    let want = vec![
        (key(ip(192, 168, 0, 0), 22), 1),
        (key(ip(192, 168, 0, 0), 23), 20),
        (key(ip(192, 168, 0, 0), 24), 40),
        (key(ip(192, 168, 2, 0), 23), 3),
        (key(ip(192, 168, 2, 0), 24), 5),
    ];
    assert_eq!(got, want);
}

#[test]
fn as_view_traits_reach_the_same_entries() {
    let pm = fixture();
    let v = AsView::view(&pm);
    assert_eq!(v.value(), None);
    let sub = (&pm).view_at(net(ip(192, 168, 0, 0), 23)).unwrap();
    assert_eq!(sub.value(), Some(&2));
    let deeper = sub.view_at(net(ip(192, 168, 0, 0), 24)).unwrap();
    assert_eq!(deeper.value(), Some(&4));
    let vm = AsViewMut::view_mut(&pm);
    assert_eq!(vm.value(&pm), None);
}
