use prefix_trie::{BitPrefix, PrefixMap, TrieViewMut};

fn net(a: u32, len: usize) -> BitPrefix {
    let mut v: Vec<bool> = Vec::new();
    let mut i: usize = 0;
    while i < len {
        v.push((a >> (31 - i)) & 1 == 1);
        i += 1;
    }
    BitPrefix::new(v)
}

fn ip(a: u8, b: u8, c: u8, d: u8) -> u32 {
    ((a as u32) << 24) | ((b as u32) << 16) | ((c as u32) << 8) | (d as u32)
}

fn key(a: u32, len: usize) -> Vec<bool> {
    net(a, len).to_vec()
}

fn wide_fixture() -> PrefixMap<BitPrefix, usize> {
    PrefixMap::from_entries(vec![
        (net(ip(192, 168, 0, 0), 20), 1),
        (net(ip(192, 168, 0, 0), 22), 2),
        (net(ip(192, 168, 0, 0), 24), 3),
        (net(ip(192, 168, 2, 0), 23), 4),
        (net(ip(192, 168, 4, 0), 22), 5),
    ])
}

fn drain<'a>(
    it: &mut prefix_trie::Iter<'a, BitPrefix, usize>,
) -> Vec<(Vec<bool>, usize)> {
    let mut out = Vec::new();
    while let Some((p, v)) = it.next() {
        out.push((p.to_vec(), *v));
    }
    out
}

#[test]
fn view_find_descends_to_subtree() {
    let map = wide_fixture();
    let sub = map.view();
    let below = sub.find(net(ip(192, 168, 0, 0), 21)).unwrap();
    let mut ks = below.keys();
    let mut got = Vec::new();
    while let Some(p) = ks.next() {
        got.push(p.to_vec());
    }
    assert_eq!(
        got,
        vec![
            key(ip(192, 168, 0, 0), 22),
            key(ip(192, 168, 0, 0), 24),
            key(ip(192, 168, 2, 0), 23),
            key(ip(192, 168, 4, 0), 22),
        ]
    );
    let below = sub.find(net(ip(192, 168, 0, 0), 22)).unwrap();
    let mut ks = below.keys();
    let mut got = Vec::new();
    while let Some(p) = ks.next() {
        got.push(p.to_vec());
    }
    assert_eq!(
        got,
        vec![
            key(ip(192, 168, 0, 0), 22),
            key(ip(192, 168, 0, 0), 24),
            key(ip(192, 168, 2, 0), 23),
        ]
    );
    assert!(sub.find(net(ip(10, 0, 0, 0), 8)).is_none());
}

#[test]
fn view_find_exact_needs_a_stored_value() {
    let map = wide_fixture();
    let sub = map.view();
    assert!(sub.find_exact(&net(ip(192, 168, 0, 0), 21)).is_none());
    let v = sub.find_exact(&net(ip(192, 168, 0, 0), 22)).unwrap();
    assert_eq!(v.value(), Some(&2));
    assert_eq!(v.prefix().to_vec(), key(ip(192, 168, 0, 0), 22));
    let (p, val) = v.prefix_value().unwrap();
    assert_eq!(p.to_vec(), key(ip(192, 168, 0, 0), 22));
    assert_eq!(*val, 2);
}

#[test]
fn view_find_lpm_returns_most_specific_ancestor() {
    let map = wide_fixture();
    let sub = map.view();
    let v = sub.find_lpm(&net(ip(192, 168, 0, 0), 21)).unwrap();
    assert_eq!(v.prefix().to_vec(), key(ip(192, 168, 0, 0), 20));
    assert_eq!(v.value(), Some(&1));
    let v = sub.find_lpm(&net(ip(192, 168, 0, 0), 23)).unwrap();
    assert_eq!(v.prefix().to_vec(), key(ip(192, 168, 0, 0), 22));
    assert!(sub.find_lpm(&net(ip(10, 0, 0, 0), 8)).is_none());
}

#[test]
fn find_lpm_after_remove_falls_back_to_wider_prefix() {
    let mut map: PrefixMap<BitPrefix, usize> = PrefixMap::from_entries(vec![
        (net(ip(192, 168, 0, 0), 20), 9),
        (net(ip(192, 168, 0, 0), 22), 1),
    ]);
    map.remove(&net(ip(192, 168, 0, 0), 22));
    let sub = map.view();
    let v = sub.find_lpm(&net(ip(192, 168, 0, 0), 22)).unwrap();
    assert_eq!(v.prefix().to_vec(), key(ip(192, 168, 0, 0), 20));
    assert_eq!(v.value(), Some(&9));
}

#[test]
fn view_left_right_walk_branches() {
    let mut map: PrefixMap<BitPrefix, usize> = PrefixMap::new();
    map.insert(net(0, 1), 10);
    map.insert(net(1 << 31, 1), 11);
    let root = map.view();
    let l = root.left().unwrap();
    assert_eq!(l.value(), Some(&10));
    let r = root.right().unwrap();
    assert_eq!(r.value(), Some(&11));
}

#[test]
fn view_at_missing_region_is_none() {
    let map = wide_fixture();
    assert!(map.view_at(net(ip(10, 0, 0, 0), 8)).is_none());
    let v = map.view_at(net(ip(192, 168, 0, 0), 23)).unwrap();
    let mut it = v.iter();
    let got = drain(&mut it);
    assert_eq!(got, vec![(key(ip(192, 168, 0, 0), 24), 3)]);
}

#[test]
fn view_mut_split_yields_disjoint_subtrees() {
    let map: PrefixMap<BitPrefix, usize> = PrefixMap::from_entries(vec![
        (net(ip(192, 168, 0, 0), 21), 1),
        (net(ip(192, 168, 0, 0), 22), 2),
        (net(ip(192, 168, 0, 0), 24), 3),
        (net(ip(192, 168, 2, 0), 23), 4),
        (net(ip(192, 168, 4, 0), 22), 5),
    ]);
    let view = map.view_mut_at(net(ip(192, 168, 0, 0), 21)).unwrap();
    assert!(view.has_left(&map));
    assert!(view.has_right(&map));
    let (left, right) = view.split(&map);
    let left = left.unwrap();
    let right = right.unwrap();
    let mut itl = left.iter(&map);
    let got_l = drain(&mut itl);
    assert_eq!(
        got_l,
        vec![
            (key(ip(192, 168, 0, 0), 22), 2),
            (key(ip(192, 168, 0, 0), 24), 3),
            (key(ip(192, 168, 2, 0), 23), 4),
        ]
    );
    let mut itr = right.iter(&map);
    let got_r = drain(&mut itr);
    assert_eq!(got_r, vec![(key(ip(192, 168, 4, 0), 22), 5)]);
    for (k, _) in &got_l {
        assert!(!got_r.iter().any(|(k2, _)| k2 == k));
    }
}

#[test]
fn view_mut_remove_keeps_tree() {
    let mut map = wide_fixture();
    let view = map.view_mut_at(net(ip(192, 168, 0, 0), 22)).unwrap();
    assert_eq!(view.remove(&mut map), Some(2));
    let mut it = view.iter(&map);
    let got = drain(&mut it);
    assert_eq!(
        got,
        vec![
            (key(ip(192, 168, 0, 0), 24), 3),
            (key(ip(192, 168, 2, 0), 23), 4),
        ]
    );
    let mut it = map.iter();
    let got = drain(&mut it);
    assert_eq!(
        got,
        vec![
            (key(ip(192, 168, 0, 0), 20), 1),
            (key(ip(192, 168, 0, 0), 24), 3),
            (key(ip(192, 168, 2, 0), 23), 4),
            (key(ip(192, 168, 4, 0), 22), 5),
        ]
    );
}

#[test]
fn view_mut_find_family() {
    let map = wide_fixture();
    let vm: TrieViewMut<BitPrefix, usize> = map.view_mut();
    let vm = match vm.find(&map, net(ip(192, 168, 0, 0), 21)) {
        Ok(v) => v,
        Err(_) => panic!("find should succeed"),
    };
    let mut ks = vm.keys(&map);
    let mut got = Vec::new();
    while let Some(p) = ks.next() {
        got.push(p.to_vec());
    }
    assert_eq!(got.len(), 4);
    let vm2 = map.view_mut();
    assert!(vm2.find_exact(&map, &net(ip(192, 168, 0, 0), 21)).is_err());
    let vm3 = map.view_mut();
    let anc = match vm3.find_lpm(&map, &net(ip(192, 168, 0, 0), 23)) {
        Ok(v) => v,
        Err(_) => panic!("lpm should succeed"),
    };
    assert_eq!(anc.prefix(&map).to_vec(), key(ip(192, 168, 0, 0), 22));
    assert_eq!(anc.value(&map), Some(&2));
    let ro = anc.view(&map);
    assert_eq!(ro.value(), Some(&2));
    assert_eq!(anc.prefix_value(&map).map(|(_, v)| *v), Some(2));
}

#[test]
fn view_of_virtual_location_has_no_value() {
    let map: PrefixMap<BitPrefix, usize> = PrefixMap::from_entries(vec![
        (net(ip(192, 168, 0, 0), 24), 1),
    ]);
    // /23 is not materialised: the view there is virtual
    let v = map.view_at(net(ip(192, 168, 0, 0), 23)).unwrap();
    assert!(v.value().is_none());
    assert_eq!(v.prefix().to_vec(), key(ip(192, 168, 0, 0), 23));
    let mut it = v.iter();
    let got = drain(&mut it);
    assert_eq!(got, vec![(key(ip(192, 168, 0, 0), 24), 1)]);
}

#[test]
fn view_mut_value_mut_updates_through_cursor() {
    let mut map = wide_fixture();
    let view = map.view_mut_at(net(ip(192, 168, 0, 0), 22)).unwrap();
    if let Some(v) = view.value_mut(&mut map) {
        *v += 10;
    }
    assert_eq!(map.get(&net(ip(192, 168, 0, 0), 22)), Some(&12));
    if let Some((p, v)) = view.prefix_value_mut(&mut map) {
        assert_eq!(p.to_vec(), key(ip(192, 168, 0, 0), 22));
        *v += 100;
    }
    assert_eq!(map.get(&net(ip(192, 168, 0, 0), 22)), Some(&112));
    // a cursor at a virtual branching point holds no value to mutate
    let solo: PrefixMap<BitPrefix, usize> =
        PrefixMap::from_entries(vec![(net(ip(192, 168, 0, 0), 24), 1)]);
    let mut solo = solo;
    let v = solo.view_mut_at(net(ip(192, 168, 0, 0), 23)).unwrap();
    assert!(v.value_mut(&mut solo).is_none());
}

#[test]
fn view_mut_iter_mut_updates_only_the_subtree() {
    let mut map = wide_fixture();
    let view = map.view_mut_at(net(ip(192, 168, 0, 0), 22)).unwrap();
    let mut it = view.iter_mut(&map);
    while let Some((_, v)) = it.next(&mut map) {
        *v += 10;
    }
    let mut all = map.iter();
    let got = drain(&mut all);
    assert_eq!(
        got,
        vec![
            (key(ip(192, 168, 0, 0), 20), 1),
            (key(ip(192, 168, 0, 0), 22), 12),
            (key(ip(192, 168, 0, 0), 24), 13),
            (key(ip(192, 168, 2, 0), 23), 14),
            (key(ip(192, 168, 4, 0), 22), 5),
        ]
    );
    let view = map.view_mut_at(net(ip(192, 168, 2, 0), 23)).unwrap();
    let mut vm = view.values_mut(&map);
    while let Some(v) = vm.next(&mut map) {
        *v *= 2;
    }
    assert_eq!(map.get(&net(ip(192, 168, 2, 0), 23)), Some(&28));
    assert_eq!(map.get(&net(ip(192, 168, 0, 0), 24)), Some(&13));
}
