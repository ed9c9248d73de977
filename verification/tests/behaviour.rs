use lkv::OTM;

#[test]
fn absent_key_is_empty() {
    let mut c: OTM<u32, u32> = OTM::new();
    assert!(c.get(7).is_empty());
    assert!(c.get_mut(7).is_empty());
    c.insert(1, 10);
    assert!(c.get(7).is_empty());
    assert!(c.get_mut(7).is_empty());
    assert_eq!(c.num_keys(), 1);
}

#[test]
fn first_insert() {
    let mut c = OTM::new();
    c.insert("k", 5);
    assert_eq!(c.get("k"), &[5]);
    assert_eq!(c.num_keys(), 1);
}

#[test]
fn same_key_twice() {
    let mut c = OTM::new();
    c.insert("k", 1);
    c.insert("k", 2);
    assert_eq!(c.get("k"), &[1, 2]);
    assert_eq!(c.num_keys(), 1);
}

#[test]
fn duplicate_values_are_kept() {
    let mut c = OTM::new();
    c.insert(3, 9);
    c.insert(3, 9);
    c.insert_many(3, vec![9, 9]);
    assert_eq!(c.get(3), &[9, 9, 9, 9]);
}

#[test]
fn get_mut_is_seen_by_get() {
    let mut c = OTM::new();
    c.insert_many(1, vec![10, 20, 30]);
    c.insert(2, 40);
    {
        let vals = c.get_mut(1);
        assert_eq!(vals.len(), 3);
        vals[1] = 21;
        vals[2] = 31;
    }
    assert_eq!(c.get(1), &[10, 21, 31]);
    assert_eq!(c.get(2), &[40]);
    assert_eq!(c.num_keys(), 2);
}

#[test]
fn get_mut_of_absent_key_adds_nothing() {
    let mut c: OTM<u8, u8> = OTM::new();
    c.insert(1, 1);
    assert_eq!(c.get_mut(2).len(), 0);
    assert_eq!(c.num_keys(), 1);
    assert_eq!(c.get(1), &[1]);
}

#[test]
fn insert_many_is_two_inserts() {
    let mut many = OTM::new();
    many.insert_many("greeting", vec!["hello", "world"]);
    assert_eq!(many.get("greeting"), &["hello", "world"]);

    let mut two = OTM::new();
    two.insert("greeting", "hello");
    two.insert("greeting", "world");
    assert_eq!(two.get("greeting"), many.get("greeting"));
    assert_eq!(two.num_keys(), many.num_keys());
}

#[test]
fn insert_many_appends_to_present_key() {
    let mut c = OTM::new();
    c.insert(1, 1);
    c.insert(2, 2);
    c.insert_many(1, vec![3, 4]);
    assert_eq!(c.get(1), &[1, 3, 4]);
    assert_eq!(c.get(2), &[2]);
    assert_eq!(c.num_keys(), 2);
}

#[test]
fn insert_many_of_nothing_adds_the_key() {
    let mut c: OTM<u8, u8> = OTM::new();
    c.insert_many(1, Vec::new());
    assert_eq!(c.num_keys(), 1);
    assert!(c.get(1).is_empty());
    c.insert_many(1, Vec::new());
    assert_eq!(c.num_keys(), 1);
}

#[test]
fn merge_adds_new_key() {
    let mut c = OTM::new();
    c.insert(0, 1);
    c.insert(0, 0);
    let mut o = OTM::new();
    o.insert(1, 1);
    c.merge(o);
    assert_eq!(c.get(0), &[1, 0]);
    assert_eq!(c.get(1), &[1]);
    assert_eq!(c.num_keys(), 2);
}

#[test]
fn merge_appends_to_shared_key() {
    let mut c = OTM::new();
    c.insert(1, 10);
    c.insert(2, 20);
    let mut o = OTM::new();
    o.insert(3, 30);
    o.insert(2, 21);
    o.insert(2, 22);
    o.insert(4, 40);
    c.merge(o);
    assert_eq!(c.get(1), &[10]);
    assert_eq!(c.get(2), &[20, 21, 22]);
    assert_eq!(c.get(3), &[30]);
    assert_eq!(c.get(4), &[40]);
    let keys: Vec<i32> = (&c).into_iter().map(|e| e.0).collect();
    assert_eq!(keys, vec![1, 2, 3, 4]);
}

#[test]
fn merge_of_empty_changes_nothing() {
    let mut c = OTM::new();
    c.insert(1, 10);
    c.merge(OTM::new());
    assert_eq!(c.num_keys(), 1);
    assert_eq!(c.get(1), &[10]);

    let mut e = OTM::new();
    e.merge(c);
    assert_eq!(e.num_keys(), 1);
    assert_eq!(e.get(1), &[10]);
}

fn sample(entries: &[(u8, &[u8])]) -> OTM<u8, u8> {
    let mut c = OTM::new();
    for (k, vs) in entries {
        c.insert_many(*k, vs.to_vec());
    }
    c
}

#[test]
fn merge_groupings_agree_on_content() {
    let a: &[(u8, &[u8])] = &[(1, &[1]), (2, &[2, 2])];
    let b: &[(u8, &[u8])] = &[(3, &[3]), (1, &[4])];
    let c: &[(u8, &[u8])] = &[(4, &[5]), (3, &[6]), (2, &[7])];

    let mut left = sample(a);
    left.merge(sample(b));
    left.merge(sample(c));

    let mut bc = sample(b);
    bc.merge(sample(c));
    let mut right = sample(a);
    right.merge(bc);

    assert_eq!(left.num_keys(), 4);
    assert_eq!(right.num_keys(), 4);
    for k in 0..6u8 {
        assert_eq!(left.get(k), right.get(k));
    }
    assert_eq!(left.get(1), &[1, 4]);
    assert_eq!(left.get(2), &[2, 2, 7]);
    assert_eq!(left.get(3), &[3, 6]);
    assert_eq!(left.get(4), &[5]);
}

#[test]
fn iteration_follows_first_insertion() {
    let mut c = OTM::new();
    c.insert(5, 'a');
    c.insert(3, 'b');
    c.insert(5, 'c');
    c.insert(9, 'd');
    c.insert(3, 'e');

    let by_ref: Vec<(i32, Vec<char>)> = (&c).into_iter().map(|e| (e.0, e.1.clone())).collect();
    assert_eq!(by_ref, vec![(5, vec!['a', 'c']), (3, vec!['b', 'e']), (9, vec!['d'])]);

    let by_mut: Vec<(i32, Vec<char>)> =
        (&mut c).into_iter().map(|e| (*e.0, e.1.to_vec())).collect();
    assert_eq!(by_mut, by_ref);

    let owned: Vec<(i32, Vec<char>)> = c.into_iter().collect();
    assert_eq!(owned, by_ref);
}

#[test]
fn mutable_iteration_is_seen_by_get() {
    let mut c = OTM::new();
    c.insert_many(1, vec![1, 2]);
    c.insert_many(2, vec![3]);
    for (k, vals) in &mut c {
        for v in vals.iter_mut() {
            *v += 10 * *k;
        }
    }
    assert_eq!(c.get(1), &[11, 12]);
    assert_eq!(c.get(2), &[23]);
    assert_eq!(c.num_keys(), 2);
}

#[test]
fn iteration_of_empty_yields_nothing() {
    let mut c: OTM<u8, u8> = OTM::new();
    assert_eq!((&c).into_iter().count(), 0);
    assert_eq!((&mut c).into_iter().count(), 0);
    assert_eq!(c.into_iter().count(), 0);
}

#[test]
fn overwrite_then_insert() {
    let mut c = OTM::new();
    c.insert(0, 0);
    c.get_mut(0)[0] = 1;
    c.insert(0, 0);
    assert_eq!(c.get(0), &[1, 0]);
}

#[derive(Debug)]
struct Folded(&'static str);

impl PartialEq for Folded {
    fn eq(&self, other: &Self) -> bool {
        self.0.eq_ignore_ascii_case(other.0)
    }
}

impl Eq for Folded {}

#[test]
fn first_inserted_key_is_kept() {
    let mut c = OTM::new();
    c.insert(Folded("Key"), 1);
    c.insert(Folded("KEY"), 2);
    assert_eq!(c.num_keys(), 1);
    assert_eq!(c.get(Folded("key")), &[1, 2]);
    let kept: Vec<&'static str> = (&c).into_iter().map(|e| e.0.0).collect();
    assert_eq!(kept, vec!["Key"]);
}
