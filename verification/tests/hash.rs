use sdirstat::hash::{
    acc_merge_add, acc_merge_max, first_merge, fold, insert_with, insert_with_ord, link_merge,
    map_merge, set_merge, Acc, Csr, HMap, OMap,
};

#[test]
fn one_operation_on_the_hash_table() {
    let mut m: HMap<u64, u64> = HMap::new();
    insert_with(&mut m, 7, 3, acc_merge_add);
    insert_with(&mut m, 7, 4, acc_merge_add);
    insert_with(&mut m, 8, 1, acc_merge_add);
    assert_eq!(m.get(&7), Some(&7));
    assert_eq!(m.get(&8), Some(&1));
    assert_eq!(m.len(), 2);
    insert_with(&mut m, 7, 100, |new, old| new * 1000 + *old);
    assert_eq!(m.get(&7), Some(&100_007));
}

#[test]
fn one_operation_on_the_ordered_table() {
    let mut m: OMap<u64, u64> = OMap::new();
    insert_with_ord(&mut m, 3, 5, acc_merge_max);
    insert_with_ord(&mut m, 1, 9, acc_merge_max);
    insert_with_ord(&mut m, 3, 4, acc_merge_max);
    insert_with_ord(&mut m, 3, 6, acc_merge_max);
    let all: Vec<(u64, u64)> = m.into_iter().collect();
    assert_eq!(all, vec![(1, 9), (3, 6)]);
}

#[test]
fn merges() {
    assert!(!set_merge(false, &false));
    assert!(set_merge(true, &false));
    assert!(set_merge(false, &true));
    assert_eq!(first_merge(2, &1), 1);
    assert_eq!(map_merge(2, &1), 2);
    assert_eq!(acc_merge_add(2u64, &40), 42);
    assert_eq!(acc_merge_max(2u64, &40), 40);
    assert_eq!(acc_merge_max(41u64, &40), 41);
    assert_eq!(link_merge(vec![3, 4], &[1, 2]), vec![1, 2, 3, 4]);
}

#[test]
fn merging_into_a_set_is_idempotent() {
    for a in [false, true] {
        for b in [false, true] {
            let ab = set_merge(a, &b);
            assert_eq!(set_merge(a, &ab), ab);
            assert_eq!(set_merge(b, &a), ab);
        }
    }
}

#[test]
fn adding_is_a_monoid() {
    assert_eq!(acc_merge_add(0u64, &5), 5);
    assert_eq!(acc_merge_add(3u64, &5), acc_merge_add(5u64, &3));
    assert_eq!(
        acc_merge_add(1u64, &acc_merge_add(2u64, &3)),
        acc_merge_add(acc_merge_add(1u64, &2), &3)
    );
}

#[test]
fn fold_goes_from_the_right() {
    let xs = [1u64, 2, 3];
    let s = fold(|x: &u64, acc: String| format!("({x}{acc})"), String::from("e"), &xs);
    assert_eq!(s, "(1(2(3e)))");
    let none: [u64; 0] = [];
    assert_eq!(fold(|x: &u64, acc: u64| acc + *x, 9, &none), 9);
}

#[test]
fn accumulator_numbers() {
    let mut a = Acc::with_capacity(4);
    a.u64(0).byte(b' ').u64(u64::MAX).byte(b' ').oct(0o755).byte(b' ').hex(0xdeadbeef);
    assert_eq!(a.into_string(), "0 18446744073709551615 755 deadbeef");
}

#[test]
fn accumulator_text() {
    let mut a = Acc::with_capacity(0);
    assert!(a.is_empty());
    a.str("é").bytes(b"xy").byte(b'z');
    assert_eq!(a.len(), 5);
    assert_eq!(a.as_slice(), "éxyz".as_bytes());
    assert_eq!(a.into_bytes(), "éxyz".as_bytes().to_vec());
}

#[test]
fn accumulator_escapes() {
    let mut a = Acc::with_capacity(0);
    a.esc("a b%c\n\u{7f}é");
    assert_eq!(a.into_string(), "a%20b%25c%0A\u{7f}é");
    let mut b = Acc::with_capacity(0);
    b.esc_json("\"\\\n\r\t\u{1}\u{1f} é");
    assert_eq!(b.into_string(), "\\\"\\\\\\n\\r\\t\\u0001\\u001f é");
}

#[test]
fn accumulator_reads_broken_utf8() {
    let mut a = Acc::with_capacity(0);
    a.bytes(&[b'a', 0xff, b'b']);
    assert_eq!(a.into_string(), "a\u{fffd}b");
}

#[test]
fn adjacency_of_parents() {
    let parents = [0usize, 0, 0, 1, 1, 2];
    let c = Csr::from_parents(parents.len(), |i| parents[i]);
    assert_eq!(c.of(0), &[1, 2]);
    assert_eq!(c.of(1), &[3, 4]);
    assert_eq!(c.of(2), &[5]);
    assert!(c.of(3).is_empty());
    let d = Csr::from_parent_list(&parents.to_vec());
    for i in 0..parents.len() {
        assert_eq!(c.of(i), d.of(i));
    }
}
