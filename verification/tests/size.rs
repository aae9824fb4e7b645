use sdirstat::size::human;

fn by_float(b: u64) -> String {
    let units = ["B", "K", "M", "G", "T", "P"];
    let mut v = b as f64;
    let mut i = 0;
    while v >= 1024.0 && i < 5 {
        v /= 1024.0;
        i += 1;
    }
    if i == 0 {
        format!("{b} B")
    } else {
        format!("{v:.1} {}", units[i])
    }
}

#[test]
fn exact_values() {
    assert_eq!(human(0), "0 B");
    assert_eq!(human(1023), "1023 B");
    assert_eq!(human(1024), "1.0 K");
    assert_eq!(human(1536), "1.5 K");
    assert_eq!(human(1 << 20), "1.0 M");
    assert_eq!(human(5 * (1 << 30)), "5.0 G");
    assert_eq!(human(1 << 40), "1.0 T");
    assert_eq!(human(1 << 50), "1.0 P");
    assert_eq!(human(u64::MAX), "16384.0 P");
}

#[test]
fn just_below_a_unit() {
    assert_eq!(human((1 << 20) - 1), "1024.0 K");
}

#[test]
fn agrees_with_floating_point() {
    let mut values: Vec<u64> = Vec::new();
    for shift in 0..64 {
        for d in 0..60u64 {
            values.push((1u64 << shift).wrapping_add(d));
            values.push((1u64 << shift).wrapping_sub(d));
            values.push((3u64 << shift) / 20 + d);
        }
    }
    // halves of a tenth of a unit
    for unit in [10, 20, 30, 40, 50] {
        for k in 0..200u64 {
            let half = ((1u128 << unit) * (20 + 2 * k as u128 + 1) / 20) as u64;
            values.push(half.wrapping_sub(1));
            values.push(half);
            values.push(half.wrapping_add(1));
        }
    }
    let mut x = 88172645463325252u64;
    for _ in 0..20000 {
        x ^= x << 13;
        x ^= x >> 7;
        x ^= x << 17;
        values.push(x);
        values.push(x >> 20);
        values.push(x >> 40);
    }
    for b in values {
        assert_eq!(human(b), by_float(b), "{b}");
    }
}
