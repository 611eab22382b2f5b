use rucrack::keypool::KeyPool;

fn pool(cap: u8, start: u8, ms: Vec<u8>, dynamic: Vec<u8>, ls: Vec<u8>) -> KeyPool {
    KeyPool {
        dynamic_ms_cap: cap,
        dynamic_ms_start: start,
        static_ms_bytes: ms,
        dynamic_bytes: dynamic,
        static_ls_bytes: ls,
    }
}

#[test]
fn test_split_key() {
    let mut key = KeyPool::new(14, 2, 0);
    let mut keys = key.split_key(2);

    println!("{:?}", keys);
    assert!(keys[0].dynamic_bytes[0] == 0);
    assert!(keys[0].dynamic_ms_cap == 128);
    assert!(keys[1].dynamic_bytes[0] == 128);
    assert!(keys[1].dynamic_ms_cap == 0);

    key = keys[0].clone();
    keys = key.split_key(2);

    assert!(keys[0].dynamic_bytes[0] == 0);
    assert!(keys[0].dynamic_ms_cap == 64);
    assert!(keys[1].dynamic_bytes[0] == 64);
    assert!(keys[1].dynamic_ms_cap == 128);
}

#[test]
fn new_pool_is_all_zero() {
    let k = KeyPool::new(3, 2, 1);
    assert_eq!(k.dynamic_ms_cap, 0);
    assert_eq!(k.dynamic_ms_start, 0);
    assert_eq!(k.static_ms_bytes, vec![0, 0, 0]);
    assert_eq!(k.dynamic_bytes, vec![0, 0]);
    assert_eq!(k.static_ls_bytes, vec![0]);
}

#[test]
fn inc_counts_with_carry() {
    let k = pool(9, 4, vec![7], vec![0, 255], vec![8]);
    let n = k.inc();
    assert_eq!(n.dynamic_bytes, vec![1, 0]);
    assert_eq!(n.static_ms_bytes, vec![7]);
    assert_eq!(n.static_ls_bytes, vec![8]);
    assert_eq!(n.dynamic_ms_cap, 9);
    assert_eq!(n.dynamic_ms_start, 4);
    // the pool it was called on is unchanged
    assert_eq!(k.dynamic_bytes, vec![0, 255]);
}

#[test]
fn inc_without_carry() {
    let k = pool(0, 0, vec![], vec![3, 4, 5], vec![]);
    assert_eq!(k.inc().dynamic_bytes, vec![3, 4, 6]);
}

#[test]
fn inc_wraps_the_whole_counter() {
    let k = pool(0, 0, vec![], vec![255, 255, 255], vec![]);
    assert_eq!(k.inc().dynamic_bytes, vec![0, 0, 0]);
    let one = pool(0, 0, vec![], vec![255], vec![]);
    assert_eq!(one.inc().dynamic_bytes, vec![0]);
}

#[test]
fn inc_adds_one_to_the_value() {
    // value(s) + 1 modulo 256^len, checked over a stretch of values
    let mut k = pool(0, 0, vec![], vec![0, 250], vec![]);
    for expected in 251u32..600 {
        k = k.inc();
        let v = k.dynamic_bytes[0] as u32 * 256 + k.dynamic_bytes[1] as u32;
        assert_eq!(v, expected);
    }
}

#[test]
fn is_cap_reached_compares_first_byte() {
    assert!(pool(5, 0, vec![], vec![5, 0], vec![]).is_cap_reached());
    assert!(!pool(5, 0, vec![], vec![4, 255], vec![]).is_cap_reached());
}

#[test]
fn is_done_needs_cap_and_all_max() {
    assert!(pool(5, 0, vec![], vec![5, 255, 255], vec![]).is_done());
    assert!(!pool(5, 0, vec![], vec![5, 254, 255], vec![]).is_done());
    assert!(!pool(5, 0, vec![], vec![5, 255, 0], vec![]).is_done());
    assert!(!pool(5, 0, vec![], vec![4, 255, 255], vec![]).is_done());
    assert!(pool(5, 0, vec![], vec![5], vec![]).is_done());
}

#[test]
fn to_vec_concatenates_parts() {
    let k = pool(0, 0, vec![1, 2], vec![3], vec![4, 5]);
    assert_eq!(k.to_vec(), vec![1, 2, 3, 4, 5]);
    assert_eq!(KeyPool::new(0, 0, 0).to_vec(), Vec::<u8>::new());
}

#[test]
fn next_steps_until_done() {
    let mut k = pool(1, 0, vec![], vec![0, 255], vec![]);
    let n = k.next().unwrap();
    assert_eq!(n.dynamic_bytes, vec![1, 0]);
    // the pool itself does not move
    assert_eq!(k.dynamic_bytes, vec![0, 255]);
    let mut done = pool(1, 0, vec![], vec![1, 255], vec![]);
    assert!(done.next().is_none());
}

#[test]
fn to_string_shows_cap_start_and_dynamic_bytes() {
    let k = pool(128, 0, vec![9], vec![0, 255, 7], vec![]);
    assert_eq!(k.to_string(), "(128,0:[0, 255, 7])");
    assert_eq!(KeyPool::new(1, 0, 1).to_string(), "(0,0:[])");
    let k2 = pool(7, 42, vec![], vec![10], vec![]);
    assert_eq!(k2.to_string(), "(7,42:[10])");
}

#[test]
fn counting_reaches_done_after_exact_steps() {
    // cap 1, value 254 of the target 1*256 + 255 = 511: 257 keys are left
    let mut k = pool(1, 0, vec![], vec![0, 254], vec![]);
    let mut steps = 0u32;
    while !k.is_done() {
        k = k.inc();
        steps += 1;
    }
    assert_eq!(steps, 257);
    assert_eq!(k.dynamic_bytes, vec![1, 255]);
}

#[test]
fn counting_past_the_cap_wraps_round() {
    // starting past the end: the count goes round the wheel of 256 values
    let mut k = pool(0, 0, vec![], vec![1], vec![]);
    let mut steps = 0u32;
    while !k.is_done() {
        k = k.inc();
        steps += 1;
    }
    assert_eq!(steps, 255);
}

#[test]
fn split_key_partitions_are_contiguous() {
    let k = KeyPool::new(0, 1, 0);
    let parts = k.split_key(4);
    let starts: Vec<u8> = parts.iter().map(|p| p.dynamic_bytes[0]).collect();
    let caps: Vec<u8> = parts.iter().map(|p| p.dynamic_ms_cap).collect();
    assert_eq!(starts, vec![0, 64, 128, 192]);
    assert_eq!(caps, vec![64, 128, 192, 0]);
    for i in 0..3 {
        assert_eq!(parts[i].dynamic_ms_cap, parts[i + 1].dynamic_ms_start);
    }
}

#[test]
fn split_key_keeps_fixed_and_lower_bytes() {
    let k = pool(0, 0, vec![1, 2], vec![16, 9, 8], vec![3]);
    let parts = k.split_key(2);
    // (256 - 16) / 2 = 120
    assert_eq!(parts[0].dynamic_bytes, vec![16, 9, 8]);
    assert_eq!(parts[0].dynamic_ms_cap, 136);
    assert_eq!(parts[1].dynamic_bytes, vec![136, 9, 8]);
    assert_eq!(parts[1].dynamic_ms_start, 136);
    assert_eq!(parts[1].dynamic_ms_cap, 0);
    for p in &parts {
        assert_eq!(p.static_ms_bytes, vec![1, 2]);
        assert_eq!(p.static_ls_bytes, vec![3]);
    }
}

#[test]
fn split_key_into_one_part_keeps_the_full_wheel() {
    let k = KeyPool::new(0, 2, 0);
    let parts = k.split_key(1);
    assert_eq!(parts.len(), 1);
    assert_eq!(parts[0].dynamic_ms_cap, 0);
    assert_eq!(parts[0].dynamic_ms_start, 0);
}

#[test]
fn split_key_uneven_leaves_the_remainder() {
    let k = KeyPool::new(0, 1, 0);
    let parts = k.split_key(3);
    let caps: Vec<u8> = parts.iter().map(|p| p.dynamic_ms_cap).collect();
    assert_eq!(caps, vec![85, 170, 255]);
}

#[test]
fn split_key_capped_pool() {
    let k = pool(255, 0, vec![], vec![0], vec![]);
    let parts = k.split_key(1);
    // (255 + 1) / 1 truncates to a step of 0
    assert_eq!(parts[0].dynamic_ms_cap, 0);
    let parts = pool(99, 0, vec![], vec![0], vec![]).split_key(3);
    let caps: Vec<u8> = parts.iter().map(|p| p.dynamic_ms_cap).collect();
    assert_eq!(caps, vec![33, 66, 99]);
}
