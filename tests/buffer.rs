use lsm_kv::buffer::Buffer;

#[test]
fn test_size() {
    let mut buf = Buffer::new(10);
    buf.put("helloworld".as_bytes().to_vec(), "worldhello".as_bytes().to_vec());
    buf.put("hello".as_bytes().to_vec(), "world".as_bytes().to_vec());
    assert_eq!(2, buf.entries.len());
    assert_eq!(10, buf.max_size);
    assert!(false == buf.full());
}

#[test]
fn test_put_get() {
    let mut buf = Buffer::new(10);
    for i in 0..10u8 {
        buf.put(vec![i], vec![i]);
    }
    for j in 0..10u8 {
        assert_eq!(vec![j], buf.get(&vec![j]).unwrap());
    }
}

#[test]
fn buffer_test_range() {
    let mut buf = Buffer::new(10);
    for i in 0..10u8 {
        buf.put(vec![i], vec![i]);
    }
    for j in 0..5u8 {
        assert_eq!(vec![j + 1], buf.range(&vec![1], &vec![5])[j as usize].value);
    }
}

#[test]
fn buffer_put_replaces_value() {
    let mut buf = Buffer::new(2);
    buf.put(vec![7], vec![1]);
    buf.put(vec![7], vec![2]);
    assert_eq!(1, buf.entries.len());
    assert_eq!(Some(vec![2]), buf.get(&vec![7]));
    assert_eq!(None, buf.get(&vec![8]));
}

#[test]
fn buffer_keeps_key_order() {
    let mut buf = Buffer::new(4);
    buf.put(vec![3], vec![30]);
    buf.put(vec![1], vec![10]);
    buf.put(vec![2, 0], vec![20]);
    buf.put(vec![2], vec![25]);
    let keys: Vec<Vec<u8>> = buf.entries.iter().map(|e| e.key.clone()).collect();
    assert_eq!(vec![vec![1], vec![2], vec![2, 0], vec![3]], keys);
    assert!(buf.full());
}

#[test]
fn buffer_range_bounds_inclusive_and_empty() {
    let mut buf = Buffer::new(10);
    for i in 0..10u8 {
        buf.put(vec![i], vec![i + 100]);
    }
    let r = buf.range(&vec![3], &vec![3]);
    assert_eq!(1, r.len());
    assert_eq!(vec![103], r[0].value);
    assert!(buf.range(&vec![5], &vec![2]).is_empty());
    assert!(buf.range(&vec![20], &vec![30]).is_empty());
}

#[test]
fn buffer_empty_clears() {
    let mut buf = Buffer::new(3);
    buf.put(vec![1], vec![1]);
    buf.empty();
    assert_eq!(0, buf.entries.len());
    assert_eq!(None, buf.get(&vec![1]));
    assert_eq!(3, buf.max_size);
}
