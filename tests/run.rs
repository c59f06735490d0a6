use lsm_kv::data_type::{EntryT, ENTRY_SIZE, FILL_BYTE};
use lsm_kv::run::Run;

fn key(b: u8) -> Vec<u8> {
    vec![b; 8]
}

fn value(b: u8) -> Vec<u8> {
    vec![b; 32]
}

#[test]
fn run_test() {
    let mut run = Run::new(10, 1, 0, 102);
    let entry1 = EntryT { key: vec![97; 8], value: vec![98; 32] };
    let entry2 = EntryT { key: vec![98; 8], value: vec![99; 32] };
    run.map_write();
    run.put(&entry1);
    run.put(&entry2);
    run.unmap();
    let key1: Vec<u8> = vec![97; 8];
    let key2: Vec<u8> = vec![98; 8];
    println!("{}", std::str::from_utf8(&run.get(&key1).unwrap()).unwrap());
    println!("{}", std::str::from_utf8(&run.get(&key2).unwrap()).unwrap());
    assert_eq!(Some(vec![98; 32]), run.get(&key1));
    assert_eq!(Some(vec![99; 32]), run.get(&key2));
}

fn filled(n: u8, per_page: usize) -> Run {
    let mut run = Run::new(64, 2, 1, per_page);
    run.map_write();
    for i in 0..n {
        run.put(&EntryT { key: key(10 + 2 * i), value: value(i) });
    }
    run.unmap();
    run
}

#[test]
fn run_get_across_pages() {
    let run = filled(20, 3);
    assert_eq!(7, run.fence_pointers.len());
    for i in 0..20u8 {
        assert_eq!(Some(value(i)), run.get(&key(10 + 2 * i)));
        assert_eq!(None, run.get(&key(11 + 2 * i)));
    }
    assert_eq!(None, run.get(&key(0)));
    assert_eq!(None, run.get(&key(200)));
    assert_eq!(key(48), run.max_key);
}

#[test]
fn run_range_across_pages() {
    let run = filled(20, 3);
    let r = run.range(&key(15), &key(31));
    let keys: Vec<u8> = r.iter().map(|e| e.key[0]).collect();
    assert_eq!(vec![16, 18, 20, 22, 24, 26, 28, 30], keys);
    assert!(run.range(&key(100), &key(120)).is_empty());
    assert!(run.range(&key(0), &key(5)).is_empty());
    assert_eq!(20, run.range(&key(0), &key(255)).len());
}

#[test]
fn run_image_round_trip() {
    let run = filled(5, 2);
    let img = run.image();
    assert_eq!(64 * ENTRY_SIZE, img.len());
    assert_eq!(run.file_len(), img.len());
    assert!(img[5 * ENTRY_SIZE..].iter().all(|b| *b == FILL_BYTE));
    let back = Run::from_image(&img, 64, 2, 1, 2);
    assert_eq!(5, back.size);
    for i in 0..5u8 {
        assert_eq!(Some(value(i)), back.get(&key(10 + 2 * i)));
    }
    assert_eq!(run.fence_pointers, back.fence_pointers);
}

#[test]
fn run_from_image_stops_at_disorder() {
    let mut img: Vec<u8> = Vec::new();
    for k in [5u8, 9, 7] {
        img.extend(key(k));
        img.extend(value(k));
    }
    let back = Run::from_image(&img, 10, 1, 0, 4);
    assert_eq!(2, back.size);
    assert_eq!(None, back.get(&key(7)));
}

#[test]
fn run_map_read_slices() {
    let run = filled(6, 4);
    let all = run.map_read_default();
    assert_eq!(6, all.len());
    let part = run.map_read(2 * ENTRY_SIZE, ENTRY_SIZE);
    let keys: Vec<u8> = part.iter().map(|e| e.key[0]).collect();
    assert_eq!(vec![12, 14], keys);
}
