use lsm_kv::helper::get_files_name;
use lsm_kv::lsm::LSMTree;

fn reload(old: &LSMTree, name: &str, buf: u64, depth: u64, fanout: u64) -> LSMTree {
    let mut fresh = LSMTree::new(buf, depth, fanout, 1, 4, name.to_string());
    for (d, level) in old.levels.iter().enumerate() {
        for run in level.runs.iter() {
            let image = run.image();
            assert!(fresh.load_run(d, &image));
        }
    }
    fresh
}

#[test]
fn test_close_load() {
    let test_size = 1000;
    let mut lsm = LSMTree::new(8, 5, 8, 1, 4, "close_load_test".to_string());
    for i in 0..test_size {
        lsm.put(&i.to_string(), &i.to_string());
    }
    for j in 0..test_size {
        assert_eq!(Some(j.to_string()), lsm.get(&j.to_string()));
    }
    lsm.close();
    println!("close done");
    let lsm2 = reload(&lsm, "close_load_test", 8, 5, 8);
    println!("load done");
    for j in 0..test_size {
        assert_eq!(Some(j.to_string()), lsm2.get(&j.to_string()));
    }
}

#[test]
fn lsm_test_range() {
    let mut lsm = LSMTree::new(100, 5, 10, 1, 4, "hello".to_string());
    lsm.put("hello", "world");
    lsm.put("facebook", "google");
    lsm.put("amazon", "linkedin");
    assert_eq!(vec!["linkedin", "google"], lsm.range("amazon", "facebook"));
}

#[test]
fn test_clear() {
    let test_size = 1000;
    let mut lsm = LSMTree::new(8, 5, 8, 1, 4, "clear_test".to_string());
    for i in 0..test_size {
        lsm.put(&i.to_string(), &i.to_string());
    }
    lsm.clear();
    for j in 0..test_size {
        assert_eq!(None, lsm.get(&j.to_string()));
    }
}

#[test]
fn scenario_small_buffer_flush() {
    let mut lsm = LSMTree::new(2, 2, 2, 1, 1, "scenario".to_string());
    assert!(lsm.put("a", "1"));
    assert!(lsm.put("b", "2"));
    assert!(lsm.put("c", "3"));
    assert_eq!(1, lsm.levels[0].runs.len());
    assert_eq!(2, lsm.levels[0].runs[0].size);
    assert_eq!(1, lsm.buffer.entries.len());
    assert_eq!(Some("1".to_string()), lsm.get("a"));
    assert_eq!(Some("2".to_string()), lsm.get("b"));
    assert_eq!(Some("3".to_string()), lsm.get("c"));
    assert_eq!(None, lsm.get("z"));
}

#[test]
fn put_then_get_in_buffer() {
    let mut lsm = LSMTree::new(4, 2, 2, 1, 1, "put_get".to_string());
    assert!(lsm.put("k", "v1"));
    assert_eq!(Some("v1".to_string()), lsm.get("k"));
    assert!(lsm.put("k", "v2"));
    assert_eq!(Some("v2".to_string()), lsm.get("k"));
}

#[test]
fn delete_hides_key_everywhere() {
    let mut lsm = LSMTree::new(2, 3, 2, 1, 1, "delete".to_string());
    lsm.put("x", "1");
    lsm.put("y", "2");
    lsm.put("z", "3");
    assert!(lsm.del("x"));
    assert_eq!(None, lsm.get("x"));
    lsm.del("never");
    assert_eq!(None, lsm.get("never"));
    for i in 0..10 {
        lsm.put(&format!("f{}", i), "fill");
    }
    assert_eq!(None, lsm.get("x"));
    assert_eq!(Some("2".to_string()), lsm.get("y"));
}

#[test]
fn delete_twice_same_as_once() {
    let mut a = LSMTree::new(2, 3, 2, 1, 1, "del_once".to_string());
    let mut b = LSMTree::new(2, 3, 2, 1, 1, "del_twice".to_string());
    for t in [&mut a, &mut b] {
        t.put("p", "1");
        t.put("q", "2");
    }
    a.del("p");
    b.del("p");
    b.del("p");
    assert_eq!(a.get("p"), b.get("p"));
    assert_eq!(a.get("q"), b.get("q"));
    assert_eq!(a.range("a", "z"), b.range("a", "z"));
}

#[test]
fn newest_value_wins_after_flush() {
    let mut lsm = LSMTree::new(2, 3, 2, 1, 1, "newest".to_string());
    lsm.put("k", "old");
    lsm.put("m", "x");
    lsm.put("n", "y");
    assert_eq!(1, lsm.levels[0].runs.len());
    lsm.put("k", "new");
    assert_eq!(Some("new".to_string()), lsm.get("k"));
    for i in 0..6 {
        lsm.put(&format!("z{}", i), "fill");
    }
    assert_eq!(Some("new".to_string()), lsm.get("k"));
}

#[test]
fn range_matches_sorted_reference() {
    let mut lsm = LSMTree::new(3, 4, 2, 1, 1, "range_ref".to_string());
    let mut reference: std::collections::BTreeMap<String, String> = std::collections::BTreeMap::new();
    for i in 0..40u32 {
        let k = format!("{:02}", (i * 7) % 31);
        let v = format!("v{}", i);
        lsm.put(&k, &v);
        reference.insert(k, v);
        if i % 5 == 0 {
            let d = format!("{:02}", (i * 3) % 31);
            lsm.del(&d);
            reference.remove(&d);
        }
    }
    let got = lsm.range("05", "20");
    let want: Vec<String> = reference
        .range("05".to_string()..="20".to_string())
        .map(|(_, v)| v.clone())
        .collect();
    assert_eq!(want, got);
    assert!(lsm.range("20", "05").is_empty());
}

#[test]
fn compaction_keeps_every_value() {
    let mut lsm = LSMTree::new(2, 5, 2, 1, 1, "compaction".to_string());
    for i in 0..50u32 {
        assert!(lsm.put(&format!("{}", i), &format!("v{}", i)));
    }
    for i in (0..50u32).step_by(3) {
        lsm.del(&format!("{}", i));
    }
    for i in 0..50u32 {
        let expected = if i % 3 == 0 { None } else { Some(format!("v{}", i)) };
        assert_eq!(expected, lsm.get(&format!("{}", i)));
    }
    assert!(lsm.levels.iter().skip(2).any(|l| !l.runs.is_empty()));
}

#[test]
fn put_fails_when_tree_is_full() {
    let mut lsm = LSMTree::new(1, 1, 1, 1, 1, "full".to_string());
    assert!(lsm.put("a", "1"));
    assert!(lsm.put("b", "2"));
    assert!(!lsm.put("c", "3"));
    assert_eq!(None, lsm.get("c"));
    assert_eq!(Some("1".to_string()), lsm.get("a"));
    assert_eq!(Some("2".to_string()), lsm.get("b"));
    assert!(lsm.put("b", "4") == false);
    assert!(!lsm.del("a"));
    assert_eq!(Some("1".to_string()), lsm.get("a"));
}

#[test]
fn close_flushes_partial_buffer() {
    let mut lsm = LSMTree::new(10, 2, 2, 1, 1, "close_partial".to_string());
    lsm.put("one", "1");
    lsm.put("two", "2");
    lsm.close();
    assert_eq!(0, lsm.buffer.entries.len());
    assert_eq!(1, lsm.levels[0].runs.len());
    let again = reload(&lsm, "close_partial", 10, 2, 2);
    assert_eq!(Some("1".to_string()), again.get("one"));
    assert_eq!(Some("2".to_string()), again.get("two"));
}

#[test]
fn load_run_refuses_missing_or_full_level() {
    let mut lsm = LSMTree::new(2, 1, 1, 1, 1, "load_full".to_string());
    let image: Vec<u8> = Vec::new();
    assert!(!lsm.load_run(3, &image));
    assert!(lsm.load_run(0, &image));
    assert!(!lsm.load_run(0, &image));
}

#[test]
fn sizes_fit_checks_word_size() {
    assert!(LSMTree::sizes_fit(100, 5, 10, 10));
    assert!(!LSMTree::sizes_fit(u64::MAX / 2, 1, 10, 1));
    assert!(!LSMTree::sizes_fit(1 << 40, 3, 1 << 20, 1));
}

#[test]
fn file_names_join_parts() {
    let name = get_files_name(&"/tmp/tree".to_string(), &"7".to_string(), "run-", 32);
    assert_eq!("/tmp/tree/run-7", name);
}

#[test]
fn runs_are_listed_newest_first() {
    let mut lsm = LSMTree::new(1, 3, 2, 1, 1, "listing".to_string());
    assert_eq!(0, lsm.num_runs());
    assert!(lsm.get_run(0).is_none());
    lsm.put("a", "1");
    lsm.put("b", "2");
    lsm.put("c", "3");
    assert_eq!(2, lsm.num_runs());
    let newest = lsm.get_run(0).unwrap();
    assert_eq!(Some(b"                               2".to_vec()), newest.get(&b"       b".to_vec()));
    let older = lsm.get_run(1).unwrap();
    assert_eq!(None, older.get(&b"       b".to_vec()));
    assert!(lsm.get_run(2).is_none());
}

#[test]
fn padding_is_stripped_from_values() {
    let mut lsm = LSMTree::new(4, 2, 2, 1, 1, "padding".to_string());
    lsm.put("k", "a b");
    assert_eq!(Some("a b".to_string()), lsm.get("k"));
    lsm.put("e", "");
    assert_eq!(Some("".to_string()), lsm.get("e"));
    lsm.put("t", "x ");
    assert_eq!(Some("x".to_string()), lsm.get("t"));
    assert_eq!(vec!["".to_string(), "a b".to_string(), "x".to_string()], lsm.range("a", "z"));
}

#[test]
fn reload_keeps_all_space_entry() {
    let mut lsm = LSMTree::new(4, 2, 2, 1, 1, "all_space".to_string());
    assert!(lsm.put("", ""));
    assert!(lsm.put("a", "1"));
    lsm.close();
    assert_eq!(2, lsm.levels[0].runs[0].size);
    let again = reload(&lsm, "all_space", 4, 2, 2);
    assert_eq!(2, again.levels[0].runs[0].size);
    assert_eq!(Some("".to_string()), again.get(""));
    assert_eq!(Some("1".to_string()), again.get("a"));
}
