use lsm_kv::data_type::Entry;
use lsm_kv::merge::{MergeContext, MergeEntry};

fn e(k: u8, v: u8) -> Entry {
    Entry::new(vec![k], vec![v])
}

#[test]
fn test_merge_entry_cmp() {
    println!("hello merge");
}

#[test]
fn merge_newest_input_wins_and_keys_ascend() {
    let mut ctx = MergeContext::new();
    ctx.add(vec![e(1, 10), e(3, 30), e(5, 50)], 3);
    ctx.add(vec![e(2, 21), e(3, 31)], 2);
    ctx.add(vec![e(3, 32), e(6, 62)], 2);
    let mut out: Vec<(Vec<u8>, Vec<u8>)> = Vec::new();
    while !ctx.done() {
        let x = ctx.next();
        out.push((x.key, x.value));
    }
    assert_eq!(
        vec![
            (vec![1], vec![10]),
            (vec![2], vec![21]),
            (vec![3], vec![32]),
            (vec![5], vec![50]),
            (vec![6], vec![62]),
        ],
        out
    );
}

#[test]
fn merge_ignores_empty_input_and_counts() {
    let mut ctx = MergeContext::new();
    assert!(ctx.done());
    ctx.add(vec![e(9, 1), e(8, 2)], 0);
    assert!(ctx.done());
    ctx.add(vec![e(4, 4), e(7, 7), e(9, 9)], 2);
    assert_eq!(vec![4], ctx.next().key);
    assert_eq!(vec![7], ctx.next().key);
    assert!(ctx.done());
}

#[test]
fn merge_entry_head_and_done() {
    let m = MergeEntry::new(vec![e(1, 2)], 1, 0);
    assert_eq!(vec![2], m.head().value);
    assert!(!m.done());
    let empty = MergeEntry::new(Vec::new(), 0, 3);
    assert!(empty.done());
    assert_eq!(3, empty.precedence);
}
