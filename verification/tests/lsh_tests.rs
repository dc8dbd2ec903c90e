use flash::heap_array::HeapAllocatedArray;
use flash::lsh::{IDType, QueryResult, LSH};

#[test]
fn test_query_result() {
    let data: [u32; 15] = [3, 8, 9, 2, 0, 0, 1, 1, 1, 1, 4, 90, 91, 92, 93];
    let mut arr = HeapAllocatedArray::with_value(15, 0u32);
    for i in 0..15 {
        arr.set(i, data[i]);
    }
    let res = QueryResult::new(arr, 3, 4);

    let ex1 = vec![8, 9, 2];
    for (i, x) in res.nth(0).iter().enumerate() {
        assert_eq!(ex1[i], *x);
    }
    assert_eq!(res.count(0), 3);

    let ex2: Vec<IDType> = vec![];
    for (i, x) in res.nth(1).iter().enumerate() {
        assert_eq!(ex2[i], *x);
    }
    assert_eq!(res.count(1), 0);

    let ex3 = vec![90, 91, 92, 93];
    for (i, x) in res.nth(2).iter().enumerate() {
        assert_eq!(ex3[i], *x);
    }
    assert_eq!(res.count(2), 4);
}

fn do_simple_insert() -> LSH {
    let ids = [1, 2, 3, 4];
    let hashes = [0, 0, 1, 3, 2, 1, 0, 2, 3, 0, 0, 3, 2, 3, 0, 3];

    let mut lsh = LSH::new(4, 2, 4);

    lsh.insert(&ids, &hashes);

    lsh
}

fn do_second_insert(lsh: &mut LSH) {
    let mut new_rands = [15; 80];

    new_rands[5] = 2;

    lsh.override_rand_values(&new_rands);

    let ids = [5, 6, 7];
    let hashes = [2, 1, 0, 1, 0, 2, 0, 3, 2, 3, 0, 3];

    lsh.insert(&ids, &hashes);
}

#[test]
fn test_simple_insert() {
    let lsh = do_simple_insert();

    let xx = IDType::MAX;

    let expected = [
        1, 1, xx, xx, xx, 0, xx, xx, xx, xx, 2, 2, 4, xx, xx, 1, 3, xx, xx, xx, 2, 1, 3, xx, xx,
        1, 2, xx, xx, xx, 0, xx, xx, xx, xx, 1, 4, xx, xx, xx, 3, 2, 3, 4, xx, 1, 1, xx, xx, xx,
        0, xx, xx, xx, xx, 0, xx, xx, xx, xx, 0, xx, xx, xx, xx, 0, xx, xx, xx, xx, 1, 2, xx, xx,
        xx, 3, 1, 3, 4, xx,
    ];

    for i in 0..80 {
        assert_eq!(lsh.buffer().get(i), expected[i]);
    }
}

#[test]
fn test_reservoir_overflow() {
    let mut lsh = do_simple_insert();

    do_second_insert(&mut lsh);

    let xx = IDType::MAX;

    let expected = [
        2, 1, 6, xx, xx, 0, xx, xx, xx, xx, 4, 2, 4, 5, 7, 1, 3, xx, xx, xx, 2, 1, 3, xx, xx, 2,
        2, 5, xx, xx, 1, 6, xx, xx, xx, 2, 4, 7, xx, xx, 6, 2, 3, 7, 5, 1, 1, xx, xx, xx, 0, xx,
        xx, xx, xx, 0, xx, xx, xx, xx, 0, xx, xx, xx, xx, 1, 5, xx, xx, xx, 1, 2, xx, xx, xx, 5,
        1, 3, 4, 6,
    ];

    for i in 0..80 {
        assert_eq!(lsh.buffer().get(i), expected[i]);
    }
}

#[test]
fn test_query() {
    let mut lsh = do_simple_insert();

    do_second_insert(&mut lsh);

    let hashes = [0, 2, 3, 3, 1, 1, 2, 1, 1, 2, 2, 0];
    let result = lsh.query(&hashes, 4);

    let result1: Vec<IDType> = lsh_nth(&result, 0);
    let match1 = result1[0] == 6
        && result1[1] == 1
        && ((result1[2] == 4 && result1[3] == 3) || (result1[2] == 3 && result1[3] == 4));
    assert!(match1);
    assert_eq!(result.count(0), 4);

    let result2: Vec<IDType> = lsh_nth(&result, 1);
    let match2 = result2[0] == 5 && result2[1] == 2;
    assert!(match2);
    assert_eq!(result.count(1), 2);

    let result3: Vec<IDType> = lsh_nth(&result, 2);
    let match3 = result3[0] == 6;
    assert!(match3);
    assert_eq!(result.count(2), 1);
}

fn lsh_nth(result: &QueryResult, idx: usize) -> Vec<IDType> {
    result.nth(idx)
}

#[test]
fn test_insert_range() {
    let ids = [1, 2, 3, 4];
    let hashes = [0, 0, 1, 3, 2, 1, 0, 2, 3, 0, 0, 3, 2, 3, 0, 3];

    let mut lsh1 = LSH::new(4, 2, 4);

    lsh1.insert(&ids, &hashes);

    let mut lsh2 = LSH::new(4, 2, 4);

    lsh2.insert_range(1, 4, &hashes);

    for i in 0..lsh1.buffer().len() {
        assert_eq!(lsh1.buffer().get(i), lsh2.buffer().get(i));
    }
}

// With 4 tables of 4 rows and row stride 5, the counter of row `r` of table
// `t` sits at `t * 20 + r * 5`.
fn counter_total(lsh: &LSH) -> u64 {
    let mut total: u64 = 0;
    for t in 0..4 {
        for r in 0..4 {
            total += lsh.buffer().get(t * 20 + r * 5) as u64;
        }
    }
    total
}

#[test]
fn counter_sum_after_inserts() {
    let lsh = do_simple_insert();
    // 4 IDs into 4 tables each.
    assert_eq!(counter_total(&lsh), 16);

    let mut lsh = do_simple_insert();
    do_second_insert(&mut lsh);
    // 7 IDs in all, 4 tables each.
    assert_eq!(counter_total(&lsh), 28);
}

#[test]
fn occupancy_matches_counter() {
    let mut lsh = do_simple_insert();
    do_second_insert(&mut lsh);

    for t in 0..4 {
        for r in 0..4 {
            let base = t * 20 + r * 5;
            let c = lsh.buffer().get(base) as usize;
            let expect = if c < 4 { c } else { 4 };
            let mut occupied = 0;
            for j in 1..5 {
                if lsh.buffer().get(base + j) != IDType::MAX {
                    occupied += 1;
                }
            }
            assert_eq!(occupied, expect);
        }
    }
}

#[test]
fn empty_rows_give_no_candidates() {
    let lsh = LSH::new(4, 2, 4);
    let hashes = [0, 1, 2, 3];
    let result = lsh.query(&hashes, 3);
    assert_eq!(result.count(0), 0);
    assert_eq!(result.nth(0).len(), 0);
}

#[test]
fn query_zero_k_is_legal() {
    let mut lsh = do_simple_insert();
    do_second_insert(&mut lsh);
    let hashes = [0, 2, 3, 3];
    let result = lsh.query(&hashes, 0);
    assert_eq!(result.count(0), 0);
    assert_eq!(result.nth(0).len(), 0);
}

#[test]
fn query_reports_true_count_when_fewer_than_k() {
    let lsh = do_simple_insert();
    // Row hashes of ID 1: it is the only candidate in the rows
    // (0,0), (1,0), (2,1) and (3,3) apart from IDs 3 and 4.
    let hashes = [0, 0, 1, 3];
    let result = lsh.query(&hashes, 10);
    assert!(result.count(0) < 10);
    assert!(result.count(0) >= 1);
}

#[test]
fn self_similarity_returns_inserted_id() {
    let lsh = do_simple_insert();
    // Query with the very hashes ID 1 was inserted under: it occurs in all
    // four target rows, so it must rank first.
    let hashes = [0, 0, 1, 3];
    let result = lsh.query(&hashes, 4);
    let top = lsh_nth(&result, 0);
    assert!(result.count(0) >= 1);
    assert_eq!(top[0], 1);
}

#[test]
fn insert_then_query_is_deterministic() {
    let rands = [9; 80];
    let ids = [1, 2, 3, 4, 5, 6, 7];
    let hashes = [
        0, 0, 1, 3, 2, 1, 0, 2, 3, 0, 0, 3, 2, 3, 0, 3, 2, 1, 0, 1, 0, 2, 0, 3, 2, 3, 0, 3,
    ];
    let qhashes = [0, 2, 3, 3, 1, 1, 2, 1];

    let mut first: Option<(Vec<u32>, Vec<Vec<u32>>)> = None;
    for _ in 0..2 {
        let mut lsh = LSH::new(4, 2, 4);
        lsh.override_rand_values(&rands);
        lsh.insert(&ids, &hashes);
        let buffer: Vec<u32> = (0..lsh.buffer().len()).map(|i| lsh.buffer().get(i)).collect();
        let result = lsh.query(&qhashes, 4);
        let blocks: Vec<Vec<u32>> = (0..result.len()).map(|q| result.nth(q)).collect();
        match &first {
            None => first = Some((buffer, blocks)),
            Some((b0, r0)) => {
                assert_eq!(*b0, buffer);
                assert_eq!(*r0, blocks);
            }
        }
    }
}
