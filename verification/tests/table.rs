use libazo::table::{CodeTable, CODE_SIZE};

#[test]
fn test_length_table_first_entries() {
    let t = CodeTable::build_length_table();
    assert_eq!(t.base[0], 2);
    assert_eq!(t.base[1], 3);
    assert_eq!(t.base[31], 33);
    assert_eq!(t.base[32], 34);
    assert_eq!(t.base[39], 41);
    assert_eq!(t.extra_bits[39], 0);
    assert_eq!(t.extra_bits[40], 1);
    assert_eq!(t.base[40], 42);
}

#[test]
fn test_dist_table_first_entries() {
    let t = CodeTable::build_dist_table();
    assert_eq!(t.base[0], 1);
    assert_eq!(t.base[1], 2);
    assert_eq!(t.base[15], 16);
    assert_eq!(t.base[16], 17);
    assert_eq!(t.base[19], 20);
    assert_eq!(t.extra_bits[19], 0);
    assert_eq!(t.extra_bits[20], 1);
    assert_eq!(t.base[20], 21);
}

#[test]
fn test_code_for_roundtrip() {
    let t = CodeTable::build_dist_table();
    for i in 0..CODE_SIZE {
        assert_eq!(t.code_for(t.base[i]), i);
    }
}

#[test]
fn table_last_entries() {
    let l = CodeTable::build_length_table();
    assert_eq!(l.base.len(), CODE_SIZE);
    assert_eq!(l.extra_bits[127], 11);
    assert_eq!(l.base[127], 30746);
    let d = CodeTable::build_dist_table();
    assert_eq!(d.extra_bits[127], 27);
    assert_eq!(d.base[127], 939524109);
}

#[test]
fn tables_strictly_increase() {
    for t in [CodeTable::build_length_table(), CodeTable::build_dist_table()] {
        for i in 1..CODE_SIZE {
            assert!(t.base[i - 1] < t.base[i]);
        }
    }
}

#[test]
fn code_for_finds_bucket() {
    let t = CodeTable::build_dist_table();
    // Below the first base: code 0.
    assert_eq!(t.code_for(0), 0);
    // 22 lies in the bucket of base 21 (code 20, one extra bit).
    assert_eq!(t.code_for(22), 20);
    assert_eq!(t.code_for(23), 21);
    // Past the last base: the last code.
    assert_eq!(t.code_for(u32::MAX), CODE_SIZE - 1);
    let l = CodeTable::build_length_table();
    assert_eq!(l.code_for(2), 0);
    assert_eq!(l.code_for(43), 40);
}

#[test]
fn length_table_length_roundtrip() {
    let t = CodeTable::build_length_table();
    for i in 0..CODE_SIZE {
        assert_eq!(t.code_for(t.base[i]), i);
    }
}
