use caliptra_rom_patch::fuse_cfg::{
    emit_add_cfg, emit_add_cfg_multi, fuse_items, items_for, FuseLayout,
};

#[test]
fn items_are_counted_up() {
    assert_eq!(items_for(0, 32), 0);
    assert_eq!(items_for(1, 32), 1);
    assert_eq!(items_for(32, 32), 1);
    assert_eq!(items_for(33, 32), 2);
    assert_eq!(items_for(80, 32), 3);
    assert_eq!(items_for(usize::MAX, 1), usize::MAX);
    assert_eq!(items_for(usize::MAX, 2), usize::MAX / 2 + 1);
}

#[test]
fn values_are_byte_reversed_and_padded() {
    let items = fuse_items(&[1, 2, 3, 4, 0xab], "FUSE_", 4, 9);
    assert_eq!(items.len(), 2);
    assert_eq!(items[0].name, "FUSE_9");
    assert_eq!(items[0].value, "0x04030201");
    assert_eq!(items[1].name, "FUSE_10");
    assert_eq!(items[1].value, "0x000000ab");
}

#[test]
fn items_rebuild_the_block() {
    let block: Vec<u8> = (0..80u8).map(|b| b.wrapping_mul(7)).collect();
    let mut back = Vec::new();
    for item in fuse_items(&block, "P", 16, 0) {
        let value = u128::from_str_radix(&item.value[2..], 16).unwrap();
        for k in 0..16 {
            back.push((value >> (8 * k)) as u8);
        }
    }
    assert_eq!(back, block);
}

#[test]
fn the_last_item_ends_in_zeros() {
    let block = [0xffu8; 20];
    let items = fuse_items(&block, "P", 16, 3);
    assert_eq!(items.len(), 2);
    let value = u128::from_str_radix(&items[1].value[2..], 16).unwrap();
    assert_eq!(value, 0xffff_ffff);
    assert_eq!(items[1].value.len(), 2 + 32);
}

#[test]
fn names_do_not_wrap() {
    let items = fuse_items(&[1, 2], "", 1, usize::MAX);
    assert_eq!(items[1].name, format!("{}", usize::MAX as u128 + 1));
}

#[test]
fn one_block_gives_one_partition() {
    let layout = FuseLayout {
        partition: "PART".to_string(),
        item_prefix: "FUSE_".to_string(),
        item_size: 2,
        first_index: 4,
        lock: false,
    };
    assert_eq!(
        emit_add_cfg(&[1, 2, 3], &layout),
        "{\n  partitions: [\n    {\n      name: \"PART\",\n      items: [\n        { name: \"FUSE_4\", value: \"0x0201\" },\n        { name: \"FUSE_5\", value: \"0x0003\" },\n      ],\n    },\n  ],\n}\n"
    );
}

#[test]
fn a_set_gives_one_partition() {
    let blocks: [(usize, &[u8]); 2] = [(8, &[0xff]), (0, &[1, 2])];
    assert_eq!(
        emit_add_cfg_multi("P", "I", 1, true, &blocks),
        "{\n  partitions: [\n    {\n      name: \"P\",\n      lock: \"True\",\n      items: [\n        { name: \"I8\", value: \"0xff\" },\n        { name: \"I0\", value: \"0x01\" },\n        { name: \"I1\", value: \"0x02\" },\n      ],\n    },\n  ],\n}\n"
    );
}

#[test]
fn a_single_block_is_a_set_of_one() {
    let layout = FuseLayout {
        partition: "PART".to_string(),
        item_prefix: "FUSE_".to_string(),
        item_size: 32,
        first_index: 1,
        lock: true,
    };
    let block = [7u8; 80];
    assert_eq!(
        emit_add_cfg(&block, &layout),
        emit_add_cfg_multi("PART", "FUSE_", 32, true, &[(1, &block)])
    );
}
