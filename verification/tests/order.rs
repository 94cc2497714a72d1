use caliptra_rom_patch::manifest::Placement;
use caliptra_rom_patch::order::sort_by_key;
use caliptra_rom_patch::text::{push_decimal, push_hex, push_hex3, push_hex_byte};

#[test]
fn sorting_is_stable() {
    let p = |patch_index, first_item| Placement {
        patch_index,
        target: 0,
        first_item,
        n_items: 1,
    };
    let sorted = sort_by_key(&[p(0, 5), p(1, 2), p(2, 5), p(3, 0), p(4, 2)]);
    let order: Vec<usize> = sorted.iter().map(|p| p.patch_index).collect();
    assert_eq!(order, [3, 1, 4, 0, 2]);
    assert_eq!(sort_by_key(&sorted), sorted);
}

#[test]
fn numbers_are_written_as_std_writes_them() {
    for n in [0u64, 1, 9, 10, 15, 16, 255, 4096, u64::MAX] {
        let mut s = String::new();
        push_decimal(&mut s, n as u128);
        s.push(' ');
        push_hex(&mut s, n);
        assert_eq!(s, format!("{n} {n:#x}"));
    }
    for n in [0u16, 5, 0x1f, 0x300, 0xfff, 0x1000, 0xffff] {
        let mut s = String::from("at ");
        push_hex3(&mut s, n);
        assert_eq!(s, format!("at {n:#05x}"));
    }
    let mut s = String::new();
    push_hex_byte(&mut s, 0x0a);
    push_hex_byte(&mut s, 0xf0);
    assert_eq!(s, "0af0");
}
