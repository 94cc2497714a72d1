use caliptra_rom_patch::fuse_cfg::fuse_items;
use caliptra_rom_patch::manifest::{
    assign_slots, default_item_prefix, default_item_size, default_partition, default_version,
    parse_u32, place_set, resolve_resume, validate_placements, EntryError, Manifest, ManifestError,
    NumberFault, PackedPatch, PatchEntry, Placement, PlacementError, ResumeError, SetError,
    Supersession, Unplaced,
};
use caliptra_rom_patch::RomBounds;

fn p(idx: usize, target: u32, first: usize, n: usize) -> Placement {
    Placement {
        patch_index: idx,
        target,
        first_item: first,
        n_items: n,
    }
}

#[test]
fn parse_u32_hex_and_dec() {
    assert_eq!(parse_u32("0x1040").unwrap(), 0x1040);
    assert_eq!(parse_u32("4160").unwrap(), 4160);
    assert!(parse_u32("zzz").is_err());
}

#[test]
fn parse_u32_takes_what_numbers_look_like() {
    assert_eq!(parse_u32("  0X00fF \t\n").unwrap(), 0xff);
    assert_eq!(parse_u32("\u{3000}+7\u{a0}").unwrap(), 7);
    assert_eq!(parse_u32("0x+10").unwrap(), 16);
    assert_eq!(parse_u32("4294967295").unwrap(), u32::MAX);
    assert_eq!(parse_u32("0xffffFFFF").unwrap(), u32::MAX);
    assert_eq!(parse_u32("000000000000000000001").unwrap(), 1);
    assert_eq!(parse_u32("0").unwrap(), 0);
}

#[test]
fn parse_u32_reads_back_what_is_printed() {
    for n in [0u32, 9, 10, 15, 16, 4160, 0xdead_beef, u32::MAX] {
        assert_eq!(parse_u32(&format!("{n}")).unwrap(), n);
        assert_eq!(parse_u32(&format!("{n:#x}")).unwrap(), n);
        assert_eq!(parse_u32(&format!("{n:#X}")).unwrap(), n);
        assert_eq!(parse_u32(&format!("0X{n:x}")).unwrap(), n);
        assert_eq!(parse_u32(&format!("0X{n:X}")).unwrap(), n);
    }
}

#[test]
fn parse_u32_fails_as_integers_do() {
    for (text, fault) in [
        ("", NumberFault::Empty),
        ("   ", NumberFault::Empty),
        ("0x", NumberFault::Empty),
        ("+", NumberFault::InvalidDigit),
        ("-", NumberFault::InvalidDigit),
        ("-1", NumberFault::InvalidDigit),
        ("++1", NumberFault::InvalidDigit),
        ("0x-1", NumberFault::InvalidDigit),
        ("12a", NumberFault::InvalidDigit),
        ("0xg", NumberFault::InvalidDigit),
        ("1 2", NumberFault::InvalidDigit),
        ("1_0", NumberFault::InvalidDigit),
        ("\u{663}", NumberFault::InvalidDigit),
        ("4294967296", NumberFault::TooLarge),
        ("0x100000000", NumberFault::TooLarge),
        ("99999999999z", NumberFault::TooLarge),
        ("z99999999999", NumberFault::InvalidDigit),
        ("4294967296z", NumberFault::TooLarge),
        ("429496729z6", NumberFault::InvalidDigit),
    ] {
        let e = parse_u32(text).unwrap_err();
        assert_eq!(e.fault, fault, "{text}");
        assert_eq!(e.text, text.trim());
    }
}

#[test]
fn parse_u32_agrees_with_the_integers_of_std() {
    for text in ["", "+", "-", "-0", "+0", "007", "4294967295", "4294967296", "1e3", "١", "12 "] {
        let t = text.trim();
        match t.parse::<u32>() {
            Ok(n) => assert_eq!(parse_u32(text).unwrap(), n),
            Err(e) => assert_eq!(parse_u32(text).unwrap_err().fault.describe(), format!("{e}")),
        }
        match u32::from_str_radix(t, 16) {
            Ok(n) => assert_eq!(parse_u32(&format!("0x{t}")).unwrap(), n),
            Err(e) => assert_eq!(
                parse_u32(&format!("0x{t}")).unwrap_err().fault.describe(),
                format!("{e}")
            ),
        }
    }
}

#[test]
fn parse_u32_quotes_what_it_read() {
    let e = parse_u32(" zzz ").unwrap_err();
    assert_eq!(e.message(), "invalid u32 'zzz'");
    assert_eq!(
        e.full_message(),
        "invalid u32 'zzz': invalid digit found in string"
    );
    assert_eq!(
        parse_u32("").unwrap_err().full_message(),
        "invalid u32 '': cannot parse integer from empty string"
    );
    assert_eq!(
        parse_u32("0x123456789").unwrap_err().full_message(),
        "invalid u32 '0x123456789': number too large to fit in target type"
    );
}

#[test]
fn resume_goes_by_offset_or_address() {
    assert_eq!(resolve_resume(Some(7), None, 0x1041), Ok(7));
    assert_eq!(resolve_resume(Some(0), None, 0x1040), Ok(0));
    assert_eq!(resolve_resume(None, Some(0x1044), 0x1040), Ok(1));
    assert_eq!(resolve_resume(None, Some(0x1044), 0x1041), Ok(0));
    assert_eq!(
        resolve_resume(None, Some(0x1000 + 4 * 65535), 0x1000),
        Ok(65535)
    );
}

#[test]
fn each_unresolved_resume_has_its_error() {
    let e = resolve_resume(None, Some(0x1042), 0x1040).unwrap_err();
    assert_eq!(e, ResumeError::Unaligned { addr: 0x1042 });
    assert_eq!(e.message(), "resume address 0x1042 is not 4-byte aligned");

    let e = resolve_resume(None, Some(0x1040), 0x1040).unwrap_err();
    assert_eq!(
        e,
        ResumeError::NotBehindTarget {
            addr: 0x1040,
            target: 0x1040
        }
    );
    assert_eq!(
        e.message(),
        "resume address 0x1040 must be greater than target 0x1040"
    );

    let e = resolve_resume(None, Some(0x1000 + 4 * 65536), 0x1000).unwrap_err();
    assert_eq!(e, ResumeError::TooFar);
    assert_eq!(e.message(), "resume offset exceeds the 16-bit field");

    let e = resolve_resume(None, None, 0).unwrap_err();
    assert_eq!(e, ResumeError::Missing);
    assert_eq!(e.message(), "a resume_offset or resume_addr is required");

    let e = resolve_resume(Some(1), Some(4), 0).unwrap_err();
    assert_eq!(e, ResumeError::Ambiguous);
    assert_eq!(
        e.message(),
        "specify only one of resume_offset / resume_addr"
    );
}

fn entry(target: &str, offset: Option<u16>, addr: Option<&str>) -> PatchEntry {
    PatchEntry {
        replacement: "a.elf".to_string(),
        target: target.to_string(),
        resume_offset: offset,
        resume_addr: addr.map(|a| a.to_string()),
        version: default_version(),
        critical: false,
        slot: None,
    }
}

#[test]
fn entries_resolve() {
    assert_eq!(
        entry("0x1040", Some(1), None).resolve().unwrap(),
        (0x1040, 1)
    );
    assert_eq!(
        entry("0x2000", None, Some("0x2008")).resolve().unwrap(),
        (0x2000, 2)
    );
}

#[test]
fn each_bad_entry_has_its_error() {
    let e = entry("x", None, Some("y")).resolve().unwrap_err();
    assert!(matches!(&e, EntryError::Target(n) if n.text == "x"));
    assert_eq!(e.message(3, "a.elf"), "patch 3: bad target");

    let e = entry("4", None, Some("y")).resolve().unwrap_err();
    assert!(matches!(&e, EntryError::ResumeAddr(n) if n.text == "y"));
    assert_eq!(e.message(12, "a.elf"), "patch 12: bad resume_addr");

    let e = entry("4", None, None).resolve().unwrap_err();
    assert!(matches!(&e, EntryError::Resume(ResumeError::Missing)));
    assert_eq!(e.message(0, "a.elf"), "patch 0 (a.elf)");

    let e = entry("4", Some(1), Some("8")).resolve().unwrap_err();
    assert!(matches!(&e, EntryError::Resume(ResumeError::Ambiguous)));
}

#[test]
fn entries_ask_for_their_block() {
    let mut e = entry("0x1040", Some(1), None);
    e.critical = true;
    e.version = 7;
    let req = e.request(0x1040, 1, vec![1, 2], RomBounds::ExecRanges(vec![(3, 4)]));
    assert_eq!(req.target, 0x1040);
    assert_eq!(req.resume_offset, 1);
    assert_eq!(req.replacement_elf, [1, 2]);
    assert_eq!(req.version, 7);
    assert!(req.critical);
    assert_eq!(req.slot_size, None);
    assert!(matches!(req.rom_bounds, RomBounds::ExecRanges(r) if r == [(3, 4)]));
}

fn minimal_manifest() -> Manifest {
    Manifest {
        signing_key: "k.bin".to_string(),
        rom_elf: None,
        partition: default_partition(),
        item_prefix: default_item_prefix(),
        item_size: default_item_size(),
        num_items: None,
        lock: false,
        patches: vec![entry("0x1040", Some(1), None)],
    }
}

#[test]
fn manifests_have_patches_and_item_bytes() {
    let mut m = minimal_manifest();
    assert_eq!(m.item_size, 32);
    assert_eq!(m.partition, "VENDOR_NON_SECRET_PROD_PARTITION");
    assert_eq!(m.item_prefix, "CPTRA_SS_VENDOR_SPECIFIC_NON_SECRET_FUSE_");
    assert_eq!(m.patches[0].version, 1);
    assert_eq!(m.check(), Ok(()));
    m.item_size = 0;
    let e = m.check().unwrap_err();
    assert_eq!(e, ManifestError::ZeroItemSize);
    assert_eq!(e.message(), "item_size must be non-zero");
    m.patches.clear();
    let e = m.check().unwrap_err();
    assert_eq!(e, ManifestError::NoPatches);
    assert_eq!(e.message(), "manifest has no patches");
}

#[test]
fn detects_otp_overlap() {
    let ps = [p(0, 0x1000, 0, 3), p(1, 0x2000, 2, 1)]; // [0..3) and [2..3) overlap
    assert!(validate_placements(&ps, None).is_err());
}

#[test]
fn overlap_names_both_patches() {
    let ps = [p(4, 0x1000, 7, 3), p(2, 0x2000, 0, 8)];
    let e = validate_placements(&ps, None).unwrap_err();
    assert_eq!(e, PlacementError::Overlap { a: ps[1], b: ps[0] });
    assert_eq!(
        e.message(),
        "patches 2 and 4 occupy overlapping OTP items ([0..8) and [7..10))"
    );
}

#[test]
fn items_at_the_end_of_the_index_space_do_not_wrap() {
    let ps = [p(0, 0x1000, usize::MAX, 2), p(1, 0x2000, 0, 1)];
    assert!(validate_placements(&ps, None).is_ok());
    let e = validate_placements(&ps, Some(usize::MAX)).unwrap_err();
    assert_eq!(
        e,
        PlacementError::Capacity {
            needed: usize::MAX as u128 + 2,
            available: usize::MAX
        }
    );
}

#[test]
fn allows_adjacent_and_reports_supersession() {
    // patch0 target X at items [0..3); patch1 same target X at [3..6) -> supersedes.
    let ps = [p(0, 0x1000, 0, 3), p(1, 0x1000, 3, 3)];
    let s = validate_placements(&ps, Some(6)).unwrap();
    assert_eq!(s.len(), 1);
    assert_eq!(s[0].winner_patch, 1); // higher slot wins
    assert_eq!(s[0].loser_patch, 0);
}

#[test]
fn the_higher_slot_wins_whatever_the_order() {
    let ps = [
        p(0, 0x1000, 6, 3),
        p(1, 0x1000, 0, 3),
        p(2, 0x2000, 9, 1),
        p(3, 0x1000, 3, 3),
    ];
    let s = validate_placements(&ps, None).unwrap();
    assert_eq!(
        s,
        [
            Supersession {
                target: 0x1000,
                winner_patch: 0,
                loser_patch: 1
            },
            Supersession {
                target: 0x1000,
                winner_patch: 0,
                loser_patch: 3
            },
            Supersession {
                target: 0x1000,
                winner_patch: 3,
                loser_patch: 1
            }
        ]
    );
}

#[test]
fn the_order_of_the_list_is_moot() {
    let ps = [p(0, 0x1000, 6, 3), p(1, 0x1000, 0, 3), p(2, 0x1000, 3, 3)];
    let qs = [ps[2], ps[0], ps[1]];
    let a = validate_placements(&ps, Some(9)).unwrap();
    let b = validate_placements(&qs, Some(9)).unwrap();
    assert_eq!(a.len(), 3);
    assert_eq!(b.len(), 3);
    assert!(a.iter().all(|s| b.contains(s)));
    assert!(validate_placements(&ps, Some(8)).is_err());
    assert!(validate_placements(&qs, Some(8)).is_err());
    let ps = [p(0, 0x1000, 0, 3), p(1, 0x2000, 2, 1)];
    assert!(validate_placements(&[ps[1], ps[0]], None).is_err());
}

#[test]
fn distinct_targets_are_independent() {
    let ps = [p(0, 0x1000, 0, 2), p(1, 0x2000, 2, 2)];
    assert!(validate_placements(&ps, None).unwrap().is_empty());
}

#[test]
fn enforces_capacity() {
    let ps = [p(0, 0x1000, 0, 3), p(1, 0x2000, 3, 3)];
    assert!(validate_placements(&ps, Some(5)).is_err()); // needs 6
    assert!(validate_placements(&ps, Some(6)).is_ok());
}

#[test]
fn capacity_is_what_the_highest_block_needs() {
    let ps = [p(0, 0x1000, 8, 3), p(1, 0x2000, 0, 3)];
    let e = validate_placements(&ps, Some(10)).unwrap_err();
    assert_eq!(
        e,
        PlacementError::Capacity {
            needed: 11,
            available: 10
        }
    );
    assert_eq!(
        e.message(),
        "patch set needs 11 OTP items but the partition has only 10"
    );
    assert!(validate_placements(&[], Some(0)).unwrap().is_empty());
}

fn unplaced(slot: Option<usize>, len: usize) -> Unplaced {
    Unplaced {
        target: 0x1000,
        slot,
        len,
    }
}

#[test]
fn slots_follow_one_another() {
    let ps = assign_slots(
        &[unplaced(None, 80), unplaced(None, 64), unplaced(None, 1)],
        32,
    )
    .unwrap();
    assert_eq!(
        ps,
        [p(0, 0x1000, 0, 3), p(1, 0x1000, 3, 2), p(2, 0x1000, 5, 1)]
    );
    assert!(validate_placements(&ps, Some(6)).is_ok());
}

#[test]
fn fixed_slots_move_the_cursor() {
    let ps = assign_slots(
        &[
            unplaced(None, 32),
            unplaced(Some(8), 33),
            unplaced(None, 32),
            unplaced(Some(0), 32),
        ],
        32,
    )
    .unwrap();
    assert_eq!(
        ps,
        [
            p(0, 0x1000, 0, 1),
            p(1, 0x1000, 8, 2),
            p(2, 0x1000, 10, 1),
            p(3, 0x1000, 0, 1)
        ]
    );
    assert!(validate_placements(&ps, None).is_err());
}

#[test]
fn no_item_is_written_twice() {
    let blocks = [vec![1u8; 80], vec![2u8; 33], vec![3u8; 32]];
    let set: Vec<Unplaced> = blocks
        .iter()
        .zip([None, Some(8), None])
        .map(|(b, slot)| unplaced(slot, b.len()))
        .collect();
    let ps = assign_slots(&set, 32).unwrap();
    assert!(validate_placements(&ps, None).is_ok());
    let mut names = Vec::new();
    for (p, b) in ps.iter().zip(&blocks) {
        for item in fuse_items(b, "F", 32, p.first_item) {
            assert!(!names.contains(&item.name));
            names.push(item.name);
        }
    }
    assert_eq!(names, ["F0", "F1", "F2", "F8", "F9", "F10"]);
}

#[test]
fn slots_stay_in_the_index_space() {
    assert!(assign_slots(&[unplaced(Some(usize::MAX), 1)], 32).is_none());
    assert!(assign_slots(&[unplaced(Some(usize::MAX - 1), 1)], 32).is_some());
    assert!(assign_slots(&[], 32).unwrap().is_empty());
}

fn packed(target: u32, slot: Option<usize>, block: &[u8]) -> PackedPatch {
    PackedPatch {
        target,
        slot,
        block: block.to_vec(),
    }
}

#[test]
fn a_set_is_placed_and_written() {
    let mut m = minimal_manifest();
    m.partition = "PART".to_string();
    m.item_prefix = "I".to_string();
    m.item_size = 2;
    m.num_items = Some(9);
    m.lock = true;
    m.patches = vec![entry("0x1000", Some(1), None); 3];
    let plan = place_set(
        &m,
        &[
            packed(0x1000, None, &[1, 2, 3]),
            packed(0x2000, Some(7), &[4]),
            packed(0x1000, None, &[5, 6]),
        ],
    )
    .unwrap();
    assert_eq!(
        plan.placements,
        [p(0, 0x1000, 0, 2), p(1, 0x2000, 7, 1), p(2, 0x1000, 8, 1)]
    );
    assert_eq!(
        plan.supersessions,
        [Supersession {
            target: 0x1000,
            winner_patch: 2,
            loser_patch: 0
        }]
    );
    assert_eq!(
        plan.add_cfg,
        "{\n  partitions: [\n    {\n      name: \"PART\",\n      lock: \"True\",\n      items: [\n        { name: \"I0\", value: \"0x0201\" },\n        { name: \"I1\", value: \"0x0003\" },\n        { name: \"I7\", value: \"0x0004\" },\n        { name: \"I8\", value: \"0x0605\" },\n      ],\n    },\n  ],\n}\n"
    );
}

#[test]
fn each_unplaceable_set_has_its_error() {
    let mut m = minimal_manifest();
    let e = place_set(&m, &[packed(0, Some(usize::MAX), &[1])]).unwrap_err();
    assert_eq!(e, SetError::IndexOverflow);
    assert_eq!(e.message(), "OTP item index overflows");
    m.patches = vec![entry("0x1000", Some(1), None); 2];
    let e = place_set(&m, &[packed(0, None, &[1]), packed(4, Some(0), &[1])]).unwrap_err();
    assert_eq!(
        e.message(),
        "patches 0 and 1 occupy overlapping OTP items ([0..1) and [0..1))"
    );
    m.num_items = Some(1);
    let e = place_set(&m, &[packed(0, None, &[1]), packed(4, None, &[1])]).unwrap_err();
    assert_eq!(
        e,
        SetError::Placement(PlacementError::Capacity {
            needed: 2,
            available: 1
        })
    );
}
