//! Replacement files and their images.

use crate::elf::replacement::Segment;
use crate::elf::{ElfView, ReplacementError, SectionView};
use crate::order::Keyed;
use vstd::prelude::*;

verus! {

/// A section with contents in the file (type 1) that is loaded (flag 2).
pub open spec fn is_loaded(s: SectionView) -> bool {
    s.sh_type == 1 && s.sh_flags / 2 % 2 == 1
}

/// Whether relocations (types 4 and 9) are those of debug information, by name.
pub open spec fn relocates_only_debug(s: SectionView) -> bool {
    s.sh_type == 4 || s.sh_type == 9 ==> s.name is Some && (".rela.debug"@.is_prefix_of(s.name->0)
        || ".rel.debug"@.is_prefix_of(s.name->0))
}

/// Whether a section holds no state, if it is loaded (flag 2): it is not
/// writable (flag 1), not thread-local (flag `0x400`), and not without contents
/// (type 8).
pub open spec fn is_stateless(s: SectionView) -> bool {
    s.sh_flags / 2 % 2 == 1 ==> s.sh_flags % 2 == 0 && s.sh_flags / 0x400 % 2 == 0 && s.sh_type != 8
}

/// Whether the contents of a section, if it is loaded, are all in the file.
pub open spec fn is_in_file(s: SectionView, file_len: nat) -> bool {
    is_loaded(s) ==> s.sh_offset + s.sh_size <= file_len
}

/// Whether `a` and a later section `b` keep out of each other's way: the one with
/// the lower address, `a` if they are equal, ends before the other starts.
pub open spec fn are_apart(a: SectionView, b: SectionView) -> bool {
    is_loaded(a) && is_loaded(b) ==> if a.sh_addr <= b.sh_addr {
        a.sh_addr + a.sh_size <= b.sh_addr
    } else {
        b.sh_addr + b.sh_size <= a.sh_addr
    }
}

spec fn segment_of(s: SectionView) -> Segment {
    Segment {
        addr: s.sh_addr,
        start: s.sh_offset as usize,
        len: s.sh_size as usize,
        is_code: s.sh_flags / 4 % 2 == 1,
    }
}

spec fn len_of() -> spec_fn(Segment) -> int {
    |s: Segment| s.len as int
}

spec fn all_apart(segs: Seq<Segment>) -> bool {
    super::order::all_apart(segs, len_of())
}

spec fn in_turn(segs: Seq<Segment>) -> bool {
    super::order::in_turn(segs, len_of())
}

proof fn lemma_layout_iff(segs: Seq<Segment>)
    ensures
        crate::elf::replacement::layout_end(segs) is Ok <==> in_turn(segs) && forall|i: int|
            0 <= i < segs.len() ==> (#[trigger] segs[i]).addr + segs[i].len <= u64::MAX,
    decreases segs.len(),
{
    if segs.len() > 0 {
        let front = segs.drop_last();
        lemma_layout_iff(front);
        let n = front.len() as int;
        assert(segs[n] == segs.last());
        assert(forall|i: int| 0 <= i < front.len() ==> #[trigger] front[i] == segs[i]);
        if crate::elf::replacement::layout_end(segs) is Ok {
            crate::elf::replacement::lemma_layout(segs);
        }
        if in_turn(segs) && forall|i: int|
            0 <= i < segs.len() ==> (#[trigger] segs[i]).addr + segs[i].len <= u64::MAX {
            assert forall|i: int, j: int| 0 <= i < j < front.len() implies (
            #[trigger] front[i]).addr + front[i].len <= (#[trigger] front[j]).addr by {
                assert(front[i] == segs[i] && front[j] == segs[j]);
            }
            assert forall|i: int| 0 <= i < front.len() implies (#[trigger] front[i]).addr
                + front[i].len <= u64::MAX by {
                assert(front[i] == segs[i]);
            }
            crate::elf::replacement::lemma_layout(front);
            if front.len() > 0 {
                assert(front.last() == segs[n - 1]);
                assert(segs[n - 1].addr + segs[n - 1].len <= segs[n].addr);
            }
        }
    }
}

spec fn all_fine(sections: Seq<SectionView>, file_len: nat) -> bool {
    forall|i: int|
        0 <= i < sections.len() ==> is_stateless(#[trigger] sections[i]) && is_in_file(
            sections[i],
            file_len,
        )
}

spec fn sections_apart(sections: Seq<SectionView>) -> bool {
    forall|i: int, j: int|
        0 <= i < j < sections.len() ==> are_apart(#[trigger] sections[i], #[trigger] sections[j])
}

proof fn lemma_segments_ok(sections: Seq<SectionView>, file_len: nat)
    ensures
        crate::elf::replacement::segments(sections, file_len) is Ok <==> all_fine(
            sections,
            file_len,
        ),
    decreases sections.len(),
{
    if sections.len() > 0 {
        let front = sections.drop_last();
        lemma_segments_ok(front, file_len);
        assert(sections[sections.len() - 1] == sections.last());
        if all_fine(sections, file_len) {
            assert forall|i: int| 0 <= i < front.len() implies is_stateless(#[trigger] front[i])
                && is_in_file(front[i], file_len) by {
                assert(front[i] == sections[i]);
            }
        }
        if all_fine(front, file_len) && is_stateless(sections.last()) && is_in_file(
            sections.last(),
            file_len,
        ) {
            assert forall|i: int| 0 <= i < sections.len() implies is_stateless(
                #[trigger] sections[i],
            ) && is_in_file(sections[i], file_len) by {
                if i < front.len() {
                    assert(front[i] == sections[i]);
                }
            }
        }
    }
}

proof fn lemma_segments_hold(sections: Seq<SectionView>, file_len: nat, t: Segment)
    requires
        crate::elf::replacement::segments(sections, file_len) is Ok,
    ensures
        crate::elf::replacement::segments(sections, file_len)->Ok_0.contains(t) <==> exists|i: int|
            0 <= i < sections.len() && is_loaded(#[trigger] sections[i]) && t == segment_of(
                sections[i],
            ),
    decreases sections.len(),
{
    if sections.len() > 0 {
        let front = sections.drop_last();
        let last = sections.last();
        lemma_segments_hold(front, file_len, t);
        let before = crate::elf::replacement::segments(front, file_len)->Ok_0;
        let segs = crate::elf::replacement::segments(sections, file_len)->Ok_0;
        assert(sections[sections.len() - 1] == last);
        if is_loaded(last) {
            assert(segs == before.push(segment_of(last)));
            assert(segs[before.len() as int] == segment_of(last));
        } else {
            assert(segs == before);
        }
        if before.contains(t) {
            let k = choose|k: int| 0 <= k < before.len() && before[k] == t;
            assert(segs[k] == t);
            let i = choose|i: int|
                0 <= i < front.len() && is_loaded(#[trigger] front[i]) && t == segment_of(front[i]);
            assert(sections[i] == front[i]);
        }
        if segs.contains(t) && !before.contains(t) {
            let k = choose|k: int| 0 <= k < segs.len() && segs[k] == t;
            if k < before.len() {
                assert(before[k] == t);
            }
        }
        if exists|i: int|
            0 <= i < sections.len() && is_loaded(#[trigger] sections[i]) && t == segment_of(
                sections[i],
            ) {
            let i = choose|i: int|
                0 <= i < sections.len() && is_loaded(#[trigger] sections[i]) && t == segment_of(
                    sections[i],
                );
            if i < front.len() {
                assert(front[i] == sections[i]);
            }
        }
    }
}

proof fn lemma_segments_apart(sections: Seq<SectionView>, file_len: nat)
    requires
        crate::elf::replacement::segments(sections, file_len) is Ok,
        file_len <= usize::MAX,
    ensures
        all_apart(crate::elf::replacement::segments(sections, file_len)->Ok_0) <==> sections_apart(
            sections,
        ),
    decreases sections.len(),
{
    if sections.len() > 0 {
        let front = sections.drop_last();
        let last = sections.last();
        let n = front.len() as int;
        lemma_segments_ok(sections, file_len);
        lemma_segments_apart(front, file_len);
        let before = crate::elf::replacement::segments(front, file_len)->Ok_0;
        let segs = crate::elf::replacement::segments(sections, file_len)->Ok_0;
        assert(sections[n] == last);
        assert(forall|i: int| 0 <= i < n ==> #[trigger] front[i] == sections[i]);
        assert(is_in_file(last, file_len));
        if is_loaded(last) {
            assert(segs == before.push(segment_of(last)));
        } else {
            assert(segs == before);
        }
        if sections_apart(sections) {
            assert forall|i: int, j: int| 0 <= i < j < front.len() implies are_apart(
                #[trigger] front[i],
                #[trigger] front[j],
            ) by {
                assert(front[i] == sections[i] && front[j] == sections[j]);
            }
            assert forall|i: int, j: int| 0 <= i < j < segs.len() implies super::order::apart(
                #[trigger] segs[i],
                #[trigger] segs[j],
                len_of(),
            ) by {
                if j < before.len() {
                    assert(before[i] == segs[i] && before[j] == segs[j]);
                } else {
                    assert(before.contains(before[i]));
                    lemma_segments_hold(front, file_len, before[i]);
                    let m = choose|m: int|
                        0 <= m < front.len() && is_loaded(#[trigger] front[m]) && before[i]
                            == segment_of(front[m]);
                    assert(front[m] == sections[m]);
                    assert(is_in_file(sections[m], file_len));
                    assert(are_apart(sections[m], sections[n]));
                }
            }
        }
        if all_apart(segs) {
            assert forall|i: int, j: int| 0 <= i < j < before.len() implies super::order::apart(
                #[trigger] before[i],
                #[trigger] before[j],
                len_of(),
            ) by {
                assert(before[i] == segs[i] && before[j] == segs[j]);
            }
            assert forall|i: int, j: int| 0 <= i < j < sections.len() implies are_apart(
                #[trigger] sections[i],
                #[trigger] sections[j],
            ) by {
                assert(front[i] == sections[i]);
                assert(is_in_file(sections[i], file_len));
                if j < n {
                    assert(front[j] == sections[j]);
                } else if is_loaded(last) && is_loaded(sections[i]) {
                    lemma_segments_hold(front, file_len, segment_of(front[i]));
                    let k = choose|k: int|
                        0 <= k < before.len() && before[k] == segment_of(front[i]);
                    assert(segs[k] == before[k] && segs[before.len() as int] == segment_of(last));
                }
            }
        }
    }
}

proof fn lemma_ranges_hold(segs: Seq<Segment>, base: int, range: (usize, usize))
    requires
        forall|i: int|
            0 <= i < segs.len() ==> 0 <= (#[trigger] segs[i]).addr - base <= usize::MAX,
    ensures
        crate::elf::replacement::code_ranges(segs, base).contains(range) <==> exists|i: int|
            0 <= i < segs.len() && (#[trigger] segs[i]).is_code && segs[i].addr == base + range.0
                && segs[i].len == range.1,
    decreases segs.len(),
{
    if segs.len() > 0 {
        let front = segs.drop_last();
        let last = segs.last();
        let n = front.len() as int;
        assert(segs[n] == last);
        assert forall|i: int| 0 <= i < front.len() implies 0 <= (#[trigger] front[i]).addr - base
            <= usize::MAX by {
            assert(front[i] == segs[i]);
        }
        lemma_ranges_hold(front, base, range);
        let before = crate::elf::replacement::code_ranges(front, base);
        let all = crate::elf::replacement::code_ranges(segs, base);
        if last.is_code {
            assert(all == before.push(((last.addr - base) as usize, last.len)));
            assert(all[before.len() as int] == ((last.addr - base) as usize, last.len));
        }
        if before.contains(range) {
            let k = choose|k: int| 0 <= k < before.len() && before[k] == range;
            assert(all[k] == range);
            let i = choose|i: int|
                0 <= i < front.len() && (#[trigger] front[i]).is_code && front[i].addr == base
                    + range.0 && front[i].len == range.1;
            assert(segs[i] == front[i]);
        }
        if all.contains(range) && !before.contains(range) {
            let k = choose|k: int| 0 <= k < all.len() && all[k] == range;
            if k < before.len() {
                assert(before[k] == range);
            }
        }
        if exists|i: int|
            0 <= i < segs.len() && (#[trigger] segs[i]).is_code && segs[i].addr == base + range.0
                && segs[i].len == range.1 {
            let i = choose|i: int|
                0 <= i < segs.len() && (#[trigger] segs[i]).is_code && segs[i].addr == base
                    + range.0 && segs[i].len == range.1;
            if i < n {
                assert(front[i] == segs[i]);
            }
        }
    }
}

proof fn lemma_relocation(s: SectionView)
    ensures
        crate::elf::replacement::is_live_relocation(s) <==> !relocates_only_debug(s),
{
    reveal_strlit("");
    reveal_strlit(".rela.debug");
    reveal_strlit(".rel.debug");
}

proof fn lemma_relocations(sections: Seq<SectionView>)
    ensures
        crate::elf::replacement::first_relocation(sections) is None <==> forall|i: int|
            0 <= i < sections.len() ==> relocates_only_debug(#[trigger] sections[i]),
{
    assert(forall|i: int|
        0 <= i < sections.len() ==> (crate::elf::replacement::is_live_relocation(
            #[trigger] sections[i],
        ) <==> !relocates_only_debug(sections[i]))) by {
        assert forall|i: int| 0 <= i < sections.len() implies (
        crate::elf::replacement::is_live_relocation(#[trigger] sections[i])
            <==> !relocates_only_debug(sections[i])) by {
            lemma_relocation(sections[i]);
        }
    }
    if crate::elf::replacement::first_relocation(sections) is None {
        crate::elf::replacement::lemma_no_relocation(sections);
        assert forall|i: int| 0 <= i < sections.len() implies relocates_only_debug(
            #[trigger] sections[i],
        ) by {
            assert(!crate::elf::replacement::is_live_relocation(sections[i]));
        }
    }
    if forall|i: int| 0 <= i < sections.len() ==> relocates_only_debug(#[trigger] sections[i]) {
        crate::elf::contents::lemma_relocation_free(sections);
    }
}

/// Whether the code at the entry point comes first and everything that is loaded
/// stands within 1 MiB from there on, each section apart from the others.
pub open spec fn is_laid_out(elf: ElfView) -> bool {
    &&& elf.entry % 4 == 0
    &&& exists|i: int|
        0 <= i < elf.sections.len() && is_loaded(#[trigger] elf.sections[i])
            && elf.sections[i].sh_flags / 4 % 2 == 1 && elf.sections[i].sh_addr == elf.entry
            && elf.sections[i].sh_size > 0
    &&& forall|i: int|
        0 <= i < elf.sections.len() && is_loaded(#[trigger] elf.sections[i]) ==> {
            let s = elf.sections[i];
            elf.entry <= s.sh_addr && s.sh_addr + s.sh_size <= elf.entry + 0x10_0000 && s.sh_addr
                + s.sh_size <= u64::MAX
        }
    &&& forall|i: int, j: int|
        0 <= i < j < elf.sections.len() ==> are_apart(
            #[trigger] elf.sections[i],
            #[trigger] elf.sections[j],
        )
}

proof fn lemma_flattens(elf: ElfView, file: Seq<u8>)
    requires
        file.len() <= usize::MAX,
        crate::elf::replacement::segments(elf.sections, file.len()) is Ok,
        is_laid_out(elf),
    ensures
        crate::elf::replacement::flattened(
            file,
            crate::order::ordered(
                crate::elf::replacement::segments(elf.sections, file.len())->Ok_0,
            ),
            elf.entry,
        ) is Ok,
{
    let n = file.len();
    let segs = crate::elf::replacement::segments(elf.sections, n)->Ok_0;
    let sorted = crate::order::ordered(segs);
    lemma_segments_ok(elf.sections, n);
    lemma_segments_apart(elf.sections, n);
    super::order::lemma_in_turn(segs, len_of());
    lemma_layout_iff(sorted);
    crate::order::law_ordered(segs);
    let b = choose|i: int|
        0 <= i < elf.sections.len() && is_loaded(#[trigger] elf.sections[i])
            && elf.sections[i].sh_flags / 4 % 2 == 1 && elf.sections[i].sh_addr == elf.entry
            && elf.sections[i].sh_size > 0;
    let code = segment_of(elf.sections[b]);
    assert(is_in_file(elf.sections[b], n));
    lemma_segments_hold(elf.sections, n, code);
    super::order::lemma_order_keeps(segs, code);
    let c = choose|c: int| 0 <= c < sorted.len() && sorted[c] == code;
    assert forall|i: int| 0 <= i < sorted.len() implies elf.entry <= (#[trigger] sorted[i]).addr
        && sorted[i].addr + sorted[i].len <= elf.entry + 0x10_0000 && sorted[i].addr + sorted[i].len
        <= u64::MAX by {
        let t = sorted[i];
        assert(sorted.contains(t));
        super::order::lemma_order_keeps(segs, t);
        lemma_segments_hold(elf.sections, n, t);
        let m = choose|m: int|
            0 <= m < elf.sections.len() && is_loaded(#[trigger] elf.sections[m]) && t == segment_of(
                elf.sections[m],
            );
        assert(is_in_file(elf.sections[m], n));
    }
    assert(sorted[0].key() <= sorted[c].key());
    assert(sorted[0].addr == elf.entry);
    assert(sections_apart(elf.sections));
    let end = crate::elf::replacement::layout_end(sorted)->Ok_0;
    crate::elf::replacement::lemma_layout(sorted);
    assert(sorted.last() == sorted[sorted.len() - 1]);
    let ranges = crate::elf::replacement::code_ranges(sorted, elf.entry as int);
    lemma_ranges_hold(sorted, elf.entry as int, (0, code.len));
    assert(ranges.contains((0, code.len)));
    let r = choose|r: int| 0 <= r < ranges.len() && ranges[r] == (0usize, code.len);
    assert(ranges[r].0 == 0 && ranges[r].1 > 0);
    assert(crate::elf::replacement::starts_with_code(ranges));
}

proof fn lemma_is_laid_out(elf: ElfView, file: Seq<u8>)
    requires
        file.len() <= usize::MAX,
        crate::elf::replacement::replacement(elf, file) is Ok,
    ensures
        is_laid_out(elf),
{
    let n = file.len();
    let segs = crate::elf::replacement::segments(elf.sections, n)->Ok_0;
    let sorted = crate::order::ordered(segs);
    let end = crate::elf::replacement::layout_end(sorted)->Ok_0;
    lemma_segments_ok(elf.sections, n);
    lemma_segments_apart(elf.sections, n);
    super::order::lemma_in_turn(segs, len_of());
    lemma_layout_iff(sorted);
    crate::order::law_ordered(segs);
    crate::elf::replacement::lemma_layout(sorted);
    assert(sections_apart(elf.sections));
    assert forall|i: int| 0 <= i < elf.sections.len() && is_loaded(#[trigger] elf.sections[i])
        implies ({
        let s = elf.sections[i];
        elf.entry <= s.sh_addr && s.sh_addr + s.sh_size <= elf.entry + 0x10_0000 && s.sh_addr
            + s.sh_size <= u64::MAX
    }) by {
        let t = segment_of(elf.sections[i]);
        assert(is_in_file(elf.sections[i], n));
        lemma_segments_hold(elf.sections, n, t);
        super::order::lemma_order_keeps(segs, t);
        let c = choose|c: int| 0 <= c < sorted.len() && sorted[c] == t;
        assert(sorted[0].key() <= sorted[c].key());
    }
    assert forall|i: int| 0 <= i < sorted.len() implies 0 <= (#[trigger] sorted[i]).addr - elf.entry
        <= usize::MAX by {
        assert(sorted[0].key() <= sorted[i].key());
    }
    let ranges = crate::elf::replacement::code_ranges(sorted, elf.entry as int);
    let r = choose|r: int| 0 <= r < ranges.len() && (#[trigger] ranges[r]).0 == 0 && ranges[r].1 > 0;
    assert(ranges.contains(ranges[r]));
    lemma_ranges_hold(sorted, elf.entry as int, ranges[r]);
    let c = choose|c: int|
        0 <= c < sorted.len() && (#[trigger] sorted[c]).is_code && sorted[c].addr == elf.entry
            + ranges[r].0 && sorted[c].len == ranges[r].1;
    assert(sorted.contains(sorted[c]));
    super::order::lemma_order_keeps(segs, sorted[c]);
    lemma_segments_hold(elf.sections, n, sorted[c]);
    let m = choose|m: int|
        0 <= m < elf.sections.len() && is_loaded(#[trigger] elf.sections[m]) && sorted[c]
            == segment_of(elf.sections[m]);
    assert(is_in_file(elf.sections[m], n));
    assert(elf.sections[m].sh_size > 0);
}

/// Law: which files are replacements. A file is one exactly if it is a linked
/// little-endian 32-bit file for RISC-V with sections, of which those with
/// relocations are named as those of debug information; those that are loaded
/// are neither writable nor thread-local nor without contents, and their
/// contents are in the file; the entry point is word-aligned and the lowest
/// address that is loaded, with code at it; and everything that is loaded stands
/// within 1 MiB from there on, without overlap.
pub proof fn law_replacements_are_accepted(elf: ElfView, file: Seq<u8>)
    requires
        file.len() <= usize::MAX,
    ensures
        crate::elf::replacement::replacement(elf, file) is Ok <==> {
            &&& elf.sections.len() > 0
            &&& elf.machine == 243
            &&& elf.class == 1
            &&& elf.data == 1
            &&& elf.e_type == 2
            &&& forall|i: int|
                0 <= i < elf.sections.len() ==> {
                    &&& relocates_only_debug(#[trigger] elf.sections[i])
                    &&& is_stateless(elf.sections[i])
                    &&& is_in_file(elf.sections[i], file.len())
                }
            &&& is_laid_out(elf)
        },
{
    lemma_relocations(elf.sections);
    lemma_segments_ok(elf.sections, file.len());
    if crate::elf::replacement::replacement(elf, file) is Ok {
        lemma_is_laid_out(elf, file);
    }
    if forall|i: int|
        0 <= i < elf.sections.len() ==> {
            &&& relocates_only_debug(#[trigger] elf.sections[i])
            &&& is_stateless(elf.sections[i])
            &&& is_in_file(elf.sections[i], file.len())
        } {
        assert(all_fine(elf.sections, file.len()));
        if is_laid_out(elf) {
            lemma_flattens(elf, file);
        }
    }
}

/// Law: relocations are told by type and name. In a file that loads, a section
/// of type 4 or 9 has a name that starts with `.rela.debug` or `.rel.debug`.
pub proof fn law_relocations_are_debug(elf: ElfView, file: Seq<u8>)
    requires
        crate::elf::replacement::replacement(elf, file) is Ok,
    ensures
        forall|i: int|
            0 <= i < elf.sections.len() && ((#[trigger] elf.sections[i]).sh_type == 4
                || elf.sections[i].sh_type == 9) ==> elf.sections[i].name is Some && (
            ".rela.debug"@.is_prefix_of(elf.sections[i].name->0) || ".rel.debug"@.is_prefix_of(
                elf.sections[i].name->0,
            )),
{
    lemma_relocations(elf.sections);
    assert forall|i: int|
        0 <= i < elf.sections.len() && ((#[trigger] elf.sections[i]).sh_type == 4
            || elf.sections[i].sh_type == 9) implies elf.sections[i].name is Some && (
    ".rela.debug"@.is_prefix_of(elf.sections[i].name->0) || ".rel.debug"@.is_prefix_of(
        elf.sections[i].name->0,
    )) by {
        assert(relocates_only_debug(elf.sections[i]));
    }
}

/// Law: debug relocations change nothing. A file that gains a section of
/// relocations that is not loaded and whose name starts with `.rela.debug` or
/// `.rel.debug` is read as before.
pub proof fn law_debug_relocations_are_ignored(a: ElfView, b: ElfView, s: SectionView, file: Seq<u8>)
    requires
        a.sections.len() > 0,
        s.sh_type == 4 || s.sh_type == 9,
        s.sh_flags / 2 % 2 == 0,
        s.name is Some,
        ".rela.debug"@.is_prefix_of(s.name->0) || ".rel.debug"@.is_prefix_of(s.name->0),
        b == (ElfView { sections: a.sections.push(s), ..a }),
    ensures
        crate::elf::replacement::replacement(b, file) == crate::elf::replacement::replacement(
            a,
            file,
        ),
{
    assert(b.sections.drop_last() =~= a.sections);
    assert(b.sections.last() == s);
}

/// Whether a section is loaded over `addr`.
pub open spec fn loads_at(s: SectionView, addr: int) -> bool {
    is_loaded(s) && s.sh_addr <= addr < s.sh_addr + s.sh_size
}

/// Law: the image is memory from the entry point on. Each loaded section is in
/// it byte for byte at its address; what no section is loaded over is zero; and
/// it ends with the word in which the last section ends.
pub proof fn law_image_holds_sections(elf: ElfView, file: Seq<u8>)
    requires
        crate::elf::replacement::replacement(elf, file) is Ok,
        file.len() <= usize::MAX,
    ensures
        ({
            let image = crate::elf::replacement::replacement(elf, file)->Ok_0;
            &&& image.base == elf.entry
            &&& image.bytes.len() % 4 == 0
            &&& 0 < image.bytes.len() <= 0x10_0000
            &&& forall|i: int|
                0 <= i < elf.sections.len() && is_loaded(#[trigger] elf.sections[i])
                    ==> elf.sections[i].sh_addr + elf.sections[i].sh_size <= elf.entry
                    + image.bytes.len()
            &&& exists|i: int|
                0 <= i < elf.sections.len() && is_loaded(#[trigger] elf.sections[i])
                    && elf.sections[i].sh_addr + elf.sections[i].sh_size > elf.entry
                    + image.bytes.len() - 4
            &&& forall|i: int, p: int|
                #![trigger elf.sections[i], image.bytes[p]]
                0 <= i < elf.sections.len() && loads_at(elf.sections[i], elf.entry + p)
                    ==> image.bytes[p] == file[elf.sections[i].sh_offset + (elf.entry + p
                    - elf.sections[i].sh_addr)]
            &&& forall|p: int|
                0 <= p < image.bytes.len() && (forall|i: int|
                    0 <= i < elf.sections.len() ==> !loads_at(
                        #[trigger] elf.sections[i],
                        elf.entry + p,
                    )) ==> #[trigger] image.bytes[p] == 0
        }),
{
    let n = file.len();
    let segs = crate::elf::replacement::segments(elf.sections, n)->Ok_0;
    let sorted = crate::order::ordered(segs);
    let image = crate::elf::replacement::replacement(elf, file)->Ok_0;
    let end = crate::elf::replacement::layout_end(sorted)->Ok_0;
    lemma_segments_ok(elf.sections, n);
    lemma_is_laid_out(elf, file);
    crate::order::law_ordered(segs);
    crate::elf::replacement::lemma_layout(sorted);
    crate::elf::replacement::law_image_shape(elf, file);
    let last = sorted.last();
    assert(sorted[sorted.len() - 1] == last);
    assert(sorted.contains(last));
    super::order::lemma_order_keeps(segs, last);
    lemma_segments_hold(elf.sections, n, last);
    let m = choose|m: int|
        0 <= m < elf.sections.len() && is_loaded(#[trigger] elf.sections[m]) && last == segment_of(
            elf.sections[m],
        );
    assert(is_in_file(elf.sections[m], n));
    assert(elf.sections[m].sh_addr + elf.sections[m].sh_size > elf.entry + image.bytes.len() - 4);
    assert forall|i: int| 0 <= i < elf.sections.len() && is_loaded(#[trigger] elf.sections[i])
        implies elf.sections[i].sh_addr + elf.sections[i].sh_size <= elf.entry
        + image.bytes.len() by {
        let t = segment_of(elf.sections[i]);
        assert(is_in_file(elf.sections[i], n));
        lemma_segments_hold(elf.sections, n, t);
        super::order::lemma_order_keeps(segs, t);
        let c = choose|c: int| 0 <= c < sorted.len() && sorted[c] == t;
        assert(sorted[c].addr + sorted[c].len <= end);
    }
    assert forall|i: int, p: int|
        #![trigger elf.sections[i], image.bytes[p]]
        0 <= i < elf.sections.len() && loads_at(elf.sections[i], elf.entry + p) implies image.bytes[p]
        == file[elf.sections[i].sh_offset + (elf.entry + p - elf.sections[i].sh_addr)] by {
        let t = segment_of(elf.sections[i]);
        assert(is_in_file(elf.sections[i], n));
        lemma_segments_hold(elf.sections, n, t);
        super::order::lemma_order_keeps(segs, t);
        let c = choose|c: int| 0 <= c < sorted.len() && sorted[c] == t;
        assert(crate::elf::replacement::covers(sorted[c], elf.entry + p));
        crate::elf::replacement::lemma_byte_at(file, sorted, c, elf.entry + p);
    }
    assert forall|p: int|
        0 <= p < image.bytes.len() && (forall|i: int|
            0 <= i < elf.sections.len() ==> !loads_at(#[trigger] elf.sections[i], elf.entry + p))
        implies #[trigger] image.bytes[p] == 0 by {
        assert forall|j: int| 0 <= j < sorted.len() implies !crate::elf::replacement::covers(
            #[trigger] sorted[j],
            elf.entry + p,
        ) by {
            let t = sorted[j];
            assert(sorted.contains(t));
            super::order::lemma_order_keeps(segs, t);
            lemma_segments_hold(elf.sections, n, t);
            let i = choose|i: int|
                0 <= i < elf.sections.len() && is_loaded(#[trigger] elf.sections[i]) && t
                    == segment_of(elf.sections[i]);
            assert(is_in_file(elf.sections[i], n));
            assert(!loads_at(elf.sections[i], elf.entry + p));
        }
    }
}

proof fn lemma_ranges_in_turn(segs: Seq<Segment>, base: int)
    requires
        in_turn(segs),
        forall|i: int|
            0 <= i < segs.len() ==> 0 <= (#[trigger] segs[i]).addr - base <= usize::MAX,
    ensures
        forall|p: int, q: int|
            0 <= p < q < crate::elf::replacement::code_ranges(segs, base).len() ==> (
            #[trigger] crate::elf::replacement::code_ranges(segs, base)[p]).0
                + crate::elf::replacement::code_ranges(segs, base)[p].1 <= (
            #[trigger] crate::elf::replacement::code_ranges(segs, base)[q]).0,
    decreases segs.len(),
{
    if segs.len() > 0 {
        let front = segs.drop_last();
        let n = front.len() as int;
        assert forall|i: int| 0 <= i < front.len() implies 0 <= (#[trigger] front[i]).addr - base
            <= usize::MAX by {
            assert(front[i] == segs[i]);
        }
        assert forall|i: int, j: int| 0 <= i < j < front.len() implies (#[trigger] front[i]).addr
            + front[i].len <= (#[trigger] front[j]).addr by {
            assert(front[i] == segs[i] && front[j] == segs[j]);
        }
        lemma_ranges_in_turn(front, base);
        let before = crate::elf::replacement::code_ranges(front, base);
        let all = crate::elf::replacement::code_ranges(segs, base);
        assert forall|p: int, q: int| 0 <= p < q < all.len() implies (#[trigger] all[p]).0
            + all[p].1 <= (#[trigger] all[q]).0 by {
            assert(all[p] == before[p]);
            if q < before.len() {
                assert(all[q] == before[q]);
            } else {
                assert(before.contains(before[p]));
                lemma_ranges_hold(front, base, before[p]);
                let i = choose|i: int|
                    0 <= i < front.len() && (#[trigger] front[i]).is_code && front[i].addr == base
                        + before[p].0 && front[i].len == before[p].1;
                assert(front[i] == segs[i] && segs[n] == segs.last());
            }
        }
    }
}

/// Law: the executable ranges are those of the loaded sections with code (flag
/// 4), as distances from the entry point, in the order of their addresses.
pub proof fn law_exec_ranges_are_code(elf: ElfView, file: Seq<u8>, range: (usize, usize))
    requires
        crate::elf::replacement::replacement(elf, file) is Ok,
        file.len() <= usize::MAX,
    ensures
        ({
            let image = crate::elf::replacement::replacement(elf, file)->Ok_0;
            &&& image.exec_ranges.contains(range) <==> exists|i: int|
                0 <= i < elf.sections.len() && is_loaded(#[trigger] elf.sections[i])
                    && elf.sections[i].sh_flags / 4 % 2 == 1 && elf.sections[i].sh_addr
                    == elf.entry + range.0 && elf.sections[i].sh_size == range.1
            &&& forall|p: int, q: int|
                0 <= p < q < image.exec_ranges.len() ==> (#[trigger] image.exec_ranges[p]).0
                    + image.exec_ranges[p].1 <= (#[trigger] image.exec_ranges[q]).0
        }),
{
    let n = file.len();
    let segs = crate::elf::replacement::segments(elf.sections, n)->Ok_0;
    let sorted = crate::order::ordered(segs);
    let image = crate::elf::replacement::replacement(elf, file)->Ok_0;
    lemma_segments_ok(elf.sections, n);
    lemma_is_laid_out(elf, file);
    lemma_layout_iff(sorted);
    crate::elf::replacement::lemma_layout(sorted);
    crate::order::law_ordered(segs);
    assert forall|i: int| 0 <= i < sorted.len() implies 0 <= (#[trigger] sorted[i]).addr - elf.entry
        <= usize::MAX by {
        assert(sorted[0].key() <= sorted[i].key());
    }
    lemma_ranges_in_turn(sorted, elf.entry as int);
    lemma_ranges_hold(sorted, elf.entry as int, range);
    if image.exec_ranges.contains(range) {
        let c = choose|c: int|
            0 <= c < sorted.len() && (#[trigger] sorted[c]).is_code && sorted[c].addr == elf.entry
                + range.0 && sorted[c].len == range.1;
        assert(sorted.contains(sorted[c]));
        super::order::lemma_order_keeps(segs, sorted[c]);
        lemma_segments_hold(elf.sections, n, sorted[c]);
        let i = choose|i: int|
            0 <= i < elf.sections.len() && is_loaded(#[trigger] elf.sections[i]) && sorted[c]
                == segment_of(elf.sections[i]);
        assert(is_in_file(elf.sections[i], n));
        assert(elf.sections[i].sh_size == range.1);
    }
    if exists|i: int|
        0 <= i < elf.sections.len() && is_loaded(#[trigger] elf.sections[i])
            && elf.sections[i].sh_flags / 4 % 2 == 1 && elf.sections[i].sh_addr == elf.entry
            + range.0 && elf.sections[i].sh_size == range.1 {
        let i = choose|i: int|
            0 <= i < elf.sections.len() && is_loaded(#[trigger] elf.sections[i])
                && elf.sections[i].sh_flags / 4 % 2 == 1 && elf.sections[i].sh_addr == elf.entry
                + range.0 && elf.sections[i].sh_size == range.1;
        let t = segment_of(elf.sections[i]);
        assert(is_in_file(elf.sections[i], n));
        lemma_segments_hold(elf.sections, n, t);
        super::order::lemma_order_keeps(segs, t);
        let c = choose|c: int| 0 <= c < sorted.len() && sorted[c] == t;
        assert(sorted[c].is_code);
    }
}

/// Law: why a file is refused before its sections are laid out. A file without
/// sections is refused first, then the headers are looked at, then all sections
/// for relocations, and then each in turn: the first that is thread-local,
/// without contents, writable or behind the end of the file, in this order,
/// decides.
pub proof fn law_section_refusals(elf: ElfView, file: Seq<u8>, n: int)
    requires
        0 <= n < elf.sections.len(),
    ensures
        ({
            let r = crate::elf::replacement::replacement(elf, file);
            let s = elf.sections[n];
            let name = match s.name {
                Some(name) => name,
                None => "<unknown>"@,
            };
            let headers_fit = elf.machine == 243 && elf.class == 1 && elf.data == 1 && elf.e_type
                == 2;
            &&& elf.machine != 243 ==> r is Err && r->Err_0 == (
            ReplacementError::<Seq<char>>::WrongMachine { machine: elf.machine })
            &&& elf.machine == 243 && elf.class != 1 ==> r is Err && r->Err_0
                == ReplacementError::<Seq<char>>::NotElf32
            &&& elf.machine == 243 && elf.class == 1 && elf.data != 1 ==> r is Err && r->Err_0
                == ReplacementError::<Seq<char>>::NotLittleEndian
            &&& elf.machine == 243 && elf.class == 1 && elf.data == 1 && elf.e_type != 2 ==> r is Err
                && r->Err_0 == (ReplacementError::<Seq<char>>::NotExecutable { e_type: elf.e_type })
            &&& headers_fit && !relocates_only_debug(s) && (forall|i: int|
                0 <= i < n ==> relocates_only_debug(#[trigger] elf.sections[i])) ==> r is Err
                && r->Err_0 == (ReplacementError::Relocations {
                name: match s.name {
                    Some(name) => name,
                    None => Seq::empty(),
                },
            })
            &&& headers_fit && (forall|i: int|
                0 <= i < elf.sections.len() ==> relocates_only_debug(#[trigger] elf.sections[i]))
                && (forall|i: int|
                0 <= i < n ==> is_stateless(#[trigger] elf.sections[i]) && is_in_file(
                    elf.sections[i],
                    file.len(),
                )) && s.sh_flags / 2 % 2 == 1 ==> {
                let tls = s.sh_flags / 0x400 % 2 == 1;
                let writable = s.sh_flags % 2 == 1;
                &&& tls ==> r is Err && r->Err_0 == (ReplacementError::Tls { name })
                &&& !tls && s.sh_type == 8 ==> r is Err && r->Err_0 == (
                ReplacementError::NoBits { name })
                &&& !tls && s.sh_type != 8 && writable ==> r is Err && r->Err_0 == (
                ReplacementError::Writable { name })
                &&& !tls && !writable && s.sh_type == 1 && s.sh_offset + s.sh_size > file.len()
                    ==> r is Err && r->Err_0 == (ReplacementError::PastEndOfFile { name })
            }
        }),
{
    let sections = elf.sections;
    let front = sections.take(n);
    assert(sections.take(n + 1).drop_last() =~= front);
    assert(sections.take(n + 1).last() == sections[n]);
    assert(forall|i: int| 0 <= i < n ==> #[trigger] front[i] == sections[i]);
    lemma_relocations(sections);
    lemma_relocations(front);
    lemma_relocation(sections[n]);
    crate::elf::replacement::lemma_first_relocation(sections, n + 1);
    lemma_segments_ok(front, file.len());
    crate::elf::replacement::lemma_first_rejection(sections, n + 1, file.len());
    reveal_strlit("");
    assert(""@ =~= Seq::empty());
    if forall|i: int| 0 <= i < n ==> relocates_only_debug(#[trigger] sections[i]) {
        assert forall|i: int| 0 <= i < front.len() implies relocates_only_debug(
            #[trigger] front[i],
        ) by {
            assert(front[i] == sections[i]);
        }
    }
    if forall|i: int|
        0 <= i < n ==> is_stateless(#[trigger] sections[i]) && is_in_file(
            sections[i],
            file.len(),
        ) {
        assert forall|i: int| 0 <= i < front.len() implies is_stateless(#[trigger] front[i])
            && is_in_file(front[i], file.len()) by {
            assert(front[i] == sections[i]);
        }
    }
}

/// Whether a file gets as far as having its sections laid out.
pub open spec fn is_fit_to_lay_out(elf: ElfView, file_len: nat) -> bool {
    &&& elf.sections.len() > 0
    &&& elf.machine == 243
    &&& elf.class == 1
    &&& elf.data == 1
    &&& elf.e_type == 2
    &&& forall|i: int|
        0 <= i < elf.sections.len() ==> {
            &&& relocates_only_debug(#[trigger] elf.sections[i])
            &&& is_stateless(elf.sections[i])
            &&& is_in_file(elf.sections[i], file_len)
        }
}

/// Whether `s` is loaded, and nothing is loaded below it.
pub open spec fn is_lowest(sections: Seq<SectionView>, s: SectionView) -> bool {
    &&& is_loaded(s)
    &&& forall|i: int|
        0 <= i < sections.len() && is_loaded(#[trigger] sections[i]) ==> s.sh_addr
            <= sections[i].sh_addr
}

/// Whether `s` is loaded, and nothing that is loaded ends behind it.
pub open spec fn is_highest(sections: Seq<SectionView>, s: SectionView) -> bool {
    &&& is_loaded(s)
    &&& forall|i: int|
        0 <= i < sections.len() && is_loaded(#[trigger] sections[i]) ==> sections[i].sh_addr
            + sections[i].sh_size <= s.sh_addr + s.sh_size
}

/// Law: a file that loads nothing is refused for that.
pub proof fn law_empty_files_are_refused(elf: ElfView, file: Seq<u8>)
    requires
        file.len() <= usize::MAX,
        is_fit_to_lay_out(elf, file.len()),
        forall|i: int| 0 <= i < elf.sections.len() ==> !is_loaded(#[trigger] elf.sections[i]),
    ensures
        crate::elf::replacement::replacement(elf, file) is Err,
        crate::elf::replacement::replacement(elf, file)->Err_0 == ReplacementError::<
            Seq<char>,
        >::NothingToLoad,
{
    let segs = crate::elf::replacement::segments(elf.sections, file.len())->Ok_0;
    lemma_relocations(elf.sections);
    lemma_segments_ok(elf.sections, file.len());
    assert(all_fine(elf.sections, file.len()));
    crate::order::law_ordered(segs);
    if segs.len() > 0 {
        assert(segs.contains(segs[0]));
        lemma_segments_hold(elf.sections, file.len(), segs[0]);
    }
}

/// Law: why a file is refused when its sections are laid out, from its lowest
/// section `low` to the end of its highest, `high`. Alignment is looked at first,
/// then overlap, then the size, then whether code comes first, and last the entry
/// point.
pub proof fn law_layout_refusals(elf: ElfView, file: Seq<u8>, low: int, high: int)
    requires
        file.len() <= usize::MAX,
        is_fit_to_lay_out(elf, file.len()),
        0 <= low < elf.sections.len(),
        0 <= high < elf.sections.len(),
        is_lowest(elf.sections, elf.sections[low]),
        is_highest(elf.sections, elf.sections[high]),
    ensures
        ({
            let r = crate::elf::replacement::replacement(elf, file);
            let base = elf.sections[low].sh_addr;
            let end = elf.sections[high].sh_addr + elf.sections[high].sh_size;
            let apart = forall|i: int, j: int|
                0 <= i < j < elf.sections.len() ==> are_apart(
                    #[trigger] elf.sections[i],
                    #[trigger] elf.sections[j],
                );
            let leads = exists|i: int|
                0 <= i < elf.sections.len() && is_loaded(#[trigger] elf.sections[i])
                    && elf.sections[i].sh_flags / 4 % 2 == 1 && elf.sections[i].sh_addr == base
                    && elf.sections[i].sh_size > 0;
            &&& base % 4 != 0 ==> r is Err && r->Err_0 == (
            ReplacementError::<Seq<char>>::BaseUnaligned { base })
            &&& base % 4 == 0 && !(apart && end <= u64::MAX) ==> r is Err && (
            r->Err_0 is Overlap || r->Err_0 is AddressOverflow)
            &&& base % 4 == 0 && apart && end <= u64::MAX ==> {
                &&& end - base > usize::MAX ==> r is Err && r->Err_0 == ReplacementError::<
                    Seq<char>,
                >::TooLargeForHost
                &&& 0x10_0000 < end - base <= usize::MAX ==> r is Err && r->Err_0 == (
                ReplacementError::<Seq<char>>::TooLarge { len: (end - base) as usize })
                &&& end - base <= 0x10_0000 && !leads ==> r is Err && r->Err_0
                    == ReplacementError::<Seq<char>>::NoLeadingCode
                &&& end - base <= 0x10_0000 && leads && elf.entry != base ==> r is Err && r->Err_0
                    == (ReplacementError::<Seq<char>>::EntryNotAtBase { entry: elf.entry, base })
            }
        }),
{
    let n = file.len();
    let segs = crate::elf::replacement::segments(elf.sections, n)->Ok_0;
    let sorted = crate::order::ordered(segs);
    let base = elf.sections[low].sh_addr;
    let end = elf.sections[high].sh_addr + elf.sections[high].sh_size;
    lemma_relocations(elf.sections);
    lemma_segments_ok(elf.sections, n);
    assert(all_fine(elf.sections, n));
    lemma_segments_apart(elf.sections, n);
    super::order::lemma_in_turn(segs, len_of());
    lemma_layout_iff(sorted);
    crate::order::law_ordered(segs);
    let first = segment_of(elf.sections[low]);
    let top = segment_of(elf.sections[high]);
    assert(is_in_file(elf.sections[low], n) && is_in_file(elf.sections[high], n));
    lemma_segments_hold(elf.sections, n, first);
    lemma_segments_hold(elf.sections, n, top);
    super::order::lemma_order_keeps(segs, first);
    super::order::lemma_order_keeps(segs, top);
    let f = choose|f: int| 0 <= f < sorted.len() && sorted[f] == first;
    let t = choose|t: int| 0 <= t < sorted.len() && sorted[t] == top;
    assert forall|i: int| 0 <= i < sorted.len() implies base <= (#[trigger] sorted[i]).addr
        && sorted[i].addr + sorted[i].len <= end by {
        let x = sorted[i];
        assert(sorted.contains(x));
        super::order::lemma_order_keeps(segs, x);
        lemma_segments_hold(elf.sections, n, x);
        let m = choose|m: int|
            0 <= m < elf.sections.len() && is_loaded(#[trigger] elf.sections[m]) && x == segment_of(
                elf.sections[m],
            );
        assert(is_in_file(elf.sections[m], n));
    }
    assert(sorted[0].key() <= sorted[f].key());
    assert(sorted[0].addr == base);
    assert(sorted[t].addr + sorted[t].len == end);
    let apart = forall|i: int, j: int|
        0 <= i < j < elf.sections.len() ==> are_apart(
            #[trigger] elf.sections[i],
            #[trigger] elf.sections[j],
        );
    assert(apart == sections_apart(elf.sections));
    lemma_layout_errors(sorted);
    if base % 4 == 0 && apart && end <= u64::MAX {
        crate::elf::replacement::lemma_layout(sorted);
        assert(sorted.last() == sorted[sorted.len() - 1]);
        assert(crate::elf::replacement::layout_end(sorted)->Ok_0 == end);
        if end - base <= 0x10_0000 {
            assert forall|i: int| 0 <= i < sorted.len() implies 0 <= (#[trigger] sorted[i]).addr
                - base <= usize::MAX by {
                assert(sorted[i].addr + sorted[i].len <= end);
            }
            lemma_leads(elf, n, base);
        }
    }
}

proof fn lemma_layout_errors(segs: Seq<Segment>)
    ensures
        match crate::elf::replacement::layout_end(segs) {
            Err(ReplacementError::Overlap { addr }) => exists|p: int, q: int|
                0 <= p < q < segs.len() && (#[trigger] segs[q]).addr == addr < (
                #[trigger] segs[p]).addr + segs[p].len && crate::elf::replacement::layout_end(
                    segs.take(q),
                ) is Ok,
            Err(ReplacementError::AddressOverflow) => exists|q: int|
                0 <= q < segs.len() && (#[trigger] segs[q]).addr + segs[q].len > u64::MAX
                    && crate::elf::replacement::layout_end(segs.take(q)) is Ok,
            Err(_) => false,
            Ok(_) => true,
        },
    decreases segs.len(),
{
    if segs.len() > 0 {
        let front = segs.drop_last();
        let n = front.len() as int;
        lemma_layout_errors(front);
        assert(segs[n] == segs.last());
        assert(segs.take(n) =~= front);
        match crate::elf::replacement::layout_end(front) {
            Err(ReplacementError::Overlap { addr }) => {
                let (p, q) = choose|p: int, q: int|
                    0 <= p < q < front.len() && (#[trigger] front[q]).addr == addr < (
                    #[trigger] front[p]).addr + front[p].len
                        && crate::elf::replacement::layout_end(front.take(q)) is Ok;
                assert(segs[p] == front[p] && segs[q] == front[q]);
                assert(segs.take(q) =~= front.take(q));
            },
            Err(_) => {
                let q = choose|q: int|
                    0 <= q < front.len() && (#[trigger] front[q]).addr + front[q].len > u64::MAX
                        && crate::elf::replacement::layout_end(front.take(q)) is Ok;
                assert(segs[q] == front[q]);
                assert(segs.take(q) =~= front.take(q));
            },
            Ok(_) => {
                crate::elf::replacement::lemma_layout(front);
                if n > 0 {
                    assert(segs[n - 1] == front.last());
                }
            },
        }
    }
}

/// Law: an overlap that is reported is one. The address is that of a loaded
/// section, another one that starts no later ends behind it, and below it there
/// is no overlap. Likewise, a section that is said to end outside the address
/// space does.
pub proof fn law_overlaps_are_reported(elf: ElfView, file: Seq<u8>)
    requires
        file.len() <= usize::MAX,
        is_fit_to_lay_out(elf, file.len()),
    ensures
        match crate::elf::replacement::replacement(elf, file) {
            Err(ReplacementError::Overlap { addr }) => {
                &&& exists|i: int, j: int|
                    0 <= i < elf.sections.len() && 0 <= j < elf.sections.len() && i != j
                        && is_loaded(elf.sections[i]) && is_loaded(elf.sections[j]) && (
                    #[trigger] elf.sections[i]).sh_addr <= addr < elf.sections[i].sh_addr
                        + elf.sections[i].sh_size && (#[trigger] elf.sections[j]).sh_addr == addr
                &&& forall|i: int, j: int|
                    0 <= i < j < elf.sections.len() && (#[trigger] elf.sections[i]).sh_addr < addr
                        && (#[trigger] elf.sections[j]).sh_addr < addr ==> are_apart(
                        elf.sections[i],
                        elf.sections[j],
                    )
            },
            Err(ReplacementError::AddressOverflow) => exists|i: int|
                0 <= i < elf.sections.len() && is_loaded(#[trigger] elf.sections[i])
                    && elf.sections[i].sh_addr + elf.sections[i].sh_size > u64::MAX,
            _ => true,
        },
{
    let n = file.len();
    let segs = crate::elf::replacement::segments(elf.sections, n)->Ok_0;
    let sorted = crate::order::ordered(segs);
    lemma_relocations(elf.sections);
    lemma_segments_ok(elf.sections, n);
    assert(all_fine(elf.sections, n));
    crate::order::law_ordered(segs);
    lemma_layout_errors(sorted);
    match crate::elf::replacement::replacement(elf, file) {
        Err(ReplacementError::Overlap { addr }) => {
            let (p, q) = choose|p: int, q: int|
                0 <= p < q < sorted.len() && (#[trigger] sorted[q]).addr == addr < (
                #[trigger] sorted[p]).addr + sorted[p].len && crate::elf::replacement::layout_end(
                    sorted.take(q),
                ) is Ok;
            assert(sorted[p].key() <= sorted[q].key());
            let (a, b) = super::order::lemma_order_pairs(segs, p, q);
            let (i, j) = lemma_sections_of(elf.sections, n, a, b);
            assert(elf.sections[i].sh_addr <= addr && elf.sections[j].sh_addr == addr);
            let below = sorted.take(q);
            lemma_layout_iff(below);
            assert forall|k: int, l: int|
                0 <= k < l < elf.sections.len() && (#[trigger] elf.sections[k]).sh_addr < addr && (
                #[trigger] elf.sections[l]).sh_addr < addr implies are_apart(
                elf.sections[k],
                elf.sections[l],
            ) by {
                if is_loaded(elf.sections[k]) && is_loaded(elf.sections[l]) {
                    assert(is_in_file(elf.sections[k], n) && is_in_file(elf.sections[l], n));
                    let (c, d) = lemma_segments_of(elf.sections, n, k, l);
                    let (u, v) = super::order::lemma_order_positions(segs, c, d);
                    if u >= q {
                        assert(sorted[q].key() <= sorted[u].key());
                    }
                    if v >= q {
                        assert(sorted[q].key() <= sorted[v].key());
                    }
                    assert(below[u] == sorted[u] && below[v] == sorted[v]);
                    if u < v {
                        assert(below[u].key() + len_of()(below[u]) <= below[v].key());
                    } else {
                        assert(below[v].key() + len_of()(below[v]) <= below[u].key());
                    }
                }
            }
        },
        Err(ReplacementError::AddressOverflow) => {
            let q = choose|q: int|
                0 <= q < sorted.len() && (#[trigger] sorted[q]).addr + sorted[q].len > u64::MAX;
            assert(sorted.contains(sorted[q]));
            super::order::lemma_order_keeps(segs, sorted[q]);
            let a = choose|a: int| 0 <= a < segs.len() && segs[a] == sorted[q];
            let i = lemma_section_of(elf.sections, n, a);
            assert(elf.sections[i].sh_addr + elf.sections[i].sh_size > u64::MAX);
        },
        _ => {},
    }
}

proof fn lemma_segments_of(sections: Seq<SectionView>, n: nat, i: int, j: int) -> (r: (int, int))
    requires
        crate::elf::replacement::segments(sections, n) is Ok,
        0 <= i < j < sections.len(),
        is_loaded(sections[i]),
        is_loaded(sections[j]),
    ensures
        0 <= r.0 < r.1 < crate::elf::replacement::segments(sections, n)->Ok_0.len(),
        crate::elf::replacement::segments(sections, n)->Ok_0[r.0] == segment_of(sections[i]),
        crate::elf::replacement::segments(sections, n)->Ok_0[r.1] == segment_of(sections[j]),
    decreases sections.len(),
{
    let front = sections.drop_last();
    let before = crate::elf::replacement::segments(front, n)->Ok_0;
    let segs = crate::elf::replacement::segments(sections, n)->Ok_0;
    assert(front[i] == sections[i]);
    if j < front.len() {
        assert(front[j] == sections[j]);
        let (a, b) = lemma_segments_of(front, n, i, j);
        assert(segs[a] == before[a] && segs[b] == before[b]);
        (a, b)
    } else {
        lemma_segments_hold(front, n, segment_of(front[i]));
        let a = choose|a: int| 0 <= a < before.len() && before[a] == segment_of(front[i]);
        assert(segs == before.push(segment_of(sections[j])));
        assert(segs[a] == before[a]);
        (a, before.len() as int)
    }
}

spec fn is_segment_of(t: Segment, s: SectionView) -> bool {
    is_loaded(s) && t.addr == s.sh_addr && t.len == s.sh_size
}

proof fn lemma_section_of(sections: Seq<SectionView>, n: nat, p: int) -> (i: int)
    requires
        n <= usize::MAX,
        all_fine(sections, n),
        crate::elf::replacement::segments(sections, n) is Ok,
        0 <= p < crate::elf::replacement::segments(sections, n)->Ok_0.len(),
    ensures
        0 <= i < sections.len(),
        is_segment_of(crate::elf::replacement::segments(sections, n)->Ok_0[p], sections[i]),
{
    let segs = crate::elf::replacement::segments(sections, n)->Ok_0;
    assert(segs.contains(segs[p]));
    lemma_segments_hold(sections, n, segs[p]);
    let i = choose|i: int|
        0 <= i < sections.len() && is_loaded(#[trigger] sections[i]) && segs[p] == segment_of(
            sections[i],
        );
    assert(is_in_file(sections[i], n));
    i
}

proof fn lemma_sections_of(sections: Seq<SectionView>, n: nat, p: int, q: int) -> (r: (int, int))
    requires
        n <= usize::MAX,
        all_fine(sections, n),
        crate::elf::replacement::segments(sections, n) is Ok,
        0 <= p < crate::elf::replacement::segments(sections, n)->Ok_0.len(),
        0 <= q < crate::elf::replacement::segments(sections, n)->Ok_0.len(),
        p != q,
    ensures
        0 <= r.0 < sections.len(),
        0 <= r.1 < sections.len(),
        r.0 != r.1,
        is_segment_of(crate::elf::replacement::segments(sections, n)->Ok_0[p], sections[r.0]),
        is_segment_of(crate::elf::replacement::segments(sections, n)->Ok_0[q], sections[r.1]),
    decreases sections.len(),
{
    let front = sections.drop_last();
    let last = sections.len() - 1;
    let before = crate::elf::replacement::segments(front, n)->Ok_0;
    assert forall|i: int| 0 <= i < front.len() implies is_stateless(#[trigger] front[i])
        && is_in_file(front[i], n) by {
        assert(front[i] == sections[i]);
    }
    assert(is_in_file(sections[last], n));
    assert(forall|i: int| 0 <= i < front.len() ==> #[trigger] front[i] == sections[i]);
    if p == before.len() {
        (last, lemma_section_of(front, n, q))
    } else if q == before.len() {
        (lemma_section_of(front, n, p), last)
    } else {
        lemma_sections_of(front, n, p, q)
    }
}

proof fn lemma_leads(elf: ElfView, n: nat, base: u64)
    requires
        n <= usize::MAX,
        crate::elf::replacement::segments(elf.sections, n) is Ok,
        all_fine(elf.sections, n),
        ({
            let sorted = crate::order::ordered(
                crate::elf::replacement::segments(elf.sections, n)->Ok_0,
            );
            forall|i: int|
                0 <= i < sorted.len() ==> 0 <= (#[trigger] sorted[i]).addr - base <= usize::MAX
        }),
    ensures
        crate::elf::replacement::starts_with_code(
            crate::elf::replacement::code_ranges(
                crate::order::ordered(crate::elf::replacement::segments(elf.sections, n)->Ok_0),
                base as int,
            ),
        ) <==> exists|i: int|
            0 <= i < elf.sections.len() && is_loaded(#[trigger] elf.sections[i])
                && elf.sections[i].sh_flags / 4 % 2 == 1 && elf.sections[i].sh_addr == base
                && elf.sections[i].sh_size > 0,
{
    let segs = crate::elf::replacement::segments(elf.sections, n)->Ok_0;
    let sorted = crate::order::ordered(segs);
    let ranges = crate::elf::replacement::code_ranges(sorted, base as int);
    if crate::elf::replacement::starts_with_code(ranges) {
        let r = choose|r: int|
            0 <= r < ranges.len() && (#[trigger] ranges[r]).0 == 0 && ranges[r].1 > 0;
        assert(ranges.contains(ranges[r]));
        lemma_ranges_hold(sorted, base as int, ranges[r]);
        let c = choose|c: int|
            0 <= c < sorted.len() && (#[trigger] sorted[c]).is_code && sorted[c].addr == base
                + ranges[r].0 && sorted[c].len == ranges[r].1;
        assert(sorted.contains(sorted[c]));
        super::order::lemma_order_keeps(segs, sorted[c]);
        lemma_segments_hold(elf.sections, n, sorted[c]);
        let m = choose|m: int|
            0 <= m < elf.sections.len() && is_loaded(#[trigger] elf.sections[m]) && sorted[c]
                == segment_of(elf.sections[m]);
        assert(is_in_file(elf.sections[m], n));
        assert(elf.sections[m].sh_size > 0);
    }
    if exists|i: int|
        0 <= i < elf.sections.len() && is_loaded(#[trigger] elf.sections[i])
            && elf.sections[i].sh_flags / 4 % 2 == 1 && elf.sections[i].sh_addr == base
            && elf.sections[i].sh_size > 0 {
        let i = choose|i: int|
            0 <= i < elf.sections.len() && is_loaded(#[trigger] elf.sections[i])
                && elf.sections[i].sh_flags / 4 % 2 == 1 && elf.sections[i].sh_addr == base
                && elf.sections[i].sh_size > 0;
        let x = segment_of(elf.sections[i]);
        assert(is_in_file(elf.sections[i], n));
        lemma_segments_hold(elf.sections, n, x);
        super::order::lemma_order_keeps(segs, x);
        let c = choose|c: int| 0 <= c < sorted.len() && sorted[c] == x;
        assert(sorted[c].is_code);
        lemma_ranges_hold(sorted, base as int, (0, x.len));
        assert(ranges.contains((0usize, x.len)));
        let r = choose|r: int| 0 <= r < ranges.len() && ranges[r] == (0usize, x.len);
        assert(ranges[r].0 == 0 && ranges[r].1 > 0);
    }
}

} // verus!
