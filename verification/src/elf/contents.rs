//! What of a file its image depends on: the contents of the sections, not their
//! order and not where in the file they stand.

use super::replacement::Segment;
use super::{ElfView, SectionView};
use crate::order::Keyed;
use vstd::multiset::Multiset;
use vstd::prelude::*;

verus! {

/// A loaded section: its bytes and where they go.
pub struct Piece {
    pub addr: u64,
    pub data: Seq<u8>,
    pub is_code: bool,
}

/// What becomes of a section, without where it stands in the file.
pub enum Part {
    /// It takes no part in the image.
    Skip,
    /// It is copied into the image.
    Load(Piece),
    /// It has no place in a replacement.
    Reject,
}

/// What a section means to the loader.
pub struct Role {
    /// Whether it holds relocations other than those of debug information.
    pub relocates: bool,
    pub part: Part,
}

/// What a segment of `file` loads.
pub open spec fn piece(file: Seq<u8>, s: Segment) -> Piece {
    Piece { addr: s.addr, data: file.subrange(s.start as int, s.start + s.len), is_code: s.is_code }
}

/// What a section of `file` means to the loader.
pub open spec fn role(file: Seq<u8>, s: SectionView) -> Role {
    Role {
        relocates: super::replacement::is_live_relocation(s),
        part: match super::replacement::disposition(s, file.len()) {
            super::replacement::Disposition::Skip => Part::Skip,
            super::replacement::Disposition::Load(segment) => Part::Load(piece(file, segment)),
            super::replacement::Disposition::Reject(_) => Part::Reject,
        },
    }
}

/// What the sections of `file` mean to the loader, each in turn.
pub open spec fn roles(file: Seq<u8>, sections: Seq<SectionView>) -> Seq<Role> {
    sections.map_values(|s: SectionView| role(file, s))
}

/// Whether no loaded section is empty.
pub open spec fn loads_no_empty(roles: Seq<Role>) -> bool {
    forall|i: int|
        0 <= i < roles.len() ==> ((#[trigger] roles[i]).part matches Part::Load(p)
            ==> p.data.len() > 0)
}

/// Whether two files have the same header fields.
pub open spec fn same_header(a: ElfView, b: ElfView) -> bool {
    &&& a.machine == b.machine
    &&& a.class == b.class
    &&& a.data == b.data
    &&& a.e_type == b.e_type
    &&& a.entry == b.entry
}

/// What a section loads, if it does.
spec fn loaded() -> spec_fn(Role) -> Multiset<Piece> {
    |r: Role|
        match r.part {
            Part::Load(p) => Multiset::singleton(p),
            _ => Multiset::empty(),
        }
}

spec fn pieces(file: Seq<u8>, segs: Seq<Segment>) -> Seq<Piece> {
    segs.map_values(|s: Segment| piece(file, s))
}

pub(crate) proof fn lemma_relocation_free(sections: Seq<SectionView>)
    requires
        forall|i: int|
            0 <= i < sections.len() ==> !super::replacement::is_live_relocation(
                #[trigger] sections[i],
            ),
    ensures
        super::replacement::first_relocation(sections) is None,
    decreases sections.len(),
{
    if sections.len() > 0 {
        let front = sections.drop_last();
        assert forall|i: int| 0 <= i < front.len() implies !super::replacement::is_live_relocation(
            #[trigger] front[i],
        ) by {
            assert(front[i] == sections[i]);
        }
        lemma_relocation_free(front);
        assert(!super::replacement::is_live_relocation(sections[sections.len() - 1]));
    }
}

proof fn lemma_pieces(file: Seq<u8>, sections: Seq<SectionView>)
    requires
        forall|i: int|
            0 <= i < sections.len() ==> !((#[trigger] roles(file, sections)[i]).part is Reject),
    ensures
        super::replacement::segments(sections, file.len()) is Ok,
        pieces(file, super::replacement::segments(sections, file.len())->Ok_0).to_multiset()
            == crate::permutation::gathered(roles(file, sections), loaded()),
    decreases sections.len(),
{
    broadcast use vstd::seq_lib::group_to_multiset_ensures;

    let all = roles(file, sections);
    if sections.len() == 0 {
        let none = pieces(file, super::replacement::segments(sections, file.len())->Ok_0);
        assert(none =~= Seq::empty());
        assert(none.to_multiset() =~= Multiset::empty());
    } else {
        let front = sections.drop_last();
        let last = sections.last();
        assert(all.drop_last() =~= roles(file, front));
        assert(all.last() == role(file, last));
        assert forall|i: int| 0 <= i < front.len() implies !((#[trigger] roles(
            file,
            front,
        )[i]).part is Reject) by {
            assert(roles(file, front)[i] == all[i]);
        }
        lemma_pieces(file, front);
        assert(!(all[all.len() - 1].part is Reject));
        let before = super::replacement::segments(front, file.len())->Ok_0;
        let segs = super::replacement::segments(sections, file.len())->Ok_0;
        match super::replacement::disposition(last, file.len()) {
            super::replacement::Disposition::Load(s) => {
                assert(pieces(file, segs) =~= pieces(file, before).push(piece(file, s)));
                assert(pieces(file, segs).to_multiset() =~= crate::permutation::gathered(
                    all,
                    loaded(),
                ));
            },
            _ => {
                assert(crate::permutation::gathered(all, loaded())
                    =~= crate::permutation::gathered(roles(file, front), loaded()));
            },
        }
    }
}

proof fn lemma_no_empty_segment(file: Seq<u8>, sections: Seq<SectionView>)
    requires
        file.len() <= usize::MAX,
        loads_no_empty(roles(file, sections)),
        super::replacement::segments(sections, file.len()) is Ok,
    ensures
        forall|k: int|
            0 <= k < super::replacement::segments(sections, file.len())->Ok_0.len()
                ==> (#[trigger] super::replacement::segments(sections, file.len())->Ok_0[k]).len
                > 0,
    decreases sections.len(),
{
    if sections.len() > 0 {
        let front = sections.drop_last();
        let last = sections.last();
        let all = roles(file, sections);
        assert forall|i: int| 0 <= i < roles(file, front).len() implies ((#[trigger] roles(
            file,
            front,
        )[i]).part matches Part::Load(p) ==> p.data.len() > 0) by {
            assert(roles(file, front)[i] == all[i]);
        }
        lemma_no_empty_segment(file, front);
        assert(all[all.len() - 1] == role(file, last));
    }
}

/// Whether two rows of segments have one layout and load the same bytes.
spec fn alike(
    file_a: Seq<u8>,
    a: Seq<Segment>,
    file_b: Seq<u8>,
    b: Seq<Segment>,
) -> bool {
    &&& a.len() == b.len()
    &&& forall|i: int|
        0 <= i < a.len() ==> (#[trigger] a[i]).addr == b[i].addr && a[i].len == b[i].len
            && a[i].is_code == b[i].is_code
    &&& forall|i: int, k: int|
        #![trigger a[i], file_a[a[i].start + k]]
        0 <= i < a.len() && 0 <= k < a[i].len ==> file_a[a[i].start + k] == file_b[b[i].start + k]
}

proof fn lemma_alike_layout(
    file_a: Seq<u8>,
    a: Seq<Segment>,
    file_b: Seq<u8>,
    b: Seq<Segment>,
    base: int,
)
    requires
        alike(file_a, a, file_b, b),
    ensures
        super::replacement::layout_end(a) == super::replacement::layout_end(b),
        super::replacement::code_ranges(a, base) == super::replacement::code_ranges(b, base),
    decreases a.len(),
{
    if a.len() > 0 {
        let c = a.drop_last();
        let d = b.drop_last();
        assert forall|i: int| 0 <= i < c.len() implies (#[trigger] c[i]).addr == d[i].addr
            && c[i].len == d[i].len && c[i].is_code == d[i].is_code by {
            assert(c[i] == a[i] && d[i] == b[i]);
        }
        assert forall|i: int, k: int|
            #![trigger c[i], file_a[c[i].start + k]]
            0 <= i < c.len() && 0 <= k < c[i].len implies file_a[c[i].start + k] == file_b[d[i].start
            + k] by {
            assert(c[i] == a[i] && d[i] == b[i]);
            assert(file_a[a[i].start + k] == file_b[b[i].start + k]);
        }
        lemma_alike_layout(file_a, c, file_b, d, base);
        let n = a.len() - 1;
        assert(a[n].addr == b[n].addr && a[n].len == b[n].len && a[n].is_code == b[n].is_code);
    }
}

proof fn lemma_alike_byte(
    file_a: Seq<u8>,
    a: Seq<Segment>,
    file_b: Seq<u8>,
    b: Seq<Segment>,
    addr: int,
)
    requires
        alike(file_a, a, file_b, b),
        super::replacement::layout_end(a) is Ok,
    ensures
        super::replacement::byte_at(file_a, a, addr) == super::replacement::byte_at(
            file_b,
            b,
            addr,
        ),
{
    lemma_alike_layout(file_a, a, file_b, b, 0);
    if exists|j: int| 0 <= j < a.len() && super::replacement::covers(#[trigger] a[j], addr) {
        let j = choose|j: int|
            0 <= j < a.len() && super::replacement::covers(#[trigger] a[j], addr);
        let k = addr - a[j].addr;
        assert(a[j].addr == b[j].addr && a[j].len == b[j].len);
        assert(super::replacement::covers(b[j], addr));
        super::replacement::lemma_byte_at(file_a, a, j, addr);
        super::replacement::lemma_byte_at(file_b, b, j, addr);
        assert(file_a[a[j].start + k] == file_b[b[j].start + k]);
    } else {
        assert forall|j: int| 0 <= j < b.len() implies !super::replacement::covers(
            #[trigger] b[j],
            addr,
        ) by {
            assert(a[j].addr == b[j].addr && a[j].len == b[j].len);
        }
    }
}

proof fn lemma_alike_flattened(
    file_a: Seq<u8>,
    a: Seq<Segment>,
    file_b: Seq<u8>,
    b: Seq<Segment>,
    entry: u64,
)
    requires
        alike(file_a, a, file_b, b),
        super::replacement::flattened(file_a, a, entry) is Ok,
    ensures
        super::replacement::flattened(file_b, b, entry) == super::replacement::flattened(
            file_a,
            a,
            entry,
        ),
{
    let base = a[0].addr as int;
    assert(a[0].addr == b[0].addr);
    lemma_alike_layout(file_a, a, file_b, b, base);
    let len = super::replacement::whole_words(
        super::replacement::layout_end(a)->Ok_0 - base,
    );
    let memory_a = super::replacement::memory(file_a, a, base, len);
    let memory_b = super::replacement::memory(file_b, b, base, len);
    assert forall|k: int| 0 <= k < len implies #[trigger] memory_a[k] == memory_b[k] by {
        lemma_alike_byte(file_a, a, file_b, b, base + k);
    }
    assert(memory_a =~= memory_b);
}

/// Segments in the order of their addresses, and what they load.
proof fn lemma_ordered_pieces(file: Seq<u8>, sections: Seq<SectionView>)
    requires
        file.len() <= usize::MAX,
        super::replacement::segments(sections, file.len()) is Ok,
    ensures
        ({
            let segs = super::replacement::segments(sections, file.len())->Ok_0;
            let sorted = crate::order::ordered(segs);
            &&& pieces(file, sorted).to_multiset() == pieces(file, segs).to_multiset()
            &&& forall|i: int|
                0 <= i < sorted.len() ==> (#[trigger] sorted[i]).start + sorted[i].len
                    <= file.len() && segs.contains(sorted[i])
        }),
{
    let segs = super::replacement::segments(sections, file.len())->Ok_0;
    let sorted = crate::order::ordered(segs);
    crate::order::law_ordered(segs);
    crate::permutation::lemma_map(sorted, segs, |s: Segment| piece(file, s));
    super::replacement::lemma_segments_in_file(sections, file.len());
    assert forall|i: int| 0 <= i < sorted.len() implies (#[trigger] sorted[i]).start + sorted[i].len
        <= file.len() && segs.contains(sorted[i]) by {
        super::replacement::lemma_ordered_contains(segs, i);
    }
}

proof fn lemma_same_contents(a: ElfView, file_a: Seq<u8>, b: ElfView, file_b: Seq<u8>)
    requires
        file_a.len() <= usize::MAX,
        file_b.len() <= usize::MAX,
        same_header(a, b),
        roles(file_a, a.sections).to_multiset() == roles(file_b, b.sections).to_multiset(),
        loads_no_empty(roles(file_a, a.sections)),
        super::replacement::replacement(a, file_a) is Ok,
    ensures
        super::replacement::replacement(b, file_b) == super::replacement::replacement(a, file_a),
{
    let roles_a = roles(file_a, a.sections);
    let roles_b = roles(file_b, b.sections);
    crate::permutation::lemma_same_len(roles_a, roles_b);
    super::replacement::lemma_no_relocation(a.sections);
    super::replacement::lemma_no_rejection(a.sections, file_a.len());
    assert forall|i: int| 0 <= i < roles_a.len() implies !(#[trigger] roles_a[i]).relocates
        && !(roles_a[i].part is Reject) by {
        let s = a.sections[i];
        assert(!super::replacement::is_live_relocation(s));
        assert(!(super::replacement::disposition(s, file_a.len()) is Reject));
    }
    assert forall|i: int| 0 <= i < roles_b.len() implies !(#[trigger] roles_b[i]).relocates
        && !(roles_b[i].part is Reject) by {
        let j = crate::permutation::lemma_find(roles_b, roles_a, i);
        assert(!roles_a[j].relocates);
    }
    assert forall|i: int|
        0 <= i < b.sections.len() implies !super::replacement::is_live_relocation(
        #[trigger] b.sections[i],
    ) by {
        assert(!roles_b[i].relocates);
    }
    lemma_relocation_free(b.sections);
    lemma_pieces(file_a, a.sections);
    lemma_pieces(file_b, b.sections);
    crate::permutation::lemma_gathered(roles_a, roles_b, loaded());

    let segs_a = super::replacement::segments(a.sections, file_a.len())->Ok_0;
    let segs_b = super::replacement::segments(b.sections, file_b.len())->Ok_0;
    let sorted_a = crate::order::ordered(segs_a);
    let sorted_b = crate::order::ordered(segs_b);
    let pieces_a = pieces(file_a, sorted_a);
    let pieces_b = pieces(file_b, sorted_b);
    lemma_ordered_pieces(file_a, a.sections);
    lemma_ordered_pieces(file_b, b.sections);
    lemma_no_empty_segment(file_a, a.sections);
    super::replacement::lemma_layout(sorted_a);
    crate::order::law_ordered(segs_b);
    let key = |p: Piece| p.addr as int;
    assert forall|i: int, j: int| 0 <= i < j < pieces_a.len() implies key(#[trigger] pieces_a[i])
        < key(#[trigger] pieces_a[j]) by {
        assert(segs_a.contains(sorted_a[i]));
        let n = choose|n: int| 0 <= n < segs_a.len() && segs_a[n] == sorted_a[i];
        assert(segs_a[n].len > 0);
        assert(sorted_a[i].addr + sorted_a[i].len <= sorted_a[j].addr);
    }
    assert forall|i: int, j: int| 0 <= i <= j < pieces_b.len() implies key(#[trigger] pieces_b[i])
        <= key(#[trigger] pieces_b[j]) by {
        assert(sorted_b[i].key() <= sorted_b[j].key());
    }
    crate::permutation::lemma_ordered_is_unique(pieces_a, pieces_b, key);
    assert(pieces_a.len() == sorted_a.len() && pieces_b.len() == sorted_b.len());

    assert forall|i: int| 0 <= i < sorted_a.len() implies (#[trigger] sorted_a[i]).addr
        == sorted_b[i].addr && sorted_a[i].len == sorted_b[i].len && sorted_a[i].is_code
        == sorted_b[i].is_code by {
        assert(pieces_a[i] == pieces_b[i]);
        assert(pieces_a[i].data.len() == sorted_a[i].len);
        assert(sorted_b[i].start + sorted_b[i].len <= file_b.len());
        assert(pieces_b[i].data.len() == sorted_b[i].len);
    }
    assert forall|i: int, k: int|
        #![trigger sorted_a[i], file_a[sorted_a[i].start + k]]
        0 <= i < sorted_a.len() && 0 <= k < sorted_a[i].len implies file_a[sorted_a[i].start + k]
        == file_b[sorted_b[i].start + k] by {
        assert(pieces_a[i] == pieces_b[i]);
        assert(sorted_a[i].len == sorted_b[i].len);
        assert(pieces_a[i].data[k] == file_a[sorted_a[i].start + k]);
        assert(pieces_b[i].data[k] == file_b[sorted_b[i].start + k]);
    }
    lemma_alike_flattened(file_a, sorted_a, file_b, sorted_b, a.entry);
}

/// Law: an image goes by contents. Two files with the same header fields, whose
/// sections mean the same to the loader up to their order, none of them loaded
/// and empty, load alike and give one image, wherever the sections stand in the
/// files.
pub proof fn law_image_goes_by_contents(a: ElfView, file_a: Seq<u8>, b: ElfView, file_b: Seq<u8>)
    requires
        file_a.len() <= usize::MAX,
        file_b.len() <= usize::MAX,
        same_header(a, b),
        roles(file_a, a.sections).to_multiset() == roles(file_b, b.sections).to_multiset(),
        loads_no_empty(roles(file_a, a.sections)),
    ensures
        super::replacement::replacement(a, file_a) is Ok <==> super::replacement::replacement(
            b,
            file_b,
        ) is Ok,
        super::replacement::replacement(a, file_a) is Ok ==> super::replacement::replacement(
            a,
            file_a,
        ) == super::replacement::replacement(b, file_b),
{
    if super::replacement::replacement(a, file_a) is Ok {
        lemma_same_contents(a, file_a, b, file_b);
    }
    if super::replacement::replacement(b, file_b) is Ok {
        let roles_a = roles(file_a, a.sections);
        let roles_b = roles(file_b, b.sections);
        assert forall|i: int| 0 <= i < roles_b.len() implies ((#[trigger] roles_b[i]).part matches
            Part::Load(p) ==> p.data.len() > 0) by {
            let j = crate::permutation::lemma_find(roles_b, roles_a, i);
            assert(roles_a[j] == roles_b[i]);
        }
        lemma_same_contents(b, file_b, a, file_a);
    }
}

/// Law: the order of the section headers plays no part. A file whose headers
/// list the same sections in another order, none of them loaded and empty, loads
/// alike and gives the same image.
pub proof fn law_section_order_is_moot(a: ElfView, b: ElfView, file: Seq<u8>)
    requires
        file.len() <= usize::MAX,
        same_header(a, b),
        a.sections.to_multiset() == b.sections.to_multiset(),
        forall|i: int|
            0 <= i < a.sections.len() ==> (super::replacement::disposition(
                #[trigger] a.sections[i],
                file.len(),
            ) is Load ==> a.sections[i].sh_size > 0),
    ensures
        super::replacement::replacement(a, file) is Ok <==> super::replacement::replacement(
            b,
            file,
        ) is Ok,
        super::replacement::replacement(a, file) is Ok ==> super::replacement::replacement(a, file)
            == super::replacement::replacement(b, file),
{
    let roles_a = roles(file, a.sections);
    crate::permutation::lemma_map(a.sections, b.sections, |s: SectionView| role(file, s));
    assert forall|i: int| 0 <= i < roles_a.len() implies ((#[trigger] roles_a[i]).part matches
        Part::Load(p) ==> p.data.len() > 0) by {
        assert(roles_a[i] == role(file, a.sections[i]));
    }
    law_image_goes_by_contents(a, file, b, file);
}

} // verus!
