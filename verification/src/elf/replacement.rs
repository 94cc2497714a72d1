//! Replacement-ELF loader and patch-ABI enforcement.
//!
//! The replacement is a single, fully linked, position-independent,
//! relocation-free executable. This module flattens its allocatable sections
//! into a contiguous image, enforcing the ABI:
//!
//! - relocation-free (ROM performs no dynamic relocation),
//! - executable code and read-only constants only: no writable, zero-initialised
//!   or thread-local allocatable state,
//! - the entry point is at offset 0 of the image (the block format carries no
//!   entry offset).

use super::error::{LoadError, ReplacementError};
use super::{
    parse_elf, ElfFile, ElfView, Section, SectionView, ELFCLASS32, ELFDATA2LSB, EM_RISCV, ET_EXEC,
    SHT_NOBITS, SHT_PROGBITS, SHT_REL, SHT_RELA,
};
use crate::order::{sort_by_key, Keyed};
use vstd::prelude::*;

verus! {

/// Hard cap on the flattened image.
///
/// Real patch slots are much smaller; the cap keeps malformed files from
/// requesting huge zero-filled gaps.
pub const MAX_FLATTENED_IMAGE_BYTES: usize = 1048576;

/// A flattened replacement code image.
#[derive(Debug, Clone)]
pub struct CodeImage {
    /// Lowest virtual address of the image.
    pub base: u64,
    /// Contiguous image bytes (gaps between sections zero-filled), padded to a
    /// multiple of 4 bytes.
    pub bytes: Vec<u8>,
    /// Executable `(offset, len)` byte ranges within `bytes`.
    pub exec_ranges: Vec<(usize, usize)>,
}

/// [`CodeImage`], for contracts.
#[verifier::ext_equal]
pub struct ImageView {
    pub base: u64,
    pub bytes: Seq<u8>,
    pub exec_ranges: Seq<(usize, usize)>,
}

impl View for CodeImage {
    type V = ImageView;

    open spec fn view(&self) -> ImageView {
        ImageView { base: self.base, bytes: self.bytes@, exec_ranges: self.exec_ranges@ }
    }
}

/// A section that is loaded: `len` bytes at `start` of the file, for `addr`.
#[derive(Debug, Clone, Copy)]
pub struct Segment {
    pub addr: u64,
    pub start: usize,
    pub len: usize,
    pub is_code: bool,
}

impl Keyed for Segment {
    open spec fn key(&self) -> int {
        self.addr as int
    }

    fn sort_key(&self) -> (k: u64) {
        self.addr
    }
}

/// What becomes of a section.
pub enum Disposition {
    /// It takes no part in the image.
    Skip,
    /// It is copied into the image.
    Load(Segment),
    /// It has no place in a replacement.
    Reject(ReplacementError<Seq<char>>),
}

/// Whether a section holds relocations other than those of debug information.
pub open spec fn is_live_relocation(s: SectionView) -> bool {
    &&& s.sh_type == SHT_REL || s.sh_type == SHT_RELA
    &&& !".rela.debug"@.is_prefix_of(s.name_or(""@))
    &&& !".rel.debug"@.is_prefix_of(s.name_or(""@))
}

/// The name of the first section with live relocations.
pub open spec fn first_relocation(sections: Seq<SectionView>) -> Option<Seq<char>>
    decreases sections.len(),
{
    if sections.len() == 0 {
        None
    } else {
        match first_relocation(sections.drop_last()) {
            Some(name) => Some(name),
            None => if is_live_relocation(sections.last()) {
                Some(sections.last().name_or(""@))
            } else {
                None
            },
        }
    }
}

/// What becomes of a section of a file of `file_len` bytes.
pub open spec fn disposition(s: SectionView, file_len: nat) -> Disposition {
    let name = s.name_or("<unknown>"@);
    if !s.is_alloc() {
        Disposition::Skip
    } else if s.is_tls() {
        Disposition::Reject(ReplacementError::Tls { name })
    } else if s.sh_type == SHT_NOBITS {
        Disposition::Reject(ReplacementError::NoBits { name })
    } else if s.is_writable() {
        Disposition::Reject(ReplacementError::Writable { name })
    } else if s.sh_type != SHT_PROGBITS {
        Disposition::Skip
    } else if s.sh_offset + s.sh_size > file_len {
        Disposition::Reject(ReplacementError::PastEndOfFile { name })
    } else {
        Disposition::Load(
            Segment {
                addr: s.sh_addr,
                start: s.sh_offset as usize,
                len: s.sh_size as usize,
                is_code: s.is_exec(),
            },
        )
    }
}

/// The segments to load, in the order of the sections, or the first rejection.
pub open spec fn segments(sections: Seq<SectionView>, file_len: nat) -> Result<
    Seq<Segment>,
    ReplacementError<Seq<char>>,
>
    decreases sections.len(),
{
    if sections.len() == 0 {
        Ok(Seq::empty())
    } else {
        match segments(sections.drop_last(), file_len) {
            Err(e) => Err(e),
            Ok(before) => match disposition(sections.last(), file_len) {
                Disposition::Skip => Ok(before),
                Disposition::Load(s) => Ok(before.push(s)),
                Disposition::Reject(e) => Err(e),
            },
        }
    }
}

/// The end of segments that follow one another without overlap, or the first
/// that breaks the order.
pub open spec fn layout_end(segs: Seq<Segment>) -> Result<int, ReplacementError<Seq<char>>>
    decreases segs.len(),
{
    if segs.len() == 0 {
        Ok(0)
    } else {
        match layout_end(segs.drop_last()) {
            Err(e) => Err(e),
            Ok(prev) => {
                let s = segs.last();
                if s.addr + s.len > u64::MAX {
                    Err(ReplacementError::AddressOverflow)
                } else if s.addr < prev {
                    Err(ReplacementError::Overlap { addr: s.addr })
                } else {
                    Ok(s.addr + s.len)
                }
            },
        }
    }
}

/// Whether a segment holds the byte at `addr`.
pub open spec fn covers(s: Segment, addr: int) -> bool {
    s.addr <= addr < s.addr + s.len
}

/// The byte at `addr`: that of the segment that covers it, else zero.
pub open spec fn byte_at(file: Seq<u8>, segs: Seq<Segment>, addr: int) -> u8 {
    if exists|j: int| 0 <= j < segs.len() && covers(#[trigger] segs[j], addr) {
        let j = choose|j: int| 0 <= j < segs.len() && covers(#[trigger] segs[j], addr);
        file[segs[j].start + (addr - segs[j].addr)]
    } else {
        0
    }
}

/// The `len` bytes from `base` on.
pub open spec fn memory(file: Seq<u8>, segs: Seq<Segment>, base: int, len: nat) -> Seq<u8> {
    Seq::new(len, |k: int| byte_at(file, segs, base + k))
}

/// The executable segments as `(offset, len)` ranges from `base` on.
pub open spec fn code_ranges(segs: Seq<Segment>, base: int) -> Seq<(usize, usize)>
    decreases segs.len(),
{
    if segs.len() == 0 {
        Seq::empty()
    } else if segs.last().is_code {
        code_ranges(segs.drop_last(), base).push(
            ((segs.last().addr - base) as usize, segs.last().len),
        )
    } else {
        code_ranges(segs.drop_last(), base)
    }
}

/// Whether a non-empty range starts at offset 0.
pub open spec fn starts_with_code(ranges: Seq<(usize, usize)>) -> bool {
    exists|n: int| 0 <= n < ranges.len() && (#[trigger] ranges[n]).0 == 0 && ranges[n].1 > 0
}

/// `len` rounded up to whole words.
pub open spec fn whole_words(len: int) -> nat {
    ((len + 3) / 4 * 4) as nat
}

/// The image of segments that are ordered by address.
pub open spec fn flattened(file: Seq<u8>, segs: Seq<Segment>, entry: u64) -> Result<
    ImageView,
    ReplacementError<Seq<char>>,
> {
    let base = segs[0].addr;
    if segs.len() == 0 {
        Err(ReplacementError::NothingToLoad)
    } else if base % 4 != 0 {
        Err(ReplacementError::BaseUnaligned { base })
    } else {
        match layout_end(segs) {
            Err(e) => Err(e),
            Ok(end) => if end - base > usize::MAX {
                Err(ReplacementError::TooLargeForHost)
            } else if end - base > MAX_FLATTENED_IMAGE_BYTES {
                Err(ReplacementError::TooLarge { len: (end - base) as usize })
            } else if !starts_with_code(code_ranges(segs, base as int)) {
                Err(ReplacementError::NoLeadingCode)
            } else if entry != base {
                Err(ReplacementError::EntryNotAtBase { entry, base })
            } else {
                Ok(
                    ImageView {
                        base,
                        bytes: memory(file, segs, base as int, whole_words(end - base)),
                        exec_ranges: code_ranges(segs, base as int),
                    },
                )
            },
        }
    }
}

/// The image that a replacement ELF holds, or why it holds none. `elf` is what
/// its headers say, `file` its bytes.
pub open spec fn replacement(elf: ElfView, file: Seq<u8>) -> Result<
    ImageView,
    ReplacementError<Seq<char>>,
> {
    if elf.sections.len() == 0 {
        Err(ReplacementError::NoSections)
    } else if elf.machine != EM_RISCV {
        Err(ReplacementError::WrongMachine { machine: elf.machine })
    } else if elf.class != ELFCLASS32 {
        Err(ReplacementError::NotElf32)
    } else if elf.data != ELFDATA2LSB {
        Err(ReplacementError::NotLittleEndian)
    } else if elf.e_type != ET_EXEC {
        Err(ReplacementError::NotExecutable { e_type: elf.e_type })
    } else {
        match first_relocation(elf.sections) {
            Some(name) => Err(ReplacementError::Relocations { name }),
            None => match segments(elf.sections, file.len()) {
                Err(e) => Err(e),
                Ok(segs) => flattened(file, crate::order::ordered(segs), elf.entry),
            },
        }
    }
}

/// Whether `text` starts with `prefix`.
fn has_prefix(text: &str, prefix: &str) -> (r: bool)
    ensures
        r == prefix@.is_prefix_of(text@),
{
    let n: usize = prefix.unicode_len();
    if text.unicode_len() < n {
        return false;
    }
    let mut i: usize = 0;
    while i < n
        invariant
            i <= n,
            n == prefix@.len(),
            n <= text@.len(),
            forall|k: int| 0 <= k < i ==> prefix@[k] == text@[k],
        decreases n - i,
    {
        if text.get_char(i) != prefix.get_char(i) {
            return false;
        }
        i = i + 1;
    }
    assert(prefix@ =~= text@.subrange(0, n as int));
    true
}

/// Collects the segments to load.
fn collect_segments(sections: &Vec<Section>, file_len: usize) -> (r: Result<
    Vec<Segment>,
    ReplacementError<String>,
>)
    ensures
        match segments(sections@.map_values(|s: Section| s@), file_len as nat) {
            Err(e) => r is Err && r->Err_0@ == e,
            Ok(segs) => r is Ok && r->Ok_0@ == segs,
        },
{
    let ghost all = sections@.map_values(|s: Section| s@);
    let mut segs: Vec<Segment> = Vec::new();
    let mut i: usize = 0;
    while i < sections.len()
        invariant
            i <= sections.len(),
            all == sections@.map_values(|s: Section| s@),
            segments(all.take(i as int), file_len as nat) == Ok::<
                Seq<Segment>,
                ReplacementError<Seq<char>>,
            >(segs@),
        decreases sections.len() - i,
    {
        let s: &Section = &sections[i];
        proof {
            assert(all.take(i + 1).drop_last() =~= all.take(i as int));
            assert(all.take(i + 1).last() == s@);
            lemma_first_rejection(all, i + 1, file_len as nat);
        }
        i = i + 1;
        if !s.is_alloc() {
            continue;
        }
        let name: String = s.name_or("<unknown>");
        if s.is_tls() {
            return Err(ReplacementError::Tls { name });
        }
        if s.sh_type == SHT_NOBITS {
            return Err(ReplacementError::NoBits { name });
        }
        if s.is_writable() {
            return Err(ReplacementError::Writable { name });
        }
        if s.sh_type != SHT_PROGBITS {
            continue;
        }
        let end: u64 = match s.sh_offset.checked_add(s.sh_size) {
            Some(end) => end,
            None => return Err(ReplacementError::PastEndOfFile { name }),
        };
        if end > file_len as u64 {
            return Err(ReplacementError::PastEndOfFile { name });
        }
        segs.push(
            Segment {
                addr: s.sh_addr,
                start: s.sh_offset as usize,
                len: s.sh_size as usize,
                is_code: s.is_exec(),
            },
        );
    }
    proof {
        assert(all.take(i as int) =~= all);
    }
    Ok(segs)
}

pub(crate) proof fn lemma_first_rejection(sections: Seq<SectionView>, n: int, file_len: nat)
    requires
        0 <= n <= sections.len(),
    ensures
        segments(sections.take(n), file_len) is Err ==> segments(sections, file_len) == segments(
            sections.take(n),
            file_len,
        ),
    decreases sections.len(),
{
    if n == sections.len() {
        assert(sections.take(n) =~= sections);
    } else {
        lemma_first_rejection(sections.drop_last(), n, file_len);
        assert(sections.drop_last().take(n) =~= sections.take(n));
    }
}

/// Finds the first live relocations.
fn find_relocation(sections: &Vec<Section>) -> (r: Option<String>)
    ensures
        match first_relocation(sections@.map_values(|s: Section| s@)) {
            Some(name) => r is Some && r->Some_0@ == name,
            None => r is None,
        },
{
    let ghost all = sections@.map_values(|s: Section| s@);
    let mut i: usize = 0;
    while i < sections.len()
        invariant
            i <= sections.len(),
            all == sections@.map_values(|s: Section| s@),
            first_relocation(all.take(i as int)) is None,
        decreases sections.len() - i,
    {
        let s: &Section = &sections[i];
        proof {
            assert(all.take(i + 1).drop_last() =~= all.take(i as int));
            assert(all.take(i + 1).last() == s@);
            lemma_first_relocation(all, i + 1);
        }
        if s.sh_type == SHT_REL || s.sh_type == SHT_RELA {
            let name: String = s.name_or("");
            if !(has_prefix(name.as_str(), ".rela.debug") || has_prefix(
                name.as_str(),
                ".rel.debug",
            )) {
                return Some(name);
            }
        }
        i = i + 1;
    }
    proof {
        assert(all.take(i as int) =~= all);
    }
    None
}

pub(crate) proof fn lemma_first_relocation(sections: Seq<SectionView>, n: int)
    requires
        0 <= n <= sections.len(),
    ensures
        first_relocation(sections.take(n)) is Some ==> first_relocation(sections)
            == first_relocation(sections.take(n)),
    decreases sections.len(),
{
    if n == sections.len() {
        assert(sections.take(n) =~= sections);
    } else {
        lemma_first_relocation(sections.drop_last(), n);
        assert(sections.drop_last().take(n) =~= sections.take(n));
    }
}

/// Segments that lie one behind the other: none reaches into a later one, and
/// none ends behind the last.
pub(crate) proof fn lemma_layout(segs: Seq<Segment>)
    requires
        layout_end(segs) is Ok,
    ensures
        forall|i: int, j: int|
            0 <= i < j < segs.len() ==> (#[trigger] segs[i]).addr + segs[i].len <= (
            #[trigger] segs[j]).addr,
        forall|i: int|
            0 <= i < segs.len() ==> (#[trigger] segs[i]).addr + segs[i].len <= layout_end(
                segs,
            )->Ok_0 <= u64::MAX,
        segs.len() > 0 ==> layout_end(segs)->Ok_0 == segs.last().addr + segs.last().len,
        layout_end(segs)->Ok_0 >= 0,
    decreases segs.len(),
{
    if segs.len() > 0 {
        let front = segs.drop_last();
        lemma_layout(front);
        assert forall|i: int, j: int| 0 <= i < j < segs.len() implies (#[trigger] segs[i]).addr
            + segs[i].len <= (#[trigger] segs[j]).addr by {
            assert(segs[i] == front[i]);
            if j < front.len() {
                assert(segs[j] == front[j]);
            }
        }
        assert forall|i: int| 0 <= i < segs.len() implies (#[trigger] segs[i]).addr + segs[i].len
            <= layout_end(segs)->Ok_0 <= u64::MAX by {
            if i < front.len() {
                assert(segs[i] == front[i]);
            }
        }
    }
}

proof fn lemma_layout_prefix(segs: Seq<Segment>, n: int)
    requires
        0 <= n <= segs.len(),
    ensures
        layout_end(segs.take(n)) is Err ==> layout_end(segs) == layout_end(segs.take(n)),
    decreases segs.len(),
{
    if n == segs.len() {
        assert(segs.take(n) =~= segs);
    } else {
        lemma_layout_prefix(segs.drop_last(), n);
        assert(segs.drop_last().take(n) =~= segs.take(n));
    }
}

pub(crate) proof fn lemma_byte_at(file: Seq<u8>, segs: Seq<Segment>, j: int, addr: int)
    requires
        layout_end(segs) is Ok,
        0 <= j < segs.len(),
        covers(segs[j], addr),
    ensures
        byte_at(file, segs, addr) == file[segs[j].start + (addr - segs[j].addr)],
{
    lemma_layout(segs);
    let c = choose|c: int| 0 <= c < segs.len() && covers(#[trigger] segs[c], addr);
    assert(covers(segs[c], addr));
    assert(c == j);
}

proof fn lemma_gap(file: Seq<u8>, segs: Seq<Segment>, j: int, addr: int)
    requires
        layout_end(segs) is Ok,
        0 <= j <= segs.len(),
        j > 0 ==> segs[j - 1].addr + segs[j - 1].len <= addr,
        j < segs.len() ==> addr < segs[j].addr,
    ensures
        byte_at(file, segs, addr) == 0,
{
    lemma_layout(segs);
    assert forall|c: int| 0 <= c < segs.len() implies !covers(#[trigger] segs[c], addr) by {
        if c < j - 1 {
            assert(segs[c].addr + segs[c].len <= segs[j - 1].addr);
        } else if c > j {
            assert(segs[j].addr + segs[j].len <= segs[c].addr);
        }
    }
}

/// Checks that ordered segments do not overlap and returns where they end.
fn check_layout(segs: &Vec<Segment>) -> (r: Result<u64, ReplacementError<String>>)
    ensures
        match layout_end(segs@) {
            Err(e) => r is Err && r->Err_0@ == e,
            Ok(end) => r is Ok && r->Ok_0 == end,
        },
{
    let mut prev_end: u64 = 0;
    let mut i: usize = 0;
    while i < segs.len()
        invariant
            i <= segs.len(),
            layout_end(segs@.take(i as int)) == Ok::<int, ReplacementError<Seq<char>>>(
                prev_end as int,
            ),
        decreases segs.len() - i,
    {
        let s: Segment = segs[i];
        proof {
            assert(segs@.take(i + 1).drop_last() =~= segs@.take(i as int));
            lemma_layout_prefix(segs@, i + 1);
        }
        let end: u64 = match s.addr.checked_add(s.len as u64) {
            Some(end) => end,
            None => return Err(ReplacementError::AddressOverflow),
        };
        if s.addr < prev_end {
            return Err(ReplacementError::Overlap { addr: s.addr });
        }
        prev_end = end;
        i = i + 1;
    }
    proof {
        assert(segs@.take(i as int) =~= segs@);
    }
    Ok(prev_end)
}

/// Lists the executable ranges of ordered segments.
fn list_code_ranges(segs: &Vec<Segment>, base: u64) -> (r: Vec<(usize, usize)>)
    requires
        forall|i: int| 0 <= i < segs.len() ==> base <= (#[trigger] segs@[i]).addr,
    ensures
        r@ == code_ranges(segs@, base as int),
{
    let mut ranges: Vec<(usize, usize)> = Vec::new();
    let mut i: usize = 0;
    while i < segs.len()
        invariant
            i <= segs.len(),
            forall|i: int| 0 <= i < segs.len() ==> base <= (#[trigger] segs@[i]).addr,
            ranges@ == code_ranges(segs@.take(i as int), base as int),
        decreases segs.len() - i,
    {
        let s: Segment = segs[i];
        proof {
            assert(segs@.take(i + 1).drop_last() =~= segs@.take(i as int));
        }
        if s.is_code {
            ranges.push(((s.addr - base) as usize, s.len));
        }
        i = i + 1;
    }
    proof {
        assert(segs@.take(i as int) =~= segs@);
    }
    ranges
}

/// Whether a non-empty range starts at offset 0.
fn has_leading_code(ranges: &Vec<(usize, usize)>) -> (r: bool)
    ensures
        r == starts_with_code(ranges@),
{
    let mut i: usize = 0;
    while i < ranges.len()
        invariant
            i <= ranges.len(),
            forall|n: int|
                0 <= n < i ==> !((#[trigger] ranges@[n]).0 == 0 && ranges@[n].1 > 0),
        decreases ranges.len() - i,
    {
        if ranges[i].0 == 0 && ranges[i].1 > 0 {
            assert(ranges@[i as int].0 == 0);
            return true;
        }
        i = i + 1;
    }
    false
}

/// Lays out ordered segments from `base` on, zero-filled to whole words.
fn fill_image(file: &[u8], segs: &Vec<Segment>, base: u64, end: u64) -> (image: Vec<u8>)
    requires
        segs.len() > 0,
        base == segs@[0].addr,
        layout_end(segs@) == Ok::<int, ReplacementError<Seq<char>>>(end as int),
        end - base <= MAX_FLATTENED_IMAGE_BYTES,
        forall|i: int|
            0 <= i < segs.len() ==> (#[trigger] segs@[i]).start + segs@[i].len <= file.len(),
    ensures
        image@ == memory(file@, segs@, base as int, whole_words(end - base)),
{
    proof {
        lemma_layout(segs@);
    }
    let mut image: Vec<u8> = Vec::new();
    let mut i: usize = 0;
    while i < segs.len()
        invariant
            i <= segs.len(),
            segs.len() > 0,
            base == segs@[0].addr,
            layout_end(segs@) == Ok::<int, ReplacementError<Seq<char>>>(end as int),
            end - base <= MAX_FLATTENED_IMAGE_BYTES,
            forall|i: int|
                0 <= i < segs.len() ==> (#[trigger] segs@[i]).start + segs@[i].len <= file.len(),
            i == 0 ==> image.len() == 0,
            i > 0 ==> base + image.len() == segs@[i - 1].addr + segs@[i - 1].len,
            forall|k: int|
                0 <= k < image.len() ==> #[trigger] image@[k] == byte_at(
                    file@,
                    segs@,
                    base + k,
                ),
        decreases segs.len() - i,
    {
        let s: Segment = segs[i];
        proof {
            lemma_layout(segs@);
            if i > 0 {
                assert(segs@[0].addr + segs@[0].len <= s.addr);
                assert(segs@[i - 1].addr + segs@[i - 1].len <= s.addr);
            }
        }
        let offset: usize = (s.addr - base) as usize;
        while image.len() < offset
            invariant
                i < segs.len(),
                s == segs@[i as int],
                offset == s.addr - base,
                layout_end(segs@) is Ok,
                image.len() <= offset,
                i > 0 ==> segs@[i - 1].addr + segs@[i - 1].len <= base + image.len(),
                forall|k: int|
                    0 <= k < image.len() ==> #[trigger] image@[k] == byte_at(
                        file@,
                        segs@,
                        base + k,
                    ),
            decreases offset - image.len(),
        {
            proof {
                lemma_gap(file@, segs@, i as int, base + image.len());
            }
            image.push(0);
        }
        let ghost before = image@;
        image.extend_from_slice(&file[s.start..s.start + s.len]);
        proof {
            assert forall|k: int| 0 <= k < image.len() implies #[trigger] image@[k] == byte_at(
                file@,
                segs@,
                base + k,
            ) by {
                if k < before.len() {
                    assert(image@[k] == before[k]);
                } else {
                    lemma_byte_at(file@, segs@, i as int, base + k);
                }
            }
        }
        i = i + 1;
    }
    proof {
        lemma_layout(segs@);
    }
    while image.len() % 4 != 0
        invariant
            segs.len() > 0,
            layout_end(segs@) == Ok::<int, ReplacementError<Seq<char>>>(end as int),
            0 <= end - base <= MAX_FLATTENED_IMAGE_BYTES,
            end - base <= image.len() <= whole_words(end - base),
            segs@.last().addr + segs@.last().len == end,
            forall|k: int|
                0 <= k < image.len() ==> #[trigger] image@[k] == byte_at(
                    file@,
                    segs@,
                    base + k,
                ),
        decreases whole_words(end - base) - image.len(),
    {
        proof {
            lemma_gap(file@, segs@, segs.len() as int, base + image.len());
            assert(whole_words(end - base) % 4 == 0);
        }
        image.push(0);
    }
    assert(image@ =~= memory(file@, segs@, base as int, whole_words(end - base)));
    image
}

/// Flattens segments into an image.
fn flatten(file: &[u8], segs: &Vec<Segment>, entry: u64) -> (r: Result<
    CodeImage,
    ReplacementError<String>,
>)
    requires
        forall|i: int|
            0 <= i < segs.len() ==> (#[trigger] segs@[i]).start + segs@[i].len <= file.len(),
    ensures
        match flattened(file@, crate::order::ordered(segs@), entry) {
            Err(e) => r is Err && r->Err_0@ == e,
            Ok(image) => r is Ok && r->Ok_0@ == image,
        },
{
    proof {
        crate::order::law_ordered(segs@);
    }
    if segs.len() == 0 {
        return Err(ReplacementError::NothingToLoad);
    }
    let sorted: Vec<Segment> = sort_by_key(segs.as_slice());
    let base: u64 = sorted[0].addr;
    if base % 4 != 0 {
        return Err(ReplacementError::BaseUnaligned { base });
    }
    let end: u64 = match check_layout(&sorted) {
        Ok(end) => end,
        Err(e) => return Err(e),
    };
    proof {
        lemma_layout(sorted@);
        assert forall|i: int| 0 <= i < sorted.len() implies (#[trigger] sorted@[i]).start
            + sorted@[i].len <= file.len() by {
            lemma_ordered_contains(segs@, i);
        }
        assert forall|i: int| 0 <= i < sorted.len() implies base <= (#[trigger] sorted@[i]).addr by {
            assert(sorted@[0].key() <= sorted@[i].key());
        }
        assert(sorted@[sorted.len() - 1] == sorted@.last());
    }
    if end - base > usize::MAX as u64 {
        return Err(ReplacementError::TooLargeForHost);
    }
    if (end - base) as usize > MAX_FLATTENED_IMAGE_BYTES {
        return Err(ReplacementError::TooLarge { len: (end - base) as usize });
    }
    let exec_ranges: Vec<(usize, usize)> = list_code_ranges(&sorted, base);
    if !has_leading_code(&exec_ranges) {
        return Err(ReplacementError::NoLeadingCode);
    }
    if entry != base {
        return Err(ReplacementError::EntryNotAtBase { entry, base });
    }
    let bytes: Vec<u8> = fill_image(file, &sorted, base, end);
    Ok(CodeImage { base, bytes, exec_ranges })
}

pub(crate) proof fn lemma_ordered_contains(segs: Seq<Segment>, i: int)
    requires
        0 <= i < crate::order::ordered(segs).len(),
    ensures
        segs.contains(crate::order::ordered(segs)[i]),
{
    crate::order::law_ordered(segs);
    let s = crate::order::ordered(segs)[i];
    assert(crate::order::ordered(segs).contains(s));
    crate::order::ordered(segs).to_multiset_ensures();
    segs.to_multiset_ensures();
    assert(crate::order::ordered(segs).to_multiset().count(s) > 0);
}

pub(super) proof fn lemma_segments_in_file(sections: Seq<SectionView>, file_len: nat)
    requires
        segments(sections, file_len) is Ok,
        file_len <= usize::MAX,
    ensures
        forall|i: int|
            0 <= i < segments(sections, file_len)->Ok_0.len() ==> (#[trigger] segments(
                sections,
                file_len,
            )->Ok_0[i]).start + segments(sections, file_len)->Ok_0[i].len <= file_len,
    decreases sections.len(),
{
    if sections.len() > 0 {
        lemma_segments_in_file(sections.drop_last(), file_len);
    }
}

/// Flattens a relocation-free replacement ELF into a [`CodeImage`], given what
/// its headers say (`elf`) and its bytes (`file`).
pub fn replacement_image(elf: &ElfFile, file: &[u8]) -> (r: Result<
    CodeImage,
    ReplacementError<String>,
>)
    ensures
        match replacement(elf@, file@) {
            Err(e) => r is Err && r->Err_0@ == e,
            Ok(image) => r is Ok && r->Ok_0@ == image,
        },
{
    if elf.sections.len() == 0 {
        return Err(ReplacementError::NoSections);
    }
    if elf.machine != EM_RISCV {
        return Err(ReplacementError::WrongMachine { machine: elf.machine });
    }
    if elf.class != ELFCLASS32 {
        return Err(ReplacementError::NotElf32);
    }
    if elf.data != ELFDATA2LSB {
        return Err(ReplacementError::NotLittleEndian);
    }
    if elf.e_type != ET_EXEC {
        return Err(ReplacementError::NotExecutable { e_type: elf.e_type });
    }
    if let Some(name) = find_relocation(&elf.sections) {
        return Err(ReplacementError::Relocations { name });
    }
    let segs: Vec<Segment> = match collect_segments(&elf.sections, file.len()) {
        Ok(segs) => segs,
        Err(e) => return Err(e),
    };
    proof {
        lemma_segments_in_file(elf@.sections, file@.len());
    }
    flatten(file, &segs, elf.entry)
}

/// Parses and flattens a relocation-free replacement ELF into a [`CodeImage`].
pub fn load_replacement(file: &[u8]) -> (r: Result<CodeImage, LoadError>)
    ensures
        match super::parsed_elf(file@) {
            None => r matches Err(LoadError::Parse(_)),
            Some(elf) => match replacement(elf, file@) {
                Err(e) => r matches Err(LoadError::Rejected(found)) && found@ == e,
                Ok(image) => r is Ok && r->Ok_0@ == image,
            },
        },
{
    let elf: ElfFile = match parse_elf(file) {
        Ok(elf) => elf,
        Err(e) => return Err(LoadError::Parse(e)),
    };
    match replacement_image(&elf, file) {
        Ok(image) => Ok(image),
        Err(e) => Err(LoadError::Rejected(e)),
    }
}

pub(crate) proof fn lemma_no_relocation(sections: Seq<SectionView>)
    requires
        first_relocation(sections) is None,
    ensures
        forall|i: int| 0 <= i < sections.len() ==> !is_live_relocation(#[trigger] sections[i]),
    decreases sections.len(),
{
    if sections.len() > 0 {
        let front = sections.drop_last();
        lemma_no_relocation(front);
        assert forall|i: int| 0 <= i < sections.len() implies !is_live_relocation(
            #[trigger] sections[i],
        ) by {
            if i < front.len() {
                assert(sections[i] == front[i]);
            }
        }
    }
}

pub(crate) proof fn lemma_no_rejection(sections: Seq<SectionView>, file_len: nat)
    requires
        segments(sections, file_len) is Ok,
    ensures
        forall|i: int|
            0 <= i < sections.len() ==> !(disposition(#[trigger] sections[i], file_len) is Reject),
    decreases sections.len(),
{
    if sections.len() > 0 {
        let front = sections.drop_last();
        lemma_no_rejection(front, file_len);
        assert forall|i: int| 0 <= i < sections.len() implies !(disposition(
            #[trigger] sections[i],
            file_len,
        ) is Reject) by {
            if i < front.len() {
                assert(sections[i] == front[i]);
            }
        }
    }
}

/// Law: the patch ABI is enforced. A file that loads is a linked little-endian
/// RV32 executable without live relocations, and none of its allocatable
/// sections is writable, thread-local or without contents.
pub proof fn law_abi_is_enforced(elf: ElfView, file: Seq<u8>)
    requires
        replacement(elf, file) is Ok,
    ensures
        elf.machine == EM_RISCV,
        elf.class == ELFCLASS32,
        elf.data == ELFDATA2LSB,
        elf.e_type == ET_EXEC,
        forall|i: int|
            0 <= i < elf.sections.len() ==> {
                let s = #[trigger] elf.sections[i];
                &&& !is_live_relocation(s)
                &&& s.is_alloc() ==> !s.is_writable() && !s.is_tls() && s.sh_type != SHT_NOBITS
            },
{
    lemma_no_relocation(elf.sections);
    lemma_no_rejection(elf.sections, file.len());
    assert forall|i: int| 0 <= i < elf.sections.len() implies {
        let s = #[trigger] elf.sections[i];
        &&& !is_live_relocation(s)
        &&& s.is_alloc() ==> !s.is_writable() && !s.is_tls() && s.sh_type != SHT_NOBITS
    } by {
        let d = disposition(elf.sections[i], file.len());
        assert(!(d is Reject));
    }
}

proof fn lemma_code_ranges(segs: Seq<Segment>, base: int, end: int)
    requires
        forall|i: int|
            0 <= i < segs.len() ==> base <= (#[trigger] segs[i]).addr && segs[i].addr
                + segs[i].len <= end,
        end - base <= usize::MAX,
    ensures
        forall|n: int|
            0 <= n < code_ranges(segs, base).len() ==> (#[trigger] code_ranges(segs, base)[n]).0
                + code_ranges(segs, base)[n].1 <= end - base,
    decreases segs.len(),
{
    if segs.len() > 0 {
        let front = segs.drop_last();
        assert forall|i: int| 0 <= i < front.len() implies base <= (#[trigger] front[i]).addr
            && front[i].addr + front[i].len <= end by {
            assert(front[i] == segs[i]);
        }
        lemma_code_ranges(front, base, end);
        let last = segs[segs.len() - 1];
        assert(base <= last.addr && last.addr + last.len <= end);
        let ranges = code_ranges(segs, base);
        assert forall|n: int| 0 <= n < ranges.len() implies (#[trigger] ranges[n]).0 + ranges[n].1
            <= end - base by {
            if n < code_ranges(front, base).len() {
                assert(ranges[n] == code_ranges(front, base)[n]);
            }
        }
    }
}

/// Law: an image is in whole words, not empty and capped; its base and entry
/// are one word-aligned address; code stands at its start; and every executable
/// range lies inside it.
pub proof fn law_image_shape(elf: ElfView, file: Seq<u8>)
    requires
        replacement(elf, file) is Ok,
    ensures
        ({
            let image = replacement(elf, file)->Ok_0;
            &&& image.bytes.len() % 4 == 0
            &&& 0 < image.bytes.len() <= MAX_FLATTENED_IMAGE_BYTES
            &&& image.base % 4 == 0
            &&& image.base == elf.entry
            &&& starts_with_code(image.exec_ranges)
            &&& forall|n: int|
                0 <= n < image.exec_ranges.len() ==> (#[trigger] image.exec_ranges[n]).0
                    + image.exec_ranges[n].1 <= image.bytes.len()
        }),
{
    let segs = segments(elf.sections, file.len())->Ok_0;
    let sorted = crate::order::ordered(segs);
    let image = replacement(elf, file)->Ok_0;
    let end = layout_end(sorted)->Ok_0;
    crate::order::law_ordered(segs);
    lemma_layout(sorted);
    assert forall|i: int| 0 <= i < sorted.len() implies image.base <= (#[trigger] sorted[i]).addr
        && sorted[i].addr + sorted[i].len <= end by {
        assert(sorted[0].key() <= sorted[i].key());
    }
    lemma_code_ranges(sorted, image.base as int, end);
    let n = choose|n: int|
        0 <= n < image.exec_ranges.len() && (#[trigger] image.exec_ranges[n]).0 == 0
            && image.exec_ranges[n].1 > 0;
    assert(image.exec_ranges[n].1 > 0);
}

/// Law: the image is what the file loads. Its base is the lowest address of a
/// loaded section; in the order of their addresses, each loaded section ends
/// before the next starts; each appears in the image byte for byte at its
/// distance from the base; and all other bytes are zero.
pub proof fn law_image_is_memory(elf: ElfView, file: Seq<u8>)
    requires
        replacement(elf, file) is Ok,
        file.len() <= usize::MAX,
    ensures
        ({
            let image = replacement(elf, file)->Ok_0;
            let segs = segments(elf.sections, file.len())->Ok_0;
            &&& exists|i: int| 0 <= i < segs.len() && image.base == (#[trigger] segs[i]).addr
            &&& forall|i: int|
                0 <= i < segs.len() ==> image.base <= (#[trigger] segs[i]).addr && segs[i].addr
                    - image.base + segs[i].len <= image.bytes.len()
            &&& forall|i: int, j: int|
                0 <= i < j < segs.len() ==> (#[trigger] crate::order::ordered(segs)[i]).addr
                    + crate::order::ordered(segs)[i].len <= (#[trigger] crate::order::ordered(
                    segs,
                )[j]).addr
            &&& forall|i: int, k: int|
                #![trigger segs[i], image.bytes[k]]
                0 <= i < segs.len() && covers(segs[i], image.base + k) ==> image.bytes[k]
                    == file[segs[i].start + (image.base + k - segs[i].addr)]
            &&& forall|k: int|
                0 <= k < image.bytes.len() && (forall|i: int|
                    0 <= i < segs.len() ==> !covers(#[trigger] segs[i], image.base + k))
                    ==> #[trigger] image.bytes[k] == 0
        }),
{
    let segs = segments(elf.sections, file.len())->Ok_0;
    let sorted = crate::order::ordered(segs);
    let image = replacement(elf, file)->Ok_0;
    let end = layout_end(sorted)->Ok_0;
    crate::order::law_ordered(segs);
    lemma_layout(sorted);
    lemma_ordered_contains(segs, 0);
    let b = choose|b: int| 0 <= b < segs.len() && segs[b] == sorted[0];
    assert(image.base == segs[b].addr);
    assert forall|i: int| 0 <= i < segs.len() implies image.base <= (#[trigger] segs[i]).addr
        && segs[i].addr - image.base + segs[i].len <= image.bytes.len() by {
        let j = lemma_contains_ordered(segs, i);
        assert(sorted[0].key() <= sorted[j].key());
    }
    assert forall|i: int, k: int|
        #![trigger segs[i], image.bytes[k]]
        0 <= i < segs.len() && covers(segs[i], image.base + k) implies image.bytes[k]
        == file[segs[i].start + (image.base + k - segs[i].addr)] by {
        let j = lemma_contains_ordered(segs, i);
        lemma_byte_at(file, sorted, j, image.base + k);
    }
    assert forall|k: int|
        0 <= k < image.bytes.len() && (forall|i: int|
            0 <= i < segs.len() ==> !covers(#[trigger] segs[i], image.base + k)) implies
        #[trigger] image.bytes[k] == 0 by {
        assert forall|j: int| 0 <= j < sorted.len() implies !covers(
            #[trigger] sorted[j],
            image.base + k,
        ) by {
            lemma_ordered_contains(segs, j);
            let i = choose|i: int| 0 <= i < segs.len() && segs[i] == sorted[j];
            assert(!covers(segs[i], image.base + k));
        }
    }
}

proof fn lemma_contains_ordered(segs: Seq<Segment>, i: int) -> (j: int)
    requires
        0 <= i < segs.len(),
    ensures
        0 <= j < crate::order::ordered(segs).len(),
        crate::order::ordered(segs)[j] == segs[i],
{
    crate::order::law_ordered(segs);
    let sorted = crate::order::ordered(segs);
    sorted.to_multiset_ensures();
    segs.to_multiset_ensures();
    assert(segs.contains(segs[i]));
    assert(segs.to_multiset().count(segs[i]) > 0);
    assert(sorted.contains(segs[i]));
    choose|j: int| 0 <= j < sorted.len() && sorted[j] == segs[i]
}

} // verus!
