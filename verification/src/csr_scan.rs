//! RV32IMC executable scanner: a pure instruction decoder.
//!
//! This module reports *facts* about executable code: semantic CSR writes and
//! privileged `SYSTEM` instructions. It does not decide what is allowed; that
//! is the patch ABI's job (see [`crate::abi`]).
//!
//! Instruction boundaries are resolved with an exact length walk: the low two
//! bits of the first byte tell a 16-bit compressed instruction (not `0b11`)
//! from a 32-bit one (`0b11`). The compressed set has no CSR or privileged
//! `SYSTEM` instruction, so only 32-bit words are decoded further.

use crate::text::{push_decimal, push_hex};
use vstd::prelude::*;

verus! {

/// Major opcode of the `SYSTEM` instructions.
pub const OPCODE_SYSTEM: u32 = 0x73;

/// A privileged or trap-altering `SYSTEM` instruction.
#[derive(Debug, Clone, Copy, PartialEq, Eq, Structural)]
pub enum PrivKind {
    Ecall,
    Ebreak,
    Wfi,
    Mret,
    Sret,
    Dret,
}

impl PrivKind {
    /// The instruction word.
    pub open spec fn encoding(self) -> u32 {
        match self {
            PrivKind::Ecall => 0x0000_0073,
            PrivKind::Ebreak => 0x0010_0073,
            PrivKind::Wfi => 0x1050_0073,
            PrivKind::Mret => 0x3020_0073,
            PrivKind::Sret => 0x1020_0073,
            PrivKind::Dret => 0x7b20_0073,
        }
    }

    /// The assembly mnemonic.
    pub open spec fn name(self) -> &'static str {
        match self {
            PrivKind::Ecall => "ecall",
            PrivKind::Ebreak => "ebreak",
            PrivKind::Wfi => "wfi",
            PrivKind::Mret => "mret",
            PrivKind::Sret => "sret",
            PrivKind::Dret => "dret",
        }
    }

    /// The assembly mnemonic.
    pub fn mnemonic(self) -> (s: &'static str)
        ensures
            s == self.name(),
    {
        match self {
            PrivKind::Ecall => "ecall",
            PrivKind::Ebreak => "ebreak",
            PrivKind::Wfi => "wfi",
            PrivKind::Mret => "mret",
            PrivKind::Sret => "sret",
            PrivKind::Dret => "dret",
        }
    }
}

/// A semantic CSR write found in the code.
#[derive(Debug, Clone, PartialEq, Eq)]
pub struct CsrWrite {
    /// Byte offset of the instruction within the code image.
    pub offset: usize,
    /// CSR number.
    pub csr: u16,
    /// Mnemonic of the instruction.
    pub mnemonic: &'static str,
}

/// A privileged `SYSTEM` instruction found in the code.
#[derive(Debug, Clone, PartialEq, Eq)]
pub struct PrivInstr {
    /// Byte offset of the instruction within the code image.
    pub offset: usize,
    /// Which privileged instruction.
    pub kind: PrivKind,
}

/// Facts decoded from the executable ranges of a code image.
#[derive(Debug, Default, PartialEq, Eq)]
pub struct ScanFindings {
    /// Semantic CSR writes, in the order of the walk.
    pub csr_writes: Vec<CsrWrite>,
    /// Privileged `SYSTEM` instructions, in the order of the walk.
    pub priv_instrs: Vec<PrivInstr>,
}

/// Why an instruction stream could not be walked.
#[derive(Debug, Clone, Copy, PartialEq, Eq, Structural)]
pub enum ScanError {
    /// The end of a range does not fit the address space.
    RangeOverflow { start: usize, len: usize },
    /// A range ends behind the image.
    RangeOutside { start: usize, end: usize, image_len: usize },
    /// One byte is left where an instruction starts.
    Truncated { offset: usize },
    /// Two or three bytes are left where a 32-bit instruction starts.
    TruncatedWord { offset: usize },
    /// An encoding of 48 bits or more.
    Wide { offset: usize },
}

impl ScanError {
    /// The error as text.
    pub open spec fn text(self) -> Seq<char> {
        match self {
            ScanError::RangeOverflow { start, len } => "executable range "@ + crate::text::hex(
                start as nat,
            ) + " length "@ + crate::text::hex(len as nat) + " overflows"@,
            ScanError::RangeOutside { start, end, image_len } => "executable range "@
                + crate::text::hex(start as nat) + ".."@ + crate::text::hex(end as nat)
                + " exceeds image length "@ + crate::text::decimal(image_len as nat),
            ScanError::Truncated { offset } => "truncated instruction at offset "@
                + crate::text::hex(offset as nat) + " (1 byte before end of section)"@,
            ScanError::TruncatedWord { offset } => "truncated 32-bit instruction at offset "@
                + crate::text::hex(offset as nat),
            ScanError::Wide { offset } => "unsupported wide (>=48-bit) instruction at offset "@
                + crate::text::hex(offset as nat),
        }
    }

    /// The error as text.
    pub fn message(&self) -> (m: String)
        ensures
            m@ == self.text(),
    {
        match *self {
            ScanError::RangeOverflow { start, len } => {
                let mut m: String = "executable range ".to_string();
                push_hex(&mut m, start as u64);
                m.append(" length ");
                push_hex(&mut m, len as u64);
                m.append(" overflows");
                m
            },
            ScanError::RangeOutside { start, end, image_len } => {
                let mut m: String = "executable range ".to_string();
                push_hex(&mut m, start as u64);
                m.append("..");
                push_hex(&mut m, end as u64);
                m.append(" exceeds image length ");
                push_decimal(&mut m, image_len as u128);
                m
            },
            ScanError::Truncated { offset } => {
                let mut m: String = "truncated instruction at offset ".to_string();
                push_hex(&mut m, offset as u64);
                m.append(" (1 byte before end of section)");
                m
            },
            ScanError::TruncatedWord { offset } => {
                let mut m: String = "truncated 32-bit instruction at offset ".to_string();
                push_hex(&mut m, offset as u64);
                m
            },
            ScanError::Wide { offset } => {
                let mut m: String = "unsupported wide (>=48-bit) instruction at offset ".to_string();
                push_hex(&mut m, offset as u64);
                m
            },
        }
    }
}

/// Bits 6:0.
pub open spec fn opcode(word: u32) -> int {
    word as int % 128
}

/// Bits 14:12.
pub open spec fn funct3(word: u32) -> int {
    word as int / 0x1000 % 8
}

/// Bits 19:15: `rs1`, or the immediate of the immediate forms.
pub open spec fn rs1_or_uimm(word: u32) -> int {
    word as int / 0x8000 % 32
}

/// Bits 31:20.
pub open spec fn csr_number(word: u32) -> int {
    word as int / 0x10_0000
}

/// Mnemonic of a CSR instruction, by its `funct3`.
pub open spec fn csr_mnemonic(f3: int) -> &'static str {
    if f3 == 1 {
        "csrrw"
    } else if f3 == 2 {
        "csrrs"
    } else if f3 == 3 {
        "csrrc"
    } else if f3 == 5 {
        "csrrwi"
    } else if f3 == 6 {
        "csrrsi"
    } else {
        "csrrci"
    }
}

/// Whether `f3` marks a CSR instruction among the `SYSTEM` instructions.
pub open spec fn is_csr_funct3(f3: int) -> bool {
    f3 != 0 && f3 != 4
}

/// Whether a CSR instruction writes: the exchange forms always do, the set and
/// clear forms do unless their source field is zero.
pub open spec fn csr_form_writes(word: u32) -> bool {
    funct3(word) == 1 || funct3(word) == 5 || rs1_or_uimm(word) != 0
}

/// Whether `word` is a `SYSTEM` instruction that writes a CSR.
pub open spec fn is_csr_write(word: u32) -> bool {
    opcode(word) == OPCODE_SYSTEM && is_csr_funct3(funct3(word)) && csr_form_writes(word)
}

/// A 32-bit instruction word and where it stands.
pub struct Located {
    pub offset: int,
    pub word: u32,
}

/// The little-endian 32-bit word at `i`.
pub open spec fn word_at(image: Seq<u8>, i: int) -> u32 {
    (image[i] + 0x100 * image[i + 1] + 0x1_0000 * image[i + 2] + 0x100_0000 * image[i + 3]) as u32
}

/// The 32-bit instructions of the stream that occupies `[i, end)`, or the first
/// place where the stream is malformed.
pub open spec fn stream_words(image: Seq<u8>, i: int, end: int) -> Result<Seq<Located>, ScanError>
    decreases end - i,
{
    if i >= end {
        Ok(Seq::empty())
    } else if end - i < 2 {
        Err(ScanError::Truncated { offset: i as usize })
    } else if image[i] % 4 != 3 {
        stream_words(image, i + 2, end)
    } else if end - i < 4 {
        Err(ScanError::TruncatedWord { offset: i as usize })
    } else if image[i] % 32 == 31 {
        Err(ScanError::Wide { offset: i as usize })
    } else {
        match stream_words(image, i + 4, end) {
            Ok(rest) => Ok(seq![Located { offset: i, word: word_at(image, i) }] + rest),
            Err(e) => Err(e),
        }
    }
}

/// [`stream_words`] of one `(offset, len)` range.
pub open spec fn range_words(image: Seq<u8>, range: (usize, usize)) -> Result<
    Seq<Located>,
    ScanError,
> {
    let end = range.0 + range.1;
    if end > usize::MAX {
        Err(ScanError::RangeOverflow { start: range.0, len: range.1 })
    } else if end > image.len() {
        Err(
            ScanError::RangeOutside {
                start: range.0,
                end: end as usize,
                image_len: image.len() as usize,
            },
        )
    } else {
        stream_words(image, range.0 as int, end)
    }
}

/// The 32-bit instructions of all ranges in turn, or the first error.
pub open spec fn executable_words(image: Seq<u8>, ranges: Seq<(usize, usize)>) -> Result<
    Seq<Located>,
    ScanError,
>
    decreases ranges.len(),
{
    if ranges.len() == 0 {
        Ok(Seq::empty())
    } else {
        match executable_words(image, ranges.drop_last()) {
            Err(e) => Err(e),
            Ok(before) => match range_words(image, ranges.last()) {
                Err(e) => Err(e),
                Ok(words) => Ok(before + words),
            },
        }
    }
}

/// The CSR write that `l` is, if it is one.
pub open spec fn csr_write_at(l: Located) -> Seq<CsrWrite> {
    if is_csr_write(l.word) {
        seq![
            CsrWrite {
                offset: l.offset as usize,
                csr: csr_number(l.word) as u16,
                mnemonic: csr_mnemonic(funct3(l.word)),
            },
        ]
    } else {
        Seq::empty()
    }
}

/// The CSR writes among `words`.
pub open spec fn csr_writes(words: Seq<Located>) -> Seq<CsrWrite>
    decreases words.len(),
{
    if words.len() == 0 {
        Seq::empty()
    } else {
        csr_writes(words.drop_last()) + csr_write_at(words.last())
    }
}

/// Which privileged instruction `word` is, if any.
pub open spec fn priv_kind(word: u32) -> Option<PrivKind> {
    if exists|k: PrivKind| #[trigger] k.encoding() == word {
        Some(choose|k: PrivKind| #[trigger] k.encoding() == word)
    } else {
        None
    }
}

/// The privileged instruction that `l` is, if it is one.
pub open spec fn priv_instr_at(l: Located) -> Seq<PrivInstr> {
    match priv_kind(l.word) {
        Some(kind) => seq![PrivInstr { offset: l.offset as usize, kind }],
        None => Seq::empty(),
    }
}

/// The privileged instructions among `words`.
pub open spec fn priv_instrs(words: Seq<Located>) -> Seq<PrivInstr>
    decreases words.len(),
{
    if words.len() == 0 {
        Seq::empty()
    } else {
        priv_instrs(words.drop_last()) + priv_instr_at(words.last())
    }
}

/// Whether `word` is a CSR instruction, and if so whether it writes and its
/// mnemonic.
fn classify_csr(word: u32) -> (r: Option<(bool, &'static str)>)
    ensures
        r == if is_csr_funct3(funct3(word)) {
            Some((csr_form_writes(word), csr_mnemonic(funct3(word))))
        } else {
            None
        },
{
    let funct3: u32 = word / 0x1000 % 8;
    let rs1_or_uimm: u32 = word / 0x8000 % 32;
    match funct3 {
        1 => Some((true, "csrrw")),
        5 => Some((true, "csrrwi")),
        2 => Some((rs1_or_uimm != 0, "csrrs")),
        3 => Some((rs1_or_uimm != 0, "csrrc")),
        6 => Some((rs1_or_uimm != 0, "csrrsi")),
        7 => Some((rs1_or_uimm != 0, "csrrci")),
        _ => None,
    }
}

/// Which privileged `SYSTEM` instruction `word` is, if any.
fn privileged_kind(word: u32) -> (r: Option<PrivKind>)
    ensures
        r == priv_kind(word),
        r matches Some(kind) ==> kind.encoding() == word,
        r is None ==> forall|k: PrivKind| #[trigger] k.encoding() != word,
{
    let r: Option<PrivKind> = match word {
        0x0000_0073 => Some(PrivKind::Ecall),
        0x0010_0073 => Some(PrivKind::Ebreak),
        0x1050_0073 => Some(PrivKind::Wfi),
        0x3020_0073 => Some(PrivKind::Mret),
        0x1020_0073 => Some(PrivKind::Sret),
        0x7b20_0073 => Some(PrivKind::Dret),
        _ => None,
    };
    proof {
        if let Some(k) = r {
            assert(k.encoding() == word);
        }
    }
    r
}

/// Adds what the word at `offset` is to the findings.
fn decode_system(word: u32, offset: usize, out: &mut ScanFindings)
    ensures
        final(out).csr_writes@ == old(out).csr_writes@ + csr_write_at(
            Located { offset: offset as int, word },
        ),
        final(out).priv_instrs@ == old(out).priv_instrs@ + priv_instr_at(
            Located { offset: offset as int, word },
        ),
{
    if word % 128 != OPCODE_SYSTEM {
        return;
    }
    if let Some((is_write, mnemonic)) = classify_csr(word) {
        if is_write {
            out.csr_writes.push(CsrWrite { offset, csr: (word / 0x10_0000) as u16, mnemonic });
        }
    }
    if let Some(kind) = privileged_kind(word) {
        out.priv_instrs.push(PrivInstr { offset, kind });
    }
}

/// Decodes the executable byte ranges of a code image into [`ScanFindings`].
///
/// `ranges` lists the `(offset, len)` byte ranges of `image` that hold code;
/// only those are walked, as exact RV32IMC instruction streams. Fails on a
/// range outside the image, an instruction cut off by the end of its range, or
/// an encoding wider than 32 bits.
pub fn scan_executable(image: &[u8], ranges: &[(usize, usize)]) -> (r: Result<
    ScanFindings,
    ScanError,
>)
    ensures
        match executable_words(image@, ranges@) {
            Err(e) => r == Err::<ScanFindings, ScanError>(e),
            Ok(words) => r is Ok && r->Ok_0.csr_writes@ == csr_writes(words)
                && r->Ok_0.priv_instrs@ == priv_instrs(words),
        },
{
    let mut out = ScanFindings { csr_writes: Vec::new(), priv_instrs: Vec::new() };
    let ghost mut words: Seq<Located> = Seq::empty();
    let mut n: usize = 0;
    while n < ranges.len()
        invariant
            n <= ranges.len(),
            executable_words(image@, ranges@.take(n as int)) == Ok::<Seq<Located>, ScanError>(words),
            out.csr_writes@ == csr_writes(words),
            out.priv_instrs@ == priv_instrs(words),
        decreases ranges.len() - n,
    {
        let (start, len) = ranges[n];
        proof {
            assert(ranges@.take(n + 1).drop_last() =~= ranges@.take(n as int));
            lemma_first_error(image@, ranges@, n + 1);
        }
        let end: usize = match start.checked_add(len) {
            Some(end) => end,
            None => return Err(ScanError::RangeOverflow { start, len }),
        };
        if end > image.len() {
            return Err(ScanError::RangeOutside { start, end, image_len: image.len() });
        }
        let ghost before = words;
        let ghost whole = stream_words(image@, start as int, end as int);
        let ghost mut walked: Seq<Located> = Seq::empty();
        let mut i: usize = start;
        while i < end
            invariant
                end <= image.len(),
                start <= i <= end,
                whole == stream_words(image@, start as int, end as int),
                match stream_words(image@, i as int, end as int) {
                    Ok(rest) => whole == Ok::<Seq<Located>, ScanError>(walked + rest),
                    Err(e) => whole == Err::<Seq<Located>, ScanError>(e),
                },
                words == before + walked,
                out.csr_writes@ == csr_writes(words),
                out.priv_instrs@ == priv_instrs(words),
                whole is Err ==> executable_words(image@, ranges@) == whole,
            decreases end - i,
        {
            if end - i < 2 {
                return Err(ScanError::Truncated { offset: i });
            }
            if image[i] % 4 != 3 {
                i = i + 2;
                continue;
            }
            if end - i < 4 {
                return Err(ScanError::TruncatedWord { offset: i });
            }
            if image[i] % 32 == 31 {
                return Err(ScanError::Wide { offset: i });
            }
            let word: u32 = image[i] as u32 + 0x100 * (image[i + 1] as u32) + 0x1_0000 * (image[i
                + 2] as u32) + 0x100_0000 * (image[i + 3] as u32);
            decode_system(word, i, &mut out);
            proof {
                let l = Located { offset: i as int, word };
                if let Ok(rest) = stream_words(image@, i + 4, end as int) {
                    assert(walked + (seq![l] + rest) =~= walked.push(l) + rest);
                }
                assert(before + walked.push(l) =~= words.push(l));
                assert(words.push(l).drop_last() =~= words);
                walked = walked.push(l);
                words = words.push(l);
            }
            i = i + 4;
        }
        proof {
            assert(walked + Seq::empty() =~= walked);
        }
        n = n + 1;
    }
    proof {
        assert(ranges@.take(n as int) =~= ranges@);
    }
    Ok(out)
}

/// An error of the first `n` ranges is the error of all.
proof fn lemma_first_error(image: Seq<u8>, ranges: Seq<(usize, usize)>, n: int)
    requires
        0 <= n <= ranges.len(),
    ensures
        executable_words(image, ranges.take(n)) is Err ==> executable_words(image, ranges)
            == executable_words(image, ranges.take(n)),
    decreases ranges.len(),
{
    if n == ranges.len() {
        assert(ranges.take(n) =~= ranges);
    } else {
        lemma_first_error(image, ranges.drop_last(), n);
        assert(ranges.drop_last().take(n) =~= ranges.take(n));
    }
}

/// A word stands for itself in a stream: whole, inside the range, at an even
/// distance from its start.
pub open spec fn stands_in(image: Seq<u8>, l: Located, start: int, end: int) -> bool {
    &&& start <= l.offset
    &&& l.offset + 4 <= end
    &&& (l.offset - start) % 2 == 0
    &&& l.word == word_at(image, l.offset)
    &&& image[l.offset] % 4 == 3
    &&& image[l.offset] % 32 != 31
}

proof fn lemma_stream_words_stand(image: Seq<u8>, start: int, i: int, end: int)
    requires
        0 <= start <= i,
        (i - start) % 2 == 0,
        stream_words(image, i, end) is Ok,
    ensures
        forall|k: int|
            0 <= k < stream_words(image, i, end)->Ok_0.len() ==> stands_in(
                image,
                #[trigger] stream_words(image, i, end)->Ok_0[k],
                start,
                end,
            ),
    decreases end - i,
{
    if i < end {
        if image[i] % 4 != 3 {
            lemma_stream_words_stand(image, start, i + 2, end);
        } else {
            lemma_stream_words_stand(image, start, i + 4, end);
        }
    }
}

/// Law: what is decoded is code. Every 32-bit instruction of a scan lies whole
/// inside one of the ranges that were given.
pub proof fn law_words_lie_in_ranges(image: Seq<u8>, ranges: Seq<(usize, usize)>)
    requires
        executable_words(image, ranges) is Ok,
    ensures
        forall|k: int|
            #![trigger executable_words(image, ranges)->Ok_0[k]]
            0 <= k < executable_words(image, ranges)->Ok_0.len() ==> exists|n: int|
                0 <= n < ranges.len() && stands_in(
                    image,
                    executable_words(image, ranges)->Ok_0[k],
                    (#[trigger] ranges[n]).0 as int,
                    ranges[n].0 + ranges[n].1,
                ),
    decreases ranges.len(),
{
    if ranges.len() > 0 {
        let last = ranges.last();
        let words = executable_words(image, ranges)->Ok_0;
        let before = executable_words(image, ranges.drop_last())->Ok_0;
        law_words_lie_in_ranges(image, ranges.drop_last());
        lemma_stream_words_stand(image, last.0 as int, last.0 as int, last.0 + last.1);
        assert forall|k: int| #![trigger words[k]] 0 <= k < words.len() implies exists|n: int|
            0 <= n < ranges.len() && stands_in(
                image,
                words[k],
                (#[trigger] ranges[n]).0 as int,
                ranges[n].0 + ranges[n].1,
            ) by {
            if k < before.len() {
                assert(words[k] == before[k]);
                let n = choose|n: int|
                    0 <= n < ranges.drop_last().len() && stands_in(
                        image,
                        before[k],
                        (#[trigger] ranges.drop_last()[n]).0 as int,
                        ranges.drop_last()[n].0 + ranges.drop_last()[n].1,
                    );
                assert(ranges.drop_last()[n] == ranges[n]);
            } else {
                assert(ranges[ranges.len() - 1] == last);
            }
        }
    }
}

proof fn lemma_stream_words_agree(a: Seq<u8>, b: Seq<u8>, i: int, end: int)
    requires
        0 <= i,
        forall|k: int| i <= k < end ==> a[k] == b[k],
    ensures
        stream_words(a, i, end) == stream_words(b, i, end),
    decreases end - i,
{
    if end - i >= 2 {
        lemma_stream_words_agree(a, b, i + 2, end);
    }
    if end - i >= 4 {
        lemma_stream_words_agree(a, b, i + 4, end);
    }
}

/// Whether every range lies inside an image of `len` bytes.
pub open spec fn ranges_fit(ranges: Seq<(usize, usize)>, len: nat) -> bool {
    forall|n: int| 0 <= n < ranges.len() ==> (#[trigger] ranges[n]).0 + ranges[n].1 <= len
}

/// Law: data is not scanned. Two images that agree on the executable ranges
/// decode alike, whatever their other bytes hold. They have one length, or hold
/// every range whole; a range that reaches outside is reported with the length.
pub proof fn law_data_is_not_scanned(a: Seq<u8>, b: Seq<u8>, ranges: Seq<(usize, usize)>)
    requires
        a.len() == b.len() || ranges_fit(ranges, a.len()) && ranges_fit(ranges, b.len()),
        forall|n: int, k: int|
            #![trigger ranges[n], a[k]]
            0 <= n < ranges.len() && ranges[n].0 <= k < ranges[n].0 + ranges[n].1 && k < a.len()
                ==> a[k] == b[k],
    ensures
        executable_words(a, ranges) == executable_words(b, ranges),
    decreases ranges.len(),
{
    if ranges.len() > 0 {
        let front = ranges.drop_last();
        let last = ranges[ranges.len() - 1];
        assert forall|n: int, k: int|
            #![trigger front[n], a[k]]
            0 <= n < front.len() && front[n].0 <= k < front[n].0 + front[n].1 && k
                < a.len() implies a[k] == b[k] by {
            assert(front[n] == ranges[n]);
        }
        if a.len() != b.len() {
            assert forall|n: int| 0 <= n < front.len() implies (#[trigger] front[n]).0 + front[n].1
                <= a.len() && front[n].0 + front[n].1 <= b.len() by {
                assert(front[n] == ranges[n]);
            }
        }
        law_data_is_not_scanned(a, b, front);
        if last.0 + last.1 <= a.len() {
            lemma_stream_words_agree(a, b, last.0 as int, last.0 + last.1);
        }
    }
}

/// Law: no privileged instruction is a CSR write.
pub proof fn law_privileged_is_no_csr_write(word: u32)
    ensures
        !(priv_kind(word) is Some && is_csr_write(word)),
{
}

/// Law: the findings are complete. A scan reports no CSR write exactly if no
/// decoded word is one.
pub proof fn law_csr_writes_complete(words: Seq<Located>)
    ensures
        csr_writes(words).len() == 0 <==> forall|k: int|
            0 <= k < words.len() ==> !is_csr_write((#[trigger] words[k]).word),
    decreases words.len(),
{
    if words.len() > 0 {
        let before = words.drop_last();
        law_csr_writes_complete(before);
        assert(words[words.len() - 1] == words.last());
        assert forall|k: int| 0 <= k < before.len() implies #[trigger] before[k] == words[k] by {}
        if csr_writes(words).len() == 0 {
            assert forall|k: int| 0 <= k < words.len() implies !is_csr_write(
                (#[trigger] words[k]).word,
            ) by {
                if k < before.len() {
                    assert(before[k] == words[k]);
                }
            }
        } else if csr_writes(before).len() != 0 {
            let k = choose|k: int|
                0 <= k < before.len() && is_csr_write((#[trigger] before[k]).word);
            assert(before[k] == words[k]);
        }
    }
}

/// An instruction of the two lengths that the scanner knows.
pub enum Instr {
    /// A compressed instruction.
    Half(u16),
    /// A full-width instruction.
    Word(u32),
}

impl Instr {
    /// Whether the low bits tell the right length.
    pub open spec fn is_valid(self) -> bool {
        match self {
            Instr::Half(h) => h % 4 != 3,
            Instr::Word(w) => w % 4 == 3 && w % 32 != 31,
        }
    }

    /// The instruction in memory.
    pub open spec fn bytes(self) -> Seq<u8> {
        match self {
            Instr::Half(h) => crate::block::le2(h),
            Instr::Word(w) => crate::block::le4(w),
        }
    }
}

/// Instructions in memory, one behind the other.
pub open spec fn assembled(instrs: Seq<Instr>) -> Seq<u8>
    decreases instrs.len(),
{
    if instrs.len() == 0 {
        Seq::empty()
    } else {
        instrs[0].bytes() + assembled(instrs.skip(1))
    }
}

/// The full-width instructions and where they stand, from `at` on.
pub open spec fn full_width(instrs: Seq<Instr>, at: int) -> Seq<Located>
    decreases instrs.len(),
{
    if instrs.len() == 0 {
        Seq::empty()
    } else {
        match instrs[0] {
            Instr::Half(_) => full_width(instrs.skip(1), at + 2),
            Instr::Word(word) => seq![Located { offset: at, word }] + full_width(
                instrs.skip(1),
                at + 4,
            ),
        }
    }
}

/// Whether all of the instructions are valid.
pub open spec fn all_valid(instrs: Seq<Instr>) -> bool {
    forall|i: int| 0 <= i < instrs.len() ==> (#[trigger] instrs[i]).is_valid()
}

/// Law: the walk keeps to the instruction boundaries. In memory that holds valid
/// instructions, compressed and full-width in any mix, it finds exactly the
/// full-width ones, each where it stands.
pub proof fn law_walk_is_exact(image: Seq<u8>, instrs: Seq<Instr>, start: int)
    requires
        0 <= start,
        all_valid(instrs),
        start + assembled(instrs).len() <= image.len(),
        image.subrange(start, start + assembled(instrs).len()) == assembled(instrs),
    ensures
        stream_words(image, start, start + assembled(instrs).len()) == Ok::<
            Seq<Located>,
            ScanError,
        >(full_width(instrs, start)),
    decreases instrs.len(),
{
    if instrs.len() > 0 {
        let rest = instrs.skip(1);
        let first = instrs[0].bytes();
        let all = assembled(instrs);
        let end = start + all.len();
        let n = first.len() as int;
        let memory = image.subrange(start, end);
        assert(instrs[0].is_valid());
        assert forall|i: int| 0 <= i < rest.len() implies (#[trigger] rest[i]).is_valid() by {
            assert(rest[i] == instrs[i + 1]);
        }
        assert(memory.skip(n) =~= image.subrange(start + n, end));
        assert(all.skip(n) =~= assembled(rest));
        law_walk_is_exact(image, rest, start + n);
        assert(memory[0] == image[start] && memory[0] == first[0]);
        match instrs[0] {
            Instr::Half(h) => {
                assert(first[0] % 4 == h % 4);
            },
            Instr::Word(w) => {
                assert(memory[1] == image[start + 1] && memory[1] == first[1]);
                assert(memory[2] == image[start + 2] && memory[2] == first[2]);
                assert(memory[3] == image[start + 3] && memory[3] == first[3]);
                lemma_word_bytes(w);
                assert(word_at(image, start) == w);
            },
        }
    }
}

/// A word is read back from its bytes.
pub(crate) proof fn lemma_word_bytes(w: u32)
    ensures
        word_at(crate::block::le4(w), 0) == w,
        crate::block::le4(w)[0] % 4 == w % 4,
        crate::block::le4(w)[0] % 32 == w % 32,
{
    lemma_join_word(w);
}

proof fn lemma_join_word(w: u32)
    by (bit_vector)
    ensures
        w == w % 256 + 0x100 * (w / 0x100 % 256) + 0x1_0000 * (w / 0x1_0000 % 256) + 0x100_0000 * (w
            / 0x100_0000),
        w % 256 % 4 == w % 4,
        w % 256 % 32 == w % 32,
{
}

/// Law: what the walk accepts is code throughout. A stream without error is made
/// of valid instructions and nothing else.
pub proof fn law_walked_streams_are_instructions(image: Seq<u8>, start: int, end: int)
    requires
        0 <= start <= end <= image.len(),
        stream_words(image, start, end) is Ok,
    ensures
        exists|instrs: Seq<Instr>|
            all_valid(instrs) && #[trigger] assembled(instrs) == image.subrange(start, end),
{
    let instrs = lemma_disassemble(image, start, end);
    assert(assembled(instrs) == image.subrange(start, end));
}

proof fn lemma_split_word(a: u32, b: u32, c: u32, d: u32, w: u32)
    by (bit_vector)
    requires
        a < 256,
        b < 256,
        c < 256,
        d < 256,
        w == a + 0x100 * b + 0x1_0000 * c + 0x100_0000 * d,
    ensures
        w % 256 == a,
        w / 0x100 % 256 == b,
        w / 0x1_0000 % 256 == c,
        w / 0x100_0000 == d,
        w % 4 == a % 4,
        w % 32 == a % 32,
{
}

proof fn lemma_bytes_of_word(image: Seq<u8>, i: int)
    requires
        0 <= i,
        i + 4 <= image.len(),
    ensures
        crate::block::le4(word_at(image, i)) == image.subrange(i, i + 4),
        word_at(image, i) % 4 == image[i] % 4,
        word_at(image, i) % 32 == image[i] % 32,
{
    let (a, b, c, d) = (image[i], image[i + 1], image[i + 2], image[i + 3]);
    let w = word_at(image, i);
    lemma_split_word(a as u32, b as u32, c as u32, d as u32, w);
    assert(crate::block::le4(w) =~= image.subrange(i, i + 4));
}

proof fn lemma_bytes_of_half(image: Seq<u8>, i: int)
    requires
        0 <= i,
        i + 2 <= image.len(),
    ensures
        crate::block::le2(crate::block::half_at(image, i)) == image.subrange(i, i + 2),
        crate::block::half_at(image, i) % 4 == image[i] % 4,
{
    assert(crate::block::le2(crate::block::half_at(image, i)) =~= image.subrange(i, i + 2));
}

proof fn lemma_disassemble(image: Seq<u8>, start: int, end: int) -> (instrs: Seq<Instr>)
    requires
        0 <= start <= end <= image.len(),
        stream_words(image, start, end) is Ok,
    ensures
        all_valid(instrs),
        assembled(instrs) == image.subrange(start, end),
    decreases end - start,
{
    if start == end {
        assert(image.subrange(start, end) =~= Seq::empty());
        Seq::empty()
    } else if image[start] % 4 != 3 {
        lemma_bytes_of_half(image, start);
        let first = Instr::Half(crate::block::half_at(image, start));
        let rest = lemma_disassemble(image, start + 2, end);
        lemma_prepend(first, rest, image, start, start + 2, end);
        seq![first] + rest
    } else {
        lemma_bytes_of_word(image, start);
        let first = Instr::Word(word_at(image, start));
        let rest = lemma_disassemble(image, start + 4, end);
        lemma_prepend(first, rest, image, start, start + 4, end);
        seq![first] + rest
    }
}

proof fn lemma_prepend(
    first: Instr,
    rest: Seq<Instr>,
    image: Seq<u8>,
    start: int,
    next: int,
    end: int,
)
    requires
        0 <= start <= next <= end <= image.len(),
        first.is_valid(),
        all_valid(rest),
        first.bytes() == image.subrange(start, next),
        assembled(rest) == image.subrange(next, end),
    ensures
        all_valid(seq![first] + rest),
        assembled(seq![first] + rest) == image.subrange(start, end),
{
    let instrs = seq![first] + rest;
    assert(instrs.skip(1) =~= rest);
    assert(instrs[0] == first);
    assert forall|i: int| 0 <= i < instrs.len() implies (#[trigger] instrs[i]).is_valid() by {
        if i > 0 {
            assert(instrs[i] == rest[i - 1]);
        }
    }
    assert(image.subrange(start, next) + image.subrange(next, end) =~= image.subrange(start, end));
}

} // verus!
