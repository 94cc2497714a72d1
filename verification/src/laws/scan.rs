//! The instruction scan.

use crate::csr_scan::{CsrWrite, Instr, Located, PrivInstr, PrivKind, ScanError};
use vstd::prelude::*;

verus! {

/// Law: which words write a CSR, by their bits. Of the words with opcode `0x73`
/// (bits 6:0), the exchange forms (bits 14:12 are 1 or 5) always do, the set and
/// clear forms (2, 3, 6, 7) do exactly if bits 19:15 are not zero, and the rest
/// do not; no other word does.
pub proof fn law_csr_write_bits(word: u32)
    ensures
        word % 128 != 0x73 ==> !crate::csr_scan::is_csr_write(word),
        word % 128 == 0x73 ==> {
            let form = word / 0x1000 % 8;
            let source = word / 0x8000 % 32;
            &&& form == 1 || form == 5 ==> crate::csr_scan::is_csr_write(word)
            &&& form == 2 || form == 3 || form == 6 || form == 7 ==> (
            crate::csr_scan::is_csr_write(word) <==> source != 0)
            &&& form == 0 || form == 4 ==> !crate::csr_scan::is_csr_write(word)
        },
{
}

/// Whether `w` is the report that the word `l` calls for.
pub open spec fn is_write_report(l: Located, w: CsrWrite) -> bool {
    let form = l.word / 0x1000 % 8;
    let source = l.word / 0x8000 % 32;
    &&& l.word % 128 == 0x73
    &&& w.offset == l.offset
    &&& w.csr == l.word / 0x10_0000
    &&& {
        ||| form == 1 && w.mnemonic == "csrrw"
        ||| form == 2 && source != 0 && w.mnemonic == "csrrs"
        ||| form == 3 && source != 0 && w.mnemonic == "csrrc"
        ||| form == 5 && w.mnemonic == "csrrwi"
        ||| form == 6 && source != 0 && w.mnemonic == "csrrsi"
        ||| form == 7 && source != 0 && w.mnemonic == "csrrci"
    }
}

/// Whether every word stands at an offset that the host can count to.
pub open spec fn offsets_fit(words: Seq<Located>) -> bool {
    forall|k: int| 0 <= k < words.len() ==> 0 <= (#[trigger] words[k]).offset <= usize::MAX
}

proof fn lemma_write_report(l: Located, w: CsrWrite)
    requires
        0 <= l.offset <= usize::MAX,
    ensures
        crate::csr_scan::csr_write_at(l).contains(w) <==> is_write_report(l, w),
        crate::csr_scan::csr_write_at(l).len() <= 1,
{
    let here = crate::csr_scan::csr_write_at(l);
    assert(l.word / 0x10_0000 <= u16::MAX);
    if here.contains(w) {
        assert(here[0] == w);
    }
    if is_write_report(l, w) {
        assert(here[0].offset == w.offset);
        assert(here[0].csr == w.csr);
        assert(here[0].mnemonic == w.mnemonic);
        assert(here[0] == w);
    }
}

/// Law: the CSR writes that are reported are exactly those among the words.
pub proof fn law_csr_writes_are_reported(words: Seq<Located>, w: CsrWrite)
    requires
        offsets_fit(words),
    ensures
        crate::csr_scan::csr_writes(words).contains(w) <==> exists|k: int|
            0 <= k < words.len() && is_write_report(#[trigger] words[k], w),
    decreases words.len(),
{
    if words.len() > 0 {
        let front = words.drop_last();
        let last = words.last();
        let before = crate::csr_scan::csr_writes(front);
        let here = crate::csr_scan::csr_write_at(last);
        assert forall|k: int| 0 <= k < front.len() implies 0 <= (#[trigger] front[k]).offset
            <= usize::MAX by {
            assert(front[k] == words[k]);
        }
        law_csr_writes_are_reported(front, w);
        assert(words[words.len() - 1] == last);
        lemma_write_report(last, w);
        lemma_contains_sum(before, here, w);
        if before.contains(w) {
            let k = choose|k: int| 0 <= k < front.len() && is_write_report(#[trigger] front[k], w);
            assert(words[k] == front[k]);
        }
        if exists|k: int| 0 <= k < words.len() && is_write_report(#[trigger] words[k], w) {
            let k = choose|k: int| 0 <= k < words.len() && is_write_report(#[trigger] words[k], w);
            if k < front.len() {
                assert(front[k] == words[k]);
            }
        }
    }
}

proof fn lemma_contains_sum<A>(a: Seq<A>, b: Seq<A>, x: A)
    ensures
        (a + b).contains(x) <==> a.contains(x) || b.contains(x),
{
    if a.contains(x) {
        let k = choose|k: int| 0 <= k < a.len() && a[k] == x;
        assert((a + b)[k] == x);
    }
    if b.contains(x) {
        let k = choose|k: int| 0 <= k < b.len() && b[k] == x;
        assert((a + b)[a.len() + k] == x);
    }
}

/// Law: CSR writes are reported in the order of the words, each once.
pub proof fn law_csr_writes_keep_order(a: Seq<Located>, b: Seq<Located>, l: Located)
    ensures
        crate::csr_scan::csr_writes(a + b) == crate::csr_scan::csr_writes(a)
            + crate::csr_scan::csr_writes(b),
        crate::csr_scan::csr_writes(seq![l]).len() <= 1,
    decreases b.len(),
{
    assert(seq![l].drop_last() =~= Seq::empty());
    assert(crate::csr_scan::csr_writes(Seq::<Located>::empty()).len() == 0);
    if b.len() == 0 {
        assert(a + b =~= a);
        assert(crate::csr_scan::csr_writes(a) + crate::csr_scan::csr_writes(b)
            =~= crate::csr_scan::csr_writes(a));
    } else {
        law_csr_writes_keep_order(a, b.drop_last(), l);
        assert((a + b).drop_last() =~= a + b.drop_last());
        assert((a + b).last() == b.last());
        assert(crate::csr_scan::csr_writes(a + b) =~= crate::csr_scan::csr_writes(a)
            + crate::csr_scan::csr_writes(b));
    }
}

/// Law: which words are privileged instructions. Each kind is one word, and a
/// word is of a kind exactly if it is that word.
pub proof fn law_privileged_words(word: u32)
    ensures
        crate::csr_scan::priv_kind(word) == Some(PrivKind::Ecall) <==> word == 0x0000_0073,
        crate::csr_scan::priv_kind(word) == Some(PrivKind::Ebreak) <==> word == 0x0010_0073,
        crate::csr_scan::priv_kind(word) == Some(PrivKind::Wfi) <==> word == 0x1050_0073,
        crate::csr_scan::priv_kind(word) == Some(PrivKind::Mret) <==> word == 0x3020_0073,
        crate::csr_scan::priv_kind(word) == Some(PrivKind::Sret) <==> word == 0x1020_0073,
        crate::csr_scan::priv_kind(word) == Some(PrivKind::Dret) <==> word == 0x7b20_0073,
{
    assert(PrivKind::Ecall.encoding() == 0x0000_0073);
    assert(PrivKind::Ebreak.encoding() == 0x0010_0073);
    assert(PrivKind::Wfi.encoding() == 0x1050_0073);
    assert(PrivKind::Mret.encoding() == 0x3020_0073);
    assert(PrivKind::Sret.encoding() == 0x1020_0073);
    assert(PrivKind::Dret.encoding() == 0x7b20_0073);
}

/// Law: kinds are named as in assembly.
pub proof fn law_privileged_names(kind: PrivKind)
    ensures
        kind.name() == match kind {
            PrivKind::Ecall => "ecall",
            PrivKind::Ebreak => "ebreak",
            PrivKind::Wfi => "wfi",
            PrivKind::Mret => "mret",
            PrivKind::Sret => "sret",
            PrivKind::Dret => "dret",
        },
{
}

/// Whether `p` is the report that the word `l` calls for.
pub open spec fn is_privileged_report(l: Located, p: PrivInstr) -> bool {
    &&& p.offset == l.offset
    &&& match p.kind {
        PrivKind::Ecall => l.word == 0x0000_0073,
        PrivKind::Ebreak => l.word == 0x0010_0073,
        PrivKind::Wfi => l.word == 0x1050_0073,
        PrivKind::Mret => l.word == 0x3020_0073,
        PrivKind::Sret => l.word == 0x1020_0073,
        PrivKind::Dret => l.word == 0x7b20_0073,
    }
}

/// Law: the privileged instructions that are reported are exactly those among
/// the words.
pub proof fn law_privileged_are_reported(words: Seq<Located>, p: PrivInstr)
    requires
        offsets_fit(words),
    ensures
        crate::csr_scan::priv_instrs(words).contains(p) <==> exists|k: int|
            0 <= k < words.len() && is_privileged_report(#[trigger] words[k], p),
    decreases words.len(),
{
    if words.len() > 0 {
        let front = words.drop_last();
        let last = words.last();
        let before = crate::csr_scan::priv_instrs(front);
        let here = crate::csr_scan::priv_instr_at(last);
        assert forall|k: int| 0 <= k < front.len() implies 0 <= (#[trigger] front[k]).offset
            <= usize::MAX by {
            assert(front[k] == words[k]);
        }
        law_privileged_are_reported(front, p);
        assert(words[words.len() - 1] == last);
        law_privileged_words(last.word);
        assert(here.contains(p) <==> is_privileged_report(last, p)) by {
            if here.contains(p) {
                assert(here[0] == p);
            }
            if is_privileged_report(last, p) {
                assert(here[0] == p);
            }
        }
        lemma_contains_sum(before, here, p);
        if before.contains(p) {
            let k = choose|k: int|
                0 <= k < front.len() && is_privileged_report(#[trigger] front[k], p);
            assert(words[k] == front[k]);
        }
        if exists|k: int| 0 <= k < words.len() && is_privileged_report(#[trigger] words[k], p) {
            let k = choose|k: int|
                0 <= k < words.len() && is_privileged_report(#[trigger] words[k], p);
            if k < front.len() {
                assert(front[k] == words[k]);
            }
        }
    }
}

/// Law: privileged instructions are reported in the order of the words, each
/// once.
pub proof fn law_privileged_keep_order(a: Seq<Located>, b: Seq<Located>, l: Located)
    ensures
        crate::csr_scan::priv_instrs(a + b) == crate::csr_scan::priv_instrs(a)
            + crate::csr_scan::priv_instrs(b),
        crate::csr_scan::priv_instrs(seq![l]).len() <= 1,
    decreases b.len(),
{
    assert(seq![l].drop_last() =~= Seq::empty());
    assert(crate::csr_scan::priv_instrs(Seq::<Located>::empty()).len() == 0);
    if b.len() == 0 {
        assert(a + b =~= a);
        assert(crate::csr_scan::priv_instrs(a) + crate::csr_scan::priv_instrs(b)
            =~= crate::csr_scan::priv_instrs(a));
    } else {
        law_privileged_keep_order(a, b.drop_last(), l);
        assert((a + b).drop_last() =~= a + b.drop_last());
        assert((a + b).last() == b.last());
        assert(crate::csr_scan::priv_instrs(a + b) =~= crate::csr_scan::priv_instrs(a)
            + crate::csr_scan::priv_instrs(b));
    }
}

/// Law: a range is walked where it lies inside the image, and reported where it
/// does not.
pub proof fn law_one_range(image: Seq<u8>, start: usize, len: usize)
    requires
        image.len() <= usize::MAX,
    ensures
        ({
            let r = crate::csr_scan::executable_words(image, seq![(start, len)]);
            &&& start + len <= image.len() ==> r == crate::csr_scan::stream_words(
                image,
                start as int,
                start + len,
            )
            &&& image.len() < start + len <= usize::MAX ==> r == Err::<Seq<Located>, ScanError>(
                ScanError::RangeOutside {
                    start,
                    end: (start + len) as usize,
                    image_len: image.len() as usize,
                },
            )
            &&& start + len > usize::MAX ==> r == Err::<Seq<Located>, ScanError>(
                ScanError::RangeOverflow { start, len },
            )
        }),
{
    let ranges = seq![(start, len)];
    assert(ranges.drop_last() =~= Seq::empty());
    assert(crate::csr_scan::executable_words(image, Seq::empty()) == Ok::<Seq<Located>, ScanError>(
        Seq::empty(),
    ));
    assert(ranges.last() == (start, len));
    let words = crate::csr_scan::range_words(image, (start, len));
    if words is Ok {
        assert(Seq::<Located>::empty() + words->Ok_0 =~= words->Ok_0);
    }
}

/// Law: ranges are walked in turn. What the first give stands before what the
/// others give, and the first error ends the walk.
pub proof fn law_ranges_in_turn(
    image: Seq<u8>,
    a: Seq<(usize, usize)>,
    b: Seq<(usize, usize)>,
)
    ensures
        crate::csr_scan::executable_words(image, Seq::empty()) == Ok::<Seq<Located>, ScanError>(
            Seq::empty(),
        ),
        crate::csr_scan::executable_words(image, a + b) == match (
            crate::csr_scan::executable_words(image, a),
            crate::csr_scan::executable_words(image, b),
        ) {
            (Err(e), _) => Err(e),
            (Ok(_), Err(e)) => Err(e),
            (Ok(x), Ok(y)) => Ok(x + y),
        },
    decreases b.len(),
{
    if b.len() == 0 {
        assert(a + b =~= a);
        if let Ok(x) = crate::csr_scan::executable_words(image, a) {
            assert(x + Seq::<Located>::empty() =~= x);
        }
    } else {
        law_ranges_in_turn(image, a, b.drop_last());
        assert((a + b).drop_last() =~= a + b.drop_last());
        assert((a + b).last() == b.last());
        if let (Ok(x), Ok(y), Ok(z)) = (
            crate::csr_scan::executable_words(image, a),
            crate::csr_scan::executable_words(image, b.drop_last()),
            crate::csr_scan::range_words(image, b.last()),
        ) {
            assert((x + y) + z =~= x + (y + z));
        }
    }
}

/// Law: where a stream breaks off, and why. Behind valid instructions, one left
/// byte is a truncated instruction, two or three that start like a full-width
/// instruction are a truncated one, and one that starts like a wider instruction
/// is refused; each is reported at its offset.
pub proof fn law_malformed_streams(image: Seq<u8>, instrs: Seq<Instr>, start: int, end: int)
    requires
        0 <= start,
        crate::csr_scan::all_valid(instrs),
        start + crate::csr_scan::assembled(instrs).len() < end <= image.len() <= usize::MAX,
        image.subrange(start, start + crate::csr_scan::assembled(instrs).len())
            == crate::csr_scan::assembled(instrs),
    ensures
        ({
            let at = start + crate::csr_scan::assembled(instrs).len();
            let r = crate::csr_scan::stream_words(image, start, end);
            &&& end - at == 1 ==> r == Err::<Seq<Located>, ScanError>(
                ScanError::Truncated { offset: at as usize },
            )
            &&& 2 <= end - at < 4 && image[at] % 4 == 3 ==> r == Err::<Seq<Located>, ScanError>(
                ScanError::TruncatedWord { offset: at as usize },
            )
            &&& end - at >= 4 && image[at] % 32 == 31 ==> r == Err::<Seq<Located>, ScanError>(
                ScanError::Wide { offset: at as usize },
            )
        }),
    decreases instrs.len(),
{
    if instrs.len() > 0 {
        let rest = instrs.skip(1);
        let first = instrs[0].bytes();
        let all = crate::csr_scan::assembled(instrs);
        let n = first.len() as int;
        let memory = image.subrange(start, start + all.len());
        assert(instrs[0].is_valid());
        assert forall|i: int| 0 <= i < rest.len() implies (#[trigger] rest[i]).is_valid() by {
            assert(rest[i] == instrs[i + 1]);
        }
        assert(memory.skip(n) =~= image.subrange(start + n, start + all.len()));
        assert(all.skip(n) =~= crate::csr_scan::assembled(rest));
        law_malformed_streams(image, rest, start + n, end);
        assert(memory[0] == image[start] && memory[0] == first[0]);
        match instrs[0] {
            Instr::Half(h) => {
                assert(first[0] % 4 == h % 4);
            },
            Instr::Word(w) => {
                crate::csr_scan::lemma_word_bytes(w);
            },
        }
    }
}

/// Law: an instruction in memory is little-endian. A compressed one is two bytes
/// and not of the lowest bits `0b11`; a full-width one is four bytes with these
/// lowest bits, and the next three not all set.
pub proof fn law_instruction_bytes(h: u16, w: u32)
    ensures
        Instr::Half(h).is_valid() <==> h % 4 != 3,
        Instr::Half(h).bytes().len() == 2,
        Instr::Half(h).bytes()[0] + 0x100 * Instr::Half(h).bytes()[1] == h,
        Instr::Word(w).is_valid() <==> w % 4 == 3 && w / 4 % 8 != 7,
        Instr::Word(w).bytes().len() == 4,
        Instr::Word(w).bytes()[0] + 0x100 * Instr::Word(w).bytes()[1] + 0x1_0000
            * Instr::Word(w).bytes()[2] + 0x100_0000 * Instr::Word(w).bytes()[3] == w,
{
    crate::csr_scan::lemma_word_bytes(w);
}

} // verus!
