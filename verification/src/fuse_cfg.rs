//! Blocks as OTP item values, and the file that hands them to the fuse tooling.
//!
//! A fuse partition is a row of items of one size. A block is cut into items
//! from some index on; the bytes behind its end stay zero. An item's value is
//! written as one hexadecimal number, most significant digit first, and stored
//! least significant byte first, so the text of an item holds its bytes in
//! reverse.

use crate::text::{push_decimal, push_hex_byte};
use vstd::prelude::*;

verus! {

/// The number of items that `len` bytes take.
pub open spec fn item_count(len: nat, item_size: nat) -> nat {
    (len / item_size) + (if len % item_size == 0 {
        0nat
    } else {
        1
    })
}

/// Returns the number of items of `item_size` bytes that `len` bytes take.
pub fn items_for(len: usize, item_size: usize) -> (n: usize)
    requires
        item_size > 0,
    ensures
        n == item_count(len as nat, item_size as nat),
{
    let whole: usize = len / item_size;
    if len % item_size == 0 {
        whole
    } else {
        proof {
            assert(whole < usize::MAX) by (nonlinear_arith)
                requires
                    item_size > 0,
                    len % item_size != 0,
                    whole == len / item_size,
                    len <= usize::MAX,
            ;
        }
        whole + 1
    }
}

/// An OTP item and the value to burn.
#[derive(Debug, Clone)]
pub struct FuseItem {
    pub name: String,
    pub value: String,
}

/// [`FuseItem`], for contracts.
#[verifier::ext_equal]
pub struct FuseItemView {
    pub name: Seq<char>,
    pub value: Seq<char>,
}

impl View for FuseItem {
    type V = FuseItemView;

    open spec fn view(&self) -> FuseItemView {
        FuseItemView { name: self.name@, value: self.value@ }
    }
}

/// The bytes of a block's item `k`, zero behind the end of the block.
pub open spec fn item_bytes(block: Seq<u8>, item_size: nat, k: int) -> Seq<u8> {
    Seq::new(
        item_size,
        |i: int|
            if k * item_size + i < block.len() {
                block[k * item_size + i]
            } else {
                0
            },
    )
}

/// Bytes as hexadecimal digits, the last byte first.
pub open spec fn reversed_hex(bytes: Seq<u8>) -> Seq<char>
    decreases bytes.len(),
{
    if bytes.len() == 0 {
        Seq::empty()
    } else {
        crate::text::hex_byte(bytes.last()) + reversed_hex(bytes.drop_last())
    }
}

/// The value of an item with these bytes.
pub open spec fn value_text(bytes: Seq<u8>) -> Seq<char> {
    "0x"@ + reversed_hex(bytes)
}

/// A block's item `k`, where the block starts at item `first_index`.
pub open spec fn fuse_item(
    block: Seq<u8>,
    item_prefix: Seq<char>,
    item_size: nat,
    first_index: nat,
    k: int,
) -> FuseItemView {
    FuseItemView {
        name: item_prefix + crate::text::decimal((first_index + k) as nat),
        value: value_text(item_bytes(block, item_size, k)),
    }
}

/// Writes the value of a block's item `k`.
fn item_value(block: &[u8], item_size: usize, k: usize) -> (value: String)
    requires
        k * item_size <= block.len(),
    ensures
        value@ == value_text(item_bytes(block@, item_size as nat, k as int)),
{
    let start: usize = k * item_size;
    let ghost bytes = item_bytes(block@, item_size as nat, k as int);
    let mut value: String = "0x".to_string();
    let mut i: usize = item_size;
    assert(bytes.take(item_size as int) =~= bytes);
    while i > 0
        invariant
            i <= item_size,
            start == k * item_size,
            start <= block.len(),
            bytes == item_bytes(block@, item_size as nat, k as int),
            value_text(bytes) == value@ + reversed_hex(bytes.take(i as int)),
        decreases i,
    {
        let b: u8 = if i - 1 < block.len() - start {
            block[start + (i - 1)]
        } else {
            0
        };
        push_hex_byte(&mut value, b);
        proof {
            let before = bytes.take(i as int);
            assert(before.drop_last() =~= bytes.take(i - 1));
            assert(before.last() == b);
            assert(value@ + reversed_hex(bytes.take(i - 1)) =~= value_text(bytes));
        }
        i = i - 1;
    }
    assert(value@ + reversed_hex(bytes.take(0)) =~= value@);
    value
}

/// Cuts a block into the items that it occupies from `first_index` on.
pub fn fuse_items(block: &[u8], item_prefix: &str, item_size: usize, first_index: usize) -> (items:
    Vec<FuseItem>)
    requires
        item_size > 0,
    ensures
        items@.len() == item_count(block@.len(), item_size as nat),
        forall|k: int|
            0 <= k < items@.len() ==> (#[trigger] items@[k])@ == fuse_item(
                block@,
                item_prefix@,
                item_size as nat,
                first_index as nat,
                k,
            ),
{
    let n: usize = items_for(block.len(), item_size);
    let mut items: Vec<FuseItem> = Vec::new();
    let mut k: usize = 0;
    while k < n
        invariant
            k <= n,
            item_size > 0,
            n == item_count(block@.len(), item_size as nat),
            items@.len() == k,
            forall|j: int|
                0 <= j < k ==> (#[trigger] items@[j])@ == fuse_item(
                    block@,
                    item_prefix@,
                    item_size as nat,
                    first_index as nat,
                    j,
                ),
        decreases n - k,
    {
        proof {
            let len = block@.len() as int;
            assert(k * item_size <= len) by (nonlinear_arith)
                requires
                    0 <= k <= len / (item_size as int),
                    item_size > 0,
                    len >= 0,
            ;
        }
        let mut name: String = item_prefix.to_string();
        push_decimal(&mut name, first_index as u128 + k as u128);
        let value: String = item_value(block, item_size, k);
        items.push(FuseItem { name, value });
        k = k + 1;
    }
    items
}

/// Where a block goes in the fuse partition.
#[derive(Debug, Clone)]
pub struct FuseLayout {
    /// OTP partition name.
    pub partition: String,
    /// OTP item name prefix; items are `{prefix}{index}`.
    pub item_prefix: String,
    /// OTP item size in bytes.
    pub item_size: usize,
    /// Index of the first item the block occupies.
    pub first_index: usize,
    /// Request the partition be locked (SW digest).
    pub lock: bool,
}

/// The items of one block.
pub open spec fn block_items(
    block: Seq<u8>,
    item_prefix: Seq<char>,
    item_size: nat,
    first_index: nat,
) -> Seq<FuseItemView> {
    Seq::new(
        item_count(block.len(), item_size),
        |k: int| fuse_item(block, item_prefix, item_size, first_index, k),
    )
}

/// The items of blocks in turn, each given with its first index.
pub open spec fn set_items(
    blocks: Seq<(usize, Seq<u8>)>,
    item_prefix: Seq<char>,
    item_size: nat,
) -> Seq<FuseItemView>
    decreases blocks.len(),
{
    if blocks.len() == 0 {
        Seq::empty()
    } else {
        set_items(blocks.drop_last(), item_prefix, item_size) + block_items(
            blocks.last().1,
            item_prefix,
            item_size,
            blocks.last().0 as nat,
        )
    }
}

/// One line for each item.
pub open spec fn item_lines(items: Seq<FuseItemView>) -> Seq<char>
    decreases items.len(),
{
    if items.len() == 0 {
        Seq::empty()
    } else {
        item_lines(items.drop_last()) + "        { name: \""@ + items.last().name
            + "\", value: \""@ + items.last().value + "\" },\n"@
    }
}

/// The file that gives the items of a partition their values.
pub open spec fn add_cfg(partition: Seq<char>, lock: bool, items: Seq<FuseItemView>) -> Seq<char> {
    "{\n  partitions: [\n    {\n      name: \""@ + partition + "\",\n"@ + (if lock {
        "      lock: \"True\",\n"@
    } else {
        ""@
    }) + "      items: [\n"@ + item_lines(items) + "      ],\n    },\n  ],\n}\n"@
}

fn push_item_lines(out: &mut String, items: &Vec<FuseItem>)
    ensures
        final(out)@ == old(out)@ + item_lines(items@.map_values(|i: FuseItem| i@)),
{
    let ghost all = items@.map_values(|i: FuseItem| i@);
    let mut n: usize = 0;
    assert(out@ =~= old(out)@ + item_lines(all.take(0)));
    while n < items.len()
        invariant
            n <= items.len(),
            all == items@.map_values(|i: FuseItem| i@),
            out@ == old(out)@ + item_lines(all.take(n as int)),
        decreases items.len() - n,
    {
        out.append("        { name: \"");
        out.append(items[n].name.as_str());
        out.append("\", value: \"");
        out.append(items[n].value.as_str());
        out.append("\" },\n");
        proof {
            assert(all.take(n + 1).drop_last() =~= all.take(n as int));
            assert(all.take(n + 1).last() == items@[n as int]@);
            assert(out@ =~= old(out)@ + item_lines(all.take(n + 1)));
        }
        n = n + 1;
    }
    proof {
        assert(all.take(n as int) =~= all);
    }
}

/// Writes the file that puts blocks, each given with its first item index, into
/// the items of a partition.
pub fn emit_add_cfg_multi(
    partition: &str,
    item_prefix: &str,
    item_size: usize,
    lock: bool,
    blocks: &[(usize, &[u8])],
) -> (cfg: String)
    requires
        item_size > 0,
    ensures
        cfg@ == add_cfg(
            partition@,
            lock,
            set_items(
                blocks@.map_values(|b: (usize, &[u8])| (b.0, b.1@)),
                item_prefix@,
                item_size as nat,
            ),
        ),
{
    let ghost all = blocks@.map_values(|b: (usize, &[u8])| (b.0, b.1@));
    let mut cfg: String = "{\n  partitions: [\n    {\n      name: \"".to_string();
    cfg.append(partition);
    cfg.append("\",\n");
    if lock {
        cfg.append("      lock: \"True\",\n");
    } else {
        cfg.append("");
    }
    cfg.append("      items: [\n");
    let ghost head = cfg@;
    let mut n: usize = 0;
    assert(cfg@ =~= head + item_lines(set_items(all.take(0), item_prefix@, item_size as nat)));
    while n < blocks.len()
        invariant
            n <= blocks.len(),
            item_size > 0,
            all == blocks@.map_values(|b: (usize, &[u8])| (b.0, b.1@)),
            cfg@ == head + item_lines(
                set_items(all.take(n as int), item_prefix@, item_size as nat),
            ),
        decreases blocks.len() - n,
    {
        let (first_index, block) = blocks[n];
        let items: Vec<FuseItem> = fuse_items(block, item_prefix, item_size, first_index);
        push_item_lines(&mut cfg, &items);
        proof {
            let before = set_items(all.take(n as int), item_prefix@, item_size as nat);
            let here = block_items(block@, item_prefix@, item_size as nat, first_index as nat);
            assert(items@.map_values(|i: FuseItem| i@) =~= here);
            assert(all.take(n + 1).drop_last() =~= all.take(n as int));
            assert(all.take(n + 1).last() == (first_index, block@));
            lemma_item_lines(before, here);
            assert(head + (item_lines(before) + item_lines(here)) =~= head + item_lines(before)
                + item_lines(here));
        }
        n = n + 1;
    }
    proof {
        assert(all.take(n as int) =~= all);
    }
    cfg.append("      ],\n    },\n  ],\n}\n");
    cfg
}

/// Writes the file that puts one block into the items of a partition.
pub fn emit_add_cfg(block: &[u8], layout: &FuseLayout) -> (cfg: String)
    requires
        layout.item_size > 0,
    ensures
        cfg@ == add_cfg(
            layout.partition@,
            layout.lock,
            block_items(
                block@,
                layout.item_prefix@,
                layout.item_size as nat,
                layout.first_index as nat,
            ),
        ),
{
    let blocks: [(usize, &[u8]); 1] = [(layout.first_index, block)];
    proof {
        let all = blocks@.map_values(|b: (usize, &[u8])| (b.0, b.1@));
        let items = block_items(
            block@,
            layout.item_prefix@,
            layout.item_size as nat,
            layout.first_index as nat,
        );
        assert(all.last() == (layout.first_index, block@));
        assert(set_items(all.drop_last(), layout.item_prefix@, layout.item_size as nat)
            =~= Seq::empty());
        assert(set_items(all, layout.item_prefix@, layout.item_size as nat) =~= items);
    }
    emit_add_cfg_multi(
        layout.partition.as_str(),
        layout.item_prefix.as_str(),
        layout.item_size,
        layout.lock,
        &blocks,
    )
}

proof fn lemma_item_lines(a: Seq<FuseItemView>, b: Seq<FuseItemView>)
    ensures
        item_lines(a + b) == item_lines(a) + item_lines(b),
    decreases b.len(),
{
    if b.len() == 0 {
        assert(a + b =~= a);
        assert(item_lines(a) + item_lines(b) =~= item_lines(a));
    } else {
        lemma_item_lines(a, b.drop_last());
        assert((a + b).drop_last() =~= a + b.drop_last());
        assert((a + b).last() == b.last());
        assert(item_lines(a + b) =~= item_lines(a) + item_lines(b));
    }
}

/// The number that hexadecimal digits write.
pub open spec fn hex_number(digits: Seq<char>) -> nat
    decreases digits.len(),
{
    if digits.len() == 0 {
        0
    } else {
        hex_number(digits.drop_last()) * 16 + digit_of(digits.last())
    }
}

/// The value of a lower-case hexadecimal digit.
pub open spec fn digit_of(c: char) -> nat {
    if '0' <= c <= '9' {
        (c as int - '0' as int) as nat
    } else {
        (c as int - 'a' as int + 10) as nat
    }
}

/// Byte `k` of a stored value: the value shifted right by `k` bytes, cut to one.
pub open spec fn stored_byte(value: nat, k: nat) -> nat
    decreases k,
{
    if k == 0 {
        value % 256
    } else {
        stored_byte(value / 256, (k - 1) as nat)
    }
}

pub(crate) proof fn lemma_first_byte_last(bytes: Seq<u8>)
    requires
        bytes.len() > 0,
    ensures
        reversed_hex(bytes) == reversed_hex(bytes.skip(1)) + crate::text::hex_byte(bytes[0]),
    decreases bytes.len(),
{
    if bytes.len() == 1 {
        assert(bytes.drop_last() =~= Seq::empty());
        assert(bytes.skip(1) =~= Seq::empty());
        assert(reversed_hex(bytes) =~= reversed_hex(bytes.skip(1)) + crate::text::hex_byte(
            bytes[0],
        ));
    } else {
        let front = bytes.drop_last();
        lemma_first_byte_last(front);
        assert(front.skip(1) =~= bytes.skip(1).drop_last());
        assert(bytes.skip(1).last() == bytes.last());
        assert(reversed_hex(bytes) =~= reversed_hex(bytes.skip(1)) + crate::text::hex_byte(
            bytes[0],
        ));
    }
}

proof fn lemma_hex_byte(s: Seq<char>, b: u8)
    ensures
        hex_number(s + crate::text::hex_byte(b)) == hex_number(s) * 256 + b,
{
    reveal_strlit("0123456789abcdef");
    let t = s + crate::text::hex_byte(b);
    let high = crate::text::digit_char((b / 16) as int);
    let low = crate::text::digit_char((b % 16) as int);
    assert(t.drop_last() =~= s.push(high));
    assert(t.drop_last().drop_last() =~= s);
    assert(t.last() == low);
    assert(digit_of(high) == b / 16);
    assert(digit_of(low) == b % 16);
    assert(hex_number(t.drop_last()) == hex_number(s) * 16 + b / 16);
}

/// Law: what is burned is what was given. Byte `k` of the value that an item's
/// text writes is the item's byte `k`.
pub proof fn law_value_stores_bytes(bytes: Seq<u8>, k: nat)
    requires
        k < bytes.len(),
    ensures
        stored_byte(hex_number(reversed_hex(bytes)), k) == bytes[k as int],
    decreases k,
{
    let rest = hex_number(reversed_hex(bytes.skip(1)));
    lemma_first_byte_last(bytes);
    lemma_hex_byte(reversed_hex(bytes.skip(1)), bytes[0]);
    assert(hex_number(reversed_hex(bytes)) == rest * 256 + bytes[0]);
    if k > 0 {
        law_value_stores_bytes(bytes.skip(1), (k - 1) as nat);
        assert((rest * 256 + bytes[0]) as nat / 256 == rest);
    }
}

/// Law: the items hold the block. Reading the items of a block byte by byte gives
/// the block, verbatim, then zeros.
pub proof fn law_items_hold_block(block: Seq<u8>, item_size: nat, n: nat)
    requires
        item_size > 0,
        n < item_count(block.len(), item_size) * item_size,
    ensures
        n / item_size < item_count(block.len(), item_size),
        stored_byte(
            hex_number(reversed_hex(item_bytes(block, item_size, (n / item_size) as int))),
            n % item_size,
        ) == if n < block.len() {
            block[n as int] as nat
        } else {
            0
        },
{
    let k = n / item_size;
    let count = item_count(block.len(), item_size);
    assert(k < count && k * item_size + n % item_size == n && n % item_size < item_size)
        by (nonlinear_arith)
        requires
            item_size > 0,
            k == n / item_size,
            n < count * item_size,
    ;
    law_value_stores_bytes(item_bytes(block, item_size, k as int), n % item_size);
}

/// Law: no byte is left over. The items of a block have room for all of it, and
/// less than one item to spare.
pub proof fn law_items_cover_block(len: nat, item_size: nat)
    requires
        item_size > 0,
    ensures
        len <= item_count(len, item_size) * item_size < len + item_size,
{
    assert(len == (len / item_size) * item_size + len % item_size && len % item_size < item_size)
        by (nonlinear_arith)
        requires
            item_size > 0,
    ;
    let q = len / item_size;
    assert((q + 1) * item_size == q * item_size + item_size) by (nonlinear_arith);
}

} // verus!
