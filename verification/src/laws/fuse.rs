//! Blocks as fuse items.

use super::text::law_digits_read_back;
use crate::fuse_cfg::FuseItemView;
use vstd::prelude::*;

verus! {

/// Byte `k` of a number: the number shifted right by `k` bytes, cut to one.
pub open spec fn number_byte(value: nat, k: nat) -> nat
    decreases k,
{
    if k == 0 {
        value % 256
    } else {
        number_byte(value / 256, (k - 1) as nat)
    }
}

proof fn lemma_pair(s: Seq<char>, b: u8)
    ensures
        super::text::read(s + crate::text::hex_byte(b), 16) == super::text::read(s, 16) * 256 + b,
        super::text::all_digits(crate::text::hex_byte(b), 16),
        super::text::lower_case(crate::text::hex_byte(b)),
{
    reveal_strlit("0123456789abcdef");
    let t = s + crate::text::hex_byte(b);
    let high = crate::text::digit_char((b / 16) as int);
    let low = crate::text::digit_char((b % 16) as int);
    assert(t.drop_last() =~= s.push(high));
    assert(t.drop_last().drop_last() =~= s);
    assert(t.last() == low);
    assert(super::text::digit(high) == Some((b / 16) as nat));
    assert(super::text::digit(low) == Some((b % 16) as nat));
    assert(super::text::read(t.drop_last(), 16) == super::text::read(s, 16) * 16 + b / 16);
}

proof fn lemma_reversed(bytes: Seq<u8>)
    ensures
        crate::fuse_cfg::reversed_hex(bytes).len() == 2 * bytes.len(),
        super::text::all_digits(crate::fuse_cfg::reversed_hex(bytes), 16),
        super::text::lower_case(crate::fuse_cfg::reversed_hex(bytes)),
    decreases bytes.len(),
{
    if bytes.len() > 0 {
        let rest = crate::fuse_cfg::reversed_hex(bytes.drop_last());
        let pair = crate::text::hex_byte(bytes.last());
        lemma_reversed(bytes.drop_last());
        lemma_pair(Seq::empty(), bytes.last());
        let s = crate::fuse_cfg::reversed_hex(bytes);
        assert(s =~= pair + rest);
        assert forall|i: int| 0 <= i < s.len() implies super::text::digit(#[trigger] s[i]) is Some
            && super::text::digit(s[i])->0 < 16 && !('A' <= s[i] <= 'F') by {
            if i < 2 {
                assert(s[i] == pair[i]);
            } else {
                assert(s[i] == rest[i - 2]);
            }
        }
    }
}

proof fn lemma_stored(bytes: Seq<u8>, k: nat)
    requires
        k < bytes.len(),
    ensures
        number_byte(super::text::read(crate::fuse_cfg::reversed_hex(bytes), 16), k)
            == bytes[k as int],
    decreases k,
{
    let rest = super::text::read(crate::fuse_cfg::reversed_hex(bytes.skip(1)), 16);
    crate::fuse_cfg::lemma_first_byte_last(bytes);
    lemma_pair(crate::fuse_cfg::reversed_hex(bytes.skip(1)), bytes[0]);
    if k > 0 {
        lemma_stored(bytes.skip(1), (k - 1) as nat);
        assert((rest * 256 + bytes[0]) as nat / 256 == rest);
    }
}

/// Law: what is burned is the block. Of the items that a block takes, item
/// `n / item_size` has for value `0x` and two hexadecimal digits for each of its
/// bytes, and the number that these write, shifted right by `n % item_size`
/// bytes and cut to one, is byte `n` of the block, or zero behind its end.
pub proof fn law_values_hold_block(
    block: Seq<u8>,
    item_prefix: Seq<char>,
    item_size: nat,
    first_index: nat,
    n: nat,
)
    requires
        item_size > 0,
        n < crate::fuse_cfg::item_count(block.len(), item_size) * item_size,
    ensures
        n / item_size < crate::fuse_cfg::item_count(block.len(), item_size),
        ({
            let value = crate::fuse_cfg::fuse_item(
                block,
                item_prefix,
                item_size,
                first_index,
                (n / item_size) as int,
            ).value;
            &&& value.len() == 2 + 2 * item_size
            &&& value.take(2) == seq!['0', 'x']
            &&& super::text::all_digits(value.skip(2), 16)
            &&& super::text::lower_case(value.skip(2))
            &&& number_byte(super::text::read(value.skip(2), 16), n % item_size) == if n
                < block.len() {
                block[n as int] as nat
            } else {
                0
            }
        }),
{
    let k = n / item_size;
    let count = crate::fuse_cfg::item_count(block.len(), item_size);
    assert(k < count && k * item_size + n % item_size == n && n % item_size < item_size)
        by (nonlinear_arith)
        requires
            item_size > 0,
            k == n / item_size,
            n < count * item_size,
    ;
    let bytes = crate::fuse_cfg::item_bytes(block, item_size, k as int);
    let value = crate::fuse_cfg::fuse_item(
        block,
        item_prefix,
        item_size,
        first_index,
        k as int,
    ).value;
    reveal_strlit("0x");
    lemma_reversed(bytes);
    lemma_stored(bytes, n % item_size);
    assert(value.take(2) =~= seq!['0', 'x']);
    assert(value.skip(2) =~= crate::fuse_cfg::reversed_hex(bytes));
}

/// Law: a block takes as few items as hold all of its bytes.
pub proof fn law_item_count_is_least(len: nat, item_size: nat, n: nat)
    requires
        item_size > 0,
    ensures
        len <= n * item_size <==> crate::fuse_cfg::item_count(len, item_size) <= n,
{
    let count = crate::fuse_cfg::item_count(len, item_size);
    crate::fuse_cfg::law_items_cover_block(len, item_size);
    if len <= n * item_size && n < count {
        assert(n * item_size + item_size <= count * item_size) by (nonlinear_arith)
            requires
                n + 1 <= count,
        ;
    }
    if count <= n {
        assert(count * item_size <= n * item_size) by (nonlinear_arith)
            requires
                count <= n,
        ;
    }
}

/// Law: items are named by their index. The name is the prefix, then the index
/// of the block's first item plus the item's own, in decimal.
pub proof fn law_items_are_named_by_index(
    block: Seq<u8>,
    item_prefix: Seq<char>,
    item_size: nat,
    first_index: nat,
    k: nat,
)
    ensures
        ({
            let name = crate::fuse_cfg::fuse_item(
                block,
                item_prefix,
                item_size,
                first_index,
                k as int,
            ).name;
            let index = name.skip(item_prefix.len() as int);
            &&& name.len() > item_prefix.len()
            &&& name.take(item_prefix.len() as int) == item_prefix
            &&& super::text::all_digits(index, 10)
            &&& super::text::read(index, 10) == first_index + k
            &&& index[0] == '0' ==> index.len() == 1
        }),
{
    let name = crate::fuse_cfg::fuse_item(
        block,
        item_prefix,
        item_size,
        first_index,
        k as int,
    ).name;
    law_digits_read_back(first_index + k, 10);
    assert(name.take(item_prefix.len() as int) =~= item_prefix);
    assert(name.skip(item_prefix.len() as int) =~= crate::text::decimal(first_index + k));
}

/// Law: the items of a set are those of its blocks, in turn, and nothing else.
/// Two sets one after the other give the items of both; one block gives the
/// items that it takes, in order.
pub proof fn law_set_items_in_turn(
    a: Seq<(usize, Seq<u8>)>,
    b: Seq<(usize, Seq<u8>)>,
    one: (usize, Seq<u8>),
    item_prefix: Seq<char>,
    item_size: nat,
    k: int,
)
    requires
        0 <= k < crate::fuse_cfg::item_count(one.1.len(), item_size),
    ensures
        crate::fuse_cfg::set_items(Seq::empty(), item_prefix, item_size).len() == 0,
        crate::fuse_cfg::set_items(a + b, item_prefix, item_size) == crate::fuse_cfg::set_items(
            a,
            item_prefix,
            item_size,
        ) + crate::fuse_cfg::set_items(b, item_prefix, item_size),
        crate::fuse_cfg::set_items(seq![one], item_prefix, item_size).len()
            == crate::fuse_cfg::item_count(one.1.len(), item_size),
        crate::fuse_cfg::set_items(seq![one], item_prefix, item_size)[k]
            == crate::fuse_cfg::fuse_item(one.1, item_prefix, item_size, one.0 as nat, k),
        crate::fuse_cfg::block_items(one.1, item_prefix, item_size, one.0 as nat)
            == crate::fuse_cfg::set_items(seq![one], item_prefix, item_size),
    decreases b.len(),
{
    let items = crate::fuse_cfg::set_items(seq![one], item_prefix, item_size);
    assert(seq![one].drop_last() =~= Seq::empty());
    assert(seq![one].last() == one);
    assert(crate::fuse_cfg::set_items(Seq::empty(), item_prefix, item_size).len() == 0);
    assert(items =~= crate::fuse_cfg::block_items(one.1, item_prefix, item_size, one.0 as nat));
    let x = crate::fuse_cfg::set_items(a, item_prefix, item_size);
    let y = crate::fuse_cfg::set_items(b, item_prefix, item_size);
    if b.len() == 0 {
        assert(a + b =~= a);
        assert(x + y =~= x);
    } else {
        law_set_items_in_turn(a, b.drop_last(), one, item_prefix, item_size, k);
        assert((a + b).drop_last() =~= a + b.drop_last());
        assert((a + b).last() == b.last());
        assert(crate::fuse_cfg::set_items(a + b, item_prefix, item_size) =~= x + y);
    }
}

/// Law: the file names the partition, asks for the lock exactly if it was
/// requested, and gives each item a line with its name and its value, in order.
pub proof fn law_file_lists_items(
    partition: Seq<char>,
    lock: bool,
    items: Seq<FuseItemView>,
    last: FuseItemView,
)
    ensures
        crate::fuse_cfg::add_cfg(partition, lock, items) =~= "{\n  partitions: [\n    {\n      name: \""@
            + partition + "\",\n"@ + (if lock {
            "      lock: \"True\",\n"@
        } else {
            Seq::empty()
        }) + "      items: [\n"@ + crate::fuse_cfg::item_lines(items)
            + "      ],\n    },\n  ],\n}\n"@,
        crate::fuse_cfg::item_lines(Seq::empty()).len() == 0,
        crate::fuse_cfg::item_lines(items.push(last)) =~= crate::fuse_cfg::item_lines(items)
            + "        { name: \""@ + last.name + "\", value: \""@ + last.value + "\" },\n"@,
{
    reveal_strlit("");
    assert(""@ =~= Seq::empty());
    assert(items.push(last).drop_last() =~= items);
    assert(items.push(last).last() == last);
}

} // verus!
