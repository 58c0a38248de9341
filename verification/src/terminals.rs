//! The list of the blocks that no block refers to, as it is stored.

use vstd::prelude::*;
use crate::arena::ConsensusGraphNode;
use crate::model::terminals_ok;
use crate::state::ConsensusGraphInner;
#[allow(unused_imports)]
use crate::state::lemma_node;
use crate::types::H256;

verus! {

/// A number as `n` bytes, the most significant one first.
pub open spec fn be_bytes(x: nat, n: nat) -> Seq<u8>
    decreases n,
{
    if n == 0 {
        Seq::empty()
    } else {
        be_bytes(x / 256, (n - 1) as nat).push((x % 256) as u8)
    }
}

/// A number as bytes without leading zeros.
pub open spec fn short_be_bytes(x: nat) -> Seq<u8>
    decreases x,
{
    if x == 0 {
        Seq::empty()
    } else {
        short_be_bytes(x / 256).push((x % 256) as u8)
    }
}

/// The bytes of a hash.
pub open spec fn hash_bytes(hash: H256) -> Seq<u8> {
    be_bytes(hash.hi as nat, 16) + be_bytes(hash.lo as nat, 16)
}

/// Byte strings of 32 bytes in the recursive length prefix form, one after the
/// other.
pub open spec fn rlp_items(items: Seq<Seq<u8>>) -> Seq<u8>
    decreases items.len(),
{
    if items.len() == 0 {
        Seq::empty()
    } else {
        rlp_items(items.drop_last()).push(0xa0) + items.last()
    }
}

/// What stands before the items of a list that take up `len` bytes.
pub open spec fn rlp_list_header(len: nat) -> Seq<u8> {
    if len <= 55 {
        seq![(0xc0 + len) as u8]
    } else {
        seq![(0xf7 + short_be_bytes(len).len()) as u8] + short_be_bytes(len)
    }
}

/// A list of byte strings of 32 bytes in the recursive length prefix form.
pub open spec fn rlp_list(items: Seq<Seq<u8>>) -> Seq<u8> {
    rlp_list_header(rlp_items(items).len()) + rlp_items(items)
}

/// A list of hashes in the recursive length prefix form.
pub open spec fn stored_hashes(hashes: Seq<H256>) -> Seq<u8> {
    rlp_list(hashes.map_values(|h: H256| hash_bytes(h)))
}

/// The contents of byte vectors.
pub open spec fn contents(items: Seq<Vec<u8>>) -> Seq<Seq<u8>> {
    items.map_values(|item: Vec<u8>| item@)
}

/// `rlp::encode_list` on byte vectors of 32 bytes each: a header with the
/// length of all items, then each item behind the byte for a string of 32
/// bytes. The length of the items is written as a number of 32 bits.
#[verifier::external_body]
fn rlp_encode_list(items: &Vec<Vec<u8>>) -> (bytes: Vec<u8>)
    requires
        forall|i: int| 0 <= i < items@.len() ==> (#[trigger] items@[i])@.len() == 32,
        items@.len() * 33 < 0x1_0000_0000,
    ensures
        bytes@ == rlp_list(contents(items@)),
{
    rlp::encode_list::<Vec<u8>, Vec<u8>>(items)
}

proof fn lemma_be_bytes_len(x: nat, n: nat)
    ensures
        be_bytes(x, n).len() == n,
    decreases n,
{
    if n > 0 {
        lemma_be_bytes_len(x / 256, (n - 1) as nat);
    }
}

/// Appends a number as `n` bytes.
fn push_be_bytes(out: &mut Vec<u8>, x: u128, n: usize)
    ensures
        final(out)@ == old(out)@ + be_bytes(x as nat, n as nat),
    decreases n,
{
    let ghost before = out@;
    if n > 0 {
        push_be_bytes(out, x / 256, n - 1);
        out.push((x % 256) as u8);
    }
    proof {
        assert(out@ =~= before + be_bytes(x as nat, n as nat));
    }
}

/// The bytes of a hash.
fn to_bytes(hash: &H256) -> (bytes: Vec<u8>)
    ensures
        bytes@ == hash_bytes(*hash),
        bytes@.len() == 32,
{
    let mut bytes: Vec<u8> = Vec::new();
    push_be_bytes(&mut bytes, hash.hi, 16);
    push_be_bytes(&mut bytes, hash.lo, 16);
    proof {
        lemma_be_bytes_len(hash.hi as nat, 16);
        lemma_be_bytes_len(hash.lo as nat, 16);
        assert(bytes@ =~= hash_bytes(*hash));
    }
    bytes
}

/// A list of hashes in the recursive length prefix form.
pub fn encode_hashes(hashes: &Vec<H256>) -> (bytes: Vec<u8>)
    requires
        hashes@.len() * 33 < 0x1_0000_0000,
    ensures
        bytes@ == stored_hashes(hashes@),
{
    let mut items: Vec<Vec<u8>> = Vec::new();
    let mut i: usize = 0;
    while i < hashes.len()
        invariant
            i <= hashes@.len(),
            items@.len() == i,
            forall|j: int|
                0 <= j < i ==> (#[trigger] items@[j])@ == hash_bytes(hashes@[j])
                    && items@[j]@.len() == 32,
        decreases hashes@.len() - i,
    {
        items.push(to_bytes(&hashes[i]));
        i += 1;
    }
    proof {
        assert(contents(items@) =~= hashes@.map_values(|h: H256| hash_bytes(h)));
    }
    rlp_encode_list(&items)
}

/// There are no more such blocks than blocks.
proof fn lemma_terminal_count(
    nodes: Seq<ConsensusGraphNode>,
    terminals: Set<H256>,
    list: Seq<H256>,
)
    requires
        terminals_ok(nodes, terminals),
        list.no_duplicates(),
        list.to_set() == terminals,
    ensures
        list.len() <= nodes.len(),
{
    reveal(terminals_ok);
    let hashes = nodes.map_values(|n: ConsensusGraphNode| n.hash);
    vstd::seq_lib::seq_to_set_is_finite(hashes);
    assert forall|h: H256| terminals.contains(h) implies hashes.to_set().contains(h) by {
        let i = choose|i: int| 0 <= i < nodes.len() && (#[trigger] nodes[i]).hash == h;
        assert(hashes[i] == h);
    }
    list.unique_seq_to_set();
    vstd::set_lib::lemma_len_subset(terminals, hashes.to_set());
    hashes.lemma_cardinality_of_set();
}

impl ConsensusGraphInner {
    /// The list of the blocks that no block refers to, in the form in which it
    /// is stored. In which order they stand is left open.
    pub fn persist_terminals(&self) -> (bytes: Vec<u8>)
        requires
            self.readable(),
        ensures
            exists|list: Seq<H256>|
                list.no_duplicates() && list.to_set() == self.terminal_hashes@ && bytes@
                    == #[trigger] stored_hashes(list),
    {
        let terminals: Vec<H256> = self.terminal_hashes.to_vec();
        proof {
            lemma_terminal_count(self.nodes(), self.terminal_hashes@, terminals@);
            assert(self.pivot_chain@[0] < self.size());
            lemma_node(self.nodes(), 0);
        }
        let bytes: Vec<u8> = encode_hashes(&terminals);
        proof {
            let list = terminals@;
            assert(list.no_duplicates() && list.to_set() == self.terminal_hashes@ && bytes@
                == stored_hashes(list));
        }
        bytes
    }
}

proof fn lemma_be_bytes_injective(x: nat, y: nat, n: nat)
    requires
        be_bytes(x, n) == be_bytes(y, n),
    ensures
        vstd::arithmetic::power::pow(256, n) > 0,
        x < vstd::arithmetic::power::pow(256, n) && y < vstd::arithmetic::power::pow(256, n) ==> x
            == y,
    decreases n,
{
    vstd::arithmetic::power::lemma_pow_positive(256, n);
    if n == 0 {
        vstd::arithmetic::power::lemma_pow0(256);
    } else {
        let a = be_bytes(x / 256, (n - 1) as nat);
        let b = be_bytes(y / 256, (n - 1) as nat);
        lemma_be_bytes_len(x / 256, (n - 1) as nat);
        lemma_be_bytes_len(y / 256, (n - 1) as nat);
        assert(a =~= be_bytes(x, n).drop_last());
        assert(b =~= be_bytes(y, n).drop_last());
        assert(be_bytes(x, n).last() == (x % 256) as u8);
        assert(be_bytes(y, n).last() == (y % 256) as u8);
        lemma_be_bytes_injective(x / 256, y / 256, (n - 1) as nat);
        reveal(vstd::arithmetic::power::pow);
        assert(vstd::arithmetic::power::pow(256, n) == 256 * vstd::arithmetic::power::pow(
            256,
            (n - 1) as nat,
        ));
    }
}

proof fn lemma_hash_bytes_injective(g: H256, h: H256)
    requires
        hash_bytes(g) == hash_bytes(h),
    ensures
        g == h,
{
    lemma_be_bytes_len(g.hi as nat, 16);
    lemma_be_bytes_len(g.lo as nat, 16);
    lemma_be_bytes_len(h.hi as nat, 16);
    lemma_be_bytes_len(h.lo as nat, 16);
    assert(be_bytes(g.hi as nat, 16) =~= hash_bytes(g).take(16));
    assert(be_bytes(h.hi as nat, 16) =~= hash_bytes(h).take(16));
    assert(be_bytes(g.lo as nat, 16) =~= hash_bytes(g).skip(16));
    assert(be_bytes(h.lo as nat, 16) =~= hash_bytes(h).skip(16));
    lemma_be_bytes_injective(g.hi as nat, h.hi as nat, 16);
    lemma_be_bytes_injective(g.lo as nat, h.lo as nat, 16);
    reveal_with_fuel(vstd::arithmetic::power::pow, 17);
    assert(vstd::arithmetic::power::pow(256, 16)
        == 0x1_0000_0000_0000_0000_0000_0000_0000_0000int);
}

proof fn lemma_short_len_ordered(x: nat, y: nat)
    requires
        x <= y,
    ensures
        short_be_bytes(x).len() <= short_be_bytes(y).len(),
    decreases y,
{
    if x > 0 {
        lemma_short_len_ordered(x / 256, y / 256);
    }
}

proof fn lemma_items_len(items: Seq<Seq<u8>>)
    requires
        forall|i: int| 0 <= i < items.len() ==> (#[trigger] items[i]).len() == 32,
    ensures
        rlp_items(items).len() == 33 * items.len(),
    decreases items.len(),
{
    if items.len() > 0 {
        lemma_items_len(items.drop_last());
    }
}

proof fn lemma_items_injective(a: Seq<Seq<u8>>, b: Seq<Seq<u8>>)
    requires
        forall|i: int| 0 <= i < a.len() ==> (#[trigger] a[i]).len() == 32,
        forall|i: int| 0 <= i < b.len() ==> (#[trigger] b[i]).len() == 32,
        a.len() == b.len(),
        rlp_items(a) == rlp_items(b),
    ensures
        a == b,
    decreases a.len(),
{
    if a.len() > 0 {
        let x = rlp_items(a.drop_last()).push(0xa0);
        let y = rlp_items(b.drop_last()).push(0xa0);
        lemma_items_len(a.drop_last());
        lemma_items_len(b.drop_last());
        assert(x =~= rlp_items(a).take(x.len() as int));
        assert(y =~= rlp_items(b).take(y.len() as int));
        assert(a.last() =~= rlp_items(a).skip(x.len() as int));
        assert(b.last() =~= rlp_items(b).skip(y.len() as int));
        assert(rlp_items(a.drop_last()) =~= x.drop_last());
        assert(rlp_items(b.drop_last()) =~= y.drop_last());
        lemma_items_injective(a.drop_last(), b.drop_last());
        assert(a =~= a.drop_last().push(a.last()));
        assert(b =~= b.drop_last().push(b.last()));
    } else {
        assert(a =~= b);
    }
}

/// The stored form of a list of hashes determines the list.
pub proof fn lemma_stored_form_determines(a: Seq<H256>, b: Seq<H256>)
    requires
        stored_hashes(a) == stored_hashes(b),
    ensures
        a == b,
{
    let f = |h: H256| hash_bytes(h);
    let x = a.map_values(f);
    let y = b.map_values(f);
    assert forall|i: int| 0 <= i < x.len() implies (#[trigger] x[i]).len() == 32 by {
        lemma_be_bytes_len(a[i].hi as nat, 16);
        lemma_be_bytes_len(a[i].lo as nat, 16);
    }
    assert forall|i: int| 0 <= i < y.len() implies (#[trigger] y[i]).len() == 32 by {
        lemma_be_bytes_len(b[i].hi as nat, 16);
        lemma_be_bytes_len(b[i].lo as nat, 16);
    }
    lemma_items_len(x);
    lemma_items_len(y);
    let m = rlp_items(x).len();
    let n = rlp_items(y).len();
    lemma_header_len_ordered(m, n);
    lemma_header_len_ordered(n, m);
    assert(stored_hashes(a) == rlp_list(x));
    assert(stored_hashes(b) == rlp_list(y));
    assert(rlp_list(x).len() == rlp_list_header(m).len() + m);
    assert(rlp_list(y).len() == rlp_list_header(n).len() + n);
    assert(m == n);
    let head = rlp_list_header(m).len();
    assert(rlp_items(x) =~= stored_hashes(a).skip(head as int));
    assert(rlp_items(y) =~= stored_hashes(b).skip(head as int));
    lemma_items_injective(x, y);
    assert forall|i: int| 0 <= i < a.len() implies a[i] == b[i] by {
        assert(x[i] == y[i]);
        lemma_hash_bytes_injective(a[i], b[i]);
    }
    assert(a =~= b);
}

proof fn lemma_header_len_ordered(m: nat, n: nat)
    ensures
        m <= n ==> rlp_list_header(m).len() <= rlp_list_header(n).len(),
{
    if m <= n {
        lemma_short_len_ordered(m, n);
    }
}

/// The number that bytes stand for, the most significant one first.
pub open spec fn be_value(bytes: Seq<u8>) -> nat
    decreases bytes.len(),
{
    if bytes.len() == 0 {
        0
    } else {
        256 * be_value(bytes.drop_last()) + bytes.last() as nat
    }
}

proof fn lemma_be_value_of_bytes(x: nat, n: nat)
    ensures
        be_bytes(x, n).len() == n,
        x < vstd::arithmetic::power::pow(256, n) ==> be_value(be_bytes(x, n)) == x,
    decreases n,
{
    reveal(vstd::arithmetic::power::pow);
    if n > 0 {
        lemma_be_value_of_bytes(x / 256, (n - 1) as nat);
        let front = be_bytes(x / 256, (n - 1) as nat);
        assert(be_bytes(x, n).drop_last() =~= front);
        let p = vstd::arithmetic::power::pow(256, (n - 1) as nat);
        assert(x < 256 * p ==> x / 256 < p);
    }
}

proof fn lemma_be_value_joined(a: Seq<u8>, b: Seq<u8>)
    ensures
        be_value(a + b) == be_value(a) * vstd::arithmetic::power::pow(256, b.len()) + be_value(b),
    decreases b.len(),
{
    reveal(vstd::arithmetic::power::pow);
    if b.len() == 0 {
        assert(a + b =~= a);
    } else {
        let c = b.drop_last();
        lemma_be_value_joined(a, c);
        assert((a + b).drop_last() =~= a + c);
        let p = vstd::arithmetic::power::pow(256, c.len());
        let v = be_value(a) as int;
        assert(256 * (v * p) == v * (256 * p)) by (nonlinear_arith);
    }
}

proof fn lemma_short_be_value(x: nat)
    ensures
        be_value(short_be_bytes(x)) == x,
        x > 0 ==> short_be_bytes(x).len() > 0 && short_be_bytes(x)[0] != 0,
        x < 0x1_0000_0000 ==> short_be_bytes(x).len() <= 4,
    decreases x,
{
    if x > 0 {
        lemma_short_be_value(x / 256);
        assert(short_be_bytes(x).drop_last() =~= short_be_bytes(x / 256));
        if x < 0x1_0000_0000 {
            lemma_short_len(x, 4);
        }
    }
}

proof fn lemma_short_len(x: nat, n: nat)
    requires
        n <= 4,
        n == 0 ==> x == 0,
        n == 1 ==> x < 0x100,
        n == 2 ==> x < 0x1_0000,
        n == 3 ==> x < 0x100_0000,
        n == 4 ==> x < 0x1_0000_0000,
    ensures
        short_be_bytes(x).len() <= n,
    decreases n,
{
    if x > 0 {
        lemma_short_len(x / 256, (n - 1) as nat);
    }
}

/// The bytes of a hash, read as one number, are the number that its halves make.
pub proof fn lemma_hash_bytes_value(hash: H256)
    ensures
        hash_bytes(hash).len() == 32,
        be_value(hash_bytes(hash)) == hash.hi * 0x1_0000_0000_0000_0000_0000_0000_0000_0000
            + hash.lo,
{
    let p = vstd::arithmetic::power::pow(256, 16);
    assert(p == 0x1_0000_0000_0000_0000_0000_0000_0000_0000) by {
        reveal(vstd::arithmetic::power::pow);
        reveal_with_fuel(vstd::arithmetic::power::pow, 17);
    }
    lemma_be_value_of_bytes(hash.hi as nat, 16);
    lemma_be_value_of_bytes(hash.lo as nat, 16);
    lemma_be_value_joined(be_bytes(hash.hi as nat, 16), be_bytes(hash.lo as nat, 16));
}

proof fn lemma_item_place(items: Seq<Seq<u8>>, i: int)
    requires
        forall|j: int| 0 <= j < items.len() ==> (#[trigger] items[j]).len() == 32,
        0 <= i < items.len(),
    ensures
        rlp_items(items).len() == 33 * items.len(),
        rlp_items(items)[33 * i] == 0xa0,
        rlp_items(items).subrange(33 * i + 1, 33 * i + 33) == items[i],
    decreases items.len(),
{
    let front = items.drop_last();
    lemma_items_len(items);
    assert forall|j: int| 0 <= j < front.len() implies (#[trigger] front[j]).len() == 32 by {
        assert(front[j] == items[j]);
    }
    lemma_items_len(front);
    let all = rlp_items(items);
    if i < front.len() {
        lemma_item_place(front, i);
        let a = rlp_items(front);
        assert(all[33 * i] == a[33 * i]);
        assert(all.subrange(33 * i + 1, 33 * i + 33) =~= a.subrange(33 * i + 1, 33 * i + 33));
    } else {
        assert(all.subrange(33 * i + 1, 33 * i + 33) =~= items.last());
    }
}

/// The stored form of a list of hashes: what stands before the items tells how many
/// bytes follow, in one byte up to 55 and else in as many bytes as the number
/// takes, and then each hash follows in its 32 bytes behind the byte that says so.
pub proof fn lemma_stored_layout(hashes: Seq<H256>, i: int)
    requires
        hashes.len() * 33 < 0x1_0000_0000,
    ensures
        ({
            let bytes = stored_hashes(hashes);
            let body = 33 * hashes.len();
            let head = bytes.len() - body;
            &&& head >= 1
            &&& body <= 55 ==> head == 1 && bytes[0] == 0xc0 + body
            &&& body > 55 ==> bytes[0] == 0xf7 + (head - 1) && head > 1 && bytes[1] != 0
                && be_value(bytes.subrange(1, head)) == body
            &&& 0 <= i < hashes.len() ==> bytes[head + 33 * i] == 0xa0 && be_value(
                bytes.subrange(head + 33 * i + 1, head + 33 * i + 33),
            ) == hashes[i].hi * 0x1_0000_0000_0000_0000_0000_0000_0000_0000 + hashes[i].lo
        }),
{
    let f = |h: H256| hash_bytes(h);
    let x = hashes.map_values(f);
    assert forall|j: int| 0 <= j < x.len() implies (#[trigger] x[j]).len() == 32 by {
        lemma_hash_bytes_value(hashes[j]);
    }
    lemma_items_len(x);
    let body = rlp_items(x).len();
    let header = rlp_list_header(body);
    let bytes = stored_hashes(hashes);
    assert(bytes == header + rlp_items(x));
    lemma_short_be_value(body);
    if body > 55 {
        assert(bytes.subrange(1, header.len() as int) =~= short_be_bytes(body));
        assert(bytes[1] == short_be_bytes(body)[0]);
    }
    if 0 <= i < hashes.len() {
        lemma_item_place(x, i);
        lemma_hash_bytes_value(hashes[i]);
        let head = header.len() as int;
        assert(bytes.subrange(head + 33 * i + 1, head + 33 * i + 33) =~= rlp_items(x).subrange(
            33 * i + 1,
            33 * i + 33,
        ));
        assert(x[i] == hash_bytes(hashes[i]));
    }
}

} // verus!
