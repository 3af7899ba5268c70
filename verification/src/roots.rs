//! BLAKE3 Merkle roots of a block's transactions and receipts.
//!
//! These roots do not have the format of Ethereum's tries: they are meant for
//! throughput experiments on a fresh chain, and are used only where
//! [`enabled`] says so.
use crate::digits::{le_bytes, le_value, lemma_le_bytes, lemma_pow256_values, push_le};
use crate::primitives::B256;
use vstd::arithmetic::power2::{lemma2_to64, lemma_pow2_pos, lemma_pow2_unfold, pow2};
use vstd::prelude::*;
use vstd::string::StringSliceAdditionalSpecFns;

verus! {

/// Whether the roots are in use, given the value of the environment variable
/// `N42_BLAKE3_BLOCK_HASH`.
pub fn enabled(value: Option<&str>) -> (enabled: bool)
    ensures
        enabled == (value is Some && value->0@ == "1"@),
{
    proof {
        reveal_strlit("1");
    }
    match value {
        Some(v) => {
            let enabled = v.unicode_len() == 1 && v.get_char(0) == '1';
            assert(enabled ==> v@ =~= "1"@);
            enabled
        },
        None => false,
    }
}

/// Whether the roots are in use, given the answer that was kept from the first
/// time and the variable's value now. The first answer is kept: whatever the
/// value is changed to afterwards, it stays.
pub fn enabled_once(kept: &mut Option<bool>, value: Option<&str>) -> (enabled: bool)
    ensures
        enabled == match *old(kept) {
            Some(answer) => answer,
            None => value is Some && value->0@ == "1"@,
        },
        *final(kept) == Some(enabled),
{
    match *kept {
        Some(answer) => answer,
        None => {
            let answer = self::enabled(value);
            *kept = Some(answer);
            answer
        },
    }
}

/// The BLAKE3 digest of a message.
pub uninterp spec fn blake3_digest(message: Seq<u8>) -> Seq<u8>;

/// `blake3::hash`: the 32 bytes are the digest of the message, and depend on
/// nothing else.
#[verifier::external_body]
fn blake3_hash(message: &[u8]) -> (digest: B256)
    ensures
        digest@ == blake3_digest(message@),
{
    B256(*blake3::hash(message).as_bytes())
}

/// The bytes of an ASCII text.
pub open spec fn ascii(text: Seq<char>) -> Seq<u8> {
    Seq::new(text.len(), |i: int| text[i] as u8)
}

/// The bytes of an ASCII text.
fn ascii_bytes(text: &str) -> (bytes: &[u8])
    requires
        text.is_ascii(),
    ensures
        bytes@ == ascii(text@),
{
    proof {
        vstd::string::is_ascii_spec_bytes(text);
    }
    assert(text.spec_bytes() =~= ascii(text@));
    text.as_bytes()
}

/// What every message starts with.
pub open spec fn prefix() -> Seq<u8> {
    ascii("n42-blake3-block-roots-v1"@)
}

/// The domain of transactions.
pub open spec fn tx_domain() -> Seq<u8> {
    ascii("tx"@)
}

/// The domain of receipts.
pub open spec fn receipt_domain() -> Seq<u8> {
    ascii("receipt"@)
}

/// What the message of an inner node has in place of a domain.
pub open spec fn node_domain() -> Seq<u8> {
    ascii("node"@)
}

/// The message of a leaf.
pub open spec fn leaf_bytes(domain: Seq<u8>, index: nat, bytes: Seq<u8>) -> Seq<u8> {
    prefix() + domain + le_bytes(index, 8) + le_bytes(bytes.len(), 8) + bytes
}

/// The message of an inner node.
pub open spec fn node_bytes(left: Seq<u8>, right: Seq<u8>) -> Seq<u8> {
    prefix() + node_domain() + left + right
}

/// The start of every message, with its domain.
fn start(domain: &[u8]) -> (message: Vec<u8>)
    ensures
        message@ == prefix() + domain@,
{
    let mut message: Vec<u8> = Vec::new();
    proof {
        reveal_strlit("n42-blake3-block-roots-v1");
    }
    message.extend_from_slice(ascii_bytes("n42-blake3-block-roots-v1"));
    message.extend_from_slice(domain);
    assert(message@ =~= prefix() + domain@);
    message
}

/// The message of the leaf of `bytes` at `index`.
pub fn leaf_message(domain: &[u8], index: usize, bytes: &[u8]) -> (message: Vec<u8>)
    ensures
        message@ == leaf_bytes(domain@, index as nat, bytes@),
{
    let mut message = start(domain);
    push_le(&mut message, index as u64, 8);
    push_le(&mut message, bytes.len() as u64, 8);
    message.extend_from_slice(bytes);
    assert(message@ =~= leaf_bytes(domain@, index as nat, bytes@));
    message
}

/// The message of the node over `left` and `right`.
pub fn node_message(left: &B256, right: &B256) -> (message: Vec<u8>)
    ensures
        message@ == node_bytes(left@, right@),
{
    proof {
        reveal_strlit("node");
    }
    let mut message = start(ascii_bytes("node"));
    message.extend_from_slice(left.0.as_slice());
    message.extend_from_slice(right.0.as_slice());
    assert(message@ =~= node_bytes(left@, right@));
    message
}

/// The digest of a leaf.
pub open spec fn leaf_digest(domain: Seq<u8>, index: nat, bytes: Seq<u8>) -> Seq<u8> {
    blake3_digest(leaf_bytes(domain, index, bytes))
}

/// The digest of the node over two others.
pub open spec fn node_digest(left: Seq<u8>, right: Seq<u8>) -> Seq<u8> {
    blake3_digest(node_bytes(left, right))
}

/// The digests of the leaves over `payloads`.
pub open spec fn leaf_level(domain: Seq<u8>, payloads: Seq<Seq<u8>>) -> Seq<Seq<u8>> {
    Seq::new(payloads.len(), |i: int| leaf_digest(domain, i as nat, payloads[i]))
}

/// The level over another: a node for every two, the last of an odd number
/// paired with itself.
pub open spec fn level_above(level: Seq<Seq<u8>>) -> Seq<Seq<u8>> {
    Seq::new(
        (level.len() + 1) / 2,
        |i: int|
            node_digest(
                level[2 * i],
                level[if 2 * i + 1 < level.len() {
                    2 * i + 1
                } else {
                    2 * i
                }],
            ),
    )
}

/// The only node of the topmost level over another.
pub open spec fn top_of(level: Seq<Seq<u8>>) -> Seq<u8>
    decreases level.len(),
{
    if level.len() <= 1 {
        level[0]
    } else {
        top_of(level_above(level))
    }
}

/// The Merkle root over `payloads`; without any, it is the leaf of no bytes.
pub open spec fn merkle_root(domain: Seq<u8>, payloads: Seq<Seq<u8>>) -> Seq<u8> {
    if payloads.len() == 0 {
        leaf_digest(domain, 0, Seq::empty())
    } else {
        top_of(leaf_level(domain, payloads))
    }
}

/// What byte strings hold.
pub open spec fn contents(payloads: Seq<Vec<u8>>) -> Seq<Seq<u8>> {
    payloads.map_values(|payload: Vec<u8>| payload@)
}

/// What digests hold.
pub open spec fn digests(level: Seq<B256>) -> Seq<Seq<u8>> {
    level.map_values(|digest: B256| digest@)
}

/// The digest of the leaf of `bytes` at `index`.
fn leaf(domain: &[u8], index: usize, bytes: &[u8]) -> (digest: B256)
    ensures
        digest@ == leaf_digest(domain@, index as nat, bytes@),
{
    blake3_hash(leaf_message(domain, index, bytes).as_slice())
}

/// The digest of the node over `left` and `right`.
fn pair(left: &B256, right: &B256) -> (digest: B256)
    ensures
        digest@ == node_digest(left@, right@),
{
    blake3_hash(node_message(left, right).as_slice())
}

/// Merkleizes byte payloads with duplicate-last padding for odd levels.
pub fn merkleize(domain: &[u8], payloads: Vec<Vec<u8>>) -> (root: B256)
    ensures
        root@ == merkle_root(domain@, contents(payloads@)),
{
    if payloads.len() == 0 {
        let none: [u8; 0] = [];
        assert(none@ =~= Seq::empty());
        return leaf(domain, 0, none.as_slice());
    }
    let mut level: Vec<B256> = Vec::new();
    for i in 0..payloads.len()
        invariant
            level.len() == i,
            forall|j: int|
                0 <= j < i ==> (#[trigger] level@[j])@ == leaf_digest(
                    domain@,
                    j as nat,
                    payloads@[j]@,
                ),
    {
        level.push(leaf(domain, i, payloads[i].as_slice()));
    }
    assert(digests(level@) =~= leaf_level(domain@, contents(payloads@)));
    while level.len() > 1
        invariant
            level.len() >= 1,
            top_of(digests(level@)) == top_of(leaf_level(domain@, contents(payloads@))),
        decreases level.len(),
    {
        let next = pair_up(&level);
        level = next;
    }
    level[0]
}

/// The level over `level`.
fn pair_up(level: &Vec<B256>) -> (next: Vec<B256>)
    ensures
        digests(next@) == level_above(digests(level@)),
        next.len() == (level.len() + 1) / 2,
{
    let mut next: Vec<B256> = Vec::new();
    let mut i: usize = 0;
    while i < level.len()
        invariant
            i <= level.len(),
            i < level.len() ==> i % 2 == 0,
            next.len() == (i + 1) / 2,
            forall|j: int|
                0 <= j < next.len() ==> (#[trigger] next@[j])@ == level_above(digests(level@))[j],
        decreases level.len() - i,
    {
        let left = level[i];
        if level.len() - i > 1 {
            let right = level[i + 1];
            next.push(pair(&left, &right));
            i = i + 2;
        } else {
            next.push(pair(&left, &left));
            i = i + 1;
        }
    }
    assert(digests(next@) =~= level_above(digests(level@)));
    next
}

/// The BLAKE3 transaction root over the EIP-2718 bytes of transactions.
pub fn calculate_transaction_root(transactions: Vec<Vec<u8>>) -> (root: B256)
    ensures
        root@ == merkle_root(tx_domain(), contents(transactions@)),
{
    proof {
        reveal_strlit("tx");
    }
    merkleize(ascii_bytes("tx"), transactions)
}

/// The Bloom filter of a receipt's logs.
#[derive(Clone, Copy, Debug, PartialEq, Eq)]
pub struct Bloom(pub [u8; 256]);

impl View for Bloom {
    type V = Seq<u8>;

    open spec fn view(&self) -> Seq<u8> {
        self.0@
    }
}

/// What filters hold.
pub open spec fn filters(blooms: Seq<Bloom>) -> Seq<Seq<u8>> {
    blooms.map_values(|bloom: Bloom| bloom@)
}

/// The `i`-th byte of the aggregate of filters.
pub open spec fn bloom_byte(filters: Seq<Seq<u8>>, i: int) -> u8
    decreases filters.len(),
{
    if filters.len() == 0 {
        0
    } else {
        bloom_byte(filters.drop_last(), i) | filters.last()[i]
    }
}

/// The aggregate of filters: every bit that one of them has.
pub open spec fn aggregate(filters: Seq<Seq<u8>>) -> Seq<u8> {
    Seq::new(256, |i: int| bloom_byte(filters, i))
}

/// Adds the bits of `other` to `bloom`.
fn accrue(bloom: &mut Bloom, other: &Bloom)
    ensures
        final(bloom)@ == Seq::new(256, |i: int| old(bloom)@[i] | other@[i]),
{
    let ghost before = bloom@;
    for i in 0..256usize
        invariant
            before.len() == 256,
            forall|j: int| 0 <= j < i ==> bloom@[j] == before[j] | other@[j],
            forall|j: int| i <= j < 256 ==> bloom@[j] == before[j],
    {
        let ghost so_far = bloom@;
        let byte: u8 = bloom.0[i] | other.0[i];
        assert(byte == before[i as int] | other@[i as int]);
        bloom.0[i] = byte;
        assert(bloom@ =~= so_far.update(i as int, byte));
    }
    assert(bloom@ =~= Seq::new(256, |i: int| before[i] | other@[i]));
}

/// The BLAKE3 receipt root over the EIP-2718 bytes of receipts, and the
/// standard aggregate of their logs' filters.
pub fn calculate_receipt_root_and_bloom(receipts: Vec<Vec<u8>>, blooms: &Vec<Bloom>) -> (result: (
    B256,
    Bloom,
))
    ensures
        result.0@ == merkle_root(receipt_domain(), contents(receipts@)),
        result.1@ == aggregate(filters(blooms@)),
{
    let mut bloom = Bloom([0u8; 256]);
    assert(bloom@ =~= aggregate(filters(blooms@.take(0))));
    for i in 0..blooms.len()
        invariant
            bloom@ == aggregate(filters(blooms@.take(i as int))),
    {
        accrue(&mut bloom, &blooms[i]);
        proof {
            let now = filters(blooms@.take(i + 1));
            assert(now.drop_last() =~= filters(blooms@.take(i as int)));
            assert(bloom@ =~= aggregate(now));
        }
    }
    assert(blooms@.take(blooms.len() as int) =~= blooms@);
    proof {
        reveal_strlit("receipt");
    }
    (merkleize(ascii_bytes("receipt"), receipts), bloom)
}

/// One payload's root is its leaf.
pub proof fn law_root_of_one_payload(domain: Seq<u8>, payload: Seq<u8>)
    ensures
        merkle_root(domain, seq![payload]) == leaf_digest(domain, 0, payload),
        merkle_root(domain, Seq::empty()) == leaf_digest(domain, 0, Seq::empty()),
{
}

/// An odd level is read as if its last digest were there twice.
pub proof fn law_odd_levels_repeat_their_last(level: Seq<Seq<u8>>)
    requires
        level.len() % 2 == 1,
    ensures
        level_above(level) == level_above(level.push(level.last())),
{
    assert(level_above(level) =~= level_above(level.push(level.last())));
}

/// The top of a level whose length is twice a power of two is the node over
/// the tops of its halves.
pub proof fn law_root_joins_two_halves(left: Seq<Seq<u8>>, right: Seq<Seq<u8>>, height: nat)
    requires
        left.len() == pow2(height),
        right.len() == pow2(height),
    ensures
        top_of(left + right) == node_digest(top_of(left), top_of(right)),
    decreases height,
{
    if height == 0 {
        lemma2_to64();
        assert(level_above(left + right) =~= seq![node_digest(left[0], right[0])]);
        reveal_with_fuel(top_of, 2);
    } else {
        let half = (height - 1) as nat;
        lemma_pow2_unfold(height);
        lemma_pow2_pos(half);
        assert(level_above(left + right) =~= level_above(left) + level_above(right));
        law_root_joins_two_halves(level_above(left), level_above(right), half);
    }
}

/// In one domain, leaves of different places or payloads have different
/// messages.
pub proof fn law_leaf_messages_differ(
    domain: Seq<u8>,
    i: nat,
    bytes: Seq<u8>,
    j: nat,
    other: Seq<u8>,
)
    requires
        i <= u64::MAX,
        j <= u64::MAX,
        bytes.len() <= u64::MAX,
        other.len() <= u64::MAX,
        leaf_bytes(domain, i, bytes) == leaf_bytes(domain, j, other),
    ensures
        i == j,
        bytes == other,
{
    lemma_pow256_values();
    lemma_le_bytes(i, 8);
    lemma_le_bytes(j, 8);
    lemma_le_bytes(bytes.len(), 8);
    lemma_le_bytes(other.len(), 8);
    let a = leaf_bytes(domain, i, bytes);
    let b = leaf_bytes(domain, j, other);
    let n = (prefix() + domain).len() as int;
    assert(a.subrange(n, n + 8) =~= le_bytes(i, 8));
    assert(b.subrange(n, n + 8) =~= le_bytes(j, 8));
    assert(a.skip(n + 16) =~= bytes);
    assert(b.skip(n + 16) =~= other);
}

/// Leaves of transactions, leaves of receipts and inner nodes never have the
/// same message.
pub proof fn law_domains_are_apart(
    i: nat,
    transaction: Seq<u8>,
    j: nat,
    receipt: Seq<u8>,
    left: Seq<u8>,
    right: Seq<u8>,
)
    ensures
        leaf_bytes(tx_domain(), i, transaction) != leaf_bytes(receipt_domain(), j, receipt),
        leaf_bytes(tx_domain(), i, transaction) != node_bytes(left, right),
        leaf_bytes(receipt_domain(), j, receipt) != node_bytes(left, right),
{
    reveal_strlit("tx");
    reveal_strlit("receipt");
    reveal_strlit("node");
    let n = prefix().len() as int;
    assert(leaf_bytes(tx_domain(), i, transaction)[n] == 't' as u8);
    assert(leaf_bytes(receipt_domain(), j, receipt)[n] == 'r' as u8);
    assert(node_bytes(left, right)[n] == 'n' as u8);
}

/// A bit is in the aggregate just if one of the filters has it.
pub proof fn law_aggregate_has_every_bit(filters: Seq<Seq<u8>>, i: int, bit: u8)
    requires
        0 <= i < 256,
        bit < 8,
    ensures
        (aggregate(filters)[i] >> bit) & 1 == 1 <==> exists|n: int|
            0 <= n < filters.len() && (#[trigger] filters[n][i] >> bit) & 1 == 1,
    decreases filters.len(),
{
    if filters.len() == 0 {
        assert((0u8 >> bit) & 1 == 0) by (bit_vector)
            requires
                bit < 8,
        ;
    } else {
        let before = filters.drop_last();
        law_aggregate_has_every_bit(before, i, bit);
        let a = bloom_byte(before, i);
        let b = filters.last()[i];
        assert(((a | b) >> bit) & 1 == 1 <==> (a >> bit) & 1 == 1 || (b >> bit) & 1 == 1)
            by (bit_vector)
            requires
                bit < 8,
        ;
        if (aggregate(before)[i] >> bit) & 1 == 1 {
            let n = choose|n: int|
                0 <= n < before.len() && (#[trigger] before[n][i] >> bit) & 1 == 1;
            assert((filters[n][i] >> bit) & 1 == 1);
        }
        if (b >> bit) & 1 == 1 {
            assert((filters[filters.len() - 1][i] >> bit) & 1 == 1);
        }
        if exists|n: int| 0 <= n < filters.len() && (#[trigger] filters[n][i] >> bit) & 1 == 1 {
            let n = choose|n: int|
                0 <= n < filters.len() && (#[trigger] filters[n][i] >> bit) & 1 == 1;
            if n < before.len() {
                assert((before[n][i] >> bit) & 1 == 1);
            }
        }
    }
}

/// How the levels over each other are made: of two digests side by side one
/// node, the left one first, for every pair of the level and in their order; the
/// last of an odd number is paired with itself, and there is nothing else.
pub proof fn law_a_level_pairs_the_one_below(level: Seq<Seq<u8>>, i: int)
    requires
        0 <= i,
    ensures
        2 * level_above(level).len() == level.len() + level.len() % 2,
        2 * i + 1 < level.len() ==> level_above(level)[i] == blake3_digest(
            node_bytes(level[2 * i], level[2 * i + 1]),
        ),
        2 * i + 1 == level.len() ==> level_above(level)[i] == blake3_digest(
            node_bytes(level[2 * i], level[2 * i]),
        ),
{
}

/// The level of the leaves has one digest for every payload, of its place and
/// its bytes.
pub proof fn law_a_leaf_for_every_payload(domain: Seq<u8>, payloads: Seq<Seq<u8>>, i: int)
    ensures
        leaf_level(domain, payloads).len() == payloads.len(),
        0 <= i < payloads.len() ==> leaf_level(domain, payloads)[i] == blake3_digest(
            leaf_bytes(domain, i as nat, payloads[i]),
        ),
{
}

/// Whether the `upper` digests are those of the nodes over the `lower` ones: two
/// by two, and the last one twice where it is left over.
pub open spec fn pairs_up(lower: Seq<Seq<u8>>, upper: Seq<Seq<u8>>) -> bool {
    &&& 2 * upper.len() == lower.len() + lower.len() % 2
    &&& forall|i: int|
        #![trigger upper[i]]
        0 <= i < upper.len() ==> upper[i] == blake3_digest(
            if 2 * i + 1 < lower.len() {
                node_bytes(lower[2 * i], lower[2 * i + 1])
            } else {
                node_bytes(lower[2 * i], lower[2 * i])
            },
        )
}

proof fn lemma_top_of_levels(levels: Seq<Seq<Seq<u8>>>, k: int)
    requires
        0 <= k < levels.len(),
        levels.last().len() == 1,
        forall|j: int|
            0 <= j < levels.len() - 1 ==> (#[trigger] levels[j]).len() > 1 && pairs_up(
                levels[j],
                levels[j + 1],
            ),
    ensures
        top_of(levels[k]) == levels.last()[0],
    decreases levels.len() - k,
{
    if k < levels.len() - 1 {
        lemma_top_of_levels(levels, k + 1);
        assert(pairs_up(levels[k], levels[k + 1]));
        assert(levels[k + 1] =~= level_above(levels[k]));
    }
}

/// The root over payloads is the one digest at the top of every tower of levels
/// that has the digests of the payloads' leaves at the bottom, and in which each
/// level pairs up the one below it.
pub proof fn law_the_root_is_the_top_of_the_levels(
    domain: Seq<u8>,
    payloads: Seq<Seq<u8>>,
    levels: Seq<Seq<Seq<u8>>>,
)
    ensures
        ({
            &&& levels.len() > 0
            &&& levels[0].len() == payloads.len()
            &&& forall|i: int|
                0 <= i < payloads.len() ==> #[trigger] levels[0][i] == blake3_digest(
                    leaf_bytes(domain, i as nat, payloads[i]),
                )
            &&& forall|j: int|
                0 <= j < levels.len() - 1 ==> (#[trigger] levels[j]).len() > 1 && pairs_up(
                    levels[j],
                    levels[j + 1],
                )
            &&& levels.last().len() == 1
        }) ==> merkle_root(domain, payloads) == levels.last()[0],
        merkle_root(domain, Seq::empty()) == blake3_digest(leaf_bytes(domain, 0, Seq::empty())),
{
    if {
        &&& levels.len() > 0
        &&& levels[0].len() == payloads.len()
        &&& forall|i: int|
            0 <= i < payloads.len() ==> #[trigger] levels[0][i] == blake3_digest(
                leaf_bytes(domain, i as nat, payloads[i]),
            )
        &&& forall|j: int|
            0 <= j < levels.len() - 1 ==> (#[trigger] levels[j]).len() > 1 && pairs_up(
                levels[j],
                levels[j + 1],
            )
        &&& levels.last().len() == 1
    } {
        lemma_top_of_levels(levels, 0);
        assert(levels[0] =~= leaf_level(domain, payloads));
        if payloads.len() == 0 {
            assert(levels.last() == levels[0]);
        }
    }
}

/// What the messages are made of, in bytes: every one starts with
/// `n42-blake3-block-roots-v1`, a leaf goes on with its domain, its place and
/// its length, each in eight bytes with the lowest first, and its payload, and a
/// node with `node` and the two digests under it.
pub proof fn law_message_layout(
    domain: Seq<u8>,
    index: nat,
    payload: Seq<u8>,
    left: Seq<u8>,
    right: Seq<u8>,
)
    requires
        index < 0x1_0000_0000_0000_0000,
        payload.len() < 0x1_0000_0000_0000_0000,
    ensures
        ({
            let start = seq![
                0x6eu8, 0x34, 0x32, 0x2d, 0x62, 0x6c, 0x61, 0x6b, 0x65, 0x33, 0x2d, 0x62, 0x6c,
                0x6f, 0x63, 0x6b, 0x2d, 0x72, 0x6f, 0x6f, 0x74, 0x73, 0x2d, 0x76, 0x31,
            ];
            let leaf = leaf_bytes(domain, index, payload);
            let node = node_bytes(left, right);
            let n = 25 + domain.len() as int;
            let m = 29 + left.len() as int;
            &&& leaf.len() == n + 16 + payload.len()
            &&& leaf.take(25) == start
            &&& leaf.subrange(25, n) == domain
            &&& le_value(leaf.subrange(n, n + 8)) == index
            &&& le_value(leaf.subrange(n + 8, n + 16)) == payload.len()
            &&& leaf.skip(n + 16) == payload
            &&& node.len() == m + right.len()
            &&& node.take(25) == start
            &&& node.subrange(25, 29) == seq![0x6eu8, 0x6f, 0x64, 0x65]
            &&& node.subrange(29, m) == left
            &&& node.skip(m) == right
        }),
{
    reveal_strlit("n42-blake3-block-roots-v1");
    reveal_strlit("node");
    lemma_pow256_values();
    lemma_le_bytes(index, 8);
    lemma_le_bytes(payload.len(), 8);
    let leaf = leaf_bytes(domain, index, payload);
    let node = node_bytes(left, right);
    let n = 25 + domain.len() as int;
    let m = 29 + left.len() as int;
    let start = seq![
        0x6eu8, 0x34, 0x32, 0x2d, 0x62, 0x6c, 0x61, 0x6b, 0x65, 0x33, 0x2d, 0x62, 0x6c, 0x6f, 0x63,
        0x6b, 0x2d, 0x72, 0x6f, 0x6f, 0x74, 0x73, 0x2d, 0x76, 0x31,
    ];
    assert(prefix() =~= start);
    assert(leaf.take(25) =~= start);
    assert(leaf.subrange(25, n) =~= domain);
    assert(leaf.subrange(n, n + 8) =~= le_bytes(index, 8));
    assert(leaf.subrange(n + 8, n + 16) =~= le_bytes(payload.len(), 8));
    assert(leaf.skip(n + 16) =~= payload);
    assert(node.take(25) =~= start);
    assert(node.subrange(25, 29) =~= seq![0x6eu8, 0x6f, 0x64, 0x65]);
    assert(node.subrange(29, m) =~= left);
    assert(node.skip(m) =~= right);
}

/// The domains, in bytes: `tx` for transactions and `receipt` for receipts.
pub proof fn law_domains()
    ensures
        tx_domain() == seq![0x74u8, 0x78],
        receipt_domain() == seq![0x72u8, 0x65, 0x63, 0x65, 0x69, 0x70, 0x74],
{
    reveal_strlit("tx");
    reveal_strlit("receipt");
    assert(tx_domain() =~= seq![0x74u8, 0x78]);
    assert(receipt_domain() =~= seq![0x72u8, 0x65, 0x63, 0x65, 0x69, 0x70, 0x74]);
}

/// What byte strings, digests and filters hold is what each of them holds, in
/// their order.
pub proof fn law_contents_are_in_order(
    payloads: Seq<Vec<u8>>,
    level: Seq<B256>,
    blooms: Seq<Bloom>,
    i: int,
)
    ensures
        contents(payloads).len() == payloads.len(),
        0 <= i < payloads.len() ==> contents(payloads)[i] == payloads[i]@,
        digests(level).len() == level.len(),
        0 <= i < level.len() ==> digests(level)[i] == level[i]@,
        filters(blooms).len() == blooms.len(),
        0 <= i < blooms.len() ==> filters(blooms)[i] == blooms[i]@,
        aggregate(filters(blooms)).len() == 256,
{
}

} // verus!
