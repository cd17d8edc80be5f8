//! Binary snapshots of a topology: node count, per-node table and source
//! addresses, the layer boundary list, the optional bank, and the optional
//! embedding table, each integer as a little-endian 64-bit word, with no
//! magic number or version field. A malformed blob fails fast with no
//! partial value; a decoded value re-encodes to the very bytes it came
//! from.

use vstd::prelude::*;

use crate::netcore::LUTNet;
use crate::netcore::Node;

verus! {

/// Why a blob was rejected.
#[derive(Clone, Copy, Debug, PartialEq, Eq, Structural)]
pub enum SnapshotError {
    Truncated,
    ValueTooLarge,
    BadBankFlag,
    TrailingBytes,
}

/// The eight little-endian bytes of a word.
pub open spec fn u64_le(x: u64) -> Seq<u8> {
    seq![
        (x & 0xFF) as u8,
        ((x >> 8) & 0xFF) as u8,
        ((x >> 16) & 0xFF) as u8,
        ((x >> 24) & 0xFF) as u8,
        ((x >> 32) & 0xFF) as u8,
        ((x >> 40) & 0xFF) as u8,
        ((x >> 48) & 0xFF) as u8,
        ((x >> 56) & 0xFF) as u8,
    ]
}

/// A word list, each as its eight bytes.
pub open spec fn enc_u64s(s: Seq<u64>) -> Seq<u8>
    decreases s.len(),
{
    if s.len() == 0 {
        Seq::empty()
    } else {
        enc_u64s(s.drop_last()) + u64_le(s.last())
    }
}

/// A size list, each as its eight bytes.
pub open spec fn enc_usizes(s: Seq<usize>) -> Seq<u8>
    decreases s.len(),
{
    if s.len() == 0 {
        Seq::empty()
    } else {
        enc_usizes(s.drop_last()) + u64_le(s.last() as u64)
    }
}

/// One node: its table, then its six source addresses.
pub open spec fn enc_node(n: Node) -> Seq<u8> {
    u64_le(n.lut) + u64_le(n.indices@[0] as u64) + u64_le(n.indices@[1] as u64) + u64_le(
        n.indices@[2] as u64,
    ) + u64_le(n.indices@[3] as u64) + u64_le(n.indices@[4] as u64) + u64_le(n.indices@[5] as u64)
}

/// The node list.
pub open spec fn enc_nodes(s: Seq<Node>) -> Seq<u8>
    decreases s.len(),
{
    if s.len() == 0 {
        Seq::empty()
    } else {
        enc_nodes(s.drop_last()) + enc_node(s.last())
    }
}

/// The whole snapshot: input width, node count, nodes, boundary count and
/// list, bank flag with the bank when present, embedding count and table.
pub open spec fn spec_encode(net: LUTNet) -> Seq<u8> {
    u64_le(net.input_size_in_bits as u64) + u64_le(net.nodes@.len() as u64) + enc_nodes(net.nodes@)
        + u64_le(net.layer_edges@.len() as u64) + enc_usizes(net.layer_edges@) + (
    if net.lut_bank is Some {
        u64_le(1) + u64_le((net.lut_bank->0)@.len() as u64) + enc_u64s((net.lut_bank->0)@)
    } else {
        u64_le(0)
    }) + u64_le(net.output_embedding@.len() as u64) + enc_usizes(net.output_embedding@)
}

/// A word is pinned by its eight bytes.
pub proof fn lemma_u64_le_inj(x: u64, y: u64)
    requires
        u64_le(x) == u64_le(y),
    ensures
        x == y,
{
    assert(u64_le(x)[0] == u64_le(y)[0]);
    assert(u64_le(x)[1] == u64_le(y)[1]);
    assert(u64_le(x)[2] == u64_le(y)[2]);
    assert(u64_le(x)[3] == u64_le(y)[3]);
    assert(u64_le(x)[4] == u64_le(y)[4]);
    assert(u64_le(x)[5] == u64_le(y)[5]);
    assert(u64_le(x)[6] == u64_le(y)[6]);
    assert(u64_le(x)[7] == u64_le(y)[7]);
    assert(x == y) by (bit_vector)
        requires
            ((x & 0xFF) as u8) == ((y & 0xFF) as u8),
            (((x >> 8) & 0xFF) as u8) == (((y >> 8) & 0xFF) as u8),
            (((x >> 16) & 0xFF) as u8) == (((y >> 16) & 0xFF) as u8),
            (((x >> 24) & 0xFF) as u8) == (((y >> 24) & 0xFF) as u8),
            (((x >> 32) & 0xFF) as u8) == (((y >> 32) & 0xFF) as u8),
            (((x >> 40) & 0xFF) as u8) == (((y >> 40) & 0xFF) as u8),
            (((x >> 48) & 0xFF) as u8) == (((y >> 48) & 0xFF) as u8),
            (((x >> 56) & 0xFF) as u8) == (((y >> 56) & 0xFF) as u8),
    ;
}

/// A node's encoding is 56 bytes: its table word, then its six address
/// words.
#[verifier::rlimit(60)]
pub proof fn lemma_enc_node_words(n: Node)
    ensures
        enc_node(n).len() == 56,
        enc_node(n).subrange(0, 8) == u64_le(n.lut),
        forall|j: int|
            0 <= j < 6 ==> #[trigger] enc_node(n).subrange(8 + 8 * j, 16 + 8 * j) == u64_le(
                n.indices@[j] as u64,
            ),
{
    assert(enc_node(n).subrange(0, 8) =~= u64_le(n.lut));
    assert forall|j: int|
        0 <= j < 6 implies #[trigger] enc_node(n).subrange(8 + 8 * j, 16 + 8 * j) == u64_le(
        n.indices@[j] as u64,
    ) by {
        if j == 0 {
            assert(enc_node(n).subrange(8, 16) =~= u64_le(n.indices@[0] as u64));
        } else if j == 1 {
            assert(enc_node(n).subrange(16, 24) =~= u64_le(n.indices@[1] as u64));
        } else if j == 2 {
            assert(enc_node(n).subrange(24, 32) =~= u64_le(n.indices@[2] as u64));
        } else if j == 3 {
            assert(enc_node(n).subrange(32, 40) =~= u64_le(n.indices@[3] as u64));
        } else if j == 4 {
            assert(enc_node(n).subrange(40, 48) =~= u64_le(n.indices@[4] as u64));
        } else {
            assert(enc_node(n).subrange(48, 56) =~= u64_le(n.indices@[5] as u64));
        }
    }
}

/// A node list's encoding is 56 bytes per node, node `i`'s at offset
/// `56 * i`.
#[verifier::rlimit(60)]
pub proof fn lemma_enc_nodes_props(s: Seq<Node>)
    ensures
        enc_nodes(s).len() == 56 * s.len(),
        forall|i: int|
            0 <= i < s.len() ==> #[trigger] enc_nodes(s).subrange(56 * i, 56 * i + 56) == enc_node(
                s[i],
            ),
    decreases s.len(),
{
    if s.len() > 0 {
        lemma_enc_nodes_props(s.drop_last());
        lemma_enc_node_words(s.last());
        assert forall|i: int|
            0 <= i < s.len() implies #[trigger] enc_nodes(s).subrange(56 * i, 56 * i + 56)
            == enc_node(s[i]) by {
            if i < s.len() - 1 {
                assert(enc_nodes(s).subrange(56 * i, 56 * i + 56) =~= enc_nodes(
                    s.drop_last(),
                ).subrange(56 * i, 56 * i + 56));
            } else {
                assert(enc_nodes(s).subrange(56 * i, 56 * i + 56) =~= enc_node(s.last()));
            }
        }
    }
}

/// A size list's encoding is 8 bytes per entry, entry `i`'s at offset
/// `8 * i`.
#[verifier::rlimit(60)]
pub proof fn lemma_enc_usizes_props(s: Seq<usize>)
    ensures
        enc_usizes(s).len() == 8 * s.len(),
        forall|i: int|
            0 <= i < s.len() ==> #[trigger] enc_usizes(s).subrange(8 * i, 8 * i + 8) == u64_le(
                s[i] as u64,
            ),
    decreases s.len(),
{
    if s.len() > 0 {
        lemma_enc_usizes_props(s.drop_last());
        assert forall|i: int|
            0 <= i < s.len() implies #[trigger] enc_usizes(s).subrange(8 * i, 8 * i + 8) == u64_le(
            s[i] as u64,
        ) by {
            if i < s.len() - 1 {
                assert(enc_usizes(s).subrange(8 * i, 8 * i + 8) =~= enc_usizes(
                    s.drop_last(),
                ).subrange(8 * i, 8 * i + 8));
            } else {
                assert(enc_usizes(s).subrange(8 * i, 8 * i + 8) =~= u64_le(s.last() as u64));
            }
        }
    }
}

/// A word list's encoding is 8 bytes per entry, entry `i`'s at offset
/// `8 * i`.
#[verifier::rlimit(60)]
pub proof fn lemma_enc_u64s_props(s: Seq<u64>)
    ensures
        enc_u64s(s).len() == 8 * s.len(),
        forall|i: int|
            0 <= i < s.len() ==> #[trigger] enc_u64s(s).subrange(8 * i, 8 * i + 8) == u64_le(s[i]),
    decreases s.len(),
{
    if s.len() > 0 {
        lemma_enc_u64s_props(s.drop_last());
        assert forall|i: int|
            0 <= i < s.len() implies #[trigger] enc_u64s(s).subrange(8 * i, 8 * i + 8) == u64_le(
            s[i],
        ) by {
            if i < s.len() - 1 {
                assert(enc_u64s(s).subrange(8 * i, 8 * i + 8) =~= enc_u64s(s.drop_last()).subrange(
                    8 * i,
                    8 * i + 8,
                ));
            } else {
                assert(enc_u64s(s).subrange(8 * i, 8 * i + 8) =~= u64_le(s.last()));
            }
        }
    }
}

/// Where each section of a snapshot sits, and the total length; the counts
/// fit the machine word, so their count words are exact.
#[verifier::rlimit(80)]
pub proof fn lemma_encode_parts(n: LUTNet)
    ensures
        ({
            let nn = n.nodes@.len() as int;
            let ee = n.layer_edges@.len() as int;
            let cc = n.output_embedding@.len() as int;
            let bank_len: int = if n.lut_bank is Some {
                16 + 8 * (n.lut_bank->0)@.len() as int
            } else {
                8
            };
            let p1 = 16 + 56 * nn;
            let p2 = p1 + 8 + 8 * ee;
            let p3 = p2 + bank_len;
            let total = p3 + 8 + 8 * cc;
            &&& spec_encode(n).len() == total
            &&& nn <= usize::MAX && ee <= usize::MAX && cc <= usize::MAX
            &&& (n.lut_bank is Some ==> (n.lut_bank->0)@.len() <= usize::MAX)
            &&& spec_encode(n).subrange(0, 8) == u64_le(n.input_size_in_bits as u64)
            &&& spec_encode(n).subrange(8, 16) == u64_le(n.nodes@.len() as u64)
            &&& spec_encode(n).subrange(16, p1) == enc_nodes(n.nodes@)
            &&& spec_encode(n).subrange(p1, p1 + 8) == u64_le(n.layer_edges@.len() as u64)
            &&& spec_encode(n).subrange(p1 + 8, p2) == enc_usizes(n.layer_edges@)
            &&& spec_encode(n).subrange(p2, p2 + 8) == u64_le(
                if n.lut_bank is Some {
                    1u64
                } else {
                    0u64
                },
            )
            &&& (n.lut_bank is Some ==> spec_encode(n).subrange(p2 + 8, p2 + 16) == u64_le(
                (n.lut_bank->0)@.len() as u64,
            ) && spec_encode(n).subrange(p2 + 16, p3) == enc_u64s((n.lut_bank->0)@))
            &&& spec_encode(n).subrange(p3, p3 + 8) == u64_le(n.output_embedding@.len() as u64)
            &&& spec_encode(n).subrange(p3 + 8, total) == enc_usizes(n.output_embedding@)
        }),
{
    lemma_enc_nodes_props(n.nodes@);
    lemma_enc_usizes_props(n.layer_edges@);
    lemma_enc_usizes_props(n.output_embedding@);
    vstd::std_specs::vec::axiom_spec_len(&n.nodes);
    vstd::std_specs::vec::axiom_spec_len(&n.layer_edges);
    vstd::std_specs::vec::axiom_spec_len(&n.output_embedding);
    let nn = n.nodes@.len() as int;
    let ee = n.layer_edges@.len() as int;
    let cc = n.output_embedding@.len() as int;
    let p1 = 16 + 56 * nn;
    let p2 = p1 + 8 + 8 * ee;
    if n.lut_bank is Some {
        let bankv = n.lut_bank->0;
        lemma_enc_u64s_props(bankv@);
        vstd::std_specs::vec::axiom_spec_len(&bankv);
        let bb = bankv@.len() as int;
        let p3 = p2 + 16 + 8 * bb;
        let total = p3 + 8 + 8 * cc;
        assert(spec_encode(n).subrange(0, 8) =~= u64_le(n.input_size_in_bits as u64));
        assert(spec_encode(n).subrange(8, 16) =~= u64_le(n.nodes@.len() as u64));
        assert(spec_encode(n).subrange(16, p1) =~= enc_nodes(n.nodes@));
        assert(spec_encode(n).subrange(p1, p1 + 8) =~= u64_le(n.layer_edges@.len() as u64));
        assert(spec_encode(n).subrange(p1 + 8, p2) =~= enc_usizes(n.layer_edges@));
        assert(spec_encode(n).subrange(p2, p2 + 8) =~= u64_le(1u64));
        assert(spec_encode(n).subrange(p2 + 8, p2 + 16) =~= u64_le(bankv@.len() as u64));
        assert(spec_encode(n).subrange(p2 + 16, p3) =~= enc_u64s(bankv@));
        assert(spec_encode(n).subrange(p3, p3 + 8) =~= u64_le(n.output_embedding@.len() as u64));
        assert(spec_encode(n).subrange(p3 + 8, total) =~= enc_usizes(n.output_embedding@));
    } else {
        let p3 = p2 + 8;
        let total = p3 + 8 + 8 * cc;
        assert(spec_encode(n).subrange(0, 8) =~= u64_le(n.input_size_in_bits as u64));
        assert(spec_encode(n).subrange(8, 16) =~= u64_le(n.nodes@.len() as u64));
        assert(spec_encode(n).subrange(16, p1) =~= enc_nodes(n.nodes@));
        assert(spec_encode(n).subrange(p1, p1 + 8) =~= u64_le(n.layer_edges@.len() as u64));
        assert(spec_encode(n).subrange(p1 + 8, p2) =~= enc_usizes(n.layer_edges@));
        assert(spec_encode(n).subrange(p2, p2 + 8) =~= u64_le(0u64));
        assert(spec_encode(n).subrange(p3, p3 + 8) =~= u64_le(n.output_embedding@.len() as u64));
        assert(spec_encode(n).subrange(p3 + 8, total) =~= enc_usizes(n.output_embedding@));
    }
}

/// A size list is pinned by its encoding.
#[verifier::rlimit(60)]
pub proof fn lemma_enc_usizes_inj(s1: Seq<usize>, s2: Seq<usize>)
    requires
        s1.len() == s2.len(),
        enc_usizes(s1) == enc_usizes(s2),
    ensures
        s1 == s2,
{
    lemma_enc_usizes_props(s1);
    lemma_enc_usizes_props(s2);
    assert forall|i: int| 0 <= i < s1.len() implies s1[i] == s2[i] by {
        assert(8 * i + 8 <= 8 * s1.len() && 0 <= 8 * i) by (nonlinear_arith)
            requires
                0 <= i < s1.len(),
        ;
        assert(enc_usizes(s1).subrange(8 * i, 8 * i + 8) == enc_usizes(s2).subrange(
            8 * i,
            8 * i + 8,
        ));
        lemma_u64_le_inj(s1[i] as u64, s2[i] as u64);
    }
    assert(s1 =~= s2);
}

/// A word list is pinned by its encoding.
#[verifier::rlimit(60)]
pub proof fn lemma_enc_u64s_inj(s1: Seq<u64>, s2: Seq<u64>)
    requires
        s1.len() == s2.len(),
        enc_u64s(s1) == enc_u64s(s2),
    ensures
        s1 == s2,
{
    lemma_enc_u64s_props(s1);
    lemma_enc_u64s_props(s2);
    assert forall|i: int| 0 <= i < s1.len() implies s1[i] == s2[i] by {
        assert(8 * i + 8 <= 8 * s1.len() && 0 <= 8 * i) by (nonlinear_arith)
            requires
                0 <= i < s1.len(),
        ;
        assert(enc_u64s(s1).subrange(8 * i, 8 * i + 8) == enc_u64s(s2).subrange(8 * i, 8 * i + 8));
        lemma_u64_le_inj(s1[i], s2[i]);
    }
    assert(s1 =~= s2);
}

/// A node list is pinned by its encoding.
#[verifier::rlimit(80)]
pub proof fn lemma_enc_nodes_inj(s1: Seq<Node>, s2: Seq<Node>)
    requires
        s1.len() == s2.len(),
        enc_nodes(s1) == enc_nodes(s2),
    ensures
        s1 == s2,
{
    broadcast use vstd::array::axiom_array_ext_equal;

    lemma_enc_nodes_props(s1);
    lemma_enc_nodes_props(s2);
    assert forall|i: int| 0 <= i < s1.len() implies s1[i] == s2[i] by {
        assert(56 * i + 56 <= 56 * s1.len() && 0 <= 56 * i) by (nonlinear_arith)
            requires
                0 <= i < s1.len(),
        ;
        assert(enc_nodes(s1).subrange(56 * i, 56 * i + 56) == enc_node(s1[i]));
        assert(enc_nodes(s2).subrange(56 * i, 56 * i + 56) == enc_node(s2[i]));
        assert(enc_node(s1[i]) == enc_node(s2[i]));
        lemma_enc_node_words(s1[i]);
        lemma_enc_node_words(s2[i]);
        lemma_u64_le_inj(s1[i].lut, s2[i].lut);
        assert forall|j: int| 0 <= j < 6 implies s1[i].indices[j] == s2[i].indices[j] by {
            assert(enc_node(s1[i]).subrange(8 + 8 * j, 16 + 8 * j) == enc_node(s2[i]).subrange(
                8 + 8 * j,
                16 + 8 * j,
            ));
            lemma_u64_le_inj(s1[i].indices@[j] as u64, s2[i].indices@[j] as u64);
        }
        assert(s1[i].indices =~= s2[i].indices);
    }
    assert(s1 =~= s2);
}

/// The snapshot encoding is injective: two topologies with the same bytes
/// agree on every field, so a decoded snapshot recovers the encoded
/// topology bit for bit.
#[verifier::rlimit(80)]
pub proof fn lemma_encode_injective(a: LUTNet, b: LUTNet)
    requires
        spec_encode(a) == spec_encode(b),
    ensures
        a.input_size_in_bits == b.input_size_in_bits,
        a.nodes@ == b.nodes@,
        a.layer_edges@ == b.layer_edges@,
        (a.lut_bank is Some) == (b.lut_bank is Some),
        a.lut_bank is Some ==> (a.lut_bank->0)@ == (b.lut_bank->0)@,
        a.output_embedding@ == b.output_embedding@,
{
    lemma_encode_parts(a);
    lemma_encode_parts(b);
    lemma_u64_le_inj(a.input_size_in_bits as u64, b.input_size_in_bits as u64);
    lemma_u64_le_inj(a.nodes@.len() as u64, b.nodes@.len() as u64);
    assert(a.nodes@.len() == b.nodes@.len());
    let nn = a.nodes@.len() as int;
    let p1 = 16 + 56 * nn;
    assert(enc_nodes(a.nodes@) == enc_nodes(b.nodes@));
    lemma_enc_nodes_inj(a.nodes@, b.nodes@);
    lemma_u64_le_inj(a.layer_edges@.len() as u64, b.layer_edges@.len() as u64);
    assert(a.layer_edges@.len() == b.layer_edges@.len());
    let ee = a.layer_edges@.len() as int;
    let p2 = p1 + 8 + 8 * ee;
    assert(enc_usizes(a.layer_edges@) == enc_usizes(b.layer_edges@));
    lemma_enc_usizes_inj(a.layer_edges@, b.layer_edges@);
    lemma_u64_le_inj(
        if a.lut_bank is Some {
            1u64
        } else {
            0u64
        },
        if b.lut_bank is Some {
            1u64
        } else {
            0u64
        },
    );
    assert((a.lut_bank is Some) == (b.lut_bank is Some));
    let p3: int = if a.lut_bank is Some {
        let av = (a.lut_bank->0)@;
        let bv = (b.lut_bank->0)@;
        lemma_u64_le_inj(av.len() as u64, bv.len() as u64);
        assert(av.len() == bv.len());
        assert(enc_u64s(av) == enc_u64s(bv));
        lemma_enc_u64s_inj(av, bv);
        p2 + 16 + 8 * av.len() as int
    } else {
        p2 + 8
    };
    lemma_u64_le_inj(a.output_embedding@.len() as u64, b.output_embedding@.len() as u64);
    assert(a.output_embedding@.len() == b.output_embedding@.len());
    assert(enc_usizes(a.output_embedding@) == enc_usizes(b.output_embedding@));
    lemma_enc_usizes_inj(a.output_embedding@, b.output_embedding@);
}

/// Appends the eight little-endian bytes of a word.
fn push_u64(out: &mut Vec<u8>, x: u64)
    ensures
        final(out)@ == old(out)@ + u64_le(x),
{
    out.push((x & 0xFF) as u8);
    out.push(((x >> 8) & 0xFF) as u8);
    out.push(((x >> 16) & 0xFF) as u8);
    out.push(((x >> 24) & 0xFF) as u8);
    out.push(((x >> 32) & 0xFF) as u8);
    out.push(((x >> 40) & 0xFF) as u8);
    out.push(((x >> 48) & 0xFF) as u8);
    out.push(((x >> 56) & 0xFF) as u8);
    proof {
        assert(final(out)@ =~= old(out)@ + u64_le(x));
    }
}

/// Reads the word at `pos`.
fn read_u64(bytes: &Vec<u8>, pos: usize) -> (r: u64)
    requires
        pos + 8 <= bytes@.len(),
        pos + 8 <= usize::MAX,
    ensures
        u64_le(r) == bytes@.subrange(pos as int, pos as int + 8),
{
    let b0: u64 = bytes[pos] as u64;
    let b1: u64 = bytes[pos + 1] as u64;
    let b2: u64 = bytes[pos + 2] as u64;
    let b3: u64 = bytes[pos + 3] as u64;
    let b4: u64 = bytes[pos + 4] as u64;
    let b5: u64 = bytes[pos + 5] as u64;
    let b6: u64 = bytes[pos + 6] as u64;
    let b7: u64 = bytes[pos + 7] as u64;
    let x: u64 = b0 | (b1 << 8) | (b2 << 16) | (b3 << 24) | (b4 << 32) | (b5 << 40) | (b6 << 48)
        | (b7 << 56);
    proof {
        assert((x & 0xFF) == b0 && ((x >> 8) & 0xFF) == b1 && ((x >> 16) & 0xFF) == b2 && ((x
            >> 24) & 0xFF) == b3 && ((x >> 32) & 0xFF) == b4 && ((x >> 40) & 0xFF) == b5 && ((x
            >> 48) & 0xFF) == b6 && ((x >> 56) & 0xFF) == b7) by (bit_vector)
            requires
                x == b0 | (b1 << 8) | (b2 << 16) | (b3 << 24) | (b4 << 32) | (b5 << 40) | (b6
                    << 48) | (b7 << 56),
                b0 < 256 && b1 < 256 && b2 < 256 && b3 < 256 && b4 < 256 && b5 < 256 && b6 < 256
                    && b7 < 256,
        ;
        assert(u64_le(x) =~= bytes@.subrange(pos as int, pos as int + 8));
    }
    x
}

/// Serializes a topology to its snapshot bytes.
#[verifier::loop_isolation(false)]
#[verifier::rlimit(80)]
pub fn encode_topology(net: &LUTNet) -> (r: Vec<u8>)
    ensures
        r@ == spec_encode(*net),
{
    let mut out: Vec<u8> = Vec::new();
    push_u64(&mut out, net.input_size_in_bits as u64);
    push_u64(&mut out, net.nodes.len() as u64);
    let ghost head = out@;
    let mut i: usize = 0;
    while i < net.nodes.len()
        invariant
            i <= net.nodes@.len(),
            out@ == head + enc_nodes(net.nodes@.take(i as int)),
        decreases net.nodes@.len() - i,
    {
        let node: Node = net.nodes[i];
        push_u64(&mut out, node.lut);
        push_u64(&mut out, node.indices[0] as u64);
        push_u64(&mut out, node.indices[1] as u64);
        push_u64(&mut out, node.indices[2] as u64);
        push_u64(&mut out, node.indices[3] as u64);
        push_u64(&mut out, node.indices[4] as u64);
        push_u64(&mut out, node.indices[5] as u64);
        proof {
            assert(net.nodes@.take(i + 1).drop_last() =~= net.nodes@.take(i as int));
            assert(out@ =~= head + enc_nodes(net.nodes@.take(i + 1)));
        }
        i = i + 1;
    }
    proof {
        assert(net.nodes@.take(net.nodes@.len() as int) =~= net.nodes@);
    }
    push_u64(&mut out, net.layer_edges.len() as u64);
    let ghost head2 = out@;
    let mut i2: usize = 0;
    while i2 < net.layer_edges.len()
        invariant
            i2 <= net.layer_edges@.len(),
            out@ == head2 + enc_usizes(net.layer_edges@.take(i2 as int)),
        decreases net.layer_edges@.len() - i2,
    {
        push_u64(&mut out, net.layer_edges[i2] as u64);
        proof {
            assert(net.layer_edges@.take(i2 + 1).drop_last() =~= net.layer_edges@.take(i2 as int));
            assert(out@ =~= head2 + enc_usizes(net.layer_edges@.take(i2 + 1)));
        }
        i2 = i2 + 1;
    }
    proof {
        assert(net.layer_edges@.take(net.layer_edges@.len() as int) =~= net.layer_edges@);
    }
    match &net.lut_bank {
        Option::None => {
            push_u64(&mut out, 0);
        },
        Option::Some(bank) => {
            proof {
                assert(net.lut_bank == Option::Some(*bank));
            }
            push_u64(&mut out, 1);
            push_u64(&mut out, bank.len() as u64);
            let ghost head3 = out@;
            let mut i3: usize = 0;
            while i3 < bank.len()
                invariant
                    i3 <= bank@.len(),
                    out@ == head3 + enc_u64s(bank@.take(i3 as int)),
                decreases bank@.len() - i3,
            {
                push_u64(&mut out, bank[i3]);
                proof {
                    assert(bank@.take(i3 + 1).drop_last() =~= bank@.take(i3 as int));
                    assert(out@ =~= head3 + enc_u64s(bank@.take(i3 + 1)));
                }
                i3 = i3 + 1;
            }
            proof {
                assert(bank@.take(bank@.len() as int) =~= bank@);
                assert((net.lut_bank->0)@ == bank@);
            }
        },
    }
    push_u64(&mut out, net.output_embedding.len() as u64);
    let ghost head4 = out@;
    let mut i4: usize = 0;
    while i4 < net.output_embedding.len()
        invariant
            i4 <= net.output_embedding@.len(),
            out@ == head4 + enc_usizes(net.output_embedding@.take(i4 as int)),
        decreases net.output_embedding@.len() - i4,
    {
        push_u64(&mut out, net.output_embedding[i4] as u64);
        proof {
            assert(net.output_embedding@.take(i4 + 1).drop_last() =~= net.output_embedding@.take(
                i4 as int,
            ));
            assert(out@ =~= head4 + enc_usizes(net.output_embedding@.take(i4 + 1)));
        }
        i4 = i4 + 1;
    }
    proof {
        assert(net.output_embedding@.take(net.output_embedding@.len() as int)
            =~= net.output_embedding@);
        assert(out@ =~= spec_encode(*net));
    }
    out
}

/// Reads the word at `pos` as a size, rejecting values the machine word
/// cannot hold.
fn read_usize(bytes: &Vec<u8>, pos: usize) -> (r: Result<usize, SnapshotError>)
    requires
        pos + 8 <= bytes@.len(),
        pos + 8 <= usize::MAX,
    ensures
        r matches Ok(v) ==> u64_le(v as u64) == bytes@.subrange(pos as int, pos as int + 8),
        r is Err ==> forall|v: u64|
            v <= usize::MAX as u64 ==> #[trigger] u64_le(v) != bytes@.subrange(
                pos as int,
                pos as int + 8,
            ),
{
    let x: u64 = read_u64(bytes, pos);
    if x > (usize::MAX as u64) {
        proof {
            assert forall|v: u64|
                v <= usize::MAX as u64 implies #[trigger] u64_le(v) != bytes@.subrange(
                pos as int,
                pos as int + 8,
            ) by {
                if u64_le(v) == bytes@.subrange(pos as int, pos as int + 8) {
                    lemma_u64_le_inj(v, x);
                }
            }
        }
        return Err(SnapshotError::ValueTooLarge);
    }
    Ok(x as usize)
}

/// Reads `count` nodes at `pos`.
#[verifier::loop_isolation(false)]
#[verifier::rlimit(80)]
fn decode_nodes(bytes: &Vec<u8>, pos: usize, count: usize) -> (r: Result<
    (Vec<Node>, usize),
    SnapshotError,
>)
    requires
        pos <= bytes@.len(),
    ensures
        r matches Ok((nodes, newpos)) ==> nodes@.len() == count && pos <= newpos <= bytes@.len()
            && newpos == pos + 56 * (count as int) && enc_nodes(nodes@) == bytes@.subrange(
            pos as int,
            newpos as int,
        ),
        r is Err ==> !(exists|s: Seq<Node>|
            s.len() == count && pos + 56 * (count as int) <= bytes@.len() && enc_nodes(s)
                == bytes@.subrange(pos as int, pos as int + 56 * (count as int))),
{
    let n_bytes: usize = bytes.len();
    let mut nodes: Vec<Node> = Vec::new();
    let mut p: usize = pos;
    let mut i: usize = 0;
    while i < count
        invariant
            i <= count,
            nodes@.len() == i,
            pos <= p <= bytes@.len(),
            p == pos + 56 * (i as int),
            enc_nodes(nodes@) == bytes@.subrange(pos as int, p as int),
        decreases count - i,
    {
        if n_bytes - p < 56 {
            proof {
                assert(pos + 56 * (count as int) > bytes@.len()) by {
                    assert(56 * (i as int) + 56 <= 56 * (count as int)) by (nonlinear_arith)
                        requires
                            0 <= i < count,
                    ;
                }
            }
            return Err(SnapshotError::Truncated);
        }
        let lut: u64 = read_u64(bytes, p);
        let mut indices: [usize; 6] = [0, 0, 0, 0, 0, 0];
        let mut j: usize = 0;
        while j < 6
            invariant
                j <= 6,
                i < count,
                p == pos + 56 * (i as int),
                p + 56 <= bytes@.len(),
                forall|j0: int|
                    0 <= j0 < j ==> u64_le((#[trigger] indices@[j0]) as u64) == bytes@.subrange(
                        p + 8 + 8 * j0,
                        p + 16 + 8 * j0,
                    ),
            decreases 6 - j,
        {
            let v: usize = match read_usize(bytes, p + 8 + 8 * j) {
                Ok(v) => v,
                Err(e) => {
                    proof {
                        lemma_no_node_seq_fits(bytes@, pos as int, count as int, i as int, j as int);
                    }
                    return Err(e);
                },
            };
            indices.set(j, v);
            j = j + 1;
        }
        let node = Node { lut, indices };
        let ghost prev = nodes@;
        nodes.push(node);
        proof {
            assert(enc_node(node) =~= bytes@.subrange(p as int, p + 56));
            assert(nodes@.drop_last() =~= prev);
            assert(enc_nodes(nodes@) =~= bytes@.subrange(pos as int, p + 56));
        }
        p = p + 56;
        i = i + 1;
    }
    Ok((nodes, p))
}

/// When a node's address word holds a value beyond the machine's sizes, no
/// node list of the expected length encodes to these bytes.
#[verifier::spinoff_prover]
#[verifier::rlimit(80)]
proof fn lemma_no_node_seq_fits(bs: Seq<u8>, pos: int, count: int, i: int, j: int)
    requires
        0 <= pos,
        0 <= i < count,
        0 <= j < 6,
        forall|v: u64|
            v <= usize::MAX as u64 ==> #[trigger] u64_le(v) != bs.subrange(
                pos + 56 * i + 8 + 8 * j,
                pos + 56 * i + 8 + 8 * j + 8,
            ),
    ensures
        !(exists|s: Seq<Node>|
            s.len() == count && pos + 56 * count <= bs.len() && enc_nodes(s) == bs.subrange(
                pos,
                pos + 56 * count,
            )),
{
    if exists|s: Seq<Node>|
        s.len() == count && pos + 56 * count <= bs.len() && enc_nodes(s) == bs.subrange(
            pos,
            pos + 56 * count,
        ) {
        let s = choose|s: Seq<Node>|
            s.len() == count && pos + 56 * count <= bs.len() && enc_nodes(s) == bs.subrange(
                pos,
                pos + 56 * count,
            );
        lemma_enc_nodes_props(s);
        lemma_enc_node_words(s[i]);
        assert(56 * i + 56 <= 56 * count && 0 <= 56 * i) by (nonlinear_arith)
            requires
                0 <= i < count,
        ;
        assert(enc_nodes(s).subrange(56 * i, 56 * i + 56) == enc_node(s[i]));
        bs.lemma_slice_of_slice(pos, pos + 56 * count, 56 * i, 56 * i + 56);
        assert(bs.subrange(pos, pos + 56 * count).subrange(56 * i, 56 * i + 56) == bs.subrange(
            pos + 56 * i,
            pos + 56 * i + 56,
        ));
        assert(enc_node(s[i]).subrange(8 + 8 * j, 16 + 8 * j) == u64_le(s[i].indices@[j] as u64));
        bs.lemma_slice_of_slice(pos + 56 * i, pos + 56 * i + 56, 8 + 8 * j, 16 + 8 * j);
        assert(bs.subrange(pos + 56 * i, pos + 56 * i + 56).subrange(8 + 8 * j, 16 + 8 * j)
            == bs.subrange(pos + 56 * i + 8 + 8 * j, pos + 56 * i + 8 + 8 * j + 8));
        assert((s[i].indices@[j] as u64) <= usize::MAX as u64);
        assert(u64_le(s[i].indices@[j] as u64) != bs.subrange(
            pos + 56 * i + 8 + 8 * j,
            pos + 56 * i + 8 + 8 * j + 8,
        ));
        assert(false);
    }
}

/// Reads `count` sizes at `pos`.
#[verifier::loop_isolation(false)]
#[verifier::rlimit(80)]
fn decode_usizes(bytes: &Vec<u8>, pos: usize, count: usize) -> (r: Result<
    (Vec<usize>, usize),
    SnapshotError,
>)
    requires
        pos <= bytes@.len(),
    ensures
        r matches Ok((vals, newpos)) ==> vals@.len() == count && pos <= newpos <= bytes@.len()
            && newpos == pos + 8 * (count as int) && enc_usizes(vals@) == bytes@.subrange(
            pos as int,
            newpos as int,
        ),
        r is Err ==> !(exists|s: Seq<usize>|
            s.len() == count && pos + 8 * (count as int) <= bytes@.len() && enc_usizes(s)
                == bytes@.subrange(pos as int, pos as int + 8 * (count as int))),
{
    let n_bytes: usize = bytes.len();
    let mut vals: Vec<usize> = Vec::new();
    let mut p: usize = pos;
    let mut i: usize = 0;
    while i < count
        invariant
            i <= count,
            vals@.len() == i,
            pos <= p <= bytes@.len(),
            p == pos + 8 * (i as int),
            enc_usizes(vals@) == bytes@.subrange(pos as int, p as int),
        decreases count - i,
    {
        if n_bytes - p < 8 {
            proof {
                assert(pos + 8 * (count as int) > bytes@.len()) by {
                    assert(8 * (i as int) + 8 <= 8 * (count as int)) by (nonlinear_arith)
                        requires
                            0 <= i < count,
                    ;
                }
            }
            return Err(SnapshotError::Truncated);
        }
        let v: usize = match read_usize(bytes, p) {
            Ok(v) => v,
            Err(e) => {
                proof {
                    lemma_no_usize_seq_fits(bytes@, pos as int, count as int, i as int);
                }
                return Err(e);
            },
        };
        let ghost prev = vals@;
        vals.push(v);
        proof {
            assert(vals@.drop_last() =~= prev);
            assert(enc_usizes(vals@) =~= bytes@.subrange(pos as int, p + 8));
        }
        p = p + 8;
        i = i + 1;
    }
    Ok((vals, p))
}

/// When a size word holds a value beyond the machine's sizes, no size list
/// of the expected length encodes to these bytes.
#[verifier::rlimit(80)]
proof fn lemma_no_usize_seq_fits(bs: Seq<u8>, pos: int, count: int, i: int)
    requires
        0 <= pos,
        0 <= i < count,
        forall|v: u64|
            v <= usize::MAX as u64 ==> #[trigger] u64_le(v) != bs.subrange(
                pos + 8 * i,
                pos + 8 * i + 8,
            ),
    ensures
        !(exists|s: Seq<usize>|
            s.len() == count && pos + 8 * count <= bs.len() && enc_usizes(s) == bs.subrange(
                pos,
                pos + 8 * count,
            )),
{
    if exists|s: Seq<usize>|
        s.len() == count && pos + 8 * count <= bs.len() && enc_usizes(s) == bs.subrange(
            pos,
            pos + 8 * count,
        ) {
        let s = choose|s: Seq<usize>|
            s.len() == count && pos + 8 * count <= bs.len() && enc_usizes(s) == bs.subrange(
                pos,
                pos + 8 * count,
            );
        lemma_enc_usizes_props(s);
        assert(8 * i + 8 <= 8 * count && 0 <= 8 * i) by (nonlinear_arith)
            requires
                0 <= i < count,
        ;
        assert(enc_usizes(s).subrange(8 * i, 8 * i + 8) == u64_le(s[i] as u64));
        bs.lemma_slice_of_slice(pos, pos + 8 * count, 8 * i, 8 * i + 8);
        assert(bs.subrange(pos, pos + 8 * count).subrange(8 * i, 8 * i + 8) == bs.subrange(
            pos + 8 * i,
            pos + 8 * i + 8,
        ));
        assert((s[i] as u64) <= usize::MAX as u64);
        assert(u64_le(s[i] as u64) != bs.subrange(pos + 8 * i, pos + 8 * i + 8));
        assert(false);
    }
}

/// Reads `count` words at `pos`.
#[verifier::loop_isolation(false)]
#[verifier::rlimit(80)]
fn decode_u64s(bytes: &Vec<u8>, pos: usize, count: usize) -> (r: Result<
    (Vec<u64>, usize),
    SnapshotError,
>)
    requires
        pos <= bytes@.len(),
    ensures
        r matches Ok((vals, newpos)) ==> vals@.len() == count && pos <= newpos <= bytes@.len()
            && newpos == pos + 8 * (count as int) && enc_u64s(vals@) == bytes@.subrange(
            pos as int,
            newpos as int,
        ),
        r is Err ==> pos + 8 * (count as int) > bytes@.len(),
{
    let n_bytes: usize = bytes.len();
    let mut vals: Vec<u64> = Vec::new();
    let mut p: usize = pos;
    let mut i: usize = 0;
    while i < count
        invariant
            i <= count,
            vals@.len() == i,
            pos <= p <= bytes@.len(),
            p == pos + 8 * (i as int),
            enc_u64s(vals@) == bytes@.subrange(pos as int, p as int),
        decreases count - i,
    {
        if n_bytes - p < 8 {
            proof {
                assert(pos + 8 * (count as int) > bytes@.len()) by {
                    assert(8 * (i as int) + 8 <= 8 * (count as int)) by (nonlinear_arith)
                        requires
                            0 <= i < count,
                    ;
                }
            }
            return Err(SnapshotError::Truncated);
        }
        let v: u64 = read_u64(bytes, p);
        let ghost prev = vals@;
        vals.push(v);
        proof {
            assert(vals@.drop_last() =~= prev);
            assert(enc_u64s(vals@) =~= bytes@.subrange(pos as int, p + 8));
        }
        p = p + 8;
        i = i + 1;
    }
    Ok((vals, p))
}

/// Deserializes a snapshot. Succeeds on exactly the blobs some topology
/// encodes to: on success the returned topology re-encodes to the very
/// input bytes, and any malformed blob is rejected with no partial value.
#[verifier::loop_isolation(false)]
#[verifier::spinoff_prover]
#[verifier::rlimit(100)]
pub fn decode_topology(bytes: &Vec<u8>) -> (r: Result<LUTNet, SnapshotError>)
    ensures
        r matches Ok(net) ==> spec_encode(net) == bytes@,
        (exists|n: LUTNet| spec_encode(n) == bytes@) ==> r is Ok,
{
    let ghost valid = exists|n: LUTNet| spec_encode(n) == bytes@;
    let ghost gn = choose|n: LUTNet| spec_encode(n) == bytes@;
    let ghost nn = gn.nodes@.len() as int;
    let ghost ee = gn.layer_edges@.len() as int;
    let ghost cc = gn.output_embedding@.len() as int;
    let ghost bank_len: int = if gn.lut_bank is Some {
        16 + 8 * (gn.lut_bank->0)@.len() as int
    } else {
        8
    };
    let ghost p1g = 16 + 56 * nn;
    let ghost p2g = p1g + 8 + 8 * ee;
    let ghost p3g = p2g + bank_len;
    let ghost totalg = p3g + 8 + 8 * cc;
    proof {
        if valid {
            lemma_encode_parts(gn);
            assert(spec_encode(gn) == bytes@);
            assert(bytes@.len() == totalg);
        }
    }
    let n_bytes: usize = bytes.len();
    if n_bytes < 16 {
        proof {
            if valid {
                assert(false);
            }
        }
        return Err(SnapshotError::Truncated);
    }
    let input_size_in_bits: usize = match read_usize(bytes, 0) {
        Ok(v) => v,
        Err(e) => {
            proof {
                if valid {
                    assert(u64_le(gn.input_size_in_bits as u64) == bytes@.subrange(0, 8));
                    assert(false);
                }
            }
            return Err(e);
        },
    };
    let node_count: usize = match read_usize(bytes, 8) {
        Ok(v) => v,
        Err(e) => {
            proof {
                if valid {
                    assert(u64_le(gn.nodes@.len() as u64) == bytes@.subrange(8, 16));
                    assert(false);
                }
            }
            return Err(e);
        },
    };
    proof {
        if valid {
            lemma_u64_le_inj(node_count as u64, gn.nodes@.len() as u64);
            assert(node_count == nn);
        }
    }
    let (nodes, p1): (Vec<Node>, usize) = match decode_nodes(bytes, 16, node_count) {
        Ok(v) => v,
        Err(e) => {
            proof {
                if valid {
                    assert(gn.nodes@.len() == node_count && 16 + 56 * (node_count as int)
                        <= bytes@.len() && enc_nodes(gn.nodes@) == bytes@.subrange(
                        16,
                        16 + 56 * (node_count as int),
                    ));
                    assert(false);
                }
            }
            return Err(e);
        },
    };
    proof {
        if valid {
            assert(p1 == p1g);
        }
    }
    if n_bytes - p1 < 8 {
        proof {
            if valid {
                assert(false);
            }
        }
        return Err(SnapshotError::Truncated);
    }
    let edge_count: usize = match read_usize(bytes, p1) {
        Ok(v) => v,
        Err(e) => {
            proof {
                if valid {
                    assert(u64_le(gn.layer_edges@.len() as u64) == bytes@.subrange(p1g, p1g + 8));
                    assert(false);
                }
            }
            return Err(e);
        },
    };
    proof {
        if valid {
            lemma_u64_le_inj(edge_count as u64, gn.layer_edges@.len() as u64);
            assert(edge_count == ee);
        }
    }
    let (layer_edges, p2): (Vec<usize>, usize) = match decode_usizes(bytes, p1 + 8, edge_count) {
        Ok(v) => v,
        Err(e) => {
            proof {
                if valid {
                    assert(gn.layer_edges@.len() == edge_count && p1 + 8 + 8 * (edge_count as int)
                        <= bytes@.len() && enc_usizes(gn.layer_edges@) == bytes@.subrange(
                        p1 + 8,
                        p1 + 8 + 8 * (edge_count as int),
                    ));
                    assert(false);
                }
            }
            return Err(e);
        },
    };
    proof {
        if valid {
            assert(p2 == p2g);
        }
    }
    if n_bytes - p2 < 8 {
        proof {
            if valid {
                assert(false);
            }
        }
        return Err(SnapshotError::Truncated);
    }
    let flag: u64 = read_u64(bytes, p2);
    proof {
        if valid {
            lemma_u64_le_inj(
                flag,
                if gn.lut_bank is Some {
                    1u64
                } else {
                    0u64
                },
            );
        }
    }
    let (lut_bank, p3): (Option<Vec<u64>>, usize) = if flag == 0 {
        (None, p2 + 8)
    } else if flag == 1 {
        if n_bytes - p2 < 16 {
            proof {
                if valid {
                    assert(gn.lut_bank is Some);
                    assert(false);
                }
            }
            return Err(SnapshotError::Truncated);
        }
        let bank_count: usize = match read_usize(bytes, p2 + 8) {
            Ok(v) => v,
            Err(e) => {
                proof {
                    if valid {
                        assert(gn.lut_bank is Some);
                        assert(u64_le((gn.lut_bank->0)@.len() as u64) == bytes@.subrange(
                            p2g + 8,
                            p2g + 16,
                        ));
                        assert(false);
                    }
                }
                return Err(e);
            },
        };
        proof {
            if valid {
                assert(gn.lut_bank is Some);
                lemma_u64_le_inj(bank_count as u64, (gn.lut_bank->0)@.len() as u64);
                assert(bank_count == (gn.lut_bank->0)@.len());
            }
        }
        let (bank, pb): (Vec<u64>, usize) = match decode_u64s(bytes, p2 + 16, bank_count) {
            Ok(v) => v,
            Err(e) => {
                proof {
                    if valid {
                        assert(false);
                    }
                }
                return Err(e);
            },
        };
        (Some(bank), pb)
    } else {
        proof {
            if valid {
                assert(false);
            }
        }
        return Err(SnapshotError::BadBankFlag);
    };
    proof {
        if valid {
            assert((lut_bank is Some) == (gn.lut_bank is Some));
            assert(p3 == p3g);
        }
    }
    if n_bytes - p3 < 8 {
        proof {
            if valid {
                assert(false);
            }
        }
        return Err(SnapshotError::Truncated);
    }
    let emb_count: usize = match read_usize(bytes, p3) {
        Ok(v) => v,
        Err(e) => {
            proof {
                if valid {
                    assert(u64_le(gn.output_embedding@.len() as u64) == bytes@.subrange(
                        p3g,
                        p3g + 8,
                    ));
                    assert(false);
                }
            }
            return Err(e);
        },
    };
    proof {
        if valid {
            lemma_u64_le_inj(emb_count as u64, gn.output_embedding@.len() as u64);
            assert(emb_count == cc);
        }
    }
    let (output_embedding, p4): (Vec<usize>, usize) = match decode_usizes(
        bytes,
        p3 + 8,
        emb_count,
    ) {
        Ok(v) => v,
        Err(e) => {
            proof {
                if valid {
                    assert(gn.output_embedding@.len() == emb_count && p3 + 8 + 8 * (
                    emb_count as int) <= bytes@.len() && enc_usizes(gn.output_embedding@)
                        == bytes@.subrange(p3 + 8, p3 + 8 + 8 * (emb_count as int)));
                    assert(false);
                }
            }
            return Err(e);
        },
    };
    if p4 != n_bytes {
        proof {
            if valid {
                assert(p4 == totalg);
                assert(false);
            }
        }
        return Err(SnapshotError::TrailingBytes);
    }
    let net = LUTNet { nodes, input_size_in_bits, layer_edges, lut_bank, output_embedding };
    proof {
        assert(spec_encode(net) =~= bytes@);
    }
    Ok(net)
}

} // verus!
