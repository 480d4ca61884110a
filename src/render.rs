//! The per-router table file, as bytes: the router's address, the number of
//! tables, the BIER table and, when asked for, the BIER-TE table.
use vstd::prelude::*;
use crate::allocator::BitPositions;
use crate::tables::{
    adjacency_bits_known, bier_table, bier_te_table, is_bier_table, is_bier_te_table, AllocationError,
    BierEntry, BierTeEntry, BierTeTable,
};
use crate::topology::{adjacency_view, valid_graph};

verus! {

/// The ASCII digit of `d` (0 to 9).
pub open spec fn digit(d: nat) -> u8 {
    (48 + d) as u8
}

/// The decimal digits of `n`, most significant first.
pub open spec fn decimal(n: nat) -> Seq<u8>
    decreases n,
{
    if n < 10 {
        seq![digit(n)]
    } else {
        decimal(n / 10).push(digit(n % 10))
    }
}

/// '1' for a set bit, '0' for a clear one.
pub open spec fn bit_char(b: bool) -> u8 {
    if b {
        49
    } else {
        48
    }
}

/// The bits as ASCII, highest index first.
pub open spec fn bits_text(bits: Seq<bool>) -> Seq<u8> {
    Seq::new(bits.len(), |i: int| bit_char(bits[bits.len() - 1 - i]))
}

/// The bits without the clear bits above the highest set one.
pub open spec fn trimmed(bits: Seq<bool>) -> Seq<bool>
    decreases bits.len(),
{
    if bits.len() == 0 || bits.last() {
        bits
    } else {
        trimmed(bits.drop_last())
    }
}

/// A forwarding mask as ASCII: from its highest set bit down to bit 0.
pub open spec fn mask_text(bits: Seq<bool>) -> Seq<u8> {
    bits_text(trimmed(bits))
}

/// A line break.
pub open spec fn newline() -> Seq<u8> {
    seq![10u8]
}

/// The BIER lines: per entry, its mask, a space, the neighbor's address.
pub open spec fn bier_text(t: Seq<BierEntry>, addresses: Seq<Seq<u8>>) -> Seq<u8>
    decreases t.len(),
{
    if t.len() == 0 {
        Seq::empty()
    } else {
        bier_text(t.drop_last(), addresses) + mask_text(t.last().mask@) + seq![32u8]
            + addresses[t.last().neighbor as int] + newline()
    }
}

/// The BIER-TE entry lines: per entry, its 1-based bit, the adjacency count
/// 1, the neighbor's address.
pub open spec fn te_lines(entries: Seq<BierTeEntry>, addresses: Seq<Seq<u8>>) -> Seq<u8>
    decreases entries.len(),
{
    if entries.len() == 0 {
        Seq::empty()
    } else {
        te_lines(entries.drop_last(), addresses) + decimal((entries.last().bit + 1) as nat) + seq![
            32u8,
            49u8,
            32u8,
        ] + addresses[entries.last().neighbor as int] + newline()
    }
}

/// The BIER-TE section: the number of bits, the router's 1-based bit, its
/// global bitstring, the number of entries, then the entry lines.
pub open spec fn te_text(t: BierTeTable, node: nat, addresses: Seq<Seq<u8>>) -> Seq<u8> {
    decimal(t.bitstring.len() as nat) + newline() + decimal(node + 1) + newline() + bits_text(t.bitstring@)
        + newline() + decimal(t.entries.len() as nat) + newline() + te_lines(t.entries@, addresses)
}

/// The addresses as byte sequences.
pub open spec fn addresses_view(addresses: &Vec<Vec<u8>>) -> Seq<Seq<u8>> {
    addresses@.map_values(|a: Vec<u8>| a@)
}

/// Appends the decimal digits of `n`.
pub fn push_decimal(out: &mut Vec<u8>, n: usize)
    ensures
        final(out)@ == old(out)@ + decimal(n as nat),
    decreases n,
{
    if n >= 10 {
        push_decimal(out, n / 10);
    }
    out.push(48u8 + (n % 10) as u8);
    assert(old(out)@ + decimal(n as nat) =~= (if n >= 10 {
        old(out)@ + decimal((n / 10) as nat)
    } else {
        old(out)@
    }).push(digit((n % 10) as nat)));
}

/// Appends the bytes of `b`.
fn push_all(out: &mut Vec<u8>, b: &Vec<u8>)
    ensures
        final(out)@ == old(out)@ + b@,
{
    let ghost start = out@;
    let mut i: usize = 0;
    while i < b.len()
        invariant
            i <= b.len(),
            out@ == start + b@.take(i as int),
        decreases b.len() - i,
    {
        out.push(b[i]);
        assert(b@.take(i + 1) =~= b@.take(i as int).push(b[i as int]));
        i = i + 1;
    }
    assert(b@.take(b.len() as int) =~= b@);
}

/// Appends the first `top` bits as ASCII, highest index first.
fn push_bits_upto(out: &mut Vec<u8>, bits: &Vec<bool>, top: usize)
    requires
        top <= bits.len(),
    ensures
        final(out)@ == old(out)@ + bits_text(bits@.take(top as int)),
{
    let ghost start = out@;
    let ghost low = bits@.take(top as int);
    let mut i: usize = 0;
    while i < top
        invariant
            top <= bits.len(),
            low == bits@.take(top as int),
            i <= top,
            out@ == start + bits_text(low).take(i as int),
        decreases top - i,
    {
        let c: u8 = if bits[top - 1 - i] {
            49
        } else {
            48
        };
        out.push(c);
        assert(bits_text(low).take(i + 1) =~= bits_text(low).take(i as int).push(c));
        i = i + 1;
    }
    assert(bits_text(low).take(top as int) =~= bits_text(low));
}

/// Appends a forwarding mask as ASCII: from its highest set bit down to
/// bit 0.
pub fn push_mask(out: &mut Vec<u8>, mask: &Vec<bool>)
    ensures
        final(out)@ == old(out)@ + mask_text(mask@),
{
    let mut top: usize = mask.len();
    assert(mask@.take(top as int) =~= mask@);
    while top > 0 && !mask[top - 1]
        invariant
            top <= mask.len(),
            trimmed(mask@) == trimmed(mask@.take(top as int)),
        decreases top,
    {
        assert(mask@.take(top as int).drop_last() =~= mask@.take(top - 1));
        top = top - 1;
    }
    assert(trimmed(mask@.take(top as int)) == mask@.take(top as int));
    push_bits_upto(out, mask, top);
}

/// Appends the BIER lines of table `t`: per entry, its mask, a space and
/// the neighbor's address.
pub fn write_bier_table(out: &mut Vec<u8>, t: &Vec<BierEntry>, addresses: &Vec<Vec<u8>>)
    requires
        forall|i: int| 0 <= i < t.len() ==> (#[trigger] t[i]).neighbor < addresses.len(),
    ensures
        final(out)@ == old(out)@ + bier_text(t@, addresses_view(addresses)),
{
    let ghost start = out@;
    let ghost a = addresses_view(addresses);
    let mut i: usize = 0;
    while i < t.len()
        invariant
            forall|j: int| 0 <= j < t.len() ==> (#[trigger] t[j]).neighbor < addresses.len(),
            a == addresses_view(addresses),
            i <= t.len(),
            out@ == start + bier_text(t@.take(i as int), a),
        decreases t.len() - i,
    {
        let e = &t[i];
        let ghost before = out@;
        push_mask(out, &e.mask);
        out.push(32u8);
        push_all(out, &addresses[e.neighbor]);
        out.push(10u8);
        assert(t@.take(i + 1).drop_last() =~= t@.take(i as int));
        assert(out@ =~= start + bier_text(t@.take(i + 1), a));
        i = i + 1;
    }
    assert(t@.take(t.len() as int) =~= t@);
}

/// Appends the BIER-TE section of `node`'s table `t`: the number of bits,
/// `node`'s 1-based bit, the global bitstring (highest bit first), the
/// number of entries, then per entry its 1-based bit, the adjacency count 1
/// and the neighbor's address.
pub fn write_bier_te_table(out: &mut Vec<u8>, t: &BierTeTable, node: usize, addresses: &Vec<Vec<u8>>)
    requires
        node < t.bitstring.len(),
        forall|k: int|
            0 <= k < t.entries.len() ==> (#[trigger] t.entries[k]).neighbor < addresses.len()
                && t.entries[k].bit < t.bitstring.len(),
    ensures
        final(out)@ == old(out)@ + te_text(*t, node as nat, addresses_view(addresses)),
{
    let ghost start = out@;
    let ghost a = addresses_view(addresses);
    push_decimal(out, t.bitstring.len());
    out.push(10u8);
    push_decimal(out, node + 1);
    out.push(10u8);
    push_bits_upto(out, &t.bitstring, t.bitstring.len());
    assert(t.bitstring@.take(t.bitstring.len() as int) =~= t.bitstring@);
    out.push(10u8);
    push_decimal(out, t.entries.len());
    out.push(10u8);
    let ghost head = out@;
    let mut k: usize = 0;
    while k < t.entries.len()
        invariant
            node < t.bitstring.len(),
            forall|j: int|
                0 <= j < t.entries.len() ==> (#[trigger] t.entries[j]).neighbor < addresses.len()
                    && t.entries[j].bit < t.bitstring.len(),
            a == addresses_view(addresses),
            k <= t.entries.len(),
            out@ == head + te_lines(t.entries@.take(k as int), a),
        decreases t.entries.len() - k,
    {
        let e = t.entries[k];
        push_decimal(out, e.bit + 1);
        out.push(32u8);
        out.push(49u8);
        out.push(32u8);
        push_all(out, &addresses[e.neighbor]);
        out.push(10u8);
        assert(t.entries@.take(k + 1).drop_last() =~= t.entries@.take(k as int));
        assert(out@ =~= head + te_lines(t.entries@.take(k + 1), a));
        k = k + 1;
    }
    assert(t.entries@.take(t.entries.len() as int) =~= t.entries@);
    assert(out@ =~= start + te_text(*t, node as nat, a));
}

/// Why the table file of a router could not be built.
#[derive(PartialEq, Eq, Debug, Clone, Copy)]
pub enum BuildError {
    /// An adjacency names no router, or has a metric that is not positive.
    InvalidTopology,
    /// A bit was asked for a router or a link that has none.
    Allocation(AllocationError),
}

/// The first two lines of a table file: the router's address and the
/// number of tables.
pub open spec fn header_text(address: Seq<u8>, tables: nat) -> Seq<u8> {
    address + newline() + decimal(tables) + newline()
}

/// The table file of router `node`: its address, the number of tables (1,
/// or 2 with BIER-TE), the BIER lines of its table and, when `do_te`, the
/// BIER-TE section. `InvalidTopology` when the graph is not valid; else,
/// with `do_te`, the allocation error of the BIER-TE table, if any.
pub fn router_config(
    graph: &Vec<Vec<(usize, i32)>>,
    bp: &BitPositions,
    addresses: &Vec<Vec<u8>>,
    node: usize,
    do_te: bool,
) -> (r: Result<Vec<u8>, BuildError>)
    requires
        node < graph.len(),
        addresses.len() == graph.len(),
        bp.wf(),
    ensures
        !valid_graph(adjacency_view(graph)) ==> r == Err::<Vec<u8>, BuildError>(BuildError::InvalidTopology),
        valid_graph(adjacency_view(graph)) && do_te && node >= bp.nb_nodes ==> r == Err::<Vec<u8>, BuildError>(
            BuildError::Allocation(AllocationError::UnregisteredRouter(node)),
        ),
        valid_graph(adjacency_view(graph)) && do_te && node < bp.nb_nodes && !adjacency_bits_known(
            adjacency_view(graph),
            *bp,
            node as int,
        ) ==> r matches Err(BuildError::Allocation(AllocationError::UnregisteredLink(_, _))),
        valid_graph(adjacency_view(graph)) && (!do_te || (node < bp.nb_nodes && adjacency_bits_known(
            adjacency_view(graph),
            *bp,
            node as int,
        ))) ==> r is Ok,
        r matches Ok(b) ==> exists|t: Seq<BierEntry>|
            #![trigger is_bier_table(adjacency_view(graph), node as int, t)]
            is_bier_table(adjacency_view(graph), node as int, t) && if do_te {
                exists|te: BierTeTable|
                    #![trigger is_bier_te_table(adjacency_view(graph), *bp, node as int, te)]
                    is_bier_te_table(adjacency_view(graph), *bp, node as int, te) && b@ == header_text(
                        addresses_view(addresses)[node as int],
                        2,
                    ) + bier_text(t, addresses_view(addresses)) + te_text(
                        te,
                        node as nat,
                        addresses_view(addresses),
                    )
            } else {
                b@ == header_text(addresses_view(addresses)[node as int], 1) + bier_text(
                    t,
                    addresses_view(addresses),
                )
            },
{
    let ghost a = addresses_view(addresses);
    let table = match bier_table(graph, node) {
        Some(t) => t,
        None => return Err(BuildError::InvalidTopology),
    };
    let mut out: Vec<u8> = Vec::new();
    push_all(&mut out, &addresses[node]);
    out.push(10u8);
    let tables: usize = if do_te {
        2
    } else {
        1
    };
    push_decimal(&mut out, tables);
    out.push(10u8);
    assert(out@ =~= header_text(a[node as int], tables as nat));
    let ghost head = out@;
    write_bier_table(&mut out, &table, addresses);
    if do_te {
        let te = match bier_te_table(graph, node, bp) {
            Ok(te) => te,
            Err(e) => return Err(BuildError::Allocation(e)),
        };
        proof {
            assert(0 <= node < te.bitstring.len());
            assert forall|k: int|
                0 <= k < te.entries.len() implies (#[trigger] te.entries[k]).neighbor < addresses.len()
                    && te.entries[k].bit < te.bitstring.len() by {
                let peer = adjacency_view(graph)[node as int][k].0;
                let key = crate::allocator::canonical(node, peer);
                assert(te.entries[k].neighbor == peer);
                assert(bp.link_bit_of(node, peer) == Some(te.entries[k].bit as int));
                assert(bp.links@.contains(key));
                assert(bp.links@[bp.links@.index_of(key)] == key);
            }
        }
        let ghost mid = out@;
        write_bier_te_table(&mut out, &te, node, addresses);
        assert(out@ =~= header_text(a[node as int], 2) + bier_text(table@, a) + te_text(te, node as nat, a));
    } else {
        assert(out@ =~= header_text(a[node as int], 1) + bier_text(table@, a));
    }
    Ok(out)
}

} // verus!
