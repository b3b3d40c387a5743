//! Queries on the flattened device tree the firmware hands over, made with
//! the `fdt` crate on the blob's bytes, and the decoding of property values.
//!
//! What the crate finds in a blob is named here, not restated: the names
//! below stand for the crate's answer on given bytes, and the library's
//! functions are stated over them.

use vstd::prelude::*;

use crate::dtb_format::dtb_well_formed;

verus! {

/// The raw value of property `name` of the node at `path` in the blob, as
/// the `fdt` crate finds it; `None` when the blob's header is refused, the
/// node is missing, or it has no such property.
pub uninterp spec fn dtb_prop(blob: Seq<u8>, path: Seq<char>, name: Seq<char>) -> Option<Seq<u8>>;

/// The `(starting_address, size)` entries of the `/memory` node's `reg`, as
/// the `fdt` crate reads them; `None` when the header is refused, the node
/// is missing, or its cell sizes are out of range.
pub uninterp spec fn dtb_memory_ranges(blob: Seq<u8>) -> Option<Seq<(u64, Option<usize>)>>;

/// The first `reg` id of each `cpu` node under `/cpus`, in order, as the
/// `fdt` crate reads them; `None` when the header is refused or `/cpus` is
/// missing.
pub uninterp spec fn dtb_cpu_ids(blob: Seq<u8>) -> Option<Seq<u64>>;

/// Calls `fdt::Fdt::new` on the blob, then `Fdt::find_node(path)` and
/// `FdtNode::property(name)`, and copies out the property's value. The
/// contract claims only that the answer is the one `dtb_prop` names on these
/// arguments. The blob must have the shape `dtb_well_formed` states, under
/// which the crate's parsing does not panic, and the path must start at the
/// root, so that a failed lookup never falls back to an alias.
#[verifier::external_body]
pub(crate) fn dtb_prop_bytes(blob: &[u8], path: &str, name: &str) -> (r: Option<Vec<u8>>)
    requires
        dtb_well_formed(blob@),
        path@.len() > 0,
        path@[0] == '/',
    ensures
        r matches Some(v) ==> dtb_prop(blob@, path@, name@) == Some(v@),
        r is None ==> dtb_prop(blob@, path@, name@) is None,
{
    let fdt = fdt::Fdt::new(blob).ok()?;
    let node = fdt.find_node(path)?;
    node.property(name).map(|p| p.value.to_vec())
}

/// Calls `fdt::Fdt::new` on the blob, `Fdt::find_node("/memory")` and
/// `FdtNode::reg`, and lists each region's start address and size. The
/// contract claims only that the answer is the one `dtb_memory_ranges`
/// names. The blob must have the shape `dtb_well_formed` states.
#[verifier::external_body]
pub(crate) fn dtb_memory(blob: &[u8]) -> (r: Option<Vec<(u64, Option<usize>)>>)
    requires
        dtb_well_formed(blob@),
    ensures
        r matches Some(v) ==> dtb_memory_ranges(blob@) == Some(v@),
        r is None ==> dtb_memory_ranges(blob@) is None,
{
    let fdt = fdt::Fdt::new(blob).ok()?;
    let regions = fdt.find_node("/memory")?.reg()?;
    Some(regions.map(|m| (m.starting_address as usize as u64, m.size)).collect())
}

/// Calls `fdt::Fdt::new` on the blob, checks `Fdt::find_node("/cpus")`
/// (without which `Fdt::cpus` panics), then lists `Cpu::ids().first()` of
/// each node `Fdt::cpus` yields. The contract claims only that the answer is
/// the one `dtb_cpu_ids` names. The blob must have the shape
/// `dtb_well_formed` states: among other things, every `cpu` node under a
/// `cpus` node has a `reg` as wide as the 1 or 2 address cells require.
#[verifier::external_body]
pub(crate) fn dtb_cpus(blob: &[u8]) -> (r: Option<Vec<u64>>)
    requires
        dtb_well_formed(blob@),
    ensures
        r matches Some(v) ==> dtb_cpu_ids(blob@) == Some(v@),
        r is None ==> dtb_cpu_ids(blob@) is None,
{
    let fdt = fdt::Fdt::new(blob).ok()?;
    fdt.find_node("/cpus")?;
    Some(fdt.cpus().map(|c| c.ids().first() as u64).collect())
}

/// The big-endian number the bytes spell.
pub open spec fn be_value(s: Seq<u8>) -> nat
    decreases s.len(),
{
    if s.len() == 0 {
        0
    } else {
        (be_value(s.drop_last()) * 256 + s.last()) as nat
    }
}

/// `256^n`.
pub open spec fn pow256(n: nat) -> nat
    decreases n,
{
    if n == 0 {
        1
    } else {
        pow256((n - 1) as nat) * 256
    }
}

/// A property value read as a number: one or two big-endian 32-bit cells.
pub open spec fn prop_usize_spec(v: Seq<u8>) -> Option<usize> {
    if v.len() == 4 || v.len() == 8 {
        Some(be_value(v) as usize)
    } else {
        None
    }
}

/// A string property's bytes without its trailing NUL terminators.
pub open spec fn trim_nuls(s: Seq<u8>) -> Seq<u8>
    decreases s.len(),
{
    if s.len() > 0 && s.last() == 0 {
        trim_nuls(s.drop_last())
    } else {
        s
    }
}

/// The powers of 256 up to the eighth stay within 64 bits.
proof fn lemma_pow256_bound(n: nat)
    requires
        n <= 8,
    ensures
        pow256(n) <= 0x1_0000_0000_0000_0000,
        pow256(n) >= 1,
    decreases n,
{
    reveal_with_fuel(pow256, 9);
    if n > 0 {
        lemma_pow256_bound((n - 1) as nat);
        assert(pow256(n) <= pow256(8)) by {
            lemma_pow256_monotone(n, 8);
        }
    }
}

/// `256^a <= 256^b` for `a <= b`.
proof fn lemma_pow256_monotone(a: nat, b: nat)
    requires
        a <= b,
    ensures
        pow256(a) <= pow256(b),
    decreases b,
{
    if a < b {
        lemma_pow256_monotone(a, (b - 1) as nat);
        lemma_pow256_pos((b - 1) as nat);
    }
}

/// `256^n` is positive.
proof fn lemma_pow256_pos(n: nat)
    ensures
        pow256(n) >= 1,
    decreases n,
{
    if n > 0 {
        lemma_pow256_pos((n - 1) as nat);
    }
}

/// Read a property value as a number: a 4-byte value as one big-endian
/// cell, an 8-byte value as two; `None` for any other length.
pub fn prop_usize(v: &[u8]) -> (r: Option<usize>)
    ensures
        r == prop_usize_spec(v@),
{
    if v.len() != 4 && v.len() != 8 {
        return None;
    }
    let mut acc: u64 = 0;
    let mut i: usize = 0;
    while i < v.len()
        invariant
            i <= v@.len(),
            v@.len() <= 8,
            acc == be_value(v@.subrange(0, i as int)),
            acc < pow256(i as nat),
        decreases v@.len() - i,
    {
        proof {
            let s = v@.subrange(0, i + 1);
            assert(s.drop_last() =~= v@.subrange(0, i as int));
            assert(s.last() == v@[i as int]);
            lemma_pow256_bound((i + 1) as nat);
            let p = pow256(i as nat);
            let b = v@[i as int];
            assert(acc * 256 + b < p * 256) by (nonlinear_arith)
                requires
                    acc < p,
                    b < 256,
            ;
        }
        acc = acc * 256 + v[i] as u64;
        i = i + 1;
    }
    proof {
        assert(v@.subrange(0, i as int) =~= v@);
    }
    Some(acc as usize)
}

/// A string property's bytes with the trailing NUL terminators removed.
pub fn trim_nul_bytes(v: &[u8]) -> (r: Vec<u8>)
    ensures
        r@ == trim_nuls(v@),
{
    let mut j: usize = v.len();
    proof {
        assert(v@.subrange(0, j as int) =~= v@);
    }
    while j > 0 && v[j - 1] == 0
        invariant
            j <= v@.len(),
            trim_nuls(v@.subrange(0, j as int)) == trim_nuls(v@),
        decreases j,
    {
        proof {
            let s = v@.subrange(0, j as int);
            assert(s.drop_last() =~= v@.subrange(0, j - 1));
        }
        j = j - 1;
    }
    let mut out: Vec<u8> = Vec::new();
    let mut k: usize = 0;
    while k < j
        invariant
            k <= j <= v@.len(),
            out@ == v@.subrange(0, k as int),
        decreases j - k,
    {
        out.push(v[k]);
        proof {
            assert(out@ =~= v@.subrange(0, k + 1));
        }
        k = k + 1;
    }
    proof {
        let s = v@.subrange(0, j as int);
        assert(!(s.len() > 0 && s.last() == 0));
        assert(trim_nuls(s) == s);
    }
    out
}

} // verus!
