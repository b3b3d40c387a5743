//! The shape a flattened device-tree blob must have for the `fdt` crate's
//! queries to answer without panicking, and a checker for it.
//!
//! The crate trusts the blob: it slices blocks at the header's offsets,
//! slices property values at their stated length, expects every name to be
//! a NUL-terminated UTF-8 string, expects cell-size properties to hold a
//! 32-bit cell and every `cpu` node under `cpus` to carry a `reg` of the
//! stated width. [`dtb_well_formed`] states a structure, a little stricter
//! than the crate needs, under which none of that fails:
//!
//! - the header lies in the blob and both blocks lie within `totalsize`;
//! - the structure block holds one root node, with an empty name, written
//!   as `BEGIN_NODE name (PROP)* (node)* END_NODE`, with no `NOP` tokens;
//! - every name is NUL-terminated ASCII inside its block, no property name
//!   begins with `/` (so that an alias lookup never starts over), and every
//!   property value lies inside the structure block;
//! - `#address-cells` and `#size-cells` values are exactly 4 bytes;
//! - in a `cpus` node whose children include a `cpu` node, the address cells
//!   are 1 or 2 and every such `cpu` node has a `reg` at least that wide.

use vstd::prelude::*;

verus! {

/// Token opening a node.
pub const TOKEN_BEGIN_NODE: u64 = 1;

/// Token closing a node.
pub const TOKEN_END_NODE: u64 = 2;

/// Token opening a property.
pub const TOKEN_PROP: u64 = 3;

/// The header's magic number.
pub const FDT_MAGIC: u64 = 0xd00d_feed;

/// The big-endian 32-bit word at `p`.
pub open spec fn be32_at(b: Seq<u8>, p: int) -> int {
    b[p] * 0x100_0000 + b[p + 1] * 0x1_0000 + b[p + 2] * 0x100 + b[p + 3]
}

/// The first NUL byte at or after `a` and before `lim`.
pub open spec fn first_nul(b: Seq<u8>, a: int, lim: int) -> Option<int>
    decreases lim - a,
{
    if a < 0 || a >= lim {
        None
    } else if b[a] == 0 {
        Some(a)
    } else {
        first_nul(b, a + 1, lim)
    }
}

/// Every byte of `[a, e)` is ASCII.
pub open spec fn ascii_run(b: Seq<u8>, a: int, e: int) -> bool {
    forall|i: int| a <= i < e ==> b[i] < 0x80
}

/// `n` rounded up to a multiple of 4.
pub open spec fn align4(n: int) -> int {
    (n + 3) / 4 * 4
}

/// The bytes `[a, e)` are exactly `w`.
pub open spec fn bytes_are(b: Seq<u8>, a: int, e: int, w: Seq<u8>) -> bool {
    e - a == w.len() && b.subrange(a, e) == w
}

/// The name `[a, e)` is `w`, or `w` followed by `@` and a unit address.
pub open spec fn base_name_is(b: Seq<u8>, a: int, e: int, w: Seq<u8>) -> bool {
    bytes_are(b, a, e, w) || (e - a > w.len() && b.subrange(a, a + w.len()) == w && b[a
        + w.len()] == 0x40)
}

/// `cpus`.
pub open spec fn word_cpus() -> Seq<u8> {
    seq![0x63u8, 0x70u8, 0x75u8, 0x73u8]
}

/// `cpu`.
pub open spec fn word_cpu() -> Seq<u8> {
    seq![0x63u8, 0x70u8, 0x75u8]
}

/// `reg`.
pub open spec fn word_reg() -> Seq<u8> {
    seq![0x72u8, 0x65u8, 0x67u8]
}

/// `#address-cells`.
pub open spec fn word_address_cells() -> Seq<u8> {
    seq![
        0x23u8, 0x61u8, 0x64u8, 0x64u8, 0x72u8, 0x65u8, 0x73u8, 0x73u8, 0x2du8, 0x63u8, 0x65u8,
        0x6cu8, 0x6cu8, 0x73u8,
    ]
}

/// `#size-cells`.
pub open spec fn word_size_cells() -> Seq<u8> {
    seq![0x23u8, 0x73u8, 0x69u8, 0x7au8, 0x65u8, 0x2du8, 0x63u8, 0x65u8, 0x6cu8, 0x6cu8, 0x73u8]
}

/// What the scan keeps of each open node.
#[derive(Clone, Copy, Debug)]
pub struct DtbFrame {
    /// 0: any node; 1: a `cpus` node; 2: a `cpu` node inside a `cpus` node.
    pub kind: u8,
    /// The node's `#address-cells` as the crate reads it: the last one
    /// given, 2 when there is none.
    pub ac: u64,
    /// For a `cpu` node: how many bytes its first `reg` must hold.
    pub need: u64,
    /// The length of the node's first `reg` property, once seen.
    pub reg: Option<u64>,
}

/// One step of the scan over the structure block.
pub enum ScanStep {
    Reject,
    Accept,
    Next(int, Seq<DtbFrame>, bool),
}

/// Where the property name at offset `off` of the strings block
/// `[so, so + ss)` ends (its NUL), if it is terminated inside the block.
pub open spec fn prop_name_end(b: Seq<u8>, so: int, ss: int, off: int) -> Option<int> {
    if 0 <= off < ss {
        first_nul(b, so + off, so + ss)
    } else {
        None
    }
}

/// The scan's step at `p`, inside the structure block ending at `s1`, with
/// the strings block `[so, so + ss)`, the open nodes `st`, and whether a
/// property may still come in the innermost node.
pub open spec fn scan_step(
    b: Seq<u8>,
    p: int,
    s1: int,
    so: int,
    ss: int,
    st: Seq<DtbFrame>,
    props_ok: bool,
) -> ScanStep {
    if p < 0 || p + 4 > s1 {
        ScanStep::Reject
    } else {
        let t = be32_at(b, p);
        if t == TOKEN_BEGIN_NODE {
            match first_nul(b, p + 4, s1) {
                None => ScanStep::Reject,
                Some(e) => {
                    let next = p + 4 + align4(e - (p + 4) + 1);
                    let is_cpus = base_name_is(b, p + 4, e, word_cpus());
                    let is_cpu = st.len() > 0 && st.last().kind == 1 && base_name_is(
                        b,
                        p + 4,
                        e,
                        word_cpu(),
                    );
                    if !ascii_run(b, p + 4, e) || next > s1 || (st.len() == 0 && e != p + 4) || (
                    is_cpu && !(st.last().ac == 1 || st.last().ac == 2)) {
                        ScanStep::Reject
                    } else {
                        let f = DtbFrame {
                            kind: if is_cpu {
                                2
                            } else if is_cpus {
                                1
                            } else {
                                0
                            },
                            ac: 2,
                            need: if is_cpu {
                                (4 * st.last().ac) as u64
                            } else {
                                0
                            },
                            reg: None,
                        };
                        ScanStep::Next(next, st.push(f), true)
                    }
                },
            }
        } else if t == TOKEN_PROP {
            if st.len() == 0 || !props_ok || p + 12 > s1 {
                ScanStep::Reject
            } else {
                let len = be32_at(b, p + 4);
                let off = be32_at(b, p + 8);
                let next = p + 12 + align4(len);
                match prop_name_end(b, so, ss, off) {
                    None => ScanStep::Reject,
                    Some(e) => {
                        let a = so + off;
                        let is_ac = bytes_are(b, a, e, word_address_cells());
                        let is_sc = bytes_are(b, a, e, word_size_cells());
                        let is_reg = bytes_are(b, a, e, word_reg());
                        if next > s1 || !ascii_run(b, a, e) || (e > a && b[a] == 0x2f) || ((is_ac
                            || is_sc) && len != 4) {
                            ScanStep::Reject
                        } else {
                            let top = st.last();
                            let top2 = DtbFrame {
                                kind: top.kind,
                                ac: if is_ac {
                                    be32_at(b, p + 12) as u64
                                } else {
                                    top.ac
                                },
                                need: top.need,
                                reg: if is_reg && top.reg is None {
                                    Some(len as u64)
                                } else {
                                    top.reg
                                },
                            };
                            ScanStep::Next(next, st.update(st.len() - 1, top2), true)
                        }
                    },
                }
            }
        } else if t == TOKEN_END_NODE {
            if st.len() == 0 {
                ScanStep::Reject
            } else if st.last().kind == 2 && !(st.last().reg matches Some(l) && l
                >= st.last().need) {
                ScanStep::Reject
            } else if st.len() == 1 {
                ScanStep::Accept
            } else {
                ScanStep::Next(p + 4, st.drop_last(), false)
            }
        } else {
            ScanStep::Reject
        }
    }
}

/// The scan from `p` with at most `fuel` steps: true when the root node
/// closes with every step accepted.
pub open spec fn scan(
    b: Seq<u8>,
    p: int,
    s1: int,
    so: int,
    ss: int,
    st: Seq<DtbFrame>,
    props_ok: bool,
    fuel: nat,
) -> bool
    decreases fuel,
{
    if fuel == 0 {
        false
    } else {
        match scan_step(b, p, s1, so, ss, st, props_ok) {
            ScanStep::Reject => false,
            ScanStep::Accept => true,
            ScanStep::Next(q, st2, po) => scan(b, q, s1, so, ss, st2, po, (fuel - 1) as nat),
        }
    }
}

/// The blob has the shape under which the `fdt` crate's node, property,
/// memory and CPU queries answer without panicking (see the module
/// documentation).
pub open spec fn dtb_well_formed(b: Seq<u8>) -> bool {
    &&& b.len() >= 40
    &&& be32_at(b, 0) == FDT_MAGIC
    &&& be32_at(b, 4) <= b.len()
    &&& be32_at(b, 8) + be32_at(b, 36) <= be32_at(b, 4)
    &&& be32_at(b, 12) + be32_at(b, 32) <= be32_at(b, 4)
    &&& scan(
        b,
        be32_at(b, 8),
        be32_at(b, 8) + be32_at(b, 36),
        be32_at(b, 12),
        be32_at(b, 32),
        seq![],
        false,
        (be32_at(b, 36) + 1) as nat,
    )
}

/// How deep a node sits never changes how it is checked: with any frames
/// `base` below the open nodes `st`, the step at `p` rejects, opens, reads a
/// property or closes exactly as it does with `st` alone, leaving `base`
/// untouched; only closing the outermost node of `st` differs, returning to
/// the node below instead of ending the scan.
pub proof fn lemma_scan_step_depth_free(
    b: Seq<u8>,
    p: int,
    s1: int,
    so: int,
    ss: int,
    base: Seq<DtbFrame>,
    st: Seq<DtbFrame>,
    props_ok: bool,
)
    requires
        st.len() >= 1,
    ensures
        scan_step(b, p, s1, so, ss, base + st, props_ok) is Reject <==> scan_step(
            b,
            p,
            s1,
            so,
            ss,
            st,
            props_ok,
        ) is Reject,
        scan_step(b, p, s1, so, ss, st, props_ok) matches ScanStep::Next(q, st2, po) ==> scan_step(
            b,
            p,
            s1,
            so,
            ss,
            base + st,
            props_ok,
        ) == ScanStep::Next(q, base + st2, po),
        scan_step(b, p, s1, so, ss, st, props_ok) is Accept ==> (base.len() > 0 ==> scan_step(
            b,
            p,
            s1,
            so,
            ss,
            base + st,
            props_ok,
        ) == ScanStep::Next(p + 4, base, false)),
{
    let full = base + st;
    assert(full.len() == base.len() + st.len());
    assert(full.last() == st.last());
    assert forall|f: DtbFrame| #[trigger] full.push(f) == base + st.push(f) by {
        assert(full.push(f) =~= base + st.push(f));
    }
    assert forall|f: DtbFrame| #[trigger] full.update(full.len() - 1, f) == base + st.update(
        st.len() - 1,
        f,
    ) by {
        assert(full.update(full.len() - 1, f) =~= base + st.update(st.len() - 1, f));
    }
    assert(full.drop_last() =~= base + st.drop_last());
    if st.len() == 1 {
        assert(st.drop_last() =~= Seq::<DtbFrame>::empty());
        assert(base + st.drop_last() =~= base);
    }
}

/// The big-endian 32-bit word at `p`.
fn be32(b: &[u8], p: usize) -> (r: u64)
    requires
        p + 4 <= b@.len(),
    ensures
        r == be32_at(b@, p as int),
        r < 0x1_0000_0000,
{
    b[p] as u64 * 0x100_0000 + b[p + 1] as u64 * 0x1_0000 + b[p + 2] as u64 * 0x100 + b[p + 3] as u64
}

/// The first NUL at or after `a` and before `lim`.
fn find_nul(b: &[u8], a: usize, lim: usize) -> (r: Option<usize>)
    requires
        lim <= b@.len(),
    ensures
        r is None <==> first_nul(b@, a as int, lim as int) is None,
        r matches Some(e) ==> first_nul(b@, a as int, lim as int) == Some(e as int),
        r matches Some(e) ==> a <= e < lim,
{
    let mut i = a;
    while i < lim
        invariant
            a <= i,
            lim <= b@.len(),
            first_nul(b@, i as int, lim as int) == first_nul(b@, a as int, lim as int),
        decreases lim - i,
    {
        if b[i] == 0 {
            return Some(i);
        }
        i = i + 1;
    }
    None
}

/// Every byte of `[a, e)` is ASCII.
fn ascii_bytes(b: &[u8], a: usize, e: usize) -> (r: bool)
    requires
        a <= e <= b@.len(),
    ensures
        r == ascii_run(b@, a as int, e as int),
{
    let mut i = a;
    while i < e
        invariant
            a <= i <= e <= b@.len(),
            forall|j: int| a <= j < i ==> b@[j] < 0x80,
        decreases e - i,
    {
        if b[i] >= 0x80 {
            return false;
        }
        i = i + 1;
    }
    true
}

/// The bytes `[a, e)` are exactly `w`.
fn bytes_match(b: &[u8], a: usize, e: usize, w: &[u8]) -> (r: bool)
    requires
        a <= e <= b@.len(),
    ensures
        r == bytes_are(b@, a as int, e as int, w@),
{
    if e - a != w.len() {
        return false;
    }
    let mut i: usize = 0;
    while i < w.len()
        invariant
            e - a == w@.len(),
            a <= e <= b@.len(),
            i <= w@.len(),
            forall|j: int| 0 <= j < i ==> b@[a + j] == w@[j],
        decreases w@.len() - i,
    {
        if b[a + i] != w[i] {
            proof {
                assert(b@.subrange(a as int, e as int)[i as int] != w@[i as int]);
            }
            return false;
        }
        i = i + 1;
    }
    proof {
        assert(b@.subrange(a as int, e as int) =~= w@);
    }
    true
}

/// The name `[a, e)` is `w`, or `w` followed by `@` and a unit address.
fn base_name_matches(b: &[u8], a: usize, e: usize, w: &[u8]) -> (r: bool)
    requires
        a <= e <= b@.len(),
    ensures
        r == base_name_is(b@, a as int, e as int, w@),
{
    if bytes_match(b, a, e, w) {
        return true;
    }
    if e - a > w.len() && bytes_match(b, a, a + w.len(), w) && b[a + w.len()] == 0x40 {
        proof {
            assert(b@.subrange(a as int, a + w@.len()) == w@);
        }
        return true;
    }
    proof {
        if e - a > w@.len() && b@.subrange(a as int, a + w@.len()) == w@ && b@[a + w@.len()] == 0x40 {
            assert(bytes_are(b@, a as int, a + w@.len(), w@));
        }
    }
    false
}

/// One step of the scan, as [`scan_step`] states it; the open nodes are
/// updated in place.
pub enum StepOutcome {
    Reject,
    Accept,
    Next(usize, bool),
}

fn check_step(
    b: &[u8],
    p: usize,
    s1: usize,
    so: usize,
    ss: usize,
    st: &mut Vec<DtbFrame>,
    props_ok: bool,
) -> (r: StepOutcome)
    requires
        s1 <= b@.len(),
        so + ss <= b@.len(),
    ensures
        (r is Reject) == (scan_step(b@, p as int, s1 as int, so as int, ss as int, old(st)@, props_ok) is Reject),
        (r is Accept) == (scan_step(b@, p as int, s1 as int, so as int, ss as int, old(st)@, props_ok) is Accept),
        r matches StepOutcome::Next(q, po) ==> scan_step(
            b@,
            p as int,
            s1 as int,
            so as int,
            ss as int,
            old(st)@,
            props_ok,
        ) == ScanStep::Next(q as int, final(st)@, po),
{
    let blen = b.len();
    if p > s1 || s1 - p < 4 {
        return StepOutcome::Reject;
    }
    let t = be32(b, p);
    if t == TOKEN_BEGIN_NODE {
        let e = match find_nul(b, p + 4, s1) {
            Some(e) => e,
            None => {
                return StepOutcome::Reject;
            },
        };
        let n = e - (p + 4) + 1;
        let pad = (n + 3) / 4 * 4;
        proof {
            assert(pad == align4(e - (p + 4) + 1));
        }
        if !ascii_bytes(b, p + 4, e) || pad > s1 - (p + 4) {
            return StepOutcome::Reject;
        }
        let next = p + 4 + pad;
        let cpus_word: [u8; 4] = [0x63, 0x70, 0x75, 0x73];
        let cpu_word: [u8; 3] = [0x63, 0x70, 0x75];
        proof {
            assert(cpus_word@ =~= word_cpus());
            assert(cpu_word@ =~= word_cpu());
        }
        let is_cpus = base_name_matches(b, p + 4, e, &cpus_word);
        let depth = st.len();
        if depth == 0 && e != p + 4 {
            return StepOutcome::Reject;
        }
        let parent_cpus = depth > 0 && st[depth - 1].kind == 1;
        let is_cpu = parent_cpus && base_name_matches(b, p + 4, e, &cpu_word);
        let mut need: u64 = 0;
        if is_cpu {
            let pac = st[depth - 1].ac;
            if !(pac == 1 || pac == 2) {
                return StepOutcome::Reject;
            }
            need = 4 * pac;
        }
        let kind: u8 = if is_cpu {
            2
        } else if is_cpus {
            1
        } else {
            0
        };
        let f = DtbFrame { kind, ac: 2, need, reg: None };
        st.push(f);
        proof {
            let spec_f = DtbFrame {
                kind: if is_cpu {
                    2
                } else if is_cpus {
                    1
                } else {
                    0
                },
                ac: 2,
                need: if is_cpu {
                    (4 * old(st)@.last().ac) as u64
                } else {
                    0
                },
                reg: None,
            };
            assert(f == spec_f);
            assert(st@ =~= old(st)@.push(spec_f));
        }
        StepOutcome::Next(next, true)
    } else if t == TOKEN_PROP {
        if st.len() == 0 || !props_ok || s1 - p < 12 {
            return StepOutcome::Reject;
        }
        let len = be32(b, p + 4);
        let off = be32(b, p + 8);
        if off >= ss as u64 {
            return StepOutcome::Reject;
        }
        let a = so + off as usize;
        let e = match find_nul(b, a, so + ss) {
            Some(e) => e,
            None => {
                return StepOutcome::Reject;
            },
        };
        let pad = (len + 3) / 4 * 4;
        proof {
            assert(pad == align4(len as int));
        }
        if pad > (s1 - p - 12) as u64 {
            return StepOutcome::Reject;
        }
        let next = p + 12 + pad as usize;
        if !ascii_bytes(b, a, e) || (e > a && b[a] == 0x2f) {
            return StepOutcome::Reject;
        }
        let ac_word: [u8; 14] = [
            0x23, 0x61, 0x64, 0x64, 0x72, 0x65, 0x73, 0x73, 0x2d, 0x63, 0x65, 0x6c, 0x6c, 0x73,
        ];
        let sc_word: [u8; 11] = [0x23, 0x73, 0x69, 0x7a, 0x65, 0x2d, 0x63, 0x65, 0x6c, 0x6c, 0x73];
        let reg_word: [u8; 3] = [0x72, 0x65, 0x67];
        proof {
            assert(ac_word@ =~= word_address_cells());
            assert(sc_word@ =~= word_size_cells());
            assert(reg_word@ =~= word_reg());
        }
        let is_ac = bytes_match(b, a, e, &ac_word);
        let is_sc = bytes_match(b, a, e, &sc_word);
        let is_reg = bytes_match(b, a, e, &reg_word);
        if (is_ac || is_sc) && len != 4 {
            return StepOutcome::Reject;
        }
        let last = st.len() - 1;
        let top = st[last];
        let ac = if is_ac {
            be32(b, p + 12)
        } else {
            top.ac
        };
        let reg = if is_reg && top.reg.is_none() {
            Some(len)
        } else {
            top.reg
        };
        let top2 = DtbFrame { kind: top.kind, ac, need: top.need, reg };
        st.set(last, top2);
        proof {
            assert(st@ =~= old(st)@.update(last as int, top2));
        }
        StepOutcome::Next(next, true)
    } else if t == TOKEN_END_NODE {
        let depth = st.len();
        if depth == 0 {
            return StepOutcome::Reject;
        }
        let top = st[depth - 1];
        if top.kind == 2 {
            let ok = match top.reg {
                Some(l) => l >= top.need,
                None => false,
            };
            if !ok {
                return StepOutcome::Reject;
            }
        }
        if depth == 1 {
            return StepOutcome::Accept;
        }
        st.pop();
        proof {
            assert(st@ =~= old(st)@.drop_last());
        }
        StepOutcome::Next(p + 4, false)
    } else {
        StepOutcome::Reject
    }
}

/// Check that the blob has the shape [`dtb_well_formed`] states.
pub fn dtb_check(blob: &[u8]) -> (r: bool)
    ensures
        r == dtb_well_formed(blob@),
{
    if blob.len() < 40 {
        return false;
    }
    let magic = be32(blob, 0);
    let total = be32(blob, 4);
    let off_struct = be32(blob, 8);
    let off_strings = be32(blob, 12);
    let size_strings = be32(blob, 32);
    let size_struct = be32(blob, 36);
    if magic != FDT_MAGIC || total > blob.len() as u64 || off_struct + size_struct > total
        || off_strings + size_strings > total {
        return false;
    }
    let s0 = off_struct as usize;
    let s1 = (off_struct + size_struct) as usize;
    let so = off_strings as usize;
    let ss = size_strings as usize;
    let ghost start = scan(
        blob@,
        s0 as int,
        s1 as int,
        so as int,
        ss as int,
        seq![],
        false,
        (size_struct + 1) as nat,
    );
    let mut st: Vec<DtbFrame> = Vec::new();
    let mut p = s0;
    let mut props_ok = false;
    let mut fuel: u64 = size_struct + 1;
    proof {
        assert(st@ =~= Seq::<DtbFrame>::empty());
        assert(start == dtb_well_formed(blob@));
    }
    while fuel > 0
        invariant
            s1 <= blob@.len(),
            so + ss <= blob@.len(),
            start == dtb_well_formed(blob@),
            scan(blob@, p as int, s1 as int, so as int, ss as int, st@, props_ok, fuel as nat)
                == start,
        decreases fuel,
    {
        let ghost st0 = st@;
        match check_step(blob, p, s1, so, ss, &mut st, props_ok) {
            StepOutcome::Reject => {
                return false;
            },
            StepOutcome::Accept => {
                return true;
            },
            StepOutcome::Next(q, po) => {
                p = q;
                props_ok = po;
                fuel = fuel - 1;
            },
        }
    }
    false
}

} // verus!
