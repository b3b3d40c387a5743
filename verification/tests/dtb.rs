use preon::cpu::psci::{Method, Psci};
use preon::cpu::smp::cpus_from_dtb;
use preon::dtb::{prop_usize, trim_nul_bytes};
use preon::dtb_format::dtb_check;
use preon::mm::ram::ram_regions_from_dtb;

/// A flattened device tree written token by token.
struct Blob {
    structs: Vec<u8>,
    strings: Vec<u8>,
}

impl Blob {
    fn new() -> Self {
        Blob { structs: Vec::new(), strings: Vec::new() }
    }

    fn word(&mut self, w: u32) {
        self.structs.extend_from_slice(&w.to_be_bytes());
    }

    fn pad(&mut self) {
        while self.structs.len() % 4 != 0 {
            self.structs.push(0);
        }
    }

    fn begin(&mut self, name: &str) {
        self.word(1);
        self.structs.extend_from_slice(name.as_bytes());
        self.structs.push(0);
        self.pad();
    }

    fn end(&mut self) {
        self.word(2);
    }

    fn prop(&mut self, name: &str, value: &[u8]) {
        let off = self.strings.len() as u32;
        self.strings.extend_from_slice(name.as_bytes());
        self.strings.push(0);
        self.word(3);
        self.word(value.len() as u32);
        self.word(off);
        self.structs.extend_from_slice(value);
        self.pad();
    }

    fn cells(&mut self, name: &str, cells: &[u32]) {
        let mut v = Vec::new();
        for c in cells {
            v.extend_from_slice(&c.to_be_bytes());
        }
        self.prop(name, &v);
    }

    fn finish(mut self) -> Vec<u8> {
        self.word(9);
        let rsv = 40u32;
        let structs_off = rsv + 16;
        let strings_off = structs_off + self.structs.len() as u32;
        let total = strings_off + self.strings.len() as u32;
        let mut out = Vec::new();
        for w in [
            0xd00d_feedu32,
            total,
            structs_off,
            strings_off,
            rsv,
            17,
            16,
            0,
            self.strings.len() as u32,
            self.structs.len() as u32,
        ] {
            out.extend_from_slice(&w.to_be_bytes());
        }
        out.extend_from_slice(&[0u8; 16]);
        out.extend_from_slice(&self.structs);
        out.extend_from_slice(&self.strings);
        out
    }
}

/// A `virt`-like tree: 128 MiB of RAM at 1 GiB, two CPUs, PSCI over `method`.
fn virt_tree(method: &[u8], with_psci: bool) -> Vec<u8> {
    let mut b = Blob::new();
    b.begin("");
    b.cells("#address-cells", &[2]);
    b.cells("#size-cells", &[2]);
    if with_psci {
        b.begin("psci");
        b.prop("method", method);
        b.cells("cpu_on", &[0xc400_0003]);
        b.end();
    }
    b.begin("memory@40000000");
    b.prop("device_type", b"memory\0");
    b.cells("reg", &[0, 0x4000_0000, 0, 0x0800_0000]);
    b.end();
    b.begin("cpus");
    b.cells("#address-cells", &[1]);
    b.cells("#size-cells", &[0]);
    for id in [0u32, 1] {
        b.begin(&format!("cpu@{id}"));
        b.prop("device_type", b"cpu\0");
        b.cells("reg", &[id]);
        b.end();
    }
    b.end();
    b.end();
    b.finish()
}

#[test]
fn dtb_memory_gives_ram_regions() {
    let blob = virt_tree(b"hvc\0", true);
    let regions = ram_regions_from_dtb(&blob).unwrap();
    assert_eq!(regions.len(), 1);
    assert_eq!((regions[0].base.as_u64(), regions[0].size), (0x4000_0000, 0x0800_0000));
}

#[test]
fn dtb_psci_node_gives_the_client() {
    let p = Psci::from_fdt(&virt_tree(b"hvc\0", true)).unwrap();
    assert!(p.method == Method::Hvc);
    assert_eq!(p.cpu_on_id, 0xc400_0003);
    let p = Psci::from_fdt(&virt_tree(b"smc\0", true)).unwrap();
    assert!(p.method == Method::Smc);
    assert!(Psci::from_fdt(&virt_tree(b"svc\0", true)).is_none());
    assert!(Psci::from_fdt(&virt_tree(b"hvc\0", false)).is_none());
}

#[test]
fn dtb_cpus_give_affinity_values() {
    let cpus = cpus_from_dtb(&virt_tree(b"hvc\0", true)).unwrap();
    let raw: Vec<u64> = cpus.iter().map(|m| m.raw()).collect();
    assert_eq!(raw, vec![0, 1]);
}

#[test]
fn dtb_check_accepts_a_well_formed_tree() {
    assert!(dtb_check(&virt_tree(b"hvc\0", true)));
    assert!(dtb_check(&virt_tree(b"hvc\0", false)));
}

#[test]
fn dtb_check_refuses_a_bad_header() {
    let mut blob = virt_tree(b"hvc\0", true);
    blob[0] = 0;
    assert!(!dtb_check(&blob));
    let blob = virt_tree(b"hvc\0", true);
    assert!(!dtb_check(&blob[..39]));
    assert!(!dtb_check(&blob[..blob.len() - 1]));
}

#[test]
fn dtb_check_refuses_a_malformed_body() {
    // a property whose stated length runs past the structure block
    let mut blob = virt_tree(b"hvc\0", true);
    let structs = 56;
    // root: BEGIN (4) + empty name padded (4), then `#address-cells`: PROP, len
    let len_at = structs + 8 + 4;
    assert_eq!(&blob[len_at..len_at + 4], &[0, 0, 0, 4]);
    blob[len_at] = 0x10;
    assert!(!dtb_check(&blob));
    // a token that is none of BEGIN_NODE, PROP, END_NODE
    let mut blob = virt_tree(b"hvc\0", true);
    blob[structs + 3] = 4;
    assert!(!dtb_check(&blob));
}

#[test]
fn dtb_check_refuses_a_cpu_without_reg() {
    let mut b = Blob::new();
    b.begin("");
    b.begin("cpus");
    b.cells("#address-cells", &[1]);
    b.cells("#size-cells", &[0]);
    b.begin("cpu@0");
    b.prop("device_type", b"cpu\0");
    b.end();
    b.end();
    b.end();
    assert!(!dtb_check(&b.finish()));
}

#[test]
fn dtb_check_refuses_odd_cell_sizes_and_slash_names() {
    let mut b = Blob::new();
    b.begin("");
    b.cells("#address-cells", &[0, 2]);
    b.end();
    assert!(!dtb_check(&b.finish()));
    let mut b = Blob::new();
    b.begin("");
    b.prop("/psci", b"/psci\0");
    b.end();
    assert!(!dtb_check(&b.finish()));
    let mut b = Blob::new();
    b.begin("");
    b.cells("#address-cells", &[2]);
    b.end();
    assert!(dtb_check(&b.finish()));
}

#[test]
fn property_decoding() {
    assert_eq!(prop_usize(&[0, 0, 0x12, 0x34]), Some(0x1234));
    assert_eq!(prop_usize(&[0, 0, 0, 1, 0, 0, 0, 2]), Some(0x1_0000_0002));
    assert_eq!(prop_usize(&[1, 2, 3]), None);
    assert_eq!(trim_nul_bytes(b"hvc\0\0"), b"hvc".to_vec());
    assert_eq!(trim_nul_bytes(b"\0"), Vec::<u8>::new());
    assert_eq!(trim_nul_bytes(b"smc"), b"smc".to_vec());
}
