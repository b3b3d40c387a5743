//! PSCI client: the conduit and function id read from the device tree, the
//! `CPU_ON` request, and the decoding of its return code.

use vstd::prelude::*;

use crate::cpu::types::Mpidr;
use crate::dtb_format::dtb_well_formed;
use crate::dtb::{
    dtb_prop, dtb_prop_bytes, prop_usize, prop_usize_spec, trim_nul_bytes, trim_nuls,
};

verus! {

/// PSCI conduit (privileged call instruction) used by the firmware.
#[derive(Debug, Copy, Clone, PartialEq, Eq, Structural)]
pub enum Method {
    Hvc,
    Smc,
}

impl Method {
    /// The conduit a device-tree `method` string names: `"hvc"` (bytes
    /// `0x68 0x76 0x63`) or `"smc"` (`0x73 0x6d 0x63`).
    pub fn from_name(name: &[u8]) -> (r: Option<Method>)
        ensures
            r == Method::from_name_spec(name@),
    {
        if name.len() != 3 {
            proof {
                assert(name@ != seq![0x68u8, 0x76u8, 0x63u8]);
                assert(name@ != seq![0x73u8, 0x6du8, 0x63u8]);
            }
            return None;
        }
        if name[1] == 0x6du8 || name[1] == 0x76u8 {
            if name[0] == 0x68u8 && name[1] == 0x76u8 && name[2] == 0x63u8 {
                proof {
                    assert(name@ =~= seq![0x68u8, 0x76u8, 0x63u8]);
                }
                return Some(Method::Hvc);
            }
            if name[0] == 0x73u8 && name[1] == 0x6du8 && name[2] == 0x63u8 {
                proof {
                    assert(name@ =~= seq![0x73u8, 0x6du8, 0x63u8]);
                }
                return Some(Method::Smc);
            }
        }
        proof {
            if name@ == seq![0x68u8, 0x76u8, 0x63u8] {
                assert(name@[0] == 0x68u8);
            }
            if name@ == seq![0x73u8, 0x6du8, 0x63u8] {
                assert(name@[0] == 0x73u8);
            }
        }
        None
    }
}

/// PSCI return codes from the SMC Calling Convention. Unknown codes pass
/// through as `Unknown` so the caller can still log the raw value.
#[derive(Debug, Copy, Clone, PartialEq, Eq, Structural)]
pub enum PsciError {
    NotSupported,
    InvalidParameters,
    Denied,
    AlreadyOn,
    OnPending,
    InternalFailure,
    NotPresent,
    Disabled,
    InvalidAddress,
    Unknown(i64),
}

/// The error a non-zero return code stands for.
pub open spec fn psci_error_of(code: i64) -> PsciError {
    if code == -1 {
        PsciError::NotSupported
    } else if code == -2 {
        PsciError::InvalidParameters
    } else if code == -3 {
        PsciError::Denied
    } else if code == -4 {
        PsciError::AlreadyOn
    } else if code == -5 {
        PsciError::OnPending
    } else if code == -6 {
        PsciError::InternalFailure
    } else if code == -7 {
        PsciError::NotPresent
    } else if code == -8 {
        PsciError::Disabled
    } else if code == -9 {
        PsciError::InvalidAddress
    } else {
        PsciError::Unknown(code)
    }
}

impl PsciError {
    /// Decode a return code.
    pub fn from_code(code: i64) -> (r: Self)
        ensures
            r == psci_error_of(code),
    {
        match code {
            -1 => Self::NotSupported,
            -2 => Self::InvalidParameters,
            -3 => Self::Denied,
            -4 => Self::AlreadyOn,
            -5 => Self::OnPending,
            -6 => Self::InternalFailure,
            -7 => Self::NotPresent,
            -8 => Self::Disabled,
            -9 => Self::InvalidAddress,
            other => Self::Unknown(other),
        }
    }
}

/// Every code decodes, and each named error comes from exactly one code:
/// decoding never loses the raw value.
pub proof fn lemma_psci_codes_distinct(a: i64, b: i64)
    ensures
        psci_error_of(a) == psci_error_of(b) ==> a == b,
{
}

/// What the `/psci` node gives the kernel to issue calls.
#[derive(Debug, Copy, Clone)]
pub struct Psci {
    pub method: Method,
    pub cpu_on_id: u32,
}

/// One firmware call: the conduit, the function id and three arguments.
#[derive(Debug, Copy, Clone, PartialEq, Eq, Structural)]
pub struct PsciCall {
    pub method: Method,
    pub fn_id: u64,
    pub a1: u64,
    pub a2: u64,
    pub a3: u64,
}

/// The client that the `/psci` node's raw `method` and `cpu_on` property
/// values describe: the method string (its NUL terminators dropped) must
/// name a conduit, and `cpu_on` must be a one- or two-cell number, whose low
/// 32 bits are the function id.
pub open spec fn psci_of_props(method: Option<Seq<u8>>, cpu_on: Option<Seq<u8>>) -> Option<Psci> {
    match (method, cpu_on) {
        (Some(m), Some(c)) => match (Method::from_name_spec(trim_nuls(m)), prop_usize_spec(c)) {
            (Some(mm), Some(id)) => Some(Psci { method: mm, cpu_on_id: id as u32 }),
            _ => None,
        },
        _ => None,
    }
}

impl Psci {
    /// Read the `/psci` node of the device-tree blob: `None` when the node
    /// or either property is missing, the method is neither `hvc` nor `smc`,
    /// or `cpu_on` is not a one- or two-cell number.
    pub fn from_fdt(blob: &[u8]) -> (r: Option<Psci>)
        requires
            dtb_well_formed(blob@),
        ensures
            r == psci_of_props(
                dtb_prop(blob@, "/psci"@, "method"@),
                dtb_prop(blob@, "/psci"@, "cpu_on"@),
            ),
    {
        proof {
            reveal_strlit("/psci");
        }
        let method = dtb_prop_bytes(blob, "/psci", "method");
        let cpu_on = dtb_prop_bytes(blob, "/psci", "cpu_on");
        let id = match &cpu_on {
            Some(v) => prop_usize(v.as_slice()),
            None => None,
        };
        match method {
            Some(m) => {
                let name = trim_nul_bytes(m.as_slice());
                Psci::from_props(Some(name.as_slice()), id)
            },
            None => Psci::from_props(None, id),
        }
    }

    /// Build the client from the `/psci` node's properties: its `method`
    /// string and its `cpu_on` function id. `None` when either is missing
    /// or the method is neither `hvc` nor `smc`. The id keeps its low 32
    /// bits.
    pub fn from_props(method: Option<&[u8]>, cpu_on: Option<usize>) -> (r: Option<Psci>)
        ensures
            r matches Some(p) ==> (method is Some && Method::from_name_spec(method->0@) == Some(
                p.method,
            ) && cpu_on is Some && p.cpu_on_id == cpu_on->0 as u32),
            r is None <==> (method is None || Method::from_name_spec(method->0@) is None
                || cpu_on is None),
    {
        let name = match method {
            Some(n) => n,
            None => {
                return None;
            },
        };
        let m = match Method::from_name(name) {
            Some(m) => m,
            None => {
                return None;
            },
        };
        let id = match cpu_on {
            Some(id) => id,
            None => {
                return None;
            },
        };
        Some(Psci { method: m, cpu_on_id: id as u32 })
    }

    /// The call that wakes the CPU `mpidr` at physical address `entry`,
    /// with `ctx` in `x0` on arrival.
    pub fn cpu_on_request(&self, mpidr: Mpidr, entry: u64, ctx: u64) -> (r: PsciCall)
        ensures
            r == (PsciCall {
                method: self.method,
                fn_id: self.cpu_on_id as u64,
                a1: mpidr@,
                a2: entry,
                a3: ctx,
            }),
    {
        PsciCall {
            method: self.method,
            fn_id: self.cpu_on_id as u64,
            a1: mpidr.raw(),
            a2: entry,
            a3: ctx,
        }
    }

    /// The outcome of `CPU_ON` given the firmware's return code: zero is
    /// success, anything else its error.
    pub fn cpu_on_result(code: i64) -> (r: Result<(), PsciError>)
        ensures
            code == 0 ==> r is Ok,
            code != 0 ==> r == Err::<(), PsciError>(psci_error_of(code)),
    {
        if code == 0 {
            Ok(())
        } else {
            Err(PsciError::from_code(code))
        }
    }
}

impl Method {
    /// The conduit a method name selects.
    pub open spec fn from_name_spec(name: Seq<u8>) -> Option<Method> {
        if name == seq![0x68u8, 0x76u8, 0x63u8] {
            Some(Method::Hvc)
        } else if name == seq![0x73u8, 0x6du8, 0x63u8] {
            Some(Method::Smc)
        } else {
            None
        }
    }
}

} // verus!
