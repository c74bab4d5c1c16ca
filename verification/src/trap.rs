//! The saved execution environment of one hardware thread, and the register
//! indices the trap handler reads out of it.
//!
//! The filesystem engine itself keeps no global state; these types belong to
//! the surrounding kernel, which hands one `Environment` per core to its trap
//! path.

use vstd::prelude::*;

verus! {

/// Indices of the general-purpose registers the kernel cares about, as they
/// stand in the saved register file.
#[derive(Clone, Copy, PartialEq, Eq, Structural)]
pub enum Register {
    RA,
    SP,
    A0,
    A1,
    A2,
    A3,
}

impl Register {
    /// The register's index in the saved register file.
    pub fn val(self) -> (r: usize)
        ensures
            r == self.index(),
    {
        match self {
            Register::RA => 1,
            Register::SP => 2,
            Register::A0 => 10,
            Register::A1 => 11,
            Register::A2 => 12,
            Register::A3 => 13,
        }
    }

    /// The index each register occupies in the saved register file.
    pub open spec fn index(self) -> usize {
        match self {
            Register::RA => 1,
            Register::SP => 2,
            Register::A0 => 10,
            Register::A1 => 11,
            Register::A2 => 12,
            Register::A3 => 13,
        }
    }
}

/// Everything that must be restored to resume an interrupted context: the
/// integer and float register files, the address-translation root, the program
/// counter at the trap, and which core the context belongs to.
#[derive(Clone, Copy)]
pub struct Environment {
    pub regs: [usize; 32],
    pub fregs: [usize; 32],
    pub satp: usize,
    pub epc: usize,
    pub hartid: usize,
}

impl Environment {
    /// A fresh, zeroed context.
    pub fn new() -> (e: Environment)
        ensures
            e.regs@ == Seq::new(32, |i: int| 0usize),
            e.fregs@ == Seq::new(32, |i: int| 0usize),
            e.satp == 0,
            e.epc == 0,
            e.hartid == 0,
    {
        let e = Environment { regs: [0; 32], fregs: [0; 32], satp: 0, epc: 0, hartid: 0 };
        proof {
            assert(e.regs@ =~= Seq::new(32, |i: int| 0usize));
            assert(e.fregs@ =~= Seq::new(32, |i: int| 0usize));
        }
        e
    }

    /// Takes over another context's register files, translation root and
    /// program counter; which core this context belongs to is kept.
    pub fn copy(&mut self, env: &Environment)
        ensures
            final(self).regs@ == env.regs@,
            final(self).fregs@ == env.fregs@,
            final(self).satp == env.satp,
            final(self).epc == env.epc,
            final(self).hartid == old(self).hartid,
    {
        self.regs = env.regs;
        self.fregs = env.fregs;
        self.satp = env.satp;
        self.epc = env.epc;
    }
}

} // verus!
