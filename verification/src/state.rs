//! The machine state and its single-step deterministic transition: CPU
//! registers, program counter and step counter bound to one merkleized
//! memory, with a compact commitment over all of it.

use crate::errors::VmError;
use crate::keccak::{keccak256, keccak_of};
use crate::memory::Memory;
use crate::tree::{node_hash, ADDR_SPACE, TREE_DEPTH};
use crate::utils::{sign_extend, sign_extend_spec};
use vstd::prelude::*;

verus! {

/// Everything externally observable about a machine: the register file, the
/// program counter, the auxiliary multiply result registers, the step
/// counter, the exit status, and the full memory contents.
#[verifier::ext_equal]
pub struct MachineView {
    pub regs: Seq<u64>,
    pub pc: u64,
    pub lo_reg: u64,
    pub hi_reg: u64,
    pub step_count: u64,
    pub exited: bool,
    pub exit_code: u8,
    pub mem: Seq<u8>,
}

/// The byte of the instruction word at offset `k`.
pub open spec fn insn_byte(s: MachineView, k: int) -> u8 {
    s.mem[s.pc + k]
}

/// A 32-bit little-endian word assembled from four bytes, as a 64-bit value.
pub open spec fn word_val(b0: u8, b1: u8, b2: u8, b3: u8) -> u64 {
    ((b0 as int) + 256 * (b1 as int) + 65536 * (b2 as int) + 16777216 * (b3 as int)) as u64
}

/// The program counter after a sequential instruction, wrapping at the end
/// of the address space.
pub open spec fn next_pc(pc: u64) -> u64 {
    if pc + 4 == ADDR_SPACE {
        0u64
    } else {
        (pc + 4) as u64
    }
}

/// The failure, if any, that one step from state `s` reports; `None` means
/// the step succeeds and `step_apply` gives the next state.
pub open spec fn step_error(s: MachineView) -> Option<VmError> {
    if s.exited {
        Some(VmError::AlreadyExited)
    } else if s.pc % 4 != 0 {
        Some(VmError::UnalignedAccess)
    } else if s.pc + 4 > ADDR_SPACE {
        Some(VmError::OutOfBounds)
    } else {
        let op = insn_byte(s, 0);
        let a = insn_byte(s, 1);
        let b = insn_byte(s, 2);
        let c = insn_byte(s, 3);
        if op == 0x00 {
            None
        } else if op == 0x01 {
            if a >= 32 {
                Some(VmError::DecodeFailure)
            } else {
                None
            }
        } else if op == 0x02 {
            if a >= 32 || b >= 32 || c >= 32 {
                Some(VmError::DecodeFailure)
            } else {
                None
            }
        } else if op == 0x03 || op == 0x04 {
            if a >= 32 || b >= 32 {
                Some(VmError::DecodeFailure)
            } else {
                let base = if op == 0x03 {
                    s.regs[a as int]
                } else {
                    s.regs[b as int]
                };
                if base + c >= ADDR_SPACE {
                    Some(VmError::OutOfBounds)
                } else {
                    None
                }
            }
        } else if op == 0x05 {
            if a >= 32 {
                Some(VmError::DecodeFailure)
            } else if s.regs[a as int] >= ADDR_SPACE {
                Some(VmError::OutOfBounds)
            } else if s.regs[a as int] % 4 != 0 {
                Some(VmError::UnalignedAccess)
            } else {
                None
            }
        } else if op == 0x06 || op == 0x07 {
            if a >= 32 || b >= 32 {
                Some(VmError::DecodeFailure)
            } else {
                let base = if op == 0x06 {
                    s.regs[a as int]
                } else {
                    s.regs[b as int]
                };
                if base + c + 4 > ADDR_SPACE {
                    Some(VmError::OutOfBounds)
                } else if (base + c) % 4 != 0 {
                    Some(VmError::UnalignedAccess)
                } else {
                    None
                }
            }
        } else if op == 0x08 {
            if a >= 32 || b >= 32 {
                Some(VmError::DecodeFailure)
            } else {
                None
            }
        } else if op == 0xff {
            None
        } else {
            Some(VmError::DecodeFailure)
        }
    }
}

/// The state after one successful step from `s`: exactly one instruction's
/// register, memory, counter and control effects.
pub open spec fn step_apply(s: MachineView) -> MachineView {
    let op = insn_byte(s, 0);
    let a = insn_byte(s, 1);
    let b = insn_byte(s, 2);
    let c = insn_byte(s, 3);
    let stepped = (s.step_count + 1) as u64;
    if op == 0x00 {
        MachineView { pc: next_pc(s.pc), step_count: stepped, ..s }
    } else if op == 0x01 {
        let imm = ((b as int) + 256 * (c as int)) as u64;
        MachineView {
            regs: s.regs.update(a as int, sign_extend_spec(imm, 16u64)),
            pc: next_pc(s.pc),
            step_count: stepped,
            ..s
        }
    } else if op == 0x02 {
        let sum = ((s.regs[b as int] + s.regs[c as int]) % 0x1_0000_0000_0000_0000) as u64;
        MachineView {
            regs: s.regs.update(a as int, sum),
            pc: next_pc(s.pc),
            step_count: stepped,
            ..s
        }
    } else if op == 0x03 {
        let ea = (s.regs[a as int] + c) as int;
        MachineView {
            mem: s.mem.update(ea, (s.regs[b as int] % 256) as u8),
            pc: next_pc(s.pc),
            step_count: stepped,
            ..s
        }
    } else if op == 0x04 {
        let ea = (s.regs[b as int] + c) as int;
        MachineView {
            regs: s.regs.update(a as int, sign_extend_spec(s.mem[ea] as u64, 8u64)),
            pc: next_pc(s.pc),
            step_count: stepped,
            ..s
        }
    } else if op == 0x05 {
        MachineView { pc: s.regs[a as int], step_count: stepped, ..s }
    } else if op == 0x06 {
        let ea = (s.regs[a as int] + c) as int;
        let x = s.regs[b as int];
        MachineView {
            mem: s.mem.update(ea, (x & 0xff) as u8).update(ea + 1, ((x >> 8u64) & 0xff) as u8).update(
                ea + 2,
                ((x >> 16u64) & 0xff) as u8,
            ).update(ea + 3, ((x >> 24u64) & 0xff) as u8),
            pc: next_pc(s.pc),
            step_count: stepped,
            ..s
        }
    } else if op == 0x07 {
        let ea = (s.regs[b as int] + c) as int;
        let w = word_val(s.mem[ea], s.mem[ea + 1], s.mem[ea + 2], s.mem[ea + 3]);
        MachineView {
            regs: s.regs.update(a as int, sign_extend_spec(w, 32u64)),
            pc: next_pc(s.pc),
            step_count: stepped,
            ..s
        }
    } else if op == 0x08 {
        let prod = (s.regs[a as int] as int) * (s.regs[b as int] as int);
        MachineView {
            lo_reg: (prod % 0x1_0000_0000_0000_0000) as u64,
            hi_reg: (prod / 0x1_0000_0000_0000_0000) as u64,
            pc: next_pc(s.pc),
            step_count: stepped,
            ..s
        }
    } else {
        MachineView { exited: true, exit_code: a, step_count: stepped, ..s }
    }
}

/// A machine in the exited state never transitions again: one more step
/// reports the already-exited failure, and the step contract then pins
/// registers, counters and memory unchanged.
pub proof fn lemma_exited_is_terminal(s: MachineView)
    requires
        s.exited,
    ensures
        step_error(s) == Some(VmError::AlreadyExited),
{
}

/// CPU-visible registers, program counter and step counter bound to one
/// merkleized memory; mutated only by `step`.
pub struct MachineState {
    pub mem: Memory,
    pub regs: Vec<u64>,
    pub pc: u64,
    pub lo_reg: u64,
    pub hi_reg: u64,
    pub step_count: u64,
    pub exited: bool,
    pub exit_code: u8,
}

impl MachineState {
    pub open spec fn wf(self) -> bool {
        &&& self.mem.wf()
        &&& self.regs@.len() == 32
        &&& self.pc < ADDR_SPACE
    }

    /// The externally observable state this machine is in.
    pub open spec fn snapshot(self) -> MachineView {
        MachineView {
            regs: self.regs@,
            pc: self.pc,
            lo_reg: self.lo_reg,
            hi_reg: self.hi_reg,
            step_count: self.step_count,
            exited: self.exited,
            exit_code: self.exit_code,
            mem: self.mem.contents(),
        }
    }

    /// A fresh running machine over a loaded memory, all registers zero and
    /// the program counter at `pc`.
    pub fn new(mem: Memory, pc: u64) -> (r: MachineState)
        requires
            mem.wf(),
            pc < ADDR_SPACE,
        ensures
            r.wf(),
            r.snapshot().mem == mem.contents(),
            r.snapshot().pc == pc,
            r.snapshot().regs == Seq::new(32, |k: int| 0u64),
            r.snapshot().lo_reg == 0u64,
            r.snapshot().hi_reg == 0u64,
            r.snapshot().step_count == 0u64,
            !r.snapshot().exited,
            r.snapshot().exit_code == 0u8,
    {
        let mut regs: Vec<u64> = Vec::new();
        let mut k: usize = 0;
        while k < 32
            invariant
                regs@.len() == k,
                k <= 32,
                forall|j: int| 0 <= j < k ==> regs@[j] == 0u64,
            decreases 32 - k,
        {
            regs.push(0u64);
            k = k + 1;
        }
        proof {
            assert(regs@ =~= Seq::new(32, |j: int| 0u64));
        }
        MachineState {
            mem,
            regs,
            pc,
            lo_reg: 0,
            hi_reg: 0,
            step_count: 0,
            exited: false,
            exit_code: 0,
        }
    }

    /// Execute exactly one instruction: fetch at the program counter,
    /// decode, apply the register and memory effects, advance the counters.
    /// Either the instruction's full effect is applied, or a failure is
    /// reported and nothing observable changes.
    pub fn step(&mut self) -> (r: Result<(), VmError>)
        requires
            old(self).wf(),
            old(self).step_count < u64::MAX,
        ensures
            final(self).wf(),
            match r {
                Ok(()) => step_error(old(self).snapshot()) == None::<VmError>
                    && final(self).snapshot() == step_apply(old(self).snapshot()),
                Err(e) => step_error(old(self).snapshot()) == Some(e) && final(self).snapshot()
                    == old(self).snapshot(),
            },
    {
        let ghost s0 = self.snapshot();
        if self.exited {
            return Err(VmError::AlreadyExited);
        }
        if self.pc % 4 != 0 {
            return Err(VmError::UnalignedAccess);
        }
        if self.pc + 4 > ADDR_SPACE {
            return Err(VmError::OutOfBounds);
        }
        let pc = self.pc;
        let w0 = self.mem.read_byte(pc);
        let w1 = self.mem.read_byte(pc + 1);
        let w2 = self.mem.read_byte(pc + 2);
        let w3 = self.mem.read_byte(pc + 3);
        proof {
            assert(w0 == insn_byte(s0, 0) && w1 == insn_byte(s0, 1) && w2 == insn_byte(s0, 2) && w3
                == insn_byte(s0, 3));
        }
        if w0 == 0x00 {
            self.pc = self.advance(pc);
            self.step_count = self.step_count + 1;
            proof {
                assert(self.snapshot() =~= step_apply(s0));
            }
            Ok(())
        } else if w0 == 0x01 {
            if w1 >= 32 {
                return Err(VmError::DecodeFailure);
            }
            let imm = (w2 as u64) + 256 * (w3 as u64);
            let v = sign_extend(imm, 16);
            self.regs[w1 as usize] = v;
            self.pc = self.advance(pc);
            self.step_count = self.step_count + 1;
            proof {
                assert(self.snapshot() =~= step_apply(s0));
            }
            Ok(())
        } else if w0 == 0x02 {
            if w1 >= 32 || w2 >= 32 || w3 >= 32 {
                return Err(VmError::DecodeFailure);
            }
            let sum = self.regs[w2 as usize].wrapping_add(self.regs[w3 as usize]);
            proof {
                assert(sum == (s0.regs[w2 as int] + s0.regs[w3 as int]) % 0x1_0000_0000_0000_0000);
            }
            self.regs[w1 as usize] = sum;
            self.pc = self.advance(pc);
            self.step_count = self.step_count + 1;
            proof {
                assert(self.snapshot() =~= step_apply(s0));
            }
            Ok(())
        } else if w0 == 0x03 {
            if w1 >= 32 || w2 >= 32 {
                return Err(VmError::DecodeFailure);
            }
            let base = self.regs[w1 as usize];
            if base > ADDR_SPACE || (w3 as u64) >= ADDR_SPACE - base {
                proof {
                    assert(s0.regs[w1 as int] + w3 >= ADDR_SPACE);
                }
                return Err(VmError::OutOfBounds);
            }
            let ea = base + w3 as u64;
            let lowbyte = (self.regs[w2 as usize] % 256) as u8;
            self.mem.write_byte(ea, lowbyte);
            self.pc = self.advance(pc);
            self.step_count = self.step_count + 1;
            proof {
                assert(lowbyte == (s0.regs[w2 as int] % 256) as u8);
                assert(self.snapshot() =~= step_apply(s0));
            }
            Ok(())
        } else if w0 == 0x04 {
            if w1 >= 32 || w2 >= 32 {
                return Err(VmError::DecodeFailure);
            }
            let base = self.regs[w2 as usize];
            if base > ADDR_SPACE || (w3 as u64) >= ADDR_SPACE - base {
                return Err(VmError::OutOfBounds);
            }
            let ea = base + w3 as u64;
            let byte = self.mem.read_byte(ea);
            let v = sign_extend(byte as u64, 8);
            self.regs[w1 as usize] = v;
            self.pc = self.advance(pc);
            self.step_count = self.step_count + 1;
            proof {
                assert(self.snapshot() =~= step_apply(s0));
            }
            Ok(())
        } else if w0 == 0x05 {
            if w1 >= 32 {
                return Err(VmError::DecodeFailure);
            }
            let t = self.regs[w1 as usize];
            if t >= ADDR_SPACE {
                return Err(VmError::OutOfBounds);
            }
            if t % 4 != 0 {
                return Err(VmError::UnalignedAccess);
            }
            self.pc = t;
            self.step_count = self.step_count + 1;
            proof {
                assert(self.snapshot() =~= step_apply(s0));
            }
            Ok(())
        } else if w0 == 0x06 {
            if w1 >= 32 || w2 >= 32 {
                return Err(VmError::DecodeFailure);
            }
            let base = self.regs[w1 as usize];
            if base >= ADDR_SPACE || (w3 as u64) + 4 > ADDR_SPACE - base {
                proof {
                    assert(s0.regs[w1 as int] + w3 + 4 > ADDR_SPACE);
                }
                return Err(VmError::OutOfBounds);
            }
            let ea = base + w3 as u64;
            if ea % 4 != 0 {
                return Err(VmError::UnalignedAccess);
            }
            let x = self.regs[w2 as usize];
            self.mem.write_byte(ea, #[verifier::truncate] (x as u8));
            self.mem.write_byte(ea + 1, #[verifier::truncate] ((x >> 8u64) as u8));
            self.mem.write_byte(ea + 2, #[verifier::truncate] ((x >> 16u64) as u8));
            self.mem.write_byte(ea + 3, #[verifier::truncate] ((x >> 24u64) as u8));
            self.pc = self.advance(pc);
            self.step_count = self.step_count + 1;
            proof {
                assert((#[verifier::truncate] (x as u8)) == (x & 0xff) as u8) by (bit_vector);
                assert((#[verifier::truncate] ((x >> 8u64) as u8)) == ((x >> 8u64) & 0xff) as u8)
                    by (bit_vector);
                assert((#[verifier::truncate] ((x >> 16u64) as u8)) == ((x >> 16u64) & 0xff) as u8)
                    by (bit_vector);
                assert((#[verifier::truncate] ((x >> 24u64) as u8)) == ((x >> 24u64) & 0xff) as u8)
                    by (bit_vector);
                assert(self.snapshot() =~= step_apply(s0));
            }
            Ok(())
        } else if w0 == 0x07 {
            if w1 >= 32 || w2 >= 32 {
                return Err(VmError::DecodeFailure);
            }
            let base = self.regs[w2 as usize];
            if base >= ADDR_SPACE || (w3 as u64) + 4 > ADDR_SPACE - base {
                proof {
                    assert(s0.regs[w2 as int] + w3 + 4 > ADDR_SPACE);
                }
                return Err(VmError::OutOfBounds);
            }
            let ea = base + w3 as u64;
            if ea % 4 != 0 {
                return Err(VmError::UnalignedAccess);
            }
            let b0 = self.mem.read_byte(ea);
            let b1 = self.mem.read_byte(ea + 1);
            let b2 = self.mem.read_byte(ea + 2);
            let b3 = self.mem.read_byte(ea + 3);
            let w = (b0 as u64) + 256 * (b1 as u64) + 65536 * (b2 as u64) + 16777216 * (b3 as u64);
            let v = sign_extend(w, 32);
            self.regs[w1 as usize] = v;
            self.pc = self.advance(pc);
            self.step_count = self.step_count + 1;
            proof {
                assert(self.snapshot() =~= step_apply(s0));
            }
            Ok(())
        } else if w0 == 0x08 {
            if w1 >= 32 || w2 >= 32 {
                return Err(VmError::DecodeFailure);
            }
            let xa = self.regs[w1 as usize];
            let xb = self.regs[w2 as usize];
            proof {
                assert((xa as int) * (xb as int) < 0x1_0000_0000_0000_0000_0000_0000_0000_0000)
                    by (nonlinear_arith)
                    requires
                        xa <= 0xffff_ffff_ffff_ffffu64,
                        xb <= 0xffff_ffff_ffff_ffffu64,
                ;
            }
            let prod = (xa as u128) * (xb as u128);
            let lo = xa.wrapping_mul(xb);
            proof {
                assert((prod >> 64u128) < 0x1_0000_0000_0000_0000) by (bit_vector);
            }
            let hi = (prod >> 64u128) as u64;
            proof {
                let p = (s0.regs[w1 as int] as int) * (s0.regs[w2 as int] as int);
                assert(prod == p && lo == p % 0x1_0000_0000_0000_0000) by (nonlinear_arith)
                    requires
                        prod == (s0.regs[w1 as int] as u128) * (s0.regs[w2 as int] as u128),
                        p == (s0.regs[w1 as int] as int) * (s0.regs[w2 as int] as int),
                        lo == ((s0.regs[w1 as int] as nat) * (s0.regs[w2 as int] as nat)) % (
                        0x1_0000_0000_0000_0000 as nat),
                ;
                assert(prod >> 64u128 == prod / 0x1_0000_0000_0000_0000) by (bit_vector);
            }
            self.lo_reg = lo;
            self.hi_reg = hi;
            self.pc = self.advance(pc);
            self.step_count = self.step_count + 1;
            proof {
                assert(self.snapshot() =~= step_apply(s0));
            }
            Ok(())
        } else if w0 == 0xff {
            self.exited = true;
            self.exit_code = w1;
            self.step_count = self.step_count + 1;
            proof {
                assert(self.snapshot() =~= step_apply(s0));
            }
            Ok(())
        } else {
            Err(VmError::DecodeFailure)
        }
    }

    /// A single fixed-size digest binding the register file, program
    /// counter, auxiliary registers, step counter, exit status, and the
    /// memory's current merkle root: the value an external verifier
    /// compares without needing the full memory image.
    pub fn state_commitment(&mut self) -> (r: [u8; 32])
        requires
            old(self).wf(),
        ensures
            final(self).wf(),
            final(self).snapshot() == old(self).snapshot(),
            r@ == commitment_spec(old(self).snapshot()),
    {
        let mut enc: Vec<u8> = Vec::new();
        let mut k: usize = 0;
        while k < 32
            invariant
                old(self).wf(),
                *self == *old(self),
                k <= 32,
                enc@ == regs_le_bytes(self.regs@, k as int),
            decreases 32 - k,
        {
            push_u64_le(&mut enc, self.regs[k]);
            k = k + 1;
        }
        push_u64_le(&mut enc, self.pc);
        push_u64_le(&mut enc, self.lo_reg);
        push_u64_le(&mut enc, self.hi_reg);
        push_u64_le(&mut enc, self.step_count);
        if self.exited {
            enc.push(1u8);
        } else {
            enc.push(0u8);
        }
        enc.push(self.exit_code);
        let ghost base = enc@;
        let root = self.mem.merkle_root();
        let mut j: usize = 0;
        while j < 32
            invariant
                j <= 32,
                root@.len() == 32,
                enc@ == base + root@.take(j as int),
            decreases 32 - j,
        {
            enc.push(root[j]);
            proof {
                assert(enc@ =~= base + root@.take(j + 1));
            }
            j = j + 1;
        }
        proof {
            assert(root@.take(32) =~= root@);
            assert(self.snapshot() =~= old(self).snapshot());
            assert(enc@ =~= encode_state(old(self).snapshot()));
        }
        keccak256(enc.as_slice())
    }

    /// The wrapped sequential successor of a program counter.
    fn advance(&self, pc: u64) -> (r: u64)
        requires
            pc + 4 <= ADDR_SPACE,
        ensures
            r == next_pc(pc),
            r < ADDR_SPACE,
    {
        if pc + 4 == ADDR_SPACE {
            0
        } else {
            pc + 4
        }
    }
}

/// One 64-bit value as eight little-endian bytes.
pub open spec fn u64_le(x: u64) -> Seq<u8> {
    seq![
        (x & 0xff) as u8,
        ((x >> 8u64) & 0xff) as u8,
        ((x >> 16u64) & 0xff) as u8,
        ((x >> 24u64) & 0xff) as u8,
        ((x >> 32u64) & 0xff) as u8,
        ((x >> 40u64) & 0xff) as u8,
        ((x >> 48u64) & 0xff) as u8,
        ((x >> 56u64) & 0xff) as u8,
    ]
}

/// The little-endian bytes of the first `n` registers, in order.
pub open spec fn regs_le_bytes(regs: Seq<u64>, n: int) -> Seq<u8>
    decreases n,
{
    if n <= 0 {
        Seq::empty()
    } else {
        regs_le_bytes(regs, n - 1) + u64_le(regs[n - 1])
    }
}

/// The fixed byte layout the state commitment binds: the 32 registers, the
/// program counter, the multiply result registers, the step counter, the
/// exit flag and code, and the memory's root digest, in that order.
pub open spec fn encode_state(v: MachineView) -> Seq<u8> {
    regs_le_bytes(v.regs, 32) + u64_le(v.pc) + u64_le(v.lo_reg) + u64_le(v.hi_reg) + u64_le(
        v.step_count,
    ) + seq![if v.exited { 1u8 } else { 0u8 }, v.exit_code] + node_hash(v.mem, TREE_DEPTH as nat, 0)
}

/// The state commitment: the digest of the encoded observable state.
pub open spec fn commitment_spec(v: MachineView) -> Seq<u8> {
    keccak_of(encode_state(v))
}

/// Any two machines with identical externally observable state produce
/// identical commitments, whatever their internal cache state.
pub proof fn lemma_commitment_deterministic(a: MachineState, b: MachineState)
    requires
        a.snapshot() == b.snapshot(),
    ensures
        commitment_spec(a.snapshot()) == commitment_spec(b.snapshot()),
{
}

/// Append the eight little-endian bytes of `x`.
fn push_u64_le(v: &mut Vec<u8>, x: u64)
    ensures
        final(v)@ == old(v)@ + u64_le(x),
{
    proof {
        assert((x & 0xff) < 256 && ((x >> 8u64) & 0xff) < 256 && ((x >> 16u64) & 0xff) < 256 && ((x
            >> 24u64) & 0xff) < 256 && ((x >> 32u64) & 0xff) < 256 && ((x >> 40u64) & 0xff) < 256
            && ((x >> 48u64) & 0xff) < 256 && ((x >> 56u64) & 0xff) < 256) by (bit_vector);
    }
    v.push((x & 0xff) as u8);
    v.push(((x >> 8u64) & 0xff) as u8);
    v.push(((x >> 16u64) & 0xff) as u8);
    v.push(((x >> 24u64) & 0xff) as u8);
    v.push(((x >> 32u64) & 0xff) as u8);
    v.push(((x >> 40u64) & 0xff) as u8);
    v.push(((x >> 48u64) & 0xff) as u8);
    v.push(((x >> 56u64) & 0xff) as u8);
    proof {
        assert(v@ =~= old(v)@ + u64_le(x));
    }
}

} // verus!
