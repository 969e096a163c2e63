use vstd::prelude::*;

use crate::display::{draw_rel, first_held_from};
use crate::proc::{Proc, Registers};
use crate::shared_memory::{SharedMemory, PHYS_MEM_SIZE};
use crate::syscall::SyscallOutcome;

verus! {

broadcast use vstd::array::group_array_axioms;

// Instruction decoding: `OXYZ` nibbles, `NNN` address, `KK` immediate.
pub open spec fn instr_op(i: u16) -> u16 {
    i >> 12
}

pub open spec fn instr_nnn(i: u16) -> u16 {
    i & 0x0FFF
}

pub open spec fn instr_x(i: u16) -> u16 {
    (i >> 8) & 0xF
}

pub open spec fn instr_y(i: u16) -> u16 {
    (i >> 4) & 0xF
}

pub open spec fn instr_z(i: u16) -> u16 {
    i & 0xF
}

pub open spec fn instr_kk(i: u16) -> u16 {
    i & 0xFF
}

/// Nibble and byte fields of an instruction lie in their natural ranges.
pub proof fn lemma_decode_bounds(i: u16)
    by (bit_vector)
    ensures
        instr_op(i) < 16,
        instr_nnn(i) < 0x1000,
        instr_x(i) < 16,
        instr_y(i) < 16,
        instr_z(i) < 16,
        instr_kk(i) < 256,
{
}

/// 16-bit program-counter advance, wrapping as the register does.
pub open spec fn pc_plus(pc: u16, n: u16) -> u16 {
    if pc + n > 0xFFFF {
        (pc + n - 0x10000) as u16
    } else {
        (pc + n) as u16
    }
}

pub open spec fn wrap16_add(a: u16, b: u16) -> u16 {
    if a + b > 0xFFFF {
        (a + b - 0x10000) as u16
    } else {
        (a + b) as u16
    }
}

pub open spec fn wrap16_sub(a: u16, b: u16) -> u16 {
    if a - b < 0 {
        (a - b + 0x10000) as u16
    } else {
        (a - b) as u16
    }
}

pub open spec fn wrap8_add(a: u8, b: u8) -> u8 {
    if a + b > 0xFF {
        (a + b - 0x100) as u8
    } else {
        (a + b) as u8
    }
}

pub open spec fn wrap8_sub(a: u8, b: u8) -> u8 {
    if a - b < 0 {
        (a - b + 0x100) as u8
    } else {
        (a - b) as u8
    }
}

/// Everything of a process except registers and display is unchanged.
pub open spec fn same_core(a: Proc, b: Proc) -> bool {
    &&& b.page_table@ == a.page_table@
    &&& b.vm_size == a.vm_size
    &&& b.input_mode == a.input_mode
    &&& b.console_mode == a.console_mode
    &&& b.console_input@ == a.console_input@
    &&& b.fds@ == a.fds@
    &&& b.next_fd == a.next_fd
}

/// The display state of two processes is equal.
pub open spec fn same_display(a: Proc, b: Proc) -> bool {
    &&& b.display.buf@ == a.display.buf@
    &&& b.display.key_down@ == a.display.key_down@
    &&& b.display.typed@ == a.display.typed@
    &&& b.display.text_out@ == a.display.text_out@
    &&& b.display.mode == a.display.mode
}

/// All registers but the program counter are equal.
pub open spec fn regs_same_except_pc(a: Registers, b: Registers) -> bool {
    &&& b.V@ == a.V@
    &&& b.DT == a.DT
    &&& b.ST == a.ST
    &&& b.I == a.I
    &&& b.SP == a.SP
}

/// All registers but the program counter and the data registers are equal.
pub open spec fn regs_same_except_pc_v(a: Registers, b: Registers) -> bool {
    &&& b.DT == a.DT
    &&& b.ST == a.ST
    &&& b.I == a.I
    &&& b.SP == a.SP
}

/// Whether keypad key number `k` (a register value) is held on `p`'s display.
pub open spec fn key_down_spec(p: Proc, k: u8) -> bool {
    k < 16 && p.display.key_down@[k as int]
}

/// What one interpreter step came to: a finished instruction with its
/// scheduling outcome, a syscall to be dispatched by the kernel, or a
/// failed instruction fetch.
#[derive(Copy, Clone, Debug, PartialEq, Eq, Structural)]
pub enum StepEvent {
    Completed,
    Blocked,
    Yielded,
    Syscall(u16),
    Fault,
}

/// Relies on rand::random: draws one byte from the thread-local generator.
/// Nothing is promised of the value; callers state what holds of every
/// outcome.
#[verifier::external_body]
fn random_byte() -> u8 {
    rand::random::<u8>()
}

/// `00E0` clear screen, `00EE` return, syscall escape, or no-op.
/// The syscall escape is reported to the caller undispatched, with no state
/// change; every other form advances the machine itself.
pub fn opcode_0x0(proc: &mut Proc, mem: &SharedMemory, instruction: u16) -> (ev: StepEvent)
    requires
        old(proc).wf(),
        mem.wf(),
    ensures
        final(proc).wf(),
        same_core(*old(proc), *final(proc)),
        match ev {
            StepEvent::Syscall(nnn) => {
                &&& 0x100 <= instr_nnn(instruction) < 0x200
                &&& nnn == instr_nnn(instruction)
                &&& final(proc).regs == old(proc).regs
                &&& same_display(*old(proc), *final(proc))
            },
            StepEvent::Completed => {
                &&& !(0x100 <= instr_nnn(instruction) < 0x200)
                &&& final(proc).regs.DT == old(proc).regs.DT
                &&& final(proc).regs.ST == old(proc).regs.ST
                &&& final(proc).regs.I == old(proc).regs.I
                &&& final(proc).regs.V@ == old(proc).regs.V@
                &&& if instruction == 0x00E0 {
                    // clear display
                    &&& final(proc).regs.PC == pc_plus(old(proc).regs.PC, 2)
                    &&& final(proc).regs.SP == old(proc).regs.SP
                    &&& forall|i: int|
                        0 <= i < 64 * 32 ==> !final(proc).display.buf@[i]
                    &&& final(proc).display.key_down@ == old(proc).display.key_down@
                    &&& final(proc).display.typed@ == old(proc).display.typed@
                    &&& final(proc).display.text_out@ == old(proc).display.text_out@
                    &&& final(proc).display.mode == old(proc).display.mode
                } else if instruction == 0x00EE {
                    // return: pop the 16-bit address at SP
                    &&& same_display(*old(proc), *final(proc))
                    &&& if old(proc).regs.SP as int + 2 <= old(proc).vm_size as int {
                        &&& final(proc).regs.PC as int == old(proc).gview(*mem)[old(
                            proc,
                        ).regs.SP as int] * 256 + old(proc).gview(*mem)[old(proc).regs.SP as int
                            + 1]
                        &&& final(proc).regs.SP == wrap16_add(old(proc).regs.SP, 2)
                    } else {
                        // the stack read was out of range: skip the opcode
                        &&& final(proc).regs.PC == pc_plus(old(proc).regs.PC, 2)
                        &&& final(proc).regs.SP == old(proc).regs.SP
                    }
                } else {
                    // any other 0NNN is ignored
                    &&& same_display(*old(proc), *final(proc))
                    &&& final(proc).regs.PC == pc_plus(old(proc).regs.PC, 2)
                    &&& final(proc).regs.SP == old(proc).regs.SP
                }
            },
            _ => false,
        },
{
    proof {
        lemma_decode_bounds(instruction);
        assert((instruction == 0x00E0 || instruction == 0x00EE) ==> (instruction & 0x0FFF)
            < 0x100) by (bit_vector);
    }
    let nnn = instruction & 0x0FFF;
    if instruction == 0x00E0 {
        proc.display.clear_screen();
        proc.regs.PC = proc.regs.PC.wrapping_add(2);
        StepEvent::Completed
    } else if instruction == 0x00EE {
        // stack grows downward; SP points at the top of the stack.
        let sp = proc.regs.SP;
        let hi = match proc.read_u8(mem, sp as u32) {
            Ok(b) => b,
            Err(_) => {
                proc.regs.PC = proc.regs.PC.wrapping_add(2);
                return StepEvent::Completed;
            },
        };
        let lo = match proc.read_u8(mem, sp as u32 + 1) {
            Ok(b) => b,
            Err(_) => {
                proc.regs.PC = proc.regs.PC.wrapping_add(2);
                return StepEvent::Completed;
            },
        };
        let target = ((hi as u16) << 8) | (lo as u16);
        proof {
            assert(target == hi as u16 * 256 + lo as u16) by (bit_vector)
                requires
                    target == ((hi as u16) << 8) | (lo as u16),
                    (hi as u16) < 256,
                    (lo as u16) < 256,
            ;
        }
        proc.regs.PC = target;
        proc.regs.SP = proc.regs.SP.wrapping_add(2);
        StepEvent::Completed
    } else if 0x0100 <= nnn && nnn < 0x0200 {
        // the syscall range is reserved for the host dispatcher.
        StepEvent::Syscall(nnn)
    } else {
        proc.regs.PC = proc.regs.PC.wrapping_add(2);
        StepEvent::Completed
    }
}

/// `1NNN`: jump.
pub fn opcode_0x1(proc: &mut Proc, instruction: u16)
    requires
        old(proc).wf(),
    ensures
        final(proc).wf(),
        same_core(*old(proc), *final(proc)),
        same_display(*old(proc), *final(proc)),
        regs_same_except_pc(old(proc).regs, final(proc).regs),
        final(proc).regs.PC == instr_nnn(instruction),
{
    proc.regs.PC = instruction & 0x0FFF;
}

/// `2NNN`: call. The return address `PC + 2` is pushed as two bytes,
/// high byte at the decremented SP, then control jumps to `NNN`.
pub fn opcode_0x2(proc: &mut Proc, mem: &mut SharedMemory, instruction: u16)
    requires
        old(proc).wf(),
        old(mem).wf(),
    ensures
        final(proc).wf(),
        final(mem).wf(),
        final(mem).bitmap() == old(mem).bitmap(),
        same_core(*old(proc), *final(proc)),
        same_display(*old(proc), *final(proc)),
        final(proc).regs.V@ == old(proc).regs.V@,
        final(proc).regs.DT == old(proc).regs.DT,
        final(proc).regs.ST == old(proc).regs.ST,
        final(proc).regs.I == old(proc).regs.I,
        final(proc).regs.SP == wrap16_sub(old(proc).regs.SP, 2),
        final(proc).regs.PC == instr_nnn(instruction),
        ({
            let sp = wrap16_sub(old(proc).regs.SP, 2) as int;
            let ret = pc_plus(old(proc).regs.PC, 2) as int;
            forall|w: int|
                0 <= w < old(proc).vm_size ==> old(proc).gview(*final(mem))[w] == (if w == sp {
                    (ret / 256) as u8
                } else if w == sp + 1 {
                    (ret % 256) as u8
                } else {
                    old(proc).gview(*old(mem))[w]
                })
        }),
        forall|a: int|
            0 <= a < PHYS_MEM_SIZE && !old(proc).owns_addr(a)
                ==> final(mem).phys_mem@[a] == old(mem).phys_mem@[a],
{
    let ret = proc.regs.PC.wrapping_add(2);
    let hi = (ret >> 8) as u8;
    let lo = (ret & 0xFF) as u8;
    proof {
        assert(hi == ret / 256 && lo == ret % 256) by (bit_vector)
            requires
                hi == (ret >> 8) as u8,
                lo == (ret & 0xFF) as u8,
        ;
    }
    proc.regs.SP = proc.regs.SP.wrapping_sub(2);
    let sp = proc.regs.SP;
    let ghost m0 = *mem;
    let ghost pmid = *proc;
    let r1 = proc.write_u8(mem, sp as u32, hi);
    let ghost m1 = *mem;
    let r2 = proc.write_u8(mem, sp as u32 + 1, lo);
    proc.regs.PC = instruction & 0x0FFF;
    proof {
        lemma_decode_bounds(instruction);
        // the guest view depends only on the page table, which no register
        // write touches.
        pmid.lemma_gview_eq(*old(proc), m0);
        pmid.lemma_gview_eq(*old(proc), m1);
        pmid.lemma_gview_eq(*old(proc), *mem);
        let retv = pc_plus(old(proc).regs.PC, 2) as int;
        assert forall|w: int| 0 <= w < old(proc).vm_size implies old(proc).gview(*mem)[w] == (
        if w == sp as int {
            (retv / 256) as u8
        } else if w == sp as int + 1 {
            (retv % 256) as u8
        } else {
            old(proc).gview(m0)[w]
        }) by {
            if sp as int + 2 <= old(proc).vm_size as int {
                assert(r1 is Ok && r2 is Ok);
                assert(pmid.gview(m1) == pmid.gview(m0).update(sp as int, hi));
                assert(pmid.gview(*mem) == pmid.gview(m1).update(sp as int + 1, lo));
            } else if (sp as int) < old(proc).vm_size as int {
                assert(r1 is Ok && r2 is Err);
                assert(pmid.gview(m1) == pmid.gview(m0).update(sp as int, hi));
                assert(m1.phys_mem@ == mem.phys_mem@);
                assert(pmid.gview(*mem) =~= pmid.gview(m1));
            } else {
                assert(r1 is Err && r2 is Err);
                assert(m0.phys_mem@ == mem.phys_mem@);
                assert(pmid.gview(*mem) =~= pmid.gview(m0));
            }
        }
    }
}

/// `3XKK`: skip the next instruction when `VX == KK`.
pub fn opcode_0x3(proc: &mut Proc, instruction: u16)
    requires
        old(proc).wf(),
    ensures
        final(proc).wf(),
        same_core(*old(proc), *final(proc)),
        same_display(*old(proc), *final(proc)),
        regs_same_except_pc(old(proc).regs, final(proc).regs),
        final(proc).regs.PC == (if old(proc).regs.V@[instr_x(instruction) as int] == instr_kk(
            instruction,
        ) as u8 {
            pc_plus(old(proc).regs.PC, 4)
        } else {
            pc_plus(old(proc).regs.PC, 2)
        }),
{
    proof {
        lemma_decode_bounds(instruction);
    }
    let var_x = ((instruction >> 8) & 0xF) as usize;
    let var_kk = (instruction & 0xFF) as u8;
    if proc.regs.V[var_x] == var_kk {
        proc.regs.PC = proc.regs.PC.wrapping_add(4);
    } else {
        proc.regs.PC = proc.regs.PC.wrapping_add(2);
    }
}

/// `4XKK`: skip the next instruction when `VX != KK`.
pub fn opcode_0x4(proc: &mut Proc, instruction: u16)
    requires
        old(proc).wf(),
    ensures
        final(proc).wf(),
        same_core(*old(proc), *final(proc)),
        same_display(*old(proc), *final(proc)),
        regs_same_except_pc(old(proc).regs, final(proc).regs),
        final(proc).regs.PC == (if old(proc).regs.V@[instr_x(instruction) as int] != instr_kk(
            instruction,
        ) as u8 {
            pc_plus(old(proc).regs.PC, 4)
        } else {
            pc_plus(old(proc).regs.PC, 2)
        }),
{
    proof {
        lemma_decode_bounds(instruction);
    }
    let var_x = ((instruction >> 8) & 0xF) as usize;
    let var_kk = (instruction & 0xFF) as u8;
    if proc.regs.V[var_x] != var_kk {
        proc.regs.PC = proc.regs.PC.wrapping_add(4);
    } else {
        proc.regs.PC = proc.regs.PC.wrapping_add(2);
    }
}

/// `5XY0`: skip the next instruction when `VX == VY`.
pub fn opcode_0x5(proc: &mut Proc, instruction: u16)
    requires
        old(proc).wf(),
    ensures
        final(proc).wf(),
        same_core(*old(proc), *final(proc)),
        same_display(*old(proc), *final(proc)),
        regs_same_except_pc(old(proc).regs, final(proc).regs),
        final(proc).regs.PC == (if old(proc).regs.V@[instr_x(instruction) as int] == old(
            proc,
        ).regs.V@[instr_y(instruction) as int] {
            pc_plus(old(proc).regs.PC, 4)
        } else {
            pc_plus(old(proc).regs.PC, 2)
        }),
{
    proof {
        lemma_decode_bounds(instruction);
    }
    let var_x = ((instruction >> 8) & 0xF) as usize;
    let var_y = ((instruction >> 4) & 0xF) as usize;
    if proc.regs.V[var_x] == proc.regs.V[var_y] {
        proc.regs.PC = proc.regs.PC.wrapping_add(4);
    } else {
        proc.regs.PC = proc.regs.PC.wrapping_add(2);
    }
}

/// `6XKK`: load immediate.
pub fn opcode_0x6(proc: &mut Proc, instruction: u16)
    requires
        old(proc).wf(),
    ensures
        final(proc).wf(),
        same_core(*old(proc), *final(proc)),
        same_display(*old(proc), *final(proc)),
        regs_same_except_pc_v(old(proc).regs, final(proc).regs),
        final(proc).regs.V@ == old(proc).regs.V@.update(
            instr_x(instruction) as int,
            instr_kk(instruction) as u8,
        ),
        final(proc).regs.PC == pc_plus(old(proc).regs.PC, 2),
{
    proof {
        lemma_decode_bounds(instruction);
    }
    let var_x = ((instruction >> 8) & 0xF) as usize;
    let var_kk = (instruction & 0xFF) as u8;
    proc.regs.V[var_x] = var_kk;
    proc.regs.PC = proc.regs.PC.wrapping_add(2);
}

/// `7XKK`: add immediate with 8-bit wraparound; the flag register is not
/// touched.
pub fn opcode_0x7(proc: &mut Proc, instruction: u16)
    requires
        old(proc).wf(),
    ensures
        final(proc).wf(),
        same_core(*old(proc), *final(proc)),
        same_display(*old(proc), *final(proc)),
        regs_same_except_pc_v(old(proc).regs, final(proc).regs),
        final(proc).regs.V@ == old(proc).regs.V@.update(
            instr_x(instruction) as int,
            wrap8_add(
                old(proc).regs.V@[instr_x(instruction) as int],
                instr_kk(instruction) as u8,
            ),
        ),
        final(proc).regs.PC == pc_plus(old(proc).regs.PC, 2),
{
    proof {
        lemma_decode_bounds(instruction);
    }
    let var_x = ((instruction >> 8) & 0xF) as usize;
    let var_kk = (instruction & 0xFF) as u8;
    proc.regs.V[var_x] = proc.regs.V[var_x].wrapping_add(var_kk);
    proc.regs.PC = proc.regs.PC.wrapping_add(2);
}

/// `8XYZ`: register-to-register moves, bit operations, add and subtract
/// with the carry or borrow flag, and shifts. An undefined low nibble
/// leaves the machine unchanged, the program counter included.
pub fn opcode_0x8(proc: &mut Proc, instruction: u16)
    requires
        old(proc).wf(),
    ensures
        final(proc).wf(),
        same_core(*old(proc), *final(proc)),
        same_display(*old(proc), *final(proc)),
        regs_same_except_pc_v(old(proc).regs, final(proc).regs),
        ({
            let x = instr_x(instruction) as int;
            let y = instr_y(instruction) as int;
            let z = instr_z(instruction);
            let vx = old(proc).regs.V@[x];
            let vy = old(proc).regs.V@[y];
            let v0 = old(proc).regs.V@;
            let pc2 = pc_plus(old(proc).regs.PC, 2);
            if z == 0 {
                final(proc).regs.V@ == v0.update(x, vy) && final(proc).regs.PC == pc2
            } else if z == 1 {
                final(proc).regs.V@ == v0.update(x, vx | vy) && final(proc).regs.PC == pc2
            } else if z == 2 {
                final(proc).regs.V@ == v0.update(x, vx & vy) && final(proc).regs.PC == pc2
            } else if z == 3 {
                final(proc).regs.V@ == v0.update(x, vx ^ vy) && final(proc).regs.PC == pc2
            } else if z == 4 {
                // carry: set exactly when the unsigned sum exceeds 0xFF
                final(proc).regs.V@ == v0.update(x, wrap8_add(vx, vy)).update(
                    15,
                    if vx + vy > 0xFF {
                        1u8
                    } else {
                        0u8
                    },
                ) && final(proc).regs.PC == pc2
            } else if z == 5 {
                // borrow flag: set exactly when VX > VY before subtracting
                final(proc).regs.V@ == v0.update(x, wrap8_sub(vx, vy)).update(
                    15,
                    if vx > vy {
                        1u8
                    } else {
                        0u8
                    },
                ) && final(proc).regs.PC == pc2
            } else if z == 6 {
                final(proc).regs.V@ == v0.update(15, vx & 1).update(
                    x,
                    (if x == 15 {
                        vx & 1
                    } else {
                        vx
                    }) >> 1,
                ) && final(proc).regs.PC == pc2
            } else if z == 7 {
                // borrow flag: set exactly when VY > VX
                final(proc).regs.V@ == v0.update(x, wrap8_sub(vy, vx)).update(
                    15,
                    if vy > vx {
                        1u8
                    } else {
                        0u8
                    },
                ) && final(proc).regs.PC == pc2
            } else if z == 0xE {
                final(proc).regs.V@ == v0.update(15, (vx & 0x80) >> 7).update(
                    x,
                    (if x == 15 {
                        (vx & 0x80) >> 7
                    } else {
                        vx
                    }) << 1,
                ) && final(proc).regs.PC == pc2
            } else {
                final(proc).regs.V@ == v0 && final(proc).regs.PC == old(proc).regs.PC
            }
        }),
{
    proof {
        lemma_decode_bounds(instruction);
    }
    let var_z = (instruction & 0xF) as u8;
    let var_x = ((instruction >> 8) & 0xF) as usize;
    let var_y = ((instruction >> 4) & 0xF) as usize;
    match var_z {
        0x00 => {
            proc.regs.V[var_x] = proc.regs.V[var_y];
            proc.regs.PC = proc.regs.PC.wrapping_add(2);
        },
        0x01 => {
            proc.regs.V[var_x] = proc.regs.V[var_x] | proc.regs.V[var_y];
            proc.regs.PC = proc.regs.PC.wrapping_add(2);
        },
        0x02 => {
            proc.regs.V[var_x] = proc.regs.V[var_x] & proc.regs.V[var_y];
            proc.regs.PC = proc.regs.PC.wrapping_add(2);
        },
        0x03 => {
            proc.regs.V[var_x] = proc.regs.V[var_x] ^ proc.regs.V[var_y];
            proc.regs.PC = proc.regs.PC.wrapping_add(2);
        },
        0x04 => {
            let v_x = proc.regs.V[var_x];
            let v_y = proc.regs.V[var_y];
            proc.regs.V[var_x] = v_x.wrapping_add(v_y);
            if (v_x as u16) + (v_y as u16) > 0xFF {
                proc.regs.V[0xF] = 1;
            } else {
                proc.regs.V[0xF] = 0;
            }
            proc.regs.PC = proc.regs.PC.wrapping_add(2);
        },
        0x05 => {
            let v_x = proc.regs.V[var_x];
            let v_y = proc.regs.V[var_y];
            proc.regs.V[var_x] = v_x.wrapping_sub(v_y);
            if v_x > v_y {
                proc.regs.V[0xF] = 1;
            } else {
                proc.regs.V[0xF] = 0;
            }
            proc.regs.PC = proc.regs.PC.wrapping_add(2);
        },
        0x06 => {
            proc.regs.V[0xF] = proc.regs.V[var_x] & 1;
            proc.regs.V[var_x] = proc.regs.V[var_x] >> 1;
            proc.regs.PC = proc.regs.PC.wrapping_add(2);
        },
        0x07 => {
            let v_x = proc.regs.V[var_x];
            let v_y = proc.regs.V[var_y];
            proc.regs.V[var_x] = v_y.wrapping_sub(v_x);
            if v_y > v_x {
                proc.regs.V[0xF] = 1;
            } else {
                proc.regs.V[0xF] = 0;
            }
            proc.regs.PC = proc.regs.PC.wrapping_add(2);
        },
        0x0E => {
            proc.regs.V[0xF] = (proc.regs.V[var_x] & 0x80) >> 7;
            proc.regs.V[var_x] = proc.regs.V[var_x] << 1;
            proc.regs.PC = proc.regs.PC.wrapping_add(2);
        },
        _ => {},
    }
}

/// `9XY0`: skip the next instruction when `VX != VY`.
pub fn opcode_0x9(proc: &mut Proc, instruction: u16)
    requires
        old(proc).wf(),
    ensures
        final(proc).wf(),
        same_core(*old(proc), *final(proc)),
        same_display(*old(proc), *final(proc)),
        regs_same_except_pc(old(proc).regs, final(proc).regs),
        final(proc).regs.PC == (if old(proc).regs.V@[instr_x(instruction) as int] != old(
            proc,
        ).regs.V@[instr_y(instruction) as int] {
            pc_plus(old(proc).regs.PC, 4)
        } else {
            pc_plus(old(proc).regs.PC, 2)
        }),
{
    proof {
        lemma_decode_bounds(instruction);
    }
    let var_x = ((instruction >> 8) & 0xF) as usize;
    let var_y = ((instruction >> 4) & 0xF) as usize;
    if proc.regs.V[var_x] != proc.regs.V[var_y] {
        proc.regs.PC = proc.regs.PC.wrapping_add(4);
    } else {
        proc.regs.PC = proc.regs.PC.wrapping_add(2);
    }
}

/// `ANNN`: load the address register.
#[allow(non_snake_case)]
pub fn opcode_0xA(proc: &mut Proc, instruction: u16)
    requires
        old(proc).wf(),
    ensures
        final(proc).wf(),
        same_core(*old(proc), *final(proc)),
        same_display(*old(proc), *final(proc)),
        final(proc).regs.V@ == old(proc).regs.V@,
        final(proc).regs.DT == old(proc).regs.DT,
        final(proc).regs.ST == old(proc).regs.ST,
        final(proc).regs.SP == old(proc).regs.SP,
        final(proc).regs.I == instr_nnn(instruction),
        final(proc).regs.PC == pc_plus(old(proc).regs.PC, 2),
{
    proc.regs.I = instruction & 0x0FFF;
    proc.regs.PC = proc.regs.PC.wrapping_add(2);
}

/// `BNNN`: jump to `NNN + V0`.
#[allow(non_snake_case)]
pub fn opcode_0xB(proc: &mut Proc, instruction: u16)
    requires
        old(proc).wf(),
    ensures
        final(proc).wf(),
        same_core(*old(proc), *final(proc)),
        same_display(*old(proc), *final(proc)),
        regs_same_except_pc(old(proc).regs, final(proc).regs),
        final(proc).regs.PC as int == instr_nnn(instruction) + old(proc).regs.V@[0],
{
    proof {
        lemma_decode_bounds(instruction);
    }
    proc.regs.PC = (instruction & 0x0FFF) + (proc.regs.V[0] as u16);
}

/// `CXKK`: load a random byte masked by `KK`. Which byte is drawn is not
/// specified; only the mask is.
#[allow(non_snake_case)]
pub fn opcode_0xC(proc: &mut Proc, instruction: u16)
    requires
        old(proc).wf(),
    ensures
        final(proc).wf(),
        same_core(*old(proc), *final(proc)),
        same_display(*old(proc), *final(proc)),
        regs_same_except_pc_v(old(proc).regs, final(proc).regs),
        forall|k: int|
            0 <= k < 16 && k != instr_x(instruction) as int
                ==> final(proc).regs.V@[k] == old(proc).regs.V@[k],
        final(proc).regs.V@[instr_x(instruction) as int] & instr_kk(instruction) as u8
            == final(proc).regs.V@[instr_x(instruction) as int],
        final(proc).regs.PC == pc_plus(old(proc).regs.PC, 2),
{
    proof {
        lemma_decode_bounds(instruction);
    }
    let var_x = ((instruction >> 8) & 0xF) as usize;
    let var_kk = (instruction & 0xFF) as u8;
    let random_value: u8 = random_byte();
    let masked = random_value & var_kk;
    proof {
        assert(masked & var_kk == masked) by (bit_vector)
            requires
                masked == random_value & var_kk,
        ;
    }
    proc.regs.V[var_x] = masked;
    proc.regs.PC = proc.regs.PC.wrapping_add(2);
}

/// `DXYZ`: draw a `Z`-byte sprite read from guest memory at `I` at
/// coordinates `(VX, VY)`, XORing pixels with wraparound; the flag
/// register reports whether any pixel went from on to off. A sprite read
/// that runs out of the address space draws nothing.
#[allow(non_snake_case)]
pub fn opcode_0xD(proc: &mut Proc, mem: &SharedMemory, instruction: u16)
    requires
        old(proc).wf(),
        mem.wf(),
    ensures
        final(proc).wf(),
        same_core(*old(proc), *final(proc)),
        regs_same_except_pc_v(old(proc).regs, final(proc).regs),
        final(proc).regs.PC == pc_plus(old(proc).regs.PC, 2),
        ({
            let x = instr_x(instruction) as int;
            let y = instr_y(instruction) as int;
            let z = instr_z(instruction) as int;
            let vi = old(proc).regs.I as int;
            if z == 0 || vi + z <= old(proc).vm_size as int {
                let sprite = Seq::new(z as nat, |j: int| old(proc).gview(*mem)[vi + j]);
                &&& exists|col: bool|
                    draw_rel(
                        old(proc).display,
                        final(proc).display,
                        sprite,
                        old(proc).regs.V@[x],
                        old(proc).regs.V@[y],
                        col,
                    ) && final(proc).regs.V@ == old(proc).regs.V@.update(
                        15,
                        if col {
                            1u8
                        } else {
                            0u8
                        },
                    )
            } else {
                &&& same_display(*old(proc), *final(proc))
                &&& final(proc).regs.V@ == old(proc).regs.V@
            }
        }),
{
    proof {
        lemma_decode_bounds(instruction);
    }
    let var_x = ((instruction >> 8) & 0xF) as usize;
    let var_y = ((instruction >> 4) & 0xF) as usize;
    let var_z = (instruction & 0xF) as usize;
    let x = proc.regs.V[var_x];
    let y = proc.regs.V[var_y];
    let addr = proc.regs.I as u32;
    let sprite = match proc.read_bytes(mem, addr, var_z) {
        Ok(s) => s,
        Err(_) => {
            proc.regs.PC = proc.regs.PC.wrapping_add(2);
            return ;
        },
    };
    proof {
        assert(sprite@ =~= Seq::new(
            instr_z(instruction) as nat,
            |j: int| old(proc).gview(*mem)[old(proc).regs.I as int + j],
        ));
    }
    let col = proc.display.draw_sprite(&sprite, x, y);
    if col {
        proc.regs.V[0xF] = 1;
    } else {
        proc.regs.V[0xF] = 0;
    }
    proof {
        let z = instr_z(instruction) as int;
        let vi = old(proc).regs.I as int;
        let sprite_spec = Seq::new(z as nat, |j: int| old(proc).gview(*mem)[vi + j]);
        assert(sprite@ =~= sprite_spec);
        assert(draw_rel(
            old(proc).display,
            proc.display,
            sprite_spec,
            old(proc).regs.V@[instr_x(instruction) as int],
            old(proc).regs.V@[instr_y(instruction) as int],
            col,
        ));
        assert(proc.regs.V@ =~= old(proc).regs.V@.update(
            15,
            if col {
                1u8
            } else {
                0u8
            },
        ));
    }
    proc.regs.PC = proc.regs.PC.wrapping_add(2);
}

/// `EX9E` / `EXA1`: skip the next instruction depending on whether the key
/// numbered by `VX` is held. Any other `EXKK` form leaves the machine
/// unchanged.
#[allow(non_snake_case)]
pub fn opcode_0xE(proc: &mut Proc, instruction: u16)
    requires
        old(proc).wf(),
    ensures
        final(proc).wf(),
        same_core(*old(proc), *final(proc)),
        same_display(*old(proc), *final(proc)),
        regs_same_except_pc(old(proc).regs, final(proc).regs),
        ({
            let kk = instr_kk(instruction);
            let held = key_down_spec(*old(proc), old(proc).regs.V@[instr_x(instruction) as int]);
            if kk == 0x9E {
                final(proc).regs.PC == (if held {
                    pc_plus(old(proc).regs.PC, 4)
                } else {
                    pc_plus(old(proc).regs.PC, 2)
                })
            } else if kk == 0xA1 {
                final(proc).regs.PC == (if !held {
                    pc_plus(old(proc).regs.PC, 4)
                } else {
                    pc_plus(old(proc).regs.PC, 2)
                })
            } else {
                final(proc).regs.PC == old(proc).regs.PC
            }
        }),
{
    proof {
        lemma_decode_bounds(instruction);
    }
    let var_x = ((instruction >> 8) & 0xF) as usize;
    let var_kk = (instruction & 0xFF) as u8;
    match var_kk {
        0x9E => {
            let key = proc.regs.V[var_x];
            if proc.is_key_down(key) {
                proc.regs.PC = proc.regs.PC.wrapping_add(4);
            } else {
                proc.regs.PC = proc.regs.PC.wrapping_add(2);
            }
        },
        0xA1 => {
            let key = proc.regs.V[var_x];
            if !proc.is_key_down(key) {
                proc.regs.PC = proc.regs.PC.wrapping_add(4);
            } else {
                proc.regs.PC = proc.regs.PC.wrapping_add(2);
            }
        },
        _ => {},
    }
}

/// Law: call/return symmetry. A `2NNN` call pushes exactly the two bytes
/// of the return address at the decremented stack pointer, and a `00EE`
/// executed on the resulting machine restores the program counter to the
/// instruction after the call and the stack pointer to its pre-call
/// value. The quantified premises are exactly what `opcode_0x2` and
/// `opcode_0x0` ensure; `p0`/`m0` is the machine before the call, `p1`/`m1`
/// after it, and `p2` after the return.
pub proof fn lemma_call_return_roundtrip(
    p0: Proc,
    p1: Proc,
    p2: Proc,
    m0: SharedMemory,
    m1: SharedMemory,
)
    requires
        p0.wf(),
        p1.wf(),
        p1.page_table@ == p0.page_table@,
        p1.vm_size == p0.vm_size,
        wrap16_sub(p0.regs.SP, 2) as int + 2 <= p0.vm_size as int,
        p1.regs.SP == wrap16_sub(p0.regs.SP, 2),
        forall|w: int|
            0 <= w < p0.vm_size ==> p0.gview(m1)[w] == (if w == wrap16_sub(p0.regs.SP, 2) as int {
                (pc_plus(p0.regs.PC, 2) as int / 256) as u8
            } else if w == wrap16_sub(p0.regs.SP, 2) as int + 1 {
                (pc_plus(p0.regs.PC, 2) as int % 256) as u8
            } else {
                p0.gview(m0)[w]
            }),
        p2.regs.PC as int == p1.gview(m1)[p1.regs.SP as int] * 256 + p1.gview(m1)[p1.regs.SP as int
            + 1],
        p2.regs.SP == wrap16_add(p1.regs.SP, 2),
    ensures
        p2.regs.PC == pc_plus(p0.regs.PC, 2),
        p2.regs.SP == p0.regs.SP,
        forall|w: int|
            0 <= w < p0.vm_size && w != p1.regs.SP as int && w != p1.regs.SP as int + 1
                ==> p0.gview(m1)[w] == p0.gview(m0)[w],
{
    p1.lemma_gview_eq(p0, m1);
    let ret = pc_plus(p0.regs.PC, 2) as int;
    vstd::arithmetic::div_mod::lemma_fundamental_div_mod(ret, 256);
    vstd::arithmetic::div_mod::lemma_mod_bound(ret, 256);
    let sp = wrap16_sub(p0.regs.SP, 2) as int;
    assert(p1.gview(m1)[sp] == (ret / 256) as u8);
    assert(p1.gview(m1)[sp + 1] == (ret % 256) as u8);
    assert(ret / 256 < 256);
    assert(p2.regs.PC as int == ret);
}

/// Timer decrement applied per step: the tick count clamped to one byte.
pub open spec fn tick_dec(ticks: u32) -> u8 {
    if ticks > 255 {
        255u8
    } else {
        ticks as u8
    }
}

/// 8-bit subtraction saturating at zero, as the timers decay.
pub open spec fn sat_sub8(a: u8, b: u8) -> u8 {
    if a - b < 0 {
        0u8
    } else {
        (a - b) as u8
    }
}

/// The 16-bit big-endian instruction at the program counter.
pub open spec fn fetched_instr(p: Proc, m: SharedMemory) -> u16 {
    (p.gview(m)[p.regs.PC as int] * 256 + p.gview(m)[p.regs.PC as int + 1]) as u16
}

/// Instruction forms the interpreter leaves untouched: they advance
/// nothing, the program counter included.
pub open spec fn undefined_instr(fi: u16) -> bool {
    ||| (instr_op(fi) == 0x8 && !(instr_z(fi) <= 7 || instr_z(fi) == 0xE))
    ||| (instr_op(fi) == 0xE && instr_kk(fi) != 0x9E && instr_kk(fi) != 0xA1)
    ||| (instr_op(fi) == 0xF && instr_kk(fi) != 0x07 && instr_kk(fi) != 0x0A && instr_kk(fi)
        != 0x15 && instr_kk(fi) != 0x18 && instr_kk(fi) != 0x1E && instr_kk(fi) != 0x29
        && instr_kk(fi) != 0x33 && instr_kk(fi) != 0x55 && instr_kk(fi) != 0x65)
}

/// After one step of instruction `fi`, the program counter moved in
/// exactly one of the sanctioned ways: sequential advance, a skip, a jump
/// or call target, a popped return address, or - only for a blocked key
/// wait or an undefined form - not at all.
pub open spec fn pc_discipline(pre: Proc, post: Proc, m: SharedMemory, fi: u16, blocked: bool) -> bool {
    ||| post.regs.PC == pc_plus(pre.regs.PC, 2)
    ||| post.regs.PC == pc_plus(pre.regs.PC, 4)
    ||| post.regs.PC == instr_nnn(fi)
    ||| post.regs.PC as int == instr_nnn(fi) + pre.regs.V@[0]
    ||| (fi == 0x00EE && pre.regs.SP as int + 2 <= pre.vm_size as int && post.regs.PC as int
        == pre.gview(m)[pre.regs.SP as int] * 256 + pre.gview(m)[pre.regs.SP as int + 1])
    ||| (blocked && post.regs.PC == pre.regs.PC)
    ||| (undefined_instr(fi) && post.regs.PC == pre.regs.PC)
}

/// `FX..`: timers, key wait, address arithmetic, font addressing, BCD,
/// and bulk register store/load. An undefined `KK` leaves the machine
/// unchanged. Only `FX0A` with no key held blocks.
#[allow(non_snake_case)]
pub fn opcode_0xF(proc: &mut Proc, mem: &mut SharedMemory, instruction: u16) -> (outcome:
    SyscallOutcome)
    requires
        old(proc).wf(),
        old(mem).wf(),
    ensures
        final(proc).wf(),
        final(mem).wf(),
        final(mem).bitmap() == old(mem).bitmap(),
        same_core(*old(proc), *final(proc)),
        same_display(*old(proc), *final(proc)),
        forall|a: int|
            0 <= a < PHYS_MEM_SIZE && !old(proc).owns_addr(a)
                ==> final(mem).phys_mem@[a] == old(mem).phys_mem@[a],
        ({
            let kk = instr_kk(instruction);
            let x = instr_x(instruction) as int;
            let r0 = old(proc).regs;
            let r1 = final(proc).regs;
            let vx = r0.V@[x];
            let vi = r0.I as int;
            let vm = old(proc).vm_size as int;
            let pc2 = pc_plus(r0.PC, 2);
            let g0 = old(proc).gview(*old(mem));
            let g1 = old(proc).gview(*final(mem));
            if kk == 0x07 {
                &&& r1.V@ == r0.V@.update(x, r0.DT)
                &&& r1.DT == r0.DT && r1.ST == r0.ST && r1.I == r0.I && r1.SP == r0.SP
                &&& r1.PC == pc2
                &&& final(mem).phys_mem@ == old(mem).phys_mem@
                &&& outcome == SyscallOutcome::Completed
            } else if kk == 0x0A {
                match first_held_from(old(proc).display.key_down@, 0) {
                    Some(key) => {
                        &&& r1.V@ == r0.V@.update(x, key)
                        &&& r1.DT == r0.DT && r1.ST == r0.ST && r1.I == r0.I && r1.SP == r0.SP
                        &&& r1.PC == pc2
                        &&& final(mem).phys_mem@ == old(mem).phys_mem@
                        &&& outcome == SyscallOutcome::Completed
                    },
                    None => {
                        &&& r1 == r0
                        &&& final(mem).phys_mem@ == old(mem).phys_mem@
                        &&& outcome == SyscallOutcome::Blocked
                    },
                }
            } else if kk == 0x15 {
                &&& r1.V@ == r0.V@ && r1.DT == vx && r1.ST == r0.ST && r1.I == r0.I && r1.SP
                    == r0.SP
                &&& r1.PC == pc2
                &&& final(mem).phys_mem@ == old(mem).phys_mem@
                &&& outcome == SyscallOutcome::Completed
            } else if kk == 0x18 {
                &&& r1.V@ == r0.V@ && r1.DT == r0.DT && r1.ST == vx && r1.I == r0.I && r1.SP
                    == r0.SP
                &&& r1.PC == pc2
                &&& final(mem).phys_mem@ == old(mem).phys_mem@
                &&& outcome == SyscallOutcome::Completed
            } else if kk == 0x1E {
                &&& r1.V@ == r0.V@ && r1.DT == r0.DT && r1.ST == r0.ST && r1.SP == r0.SP
                &&& r1.I == wrap16_add(r0.I, vx as u16)
                &&& r1.PC == pc2
                &&& final(mem).phys_mem@ == old(mem).phys_mem@
                &&& outcome == SyscallOutcome::Completed
            } else if kk == 0x29 {
                &&& r1.V@ == r0.V@ && r1.DT == r0.DT && r1.ST == r0.ST && r1.SP == r0.SP
                &&& r1.I as int == vx * 5
                &&& r1.PC == pc2
                &&& final(mem).phys_mem@ == old(mem).phys_mem@
                &&& outcome == SyscallOutcome::Completed
            } else if kk == 0x33 {
                &&& r1.V@ == r0.V@ && r1.DT == r0.DT && r1.ST == r0.ST && r1.I == r0.I && r1.SP
                    == r0.SP
                &&& r1.PC == pc2
                &&& forall|w: int|
                    0 <= w < vm ==> g1[w] == (if w == vi {
                        (vx as int / 100) as u8
                    } else if w == vi + 1 {
                        ((vx as int % 100) / 10) as u8
                    } else if w == vi + 2 {
                        (vx as int % 10) as u8
                    } else {
                        g0[w]
                    })
                &&& outcome == SyscallOutcome::Completed
            } else if kk == 0x55 {
                let cnt = x + 1;
                let k = if vi >= vm {
                    0int
                } else if vi + cnt <= vm {
                    cnt
                } else {
                    vm - vi
                };
                &&& r1.V@ == r0.V@ && r1.DT == r0.DT && r1.ST == r0.ST && r1.SP == r0.SP
                &&& r1.I == wrap16_add(r0.I, (x + 1) as u16)
                &&& r1.PC == pc2
                &&& forall|w: int|
                    0 <= w < vm ==> g1[w] == (if vi <= w < vi + k {
                        r0.V@[w - vi]
                    } else {
                        g0[w]
                    })
                &&& outcome == SyscallOutcome::Completed
            } else if kk == 0x65 {
                &&& r1.DT == r0.DT && r1.ST == r0.ST && r1.SP == r0.SP
                &&& r1.I == wrap16_add(r0.I, (x + 1) as u16)
                &&& r1.PC == pc2
                &&& final(mem).phys_mem@ == old(mem).phys_mem@
                &&& if vi + x + 1 <= vm {
                    &&& forall|j: int| 0 <= j <= x ==> r1.V@[j] == g0[vi + j]
                    &&& forall|j: int| x < j < 16 ==> r1.V@[j] == r0.V@[j]
                } else {
                    r1.V@ == r0.V@
                }
                &&& outcome == SyscallOutcome::Completed
            } else {
                &&& r1 == r0
                &&& final(mem).phys_mem@ == old(mem).phys_mem@
                &&& outcome == SyscallOutcome::Completed
            }
        }),
{
    proof {
        lemma_decode_bounds(instruction);
    }
    let var_x = ((instruction >> 8) & 0xF) as usize;
    let var_kk = (instruction & 0xFF) as u8;
    match var_kk {
        0x07 => {
            proc.regs.V[var_x] = proc.regs.DT;
            proc.regs.PC = proc.regs.PC.wrapping_add(2);
            SyscallOutcome::Completed
        },
        0x0A => {
            let held = proc.last_key();
            match held {
                Some(key) => {
                    proc.regs.V[var_x] = key;
                    proc.regs.PC = proc.regs.PC.wrapping_add(2);
                    SyscallOutcome::Completed
                },
                None => SyscallOutcome::Blocked,
            }
        },
        0x15 => {
            proc.regs.DT = proc.regs.V[var_x];
            proc.regs.PC = proc.regs.PC.wrapping_add(2);
            SyscallOutcome::Completed
        },
        0x18 => {
            proc.regs.ST = proc.regs.V[var_x];
            proc.regs.PC = proc.regs.PC.wrapping_add(2);
            SyscallOutcome::Completed
        },
        0x1E => {
            proc.regs.I = proc.regs.I.wrapping_add(proc.regs.V[var_x] as u16);
            proc.regs.PC = proc.regs.PC.wrapping_add(2);
            SyscallOutcome::Completed
        },
        0x29 => {
            let val = proc.regs.V[var_x] as u16;
            proc.regs.I = val * 0x5;
            proc.regs.PC = proc.regs.PC.wrapping_add(2);
            SyscallOutcome::Completed
        },
        0x33 => {
            let val = proc.regs.V[var_x];
            let hundreds = val / 100;
            let tens = (val % 100) / 10;
            let ones = val % 10;
            let vi = proc.regs.I as u32;
            let ghost m0 = *mem;
            let r1 = proc.write_u8(mem, vi, hundreds);
            let ghost ma = *mem;
            let r2 = proc.write_u8(mem, vi + 1, tens);
            let ghost mb = *mem;
            let r3 = proc.write_u8(mem, vi + 2, ones);
            proof {
                let vm = proc.vm_size as int;
                assert forall|w: int| 0 <= w < vm implies proc.gview(*mem)[w] == (if w == vi
                    as int {
                    (val as int / 100) as u8
                } else if w == vi as int + 1 {
                    ((val as int % 100) / 10) as u8
                } else if w == vi as int + 2 {
                    (val as int % 10) as u8
                } else {
                    proc.gview(m0)[w]
                }) by {
                    if (vi as int) < vm {
                        assert(r1 is Ok);
                        assert(proc.gview(ma) == proc.gview(m0).update(vi as int, hundreds));
                    } else {
                        assert(r1 is Err);
                        assert(ma.phys_mem@ == m0.phys_mem@);
                        assert(proc.gview(ma) =~= proc.gview(m0));
                    }
                    if (vi as int + 1) < vm {
                        assert(r2 is Ok);
                        assert(proc.gview(mb) == proc.gview(ma).update(vi as int + 1, tens));
                    } else {
                        assert(r2 is Err);
                        assert(mb.phys_mem@ == ma.phys_mem@);
                        assert(proc.gview(mb) =~= proc.gview(ma));
                    }
                    if (vi as int + 2) < vm {
                        assert(r3 is Ok);
                        assert(proc.gview(*mem) == proc.gview(mb).update(vi as int + 2, ones));
                    } else {
                        assert(r3 is Err);
                        assert(mem.phys_mem@ == mb.phys_mem@);
                        assert(proc.gview(*mem) =~= proc.gview(mb));
                    }
                }
            }
            proc.regs.PC = proc.regs.PC.wrapping_add(2);
            SyscallOutcome::Completed
        },
        0x55 => {
            let mut data: Vec<u8> = Vec::new();
            let mut k: usize = 0;
            while k <= var_x
                invariant
                    proc.wf(),
                    var_x < 16,
                    k <= var_x + 1,
                    data@.len() == k,
                    forall|j: int| 0 <= j < k ==> data@[j] == proc.regs.V@[j],
                    *proc == *old(proc),
                    *mem == *old(mem),
                decreases var_x + 1 - k,
            {
                data.push(proc.regs.V[k]);
                k = k + 1;
            }
            let vi = proc.regs.I as u32;
            let r = proc.write_bytes(mem, vi, data.as_slice());
            proc.regs.I = proc.regs.I.wrapping_add(var_x as u16 + 1);
            proc.regs.PC = proc.regs.PC.wrapping_add(2);
            proof {
                old(proc).lemma_gview_eq(*proc, *mem);
                old(proc).lemma_gview_eq(*proc, *old(mem));
            }
            SyscallOutcome::Completed
        },
        0x65 => {
            let vi = proc.regs.I as u32;
            let cnt = var_x + 1;
            match proc.read_bytes(mem, vi, cnt) {
                Ok(bytes) => {
                    let mut k: usize = 0;
                    while k < cnt
                        invariant
                            proc.wf(),
                            var_x < 16,
                            cnt == var_x + 1,
                            k <= cnt,
                            bytes@.len() == cnt,
                            same_core(*old(proc), *proc),
                            same_display(*old(proc), *proc),
                            proc.regs.DT == old(proc).regs.DT,
                            proc.regs.ST == old(proc).regs.ST,
                            proc.regs.I == old(proc).regs.I,
                            proc.regs.SP == old(proc).regs.SP,
                            proc.regs.PC == old(proc).regs.PC,
                            forall|j: int| 0 <= j < k ==> proc.regs.V@[j] == bytes@[j],
                            forall|j: int| k <= j < 16 ==> proc.regs.V@[j] == old(proc).regs.V@[j],
                        decreases cnt - k,
                    {
                        proc.regs.V[k] = bytes[k];
                        k = k + 1;
                    }
                    proof {
                        assert forall|j: int| 0 <= j <= instr_x(instruction) as int implies
                            proc.regs.V@[j] == old(proc).gview(*old(mem))[old(proc).regs.I as int
                            + j] by {
                            assert(proc.regs.V@[j] == bytes@[j]);
                        }
                    }
                },
                Err(_) => {},
            }
            proc.regs.I = proc.regs.I.wrapping_add(var_x as u16 + 1);
            proc.regs.PC = proc.regs.PC.wrapping_add(2);
            SyscallOutcome::Completed
        },
        _ => SyscallOutcome::Completed,
    }
}

impl Proc {
    /// Decrement both timers by the externally supplied tick count,
    /// saturating at zero.
    fn tick_timers(&mut self, ticks: u32)
        requires
            old(self).wf(),
        ensures
            final(self).wf(),
            same_core(*old(self), *final(self)),
            same_display(*old(self), *final(self)),
            final(self).regs.V@ == old(self).regs.V@,
            final(self).regs.I == old(self).regs.I,
            final(self).regs.SP == old(self).regs.SP,
            final(self).regs.PC == old(self).regs.PC,
            final(self).regs.DT == sat_sub8(old(self).regs.DT, tick_dec(ticks)),
            final(self).regs.ST == sat_sub8(old(self).regs.ST, tick_dec(ticks)),
    {
        let dec: u8 = if ticks > 255 {
            255
        } else {
            ticks as u8
        };
        self.regs.DT = self.regs.DT.saturating_sub(dec);
        self.regs.ST = self.regs.ST.saturating_sub(dec);
    }

    /// Execute one instruction: decay the timers, fetch the big-endian
    /// word at the program counter, and dispatch on its top nibble.
    /// A syscall escape is returned undispatched for the kernel to serve;
    /// a fetch outside the address space is reported as a fault.
    pub fn step_event(&mut self, mem: &mut SharedMemory, ticks: u32) -> (ev: StepEvent)
        requires
            old(self).wf(),
            old(mem).wf(),
        ensures
            final(self).wf(),
            final(mem).wf(),
            final(mem).bitmap() == old(mem).bitmap(),
            same_core(*old(self), *final(self)),
            forall|a: int|
                0 <= a < PHYS_MEM_SIZE && !old(self).owns_addr(a)
                    ==> final(mem).phys_mem@[a] == old(mem).phys_mem@[a],
            !(ev is Yielded),
            ev is Fault ==> {
                &&& old(self).regs.PC as int + 2 > old(self).vm_size as int
                &&& final(self).regs.V@ == old(self).regs.V@
                &&& final(self).regs.I == old(self).regs.I
                &&& final(self).regs.SP == old(self).regs.SP
                &&& final(self).regs.PC == old(self).regs.PC
                &&& same_display(*old(self), *final(self))
                &&& final(mem).phys_mem@ == old(mem).phys_mem@
            },
            !(ev is Fault) ==> old(self).regs.PC as int + 2 <= old(self).vm_size as int,
            ({
                let fi = fetched_instr(*old(self), *old(mem));
                (old(self).regs.PC as int + 2 <= old(self).vm_size as int && instr_op(fi) == 0
                    && 0x100 <= instr_nnn(fi) < 0x200) ==> ev is Syscall
            }),
            ev matches StepEvent::Syscall(nnn) ==> {
                let fi = fetched_instr(*old(self), *old(mem));
                &&& instr_op(fi) == 0
                &&& 0x100 <= instr_nnn(fi) < 0x200
                &&& nnn == instr_nnn(fi)
                &&& final(self).regs.V@ == old(self).regs.V@
                &&& final(self).regs.I == old(self).regs.I
                &&& final(self).regs.SP == old(self).regs.SP
                &&& final(self).regs.PC == old(self).regs.PC
                &&& final(self).regs.DT == sat_sub8(old(self).regs.DT, tick_dec(ticks))
                &&& final(self).regs.ST == sat_sub8(old(self).regs.ST, tick_dec(ticks))
                &&& same_display(*old(self), *final(self))
                &&& final(mem).phys_mem@ == old(mem).phys_mem@
            },
            (ev is Completed || ev is Blocked) ==> pc_discipline(
                *old(self),
                *final(self),
                *old(mem),
                fetched_instr(*old(self), *old(mem)),
                ev is Blocked,
            ),
            ev is Blocked ==> {
                let fi = fetched_instr(*old(self), *old(mem));
                &&& instr_op(fi) == 0xF
                &&& instr_kk(fi) == 0x0A
                &&& final(self).regs.PC == old(self).regs.PC
            },
            // the timers decay before the fetch, and nothing but `FX15` /
            // `FX18` reassigns them afterwards.
            ({
                let fi = fetched_instr(*old(self), *old(mem));
                let fetch_ok = old(self).regs.PC as int + 2 <= old(self).vm_size as int;
                &&& (!fetch_ok || !(instr_op(fi) == 0xF && instr_kk(fi) == 0x15))
                    ==> final(self).regs.DT == sat_sub8(old(self).regs.DT, tick_dec(ticks))
                &&& (!fetch_ok || !(instr_op(fi) == 0xF && instr_kk(fi) == 0x18))
                    ==> final(self).regs.ST == sat_sub8(old(self).regs.ST, tick_dec(ticks))
                &&& (fetch_ok && instr_op(fi) == 0xF && instr_kk(fi) == 0x15)
                    ==> final(self).regs.DT == old(self).regs.V@[instr_x(fi) as int]
                &&& (fetch_ok && instr_op(fi) == 0xF && instr_kk(fi) == 0x18)
                    ==> final(self).regs.ST == old(self).regs.V@[instr_x(fi) as int]
            }),
            // a call pushes the return address at the decremented stack
            // pointer and jumps.
            ({
                let fi = fetched_instr(*old(self), *old(mem));
                (old(self).regs.PC as int + 2 <= old(self).vm_size as int && instr_op(fi) == 0x2)
                    ==> {
                    let sp = wrap16_sub(old(self).regs.SP, 2) as int;
                    let ret = pc_plus(old(self).regs.PC, 2) as int;
                    &&& final(self).regs.SP == wrap16_sub(old(self).regs.SP, 2)
                    &&& final(self).regs.PC == instr_nnn(fi)
                    &&& final(self).regs.V@ == old(self).regs.V@
                    &&& final(self).regs.I == old(self).regs.I
                    &&& forall|w: int|
                        0 <= w < old(self).vm_size ==> old(self).gview(*final(mem))[w] == (if w
                            == sp {
                            (ret / 256) as u8
                        } else if w == sp + 1 {
                            (ret % 256) as u8
                        } else {
                            old(self).gview(*old(mem))[w]
                        })
                }
            }),
            // a return pops the address at the stack pointer; the `0x0`
            // family never writes memory.
            ({
                let fi = fetched_instr(*old(self), *old(mem));
                let fetch_ok = old(self).regs.PC as int + 2 <= old(self).vm_size as int;
                &&& (fetch_ok && instr_op(fi) == 0x0) ==> final(mem).phys_mem@
                    == old(mem).phys_mem@
                &&& (fetch_ok && fi == 0x00EE) ==> {
                    &&& final(self).regs.V@ == old(self).regs.V@
                    &&& final(self).regs.I == old(self).regs.I
                    &&& if old(self).regs.SP as int + 2 <= old(self).vm_size as int {
                        &&& final(self).regs.PC as int == old(self).gview(*old(mem))[
                            old(self).regs.SP as int
                        ] * 256 + old(self).gview(*old(mem))[old(self).regs.SP as int + 1]
                        &&& final(self).regs.SP == wrap16_add(old(self).regs.SP, 2)
                    } else {
                        &&& final(self).regs.PC == pc_plus(old(self).regs.PC, 2)
                        &&& final(self).regs.SP == old(self).regs.SP
                    }
                }
            }),
    {
        self.tick_timers(ticks);
        let ghost ticked = *self;
        let pc = self.regs.PC;
        let hi = match self.read_u8(&*mem, pc as u32) {
            Ok(b) => b,
            Err(_) => {
                return StepEvent::Fault;
            },
        };
        let lo = match self.read_u8(&*mem, pc as u32 + 1) {
            Ok(b) => b,
            Err(_) => {
                return StepEvent::Fault;
            },
        };
        let instruction = ((hi as u16) << 8) | (lo as u16);
        proof {
            assert(instruction == (hi as u16) * 256 + (lo as u16)) by (bit_vector)
                requires
                    instruction == ((hi as u16) << 8) | (lo as u16),
                    (hi as u16) < 256,
                    (lo as u16) < 256,
            ;
            ticked.lemma_gview_eq(*old(self), *mem);
            assert(instruction == fetched_instr(*old(self), *old(mem)));
            lemma_decode_bounds(instruction);
            assert(instr_op(instruction) == instruction >> 12);
            assert(instruction == 0x00EE ==> instruction >> 12 == 0 && (instruction & 0x0FFF)
                < 0x100) by (bit_vector);
        }
        let op = (instruction >> 12) as u8;
        let ev = match op {
            0x0 => opcode_0x0(self, &*mem, instruction),
            0x1 => {
                opcode_0x1(self, instruction);
                StepEvent::Completed
            },
            0x2 => {
                opcode_0x2(self, mem, instruction);
                StepEvent::Completed
            },
            0x3 => {
                opcode_0x3(self, instruction);
                StepEvent::Completed
            },
            0x4 => {
                opcode_0x4(self, instruction);
                StepEvent::Completed
            },
            0x5 => {
                opcode_0x5(self, instruction);
                StepEvent::Completed
            },
            0x6 => {
                opcode_0x6(self, instruction);
                StepEvent::Completed
            },
            0x7 => {
                opcode_0x7(self, instruction);
                StepEvent::Completed
            },
            0x8 => {
                opcode_0x8(self, instruction);
                StepEvent::Completed
            },
            0x9 => {
                opcode_0x9(self, instruction);
                StepEvent::Completed
            },
            0xA => {
                opcode_0xA(self, instruction);
                StepEvent::Completed
            },
            0xB => {
                opcode_0xB(self, instruction);
                StepEvent::Completed
            },
            0xC => {
                opcode_0xC(self, instruction);
                StepEvent::Completed
            },
            0xD => {
                opcode_0xD(self, &*mem, instruction);
                StepEvent::Completed
            },
            0xE => {
                opcode_0xE(self, instruction);
                StepEvent::Completed
            },
            0xF => {
                match opcode_0xF(self, mem, instruction) {
                    SyscallOutcome::Completed => StepEvent::Completed,
                    SyscallOutcome::Blocked => StepEvent::Blocked,
                    SyscallOutcome::Yielded => StepEvent::Yielded,
                }
            },
            _ => {
                proof {
                    assert(false);
                }
                StepEvent::Completed
            },
        };
        proof {
            old(self).lemma_same_mapping(ticked);
            ticked.lemma_gview_eq(*old(self), *mem);
            ticked.lemma_gview_eq(*old(self), *old(mem));
            assert forall|a: int|
                0 <= a < PHYS_MEM_SIZE && !old(self).owns_addr(a) implies mem.phys_mem@[a] == old(
                mem,
            ).phys_mem@[a] by {}
        }
        ev
    }

    /// Execute one instruction with no kernel attached: a syscall escape
    /// cannot be served, so it takes the dispatch-error path, flagging
    /// `V[0xF] = 1` with error code 1 in `V[0]` and advancing past the
    /// instruction. A fetch fault completes with the machine unchanged.
    pub fn step(&mut self, mem: &mut SharedMemory, ticks: u32) -> (outcome: SyscallOutcome)
        requires
            old(self).wf(),
            old(mem).wf(),
        ensures
            final(self).wf(),
            final(mem).wf(),
            final(mem).bitmap() == old(mem).bitmap(),
            same_core(*old(self), *final(self)),
            forall|a: int|
                0 <= a < PHYS_MEM_SIZE && !old(self).owns_addr(a)
                    ==> final(mem).phys_mem@[a] == old(mem).phys_mem@[a],
            !(outcome is Yielded),
            old(self).regs.PC as int + 2 > old(self).vm_size as int ==> {
                &&& outcome is Completed
                &&& final(self).regs.V@ == old(self).regs.V@
                &&& final(self).regs.PC == old(self).regs.PC
                &&& final(mem).phys_mem@ == old(mem).phys_mem@
            },
            ({
                let fi = fetched_instr(*old(self), *old(mem));
                old(self).regs.PC as int + 2 <= old(self).vm_size as int ==> {
                    &&& (instr_op(fi) == 0 && 0x100 <= instr_nnn(fi) < 0x200) ==> {
                        &&& outcome is Completed
                        &&& final(self).regs.V@ == old(self).regs.V@.update(15, 1u8).update(
                            0,
                            1u8,
                        )
                        &&& final(self).regs.PC == pc_plus(old(self).regs.PC, 2)
                        &&& final(mem).phys_mem@ == old(mem).phys_mem@
                    }
                    &&& !(instr_op(fi) == 0 && 0x100 <= instr_nnn(fi) < 0x200)
                        ==> pc_discipline(
                        *old(self),
                        *final(self),
                        *old(mem),
                        fi,
                        outcome is Blocked,
                    )
                    &&& outcome is Blocked ==> instr_op(fi) == 0xF && instr_kk(fi) == 0x0A
                        && final(self).regs.PC == old(self).regs.PC
                }
            }),
            // the timers decay before the fetch, and nothing but `FX15` /
            // `FX18` reassigns them afterwards.
            ({
                let fi = fetched_instr(*old(self), *old(mem));
                let fetch_ok = old(self).regs.PC as int + 2 <= old(self).vm_size as int;
                &&& (!fetch_ok || !(instr_op(fi) == 0xF && instr_kk(fi) == 0x15))
                    ==> final(self).regs.DT == sat_sub8(old(self).regs.DT, tick_dec(ticks))
                &&& (!fetch_ok || !(instr_op(fi) == 0xF && instr_kk(fi) == 0x18))
                    ==> final(self).regs.ST == sat_sub8(old(self).regs.ST, tick_dec(ticks))
                &&& (fetch_ok && instr_op(fi) == 0xF && instr_kk(fi) == 0x15)
                    ==> final(self).regs.DT == old(self).regs.V@[instr_x(fi) as int]
                &&& (fetch_ok && instr_op(fi) == 0xF && instr_kk(fi) == 0x18)
                    ==> final(self).regs.ST == old(self).regs.V@[instr_x(fi) as int]
            }),
            // a call pushes the return address at the decremented stack
            // pointer and jumps; a return pops it back; the `0x0` family
            // never writes memory.
            ({
                let fi = fetched_instr(*old(self), *old(mem));
                let fetch_ok = old(self).regs.PC as int + 2 <= old(self).vm_size as int;
                &&& (fetch_ok && instr_op(fi) == 0x2) ==> {
                    let sp = wrap16_sub(old(self).regs.SP, 2) as int;
                    let ret = pc_plus(old(self).regs.PC, 2) as int;
                    &&& final(self).regs.SP == wrap16_sub(old(self).regs.SP, 2)
                    &&& final(self).regs.PC == instr_nnn(fi)
                    &&& final(self).regs.V@ == old(self).regs.V@
                    &&& final(self).regs.I == old(self).regs.I
                    &&& forall|w: int|
                        0 <= w < old(self).vm_size ==> old(self).gview(*final(mem))[w] == (if w
                            == sp {
                            (ret / 256) as u8
                        } else if w == sp + 1 {
                            (ret % 256) as u8
                        } else {
                            old(self).gview(*old(mem))[w]
                        })
                }
                &&& (fetch_ok && instr_op(fi) == 0x0) ==> final(mem).phys_mem@
                    == old(mem).phys_mem@
                &&& (fetch_ok && fi == 0x00EE) ==> {
                    &&& final(self).regs.V@ == old(self).regs.V@
                    &&& final(self).regs.I == old(self).regs.I
                    &&& if old(self).regs.SP as int + 2 <= old(self).vm_size as int {
                        &&& final(self).regs.PC as int == old(self).gview(*old(mem))[
                            old(self).regs.SP as int
                        ] * 256 + old(self).gview(*old(mem))[old(self).regs.SP as int + 1]
                        &&& final(self).regs.SP == wrap16_add(old(self).regs.SP, 2)
                    } else {
                        &&& final(self).regs.PC == pc_plus(old(self).regs.PC, 2)
                        &&& final(self).regs.SP == old(self).regs.SP
                    }
                }
            }),
    {
        proof {
            let fi = fetched_instr(*old(self), *old(mem));
            assert(fi == 0x00EE ==> (fi & 0x0FFF) < 0x100) by (bit_vector);
        }
        match self.step_event(mem, ticks) {
            StepEvent::Completed => SyscallOutcome::Completed,
            StepEvent::Blocked => SyscallOutcome::Blocked,
            StepEvent::Yielded => SyscallOutcome::Yielded,
            StepEvent::Fault => SyscallOutcome::Completed,
            StepEvent::Syscall(_) => {
                // no dispatcher is attached: fail the syscall as the
                // dispatch-error path does.
                self.regs.V[0xF] = 1;
                self.regs.V[0] = 0x01;
                self.regs.PC = self.regs.PC.wrapping_add(2);
                SyscallOutcome::Completed
            },
        }
    }
}


} // verus!
