use vstd::prelude::*;

use std::collections::VecDeque;

use crate::display::Screen;
use crate::error::VmError;
use crate::shared_memory::{SharedMemory, PAGE_SIZE, PHYS_MEM_SIZE};
use vstd::arithmetic::div_mod::{lemma_fundamental_div_mod, lemma_mod_bound};

verus! {

broadcast use vstd::array::group_array_axioms;

/// The CHIP-8 register file.
#[allow(non_snake_case)]
pub struct Registers {
    pub V: [u8; 16],
    pub DT: u8,
    pub ST: u8,
    pub I: u16,
    pub SP: u16,
    pub PC: u16,
}

impl Default for Registers {
    /// All registers zero but the program counter, which starts at the
    /// conventional CHIP-8 load address.
    fn default() -> (r: Registers)
        ensures
            forall|i: int| 0 <= i < 16 ==> r.V@[i] == 0u8,
            r.DT == 0 && r.ST == 0 && r.I == 0 && r.SP == 0,
            r.PC == 0x200,
    {
        Registers { I: 0, V: [0u8; 16], DT: 0, ST: 0, SP: 0, PC: 0x200 }
    }
}

/// How the `read` syscall is satisfied: a full line at a time, or any
/// available bytes.
#[derive(Copy, Clone, Debug, PartialEq, Eq, Structural)]
pub enum InputMode {
    Line,
    Byte,
}

/// Where console I/O of a process goes: the host's standard streams, or
/// the process's own display surface.
#[derive(Copy, Clone, Debug, PartialEq, Eq, Structural)]
pub enum ConsoleMode {
    Host,
    Display,
}

/// One open-file slot of a process: a descriptor, the index of the file in
/// the kernel's sandbox snapshot, and the read cursor.
#[derive(Copy, Clone, Debug, PartialEq, Eq, Structural)]
pub struct OpenFile {
    pub fd: u8,
    pub node: usize,
    pub offset: u32,
}

/// The 16-glyph, 5-bytes-per-glyph hexadecimal font that every process
/// image starts with at virtual address 0.
pub open spec fn chip8_font() -> Seq<u8> {
    seq![
        0xF0u8, 0x90u8, 0x90u8, 0x90u8, 0xF0u8,  // 0
        0x20u8, 0x60u8, 0x20u8, 0x20u8, 0x70u8,  // 1
        0xF0u8, 0x10u8, 0xF0u8, 0x80u8, 0xF0u8,  // 2
        0xF0u8, 0x10u8, 0xF0u8, 0x10u8, 0xF0u8,  // 3
        0x90u8, 0x90u8, 0xF0u8, 0x10u8, 0x10u8,  // 4
        0xF0u8, 0x80u8, 0xF0u8, 0x10u8, 0xF0u8,  // 5
        0xF0u8, 0x80u8, 0xF0u8, 0x90u8, 0xF0u8,  // 6
        0xF0u8, 0x10u8, 0x20u8, 0x40u8, 0x40u8,  // 7
        0xF0u8, 0x90u8, 0xF0u8, 0x90u8, 0xF0u8,  // 8
        0xF0u8, 0x90u8, 0xF0u8, 0x10u8, 0xF0u8,  // 9
        0xF0u8, 0x90u8, 0xF0u8, 0x90u8, 0x90u8,  // A
        0xE0u8, 0x90u8, 0xE0u8, 0x90u8, 0xE0u8,  // B
        0xF0u8, 0x80u8, 0x80u8, 0x80u8, 0xF0u8,  // C
        0xE0u8, 0x90u8, 0x90u8, 0x90u8, 0xE0u8,  // D
        0xF0u8, 0x80u8, 0xF0u8, 0x80u8, 0xF0u8,  // E
        0xF0u8, 0x80u8, 0xF0u8, 0x80u8, 0x80u8,  // F
    ]
}

/// The font as bytes, exactly `chip8_font()`.
pub fn chip8_font_bytes() -> (v: Vec<u8>)
    ensures
        v@ == chip8_font(),
{
    let mut v: Vec<u8> = Vec::new();
    v.push(0xF0); v.push(0x90); v.push(0x90); v.push(0x90); v.push(0xF0);  // 0
    v.push(0x20); v.push(0x60); v.push(0x20); v.push(0x20); v.push(0x70);  // 1
    v.push(0xF0); v.push(0x10); v.push(0xF0); v.push(0x80); v.push(0xF0);  // 2
    v.push(0xF0); v.push(0x10); v.push(0xF0); v.push(0x10); v.push(0xF0);  // 3
    v.push(0x90); v.push(0x90); v.push(0xF0); v.push(0x10); v.push(0x10);  // 4
    v.push(0xF0); v.push(0x80); v.push(0xF0); v.push(0x10); v.push(0xF0);  // 5
    v.push(0xF0); v.push(0x80); v.push(0xF0); v.push(0x90); v.push(0xF0);  // 6
    v.push(0xF0); v.push(0x10); v.push(0x20); v.push(0x40); v.push(0x40);  // 7
    v.push(0xF0); v.push(0x90); v.push(0xF0); v.push(0x90); v.push(0xF0);  // 8
    v.push(0xF0); v.push(0x90); v.push(0xF0); v.push(0x10); v.push(0xF0);  // 9
    v.push(0xF0); v.push(0x90); v.push(0xF0); v.push(0x90); v.push(0x90);  // A
    v.push(0xE0); v.push(0x90); v.push(0xE0); v.push(0x90); v.push(0xE0);  // B
    v.push(0xF0); v.push(0x80); v.push(0x80); v.push(0x80); v.push(0xF0);  // C
    v.push(0xE0); v.push(0x90); v.push(0x90); v.push(0x90); v.push(0xE0);  // D
    v.push(0xF0); v.push(0x80); v.push(0xF0); v.push(0x80); v.push(0xF0);  // E
    v.push(0xF0); v.push(0x80); v.push(0xF0); v.push(0x80); v.push(0x80);  // F
    proof {
        assert(v@ =~= chip8_font());
    }
    v
}

/// One CHIP-8 process: registers, a page table over the shared arena, a
/// display surface, and console state. All guest memory access goes
/// through virtual addresses translated against the page table.
pub struct Proc {
    pub regs: Registers,
    pub display: Screen,
    pub page_table: Vec<u32>,
    pub vm_size: u32,
    pub input_mode: InputMode,
    pub console_mode: ConsoleMode,
    pub console_input: VecDeque<u8>,
    pub fds: Vec<OpenFile>,
    pub next_fd: u8,
}

impl Proc {
    pub open spec fn wf(self) -> bool {
        &&& self.display.wf()
        &&& 1 <= self.page_table@.len() <= 0xFFFF
        &&& self.vm_size as int == self.page_table@.len() * PAGE_SIZE as int
        &&& forall|i: int|
            0 <= i < self.page_table@.len() ==> {
                &&& (#[trigger] self.page_table@[i]) as int % PAGE_SIZE as int == 0
                &&& self.page_table@[i] as int + PAGE_SIZE as int <= PHYS_MEM_SIZE as int
            }
        &&& forall|i: int, j: int|
            0 <= i < j < self.page_table@.len() ==> self.page_table@[i] != self.page_table@[j]
    }

    /// Physical address that virtual address `v` maps to.
    pub open spec fn ptranslate(self, v: int) -> int {
        self.page_table@[v / PAGE_SIZE as int] + v % PAGE_SIZE as int
    }

    /// Whether physical address `a` lies in one of this process's pages.
    pub open spec fn owns_addr(self, a: int) -> bool {
        exists|p: int|
            0 <= p < self.page_table@.len() && (#[trigger] self.page_table@[p]) <= a
                < self.page_table@[p] + PAGE_SIZE
    }

    /// The byte this process sees at virtual address `v`.
    pub open spec fn gbyte(self, mem: SharedMemory, v: int) -> u8 {
        mem.phys_mem@[self.ptranslate(v)]
    }

    /// The whole virtual address space of this process as a byte sequence.
    pub open spec fn gview(self, mem: SharedMemory) -> Seq<u8> {
        Seq::new(self.vm_size as nat, |v: int| self.gbyte(mem, v))
    }

    /// A translated in-range virtual address lands inside the arena, in a
    /// page this process owns.
    pub proof fn lemma_ptranslate_in_range(self, v: int)
        requires
            self.wf(),
            0 <= v < self.vm_size,
        ensures
            0 <= self.ptranslate(v) < PHYS_MEM_SIZE,
            self.owns_addr(self.ptranslate(v)),
    {
        let ps = PAGE_SIZE as int;
        let p = v / ps;
        let o = v % ps;
        lemma_fundamental_div_mod(v, ps);
        lemma_mod_bound(v, ps);
        let n = self.page_table@.len() as int;
        assert(0 <= p < n) by (nonlinear_arith)
            requires
                v == ps * p + o,
                0 <= o < ps,
                0 <= v < n * ps,
                ps > 0,
        ;
        assert(self.page_table@[p] <= self.ptranslate(v) < self.page_table@[p] + PAGE_SIZE);
    }

    /// Distinct in-range virtual addresses translate to distinct physical
    /// addresses: the page table has no duplicate entries, so the mapping
    /// is injective.
    pub proof fn lemma_ptranslate_injective(self, v1: int, v2: int)
        requires
            self.wf(),
            0 <= v1 < self.vm_size,
            0 <= v2 < self.vm_size,
            v1 != v2,
        ensures
            self.ptranslate(v1) != self.ptranslate(v2),
    {
        let ps = PAGE_SIZE as int;
        let p1 = v1 / ps;
        let p2 = v2 / ps;
        let o1 = v1 % ps;
        let o2 = v2 % ps;
        self.lemma_ptranslate_in_range(v1);
        self.lemma_ptranslate_in_range(v2);
        lemma_fundamental_div_mod(v1, ps);
        lemma_mod_bound(v1, ps);
        lemma_fundamental_div_mod(v2, ps);
        lemma_mod_bound(v2, ps);
        if p1 == p2 {
            assert(v1 == ps * p1 + o1 && v2 == ps * p2 + o2);
            assert(o1 != o2);
        } else {
            let b1 = self.page_table@[p1] as int;
            let b2 = self.page_table@[p2] as int;
            assert(b1 != b2);
            assert(b1 % ps == 0 && b2 % ps == 0);
            assert(b1 != b2 && b1 % ps == 0 && b2 % ps == 0 ==> (b1 - b2 >= ps || b2 - b1 >= ps))
                by (nonlinear_arith)
                requires
                    ps == 0x1000,
                    0 <= b1,
                    0 <= b2,
            ;
        }
    }

    /// If physical memory changed only inside pages this process does not
    /// own, then the process's view of its address space is unchanged.
    pub proof fn lemma_gview_frame(self, m1: SharedMemory, m2: SharedMemory)
        requires
            self.wf(),
            m1.wf(),
            m2.wf(),
            forall|a: int|
                0 <= a < PHYS_MEM_SIZE && self.owns_addr(a) ==> m2.phys_mem@[a] == m1.phys_mem@[a],
        ensures
            self.gview(m2) == self.gview(m1),
    {
        assert forall|v: int| 0 <= v < self.vm_size implies self.gbyte(m2, v) == self.gbyte(
            m1,
            v,
        ) by {
            self.lemma_ptranslate_in_range(v);
        }
        assert(self.gview(m2) =~= self.gview(m1));
    }

    /// Two processes with the same page table and size see the same bytes:
    /// the guest view does not depend on registers or other state.
    pub proof fn lemma_gview_eq(self, other: Proc, m: SharedMemory)
        requires
            self.page_table@ == other.page_table@,
            self.vm_size == other.vm_size,
        ensures
            self.gview(m) == other.gview(m),
    {
        assert(self.gview(m) =~= other.gview(m));
    }

    /// Two processes with the same page table own the same physical
    /// addresses.
    pub proof fn lemma_same_mapping(self, other: Proc)
        requires
            self.page_table@ == other.page_table@,
        ensures
            forall|a: int| self.owns_addr(a) <==> other.owns_addr(a),
    {
        assert forall|a: int| self.owns_addr(a) <==> other.owns_addr(a) by {
            if self.owns_addr(a) {
                let p = choose|p: int|
                    0 <= p < self.page_table@.len() && (#[trigger] self.page_table@[p]) <= a
                        < self.page_table@[p] + PAGE_SIZE;
                assert(other.page_table@[p] <= a < other.page_table@[p] + PAGE_SIZE);
            }
            if other.owns_addr(a) {
                let p = choose|p: int|
                    0 <= p < other.page_table@.len() && (#[trigger] other.page_table@[p]) <= a
                        < other.page_table@[p] + PAGE_SIZE;
                assert(self.page_table@[p] <= a < self.page_table@[p] + PAGE_SIZE);
            }
        }
    }

    /// Law: a successful `write_bytes` followed by a `read_bytes` of the
    /// same virtual range returns exactly the bytes written, for any range
    /// inside the address space, including ranges that straddle page
    /// boundaries onto non-contiguous physical pages. The two quantified
    /// premises are precisely what `write_bytes` and `read_bytes` ensure.
    pub proof fn lemma_write_read_roundtrip(
        self,
        m0: SharedMemory,
        m1: SharedMemory,
        vaddr: u32,
        data: Seq<u8>,
        out: Seq<u8>,
    )
        requires
            self.wf(),
            vaddr as int + data.len() <= self.vm_size as int,
            forall|w: int|
                0 <= w < self.vm_size ==> self.gview(m1)[w] == (if vaddr as int <= w < vaddr as int
                    + data.len() {
                    data[w - vaddr as int]
                } else {
                    self.gview(m0)[w]
                }),
            out.len() == data.len(),
            forall|j: int| 0 <= j < out.len() ==> out[j] == self.gview(m1)[vaddr as int + j],
        ensures
            out == data,
    {
        assert(out =~= data);
    }

    /// Whether keypad key `key` is currently held on this process's
    /// display; key numbers above 0xF never are.
    pub fn is_key_down(&self, key: u8) -> (r: bool)
        requires
            self.wf(),
        ensures
            r == (key < 16 && self.display.key_down@[key as int]),
    {
        self.display.is_key_down(key)
    }

    /// The lowest-numbered currently held key, if any.
    pub fn last_key(&self) -> (r: Option<u8>)
        requires
            self.wf(),
        ensures
            r == crate::display::first_held_from(self.display.key_down@, 0),
    {
        self.display.last_key()
    }


    /// Allocate `pages` fresh pages from the arena and build a process
    /// over them: registers at their initial values, the stack pointer at
    /// the top of the address space (capped at the register width), a
    /// blank display, line input and host console modes, and no open
    /// files. Fails exactly when the allocation does.
    pub fn new_with_display_and_pages(mem: &mut SharedMemory, display: Screen, pages: u16) -> (r:
        Result<Proc, VmError>)
        requires
            old(mem).wf(),
            display.wf(),
        ensures
            final(mem).wf(),
            final(mem).phys_mem@ == old(mem).phys_mem@,
            r is Err <==> (pages == 0 || crate::shared_memory::count_free(old(mem).bitmap())
                < pages as nat),
            match r {
                Ok(p) => {
                    &&& p.wf()
                    &&& p.page_table@.len() == pages as int
                    &&& p.vm_size as int == pages as int * PAGE_SIZE as int
                    &&& forall|i: int|
                        0 <= i < p.page_table@.len() ==> {
                            &&& !old(mem).bitmap()[(#[trigger] p.page_table@[i]) as int
                                / PAGE_SIZE as int]
                            &&& final(mem).bitmap()[p.page_table@[i] as int / PAGE_SIZE as int]
                        }
                    &&& forall|q: int|
                        0 <= q < crate::shared_memory::PHYS_PAGE_COUNT && old(mem).bitmap()[q]
                            ==> #[trigger] final(mem).bitmap()[q]
                    &&& forall|q: int|
                        0 <= q < crate::shared_memory::PHYS_PAGE_COUNT && !(exists|i: int|
                            0 <= i < p.page_table@.len() && (#[trigger] p.page_table@[i]) as int
                                / PAGE_SIZE as int == q)
                            ==> #[trigger] final(mem).bitmap()[q] == old(mem).bitmap()[q]
                    &&& forall|i: int| 0 <= i < 16 ==> p.regs.V@[i] == 0u8
                    &&& p.regs.DT == 0 && p.regs.ST == 0 && p.regs.I == 0
                    &&& p.regs.PC == 0x200
                    &&& p.regs.SP as int == (if p.vm_size as int <= 0xFFFF {
                        p.vm_size as int
                    } else {
                        0xFFFF
                    })
                    &&& p.display == display
                    &&& p.input_mode == InputMode::Line
                    &&& p.console_mode == ConsoleMode::Host
                    &&& p.console_input@.len() == 0
                    &&& p.fds@.len() == 0
                },
                Err(_) => final(mem).bitmap() == old(mem).bitmap(),
            },
    {
        let page_table = match mem.mmap(pages) {
            Ok(t) => t,
            Err(e) => {
                return Err(e);
            },
        };
        proof {
            assert(pages as u32 as int * PAGE_SIZE as int <= 0xFFFF000int) by (nonlinear_arith)
                requires
                    pages as u32 <= 0xFFFFu32,
                    PAGE_SIZE == 0x1000,
            ;
        }
        let vm_size = (pages as u32) * (PAGE_SIZE as u32);
        let mut regs = Registers::default();
        regs.SP = if vm_size < 0xFFFF {
            vm_size as u16
        } else {
            0xFFFF
        };
        Ok(
            Proc {
                regs,
                display,
                page_table,
                vm_size,
                input_mode: InputMode::Line,
                console_mode: ConsoleMode::Host,
                console_input: VecDeque::new(),
                fds: Vec::new(),
                next_fd: 1,
            },
        )
    }

    /// Load a program image: the hexadecimal font at address 0, the
    /// program bytes at the conventional load address 0x200. Fails,
    /// writing nothing, when the image does not fit below the end of the
    /// address space.
    pub fn load_program_bytes(&self, mem: &mut SharedMemory, program: &[u8]) -> (r: Result<
        (),
        VmError,
    >)
        requires
            self.wf(),
            old(mem).wf(),
        ensures
            final(mem).wf(),
            final(mem).bitmap() == old(mem).bitmap(),
            r is Err <==> program@.len() > self.vm_size as int - 0x200,
            r is Err ==> r->Err_0 == VmError::TooLarge && final(mem).phys_mem@
                == old(mem).phys_mem@,
            r is Ok ==> forall|w: int|
                0 <= w < self.vm_size ==> self.gview(*final(mem))[w] == (if w < 80 {
                    chip8_font()[w]
                } else if 0x200 <= w < 0x200 + program@.len() {
                    program@[w - 0x200]
                } else {
                    self.gview(*old(mem))[w]
                }),
            forall|a: int|
                0 <= a < PHYS_MEM_SIZE && !self.owns_addr(a)
                    ==> final(mem).phys_mem@[a] == old(mem).phys_mem@[a],
    {
        let max_size = (self.vm_size as usize) - 0x200;
        if program.len() > max_size {
            return Err(VmError::TooLarge);
        }
        let font = chip8_font_bytes();
        let ghost m0 = *mem;
        let r1 = self.write_bytes(mem, 0x0, font.as_slice());
        let ghost m1 = *mem;
        let r2 = self.write_bytes(mem, 0x200, program);
        proof {
            assert(r1 is Ok);
            assert(r2 is Ok);
            assert forall|w: int| 0 <= w < self.vm_size implies self.gview(*mem)[w] == (if w
                < 80 {
                chip8_font()[w]
            } else if 0x200 <= w < 0x200 + program@.len() {
                program@[w - 0x200]
            } else {
                self.gview(m0)[w]
            }) by {}
        }
        Ok(())
    }

    /// Translate a virtual address into a physical address, rejecting
    /// addresses at or beyond the end of the virtual address space.
    pub fn translate(&self, vaddr: u32) -> (r: Result<usize, VmError>)
        requires
            self.wf(),
        ensures
            match r {
                Ok(p) => vaddr < self.vm_size && p as int == self.ptranslate(vaddr as int) && p
                    < PHYS_MEM_SIZE,
                Err(e) => vaddr >= self.vm_size && e == VmError::OutOfRange,
            },
    {
        if vaddr >= self.vm_size {
            return Err(VmError::OutOfRange);
        }
        proof {
            self.lemma_ptranslate_in_range(vaddr as int);
        }
        let page = (vaddr as usize) / PAGE_SIZE;
        let offset = (vaddr as usize) % PAGE_SIZE;
        let phys_base = self.page_table[page] as usize;
        Ok(phys_base + offset)
    }

    /// Read a single byte using virtual addressing.
    pub fn read_u8(&self, mem: &SharedMemory, vaddr: u32) -> (r: Result<u8, VmError>)
        requires
            self.wf(),
            mem.wf(),
        ensures
            match r {
                Ok(b) => vaddr < self.vm_size && b == self.gview(*mem)[vaddr as int],
                Err(e) => vaddr >= self.vm_size && e == VmError::OutOfRange,
            },
    {
        let phys = match self.translate(vaddr) {
            Ok(p) => p,
            Err(e) => {
                return Err(e);
            },
        };
        let data = match mem.read(phys, 1) {
            Ok(d) => d,
            Err(e) => {
                return Err(e);
            },
        };
        Ok(data[0])
    }

    /// Write a single byte using virtual addressing.
    pub fn write_u8(&self, mem: &mut SharedMemory, vaddr: u32, value: u8) -> (r: Result<
        (),
        VmError,
    >)
        requires
            self.wf(),
            old(mem).wf(),
        ensures
            final(mem).wf(),
            final(mem).bitmap() == old(mem).bitmap(),
            match r {
                Ok(_) => {
                    &&& vaddr < self.vm_size
                    &&& self.gview(*final(mem)) == self.gview(*old(mem)).update(
                        vaddr as int,
                        value,
                    )
                    &&& forall|a: int|
                        0 <= a < PHYS_MEM_SIZE && a != self.ptranslate(vaddr as int)
                            ==> final(mem).phys_mem@[a] == old(mem).phys_mem@[a]
                },
                Err(e) => {
                    &&& vaddr >= self.vm_size
                    &&& e == VmError::OutOfRange
                    &&& final(mem).phys_mem@ == old(mem).phys_mem@
                },
            },
    {
        let phys = match self.translate(vaddr) {
            Ok(p) => p,
            Err(e) => {
                return Err(e);
            },
        };
        let mut data: Vec<u8> = Vec::new();
        data.push(value);
        let res = mem.write(phys, &data, 1);
        proof {
            assert(res is Ok);
            assert forall|w: int| 0 <= w < self.vm_size && w != vaddr as int implies self.gbyte(
                *mem,
                w,
            ) == self.gbyte(*old(mem), w) by {
                self.lemma_ptranslate_in_range(w);
                self.lemma_ptranslate_injective(w, vaddr as int);
            }
            assert(self.gview(*mem) =~= self.gview(*old(mem)).update(vaddr as int, value));
        }
        Ok(())
    }

    /// Write a byte slice across page boundaries if needed, one byte at a
    /// time. On an out-of-range suffix the in-range prefix has already been
    /// committed; callers that need atomicity must check bounds first.
    #[verifier::loop_isolation(false)]
    pub fn write_bytes(&self, mem: &mut SharedMemory, vaddr: u32, data: &[u8]) -> (r: Result<
        (),
        VmError,
    >)
        requires
            self.wf(),
            old(mem).wf(),
        ensures
            final(mem).wf(),
            final(mem).bitmap() == old(mem).bitmap(),
            r is Ok <==> (data@.len() == 0 || vaddr as int + data@.len() <= self.vm_size as int),
            r is Err ==> r->Err_0 == VmError::OutOfRange,
            ({
                let k = if data@.len() == 0 || vaddr >= self.vm_size {
                    0
                } else if vaddr as int + data@.len() <= self.vm_size as int {
                    data@.len() as int
                } else {
                    self.vm_size as int - vaddr as int
                };
                &&& forall|w: int|
                    0 <= w < self.vm_size ==> self.gview(*final(mem))[w] == (if vaddr as int <= w
                        < vaddr as int + k {
                        data@[w - vaddr as int]
                    } else {
                        self.gview(*old(mem))[w]
                    })
                &&& forall|a: int|
                    0 <= a < PHYS_MEM_SIZE && !self.owns_addr(a)
                        ==> final(mem).phys_mem@[a] == old(mem).phys_mem@[a]
            }),
    {
        let ghost k = if data@.len() == 0 || vaddr >= self.vm_size {
            0int
        } else if vaddr as int + data@.len() <= self.vm_size as int {
            data@.len() as int
        } else {
            self.vm_size as int - vaddr as int
        };
        let mut i: usize = 0;
        while i < data.len()
            invariant
                self.wf(),
                mem.wf(),
                mem.bitmap() == old(mem).bitmap(),
                i <= data@.len(),
                vaddr as int + i <= self.vm_size as int || i == 0,
                i <= k,
                forall|w: int|
                    0 <= w < self.vm_size ==> self.gview(*mem)[w] == (if vaddr as int <= w < vaddr
                        as int + i {
                        data@[w - vaddr as int]
                    } else {
                        self.gview(*old(mem))[w]
                    }),
                forall|a: int|
                    0 <= a < PHYS_MEM_SIZE && !self.owns_addr(a)
                        ==> mem.phys_mem@[a] == old(mem).phys_mem@[a],
            decreases data@.len() - i,
        {
            if vaddr >= self.vm_size || (i as u32) >= self.vm_size - vaddr {
                proof {
                    assert(i == k);
                }
                return Err(VmError::OutOfRange);
            }
            let addr = vaddr + (i as u32);
            let ghost pre = *mem;
            match self.write_u8(mem, addr, data[i]) {
                Ok(_) => {},
                Err(_) => {
                    proof {
                        assert(addr < self.vm_size);
                        assert(false);
                    }
                },
            }
            proof {
                self.lemma_ptranslate_in_range(addr as int);
                assert forall|w: int| 0 <= w < self.vm_size implies self.gview(*mem)[w] == (
                if vaddr as int <= w < vaddr as int + (i + 1) {
                    data@[w - vaddr as int]
                } else {
                    self.gview(*old(mem))[w]
                }) by {
                    assert(self.gview(*mem) == self.gview(pre).update(addr as int, data@[i as int]));
                }
            }
            i = i + 1;
        }
        proof {
            assert(i == k);
        }
        Ok(())
    }

    /// Read a byte slice across page boundaries if needed. Fails, returning
    /// nothing, when any byte of the range is out of the address space.
    pub fn read_bytes(&self, mem: &SharedMemory, vaddr: u32, len: usize) -> (r: Result<
        Vec<u8>,
        VmError,
    >)
        requires
            self.wf(),
            mem.wf(),
        ensures
            match r {
                Ok(v) => {
                    &&& len == 0 || vaddr as int + len <= self.vm_size as int
                    &&& v@.len() == len
                    &&& forall|j: int|
                        0 <= j < len ==> v@[j] == self.gview(*mem)[vaddr as int + j]
                },
                Err(e) => {
                    &&& len > 0 && vaddr as int + len > self.vm_size as int
                    &&& e == VmError::OutOfRange
                },
            },
    {
        let mut data: Vec<u8> = Vec::new();
        let mut i: usize = 0;
        while i < len
            invariant
                self.wf(),
                mem.wf(),
                i <= len,
                vaddr as int + i <= self.vm_size as int || i == 0,
                data@.len() == i,
                forall|j: int| 0 <= j < i ==> data@[j] == self.gview(*mem)[vaddr as int + j],
            decreases len - i,
        {
            if vaddr >= self.vm_size || (i as u32) >= self.vm_size - vaddr {
                return Err(VmError::OutOfRange);
            }
            let addr = vaddr + (i as u32);
            match self.read_u8(mem, addr) {
                Ok(b) => {
                    data.push(b);
                },
                Err(_) => {
                    proof {
                        assert(false);
                    }
                },
            }
            i = i + 1;
        }
        Ok(data)
    }

    /// Read a 16-bit big-endian value using virtual addressing.
    pub fn read_u16(&self, mem: &SharedMemory, vaddr: u32) -> (r: Result<u16, VmError>)
        requires
            self.wf(),
            mem.wf(),
        ensures
            match r {
                Ok(w) => {
                    &&& vaddr as int + 2 <= self.vm_size as int
                    &&& w as int == self.gview(*mem)[vaddr as int] * 256 + self.gview(*mem)[vaddr
                        as int + 1]
                },
                Err(e) => {
                    &&& vaddr as int + 2 > self.vm_size as int
                    &&& e == VmError::OutOfRange
                },
            },
    {
        let hi = match self.read_u8(mem, vaddr) {
            Ok(b) => b as u16,
            Err(e) => {
                return Err(e);
            },
        };
        let lo = match self.read_u8(mem, vaddr + 1) {
            Ok(b) => b as u16,
            Err(e) => {
                return Err(e);
            },
        };
        let w = (hi << 8) | lo;
        proof {
            assert(w == hi * 256 + lo) by (bit_vector)
                requires
                    w == (hi << 8) | lo,
                    hi < 256,
                    lo < 256,
            ;
        }
        Ok(w)
    }
}

} // verus!
