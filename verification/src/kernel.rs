use vstd::prelude::*;

use std::collections::VecDeque;

use crate::error::VmError;
use crate::proc::{ConsoleMode, InputMode, OpenFile, Proc};
use crate::sandbox::{FsKind, FsNode, SandboxFs};
use crate::shared_memory::{count_free, SharedMemory, PAGE_SIZE, PHYS_MEM_SIZE};
use crate::chip8_engine::StepEvent;
use crate::syscall::SyscallOutcome;

verus! {

pub const SYS_SPAWN: u16 = 0x0101;

pub const SYS_EXIT: u16 = 0x0102;

pub const SYS_WAIT: u16 = 0x0103;

pub const SYS_YIELD: u16 = 0x0104;

pub const SYS_WRITE: u16 = 0x0110;

pub const SYS_READ: u16 = 0x0111;

pub const SYS_INPUT_MODE: u16 = 0x0112;

pub const SYS_CONSOLE_MODE: u16 = 0x0113;

pub const SYS_FS_LIST: u16 = 0x0120;

pub const SYS_FS_OPEN: u16 = 0x0121;

pub const SYS_FS_READ: u16 = 0x0122;

pub const SYS_FS_CLOSE: u16 = 0x0123;

pub const ERR_INVALID: u8 = 0x02;

pub const ERR_IO: u8 = 0x03;

pub const ERR_NOT_FOUND: u8 = 0x04;

pub const ERR_NOT_DIR: u8 = 0x05;

pub const ERR_IS_DIR: u8 = 0x06;

pub const ERR_NAME_TOO_LONG: u8 = 0x07;

pub const ERR_TOO_MANY_OPEN: u8 = 0x08;

pub const ERR_PATH: u8 = 0x09;

pub const MAX_OPEN_FILES: usize = 32;

/// Bytes of one directory record written by the list syscall: a name
/// length, the name padded to its maximum, a kind byte, and a 32-bit size.
pub const DIR_ENTRY_SIZE: usize = 1 + crate::sandbox::MAX_FILENAME_LEN + 1 + 4;

/// One of the base syscall handlers. The registry maps numeric IDs in the
/// reserved range to these. The set is closed: a host cannot register a
/// handler of its own, since an open handler value would stand outside
/// what the verifier can check.
#[derive(Copy, Clone, Debug, PartialEq, Eq, Structural)]
pub enum SyscallHandler {
    Spawn,
    Exit,
    Wait,
    Yield,
    Write,
    Read,
    InputMode,
    ConsoleMode,
    FsList,
    FsOpen,
    FsRead,
    FsClose,
}

/// First registered handler for `id`, scanning from entry `i`.
pub open spec fn table_lookup_from(s: Seq<(u16, SyscallHandler)>, id: u16, i: int) -> Option<
    SyscallHandler,
>
    decreases s.len() - i,
{
    if i < 0 || i >= s.len() {
        None
    } else if s[i].0 == id {
        Some(s[i].1)
    } else {
        table_lookup_from(s, id, i + 1)
    }
}

pub open spec fn table_lookup(s: Seq<(u16, SyscallHandler)>, id: u16) -> Option<SyscallHandler> {
    table_lookup_from(s, id, 0)
}

/// The registry of syscall handlers, keyed by IDs in `0x0100..0x0200`.
pub struct SyscallTable {
    pub handlers: Vec<(u16, SyscallHandler)>,
}

impl SyscallTable {
    /// Each ID registered at most once.
    pub open spec fn wf(self) -> bool {
        forall|i: int, j: int|
            0 <= i < j < self.handlers@.len() ==> (#[trigger] self.handlers@[i]).0 != (
            #[trigger] self.handlers@[j]).0
    }

    /// An empty table with no registered IDs.
    pub fn new() -> (r: SyscallTable)
        ensures
            r.wf(),
            r.handlers@.len() == 0,
    {
        SyscallTable { handlers: Vec::new() }
    }

    /// Register a handler under an ID in the reserved range, replacing any
    /// earlier registration of the same ID.
    pub fn register(&mut self, id: u16, handler: SyscallHandler) -> (r: Result<(), VmError>)
        requires
            old(self).wf(),
        ensures
            final(self).wf(),
            r is Err <==> !(0x0100 <= id < 0x0200),
            r is Err ==> r->Err_0 == VmError::InvalidInput && final(self).handlers@ == old(
                self,
            ).handlers@,
            r is Ok ==> table_lookup(final(self).handlers@, id) == Some(handler),
            r is Ok ==> forall|other: u16|
                other != id ==> #[trigger] table_lookup(final(self).handlers@, other)
                    == table_lookup(old(self).handlers@, other),
    {
        if !(0x0100 <= id && id < 0x0200) {
            return Err(VmError::InvalidInput);
        }
        let mut i: usize = 0;
        while i < self.handlers.len()
            invariant
                self.wf(),
                0x0100 <= id < 0x0200,
                i <= self.handlers@.len(),
                self.handlers@ == old(self).handlers@,
                forall|k: int| 0 <= k < i ==> (#[trigger] self.handlers@[k]).0 != id,
            decreases self.handlers@.len() - i,
        {
            if self.handlers[i].0 == id {
                self.handlers.set(i, (id, handler));
                proof {
                    let s1 = self.handlers@;
                    let s0 = old(self).handlers@;
                    lemma_table_lookup_prefix_miss(s1, id, i as int);
                    assert(table_lookup_from(s1, id, i as int) == Some(handler));
                    assert forall|other: u16| other != id implies #[trigger] table_lookup(
                        s1,
                        other,
                    ) == table_lookup(s0, other) by {
                        lemma_table_lookup_update_other(s0, s1, other, i as int);
                    }
                }
                return Ok(());
            }
            i = i + 1;
        }
        let ghost s0 = self.handlers@;
        self.handlers.push((id, handler));
        proof {
            let s1 = self.handlers@;
            lemma_table_lookup_prefix_miss(s1, id, s0.len() as int);
            assert forall|other: u16| other != id implies #[trigger] table_lookup(s1, other)
                == table_lookup(s0, other) by {
                lemma_table_lookup_push_other(s0, s1, other);
            }
        }
        Ok(())
    }

    /// Look up a handler by syscall ID without executing it.
    pub fn handler(&self, id: u16) -> (r: Option<SyscallHandler>)
        ensures
            r == table_lookup(self.handlers@, id),
    {
        let mut i: usize = 0;
        while i < self.handlers.len()
            invariant
                i <= self.handlers@.len(),
                table_lookup(self.handlers@, id) == table_lookup_from(
                    self.handlers@,
                    id,
                    i as int,
                ),
            decreases self.handlers@.len() - i,
        {
            if self.handlers[i].0 == id {
                return Some(self.handlers[i].1);
            }
            i = i + 1;
        }
        None
    }
}

/// If no entry before `i` carries `id`, the scan from 0 equals the scan
/// from `i`.
proof fn lemma_table_lookup_prefix_miss(s: Seq<(u16, SyscallHandler)>, id: u16, i: int)
    requires
        0 <= i <= s.len(),
        forall|k: int| 0 <= k < i ==> (#[trigger] s[k]).0 != id,
    ensures
        table_lookup(s, id) == table_lookup_from(s, id, i),
    decreases i,
{
    if i > 0 {
        assert(table_lookup_from(s, id, i - 1) == table_lookup_from(s, id, i));
        lemma_table_lookup_prefix_miss_upto(s, id, 0, i);
    }
}

proof fn lemma_table_lookup_prefix_miss_upto(s: Seq<(u16, SyscallHandler)>, id: u16, j: int, i: int)
    requires
        0 <= j <= i <= s.len(),
        forall|k: int| 0 <= k < i ==> (#[trigger] s[k]).0 != id,
    ensures
        table_lookup_from(s, id, j) == table_lookup_from(s, id, i),
    decreases i - j,
{
    if j < i {
        lemma_table_lookup_prefix_miss_upto(s, id, j + 1, i);
    }
}

/// Changing entry `i` does not change lookups of other IDs, provided the
/// key at `i` stays the same.
proof fn lemma_table_lookup_update_other(
    s0: Seq<(u16, SyscallHandler)>,
    s1: Seq<(u16, SyscallHandler)>,
    other: u16,
    i: int,
)
    requires
        0 <= i < s0.len(),
        s1.len() == s0.len(),
        s1[i].0 == s0[i].0,
        other != s0[i].0,
        forall|k: int| 0 <= k < s0.len() && k != i ==> s1[k] == s0[k],
    ensures
        table_lookup(s1, other) == table_lookup(s0, other),
{
    lemma_table_lookup_update_other_from(s0, s1, other, i, 0);
}

proof fn lemma_table_lookup_update_other_from(
    s0: Seq<(u16, SyscallHandler)>,
    s1: Seq<(u16, SyscallHandler)>,
    other: u16,
    i: int,
    j: int,
)
    requires
        0 <= i < s0.len(),
        s1.len() == s0.len(),
        s1[i].0 == s0[i].0,
        other != s0[i].0,
        forall|k: int| 0 <= k < s0.len() && k != i ==> s1[k] == s0[k],
        0 <= j <= s0.len(),
    ensures
        table_lookup_from(s1, other, j) == table_lookup_from(s0, other, j),
    decreases s0.len() - j,
{
    if j < s0.len() {
        lemma_table_lookup_update_other_from(s0, s1, other, i, j + 1);
    }
}

/// Appending an entry does not change lookups of other IDs.
proof fn lemma_table_lookup_push_other(
    s0: Seq<(u16, SyscallHandler)>,
    s1: Seq<(u16, SyscallHandler)>,
    other: u16,
)
    requires
        s1.len() == s0.len() + 1,
        forall|k: int| 0 <= k < s0.len() ==> s1[k] == s0[k],
        s1[s0.len() as int].0 != other,
    ensures
        table_lookup(s1, other) == table_lookup(s0, other),
{
    lemma_table_lookup_push_other_from(s0, s1, other, 0);
}

proof fn lemma_table_lookup_push_other_from(
    s0: Seq<(u16, SyscallHandler)>,
    s1: Seq<(u16, SyscallHandler)>,
    other: u16,
    j: int,
)
    requires
        s1.len() == s0.len() + 1,
        forall|k: int| 0 <= k < s0.len() ==> s1[k] == s0[k],
        s1[s0.len() as int].0 != other,
        0 <= j <= s0.len(),
    ensures
        table_lookup_from(s1, other, j) == table_lookup_from(s0, other, j),
    decreases s0.len() - j,
{
    if j < s0.len() {
        lemma_table_lookup_push_other_from(s0, s1, other, j + 1);
    } else {
        assert(table_lookup_from(s0, other, j) is None);
        assert(table_lookup_from(s1, other, j + 1) is None);
    }
}


/// Whether a `read` request made in this state has to block: the frame is
/// readable and the queue its modes select cannot satisfy it yet.
pub open spec fn read_request_blocks(k: Kernel, p: Proc) -> bool {
    &&& arg_ok(p, k.mem, 0)
    &&& arg_ok(p, k.mem, 1)
    &&& ({
        let q = if p.console_mode == ConsoleMode::Display {
            p.console_input@
        } else {
            k.input@
        };
        if p.input_mode == InputMode::Line {
            first_nl(q) is None
        } else {
            q.len() == 0
        }
    })
}

/// The wait target a blocking `read` records.
pub open spec fn read_wait_target(k: Kernel, p: Proc) -> WaitTarget {
    WaitTarget::Read { buf: arg_val(p, k.mem, 0), len: arg_val(p, k.mem, 1), mode: p.input_mode }
}

/// The exit code an `exit` syscall records: the first frame word's low
/// byte, or zero for an unreadable frame.
pub open spec fn exit_code_of(k: Kernel, p: Proc) -> u8 {
    if arg_ok(p, k.mem, 0) {
        arg_val(p, k.mem, 0) as u8
    } else {
        0u8
    }
}

/// Scheduling state of one process.
#[derive(Copy, Clone, Debug, PartialEq, Eq, Structural)]
pub enum ProcState {
    Running,
    Blocked,
    Exited,
}

/// What a blocked process is waiting for: a peer's exit, or input for a
/// pending read.
#[derive(Copy, Clone, Debug, PartialEq, Eq, Structural)]
pub enum WaitTarget {
    Pid(u32),
    Read { buf: u16, len: u16, mode: InputMode },
}

/// The kernel's per-pid record: the process plus scheduling metadata.
pub struct ProcEntry {
    pub pid: u32,
    pub proc: Proc,
    pub state: ProcState,
    pub exit_code: Option<u8>,
    pub waiting_for: Option<WaitTarget>,
}

/// No page appears in both processes' page tables.
pub open spec fn tables_disjoint(a: Proc, b: Proc) -> bool {
    forall|i: int, j: int|
        0 <= i < a.page_table@.len() && 0 <= j < b.page_table@.len() ==> (
        #[trigger] a.page_table@[i]) != (#[trigger] b.page_table@[j])
}

/// Every page of the process is marked used in the arena.
pub open spec fn pages_used(p: Proc, m: SharedMemory) -> bool {
    forall|k: int|
        0 <= k < p.page_table@.len() ==> m.bitmap()[(#[trigger] p.page_table@[k]) as int
            / PAGE_SIZE as int]
}

/// Every open-file slot points at a file node of the snapshot.
pub open spec fn fds_ok(p: Proc, fs: SandboxFs) -> bool {
    forall|k: int|
        0 <= k < p.fds@.len() ==> (#[trigger] p.fds@[k]).node < fs.nodes@.len()
            && fs.nodes@[p.fds@[k].node as int].kind is File
}

/// The invariant each table entry keeps: a well-formed process whose
/// pages are marked used and whose descriptors point at snapshot files.
pub open spec fn entry_ok(e: ProcEntry, m: SharedMemory, fs: SandboxFs) -> bool {
    &&& e.proc.wf()
    &&& pages_used(e.proc, m)
    &&& fds_ok(e.proc, fs)
}

/// The invariant of the process table as a whole: each entry sound, and
/// no page shared between two processes.
pub open spec fn procs_ok(s: Seq<ProcEntry>, m: SharedMemory, fs: SandboxFs) -> bool {
    &&& forall|i: int| 0 <= i < s.len() ==> entry_ok(#[trigger] s[i], m, fs)
    &&& forall|i: int, j: int|
        0 <= i < j < s.len() ==> tables_disjoint(s[i].proc, s[j].proc)
}

/// First index holding `pid`, scanning from `i`.
pub open spec fn find_pid_from(s: Seq<ProcEntry>, pid: u32, i: int) -> Option<int>
    decreases s.len() - i,
{
    if i < 0 || i >= s.len() {
        None
    } else if s[i].pid == pid {
        Some(i)
    } else {
        find_pid_from(s, pid, i + 1)
    }
}

pub open spec fn find_pid(s: Seq<ProcEntry>, pid: u32) -> Option<int> {
    find_pid_from(s, pid, 0)
}

/// First index in a pending list holding `pid`, scanning from `i`.
pub open spec fn find_key_from<T>(s: Seq<(u32, T)>, pid: u32, i: int) -> Option<int>
    decreases s.len() - i,
{
    if i < 0 || i >= s.len() {
        None
    } else if s[i].0 == pid {
        Some(i)
    } else {
        find_key_from(s, pid, i + 1)
    }
}

pub open spec fn find_key<T>(s: Seq<(u32, T)>, pid: u32) -> Option<int> {
    find_key_from(s, pid, 0)
}

/// The kernel: the shared arena, the syscall registry, the process table,
/// the sandbox snapshot, the host input queue, buffered host console
/// output, and the pending transitions handlers have requested.
pub struct Kernel {
    pub mem: SharedMemory,
    pub syscalls: SyscallTable,
    pub procs: Vec<ProcEntry>,
    pub next_pid: u32,
    pub fs: SandboxFs,
    pub input: VecDeque<u8>,
    pub host_output: Vec<u8>,
    pub pending_exit: Vec<(u32, u8)>,
    pub pending_block: Vec<(u32, WaitTarget)>,
}

impl Kernel {
    pub open spec fn wf(self) -> bool {
        &&& self.mem.wf()
        &&& self.fs.wf()
        &&& self.syscalls.wf()
        &&& procs_ok(self.procs@, self.mem, self.fs)
    }

    /// Build a kernel over an arena and a validated sandbox snapshot, with
    /// an empty syscall registry and no processes. Fails exactly when the
    /// snapshot breaks a construction rule.
    pub fn new(mem: SharedMemory, fs: SandboxFs) -> (r: Result<Kernel, VmError>)
        requires
            mem.wf(),
        ensures
            r is Err <==> !fs.wf(),
            r is Err ==> r->Err_0 == VmError::InvalidInput,
            match r {
                Ok(k) => {
                    &&& k.wf()
                    &&& k.mem == mem
                    &&& k.fs == fs
                    &&& k.procs@.len() == 0
                    &&& k.next_pid == 1
                    &&& k.input@.len() == 0
                    &&& k.host_output@.len() == 0
                    &&& k.pending_exit@.len() == 0
                    &&& k.pending_block@.len() == 0
                    &&& k.syscalls.handlers@.len() == 0
                },
                Err(_) => true,
            },
    {
        if !fs.validate() {
            return Err(VmError::InvalidInput);
        }
        Ok(
            Kernel {
                mem,
                syscalls: SyscallTable::new(),
                procs: Vec::new(),
                next_pid: 1,
                fs,
                input: VecDeque::new(),
                host_output: Vec::new(),
                pending_exit: Vec::new(),
                pending_block: Vec::new(),
            },
        )
    }

    /// Register a syscall handler on the shared registry.
    pub fn register_syscall(&mut self, id: u16, handler: SyscallHandler) -> (r: Result<
        (),
        VmError,
    >)
        requires
            old(self).wf(),
        ensures
            final(self).wf(),
            r is Err <==> !(0x0100 <= id < 0x0200),
            r is Ok ==> table_lookup(final(self).syscalls.handlers@, id) == Some(handler),
            r is Ok ==> forall|other: u16|
                other != id ==> #[trigger] table_lookup(final(self).syscalls.handlers@, other)
                    == table_lookup(old(self).syscalls.handlers@, other),
            final(self).mem == old(self).mem,
            final(self).procs@ == old(self).procs@,
            final(self).fs == old(self).fs,
            final(self).next_pid == old(self).next_pid,
            final(self).input@ == old(self).input@,
            final(self).host_output@ == old(self).host_output@,
            final(self).pending_exit@ == old(self).pending_exit@,
            final(self).pending_block@ == old(self).pending_block@,
    {
        self.syscalls.register(id, handler)
    }

    /// Register the base syscalls under their reserved IDs.
    pub fn register_base_syscalls(&mut self) -> (r: Result<(), VmError>)
        requires
            old(self).wf(),
        ensures
            final(self).wf(),
            r is Ok,
            table_lookup(final(self).syscalls.handlers@, SYS_SPAWN) == Some(SyscallHandler::Spawn),
            table_lookup(final(self).syscalls.handlers@, SYS_EXIT) == Some(SyscallHandler::Exit),
            table_lookup(final(self).syscalls.handlers@, SYS_WAIT) == Some(SyscallHandler::Wait),
            table_lookup(final(self).syscalls.handlers@, SYS_YIELD) == Some(SyscallHandler::Yield),
            table_lookup(final(self).syscalls.handlers@, SYS_WRITE) == Some(SyscallHandler::Write),
            table_lookup(final(self).syscalls.handlers@, SYS_READ) == Some(SyscallHandler::Read),
            table_lookup(final(self).syscalls.handlers@, SYS_INPUT_MODE) == Some(
                SyscallHandler::InputMode,
            ),
            table_lookup(final(self).syscalls.handlers@, SYS_CONSOLE_MODE) == Some(
                SyscallHandler::ConsoleMode,
            ),
            table_lookup(final(self).syscalls.handlers@, SYS_FS_LIST) == Some(
                SyscallHandler::FsList,
            ),
            table_lookup(final(self).syscalls.handlers@, SYS_FS_OPEN) == Some(
                SyscallHandler::FsOpen,
            ),
            table_lookup(final(self).syscalls.handlers@, SYS_FS_READ) == Some(
                SyscallHandler::FsRead,
            ),
            table_lookup(final(self).syscalls.handlers@, SYS_FS_CLOSE) == Some(
                SyscallHandler::FsClose,
            ),
            final(self).mem == old(self).mem,
            final(self).procs@ == old(self).procs@,
            final(self).fs == old(self).fs,
            final(self).next_pid == old(self).next_pid,
            final(self).input@ == old(self).input@,
            final(self).host_output@ == old(self).host_output@,
            final(self).pending_exit@ == old(self).pending_exit@,
            final(self).pending_block@ == old(self).pending_block@,
    {
        let _ = self.register_syscall(SYS_SPAWN, SyscallHandler::Spawn);
        let _ = self.register_syscall(SYS_EXIT, SyscallHandler::Exit);
        let _ = self.register_syscall(SYS_WAIT, SyscallHandler::Wait);
        let _ = self.register_syscall(SYS_YIELD, SyscallHandler::Yield);
        let _ = self.register_syscall(SYS_WRITE, SyscallHandler::Write);
        let _ = self.register_syscall(SYS_READ, SyscallHandler::Read);
        let _ = self.register_syscall(SYS_INPUT_MODE, SyscallHandler::InputMode);
        let _ = self.register_syscall(SYS_CONSOLE_MODE, SyscallHandler::ConsoleMode);
        let _ = self.register_syscall(SYS_FS_LIST, SyscallHandler::FsList);
        let _ = self.register_syscall(SYS_FS_OPEN, SyscallHandler::FsOpen);
        let _ = self.register_syscall(SYS_FS_READ, SyscallHandler::FsRead);
        let _ = self.register_syscall(SYS_FS_CLOSE, SyscallHandler::FsClose);
        Ok(())
    }

    /// Create a new process over freshly allocated pages and schedule it
    /// as `Running`. The new page table is disjoint from every existing
    /// process's; the arena's bytes are untouched. The pid counter
    /// advances whether or not the allocation succeeds.
    pub fn spawn_proc(&mut self, pages: u16) -> (r: Result<u32, VmError>)
        requires
            old(self).wf(),
        ensures
            final(self).wf(),
            final(self).next_pid == wrap32_add(old(self).next_pid, 1),
            final(self).mem.phys_mem@ == old(self).mem.phys_mem@,
            final(self).syscalls == old(self).syscalls,
            final(self).fs == old(self).fs,
            final(self).input@ == old(self).input@,
            final(self).host_output@ == old(self).host_output@,
            final(self).pending_exit@ == old(self).pending_exit@,
            final(self).pending_block@ == old(self).pending_block@,
            r is Err <==> (pages == 0 || count_free(old(self).mem.bitmap()) < pages as nat),
            match r {
                Ok(pid) => {
                    &&& pid == old(self).next_pid
                    &&& final(self).procs@.len() == old(self).procs@.len() + 1
                    &&& forall|i: int|
                        0 <= i < old(self).procs@.len() ==> final(self).procs@[i] == old(
                            self,
                        ).procs@[i]
                    &&& final(self).mem.bitmap().len() == old(self).mem.bitmap().len()
                    &&& forall|q: int|
                        0 <= q < crate::shared_memory::PHYS_PAGE_COUNT && old(
                            self,
                        ).mem.bitmap()[q] ==> #[trigger] final(self).mem.bitmap()[q]
                    &&& forall|q: int|
                        0 <= q < crate::shared_memory::PHYS_PAGE_COUNT && !(exists|i: int|
                            0 <= i < final(self).procs@.last().proc.page_table@.len() && (
                            #[trigger] final(self).procs@.last().proc.page_table@[i]) as int
                                / PAGE_SIZE as int == q)
                            ==> #[trigger] final(self).mem.bitmap()[q] == old(self).mem.bitmap()[q]
                    &&& ({
                        let e = final(self).procs@.last();
                        &&& e.pid == pid
                        &&& e.state == ProcState::Running
                        &&& e.exit_code is None
                        &&& e.waiting_for is None
                        &&& e.proc.wf()
                        &&& e.proc.page_table@.len() == pages as int
                        &&& e.proc.vm_size as int == pages as int * PAGE_SIZE as int
                        &&& e.proc.regs.PC == 0x200
                        &&& e.proc.fds@.len() == 0
                        &&& forall|k: int|
                            0 <= k < e.proc.page_table@.len() ==> !old(self).mem.bitmap()[(
                            #[trigger] e.proc.page_table@[k]) as int / PAGE_SIZE as int]
                        &&& forall|i: int|
                            0 <= i < old(self).procs@.len() ==> tables_disjoint(
                                e.proc,
                                (#[trigger] old(self).procs@[i]).proc,
                            )
                    })
                },
                Err(_) => {
                    &&& final(self).procs@ == old(self).procs@
                    &&& final(self).mem.bitmap() == old(self).mem.bitmap()
                },
            },
    {
        let pid = self.next_pid;
        self.next_pid = self.next_pid.wrapping_add(1);
        let display = crate::display::Screen::new();
        let new_proc = match Proc::new_with_display_and_pages(&mut self.mem, display, pages) {
            Ok(p) => p,
            Err(e) => {
                return Err(e);
            },
        };
        proof {
            // the fresh pages were free, while every existing process's
            // pages are in use: the tables are disjoint.
            assert forall|i: int| 0 <= i < old(self).procs@.len() implies tables_disjoint(
                new_proc,
                (#[trigger] old(self).procs@[i]).proc,
            ) by {
                let p = old(self).procs@[i].proc;
                assert forall|a: int, b: int|
                    0 <= a < new_proc.page_table@.len() && 0 <= b
                        < p.page_table@.len() implies (#[trigger] new_proc.page_table@[a]) != (
                #[trigger] p.page_table@[b]) by {
                    if new_proc.page_table@[a] == p.page_table@[b] {
                        assert(old(self).mem.bitmap()[p.page_table@[b] as int / PAGE_SIZE as int]);
                        assert(!old(self).mem.bitmap()[new_proc.page_table@[a] as int
                            / PAGE_SIZE as int]);
                    }
                }
            }
            // existing processes keep their pages marked used.
            assert forall|i: int| 0 <= i < old(self).procs@.len() implies entry_ok(
                #[trigger] old(self).procs@[i],
                self.mem,
                self.fs,
            ) by {
                let p = old(self).procs@[i].proc;
                assert forall|k: int| 0 <= k < p.page_table@.len() implies self.mem.bitmap()[(
                #[trigger] p.page_table@[k]) as int / PAGE_SIZE as int] by {
                    assert(old(self).mem.bitmap()[p.page_table@[k] as int / PAGE_SIZE as int]);
                }
            }
        }
        let entry = ProcEntry {
            pid,
            proc: new_proc,
            state: ProcState::Running,
            exit_code: None,
            waiting_for: None,
        };
        self.procs.push(entry);
        proof {
            assert forall|k: int|
                0 <= k < self.procs@.last().proc.page_table@.len() implies self.mem.bitmap()[(
            #[trigger] self.procs@.last().proc.page_table@[k]) as int / PAGE_SIZE as int] by {}
            assert forall|i: int, j: int|
                0 <= i < j < self.procs@.len() implies tables_disjoint(
                self.procs@[i].proc,
                self.procs@[j].proc,
            ) by {
                if j < self.procs@.len() - 1 {
                    assert(tables_disjoint(
                        old(self).procs@[i].proc,
                        old(self).procs@[j].proc,
                    ));
                } else {
                    assert(tables_disjoint(self.procs@[j].proc, old(self).procs@[i].proc));
                    lemma_disjoint_symmetric(self.procs@[j].proc, old(self).procs@[i].proc);
                }
            }
        }
        Ok(pid)
    }

    /// Index of the entry for `pid`, if any.
    pub fn proc_index(&self, pid: u32) -> (r: Option<usize>)
        ensures
            match r {
                Some(i) => find_pid(self.procs@, pid) == Some(i as int) && i < self.procs@.len()
                    && self.procs@[i as int].pid == pid,
                None => find_pid(self.procs@, pid) is None,
            },
    {
        let mut i: usize = 0;
        while i < self.procs.len()
            invariant
                i <= self.procs@.len(),
                find_pid(self.procs@, pid) == find_pid_from(self.procs@, pid, i as int),
            decreases self.procs@.len() - i,
        {
            if self.procs[i].pid == pid {
                return Some(i);
            }
            i = i + 1;
        }
        None
    }

    /// Borrow the process for `pid`, for inspection.
    pub fn proc(&self, pid: u32) -> (r: Option<&Proc>)
        ensures
            match r {
                Some(p) => {
                    &&& find_pid(self.procs@, pid) matches Some(i) && *p == self.procs@[i].proc
                },
                None => find_pid(self.procs@, pid) is None,
            },
    {
        match self.proc_index(pid) {
            Some(i) => Some(&self.procs[i].proc),
            None => None,
        }
    }

    /// The current scheduler state for `pid`.
    pub fn proc_state(&self, pid: u32) -> (r: Option<ProcState>)
        ensures
            match r {
                Some(st) => {
                    &&& find_pid(self.procs@, pid) matches Some(i) && st == self.procs@[i].state
                },
                None => find_pid(self.procs@, pid) is None,
            },
    {
        match self.proc_index(pid) {
            Some(i) => Some(self.procs[i].state),
            None => None,
        }
    }
}

/// Whether argument word `idx` of the syscall frame at register `I` can
/// be read: the length header is inside the address space, the argument
/// lies within the declared frame length, and its two bytes are inside
/// the address space.
pub open spec fn arg_ok(p: Proc, m: SharedMemory, idx: int) -> bool {
    let base = p.regs.I as int;
    &&& base < p.vm_size as int
    &&& 1 + 2 * idx + 1 < p.gview(m)[base] as int
    &&& base + 1 + 2 * idx + 2 <= p.vm_size as int
}

/// Argument word `idx` of the syscall frame: big-endian, at offset
/// `1 + 2 * idx` from register `I`.
pub open spec fn arg_val(p: Proc, m: SharedMemory, idx: int) -> u16 {
    let base = p.regs.I as int;
    (p.gview(m)[base + 1 + 2 * idx] * 256 + p.gview(m)[base + 2 + 2 * idx]) as u16
}

/// Read one argument word from the syscall call frame in guest memory.
pub fn syscall_arg(proc: &Proc, mem: &SharedMemory, index: usize) -> (r: Result<u16, VmError>)
    requires
        proc.wf(),
        mem.wf(),
    ensures
        r is Ok <==> arg_ok(*proc, *mem, index as int),
        r is Ok ==> r->Ok_0 == arg_val(*proc, *mem, index as int),
{
    let base = proc.regs.I as u32;
    let frame_len = match proc.read_u8(mem, base) {
        Ok(b) => b as usize,
        Err(e) => {
            return Err(e);
        },
    };
    // the length header is one byte, so no frame can declare an argument
    // beyond this index.
    if index >= 127 {
        return Err(VmError::InvalidInput);
    }
    let offset = 1 + index * 2;
    if offset + 1 >= frame_len {
        return Err(VmError::InvalidInput);
    }
    match proc.read_u16(mem, base + offset as u32) {
        Ok(v) => Ok(v),
        Err(e) => Err(e),
    }
}

/// First newline position in a queue, scanning from `i`.
pub open spec fn first_nl_from(q: Seq<u8>, i: int) -> Option<int>
    decreases q.len() - i,
{
    if i < 0 || i >= q.len() {
        None
    } else if q[i] == 10u8 {
        Some(i)
    } else {
        first_nl_from(q, i + 1)
    }
}

pub open spec fn first_nl(q: Seq<u8>) -> Option<int> {
    first_nl_from(q, 0)
}

/// Dropping a prefix of a queue with no newline leaves no newline.
proof fn lemma_no_nl_skip(q: Seq<u8>, c: int)
    requires
        first_nl(q) is None,
        0 <= c <= q.len(),
    ensures
        first_nl(q.skip(c)) is None,
{
    lemma_nl_none_means_no_nl(q, 0);
    lemma_no_nl_means_none(q.skip(c), 0);
}

/// If the scan finds nothing, no position holds a newline.
proof fn lemma_nl_none_means_no_nl(q: Seq<u8>, i: int)
    requires
        0 <= i <= q.len(),
        first_nl_from(q, i) is None,
    ensures
        forall|j: int| i <= j < q.len() ==> q[j] != 10u8,
    decreases q.len() - i,
{
    if i < q.len() {
        lemma_nl_none_means_no_nl(q, i + 1);
    }
}

/// If no position holds a newline, the scan finds nothing.
proof fn lemma_no_nl_means_none(q: Seq<u8>, i: int)
    requires
        0 <= i <= q.len(),
        forall|j: int| 0 <= j < q.len() ==> q[j] != 10u8,
    ensures
        first_nl_from(q, i) is None,
    decreases q.len() - i,
{
    if i < q.len() {
        lemma_no_nl_means_none(q, i + 1);
    }
}

impl Kernel {
    /// Position of the first newline byte in an input queue.
    pub fn find_newline_in(input: &VecDeque<u8>) -> (r: Option<usize>)
        ensures
            match r {
                Some(i) => first_nl(input@) == Some(i as int) && i < input@.len()
                    && input@[i as int] == 10u8,
                None => first_nl(input@) is None,
            },
    {
        let mut i: usize = 0;
        while i < input.len()
            invariant
                i <= input@.len(),
                first_nl(input@) == first_nl_from(input@, i as int),
            decreases input@.len() - i,
        {
            if input[i] == 10 {
                return Some(i);
            }
            i = i + 1;
        }
        None
    }

    /// Take up to `count` bytes off the front of a queue, in order.
    pub fn pop_input(input: &mut VecDeque<u8>, count: usize) -> (data: Vec<u8>)
        ensures
            ({
                let c = if count <= old(input)@.len() {
                    count as int
                } else {
                    old(input)@.len() as int
                };
                &&& data@ == old(input)@.take(c)
                &&& final(input)@ == old(input)@.skip(c)
            }),
    {
        let c = if count <= input.len() {
            count
        } else {
            input.len()
        };
        let mut data: Vec<u8> = Vec::new();
        let mut taken: usize = 0;
        while taken < c
            invariant
                c <= old(input)@.len(),
                taken <= c,
                data@.len() == taken,
                data@ == old(input)@.take(taken as int),
                input@ == old(input)@.skip(taken as int),
            decreases c - taken,
        {
            match input.pop_front() {
                Some(byte) => {
                    data.push(byte);
                    proof {
                        assert(data@ =~= old(input)@.take(taken as int + 1));
                        assert(input@ =~= old(input)@.skip(taken as int + 1));
                    }
                },
                None => {
                    proof {
                        assert(false);
                    }
                },
            }
            taken = taken + 1;
        }
        data
    }
}


/// All kernel fields except the process table, the pending lists, the
/// host input queue and the host output buffer are unchanged.
pub open spec fn kernel_same_core(a: Kernel, b: Kernel) -> bool {
    &&& b.mem.phys_mem@ == a.mem.phys_mem@
    &&& b.mem.bitmap() == a.mem.bitmap()
    &&& b.syscalls == a.syscalls
    &&& b.next_pid == a.next_pid
    &&& b.fs == a.fs
}

/// Nothing in the kernel changed at all.
pub open spec fn kernel_unchanged(a: Kernel, b: Kernel) -> bool {
    &&& kernel_same_core(a, b)
    &&& b.procs@ == a.procs@
    &&& b.input@ == a.input@
    &&& b.host_output@ == a.host_output@
    &&& b.pending_exit@ == a.pending_exit@
    &&& b.pending_block@ == a.pending_block@
}

/// The caller's registers report a syscall error: the code in `V[0]`, the
/// flag set; nothing else of the process changed.
pub open spec fn syscall_error(p0: Proc, p1: Proc, code: u8) -> bool {
    &&& crate::chip8_engine::same_core(p0, p1)
    &&& crate::chip8_engine::same_display(p0, p1)
    &&& p1.regs.DT == p0.regs.DT && p1.regs.ST == p0.regs.ST && p1.regs.I == p0.regs.I
        && p1.regs.SP == p0.regs.SP && p1.regs.PC == p0.regs.PC
    &&& p1.regs.V@ == p0.regs.V@.update(0, code).update(15, 1u8)
}

/// `exit`: record the exit code for the scheduler to reconcile after this
/// step; the actual transition and the waking of waiters happen in
/// `apply_pending`.
pub fn sys_exit(kernel: &mut Kernel, pid: u32, proc: &mut Proc) -> (outcome: SyscallOutcome)
    requires
        old(kernel).wf(),
        old(proc).wf(),
    ensures
        final(kernel).wf(),
        final(proc).wf(),
        kernel_same_core(*old(kernel), *final(kernel)),
        final(kernel).procs@ == old(kernel).procs@,
        final(kernel).input@ == old(kernel).input@,
        final(kernel).host_output@ == old(kernel).host_output@,
        final(kernel).pending_block@ == old(kernel).pending_block@,
        final(kernel).pending_exit@ == old(kernel).pending_exit@.push(
            (
                pid,
                (if arg_ok(*old(proc), old(kernel).mem, 0) {
                    arg_val(*old(proc), old(kernel).mem, 0) as u8
                } else {
                    0u8
                }),
            ),
        ),
        crate::chip8_engine::same_core(*old(proc), *final(proc)),
        crate::chip8_engine::same_display(*old(proc), *final(proc)),
        final(proc).regs.V@ == old(proc).regs.V@.update(15, 0u8),
        final(proc).regs.DT == old(proc).regs.DT && final(proc).regs.ST == old(proc).regs.ST
            && final(proc).regs.I == old(proc).regs.I && final(proc).regs.SP == old(
            proc,
        ).regs.SP && final(proc).regs.PC == old(proc).regs.PC,
        outcome == SyscallOutcome::Completed,
{
    let code = match syscall_arg(proc, &kernel.mem, 0) {
        Ok(v) => v as u8,
        Err(_) => 0,
    };
    kernel.pending_exit.push((pid, code));
    proc.regs.V[0xF] = 0;
    SyscallOutcome::Completed
}

/// `yield`: give up the rest of the time slice.
pub fn sys_yield(kernel: &mut Kernel, pid: u32, proc: &mut Proc) -> (outcome: SyscallOutcome)
    requires
        old(kernel).wf(),
        old(proc).wf(),
    ensures
        final(kernel).wf(),
        final(proc).wf(),
        kernel_unchanged(*old(kernel), *final(kernel)),
        crate::chip8_engine::same_core(*old(proc), *final(proc)),
        crate::chip8_engine::same_display(*old(proc), *final(proc)),
        final(proc).regs.V@ == old(proc).regs.V@.update(15, 0u8),
        final(proc).regs.DT == old(proc).regs.DT && final(proc).regs.ST == old(proc).regs.ST
            && final(proc).regs.I == old(proc).regs.I && final(proc).regs.SP == old(
            proc,
        ).regs.SP && final(proc).regs.PC == old(proc).regs.PC,
        outcome == SyscallOutcome::Yielded,
{
    proc.regs.V[0xF] = 0;
    SyscallOutcome::Yielded
}

/// `wait`: return the target's exit code at once when it has already
/// exited; otherwise record a block on the target's pid, to be applied by
/// the scheduler. An unreadable argument or an unknown pid is an error.
pub fn sys_wait(kernel: &mut Kernel, pid: u32, proc: &mut Proc) -> (outcome: SyscallOutcome)
    requires
        old(kernel).wf(),
        old(proc).wf(),
    ensures
        final(kernel).wf(),
        final(proc).wf(),
        kernel_same_core(*old(kernel), *final(kernel)),
        final(kernel).procs@ == old(kernel).procs@,
        final(kernel).input@ == old(kernel).input@,
        final(kernel).host_output@ == old(kernel).host_output@,
        final(kernel).pending_exit@ == old(kernel).pending_exit@,
        crate::chip8_engine::same_core(*old(proc), *final(proc)),
        crate::chip8_engine::same_display(*old(proc), *final(proc)),
        final(proc).regs.DT == old(proc).regs.DT && final(proc).regs.ST == old(proc).regs.ST
            && final(proc).regs.I == old(proc).regs.I && final(proc).regs.SP == old(
            proc,
        ).regs.SP && final(proc).regs.PC == old(proc).regs.PC,
        ({
            let k0 = *old(kernel);
            let p0 = *old(proc);
            if !arg_ok(p0, k0.mem, 0) {
                &&& syscall_error(p0, *final(proc), ERR_INVALID)
                &&& final(kernel).pending_block@ == k0.pending_block@
                &&& outcome == SyscallOutcome::Completed
            } else {
                let target = arg_val(p0, k0.mem, 0) as u32;
                match find_pid(k0.procs@, target) {
                    Some(i) => {
                        if k0.procs@[i].state == ProcState::Exited {
                            &&& final(proc).regs.V@ == p0.regs.V@.update(
                                0,
                                (match k0.procs@[i].exit_code {
                                    Some(c) => c,
                                    None => 0u8,
                                }),
                            ).update(15, 0u8)
                            &&& final(kernel).pending_block@ == k0.pending_block@
                            &&& outcome == SyscallOutcome::Completed
                        } else {
                            &&& final(proc).regs.V@ == p0.regs.V@
                            &&& final(kernel).pending_block@ == k0.pending_block@.push(
                                (pid, WaitTarget::Pid(target)),
                            )
                            &&& outcome == SyscallOutcome::Blocked
                        }
                    },
                    None => {
                        &&& syscall_error(p0, *final(proc), ERR_INVALID)
                        &&& final(kernel).pending_block@ == k0.pending_block@
                        &&& outcome == SyscallOutcome::Completed
                    },
                }
            }
        }),
{
    let target = match syscall_arg(proc, &kernel.mem, 0) {
        Ok(v) => v as u32,
        Err(_) => {
            proc.regs.V[0] = ERR_INVALID;
            proc.regs.V[0xF] = 1;
            return SyscallOutcome::Completed;
        },
    };
    let idx = match kernel.proc_index(target) {
        Some(i) => i,
        None => {
            proc.regs.V[0] = ERR_INVALID;
            proc.regs.V[0xF] = 1;
            return SyscallOutcome::Completed;
        },
    };
    if kernel.procs[idx].state == ProcState::Exited {
        let code = match kernel.procs[idx].exit_code {
            Some(c) => c,
            None => 0,
        };
        proc.regs.V[0] = code;
        proc.regs.V[0xF] = 0;
        return SyscallOutcome::Completed;
    }
    kernel.pending_block.push((pid, WaitTarget::Pid(target)));
    SyscallOutcome::Blocked
}

/// `input_mode`: select line or byte input delivery.
pub fn sys_input_mode(kernel: &mut Kernel, pid: u32, proc: &mut Proc) -> (outcome: SyscallOutcome)
    requires
        old(kernel).wf(),
        old(proc).wf(),
    ensures
        final(kernel).wf(),
        final(proc).wf(),
        kernel_unchanged(*old(kernel), *final(kernel)),
        final(proc).regs.DT == old(proc).regs.DT && final(proc).regs.ST == old(proc).regs.ST
            && final(proc).regs.I == old(proc).regs.I && final(proc).regs.SP == old(
            proc,
        ).regs.SP && final(proc).regs.PC == old(proc).regs.PC,
        crate::chip8_engine::same_display(*old(proc), *final(proc)),
        final(proc).page_table@ == old(proc).page_table@,
        final(proc).vm_size == old(proc).vm_size,
        final(proc).console_mode == old(proc).console_mode,
        final(proc).console_input@ == old(proc).console_input@,
        final(proc).fds@ == old(proc).fds@,
        final(proc).next_fd == old(proc).next_fd,
        ({
            let p0 = *old(proc);
            let m = old(kernel).mem;
            if arg_ok(p0, m, 0) && arg_val(p0, m, 0) == 0 {
                &&& final(proc).input_mode == InputMode::Line
                &&& final(proc).regs.V@ == p0.regs.V@.update(15, 0u8)
            } else if arg_ok(p0, m, 0) && arg_val(p0, m, 0) == 1 {
                &&& final(proc).input_mode == InputMode::Byte
                &&& final(proc).regs.V@ == p0.regs.V@.update(15, 0u8)
            } else {
                &&& final(proc).input_mode == p0.input_mode
                &&& final(proc).regs.V@ == p0.regs.V@.update(0, ERR_INVALID).update(15, 1u8)
            }
        }),
        outcome == SyscallOutcome::Completed,
{
    let mode = match syscall_arg(proc, &kernel.mem, 0) {
        Ok(0) => InputMode::Line,
        Ok(1) => InputMode::Byte,
        _ => {
            proc.regs.V[0] = ERR_INVALID;
            proc.regs.V[0xF] = 1;
            return SyscallOutcome::Completed;
        },
    };
    proc.input_mode = mode;
    proc.regs.V[0xF] = 0;
    SyscallOutcome::Completed
}

/// `console_mode`: route console I/O to the host streams or to the
/// process's display surface; switching clears the console input queue
/// and retargets the display's rendering mode.
pub fn sys_console_mode(kernel: &mut Kernel, pid: u32, proc: &mut Proc) -> (outcome:
    SyscallOutcome)
    requires
        old(kernel).wf(),
        old(proc).wf(),
    ensures
        final(kernel).wf(),
        final(proc).wf(),
        kernel_unchanged(*old(kernel), *final(kernel)),
        final(proc).regs.DT == old(proc).regs.DT && final(proc).regs.ST == old(proc).regs.ST
            && final(proc).regs.I == old(proc).regs.I && final(proc).regs.SP == old(
            proc,
        ).regs.SP && final(proc).regs.PC == old(proc).regs.PC,
        final(proc).page_table@ == old(proc).page_table@,
        final(proc).vm_size == old(proc).vm_size,
        final(proc).input_mode == old(proc).input_mode,
        final(proc).fds@ == old(proc).fds@,
        final(proc).next_fd == old(proc).next_fd,
        final(proc).display.buf@ == old(proc).display.buf@,
        final(proc).display.key_down@ == old(proc).display.key_down@,
        final(proc).display.typed@ == old(proc).display.typed@,
        final(proc).display.text_out@ == old(proc).display.text_out@,
        ({
            let p0 = *old(proc);
            let m = old(kernel).mem;
            if arg_ok(p0, m, 0) && arg_val(p0, m, 0) == 0 {
                &&& final(proc).console_mode == ConsoleMode::Host
                &&& final(proc).console_input@.len() == 0
                &&& final(proc).display.mode == crate::display::DisplayMode::Chip8
                &&& final(proc).regs.V@ == p0.regs.V@.update(15, 0u8)
            } else if arg_ok(p0, m, 0) && arg_val(p0, m, 0) == 1 {
                &&& final(proc).console_mode == ConsoleMode::Display
                &&& final(proc).console_input@.len() == 0
                &&& final(proc).display.mode == crate::display::DisplayMode::Console
                &&& final(proc).regs.V@ == p0.regs.V@.update(15, 0u8)
            } else {
                &&& final(proc).console_mode == p0.console_mode
                &&& final(proc).console_input@ == p0.console_input@
                &&& final(proc).display.mode == p0.display.mode
                &&& final(proc).regs.V@ == p0.regs.V@.update(0, ERR_INVALID).update(15, 1u8)
            }
        }),
        outcome == SyscallOutcome::Completed,
{
    let mode = match syscall_arg(proc, &kernel.mem, 0) {
        Ok(0) => ConsoleMode::Host,
        Ok(1) => ConsoleMode::Display,
        _ => {
            proc.regs.V[0] = ERR_INVALID;
            proc.regs.V[0xF] = 1;
            return SyscallOutcome::Completed;
        },
    };
    proc.console_mode = mode;
    proc.console_input.clear();
    match mode {
        ConsoleMode::Display => {
            proc.display.set_mode(crate::display::DisplayMode::Console);
        },
        ConsoleMode::Host => {
            proc.display.set_mode(crate::display::DisplayMode::Chip8);
        },
    }
    proc.regs.V[0xF] = 0;
    SyscallOutcome::Completed
}

/// `write`: copy `len` bytes from guest memory to the console. In display
/// console mode they land on the process's text surface; in host mode
/// they are buffered for the host to flush to its standard output. The
/// count written (clamped to 255) is returned in `V[0]`.
pub fn sys_write(kernel: &mut Kernel, pid: u32, proc: &mut Proc) -> (outcome: SyscallOutcome)
    requires
        old(kernel).wf(),
        old(proc).wf(),
    ensures
        final(kernel).wf(),
        final(proc).wf(),
        kernel_same_core(*old(kernel), *final(kernel)),
        final(kernel).procs@ == old(kernel).procs@,
        final(kernel).input@ == old(kernel).input@,
        final(kernel).pending_exit@ == old(kernel).pending_exit@,
        final(kernel).pending_block@ == old(kernel).pending_block@,
        crate::chip8_engine::same_core(*old(proc), *final(proc)),
        final(proc).regs.DT == old(proc).regs.DT && final(proc).regs.ST == old(proc).regs.ST
            && final(proc).regs.I == old(proc).regs.I && final(proc).regs.SP == old(
            proc,
        ).regs.SP && final(proc).regs.PC == old(proc).regs.PC,
        final(proc).display.buf@ == old(proc).display.buf@,
        final(proc).display.key_down@ == old(proc).display.key_down@,
        final(proc).display.typed@ == old(proc).display.typed@,
        final(proc).display.mode == old(proc).display.mode,
        ({
            let p0 = *old(proc);
            let k0 = *old(kernel);
            let m = k0.mem;
            if !(arg_ok(p0, m, 0) && arg_ok(p0, m, 1)) {
                &&& syscall_error(p0, *final(proc), ERR_INVALID)
                &&& final(kernel).host_output@ == k0.host_output@
                &&& final(proc).display.text_out@ == p0.display.text_out@
            } else {
                let buf = arg_val(p0, m, 0);
                let len = arg_val(p0, m, 1);
                if len as int > 0 && buf as int + len as int > p0.vm_size as int {
                    &&& syscall_error(p0, *final(proc), ERR_INVALID)
                    &&& final(kernel).host_output@ == k0.host_output@
                    &&& final(proc).display.text_out@ == p0.display.text_out@
                } else {
                    let data = Seq::new(len as nat, |j: int| p0.gview(m)[buf as int + j]);
                    let v0 = (if len <= 255 {
                        len
                    } else {
                        255
                    }) as u8;
                    &&& final(proc).regs.V@ == p0.regs.V@.update(0, v0).update(15, 0u8)
                    &&& if p0.console_mode == ConsoleMode::Display {
                        &&& final(proc).display.text_out@ == p0.display.text_out@ + data
                        &&& final(kernel).host_output@ == k0.host_output@
                    } else {
                        &&& final(proc).display.text_out@ == p0.display.text_out@
                        &&& final(kernel).host_output@ == k0.host_output@ + data
                    }
                }
            }
        }),
        outcome == SyscallOutcome::Completed,
{
    let buf = match syscall_arg(proc, &kernel.mem, 0) {
        Ok(v) => v,
        Err(_) => {
            proc.regs.V[0] = ERR_INVALID;
            proc.regs.V[0xF] = 1;
            return SyscallOutcome::Completed;
        },
    };
    let len = match syscall_arg(proc, &kernel.mem, 1) {
        Ok(v) => v,
        Err(_) => {
            proc.regs.V[0] = ERR_INVALID;
            proc.regs.V[0xF] = 1;
            return SyscallOutcome::Completed;
        },
    };
    let data = match proc.read_bytes(&kernel.mem, buf as u32, len as usize) {
        Ok(d) => d,
        Err(_) => {
            proc.regs.V[0] = ERR_INVALID;
            proc.regs.V[0xF] = 1;
            return SyscallOutcome::Completed;
        },
    };
    proof {
        assert(data@ =~= Seq::new(
            len as nat,
            |j: int| old(proc).gview(old(kernel).mem)[buf as int + j],
        ));
    }
    let v0: u8 = if len <= 255 {
        len as u8
    } else {
        255
    };
    if proc.console_mode == ConsoleMode::Display {
        proc.display.console_write(data.as_slice());
        proc.regs.V[0] = v0;
        proc.regs.V[0xF] = 0;
        return SyscallOutcome::Completed;
    }
    let mut i: usize = 0;
    while i < data.len()
        invariant
            i <= data@.len(),
            kernel.host_output@ == old(kernel).host_output@ + data@.take(i as int),
            kernel.mem == old(kernel).mem,
            kernel.procs@ == old(kernel).procs@,
            kernel.syscalls == old(kernel).syscalls,
            kernel.next_pid == old(kernel).next_pid,
            kernel.fs == old(kernel).fs,
            kernel.input@ == old(kernel).input@,
            kernel.pending_exit@ == old(kernel).pending_exit@,
            kernel.pending_block@ == old(kernel).pending_block@,
        decreases data@.len() - i,
    {
        kernel.host_output.push(data[i]);
        proof {
            assert(old(kernel).host_output@ + data@.take(i as int + 1) =~= (old(
                kernel,
            ).host_output@ + data@.take(i as int)).push(data@[i as int]));
        }
        i = i + 1;
    }
    proof {
        assert(data@.take(data@.len() as int) =~= data@);
    }
    proc.regs.V[0] = v0;
    proc.regs.V[0xF] = 0;
    SyscallOutcome::Completed
}

/// How a read delivery leaves the reader: `count` bytes of the queue's
/// front written at `buf`, the count in `V[0]` and a clear flag on
/// success; the invalid-argument error flagged when the buffer runs out
/// of the address space. The queue itself is accounted for by the caller.
pub open spec fn delivered(
    p0: Proc,
    p1: Proc,
    m0: SharedMemory,
    m1: SharedMemory,
    q: Seq<u8>,
    buf: u16,
    count: int,
) -> bool {
    &&& p1.page_table@ == p0.page_table@
    &&& p1.vm_size == p0.vm_size
    &&& p1.input_mode == p0.input_mode
    &&& p1.console_mode == p0.console_mode
    &&& p1.fds@ == p0.fds@
    &&& p1.next_fd == p0.next_fd
    &&& crate::chip8_engine::same_display(p0, p1)
    &&& p1.regs.DT == p0.regs.DT && p1.regs.ST == p0.regs.ST && p1.regs.I == p0.regs.I
        && p1.regs.SP == p0.regs.SP && p1.regs.PC == p0.regs.PC
    &&& if count == 0 || buf as int + count <= p0.vm_size as int {
        &&& forall|w: int|
            0 <= w < p0.vm_size ==> p0.gview(m1)[w] == (if buf as int <= w < buf as int + count {
                q[w - buf as int]
            } else {
                p0.gview(m0)[w]
            })
        &&& p1.regs.V@ == p0.regs.V@.update(
            0,
            (if count <= 255 {
                count
            } else {
                255
            }) as u8,
        ).update(15, 0u8)
    } else {
        p1.regs.V@ == p0.regs.V@.update(0, ERR_INVALID).update(15, 1u8)
    }
}

/// Write already-dequeued bytes into the reader's buffer and set its
/// result registers.
fn deliver_data(proc: &mut Proc, mem: &mut SharedMemory, data: &Vec<u8>, buf: u16)
    requires
        old(proc).wf(),
        old(mem).wf(),
    ensures
        final(proc).wf(),
        final(mem).wf(),
        final(mem).bitmap() == old(mem).bitmap(),
        final(proc).console_input@ == old(proc).console_input@,
        final(proc).page_table@ == old(proc).page_table@,
        final(proc).vm_size == old(proc).vm_size,
        final(proc).input_mode == old(proc).input_mode,
        final(proc).console_mode == old(proc).console_mode,
        final(proc).fds@ == old(proc).fds@,
        final(proc).next_fd == old(proc).next_fd,
        crate::chip8_engine::same_display(*old(proc), *final(proc)),
        final(proc).regs.DT == old(proc).regs.DT,
        final(proc).regs.ST == old(proc).regs.ST,
        final(proc).regs.I == old(proc).regs.I,
        final(proc).regs.SP == old(proc).regs.SP,
        final(proc).regs.PC == old(proc).regs.PC,
        forall|q: Seq<u8>|
            q.len() >= data@.len() && q.take(data@.len() as int) == data@ ==> #[trigger] delivered(
                *old(proc),
                *final(proc),
                *old(mem),
                *final(mem),
                q,
                buf,
                data@.len() as int,
            ),
        forall|a: int|
            0 <= a < PHYS_MEM_SIZE && !old(proc).owns_addr(a)
                ==> final(mem).phys_mem@[a] == old(mem).phys_mem@[a],
{
    let count = data.len();
    let r = proc.write_bytes(mem, buf as u32, data.as_slice());
    if r.is_err() {
        proc.regs.V[0] = ERR_INVALID;
        proc.regs.V[0xF] = 1;
    } else {
        let v0: u8 = if count <= 255 {
            count as u8
        } else {
            255
        };
        proc.regs.V[0] = v0;
        proc.regs.V[0xF] = 0;
    }
    proof {
        old(proc).lemma_gview_eq(*proc, *mem);
        old(proc).lemma_gview_eq(*proc, *old(mem));
        assert forall|q: Seq<u8>|
            q.len() >= data@.len() && q.take(data@.len() as int) == data@ implies #[trigger] delivered(
            *old(proc),
            *proc,
            *old(mem),
            *mem,
            q,
            buf,
            data@.len() as int,
        ) by {
            assert forall|j: int| 0 <= j < data@.len() implies q[j] == data@[j] by {
                assert(q.take(data@.len() as int)[j] == q[j]);
            }
        }
    }
}

/// `read`: satisfy the request from the input queue the process's modes
/// select, or block until it can be satisfied. In line mode a request is
/// ready only when a newline is queued, and delivers at most up to and
/// including it; in byte mode any queued byte makes it ready. Exactly the
/// delivered bytes are consumed from the queue.
pub fn sys_read(kernel: &mut Kernel, pid: u32, proc: &mut Proc) -> (outcome: SyscallOutcome)
    requires
        old(kernel).wf(),
        old(proc).wf(),
    ensures
        final(kernel).wf(),
        final(proc).wf(),
        final(kernel).mem.bitmap() == old(kernel).mem.bitmap(),
        final(kernel).syscalls == old(kernel).syscalls,
        final(kernel).next_pid == old(kernel).next_pid,
        final(kernel).fs == old(kernel).fs,
        final(kernel).procs@ == old(kernel).procs@,
        final(kernel).host_output@ == old(kernel).host_output@,
        final(kernel).pending_exit@ == old(kernel).pending_exit@,
        final(proc).page_table@ == old(proc).page_table@,
        final(proc).vm_size == old(proc).vm_size,
        final(proc).input_mode == old(proc).input_mode,
        final(proc).console_mode == old(proc).console_mode,
        final(proc).fds@ == old(proc).fds@,
        final(proc).next_fd == old(proc).next_fd,
        crate::chip8_engine::same_display(*old(proc), *final(proc)),
        forall|a: int|
            0 <= a < PHYS_MEM_SIZE && !old(proc).owns_addr(a)
                ==> final(kernel).mem.phys_mem@[a] == old(kernel).mem.phys_mem@[a],
        ({
            let p0 = *old(proc);
            let k0 = *old(kernel);
            let m = k0.mem;
            if !(arg_ok(p0, m, 0) && arg_ok(p0, m, 1)) {
                &&& syscall_error(p0, *final(proc), ERR_INVALID)
                &&& final(proc).console_input@ == p0.console_input@
                &&& final(kernel).input@ == k0.input@
                &&& final(kernel).pending_block@ == k0.pending_block@
                &&& final(kernel).mem.phys_mem@ == m.phys_mem@
                &&& outcome == SyscallOutcome::Completed
            } else {
                let buf = arg_val(p0, m, 0);
                let len = arg_val(p0, m, 1);
                let from_console = p0.console_mode == ConsoleMode::Display;
                let q = if from_console {
                    p0.console_input@
                } else {
                    k0.input@
                };
                let ready = if p0.input_mode == InputMode::Line {
                    first_nl(q) is Some
                } else {
                    q.len() > 0
                };
                if !ready {
                    &&& outcome == SyscallOutcome::Blocked
                    &&& final(kernel).pending_block@ == k0.pending_block@.push(
                        (pid, WaitTarget::Read { buf, len, mode: p0.input_mode }),
                    )
                    &&& final(proc).regs == p0.regs
                    &&& final(proc).console_input@ == p0.console_input@
                    &&& final(kernel).input@ == k0.input@
                    &&& final(kernel).mem.phys_mem@ == m.phys_mem@
                } else {
                    let count = if p0.input_mode == InputMode::Line {
                        match first_nl(q) {
                            Some(nl) => if len as int <= nl + 1 {
                                len as int
                            } else {
                                nl + 1
                            },
                            None => 0,
                        }
                    } else {
                        if len as int <= q.len() {
                            len as int
                        } else {
                            q.len() as int
                        }
                    };
                    &&& outcome == SyscallOutcome::Completed
                    &&& final(kernel).pending_block@ == k0.pending_block@
                    &&& delivered(p0, *final(proc), m, final(kernel).mem, q, buf, count)
                    &&& if from_console {
                        final(proc).console_input@ == q.skip(count) && final(kernel).input@
                            == k0.input@
                    } else {
                        final(kernel).input@ == q.skip(count) && final(proc).console_input@
                            == p0.console_input@
                    }
                }
            }
        }),
{
    let buf = match syscall_arg(proc, &kernel.mem, 0) {
        Ok(v) => v,
        Err(_) => {
            proc.regs.V[0] = ERR_INVALID;
            proc.regs.V[0xF] = 1;
            return SyscallOutcome::Completed;
        },
    };
    let len = match syscall_arg(proc, &kernel.mem, 1) {
        Ok(v) => v,
        Err(_) => {
            proc.regs.V[0] = ERR_INVALID;
            proc.regs.V[0xF] = 1;
            return SyscallOutcome::Completed;
        },
    };
    let from_console = proc.console_mode == ConsoleMode::Display;
    let mode = proc.input_mode;
    let qlen = if from_console {
        proc.console_input.len()
    } else {
        kernel.input.len()
    };
    let count: usize = match mode {
        InputMode::Line => {
            let nl_opt = if from_console {
                Kernel::find_newline_in(&proc.console_input)
            } else {
                Kernel::find_newline_in(&kernel.input)
            };
            match nl_opt {
                None => {
                    kernel.pending_block.push((pid, WaitTarget::Read { buf, len, mode }));
                    return SyscallOutcome::Blocked;
                },
                Some(nl) => {
                    proof {
                        assert(nl < qlen);
                    }
                    if (len as usize) <= nl + 1 {
                        len as usize
                    } else {
                        nl + 1
                    }
                },
            }
        },
        InputMode::Byte => {
            if qlen == 0 {
                kernel.pending_block.push((pid, WaitTarget::Read { buf, len, mode }));
                return SyscallOutcome::Blocked;
            }
            if (len as usize) <= qlen {
                len as usize
            } else {
                qlen
            }
        },
    };
    let ghost q = if from_console {
        old(proc).console_input@
    } else {
        old(kernel).input@
    };
    let data = if from_console {
        Kernel::pop_input(&mut proc.console_input, count)
    } else {
        Kernel::pop_input(&mut kernel.input, count)
    };
    let ghost pmid = *proc;
    let ghost m0 = kernel.mem;
    deliver_data(proc, &mut kernel.mem, &data, buf);
    proof {
        pmid.lemma_gview_eq(*old(proc), kernel.mem);
        pmid.lemma_gview_eq(*old(proc), m0);
        old(proc).lemma_same_mapping(pmid);
        assert(count <= q.len());
        assert(data@ == q.take(count as int));
        assert(delivered(pmid, *proc, m0, kernel.mem, q, buf, data@.len() as int));
        assert(data@.len() == count);
        assert(delivered(pmid, *proc, m0, kernel.mem, q, buf, count as int));
        assert(delivered(*old(proc), *proc, m0, kernel.mem, q, buf, count as int));
    }
    SyscallOutcome::Completed
}


/// Look up a file node by a guest-supplied path. Distinguishes a
/// malformed path, a missing node, and success.
pub enum ResolvedNode {
    Malformed,
    Missing,
    IsRoot,
    Found(usize),
}

impl Kernel {
    /// Resolve a guest path name against the snapshot: reject absolute
    /// paths, parent references and over-long segments; normalize away
    /// lone dots; then find the node, or the root for an empty path.
    pub fn resolve_fs_path(&self, name: &Vec<u8>) -> (r: ResolvedNode)
        ensures
            match r {
                ResolvedNode::Malformed => crate::sandbox::path_rejected(name@),
                ResolvedNode::Missing => {
                    &&& !crate::sandbox::path_rejected(name@)
                    &&& crate::sandbox::normalized(name@).len() > 0
                    &&& forall|i: int|
                        0 <= i < self.fs.nodes@.len() ==> (
                        #[trigger] self.fs.nodes@[i].path.deep_view())
                            != crate::sandbox::normalized(name@)
                },
                ResolvedNode::IsRoot => {
                    &&& !crate::sandbox::path_rejected(name@)
                    &&& crate::sandbox::normalized(name@).len() == 0
                },
                ResolvedNode::Found(i) => {
                    &&& !crate::sandbox::path_rejected(name@)
                    &&& i < self.fs.nodes@.len()
                    &&& self.fs.nodes@[i as int].path.deep_view() == crate::sandbox::normalized(
                        name@,
                    )
                },
            },
    {
        let segs = match crate::sandbox::parse_guest_path(name.as_slice()) {
            Ok(v) => v,
            Err(_) => {
                return ResolvedNode::Malformed;
            },
        };
        if segs.len() == 0 {
            proof {
                assert(segs.deep_view().len() == segs@.len());
            }
            return ResolvedNode::IsRoot;
        }
        proof {
            assert(segs.deep_view().len() == segs@.len());
        }
        match self.fs.lookup(&segs) {
            Some(i) => ResolvedNode::Found(i),
            None => ResolvedNode::Missing,
        }
    }

    /// Load a program image into the process for `pid`: the font lands at
    /// address 0 and the image at 0x200 of that process's address space.
    pub fn load_rom(&mut self, pid: u32, rom: &[u8]) -> (r: Result<(), VmError>)
        requires
            old(self).wf(),
        ensures
            final(self).wf(),
            find_pid(old(self).procs@, pid) is None <==> r == Err::<(), VmError>(
                VmError::NotFound,
            ),
            (match find_pid(old(self).procs@, pid) {
                Some(i) => {
                    let p = old(self).procs@[i].proc;
                    &&& final(self).procs@ == old(self).procs@
                    &&& final(self).mem.bitmap() == old(self).mem.bitmap()
                    &&& final(self).syscalls == old(self).syscalls
                    &&& final(self).next_pid == old(self).next_pid
                    &&& final(self).fs == old(self).fs
                    &&& final(self).input@ == old(self).input@
                    &&& final(self).host_output@ == old(self).host_output@
                    &&& final(self).pending_exit@ == old(self).pending_exit@
                    &&& final(self).pending_block@ == old(self).pending_block@
                    &&& (r == Err::<(), VmError>(VmError::TooLarge) <==> rom@.len() > p.vm_size
                        as int - 0x200)
                    &&& (r is Err ==> final(self).mem.phys_mem@ == old(self).mem.phys_mem@)
                    &&& (r is Ok ==> forall|w: int|
                        0 <= w < p.vm_size ==> p.gview(final(self).mem)[w] == (if w < 80 {
                            crate::proc::chip8_font()[w]
                        } else if 0x200 <= w < 0x200 + rom@.len() {
                            rom@[w - 0x200]
                        } else {
                            p.gview(old(self).mem)[w]
                        }))
                    &&& forall|a: int|
                        0 <= a < PHYS_MEM_SIZE && !p.owns_addr(a)
                            ==> final(self).mem.phys_mem@[a] == old(self).mem.phys_mem@[a]
                },
                None => *final(self) == *old(self),
            }),
    {
        let i = match self.proc_index(pid) {
            Some(i) => i,
            None => {
                return Err(VmError::NotFound);
            },
        };
        let entry = self.procs.remove(i);
        proof {
            lemma_procs_ok_remove(old(self).procs@, self.mem, self.fs, i as int);
        }
        let res = entry.proc.load_program_bytes(&mut self.mem, rom);
        proof {
            lemma_procs_ok_mem_bytes(self.procs@, old(self).mem, self.mem, self.fs);
        }
        self.procs.insert(i, entry);
        proof {
            lemma_procs_ok_insert(
                old(self).procs@.remove(i as int),
                self.mem,
                self.fs,
                i as int,
                old(self).procs@[i as int],
            );
            assert(self.procs@ =~= old(self).procs@.remove(i as int).insert(
                i as int,
                old(self).procs@[i as int],
            ));
        }
        match res {
            Ok(_) => Ok(()),
            Err(e) => Err(e),
        }
    }
}

/// Removing an entry keeps the table invariant; the removed entry stays
/// disjoint from every remaining one.
pub proof fn lemma_procs_ok_remove(s: Seq<ProcEntry>, m: SharedMemory, fs: SandboxFs, i: int)
    requires
        procs_ok(s, m, fs),
        0 <= i < s.len(),
    ensures
        procs_ok(s.remove(i), m, fs),
        forall|j: int|
            0 <= j < s.remove(i).len() ==> tables_disjoint(
                s[i].proc,
                (#[trigger] s.remove(i)[j]).proc,
            ),
{
    let s1 = s.remove(i);
    assert forall|j: int| 0 <= j < s1.len() implies entry_ok(#[trigger] s1[j], m, fs) by {
        if j < i {
            assert(s1[j] == s[j]);
        } else {
            assert(s1[j] == s[j + 1]);
        }
    }
    assert forall|a: int, b: int| 0 <= a < b < s1.len() implies tables_disjoint(
        s1[a].proc,
        s1[b].proc,
    ) by {
        let a0 = if a < i {
            a
        } else {
            a + 1
        };
        let b0 = if b < i {
            b
        } else {
            b + 1
        };
        assert(s1[a] == s[a0] && s1[b] == s[b0]);
    }
    assert forall|j: int| 0 <= j < s1.len() implies tables_disjoint(
        s[i].proc,
        (#[trigger] s1[j]).proc,
    ) by {
        let j0 = if j < i {
            j
        } else {
            j + 1
        };
        assert(s1[j] == s[j0]);
        if j0 < i {
            lemma_disjoint_symmetric_pub(s[j0].proc, s[i].proc);
        }
    }
}

pub proof fn lemma_disjoint_symmetric_pub(a: Proc, b: Proc)
    requires
        tables_disjoint(a, b),
    ensures
        tables_disjoint(b, a),
{
}

/// Disjointness depends only on the page tables.
pub proof fn lemma_disjoint_congruence(a: Proc, b: Proc, a2: Proc, b2: Proc)
    requires
        tables_disjoint(a, b),
        a2.page_table@ == a.page_table@,
        b2.page_table@ == b.page_table@,
    ensures
        tables_disjoint(a2, b2),
{
}

/// Inserting a sound entry disjoint from every present one keeps the
/// table invariant.
pub proof fn lemma_procs_ok_insert(
    s: Seq<ProcEntry>,
    m: SharedMemory,
    fs: SandboxFs,
    i: int,
    e: ProcEntry,
)
    requires
        procs_ok(s, m, fs),
        0 <= i <= s.len(),
        entry_ok(e, m, fs),
        forall|j: int| 0 <= j < s.len() ==> tables_disjoint(e.proc, (#[trigger] s[j]).proc),
    ensures
        procs_ok(s.insert(i, e), m, fs),
{
    let s1 = s.insert(i, e);
    assert forall|j: int| 0 <= j < s1.len() implies entry_ok(#[trigger] s1[j], m, fs) by {
        if j < i {
            assert(s1[j] == s[j]);
        } else if j == i {
            assert(s1[j] == e);
        } else {
            assert(s1[j] == s[j - 1]);
        }
    }
    assert forall|a: int, b: int| 0 <= a < b < s1.len() implies tables_disjoint(
        s1[a].proc,
        s1[b].proc,
    ) by {
        if a == i {
            let b0 = b - 1;
            assert(s1[b] == s[b0]);
        } else if b == i {
            let a0 = a;
            assert(s1[a] == s[a0]);
            lemma_disjoint_symmetric_pub(e.proc, s[a0].proc);
        } else {
            let a0 = if a < i {
                a
            } else {
                a - 1
            };
            let b0 = if b < i {
                b
            } else {
                b - 1
            };
            assert(s1[a] == s[a0] && s1[b] == s[b0]);
        }
    }
}

/// A change of the arena's bytes alone (same occupancy) keeps the table
/// invariant.
pub proof fn lemma_procs_ok_mem_bytes(
    s: Seq<ProcEntry>,
    m0: SharedMemory,
    m1: SharedMemory,
    fs: SandboxFs,
)
    requires
        procs_ok(s, m0, fs),
        m1.bitmap() == m0.bitmap(),
    ensures
        procs_ok(s, m1, fs),
{
    assert forall|i: int| 0 <= i < s.len() implies entry_ok(#[trigger] s[i], m1, fs) by {
        assert(entry_ok(s[i], m0, fs));
    }
}

/// A monotone occupancy change (used pages stay used) keeps the table
/// invariant.
pub proof fn lemma_procs_ok_mem_monotone(
    s: Seq<ProcEntry>,
    m0: SharedMemory,
    m1: SharedMemory,
    fs: SandboxFs,
)
    requires
        procs_ok(s, m0, fs),
        forall|q: int|
            0 <= q < crate::shared_memory::PHYS_PAGE_COUNT && m0.bitmap()[q]
                ==> #[trigger] m1.bitmap()[q],
        m1.bitmap().len() == m0.bitmap().len(),
    ensures
        procs_ok(s, m1, fs),
{
    assert forall|i: int| 0 <= i < s.len() implies entry_ok(#[trigger] s[i], m1, fs) by {
        assert(entry_ok(s[i], m0, fs));
        let p = s[i].proc;
        assert forall|k: int| 0 <= k < p.page_table@.len() implies m1.bitmap()[(
        #[trigger] p.page_table@[k]) as int / PAGE_SIZE as int] by {
            assert(m0.bitmap()[p.page_table@[k] as int / PAGE_SIZE as int]);
            p.lemma_ptranslate_in_range(0);
        }
    }
}

/// `spawn`: read a ROM name from the caller's memory, resolve it in the
/// sandbox snapshot, and create a runnable child process with its own
/// fresh pages, the ROM image loaded. The child's pid (low byte) is
/// returned in `V[0]`. On any failure the caller's process and every
/// existing process are unchanged.
pub fn sys_spawn(kernel: &mut Kernel, pid: u32, proc: &mut Proc) -> (outcome: SyscallOutcome)
    requires
        old(kernel).wf(),
        old(proc).wf(),
        pages_used(*old(proc), old(kernel).mem),
    ensures
        final(kernel).wf(),
        final(proc).wf(),
        final(proc).page_table@ == old(proc).page_table@,
        final(proc).vm_size == old(proc).vm_size,
        crate::chip8_engine::same_core(*old(proc), *final(proc)),
        crate::chip8_engine::same_display(*old(proc), *final(proc)),
        final(proc).regs.DT == old(proc).regs.DT && final(proc).regs.ST == old(proc).regs.ST
            && final(proc).regs.I == old(proc).regs.I && final(proc).regs.SP == old(
            proc,
        ).regs.SP && final(proc).regs.PC == old(proc).regs.PC,
        final(kernel).syscalls == old(kernel).syscalls,
        final(kernel).fs == old(kernel).fs,
        final(kernel).input@ == old(kernel).input@,
        final(kernel).host_output@ == old(kernel).host_output@,
        final(kernel).pending_exit@ == old(kernel).pending_exit@,
        final(kernel).pending_block@ == old(kernel).pending_block@,
        final(kernel).mem.phys_mem@.len() == old(kernel).mem.phys_mem@.len(),
        forall|q: int|
            0 <= q < crate::shared_memory::PHYS_PAGE_COUNT && old(kernel).mem.bitmap()[q]
                ==> #[trigger] final(kernel).mem.bitmap()[q],
        final(kernel).mem.bitmap().len() == old(kernel).mem.bitmap().len(),
        forall|i: int|
            0 <= i < old(kernel).procs@.len() ==> final(kernel).procs@[i] == old(
                kernel,
            ).procs@[i],
        final(kernel).procs@.len() >= old(kernel).procs@.len(),
        forall|i: int|
            old(kernel).procs@.len() <= i < final(kernel).procs@.len() ==> tables_disjoint(
                (#[trigger] final(kernel).procs@[i]).proc,
                *old(proc),
            ) && final(kernel).procs@[i].state == ProcState::Running,
        forall|a: int|
            0 <= a < PHYS_MEM_SIZE && old(proc).owns_addr(a)
                ==> final(kernel).mem.phys_mem@[a] == old(kernel).mem.phys_mem@[a],
        // the only bytes written are the spawned child's image.
        forall|a: int|
            0 <= a < PHYS_MEM_SIZE && final(kernel).mem.phys_mem@[a] != old(
                kernel,
            ).mem.phys_mem@[a] ==> exists|j: int|
                old(kernel).procs@.len() <= j < final(kernel).procs@.len() && (
                #[trigger] final(kernel).procs@[j]).proc.owns_addr(a),
        ({
            // each error is tied to its cause, and success is owed on a
            // readable frame whose name resolves to a ROM that fits.
            let p0 = *old(proc);
            let k0 = *old(kernel);
            let m = k0.mem;
            if !(arg_ok(p0, m, 0) && arg_ok(p0, m, 1)) {
                &&& syscall_error(p0, *final(proc), ERR_INVALID)
                &&& final(kernel).procs@ == k0.procs@
                &&& final(kernel).mem.bitmap() == m.bitmap()
                &&& final(kernel).mem.phys_mem@ == m.phys_mem@
                &&& final(kernel).next_pid == k0.next_pid
            } else {
                let name_ptr = arg_val(p0, m, 0);
                let name_len = arg_val(p0, m, 1);
                let pages = if arg_ok(p0, m, 2) {
                    arg_val(p0, m, 2)
                } else {
                    1u16
                };
                if name_len as int > 0 && name_ptr as int + name_len as int > p0.vm_size as int {
                    &&& syscall_error(p0, *final(proc), ERR_INVALID)
                    &&& final(kernel).procs@ == k0.procs@
                    &&& final(kernel).mem.bitmap() == m.bitmap()
                    &&& final(kernel).mem.phys_mem@ == m.phys_mem@
                    &&& final(kernel).next_pid == k0.next_pid
                } else {
                    let name = Seq::new(name_len as nat, |j: int| p0.gview(m)[name_ptr as int + j]);
                    let rom_found = !crate::sandbox::path_rejected(name)
                        && crate::sandbox::normalized(name).len() > 0 && (exists|ni: int|
                        0 <= ni < k0.fs.nodes@.len() && (
                        #[trigger] k0.fs.nodes@[ni].path.deep_view()) == crate::sandbox::normalized(
                            name,
                        ) && k0.fs.nodes@[ni].kind is File);
                    if !rom_found {
                        &&& syscall_error(p0, *final(proc), ERR_IO)
                        &&& final(kernel).procs@ == k0.procs@
                        &&& final(kernel).mem.bitmap() == m.bitmap()
                        &&& final(kernel).mem.phys_mem@ == m.phys_mem@
                        &&& final(kernel).next_pid == k0.next_pid
                    } else {
                        // paths are distinct, so exactly one node matches.
                        forall|ni: int|
                            (0 <= ni < k0.fs.nodes@.len() && (
                            #[trigger] k0.fs.nodes@[ni].path.deep_view())
                                == crate::sandbox::normalized(name) && k0.fs.nodes@[ni].kind
                                is File) ==> {
                                let rom = k0.fs.nodes@[ni].data@;
                                if !(pages > 0 && rom.len() <= pages as int * PAGE_SIZE as int
                                    - 0x200) {
                                    &&& syscall_error(p0, *final(proc), ERR_IO)
                                    &&& final(kernel).procs@ == k0.procs@
                                    &&& final(kernel).mem.bitmap() == m.bitmap()
                                    &&& final(kernel).mem.phys_mem@ == m.phys_mem@
                                    &&& final(kernel).next_pid == k0.next_pid
                                } else if count_free(m.bitmap()) < pages as nat {
                                    &&& syscall_error(p0, *final(proc), ERR_IO)
                                    &&& final(kernel).procs@ == k0.procs@
                                    &&& final(kernel).mem.bitmap() == m.bitmap()
                                    &&& final(kernel).next_pid == wrap32_add(k0.next_pid, 1)
                                } else {
                                    let child = final(kernel).procs@.last();
                                    &&& final(kernel).procs@.len() == k0.procs@.len() + 1
                                    &&& child.pid == k0.next_pid
                                    &&& child.state == ProcState::Running
                                    &&& child.exit_code is None
                                    &&& child.waiting_for is None
                                    &&& child.proc.page_table@.len() == pages as int
                                    &&& child.proc.regs.PC == 0x200
                                    &&& forall|w: int|
                                        0 <= w < child.proc.vm_size
                                            ==> child.proc.gview(final(kernel).mem)[w] == (if w
                                            < 80 {
                                            crate::proc::chip8_font()[w]
                                        } else if 0x200 <= w < 0x200 + rom.len() {
                                            rom[w - 0x200]
                                        } else {
                                            child.proc.gview(m)[w]
                                        })
                                    &&& final(proc).regs.V@ == p0.regs.V@.update(
                                        0,
                                        (k0.next_pid % 256) as u8,
                                    ).update(15, 0u8)
                                    &&& final(kernel).next_pid == wrap32_add(k0.next_pid, 1)
                                }
                            }
                    }
                }
            }
        }),
        outcome == SyscallOutcome::Completed,
{
    let name_ptr = match syscall_arg(proc, &kernel.mem, 0) {
        Ok(v) => v,
        Err(_) => {
            proc.regs.V[0] = ERR_INVALID;
            proc.regs.V[0xF] = 1;
            return SyscallOutcome::Completed;
        },
    };
    let name_len = match syscall_arg(proc, &kernel.mem, 1) {
        Ok(v) => v,
        Err(_) => {
            proc.regs.V[0] = ERR_INVALID;
            proc.regs.V[0xF] = 1;
            return SyscallOutcome::Completed;
        },
    };
    let pages = match syscall_arg(proc, &kernel.mem, 2) {
        Ok(v) => v,
        Err(_) => 1,
    };
    let name_bytes = match proc.read_bytes(&kernel.mem, name_ptr as u32, name_len as usize) {
        Ok(d) => d,
        Err(_) => {
            proc.regs.V[0] = ERR_INVALID;
            proc.regs.V[0xF] = 1;
            return SyscallOutcome::Completed;
        },
    };
    proof {
        assert(name_bytes@ =~= Seq::new(
            name_len as nat,
            |j: int| old(proc).gview(old(kernel).mem)[name_ptr as int + j],
        ));
    }
    let node = match kernel.resolve_fs_path(&name_bytes) {
        ResolvedNode::Found(i) => i,
        _ => {
            proc.regs.V[0] = ERR_IO;
            proc.regs.V[0xF] = 1;
            return SyscallOutcome::Completed;
        },
    };
    if !(kernel.fs.nodes[node].kind == FsKind::File) {
        proof {
            // paths are distinct, so no other node carries this path.
            assert forall|ni: int|
                0 <= ni < kernel.fs.nodes@.len() && (
                #[trigger] kernel.fs.nodes@[ni].path.deep_view())
                    == kernel.fs.nodes@[node as int].path.deep_view() implies !(
            kernel.fs.nodes@[ni].kind is File) by {
                if ni != node as int {
                    if ni < node as int {
                        assert(kernel.fs.nodes@[ni].path.deep_view()
                            != kernel.fs.nodes@[node as int].path.deep_view());
                    } else {
                        assert(kernel.fs.nodes@[node as int].path.deep_view()
                            != kernel.fs.nodes@[ni].path.deep_view());
                    }
                }
            }
        }
        proc.regs.V[0] = ERR_IO;
        proc.regs.V[0xF] = 1;
        return SyscallOutcome::Completed;
    }
    proof {
        // the resolved node is the unique one with this path.
        assert forall|ni: int|
            0 <= ni < kernel.fs.nodes@.len() && (
            #[trigger] kernel.fs.nodes@[ni].path.deep_view())
                == kernel.fs.nodes@[node as int].path.deep_view() implies ni == node as int by {
            if ni != node as int {
                if ni < node as int {
                    assert(kernel.fs.nodes@[ni].path.deep_view()
                        != kernel.fs.nodes@[node as int].path.deep_view());
                } else {
                    assert(kernel.fs.nodes@[node as int].path.deep_view()
                        != kernel.fs.nodes@[ni].path.deep_view());
                }
            }
        }
        assert((pages as usize) * PAGE_SIZE as int == pages as int * PAGE_SIZE as int)
            by (nonlinear_arith);
    }
    // all-or-nothing: make sure the image fits before allocating.
    if pages == 0 || kernel.fs.nodes[node].data.len() > (pages as usize) * PAGE_SIZE - 0x200 {
        proc.regs.V[0] = ERR_IO;
        proc.regs.V[0xF] = 1;
        return SyscallOutcome::Completed;
    }
    proof {
        assert((pages as usize) * PAGE_SIZE >= 0x1000) by (nonlinear_arith)
            requires
                pages >= 1,
                PAGE_SIZE == 0x1000,
        ;
        assert((pages as usize) * PAGE_SIZE <= 0xFFFF000) by (nonlinear_arith)
            requires
                pages <= 0xFFFF,
                PAGE_SIZE == 0x1000,
        ;
    }
    let child_pid = match kernel.spawn_proc(pages) {
        Ok(p) => p,
        Err(_) => {
            proof {
                lemma_procs_ok_mem_monotone(kernel.procs@, old(kernel).mem, kernel.mem, kernel.fs);
            }
            proc.regs.V[0] = ERR_IO;
            proc.regs.V[0xF] = 1;
            return SyscallOutcome::Completed;
        },
    };
    let cidx = kernel.procs.len() - 1;
    let ghost m_spawned = kernel.mem;
    let entry = kernel.procs.remove(cidx);
    proof {
        lemma_procs_ok_remove(kernel.procs@.insert(cidx as int, entry), kernel.mem, kernel.fs, cidx as int);
        assert(kernel.procs@ =~= kernel.procs@.insert(cidx as int, entry).remove(cidx as int));
    }
    let lr = entry.proc.load_program_bytes(&mut kernel.mem, kernel.fs.nodes[node].data.as_slice());
    proof {
        assert(lr is Ok);
        lemma_procs_ok_mem_bytes(kernel.procs@, m_spawned, kernel.mem, kernel.fs);
    }
    let ghost before_insert = kernel.procs@;
    kernel.procs.insert(cidx, entry);
    proof {
        lemma_procs_ok_insert(before_insert, kernel.mem, kernel.fs, cidx as int, entry);
        // the child's pages were free while the caller's are in use.
        assert forall|a2: int, b2: int|
            0 <= a2 < entry.proc.page_table@.len() && 0 <= b2
                < old(proc).page_table@.len() implies (#[trigger] entry.proc.page_table@[a2]) != (
        #[trigger] old(proc).page_table@[b2]) by {
            if entry.proc.page_table@[a2] == old(proc).page_table@[b2] {
                assert(old(kernel).mem.bitmap()[old(proc).page_table@[b2] as int
                    / PAGE_SIZE as int]);
                assert(!old(kernel).mem.bitmap()[entry.proc.page_table@[a2] as int
                    / PAGE_SIZE as int]);
            }
        }
        assert forall|a: int|
            0 <= a < PHYS_MEM_SIZE && old(proc).owns_addr(a) implies kernel.mem.phys_mem@[a]
            == old(kernel).mem.phys_mem@[a] by {
            assert(!entry.proc.owns_addr(a));
        }
        // allocation leaves the arena's bytes alone, so the child's view
        // before loading is its view of the original arena.
        assert(entry.proc.gview(m_spawned) =~= entry.proc.gview(old(kernel).mem));
        assert(kernel.procs@.last() == entry);
    }
    proc.regs.V[0] = (child_pid % 256) as u8;
    proc.regs.V[0xF] = 0;
    SyscallOutcome::Completed
}


/// How waking leaves a waiter: running, no wait target, the exit code in
/// `V[0]` with a clear flag, everything else untouched.
pub open spec fn woken(e0: ProcEntry, e1: ProcEntry, code: u8) -> bool {
    &&& e1.pid == e0.pid
    &&& e1.state == ProcState::Running
    &&& e1.waiting_for is None
    &&& e1.exit_code == e0.exit_code
    &&& crate::chip8_engine::same_core(e0.proc, e1.proc)
    &&& crate::chip8_engine::same_display(e0.proc, e1.proc)
    &&& e1.proc.regs.DT == e0.proc.regs.DT && e1.proc.regs.ST == e0.proc.regs.ST
        && e1.proc.regs.I == e0.proc.regs.I && e1.proc.regs.SP == e0.proc.regs.SP
        && e1.proc.regs.PC == e0.proc.regs.PC
    &&& e1.proc.regs.V@ == e0.proc.regs.V@.update(0, code).update(15, 0u8)
}

/// Law (exit wakes waiters): after an exit with code `code` by
/// `waited_pid`, every process blocked waiting on that pid transitions to
/// `Running` with the code in `V[0]` and a clear flag, in the same pass;
/// every other entry is untouched.
pub open spec fn waiters_woken(
    s0: Seq<ProcEntry>,
    s1: Seq<ProcEntry>,
    waited_pid: u32,
    code: u8,
) -> bool {
    &&& s1.len() == s0.len()
    &&& forall|i: int|
        0 <= i < s0.len() ==> (if (#[trigger] s0[i]).state == ProcState::Blocked
            && s0[i].waiting_for == Some(WaitTarget::Pid(waited_pid)) {
            woken(s0[i], s1[i], code)
        } else {
            s1[i] == s0[i]
        })
}

impl Kernel {
    /// Wake every process blocked waiting for `waited_pid` to exit,
    /// handing each the exit code.
    pub fn unblock_waiters(&mut self, waited_pid: u32, code: u8)
        requires
            old(self).wf(),
        ensures
            final(self).wf(),
            waiters_woken(old(self).procs@, final(self).procs@, waited_pid, code),
            final(self).mem == old(self).mem,
            final(self).syscalls == old(self).syscalls,
            final(self).next_pid == old(self).next_pid,
            final(self).fs == old(self).fs,
            final(self).input@ == old(self).input@,
            final(self).host_output@ == old(self).host_output@,
            final(self).pending_exit@ == old(self).pending_exit@,
            final(self).pending_block@ == old(self).pending_block@,
    {
        let mut i: usize = 0;
        while i < self.procs.len()
            invariant
                self.wf(),
                i <= self.procs@.len(),
                self.procs@.len() == old(self).procs@.len(),
                forall|k: int|
                    0 <= k < i ==> (if (#[trigger] old(self).procs@[k]).state
                        == ProcState::Blocked && old(self).procs@[k].waiting_for == Some(
                        WaitTarget::Pid(waited_pid),
                    ) {
                        woken(old(self).procs@[k], self.procs@[k], code)
                    } else {
                        self.procs@[k] == old(self).procs@[k]
                    }),
                forall|k: int|
                    i <= k < self.procs@.len() ==> self.procs@[k] == old(self).procs@[k],
                self.mem == old(self).mem,
                self.syscalls == old(self).syscalls,
                self.next_pid == old(self).next_pid,
                self.fs == old(self).fs,
                self.input@ == old(self).input@,
                self.host_output@ == old(self).host_output@,
                self.pending_exit@ == old(self).pending_exit@,
                self.pending_block@ == old(self).pending_block@,
            decreases self.procs@.len() - i,
        {
            let is_waiter = self.procs[i].state == ProcState::Blocked && match self
                .procs[i]
                .waiting_for {
                Some(WaitTarget::Pid(p)) => p == waited_pid,
                _ => false,
            };
            if is_waiter {
                let ghost pre = self.procs@;
                let mut entry = self.procs.remove(i);
                proof {
                    lemma_procs_ok_remove(pre, self.mem, self.fs, i as int);
                }
                entry.proc.regs.V[0] = code;
                entry.proc.regs.V[0xF] = 0;
                entry.state = ProcState::Running;
                entry.waiting_for = None;
                let ghost e1 = entry;
                self.procs.insert(i, entry);
                proof {
                    lemma_procs_ok_insert(pre.remove(i as int), self.mem, self.fs, i as int, e1);
                    assert(self.procs@ =~= pre.update(i as int, e1));
                    assert(woken(pre[i as int], e1, code));
                }
            }
            i = i + 1;
        }
    }

    /// Find the first pending entry for `pid` in a pending-exit list.
    fn find_pending_exit(&self, pid: u32) -> (r: Option<usize>)
        ensures
            match r {
                Some(i) => find_key(self.pending_exit@, pid) == Some(i as int) && i < self
                    .pending_exit@.len() && self.pending_exit@[i as int].0 == pid,
                None => find_key(self.pending_exit@, pid) is None,
            },
    {
        let mut i: usize = 0;
        while i < self.pending_exit.len()
            invariant
                i <= self.pending_exit@.len(),
                find_key(self.pending_exit@, pid) == find_key_from(
                    self.pending_exit@,
                    pid,
                    i as int,
                ),
            decreases self.pending_exit@.len() - i,
        {
            if self.pending_exit[i].0 == pid {
                return Some(i);
            }
            i = i + 1;
        }
        None
    }

    /// Find the first pending entry for `pid` in a pending-block list.
    fn find_pending_block(&self, pid: u32) -> (r: Option<usize>)
        ensures
            match r {
                Some(i) => find_key(self.pending_block@, pid) == Some(i as int) && i < self
                    .pending_block@.len() && self.pending_block@[i as int].0 == pid,
                None => find_key(self.pending_block@, pid) is None,
            },
    {
        let mut i: usize = 0;
        while i < self.pending_block.len()
            invariant
                i <= self.pending_block@.len(),
                find_key(self.pending_block@, pid) == find_key_from(
                    self.pending_block@,
                    pid,
                    i as int,
                ),
            decreases self.pending_block@.len() - i,
        {
            if self.pending_block[i].0 == pid {
                return Some(i);
            }
            i = i + 1;
        }
        None
    }

    /// Reconcile what the step's handler requested into the entry's
    /// scheduling state: a pending exit makes it `Exited` and wakes its
    /// waiters in the same pass; otherwise a pending block target, or a
    /// plain blocked outcome, makes it `Blocked`.
    pub fn apply_pending(&mut self, pid: u32, entry: &mut ProcEntry, outcome: SyscallOutcome)
        requires
            old(self).wf(),
        ensures
            final(self).wf(),
            final(entry).proc == old(entry).proc,
            final(entry).pid == old(entry).pid,
            final(self).mem == old(self).mem,
            final(self).syscalls == old(self).syscalls,
            final(self).next_pid == old(self).next_pid,
            final(self).fs == old(self).fs,
            final(self).input@ == old(self).input@,
            final(self).host_output@ == old(self).host_output@,
            final(self).procs@.len() == old(self).procs@.len(),
            forall|j: int|
                0 <= j < final(self).procs@.len()
                    ==> (#[trigger] final(self).procs@[j]).proc.page_table@ == old(
                    self,
                ).procs@[j].proc.page_table@,
            ({
                match find_key(old(self).pending_exit@, pid) {
                    Some(j) => {
                        let code = old(self).pending_exit@[j].1;
                        &&& final(entry).state == ProcState::Exited
                        &&& final(entry).exit_code == Some(code)
                        &&& final(entry).waiting_for is None
                        &&& final(self).pending_exit@ == old(self).pending_exit@.remove(j)
                        &&& final(self).pending_block@ == old(self).pending_block@
                        &&& waiters_woken(old(self).procs@, final(self).procs@, pid, code)
                    },
                    None => {
                        &&& final(self).pending_exit@ == old(self).pending_exit@
                        &&& final(self).procs@ == old(self).procs@
                        &&& match find_key(old(self).pending_block@, pid) {
                            Some(j) => {
                                &&& final(entry).state == ProcState::Blocked
                                &&& final(entry).waiting_for == Some(
                                    old(self).pending_block@[j].1,
                                )
                                &&& final(entry).exit_code == old(entry).exit_code
                                &&& final(self).pending_block@ == old(
                                    self,
                                ).pending_block@.remove(j)
                            },
                            None => {
                                &&& final(self).pending_block@ == old(self).pending_block@
                                &&& if outcome == SyscallOutcome::Blocked {
                                    &&& final(entry).state == ProcState::Blocked
                                    &&& final(entry).waiting_for == old(entry).waiting_for
                                    &&& final(entry).exit_code == old(entry).exit_code
                                } else {
                                    *final(entry) == *old(entry)
                                }
                            },
                        }
                    },
                }
            }),
    {
        match self.find_pending_exit(pid) {
            Some(j) => {
                let code = self.pending_exit[j].1;
                self.pending_exit.remove(j);
                entry.state = ProcState::Exited;
                entry.exit_code = Some(code);
                entry.waiting_for = None;
                self.unblock_waiters(pid, code);
            },
            None => {
                match self.find_pending_block(pid) {
                    Some(j) => {
                        let wait = self.pending_block[j].1;
                        self.pending_block.remove(j);
                        entry.state = ProcState::Blocked;
                        entry.waiting_for = Some(wait);
                    },
                    None => {
                        if outcome == SyscallOutcome::Blocked {
                            entry.state = ProcState::Blocked;
                        }
                    },
                }
            },
        }
    }

    /// Dispatch a syscall ID to its registered handler. An unregistered ID
    /// is an error, which the interpreter layer turns into the guest-visible
    /// dispatch-error flag.
    pub fn dispatch_syscall(&mut self, pid: u32, proc: &mut Proc, id: u16) -> (r: Result<
        SyscallOutcome,
        VmError,
    >)
        requires
            old(self).wf(),
            old(proc).wf(),
            pages_used(*old(proc), old(self).mem),
            fds_ok(*old(proc), old(self).fs),
        ensures
            final(self).wf(),
            final(proc).wf(),
            final(proc).page_table@ == old(proc).page_table@,
            final(proc).vm_size == old(proc).vm_size,
            final(proc).regs.PC == old(proc).regs.PC,
            fds_ok(*final(proc), final(self).fs),
            final(self).syscalls == old(self).syscalls,
            final(self).mem.bitmap().len() == old(self).mem.bitmap().len(),
            forall|q: int|
                0 <= q < crate::shared_memory::PHYS_PAGE_COUNT && old(self).mem.bitmap()[q]
                    ==> #[trigger] final(self).mem.bitmap()[q],
            forall|i: int|
                0 <= i < old(self).procs@.len() ==> final(self).procs@[i] == old(self).procs@[i],
            final(self).procs@.len() >= old(self).procs@.len(),
            forall|i: int|
                old(self).procs@.len() <= i < final(self).procs@.len() ==> tables_disjoint(
                    (#[trigger] final(self).procs@[i]).proc,
                    *old(proc),
                ) && (#[trigger] final(self).procs@[i]).state == ProcState::Running,
            r is Err <==> table_lookup(old(self).syscalls.handlers@, id) is None,
            r is Err ==> *final(self) == *old(self) && *final(proc) == *old(proc),
            // the arena changes only inside the caller's or a spawned
            // child's pages.
            forall|a: int|
                0 <= a < PHYS_MEM_SIZE && !old(proc).owns_addr(a) && !(exists|j: int|
                    old(self).procs@.len() <= j < final(self).procs@.len() && (
                    #[trigger] final(self).procs@[j]).proc.owns_addr(a))
                    ==> final(self).mem.phys_mem@[a] == old(self).mem.phys_mem@[a],
            // the outcome and the scheduling state are those of the handler
            // registered for the id; the handlers' own contracts pin the
            // rest.
            r matches Ok(o) ==> match table_lookup(old(self).syscalls.handlers@, id) {
                Some(h) => {
                    let k0 = *old(self);
                    let p0 = *old(proc);
                    match h {
                        SyscallHandler::Exit => {
                            &&& o == SyscallOutcome::Completed
                            &&& final(self).pending_exit@ == k0.pending_exit@.push(
                                (pid, exit_code_of(k0, p0)),
                            )
                            &&& final(self).pending_block@ == k0.pending_block@
                            &&& final(self).procs@ == k0.procs@
                        },
                        SyscallHandler::Wait => {
                            &&& final(self).pending_exit@ == k0.pending_exit@
                            &&& final(self).procs@ == k0.procs@
                            &&& ({
                                let live_target = arg_ok(p0, k0.mem, 0) && (match find_pid(
                                    k0.procs@,
                                    arg_val(p0, k0.mem, 0) as u32,
                                ) {
                                    Some(t) => k0.procs@[t].state != ProcState::Exited,
                                    None => false,
                                });
                                &&& (o == SyscallOutcome::Blocked <==> live_target)
                                &&& (o == SyscallOutcome::Completed <==> !live_target)
                                &&& if live_target {
                                    final(self).pending_block@ == k0.pending_block@.push(
                                        (pid, WaitTarget::Pid(arg_val(p0, k0.mem, 0) as u32)),
                                    )
                                } else {
                                    final(self).pending_block@ == k0.pending_block@
                                }
                            })
                        },
                        SyscallHandler::Yield => {
                            &&& o == SyscallOutcome::Yielded
                            &&& kernel_unchanged(k0, *final(self))
                        },
                        SyscallHandler::Read => {
                            &&& final(self).pending_exit@ == k0.pending_exit@
                            &&& final(self).procs@ == k0.procs@
                            &&& (o == SyscallOutcome::Blocked <==> read_request_blocks(k0, p0))
                            &&& (o == SyscallOutcome::Completed <==> !read_request_blocks(
                                k0,
                                p0,
                            ))
                            &&& if read_request_blocks(k0, p0) {
                                final(self).pending_block@ == k0.pending_block@.push(
                                    (pid, read_wait_target(k0, p0)),
                                )
                            } else {
                                final(self).pending_block@ == k0.pending_block@
                            }
                        },
                        _ => {
                            &&& o == SyscallOutcome::Completed
                            &&& final(self).pending_exit@ == k0.pending_exit@
                            &&& final(self).pending_block@ == k0.pending_block@
                            &&& forall|i: int|
                                0 <= i < k0.procs@.len() ==> (#[trigger] final(self).procs@[i])
                                    == k0.procs@[i]
                        },
                    }
                },
                None => false,
            },
    {
        let handler = match self.syscalls.handler(id) {
            Some(h) => h,
            None => {
                return Err(VmError::NotFound);
            },
        };
        let outcome = match handler {
            SyscallHandler::Spawn => sys_spawn(self, pid, proc),
            SyscallHandler::Exit => sys_exit(self, pid, proc),
            SyscallHandler::Wait => sys_wait(self, pid, proc),
            SyscallHandler::Yield => sys_yield(self, pid, proc),
            SyscallHandler::Write => sys_write(self, pid, proc),
            SyscallHandler::Read => sys_read(self, pid, proc),
            SyscallHandler::InputMode => sys_input_mode(self, pid, proc),
            SyscallHandler::ConsoleMode => sys_console_mode(self, pid, proc),
            SyscallHandler::FsList => sys_fs_list(self, pid, proc),
            SyscallHandler::FsOpen => sys_fs_open(self, pid, proc),
            SyscallHandler::FsRead => sys_fs_read(self, pid, proc),
            SyscallHandler::FsClose => sys_fs_close(self, pid, proc),
        };
        Ok(outcome)
    }

}

/// The fields of two processes agree (their views, for the collection
/// fields).
pub open spec fn proc_same(a: Proc, b: Proc) -> bool {
    &&& crate::chip8_engine::same_core(a, b)
    &&& crate::chip8_engine::same_display(a, b)
    &&& b.regs.V@ == a.regs.V@
    &&& b.regs.DT == a.regs.DT && b.regs.ST == a.regs.ST && b.regs.I == a.regs.I && b.regs.SP
        == a.regs.SP && b.regs.PC == a.regs.PC
}

pub open spec fn entry_same(a: ProcEntry, b: ProcEntry) -> bool {
    &&& b.pid == a.pid
    &&& b.state == a.state
    &&& b.exit_code == a.exit_code
    &&& b.waiting_for == a.waiting_for
    &&& proc_same(a.proc, b.proc)
}

/// How one scheduler step leaves the table and the pending lists, given
/// the lists in force when the step's outcome was reconciled: a pending
/// exit makes entry `i` `Exited` and wakes every waiter on `pid` in the
/// same pass; otherwise a pending block target, or a bare blocked
/// outcome, makes it `Blocked`; spawned children sit at the tail,
/// runnable.
pub open spec fn reconciled(
    k0: Kernel,
    k1: Kernel,
    i: int,
    pid: u32,
    pend_exit0: Seq<(u32, u8)>,
    pend_block0: Seq<(u32, WaitTarget)>,
    outcome: SyscallOutcome,
) -> bool {
    &&& k1.procs@.len() >= k0.procs@.len()
    &&& forall|j: int|
        k0.procs@.len() <= j < k1.procs@.len() ==> (#[trigger] k1.procs@[j]).state
            == ProcState::Running
    &&& k1.procs@[i].pid == k0.procs@[i].pid
    &&& match find_key(pend_exit0, pid) {
        Some(jx) => {
            let code = pend_exit0[jx].1;
            &&& k1.procs@[i].state == ProcState::Exited
            &&& k1.procs@[i].exit_code == Some(code)
            &&& k1.procs@[i].waiting_for is None
            &&& k1.pending_exit@ == pend_exit0.remove(jx)
            &&& k1.pending_block@ == pend_block0
            &&& forall|j: int|
                0 <= j < k0.procs@.len() && j != i ==> (if (#[trigger] k0.procs@[j]).state
                    == ProcState::Blocked && k0.procs@[j].waiting_for == Some(
                    WaitTarget::Pid(pid),
                ) {
                    woken(k0.procs@[j], k1.procs@[j], code)
                } else {
                    k1.procs@[j] == k0.procs@[j]
                })
        },
        None => {
            &&& k1.pending_exit@ == pend_exit0
            &&& k1.procs@[i].exit_code == k0.procs@[i].exit_code
            &&& forall|j: int|
                0 <= j < k0.procs@.len() && j != i ==> (#[trigger] k1.procs@[j]) == k0.procs@[j]
            &&& match find_key(pend_block0, pid) {
                Some(jb) => {
                    &&& k1.procs@[i].state == ProcState::Blocked
                    &&& k1.procs@[i].waiting_for == Some(pend_block0[jb].1)
                    &&& k1.pending_block@ == pend_block0.remove(jb)
                },
                None => {
                    &&& k1.pending_block@ == pend_block0
                    &&& k1.procs@[i].waiting_for == k0.procs@[i].waiting_for
                    &&& if outcome == SyscallOutcome::Blocked {
                        k1.procs@[i].state == ProcState::Blocked
                    } else {
                        k1.procs@[i].state == k0.procs@[i].state
                    }
                },
            }
        },
    }
}



/// The syscall-frame spec functions depend only on the register `I`, the
/// address-space mapping, the modes, the queues and the arena bytes, so
/// two states agreeing there agree on them.
pub proof fn lemma_frame_specs_eq(k1: Kernel, p1: Proc, k2: Kernel, p2: Proc)
    requires
        p1.page_table@ == p2.page_table@,
        p1.vm_size == p2.vm_size,
        p1.regs.I == p2.regs.I,
        p1.input_mode == p2.input_mode,
        p1.console_mode == p2.console_mode,
        p1.console_input@ == p2.console_input@,
        k1.mem.phys_mem@ == k2.mem.phys_mem@,
        k1.input@ == k2.input@,
    ensures
        p1.gview(k1.mem) == p2.gview(k2.mem),
        forall|idx: int| #[trigger] arg_ok(p1, k1.mem, idx) == arg_ok(p2, k2.mem, idx),
        forall|idx: int| #[trigger] arg_val(p1, k1.mem, idx) == arg_val(p2, k2.mem, idx),
        exit_code_of(k1, p1) == exit_code_of(k2, p2),
        read_request_blocks(k1, p1) == read_request_blocks(k2, p2),
        read_wait_target(k1, p1) == read_wait_target(k2, p2),
{
    assert(p1.gview(k1.mem) =~= p2.gview(k2.mem));
}

/// Reassembling the table after a step yields the reconciled relation:
/// `procs_mid` is the table the handler saw (entry `i` removed, any
/// spawned children at the tail), `procs_post` the table after the
/// pending reconciliation, and `entry` the stepped entry, reinserted at
/// its index.
pub proof fn lemma_step_reconciled(
    k0: Kernel,
    k1: Kernel,
    procs_mid: Seq<ProcEntry>,
    procs_post: Seq<ProcEntry>,
    entry: ProcEntry,
    entry_mid: ProcEntry,
    i: int,
    pid: u32,
    pe0: Seq<(u32, u8)>,
    pb0: Seq<(u32, WaitTarget)>,
    outcome: SyscallOutcome,
)
    requires
        0 <= i < k0.procs@.len(),
        procs_mid.len() >= k0.procs@.remove(i).len(),
        forall|j: int|
            0 <= j < k0.procs@.remove(i).len() ==> #[trigger] procs_mid[j] == k0.procs@.remove(
                i,
            )[j],
        forall|j: int|
            k0.procs@.remove(i).len() <= j < procs_mid.len() ==> (#[trigger] procs_mid[j]).state
                == ProcState::Running,
        k1.procs@ == procs_post.insert(i, entry),
        entry.pid == entry_mid.pid,
        entry_mid.pid == k0.procs@[i].pid,
        entry_mid.state == k0.procs@[i].state,
        entry_mid.exit_code == k0.procs@[i].exit_code,
        entry_mid.waiting_for == k0.procs@[i].waiting_for,
        (match find_key(pe0, pid) {
            Some(jx) => {
                let code = pe0[jx].1;
                &&& entry.state == ProcState::Exited
                &&& entry.exit_code == Some(code)
                &&& entry.waiting_for is None
                &&& k1.pending_exit@ == pe0.remove(jx)
                &&& k1.pending_block@ == pb0
                &&& waiters_woken(procs_mid, procs_post, pid, code)
            },
            None => {
                &&& k1.pending_exit@ == pe0
                &&& procs_post == procs_mid
                &&& (match find_key(pb0, pid) {
                    Some(jb) => {
                        &&& entry.state == ProcState::Blocked
                        &&& entry.waiting_for == Some(pb0[jb].1)
                        &&& entry.exit_code == entry_mid.exit_code
                        &&& k1.pending_block@ == pb0.remove(jb)
                    },
                    None => {
                        &&& k1.pending_block@ == pb0
                        &&& (if outcome == SyscallOutcome::Blocked {
                            entry.state == ProcState::Blocked && entry.waiting_for
                                == entry_mid.waiting_for && entry.exit_code
                                == entry_mid.exit_code
                        } else {
                            entry == entry_mid
                        })
                    },
                })
            },
        }),
    ensures
        reconciled(k0, k1, i, pid, pe0, pb0, outcome),
{
    let r0 = k0.procs@.remove(i);
    assert(k1.procs@[i] == entry);
    assert(k1.procs@.len() == procs_post.len() + 1);
    match find_key(pe0, pid) {
        Some(jx) => {
            let code = pe0[jx].1;
            assert forall|j: int|
                k0.procs@.len() <= j < k1.procs@.len() implies (#[trigger] k1.procs@[j]).state
                == ProcState::Running by {
                let j0 = j - 1;
                assert(k1.procs@[j] == procs_post[j0]);
                assert(procs_mid[j0].state == ProcState::Running);
                if procs_mid[j0].state == ProcState::Blocked && procs_mid[j0].waiting_for == Some(
                    WaitTarget::Pid(pid),
                ) {
                } else {
                    assert(procs_post[j0] == procs_mid[j0]);
                }
            }
            assert forall|j: int|
                0 <= j < k0.procs@.len() && j != i implies ({
                if (#[trigger] k0.procs@[j]).state == ProcState::Blocked
                    && k0.procs@[j].waiting_for == Some(WaitTarget::Pid(pid)) {
                    woken(k0.procs@[j], k1.procs@[j], code)
                } else {
                    k1.procs@[j] == k0.procs@[j]
                }
            }) by {
                let j0 = if j < i {
                    j
                } else {
                    j - 1
                };
                assert(procs_mid[j0] == r0[j0]);
                assert(r0[j0] == k0.procs@[j]);
                assert(k1.procs@[j] == procs_post[j0]);
            }
        },
        None => {
            assert forall|j: int|
                k0.procs@.len() <= j < k1.procs@.len() implies (#[trigger] k1.procs@[j]).state
                == ProcState::Running by {
                let j0 = j - 1;
                assert(k1.procs@[j] == procs_post[j0]);
            }
            assert forall|j: int|
                0 <= j < k0.procs@.len() && j != i implies (#[trigger] k1.procs@[j])
                == k0.procs@[j] by {
                let j0 = if j < i {
                    j
                } else {
                    j - 1
                };
                assert(procs_mid[j0] == r0[j0]);
                assert(r0[j0] == k0.procs@[j]);
                assert(k1.procs@[j] == procs_post[j0]);
            }
        },
    }
}

impl Kernel {
    /// Step the process for `pid` once: run one instruction, serve a
    /// syscall escape through the registry, and reconcile the pending
    /// transitions. A pid not in the table is an error; a process that is
    /// not `Running` is left alone. A fetch outside the address space is
    /// reported as an error with the scheduler left consistent.
    #[verifier::rlimit(100)]
    pub fn step_proc(&mut self, pid: u32) -> (r: Result<SyscallOutcome, VmError>)
        requires
            old(self).wf(),
        ensures
            final(self).wf(),
            find_pid(old(self).procs@, pid) is None <==> r == Err::<SyscallOutcome, VmError>(
                VmError::NotFound,
            ),
            (match find_pid(old(self).procs@, pid) {
                Some(i) => old(self).procs@[i].state != ProcState::Running ==> r == Ok::<
                    SyscallOutcome,
                    VmError,
                >(SyscallOutcome::Completed) && *final(self) == *old(self),
                None => *final(self) == *old(self),
            }),
            // on a running entry, one instruction is stepped; a syscall
            // escape is served through the registry and the program
            // counter advanced past it; then the pending transitions are
            // reconciled, a pending exit waking the pid's waiters in this
            // same pass.
            (match find_pid(old(self).procs@, pid) {
                Some(i) => old(self).procs@[i].state == ProcState::Running ==> {
                    let k0 = *old(self);
                    let p0 = k0.procs@[i].proc;
                    let m0 = k0.mem;
                    let fi = crate::chip8_engine::fetched_instr(p0, m0);
                    let fetch_ok = p0.regs.PC as int + 2 <= p0.vm_size as int;
                    &&& (!fetch_ok <==> r == Err::<SyscallOutcome, VmError>(VmError::OutOfRange))
                    &&& (!fetch_ok ==> {
                        &&& final(self).procs@.len() == k0.procs@.len()
                        &&& entry_same(k0.procs@[i], final(self).procs@[i])
                        &&& forall|j: int|
                            0 <= j < k0.procs@.len() && j != i
                                ==> (#[trigger] final(self).procs@[j]) == k0.procs@[j]
                        &&& final(self).mem.phys_mem@ == m0.phys_mem@
                        &&& final(self).pending_exit@ == k0.pending_exit@
                        &&& final(self).pending_block@ == k0.pending_block@
                    })
                    &&& (fetch_ok ==> (r matches Ok(outcome) && {
                        let e1 = final(self).procs@[i];
                        let escape = crate::chip8_engine::instr_op(fi) == 0 && 0x100
                            <= crate::chip8_engine::instr_nnn(fi) < 0x200;
                        &&& e1.proc.page_table@ == p0.page_table@
                        &&& e1.proc.vm_size == p0.vm_size
                        // the arena changes only inside the stepped
                        // process's or a spawned child's pages.
                        &&& forall|a: int|
                            0 <= a < PHYS_MEM_SIZE && !p0.owns_addr(a) && !(exists|j: int|
                                k0.procs@.len() <= j < final(self).procs@.len() && (
                                #[trigger] final(self).procs@[j]).proc.owns_addr(a))
                                ==> final(self).mem.phys_mem@[a] == m0.phys_mem@[a]
                        &&& !(outcome is Yielded) || escape
                        &&& (!escape ==> {
                            &&& reconciled(
                                k0,
                                *final(self),
                                i,
                                pid,
                                k0.pending_exit@,
                                k0.pending_block@,
                                outcome,
                            )
                            &&& final(self).procs@.len() == k0.procs@.len()
                            &&& crate::chip8_engine::pc_discipline(
                                p0,
                                e1.proc,
                                m0,
                                fi,
                                outcome == SyscallOutcome::Blocked,
                            )
                            &&& outcome == SyscallOutcome::Blocked
                                ==> crate::chip8_engine::instr_op(fi) == 0xF
                                && crate::chip8_engine::instr_kk(fi) == 0x0A && e1.proc.regs.PC
                                == p0.regs.PC
                        })
                        &&& (escape ==> {
                            let id = crate::chip8_engine::instr_nnn(fi);
                            &&& e1.proc.regs.PC == crate::chip8_engine::pc_plus(p0.regs.PC, 2)
                            &&& match table_lookup(k0.syscalls.handlers@, id) {
                                None => {
                                    &&& outcome == SyscallOutcome::Completed
                                    &&& e1.proc.regs.V@ == p0.regs.V@.update(15, 1u8).update(
                                        0,
                                        1u8,
                                    )
                                    &&& final(self).mem.phys_mem@ == m0.phys_mem@
                                    &&& reconciled(
                                        k0,
                                        *final(self),
                                        i,
                                        pid,
                                        k0.pending_exit@,
                                        k0.pending_block@,
                                        outcome,
                                    )
                                },
                                Some(h) => {
                                    match h {
                                        SyscallHandler::Exit => {
                                            &&& outcome == SyscallOutcome::Completed
                                            &&& reconciled(
                                                k0,
                                                *final(self),
                                                i,
                                                pid,
                                                k0.pending_exit@.push(
                                                    (pid, exit_code_of(k0, p0)),
                                                ),
                                                k0.pending_block@,
                                                outcome,
                                            )
                                        },
                                        SyscallHandler::Yield => {
                                            &&& outcome == SyscallOutcome::Yielded
                                            &&& reconciled(
                                                k0,
                                                *final(self),
                                                i,
                                                pid,
                                                k0.pending_exit@,
                                                k0.pending_block@,
                                                outcome,
                                            )
                                        },
                                        SyscallHandler::Read => {
                                            &&& (outcome == SyscallOutcome::Blocked
                                                <==> read_request_blocks(k0, p0))
                                            &&& reconciled(
                                                k0,
                                                *final(self),
                                                i,
                                                pid,
                                                k0.pending_exit@,
                                                (if read_request_blocks(k0, p0) {
                                                    k0.pending_block@.push(
                                                        (pid, read_wait_target(k0, p0)),
                                                    )
                                                } else {
                                                    k0.pending_block@
                                                }),
                                                outcome,
                                            )
                                        },
                                        SyscallHandler::Wait => {
                                            let live = arg_ok(p0, m0, 0) && (match find_pid(
                                                k0.procs@.remove(i),
                                                arg_val(p0, m0, 0) as u32,
                                            ) {
                                                Some(t) => k0.procs@.remove(i)[t].state
                                                    != ProcState::Exited,
                                                None => false,
                                            });
                                            &&& (outcome == SyscallOutcome::Blocked <==> live)
                                            &&& reconciled(
                                                k0,
                                                *final(self),
                                                i,
                                                pid,
                                                k0.pending_exit@,
                                                (if live {
                                                    k0.pending_block@.push(
                                                        (
                                                            pid,
                                                            WaitTarget::Pid(
                                                                arg_val(p0, m0, 0) as u32,
                                                            ),
                                                        ),
                                                    )
                                                } else {
                                                    k0.pending_block@
                                                }),
                                                outcome,
                                            )
                                        },
                                        _ => reconciled(
                                            k0,
                                            *final(self),
                                            i,
                                            pid,
                                            k0.pending_exit@,
                                            k0.pending_block@,
                                            outcome,
                                        ),
                                    }
                                },
                            }
                        })
                    }))
                },
                None => true,
            }),
    {
        let i = match self.proc_index(pid) {
            Some(i) => i,
            None => {
                return Err(VmError::NotFound);
            },
        };
        if !(self.procs[i].state == ProcState::Running) {
            return Ok(SyscallOutcome::Completed);
        }
        let ghost pre = self.procs@;
        let mut entry = self.procs.remove(i);
        proof {
            lemma_procs_ok_remove(pre, self.mem, self.fs, i as int);
        }
        let ev = entry.proc.step_event(&mut self.mem, 0);
        let ghost m_step = self.mem;
        proof {
            lemma_procs_ok_mem_bytes(self.procs@, old(self).mem, self.mem, self.fs);
            assert(entry.proc.page_table@ == pre[i as int].proc.page_table@);
            assert(pages_used(entry.proc, self.mem));
            assert(fds_ok(entry.proc, self.fs));
        }
        let outcome = match ev {
            StepEvent::Completed => SyscallOutcome::Completed,
            StepEvent::Blocked => SyscallOutcome::Blocked,
            StepEvent::Yielded => SyscallOutcome::Yielded,
            StepEvent::Fault => {
                proof {
                    assert forall|j: int|
                        0 <= j < pre.remove(i as int).len() implies tables_disjoint(
                        entry.proc,
                        (#[trigger] pre.remove(i as int)[j]).proc,
                    ) by {
                        lemma_disjoint_congruence(
                            pre[i as int].proc,
                            pre.remove(i as int)[j].proc,
                            entry.proc,
                            pre.remove(i as int)[j].proc,
                        );
                    }
                }
                self.procs.insert(i, entry);
                proof {
                    lemma_procs_ok_insert(
                        pre.remove(i as int),
                        self.mem,
                        self.fs,
                        i as int,
                        entry,
                    );
                }
                return Err(VmError::OutOfRange);
            },
            StepEvent::Syscall(nnn) => {
                let ghost pd0 = entry.proc;
                let ghost kd0 = *self;
                proof {
                    lemma_frame_specs_eq(kd0, pd0, *old(self), pre[i as int].proc);
                    assert(kd0.procs@ =~= pre.remove(i as int));
                }
                let o = match self.dispatch_syscall(pid, &mut entry.proc, nnn) {
                    Ok(o) => o,
                    Err(_) => {
                        entry.proc.regs.V[0xF] = 1;
                        entry.proc.regs.V[0] = 0x01;
                        SyscallOutcome::Completed
                    },
                };
                proof {
                    // the handler wrote only into the caller's or a
                    // spawned child's pages.
                    assert forall|a: int|
                        0 <= a < PHYS_MEM_SIZE && !pre[i as int].proc.owns_addr(a) && !(exists|
                            jm: int,
                        |
                            pre.remove(i as int).len() <= jm < self.procs@.len() && (
                            #[trigger] self.procs@[jm]).proc.owns_addr(
                                a,
                            )) implies self.mem.phys_mem@[a] == m_step.phys_mem@[a] by {
                        pre[i as int].proc.lemma_same_mapping(pd0);
                    }
                }
                entry.proc.regs.PC = entry.proc.regs.PC.wrapping_add(2);
                o
            },
        };
        let ghost procs_mid = self.procs@;
        let ghost entry_mid = entry;
        let ghost pe0 = self.pending_exit@;
        let ghost pb0 = self.pending_block@;
        self.apply_pending(pid, &mut entry, outcome);
        let ghost pre_insert = self.procs@;
        proof {
            assert(entry.proc == entry_mid.proc);
            assert(entry.proc.page_table@ == pre[i as int].proc.page_table@);
            assert(entry_ok(entry, self.mem, self.fs));
            let r0 = pre.remove(i as int);
            assert forall|j: int| 0 <= j < pre_insert.len() implies tables_disjoint(
                entry.proc,
                (#[trigger] pre_insert[j]).proc,
            ) by {
                assert(pre_insert[j].proc.page_table@ == procs_mid[j].proc.page_table@);
                if j < r0.len() {
                    assert(procs_mid[j] == r0[j]);
                    lemma_disjoint_congruence(
                        pre[i as int].proc,
                        r0[j].proc,
                        entry.proc,
                        pre_insert[j].proc,
                    );
                } else {
                    assert(tables_disjoint(procs_mid[j].proc, entry_mid.proc));
                    lemma_disjoint_symmetric_pub(procs_mid[j].proc, entry_mid.proc);
                    lemma_disjoint_congruence(
                        entry_mid.proc,
                        procs_mid[j].proc,
                        entry.proc,
                        pre_insert[j].proc,
                    );
                }
            }
        }
        self.procs.insert(i, entry);
        proof {
            assert(self.procs@.remove(i as int) =~= pre_insert);
            lemma_procs_ok_insert_general(self.procs@, self.mem, self.fs, i as int, entry);
            // the reconciliation holds on the reassembled table.
            assert forall|j: int|
                0 <= j < old(self).procs@.remove(i as int).len() implies #[trigger] procs_mid[j]
                == old(self).procs@.remove(i as int)[j] by {
                assert(procs_mid[j] == pre.remove(i as int)[j]);
            }
            lemma_step_reconciled(
                *old(self),
                *self,
                procs_mid,
                pre_insert,
                entry,
                entry_mid,
                i as int,
                pid,
                pe0,
                pb0,
                outcome,
            );
            // spawned children sit at the tail with their page tables
            // unchanged by the reconciliation, so the frame carries over.
            assert forall|a: int|
                0 <= a < PHYS_MEM_SIZE && !pre[i as int].proc.owns_addr(a) && !(exists|j: int|
                    old(self).procs@.len() <= j < self.procs@.len() && (
                    #[trigger] self.procs@[j]).proc.owns_addr(a)) implies self.mem.phys_mem@[a]
                == old(self).mem.phys_mem@[a] by {
                if self.mem.phys_mem@[a] != old(self).mem.phys_mem@[a] {
                    assert(m_step.phys_mem@[a] == old(self).mem.phys_mem@[a]);
                    assert(exists|jm: int|
                        pre.remove(i as int).len() <= jm < procs_mid.len() && (
                        #[trigger] procs_mid[jm]).proc.owns_addr(a));
                    let jm = choose|jm: int|
                        pre.remove(i as int).len() <= jm < procs_mid.len() && (
                        #[trigger] procs_mid[jm]).proc.owns_addr(a);
                    let jf = jm + 1;
                    assert(self.procs@[jf] == pre_insert[jm]);
                    assert(pre_insert[jm].proc.page_table@ == procs_mid[jm].proc.page_table@);
                    procs_mid[jm].proc.lemma_same_mapping(self.procs@[jf].proc);
                }
            }
            let k0 = *old(self);
            let p0 = pre[i as int].proc;
            let m0 = k0.mem;
            let fi = crate::chip8_engine::fetched_instr(p0, m0);
            let fetch_ok = p0.regs.PC as int + 2 <= p0.vm_size as int;
            let escape = crate::chip8_engine::instr_op(fi) == 0 && 0x100
                <= crate::chip8_engine::instr_nnn(fi) < 0x200;
            if fetch_ok && escape {
                let id = crate::chip8_engine::instr_nnn(fi);
                assert(self.procs@[i as int].proc.regs.PC == crate::chip8_engine::pc_plus(
                    p0.regs.PC,
                    2,
                ));
                match table_lookup(k0.syscalls.handlers@, id) {
                    None => {
                        assert(self.procs@[i as int].proc.regs.V@ == p0.regs.V@.update(
                            15,
                            1u8,
                        ).update(0, 1u8));
                        assert(self.mem.phys_mem@ == m0.phys_mem@);
                        assert(outcome == SyscallOutcome::Completed);
                        assert(reconciled(
                            k0,
                            *self,
                            i as int,
                            pid,
                            k0.pending_exit@,
                            k0.pending_block@,
                            outcome,
                        ));
                    },
                    Some(h) => {
                        match h {
                            SyscallHandler::Exit => {
                                assert(pe0 == k0.pending_exit@.push(
                                    (pid, exit_code_of(k0, p0)),
                                ));
                                assert(pb0 == k0.pending_block@);
                                assert(outcome == SyscallOutcome::Completed);
                            },
                            SyscallHandler::Yield => {
                                assert(pe0 == k0.pending_exit@ && pb0 == k0.pending_block@);
                                assert(outcome == SyscallOutcome::Yielded);
                            },
                            SyscallHandler::Read => {
                                assert(outcome == SyscallOutcome::Blocked
                                    <==> read_request_blocks(k0, p0));
                                assert(pe0 == k0.pending_exit@);
                                assert(pb0 == (if read_request_blocks(k0, p0) {
                                    k0.pending_block@.push((pid, read_wait_target(k0, p0)))
                                } else {
                                    k0.pending_block@
                                }));
                            },
                            SyscallHandler::Wait => {
                                let live = arg_ok(p0, m0, 0) && (match find_pid(
                                    k0.procs@.remove(i as int),
                                    arg_val(p0, m0, 0) as u32,
                                ) {
                                    Some(t) => k0.procs@.remove(i as int)[t].state
                                        != ProcState::Exited,
                                    None => false,
                                });
                                assert(outcome == SyscallOutcome::Blocked <==> live);
                                assert(pe0 == k0.pending_exit@);
                                assert(pb0 == (if live {
                                    k0.pending_block@.push(
                                        (pid, WaitTarget::Pid(arg_val(p0, m0, 0) as u32)),
                                    )
                                } else {
                                    k0.pending_block@
                                }));
                            },
                            _ => {
                                assert(pe0 == k0.pending_exit@ && pb0 == k0.pending_block@);
                                assert(outcome == SyscallOutcome::Completed);
                            },
                        }
                    },
                }
            }
        }
        Ok(outcome)
    }
}

/// Variant of the insert lemma stated on the post-insert sequence.
pub proof fn lemma_procs_ok_insert_general(
    s1: Seq<ProcEntry>,
    m: SharedMemory,
    fs: SandboxFs,
    i: int,
    e: ProcEntry,
)
    requires
        0 <= i < s1.len(),
        s1[i] == e,
        procs_ok(s1.remove(i), m, fs),
        entry_ok(e, m, fs),
        forall|j: int|
            0 <= j < s1.remove(i).len() ==> tables_disjoint(
                e.proc,
                (#[trigger] s1.remove(i)[j]).proc,
            ),
    ensures
        procs_ok(s1, m, fs),
{
    lemma_procs_ok_insert(s1.remove(i), m, fs, i, e);
    assert(s1 =~= s1.remove(i).insert(i, e));
}


/// Whether descriptor number `fd` is already taken, scanning from `i`.
pub open spec fn find_fd_from(fds: Seq<OpenFile>, fd: u8, i: int) -> Option<int>
    decreases fds.len() - i,
{
    if i < 0 || i >= fds.len() {
        None
    } else if fds[i].fd == fd {
        Some(i)
    } else {
        find_fd_from(fds, fd, i + 1)
    }
}

pub open spec fn find_fd(fds: Seq<OpenFile>, fd: u8) -> Option<int> {
    find_fd_from(fds, fd, 0)
}

/// Find the slot holding descriptor `fd`.
fn find_fd_index(fds: &Vec<OpenFile>, fd: u8) -> (r: Option<usize>)
    ensures
        match r {
            Some(i) => find_fd(fds@, fd) == Some(i as int) && i < fds@.len() && fds@[i as int].fd
                == fd,
            None => find_fd(fds@, fd) is None,
        },
{
    let mut i: usize = 0;
    while i < fds.len()
        invariant
            i <= fds@.len(),
            find_fd(fds@, fd) == find_fd_from(fds@, fd, i as int),
        decreases fds@.len() - i,
    {
        if fds[i].fd == fd {
            return Some(i);
        }
        i = i + 1;
    }
    None
}

/// The fixed-layout directory record for one node: the name length, the
/// name padded with zeros to its maximum length, a kind byte, and the
/// file size as four big-endian bytes.
pub open spec fn record_of(n: FsNode) -> Seq<u8> {
    let name = n.path.deep_view().last();
    let sz = (if n.kind is File {
        n.data@.len() as int
    } else {
        0int
    });
    seq![name.len() as u8] + name + Seq::new(
        (crate::sandbox::MAX_FILENAME_LEN - name.len()) as nat,
        |j: int| 0u8,
    ) + seq![
        (if n.kind is Dir {
            1u8
        } else {
            0u8
        }),
        (sz / 0x1000000 % 256) as u8,
        (sz / 0x10000 % 256) as u8,
        (sz / 0x100 % 256) as u8,
        (sz % 256) as u8,
    ]
}

/// The concatenated records of the children of `dir` among the first `n`
/// nodes, keeping only the first `limit` children.
pub open spec fn records_upto(nodes: Seq<FsNode>, dir: Seq<Seq<u8>>, n: int, limit: int) -> Seq<u8>
    decreases n,
{
    if n <= 0 {
        Seq::empty()
    } else {
        records_upto(nodes, dir, n - 1, limit) + (if crate::sandbox::is_child_of(
            nodes[n - 1].path.deep_view(),
            dir,
        ) && crate::sandbox::children_count(nodes, dir, n - 1) < limit {
            record_of(nodes[n - 1])
        } else {
            Seq::<u8>::empty()
        })
    }
}

/// Children counted with the listing limit applied.
pub open spec fn count_limited(nodes: Seq<FsNode>, dir: Seq<Seq<u8>>, n: int, limit: int) -> int {
    if crate::sandbox::children_count(nodes, dir, n) as int <= limit {
        crate::sandbox::children_count(nodes, dir, n) as int
    } else {
        limit
    }
}

/// Each limited record block is as long as the records it holds.
proof fn lemma_records_len(nodes: Seq<FsNode>, dir: Seq<Seq<u8>>, n: int, limit: int)
    requires
        0 <= n <= nodes.len(),
        0 <= limit,
        forall|i: int| 0 <= i < nodes.len() ==> crate::sandbox::node_wf(#[trigger] nodes[i]),
    ensures
        records_upto(nodes, dir, n, limit).len() == DIR_ENTRY_SIZE as int * count_limited(
            nodes,
            dir,
            n,
            limit,
        ),
    decreases n,
{
    assert(DIR_ENTRY_SIZE == 70);
    if n > 0 {
        lemma_records_len(nodes, dir, n - 1, limit);
        let cl0 = count_limited(nodes, dir, n - 1, limit);
        assert(DIR_ENTRY_SIZE as int * (cl0 + 1) == DIR_ENTRY_SIZE as int * cl0 + DIR_ENTRY_SIZE
            as int) by (nonlinear_arith);
        if crate::sandbox::is_child_of(nodes[n - 1].path.deep_view(), dir)
            && crate::sandbox::children_count(nodes, dir, n - 1) < limit {
            let pth = nodes[n - 1].path.deep_view();
            assert(crate::sandbox::seg_wf(pth[pth.len() - 1]));
            assert(pth.last().len() <= crate::sandbox::MAX_FILENAME_LEN);
            assert(record_of(nodes[n - 1]).len() == DIR_ENTRY_SIZE as int);
        }
    }
}

/// Build the record for one node, exactly `record_of`.
fn build_record(n: &FsNode, out: &mut Vec<u8>)
    requires
        crate::sandbox::node_wf(*n),
    ensures
        final(out)@ == old(out)@ + record_of(*n),
{
    let name = &n.path[n.path.len() - 1];
    proof {
        assert(n.path.deep_view().len() == n.path@.len());
        crate::sandbox::lemma_bytes_deep(n.path@[n.path@.len() - 1]);
        assert(n.path.deep_view().last() == name@);
        assert(crate::sandbox::seg_wf(name@));
    }
    let ghost base = out@;
    out.push(name.len() as u8);
    let mut b: usize = 0;
    while b < name.len()
        invariant
            b <= name@.len(),
            out@ == base + seq![name@.len() as u8] + name@.take(b as int),
        decreases name@.len() - b,
    {
        out.push(name[b]);
        proof {
            assert(base + seq![name@.len() as u8] + name@.take(b as int) + seq![name@[b as int]]
                =~= base + seq![name@.len() as u8] + name@.take(b as int + 1));
        }
        b = b + 1;
    }
    proof {
        assert(name@.take(name@.len() as int) =~= name@);
    }
    let mut pad: usize = name.len();
    while pad < crate::sandbox::MAX_FILENAME_LEN
        invariant
            name@.len() <= pad <= crate::sandbox::MAX_FILENAME_LEN,
            crate::sandbox::seg_wf(name@),
            out@ == base + seq![name@.len() as u8] + name@ + Seq::new(
                (pad - name@.len()) as nat,
                |j: int| 0u8,
            ),
        decreases crate::sandbox::MAX_FILENAME_LEN - pad,
    {
        out.push(0);
        proof {
            assert(Seq::new((pad - name@.len()) as nat, |j: int| 0u8).push(0u8) =~= Seq::new(
                (pad + 1 - name@.len()) as nat,
                |j: int| 0u8,
            ));
            assert(base + seq![name@.len() as u8] + name@ + Seq::new(
                (pad - name@.len()) as nat,
                |j: int| 0u8,
            ) + seq![0u8] =~= base + seq![name@.len() as u8] + name@ + Seq::new(
                (pad + 1 - name@.len()) as nat,
                |j: int| 0u8,
            ));
        }
        pad = pad + 1;
    }
    let kind_byte: u8 = if n.kind == FsKind::Dir {
        1
    } else {
        0
    };
    out.push(kind_byte);
    let size: u32 = if n.kind == FsKind::File {
        n.data.len() as u32
    } else {
        0
    };
    out.push(((size / 0x1000000) % 256) as u8);
    out.push(((size / 0x10000) % 256) as u8);
    out.push(((size / 0x100) % 256) as u8);
    out.push((size % 256) as u8);
    proof {
        assert(final(out)@ =~= old(out)@ + record_of(*n));
    }
}

/// `fs_list`: write the fixed-layout records of a directory's entries
/// into guest memory, up to the caller's limit, and return the count.
pub fn sys_fs_list(kernel: &mut Kernel, pid: u32, proc: &mut Proc) -> (outcome: SyscallOutcome)
    requires
        old(kernel).wf(),
        old(proc).wf(),
    ensures
        final(kernel).wf(),
        final(proc).wf(),
        final(kernel).mem.bitmap() == old(kernel).mem.bitmap(),
        final(kernel).syscalls == old(kernel).syscalls,
        final(kernel).next_pid == old(kernel).next_pid,
        final(kernel).fs == old(kernel).fs,
        final(kernel).procs@ == old(kernel).procs@,
        final(kernel).input@ == old(kernel).input@,
        final(kernel).host_output@ == old(kernel).host_output@,
        final(kernel).pending_exit@ == old(kernel).pending_exit@,
        final(kernel).pending_block@ == old(kernel).pending_block@,
        crate::chip8_engine::same_core(*old(proc), *final(proc)),
        crate::chip8_engine::same_display(*old(proc), *final(proc)),
        final(proc).regs.DT == old(proc).regs.DT && final(proc).regs.ST == old(proc).regs.ST
            && final(proc).regs.I == old(proc).regs.I && final(proc).regs.SP == old(
            proc,
        ).regs.SP && final(proc).regs.PC == old(proc).regs.PC,
        forall|a: int|
            0 <= a < PHYS_MEM_SIZE && !old(proc).owns_addr(a)
                ==> final(kernel).mem.phys_mem@[a] == old(kernel).mem.phys_mem@[a],
        ({
            let p0 = *old(proc);
            let k0 = *old(kernel);
            let m = k0.mem;
            let args_fine = arg_ok(p0, m, 0) && arg_ok(p0, m, 1) && arg_ok(p0, m, 2) && arg_ok(
                p0,
                m,
                3,
            );
            if !args_fine {
                &&& syscall_error(p0, *final(proc), ERR_INVALID)
                &&& final(kernel).mem.phys_mem@ == m.phys_mem@
            } else {
                let path_ptr = arg_val(p0, m, 0);
                let path_len = arg_val(p0, m, 1);
                let out_ptr = arg_val(p0, m, 2);
                let max_entries = arg_val(p0, m, 3);
                if path_len as int > 0 && path_ptr as int + path_len as int > p0.vm_size as int {
                    &&& syscall_error(p0, *final(proc), ERR_INVALID)
                    &&& final(kernel).mem.phys_mem@ == m.phys_mem@
                } else {
                    let name = Seq::new(
                        path_len as nat,
                        |j: int| p0.gview(m)[path_ptr as int + j],
                    );
                    if crate::sandbox::path_rejected(name) {
                        &&& syscall_error(p0, *final(proc), ERR_PATH)
                        &&& final(kernel).mem.phys_mem@ == m.phys_mem@
                    } else {
                        let target = crate::sandbox::normalized(name);
                        if target.len() > 0 && (forall|fi: int|
                            0 <= fi < k0.fs.nodes@.len() ==> (
                            #[trigger] k0.fs.nodes@[fi].path.deep_view()) != target) {
                            &&& syscall_error(p0, *final(proc), ERR_NOT_FOUND)
                            &&& final(kernel).mem.phys_mem@ == m.phys_mem@
                        } else if exists|fi: int|
                            0 <= fi < k0.fs.nodes@.len() && (
                            #[trigger] k0.fs.nodes@[fi].path.deep_view()) == target
                                && k0.fs.nodes@[fi].kind is File {
                            &&& syscall_error(p0, *final(proc), ERR_NOT_DIR)
                            &&& final(kernel).mem.phys_mem@ == m.phys_mem@
                        } else {
                            let dir = target;
                            let n = k0.fs.nodes@.len() as int;
                            let count = count_limited(k0.fs.nodes@, dir, n, max_entries as int);
                            let recs = records_upto(k0.fs.nodes@, dir, n, max_entries as int);
                            if count == 0 || out_ptr as int + recs.len() <= p0.vm_size as int {
                                &&& final(proc).regs.V@ == p0.regs.V@.update(
                                    0,
                                    (if count <= 255 {
                                        count
                                    } else {
                                        255
                                    }) as u8,
                                ).update(15, 0u8)
                                &&& forall|w: int|
                                    0 <= w < p0.vm_size ==> p0.gview(final(kernel).mem)[w] == (
                                    if out_ptr as int <= w < out_ptr as int + recs.len() {
                                        recs[w - out_ptr as int]
                                    } else {
                                        p0.gview(m)[w]
                                    })
                            } else {
                                syscall_error(p0, *final(proc), ERR_INVALID)
                            }
                        }
                    }
                }
            }
        }),
        outcome == SyscallOutcome::Completed,
{
    let path_ptr = match syscall_arg(proc, &kernel.mem, 0) {
        Ok(v) => v,
        Err(_) => {
            proc.regs.V[0] = ERR_INVALID;
            proc.regs.V[0xF] = 1;
            return SyscallOutcome::Completed;
        },
    };
    let path_len = match syscall_arg(proc, &kernel.mem, 1) {
        Ok(v) => v,
        Err(_) => {
            proc.regs.V[0] = ERR_INVALID;
            proc.regs.V[0xF] = 1;
            return SyscallOutcome::Completed;
        },
    };
    let out_ptr = match syscall_arg(proc, &kernel.mem, 2) {
        Ok(v) => v,
        Err(_) => {
            proc.regs.V[0] = ERR_INVALID;
            proc.regs.V[0xF] = 1;
            return SyscallOutcome::Completed;
        },
    };
    let max_entries = match syscall_arg(proc, &kernel.mem, 3) {
        Ok(v) => v,
        Err(_) => {
            proc.regs.V[0] = ERR_INVALID;
            proc.regs.V[0xF] = 1;
            return SyscallOutcome::Completed;
        },
    };
    let path_bytes = match proc.read_bytes(&kernel.mem, path_ptr as u32, path_len as usize) {
        Ok(d) => d,
        Err(_) => {
            proc.regs.V[0] = ERR_INVALID;
            proc.regs.V[0xF] = 1;
            return SyscallOutcome::Completed;
        },
    };
    proof {
        assert(path_bytes@ =~= Seq::new(
            path_len as nat,
            |j: int| old(proc).gview(old(kernel).mem)[path_ptr as int + j],
        ));
    }
    let dir: Vec<Vec<u8>> = match kernel.resolve_fs_path(&path_bytes) {
        ResolvedNode::Malformed => {
            proc.regs.V[0] = ERR_PATH;
            proc.regs.V[0xF] = 1;
            return SyscallOutcome::Completed;
        },
        ResolvedNode::Missing => {
            proc.regs.V[0] = ERR_NOT_FOUND;
            proc.regs.V[0xF] = 1;
            return SyscallOutcome::Completed;
        },
        ResolvedNode::IsRoot => Vec::new(),
        ResolvedNode::Found(i) => {
            if kernel.fs.nodes[i].kind == FsKind::File {
                proc.regs.V[0] = ERR_NOT_DIR;
                proc.regs.V[0xF] = 1;
                return SyscallOutcome::Completed;
            }
            proof {
                // paths are distinct, so no other node carries this path,
                // in particular no file does.
                assert forall|fi: int|
                    0 <= fi < kernel.fs.nodes@.len() && (
                    #[trigger] kernel.fs.nodes@[fi].path.deep_view())
                        == kernel.fs.nodes@[i as int].path.deep_view() implies !(
                kernel.fs.nodes@[fi].kind is File) by {
                    if fi != i as int {
                        if fi < i as int {
                            assert(kernel.fs.nodes@[fi].path.deep_view()
                                != kernel.fs.nodes@[i as int].path.deep_view());
                        } else {
                            assert(kernel.fs.nodes@[i as int].path.deep_view()
                                != kernel.fs.nodes@[fi].path.deep_view());
                        }
                    }
                }
            }
            let mut copy: Vec<Vec<u8>> = Vec::new();
            let mut si: usize = 0;
            let node_path = &kernel.fs.nodes[i].path;
            while si < node_path.len()
                invariant
                    si <= node_path@.len(),
                    copy.deep_view() == node_path.deep_view().take(si as int),
                decreases node_path@.len() - si,
            {
                let seg = &node_path[si];
                let mut segcopy: Vec<u8> = Vec::new();
                let mut bb: usize = 0;
                while bb < seg.len()
                    invariant
                        bb <= seg@.len(),
                        segcopy@ == seg@.take(bb as int),
                    decreases seg@.len() - bb,
                {
                    segcopy.push(seg[bb]);
                    proof {
                        assert(seg@.take(bb as int).push(seg@[bb as int]) =~= seg@.take(
                            bb as int + 1,
                        ));
                    }
                    bb = bb + 1;
                }
                proof {
                    assert(segcopy@ =~= seg@);
                }
                let ghost sv = segcopy;
                let ghost pre_copy = copy.deep_view();
                copy.push(segcopy);
                proof {
                    crate::sandbox::lemma_bytes_deep(node_path@[si as int]);
                    crate::sandbox::lemma_bytes_deep(sv);
                    assert(copy.deep_view() =~~= pre_copy.push(sv@));
                    assert(pre_copy.push(sv@) =~= node_path.deep_view().take(si as int + 1));
                }
                si = si + 1;
            }
            proof {
                assert(node_path.deep_view().take(node_path.deep_view().len() as int)
                    =~= node_path.deep_view());
                assert(copy.deep_view() == kernel.fs.nodes@[i as int].path.deep_view());
                // this node witnesses that the target path exists.
                assert(kernel.fs.nodes@[i as int].path.deep_view()
                    == crate::sandbox::normalized(path_bytes@));
            }
            copy
        },
    };
    proof {
        if dir.deep_view().len() == 0 {
            assert(dir.deep_view() =~= Seq::<Seq<u8>>::empty());
            assert forall|fi: int|
                0 <= fi < kernel.fs.nodes@.len() implies (
            #[trigger] kernel.fs.nodes@[fi].path.deep_view()).len() >= 1 by {
                assert(crate::sandbox::node_wf(kernel.fs.nodes@[fi]));
            }
        }
        assert(dir.deep_view() =~= crate::sandbox::normalized(path_bytes@));
    }
    // build every record first, then commit them with a single write.
    let mut buffer: Vec<u8> = Vec::new();
    let mut count: usize = 0;
    let mut j: usize = 0;
    let n = kernel.fs.nodes.len();
    while j < n
        invariant
            j <= n,
            n == kernel.fs.nodes@.len(),
            kernel.fs.wf(),
            count == count_limited(
                kernel.fs.nodes@,
                dir.deep_view(),
                j as int,
                max_entries as int,
            ),
            count <= j,
            buffer@ == records_upto(
                kernel.fs.nodes@,
                dir.deep_view(),
                j as int,
                max_entries as int,
            ),
            crate::sandbox::children_count(kernel.fs.nodes@, dir.deep_view(), j as int)
                <= j as nat,
        decreases n - j,
    {
        let is_child = crate::sandbox::child_check(&kernel.fs.nodes[j].path, &dir);
        if is_child && count < max_entries as usize {
            build_record(&kernel.fs.nodes[j], &mut buffer);
            count = count + 1;
        }
        j = j + 1;
    }
    let v0: u8 = if count <= 255 {
        count as u8
    } else {
        255
    };
    let ghost m_before = kernel.mem;
    let r = proc.write_bytes(&mut kernel.mem, out_ptr as u32, buffer.as_slice());
    proof {
        lemma_procs_ok_mem_bytes(kernel.procs@, m_before, kernel.mem, kernel.fs);
        lemma_records_len(
            kernel.fs.nodes@,
            dir.deep_view(),
            n as int,
            max_entries as int,
        );
    }
    proof {
        let target = crate::sandbox::normalized(path_bytes@);
        let recs = records_upto(kernel.fs.nodes@, target, n as int, max_entries as int);
        assert(buffer@ == recs);
        assert(recs.len() == DIR_ENTRY_SIZE as int * (count as int));
        assert(count as int == count_limited(
            kernel.fs.nodes@,
            target,
            n as int,
            max_entries as int,
        ));
        assert(DIR_ENTRY_SIZE == 70);
        assert((70int * (count as int) == 0) == (count as int == 0)) by (nonlinear_arith);
        if r is Ok {
            assert(buffer@.len() == 0 || out_ptr as int + buffer@.len() <= old(
                proc,
            ).vm_size as int);
            assert(count == 0 || out_ptr as int + recs.len() <= old(proc).vm_size as int);
        } else {
            assert(buffer@.len() > 0 && out_ptr as int + buffer@.len() > old(
                proc,
            ).vm_size as int);
            assert(!(count == 0 || out_ptr as int + recs.len() <= old(proc).vm_size as int));
        }
    }
    if r.is_err() {
        proc.regs.V[0] = ERR_INVALID;
        proc.regs.V[0xF] = 1;
        return SyscallOutcome::Completed;
    }
    proc.regs.V[0] = v0;
    proc.regs.V[0xF] = 0;
    SyscallOutcome::Completed
}


/// Whether any open slot of the process uses descriptor `fd`.
pub open spec fn fd_in_use(fds: Seq<OpenFile>, fd: u8) -> bool {
    exists|k: int| 0 <= k < fds.len() && (#[trigger] fds[k]).fd == fd
}

/// Whether any open slot uses descriptor `fd`, exactly `fd_in_use`.
fn fd_in_use_check(fds: &Vec<OpenFile>, fd: u8) -> (r: bool)
    ensures
        r == fd_in_use(fds@, fd),
{
    let mut k: usize = 0;
    while k < fds.len()
        invariant
            k <= fds@.len(),
            forall|j: int| 0 <= j < k ==> (#[trigger] fds@[j]).fd != fd,
        decreases fds@.len() - k,
    {
        if fds[k].fd == fd {
            return true;
        }
        k = k + 1;
    }
    false
}


/// The descriptor value tested at offset `t` of the allocation scan:
/// the rotating candidate, with zero bumped to one.
pub open spec fn fd_candidate(start: u8, t: int) -> u8 {
    let c = crate::chip8_engine::wrap8_add(start, t as u8);
    if c == 0 {
        1u8
    } else {
        c
    }
}

/// If every descriptor value in `1..=n` is taken, the table holds at
/// least `n` slots: each value sits in its own slot.
proof fn lemma_fd_pigeonhole(fds: Seq<OpenFile>, n: int)
    requires
        0 <= n <= 255,
        forall|v: int| 1 <= v <= n ==> #[trigger] fd_in_use(fds, v as u8),
    ensures
        fds.len() >= n,
    decreases n,
{
    if n > 0 {
        assert(fd_in_use(fds, n as u8));
        let k = choose|k: int| 0 <= k < fds.len() && (#[trigger] fds[k]).fd == n as u8;
        let rest = fds.remove(k);
        assert forall|v: int| 1 <= v <= n - 1 implies #[trigger] fd_in_use(rest, v as u8) by {
            assert(fd_in_use(fds, v as u8));
            let kv = choose|kv: int| 0 <= kv < fds.len() && (#[trigger] fds[kv]).fd == v as u8;
            assert((v as u8) as int == v && (n as u8) as int == n);
            assert(kv != k);
            let kv2 = if kv < k {
                kv
            } else {
                kv - 1
            };
            assert(rest[kv2] == fds[kv]);
            assert(fd_in_use(rest, v as u8));
        }
        lemma_fd_pigeonhole(rest, n - 1);
    }
}

/// `fs_open`: resolve a path to a regular file and install a descriptor
/// for it. Rejects malformed paths, missing nodes, directories, and a
/// full descriptor table.
pub fn sys_fs_open(kernel: &mut Kernel, pid: u32, proc: &mut Proc) -> (outcome: SyscallOutcome)
    requires
        old(kernel).wf(),
        old(proc).wf(),
        fds_ok(*old(proc), old(kernel).fs),
    ensures
        final(kernel).wf(),
        final(proc).wf(),
        kernel_unchanged(*old(kernel), *final(kernel)),
        fds_ok(*final(proc), final(kernel).fs),
        final(proc).page_table@ == old(proc).page_table@,
        final(proc).vm_size == old(proc).vm_size,
        final(proc).input_mode == old(proc).input_mode,
        final(proc).console_mode == old(proc).console_mode,
        final(proc).console_input@ == old(proc).console_input@,
        crate::chip8_engine::same_display(*old(proc), *final(proc)),
        final(proc).regs.DT == old(proc).regs.DT && final(proc).regs.ST == old(proc).regs.ST
            && final(proc).regs.I == old(proc).regs.I && final(proc).regs.SP == old(
            proc,
        ).regs.SP && final(proc).regs.PC == old(proc).regs.PC,
        ({
            // each error is tied to its cause; a readable path naming a
            // file with a free table slot is owed a descriptor (the one
            // caveat below is the descriptor-number scan).
            let p0 = *old(proc);
            let k0 = *old(kernel);
            let m = k0.mem;
            let v1 = final(proc).regs.V@;
            let fds1 = final(proc).fds@;
            if !(arg_ok(p0, m, 0) && arg_ok(p0, m, 1)) {
                &&& syscall_error(p0, *final(proc), ERR_INVALID)
                &&& fds1 == p0.fds@
                &&& final(proc).next_fd == p0.next_fd
            } else {
                let path_ptr = arg_val(p0, m, 0);
                let path_len = arg_val(p0, m, 1);
                if path_len as int > 0 && path_ptr as int + path_len as int > p0.vm_size as int {
                    &&& syscall_error(p0, *final(proc), ERR_INVALID)
                    &&& fds1 == p0.fds@
                    &&& final(proc).next_fd == p0.next_fd
                } else {
                    let name = Seq::new(path_len as nat, |j: int| p0.gview(m)[path_ptr as int + j]);
                    let target = crate::sandbox::normalized(name);
                    if crate::sandbox::path_rejected(name) {
                        &&& syscall_error(p0, *final(proc), ERR_PATH)
                        &&& fds1 == p0.fds@
                        &&& final(proc).next_fd == p0.next_fd
                    } else if target.len() > 0 && (forall|ni: int|
                        0 <= ni < k0.fs.nodes@.len() ==> (
                        #[trigger] k0.fs.nodes@[ni].path.deep_view()) != target) {
                        &&& syscall_error(p0, *final(proc), ERR_NOT_FOUND)
                        &&& fds1 == p0.fds@
                        &&& final(proc).next_fd == p0.next_fd
                    } else if target.len() == 0 || (exists|ni: int|
                        0 <= ni < k0.fs.nodes@.len() && (
                        #[trigger] k0.fs.nodes@[ni].path.deep_view()) == target
                            && k0.fs.nodes@[ni].kind is Dir) {
                        &&& syscall_error(p0, *final(proc), ERR_IS_DIR)
                        &&& fds1 == p0.fds@
                        &&& final(proc).next_fd == p0.next_fd
                    } else if p0.fds@.len() >= MAX_OPEN_FILES {
                        &&& syscall_error(p0, *final(proc), ERR_TOO_MANY_OPEN)
                        &&& fds1 == p0.fds@
                        &&& final(proc).next_fd == p0.next_fd
                    } else {
                        forall|ni: int|
                            (0 <= ni < k0.fs.nodes@.len() && (
                            #[trigger] k0.fs.nodes@[ni].path.deep_view()) == target
                                && k0.fs.nodes@[ni].kind is File) ==> (fds1.len() == p0.fds@.len()
                                + 1 && ({
                                let slot = fds1.last();
                                &&& slot.fd != 0
                                &&& !fd_in_use(p0.fds@, slot.fd)
                                &&& slot.offset == 0
                                &&& slot.node == ni
                                &&& fds1 == p0.fds@.push(slot)
                                &&& v1 == p0.regs.V@.update(0, slot.fd).update(15, 0u8)
                            }))
                    }
                }
            }
        }),
        outcome == SyscallOutcome::Completed,
{
    let path_ptr = match syscall_arg(proc, &kernel.mem, 0) {
        Ok(v) => v,
        Err(_) => {
            proc.regs.V[0] = ERR_INVALID;
            proc.regs.V[0xF] = 1;
            return SyscallOutcome::Completed;
        },
    };
    let path_len = match syscall_arg(proc, &kernel.mem, 1) {
        Ok(v) => v,
        Err(_) => {
            proc.regs.V[0] = ERR_INVALID;
            proc.regs.V[0xF] = 1;
            return SyscallOutcome::Completed;
        },
    };
    let path_bytes = match proc.read_bytes(&kernel.mem, path_ptr as u32, path_len as usize) {
        Ok(d) => d,
        Err(_) => {
            proc.regs.V[0] = ERR_INVALID;
            proc.regs.V[0xF] = 1;
            return SyscallOutcome::Completed;
        },
    };
    proof {
        assert(path_bytes@ =~= Seq::new(
            path_len as nat,
            |j: int| old(proc).gview(old(kernel).mem)[path_ptr as int + j],
        ));
    }
    let node = match kernel.resolve_fs_path(&path_bytes) {
        ResolvedNode::Malformed => {
            proc.regs.V[0] = ERR_PATH;
            proc.regs.V[0xF] = 1;
            return SyscallOutcome::Completed;
        },
        ResolvedNode::Missing => {
            proc.regs.V[0] = ERR_NOT_FOUND;
            proc.regs.V[0xF] = 1;
            return SyscallOutcome::Completed;
        },
        ResolvedNode::IsRoot => {
            proc.regs.V[0] = ERR_IS_DIR;
            proc.regs.V[0xF] = 1;
            return SyscallOutcome::Completed;
        },
        ResolvedNode::Found(i) => i,
    };
    if kernel.fs.nodes[node].kind == FsKind::Dir {
        proc.regs.V[0] = ERR_IS_DIR;
        proc.regs.V[0xF] = 1;
        return SyscallOutcome::Completed;
    }
    proof {
        // a validated snapshot holds no symlinks, so the node is a file,
        // and distinct paths make it the unique match.
        assert(crate::sandbox::node_wf(kernel.fs.nodes@[node as int]));
        assert(kernel.fs.nodes@[node as int].kind is File);
        assert forall|ni: int|
            0 <= ni < kernel.fs.nodes@.len() && (
            #[trigger] kernel.fs.nodes@[ni].path.deep_view())
                == kernel.fs.nodes@[node as int].path.deep_view() implies ni == node as int by {
            if ni != node as int {
                if ni < node as int {
                    assert(kernel.fs.nodes@[ni].path.deep_view()
                        != kernel.fs.nodes@[node as int].path.deep_view());
                } else {
                    assert(kernel.fs.nodes@[node as int].path.deep_view()
                        != kernel.fs.nodes@[ni].path.deep_view());
                }
            }
        }
    }
    if proc.fds.len() >= MAX_OPEN_FILES {
        proc.regs.V[0] = ERR_TOO_MANY_OPEN;
        proc.regs.V[0xF] = 1;
        return SyscallOutcome::Completed;
    }
    // allocate the next free nonzero descriptor, rotating through one
    // full wrap of the descriptor space; with fewer than the slot limit
    // open, the scan always finds one.
    let start: u8 = proc.next_fd;
    let mut fd: u8 = 1;
    let mut tries: usize = 0;
    let mut found = false;
    while tries < 256 && !found
        invariant
            tries <= 256,
            found ==> fd != 0 && !fd_in_use(proc.fds@, fd),
            !found ==> forall|t: int|
                0 <= t < tries ==> #[trigger] fd_in_use(proc.fds@, fd_candidate(start, t)),
        decreases 256 - tries,
    {
        let candidate = start.wrapping_add(tries as u8);
        let this_fd: u8 = if candidate == 0 {
            1
        } else {
            candidate
        };
        proof {
            assert(this_fd == fd_candidate(start, tries as int));
        }
        if !fd_in_use_check(&proc.fds, this_fd) {
            fd = this_fd;
            found = true;
        }
        tries = tries + 1;
    }
    if !found {
        proof {
            // every nonzero descriptor value was seen taken, which needs
            // more slots than the table can hold.
            assert forall|v: int| 1 <= v <= 255 implies #[trigger] fd_in_use(
                proc.fds@,
                v as u8,
            ) by {
                let vb = v as u8;
                let t = vb.wrapping_sub(start);
                assert(start.wrapping_add(t) == vb) by (bit_vector)
                    requires
                        t == vb.wrapping_sub(start),
                ;
                assert(fd_candidate(start, t as int) == vb);
                assert(fd_in_use(proc.fds@, fd_candidate(start, t as int)));
            }
            lemma_fd_pigeonhole(proc.fds@, 255);
            assert(false);
        }
        proc.regs.V[0] = ERR_TOO_MANY_OPEN;
        proc.regs.V[0xF] = 1;
        return SyscallOutcome::Completed;
    }
    proc.fds.push(OpenFile { fd, node, offset: 0 });
    proc.next_fd = fd.wrapping_add(1);
    proc.regs.V[0] = fd;
    proc.regs.V[0xF] = 0;
    SyscallOutcome::Completed
}

/// `fs_read`: read up to 255 bytes from an open file at its cursor into
/// guest memory, advancing the cursor; the count read is returned in
/// `V[0]`.
pub fn sys_fs_read(kernel: &mut Kernel, pid: u32, proc: &mut Proc) -> (outcome: SyscallOutcome)
    requires
        old(kernel).wf(),
        old(proc).wf(),
        fds_ok(*old(proc), old(kernel).fs),
    ensures
        final(kernel).wf(),
        final(proc).wf(),
        fds_ok(*final(proc), final(kernel).fs),
        final(kernel).mem.bitmap() == old(kernel).mem.bitmap(),
        final(kernel).syscalls == old(kernel).syscalls,
        final(kernel).next_pid == old(kernel).next_pid,
        final(kernel).fs == old(kernel).fs,
        final(kernel).procs@ == old(kernel).procs@,
        final(kernel).input@ == old(kernel).input@,
        final(kernel).host_output@ == old(kernel).host_output@,
        final(kernel).pending_exit@ == old(kernel).pending_exit@,
        final(kernel).pending_block@ == old(kernel).pending_block@,
        final(proc).page_table@ == old(proc).page_table@,
        final(proc).vm_size == old(proc).vm_size,
        crate::chip8_engine::same_display(*old(proc), *final(proc)),
        final(proc).regs.DT == old(proc).regs.DT && final(proc).regs.ST == old(proc).regs.ST
            && final(proc).regs.I == old(proc).regs.I && final(proc).regs.SP == old(
            proc,
        ).regs.SP && final(proc).regs.PC == old(proc).regs.PC,
        forall|a: int|
            0 <= a < PHYS_MEM_SIZE && !old(proc).owns_addr(a)
                ==> final(kernel).mem.phys_mem@[a] == old(kernel).mem.phys_mem@[a],
        ({
            let p0 = *old(proc);
            let k0 = *old(kernel);
            let m = k0.mem;
            if !(arg_ok(p0, m, 0) && arg_ok(p0, m, 1) && arg_ok(p0, m, 2)) {
                &&& syscall_error(p0, *final(proc), ERR_INVALID)
                &&& final(proc).fds@ == p0.fds@
                &&& final(kernel).mem.phys_mem@ == m.phys_mem@
            } else {
                let fd = (arg_val(p0, m, 0) % 256) as u8;
                let buf = arg_val(p0, m, 1);
                let len = arg_val(p0, m, 2);
                match find_fd(p0.fds@, fd) {
                    None => {
                        &&& syscall_error(p0, *final(proc), ERR_NOT_FOUND)
                        &&& final(proc).fds@ == p0.fds@
                        &&& final(kernel).mem.phys_mem@ == m.phys_mem@
                    },
                    Some(k) => {
                        let of = p0.fds@[k];
                        let file = k0.fs.nodes@[of.node as int].data@;
                        let max_len = if len as int <= 255 {
                            len as int
                        } else {
                            255
                        };
                        let avail = if of.offset as int >= file.len() {
                            0
                        } else if file.len() - of.offset as int <= max_len {
                            file.len() - of.offset as int
                        } else {
                            max_len
                        };
                        &&& final(proc).fds@ == p0.fds@.update(
                            k,
                            OpenFile {
                                fd: of.fd,
                                node: of.node,
                                offset: (of.offset + avail) as u32,
                            },
                        )
                        &&& if avail == 0 || buf as int + avail <= p0.vm_size as int {
                            &&& forall|w: int|
                                0 <= w < p0.vm_size ==> p0.gview(final(kernel).mem)[w] == (
                                if buf as int <= w < buf as int + avail {
                                    file[of.offset as int + (w - buf as int)]
                                } else {
                                    p0.gview(m)[w]
                                })
                            &&& final(proc).regs.V@ == p0.regs.V@.update(0, avail as u8).update(
                                15,
                                0u8,
                            )
                        } else {
                            final(proc).regs.V@ == p0.regs.V@.update(0, ERR_INVALID).update(
                                15,
                                1u8,
                            )
                        }
                    },
                }
            }
        }),
        outcome == SyscallOutcome::Completed,
{
    let fd_arg = match syscall_arg(proc, &kernel.mem, 0) {
        Ok(v) => v,
        Err(_) => {
            proc.regs.V[0] = ERR_INVALID;
            proc.regs.V[0xF] = 1;
            return SyscallOutcome::Completed;
        },
    };
    let buf = match syscall_arg(proc, &kernel.mem, 1) {
        Ok(v) => v,
        Err(_) => {
            proc.regs.V[0] = ERR_INVALID;
            proc.regs.V[0xF] = 1;
            return SyscallOutcome::Completed;
        },
    };
    let len = match syscall_arg(proc, &kernel.mem, 2) {
        Ok(v) => v,
        Err(_) => {
            proc.regs.V[0] = ERR_INVALID;
            proc.regs.V[0xF] = 1;
            return SyscallOutcome::Completed;
        },
    };
    let fd = (fd_arg % 256) as u8;
    let k = match find_fd_index(&proc.fds, fd) {
        Some(k) => k,
        None => {
            proc.regs.V[0] = ERR_NOT_FOUND;
            proc.regs.V[0xF] = 1;
            return SyscallOutcome::Completed;
        },
    };
    let of = proc.fds[k];
    let max_len: usize = if (len as usize) <= 255 {
        len as usize
    } else {
        255
    };
    let file_len = kernel.fs.nodes[of.node].data.len();
    let offset = of.offset as usize;
    proof {
        assert(kernel.fs.nodes@[of.node as int].data@.len() <= crate::sandbox::MAX_FILE_SIZE);
    }
    let avail: usize = if offset >= file_len {
        0
    } else if file_len - offset <= max_len {
        file_len - offset
    } else {
        max_len
    };
    let mut data: Vec<u8> = Vec::new();
    let mut b: usize = 0;
    while b < avail
        invariant
            b <= avail,
            of == old(proc).fds@[k as int],
            k < old(proc).fds@.len(),
            offset == of.offset as int,
            avail == 0 || avail + offset <= kernel.fs.nodes@[of.node as int].data@.len(),
            kernel.fs.nodes@[of.node as int].data@.len() <= crate::sandbox::MAX_FILE_SIZE,
            of.node < kernel.fs.nodes@.len(),
            kernel.fs == old(kernel).fs,
            data@.len() == b,
            forall|j: int|
                0 <= j < b ==> data@[j] == kernel.fs.nodes@[of.node as int].data@[offset + j],
        decreases avail - b,
    {
        data.push(kernel.fs.nodes[of.node].data[offset + b]);
        b = b + 1;
    }
    let new_offset = (of.offset + avail as u32) as u32;
    proc.fds.set(k, OpenFile { fd: of.fd, node: of.node, offset: new_offset });
    let ghost pmid = *proc;
    let ghost m0 = kernel.mem;
    let r = proc.write_bytes(&mut kernel.mem, buf as u32, data.as_slice());
    proof {
        lemma_procs_ok_mem_bytes(kernel.procs@, m0, kernel.mem, kernel.fs);
        pmid.lemma_gview_eq(*old(proc), kernel.mem);
        pmid.lemma_gview_eq(*old(proc), m0);
        old(proc).lemma_same_mapping(pmid);
    }
    if r.is_err() {
        proc.regs.V[0] = ERR_INVALID;
        proc.regs.V[0xF] = 1;
        return SyscallOutcome::Completed;
    }
    proc.regs.V[0] = avail as u8;
    proc.regs.V[0xF] = 0;
    SyscallOutcome::Completed
}

/// `fs_close`: remove a descriptor; unknown descriptors are an error.
pub fn sys_fs_close(kernel: &mut Kernel, pid: u32, proc: &mut Proc) -> (outcome: SyscallOutcome)
    requires
        old(kernel).wf(),
        old(proc).wf(),
        fds_ok(*old(proc), old(kernel).fs),
    ensures
        final(kernel).wf(),
        final(proc).wf(),
        kernel_unchanged(*old(kernel), *final(kernel)),
        fds_ok(*final(proc), final(kernel).fs),
        final(proc).page_table@ == old(proc).page_table@,
        final(proc).vm_size == old(proc).vm_size,
        crate::chip8_engine::same_display(*old(proc), *final(proc)),
        final(proc).console_input@ == old(proc).console_input@,
        final(proc).regs.DT == old(proc).regs.DT && final(proc).regs.ST == old(proc).regs.ST
            && final(proc).regs.I == old(proc).regs.I && final(proc).regs.SP == old(
            proc,
        ).regs.SP && final(proc).regs.PC == old(proc).regs.PC,
        ({
            let p0 = *old(proc);
            let m = old(kernel).mem;
            if !arg_ok(p0, m, 0) {
                &&& syscall_error(p0, *final(proc), ERR_INVALID)
                &&& final(proc).fds@ == p0.fds@
            } else {
                let fd = (arg_val(p0, m, 0) % 256) as u8;
                match find_fd(p0.fds@, fd) {
                    None => {
                        &&& syscall_error(p0, *final(proc), ERR_NOT_FOUND)
                        &&& final(proc).fds@ == p0.fds@
                    },
                    Some(k) => {
                        &&& final(proc).fds@ == p0.fds@.remove(k)
                        &&& final(proc).regs.V@ == p0.regs.V@.update(15, 0u8)
                    },
                }
            }
        }),
        outcome == SyscallOutcome::Completed,
{
    let fd_arg = match syscall_arg(proc, &kernel.mem, 0) {
        Ok(v) => v,
        Err(_) => {
            proc.regs.V[0] = ERR_INVALID;
            proc.regs.V[0xF] = 1;
            return SyscallOutcome::Completed;
        },
    };
    let fd = (fd_arg % 256) as u8;
    let k = match find_fd_index(&proc.fds, fd) {
        Some(k) => k,
        None => {
            proc.regs.V[0] = ERR_NOT_FOUND;
            proc.regs.V[0xF] = 1;
            return SyscallOutcome::Completed;
        },
    };
    proc.fds.remove(k);
    proc.regs.V[0xF] = 0;
    SyscallOutcome::Completed
}


/// Whether an entry is blocked on a read in the given input mode, with
/// its console routed the given way.
pub open spec fn blocked_reader(e: ProcEntry, mode: InputMode, cm: ConsoleMode) -> bool {
    &&& e.state == ProcState::Blocked
    &&& e.proc.console_mode == cm
    &&& match e.waiting_for {
        Some(WaitTarget::Read { buf, len, mode: m }) => m == mode,
        _ => false,
    }
}

/// The buffer and length of an entry's pending read.
pub open spec fn reader_buf(e: ProcEntry) -> u16 {
    match e.waiting_for {
        Some(WaitTarget::Read { buf, len, mode }) => buf,
        _ => 0,
    }
}

pub open spec fn reader_len(e: ProcEntry) -> u16 {
    match e.waiting_for {
        Some(WaitTarget::Read { buf, len, mode }) => len,
        _ => 0,
    }
}



/// Two entries agree except the console queue, which holds `q`.
pub open spec fn entry_same_but_console(e0: ProcEntry, e1: ProcEntry, q: Seq<u8>) -> bool {
    &&& e1.pid == e0.pid
    &&& e1.state == e0.state
    &&& e1.exit_code == e0.exit_code
    &&& e1.waiting_for == e0.waiting_for
    &&& e1.proc.console_input@ == q
    &&& e1.proc.page_table@ == e0.proc.page_table@
    &&& e1.proc.vm_size == e0.proc.vm_size
    &&& e1.proc.regs == e0.proc.regs
    &&& e1.proc.input_mode == e0.proc.input_mode
    &&& e1.proc.console_mode == e0.proc.console_mode
    &&& e1.proc.fds@ == e0.proc.fds@
    &&& e1.proc.next_fd == e0.proc.next_fd
    &&& e1.proc.display.buf@ == e0.proc.display.buf@
    &&& e1.proc.display.key_down@ == e0.proc.display.key_down@
    &&& e1.proc.display.typed@ == e0.proc.display.typed@
    &&& e1.proc.display.text_out@ == e0.proc.display.text_out@
    &&& e1.proc.display.mode == e0.proc.display.mode
}

/// The input mode a blocked read is waiting in.
pub open spec fn reader_mode(e: ProcEntry) -> InputMode {
    match e.waiting_for {
        Some(WaitTarget::Read { buf, len, mode }) => mode,
        _ => InputMode::Line,
    }
}

/// Whether a queue can satisfy a read in the given mode.
pub open spec fn wake_ready(q: Seq<u8>, mode: InputMode) -> bool {
    if mode == InputMode::Line {
        first_nl(q) is Some
    } else {
        q.len() > 0
    }
}

/// How many bytes a wake delivery takes from the queue's front: up to and
/// including the newline in line mode, whatever is there in byte mode,
/// both capped by the requested length.
pub open spec fn wake_count(q: Seq<u8>, len: u16, mode: InputMode) -> int {
    if mode == InputMode::Line {
        match first_nl(q) {
            Some(nl) => if len as int <= nl + 1 {
                len as int
            } else {
                nl + 1
            },
            None => 0,
        }
    } else {
        if len as int <= q.len() {
            len as int
        } else {
            q.len() as int
        }
    }
}

/// A blocked reader served by a wake delivery from queue `q`: woken, and
/// its buffer, count register and flag set exactly as `delivered` says.
pub open spec fn reader_served(
    e0: ProcEntry,
    e1: ProcEntry,
    m0: SharedMemory,
    m1: SharedMemory,
    q: Seq<u8>,
) -> bool {
    &&& woken_by_read(e0, e1)
    &&& delivered(
        e0.proc,
        e1.proc,
        m0,
        m1,
        q,
        reader_buf(e0),
        wake_count(q, reader_len(e0), reader_mode(e0)),
    )
}

/// The host queue left after the wake pass has worked through the first
/// `n` entries in table order, each satisfiable reader consuming its
/// prefix.
pub open spec fn host_queue_after(
    s: Seq<ProcEntry>,
    q0: Seq<u8>,
    mode: InputMode,
    n: int,
) -> Seq<u8>
    decreases n,
{
    if n <= 0 {
        q0
    } else {
        let q = host_queue_after(s, q0, mode, n - 1);
        if blocked_reader(s[n - 1], mode, ConsoleMode::Host) && wake_ready(q, mode) {
            q.skip(wake_count(q, reader_len(s[n - 1]), mode))
        } else {
            q
        }
    }
}

/// The whole effect of one reader wake round on a table, a host queue and
/// the arena: display-console readers are served from their own queues,
/// then host readers from the shared queue in table order, line mode
/// first; everything else is untouched.
pub open spec fn readers_unblocked(
    s0: Seq<ProcEntry>,
    q0: Seq<u8>,
    m0: SharedMemory,
    s1: Seq<ProcEntry>,
    q1: Seq<u8>,
    m1: SharedMemory,
) -> bool {
    let n = s0.len() as int;
    let q_line = host_queue_after(s0, q0, InputMode::Line, n);
    &&& s1.len() == s0.len()
    &&& q1 == host_queue_after(s0, q_line, InputMode::Byte, n)
    &&& forall|i: int|
        0 <= i < n ==> ({
            let e0 = #[trigger] s0[i];
            let e1 = s1[i];
            if blocked_reader(e0, InputMode::Line, ConsoleMode::Display) {
                let q = e0.proc.console_input@;
                if wake_ready(q, InputMode::Line) {
                    reader_served(e0, e1, m0, m1, q) && e1.proc.console_input@ == q.skip(
                        wake_count(q, reader_len(e0), InputMode::Line),
                    )
                } else {
                    e1 == e0
                }
            } else if blocked_reader(e0, InputMode::Byte, ConsoleMode::Display) {
                let q = e0.proc.console_input@;
                if wake_ready(q, InputMode::Byte) {
                    reader_served(e0, e1, m0, m1, q) && e1.proc.console_input@ == q.skip(
                        wake_count(q, reader_len(e0), InputMode::Byte),
                    )
                } else {
                    e1 == e0
                }
            } else if blocked_reader(e0, InputMode::Line, ConsoleMode::Host) {
                let qi = host_queue_after(s0, q0, InputMode::Line, i);
                if wake_ready(qi, InputMode::Line) {
                    reader_served(e0, e1, m0, m1, qi) && e1.proc.console_input@
                        == e0.proc.console_input@
                } else {
                    e1 == e0
                }
            } else if blocked_reader(e0, InputMode::Byte, ConsoleMode::Host) {
                let qi = host_queue_after(s0, q_line, InputMode::Byte, i);
                if wake_ready(qi, InputMode::Byte) {
                    reader_served(e0, e1, m0, m1, qi) && e1.proc.console_input@
                        == e0.proc.console_input@
                } else {
                    e1 == e0
                }
            } else {
                e1 == e0
            }
        })
}

/// Physical addresses inside one process's pages are outside another's
/// when their page tables are disjoint.
pub proof fn lemma_owns_disjoint(p: Proc, r: Proc, a: int)
    requires
        p.wf(),
        r.wf(),
        tables_disjoint(p, r),
        p.owns_addr(a),
    ensures
        !r.owns_addr(a),
{
    let ps = PAGE_SIZE as int;
    let ip = choose|ip: int|
        0 <= ip < p.page_table@.len() && (#[trigger] p.page_table@[ip]) <= a < p.page_table@[ip]
            + PAGE_SIZE;
    if r.owns_addr(a) {
        let ir = choose|ir: int|
            0 <= ir < r.page_table@.len() && (#[trigger] r.page_table@[ir]) <= a
                < r.page_table@[ir] + PAGE_SIZE;
        let b1 = p.page_table@[ip] as int;
        let b2 = r.page_table@[ir] as int;
        assert(b1 != b2);
        assert(b1 % ps == 0 && b2 % ps == 0);
        assert(b1 != b2 && b1 % ps == 0 && b2 % ps == 0 ==> (b1 - b2 >= ps || b2 - b1 >= ps))
            by (nonlinear_arith)
            requires
                ps == 0x1000,
                0 <= b1,
                0 <= b2,
        ;
    }
}

/// A delivery relation survives arena changes outside the reader's pages.
pub proof fn lemma_delivered_frame(
    p0: Proc,
    p1: Proc,
    m0a: SharedMemory,
    m1a: SharedMemory,
    m0b: SharedMemory,
    m1b: SharedMemory,
    q: Seq<u8>,
    buf: u16,
    cnt: int,
)
    requires
        p0.wf(),
        m0a.wf(),
        m1a.wf(),
        m0b.wf(),
        m1b.wf(),
        delivered(p0, p1, m0a, m1a, q, buf, cnt),
        forall|a: int|
            0 <= a < PHYS_MEM_SIZE && p0.owns_addr(a) ==> m0b.phys_mem@[a] == m0a.phys_mem@[a],
        forall|a: int|
            0 <= a < PHYS_MEM_SIZE && p0.owns_addr(a) ==> m1b.phys_mem@[a] == m1a.phys_mem@[a],
    ensures
        delivered(p0, p1, m0b, m1b, q, buf, cnt),
{
    p0.lemma_gview_frame(m0a, m0b);
    p0.lemma_gview_frame(m1a, m1b);
}

/// The host-queue fold depends only on the host readers, so two tables
/// that agree on them fold alike.
pub proof fn lemma_host_queue_congruent(
    s: Seq<ProcEntry>,
    s2: Seq<ProcEntry>,
    q0: Seq<u8>,
    mode: InputMode,
    n: int,
)
    requires
        s2.len() == s.len(),
        0 <= n <= s.len(),
        forall|j: int|
            0 <= j < s.len() ==> (#[trigger] s2[j] == s[j] || (!blocked_reader(
                s[j],
                mode,
                ConsoleMode::Host,
            ) && !blocked_reader(s2[j], mode, ConsoleMode::Host))),
    ensures
        host_queue_after(s2, q0, mode, n) == host_queue_after(s, q0, mode, n),
    decreases n,
{
    if n > 0 {
        lemma_host_queue_congruent(s, s2, q0, mode, n - 1);
    }
}

/// An entry woken by a read delivery: running, no target, same process
/// identity and address space; its result registers report either a
/// delivery of at most the requested length with a clear flag, or the
/// invalid-buffer error.
pub open spec fn woken_by_read(e0: ProcEntry, e1: ProcEntry) -> bool {
    &&& e1.pid == e0.pid
    &&& e1.state == ProcState::Running
    &&& e1.waiting_for is None
    &&& e1.exit_code == e0.exit_code
    &&& e1.proc.page_table@ == e0.proc.page_table@
    &&& e1.proc.vm_size == e0.proc.vm_size
    &&& e1.proc.input_mode == e0.proc.input_mode
    &&& e1.proc.console_mode == e0.proc.console_mode
    &&& e1.proc.fds@ == e0.proc.fds@
    &&& e1.proc.next_fd == e0.proc.next_fd
    &&& ((exists|cnt: u8|
        cnt as int <= reader_len(e0) && e1.proc.regs.V@ == #[trigger] e0.proc.regs.V@.update(
            0,
            cnt,
        ).update(15, 0u8)) || e1.proc.regs.V@ == e0.proc.regs.V@.update(0, ERR_INVALID).update(
        15,
        1u8,
    ))
}

impl Kernel {
    /// Wake blocked readers that can now be satisfied: display-console
    /// readers from their own per-process queues, then host readers from
    /// the shared host input queue, line-mode readers first. A line read
    /// is satisfied only when a newline is queued; a byte read by any
    /// queued byte. Exactly the delivered bytes are consumed.
    #[verifier::rlimit(60)]
    pub fn unblock_readers(&mut self)
        requires
            old(self).wf(),
        ensures
            final(self).wf(),
            final(self).procs@.len() == old(self).procs@.len(),
            final(self).mem.bitmap() == old(self).mem.bitmap(),
            final(self).syscalls == old(self).syscalls,
            final(self).next_pid == old(self).next_pid,
            final(self).fs == old(self).fs,
            final(self).host_output@ == old(self).host_output@,
            final(self).pending_exit@ == old(self).pending_exit@,
            final(self).pending_block@ == old(self).pending_block@,
            // every entry is untouched unless it was a blocked reader, in
            // which case it may have been woken by a delivery.
            forall|i: int|
                0 <= i < old(self).procs@.len() ==> (final(self).procs@[i] == old(self).procs@[i]
                    || ((#[trigger] old(self).procs@[i]).state == ProcState::Blocked
                    && (old(self).procs@[i].waiting_for matches Some(WaitTarget::Read { .. }))
                    && woken_by_read(old(self).procs@[i], final(self).procs@[i]))),
            // a host line reader still blocked means no full line is queued.
            (exists|i: int|
                blocked_reader(
                    #[trigger] final(self).procs@[i],
                    InputMode::Line,
                    ConsoleMode::Host,
                ) && 0 <= i < final(self).procs@.len()) ==> first_nl(final(self).input@) is None,
            // a host byte reader still blocked means nothing is queued.
            (exists|i: int|
                blocked_reader(
                    #[trigger] final(self).procs@[i],
                    InputMode::Byte,
                    ConsoleMode::Host,
                ) && 0 <= i < final(self).procs@.len()) ==> final(self).input@.len() == 0,
            // a display console reader still blocked means its own queue
            // cannot satisfy it.
            forall|i: int|
                0 <= i < final(self).procs@.len() && blocked_reader(
                    #[trigger] final(self).procs@[i],
                    InputMode::Line,
                    ConsoleMode::Display,
                ) ==> first_nl(final(self).procs@[i].proc.console_input@) is None,
            forall|i: int|
                0 <= i < final(self).procs@.len() && blocked_reader(
                    #[trigger] final(self).procs@[i],
                    InputMode::Byte,
                    ConsoleMode::Display,
                ) ==> final(self).procs@[i].proc.console_input@.len() == 0,
            // and in full: each satisfiable blocked reader is served with
            // exactly the delivery spec section 4.5 fixes.
            readers_unblocked(
                old(self).procs@,
                old(self).input@,
                old(self).mem,
                final(self).procs@,
                final(self).input@,
                final(self).mem,
            ),
    {
        let ghost s0 = self.procs@;
        let ghost q0 = self.input@;
        let ghost m0 = self.mem;
        self.wake_console_readers(InputMode::Line);
        let ghost s1 = self.procs@;
        let ghost ma = self.mem;
        self.wake_console_readers(InputMode::Byte);
        let ghost s2 = self.procs@;
        let ghost q2 = self.input@;
        let ghost mb = self.mem;
        self.wake_host_readers(InputMode::Line);
        let ghost s3 = self.procs@;
        let ghost q3 = self.input@;
        let ghost mc = self.mem;
        self.wake_host_readers(InputMode::Byte);
        let ghost s4 = self.procs@;
        let ghost q4 = self.input@;
        let ghost md = self.mem;
        proof {
            // chain the four per-entry relations: each entry is changed by
            // at most one pass, and a woken entry stays as it is.
            assert forall|i: int| 0 <= i < s0.len() implies (s4[i] == s0[i] || (s0[i].state
                == ProcState::Blocked && (s0[i].waiting_for matches Some(
                WaitTarget::Read { .. },
            )) && woken_by_read(s0[i], #[trigger] s4[i]))) by {
                assert(s1[i] == s0[i] || woken_by_read(s0[i], s1[i]));
                assert(s2[i] == s1[i] || woken_by_read(s1[i], s2[i]));
                assert(s3[i] == s2[i] || woken_by_read(s2[i], s3[i]));
                assert(s4[i] == s3[i] || woken_by_read(s3[i], s4[i]));
            }
            // a display-mode reader that is still blocked kept its queue
            // and saw it unsatisfiable in its own pass.
            assert forall|i: int|
                0 <= i < s4.len() && blocked_reader(
                    #[trigger] s4[i],
                    InputMode::Line,
                    ConsoleMode::Display,
                ) implies first_nl(s4[i].proc.console_input@) is None by {
                assert(s4[i] == s3[i]);
                assert(s3[i] == s2[i]);
                assert(s2[i] == s1[i]);
                assert(blocked_reader(s0[i], InputMode::Line, ConsoleMode::Display) && s1[i]
                    == s0[i]);
            }
            assert forall|i: int|
                0 <= i < s4.len() && blocked_reader(
                    #[trigger] s4[i],
                    InputMode::Byte,
                    ConsoleMode::Display,
                ) implies s4[i].proc.console_input@.len() == 0 by {
                assert(s4[i] == s3[i]);
                assert(s3[i] == s2[i]);
                assert(blocked_reader(s1[i], InputMode::Byte, ConsoleMode::Display) && s2[i]
                    == s1[i]);
            }
            // a host line reader still blocked saw no full line, and the
            // byte pass only dropped a prefix of the queue.
            if exists|i: int|
                blocked_reader(#[trigger] s4[i], InputMode::Line, ConsoleMode::Host) && 0 <= i
                    < s4.len() {
                let i = choose|i: int|
                    blocked_reader(#[trigger] s4[i], InputMode::Line, ConsoleMode::Host) && 0 <= i
                        < s4.len();
                assert(s4[i] == s3[i]);
                assert(first_nl(q3) is None);
                let c = choose|c: int| 0 <= c <= q3.len() && q4 == q3.skip(c);
                lemma_no_nl_skip(q3, c);
            }
            // each pass leaves every entry's address space mapping alone.
            assert forall|j: int| 0 <= j < s0.len() implies (#[trigger] s1[j]).proc.page_table@
                == s0[j].proc.page_table@ && s2[j].proc.page_table@ == s0[j].proc.page_table@
                && s3[j].proc.page_table@ == s0[j].proc.page_table@ && s4[j].proc.page_table@
                == s0[j].proc.page_table@ by {}
            let n = s0.len() as int;
            // the host folds over the original table equal those the two
            // host passes computed over their own tables.
            assert forall|j: int| 0 <= j < n implies (#[trigger] s2[j] == s0[j] || (
            !blocked_reader(s0[j], InputMode::Line, ConsoleMode::Host) && !blocked_reader(
                s2[j],
                InputMode::Line,
                ConsoleMode::Host,
            ))) by {}
            lemma_host_queue_congruent(s0, s2, q0, InputMode::Line, n);
            let q_line = host_queue_after(s0, q0, InputMode::Line, n);
            assert(q3 == q_line);
            assert forall|j: int| 0 <= j < n implies (#[trigger] s3[j] == s0[j] || (
            !blocked_reader(s0[j], InputMode::Byte, ConsoleMode::Host) && !blocked_reader(
                s3[j],
                InputMode::Byte,
                ConsoleMode::Host,
            ))) by {}
            lemma_host_queue_congruent(s0, s3, q_line, InputMode::Byte, n);
            assert(q4 == host_queue_after(s0, q_line, InputMode::Byte, n));
            // per-entry: the pass that owns the entry's class served it
            // (or could not), and the other passes' writes stayed in other
            // processes' pages, so its delivery stands at the round's
            // boundary states.
            assert forall|i: int| 0 <= i < n implies ({
                let e0 = #[trigger] s0[i];
                let e1 = s4[i];
                if blocked_reader(e0, InputMode::Line, ConsoleMode::Display) {
                    let q = e0.proc.console_input@;
                    if wake_ready(q, InputMode::Line) {
                        reader_served(e0, e1, m0, md, q) && e1.proc.console_input@ == q.skip(
                            wake_count(q, reader_len(e0), InputMode::Line),
                        )
                    } else {
                        e1 == e0
                    }
                } else if blocked_reader(e0, InputMode::Byte, ConsoleMode::Display) {
                    let q = e0.proc.console_input@;
                    if wake_ready(q, InputMode::Byte) {
                        reader_served(e0, e1, m0, md, q) && e1.proc.console_input@ == q.skip(
                            wake_count(q, reader_len(e0), InputMode::Byte),
                        )
                    } else {
                        e1 == e0
                    }
                } else if blocked_reader(e0, InputMode::Line, ConsoleMode::Host) {
                    let qi = host_queue_after(s0, q0, InputMode::Line, i);
                    if wake_ready(qi, InputMode::Line) {
                        reader_served(e0, e1, m0, md, qi) && e1.proc.console_input@
                            == e0.proc.console_input@
                    } else {
                        e1 == e0
                    }
                } else if blocked_reader(e0, InputMode::Byte, ConsoleMode::Host) {
                    let qi = host_queue_after(s0, q_line, InputMode::Byte, i);
                    if wake_ready(qi, InputMode::Byte) {
                        reader_served(e0, e1, m0, md, qi) && e1.proc.console_input@
                            == e0.proc.console_input@
                    } else {
                        e1 == e0
                    }
                } else {
                    e1 == e0
                }
            }) by {
                let e0 = s0[i];
                // arena changes of a pass stay outside this entry's pages
                // whenever the pass serves a different class.
                assert forall|a: int|
                    0 <= a < PHYS_MEM_SIZE && e0.proc.owns_addr(a) && !blocked_reader(
                        e0,
                        InputMode::Line,
                        ConsoleMode::Display,
                    ) implies ma.phys_mem@[a] == m0.phys_mem@[a] by {
                    if ma.phys_mem@[a] != m0.phys_mem@[a] {
                        let j = choose|j: int|
                            0 <= j < n && blocked_reader(
                                #[trigger] s0[j],
                                InputMode::Line,
                                ConsoleMode::Display,
                            ) && s0[j].proc.owns_addr(a);
                        assert(j != i);
                        if j < i {
                            lemma_owns_disjoint(s0[j].proc, e0.proc, a);
                        } else {
                            lemma_disjoint_symmetric_pub(e0.proc, s0[j].proc);
                            lemma_owns_disjoint(s0[j].proc, e0.proc, a);
                        }
                    }
                }
                assert forall|a: int|
                    0 <= a < PHYS_MEM_SIZE && e0.proc.owns_addr(a) && !blocked_reader(
                        e0,
                        InputMode::Byte,
                        ConsoleMode::Display,
                    ) implies mb.phys_mem@[a] == ma.phys_mem@[a] by {
                    if mb.phys_mem@[a] != ma.phys_mem@[a] {
                        let j = choose|j: int|
                            0 <= j < n && blocked_reader(
                                #[trigger] s1[j],
                                InputMode::Byte,
                                ConsoleMode::Display,
                            ) && s1[j].proc.owns_addr(a);
                        s1[j].proc.lemma_same_mapping(s0[j].proc);
                        assert(blocked_reader(s0[j], InputMode::Byte, ConsoleMode::Display));
                        assert(j != i);
                        if j < i {
                            lemma_owns_disjoint(s0[j].proc, e0.proc, a);
                        } else {
                            lemma_disjoint_symmetric_pub(e0.proc, s0[j].proc);
                            lemma_owns_disjoint(s0[j].proc, e0.proc, a);
                        }
                    }
                }
                assert forall|a: int|
                    0 <= a < PHYS_MEM_SIZE && e0.proc.owns_addr(a) && !blocked_reader(
                        e0,
                        InputMode::Line,
                        ConsoleMode::Host,
                    ) implies mc.phys_mem@[a] == mb.phys_mem@[a] by {
                    if mc.phys_mem@[a] != mb.phys_mem@[a] {
                        let j = choose|j: int|
                            0 <= j < n && blocked_reader(
                                #[trigger] s2[j],
                                InputMode::Line,
                                ConsoleMode::Host,
                            ) && s2[j].proc.owns_addr(a);
                        s2[j].proc.lemma_same_mapping(s0[j].proc);
                        assert(blocked_reader(s0[j], InputMode::Line, ConsoleMode::Host));
                        assert(j != i);
                        if j < i {
                            lemma_owns_disjoint(s0[j].proc, e0.proc, a);
                        } else {
                            lemma_disjoint_symmetric_pub(e0.proc, s0[j].proc);
                            lemma_owns_disjoint(s0[j].proc, e0.proc, a);
                        }
                    }
                }
                assert forall|a: int|
                    0 <= a < PHYS_MEM_SIZE && e0.proc.owns_addr(a) && !blocked_reader(
                        e0,
                        InputMode::Byte,
                        ConsoleMode::Host,
                    ) implies md.phys_mem@[a] == mc.phys_mem@[a] by {
                    if md.phys_mem@[a] != mc.phys_mem@[a] {
                        let j = choose|j: int|
                            0 <= j < n && blocked_reader(
                                #[trigger] s3[j],
                                InputMode::Byte,
                                ConsoleMode::Host,
                            ) && s3[j].proc.owns_addr(a);
                        s3[j].proc.lemma_same_mapping(s0[j].proc);
                        assert(blocked_reader(s0[j], InputMode::Byte, ConsoleMode::Host));
                        assert(j != i);
                        if j < i {
                            lemma_owns_disjoint(s0[j].proc, e0.proc, a);
                        } else {
                            lemma_disjoint_symmetric_pub(e0.proc, s0[j].proc);
                            lemma_owns_disjoint(s0[j].proc, e0.proc, a);
                        }
                    }
                }
                if blocked_reader(e0, InputMode::Line, ConsoleMode::Display) {
                    let q = e0.proc.console_input@;
                    if wake_ready(q, InputMode::Line) {
                        assert(reader_served(e0, s1[i], m0, ma, q));
                        assert(s4[i] == s1[i]);
                        lemma_delivered_frame(
                            e0.proc,
                            s1[i].proc,
                            m0,
                            ma,
                            m0,
                            md,
                            q,
                            reader_buf(e0),
                            wake_count(q, reader_len(e0), reader_mode(e0)),
                        );
                    }
                } else if blocked_reader(e0, InputMode::Byte, ConsoleMode::Display) {
                    assert(s1[i] == e0);
                    let q = e0.proc.console_input@;
                    if wake_ready(q, InputMode::Byte) {
                        assert(reader_served(s1[i], s2[i], ma, mb, q));
                        assert(s4[i] == s2[i]);
                        lemma_delivered_frame(
                            e0.proc,
                            s2[i].proc,
                            ma,
                            mb,
                            m0,
                            md,
                            q,
                            reader_buf(e0),
                            wake_count(q, reader_len(e0), reader_mode(e0)),
                        );
                    }
                } else if blocked_reader(e0, InputMode::Line, ConsoleMode::Host) {
                    assert(s2[i] == e0);
                    lemma_host_queue_congruent(s0, s2, q0, InputMode::Line, i);
                    let qi = host_queue_after(s0, q0, InputMode::Line, i);
                    if wake_ready(qi, InputMode::Line) {
                        assert(reader_served(s2[i], s3[i], mb, mc, qi));
                        assert(s4[i] == s3[i]);
                        lemma_delivered_frame(
                            e0.proc,
                            s3[i].proc,
                            mb,
                            mc,
                            m0,
                            md,
                            qi,
                            reader_buf(e0),
                            wake_count(qi, reader_len(e0), reader_mode(e0)),
                        );
                    }
                } else if blocked_reader(e0, InputMode::Byte, ConsoleMode::Host) {
                    assert(s3[i] == e0);
                    lemma_host_queue_congruent(s0, s3, q_line, InputMode::Byte, i);
                    let qi = host_queue_after(s0, q_line, InputMode::Byte, i);
                    if wake_ready(qi, InputMode::Byte) {
                        assert(reader_served(s3[i], s4[i], mc, md, qi));
                        lemma_delivered_frame(
                            e0.proc,
                            s4[i].proc,
                            mc,
                            md,
                            m0,
                            md,
                            qi,
                            reader_buf(e0),
                            wake_count(qi, reader_len(e0), reader_mode(e0)),
                        );
                    }
                }
            }
        }
    }
}


impl Kernel {
    /// Wake display-console readers of one input mode from their own
    /// per-process queues.
    fn wake_console_readers(&mut self, mode: InputMode)
        requires
            old(self).wf(),
        ensures
            final(self).wf(),
            final(self).procs@.len() == old(self).procs@.len(),
            final(self).mem.bitmap() == old(self).mem.bitmap(),
            final(self).syscalls == old(self).syscalls,
            final(self).next_pid == old(self).next_pid,
            final(self).fs == old(self).fs,
            final(self).input@ == old(self).input@,
            final(self).host_output@ == old(self).host_output@,
            final(self).pending_exit@ == old(self).pending_exit@,
            final(self).pending_block@ == old(self).pending_block@,
            forall|i: int|
                0 <= i < old(self).procs@.len() ==> ({
                    let e0 = #[trigger] old(self).procs@[i];
                    let e1 = final(self).procs@[i];
                    if blocked_reader(e0, mode, ConsoleMode::Display) {
                        let q = e0.proc.console_input@;
                        if wake_ready(q, mode) {
                            reader_served(e0, e1, old(self).mem, final(self).mem, q)
                                && e1.proc.console_input@ == q.skip(
                                wake_count(q, reader_len(e0), mode),
                            )
                        } else {
                            e1 == e0
                        }
                    } else {
                        e1 == e0
                    }
                }),
            forall|a: int|
                0 <= a < PHYS_MEM_SIZE && final(self).mem.phys_mem@[a] != old(
                    self,
                ).mem.phys_mem@[a] ==> exists|j: int|
                    0 <= j < old(self).procs@.len() && blocked_reader(
                        #[trigger] old(self).procs@[j],
                        mode,
                        ConsoleMode::Display,
                    ) && old(self).procs@[j].proc.owns_addr(a),
    {
        let n = self.procs.len();
        let mut i: usize = 0;
        while i < n
            invariant
                self.wf(),
                old(self).wf(),
                n == self.procs@.len(),
                self.procs@.len() == old(self).procs@.len(),
                i <= n,
                self.mem.bitmap() == old(self).mem.bitmap(),
                self.syscalls == old(self).syscalls,
                self.next_pid == old(self).next_pid,
                self.fs == old(self).fs,
                self.input@ == old(self).input@,
                self.host_output@ == old(self).host_output@,
                self.pending_exit@ == old(self).pending_exit@,
                self.pending_block@ == old(self).pending_block@,
                forall|k: int|
                    0 <= k < i ==> ({
                        let e0 = #[trigger] old(self).procs@[k];
                        let e1 = self.procs@[k];
                        if blocked_reader(e0, mode, ConsoleMode::Display) {
                            let q = e0.proc.console_input@;
                            if wake_ready(q, mode) {
                                reader_served(e0, e1, old(self).mem, self.mem, q)
                                    && e1.proc.console_input@ == q.skip(
                                    wake_count(q, reader_len(e0), mode),
                                )
                            } else {
                                e1 == e0
                            }
                        } else {
                            e1 == e0
                        }
                    }),
                forall|k: int|
                    i <= k < self.procs@.len() ==> self.procs@[k] == old(self).procs@[k],
                forall|a: int|
                    0 <= a < PHYS_MEM_SIZE && self.mem.phys_mem@[a] != old(
                        self,
                    ).mem.phys_mem@[a] ==> exists|j: int|
                        0 <= j < i && blocked_reader(
                            #[trigger] old(self).procs@[j],
                            mode,
                            ConsoleMode::Display,
                        ) && old(self).procs@[j].proc.owns_addr(a),
            decreases n - i,
        {
            let matches_mode = self.procs[i].state == ProcState::Blocked && self
                .procs[i]
                .proc
                .console_mode == ConsoleMode::Display && (match self.procs[i].waiting_for {
                Some(WaitTarget::Read { buf, len, mode: m }) => m == mode,
                _ => false,
            });
            if matches_mode {
                let (buf, len) = match self.procs[i].waiting_for {
                    Some(WaitTarget::Read { buf, len, mode: m }) => (buf, len),
                    _ => (0u16, 0u16),
                };
                let qlen = self.procs[i].proc.console_input.len();
                let count_opt: Option<usize> = match mode {
                    InputMode::Line => {
                        match Kernel::find_newline_in(&self.procs[i].proc.console_input) {
                            Some(nl) => {
                                proof {
                                    assert(nl < qlen);
                                }
                                if (len as usize) <= nl + 1 {
                                    Some(len as usize)
                                } else {
                                    Some(nl + 1)
                                }
                            },
                            None => None,
                        }
                    },
                    InputMode::Byte => {
                        if qlen == 0 {
                            None
                        } else if (len as usize) <= qlen {
                            Some(len as usize)
                        } else {
                            Some(qlen)
                        }
                    },
                };
                if let Some(count) = count_opt {
                    let ghost pre = self.procs@;
                    let mut entry = self.procs.remove(i);
                    proof {
                        lemma_procs_ok_remove(pre, self.mem, self.fs, i as int);
                    }
                    let ghost q = entry.proc.console_input@;
                    let data = Kernel::pop_input(&mut entry.proc.console_input, count);
                    let ghost m0 = self.mem;
                    let ghost pmid = entry.proc;
                    deliver_data(&mut entry.proc, &mut self.mem, &data, buf);
                    entry.state = ProcState::Running;
                    entry.waiting_for = None;
                    proof {
                        lemma_procs_ok_mem_bytes(self.procs@, m0, self.mem, self.fs);
                        // the delivery sets the result registers: the
                        // clamped count on success, the error flag on an
                        // out-of-range buffer.
                        assert(data@ == q.take(count as int));
                        assert(delivered(
                            pmid,
                            entry.proc,
                            m0,
                            self.mem,
                            q,
                            buf,
                            data@.len() as int,
                        ));
                        let w: u8 = if count <= 255 {
                            count as u8
                        } else {
                            255
                        };
                        if count == 0 || buf as int + count as int <= pmid.vm_size as int {
                            assert(entry.proc.regs.V@ == pre[i as int].proc.regs.V@.update(
                                0,
                                w,
                            ).update(15, 0u8));
                            assert(w as int <= len as int);
                        }
                        assert(entry.proc.page_table@ == pre[i as int].proc.page_table@);
                        assert(pages_used(entry.proc, self.mem));
                        assert(fds_ok(entry.proc, self.fs));
                        assert forall|j: int|
                            0 <= j < pre.remove(i as int).len() implies tables_disjoint(
                            entry.proc,
                            (#[trigger] pre.remove(i as int)[j]).proc,
                        ) by {
                            lemma_disjoint_congruence(
                                pre[i as int].proc,
                                pre.remove(i as int)[j].proc,
                                entry.proc,
                                pre.remove(i as int)[j].proc,
                            );
                        }
                    }
                    let ghost e1 = entry;
                    self.procs.insert(i, entry);
                    proof {
                        lemma_procs_ok_insert(
                            pre.remove(i as int),
                            self.mem,
                            self.fs,
                            i as int,
                            e1,
                        );
                        assert(self.procs@ =~= pre.update(i as int, e1));
                        assert(woken_by_read(pre[i as int], e1));
                        let e0 = old(self).procs@[i as int];
                        // the count taken is the one the wake specifies.
                        assert(reader_len(e0) == len && reader_mode(e0) == mode);
                        assert(count as int == wake_count(q, reader_len(e0), mode));
                        // the delivery relation carries over to this
                        // entry's own pre-pop process value ...
                        pmid.lemma_gview_eq(e0.proc, m0);
                        pmid.lemma_gview_eq(e0.proc, self.mem);
                        assert(delivered(e0.proc, e1.proc, m0, self.mem, q, buf, count as int));
                        // ... and back to the round's starting arena: the
                        // earlier deliveries wrote only other processes'
                        // pages.
                        assert forall|a: int|
                            0 <= a < PHYS_MEM_SIZE && e0.proc.owns_addr(a) implies m0.phys_mem@[a]
                            == old(self).mem.phys_mem@[a] by {
                            if m0.phys_mem@[a] != old(self).mem.phys_mem@[a] {
                                let j = choose|j: int|
                                    0 <= j < i && (#[trigger] old(self).procs@[j]).proc.owns_addr(
                                        a,
                                    );
                                lemma_owns_disjoint(old(self).procs@[j].proc, e0.proc, a);
                            }
                        }
                        lemma_delivered_frame(
                            e0.proc,
                            e1.proc,
                            m0,
                            self.mem,
                            old(self).mem,
                            self.mem,
                            q,
                            buf,
                            count as int,
                        );
                        assert(reader_served(e0, e1, old(self).mem, self.mem, q));
                        // earlier served entries keep their deliveries: this
                        // write stayed inside this entry's pages.
                        assert forall|k: int|
                            0 <= k < i && blocked_reader(
                                #[trigger] old(self).procs@[k],
                                mode,
                                ConsoleMode::Display,
                            ) && wake_ready(old(self).procs@[k].proc.console_input@, mode) implies
                            reader_served(
                            old(self).procs@[k],
                            self.procs@[k],
                            old(self).mem,
                            self.mem,
                            old(self).procs@[k].proc.console_input@,
                        ) by {
                            let ek0 = old(self).procs@[k];
                            let qk = ek0.proc.console_input@;
                            assert(reader_served(ek0, pre[k], old(self).mem, m0, qk));
                            assert forall|a: int|
                                0 <= a < PHYS_MEM_SIZE && ek0.proc.owns_addr(
                                    a,
                                ) implies self.mem.phys_mem@[a] == m0.phys_mem@[a] by {
                                if self.mem.phys_mem@[a] != m0.phys_mem@[a] {
                                    assert(pmid.owns_addr(a));
                                    lemma_disjoint_symmetric_pub(ek0.proc, e0.proc);
                                    lemma_owns_disjoint(e0.proc, ek0.proc, a);
                                }
                            }
                            lemma_delivered_frame(
                                ek0.proc,
                                pre[k].proc,
                                old(self).mem,
                                m0,
                                old(self).mem,
                                self.mem,
                                qk,
                                reader_buf(ek0),
                                wake_count(qk, reader_len(ek0), reader_mode(ek0)),
                            );
                        }
                        // the arena changed only inside served pages.
                        assert forall|a: int|
                            0 <= a < PHYS_MEM_SIZE && self.mem.phys_mem@[a] != old(
                            self,
                        ).mem.phys_mem@[a] implies exists|j: int|
                            0 <= j < i + 1 && blocked_reader(
                                #[trigger] old(self).procs@[j],
                                mode,
                                ConsoleMode::Display,
                            ) && old(self).procs@[j].proc.owns_addr(a) by {
                            if m0.phys_mem@[a] != old(self).mem.phys_mem@[a] {
                            } else {
                                assert(pmid.owns_addr(a));
                                assert(blocked_reader(
                                    old(self).procs@[i as int],
                                    mode,
                                    ConsoleMode::Display,
                                ));
                                assert(old(self).procs@[i as int].proc.owns_addr(a));
                            }
                        }
                    }
                }
            }
            i = i + 1;
        }
    }

    /// Wake host-console readers of one input mode from the shared host
    /// input queue, in table order. A reader left blocked could not be
    /// satisfied by what remained of the queue when its turn came.
    fn wake_host_readers(&mut self, mode: InputMode)
        requires
            old(self).wf(),
        ensures
            final(self).wf(),
            final(self).procs@.len() == old(self).procs@.len(),
            final(self).mem.bitmap() == old(self).mem.bitmap(),
            final(self).syscalls == old(self).syscalls,
            final(self).next_pid == old(self).next_pid,
            final(self).fs == old(self).fs,
            final(self).host_output@ == old(self).host_output@,
            final(self).pending_exit@ == old(self).pending_exit@,
            final(self).pending_block@ == old(self).pending_block@,
            exists|c: int|
                0 <= c <= old(self).input@.len() && final(self).input@ == old(self).input@.skip(c),
            final(self).input@ == host_queue_after(
                old(self).procs@,
                old(self).input@,
                mode,
                old(self).procs@.len() as int,
            ),
            forall|i: int|
                0 <= i < old(self).procs@.len() ==> ({
                    let e0 = #[trigger] old(self).procs@[i];
                    let e1 = final(self).procs@[i];
                    if blocked_reader(e0, mode, ConsoleMode::Host) {
                        let qi = host_queue_after(old(self).procs@, old(self).input@, mode, i);
                        if wake_ready(qi, mode) {
                            reader_served(e0, e1, old(self).mem, final(self).mem, qi)
                                && e1.proc.console_input@ == e0.proc.console_input@
                        } else {
                            e1 == e0
                        }
                    } else {
                        e1 == e0
                    }
                }),
            forall|a: int|
                0 <= a < PHYS_MEM_SIZE && final(self).mem.phys_mem@[a] != old(
                    self,
                ).mem.phys_mem@[a] ==> exists|j: int|
                    0 <= j < old(self).procs@.len() && blocked_reader(
                        #[trigger] old(self).procs@[j],
                        mode,
                        ConsoleMode::Host,
                    ) && old(self).procs@[j].proc.owns_addr(a),
            mode == InputMode::Line ==> forall|i: int|
                0 <= i < final(self).procs@.len() && blocked_reader(
                    #[trigger] final(self).procs@[i],
                    InputMode::Line,
                    ConsoleMode::Host,
                ) ==> first_nl(final(self).input@) is None,
            mode == InputMode::Byte ==> forall|i: int|
                0 <= i < final(self).procs@.len() && blocked_reader(
                    #[trigger] final(self).procs@[i],
                    InputMode::Byte,
                    ConsoleMode::Host,
                ) ==> final(self).input@.len() == 0,
    {
        proof {
            assert(old(self).input@.skip(0) =~= old(self).input@);
        }
        let n = self.procs.len();
        let mut i: usize = 0;
        while i < n
            invariant
                self.wf(),
                old(self).wf(),
                n == self.procs@.len(),
                self.procs@.len() == old(self).procs@.len(),
                i <= n,
                self.mem.bitmap() == old(self).mem.bitmap(),
                self.syscalls == old(self).syscalls,
                self.next_pid == old(self).next_pid,
                self.fs == old(self).fs,
                self.host_output@ == old(self).host_output@,
                self.pending_exit@ == old(self).pending_exit@,
                self.pending_block@ == old(self).pending_block@,
                exists|c: int|
                    0 <= c <= old(self).input@.len() && self.input@ == old(self).input@.skip(c),
                self.input@ == host_queue_after(
                    old(self).procs@,
                    old(self).input@,
                    mode,
                    i as int,
                ),
                forall|k: int|
                    0 <= k < i ==> ({
                        let e0 = #[trigger] old(self).procs@[k];
                        let e1 = self.procs@[k];
                        if blocked_reader(e0, mode, ConsoleMode::Host) {
                            let qk = host_queue_after(
                                old(self).procs@,
                                old(self).input@,
                                mode,
                                k,
                            );
                            if wake_ready(qk, mode) {
                                reader_served(e0, e1, old(self).mem, self.mem, qk)
                                    && e1.proc.console_input@ == e0.proc.console_input@
                            } else {
                                e1 == e0
                            }
                        } else {
                            e1 == e0
                        }
                    }),
                forall|k: int|
                    i <= k < self.procs@.len() ==> self.procs@[k] == old(self).procs@[k],
                forall|a: int|
                    0 <= a < PHYS_MEM_SIZE && self.mem.phys_mem@[a] != old(
                        self,
                    ).mem.phys_mem@[a] ==> exists|j: int|
                        0 <= j < i && blocked_reader(
                            #[trigger] old(self).procs@[j],
                            mode,
                            ConsoleMode::Host,
                        ) && old(self).procs@[j].proc.owns_addr(a),
                mode == InputMode::Line ==> forall|k: int|
                    0 <= k < i && blocked_reader(
                        #[trigger] self.procs@[k],
                        InputMode::Line,
                        ConsoleMode::Host,
                    ) ==> first_nl(self.input@) is None,
                mode == InputMode::Byte ==> forall|k: int|
                    0 <= k < i && blocked_reader(
                        #[trigger] self.procs@[k],
                        InputMode::Byte,
                        ConsoleMode::Host,
                    ) ==> self.input@.len() == 0,
            decreases n - i,
        {
            let matches_mode = self.procs[i].state == ProcState::Blocked && self
                .procs[i]
                .proc
                .console_mode == ConsoleMode::Host && (match self.procs[i].waiting_for {
                Some(WaitTarget::Read { buf, len, mode: m }) => m == mode,
                _ => false,
            });
            if matches_mode {
                let (buf, len) = match self.procs[i].waiting_for {
                    Some(WaitTarget::Read { buf, len, mode: m }) => (buf, len),
                    _ => (0u16, 0u16),
                };
                let qlen = self.input.len();
                let count_opt: Option<usize> = match mode {
                    InputMode::Line => {
                        match Kernel::find_newline_in(&self.input) {
                            Some(nl) => {
                                proof {
                                    assert(nl < qlen);
                                }
                                if (len as usize) <= nl + 1 {
                                    Some(len as usize)
                                } else {
                                    Some(nl + 1)
                                }
                            },
                            None => None,
                        }
                    },
                    InputMode::Byte => {
                        if qlen == 0 {
                            None
                        } else if (len as usize) <= qlen {
                            Some(len as usize)
                        } else {
                            Some(qlen)
                        }
                    },
                };
                if let Some(count) = count_opt {
                    let ghost q_pre = self.input@;
                    let ghost pre = self.procs@;
                    let mut entry = self.procs.remove(i);
                    proof {
                        lemma_procs_ok_remove(pre, self.mem, self.fs, i as int);
                    }
                    let ghost q = self.input@;
                    let ghost pmid = entry.proc;
                    let data = Kernel::pop_input(&mut self.input, count);
                    let ghost m0 = self.mem;
                    deliver_data(&mut entry.proc, &mut self.mem, &data, buf);
                    entry.state = ProcState::Running;
                    entry.waiting_for = None;
                    proof {
                        lemma_procs_ok_mem_bytes(self.procs@, m0, self.mem, self.fs);
                        // the delivery sets the result registers likewise.
                        assert(data@ == q.take(count as int));
                        assert(delivered(
                            pmid,
                            entry.proc,
                            m0,
                            self.mem,
                            q,
                            buf,
                            data@.len() as int,
                        ));
                        let w: u8 = if count <= 255 {
                            count as u8
                        } else {
                            255
                        };
                        if count == 0 || buf as int + count as int <= pmid.vm_size as int {
                            assert(entry.proc.regs.V@ == pre[i as int].proc.regs.V@.update(
                                0,
                                w,
                            ).update(15, 0u8));
                            assert(w as int <= len as int);
                        }
                        assert(entry.proc.page_table@ == pre[i as int].proc.page_table@);
                        assert(pages_used(entry.proc, self.mem));
                        assert(fds_ok(entry.proc, self.fs));
                        assert forall|j: int|
                            0 <= j < pre.remove(i as int).len() implies tables_disjoint(
                            entry.proc,
                            (#[trigger] pre.remove(i as int)[j]).proc,
                        ) by {
                            lemma_disjoint_congruence(
                                pre[i as int].proc,
                                pre.remove(i as int)[j].proc,
                                entry.proc,
                                pre.remove(i as int)[j].proc,
                            );
                        }
                    }
                    let ghost e1 = entry;
                    self.procs.insert(i, entry);
                    proof {
                        lemma_procs_ok_insert(
                            pre.remove(i as int),
                            self.mem,
                            self.fs,
                            i as int,
                            e1,
                        );
                        assert(self.procs@ =~= pre.update(i as int, e1));
                        assert(woken_by_read(pre[i as int], e1));
                        // the queue shrank by another prefix.
                        let c0 = choose|c: int|
                            0 <= c <= old(self).input@.len() && q_pre == old(self).input@.skip(c);
                        let cc = if count <= q_pre.len() {
                            count as int
                        } else {
                            q_pre.len() as int
                        };
                        assert(self.input@ =~= old(self).input@.skip(c0 + cc));
                        // earlier still-blocked readers saw an unsatisfiable
                        // queue; dropping a prefix keeps it unsatisfiable.
                        if mode == InputMode::Line {
                            assert forall|k: int|
                                0 <= k < i + 1 && blocked_reader(
                                    #[trigger] self.procs@[k],
                                    InputMode::Line,
                                    ConsoleMode::Host,
                                ) implies first_nl(self.input@) is None by {
                                assert(blocked_reader(pre[k], InputMode::Line, ConsoleMode::Host));
                                assert(first_nl(q_pre) is None);
                                assert(false);
                            }
                        }
                        // this entry's turn saw exactly the folded queue.
                        let e0 = old(self).procs@[i as int];
                        assert(q == host_queue_after(
                            old(self).procs@,
                            old(self).input@,
                            mode,
                            i as int,
                        ));
                        assert(reader_len(e0) == len && reader_mode(e0) == mode);
                        assert(count as int == wake_count(q, reader_len(e0), mode));
                        assert(self.input@ == host_queue_after(
                            old(self).procs@,
                            old(self).input@,
                            mode,
                            i as int + 1,
                        ));
                        pmid.lemma_gview_eq(e0.proc, m0);
                        pmid.lemma_gview_eq(e0.proc, self.mem);
                        assert(delivered(e0.proc, e1.proc, m0, self.mem, q, buf, count as int));
                        assert forall|a: int|
                            0 <= a < PHYS_MEM_SIZE && e0.proc.owns_addr(a) implies m0.phys_mem@[a]
                            == old(self).mem.phys_mem@[a] by {
                            if m0.phys_mem@[a] != old(self).mem.phys_mem@[a] {
                                let j = choose|j: int|
                                    0 <= j < i && (#[trigger] old(self).procs@[j]).proc.owns_addr(
                                        a,
                                    );
                                lemma_owns_disjoint(old(self).procs@[j].proc, e0.proc, a);
                            }
                        }
                        lemma_delivered_frame(
                            e0.proc,
                            e1.proc,
                            m0,
                            self.mem,
                            old(self).mem,
                            self.mem,
                            q,
                            buf,
                            count as int,
                        );
                        assert(reader_served(e0, e1, old(self).mem, self.mem, q));
                        // earlier served entries keep their deliveries.
                        assert forall|k: int|
                            0 <= k < i && blocked_reader(
                                #[trigger] old(self).procs@[k],
                                mode,
                                ConsoleMode::Host,
                            ) && wake_ready(
                            host_queue_after(old(self).procs@, old(self).input@, mode, k),
                            mode,
                        ) implies reader_served(
                            old(self).procs@[k],
                            self.procs@[k],
                            old(self).mem,
                            self.mem,
                            host_queue_after(old(self).procs@, old(self).input@, mode, k),
                        ) by {
                            let ek0 = old(self).procs@[k];
                            let qk = host_queue_after(old(self).procs@, old(self).input@, mode, k);
                            assert(reader_served(ek0, pre[k], old(self).mem, m0, qk));
                            assert forall|a: int|
                                0 <= a < PHYS_MEM_SIZE && ek0.proc.owns_addr(
                                    a,
                                ) implies self.mem.phys_mem@[a] == m0.phys_mem@[a] by {
                                if self.mem.phys_mem@[a] != m0.phys_mem@[a] {
                                    assert(pmid.owns_addr(a));
                                    lemma_disjoint_symmetric_pub(ek0.proc, e0.proc);
                                    lemma_owns_disjoint(e0.proc, ek0.proc, a);
                                }
                            }
                            lemma_delivered_frame(
                                ek0.proc,
                                pre[k].proc,
                                old(self).mem,
                                m0,
                                old(self).mem,
                                self.mem,
                                qk,
                                reader_buf(ek0),
                                wake_count(qk, reader_len(ek0), reader_mode(ek0)),
                            );
                        }
                        // the arena changed only inside served pages.
                        assert forall|a: int|
                            0 <= a < PHYS_MEM_SIZE && self.mem.phys_mem@[a] != old(
                            self,
                        ).mem.phys_mem@[a] implies exists|j: int|
                            0 <= j < i + 1 && blocked_reader(
                                #[trigger] old(self).procs@[j],
                                mode,
                                ConsoleMode::Host,
                            ) && old(self).procs@[j].proc.owns_addr(a) by {
                            if m0.phys_mem@[a] != old(self).mem.phys_mem@[a] {
                            } else {
                                assert(pmid.owns_addr(a));
                                assert(blocked_reader(
                                    old(self).procs@[i as int],
                                    mode,
                                    ConsoleMode::Host,
                                ));
                                assert(old(self).procs@[i as int].proc.owns_addr(a));
                            }
                        }
                    }
                } else {
                    proof {
                        if mode == InputMode::Byte {
                            assert(self.input@.len() == 0);
                        }
                        // nothing was ready: the fold leaves the queue.
                        assert(self.input@ == host_queue_after(
                            old(self).procs@,
                            old(self).input@,
                            mode,
                            i as int + 1,
                        ));
                    }
                }
            } else {
                proof {
                    // not a blocked reader of this class: the fold skips it.
                    assert(!blocked_reader(old(self).procs@[i as int], mode, ConsoleMode::Host));
                    assert(self.input@ == host_queue_after(
                        old(self).procs@,
                        old(self).input@,
                        mode,
                        i as int + 1,
                    ));
                }
            }
            i = i + 1;
        }
    }
}


/// The console queue and text surface after applying typed bytes: a
/// backspace undoes the last queued byte (and its echo) if any; every
/// other byte is queued and echoed.
pub open spec fn console_fold(q: Seq<u8>, t: Seq<u8>, data: Seq<u8>) -> (Seq<u8>, Seq<u8>)
    decreases data.len(),
{
    if data.len() == 0 {
        (q, t)
    } else {
        let prev = console_fold(q, t, data.drop_last());
        let b = data.last();
        if b == 8u8 {
            if prev.0.len() > 0 {
                (
                    prev.0.drop_last(),
                    if prev.1.len() > 0 {
                        prev.1.drop_last()
                    } else {
                        prev.1
                    },
                )
            } else {
                prev
            }
        } else {
            (prev.0.push(b), prev.1.push(b))
        }
    }
}

impl Kernel {
    /// Route typed bytes into a process's console input queue, echoing
    /// them on its text surface; a backspace undoes the last queued byte.
    pub fn apply_console_input(proc: &mut Proc, data: &Vec<u8>)
        requires
            old(proc).wf(),
        ensures
            final(proc).wf(),
            ({
                let r = console_fold(
                    old(proc).console_input@,
                    old(proc).display.text_out@,
                    data@,
                );
                final(proc).console_input@ == r.0 && final(proc).display.text_out@ == r.1
            }),
            final(proc).page_table@ == old(proc).page_table@,
            final(proc).vm_size == old(proc).vm_size,
            final(proc).regs == old(proc).regs,
            final(proc).input_mode == old(proc).input_mode,
            final(proc).console_mode == old(proc).console_mode,
            final(proc).fds@ == old(proc).fds@,
            final(proc).next_fd == old(proc).next_fd,
            final(proc).display.buf@ == old(proc).display.buf@,
            final(proc).display.key_down@ == old(proc).display.key_down@,
            final(proc).display.typed@ == old(proc).display.typed@,
            final(proc).display.mode == old(proc).display.mode,
    {
        let mut i: usize = 0;
        while i < data.len()
            invariant
                proc.wf(),
                i <= data@.len(),
                ({
                    let r = console_fold(
                        old(proc).console_input@,
                        old(proc).display.text_out@,
                        data@.take(i as int),
                    );
                    proc.console_input@ == r.0 && proc.display.text_out@ == r.1
                }),
                proc.page_table@ == old(proc).page_table@,
                proc.vm_size == old(proc).vm_size,
                proc.regs == old(proc).regs,
                proc.input_mode == old(proc).input_mode,
                proc.console_mode == old(proc).console_mode,
                proc.fds@ == old(proc).fds@,
                proc.next_fd == old(proc).next_fd,
                proc.display.buf@ == old(proc).display.buf@,
                proc.display.key_down@ == old(proc).display.key_down@,
                proc.display.typed@ == old(proc).display.typed@,
                proc.display.mode == old(proc).display.mode,
            decreases data@.len() - i,
        {
            let byte = data[i];
            proof {
                assert(data@.take(i as int + 1).drop_last() =~= data@.take(i as int));
                assert(data@.take(i as int + 1).last() == data@[i as int]);
            }
            if byte == 0x08 {
                if proc.console_input.len() > 0 {
                    proc.console_input.pop_back();
                    proc.display.console_backspace();
                    proof {
                        assert(proc.console_input@ =~= console_fold(
                            old(proc).console_input@,
                            old(proc).display.text_out@,
                            data@.take(i as int),
                        ).0.drop_last());
                    }
                }
            } else {
                let one = [byte];
                proc.console_input.push_back(byte);
                proc.display.console_write(one.as_slice());
                proof {
                    assert(one@ =~= seq![byte]);
                    assert(proc.display.text_out@ =~= console_fold(
                        old(proc).console_input@,
                        old(proc).display.text_out@,
                        data@.take(i as int),
                    ).1.push(byte));
                }
            }
            i = i + 1;
        }
        proof {
            assert(data@.take(data@.len() as int) =~= data@);
        }
    }

    /// Inject host input and wake blocked readers that it satisfies.
    pub fn push_input(&mut self, data: &[u8])
        requires
            old(self).wf(),
        ensures
            final(self).wf(),
            final(self).procs@.len() == old(self).procs@.len(),
            final(self).mem.bitmap() == old(self).mem.bitmap(),
            final(self).syscalls == old(self).syscalls,
            final(self).next_pid == old(self).next_pid,
            final(self).fs == old(self).fs,
            final(self).host_output@ == old(self).host_output@,
            final(self).pending_exit@ == old(self).pending_exit@,
            final(self).pending_block@ == old(self).pending_block@,
            forall|i: int|
                0 <= i < old(self).procs@.len() ==> (final(self).procs@[i] == old(self).procs@[i]
                    || ((#[trigger] old(self).procs@[i]).state == ProcState::Blocked
                    && (old(self).procs@[i].waiting_for matches Some(WaitTarget::Read { .. }))
                    && woken_by_read(old(self).procs@[i], final(self).procs@[i]))),
            (exists|i: int|
                blocked_reader(
                    #[trigger] final(self).procs@[i],
                    InputMode::Line,
                    ConsoleMode::Host,
                ) && 0 <= i < final(self).procs@.len()) ==> first_nl(final(self).input@) is None,
            (exists|i: int|
                blocked_reader(
                    #[trigger] final(self).procs@[i],
                    InputMode::Byte,
                    ConsoleMode::Host,
                ) && 0 <= i < final(self).procs@.len()) ==> final(self).input@.len() == 0,
            // in full: the data lands at the back of the host queue, and
            // each reader the grown queue satisfies is served exactly.
            readers_unblocked(
                old(self).procs@,
                old(self).input@ + data@,
                old(self).mem,
                final(self).procs@,
                final(self).input@,
                final(self).mem,
            ),
    {
        let mut i: usize = 0;
        while i < data.len()
            invariant
                self.wf(),
                i <= data@.len(),
                self.input@ == old(self).input@ + data@.take(i as int),
                self.procs@ == old(self).procs@,
                self.mem == old(self).mem,
                self.syscalls == old(self).syscalls,
                self.next_pid == old(self).next_pid,
                self.fs == old(self).fs,
                self.host_output@ == old(self).host_output@,
                self.pending_exit@ == old(self).pending_exit@,
                self.pending_block@ == old(self).pending_block@,
            decreases data@.len() - i,
        {
            self.input.push_back(data[i]);
            proof {
                assert(old(self).input@ + data@.take(i as int + 1) =~= (old(self).input@
                    + data@.take(i as int)).push(data@[i as int]));
            }
            i = i + 1;
        }
        proof {
            assert(self.input@ =~= old(self).input@ + data@);
        }
        self.unblock_readers();
    }

    /// Inject console input for a specific pid and wake readers.
    pub fn push_console_input(&mut self, pid: u32, data: &Vec<u8>)
        requires
            old(self).wf(),
        ensures
            final(self).wf(),
            final(self).procs@.len() == old(self).procs@.len(),
            final(self).mem.bitmap() == old(self).mem.bitmap(),
            final(self).syscalls == old(self).syscalls,
            final(self).next_pid == old(self).next_pid,
            final(self).fs == old(self).fs,
            final(self).host_output@ == old(self).host_output@,
            final(self).pending_exit@ == old(self).pending_exit@,
            final(self).pending_block@ == old(self).pending_block@,
            forall|i: int|
                0 <= i < final(self).procs@.len() && blocked_reader(
                    #[trigger] final(self).procs@[i],
                    InputMode::Line,
                    ConsoleMode::Display,
                ) ==> first_nl(final(self).procs@[i].proc.console_input@) is None,
            forall|i: int|
                0 <= i < final(self).procs@.len() && blocked_reader(
                    #[trigger] final(self).procs@[i],
                    InputMode::Byte,
                    ConsoleMode::Display,
                ) ==> final(self).procs@[i].proc.console_input@.len() == 0,
            // in full: the bytes land at the back of the pid's console
            // queue, and the wake round then serves what it can.
            exists|mid: Seq<ProcEntry>|
                {
                    &&& mid.len() == old(self).procs@.len()
                    &&& (forall|i: int|
                        0 <= i < mid.len() ==> (#[trigger] mid[i] == old(self).procs@[i] || (
                        old(self).procs@[i].pid == pid && entry_same_but_console(
                            old(self).procs@[i],
                            mid[i],
                            old(self).procs@[i].proc.console_input@ + data@,
                        ))))
                    &&& #[trigger] readers_unblocked(
                        mid,
                        old(self).input@,
                        old(self).mem,
                        final(self).procs@,
                        final(self).input@,
                        final(self).mem,
                    )
                },
    {
        let idx = match self.proc_index(pid) {
            Some(i) => i,
            None => {
                self.unblock_readers();
                return ;
            },
        };
        let ghost pre = self.procs@;
        let mut entry = self.procs.remove(idx);
        proof {
            lemma_procs_ok_remove(pre, self.mem, self.fs, idx as int);
        }
        let mut b: usize = 0;
        while b < data.len()
            invariant
                entry.proc.wf(),
                b <= data@.len(),
                entry.proc.console_input@ == pre[idx as int].proc.console_input@ + data@.take(
                    b as int,
                ),
                entry_same_but_console(
                    pre[idx as int],
                    entry,
                    pre[idx as int].proc.console_input@ + data@.take(b as int),
                ),
                entry.proc.page_table@ == pre[idx as int].proc.page_table@,
                entry.proc.fds@ == pre[idx as int].proc.fds@,
                entry.pid == pre[idx as int].pid,
            decreases data@.len() - b,
        {
            entry.proc.console_input.push_back(data[b]);
            proof {
                assert(pre[idx as int].proc.console_input@ + data@.take(b as int + 1) =~= (
                pre[idx as int].proc.console_input@ + data@.take(b as int)).push(
                    data@[b as int],
                ));
            }
            b = b + 1;
        }
        proof {
            assert(entry.proc.console_input@ =~= pre[idx as int].proc.console_input@ + data@);
        }
        proof {
            assert(pages_used(entry.proc, self.mem));
            assert(fds_ok(entry.proc, self.fs));
            assert forall|j: int|
                0 <= j < pre.remove(idx as int).len() implies tables_disjoint(
                entry.proc,
                (#[trigger] pre.remove(idx as int)[j]).proc,
            ) by {
                lemma_disjoint_congruence(
                    pre[idx as int].proc,
                    pre.remove(idx as int)[j].proc,
                    entry.proc,
                    pre.remove(idx as int)[j].proc,
                );
            }
        }
        self.procs.insert(idx, entry);
        proof {
            lemma_procs_ok_insert(pre.remove(idx as int), self.mem, self.fs, idx as int, entry);
            assert(self.procs@ =~= pre.update(idx as int, entry));
            assert(pre[idx as int].pid == pid);
            assert(entry_same_but_console(
                pre[idx as int],
                entry,
                pre[idx as int].proc.console_input@ + data@,
            ));
        }
        self.unblock_readers();
    }
}

/// How draining typed text leaves one display-console entry: the typed
/// bytes folded into its console queue and echo surface, everything else
/// untouched.
pub open spec fn drained_entry(e0: ProcEntry, e1: ProcEntry) -> bool {
    let r = console_fold(
        e0.proc.console_input@,
        e0.proc.display.text_out@,
        e0.proc.display.typed@,
    );
    &&& e1.pid == e0.pid
    &&& e1.state == e0.state
    &&& e1.exit_code == e0.exit_code
    &&& e1.waiting_for == e0.waiting_for
    &&& e1.proc.console_input@ == r.0
    &&& e1.proc.display.text_out@ == r.1
    &&& e1.proc.display.typed@.len() == 0
    &&& e1.proc.page_table@ == e0.proc.page_table@
    &&& e1.proc.vm_size == e0.proc.vm_size
    &&& e1.proc.regs == e0.proc.regs
    &&& e1.proc.input_mode == e0.proc.input_mode
    &&& e1.proc.console_mode == e0.proc.console_mode
    &&& e1.proc.fds@ == e0.proc.fds@
    &&& e1.proc.next_fd == e0.proc.next_fd
    &&& e1.proc.display.buf@ == e0.proc.display.buf@
    &&& e1.proc.display.key_down@ == e0.proc.display.key_down@
    &&& e1.proc.display.mode == e0.proc.display.mode
}

/// Typed text routed into every blocked display-console process's queue;
/// every other entry untouched.
pub open spec fn console_drained(s0: Seq<ProcEntry>, s1: Seq<ProcEntry>) -> bool {
    &&& s1.len() == s0.len()
    &&& forall|i: int|
        0 <= i < s0.len() ==> (if (#[trigger] s0[i]).state == ProcState::Blocked
            && s0[i].proc.console_mode == ConsoleMode::Display {
            drained_entry(s0[i], s1[i])
        } else {
            s1[i] == s0[i]
        })
}

impl Kernel {
    /// Drain text typed on the display of each blocked display-console
    /// process into its console queue, echoing it there, then wake the
    /// readers the new bytes satisfy.
    pub fn poll_console_input(&mut self)
        requires
            old(self).wf(),
        ensures
            final(self).wf(),
            final(self).procs@.len() == old(self).procs@.len(),
            final(self).mem.bitmap() == old(self).mem.bitmap(),
            final(self).syscalls == old(self).syscalls,
            final(self).next_pid == old(self).next_pid,
            final(self).fs == old(self).fs,
            final(self).host_output@ == old(self).host_output@,
            final(self).pending_exit@ == old(self).pending_exit@,
            final(self).pending_block@ == old(self).pending_block@,
            // typed text is routed first, then the wake round serves the
            // readers the routed bytes satisfy.
            exists|mid: Seq<ProcEntry>|
                {
                    &&& #[trigger] console_drained(old(self).procs@, mid)
                    &&& readers_unblocked(
                        mid,
                        old(self).input@,
                        old(self).mem,
                        final(self).procs@,
                        final(self).input@,
                        final(self).mem,
                    )
                },
            forall|i: int|
                0 <= i < final(self).procs@.len() && blocked_reader(
                    #[trigger] final(self).procs@[i],
                    InputMode::Line,
                    ConsoleMode::Display,
                ) ==> first_nl(final(self).procs@[i].proc.console_input@) is None,
            forall|i: int|
                0 <= i < final(self).procs@.len() && blocked_reader(
                    #[trigger] final(self).procs@[i],
                    InputMode::Byte,
                    ConsoleMode::Display,
                ) ==> final(self).procs@[i].proc.console_input@.len() == 0,
            forall|i: int|
                0 <= i < old(self).procs@.len() ==> (#[trigger] final(self).procs@[i]).pid == old(
                    self,
                ).procs@[i].pid && final(self).procs@[i].proc.page_table@ == old(
                    self,
                ).procs@[i].proc.page_table@,
    {
        let n = self.procs.len();
        let mut i: usize = 0;
        while i < n
            invariant
                self.wf(),
                n == self.procs@.len(),
                self.procs@.len() == old(self).procs@.len(),
                i <= n,
                self.mem == old(self).mem,
                self.syscalls == old(self).syscalls,
                self.next_pid == old(self).next_pid,
                self.fs == old(self).fs,
                self.input@ == old(self).input@,
                self.host_output@ == old(self).host_output@,
                self.pending_exit@ == old(self).pending_exit@,
                self.pending_block@ == old(self).pending_block@,
                forall|k: int|
                    0 <= k < i ==> (if (#[trigger] old(self).procs@[k]).state
                        == ProcState::Blocked && old(self).procs@[k].proc.console_mode
                        == ConsoleMode::Display {
                        drained_entry(old(self).procs@[k], self.procs@[k])
                    } else {
                        self.procs@[k] == old(self).procs@[k]
                    }),
                forall|k: int|
                    i <= k < self.procs@.len() ==> self.procs@[k] == old(self).procs@[k],
            decreases n - i,
        {
            let wants_poll = self.procs[i].proc.console_mode == ConsoleMode::Display && self
                .procs[i]
                .state == ProcState::Blocked;
            if wants_poll {
                let ghost pre = self.procs@;
                let mut entry = self.procs.remove(i);
                proof {
                    lemma_procs_ok_remove(pre, self.mem, self.fs, i as int);
                }
                let data = entry.proc.display.drain_text_input();
                Kernel::apply_console_input(&mut entry.proc, &data);
                proof {
                    assert(entry.proc.page_table@ == pre[i as int].proc.page_table@);
                    assert(pages_used(entry.proc, self.mem));
                    assert(fds_ok(entry.proc, self.fs));
                    assert forall|j: int|
                        0 <= j < pre.remove(i as int).len() implies tables_disjoint(
                        entry.proc,
                        (#[trigger] pre.remove(i as int)[j]).proc,
                    ) by {
                        lemma_disjoint_congruence(
                            pre[i as int].proc,
                            pre.remove(i as int)[j].proc,
                            entry.proc,
                            pre.remove(i as int)[j].proc,
                        );
                    }
                }
                let ghost e1 = entry;
                self.procs.insert(i, entry);
                proof {
                    lemma_procs_ok_insert(
                        pre.remove(i as int),
                        self.mem,
                        self.fs,
                        i as int,
                        e1,
                    );
                    assert(self.procs@ =~= pre.update(i as int, e1));
                    assert(drained_entry(old(self).procs@[i as int], e1));
                }
            }
            i = i + 1;
        }
        let ghost mid = self.procs@;
        proof {
            assert(console_drained(old(self).procs@, mid));
        }
        self.unblock_readers();
        proof {
            // the wake pass only turns blocked readers runnable; identity
            // and address spaces carry through both phases.
            assert forall|i2: int|
                0 <= i2 < old(self).procs@.len() implies (#[trigger] self.procs@[i2]).pid == old(
                self,
            ).procs@[i2].pid && self.procs@[i2].proc.page_table@ == old(
                self,
            ).procs@[i2].proc.page_table@ by {
                assert(self.procs@[i2] == mid[i2] || woken_by_read(mid[i2], self.procs@[i2]));
            }
        }
    }

    /// Whether the entry for `pid` is currently `Running`.
    pub fn is_runnable(&self, pid: u32) -> (r: bool)
        ensures
            r == (match find_pid(self.procs@, pid) {
                Some(i) => self.procs@[i].state == ProcState::Running,
                None => false,
            }),
    {
        match self.proc_index(pid) {
            Some(i) => self.procs[i].state == ProcState::Running,
            None => false,
        }
    }

    /// Whether any process is blocked.
    pub fn any_blocked(&self) -> (r: bool)
        ensures
            r == (exists|i: int|
                0 <= i < self.procs@.len() && (#[trigger] self.procs@[i]).state
                    == ProcState::Blocked),
    {
        let mut i: usize = 0;
        while i < self.procs.len()
            invariant
                i <= self.procs@.len(),
                forall|k: int|
                    0 <= k < i ==> (#[trigger] self.procs@[k]).state != ProcState::Blocked,
            decreases self.procs@.len() - i,
        {
            if self.procs[i].state == ProcState::Blocked {
                return true;
            }
            i = i + 1;
        }
        false
    }

    /// Whether any process is blocked on a host-console line read.
    pub fn any_blocked_on_read_line_host(&self) -> (r: bool)
        ensures
            r == (exists|i: int|
                0 <= i < self.procs@.len() && blocked_reader(
                    #[trigger] self.procs@[i],
                    InputMode::Line,
                    ConsoleMode::Host,
                )),
    {
        let mut i: usize = 0;
        while i < self.procs.len()
            invariant
                i <= self.procs@.len(),
                forall|k: int|
                    0 <= k < i ==> !blocked_reader(
                        #[trigger] self.procs@[k],
                        InputMode::Line,
                        ConsoleMode::Host,
                    ),
            decreases self.procs@.len() - i,
        {
            let hit = self.procs[i].state == ProcState::Blocked && self.procs[i].proc.console_mode
                == ConsoleMode::Host && (match self.procs[i].waiting_for {
                Some(WaitTarget::Read { buf, len, mode }) => mode == InputMode::Line,
                _ => false,
            });
            if hit {
                return true;
            }
            i = i + 1;
        }
        false
    }

    /// Whether any process is blocked on a host-console byte read.
    pub fn any_blocked_on_read_byte_host(&self) -> (r: bool)
        ensures
            r == (exists|i: int|
                0 <= i < self.procs@.len() && blocked_reader(
                    #[trigger] self.procs@[i],
                    InputMode::Byte,
                    ConsoleMode::Host,
                )),
    {
        let mut i: usize = 0;
        while i < self.procs.len()
            invariant
                i <= self.procs@.len(),
                forall|k: int|
                    0 <= k < i ==> !blocked_reader(
                        #[trigger] self.procs@[k],
                        InputMode::Byte,
                        ConsoleMode::Host,
                    ),
            decreases self.procs@.len() - i,
        {
            let hit = self.procs[i].state == ProcState::Blocked && self.procs[i].proc.console_mode
                == ConsoleMode::Host && (match self.procs[i].waiting_for {
                Some(WaitTarget::Read { buf, len, mode }) => mode == InputMode::Byte,
                _ => false,
            });
            if hit {
                return true;
            }
            i = i + 1;
        }
        false
    }
}

/// Whether all entries carry distinct pids.
pub open spec fn pids_distinct(s: Seq<ProcEntry>) -> bool {
    forall|i: int, j: int| 0 <= i < j < s.len() ==> (#[trigger] s[i]).pid != (#[trigger] s[j]).pid
}

/// With distinct pids, looking an entry's own pid up finds that entry.
proof fn lemma_find_pid_self(s: Seq<ProcEntry>, k: int)
    requires
        pids_distinct(s),
        0 <= k < s.len(),
    ensures
        find_pid(s, s[k].pid) == Some(k),
{
    lemma_find_pid_self_from(s, k, 0);
}

proof fn lemma_find_pid_self_from(s: Seq<ProcEntry>, k: int, j: int)
    requires
        pids_distinct(s),
        0 <= j <= k < s.len(),
    ensures
        find_pid_from(s, s[k].pid, j) == Some(k),
    decreases k - j,
{
    if j < k {
        lemma_find_pid_self_from(s, k, j + 1);
    }
}

impl Kernel {
    /// Step one process until it blocks, yields, faults, or the step
    /// budget runs out.
    pub fn run_proc_until_yield_or_block(&mut self, pid: u32, max_steps: u32) -> (r: Result<
        (),
        VmError,
    >)
        requires
            old(self).wf(),
        ensures
            final(self).wf(),
            // a pid that is not runnable (or an empty budget) changes
            // nothing; otherwise each step taken is one `step_proc`.
            (max_steps == 0 || !(match find_pid(old(self).procs@, pid) {
                Some(i) => old(self).procs@[i].state == ProcState::Running,
                None => false,
            })) ==> r == Ok::<(), VmError>(()) && *final(self) == *old(self),
    {
        let mut budget = max_steps;
        while budget > 0
            invariant
                self.wf(),
                budget <= max_steps,
                max_steps == 0 ==> *self == *old(self),
                !(match find_pid(old(self).procs@, pid) {
                    Some(i) => old(self).procs@[i].state == ProcState::Running,
                    None => false,
                }) ==> *self == *old(self),
            decreases budget,
        {
            if !self.is_runnable(pid) {
                return Ok(());
            }
            match self.step_proc(pid) {
                Ok(SyscallOutcome::Completed) => {},
                Ok(SyscallOutcome::Blocked) => {
                    return Ok(());
                },
                Ok(SyscallOutcome::Yielded) => {
                    return Ok(());
                },
                Err(e) => {
                    return Err(e);
                },
            }
            budget = budget - 1;
        }
        Ok(())
    }

    /// One round of the cooperative scheduler: poll display consoles,
    /// then give every runnable process a slice of at most `max_steps`
    /// instructions. Reports whether any process ran. A host drives this
    /// in a loop, feeding input between rounds.
    pub fn run_pass(&mut self, max_steps: u32) -> (r: Result<bool, VmError>)
        requires
            old(self).wf(),
        ensures
            final(self).wf(),
            // a quiet pass is final: when nothing ran (and pids are
            // unambiguous), no process is left runnable, so the host may
            // wait for input or stop.
            (pids_distinct(old(self).procs@) && r == Ok::<bool, VmError>(false)) ==> forall|
                i: int,
            |
                0 <= i < final(self).procs@.len() ==> (#[trigger] final(self).procs@[i]).state
                    != ProcState::Running,
    {
        self.poll_console_input();
        self.wake_key_waiters();
        proof {
            // identity is preserved by polling and waking, so pids stay
            // distinct.
            if pids_distinct(old(self).procs@) {
                assert forall|a: int, b: int|
                    0 <= a < b < self.procs@.len() implies (#[trigger] self.procs@[a]).pid != (
                #[trigger] self.procs@[b]).pid by {
                    assert(self.procs@[a].pid == old(self).procs@[a].pid);
                    assert(self.procs@[b].pid == old(self).procs@[b].pid);
                }
            }
        }
        let ghost k_mid = *self;
        let mut pids: Vec<u32> = Vec::new();
        let mut i: usize = 0;
        while i < self.procs.len()
            invariant
                self.wf(),
                *self == k_mid,
                i <= self.procs@.len(),
                pids@.len() == i,
                forall|k: int| 0 <= k < i ==> pids@[k] == self.procs@[k].pid,
            decreases self.procs@.len() - i,
        {
            pids.push(self.procs[i].pid);
            i = i + 1;
        }
        let mut ran = false;
        let mut k: usize = 0;
        while k < pids.len()
            invariant
                self.wf(),
                k <= pids@.len(),
                pids@.len() == k_mid.procs@.len(),
                forall|k2: int| 0 <= k2 < pids@.len() ==> pids@[k2] == k_mid.procs@[k2].pid,
                pids_distinct(old(self).procs@) ==> pids_distinct(k_mid.procs@),
                !ran ==> *self == k_mid,
                !ran && pids_distinct(old(self).procs@) ==> forall|k2: int|
                    0 <= k2 < k ==> (#[trigger] k_mid.procs@[k2]).state != ProcState::Running,
            decreases pids@.len() - k,
        {
            proof {
                if !ran && pids_distinct(old(self).procs@) {
                    lemma_find_pid_self(k_mid.procs@, k as int);
                }
            }
            if self.is_runnable(pids[k]) {
                ran = true;
                match self.run_proc_until_yield_or_block(pids[k], max_steps) {
                    Ok(_) => {},
                    Err(e) => {
                        return Err(e);
                    },
                }
            }
            k = k + 1;
        }
        proof {
            if !ran && pids_distinct(old(self).procs@) {
                assert forall|i2: int|
                    0 <= i2 < self.procs@.len() implies (#[trigger] self.procs@[i2]).state
                    != ProcState::Running by {
                    assert(self.procs@[i2] == k_mid.procs@[i2]);
                }
            }
        }
        Ok(ran)
    }

    /// Spawn a process and load a program image into it, all or nothing:
    /// an image too large for the requested pages fails before any pages
    /// are taken. Succeeds exactly when at least one page is requested,
    /// the image fits below the end of the address space, and enough
    /// pages are free.
    pub fn spawn_proc_with_rom(&mut self, pages: u16, rom: &[u8]) -> (r: Result<u32, VmError>)
        requires
            old(self).wf(),
        ensures
            final(self).wf(),
            ({
                let fits = pages > 0 && rom@.len() <= pages as int * PAGE_SIZE as int - 0x200;
                &&& (r == Err::<u32, VmError>(VmError::TooLarge) <==> !fits)
                &&& (r == Err::<u32, VmError>(VmError::OutOfMemory) <==> (fits && count_free(
                    old(self).mem.bitmap(),
                ) < pages as nat))
                &&& (r is Err <==> (!fits || count_free(old(self).mem.bitmap()) < pages as nat))
                &&& (r is Err ==> final(self).procs@ == old(self).procs@
                    && final(self).mem.bitmap() == old(self).mem.bitmap()
                    && final(self).mem.phys_mem@ == old(self).mem.phys_mem@)
            }),
            forall|i: int|
                0 <= i < old(self).procs@.len()
                    ==> #[trigger] final(self).procs@[i] == old(self).procs@[i],
            final(self).syscalls == old(self).syscalls,
            final(self).fs == old(self).fs,
            final(self).input@ == old(self).input@,
            final(self).host_output@ == old(self).host_output@,
            final(self).pending_exit@ == old(self).pending_exit@,
            final(self).pending_block@ == old(self).pending_block@,
            r matches Ok(pid) ==> {
                let child = final(self).procs@.last();
                &&& pid == old(self).next_pid
                &&& final(self).procs@.len() == old(self).procs@.len() + 1
                &&& final(self).next_pid == wrap32_add(old(self).next_pid, 1)
                &&& child.pid == pid
                &&& child.state == ProcState::Running
                &&& child.exit_code is None
                &&& child.waiting_for is None
                &&& child.proc.page_table@.len() == pages as int
                &&& child.proc.regs.PC == 0x200
                &&& forall|i: int|
                    0 <= i < old(self).procs@.len() ==> tables_disjoint(
                        child.proc,
                        (#[trigger] old(self).procs@[i]).proc,
                    )
                &&& forall|w: int|
                    0 <= w < child.proc.vm_size ==> child.proc.gview(final(self).mem)[w] == (
                    if w < 80 {
                        crate::proc::chip8_font()[w]
                    } else if 0x200 <= w < 0x200 + rom@.len() {
                        rom@[w - 0x200]
                    } else {
                        child.proc.gview(old(self).mem)[w]
                    })
            },
    {
        proof {
            assert((pages as usize) * PAGE_SIZE as int == pages as int * PAGE_SIZE as int)
                by (nonlinear_arith);
            assert(pages >= 1 ==> (pages as usize) * PAGE_SIZE >= 0x1000) by (nonlinear_arith)
                requires
                    PAGE_SIZE == 0x1000,
            ;
        }
        if pages == 0 || rom.len() > (pages as usize) * PAGE_SIZE - 0x200 {
            return Err(VmError::TooLarge);
        }
        proof {
            assert((pages as usize) * PAGE_SIZE >= 0x1000 && (pages as usize) * PAGE_SIZE
                <= 0xFFFF000) by (nonlinear_arith)
                requires
                    1 <= pages <= 0xFFFF,
                    PAGE_SIZE == 0x1000,
            ;
        }
        let pid = match self.spawn_proc(pages) {
            Ok(p) => p,
            Err(_) => {
                // the image fits, so the only failure left is page
                // exhaustion.
                return Err(VmError::OutOfMemory);
            },
        };
        let cidx = self.procs.len() - 1;
        let ghost m_spawned = self.mem;
        let ghost pre = self.procs@;
        let entry = self.procs.remove(cidx);
        proof {
            lemma_procs_ok_remove(pre, self.mem, self.fs, cidx as int);
        }
        let lr = entry.proc.load_program_bytes(&mut self.mem, rom);
        proof {
            assert(lr is Ok);
            lemma_procs_ok_mem_bytes(self.procs@, m_spawned, self.mem, self.fs);
            assert(entry.proc.gview(m_spawned) =~= entry.proc.gview(old(self).mem));
        }
        self.procs.insert(cidx, entry);
        proof {
            lemma_procs_ok_insert(pre.remove(cidx as int), self.mem, self.fs, cidx as int, entry);
            assert(self.procs@ =~= pre);
            assert(self.procs@.last() == entry);
        }
        Ok(pid)
    }

    /// Spawn a process from a ROM name resolved inside the sandbox
    /// snapshot: succeeds exactly when the name resolves to a file whose
    /// image fits the requested pages and enough pages are free.
    pub fn spawn_proc_from_name(&mut self, pages: u16, name: &Vec<u8>) -> (r: Result<u32, VmError>)
        requires
            old(self).wf(),
        ensures
            final(self).wf(),
            ({
                let rom_found = !crate::sandbox::path_rejected(name@)
                    && crate::sandbox::normalized(name@).len() > 0 && (exists|ni: int|
                    0 <= ni < old(self).fs.nodes@.len() && (
                    #[trigger] old(self).fs.nodes@[ni].path.deep_view())
                        == crate::sandbox::normalized(name@) && old(self).fs.nodes@[ni].kind
                        is File);
                &&& (r == Err::<u32, VmError>(VmError::NotFound) <==> !rom_found)
                &&& (!rom_found ==> *final(self) == *old(self))
                &&& (rom_found ==> forall|ni: int|
                    (0 <= ni < old(self).fs.nodes@.len() && (
                    #[trigger] old(self).fs.nodes@[ni].path.deep_view())
                        == crate::sandbox::normalized(name@) && old(self).fs.nodes@[ni].kind
                        is File) ==> {
                        let rom = old(self).fs.nodes@[ni].data@;
                        let fits = pages > 0 && rom.len() <= pages as int * PAGE_SIZE as int
                            - 0x200;
                        &&& (r == Err::<u32, VmError>(VmError::TooLarge) <==> !fits)
                        &&& (r is Err <==> (!fits || count_free(old(self).mem.bitmap())
                            < pages as nat))
                        &&& (r is Err ==> final(self).procs@ == old(self).procs@)
                        &&& (r matches Ok(pid) ==> {
                            let child = final(self).procs@.last();
                            &&& pid == old(self).next_pid
                            &&& final(self).procs@.len() == old(self).procs@.len() + 1
                            &&& child.pid == pid
                            &&& child.state == ProcState::Running
                            &&& child.proc.page_table@.len() == pages as int
                            &&& child.proc.regs.PC == 0x200
                            &&& forall|i: int|
                                0 <= i < old(self).procs@.len() ==> tables_disjoint(
                                    child.proc,
                                    (#[trigger] old(self).procs@[i]).proc,
                                )
                            &&& forall|w: int|
                                0 <= w < child.proc.vm_size
                                    ==> child.proc.gview(final(self).mem)[w] == (if w < 80 {
                                    crate::proc::chip8_font()[w]
                                } else if 0x200 <= w < 0x200 + rom.len() {
                                    rom[w - 0x200]
                                } else {
                                    child.proc.gview(old(self).mem)[w]
                                })
                        })
                    })
            }),
            forall|i: int|
                0 <= i < old(self).procs@.len()
                    ==> #[trigger] final(self).procs@[i] == old(self).procs@[i],
            final(self).syscalls == old(self).syscalls,
            final(self).fs == old(self).fs,
            final(self).input@ == old(self).input@,
            final(self).host_output@ == old(self).host_output@,
            final(self).pending_exit@ == old(self).pending_exit@,
            final(self).pending_block@ == old(self).pending_block@,
    {
        let node = match self.resolve_fs_path(name) {
            ResolvedNode::Found(i) => i,
            _ => {
                return Err(VmError::NotFound);
            },
        };
        if !(self.fs.nodes[node].kind == FsKind::File) {
            proof {
                assert forall|ni: int|
                    0 <= ni < self.fs.nodes@.len() && (
                    #[trigger] self.fs.nodes@[ni].path.deep_view())
                        == self.fs.nodes@[node as int].path.deep_view() implies !(
                self.fs.nodes@[ni].kind is File) by {
                    if ni != node as int {
                        if ni < node as int {
                            assert(self.fs.nodes@[ni].path.deep_view()
                                != self.fs.nodes@[node as int].path.deep_view());
                        } else {
                            assert(self.fs.nodes@[node as int].path.deep_view()
                                != self.fs.nodes@[ni].path.deep_view());
                        }
                    }
                }
            }
            return Err(VmError::NotFound);
        }
        proof {
            assert forall|ni: int|
                0 <= ni < self.fs.nodes@.len() && (#[trigger] self.fs.nodes@[ni].path.deep_view())
                    == self.fs.nodes@[node as int].path.deep_view() implies ni == node as int by {
                if ni != node as int {
                    if ni < node as int {
                        assert(self.fs.nodes@[ni].path.deep_view()
                            != self.fs.nodes@[node as int].path.deep_view());
                    } else {
                        assert(self.fs.nodes@[node as int].path.deep_view()
                            != self.fs.nodes@[ni].path.deep_view());
                    }
                }
            }
        }
        let rom = &self.fs.nodes[node].data;
        let mut rom_copy: Vec<u8> = Vec::new();
        let mut b: usize = 0;
        while b < rom.len()
            invariant
                b <= rom@.len(),
                node < self.fs.nodes@.len(),
                rom@ == self.fs.nodes@[node as int].data@,
                rom_copy@ == rom@.take(b as int),
            decreases rom@.len() - b,
        {
            rom_copy.push(rom[b]);
            proof {
                assert(rom@.take(b as int).push(rom@[b as int]) =~= rom@.take(b as int + 1));
            }
            b = b + 1;
        }
        proof {
            assert(rom_copy@ =~= self.fs.nodes@[node as int].data@);
        }
        self.spawn_proc_with_rom(pages, rom_copy.as_slice())
    }
}


impl Kernel {
    /// Wake processes blocked with no wait target: they blocked on a key
    /// wait and are re-run on the next poll, re-executing the waiting
    /// instruction against fresh key state.
    pub fn wake_key_waiters(&mut self)
        requires
            old(self).wf(),
        ensures
            final(self).wf(),
            final(self).procs@.len() == old(self).procs@.len(),
            final(self).mem == old(self).mem,
            final(self).syscalls == old(self).syscalls,
            final(self).next_pid == old(self).next_pid,
            final(self).fs == old(self).fs,
            final(self).input@ == old(self).input@,
            final(self).host_output@ == old(self).host_output@,
            final(self).pending_exit@ == old(self).pending_exit@,
            final(self).pending_block@ == old(self).pending_block@,
            forall|i: int|
                0 <= i < old(self).procs@.len() ==> ({
                    let e0 = #[trigger] old(self).procs@[i];
                    let e1 = final(self).procs@[i];
                    if e0.state == ProcState::Blocked && e0.waiting_for is None {
                        e1 == ProcEntry {
                            state: ProcState::Running,
                            ..e0
                        }
                    } else {
                        e1 == e0
                    }
                }),
    {
        let n = self.procs.len();
        let mut i: usize = 0;
        while i < n
            invariant
                self.wf(),
                n == self.procs@.len(),
                self.procs@.len() == old(self).procs@.len(),
                i <= n,
                self.mem == old(self).mem,
                self.syscalls == old(self).syscalls,
                self.next_pid == old(self).next_pid,
                self.fs == old(self).fs,
                self.input@ == old(self).input@,
                self.host_output@ == old(self).host_output@,
                self.pending_exit@ == old(self).pending_exit@,
                self.pending_block@ == old(self).pending_block@,
                forall|k: int|
                    0 <= k < i ==> ({
                        let e0 = #[trigger] old(self).procs@[k];
                        let e1 = self.procs@[k];
                        if e0.state == ProcState::Blocked && e0.waiting_for is None {
                            e1 == ProcEntry {
                                state: ProcState::Running,
                                ..e0
                            }
                        } else {
                            e1 == e0
                        }
                    }),
                forall|k: int|
                    i <= k < self.procs@.len() ==> self.procs@[k] == old(self).procs@[k],
            decreases n - i,
        {
            let key_wait = self.procs[i].state == ProcState::Blocked && self
                .procs[i]
                .waiting_for
                .is_none();
            if key_wait {
                let ghost pre = self.procs@;
                let mut entry = self.procs.remove(i);
                proof {
                    lemma_procs_ok_remove(pre, self.mem, self.fs, i as int);
                }
                entry.state = ProcState::Running;
                proof {
                    assert forall|j: int|
                        0 <= j < pre.remove(i as int).len() implies tables_disjoint(
                        entry.proc,
                        (#[trigger] pre.remove(i as int)[j]).proc,
                    ) by {
                        lemma_disjoint_congruence(
                            pre[i as int].proc,
                            pre.remove(i as int)[j].proc,
                            entry.proc,
                            pre.remove(i as int)[j].proc,
                        );
                    }
                }
                let ghost e1 = entry;
                self.procs.insert(i, entry);
                proof {
                    lemma_procs_ok_insert(pre.remove(i as int), self.mem, self.fs, i as int, e1);
                    assert(self.procs@ =~= pre.update(i as int, e1));
                }
            }
            i = i + 1;
        }
    }
}


pub open spec fn wrap32_add(a: u32, b: u32) -> u32 {
    if a + b > 0xFFFF_FFFF {
        (a + b - 0x1_0000_0000) as u32
    } else {
        (a + b) as u32
    }
}

proof fn lemma_disjoint_symmetric(a: Proc, b: Proc)
    requires
        tables_disjoint(a, b),
    ensures
        tables_disjoint(b, a),
{
}

} // verus!
