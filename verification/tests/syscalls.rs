use chip8_runtime::kernel::{Kernel, ProcState};
use chip8_runtime::proc::Proc;
use chip8_runtime::sandbox::{FsKind, FsNode, SandboxFs};
use chip8_runtime::shared_memory::SharedMemory;
use chip8_runtime::syscall::SyscallOutcome;

fn make_kernel(nodes: Vec<FsNode>) -> Kernel {
    let mem = SharedMemory::new().unwrap();
    let mut kernel = Kernel::new(mem, SandboxFs { nodes }).unwrap();
    kernel.register_base_syscalls().unwrap();
    kernel
}

fn file_node(name: &[u8], data: Vec<u8>) -> FsNode {
    FsNode { path: vec![name.to_vec()], kind: FsKind::File, data }
}

fn dir_node(name: &[u8]) -> FsNode {
    FsNode { path: vec![name.to_vec()], kind: FsKind::Dir, data: Vec::new() }
}

fn write_opcode(kernel: &mut Kernel, pid: u32, addr: u16, opcode: u16) {
    let i = kernel.proc_index(pid).unwrap();
    let hi = (opcode >> 8) as u8;
    let lo = opcode as u8;
    let data = vec![hi, lo];
    let proc: &Proc = &kernel.procs[i].proc;
    proc.write_bytes(&mut kernel.mem, addr as u32, &data).unwrap();
}

fn write_frame(kernel: &mut Kernel, pid: u32, base: u16, args: &[u16]) {
    let i = kernel.proc_index(pid).unwrap();
    let len = 1 + args.len() * 2;
    let mut data = Vec::with_capacity(len);
    data.push(len as u8);
    for arg in args {
        data.push((arg >> 8) as u8);
        data.push(*arg as u8);
    }
    let proc: &Proc = &kernel.procs[i].proc;
    proc.write_bytes(&mut kernel.mem, base as u32, &data).unwrap();
}

fn write_guest(kernel: &mut Kernel, pid: u32, addr: u16, data: &[u8]) {
    let i = kernel.proc_index(pid).unwrap();
    let proc: &Proc = &kernel.procs[i].proc;
    proc.write_bytes(&mut kernel.mem, addr as u32, data).unwrap();
}

fn read_guest(kernel: &Kernel, pid: u32, addr: u16, len: usize) -> Vec<u8> {
    let i = kernel.proc_index(pid).unwrap();
    kernel.procs[i].proc.read_bytes(&kernel.mem, addr as u32, len).unwrap()
}

fn set_reg_i(kernel: &mut Kernel, pid: u32, value: u16) {
    let i = kernel.proc_index(pid).unwrap();
    kernel.procs[i].proc.regs.I = value;
}

fn pc_of(kernel: &Kernel, pid: u32) -> u16 {
    let i = kernel.proc_index(pid).unwrap();
    kernel.procs[i].proc.regs.PC
}

fn v_reg(kernel: &Kernel, pid: u32, r: usize) -> u8 {
    let i = kernel.proc_index(pid).unwrap();
    kernel.procs[i].proc.regs.V[r]
}

fn set_input_mode(kernel: &mut Kernel, pid: u32, mode: u16) {
    write_frame(kernel, pid, 0x360, &[mode]);
    set_reg_i(kernel, pid, 0x360);
    let pc = pc_of(kernel, pid);
    write_opcode(kernel, pid, pc, 0x0112);
    let outcome = kernel.step_proc(pid).unwrap();
    assert_eq!(outcome, SyscallOutcome::Completed);
}

fn set_console_mode(kernel: &mut Kernel, pid: u32, mode: u16) {
    write_frame(kernel, pid, 0x370, &[mode]);
    set_reg_i(kernel, pid, 0x370);
    let pc = pc_of(kernel, pid);
    write_opcode(kernel, pid, pc, 0x0113);
    let outcome = kernel.step_proc(pid).unwrap();
    assert_eq!(outcome, SyscallOutcome::Completed);
}

const MAX_FILENAME_LEN: usize = 64;
const DIR_ENTRY_SIZE: usize = 1 + MAX_FILENAME_LEN + 1 + 4;

fn read_dir_entries(kernel: &Kernel, pid: u32, base: u16, count: usize) -> Vec<(String, u8, u32)> {
    let mut entries = Vec::new();
    for idx in 0..count {
        let addr = base + (idx * DIR_ENTRY_SIZE) as u16;
        let name_len = read_guest(kernel, pid, addr, 1)[0] as usize;
        let name_bytes = read_guest(kernel, pid, addr + 1, name_len);
        let name = String::from_utf8_lossy(&name_bytes).to_string();
        let kind = read_guest(kernel, pid, addr + 1 + MAX_FILENAME_LEN as u16, 1)[0];
        let size_bytes = read_guest(kernel, pid, addr + 1 + MAX_FILENAME_LEN as u16 + 1, 4);
        let size =
            u32::from_be_bytes([size_bytes[0], size_bytes[1], size_bytes[2], size_bytes[3]]);
        entries.push((name, kind, size));
    }
    entries
}

#[test]
fn sys_write_sets_v0_and_vf() {
    let mut kernel = make_kernel(Vec::new());
    let pid = kernel.spawn_proc(1).unwrap();

    write_guest(&mut kernel, pid, 0x320, &[0x41]);
    write_frame(&mut kernel, pid, 0x300, &[0x0320, 1]);
    set_reg_i(&mut kernel, pid, 0x300);
    write_opcode(&mut kernel, pid, 0x200, 0x0110);

    let outcome = kernel.step_proc(pid).unwrap();
    assert_eq!(outcome, SyscallOutcome::Completed);

    assert_eq!(v_reg(&kernel, pid, 0), 1);
    assert_eq!(v_reg(&kernel, pid, 0xF), 0);
    assert_eq!(kernel.host_output, vec![0x41]);
}

#[test]
fn sys_read_copies_input() {
    let mut kernel = make_kernel(Vec::new());
    let pid = kernel.spawn_proc(1).unwrap();

    set_input_mode(&mut kernel, pid, 1);

    write_frame(&mut kernel, pid, 0x300, &[0x0340, 2]);
    set_reg_i(&mut kernel, pid, 0x300);
    let pc = pc_of(&kernel, pid);
    write_opcode(&mut kernel, pid, pc, 0x0111);

    kernel.push_input(b"ok");
    let outcome = kernel.step_proc(pid).unwrap();
    assert_eq!(outcome, SyscallOutcome::Completed);

    assert_eq!(read_guest(&kernel, pid, 0x340, 2), b"ok".to_vec());
    assert_eq!(v_reg(&kernel, pid, 0), 2);
    assert_eq!(v_reg(&kernel, pid, 0xF), 0);
}

#[test]
fn sys_read_line_blocks_until_newline() {
    let mut kernel = make_kernel(Vec::new());
    let pid = kernel.spawn_proc(1).unwrap();

    write_frame(&mut kernel, pid, 0x300, &[0x0340, 4]);
    set_reg_i(&mut kernel, pid, 0x300);
    let pc = pc_of(&kernel, pid);
    write_opcode(&mut kernel, pid, pc, 0x0111);

    kernel.push_input(b"hi");
    let outcome = kernel.step_proc(pid).unwrap();
    assert_eq!(outcome, SyscallOutcome::Blocked);
    assert_eq!(kernel.proc_state(pid), Some(ProcState::Blocked));

    kernel.push_input(b"\n");
    assert_eq!(kernel.proc_state(pid), Some(ProcState::Running));
    assert_eq!(read_guest(&kernel, pid, 0x340, 3), b"hi\n".to_vec());
    assert_eq!(v_reg(&kernel, pid, 0), 3);
    assert_eq!(v_reg(&kernel, pid, 0xF), 0);
}

#[test]
fn sys_read_rejects_invalid_buffer() {
    let mut kernel = make_kernel(Vec::new());
    let pid = kernel.spawn_proc(1).unwrap();

    set_input_mode(&mut kernel, pid, 1);

    write_frame(&mut kernel, pid, 0x300, &[0x2000, 1]);
    set_reg_i(&mut kernel, pid, 0x300);
    let pc = pc_of(&kernel, pid);
    write_opcode(&mut kernel, pid, pc, 0x0111);

    kernel.push_input(b"z");
    let outcome = kernel.step_proc(pid).unwrap();
    assert_eq!(outcome, SyscallOutcome::Completed);
    assert_eq!(v_reg(&kernel, pid, 0), 0x02);
    assert_eq!(v_reg(&kernel, pid, 0xF), 1);
}

#[test]
fn sys_read_console_uses_console_input() {
    let mut kernel = make_kernel(Vec::new());
    let pid = kernel.spawn_proc(1).unwrap();

    set_console_mode(&mut kernel, pid, 1);
    set_input_mode(&mut kernel, pid, 1);

    write_frame(&mut kernel, pid, 0x300, &[0x0340, 2]);
    set_reg_i(&mut kernel, pid, 0x300);
    let pc = pc_of(&kernel, pid);
    write_opcode(&mut kernel, pid, pc, 0x0111);

    kernel.push_console_input(pid, &b"ok".to_vec());
    let outcome = kernel.step_proc(pid).unwrap();
    assert_eq!(outcome, SyscallOutcome::Completed);

    assert_eq!(read_guest(&kernel, pid, 0x340, 2), b"ok".to_vec());
    assert_eq!(v_reg(&kernel, pid, 0), 2);
    assert_eq!(v_reg(&kernel, pid, 0xF), 0);
}

#[test]
fn sys_write_console_updates_display() {
    let mut kernel = make_kernel(Vec::new());
    let pid = kernel.spawn_proc(1).unwrap();

    set_console_mode(&mut kernel, pid, 1);

    write_guest(&mut kernel, pid, 0x320, b"a");
    write_frame(&mut kernel, pid, 0x300, &[0x0320, 1]);
    set_reg_i(&mut kernel, pid, 0x300);
    let pc = pc_of(&kernel, pid);
    write_opcode(&mut kernel, pid, pc, 0x0110);

    let outcome = kernel.step_proc(pid).unwrap();
    assert_eq!(outcome, SyscallOutcome::Completed);

    let i = kernel.proc_index(pid).unwrap();
    assert_eq!(kernel.procs[i].proc.display.text_out, b"a".to_vec());
}

#[test]
fn sys_wait_unblocks_on_exit() {
    let mut kernel = make_kernel(Vec::new());

    let pid_target = kernel.spawn_proc(1).unwrap();
    let pid_waiter = kernel.spawn_proc(1).unwrap();

    write_frame(&mut kernel, pid_waiter, 0x300, &[pid_target as u16]);
    set_reg_i(&mut kernel, pid_waiter, 0x300);
    write_opcode(&mut kernel, pid_waiter, 0x200, 0x0103);

    let outcome = kernel.step_proc(pid_waiter).unwrap();
    assert_eq!(outcome, SyscallOutcome::Blocked);
    assert_eq!(kernel.proc_state(pid_waiter), Some(ProcState::Blocked));

    write_frame(&mut kernel, pid_target, 0x320, &[0x002A]);
    set_reg_i(&mut kernel, pid_target, 0x320);
    write_opcode(&mut kernel, pid_target, 0x200, 0x0102);

    let _ = kernel.step_proc(pid_target).unwrap();
    assert_eq!(kernel.proc_state(pid_target), Some(ProcState::Exited));
    assert_eq!(kernel.proc_state(pid_waiter), Some(ProcState::Running));

    assert_eq!(v_reg(&kernel, pid_waiter, 0), 0x2A);
    assert_eq!(v_reg(&kernel, pid_waiter, 0xF), 0);
}

#[test]
fn sys_spawn_creates_process() {
    let mut kernel = make_kernel(vec![file_node(b"child.ch8", vec![0x01, 0x02])]);
    let pid = kernel.spawn_proc(1).unwrap();

    write_guest(&mut kernel, pid, 0x340, b"child.ch8");
    write_frame(&mut kernel, pid, 0x300, &[0x0340, 9, 1]);
    set_reg_i(&mut kernel, pid, 0x300);
    write_opcode(&mut kernel, pid, 0x200, 0x0101);

    let outcome = kernel.step_proc(pid).unwrap();
    assert_eq!(outcome, SyscallOutcome::Completed);

    assert_eq!(v_reg(&kernel, pid, 0xF), 0);
    let child_pid = v_reg(&kernel, pid, 0) as u32;
    assert!(kernel.proc_index(child_pid).is_some());
}

#[test]
fn sys_spawn_pages_are_disjoint_from_parent() {
    let mut kernel = make_kernel(vec![file_node(b"child.ch8", vec![0x01, 0x02])]);
    let pid = kernel.spawn_proc(2).unwrap();

    write_guest(&mut kernel, pid, 0x340, b"child.ch8");
    write_frame(&mut kernel, pid, 0x300, &[0x0340, 9, 2]);
    set_reg_i(&mut kernel, pid, 0x300);
    write_opcode(&mut kernel, pid, 0x200, 0x0101);

    let outcome = kernel.step_proc(pid).unwrap();
    assert_eq!(outcome, SyscallOutcome::Completed);
    let child_pid = v_reg(&kernel, pid, 0) as u32;

    let pi = kernel.proc_index(pid).unwrap();
    let ci = kernel.proc_index(child_pid).unwrap();
    for pb in kernel.procs[pi].proc.page_table.iter() {
        for cb in kernel.procs[ci].proc.page_table.iter() {
            assert_ne!(pb, cb);
        }
    }
    assert_eq!(kernel.procs[ci].state, ProcState::Running);
}

#[test]
fn sys_spawn_missing_rom_reports_io_error() {
    let mut kernel = make_kernel(Vec::new());
    let pid = kernel.spawn_proc(1).unwrap();

    write_guest(&mut kernel, pid, 0x340, b"missing.ch8");
    write_frame(&mut kernel, pid, 0x300, &[0x0340, 11, 1]);
    set_reg_i(&mut kernel, pid, 0x300);
    write_opcode(&mut kernel, pid, 0x200, 0x0101);

    let outcome = kernel.step_proc(pid).unwrap();
    assert_eq!(outcome, SyscallOutcome::Completed);
    assert_eq!(v_reg(&kernel, pid, 0), 0x03);
    assert_eq!(v_reg(&kernel, pid, 0xF), 1);
}

#[test]
fn sys_fs_list_reads_root_entries() {
    let mut kernel = make_kernel(vec![file_node(b"a.ch8", vec![1, 2, 3]), dir_node(b"subdir")]);
    let pid = kernel.spawn_proc(1).unwrap();

    write_frame(&mut kernel, pid, 0x300, &[0x0000, 0, 0x0400, 10]);
    set_reg_i(&mut kernel, pid, 0x300);
    let pc = pc_of(&kernel, pid);
    write_opcode(&mut kernel, pid, pc, 0x0120);

    let outcome = kernel.step_proc(pid).unwrap();
    assert_eq!(outcome, SyscallOutcome::Completed);

    assert_eq!(v_reg(&kernel, pid, 0xF), 0);
    let count = v_reg(&kernel, pid, 0) as usize;
    let entries = read_dir_entries(&kernel, pid, 0x0400, count);
    assert!(entries.iter().any(|(n, k, s)| n == "a.ch8" && *k == 0 && *s == 3));
    assert!(entries.iter().any(|(n, k, _)| n == "subdir" && *k == 1));
}

#[test]
fn sys_fs_open_read_close_roundtrip() {
    let mut kernel = make_kernel(vec![file_node(b"hello.txt", b"hello".to_vec())]);
    let pid = kernel.spawn_proc(1).unwrap();

    write_guest(&mut kernel, pid, 0x340, b"hello.txt");
    write_frame(&mut kernel, pid, 0x300, &[0x0340, 9, 0]);
    set_reg_i(&mut kernel, pid, 0x300);
    let pc = pc_of(&kernel, pid);
    write_opcode(&mut kernel, pid, pc, 0x0121);

    let outcome = kernel.step_proc(pid).unwrap();
    assert_eq!(outcome, SyscallOutcome::Completed);
    let fd = v_reg(&kernel, pid, 0);
    assert_ne!(fd, 0);

    write_frame(&mut kernel, pid, 0x320, &[fd as u16, 0x0500, 5]);
    set_reg_i(&mut kernel, pid, 0x320);
    let pc = pc_of(&kernel, pid);
    write_opcode(&mut kernel, pid, pc, 0x0122);

    let outcome = kernel.step_proc(pid).unwrap();
    assert_eq!(outcome, SyscallOutcome::Completed);
    assert_eq!(read_guest(&kernel, pid, 0x0500, 5), b"hello".to_vec());
    assert_eq!(v_reg(&kernel, pid, 0), 5);

    write_frame(&mut kernel, pid, 0x340, &[fd as u16]);
    set_reg_i(&mut kernel, pid, 0x340);
    let pc = pc_of(&kernel, pid);
    write_opcode(&mut kernel, pid, pc, 0x0123);
    let outcome = kernel.step_proc(pid).unwrap();
    assert_eq!(outcome, SyscallOutcome::Completed);
    assert_eq!(v_reg(&kernel, pid, 0xF), 0);
}

#[test]
fn sys_fs_close_unknown_descriptor_is_not_found() {
    let mut kernel = make_kernel(Vec::new());
    let pid = kernel.spawn_proc(1).unwrap();

    write_frame(&mut kernel, pid, 0x300, &[7]);
    set_reg_i(&mut kernel, pid, 0x300);
    write_opcode(&mut kernel, pid, 0x200, 0x0123);
    let outcome = kernel.step_proc(pid).unwrap();
    assert_eq!(outcome, SyscallOutcome::Completed);
    assert_eq!(v_reg(&kernel, pid, 0), 0x04);
    assert_eq!(v_reg(&kernel, pid, 0xF), 1);
}

#[test]
fn sys_input_mode_rejects_unknown_mode() {
    let mut kernel = make_kernel(Vec::new());
    let pid = kernel.spawn_proc(1).unwrap();

    write_frame(&mut kernel, pid, 0x300, &[9]);
    set_reg_i(&mut kernel, pid, 0x300);
    write_opcode(&mut kernel, pid, 0x200, 0x0112);
    let outcome = kernel.step_proc(pid).unwrap();
    assert_eq!(outcome, SyscallOutcome::Completed);
    assert_eq!(v_reg(&kernel, pid, 0), 0x02);
    assert_eq!(v_reg(&kernel, pid, 0xF), 1);
}

#[test]
fn unknown_syscall_id_sets_dispatch_error() {
    let mut kernel = make_kernel(Vec::new());
    let pid = kernel.spawn_proc(1).unwrap();

    write_opcode(&mut kernel, pid, 0x200, 0x01FF);
    let outcome = kernel.step_proc(pid).unwrap();
    assert_eq!(outcome, SyscallOutcome::Completed);
    assert_eq!(v_reg(&kernel, pid, 0), 0x01);
    assert_eq!(v_reg(&kernel, pid, 0xF), 1);
    assert_eq!(pc_of(&kernel, pid), 0x202);
}

#[test]
fn sys_yield_returns_yielded() {
    let mut kernel = make_kernel(Vec::new());
    let pid = kernel.spawn_proc(1).unwrap();

    write_frame(&mut kernel, pid, 0x300, &[]);
    set_reg_i(&mut kernel, pid, 0x300);
    write_opcode(&mut kernel, pid, 0x200, 0x0104);
    let outcome = kernel.step_proc(pid).unwrap();
    assert_eq!(outcome, SyscallOutcome::Yielded);
    assert_eq!(v_reg(&kernel, pid, 0xF), 0);
}

#[test]
fn kernel_rejects_snapshot_with_symlink() {
    let mem = SharedMemory::new().unwrap();
    let nodes = vec![FsNode {
        path: vec![b"link".to_vec()],
        kind: FsKind::Symlink,
        data: Vec::new(),
    }];
    assert!(Kernel::new(mem, SandboxFs { nodes }).is_err());
}

#[test]
fn kernel_rejects_over_long_names() {
    let mem = SharedMemory::new().unwrap();
    let long = vec![b'x'; 65];
    let nodes = vec![FsNode { path: vec![long], kind: FsKind::File, data: Vec::new() }];
    assert!(Kernel::new(mem, SandboxFs { nodes }).is_err());
}

#[test]
fn sys_fs_open_directory_is_an_error() {
    let mut kernel = make_kernel(vec![dir_node(b"subdir")]);
    let pid = kernel.spawn_proc(1).unwrap();

    write_guest(&mut kernel, pid, 0x340, b"subdir");
    write_frame(&mut kernel, pid, 0x300, &[0x0340, 6, 0]);
    set_reg_i(&mut kernel, pid, 0x300);
    write_opcode(&mut kernel, pid, 0x200, 0x0121);
    let outcome = kernel.step_proc(pid).unwrap();
    assert_eq!(outcome, SyscallOutcome::Completed);
    assert_eq!(v_reg(&kernel, pid, 0), 0x06);
    assert_eq!(v_reg(&kernel, pid, 0xF), 1);
}

#[test]
fn sys_fs_list_on_a_file_is_not_a_directory() {
    let mut kernel = make_kernel(vec![file_node(b"a.txt", b"x".to_vec())]);
    let pid = kernel.spawn_proc(1).unwrap();

    write_guest(&mut kernel, pid, 0x340, b"a.txt");
    write_frame(&mut kernel, pid, 0x300, &[0x0340, 5, 0x0400, 10]);
    set_reg_i(&mut kernel, pid, 0x300);
    write_opcode(&mut kernel, pid, 0x200, 0x0120);
    let outcome = kernel.step_proc(pid).unwrap();
    assert_eq!(outcome, SyscallOutcome::Completed);
    assert_eq!(v_reg(&kernel, pid, 0), 0x05);
    assert_eq!(v_reg(&kernel, pid, 0xF), 1);
}

#[test]
fn sys_fs_open_runs_out_of_descriptors() {
    let mut kernel = make_kernel(vec![file_node(b"a.txt", b"x".to_vec())]);
    let pid = kernel.spawn_proc(1).unwrap();

    for _ in 0..32 {
        write_guest(&mut kernel, pid, 0x340, b"a.txt");
        write_frame(&mut kernel, pid, 0x300, &[0x0340, 5, 0]);
        set_reg_i(&mut kernel, pid, 0x300);
        let pc = pc_of(&kernel, pid);
        write_opcode(&mut kernel, pid, pc, 0x0121);
        let outcome = kernel.step_proc(pid).unwrap();
        assert_eq!(outcome, SyscallOutcome::Completed);
        assert_eq!(v_reg(&kernel, pid, 0xF), 0);
    }
    write_frame(&mut kernel, pid, 0x300, &[0x0340, 5, 0]);
    set_reg_i(&mut kernel, pid, 0x300);
    let pc = pc_of(&kernel, pid);
    write_opcode(&mut kernel, pid, pc, 0x0121);
    let outcome = kernel.step_proc(pid).unwrap();
    assert_eq!(outcome, SyscallOutcome::Completed);
    assert_eq!(v_reg(&kernel, pid, 0), 0x08);
    assert_eq!(v_reg(&kernel, pid, 0xF), 1);
}

#[test]
fn step_proc_unknown_pid_is_not_found() {
    let mut kernel = make_kernel(Vec::new());
    assert!(kernel.step_proc(42).is_err());
}

#[test]
fn key_wait_resumes_on_the_next_pass_when_a_key_is_held() {
    let mut kernel = make_kernel(Vec::new());
    let pid = kernel.spawn_proc(1).unwrap();

    write_opcode(&mut kernel, pid, 0x200, 0xF20A);
    let outcome = kernel.step_proc(pid).unwrap();
    assert_eq!(outcome, SyscallOutcome::Blocked);
    assert_eq!(kernel.proc_state(pid), Some(ProcState::Blocked));

    let i = kernel.proc_index(pid).unwrap();
    kernel.procs[i].proc.display.key_down[0x5] = true;
    let ran = kernel.run_pass(4).unwrap();
    assert!(ran);
    assert_eq!(v_reg(&kernel, pid, 2), 0x5);
}

#[test]
fn fs_paths_with_parent_components_are_rejected() {
    let mut kernel = make_kernel(vec![file_node(b"a.txt", b"x".to_vec())]);
    let pid = kernel.spawn_proc(1).unwrap();

    write_guest(&mut kernel, pid, 0x340, b"../a.txt");
    write_frame(&mut kernel, pid, 0x300, &[0x0340, 8, 0]);
    set_reg_i(&mut kernel, pid, 0x300);
    write_opcode(&mut kernel, pid, 0x200, 0x0121);
    let outcome = kernel.step_proc(pid).unwrap();
    assert_eq!(outcome, SyscallOutcome::Completed);
    assert_eq!(v_reg(&kernel, pid, 0), 0x09);
    assert_eq!(v_reg(&kernel, pid, 0xF), 1);
}
