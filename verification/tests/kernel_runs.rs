use stride_kernel::context::ExecutionContext;
use stride_kernel::flags::VmFlags;
use stride_kernel::image::{Image, Segment, IMAGE_MACHINE_RISCV, IMAGE_TYPE_EXEC, SEGMENT_LOAD};
use stride_kernel::kernel::{Kernel, SchedulingEvent, TrapCause, ASID_LIMIT};
use stride_kernel::process::LoadError;
use stride_kernel::syscall::{
    SYSCALL_EXIT,
    SYSCALL_FORK,
    SYSCALL_MMAP,
    SYSCALL_TRACE,
    SYSCALL_WAIT,
    SYSCALL_WRITE,
};

const HELLO: &[u8] = b"Hello, world!\n";

fn rv() -> VmFlags {
    VmFlags {
        valid: true,
        readable: true,
        writable: false,
        executable: false,
        user: false,
        global: false,
        owned: false,
    }
}

fn seg(vaddr: usize, data: &[u8], mem_size: usize, w: bool, x: bool) -> Segment {
    Segment {
        kind: SEGMENT_LOAD,
        vaddr,
        mem_size,
        file_offset: vaddr,
        data: data.to_vec(),
        readable: true,
        writable: w,
        executable: x,
    }
}

/// An image whose first segment holds the greeting read-only at
/// 0x10000 and whose second is a writable page at 0x20000.
fn hello_image() -> Image {
    Image {
        class64: true,
        etype: IMAGE_TYPE_EXEC,
        machine: IMAGE_MACHINE_RISCV,
        entry: 0x10000,
        segments: vec![
            seg(0x10000, HELLO, HELLO.len(), false, true),
            seg(0x20000, &[], 4096, true, false),
        ],
    }
}

fn syscall_ctx(pc: usize, id: usize, args: [usize; 3]) -> ExecutionContext {
    ExecutionContext { regs: [args[0], args[1], args[2], 0, 0, 0, 0, id], sp: 0x40000000, pc }
}

fn proc_reg(k: &Kernel, pid: usize, reg: usize) -> usize {
    for t in k.pm.tasks.iter() {
        if t.pid == pid {
            return t.context.ctx.regs[reg];
        }
    }
    panic!("no such process");
}

#[test]
fn scenario_hello_world_output_and_clean_stop() {
    let mut k = Kernel::new(7);
    let img = hello_image();
    let pid = k.load_process(&img).unwrap();
    assert_eq!(pid, 0);
    let (p, fc) = k.find_next().unwrap();
    assert_eq!(p, 0);
    assert_eq!(fc.ctx.pc, 0x10000);
    // The program writes the greeting to standard output...
    let ev = k.on_trap(
        syscall_ctx(fc.ctx.pc, SYSCALL_WRITE, [1, 0x10000, HELLO.len()]),
        TrapCause::UserEnvCall,
        0,
    );
    assert!(matches!(ev, SchedulingEvent::Continue));
    assert_eq!(proc_reg(&k, 0, 0), HELLO.len());
    // ... and then exits cleanly.
    let (p, fc) = k.find_next().unwrap();
    assert_eq!(p, 0);
    let ev = k.on_trap(syscall_ctx(fc.ctx.pc, SYSCALL_EXIT, [0, 0, 0]), TrapCause::UserEnvCall, 0);
    assert!(matches!(ev, SchedulingEvent::Exit(0)));
    // The run loop finds nothing else to do, and the output channel
    // holds exactly the greeting.
    assert!(k.find_next().is_none());
    assert_eq!(k.output, HELLO.to_vec());
}

#[test]
fn scenario_fork_returns_twice_and_wait_reaps() {
    let mut k = Kernel::new(7);
    let img = hello_image();
    let parent = k.load_process(&img).unwrap();
    let (p, fc) = k.find_next().unwrap();
    assert_eq!(p, parent);
    // fork returns the child pid in the parent's continued flow...
    let ev = k.on_trap(syscall_ctx(fc.ctx.pc, SYSCALL_FORK, [0, 0, 0]), TrapCause::UserEnvCall, 0);
    assert!(matches!(ev, SchedulingEvent::Continue));
    let child = 1;
    assert_eq!(proc_reg(&k, parent, 0), child);
    // ... and zero in the child's own execution.
    assert_eq!(proc_reg(&k, child, 0), 0);
    // The child (stride 0) is selected next and exits with status 7.
    let (p, fc) = k.find_next().unwrap();
    assert_eq!(p, child);
    let ev = k.on_trap(syscall_ctx(fc.ctx.pc, SYSCALL_EXIT, [7, 0, 0]), TrapCause::UserEnvCall, 0);
    assert!(matches!(ev, SchedulingEvent::Exit(7)));
    // The parent's wait returns the child pid and writes 7 to the
    // caller-supplied status pointer.
    let (p, fc) = k.find_next().unwrap();
    assert_eq!(p, parent);
    let ev = k.on_trap(
        syscall_ctx(fc.ctx.pc, SYSCALL_WAIT, [child, 0x20000, 0]),
        TrapCause::UserEnvCall,
        0,
    );
    assert!(matches!(ev, SchedulingEvent::Continue));
    assert_eq!(proc_reg(&k, parent, 0), child);
    let status = k.read_user_bytes(parent, 0x20000, 4, rv()).unwrap();
    assert_eq!(status, vec![7, 0, 0, 0]);
    // The child is reaped: only the parent stays in the table.
    assert_eq!(k.pm.tasks.len(), 1);
    assert_eq!(k.pm.tasks[0].pid, parent);
}

#[test]
fn scenario_misaligned_mmap_rejected_without_change() {
    let mut k = Kernel::new(7);
    let img = hello_image();
    let pid = k.load_process(&img).unwrap();
    let areas_before = k.pm.tasks[0].address_space.areas.len();
    let (_, fc) = k.find_next().unwrap();
    let ev = k.on_trap(
        syscall_ctx(fc.ctx.pc, SYSCALL_MMAP, [0x30001, 4096, 3]),
        TrapCause::UserEnvCall,
        0,
    );
    assert!(matches!(ev, SchedulingEvent::Continue));
    // mmap with a non-page-aligned address returns -1 ...
    assert_eq!(proc_reg(&k, pid, 0) as isize, -1);
    // ... and leaves the set of mapped areas unchanged.
    assert_eq!(k.pm.tasks[0].address_space.areas.len(), areas_before);
}

#[test]
fn call_count_query_reports_exact_count() {
    let mut k = Kernel::new(7);
    let img = hello_image();
    let pid = k.load_process(&img).unwrap();
    // Invoke the write syscall exactly three times.
    for _ in 0..3 {
        let (_, fc) = k.find_next().unwrap();
        let ev = k.on_trap(
            syscall_ctx(fc.ctx.pc, SYSCALL_WRITE, [1, 0x10000, 1]),
            TrapCause::UserEnvCall,
            0,
        );
        assert!(matches!(ev, SchedulingEvent::Continue));
    }
    // The call-count query for the write id returns three.
    let (_, fc) = k.find_next().unwrap();
    let ev = k.on_trap(
        syscall_ctx(fc.ctx.pc, SYSCALL_TRACE, [2, SYSCALL_WRITE, 0]),
        TrapCause::UserEnvCall,
        0,
    );
    assert!(matches!(ev, SchedulingEvent::Continue));
    assert_eq!(proc_reg(&k, pid, 0), 3);
    // The query for the trace id observes itself as already counted.
    let (_, fc) = k.find_next().unwrap();
    k.on_trap(
        syscall_ctx(fc.ctx.pc, SYSCALL_TRACE, [2, SYSCALL_TRACE, 0]),
        TrapCause::UserEnvCall,
        0,
    );
    assert_eq!(proc_reg(&k, pid, 0), 2);
}

#[test]
fn fork_isolates_parent_and_child_memory() {
    let mut k = Kernel::new(7);
    let img = hello_image();
    let parent = k.load_process(&img).unwrap();
    let (_, fc) = k.find_next().unwrap();
    k.on_trap(syscall_ctx(fc.ctx.pc, SYSCALL_FORK, [0, 0, 0]), TrapCause::UserEnvCall, 0);
    let child = 1;
    // The child pokes a byte into its own writable page.
    let (p, fc) = k.find_next().unwrap();
    assert_eq!(p, child);
    let ev = k.on_trap(
        syscall_ctx(fc.ctx.pc, SYSCALL_TRACE, [1, 0x20000, 0xab]),
        TrapCause::UserEnvCall,
        0,
    );
    assert!(matches!(ev, SchedulingEvent::Continue));
    assert_eq!(proc_reg(&k, child, 0), 0);
    // The parent's value at the corresponding address is untouched.
    assert_eq!(k.read_user_bytes(parent, 0x20000, 1, rv()).unwrap(), vec![0]);
    assert_eq!(k.read_user_bytes(child, 0x20000, 1, rv()).unwrap(), vec![0xab]);
}

#[test]
fn unsupported_syscall_and_fault_kill_the_process() {
    let mut k = Kernel::new(7);
    let img = hello_image();
    let _ = k.load_process(&img).unwrap();
    let (_, fc) = k.find_next().unwrap();
    let ev = k.on_trap(syscall_ctx(fc.ctx.pc, 999, [0, 0, 0]), TrapCause::UserEnvCall, 0);
    assert!(matches!(ev, SchedulingEvent::UnsupportedSyscall(999)));
    assert_eq!(k.pm.tasks[0].exit_code, -2);
    assert!(k.find_next().is_none());

    let mut k2 = Kernel::new(7);
    let _ = k2.load_process(&hello_image()).unwrap();
    let (_, fc) = k2.find_next().unwrap();
    let ev = k2.on_trap(
        syscall_ctx(fc.ctx.pc, 0, [0, 0, 0]),
        TrapCause::Exception(13),
        0,
    );
    assert!(matches!(ev, SchedulingEvent::Fault));
    assert_eq!(k2.pm.tasks[0].exit_code, -3);
}

#[test]
fn timer_preempts_and_requeues() {
    let mut k = Kernel::new(7);
    let _ = k.load_process(&hello_image()).unwrap();
    let (_, fc) = k.find_next().unwrap();
    let ev = k.on_trap(syscall_ctx(fc.ctx.pc, 0, [0, 0, 0]), TrapCause::Timer, 0);
    assert!(matches!(ev, SchedulingEvent::Preempted));
    // The process is still ready and runs again.
    assert!(k.find_next().is_some());
}

#[test]
fn load_rejects_each_bad_image() {
    let mut k = Kernel::new(7);
    let mut bad_header = hello_image();
    bad_header.machine = 62;
    assert_eq!(k.load_process(&bad_header), Err(LoadError::BadHeader));

    let mut bad_seg = hello_image();
    bad_seg.segments[0].file_offset = 0x10001;
    assert_eq!(k.load_process(&bad_seg), Err(LoadError::BadSegment));

    let mut overlapping = hello_image();
    overlapping.segments[1].vaddr = 0x10800;
    overlapping.segments[1].file_offset = 0x10800;
    assert_eq!(k.load_process(&overlapping), Err(LoadError::Overlap));

    let mut spent = Kernel::new(7);
    spent.next_asid = ASID_LIMIT;
    assert_eq!(spent.load_process(&hello_image()), Err(LoadError::Exhausted));
}
