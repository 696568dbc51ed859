use stride_kernel::context::ExecutionContext;
use stride_kernel::image::{Image, Segment, IMAGE_MACHINE_RISCV, IMAGE_TYPE_EXEC, SEGMENT_LOAD};
use stride_kernel::kernel::{Kernel, SchedulingEvent, TrapCause};
use stride_kernel::syscall::{
    SYSCALL_CLOCK_GETTIME,
    SYSCALL_GETPID,
    SYSCALL_SBRK,
    SYSCALL_SET_PRIORITY,
    SYSCALL_SPAWN,
};

fn flat_image() -> Image {
    Image {
        class64: true,
        etype: IMAGE_TYPE_EXEC,
        machine: IMAGE_MACHINE_RISCV,
        entry: 0x10000,
        segments: vec![Segment {
            kind: SEGMENT_LOAD,
            vaddr: 0x10000,
            mem_size: 4096,
            file_offset: 0x10000,
            data: vec![0u8; 16],
            readable: true,
            writable: true,
            executable: true,
        }],
    }
}

fn syscall_ctx(pc: usize, id: usize, args: [usize; 3]) -> ExecutionContext {
    ExecutionContext { regs: [args[0], args[1], args[2], 0, 0, 0, 0, id], sp: 0x40000000, pc }
}

fn proc_reg(k: &Kernel, pid: usize, reg: usize) -> usize {
    for t in k.pm.tasks.iter() {
        if t.pid == pid {
            return t.context.ctx.regs[reg];
        }
    }
    panic!("no such process");
}

#[test]
fn stride_selection_is_proportional_to_priority() {
    let mut k = Kernel::new(7);
    for _ in 0..3 {
        k.load_process(&flat_image()).unwrap();
    }
    // Weights 1, 2 and 3; every stride starts at zero.
    k.pm.tasks[0].priority = 1;
    k.pm.tasks[1].priority = 2;
    k.pm.tasks[2].priority = 3;
    let mut counts = [0usize; 3];
    let rounds = 600;
    for _ in 0..rounds {
        let pid = k.pm.fetch().unwrap();
        counts[pid] += 1;
        k.pm.add(pid);
    }
    // Selection frequency is proportional to priority within a
    // bounded error: shares of 1/6, 2/6 and 3/6 of the rounds.
    assert!((counts[0] as i64 - 100).abs() <= 3, "counts: {:?}", counts);
    assert!((counts[1] as i64 - 200).abs() <= 3, "counts: {:?}", counts);
    assert!((counts[2] as i64 - 300).abs() <= 3, "counts: {:?}", counts);
}

#[test]
fn fetch_returns_the_minimum_stride_first() {
    let mut k = Kernel::new(7);
    for _ in 0..2 {
        k.load_process(&flat_image()).unwrap();
    }
    k.pm.tasks[0].stride = 50;
    k.pm.tasks[1].stride = 10;
    assert_eq!(k.pm.fetch(), Some(1));
    // Ties go to the first queued occurrence.
    let mut k2 = Kernel::new(7);
    for _ in 0..2 {
        k2.load_process(&flat_image()).unwrap();
    }
    assert_eq!(k2.pm.fetch(), Some(0));
    assert_eq!(k2.pm.fetch(), Some(1));
    assert_eq!(k2.pm.fetch(), None);
}

#[test]
fn sbrk_zero_reports_break_and_round_trip_restores_it() {
    let mut k = Kernel::new(7);
    let pid = k.load_process(&flat_image()).unwrap();
    let brk0 = k.pm.tasks[0].program_brk;
    let areas0 = k.pm.tasks[0].address_space.areas.len();
    // sbrk(0) returns the current break and mutates no mapping.
    let (_, fc) = k.find_next().unwrap();
    k.on_trap(syscall_ctx(fc.ctx.pc, SYSCALL_SBRK, [0, 0, 0]), TrapCause::UserEnvCall, 0);
    assert_eq!(proc_reg(&k, pid, 0), brk0);
    assert_eq!(k.pm.tasks[0].address_space.areas.len(), areas0);
    // Growing by 8192 and shrinking by 8192 restores the break and
    // unmaps exactly the pages added.
    let (_, fc) = k.find_next().unwrap();
    k.on_trap(syscall_ctx(fc.ctx.pc, SYSCALL_SBRK, [8192, 0, 0]), TrapCause::UserEnvCall, 0);
    assert_eq!(proc_reg(&k, pid, 0), brk0);
    assert_eq!(k.pm.tasks[0].program_brk, brk0 + 8192);
    assert_eq!(k.pm.tasks[0].address_space.areas.len(), areas0 + 1);
    let (_, fc) = k.find_next().unwrap();
    let minus = (-8192i64) as usize;
    k.on_trap(syscall_ctx(fc.ctx.pc, SYSCALL_SBRK, [minus, 0, 0]), TrapCause::UserEnvCall, 0);
    assert_eq!(proc_reg(&k, pid, 0), brk0 + 8192);
    assert_eq!(k.pm.tasks[0].program_brk, brk0);
    assert_eq!(k.pm.tasks[0].address_space.areas.len(), areas0);
    // A break below the heap bottom is rejected without change.
    let (_, fc) = k.find_next().unwrap();
    let too_low = (-(4096i64 * 1024)) as usize;
    k.on_trap(syscall_ctx(fc.ctx.pc, SYSCALL_SBRK, [too_low, 0, 0]), TrapCause::UserEnvCall, 0);
    assert_eq!(proc_reg(&k, pid, 0) as isize, -1);
    assert_eq!(k.pm.tasks[0].program_brk, brk0);
}

#[test]
fn set_priority_validates_and_getpid_reports() {
    let mut k = Kernel::new(7);
    let pid = k.load_process(&flat_image()).unwrap();
    let (_, fc) = k.find_next().unwrap();
    k.on_trap(syscall_ctx(fc.ctx.pc, SYSCALL_SET_PRIORITY, [5, 0, 0]), TrapCause::UserEnvCall, 0);
    assert_eq!(proc_reg(&k, pid, 0), 5);
    assert_eq!(k.pm.tasks[0].priority, 5);
    let (_, fc) = k.find_next().unwrap();
    k.on_trap(syscall_ctx(fc.ctx.pc, SYSCALL_SET_PRIORITY, [0, 0, 0]), TrapCause::UserEnvCall, 0);
    assert_eq!(proc_reg(&k, pid, 0) as isize, -1);
    assert_eq!(k.pm.tasks[0].priority, 5);
    let (_, fc) = k.find_next().unwrap();
    k.on_trap(syscall_ctx(fc.ctx.pc, SYSCALL_GETPID, [0, 0, 0]), TrapCause::UserEnvCall, 0);
    assert_eq!(proc_reg(&k, pid, 0), pid);
    // spawn is reserved and always rejected.
    let (_, fc) = k.find_next().unwrap();
    k.on_trap(syscall_ctx(fc.ctx.pc, SYSCALL_SPAWN, [0, 0, 0]), TrapCause::UserEnvCall, 0);
    assert_eq!(proc_reg(&k, pid, 0) as isize, -1);
}

#[test]
fn clock_gettime_scales_ticks_exactly() {
    let mut k = Kernel::new(7);
    let pid = k.load_process(&flat_image()).unwrap();
    // 125 raw ticks scale to exactly 10000 nanoseconds.
    let (_, fc) = k.find_next().unwrap();
    let ev = k.on_trap(
        syscall_ctx(fc.ctx.pc, SYSCALL_CLOCK_GETTIME, [1, 0x10000, 0]),
        TrapCause::UserEnvCall,
        125,
    );
    assert!(matches!(ev, SchedulingEvent::Continue));
    assert_eq!(proc_reg(&k, pid, 0), 0);
    let req = stride_kernel::flags::VmFlags {
        valid: true,
        readable: true,
        writable: false,
        executable: false,
        user: false,
        global: false,
        owned: false,
    };
    let bytes = k.read_user_bytes(pid, 0x10000, 16, req).unwrap();
    // Seconds are zero; the nanoseconds word holds 10000.
    assert_eq!(&bytes[0..8], &[0, 0, 0, 0, 0, 0, 0, 0]);
    assert_eq!(&bytes[8..16], &[0x10, 0x27, 0, 0, 0, 0, 0, 0]);
    // Any clock but the monotonic one is rejected.
    let (_, fc) = k.find_next().unwrap();
    k.on_trap(
        syscall_ctx(fc.ctx.pc, SYSCALL_CLOCK_GETTIME, [0, 0x10000, 0]),
        TrapCause::UserEnvCall,
        125,
    );
    assert_eq!(proc_reg(&k, pid, 0) as isize, -1);
}

#[test]
fn read_consumes_queued_input() {
    let mut k = Kernel::new(7);
    let pid = k.load_process(&flat_image()).unwrap();
    for b in [10u8, 20, 30] {
        k.feed_input(b);
    }
    let (_, fc) = k.find_next().unwrap();
    k.on_trap(
        syscall_ctx(fc.ctx.pc, stride_kernel::syscall::SYSCALL_READ, [0, 0x10000, 2]),
        TrapCause::UserEnvCall,
        0,
    );
    assert_eq!(proc_reg(&k, pid, 0), 2);
    assert_eq!(k.input, vec![30]);
    let req = stride_kernel::flags::VmFlags {
        valid: true,
        readable: true,
        writable: false,
        executable: false,
        user: false,
        global: false,
        owned: false,
    };
    assert_eq!(k.read_user_bytes(pid, 0x10000, 2, req).unwrap(), vec![10, 20]);
    // Asking for more than is queued fails without consuming.
    let (_, fc) = k.find_next().unwrap();
    k.on_trap(
        syscall_ctx(fc.ctx.pc, stride_kernel::syscall::SYSCALL_READ, [0, 0x10000, 9]),
        TrapCause::UserEnvCall,
        0,
    );
    assert_eq!(proc_reg(&k, pid, 0) as isize, -1);
    assert_eq!(k.input, vec![30]);
}

#[test]
fn write_rejects_unknown_descriptors_and_bad_buffers() {
    let mut k = Kernel::new(7);
    let pid = k.load_process(&flat_image()).unwrap();
    let (_, fc) = k.find_next().unwrap();
    k.on_trap(
        syscall_ctx(fc.ctx.pc, stride_kernel::syscall::SYSCALL_WRITE, [5, 0x10000, 1]),
        TrapCause::UserEnvCall,
        0,
    );
    assert_eq!(proc_reg(&k, pid, 0) as isize, -1);
    let (_, fc) = k.find_next().unwrap();
    k.on_trap(
        syscall_ctx(fc.ctx.pc, stride_kernel::syscall::SYSCALL_WRITE, [1, 0x90000, 1]),
        TrapCause::UserEnvCall,
        0,
    );
    assert_eq!(proc_reg(&k, pid, 0) as isize, -1);
    assert_eq!(k.output.len(), 0);
}
