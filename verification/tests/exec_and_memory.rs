use stride_kernel::context::ExecutionContext;
use stride_kernel::flags::VmFlags;
use stride_kernel::image::{Image, Segment, IMAGE_MACHINE_RISCV, IMAGE_TYPE_EXEC, SEGMENT_LOAD};
use stride_kernel::kernel::{Kernel, SchedulingEvent, TrapCause};
use stride_kernel::syscall::{SYSCALL_EXEC, SYSCALL_MMAP, SYSCALL_MUNMAP, SYSCALL_TRACE};

fn image_with_text(entry: usize, text: &[u8]) -> Image {
    Image {
        class64: true,
        etype: IMAGE_TYPE_EXEC,
        machine: IMAGE_MACHINE_RISCV,
        entry,
        segments: vec![Segment {
            kind: SEGMENT_LOAD,
            vaddr: 0x10000,
            mem_size: 4096,
            file_offset: 0x10000,
            data: text.to_vec(),
            readable: true,
            writable: true,
            executable: true,
        }],
    }
}

fn syscall_ctx(pc: usize, id: usize, args: [usize; 3]) -> ExecutionContext {
    ExecutionContext { regs: [args[0], args[1], args[2], 0, 0, 0, 0, id], sp: 0x40000000, pc }
}

fn proc_reg(k: &Kernel, pid: usize, reg: usize) -> usize {
    for t in k.pm.tasks.iter() {
        if t.pid == pid {
            return t.context.ctx.regs[reg];
        }
    }
    panic!("no such process");
}

fn rv() -> VmFlags {
    VmFlags {
        valid: true,
        readable: true,
        writable: false,
        executable: false,
        user: false,
        global: false,
        owned: false,
    }
}

#[test]
fn exec_replaces_the_image_in_place() {
    let mut k = Kernel::new(3);
    // The caller's memory holds the name of the next program.
    let caller_img = image_with_text(0x10000, b"child");
    let pid = k.load_process(&caller_img).unwrap();
    k.register_app(b"child".to_vec(), image_with_text(0x18000, b"fresh"));
    let (_, fc) = k.find_next().unwrap();
    let ev = k.on_trap(
        syscall_ctx(fc.ctx.pc, SYSCALL_EXEC, [0x10000, 5, 0]),
        TrapCause::UserEnvCall,
        0,
    );
    assert!(matches!(ev, SchedulingEvent::Continue));
    // The same pid continues at the new entry point, with the new
    // image's bytes in place and a zero in the return register.
    let task = k.pm.tasks.iter().find(|t| t.pid == pid).unwrap();
    assert_eq!(task.context.ctx.pc, 0x18000);
    assert_eq!(proc_reg(&k, pid, 0), 0);
    assert_eq!(k.read_user_bytes(pid, 0x10000, 5, rv()).unwrap(), b"fresh".to_vec());
    // An unknown name is rejected without change.
    let (_, fc) = k.find_next().unwrap();
    k.on_trap(
        syscall_ctx(fc.ctx.pc, SYSCALL_EXEC, [0x10000, 5, 0]),
        TrapCause::UserEnvCall,
        0,
    );
    // The bytes at the name's address now read "fresh", which no
    // registered image carries.
    assert_eq!(proc_reg(&k, pid, 0) as isize, -1);
}

#[test]
fn mmap_and_munmap_round_trip() {
    let mut k = Kernel::new(3);
    let pid = k.load_process(&image_with_text(0x10000, b"x")).unwrap();
    // Map two pages read/write at a page-aligned address.
    let (_, fc) = k.find_next().unwrap();
    let ev = k.on_trap(
        syscall_ctx(fc.ctx.pc, SYSCALL_MMAP, [0x30000, 8192, 3]),
        TrapCause::UserEnvCall,
        0,
    );
    assert!(matches!(ev, SchedulingEvent::Continue));
    assert_eq!(proc_reg(&k, pid, 0), 0);
    assert_eq!(k.read_user_bytes(pid, 0x30000, 1, rv()).unwrap(), vec![0]);
    // Mapping over it again overlaps and is rejected.
    let (_, fc) = k.find_next().unwrap();
    k.on_trap(
        syscall_ctx(fc.ctx.pc, SYSCALL_MMAP, [0x31000, 4096, 1]),
        TrapCause::UserEnvCall,
        0,
    );
    assert_eq!(proc_reg(&k, pid, 0) as isize, -1);
    // Protection masks with no known bit, or stray high bits, are
    // invalid.
    let (_, fc) = k.find_next().unwrap();
    k.on_trap(
        syscall_ctx(fc.ctx.pc, SYSCALL_MMAP, [0x40000, 4096, 0]),
        TrapCause::UserEnvCall,
        0,
    );
    assert_eq!(proc_reg(&k, pid, 0) as isize, -1);
    let (_, fc) = k.find_next().unwrap();
    k.on_trap(
        syscall_ctx(fc.ctx.pc, SYSCALL_MMAP, [0x40000, 4096, 9]),
        TrapCause::UserEnvCall,
        0,
    );
    assert_eq!(proc_reg(&k, pid, 0) as isize, -1);
    // A partially covered range must not be unmapped.
    let (_, fc) = k.find_next().unwrap();
    k.on_trap(
        syscall_ctx(fc.ctx.pc, SYSCALL_MUNMAP, [0x30000, 3 * 4096, 0]),
        TrapCause::UserEnvCall,
        0,
    );
    assert_eq!(proc_reg(&k, pid, 0) as isize, -1);
    assert!(k.read_user_bytes(pid, 0x30000, 1, rv()).is_some());
    // The exact range unmaps cleanly.
    let (_, fc) = k.find_next().unwrap();
    k.on_trap(
        syscall_ctx(fc.ctx.pc, SYSCALL_MUNMAP, [0x30000, 8192, 0]),
        TrapCause::UserEnvCall,
        0,
    );
    assert_eq!(proc_reg(&k, pid, 0), 0);
    assert!(k.read_user_bytes(pid, 0x30000, 1, rv()).is_none());
}

#[test]
fn trace_peeks_and_pokes_user_bytes() {
    let mut k = Kernel::new(3);
    let pid = k.load_process(&image_with_text(0x10000, b"Q")).unwrap();
    // Peek the first byte of the loaded text.
    let (_, fc) = k.find_next().unwrap();
    k.on_trap(
        syscall_ctx(fc.ctx.pc, SYSCALL_TRACE, [0, 0x10000, 0]),
        TrapCause::UserEnvCall,
        0,
    );
    assert_eq!(proc_reg(&k, pid, 0), b'Q' as usize);
    // Poke the low byte of a larger value and read it back.
    let (_, fc) = k.find_next().unwrap();
    k.on_trap(
        syscall_ctx(fc.ctx.pc, SYSCALL_TRACE, [1, 0x10000, 0x1ff]),
        TrapCause::UserEnvCall,
        0,
    );
    assert_eq!(proc_reg(&k, pid, 0), 0);
    assert_eq!(k.read_user_bytes(pid, 0x10000, 1, rv()).unwrap(), vec![0xff]);
    // An address outside every mapping is rejected.
    let (_, fc) = k.find_next().unwrap();
    k.on_trap(
        syscall_ctx(fc.ctx.pc, SYSCALL_TRACE, [0, 0x70000, 0]),
        TrapCause::UserEnvCall,
        0,
    );
    assert_eq!(proc_reg(&k, pid, 0) as isize, -1);
    // Unknown requests are rejected.
    let (_, fc) = k.find_next().unwrap();
    k.on_trap(
        syscall_ctx(fc.ctx.pc, SYSCALL_TRACE, [9, 0, 0]),
        TrapCause::UserEnvCall,
        0,
    );
    assert_eq!(proc_reg(&k, pid, 0) as isize, -1);
}
