use stride_kernel::boot::{kernel_space, KernelRegion, KernelRegionKind};
use stride_kernel::flags::VmFlags;
use stride_kernel::vm::MapError;

fn layout() -> Vec<KernelRegion> {
    vec![
        KernelRegion { start: 0x1000, end: 0x3000, kind: KernelRegionKind::Text },
        KernelRegion { start: 0x3000, end: 0x4000, kind: KernelRegionKind::Rodata },
        KernelRegion { start: 0x4000, end: 0x6000, kind: KernelRegionKind::Data },
    ]
}

fn x_rv() -> VmFlags {
    VmFlags {
        valid: true,
        readable: true,
        writable: false,
        executable: true,
        user: false,
        global: false,
        owned: false,
    }
}

fn w_rv() -> VmFlags {
    VmFlags {
        valid: true,
        readable: true,
        writable: true,
        executable: false,
        user: false,
        global: false,
        owned: false,
    }
}

#[test]
fn kernel_space_maps_regions_identity() {
    let regions = layout();
    let s = kernel_space(&regions, 0x6000, 0x10000, 42, 0).unwrap();
    // Code is executable, identity-bound.
    assert_eq!(s.translate(0x1000, x_rv()), Some(0x1000));
    assert_eq!(s.translate(0x2abc, x_rv()), Some(0x2abc));
    // Read-only data refuses writes, data accepts them.
    assert!(s.translate(0x3000, w_rv()).is_none());
    assert_eq!(s.translate(0x4000, w_rv()), Some(0x4000));
    // The heap is writable and identity-bound.
    assert_eq!(s.translate(0x8123, w_rv()), Some(0x8123));
    // The portal page sits in the top virtual page over its frame.
    let portal_va = 0x7ffff * 4096;
    assert_eq!(s.translate(portal_va, w_rv()), Some(42 * 4096));
    // Unmapped addresses stay unmapped.
    assert!(s.translate(0x20000, x_rv()).is_none());
}

#[test]
fn kernel_space_rejects_overlapping_layouts() {
    let mut regions = layout();
    regions[1].start = 0x2800;
    assert!(matches!(
        kernel_space(&regions, 0x6000, 0x10000, 42, 0),
        Err(MapError::Overlap)
    ));
    // A heap overlapping a region is rejected too.
    assert!(matches!(
        kernel_space(&layout(), 0x5000, 0x10000, 42, 0),
        Err(MapError::Overlap)
    ));
    // An empty region is malformed.
    let mut bad = layout();
    bad[0].end = bad[0].start;
    assert!(matches!(
        kernel_space(&bad, 0x6000, 0x10000, 42, 0),
        Err(MapError::InvalidRange)
    ));
}
