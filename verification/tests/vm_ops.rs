use stride_kernel::flags::VmFlags;
use stride_kernel::vm::{AddressSpace, MapError};

fn rv() -> VmFlags {
    VmFlags {
        valid: true,
        readable: true,
        writable: false,
        executable: false,
        user: false,
        global: false,
        owned: false,
    }
}

fn wv() -> VmFlags {
    VmFlags {
        valid: true,
        readable: false,
        writable: true,
        executable: false,
        user: false,
        global: false,
        owned: false,
    }
}

fn none() -> VmFlags {
    VmFlags {
        valid: false,
        readable: false,
        writable: false,
        executable: false,
        user: false,
        global: false,
        owned: false,
    }
}

#[test]
fn map_and_translate_permissions() {
    let mut s = AddressSpace::new(1);
    let data: Vec<u8> = vec![1, 2, 3, 4];
    // Map two pages, readable but not writable.
    let f = VmFlags {
        valid: true,
        readable: true,
        writable: false,
        executable: false,
        user: true,
        global: false,
        owned: false,
    };
    assert_eq!(s.map(0x10, 0x12, &data, 0, f), Ok(()));
    // Translation succeeds iff the page is mapped and the flags are
    // a superset of the required ones.
    assert!(s.translate(0x10000, rv()).is_some());
    assert!(s.translate(0x11fff, rv()).is_some());
    assert!(s.translate(0x10000, wv()).is_none());
    assert!(s.translate(0x12000, none()).is_none());
    assert!(s.translate(0x0fff, none()).is_none());
}

#[test]
fn map_rejects_overlap_and_bad_range() {
    let mut s = AddressSpace::new(1);
    let empty: Vec<u8> = Vec::new();
    let f = VmFlags {
        valid: true,
        readable: true,
        writable: true,
        executable: false,
        user: true,
        global: false,
        owned: false,
    };
    assert_eq!(s.map(0x10, 0x14, &empty, 0, f), Ok(()));
    assert_eq!(s.map(0x13, 0x15, &empty, 0, f), Err(MapError::Overlap));
    assert_eq!(s.map(0x20, 0x20, &empty, 0, f), Err(MapError::InvalidRange));
    let mut exhausted = AddressSpace::new(2);
    exhausted.next_ppn = 0x100000;
    assert_eq!(exhausted.map(0x10, 0x11, &empty, 0, f), Err(MapError::Exhausted));
}

#[test]
fn map_copies_bytes_and_zero_fills() {
    let mut s = AddressSpace::new(1);
    let data: Vec<u8> = vec![0xaa, 0xbb, 0xcc];
    let f = VmFlags {
        valid: true,
        readable: true,
        writable: true,
        executable: false,
        user: true,
        global: false,
        owned: false,
    };
    assert_eq!(s.map(0x10, 0x11, &data, 5, f), Ok(()));
    assert_eq!(s.read_byte(0x10000, rv()), Some(0));
    assert_eq!(s.read_byte(0x10005, rv()), Some(0xaa));
    assert_eq!(s.read_byte(0x10006, rv()), Some(0xbb));
    assert_eq!(s.read_byte(0x10007, rv()), Some(0xcc));
    assert_eq!(s.read_byte(0x10008, rv()), Some(0));
}

#[test]
fn write_byte_changes_exactly_one_byte() {
    let mut s = AddressSpace::new(1);
    let empty: Vec<u8> = Vec::new();
    let f = VmFlags {
        valid: true,
        readable: true,
        writable: true,
        executable: false,
        user: true,
        global: false,
        owned: false,
    };
    assert_eq!(s.map(0x10, 0x11, &empty, 0, f), Ok(()));
    assert!(s.write_byte(0x10010, 0x7f, wv()));
    assert_eq!(s.read_byte(0x10010, rv()), Some(0x7f));
    assert_eq!(s.read_byte(0x1000f, rv()), Some(0));
    assert_eq!(s.read_byte(0x10011, rv()), Some(0));
    // A write through missing permission bits is rejected.
    let ro = VmFlags {
        valid: true,
        readable: true,
        writable: false,
        executable: true,
        user: true,
        global: false,
        owned: false,
    };
    assert_eq!(s.map(0x20, 0x21, &empty, 0, ro), Ok(()));
    assert!(!s.write_byte(0x20000, 1, wv()));
    assert_eq!(s.read_byte(0x20000, rv()), Some(0));
}

#[test]
fn unmap_trims_and_splits_areas() {
    let mut s = AddressSpace::new(1);
    let empty: Vec<u8> = Vec::new();
    let f = VmFlags {
        valid: true,
        readable: true,
        writable: true,
        executable: false,
        user: true,
        global: false,
        owned: false,
    };
    assert_eq!(s.map(0x10, 0x16, &empty, 0, f), Ok(()));
    assert!(s.write_byte(0x10000, 9, wv()));
    assert!(s.write_byte(0x15fff, 8, wv()));
    // Cut the middle pages out of the area.
    s.unmap(0x12, 0x14);
    assert!(s.translate(0x10000, rv()).is_some());
    assert!(s.translate(0x12000, none()).is_none());
    assert!(s.translate(0x13fff, none()).is_none());
    assert!(s.translate(0x14000, rv()).is_some());
    // Bytes outside the cut keep their values.
    assert_eq!(s.read_byte(0x10000, rv()), Some(9));
    assert_eq!(s.read_byte(0x15fff, rv()), Some(8));
}

#[test]
fn clone_into_copies_contents_deeply() {
    let mut parent = AddressSpace::new(1);
    let data: Vec<u8> = vec![42];
    let f = VmFlags {
        valid: true,
        readable: true,
        writable: true,
        executable: false,
        user: true,
        global: false,
        owned: false,
    };
    assert_eq!(parent.map(0x10, 0x11, &data, 0, f), Ok(()));
    let mut child = AddressSpace::new(2);
    parent.clone_into(&mut child);
    assert_eq!(child.read_byte(0x10000, rv()), Some(42));
    // Writes in the child never change the parent, and vice versa.
    assert!(child.write_byte(0x10000, 77, wv()));
    assert_eq!(parent.read_byte(0x10000, rv()), Some(42));
    assert!(parent.write_byte(0x10000, 13, wv()));
    assert_eq!(child.read_byte(0x10000, rv()), Some(77));
}
