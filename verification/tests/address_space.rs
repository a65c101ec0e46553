use memory_set::area::MapArea;
use memory_set::frames::FrameAllocator;
use memory_set::image::ImageSegment;
use memory_set::memory_set::{kernel_stack_position, KernelLayout, MemorySet, FRAME_POOL_BASE};
use memory_set::page_table::PageTable;
use memory_set::types::{
    MapPermission, MapType, VirtAddr, KERNEL_STACK_SIZE, PAGE_SIZE, TRAMPOLINE, TRAMPOLINE_VPN,
    USER_STACK_SIZE,
};

#[test]
fn insert_framed_area_maps_with_permission() {
    let mut ms = MemorySet::new_bare();
    ms.insert_framed_area(
        VirtAddr(0x1000),
        VirtAddr(0x3000),
        MapPermission::new(true, true, false, false),
    );
    let e1 = ms.translate(0x1).expect("page 1 mapped");
    let e2 = ms.translate(0x2).expect("page 2 mapped");
    assert!(e1.is_valid() && e2.is_valid());
    assert!(e1.readable() && e1.writable());
    assert!(!e1.executable() && !e1.user_accessible());
    assert!(e2.readable() && e2.writable());
    assert!(!e2.executable() && !e2.user_accessible());
    // no two pages share a backing frame
    assert_ne!(e1.ppn(), e2.ppn());
    // exactly two pages
    assert!(ms.translate(0x0).is_none());
    assert!(ms.translate(0x3).is_none());
}

#[test]
fn mmap_munmap_round_trip() {
    let mut ms = MemorySet::new_bare();
    assert_eq!(ms.mmap(10, 12, 0x3), 0);
    let e = ms.translate(10).expect("mapped");
    assert!(e.readable() && e.writable() && !e.executable());
    assert!(e.user_accessible() && e.is_valid());
    // both pages' frames are recorded in the raw-mmap arena while mapped
    assert_eq!(ms.mmap_frames.len(), 2);
    assert_eq!(ms.munmap(10, 12), 0);
    assert!(ms.translate(10).is_none());
    assert!(ms.translate(11).is_none());
    // and released again by the unmapping
    assert!(ms.mmap_frames.is_empty());
}

#[test]
fn mmap_conflict_keeps_earlier_pages() {
    let mut ms = MemorySet::new_bare();
    assert_eq!(ms.mmap(11, 12, 0x1), 0);
    // page 11 is already mapped: the wider request fails...
    assert_eq!(ms.mmap(10, 13, 0x3), -1);
    // ...but the page mapped before the conflict stays mapped,
    assert!(ms.translate(10).is_some());
    // and pages after the conflict were never touched.
    assert!(ms.translate(12).is_none());
}

#[test]
fn munmap_unmapped_page_fails() {
    let mut ms = MemorySet::new_bare();
    assert_eq!(ms.munmap(10, 11), -1);
    assert_eq!(ms.mmap(10, 11, 0x1), 0);
    // page 11 was never mapped: unmapping [10, 12) fails after removing 10
    assert_eq!(ms.munmap(10, 12), -1);
    assert!(ms.translate(10).is_none());
}

#[test]
fn append_and_shrink_resize_a_segment() {
    let mut ms = MemorySet::new_bare();
    ms.insert_framed_area(
        VirtAddr(0x1000),
        VirtAddr(0x2000),
        MapPermission::new(true, true, false, false),
    );
    assert!(ms.translate(0x2).is_none());
    // grow [0x1, 0x2) to [0x1, 0x3): the new page carries the old permission
    assert!(ms.append_to(VirtAddr(0x1000), VirtAddr(0x3000)));
    let e = ms.translate(0x2).expect("grown page mapped");
    assert!(e.readable() && e.writable() && !e.executable());
    // shrink back: the dropped page translates to nothing
    assert!(ms.shrink_to(VirtAddr(0x1000), VirtAddr(0x2000)));
    assert!(ms.translate(0x2).is_none());
    assert!(ms.translate(0x1).is_some());
    // no segment starts at 0x4000
    assert!(!ms.append_to(VirtAddr(0x4000), VirtAddr(0x5000)));
    assert!(!ms.shrink_to(VirtAddr(0x4000), VirtAddr(0x4000)));
}

#[test]
fn copy_data_reads_back_and_zero_fills() {
    let mut pt = PageTable::new(0);
    let mut fa = FrameAllocator::new(100, 200);
    let mut area = MapArea::new(
        VirtAddr(0),
        VirtAddr(2 * PAGE_SIZE),
        MapType::Framed,
        MapPermission::new(true, true, false, false),
    );
    area.map(&mut pt, &mut fa);
    let mut data = vec![0u8; 4100];
    for i in 0..data.len() {
        data[i] = (i % 251) as u8;
    }
    area.copy_data(&pt, &mut fa, &data);
    for i in 0..(2 * PAGE_SIZE) {
        let vpn = i / PAGE_SIZE;
        let ppn = pt.translate(vpn).expect("page mapped").ppn();
        let b = fa.read_byte(ppn, i % PAGE_SIZE);
        if i < data.len() {
            assert_eq!(b, data[i]);
        } else {
            assert_eq!(b, 0);
        }
    }
}

#[test]
fn kernel_space_sections_identity_mapped() {
    let layout = KernelLayout {
        stext: 0x1000,
        etext: 0x2000,
        srodata: 0x2000,
        erodata: 0x3000,
        sdata: 0x3000,
        edata: 0x4000,
        sbss_with_stack: 0x4000,
        ebss: 0x5000,
        ekernel: 0x5000,
        memory_end: 0x6000,
        strampoline: 0x7000,
    };
    let ms = MemorySet::new_kernel(&layout);
    let text = ms.translate(0x1).expect("text mapped");
    assert_eq!(text.ppn(), 0x1);
    assert!(text.readable() && text.executable() && !text.writable());
    let rodata = ms.translate(0x2).expect("rodata mapped");
    assert_eq!(rodata.ppn(), 0x2);
    assert!(rodata.readable() && !rodata.writable() && !rodata.executable());
    let data = ms.translate(0x3).expect("data mapped");
    assert_eq!(data.ppn(), 0x3);
    assert!(data.writable() && !data.executable());
    let bss = ms.translate(0x4).expect("bss mapped");
    assert!(bss.writable() && !bss.executable());
    let phys = ms.translate(0x5).expect("physical memory mapped");
    assert_eq!(phys.ppn(), 0x5);
    assert!(phys.writable() && !phys.executable());
    let tramp = ms.translate(TRAMPOLINE_VPN).expect("trampoline mapped");
    assert_eq!(tramp.ppn(), 0x7);
    assert!(tramp.readable() && tramp.executable() && !tramp.writable());
    assert!(!tramp.user_accessible());
    assert!(ms.translate(0x6).is_none());
}

#[test]
fn from_image_lays_out_guard_stack_and_trap_context() {
    let segs = vec![
        ImageSegment {
            vaddr: 0xF000,
            mem_size: 0x1000,
            offset: 0,
            file_size: 0,
            readable: true,
            writable: false,
            executable: true,
        },
        ImageSegment {
            vaddr: 0x10000,
            mem_size: 0x2000,
            offset: 0,
            file_size: 0,
            readable: true,
            writable: true,
            executable: false,
        },
    ];
    let data: Vec<u8> = Vec::new();
    let (ms, stack_top, entry) = MemorySet::from_image(&segs, &data, 0x1234, 0x99);
    assert_eq!(entry, 0x1234);
    // segments in header order, then stack, zero-length heap, trap context
    assert_eq!(ms.areas.len(), 5);
    assert_eq!(ms.areas[2].vpn_start, 0x13);
    assert_eq!(ms.areas[3].vpn_start, ms.areas[3].vpn_end);
    assert!(ms.mmap_frames.is_empty());
    // one guard page above the highest segment end (page 0x12)...
    assert!(ms.translate(0x12).is_none());
    // ...then the stack: bottom at page 0x13, top = bottom + fixed size
    assert_eq!(stack_top, 0x13 * PAGE_SIZE + USER_STACK_SIZE);
    let sb = ms.translate(0x13).expect("stack bottom mapped");
    assert!(sb.readable() && sb.writable() && sb.user_accessible());
    assert!(ms.translate(0x14).is_some());
    assert!(ms.translate(0x15).is_none());
    // loaded segments carry their own flags plus user access
    let code = ms.translate(0xF).expect("code mapped");
    assert!(code.readable() && code.executable() && !code.writable());
    assert!(code.user_accessible());
    let dat = ms.translate(0x11).expect("data mapped");
    assert!(dat.readable() && dat.writable() && !dat.executable());
    // trap context page just below the trampoline, kernel-only
    let ctx = ms.translate(TRAMPOLINE_VPN - 1).expect("trap context mapped");
    assert!(ctx.readable() && ctx.writable() && !ctx.user_accessible());
    let tramp = ms.translate(TRAMPOLINE_VPN).expect("trampoline mapped");
    assert_eq!(tramp.ppn(), 0x99);
}

#[test]
fn copied_image_bytes_read_back() {
    let segs = vec![ImageSegment {
        vaddr: 0x1000,
        mem_size: 0x1000,
        offset: 2,
        file_size: 5,
        readable: true,
        writable: false,
        executable: true,
    }];
    let data: Vec<u8> = vec![9, 9, 1, 2, 3, 4, 5, 9];
    let (ms, _, _) = MemorySet::from_image(&segs, &data, 0, 0);
    let ppn = ms.translate(0x1).expect("code mapped").ppn();
    for i in 0..5 {
        assert_eq!(ms.frames.read_byte(ppn, i), data[2 + i]);
    }
    for i in 5..PAGE_SIZE {
        assert_eq!(ms.frames.read_byte(ppn, i), 0);
    }
}

fn minimal_image(entry: u64, vaddr: u64, mem_size: u64, flags: u32) -> Vec<u8> {
    let mut d = vec![0u8; 120];
    d[0..4].copy_from_slice(&[0x7f, 0x45, 0x4c, 0x46]);
    d[4] = 2; // 64-bit
    d[5] = 1; // little-endian
    d[6] = 1; // current version
    d[16..18].copy_from_slice(&2u16.to_le_bytes()); // executable
    d[20..24].copy_from_slice(&1u32.to_le_bytes()); // version
    d[24..32].copy_from_slice(&entry.to_le_bytes());
    d[32..40].copy_from_slice(&64u64.to_le_bytes()); // program headers at 64
    d[52..54].copy_from_slice(&64u16.to_le_bytes()); // header size
    d[54..56].copy_from_slice(&56u16.to_le_bytes()); // entry size
    d[56..58].copy_from_slice(&1u16.to_le_bytes()); // one program header
    d[64..68].copy_from_slice(&1u32.to_le_bytes()); // loadable
    d[68..72].copy_from_slice(&flags.to_le_bytes());
    d[80..88].copy_from_slice(&vaddr.to_le_bytes());
    d[104..112].copy_from_slice(&mem_size.to_le_bytes());
    d
}

#[test]
fn from_elf_builds_a_space_from_image_bytes() {
    let image = minimal_image(0x5678, 0x1000, 0x1000, 0x5);
    let (ms, stack_top, entry) = MemorySet::from_elf(&image, 0x42).expect("valid image");
    assert_eq!(entry, 0x5678);
    let code = ms.translate(0x1).expect("loaded page mapped");
    assert!(code.readable() && code.executable() && !code.writable());
    assert!(code.user_accessible());
    // guard above page 2, stack at pages 3 and 4
    assert!(ms.translate(0x2).is_none());
    assert!(ms.translate(0x3).is_some());
    assert_eq!(stack_top, 0x3 * PAGE_SIZE + USER_STACK_SIZE);
    assert_eq!(
        ms.translate(TRAMPOLINE_VPN).expect("trampoline mapped").ppn(),
        0x42
    );
}

fn minimal_image_32(entry: u32, vaddr: u32, mem_size: u32, flags: u32) -> Vec<u8> {
    let mut d = vec![0u8; 84];
    d[0..4].copy_from_slice(&[0x7f, 0x45, 0x4c, 0x46]);
    d[4] = 1; // 32-bit
    d[5] = 1; // little-endian
    d[6] = 1; // current version
    d[16..18].copy_from_slice(&2u16.to_le_bytes()); // executable
    d[20..24].copy_from_slice(&1u32.to_le_bytes()); // version
    d[24..28].copy_from_slice(&entry.to_le_bytes());
    d[28..32].copy_from_slice(&52u32.to_le_bytes()); // program headers at 52
    d[40..42].copy_from_slice(&52u16.to_le_bytes()); // header size
    d[42..44].copy_from_slice(&32u16.to_le_bytes()); // entry size
    d[44..46].copy_from_slice(&1u16.to_le_bytes()); // one program header
    d[52..56].copy_from_slice(&1u32.to_le_bytes()); // loadable
    d[60..64].copy_from_slice(&vaddr.to_le_bytes());
    d[72..76].copy_from_slice(&mem_size.to_le_bytes());
    d[76..80].copy_from_slice(&flags.to_le_bytes());
    d
}

#[test]
fn from_elf_loads_a_thirty_two_bit_image() {
    let image = minimal_image_32(0x2000, 0x1000, 0x1000, 0x5);
    let (ms, _, entry) = MemorySet::from_elf(&image, 0x7).expect("valid image");
    assert_eq!(entry, 0x2000);
    let code = ms.translate(0x1).expect("loaded page mapped");
    assert!(code.readable() && code.executable() && !code.writable());
    assert!(code.user_accessible());
}

#[test]
fn from_elf_rejects_bad_magic() {
    let mut image = minimal_image(0, 0x1000, 0x1000, 0x5);
    image[0] = 0x7e;
    assert!(MemorySet::from_elf(&image, 0).is_none());
    assert!(MemorySet::from_elf(&[], 0).is_none());
}

#[test]
fn token_encodes_mode_and_root() {
    let ms = MemorySet::new_bare();
    assert_eq!(ms.token(), (8u64 << 60) | FRAME_POOL_BASE as u64);
}

#[test]
fn kernel_stack_positions_descend_with_guard_pages() {
    let (b0, t0) = kernel_stack_position(0);
    // one full guard page between the topmost stack and the trampoline
    assert_eq!(t0, TRAMPOLINE - PAGE_SIZE);
    assert_eq!(b0, TRAMPOLINE - PAGE_SIZE - KERNEL_STACK_SIZE);
    let (b1, t1) = kernel_stack_position(1);
    assert_eq!(t1, TRAMPOLINE - PAGE_SIZE - KERNEL_STACK_SIZE - PAGE_SIZE);
    assert_eq!(b1, t1 - KERNEL_STACK_SIZE);
    // and one between consecutive stacks
    assert_eq!(b0 - t1, PAGE_SIZE);
}

#[test]
fn map_and_unmap_whole_segment() {
    let mut pt = PageTable::new(0);
    let mut fa = FrameAllocator::new(100, 200);
    let mut area = MapArea::new(
        VirtAddr(0x1000),
        VirtAddr(0x3000),
        MapType::Framed,
        MapPermission::new(true, false, false, true),
    );
    area.map(&mut pt, &mut fa);
    // one owned frame recorded per page of the range
    assert_eq!(area.data_frames.len(), 2);
    let e1 = pt.translate(0x1).expect("page mapped");
    assert!(e1.readable() && e1.user_accessible() && !e1.writable());
    assert!(pt.translate(0x2).is_some());
    area.unmap(&mut pt);
    assert!(pt.translate(0x1).is_none());
    assert!(pt.translate(0x2).is_none());
    // the arena dropped every owned frame
    assert!(area.data_frames.is_empty());
}

#[test]
fn identical_mapping_uses_the_page_number_itself() {
    let mut pt = PageTable::new(0);
    let mut fa = FrameAllocator::new(100, 200);
    let mut area = MapArea::new(
        VirtAddr(0x5000),
        VirtAddr(0x6000),
        MapType::Identical,
        MapPermission::new(true, true, false, false),
    );
    area.map_one(&mut pt, &mut fa, 0x5);
    assert_eq!(pt.translate(0x5).expect("mapped").ppn(), 0x5);
    area.unmap_one(&mut pt, 0x5);
    assert!(pt.translate(0x5).is_none());
}

#[test]
fn mmap_port_bits_select_permissions() {
    let mut ms = MemorySet::new_bare();
    assert_eq!(ms.mmap(20, 21, 0x4), 0);
    let e = ms.translate(20).expect("mapped");
    assert!(!e.readable() && !e.writable() && e.executable());
    assert!(e.user_accessible() && e.is_valid());
}
