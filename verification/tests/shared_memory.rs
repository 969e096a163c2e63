use chip8_runtime::error::VmError;
use chip8_runtime::shared_memory::SharedMemory;

const PHYS_MEM_SIZE: usize = 0x100000;

#[test]
fn mmap_failure_does_not_leak_pages() {
    let mut mem = SharedMemory::new().unwrap();
    assert!(mem.mmap(257).is_err());
    let pages = mem.mmap(256).unwrap();
    assert_eq!(pages.len(), 256);
}

#[test]
fn write_and_read_bounds_checked() {
    let mut mem = SharedMemory::new().unwrap();
    let data = vec![0xAA];

    assert!(mem.write(PHYS_MEM_SIZE, &data, data.len()).is_err());
    assert!(mem.read(PHYS_MEM_SIZE, 1).is_err());

    let last = PHYS_MEM_SIZE - 1;
    assert!(mem.write(last, &data, data.len()).is_ok());
    let read = mem.read(last, 1).unwrap();
    assert_eq!(read[0], 0xAA);
}

#[test]
fn mmap_bases_are_aligned_fresh_and_in_the_arena() {
    let mut mem = SharedMemory::new().unwrap();
    let first = mem.mmap(3).unwrap();
    let second = mem.mmap(2).unwrap();

    let mut seen: Vec<u32> = Vec::new();
    for base in first.iter().chain(second.iter()) {
        assert_eq!(*base as usize % 0x1000, 0);
        assert!((*base as usize) + 0x1000 <= PHYS_MEM_SIZE);
        assert!(!seen.contains(base));
        seen.push(*base);
    }
}

#[test]
fn mmap_rejects_zero_pages() {
    let mut mem = SharedMemory::new().unwrap();
    assert_eq!(mem.mmap(0).unwrap_err(), VmError::InvalidInput);
}

#[test]
fn mmap_reports_out_of_memory_when_pages_run_out() {
    let mut mem = SharedMemory::new().unwrap();
    assert_eq!(mem.mmap(257).unwrap_err(), VmError::OutOfMemory);
}

#[test]
fn write_rejects_more_than_one_page() {
    let mut mem = SharedMemory::new().unwrap();
    let data = vec![0u8; 0x1001];
    assert_eq!(mem.write(0, &data, data.len()).unwrap_err(), VmError::TooLarge);
}
