use kernelino::vmm::Vmm;
use kernelino::KernelError;

#[test]
fn new_pool_accounting() {
    let vmm = Vmm::new(16384);
    assert_eq!(vmm.total_memory, 16384);
    assert_eq!(vmm.free_memory, 16384);
    assert_eq!(vmm.count_in_use(), 0);
    assert_eq!(vmm.frames.len(), 4);
}

#[test]
fn allocate_page_basics() {
    let mut vmm = Vmm::new(16384);
    let (va0, size0) = vmm.allocate_page().unwrap();
    assert_eq!(va0, 0);
    assert_eq!(size0, 4096);
    assert_eq!(vmm.free_memory, 16384 - 4096);
    assert_eq!(vmm.count_in_use(), 1);
    let (va1, _) = vmm.allocate_page().unwrap();
    assert_eq!(va1, 1);
    assert_eq!(vmm.free_memory, 16384 - 8192);
}

#[test]
fn allocate_page_exhaustion() {
    let mut vmm = Vmm::new(8192);
    assert!(vmm.allocate_page().is_ok());
    assert!(vmm.allocate_page().is_ok());
    assert_eq!(vmm.free_memory, 0);
    assert_eq!(vmm.allocate_page(), Err(KernelError::ResourceExhausted));
    assert_eq!(vmm.free_memory, 0);
    assert_eq!(vmm.total_memory, 8192);
}

#[test]
fn memory_conservation_after_each_call() {
    // free_memory + in_use * PAGE_SIZE == total_memory after every call
    let mut vmm = Vmm::new(16384);
    assert_eq!(vmm.free_memory + vmm.count_in_use() * 4096, 16384);
    let (va, _) = vmm.allocate_page().unwrap();
    assert_eq!(vmm.free_memory + vmm.count_in_use() * 4096, 16384);
    let addrs = vmm.allocate_bytes(vec![7u8; 5000]).unwrap();
    assert_eq!(vmm.free_memory + vmm.count_in_use() * 4096, 16384);
    vmm.deallocate_page(vec![va]).unwrap();
    assert_eq!(vmm.free_memory + vmm.count_in_use() * 4096, 16384);
    vmm.deallocate_page(addrs).unwrap();
    assert_eq!(vmm.free_memory + vmm.count_in_use() * 4096, 16384);
    assert_eq!(vmm.free_memory, 16384);
}

#[test]
fn deallocate_unknown_address() {
    let mut vmm = Vmm::new(8192);
    let free = vmm.free_memory;
    assert_eq!(vmm.deallocate_page(vec![99]), Err(KernelError::InvariantViolation));
    assert_eq!(vmm.free_memory, free);
}

#[test]
fn deallocate_duplicate_address() {
    let mut vmm = Vmm::new(16384);
    let (va, _) = vmm.allocate_page().unwrap();
    let free = vmm.free_memory;
    assert_eq!(vmm.deallocate_page(vec![va, va]), Err(KernelError::InvariantViolation));
    assert_eq!(vmm.free_memory, free);
    assert!(vmm.deallocate_page(vec![va]).is_ok());
}

#[test]
fn allocate_bytes_empty_buffer() {
    let mut vmm = Vmm::new(16384);
    let addrs = vmm.allocate_bytes(Vec::new()).unwrap();
    assert!(addrs.is_empty());
    assert_eq!(vmm.free_memory, 16384);
    let back = vmm.get_bytes(addrs, 0).unwrap();
    assert!(back.is_empty());
}

#[test]
fn round_trip_single_page() {
    let mut vmm = Vmm::new(16384);
    let b = b"hello world".to_vec();
    let addrs = vmm.allocate_bytes(b.clone()).unwrap();
    assert_eq!(addrs.len(), 1);
    let back = vmm.get_bytes(addrs, b.len() as u64).unwrap();
    assert_eq!(back, b);
}

#[test]
fn round_trip_multi_page() {
    let mut vmm = Vmm::new(16384);
    let b: Vec<u8> = (0..10000u32).map(|i| (i % 251) as u8).collect();
    let addrs = vmm.allocate_bytes(b.clone()).unwrap();
    assert_eq!(addrs.len(), 3);
    let back = vmm.get_bytes(addrs.clone(), b.len() as u64).unwrap();
    assert_eq!(back, b);
    // truncated read is a prefix
    let prefix = vmm.get_bytes(addrs, 5000).unwrap();
    assert_eq!(prefix, b[..5000].to_vec());
}

#[test]
fn reclamation_frees_ceil_of_len_over_page() {
    let mut vmm = Vmm::new(4096 * 8);
    let total = vmm.free_memory;
    let b = vec![1u8; 10000];
    let addrs = vmm.allocate_bytes(b).unwrap();
    // ceil(10000 / 4096) == 3 pages
    assert_eq!(addrs.len(), 3);
    assert_eq!(vmm.free_memory, total - 3 * 4096);
    vmm.deallocate_page(addrs).unwrap();
    assert_eq!(vmm.free_memory, total);
    assert_eq!(vmm.count_in_use(), 0);
}

#[test]
fn allocate_bytes_exhaustion() {
    let mut vmm = Vmm::new(8192);
    let free = vmm.free_memory;
    assert_eq!(vmm.allocate_bytes(vec![0u8; 3 * 4096]), Err(KernelError::ResourceExhausted));
    assert_eq!(vmm.free_memory, free);
    assert!(vmm.allocate_bytes(vec![0u8; 2 * 4096]).is_ok());
}

#[test]
fn get_bytes_unknown_address() {
    let vmm = Vmm::new(8192);
    assert_eq!(vmm.get_bytes(vec![5], 10), Err(KernelError::InvariantViolation));
}

#[test]
fn get_bytes_without_content() {
    let mut vmm = Vmm::new(8192);
    let (va, _) = vmm.allocate_page().unwrap();
    // a bare page allocation stores nothing, so the page is unreadable
    assert_eq!(vmm.get_bytes(vec![va], 0), Err(KernelError::InvariantViolation));
}

#[test]
fn get_bytes_visits_addresses_in_given_order() {
    // the stored order of an address list is significant: reversing it
    // reverses the page order of the reconstructed bytes
    let mut vmm = Vmm::new(16384);
    let mut b = vec![b'A'; 4096];
    b.extend_from_slice(&[b'B'; 4096]);
    let addrs = vmm.allocate_bytes(b).unwrap();
    assert_eq!(addrs.len(), 2);
    let reversed = vec![addrs[1], addrs[0]];
    let back = vmm.get_bytes(reversed, 8192).unwrap();
    assert_eq!(&back[..4096], &[b'B'; 4096][..]);
    assert_eq!(&back[4096..], &[b'A'; 4096][..]);
}

#[test]
fn virtual_addresses_never_reused() {
    let mut vmm = Vmm::new(8192);
    let (va0, _) = vmm.allocate_page().unwrap();
    vmm.deallocate_page(vec![va0]).unwrap();
    let (va1, _) = vmm.allocate_page().unwrap();
    assert_ne!(va0, va1);
    assert_eq!(va1, 1);
}
