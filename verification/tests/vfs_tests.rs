use kernelino::vfs::{init_vfs, Vfs};
use kernelino::vmm::Vmm;
use kernelino::vpm::Vpm;
use kernelino::KernelError;

fn small_vfs() -> Vfs {
    Vfs::new(Vpm::new(), Vmm::new(4096 * 16))
}

#[test]
fn init_vfs_four_gibibytes() {
    let vfs = init_vfs();
    assert_eq!(vfs.vmm.total_memory, 4294967296);
    assert_eq!(vfs.vmm.free_memory, 4294967296);
    assert_eq!(vfs.pwd(), "/");
}

#[test]
fn pwd_starts_at_root() {
    let vfs = small_vfs();
    assert_eq!(vfs.pwd(), "/");
}

#[test]
fn mkdir_idempotent() {
    // creating a/b/c twice makes exactly three directories, not six
    let mut vfs = small_vfs();
    vfs.add_directory_recursive("a/b/c").unwrap();
    let listing_before = vfs.list().unwrap();
    assert_eq!(listing_before.1, vec!["a".to_string()]);
    vfs.add_directory_recursive("a/b/c").unwrap();
    let listing_after = vfs.list().unwrap();
    assert_eq!(listing_after.1, vec!["a".to_string()]);
    vfs.change_dir("a").unwrap();
    assert_eq!(vfs.list().unwrap().1, vec!["b".to_string()]);
    vfs.change_dir("b").unwrap();
    assert_eq!(vfs.list().unwrap().1, vec!["c".to_string()]);
    vfs.change_dir("c").unwrap();
    assert_eq!(vfs.list().unwrap().1, Vec::<String>::new());
}

#[test]
fn mkdir_descends_into_existing() {
    let mut vfs = small_vfs();
    vfs.add_directory_recursive("a/b").unwrap();
    vfs.add_directory_recursive("a/c").unwrap();
    vfs.change_dir("a").unwrap();
    let dirs = vfs.list().unwrap().1;
    assert_eq!(dirs, vec!["b".to_string(), "c".to_string()]);
}

#[test]
fn mkdir_reserved_names() {
    let mut vfs = small_vfs();
    assert_eq!(vfs.add_directory_recursive("/"), Err(KernelError::Unsupported));
    assert_eq!(vfs.add_directory_recursive("."), Err(KernelError::Unsupported));
    assert_eq!(vfs.add_directory_recursive(".."), Err(KernelError::Unsupported));
    assert_eq!(vfs.list().unwrap().1, Vec::<String>::new());
}

#[test]
fn touch_boundary() {
    // a second touch of the same name leaves one file and the frame
    // count unchanged
    let mut vfs = small_vfs();
    vfs.touch("f").unwrap();
    let frames_used = vfs.vmm.count_in_use();
    let free = vfs.vmm.free_memory;
    assert_eq!(vfs.touch("f"), Err(KernelError::Conflict));
    assert_eq!(vfs.vmm.count_in_use(), frames_used);
    assert_eq!(vfs.vmm.free_memory, free);
    let files = vfs.list().unwrap().0;
    assert_eq!(files.len(), 1);
    assert_eq!(files[0].0, "f");
    assert_eq!(files[0].1, 0);
}

#[test]
fn touch_rejects_separator() {
    let mut vfs = small_vfs();
    assert_eq!(vfs.touch("a/b"), Err(KernelError::Unsupported));
    assert_eq!(vfs.list().unwrap().0.len(), 0);
}

#[test]
fn touch_allocates_one_page_eagerly() {
    let mut vfs = small_vfs();
    let free = vfs.vmm.free_memory;
    vfs.touch("empty").unwrap();
    assert_eq!(vfs.vmm.free_memory, free - 4096);
    let f = vfs.get_file_in_cwd("empty").unwrap();
    assert_eq!(f.size, 0);
    assert_eq!(f.vmm_address.len(), 1);
    assert_eq!(f.path, "/empty");
}

#[test]
fn change_dir_navigation() {
    // from /a/b, ".." yields /a; from /, ".." is a no-op
    let mut vfs = small_vfs();
    vfs.add_directory_recursive("a/b").unwrap();
    vfs.change_dir("a/b").unwrap();
    assert_eq!(vfs.pwd(), "/a/b");
    vfs.change_dir("..").unwrap();
    assert_eq!(vfs.pwd(), "/a");
    vfs.change_dir("/").unwrap();
    assert_eq!(vfs.pwd(), "/");
    vfs.change_dir("..").unwrap();
    assert_eq!(vfs.pwd(), "/");
    vfs.change_dir(".").unwrap();
    assert_eq!(vfs.pwd(), "/");
}

#[test]
fn change_dir_absolute_and_missing() {
    let mut vfs = small_vfs();
    vfs.add_directory_recursive("a/b").unwrap();
    vfs.change_dir("/a/b").unwrap();
    assert_eq!(vfs.pwd(), "/a/b");
    assert_eq!(vfs.change_dir("nope"), Err(KernelError::NotFound));
    assert_eq!(vfs.pwd(), "/a/b");
}

#[test]
fn write_and_read_round_trip() {
    let mut vfs = small_vfs();
    vfs.touch("f.txt").unwrap();
    vfs.write_file("f.txt", b"hello\nworld".to_vec(), None).unwrap();
    let f = vfs.get_file_in_cwd("f.txt").unwrap();
    assert_eq!(f.size, 11);
    assert_eq!(vfs.read_file("f.txt").unwrap(), "hello\nworld");
}

#[test]
fn write_missing_file() {
    let mut vfs = small_vfs();
    assert_eq!(
        vfs.write_file("nope.txt", b"x".to_vec(), None),
        Err(KernelError::NotFound)
    );
}

#[test]
fn write_with_destination_label() {
    let mut vfs = small_vfs();
    vfs.touch("pkg").unwrap();
    vfs.write_file("pkg", b"data".to_vec(), Some("/bin/pkg")).unwrap();
    let f = vfs.get_file_in_cwd("pkg").unwrap();
    assert_eq!(f.path, "/bin/pkg");
    assert_eq!(f.size, 4);
}

#[test]
fn write_frees_previous_pages() {
    let mut vfs = small_vfs();
    vfs.touch("f.txt").unwrap();
    let free_after_touch = vfs.vmm.free_memory;
    // overwrite several times: the old pages must be reclaimed each time
    vfs.write_file("f.txt", vec![1u8; 5000], None).unwrap();
    assert_eq!(vfs.vmm.free_memory, free_after_touch + 4096 - 2 * 4096);
    vfs.write_file("f.txt", vec![2u8; 100], None).unwrap();
    assert_eq!(vfs.vmm.free_memory, free_after_touch + 4096 - 4096);
    vfs.write_file("f.txt", vec![3u8; 9000], None).unwrap();
    assert_eq!(vfs.vmm.free_memory, free_after_touch + 4096 - 3 * 4096);
}

#[test]
fn read_missing_file() {
    let vfs = small_vfs();
    assert_eq!(vfs.read_file("ghost.txt"), Err(KernelError::NotFound));
}

#[test]
fn read_freshly_touched_file() {
    // a touched file has a page but no stored content yet
    let mut vfs = small_vfs();
    vfs.touch("f.txt").unwrap();
    assert_eq!(vfs.read_file("f.txt"), Err(KernelError::InvariantViolation));
}

#[test]
fn read_invalid_utf8() {
    let mut vfs = small_vfs();
    vfs.touch("bin").unwrap();
    vfs.write_file("bin", vec![0xff, 0xfe, 0x00, 0x80], None).unwrap();
    assert_eq!(vfs.read_file("bin"), Err(KernelError::Unsupported));
}

#[test]
fn remove_cleanup() {
    // removing a file frees its pages and a later read misses
    let mut vfs = small_vfs();
    vfs.add_directory_recursive("a").unwrap();
    let free0 = vfs.vmm.free_memory;
    vfs.change_dir("a").unwrap();
    vfs.touch("f.txt").unwrap();
    vfs.write_file("f.txt", b"gone soon".to_vec(), None).unwrap();
    assert!(vfs.vmm.free_memory < free0);
    vfs.change_dir("/").unwrap();
    vfs.remove("/a/f.txt").unwrap();
    assert_eq!(vfs.vmm.free_memory, free0);
    vfs.change_dir("a").unwrap();
    assert_eq!(vfs.list().unwrap().0.len(), 0);
    assert_eq!(vfs.read_file("f.txt"), Err(KernelError::NotFound));
}

#[test]
fn remove_relative_file() {
    let mut vfs = small_vfs();
    vfs.touch("f.txt").unwrap();
    vfs.write_file("f.txt", b"x".to_vec(), None).unwrap();
    vfs.remove("f.txt").unwrap();
    assert_eq!(vfs.list().unwrap().0.len(), 0);
}

#[test]
fn remove_missing_file() {
    let mut vfs = small_vfs();
    assert_eq!(vfs.remove("ghost.txt"), Err(KernelError::NotFound));
}

#[test]
fn remove_directory_detaches() {
    let mut vfs = small_vfs();
    vfs.add_directory_recursive("d").unwrap();
    vfs.remove("d").unwrap();
    assert_eq!(vfs.list().unwrap().1.len(), 0);
    assert_eq!(vfs.change_dir("d"), Err(KernelError::NotFound));
}

#[test]
fn write_isolation() {
    // writes to two different files never leak into each other
    let mut vfs = small_vfs();
    vfs.touch("a.txt").unwrap();
    vfs.touch("b.txt").unwrap();
    vfs.write_file("a.txt", b"alpha content".to_vec(), None).unwrap();
    vfs.write_file("b.txt", b"beta content".to_vec(), None).unwrap();
    assert_eq!(vfs.read_file("a.txt").unwrap(), "alpha content");
    assert_eq!(vfs.read_file("b.txt").unwrap(), "beta content");
    // rewriting one leaves the other alone
    vfs.write_file("a.txt", vec![b'z'; 6000], None).unwrap();
    assert_eq!(vfs.read_file("b.txt").unwrap(), "beta content");
    assert_eq!(vfs.read_file("a.txt").unwrap(), "z".repeat(6000));
}

#[test]
fn search_finds_file_by_name_at_current_dir() {
    let mut vfs = small_vfs();
    vfs.touch("hello.lua").unwrap();
    let found = vfs.search_file_recursive("hello.lua", &vfs.root);
    assert!(found.is_some());
    assert_eq!(found.unwrap().name, "hello.lua");
}

#[test]
fn search_misses_nested_file_under_other_name() {
    // files are keyed by the whole search string, so a plain name in a
    // subdirectory is not found from the root
    let mut vfs = small_vfs();
    vfs.add_directory_recursive("sub").unwrap();
    vfs.change_dir("sub").unwrap();
    vfs.touch("deep.txt").unwrap();
    vfs.change_dir("/").unwrap();
    assert!(vfs.search_file_recursive("sub/deep.txt", &vfs.root).is_none());
    assert!(vfs.search_file_recursive("deep.txt", &vfs.root).is_none());
}

#[test]
fn list_with_dangling_cwd() {
    // the cwd is tracked independently of the tree: removing the
    // directory it points at leaves later operations reporting not-found
    let mut vfs = small_vfs();
    vfs.add_directory_recursive("d").unwrap();
    vfs.change_dir("d").unwrap();
    vfs.remove("/d").unwrap();
    assert_eq!(vfs.pwd(), "/d");
    assert_eq!(vfs.list(), Err(KernelError::NotFound));
    assert_eq!(vfs.touch("f"), Err(KernelError::NotFound));
    // navigating back to the root recovers
    vfs.change_dir("/").unwrap();
    assert!(vfs.list().is_ok());
}

#[test]
fn exhaustion_surfaces_from_touch() {
    let mut vfs = Vfs::new(Vpm::new(), Vmm::new(4096));
    vfs.touch("a.txt").unwrap();
    assert_eq!(vfs.touch("b.txt"), Err(KernelError::ResourceExhausted));
}

#[test]
fn exhaustion_surfaces_from_write() {
    let mut vfs = Vfs::new(Vpm::new(), Vmm::new(2 * 4096));
    vfs.touch("a.txt").unwrap();
    assert_eq!(
        vfs.write_file("a.txt", vec![0u8; 3 * 4096], None),
        Err(KernelError::ResourceExhausted)
    );
    // the failed write must not have freed or moved anything
    assert_eq!(vfs.vmm.free_memory, 4096);
    assert!(vfs.write_file("a.txt", vec![0u8; 2 * 4096], None).is_ok());
}
