//! Whole-volume behaviour: files and directories created, written, read
//! back after a remount, removed again, and the allocation bookkeeping that
//! must balance around it all.

use pion_fs::block_device::BlockDevice;
use pion_fs::dir::Dir;
use pion_fs::dir_entry::create_raw;
use pion_fs::fat_table;
use pion_fs::fs::Fs;
use pion_fs::ram_device::RamDevice;
use pion_fs::ClusterValue;
use pion_fs::Error;
use pion_fs::FatType;
use pion_fs::FileSystem;

fn boot_sector(
    ss: u16,
    spc: u8,
    reserved: u16,
    fats: u8,
    root_entries: u16,
    total16: u16,
    fat_size16: u16,
    total32: u32,
    fat_size32: u32,
    root_cluster: u32,
) -> Vec<u8> {
    let mut b = vec![0u8; 512];
    b[11..13].copy_from_slice(&ss.to_le_bytes());
    b[13] = spc;
    b[14..16].copy_from_slice(&reserved.to_le_bytes());
    b[16] = fats;
    b[17..19].copy_from_slice(&root_entries.to_le_bytes());
    b[19..21].copy_from_slice(&total16.to_le_bytes());
    b[22..24].copy_from_slice(&fat_size16.to_le_bytes());
    b[32..36].copy_from_slice(&total32.to_le_bytes());
    b[36..40].copy_from_slice(&fat_size32.to_le_bytes());
    b[44..48].copy_from_slice(&root_cluster.to_le_bytes());
    b
}

/// A small FAT12 volume: 256 sectors of 512 bytes.
fn small_device() -> RamDevice {
    let mut dev = RamDevice::new(512, 256);
    let boot = boot_sector(512, 1, 1, 2, 32, 256, 1, 0, 0, 0);
    dev.write(0, 0, &boot).unwrap();
    dev
}

fn mount_small() -> Fs<RamDevice> {
    let mut fs = Fs::mount(small_device()).unwrap();
    fs.fat_table_set(0, ClusterValue::Last).unwrap();
    fs.fat_table_set(1, ClusterValue::Last).unwrap();
    fs
}

fn device_bytes(dev: &RamDevice) -> Vec<u8> {
    let n = dev.count().unwrap();
    let ss = dev.lba_size().unwrap();
    let mut out = Vec::new();
    for i in 0..n {
        out.extend(dev.read(i, 0, ss).unwrap());
    }
    out
}

fn free_count(fs: &Fs<RamDevice>) -> usize {
    let cc = fs.cluster_count();
    let mut n = 0;
    for c in 2..cc {
        if matches!(fs.fat_table_get(c).unwrap(), ClusterValue::Free) {
            n += 1;
        }
    }
    n
}

fn chain_of(fs: &Fs<RamDevice>, start: u32) -> Vec<u32> {
    let mut out = vec![start];
    let mut c = start;
    loop {
        match fs.fat_table_get(c).unwrap() {
            ClusterValue::Next(n) => {
                out.push(n);
                c = n;
            },
            ClusterValue::Last => {
                return out;
            },
            other => panic!("broken chain at {}: {:?}", c, other),
        }
    }
}

fn root_names(fs: &Fs<RamDevice>) -> Vec<Vec<u8>> {
    let root = Dir::root(fs).unwrap();
    let mut iter = root.iter();
    let mut names = Vec::new();
    loop {
        match iter.next(fs) {
            Some(item) => {
                let (entry, lfn) = item.unwrap();
                match lfn {
                    Some(l) => names.push(l.name().to_vec()),
                    None => names.push(entry.name()),
                }
            },
            None => {
                return names;
            },
        }
    }
}

#[test]
fn mount_then_flush_leaves_every_byte_alone() {
    let dev = small_device();
    let before = device_bytes(&dev);
    let mut fs = Fs::mount(dev).unwrap();
    fs.flush().unwrap();
    let after = device_bytes(&fs.into_device());
    assert_eq!(before, after);
}

#[test]
fn create_write_flush_remount_read_back() {
    let mut fs = mount_small();
    let free_before = free_count(&fs);
    let root = Dir::root(&fs).unwrap();
    let mut file = root.create_file(&mut fs, b"HELLO.TXT").unwrap();
    assert_eq!(file.write(&mut fs, b"hello world").unwrap(), 11);
    file.close(&mut fs).unwrap();
    fs.flush().unwrap();
    assert_eq!(free_count(&fs), free_before - 1);
    let fs = Fs::mount(fs.into_device()).unwrap();
    let root = Dir::root(&fs).unwrap();
    let entry = root.open_dir_entry(&fs, b"HELLO.TXT").unwrap();
    assert_eq!(entry.size(), 11);
    let mut file = pion_fs::file::File::open(entry).unwrap();
    let data = file.read(&fs, 100).unwrap();
    assert_eq!(data, b"hello world".to_vec());
}

#[test]
fn long_names_survive_a_remount() {
    let mut fs = mount_small();
    let root = Dir::root(&fs).unwrap();
    let file = root.create_file(&mut fs, b"longfilename.dat").unwrap();
    file.close(&mut fs).unwrap();
    let fs = Fs::mount(fs.into_device()).unwrap();
    let names = root_names(&fs);
    assert_eq!(names, vec![b"longfilename.dat".to_vec()]);
    // the name also resolves, through its long form
    let root = Dir::root(&fs).unwrap();
    assert!(root.open_file(&fs, b"longfilename.dat").is_ok());
    // and through its stored short form
    assert!(root.open_file(&fs, b"LONGFILE.DAT").is_ok());
}

#[test]
fn a_removed_file_frees_its_clusters_and_leaves_the_listing() {
    let mut fs = mount_small();
    let root = Dir::root(&fs).unwrap();
    let before_names = root_names(&fs);
    let free_before = free_count(&fs);
    let file = root.create_file(&mut fs, b"GONE.TXT").unwrap();
    file.close(&mut fs).unwrap();
    assert_eq!(free_count(&fs), free_before - 1);
    root.remove_file(&mut fs, b"GONE.TXT").unwrap();
    assert_eq!(free_count(&fs), free_before);
    assert_eq!(root_names(&fs), before_names);
    match root.open_file(&fs, b"GONE.TXT") {
        Err(Error::NotFound) => {},
        _ => panic!("a removed file must not resolve"),
    }
}

#[test]
fn extending_a_chain_appends_one_last_cluster() {
    let mut fs = mount_small();
    let c0 = fat_table::create(&mut fs).unwrap();
    assert_eq!(chain_of(&fs, c0), vec![c0]);
    let n = fat_table::extend(&mut fs, c0).unwrap();
    assert_eq!(chain_of(&fs, c0), vec![c0, n]);
    assert!(matches!(fs.fat_table_get(n).unwrap(), ClusterValue::Last));
    let m = fat_table::extend(&mut fs, n).unwrap();
    assert_eq!(chain_of(&fs, c0), vec![c0, n, m]);
}

#[test]
fn reachable_plus_free_clusters_account_for_the_volume() {
    let mut fs = mount_small();
    let root = Dir::root(&fs).unwrap();
    for name in [&b"A.TXT"[..], b"B.TXT", b"C.TXT"] {
        let mut file = root.create_file(&mut fs, name).unwrap();
        file.write(&mut fs, &[7u8; 1000]).unwrap();
        file.close(&mut fs).unwrap();
    }
    let cc = fs.cluster_count();
    let mut reachable = 0;
    let rootdir = Dir::root(&fs).unwrap();
    let mut iter = rootdir.iter();
    loop {
        match iter.next(&fs) {
            Some(item) => {
                let (entry, _) = item.unwrap();
                reachable += chain_of(&fs, entry.cluster()).len();
            },
            None => break,
        }
    }
    assert_eq!(reachable + free_count(&fs), (cc - 2) as usize);
}

#[test]
fn a_full_cluster_write_stays_in_one_cluster_and_one_byte_more_extends() {
    let mut fs = mount_small();
    let free_before = free_count(&fs);
    let cs = fs.cluster_size();
    let mut stream = pion_fs::stream::Stream::create(&mut fs).unwrap();
    let start = stream.cluster();
    assert_eq!(free_count(&fs), free_before - 1);
    let ones = vec![1u8; cs];
    assert_eq!(stream.write(&mut fs, &ones).unwrap(), cs);
    // exactly one cluster holds it all
    assert_eq!(chain_of(&fs, start), vec![start]);
    assert_eq!(free_count(&fs), free_before - 1);
    // one more byte forces the chain to grow
    assert_eq!(stream.write(&mut fs, &[2u8]).unwrap(), 1);
    assert_eq!(chain_of(&fs, start).len(), 2);
    assert_eq!(free_count(&fs), free_before - 2);
}

#[test]
fn iteration_stops_at_the_free_sentinel() {
    let mut dev = small_device();
    // the root region starts at sector 3: one reserved and two table sectors
    let live = create_raw(b"A.TXT", true, 2).unwrap();
    dev.write(3, 0, &live).unwrap();
    // record 1 stays all zero: the sentinel; record 2 looks live again
    let stray = create_raw(b"B.TXT", true, 3).unwrap();
    dev.write(3, 64, &stray).unwrap();
    let fs = Fs::mount(dev).unwrap();
    let names = root_names(&fs);
    assert_eq!(names, vec![b"A.TXT".to_vec()]);
}

#[test]
fn prepared_entries_come_back_from_a_plain_mount() {
    let mut dev = RamDevice::new(4096, 4096);
    let boot = boot_sector(4096, 1, 1, 2, 512, 4096, 4, 0, 0, 0);
    dev.write(0, 0, &boot).unwrap();
    // the root region starts at sector 9 on this volume
    let one = create_raw(b"FIRST.BIN", true, 2).unwrap();
    let two = create_raw(b"SECOND", false, 3).unwrap();
    dev.write(9, 0, &one).unwrap();
    dev.write(9, 32, &two).unwrap();
    let fs = Fs::mount(dev).unwrap();
    assert_eq!(fs.fat_type(), FatType::Fat12);
    assert_eq!(fs.root_cluster(), 0);
    let names = root_names(&fs);
    assert_eq!(names, vec![b"FIRST.BIN".to_vec(), b"SECOND".to_vec()]);
}

#[test]
fn a_fresh_file_takes_the_slots_a_removed_one_left() {
    let mut fs = mount_small();
    let root = Dir::root(&fs).unwrap();
    for i in 0..10 {
        let name = format!("f{}", i);
        let file = root.create_file(&mut fs, name.as_bytes()).unwrap();
        file.close(&mut fs).unwrap();
    }
    root.remove_file(&mut fs, b"f5").unwrap();
    let file = root.create_file(&mut fs, b"f10").unwrap();
    file.close(&mut fs).unwrap();
    assert_eq!(root.item_count(&fs).unwrap(), 10);
    let names = root_names(&fs);
    let expected: Vec<Vec<u8>> = [
        "f0", "f1", "f2", "f3", "f4", "f10", "f6", "f7", "f8", "f9",
    ]
        .iter()
        .map(|s| s.as_bytes().to_vec())
        .collect();
    assert_eq!(names, expected);
}

#[test]
fn removing_a_directory_needs_it_empty() {
    let mut fs = mount_small();
    let free_at_start = free_count(&fs);
    let root = Dir::root(&fs).unwrap();
    root.create_dir(&mut fs, b"D").unwrap();
    let file = root.create_file(&mut fs, b"D/A.TXT").unwrap();
    file.close(&mut fs).unwrap();
    match root.remove_dir(&mut fs, b"D") {
        Err(Error::DirNotEmpty) => {},
        other => panic!("a filled directory must not be removed: {:?}", other),
    }
    root.remove_file(&mut fs, b"D/A.TXT").unwrap();
    root.remove_dir(&mut fs, b"D").unwrap();
    // both clusters went back to the pool
    assert_eq!(free_count(&fs), free_at_start);
    match root.open_dir(&fs, b"D") {
        Err(Error::NotFound) => {},
        _ => panic!("a removed directory must not resolve"),
    }
}

#[test]
fn wrong_kind_operations_are_refused() {
    let mut fs = mount_small();
    let root = Dir::root(&fs).unwrap();
    root.create_dir(&mut fs, b"SUB").unwrap();
    let file = root.create_file(&mut fs, b"F.TXT").unwrap();
    file.close(&mut fs).unwrap();
    match root.open_file(&fs, b"SUB") {
        Err(Error::NotFile) => {},
        _ => panic!("a directory is no file"),
    }
    match root.open_dir(&fs, b"F.TXT") {
        Err(Error::NotDir) => {},
        _ => panic!("a file is no directory"),
    }
    match root.create_file(&mut fs, b"F.TXT") {
        Err(Error::ObjectAlreadyExist) => {},
        _ => panic!("a taken name must be refused"),
    }
    match root.remove_dir(&mut fs, b"F.TXT") {
        Err(Error::NotDir) => {},
        _ => panic!("remove_dir on a file must be refused"),
    }
    match root.remove_file(&mut fs, b"SUB") {
        Err(Error::NotFile) => {},
        _ => panic!("remove_file on a directory must be refused"),
    }
}

#[test]
fn freeing_a_free_cluster_is_an_unexpected_value() {
    let mut fs = mount_small();
    match fat_table::remove(&mut fs, 5) {
        Err(Error::UnexpectedClusterValue) => {},
        _ => panic!("freeing an unallocated chain must fail"),
    }
}

#[test]
fn exhaustion_raises_no_free_cluster_and_spares_the_table() {
    let mut fs = mount_small();
    loop {
        match fat_table::create(&mut fs) {
            Ok(_) => {},
            Err(Error::NoFreeCluster) => break,
            Err(e) => panic!("unexpected error: {:?}", e),
        }
    }
    // every byte as it stands now, before one more failing attempt
    let before = device_bytes(&fs.into_device());
    let mut fs = Fs::mount(small_device_like(&before)).unwrap();
    match fat_table::create(&mut fs) {
        Err(Error::NoFreeCluster) => {},
        other => panic!("the pool is empty: {:?}", other),
    }
    let after = device_bytes(&fs.into_device());
    assert_eq!(before, after);
}

/// A device holding exactly the given bytes, in 512-byte sectors.
fn small_device_like(bytes: &[u8]) -> RamDevice {
    let mut dev = RamDevice::new(512, (bytes.len() / 512) as u32);
    let mut i = 0;
    while i * 512 < bytes.len() {
        dev.write(i as u32, 0, &bytes[i * 512..(i + 1) * 512]).unwrap();
        i += 1;
    }
    dev
}

#[test]
fn truncate_cuts_the_chain_and_the_size() {
    let mut fs = mount_small();
    let root = Dir::root(&fs).unwrap();
    let mut file = root.create_file(&mut fs, b"BIG.BIN").unwrap();
    let cs = fs.cluster_size();
    file.write(&mut fs, &vec![9u8; 3 * cs]).unwrap();
    file.close(&mut fs).unwrap();
    let entry = root.open_dir_entry(&fs, b"BIG.BIN").unwrap();
    assert_eq!(entry.size() as usize, 3 * cs);
    assert_eq!(chain_of(&fs, entry.cluster()).len(), 3);
    let mut file = pion_fs::file::File::open(entry).unwrap();
    // read one cluster, then cut everything after the cursor's cluster
    file.read(&fs, cs).unwrap();
    file.truncate(&mut fs).unwrap();
    file.close(&mut fs).unwrap();
    let entry = root.open_dir_entry(&fs, b"BIG.BIN").unwrap();
    assert_eq!(entry.size() as usize, cs);
}

#[test]
fn counting_skips_dot_and_removed_records() {
    let mut fs = mount_small();
    let root = Dir::root(&fs).unwrap();
    root.create_dir(&mut fs, b"SUB").unwrap();
    let sub = root.open_dir(&fs, b"SUB").unwrap();
    // a fresh directory holds only its self and parent entries
    assert_eq!(sub.item_count(&fs).unwrap(), 0);
    let a = sub.create_file(&mut fs, b"A.TXT").unwrap();
    a.close(&mut fs).unwrap();
    let b = sub.create_file(&mut fs, b"B.TXT").unwrap();
    b.close(&mut fs).unwrap();
    assert_eq!(sub.item_count(&fs).unwrap(), 2);
    sub.remove_file(&mut fs, b"A.TXT").unwrap();
    // the removed record still occupies its slot but is not counted
    assert_eq!(sub.item_count(&fs).unwrap(), 1);
}

#[test]
fn lookup_walks_past_removed_records() {
    let mut fs = mount_small();
    let root = Dir::root(&fs).unwrap();
    for name in [&b"ONE.TXT"[..], b"TWO.TXT", b"SIX.TXT"] {
        let f = root.create_file(&mut fs, name).unwrap();
        f.close(&mut fs).unwrap();
    }
    root.remove_file(&mut fs, b"ONE.TXT").unwrap();
    root.remove_file(&mut fs, b"TWO.TXT").unwrap();
    // the survivor sits behind two removed records and is still found
    let entry = root.open_dir_entry(&fs, b"SIX.TXT").unwrap();
    assert!(entry.is_file());
    match root.open_dir_entry(&fs, b"ONE.TXT") {
        Err(Error::NotFound) => {},
        Err(other) => panic!("a removed name must not resolve: {:?}", other),
        Ok(_) => panic!("a removed name must not resolve"),
    }
}
