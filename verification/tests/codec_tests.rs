//! The table codec on all three FAT variants: mounting, the entry set/get
//! round trip, and the FAT12 packing that must spare its neighbours.

use pion_fs::block_device::BlockDevice;
use pion_fs::fs::Fs;
use pion_fs::ram_device::RamDevice;
use pion_fs::ClusterValue;
use pion_fs::Error;
use pion_fs::FatType;
use pion_fs::FileSystem;

fn boot_sector(
    ss: u16,
    spc: u8,
    reserved: u16,
    fats: u8,
    root_entries: u16,
    total16: u16,
    fat_size16: u16,
    total32: u32,
    fat_size32: u32,
    root_cluster: u32,
) -> Vec<u8> {
    let mut b = vec![0u8; 512];
    b[11..13].copy_from_slice(&ss.to_le_bytes());
    b[13] = spc;
    b[14..16].copy_from_slice(&reserved.to_le_bytes());
    b[16] = fats;
    b[17..19].copy_from_slice(&root_entries.to_le_bytes());
    b[19..21].copy_from_slice(&total16.to_le_bytes());
    b[22..24].copy_from_slice(&fat_size16.to_le_bytes());
    b[32..36].copy_from_slice(&total32.to_le_bytes());
    b[36..40].copy_from_slice(&fat_size32.to_le_bytes());
    b[44..48].copy_from_slice(&root_cluster.to_le_bytes());
    b
}

/// A 16 MB FAT12 volume: 4096 sectors of 4096 bytes.
fn mount_fat12() -> Fs<RamDevice> {
    let mut dev = RamDevice::new(4096, 4096);
    let boot = boot_sector(4096, 1, 1, 2, 512, 4096, 4, 0, 0, 0);
    dev.write(0, 0, &boot).unwrap();
    let mut fs = Fs::mount(dev).unwrap();
    fs.fat_table_set(0, ClusterValue::Last).unwrap();
    fs.fat_table_set(1, ClusterValue::Last).unwrap();
    fs
}

fn mount_fat16() -> Fs<RamDevice> {
    let mut dev = RamDevice::new(512, 9000);
    let boot = boot_sector(512, 1, 1, 2, 32, 9000, 36, 0, 0, 0);
    dev.write(0, 0, &boot).unwrap();
    let mut fs = Fs::mount(dev).unwrap();
    fs.fat_table_set(0, ClusterValue::Last).unwrap();
    fs.fat_table_set(1, ClusterValue::Last).unwrap();
    fs
}

fn mount_fat32() -> Fs<RamDevice> {
    let mut dev = RamDevice::new(512, 67000);
    let boot = boot_sector(512, 1, 1, 2, 0, 0, 0, 67000, 524, 2);
    dev.write(0, 0, &boot).unwrap();
    let mut fs = Fs::mount(dev).unwrap();
    fs.fat_table_set(0, ClusterValue::Last).unwrap();
    fs.fat_table_set(1, ClusterValue::Last).unwrap();
    // the root directory owns its cluster
    fs.fat_table_set(2, ClusterValue::Last).unwrap();
    fs
}

#[test]
fn mount_fat12_reads_the_geometry() {
    let fs = mount_fat12();
    assert_eq!(fs.fat_type(), FatType::Fat12);
    assert_eq!(fs.root_cluster(), 0);
    assert_eq!(fs.cluster_size(), 4096);
    // 4096 sectors less one reserved, eight of table and four of root
    assert_eq!(fs.cluster_count(), 4083);
}

#[test]
fn mount_fat16_reads_the_geometry() {
    let fs = mount_fat16();
    assert_eq!(fs.fat_type(), FatType::Fat16);
    assert_eq!(fs.root_cluster(), 0);
    assert_eq!(fs.cluster_count(), 8925);
}

#[test]
fn mount_fat32_reads_the_geometry() {
    let fs = mount_fat32();
    assert_eq!(fs.fat_type(), FatType::Fat32);
    assert_eq!(fs.root_cluster(), 2);
    assert_eq!(fs.cluster_count(), 65951);
}

#[test]
fn mount_refuses_an_empty_boot_sector() {
    let dev = RamDevice::new(512, 64);
    match Fs::mount(dev) {
        Err(Error::DeviceIO) => {},
        _ => panic!("an all-zero boot sector must be refused"),
    }
}

#[test]
fn mount_refuses_a_mismatched_sector_size() {
    let mut dev = RamDevice::new(512, 4096);
    // the boot sector claims 4096-byte sectors on a 512-byte device
    let boot = boot_sector(4096, 1, 1, 2, 512, 4096, 4, 0, 0, 0);
    dev.write(0, 0, &boot).unwrap();
    match Fs::mount(dev) {
        Err(Error::DeviceIO) => {},
        _ => panic!("a sector-size mismatch must be refused"),
    }
}

fn set_get_round_trip(fs: &mut Fs<RamDevice>) {
    let cc = fs.cluster_count();
    let probes = [2u32, 3, 4, 5, 100, cc - 2, cc - 1];
    let values = [
        ClusterValue::Free,
        ClusterValue::Next(5),
        ClusterValue::Next(cc - 1),
        ClusterValue::Last,
        ClusterValue::Bad,
    ];
    for &c in probes.iter() {
        for &v in values.iter() {
            fs.fat_table_set(c, v).unwrap();
            assert_eq!(fs.fat_table_get(c).unwrap(), v);
        }
    }
}

#[test]
fn fat12_set_then_get_returns_the_value() {
    set_get_round_trip(&mut mount_fat12());
}

#[test]
fn fat16_set_then_get_returns_the_value() {
    set_get_round_trip(&mut mount_fat16());
}

#[test]
fn fat32_set_then_get_returns_the_value() {
    set_get_round_trip(&mut mount_fat32());
}

#[test]
fn fat12_writes_spare_both_neighbours() {
    let mut fs = mount_fat12();
    let cc = fs.cluster_count();
    for c in 3..20u32 {
        fs.fat_table_set(c - 1, ClusterValue::Next(0x123)).unwrap();
        fs.fat_table_set(c + 1, ClusterValue::Next(0xABC)).unwrap();
        fs.fat_table_set(c, ClusterValue::Next(0x555)).unwrap();
        assert_eq!(fs.fat_table_get(c - 1).unwrap(), ClusterValue::Next(0x123));
        assert_eq!(fs.fat_table_get(c + 1).unwrap(), ClusterValue::Next(0xABC));
        assert_eq!(fs.fat_table_get(c).unwrap(), ClusterValue::Next(0x555));
    }
    assert!(cc > 20);
}

#[test]
fn table_indices_out_of_range_are_refused() {
    let fs = mount_fat12();
    let cc = fs.cluster_count();
    match fs.fat_table_get(cc) {
        Err(Error::InvalidClusterNumber) => {},
        _ => panic!("an entry past the table must be refused"),
    }
}

#[test]
fn cluster_to_sector_maps_and_refuses() {
    let fs = mount_fat12();
    // the root region sits right under the data area
    assert_eq!(fs.cluster_to_sector(0).unwrap(), 9);
    assert_eq!(fs.cluster_to_sector(2).unwrap(), 13);
    assert_eq!(fs.cluster_to_sector(3).unwrap(), 14);
    match fs.cluster_to_sector(1) {
        Err(Error::InvalidClusterNumber) => {},
        _ => panic!("cluster 1 has no sector"),
    }
    match fs.cluster_to_sector(fs.cluster_count()) {
        Err(Error::InvalidClusterNumber) => {},
        _ => panic!("clusters past the volume have no sector"),
    }
    let fs32 = mount_fat32();
    // on FAT32 the root cluster is the first data cluster
    assert_eq!(fs32.cluster_to_sector(2).unwrap(), 1049);
    match fs32.cluster_to_sector(0) {
        Err(Error::InvalidClusterNumber) => {},
        _ => panic!("clusters below the root have no sector"),
    }
}

fn file_round_trip(fs: &mut Fs<RamDevice>) {
    let root = pion_fs::dir::Dir::root(fs).unwrap();
    let mut file = root.create_file(fs, b"data.bin").unwrap();
    let payload: Vec<u8> = (0..2000u32).map(|i| (i % 251) as u8).collect();
    assert_eq!(file.write(fs, &payload).unwrap(), payload.len());
    file.close(fs).unwrap();
    let root = pion_fs::dir::Dir::root(fs).unwrap();
    let mut file = root.open_file(fs, b"data.bin").unwrap();
    let back = file.read(fs, 4000).unwrap();
    assert_eq!(back, payload);
}

#[test]
fn fat16_files_round_trip() {
    file_round_trip(&mut mount_fat16());
}

#[test]
fn fat32_files_round_trip() {
    file_round_trip(&mut mount_fat32());
}

#[test]
fn fat12_files_round_trip() {
    file_round_trip(&mut mount_fat12());
}
