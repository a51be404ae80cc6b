use costree::path::FsPath;
use costree::roots::roots_from_mounts;
use costree::status::ScanStatus;

const MOUNTS: &str = "\
sysfs /sys sysfs rw,nosuid,nodev,noexec,relatime 0 0
proc /proc proc rw,nosuid,nodev,noexec,relatime 0 0
/dev/nvme0n1p2 / ext4 rw,relatime 0 0
/dev/nvme0n1p1 /boot/efi vfat rw,relatime 0 0
/dev/sda1 /mnt/My\\040Disk ntfs3 rw 0 0
tmpfs /tmp tmpfs rw 0 0
/dev/sdb1 /data btrfs rw 0 0
/dev/sdb1 /data btrfs rw 0 0
short line
/dev/sdc1\t/media/usb   exfat rw 0 0";

#[test]
fn detect_roots_always_includes_home_and_filesystem_root() {
    let home = FsPath::parse("/home/example");
    for mounts in ["", MOUNTS, "garbage\n\n\n"] {
        let roots = roots_from_mounts(&home, mounts);
        assert!(roots.iter().any(|(label, path)| label == "Home" && path == &home));
        assert!(roots.iter().any(|(_, path)| *path == FsPath::parse("/")));
    }
}

#[test]
fn roots_from_mounts_lists_real_volumes_once() {
    let home = FsPath::parse("/home/example");
    let roots = roots_from_mounts(&home, MOUNTS);
    let labels: Vec<&str> = roots.iter().map(|(l, _)| l.as_str()).collect();
    assert_eq!(
        labels,
        vec!["Home", "Filesystem (/)", "/boot/efi", "/mnt/My Disk", "/data", "/media/usb"]
    );
    assert_eq!(roots[3].1, FsPath::parse("/mnt/My Disk"));
    assert_eq!(roots[1].1, FsPath::parse("/"));
}

#[test]
fn roots_from_mounts_skips_a_volume_already_listed() {
    let home = FsPath::parse("/home/example");
    let roots = roots_from_mounts(&home, "/dev/x /home/example ext4 rw 0 0\r\n/dev/y /srv xfs rw 0 0\r\n");
    let labels: Vec<&str> = roots.iter().map(|(l, _)| l.as_str()).collect();
    assert_eq!(labels, vec!["Home", "Filesystem (/)", "/srv"]);
}

#[test]
fn scan_status_generations() {
    let mut status = ScanStatus::new();
    assert_eq!(status.current_generation(), 0);
    assert!(status.current_scan_path().is_none());
    let first = status.next_generation();
    assert_eq!(first, 1);
    assert!(!status.is_stale(first));
    let second = status.next_generation();
    assert_eq!(second, 2);
    assert!(status.is_stale(first));
    assert_eq!(status.current_generation(), 2);
    status.set_current_scan_path(FsPath::parse("/a"));
    assert_eq!(status.current_scan_path(), Some(FsPath::parse("/a")));
    status.clear_current_scan_path();
    assert!(status.current_scan_path().is_none());
}

#[test]
fn each_root_keeps_the_text_it_is_written_as() {
    let home = FsPath::parse("/home/example/");
    let roots = roots_from_mounts(&home, MOUNTS);
    assert_eq!(roots[0].1.text, "/home/example/");
    assert_eq!(roots[1].1.text, "/");
    assert_eq!(roots[3].1.text, "/mnt/My Disk");
    for (label, path) in &roots[2..] {
        assert_eq!(&path.text, label);
    }
}
