use sdirstat::sources::{mounts_json, names_json, push_src, remotes_json, Storage};

const NOTHING: Storage = Storage { docker: false, proxmox: false, proxmox_mounts: false };

#[test]
fn one_source() {
    let mut out = String::new();
    let mut first = true;
    push_src(&mut out, &mut first, "/a\"", "ext4", "local", "L");
    assert!(!first);
    push_src(&mut out, &mut first, "/b", "", "home", "H");
    assert_eq!(
        out,
        "{\"path\":\"/a\\\"\",\"fstype\":\"ext4\",\"kind\":\"local\",\"label\":\"L\"},\
         {\"path\":\"/b\",\"fstype\":\"\",\"kind\":\"home\",\"label\":\"H\"}"
    );
}

#[test]
fn well_known_places() {
    assert_eq!(
        mounts_json(None, NOTHING, None),
        "[{\"path\":\"/\",\"fstype\":\"\",\"kind\":\"local\",\"label\":\"Root /\"}]"
    );
    let all = mounts_json(
        Some("/home/me"),
        Storage { docker: true, proxmox: true, proxmox_mounts: true },
        Some(""),
    );
    assert_eq!(
        all,
        "[{\"path\":\"/home/me\",\"fstype\":\"\",\"kind\":\"home\",\"label\":\"Home\"},\
         {\"path\":\"/\",\"fstype\":\"\",\"kind\":\"local\",\"label\":\"Root /\"},\
         {\"path\":\"/var/lib/docker\",\"fstype\":\"\",\"kind\":\"backup\",\"label\":\"Docker storage\"},\
         {\"path\":\"/var/lib/vz\",\"fstype\":\"\",\"kind\":\"backup\",\"label\":\"Proxmox VE storage\"},\
         {\"path\":\"/mnt/pve\",\"fstype\":\"\",\"kind\":\"backup\",\"label\":\"Proxmox VE mounts\"}]"
    );
}

#[test]
fn mount_table() {
    let table = "/dev/sda1 / ext4 rw 0 0\nproc /proc proc rw 0 0\n//nas/x /mnt/my\\040nas cifs rw 0 0\n\
                 gvfsd-fuse /run/user/1/gvfs fuse.gvfsd-fuse rw 0 0\nsshfs /mnt/s fuse.sshfs rw 0 0\nshort line\n";
    let s = mounts_json(None, NOTHING, Some(table));
    assert_eq!(
        s,
        "[{\"path\":\"/\",\"fstype\":\"\",\"kind\":\"local\",\"label\":\"Root /\"},\
         {\"path\":\"/\",\"fstype\":\"ext4\",\"kind\":\"local\",\"label\":\"/\"},\
         {\"path\":\"/mnt/my nas\",\"fstype\":\"cifs\",\"kind\":\"network\",\"label\":\"/mnt/my nas\"},\
         {\"path\":\"/run/user/1/gvfs\",\"fstype\":\"fuse.gvfsd-fuse\",\"kind\":\"network\",\"label\":\"/run/user/1/gvfs\"},\
         {\"path\":\"/mnt/s\",\"fstype\":\"fuse.sshfs\",\"kind\":\"local\",\"label\":\"/mnt/s\"}]"
    );
}

#[test]
fn kinds_of_mounts() {
    for t in ["cifs", "smb3", "smbfs", "nfs", "nfs4"] {
        let s = mounts_json(None, NOTHING, Some(&format!("d /m {t} rw")));
        assert!(s.contains(&format!("\"fstype\":\"{t}\",\"kind\":\"network\"")), "{t}");
    }
    for t in ["ext4", "xfs", "btrfs", "vfat", "exfat", "ntfs", "zfs", "f2fs"] {
        let s = mounts_json(None, NOTHING, Some(&format!("d /m {t} rw")));
        assert!(s.contains(&format!("\"fstype\":\"{t}\",\"kind\":\"local\"")), "{t}");
    }
    for t in ["proc", "tmpfs", "fuse", "ext3", ""] {
        let s = mounts_json(None, NOTHING, Some(&format!("d /m {t} rw")));
        assert_eq!(s.matches("\"path\"").count(), 1, "{t}");
    }
}

#[test]
fn remotes() {
    assert_eq!(remotes_json(None), "[]");
    assert_eq!(remotes_json(Some(b"")), "[]");
    assert_eq!(names_json(" a \n\nb"), "[\"a\",\"b\"]");
    assert_eq!(remotes_json(Some(b"s3:\n\n  nas: \r\nq\"\n\xff:\n")), "[\"s3:\",\"nas:\",\"q\\\"\",\"\u{fffd}:\"]");
}
