//! What can be scanned: well-known places, mounted file systems and configured remotes, as JSON.

use crate::escape;
use crate::text;
use vstd::prelude::*;

verus! {

/// One source.
pub open spec fn source_text(
    path: Seq<char>,
    fstype: Seq<char>,
    kind: Seq<char>,
    label: Seq<char>,
) -> Seq<char> {
    "{\"path\":\""@ + escape::json_escaped(path) + "\",\"fstype\":\""@ + escape::json_escaped(
        fstype,
    ) + "\",\"kind\":\""@ + kind + "\",\"label\":\""@ + escape::json_escaped(label) + "\"}"@
}

/// The list with one more element.
pub open spec fn with_element(list: Seq<char>, first: bool, element: Seq<char>) -> Seq<char> {
    list + (if first {
        seq![]
    } else {
        seq![',']
    }) + element
}

/// Appends one source to a list, with a comma before it unless it is the first.
pub fn push_src(
    out: &mut String,
    first: &mut bool,
    path: &str,
    fstype: &str,
    kind: &str,
    label: &str,
)
    ensures
        final(out)@ == with_element(
            old(out)@,
            *old(first),
            source_text(path@, fstype@, kind@, label@),
        ),
        !*final(first),
{
    if !*first {
        out.push(',');
    }
    let ghost base = out@;
    *first = false;
    out.append("{\"path\":\"");
    escape::json_escape(path, out);
    out.append("\",\"fstype\":\"");
    escape::json_escape(fstype, out);
    out.append("\",\"kind\":\"");
    out.append(kind);
    out.append("\",\"label\":\"");
    escape::json_escape(label, out);
    out.append("\"}");
    assert(out@ == base + source_text(path@, fstype@, kind@, label@));
    assert(base == old(out)@ + (if *old(first) {
        Seq::<char>::empty()
    } else {
        seq![',']
    }));
}

/// What is told of one source: path, file system type, kind and label.
pub struct SourceView {
    pub path: Seq<char>,
    pub fstype: Seq<char>,
    pub kind: Seq<char>,
    pub label: Seq<char>,
}

/// The sources, with commas between them.
pub open spec fn list_text(v: Seq<SourceView>) -> Seq<char>
    decreases v.len(),
{
    if v.len() == 0 {
        seq![]
    } else {
        let s = v.last();
        with_element(
            list_text(v.drop_last()),
            v.len() == 1,
            source_text(s.path, s.fstype, s.kind, s.label),
        )
    }
}

/// Whether the file system is on the network.
pub open spec fn is_network(fstype: Seq<char>) -> bool {
    fstype == "cifs"@ || fstype == "smb3"@ || fstype == "smbfs"@ || fstype == "nfs"@ || fstype
        == "nfs4"@
}

/// Whether the file system is on a disk.
pub open spec fn is_disk(fstype: Seq<char>) -> bool {
    fstype == "ext4"@ || fstype == "xfs"@ || fstype == "btrfs"@ || fstype == "vfat"@ || fstype
        == "exfat"@ || fstype == "ntfs"@ || fstype == "zfs"@ || fstype == "f2fs"@
}

/// The kind of a mount: network file systems and what is mounted for the desktop, or local ones. All
/// others are passed over.
pub open spec fn mount_kind(mount: Seq<char>, fstype: Seq<char>) -> Option<Seq<char>> {
    if is_network(fstype) {
        Some("network"@)
    } else if "fuse."@.is_prefix_of(fstype) {
        if text::find_text(mount, "gvfs"@) is Some {
            Some("network"@)
        } else {
            Some("local"@)
        }
    } else if is_disk(fstype) {
        Some("local"@)
    } else {
        None
    }
}

/// The sources of the lines of a mount table: the second field is the mount point, in which `\040`
/// stands for a space, the third the file system type.
pub open spec fn mounted(ls: Seq<Seq<char>>) -> Seq<SourceView>
    decreases ls.len(),
{
    if ls.len() == 0 {
        seq![]
    } else {
        let front = mounted(ls.drop_last());
        let f = text::split(ls.last(), ' ');
        if f.len() < 3 {
            front
        } else {
            let mount = text::replace(f[1], "\\040"@, " "@);
            match mount_kind(f[1], f[2]) {
                Some(kind) => front.push(
                    SourceView { path: mount, fstype: f[2], kind: kind, label: mount },
                ),
                None => front,
            }
        }
    }
}

/// A well-known place.
pub open spec fn place(path: Seq<char>, kind: Seq<char>, label: Seq<char>) -> SourceView {
    SourceView { path: path, fstype: seq![], kind: kind, label: label }
}

/// Which places for virtual machines and containers there are.
#[derive(Clone, Copy)]
pub struct Storage {
    /// `/var/lib/docker` is a directory.
    pub docker: bool,
    /// `/var/lib/vz` is a directory.
    pub proxmox: bool,
    /// `/mnt/pve` is a directory.
    pub proxmox_mounts: bool,
}

/// The sources that do not come from the mount table.
pub open spec fn places(home: Option<Seq<char>>, storage: Storage) -> Seq<SourceView> {
    (match home {
        Some(h) => seq![place(h, "home"@, "Home"@)],
        None => seq![],
    }) + seq![place("/"@, "local"@, "Root /"@)] + (if storage.docker {
        seq![place("/var/lib/docker"@, "backup"@, "Docker storage"@)]
    } else {
        seq![]
    }) + (if storage.proxmox {
        seq![place("/var/lib/vz"@, "backup"@, "Proxmox VE storage"@)]
    } else {
        seq![]
    }) + (if storage.proxmox_mounts {
        seq![place("/mnt/pve"@, "backup"@, "Proxmox VE mounts"@)]
    } else {
        seq![]
    })
}

/// The kind of a mount.
fn kind_of_mount(mount: &[char], fstype: &[char]) -> (r: Option<&'static str>)
    ensures
        match r {
            Some(k) => mount_kind(mount@, fstype@) == Some(k@),
            None => mount_kind(mount@, fstype@) is None,
        },
{
    if text::is_text(fstype, "cifs") || text::is_text(fstype, "smb3") || text::is_text(
        fstype,
        "smbfs",
    ) || text::is_text(fstype, "nfs") || text::is_text(fstype, "nfs4") {
        return Some("network");
    }
    if text::starts_with(fstype, "fuse.") {
        let gvfs = text::chars_of("gvfs");
        assert(mount@.skip(0) == mount@);
        return match text::find_text_from(mount, 0, gvfs.as_slice()) {
            Some(_) => Some("network"),
            None => Some("local"),
        };
    }
    if text::is_text(fstype, "ext4") || text::is_text(fstype, "xfs") || text::is_text(
        fstype,
        "btrfs",
    ) || text::is_text(fstype, "vfat") || text::is_text(fstype, "exfat") || text::is_text(
        fstype,
        "ntfs",
    ) || text::is_text(fstype, "zfs") || text::is_text(fstype, "f2fs") {
        return Some("local");
    }
    None
}

/// Appends one source to a list of sources.
fn add_source(
    out: &mut String,
    first: &mut bool,
    v: Ghost<Seq<SourceView>>,
    path: &str,
    fstype: &str,
    kind: &str,
    label: &str,
)
    requires
        old(out)@ == "["@ + list_text(v@),
        *old(first) == (v@.len() == 0),
    ensures
        final(out)@ == "["@ + list_text(
            v@.push(SourceView { path: path@, fstype: fstype@, kind: kind@, label: label@ }),
        ),
        !*final(first),
{
    let ghost s = SourceView { path: path@, fstype: fstype@, kind: kind@, label: label@ };
    push_src(out, first, path, fstype, kind, label);
    proof {
        let w = v@;
        assert(w.push(s).drop_last() =~= w);
        assert(w.push(s).last() == s);
    }
}

/// All sources as a JSON array: the home directory where it is known, the root, the storage places
/// that exist, and the mounts of the mount table where it could be read.
pub fn mounts_json(home: Option<&str>, storage: Storage, mounts: Option<&str>) -> (r: String)
    ensures
        r@ == "["@ + list_text(
            places(
                match home {
                    Some(h) => Some(h@),
                    None => None,
                },
                storage,
            ) + match mounts {
                Some(m) => mounted(text::lines(m@)),
                None => seq![],
            },
        ) + "]"@,
{
    let mut out = "[".to_string();
    let mut first = true;
    let ghost mut v = Seq::<SourceView>::empty();
    assert("["@ + list_text(v) == "["@);
    if let Some(h) = home {
        add_source(&mut out, &mut first, Ghost(v), h, "", "home", "Home");
        proof {
            reveal_strlit("");
            assert(""@ == Seq::<char>::empty());
            v = v.push(place(h@, "home"@, "Home"@));
        }
    }
    proof {
        reveal_strlit("");
        assert(""@ == Seq::<char>::empty());
    }
    add_source(&mut out, &mut first, Ghost(v), "/", "", "local", "Root /");
    proof {
        v = v.push(place("/"@, "local"@, "Root /"@));
    }
    if storage.docker {
        add_source(
            &mut out,
            &mut first,
            Ghost(v),
            "/var/lib/docker",
            "",
            "backup",
            "Docker storage",
        );
        proof {
            v = v.push(place("/var/lib/docker"@, "backup"@, "Docker storage"@));
        }
    }
    if storage.proxmox {
        add_source(
            &mut out,
            &mut first,
            Ghost(v),
            "/var/lib/vz",
            "",
            "backup",
            "Proxmox VE storage",
        );
        proof {
            v = v.push(place("/var/lib/vz"@, "backup"@, "Proxmox VE storage"@));
        }
    }
    if storage.proxmox_mounts {
        add_source(&mut out, &mut first, Ghost(v), "/mnt/pve", "", "backup", "Proxmox VE mounts");
        proof {
            v = v.push(place("/mnt/pve"@, "backup"@, "Proxmox VE mounts"@));
        }
    }
    let ghost known = v;
    assert(known == places(
        match home {
            Some(h) => Some(h@),
            None => None,
        },
        storage,
    ));
    if let Some(m) = mounts {
        let chars = text::chars_of(m);
        let ls = text::lines_of(chars.as_slice());
        let ghost all = text::views(ls@);
        let space_code = text::chars_of("\\040");
        let space = text::chars_of(" ");
        proof {
            reveal_strlit("\\040");
        }
        let mut i: usize = 0;
        assert(all.take(0) == Seq::<Seq<char>>::empty());
        assert(known + mounted(all.take(0)) == known);
        while i < ls.len()
            invariant
                i <= ls@.len(),
                all == text::views(ls@),
                space_code@ == "\\040"@,
                space@ == " "@,
                space_code@.len() > 0,
                known.len() > 0,
                !first,
                out@ == "["@ + list_text(known + mounted(all.take(i as int))),
            decreases ls@.len() - i,
        {
            let f = text::split_at_char(ls[i], ' ');
            proof {
                assert(all.take(i + 1).drop_last() == all.take(i as int));
                assert(all.take(i + 1).last() == ls@[i as int]@);
                assert(text::views(f@).len() == f@.len());
            }
            if f.len() >= 3 {
                assert(text::views(f@)[1] == f@[1]@ && text::views(f@)[2] == f@[2]@);
                if let Some(kind) = kind_of_mount(f[1], f[2]) {
                    let mount_chars = text::replaced(f[1], space_code.as_slice(), space.as_slice());
                    let mount = text::text_of(mount_chars.as_slice());
                    let fstype = text::text_of(f[2]);
                    let ghost v = known + mounted(all.take(i as int));
                    add_source(
                        &mut out,
                        &mut first,
                        Ghost(v),
                        mount.as_str(),
                        fstype.as_str(),
                        kind,
                        mount.as_str(),
                    );
                    proof {
                        let s = SourceView {
                            path: mount@,
                            fstype: fstype@,
                            kind: kind@,
                            label: mount@,
                        };
                        assert(v.push(s) == known + mounted(all.take(i + 1)));
                    }
                }
            }
            i = i + 1;
        }
        assert(all.take(all.len() as int) == all);
    } else {
        assert(known + Seq::<SourceView>::empty() == known);
    }
    out.append("]");
    out
}

/// The trimmed lines that are not empty.
pub open spec fn trimmed_lines(ls: Seq<Seq<char>>) -> Seq<Seq<char>>
    decreases ls.len(),
{
    if ls.len() == 0 {
        seq![]
    } else if text::trim(ls.last()).len() == 0 {
        trimmed_lines(ls.drop_last())
    } else {
        trimmed_lines(ls.drop_last()).push(text::trim(ls.last()))
    }
}

/// The texts as JSON strings with commas between them.
pub open spec fn strings_text(v: Seq<Seq<char>>) -> Seq<char>
    decreases v.len(),
{
    if v.len() == 0 {
        seq![]
    } else {
        with_element(
            strings_text(v.drop_last()),
            v.len() == 1,
            seq!['"'] + escape::json_escaped(v.last()) + seq!['"'],
        )
    }
}

/// The remotes that `rclone listremotes` printed, as a JSON array of their names; an empty one where
/// it could not be run or failed.
pub fn remotes_json(stdout: Option<&[u8]>) -> (r: String)
    ensures
        r@ == "["@ + match stdout {
            Some(b) => strings_text(trimmed_lines(text::lines(text::utf8_text(b@)))),
            None => seq![],
        } + "]"@,
{
    match stdout {
        Some(b) => {
            let content = text::text_from_utf8_lossy(b);
            names_json(content.as_str())
        },
        None => {
            let mut arr = "[".to_string();
            arr.append("]");
            assert("["@ + Seq::<char>::empty() == "["@);
            arr
        },
    }
}

/// The lines of a text that are not empty, trimmed, as a JSON array.
pub fn names_json(content: &str) -> (r: String)
    ensures
        r@ == "["@ + strings_text(trimmed_lines(text::lines(content@))) + "]"@,
{
    let mut arr = "[".to_string();
    let chars = text::chars_of(content);
    let ls = text::lines_of(chars.as_slice());
    let ghost all = text::views(ls@);
    let mut first = true;
    let mut i: usize = 0;
    assert(all.take(0) == Seq::<Seq<char>>::empty());
    assert("["@ + strings_text(trimmed_lines(all.take(0))) == "["@);
    while i < ls.len()
        invariant
            i <= ls@.len(),
            all == text::views(ls@),
            first == (trimmed_lines(all.take(i as int)).len() == 0),
            arr@ == "["@ + strings_text(trimmed_lines(all.take(i as int))),
        decreases ls@.len() - i,
    {
        let ghost v = trimmed_lines(all.take(i as int));
        proof {
            assert(all.take(i + 1).drop_last() == all.take(i as int));
            assert(all.take(i + 1).last() == ls@[i as int]@);
        }
        let l = text::trimmed(ls[i]);
        if l.len() > 0 {
            if !first {
                arr.push(',');
            }
            first = false;
            let name = text::text_of(l);
            arr.push('"');
            escape::json_escape(name.as_str(), &mut arr);
            arr.push('"');
            proof {
                assert(v.push(l@).drop_last() == v);
                assert(v.push(l@).last() == l@);
                assert(arr@ == "["@ + strings_text(v.push(l@)));
            }
        }
        i = i + 1;
    }
    assert(all.take(all.len() as int) == all);
    arr.append("]");
    arr
}

} // verus!
