//! The lists of sources: mounts, well-known places and remotes.

use crate::escape;
use crate::laws::texts;
use crate::sources;
use crate::sources::{SourceView, Storage};
use crate::text;
use vstd::prelude::*;

verus! {

/// A mount is on the network by its file system, or, where that is a program's own, by the
/// desktop's name for it; the file systems of disks are local, and no other mount is listed.
pub proof fn law_kinds_of_mounts(mount: Seq<char>, fstype: Seq<char>, rest: Seq<char>)
    ensures
        sources::mount_kind(mount, "cifs"@) == Some("network"@),
        sources::mount_kind(mount, "smb3"@) == Some("network"@),
        sources::mount_kind(mount, "smbfs"@) == Some("network"@),
        sources::mount_kind(mount, "nfs"@) == Some("network"@),
        sources::mount_kind(mount, "nfs4"@) == Some("network"@),
        text::find_text(mount, "gvfs"@) is Some ==> sources::mount_kind(mount, "fuse."@ + rest)
            == Some("network"@),
        text::find_text(mount, "gvfs"@) is None ==> sources::mount_kind(mount, "fuse."@ + rest)
            == Some("local"@),
        sources::mount_kind(mount, "ext4"@) == Some("local"@),
        sources::mount_kind(mount, "xfs"@) == Some("local"@),
        sources::mount_kind(mount, "btrfs"@) == Some("local"@),
        sources::mount_kind(mount, "vfat"@) == Some("local"@),
        sources::mount_kind(mount, "exfat"@) == Some("local"@),
        sources::mount_kind(mount, "ntfs"@) == Some("local"@),
        sources::mount_kind(mount, "zfs"@) == Some("local"@),
        sources::mount_kind(mount, "f2fs"@) == Some("local"@),
        !"fuse."@.is_prefix_of(fstype) && fstype != "cifs"@ && fstype != "smb3"@ && fstype
            != "smbfs"@ && fstype != "nfs"@ && fstype != "nfs4"@ && fstype != "ext4"@ && fstype
            != "xfs"@ && fstype != "btrfs"@ && fstype != "vfat"@ && fstype != "exfat"@ && fstype
            != "ntfs"@ && fstype != "zfs"@ && fstype != "f2fs"@ ==> sources::mount_kind(
            mount,
            fstype,
        ) is None,
{
    reveal_strlit("fuse.");
    reveal_strlit("cifs");
    reveal_strlit("smb3");
    reveal_strlit("smbfs");
    reveal_strlit("nfs");
    reveal_strlit("nfs4");
    reveal_strlit("ext4");
    reveal_strlit("xfs");
    reveal_strlit("btrfs");
    reveal_strlit("vfat");
    reveal_strlit("exfat");
    reveal_strlit("ntfs");
    reveal_strlit("zfs");
    reveal_strlit("f2fs");
    let f = "fuse."@ + rest;
    assert(f.subrange(0, 5) =~= "fuse."@);
    assert(f[0] == 'f' && f[1] == 'u');
    assert("cifs"@[0] == 'c' && "smb3"@[0] == 's' && "smbfs"@[0] == 's' && "nfs"@[0] == 'n'
        && "nfs4"@[0] == 'n');
    assert("ext4"@[0] == 'e' && "xfs"@[0] == 'x' && "btrfs"@[0] == 'b' && "vfat"@[0] == 'v'
        && "exfat"@[0] == 'e' && "ntfs"@[0] == 'n' && "zfs"@[0] == 'z' && "f2fs"@[1] == '2');
    lemma_no_program("ext4"@);
    lemma_no_program("xfs"@);
    lemma_no_program("btrfs"@);
    lemma_no_program("vfat"@);
    lemma_no_program("exfat"@);
    lemma_no_program("ntfs"@);
    lemma_no_program("zfs"@);
    lemma_no_program("f2fs"@);
    assert("ntfs"@[1] == 't' && "nfs"@[1] == 'f' && "nfs4"@[1] == 'f');
}

proof fn lemma_no_program(s: Seq<char>)
    requires
        s.len() >= 2,
        s[0] != 'f' || s[1] != 'u',
    ensures
        !"fuse."@.is_prefix_of(s),
{
    reveal_strlit("fuse.");
    if "fuse."@.is_prefix_of(s) {
        assert(s.subrange(0, 5)[0] == s[0]);
        assert(s.subrange(0, 5)[1] == s[1]);
    }
}

/// A line of the mount table lists its mount, where that has a kind, behind those of the lines
/// before it: the fields stand between spaces, and a space in the mount is written as an octal
/// escape.
pub proof fn law_mounts_are_listed(
    ls: Seq<Seq<char>>,
    device: Seq<char>,
    mount: Seq<char>,
    fstype: Seq<char>,
    rest: Seq<char>,
)
    requires
        !device.contains(' '),
        !mount.contains(' '),
        !fstype.contains(' '),
    ensures
        ({
            let l = device + seq![' '] + mount + seq![' '] + fstype + seq![' '] + rest;
            match sources::mount_kind(mount, fstype) {
                Some(kind) => {
                    let name = text::replace(mount, "\\040"@, " "@);
                    sources::mounted(ls.push(l)) == sources::mounted(ls).push(
                        SourceView { path: name, fstype: fstype, kind: kind, label: name },
                    )
                },
                None => sources::mounted(ls.push(l)) == sources::mounted(ls),
            }
        }),
        sources::mounted(ls.push(device)) == sources::mounted(ls),
        sources::mounted(Seq::<Seq<char>>::empty()).len() == 0,
{
    let l = device + seq![' '] + mount + seq![' '] + fstype + seq![' '] + rest;
    let c = fstype + seq![' '] + rest;
    let b = mount + seq![' '] + c;
    assert(l =~= device + seq![' '] + b);
    texts::law_pieces(device, ' ', b);
    texts::law_pieces(mount, ' ', c);
    texts::law_pieces(fstype, ' ', rest);
    let f = text::split(l, ' ');
    assert(f[1] == mount);
    assert(f[2] == fstype);
    assert(ls.push(l).drop_last() == ls);
    assert(ls.push(device).drop_last() == ls);
}

/// The home directory comes first, then the root, then what there is of the stores of containers
/// and virtual machines.
pub proof fn law_places(home: Seq<char>, storage: Storage)
    ensures
        ({
            let p = sources::places(Some(home), storage);
            &&& p.len() == 2 + (if storage.docker {
                1int
            } else {
                0
            }) + (if storage.proxmox {
                1int
            } else {
                0
            }) + (if storage.proxmox_mounts {
                1int
            } else {
                0
            })
            &&& p[0].path == home && p[0].kind == "home"@ && p[0].label == "Home"@
            &&& p[1].path == "/"@ && p[1].kind == "local"@ && p[1].label == "Root /"@
            &&& p.drop_first() == sources::places(None, storage)
            &&& forall|i: int| 0 <= i < p.len() ==> (#[trigger] p[i]).fstype.len() == 0
            &&& storage.docker ==> p[2].path == "/var/lib/docker"@ && p[2].kind == "backup"@
                && p[2].label == "Docker storage"@
            &&& storage.proxmox_mounts ==> p.last().path == "/mnt/pve"@ && p.last().kind
                == "backup"@ && p.last().label == "Proxmox VE mounts"@
            &&& storage.proxmox ==> ({
                let v = p[if storage.docker {
                    3int
                } else {
                    2
                }];
                v.path == "/var/lib/vz"@ && v.kind == "backup"@ && v.label == "Proxmox VE storage"@
            })
        }),
{
    let p = sources::places(Some(home), storage);
    assert(p.drop_first() =~= sources::places(None, storage));
}

/// A source more is written behind the others, with a comma between.
pub proof fn law_sources_are_written(v: Seq<SourceView>, s: SourceView)
    ensures
        ({
            let one = "{\"path\":\""@ + escape::json_escaped(s.path) + "\",\"fstype\":\""@
                + escape::json_escaped(s.fstype) + "\",\"kind\":\""@ + s.kind + "\",\"label\":\""@
                + escape::json_escaped(s.label) + "\"}"@;
            &&& v.len() == 0 ==> sources::list_text(v.push(s)) == one
            &&& v.len() > 0 ==> sources::list_text(v.push(s)) == sources::list_text(v) + seq![',']
                + one
        }),
        sources::list_text(Seq::<SourceView>::empty()).len() == 0,
{
    let one = "{\"path\":\""@ + escape::json_escaped(s.path) + "\",\"fstype\":\""@
        + escape::json_escaped(s.fstype) + "\",\"kind\":\""@ + s.kind + "\",\"label\":\""@
        + escape::json_escaped(s.label) + "\"}"@;
    assert(v.push(s).drop_last() == v);
    assert(v.push(s).last() == s);
    if v.len() == 0 {
        assert(sources::list_text(v) =~= Seq::<char>::empty());
        assert(sources::list_text(v.push(s)) =~= one);
    } else {
        assert(sources::list_text(v.push(s)) =~= sources::list_text(v) + seq![','] + one);
    }
}

/// The list of sources stands in brackets: the places first, then the mounts.
pub proof fn law_source_lists(home: &str, storage: Storage, mounts: &str, r: String, q: String)
    requires
        call_ensures(sources::mounts_json, (Some(home), storage, Some(mounts)), r),
        call_ensures(sources::mounts_json, (None, storage, None), q),
    ensures
        r@ == "["@ + sources::list_text(
            sources::places(Some(home@), storage) + sources::mounted(text::lines(mounts@)),
        ) + "]"@,
        q@ == "["@ + sources::list_text(sources::places(None, storage)) + "]"@,
{
    assert(sources::places(None, storage) + Seq::<SourceView>::empty() =~= sources::places(
        None,
        storage,
    ));
}

/// Every line with a name gives the name without the white space around it; the others give none.
pub proof fn law_names_of_remotes(ls: Seq<Seq<char>>, l: Seq<char>)
    ensures
        text::trim(l).len() > 0 ==> sources::trimmed_lines(ls.push(l)) == sources::trimmed_lines(
            ls,
        ).push(text::trim(l)),
        text::trim(l).len() == 0 ==> sources::trimmed_lines(ls.push(l)) == sources::trimmed_lines(
            ls,
        ),
        sources::trimmed_lines(Seq::<Seq<char>>::empty()).len() == 0,
{
    assert(ls.push(l).drop_last() == ls);
    assert(ls.push(l).last() == l);
}

/// A name more is written as a string behind the others, with a comma between.
pub proof fn law_names_are_written(v: Seq<Seq<char>>, s: Seq<char>)
    ensures
        v.len() == 0
            ==> sources::strings_text(v.push(s)) == "\""@ + escape::json_escaped(s) + "\""@,
        v.len() > 0 ==> sources::strings_text(v.push(s)) == sources::strings_text(v) + ",\""@
            + escape::json_escaped(s) + "\""@,
        sources::strings_text(Seq::<Seq<char>>::empty()).len() == 0,
{
    reveal_strlit("\"");
    reveal_strlit(",\"");
    assert(v.push(s).drop_last() == v);
    assert(v.push(s).last() == s);
    assert("\""@ =~= seq!['"']);
    assert(",\""@ =~= seq![',', '"']);
    if v.len() == 0 {
        assert(sources::strings_text(v) =~= Seq::<char>::empty());
        assert(sources::strings_text(v.push(s)) =~= "\""@ + escape::json_escaped(s) + "\""@);
    } else {
        assert(sources::strings_text(v.push(s)) =~= sources::strings_text(v) + ",\""@
            + escape::json_escaped(s) + "\""@);
    }
}

/// The list of remotes stands in brackets, and is empty where there is no answer.
pub proof fn law_remote_lists(content: &str, r: String, q: String)
    requires
        call_ensures(sources::names_json, (content,), r),
        call_ensures(sources::remotes_json, (None,), q),
    ensures
        r@ == "["@ + sources::strings_text(sources::trimmed_lines(text::lines(content@))) + "]"@,
        q@ == "[]"@,
{
    reveal_strlit("[");
    reveal_strlit("]");
    reveal_strlit("[]");
    assert(q@ =~= "[]"@);
}

/// A line of the mount table counts with three fields or more: the second is the mount, the third
/// the file system.
pub proof fn law_fields_of_mounts(ls: Seq<Seq<char>>, l: Seq<char>)
    ensures
        ({
            let f = text::split(l, ' ');
            &&& f.len() < 3 ==> sources::mounted(ls.push(l)) == sources::mounted(ls)
            &&& f.len() >= 3 && sources::mount_kind(f[1], f[2]) is None ==> sources::mounted(
                ls.push(l),
            ) == sources::mounted(ls)
            &&& f.len() >= 3 && sources::mount_kind(f[1], f[2]) is Some ==> sources::mounted(
                ls.push(l),
            ) == sources::mounted(ls).push(
                SourceView {
                    path: text::replace(f[1], "\\040"@, " "@),
                    fstype: f[2],
                    kind: sources::mount_kind(f[1], f[2])->0,
                    label: text::replace(f[1], "\\040"@, " "@),
                },
            )
        }),
{
    assert(ls.push(l).drop_last() == ls);
    assert(ls.push(l).last() == l);
}

} // verus!
