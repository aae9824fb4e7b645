//! The command lines.

use crate::arena;
use crate::arena::Cfg;
use crate::text;
use vstd::prelude::*;

verus! {

/// What the program does.
#[derive(Clone, Copy, PartialEq, Eq, Structural)]
pub enum Mode {
    /// Scan, and write a report page.
    Html,
    /// Scan, and write a JSON tree.
    Json,
    /// Scan, and write a cache file.
    Cache,
    /// Scan, and print the total.
    Total,
    /// Serve the application.
    Serve,
    /// Serve the application and show it in a window.
    Gui,
    /// Add the menu entry.
    InstallDesktop,
    /// Remove the menu entry.
    UninstallDesktop,
}

/// A command line.
pub struct Args {
    /// What the program does.
    pub mode: Mode,
    /// What is scanned.
    pub root: String,
    /// Where the output goes; empty for the default.
    pub out: String,
    /// The port of the application.
    pub port: u16,
    /// The settings of the scan.
    pub cfg: Cfg,
}

/// A command line as a mathematical value.
pub struct ArgsView {
    pub mode: Mode,
    pub root: Seq<char>,
    pub out: Seq<char>,
    pub port: u16,
    pub cfg: Cfg,
}

impl View for Args {
    type V = ArgsView;

    open spec fn view(&self) -> ArgsView {
        ArgsView {
            mode: self.mode,
            root: self.root@,
            out: self.out@,
            port: self.port,
            cfg: self.cfg,
        }
    }
}

/// The settings when nothing is asked for.
pub open spec fn default_cfg() -> Cfg {
    Cfg {
        max_depth: 40,
        top: 80,
        threads: 0,
        apparent: false,
        no_stat: false,
        iouring: false,
        max_entries: arena::DEFAULT_MAX_ENTRIES,
        one_fs: false,
    }
}

/// The command line when nothing is asked for.
pub open spec fn default_args() -> ArgsView {
    ArgsView {
        mode: Mode::Html,
        root: "."@,
        out: seq![],
        port: 8080,
        cfg: default_cfg(),
    }
}

/// Whether an argument takes the one after it as its value.
pub open spec fn takes_value(a: Seq<char>) -> bool {
    a == "--port"@ || a == "-p"@ || a == "-o"@ || a == "--max-depth"@ || a == "--top"@ || a
        == "--threads"@ || a == "--max-entries"@
}

/// The number that a value denotes, or the default.
pub open spec fn number_or(v: Option<Seq<char>>, max: nat, default: nat) -> nat {
    match v {
        Some(s) => match text::uint_value(s, max) {
            Some(n) => n,
            None => default,
        },
        None => default,
    }
}

/// The command line after an argument and its value.
pub open spec fn with_value(w: ArgsView, a: Seq<char>, v: Option<Seq<char>>) -> ArgsView {
    if a == "--port"@ || a == "-p"@ {
        ArgsView { port: number_or(v, u16::MAX as nat, 8080) as u16, ..w }
    } else if a == "-o"@ {
        ArgsView {
            out: match v {
                Some(s) => s,
                None => seq![],
            },
            ..w
        }
    } else if a == "--max-depth"@ {
        let n = number_or(v, u32::MAX as nat, 40) as u32;
        ArgsView { cfg: Cfg { max_depth: n, ..w.cfg }, ..w }
    } else if a == "--top"@ {
        let n = number_or(v, usize::MAX as nat, 80) as usize;
        ArgsView { cfg: Cfg { top: n, ..w.cfg }, ..w }
    } else if a == "--threads"@ {
        let n = number_or(v, usize::MAX as nat, 0) as usize;
        ArgsView { cfg: Cfg { threads: n, ..w.cfg }, ..w }
    } else {
        let n = number_or(v, usize::MAX as nat, arena::DEFAULT_MAX_ENTRIES as nat) as usize;
        ArgsView {
            cfg: Cfg {
                max_entries: if n == 0 {
                    usize::MAX
                } else {
                    n
                },
                ..w.cfg
            },
            ..w
        }
    }
}

/// The command line after an argument without a value: the name of a mode, a switch, or, without a
/// dash, what is scanned. Switches that there are not are passed over.
pub open spec fn with_word(w: ArgsView, a: Seq<char>) -> ArgsView {
    if a == "serve"@ {
        ArgsView { mode: Mode::Serve, ..w }
    } else if a == "gui"@ {
        ArgsView { mode: Mode::Gui, ..w }
    } else if a == "install-desktop"@ {
        ArgsView { mode: Mode::InstallDesktop, ..w }
    } else if a == "uninstall-desktop"@ {
        ArgsView { mode: Mode::UninstallDesktop, ..w }
    } else if a == "--json"@ {
        ArgsView { mode: Mode::Json, ..w }
    } else if a == "--cache"@ {
        ArgsView { mode: Mode::Cache, ..w }
    } else if a == "--total"@ {
        ArgsView { mode: Mode::Total, ..w }
    } else if a == "--no-stat"@ {
        ArgsView { cfg: Cfg { no_stat: true, ..w.cfg }, ..w }
    } else if a == "--iouring"@ {
        ArgsView { cfg: Cfg { iouring: true, ..w.cfg }, ..w }
    } else if a == "--apparent"@ {
        ArgsView { cfg: Cfg { apparent: true, ..w.cfg }, ..w }
    } else if a == "--one-file-system"@ || a == "-x"@ {
        ArgsView { cfg: Cfg { one_fs: true, ..w.cfg }, ..w }
    } else if a.len() == 0 || a[0] != '-' {
        ArgsView { root: a, ..w }
    } else {
        w
    }
}

/// The command line after the arguments.
pub open spec fn with_args(w: ArgsView, args: Seq<Seq<char>>) -> ArgsView
    decreases args.len(),
{
    if args.len() == 0 {
        w
    } else if takes_value(args[0]) {
        if args.len() == 1 {
            with_value(w, args[0], None)
        } else {
            with_args(with_value(w, args[0], Some(args[1])), args.skip(2))
        }
    } else {
        with_args(with_word(w, args[0]), args.skip(1))
    }
}

/// The arguments as mathematical values.
pub open spec fn arg_views(args: Seq<String>) -> Seq<Seq<char>> {
    Seq::new(args.len(), |i: int| args[i]@)
}

/// Whether help is asked for: there is no argument, or one of them asks for it.
pub open spec fn asks_for_help(args: Seq<Seq<char>>) -> bool {
    args.len() == 0 || args.contains("-h"@) || args.contains("--help"@)
}

/// Whether a text is the given one.
fn is(a: &str, t: &str) -> (r: bool)
    ensures
        r == (a@ == t@),
{
    let chars = text::chars_of(a);
    text::is_text(chars.as_slice(), t)
}

/// The number that a value denotes, or the default.
fn number_of(v: Option<&str>, max: u64, default: u64) -> (r: u64)
    requires
        default <= max,
    ensures
        r == number_or(
            match v {
                Some(s) => Some(s@),
                None => None,
            },
            max as nat,
            default as nat,
        ),
        r <= max,
{
    match v {
        Some(s) => {
            let chars = text::chars_of(s);
            match text::parse_uint(chars.as_slice(), max) {
                Some(n) => n,
                None => default,
            }
        },
        None => default,
    }
}

/// Takes up an argument and its value.
fn take_value(w: &mut Args, a: &str, v: Option<&str>)
    requires
        takes_value(a@),
    ensures
        final(w)@ == with_value(
            old(w)@,
            a@,
            match v {
                Some(s) => Some(s@),
                None => None,
            },
        ),
{
    if is(a, "--port") || is(a, "-p") {
        w.port = number_of(v, u16::MAX as u64, 8080) as u16;
    } else if is(a, "-o") {
        w.out = match v {
            Some(s) => s.to_string(),
            None => String::new(),
        };
    } else if is(a, "--max-depth") {
        w.cfg.max_depth = number_of(v, u32::MAX as u64, 40) as u32;
    } else if is(a, "--top") {
        w.cfg.top = number_of(v, usize::MAX as u64, 80) as usize;
    } else if is(a, "--threads") {
        w.cfg.threads = number_of(v, usize::MAX as u64, 0) as usize;
    } else {
        let n = number_of(v, usize::MAX as u64, arena::DEFAULT_MAX_ENTRIES as u64) as usize;
        w.cfg.max_entries = if n == 0 {
            usize::MAX
        } else {
            n
        };
    }
}

/// Whether an argument takes a value.
fn has_value(a: &str) -> (r: bool)
    ensures
        r == takes_value(a@),
{
    is(a, "--port") || is(a, "-p") || is(a, "-o") || is(a, "--max-depth") || is(a, "--top") || is(
        a,
        "--threads",
    ) || is(a, "--max-entries")
}

/// Takes up an argument without a value.
fn take_word(w: &mut Args, a: &str)
    ensures
        final(w)@ == with_word(old(w)@, a@),
{
    if is(a, "serve") {
        w.mode = Mode::Serve;
    } else if is(a, "gui") {
        w.mode = Mode::Gui;
    } else if is(a, "install-desktop") {
        w.mode = Mode::InstallDesktop;
    } else if is(a, "uninstall-desktop") {
        w.mode = Mode::UninstallDesktop;
    } else if is(a, "--json") {
        w.mode = Mode::Json;
    } else if is(a, "--cache") {
        w.mode = Mode::Cache;
    } else if is(a, "--total") {
        w.mode = Mode::Total;
    } else if is(a, "--no-stat") {
        w.cfg.no_stat = true;
    } else if is(a, "--iouring") {
        w.cfg.iouring = true;
    } else if is(a, "--apparent") {
        w.cfg.apparent = true;
    } else if is(a, "--one-file-system") || is(a, "-x") {
        w.cfg.one_fs = true;
    } else {
        let chars = text::chars_of(a);
        if chars.len() == 0 || chars[0] != '-' {
            w.root = a.to_string();
        }
    }
}

/// Whether an argument asks for help.
fn any_help(args: &Vec<String>) -> (r: bool)
    ensures
        r == (arg_views(args@).contains("-h"@) || arg_views(args@).contains("--help"@)),
{
    let ghost all = arg_views(args@);
    let mut i: usize = 0;
    while i < args.len()
        invariant
            i <= args@.len(),
            all == arg_views(args@),
            forall|k: int| 0 <= k < i ==> #[trigger] all[k] != "-h"@ && all[k] != "--help"@,
        decreases args@.len() - i,
    {
        if is(args[i].as_str(), "-h") || is(args[i].as_str(), "--help") {
            assert(all[i as int] == args@[i as int]@);
            assert(all.contains(all[i as int]));
            return true;
        }
        i = i + 1;
    }
    false
}

/// Reads the arguments, without the name of the program; nothing where help is asked for. Of two
/// arguments for one thing the later one counts.
pub fn parse_args(args: &Vec<String>) -> (r: Option<Args>)
    ensures
        match r {
            Some(w) => !asks_for_help(arg_views(args@)) && w@ == with_args(
                default_args(),
                arg_views(args@),
            ),
            None => asks_for_help(arg_views(args@)),
        },
{
    let ghost all = arg_views(args@);
    if args.len() == 0 || any_help(args) {
        return None;
    }
    let mut w = Args {
        mode: Mode::Html,
        root: ".".to_string(),
        out: String::new(),
        port: 8080,
        cfg: Cfg {
            max_depth: 40,
            top: 80,
            threads: 0,
            apparent: false,
            no_stat: false,
            iouring: false,
            max_entries: arena::DEFAULT_MAX_ENTRIES,
            one_fs: false,
        },
    };
    let n = args.len();
    let mut i: usize = 0;
    assert(all.skip(0) == all);
    assert(w@ == default_args());
    while i < n
        invariant
            n == args@.len(),
            i <= n,
            all == arg_views(args@),
            with_args(w@, all.skip(i as int)) == with_args(default_args(), all),
        decreases n - i,
    {
        let ghost rest = all.skip(i as int);
        let a = args[i].as_str();
        assert(rest[0] == a@);
        if has_value(a) {
            if i + 1 < n {
                assert(rest[1] == args@[i + 1]@);
                assert(rest.skip(2) == all.skip(i + 2));
                take_value(&mut w, a, Some(args[i + 1].as_str()));
                i = i + 2;
            } else {
                take_value(&mut w, a, None);
                assert(all.skip(n as int) == Seq::<Seq<char>>::empty());
                i = i + 1;
            }
        } else {
            assert(rest.skip(1) == all.skip(i + 1));
            take_word(&mut w, a);
            i = i + 1;
        }
    }
    assert(all.skip(n as int) == Seq::<Seq<char>>::empty());
    Some(w)
}

/// Where the output goes.
pub fn output_path(args: &Args) -> (r: String)
    ensures
        r@ == (if args@.out.len() > 0 {
            args@.out
        } else {
            match args.mode {
                Mode::Json => "tree.json"@,
                Mode::Cache => "out.qdirstat.cache"@,
                _ => "report.html"@,
            }
        }),
{
    let chars = text::chars_of(args.out.as_str());
    if chars.len() > 0 {
        return args.out.clone();
    }
    match args.mode {
        Mode::Json => "tree.json".to_string(),
        Mode::Cache => "out.qdirstat.cache".to_string(),
        _ => "report.html".to_string(),
    }
}

/// Whether a scan stopped at its ceiling, so that what it found is not everything.
pub fn is_incomplete(entries: usize, cfg: &Cfg) -> (r: bool)
    ensures
        r == (entries >= cfg.max_entries),
{
    entries >= cfg.max_entries
}

// ── the sweep ──

/// What the arguments of the sweep say: what is swept, and over how many slots.
pub open spec fn sweep_args(root: Seq<char>, qd: u32, args: Seq<Seq<char>>) -> (Seq<char>, u32)
    decreases args.len(),
{
    if args.len() == 0 {
        (root, qd)
    } else if args[0] == "--qd"@ {
        if args.len() == 1 {
            (root, 256)
        } else {
            sweep_args(root, number_or(Some(args[1]), u32::MAX as nat, 256) as u32, args.skip(2))
        }
    } else if args[0].len() == 0 || args[0][0] != '-' {
        sweep_args(args[0], qd, args.skip(1))
    } else {
        sweep_args(root, qd, args.skip(1))
    }
}

/// Reads the arguments of the sweep, without the name of the program.
pub fn parse_sweep_args(args: &Vec<String>) -> (r: (String, u32))
    ensures
        (r.0@, r.1) == sweep_args(seq![], 256, arg_views(args@)),
{
    let ghost all = arg_views(args@);
    let n = args.len();
    let mut root = String::new();
    let mut qd: u32 = 256;
    let mut i: usize = 0;
    assert(all.skip(0) == all);
    while i < n
        invariant
            n == args@.len(),
            i <= n,
            all == arg_views(args@),
            sweep_args(root@, qd, all.skip(i as int)) == sweep_args(seq![], 256, all),
        decreases n - i,
    {
        let ghost rest = all.skip(i as int);
        let a = args[i].as_str();
        assert(rest[0] == a@);
        if is(a, "--qd") {
            if i + 1 < n {
                assert(rest[1] == args@[i + 1]@);
                assert(rest.skip(2) == all.skip(i + 2));
                qd = number_of(Some(args[i + 1].as_str()), u32::MAX as u64, 256) as u32;
                i = i + 2;
            } else {
                qd = 256;
                assert(all.skip(n as int) == Seq::<Seq<char>>::empty());
                i = i + 1;
            }
        } else {
            assert(rest.skip(1) == all.skip(i + 1));
            let chars = text::chars_of(a);
            if chars.len() == 0 || chars[0] != '-' {
                root = a.to_string();
            }
            i = i + 1;
        }
    }
    assert(all.skip(n as int) == Seq::<Seq<char>>::empty());
    (root, qd)
}

} // verus!
