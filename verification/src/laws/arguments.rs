//! The command line.

use crate::arena;
use crate::arena::Cfg;
use crate::cli;
use crate::cli::{Args, ArgsView, Mode};
use crate::laws::texts;
use crate::text;
use vstd::prelude::*;

verus! {

/// Without arguments that say otherwise a page of the current directory is written: up to 40 levels
/// and 80 children of a directory, allocated sizes, at most 32 million entries, across file
/// systems.
pub proof fn law_defaults()
    ensures
        cli::default_args().mode == Mode::Html,
        cli::default_args().root == "."@,
        cli::default_args().out.len() == 0,
        cli::default_args().port == 8080,
        cli::default_args().cfg == (Cfg {
            max_depth: 40,
            top: 80,
            threads: 0,
            apparent: false,
            no_stat: false,
            iouring: false,
            max_entries: 32_000_000,
            one_fs: false,
        }),
        arena::DEFAULT_MAX_ENTRIES == 32_000_000,
{
}

proof fn lemma_numbers(n: nat, max: nat, default: nat)
    ensures
        n <= max ==> cli::number_or(Some(text::decimal(n)), max, default) == n,
        n > max ==> cli::number_or(Some(text::decimal(n)), max, default) == default,
{
    texts::law_numbers_are_read(n, max);
}

proof fn lemma_two(w: ArgsView, a: Seq<char>, v: Seq<char>, rest: Seq<Seq<char>>)
    requires
        cli::takes_value(a),
    ensures
        cli::with_args(w, seq![a, v] + rest) == cli::with_args(
            cli::with_value(w, a, Some(v)),
            rest,
        ),
{
    let args = seq![a, v] + rest;
    assert(args[0] == a && args[1] == v);
    assert(args.skip(2) =~= rest);
}

proof fn lemma_one(w: ArgsView, a: Seq<char>, rest: Seq<Seq<char>>)
    requires
        !cli::takes_value(a),
    ensures
        cli::with_args(w, seq![a] + rest) == cli::with_args(cli::with_word(w, a), rest),
{
    let args = seq![a] + rest;
    assert(args[0] == a);
    assert(args.skip(1) =~= rest);
}

// The options are told apart by their lengths and by one of their characters.
proof fn lemma_options()
    ensures
        "--port"@.len() == 6,
        "-p"@.len() == 2,
        "-o"@.len() == 2,
        "--max-depth"@.len() == 11,
        "--top"@.len() == 5,
        "--threads"@.len() == 9,
        "--max-entries"@.len() == 13,
        "serve"@.len() == 5,
        "gui"@.len() == 3,
        "install-desktop"@.len() == 15,
        "uninstall-desktop"@.len() == 17,
        "--json"@.len() == 6,
        "--cache"@.len() == 7,
        "--total"@.len() == 7,
        "--no-stat"@.len() == 9,
        "--iouring"@.len() == 9,
        "--apparent"@.len() == 10,
        "--one-file-system"@.len() == 17,
        "-x"@.len() == 2,
        "-h"@.len() == 2,
        "--help"@.len() == 6,
        "--port"@[2] == 'p',
        "--json"@[2] == 'j',
        "--help"@[2] == 'h',
        "-p"@[1] == 'p',
        "-o"@[1] == 'o',
        "-x"@[1] == 'x',
        "-h"@[1] == 'h',
        "--top"@[0] == '-',
        "serve"@[0] == 's',
        "--threads"@[2] == 't',
        "--no-stat"@[2] == 'n',
        "--iouring"@[2] == 'i',
        "uninstall-desktop"@[0] == 'u',
        "--one-file-system"@[0] == '-',
        "--cache"@[2] == 'c',
        "--total"@[2] == 't',
        "--port"@[0] == '-',
        "-p"@[0] == '-',
        "-o"@[0] == '-',
        "--max-depth"@[0] == '-',
        "--top"@[0] == '-',
        "--threads"@[0] == '-',
        "--max-entries"@[0] == '-',
        "serve"@[0] == 's',
        "gui"@[0] == 'g',
        "install-desktop"@[0] == 'i',
        "uninstall-desktop"@[0] == 'u',
        "--json"@[0] == '-',
        "--cache"@[0] == '-',
        "--total"@[0] == '-',
        "--no-stat"@[0] == '-',
        "--iouring"@[0] == '-',
        "--apparent"@[0] == '-',
        "--one-file-system"@[0] == '-',
        "-x"@[0] == '-',
        "-h"@[0] == '-',
        "--help"@[0] == '-',
{
    reveal_strlit("--port");
    reveal_strlit("-p");
    reveal_strlit("-o");
    reveal_strlit("--max-depth");
    reveal_strlit("--top");
    reveal_strlit("--threads");
    reveal_strlit("--max-entries");
    reveal_strlit("serve");
    reveal_strlit("gui");
    reveal_strlit("install-desktop");
    reveal_strlit("uninstall-desktop");
    reveal_strlit("--json");
    reveal_strlit("--cache");
    reveal_strlit("--total");
    reveal_strlit("--no-stat");
    reveal_strlit("--iouring");
    reveal_strlit("--apparent");
    reveal_strlit("--one-file-system");
    reveal_strlit("-x");
    reveal_strlit("-h");
    reveal_strlit("--help");
}

/// The port is a number of 16 bits; any other is replaced by the default.
pub proof fn law_ports(w: ArgsView, n: nat, rest: Seq<Seq<char>>)
    ensures
        n <= 65_535
            ==> cli::with_args(w, seq!["--port"@, text::decimal(n)] + rest) == cli::with_args(
            (ArgsView { port: n as u16, ..w }),
            rest,
        ),
        n > 65_535
            ==> cli::with_args(w, seq!["--port"@, text::decimal(n)] + rest) == cli::with_args(
            (ArgsView { port: 8080, ..w }),
            rest,
        ),
        n <= 65_535 ==> cli::with_args(w, seq!["-p"@, text::decimal(n)] + rest) == cli::with_args(
            (ArgsView { port: n as u16, ..w }),
            rest,
        ),
        n > 65_535 ==> cli::with_args(w, seq!["-p"@, text::decimal(n)] + rest) == cli::with_args(
            (ArgsView { port: 8080, ..w }),
            rest,
        ),
{
    lemma_options();
    lemma_two(w, "--port"@, text::decimal(n), rest);
    lemma_two(w, "-p"@, text::decimal(n), rest);
    lemma_numbers(n, u16::MAX as nat, 8080);
}

/// The depth is a number of 32 bits; any other is replaced by the default.
pub proof fn law_depths(w: ArgsView, n: nat, rest: Seq<Seq<char>>)
    ensures
        n <= 0xffff_ffff
            ==> cli::with_args(w, seq!["--max-depth"@, text::decimal(n)] + rest) == cli::with_args(
            (ArgsView { cfg: Cfg { max_depth: n as u32, ..w.cfg }, ..w }),
            rest,
        ),
        n > 0xffff_ffff
            ==> cli::with_args(w, seq!["--max-depth"@, text::decimal(n)] + rest) == cli::with_args(
            (ArgsView { cfg: Cfg { max_depth: 40, ..w.cfg }, ..w }),
            rest,
        ),
{
    lemma_options();
    lemma_two(w, "--max-depth"@, text::decimal(n), rest);
    lemma_numbers(n, u32::MAX as nat, 40);
}

/// The number of children is any that a word holds; a larger one is replaced by the default.
pub proof fn law_numbers_of_children(w: ArgsView, n: nat, rest: Seq<Seq<char>>)
    ensures
        n <= usize::MAX
            ==> cli::with_args(w, seq!["--top"@, text::decimal(n)] + rest) == cli::with_args(
            (ArgsView { cfg: Cfg { top: n as usize, ..w.cfg }, ..w }),
            rest,
        ),
        n > usize::MAX
            ==> cli::with_args(w, seq!["--top"@, text::decimal(n)] + rest) == cli::with_args(
            (ArgsView { cfg: Cfg { top: 80, ..w.cfg }, ..w }),
            rest,
        ),
{
    lemma_options();
    lemma_two(w, "--top"@, text::decimal(n), rest);
    lemma_numbers(n, usize::MAX as nat, 80);
}

/// The number of threads is any that a word holds; with a larger one the machine decides.
pub proof fn law_numbers_of_threads(w: ArgsView, n: nat, rest: Seq<Seq<char>>)
    ensures
        n <= usize::MAX
            ==> cli::with_args(w, seq!["--threads"@, text::decimal(n)] + rest) == cli::with_args(
            (ArgsView { cfg: Cfg { threads: n as usize, ..w.cfg }, ..w }),
            rest,
        ),
        n > usize::MAX
            ==> cli::with_args(w, seq!["--threads"@, text::decimal(n)] + rest) == cli::with_args(
            (ArgsView { cfg: Cfg { threads: 0, ..w.cfg }, ..w }),
            rest,
        ),
{
    lemma_options();
    lemma_two(w, "--threads"@, text::decimal(n), rest);
    lemma_numbers(n, usize::MAX as nat, 0);
}

/// The ceiling of entries is any number that a word holds, and none where it is 0; a larger one is
/// replaced by the default.
pub proof fn law_ceilings(w: ArgsView, n: nat, rest: Seq<Seq<char>>)
    ensures
        0 < n <= usize::MAX ==> cli::with_args(w, seq!["--max-entries"@, text::decimal(n)] + rest)
            == cli::with_args((ArgsView { cfg: Cfg { max_entries: n as usize, ..w.cfg }, ..w }), rest),
        n == 0 ==> cli::with_args(w, seq!["--max-entries"@, text::decimal(n)] + rest)
            == cli::with_args((ArgsView { cfg: Cfg { max_entries: usize::MAX, ..w.cfg }, ..w }), rest),
        n > usize::MAX ==> cli::with_args(w, seq!["--max-entries"@, text::decimal(n)] + rest)
            == cli::with_args((ArgsView { cfg: Cfg { max_entries: 32_000_000, ..w.cfg }, ..w }), rest),
{
    lemma_options();
    lemma_two(w, "--max-entries"@, text::decimal(n), rest);
    lemma_numbers(n, usize::MAX as nat, 32_000_000);
}

/// A text that is no number leaves an option at its default, as does an option at the end.
pub proof fn law_missing_numbers(w: ArgsView, s: Seq<char>)
    requires
        text::uint_value(s, u64::MAX as nat) is None,
        text::uint_value(s, u32::MAX as nat) is None,
        text::uint_value(s, u16::MAX as nat) is None,
        text::uint_value(s, usize::MAX as nat) is None,
    ensures
        cli::with_args(w, seq!["--port"@, s]).port == 8080,
        cli::with_args(w, seq!["--port"@]).port == 8080,
        cli::with_args(w, seq!["--max-depth"@, s]).cfg.max_depth == 40,
        cli::with_args(w, seq!["--max-depth"@]).cfg.max_depth == 40,
        cli::with_args(w, seq!["--top"@, s]).cfg.top == 80,
        cli::with_args(w, seq!["--top"@]).cfg.top == 80,
        cli::with_args(w, seq!["--threads"@, s]).cfg.threads == 0,
        cli::with_args(w, seq!["--threads"@]).cfg.threads == 0,
        cli::with_args(w, seq!["--max-entries"@, s]).cfg.max_entries == 32_000_000,
        cli::with_args(w, seq!["--max-entries"@]).cfg.max_entries == 32_000_000,
        cli::with_args(w, seq!["-o"@]).out.len() == 0,
        cli::with_args(w, Seq::<Seq<char>>::empty()) == w,
{
    lemma_options();
    let none = Seq::<Seq<char>>::empty();
    lemma_two(w, "--port"@, s, none);
    assert(seq!["--port"@, s] + none =~= seq!["--port"@, s]);
    assert(seq!["--port"@][0] == "--port"@);
    lemma_two(w, "--max-depth"@, s, none);
    assert(seq!["--max-depth"@, s] + none =~= seq!["--max-depth"@, s]);
    assert(seq!["--max-depth"@][0] == "--max-depth"@);
    lemma_two(w, "--top"@, s, none);
    assert(seq!["--top"@, s] + none =~= seq!["--top"@, s]);
    assert(seq!["--top"@][0] == "--top"@);
    lemma_two(w, "--threads"@, s, none);
    assert(seq!["--threads"@, s] + none =~= seq!["--threads"@, s]);
    assert(seq!["--threads"@][0] == "--threads"@);
    lemma_two(w, "--max-entries"@, s, none);
    assert(seq!["--max-entries"@, s] + none =~= seq!["--max-entries"@, s]);
    assert(seq!["--max-entries"@][0] == "--max-entries"@);
    assert(seq!["-o"@][0] == "-o"@);
}

/// The output is named by the argument after its option, whatever that holds.
pub proof fn law_outputs(w: ArgsView, s: Seq<char>, rest: Seq<Seq<char>>)
    ensures
        cli::with_args(w, seq!["-o"@, s] + rest) == cli::with_args((ArgsView { out: s, ..w }), rest),
{
    lemma_options();
    lemma_two(w, "-o"@, s, rest);
}

/// Every mode has a word of its own, which changes the mode alone.
pub proof fn law_modes(w: ArgsView, rest: Seq<Seq<char>>)
    ensures
        cli::with_args(w, seq!["serve"@] + rest) == cli::with_args(
            (ArgsView { mode: Mode::Serve, ..w }),
            rest,
        ),
        cli::with_args(w, seq!["gui"@] + rest) == cli::with_args(
            (ArgsView { mode: Mode::Gui, ..w }),
            rest,
        ),
        cli::with_args(w, seq!["install-desktop"@] + rest) == cli::with_args(
            (ArgsView { mode: Mode::InstallDesktop, ..w }),
            rest,
        ),
        cli::with_args(w, seq!["uninstall-desktop"@] + rest) == cli::with_args(
            (ArgsView { mode: Mode::UninstallDesktop, ..w }),
            rest,
        ),
        cli::with_args(w, seq!["--json"@] + rest) == cli::with_args(
            (ArgsView { mode: Mode::Json, ..w }),
            rest,
        ),
        cli::with_args(w, seq!["--cache"@] + rest) == cli::with_args(
            (ArgsView { mode: Mode::Cache, ..w }),
            rest,
        ),
        cli::with_args(w, seq!["--total"@] + rest) == cli::with_args(
            (ArgsView { mode: Mode::Total, ..w }),
            rest,
        ),
{
    lemma_options();
    lemma_one(w, "serve"@, rest);
    lemma_one(w, "gui"@, rest);
    lemma_one(w, "install-desktop"@, rest);
    lemma_one(w, "uninstall-desktop"@, rest);
    lemma_one(w, "--json"@, rest);
    lemma_one(w, "--cache"@, rest);
    lemma_one(w, "--total"@, rest);
}

/// Every switch turns on one setting and changes nothing else.
pub proof fn law_switches(w: ArgsView, rest: Seq<Seq<char>>)
    ensures
        cli::with_args(w, seq!["--no-stat"@] + rest) == cli::with_args(
            (ArgsView { cfg: Cfg { no_stat: true, ..w.cfg }, ..w }),
            rest,
        ),
        cli::with_args(w, seq!["--iouring"@] + rest) == cli::with_args(
            (ArgsView { cfg: Cfg { iouring: true, ..w.cfg }, ..w }),
            rest,
        ),
        cli::with_args(w, seq!["--apparent"@] + rest) == cli::with_args(
            (ArgsView { cfg: Cfg { apparent: true, ..w.cfg }, ..w }),
            rest,
        ),
        cli::with_args(w, seq!["--one-file-system"@] + rest) == cli::with_args(
            (ArgsView { cfg: Cfg { one_fs: true, ..w.cfg }, ..w }),
            rest,
        ),
        cli::with_args(w, seq!["-x"@] + rest) == cli::with_args(
            (ArgsView { cfg: Cfg { one_fs: true, ..w.cfg }, ..w }),
            rest,
        ),
{
    lemma_options();
    lemma_one(w, "--no-stat"@, rest);
    lemma_one(w, "--iouring"@, rest);
    lemma_one(w, "--apparent"@, rest);
    lemma_one(w, "--one-file-system"@, rest);
    lemma_one(w, "-x"@, rest);
}

/// Any other word without a dash is what is scanned; the last one counts. Any other with a dash is
/// passed over.
pub proof fn law_other_words(w: ArgsView, a: Seq<char>, rest: Seq<Seq<char>>)
    ensures
        (a.len() == 0 || a[0] != '-') && a != "serve"@ && a != "gui"@ && a != "install-desktop"@
            && a != "uninstall-desktop"@
            ==> cli::with_args(w, seq![a] + rest)
                == cli::with_args((ArgsView { root: a, ..w }), rest),
        (a.len() > 0 && a[0] == '-') && a != "--port"@ && a != "-p"@ && a != "-o"@
            && a != "--max-depth"@ && a != "--top"@ && a != "--threads"@ && a != "--max-entries"@
            && a != "--json"@ && a != "--cache"@ && a != "--total"@ && a != "--no-stat"@
            && a != "--iouring"@ && a != "--apparent"@ && a != "--one-file-system"@ && a != "-x"@
            ==> cli::with_args(w, seq![a] + rest) == cli::with_args(w, rest),
{
    lemma_options();
    if !cli::takes_value(a) {
        lemma_one(w, a, rest);
    }
}

/// The command line is read from the defaults on, unless there is no argument or one of them asks
/// for help.
pub proof fn law_command_lines(args: &Vec<String>, r: Option<Args>)
    requires
        call_ensures(cli::parse_args, (args,), r),
    ensures
        r is None <==> args@.len() == 0 || exists|i: int|
            0 <= i < args@.len() && ((#[trigger] args@[i])@ == "-h"@ || args@[i]@ == "--help"@),
        r is Some ==> r->0@ == cli::with_args(cli::default_args(), cli::arg_views(args@)),
{
    let v = cli::arg_views(args@);
    if exists|i: int|
        0 <= i < args@.len() && ((#[trigger] args@[i])@ == "-h"@ || args@[i]@ == "--help"@) {
        let i = choose|i: int|
            0 <= i < args@.len() && ((#[trigger] args@[i])@ == "-h"@ || args@[i]@ == "--help"@);
        assert(v[i] == args@[i]@);
    }
    if v.contains("-h"@) {
        let i = choose|i: int| 0 <= i < v.len() && v[i] == "-h"@;
        assert(args@[i]@ == v[i]);
    }
    if v.contains("--help"@) {
        let i = choose|i: int| 0 <= i < v.len() && v[i] == "--help"@;
        assert(args@[i]@ == v[i]);
    }
}

/// The output has the name that was asked for, or that of its kind.
pub proof fn law_names_of_outputs(args: &Args, r: String)
    requires
        call_ensures(cli::output_path, (args,), r),
    ensures
        args.out@.len() > 0 ==> r@ == args.out@,
        args.out@.len() == 0 && args.mode == Mode::Json ==> r@ == "tree.json"@,
        args.out@.len() == 0 && args.mode == Mode::Cache ==> r@ == "out.qdirstat.cache"@,
        args.out@.len() == 0 && args.mode != Mode::Json && args.mode != Mode::Cache ==> r@
            == "report.html"@,
{
}

/// A scan is incomplete where it reached its ceiling, and not before.
pub proof fn law_incomplete_scans(entries: usize, cfg: &Cfg, r: bool)
    requires
        call_ensures(cli::is_incomplete, (entries, cfg), r),
    ensures
        entries < cfg.max_entries ==> !r,
        entries == cfg.max_entries ==> r,
        entries > cfg.max_entries ==> r,
{
}

/// The sweep takes its slots from the number after the option, or 256, and sweeps the last word
/// without a dash.
pub proof fn law_sweep_arguments(
    root: Seq<char>,
    qd: u32,
    n: nat,
    a: Seq<char>,
    rest: Seq<Seq<char>>,
)
    ensures
        n <= 0xffff_ffff ==> cli::sweep_args(root, qd, seq!["--qd"@, text::decimal(n)] + rest)
            == cli::sweep_args(root, n as u32, rest),
        n > 0xffff_ffff ==> cli::sweep_args(root, qd, seq!["--qd"@, text::decimal(n)] + rest)
            == cli::sweep_args(root, 256, rest),
        cli::sweep_args(root, qd, seq!["--qd"@]) == (root, 256u32),
        a.len() == 0 || a[0] != '-' ==> cli::sweep_args(root, qd, seq![a] + rest)
            == cli::sweep_args(a, qd, rest),
        a.len() > 0 && a[0] == '-' && a != "--qd"@ ==> cli::sweep_args(root, qd, seq![a] + rest)
            == cli::sweep_args(root, qd, rest),
        cli::sweep_args(root, qd, Seq::<Seq<char>>::empty()) == (root, qd),
{
    reveal_strlit("--qd");
    lemma_numbers(n, u32::MAX as nat, 256);
    let two = seq!["--qd"@, text::decimal(n)] + rest;
    assert(two[0] == "--qd"@ && two[1] == text::decimal(n) && two.skip(2) =~= rest);
    assert(seq!["--qd"@][0] == "--qd"@);
    let one = seq![a] + rest;
    assert(one[0] == a && one.skip(1) =~= rest);
}

/// The sweep starts from 256 slots and no root.
pub proof fn law_sweep_defaults(args: &Vec<String>, r: (String, u32))
    requires
        call_ensures(cli::parse_sweep_args, (args,), r),
    ensures
        (r.0@, r.1) == cli::sweep_args(""@, 256, cli::arg_views(args@)),
{
    reveal_strlit("");
    assert(""@ =~= Seq::<char>::empty());
}

} // verus!
