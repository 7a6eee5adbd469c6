//! Properties that hold across the probes and the layout.

use vstd::prelude::*;
use crate::init::{init_field, init_probe_field};
use crate::probes::{
    clock_text, file_name, is_named, last_named, memory_field, mem_scan, os_field, path_parts,
    shell_field, swap_field, trimmed_field, unknown_text, unquoted, uptime_field, user_field,
};
use crate::storage::{capacity_text, no_mount_text, storage_field};
use crate::units::{amount, decimal, digit_char, tenths, usage_text};
use crate::storage::{covers, is_chosen, MountEntry};
use crate::report::{joined, report_lines, Report};
use crate::text::{
    all_digits, contains_run, first_with_key, index_of, lemma_index_of, lines, trimmed,
};

verus! {

proof fn lemma_first_longest(ms: Seq<MountEntry>, path: Seq<char>, i: int, k: int)
    requires
        0 <= k <= i < ms.len(),
        covers(ms[i], path),
        forall|j: int|
            0 <= j < ms.len() && covers(#[trigger] ms[j], path) ==> ms[j].mount_point@.len()
                <= ms[i].mount_point@.len(),
        forall|j: int|
            0 <= j < k && covers(#[trigger] ms[j], path) ==> ms[j].mount_point@.len()
                < ms[i].mount_point@.len(),
    ensures
        exists|c: int| is_chosen(ms, path, c) && ms[c].mount_point@ == ms[i].mount_point@,
    decreases i - k,
{
    let mk = ms[k].mount_point@;
    let mi = ms[i].mount_point@;
    if covers(ms[k], path) && mk.len() == mi.len() {
        assert(mk =~= path.subrange(0, mk.len() as int));
        assert(mi =~= path.subrange(0, mi.len() as int));
        assert(is_chosen(ms, path, k));
    } else {
        lemma_first_longest(ms, path, i, k + 1);
    }
}

/// Longest-prefix rule: where entry `i` covers `path` and no entry that
/// covers it has a longer mount point, an entry is chosen for `path`, and
/// its mount point is that of entry `i`.
pub proof fn lemma_longest_prefix_chosen(ms: Seq<MountEntry>, path: Seq<char>, i: int)
    requires
        0 <= i < ms.len(),
        covers(ms[i], path),
        forall|j: int|
            0 <= j < ms.len() && covers(#[trigger] ms[j], path) ==> ms[j].mount_point@.len()
                <= ms[i].mount_point@.len(),
    ensures
        exists|c: int| is_chosen(ms, path, c) && ms[c].mount_point@ == ms[i].mount_point@,
{
    lemma_first_longest(ms, path, i, 0);
}

/// The init decision table, row by row.
pub proof fn lemma_init_table(comm: Seq<char>, exe: Seq<char>, marker: bool)
    ensures
        comm == "systemd"@ ==> init_field(comm, exe, marker) == "systemd"@,
        comm == "runit"@ ==> init_field(comm, exe, marker) == "runit"@,
        comm == "runsvinit"@ ==> init_field(comm, exe, marker) == "runit"@,
        comm == "s6-svscan"@ ==> init_field(comm, exe, marker) == "s6"@,
        comm == "init"@ && contains_run(exe, "openrc"@) ==> init_field(comm, exe, marker)
            == "openrc"@,
        comm == "init"@ && !contains_run(exe, "openrc"@) ==> init_field(comm, exe, marker)
            == "sysvinit"@,
        comm != "systemd"@ && comm != "runit"@ && comm != "runsvinit"@ && comm != "s6-svscan"@
            && comm != "init"@ && marker ==> init_field(comm, exe, marker)
            == "systemd (fallback)"@,
        comm != "systemd"@ && comm != "runit"@ && comm != "runsvinit"@ && comm != "s6-svscan"@
            && comm != "init"@ && !marker ==> init_field(comm, exe, marker) == "unknown ("@ + comm
            + ")"@,
{
    reveal_strlit("systemd");
    reveal_strlit("runit");
    reveal_strlit("runsvinit");
    reveal_strlit("s6-svscan");
    reveal_strlit("init");
    assert("systemd"@.len() == 7 && "runit"@.len() == 5 && "runsvinit"@.len() == 9);
    assert("s6-svscan"@.len() == 9 && "init"@.len() == 4);
    assert("runsvinit"@[0] != "s6-svscan"@[0]);
}

/// Whether `s` holds no `'\n'`.
pub open spec fn single_line(s: Seq<char>) -> bool {
    forall|i: int| 0 <= i < s.len() ==> s[i] != '\n'
}

/// `l` without one `'\r'` at its end.
pub open spec fn without_cr(l: Seq<char>) -> Seq<char> {
    if l.len() > 0 && l.last() == '\r' {
        l.drop_last()
    } else {
        l
    }
}

/// Reading back lines that were each ended by `'\n'` gives them again (less
/// a final `'\r'`).
pub proof fn lemma_lines_of_joined(ls: Seq<Seq<char>>)
    requires
        forall|i: int| 0 <= i < ls.len() ==> single_line(#[trigger] ls[i]),
    ensures
        lines(joined(ls)).len() == ls.len(),
        forall|i: int| 0 <= i < ls.len() ==> #[trigger] lines(joined(ls))[i] == without_cr(ls[i]),
    decreases ls.len(),
{
    if ls.len() > 0 {
        let rest = ls.drop_first();
        assert forall|i: int| 0 <= i < rest.len() implies single_line(#[trigger] rest[i]) by {
            assert(rest[i] == ls[i + 1]);
        }
        lemma_lines_of_joined(rest);
        let s = joined(ls);
        let l0 = ls[0];
        assert(single_line(l0));
        assert(s == l0 + seq!['\n'] + joined(rest));
        assert forall|k: int| 0 <= k < l0.len() implies s[k] != '\n' by {
            assert(s[k] == l0[k]);
        }
        assert(s[l0.len() as int] == '\n');
        lemma_index_of(s, '\n', l0.len() as int);
        assert(s.take(l0.len() as int) =~= l0);
        assert(s.skip(l0.len() as int + 1) =~= joined(rest));
        let out = lines(s);
        assert(out == seq![without_cr(l0)] + lines(joined(rest)));
        assert forall|i: int| 0 <= i < ls.len() implies #[trigger] out[i] == without_cr(ls[i]) by {
            if i > 0 {
                assert(out[i] == lines(joined(rest))[i - 1]);
                assert(rest[i - 1] == ls[i]);
            }
        }
    }
}

proof fn lemma_label_kept(label: Seq<char>, v: Seq<char>)
    requires
        label.len() > 0,
        label.last() != '\r',
    ensures
        label.is_prefix_of(without_cr(label + v)),
{
    let l = label + v;
    if l.len() > 0 && l.last() == '\r' {
        assert(v.len() > 0);
        assert(l.drop_last().subrange(0, label.len() as int) =~= label);
    } else {
        assert(l.subrange(0, label.len() as int) =~= label);
    }
}

/// Whether no field of the report holds a `'\n'`.
pub open spec fn fields_single_line(r: Report) -> bool {
    &&& single_line(r.user@)
    &&& single_line(r.hostname@)
    &&& single_line(r.os@)
    &&& single_line(r.init@)
    &&& single_line(r.kernel@)
    &&& single_line(r.uptime@)
    &&& single_line(r.shell@)
    &&& single_line(r.memory@)
    &&& single_line(r.swap@)
    &&& single_line(r.storage_boot@)
    &&& single_line(r.storage_root@)
    &&& single_line(r.storage_home@)
}

proof fn lemma_concat_single(a: Seq<char>, b: Seq<char>)
    requires
        single_line(a),
        single_line(b),
    ensures
        single_line(a + b),
{
    assert forall|i: int| 0 <= i < (a + b).len() implies (a + b)[i] != '\n' by {
        if i >= a.len() {
            assert((a + b)[i] == b[i - a.len()]);
        }
    }
}

/// Layout: where no field holds a line break, the rendered summary reads
/// back as exactly twelve lines; the second is ten hyphens, the third to
/// the tenth begin with the labels `OS`, `Init`, `Kernel`, `Uptime`,
/// `Shell`, `Memory`, `Swap` and `Storage` in that order, each padded so
/// that its colon stands in the ninth column, and the last two begin with
/// ten spaces.
pub proof fn lemma_layout(r: Report)
    requires
        fields_single_line(r),
    ensures
        lines(joined(report_lines(r))).len() == 12,
        lines(joined(report_lines(r)))[1] == "----------"@,
        "OS      : "@.is_prefix_of(lines(joined(report_lines(r)))[2]),
        "Init    : "@.is_prefix_of(lines(joined(report_lines(r)))[3]),
        "Kernel  : "@.is_prefix_of(lines(joined(report_lines(r)))[4]),
        "Uptime  : "@.is_prefix_of(lines(joined(report_lines(r)))[5]),
        "Shell   : "@.is_prefix_of(lines(joined(report_lines(r)))[6]),
        "Memory  : "@.is_prefix_of(lines(joined(report_lines(r)))[7]),
        "Swap    : "@.is_prefix_of(lines(joined(report_lines(r)))[8]),
        "Storage : "@.is_prefix_of(lines(joined(report_lines(r)))[9]),
        "          "@.is_prefix_of(lines(joined(report_lines(r)))[10]),
        "          "@.is_prefix_of(lines(joined(report_lines(r)))[11]),
{
    reveal_strlit("@");
    reveal_strlit("----------");
    reveal_strlit("OS      : ");
    reveal_strlit("Init    : ");
    reveal_strlit("Kernel  : ");
    reveal_strlit("Uptime  : ");
    reveal_strlit("Shell   : ");
    reveal_strlit("Memory  : ");
    reveal_strlit("Swap    : ");
    reveal_strlit("Storage : ");
    reveal_strlit("          ");
    let ls = report_lines(r);
    lemma_concat_single(r.user@, "@"@);
    lemma_concat_single(r.user@ + "@"@, r.hostname@);
    lemma_concat_single("OS      : "@, r.os@);
    lemma_concat_single("Init    : "@, r.init@);
    lemma_concat_single("Kernel  : "@, r.kernel@);
    lemma_concat_single("Uptime  : "@, r.uptime@);
    lemma_concat_single("Shell   : "@, r.shell@);
    lemma_concat_single("Memory  : "@, r.memory@);
    lemma_concat_single("Swap    : "@, r.swap@);
    lemma_concat_single("Storage : "@, r.storage_boot@);
    lemma_concat_single("          "@, r.storage_root@);
    lemma_concat_single("          "@, r.storage_home@);
    assert(single_line("----------"@));
    assert forall|i: int| 0 <= i < ls.len() implies single_line(#[trigger] ls[i]) by {}
    lemma_lines_of_joined(ls);
    lemma_label_kept("OS      : "@, r.os@);
    lemma_label_kept("Init    : "@, r.init@);
    lemma_label_kept("Kernel  : "@, r.kernel@);
    lemma_label_kept("Uptime  : "@, r.uptime@);
    lemma_label_kept("Shell   : "@, r.shell@);
    lemma_label_kept("Memory  : "@, r.memory@);
    lemma_label_kept("Swap    : "@, r.swap@);
    lemma_label_kept("Storage : "@, r.storage_boot@);
    lemma_label_kept("          "@, r.storage_root@);
    lemma_label_kept("          "@, r.storage_home@);
    assert(lines(joined(ls))[1] == without_cr(ls[1]));
}

proof fn lemma_decimal(n: nat)
    ensures
        decimal(n).len() >= 1,
        all_digits(decimal(n)),
    decreases n,
{
    reveal_strlit("0123456789");
    let d = n % 10;
    assert('0' <= digit_char(d) && digit_char(d) <= '9') by {
        assert(d < 10);
        assert(d == 0 || d == 1 || d == 2 || d == 3 || d == 4 || d == 5 || d == 6 || d == 7 || d
            == 8 || d == 9);
    }
    if n >= 10 {
        lemma_decimal(n / 10);
        let w = decimal(n / 10);
        assert forall|i: int| 0 <= i < decimal(n).len() implies '0' <= #[trigger] decimal(n)[i]
            && decimal(n)[i] <= '9' by {
            if i < w.len() {
                assert(decimal(n)[i] == w[i]);
            }
        }
    } else {
        assert(n % 10 == n);
    }
}

proof fn lemma_digits_single(s: Seq<char>)
    requires
        all_digits(s),
    ensures
        single_line(s),
{
    assert forall|i: int| 0 <= i < s.len() implies s[i] != '\n' by {
        assert('0' <= s[i]);
    }
}

proof fn lemma_literals_single()
    ensures
        single_line("-"@),
        single_line("."@),
        single_line(" GiB / "@),
        single_line(" GiB"@),
        single_line("h "@),
        single_line("m"@),
        single_line(" ("@),
        single_line(")"@),
        single_line("N/A ("@),
        single_line("unknown ("@),
        "N/A ("@.len() == 5,
        "unknown ("@.len() == 9,
        is_field_value(unknown_text()),
        is_field_value("systemd"@),
        is_field_value("runit"@),
        is_field_value("s6"@),
        is_field_value("openrc"@),
        is_field_value("sysvinit"@),
        is_field_value("systemd (fallback)"@),
{
    reveal_strlit("-");
    reveal_strlit(".");
    reveal_strlit(" GiB / ");
    reveal_strlit(" GiB");
    reveal_strlit("h ");
    reveal_strlit("m");
    reveal_strlit(" (");
    reveal_strlit(")");
    reveal_strlit("N/A (");
    reveal_strlit("unknown (");
    reveal_strlit("unknown");
    reveal_strlit("systemd");
    reveal_strlit("runit");
    reveal_strlit("s6");
    reveal_strlit("openrc");
    reveal_strlit("sysvinit");
    reveal_strlit("systemd (fallback)");
}

proof fn lemma_amount_single(x: int, den: nat)
    requires
        den > 0,
    ensures
        single_line(amount(x, den)),
        amount(x, den).len() >= 1,
{
    let q = tenths(if x < 0 { (-x) as nat } else { x as nat }, den);
    lemma_decimal(q / 10);
    lemma_decimal(q % 10);
    lemma_digits_single(decimal(q / 10));
    lemma_digits_single(decimal(q % 10));
    lemma_literals_single();
    let sign = if x < 0 { "-"@ } else { Seq::<char>::empty() };
    assert(single_line(sign));
    lemma_concat_single(sign, decimal(q / 10));
    lemma_concat_single(sign + decimal(q / 10), "."@);
    lemma_concat_single(sign + decimal(q / 10) + "."@, decimal(q % 10));
}

proof fn lemma_usage_single(used: int, total: int, den: nat)
    requires
        den > 0,
    ensures
        is_field_value(usage_text(used, total, den)),
{
    lemma_amount_single(used, den);
    lemma_amount_single(total, den);
    lemma_literals_single();
    lemma_concat_single(amount(used, den), " GiB / "@);
    lemma_concat_single(amount(used, den) + " GiB / "@, amount(total, den));
    lemma_concat_single(amount(used, den) + " GiB / "@ + amount(total, den), " GiB"@);
}

proof fn lemma_index_of_bounds(s: Seq<char>, c: char)
    ensures
        index_of(s, c) <= s.len(),
        forall|i: int| 0 <= i < index_of(s, c) ==> s[i] != c,
    decreases s.len(),
{
    if s.len() > 0 && s[0] != c {
        lemma_index_of_bounds(s.drop_first(), c);
        assert forall|i: int| 0 <= i < index_of(s, c) implies s[i] != c by {
            if i > 0 {
                assert(s[i] == s.drop_first()[i - 1]);
            }
        }
    }
}

proof fn lemma_lines_single(s: Seq<char>)
    ensures
        forall|i: int| 0 <= i < lines(s).len() ==> single_line(#[trigger] lines(s)[i]),
    decreases s.len(),
{
    if s.len() > 0 {
        let k = index_of(s, '\n') as int;
        lemma_index_of_bounds(s, '\n');
        if k < s.len() {
            lemma_lines_single(s.skip(k + 1));
            let line = s.take(k);
            assert(single_line(line));
            let content = if k > 0 && line.last() == '\r' { line.drop_last() } else { line };
            assert(single_line(content));
            let ls = lines(s);
            assert(ls == seq![content] + lines(s.skip(k + 1)));
            assert forall|i: int| 0 <= i < ls.len() implies single_line(#[trigger] ls[i]) by {
                if i > 0 {
                    assert(ls[i] == lines(s.skip(k + 1))[i - 1]);
                }
            }
        }
    }
}

proof fn lemma_first_with_key_single(ls: Seq<Seq<char>>, key: Seq<char>)
    requires
        forall|i: int| 0 <= i < ls.len() ==> single_line(#[trigger] ls[i]),
    ensures
        first_with_key(ls, key) is Some ==> single_line(first_with_key(ls, key)->0),
    decreases ls.len(),
{
    if ls.len() > 0 {
        if key.is_prefix_of(ls[0]) {
            assert(single_line(ls[0]));
        } else {
            let rest = ls.drop_first();
            assert forall|i: int| 0 <= i < rest.len() implies single_line(#[trigger] rest[i]) by {
                assert(rest[i] == ls[i + 1]);
            }
            lemma_first_with_key_single(rest, key);
        }
    }
}

proof fn lemma_last_named(parts: Seq<Seq<char>>)
    ensures
        last_named(parts) is Some ==> is_named(last_named(parts)->0),
    decreases parts.len(),
{
    if parts.len() > 0 {
        lemma_last_named(parts.drop_first());
    }
}

/// Whether `s` is a display field: at least one character, no line break.
pub open spec fn is_field_value(s: Seq<char>) -> bool {
    s.len() >= 1 && single_line(s)
}

/// Totality: every probe yields a display field, for every combination of
/// sources, absent ones included, wherever the text that a probe passes on
/// unchanged (the user name, the trimmed host name and kernel release, the
/// unquoted os name, the trimmed init command name, the shell's final
/// component, the storage path) is itself one line, and not empty where
/// the probe would show it alone.
pub proof fn lemma_probes_total(
    user: Option<Seq<char>>,
    hostname: Option<Seq<char>>,
    os_release: Option<Seq<char>>,
    comm: Option<Seq<char>>,
    exe: Option<Seq<char>>,
    marker: bool,
    kernel: Option<Seq<char>>,
    uptime: Option<Seq<char>>,
    shell: Option<Seq<char>>,
    meminfo: Option<Seq<char>>,
    swap_total: u64,
    swap_used: u64,
    mounts: Seq<MountEntry>,
    path: Seq<char>,
)
    requires
        user is Some ==> is_field_value(user->0),
        hostname is Some ==> is_field_value(trimmed(hostname->0)),
        kernel is Some ==> is_field_value(trimmed(kernel->0)),
        os_release is Some && first_with_key(lines(os_release->0), "PRETTY_NAME="@) is Some
            ==> unquoted(first_with_key(lines(os_release->0), "PRETTY_NAME="@)->0).len() >= 1,
        comm is Some ==> single_line(trimmed(comm->0)),
        shell is Some && file_name(shell->0) is Some ==> single_line(file_name(shell->0)->0),
        single_line(path),
    ensures
        is_field_value(user_field(user)),
        is_field_value(trimmed_field(hostname)),
        is_field_value(os_field(os_release)),
        is_field_value(init_probe_field(comm, exe, marker)),
        is_field_value(trimmed_field(kernel)),
        is_field_value(uptime_field(uptime)),
        is_field_value(shell_field(shell)),
        is_field_value(memory_field(meminfo)),
        is_field_value(swap_field(swap_total, swap_used)),
        is_field_value(storage_field(mounts, path)),
{
    lemma_literals_single();
    // os
    if let Some(c) = os_release {
        lemma_lines_single(c);
        lemma_first_with_key_single(lines(c), "PRETTY_NAME="@);
        if let Some(v) = first_with_key(lines(c), "PRETTY_NAME="@) {
            let u = unquoted(v);
            assert forall|i: int| 0 <= i < u.len() implies u[i] != '\n' by {
                let a = if v.len() > 0 && v[0] == '"' { v.drop_first() } else { v };
                assert(u[i] == a[i]);
                if v.len() > 0 && v[0] == '"' {
                    assert(a[i] == v[i + 1]);
                }
            }
        }
    }
    // init
    let name = match comm {
        Some(c) => trimmed(c),
        None => Seq::<char>::empty(),
    };
    assert(single_line(name));
    lemma_concat_single("unknown ("@, name);
    lemma_concat_single("unknown ("@ + name, ")"@);
    // uptime
    if let Some(c) = uptime {
        if let Some(t) = crate::text::nth_token(c, 0) {
            if let Some(secs) = crate::seconds::whole_seconds(t) {
                let n = secs as nat;
                lemma_decimal(n / 3600);
                lemma_decimal((n / 60) % 60);
                lemma_digits_single(decimal(n / 3600));
                lemma_digits_single(decimal((n / 60) % 60));
                lemma_concat_single(decimal(n / 3600), "h "@);
                lemma_concat_single(decimal(n / 3600) + "h "@, decimal((n / 60) % 60));
                lemma_concat_single(decimal(n / 3600) + "h "@ + decimal((n / 60) % 60), "m"@);
                assert(clock_text(n).len() >= 1);
            }
        }
    }
    // shell
    if let Some(p) = shell {
        lemma_last_named(path_parts(p));
    }
    // memory and swap
    lemma_usage_single(0, 0, 1);
    if let Some(c) = meminfo {
        let (t, a) = mem_scan(lines(c), (0, 0));
        lemma_usage_single(t - a, t as int, crate::units::KIB_PER_GIB as nat);
    }
    lemma_usage_single(swap_used as int, swap_total as int, crate::units::BYTES_PER_GB as nat);
    // storage
    lemma_concat_single("N/A ("@, path);
    lemma_concat_single("N/A ("@ + path, ")"@);
    assert(is_field_value(no_mount_text(path)));
    if exists|i: int| crate::storage::is_chosen(mounts, path, i) {
        let i = choose|i: int| crate::storage::is_chosen(mounts, path, i);
        let m = mounts[i];
        let u = usage_text(
            m.total_space - m.available_space,
            m.total_space as int,
            crate::units::BYTES_PER_GB as nat,
        );
        lemma_usage_single(
            m.total_space - m.available_space,
            m.total_space as int,
            crate::units::BYTES_PER_GB as nat,
        );
        lemma_concat_single(u, " ("@);
        lemma_concat_single(u + " ("@, path);
        lemma_concat_single(u + " ("@ + path, ")"@);
        assert(capacity_text(m, path) =~= u + " ("@ + path + ")"@);
    }
}

/// Whether `a` has the form `\d+\.\d`.
pub open spec fn tenths_form(a: Seq<char>) -> bool {
    exists|w: Seq<char>, d: char|
        w.len() >= 1 && all_digits(w) && '0' <= d && d <= '9' && a == w + seq!['.', d]
}

/// Whether `s` has the form `\d+\.\d GiB / \d+\.\d GiB`.
pub open spec fn usage_form(s: Seq<char>) -> bool {
    exists|a: Seq<char>, b: Seq<char>|
        tenths_form(a) && tenths_form(b) && s == a + " GiB / "@ + b + " GiB"@
}

proof fn lemma_amount_form(x: int, den: nat)
    requires
        x >= 0,
        den > 0,
    ensures
        tenths_form(amount(x, den)),
{
    reveal_strlit(".");
    let q = tenths(x as nat, den);
    lemma_decimal(q / 10);
    lemma_decimal(q % 10);
    let w = decimal(q / 10);
    let d = digit_char(q % 10);
    assert(decimal(q % 10) == seq![d]);
    assert(decimal(q % 10)[0] == d);
    assert(amount(x, den) =~= w + seq!['.', d]);
}

proof fn lemma_usage_form(used: int, total: int, den: nat)
    requires
        used >= 0,
        total >= 0,
        den > 0,
    ensures
        usage_form(usage_text(used, total, den)),
{
    lemma_amount_form(used, den);
    lemma_amount_form(total, den);
    assert(usage_text(used, total, den) == amount(used, den) + " GiB / "@ + amount(total, den)
        + " GiB"@);
}

/// Numeric format: the memory field is `\d+\.\d GiB / \d+\.\d GiB` or its
/// fallback `unknown`; the swap field always has that form; and the storage
/// field for a non-empty path has it followed by ` (path)`, or is its
/// fallback `N/A (path)`. Memory and storage need what is available to be
/// no more than the total: a negative amount would carry a sign.
pub proof fn lemma_numeric_format(
    meminfo: Option<Seq<char>>,
    swap_total: u64,
    swap_used: u64,
    mounts: Seq<MountEntry>,
    path: Seq<char>,
)
    requires
        meminfo is Some ==> mem_scan(lines(meminfo->0), (0, 0)).1 <= mem_scan(
            lines(meminfo->0),
            (0, 0),
        ).0,
        forall|i: int|
            crate::storage::is_chosen(mounts, path, i) ==> mounts[i].available_space
                <= mounts[i].total_space,
        path.len() >= 1,
    ensures
        memory_field(meminfo) == unknown_text() || usage_form(memory_field(meminfo)),
        usage_form(swap_field(swap_total, swap_used)),
        storage_field(mounts, path) == no_mount_text(path) || exists|u: Seq<char>|
            usage_form(u) && storage_field(mounts, path) == u + " ("@ + path + ")"@,
{
    if let Some(c) = meminfo {
        let (t, a) = mem_scan(lines(c), (0, 0));
        if t != 0 {
            lemma_usage_form(t - a, t as int, crate::units::KIB_PER_GIB as nat);
        }
    }
    lemma_usage_form(swap_used as int, swap_total as int, crate::units::BYTES_PER_GB as nat);
    if exists|i: int| crate::storage::is_chosen(mounts, path, i) {
        let i = choose|i: int| crate::storage::is_chosen(mounts, path, i);
        let m = mounts[i];
        let u = usage_text(
            m.total_space - m.available_space,
            m.total_space as int,
            crate::units::BYTES_PER_GB as nat,
        );
        lemma_usage_form(
            m.total_space - m.available_space,
            m.total_space as int,
            crate::units::BYTES_PER_GB as nat,
        );
        assert(storage_field(mounts, path) =~= u + " ("@ + path + ")"@);
    }
}

} // verus!
