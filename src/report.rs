//! The whole summary: what was read from the host, the fields the probes
//! make of it, and the fixed twelve-line layout they are shown in.

use vstd::prelude::*;
use crate::init::{detect_init, init_probe_field};
use crate::probes::{
    get_hostname, get_kernel, get_memory, get_os, get_shell, get_swap, get_uptime, get_username,
    memory_field, opt_view, os_field, shell_field, swap_field, trimmed_field, uptime_field,
    user_field,
};
use crate::storage::{get_storage, storage_field, MountEntry};
use crate::text::lines;

verus! {

/// What the probes read from the host; each source that could not be read
/// is `None`.
#[derive(Debug)]
pub struct HostState {
    /// The `USER` variable.
    pub user: Option<String>,
    /// The `SHELL` variable.
    pub shell: Option<String>,
    /// The text of `/etc/hostname`.
    pub hostname: Option<String>,
    /// The text of `/etc/os-release`.
    pub os_release: Option<String>,
    /// The text of `/proc/1/comm`.
    pub init_comm: Option<String>,
    /// The target of the `/proc/1/exe` link.
    pub init_exe: Option<String>,
    /// Whether `/run/systemd/systemd` exists.
    pub systemd_marker: bool,
    /// The standard output of `uname -r`, where it exited with success.
    pub kernel_release: Option<String>,
    /// The text of `/proc/uptime`.
    pub uptime: Option<String>,
    /// The text of `/proc/meminfo`.
    pub meminfo: Option<String>,
    /// Total swap, in bytes.
    pub swap_total: u64,
    /// Swap in use, in bytes.
    pub swap_used: u64,
    /// The mounted filesystems, in the order they were listed.
    pub mounts: Vec<MountEntry>,
}

/// The fields of the summary, one per probe and one per storage path.
#[derive(Debug)]
pub struct Report {
    pub user: String,
    pub hostname: String,
    pub os: String,
    pub init: String,
    pub kernel: String,
    pub uptime: String,
    pub shell: String,
    pub memory: String,
    pub swap: String,
    pub storage_boot: String,
    pub storage_root: String,
    pub storage_home: String,
}

/// The view of an optional owned string.
pub open spec fn string_view(o: Option<String>) -> Option<Seq<char>> {
    match o {
        Some(s) => Some(s@),
        None => None,
    }
}

fn borrow_opt(o: &Option<String>) -> (r: Option<&str>)
    ensures
        opt_view(r) == string_view(*o),
{
    match o {
        Some(s) => Some(s.as_str()),
        None => None,
    }
}

/// Whether `r` holds, field by field, what the probes make of `h`.
pub open spec fn report_of(h: HostState, r: Report) -> bool {
    &&& r.user@ == user_field(string_view(h.user))
    &&& r.hostname@ == trimmed_field(string_view(h.hostname))
    &&& r.os@ == os_field(string_view(h.os_release))
    &&& r.init@ == init_probe_field(
        string_view(h.init_comm),
        string_view(h.init_exe),
        h.systemd_marker,
    )
    &&& r.kernel@ == trimmed_field(string_view(h.kernel_release))
    &&& r.uptime@ == uptime_field(string_view(h.uptime))
    &&& r.shell@ == shell_field(string_view(h.shell))
    &&& r.memory@ == memory_field(string_view(h.meminfo))
    &&& r.swap@ == swap_field(h.swap_total, h.swap_used)
    &&& r.storage_boot@ == storage_field(h.mounts@, "/boot"@)
    &&& r.storage_root@ == storage_field(h.mounts@, "/"@)
    &&& r.storage_home@ == storage_field(h.mounts@, "/home"@)
}

impl HostState {
    /// Runs every probe once, in display order.
    pub fn collect(&self) -> (r: Report)
        ensures
            report_of(*self, r),
    {
        let user = get_username(borrow_opt(&self.user));
        let hostname = get_hostname(borrow_opt(&self.hostname));
        let os = get_os(borrow_opt(&self.os_release));
        let init = detect_init(
            borrow_opt(&self.init_comm),
            borrow_opt(&self.init_exe),
            self.systemd_marker,
        );
        let kernel = get_kernel(borrow_opt(&self.kernel_release));
        let uptime = get_uptime(borrow_opt(&self.uptime));
        let shell = get_shell(borrow_opt(&self.shell));
        let memory = get_memory(borrow_opt(&self.meminfo));
        let swap = get_swap(self.swap_total, self.swap_used);
        let storage_boot = get_storage("/boot", self.mounts.as_slice());
        let storage_root = get_storage("/", self.mounts.as_slice());
        let storage_home = get_storage("/home", self.mounts.as_slice());
        Report {
            user,
            hostname,
            os,
            init,
            kernel,
            uptime,
            shell,
            memory,
            swap,
            storage_boot,
            storage_root,
            storage_home,
        }
    }
}

/// The twelve lines of the summary, without their line ends.
pub open spec fn report_lines(r: Report) -> Seq<Seq<char>> {
    seq![
        r.user@ + "@"@ + r.hostname@,
        "----------"@,
        "OS      : "@ + r.os@,
        "Init    : "@ + r.init@,
        "Kernel  : "@ + r.kernel@,
        "Uptime  : "@ + r.uptime@,
        "Shell   : "@ + r.shell@,
        "Memory  : "@ + r.memory@,
        "Swap    : "@ + r.swap@,
        "Storage : "@ + r.storage_boot@,
        "          "@ + r.storage_root@,
        "          "@ + r.storage_home@,
    ]
}

/// `ls` with a `'\n'` after each line.
pub open spec fn joined(ls: Seq<Seq<char>>) -> Seq<char>
    decreases ls.len(),
{
    if ls.len() == 0 {
        Seq::<char>::empty()
    } else {
        ls[0] + seq!['\n'] + joined(ls.drop_first())
    }
}

proof fn lemma_joined_push(ls: Seq<Seq<char>>, l: Seq<char>)
    ensures
        joined(ls.push(l)) == joined(ls) + l + seq!['\n'],
    decreases ls.len(),
{
    if ls.len() == 0 {
        assert(ls.push(l).drop_first() =~= Seq::<Seq<char>>::empty());
        assert(ls.push(l)[0] == l);
        assert(joined(ls.push(l).drop_first()) == Seq::<char>::empty());
        assert(joined(ls) == Seq::<char>::empty());
        assert(joined(ls.push(l)) =~= joined(ls) + l + seq!['\n']);
    } else {
        assert(ls.push(l).drop_first() =~= ls.drop_first().push(l));
        lemma_joined_push(ls.drop_first(), l);
        assert(ls.push(l)[0] == ls[0]);
        let rest = joined(ls.drop_first());
        assert(joined(ls.push(l)) == ls[0] + seq!['\n'] + (rest + l + seq!['\n']));
        assert(joined(ls) == ls[0] + seq!['\n'] + rest);
        assert(joined(ls.push(l)) =~= joined(ls) + l + seq!['\n']);
    }
}

fn labelled(label: &str, value: &String) -> (r: String)
    ensures
        r@ == label@ + value@,
{
    let mut r = String::from_str(label);
    r.append(value.as_str());
    r
}

impl Report {
    /// The twelve lines, in order.
    pub fn lines(&self) -> (r: Vec<String>)
        ensures
            r@.len() == 12,
            forall|i: int| 0 <= i < 12 ==> #[trigger] r@[i]@ == report_lines(*self)[i],
    {
        let mut first = String::from_str(self.user.as_str());
        first.append("@");
        first.append(self.hostname.as_str());
        let mut v: Vec<String> = Vec::new();
        v.push(first);
        v.push(String::from_str("----------"));
        v.push(labelled("OS      : ", &self.os));
        v.push(labelled("Init    : ", &self.init));
        v.push(labelled("Kernel  : ", &self.kernel));
        v.push(labelled("Uptime  : ", &self.uptime));
        v.push(labelled("Shell   : ", &self.shell));
        v.push(labelled("Memory  : ", &self.memory));
        v.push(labelled("Swap    : ", &self.swap));
        v.push(labelled("Storage : ", &self.storage_boot));
        v.push(labelled("          ", &self.storage_root));
        v.push(labelled("          ", &self.storage_home));
        v
    }

    /// The summary as printed: the twelve lines, each ended by `'\n'`.
    pub fn render(&self) -> (r: String)
        ensures
            r@ == joined(report_lines(*self)),
    {
        let ls = self.lines();
        let ghost want = report_lines(*self);
        let nl = "\n";
        proof {
            reveal_strlit("\n");
            assert(nl@ =~= seq!['\n']);
        }
        let mut out = String::new();
        let mut i: usize = 0;
        while i < ls.len()
            invariant
                ls@.len() == 12,
                want.len() == 12,
                i <= 12,
                nl@ == seq!['\n'],
                forall|k: int| 0 <= k < 12 ==> #[trigger] ls@[k]@ == want[k],
                out@ == joined(want.take(i as int)),
            decreases 12 - i,
        {
            proof {
                lemma_joined_push(want.take(i as int), want[i as int]);
                assert(want.take(i + 1) =~= want.take(i as int).push(want[i as int]));
            }
            out.append(ls[i].as_str());
            out.append(nl);
            i = i + 1;
        }
        assert(want.take(12) =~= want);
        out
    }
}

} // verus!
