//! Which init system runs as process 1, decided by a closed table over the
//! process's command name, its executable's path, and whether systemd's
//! runtime marker is present.

use vstd::prelude::*;
use crate::text::{chars_of, contains, contains_run, same_text, trimmed};
use crate::probes::opt_view;

verus! {

/// The init system that process 1 belongs to.
#[derive(Debug)]
pub enum InitKind {
    Systemd,
    Runit,
    S6,
    OpenRc,
    SysVinit,
    SystemdFallback,
    /// No row of the table matched: the command name that was seen.
    Unknown(String),
}

/// The text shown for each kind.
pub open spec fn label_of(k: InitKind) -> Seq<char> {
    match k {
        InitKind::Systemd => "systemd"@,
        InitKind::Runit => "runit"@,
        InitKind::S6 => "s6"@,
        InitKind::OpenRc => "openrc"@,
        InitKind::SysVinit => "sysvinit"@,
        InitKind::SystemdFallback => "systemd (fallback)"@,
        InitKind::Unknown(name) => "unknown ("@ + name@ + ")"@,
    }
}

/// The decision table: `comm` is process 1's command name, `exe` the path
/// its executable link points to, and `marker` whether
/// `/run/systemd/systemd` exists.
pub open spec fn init_field(comm: Seq<char>, exe: Seq<char>, marker: bool) -> Seq<char> {
    if comm == "systemd"@ {
        "systemd"@
    } else if comm == "runit"@ || comm == "runsvinit"@ {
        "runit"@
    } else if comm == "s6-svscan"@ {
        "s6"@
    } else if comm == "init"@ {
        if contains_run(exe, "openrc"@) {
            "openrc"@
        } else {
            "sysvinit"@
        }
    } else if marker {
        "systemd (fallback)"@
    } else {
        "unknown ("@ + comm + ")"@
    }
}

impl InitKind {
    /// The text shown for this kind.
    pub fn label(&self) -> (r: String)
        ensures
            r@ == label_of(*self),
    {
        match self {
            InitKind::Systemd => String::from_str("systemd"),
            InitKind::Runit => String::from_str("runit"),
            InitKind::S6 => String::from_str("s6"),
            InitKind::OpenRc => String::from_str("openrc"),
            InitKind::SysVinit => String::from_str("sysvinit"),
            InitKind::SystemdFallback => String::from_str("systemd (fallback)"),
            InitKind::Unknown(name) => {
                let mut r = String::from_str("unknown (");
                r.append(name.as_str());
                r.append(")");
                r
            },
        }
    }
}

/// Classifies process 1 by the table.
pub fn classify_init(comm: &str, exe: &str, marker: bool) -> (r: InitKind)
    ensures
        label_of(r) == init_field(comm@, exe@, marker),
{
    let c = chars_of(comm);
    if same_text(&c, "systemd") {
        InitKind::Systemd
    } else if same_text(&c, "runit") || same_text(&c, "runsvinit") {
        InitKind::Runit
    } else if same_text(&c, "s6-svscan") {
        InitKind::S6
    } else if same_text(&c, "init") {
        let e = chars_of(exe);
        let key = chars_of("openrc");
        if contains(&e, &key) {
            InitKind::OpenRc
        } else {
            InitKind::SysVinit
        }
    } else if marker {
        InitKind::SystemdFallback
    } else {
        InitKind::Unknown(String::from_str(comm))
    }
}

/// The init field: `comm` is the text of `/proc/1/comm` and `exe` the target
/// of `/proc/1/exe`, each absent where it could not be read.
pub open spec fn init_probe_field(comm: Option<Seq<char>>, exe: Option<Seq<char>>, marker: bool) -> Seq<char> {
    init_field(
        match comm {
            Some(c) => trimmed(c),
            None => Seq::<char>::empty(),
        },
        match exe {
            Some(e) => e,
            None => Seq::<char>::empty(),
        },
        marker,
    )
}

pub fn detect_init(comm: Option<&str>, exe: Option<&str>, marker: bool) -> (r: String)
    ensures
        r@ == init_probe_field(opt_view(comm), opt_view(exe), marker),
{
    let name = match comm {
        Some(c) => {
            let v = chars_of(c);
            let (a, b) = crate::text::trim_range(&v, 0, v.len());
            assert(v@.subrange(0, v@.len() as int) =~= c@);
            c.substring_char(a, b)
        },
        None => "",
    };
    proof {
        reveal_strlit("");
        assert(""@ =~= Seq::<char>::empty());
    }
    let target = match exe {
        Some(e) => e,
        None => "",
    };
    classify_init(name, target, marker).label()
}

} // verus!
