use rfetch::{HostState, MountEntry};

fn happy_host() -> HostState {
    HostState {
        user: Some("alice".to_string()),
        shell: Some("/bin/zsh".to_string()),
        hostname: Some("host\n".to_string()),
        os_release: Some("NAME=Debian\nPRETTY_NAME=\"Debian GNU/Linux 12\"\n".to_string()),
        init_comm: Some("systemd\n".to_string()),
        init_exe: Some("/usr/lib/systemd/systemd".to_string()),
        systemd_marker: true,
        kernel_release: Some("6.1.0-13-amd64\n".to_string()),
        uptime: Some("3725.42 0.00\n".to_string()),
        meminfo: Some("MemTotal:        8192000 kB\nMemAvailable:    4096000 kB\n".to_string()),
        swap_total: 2_000_000_000,
        swap_used: 500_000_000,
        mounts: vec![MountEntry {
            mount_point: "/".to_string(),
            total_space: 50_000_000_000,
            available_space: 30_000_000_000,
        }],
    }
}

fn absent_host() -> HostState {
    HostState {
        user: None,
        shell: None,
        hostname: None,
        os_release: None,
        init_comm: None,
        init_exe: None,
        systemd_marker: false,
        kernel_release: None,
        uptime: None,
        meminfo: None,
        swap_total: 0,
        swap_used: 0,
        mounts: vec![],
    }
}

#[test]
fn happy_path_fields() {
    let r = happy_host().collect();
    assert_eq!(r.user, "alice");
    assert_eq!(r.hostname, "host");
    assert_eq!(r.os, "Debian GNU/Linux 12");
    assert_eq!(r.init, "systemd");
    assert_eq!(r.kernel, "6.1.0-13-amd64");
    assert_eq!(r.uptime, "1h 2m");
    assert_eq!(r.shell, "zsh");
    assert_eq!(r.memory, "3.9 GiB / 7.8 GiB");
    assert_eq!(r.swap, "0.5 GiB / 2.0 GiB");
    assert_eq!(r.storage_boot, "20.0 GiB / 50.0 GiB (/boot)");
    assert_eq!(r.storage_root, "20.0 GiB / 50.0 GiB (/)");
    assert_eq!(r.storage_home, "20.0 GiB / 50.0 GiB (/home)");
}

#[test]
fn happy_path_rendered() {
    let out = happy_host().collect().render();
    let expected = "alice@host\n\
----------\n\
OS      : Debian GNU/Linux 12\n\
Init    : systemd\n\
Kernel  : 6.1.0-13-amd64\n\
Uptime  : 1h 2m\n\
Shell   : zsh\n\
Memory  : 3.9 GiB / 7.8 GiB\n\
Swap    : 0.5 GiB / 2.0 GiB\n\
Storage : 20.0 GiB / 50.0 GiB (/boot)\n          20.0 GiB / 50.0 GiB (/)\n          20.0 GiB / 50.0 GiB (/home)\n";
    assert_eq!(out, expected);
}

#[test]
fn all_sources_absent() {
    let r = absent_host().collect();
    assert_eq!(r.user, "unknown");
    assert_eq!(r.hostname, "unknown");
    assert_eq!(r.os, "unknown");
    assert_eq!(r.init, "unknown ()");
    assert_eq!(r.kernel, "unknown");
    assert_eq!(r.uptime, "unknown");
    assert_eq!(r.shell, "unknown");
    assert_eq!(r.memory, "unknown");
    assert_eq!(r.swap, "0.0 GiB / 0.0 GiB");
    assert_eq!(r.storage_boot, "N/A (/boot)");
    assert_eq!(r.storage_root, "N/A (/)");
    assert_eq!(r.storage_home, "N/A (/home)");
    let out = r.render();
    let lines: Vec<&str> = out.lines().collect();
    assert_eq!(lines.len(), 12);
    assert_eq!(lines[0], "unknown@unknown");
    assert_eq!(lines[1], "----------");
    assert_eq!(lines[9], "Storage : N/A (/boot)");
    assert_eq!(lines[11], "          N/A (/home)");
}

#[test]
fn layout_labels_in_order() {
    let out = happy_host().collect().render();
    let lines: Vec<&str> = out.lines().collect();
    assert_eq!(lines.len(), 12);
    assert!(out.ends_with('\n'));
    let labels = ["OS", "Init", "Kernel", "Uptime", "Shell", "Memory", "Swap", "Storage"];
    for (k, label) in labels.iter().enumerate() {
        assert_eq!(lines[k + 2].find(':'), Some(8));
        assert!(lines[k + 2].starts_with(label));
    }
    assert!(lines[10].starts_with("          2"));
    assert!(lines[11].starts_with("          2"));
}

#[test]
fn nested_mounts_report() {
    let mut h = happy_host();
    h.mounts = vec![
        MountEntry {
            mount_point: "/".to_string(),
            total_space: 100_000_000_000,
            available_space: 50_000_000_000,
        },
        MountEntry {
            mount_point: "/home".to_string(),
            total_space: 200_000_000_000,
            available_space: 100_000_000_000,
        },
    ];
    let r = h.collect();
    assert_eq!(r.storage_boot, "50.0 GiB / 100.0 GiB (/boot)");
    assert_eq!(r.storage_root, "50.0 GiB / 100.0 GiB (/)");
    assert_eq!(r.storage_home, "100.0 GiB / 200.0 GiB (/home)");
}

fn is_tenths(a: &str) -> bool {
    match a.split_once('.') {
        Some((w, d)) => {
            !w.is_empty()
                && w.chars().all(|c| c.is_ascii_digit())
                && d.len() == 1
                && d.chars().all(|c| c.is_ascii_digit())
        }
        None => false,
    }
}

fn is_usage(s: &str) -> bool {
    match s.strip_suffix(" GiB").and_then(|s| s.split_once(" GiB / ")) {
        Some((a, b)) => is_tenths(a) && is_tenths(b),
        None => false,
    }
}

#[test]
fn numeric_fields_have_one_decimal() {
    let r = happy_host().collect();
    assert!(is_usage(&r.memory));
    assert!(is_usage(&r.swap));
    for (s, p) in [(&r.storage_boot, "/boot"), (&r.storage_root, "/"), (&r.storage_home, "/home")] {
        let suffix = format!(" ({})", p);
        assert!(is_usage(s.strip_suffix(&suffix).unwrap()));
    }
    let empty = absent_host().collect();
    assert_eq!(empty.memory, "unknown");
    assert!(is_usage(&empty.swap));
}

#[test]
fn every_field_is_one_nonempty_line() {
    for h in [happy_host(), absent_host()] {
        let r = h.collect();
        for f in [
            &r.user, &r.hostname, &r.os, &r.init, &r.kernel, &r.uptime, &r.shell, &r.memory,
            &r.swap, &r.storage_boot, &r.storage_root, &r.storage_home,
        ] {
            assert!(!f.is_empty());
            assert!(!f.contains('\n'));
        }
    }
}
