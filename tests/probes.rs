use rfetch::init::InitKind;
use rfetch::{
    classify_init, detect_init, extract_kb, format_uptime, get_hostname, get_kernel, get_memory,
    get_os, get_shell, get_storage, get_swap, get_uptime, get_username, select_mount, MountEntry,
};

fn mount(path: &str, total: u64, avail: u64) -> MountEntry {
    MountEntry { mount_point: path.to_string(), total_space: total, available_space: avail }
}

#[test]
fn username_from_variable() {
    assert_eq!(get_username(Some("alice")), "alice");
    assert_eq!(get_username(None), "unknown");
}

#[test]
fn hostname_is_trimmed() {
    assert_eq!(get_hostname(Some("host\n")), "host");
    assert_eq!(get_hostname(Some("  box \t\r\n")), "box");
    assert_eq!(get_hostname(None), "unknown");
}

#[test]
fn kernel_output_is_trimmed() {
    assert_eq!(get_kernel(Some("6.1.0-13-amd64\n")), "6.1.0-13-amd64");
    assert_eq!(get_kernel(None), "unknown");
}

#[test]
fn os_pretty_name_unquoted() {
    let text = "NAME=\"Debian GNU/Linux\"\nPRETTY_NAME=\"Debian GNU/Linux 12\"\nID=debian\n";
    assert_eq!(get_os(Some(text)), "Debian GNU/Linux 12");
    assert_eq!(get_os(Some("PRETTY_NAME=Arch Linux")), "Arch Linux");
}

#[test]
fn os_first_pretty_name_wins() {
    let text = "PRETTY_NAME=\"One\"\r\nPRETTY_NAME=\"Two\"\n";
    assert_eq!(get_os(Some(text)), "One");
}

#[test]
fn os_fallbacks() {
    assert_eq!(get_os(None), "unknown");
    assert_eq!(get_os(Some("NAME=x\nID=y\n")), "unknown");
    assert_eq!(get_os(Some("")), "unknown");
    assert_eq!(get_os(Some(" PRETTY_NAME=x")), "unknown");
}

#[test]
fn uptime_rendering_examples() {
    assert_eq!(format_uptime(3725), "1h 2m");
    assert_eq!(format_uptime(59), "0h 0m");
    assert_eq!(format_uptime(180000), "50h 0m");
}

#[test]
fn uptime_from_file() {
    assert_eq!(get_uptime(Some("3725.42 0.00\n")), "1h 2m");
    assert_eq!(get_uptime(Some("180000.99 12.00")), "50h 0m");
    assert_eq!(get_uptime(Some("  59")), "0h 0m");
    assert_eq!(get_uptime(Some("7200.")), "2h 0m");
}

#[test]
fn uptime_fallbacks() {
    assert_eq!(get_uptime(None), "unknown");
    assert_eq!(get_uptime(Some("")), "unknown");
    assert_eq!(get_uptime(Some("abc 1.0")), "unknown");
    assert_eq!(get_uptime(Some(". 1.0")), "unknown");
    assert_eq!(get_uptime(Some("1.2.3")), "unknown");
    assert_eq!(get_uptime(Some("99999999999999999999999.5")), "unknown");
}

#[test]
fn uptime_plus_sign() {
    assert_eq!(get_uptime(Some("+5 0.00")), "0h 0m");
    assert_eq!(get_uptime(Some("+3725.42")), "1h 2m");
}

#[test]
fn uptime_exponent() {
    assert_eq!(get_uptime(Some("1e3 0.00")), "0h 16m");
    assert_eq!(get_uptime(Some("2.5E2")), "0h 4m");
    assert_eq!(get_uptime(Some("3.6e+3")), "1h 0m");
    assert_eq!(get_uptime(Some("36e2")), "1h 0m");
    assert_eq!(get_uptime(Some("1e-3")), "0h 0m");
    assert_eq!(get_uptime(Some("123456789012345678901234567890e-26")), "0h 20m");
    assert_eq!(get_uptime(Some(".5e4")), "1h 23m");
}

#[test]
fn uptime_huge_exponents() {
    assert_eq!(get_uptime(Some("0e99999999999999999999999999999999")), "0h 0m");
    assert_eq!(get_uptime(Some("5e-99999999999999999999999999999999")), "0h 0m");
    assert_eq!(get_uptime(Some("1e99999999999999999999999999999999")), "unknown");
    assert_eq!(get_uptime(Some("1e25")), "unknown");
}

#[test]
fn uptime_malformed_numbers() {
    assert_eq!(get_uptime(Some("1e")), "unknown");
    assert_eq!(get_uptime(Some("e5")), "unknown");
    assert_eq!(get_uptime(Some("1e+")), "unknown");
    assert_eq!(get_uptime(Some("++5")), "unknown");
    assert_eq!(get_uptime(Some("-5")), "unknown");
    assert_eq!(get_uptime(Some("inf")), "unknown");
    assert_eq!(get_uptime(Some("1e2e3")), "unknown");
}

#[test]
fn shell_final_component() {
    assert_eq!(get_shell(Some("/bin/zsh")), "zsh");
    assert_eq!(get_shell(Some("/usr/bin/bash/")), "bash");
    assert_eq!(get_shell(Some("/usr/bin/fish/.")), "fish");
    assert_eq!(get_shell(Some("sh")), "sh");
}

#[test]
fn shell_fallbacks() {
    assert_eq!(get_shell(None), "unknown");
    assert_eq!(get_shell(Some("/")), "unknown");
    assert_eq!(get_shell(Some("")), "unknown");
    assert_eq!(get_shell(Some("/bin/..")), "unknown");
    assert_eq!(get_shell(Some(".")), "unknown");
}

#[test]
fn extract_kb_second_token() {
    assert_eq!(extract_kb("MemTotal:        8192000 kB"), 8192000);
    assert_eq!(extract_kb("MemAvailable: +42 kB"), 42);
    assert_eq!(extract_kb("MemTotal:"), 0);
    assert_eq!(extract_kb("MemTotal: x kB"), 0);
    assert_eq!(extract_kb("MemTotal: -5 kB"), 0);
    assert_eq!(extract_kb("MemTotal: 18446744073709551615"), u64::MAX);
    assert_eq!(extract_kb("MemTotal: 18446744073709551616"), 0);
}

#[test]
fn memory_used_and_total() {
    let text = "MemTotal:        8192000 kB\nMemFree:  100 kB\nMemAvailable:    4096000 kB\n";
    assert_eq!(get_memory(Some(text)), "3.9 GiB / 7.8 GiB");
}

#[test]
fn memory_available_needs_the_space() {
    let text = "MemTotal: 2097152 kB\nMemAvailableFoo: 1048576 kB\n";
    assert_eq!(get_memory(Some(text)), "2.0 GiB / 2.0 GiB");
}

#[test]
fn memory_fallbacks() {
    assert_eq!(get_memory(None), "unknown");
    assert_eq!(get_memory(Some("MemFree: 10 kB\n")), "unknown");
    assert_eq!(get_memory(Some("MemTotal: 0 kB\n")), "unknown");
}

#[test]
fn memory_rounding_matches_float_formatting() {
    for kb in [1u64, 52428, 52429, 104857, 262144, 786432, 1310720, 4096000, 8192000, 123456789] {
        let text = format!("MemTotal: {} kB\nMemAvailable: 0 kB\n", kb);
        let g = kb as f64 / 1024.0 / 1024.0;
        assert_eq!(get_memory(Some(&text)), format!("{:.1} GiB / {:.1} GiB", g, g));
    }
}

#[test]
fn swap_in_decimal_units() {
    assert_eq!(get_swap(2_000_000_000, 500_000_000), "0.5 GiB / 2.0 GiB");
    assert_eq!(get_swap(0, 0), "0.0 GiB / 0.0 GiB");
    assert_eq!(get_swap(1_000_000_000_000, 123_456_789_012), "123.5 GiB / 1000.0 GiB");
}

#[test]
fn longest_prefix_selection() {
    let ms = vec![mount("/", 10, 5), mount("/home", 20, 10)];
    assert_eq!(select_mount(&ms, "/home"), Some(1));
    assert_eq!(select_mount(&ms, "/home/alice"), Some(1));
    assert_eq!(select_mount(&ms, "/boot"), Some(0));
    assert_eq!(select_mount(&ms[1..], "/boot"), None);
}

#[test]
fn equal_mount_points_first_wins() {
    let ms = vec![mount("/data", 1, 1), mount("/", 3, 3), mount("/data", 2, 2)];
    assert_eq!(select_mount(&ms, "/data/x"), Some(0));
}

#[test]
fn nested_mounts_storage() {
    let ms = vec![
        mount("/", 100_000_000_000, 50_000_000_000),
        mount("/home", 200_000_000_000, 100_000_000_000),
    ];
    assert_eq!(get_storage("/", &ms), "50.0 GiB / 100.0 GiB (/)");
    assert_eq!(get_storage("/boot", &ms), "50.0 GiB / 100.0 GiB (/boot)");
    assert_eq!(get_storage("/home", &ms), "100.0 GiB / 200.0 GiB (/home)");
}

#[test]
fn storage_without_mount() {
    let ms = vec![mount("/home", 1, 1)];
    assert_eq!(get_storage("/boot", &ms), "N/A (/boot)");
    assert_eq!(get_storage("/", &[]), "N/A (/)");
}

#[test]
fn storage_available_above_total() {
    let ms = vec![mount("/", 1_000_000_000, 3_000_000_000)];
    assert_eq!(get_storage("/", &ms), "-2.0 GiB / 1.0 GiB (/)");
}

#[test]
fn init_table_rows() {
    assert_eq!(classify_init("systemd", "", false).label(), "systemd");
    assert_eq!(classify_init("runit", "", true).label(), "runit");
    assert_eq!(classify_init("runsvinit", "", false).label(), "runit");
    assert_eq!(classify_init("s6-svscan", "", false).label(), "s6");
    assert_eq!(classify_init("init", "/lib/rc/sh/openrc-run", false).label(), "openrc");
    assert_eq!(classify_init("init", "/sbin/init", true).label(), "sysvinit");
    assert_eq!(classify_init("mystery", "", true).label(), "systemd (fallback)");
    assert_eq!(classify_init("mystery", "", false).label(), "unknown (mystery)");
    assert!(matches!(classify_init("mystery", "", false), InitKind::Unknown(n) if n == "mystery"));
}

#[test]
fn init_openrc() {
    assert_eq!(detect_init(Some("init\n"), Some("/lib/rc/sh/openrc-run"), false), "openrc");
}

#[test]
fn init_sysvinit_fallback() {
    assert_eq!(detect_init(Some("init\n"), Some("/sbin/init"), false), "sysvinit");
}

#[test]
fn init_systemd_fallback() {
    assert_eq!(detect_init(Some("mystery\n"), None, true), "systemd (fallback)");
}

#[test]
fn init_all_absent() {
    assert_eq!(detect_init(None, None, false), "unknown ()");
    assert_eq!(detect_init(Some("systemd\n"), None, false), "systemd");
}
