//! The probes: each turns what the host exposes for one field (the text of a
//! file, a variable, a command's output, a counter) into the text shown for
//! it. A source that is absent is passed as `None`; no probe fails.

use vstd::prelude::*;
use crate::text::{
    all_digits, chars_of, digits_u64, digits_value, find_char, find_key_line,
    first_with_key, has_prefix_at, index_of, lines, next_line, nth_token, nth_token_range,
    trim_range, trimmed,
};
use crate::seconds::{token_seconds, whole_seconds};
use crate::units::{decimal, difference, push_decimal, usage, usage_text, BYTES_PER_GB, KIB_PER_GIB};

verus! {

/// The view of an optional string.
pub open spec fn opt_view(o: Option<&str>) -> Option<Seq<char>> {
    match o {
        Some(s) => Some(s@),
        None => None,
    }
}

/// The text shown where a probe has nothing to show.
pub open spec fn unknown_text() -> Seq<char> {
    "unknown"@
}

fn unknown() -> (r: String)
    ensures
        r@ == unknown_text(),
{
    String::from_str("unknown")
}

/// The trimmed text of `s`.
fn trim_str(s: &str) -> (r: String)
    ensures
        r@ == trimmed(s@),
{
    let c = chars_of(s);
    let (a, b) = trim_range(&c, 0, c.len());
    assert(c@.subrange(0, c@.len() as int) =~= s@);
    String::from_str(s.substring_char(a, b))
}

/// The user field: the value of `USER`.
pub open spec fn user_field(user: Option<Seq<char>>) -> Seq<char> {
    match user {
        Some(u) => u,
        None => unknown_text(),
    }
}

pub fn get_username(user: Option<&str>) -> (r: String)
    ensures
        r@ == user_field(opt_view(user)),
{
    match user {
        Some(u) => String::from_str(u),
        None => unknown(),
    }
}

/// The field for a source shown trimmed: the host name file, and the output
/// of the kernel release command.
pub open spec fn trimmed_field(content: Option<Seq<char>>) -> Seq<char> {
    match content {
        Some(c) => trimmed(c),
        None => unknown_text(),
    }
}

/// The host name field, from the text of the host name file.
pub fn get_hostname(content: Option<&str>) -> (r: String)
    ensures
        r@ == trimmed_field(opt_view(content)),
{
    match content {
        Some(c) => trim_str(c),
        None => unknown(),
    }
}

/// The kernel field, from the standard output of `uname -r` where it ran and
/// exited with success.
pub fn get_kernel(output: Option<&str>) -> (r: String)
    ensures
        r@ == trimmed_field(opt_view(output)),
{
    match output {
        Some(o) => trim_str(o),
        None => unknown(),
    }
}

/// `v` without one double quote at its start and one at its end.
pub open spec fn unquoted(v: Seq<char>) -> Seq<char> {
    let a = if v.len() > 0 && v[0] == '"' {
        v.drop_first()
    } else {
        v
    };
    if a.len() > 0 && a.last() == '"' {
        a.drop_last()
    } else {
        a
    }
}

/// The operating system field, from the text of the os-release file: the
/// value on the first line that begins with `PRETTY_NAME=`, unquoted.
pub open spec fn os_field(content: Option<Seq<char>>) -> Seq<char> {
    match content {
        Some(c) => match first_with_key(lines(c), "PRETTY_NAME="@) {
            Some(v) => unquoted(v),
            None => unknown_text(),
        },
        None => unknown_text(),
    }
}

pub fn get_os(content: Option<&str>) -> (r: String)
    ensures
        r@ == os_field(opt_view(content)),
{
    match content {
        Some(text) => {
            let c = chars_of(text);
            let key = chars_of("PRETTY_NAME=");
            match find_key_line(&c, &key) {
                Some((a0, b0)) => {
                    let ghost v = c@.subrange(a0 as int, b0 as int);
                    let mut a = a0;
                    let mut b = b0;
                    if a < b && c[a] == '"' {
                        assert(v.drop_first() =~= c@.subrange(a + 1, b as int));
                        a = a + 1;
                    }
                    let ghost w = c@.subrange(a as int, b as int);
                    if a < b && c[b - 1] == '"' {
                        assert(w.drop_last() =~= c@.subrange(a as int, b - 1));
                        b = b - 1;
                    }
                    String::from_str(text.substring_char(a, b))
                },
                None => unknown(),
            }
        },
        None => unknown(),
    }
}

/// `s.parse::<u64>()`: an optional `+`, then one or more digits whose value
/// fits.
pub open spec fn parse_u64(s: Seq<char>) -> Option<u64> {
    let d = if s.len() > 0 && s[0] == '+' {
        s.drop_first()
    } else {
        s
    };
    if d.len() > 0 && all_digits(d) && digits_value(d) <= u64::MAX {
        Some(digits_value(d) as u64)
    } else {
        None
    }
}

/// The kibibyte count on a line of the meminfo file: its second
/// whitespace-separated token read as a number, or 0.
pub open spec fn kb_value(line: Seq<char>) -> u64 {
    match nth_token(line, 1) {
        Some(t) => match parse_u64(t) {
            Some(v) => v,
            None => 0,
        },
        None => 0,
    }
}

fn kb_in(s: &Vec<char>, lo: usize, hi: usize) -> (r: u64)
    requires
        lo <= hi <= s@.len(),
    ensures
        r == kb_value(s@.subrange(lo as int, hi as int)),
{
    match nth_token_range(s, lo, hi, 1) {
        Some((a, b)) => {
            let mut d = a;
            if a < b && s[a] == '+' {
                assert(s@.subrange(a as int, b as int).drop_first() =~= s@.subrange(
                    a + 1,
                    b as int,
                ));
                d = a + 1;
            }
            if d == b {
                return 0;
            }
            match digits_u64(s, d, b) {
                Some(v) => v,
                None => 0,
            }
        },
        None => 0,
    }
}

/// Reads the kibibyte count of one meminfo line.
pub fn extract_kb(line: &str) -> (r: u64)
    ensures
        r == kb_value(line@),
{
    let c = chars_of(line);
    assert(c@.subrange(0, c@.len() as int) =~= line@);
    kb_in(&c, 0, c.len())
}

/// One line's effect on the (total, available) pair: a line that begins
/// with `MemTotal:` sets the total, one that begins with `MemAvailable: `
/// (with the space) sets what is available.
pub open spec fn mem_step(line: Seq<char>, acc: (u64, u64)) -> (u64, u64) {
    if "MemTotal:"@.is_prefix_of(line) {
        (kb_value(line), acc.1)
    } else if "MemAvailable: "@.is_prefix_of(line) {
        (acc.0, kb_value(line))
    } else {
        acc
    }
}

/// The (total, available) pair after the lines `ls`, from `acc`.
pub open spec fn mem_scan(ls: Seq<Seq<char>>, acc: (u64, u64)) -> (u64, u64)
    decreases ls.len(),
{
    if ls.len() == 0 {
        acc
    } else {
        mem_scan(ls.drop_first(), mem_step(ls[0], acc))
    }
}

/// The memory field, from the text of the meminfo file: used (total less
/// available) and total, in binary gibibytes; `unknown` where no total was
/// read or it is zero.
pub open spec fn memory_field(content: Option<Seq<char>>) -> Seq<char> {
    match content {
        Some(c) => {
            let (total, avail) = mem_scan(lines(c), (0, 0));
            if total == 0 {
                unknown_text()
            } else {
                usage_text(total - avail, total as int, KIB_PER_GIB as nat)
            }
        },
        None => unknown_text(),
    }
}

pub fn get_memory(content: Option<&str>) -> (r: String)
    ensures
        r@ == memory_field(opt_view(content)),
{
    let text = match content {
        Some(t) => t,
        None => {
            return unknown();
        },
    };
    let c = chars_of(text);
    let total_key = chars_of("MemTotal:");
    let avail_key = chars_of("MemAvailable: ");
    let n = c.len();
    let mut total: u64 = 0;
    let mut avail: u64 = 0;
    let mut pos: usize = 0;
    assert(c@.skip(0) =~= c@);
    while pos < n
        invariant
            n == c@.len(),
            pos <= n,
            total_key@ == "MemTotal:"@,
            avail_key@ == "MemAvailable: "@,
            mem_scan(lines(c@), (0, 0)) == mem_scan(lines(c@.skip(pos as int)), (total, avail)),
        decreases n - pos,
    {
        let (e, next) = next_line(&c, pos);
        let ghost ls = lines(c@.skip(pos as int));
        assert(ls.drop_first() =~= lines(c@.skip(next as int)));
        if has_prefix_at(&c, pos, e, &total_key) {
            total = kb_in(&c, pos, e);
        } else if has_prefix_at(&c, pos, e, &avail_key) {
            avail = kb_in(&c, pos, e);
        }
        pos = next;
    }
    assert(c@.skip(pos as int) =~= Seq::<char>::empty());
    if total == 0 {
        return unknown();
    }
    let (neg, used) = difference(total, avail);
    usage(neg, used, total, KIB_PER_GIB)
}

/// The swap field: used and total swap bytes in decimal gigabytes. Both zero
/// give `0.0 GiB / 0.0 GiB`. Each amount is the exact quotient rounded to a
/// tenth, a tie to the even digit; on an exact tie this can differ from
/// printing the float quotient with `{:.1}` (50,000,000 bytes shows `0.0`
/// here, where the float quotient, a little above 0.05, would print `0.1`).
pub open spec fn swap_field(total: u64, used: u64) -> Seq<char> {
    usage_text(used as int, total as int, BYTES_PER_GB as nat)
}

pub fn get_swap(total: u64, used: u64) -> (r: String)
    ensures
        r@ == swap_field(total, used),
{
    usage(false, used, total, BYTES_PER_GB)
}

/// Hours and minutes of an uptime: `{H}h {M}m`.
pub open spec fn clock_text(seconds: nat) -> Seq<char> {
    decimal(seconds / 3600) + "h "@ + decimal((seconds / 60) % 60) + "m"@
}

pub fn format_uptime(seconds: u64) -> (r: String)
    ensures
        r@ == clock_text(seconds as nat),
{
    let mut out = String::new();
    push_decimal(&mut out, (seconds / 3600) as u128);
    out.append("h ");
    push_decimal(&mut out, ((seconds / 60) % 60) as u128);
    out.append("m");
    assert(out@ =~= clock_text(seconds as nat));
    out
}

/// The uptime field, from the text of the uptime file: its first token read
/// as a number of seconds (`whole_seconds`), shown as hours and minutes.
pub open spec fn uptime_field(content: Option<Seq<char>>) -> Seq<char> {
    match content {
        Some(c) => match nth_token(c, 0) {
            Some(t) => match whole_seconds(t) {
                Some(s) => clock_text(s as nat),
                None => unknown_text(),
            },
            None => unknown_text(),
        },
        None => unknown_text(),
    }
}

pub fn get_uptime(content: Option<&str>) -> (r: String)
    ensures
        r@ == uptime_field(opt_view(content)),
{
    let text = match content {
        Some(t) => t,
        None => {
            return unknown();
        },
    };
    let c = chars_of(text);
    assert(c@.subrange(0, c@.len() as int) =~= c@);
    let (a, b) = match nth_token_range(&c, 0, c.len(), 0) {
        Some(r) => r,
        None => {
            return unknown();
        },
    };
    match token_seconds(&c, a, b) {
        Some(s) => format_uptime(s),
        None => unknown(),
    }
}

/// The parts of a path between its `/` separators, empty ones included.
pub open spec fn path_parts(p: Seq<char>) -> Seq<Seq<char>>
    decreases p.len(),
{
    let k = index_of(p, '/') as int;
    if k >= p.len() {
        seq![p]
    } else {
        seq![p.take(k)] + path_parts(p.skip(k + 1))
    }
}

/// Whether a part names an entry: neither empty nor `.`.
pub open spec fn is_named(part: Seq<char>) -> bool {
    part.len() > 0 && part != seq!['.']
}

/// The last of `parts` that names an entry.
pub open spec fn last_named(parts: Seq<Seq<char>>) -> Option<Seq<char>>
    decreases parts.len(),
{
    if parts.len() == 0 {
        None
    } else {
        match last_named(parts.drop_first()) {
            Some(x) => Some(x),
            None => if is_named(parts[0]) {
                Some(parts[0])
            } else {
                None
            },
        }
    }
}

/// The final component of a path, as `Path::file_name` gives it: the last
/// part that names an entry, and none where that is `..` or there is none.
pub open spec fn file_name(p: Seq<char>) -> Option<Seq<char>> {
    match last_named(path_parts(p)) {
        Some(x) => if x == seq!['.', '.'] {
            None
        } else {
            Some(x)
        },
        None => None,
    }
}

/// The shell field: the final component of the path in `SHELL`.
pub open spec fn shell_field(shell: Option<Seq<char>>) -> Seq<char> {
    match shell {
        Some(p) => match file_name(p) {
            Some(x) => x,
            None => unknown_text(),
        },
        None => unknown_text(),
    }
}

/// The bounds of `file_name(s@)` within `s`.
fn file_name_range(s: &Vec<char>) -> (r: Option<(usize, usize)>)
    ensures
        match r {
            None => file_name(s@) is None,
            Some((a, b)) => a <= b <= s@.len() && file_name(s@) == Some(
                s@.subrange(a as int, b as int),
            ),
        },
{
    let n = s.len();
    let mut pos: usize = 0;
    let mut best: Option<(usize, usize)> = None;
    assert(s@.skip(0) =~= s@);
    loop
        invariant
            n == s@.len(),
            pos <= n,
            match best {
                Some((a, b)) => a <= b <= n && is_named(s@.subrange(a as int, b as int)),
                None => true,
            },
            last_named(path_parts(s@)) == match last_named(path_parts(s@.skip(pos as int))) {
                Some(x) => Some(x),
                None => match best {
                    Some((a, b)) => Some(s@.subrange(a as int, b as int)),
                    None => None,
                },
            },
        ensures
            match best {
                Some((a, b)) => a <= b <= n && is_named(s@.subrange(a as int, b as int)),
                None => true,
            },
            last_named(path_parts(s@)) == match best {
                Some((a, b)) => Some(s@.subrange(a as int, b as int)),
                None => None,
            },
        decreases n + 1 - pos,
    {
        let k = find_char(s, pos, n, '/');
        let ghost rest = s@.skip(pos as int);
        assert(s@.subrange(pos as int, n as int) =~= rest);
        assert(rest.take(k - pos) =~= s@.subrange(pos as int, k as int));
        let named = k > pos && !(k == pos + 1 && s[pos] == '.');
        assert(named == is_named(s@.subrange(pos as int, k as int))) by {
            if k == pos + 1 {
                assert(s@.subrange(pos as int, k as int) =~= seq![s@[pos as int]]);
            }
        }
        if named {
            best = Some((pos, k));
        }
        if k == n {
            assert(path_parts(rest) == seq![rest]);
            assert(seq![rest].drop_first() =~= Seq::<Seq<char>>::empty());
            assert(rest =~= s@.subrange(pos as int, k as int));
            assert(last_named(Seq::<Seq<char>>::empty()) is None);
            assert(last_named(seq![rest]) == if is_named(rest) {
                Some(rest)
            } else {
                None
            });
            break;
        }
        assert(rest.skip(k - pos + 1) =~= s@.skip(k + 1));
        assert(path_parts(rest).drop_first() =~= path_parts(s@.skip(k + 1)));
        pos = k + 1;
    }
    match best {
        Some((a, b)) => {
            if b - a == 2 && s[a] == '.' && s[a + 1] == '.' {
                assert(s@.subrange(a as int, b as int) =~= seq!['.', '.']);
                None
            } else {
                assert(s@.subrange(a as int, b as int).len() != 2 || s@.subrange(
                    a as int,
                    b as int,
                )[0] != '.' || s@.subrange(a as int, b as int)[1] != '.');
                Some((a, b))
            }
        },
        None => None,
    }
}

pub fn get_shell(shell: Option<&str>) -> (r: String)
    ensures
        r@ == shell_field(opt_view(shell)),
{
    match shell {
        Some(p) => {
            let c = chars_of(p);
            match file_name_range(&c) {
                Some((a, b)) => String::from_str(p.substring_char(a, b)),
                None => unknown(),
            }
        },
        None => unknown(),
    }
}

} // verus!
