//! Character-level helpers over the views of strings: whitespace, trimming,
//! lines, whitespace-separated tokens and digit runs.

use vstd::prelude::*;

verus! {

/// The characters that `char::is_whitespace` accepts (Unicode `White_Space`).
pub open spec fn is_ws(c: char) -> bool {
    let u = c as u32;
    (0x09 <= u && u <= 0x0d) || u == 0x20 || u == 0x85 || u == 0xa0 || u == 0x1680 || (0x2000
        <= u && u <= 0x200a) || u == 0x2028 || u == 0x2029 || u == 0x202f || u == 0x205f || u
        == 0x3000
}

pub fn is_whitespace(c: char) -> (r: bool)
    ensures
        r == is_ws(c),
{
    let u = c as u32;
    (0x09 <= u && u <= 0x0d) || u == 0x20 || u == 0x85 || u == 0xa0 || u == 0x1680 || (0x2000
        <= u && u <= 0x200a) || u == 0x2028 || u == 0x2029 || u == 0x202f || u == 0x205f || u
        == 0x3000
}

/// The characters of `s`, one per element.
pub fn chars_of(s: &str) -> (v: Vec<char>)
    ensures
        v@ == s@,
{
    let n = s.unicode_len();
    let mut v: Vec<char> = Vec::new();
    let mut i: usize = 0;
    while i < n
        invariant
            n == s@.len(),
            i <= n,
            v@ == s@.take(i as int),
        decreases n - i,
    {
        v.push(s.get_char(i));
        i = i + 1;
        assert(v@ =~= s@.take(i as int));
    }
    assert(v@ =~= s@);
    v
}

/// `s` without its leading whitespace.
pub open spec fn trim_start(s: Seq<char>) -> Seq<char>
    decreases s.len(),
{
    if s.len() > 0 && is_ws(s[0]) {
        trim_start(s.drop_first())
    } else {
        s
    }
}

/// `s` without its trailing whitespace.
pub open spec fn trim_end(s: Seq<char>) -> Seq<char>
    decreases s.len(),
{
    if s.len() > 0 && is_ws(s.last()) {
        trim_end(s.drop_last())
    } else {
        s
    }
}

/// `s` without whitespace at either end, as `str::trim` gives it.
pub open spec fn trimmed(s: Seq<char>) -> Seq<char> {
    trim_end(trim_start(s))
}

/// The bounds of `trimmed(s@.subrange(lo, hi))` within `s`.
pub fn trim_range(s: &Vec<char>, lo: usize, hi: usize) -> (r: (usize, usize))
    requires
        lo <= hi <= s@.len(),
    ensures
        lo <= r.0 <= r.1 <= hi,
        trimmed(s@.subrange(lo as int, hi as int)) == s@.subrange(r.0 as int, r.1 as int),
{
    let mut i = lo;
    while i < hi && is_whitespace(s[i])
        invariant
            lo <= i <= hi <= s@.len(),
            trim_start(s@.subrange(lo as int, hi as int)) == trim_start(
                s@.subrange(i as int, hi as int),
            ),
        decreases hi - i,
    {
        assert(s@.subrange(i as int, hi as int).drop_first() =~= s@.subrange(
            i + 1,
            hi as int,
        ));
        i = i + 1;
    }
    let mut j = hi;
    while j > i && is_whitespace(s[j - 1])
        invariant
            lo <= i <= j <= hi <= s@.len(),
            trim_start(s@.subrange(lo as int, hi as int)) == s@.subrange(i as int, hi as int),
            trim_end(s@.subrange(i as int, hi as int)) == trim_end(
                s@.subrange(i as int, j as int),
            ),
        decreases j,
    {
        assert(s@.subrange(i as int, j as int).drop_last() =~= s@.subrange(
            i as int,
            j - 1,
        ));
        j = j - 1;
    }
    (i, j)
}

/// Where the first `c` stands in `s`, or its length where there is none.
pub open spec fn index_of(s: Seq<char>, c: char) -> nat
    decreases s.len(),
{
    if s.len() == 0 {
        0
    } else if s[0] == c {
        0
    } else {
        1 + index_of(s.drop_first(), c)
    }
}

pub proof fn lemma_index_of(s: Seq<char>, c: char, j: int)
    requires
        0 <= j <= s.len(),
        forall|k: int| 0 <= k < j ==> s[k] != c,
        j == s.len() || s[j] == c,
    ensures
        index_of(s, c) == j,
    decreases j,
{
    if j > 0 {
        lemma_index_of(s.drop_first(), c, j - 1);
    }
}

/// The first `c` at or after `from` and before `hi`, or `hi`.
pub fn find_char(s: &Vec<char>, from: usize, hi: usize, c: char) -> (r: usize)
    requires
        from <= hi <= s@.len(),
    ensures
        from <= r <= hi,
        index_of(s@.subrange(from as int, hi as int), c) == r - from,
{
    let mut j = from;
    while j < hi && s[j] != c
        invariant
            from <= j <= hi <= s@.len(),
            forall|k: int| from <= k < j ==> s@[k] != c,
        decreases hi - j,
    {
        j = j + 1;
    }
    proof {
        lemma_index_of(s@.subrange(from as int, hi as int), c, j - from);
    }
    j
}

/// The lines of `s` as `str::lines` yields them: split at each `'\n'`, a
/// `'\r'` right before it dropped, and no empty line after a final `'\n'`.
pub open spec fn lines(s: Seq<char>) -> Seq<Seq<char>>
    decreases s.len(),
{
    if s.len() == 0 {
        seq![]
    } else {
        let k = index_of(s, '\n') as int;
        if k >= s.len() {
            seq![s]
        } else {
            let line = s.take(k);
            let content = if k > 0 && line.last() == '\r' {
                line.drop_last()
            } else {
                line
            };
            seq![content] + lines(s.skip(k + 1))
        }
    }
}

/// Splits off the first line of `s@.skip(pos)`: the bounds of its content
/// and where the next line starts.
pub fn next_line(s: &Vec<char>, pos: usize) -> (r: (usize, usize))
    requires
        pos < s@.len(),
    ensures
        pos <= r.0 < r.1 + 1,
        pos < r.1 <= s@.len(),
        lines(s@.skip(pos as int)) == seq![s@.subrange(pos as int, r.0 as int)] + lines(
            s@.skip(r.1 as int),
        ),
{
    let n = s.len();
    let j = find_char(s, pos, n, '\n');
    let t = Ghost(s@.skip(pos as int));
    assert(s@.subrange(pos as int, n as int) =~= t@);
    if j == n {
        assert(t@ =~= s@.subrange(pos as int, n as int));
        assert(s@.skip(n as int) =~= Seq::<char>::empty());
        (n, n)
    } else {
        assert(t@.skip(j - pos + 1) =~= s@.skip(j + 1));
        assert(t@.take(j - pos) =~= s@.subrange(pos as int, j as int));
        if j > pos && s[j - 1] == '\r' {
            assert(s@.subrange(pos as int, j as int).drop_last() =~= s@.subrange(
                pos as int,
                j - 1,
            ));
            (j - 1, j + 1)
        } else {
            (j, j + 1)
        }
    }
}

/// The leading run of non-whitespace characters of `s`.
pub open spec fn word(s: Seq<char>) -> Seq<char>
    decreases s.len(),
{
    if s.len() > 0 && !is_ws(s[0]) {
        seq![s[0]] + word(s.drop_first())
    } else {
        seq![]
    }
}

/// What follows the leading run of non-whitespace characters of `s`.
pub open spec fn after_word(s: Seq<char>) -> Seq<char>
    decreases s.len(),
{
    if s.len() > 0 && !is_ws(s[0]) {
        after_word(s.drop_first())
    } else {
        s
    }
}

/// The whitespace-separated token of `s` with index `n`, counting from 0, as
/// `s.split_whitespace().nth(n)` gives it.
pub open spec fn nth_token(s: Seq<char>, n: nat) -> Option<Seq<char>>
    decreases n,
{
    let u = trim_start(s);
    if u.len() == 0 {
        None
    } else if n == 0 {
        Some(word(u))
    } else {
        nth_token(after_word(u), (n - 1) as nat)
    }
}

/// The bounds of `nth_token(s@.subrange(lo, hi), n)` within `s`.
pub fn nth_token_range(s: &Vec<char>, lo: usize, hi: usize, n: usize) -> (r: Option<
    (usize, usize),
>)
    requires
        lo <= hi <= s@.len(),
    ensures
        match r {
            None => nth_token(s@.subrange(lo as int, hi as int), n as nat) is None,
            Some((a, b)) => lo <= a <= b <= hi && nth_token(
                s@.subrange(lo as int, hi as int),
                n as nat,
            ) == Some(s@.subrange(a as int, b as int)),
        },
{
    let mut pos = lo;
    let mut k: usize = 0;
    loop
        invariant
            lo <= pos <= hi <= s@.len(),
            k <= n,
            nth_token(s@.subrange(lo as int, hi as int), n as nat) == nth_token(
                s@.subrange(pos as int, hi as int),
                (n - k) as nat,
            ),
        decreases n - k,
    {
        let ghost at_start = s@.subrange(pos as int, hi as int);
        while pos < hi && is_whitespace(s[pos])
            invariant
                lo <= pos <= hi <= s@.len(),
                trim_start(at_start) == trim_start(s@.subrange(pos as int, hi as int)),
            decreases hi - pos,
        {
            assert(s@.subrange(pos as int, hi as int).drop_first() =~= s@.subrange(
                pos + 1,
                hi as int,
            ));
            pos = pos + 1;
        }
        if pos == hi {
            assert(s@.subrange(pos as int, hi as int) =~= Seq::<char>::empty());
            return None;
        }
        let start = pos;
        let ghost u = s@.subrange(start as int, hi as int);
        while pos < hi && !is_whitespace(s[pos])
            invariant
                start <= pos <= hi <= s@.len(),
                word(u) == s@.subrange(start as int, pos as int) + word(
                    s@.subrange(pos as int, hi as int),
                ),
                after_word(u) == after_word(s@.subrange(pos as int, hi as int)),
            decreases hi - pos,
        {
            assert(s@.subrange(pos as int, hi as int).drop_first() =~= s@.subrange(
                pos + 1,
                hi as int,
            ));
            assert(s@.subrange(start as int, pos + 1) =~= s@.subrange(start as int, pos as int)
                + seq![s@[pos as int]]);
            pos = pos + 1;
        }
        assert(word(s@.subrange(pos as int, hi as int)) =~= Seq::<char>::empty());
        assert(s@.subrange(start as int, pos as int) + Seq::<char>::empty() =~= s@.subrange(
            start as int,
            pos as int,
        ));
        if k == n {
            return Some((start, pos));
        }
        k = k + 1;
    }
}

/// Whether every character of `s` is an ASCII digit.
pub open spec fn all_digits(s: Seq<char>) -> bool {
    forall|i: int| 0 <= i < s.len() ==> '0' <= #[trigger] s[i] && s[i] <= '9'
}

/// The value of the digit `c`.
pub open spec fn digit_value(c: char) -> nat {
    ((c as u32) - ('0' as u32)) as nat
}

/// The number that the decimal digits `s` write.
pub open spec fn digits_value(s: Seq<char>) -> nat
    decreases s.len(),
{
    if s.len() == 0 {
        0
    } else {
        digits_value(s.drop_last()) * 10 + digit_value(s.last())
    }
}

pub proof fn lemma_digits_value_grows(s: Seq<char>, i: int)
    requires
        0 <= i <= s.len(),
        all_digits(s),
    ensures
        digits_value(s.take(i)) <= digits_value(s),
    decreases s.len() - i,
{
    if i < s.len() {
        lemma_digits_value_grows(s, i + 1);
        assert(s.take(i + 1).drop_last() =~= s.take(i));
    } else {
        assert(s.take(i) =~= s);
    }
}

/// The digits `s@.subrange(lo, hi)` read as a `u64`, where all of them are
/// digits and the value fits.
pub fn digits_u64(s: &Vec<char>, lo: usize, hi: usize) -> (r: Option<u64>)
    requires
        lo <= hi <= s@.len(),
    ensures
        r == (if all_digits(s@.subrange(lo as int, hi as int)) && digits_value(
            s@.subrange(lo as int, hi as int),
        ) <= u64::MAX {
            Some(digits_value(s@.subrange(lo as int, hi as int)) as u64)
        } else {
            None
        }),
{
    let ghost t = s@.subrange(lo as int, hi as int);
    let mut v: u64 = 0;
    let mut i = lo;
    while i < hi
        invariant
            lo <= i <= hi <= s@.len(),
            t == s@.subrange(lo as int, hi as int),
            all_digits(t.take(i - lo)),
            v == digits_value(t.take(i - lo)),
        decreases hi - i,
    {
        let c = s[i];
        assert(t.take(i - lo + 1).drop_last() =~= t.take(i - lo));
        assert(t.take(i - lo + 1).last() == c);
        if c < '0' || c > '9' {
            assert(t[i - lo] == c);
            return None;
        }
        let d = (c as u32 - '0' as u32) as u64;
        if v > (u64::MAX - d) / 10 {
            proof {
                assert(all_digits(t.take(i - lo + 1)));
                if all_digits(t) {
                    lemma_digits_value_grows(t, i - lo + 1);
                }
            }
            return None;
        }
        v = v * 10 + d;
        i = i + 1;
        assert(all_digits(t.take(i - lo)));
    }
    assert(t.take(i - lo) =~= t);
    Some(v)
}

/// Whether `key` begins `s@.subrange(lo, hi)`.
pub fn has_prefix_at(s: &Vec<char>, lo: usize, hi: usize, key: &Vec<char>) -> (r: bool)
    requires
        lo <= hi <= s@.len(),
    ensures
        r == key@.is_prefix_of(s@.subrange(lo as int, hi as int)),
{
    let k = key.len();
    if k > hi - lo {
        return false;
    }
    let mut i: usize = 0;
    while i < k
        invariant
            k == key@.len(),
            k <= hi - lo,
            lo <= hi <= s@.len(),
            i <= k,
            forall|j: int| 0 <= j < i ==> key@[j] == s@[lo + j],
        decreases k - i,
    {
        if key[i] != s[lo + i] {
            assert(key@[i as int] != s@.subrange(lo as int, hi as int).subrange(0, k as int)[i as int]);
            return false;
        }
        i = i + 1;
    }
    assert(key@ =~= s@.subrange(lo as int, hi as int).subrange(0, k as int));
    true
}

/// Whether `t` occurs in `s` as a run of consecutive characters.
pub open spec fn contains_run(s: Seq<char>, t: Seq<char>) -> bool {
    exists|i: int| 0 <= i <= s.len() && #[trigger] t.is_prefix_of(s.skip(i))
}

pub fn contains(s: &Vec<char>, t: &Vec<char>) -> (r: bool)
    ensures
        r == contains_run(s@, t@),
{
    let n = s.len();
    let mut i: usize = 0;
    while i < n
        invariant
            n == s@.len(),
            i <= n,
            forall|j: int| 0 <= j < i ==> !t@.is_prefix_of(#[trigger] s@.skip(j)),
        decreases n - i,
    {
        assert(s@.subrange(i as int, n as int) =~= s@.skip(i as int));
        if has_prefix_at(s, i, n, t) {
            return true;
        }
        i = i + 1;
    }
    assert(s@.subrange(n as int, n as int) =~= s@.skip(n as int));
    has_prefix_at(s, n, n, t)
}

/// What follows `key` on the first of `ls` that begins with it.
pub open spec fn first_with_key(ls: Seq<Seq<char>>, key: Seq<char>) -> Option<Seq<char>>
    decreases ls.len(),
{
    if ls.len() == 0 {
        None
    } else if key.is_prefix_of(ls[0]) {
        Some(ls[0].skip(key.len() as int))
    } else {
        first_with_key(ls.drop_first(), key)
    }
}

/// The bounds in `s` of `first_with_key(lines(s@), key@)`.
pub fn find_key_line(s: &Vec<char>, key: &Vec<char>) -> (r: Option<(usize, usize)>)
    ensures
        match r {
            None => first_with_key(lines(s@), key@) is None,
            Some((a, b)) => a <= b <= s@.len() && first_with_key(lines(s@), key@) == Some(
                s@.subrange(a as int, b as int),
            ),
        },
{
    let n = s.len();
    let mut pos: usize = 0;
    assert(s@.skip(0) =~= s@);
    while pos < n
        invariant
            n == s@.len(),
            pos <= n,
            first_with_key(lines(s@), key@) == first_with_key(lines(s@.skip(pos as int)), key@),
        decreases n - pos,
    {
        let (e, next) = next_line(s, pos);
        let ghost ls = lines(s@.skip(pos as int));
        assert(ls.drop_first() =~= lines(s@.skip(next as int)));
        if has_prefix_at(s, pos, e, key) {
            assert(s@.subrange(pos as int, e as int).skip(key@.len() as int) =~= s@.subrange(
                pos + key@.len(),
                e as int,
            ));
            return Some((pos + key.len(), e));
        }
        pos = next;
    }
    assert(s@.skip(pos as int) =~= Seq::<char>::empty());
    None
}

/// Whether every character of `s@.subrange(lo, hi)` is an ASCII digit.
pub fn digits_only(s: &Vec<char>, lo: usize, hi: usize) -> (r: bool)
    requires
        lo <= hi <= s@.len(),
    ensures
        r == all_digits(s@.subrange(lo as int, hi as int)),
{
    let mut i = lo;
    while i < hi
        invariant
            lo <= i <= hi <= s@.len(),
            forall|j: int| lo <= j < i ==> '0' <= #[trigger] s@[j] && s@[j] <= '9',
        decreases hi - i,
    {
        if s[i] < '0' || s[i] > '9' {
            assert(s@.subrange(lo as int, hi as int)[i - lo] == s@[i as int]);
            return false;
        }
        i = i + 1;
    }
    assert forall|j: int| 0 <= j < hi - lo implies '0' <= #[trigger] s@.subrange(
        lo as int,
        hi as int,
    )[j] && s@.subrange(lo as int, hi as int)[j] <= '9' by {
        assert(s@.subrange(lo as int, hi as int)[j] == s@[lo + j]);
    }
    true
}

/// Whether `s` holds exactly the characters of `t`.
pub fn same_text(s: &Vec<char>, t: &str) -> (r: bool)
    ensures
        r == (s@ == t@),
{
    let k = chars_of(t);
    if k.len() != s.len() {
        return false;
    }
    let r = has_prefix_at(s, 0, s.len(), &k);
    assert(s@.subrange(0, s@.len() as int) =~= s@);
    proof {
        if r {
            assert(k@ =~= s@);
        }
    }
    r
}

} // verus!
