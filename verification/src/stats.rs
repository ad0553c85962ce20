//! Block-device statistics helpers.
//!
//! Pure parsing for the OS-facing plumbing around the listing core: the
//! `/proc/diskstats` device-name lookup, the sysfs `rotational` and
//! `nr_requests` files, the per-device I/O counter line, and the
//! arithmetic behind a filesystem usage report. Everything here works on
//! plain text handed in by the caller; reading the files themselves is
//! left to the surrounding program. Fields are separated by ASCII
//! whitespace, as the kernel writes them.

use vstd::prelude::*;
use vstd::string::StrSliceExecFns;
use vstd::string::StringExecFns;
use vstd::arithmetic::div_mod::lemma_fundamental_div_mod;

verus! {

/// ASCII whitespace: what separates fields in the kernel's text files.
pub open spec fn is_space(c: char) -> bool {
    c == ' ' || c == '\t' || c == '\n' || c == '\r' || (c as u32) == 11 || (c as u32) == 12
}

/// A decimal digit.
pub open spec fn is_digit(c: char) -> bool {
    48 <= c as u32 <= 57
}

/// The value of a decimal digit.
pub open spec fn digit_val(c: char) -> int {
    c as u32 - 48
}

/// The string with leading whitespace removed.
pub open spec fn trim_front(s: Seq<char>) -> Seq<char>
    decreases s.len(),
{
    if s.len() > 0 && is_space(s[0]) {
        trim_front(s.drop_first())
    } else {
        s
    }
}

/// The string with trailing whitespace removed.
pub open spec fn trim_back(s: Seq<char>) -> Seq<char>
    decreases s.len(),
{
    if s.len() > 0 && is_space(s.last()) {
        trim_back(s.drop_last())
    } else {
        s
    }
}

/// The string with surrounding whitespace removed.
pub open spec fn trimmed(s: Seq<char>) -> Seq<char> {
    trim_back(trim_front(s))
}

/// The number the first `k` characters spell in decimal.
pub open spec fn digits_val(s: Seq<char>, k: int) -> int
    decreases k,
{
    if k <= 0 {
        0
    } else {
        digits_val(s, k - 1) * 10 + digit_val(s[k - 1])
    }
}

/// Every character is a decimal digit.
pub open spec fn all_digits(s: Seq<char>) -> bool {
    forall|i: int| 0 <= i < s.len() ==> is_digit(#[trigger] s[i])
}

/// What parsing a string as an unsigned 64-bit decimal yields: an
/// optional leading plus sign, then at least one digit, spelling a value
/// that fits; anything else — empty input, a stray character, overflow —
/// yields nothing.
pub open spec fn spec_parse_u64(s: Seq<char>) -> Option<u64> {
    let ds = if s.len() > 0 && s[0] == '+' {
        s.drop_first()
    } else {
        s
    };
    if ds.len() > 0 && all_digits(ds) && digits_val(ds, ds.len() as int) <= u64::MAX {
        Some(digits_val(ds, ds.len() as int) as u64)
    } else {
        None
    }
}

proof fn lemma_digits_val_grows(s: Seq<char>, k: int, l: int)
    requires
        0 <= k <= l <= s.len(),
        forall|i: int| 0 <= i < l ==> is_digit(#[trigger] s[i]),
        digits_val(s, k) >= 0,
    ensures
        digits_val(s, k) <= digits_val(s, l),
        digits_val(s, l) >= 0,
    decreases l - k,
{
    if k < l {
        assert(digits_val(s, k + 1) == digits_val(s, k) * 10 + digit_val(s[k]));
        assert(digits_val(s, k) * 10 >= digits_val(s, k)) by (nonlinear_arith)
            requires
                digits_val(s, k) >= 0,
        ;
        lemma_digits_val_grows(s, k + 1, l);
    }
}

/// Parse a whole string as an unsigned 64-bit decimal.
pub fn parse_u64_str(s: &str) -> (r: Option<u64>)
    ensures
        r == spec_parse_u64(s@),
{
    let n = s.unicode_len();
    let mut i: usize = 0;
    if n > 0 && s.get_char(0) == '+' {
        i = 1;
    }
    let ghost ds = if s@.len() > 0 && s@[0] == '+' {
        s@.drop_first()
    } else {
        s@
    };
    let ghost off = i as int;
    proof {
        assert(ds.len() == s@.len() - off);
        assert(forall|j: int| 0 <= j < ds.len() ==> ds[j] == s@[j + off]);
    }
    if i == n {
        proof {
            assert(ds.len() == 0);
        }
        return None;
    }
    let mut acc: u64 = 0;
    let mut k: usize = i;
    while k < n
        invariant
            off <= k <= n,
            n == s@.len(),
            off == i as int,
            0 <= off <= 1,
            ds == (if s@.len() > 0 && s@[0] == '+' {
                s@.drop_first()
            } else {
                s@
            }),
            ds.len() == n - off,
            forall|j: int| 0 <= j < ds.len() ==> ds[j] == s@[j + off],
            forall|j: int| 0 <= j < k - off ==> is_digit(#[trigger] ds[j]),
            acc as int == digits_val(ds, k - off),
        decreases n - k,
    {
        let c = s.get_char(k);
        let cu = c as u32;
        if cu < 48 || cu > 57 {
            proof {
                assert(ds[k - off] == s@[k as int]);
                assert(!is_digit(ds[k - off]));
                assert(!all_digits(ds));
            }
            return None;
        }
        let d = (cu - 48) as u64;
        let limit = (u64::MAX - d) / 10;
        if acc > limit {
            proof {
                lemma_fundamental_div_mod((u64::MAX - d) as int, 10);
                assert(acc as int * 10 >= (limit as int + 1) * 10) by (nonlinear_arith)
                    requires
                        acc as int >= limit as int + 1,
                ;
                assert(digits_val(ds, k - off + 1) == digits_val(ds, k - off) * 10 + digit_val(
                    ds[k - off],
                ));
                assert(digits_val(ds, k - off + 1) > u64::MAX);
                if all_digits(ds) {
                    lemma_digits_val_grows(ds, k - off + 1, ds.len() as int);
                    assert(digits_val(ds, ds.len() as int) > u64::MAX);
                }
            }
            return None;
        }
        proof {
            lemma_fundamental_div_mod((u64::MAX - d) as int, 10);
            assert(acc as int * 10 <= limit as int * 10) by (nonlinear_arith)
                requires
                    0 <= acc as int <= limit as int,
            ;
            assert(ds[k - off] == s@[k as int]);
        }
        acc = acc * 10 + d;
        k = k + 1;
    }
    proof {
        assert(all_digits(ds));
        assert(digits_val(ds, ds.len() as int) == acc as int);
    }
    Some(acc)
}

/// The character range `[i, j)` that remains after trimming whitespace:
/// `trimmed(s@) == s@.subrange(i, j)`.
fn trim_bounds(s: &str) -> (r: (usize, usize))
    ensures
        0 <= r.0 <= r.1 <= s@.len(),
        trimmed(s@) == s@.subrange(r.0 as int, r.1 as int),
{
    let n = s.unicode_len();
    let mut i: usize = 0;
    proof {
        assert(s@.skip(0) =~= s@);
    }
    while i < n && ch_is_space(s.get_char(i))
        invariant
            i <= n,
            n == s@.len(),
            trim_front(s@) == trim_front(s@.skip(i as int)),
        decreases n - i,
    {
        proof {
            assert(s@.skip(i as int)[0] == s@[i as int]);
            assert(s@.skip(i as int).drop_first() =~= s@.skip(i as int + 1));
        }
        i = i + 1;
    }
    proof {
        if i < n {
            assert(s@.skip(i as int)[0] == s@[i as int]);
        }
        assert(trim_front(s@) == s@.skip(i as int));
    }
    let mut j: usize = n;
    while j > i && ch_is_space(s.get_char(j - 1))
        invariant
            i <= j <= n,
            n == s@.len(),
            trim_front(s@) == s@.skip(i as int),
            trim_back(s@.skip(i as int)) == trim_back(s@.subrange(i as int, j as int)),
        decreases j,
    {
        proof {
            let sub = s@.subrange(i as int, j as int);
            assert(sub.last() == s@[j - 1]);
            assert(sub.drop_last() =~= s@.subrange(i as int, j - 1));
        }
        j = j - 1;
    }
    proof {
        assert(s@.skip(i as int) =~= s@.subrange(i as int, n as int));
        let sub = s@.subrange(i as int, j as int);
        if j > i {
            assert(sub.last() == s@[j - 1]);
        }
        assert(trim_back(sub) == sub);
        assert(trimmed(s@) == s@.subrange(i as int, j as int));
    }
    (i, j)
}

/// ASCII whitespace test.
fn ch_is_space(c: char) -> (r: bool)
    ensures
        r == is_space(c),
{
    let cu = c as u32;
    c == ' ' || c == '\t' || c == '\n' || c == '\r' || cu == 11 || cu == 12
}

/// What a sysfs `rotational` file means: `1` is a rotational disk, `0`
/// is not, anything else is unknown.
pub open spec fn spec_parse_rotational(s: Seq<char>) -> Option<bool> {
    if trimmed(s) == seq!['1'] {
        Some(true)
    } else if trimmed(s) == seq!['0'] {
        Some(false)
    } else {
        None
    }
}

/// Parse the content of a sysfs `rotational` file.
pub fn parse_rotational(content: &str) -> (r: Option<bool>)
    ensures
        r == spec_parse_rotational(content@),
{
    let (i, j) = trim_bounds(content);
    proof {
        assert(seq!['1'].len() == 1);
        assert(seq!['0'].len() == 1);
    }
    if j - i != 1 {
        proof {
            assert(trimmed(content@).len() != 1);
        }
        return None;
    }
    let c = content.get_char(i);
    proof {
        assert(trimmed(content@) =~= seq![content@[i as int]]);
        assert(trimmed(content@)[0] == c);
        assert(seq!['1'][0] == '1');
        assert(seq!['0'][0] == '0');
    }
    if c == '1' {
        proof {
            assert(trimmed(content@) =~= seq!['1']);
        }
        Some(true)
    } else if c == '0' {
        proof {
            assert(trimmed(content@) =~= seq!['0']);
        }
        Some(false)
    } else {
        None
    }
}

/// Parse the content of a sysfs `nr_requests` file: the trimmed text as
/// an unsigned 64-bit decimal.
pub fn parse_nr_requests(content: &str) -> (r: Option<u64>)
    ensures
        r == spec_parse_u64(trimmed(content@)),
{
    let (i, j) = trim_bounds(content);
    let sub = content.substring_char(i, j);
    parse_u64_str(sub)
}

/// The whitespace-free run that starts the string.
pub open spec fn take_token(s: Seq<char>) -> Seq<char>
    decreases s.len(),
{
    if s.len() == 0 || is_space(s[0]) {
        seq![]
    } else {
        seq![s[0]] + take_token(s.drop_first())
    }
}

/// The whitespace-separated fields of a string, in order.
pub open spec fn tokens(s: Seq<char>) -> Seq<Seq<char>>
    decreases s.len(),
    via tokens_decreases
{
    if s.len() == 0 {
        seq![]
    } else if is_space(s[0]) {
        tokens(s.drop_first())
    } else {
        seq![take_token(s)] + tokens(s.skip(take_token(s).len() as int))
    }
}

proof fn lemma_take_token_len(s: Seq<char>)
    ensures
        take_token(s).len() <= s.len(),
    decreases s.len(),
{
    if s.len() > 0 && !is_space(s[0]) {
        lemma_take_token_len(s.drop_first());
    }
}

#[via_fn]
proof fn tokens_decreases(s: Seq<char>) {
    if s.len() > 0 && !is_space(s[0]) {
        assert(take_token(s) == seq![s[0]] + take_token(s.drop_first()));
        assert(take_token(s).len() >= 1);
        lemma_take_token_len(s);
    }
}

/// Advance past whitespace: the fields are unaffected.
fn skip_spaces(s: &str, n: usize, i: usize) -> (r: usize)
    requires
        n == s@.len(),
        i <= n,
    ensures
        i <= r <= n,
        tokens(s@.skip(i as int)) == tokens(s@.skip(r as int)),
        r < n ==> !is_space(s@[r as int]),
    decreases n - i,
{
    let mut r: usize = i;
    while r < n && ch_is_space(s.get_char(r))
        invariant
            i <= r <= n,
            n == s@.len(),
            tokens(s@.skip(i as int)) == tokens(s@.skip(r as int)),
        decreases n - r,
    {
        proof {
            assert(s@.skip(r as int)[0] == s@[r as int]);
            assert(s@.skip(r as int).drop_first() =~= s@.skip(r as int + 1));
        }
        r = r + 1;
    }
    r
}

/// Find the end of the field that starts at `i`.
fn token_end(s: &str, n: usize, i: usize) -> (r: usize)
    requires
        n == s@.len(),
        i < n,
        !is_space(s@[i as int]),
    ensures
        i < r <= n,
        take_token(s@.skip(i as int)) == s@.subrange(i as int, r as int),
        tokens(s@.skip(i as int)) == seq![s@.subrange(i as int, r as int)] + tokens(
            s@.skip(r as int),
        ),
{
    let mut r: usize = i;
    proof {
        assert(take_token(s@.skip(i as int)) =~= s@.subrange(i as int, i as int) + take_token(
            s@.skip(i as int),
        ));
    }
    while r < n && !ch_is_space(s.get_char(r))
        invariant
            i <= r <= n,
            n == s@.len(),
            take_token(s@.skip(i as int)) == s@.subrange(i as int, r as int) + take_token(
                s@.skip(r as int),
            ),
        decreases n - r,
    {
        proof {
            assert(s@.skip(r as int)[0] == s@[r as int]);
            assert(s@.skip(r as int).drop_first() =~= s@.skip(r as int + 1));
            assert(s@.subrange(i as int, r as int) + (seq![s@[r as int]] + take_token(
                s@.skip(r as int + 1),
            )) =~= s@.subrange(i as int, r + 1) + take_token(s@.skip(r as int + 1)));
        }
        r = r + 1;
    }
    proof {
        if r < n {
            assert(s@.skip(r as int)[0] == s@[r as int]);
        }
        assert(take_token(s@.skip(r as int)) =~= Seq::<char>::empty());
        assert(take_token(s@.skip(i as int)) =~= s@.subrange(i as int, r as int));
        assert(r > i) by {
            assert(s@.skip(i as int)[0] == s@[i as int]);
            assert(take_token(s@.skip(i as int)).len() > 0);
        }
        assert(s@.skip(i as int).skip(r - i) =~= s@.skip(r as int));
        assert(tokens(s@.skip(i as int)) == seq![take_token(s@.skip(i as int))] + tokens(
            s@.skip(i as int).skip(take_token(s@.skip(i as int)).len() as int),
        ));
    }
    r
}

/// The index of the first line break, or the length when there is none.
pub open spec fn find_nl(s: Seq<char>) -> int
    decreases s.len(),
{
    if s.len() == 0 {
        0
    } else if s[0] == '\n' {
        0
    } else {
        1 + find_nl(s.drop_first())
    }
}

proof fn lemma_find_nl_bounds(s: Seq<char>)
    ensures
        0 <= find_nl(s) <= s.len(),
    decreases s.len(),
{
    if s.len() > 0 && s[0] != '\n' {
        lemma_find_nl_bounds(s.drop_first());
    }
}

/// A line with a trailing carriage return removed.
pub open spec fn strip_cr(line: Seq<char>) -> Seq<char> {
    if line.len() > 0 && line.last() == '\r' {
        line.drop_last()
    } else {
        line
    }
}

/// What one diskstats line says about the wanted device: unusable, not
/// the wanted device, or the wanted device's name. The first two fields
/// must parse as the major and minor numbers; the third is the name.
pub enum LineCheck {
    Bad,
    NoMatch,
    Found(Seq<char>),
}

/// Check one diskstats line against a major:minor pair.
pub open spec fn check_line(line: Seq<char>, major: u64, minor: u64) -> LineCheck {
    let ts = tokens(line);
    if ts.len() < 3 || spec_parse_u64(ts[0]) is None || spec_parse_u64(ts[1]) is None {
        LineCheck::Bad
    } else if spec_parse_u64(ts[0]) == Some(major) && spec_parse_u64(ts[1]) == Some(minor) {
        LineCheck::Found(ts[2])
    } else {
        LineCheck::NoMatch
    }
}

/// The device name a diskstats text yields for a major:minor pair: scan
/// line by line; a line that cannot be parsed ends the scan with no
/// answer, a matching line yields its name field.
pub open spec fn spec_resolve_device_name(s: Seq<char>, major: u64, minor: u64) -> Option<
    Seq<char>,
>
    decreases s.len(),
    via spec_resolve_device_name_decreases
{
    if s.len() == 0 {
        None
    } else {
        let k = find_nl(s);
        let line = strip_cr(s.subrange(0, k));
        let rest = if k < s.len() {
            s.skip(k + 1)
        } else {
            Seq::<char>::empty()
        };
        match check_line(line, major, minor) {
            LineCheck::Bad => None,
            LineCheck::Found(t) => Some(t),
            LineCheck::NoMatch => spec_resolve_device_name(rest, major, minor),
        }
    }
}

#[via_fn]
proof fn spec_resolve_device_name_decreases(s: Seq<char>, major: u64, minor: u64) {
    lemma_find_nl_bounds(s);
}

/// Scan a `/proc/diskstats` text for the device with the given major and
/// minor numbers and return its name.
pub fn resolve_device_name_from_content(content: &str, major: u64, minor: u64) -> (r: Option<
    String,
>)
    ensures
        match r {
            Some(name) => spec_resolve_device_name(content@, major, minor) == Some(name@),
            None => spec_resolve_device_name(content@, major, minor) is None,
        },
{
    let n = content.unicode_len();
    let mut ls: usize = 0;
    proof {
        assert(content@.skip(0) =~= content@);
    }
    loop
        invariant
            ls <= n,
            n == content@.len(),
            spec_resolve_device_name(content@, major, minor) == spec_resolve_device_name(
                content@.skip(ls as int),
                major,
                minor,
            ),
        ensures
            spec_resolve_device_name(content@, major, minor) == spec_resolve_device_name(
                content@.skip(ls as int),
                major,
                minor,
            ),
            ls == n,
        decreases n - ls,
    {
        if ls == n {
            break;
        }
        let ghost suffix = content@.skip(ls as int);
        let mut k: usize = ls;
        proof {
            lemma_find_nl_bounds(suffix);
        }
        while k < n && content.get_char(k) != '\n'
            invariant
                ls <= k <= n,
                n == content@.len(),
                suffix == content@.skip(ls as int),
                find_nl(suffix) == (k - ls) + find_nl(content@.skip(k as int)),
            decreases n - k,
        {
            proof {
                assert(content@.skip(k as int)[0] == content@[k as int]);
                assert(content@.skip(k as int).drop_first() =~= content@.skip(k as int + 1));
            }
            k = k + 1;
        }
        proof {
            if k < n {
                assert(content@.skip(k as int)[0] == content@[k as int]);
            }
            assert(find_nl(content@.skip(k as int)) == 0);
            assert(find_nl(suffix) == k - ls);
        }
        let le = if k > ls && content.get_char(k - 1) == '\r' {
            k - 1
        } else {
            k
        };
        let line = content.substring_char(ls, le);
        proof {
            assert(suffix.subrange(0, (k - ls) as int) =~= content@.subrange(ls as int, k as int));
            if k > ls && content@[k - 1] == '\r' {
                assert(content@.subrange(ls as int, k as int).last() == content@[k - 1]);
                assert(content@.subrange(ls as int, k as int).drop_last() =~= content@.subrange(
                    ls as int,
                    k - 1,
                ));
            }
            assert(line@ =~= strip_cr(suffix.subrange(0, find_nl(suffix))));
        }
        match check_line_fields(line, major, minor) {
            LineOutcome::Bad => {
                return None;
            },
            LineOutcome::Found(name) => {
                return Some(name);
            },
            LineOutcome::NoMatch => {
                let next = if k < n {
                    k + 1
                } else {
                    n
                };
                proof {
                    if k < n {
                        assert(content@.skip(ls as int).skip((k + 1 - ls) as int)
                            =~= content@.skip(k + 1));
                    } else {
                        assert(content@.skip(n as int) =~= Seq::<char>::empty());
                    }
                }
                ls = next;
            },
        }
    }
    proof {
        assert(content@.skip(n as int) =~= Seq::<char>::empty());
    }
    None
}

/// The executable mirror of [`LineCheck`].
enum LineOutcome {
    Bad,
    NoMatch,
    Found(String),
}

/// Check one diskstats line: extract its first three fields.
fn check_line_fields(line: &str, major: u64, minor: u64) -> (r: LineOutcome)
    ensures
        r matches LineOutcome::Bad ==> check_line(line@, major, minor) is Bad,
        r matches LineOutcome::NoMatch ==> check_line(line@, major, minor) is NoMatch,
        r matches LineOutcome::Found(name) ==> check_line(line@, major, minor) == (
        LineCheck::Found(name@)),
{
    let n = line.unicode_len();
    proof {
        assert(line@.skip(0) =~= line@);
    }
    let p0 = skip_spaces(line, n, 0);
    if p0 == n {
        proof {
            assert(line@.skip(n as int) =~= Seq::<char>::empty());
            assert(tokens(line@).len() == 0);
        }
        return LineOutcome::Bad;
    }
    let e0 = token_end(line, n, p0);
    let v0 = parse_u64_str(line.substring_char(p0, e0));
    let p1 = skip_spaces(line, n, e0);
    if p1 == n {
        proof {
            assert(line@.skip(n as int) =~= Seq::<char>::empty());
            assert(tokens(line@).len() == 1);
        }
        return LineOutcome::Bad;
    }
    let e1 = token_end(line, n, p1);
    let v1 = parse_u64_str(line.substring_char(p1, e1));
    let p2 = skip_spaces(line, n, e1);
    if p2 == n {
        proof {
            assert(line@.skip(n as int) =~= Seq::<char>::empty());
            assert(tokens(line@).len() == 2);
        }
        return LineOutcome::Bad;
    }
    let e2 = token_end(line, n, p2);
    let name = line.substring_char(p2, e2);
    proof {
        assert(tokens(line@)[0] == line@.subrange(p0 as int, e0 as int));
        assert(tokens(line@)[1] == line@.subrange(p1 as int, e1 as int));
        assert(tokens(line@)[2] == line@.subrange(p2 as int, e2 as int));
        assert(tokens(line@).len() >= 3);
    }
    let ok0 = match v0 {
        Some(x) => x == major,
        None => {
            return LineOutcome::Bad;
        },
    };
    let ok1 = match v1 {
        Some(x) => x == minor,
        None => {
            return LineOutcome::Bad;
        },
    };
    if ok0 && ok1 {
        LineOutcome::Found(String::from_str(name))
    } else {
        LineOutcome::NoMatch
    }
}

/// Per-device I/O counters, in the order the kernel's per-device `stat`
/// file reports them.
#[derive(PartialEq, Eq, Structural, Clone, Copy, Debug)]
pub struct IOStats {
    pub read_ios: u64,
    pub read_merges: u64,
    pub read_sectors: u64,
    pub read_ticks: u64,
    pub write_ios: u64,
    pub write_merges: u64,
    pub write_sectors: u64,
    pub write_ticks: u64,
    pub current_ios: u64,
    pub total_ticks: u64,
    pub req_ticks: u64,
    pub discard_ios: u64,
    pub discard_merges: u64,
    pub discard_sectors: u64,
    pub discard_ticks: u64,
}

impl Default for IOStats {
    /// All counters zero.
    fn default() -> (r: IOStats)
        ensures
            r == IOStats::zeroed(),
    {
        IOStats {
            read_ios: 0,
            read_merges: 0,
            read_sectors: 0,
            read_ticks: 0,
            write_ios: 0,
            write_merges: 0,
            write_sectors: 0,
            write_ticks: 0,
            current_ios: 0,
            total_ticks: 0,
            req_ticks: 0,
            discard_ios: 0,
            discard_merges: 0,
            discard_sectors: 0,
            discard_ticks: 0,
        }
    }
}

impl IOStats {
    /// The all-zero counter block.
    pub open spec fn zeroed() -> IOStats {
        IOStats {
            read_ios: 0,
            read_merges: 0,
            read_sectors: 0,
            read_ticks: 0,
            write_ios: 0,
            write_merges: 0,
            write_sectors: 0,
            write_ticks: 0,
            current_ios: 0,
            total_ticks: 0,
            req_ticks: 0,
            discard_ios: 0,
            discard_merges: 0,
            discard_sectors: 0,
            discard_ticks: 0,
        }
    }
}

/// Why a drive-stats line could not be used.
#[derive(PartialEq, Eq, Structural, Clone, Copy, Debug)]
pub enum DriveStatsError {
    /// A field did not parse as an unsigned decimal.
    InvalidToken,
    /// Fewer fields than the eleven the format requires.
    InvalidFormat,
}

/// All fields parsed as unsigned decimals, or nothing if any fails.
pub open spec fn tokens_parsed(ts: Seq<Seq<char>>) -> Option<Seq<u64>>
    decreases ts.len(),
{
    if ts.len() == 0 {
        Some(seq![])
    } else {
        match spec_parse_u64(ts[0]) {
            None => None,
            Some(v) => match tokens_parsed(ts.drop_first()) {
                None => None,
                Some(r) => Some(seq![v] + r),
            },
        }
    }
}

/// The counter block a sequence of parsed stat fields describes: the
/// first eleven fields are mandatory, the four discard counters are
/// taken only when the kernel reported more than fourteen fields.
pub open spec fn spec_drive_stats(vals: Seq<u64>) -> Result<IOStats, DriveStatsError> {
    if vals.len() < 11 {
        Err(DriveStatsError::InvalidFormat)
    } else {
        Ok(
            IOStats {
                read_ios: vals[0],
                read_merges: vals[1],
                read_sectors: vals[2],
                read_ticks: vals[3],
                write_ios: vals[4],
                write_merges: vals[5],
                write_sectors: vals[6],
                write_ticks: vals[7],
                current_ios: vals[8],
                total_ticks: vals[9],
                req_ticks: vals[10],
                discard_ios: if vals.len() > 14 {
                    vals[11]
                } else {
                    0
                },
                discard_merges: if vals.len() > 14 {
                    vals[12]
                } else {
                    0
                },
                discard_sectors: if vals.len() > 14 {
                    vals[13]
                } else {
                    0
                },
                discard_ticks: if vals.len() > 14 {
                    vals[14]
                } else {
                    0
                },
            },
        )
    }
}

/// Assemble the counter block from already-parsed stat fields.
pub fn read_drive_stats(stats: &Vec<u64>) -> (r: Result<IOStats, DriveStatsError>)
    ensures
        r == spec_drive_stats(stats@),
{
    if stats.len() < 11 {
        return Err(DriveStatsError::InvalidFormat);
    }
    let mut io = IOStats::default();
    io.read_ios = stats[0];
    io.read_merges = stats[1];
    io.read_sectors = stats[2];
    io.read_ticks = stats[3];
    io.write_ios = stats[4];
    io.write_merges = stats[5];
    io.write_sectors = stats[6];
    io.write_ticks = stats[7];
    io.current_ios = stats[8];
    io.total_ticks = stats[9];
    io.req_ticks = stats[10];
    if stats.len() > 14 {
        io.discard_ios = stats[11];
        io.discard_merges = stats[12];
        io.discard_sectors = stats[13];
        io.discard_ticks = stats[14];
    }
    Ok(io)
}

/// What a whole per-device stat text yields: the first line's fields,
/// each an unsigned decimal, assembled into the counter block.
pub open spec fn spec_get_drive_stats(s: Seq<char>) -> Result<IOStats, DriveStatsError> {
    let line = strip_cr(s.subrange(0, find_nl(s)));
    match tokens_parsed(tokens(line)) {
        None => Err(DriveStatsError::InvalidToken),
        Some(vals) => spec_drive_stats(vals),
    }
}

/// Parse the first line of a per-device stat text into I/O counters.
pub fn get_drive_stats(content: &str) -> (r: Result<IOStats, DriveStatsError>)
    ensures
        r == spec_get_drive_stats(content@),
{
    let n = content.unicode_len();
    let mut k: usize = 0;
    proof {
        assert(content@.skip(0) =~= content@);
        lemma_find_nl_bounds(content@);
    }
    while k < n && content.get_char(k) != '\n'
        invariant
            k <= n,
            n == content@.len(),
            find_nl(content@) == k + find_nl(content@.skip(k as int)),
        decreases n - k,
    {
        proof {
            assert(content@.skip(k as int)[0] == content@[k as int]);
            assert(content@.skip(k as int).drop_first() =~= content@.skip(k as int + 1));
        }
        k = k + 1;
    }
    proof {
        if k < n {
            assert(content@.skip(k as int)[0] == content@[k as int]);
        }
        assert(find_nl(content@.skip(k as int)) == 0);
        assert(find_nl(content@) == k as int);
    }
    let le = if k > 0 && content.get_char(k - 1) == '\r' {
        k - 1
    } else {
        k
    };
    let line = content.substring_char(0, le);
    proof {
        assert(content@.subrange(0, k as int) =~= content@.subrange(0, k as int));
        if k > 0 && content@[k - 1] == '\r' {
            assert(content@.subrange(0, k as int).last() == content@[k - 1]);
            assert(content@.subrange(0, k as int).drop_last() =~= content@.subrange(0, k - 1));
        }
        assert(line@ =~= strip_cr(content@.subrange(0, find_nl(content@))));
    }
    let ln = line.unicode_len();
    let mut vals: Vec<u64> = Vec::new();
    let mut p: usize = 0;
    proof {
        assert(line@.skip(0) =~= line@);
    }
    loop
        invariant
            p <= ln,
            ln == line@.len(),
            line@ == strip_cr(content@.subrange(0, find_nl(content@))),
            tokens_parsed(tokens(line@)) == (match tokens_parsed(tokens(line@.skip(p as int))) {
                None => None::<Seq<u64>>,
                Some(v) => Some(vals@ + v),
            }),
        ensures
            tokens_parsed(tokens(line@)) == Some(vals@),
        decreases ln - p,
    {
        let q = skip_spaces(line, ln, p);
        if q == ln {
            proof {
                assert(line@.skip(ln as int) =~= Seq::<char>::empty());
                assert(tokens(line@.skip(q as int)).len() == 0);
                assert(vals@ + Seq::<u64>::empty() =~= vals@);
            }
            break;
        }
        let e = token_end(line, ln, q);
        let tok = line.substring_char(q, e);
        match parse_u64_str(tok) {
            None => {
                proof {
                    assert(tokens(line@.skip(q as int))[0] == line@.subrange(q as int, e as int));
                    assert(tokens_parsed(tokens(line@.skip(q as int))) is None);
                }
                return Err(DriveStatsError::InvalidToken);
            },
            Some(v) => {
                let ghost vals_pre = vals@;
                vals.push(v);
                proof {
                    let ts = tokens(line@.skip(q as int));
                    assert(ts[0] == line@.subrange(q as int, e as int));
                    assert(ts.drop_first() =~= tokens(line@.skip(e as int)));
                    match tokens_parsed(tokens(line@.skip(e as int))) {
                        None => {
                        },
                        Some(rest) => {
                            assert(vals_pre + (seq![v] + rest) =~= vals@ + rest);
                        },
                    }
                }
                p = e;
            },
        }
    }
    read_drive_stats(&vals)
}

/// The well-known filesystem type names by statfs magic number.
pub fn get_fs_type(fs_type: u64) -> (r: &'static str)
    ensures
        fs_type == 0x01021994 ==> r@ == "TMPFS"@,
        fs_type == 0x4d44 ==> r@ == "MSDOS"@,
        fs_type == 0x6969 ==> r@ == "NFS"@,
        fs_type == 0xEF53 ==> r@ == "EXT4"@,
        fs_type == 0xf15f ==> r@ == "ecryptfs"@,
        fs_type == 0x794c7630 ==> r@ == "overlayfs"@,
        fs_type == 0x52654973 ==> r@ == "REISERFS"@,
        !(fs_type == 0x01021994 || fs_type == 0x4d44 || fs_type == 0x6969 || fs_type == 0xEF53
            || fs_type == 0xf15f || fs_type == 0x794c7630 || fs_type == 0x52654973) ==> r@
            == "UNKNOWN"@,
    {
    if fs_type == 0x01021994 {
        "TMPFS"
    } else if fs_type == 0x4d44 {
        "MSDOS"
    } else if fs_type == 0x6969 {
        "NFS"
    } else if fs_type == 0xEF53 {
        "EXT4"
    } else if fs_type == 0xf15f {
        "ecryptfs"
    } else if fs_type == 0x794c7630 {
        "overlayfs"
    } else if fs_type == 0x52654973 {
        "REISERFS"
    } else {
        "UNKNOWN"
    }
}

/// Which inconsistency a statfs report showed; each points at filesystem
/// corruption the caller should surface.
#[derive(PartialEq, Eq, Structural, Clone, Copy, Debug)]
pub enum UsageError {
    /// Available space exceeded free space.
    AvailExceedsFree,
    /// Reserved space exceeded total blocks.
    ReservedExceedsBlocks,
    /// Free bytes exceeded total bytes.
    FreeExceedsTotal,
}

/// The block unit a statfs report uses: the fragment size when positive,
/// the transfer block size otherwise.
pub open spec fn spec_block_unit(f_frsize: i64, f_bsize: i64) -> u64 {
    if f_frsize > 0 {
        f_frsize as u64
    } else {
        f_bsize as u64
    }
}

/// The (total, free, used) bytes a statfs report describes. Reserved
/// blocks (free but not available) are excluded from the total; the
/// multiplications wrap as the machine's do.
pub open spec fn spec_disk_usage(
    f_frsize: i64,
    f_bsize: i64,
    f_blocks: u64,
    f_bfree: u64,
    f_bavail: u64,
) -> Result<(u64, u64, u64), UsageError> {
    let unit = spec_block_unit(f_frsize, f_bsize);
    if f_bavail > f_bfree {
        Err(UsageError::AvailExceedsFree)
    } else {
        let reserved = (f_bfree - f_bavail) as u64;
        if reserved > f_blocks {
            Err(UsageError::ReservedExceedsBlocks)
        } else {
            let total = vstd::wrapping::u64_specs::wrapping_mul((f_blocks - reserved) as u64, unit);
            let free = vstd::wrapping::u64_specs::wrapping_mul(f_bavail, unit);
            if free > total {
                Err(UsageError::FreeExceedsTotal)
            } else {
                Ok((total, free, (total - free) as u64))
            }
        }
    }
}

/// Compute total, free and used bytes from raw statfs fields.
pub fn disk_usage_from_statfs(
    f_frsize: i64,
    f_bsize: i64,
    f_blocks: u64,
    f_bfree: u64,
    f_bavail: u64,
) -> (r: Result<(u64, u64, u64), UsageError>)
    ensures
        r == spec_disk_usage(f_frsize, f_bsize, f_blocks, f_bfree, f_bavail),
{
    let unit: u64 = if f_frsize > 0 {
        f_frsize as u64
    } else {
        f_bsize as u64
    };
    let reserved = match f_bfree.checked_sub(f_bavail) {
        Some(v) => v,
        None => {
            return Err(UsageError::AvailExceedsFree);
        },
    };
    let blocks = match f_blocks.checked_sub(reserved) {
        Some(v) => v,
        None => {
            return Err(UsageError::ReservedExceedsBlocks);
        },
    };
    let total = blocks.wrapping_mul(unit);
    let free = f_bavail.wrapping_mul(unit);
    let used = match total.checked_sub(free) {
        Some(v) => v,
        None => {
            return Err(UsageError::FreeExceedsTotal);
        },
    };
    Ok((total, free, used))
}

/// The parent directory component of a sysfs symlink target: the piece
/// between the last two path separators, when both exist and it is not
/// empty. For a target that names a partition this is the physical
/// device; for a bare name there is no parent component.
pub open spec fn spec_parent_component(s: Seq<char>) -> Option<Seq<char>> {
    let l1 = last_sep(s, s.len() as int);
    if l1 < 0 {
        None
    } else {
        let l2 = last_sep(s, l1);
        if l2 + 1 < l1 {
            Some(s.subrange(l2 + 1, l1))
        } else {
            None
        }
    }
}

/// The index of the last `/` strictly before `k`, or `-1`.
pub open spec fn last_sep(s: Seq<char>, k: int) -> int
    decreases k,
{
    if k <= 0 {
        -1
    } else if s[k - 1] == '/' {
        k - 1
    } else {
        last_sep(s, k - 1)
    }
}

/// Extract the parent directory component of a sysfs symlink target.
pub fn parent_component(target: &str) -> (r: Option<String>)
    ensures
        match r {
            Some(name) => spec_parent_component(target@) == Some(name@),
            None => spec_parent_component(target@) is None,
        },
{
    let n = target.unicode_len();
    let l1 = match scan_last_sep(target, n, n) {
        None => {
            return None;
        },
        Some(v) => v,
    };
    let l2 = match scan_last_sep(target, n, l1) {
        None => {
            if 0 < l1 {
                let name = target.substring_char(0, l1);
                return Some(String::from_str(name));
            } else {
                return None;
            }
        },
        Some(v) => v,
    };
    if l2 + 1 < l1 {
        let name = target.substring_char(l2 + 1, l1);
        Some(String::from_str(name))
    } else {
        None
    }
}

/// Find the last separator strictly before `k`.
fn scan_last_sep(target: &str, n: usize, k: usize) -> (r: Option<usize>)
    requires
        n == target@.len(),
        k <= n,
    ensures
        match r {
            Some(v) => v < k && last_sep(target@, k as int) == v as int,
            None => last_sep(target@, k as int) == -1,
        },
{
    let mut j: usize = k;
    while j > 0 && target.get_char(j - 1) != '/'
        invariant
            j <= k <= n,
            n == target@.len(),
            last_sep(target@, k as int) == last_sep(target@, j as int),
        decreases j,
    {
        j = j - 1;
    }
    if j == 0 {
        None
    } else {
        Some(j - 1)
    }
}

} // verus!
