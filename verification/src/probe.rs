//! Reading the two frequency sources: resolving the tracked core
//! set, locating per-core counter files, and turning raw source text
//! into integer samples.

use vstd::prelude::*;

verus! {

use std::collections::BTreeMap;
use std::collections::HashSet;
use crate::digits::{
    all_digits, dec_chars, dec_val, digit_val, is_digit, is_digit_char, parse_u64_range,
    u64_to_dec_string,
};
use crate::errors::ProbeError;
use crate::stat::CpuStat;

/// Directory that exposes one entry per logical CPU.
pub const SYSFS_CPUS: &'static str = "/sys/devices/system/cpu";

/// How many samples each core's running average retains.
pub const WINDOW_SIZE: usize = 10000;

/// ASCII whitespace, the separators recognised in source text.
pub open spec fn is_space(c: char) -> bool {
    c == ' ' || c == '\t' || c == '\n' || c == '\r' || c == '\x0b' || c == '\x0c'
}

/// Index of the first character that is not whitespace; the length
/// when all of `s` is whitespace.
pub open spec fn leading_spaces(s: Seq<char>) -> int
    decreases s.len(),
{
    if s.len() == 0 {
        0
    } else if !is_space(s[0]) {
        0
    } else {
        1 + leading_spaces(s.drop_first())
    }
}

/// `s` with its leading whitespace removed.
pub open spec fn trim_start(s: Seq<char>) -> Seq<char> {
    s.skip(leading_spaces(s))
}

pub proof fn lemma_leading_spaces(s: Seq<char>, j: int)
    requires
        0 <= j <= s.len(),
        forall|i: int| 0 <= i < j ==> is_space(#[trigger] s[i]),
        j == s.len() || !is_space(s[j]),
    ensures
        leading_spaces(s) == j,
    decreases s.len(),
{
    if s.len() > 0 && j > 0 {
        assert(forall|i: int|
            0 <= i < j - 1 ==> is_space(#[trigger] s.drop_first()[i]) == is_space(s[i + 1]));
        lemma_leading_spaces(s.drop_first(), j - 1);
    }
}

/// Index of the first occurrence of `c`; the length when `c` does
/// not occur.
pub open spec fn first_at(s: Seq<char>, c: char) -> int
    decreases s.len(),
{
    if s.len() == 0 {
        0
    } else if s[0] == c {
        0
    } else {
        1 + first_at(s.drop_first(), c)
    }
}

pub proof fn lemma_first_at_bounds(s: Seq<char>, c: char)
    ensures
        0 <= first_at(s, c) <= s.len(),
    decreases s.len(),
{
    if s.len() > 0 && s[0] != c {
        lemma_first_at_bounds(s.drop_first(), c);
    }
}

pub proof fn lemma_first_at(s: Seq<char>, c: char, j: int)
    requires
        0 <= j <= s.len(),
        forall|i: int| 0 <= i < j ==> #[trigger] s[i] != c,
        j == s.len() || s[j] == c,
    ensures
        first_at(s, c) == j,
    decreases s.len(),
{
    if s.len() > 0 && j > 0 {
        assert(forall|i: int|
            0 <= i < j - 1 ==> #[trigger] s.drop_first()[i] == s[i + 1]);
        lemma_first_at(s.drop_first(), c, j - 1);
    }
}

/// Does `s` start with the characters of `p`?
pub open spec fn has_prefix(s: Seq<char>, p: Seq<char>) -> bool {
    s.len() >= p.len() && s.take(p.len() as int) == p
}

/// Character-wise prefix test.
fn str_has_prefix(s: &str, p: &str) -> (r: bool)
    ensures
        r == has_prefix(s@, p@),
{
    let plen = p.unicode_len();
    let slen = s.unicode_len();
    if slen < plen {
        assert(!has_prefix(s@, p@));
        return false;
    }
    let mut i: usize = 0;
    while i < plen
        invariant
            0 <= i <= plen,
            plen == p@.len(),
            slen == s@.len(),
            plen <= slen,
            forall|k: int| 0 <= k < i ==> #[trigger] s@[k] == p@[k],
        decreases plen - i,
    {
        if s.get_char(i) != p.get_char(i) {
            assert(s@.take(p@.len() as int)[i as int] != p@[i as int]);
            return false;
        }
        i = i + 1;
    }
    assert(s@.take(p@.len() as int) =~= p@);
    true
}

/// The path of the counter file exposing one core's current
/// frequency.
pub fn sysfs_cpu_path(id: usize) -> (r: String)
    ensures
        r@ == SYSFS_CPUS@ + "/cpu"@ + dec_chars(id as int) + "/cpufreq/scaling_cur_freq"@,
{
    let mut r = SYSFS_CPUS.to_owned();
    r.append("/cpu");
    let digits = u64_to_dec_string(id as u64);
    r.append(digits.as_str());
    r.append("/cpufreq/scaling_cur_freq");
    assert(r@ =~= SYSFS_CPUS@ + "/cpu"@ + dec_chars(id as int) + "/cpufreq/scaling_cur_freq"@);
    r
}

/// The first whitespace-delimited token of `s`: what remains after
/// leading whitespace, up to the next whitespace.
pub open spec fn first_token(s: Seq<char>) -> Seq<char> {
    let rest = trim_start(s);
    rest.take(token_len(rest))
}

/// Length of the run of non-whitespace characters at the front.
pub open spec fn token_len(s: Seq<char>) -> int
    decreases s.len(),
{
    if s.len() == 0 {
        0
    } else if is_space(s[0]) {
        0
    } else {
        1 + token_len(s.drop_first())
    }
}

pub proof fn lemma_token_len(s: Seq<char>, j: int)
    requires
        0 <= j <= s.len(),
        forall|i: int| 0 <= i < j ==> !is_space(#[trigger] s[i]),
        j == s.len() || is_space(s[j]),
    ensures
        token_len(s) == j,
    decreases s.len(),
{
    if s.len() > 0 && j > 0 {
        assert(forall|i: int|
            0 <= i < j - 1 ==> is_space(#[trigger] s.drop_first()[i]) == is_space(s[i + 1]));
        lemma_token_len(s.drop_first(), j - 1);
    }
}

/// Whitespace test, character by character.
fn is_space_char(c: char) -> (r: bool)
    ensures
        r == is_space(c),
{
    c == ' ' || c == '\t' || c == '\n' || c == '\r' || c == '\x0b' || c == '\x0c'
}

/// Parse the contents of a per-core counter file: the first
/// whitespace-delimited token as an unsigned integer. Fails, naming
/// the token, when there is no token or the token is not a number
/// that fits.
pub fn parse_sysfs_value(contents: &str) -> (r: Result<u64, ProbeError>)
    ensures
        ({
            let t = first_token(contents@);
            match r {
                Ok(v) => t.len() > 0 && all_digits(t) && dec_val(t) == v,
                Err(e) => {
                    &&& (t.len() == 0 || !all_digits(t) || dec_val(t) > u64::MAX)
                    &&& e matches ProbeError::IntConversionError(tok) && tok@ == t
                },
            }
        }),
{
    let len = contents.unicode_len();
    let mut start: usize = 0;
    while start < len && is_space_char(contents.get_char(start))
        invariant
            0 <= start <= len,
            len == contents@.len(),
            forall|i: int| 0 <= i < start ==> is_space(#[trigger] contents@[i]),
        decreases len - start,
    {
        start = start + 1;
    }
    proof {
        lemma_leading_spaces(contents@, start as int);
    }
    let mut end: usize = start;
    while end < len && !is_space_char(contents.get_char(end))
        invariant
            start <= end <= len,
            len == contents@.len(),
            forall|i: int| start <= i < end ==> !is_space(#[trigger] contents@[i]),
        decreases len - end,
    {
        end = end + 1;
    }
    proof {
        let rest = contents@.skip(start as int);
        assert(forall|i: int|
            0 <= i < end - start ==> #[trigger] rest[i] == contents@[i + start]);
        if end < len {
            assert(rest[end - start] == contents@[end as int]);
        }
        lemma_token_len(rest, end - start);
        assert(first_token(contents@) =~= contents@.subrange(start as int, end as int));
    }
    match parse_u64_range(contents, start, end) {
        Some(v) => Ok(v),
        None => {
            let tok = contents.substring_char(start, end).to_owned();
            Err(ProbeError::IntConversionError(tok))
        },
    }
}

pub proof fn lemma_dec_val_le_999(t: Seq<char>)
    requires
        all_digits(t),
        t.len() <= 3,
    ensures
        0 <= dec_val(t),
        t.len() <= 1 ==> dec_val(t) <= 9,
        t.len() <= 2 ==> dec_val(t) <= 99,
        dec_val(t) <= 999,
{
    crate::digits::lemma_dec_val_nonneg(t);
    if t.len() > 0 {
        let t1 = t.drop_last();
        assert(all_digits(t1)) by {
            assert(forall|i: int| 0 <= i < t1.len() ==> t1[i] == #[trigger] t[i]);
        }
        crate::digits::lemma_dec_val_nonneg(t1);
        assert(is_digit_char(t[t.len() - 1]));
        assert(digit_val(t.last()) <= 9);
        if t1.len() > 0 {
            let t2 = t1.drop_last();
            assert(all_digits(t2)) by {
                assert(forall|i: int| 0 <= i < t2.len() ==> t2[i] == #[trigger] t1[i]);
            }
            crate::digits::lemma_dec_val_nonneg(t2);
            assert(is_digit_char(t1[t1.len() - 1]));
            assert(digit_val(t1.last()) <= 9);
            if t2.len() > 0 {
                assert(is_digit_char(t2[t2.len() - 1]));
                assert(digit_val(t2.last()) <= 9);
                assert(t2.drop_last().len() == 0);
                assert(dec_val(t2.drop_last()) == 0);
                assert(dec_val(t2) <= 9);
            }
            assert(dec_val(t1) <= 99);
        }
        assert(dec_val(t) <= 999);
    }
}

/// The fractional digits of a megahertz value, scaled to
/// thousandths: the first three digits, padded with zeros when fewer
/// are given.
pub open spec fn frac_scaled(fp: Seq<char>) -> int {
    if fp.len() >= 3 {
        dec_val(fp.take(3))
    } else if fp.len() == 2 {
        dec_val(fp) * 10
    } else if fp.len() == 1 {
        dec_val(fp) * 100
    } else {
        0
    }
}

/// Is `t` a well-formed decimal megahertz value: digit runs around
/// at most one point, and not just a lone point?
pub open spec fn mhz_token_ok(t: Seq<char>) -> bool {
    let k = first_at(t, '.');
    if k == t.len() {
        t.len() > 0 && all_digits(t)
    } else {
        all_digits(t.take(k)) && all_digits(t.skip(k + 1)) && t.len() > 1
    }
}

/// The sample value of a well-formed megahertz token: the decimal
/// value multiplied by 1000 and truncated to an integer.
pub open spec fn mhz_token_val(t: Seq<char>) -> int {
    let k = first_at(t, '.');
    if k == t.len() {
        dec_val(t) * 1000
    } else {
        dec_val(t.take(k)) * 1000 + frac_scaled(t.skip(k + 1))
    }
}

/// Parse a decimal megahertz value and convert it to the common
/// sample unit by multiplying by 1000 and truncating. `None` exactly
/// when the text is not a well-formed value or the result does not
/// fit.
pub fn parse_mhz_value(s: &str) -> (r: Option<u64>)
    ensures
        match r {
            Some(v) => mhz_token_ok(s@) && mhz_token_val(s@) == v,
            None => !mhz_token_ok(s@) || mhz_token_val(s@) > u64::MAX,
        },
{
    let len = s.unicode_len();
    let mut dot: usize = 0;
    while dot < len && s.get_char(dot) != '.'
        invariant
            0 <= dot <= len,
            len == s@.len(),
            forall|i: int| 0 <= i < dot ==> #[trigger] s@[i] != '.',
        decreases len - dot,
    {
        dot = dot + 1;
    }
    proof {
        lemma_first_at(s@, '.', dot as int);
    }
    if dot == len {
        // no point: a plain digit run
        match parse_u64_range(s, 0, len) {
            Some(v) => {
                assert(s@.subrange(0, len as int) =~= s@);
                match v.checked_mul(1000) {
                    Some(total) => Some(total),
                    None => {
                        proof {
                            crate::digits::lemma_dec_val_nonneg(s@);
                        }
                        None
                    },
                }
            },
            None => {
                assert(s@.subrange(0, len as int) =~= s@);
                proof {
                    if all_digits(s@) && s@.len() > 0 {
                        crate::digits::lemma_dec_val_nonneg(s@);
                    }
                }
                None
            },
        }
    } else {
        let ghost ip = s@.take(dot as int);
        let ghost fp = s@.skip(dot + 1);
        assert(ip =~= s@.subrange(0, dot as int));
        // every fractional character must be a digit
        let mut i: usize = dot + 1;
        while i < len && is_digit(s.get_char(i))
            invariant
                dot + 1 <= i <= len,
                len == s@.len(),
                forall|k: int| dot + 1 <= k < i ==> is_digit_char(#[trigger] s@[k]),
            decreases len - i,
        {
            i = i + 1;
        }
        if i < len {
            assert(!is_digit_char(fp[i - dot - 1]));
            return None;
        }
        assert(all_digits(fp)) by {
            assert(forall|k: int| 0 <= k < fp.len() ==> fp[k] == #[trigger] s@[k + dot + 1]);
        }
        // scaled value of the first three fractional digits
        let flen = len - (dot + 1);
        let scaled: u64 = if flen == 0 {
            0
        } else {
            let fend = if flen >= 3 {
                dot + 4
            } else {
                len
            };
            let ghost fpart = if fp.len() >= 3 {
                fp.take(3)
            } else {
                fp
            };
            assert(fpart =~= s@.subrange(dot + 1, fend as int));
            assert(all_digits(fpart));
            match parse_u64_range(s, dot + 1, fend) {
                Some(fv) => {
                    proof {
                        lemma_dec_val_le_999(fpart);
                    }
                    if flen >= 3 {
                        fv
                    } else if flen == 2 {
                        fv * 10
                    } else {
                        fv * 100
                    }
                },
                None => {
                    proof {
                        lemma_dec_val_le_999(fpart);
                    }
                    assert(false);
                    0
                },
            }
        };
        assert(scaled == frac_scaled(fp));
        assert(0 <= frac_scaled(fp) <= 999) by {
            if fp.len() >= 3 {
                assert(all_digits(fp.take(3))) by {
                    assert(forall|k: int|
                        0 <= k < 3 ==> fp.take(3)[k] == #[trigger] fp[k]);
                }
                lemma_dec_val_le_999(fp.take(3));
            } else {
                lemma_dec_val_le_999(fp);
            }
        }
        // integer part
        let iv: u64 = if dot == 0 {
            if len == 1 {
                // a lone point is not a number
                return None;
            }
            assert(ip =~= Seq::<char>::empty());
            0
        } else {
            match parse_u64_range(s, 0, dot) {
                Some(v) => v,
                None => {
                    proof {
                        if all_digits(ip) {
                            crate::digits::lemma_dec_val_nonneg(ip);
                        }
                    }
                    return None;
                },
            }
        };
        assert(iv == dec_val(ip)) by {
            if dot == 0 {
                assert(dec_val(Seq::<char>::empty()) == 0);
            }
        }
        let step = match iv.checked_mul(1000) {
            Some(m) => m.checked_add(scaled),
            None => None,
        };
        match step {
            Some(total) => {
                assert(mhz_token_ok(s@));
                Some(total)
            },
            None => {
                proof {
                    crate::digits::lemma_dec_val_nonneg(ip);
                }
                None
            },
        }
    }
}

/// What a user-supplied core list means: either the set of core ids
/// it names, or the leftmost token that is not a well-formed id.
pub enum CpuSetOutcome {
    Ids(Set<usize>),
    Bad(Seq<char>),
}

/// Is `t` a well-formed core id token?
pub open spec fn id_token_ok(t: Seq<char>) -> bool {
    t.len() > 0 && all_digits(t) && dec_val(t) <= usize::MAX
}

/// The meaning of a comma-separated core list. Duplicate entries
/// collapse silently; an ill-formed token makes the whole list
/// invalid, and the leftmost such token is reported.
pub open spec fn spec_validate_cpuset(s: Seq<char>) -> CpuSetOutcome
    decreases s.len(),
    via spec_validate_cpuset_decreases
{
    let k = first_at(s, ',');
    let t = s.take(k);
    if !id_token_ok(t) {
        CpuSetOutcome::Bad(t)
    } else if k == s.len() {
        CpuSetOutcome::Ids(Set::empty().insert(dec_val(t) as usize))
    } else {
        match spec_validate_cpuset(s.skip(k + 1)) {
            CpuSetOutcome::Ids(rest) => CpuSetOutcome::Ids(rest.insert(dec_val(t) as usize)),
            CpuSetOutcome::Bad(u) => CpuSetOutcome::Bad(u),
        }
    }
}

#[via_fn]
proof fn spec_validate_cpuset_decreases(s: Seq<char>) {
    lemma_first_at_bounds(s, ',');
}

/// An already-accumulated set of ids, combined with the meaning of
/// the rest of the list.
pub open spec fn combine_ids(acc: Set<usize>, o: CpuSetOutcome) -> CpuSetOutcome {
    match o {
        CpuSetOutcome::Ids(rest) => CpuSetOutcome::Ids(rest.union(acc)),
        CpuSetOutcome::Bad(u) => CpuSetOutcome::Bad(u),
    }
}

/// Parse a comma-separated list of core ids into the set of cores to
/// track. Duplicates collapse silently; any token that is not a
/// well-formed non-negative integer fails the whole list, naming the
/// leftmost such token.
pub fn validate_cpuset(cpuset: String) -> (r: Result<HashSet<usize>, ProbeError>)
    ensures
        match r {
            Ok(ids) => spec_validate_cpuset(cpuset@) == CpuSetOutcome::Ids(ids@),
            Err(e) => e matches ProbeError::InvalidCpuId(t) && spec_validate_cpuset(cpuset@)
                == CpuSetOutcome::Bad(t@),
        },
{
    let s: &str = cpuset.as_str();
    let len = s.unicode_len();
    let mut ids: HashSet<usize> = HashSet::new();
    let mut pos: usize = 0;
    proof {
        assert(s@.skip(0) =~= s@);
        match spec_validate_cpuset(s@) {
            CpuSetOutcome::Ids(r) => {
                assert(r.union(Set::<usize>::empty()) =~= r);
            },
            CpuSetOutcome::Bad(_) => {},
        }
    }
    loop
        invariant
            0 <= pos <= len,
            len == s@.len(),
            s@ == cpuset@,
            spec_validate_cpuset(cpuset@) == combine_ids(ids@, spec_validate_cpuset(s@.skip(pos as int))),
        decreases len - pos,
    {
        let ghost rem = s@.skip(pos as int);
        let mut j: usize = pos;
        while j < len && s.get_char(j) != ','
            invariant
                pos <= j <= len,
                len == s@.len(),
                forall|i: int| pos <= i < j ==> #[trigger] s@[i] != ',',
            decreases len - j,
        {
            j = j + 1;
        }
        proof {
            assert(forall|i: int| 0 <= i < j - pos ==> #[trigger] rem[i] == s@[i + pos]);
            if j < len {
                assert(rem[j - pos] == s@[j as int]);
            }
            lemma_first_at(rem, ',', j - pos);
            assert(rem.take(j - pos) =~= s@.subrange(pos as int, j as int));
        }
        let ghost t = rem.take(j - pos);
        let parsed = parse_u64_range(s, pos, j);
        let id: usize = match parsed {
            Some(v) if v <= usize::MAX as u64 => v as usize,
            _ => {
                assert(!id_token_ok(t));
                let tok = s.substring_char(pos, j).to_owned();
                return Err(ProbeError::InvalidCpuId(tok));
            },
        };
        assert(id_token_ok(t) && dec_val(t) == id);
        let ghost old_ids = ids@;
        ids.insert(id);
        if j == len {
            proof {
                assert(spec_validate_cpuset(rem) == CpuSetOutcome::Ids(
                    Set::empty().insert(id),
                ));
                assert(Set::empty().insert(id).union(old_ids) =~= old_ids.insert(id));
                assert(ids@ =~= old_ids.insert(id));
            }
            return Ok(ids);
        }
        proof {
            let tail = rem.skip(j - pos + 1);
            assert(tail =~= s@.skip(j + 1));
            match spec_validate_cpuset(tail) {
                CpuSetOutcome::Ids(r) => {
                    assert(r.insert(id).union(old_ids) =~= r.union(old_ids.insert(id)));
                    assert(ids@ =~= old_ids.insert(id));
                },
                CpuSetOutcome::Bad(_) => {},
            }
        }
        pos = j + 1;
    }
}

/// Read a directory entry name of the per-core interface: `cpu`
/// followed by a core number. Entries of any other shape (`cpufreq`,
/// `cpuidle`, `power`, ...) yield nothing.
pub fn parse_cpu_entry_name(name: &str) -> (r: Option<usize>)
    ensures
        ({
            let rest = name@.skip(3);
            match r {
                Some(id) => {
                    &&& has_prefix(name@, "cpu"@)
                    &&& rest.len() > 0
                    &&& all_digits(rest)
                    &&& dec_val(rest) == id
                },
                None => !has_prefix(name@, "cpu"@) || rest.len() == 0 || !all_digits(rest)
                    || dec_val(rest) > usize::MAX,
            }
        }),
{
    proof {
        reveal_strlit("cpu");
    }
    if !str_has_prefix(name, "cpu") {
        return None;
    }
    let len = name.unicode_len();
    match parse_u64_range(name, 3, len) {
        Some(v) => {
            if v <= usize::MAX as u64 {
                assert(name@.subrange(3, len as int) =~= name@.skip(3));
                Some(v as usize)
            } else {
                None
            }
        },
        None => {
            assert(name@.subrange(3, len as int) =~= name@.skip(3));
            None
        },
    }
}

/// `l` with one trailing carriage return removed.
pub open spec fn strip_cr(l: Seq<char>) -> Seq<char> {
    if l.len() > 0 && l.last() == '\r' {
        l.drop_last()
    } else {
        l
    }
}

/// The lines of `s`: split at newlines, one carriage return dropped
/// from the end of each line, and no final empty line when the text
/// ends in a newline.
pub open spec fn spec_lines(s: Seq<char>) -> Seq<Seq<char>>
    decreases s.len(),
    via spec_lines_decreases
{
    if s.len() == 0 {
        Seq::empty()
    } else {
        let k = first_at(s, '\n');
        let line = strip_cr(s.take(k));
        if k == s.len() {
            seq![line]
        } else {
            seq![line] + spec_lines(s.skip(k + 1))
        }
    }
}

#[via_fn]
proof fn spec_lines_decreases(s: Seq<char>) {
    lemma_first_at_bounds(s, '\n');
}

/// Split text into lines.
pub fn split_lines<'a>(s: &'a str) -> (r: Vec<&'a str>)
    ensures
        r@.len() == spec_lines(s@).len(),
        forall|i: int| 0 <= i < r@.len() ==> #[trigger] r@[i]@ == spec_lines(s@)[i],
{
    let len = s.unicode_len();
    let mut r: Vec<&str> = Vec::new();
    let mut pos: usize = 0;
    proof {
        assert(s@.skip(0) =~= s@);
        assert(Seq::new(r@.len() as nat, |i: int| r@[i]@) + spec_lines(s@) =~= spec_lines(s@));
    }
    while pos < len
        invariant
            0 <= pos <= len,
            len == s@.len(),
            spec_lines(s@) == Seq::new(r@.len() as nat, |i: int| r@[i]@) + spec_lines(
                s@.skip(pos as int),
            ),
        decreases len - pos,
    {
        let ghost rem = s@.skip(pos as int);
        let ghost prev = Seq::new(r@.len() as nat, |i: int| r@[i]@);
        let mut j: usize = pos;
        while j < len && s.get_char(j) != '\n'
            invariant
                pos <= j <= len,
                len == s@.len(),
                forall|i: int| pos <= i < j ==> #[trigger] s@[i] != '\n',
            decreases len - j,
        {
            j = j + 1;
        }
        proof {
            assert(forall|i: int| 0 <= i < j - pos ==> #[trigger] rem[i] == s@[i + pos]);
            if j < len {
                assert(rem[j - pos] == s@[j as int]);
            }
            lemma_first_at(rem, '\n', j - pos);
        }
        let lend = if j > pos && s.get_char(j - 1) == '\r' {
            j - 1
        } else {
            j
        };
        proof {
            let raw = rem.take(j - pos);
            assert(raw =~= s@.subrange(pos as int, j as int));
            if j > pos && s@[j - 1] == '\r' {
                assert(raw.last() == '\r');
                assert(strip_cr(raw) =~= s@.subrange(pos as int, lend as int));
            } else {
                if raw.len() > 0 {
                    assert(raw.last() == s@[j - 1]);
                }
                assert(strip_cr(raw) =~= s@.subrange(pos as int, lend as int));
            }
        }
        let line = s.substring_char(pos, lend);
        r.push(line);
        proof {
            let cur = Seq::new(r@.len() as nat, |i: int| r@[i]@);
            assert(cur =~= prev.push(line@));
        }
        if j == len {
            pos = len;
            proof {
                assert(spec_lines(rem) =~= seq![line@]);
                assert(prev + spec_lines(rem) =~= prev.push(line@) + spec_lines(
                    s@.skip(len as int),
                )) by {
                    assert(s@.skip(len as int) =~= Seq::<char>::empty());
                }
            }
        } else {
            proof {
                assert(rem.skip(j - pos + 1) =~= s@.skip(j + 1));
                assert(spec_lines(rem) =~= seq![line@] + spec_lines(s@.skip(j + 1)));
                assert(prev + spec_lines(rem) =~= prev.push(line@) + spec_lines(s@.skip(j + 1)));
            }
            pos = j + 1;
        }
    }
    proof {
        assert(s@.skip(len as int) =~= Seq::<char>::empty());
        assert(spec_lines(s@) =~= Seq::new(r@.len() as nat, |i: int| r@[i]@));
    }
    r
}

/// Advance past whitespace: the index of the first non-whitespace
/// character at or after `from`.
fn skip_spaces(s: &str, from: usize) -> (r: usize)
    requires
        from <= s@.len(),
    ensures
        from <= r <= s@.len(),
        trim_start(s@.skip(from as int)) == s@.skip(r as int),
        r < s@.len() ==> !is_space(s@[r as int]),
{
    let len = s.unicode_len();
    let mut j: usize = from;
    while j < len && is_space_char(s.get_char(j))
        invariant
            from <= j <= len,
            len == s@.len(),
            forall|i: int| from <= i < j ==> is_space(#[trigger] s@[i]),
        decreases len - j,
    {
        j = j + 1;
    }
    proof {
        let rest = s@.skip(from as int);
        assert(forall|i: int| 0 <= i < j - from ==> #[trigger] rest[i] == s@[i + from]);
        if j < len {
            assert(rest[j - from] == s@[j as int]);
        }
        lemma_leading_spaces(rest, j - from);
        assert(rest.skip(j - from) =~= s@.skip(j as int));
    }
    j
}

/// What scanning the aggregate source yields: the frequency of every
/// tracked core the text reports, or the first malformed piece: a
/// marker or value line whose `:` delimiter is missing, or a numeric
/// token that does not parse.
pub enum ScanOutcome {
    Freqs(Map<usize, u64>),
    MissingDelimiter,
    BadNumber(Seq<char>),
}

/// One pass over the lines of the aggregate source. A `processor`
/// marker line selects a core; when that core is tracked, the next
/// `cpu MHz` value line yields its sample, converted to the common
/// unit. Marker lines for untracked cores are consumed and their
/// value lines ignored; every other line is skipped.
pub open spec fn spec_scan(
    lines: Seq<Seq<char>>,
    wanted: Set<usize>,
    cur: Option<usize>,
    acc: Map<usize, u64>,
) -> ScanOutcome
    decreases lines.len(),
{
    if lines.len() == 0 {
        ScanOutcome::Freqs(acc)
    } else {
        let l = lines[0];
        let rest = lines.drop_first();
        match cur {
            Some(id) => {
                if !has_prefix(l, "cpu MHz"@) {
                    spec_scan(rest, wanted, cur, acc)
                } else {
                    let after = trim_start(l.skip("cpu MHz"@.len() as int));
                    if after.len() == 0 || after[0] != ':' {
                        ScanOutcome::MissingDelimiter
                    } else {
                        let v = trim_start(after.drop_first());
                        if mhz_token_ok(v) && mhz_token_val(v) <= u64::MAX {
                            spec_scan(
                                rest,
                                wanted,
                                Option::None,
                                acc.insert(id, mhz_token_val(v) as u64),
                            )
                        } else {
                            ScanOutcome::BadNumber(v)
                        }
                    }
                }
            },
            None => {
                if !has_prefix(l, "processor"@) {
                    spec_scan(rest, wanted, Option::None, acc)
                } else {
                    let after = trim_start(l.skip("processor"@.len() as int));
                    if after.len() == 0 || after[0] != ':' {
                        ScanOutcome::MissingDelimiter
                    } else {
                        let v = trim_start(after.drop_first());
                        if id_token_ok(v) {
                            let id = dec_val(v) as usize;
                            spec_scan(
                                rest,
                                wanted,
                                if wanted.contains(id) {
                                    Option::Some(id)
                                } else {
                                    Option::None
                                },
                                acc,
                            )
                        } else {
                            ScanOutcome::BadNumber(v)
                        }
                    }
                }
            },
        }
    }
}

/// Parse the full text of the aggregate source. A successful pass
/// yields the frequency sample of every tracked core the text
/// reports, converted to the common sample unit; tracked cores the
/// text does not mention are silently absent. A marker or value line
/// without its `:` delimiter, or a numeric token that does not
/// parse, fails the whole pass.
pub fn parse_procfs_cpuinfo(cpuset: &HashSet<usize>, contents: &str) -> (r: Result<
    BTreeMap<usize, u64>,
    ProbeError,
>)
    ensures
        ({
            let outcome = spec_scan(
                spec_lines(contents@),
                cpuset@,
                Option::<usize>::None,
                Map::<usize, u64>::empty(),
            );
            match r {
                Ok(m) => outcome == ScanOutcome::Freqs(m@),
                Err(e) => match e {
                    ProbeError::ProcfsError(msg) => outcome == ScanOutcome::MissingDelimiter
                        && msg@ == "incorrect file format"@,
                    ProbeError::IntConversionError(t) => outcome matches ScanOutcome::BadNumber(u)
                        && t@ == u,
                    _ => false,
                },
            }
        }),
{
    let ghost all = spec_lines(contents@);
    let ghost target = spec_scan(all, cpuset@, Option::<usize>::None, Map::<usize, u64>::empty());
    let lines = split_lines(contents);
    let mut freqs: BTreeMap<usize, u64> = BTreeMap::new();
    let mut cur: Option<usize> = None;
    let mut i: usize = 0;
    proof {
        assert(all.skip(0) =~= all);
    }
    while i < lines.len()
        invariant
            0 <= i <= lines@.len(),
            lines@.len() == all.len(),
            forall|k: int| 0 <= k < all.len() ==> #[trigger] lines@[k]@ == all[k],
            all == spec_lines(contents@),
            target == spec_scan(all, cpuset@, Option::<usize>::None, Map::<usize, u64>::empty()),
            target == spec_scan(all.skip(i as int), cpuset@, cur, freqs@),
        decreases lines@.len() - i,
    {
        let line: &str = lines[i];
        let ghost l = all[i as int];
        let ghost restl = all.skip(i as int).drop_first();
        proof {
            assert(all.skip(i as int)[0] == l);
            assert(restl =~= all.skip(i + 1));
            assert(line@ == l);
        }
        match cur {
            Some(id) => {
                if str_has_prefix(line, "cpu MHz") {
                    let plen = "cpu MHz".unicode_len();
                    let j = skip_spaces(line, plen);
                    let llen = line.unicode_len();
                    let ghost after = trim_start(l.skip("cpu MHz"@.len() as int));
                    proof {
                        assert(after == line@.skip(j as int));
                    }
                    if j == llen || line.get_char(j) != ':' {
                        return Err(ProbeError::ProcfsError("incorrect file format".to_owned()));
                    }
                    proof {
                        assert(after[0] == ':');
                        assert(after.drop_first() =~= line@.skip(j + 1));
                    }
                    let v = skip_spaces(line, j + 1);
                    let vs = line.substring_char(v, llen);
                    proof {
                        assert(vs@ =~= line@.skip(v as int));
                        assert(trim_start(after.drop_first()) == vs@);
                    }
                    match parse_mhz_value(vs) {
                        Some(val) => {
                            freqs.insert(id, val);
                            cur = None;
                        },
                        None => {
                            return Err(ProbeError::IntConversionError(vs.to_owned()));
                        },
                    }
                }
            },
            None => {
                if str_has_prefix(line, "processor") {
                    let plen = "processor".unicode_len();
                    let j = skip_spaces(line, plen);
                    let llen = line.unicode_len();
                    let ghost after = trim_start(l.skip("processor"@.len() as int));
                    proof {
                        assert(after == line@.skip(j as int));
                    }
                    if j == llen || line.get_char(j) != ':' {
                        return Err(ProbeError::ProcfsError("incorrect file format".to_owned()));
                    }
                    proof {
                        assert(after[0] == ':');
                        assert(after.drop_first() =~= line@.skip(j + 1));
                    }
                    let v = skip_spaces(line, j + 1);
                    proof {
                        assert(trim_start(after.drop_first()) == line@.skip(v as int));
                        assert(line@.subrange(v as int, llen as int) =~= line@.skip(v as int));
                    }
                    match parse_u64_range(line, v, llen) {
                        Some(val) if val <= usize::MAX as u64 => {
                            let id = val as usize;
                            if cpuset.contains(&id) {
                                cur = Some(id);
                            } else {
                                cur = None;
                            }
                        },
                        _ => {
                            let vs = line.substring_char(v, llen);
                            return Err(ProbeError::IntConversionError(vs.to_owned()));
                        },
                    }
                }
            },
        }
        i = i + 1;
    }
    proof {
        assert(all.skip(all.len() as int) =~= Seq::<Seq<char>>::empty());
    }
    Ok(freqs)
}

/// Every tracked core has a fresh, empty window of the given
/// capacity, keyed by its id, and nothing else is in the map.
pub open spec fn fresh_stats(m: Map<usize, CpuStat>, ids: Set<usize>, capacity: usize) -> bool {
    &&& m.dom() == ids
    &&& forall|id: usize|
        ids.contains(id) ==> {
            let st = #[trigger] m[id];
            &&& st.wf()
            &&& st.spec_id() == id
            &&& st.spec_window_size() == capacity
            &&& st.samples() == Seq::<u64>::empty()
        }
}

/// One fresh running-average window of the given capacity per
/// tracked core, keyed by core id.
pub fn stats_with_window(cpuset: &HashSet<usize>, window_size: usize) -> (r: BTreeMap<
    usize,
    CpuStat,
>)
    requires
        window_size >= 1,
    ensures
        fresh_stats(r@, cpuset@, window_size),
{
    let mut m: BTreeMap<usize, CpuStat> = BTreeMap::new();
    proof {
        assert(m@.dom() =~= Set::<usize>::empty());
    }
    for id in it: cpuset.iter()
        invariant
            window_size >= 1,
            m@.dom() == it.seq().take(it.index() as int).unref().to_set(),
            it.seq().unref().to_set() == cpuset@,
            it.index() >= it.seq().len() ==> m@.dom() == cpuset@,
            forall|x: usize|
                m@.dom().contains(x) ==> ({
                    let st = #[trigger] m@[x];
                    &&& st.wf()
                    &&& st.spec_id() == x
                    &&& st.spec_window_size() == window_size
                    &&& st.samples() == Seq::<u64>::empty()
                }),
    {
        let ghost i = it.index() as int;
        let st = CpuStat::new(*id, window_size);
        m.insert(*id, st);
        proof {
            assert(id == it.seq()[i]);
            let e = *it.seq()[i];
            let s1 = it.seq().take(i).unref();
            let s2 = it.seq().take(i + 1).unref();
            assert(it.seq().take(i + 1) =~= it.seq().take(i).push(it.seq()[i]));
            assert(s2 =~= s1.push(e));
            assert forall|x: usize| s2.to_set().contains(x) implies s1.to_set().contains(x) || x
                == e by {
                let j = choose|j: int| 0 <= j < s2.len() && s2[j] == x;
                if j < s1.len() {
                    assert(s1[j] == x);
                }
            }
            assert forall|x: usize| s1.to_set().contains(x) || x == e implies s2.to_set().contains(
                x,
            ) by {
                if s1.to_set().contains(x) {
                    let j = choose|j: int| 0 <= j < s1.len() && s1[j] == x;
                    assert(s2[j] == x);
                } else {
                    assert(s2[s1.len() as int] == x);
                }
            }
            assert(s2.to_set() =~= s1.to_set().insert(e));
            assert(i + 1 == it.seq().len() ==> it.seq().take(i + 1) =~= it.seq());
        }
    }
    m
}

/// One fresh running-average window per tracked core, keyed by core
/// id, with the engine's default capacity.
pub fn cpuset_with_stats(cpuset: &HashSet<usize>) -> (r: Result<
    BTreeMap<usize, CpuStat>,
    ProbeError,
>)
    ensures
        r matches Ok(m) && fresh_stats(m@, cpuset@, WINDOW_SIZE),
{
    Ok(stats_with_window(cpuset, WINDOW_SIZE))
}

/// The per-core variant's poll plan: one fresh window per tracked
/// core, keyed by core id. The counter file behind an entry is named
/// by `sysfs_cpu_path` of its id.
pub fn parse_sysfs_cpuinfo(cpuset: &HashSet<usize>) -> (r: Result<
    BTreeMap<usize, CpuStat>,
    ProbeError,
>)
    ensures
        r matches Ok(m) && fresh_stats(m@, cpuset@, WINDOW_SIZE),
{
    cpuset_with_stats(cpuset)
}

} // verus!
