//! The list parser: raw `address:port` text into fresh proxy records.
//!
//! The text is split on newlines; each line is trimmed of whitespace; empty
//! lines and `#` comments are skipped; a remaining line yields a record
//! exactly when it contains a colon and everything after the first colon
//! parses as an unsigned 16-bit port number (an optional leading `+`, then
//! decimal digits, value at most 65535).  The specification functions here
//! are the single mathematical description of that grammar; the executable
//! parser is proved to produce exactly the records they describe.

use vstd::prelude::*;
use vstd::string::StrSliceExecFns;
use crate::record::{ProxyInfo, ProxyInfoV, views_of};

verus! {

/// Whether `c` has the Unicode white-space property, the set the line
/// trimming removes.
pub open spec fn is_space_char(c: char) -> bool {
    let u = c as u32;
    (0x09 <= u && u <= 0x0d) || u == 0x20 || u == 0x85 || u == 0xa0 || u == 0x1680 || (0x2000
        <= u && u <= 0x200a) || u == 0x2028 || u == 0x2029 || u == 0x202f || u == 0x205f || u
        == 0x3000
}

/// Executable white-space test.
pub fn is_space(c: char) -> (r: bool)
    ensures
        r == is_space_char(c),
{
    let u = c as u32;
    (0x09 <= u && u <= 0x0d) || u == 0x20 || u == 0x85 || u == 0xa0 || u == 0x1680 || (0x2000
        <= u && u <= 0x200a) || u == 0x2028 || u == 0x2029 || u == 0x202f || u == 0x205f || u
        == 0x3000
}

/// The sequence with leading white space removed.
pub open spec fn trim_left(s: Seq<char>) -> Seq<char>
    decreases s.len(),
{
    if s.len() > 0 && is_space_char(s[0]) {
        trim_left(s.drop_first())
    } else {
        s
    }
}

/// The sequence with trailing white space removed.
pub open spec fn trim_right(s: Seq<char>) -> Seq<char>
    decreases s.len(),
{
    if s.len() > 0 && is_space_char(s.last()) {
        trim_right(s.drop_last())
    } else {
        s
    }
}

/// The sequence with white space removed from both ends.
pub open spec fn trim_spec(s: Seq<char>) -> Seq<char> {
    trim_right(trim_left(s))
}

/// The index of the first newline in `s`, or `s.len()` if there is none.
pub open spec fn first_nl(s: Seq<char>) -> nat
    decreases s.len(),
{
    if s.len() == 0 {
        0
    } else if s[0] == '\n' {
        0
    } else {
        first_nl(s.drop_first()) + 1
    }
}

/// The index of the first colon in `s`, or `s.len()` if there is none.
pub open spec fn first_colon(s: Seq<char>) -> nat
    decreases s.len(),
{
    if s.len() == 0 {
        0
    } else if s[0] == ':' {
        0
    } else {
        first_colon(s.drop_first()) + 1
    }
}

/// `first_nl` is determined by a witness position: nothing before `k` is a
/// newline and `k` is either a newline or the end.
pub proof fn lemma_first_nl_at(s: Seq<char>, k: int)
    requires
        0 <= k <= s.len(),
        forall|j: int| 0 <= j < k ==> s[j] != '\n',
        k == s.len() || s[k] == '\n',
    ensures
        first_nl(s) == k,
    decreases k,
{
    if k == 0 {
    } else {
        assert(s[0] != '\n');
        assert forall|j: int| 0 <= j < k - 1 implies s.drop_first()[j] != '\n' by {
            assert(s.drop_first()[j] == s[j + 1]);
        }
        if k < s.len() {
            assert(s.drop_first()[k - 1] == s[k]);
        }
        lemma_first_nl_at(s.drop_first(), k - 1);
    }
}

/// `first_colon` is determined by a witness position in the same way.
pub proof fn lemma_first_colon_at(s: Seq<char>, k: int)
    requires
        0 <= k <= s.len(),
        forall|j: int| 0 <= j < k ==> s[j] != ':',
        k == s.len() || s[k] == ':',
    ensures
        first_colon(s) == k,
    decreases k,
{
    if k == 0 {
    } else {
        assert(s[0] != ':');
        assert forall|j: int| 0 <= j < k - 1 implies s.drop_first()[j] != ':' by {
            assert(s.drop_first()[j] == s[j + 1]);
        }
        if k < s.len() {
            assert(s.drop_first()[k - 1] == s[k]);
        }
        lemma_first_colon_at(s.drop_first(), k - 1);
    }
}

/// Whether `c` is a decimal digit.
pub open spec fn is_digit_char(c: char) -> bool {
    0x30 <= c as u32 && c as u32 <= 0x39
}

/// The numeric value of a digit character.
pub open spec fn digit_val(c: char) -> nat
    recommends
        is_digit_char(c),
{
    (c as u32 - 0x30) as nat
}

/// Whether every character of `s` is a decimal digit.
pub open spec fn all_digits(s: Seq<char>) -> bool {
    forall|i: int| 0 <= i < s.len() ==> is_digit_char(s[i])
}

/// The value of a digit string read in base ten.
pub open spec fn digits_val(s: Seq<char>) -> nat
    decreases s.len(),
{
    if s.len() == 0 {
        0
    } else {
        digits_val(s.drop_last()) * 10 + digit_val(s.last())
    }
}

/// What parsing `s` as an unsigned 16-bit integer yields: an optional
/// leading `+`, then at least one decimal digit, and a value at most 65535;
/// anything else is rejected.
pub open spec fn parse_port_spec(s: Seq<char>) -> Option<u16> {
    let digits = if s.len() > 0 && s[0] == '+' {
        s.drop_first()
    } else {
        s
    };
    if digits.len() == 0 || !all_digits(digits) {
        None
    } else if digits_val(digits) > 0xffff {
        None
    } else {
        Some(digits_val(digits) as u16)
    }
}

proof fn lemma_digits_take_step(s: Seq<char>, k: int)
    requires
        0 <= k < s.len(),
    ensures
        digits_val(s.subrange(0, k + 1)) == digits_val(s.subrange(0, k)) * 10 + digit_val(s[k]),
{
    assert(s.subrange(0, k + 1).drop_last() =~= s.subrange(0, k));
    assert(s.subrange(0, k + 1).last() == s[k]);
}

proof fn lemma_digits_monotone(s: Seq<char>, k: int)
    requires
        0 <= k <= s.len(),
    ensures
        digits_val(s) >= digits_val(s.subrange(0, k)),
    decreases s.len() - k,
{
    if k == s.len() {
        assert(s.subrange(0, k) =~= s);
    } else {
        lemma_digits_take_step(s, k);
        lemma_digits_monotone(s, k + 1);
    }
}

/// Parse the characters `from .. to` of `text` as a port number, exactly as
/// `parse_port_spec` describes.
#[verifier::loop_isolation(false)]
pub fn parse_port_range(text: &str, from: usize, to: usize) -> (r: Option<u16>)
    requires
        from <= to <= text@.len(),
    ensures
        r == parse_port_spec(text@.subrange(from as int, to as int)),
{
    let ghost s = text@.subrange(from as int, to as int);
    if from == to {
        return None;
    }
    let first = text.get_char(from);
    let dstart: usize = if first == '+' {
        from + 1
    } else {
        from
    };
    let ghost digits = if s.len() > 0 && s[0] == '+' {
        s.drop_first()
    } else {
        s
    };
    proof {
        assert(s[0] == first);
        assert(digits =~= text@.subrange(dstart as int, to as int));
    }
    if dstart == to {
        return None;
    }
    let mut k: usize = dstart;
    let mut acc: u32 = 0;
    while k < to
        invariant
            dstart <= k <= to <= text@.len(),
            acc <= 0xffff,
            digits == text@.subrange(dstart as int, to as int),
            all_digits(text@.subrange(dstart as int, k as int)),
            acc == digits_val(text@.subrange(dstart as int, k as int)),
        decreases to - k,
    {
        let ch = text.get_char(k);
        let u = ch as u32;
        if u < 0x30 || u > 0x39 {
            proof {
                assert(digits[k - dstart] == ch);
                assert(!all_digits(digits));
            }
            return None;
        }
        let d = u - 0x30;
        let acc2 = acc * 10 + d;
        proof {
            lemma_digits_take_step(digits, k - dstart);
            assert(digits.subrange(0, k - dstart) =~= text@.subrange(dstart as int, k as int));
            assert(digits.subrange(0, k - dstart + 1) =~= text@.subrange(
                dstart as int,
                k as int + 1,
            ));
            assert(digits[k - dstart] == ch);
        }
        if acc2 > 0xffff {
            proof {
                lemma_digits_monotone(digits, k - dstart + 1);
            }
            return None;
        }
        proof {
            assert forall|i: int| 0 <= i < k as int + 1 - dstart implies #[trigger] is_digit_char(
                text@.subrange(dstart as int, k as int + 1)[i],
            ) by {
                if i < k as int - dstart {
                    assert(text@.subrange(dstart as int, k as int)[i] == text@.subrange(
                        dstart as int,
                        k as int + 1,
                    )[i]);
                } else {
                    assert(text@.subrange(dstart as int, k as int + 1)[i] == ch);
                }
            }
        }
        acc = acc2;
        k = k + 1;
    }
    proof {
        assert(text@.subrange(dstart as int, to as int) =~= digits);
    }
    Some(acc as u16)
}

/// The model of the record a fresh parse emits: the given address and port,
/// country `"Unknown"`, protocol `"http"`, all metrics zero.
pub open spec fn fresh_record(ip: Seq<char>, port: u16) -> ProxyInfoV {
    ProxyInfoV {
        ip: ip,
        port: port,
        country: "Unknown"@,
        protocol: "http"@,
        speed: 0,
        success_rate: 0,
        last_tested: 0,
        failures: 0,
    }
}

/// The records one line contributes: at most one.
pub open spec fn line_fresh(line: Seq<char>) -> Seq<ProxyInfoV> {
    let t = trim_spec(line);
    if t.len() == 0 || t[0] == '#' {
        Seq::empty()
    } else {
        let c = first_colon(t);
        if c == t.len() {
            Seq::empty()
        } else {
            match parse_port_spec(t.subrange(c as int + 1, t.len() as int)) {
                Some(p) => seq![fresh_record(t.subrange(0, c as int), p)],
                None => Seq::empty(),
            }
        }
    }
}

/// The records a whole text yields: the contributions of its
/// newline-separated lines, in order.
pub open spec fn fresh_records(s: Seq<char>) -> Seq<ProxyInfoV>
    decreases s.len(),
{
    let k = first_nl(s);
    if k < s.len() {
        line_fresh(s.subrange(0, k as int)) + fresh_records(s.subrange(k as int + 1, s.len() as int))
    } else {
        line_fresh(s)
    }
}

/// Unfolding `fresh_records` at a known first-newline position.
pub proof fn lemma_fresh_records_step(s: Seq<char>, k: int)
    requires
        0 <= k <= s.len(),
        forall|j: int| 0 <= j < k ==> s[j] != '\n',
        k == s.len() || s[k] == '\n',
    ensures
        k < s.len() ==> fresh_records(s) == line_fresh(s.subrange(0, k)) + fresh_records(
            s.subrange(k + 1, s.len() as int),
        ),
        k == s.len() ==> fresh_records(s) == line_fresh(s),
{
    lemma_first_nl_at(s, k);
}

pub proof fn lemma_views_push(s: Seq<ProxyInfo>, p: ProxyInfo)
    ensures
        views_of(s.push(p)) == views_of(s) + seq![p@],
{
    assert(views_of(s.push(p)) =~= views_of(s) + seq![p@]);
}

/// Append to `res` the records of the line at characters `start .. end` of
/// `text`, exactly as `line_fresh` describes.
fn push_line_records(text: &str, res: &mut Vec<ProxyInfo>, start: usize, end: usize)
    requires
        start <= end <= text@.len(),
    ensures
        views_of(final(res)@) == views_of(old(res)@) + line_fresh(
            text@.subrange(start as int, end as int),
        ),
{
    let ghost line = text@.subrange(start as int, end as int);
    let mut a = start;
    let mut b = end;
    loop
        invariant
            start <= a <= b,
            b == end,
            end <= text@.len(),
            trim_left(line) == trim_left(text@.subrange(a as int, end as int)),
        ensures
            start <= a <= b,
            b == end,
            trim_left(line) == text@.subrange(a as int, end as int),
        decreases b - a,
    {
        if a >= b {
            break;
        }
        let c = text.get_char(a);
        if !is_space(c) {
            break;
        }
        proof {
            assert(text@.subrange(a as int, end as int)[0] == c);
            assert(text@.subrange(a as int, end as int).drop_first() =~= text@.subrange(
                a as int + 1,
                end as int,
            ));
        }
        a = a + 1;
    }
    loop
        invariant
            start <= a <= b <= end,
            end <= text@.len(),
            trim_left(line) == text@.subrange(a as int, end as int),
            trim_spec(line) == trim_right(text@.subrange(a as int, b as int)),
        ensures
            start <= a <= b <= end,
            trim_spec(line) == text@.subrange(a as int, b as int),
        decreases b - a,
    {
        if b <= a {
            break;
        }
        let c = text.get_char(b - 1);
        if !is_space(c) {
            break;
        }
        proof {
            assert(text@.subrange(a as int, b as int).last() == c);
            assert(text@.subrange(a as int, b as int).drop_last() =~= text@.subrange(
                a as int,
                b as int - 1,
            ));
        }
        b = b - 1;
    }
    let ghost t = text@.subrange(a as int, b as int);
    if a == b {
        proof {
            assert(views_of(res@) =~= views_of(res@) + line_fresh(line));
        }
        return;
    }
    let c0 = text.get_char(a);
    proof {
        assert(t[0] == c0);
    }
    if c0 == '#' {
        proof {
            assert(views_of(res@) =~= views_of(res@) + line_fresh(line));
        }
        return;
    }
    let mut c = a;
    loop
        invariant
            a <= c <= b <= end,
            end <= text@.len(),
            forall|j: int| a <= j < c ==> text@[j] != ':',
        ensures
            a <= c <= b,
            forall|j: int| a <= j < c ==> text@[j] != ':',
            c < b ==> text@[c as int] == ':',
        decreases b - c,
    {
        if c >= b {
            break;
        }
        if text.get_char(c) == ':' {
            break;
        }
        c = c + 1;
    }
    proof {
        assert forall|j: int| 0 <= j < c as int - a implies t[j] != ':' by {
            assert(t[j] == text@[a + j]);
        }
        if c < b {
            assert(t[c as int - a] == text@[c as int]);
        }
        lemma_first_colon_at(t, c as int - a);
    }
    if c == b {
        proof {
            assert(views_of(res@) =~= views_of(res@) + line_fresh(line));
        }
        return;
    }
    let port_opt = parse_port_range(text, c + 1, b);
    proof {
        assert(t.subrange(c as int - a + 1, t.len() as int) =~= text@.subrange(
            c as int + 1,
            b as int,
        ));
    }
    match port_opt {
        None => {
            proof {
                assert(views_of(res@) =~= views_of(res@) + line_fresh(line));
            }
        },
        Some(port) => {
            let ip = text.substring_char(a, c).to_owned();
            let unknown = "Unknown".to_owned();
            let http = "http".to_owned();
            let rec = ProxyInfo {
                ip,
                port,
                country: unknown,
                protocol: http,
                speed: 0,
                success_rate: 0,
                last_tested: 0,
                failures: 0,
            };
            proof {
                assert(t.subrange(0, c as int - a) =~= text@.subrange(a as int, c as int));
                assert(rec@ == fresh_record(t.subrange(0, c as int - a), port));
                assert(line_fresh(line) =~= seq![rec@]);
                lemma_views_push(res@, rec);
            }
            res.push(rec);
        },
    }
}

/// Parse a raw proxy list: one `address:port` record per surviving line,
/// with country `"Unknown"`, protocol `"http"` and zeroed metrics.
#[verifier::loop_isolation(false)]
pub fn parse_proxy_list(text: &str) -> (res: Vec<ProxyInfo>)
    ensures
        views_of(res@) == fresh_records(text@),
{
    let ghost full = text@;
    let len = text.unicode_len();
    let mut res: Vec<ProxyInfo> = Vec::new();
    let mut start: usize = 0;
    let mut i: usize = 0;
    proof {
        assert(full.subrange(0, len as int) =~= full);
        assert(views_of(res@) + fresh_records(full) =~= fresh_records(full));
    }
    while i < len
        invariant
            start <= i <= len,
            len == full.len(),
            text@ == full,
            forall|j: int| start <= j < i ==> full[j] != '\n',
            views_of(res@) + fresh_records(full.subrange(start as int, len as int))
                == fresh_records(full),
        decreases len - i,
    {
        let ch = text.get_char(i);
        if ch == '\n' {
            let ghost rest = full.subrange(start as int, len as int);
            let ghost pre = views_of(res@);
            push_line_records(text, &mut res, start, i);
            proof {
                assert forall|j: int| 0 <= j < i as int - start implies rest[j] != '\n' by {
                    assert(rest[j] == full[start + j]);
                }
                assert(rest[i as int - start] == full[i as int]);
                lemma_fresh_records_step(rest, i as int - start);
                assert(rest.subrange(0, i as int - start) =~= full.subrange(
                    start as int,
                    i as int,
                ));
                assert(rest.subrange(i as int - start + 1, rest.len() as int) =~= full.subrange(
                    i as int + 1,
                    len as int,
                ));
                assert((pre + line_fresh(full.subrange(start as int, i as int))) + fresh_records(
                    full.subrange(i as int + 1, len as int),
                ) =~= pre + (line_fresh(full.subrange(start as int, i as int)) + fresh_records(
                    full.subrange(i as int + 1, len as int),
                )));
            }
            start = i + 1;
        }
        i = i + 1;
    }
    let ghost rest = full.subrange(start as int, len as int);
    let ghost pre = views_of(res@);
    push_line_records(text, &mut res, start, len);
    proof {
        assert forall|j: int| 0 <= j < rest.len() implies rest[j] != '\n' by {
            assert(rest[j] == full[start + j]);
        }
        lemma_fresh_records_step(rest, rest.len() as int);
    }
    res
}

} // verus!
