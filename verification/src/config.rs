//! Configuration scan: the tunnel core consumes exactly two values, the
//! remote host and port, taken from the last usable `remote` directive of the
//! configuration text. Reading the file belongs to the surrounding binary;
//! this module works on the bytes it was handed.
//!
//! A usable directive is a line that begins with `remote ` and carries at
//! least three whitespace-separated words: the keyword, the host, the port.
//! The port is the decimal value of the third word when it parses as a 16-bit
//! number, and 1194 otherwise; with no usable directive the host is empty and
//! the port is 1194.

use vstd::prelude::*;

use vstd::slice::slice_subrange;
use vstd::slice::slice_to_vec;

verus! {

/// Whitespace that separates words within a line: space, the other ASCII
/// blanks, and a carriage return left by a CRLF line ending.
pub open spec fn is_config_ws(b: u8) -> bool {
    b == 32u8 || b == 9u8 || b == 11u8 || b == 12u8 || b == 13u8
}

/// A decimal digit.
pub open spec fn is_digit(b: u8) -> bool {
    48 <= b <= 57
}

/// Length of the first line of `s`: the distance to the first newline, or
/// all of `s` if there is none.
pub open spec fn line_len(s: Seq<u8>) -> nat
    decreases s.len(),
{
    if s.len() == 0 {
        0
    } else if s[0] == 10u8 {
        0
    } else {
        1 + line_len(s.drop_first())
    }
}

/// The lines of `s`, split at newlines; a trailing newline ends the last
/// line rather than opening an empty one.
pub open spec fn split_lines(s: Seq<u8>) -> Seq<Seq<u8>>
    decreases s.len(),
{
    if s.len() == 0 {
        Seq::empty()
    } else {
        let k = line_len(s) as int;
        if k < s.len() {
            seq![s.take(k)] + split_lines(s.skip(k + 1))
        } else {
            seq![s]
        }
    }
}

/// Length of the leading run of non-whitespace bytes of `s`.
pub open spec fn tok_len(s: Seq<u8>) -> nat
    decreases s.len(),
{
    if s.len() == 0 {
        0
    } else if is_config_ws(s[0]) {
        0
    } else {
        1 + tok_len(s.drop_first())
    }
}

/// The whitespace-separated words of one line, in order.
pub open spec fn tokens_of(s: Seq<u8>) -> Seq<Seq<u8>>
    decreases s.len(),
{
    if s.len() == 0 {
        Seq::empty()
    } else if is_config_ws(s[0]) {
        tokens_of(s.drop_first())
    } else {
        let k = tok_len(s) as int;
        if k < s.len() {
            seq![s.take(k)] + tokens_of(s.skip(k))
        } else {
            seq![s]
        }
    }
}

/// Every byte of `s` is a decimal digit.
pub open spec fn all_digits(s: Seq<u8>) -> bool {
    forall|i: int| 0 <= i < s.len() ==> is_digit(#[trigger] s[i])
}

/// The decimal value of a digit string.
pub open spec fn dec_value(s: Seq<u8>) -> int
    decreases s.len(),
{
    if s.len() == 0 {
        0
    } else {
        dec_value(s.drop_last()) * 10 + (s.last() - 48)
    }
}

/// The port a directive's third word denotes: its decimal value when the
/// word (after an optional leading `+`) is all digits and fits 16 bits, and
/// the default 1194 otherwise.
pub open spec fn parsed_port(t: Seq<u8>) -> u16 {
    let digits = if t.len() > 0 && t[0] == 43u8 {
        t.drop_first()
    } else {
        t
    };
    if digits.len() > 0 && all_digits(digits) && dec_value(digits) <= 65535 {
        dec_value(digits) as u16
    } else {
        1194u16
    }
}

/// The bytes of `remote ` — the prefix a usable directive starts with.
pub open spec fn remote_prefix() -> Seq<u8> {
    seq![114u8, 101u8, 109u8, 111u8, 116u8, 101u8, 32u8]
}

/// A line that names a remote: it begins with `remote ` and has at least
/// three words.
pub open spec fn is_remote_line(l: Seq<u8>) -> bool {
    l.len() >= 7 && l.take(7) == remote_prefix() && tokens_of(l).len() >= 3
}

/// The last usable `remote` directive among the lines, if any: later
/// directives override earlier ones.
pub open spec fn chosen_remote(ls: Seq<Seq<u8>>) -> Option<Seq<u8>>
    decreases ls.len(),
{
    if ls.len() == 0 {
        None
    } else if is_remote_line(ls.last()) {
        Some(ls.last())
    } else {
        chosen_remote(ls.drop_last())
    }
}

/// The two values the tunnel core takes from its configuration.
#[derive(Debug)]
pub struct OVPNConfig {
    /// Host bytes of the last usable `remote` directive; empty if none.
    pub remote_addr: Vec<u8>,
    /// Port of that directive, or 1194.
    pub remote_port: u16,
}

impl OVPNConfig {
    /// This configuration is exactly what the text denotes.
    pub open spec fn is_parse_of(self, content: Seq<u8>) -> bool {
        match chosen_remote(split_lines(content)) {
            None => self.remote_addr@ == Seq::<u8>::empty() && self.remote_port == 1194,
            Some(l) => self.remote_addr@ == tokens_of(l)[1]
                && self.remote_port == parsed_port(tokens_of(l)[2]),
        }
    }
}

/// A nonempty digit string has a nonnegative value.
proof fn lemma_dec_value_nonneg(s: Seq<u8>)
    requires
        all_digits(s),
    ensures
        dec_value(s) >= 0,
    decreases s.len(),
{
    if s.len() > 0 {
        assert(all_digits(s.drop_last())) by {
            assert(forall|i: int| 0 <= i < s.len() - 1 ==> s.drop_last()[i] == s[i]);
        }
        lemma_dec_value_nonneg(s.drop_last());
    }
}

/// Dropping trailing digits never increases the value.
proof fn lemma_dec_value_prefix_le(s: Seq<u8>, m: int)
    requires
        all_digits(s),
        0 <= m <= s.len(),
    ensures
        dec_value(s.take(m)) <= dec_value(s),
    decreases s.len() - m,
{
    if m < s.len() {
        assert(all_digits(s.take(m))) by {
            assert(forall|i: int| 0 <= i < m ==> s.take(m)[i] == s[i]);
        }
        lemma_dec_value_nonneg(s.take(m));
        assert(s.take(m + 1).drop_last() =~= s.take(m));
        assert(s.take(m + 1).last() == s[m]);
        assert(dec_value(s.take(m + 1)) == dec_value(s.take(m)) * 10 + (s[m] - 48));
        lemma_dec_value_prefix_le(s, m + 1);
    } else {
        assert(s.take(m) =~= s);
    }
}

/// A scan that saw no newline before `m`, and one (or the end) at `m`,
/// found the first line's length.
proof fn lemma_line_len_at(s: Seq<u8>, m: int)
    requires
        0 <= m <= s.len(),
        forall|k: int| 0 <= k < m ==> s[k] != 10u8,
        m < s.len() ==> s[m] == 10u8,
    ensures
        line_len(s) == m,
    decreases m,
{
    if m == 0 {
    } else {
        lemma_line_len_at(s.drop_first(), m - 1);
    }
}

/// The same, for the leading word of a line.
proof fn lemma_tok_len_at(s: Seq<u8>, m: int)
    requires
        0 <= m <= s.len(),
        forall|k: int| 0 <= k < m ==> !is_config_ws(s[k]),
        m < s.len() ==> is_config_ws(s[m]),
    ensures
        tok_len(s) == m,
    decreases m,
{
    if m == 0 {
    } else {
        lemma_tok_len_at(s.drop_first(), m - 1);
    }
}

/// Whether this byte separates words.
fn is_ws_byte(b: u8) -> (r: bool)
    ensures
        r == is_config_ws(b),
{
    b == 32 || b == 9 || b == 11 || b == 12 || b == 13
}

/// Splits text into its lines.
pub fn split_lines_exec(content: &[u8]) -> (ls: Vec<Vec<u8>>)
    ensures
        ls@.map_values(|l: Vec<u8>| l@) == split_lines(content@),
{
    let n = content.len();
    let mut out: Vec<Vec<u8>> = Vec::new();
    let mut i: usize = 0;
    proof {
        assert(content@.skip(0) =~= content@);
        assert(out@.map_values(|l: Vec<u8>| l@) + split_lines(content@)
            =~= split_lines(content@));
    }
    while i < n
        invariant
            n == content@.len(),
            i <= n,
            split_lines(content@) == out@.map_values(|l: Vec<u8>| l@)
                + split_lines(content@.skip(i as int)),
        decreases n - i,
    {
        let mut j: usize = i;
        while j < n && content[j] != 10
            invariant
                n == content@.len(),
                i <= j <= n,
                forall|k: int| i <= k < j ==> content@[k] != 10u8,
            decreases n - j,
        {
            j += 1;
        }
        let ghost rem = content@.skip(i as int);
        proof {
            assert(forall|k: int| 0 <= k < j - i ==> rem[k] != 10u8);
            lemma_line_len_at(rem, j - i);
        }
        let line = slice_to_vec(slice_subrange(content, i, j));
        let ghost old_map = out@.map_values(|l: Vec<u8>| l@);
        out.push(line);
        proof {
            assert(out@.map_values(|l: Vec<u8>| l@) =~= old_map.push(content@.subrange(
                i as int,
                j as int,
            )));
            assert(rem.take(j - i) =~= content@.subrange(i as int, j as int));
        }
        if j < n {
            proof {
                assert(rem.skip(j - i + 1) =~= content@.skip(j + 1 as int));
                assert(split_lines(rem) == seq![rem.take(j - i)] + split_lines(
                    content@.skip(j + 1 as int),
                ));
                assert(old_map + (seq![rem.take(j - i)] + split_lines(content@.skip(j + 1 as int)))
                    =~= old_map.push(rem.take(j - i)) + split_lines(content@.skip(j + 1 as int)));
            }
            i = j + 1;
        } else {
            proof {
                assert(rem.take(j - i) =~= rem);
                assert(split_lines(rem) == seq![rem]);
                assert(content@.skip(n as int) =~= Seq::<u8>::empty());
                assert(old_map + seq![rem] =~= old_map.push(rem) + split_lines(content@.skip(
                    n as int,
                )));
            }
            i = n;
        }
    }
    proof {
        assert(content@.skip(n as int) =~= Seq::<u8>::empty());
        assert(out@.map_values(|l: Vec<u8>| l@) + Seq::<Seq<u8>>::empty()
            =~= out@.map_values(|l: Vec<u8>| l@));
    }
    out
}

/// Splits one line into its whitespace-separated words.
pub fn split_tokens(line: &[u8]) -> (ts: Vec<Vec<u8>>)
    ensures
        ts@.map_values(|t: Vec<u8>| t@) == tokens_of(line@),
{
    let n = line.len();
    let mut out: Vec<Vec<u8>> = Vec::new();
    let mut i: usize = 0;
    proof {
        assert(line@.skip(0) =~= line@);
        assert(out@.map_values(|t: Vec<u8>| t@) + tokens_of(line@) =~= tokens_of(line@));
    }
    while i < n
        invariant
            n == line@.len(),
            i <= n,
            tokens_of(line@) == out@.map_values(|t: Vec<u8>| t@)
                + tokens_of(line@.skip(i as int)),
        decreases n - i,
    {
        if is_ws_byte(line[i]) {
            proof {
                assert(line@.skip(i as int).drop_first() =~= line@.skip(i + 1 as int));
            }
            i += 1;
        } else {
            let mut j: usize = i + 1;
            while j < n && !is_ws_byte(line[j])
                invariant
                    n == line@.len(),
                    i < j <= n,
                    forall|k: int| i <= k < j ==> !is_config_ws(line@[k]),
                decreases n - j,
            {
                j += 1;
            }
            let ghost rem = line@.skip(i as int);
            proof {
                assert(forall|k: int| 0 <= k < j - i ==> !is_config_ws(rem[k]));
                lemma_tok_len_at(rem, j - i);
            }
            let word = slice_to_vec(slice_subrange(line, i, j));
            let ghost old_map = out@.map_values(|t: Vec<u8>| t@);
            out.push(word);
            proof {
                assert(out@.map_values(|t: Vec<u8>| t@) =~= old_map.push(line@.subrange(
                    i as int,
                    j as int,
                )));
                assert(rem.take(j - i) =~= line@.subrange(i as int, j as int));
                if j < n {
                    assert(rem.skip(j - i) =~= line@.skip(j as int));
                    assert(tokens_of(rem) == seq![rem.take(j - i)] + tokens_of(line@.skip(
                        j as int,
                    )));
                    assert(old_map + (seq![rem.take(j - i)] + tokens_of(line@.skip(j as int)))
                        =~= old_map.push(rem.take(j - i)) + tokens_of(line@.skip(j as int)));
                } else {
                    assert(rem.take(j - i) =~= rem);
                    assert(tokens_of(rem) == seq![rem]);
                    assert(line@.skip(n as int) =~= Seq::<u8>::empty());
                    assert(old_map + seq![rem] =~= old_map.push(rem) + tokens_of(line@.skip(
                        n as int,
                    )));
                }
            }
            i = j;
        }
    }
    proof {
        assert(line@.skip(n as int) =~= Seq::<u8>::empty());
        assert(out@.map_values(|t: Vec<u8>| t@) + Seq::<Seq<u8>>::empty()
            =~= out@.map_values(|t: Vec<u8>| t@));
    }
    out
}

/// Reads a port word as `str::parse::<u16>` followed by a 1194 default
/// would: optional `+`, then digits that fit 16 bits, else 1194.
pub fn parse_port(t: &[u8]) -> (p: u16)
    ensures
        p == parsed_port(t@),
{
    let n = t.len();
    let start: usize = if n > 0 && t[0] == 43 {
        1
    } else {
        0
    };
    let ghost digits = if t@.len() > 0 && t@[0] == 43u8 {
        t@.drop_first()
    } else {
        t@
    };
    proof {
        assert(digits =~= t@.skip(start as int));
    }
    if start == n {
        return 1194;
    }
    let mut acc: u32 = 0;
    let mut i: usize = start;
    while i < n
        invariant
            n == t@.len(),
            start <= i <= n,
            digits == (if t@.len() > 0 && t@[0] == 43u8 {
                t@.drop_first()
            } else {
                t@
            }),
            digits =~= t@.skip(start as int),
            forall|k: int| start <= k < i ==> is_digit(#[trigger] t@[k]),
            acc <= 65535,
            acc == dec_value(t@.subrange(start as int, i as int)),
        decreases n - i,
    {
        let b = t[i];
        if b < 48 || b > 57 {
            proof {
                assert(digits[i - start] == t@[i as int]);
                assert(!is_digit(digits[i - start]));
                assert(!all_digits(digits));
                assert(parsed_port(t@) == 1194u16);
            }
            return 1194;
        }
        proof {
            assert(t@.subrange(start as int, i + 1).drop_last() =~= t@.subrange(
                start as int,
                i as int,
            ));
            assert(t@.subrange(start as int, i + 1).last() == t@[i as int]);
        }
        acc = acc * 10 + ((b - 48) as u32);
        if acc > 65535 {
            proof {
                assert(acc == dec_value(t@.subrange(start as int, i + 1)));
                if all_digits(digits) {
                    assert(digits.take(i + 1 - start) =~= t@.subrange(start as int, i + 1));
                    lemma_dec_value_prefix_le(digits, i + 1 - start);
                    assert(dec_value(digits) > 65535);
                }
                assert(parsed_port(t@) == 1194u16);
            }
            return 1194;
        }
        i += 1;
    }
    proof {
        assert(t@.subrange(start as int, n as int) =~= digits);
        assert(all_digits(digits)) by {
            assert(forall|k: int|
                0 <= k < digits.len() ==> digits[k] == t@[k + start] && is_digit(t@[k + start]));
        }
    }
    acc as u16
}

/// Whether the line starts with the `remote ` prefix.
fn has_remote_prefix(line: &[u8]) -> (r: bool)
    ensures
        r == (line@.len() >= 7 && line@.take(7) == remote_prefix()),
{
    if line.len() < 7 {
        return false;
    }
    let ok = line[0] == 114 && line[1] == 101 && line[2] == 109 && line[3] == 111 && line[4]
        == 116 && line[5] == 101 && line[6] == 32;
    proof {
        if ok {
            assert(line@.take(7) =~= remote_prefix());
        } else {
            if line@.take(7) == remote_prefix() {
                assert(line@[0] == 114u8 && line@[1] == 101u8 && line@[2] == 109u8 && line@[3]
                    == 111u8 && line@[4] == 116u8 && line@[5] == 101u8 && line@[6] == 32u8) by {
                    assert(forall|k: int| 0 <= k < 7 ==> line@.take(7)[k] == remote_prefix()[k]);
                }
                assert(false);
            }
        }
    }
    ok
}

impl OVPNConfig {
    /// Scans the configuration text for its last usable `remote` directive.
    pub fn from_content(content: &[u8]) -> (c: Self)
        ensures
            c.is_parse_of(content@),
    {
        let lines = split_lines_exec(content);
        let ghost lv = split_lines(content@);
        let mut addr: Vec<u8> = Vec::new();
        let mut port: u16 = 1194;
        let mut li: usize = 0;
        let n = lines.len();
        proof {
            assert(lv.take(0) =~= Seq::<Seq<u8>>::empty());
        }
        while li < n
            invariant
                n == lines@.len(),
                li <= n,
                lines@.map_values(|l: Vec<u8>| l@) == lv,
                match chosen_remote(lv.take(li as int)) {
                    None => addr@ == Seq::<u8>::empty() && port == 1194,
                    Some(l) => addr@ == tokens_of(l)[1] && port == parsed_port(tokens_of(l)[2]),
                },
            decreases n - li,
        {
            let line = &lines[li];
            proof {
                assert(line@ == lv[li as int]);
            }
            if has_remote_prefix(line.as_slice()) {
                let ts = split_tokens(line.as_slice());
                if ts.len() >= 3 {
                    proof {
                        assert(is_remote_line(line@));
                        assert(ts@[1]@ == tokens_of(line@)[1]);
                        assert(ts@[2]@ == tokens_of(line@)[2]);
                    }
                    addr = slice_to_vec(ts[1].as_slice());
                    port = parse_port(ts[2].as_slice());
                } else {
                    proof {
                        assert(!is_remote_line(line@));
                    }
                }
            } else {
                proof {
                    assert(!is_remote_line(line@));
                }
            }
            proof {
                assert(lv.take(li + 1 as int).drop_last() =~= lv.take(li as int));
                assert(lv.take(li + 1 as int).last() == lv[li as int]);
            }
            li += 1;
        }
        proof {
            assert(lv.take(n as int) =~= lv);
        }
        OVPNConfig { remote_addr: addr, remote_port: port }
    }
}

} // verus!
