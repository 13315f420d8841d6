//! Parsing of the kernel's per-interface traffic counter table.
//!
//! The table is line-oriented: two header lines, then one row per
//! interface in whitespace-separated columns. The first column is the
//! interface name with a trailing colon; the second holds the cumulative
//! received bytes and the tenth the cumulative transmitted bytes. A row
//! with too few columns or an unparseable counter is skipped, never fatal.

use vstd::prelude::*;

use crate::chars::{chars_to_string, str_chars, strip_trailing, strip_trailing_chars};

verus! {

/// One parsed row of the kernel counter table.
#[derive(Clone, Debug)]
pub struct LinuxNetworkStats {
    pub name: String,
    pub bytes_received: u64,
    pub bytes_transmitted: u64,
}

/// The mathematical image of a parsed row.
pub ghost struct LinuxStatsView {
    pub name: Seq<char>,
    pub rx: u64,
    pub tx: u64,
}

impl View for LinuxNetworkStats {
    type V = LinuxStatsView;

    open spec fn view(&self) -> LinuxStatsView {
        LinuxStatsView { name: self.name@, rx: self.bytes_received, tx: self.bytes_transmitted }
    }
}

/// The views of a sequence of parsed rows, in order.
pub open spec fn linux_views(s: Seq<LinuxNetworkStats>) -> Seq<LinuxStatsView> {
    s.map_values(|e: LinuxNetworkStats| e@)
}

/// The lines of `s`, split at newline characters, with the text after the
/// last newline as a final line when it is not empty.
pub open spec fn split_lines_acc(s: Seq<char>, cur: Seq<char>) -> Seq<Seq<char>>
    decreases s.len(),
{
    if s.len() == 0 {
        if cur.len() == 0 {
            Seq::empty()
        } else {
            seq![cur]
        }
    } else if s[0] == '\n' {
        seq![cur] + split_lines_acc(s.drop_first(), Seq::empty())
    } else {
        split_lines_acc(s.drop_first(), cur.push(s[0]))
    }
}

/// The lines of `s`.
pub open spec fn split_lines(s: Seq<char>) -> Seq<Seq<char>> {
    split_lines_acc(s, Seq::empty())
}

/// The column separators of the counter table: spaces, tabs, and a
/// carriage return left by a CRLF line ending.
pub open spec fn is_blank(c: char) -> bool {
    c == ' ' || c == '\t' || c == '\r'
}

/// The whitespace-separated columns of `s`: maximal runs of non-blank
/// characters.
pub open spec fn split_columns_acc(s: Seq<char>, cur: Seq<char>) -> Seq<Seq<char>>
    decreases s.len(),
{
    if s.len() == 0 {
        if cur.len() == 0 {
            Seq::empty()
        } else {
            seq![cur]
        }
    } else if is_blank(s[0]) {
        if cur.len() == 0 {
            split_columns_acc(s.drop_first(), Seq::empty())
        } else {
            seq![cur] + split_columns_acc(s.drop_first(), Seq::empty())
        }
    } else {
        split_columns_acc(s.drop_first(), cur.push(s[0]))
    }
}

/// The whitespace-separated columns of `s`.
pub open spec fn split_columns(s: Seq<char>) -> Seq<Seq<char>> {
    split_columns_acc(s, Seq::empty())
}

/// Whether `c` is a decimal digit.
pub open spec fn is_digit(c: char) -> bool {
    '0' <= c && c <= '9'
}

/// The value of the decimal digit `c`.
pub open spec fn digit_val(c: char) -> nat {
    ((c as u32) - ('0' as u32)) as nat
}

/// The number the digit string `t` denotes.
pub open spec fn dec_value(t: Seq<char>) -> nat
    decreases t.len(),
{
    if t.len() == 0 {
        0
    } else {
        dec_value(t.drop_last()) * 10 + digit_val(t.last())
    }
}

/// Whether every character of `t` is a decimal digit.
pub open spec fn all_digits(t: Seq<char>) -> bool {
    forall|i: int| 0 <= i < t.len() ==> is_digit(#[trigger] t[i])
}

/// The counter a column denotes: a non-empty all-digit column whose value
/// fits in 64 bits, and nothing else.
pub open spec fn parse_u64_spec(t: Seq<char>) -> Option<u64> {
    if t.len() > 0 && all_digits(t) && dec_value(t) <= u64::MAX {
        Some(dec_value(t) as u64)
    } else {
        None
    }
}

/// What one line of the counter table denotes: the interface name without
/// its trailing colon and the two byte counters, for a line with at least
/// 17 columns whose receive (column 2) and transmit (column 10) counters
/// parse; nothing otherwise.
pub open spec fn parse_line_spec(line: Seq<char>) -> Option<LinuxStatsView> {
    let cols = split_columns(line);
    if cols.len() < 17 {
        None
    } else {
        match (parse_u64_spec(cols[1]), parse_u64_spec(cols[9])) {
            (Some(rx), Some(tx)) => Some(
                LinuxStatsView { name: strip_trailing(cols[0], ':'), rx, tx },
            ),
            _ => None,
        }
    }
}

/// The function taking each line to what it denotes.
pub open spec fn parse_line_fn() -> spec_fn(Seq<char>) -> Option<LinuxStatsView> {
    |l: Seq<char>| parse_line_spec(l)
}

/// What the whole counter table denotes: every parseable row after the
/// two header lines, in order.
pub open spec fn parse_net_dev_spec(s: Seq<char>) -> Seq<LinuxStatsView> {
    let lines = split_lines(s);
    if lines.len() < 2 {
        Seq::empty()
    } else {
        lines.skip(2).filter_map(parse_line_fn())
    }
}

/// The lines of `h`.
fn split_lines_exec(h: &Vec<char>) -> (r: Vec<Vec<char>>)
    ensures
        r@.map_values(|v: Vec<char>| v@) == split_lines(h@),
{
    let n = h.len();
    let mut out: Vec<Vec<char>> = Vec::new();
    let mut cur: Vec<char> = Vec::new();
    let mut i: usize = 0;
    proof {
        assert(h@.skip(0) =~= h@);
        assert(out@.map_values(|v: Vec<char>| v@) =~= Seq::<Seq<char>>::empty());
    }
    while i < n
        invariant
            n == h@.len(),
            i <= n,
            split_lines(h@) == out@.map_values(|v: Vec<char>| v@) + split_lines_acc(
                h@.skip(i as int),
                cur@,
            ),
        decreases n - i,
    {
        let ghost rest = h@.skip(i as int);
        let ghost out0 = out@;
        let ghost cur0 = cur@;
        let c = h[i];
        proof {
            assert(rest[0] == c);
            assert(rest.drop_first() =~= h@.skip(i + 1));
        }
        if c == '\n' {
            out.push(cur);
            cur = Vec::new();
            proof {
                assert(out@.map_values(|v: Vec<char>| v@) =~= out0.map_values(
                    |v: Vec<char>| v@,
                ).push(cur0));
                assert(out0.map_values(|v: Vec<char>| v@) + (seq![cur0] + split_lines_acc(
                    h@.skip(i + 1),
                    Seq::empty(),
                )) =~= out@.map_values(|v: Vec<char>| v@) + split_lines_acc(
                    h@.skip(i + 1),
                    Seq::empty(),
                ));
            }
        } else {
            cur.push(c);
            proof {
                assert(cur@ =~= cur0.push(c));
            }
        }
        i += 1;
    }
    proof {
        assert(h@.skip(n as int) =~= Seq::<char>::empty());
    }
    if cur.len() > 0 {
        let ghost out0 = out@;
        let ghost cur0 = cur@;
        out.push(cur);
        proof {
            assert(out@.map_values(|v: Vec<char>| v@) =~= out0.map_values(|v: Vec<char>| v@)
                + seq![cur0]);
        }
    } else {
        proof {
            assert(out@.map_values(|v: Vec<char>| v@) + Seq::<Seq<char>>::empty() =~= out@
                .map_values(|v: Vec<char>| v@));
        }
    }
    out
}

/// The whitespace-separated columns of `h`.
fn split_columns_exec(h: &Vec<char>) -> (r: Vec<Vec<char>>)
    ensures
        r@.map_values(|v: Vec<char>| v@) == split_columns(h@),
{
    let n = h.len();
    let mut out: Vec<Vec<char>> = Vec::new();
    let mut cur: Vec<char> = Vec::new();
    let mut i: usize = 0;
    proof {
        assert(h@.skip(0) =~= h@);
        assert(out@.map_values(|v: Vec<char>| v@) =~= Seq::<Seq<char>>::empty());
    }
    while i < n
        invariant
            n == h@.len(),
            i <= n,
            split_columns(h@) == out@.map_values(|v: Vec<char>| v@) + split_columns_acc(
                h@.skip(i as int),
                cur@,
            ),
        decreases n - i,
    {
        let ghost rest = h@.skip(i as int);
        let ghost out0 = out@;
        let ghost cur0 = cur@;
        let c = h[i];
        proof {
            assert(rest[0] == c);
            assert(rest.drop_first() =~= h@.skip(i + 1));
        }
        if c == ' ' || c == '\t' || c == '\r' {
            proof {
                assert(is_blank(rest[0]));
            }
            if cur.len() > 0 {
                out.push(cur);
                cur = Vec::new();
                proof {
                    assert(split_columns_acc(rest, cur0) == seq![cur0] + split_columns_acc(
                        h@.skip(i + 1),
                        Seq::empty(),
                    ));
                    assert(out@.map_values(|v: Vec<char>| v@) =~= out0.map_values(
                        |v: Vec<char>| v@,
                    ).push(cur0));
                    assert(out0.map_values(|v: Vec<char>| v@) + (seq![cur0] + split_columns_acc(
                        h@.skip(i + 1),
                        Seq::empty(),
                    )) =~= out@.map_values(|v: Vec<char>| v@) + split_columns_acc(
                        h@.skip(i + 1),
                        Seq::empty(),
                    ));
                }
            } else {
                proof {
                    assert(cur0 =~= Seq::<char>::empty());
                    assert(split_columns_acc(rest, cur0) == split_columns_acc(
                        h@.skip(i + 1),
                        Seq::empty(),
                    ));
                }
            }
        } else {
            cur.push(c);
            proof {
                assert(cur@ =~= cur0.push(c));
            }
        }
        i += 1;
    }
    proof {
        assert(h@.skip(n as int) =~= Seq::<char>::empty());
    }
    if cur.len() > 0 {
        let ghost out0 = out@;
        let ghost cur0 = cur@;
        out.push(cur);
        proof {
            assert(out@.map_values(|v: Vec<char>| v@) =~= out0.map_values(|v: Vec<char>| v@)
                + seq![cur0]);
        }
    } else {
        proof {
            assert(out@.map_values(|v: Vec<char>| v@) + Seq::<Seq<char>>::empty() =~= out@
                .map_values(|v: Vec<char>| v@));
        }
    }
    out
}

/// The value of a longer digit prefix is at least the value of a shorter
/// one.
proof fn lemma_dec_value_take_monotone(t: Seq<char>, a: int, b: int)
    requires
        0 <= a <= b <= t.len(),
    ensures
        dec_value(t.take(a)) <= dec_value(t.take(b)),
    decreases b - a,
{
    if a < b {
        lemma_dec_value_take_monotone(t, a, b - 1);
        assert(t.take(b).drop_last() =~= t.take(b - 1));
        assert(dec_value(t.take(b)) == dec_value(t.take(b - 1)) * 10 + digit_val(t.take(b).last()));
    }
}

/// The counter a column denotes, if any.
fn parse_u64_chars(t: &Vec<char>) -> (r: Option<u64>)
    ensures
        r == parse_u64_spec(t@),
{
    let n = t.len();
    if n == 0 {
        return None;
    }
    let mut acc: u64 = 0;
    let mut i: usize = 0;
    proof {
        assert(t@.take(0) =~= Seq::<char>::empty());
    }
    while i < n
        invariant
            n == t@.len(),
            i <= n,
            acc as nat == dec_value(t@.take(i as int)),
            forall|j: int| 0 <= j < i ==> is_digit(#[trigger] t@[j]),
        decreases n - i,
    {
        let c = t[i];
        if !('0' <= c && c <= '9') {
            proof {
                assert(!is_digit(t@[i as int]));
            }
            return None;
        }
        let d: u64 = (c as u32 - '0' as u32) as u64;
        let wide: u128 = acc as u128 * 10 + d as u128;
        proof {
            assert(t@.take(i + 1).drop_last() =~= t@.take(i as int));
            assert(t@.take(i + 1).last() == t@[i as int]);
            assert(dec_value(t@.take(i + 1)) == dec_value(t@.take(i as int)) * 10 + digit_val(
                t@[i as int],
            ));
        }
        if wide > u64::MAX as u128 {
            proof {
                lemma_dec_value_take_monotone(t@, i + 1, n as int);
                assert(t@.take(n as int) =~= t@);
                assert(dec_value(t@) > u64::MAX);
            }
            return None;
        }
        acc = wide as u64;
        i += 1;
    }
    proof {
        assert(t@.take(n as int) =~= t@);
        assert(all_digits(t@));
    }
    Some(acc)
}

/// What one line of the counter table denotes, if anything.
pub fn parse_net_dev_line(line: &str) -> (r: Option<LinuxNetworkStats>)
    ensures
        match r {
            Option::Some(e) => parse_line_spec(line@) == Some(e@),
            Option::None => parse_line_spec(line@) is None,
        },
{
    let h = str_chars(line);
    parse_line_chars(&h)
}

/// `parse_net_dev_line` on an already-split character vector.
fn parse_line_chars(line: &Vec<char>) -> (r: Option<LinuxNetworkStats>)
    ensures
        match r {
            Option::Some(e) => parse_line_spec(line@) == Some(e@),
            Option::None => parse_line_spec(line@) is None,
        },
{
    let cols = split_columns_exec(line);
    proof {
        assert(cols@.map_values(|v: Vec<char>| v@).len() == cols@.len());
    }
    if cols.len() < 17 {
        return None;
    }
    proof {
        assert(split_columns(line@)[1] == cols@[1]@);
        assert(split_columns(line@)[9] == cols@[9]@);
        assert(split_columns(line@)[0] == cols@[0]@);
    }
    let rx = match parse_u64_chars(&cols[1]) {
        Option::Some(v) => v,
        Option::None => {
            return None;
        },
    };
    let tx = match parse_u64_chars(&cols[9]) {
        Option::Some(v) => v,
        Option::None => {
            return None;
        },
    };
    let name_chars = strip_trailing_chars(&cols[0], ':');
    let name = chars_to_string(&name_chars);
    Some(LinuxNetworkStats { name, bytes_received: rx, bytes_transmitted: tx })
}

/// Every parseable row of the counter table text, in order, the two
/// header lines skipped.
pub fn parse_proc_net_dev(contents: &str) -> (r: Vec<LinuxNetworkStats>)
    ensures
        linux_views(r@) == parse_net_dev_spec(contents@),
{
    let h = str_chars(contents);
    let lines = split_lines_exec(&h);
    let ghost lseq = split_lines(h@);
    let mut out: Vec<LinuxNetworkStats> = Vec::new();
    let n = lines.len();
    if n < 2 {
        proof {
            assert(linux_views(out@) =~= Seq::<LinuxStatsView>::empty());
        }
        return out;
    }
    let ghost tail = lseq.skip(2);
    let mut i: usize = 2;
    proof {
        assert(lseq.skip(2).take(0) =~= Seq::<Seq<char>>::empty());
        assert(linux_views(out@) =~= Seq::<LinuxStatsView>::empty());
    }
    while i < n
        invariant
            n == lines@.len(),
            lines@.map_values(|v: Vec<char>| v@) == lseq,
            tail == lseq.skip(2),
            2 <= i <= n,
            linux_views(out@) == tail.take(i - 2).filter_map(parse_line_fn()),
        decreases n - i,
    {
        proof {
            assert(tail.len() == n - 2);
            tail.lemma_filter_map_take_succ(parse_line_fn(), i - 2);
            assert(tail[i - 2] == lseq[i as int]);
            assert(lseq[i as int] == lines@[i as int]@);
        }
        let ghost out0 = out@;
        match parse_line_chars(&lines[i]) {
            Option::Some(e) => {
                let ghost evw = e@;
                out.push(e);
                proof {
                    assert(parse_line_fn()(tail[i - 2]) == Some(evw));
                    assert(linux_views(out@) =~= linux_views(out0).push(evw));
                    assert(linux_views(out@) =~= tail.take(i - 2).filter_map(parse_line_fn())
                        + seq![evw]);
                }
            },
            Option::None => {
                proof {
                    assert(parse_line_fn()(tail[i - 2]) is None);
                    assert(tail.take(i - 1).filter_map(parse_line_fn()) =~= tail.take(
                        i - 2,
                    ).filter_map(parse_line_fn()));
                }
            },
        }
        i += 1;
    }
    proof {
        assert(tail.take(n - 2) =~= tail);
    }
    out
}

} // verus!
