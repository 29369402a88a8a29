use vstd::prelude::*;

use crate::text::chars_of;
use vstd::string::*;
use crate::bignum::{
    canonical, decimal_view, decimals_view, digit_at, lemma_low_value_past, lemma_low_value_step,
    lemma_pow10_pos, low_value, pow10, BigNum, Decimal,
};
use crate::text::push_char;
use crate::verdict::PingStats;

verus! {

/// Number of ICMP probes per target. Three keeps it fast while still giving
/// min/avg/max and a rough jitter reading.
pub const PING_COUNT: u32 = 3;

pub open spec fn is_digit(c: char) -> bool {
    '0' <= c && c <= '9'
}

/// Characters that make up the number after `time=`.
pub open spec fn is_number_char(c: char) -> bool {
    is_digit(c) || c == '.'
}

pub open spec fn digit_value(c: char) -> int {
    (c as int) - ('0' as int)
}

/// The key `time=` starts at position `i` of `line`.
pub open spec fn key_at(line: Seq<char>, i: int) -> bool {
    &&& 0 <= i
    &&& i + 5 <= line.len()
    &&& line[i] == 't'
    &&& line[i + 1] == 'i'
    &&& line[i + 2] == 'm'
    &&& line[i + 3] == 'e'
    &&& line[i + 4] == '='
}

/// First position at or after `i` where `time=` starts.
pub open spec fn find_key(line: Seq<char>, i: int) -> Option<int>
    decreases line.len() - i,
{
    if i < 0 || i + 5 > line.len() {
        None
    } else if key_at(line, i) {
        Some(i)
    } else {
        find_key(line, i + 1)
    }
}

/// First position at or after `i` that does not hold a number character.
pub open spec fn number_end(line: Seq<char>, i: int) -> int
    decreases line.len() - i,
{
    if i < 0 || i >= line.len() || !is_number_char(line[i]) {
        i
    } else {
        number_end(line, i + 1)
    }
}

/// First position at or after `i` holding a '.', or the length.
pub open spec fn dot_from(t: Seq<char>, i: int) -> int
    decreases t.len() - i,
{
    if i < 0 || i >= t.len() || t[i] == '.' {
        i
    } else {
        dot_from(t, i + 1)
    }
}

/// Value of a string of decimal digits.
pub open spec fn digits_value(d: Seq<char>) -> int
    decreases d.len(),
{
    if d.len() == 0 {
        0
    } else {
        digits_value(d.drop_last()) * 10 + digit_value(d.last())
    }
}

pub open spec fn all_digits(d: Seq<char>) -> bool {
    forall|i: int| 0 <= i < d.len() ==> is_digit(#[trigger] d[i])
}

/// A number token `digits[.digits]`, read exactly: its digits without the
/// dot as one integer, and the count of digits after the dot, so that its
/// value is `integer / 10^count`. It is well formed when it has at most one
/// '.' and at least one digit, as for `f64`'s `from_str` on such text.
pub open spec fn decimal_parts(t: Seq<char>) -> Option<(nat, nat)> {
    let d = dot_from(t, 0);
    let whole = t.take(d);
    let frac = if d < t.len() {
        t.skip(d + 1)
    } else {
        Seq::<char>::empty()
    };
    if !all_digits(whole) || !all_digits(frac) || (whole.len() == 0 && frac.len() == 0) {
        None
    } else {
        Some((digits_value(whole + frac) as nat, frac.len()))
    }
}

/// The round trip a reply line reports: the number right after the first
/// `time=` of the line.
pub open spec fn line_rtt(line: Seq<char>) -> Option<(nat, nat)> {
    match find_key(line, 0) {
        Some(k) => decimal_parts(line.subrange(k + 5, number_end(line, k + 5))),
        None => None,
    }
}

/// The lines of a text, split at each '\n' (the last one possibly empty).
pub open spec fn lines_of(s: Seq<char>) -> Seq<Seq<char>>
    decreases s.len(),
{
    if s.len() == 0 {
        seq![Seq::<char>::empty()]
    } else {
        let prev = lines_of(s.drop_last());
        if s.last() == '\n' {
            prev.push(Seq::<char>::empty())
        } else {
            prev.update(prev.len() - 1, prev.last().push(s.last()))
        }
    }
}

/// The round trips reported by a sequence of lines, in order.
pub open spec fn rtts_of_lines(lines: Seq<Seq<char>>) -> Seq<(nat, nat)>
    decreases lines.len(),
{
    if lines.len() == 0 {
        Seq::<(nat, nat)>::empty()
    } else {
        rtts_of_lines(lines.drop_last()) + match line_rtt(lines.last()) {
            Some(v) => seq![v],
            None => Seq::<(nat, nat)>::empty(),
        }
    }
}

/// Every round trip in a ping output, in order.
pub open spec fn rtts_spec(s: Seq<char>) -> Seq<(nat, nat)> {
    rtts_of_lines(lines_of(s))
}

proof fn lemma_lines_nonempty(s: Seq<char>)
    ensures
        lines_of(s).len() >= 1,
    decreases s.len(),
{
    if s.len() > 0 {
        lemma_lines_nonempty(s.drop_last());
    }
}

/// Splitting at a newline: the lines of `a + "\n" + b` are those of `a`
/// followed by those of `b`.
proof fn lemma_lines_of_join(a: Seq<char>, b: Seq<char>)
    ensures
        lines_of(a + seq!['\n'] + b) == lines_of(a) + lines_of(b),
    decreases b.len(),
{
    let nl = a + seq!['\n'];
    if b.len() == 0 {
        assert(nl + b =~= nl);
        assert(nl.drop_last() =~= a);
        assert(lines_of(a).push(Seq::<char>::empty()) =~= lines_of(a) + lines_of(b));
    } else {
        lemma_lines_of_join(a, b.drop_last());
        lemma_lines_nonempty(b.drop_last());
        let s = nl + b;
        assert(s.drop_last() =~= nl + b.drop_last());
        assert(s.last() == b.last());
        let la = lines_of(a);
        let lb = lines_of(b.drop_last());
        if b.last() == '\n' {
            assert((la + lb).push(Seq::<char>::empty()) =~= la + lb.push(Seq::<char>::empty()));
        } else {
            let joined = la + lb;
            assert(joined.last() == lb.last());
            assert(joined.update(joined.len() - 1, joined.last().push(b.last())) =~= la + lb.update(
                lb.len() - 1,
                lb.last().push(b.last()),
            ));
        }
    }
}

/// Round trips of concatenated line lists concatenate.
proof fn lemma_rtts_of_lines_concat(x: Seq<Seq<char>>, y: Seq<Seq<char>>)
    ensures
        rtts_of_lines(x + y) == rtts_of_lines(x) + rtts_of_lines(y),
    decreases y.len(),
{
    if y.len() == 0 {
        assert(x + y =~= x);
        assert(rtts_of_lines(x) + Seq::<(nat, nat)>::empty() =~= rtts_of_lines(x));
    } else {
        lemma_rtts_of_lines_concat(x, y.drop_last());
        assert((x + y).drop_last() =~= x + y.drop_last());
        assert((x + y).last() == y.last());
        let tail = match line_rtt(y.last()) {
            Some(v) => seq![v],
            None => Seq::<(nat, nat)>::empty(),
        };
        assert(rtts_of_lines(x) + rtts_of_lines(y.drop_last()) + tail =~= rtts_of_lines(x) + (
        rtts_of_lines(y.drop_last()) + tail));
    }
}

/// The parse is line by line: the round trips of two outputs joined by a
/// newline are those of the first followed by those of the second.
pub proof fn lemma_rtts_line_by_line(a: Seq<char>, b: Seq<char>)
    ensures
        rtts_spec(a + seq!['\n'] + b) == rtts_spec(a) + rtts_spec(b),
{
    lemma_lines_of_join(a, b);
    lemma_rtts_of_lines_concat(lines_of(a), lines_of(b));
}

fn digit_of(c: char) -> (r: u64)
    requires
        is_digit(c),
    ensures
        r == digit_value(c),
        r <= 9,
{
    (c as u32 - '0' as u32) as u64
}

/// Reads a number token exactly.
fn decimal_of(t: &Vec<char>) -> (r: Option<Decimal>)
    ensures
        r matches Some(d) ==> canonical(d.mantissa.digits@),
        match decimal_parts(t@) {
            Some(parts) => r matches Some(d) && decimal_view(d) == parts,
            None => r is None,
        },
{
    let n = t.len();
    // The integer the digits read so far spell.
    let mut acc = BigNum::zero();
    let mut i: usize = 0;
    while i < n && t[i] != '.'
        invariant
            i <= n == t@.len(),
            dot_from(t@, i as int) == dot_from(t@, 0),
            all_digits(t@.take(i as int)),
            acc@ == digits_value(t@.take(i as int)),
            canonical(acc.digits@),
        decreases n - i,
    {
        if !('0' <= t[i] && t[i] <= '9') {
            proof {
                let d = dot_from(t@, 0);
                assert(dot_from(t@, i as int + 1) == d);
                lemma_dot_from_after(t@, i as int + 1);
                assert(i < d);
                assert(t@.take(d)[i as int] == t@[i as int]);
            }
            return None;
        }
        let ghost prev = t@.take(i as int);
        let d = digit_of(t[i]);
        proof {
            assert(t@.take(i + 1).drop_last() =~= prev);
            assert forall|k: int| 0 <= k < i + 1 implies is_digit(#[trigger] t@.take(i + 1)[k]) by {
                if k < i {
                    assert(t@.take(i + 1)[k] == prev[k]);
                }
            }
        }
        acc = acc.mul_add(10, d);
        i = i + 1;
    }
    let ghost dot = dot_from(t@, 0);
    assert(dot == i);
    let ghost whole = t@.take(i as int);
    let ghost frac = if dot < t@.len() {
        t@.skip(dot + 1)
    } else {
        Seq::<char>::empty()
    };
    let mut scale: usize = 0;
    if i < n {
        let mut j: usize = i + 1;
        while j < n
            invariant
                i < n == t@.len(),
                i + 1 <= j <= n,
                frac == t@.skip(i + 1),
                whole == t@.take(i as int),
                dot_from(t@, 0) == i,
                scale == j - (i + 1),
                forall|k: int| 0 <= k < scale ==> is_digit(#[trigger] frac[k]),
                acc@ == digits_value(whole + frac.take(scale as int)),
                canonical(acc.digits@),
            decreases n - j,
        {
            if !('0' <= t[j] && t[j] <= '9') {
                assert(frac[j - (i + 1)] == t@[j as int]);
                assert(!is_digit(frac[j - (i + 1)]));
                assert(!all_digits(frac));
                return None;
            }
            let d = digit_of(t[j]);
            proof {
                assert(frac[scale as int] == t@[j as int]);
                let before = whole + frac.take(scale as int);
                assert((whole + frac.take(scale + 1)).drop_last() =~= before);
                assert((whole + frac.take(scale + 1)).last() == t@[j as int]);
            }
            acc = acc.mul_add(10, d);
            scale = scale + 1;
            j = j + 1;
        }
        assert(frac.take(scale as int) =~= frac);
    } else {
        assert(frac =~= Seq::<char>::empty());
        assert(whole + frac =~= whole);
    }
    assert(all_digits(frac));
    if i == 0 && n <= 1 {
        assert(frac.len() == 0);
        assert(whole.len() == 0);
        return None;
    }
    proof {
        if i < n {
            assert(frac.len() == n - i - 1);
        }
        assert(whole.len() > 0 || frac.len() > 0);
    }
    Some(Decimal { mantissa: acc, scale })
}

/// Every position between `i` and the next '.' holds something else.
proof fn lemma_dot_from_after(t: Seq<char>, i: int)
    requires
        0 <= i,
    ensures
        i <= dot_from(t, i),
        dot_from(t, i) <= t.len() || dot_from(t, i) == i,
        forall|k: int| i <= k < dot_from(t, i) ==> t[k] != '.',
        dot_from(t, i) < t.len() ==> t[dot_from(t, i)] == '.',
    decreases t.len() - i,
{
    if i < t.len() && t[i] != '.' {
        lemma_dot_from_after(t, i + 1);
    }
}

/// The round trip a reply line reports, if any.
fn rtt_in_line(line: &Vec<char>) -> (r: Option<Decimal>)
    ensures
        match line_rtt(line@) {
            Some(parts) => r matches Some(d) && decimal_view(d) == parts,
            None => r is None,
        },
{
    let n = line.len();
    let mut j: usize = 0;
    while j < n && n - j >= 5
        invariant
            j <= n == line@.len(),
            find_key(line@, j as int) == find_key(line@, 0),
        decreases n - j,
    {
        if line[j] == 't' && line[j + 1] == 'i' && line[j + 2] == 'm' && line[j + 3] == 'e'
            && line[j + 4] == '=' {
            assert(key_at(line@, j as int));
            let start = j + 5;
            let mut e = start;
            let mut tok: Vec<char> = Vec::new();
            while e < n && (('0' <= line[e] && line[e] <= '9') || line[e] == '.')
                invariant
                    start <= e <= n == line@.len(),
                    number_end(line@, e as int) == number_end(line@, start as int),
                    tok@ == line@.subrange(start as int, e as int),
                decreases n - e,
            {
                tok.push(line[e]);
                e = e + 1;
                assert(tok@ =~= line@.subrange(start as int, e as int));
            }
            return decimal_of(&tok);
        }
        j = j + 1;
    }
    None
}

impl Decimal {
    /// Reads a decimal number written `digits[.digits]` exactly, as `f64`'s
    /// `from_str` accepts such text; `None` for anything else.
    pub fn parse(text: &str) -> (r: Option<Decimal>)
        ensures
            match decimal_parts(text@) {
                Some(parts) => r matches Some(d) && decimal_view(d) == parts,
                None => r is None,
            },
    {
        let cs = chars_of(text);
        decimal_of(&cs)
    }
}

/// The character of a decimal digit.
fn digit_char(d: u8) -> (c: char)
    requires
        d < 10,
    ensures
        is_digit(c),
        digit_value(c) == d,
{
    if d == 0 {
        '0'
    } else if d == 1 {
        '1'
    } else if d == 2 {
        '2'
    } else if d == 3 {
        '3'
    } else if d == 4 {
        '4'
    } else if d == 5 {
        '5'
    } else if d == 6 {
        '6'
    } else if d == 7 {
        '7'
    } else if d == 8 {
        '8'
    } else {
        '9'
    }
}

/// In digits followed by a '.', the first '.' is the one after the digits.
proof fn lemma_dot_after_digits(whole: Seq<char>, rest: Seq<char>, i: int)
    requires
        all_digits(whole),
        0 <= i <= whole.len(),
        rest.len() > 0,
        rest[0] == '.',
    ensures
        dot_from(whole + rest, i) == whole.len(),
    decreases whole.len() - i,
{
    let t = whole + rest;
    if i < whole.len() {
        assert(t[i] == whole[i]);
        assert(is_digit(whole[i]));
        lemma_dot_after_digits(whole, rest, i + 1);
    } else {
        assert(t[i] == rest[0]);
    }
}

/// Digits alone have no '.'.
proof fn lemma_no_dot_in_digits(whole: Seq<char>, i: int)
    requires
        all_digits(whole),
        0 <= i <= whole.len(),
    ensures
        dot_from(whole, i) == whole.len(),
    decreases whole.len() - i,
{
    if i < whole.len() {
        assert(is_digit(whole[i]));
        lemma_no_dot_in_digits(whole, i + 1);
    }
}

impl Decimal {
    /// The decimal written out: its digits, most significant first, with a
    /// '.' before the last `scale` of them and at least one digit before the
    /// '.'. Reading the text back gives the same decimal.
    pub fn to_text(&self) -> (r: String)
        requires
            self.scale < usize::MAX,
        ensures
            decimal_parts(r@) == Some(decimal_view(*self)),
    {
        let m = self.mantissa.normalized();
        let ds = &m.digits;
        let scale = self.scale;
        // Digits to write: all of the mantissa's, and at least `scale + 1`.
        let width: usize = if ds.len() > scale {
            ds.len()
        } else {
            scale + 1
        };
        proof {
            lemma_low_value_past(ds@, width as nat);
        }
        let mut whole: Vec<char> = Vec::new();
        let mut frac: Vec<char> = Vec::new();
        let ghost mut digs: Seq<char> = Seq::empty();
        let mut j: usize = width;
        proof {
            lemma_pow10_pos(width as nat);
            assert(digits_value(digs) == 0);
            assert(0 * pow10(width as nat) == 0) by (nonlinear_arith);
        }
        while j > 0
            invariant
                j <= width,
                width > scale,
                width >= ds@.len(),
                canonical(ds@),
                m@ == self.mantissa@,
                all_digits(whole@),
                all_digits(frac@),
                j >= scale ==> frac@.len() == 0 && whole@.len() == width - j,
                j < scale ==> whole@.len() == width - scale && frac@.len() == scale - j,
                digs == whole@ + frac@,
                all_digits(digs),
                digits_value(digs) * pow10(j as nat) + low_value(ds@, j as nat) == m@,
            decreases j,
        {
            j = j - 1;
            let d: u8 = if j < ds.len() {
                ds[j]
            } else {
                0
            };
            assert(d < 10);
            let c = digit_char(d);
            let ghost before = digs;
            if j >= scale {
                whole.push(c);
            } else {
                frac.push(c);
            }
            proof {
                digs = whole@ + frac@;
                assert(digs =~= before.push(c));
                assert(digs.drop_last() =~= before);
                assert(digits_value(digs) == digits_value(before) * 10 + d);
                lemma_low_value_step(ds@, j as nat);
                assert(digit_at(ds@, j as int) == d);
                let p = pow10(j as nat);
                assert(pow10((j + 1) as nat) == 10 * p);
                assert(digits_value(before) * (10 * p) + low_value(ds@, j as nat) + d * p
                    == (digits_value(before) * 10 + d) * p + low_value(ds@, j as nat))
                    by (nonlinear_arith);
                assert forall|k: int| 0 <= k < digs.len() implies is_digit(#[trigger] digs[k]) by {
                    if k < before.len() {
                        assert(digs[k] == before[k]);
                    }
                }
                assert forall|k: int| 0 <= k < whole@.len() implies is_digit(#[trigger] whole@[k])
                    by {
                    assert(whole@[k] == digs[k]);
                }
                assert forall|k: int| 0 <= k < frac@.len() implies is_digit(#[trigger] frac@[k])
                    by {
                    assert(frac@[k] == digs[whole@.len() + k]);
                }
            }
        }
        proof {
            assert(pow10(0) == 1);
            assert(low_value(ds@, 0) == 0);
            let dv = digits_value(digs);
            assert(dv * pow10(0) == dv) by (nonlinear_arith)
                requires
                    pow10(0) == 1,
            ;
            assert(digits_value(digs) == m@);
        }
        let mut out = String::new();
        let mut i: usize = 0;
        while i < whole.len()
            invariant
                i <= whole@.len(),
                out@ == whole@.take(i as int),
            decreases whole@.len() - i,
        {
            push_char(&mut out, whole[i]);
            i = i + 1;
            assert(out@ =~= whole@.take(i as int));
        }
        assert(whole@.take(whole@.len() as int) =~= whole@);
        if scale > 0 {
            push_char(&mut out, '.');
            let ghost head = out@;
            let mut k: usize = 0;
            while k < frac.len()
                invariant
                    k <= frac@.len(),
                    out@ == head + frac@.take(k as int),
                decreases frac@.len() - k,
            {
                push_char(&mut out, frac[k]);
                k = k + 1;
                assert(out@ =~= head + frac@.take(k as int));
            }
            proof {
                assert(frac@.take(frac@.len() as int) =~= frac@);
                let rest = seq!['.'] + frac@;
                assert(out@ =~= whole@ + rest);
                lemma_dot_after_digits(whole@, rest, 0);
                assert(out@.take(whole@.len() as int) =~= whole@);
                assert(out@.skip(whole@.len() + 1int) =~= frac@);
            }
        } else {
            proof {
                lemma_no_dot_in_digits(whole@, 0);
                assert(out@.take(whole@.len() as int) =~= whole@);
                assert(frac@ =~= Seq::<char>::empty());
                assert(whole@ + frac@ =~= whole@);
            }
        }
        out
    }
}

/// Pull the `time=X` value out of a single reply line, exactly as written.
pub fn extract_time_from_line(line: &str) -> (r: Option<Decimal>)
    ensures
        match line_rtt(line@) {
            Some(parts) => r matches Some(d) && decimal_view(d) == parts,
            None => r is None,
        },
{
    let cs = chars_of(line);
    rtt_in_line(&cs)
}

/// Extract every `time=<number>` value from the output, in order, in
/// milliseconds, exactly as written.
pub fn extract_rtts(stdout: &str) -> (r: Vec<Decimal>)
    ensures
        decimals_view(r@) == rtts_spec(stdout@),
{
    let cs = chars_of(stdout);
    let mut out: Vec<Decimal> = Vec::new();
    let mut cur: Vec<char> = Vec::new();
    let mut i: usize = 0;
    proof {
        assert(cs@.take(0) =~= Seq::<char>::empty());
        assert(lines_of(cs@.take(0)).drop_last() =~= Seq::<Seq<char>>::empty());
        assert(decimals_view(out@) =~= Seq::<(nat, nat)>::empty());
    }
    while i < cs.len()
        invariant
            i <= cs@.len(),
            lines_of(cs@.take(i as int)).len() >= 1,
            decimals_view(out@) == rtts_of_lines(lines_of(cs@.take(i as int)).drop_last()),
            cur@ == lines_of(cs@.take(i as int)).last(),
        decreases cs@.len() - i,
    {
        let c = cs[i];
        let ghost before = lines_of(cs@.take(i as int));
        proof {
            assert(cs@.take(i + 1).drop_last() =~= cs@.take(i as int));
            assert(cs@.take(i + 1).last() == c);
        }
        if c == '\n' {
            let ghost old_out = out@;
            match rtt_in_line(&cur) {
                Some(v) => {
                    out.push(v);
                },
                None => {},
            }
            cur = Vec::new();
            proof {
                let after = lines_of(cs@.take(i + 1));
                assert(after == before.push(Seq::<char>::empty()));
                assert(after.drop_last() =~= before);
                assert(before.drop_last() =~= after.drop_last().drop_last());
                assert(cur@ =~= after.last());
                assert(decimals_view(out@) =~= decimals_view(old_out) + match line_rtt(before.last()) {
                    Some(v) => seq![v],
                    None => Seq::<(nat, nat)>::empty(),
                });
            }
        } else {
            cur.push(c);
            proof {
                let after = lines_of(cs@.take(i + 1));
                assert(after.drop_last() =~= before.drop_last());
            }
        }
        i = i + 1;
    }
    let ghost old_out = out@;
    match rtt_in_line(&cur) {
        Some(v) => {
            out.push(v);
        },
        None => {},
    }
    proof {
        assert(cs@.take(cs@.len() as int) =~= cs@);
        assert(decimals_view(out@) =~= decimals_view(old_out) + match line_rtt(cur@) {
            Some(v) => seq![v],
            None => Seq::<(nat, nat)>::empty(),
        });
    }
    out
}

/// Parse ping stdout into PingStats: the target's name, every reply's round
/// trip, the packets sent, and as packets received the count of replies
/// (cast to `u32`, as the counters are).
pub fn parse_ping_output(host: &str, sent: u32, stdout: &str, _stderr: &str) -> (r: PingStats)
    ensures
        r.target@ == host@,
        decimals_view(r.samples_ms@) == rtts_spec(stdout@),
        r.packets_sent == sent,
        r.packets_received == r.samples_ms@.len() as u32,
{
    let samples = extract_rtts(stdout);
    let received = samples.len() as u32;
    PingStats {
        target: String::from_str(host),
        samples_ms: samples,
        packets_sent: sent,
        packets_received: received,
    }
}

} // verus!
