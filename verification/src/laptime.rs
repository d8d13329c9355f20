//! Lap times: text of the form `"M:SS.mmm"` or `"SS.mmm"` and the number of
//! milliseconds that it stands for.
use vstd::prelude::*;
use crate::text::{split, split_from, find_from, matches_at, split_chars, lemma_split_nonempty, lemma_find_from, string_from_chars};

verus! {

pub open spec fn is_digit(c: char) -> bool {
    '0' <= c && c <= '9'
}

pub open spec fn digit_value(c: char) -> int {
    c as int - '0' as int
}

pub open spec fn digit_char(d: int) -> char {
    ('0' as int + d) as char
}

pub open spec fn all_digits(s: Seq<char>) -> bool {
    forall|i: int| 0 <= i < s.len() ==> #[trigger] is_digit(s[i])
}

/// The number written by the decimal digits `s`.
pub open spec fn digits_value(s: Seq<char>) -> int
    decreases s.len(),
{
    if s.len() == 0 {
        0
    } else {
        digits_value(s.drop_last()) * 10 + digit_value(s.last())
    }
}

/// What `str::parse::<u64>` gives: an optional `'+'`, then at least one
/// decimal digit and nothing else, the value fitting in a `u64`.
pub open spec fn parse_u64(s: Seq<char>) -> Option<int> {
    let d = if s.len() > 0 && s[0] == '+' {
        s.drop_first()
    } else {
        s
    };
    if d.len() > 0 && all_digits(d) && digits_value(d) <= u64::MAX {
        Some(digits_value(d))
    } else {
        None
    }
}

pub open spec fn as_int_opt(o: Option<u64>) -> Option<int> {
    match o {
        Some(v) => Some(v as int),
        None => None,
    }
}

/// The milliseconds that a lap time stands for, computed without bound.
///
/// The text is split at `':'`; with exactly two pieces the first is the
/// minutes, else the minutes are 0 and the first piece holds the rest. The
/// rest must split at `'.'` into exactly seconds and milliseconds.
pub open spec fn lap_millis(t: Seq<char>) -> Option<int> {
    let parts = split(t, seq![':']);
    let minutes = if parts.len() != 2 {
        Some(0int)
    } else {
        parse_u64(parts[0])
    };
    let rest = if parts.len() != 2 {
        parts[0]
    } else {
        parts[1]
    };
    let sm = split(rest, seq!['.']);
    match minutes {
        None => None,
        Some(m) => if sm.len() != 2 {
            None
        } else {
            match (parse_u64(sm[0]), parse_u64(sm[1])) {
                (Some(s), Some(ms)) => Some(m * 60000 + s * 1000 + ms),
                _ => None,
            }
        },
    }
}

/// The lap time text is read without overflowing a `u64`.
pub open spec fn lap_fits(t: Seq<char>) -> bool {
    lap_millis(t) matches Some(v) ==> v <= u64::MAX
}

/// The decimal digits of `n`, without leading zeros (`{}`, `{:01}`).
pub open spec fn decimal(n: nat) -> Seq<char>
    decreases n,
{
    if n < 10 {
        seq![digit_char(n as int)]
    } else {
        decimal(n / 10).push(digit_char((n % 10) as int))
    }
}

/// Two digits, with a leading zero (`{:02}` of a number below 100).
pub open spec fn two_digits(n: int) -> Seq<char> {
    seq![digit_char(n / 10), digit_char(n % 10)]
}

/// Three digits, with leading zeros (`{:03}` of a number below 1000).
pub open spec fn three_digits(n: int) -> Seq<char> {
    seq![digit_char(n / 100), digit_char((n / 10) % 10), digit_char(n % 10)]
}

/// The text of a lap time: `"SS.mmm"` below one minute, else `"M:SS.mmm"`.
pub open spec fn lap_text(ms: nat) -> Seq<char> {
    let minutes = ms / 60000;
    let seconds = (ms % 60000) / 1000;
    let millis = ms % 1000;
    let tail = two_digits(seconds as int) + seq!['.'] + three_digits(millis as int);
    if minutes == 0 {
        tail
    } else {
        decimal(minutes) + seq![':'] + tail
    }
}

proof fn lemma_digit(d: int)
    requires
        0 <= d <= 9,
    ensures
        is_digit(digit_char(d)),
        digit_value(digit_char(d)) == d,
        digit_char(d) != '+',
        digit_char(d) != ':',
        digit_char(d) != '.',
{
}

proof fn lemma_digits_prefix_le(d: Seq<char>, k: int)
    requires
        all_digits(d),
        0 <= k <= d.len(),
    ensures
        0 <= digits_value(d.take(k)) <= digits_value(d),
    decreases d.len() - k,
{
    if k == d.len() {
        assert(d.take(k) =~= d);
        lemma_digits_nonneg(d);
    } else {
        lemma_digits_prefix_le(d, k + 1);
        assert(d.take(k + 1).drop_last() =~= d.take(k));
        assert(is_digit(d[k]));
        lemma_digits_nonneg(d.take(k));
    }
}

proof fn lemma_digits_nonneg(d: Seq<char>)
    requires
        all_digits(d),
    ensures
        digits_value(d) >= 0,
    decreases d.len(),
{
    if d.len() > 0 {
        assert(is_digit(d[d.len() - 1]));
        lemma_digits_nonneg(d.drop_last());
    }
}

fn digit_exec(d: u64) -> (c: char)
    requires
        d <= 9,
    ensures
        c == digit_char(d as int),
{
    ((d as u8) + 48u8) as char
}

/// Reads a `u64` as `str::parse::<u64>` does.
pub fn parse_u64_chars(s: &[char]) -> (r: Option<u64>)
    ensures
        as_int_opt(r) == parse_u64(s@),
{
    let start: usize = if s.len() > 0 && s[0] == '+' {
        1
    } else {
        0
    };
    let ghost d = if s.len() > 0 && s[0] == '+' {
        s@.drop_first()
    } else {
        s@
    };
    assert(d =~= s@.skip(start as int));
    if start >= s.len() {
        return None;
    }
    let mut acc: u64 = 0;
    let mut k: usize = start;
    while k < s.len()
        invariant
            start <= k <= s.len(),
            start < s.len(),
            d == s@.skip(start as int),
            d == (if s.len() > 0 && s@[0] == '+' {
                s@.drop_first()
            } else {
                s@
            }),
            all_digits(d.take(k - start)),
            acc == digits_value(d.take(k - start)),
        decreases s.len() - k,
    {
        let c = s[k];
        assert(c == d[k - start]);
        if !('0' <= c && c <= '9') {
            assert(!is_digit(d[k - start]));
            assert(!all_digits(d));
            return None;
        }
        let dv: u64 = (c as u32 - '0' as u32) as u64;
        assert(d.take(k - start + 1).drop_last() =~= d.take(k - start));
        if acc > (u64::MAX - dv) / 10 {
            proof {
                assert(acc * 10 + dv > u64::MAX) by (nonlinear_arith)
                    requires
                        acc > (u64::MAX - dv) / 10,
                        dv <= 9,
                ;
                if all_digits(d) {
                    lemma_digits_prefix_le(d, k - start + 1);
                }
            }
            return None;
        }
        assert(acc * 10 + dv <= u64::MAX) by (nonlinear_arith)
            requires
                acc <= (u64::MAX - dv) / 10,
                dv <= 9,
        ;
        acc = acc * 10 + dv;
        k += 1;
        assert(all_digits(d.take(k - start))) by {
            assert forall|i: int| 0 <= i < k - start implies #[trigger] is_digit(
                d.take(k - start)[i],
            ) by {
                if i < k - start - 1 {
                    assert(d.take(k - start)[i] == d.take(k - start - 1)[i]);
                }
            }
        }
    }
    assert(d.take(k - start) =~= d);
    Some(acc)
}

/// Reads the milliseconds of a lap time. `None` where the reading
/// overflows a `u64` (where `lap_fits` fails), else `Some` of what the
/// reading gives.
pub fn lap_millis_checked(t: &[char]) -> (r: Option<Option<u64>>)
    ensures
        r is None <==> !lap_fits(t@),
        r matches Some(v) ==> as_int_opt(v) == lap_millis(t@),
{
    let colon: Vec<char> = vec![':'];
    let dot: Vec<char> = vec!['.'];
    assert(colon@ =~= seq![':']);
    assert(dot@ =~= seq!['.']);
    let parts = split_chars(t, &colon);
    proof {
        lemma_split_nonempty(t@, seq![':'], 0);
    }
    let minutes: u64;
    let rest: &Vec<char>;
    if parts.len() != 2 {
        minutes = 0;
        rest = &parts[0];
    } else {
        match parse_u64_chars(&parts[0]) {
            Some(m) => {
                minutes = m;
            },
            None => {
                return Some(None);
            },
        }
        rest = &parts[1];
    }
    let sm = split_chars(rest, &dot);
    if sm.len() != 2 {
        return Some(None);
    }
    let seconds = match parse_u64_chars(&sm[0]) {
        Some(v) => v,
        None => {
            return Some(None);
        },
    };
    let millis = match parse_u64_chars(&sm[1]) {
        Some(v) => v,
        None => {
            return Some(None);
        },
    };
    let ghost total: int = minutes * 60000 + seconds * 1000 + millis;
    assert(lap_millis(t@) == Some(total));
    if minutes > u64::MAX / 60000 {
        assert(total > u64::MAX) by (nonlinear_arith)
            requires
                minutes > u64::MAX / 60000,
                total == minutes * 60000 + seconds * 1000 + millis,
                seconds >= 0,
                millis >= 0,
        ;
        return None;
    }
    assert(minutes * 60 * 1000 == minutes * 60000 && minutes * 60000 <= u64::MAX) by (
    nonlinear_arith)
        requires
            minutes <= u64::MAX / 60000,
    ;
    let m_ms = minutes * 60 * 1000;
    if seconds > (u64::MAX - m_ms) / 1000 {
        assert(total > u64::MAX) by (nonlinear_arith)
            requires
                seconds > (u64::MAX - m_ms) / 1000,
                m_ms <= u64::MAX,
                total == m_ms + seconds * 1000 + millis,
                millis >= 0,
        ;
        return None;
    }
    assert(m_ms + seconds * 1000 <= u64::MAX) by (nonlinear_arith)
        requires
            seconds <= (u64::MAX - m_ms) / 1000,
            m_ms <= u64::MAX,
    ;
    let base = m_ms + seconds * 1000;
    if millis > u64::MAX - base {
        return None;
    }
    Some(Some(base + millis))
}

/// Reads a lap time as milliseconds: `Some` where `lap_millis` reads it.
pub fn lap_time_to_milliseconds(lap_time: &str) -> (r: Option<u64>)
    requires
        lap_fits(lap_time@),
    ensures
        as_int_opt(r) == lap_millis(lap_time@),
{
    let t = crate::text::chars_of(lap_time);
    match lap_millis_checked(&t) {
        Some(v) => v,
        None => None,
    }
}

fn push_decimal(out: &mut Vec<char>, n: u64)
    ensures
        final(out)@ == old(out)@ + decimal(n as nat),
    decreases n,
{
    if n < 10 {
        out.push(digit_exec(n));
    } else {
        push_decimal(out, n / 10);
        out.push(digit_exec(n % 10));
    }
}

/// Writes milliseconds as a lap time: `"SS.mmm"` below one minute, else
/// `"M:SS.mmm"`.
pub fn milliseconds_to_lap_time(milliseconds: u64) -> (r: String)
    ensures
        r@ == lap_text(milliseconds as nat),
{
    let minutes = milliseconds / 60000;
    let seconds = (milliseconds % 60000) / 1000;
    let millis = milliseconds % 1000;
    let mut out: Vec<char> = Vec::new();
    if minutes != 0 {
        push_decimal(&mut out, minutes);
        out.push(':');
    }
    let ghost head = out@;
    out.push(digit_exec(seconds / 10));
    out.push(digit_exec(seconds % 10));
    out.push('.');
    out.push(digit_exec(millis / 100));
    out.push(digit_exec((millis / 10) % 10));
    out.push(digit_exec(millis % 10));
    proof {
        let tail = two_digits(seconds as int) + seq!['.'] + three_digits(millis as int);
        assert(out@ =~= head + tail);
        if minutes == 0 {
            assert(head =~= seq![]);
        }
    }
    string_from_chars(&out)
}

proof fn lemma_decimal(n: nat)
    ensures
        decimal(n).len() >= 1,
        all_digits(decimal(n)),
        digits_value(decimal(n)) == n,
    decreases n,
{
    if n < 10 {
        lemma_digit(n as int);
        assert(decimal(n).drop_last() =~= seq![]);
        assert(digits_value(decimal(n).drop_last()) == 0);
    } else {
        lemma_decimal(n / 10);
        lemma_digit((n % 10) as int);
        assert(decimal(n).drop_last() =~= decimal(n / 10));
        assert(decimal(n).last() == digit_char((n % 10) as int));
        assert(n == (n / 10) * 10 + n % 10);
        assert(digits_value(decimal(n)) == digits_value(decimal(n / 10)) * 10 + (n % 10));
        let d = decimal(n);
        assert forall|i: int| 0 <= i < d.len() implies #[trigger] is_digit(d[i]) by {
            if i < d.len() - 1 {
                assert(d[i] == decimal(n / 10)[i]);
            }
        }
    }
}

/// The first occurrence of one character: `find_from` names the position `q`
/// when `c` stands at `q` and nowhere in `s[p..q]`.
proof fn lemma_find_char_at(s: Seq<char>, c: char, p: int, q: int)
    requires
        0 <= p <= q < s.len(),
        s[q] == c,
        forall|k: int| p <= k < q ==> s[k] != c,
    ensures
        find_from(s, seq![c], p) == Some(q),
{
    lemma_find_from(s, seq![c], p);
    assert(s.subrange(q, q + 1) =~= seq![c]);
    assert(matches_at(s, seq![c], q));
    match find_from(s, seq![c], p) {
        Some(j) => {
            if j < q {
                assert(s.subrange(j, j + 1)[0] == s[j]);
            }
        },
        None => {},
    }
}

/// No occurrence of one character at or after `p`.
proof fn lemma_find_char_none(s: Seq<char>, c: char, p: int)
    requires
        0 <= p,
        forall|k: int| p <= k < s.len() ==> s[k] != c,
    ensures
        find_from(s, seq![c], p) is None,
{
    lemma_find_from(s, seq![c], p);
    match find_from(s, seq![c], p) {
        Some(j) => {
            assert(s.subrange(j, j + 1)[0] == s[j]);
        },
        None => {},
    }
}

/// Text without `c` is one piece.
proof fn lemma_split_absent(s: Seq<char>, c: char)
    requires
        forall|k: int| 0 <= k < s.len() ==> s[k] != c,
    ensures
        split(s, seq![c]) == seq![s],
{
    lemma_find_char_none(s, c, 0);
    assert(s.subrange(0, s.len() as int) =~= s);
}

/// Text with one `c` is two pieces.
proof fn lemma_split_once(a: Seq<char>, b: Seq<char>, c: char)
    requires
        forall|k: int| 0 <= k < a.len() ==> a[k] != c,
        forall|k: int| 0 <= k < b.len() ==> b[k] != c,
    ensures
        split(a + seq![c] + b, seq![c]) == seq![a, b],
{
    let s = a + seq![c] + b;
    let q = a.len() as int;
    assert forall|k: int| 0 <= k < q implies s[k] != c by {
        assert(s[k] == a[k]);
    }
    lemma_find_char_at(s, c, 0, q);
    assert forall|k: int| q + 1 <= k < s.len() implies s[k] != c by {
        assert(s[k] == b[k - q - 1]);
    }
    lemma_find_char_none(s, c, q + 1);
    assert(s.subrange(0, q) =~= a);
    assert(s.subrange(q + 1, s.len() as int) =~= b);
    assert(split_from(s, seq![c], q + 1) == seq![b]);
    assert(split(s, seq![c]) =~= seq![a, b]);
}

proof fn lemma_two_digits(n: int)
    requires
        0 <= n < 100,
    ensures
        parse_u64(two_digits(n)) == Some(n),
        forall|k: int| 0 <= k < 2 ==> #[trigger] is_digit(two_digits(n)[k]),
{
    let t = two_digits(n);
    lemma_digit(n / 10);
    lemma_digit(n % 10);
    assert(t.drop_last() =~= seq![digit_char(n / 10)]);
    assert(t.drop_last().drop_last() =~= seq![]);
    assert(digits_value(t.drop_last().drop_last()) == 0);
    assert(digits_value(t.drop_last()) == n / 10);
    assert(digits_value(t) == (n / 10) * 10 + n % 10);
    assert(all_digits(t));
}

proof fn lemma_three_digits(n: int)
    requires
        0 <= n < 1000,
    ensures
        parse_u64(three_digits(n)) == Some(n),
        forall|k: int| 0 <= k < 3 ==> #[trigger] is_digit(three_digits(n)[k]),
{
    let t = three_digits(n);
    lemma_digit(n / 100);
    lemma_digit((n / 10) % 10);
    lemma_digit(n % 10);
    assert(t.drop_last() =~= seq![digit_char(n / 100), digit_char((n / 10) % 10)]);
    assert(t.drop_last().drop_last() =~= seq![digit_char(n / 100)]);
    assert(t.drop_last().drop_last().drop_last() =~= seq![]);
    assert(digits_value(t.drop_last().drop_last().drop_last()) == 0);
    assert(digits_value(t.drop_last().drop_last()) == n / 100);
    assert(digits_value(t.drop_last()) == (n / 100) * 10 + (n / 10) % 10);
    assert(digits_value(t) == ((n / 100) * 10 + (n / 10) % 10) * 10 + n % 10);
    assert(all_digits(t));
    assert(n == ((n / 100) * 10 + (n / 10) % 10) * 10 + n % 10) by (nonlinear_arith)
        requires
            0 <= n < 1000,
    ;
}

/// Reading the text of a lap time gives back its milliseconds.
pub proof fn lemma_lap_text_roundtrip(ms: nat)
    requires
        ms <= u64::MAX,
    ensures
        lap_millis(lap_text(ms)) == Some(ms as int),
{
    let minutes = ms / 60000;
    let seconds = (ms % 60000) / 1000;
    let millis = ms % 1000;
    assert(seconds < 60 && millis < 1000 && ms == minutes * 60000 + seconds * 1000 + millis)
        by (nonlinear_arith)
        requires
            minutes == ms / 60000,
            seconds == (ms % 60000) / 1000,
            millis == ms % 1000,
    ;
    let two = two_digits(seconds as int);
    let three = three_digits(millis as int);
    lemma_two_digits(seconds as int);
    lemma_three_digits(millis as int);
    let tail = two + seq!['.'] + three;
    assert forall|k: int| 0 <= k < two.len() implies two[k] != ':' && two[k] != '.' by {
        assert(is_digit(two[k]));
    }
    assert forall|k: int| 0 <= k < three.len() implies three[k] != ':' && three[k] != '.' by {
        assert(is_digit(three[k]));
    }
    assert forall|k: int| 0 <= k < tail.len() implies tail[k] != ':' by {
        if k < 2 {
            assert(tail[k] == two[k]);
        } else if k > 2 {
            assert(tail[k] == three[k - 3]);
        }
    }
    lemma_split_once(two, three, '.');
    if minutes == 0 {
        lemma_split_absent(tail, ':');
        assert(lap_text(ms) == tail);
    } else {
        let dec = decimal(minutes);
        lemma_decimal(minutes);
        assert forall|k: int| 0 <= k < dec.len() implies dec[k] != ':' by {
            assert(is_digit(dec[k]));
        }
        lemma_split_once(dec, tail, ':');
        assert(lap_text(ms) == dec + seq![':'] + tail);
        assert(is_digit(dec[0]));
        assert(parse_u64(dec) == Some(minutes as int));
    }
}

/// Decimal digits are read from left to right: one more digit `c` on the
/// right multiplies the number by ten and adds the value of `c` (`'0'` is 0,
/// `'9'` is 9); no digits at all read as nothing, a leading `'+'` is
/// skipped, and any other character makes the text unreadable.
pub proof fn lemma_parse_u64_digits(s: Seq<char>, c: char)
    ensures
        parse_u64(Seq::empty()) is None,
        parse_u64(seq!['+']) is None,
        '0' <= c <= '9' ==> parse_u64(seq![c]) == Some(c as int - '0' as int),
        all_digits(s) && s.len() > 0 && '0' <= c <= '9' && digits_value(s) * 10 + (c as int
            - '0' as int) <= u64::MAX ==> parse_u64(s.push(c)) == Some(
            digits_value(s) * 10 + (c as int - '0' as int),
        ),
        all_digits(s) && s.len() > 0 && (s[0] != '+') ==> parse_u64(seq!['+'] + s) == parse_u64(s),
        !('0' <= c <= '9') && c != '+' ==> parse_u64(seq![c] + s) is None,
{
    assert(seq![c].drop_last() =~= Seq::<char>::empty());
    if '0' <= c <= '9' {
        assert(digits_value(seq![c].drop_last()) == 0);
        assert(digits_value(seq![c]) == c as int - '0' as int);
        assert(all_digits(seq![c]));
    }
    if all_digits(s) && s.len() > 0 {
        assert(s.push(c).drop_last() =~= s);
        if '0' <= c <= '9' {
            assert(all_digits(s.push(c))) by {
                assert forall|i: int| 0 <= i < s.push(c).len() implies #[trigger] is_digit(
                    s.push(c)[i],
                ) by {
                    if i < s.len() {
                        assert(s.push(c)[i] == s[i]);
                    }
                }
            }
            assert(is_digit(s[0]));
            lemma_digits_nonneg(s);
        }
        assert((seq!['+'] + s).drop_first() =~= s);
    }
    if !('0' <= c <= '9') && c != '+' {
        assert(!is_digit((seq![c] + s)[0]));
    }
}

/// A lap time of decimal digits `"M:SS.mmm"` reads as `M` minutes, `SS`
/// seconds and `mmm` milliseconds, and `"SS.mmm"` as `SS` seconds and `mmm`
/// milliseconds.
pub proof fn lemma_lap_millis_parts(m: Seq<char>, sec: Seq<char>, ms: Seq<char>)
    requires
        m.len() > 0 && all_digits(m) && digits_value(m) <= u64::MAX,
        sec.len() > 0 && all_digits(sec) && digits_value(sec) <= u64::MAX,
        ms.len() > 0 && all_digits(ms) && digits_value(ms) <= u64::MAX,
    ensures
        lap_millis(m + seq![':'] + sec + seq!['.'] + ms) == Some(
            digits_value(m) * 60000 + digits_value(sec) * 1000 + digits_value(ms),
        ),
        lap_millis(sec + seq!['.'] + ms) == Some(digits_value(sec) * 1000 + digits_value(ms)),
{
    assert forall|k: int| 0 <= k < m.len() implies m[k] != ':' && m[k] != '.' && m[k] != '+' by {
        assert(is_digit(m[k]));
    }
    assert forall|k: int| 0 <= k < sec.len() implies sec[k] != ':' && sec[k] != '.' && sec[k] != '+' by {
        assert(is_digit(sec[k]));
    }
    assert forall|k: int| 0 <= k < ms.len() implies ms[k] != ':' && ms[k] != '.' && ms[k] != '+' by {
        assert(is_digit(ms[k]));
    }
    let tail = sec + seq!['.'] + ms;
    assert forall|k: int| 0 <= k < tail.len() implies tail[k] != ':' by {
        if k < sec.len() {
            assert(tail[k] == sec[k]);
        } else if k > sec.len() {
            assert(tail[k] == ms[k - sec.len() - 1]);
        }
    }
    lemma_split_once(sec, ms, '.');
    lemma_split_once(m, tail, ':');
    lemma_split_absent(tail, ':');
    assert(m + seq![':'] + sec + seq!['.'] + ms == m + seq![':'] + tail);
}

proof fn lemma_decimal_lead(n: nat)
    requires
        n >= 1,
    ensures
        decimal(n)[0] != '0',
    decreases n,
{
    if n >= 10 {
        lemma_decimal_lead(n / 10);
        lemma_decimal(n / 10);
        assert(decimal(n)[0] == decimal(n / 10)[0]);
    }
}

/// How a lap time is written: below one minute, two digits of seconds, a
/// `'.'` and three digits of milliseconds (six characters); from one minute
/// on, the minutes without leading zeros, a `':'`, then the same six
/// characters. The two digits read as the seconds within the minute, the
/// three as the milliseconds within the second, and the whole text reads
/// back as the milliseconds written.
pub proof fn lemma_lap_text_shape(ms: nat)
    requires
        ms <= u64::MAX,
    ensures
        ({
            let t = lap_text(ms);
            let n = t.len() as int;
            &&& n >= 6
            &&& t[n - 4] == '.'
            &&& all_digits(t.subrange(n - 6, n - 4)) && all_digits(t.subrange(n - 3, n))
            &&& digits_value(t.subrange(n - 6, n - 4)) == (ms % 60000) / 1000
            &&& digits_value(t.subrange(n - 3, n)) == ms % 1000
            &&& (ms < 60000 ==> n == 6)
            &&& (ms >= 60000 ==> n >= 8 && t[n - 7] == ':' && t[0] != '0' && all_digits(
                t.subrange(0, n - 7),
            ) && digits_value(t.subrange(0, n - 7)) == ms / 60000)
            &&& lap_millis(t) == Some(ms as int)
        }),
{
    lemma_lap_text_roundtrip(ms);
    let minutes = ms / 60000;
    let seconds = (ms % 60000) / 1000;
    let millis = ms % 1000;
    assert(seconds < 60 && millis < 1000) by (nonlinear_arith)
        requires
            seconds == (ms % 60000) / 1000,
            millis == ms % 1000,
    ;
    let two = two_digits(seconds as int);
    let three = three_digits(millis as int);
    lemma_two_digits(seconds as int);
    lemma_three_digits(millis as int);
    let tail = two + seq!['.'] + three;
    let t = lap_text(ms);
    let n = t.len() as int;
    if minutes == 0 {
        assert(t == tail);
    } else {
        let dec = decimal(minutes);
        lemma_decimal(minutes);
        lemma_decimal_lead(minutes);
        assert(t == dec + seq![':'] + tail);
        assert(t.subrange(0, n - 7) =~= dec);
        assert(t[0] == dec[0]);
    }
    assert(t.subrange(n - 6, n - 4) =~= two);
    assert(t.subrange(n - 3, n) =~= three);
    assert(all_digits(two)) by {
        assert forall|k: int| 0 <= k < 2 implies #[trigger] is_digit(two[k]) by {
            assert(is_digit(two_digits(seconds as int)[k]));
        }
    }
    assert(all_digits(three)) by {
        assert forall|k: int| 0 <= k < 3 implies #[trigger] is_digit(three[k]) by {
            assert(is_digit(three_digits(millis as int)[k]));
        }
    }
    assert(is_digit(two[0]));
    assert(is_digit(three[0]));
}

} // verus!
