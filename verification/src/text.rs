//! Character-level text operations, specified over `Seq<char>`.
//!
//! Positions are character positions. The patterns searched for in this
//! crate are valid text, so a match found by characters is exactly a match
//! found by bytes in the UTF-8 encoding.
use vstd::prelude::*;

verus! {

broadcast use vstd::string::group_string_axioms;

/// `pat` occurs in `s` starting at position `i`.
pub open spec fn matches_at(s: Seq<char>, pat: Seq<char>, i: int) -> bool {
    0 <= i && i + pat.len() <= s.len() && s.subrange(i, i + pat.len()) == pat
}

/// The first position at or after `i` where `pat` occurs in `s`.
pub open spec fn find_from(s: Seq<char>, pat: Seq<char>, i: int) -> Option<int>
    decreases s.len() + 1 - i,
{
    if i < 0 || i + pat.len() > s.len() {
        None
    } else if matches_at(s, pat, i) {
        Some(i)
    } else {
        find_from(s, pat, i + 1)
    }
}

/// The first position where `pat` occurs in `s`.
pub open spec fn find(s: Seq<char>, pat: Seq<char>) -> Option<int> {
    find_from(s, pat, 0)
}

pub open spec fn contains(s: Seq<char>, pat: Seq<char>) -> bool {
    find(s, pat) is Some
}

pub open spec fn starts_with(s: Seq<char>, pat: Seq<char>) -> bool {
    matches_at(s, pat, 0)
}

/// The pieces of `s[p..]` between the non-overlapping occurrences of `sep`,
/// taken from left to right (as `str::split` with a non-empty pattern).
pub open spec fn split_from(s: Seq<char>, sep: Seq<char>, p: int) -> Seq<Seq<char>>
    decreases s.len() - p,
{
    if p < 0 || p > s.len() || sep.len() == 0 {
        seq![]
    } else {
        match find_from(s, sep, p) {
            None => seq![s.subrange(p, s.len() as int)],
            Some(i) => if i < p || i + sep.len() > s.len() {
                seq![]
            } else {
                seq![s.subrange(p, i)] + split_from(s, sep, i + sep.len())
            },
        }
    }
}

pub open spec fn split(s: Seq<char>, sep: Seq<char>) -> Seq<Seq<char>> {
    split_from(s, sep, 0)
}

/// A line without the `'\r'` that ends it, if any.
pub open spec fn strip_cr(line: Seq<char>) -> Seq<char> {
    if line.len() > 0 && line.last() == '\r' {
        line.drop_last()
    } else {
        line
    }
}

/// The lines of `s[p..]` (as `str::lines`): pieces ended by `'\n'` or by the
/// end of the text, a final `'\n'` opening no empty line, and `"\r\n"`
/// counting as one line ending.
pub open spec fn lines_from(s: Seq<char>, p: int) -> Seq<Seq<char>>
    decreases s.len() - p,
{
    if p < 0 || p >= s.len() {
        seq![]
    } else {
        match find_from(s, seq!['\n'], p) {
            None => seq![s.subrange(p, s.len() as int)],
            Some(i) => if i < p || i >= s.len() {
                seq![]
            } else {
                seq![strip_cr(s.subrange(p, i))] + lines_from(s, i + 1)
            },
        }
    }
}

pub open spec fn lines(s: Seq<char>) -> Seq<Seq<char>> {
    lines_from(s, 0)
}

/// What `find_from` returns is the first occurrence at or after `i`.
pub proof fn lemma_find_from(s: Seq<char>, pat: Seq<char>, i: int)
    requires
        0 <= i,
    ensures
        match find_from(s, pat, i) {
            Some(j) => {
                &&& i <= j
                &&& matches_at(s, pat, j)
                &&& forall|k: int| i <= k < j ==> !#[trigger] matches_at(s, pat, k)
            },
            None => forall|k: int| i <= k ==> !#[trigger] matches_at(s, pat, k),
        },
    decreases s.len() + 1 - i,
{
    if i + pat.len() > s.len() {
    } else if matches_at(s, pat, i) {
    } else {
        lemma_find_from(s, pat, i + 1);
    }
}

/// `find_from` names `q` when `pat` occurs at `q` and nowhere in `[p, q)`.
pub proof fn lemma_find_first(s: Seq<char>, pat: Seq<char>, p: int, q: int)
    requires
        0 <= p <= q,
        matches_at(s, pat, q),
        forall|k: int| p <= k < q ==> !#[trigger] matches_at(s, pat, k),
    ensures
        find_from(s, pat, p) == Some(q),
{
    lemma_find_from(s, pat, p);
}

/// `find_from` finds nothing when `pat` occurs nowhere at or after `p`.
pub proof fn lemma_find_nowhere(s: Seq<char>, pat: Seq<char>, p: int)
    requires
        0 <= p,
        forall|k: int| p <= k ==> !#[trigger] matches_at(s, pat, k),
    ensures
        find_from(s, pat, p) is None,
{
    lemma_find_from(s, pat, p);
}

/// One character `c` matches at `k` exactly where `s[k] == c`.
pub proof fn lemma_matches_char(s: Seq<char>, c: char, k: int)
    ensures
        matches_at(s, seq![c], k) <==> (0 <= k < s.len() && s[k] == c),
{
    if 0 <= k < s.len() {
        assert(s.subrange(k, k + 1)[0] == s[k]);
        if s[k] == c {
            assert(s.subrange(k, k + 1) =~= seq![c]);
        }
    }
}

/// The pieces of `s[p..]` at one character `c`, when the first `c` at or
/// after `p` stands at `q`.
pub proof fn lemma_split_char_at(s: Seq<char>, c: char, p: int, q: int)
    requires
        0 <= p <= q < s.len(),
        s[q] == c,
        forall|k: int| p <= k < q ==> s[k] != c,
    ensures
        split_from(s, seq![c], p) == seq![s.subrange(p, q)] + split_from(s, seq![c], q + 1),
{
    assert forall|k: int| p <= k < q implies !#[trigger] matches_at(s, seq![c], k) by {
        lemma_matches_char(s, c, k);
    }
    lemma_matches_char(s, c, q);
    lemma_find_first(s, seq![c], p, q);
}

/// The last piece of `s[p..]` at one character `c`, when no `c` stands at or
/// after `p`.
pub proof fn lemma_split_char_end(s: Seq<char>, c: char, p: int)
    requires
        0 <= p <= s.len(),
        forall|k: int| p <= k < s.len() ==> s[k] != c,
    ensures
        split_from(s, seq![c], p) == seq![s.subrange(p, s.len() as int)],
{
    assert forall|k: int| p <= k implies !#[trigger] matches_at(s, seq![c], k) by {
        lemma_matches_char(s, c, k);
    }
    lemma_find_nowhere(s, seq![c], p);
}

/// Text in which `sep` occurs nowhere is one piece.
pub proof fn lemma_split_whole(s: Seq<char>, sep: Seq<char>)
    requires
        sep.len() > 0,
        forall|k: int| 0 <= k ==> !#[trigger] matches_at(s, sep, k),
    ensures
        split(s, sep) == seq![s],
{
    lemma_find_nowhere(s, sep, 0);
    assert(s.subrange(0, s.len() as int) =~= s);
}

/// Non-empty text without a `'\n'` is one line.
pub proof fn lemma_lines_whole(s: Seq<char>)
    requires
        s.len() > 0,
        forall|k: int| 0 <= k < s.len() ==> s[k] != '\n',
    ensures
        lines(s) == seq![s],
{
    assert forall|k: int| 0 <= k implies !#[trigger] matches_at(s, seq!['\n'], k) by {
        lemma_matches_char(s, '\n', k);
    }
    lemma_find_nowhere(s, seq!['\n'], 0);
    assert(s.subrange(0, s.len() as int) =~= s);
}

/// The texts of a sequence of strings.
pub open spec fn texts(v: Seq<String>) -> Seq<Seq<char>> {
    v.map_values(|t: String| t@)
}

/// The text of an optional string.
pub open spec fn opt_text(o: Option<String>) -> Option<Seq<char>> {
    match o {
        Some(t) => Some(t@),
        None => None,
    }
}

/// `split_from` gives at least one piece.
pub proof fn lemma_split_nonempty(s: Seq<char>, sep: Seq<char>, p: int)
    requires
        0 <= p <= s.len(),
        sep.len() > 0,
    ensures
        split_from(s, sep, p).len() >= 1,
{
    lemma_find_from(s, sep, p);
}

/// The characters of `s`, in order.
pub fn chars_of(s: &str) -> (r: Vec<char>)
    ensures
        r@ == s@,
{
    let mut r: Vec<char> = Vec::new();
    for c in it: s.chars()
        invariant
            r@ == it.seq().take(it.index() as int),
            it.seq() == s@,
    {
        r.push(c);
    }
    r
}

/// Builds a `String` through std's `FromIterator<&char>` for `String`
/// (`String::from_iter`). Claimed: the string holds exactly the characters
/// of `cs`, in order.
#[verifier::external_body]
pub(crate) fn string_from_chars(cs: &[char]) -> (s: String)
    ensures
        s@ == cs@,
{
    String::from_iter(cs)
}

/// Whether two character sequences are equal.
pub fn chars_eq(a: &[char], b: &[char]) -> (r: bool)
    ensures
        r == (a@ == b@),
{
    if a.len() != b.len() {
        return false;
    }
    let mut k: usize = 0;
    while k < a.len()
        invariant
            k <= a.len(),
            a.len() == b.len(),
            forall|j: int| 0 <= j < k ==> a@[j] == b@[j],
        decreases a.len() - k,
    {
        if a[k] != b[k] {
            return false;
        }
        k += 1;
    }
    assert(a@ =~= b@);
    true
}

/// Whether two string slices hold the same text.
pub fn str_eq(a: &str, b: &str) -> (r: bool)
    ensures
        r == (a@ == b@),
{
    let ac = chars_of(a);
    let bc = chars_of(b);
    chars_eq(&ac, &bc)
}

/// The characters `s[from..to]`.
pub fn sub_chars(s: &[char], from: usize, to: usize) -> (r: Vec<char>)
    requires
        from <= to <= s.len(),
    ensures
        r@ == s@.subrange(from as int, to as int),
{
    let mut r: Vec<char> = Vec::new();
    let mut k = from;
    while k < to
        invariant
            from <= k <= to <= s.len(),
            r@ == s@.subrange(from as int, k as int),
        decreases to - k,
    {
        r.push(s[k]);
        k += 1;
        assert(r@ =~= s@.subrange(from as int, k as int));
    }
    r
}

/// Whether `pat` occurs in `s` at position `i`.
pub fn matches_at_chars(s: &[char], pat: &[char], i: usize) -> (r: bool)
    ensures
        r == matches_at(s@, pat@, i as int),
{
    if pat.len() > s.len() || i > s.len() - pat.len() {
        return false;
    }
    let mut k: usize = 0;
    while k < pat.len()
        invariant
            k <= pat.len(),
            i + pat.len() <= s.len(),
            forall|j: int| 0 <= j < k ==> s@[i + j] == pat@[j],
        decreases pat.len() - k,
    {
        if s[i + k] != pat[k] {
            assert(s@.subrange(i as int, i + pat.len())[k as int] != pat@[k as int]);
            return false;
        }
        k += 1;
    }
    assert(s@.subrange(i as int, i + pat.len()) =~= pat@);
    true
}

/// The first position at or after `start` where `pat` occurs in `s`.
pub fn find_chars(s: &[char], pat: &[char], start: usize) -> (r: Option<usize>)
    ensures
        match r {
            Some(j) => find_from(s@, pat@, start as int) == Some(j as int),
            None => find_from(s@, pat@, start as int) is None,
        },
{
    if pat.len() == 0 {
        if start <= s.len() {
            assert(s@.subrange(start as int, start as int) =~= pat@);
            return Some(start);
        }
        return None;
    }
    let mut i = start;
    while pat.len() <= s.len() && i <= s.len() - pat.len()
        invariant
            start <= i,
            pat.len() > 0,
            find_from(s@, pat@, start as int) == find_from(s@, pat@, i as int),
        decreases s.len() - i,
    {
        if matches_at_chars(s, pat, i) {
            return Some(i);
        }
        i += 1;
    }
    None
}

/// Whether `s` starts with `pat`.
pub fn starts_with_chars(s: &[char], pat: &[char]) -> (r: bool)
    ensures
        r == starts_with(s@, pat@),
{
    matches_at_chars(s, pat, 0)
}

/// Whether `pat` occurs in `s`.
pub fn contains_chars(s: &[char], pat: &[char]) -> (r: bool)
    ensures
        r == contains(s@, pat@),
{
    find_chars(s, pat, 0).is_some()
}

/// The pieces of `s` between the occurrences of `sep` (as `str::split`).
pub fn split_chars(s: &[char], sep: &[char]) -> (r: Vec<Vec<char>>)
    requires
        sep.len() > 0,
    ensures
        r.len() == split(s@, sep@).len(),
        forall|k: int| 0 <= k < r.len() ==> (#[trigger] r[k])@ == split(s@, sep@)[k],
{
    let mut r: Vec<Vec<char>> = Vec::new();
    let mut p: usize = 0;
    let ghost mut done: Seq<Seq<char>> = seq![];
    loop
        invariant
            p <= s.len(),
            sep.len() > 0,
            done + split_from(s@, sep@, p as int) == split(s@, sep@),
            r.len() == done.len(),
            forall|k: int| 0 <= k < r.len() ==> (#[trigger] r[k])@ == done[k],
        decreases s.len() - p,
    {
        match find_chars(s, sep, p) {
            None => {
                let piece = sub_chars(s, p, s.len());
                proof {
                    done = done.push(piece@);
                    assert(split_from(s@, sep@, p as int) == seq![piece@]);
                    assert(done =~= split(s@, sep@));
                }
                r.push(piece);
                return r;
            },
            Some(i) => {
                proof {
                    lemma_find_from(s@, sep@, p as int);
                }
                let piece = sub_chars(s, p, i);
                let ghost old_done = done;
                proof {
                    done = done.push(piece@);
                    assert(split_from(s@, sep@, p as int) == seq![piece@] + split_from(
                        s@,
                        sep@,
                        i + sep.len(),
                    ));
                    assert(old_done + split_from(s@, sep@, p as int) =~= done + split_from(
                        s@,
                        sep@,
                        i + sep.len(),
                    ));
                }
                r.push(piece);
                p = i + sep.len();
            },
        }
    }
}

/// The lines of `s` (as `str::lines`).
pub fn lines_chars(s: &[char]) -> (r: Vec<Vec<char>>)
    ensures
        r.len() == lines(s@).len(),
        forall|k: int| 0 <= k < r.len() ==> (#[trigger] r[k])@ == lines(s@)[k],
{
    let newline: Vec<char> = vec!['\n'];
    assert(newline@ =~= seq!['\n']);
    let mut r: Vec<Vec<char>> = Vec::new();
    let mut p: usize = 0;
    let ghost mut done: Seq<Seq<char>> = seq![];
    while p < s.len()
        invariant
            p <= s.len(),
            newline@ == seq!['\n'],
            done + lines_from(s@, p as int) == lines(s@),
            r.len() == done.len(),
            forall|k: int| 0 <= k < r.len() ==> (#[trigger] r[k])@ == done[k],
        decreases s.len() - p,
    {
        match find_chars(s, &newline, p) {
            None => {
                let piece = sub_chars(s, p, s.len());
                proof {
                    done = done.push(piece@);
                    assert(lines_from(s@, p as int) == seq![piece@]);
                    assert(lines_from(s@, s.len() as int) =~= seq![]);
                    assert(done + lines_from(s@, s.len() as int) =~= lines(s@));
                }
                r.push(piece);
                p = s.len();
            },
            Some(i) => {
                proof {
                    lemma_find_from(s@, newline@, p as int);
                }
                let mut piece = sub_chars(s, p, i);
                if piece.len() > 0 && piece[piece.len() - 1] == '\r' {
                    piece.pop();
                }
                let ghost old_done = done;
                proof {
                    assert(piece@ == strip_cr(s@.subrange(p as int, i as int)));
                    done = done.push(piece@);
                    assert(lines_from(s@, p as int) == seq![piece@] + lines_from(s@, i + 1));
                    assert(old_done + lines_from(s@, p as int) =~= done + lines_from(s@, i + 1));
                }
                r.push(piece);
                p = i + 1;
            },
        }
    }
    proof {
        assert(lines_from(s@, p as int) =~= seq![]);
        assert(done =~= lines(s@));
    }
    r
}

} // verus!
