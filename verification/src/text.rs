//! Character-level building blocks: whitespace, trimming, searching for a
//! pattern, splitting a text into lines. Text is modelled as `Seq<char>`; the
//! executable functions work on a vector of characters and a pair of bounds
//! into it.

use vstd::prelude::*;
use vstd::string::*;

verus! {

/// The characters that count as whitespace: the code points with the Unicode
/// property `White_Space`.
pub open spec fn is_whitespace(c: char) -> bool {
    let u = c as u32;
    ||| 0x09 <= u <= 0x0D
    ||| u == 0x20
    ||| u == 0x85
    ||| u == 0xA0
    ||| u == 0x1680
    ||| 0x2000 <= u <= 0x200A
    ||| u == 0x2028
    ||| u == 0x2029
    ||| u == 0x202F
    ||| u == 0x205F
    ||| u == 0x3000
}

/// Number of whitespace characters at the start of `s`.
pub open spec fn leading_whitespace(s: Seq<char>) -> nat
    decreases s.len(),
{
    if s.len() > 0 && is_whitespace(s[0]) {
        1 + leading_whitespace(s.drop_first())
    } else {
        0
    }
}

/// Number of whitespace characters at the end of `s`.
pub open spec fn trailing_whitespace(s: Seq<char>) -> nat
    decreases s.len(),
{
    if s.len() > 0 && is_whitespace(s.last()) {
        1 + trailing_whitespace(s.drop_last())
    } else {
        0
    }
}

/// `s` without its leading and trailing whitespace.
pub open spec fn trim(s: Seq<char>) -> Seq<char> {
    let rest = s.skip(leading_whitespace(s) as int);
    rest.take(rest.len() - trailing_whitespace(rest))
}

/// `pat` occurs in `s` at index `i`.
pub open spec fn matches_at(s: Seq<char>, pat: Seq<char>, i: int) -> bool {
    &&& 0 <= i
    &&& i + pat.len() <= s.len()
    &&& s.subrange(i, i + pat.len()) == pat
}

/// Index of the first occurrence of `pat` in `s` at or after index `k`.
pub open spec fn first_match_from(s: Seq<char>, pat: Seq<char>, k: int) -> Option<int>
    decreases s.len() + 1 - k,
{
    if k < 0 || k + pat.len() > s.len() {
        None
    } else if matches_at(s, pat, k) {
        Some(k)
    } else {
        first_match_from(s, pat, k + 1)
    }
}

/// Index of the first occurrence of `pat` in `s`.
pub open spec fn first_match(s: Seq<char>, pat: Seq<char>) -> Option<int> {
    first_match_from(s, pat, 0)
}

/// The line ending.
pub open spec fn newline() -> Seq<char> {
    seq!['\n']
}

/// A line without the carriage return that may end it.
pub open spec fn strip_carriage_return(line: Seq<char>) -> Seq<char> {
    if line.len() > 0 && line.last() == '\r' {
        line.drop_last()
    } else {
        line
    }
}

/// The lines of a text. A line ends at a newline, before which a carriage
/// return does not belong to the line; the last line need not be ended, and
/// what follows the last newline is a line only if it is not empty.
pub open spec fn lines(text: Seq<char>) -> Seq<Seq<char>>
    decreases text.len(),
{
    if text.len() == 0 {
        Seq::empty()
    } else {
        match first_match(text, newline()) {
            Some(p) => if 0 <= p < text.len() {
                seq![strip_carriage_return(text.take(p))] + lines(text.skip(p + 1))
            } else {
                Seq::empty()
            },
            None => seq![text],
        }
    }
}

/// The leading whitespace of `s` is exactly its first `a` characters when all
/// of them are whitespace and the next one, if any, is not.
pub proof fn lemma_leading_whitespace(s: Seq<char>, a: int)
    requires
        0 <= a <= s.len(),
        forall|j: int| 0 <= j < a ==> is_whitespace(#[trigger] s[j]),
        a < s.len() ==> !is_whitespace(s[a]),
    ensures
        leading_whitespace(s) == a,
    decreases a,
{
    if a > 0 {
        let rest = s.drop_first();
        assert forall|j: int| 0 <= j < a - 1 implies is_whitespace(#[trigger] rest[j]) by {
            assert(rest[j] == s[j + 1]);
        }
        lemma_leading_whitespace(rest, a - 1);
    }
}

/// The trailing whitespace of `s` is exactly its last `n` characters when all
/// of them are whitespace and the one before them, if any, is not.
pub proof fn lemma_trailing_whitespace(s: Seq<char>, n: int)
    requires
        0 <= n <= s.len(),
        forall|j: int| s.len() - n <= j < s.len() ==> is_whitespace(#[trigger] s[j]),
        n < s.len() ==> !is_whitespace(s[s.len() - n - 1]),
    ensures
        trailing_whitespace(s) == n,
    decreases n,
{
    if n > 0 {
        let rest = s.drop_last();
        assert forall|j: int| rest.len() - (n - 1) <= j < rest.len() implies is_whitespace(
            #[trigger] rest[j],
        ) by {
            assert(rest[j] == s[j]);
        }
        lemma_trailing_whitespace(rest, n - 1);
    }
}

/// What trimming leaves neither starts nor ends with whitespace, it is a
/// stretch of `s`, and what lies before and after it is whitespace only.
pub proof fn lemma_trim_is_tight(s: Seq<char>)
    ensures
        leading_whitespace(s) + trim(s).len() <= s.len(),
        trim(s) == s.subrange(
            leading_whitespace(s) as int,
            leading_whitespace(s) as int + trim(s).len(),
        ),
        forall|j: int| 0 <= j < leading_whitespace(s) ==> is_whitespace(#[trigger] s[j]),
        forall|j: int|
            leading_whitespace(s) + trim(s).len() <= j < s.len() ==> is_whitespace(#[trigger] s[j]),
        trim(s).len() > 0 ==> !is_whitespace(trim(s)[0]) && !is_whitespace(trim(s).last()),
{
    lemma_leading_bounds(s);
    let a = leading_whitespace(s) as int;
    let rest = s.skip(a);
    lemma_trailing_bounds(rest);
    let n = trailing_whitespace(rest) as int;
    assert forall|j: int| a + trim(s).len() <= j < s.len() implies is_whitespace(
        #[trigger] s[j],
    ) by {
        assert(rest[j - a] == s[j]);
    }
    if trim(s).len() > 0 {
        assert(trim(s)[0] == s[a]);
        assert(trim(s).last() == rest[rest.len() - n - 1]);
    }
    assert(trim(s) =~= s.subrange(a, a + trim(s).len()));
}

/// The leading whitespace is a prefix of whitespace characters that is
/// followed, if by anything, by a character that is none.
pub proof fn lemma_leading_bounds(s: Seq<char>)
    ensures
        leading_whitespace(s) <= s.len(),
        forall|j: int| 0 <= j < leading_whitespace(s) ==> is_whitespace(#[trigger] s[j]),
        leading_whitespace(s) < s.len() ==> !is_whitespace(s[leading_whitespace(s) as int]),
    decreases s.len(),
{
    if s.len() > 0 && is_whitespace(s[0]) {
        let rest = s.drop_first();
        lemma_leading_bounds(rest);
        assert forall|j: int| 0 <= j < leading_whitespace(s) implies is_whitespace(
            #[trigger] s[j],
        ) by {
            if j > 0 {
                assert(s[j] == rest[j - 1]);
            }
        }
        if leading_whitespace(s) < s.len() {
            assert(s[leading_whitespace(s) as int] == rest[leading_whitespace(rest) as int]);
        }
    }
}

/// The trailing whitespace is a suffix of whitespace characters that is
/// preceded, if by anything, by a character that is none.
pub proof fn lemma_trailing_bounds(s: Seq<char>)
    ensures
        trailing_whitespace(s) <= s.len(),
        forall|j: int|
            s.len() - trailing_whitespace(s) <= j < s.len() ==> is_whitespace(#[trigger] s[j]),
        trailing_whitespace(s) < s.len() ==> !is_whitespace(
            s[s.len() - trailing_whitespace(s) - 1],
        ),
    decreases s.len(),
{
    if s.len() > 0 && is_whitespace(s.last()) {
        let rest = s.drop_last();
        lemma_trailing_bounds(rest);
        assert forall|j: int| s.len() - trailing_whitespace(s) <= j < s.len() implies is_whitespace(
            #[trigger] s[j],
        ) by {
            if j < s.len() - 1 {
                assert(s[j] == rest[j]);
            }
        }
        if trailing_whitespace(s) < s.len() {
            assert(s[s.len() - trailing_whitespace(s) - 1] == rest[rest.len() - trailing_whitespace(
                rest,
            ) - 1]);
        }
    }
}

/// `first_match_from` returns the least index at or after `k` at which the
/// pattern occurs, and `None` exactly when there is none.
pub proof fn lemma_first_match_from(s: Seq<char>, pat: Seq<char>, k: int)
    requires
        0 <= k,
    ensures
        match first_match_from(s, pat, k) {
            Some(p) => k <= p && matches_at(s, pat, p) && forall|j: int|
                k <= j < p ==> !matches_at(s, pat, j),
            None => forall|j: int| k <= j ==> !matches_at(s, pat, j),
        },
    decreases s.len() + 1 - k,
{
    if k + pat.len() <= s.len() && !matches_at(s, pat, k) {
        lemma_first_match_from(s, pat, k + 1);
    }
}

/// The first occurrence is at `p` when the pattern occurs there and nowhere
/// before.
pub proof fn lemma_first_match_is(s: Seq<char>, pat: Seq<char>, p: int)
    requires
        matches_at(s, pat, p),
        forall|j: int| 0 <= j < p ==> !matches_at(s, pat, j),
    ensures
        first_match(s, pat) == Some(p),
{
    lemma_first_match_from(s, pat, 0);
}

/// A text that neither starts nor ends with whitespace is what trimming
/// leaves of it.
pub proof fn lemma_trim_of_tight(s: Seq<char>)
    requires
        s.len() > 0 ==> !is_whitespace(s[0]) && !is_whitespace(s.last()),
    ensures
        trim(s) == s,
{
    assert(s.skip(0) =~= s);
    assert(s.take(s.len() as int) =~= s);
}

/// The line ending occurs at an index exactly when the character there is a
/// newline.
pub proof fn lemma_newline_at(s: Seq<char>, i: int)
    ensures
        matches_at(s, newline(), i) <==> 0 <= i < s.len() && s[i] == '\n',
{
    if 0 <= i < s.len() {
        let sub = s.subrange(i, i + 1);
        assert(sub[0] == s[i]);
        if s[i] == '\n' {
            assert(sub =~= newline());
        }
    }
}

/// The lines `ls`, each ended by a newline, as one text.
pub open spec fn joined(ls: Seq<Seq<char>>) -> Seq<char>
    decreases ls.len(),
{
    if ls.len() == 0 {
        Seq::empty()
    } else {
        joined(ls.drop_last()) + ls.last() + newline()
    }
}

/// `l` can stand as a line of a text: it holds no newline and does not end
/// with a carriage return.
pub open spec fn is_line(l: Seq<char>) -> bool {
    &&& forall|i: int| 0 <= i < l.len() ==> l[i] != '\n'
    &&& l.len() > 0 ==> l.last() != '\r'
}

/// Behind a text that is empty or ends with a newline, the lines of what
/// follows come after its own.
proof fn lemma_lines_concat(a: Seq<char>, b: Seq<char>)
    requires
        a.len() == 0 || a.last() == '\n',
    ensures
        lines(a + b) == lines(a) + lines(b),
    decreases a.len(),
{
    if a.len() == 0 {
        assert(a + b =~= b);
        assert(lines(a) + lines(b) =~= lines(b));
    } else {
        let ab = a + b;
        lemma_first_match_from(a, newline(), 0);
        lemma_newline_at(a, a.len() - 1);
        let p = first_match(a, newline())->0;
        lemma_newline_at(a, p);
        assert forall|j: int| 0 <= j < p implies !matches_at(ab, newline(), j) by {
            lemma_newline_at(ab, j);
            lemma_newline_at(a, j);
            assert(ab[j] == a[j]);
        }
        lemma_newline_at(ab, p);
        assert(ab[p] == a[p]);
        lemma_first_match_is(ab, newline(), p);
        assert(ab.take(p) =~= a.take(p));
        let rest = a.skip(p + 1);
        assert(ab.skip(p + 1) =~= rest + b);
        if rest.len() > 0 {
            assert(rest.last() == a.last());
        }
        lemma_lines_concat(rest, b);
        assert(lines(ab) =~= lines(a) + lines(b));
    }
}

/// A line with its line ending is a text of that one line.
proof fn lemma_single_line(l: Seq<char>)
    requires
        is_line(l),
    ensures
        lines(l + newline()) == seq![l],
{
    let piece = l + newline();
    let n = l.len() as int;
    assert forall|j: int| 0 <= j < n implies !matches_at(piece, newline(), j) by {
        lemma_newline_at(piece, j);
        assert(piece[j] == l[j]);
    }
    lemma_newline_at(piece, n);
    assert(piece[n] == newline()[0]);
    lemma_first_match_is(piece, newline(), n);
    assert(piece.take(n) =~= l);
    assert(piece.skip(n + 1) =~= Seq::<char>::empty());
    assert(lines(piece.skip(n + 1)) =~= Seq::<Seq<char>>::empty());
    assert(seq![l] + Seq::<Seq<char>>::empty() =~= seq![l]);
}

/// Joining lines and splitting the text gives the lines back.
pub proof fn lemma_lines_of_joined(ls: Seq<Seq<char>>)
    requires
        forall|i: int| 0 <= i < ls.len() ==> is_line(#[trigger] ls[i]),
    ensures
        lines(joined(ls)) == ls,
        joined(ls).len() == 0 || joined(ls).last() == '\n',
    decreases ls.len(),
{
    if ls.len() == 0 {
        assert(lines(joined(ls)) =~= ls);
    } else {
        let init = ls.drop_last();
        let l = ls.last();
        assert forall|i: int| 0 <= i < init.len() implies is_line(#[trigger] init[i]) by {
            assert(init[i] == ls[i]);
        }
        lemma_lines_of_joined(init);
        let piece = l + newline();
        assert(joined(ls) =~= joined(init) + piece);
        assert(joined(ls).last() == newline()[0]);
        lemma_lines_concat(joined(init), piece);
        assert(is_line(ls[ls.len() - 1]));
        lemma_single_line(l);
        assert(init + seq![l] =~= ls);
    }
}

/// Whether `c` is a whitespace character.
pub fn is_whitespace_char(c: char) -> (b: bool)
    ensures
        b == is_whitespace(c),
{
    let u: u32 = c as u32;
    (0x09 <= u && u <= 0x0D) || u == 0x20 || u == 0x85 || u == 0xA0 || u == 0x1680 || (0x2000 <= u
        && u <= 0x200A) || u == 0x2028 || u == 0x2029 || u == 0x202F || u == 0x205F || u == 0x3000
}

/// The characters of `s`, in order.
pub fn to_chars(s: &str) -> (chars: Vec<char>)
    ensures
        chars@ == s@,
{
    let mut chars: Vec<char> = Vec::new();
    for c in it: s.chars()
        invariant
            chars@ == it.seq().take(it.index() as int),
    {
        chars.push(c);
    }
    chars
}

/// Bounds of what trimming leaves of `chars[from..to]`.
pub(crate) fn trim_range(chars: &Vec<char>, from: usize, to: usize) -> (r: (usize, usize))
    requires
        from <= to <= chars.len(),
    ensures
        from <= r.0 <= r.1 <= to,
        chars@.subrange(r.0 as int, r.1 as int) == trim(chars@.subrange(from as int, to as int)),
{
    let ghost s = chars@.subrange(from as int, to as int);
    let mut a: usize = from;
    while a < to && is_whitespace_char(chars[a])
        invariant
            from <= a <= to <= chars.len(),
            s == chars@.subrange(from as int, to as int),
            forall|j: int| 0 <= j < a - from ==> is_whitespace(#[trigger] s[j]),
        decreases to - a,
    {
        a += 1;
    }
    let ghost rest = s.skip(a - from);
    let mut b: usize = to;
    while b > a && is_whitespace_char(chars[b - 1])
        invariant
            from <= a <= b <= to <= chars.len(),
            s == chars@.subrange(from as int, to as int),
            rest == s.skip(a - from),
            forall|j: int| b - a <= j < rest.len() ==> is_whitespace(#[trigger] rest[j]),
        decreases b - a,
    {
        b -= 1;
    }
    proof {
        lemma_leading_whitespace(s, a - from);
        if b > a {
            assert(rest[b - a - 1] == chars@[b - 1]);
        } else if a < to {
            assert(rest[0] == chars@[a as int]);
        }
        lemma_trailing_whitespace(rest, to - b);
        assert(chars@.subrange(a as int, b as int) =~= trim(s));
    }
    (a, b)
}

/// Whether `chars[from..to]` is the text `pat`.
pub(crate) fn range_equals(chars: &Vec<char>, from: usize, to: usize, pat: &Vec<char>) -> (b: bool)
    requires
        from <= to <= chars.len(),
    ensures
        b == (chars@.subrange(from as int, to as int) == pat@),
{
    if to - from != pat.len() {
        return false;
    }
    let ghost s = chars@.subrange(from as int, to as int);
    let mut i: usize = 0;
    while i < pat.len()
        invariant
            from <= to <= chars.len(),
            to - from == pat.len(),
            i <= pat.len(),
            s == chars@.subrange(from as int, to as int),
            forall|j: int| 0 <= j < i ==> s[j] == pat@[j],
        decreases pat.len() - i,
    {
        if chars[from + i] != pat[i] {
            assert(s[i as int] != pat@[i as int]);
            return false;
        }
        i += 1;
    }
    assert(s =~= pat@);
    true
}

/// Index in `chars` of the first occurrence of `pat` within `chars[from..to]`.
pub(crate) fn find_in_range(chars: &Vec<char>, from: usize, to: usize, pat: &Vec<char>) -> (r: Option<
    usize,
>)
    requires
        from <= to <= chars.len(),
    ensures
        match r {
            Some(p) => from <= p && p + pat.len() <= to && first_match(
                chars@.subrange(from as int, to as int),
                pat@,
            ) == Some(p - from),
            None => first_match(chars@.subrange(from as int, to as int), pat@) is None,
        },
{
    let ghost s = chars@.subrange(from as int, to as int);
    if pat.len() > to - from {
        return None;
    }
    let last: usize = to - pat.len();
    let mut k: usize = from;
    while k <= last
        invariant
            from <= k <= last + 1,
            last + pat.len() == to,
            to <= chars.len(),
            s == chars@.subrange(from as int, to as int),
            first_match(s, pat@) == first_match_from(s, pat@, k - from),
        decreases last + 1 - k,
    {
        let hit = range_equals(chars, k, k + pat.len(), pat);
        proof {
            assert(s.subrange(k - from, k - from + pat.len()) =~= chars@.subrange(
                k as int,
                k + pat.len(),
            ));
            if pat.len() == 0 {
                assert(chars@.subrange(k as int, k + pat.len()) =~= pat@);
            }
        }
        if hit {
            return Some(k);
        }
        k += 1;
    }
    None
}

/// What trimming leaves of `text`.
pub fn trimmed(text: &str) -> (out: String)
    ensures
        out@ == trim(text@),
{
    let chars = to_chars(text);
    assert(chars@.subrange(0, chars@.len() as int) =~= chars@);
    let (a, b) = trim_range(&chars, 0, chars.len());
    String::from_str(text.substring_char(a, b))
}

/// Splits a text into its lines.
pub fn split_lines(text: &str) -> (out: Vec<String>)
    ensures
        out.deep_view() == lines(text@),
{
    let chars = to_chars(text);
    let line_end = vec!['\n'];
    assert(line_end@ =~= newline());
    let mut out: Vec<String> = Vec::new();
    let mut pos: usize = 0;
    assert(chars@.skip(0) =~= chars@);
    assert(out.deep_view() + lines(chars@) =~= lines(chars@));
    while pos < chars.len()
        invariant
            pos <= chars.len(),
            chars@ == text@,
            line_end@ == newline(),
            lines(text@) == out.deep_view() + lines(chars@.skip(pos as int)),
        decreases chars.len() - pos,
    {
        let ghost rest = chars@.skip(pos as int);
        let ghost done = out.deep_view();
        assert(rest =~= chars@.subrange(pos as int, chars@.len() as int));
        let end: usize;
        let next: usize;
        match find_in_range(&chars, pos, chars.len(), &line_end) {
            Some(p) => {
                end = if p > pos && chars[p - 1] == '\r' {
                    p - 1
                } else {
                    p
                };
                next = p + 1;
                proof {
                    let line = rest.take(p - pos);
                    assert(line =~= chars@.subrange(pos as int, p as int));
                    if p > pos {
                        assert(line.last() == chars@[p - 1]);
                    }
                    assert(strip_carriage_return(line) =~= chars@.subrange(
                        pos as int,
                        end as int,
                    ));
                    assert(rest.skip(p - pos + 1) =~= chars@.skip(p + 1));
                }
            },
            None => {
                end = chars.len();
                next = chars.len();
                proof {
                    assert(chars@.skip(chars@.len() as int) =~= Seq::<char>::empty());
                    assert(lines(chars@.skip(next as int)) =~= Seq::<Seq<char>>::empty());
                    assert(seq![rest] + Seq::<Seq<char>>::empty() =~= seq![rest]);
                }
            },
        }
        let line = String::from_str(text.substring_char(pos, end));
        assert(lines(rest) == seq![line@] + lines(chars@.skip(next as int)));
        out.push(line);
        proof {
            assert(out.deep_view() =~= done.push(line@));
            assert(done + (seq![line@] + lines(chars@.skip(next as int))) =~= done.push(line@)
                + lines(chars@.skip(next as int)));
        }
        pos = next;
    }
    assert(lines(chars@.skip(pos as int)) =~= Seq::<Seq<char>>::empty());
    assert(out.deep_view() + Seq::<Seq<char>>::empty() =~= out.deep_view());
    out
}

} // verus!
