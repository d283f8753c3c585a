//! Names as sequences of characters: their segments, and the occurrences
//! of one sequence inside another.

use vstd::prelude::*;

verus! {

/// Separates the segments of a name.
pub const SEPARATOR: char = '/';

/// In a rule, stands for the rest of the name.
pub const WILDCARD: char = '#';

/// In a rule, stands for any one segment.
pub const ANY: char = '+';

/// Number of characters of `s` before its first separator: the length of
/// its first segment.
pub open spec fn head_len(s: Seq<char>) -> nat
    decreases s.len(),
{
    if s.len() == 0 || s[0] == SEPARATOR {
        0
    } else {
        1 + head_len(s.skip(1))
    }
}

/// The segments of a name: what stands between its separators. A name
/// with `n` separators has `n + 1` segments, some of which may be empty.
pub open spec fn segments(s: Seq<char>) -> Seq<Seq<char>>
    decreases s.len(),
{
    let k = head_len(s) as int;
    if k >= s.len() {
        seq![s]
    } else {
        seq![s.take(k)] + segments(s.skip(k + 1))
    }
}

/// `head_len` is the position of the first separator, or the length
/// where there is none.
pub proof fn lemma_head_len(s: Seq<char>, k: int)
    requires
        0 <= k <= s.len(),
        forall|j: int| 0 <= j < k ==> s[j] != SEPARATOR,
        k == s.len() || s[k] == SEPARATOR,
    ensures
        head_len(s) == k,
    decreases s.len(),
{
    if k > 0 {
        let t = s.skip(1);
        assert forall|j: int| 0 <= j < k - 1 implies t[j] != SEPARATOR by {
            assert(t[j] == s[j + 1]);
        }
        lemma_head_len(t, k - 1);
    }
}

/// The first segment ends before the name does, and holds no separator.
pub proof fn lemma_head_len_bounds(s: Seq<char>)
    ensures
        head_len(s) <= s.len(),
        forall|j: int| 0 <= j < head_len(s) ==> s[j] != SEPARATOR,
        head_len(s) < s.len() ==> s[head_len(s) as int] == SEPARATOR,
    decreases s.len(),
{
    if s.len() != 0 && s[0] != SEPARATOR {
        let t = s.skip(1);
        lemma_head_len_bounds(t);
        assert forall|j: int| 0 <= j < head_len(s) implies s[j] != SEPARATOR by {
            if j > 0 {
                assert(s[j] == t[j - 1]);
            }
        }
        if head_len(s) < s.len() {
            assert(s[head_len(s) as int] == t[head_len(t) as int]);
        }
    }
}

/// A name has at least one segment.
pub proof fn lemma_segments_nonempty(s: Seq<char>)
    ensures
        segments(s).len() >= 1,
{
}

/// The segment that starts at `start` is the first segment of what
/// follows `start`, and the segments after it are those of what follows
/// its separator.
pub proof fn lemma_segments_step(s: Seq<char>, start: int, end: int)
    requires
        0 <= start <= end <= s.len(),
        end - start == head_len(s.skip(start)),
    ensures
        segments(s.skip(start))[0] == s.subrange(start, end),
        end == s.len() ==> segments(s.skip(start)).len() == 1,
        end < s.len() ==> segments(s.skip(start)).skip(1) == segments(s.skip(end + 1)),
{
    let t = s.skip(start);
    let k = end - start;
    if end == s.len() {
        assert(t =~= s.subrange(start, end));
    } else {
        assert(t.take(k) =~= s.subrange(start, end));
        assert(t.skip(k + 1) =~= s.skip(end + 1));
        assert((seq![t.take(k)] + segments(t.skip(k + 1))).skip(1) =~= segments(t.skip(k + 1)));
    }
}

/// Segments put together again, with a separator between each two.
pub open spec fn joined(parts: Seq<Seq<char>>) -> Seq<char>
    decreases parts.len(),
{
    if parts.len() == 0 {
        Seq::empty()
    } else if parts.len() == 1 {
        parts[0]
    } else {
        parts[0] + seq![SEPARATOR] + joined(parts.skip(1))
    }
}

/// Cutting a name into segments loses nothing: no segment holds a
/// separator, and the segments joined by separators are the name.
pub proof fn lemma_segments_joined(s: Seq<char>)
    ensures
        joined(segments(s)) == s,
        forall|i: int, j: int|
            0 <= i < segments(s).len() && 0 <= j < segments(s)[i].len() ==> segments(s)[i][j]
                != SEPARATOR,
    decreases s.len(),
{
    lemma_head_len_bounds(s);
    let k = head_len(s) as int;
    if k < s.len() {
        let rest = s.skip(k + 1);
        let parts = segments(s);
        lemma_segments_joined(rest);
        lemma_segments_nonempty(rest);
        assert(parts.skip(1) =~= segments(rest));
        assert(parts[0] == s.take(k));
        assert(s.take(k) + seq![SEPARATOR] + rest =~= s);
        assert forall|i: int, j: int|
            0 <= i < parts.len() && 0 <= j < parts[i].len() implies parts[i][j] != SEPARATOR by {
            if i > 0 {
                assert(parts[i] == segments(rest)[i - 1]);
            }
        }
    }
}

/// How often `c` stands in `s`.
pub open spec fn count(s: Seq<char>, c: char) -> nat
    decreases s.len(),
{
    if s.len() == 0 {
        0
    } else {
        (if s[0] == c {
            1nat
        } else {
            0nat
        }) + count(s.skip(1), c)
    }
}

/// A name has one segment more than it has separators.
pub proof fn lemma_segments_len(s: Seq<char>)
    ensures
        segments(s).len() == count(s, SEPARATOR) + 1,
    decreases s.len(),
{
    lemma_head_len_bounds(s);
    let k = head_len(s) as int;
    lemma_count_none(s.take(k), SEPARATOR);
    if k < s.len() {
        let rest = s.skip(k + 1);
        lemma_segments_len(rest);
        lemma_count_add(s.take(k), seq![SEPARATOR] + rest, SEPARATOR);
        lemma_count_add(seq![SEPARATOR], rest, SEPARATOR);
        assert(s.take(k) + (seq![SEPARATOR] + rest) =~= s);
        assert(count(seq![SEPARATOR], SEPARATOR) == 1) by {
            let one = seq![SEPARATOR];
            assert(one.len() == 1 && one[0] == SEPARATOR);
            assert(one.skip(1).len() == 0);
            assert(count(one.skip(1), SEPARATOR) == 0);
        }
    } else {
        assert(s.take(k) =~= s);
    }
}

/// A text in which `c` stands nowhere holds it no times.
pub proof fn lemma_count_none(s: Seq<char>, c: char)
    requires
        forall|i: int| 0 <= i < s.len() ==> s[i] != c,
    ensures
        count(s, c) == 0,
    decreases s.len(),
{
    if s.len() > 0 {
        let rest = s.skip(1);
        assert forall|i: int| 0 <= i < rest.len() implies rest[i] != c by {
            assert(rest[i] == s[i + 1]);
        }
        lemma_count_none(rest, c);
    }
}

/// Whether `c` means something in a rule: it is the separator, `#` or `+`.
pub open spec fn is_syntax(c: char) -> bool {
    c == SEPARATOR || c == WILDCARD || c == ANY
}

/// What stands in two texts put together stands in one or the other.
pub proof fn lemma_count_add(a: Seq<char>, b: Seq<char>, c: char)
    ensures
        count(a + b, c) == count(a, c) + count(b, c),
    decreases a.len(),
{
    if a.len() == 0 {
        assert(a + b =~= b);
    } else {
        lemma_count_add(a.skip(1), b, c);
        assert((a + b).skip(1) =~= a.skip(1) + b);
    }
}

/// A plain text holds no character that means something in a rule.
pub proof fn lemma_count_plain(value: Seq<char>, c: char)
    requires
        is_plain(value),
        is_syntax(c),
    ensures
        count(value, c) == 0,
{
    lemma_count_none(value, c);
}

/// Putting a plain value in place of a token brings no separator, `#` or
/// `+` into a text.
pub proof fn lemma_replace_adds_no_syntax(
    text: Seq<char>,
    token: Seq<char>,
    value: Seq<char>,
    c: char,
)
    requires
        is_plain(value),
        is_syntax(c),
    ensures
        count(replace_all(text, token, value), c) <= count(text, c),
    decreases text.len(),
{
    lemma_count_plain(value, c);
    let m = token.len() as int;
    if m == 0 {
        lemma_spread_adds_no_syntax(text, value, c);
    } else if text.len() >= m {
        if text.take(m) == token {
            let rest = text.skip(m);
            lemma_replace_adds_no_syntax(rest, token, value, c);
            lemma_count_add(value, replace_all(rest, token, value), c);
            lemma_count_add(text.take(m), rest, c);
            assert(text.take(m) + rest =~= text);
        } else {
            let rest = text.skip(1);
            lemma_replace_adds_no_syntax(rest, token, value, c);
            lemma_count_add(seq![text[0]], replace_all(rest, token, value), c);
            lemma_count_add(seq![text[0]], rest, c);
            assert(seq![text[0]] + rest =~= text);
        }
    }
}

/// Putting a plain value between the characters of a text brings no
/// separator, `#` or `+` into it.
pub proof fn lemma_spread_adds_no_syntax(text: Seq<char>, value: Seq<char>, c: char)
    requires
        is_plain(value),
        is_syntax(c),
    ensures
        count(spread(text, value), c) == count(text, c),
    decreases text.len(),
{
    lemma_count_plain(value, c);
    if text.len() > 0 {
        let rest = text.skip(1);
        lemma_spread_adds_no_syntax(rest, value, c);
        lemma_count_add(value + seq![text[0]], spread(rest, value), c);
        lemma_count_add(value, seq![text[0]], c);
        lemma_count_add(seq![text[0]], rest, c);
        assert(seq![text[0]] + rest =~= text);
    }
}

/// The characters of a string.
pub fn chars_of(s: &str) -> (v: Vec<char>)
    ensures
        v@ == s@,
{
    let mut v: Vec<char> = Vec::new();
    for c in it: s.chars()
        invariant
            it.seq() == s@,
            v@ == it.seq().take(it.index() as int),
    {
        v.push(c);
    }
    v
}

/// Where the segment that starts at `start` ends: at the next separator,
/// or at the end of the name.
pub fn segment_end(s: &Vec<char>, start: usize) -> (end: usize)
    requires
        start <= s.len(),
    ensures
        start <= end <= s.len(),
        end - start == head_len(s@.skip(start as int)),
{
    let mut end = start;
    while end < s.len() && s[end] != SEPARATOR
        invariant
            start <= end <= s.len(),
            forall|j: int| start <= j < end ==> s@[j] != SEPARATOR,
        decreases s.len() - end,
    {
        end += 1;
    }
    proof {
        let t = s@.skip(start as int);
        assert forall|j: int| 0 <= j < end - start implies t[j] != SEPARATOR by {
            assert(t[j] == s@[start + j]);
        }
        lemma_head_len(t, end - start);
    }
    end
}

/// Whether two stretches of characters are the same.
pub fn same_range(a: &Vec<char>, a0: usize, a1: usize, b: &Vec<char>, b0: usize, b1: usize) -> (r: bool)
    requires
        a0 <= a1 <= a.len(),
        b0 <= b1 <= b.len(),
    ensures
        r == (a@.subrange(a0 as int, a1 as int) == b@.subrange(b0 as int, b1 as int)),
{
    let n = a1 - a0;
    if b1 - b0 != n {
        assert(a@.subrange(a0 as int, a1 as int).len() != b@.subrange(b0 as int, b1 as int).len());
        return false;
    }
    let ghost x = a@.subrange(a0 as int, a1 as int);
    let ghost y = b@.subrange(b0 as int, b1 as int);
    let mut i: usize = 0;
    while i < n
        invariant
            a0 <= a1 <= a.len(),
            b0 <= b1 <= b.len(),
            n == a1 - a0,
            n == b1 - b0,
            i <= n,
            x == a@.subrange(a0 as int, a1 as int),
            y == b@.subrange(b0 as int, b1 as int),
            forall|j: int| 0 <= j < i ==> x[j] == y[j],
        decreases n - i,
    {
        if a[a0 + i] != b[b0 + i] {
            assert(x[i as int] != y[i as int]);
            return false;
        }
        i += 1;
    }
    assert(x =~= y);
    true
}

/// Whether `token` stands in `text` at position `i`.
pub open spec fn occurs_at(text: Seq<char>, token: Seq<char>, i: int) -> bool {
    &&& 0 <= i
    &&& i + token.len() <= text.len()
    &&& text.subrange(i, i + token.len()) == token
}

/// Whether `token` stands somewhere in `text`. The empty token stands in
/// every text.
pub open spec fn occurs(text: Seq<char>, token: Seq<char>) -> bool {
    exists|i: int| occurs_at(text, token, i)
}

/// `value` before each character of `text`, and once more at the end.
pub open spec fn spread(text: Seq<char>, value: Seq<char>) -> Seq<char>
    decreases text.len(),
{
    if text.len() == 0 {
        value
    } else {
        value + seq![text[0]] + spread(text.skip(1), value)
    }
}

/// `text` with `value` in place of each occurrence of `token`, the
/// occurrences taken from the left and not overlapping. The empty token
/// occurs before each character and at the end.
pub open spec fn replace_all(text: Seq<char>, token: Seq<char>, value: Seq<char>) -> Seq<char>
    decreases text.len(),
{
    if token.len() == 0 {
        spread(text, value)
    } else if text.len() < token.len() {
        text
    } else if text.take(token.len() as int) == token {
        value + replace_all(text.skip(token.len() as int), token, value)
    } else {
        seq![text[0]] + replace_all(text.skip(1), token, value)
    }
}

/// Whether `value` holds none of the characters that mean something in a
/// rule: separator, `#`, `+`.
pub open spec fn is_plain(value: Seq<char>) -> bool {
    forall|i: int|
        0 <= i < value.len() ==> value[i] != SEPARATOR && value[i] != WILDCARD && value[i] != ANY
}

/// Replacing a token that does not occur changes nothing.
pub proof fn lemma_replace_absent(text: Seq<char>, token: Seq<char>, value: Seq<char>)
    requires
        !occurs(text, token),
    ensures
        replace_all(text, token, value) == text,
    decreases text.len(),
{
    let m = token.len() as int;
    if m == 0 {
        assert(text.subrange(0, 0) =~= token);
        assert(occurs_at(text, token, 0));
    } else if text.len() >= m {
        assert(text.take(m) != token) by {
            if text.take(m) == token {
                assert(occurs_at(text, token, 0));
            }
        }
        let rest = text.skip(1);
        assert forall|i: int| !occurs_at(rest, token, i) by {
            if occurs_at(rest, token, i) {
                assert(rest.subrange(i, i + m) =~= text.subrange(i + 1, i + 1 + m));
                assert(occurs_at(text, token, i + 1));
            }
        }
        lemma_replace_absent(rest, token, value);
        assert(seq![text[0]] + rest =~= text);
    }
}

/// Whether two strings hold the same text.
pub fn same_text(a: &str, b: &str) -> (r: bool)
    ensures
        r == (a@ == b@),
{
    let x = chars_of(a);
    let y = chars_of(b);
    assert(x@.subrange(0, x.len() as int) =~= x@);
    assert(y@.subrange(0, y.len() as int) =~= y@);
    same_range(&x, 0, x.len(), &y, 0, y.len())
}

/// Whether `value` can stand in a rule as part of one segment.
pub fn is_plain_text(value: &str) -> (r: bool)
    ensures
        r == is_plain(value@),
{
    let v = chars_of(value);
    let mut i: usize = 0;
    while i < v.len()
        invariant
            v@ == value@,
            i <= v.len(),
            forall|j: int|
                0 <= j < i ==> v@[j] != SEPARATOR && v@[j] != WILDCARD && v@[j] != ANY,
        decreases v.len() - i,
    {
        if v[i] == SEPARATOR || v[i] == WILDCARD || v[i] == ANY {
            return false;
        }
        i += 1;
    }
    true
}

/// Whether `token` stands somewhere in `text`.
pub fn contains(text: &str, token: &str) -> (r: bool)
    ensures
        r == occurs(text@, token@),
{
    let t = chars_of(text);
    let k = chars_of(token);
    let n = t.len();
    let m = k.len();
    if m > n {
        return false;
    }
    assert(k@.subrange(0, m as int) =~= k@);
    let last = n - m;
    let mut i: usize = 0;
    loop
        invariant
            last == n - m,
            n == t.len(),
            m == k.len(),
            i <= last,
            t@ == text@,
            k@ == token@,
            k@.subrange(0, m as int) == k@,
            forall|j: int| 0 <= j < i ==> !occurs_at(t@, k@, j),
        decreases last - i,
    {
        if same_range(&t, i, i + m, &k, 0, m) {
            assert(occurs_at(t@, k@, i as int));
            return true;
        }
        if i == last {
            return false;
        }
        i += 1;
    }
}

/// `text` with `value` in place of each occurrence of `token`.
pub fn replace(text: &str, token: &str, value: &str) -> (r: String)
    ensures
        r@ == replace_all(text@, token@, value@),
{
    let t = chars_of(text);
    let k = chars_of(token);
    let n = t.len();
    let m = k.len();
    let mut out = String::new();
    let mut i: usize = 0;
    if m == 0 {
        assert(t@.skip(0) =~= t@);
        while i < n
            invariant
                i <= n,
                n == t.len(),
                t@ == text@,
                spread(t@, value@) == out@ + spread(t@.skip(i as int), value@),
            decreases n - i,
        {
            let ghost before = out@;
            out.append(value);
            out.append(text.substring_char(i, i + 1));
            proof {
                let rest = t@.skip(i as int);
                assert(rest.skip(1) =~= t@.skip(i + 1));
                assert(text@.subrange(i as int, i + 1) =~= seq![rest[0]]);
                assert(out@ + spread(rest.skip(1), value@) =~= before + spread(rest, value@));
            }
            i += 1;
        }
        out.append(value);
        return out;
    }
    let mut run: usize = 0;
    assert(t@.skip(0) =~= t@);
    assert(k@.subrange(0, m as int) =~= k@);
    while m <= n - i
        invariant
            0 < m,
            n == t.len(),
            m == k.len(),
            t@ == text@,
            k@ == token@,
            k@.subrange(0, m as int) == k@,
            run <= i <= n,
            replace_all(t@, k@, value@) == out@ + t@.subrange(run as int, i as int) + replace_all(
                t@.skip(i as int),
                k@,
                value@,
            ),
        decreases n - i,
    {
        let ghost rest = t@.skip(i as int);
        let ghost before = out@;
        assert(rest.take(m as int) =~= t@.subrange(i as int, i + m));
        if same_range(&t, i, i + m, &k, 0, m) {
            out.append(text.substring_char(run, i));
            out.append(value);
            proof {
                assert(rest.skip(m as int) =~= t@.skip(i + m));
                assert(out@ + t@.subrange(i + m, i + m) + replace_all(t@.skip(i + m), k@, value@)
                    =~= before + t@.subrange(run as int, i as int) + replace_all(rest, k@, value@));
            }
            i += m;
            run = i;
        } else {
            proof {
                assert(rest.skip(1) =~= t@.skip(i + 1));
                assert(out@ + t@.subrange(run as int, i + 1) + replace_all(t@.skip(i + 1), k@, value@)
                    =~= before + t@.subrange(run as int, i as int) + replace_all(rest, k@, value@));
            }
            i += 1;
        }
    }
    out.append(text.substring_char(run, n));
    proof {
        assert(out@ =~= replace_all(t@, k@, value@));
    }
    out
}

} // verus!
