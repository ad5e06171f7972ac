//! Character- and byte-level building blocks shared by the object formats:
//! decimal numbers, line splitting, field splitting and conversions between
//! bytes, characters and strings.
use vstd::prelude::*;
use vstd::utf8::*;

verus! {

/// The ASCII digits of `n` in base ten, most significant first, with no
/// leading zeros (`0` is the single digit `0`).
pub open spec fn decimal(n: nat) -> Seq<u8>
    decreases n,
{
    if n < 10 {
        seq![(48 + n) as u8]
    } else {
        decimal(n / 10) + seq![(48 + n % 10) as u8]
    }
}

/// Every byte of a decimal number is an ASCII digit, so none of them is NUL.
pub proof fn lemma_decimal_digits(n: nat)
    ensures
        decimal(n).len() >= 1,
        forall|i: int| 0 <= i < decimal(n).len() ==> 48 <= #[trigger] decimal(n)[i] <= 57,
    decreases n,
{
    if n >= 10 {
        lemma_decimal_digits(n / 10);
    }
}

/// The number that a string of decimal digits stands for, read in base ten
/// with the most significant digit first.
pub open spec fn digits_value(s: Seq<u8>) -> int
    decreases s.len(),
{
    if s.len() == 0 {
        0
    } else {
        digits_value(s.drop_last()) * 10 + (s.last() - 48)
    }
}

/// `decimal(n)` is the usual numeral of `n`: its digits read in base ten
/// give `n` back, and it starts with `0` only when it is `0` itself.
pub proof fn lemma_decimal_value(n: nat)
    ensures
        digits_value(decimal(n)) == n,
        decimal(n).len() >= 1,
        forall|i: int| 0 <= i < decimal(n).len() ==> 48 <= #[trigger] decimal(n)[i] <= 57,
        decimal(n)[0] == 48u8 <==> n == 0,
        n == 0 ==> decimal(n) == seq![48u8],
    decreases n,
{
    lemma_decimal_digits(n);
    if n >= 10 {
        let m = n / 10;
        lemma_decimal_value(m);
        let d = decimal(n);
        assert(d.drop_last() =~= decimal(m));
        assert(d.last() == (48 + n % 10) as u8);
        assert(d.last() - 48 == n % 10);
        assert(digits_value(d) == digits_value(d.drop_last()) * 10 + (d.last() - 48));
        assert(digits_value(d) == m * 10 + n % 10);
        assert(d[0] == decimal(m)[0]);
        assert(m * 10 + n % 10 == n) by (nonlinear_arith)
            requires
                m == n / 10,
        ;
    } else {
        let d = decimal(n);
        assert(d.drop_last() =~= Seq::<u8>::empty());
        assert(d.last() - 48 == n);
        assert(digits_value(d) == digits_value(d.drop_last()) * 10 + (d.last() - 48));
    }
}

/// Writes the decimal digits of `n`.
pub fn decimal_bytes(n: usize) -> (res: Vec<u8>)
    ensures
        res@ == decimal(n as nat),
    decreases n,
{
    if n < 10 {
        let mut v: Vec<u8> = Vec::new();
        v.push(48u8 + n as u8);
        v
    } else {
        let mut v = decimal_bytes(n / 10);
        v.push(48u8 + (n % 10) as u8);
        v
    }
}


/// Index of the first occurrence of `c` in `s`, or `s.len()` when there is none.
pub open spec fn first_index_of<T>(s: Seq<T>, c: T) -> int
    decreases s.len(),
{
    if s.len() == 0 {
        0
    } else if s[0] == c {
        0
    } else {
        1 + first_index_of(s.drop_first(), c)
    }
}

/// `first_index_of` is characterised by its position: nothing before it is
/// `c`, and it is either the end or an occurrence of `c`.
pub proof fn lemma_first_index_of<T>(s: Seq<T>, c: T, k: int)
    requires
        0 <= k <= s.len(),
        forall|j: int| 0 <= j < k ==> s[j] != c,
        k == s.len() || s[k] == c,
    ensures
        first_index_of(s, c) == k,
    decreases s.len(),
{
    if s.len() > 0 && s[0] != c {
        lemma_first_index_of(s.drop_first(), c, k - 1);
    }
}

/// Bounds and meaning of `first_index_of`.
pub proof fn lemma_first_index_of_bounds<T>(s: Seq<T>, c: T)
    ensures
        0 <= first_index_of(s, c) <= s.len(),
        forall|j: int| 0 <= j < first_index_of(s, c) ==> s[j] != c,
        first_index_of(s, c) < s.len() ==> s[first_index_of(s, c)] == c,
    decreases s.len(),
{
    if s.len() > 0 && s[0] != c {
        lemma_first_index_of_bounds(s.drop_first(), c);
        assert forall|j: int| 0 <= j < first_index_of(s, c) implies s[j] != c by {
            if j > 0 {
                assert(s[j] == s.drop_first()[j - 1]);
            }
        }
    }
}

/// A line with one trailing carriage return removed, if it has one.
pub open spec fn strip_cr(l: Seq<char>) -> Seq<char> {
    if l.len() > 0 && l.last() == '\r' {
        l.drop_last()
    } else {
        l
    }
}

/// The lines of a text, as `str::lines` yields them: the text is cut after
/// every `\n`; the `\n`, and a `\r` right before it, are dropped; an empty
/// piece after a final `\n` is not a line.
pub open spec fn lines(s: Seq<char>) -> Seq<Seq<char>>
    decreases s.len(),
{
    if s.len() == 0 {
        seq![]
    } else {
        let k = first_index_of(s, '\n');
        proof {
            lemma_first_index_of_bounds(s, '\n');
        }
        if k >= s.len() {
            seq![s]
        } else {
            seq![strip_cr(s.take(k))] + lines(s.skip(k + 1))
        }
    }
}

/// Splits `cs` into its lines (see `lines`).
pub fn split_lines(cs: &[char]) -> (res: Vec<Vec<char>>)
    ensures
        res@.map_values(|l: Vec<char>| l@) == lines(cs@),
{
    let n = cs.len();
    let mut res: Vec<Vec<char>> = Vec::new();
    let mut start: usize = 0;
    assert(cs@.skip(0) == cs@);
    while start < n
        invariant
            n == cs@.len(),
            start <= n,
            res@.map_values(|l: Vec<char>| l@) + lines(cs@.skip(start as int)) == lines(cs@),
        decreases n - start,
    {
        let ghost rest = cs@.skip(start as int);
        let mut i = start;
        while i < n && cs[i] != '\n'
            invariant
                n == cs@.len(),
                start <= i <= n,
                forall|j: int| start <= j < i ==> cs@[j] != '\n',
            decreases n - i,
        {
            i = i + 1;
        }
        proof {
            lemma_first_index_of(rest, '\n', i - start);
        }
        let ghost old_res = res@.map_values(|l: Vec<char>| l@);
        if i == n {
            let line = vstd::slice::slice_to_vec(vstd::slice::slice_subrange(cs, start, n));
            res.push(line);
            assert(rest.skip(rest.len() as int) =~= Seq::<char>::empty());
            assert(cs@.skip(n as int) =~= Seq::<char>::empty());
            assert(rest =~= cs@.subrange(start as int, n as int));
            assert(res@.map_values(|l: Vec<char>| l@) =~= old_res.push(rest));
            start = n;
        } else {
            let end = if i > start && cs[i - 1] == '\r' { i - 1 } else { i };
            let line = vstd::slice::slice_to_vec(vstd::slice::slice_subrange(cs, start, end));
            res.push(line);
            assert(rest.take(i - start) =~= cs@.subrange(start as int, i as int));
            assert(strip_cr(rest.take(i - start)) =~= cs@.subrange(start as int, end as int));
            assert(rest.skip(i - start + 1) =~= cs@.skip(i + 1));
            assert(res@.map_values(|l: Vec<char>| l@) =~= old_res.push(strip_cr(rest.take(i - start))));
            start = i + 1;
        }
    }
    assert(cs@.skip(n as int) =~= Seq::<char>::empty());
    assert(res@.map_values(|l: Vec<char>| l@) + Seq::<Seq<char>>::empty() =~= res@.map_values(|l: Vec<char>| l@));
    res
}


/// A line that holds no line break and does not end with a carriage return
/// comes back unchanged from `lines`.
pub open spec fn plain_line(l: Seq<char>) -> bool {
    !l.contains('\n') && !(l.len() > 0 && l.last() == '\r')
}

/// The first line of a text that starts with a plain line and a newline.
pub proof fn lemma_lines_cons(l: Seq<char>, x: Seq<char>)
    requires
        plain_line(l),
    ensures
        lines(l + seq!['\n'] + x) == seq![l] + lines(x),
{
    let t = l + seq!['\n'] + x;
    let k = l.len() as int;
    assert forall|j: int| 0 <= j < k implies t[j] != '\n' by {
        assert(t[j] == l[j]);
        if t[j] == '\n' {
            assert(l.contains(l[j]));
        }
    }
    assert(t[k] == '\n');
    lemma_first_index_of(t, '\n', k);
    assert(t.take(k) =~= l);
    assert(t.skip(k + 1) =~= x);
}

/// The lines joined with `\n` between them, as `join("\n")` does.
pub open spec fn join_lines(ls: Seq<Seq<char>>) -> Seq<char>
    decreases ls.len(),
{
    if ls.len() == 0 {
        seq![]
    } else if ls.len() == 1 {
        ls[0]
    } else {
        ls[0] + seq!['\n'] + join_lines(ls.drop_first())
    }
}

/// Every carriage return of `s` is followed by a character other than `\n`.
pub open spec fn no_crlf(s: Seq<char>) -> bool {
    forall|i: int| 0 <= i < s.len() && #[trigger] s[i] == '\r' ==> i + 1 < s.len() && s[i + 1] != '\n'
}

/// A text followed by a newline splits into lines that join back to it,
/// unless it holds a carriage return right before a line break or at its end.
pub proof fn lemma_join_lines(m: Seq<char>)
    requires
        no_crlf(m),
    ensures
        join_lines(lines(m + seq!['\n'])) == m,
    decreases m.len(),
{
    let k = first_index_of(m, '\n');
    lemma_first_index_of_bounds(m, '\n');
    let t = m + seq!['\n'];
    if k == m.len() {
        assert(plain_line(m)) by {
            if m.contains('\n') {
                let j = choose|j: int| 0 <= j < m.len() && m[j] == '\n';
            }
            if m.len() > 0 && m.last() == '\r' {
                assert(m[m.len() - 1] == '\r');
            }
        }
        lemma_lines_cons(m, Seq::<char>::empty());
        assert(m + seq!['\n'] + Seq::<char>::empty() =~= t);
        assert(lines(Seq::<char>::empty()) =~= Seq::<Seq<char>>::empty());
        assert(seq![m] + Seq::<Seq<char>>::empty() =~= seq![m]);
    } else {
        let head = m.take(k);
        let tail = m.skip(k + 1);
        assert(plain_line(head)) by {
            if head.contains('\n') {
                let j = choose|j: int| 0 <= j < head.len() && head[j] == '\n';
                assert(m[j] == '\n');
            }
            if head.len() > 0 && head.last() == '\r' {
                assert(m[k - 1] == '\r');
            }
        }
        assert(no_crlf(tail)) by {
            assert forall|i: int| 0 <= i < tail.len() && #[trigger] tail[i] == '\r' implies i + 1 < tail.len()
                && tail[i + 1] != '\n' by {
                assert(m[k + 1 + i] == '\r');
            }
        }
        lemma_join_lines(tail);
        assert(t =~= head + seq!['\n'] + (tail + seq!['\n']));
        lemma_lines_cons(head, tail + seq!['\n']);
        let rest = lines(tail + seq!['\n']);
        assert(rest.len() > 0);
        let all = seq![head] + rest;
        assert(all.drop_first() =~= rest);
        assert(join_lines(all) == head + seq!['\n'] + join_lines(rest));
        assert(m =~= head + seq!['\n'] + tail);
    }
}

/// Position of the first `b` in `bs` (or `bs.len()` when there is none).
pub fn find_byte(bs: &[u8], b: u8) -> (k: usize)
    ensures
        k as int == first_index_of(bs@, b),
        k <= bs@.len(),
{
    let n = bs.len();
    let mut i: usize = 0;
    while i < n && bs[i] != b
        invariant
            n == bs@.len(),
            i <= n,
            forall|j: int| 0 <= j < i ==> bs@[j] != b,
        decreases n - i,
    {
        i = i + 1;
    }
    proof {
        lemma_first_index_of(bs@, b, i as int);
    }
    i
}

/// Position of the first `c` in `cs` (or `cs.len()` when there is none).
pub fn find_char(cs: &[char], c: char) -> (k: usize)
    ensures
        k as int == first_index_of(cs@, c),
        k <= cs@.len(),
{
    let n = cs.len();
    let mut i: usize = 0;
    while i < n && cs[i] != c
        invariant
            n == cs@.len(),
            i <= n,
            forall|j: int| 0 <= j < i ==> cs@[j] != c,
        decreases n - i,
    {
        i = i + 1;
    }
    proof {
        lemma_first_index_of(cs@, c, i as int);
    }
    i
}

/// The two pieces of `s` around its first `c`, as `splitn(2, c)` gives them:
/// the whole text and nothing when `c` does not occur.
pub open spec fn split_once(s: Seq<char>, c: char) -> (Seq<char>, Option<Seq<char>>) {
    let k = first_index_of(s, c);
    if k >= s.len() {
        (s, None)
    } else {
        (s.take(k), Some(s.skip(k + 1)))
    }
}

/// The characters that Unicode gives the `White_Space` property, which is
/// what `char::is_whitespace` tests.
pub open spec fn is_white_space(c: char) -> bool {
    let u = c as u32;
    ||| 0x09 <= u <= 0x0d
    ||| u == 0x20
    ||| u == 0x85
    ||| u == 0xa0
    ||| u == 0x1680
    ||| 0x2000 <= u <= 0x200a
    ||| u == 0x2028
    ||| u == 0x2029
    ||| u == 0x202f
    ||| u == 0x205f
    ||| u == 0x3000
}

/// Whether `c` has the Unicode `White_Space` property: the test that std's
/// `char::is_whitespace` documents, written out over its code points.
fn char_is_whitespace(c: char) -> (res: bool)
    ensures
        res == is_white_space(c),
{
    let u = c as u32;
    (0x09 <= u && u <= 0x0d) || u == 0x20 || u == 0x85 || u == 0xa0 || u == 0x1680 || (0x2000 <= u
        && u <= 0x200a) || u == 0x2028 || u == 0x2029 || u == 0x202f || u == 0x205f || u == 0x3000
}

/// Index of the first white-space character of `s`, or `s.len()`.
pub open spec fn first_white_space(s: Seq<char>) -> int
    decreases s.len(),
{
    if s.len() == 0 {
        0
    } else if is_white_space(s[0]) {
        0
    } else {
        1 + first_white_space(s.drop_first())
    }
}

pub proof fn lemma_first_white_space(s: Seq<char>, k: int)
    requires
        0 <= k <= s.len(),
        forall|j: int| 0 <= j < k ==> !is_white_space(s[j]),
        k == s.len() || is_white_space(s[k]),
    ensures
        first_white_space(s) == k,
    decreases s.len(),
{
    if s.len() > 0 && !is_white_space(s[0]) {
        lemma_first_white_space(s.drop_first(), k - 1);
    }
}

pub proof fn lemma_first_white_space_bounds(s: Seq<char>)
    ensures
        0 <= first_white_space(s) <= s.len(),
    decreases s.len(),
{
    if s.len() > 0 && !is_white_space(s[0]) {
        lemma_first_white_space_bounds(s.drop_first());
    }
}

/// The maximal runs of non-white-space characters of `s`, in order, as
/// `split_whitespace` yields them.
pub open spec fn words(s: Seq<char>) -> Seq<Seq<char>>
    decreases s.len(),
{
    if s.len() == 0 {
        seq![]
    } else if is_white_space(s[0]) {
        words(s.drop_first())
    } else {
        let k = first_white_space(s);
        proof {
            lemma_first_white_space_bounds(s.drop_first());
        }
        seq![s.take(k)] + words(s.skip(k))
    }
}

/// No character of `s` is white space.
pub open spec fn no_white_space(s: Seq<char>) -> bool {
    forall|i: int| 0 <= i < s.len() ==> !is_white_space(#[trigger] s[i])
}

/// A word followed by white space (or by nothing) is the first word.
pub proof fn lemma_words_word_first(w: Seq<char>, t: Seq<char>)
    requires
        w.len() > 0,
        no_white_space(w),
        t.len() == 0 || is_white_space(t[0]),
    ensures
        words(w + t) == seq![w] + words(t),
{
    let s = w + t;
    assert forall|j: int| 0 <= j < w.len() implies !is_white_space(s[j]) by {
        assert(s[j] == w[j]);
    }
    if t.len() > 0 {
        assert(s[w.len() as int] == t[0]);
    }
    lemma_first_white_space(s, w.len() as int);
    assert(s.take(w.len() as int) =~= w);
    assert(s.skip(w.len() as int) =~= t);
}

/// White space before the words does not count.
pub proof fn lemma_words_white_first(c: char, t: Seq<char>)
    requires
        is_white_space(c),
    ensures
        words(seq![c] + t) == words(t),
{
    assert((seq![c] + t).drop_first() =~= t);
}

/// Three words separated by single spaces.
pub proof fn lemma_words_three(a: Seq<char>, b: Seq<char>, c: Seq<char>)
    requires
        a.len() > 0 && no_white_space(a),
        b.len() > 0 && no_white_space(b),
        c.len() > 0 && no_white_space(c),
    ensures
        words(a + seq![' '] + b + seq![' '] + c) == seq![a, b, c],
{
    let sp = seq![' '];
    assert(is_white_space(' '));
    assert(a + sp + b + sp + c =~= a + (sp + (b + (sp + c))));
    lemma_words_word_first(a, sp + (b + (sp + c)));
    lemma_words_white_first(' ', b + (sp + c));
    lemma_words_word_first(b, sp + c);
    lemma_words_white_first(' ', c);
    lemma_words_word_first(c, Seq::<char>::empty());
    assert(c + Seq::<char>::empty() =~= c);
    assert(words(Seq::<char>::empty()) =~= Seq::<Seq<char>>::empty());
    assert(seq![a] + (seq![b] + (seq![c] + Seq::<Seq<char>>::empty())) =~= seq![a, b, c]);
}

/// Splits `cs` at white space (see `words`).
pub fn split_words(cs: &[char]) -> (res: Vec<Vec<char>>)
    ensures
        res@.map_values(|w: Vec<char>| w@) == words(cs@),
{
    let n = cs.len();
    let mut res: Vec<Vec<char>> = Vec::new();
    let mut i: usize = 0;
    assert(cs@.skip(0) =~= cs@);
    while i < n
        invariant
            n == cs@.len(),
            i <= n,
            res@.map_values(|w: Vec<char>| w@) + words(cs@.skip(i as int)) == words(cs@),
        decreases n - i,
    {
        let ghost before = cs@.skip(i as int);
        let ghost old_res = res@.map_values(|w: Vec<char>| w@);
        if char_is_whitespace(cs[i]) {
            assert(before.drop_first() =~= cs@.skip(i + 1));
            i = i + 1;
        } else {
            let mut j = i + 1;
            while j < n && !char_is_whitespace(cs[j])
                invariant
                    n == cs@.len(),
                    i < j <= n,
                    forall|m: int| i <= m < j ==> !is_white_space(cs@[m]),
                decreases n - j,
            {
                j = j + 1;
            }
            proof {
                lemma_first_white_space(before, j - i);
            }
            let w = vstd::slice::slice_to_vec(vstd::slice::slice_subrange(cs, i, j));
            res.push(w);
            assert(before.take(j - i) =~= cs@.subrange(i as int, j as int));
            assert(before.skip(j - i) =~= cs@.skip(j as int));
            assert(res@.map_values(|w: Vec<char>| w@) =~= old_res.push(before.take(j - i)));
            i = j;
        }
    }
    assert(cs@.skip(n as int) =~= Seq::<char>::empty());
    assert(res@.map_values(|w: Vec<char>| w@) + Seq::<Seq<char>>::empty() =~= res@.map_values(|w: Vec<char>| w@));
    res
}

/// `s` without the white space at its start.
pub open spec fn trim_start(s: Seq<char>) -> Seq<char>
    decreases s.len(),
{
    if s.len() > 0 && is_white_space(s[0]) {
        trim_start(s.drop_first())
    } else {
        s
    }
}

/// `s` without the white space at its end.
pub open spec fn trim_end(s: Seq<char>) -> Seq<char>
    decreases s.len(),
{
    if s.len() > 0 && is_white_space(s.last()) {
        trim_end(s.drop_last())
    } else {
        s
    }
}

/// `s` without white space at either end, as `str::trim` gives it.
pub open spec fn trim(s: Seq<char>) -> Seq<char> {
    trim_end(trim_start(s))
}

proof fn lemma_trim_start(s: Seq<char>, i: int)
    requires
        0 <= i <= s.len(),
        forall|j: int| 0 <= j < i ==> is_white_space(s[j]),
        i == s.len() || !is_white_space(s[i]),
    ensures
        trim_start(s) == s.skip(i),
    decreases i,
{
    if i > 0 {
        assert(s.drop_first().skip(i - 1) =~= s.skip(i));
        lemma_trim_start(s.drop_first(), i - 1);
    } else {
        assert(s.skip(0) =~= s);
    }
}

proof fn lemma_trim_end(s: Seq<char>, k: int)
    requires
        0 <= k <= s.len(),
        forall|j: int| k <= j < s.len() ==> is_white_space(s[j]),
        k == 0 || !is_white_space(s[k - 1]),
    ensures
        trim_end(s) == s.take(k),
    decreases s.len() - k,
{
    if k < s.len() {
        assert(s.drop_last().take(k) =~= s.take(k));
        lemma_trim_end(s.drop_last(), k);
    } else {
        assert(s.take(k) =~= s);
    }
}

/// The characters of `cs` without white space at either end.
pub fn trim_chars(cs: &[char]) -> (res: Vec<char>)
    ensures
        res@ == trim(cs@),
{
    let n = cs.len();
    let mut a: usize = 0;
    while a < n && char_is_whitespace(cs[a])
        invariant
            n == cs@.len(),
            a <= n,
            forall|j: int| 0 <= j < a ==> is_white_space(cs@[j]),
        decreases n - a,
    {
        a = a + 1;
    }
    proof {
        lemma_trim_start(cs@, a as int);
    }
    let mut b: usize = n;
    while b > a && char_is_whitespace(cs[b - 1])
        invariant
            n == cs@.len(),
            a <= b <= n,
            forall|j: int| b <= j < n ==> is_white_space(cs@[j]),
        decreases b,
    {
        b = b - 1;
    }
    proof {
        let t = cs@.skip(a as int);
        assert forall|j: int| (b - a) <= j < t.len() implies is_white_space(t[j]) by {
            assert(t[j] == cs@[a + j]);
        }
        lemma_trim_end(t, b - a);
        assert(t.take(b - a) =~= cs@.subrange(a as int, b as int));
    }
    vstd::slice::slice_to_vec(vstd::slice::slice_subrange(cs, a, b))
}

/// UTF-8 encoding distributes over concatenation.
pub proof fn lemma_encode_utf8_concat(a: Seq<char>, b: Seq<char>)
    ensures
        encode_utf8(a + b) == encode_utf8(a) + encode_utf8(b),
    decreases a.len(),
{
    if a.len() == 0 {
        assert(a + b =~= b);
        assert(encode_utf8(a) + encode_utf8(b) =~= encode_utf8(b));
    } else {
        assert((a + b).drop_first() =~= a.drop_first() + b);
        lemma_encode_utf8_concat(a.drop_first(), b);
        assert(encode_utf8(a + b) =~= encode_scalar(a[0] as u32) + encode_utf8(a.drop_first() + b));
    }
}

/// A UTF-8 encoding determines the characters it encodes.
pub proof fn lemma_encode_utf8_injective(a: Seq<char>, b: Seq<char>)
    requires
        encode_utf8(a) == encode_utf8(b),
    ensures
        a == b,
{
    encode_utf8_decode_utf8(a);
    encode_utf8_decode_utf8(b);
}

/// The characters of a string.
pub fn chars_of(s: &str) -> (res: Vec<char>)
    ensures
        res@ == s@,
{
    broadcast use vstd::string::group_string_axioms;
    let mut it = s.chars();
    let mut out: Vec<char> = Vec::new();
    loop
        invariant
            out@ + vstd::std_specs::iter::IteratorSpec::remaining(&it) == s@,
            vstd::std_specs::iter::IteratorSpec::obeys_prophetic_iter_laws(&it),
            vstd::std_specs::iter::IteratorSpec::decrease(&it) is Some,
        decreases vstd::std_specs::iter::IteratorSpec::decrease(&it)->0,
    {
        match it.next() {
            Some(c) => {
                out.push(c);
            },
            None => {
                assert(out@ + vstd::std_specs::iter::IteratorSpec::remaining(&it) =~= out@);
                return out;
            },
        }
    }
}

/// The string made of the given characters (std's `FromIterator<char>` for
/// `String`).
#[verifier::external_body]
pub(crate) fn string_of(cs: &[char]) -> (res: String)
    ensures
        res@ == cs@,
{
    cs.iter().collect()
}

/// What `String::from_utf8_lossy` makes of a byte sequence: its characters
/// when the bytes are valid UTF-8, with replacement characters otherwise.
pub uninterp spec fn utf8_lossy(bytes: Seq<u8>) -> Seq<char>;

/// `String::from_utf8_lossy` from std. The result is a function of the bytes
/// alone; std documents that valid UTF-8 is decoded unchanged. How invalid
/// sequences are replaced is left to the name `utf8_lossy`.
#[verifier::external_body]
pub(crate) fn decode_lossy(bytes: &[u8]) -> (res: String)
    ensures
        res@ == utf8_lossy(bytes@),
        valid_utf8(bytes@) ==> res@ == decode_utf8(bytes@),
{
    String::from_utf8_lossy(bytes).into_owned()
}

/// Whether two texts are equal.
pub fn str_eq(a: &str, b: &str) -> (res: bool)
    ensures
        res == (a@ == b@),
{
    String::from_str(a) == String::from_str(b)
}

/// Byte-wise lexicographic order, the order of `str` and `String`: a proper
/// prefix comes first, otherwise the first differing byte decides.
pub open spec fn bytes_lt(a: Seq<u8>, b: Seq<u8>) -> bool
    decreases a.len(),
{
    if a.len() == 0 {
        b.len() > 0
    } else if b.len() == 0 {
        false
    } else if a[0] != b[0] {
        a[0] < b[0]
    } else {
        bytes_lt(a.drop_first(), b.drop_first())
    }
}

/// The order of `bytes_lt` is that of `str`: where two byte strings first
/// differ, the one with the smaller byte (as an unsigned number) comes
/// first; a proper prefix comes before the longer string; nothing comes
/// before one of its own prefixes.
pub proof fn lemma_bytes_lt_first_difference(a: Seq<u8>, b: Seq<u8>, i: int)
    requires
        0 <= i <= a.len(),
        i <= b.len(),
        a.take(i) == b.take(i),
    ensures
        i < a.len() && i < b.len() && a[i] != b[i] ==> (bytes_lt(a, b) <==> a[i] < b[i]),
        i == a.len() && i < b.len() ==> bytes_lt(a, b),
        i == b.len() ==> !bytes_lt(a, b),
    decreases i,
{
    if i > 0 {
        assert(a[0] == a.take(i)[0] && b[0] == b.take(i)[0]);
        assert(a.drop_first().take(i - 1) =~= b.drop_first().take(i - 1)) by {
            assert forall|k: int| 0 <= k < i - 1 implies #[trigger] a.drop_first().take(i - 1)[k] == b.drop_first().take(i - 1)[k] by {
                assert(a.drop_first().take(i - 1)[k] == a[k + 1]);
                assert(b.drop_first().take(i - 1)[k] == b[k + 1]);
                assert(a.take(i)[k + 1] == a[k + 1]);
                assert(b.take(i)[k + 1] == b[k + 1]);
                assert(a.take(i)[k + 1] == b.take(i)[k + 1]);
            }
        }
        lemma_bytes_lt_first_difference(a.drop_first(), b.drop_first(), i - 1);
    }
}

/// `bytes_lt` is irreflexive.
pub proof fn lemma_bytes_lt_irreflexive(a: Seq<u8>)
    ensures
        !bytes_lt(a, a),
    decreases a.len(),
{
    if a.len() > 0 {
        lemma_bytes_lt_irreflexive(a.drop_first());
    }
}

/// `bytes_lt` is asymmetric.
pub proof fn lemma_bytes_lt_asymmetric(a: Seq<u8>, b: Seq<u8>)
    ensures
        bytes_lt(a, b) ==> !bytes_lt(b, a),
    decreases a.len(),
{
    if a.len() > 0 && b.len() > 0 {
        lemma_bytes_lt_asymmetric(a.drop_first(), b.drop_first());
    }
}

/// `bytes_lt` is transitive.
pub proof fn lemma_bytes_lt_transitive(a: Seq<u8>, b: Seq<u8>, c: Seq<u8>)
    ensures
        bytes_lt(a, b) && bytes_lt(b, c) ==> bytes_lt(a, c),
    decreases a.len(),
{
    if a.len() > 0 && b.len() > 0 && c.len() > 0 {
        lemma_bytes_lt_transitive(a.drop_first(), b.drop_first(), c.drop_first());
    }
}

/// Of two different byte sequences, one sorts before the other.
pub proof fn lemma_bytes_lt_total(a: Seq<u8>, b: Seq<u8>)
    ensures
        a != b ==> bytes_lt(a, b) || bytes_lt(b, a),
    decreases a.len(),
{
    if a.len() > 0 && b.len() > 0 {
        lemma_bytes_lt_total(a.drop_first(), b.drop_first());
        if a[0] == b[0] && a.drop_first() == b.drop_first() {
            assert(a =~= seq![a[0]] + a.drop_first());
            assert(b =~= seq![b[0]] + b.drop_first());
        }
    } else if a.len() == 0 && b.len() == 0 {
        assert(a =~= b);
    }
}

/// Whether `a` sorts before `b` as `str` does.
pub fn str_lt(a: &str, b: &str) -> (res: bool)
    ensures
        res == bytes_lt(encode_utf8(a@), encode_utf8(b@)),
{
    let x = a.as_bytes();
    let y = b.as_bytes();
    let mut i: usize = 0;
    assert(x@.skip(0) =~= x@);
    assert(y@.skip(0) =~= y@);
    while i < x.len() && i < y.len() && x[i] == y[i]
        invariant
            i <= x@.len(),
            i <= y@.len(),
            x@.take(i as int) == y@.take(i as int),
            bytes_lt(x@, y@) == bytes_lt(x@.skip(i as int), y@.skip(i as int)),
        decreases x@.len() - i,
    {
        proof {
            assert(x@.skip(i as int).drop_first() =~= x@.skip(i + 1));
            assert(y@.skip(i as int).drop_first() =~= y@.skip(i + 1));
            assert(x@.take(i + 1) =~= x@.take(i as int).push(x@[i as int]));
            assert(y@.take(i + 1) =~= y@.take(i as int).push(y@[i as int]));
        }
        i = i + 1;
    }
    proof {
        assert(x@.skip(i as int).len() == x@.len() - i);
        if i < x@.len() && i < y@.len() {
            assert(x@.skip(i as int)[0] == x@[i as int]);
            assert(y@.skip(i as int)[0] == y@[i as int]);
        }
    }
    if i < x.len() && i < y.len() {
        x[i] < y[i]
    } else {
        i == x.len() && i < y.len()
    }
}

/// Appends `src` to `dst`.
pub fn push_all(dst: &mut Vec<u8>, src: &[u8])
    ensures
        final(dst)@ == old(dst)@ + src@,
{
    let n = src.len();
    let mut i: usize = 0;
    while i < n
        invariant
            n == src@.len(),
            i <= n,
            dst@ == old(dst)@ + src@.take(i as int),
        decreases n - i,
    {
        dst.push(src[i]);
        assert(src@.take(i + 1) =~= src@.take(i as int).push(src@[i as int]));
        i = i + 1;
    }
    assert(src@.take(n as int) =~= src@);
}

} // verus!
