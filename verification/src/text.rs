//! Character-level text helpers: whitespace, trimming, line splitting,
//! prefix and substring tests, and decimal numbers.
use vstd::prelude::*;

verus! {

/// Unicode `White_Space` characters, the set that `char::is_whitespace`
/// documents.
pub open spec fn is_ws(c: char) -> bool {
    ||| ('\u{9}' <= c && c <= '\u{d}')
    ||| c == ' '
    ||| c == '\u{85}'
    ||| c == '\u{a0}'
    ||| c == '\u{1680}'
    ||| ('\u{2000}' <= c && c <= '\u{200a}')
    ||| c == '\u{2028}'
    ||| c == '\u{2029}'
    ||| c == '\u{202f}'
    ||| c == '\u{205f}'
    ||| c == '\u{3000}'
}

/// Whether `c` is a Unicode whitespace character.
pub fn is_whitespace(c: char) -> (r: bool)
    ensures
        r == is_ws(c),
{
    ('\u{9}' <= c && c <= '\u{d}') || c == ' ' || c == '\u{85}' || c == '\u{a0}' || c
        == '\u{1680}' || ('\u{2000}' <= c && c <= '\u{200a}') || c == '\u{2028}' || c
        == '\u{2029}' || c == '\u{202f}' || c == '\u{205f}' || c == '\u{3000}'
}

/// The first index at or after `i` that does not hold whitespace.
pub open spec fn ws_end(s: Seq<char>, i: int) -> int
    decreases s.len() - i,
{
    if 0 <= i < s.len() && is_ws(s[i]) {
        ws_end(s, i + 1)
    } else {
        i
    }
}

/// Moving down from `j`, the first end (above `lo`) whose previous character
/// is not whitespace.
pub open spec fn ws_start(s: Seq<char>, lo: int, j: int) -> int
    decreases j - lo,
{
    if lo < j <= s.len() && is_ws(s[j - 1]) {
        ws_start(s, lo, j - 1)
    } else {
        j
    }
}

/// `s` without leading and trailing whitespace (`str::trim`).
pub open spec fn trimmed(s: Seq<char>) -> Seq<char> {
    let a = ws_end(s, 0);
    s.subrange(a, ws_start(s, a, s.len() as int))
}

/// `s` holds whitespace only.
pub open spec fn blank(s: Seq<char>) -> bool {
    trimmed(s).len() == 0
}

/// `p` is a prefix of `s`.
pub open spec fn has_prefix(s: Seq<char>, p: Seq<char>) -> bool {
    p.len() <= s.len() && s.subrange(0, p.len() as int) == p
}

/// `p` occurs in `s` at position `i`.
pub open spec fn occurs_at(s: Seq<char>, p: Seq<char>, i: int) -> bool {
    0 <= i && i + p.len() <= s.len() && s.subrange(i, i + p.len()) == p
}

/// `p` occurs somewhere in `s`.
pub open spec fn has_infix(s: Seq<char>, p: Seq<char>) -> bool {
    exists|i: int| occurs_at(s, p, i)
}

/// The first position at or after `i` that holds `c`, or the length.
pub open spec fn find_from(s: Seq<char>, c: char, i: int) -> int
    decreases s.len() - i,
{
    if 0 <= i < s.len() && s[i] != c {
        find_from(s, c, i + 1)
    } else {
        i
    }
}

/// A line with a final carriage return dropped.
pub open spec fn strip_cr(l: Seq<char>) -> Seq<char> {
    if l.len() > 0 && l.last() == '\r' {
        l.drop_last()
    } else {
        l
    }
}

/// The lines of `s[start..]` when the current line started at `start` and
/// the scan has reached `i` (`str::lines`: split after each `\n`, drop the
/// `\n` and a `\r` before it; a final line without `\n` is kept as is).
pub open spec fn lines_from(s: Seq<char>, start: int, i: int) -> Seq<Seq<char>>
    decreases s.len() - i,
{
    if i < 0 || i >= s.len() {
        if 0 <= start < s.len() {
            seq![s.subrange(start, s.len() as int)]
        } else {
            seq![]
        }
    } else if s[i] == '\n' {
        seq![strip_cr(s.subrange(start, i))] + lines_from(s, i + 1, i + 1)
    } else {
        lines_from(s, start, i + 1)
    }
}

/// The lines of `s`, as `str::lines` yields them.
pub open spec fn lines(s: Seq<char>) -> Seq<Seq<char>> {
    lines_from(s, 0, 0)
}

/// The views of a sequence of character vectors.
pub open spec fn views(v: Seq<Vec<char>>) -> Seq<Seq<char>> {
    v.map_values(|l: Vec<char>| l@)
}

pub proof fn lemma_views_len(v: Seq<Vec<char>>)
    ensures
        #[trigger] views(v).len() == v.len(),
{
}

pub proof fn lemma_views_at(v: Seq<Vec<char>>, i: int)
    requires
        0 <= i < v.len(),
    ensures
        #![trigger v[i]]
        #![trigger views(v)[i]]
        views(v)[i] == v[i]@,
{
}

pub proof fn lemma_views_push(v: Seq<Vec<char>>, l: Vec<char>)
    ensures
        #[trigger] views(v.push(l)) == views(v).push(l@),
{
    assert(views(v.push(l)) =~= views(v).push(l@));
}

/// The pieces of `s[start..]` separated by `c`, when the current piece
/// started at `start` and the scan reached `i` (`str::split` with a char).
pub open spec fn split_from(s: Seq<char>, c: char, start: int, i: int) -> Seq<Seq<char>>
    decreases s.len() - i,
{
    if i < 0 || i >= s.len() {
        seq![s.subrange(start, s.len() as int)]
    } else if s[i] == c {
        seq![s.subrange(start, i)] + split_from(s, c, i + 1, i + 1)
    } else {
        split_from(s, c, start, i + 1)
    }
}

/// The pieces of `s` separated by `c`, each trimmed.
pub open spec fn trimmed_pieces(s: Seq<char>, c: char) -> Seq<Seq<char>> {
    split_from(s, c, 0, 0).map_values(|p: Seq<char>| trimmed(p))
}

/// The words of `s[start..]` separated by runs of whitespace, when the
/// current word started at `start` and the scan reached `i`
/// (`str::split_whitespace`).
pub open spec fn words_from(s: Seq<char>, start: int, i: int) -> Seq<Seq<char>>
    decreases s.len() - i,
{
    if i < 0 || i >= s.len() {
        if 0 <= start < s.len() {
            seq![s.subrange(start, s.len() as int)]
        } else {
            seq![]
        }
    } else if is_ws(s[i]) {
        (if start < i {
            seq![s.subrange(start, i)]
        } else {
            seq![]
        }) + words_from(s, i + 1, i + 1)
    } else {
        words_from(s, start, i + 1)
    }
}

/// The whitespace-separated words of `s`.
pub open spec fn words(s: Seq<char>) -> Seq<Seq<char>> {
    words_from(s, 0, 0)
}

/// `s` with every leading `c` removed (`str::trim_start_matches` with a
/// char).
pub open spec fn strip_leading(s: Seq<char>, c: char, i: int) -> Seq<char>
    decreases s.len() - i,
{
    if 0 <= i < s.len() && s[i] == c {
        strip_leading(s, c, i + 1)
    } else {
        s.subrange(i, s.len() as int)
    }
}

/// A decimal digit character.
pub open spec fn is_digit(c: char) -> bool {
    '0' <= c && c <= '9'
}

/// The value of a decimal digit character.
pub open spec fn digit_value(c: char) -> nat {
    (c as nat - '0' as nat) as nat
}

/// The value of a string of decimal digits.
pub open spec fn digits_value(d: Seq<char>) -> nat
    decreases d.len(),
{
    if d.len() == 0 {
        0
    } else {
        digits_value(d.drop_last()) * 10 + digit_value(d.last())
    }
}

/// The digits of `s`, after one optional leading `+`.
pub open spec fn unsigned_digits(s: Seq<char>) -> Seq<char> {
    if s.len() > 0 && s[0] == '+' {
        s.drop_first()
    } else {
        s
    }
}

/// What `usize::from_str` gives for `s`: an optional `+`, then one or more
/// ASCII digits whose value fits in `usize`.
pub open spec fn parse_unsigned(s: Seq<char>) -> Option<usize> {
    let d = unsigned_digits(s);
    if d.len() > 0 && (forall|i: int| 0 <= i < d.len() ==> is_digit(#[trigger] d[i]))
        && digits_value(d) <= usize::MAX {
        Some(digits_value(d) as usize)
    } else {
        None
    }
}

/// The character of a digit value below ten.
pub open spec fn digit_char(n: nat) -> char {
    (n + '0' as nat) as char
}

/// The decimal representation of `n`, as `Display` writes it.
pub open spec fn decimal(n: nat) -> Seq<char>
    decreases n,
{
    if n < 10 {
        seq![digit_char(n)]
    } else {
        decimal(n / 10).push(digit_char(n % 10))
    }
}

/// The characters of `s`, in order.
pub fn chars_of(s: &str) -> (chars: Vec<char>)
    ensures
        chars@ == s@,
{
    let mut chars: Vec<char> = Vec::new();
    for c in it: s.chars()
        invariant
            chars@ == it.seq().take(it.index() as int),
            it.seq() == s@,
    {
        chars.push(c);
    }
    chars
}

/// Appends `c` to `s` by `String::push`. Its contract claims what std
/// documents of that call: afterwards the string holds its old characters
/// followed by `c`.
#[verifier::external_body]
fn push_char(s: &mut String, c: char)
    ensures
        final(s)@ == old(s)@.push(c),
{
    s.push(c);
}

/// Appends the characters of `chars` to `s`.
pub fn push_chars(s: &mut String, chars: &Vec<char>)
    ensures
        final(s)@ == old(s)@ + chars@,
{
    let mut i: usize = 0;
    while i < chars.len()
        invariant
            i <= chars@.len(),
            s@ == old(s)@ + chars@.take(i as int),
        decreases chars@.len() - i,
    {
        push_char(s, chars[i]);
        assert(chars@.take(i + 1) =~= chars@.take(i as int).push(chars@[i as int]));
        i = i + 1;
    }
    assert(chars@.take(i as int) =~= chars@);
}

/// A `String` holding the characters of `chars`.
pub fn to_string(chars: &Vec<char>) -> (s: String)
    ensures
        s@ == chars@,
{
    let mut s = String::new();
    push_chars(&mut s, chars);
    s
}

/// The characters `s[from..to]`.
pub fn slice_of(s: &Vec<char>, from: usize, to: usize) -> (r: Vec<char>)
    requires
        from <= to <= s@.len(),
    ensures
        r@ == s@.subrange(from as int, to as int),
{
    let mut r: Vec<char> = Vec::new();
    let mut i = from;
    while i < to
        invariant
            from <= i <= to,
            to <= s@.len(),
            r@ == s@.subrange(from as int, i as int),
        decreases to - i,
    {
        r.push(s[i]);
        assert(s@.subrange(from as int, i + 1) =~= s@.subrange(from as int, i as int).push(
            s@[i as int],
        ));
        i = i + 1;
    }
    r
}

/// `s` without leading and trailing whitespace.
pub fn trim(s: &Vec<char>) -> (t: Vec<char>)
    ensures
        t@ == trimmed(s@),
{
    let n = s.len();
    let mut a: usize = 0;
    while a < n && is_whitespace(s[a])
        invariant
            a <= n,
            n == s@.len(),
            ws_end(s@, a as int) == ws_end(s@, 0),
        decreases n - a,
    {
        a = a + 1;
    }
    let mut b: usize = n;
    while b > a && is_whitespace(s[b - 1])
        invariant
            a <= b <= n,
            n == s@.len(),
            ws_end(s@, 0) == a,
            ws_start(s@, a as int, b as int) == ws_start(s@, a as int, n as int),
        decreases b,
    {
        b = b - 1;
    }
    slice_of(s, a, b)
}

/// Whether `s` holds whitespace only.
pub fn is_blank(s: &Vec<char>) -> (r: bool)
    ensures
        r == blank(s@),
{
    trim(s).len() == 0
}

/// Whether `p` occurs in `s` at position `i`.
pub fn matches_at(s: &Vec<char>, p: &Vec<char>, i: usize) -> (r: bool)
    ensures
        r == occurs_at(s@, p@, i as int),
{
    let n = s.len();
    if i > n || p.len() > n - i {
        return false;
    }
    let mut k: usize = 0;
    while k < p.len()
        invariant
            n == s@.len(),
            i + p@.len() <= n,
            k <= p@.len(),
            s@.subrange(i as int, i + k) == p@.take(k as int),
        decreases p@.len() - k,
    {
        if s[i + k] != p[k] {
            assert(s@.subrange(i as int, i + p@.len())[k as int] != p@[k as int]);
            return false;
        }
        assert(s@.subrange(i as int, i + k + 1) =~= s@.subrange(i as int, i + k).push(
            s@[i + k],
        ));
        assert(p@.take(k + 1) =~= p@.take(k as int).push(p@[k as int]));
        k = k + 1;
    }
    assert(p@.take(k as int) =~= p@);
    true
}

/// Whether `s` starts with `p`.
pub fn starts_with(s: &Vec<char>, p: &Vec<char>) -> (r: bool)
    ensures
        r == has_prefix(s@, p@),
{
    matches_at(s, p, 0)
}

/// Whether `p` occurs in `s`.
pub fn contains(s: &Vec<char>, p: &Vec<char>) -> (r: bool)
    ensures
        r == has_infix(s@, p@),
{
    let n = s.len();
    let mut i: usize = 0;
    while i < n
        invariant
            n == s@.len(),
            i <= n,
            forall|j: int| 0 <= j < i ==> !occurs_at(s@, p@, j),
        decreases n - i,
    {
        if matches_at(s, p, i) {
            return true;
        }
        i = i + 1;
    }
    if matches_at(s, p, n) {
        return true;
    }
    assert forall|j: int| !occurs_at(s@, p@, j) by {
        if 0 <= j && j + p@.len() <= s@.len() {
            assert(j <= n);
        }
    }
    false
}

/// Whether `s` starts with the text `p`.
pub fn starts_with_str(s: &Vec<char>, p: &str) -> (r: bool)
    ensures
        r == has_prefix(s@, p@),
{
    starts_with(s, &chars_of(p))
}

/// Whether the text `p` occurs in `s`.
pub fn contains_str(s: &Vec<char>, p: &str) -> (r: bool)
    ensures
        r == has_infix(s@, p@),
{
    contains(s, &chars_of(p))
}

/// Whether `s` is exactly the text `p`.
pub fn equals_str(s: &Vec<char>, p: &str) -> (r: bool)
    ensures
        r == (s@ == p@),
{
    let q = chars_of(p);
    let r = q.len() == s.len() && matches_at(s, &q, 0);
    proof {
        if q@.len() == s@.len() {
            assert(s@.subrange(0, s@.len() as int) =~= s@);
        }
    }
    r
}

/// The first position at or after `from` that holds `c`, if any.
pub fn find_char(s: &Vec<char>, c: char, from: usize) -> (r: Option<usize>)
    requires
        from <= s@.len(),
    ensures
        from <= find_from(s@, c, from as int) <= s@.len(),
        r is None <==> find_from(s@, c, from as int) == s@.len(),
        r matches Some(k) ==> k == find_from(s@, c, from as int) && k < s@.len() && s@[k as int]
            == c,
{
    let mut i = from;
    while i < s.len() && s[i] != c
        invariant
            from <= i <= s@.len(),
            find_from(s@, c, i as int) == find_from(s@, c, from as int),
        decreases s@.len() - i,
    {
        i = i + 1;
    }
    if i < s.len() {
        Some(i)
    } else {
        None
    }
}

/// Split `text` into lines as `str::lines` does.
pub fn split_lines(text: &Vec<char>) -> (result: Vec<Vec<char>>)
    ensures
        views(result@) == lines(text@),
{
    let n = text.len();
    let mut result: Vec<Vec<char>> = Vec::new();
    let mut start: usize = 0;
    let mut i: usize = 0;
    while i < n
        invariant
            n == text@.len(),
            start <= i <= n,
            lines(text@) == views(result@) + lines_from(text@, start as int, i as int),
        decreases n - i,
    {
        if text[i] == '\n' {
            let mut line = slice_of(text, start, i);
            if line.len() > 0 && line[line.len() - 1] == '\r' {
                line.pop();
                proof {
                    assert(line@ =~= strip_cr(text@.subrange(start as int, i as int)));
                }
            }
            let ghost before = result@;
            result.push(line);
            proof {
                lemma_views_push(before, line);
                assert(views(before) + lines_from(text@, start as int, i as int) =~= views(
                    result@,
                ) + lines_from(text@, i + 1, i + 1));
            }
            start = i + 1;
        }
        i = i + 1;
    }
    if start < n {
        let line = slice_of(text, start, n);
        let ghost before = result@;
        result.push(line);
        proof {
            lemma_views_push(before, line);
            assert(views(before) + lines_from(text@, start as int, i as int) =~= views(result@));
        }
    } else {
        assert(views(result@) + lines_from(text@, start as int, i as int) =~= views(result@));
    }
    result
}

/// The pieces of `s` separated by `c`, each trimmed.
pub fn split_trimmed(s: &Vec<char>, c: char) -> (pieces: Vec<Vec<char>>)
    ensures
        views(pieces@) == trimmed_pieces(s@, c),
{
    let n = s.len();
    let mut pieces: Vec<Vec<char>> = Vec::new();
    let mut start: usize = 0;
    let mut i: usize = 0;
    while i < n
        invariant
            n == s@.len(),
            start <= i <= n,
            trimmed_pieces(s@, c) == views(pieces@) + split_from(s@, c, start as int, i as int).map_values(
                |p: Seq<char>| trimmed(p),
            ),
        decreases n - i,
    {
        if s[i] == c {
            let piece = trim(&slice_of(s, start, i));
            let ghost before = pieces@;
            pieces.push(piece);
            proof {
                lemma_views_push(before, piece);
                let f = |p: Seq<char>| trimmed(p);
                let rest = split_from(s@, c, i + 1, i + 1);
                assert((seq![s@.subrange(start as int, i as int)] + rest).map_values(f) =~= seq![
                    piece@,
                ] + rest.map_values(f));
                assert(views(before) + (seq![piece@] + rest.map_values(f)) =~= views(pieces@)
                    + rest.map_values(f));
            }
            start = i + 1;
        }
        i = i + 1;
    }
    let piece = trim(&slice_of(s, start, n));
    let ghost before = pieces@;
    pieces.push(piece);
    proof {
        lemma_views_push(before, piece);
        let f = |p: Seq<char>| trimmed(p);
        assert(seq![s@.subrange(start as int, n as int)].map_values(f) =~= seq![piece@]);
        assert(views(before) + seq![piece@] =~= views(pieces@));
    }
    pieces
}

/// The whitespace-separated words of `s`.
pub fn split_words(s: &Vec<char>) -> (result: Vec<Vec<char>>)
    ensures
        views(result@) == words(s@),
{
    let n = s.len();
    let mut result: Vec<Vec<char>> = Vec::new();
    let mut start: usize = 0;
    let mut i: usize = 0;
    while i < n
        invariant
            n == s@.len(),
            start <= i <= n,
            words(s@) == views(result@) + words_from(s@, start as int, i as int),
        decreases n - i,
    {
        if is_whitespace(s[i]) {
            if start < i {
                let word = slice_of(s, start, i);
                let ghost before = result@;
                result.push(word);
                proof {
                    lemma_views_push(before, word);
                    assert(views(before) + words_from(s@, start as int, i as int) =~= views(
                        result@,
                    ) + words_from(s@, i + 1, i + 1));
                }
            } else {
                assert(views(result@) + words_from(s@, start as int, i as int) =~= views(result@)
                    + words_from(s@, i + 1, i + 1));
            }
            start = i + 1;
        }
        i = i + 1;
    }
    if start < n {
        let word = slice_of(s, start, n);
        let ghost before = result@;
        result.push(word);
        proof {
            lemma_views_push(before, word);
            assert(views(before) + words_from(s@, start as int, i as int) =~= views(result@));
        }
    } else {
        assert(views(result@) + words_from(s@, start as int, i as int) =~= views(result@));
    }
    result
}

/// `s` with every leading `c` removed.
pub fn trim_leading(s: &Vec<char>, c: char) -> (r: Vec<char>)
    ensures
        r@ == strip_leading(s@, c, 0),
{
    let mut i: usize = 0;
    while i < s.len() && s[i] == c
        invariant
            i <= s@.len(),
            strip_leading(s@, c, i as int) == strip_leading(s@, c, 0),
        decreases s@.len() - i,
    {
        i = i + 1;
    }
    slice_of(s, i, s.len())
}

/// Parse `s` as `usize::from_str` does.
pub fn parse_usize_chars(s: &Vec<char>) -> (r: Option<usize>)
    ensures
        r == parse_unsigned(s@),
{
    let ghost d = unsigned_digits(s@);
    let start: usize = if s.len() > 0 && s[0] == '+' {
        1
    } else {
        0
    };
    assert(d =~= s@.subrange(start as int, s@.len() as int));
    if start >= s.len() {
        return None;
    }
    let mut value: usize = 0;
    let mut i = start;
    while i < s.len()
        invariant
            start <= i <= s@.len(),
            d == s@.subrange(start as int, s@.len() as int),
            d == unsigned_digits(s@),
            d.len() > 0,
            forall|k: int| 0 <= k < i - start ==> is_digit(#[trigger] d[k]),
            value == digits_value(d.take(i - start)),
        decreases s@.len() - i,
    {
        let c = s[i];
        if !('0' <= c && c <= '9') {
            assert(d[i - start] == c);
            assert(!is_digit(d[i - start]));
            return None;
        }
        let digit = (c as u32 - '0' as u32) as usize;
        assert(d.take(i - start + 1).drop_last() =~= d.take(i - start));
        assert(d.take(i - start + 1).last() == c);
        assert(digits_value(d.take(i - start + 1)) == value * 10 + digit);
        match value.checked_mul(10) {
            Some(v10) => match v10.checked_add(digit) {
                Some(v) => {
                    value = v;
                },
                None => {
                    proof {
                        lemma_digits_value_monotone(d, i - start + 1);
                    }
                    return None;
                },
            },
            None => {
                proof {
                    lemma_digits_value_monotone(d, i - start + 1);
                }
                return None;
            },
        }
        i = i + 1;
    }
    assert(d.take(i - start) =~= d);
    Some(value)
}

/// A longer prefix of a digit string has at least the value of a shorter one.
proof fn lemma_digits_value_monotone(d: Seq<char>, k: int)
    requires
        0 <= k <= d.len(),
    ensures
        digits_value(d.take(k)) <= digits_value(d),
    decreases d.len() - k,
{
    if k < d.len() {
        lemma_digits_value_monotone(d, k + 1);
        assert(d.take(k + 1).drop_last() =~= d.take(k));
        assert(digits_value(d.take(k + 1)) == digits_value(d.take(k)) * 10 + digit_value(
            d.take(k + 1).last(),
        ));
    } else {
        assert(d.take(k) =~= d);
    }
}

/// The decimal representation of `n`.
pub fn decimal_chars(n: usize) -> (r: Vec<char>)
    ensures
        r@ == decimal(n as nat),
    decreases n,
{
    if n < 10 {
        let c = char_of_digit(n);
        let mut r: Vec<char> = Vec::new();
        r.push(c);
        assert(r@ =~= seq![digit_char(n as nat)]);
        r
    } else {
        let mut r = decimal_chars(n / 10);
        r.push(char_of_digit(n % 10));
        r
    }
}

/// The character of the digit `d`.
fn char_of_digit(d: usize) -> (c: char)
    requires
        d < 10,
    ensures
        c == digit_char(d as nat),
{
    let c = if d == 0 {
        '0'
    } else if d == 1 {
        '1'
    } else if d == 2 {
        '2'
    } else if d == 3 {
        '3'
    } else if d == 4 {
        '4'
    } else if d == 5 {
        '5'
    } else if d == 6 {
        '6'
    } else if d == 7 {
        '7'
    } else if d == 8 {
        '8'
    } else {
        '9'
    };
    c
}

} // verus!
