use vstd::prelude::*;

verus! {

/// Appends one character to a `String`.
///
/// Trusted: calls `String::push`, which std documents as appending the given
/// `char` to the end of the string; the contract claims exactly that.
#[verifier::external_body]
pub(crate) fn push_char(s: &mut String, c: char)
    ensures
        final(s)@ == old(s)@.push(c),
{
    s.push(c);
}

/// The characters of `s`, in order.
pub fn chars_of(s: &str) -> (r: Vec<char>)
    ensures
        r@ == s@,
{
    let mut r: Vec<char> = Vec::new();
    for c in it: s.chars()
        invariant
            it.seq() == s@,
            r@ == it.seq().take(it.index() as int),
    {
        r.push(c);
    }
    r
}


/// ASCII punctuation: `!"#$%&'()*+,-./:;<=>?@[\]^_`{|}~`.
pub open spec fn spec_is_ascii_punctuation(c: char) -> bool {
    ('!' <= c && c <= '/') || (':' <= c && c <= '@') || ('[' <= c && c <= '`') || ('{' <= c
        && c <= '~')
}

/// Unicode `White_Space`: the characters that `char::is_whitespace` accepts.
pub open spec fn spec_is_whitespace(c: char) -> bool {
    ||| ('\u{9}' <= c && c <= '\u{d}')
    ||| c == ' '
    ||| c == '\u{85}'
    ||| c == '\u{a0}'
    ||| c == '\u{1680}'
    ||| ('\u{2000}' <= c && c <= '\u{200a}')
    ||| c == '\u{2028}'
    ||| c == '\u{2029}'
    ||| c == '\u{202f}'
    ||| c == '\u{205f}'
    ||| c == '\u{3000}'
}

/// Whether `c` is ASCII punctuation.
pub fn is_ascii_punctuation(c: char) -> (r: bool)
    ensures
        r == spec_is_ascii_punctuation(c),
{
    ('!' <= c && c <= '/') || (':' <= c && c <= '@') || ('[' <= c && c <= '`') || ('{' <= c
        && c <= '~')
}

/// Whether `c` is whitespace.
pub fn is_whitespace(c: char) -> (r: bool)
    ensures
        r == spec_is_whitespace(c),
{
    ('\u{9}' <= c && c <= '\u{d}') || c == ' ' || c == '\u{85}' || c == '\u{a0}' || c
        == '\u{1680}' || ('\u{2000}' <= c && c <= '\u{200a}') || c == '\u{2028}' || c
        == '\u{2029}' || c == '\u{202f}' || c == '\u{205f}' || c == '\u{3000}'
}

/// `s` without its leading whitespace.
pub open spec fn trim_start(s: Seq<char>) -> Seq<char>
    decreases s.len(),
{
    if s.len() > 0 && spec_is_whitespace(s[0]) {
        trim_start(s.drop_first())
    } else {
        s
    }
}

/// `s` without its trailing whitespace.
pub open spec fn trim_end(s: Seq<char>) -> Seq<char>
    decreases s.len(),
{
    if s.len() > 0 && spec_is_whitespace(s.last()) {
        trim_end(s.drop_last())
    } else {
        s
    }
}

/// `s` without leading and trailing whitespace, as `str::trim` gives it.
pub open spec fn trim(s: Seq<char>) -> Seq<char> {
    trim_end(trim_start(s))
}

/// `s` with every ASCII punctuation character left out.
pub open spec fn without_punctuation(s: Seq<char>) -> Seq<char>
    decreases s.len(),
{
    if s.len() == 0 {
        s
    } else if spec_is_ascii_punctuation(s.last()) {
        without_punctuation(s.drop_last())
    } else {
        without_punctuation(s.drop_last()).push(s.last())
    }
}

/// What an item's title becomes: punctuation removed, then trimmed.
pub open spec fn spec_remove_punctuation(s: Seq<char>) -> Seq<char> {
    trim(without_punctuation(s))
}

/// Appends the characters `s[from..to]` to `r`.
pub fn append_range(r: &mut String, s: &Vec<char>, from: usize, to: usize)
    requires
        from <= to <= s.len(),
    ensures
        final(r)@ == old(r)@ + s@.subrange(from as int, to as int),
{
    let mut i = from;
    while i < to
        invariant
            from <= i <= to <= s.len(),
            r@ == old(r)@ + s@.subrange(from as int, i as int),
        decreases to - i,
    {
        push_char(r, s[i]);
        assert(s@.subrange(from as int, i + 1) == s@.subrange(from as int, i as int).push(
            s@[i as int],
        ));
        i = i + 1;
    }
}

/// A `String` holding exactly the characters of `s[from..to]`.
pub fn string_from_range(s: &Vec<char>, from: usize, to: usize) -> (r: String)
    requires
        from <= to <= s.len(),
    ensures
        r@ == s@.subrange(from as int, to as int),
{
    let mut r = String::new();
    append_range(&mut r, s, from, to);
    r
}

/// The characters `s[from..to]`.
pub fn chars_range(s: &Vec<char>, from: usize, to: usize) -> (r: Vec<char>)
    requires
        from <= to <= s.len(),
    ensures
        r@ == s@.subrange(from as int, to as int),
{
    let mut r: Vec<char> = Vec::new();
    let mut i = from;
    while i < to
        invariant
            from <= i <= to <= s.len(),
            r@ == s@.subrange(from as int, i as int),
        decreases to - i,
    {
        r.push(s[i]);
        assert(s@.subrange(from as int, i + 1) == s@.subrange(from as int, i as int).push(
            s@[i as int],
        ));
        i = i + 1;
    }
    r
}

proof fn lemma_trim_start_skip(s: Seq<char>, i: int)
    requires
        0 <= i <= s.len(),
        forall|k: int| 0 <= k < i ==> spec_is_whitespace(#[trigger] s[k]),
    ensures
        trim_start(s) == trim_start(s.subrange(i, s.len() as int)),
    decreases i,
{
    if i > 0 {
        lemma_trim_start_skip(s, i - 1);
        let t = s.subrange(i - 1, s.len() as int);
        assert(t.drop_first() == s.subrange(i, s.len() as int));
        assert(t[0] == s[i - 1]);
    } else {
        assert(s.subrange(0, s.len() as int) == s);
    }
}

proof fn lemma_trim_end_cut(s: Seq<char>, j: int)
    requires
        0 <= j <= s.len(),
        forall|k: int| j <= k < s.len() ==> spec_is_whitespace(#[trigger] s[k]),
    ensures
        trim_end(s) == trim_end(s.subrange(0, j)),
    decreases s.len() - j,
{
    if j < s.len() {
        lemma_trim_end_cut(s, j + 1);
        let t = s.subrange(0, j + 1);
        assert(t.drop_last() == s.subrange(0, j));
        assert(t.last() == s[j]);
    } else {
        assert(s.subrange(0, s.len() as int) == s);
    }
}

/// Bounds `(i, j)` with `trim(s) == s[i..j]`.
pub fn trim_bounds(s: &Vec<char>) -> (r: (usize, usize))
    ensures
        r.0 <= r.1 <= s.len(),
        trim(s@) == s@.subrange(r.0 as int, r.1 as int),
{
    let n = s.len();
    let mut i: usize = 0;
    while i < n && is_whitespace(s[i])
        invariant
            i <= n == s.len(),
            forall|k: int| 0 <= k < i ==> spec_is_whitespace(#[trigger] s@[k]),
        decreases n - i,
    {
        i = i + 1;
    }
    proof {
        lemma_trim_start_skip(s@, i as int);
    }
    let ghost rest = s@.subrange(i as int, n as int);
    assert(trim_start(rest) == rest);
    let mut j: usize = n;
    while j > i && is_whitespace(s[j - 1])
        invariant
            i <= j <= n == s.len(),
            rest == s@.subrange(i as int, n as int),
            forall|k: int| j <= k < n ==> spec_is_whitespace(#[trigger] s@[k]),
        decreases j,
    {
        j = j - 1;
    }
    proof {
        let jj = j - i;
        assert forall|k: int| jj <= k < rest.len() implies spec_is_whitespace(#[trigger] rest[k]) by {
            assert(rest[k] == s@[k + i]);
        }
        lemma_trim_end_cut(rest, jj);
        assert(rest.subrange(0, jj) == s@.subrange(i as int, j as int));
        let t = s@.subrange(i as int, j as int);
        if t.len() > 0 {
            assert(t.last() == s@[j - 1]);
        }
        assert(trim_end(t) == t);
    }
    (i, j)
}

/// Removes ASCII punctuation from `s`, then leading and trailing whitespace.
pub fn remove_punctuation(s: &str) -> (r: String)
    ensures
        r@ == spec_remove_punctuation(s@),
{
    let cs = chars_of(s);
    let mut kept: Vec<char> = Vec::new();
    let mut i: usize = 0;
    while i < cs.len()
        invariant
            i <= cs.len(),
            cs@ == s@,
            kept@ == without_punctuation(cs@.subrange(0, i as int)),
        decreases cs.len() - i,
    {
        let c = cs[i];
        let ghost pre = cs@.subrange(0, i as int);
        assert(cs@.subrange(0, i + 1).drop_last() == pre);
        if !is_ascii_punctuation(c) {
            kept.push(c);
        }
        i = i + 1;
    }
    assert(cs@.subrange(0, cs.len() as int) == cs@);
    let (a, b) = trim_bounds(&kept);
    string_from_range(&kept, a, b)
}


/// The whitespace-separated words of `s`, in order, as `str::split_whitespace`
/// yields them.
pub open spec fn words(s: Seq<char>) -> Seq<Seq<char>>
    decreases s.len(),
{
    if s.len() == 0 {
        Seq::empty()
    } else {
        let prev = words(s.drop_last());
        let c = s.last();
        if spec_is_whitespace(c) {
            prev
        } else if s.len() > 1 && !spec_is_whitespace(s[s.len() - 2]) {
            prev.update(prev.len() - 1, prev.last().push(c))
        } else {
            prev.push(seq![c])
        }
    }
}

/// The elements of `list` joined by `sep`, as `[T]::join` gives it.
pub open spec fn join(list: Seq<Seq<char>>, sep: Seq<char>) -> Seq<char>
    decreases list.len(),
{
    if list.len() == 0 {
        Seq::empty()
    } else if list.len() == 1 {
        list[0]
    } else {
        join(list.drop_last(), sep) + sep + list.last()
    }
}

/// An item's description from the raw text of its description page: the
/// words of `raw` but the first, joined by single spaces.
pub open spec fn spec_description_text(raw: Seq<char>) -> Seq<char> {
    join(skip_first(words(raw)), seq![' '])
}

/// `list` without its first element (empty when `list` is), as
/// `Iterator::skip(1)` gives it.
pub open spec fn skip_first(list: Seq<Seq<char>>) -> Seq<Seq<char>> {
    if list.len() == 0 {
        list
    } else {
        list.drop_first()
    }
}

proof fn lemma_words_nonempty(s: Seq<char>)
    requires
        s.len() > 0,
        !spec_is_whitespace(s.last()),
    ensures
        words(s).len() > 0,
        words(s).last().len() > 0,
    decreases s.len(),
{
    let prev = words(s.drop_last());
    if s.len() > 1 && !spec_is_whitespace(s[s.len() - 2]) {
        lemma_words_nonempty(s.drop_last());
    }
}

/// The words of `s`.
pub fn split_words(s: &Vec<char>) -> (r: Vec<Vec<char>>)
    ensures
        r@.len() == words(s@).len(),
        forall|k: int| 0 <= k < r@.len() ==> (#[trigger] r@[k])@ == words(s@)[k],
{
    let mut r: Vec<Vec<char>> = Vec::new();
    let mut i: usize = 0;
    while i < s.len()
        invariant
            i <= s.len(),
            r@.len() == words(s@.subrange(0, i as int)).len(),
            forall|k: int|
                0 <= k < r@.len() ==> (#[trigger] r@[k])@ == words(s@.subrange(0, i as int))[k],
        decreases s.len() - i,
    {
        let c = s[i];
        let ghost pre = s@.subrange(0, i as int);
        let ghost cur = s@.subrange(0, i + 1);
        assert(cur.drop_last() == pre);
        assert(cur.last() == c);
        if is_whitespace(c) {
        } else if i > 0 && !is_whitespace(s[i - 1]) {
            assert(cur[cur.len() - 2] == s@[i - 1]);
            assert(pre.last() == s@[i - 1]);
            proof {
                lemma_words_nonempty(pre);
            }
            let last = r.len() - 1;
            let mut w = r.pop().unwrap();
            w.push(c);
            r.push(w);
            assert(r@.len() == words(cur).len());
            assert forall|k: int| 0 <= k < r@.len() implies (#[trigger] r@[k])@ == words(cur)[k] by {
                if k < last {
                }
            }
        } else {
            if i > 0 {
                assert(cur[cur.len() - 2] == s@[i - 1]);
            }
            let mut w: Vec<char> = Vec::new();
            w.push(c);
            assert(w@ == seq![c]);
            r.push(w);
        }
        i = i + 1;
    }
    assert(s@.subrange(0, s.len() as int) == s@);
    r
}

/// Appends the characters of `w` to `out`.
fn append_chars(out: &mut Vec<char>, w: &Vec<char>)
    ensures
        final(out)@ == old(out)@ + w@,
{
    let mut i: usize = 0;
    while i < w.len()
        invariant
            i <= w.len(),
            out@ == old(out)@ + w@.subrange(0, i as int),
        decreases w.len() - i,
    {
        out.push(w[i]);
        assert(w@.subrange(0, i + 1) == w@.subrange(0, i as int).push(w@[i as int]));
        i = i + 1;
    }
    assert(w@.subrange(0, w.len() as int) == w@);
}

/// The characters of `raw` made into an item description: every word but the
/// first, separated by single spaces.
pub fn description_text(raw: &Vec<char>) -> (r: String)
    ensures
        r@ == spec_description_text(raw@),
{
    let ws = split_words(raw);
    let ghost all = words(raw@);
    let ghost rest = skip_first(all);
    let mut out: Vec<char> = Vec::new();
    let mut i: usize = 1;
    while i < ws.len()
        invariant
            1 <= i,
            i <= ws.len() || i == 1,
            ws@.len() == all.len(),
            all == words(raw@),
            rest == skip_first(all),
            forall|k: int| 0 <= k < ws@.len() ==> (#[trigger] ws@[k])@ == all[k],
            out@ == join(rest.subrange(0, i - 1), seq![' ']),
        decreases ws.len() - i,
    {
        let ghost before = rest.subrange(0, i - 1);
        let ghost after = rest.subrange(0, i as int);
        assert(after.drop_last() == before);
        assert(after.last() == all[i as int]);
        if i > 1 {
            out.push(' ');
        }
        append_chars(&mut out, &ws[i]);
        if i == 1 {
            assert(after.len() == 1);
            assert(out@ == after[0]);
        } else {
            assert(out@ == join(before, seq![' ']) + seq![' '] + after.last());
        }
        i = i + 1;
    }
    if ws.len() > 1 {
        assert(i == ws.len());
        assert(rest.len() == all.len() - 1);
        assert(rest.subrange(0, ws.len() - 1) == rest);
    } else {
        assert(rest.len() == 0);
        assert(rest.subrange(0, 0) == rest);
    }
    assert(out@.subrange(0, out@.len() as int) == out@);
    assert(out@ == join(rest, seq![' ']));
    assert(rest == skip_first(words(raw@)));
    string_from_range(&out, 0, out.len())
}


/// `needle` occurs in `hay` as a contiguous run, as `str::contains` tests it.
pub open spec fn has_substring(hay: Seq<char>, needle: Seq<char>) -> bool {
    exists|i: int|
        0 <= i && i + needle.len() <= hay.len() && #[trigger] hay.subrange(i, i + needle.len())
            == needle
}

/// `s` begins with `prefix`, as `str::starts_with` tests it.
pub open spec fn has_prefix(s: Seq<char>, prefix: Seq<char>) -> bool {
    prefix.len() <= s.len() && s.subrange(0, prefix.len() as int) == prefix
}

/// Whether `needle` occurs in `hay` at position `at`.
fn occurs_at(hay: &Vec<char>, needle: &Vec<char>, at: usize) -> (r: bool)
    requires
        at + needle.len() <= hay.len(),
    ensures
        r == (hay@.subrange(at as int, at + needle.len()) == needle@),
{
    let mut k: usize = 0;
    while k < needle.len()
        invariant
            k <= needle.len(),
            at + needle.len() <= hay.len(),
            forall|m: int| 0 <= m < k ==> hay@[at + m] == needle@[m],
        decreases needle.len() - k,
    {
        if hay[at + k] != needle[k] {
            assert(hay@.subrange(at as int, at + needle.len())[k as int] != needle@[k as int]);
            return false;
        }
        k = k + 1;
    }
    assert(hay@.subrange(at as int, at + needle.len()) == needle@);
    true
}

/// Whether `needle` occurs in `hay`.
pub fn chars_contain(hay: &Vec<char>, needle: &Vec<char>) -> (r: bool)
    ensures
        r == has_substring(hay@, needle@),
{
    if needle.len() > hay.len() {
        return false;
    }
    let last = hay.len() - needle.len();
    let mut i: usize = 0;
    loop
        invariant
            last + needle.len() == hay.len(),
            i <= last,
            forall|j: int|
                0 <= j < i ==> #[trigger] hay@.subrange(j, j + needle@.len()) != needle@,
        decreases last - i,
    {
        if occurs_at(hay, needle, i) {
            return true;
        }
        if i == last {
            return false;
        }
        i = i + 1;
    }
}

/// Whether `needle` occurs in `hay`.
pub fn contains_str(hay: &str, needle: &str) -> (r: bool)
    ensures
        r == has_substring(hay@, needle@),
{
    chars_contain(&chars_of(hay), &chars_of(needle))
}

/// Whether `s` begins with `prefix`.
pub fn chars_start_with(s: &Vec<char>, prefix: &Vec<char>) -> (r: bool)
    ensures
        r == has_prefix(s@, prefix@),
{
    if prefix.len() > s.len() {
        false
    } else {
        occurs_at(s, prefix, 0)
    }
}

/// Whether `a` and `b` hold the same characters.
pub fn same_text(a: &str, b: &str) -> (r: bool)
    ensures
        r == (a@ == b@),
{
    let x = chars_of(a);
    let y = chars_of(b);
    if x.len() != y.len() {
        return false;
    }
    assert(x@.subrange(0, y@.len() as int) == x@);
    occurs_at(&x, &y, 0)
}


/// The decimal digit character for `d < 10`.
pub open spec fn digit_char(d: nat) -> char {
    ((48 + d) as u8) as char
}

/// The decimal numeral of `n`, without sign or leading zeros, as `to_string`
/// writes it.
pub open spec fn decimal(n: nat) -> Seq<char>
    decreases n,
{
    if n < 10 {
        seq![digit_char(n)]
    } else {
        decimal(n / 10).push(digit_char(n % 10))
    }
}

/// The decimal numeral of `n`.
pub fn decimal_string(n: usize) -> (r: String)
    ensures
        r@ == decimal(n as nat),
    decreases n,
{
    let d = (n % 10) as u8;
    let c = (48u8 + d) as char;
    if n < 10 {
        let mut r = String::new();
        push_char(&mut r, c);
        r
    } else {
        let mut r = decimal_string(n / 10);
        push_char(&mut r, c);
        r
    }
}


/// `s` without leading and trailing whitespace.
pub fn trim_string(s: &str) -> (r: String)
    ensures
        r@ == trim(s@),
{
    let cs = chars_of(s);
    let (a, b) = trim_bounds(&cs);
    string_from_range(&cs, a, b)
}

/// A `String` with the characters of `s`.
pub fn owned(s: &str) -> (r: String)
    ensures
        r@ == s@,
{
    let mut r = String::new();
    r.append(s);
    r
}


proof fn lemma_trim_start_suffix(s: Seq<char>)
    ensures
        exists|k: int| 0 <= k <= s.len() && trim_start(s) == s.subrange(k, s.len() as int),
        trim_start(s).len() == 0 || !spec_is_whitespace(trim_start(s)[0]),
        trim_start(trim_start(s)) == trim_start(s),
    decreases s.len(),
{
    if s.len() > 0 && spec_is_whitespace(s[0]) {
        lemma_trim_start_suffix(s.drop_first());
        let k = choose|k: int|
            0 <= k <= s.drop_first().len() && trim_start(s.drop_first()) == s.drop_first().subrange(
                k,
                s.drop_first().len() as int,
            );
        assert(s.drop_first().subrange(k, s.drop_first().len() as int) == s.subrange(
            k + 1,
            s.len() as int,
        ));
    } else {
        assert(s.subrange(0, s.len() as int) == s);
    }
}

proof fn lemma_trim_end_prefix(s: Seq<char>)
    ensures
        exists|k: int| 0 <= k <= s.len() && trim_end(s) == s.subrange(0, k),
        trim_end(s).len() == 0 || !spec_is_whitespace(trim_end(s).last()),
        trim_end(trim_end(s)) == trim_end(s),
        trim_end(s).len() > 0 ==> trim_end(s)[0] == s[0],
    decreases s.len(),
{
    if s.len() > 0 && spec_is_whitespace(s.last()) {
        lemma_trim_end_prefix(s.drop_last());
        let k = choose|k: int|
            0 <= k <= s.drop_last().len() && trim_end(s.drop_last()) == s.drop_last().subrange(
                0,
                k,
            );
        assert(s.drop_last().subrange(0, k) == s.subrange(0, k));
    } else {
        assert(s.subrange(0, s.len() as int) == s);
    }
}

proof fn lemma_trim_start_noop(s: Seq<char>)
    requires
        s.len() == 0 || !spec_is_whitespace(s[0]),
    ensures
        trim_start(s) == s,
{
}

/// `trim(s)` is a run of `s`, holds no whitespace at either end, and trimming
/// it again changes nothing.
pub proof fn lemma_trim_facts(s: Seq<char>)
    ensures
        exists|a: int, b: int| 0 <= a <= b <= s.len() && trim(s) == s.subrange(a, b),
        trim(s).len() == 0 || (!spec_is_whitespace(trim(s)[0]) && !spec_is_whitespace(
            trim(s).last(),
        )),
        trim(trim(s)) == trim(s),
{
    lemma_trim_start_suffix(s);
    let t = trim_start(s);
    lemma_trim_end_prefix(t);
    let a = choose|k: int| 0 <= k <= s.len() && t == s.subrange(k, s.len() as int);
    let b = choose|k: int| 0 <= k <= t.len() && trim_end(t) == t.subrange(0, k);
    assert(t.subrange(0, b) == s.subrange(a, a + b));
    let r = trim_end(t);
    lemma_trim_start_noop(r);
    lemma_trim_end_prefix(r);
}

proof fn lemma_without_punctuation_facts(s: Seq<char>)
    ensures
        forall|i: int|
            0 <= i < without_punctuation(s).len() ==> !spec_is_ascii_punctuation(
                #[trigger] without_punctuation(s)[i],
            ),
        (forall|i: int| 0 <= i < s.len() ==> !spec_is_ascii_punctuation(#[trigger] s[i]))
            ==> without_punctuation(s) == s,
    decreases s.len(),
{
    if s.len() > 0 {
        lemma_without_punctuation_facts(s.drop_last());
        let p = without_punctuation(s.drop_last());
        if !spec_is_ascii_punctuation(s.last()) {
            assert forall|i: int| 0 <= i < p.push(s.last()).len() implies !spec_is_ascii_punctuation(
                #[trigger] p.push(s.last())[i],
            ) by {
                if i < p.len() {
                    assert(p.push(s.last())[i] == p[i]);
                }
            }
        }
        if forall|i: int| 0 <= i < s.len() ==> !spec_is_ascii_punctuation(#[trigger] s[i]) {
            assert forall|i: int| 0 <= i < s.drop_last().len() implies !spec_is_ascii_punctuation(
                #[trigger] s.drop_last()[i],
            ) by {
                assert(s.drop_last()[i] == s[i]);
            }
            assert(!spec_is_ascii_punctuation(s[s.len() - 1]));
            assert(s.drop_last().push(s.last()) == s);
        }
    }
}

/// Law: a title cleaned once holds no ASCII punctuation and no whitespace at
/// either end, and cleaning it again changes nothing.
pub proof fn law_remove_punctuation_idempotent(s: Seq<char>)
    ensures
        forall|i: int|
            0 <= i < spec_remove_punctuation(s).len() ==> !spec_is_ascii_punctuation(
                #[trigger] spec_remove_punctuation(s)[i],
            ),
        trim(spec_remove_punctuation(s)) == spec_remove_punctuation(s),
        spec_remove_punctuation(spec_remove_punctuation(s)) == spec_remove_punctuation(s),
{
    let w = without_punctuation(s);
    lemma_without_punctuation_facts(s);
    lemma_trim_facts(w);
    let r = trim(w);
    let (a, b) = choose|a: int, b: int| 0 <= a <= b <= w.len() && r == w.subrange(a, b);
    assert forall|i: int| 0 <= i < r.len() implies !spec_is_ascii_punctuation(#[trigger] r[i]) by {
        assert(r[i] == w[a + i]);
    }
    lemma_without_punctuation_facts(r);
}


/// A run with no whitespace at either end is its own trim.
pub proof fn lemma_trim_noop(s: Seq<char>)
    requires
        s.len() == 0 || (!spec_is_whitespace(s[0]) && !spec_is_whitespace(s.last())),
    ensures
        trim(s) == s,
{
    lemma_trim_start_noop(s);
}


/// The number that the decimal digits `s` spell.
pub open spec fn decimal_value(s: Seq<char>) -> int
    decreases s.len(),
{
    if s.len() == 0 {
        0
    } else {
        decimal_value(s.drop_last()) * 10 + (s.last() as int - 48)
    }
}

/// A character among `'0'..='9'`.
pub open spec fn is_digit(c: char) -> bool {
    '0' <= c && c <= '9'
}

/// The numeral of `n` is made of digits, is not empty, and spells `n`.
pub proof fn lemma_decimal(n: nat)
    ensures
        decimal(n).len() > 0,
        forall|i: int| 0 <= i < decimal(n).len() ==> is_digit(#[trigger] decimal(n)[i]),
        decimal_value(decimal(n)) == n,
    decreases n,
{
    let d = (n % 10) as nat;
    assert(digit_char(d) as int == 48 + d);
    if n < 10 {
        assert(decimal(n).drop_last() =~= Seq::<char>::empty());
        assert(n % 10 == n);
        assert(decimal(n).last() == digit_char(d));
        assert(decimal_value(decimal(n)) == decimal_value(Seq::<char>::empty()) * 10 + (
        digit_char(d) as int - 48));
    }
    if n >= 10 {
        lemma_decimal(n / 10);
        let p = decimal(n / 10);
        assert(decimal(n).drop_last() == p);
        assert((n / 10) * 10 + n % 10 == n) by (nonlinear_arith);
        assert(decimal(n).last() == digit_char(d));
        assert(decimal_value(decimal(n)) == decimal_value(p) * 10 + (digit_char(d) as int - 48));
        assert forall|i: int| 0 <= i < decimal(n).len() implies is_digit(#[trigger] decimal(n)[i]) by {
            if i < p.len() {
                assert(decimal(n)[i] == p[i]);
            }
        }
    }
}

/// Law: different numbers have different numerals.
pub proof fn law_decimal_injective(a: nat, b: nat)
    requires
        decimal(a) == decimal(b),
    ensures
        a == b,
{
    lemma_decimal(a);
    lemma_decimal(b);
}


/// A word: not empty, and without whitespace.
pub open spec fn is_word(w: Seq<char>) -> bool {
    w.len() > 0 && forall|i: int| 0 <= i < w.len() ==> !spec_is_whitespace(#[trigger] w[i])
}

proof fn lemma_words_are_words(s: Seq<char>)
    ensures
        forall|k: int| 0 <= k < words(s).len() ==> is_word(#[trigger] words(s)[k]),
    decreases s.len(),
{
    if s.len() > 0 {
        lemma_words_are_words(s.drop_last());
        let prev = words(s.drop_last());
        let c = s.last();
        if !spec_is_whitespace(c) {
            if s.len() > 1 && !spec_is_whitespace(s[s.len() - 2]) {
                assert(s.drop_last().last() == s[s.len() - 2]);
                lemma_words_nonempty(s.drop_last());
                let q = prev.update(prev.len() - 1, prev.last().push(c));
                assert forall|k: int| 0 <= k < q.len() implies is_word(#[trigger] q[k]) by {
                    if k == prev.len() - 1 {
                        let w = prev.last().push(c);
                        assert(is_word(prev[k]));
                        assert forall|i: int| 0 <= i < w.len() implies !spec_is_whitespace(
                            #[trigger] w[i],
                        ) by {
                            if i < prev.last().len() {
                                assert(w[i] == prev[k][i]);
                            }
                        }
                    } else {
                        assert(q[k] == prev[k]);
                    }
                }
            } else {
                let q = prev.push(seq![c]);
                assert forall|k: int| 0 <= k < q.len() implies is_word(#[trigger] q[k]) by {
                    if k < prev.len() {
                        assert(q[k] == prev[k]);
                    }
                }
            }
        }
    }
}

proof fn lemma_words_append_word(s: Seq<char>, w: Seq<char>)
    requires
        s.len() == 0 || spec_is_whitespace(s.last()),
        is_word(w),
    ensures
        words(s + w) == words(s).push(w),
    decreases w.len(),
{
    let c = w.last();
    let w1 = w.drop_last();
    assert((s + w).drop_last() == s + w1);
    assert((s + w).last() == c);
    if w1.len() == 0 {
        assert(s + w1 == s);
        assert(w == seq![c]);
        if s.len() > 0 {
            assert((s + w)[(s + w).len() - 2] == s.last());
        }
    } else {
        assert forall|i: int| 0 <= i < w1.len() implies !spec_is_whitespace(#[trigger] w1[i]) by {
            assert(w1[i] == w[i]);
        }
        lemma_words_append_word(s, w1);
        assert((s + w)[(s + w).len() - 2] == w1.last());
        assert(w1.push(c) == w);
    }
}

proof fn lemma_words_of_join(list: Seq<Seq<char>>)
    requires
        forall|k: int| 0 <= k < list.len() ==> is_word(#[trigger] list[k]),
    ensures
        words(join(list, seq![' '])) == list,
        list.len() > 0 ==> join(list, seq![' ']).len() > 0 && !spec_is_whitespace(
            join(list, seq![' ']).last(),
        ),
    decreases list.len(),
{
    let sp = seq![' '];
    if list.len() == 1 {
        assert(is_word(list[0]));
        lemma_words_append_word(Seq::empty(), list[0]);
        assert(Seq::<char>::empty() + list[0] == list[0]);
        assert(Seq::<Seq<char>>::empty().push(list[0]) == list);
        assert(list[0].last() == list[0][list[0].len() - 1]);
    } else if list.len() > 1 {
        let pre = list.drop_last();
        assert forall|k: int| 0 <= k < pre.len() implies is_word(#[trigger] pre[k]) by {
            assert(pre[k] == list[k]);
        }
        lemma_words_of_join(pre);
        let j = join(pre, sp);
        let w = list.last();
        assert(is_word(list[list.len() - 1]));
        assert(j + sp == j.push(' '));
        assert(words(j.push(' ')) == words(j)) by {
            assert(j.push(' ').drop_last() == j);
        }
        lemma_words_append_word(j + sp, w);
        assert(join(list, sp) == j + sp + w);
        assert(pre.push(w) == list);
        assert((j + sp + w).last() == w.last());
        assert(w.last() == w[w.len() - 1]);
    } else {
        assert(words(Seq::<char>::empty()) == Seq::<Seq<char>>::empty());
    }
}

/// Law: splitting a description into words gives back exactly the words of
/// its text but the first; so it holds single spaces between words and no
/// whitespace at either end.
pub proof fn law_description_words(raw: Seq<char>)
    ensures
        words(spec_description_text(raw)) == skip_first(words(raw)),
{
    lemma_words_are_words(raw);
    let ws = words(raw);
    let rest = skip_first(ws);
    assert forall|k: int| 0 <= k < rest.len() implies is_word(#[trigger] rest[k]) by {
        assert(rest[k] == ws[k + 1]);
    }
    lemma_words_of_join(rest);
}


proof fn lemma_trim_start_cut(s: Seq<char>)
    ensures
        exists|k: int|
            0 <= k <= s.len() && trim_start(s) == s.subrange(k, s.len() as int) && (forall|j: int|
                0 <= j < k ==> spec_is_whitespace(#[trigger] s[j])),
    decreases s.len(),
{
    if s.len() > 0 && spec_is_whitespace(s[0]) {
        let d = s.drop_first();
        lemma_trim_start_cut(d);
        let k = choose|k: int|
            0 <= k <= d.len() && trim_start(d) == d.subrange(k, d.len() as int) && (forall|j: int|
                0 <= j < k ==> spec_is_whitespace(#[trigger] d[j]));
        assert(d.subrange(k, d.len() as int) == s.subrange(k + 1, s.len() as int));
        assert forall|j: int| 0 <= j < k + 1 implies spec_is_whitespace(#[trigger] s[j]) by {
            if j > 0 {
                assert(s[j] == d[j - 1]);
            }
        }
    } else {
        assert(s.subrange(0, s.len() as int) == s);
    }
}

proof fn lemma_trim_end_cut_exact(s: Seq<char>)
    ensures
        exists|k: int|
            0 <= k <= s.len() && trim_end(s) == s.subrange(0, k) && (forall|j: int|
                k <= j < s.len() ==> spec_is_whitespace(#[trigger] s[j])),
    decreases s.len(),
{
    if s.len() > 0 && spec_is_whitespace(s.last()) {
        let d = s.drop_last();
        lemma_trim_end_cut_exact(d);
        let k = choose|k: int|
            0 <= k <= d.len() && trim_end(d) == d.subrange(0, k) && (forall|j: int|
                k <= j < d.len() ==> spec_is_whitespace(#[trigger] d[j]));
        assert(d.subrange(0, k) == s.subrange(0, k));
        assert forall|j: int| k <= j < s.len() implies spec_is_whitespace(#[trigger] s[j]) by {
            if j < s.len() - 1 {
                assert(s[j] == d[j]);
            }
        }
    } else {
        assert(s.subrange(0, s.len() as int) == s);
    }
}

/// Whether `r` is `s` with its leading and trailing whitespace cut off and
/// nothing else changed: a run `s[a..b]` with only whitespace outside it and
/// none at either end of it.
pub open spec fn is_whitespace_cut_of(r: Seq<char>, s: Seq<char>) -> bool {
    exists|a: int, b: int|
        0 <= a <= b <= s.len() && r == s.subrange(a, b) && (forall|j: int|
            0 <= j < a ==> spec_is_whitespace(#[trigger] s[j])) && (forall|j: int|
            b <= j < s.len() ==> spec_is_whitespace(#[trigger] s[j])) && (r.len() == 0 || (
        !spec_is_whitespace(r[0]) && !spec_is_whitespace(r.last())))
}

/// Trimming cuts only whitespace, and only from the ends.
pub proof fn lemma_trim_is_whitespace_cut(s: Seq<char>)
    ensures
        is_whitespace_cut_of(trim(s), s),
{
    lemma_trim_start_cut(s);
    let a = choose|k: int|
        0 <= k <= s.len() && trim_start(s) == s.subrange(k, s.len() as int) && (forall|j: int|
            0 <= j < k ==> spec_is_whitespace(#[trigger] s[j]));
    let t = trim_start(s);
    lemma_trim_end_cut_exact(t);
    let b = choose|k: int|
        0 <= k <= t.len() && trim_end(t) == t.subrange(0, k) && (forall|j: int|
            k <= j < t.len() ==> spec_is_whitespace(#[trigger] t[j]));
    assert(t.subrange(0, b) == s.subrange(a, a + b));
    assert forall|j: int| a + b <= j < s.len() implies spec_is_whitespace(#[trigger] s[j]) by {
        assert(s[j] == t[j - a]);
    }
    lemma_trim_facts(s);
}


/// A printable ASCII character that is neither a letter nor a digit.
pub open spec fn ascii_symbol(c: char) -> bool {
    &&& '!' <= c && c <= '~'
    &&& !('0' <= c && c <= '9')
    &&& !('A' <= c && c <= 'Z')
    &&& !('a' <= c && c <= 'z')
}

/// Law: the punctuation removed from titles is exactly the printable ASCII
/// characters other than letters and digits; so digits, letters, spaces,
/// control and non-ASCII characters are never punctuation.
pub proof fn law_punctuation_is_ascii_symbols(c: char)
    ensures
        spec_is_ascii_punctuation(c) <==> ascii_symbol(c),
{
}

/// Law: removing punctuation keeps every other character of the text, in
/// order: it is the text filtered to the characters that are not ASCII
/// symbols.
pub proof fn law_without_punctuation_keeps_the_rest(s: Seq<char>)
    ensures
        without_punctuation(s) == s.filter(|c: char| !ascii_symbol(c)),
    decreases s.len(),
{
    reveal_with_fuel(Seq::<char>::filter, 1);
    if s.len() > 0 {
        law_without_punctuation_keeps_the_rest(s.drop_last());
        law_punctuation_is_ascii_symbols(s.last());
    }
}

/// Law: a cleaned title is the text's non-symbol characters, in order, with
/// the whitespace at the ends cut off.
pub proof fn law_clean_title(s: Seq<char>)
    ensures
        is_whitespace_cut_of(
            spec_remove_punctuation(s),
            s.filter(|c: char| !ascii_symbol(c)),
        ),
{
    law_without_punctuation_keeps_the_rest(s);
    lemma_trim_is_whitespace_cut(without_punctuation(s));
}

} // verus!
