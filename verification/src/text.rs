//! Character-level text helpers: lower-casing, substring search, white space.
use vstd::prelude::*;

verus! {

/// Unicode lower-casing of a string, as `str::to_lowercase` computes it.
pub uninterp spec fn lowercase(s: Seq<char>) -> Seq<char>;

/// Calls `str::to_lowercase`: the lower-case form of `s` under Unicode's
/// case mapping.  Its result is named, not described.
#[verifier::external_body]
pub(crate) fn to_lowercase(s: &str) -> (r: String)
    ensures
        r@ == lowercase(s@),
{
    s.to_lowercase()
}

/// `needle` occurs in `hay` as a run of consecutive characters.
pub open spec fn occurs_in(hay: Seq<char>, needle: Seq<char>) -> bool {
    exists|i: int| 0 <= i && i + needle.len() <= hay.len() && #[trigger] hay.subrange(i, i + needle.len()) == needle
}

/// The characters of `s`, in order.
pub fn chars_of(s: &str) -> (v: Vec<char>)
    ensures
        v@ == s@,
{
    let n = s.unicode_len();
    let mut v: Vec<char> = Vec::new();
    let mut i: usize = 0;
    while i < n
        invariant
            n == s@.len(),
            i <= n,
            v@ == s@.subrange(0, i as int),
        decreases n - i,
    {
        let c = s.get_char(i);
        v.push(c);
        i = i + 1;
        assert(v@ =~= s@.subrange(0, i as int));
    }
    assert(v@ =~= s@);
    v
}

/// Whether `needle` matches `hay` at position `at`.
fn matches_at(hay: &Vec<char>, needle: &Vec<char>, at: usize) -> (b: bool)
    requires
        at + needle.len() <= hay.len(),
    ensures
        b == (hay@.subrange(at as int, at + needle@.len()) == needle@),
{
    let mut j: usize = 0;
    while j < needle.len()
        invariant
            at + needle.len() <= hay.len(),
            j <= needle@.len(),
            forall|k: int| 0 <= k < j ==> hay@[at + k] == needle@[k],
        decreases needle@.len() - j,
    {
        if hay[at + j] != needle[j] {
            assert(hay@.subrange(at as int, at + needle@.len())[j as int] != needle@[j as int]);
            return false;
        }
        j = j + 1;
    }
    assert(hay@.subrange(at as int, at + needle@.len()) =~= needle@);
    true
}

/// Whether `needle` occurs in `hay` (`str::contains` with a string pattern).
pub fn contains(hay: &str, needle: &str) -> (b: bool)
    ensures
        b == occurs_in(hay@, needle@),
{
    let h = chars_of(hay);
    let n = chars_of(needle);
    if n.len() > h.len() {
        return false;
    }
    if n.len() == 0 {
        assert(hay@.subrange(0int, 0int + needle@.len()) =~= needle@);
        return true;
    }
    let last = h.len() - n.len();
    let mut i: usize = 0;
    while i <= last
        invariant
            h@ == hay@,
            n@ == needle@,
            last + n.len() == h.len(),
            n.len() > 0,
            forall|k: int| 0 <= k < i ==> #[trigger] h@.subrange(k, k + n@.len()) != n@,
        decreases last + 1 - i,
    {
        if matches_at(&h, &n, i) {
            return true;
        }
        i = i + 1;
    }
    false
}

/// White space as `char::is_whitespace` defines it: the characters with the
/// Unicode `White_Space` property.
pub open spec fn is_white(c: char) -> bool {
    ||| '\u{9}' <= c <= '\u{d}'
    ||| c == ' '
    ||| c == '\u{85}'
    ||| c == '\u{a0}'
    ||| c == '\u{1680}'
    ||| '\u{2000}' <= c <= '\u{200a}'
    ||| c == '\u{2028}'
    ||| c == '\u{2029}'
    ||| c == '\u{202f}'
    ||| c == '\u{205f}'
    ||| c == '\u{3000}'
}

pub fn is_whitespace(c: char) -> (b: bool)
    ensures
        b == is_white(c),
{
    ('\u{9}' <= c && c <= '\u{d}') || c == ' ' || c == '\u{85}' || c == '\u{a0}' || c == '\u{1680}'
        || ('\u{2000}' <= c && c <= '\u{200a}') || c == '\u{2028}' || c == '\u{2029}' || c
        == '\u{202f}' || c == '\u{205f}' || c == '\u{3000}'
}

/// The character of a decimal digit.
pub open spec fn digit_char(d: int) -> char {
    ('0' as int + d) as char
}

/// The decimal numeral of `n`, without leading zeros.
pub open spec fn decimal(n: nat) -> Seq<char>
    decreases n,
{
    if n < 10 {
        seq![digit_char(n as int)]
    } else {
        decimal(n / 10).push(digit_char(n as int % 10))
    }
}

fn digit_str(d: u8) -> (s: &'static str)
    requires
        d < 10,
    ensures
        s@ == seq![digit_char(d as int)],
{
    proof {
        reveal_strlit("0");
        reveal_strlit("1");
        reveal_strlit("2");
        reveal_strlit("3");
        reveal_strlit("4");
        reveal_strlit("5");
        reveal_strlit("6");
        reveal_strlit("7");
        reveal_strlit("8");
        reveal_strlit("9");
    }
    let s = match d {
        0 => "0",
        1 => "1",
        2 => "2",
        3 => "3",
        4 => "4",
        5 => "5",
        6 => "6",
        7 => "7",
        8 => "8",
        _ => "9",
    };
    assert(s@ =~= seq![digit_char(d as int)]);
    s
}

/// Appends the decimal numeral of `n` to `out`.
pub fn push_decimal(out: &mut String, n: u8)
    ensures
        final(out)@ == old(out)@ + decimal(n as nat),
{
    proof {
        reveal_with_fuel(decimal, 3);
    }
    if n >= 100 {
        out.append(digit_str(n / 100));
        out.append(digit_str((n / 10) % 10));
        assert((n as nat / 10) / 10 == n as nat / 100);
    } else if n >= 10 {
        out.append(digit_str(n / 10));
    }
    out.append(digit_str(n % 10));
    assert(out@ =~= old(out)@ + decimal(n as nat));
}

/// `s` without its leading white space.
pub open spec fn trim_start(s: Seq<char>) -> Seq<char>
    decreases s.len(),
{
    if s.len() > 0 && is_white(s[0]) {
        trim_start(s.drop_first())
    } else {
        s
    }
}

/// `s` without its trailing white space.
pub open spec fn trim_end(s: Seq<char>) -> Seq<char>
    decreases s.len(),
{
    if s.len() > 0 && is_white(s.last()) {
        trim_end(s.drop_last())
    } else {
        s
    }
}

/// `s` without leading and trailing white space (`str::trim`).
pub open spec fn trim(s: Seq<char>) -> Seq<char> {
    trim_end(trim_start(s))
}

proof fn lemma_trim_start_skip(s: Seq<char>, i: int)
    requires
        0 <= i <= s.len(),
        forall|k: int| 0 <= k < i ==> is_white(#[trigger] s[k]),
    ensures
        trim_start(s) == trim_start(s.skip(i)),
    decreases i,
{
    if i > 0 {
        assert(s.drop_first().skip(i - 1) =~= s.skip(i));
        lemma_trim_start_skip(s.drop_first(), i - 1);
    } else {
        assert(s.skip(0) =~= s);
    }
}

proof fn lemma_trim_end_take(s: Seq<char>, j: int)
    requires
        0 <= j <= s.len(),
        forall|k: int| j <= k < s.len() ==> is_white(#[trigger] s[k]),
    ensures
        trim_end(s) == trim_end(s.take(j)),
    decreases s.len() - j,
{
    if j < s.len() {
        assert(s.drop_last().take(j) =~= s.take(j));
        lemma_trim_end_take(s.drop_last(), j);
    } else {
        assert(s.take(j) =~= s);
    }
}

/// `s` with leading and trailing white space removed.
pub fn trim_str(s: &str) -> (r: String)
    ensures
        r@ == trim(s@),
{
    let c = chars_of(s);
    let n = c.len();
    let mut i: usize = 0;
    while i < n && is_whitespace(c[i])
        invariant
            c@ == s@,
            n == c@.len(),
            i <= n,
            forall|k: int| 0 <= k < i ==> is_white(#[trigger] s@[k]),
        decreases n - i,
    {
        i = i + 1;
    }
    proof {
        lemma_trim_start_skip(s@, i as int);
    }
    let ghost t = s@.skip(i as int);
    assert(t.len() == 0 || !is_white(t[0]));
    assert(trim_start(s@) == t);
    let mut j: usize = n;
    while j > i && is_whitespace(c[j - 1])
        invariant
            c@ == s@,
            n == c@.len(),
            i <= j <= n,
            t == s@.skip(i as int),
            forall|k: int| j - i <= k < t.len() ==> is_white(#[trigger] t[k]),
        decreases j,
    {
        assert(t[j - 1 - i] == s@[j - 1]);
        j = j - 1;
    }
    proof {
        lemma_trim_end_take(t, j - i);
        let u = t.take(j - i);
        assert(u.len() == 0 || !is_white(u.last()));
        assert(u =~= s@.subrange(i as int, j as int));
    }
    String::from_str(s.substring_char(i, j))
}

/// How many characters at the front of `s` are not white space.
pub open spec fn word_len(s: Seq<char>) -> nat
    decreases s.len(),
{
    if s.len() > 0 && !is_white(s[0]) {
        1 + word_len(s.drop_first())
    } else {
        0
    }
}

/// A word is no longer than the text it starts.
pub proof fn lemma_word_len_bound(s: Seq<char>)
    ensures
        word_len(s) <= s.len(),
    decreases s.len(),
{
    if s.len() > 0 && !is_white(s[0]) {
        lemma_word_len_bound(s.drop_first());
    }
}

proof fn lemma_word_len_exact(s: Seq<char>, k: int)
    requires
        0 <= k <= s.len(),
        forall|j: int| 0 <= j < k ==> !is_white(#[trigger] s[j]),
        k == s.len() || is_white(s[k]),
    ensures
        word_len(s) == k,
    decreases k,
{
    if k > 0 {
        lemma_word_len_exact(s.drop_first(), k - 1);
    }
}

/// The white-space separated words of `s`, in order (`str::split_whitespace`).
pub open spec fn words(s: Seq<char>) -> Seq<Seq<char>>
    decreases s.len(),
{
    if s.len() == 0 {
        Seq::empty()
    } else if is_white(s[0]) {
        words(s.drop_first())
    } else {
        let w = word_len(s);
        proof {
            lemma_word_len_bound(s);
        }
        seq![s.take(w as int)] + words(s.skip(w as int))
    }
}

proof fn lemma_word_len_white_free(s: Seq<char>)
    ensures
        forall|j: int| 0 <= j < word_len(s) ==> !is_white(#[trigger] s[j]),
    decreases s.len(),
{
    if s.len() > 0 && !is_white(s[0]) {
        lemma_word_len_white_free(s.drop_first());
        lemma_word_len_bound(s);
        assert forall|j: int| 0 <= j < word_len(s) implies !is_white(#[trigger] s[j]) by {
            if j > 0 {
                assert(s[j] == s.drop_first()[j - 1]);
            }
        }
    }
}

/// Every word is non-empty and holds no white space.
pub proof fn lemma_words_clean(s: Seq<char>)
    ensures
        forall|i: int|
            0 <= i < words(s).len() ==> (#[trigger] words(s)[i]).len() > 0 && forall|j: int|
                0 <= j < words(s)[i].len() ==> !is_white(#[trigger] words(s)[i][j]),
    decreases s.len(),
{
    if s.len() > 0 {
        if is_white(s[0]) {
            lemma_words_clean(s.drop_first());
            assert(words(s) == words(s.drop_first()));
        } else {
            let w = word_len(s);
            lemma_word_len_bound(s);
            lemma_word_len_white_free(s);
            lemma_words_clean(s.skip(w as int));
            let ws = words(s);
            assert(ws == seq![s.take(w as int)] + words(s.skip(w as int)));
            assert forall|i: int| 0 <= i < ws.len() implies (#[trigger] ws[i]).len() > 0 && forall|
                j: int,
            | 0 <= j < ws[i].len() ==> !is_white(#[trigger] ws[i][j]) by {
                if i == 0 {
                    assert(ws[0] == s.take(w as int));
                    assert(w >= 1);
                    assert forall|j: int| 0 <= j < ws[i].len() implies !is_white(
                        #[trigger] ws[i][j],
                    ) by {
                        assert(ws[0][j] == s[j]);
                    }
                } else {
                    assert(ws[i] == words(s.skip(w as int))[i - 1]);
                }
            }
        }
    }
}

proof fn lemma_word_len_stops(s: Seq<char>)
    ensures
        word_len(s) == s.len() || is_white(s[word_len(s) as int]),
    decreases s.len(),
{
    if s.len() > 0 && !is_white(s[0]) {
        lemma_word_len_stops(s.drop_first());
        lemma_word_len_bound(s.drop_first());
        if word_len(s) < s.len() {
            assert(s[word_len(s) as int] == s.drop_first()[word_len(s.drop_first()) as int]);
        }
    }
}

/// Joining two texts with a space joins their words.
pub proof fn lemma_words_join(a: Seq<char>, b: Seq<char>)
    ensures
        words(a + seq![' '] + b) == words(a) + words(b),
    decreases a.len(),
{
    let j = a + seq![' '] + b;
    if a.len() == 0 {
        assert(j =~= seq![' '] + b);
        assert(j.drop_first() =~= b);
        assert(words(a) =~= Seq::<Seq<char>>::empty());
        assert(words(j) == words(b));
        assert(words(a) + words(b) =~= words(b));
    } else if is_white(a[0]) {
        assert(j[0] == a[0]);
        assert(j.drop_first() =~= a.drop_first() + seq![' '] + b);
        lemma_words_join(a.drop_first(), b);
        assert(words(a) == words(a.drop_first()));
        assert(words(j) == words(j.drop_first()));
    } else {
        let w = word_len(a);
        lemma_word_len_bound(a);
        lemma_word_len_white_free(a);
        lemma_word_len_stops(a);
        assert(j[0] == a[0]);
        assert forall|k: int| 0 <= k < w implies !is_white(#[trigger] j[k]) by {
            assert(j[k] == a[k]);
        }
        if w < a.len() {
            assert(j[w as int] == a[w as int]);
        } else {
            assert(j[w as int] == ' ');
        }
        lemma_word_len_exact(j, w as int);
        assert(j.take(w as int) =~= a.take(w as int));
        assert(j.skip(w as int) =~= a.skip(w as int) + seq![' '] + b);
        assert(w >= 1);
        lemma_words_join(a.skip(w as int), b);
        assert(words(a) == seq![a.take(w as int)] + words(a.skip(w as int)));
        assert(words(j) == seq![j.take(w as int)] + words(j.skip(w as int)));
        assert(words(j) =~= words(a) + words(b));
    }
}

/// The white-space separated words of `s`, in order.
pub fn split_whitespace(s: &str) -> (v: Vec<String>)
    ensures
        v@.map_values(|w: String| w@) == words(s@),
{
    let c = chars_of(s);
    let n = c.len();
    let mut out: Vec<String> = Vec::new();
    let mut i: usize = 0;
    assert(s@.skip(0) =~= s@);
    while i < n
        invariant
            c@ == s@,
            n == c@.len(),
            i <= n,
            words(s@) == out@.map_values(|w: String| w@) + words(s@.skip(i as int)),
        decreases n - i,
    {
        if is_whitespace(c[i]) {
            assert(s@.skip(i as int).drop_first() =~= s@.skip(i + 1));
            i = i + 1;
        } else {
            let start = i;
            while i < n && !is_whitespace(c[i])
                invariant
                    c@ == s@,
                    n == c@.len(),
                    start <= i <= n,
                    forall|k: int| start <= k < i ==> !is_white(#[trigger] s@[k]),
                decreases n - i,
            {
                i = i + 1;
            }
            let ghost rest = s@.skip(start as int);
            proof {
                assert forall|k: int| 0 <= k < i - start implies !is_white(#[trigger] rest[k]) by {
                    assert(rest[k] == s@[start + k]);
                }
                if i < n {
                    assert(rest[i - start] == s@[i as int]);
                }
                lemma_word_len_exact(rest, i - start);
                assert(rest.take(i - start) =~= s@.subrange(start as int, i as int));
                assert(rest.skip(i - start) =~= s@.skip(i as int));
            }
            let word = String::from_str(s.substring_char(start, i));
            let ghost before = out@.map_values(|w: String| w@);
            out.push(word);
            assert(out@.map_values(|w: String| w@) =~= before.push(word@));
            assert(before + words(rest) =~= out@.map_values(|w: String| w@) + words(s@.skip(i as int)));
        }
    }
    assert(s@.skip(i as int) =~= Seq::<char>::empty());
    assert(out@.map_values(|w: String| w@) + words(s@.skip(i as int)) =~= out@.map_values(|w: String| w@));
    out
}

/// A text holds every run of characters written inside it.
pub proof fn lemma_occurs_in_middle(a: Seq<char>, needle: Seq<char>, b: Seq<char>)
    ensures
        occurs_in(a + needle + b, needle),
{
    let h = a + needle + b;
    assert(h.subrange(a.len() as int, a.len() as int + needle.len()) =~= needle);
}

/// A text holds a run of characters only when it is written inside it.
pub proof fn lemma_occurs_in_split(hay: Seq<char>, needle: Seq<char>)
    requires
        occurs_in(hay, needle),
    ensures
        exists|a: Seq<char>, b: Seq<char>| hay == a + needle + b,
{
    let i = choose|i: int|
        0 <= i && i + needle.len() <= hay.len() && #[trigger] hay.subrange(i, i + needle.len())
            == needle;
    let a = hay.subrange(0, i);
    let b = hay.subrange(i + needle.len(), hay.len() as int);
    assert(hay =~= a + needle + b);
}

proof fn lemma_trim_start_meaning(s: Seq<char>)
    ensures
        exists|i: int|
            0 <= i <= s.len() && trim_start(s) == s.skip(i) && (forall|k: int|
                0 <= k < i ==> is_white(#[trigger] s[k])) && (i == s.len() || !is_white(s[i])),
    decreases s.len(),
{
    if s.len() > 0 && is_white(s[0]) {
        lemma_trim_start_meaning(s.drop_first());
        let i = choose|i: int|
            0 <= i <= s.drop_first().len() && trim_start(s.drop_first()) == s.drop_first().skip(i)
                && (forall|k: int| 0 <= k < i ==> is_white(#[trigger] s.drop_first()[k])) && (i
                == s.drop_first().len() || !is_white(s.drop_first()[i]));
        assert(s.drop_first().skip(i) =~= s.skip(i + 1));
        assert forall|k: int| 0 <= k < i + 1 implies is_white(#[trigger] s[k]) by {
            if k > 0 {
                assert(s[k] == s.drop_first()[k - 1]);
            }
        }
        if i + 1 < s.len() {
            assert(s[i + 1] == s.drop_first()[i]);
        }
    } else {
        assert(s.skip(0) =~= s);
    }
}

proof fn lemma_trim_end_meaning(s: Seq<char>)
    ensures
        exists|j: int|
            0 <= j <= s.len() && trim_end(s) == s.take(j) && (forall|k: int|
                j <= k < s.len() ==> is_white(#[trigger] s[k])) && (j == 0 || !is_white(s[j - 1])),
    decreases s.len(),
{
    if s.len() > 0 && is_white(s.last()) {
        lemma_trim_end_meaning(s.drop_last());
        let j = choose|j: int|
            0 <= j <= s.drop_last().len() && trim_end(s.drop_last()) == s.drop_last().take(j) && (
            forall|k: int| j <= k < s.drop_last().len() ==> is_white(#[trigger] s.drop_last()[k]))
                && (j == 0 || !is_white(s.drop_last()[j - 1]));
        assert(s.drop_last().take(j) =~= s.take(j));
        assert forall|k: int| j <= k < s.len() implies is_white(#[trigger] s[k]) by {
            if k < s.len() - 1 {
                assert(s[k] == s.drop_last()[k]);
            }
        }
        if j > 0 {
            assert(s[j - 1] == s.drop_last()[j - 1]);
        }
    } else {
        assert(s.take(s.len() as int) =~= s);
    }
}

/// Trimming removes exactly the white space at both ends: what is left is a
/// run of `s` with only white space before and after it, and it neither begins
/// nor ends with white space.
pub proof fn lemma_trim_meaning(s: Seq<char>)
    ensures
        exists|i: int, j: int|
            {
                &&& 0 <= i <= j <= s.len()
                &&& trim(s) == s.subrange(i, j)
                &&& forall|k: int| 0 <= k < i ==> is_white(#[trigger] s[k])
                &&& forall|k: int| j <= k < s.len() ==> is_white(#[trigger] s[k])
                &&& i < j ==> !is_white(s[i]) && !is_white(s[j - 1])
            },
{
    lemma_trim_start_meaning(s);
    let i = choose|i: int|
        0 <= i <= s.len() && trim_start(s) == s.skip(i) && (forall|k: int|
            0 <= k < i ==> is_white(#[trigger] s[k])) && (i == s.len() || !is_white(s[i]));
    let t = s.skip(i);
    lemma_trim_end_meaning(t);
    let j = choose|j: int|
        0 <= j <= t.len() && trim_end(t) == t.take(j) && (forall|k: int|
            j <= k < t.len() ==> is_white(#[trigger] t[k])) && (j == 0 || !is_white(t[j - 1]));
    assert(t.take(j) =~= s.subrange(i, i + j));
    assert forall|k: int| i + j <= k < s.len() implies is_white(#[trigger] s[k]) by {
        assert(s[k] == t[k - i]);
    }
    if j > 0 {
        assert(s[i + j - 1] == t[j - 1]);
        assert(s[i] == t[0]);
        if j == t.len() {
        } else {
        }
    }
    if 0 < j {
        assert(!is_white(s[i]));
    }
}

/// A non-empty text without white space is one word; a text of white space
/// only has none.
pub proof fn lemma_single_word(s: Seq<char>)
    ensures
        s.len() > 0 && (forall|k: int| 0 <= k < s.len() ==> !is_white(#[trigger] s[k])) ==> words(s)
            == seq![s],
        (forall|k: int| 0 <= k < s.len() ==> is_white(#[trigger] s[k])) ==> words(s) == Seq::<
            Seq<char>,
        >::empty(),
    decreases s.len(),
{
    if s.len() > 0 {
        if forall|k: int| 0 <= k < s.len() ==> !is_white(#[trigger] s[k]) {
            lemma_word_len_exact(s, s.len() as int);
            assert(s.take(s.len() as int) =~= s);
            assert(s.skip(s.len() as int) =~= Seq::<char>::empty());
            assert(words(s.skip(s.len() as int)) =~= Seq::<Seq<char>>::empty());
            assert(words(s) =~= seq![s]);
        }
        if forall|k: int| 0 <= k < s.len() ==> is_white(#[trigger] s[k]) {
            assert forall|k: int| 0 <= k < s.drop_first().len() implies is_white(
                #[trigger] s.drop_first()[k],
            ) by {
                assert(s.drop_first()[k] == s[k + 1]);
            }
            lemma_single_word(s.drop_first());
            assert(is_white(s[0]));
        }
    }
}

/// The number a run of decimal digits stands for.
pub open spec fn digits_value(s: Seq<char>) -> int
    decreases s.len(),
{
    if s.len() == 0 {
        0
    } else {
        digits_value(s.drop_last()) * 10 + (s.last() as int - '0' as int)
    }
}

/// The decimal numeral of `n` is made of digits, does not begin with `0`
/// unless it is `0`, and stands for `n`.
pub proof fn lemma_decimal_meaning(n: nat)
    ensures
        decimal(n).len() > 0,
        forall|k: int| 0 <= k < decimal(n).len() ==> '0' <= #[trigger] decimal(n)[k] <= '9',
        n > 0 ==> decimal(n)[0] != '0',
        digits_value(decimal(n)) == n,
    decreases n,
{
    if n >= 10 {
        lemma_decimal_meaning(n / 10);
        let d = decimal(n);
        assert(d.drop_last() =~= decimal(n / 10));
        assert(d[0] == decimal(n / 10)[0]);
        assert forall|k: int| 0 <= k < d.len() implies '0' <= #[trigger] d[k] <= '9' by {
            if k < d.len() - 1 {
                assert(d[k] == decimal(n / 10)[k]);
            }
        }
        assert(d.last() == digit_char(n as int % 10));
        assert(digit_char(n as int % 10) as int == '0' as int + n as int % 10);
        assert(digits_value(d) == digits_value(decimal(n / 10)) * 10 + n as int % 10);
        assert(n == (n / 10) * 10 + n % 10);
        assert(digits_value(decimal(n / 10)) == (n / 10) as int);
        assert(digits_value(d) == (n / 10) as int * 10 + n as int % 10);
    } else {
        let d = decimal(n);
        assert(d == seq![digit_char(n as int)]);
        assert(digit_char(n as int) as int == '0' as int + n as int);
        assert(d.drop_last() =~= Seq::<char>::empty());
        assert(digits_value(d.drop_last()) == 0);
        assert(d.last() == digit_char(n as int));
        assert(digits_value(d) == digits_value(d.drop_last()) * 10 + (d.last() as int - '0' as int));
    }
}

} // verus!
