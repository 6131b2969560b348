use vstd::prelude::*;

verus! {

/// The characters for which `char::is_whitespace` holds (Unicode `White_Space`).
pub open spec fn is_ws(c: char) -> bool {
    ||| c == ' '
    ||| ('\u{9}' <= c <= '\u{d}')
    ||| c == '\u{85}'
    ||| c == '\u{a0}'
    ||| c == '\u{1680}'
    ||| ('\u{2000}' <= c <= '\u{200a}')
    ||| c == '\u{2028}'
    ||| c == '\u{2029}'
    ||| c == '\u{202f}'
    ||| c == '\u{205f}'
    ||| c == '\u{3000}'
}

pub fn is_whitespace(c: char) -> (b: bool)
    ensures
        b == is_ws(c),
{
    c == ' ' || ('\u{9}' <= c && c <= '\u{d}') || c == '\u{85}' || c == '\u{a0}' || c == '\u{1680}'
        || ('\u{2000}' <= c && c <= '\u{200a}') || c == '\u{2028}' || c == '\u{2029}' || c
        == '\u{202f}' || c == '\u{205f}' || c == '\u{3000}'
}

/// Length of the run of non-whitespace characters at the start of `s`.
pub open spec fn word_len(s: Seq<char>) -> nat
    decreases s.len(),
{
    if s.len() == 0 || is_ws(s[0]) {
        0
    } else {
        1 + word_len(s.drop_first())
    }
}

/// The whitespace-separated words of `s`, as `str::split_whitespace` gives them.
pub open spec fn words(s: Seq<char>) -> Seq<Seq<char>>
    decreases s.len(),
{
    if s.len() == 0 {
        seq![]
    } else if is_ws(s[0]) {
        words(s.drop_first())
    } else {
        let n = word_len(s);
        proof {
            lemma_word_len(s);
            assert(word_len(s) == 1 + word_len(s.drop_first()));
        }
        seq![s.take(n as int)] + words(s.skip(n as int))
    }
}

pub proof fn lemma_word_len(s: Seq<char>)
    ensures
        word_len(s) <= s.len(),
        forall|i: int| 0 <= i < word_len(s) ==> !is_ws(#[trigger] s[i]),
        word_len(s) < s.len() ==> is_ws(s[word_len(s) as int]),
    decreases s.len(),
{
    if s.len() > 0 && !is_ws(s[0]) {
        lemma_word_len(s.drop_first());
        assert forall|i: int| 0 <= i < word_len(s) implies !is_ws(#[trigger] s[i]) by {
            if i > 0 {
                assert(s[i] == s.drop_first()[i - 1]);
            }
        }
        if word_len(s) < s.len() {
            assert(s[word_len(s) as int] == s.drop_first()[word_len(s) - 1]);
        }
    }
}

/// A run of non-whitespace characters up to whitespace or the end has that length.
proof fn lemma_word_len_exact(s: Seq<char>, n: nat)
    requires
        n <= s.len(),
        forall|i: int| 0 <= i < n ==> !is_ws(#[trigger] s[i]),
        n == s.len() || is_ws(s[n as int]),
    ensures
        word_len(s) == n,
    decreases n,
{
    if n > 0 {
        assert forall|i: int| 0 <= i < n - 1 implies !is_ws(#[trigger] s.drop_first()[i]) by {
            assert(s.drop_first()[i] == s[i + 1]);
        }
        if n < s.len() {
            assert(s.drop_first()[n - 1] == s[n as int]);
        }
        lemma_word_len_exact(s.drop_first(), (n - 1) as nat);
    }
}

/// The characters of `s`.
pub fn chars_of(s: &str) -> (v: Vec<char>)
    ensures
        v@ == s@,
{
    let mut v: Vec<char> = Vec::new();
    for c in it: s.chars()
        invariant
            v@ == it.seq().take(it.index() as int),
    {
        v.push(c);
    }
    v
}

/// The views of a list of character vectors.
pub open spec fn views(v: Seq<Vec<char>>) -> Seq<Seq<char>> {
    v.map_values(|w: Vec<char>| w@)
}

/// Splits `s` into its whitespace-separated words.
pub fn split_words(s: &Vec<char>) -> (ws: Vec<Vec<char>>)
    ensures
        views(ws@) == words(s@),
{
    let mut ws: Vec<Vec<char>> = Vec::new();
    let mut i: usize = 0;
    proof {
        assert(s@.skip(0) =~= s@);
    }
    while i < s.len()
        invariant
            i <= s@.len(),
            views(ws@) + words(s@.skip(i as int)) == words(s@),
        decreases s@.len() - i,
    {
        let ghost rest = s@.skip(i as int);
        if is_whitespace(s[i]) {
            proof {
                assert(rest[0] == s@[i as int]);
                assert(rest.drop_first() =~= s@.skip(i + 1));
            }
            i += 1;
        } else {
            let mut w: Vec<char> = Vec::new();
            let mut j: usize = i;
            while j < s.len() && !is_whitespace(s[j])
                invariant
                    i <= j <= s@.len(),
                    w@ == s@.subrange(i as int, j as int),
                    forall|k: int| i <= k < j ==> !is_ws(#[trigger] s@[k]),
                decreases s@.len() - j,
            {
                w.push(s[j]);
                j += 1;
            }
            proof {
                assert(rest[0] == s@[i as int]);
                assert forall|k: int| 0 <= k < j - i implies !is_ws(#[trigger] rest[k]) by {
                    assert(rest[k] == s@[i + k]);
                }
                if j < s@.len() {
                    assert(rest[j - i] == s@[j as int]);
                }
                lemma_word_len_exact(rest, (j - i) as nat);
                assert(rest.take((j - i) as int) =~= w@);
                assert(rest.skip((j - i) as int) =~= s@.skip(j as int));
                let old_ws = ws@;
                assert(views(old_ws.push(w)) =~= views(old_ws).push(w@));
            }
            let ghost old_ws = ws@;
            ws.push(w);
            proof {
                assert(views(ws@) =~= views(old_ws).push(rest.take((j - i) as int)));
                assert(views(ws@) + words(s@.skip(j as int)) =~= views(old_ws) + words(rest));
            }
            i = j;
        }
    }
    proof {
        assert(s@.skip(i as int) =~= Seq::<char>::empty());
        assert(views(ws@) + words(Seq::<char>::empty()) =~= views(ws@));
    }
    ws
}

/// The value of the decimal digits `s`.
pub open spec fn digits_value(s: Seq<char>) -> nat
    decreases s.len(),
{
    if s.len() == 0 {
        0
    } else {
        digits_value(s.drop_last()) * 10 + (s.last() as nat - '0' as nat) as nat
    }
}

/// All characters are ASCII digits.
pub open spec fn all_digits(s: Seq<char>) -> bool {
    forall|i: int| 0 <= i < s.len() ==> '0' <= #[trigger] s[i] <= '9'
}

/// What `str::parse::<usize>` gives: an optional `+`, then at least one ASCII digit, with a
/// value that fits.
pub open spec fn parse_usize(s: Seq<char>) -> Option<usize> {
    let d = if s.len() > 0 && s[0] == '+' { s.drop_first() } else { s };
    if d.len() > 0 && all_digits(d) && digits_value(d) <= usize::MAX {
        Some(digits_value(d) as usize)
    } else {
        None
    }
}

/// The ASCII decimal digits of `n`, without leading zeros.
pub open spec fn decimal(n: nat) -> Seq<char>
    decreases n,
{
    if n < 10 {
        seq![(n + '0' as nat) as char]
    } else {
        decimal(n / 10).push(((n % 10) + '0' as nat) as char)
    }
}

/// Parses a decimal number as `str::parse::<usize>` does.
pub fn parse_usize_of(s: &Vec<char>) -> (r: Option<usize>)
    ensures
        r == parse_usize(s@),
{
    let start: usize = if s.len() > 0 && s[0] == '+' { 1 } else { 0 };
    let ghost d = if s@.len() > 0 && s@[0] == '+' { s@.drop_first() } else { s@ };
    proof {
        assert(d =~= s@.skip(start as int));
        assert(parse_usize(s@) == if d.len() > 0 && all_digits(d) && digits_value(d) <= usize::MAX {
            Some(digits_value(d) as usize)
        } else {
            None
        });
    }
    if start >= s.len() {
        return None;
    }
    let mut value: usize = 0;
    let mut i: usize = start;
    while i < s.len()
        invariant
            start <= i <= s@.len(),
            parse_usize(s@) == if d.len() > 0 && all_digits(d) && digits_value(d) <= usize::MAX {
                Some(digits_value(d) as usize)
            } else {
                None
            },
            d =~= s@.skip(start as int),
            all_digits(s@.subrange(start as int, i as int)),
            value == digits_value(s@.subrange(start as int, i as int)),
        decreases s@.len() - i,
    {
        let c = s[i];
        let ghost pre = s@.subrange(start as int, i as int);
        let ghost post = s@.subrange(start as int, i + 1);
        proof {
            assert(post.drop_last() =~= pre);
            assert(post.last() == c);
        }
        if !('0' <= c && c <= '9') {
            proof {
                assert(d[i - start] == c);
                assert(!('0' <= d[i - start] <= '9'));
                assert(!all_digits(d));
            }
            return None;
        }
        let digit = (c as u32 - '0' as u32) as usize;
        proof {
            assert forall|k: int| 0 <= k < post.len() implies '0' <= #[trigger] post[k] <= '9' by {
                if k < pre.len() {
                    assert(post[k] == pre[k]);
                }
            }
            assert(digits_value(post) == digits_value(pre) * 10 + digit);
        }
        if value > (usize::MAX - digit) / 10 {
            proof {
                assert(post =~= d.take((i + 1 - start) as int));
                lemma_digits_value_grows(d, (i + 1 - start) as nat, post);
                assert(digits_value(post) == value * 10 + digit);
                assert(value * 10 + digit > usize::MAX) by (nonlinear_arith)
                    requires
                        value > (usize::MAX - digit) / 10,
                        digit <= 9,
                ;
                if all_digits(d) {
                    assert(digits_value(d) > usize::MAX);
                }
            }
            return None;
        }
        proof {
            assert(value * 10 + digit <= usize::MAX) by (nonlinear_arith)
                requires
                    value <= (usize::MAX - digit) / 10,
                    digit <= 9,
            ;
            assert forall|k: int| 0 <= k < post.len() implies '0' <= #[trigger] post[k] <= '9' by {
                if k < pre.len() {
                    assert(post[k] == pre[k]);
                }
            }
        }
        value = value * 10 + digit;
        i += 1;
    }
    proof {
        assert(s@.subrange(start as int, s@.len() as int) =~= d);
    }
    Some(value)
}

/// Once a prefix of the digits overflows, the whole number does.
proof fn lemma_digits_value_grows(d: Seq<char>, k: nat, prefix: Seq<char>)
    requires
        k <= d.len(),
        prefix == d.take(k as int),
        all_digits(d.take(k as int)),
    ensures
        all_digits(d) ==> digits_value(d) >= digits_value(prefix),
    decreases d.len() - k,
{
    if k < d.len() && all_digits(d) {
        lemma_digits_value_grows(d, k + 1, d.take((k + 1) as int));
        assert(d.take((k + 1) as int).drop_last() =~= d.take(k as int));
        assert(all_digits(d.take((k + 1) as int)));
    } else if k == d.len() {
        assert(d.take(k as int) =~= d);
    }
}

/// The decimal digits of `n`.
pub fn decimal_of(n: usize) -> (r: Vec<char>)
    ensures
        r@ == decimal(n as nat),
    decreases n,
{
    if n < 10 {
        let mut r: Vec<char> = Vec::new();
        r.push(char_of_digit(n));
        assert(r@ =~= seq![(n + '0' as nat) as char]);
        r
    } else {
        let mut r = decimal_of(n / 10);
        r.push(char_of_digit(n % 10));
        r
    }
}

fn char_of_digit(d: usize) -> (c: char)
    requires
        d < 10,
    ensures
        c == (d + '0' as nat) as char,
{
    if d == 0 { '0' } else if d == 1 { '1' } else if d == 2 { '2' } else if d == 3 { '3' } else if d
        == 4 { '4' } else if d == 5 { '5' } else if d == 6 { '6' } else if d == 7 { '7' } else if d
        == 8 { '8' } else { '9' }
}

/// Appends the characters of `b` to `a`.
pub fn append_chars(a: &mut Vec<char>, b: &Vec<char>)
    ensures
        final(a)@ == old(a)@ + b@,
{
    let mut i: usize = 0;
    while i < b.len()
        invariant
            i <= b@.len(),
            a@ == old(a)@ + b@.subrange(0, i as int),
        decreases b@.len() - i,
    {
        a.push(b[i]);
        i += 1;
    }
    assert(b@.subrange(0, b@.len() as int) =~= b@);
}

/// `String::from_iter` over the characters: a `String` holding exactly `v`.
#[verifier::external_body]
pub(crate) fn string_of(v: &Vec<char>) -> (s: String)
    ensures
        s@ == v@,
{
    v.iter().collect()
}

/// `s` is empty or ends with whitespace.
pub open spec fn ends_ws(s: Seq<char>) -> bool {
    s.len() == 0 || is_ws(s.last())
}

/// A non-empty run of characters without whitespace.
pub open spec fn is_word(w: Seq<char>) -> bool {
    &&& w.len() > 0
    &&& forall|i: int| 0 <= i < w.len() ==> !is_ws(#[trigger] w[i])
}

/// Text that ends with whitespace splits into its words followed by those of what comes next.
pub proof fn lemma_words_append(t: Seq<char>, s: Seq<char>)
    requires
        ends_ws(t),
    ensures
        words(t + s) == words(t) + words(s),
    decreases t.len(),
{
    if t.len() == 0 {
        assert(t + s =~= s);
        assert(words(t) + words(s) =~= words(s));
    } else if is_ws(t[0]) {
        assert((t + s)[0] == t[0]);
        assert((t + s).drop_first() =~= t.drop_first() + s);
        if t.drop_first().len() > 0 {
            assert(t.drop_first().last() == t.last());
        }
        lemma_words_append(t.drop_first(), s);
    } else {
        let n = word_len(t);
        lemma_word_len(t);
        if n == t.len() {
            assert(!is_ws(t[t.len() - 1]));
        }
        assert(n < t.len());
        assert forall|i: int| 0 <= i < n implies !is_ws(#[trigger] (t + s)[i]) by {
            assert((t + s)[i] == t[i]);
        }
        assert((t + s)[n as int] == t[n as int]);
        lemma_word_len_exact(t + s, n);
        lemma_word_len_exact(t, n);
        assert((t + s).take(n as int) =~= t.take(n as int));
        assert((t + s).skip(n as int) =~= t.skip(n as int) + s);
        assert(n >= 1) by {
            lemma_word_len(t.drop_first());
        }
        assert(t.skip(n as int).last() == t.last());
        lemma_words_append(t.skip(n as int), s);
        assert(words(t + s) == seq![t.take(n as int)] + words(t.skip(n as int) + s));
        assert(words(t) == seq![t.take(n as int)] + words(t.skip(n as int)));
        assert(seq![t.take(n as int)] + (words(t.skip(n as int)) + words(s)) =~= (seq![t.take(n as int)] + words(
            t.skip(n as int),
        )) + words(s));
    }
}

/// A word followed by one whitespace character is that one word.
pub proof fn lemma_words_of_word(w: Seq<char>, c: char)
    requires
        is_word(w),
        is_ws(c),
    ensures
        words(w.push(c)) == seq![w],
{
    let t = w.push(c);
    assert forall|i: int| 0 <= i < w.len() implies !is_ws(#[trigger] t[i]) by {
        assert(t[i] == w[i]);
    }
    lemma_word_len_exact(t, w.len());
    assert(t.take(w.len() as int) =~= w);
    assert(t.skip(w.len() as int) =~= seq![c]);
    assert(seq![c][0] == c);
    assert(seq![c].drop_first() =~= Seq::<char>::empty());
    assert(words(seq![c]) == words(Seq::<char>::empty()));
    assert(seq![w] + Seq::<Seq<char>>::empty() =~= seq![w]);
}

/// The decimal digits of a number are a word that reads back as the number.
pub proof fn lemma_decimal(n: nat)
    ensures
        is_word(decimal(n)),
        all_digits(decimal(n)),
        digits_value(decimal(n)) == n,
        decimal(n)[0] != '+',
    decreases n,
{
    if n < 10 {
        let c = (n + '0' as nat) as char;
        assert(decimal(n) == seq![c]);
        assert(c as nat == n + 48);
        assert(seq![c].drop_last() =~= Seq::<char>::empty());
        assert(seq![c].last() == c);
        assert(digits_value(Seq::<char>::empty()) == 0);
    } else {
        lemma_decimal(n / 10);
        let c = ((n % 10) + '0' as nat) as char;
        let d = decimal(n / 10).push(c);
        assert(c as nat == n % 10 + 48);
        assert(d.drop_last() =~= decimal(n / 10));
        assert forall|i: int| 0 <= i < d.len() implies !is_ws(#[trigger] d[i]) && '0' <= d[i] <= '9' by {
            if i < d.len() - 1 {
                assert(d[i] == decimal(n / 10)[i]);
            }
        }
        assert(d[0] == decimal(n / 10)[0]);
        assert(d.last() == c);
        assert((n / 10) * 10 + n % 10 == n) by (nonlinear_arith);
    }
}

/// `str::parse::<usize>` reads the decimal digits of a number back as the number.
pub proof fn lemma_parse_decimal(n: usize)
    ensures
        parse_usize(decimal(n as nat)) == Some(n),
{
    lemma_decimal(n as nat);
}

} // verus!
