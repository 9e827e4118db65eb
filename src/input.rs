use vstd::prelude::*;

use crate::NonoError;

verus! {

/// The characters that Unicode counts as white space.
pub open spec fn is_white(c: char) -> bool {
    ||| '\t' <= c <= '\r'
    ||| c == ' '
    ||| c == '\u{85}'
    ||| c == '\u{a0}'
    ||| c == '\u{1680}'
    ||| '\u{2000}' <= c <= '\u{200a}'
    ||| c == '\u{2028}'
    ||| c == '\u{2029}'
    ||| c == '\u{202f}'
    ||| c == '\u{205f}'
    ||| c == '\u{3000}'
}

/// Whether `c` is white space.
pub fn white(c: char) -> (r: bool)
    ensures
        r == is_white(c),
{
    ('\t' <= c && c <= '\r') || c == ' ' || c == '\u{85}' || c == '\u{a0}' || c == '\u{1680}'
        || ('\u{2000}' <= c && c <= '\u{200a}') || c == '\u{2028}' || c == '\u{2029}' || c
        == '\u{202f}' || c == '\u{205f}' || c == '\u{3000}'
}

/// Reading `s` from the left: the words finished so far, and the word being
/// read (empty after white space).
pub open spec fn words_so_far(s: Seq<char>) -> (Seq<Seq<char>>, Seq<char>)
    decreases s.len(),
{
    if s.len() == 0 {
        (Seq::empty(), Seq::empty())
    } else {
        let (done, cur) = words_so_far(s.drop_last());
        if !is_white(s.last()) {
            (done, cur.push(s.last()))
        } else if cur.len() > 0 {
            (done.push(cur), Seq::empty())
        } else {
            (done, Seq::empty())
        }
    }
}

/// The words of `s`: its longest stretches without white space, in order.
pub open spec fn words(s: Seq<char>) -> Seq<Seq<char>> {
    let (done, cur) = words_so_far(s);
    if cur.len() > 0 {
        done.push(cur)
    } else {
        done
    }
}

pub open spec fn is_digit(c: char) -> bool {
    '0' <= c <= '9'
}

/// The number that a string of decimal digits writes.
pub open spec fn digits_value(d: Seq<char>) -> int
    decreases d.len(),
{
    if d.len() == 0 {
        0
    } else {
        digits_value(d.drop_last()) * 10 + (d.last() as int - '0' as int)
    }
}

/// The digits of a word, after an optional leading `+`.
pub open spec fn unsigned_digits(t: Seq<char>) -> Seq<char> {
    if t.len() > 0 && t[0] == '+' {
        t.drop_first()
    } else {
        t
    }
}

/// The byte that a word writes in decimal, with an optional leading `+`;
/// none if it holds anything else or names a number over 255.
pub open spec fn byte_of_word(t: Seq<char>) -> Option<u8> {
    let d = unsigned_digits(t);
    if d.len() > 0 && (forall|i: int| 0 <= i < d.len() ==> is_digit(#[trigger] d[i])) && digits_value(d)
        <= 255 {
        Some(digits_value(d) as u8)
    } else {
        None
    }
}

/// Every word is a byte.
pub open spec fn all_bytes(ws: Seq<Seq<char>>) -> bool {
    forall|i: int| 0 <= i < ws.len() ==> #[trigger] byte_of_word(ws[i]) is Some
}

proof fn lemma_digits_grow(d: Seq<char>, j: int)
    requires
        0 <= j <= d.len(),
        forall|i: int| 0 <= i < d.len() ==> is_digit(#[trigger] d[i]),
    ensures
        digits_value(d.take(j)) <= digits_value(d),
        digits_value(d.take(j)) >= 0,
    decreases d.len() - j,
{
    if j < d.len() {
        assert(d.take(j + 1).drop_last() =~= d.take(j));
        lemma_digits_grow(d, j + 1);
        assert(is_digit(d[j]));
    } else {
        assert(d.take(j) =~= d);
        lemma_digits_nonneg(d);
    }
}

proof fn lemma_digits_nonneg(d: Seq<char>)
    requires
        forall|i: int| 0 <= i < d.len() ==> is_digit(#[trigger] d[i]),
    ensures
        digits_value(d) >= 0,
    decreases d.len(),
{
    if d.len() > 0 {
        lemma_digits_nonneg(d.drop_last());
        assert(is_digit(d[d.len() - 1]));
    }
}

/// The byte that `word` writes in decimal, if it writes one.
pub fn byte_from_word(word: &Vec<char>) -> (r: Option<u8>)
    ensures
        r == byte_of_word(word@),
{
    let ghost t = word@;
    let ghost d = unsigned_digits(t);
    let first: usize = if word.len() > 0 && word[0] == '+' { 1 } else { 0 };
    assert(d =~= t.subrange(first as int, t.len() as int));
    if first >= word.len() {
        return None;
    }
    let mut value: u32 = 0;
    let mut i: usize = first;
    while i < word.len()
        invariant
            first <= i <= t.len(),
            t == word@,
            d == t.subrange(first as int, t.len() as int),
            d == unsigned_digits(t),
            forall|x: int| 0 <= x < i - first ==> is_digit(#[trigger] d[x]),
            value == digits_value(d.take(i - first)),
            value <= 255,
        decreases t.len() - i,
    {
        let c = word[i];
        assert(d.take(i - first + 1).drop_last() =~= d.take(i - first));
        assert(d[i - first] == c);
        if !('0' <= c && c <= '9') {
            assert(!is_digit(d[i - first]));
            return None;
        }
        assert(digits_value(d.take(i - first + 1)) == digits_value(d.take(i - first)) * 10 + (c as int
            - '0' as int));
        value = value * 10 + (c as u32 - '0' as u32);
        i = i + 1;
        if value > 255 {
            proof {
                if forall|x: int| 0 <= x < d.len() ==> is_digit(#[trigger] d[x]) {
                    lemma_digits_grow(d, i - first);
                }
            }
            assert(byte_of_word(t) is None);
            return None;
        }
    }
    assert(d.take(d.len() as int) =~= d);
    Some(value as u8)
}

/// The bytes written, in decimal and apart by white space, in `text`;
/// refused with `ParseError` if a word writes no byte.
pub fn parse_run_lengths(text: &str) -> (r: Result<Vec<u8>, NonoError>)
    ensures
        r is Ok <==> all_bytes(words(text@)),
        r is Err ==> r == Err::<Vec<u8>, NonoError>(NonoError::ParseError),
        r matches Ok(v) ==> v@.len() == words(text@).len() && forall|i: int| 0 <= i < v@.len()
            ==> Some(#[trigger] v@[i]) == byte_of_word(words(text@)[i]),
{
    let ghost s = text@;
    proof {
        reveal_with_fuel(words_so_far, 1);
    }
    let mut out: Vec<u8> = Vec::new();
    let mut cur: Vec<char> = Vec::new();
    for c in it: text.chars()
        invariant
            it.seq() == s,
            s == text@,
            cur@ == words_so_far(s.take(it.index() as int)).1,
            out@.len() == words_so_far(s.take(it.index() as int)).0.len(),
            forall|i: int| 0 <= i < out@.len() ==> Some(#[trigger] out@[i]) == byte_of_word(
                words_so_far(s.take(it.index() as int)).0[i],
            ),
    {
        let ghost before = s.take(it.index() as int);
        assert(s.take(it.index() + 1).drop_last() =~= before);
        let ghost after = s.take(it.index() + 1);
        assert(after.last() == c);
        assert(words_so_far(after) == {
            let (done, w) = words_so_far(before);
            if !is_white(c) {
                (done, w.push(c))
            } else if w.len() > 0 {
                (done.push(w), Seq::empty())
            } else {
                (done, Seq::empty())
            }
        });
        if !white(c) {
            cur.push(c);
        } else if cur.len() > 0 {
            match byte_from_word(&cur) {
                Some(b) => out.push(b),
                None => {
                    proof {
                        let done = words_so_far(after).0;
                        lemma_done_kept(s, it.index() + 1, done.len() - 1);
                        assert(done[done.len() - 1] == cur@);
                        assert(byte_of_word(words(s)[done.len() - 1]) is None);
                    }
                    return Err(NonoError::ParseError);
                },
            }
            cur = Vec::new();
        }
    }
    assert(s.take(s.len() as int) =~= s);
    let ghost done = words_so_far(s).0;
    if cur.len() > 0 {
        match byte_from_word(&cur) {
            Some(b) => out.push(b),
            None => {
                assert(words(s)[done.len() as int] == cur@);
                assert(byte_of_word(words(s)[done.len() as int]) is None);
                return Err(NonoError::ParseError);
            },
        }
    }
    assert forall|i: int| 0 <= i < out@.len() implies Some(#[trigger] out@[i]) == byte_of_word(words(s)[i]) by {
        if i < done.len() {
            assert(words(s)[i] == done[i]);
        }
    }
    assert forall|i: int| 0 <= i < words(s).len() implies #[trigger] byte_of_word(words(s)[i]) is Some by {
        assert(Some(out@[i]) == byte_of_word(words(s)[i]));
    }
    Ok(out)
}

/// A finished word stays finished as reading goes on.
proof fn lemma_done_kept(s: Seq<char>, j: int, i: int)
    requires
        0 <= j <= s.len(),
        0 <= i < words_so_far(s.take(j)).0.len(),
    ensures
        i < words(s).len(),
        words(s)[i] == words_so_far(s.take(j)).0[i],
    decreases s.len() - j,
{
    if j == s.len() {
        assert(s.take(j) =~= s);
    } else {
        assert(s.take(j + 1).drop_last() =~= s.take(j));
        lemma_done_kept(s, j + 1, i);
    }
}

/// `s` is the word `w` with only white space before and after it.
pub open spec fn padded(s: Seq<char>, w: Seq<char>) -> bool {
    exists|a: int|
        0 <= a && a + w.len() <= s.len() && #[trigger] s.subrange(a, a + w.len()) == w && (forall|j: int|
            0 <= j < a ==> is_white(#[trigger] s[j])) && (forall|j: int|
            a + w.len() <= j < s.len() ==> is_white(#[trigger] s[j]))
}

/// The words that end the input: `q`, `quit` and `exit`.
pub open spec fn is_quit_text(s: Seq<char>) -> bool {
    ||| padded(s, seq!['q'])
    ||| padded(s, seq!['q', 'u', 'i', 't'])
    ||| padded(s, seq!['e', 'x', 'i', 't'])
}

/// Whether `chars[a..b)` is `w`, for `w` free of white space, where `a` is
/// the first cell that is not white space and `b` is one past the last.
fn trimmed_is(chars: &Vec<char>, a: usize, b: usize, w: &Vec<char>) -> (r: bool)
    requires
        a <= b <= chars@.len(),
        forall|j: int| 0 <= j < a ==> is_white(#[trigger] chars@[j]),
        forall|j: int| b <= j < chars@.len() ==> is_white(#[trigger] chars@[j]),
        a < b ==> !is_white(chars@[a as int]) && !is_white(chars@[b - 1]),
        w@.len() > 0,
        forall|j: int| 0 <= j < w@.len() ==> !is_white(#[trigger] w@[j]),
    ensures
        r == padded(chars@, w@),
{
    let ghost s = chars@;
    if b - a != w.len() {
        proof {
            if padded(s, w@) {
                let x = choose|x: int|
                    0 <= x && x + w@.len() <= s.len() && #[trigger] s.subrange(x, x + w@.len()) == w@
                        && (forall|j: int| 0 <= j < x ==> is_white(#[trigger] s[j])) && (forall|j: int|
                        x + w@.len() <= j < s.len() ==> is_white(#[trigger] s[j]));
                assert(s[x] == s.subrange(x, x + w@.len())[0]);
                let e = x + w@.len() - 1;
                assert(s[e] == s.subrange(x, x + w@.len())[e - x]);
                assert(!is_white(s[x]) && !is_white(s[e]));
                assert(x == a);
                assert(e == b - 1);
            }
        }
        return false;
    }
    let mut i: usize = 0;
    while i < w.len()
        invariant
            i <= w@.len(),
            b - a == w@.len(),
            b <= s.len(),
            s == chars@,
            forall|j: int| 0 <= j < i ==> s[a + j] == #[trigger] w@[j],
            forall|j: int| 0 <= j < a ==> is_white(#[trigger] s[j]),
            a < b ==> !is_white(s[a as int]),
            forall|j: int| 0 <= j < w@.len() ==> !is_white(#[trigger] w@[j]),
        decreases w@.len() - i,
    {
        if chars[a + i] != w[i] {
            proof {
                if padded(s, w@) {
                    let x = choose|x: int|
                        0 <= x && x + w@.len() <= s.len() && #[trigger] s.subrange(x, x + w@.len()) == w@
                            && (forall|j: int| 0 <= j < x ==> is_white(#[trigger] s[j])) && (forall|j: int|
                            x + w@.len() <= j < s.len() ==> is_white(#[trigger] s[j]));
                    assert(s[x] == s.subrange(x, x + w@.len())[0]);
                    assert(!is_white(s[x]));
                    assert(x == a);
                    assert(s[a + i] == s.subrange(x, x + w@.len())[i as int]);
                }
            }
            return false;
        }
        i = i + 1;
    }
    assert(s.subrange(a as int, a + w@.len()) =~= w@);
    true
}

/// Whether `text`, without the white space around it, is `q`, `quit` or
/// `exit`.
pub fn is_quit_command(text: &str) -> (r: bool)
    ensures
        r == is_quit_text(text@),
{
    let mut chars: Vec<char> = Vec::new();
    for c in it: text.chars()
        invariant
            it.seq() == text@,
            chars@ == text@.take(it.index() as int),
    {
        chars.push(c);
        assert(chars@ =~= text@.take(it.index() + 1));
    }
    assert(chars@ =~= text@);
    let n = chars.len();
    let mut a: usize = 0;
    while a < n && white(chars[a])
        invariant
            a <= n,
            n == chars@.len(),
            forall|j: int| 0 <= j < a ==> is_white(#[trigger] chars@[j]),
        decreases n - a,
    {
        a = a + 1;
    }
    let mut b: usize = n;
    while b > a && white(chars[b - 1])
        invariant
            a <= b <= n,
            n == chars@.len(),
            forall|j: int| b <= j < n ==> is_white(#[trigger] chars@[j]),
        decreases b - a,
    {
        b = b - 1;
    }
    let q = vec!['q'];
    let quit = vec!['q', 'u', 'i', 't'];
    let exit = vec!['e', 'x', 'i', 't'];
    assert(q@ == seq!['q']);
    assert(quit@ == seq!['q', 'u', 'i', 't']);
    assert(exit@ == seq!['e', 'x', 'i', 't']);
    trimmed_is(&chars, a, b, &q) || trimmed_is(&chars, a, b, &quit) || trimmed_is(&chars, a, b, &exit)
}

} // verus!
