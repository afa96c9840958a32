//! Character-level helpers for the text formats the library reads and writes.

use vstd::prelude::*;

verus! {

/// Unicode `White_Space` code points (the set `char::is_whitespace` tests).
pub open spec fn is_space_spec(c: char) -> bool {
    let u = c as u32;
    (0x9 <= u <= 0xD) || u == 0x20 || u == 0x85 || u == 0xA0 || u == 0x1680 || (0x2000 <= u <= 0x200A)
        || u == 0x2028 || u == 0x2029 || u == 0x202F || u == 0x205F || u == 0x3000
}

/// Whether `c` is a Unicode white-space character.
pub fn is_space(c: char) -> (r: bool)
    ensures
        r == is_space_spec(c),
{
    let u = c as u32;
    (0x9 <= u && u <= 0xD) || u == 0x20 || u == 0x85 || u == 0xA0 || u == 0x1680 || (0x2000 <= u && u
        <= 0x200A) || u == 0x2028 || u == 0x2029 || u == 0x202F || u == 0x205F || u == 0x3000
}

/// `String::push`: appends one character.
#[verifier::external_body]
pub fn push_char(s: &mut String, c: char)
    ensures
        final(s)@ == old(s)@.push(c),
{
    s.push(c);
}

/// The characters of `s`, in order.
pub fn chars_of(s: &str) -> (r: Vec<char>)
    ensures
        r@ == s@,
{
    let n = s.unicode_len();
    let mut v: Vec<char> = Vec::new();
    let mut i: usize = 0;
    while i < n
        invariant
            0 <= i <= n,
            n == s@.len(),
            v@ == s@.take(i as int),
        decreases n - i,
    {
        let c = s.get_char(i);
        v.push(c);
        proof {
            assert(s@.take(i + 1) =~= s@.take(i as int).push(c));
        }
        i += 1;
    }
    proof {
        assert(s@.take(n as int) =~= s@);
    }
    v
}

/// Whether two strings hold the same characters.
pub fn str_eq(a: &str, b: &str) -> (r: bool)
    ensures
        r == (a@ == b@),
{
    let n = a.unicode_len();
    let m = b.unicode_len();
    if n != m {
        return false;
    }
    let mut i: usize = 0;
    while i < n
        invariant
            0 <= i <= n,
            n == a@.len(),
            m == b@.len(),
            n == m,
            forall|j: int| 0 <= j < i ==> a@[j] == b@[j],
        decreases n - i,
    {
        if a.get_char(i) != b.get_char(i) {
            return false;
        }
        i += 1;
    }
    proof {
        assert(a@ =~= b@);
    }
    true
}

/// Append the characters of `t` to `s`.
pub fn push_str(s: &mut String, t: &str)
    ensures
        final(s)@ == old(s)@ + t@,
{
    let n = t.unicode_len();
    let mut i: usize = 0;
    while i < n
        invariant
            0 <= i <= n,
            n == t@.len(),
            s@ == old(s)@ + t@.take(i as int),
        decreases n - i,
    {
        let c = t.get_char(i);
        push_char(s, c);
        proof {
            assert(t@.take(i + 1) =~= t@.take(i as int).push(c));
            assert(old(s)@ + t@.take(i + 1) =~= (old(s)@ + t@.take(i as int)).push(c));
        }
        i += 1;
    }
    proof {
        assert(t@.take(n as int) =~= t@);
    }
}

/// The decimal digit character of `d` (below ten).
pub open spec fn digit_char(d: int) -> char {
    ((d + 48) as u32) as char
}

/// The decimal spelling of `n`, without leading zeros.
pub open spec fn dec(n: nat) -> Seq<char>
    decreases n,
{
    if n < 10 {
        seq![digit_char(n as int)]
    } else {
        dec(n / 10).push(digit_char((n % 10) as int))
    }
}

/// The digit character of `d`.
fn digit_char_of(d: u8) -> (c: char)
    requires
        d < 10,
    ensures
        c == digit_char(d as int),
{
    match d {
        0 => '0',
        1 => '1',
        2 => '2',
        3 => '3',
        4 => '4',
        5 => '5',
        6 => '6',
        7 => '7',
        8 => '8',
        _ => '9',
    }
}

/// Append the decimal spelling of `n` to `s`.
pub fn push_dec(s: &mut String, n: u64)
    ensures
        final(s)@ == old(s)@ + dec(n as nat),
    decreases n,
{
    if n >= 10 {
        push_dec(s, n / 10);
    }
    let c = digit_char_of((n % 10) as u8);
    push_char(s, c);
    proof {
        if n >= 10 {
            assert(old(s)@ + dec(n as nat) =~= (old(s)@ + dec((n / 10) as nat)).push(c));
        } else {
            assert(old(s)@ + dec(n as nat) =~= old(s)@.push(c));
        }
    }
}

/// `c` is a decimal digit.
pub open spec fn is_digit(c: char) -> bool {
    '0' <= c <= '9'
}

/// The value of the decimal digit string `s`.
pub open spec fn dec_value(s: Seq<char>) -> nat
    decreases s.len(),
{
    if s.len() == 0 {
        0
    } else {
        dec_value(s.drop_last()) * 10 + ((s.last() as u32) - 48) as nat
    }
}

/// `s` without its optional leading `+`.
pub open spec fn num_body(s: Seq<char>) -> Seq<char> {
    if s.len() > 0 && s[0] == '+' {
        s.drop_first()
    } else {
        s
    }
}

/// The unsigned integer `s` spells, as the standard library reads one: an
/// optional `+`, then one or more decimal digits.
pub open spec fn parse_nat(s: Seq<char>) -> Option<nat> {
    if num_body(s).len() > 0 && all_digits(num_body(s)) {
        Some(dec_value(num_body(s)))
    } else {
        None
    }
}

/// Every character of `s` is a decimal digit.
pub open spec fn all_digits(s: Seq<char>) -> bool {
    forall|i: int| 0 <= i < s.len() ==> #[trigger] is_digit(s[i])
}

/// Read `s` as an unsigned integer no larger than `max`; `None` when `s` is no
/// number or the number exceeds `max`.
pub fn parse_bounded(s: &str, max: u64) -> (r: Option<u64>)
    ensures
        r == (match parse_nat(s@) {
            Some(v) => if v <= max { Some(v as u64) } else { None },
            None => None,
        }),
{
    let n = s.unicode_len();
    let mut start: usize = 0;
    if n > 0 && s.get_char(0) == '+' {
        start = 1;
    }
    let ghost body = num_body(s@);
    proof {
        assert(body =~= s@.subrange(start as int, n as int));
    }
    if start == n {
        return None;
    }
    let mut v: u64 = 0;
    let mut over = false;
    let mut i: usize = start;
    while i < n
        invariant
            start <= i <= n,
            n == s@.len(),
            start < n,
            body == s@.subrange(start as int, n as int),
            body == num_body(s@),
            forall|j: int| start <= j < i ==> #[trigger] is_digit(s@[j]),
            over ==> dec_value(s@.subrange(start as int, i as int)) > max,
            !over ==> v == dec_value(s@.subrange(start as int, i as int)) && v <= max,
        decreases n - i,
    {
        let c = s.get_char(i);
        if c < '0' || c > '9' {
            proof {
                let k = i - start;
                assert(body[k] == c);
                assert(!is_digit(body[k]));
                assert(!(forall|q: int| 0 <= q < body.len() ==> #[trigger] is_digit(body[q])));
                assert(parse_nat(s@) is None);
            }
            return None;
        }
        let d = (c as u32 - 48) as u64;
        proof {
            let sub = s@.subrange(start as int, i + 1);
            assert(sub.drop_last() =~= s@.subrange(start as int, i as int));
            assert(sub.last() == c);
            if over {
                assert(dec_value(sub) >= dec_value(sub.drop_last()));
            }
        }
        if !over {
            if d > max || v > (max - d) / 10 {
                over = true;
                proof {
                    if d <= max {
                        assert(v * 10 + d > max) by (nonlinear_arith)
                            requires
                                v > (max - d) / 10,
                                d <= max,
                        {
                        }
                    }
                }
            } else {
                proof {
                    assert(v * 10 + d <= max) by (nonlinear_arith)
                        requires
                            v <= (max - d) / 10,
                            d <= max,
                    {
                    }
                }
                v = v * 10 + d;
            }
        }
        i += 1;
    }
    proof {
        assert(s@.subrange(start as int, n as int) =~= body);
        assert forall|j: int| 0 <= j < body.len() implies #[trigger] is_digit(body[j]) by {
            assert(body[j] == s@[j + start]);
        }
    }
    if over {
        None
    } else {
        Some(v)
    }
}


/// `s` without its leading white space.
pub open spec fn trim_start(s: Seq<char>) -> Seq<char>
    decreases s.len(),
{
    if s.len() > 0 && is_space_spec(s[0]) {
        trim_start(s.drop_first())
    } else {
        s
    }
}

/// `s` without its trailing white space.
pub open spec fn trim_end(s: Seq<char>) -> Seq<char>
    decreases s.len(),
{
    if s.len() > 0 && is_space_spec(s.last()) {
        trim_end(s.drop_last())
    } else {
        s
    }
}

/// `s` without leading or trailing white space (what `str::trim` gives).
pub open spec fn trim(s: Seq<char>) -> Seq<char> {
    trim_end(trim_start(s))
}

/// The white-space separated words of `s`, in order (what
/// `str::split_whitespace` yields).
pub open spec fn words(s: Seq<char>) -> Seq<Seq<char>>
    decreases s.len(),
{
    if s.len() == 0 {
        Seq::empty()
    } else {
        let w = words(s.drop_last());
        let c = s.last();
        if is_space_spec(c) {
            w
        } else if s.len() >= 2 && !is_space_spec(s[s.len() - 2]) {
            w.update(w.len() - 1, w.last().push(c))
        } else {
            w.push(seq![c])
        }
    }
}

/// The pieces of `s` between line feeds (one more than the line feeds).
pub open spec fn split_nl(s: Seq<char>) -> Seq<Seq<char>>
    decreases s.len(),
{
    if s.len() == 0 {
        seq![Seq::empty()]
    } else {
        let p = split_nl(s.drop_last());
        if s.last() == '\n' {
            p.push(Seq::empty())
        } else {
            p.update(p.len() - 1, p.last().push(s.last()))
        }
    }
}

/// The lines of `s`: the pieces between line feeds, without a final empty
/// piece (a text ending in a line feed has no extra empty line).
pub open spec fn text_lines(s: Seq<char>) -> Seq<Seq<char>> {
    let p = split_nl(s);
    if p.last().len() == 0 {
        p.drop_last()
    } else {
        p
    }
}

/// There is always a piece.
pub proof fn lemma_split_nl_len(s: Seq<char>)
    ensures
        split_nl(s).len() >= 1,
    decreases s.len(),
{
    if s.len() > 0 {
        lemma_split_nl_len(s.drop_last());
    }
}

/// Leading white space before position `a` is what `trim_start` drops.
pub proof fn lemma_trim_start_at(s: Seq<char>, a: int)
    requires
        0 <= a <= s.len(),
        forall|i: int| 0 <= i < a ==> #[trigger] is_space_spec(s[i]),
        a == s.len() || !is_space_spec(s[a]),
    ensures
        trim_start(s) == s.subrange(a, s.len() as int),
    decreases a,
{
    if a == 0 {
        assert(s.subrange(0, s.len() as int) =~= s);
    } else {
        assert forall|i: int| 0 <= i < a - 1 implies #[trigger] is_space_spec(s.drop_first()[i]) by {
            assert(s.drop_first()[i] == s[i + 1]);
        }
        lemma_trim_start_at(s.drop_first(), a - 1);
        assert(s.drop_first().subrange(a - 1, s.len() - 1) =~= s.subrange(a, s.len() as int));
    }
}

/// Trailing white space from position `b` is what `trim_end` drops.
pub proof fn lemma_trim_end_at(s: Seq<char>, b: int)
    requires
        0 <= b <= s.len(),
        forall|i: int| b <= i < s.len() ==> #[trigger] is_space_spec(s[i]),
        b == 0 || !is_space_spec(s[b - 1]),
    ensures
        trim_end(s) == s.subrange(0, b),
    decreases s.len() - b,
{
    if b == s.len() {
        assert(s.subrange(0, b) =~= s);
    } else {
        lemma_trim_end_at(s.drop_last(), b);
        assert(s.drop_last().subrange(0, b) =~= s.subrange(0, b));
    }
}

/// Words never disappear as characters are appended.
pub proof fn lemma_words_grow(s: Seq<char>)
    requires
        s.len() > 0,
        !is_space_spec(s[0]),
    ensures
        words(s).len() >= 1,
    decreases s.len(),
{
    if s.len() > 1 {
        lemma_words_grow(s.drop_last());
    }
}

/// `s` without leading or trailing white space.
pub fn trim_chars(s: &Vec<char>) -> (r: Vec<char>)
    ensures
        r@ == trim(s@),
{
    let n = s.len();
    let mut a: usize = 0;
    while a < n && is_space(s[a])
        invariant
            0 <= a <= n,
            n == s@.len(),
            forall|i: int| 0 <= i < a ==> #[trigger] is_space_spec(s@[i]),
        decreases n - a,
    {
        a += 1;
    }
    proof {
        lemma_trim_start_at(s@, a as int);
    }
    let ghost t = s@.subrange(a as int, n as int);
    let mut b: usize = n;
    while b > a && is_space(s[b - 1])
        invariant
            a <= b <= n,
            n == s@.len(),
            t == s@.subrange(a as int, n as int),
            forall|i: int| b <= i < n ==> #[trigger] is_space_spec(s@[i]),
        decreases b - a,
    {
        b -= 1;
    }
    proof {
        assert forall|i: int| b - a <= i < t.len() implies #[trigger] is_space_spec(t[i]) by {
            assert(t[i] == s@[i + a]);
        }
        if b > a {
            assert(t[b - a - 1] == s@[b - 1]);
        }
        lemma_trim_end_at(t, (b - a) as int);
        assert(t.subrange(0, (b - a) as int) =~= s@.subrange(a as int, b as int));
    }
    let mut r: Vec<char> = Vec::new();
    let mut i: usize = a;
    while i < b
        invariant
            a <= i <= b,
            b <= n,
            n == s@.len(),
            r@ == s@.subrange(a as int, i as int),
        decreases b - i,
    {
        r.push(s[i]);
        proof {
            assert(r@ =~= s@.subrange(a as int, i + 1));
        }
        i += 1;
    }
    r
}

/// The white-space separated words of `s`.
pub fn words_of(s: &Vec<char>) -> (r: Vec<String>)
    ensures
        r@.map_values(|w: String| w@) == words(s@),
{
    let n = s.len();
    let mut out: Vec<String> = Vec::new();
    let mut cur = String::new();
    let mut in_word = false;
    let mut i: usize = 0;
    while i < n
        invariant
            0 <= i <= n,
            n == s@.len(),
            in_word == (i > 0 && !is_space_spec(s@[i - 1])),
            words(s@.take(i as int)) == if in_word {
                out@.map_values(|w: String| w@).push(cur@)
            } else {
                out@.map_values(|w: String| w@)
            },
        decreases n - i,
    {
        let c = s[i];
        let ghost pre = s@.take(i as int);
        proof {
            assert(s@.take(i + 1).drop_last() =~= pre);
            assert(s@.take(i + 1).last() == c);
            if i > 0 {
                assert(s@.take(i + 1)[i - 1] == s@[i - 1]);
            }
        }
        if is_space(c) {
            if in_word {
                let ghost o = out@;
                let ghost cw = cur@;
                out.push(cur);
                cur = String::new();
                proof {
                    assert(out@.map_values(|w: String| w@) =~= o.map_values(|w: String| w@).push(cw));
                }
                in_word = false;
            }
        } else {
            if in_word {
                push_char(&mut cur, c);
            } else {
                cur = String::new();
                push_char(&mut cur, c);
                in_word = true;
            }
        }
        i += 1;
    }
    let ghost o = out@;
    let ghost cw = cur@;
    if in_word {
        out.push(cur);
        proof {
            assert(out@.map_values(|w: String| w@) =~= o.map_values(|w: String| w@).push(cw));
        }
    }
    proof {
        assert(s@.take(n as int) =~= s@);
    }
    out
}


/// The decimal spelling of `n` is a non-empty run of digits that reads back as `n`.
pub proof fn lemma_dec_reads_back(n: nat)
    ensures
        dec(n).len() > 0,
        all_digits(dec(n)),
        parse_nat(dec(n)) == Some(n),
    decreases n,
{
    if n < 10 {
        let c = digit_char(n as int);
        assert(c as u32 == n + 48);
        assert(dec(n) == seq![c]);
        assert(dec(n).len() == 1 && dec(n).last() == c);
        assert(dec(n).drop_last() =~= Seq::<char>::empty());
        assert(dec_value(Seq::<char>::empty()) == 0);
        assert(dec_value(dec(n)) == n);
        assert(is_digit(dec(n)[0]));
    } else {
        lemma_dec_reads_back(n / 10);
        let c = digit_char((n % 10) as int);
        assert(c as u32 == n % 10 + 48);
        assert(dec(n).drop_last() =~= dec(n / 10));
        assert(dec_value(dec(n)) == dec_value(dec(n / 10)) * 10 + n % 10);
        assert(n == (n / 10) * 10 + n % 10);
        assert(is_digit(dec(n / 10)[0]));
        assert(dec(n)[0] == dec(n / 10)[0]);
        assert forall|i: int| 0 <= i < dec(n).len() implies #[trigger] is_digit(dec(n)[i]) by {
            if i < dec(n).len() - 1 {
                assert(dec(n)[i] == dec(n / 10)[i]);
            }
        }
    }
    assert(num_body(dec(n)) == dec(n));
}

/// A space between two texts separates their words.
pub proof fn lemma_words_sep(s: Seq<char>, t: Seq<char>)
    ensures
        words(s + seq![' '] + t) == words(s) + words(t),
    decreases t.len(),
{
    let u = s + seq![' '];
    if t.len() == 0 {
        assert(u + t =~= u);
        assert(u.drop_last() =~= s);
        assert(is_space_spec(' '));
        assert(words(s) + words(t) =~= words(s));
    } else {
        let t0 = t.drop_last();
        let c = t.last();
        lemma_words_sep(s, t0);
        assert((u + t).drop_last() =~= u + t0);
        assert((u + t).last() == c);
        let w0 = words(u + t0);
        if is_space_spec(c) {
            assert(words(s) + words(t) =~= words(s) + words(t0));
        } else if t0.len() > 0 && !is_space_spec(t0.last()) {
            assert((u + t)[(u + t).len() - 2] == t0.last());
            lemma_words_last(t0);
            assert(words(t) == words(t0).update(words(t0).len() - 1, words(t0).last().push(c)));
            assert(words(u + t) =~= words(s) + words(t));
        } else {
            if t0.len() == 0 {
                assert((u + t)[(u + t).len() - 2] == ' ');
            } else {
                assert((u + t)[(u + t).len() - 2] == t0.last());
            }
            assert(words(t) == words(t0).push(seq![c]));
            assert(words(u + t) =~= words(s) + words(t));
        }
    }
}

/// A text ending in a non-space character has a word.
pub proof fn lemma_words_last(t: Seq<char>)
    requires
        t.len() > 0,
        !is_space_spec(t.last()),
    ensures
        words(t).len() > 0,
    decreases t.len(),
{
    if t.len() >= 2 && !is_space_spec(t[t.len() - 2]) {
        assert(t.drop_last().last() == t[t.len() - 2]);
        lemma_words_last(t.drop_last());
    }
}

/// A non-empty text without white space is one word.
pub proof fn lemma_words_single(w: Seq<char>)
    requires
        w.len() > 0,
        forall|i: int| 0 <= i < w.len() ==> !is_space_spec(#[trigger] w[i]),
    ensures
        words(w) == seq![w],
    decreases w.len(),
{
    if w.len() == 1 {
        assert(w.drop_last() =~= Seq::<char>::empty());
        assert(seq![w.last()] =~= w);
        assert(!is_space_spec(w.last()));
        assert(words(w.drop_last()) =~= Seq::<Seq<char>>::empty());
        assert(words(w) == Seq::<Seq<char>>::empty().push(seq![w.last()]));
        assert(Seq::<Seq<char>>::empty().push(seq![w.last()]) =~= seq![w]);
    } else {
        let w0 = w.drop_last();
        assert forall|i: int| 0 <= i < w0.len() implies !is_space_spec(#[trigger] w0[i]) by {
            assert(w0[i] == w[i]);
        }
        lemma_words_single(w0);
        assert(w[w.len() - 2] == w0.last());
        assert(!is_space_spec(w.last()));
        assert(w0.push(w.last()) =~= w);
        assert(words(w) == words(w0).update(0, w0.push(w.last())));
        assert(seq![w0].update(0, w0.push(w.last())) =~= seq![w]);
    }
}

/// Lines joined, each followed by a line feed.
pub open spec fn lines_text(ls: Seq<Seq<char>>) -> Seq<char>
    decreases ls.len(),
{
    if ls.len() == 0 {
        Seq::empty()
    } else {
        lines_text(ls.drop_last()) + ls.last() + seq!['\n']
    }
}

/// Joining two runs of lines joins their texts.
pub proof fn lemma_lines_concat(a: Seq<Seq<char>>, b: Seq<Seq<char>>)
    ensures
        lines_text(a + b) == lines_text(a) + lines_text(b),
    decreases b.len(),
{
    if b.len() == 0 {
        assert(a + b =~= a);
        assert(lines_text(a) + lines_text(b) =~= lines_text(a));
    } else {
        lemma_lines_concat(a, b.drop_last());
        assert((a + b).drop_last() =~= a + b.drop_last());
        assert((a + b).last() == b.last());
        assert(lines_text(a + b) =~= lines_text(a) + lines_text(b));
    }
}

/// Appending text with no line feed extends the last piece.
pub proof fn lemma_split_append(s: Seq<char>, x: Seq<char>)
    requires
        forall|i: int| 0 <= i < x.len() ==> #[trigger] x[i] != '\n',
    ensures
        split_nl(s + x) == split_nl(s).update(split_nl(s).len() - 1, split_nl(s).last() + x),
    decreases x.len(),
{
    lemma_split_nl_len(s);
    if x.len() == 0 {
        assert(s + x =~= s);
        assert(split_nl(s).last() + x =~= split_nl(s).last());
        assert(split_nl(s).update(split_nl(s).len() - 1, split_nl(s).last()) =~= split_nl(s));
    } else {
        let x0 = x.drop_last();
        assert forall|i: int| 0 <= i < x0.len() implies #[trigger] x0[i] != '\n' by {
            assert(x0[i] == x[i]);
        }
        lemma_split_append(s, x0);
        assert((s + x).drop_last() =~= s + x0);
        assert((s + x).last() == x.last());
        assert(x.last() != '\n');
        let q = split_nl(s);
        let p = split_nl(s + x0);
        assert(p.len() == q.len());
        assert(p.last() == q.last() + x0);
        assert((q.last() + x0).push(x.last()) =~= q.last() + x);
        assert(split_nl(s + x) == p.update(p.len() - 1, p.last().push(x.last())));
        assert(p.update(p.len() - 1, p.last().push(x.last())) =~= q.update(q.len() - 1, q.last() + x));
    }
}

/// The pieces of joined lines are the lines, then an empty piece.
pub proof fn lemma_split_lines(ls: Seq<Seq<char>>)
    requires
        forall|k: int, i: int| 0 <= k < ls.len() && 0 <= i < ls[k].len() ==> #[trigger] ls[k][i] != '\n',
    ensures
        split_nl(lines_text(ls)) == ls.push(Seq::empty()),
        text_lines(lines_text(ls)) == ls,
    decreases ls.len(),
{
    if ls.len() == 0 {
        assert(split_nl(Seq::<char>::empty()) =~= seq![Seq::<char>::empty()]);
        assert(ls.push(Seq::empty()) =~= seq![Seq::<char>::empty()]);
    } else {
        let l0 = ls.drop_last();
        let l = ls.last();
        assert forall|k: int, i: int| 0 <= k < l0.len() && 0 <= i < l0[k].len() implies #[trigger] l0[k][i] != '\n' by {
            assert(l0[k] == ls[k]);
        }
        lemma_split_lines(l0);
        let t0 = lines_text(l0);
        assert forall|i: int| 0 <= i < l.len() implies #[trigger] l[i] != '\n' by {
            assert(ls[ls.len() - 1] == l);
        }
        lemma_split_append(t0, l);
        let t = t0 + l + seq!['\n'];
        assert(t.drop_last() =~= t0 + l);
        assert(t.last() == '\n');
        assert(Seq::<char>::empty() + l =~= l);
        assert(split_nl(t) =~= ls.push(Seq::empty()));
    }
    assert(split_nl(lines_text(ls)).drop_last() =~= ls);
}

/// A text that starts and ends with non-space characters is its own trim.
pub proof fn lemma_trim_id(l: Seq<char>)
    requires
        l.len() > 0,
        !is_space_spec(l[0]),
        !is_space_spec(l.last()),
    ensures
        trim(l) == l,
{
    lemma_trim_start_at(l, 0);
    assert(l.subrange(0, l.len() as int) =~= l);
    lemma_trim_end_at(l, l.len() as int);
}

} // verus!
