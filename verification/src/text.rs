//! Text helpers on `char` sequences: Unicode white space, decimal numbers,
//! UTF-8 byte lengths, words, trimming, lines and ASCII case folding.
use vstd::prelude::*;
use vstd::utf8::*;

verus! {

/// The Unicode `White_Space` property (PropList.txt), which is what
/// `char::is_whitespace` tests.
pub open spec fn is_white_space(c: char) -> bool {
    let u = c as u32;
    ||| 0x09 <= u <= 0x0D
    ||| u == 0x20
    ||| u == 0x85
    ||| u == 0xA0
    ||| u == 0x1680
    ||| 0x2000 <= u <= 0x200A
    ||| u == 0x2028
    ||| u == 0x2029
    ||| u == 0x202F
    ||| u == 0x205F
    ||| u == 0x3000
}

/// Tests the Unicode `White_Space` property of a character.
pub fn is_whitespace_char(c: char) -> (r: bool)
    ensures
        r == is_white_space(c),
{
    let u = c as u32;
    (0x09 <= u && u <= 0x0D) || u == 0x20 || u == 0x85 || u == 0xA0 || u == 0x1680 || (0x2000
        <= u && u <= 0x200A) || u == 0x2028 || u == 0x2029 || u == 0x202F || u == 0x205F || u
        == 0x3000
}

/// The character of a decimal digit.
pub open spec fn digit_char(d: nat) -> char {
    ((48 + d) as u8) as char
}

/// The decimal representation of a natural number, without leading zeros.
pub open spec fn decimal(n: nat) -> Seq<char>
    decreases n,
{
    if n < 10 {
        seq![digit_char(n)]
    } else {
        decimal(n / 10).push(digit_char(n % 10))
    }
}

/// A decimal numeral: one or more of the digits `0`-`9`, without a leading
/// `0` unless it is the numeral `0` itself.
pub open spec fn is_numeral(s: Seq<char>) -> bool {
    &&& s.len() > 0
    &&& forall|i: int| 0 <= i < s.len() ==> '0' <= #[trigger] s[i] <= '9'
    &&& s.len() > 1 ==> s[0] != '0'
}

/// The number that a string of decimal digits stands for, read from the
/// most significant digit.
pub open spec fn numeral_value(s: Seq<char>) -> int
    decreases s.len(),
{
    if s.len() == 0 {
        0
    } else {
        numeral_value(s.drop_last()) * 10 + (s.last() as int - 48)
    }
}

/// `decimal(n)` is the decimal numeral of `n`: digits only, no leading
/// zero, and it reads back as `n`.
pub proof fn lemma_decimal_is_numeral(n: nat)
    ensures
        is_numeral(decimal(n)),
        numeral_value(decimal(n)) == n,
        n >= 10 ==> decimal(n).len() >= 2,
    decreases n,
{
    if n < 10 {
        let d = digit_char(n);
        assert((48 + n) as u8 as char as int == 48 + n);
        assert(decimal(n) =~= seq![d]);
        assert(decimal(n).drop_last() =~= Seq::<char>::empty());
        assert(numeral_value(Seq::<char>::empty()) == 0);
        assert(decimal(n).last() == d);
        assert(numeral_value(decimal(n)) == numeral_value(decimal(n).drop_last()) * 10 + (d as int - 48));
    } else {
        lemma_decimal_is_numeral(n / 10);
        let prev = decimal(n / 10);
        let d = digit_char(n % 10);
        assert((48 + n % 10) as u8 as char as int == 48 + n % 10);
        let s = decimal(n);
        assert(s == prev.push(d));
        assert(s.drop_last() =~= prev);
        assert(s.last() == d);
        assert(numeral_value(s) == numeral_value(prev) * 10 + (d as int - 48));
        assert((n / 10) * 10 + n % 10 == n);
        assert forall|i: int| 0 <= i < s.len() implies '0' <= #[trigger] s[i] <= '9' by {
            if i < prev.len() {
                assert(s[i] == prev[i]);
            }
        }
        if prev.len() > 1 {
            assert(s[0] == prev[0]);
        } else {
            assert(n / 10 < 10);
            assert(prev =~= seq![digit_char(n / 10)]);
            assert((48 + n / 10) as u8 as char as int == 48 + n / 10);
            assert(s[0] == prev[0]);
        }
    }
}

/// Two numbers have the same decimal text only when they are equal.
pub proof fn lemma_decimal_injective(a: nat, b: nat)
    requires
        decimal(a) == decimal(b),
    ensures
        a == b,
{
    lemma_decimal_is_numeral(a);
    lemma_decimal_is_numeral(b);
}

/// The decimal text of `n`, as `n.to_string()` writes it.
pub fn decimal_string(n: usize) -> (s: String)
    ensures
        s@ == decimal(n as nat),
{
    let mut m = n;
    let mut out: Vec<char> = Vec::new();
    assert(decimal(n as nat) + out@ =~= decimal(n as nat));
    loop
        invariant_except_break
            decimal(n as nat) == decimal(m as nat) + out@,
        ensures
            decimal(n as nat) == out@,
        decreases m,
    {
        let ghost rest = out@;
        let d = (48u8 + (m % 10) as u8) as char;
        assert(d == digit_char((m % 10) as nat));
        out.insert(0, d);
        assert(out@ =~= seq![d] + rest);
        if m < 10 {
            assert(decimal(m as nat) =~= seq![d]);
            break;
        }
        assert(decimal(m as nat) == decimal((m / 10) as nat).push(d));
        assert(decimal((m / 10) as nat) + out@ =~= decimal(m as nat) + rest);
        m = m / 10;
    }
    chars_to_string(&out)
}

/// Builds a `String` from its characters (std's `FromIterator<&char>` for
/// `String`); the contract claims the string holds exactly those characters.
#[verifier::external_body]
pub(crate) fn chars_to_string(chars: &[char]) -> (s: String)
    ensures
        s@ == chars@,
{
    chars.iter().collect()
}

/// The characters of a string, in order.
pub fn string_chars(s: &str) -> (v: Vec<char>)
    ensures
        v@ == s@,
{
    broadcast use vstd::string::group_string_axioms;

    let mut v: Vec<char> = Vec::new();
    for c in it: s.chars()
        invariant
            it.seq() == s@,
            v@ == it.seq().take(it.index() as int),
    {
        v.push(c);
    }
    v
}

/// The words of `cur + s` when `cur` is a word still being read: the
/// maximal runs of characters that are not white space, in order.
pub open spec fn words_after(cur: Seq<char>, s: Seq<char>) -> Seq<Seq<char>>
    decreases s.len(),
{
    if s.len() == 0 {
        if cur.len() == 0 {
            seq![]
        } else {
            seq![cur]
        }
    } else if is_white_space(s[0]) {
        if cur.len() == 0 {
            words_after(seq![], s.drop_first())
        } else {
            seq![cur] + words_after(seq![], s.drop_first())
        }
    } else {
        words_after(cur.push(s[0]), s.drop_first())
    }
}

/// The words of `s`, as `str::split_whitespace` yields them.
pub open spec fn words(s: Seq<char>) -> Seq<Seq<char>> {
    words_after(seq![], s)
}

/// The character sequences held by a list of character vectors.
pub open spec fn views(v: Seq<Vec<char>>) -> Seq<Seq<char>> {
    v.map_values(|w: Vec<char>| w@)
}

proof fn lemma_words_after_shape(cur: Seq<char>, s: Seq<char>)
    requires
        forall|j: int| 0 <= j < cur.len() ==> !is_white_space(#[trigger] cur[j]),
    ensures
        forall|i: int|
            0 <= i < words_after(cur, s).len() ==> (#[trigger] words_after(cur, s)[i]).len() > 0,
        forall|i: int, j: int|
            0 <= i < words_after(cur, s).len() && 0 <= j < words_after(cur, s)[i].len()
                ==> !is_white_space(#[trigger] words_after(cur, s)[i][j]),
    decreases s.len(),
{
    let w = words_after(cur, s);
    if s.len() == 0 {
        if cur.len() == 0 {
            assert(w.len() == 0);
        } else {
            assert(w =~= seq![cur]);
        }
    } else if is_white_space(s[0]) {
        let rest = words_after(seq![], s.drop_first());
        lemma_words_after_shape(seq![], s.drop_first());
        if cur.len() > 0 {
            assert(w == seq![cur] + rest);
            assert forall|i: int| 0 <= i < w.len() implies (#[trigger] w[i]).len() > 0 by {
                if i > 0 {
                    assert(w[i] == rest[i - 1]);
                }
            }
            assert forall|i: int, j: int| 0 <= i < w.len() && 0 <= j < w[i].len() implies !is_white_space(
                #[trigger] w[i][j],
            ) by {
                if i > 0 {
                    assert(w[i] == rest[i - 1]);
                }
            }
        } else {
            assert(cur =~= seq![]);
            assert(w == rest);
        }
    } else {
        let next = cur.push(s[0]);
        assert forall|j: int| 0 <= j < next.len() implies !is_white_space(#[trigger] next[j]) by {
            if j < cur.len() {
                assert(next[j] == cur[j]);
            }
        }
        lemma_words_after_shape(next, s.drop_first());
        assert(w == words_after(next, s.drop_first()));
    }
}

/// Every word is non-empty and holds no white space.
pub proof fn lemma_words_are_nonblank(s: Seq<char>)
    ensures
        forall|i: int| 0 <= i < words(s).len() ==> (#[trigger] words(s)[i]).len() > 0,
        forall|i: int, j: int|
            0 <= i < words(s).len() && 0 <= j < words(s)[i].len() ==> !is_white_space(
                #[trigger] words(s)[i][j],
            ),
{
    lemma_words_after_shape(seq![], s);
}

/// Splits text into its white-space separated words.
pub fn split_words(chars: &Vec<char>) -> (ws: Vec<Vec<char>>)
    ensures
        views(ws@) == words(chars@),
{
    let n = chars.len();
    let mut out: Vec<Vec<char>> = Vec::new();
    let mut cur: Vec<char> = Vec::new();
    let mut i: usize = 0;
    assert(chars@.skip(0) =~= chars@);
    while i < n
        invariant
            i <= n == chars@.len(),
            views(out@) + words_after(cur@, chars@.skip(i as int)) == words(chars@),
        decreases n - i,
    {
        let c = chars[i];
        let ghost rest = chars@.skip(i as int);
        assert(rest[0] == c);
        assert(rest.drop_first() =~= chars@.skip(i + 1));
        if is_whitespace_char(c) {
            if cur.len() > 0 {
                let ghost before = views(out@);
                let w = cur;
                out.push(w);
                cur = Vec::new();
                assert(views(out@) =~= before.push(w@));
                assert(views(out@) + words_after(cur@, chars@.skip(i + 1)) =~= before + (seq![
                    w@,
                ] + words_after(seq![], chars@.skip(i + 1))));
            } else {
                assert(cur@ =~= seq![]);
            }
        } else {
            cur.push(c);
        }
        i = i + 1;
    }
    if cur.len() > 0 {
        let ghost before = views(out@);
        let w = cur;
        out.push(w);
        assert(views(out@) =~= before.push(w@));
    } else {
        assert(views(out@) + words_after(cur@, chars@.skip(i as int)) =~= views(out@));
    }
    out
}

/// `s` without its leading white space.
pub open spec fn trim_start(s: Seq<char>) -> Seq<char>
    decreases s.len(),
{
    if s.len() > 0 && is_white_space(s[0]) {
        trim_start(s.drop_first())
    } else {
        s
    }
}

/// `s` without its trailing white space.
pub open spec fn trim_end(s: Seq<char>) -> Seq<char>
    decreases s.len(),
{
    if s.len() > 0 && is_white_space(s.last()) {
        trim_end(s.drop_last())
    } else {
        s
    }
}

/// `s` without leading and trailing white space, as `str::trim` gives it.
pub open spec fn trim(s: Seq<char>) -> Seq<char> {
    trim_end(trim_start(s))
}

proof fn lemma_trim_start_skip(s: Seq<char>, i: int)
    requires
        0 <= i <= s.len(),
        forall|j: int| 0 <= j < i ==> is_white_space(#[trigger] s[j]),
    ensures
        trim_start(s) == trim_start(s.skip(i)),
    decreases i,
{
    if i > 0 {
        assert(s.skip(1) =~= s.drop_first());
        lemma_trim_start_skip(s.drop_first(), i - 1);
        assert(s.drop_first().skip(i - 1) =~= s.skip(i));
    } else {
        assert(s.skip(0) =~= s);
    }
}

proof fn lemma_trim_end_take(s: Seq<char>, e: int)
    requires
        0 <= e <= s.len(),
        forall|j: int| e <= j < s.len() ==> is_white_space(#[trigger] s[j]),
    ensures
        trim_end(s) == trim_end(s.take(e)),
    decreases s.len() - e,
{
    if e < s.len() {
        assert(s.take(s.len() - 1) =~= s.drop_last());
        lemma_trim_end_take(s.drop_last(), e);
        assert(s.drop_last().take(e) =~= s.take(e));
    } else {
        assert(s.take(e) =~= s);
    }
}

/// Removes leading and trailing white space.
pub fn trim_chars(s: &Vec<char>) -> (t: Vec<char>)
    ensures
        t@ == trim(s@),
{
    let n = s.len();
    let mut a: usize = 0;
    while a < n && is_whitespace_char(s[a])
        invariant
            a <= n == s@.len(),
            forall|j: int| 0 <= j < a ==> is_white_space(#[trigger] s@[j]),
        decreases n - a,
    {
        a = a + 1;
    }
    proof {
        lemma_trim_start_skip(s@, a as int);
    }
    let mut b: usize = n;
    while b > a && is_whitespace_char(s[b - 1])
        invariant
            a <= b <= n == s@.len(),
            forall|j: int| b <= j < n ==> is_white_space(#[trigger] s@[j]),
        decreases b,
    {
        b = b - 1;
    }
    let mut t: Vec<char> = Vec::new();
    let mut k: usize = a;
    while k < b
        invariant
            a <= k <= b <= n == s@.len(),
            t@ == s@.subrange(a as int, k as int),
        decreases b - k,
    {
        t.push(s[k]);
        k = k + 1;
    }
    proof {
        let u = s@.skip(a as int);
        assert(a < n ==> !is_white_space(u[0]));
        assert(trim_start(u) == u);
        lemma_trim_end_take(u, (b - a) as int);
        assert(u.take((b - a) as int) =~= t@);
        assert(b > a ==> !is_white_space(t@.last()));
        assert(trim_end(t@) == t@);
    }
    t
}

/// The ASCII lower case of a character; other characters are unchanged.
pub open spec fn ascii_lower(c: char) -> char {
    if 'A' <= c <= 'Z' {
        ((c as u32) + 32) as char
    } else {
        c
    }
}

/// Equality up to ASCII case, as `str::eq_ignore_ascii_case` tests it.
pub open spec fn eq_ignore_ascii_case(a: Seq<char>, b: Seq<char>) -> bool {
    &&& a.len() == b.len()
    &&& forall|i: int| 0 <= i < a.len() ==> ascii_lower(#[trigger] a[i]) == ascii_lower(b[i])
}

fn to_ascii_lower(c: char) -> (r: char)
    ensures
        r == ascii_lower(c),
{
    if 'A' <= c && c <= 'Z' {
        ((c as u8) + 32) as char
    } else {
        c
    }
}

/// Compares two texts ignoring ASCII case.
pub fn equals_ignore_ascii_case(a: &[char], b: &[char]) -> (r: bool)
    ensures
        r == eq_ignore_ascii_case(a@, b@),
{
    if a.len() != b.len() {
        return false;
    }
    let mut i: usize = 0;
    while i < a.len()
        invariant
            i <= a@.len() == b@.len(),
            forall|j: int| 0 <= j < i ==> ascii_lower(#[trigger] a@[j]) == ascii_lower(b@[j]),
        decreases a@.len() - i,
    {
        if to_ascii_lower(a[i]) != to_ascii_lower(b[i]) {
            return false;
        }
        i = i + 1;
    }
    true
}

/// Number of bytes of the UTF-8 encoding of a character.
pub open spec fn utf8_width(c: char) -> nat {
    let u = c as u32;
    if u <= 0x7F {
        1
    } else if u <= 0x7FF {
        2
    } else if u <= 0xFFFF {
        3
    } else {
        4
    }
}

/// Number of bytes of the UTF-8 encoding of a text (what `str::len` gives).
pub open spec fn byte_len(s: Seq<char>) -> nat
    decreases s.len(),
{
    if s.len() == 0 {
        0
    } else {
        utf8_width(s[0]) + byte_len(s.drop_first())
    }
}

/// `byte_len` is the length of vstd's UTF-8 encoding of the text, which is
/// what `str::len` returns.
pub proof fn lemma_byte_len_is_utf8_len(s: Seq<char>)
    ensures
        byte_len(s) == encode_utf8(s).len(),
    decreases s.len(),
{
    if s.len() > 0 {
        char_is_scalar(s[0]);
        lemma_byte_len_is_utf8_len(s.drop_first());
    }
}

/// The longest start of `s` whose encoding takes at most `m` bytes.
pub open spec fn bytes_prefix(s: Seq<char>, m: int) -> Seq<char>
    decreases s.len(),
{
    if s.len() == 0 || utf8_width(s[0]) > m {
        seq![]
    } else {
        seq![s[0]] + bytes_prefix(s.drop_first(), m - utf8_width(s[0]))
    }
}

/// The preview of a text: the text itself when it takes at most `max_bytes`
/// bytes, else its first `max_bytes` bytes followed by `...`.
pub open spec fn preview_text(s: Seq<char>, max_bytes: nat) -> Seq<char> {
    if byte_len(s) > max_bytes {
        bytes_prefix(s, max_bytes as int) + "..."@
    } else {
        s
    }
}

proof fn lemma_byte_len_split(s: Seq<char>, k: int)
    requires
        0 <= k <= s.len(),
    ensures
        byte_len(s) == byte_len(s.take(k)) + byte_len(s.skip(k)),
    decreases k,
{
    if k == 0 {
        assert(s.take(0) =~= Seq::<char>::empty());
        assert(s.skip(0) =~= s);
    } else {
        let d = s.drop_first();
        lemma_byte_len_split(d, k - 1);
        assert(s.take(k).drop_first() =~= d.take(k - 1));
        assert(s.take(k)[0] == s[0]);
        assert(s.skip(k) =~= d.skip(k - 1));
    }
}

proof fn lemma_bytes_prefix_is_longest(s: Seq<char>, m: int) -> (l: nat)
    requires
        m >= 0,
    ensures
        l <= s.len(),
        bytes_prefix(s, m) == s.take(l as int),
        byte_len(s.take(l as int)) <= m,
        l < s.len() ==> byte_len(s.take(l + 1 as int)) > m,
    decreases s.len(),
{
    if s.len() == 0 || utf8_width(s[0]) > m {
        assert(s.take(0) =~= Seq::<char>::empty());
        if s.len() > 0 {
            assert(s.take(1).drop_first() =~= Seq::<char>::empty());
            assert(s.take(1)[0] == s[0]);
        }
        0
    } else {
        let w = utf8_width(s[0]);
        let d = s.drop_first();
        let l1 = lemma_bytes_prefix_is_longest(d, m - w);
        assert(seq![s[0]] + d.take(l1 as int) =~= s.take(l1 + 1 as int));
        assert(s.take(l1 + 1 as int).drop_first() =~= d.take(l1 as int));
        assert(s.take(l1 + 1 as int)[0] == s[0]);
        if l1 + 1 < s.len() {
            assert(s.take(l1 + 2 as int).drop_first() =~= d.take(l1 + 1 as int));
            assert(s.take(l1 + 2 as int)[0] == s[0]);
        }
        l1 + 1
    }
}

/// The preview of a text is cut exactly when its UTF-8 encoding takes more
/// than `max_bytes` bytes. Uncut, it is the text itself; cut, it is the
/// longest start of the text whose encoding fits in `max_bytes` bytes,
/// followed by `...`.
pub proof fn lemma_preview_cut(s: Seq<char>, max_bytes: nat)
    ensures
        encode_utf8(s).len() <= max_bytes ==> preview_text(s, max_bytes) == s,
        encode_utf8(s).len() > max_bytes ==> exists|t: int|
            0 <= t < s.len() && preview_text(s, max_bytes) == #[trigger] s.take(t) + "..."@
                && encode_utf8(s.take(t)).len() <= max_bytes && encode_utf8(s.take(t + 1)).len()
                > max_bytes,
{
    lemma_byte_len_is_utf8_len(s);
    let l = lemma_bytes_prefix_is_longest(s, max_bytes as int);
    if encode_utf8(s).len() > max_bytes {
        if l == s.len() {
            assert(s.take(l as int) =~= s);
        }
        lemma_byte_len_is_utf8_len(s.take(l as int));
        lemma_byte_len_is_utf8_len(s.take(l + 1 as int));
        assert(preview_text(s, max_bytes) == s.take(l as int) + "..."@);
    }
}

fn char_width(c: char) -> (w: usize)
    ensures
        w == utf8_width(c),
{
    let u = c as u32;
    if u <= 0x7F {
        1
    } else if u <= 0x7FF {
        2
    } else if u <= 0xFFFF {
        3
    } else {
        4
    }
}

/// The preview of a text, as characters.
pub fn preview_chars(s: &Vec<char>, max_bytes: usize) -> (p: Vec<char>)
    ensures
        p@ == preview_text(s@, max_bytes as nat),
{
    let n = s.len();
    let mut i: usize = 0;
    let mut acc: usize = 0;
    let mut prefix: Vec<char> = Vec::new();
    assert(s@.skip(0) =~= s@);
    while i < n && char_width(s[i]) <= max_bytes - acc
        invariant
            i <= n == s@.len(),
            acc <= max_bytes,
            prefix@ == s@.take(i as int),
            bytes_prefix(s@, max_bytes as int) == prefix@ + bytes_prefix(
                s@.skip(i as int),
                max_bytes - acc,
            ),
            byte_len(s@) == acc + byte_len(s@.skip(i as int)),
        decreases n - i,
    {
        let c = s[i];
        let w = char_width(c);
        proof {
            let rest = s@.skip(i as int);
            assert(rest[0] == c);
            assert(rest.drop_first() =~= s@.skip(i + 1));
            assert(prefix@.push(c) + bytes_prefix(s@.skip(i + 1), max_bytes - acc - w) =~= prefix@
                + (seq![c] + bytes_prefix(s@.skip(i + 1), max_bytes - acc - w)));
        }
        prefix.push(c);
        acc = acc + w;
        i = i + 1;
    }
    if i < n {
        proof {
            let rest = s@.skip(i as int);
            assert(rest[0] == s@[i as int]);
            assert(prefix@ + bytes_prefix(rest, max_bytes - acc) =~= prefix@);
        }
        let dots = string_chars("...");
        let mut out = prefix;
        let mut k: usize = 0;
        let ghost base = out@;
        while k < dots.len()
            invariant
                k <= dots@.len(),
                dots@ == "..."@,
                out@ == base + dots@.take(k as int),
            decreases dots@.len() - k,
        {
            out.push(dots[k]);
            k = k + 1;
        }
        proof {
            assert(dots@.take(dots@.len() as int) =~= dots@);
        }
        out
    } else {
        proof {
            assert(s@.skip(i as int) =~= Seq::<char>::empty());
            assert(prefix@ =~= s@);
        }
        prefix
    }
}

/// Drops one `\r` that ends a line.
pub open spec fn strip_cr(l: Seq<char>) -> Seq<char> {
    if l.len() > 0 && l.last() == '\r' {
        l.drop_last()
    } else {
        l
    }
}

/// The lines of `cur + s` when `cur` is a line still being read: split at
/// `\n`, a `\r` before the `\n` dropped, and no empty line after a final
/// `\n`.
pub open spec fn lines_after(cur: Seq<char>, s: Seq<char>) -> Seq<Seq<char>>
    decreases s.len(),
{
    if s.len() == 0 {
        if cur.len() == 0 {
            seq![]
        } else {
            seq![cur]
        }
    } else if s[0] == '\n' {
        seq![strip_cr(cur)] + lines_after(seq![], s.drop_first())
    } else {
        lines_after(cur.push(s[0]), s.drop_first())
    }
}

/// The lines of a text, as `str::lines` yields them.
pub open spec fn lines(s: Seq<char>) -> Seq<Seq<char>> {
    lines_after(seq![], s)
}

/// Splits a text into its lines.
pub fn split_lines(chars: &Vec<char>) -> (ls: Vec<Vec<char>>)
    ensures
        views(ls@) == lines(chars@),
{
    let n = chars.len();
    let mut out: Vec<Vec<char>> = Vec::new();
    let mut cur: Vec<char> = Vec::new();
    let mut i: usize = 0;
    assert(chars@.skip(0) =~= chars@);
    while i < n
        invariant
            i <= n == chars@.len(),
            views(out@) + lines_after(cur@, chars@.skip(i as int)) == lines(chars@),
        decreases n - i,
    {
        let c = chars[i];
        let ghost rest = chars@.skip(i as int);
        assert(rest[0] == c);
        assert(rest.drop_first() =~= chars@.skip(i + 1));
        if c == '\n' {
            let ghost before = views(out@);
            let mut line = cur;
            let len = line.len();
            if len > 0 && line[len - 1] == '\r' {
                line.pop();
                assert(line@ =~= strip_cr(cur@));
            }
            let ghost stripped = line@;
            assert(stripped == strip_cr(cur@));
            out.push(line);
            cur = Vec::new();
            assert(views(out@) =~= before.push(stripped));
            assert(views(out@) + lines_after(cur@, chars@.skip(i + 1)) =~= before + (seq![
                stripped,
            ] + lines_after(seq![], chars@.skip(i + 1))));
        } else {
            cur.push(c);
        }
        i = i + 1;
    }
    if cur.len() > 0 {
        let ghost before = views(out@);
        let w = cur;
        out.push(w);
        assert(views(out@) =~= before.push(w@));
    } else {
        assert(views(out@) + lines_after(cur@, chars@.skip(i as int)) =~= views(out@));
    }
    out
}

/// The lines shown as the preview of a text: the first `max_lines` lines of
/// its preview.
pub open spec fn preview_lines_of(s: Seq<char>, max_bytes: nat, max_lines: nat) -> Seq<Seq<char>> {
    let ls = lines(preview_text(s, max_bytes));
    if ls.len() <= max_lines {
        ls
    } else {
        ls.take(max_lines as int)
    }
}

/// The lines shown as the preview of a text: at most `max_lines` lines of
/// the text cut after its first `max_bytes` bytes (with `...` added when it
/// was cut). A cut that would fall inside a character falls before it.
pub fn preview_lines(content: &str, max_bytes: usize, max_lines: usize) -> (r: Vec<String>)
    ensures
        r@.len() == preview_lines_of(content@, max_bytes as nat, max_lines as nat).len(),
        forall|i: int|
            0 <= i < r@.len() ==> #[trigger] r@[i]@ == preview_lines_of(
                content@,
                max_bytes as nat,
                max_lines as nat,
            )[i],
{
    let chars = string_chars(content);
    let preview = preview_chars(&chars, max_bytes);
    let ls = split_lines(&preview);
    let ghost all = views(ls@);
    let ghost want = preview_lines_of(content@, max_bytes as nat, max_lines as nat);
    let mut out: Vec<String> = Vec::new();
    let mut i: usize = 0;
    while i < ls.len() && i < max_lines
        invariant
            i <= ls@.len(),
            i <= max_lines,
            all == views(ls@),
            all == lines(preview_text(content@, max_bytes as nat)),
            want == preview_lines_of(content@, max_bytes as nat, max_lines as nat),
            out@.len() == i,
            forall|j: int| 0 <= j < i ==> #[trigger] out@[j]@ == all[j],
        decreases ls@.len() - i,
    {
        let line = chars_to_string(ls[i].as_slice());
        assert(all[i as int] == ls@[i as int]@);
        out.push(line);
        i = i + 1;
    }
    proof {
        assert(all.len() == ls@.len());
        if all.len() <= max_lines {
            assert(want == all);
            assert(i == all.len());
        } else {
            assert(want == all.take(max_lines as int));
            assert(i == max_lines);
        }
        assert(out@.len() == want.len());
        assert forall|j: int| 0 <= j < out@.len() implies #[trigger] out@[j]@ == want[j] by {
            assert(out@[j]@ == all[j]);
        }
    }
    out
}

} // verus!
