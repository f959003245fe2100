//! Text as a sequence of characters, and the few operations on it everything else shares.

use vstd::prelude::*;

verus! {

/// The characters of `s`, in order.
pub fn chars_of(s: &str) -> (out: Vec<char>)
    ensures
        out@ == s@,
{
    let mut out: Vec<char> = Vec::new();
    for c in it: s.chars()
        invariant
            out@ == it.seq().take(it.index() as int),
            it.seq() == s@,
    {
        out.push(c);
    }
    out
}

/// Appends `c` to `s`.
#[verifier::external_body]
pub(crate) fn push_char(s: &mut String, c: char)
    ensures
        final(s)@ == old(s)@.push(c),
{
    s.push(c);
}

/// The string whose characters are `v`.
pub fn string_of(v: &[char]) -> (out: String)
    ensures
        out@ == v@,
{
    let out = string_of_prefix(v, v.len());
    assert(v@.take(v.len() as int) =~= v@);
    out
}

/// The string whose characters are the first `n` of `v`.
pub fn string_of_prefix(v: &[char], n: usize) -> (out: String)
    requires
        n <= v@.len(),
    ensures
        out@ == v@.take(n as int),
{
    let mut out = String::new();
    let mut i: usize = 0;
    while i < n
        invariant
            i <= n <= v@.len(),
            out@ == v@.take(i as int),
        decreases n - i,
    {
        push_char(&mut out, v[i]);
        assert(v@.take(i as int).push(v@[i as int]) =~= v@.take(i + 1));
        i = i + 1;
    }
    out
}

/// What `String::from_utf8_lossy` makes of `bytes`: valid sequences decoded, anything else
/// replaced by U+FFFD.
pub uninterp spec fn utf8_lossy(bytes: Seq<u8>) -> Seq<char>;

/// The text `bytes` read as: exactly what they decode to when they are valid UTF-8, and what
/// `String::from_utf8_lossy` makes of them when they are not.
pub open spec fn text_of(bytes: Seq<u8>) -> Seq<char> {
    if vstd::utf8::valid_utf8(bytes) {
        vstd::utf8::decode_utf8(bytes)
    } else {
        utf8_lossy(bytes)
    }
}

/// `bytes` read as UTF-8, with what does not decode replaced.
///
/// Calls `String::from_utf8_lossy`. Trusted to give the text [`utf8_lossy`] names, and, as its
/// documentation says, exactly the decoded text when the bytes are valid UTF-8, and a text with
/// U+FFFD in it, for the invalid sequences it replaced, when they are not. Which sequences are
/// replaced one for one is left unsaid.
#[verifier::external_body]
pub(crate) fn lossy(bytes: &[u8]) -> (s: String)
    ensures
        s@ == utf8_lossy(bytes@),
        vstd::utf8::valid_utf8(bytes@) ==> s@ == vstd::utf8::decode_utf8(bytes@),
        !vstd::utf8::valid_utf8(bytes@) ==> s@.contains('\u{FFFD}'),
{
    String::from_utf8_lossy(bytes).into_owned()
}

/// The pieces `text` falls into when cut at every `separator`, as `str::split` cuts it.
///
/// There is always at least one piece; a separator at either end leaves an empty one there.
pub open spec fn split_on(text: Seq<char>, separator: char) -> Seq<Seq<char>>
    decreases text.len(),
{
    if text.len() == 0 {
        seq![Seq::<char>::empty()]
    } else {
        let init = split_on(text.drop_last(), separator);
        if text.last() == separator {
            init.push(Seq::<char>::empty())
        } else {
            init.update(init.len() - 1, init.last().push(text.last()))
        }
    }
}

/// `split_on` always has a piece to extend.
pub proof fn lemma_split_nonempty(text: Seq<char>, separator: char)
    ensures
        split_on(text, separator).len() >= 1,
    decreases text.len(),
{
    if text.len() > 0 {
        lemma_split_nonempty(text.drop_last(), separator);
    }
}


/// The digit character for `d`, which is below ten.
pub open spec fn digit_char(d: int) -> char {
    ((d + 48) as u8) as char
}

/// `n` written in decimal, with no sign and no leading zeros.
pub open spec fn decimal(n: nat) -> Seq<char>
    decreases n,
{
    if n < 10 {
        seq![digit_char(n as int)]
    } else {
        decimal(n / 10).push(digit_char((n % 10) as int))
    }
}

/// Appends `n`, written in decimal, to `out`.
pub fn push_decimal(out: &mut String, n: u64)
    ensures
        final(out)@ == old(out)@ + decimal(n as nat),
    decreases n,
{
    if n >= 10 {
        push_decimal(out, n / 10);
    }
    let d = (n % 10) as u8;
    push_char(out, (d + 48) as char);
    proof {
        assert(decimal(n as nat) == if n < 10 { seq![digit_char(n as int)] } else { decimal((n / 10) as nat).push(digit_char((n % 10) as int)) });
    }
    assert(final(out)@ =~= old(out)@ + decimal(n as nat));
}

/// Appends the characters of `s` to `out`.
pub fn push_str(out: &mut String, s: &str)
    ensures
        final(out)@ == old(out)@ + s@,
{
    out.append(s);
}

/// The lines of `text` as `str::lines` gives them: cut after each newline, with the newline and
/// a carriage return just before it taken off, and no empty line after a newline that ends the
/// text. A carriage return at the very end of text with no newline after it stays.
pub open spec fn str_lines(text: Seq<char>) -> Seq<Seq<char>> {
    let pieces = split_on(text, '\n');
    let whole = if text.len() == 0 || text.last() == '\n' { pieces.drop_last() } else { pieces };
    Seq::new(
        whole.len(),
        |i: int|
            if i < pieces.len() - 1 && whole[i].len() > 0 && whole[i].last() == '\r' {
                whole[i].drop_last()
            } else {
                whole[i]
            },
    )
}

/// The lines of `text`, as `str::lines` cuts them.
pub fn str_lines_of(text: &str) -> (out: Vec<Vec<char>>)
    ensures
        out@.map_values(|line: Vec<char>| line@) == str_lines(text@),
{
    let t = chars_of(text);
    let mut done: Vec<Vec<char>> = Vec::new();
    let mut current: Vec<char> = Vec::new();
    let mut i: usize = 0;
    assert(t@.take(0) =~= Seq::<char>::empty());
    while i < t.len()
        invariant
            i <= t@.len(),
            split_on(t@.take(i as int), '\n').len() == done@.len() + 1,
            forall|j: int|
                #![trigger done@[j]]
                0 <= j < done@.len() ==> done@[j]@ == {
                    let piece = split_on(t@.take(i as int), '\n')[j];
                    if piece.len() > 0 && piece.last() == '\r' { piece.drop_last() } else { piece }
                },
            current@ == split_on(t@.take(i as int), '\n').last(),
        decreases t.len() - i,
    {
        assert(t@.take(i + 1).drop_last() =~= t@.take(i as int));
        if t[i] == '\n' {
            let n = current.len();
            if n > 0 && current[n - 1] == '\r' {
                current.pop();
            }
            done.push(current);
            current = Vec::new();
            assert(current@ =~= Seq::<char>::empty());
        } else {
            current.push(t[i]);
        }
        i = i + 1;
    }
    assert(t@.take(t@.len() as int) =~= t@);
    if t.len() > 0 && t[t.len() - 1] != '\n' {
        done.push(current);
    }
    assert(done@.map_values(|line: Vec<char>| line@) =~= str_lines(text@));
    done
}

/// Whether `c` is white space, as `char::is_whitespace` says: the characters with the Unicode
/// `White_Space` property.
pub open spec fn is_space(c: char) -> bool {
    let n = c as u32;
    (0x09 <= n && n <= 0x0d) || n == 0x20 || n == 0x85 || n == 0xa0 || n == 0x1680 || (0x2000 <= n
        && n <= 0x200a) || n == 0x2028 || n == 0x2029 || n == 0x202f || n == 0x205f || n == 0x3000
}

/// Whether `c` is white space.
pub fn space(c: char) -> (out: bool)
    ensures
        out == is_space(c),
{
    let n = c as u32;
    (0x09 <= n && n <= 0x0d) || n == 0x20 || n == 0x85 || n == 0xa0 || n == 0x1680 || (0x2000 <= n
        && n <= 0x200a) || n == 0x2028 || n == 0x2029 || n == 0x202f || n == 0x205f || n == 0x3000
}

/// The words of `text` as `str::split_whitespace` gives them: the runs of characters that are not
/// white space.
pub open spec fn words(text: Seq<char>) -> Seq<Seq<char>>
    decreases text.len(),
{
    if text.len() == 0 {
        seq![]
    } else {
        let init = words(text.drop_last());
        let c = text.last();
        if is_space(c) {
            init
        } else if text.len() >= 2 && !is_space(text[text.len() - 2]) {
            init.update(init.len() - 1, init.last().push(c))
        } else {
            init.push(seq![c])
        }
    }
}

/// A text that ends in a word has at least one.
pub proof fn lemma_words_nonempty(text: Seq<char>)
    requires
        text.len() > 0,
        !is_space(text.last()),
    ensures
        words(text).len() > 0,
    decreases text.len(),
{
    if text.len() >= 2 && !is_space(text[text.len() - 2]) {
        assert(text.drop_last().last() == text[text.len() - 2]);
        lemma_words_nonempty(text.drop_last());
    }
}

/// The words of `cs`.
pub fn words_of(cs: &[char]) -> (out: Vec<Vec<char>>)
    ensures
        out@.map_values(|w: Vec<char>| w@) == words(cs@),
{
    let mut out: Vec<Vec<char>> = Vec::new();
    let mut i: usize = 0;
    assert(cs@.take(0) =~= Seq::<char>::empty());
    assert(out@.map_values(|w: Vec<char>| w@) =~= Seq::<Seq<char>>::empty());
    while i < cs.len()
        invariant
            i <= cs@.len(),
            out@.map_values(|w: Vec<char>| w@) == words(cs@.take(i as int)),
        decreases cs.len() - i,
    {
        let ghost before = out@.map_values(|w: Vec<char>| w@);
        let ghost t = cs@.take(i + 1);
        assert(t.drop_last() =~= cs@.take(i as int));
        let c = cs[i];
        if space(c) {
        } else if i >= 1 && !space(cs[i - 1]) {
            assert(t[t.len() - 2] == cs@[i - 1]);
            proof {
                lemma_words_nonempty(cs@.take(i as int));
            }
            let k = out.len() - 1;
            let mut last = out.pop().unwrap();
            last.push(c);
            out.push(last);
            assert(out@.map_values(|w: Vec<char>| w@) =~= before.update(k as int, before.last().push(c)));
        } else {
            let mut word: Vec<char> = Vec::new();
            word.push(c);
            out.push(word);
            assert(out@.map_values(|w: Vec<char>| w@) =~= before.push(seq![c]));
        }
        i = i + 1;
    }
    assert(cs@.take(cs@.len() as int) =~= cs@);
    out
}

/// Whether text `a` sorts before text `b`: character by character, a text before the longer
/// texts it begins.
pub open spec fn text_before(a: Seq<char>, b: Seq<char>) -> bool
    decreases a.len(),
{
    if a.len() == 0 {
        b.len() > 0
    } else if b.len() == 0 {
        false
    } else if a[0] != b[0] {
        (a[0] as u32) < (b[0] as u32)
    } else {
        text_before(a.skip(1), b.skip(1))
    }
}

/// `text_before` is an order: never both ways, passed along, and any two different texts are
/// in it one way or the other.
pub proof fn lemma_text_order(a: Seq<char>, b: Seq<char>, c: Seq<char>)
    ensures
        !(text_before(a, b) && text_before(b, a)),
        !text_before(a, a),
        text_before(a, b) && text_before(b, c) ==> text_before(a, c),
        a != b ==> text_before(a, b) || text_before(b, a),
    decreases a.len(),
{
    if a.len() > 0 && b.len() > 0 && c.len() > 0 {
        lemma_text_order(a.skip(1), b.skip(1), c.skip(1));
    }
    if a.len() > 0 && b.len() > 0 {
        lemma_text_order(a.skip(1), b.skip(1), b.skip(1));
        if a[0] != b[0] {
            vstd::utf8::char_u32_cast(a[0], a[0] as u32);
            vstd::utf8::char_u32_cast(b[0], b[0] as u32);
        }
        if a != b && a[0] == b[0] && a.skip(1) == b.skip(1) {
            assert(a =~= b) by {
                assert forall|i: int| 0 <= i < a.len() implies a[i] == b[i] by {
                    if i > 0 {
                        assert(a[i] == a.skip(1)[i - 1]);
                        assert(b[i] == b.skip(1)[i - 1]);
                    }
                }
            }
        }
    }
    if a.len() > 0 {
        lemma_text_order(a.skip(1), a.skip(1), a.skip(1));
    }
    if a.len() > 0 && c.len() > 0 && b.len() > 0 && a[0] != b[0] && b[0] != c[0] {
        vstd::utf8::char_u32_cast(c[0], c[0] as u32);
    }
    if a.len() == 0 && b.len() == 0 {
        assert(a =~= b);
    }
}

/// Whether `a` sorts before `b`.
pub fn text_less(a: &str, b: &str) -> (out: bool)
    ensures
        out == text_before(a@, b@),
{
    let x = chars_of(a);
    let y = chars_of(b);
    let mut i: usize = 0;
    assert(x@.skip(0) =~= x@);
    assert(y@.skip(0) =~= y@);
    while i < x.len() && i < y.len() && x[i] == y[i]
        invariant
            i <= x@.len(),
            i <= y@.len(),
            x@ == a@,
            y@ == b@,
            text_before(a@, b@) == text_before(x@.skip(i as int), y@.skip(i as int)),
        decreases x.len() - i,
    {
        let ghost xs = x@.skip(i as int);
        let ghost ys = y@.skip(i as int);
        assert(xs.skip(1) =~= x@.skip(i + 1));
        assert(ys.skip(1) =~= y@.skip(i + 1));
        assert(xs[0] == x@[i as int] && ys[0] == y@[i as int]);
        i = i + 1;
    }
    let ghost xs = x@.skip(i as int);
    let ghost ys = y@.skip(i as int);
    if i == x.len() {
        return i < y.len();
    }
    if i == y.len() {
        return false;
    }
    assert(xs[0] == x@[i as int] && ys[0] == y@[i as int]);
    (x[i] as u32) < (y[i] as u32)
}

/// Whether `s` is in order, equal texts side by side.
pub open spec fn in_text_order(s: Seq<Seq<char>>) -> bool {
    forall|i: int, j: int| 0 <= i < j < s.len() ==> !text_before(#[trigger] s[j], #[trigger] s[i])
}

/// The texts of `items`, as views.
pub open spec fn views_of(items: Seq<String>) -> Seq<Seq<char>> {
    items.map_values(|s: String| s@)
}

/// `items` in order, each kept: what `sort` makes of a list of strings.
pub fn sort_texts(items: Vec<String>) -> (out: Vec<String>)
    ensures
        in_text_order(views_of(out@)),
        views_of(out@).to_multiset() == views_of(items@).to_multiset(),
{
    let mut out: Vec<String> = Vec::new();
    let mut rest = items;
    let ghost whole = rest@;
    let n = rest.len();
    let mut k: usize = 0;
    assert(rest@ =~= whole.skip(0));
    assert(views_of(whole.take(0)).to_multiset() =~= views_of(out@).to_multiset()) by {
        assert(views_of(whole.take(0)) =~= Seq::<Seq<char>>::empty());
        assert(views_of(out@) =~= Seq::<Seq<char>>::empty());
    }
    while k < n
        invariant
            k <= n,
            n == whole.len(),
            rest@ == whole.skip(k as int),
            in_text_order(views_of(out@)),
            views_of(out@).to_multiset() == views_of(whole.take(k as int)).to_multiset(),
        decreases n - k,
    {
        assert(rest@[0] == whole[k as int]);
        let x = rest.remove(0);
        assert(rest@ =~= whole.skip(k + 1));
        let ghost before = out@;
        let ghost bv = views_of(before);
        let mut p: usize = 0;
        while p < out.len() && !text_less(x.as_str(), out[p].as_str())
            invariant
                p <= out@.len(),
                out@ == before,
                bv == views_of(before),
                forall|i: int| 0 <= i < p ==> !text_before(x@, #[trigger] bv[i]),
            decreases out.len() - p,
        {
            assert(bv[p as int] == out@[p as int]@);
            p = p + 1;
        }
        proof {
            if p < out@.len() {
                assert(bv[p as int] == out@[p as int]@);
                assert(text_before(x@, bv[p as int]));
            }
        }
        out.insert(p, x);
        proof {
            let now = views_of(out@);
            assert(now =~= bv.insert(p as int, x@));
            assert forall|i: int, j: int| 0 <= i < j < now.len() implies !text_before(#[trigger] now[j], #[trigger] now[i]) by {
                if j < p {
                    assert(now[i] == bv[i] && now[j] == bv[j]);
                } else if j == p {
                    assert(now[i] == bv[i]);
                } else if i < p {
                    assert(now[i] == bv[i] && now[j] == bv[j - 1]);
                    lemma_text_order(bv[j - 1], bv[i], x@);
                    if text_before(bv[j - 1], bv[i]) {
                    }
                    lemma_text_order(bv[j - 1], x@, bv[p as int]);
                    if j - 1 > p {
                        lemma_text_order(bv[j - 1], bv[p as int], x@);
                    }
                } else if i == p {
                    assert(now[j] == bv[j - 1]);
                    lemma_text_order(bv[j - 1], x@, bv[p as int]);
                    if j - 1 > p {
                        lemma_text_order(bv[j - 1], bv[p as int], x@);
                        lemma_text_order(bv[j - 1], x@, bv[p as int]);
                    }
                } else {
                    assert(now[i] == bv[i - 1] && now[j] == bv[j - 1]);
                }
            }
            vstd::seq_lib::to_multiset_insert(bv, p as int, x@);
            assert(views_of(whole.take(k + 1)) =~= views_of(whole.take(k as int)).push(x@));
            vstd::seq_lib::to_multiset_build(views_of(whole.take(k as int)), x@);
        }
        k = k + 1;
    }
    assert(whole.take(n as int) =~= whole);
    out
}

/// `text` without `suffix`, when it ends with it.
pub open spec fn without_suffix(text: Seq<char>, suffix: Seq<char>) -> Option<Seq<char>> {
    if suffix.len() <= text.len() && text.skip(text.len() - suffix.len()) == suffix {
        Some(text.take(text.len() - suffix.len()))
    } else {
        None
    }
}

/// `text` without `suffix`, when it ends with it.
pub fn strip_suffix(text: &str, suffix: &str) -> (out: Option<String>)
    ensures
        match out {
            Some(rest) => without_suffix(text@, suffix@) == Some(rest@),
            None => without_suffix(text@, suffix@) is None,
        },
{
    let t = chars_of(text);
    let f = chars_of(suffix);
    if f.len() > t.len() {
        return None;
    }
    let start = t.len() - f.len();
    let mut i: usize = 0;
    while i < f.len()
        invariant
            i <= f@.len(),
            start + f@.len() == t@.len(),
            t@.len() == t.len(),
            t@ == text@,
            f@ == suffix@,
            forall|j: int| 0 <= j < i ==> t@[start + j] == f@[j],
        decreases f.len() - i,
    {
        if t[start + i] != f[i] {
            assert(t@.skip(start as int)[i as int] != f@[i as int]);
            return None;
        }
        i = i + 1;
    }
    assert(t@.skip(start as int) =~= f@);
    Some(string_of_prefix(t.as_slice(), start))
}

/// Whether `text` begins with `prefix`.
pub open spec fn begins_with(text: Seq<char>, prefix: Seq<char>) -> bool {
    prefix.len() <= text.len() && text.take(prefix.len() as int) == prefix
}

/// `text` without `prefix`, when it begins with it.
pub fn strip_prefix(text: &str, prefix: &str) -> (out: Option<String>)
    ensures
        match out {
            Some(rest) => begins_with(text@, prefix@) && rest@ == text@.skip(prefix@.len() as int),
            None => !begins_with(text@, prefix@),
        },
{
    let t = chars_of(text);
    let f = chars_of(prefix);
    if f.len() > t.len() {
        return None;
    }
    let mut i: usize = 0;
    while i < f.len()
        invariant
            i <= f@.len() <= t@.len(),
            t@ == text@,
            f@ == prefix@,
            forall|j: int| 0 <= j < i ==> t@[j] == f@[j],
        decreases f.len() - i,
    {
        if t[i] != f[i] {
            assert(t@.take(f@.len() as int)[i as int] != f@[i as int]);
            return None;
        }
        i = i + 1;
    }
    assert(t@.take(f@.len() as int) =~= f@);
    let mut rest: Vec<char> = Vec::new();
    let mut k = f.len();
    while k < t.len()
        invariant
            f@.len() <= k <= t@.len(),
            rest@ == t@.subrange(f@.len() as int, k as int),
        decreases t.len() - k,
    {
        rest.push(t[k]);
        assert(rest@ =~= t@.subrange(f@.len() as int, k + 1));
        k = k + 1;
    }
    assert(rest@ =~= t@.skip(f@.len() as int));
    Some(string_of(rest.as_slice()))
}

/// Whether `a` and `b` are the same text.
pub fn same_text(a: &str, b: &str) -> (out: bool)
    ensures
        out == (a@ == b@),
{
    let x = chars_of(a);
    let y = chars_of(b);
    if x.len() != y.len() {
        return false;
    }
    let mut i: usize = 0;
    while i < x.len()
        invariant
            i <= x@.len(),
            x@.len() == y@.len(),
            x@ == a@,
            y@ == b@,
            forall|j: int| 0 <= j < i ==> x@[j] == y@[j],
        decreases x.len() - i,
    {
        if x[i] != y[i] {
            return false;
        }
        i = i + 1;
    }
    assert(x@ =~= y@);
    true
}

/// A `String` holding `s`.
pub fn owned(s: &str) -> (out: String)
    ensures
        out@ == s@,
{
    let cs = chars_of(s);
    string_of(cs.as_slice())
}

} // verus!
