//! Text as the handlers see it: characters, lines and whitespace.
//!
//! Documents arrive as strings and are worked on as sequences of `char`. The
//! spec functions here say what `str::lines`, `str::trim_start`,
//! `str::trim_end` and `str::trim` give back, and the executable functions
//! compute the same on `Vec<char>`.
use vstd::prelude::*;

verus! {

broadcast use vstd::string::group_string_axioms;

/// A character with the Unicode `White_Space` property, which is what
/// `char::is_whitespace` and the `trim` family strip.
pub open spec fn is_space(c: char) -> bool {
    ||| c == '\t'
    ||| c == '\n'
    ||| c == '\u{0B}'
    ||| c == '\u{0C}'
    ||| c == '\r'
    ||| c == ' '
    ||| c == '\u{85}'
    ||| c == '\u{A0}'
    ||| c == '\u{1680}'
    ||| ('\u{2000}' <= c && c <= '\u{200A}')
    ||| c == '\u{2028}'
    ||| c == '\u{2029}'
    ||| c == '\u{202F}'
    ||| c == '\u{205F}'
    ||| c == '\u{3000}'
}

/// `s` without its leading whitespace.
pub open spec fn trim_start(s: Seq<char>) -> Seq<char>
    decreases s.len(),
{
    if s.len() > 0 && is_space(s[0]) {
        trim_start(s.drop_first())
    } else {
        s
    }
}

/// `s` without its trailing whitespace.
pub open spec fn trim_end(s: Seq<char>) -> Seq<char>
    decreases s.len(),
{
    if s.len() > 0 && is_space(s.last()) {
        trim_end(s.drop_last())
    } else {
        s
    }
}

/// `s` without whitespace at either end.
pub open spec fn trim(s: Seq<char>) -> Seq<char> {
    trim_end(trim_start(s))
}

/// The index of the first line feed in `s`, or its length when there is none.
pub open spec fn nl_index(s: Seq<char>) -> nat
    decreases s.len(),
{
    if s.len() == 0 || s[0] == '\n' {
        0
    } else {
        1 + nl_index(s.drop_first())
    }
}

/// A line that ended in `\r\n` loses the carriage return.
pub open spec fn strip_cr(s: Seq<char>) -> Seq<char> {
    if s.len() > 0 && s.last() == '\r' {
        s.drop_last()
    } else {
        s
    }
}

/// The lines of `s`, as `str::lines` yields them: split at each `\n`, with a
/// `\r` before it removed, and no empty line after a final line ending.
pub open spec fn lines(s: Seq<char>) -> Seq<Seq<char>>
    decreases s.len(),
{
    if s.len() == 0 {
        seq![]
    } else {
        let k = nl_index(s);
        if k >= s.len() {
            seq![s]
        } else {
            seq![strip_cr(s.take(k as int))] + lines(s.skip(k as int + 1))
        }
    }
}

/// Whether `p` begins `s`.
pub open spec fn starts_with(s: Seq<char>, p: Seq<char>) -> bool {
    p.len() <= s.len() && s.take(p.len() as int) == p
}

/// The lines as borrowed by the handlers, each as its characters.
pub open spec fn lines_view(v: Seq<Vec<char>>) -> Seq<Seq<char>> {
    v.map_values(|l: Vec<char>| l@)
}

/// The characters of a string, in order.
pub fn chars_of(s: &str) -> (r: Vec<char>)
    ensures
        r@ == s@,
{
    let mut r: Vec<char> = Vec::new();
    for c in it: s.chars()
        invariant
            it.seq() == s@,
            r@ == it.seq().take(it.index()),
    {
        r.push(c);
        assert(r@ =~= it.seq().take(it.index() + 1));
    }
    assert(r@ =~= s@);
    r
}

/// `String::push`: appends `c` to the end of `s`. Claimed here: afterwards
/// the string holds its old characters followed by `c`.
#[verifier::external_body]
fn push_char(s: &mut String, c: char)
    ensures
        final(s)@ == old(s)@.push(c),
{
    s.push(c);
}

/// The string made of the characters `cs`.
pub fn string_of(cs: &[char]) -> (r: String)
    ensures
        r@ == cs@,
{
    let mut r = String::new();
    let n = cs.len();
    for i in 0..n
        invariant
            n == cs@.len(),
            r@ == cs@.take(i as int),
    {
        push_char(&mut r, cs[i]);
        assert(r@ =~= cs@.take(i + 1));
    }
    assert(r@ =~= cs@);
    r
}

/// Whether `c` has the Unicode `White_Space` property.
pub fn is_space_char(c: char) -> (r: bool)
    ensures
        r == is_space(c),
{
    c == '\t' || c == '\n' || c == '\u{0B}' || c == '\u{0C}' || c == '\r' || c == ' ' || c
        == '\u{85}' || c == '\u{A0}' || c == '\u{1680}' || ('\u{2000}' <= c && c <= '\u{200A}')
        || c == '\u{2028}' || c == '\u{2029}' || c == '\u{202F}' || c == '\u{205F}' || c
        == '\u{3000}'
}

/// The number of whitespace characters that begin `s`.
pub fn leading_space(s: &[char]) -> (r: usize)
    ensures
        r <= s@.len(),
        s@.skip(r as int) == trim_start(s@),
{
    let n = s.len();
    let mut i: usize = 0;
    assert(s@.skip(0) =~= s@);
    while i < n && is_space_char(s[i])
        invariant
            i <= n,
            n == s@.len(),
            trim_start(s@.skip(i as int)) == trim_start(s@),
        decreases n - i,
    {
        assert(s@.skip(i as int).drop_first() =~= s@.skip(i + 1));
        i = i + 1;
    }
    i
}

/// The length of `s` once its trailing whitespace is removed.
pub fn trimmed_len(s: &[char]) -> (r: usize)
    ensures
        r <= s@.len(),
        s@.take(r as int) == trim_end(s@),
{
    let mut j: usize = s.len();
    assert(s@.take(j as int) =~= s@);
    while j > 0 && is_space_char(s[j - 1])
        invariant
            j <= s@.len(),
            trim_end(s@.take(j as int)) == trim_end(s@),
        decreases j,
    {
        assert(s@.take(j as int).drop_last() =~= s@.take(j - 1));
        j = j - 1;
    }
    j
}

/// `s` without whitespace at either end.
pub fn trimmed(s: &[char]) -> (r: Vec<char>)
    ensures
        r@ == trim(s@),
{
    let a = leading_space(s);
    let mut rest: Vec<char> = Vec::new();
    let n = s.len();
    for i in a..n
        invariant
            n == s@.len(),
            a <= n,
            rest@ == s@.subrange(a as int, i as int),
    {
        rest.push(s[i]);
        assert(rest@ =~= s@.subrange(a as int, i + 1));
    }
    assert(rest@ =~= s@.skip(a as int));
    let b = trimmed_len(rest.as_slice());
    let mut r: Vec<char> = Vec::new();
    for i in 0..b
        invariant
            b <= rest@.len(),
            r@ == rest@.take(i as int),
    {
        r.push(rest[i]);
        assert(r@ =~= rest@.take(i + 1));
    }
    r
}

/// Whether `p` begins `s` once `s` has lost its first `from` characters.
pub fn starts_with_at(s: &[char], from: usize, p: &[char]) -> (r: bool)
    requires
        from <= s@.len(),
    ensures
        r == starts_with(s@.skip(from as int), p@),
{
    let n = s.len();
    let m = p.len();
    if m > n - from {
        return false;
    }
    let mut i: usize = 0;
    while i < m
        invariant
            i <= m,
            m <= n - from,
            n == s@.len(),
            m == p@.len(),
            forall|j: int| 0 <= j < i ==> s@[from + j] == p@[j],
        decreases m - i,
    {
        if s[from + i] != p[i] {
            assert(s@.skip(from as int).take(m as int)[i as int] != p@[i as int]);
            return false;
        }
        i = i + 1;
    }
    assert(s@.skip(from as int).take(m as int) =~= p@);
    true
}

/// Whether two character sequences are the same.
pub fn same_chars(a: &[char], b: &[char]) -> (r: bool)
    ensures
        r == (a@ == b@),
{
    if a.len() != b.len() {
        return false;
    }
    let r = starts_with_at(a, 0, b);
    assert(a@.skip(0) =~= a@);
    assert(r ==> a@ =~= b@);
    r
}

/// Whether `c` occurs in `s`.
pub fn has_char(s: &[char], c: char) -> (r: bool)
    ensures
        r == s@.contains(c),
{
    let n = s.len();
    for i in 0..n
        invariant
            n == s@.len(),
            forall|j: int| 0 <= j < i ==> s@[j] != c,
    {
        if s[i] == c {
            return true;
        }
    }
    false
}

/// The decimal digit `d` as a character.
pub open spec fn digit_char(d: nat) -> char {
    if d == 0 {
        '0'
    } else if d == 1 {
        '1'
    } else if d == 2 {
        '2'
    } else if d == 3 {
        '3'
    } else if d == 4 {
        '4'
    } else if d == 5 {
        '5'
    } else if d == 6 {
        '6'
    } else if d == 7 {
        '7'
    } else if d == 8 {
        '8'
    } else {
        '9'
    }
}

/// `n` written in decimal, without leading zeros.
pub open spec fn decimal(n: nat) -> Seq<char>
    decreases n,
{
    if n < 10 {
        seq![digit_char(n)]
    } else {
        decimal(n / 10).push(digit_char(n % 10))
    }
}

/// The pieces joined, with `sep` between each two of them.
pub open spec fn join(parts: Seq<Seq<char>>, sep: Seq<char>) -> Seq<char>
    decreases parts.len(),
{
    if parts.len() == 0 {
        seq![]
    } else if parts.len() == 1 {
        parts[0]
    } else {
        join(parts.drop_last(), sep) + sep + parts.last()
    }
}

fn digit_of(d: u64) -> (c: char)
    requires
        d < 10,
    ensures
        c == digit_char(d as nat),
{
    if d == 0 {
        '0'
    } else if d == 1 {
        '1'
    } else if d == 2 {
        '2'
    } else if d == 3 {
        '3'
    } else if d == 4 {
        '4'
    } else if d == 5 {
        '5'
    } else if d == 6 {
        '6'
    } else if d == 7 {
        '7'
    } else if d == 8 {
        '8'
    } else {
        '9'
    }
}

/// Appends `n` in decimal to `out`.
pub fn push_decimal(out: &mut Vec<char>, n: u64)
    ensures
        final(out)@ == old(out)@ + decimal(n as nat),
    decreases n,
{
    if n >= 10 {
        push_decimal(out, n / 10);
    }
    out.push(digit_of(n % 10));
    assert(final(out)@ =~= old(out)@ + decimal(n as nat));
}

/// Appends the characters of `s` to `out`.
pub fn push_str(out: &mut Vec<char>, s: &str)
    ensures
        final(out)@ == old(out)@ + s@,
{
    let cs = chars_of(s);
    push_all(out, &cs);
}

/// Appends `cs` to `out`.
pub fn push_all(out: &mut Vec<char>, cs: &[char])
    ensures
        final(out)@ == old(out)@ + cs@,
{
    let ghost start = out@;
    let n = cs.len();
    for i in 0..n
        invariant
            n == cs@.len(),
            out@ == start + cs@.take(i as int),
    {
        out.push(cs[i]);
        assert(out@ =~= start + cs@.take(i + 1));
    }
    assert(cs@.take(n as int) =~= cs@);
}

/// The strings joined, with `sep` between each two of them.
pub fn join_strings(parts: &Vec<String>, sep: &str) -> (r: Vec<char>)
    ensures
        r@ == join(parts@.map_values(|p: String| p@), sep@),
{
    let ghost views = parts@.map_values(|p: String| p@);
    let mut r: Vec<char> = Vec::new();
    let n = parts.len();
    for i in 0..n
        invariant
            n == parts@.len(),
            views == parts@.map_values(|p: String| p@),
            r@ == join(views.take(i as int), sep@),
    {
        let piece = chars_of(parts[i].as_str());
        if i > 0 {
            push_str(&mut r, sep);
        }
        push_all(&mut r, &piece);
        proof {
            assert(views.take(i + 1).drop_last() =~= views.take(i as int));
            if i == 0 {
                assert(views.take(1) =~= seq![views[0]]);
            }
        }
    }
    assert(views.take(n as int) =~= views);
    r
}

/// What `Seq::filter` keeps: only elements of the sequence that pass,
/// every one that passes, and the whole sequence exactly when all pass.
pub proof fn lemma_filter_facts<A>(s: Seq<A>, pred: spec_fn(A) -> bool)
    ensures
        s.filter(pred).len() <= s.len(),
        forall|i: int|
            0 <= i < s.filter(pred).len() ==> s.contains(#[trigger] s.filter(pred)[i]) && pred(
                s.filter(pred)[i],
            ),
        forall|i: int| 0 <= i < s.len() && pred(s[i]) ==> #[trigger] s.filter(pred).contains(s[i]),
        (s.filter(pred) == s) <==> (forall|i: int| 0 <= i < s.len() ==> pred(#[trigger] s[i])),
    decreases s.len(),
{
    reveal_with_fuel(Seq::filter, 1);
    if s.len() > 0 {
        let prev = s.drop_last();
        lemma_filter_facts(prev, pred);
        let f = s.filter(pred);
        assert forall|i: int| 0 <= i < f.len() implies s.contains(#[trigger] f[i]) && pred(f[i]) by {
            if i < prev.filter(pred).len() {
                assert(f[i] == prev.filter(pred)[i]);
                let j = choose|j: int| 0 <= j < prev.len() && prev[j] == f[i];
                assert(s[j] == f[i]);
            } else {
                assert(f[i] == s.last());
                assert(s[s.len() - 1] == f[i]);
            }
        }
        assert forall|i: int| 0 <= i < s.len() && pred(s[i]) implies #[trigger] f.contains(
            s[i],
        ) by {
            if i < s.len() - 1 {
                assert(prev[i] == s[i]);
                assert(prev.filter(pred).contains(prev[i]));
                let j = choose|j: int| 0 <= j < prev.filter(pred).len() && prev.filter(pred)[j] == s[i];
                assert(f[j] == s[i]);
            } else {
                assert(f[f.len() - 1] == s[i]);
            }
        }
        if forall|i: int| 0 <= i < s.len() ==> pred(#[trigger] s[i]) {
            assert forall|i: int| 0 <= i < prev.len() implies pred(#[trigger] prev[i]) by {
                assert(prev[i] == s[i]);
            }
            assert(f =~= prev.push(s.last()));
            assert(prev.push(s.last()) =~= s);
        } else {
            let k = choose|k: int| 0 <= k < s.len() && !pred(#[trigger] s[k]);
            if f == s {
                if pred(s.last()) {
                    assert(f.drop_last() =~= prev.filter(pred));
                    assert(prev.filter(pred) =~= prev);
                    assert(k < s.len() - 1);
                    assert(prev[k] == s[k]);
                } else {
                    assert(f.len() == prev.filter(pred).len());
                }
            }
        }
    } else {
        assert(s.filter(pred) =~= s);
    }
}

proof fn lemma_nl_index(s: Seq<char>, k: int)
    requires
        0 <= k <= s.len(),
        forall|j: int| 0 <= j < k ==> s[j] != '\n',
        k == s.len() || s[k] == '\n',
    ensures
        nl_index(s) == k,
    decreases k,
{
    if k > 0 {
        lemma_nl_index(s.drop_first(), k - 1);
    }
}

proof fn lemma_nl_index_bounds(s: Seq<char>)
    ensures
        nl_index(s) <= s.len(),
        forall|j: int| 0 <= j < nl_index(s) ==> s[j] != '\n',
        nl_index(s) < s.len() ==> s[nl_index(s) as int] == '\n',
    decreases s.len(),
{
    if s.len() > 0 && s[0] != '\n' {
        lemma_nl_index_bounds(s.drop_first());
        assert forall|j: int| 0 <= j < nl_index(s) implies s[j] != '\n' by {
            if j > 0 {
                assert(s[j] == s.drop_first()[j - 1]);
            }
        }
    }
}

/// No line holds a line feed.
pub proof fn lemma_lines_have_no_newline(s: Seq<char>)
    ensures
        forall|i: int| 0 <= i < lines(s).len() ==> !(#[trigger] lines(s)[i]).contains('\n'),
    decreases s.len(),
{
    if s.len() > 0 {
        let k = nl_index(s);
        lemma_nl_index_bounds(s);
        if k < s.len() {
            let first = strip_cr(s.take(k as int));
            assert(!first.contains('\n')) by {
                if first.contains('\n') {
                    let j = choose|j: int| 0 <= j < first.len() && first[j] == '\n';
                    assert(s[j] == '\n');
                }
            }
            lemma_lines_have_no_newline(s.skip(k as int + 1));
            assert forall|i: int| 0 <= i < lines(s).len() implies !(#[trigger] lines(s)[i]).contains(
                '\n',
            ) by {
                if i > 0 {
                    assert(lines(s)[i] == lines(s.skip(k as int + 1))[i - 1]);
                }
            }
        } else {
            assert(!s.contains('\n')) by {
                if s.contains('\n') {
                    let j = choose|j: int| 0 <= j < s.len() && s[j] == '\n';
                    assert(s[j] != '\n');
                }
            }
        }
    }
}

/// The text with the content of line `l` replaced by `new` and the line's
/// ending kept: what an edit of that line, from its first character to its
/// end, makes of the text.
pub open spec fn replace_line(s: Seq<char>, l: int, new: Seq<char>) -> Seq<char>
    decreases s.len(),
{
    if s.len() == 0 {
        s
    } else {
        let k = nl_index(s);
        if k >= s.len() {
            if l == 0 {
                new
            } else {
                s
            }
        } else {
            let raw = s.take(k as int);
            if l == 0 {
                let ending = if raw.len() > 0 && raw.last() == '\r' {
                    seq!['\r', '\n']
                } else {
                    seq!['\n']
                };
                new + ending + s.skip(k as int + 1)
            } else {
                raw + seq!['\n'] + replace_line(s.skip(k as int + 1), l - 1, new)
            }
        }
    }
}

/// After a line's content is replaced by text without a line feed, that
/// line reads back as the new text (less a final carriage return, which
/// then ends the line), unless the new text emptied the last line away.
pub proof fn lemma_replace_line(s: Seq<char>, l: int, new: Seq<char>)
    requires
        0 <= l < lines(s).len(),
        !new.contains('\n'),
    ensures
        lines(replace_line(s, l, new)).len() > l ==> (lines(replace_line(s, l, new))[l] == new
            || lines(replace_line(s, l, new))[l] == strip_cr(new)),
    decreases s.len(),
{
    let k = nl_index(s);
    lemma_nl_index_bounds(s);
    let r = replace_line(s, l, new);
    assert forall|j: int| 0 <= j < new.len() implies new[j] != '\n' by {
        if new[j] == '\n' {
            assert(new.contains('\n'));
        }
    }
    if k >= s.len() {
        assert(l == 0);
        lemma_nl_index(new, new.len() as int);
    } else {
        let raw = s.take(k as int);
        let rest = s.skip(k as int + 1);
        if l == 0 {
            let ending = if raw.len() > 0 && raw.last() == '\r' {
                seq!['\r', '\n']
            } else {
                seq!['\n']
            };
            let e = new.len() + ending.len() - 1;
            assert(r[e] == '\n');
            lemma_nl_index(r, e);
            if ending.len() == 2 {
                assert(r.take(e) =~= new.push('\r'));
                assert(strip_cr(new.push('\r')) =~= new);
            } else {
                assert(r.take(e) =~= new);
            }
        } else {
            let r2 = replace_line(rest, l - 1, new);
            assert(r =~= raw + seq!['\n'] + r2);
            assert forall|j: int| 0 <= j < k implies r[j] != '\n' by {
                assert(r[j] == s[j]);
            }
            assert(r[k as int] == '\n');
            lemma_nl_index(r, k as int);
            assert(r.take(k as int) =~= raw);
            assert(r.skip(k as int + 1) =~= r2);
            assert(lines(s)[l] == lines(rest)[l - 1]);
            lemma_replace_line(rest, l - 1, new);
            if lines(r).len() > l {
                assert(lines(r)[l] == lines(r2)[l - 1]);
            }
        }
    }
}

/// The lines of `text`, as `str::lines` splits them.
pub fn split_lines(text: &[char]) -> (r: Vec<Vec<char>>)
    ensures
        lines_view(r@) == lines(text@),
{
    let n = text.len();
    let mut done: Vec<Vec<char>> = Vec::new();
    let mut cur: Vec<char> = Vec::new();
    let mut start: usize = 0;
    assert(text@.skip(0) =~= text@);
    for i in 0..n
        invariant
            n == text@.len(),
            start <= i,
            cur@ == text@.subrange(start as int, i as int),
            forall|j: int| start <= j < i ==> text@[j] != '\n',
            lines_view(done@) + lines(text@.skip(start as int)) == lines(text@),
    {
        if text[i] == '\n' {
            let ghost rest = text@.skip(start as int);
            proof {
                lemma_nl_index(rest, i - start);
                assert(rest.take(i - start) =~= cur@);
                assert(rest.skip(i - start + 1) =~= text@.skip(i + 1));
            }
            if cur.len() > 0 && cur[cur.len() - 1] == '\r' {
                cur.pop();
            }
            let ghost before = done@;
            let line = cur;
            done.push(line);
            proof {
                assert(lines_view(done@) =~= lines_view(before).push(strip_cr(rest.take(i - start))));
            }
            cur = Vec::new();
            start = i + 1;
            assert(cur@ =~= text@.subrange(start as int, i + 1));
        } else {
            cur.push(text[i]);
            assert(cur@ =~= text@.subrange(start as int, i + 1));
        }
    }
    let ghost rest = text@.skip(start as int);
    proof {
        lemma_nl_index(rest, rest.len() as int);
        assert(rest =~= cur@);
    }
    if cur.len() > 0 {
        let ghost before = done@;
        done.push(cur);
        proof {
            assert(lines_view(done@) =~= lines_view(before).push(rest));
        }
    }
    done
}

} // verus!
