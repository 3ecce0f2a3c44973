//! Text primitives the command language and the settings file rest on:
//! white space, words, lines, prefixes and decimal numbers.

use crate::trusted::push_char;
use vstd::prelude::*;
use vstd::string::{StrSliceExecFns, StringExecFns};

verus! {

/// Whether a character has the Unicode `White_Space` property, as
/// `char::is_whitespace` decides it.
pub open spec fn is_white(c: char) -> bool {
    ||| '\u{9}' <= c <= '\u{d}'
    ||| c == ' '
    ||| c == '\u{85}'
    ||| c == '\u{a0}'
    ||| c == '\u{1680}'
    ||| '\u{2000}' <= c <= '\u{200a}'
    ||| c == '\u{2028}'
    ||| c == '\u{2029}'
    ||| c == '\u{202f}'
    ||| c == '\u{205f}'
    ||| c == '\u{3000}'
}

/// Decides `is_white`.
pub fn white(c: char) -> (r: bool)
    ensures
        r == is_white(c),
{
    ('\u{9}' <= c && c <= '\u{d}') || c == ' ' || c == '\u{85}' || c == '\u{a0}' || c
        == '\u{1680}' || ('\u{2000}' <= c && c <= '\u{200a}') || c == '\u{2028}' || c
        == '\u{2029}' || c == '\u{202f}' || c == '\u{205f}' || c == '\u{3000}'
}

/// Whether a text is empty once white space is trimmed from both ends.
pub open spec fn is_blank(s: Seq<char>) -> bool {
    forall|i: int| 0 <= i < s.len() ==> is_white(#[trigger] s[i])
}

/// The words of a text read from the left: the finished words and the word
/// being read.
pub open spec fn word_scan(s: Seq<char>) -> (Seq<Seq<char>>, Seq<char>)
    decreases s.len(),
{
    if s.len() == 0 {
        (Seq::empty(), Seq::empty())
    } else {
        let (done, cur) = word_scan(s.drop_last());
        let c = s.last();
        if is_white(c) {
            if cur.len() > 0 {
                (done.push(cur), Seq::empty())
            } else {
                (done, cur)
            }
        } else {
            (done, cur.push(c))
        }
    }
}

/// The words of a text: its longest runs of characters without white space,
/// in order, as `str::split_whitespace` gives them.
pub open spec fn words(s: Seq<char>) -> Seq<Seq<char>> {
    let (done, cur) = word_scan(s);
    if cur.len() > 0 {
        done.push(cur)
    } else {
        done
    }
}

/// The lines of a text read from the left: the finished lines and the line
/// being read.
pub open spec fn line_scan(s: Seq<char>) -> (Seq<Seq<char>>, Seq<char>)
    decreases s.len(),
{
    if s.len() == 0 {
        (Seq::empty(), Seq::empty())
    } else {
        let (done, cur) = line_scan(s.drop_last());
        let c = s.last();
        if c == '\n' {
            (done.push(strip_cr(cur)), Seq::empty())
        } else {
            (done, cur.push(c))
        }
    }
}

/// A line without the carriage return that ended it, if one did.
pub open spec fn strip_cr(l: Seq<char>) -> Seq<char> {
    if l.len() > 0 && l.last() == '\r' {
        l.drop_last()
    } else {
        l
    }
}

/// The lines of a text as `str::lines` gives them: split at `\n`, a `\r`
/// just before the `\n` dropped, and no empty line after a final `\n`.
pub open spec fn lines(s: Seq<char>) -> Seq<Seq<char>> {
    let (done, cur) = line_scan(s);
    if cur.len() > 0 {
        done.push(cur)
    } else {
        done
    }
}

/// The parts joined with a separator between each two.
pub open spec fn join_with(parts: Seq<Seq<char>>, sep: char) -> Seq<char>
    decreases parts.len(),
{
    if parts.len() == 0 {
        Seq::empty()
    } else if parts.len() == 1 {
        parts[0]
    } else {
        join_with(parts.drop_last(), sep).push(sep) + parts.last()
    }
}

/// Whether a text begins with a prefix.
pub open spec fn starts_with(s: Seq<char>, prefix: Seq<char>) -> bool {
    prefix.len() <= s.len() && s.subrange(0, prefix.len() as int) == prefix
}

/// Whether every character is an ASCII digit.
pub open spec fn all_digits(s: Seq<char>) -> bool {
    forall|i: int| 0 <= i < s.len() ==> '0' <= #[trigger] s[i] <= '9'
}

/// The number that a string of decimal digits stands for.
pub open spec fn digits_value(s: Seq<char>) -> nat
    decreases s.len(),
{
    if s.len() == 0 {
        0
    } else {
        (digits_value(s.drop_last()) * 10 + (s.last() as nat - 48)) as nat
    }
}

/// The `u32` that `str::parse::<u32>` reads from a text: an optional `+`,
/// then one or more ASCII digits, for a value that fits.
pub open spec fn parse_u32_spec(s: Seq<char>) -> Option<u32> {
    let ds = if s.len() > 0 && s[0] == '+' {
        s.skip(1)
    } else {
        s
    };
    if ds.len() > 0 && all_digits(ds) && digits_value(ds) <= u32::MAX {
        Some(digits_value(ds) as u32)
    } else {
        None
    }
}

/// Whether two texts are equal.
pub fn text_eq(a: &str, b: &str) -> (r: bool)
    ensures
        r == (a@ == b@),
{
    let n = a.unicode_len();
    if n != b.unicode_len() {
        return false;
    }
    let mut i: usize = 0;
    while i < n
        invariant
            n == a@.len() == b@.len(),
            i <= n,
            forall|j: int| 0 <= j < i ==> a@[j] == b@[j],
        decreases n - i,
    {
        if a.get_char(i) != b.get_char(i) {
            return false;
        }
        i = i + 1;
    }
    assert(a@ =~= b@);
    true
}

/// Whether a text begins with a prefix.
pub fn has_prefix(s: &str, prefix: &str) -> (r: bool)
    ensures
        r == starts_with(s@, prefix@),
{
    let n = prefix.unicode_len();
    if n > s.unicode_len() {
        return false;
    }
    let mut i: usize = 0;
    while i < n
        invariant
            n == prefix@.len() <= s@.len(),
            i <= n,
            forall|j: int| 0 <= j < i ==> s@[j] == prefix@[j],
        decreases n - i,
    {
        if s.get_char(i) != prefix.get_char(i) {
            assert(s@.subrange(0, n as int)[i as int] != prefix@[i as int]);
            return false;
        }
        i = i + 1;
    }
    assert(s@.subrange(0, n as int) =~= prefix@);
    true
}

/// Whether a text is blank: nothing but white space.
pub fn blank(s: &str) -> (r: bool)
    ensures
        r == is_blank(s@),
{
    let n = s.unicode_len();
    let mut i: usize = 0;
    while i < n
        invariant
            n == s@.len(),
            i <= n,
            forall|j: int| 0 <= j < i ==> is_white(#[trigger] s@[j]),
        decreases n - i,
    {
        if !white(s.get_char(i)) {
            return false;
        }
        i = i + 1;
    }
    true
}

/// Splits a text into its words.
pub fn split_words(s: &str) -> (ws: Vec<String>)
    ensures
        ws.deep_view() == words(s@),
{
    let n = s.unicode_len();
    let mut done: Vec<String> = Vec::new();
    let mut cur = String::new();
    let mut i: usize = 0;
    while i < n
        invariant
            n == s@.len(),
            i <= n,
            word_scan(s@.take(i as int)) == (done.deep_view(), cur@),
        decreases n - i,
    {
        assert(s@.take(i + 1).drop_last() =~= s@.take(i as int));
        let c = s.get_char(i);
        if white(c) {
            if cur.unicode_len() > 0 {
                let ghost before = done.deep_view();
                let finished = cur;
                cur = String::new();
                done.push(finished);
                assert(done.deep_view() =~= before.push(finished@));
            }
        } else {
            push_char(&mut cur, c);
        }
        i = i + 1;
    }
    assert(s@.take(n as int) =~= s@);
    if cur.unicode_len() > 0 {
        let ghost before = done.deep_view();
        let ghost last = cur@;
        done.push(cur);
        assert(done.deep_view() =~= before.push(last));
    }
    done
}

/// Splits a text into its lines.
pub fn split_lines(s: &str) -> (ls: Vec<String>)
    ensures
        ls.deep_view() == lines(s@),
{
    let n = s.unicode_len();
    let mut done: Vec<String> = Vec::new();
    let mut cur = String::new();
    let mut pending_cr = false;
    let mut i: usize = 0;
    while i < n
        invariant
            n == s@.len(),
            i <= n,
            line_scan(s@.take(i as int)).0 == done.deep_view(),
            line_scan(s@.take(i as int)).1 == if pending_cr {
                cur@.push('\r')
            } else {
                cur@
            },
            !pending_cr ==> (cur@.len() == 0 || cur@.last() != '\r'),
        decreases n - i,
    {
        assert(s@.take(i + 1).drop_last() =~= s@.take(i as int));
        let c = s.get_char(i);
        if c == '\n' {
            proof {
                if pending_cr {
                    assert(strip_cr(cur@.push('\r')) =~= cur@);
                }
            }
            let ghost before = done.deep_view();
            let finished = cur;
            cur = String::new();
            pending_cr = false;
            done.push(finished);
            assert(done.deep_view() =~= before.push(finished@));
        } else if c == '\r' {
            if pending_cr {
                push_char(&mut cur, '\r');
            }
            pending_cr = true;
        } else {
            if pending_cr {
                push_char(&mut cur, '\r');
            }
            pending_cr = false;
            push_char(&mut cur, c);
        }
        i = i + 1;
    }
    assert(s@.take(n as int) =~= s@);
    if pending_cr {
        push_char(&mut cur, '\r');
    }
    if cur.unicode_len() > 0 {
        let ghost before = done.deep_view();
        let ghost last = cur@;
        done.push(cur);
        assert(done.deep_view() =~= before.push(last));
    }
    done
}

/// Joins parts with a separator between each two.
pub fn join_parts(parts: &[String], sep: char) -> (r: String)
    ensures
        r@ == join_with(parts@.map_values(|p: String| p@), sep),
{
    let ghost views = parts@.map_values(|p: String| p@);
    let mut out = String::new();
    let mut i: usize = 0;
    while i < parts.len()
        invariant
            i <= parts@.len(),
            views == parts@.map_values(|p: String| p@),
            out@ == join_with(views.take(i as int), sep),
        decreases parts@.len() - i,
    {
        assert(views.take(i + 1).drop_last() =~= views.take(i as int));
        if i > 0 {
            push_char(&mut out, sep);
        } else {
            assert(views.take(0) =~= Seq::<Seq<char>>::empty());
            assert(out@ =~= Seq::<char>::empty());
        }
        out.append(parts[i].as_str());
        proof {
            if i == 0 {
                assert(out@ =~= views.take(1)[0]);
            }
        }
        i = i + 1;
    }
    assert(views.take(parts@.len() as int) =~= views);
    out
}

/// Reads a `u32` as `str::parse::<u32>` does.
pub fn parse_u32(s: &str) -> (r: Option<u32>)
    ensures
        r == parse_u32_spec(s@),
{
    let n = s.unicode_len();
    let start: usize = if n > 0 && s.get_char(0) == '+' {
        1
    } else {
        0
    };
    let ghost ds = if s@.len() > 0 && s@[0] == '+' {
        s@.skip(1)
    } else {
        s@
    };
    assert(ds =~= s@.skip(start as int));
    if start >= n {
        return None;
    }
    let limit: u64 = 0x1_0000_0000;
    let mut acc: u64 = 0;
    let mut i: usize = start;
    while i < n
        invariant
            n == s@.len(),
            start <= i <= n,
            ds == s@.skip(start as int),
            ds == if s@.len() > 0 && s@[0] == '+' {
                s@.skip(1)
            } else {
                s@
            },
            limit == 0x1_0000_0000,
            all_digits(ds.take(i - start)),
            acc == if digits_value(ds.take(i - start)) < limit {
                digits_value(ds.take(i - start))
            } else {
                limit as nat
            },
        decreases n - i,
    {
        let c = s.get_char(i);
        if !('0' <= c && c <= '9') {
            assert(ds[i - start] == c);
            assert(!all_digits(ds));
            return None;
        }
        assert(ds.take(i + 1 - start).drop_last() =~= ds.take(i - start));
        assert(ds.take(i + 1 - start).last() == c);
        let d: u64 = (c as u32 - 48) as u64;
        let next: u64 = acc * 10 + d;
        acc = if next < limit {
            next
        } else {
            limit
        };
        i = i + 1;
    }
    assert(ds.take(n - start) =~= ds);
    if acc < limit {
        Some(acc as u32)
    } else {
        None
    }
}

/// Whether a text holds neither a line feed nor a carriage return.
pub open spec fn one_line(l: Seq<char>) -> bool {
    forall|i: int| 0 <= i < l.len() ==> #[trigger] l[i] != '\n' && l[i] != '\r'
}

/// Whether a text holds no carriage return.
pub open spec fn no_cr(s: Seq<char>) -> bool {
    forall|i: int| 0 <= i < s.len() ==> #[trigger] s[i] != '\r'
}

/// Reading on past the end of a line, without meeting a line feed, only
/// extends the line being read.
proof fn lemma_line_scan_append(s: Seq<char>, t: Seq<char>)
    requires
        forall|i: int| 0 <= i < t.len() ==> #[trigger] t[i] != '\n',
    ensures
        line_scan(s + t) == (line_scan(s).0, line_scan(s).1 + t),
    decreases t.len(),
{
    if t.len() == 0 {
        assert(s + t =~= s);
        assert(line_scan(s).1 + t =~= line_scan(s).1);
    } else {
        let u = t.drop_last();
        lemma_line_scan_append(s, u);
        assert((s + t).drop_last() =~= s + u);
        assert((s + t).last() == t.last());
        assert(line_scan(s).1 + u.push(t.last()) =~= line_scan(s).1 + t);
        assert(u.push(t.last()) =~= t);
        assert((line_scan(s).1 + u).push(t.last()) =~= line_scan(s).1 + t);
    }
}

/// The lines read from a text without carriage returns are one line each.
proof fn lemma_line_scan_one_line(s: Seq<char>)
    requires
        no_cr(s),
    ensures
        forall|k: int| 0 <= k < line_scan(s).0.len() ==> one_line(#[trigger] line_scan(s).0[k]),
        one_line(line_scan(s).1),
    decreases s.len(),
{
    if s.len() > 0 {
        let d = s.drop_last();
        assert forall|i: int| 0 <= i < d.len() implies #[trigger] d[i] != '\r' by {
            assert(d[i] == s[i]);
        }
        lemma_line_scan_one_line(d);
        let (done, cur) = line_scan(d);
        let c = s.last();
        assert(c == s[s.len() - 1]);
        if c == '\n' {
            let l = strip_cr(cur);
            assert(one_line(l)) by {
                if cur.len() > 0 && cur.last() == '\r' {
                    assert forall|i: int| 0 <= i < l.len() implies #[trigger] l[i] != '\n' && l[i]
                        != '\r' by {
                        assert(l[i] == cur[i]);
                    }
                }
            }
            assert forall|k: int| 0 <= k < done.push(l).len() implies one_line(
                #[trigger] done.push(l)[k],
            ) by {
                if k < done.len() {
                    assert(done.push(l)[k] == done[k]);
                }
            }
            assert(one_line(Seq::<char>::empty()));
        } else {
            assert forall|i: int| 0 <= i < cur.push(c).len() implies #[trigger] cur.push(c)[i]
                != '\n' && cur.push(c)[i] != '\r' by {
                if i < cur.len() {
                    assert(cur.push(c)[i] == cur[i]);
                }
            }
        }
    }
}

/// The lines of a text without carriage returns are one line each.
pub proof fn lemma_lines_one_line(s: Seq<char>)
    requires
        no_cr(s),
    ensures
        forall|k: int| 0 <= k < lines(s).len() ==> one_line(#[trigger] lines(s)[k]),
{
    lemma_line_scan_one_line(s);
    let (done, cur) = line_scan(s);
    if cur.len() > 0 {
        assert forall|k: int| 0 <= k < done.push(cur).len() implies one_line(
            #[trigger] done.push(cur)[k],
        ) by {
            if k < done.len() {
                assert(done.push(cur)[k] == done[k]);
            }
        }
    }
}

/// Whether a text holds no line feed.
pub open spec fn no_lf(l: Seq<char>) -> bool {
    forall|i: int| 0 <= i < l.len() ==> #[trigger] l[i] != '\n'
}

/// Reading lines joined by line feeds: all but the last are finished, each
/// without a carriage return that ended it; the last is being read.
proof fn lemma_line_scan_join(ls: Seq<Seq<char>>)
    requires
        ls.len() > 0,
        forall|k: int| 0 <= k < ls.len() ==> no_lf(#[trigger] ls[k]),
    ensures
        line_scan(join_with(ls, '\n')) == (
            ls.drop_last().map_values(|l: Seq<char>| strip_cr(l)),
            ls.last(),
        ),
    decreases ls.len(),
{
    let e = Seq::<char>::empty();
    assert(line_scan(e) == (Seq::<Seq<char>>::empty(), e));
    if ls.len() == 1 {
        assert(no_lf(ls[0]));
        lemma_line_scan_append(e, ls[0]);
        assert(e + ls[0] =~= ls[0]);
        assert(ls.drop_last().map_values(|l: Seq<char>| strip_cr(l)) =~= Seq::<Seq<char>>::empty());
    } else {
        let d = ls.drop_last();
        assert forall|k: int| 0 <= k < d.len() implies no_lf(#[trigger] d[k]) by {
            assert(d[k] == ls[k]);
        }
        lemma_line_scan_join(d);
        let j = join_with(d, '\n');
        let jn = j.push('\n');
        assert(jn.drop_last() =~= j);
        assert(d.drop_last().map_values(|l: Seq<char>| strip_cr(l)).push(strip_cr(d.last()))
            =~= d.map_values(|l: Seq<char>| strip_cr(l)));
        assert(line_scan(jn) == (d.map_values(|l: Seq<char>| strip_cr(l)), e));
        let last = ls.last();
        assert(no_lf(ls[ls.len() - 1]));
        lemma_line_scan_append(jn, last);
        assert(e + last =~= last);
    }
}

/// Lines without line feeds, the last of them not empty, read back from
/// their join by line feeds as themselves, except that a line other than the
/// last loses a final carriage return.
pub proof fn lemma_lines_of_join(ls: Seq<Seq<char>>)
    requires
        forall|k: int| 0 <= k < ls.len() ==> no_lf(#[trigger] ls[k]),
        ls.len() > 0 ==> ls.last().len() > 0,
    ensures
        lines(join_with(ls, '\n')).len() == ls.len(),
        forall|k: int|
            0 <= k < ls.len() - 1 ==> #[trigger] lines(join_with(ls, '\n'))[k] == strip_cr(ls[k]),
        ls.len() > 0 ==> lines(join_with(ls, '\n')).last() == ls.last(),
{
    if ls.len() == 0 {
        assert(line_scan(Seq::<char>::empty()) == (Seq::<Seq<char>>::empty(), Seq::<char>::empty()));
    } else {
        lemma_line_scan_join(ls);
    }
}

/// A text has no words exactly when it is blank: white space only.
pub proof fn lemma_blank_iff_no_words(s: Seq<char>)
    ensures
        is_blank(s) <==> words(s).len() == 0,
    decreases s.len(),
{
    if s.len() > 0 {
        let d = s.drop_last();
        lemma_blank_iff_no_words(d);
        let c = s.last();
        let (done, cur) = word_scan(d);
        assert(is_blank(s) <==> is_blank(d) && is_white(c)) by {
            if is_blank(s) {
                assert forall|i: int| 0 <= i < d.len() implies is_white(#[trigger] d[i]) by {
                    assert(d[i] == s[i]);
                }
                assert(is_white(s[s.len() - 1]));
            }
            if is_blank(d) && is_white(c) {
                assert forall|i: int| 0 <= i < s.len() implies is_white(#[trigger] s[i]) by {
                    if i < d.len() {
                        assert(s[i] == d[i]);
                    }
                }
            }
        }
        if is_white(c) {
            if cur.len() > 0 {
                assert(words(s).len() > 0);
                assert(words(d).len() > 0);
            }
        }
    } else {
        assert(word_scan(s) == (Seq::<Seq<char>>::empty(), Seq::<char>::empty()));
    }
}

} // verus!
