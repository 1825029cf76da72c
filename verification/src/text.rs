//! Character-level text utilities: the Unicode whitespace class, trimming,
//! prefixes, literal comparison and the line splitting of `str::lines`.
use vstd::prelude::*;
use vstd::string::*;

verus! {

// ---------------------------------------------------------------------------
// Specifications
// ---------------------------------------------------------------------------

/// The Unicode `White_Space` property, which `char::is_whitespace` tests.
pub open spec fn is_white_space(c: char) -> bool {
    let n = c as u32;
    ||| 0x09 <= n <= 0x0d
    ||| n == 0x20
    ||| n == 0x85
    ||| n == 0xa0
    ||| n == 0x1680
    ||| 0x2000 <= n <= 0x200a
    ||| n == 0x2028
    ||| n == 0x2029
    ||| n == 0x202f
    ||| n == 0x205f
    ||| n == 0x3000
}

/// What a trim removes from the ends of a text: whitespace, or one given character.
#[derive(Clone, Copy)]
pub enum Strip {
    Whitespace,
    Char(char),
}

/// Does `c` belong to the class of characters that `k` strips?
pub open spec fn strips(k: Strip, c: char) -> bool {
    match k {
        Strip::Whitespace => is_white_space(c),
        Strip::Char(x) => c == x,
    }
}

/// `s` without its leading characters of class `k`.
pub open spec fn trim_start(s: Seq<char>, k: Strip) -> Seq<char>
    decreases s.len(),
{
    if s.len() > 0 && strips(k, s[0]) {
        trim_start(s.drop_first(), k)
    } else {
        s
    }
}

/// `s` without its trailing characters of class `k`.
pub open spec fn trim_end(s: Seq<char>, k: Strip) -> Seq<char>
    decreases s.len(),
{
    if s.len() > 0 && strips(k, s.last()) {
        trim_end(s.drop_last(), k)
    } else {
        s
    }
}

/// `s` without its leading and trailing characters of class `k`
/// (`str::trim` for whitespace, `str::trim_matches` for one character).
pub open spec fn trim(s: Seq<char>, k: Strip) -> Seq<char> {
    trim_end(trim_start(s, k), k)
}

/// `str::trim`.
pub open spec fn trim_ws(s: Seq<char>) -> Seq<char> {
    trim(s, Strip::Whitespace)
}

/// `s` starts with `p`.
pub open spec fn has_prefix(s: Seq<char>, p: Seq<char>) -> bool {
    p.len() <= s.len() && s.take(p.len() as int) == p
}

/// A line as `str::lines` yields it: one `'\r'` before the `'\n'` is dropped.
pub open spec fn strip_cr(l: Seq<char>) -> Seq<char> {
    if l.len() > 0 && l.last() == '\r' {
        l.drop_last()
    } else {
        l
    }
}

/// Scans `s` from the left: the lines ended by a `'\n'` so far, and the
/// characters of the line that is still open.
pub open spec fn line_scan(s: Seq<char>) -> (Seq<Seq<char>>, Seq<char>)
    decreases s.len(),
{
    if s.len() == 0 {
        (seq![], seq![])
    } else {
        let (done, cur) = line_scan(s.drop_last());
        if s.last() == '\n' {
            (done.push(strip_cr(cur)), seq![])
        } else {
            (done, cur.push(s.last()))
        }
    }
}

/// The lines of `s`, as `str::lines` yields them: split at each `'\n'`, a
/// `'\r'` right before a `'\n'` dropped, and no empty last line after a final
/// line ending.
pub open spec fn lines_of(s: Seq<char>) -> Seq<Seq<char>> {
    let (done, cur) = line_scan(s);
    if cur.len() > 0 {
        done.push(cur)
    } else {
        done
    }
}

/// The character sequences that a sequence of character vectors holds.
pub open spec fn views(ls: Seq<Vec<char>>) -> Seq<Seq<char>> {
    ls.map_values(|l: Vec<char>| l@)
}

// ---------------------------------------------------------------------------
// Facts about trimming
// ---------------------------------------------------------------------------

/// A text whose first character is kept by the class is not changed by
/// trimming its start.
pub proof fn lemma_trim_start_keeps(s: Seq<char>, k: Strip)
    requires
        s.len() > 0,
        !strips(k, s[0]),
    ensures
        trim_start(s, k) == s,
{
}

/// Trimming the end of a text whose first character is kept leaves a
/// nonempty text.
pub proof fn lemma_trim_end_nonempty(t: Seq<char>, k: Strip)
    requires
        t.len() > 0,
        !strips(k, t[0]),
    ensures
        trim_end(t, k).len() > 0,
    decreases t.len(),
{
    if strips(k, t.last()) {
        assert(t.len() > 1);
        assert(t.drop_last()[0] == t[0]);
        lemma_trim_end_nonempty(t.drop_last(), k);
    }
}

/// A nonempty text that trims to nothing starts with a character of the class.
pub proof fn lemma_trim_empty_first(s: Seq<char>, k: Strip)
    requires
        s.len() > 0,
        trim(s, k).len() == 0,
    ensures
        strips(k, s[0]),
{
    if !strips(k, s[0]) {
        lemma_trim_start_keeps(s, k);
        lemma_trim_end_nonempty(s, k);
    }
}

/// A text made only of characters of the class trims to nothing.
pub proof fn lemma_trim_all_stripped(s: Seq<char>, k: Strip)
    requires
        forall|i: int| 0 <= i < s.len() ==> strips(k, #[trigger] s[i]),
    ensures
        trim_start(s, k).len() == 0,
        trim(s, k).len() == 0,
    decreases s.len(),
{
    if s.len() > 0 {
        assert forall|i: int| 0 <= i < s.drop_first().len() implies strips(
            k,
            #[trigger] s.drop_first()[i],
        ) by {
            assert(s.drop_first()[i] == s[i + 1]);
        }
        lemma_trim_all_stripped(s.drop_first(), k);
    }
    assert(trim_end(trim_start(s, k), k) == trim_start(s, k));
}

/// Trimming the end of a text leaves a prefix of it.
pub proof fn lemma_trim_end_prefix(t: Seq<char>, k: Strip)
    ensures
        trim_end(t, k).len() <= t.len(),
        trim_end(t, k) == t.take(trim_end(t, k).len() as int),
    decreases t.len(),
{
    if t.len() > 0 && strips(k, t.last()) {
        lemma_trim_end_prefix(t.drop_last(), k);
        let r = trim_end(t.drop_last(), k);
        assert(t.drop_last().take(r.len() as int) =~= t.take(r.len() as int));
    } else {
        assert(t.take(t.len() as int) =~= t);
    }
}

/// Trimming the start of a text leaves a suffix of it.
pub proof fn lemma_trim_start_suffix(t: Seq<char>, k: Strip)
    ensures
        trim_start(t, k).len() <= t.len(),
        trim_start(t, k) == t.skip(t.len() - trim_start(t, k).len()),
    decreases t.len(),
{
    if t.len() > 0 && strips(k, t[0]) {
        lemma_trim_start_suffix(t.drop_first(), k);
        let r = trim_start(t.drop_first(), k);
        assert(t.drop_first().skip(t.drop_first().len() - r.len()) =~= t.skip(t.len() - r.len()));
    } else {
        assert(t.skip(0) =~= t);
    }
}

/// Trimming keeps a contiguous slice of the text: it only takes characters
/// off the two ends.
pub proof fn lemma_trim_slice(t: Seq<char>, k: Strip) -> (r: (int, int))
    ensures
        0 <= r.0 <= r.1 <= t.len(),
        trim(t, k) == t.subrange(r.0, r.1),
{
    lemma_trim_start_suffix(t, k);
    let s = trim_start(t, k);
    let i = t.len() - s.len();
    lemma_trim_end_prefix(s, k);
    let r = trim_end(s, k);
    assert(r =~= t.subrange(i, i + r.len()));
    (i, i + r.len())
}

/// A text whose first and last characters are kept is not changed by
/// trimming.
pub proof fn lemma_trim_keeps(t: Seq<char>, k: Strip)
    requires
        t.len() > 0,
        !strips(k, t[0]),
        !strips(k, t.last()),
    ensures
        trim(t, k) == t,
{
    lemma_trim_start_keeps(t, k);
}

/// Characters of the class in front of a text are trimmed away.
pub proof fn lemma_trim_start_prefix(a: Seq<char>, y: Seq<char>, k: Strip)
    requires
        forall|i: int| 0 <= i < a.len() ==> strips(k, #[trigger] a[i]),
    ensures
        trim_start(a + y, k) == trim_start(y, k),
    decreases a.len(),
{
    if a.len() > 0 {
        assert forall|i: int| 0 <= i < a.drop_first().len() implies strips(
            k,
            #[trigger] a.drop_first()[i],
        ) by {
            assert(a.drop_first()[i] == a[i + 1]);
        }
        assert((a + y).drop_first() =~= a.drop_first() + y);
        assert((a + y)[0] == a[0]);
        lemma_trim_start_prefix(a.drop_first(), y, k);
    } else {
        assert(a + y =~= y);
    }
}

/// Characters of the class after a text are trimmed away.
pub proof fn lemma_trim_end_suffix(y: Seq<char>, b: Seq<char>, k: Strip)
    requires
        forall|i: int| 0 <= i < b.len() ==> strips(k, #[trigger] b[i]),
    ensures
        trim_end(y + b, k) == trim_end(y, k),
    decreases b.len(),
{
    if b.len() > 0 {
        assert forall|i: int| 0 <= i < b.drop_last().len() implies strips(
            k,
            #[trigger] b.drop_last()[i],
        ) by {
            assert(b.drop_last()[i] == b[i]);
        }
        assert((y + b).drop_last() =~= y + b.drop_last());
        assert((y + b).last() == b.last());
        lemma_trim_end_suffix(y, b.drop_last(), k);
    } else {
        assert(y + b =~= y);
    }
}

/// Trimming takes exactly the characters of the class off the two ends of
/// a text whose own first and last characters are kept.
pub proof fn lemma_trim_around(a: Seq<char>, x: Seq<char>, b: Seq<char>, k: Strip)
    requires
        forall|i: int| 0 <= i < a.len() ==> strips(k, #[trigger] a[i]),
        forall|i: int| 0 <= i < b.len() ==> strips(k, #[trigger] b[i]),
        x.len() > 0,
        !strips(k, x[0]),
        !strips(k, x.last()),
    ensures
        trim(a + x + b, k) == x,
{
    assert(a + x + b =~= a + (x + b));
    lemma_trim_start_prefix(a, x + b, k);
    assert((x + b)[0] == x[0]);
    lemma_trim_start_keeps(x + b, k);
    lemma_trim_end_suffix(x, b, k);
    lemma_trim_keeps(x, k);
}

/// A text whose first character is not whitespace trims to a nonempty text
/// that starts with that character.
pub proof fn lemma_trim_first_kept(t: Seq<char>)
    requires
        t.len() > 0,
        !is_white_space(t[0]),
    ensures
        trim_ws(t).len() > 0,
        trim_ws(t)[0] == t[0],
        trim_ws(t).len() <= t.len(),
        trim_ws(t) == t.take(trim_ws(t).len() as int),
{
    lemma_trim_start_keeps(t, Strip::Whitespace);
    lemma_trim_end_nonempty(t, Strip::Whitespace);
    lemma_trim_end_prefix(t, Strip::Whitespace);
}

// ---------------------------------------------------------------------------
// Facts about lines
// ---------------------------------------------------------------------------

/// Scanning a text that ends a line, then more text, continues from the
/// lines of the first.
pub proof fn lemma_line_scan_concat(x: Seq<char>, c: Seq<char>)
    requires
        line_scan(x).1.len() == 0,
    ensures
        line_scan(x + c) == (line_scan(x).0 + line_scan(c).0, line_scan(c).1),
    decreases c.len(),
{
    if c.len() == 0 {
        assert(x + c =~= x);
        assert(line_scan(x).0 + line_scan(c).0 =~= line_scan(x).0);
    } else {
        assert((x + c).drop_last() =~= x + c.drop_last());
        assert((x + c).last() == c.last());
        lemma_line_scan_concat(x, c.drop_last());
        let d = line_scan(x).0;
        let (d1, c1) = line_scan(c.drop_last());
        if c.last() == '\n' {
            assert((d + d1).push(strip_cr(c1)) =~= d + d1.push(strip_cr(c1)));
        }
    }
}

/// The lines of a text that ends a line, then more text.
pub proof fn lemma_lines_of_concat(x: Seq<char>, c: Seq<char>)
    requires
        line_scan(x).1.len() == 0,
    ensures
        lines_of(x + c) == line_scan(x).0 + lines_of(c),
{
    lemma_line_scan_concat(x, c);
    let d = line_scan(x).0;
    let (dc, cc) = line_scan(c);
    if cc.len() > 0 {
        assert((d + dc).push(cc) =~= d + dc.push(cc));
    }
}

/// A text with no line ending scans as one open line.
pub proof fn lemma_line_scan_no_newline(l: Seq<char>)
    requires
        forall|i: int| 0 <= i < l.len() ==> l[i] != '\n',
    ensures
        line_scan(l) == (Seq::<Seq<char>>::empty(), l),
    decreases l.len(),
{
    if l.len() > 0 {
        lemma_line_scan_no_newline(l.drop_last());
        assert(l.drop_last().push(l.last()) =~= l);
    }
}

/// Each line is the text up to the next `'\n'`, without one `'\r'` right
/// before it; the text after a last line with no line ending is a line of
/// its own, and an empty text has no lines.
pub proof fn lemma_lines_split(l: Seq<char>, rest: Seq<char>)
    requires
        forall|i: int| 0 <= i < l.len() ==> l[i] != '\n',
    ensures
        lines_of(l + seq!['\n'] + rest) == seq![strip_cr(l)] + lines_of(rest),
        l.len() > 0 ==> lines_of(l) == seq![l],
        lines_of(Seq::<char>::empty()) == Seq::<Seq<char>>::empty(),
        l.len() > 0 && l.last() == '\r' ==> strip_cr(l) == l.drop_last(),
        (l.len() == 0 || l.last() != '\r') ==> strip_cr(l) == l,
{
    lemma_line_scan_no_newline(l);
    let x = l + seq!['\n'];
    assert(x.drop_last() =~= l);
    assert(x.last() == '\n');
    assert(Seq::<Seq<char>>::empty().push(strip_cr(l)) =~= seq![strip_cr(l)]);
    assert(line_scan(x) == (seq![strip_cr(l)], Seq::<char>::empty()));
    assert(l + seq!['\n'] + rest =~= x + rest);
    lemma_lines_of_concat(x, rest);
    assert(Seq::<Seq<char>>::empty().push(l) =~= seq![l]);
}

/// The open line at the end of a scan ends with the text's last character.
pub proof fn lemma_line_scan_open_last(s: Seq<char>)
    requires
        line_scan(s).1.len() > 0,
    ensures
        s.len() > 0,
        line_scan(s).1.last() == s.last(),
{
}

// ---------------------------------------------------------------------------
// Trusted: `String::push` (std)
// ---------------------------------------------------------------------------

/// `String::push` appends one character to the end of the string: the
/// contract claims that the new contents are the old ones followed by `c`.
#[verifier::external_body]
pub(crate) fn push_char(s: &mut String, c: char)
    ensures
        final(s)@ == old(s)@.push(c),
{
    s.push(c);
}

// ---------------------------------------------------------------------------
// Executable functions
// ---------------------------------------------------------------------------

/// The characters of a string slice, in order.
pub fn chars_of(s: &str) -> (v: Vec<char>)
    ensures
        v@ == s@,
{
    let mut v: Vec<char> = Vec::new();
    for c in it: s.chars()
        invariant
            v@ == it.seq().take(it.index() as int),
            it.seq() == s@,
    {
        v.push(c);
    }
    v
}

/// A string holding `v[lo..hi]`.
pub fn string_from(v: &Vec<char>, lo: usize, hi: usize) -> (r: String)
    requires
        lo <= hi <= v@.len(),
    ensures
        r@ == v@.subrange(lo as int, hi as int),
{
    let mut r = String::new();
    let mut i = lo;
    while i < hi
        invariant
            lo <= i <= hi <= v@.len(),
            r@ == v@.subrange(lo as int, i as int),
        decreases hi - i,
    {
        push_char(&mut r, v[i]);
        assert(v@.subrange(lo as int, i + 1) =~= v@.subrange(lo as int, i as int).push(v@[i as int]));
        i = i + 1;
    }
    r
}

/// `char::is_whitespace`.
pub fn is_white_space_char(c: char) -> (r: bool)
    ensures
        r == is_white_space(c),
{
    let n = c as u32;
    (0x09 <= n && n <= 0x0d) || n == 0x20 || n == 0x85 || n == 0xa0 || n == 0x1680 || (0x2000 <= n
        && n <= 0x200a) || n == 0x2028 || n == 0x2029 || n == 0x202f || n == 0x205f || n == 0x3000
}

/// Does `c` belong to the class `k`?
pub fn strips_char(k: Strip, c: char) -> (r: bool)
    ensures
        r == strips(k, c),
{
    match k {
        Strip::Whitespace => is_white_space_char(c),
        Strip::Char(x) => c == x,
    }
}

/// Trimming a range of `s` gives a range of `s`: returns its bounds.
pub fn trim_bounds(s: &Vec<char>, lo: usize, hi: usize, k: Strip) -> (r: (usize, usize))
    requires
        lo <= hi <= s@.len(),
    ensures
        lo <= r.0 <= r.1 <= hi,
        s@.subrange(r.0 as int, r.1 as int) == trim(s@.subrange(lo as int, hi as int), k),
{
    let mut a = lo;
    while a < hi && strips_char(k, s[a])
        invariant
            lo <= a <= hi <= s@.len(),
            trim_start(s@.subrange(lo as int, hi as int), k) == trim_start(
                s@.subrange(a as int, hi as int),
                k,
            ),
        decreases hi - a,
    {
        assert(s@.subrange(a as int, hi as int).drop_first() =~= s@.subrange(a + 1, hi as int));
        a = a + 1;
    }
    assert(trim_start(s@.subrange(a as int, hi as int), k) == s@.subrange(a as int, hi as int));
    let mut b = hi;
    while b > a && strips_char(k, s[b - 1])
        invariant
            lo <= a <= b <= hi <= s@.len(),
            trim_end(s@.subrange(a as int, hi as int), k) == trim_end(
                s@.subrange(a as int, b as int),
                k,
            ),
        decreases b - a,
    {
        assert(s@.subrange(a as int, b as int).drop_last() =~= s@.subrange(a as int, b - 1));
        b = b - 1;
    }
    (a, b)
}

/// Does `s` start with the literal `p`?
pub fn starts_with_lit(s: &Vec<char>, p: &str) -> (r: bool)
    ensures
        r == has_prefix(s@, p@),
{
    let n = p.unicode_len();
    if n > s.len() {
        return false;
    }
    let mut i: usize = 0;
    while i < n
        invariant
            n == p@.len(),
            n <= s@.len(),
            i <= n,
            forall|j: int| 0 <= j < i ==> s@[j] == p@[j],
        decreases n - i,
    {
        if s[i] != p.get_char(i) {
            assert(s@.take(n as int)[i as int] != p@[i as int]);
            return false;
        }
        i = i + 1;
    }
    assert(s@.take(n as int) =~= p@);
    true
}

/// Is `s[lo..hi]` the literal `p`?
pub fn range_eq_lit(s: &Vec<char>, lo: usize, hi: usize, p: &str) -> (r: bool)
    requires
        lo <= hi <= s@.len(),
    ensures
        r == (s@.subrange(lo as int, hi as int) == p@),
{
    let n = p.unicode_len();
    if n != hi - lo {
        return false;
    }
    let mut i: usize = 0;
    while i < n
        invariant
            n == p@.len(),
            n == hi - lo,
            lo <= hi <= s@.len(),
            i <= n,
            forall|j: int| 0 <= j < i ==> s@[lo + j] == p@[j],
        decreases n - i,
    {
        if s[lo + i] != p.get_char(i) {
            assert(s@.subrange(lo as int, hi as int)[i as int] != p@[i as int]);
            return false;
        }
        i = i + 1;
    }
    assert(s@.subrange(lo as int, hi as int) =~= p@);
    true
}

/// The lines of `v`, as `str::lines` yields them.
pub fn split_lines(v: &Vec<char>) -> (ls: Vec<Vec<char>>)
    ensures
        views(ls@) == lines_of(v@),
{
    let mut done: Vec<Vec<char>> = Vec::new();
    let mut cur: Vec<char> = Vec::new();
    let mut i: usize = 0;
    while i < v.len()
        invariant
            i <= v@.len(),
            views(done@) == line_scan(v@.take(i as int)).0,
            cur@ == line_scan(v@.take(i as int)).1,
        decreases v@.len() - i,
    {
        assert(v@.take(i + 1).drop_last() =~= v@.take(i as int));
        let c = v[i];
        if c == '\n' {
            if cur.len() > 0 && cur[cur.len() - 1] == '\r' {
                cur.pop();
            }
            let ghost old_done = done@;
            done.push(cur);
            assert(views(done@) =~= views(old_done).push(done@.last()@));
            cur = Vec::new();
        } else {
            cur.push(c);
        }
        i = i + 1;
    }
    assert(v@.take(v@.len() as int) =~= v@);
    if cur.len() > 0 {
        let ghost old_done = done@;
        done.push(cur);
        assert(views(done@) =~= views(old_done).push(done@.last()@));
    }
    done
}

} // verus!
