//! YAML front matter: a `---` fenced block of `key: value` lines at the top
//! of a document.
use vstd::prelude::*;
use vstd::string::*;
use crate::text::{
    is_white_space, lemma_trim_around, lemma_trim_keeps, lemma_trim_slice, strips,
    chars_of, has_prefix, lines_of, range_eq_lit, split_lines, starts_with_lit, string_from, trim,
    trim_bounds, trim_ws, views, Strip,
};

verus! {

/// The fields that a front matter block sets.
pub struct FrontMatter {
    pub title: Option<String>,
    pub description: Option<String>,
    pub author: Option<String>,
    pub date: Option<String>,
}

/// The fields of a front matter block, by their texts.
pub struct FrontMatterView {
    pub title: Option<Seq<char>>,
    pub description: Option<Seq<char>>,
    pub author: Option<Seq<char>>,
    pub date: Option<Seq<char>>,
}

/// The text of an optional string.
pub open spec fn opt_text(o: Option<String>) -> Option<Seq<char>> {
    match o {
        Some(s) => Some(s@),
        None => None,
    }
}

impl View for FrontMatter {
    type V = FrontMatterView;

    open spec fn view(&self) -> FrontMatterView {
        FrontMatterView {
            title: opt_text(self.title),
            description: opt_text(self.description),
            author: opt_text(self.author),
            date: opt_text(self.date),
        }
    }
}

/// No field set.
pub open spec fn no_fields() -> FrontMatterView {
    FrontMatterView { title: None, description: None, author: None, date: None }
}

/// The first index at or after `i` where `p` occurs in `s` (`str::find`).
pub open spec fn find_from(s: Seq<char>, p: Seq<char>, i: int) -> Option<int>
    decreases s.len() + 1 - i,
{
    if i < 0 || i + p.len() > s.len() {
        None
    } else if s.subrange(i, i + p.len()) == p {
        Some(i)
    } else {
        find_from(s, p, i + 1)
    }
}

/// A value as the front matter holds it: trimmed, then without surrounding
/// double quotes, then without surrounding single quotes.
pub open spec fn clean_value(v: Seq<char>) -> Seq<char> {
    trim(trim(trim_ws(v), Strip::Char('"')), Strip::Char('\''))
}

/// The fields after one more line of the block: a `key: value` line sets
/// the field named by its key (`title`, `description`, `author` or `date`);
/// any other line leaves the fields as they are.
pub open spec fn apply_line(fm: FrontMatterView, line: Seq<char>) -> FrontMatterView {
    match find_from(line, ":"@, 0) {
        None => fm,
        Some(k) => {
            let key = trim_ws(line.take(k));
            let val = clean_value(line.skip(k + 1));
            if key == "title"@ {
                FrontMatterView { title: Some(val), ..fm }
            } else if key == "description"@ {
                FrontMatterView { description: Some(val), ..fm }
            } else if key == "author"@ {
                FrontMatterView { author: Some(val), ..fm }
            } else if key == "date"@ {
                FrontMatterView { date: Some(val), ..fm }
            } else {
                fm
            }
        },
    }
}

/// The fields that the lines of a block set, later lines winning.
pub open spec fn fields_of(ls: Seq<Seq<char>>) -> FrontMatterView
    decreases ls.len(),
{
    if ls.len() == 0 {
        no_fields()
    } else {
        apply_line(fields_of(ls.drop_last()), ls.last())
    }
}

/// Where the block of a document that opens with `---\n` ends, within the
/// text after that opening fence: the end of the block and the start of the
/// markdown after the closing fence. `None` if the block is never closed.
pub open spec fn block_bounds(rest: Seq<char>) -> Option<(int, int)> {
    if has_prefix(rest, "---\n"@) {
        Some((0, 4))
    } else {
        match find_from(rest, "\n---\n"@, 0) {
            Some(pos) => Some((pos + 1, pos + 5)),
            None => None,
        }
    }
}

/// The front matter of a document and the markdown after it. A document
/// without a closed front matter block sets no field and is all markdown.
pub open spec fn split_front_matter(input: Seq<char>) -> (FrontMatterView, Seq<char>) {
    if !has_prefix(input, "---\n"@) {
        (no_fields(), input)
    } else {
        let rest = input.skip(4);
        match block_bounds(rest) {
            Some((end, after)) => (fields_of(lines_of(rest.take(end))), rest.skip(after)),
            None => (no_fields(), input),
        }
    }
}

/// The first index at which the literal `p` occurs in `s`.
fn find_lit(s: &Vec<char>, p: &str) -> (r: Option<usize>)
    ensures
        match r {
            Some(i) => find_from(s@, p@, 0) == Some(i as int) && i + p@.len() <= s@.len(),
            None => find_from(s@, p@, 0) is None,
        },
{
    let n = p.unicode_len();
    if n > s.len() {
        return None;
    }
    if n == 0 {
        assert(s@.subrange(0, 0) =~= p@);
        return Some(0);
    }
    let mut i: usize = 0;
    while i <= s.len() - n
        invariant
            n == p@.len(),
            0 < n <= s@.len(),
            find_from(s@, p@, 0) == find_from(s@, p@, i as int),
        decreases s@.len() + 1 - i,
    {
        if range_eq_lit(s, i, i + n, p) {
            return Some(i);
        }
        i = i + 1;
    }
    None
}

/// A vector holding `v[lo..hi]`.
fn sub_vec(v: &Vec<char>, lo: usize, hi: usize) -> (r: Vec<char>)
    requires
        lo <= hi <= v@.len(),
    ensures
        r@ == v@.subrange(lo as int, hi as int),
{
    let mut r: Vec<char> = Vec::new();
    let mut i = lo;
    while i < hi
        invariant
            lo <= i <= hi <= v@.len(),
            r@ == v@.subrange(lo as int, i as int),
        decreases hi - i,
    {
        r.push(v[i]);
        assert(r@ =~= v@.subrange(lo as int, i + 1));
        i = i + 1;
    }
    r
}

/// Sets the field that one line of the block names.
fn read_line(fm: &mut FrontMatter, line: &Vec<char>)
    ensures
        final(fm)@ == apply_line(old(fm)@, line@),
{
    proof {
        reveal_strlit(":");
    }
    let n = line.len();
    let k = match find_lit(line, ":") {
        Some(k) => k,
        None => {
            return;
        },
    };
    let (ka, kz) = trim_bounds(line, 0, k, Strip::Whitespace);
    assert(line@.subrange(0, k as int) =~= line@.take(k as int));
    let (a, z) = trim_bounds(line, k + 1, n, Strip::Whitespace);
    assert(line@.subrange(k + 1, n as int) =~= line@.skip(k + 1));
    let (a2, z2) = trim_bounds(line, a, z, Strip::Char('"'));
    let (a3, z3) = trim_bounds(line, a2, z2, Strip::Char('\''));
    if range_eq_lit(line, ka, kz, "title") {
        fm.title = Some(string_from(line, a3, z3));
    } else if range_eq_lit(line, ka, kz, "description") {
        fm.description = Some(string_from(line, a3, z3));
    } else if range_eq_lit(line, ka, kz, "author") {
        fm.author = Some(string_from(line, a3, z3));
    } else if range_eq_lit(line, ka, kz, "date") {
        fm.date = Some(string_from(line, a3, z3));
    }
}

/// Strips and parses a YAML front matter block from the top of the document.
/// Returns parsed fields and the remaining markdown content.
pub fn parse_front_matter(input: &str) -> (r: (FrontMatter, &str))
    ensures
        (r.0@, r.1@) == split_front_matter(input@),
{
    proof {
        reveal_strlit("---\n");
        reveal_strlit("\n---\n");
    }
    let mut fm = FrontMatter { title: None, description: None, author: None, date: None };
    let v = chars_of(input);
    if !starts_with_lit(&v, "---\n") {
        return (fm, input);
    }
    let rest = sub_vec(&v, 4, v.len());
    assert(rest@ =~= input@.skip(4));
    let (end, after): (usize, usize) = if starts_with_lit(&rest, "---\n") {
        (0, 4)
    } else {
        match find_lit(&rest, "\n---\n") {
            Some(pos) => (pos + 1, pos + 5),
            None => {
                return (fm, input);
            },
        }
    };
    let block = sub_vec(&rest, 0, end);
    assert(block@ =~= rest@.take(end as int));
    let lines = split_lines(&block);
    let ghost ls = views(lines@);
    let mut i: usize = 0;
    while i < lines.len()
        invariant
            i <= lines@.len(),
            ls == views(lines@),
            fm@ == fields_of(ls.take(i as int)),
        decreases lines@.len() - i,
    {
        assert(ls.take(i + 1).drop_last() =~= ls.take(i as int));
        read_line(&mut fm, &lines[i]);
        i = i + 1;
    }
    assert(ls.take(lines@.len() as int) =~= ls);
    assert(after <= rest@.len());
    let tail = input.substring_char(4 + after, v.len());
    assert(input@.subrange(4 + after, v@.len() as int) =~= rest@.skip(after as int));
    (fm, tail)
}

// ===========================================================================
// Laws
// ===========================================================================

/// What `find_from` finds is an occurrence, at or after where the search
/// starts.
pub proof fn lemma_find_from_found(s: Seq<char>, p: Seq<char>, i: int)
    requires
        find_from(s, p, i) is Some,
    ensures
        i <= find_from(s, p, i)->0,
        find_from(s, p, i)->0 + p.len() <= s.len(),
        s.subrange(find_from(s, p, i)->0, find_from(s, p, i)->0 + p.len()) == p,
    decreases s.len() + 1 - i,
{
    if !(i < 0 || i + p.len() > s.len()) && s.subrange(i, i + p.len()) != p {
        lemma_find_from_found(s, p, i + 1);
    }
}

/// When `find_from` finds nothing, `p` occurs nowhere from where the search
/// starts.
pub proof fn lemma_find_from_none(s: Seq<char>, p: Seq<char>, i: int, j: int)
    requires
        0 <= i <= j,
        j + p.len() <= s.len(),
        find_from(s, p, i) is None,
    ensures
        s.subrange(j, j + p.len()) != p,
    decreases j - i,
{
    if i < j {
        lemma_find_from_none(s, p, i + 1, j);
    }
}

/// The markdown that `parse_front_matter` returns is always the end of its
/// input: it strips a prefix, and adds nothing.
pub proof fn lemma_rest_is_suffix(input: Seq<char>)
    ensures
        split_front_matter(input).1.len() <= input.len(),
        split_front_matter(input).1 == input.skip(input.len() - split_front_matter(input).1.len()),
{
    reveal_strlit("---\n");
    reveal_strlit("\n---\n");
    if has_prefix(input, "---\n"@) {
        let rest = input.skip(4);
        if !has_prefix(rest, "---\n"@) {
            if find_from(rest, "\n---\n"@, 0) is Some {
                lemma_find_from_found(rest, "\n---\n"@, 0);
            }
        }
        match block_bounds(rest) {
            Some((end, after)) => {
                assert(rest.skip(after) =~= input.skip(4 + after));
            },
            None => {
                assert(input.skip(0) =~= input);
            },
        }
    } else {
        assert(input.skip(0) =~= input);
    }
}

/// A document that does not open with a `---` line has no front matter:
/// no field is set and the markdown is the whole document.
pub proof fn lemma_no_opening_fence(input: Seq<char>)
    requires
        !has_prefix(input, "---\n"@),
    ensures
        split_front_matter(input) == (no_fields(), input),
{
}

/// A front matter block that is never closed is not front matter: no field
/// is set and the markdown is the whole document.
pub proof fn lemma_unclosed_block(input: Seq<char>)
    requires
        has_prefix(input, "---\n"@),
        !has_prefix(input.skip(4), "---\n"@),
        find_from(input.skip(4), "\n---\n"@, 0) is None,
    ensures
        split_front_matter(input) == (no_fields(), input),
{
}

/// A line without a `:` sets no field.
pub proof fn lemma_line_without_colon(fm: FrontMatterView, line: Seq<char>)
    requires
        forall|i: int| 0 <= i < line.len() ==> line[i] != ':',
    ensures
        apply_line(fm, line) == fm,
{
    reveal_strlit(":");
    if find_from(line, ":"@, 0) is Some {
        lemma_find_from_found(line, ":"@, 0);
        let k = find_from(line, ":"@, 0)->0;
        assert(line.subrange(k, k + 1)[0] == ':');
    }
}

/// A `key: value` line whose key is not `title`, `description`, `author` or
/// `date` sets no field.
pub proof fn lemma_unknown_key_ignored(fm: FrontMatterView, line: Seq<char>, k: int)
    requires
        find_from(line, ":"@, 0) == Some(k),
        trim_ws(line.take(k)) != "title"@,
        trim_ws(line.take(k)) != "description"@,
        trim_ws(line.take(k)) != "author"@,
        trim_ws(line.take(k)) != "date"@,
    ensures
        apply_line(fm, line) == fm,
{
}

/// The value that a line gives to the field named `key`: the cleaned text
/// after the line's first `:`, if the trimmed text before it is `key`.
pub open spec fn line_value(line: Seq<char>, key: Seq<char>) -> Option<Seq<char>> {
    match find_from(line, ":"@, 0) {
        Some(k) => if trim_ws(line.take(k)) == key {
            Some(clean_value(line.skip(k + 1)))
        } else {
            None
        },
        None => None,
    }
}

/// The field of `fm` named `key`.
pub open spec fn field(fm: FrontMatterView, key: Seq<char>) -> Option<Seq<char>> {
    if key == "title"@ {
        fm.title
    } else if key == "description"@ {
        fm.description
    } else if key == "author"@ {
        fm.author
    } else {
        fm.date
    }
}

/// One of the four field names.
pub open spec fn is_field_name(key: Seq<char>) -> bool {
    key == "title"@ || key == "description"@ || key == "author"@ || key == "date"@
}

/// One more line sets the field named `key` to the value it gives, and
/// leaves it as it was if the line does not name it.
proof fn lemma_apply_line_field(fm: FrontMatterView, line: Seq<char>, key: Seq<char>)
    requires
        is_field_name(key),
    ensures
        field(apply_line(fm, line), key) == match line_value(line, key) {
            Some(v) => Some(v),
            None => field(fm, key),
        },
{
    reveal_strlit("title");
    reveal_strlit("description");
    reveal_strlit("author");
    reveal_strlit("date");
    assert("title"@.len() == 5 && "description"@.len() == 11 && "author"@.len() == 6
        && "date"@.len() == 4);
}

/// Each field holds the value that the last line naming it gives; a field
/// that no line names is not set. Lines without a `:`, and lines with
/// another key, set nothing.
pub proof fn lemma_field_from_last_line(ls: Seq<Seq<char>>, key: Seq<char>)
    requires
        is_field_name(key),
    ensures
        field(fields_of(ls), key) is None <==> forall|i: int|
            0 <= i < ls.len() ==> line_value(#[trigger] ls[i], key) is None,
        field(fields_of(ls), key) matches Some(v) ==> exists|i: int|
            0 <= i < ls.len() && line_value(#[trigger] ls[i], key) == Some(v) && forall|j: int|
                i < j < ls.len() ==> line_value(#[trigger] ls[j], key) is None,
    decreases ls.len(),
{
    reveal_strlit("title");
    reveal_strlit("description");
    reveal_strlit("author");
    reveal_strlit("date");
    if ls.len() == 0 {
        assert(field(no_fields(), key) is None);
    } else {
        let init = ls.drop_last();
        let n = ls.len() - 1;
        lemma_field_from_last_line(init, key);
        lemma_apply_line_field(fields_of(init), ls.last(), key);
        assert forall|i: int| 0 <= i < init.len() implies init[i] == ls[i] by {}
        match line_value(ls[n], key) {
            Some(v) => {
                assert(line_value(ls[n], key) == Some(v));
            },
            None => {
                if field(fields_of(init), key) is None {
                    assert forall|i: int| 0 <= i < ls.len() implies line_value(
                        #[trigger] ls[i],
                        key,
                    ) is None by {
                        if i < n {
                            assert(init[i] == ls[i]);
                        }
                    }
                } else {
                    let v = field(fields_of(init), key)->0;
                    let i = choose|i: int|
                        0 <= i < init.len() && line_value(#[trigger] init[i], key) == Some(v)
                            && forall|j: int|
                            i < j < init.len() ==> line_value(#[trigger] init[j], key) is None;
                    assert(ls[i] == init[i]);
                    assert forall|j: int| i < j < ls.len() implies line_value(
                        #[trigger] ls[j],
                        key,
                    ) is None by {
                        if j < n {
                            assert(init[j] == ls[j]);
                        }
                    }
                    assert(line_value(init[i], key) is Some);
                }
            },
        }
    }
}

/// Cleaning a value only takes characters off its two ends: what is left
/// is a contiguous slice of the value, and a value that has no whitespace
/// and no quote at either end is kept as it is.
pub proof fn lemma_clean_value_slice(v: Seq<char>) -> (r: (int, int))
    ensures
        0 <= r.0 <= r.1 <= v.len(),
        clean_value(v) == v.subrange(r.0, r.1),
        v.len() > 0 && !is_white_space(v[0]) && !is_white_space(v.last()) && v[0] != '"'
            && v.last() != '"' && v[0] != '\'' && v.last() != '\'' ==> clean_value(v) == v,
{
    let (i1, j1) = lemma_trim_slice(v, Strip::Whitespace);
    let w1 = trim_ws(v);
    let (i2, j2) = lemma_trim_slice(w1, Strip::Char('"'));
    let w2 = trim(w1, Strip::Char('"'));
    let (i3, j3) = lemma_trim_slice(w2, Strip::Char('\''));
    assert(w2 =~= v.subrange(i1 + i2, i1 + j2));
    assert(clean_value(v) =~= v.subrange(i1 + i2 + i3, i1 + i2 + j3));
    if v.len() > 0 && !is_white_space(v[0]) && !is_white_space(v.last()) && v[0] != '"'
        && v.last() != '"' && v[0] != '\'' && v.last() != '\'' {
        lemma_trim_keeps(v, Strip::Whitespace);
        lemma_trim_keeps(v, Strip::Char('"'));
        lemma_trim_keeps(v, Strip::Char('\''));
    }
    (i1 + i2 + i3, i1 + i2 + j3)
}

/// Cleaning a value takes off the whitespace around it, then one layer of
/// surrounding double or single quotes, and nothing else: for a value `x`
/// with no whitespace and no quote at either end, and whitespace `a` and
/// `b`, the value `a x b`, `a "x" b` or `a 'x' b` cleans to `x`.
pub proof fn lemma_clean_value_strips_around(a: Seq<char>, x: Seq<char>, b: Seq<char>)
    requires
        forall|i: int| 0 <= i < a.len() ==> is_white_space(#[trigger] a[i]),
        forall|i: int| 0 <= i < b.len() ==> is_white_space(#[trigger] b[i]),
        x.len() > 0,
        !is_white_space(x[0]) && !is_white_space(x.last()),
        x[0] != '"' && x.last() != '"' && x[0] != '\'' && x.last() != '\'',
    ensures
        clean_value(a + x + b) == x,
        clean_value(a + (seq!['"'] + x + seq!['"']) + b) == x,
        clean_value(a + (seq!['\''] + x + seq!['\'']) + b) == x,
{
    let e = Seq::<char>::empty();
    assert forall|i: int| 0 <= i < a.len() implies strips(Strip::Whitespace, #[trigger] a[i]) by {}
    assert forall|i: int| 0 <= i < b.len() implies strips(Strip::Whitespace, #[trigger] b[i]) by {}
    lemma_trim_around(a, x, b, Strip::Whitespace);
    lemma_trim_keeps(x, Strip::Char('"'));
    lemma_trim_keeps(x, Strip::Char('\''));
    let dq = seq!['"'] + x + seq!['"'];
    assert(dq[0] == '"' && dq.last() == '"');
    lemma_trim_around(a, dq, b, Strip::Whitespace);
    assert forall|i: int| 0 <= i < 1 implies strips(Strip::Char('"'), #[trigger] seq!['"'][i]) by {}
    lemma_trim_around(seq!['"'], x, seq!['"'], Strip::Char('"'));
    let sq = seq!['\''] + x + seq!['\''];
    assert(sq[0] == '\'' && sq.last() == '\'');
    lemma_trim_around(a, sq, b, Strip::Whitespace);
    lemma_trim_keeps(sq, Strip::Char('"'));
    assert forall|i: int| 0 <= i < 1 implies strips(Strip::Char('\''), #[trigger] seq!['\''][i]) by {}
    lemma_trim_around(seq!['\''], x, seq!['\''], Strip::Char('\''));
}

/// In `blk + "---\n" + body`, where `blk` is nonempty, ends with a line
/// ending and holds no `---` line, the first `"\n---\n"` at or after `i`
/// is the one that closes `blk`.
proof fn lemma_closing_fence_found(blk: Seq<char>, body: Seq<char>, i: int)
    requires
        blk.len() > 0,
        blk.last() == '\n',
        find_from(blk, "\n---\n"@, 0) is None,
        0 <= i <= blk.len() - 1,
    ensures
        find_from(blk + "---\n"@ + body, "\n---\n"@, i) == Some(blk.len() - 1),
    decreases blk.len() - 1 - i,
{
    reveal_strlit("---\n");
    reveal_strlit("\n---\n");
    let rest = blk + "---\n"@ + body;
    let p = "\n---\n"@;
    let n = blk.len() as int;
    if i == n - 1 {
        assert(rest.subrange(i, i + 5) =~= p);
    } else {
        if i + 5 <= n {
            lemma_find_from_none(blk, p, 0, i);
            assert(rest.subrange(i, i + 5) =~= blk.subrange(i, i + 5));
        } else {
            let d = n - 1 - i;
            assert(1 <= d <= 3);
            assert(rest.subrange(i, i + 5)[d] == '\n');
            assert(p[d] == '-');
        }
        assert(rest.subrange(i, i + 5) != p);
        lemma_closing_fence_found(blk, body, i + 1);
    }
}

/// A front matter block followed by markdown gives back the fields that the
/// block's lines set and exactly that markdown. The block `blk` is empty, or
/// ends with a line ending, does not start with a `---` line and holds no
/// `---` line: then the first `---` line after the opening one closes it.
pub proof fn lemma_block_then_markdown(blk: Seq<char>, body: Seq<char>)
    requires
        blk.len() == 0 || (blk.last() == '\n' && !has_prefix(blk, "---\n"@) && find_from(
            blk,
            "\n---\n"@,
            0,
        ) is None),
    ensures
        split_front_matter("---\n"@ + blk + "---\n"@ + body) == (fields_of(lines_of(blk)), body),
{
    reveal_strlit("---\n");
    reveal_strlit("\n---\n");
    let f = "---\n"@;
    let input = f + blk + f + body;
    let rest = input.skip(4);
    assert(input.take(4) =~= f);
    assert(rest =~= blk + f + body);
    if blk.len() == 0 {
        assert(rest.take(4) =~= f);
        assert(rest.take(0) =~= blk);
        assert(rest.skip(4) =~= body);
    } else {
        let n = blk.len() as int;
        if n >= 4 {
            assert(rest.take(4) =~= blk.take(4));
        } else {
            assert(rest.take(4)[n - 1] == '\n');
            assert(f[n - 1] == '-');
        }
        assert(!has_prefix(rest, f));
        lemma_closing_fence_found(blk, body, 0);
        assert(rest.take(n) =~= blk);
        assert(rest.skip(n + 4) =~= body);
    }
}

} // verus!
