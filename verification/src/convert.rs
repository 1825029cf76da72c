//! Markdown to HTML: HTML escaping, inline formatting and the block structure.
use vstd::prelude::*;
use vstd::string::*;
use crate::text::{
    chars_of, has_prefix, is_white_space, lemma_line_scan_open_last, lemma_lines_of_concat,
    lemma_trim_all_stripped, lemma_trim_empty_first, lemma_trim_first_kept, line_scan, lines_of,
    push_char, range_eq_lit, split_lines, starts_with_lit, string_from, strips, trim_bounds, trim_ws,
    views, Strip,
};
use crate::marker::{digit_char, guard, marker, masked_text, push_guarded, push_marker, restore, restore_from};
use crate::pattern::{
    groups_view, interleave, match_text, matches_view, opt_view, regex_captures, regex_compiles,
    regex_match_groups, regex_split, regex_split_pieces, string_views,
};

verus! {

// ===========================================================================
// HTML escaping
// ===========================================================================

/// The HTML text that stands for one character.
pub open spec fn escape_char(c: char) -> Seq<char> {
    if c == '&' {
        "&amp;"@
    } else if c == '<' {
        "&lt;"@
    } else if c == '>' {
        "&gt;"@
    } else if c == '"' {
        "&quot;"@
    } else {
        seq![c]
    }
}

/// `s` with `&`, `<`, `>` and `"` replaced by their HTML entities.
pub open spec fn escape(s: Seq<char>) -> Seq<char>
    decreases s.len(),
{
    if s.len() == 0 {
        seq![]
    } else {
        escape(s.drop_last()) + escape_char(s.last())
    }
}

/// A character that escaping rewrites.
pub open spec fn is_special(c: char) -> bool {
    c == '&' || c == '<' || c == '>' || c == '"'
}

/// No `<`, `>` or `"` is left in escaped text: escaped text cannot open or
/// close a tag, nor end an attribute value.
pub proof fn lemma_escape_no_markup(s: Seq<char>)
    ensures
        forall|i: int|
            0 <= i < escape(s).len() ==> escape(s)[i] != '<' && escape(s)[i] != '>' && escape(
                s,
            )[i] != '"',
    decreases s.len(),
{
    reveal_strlit("&amp;");
    reveal_strlit("&lt;");
    reveal_strlit("&gt;");
    reveal_strlit("&quot;");
    if s.len() > 0 {
        lemma_escape_no_markup(s.drop_last());
        let a = escape(s.drop_last());
        let b = escape_char(s.last());
        assert forall|i: int| 0 <= i < escape(s).len() implies escape(s)[i] != '<' && escape(s)[i]
            != '>' && escape(s)[i] != '"' by {
            if i >= a.len() {
                assert(escape(s)[i] == b[i - a.len()]);
            } else {
                assert(escape(s)[i] == a[i]);
            }
        }
    }
}

/// Escaping a concatenation escapes each part.
pub proof fn lemma_escape_concat(a: Seq<char>, b: Seq<char>)
    ensures
        escape(a + b) == escape(a) + escape(b),
    decreases b.len(),
{
    if b.len() == 0 {
        assert(a + b =~= a);
        assert(escape(b) =~= seq![]);
        assert(escape(a) + escape(b) =~= escape(a));
    } else {
        assert((a + b).drop_last() =~= a + b.drop_last());
        lemma_escape_concat(a, b.drop_last());
        assert(escape(a + b) =~= escape(a) + escape(b));
    }
}

/// Text with none of `&`, `<`, `>`, `"` is its own escape.
pub proof fn lemma_escape_plain(s: Seq<char>)
    requires
        forall|i: int| 0 <= i < s.len() ==> !is_special(#[trigger] s[i]),
    ensures
        escape(s) == s,
    decreases s.len(),
{
    if s.len() > 0 {
        lemma_escape_plain(s.drop_last());
        assert(!is_special(s[s.len() - 1]));
        assert(escape(s) =~= s);
    }
}

/// Reads HTML entities back: `&quot;`, `&gt;`, `&lt;` and `&amp;` become the
/// characters they stand for, from left to right; any other character stays.
pub open spec fn unescape(s: Seq<char>) -> Seq<char>
    decreases s.len(),
{
    if s.len() == 0 {
        seq![]
    } else if has_prefix(s, seq!['&', 'q', 'u', 'o', 't', ';']) {
        seq!['"'] + unescape(s.skip(6))
    } else if has_prefix(s, seq!['&', 'g', 't', ';']) {
        seq!['>'] + unescape(s.skip(4))
    } else if has_prefix(s, seq!['&', 'l', 't', ';']) {
        seq!['<'] + unescape(s.skip(4))
    } else if has_prefix(s, seq!['&', 'a', 'm', 'p', ';']) {
        seq!['&'] + unescape(s.skip(5))
    } else {
        seq![s[0]] + unescape(s.skip(1))
    }
}

/// Reading back the escape of one character, followed by any text.
proof fn lemma_unescape_char(c: char, e: Seq<char>)
    ensures
        unescape(escape_char(c) + e) == seq![c] + unescape(e),
{
    reveal_strlit("&amp;");
    reveal_strlit("&lt;");
    reveal_strlit("&gt;");
    reveal_strlit("&quot;");
    let x = escape_char(c);
    let s = x + e;
    let q = seq!['&', 'q', 'u', 'o', 't', ';'];
    let g = seq!['&', 'g', 't', ';'];
    let l = seq!['&', 'l', 't', ';'];
    let a = seq!['&', 'a', 'm', 'p', ';'];
    if c == '"' {
        assert(s.take(6) =~= q);
        assert(s.skip(6) =~= e);
    } else if c == '>' {
        assert(s[1] == 'g');
        assert(!has_prefix(s, q)) by {
            if has_prefix(s, q) {
                assert(s.take(6)[1] == q[1]);
            }
        }
        assert(s.take(4) =~= g);
        assert(s.skip(4) =~= e);
    } else if c == '<' {
        assert(s[1] == 'l');
        assert(!has_prefix(s, q)) by {
            if has_prefix(s, q) {
                assert(s.take(6)[1] == q[1]);
            }
        }
        assert(!has_prefix(s, g)) by {
            if has_prefix(s, g) {
                assert(s.take(4)[1] == g[1]);
            }
        }
        assert(s.take(4) =~= l);
        assert(s.skip(4) =~= e);
    } else if c == '&' {
        assert(s[1] == 'a');
        assert(!has_prefix(s, q)) by {
            if has_prefix(s, q) {
                assert(s.take(6)[1] == q[1]);
            }
        }
        assert(!has_prefix(s, g)) by {
            if has_prefix(s, g) {
                assert(s.take(4)[1] == g[1]);
            }
        }
        assert(!has_prefix(s, l)) by {
            if has_prefix(s, l) {
                assert(s.take(4)[1] == l[1]);
            }
        }
        assert(s.take(5) =~= a);
        assert(s.skip(5) =~= e);
    } else {
        assert(s[0] == c);
        assert(!has_prefix(s, q)) by {
            if has_prefix(s, q) {
                assert(s.take(6)[0] == q[0]);
            }
        }
        assert(!has_prefix(s, g)) by {
            if has_prefix(s, g) {
                assert(s.take(4)[0] == g[0]);
            }
        }
        assert(!has_prefix(s, l)) by {
            if has_prefix(s, l) {
                assert(s.take(4)[0] == l[0]);
            }
        }
        assert(!has_prefix(s, a)) by {
            if has_prefix(s, a) {
                assert(s.take(5)[0] == a[0]);
            }
        }
        assert(s.skip(1) =~= e);
    }
}

/// Escaping loses nothing: reading the entities back gives the text again.
pub proof fn lemma_unescape_escape(t: Seq<char>)
    ensures
        unescape(escape(t)) == t,
    decreases t.len(),
{
    if t.len() > 0 {
        let c = t[0];
        let rest = t.skip(1);
        assert(t =~= seq![c] + rest);
        lemma_escape_concat(seq![c], rest);
        assert(seq![c].drop_last() =~= Seq::<char>::empty());
        assert(escape(Seq::<char>::empty()) =~= Seq::<char>::empty());
        assert(seq![c].last() == c);
        assert(escape(seq![c]) =~= escape_char(c));
        lemma_unescape_char(c, escape(rest));
        lemma_unescape_escape(rest);
        assert(seq![c] + rest =~= t);
    }
}

/// Appends the escaped form of `v[lo..hi]` to `out`.
fn escape_into(out: &mut String, v: &Vec<char>, lo: usize, hi: usize)
    requires
        lo <= hi <= v@.len(),
    ensures
        final(out)@ == old(out)@ + escape(v@.subrange(lo as int, hi as int)),
{
    let mut i = lo;
    while i < hi
        invariant
            lo <= i <= hi <= v@.len(),
            out@ == old(out)@ + escape(v@.subrange(lo as int, i as int)),
        decreases hi - i,
    {
        let c = v[i];
        assert(v@.subrange(lo as int, i + 1).drop_last() =~= v@.subrange(lo as int, i as int));
        if c == '&' {
            out.append("&amp;");
        } else if c == '<' {
            out.append("&lt;");
        } else if c == '>' {
            out.append("&gt;");
        } else if c == '"' {
            out.append("&quot;");
        } else {
            push_char(out, c);
        }
        i = i + 1;
    }
}

/// Escapes `&`, `<`, `>` and `"` as HTML entities.
pub fn escape_html(text: &str) -> (r: String)
    ensures
        r@ == escape(text@),
{
    let v = chars_of(text);
    let mut out = String::new();
    escape_into(&mut out, &v, 0, v.len());
    assert(v@.subrange(0, v@.len() as int) =~= v@);
    out
}

// ===========================================================================
// Inline formatting
// ===========================================================================

/// Inline code: `` `code` ``.
pub const CODE_PATTERN: &'static str = r"`([^`\n]+)`";

/// Image: `![alt](src)`.
pub const IMAGE_PATTERN: &'static str = r"!\[([^\]]*)\]\(([^)\n]+)\)";

/// Link: `[text](href)`.
pub const LINK_PATTERN: &'static str = r"\[([^\]\n]+)\]\(([^)\n]+)\)";

/// Bold and italic together: `***text***` or `___text___`.
pub const BOLD_ITALIC_PATTERN: &'static str = r"\*\*\*(.+?)\*\*\*|___(.+?)___";

/// Bold: `**text**` or `__text__`.
pub const BOLD_PATTERN: &'static str = r"\*\*(.+?)\*\*|__(.+?)__";

/// Italic: `*text*` or `_text_`.
pub const ITALIC_PATTERN: &'static str = r"\*(.+?)\*|_(.+?)_";

/// Strikethrough: `~~text~~`.
pub const STRIKE_PATTERN: &'static str = r"~~(.+?)~~";

/// Ordered list item: digits, a dot, a space and the item's text.
pub const ORDERED_ITEM_PATTERN: &'static str = r"^\d+\. (.+)";

/// The inline rules, in the order in which they are applied.
#[derive(Clone, Copy)]
pub enum InlineRule {
    Code,
    Image,
    Link,
    BoldItalic,
    Bold,
    Italic,
    Strike,
}

/// The pattern that a rule matches.
pub open spec fn rule_pattern(rule: InlineRule) -> Seq<char> {
    match rule {
        InlineRule::Code => CODE_PATTERN@,
        InlineRule::Image => IMAGE_PATTERN@,
        InlineRule::Link => LINK_PATTERN@,
        InlineRule::BoldItalic => BOLD_ITALIC_PATTERN@,
        InlineRule::Bold => BOLD_PATTERN@,
        InlineRule::Italic => ITALIC_PATTERN@,
        InlineRule::Strike => STRIKE_PATTERN@,
    }
}

/// Capture group `i` of a match, if it took part.
pub open spec fn group_at(g: Seq<Option<Seq<char>>>, i: int) -> Option<Seq<char>> {
    if 0 <= i < g.len() {
        g[i]
    } else {
        None
    }
}

/// The text of capture group `i`; empty if it did not take part.
pub open spec fn group_text(g: Seq<Option<Seq<char>>>, i: int) -> Seq<char> {
    match group_at(g, i) {
        Some(t) => t,
        None => seq![],
    }
}

/// The text of group 1 if it took part, else that of group 2 (the two
/// alternatives of the bold and italic patterns).
pub open spec fn either_group(g: Seq<Option<Seq<char>>>) -> Seq<char> {
    match group_at(g, 1) {
        Some(t) => t,
        None => group_text(g, 2),
    }
}

/// The HTML that replaces one match of a rule, given its capture groups.
pub open spec fn replacement(rule: InlineRule, g: Seq<Option<Seq<char>>>) -> Seq<char> {
    match rule {
        InlineRule::Code => "<code>"@ + escape(group_text(g, 1)) + "</code>"@,
        InlineRule::Image => "<img src=\""@ + group_text(g, 2) + "\" alt=\""@ + group_text(g, 1)
            + "\">"@,
        InlineRule::Link => "<a href=\""@ + group_text(g, 2) + "\">"@ + group_text(g, 1)
            + "</a>"@,
        InlineRule::BoldItalic => "<strong><em>"@ + either_group(g) + "</em></strong>"@,
        InlineRule::Bold => "<strong>"@ + either_group(g) + "</strong>"@,
        InlineRule::Italic => "<em>"@ + either_group(g) + "</em>"@,
        InlineRule::Strike => "<del>"@ + group_text(g, 1) + "</del>"@,
    }
}

/// `text` with every match of the rule's pattern replaced by the rule's
/// HTML (`Regex::replace_all`); unchanged if the pattern does not compile.
pub open spec fn apply_rule(rule: InlineRule, text: Seq<char>) -> Seq<char> {
    let p = rule_pattern(rule);
    if regex_compiles(p) {
        interleave(
            regex_split_pieces(p, text),
            regex_match_groups(p, text).map_values(
                |g: Seq<Option<Seq<char>>>| replacement(rule, g),
            ),
        )
    } else {
        text
    }
}

/// Inline formatting outside code spans: images, links, bold and italic
/// together (`***text***`), bold, italic and strikethrough, each applied to
/// the result of the one before.
pub open spec fn outside_code_html(text: Seq<char>) -> Seq<char> {
    apply_rule(
        InlineRule::Strike,
        apply_rule(
            InlineRule::Italic,
            apply_rule(
                InlineRule::Bold,
                apply_rule(
                    InlineRule::BoldItalic,
                    apply_rule(InlineRule::Link, apply_rule(InlineRule::Image, text)),
                ),
            ),
        ),
    )
}

/// The HTML of each code span: `<code>` around its escaped content.
pub open spec fn code_parts(ms: Seq<Seq<Option<Seq<char>>>>) -> Seq<Seq<char>> {
    ms.map_values(|g: Seq<Option<Seq<char>>>| replacement(InlineRule::Code, g))
}

/// Inline formatting. Code spans are found first; the other rules then
/// apply to the whole text with each code span held out by a marker, so
/// that they format around code spans but never inside them; last, each
/// marker becomes the code span's HTML.
pub open spec fn inline_html(text: Seq<char>) -> Seq<char> {
    let p = CODE_PATTERN@;
    if regex_compiles(p) && regex_match_groups(p, text).len() > 0 {
        let ms = regex_match_groups(p, text);
        restore_from(
            outside_code_html(masked_text(regex_split_pieces(p, text), ms.len())),
            0,
            code_parts(ms),
        )
    } else {
        outside_code_html(text)
    }
}

/// Every match of a rule's pattern is rewritten, each by the HTML that its
/// own capture groups give, and the text between matches is kept
/// (`Regex::replace_all`): match `k` becomes `replacement(rule, g_k)` for
/// every `k`.
pub proof fn lemma_rule_rewrites_every_match(rule: InlineRule, text: Seq<char>)
    requires
        regex_compiles(rule_pattern(rule)),
    ensures
        ({
            let p = rule_pattern(rule);
            let ms = regex_match_groups(p, text);
            apply_rule(rule, text) == interleave(
                regex_split_pieces(p, text),
                Seq::new(ms.len(), |k: int| replacement(rule, ms[k])),
            )
        }),
{
    let p = rule_pattern(rule);
    let ms = regex_match_groups(p, text);
    assert(ms.map_values(|g: Seq<Option<Seq<char>>>| replacement(rule, g)) =~= Seq::new(
        ms.len(),
        |k: int| replacement(rule, ms[k]),
    ));
}

/// The pattern of a rule.
fn pattern_of(rule: InlineRule) -> (p: &'static str)
    ensures
        p@ == rule_pattern(rule),
{
    match rule {
        InlineRule::Code => CODE_PATTERN,
        InlineRule::Image => IMAGE_PATTERN,
        InlineRule::Link => LINK_PATTERN,
        InlineRule::BoldItalic => BOLD_ITALIC_PATTERN,
        InlineRule::Bold => BOLD_PATTERN,
        InlineRule::Italic => ITALIC_PATTERN,
        InlineRule::Strike => STRIKE_PATTERN,
    }
}

/// The text of capture group `i`, or `None` if it did not take part.
fn group_of(g: &Vec<Option<String>>, i: usize) -> (r: Option<&String>)
    ensures
        opt_view(match r { Some(s) => Some(*s), None => None }) == group_at(groups_view(g@), i as int),
{
    if i < g.len() {
        match &g[i] {
            Some(s) => Some(s),
            None => None,
        }
    } else {
        None
    }
}

/// Appends the text of capture group `i` (nothing if it did not take part).
fn push_group(out: &mut String, g: &Vec<Option<String>>, i: usize)
    ensures
        final(out)@ == old(out)@ + group_text(groups_view(g@), i as int),
{
    match group_of(g, i) {
        Some(s) => out.append(s.as_str()),
        None => {
            assert(old(out)@ + seq![] =~= old(out)@);
        },
    }
}

/// Appends the text of group 1, or else of group 2.
fn push_either_group(out: &mut String, g: &Vec<Option<String>>)
    ensures
        final(out)@ == old(out)@ + either_group(groups_view(g@)),
{
    match group_of(g, 1) {
        Some(s) => out.append(s.as_str()),
        None => push_group(out, g, 2),
    }
}

/// Appends the HTML that replaces one match of `rule`.
fn push_replacement(out: &mut String, rule: InlineRule, g: &Vec<Option<String>>)
    ensures
        final(out)@ == old(out)@ + replacement(rule, groups_view(g@)),
{
    match rule {
        InlineRule::Code => {
            out.append("<code>");
            let inner = match group_of(g, 1) {
                Some(s) => escape_html(s.as_str()),
                None => {
                    let e = String::new();
                    assert(escape(seq![]) =~= seq![]);
                    e
                },
            };
            out.append(inner.as_str());
            out.append("</code>");
        },
        InlineRule::Image => {
            out.append("<img src=\"");
            push_group(out, g, 2);
            out.append("\" alt=\"");
            push_group(out, g, 1);
            out.append("\">");
        },
        InlineRule::Link => {
            out.append("<a href=\"");
            push_group(out, g, 2);
            out.append("\">");
            push_group(out, g, 1);
            out.append("</a>");
        },
        InlineRule::BoldItalic => {
            out.append("<strong><em>");
            push_either_group(out, g);
            out.append("</em></strong>");
        },
        InlineRule::Bold => {
            out.append("<strong>");
            push_either_group(out, g);
            out.append("</strong>");
        },
        InlineRule::Italic => {
            out.append("<em>");
            push_either_group(out, g);
            out.append("</em>");
        },
        InlineRule::Strike => {
            out.append("<del>");
            push_group(out, g, 1);
            out.append("</del>");
        },
    }
}

/// Rebuilds a text from the pieces between the matches of a rule and the
/// capture groups of the matches: piece 0, the HTML for match 0, piece 1, and
/// so on (`Regex::replace_all` with the rule's replacement).
pub fn replace_matches(rule: InlineRule, pieces: &Vec<String>, groups: &Vec<Vec<Option<String>>>) -> (r: String)
    ensures
        r@ == interleave(
            string_views(pieces@),
            matches_view(groups@).map_values(|g: Seq<Option<Seq<char>>>| replacement(rule, g)),
        ),
{
    let ghost pv = string_views(pieces@);
    let ghost reps = matches_view(groups@).map_values(
        |g: Seq<Option<Seq<char>>>| replacement(rule, g),
    );
    let mut out = String::new();
    let mut k: usize = 0;
    while k < pieces.len()
        invariant
            k <= pieces@.len(),
            pv == string_views(pieces@),
            reps == matches_view(groups@).map_values(
                |g: Seq<Option<Seq<char>>>| replacement(rule, g),
            ),
            out@ == interleave(pv.take(k as int), reps),
        decreases pieces@.len() - k,
    {
        assert(pv.take(k + 1).drop_last() =~= pv.take(k as int));
        if 1 <= k && k - 1 < groups.len() {
            push_replacement(&mut out, rule, &groups[k - 1]);
        }
        out.append(pieces[k].as_str());
        assert(out@ =~= interleave(pv.take(k + 1), reps));
        k = k + 1;
    }
    assert(pv.take(pieces@.len() as int) =~= pv);
    out
}

/// What `interleave` gives when there is one piece and nothing to put
/// between pieces.
proof fn lemma_interleave_single(pieces: Seq<Seq<char>>, reps: Seq<Seq<char>>)
    requires
        pieces.len() == 1,
    ensures
        interleave(pieces, reps) == pieces[0],
{
    assert(pieces.drop_last() =~= Seq::<Seq<char>>::empty());
    assert(interleave(pieces.drop_last(), reps) =~= Seq::<char>::empty());
    assert(interleave(pieces, reps) =~= pieces[0]);
}

/// Applies one inline rule to `text`. Where the rule's pattern does not
/// match, the text is given back as it is.
fn apply_rule_exec(rule: InlineRule, text: &str) -> (r: String)
    ensures
        r@ == apply_rule(rule, text@),
        regex_compiles(rule_pattern(rule)) ==> regex_match_groups(rule_pattern(rule), text@).len()
            == 0 ==> r@ == text@,
{
    let p = pattern_of(rule);
    let pieces = match regex_split(p, text) {
        Ok(v) => v,
        Err(_) => {
            return String::from_str(text);
        },
    };
    let groups = match regex_captures(p, text) {
        Ok(v) => v,
        Err(_) => {
            return String::from_str(text);
        },
    };
    proof {
        if groups@.len() == 0 {
            let pv = regex_split_pieces(p@, text@);
            lemma_interleave_single(
                pv,
                matches_view(groups@).map_values(|g: Seq<Option<Seq<char>>>| match_text(g)),
            );
            lemma_interleave_single(
                pv,
                matches_view(groups@).map_values(|g: Seq<Option<Seq<char>>>| replacement(rule, g)),
            );
        }
    }
    replace_matches(rule, &pieces, &groups)
}

/// No rule other than the code rule matches `text`.
pub open spec fn no_match_outside_code(text: Seq<char>) -> bool {
    forall|rule: InlineRule|
        rule != InlineRule::Code && regex_compiles(rule_pattern(rule)) ==> (
        #[trigger] regex_match_groups(rule_pattern(rule), text)).len() == 0
}

/// Inline formatting of text outside code spans: `![alt](src)`,
/// `[text](href)`, `**bold**`/`__bold__`, `*italic*`/`_italic_` and
/// `~~strike~~`, in that order.
fn format_outside_code(text: &str) -> (r: String)
    ensures
        r@ == outside_code_html(text@),
        no_match_outside_code(text@) ==> r@ == text@,
{
    let s2 = apply_rule_exec(InlineRule::Image, text);
    let s3 = apply_rule_exec(InlineRule::Link, s2.as_str());
    let s3b = apply_rule_exec(InlineRule::BoldItalic, s3.as_str());
    let s4 = apply_rule_exec(InlineRule::Bold, s3b.as_str());
    let s5 = apply_rule_exec(InlineRule::Italic, s4.as_str());
    let r = apply_rule_exec(InlineRule::Strike, s5.as_str());
    proof {
        if no_match_outside_code(text@) {
            assert(regex_compiles(rule_pattern(InlineRule::Image)) ==> regex_match_groups(
                rule_pattern(InlineRule::Image),
                text@,
            ).len() == 0);
            assert(regex_compiles(rule_pattern(InlineRule::Link)) ==> regex_match_groups(
                rule_pattern(InlineRule::Link),
                text@,
            ).len() == 0);
            assert(regex_compiles(rule_pattern(InlineRule::BoldItalic)) ==> regex_match_groups(
                rule_pattern(InlineRule::BoldItalic),
                text@,
            ).len() == 0);
            assert(regex_compiles(rule_pattern(InlineRule::Bold)) ==> regex_match_groups(
                rule_pattern(InlineRule::Bold),
                text@,
            ).len() == 0);
            assert(regex_compiles(rule_pattern(InlineRule::Italic)) ==> regex_match_groups(
                rule_pattern(InlineRule::Italic),
                text@,
            ).len() == 0);
            assert(regex_compiles(rule_pattern(InlineRule::Strike)) ==> regex_match_groups(
                rule_pattern(InlineRule::Strike),
                text@,
            ).len() == 0);
        }
    }
    r
}

/// The text with each code span replaced by its marker, given the pieces
/// between code spans and the number of code spans.
fn mask_code_spans(pieces: &Vec<String>, n: usize) -> (r: String)
    ensures
        r@ == masked_text(string_views(pieces@), n as nat),
{
    let ghost gp = string_views(pieces@).map_values(|p: Seq<char>| guard(p));
    let ghost ms = Seq::new(n as nat, |k: int| marker(k as nat));
    let mut out = String::new();
    let mut k: usize = 0;
    while k < pieces.len()
        invariant
            k <= pieces@.len(),
            gp == string_views(pieces@).map_values(|p: Seq<char>| guard(p)),
            ms == Seq::new(n as nat, |k: int| marker(k as nat)),
            out@ == interleave(gp.take(k as int), ms),
        decreases pieces@.len() - k,
    {
        assert(gp.take(k + 1).drop_last() =~= gp.take(k as int));
        if 1 <= k && k - 1 < n {
            push_marker(&mut out, k - 1);
        }
        push_guarded(&mut out, pieces[k].as_str());
        assert(out@ =~= interleave(gp.take(k + 1), ms));
        k = k + 1;
    }
    assert(gp.take(pieces@.len() as int) =~= gp);
    out
}

/// Rebuilds a text from the pieces between its code spans and the capture
/// groups of the code spans: the other inline rules format the whole text
/// with each code span held out by its marker, then each marker becomes
/// `<code>` around the code span's escaped content.
pub fn protect_code_spans(pieces: &Vec<String>, groups: &Vec<Vec<Option<String>>>) -> (r: String)
    ensures
        r@ == restore_from(
            outside_code_html(masked_text(string_views(pieces@), groups@.len())),
            0,
            code_parts(matches_view(groups@)),
        ),
{
    let masked = mask_code_spans(pieces, groups.len());
    let formatted = format_outside_code(masked.as_str());
    let chars = chars_of(formatted.as_str());
    let mut codes: Vec<String> = Vec::new();
    let mut k: usize = 0;
    while k < groups.len()
        invariant
            k <= groups@.len(),
            codes@.len() == k,
            forall|i: int|
                0 <= i < k ==> (#[trigger] codes@[i])@ == code_parts(matches_view(groups@))[i],
        decreases groups@.len() - k,
    {
        let mut c = String::new();
        push_replacement(&mut c, InlineRule::Code, &groups[k]);
        assert(c@ =~= code_parts(matches_view(groups@))[k as int]);
        codes.push(c);
        k = k + 1;
    }
    assert(codes@.map_values(|p: String| p@) =~= code_parts(matches_view(groups@)));
    restore(&chars, &codes)
}

/// Inline Markdown formatting to HTML. Code spans (`` `code` ``) come
/// first: their content is escaped and protected from the other rules,
/// which then apply to the whole text around them: `![alt](src)`,
/// `[text](href)`, `***both***`/`___both___`, `**bold**`/`__bold__`,
/// `*italic*`/`_italic_` and `~~strike~~`, in that order. Text that no
/// rule matches is given back as it is.
pub fn process_inline(text: &str) -> (r: String)
    ensures
        r@ == inline_html(text@),
        (forall|rule: InlineRule|
            regex_compiles(rule_pattern(rule)) ==> (#[trigger] regex_match_groups(
                rule_pattern(rule),
                text@,
            )).len() == 0) ==> r@ == text@,
{
    let pieces = match regex_split(CODE_PATTERN, text) {
        Ok(v) => v,
        Err(_) => {
            return format_outside_code(text);
        },
    };
    let groups = match regex_captures(CODE_PATTERN, text) {
        Ok(v) => v,
        Err(_) => {
            return format_outside_code(text);
        },
    };
    if groups.len() == 0 {
        let r = format_outside_code(text);
        proof {
            if forall|rule: InlineRule|
                regex_compiles(rule_pattern(rule)) ==> (#[trigger] regex_match_groups(
                    rule_pattern(rule),
                    text@,
                )).len() == 0 {
                assert(no_match_outside_code(text@));
            }
        }
        return r;
    }
    proof {
        assert(regex_compiles(rule_pattern(InlineRule::Code)) ==> regex_match_groups(
            rule_pattern(InlineRule::Code),
            text@,
        ).len() > 0);
    }
    let r = protect_code_spans(&pieces, &groups);
    r
}

// ===========================================================================
// Block structure
// ===========================================================================

/// The blocks that are open between two lines: a fenced code block, an
/// unordered list, an ordered list, a blockquote.
#[derive(Clone, Copy)]
pub struct Blocks {
    pub code: bool,
    pub ul: bool,
    pub ol: bool,
    pub quote: bool,
}

/// No block open: the state before the first line.
pub open spec fn no_blocks() -> Blocks {
    Blocks { code: false, ul: false, ol: false, quote: false }
}

/// The tags that close the open lists and blockquote, in this order.
pub open spec fn closing_tags(ul: bool, ol: bool, quote: bool) -> Seq<char> {
    (if ul {
        "</ul>\n"@
    } else {
        seq![]
    }) + (if ol {
        "</ol>\n"@
    } else {
        seq![]
    }) + (if quote {
        "</blockquote>\n"@
    } else {
        seq![]
    })
}

/// The tags that close the lists and blockquote open in `b`.
pub open spec fn close_text(b: Blocks) -> Seq<char> {
    closing_tags(b.ul, b.ol, b.quote)
}

/// `b` with its lists and blockquote closed.
pub open spec fn closed(b: Blocks) -> Blocks {
    Blocks { code: b.code, ul: false, ol: false, quote: false }
}

/// The heading level that a line's prefix (`# ` to `###### `) gives; 0 if none.
pub open spec fn heading_level(line: Seq<char>) -> int {
    if has_prefix(line, "# "@) {
        1
    } else if has_prefix(line, "## "@) {
        2
    } else if has_prefix(line, "### "@) {
        3
    } else if has_prefix(line, "#### "@) {
        4
    } else if has_prefix(line, "##### "@) {
        5
    } else if has_prefix(line, "###### "@) {
        6
    } else {
        0
    }
}

/// The opening tag of a heading of level `n`.
pub open spec fn heading_open(n: int) -> Seq<char> {
    if n == 1 {
        "<h1>"@
    } else if n == 2 {
        "<h2>"@
    } else if n == 3 {
        "<h3>"@
    } else if n == 4 {
        "<h4>"@
    } else if n == 5 {
        "<h5>"@
    } else {
        "<h6>"@
    }
}

/// The closing tag, with its line ending, of a heading of level `n`.
pub open spec fn heading_close(n: int) -> Seq<char> {
    if n == 1 {
        "</h1>\n"@
    } else if n == 2 {
        "</h2>\n"@
    } else if n == 3 {
        "</h3>\n"@
    } else if n == 4 {
        "</h4>\n"@
    } else if n == 5 {
        "</h5>\n"@
    } else {
        "</h6>\n"@
    }
}

/// A horizontal rule, once trimmed: `---`, `***` or `___`.
pub open spec fn is_rule_line(t: Seq<char>) -> bool {
    t == "---"@ || t == "***"@ || t == "___"@
}

/// What opens a fenced code block whose fence names the language `lang`.
pub open spec fn code_open(lang: Seq<char>) -> Seq<char> {
    if lang.len() == 0 {
        "<pre><code>"@
    } else {
        "<pre><code class=\"language-"@ + escape(lang) + "\">"@
    }
}

/// The text of an ordered list item, given the matches of the ordered-item
/// pattern in the line: capture group 1 of the first match; `None` if there
/// is no match.
pub open spec fn item_of_matches(ms: Seq<Seq<Option<Seq<char>>>>) -> Option<Seq<char>> {
    if ms.len() > 0 {
        Some(group_text(ms[0], 1))
    } else {
        None
    }
}

/// The text of an ordered list item (`1. text`); `None` if the line is none.
pub open spec fn ordered_item(line: Seq<char>) -> Option<Seq<char>> {
    let p = ORDERED_ITEM_PATTERN@;
    if regex_compiles(p) {
        item_of_matches(regex_match_groups(p, line))
    } else {
        None
    }
}

/// The open blocks after one line outside a code block, and the HTML the
/// line gives, for a line that is a blockquote line (`> text`).
pub open spec fn quote_step(b: Blocks, text: Seq<char>) -> (Blocks, Seq<char>) {
    (
        Blocks { code: b.code, ul: false, ol: false, quote: true },
        closing_tags(b.ul, b.ol, false) + (if b.quote {
            seq![]
        } else {
            "<blockquote>\n"@
        }) + "  <p>"@ + inline_html(text) + "</p>\n"@,
    )
}

/// The same for an unordered list item (`- text` or `* text`).
pub open spec fn ul_step(b: Blocks, text: Seq<char>) -> (Blocks, Seq<char>) {
    (
        Blocks { code: b.code, ul: true, ol: false, quote: false },
        closing_tags(false, b.ol, b.quote) + (if b.ul {
            seq![]
        } else {
            "<ul>\n"@
        }) + "  <li>"@ + inline_html(text) + "</li>\n"@,
    )
}

/// The same for an ordered list item.
pub open spec fn ol_step(b: Blocks, text: Seq<char>) -> (Blocks, Seq<char>) {
    (
        Blocks { code: b.code, ul: false, ol: true, quote: false },
        closing_tags(b.ul, false, b.quote) + (if b.ol {
            seq![]
        } else {
            "<ol>\n"@
        }) + "  <li>"@ + inline_html(text) + "</li>\n"@,
    )
}

/// A fence line (```` ``` ````) closes the open code block, or else closes
/// the open blocks and opens a code block.
pub open spec fn fence_step(b: Blocks, line: Seq<char>) -> (Blocks, Seq<char>) {
    if b.code {
        (Blocks { code: false, ul: b.ul, ol: b.ol, quote: b.quote }, "</code></pre>\n"@)
    } else {
        (
            Blocks { code: true, ul: false, ol: false, quote: false },
            close_text(b) + code_open(trim_ws(line.skip(3))),
        )
    }
}

/// A line outside a code block that is a blockquote line, a list item or a
/// paragraph.
pub open spec fn text_step(b: Blocks, line: Seq<char>) -> (Blocks, Seq<char>) {
    if has_prefix(line, "> "@) {
        quote_step(b, line.skip(2))
    } else if has_prefix(line, "- "@) || has_prefix(line, "* "@) {
        ul_step(b, line.skip(2))
    } else if ordered_item(line) is Some {
        ol_step(b, ordered_item(line)->0)
    } else {
        (closed(b), close_text(b) + "<p>"@ + inline_html(line) + "</p>\n"@)
    }
}

/// A line outside a code block that is not a fence.
pub open spec fn outside_step(b: Blocks, line: Seq<char>) -> (Blocks, Seq<char>) {
    if trim_ws(line).len() == 0 {
        (closed(b), close_text(b))
    } else if is_rule_line(trim_ws(line)) {
        (closed(b), close_text(b) + "<hr>\n"@)
    } else if heading_level(line) > 0 {
        let n = heading_level(line);
        (closed(b), close_text(b) + heading_open(n) + inline_html(line.skip(n + 1)) + heading_close(n))
    } else {
        text_step(b, line)
    }
}

/// The open blocks after a line, and the HTML that the line gives.
pub open spec fn line_step(b: Blocks, line: Seq<char>) -> (Blocks, Seq<char>) {
    if has_prefix(line, "```"@) {
        fence_step(b, line)
    } else if b.code {
        (b, escape(line) + "\n"@)
    } else {
        outside_step(b, line)
    }
}

/// The open blocks after the lines `ls`, starting from `b`, and the HTML
/// that the lines give.
pub open spec fn run(b: Blocks, ls: Seq<Seq<char>>) -> (Blocks, Seq<char>)
    decreases ls.len(),
{
    if ls.len() == 0 {
        (b, seq![])
    } else {
        let (b1, o1) = run(b, ls.drop_last());
        let (b2, o2) = line_step(b1, ls.last());
        (b2, o1 + o2)
    }
}

/// What closes the blocks still open at the end of the document.
pub open spec fn finish(b: Blocks) -> Seq<char> {
    close_text(b) + (if b.code {
        "</code></pre>\n"@
    } else {
        seq![]
    })
}

/// The HTML for a Markdown document.
pub open spec fn markdown_html(md: Seq<char>) -> Seq<char> {
    let (b, o) = run(no_blocks(), lines_of(md));
    o + finish(b)
}

/// Closes the open unordered list, ordered list and blockquote.
fn close_blocks(html: &mut String, in_ul: &mut bool, in_ol: &mut bool, in_blockquote: &mut bool)
    ensures
        final(html)@ == old(html)@ + closing_tags(*old(in_ul), *old(in_ol), *old(in_blockquote)),
        !*final(in_ul),
        !*final(in_ol),
        !*final(in_blockquote),
{
    let ghost h0 = html@;
    if *in_ul {
        html.append("</ul>\n");
        *in_ul = false;
    }
    if *in_ol {
        html.append("</ol>\n");
        *in_ol = false;
    }
    if *in_blockquote {
        html.append("</blockquote>\n");
        *in_blockquote = false;
    }
    assert(html@ =~= h0 + closing_tags(*old(in_ul), *old(in_ol), *old(in_blockquote)));
}

/// The heading level of a line, with the bound that the line is long enough
/// for its marker.
fn heading_level_of(line: &Vec<char>) -> (n: usize)
    ensures
        n == heading_level(line@),
        n > 0 ==> n + 1 <= line@.len(),
{
    proof {
        reveal_strlit("# ");
        reveal_strlit("## ");
        reveal_strlit("### ");
        reveal_strlit("#### ");
        reveal_strlit("##### ");
        reveal_strlit("###### ");
    }
    if starts_with_lit(line, "# ") {
        1
    } else if starts_with_lit(line, "## ") {
        2
    } else if starts_with_lit(line, "### ") {
        3
    } else if starts_with_lit(line, "#### ") {
        4
    } else if starts_with_lit(line, "##### ") {
        5
    } else if starts_with_lit(line, "###### ") {
        6
    } else {
        0
    }
}

/// The opening and closing tags of a heading of level `n`.
fn heading_tags(n: usize) -> (r: (&'static str, &'static str))
    ensures
        r.0@ == heading_open(n as int),
        r.1@ == heading_close(n as int),
{
    if n == 1 {
        ("<h1>", "</h1>\n")
    } else if n == 2 {
        ("<h2>", "</h2>\n")
    } else if n == 3 {
        ("<h3>", "</h3>\n")
    } else if n == 4 {
        ("<h4>", "</h4>\n")
    } else if n == 5 {
        ("<h5>", "</h5>\n")
    } else {
        ("<h6>", "</h6>\n")
    }
}

/// The text of an ordered list item, given the capture groups of the matches
/// of the ordered-item pattern in the line.
pub fn ordered_item_text(matches: &Vec<Vec<Option<String>>>) -> (r: Option<String>)
    ensures
        opt_view(r) == item_of_matches(matches_view(matches@)),
{
    if matches.len() > 0 {
        let mut t = String::new();
        push_group(&mut t, &matches[0], 1);
        assert(matches_view(matches@)[0] == groups_view(matches@[0]@));
        Some(t)
    } else {
        None
    }
}

/// The text of an ordered list item, if the line is one.
fn ordered_item_of(line: &str) -> (r: Option<String>)
    ensures
        opt_view(r) == ordered_item(line@),
{
    match regex_captures(ORDERED_ITEM_PATTERN, line) {
        Ok(caps) => ordered_item_text(&caps),
        Err(_) => None,
    }
}

/// Appends the inline HTML of `line[from..]`.
fn push_inline(html: &mut String, line: &Vec<char>, from: usize)
    requires
        from <= line@.len(),
    ensures
        final(html)@ == old(html)@ + inline_html(line@.skip(from as int)),
{
    let text = string_from(line, from, line.len());
    assert(line@.subrange(from as int, line@.len() as int) =~= line@.skip(from as int));
    let r = process_inline(text.as_str());
    html.append(r.as_str());
}

/// Converts a fence line.
fn convert_fence(html: &mut String, b: &mut Blocks, line: &Vec<char>)
    requires
        has_prefix(line@, "```"@),
    ensures
        *final(b) == fence_step(*old(b), line@).0,
        final(html)@ == old(html)@ + fence_step(*old(b), line@).1,
{
    proof {
        reveal_strlit("```");
    }
    let n = line.len();
    let ghost b0 = *b;
    let ghost h0 = html@;
    if b.code {
        html.append("</code></pre>\n");
        b.code = false;
    } else {
        close_blocks(html, &mut b.ul, &mut b.ol, &mut b.quote);
        let (a, z) = trim_bounds(line, 3, n, Strip::Whitespace);
        assert(line@.subrange(3, n as int) =~= line@.skip(3));
        if a == z {
            html.append("<pre><code>");
        } else {
            html.append("<pre><code class=\"language-");
            escape_into(html, line, a, z);
            html.append("\">");
        }
        b.code = true;
        assert(html@ =~= h0 + fence_step(b0, line@).1);
    }
}

/// Converts a blockquote line, whose text starts at `from`.
fn convert_quote(html: &mut String, b: &mut Blocks, line: &Vec<char>, from: usize)
    requires
        from <= line@.len(),
    ensures
        *final(b) == quote_step(*old(b), line@.skip(from as int)).0,
        final(html)@ == old(html)@ + quote_step(*old(b), line@.skip(from as int)).1,
{
    let ghost b0 = *b;
    let ghost h0 = html@;
    if b.ul {
        html.append("</ul>\n");
        b.ul = false;
    }
    if b.ol {
        html.append("</ol>\n");
        b.ol = false;
    }
    if !b.quote {
        html.append("<blockquote>\n");
        b.quote = true;
    }
    html.append("  <p>");
    push_inline(html, line, from);
    html.append("</p>\n");
    assert(html@ =~= h0 + quote_step(b0, line@.skip(from as int)).1);
}

/// Converts an unordered list item, whose text starts at `from`.
fn convert_ul_item(html: &mut String, b: &mut Blocks, line: &Vec<char>, from: usize)
    requires
        from <= line@.len(),
    ensures
        *final(b) == ul_step(*old(b), line@.skip(from as int)).0,
        final(html)@ == old(html)@ + ul_step(*old(b), line@.skip(from as int)).1,
{
    let ghost b0 = *b;
    let ghost h0 = html@;
    if b.ol {
        html.append("</ol>\n");
        b.ol = false;
    }
    if b.quote {
        html.append("</blockquote>\n");
        b.quote = false;
    }
    if !b.ul {
        html.append("<ul>\n");
        b.ul = true;
    }
    html.append("  <li>");
    push_inline(html, line, from);
    html.append("</li>\n");
    assert(html@ =~= h0 + ul_step(b0, line@.skip(from as int)).1);
}

/// Converts an ordered list item whose text is `item`.
fn convert_ol_item(html: &mut String, b: &mut Blocks, item: &str)
    ensures
        *final(b) == ol_step(*old(b), item@).0,
        final(html)@ == old(html)@ + ol_step(*old(b), item@).1,
{
    let ghost b0 = *b;
    let ghost h0 = html@;
    if b.ul {
        html.append("</ul>\n");
        b.ul = false;
    }
    if b.quote {
        html.append("</blockquote>\n");
        b.quote = false;
    }
    if !b.ol {
        html.append("<ol>\n");
        b.ol = true;
    }
    html.append("  <li>");
    let r = process_inline(item);
    html.append(r.as_str());
    html.append("</li>\n");
    assert(html@ =~= h0 + ol_step(b0, item@).1);
}

/// Converts a paragraph line.
fn convert_paragraph(html: &mut String, b: &mut Blocks, line: &str)
    ensures
        *final(b) == closed(*old(b)),
        final(html)@ == old(html)@ + close_text(*old(b)) + "<p>"@ + inline_html(line@) + "</p>\n"@,
{
    let ghost h0 = html@;
    close_blocks(html, &mut b.ul, &mut b.ol, &mut b.quote);
    html.append("<p>");
    let r = process_inline(line);
    html.append(r.as_str());
    html.append("</p>\n");
    assert(html@ =~= h0 + close_text(*old(b)) + "<p>"@ + inline_html(line@) + "</p>\n"@);
}

/// Converts a blockquote line, a list item or a paragraph.
fn convert_text(html: &mut String, b: &mut Blocks, line: &Vec<char>)
    ensures
        *final(b) == text_step(*old(b), line@).0,
        final(html)@ == old(html)@ + text_step(*old(b), line@).1,
{
    proof {
        reveal_strlit("> ");
        reveal_strlit("- ");
        reveal_strlit("* ");
    }
    let n = line.len();
    if starts_with_lit(line, "> ") {
        convert_quote(html, b, line, 2);
    } else if starts_with_lit(line, "- ") || starts_with_lit(line, "* ") {
        convert_ul_item(html, b, line, 2);
    } else {
        let line_str = string_from(line, 0, n);
        assert(line@.subrange(0, n as int) =~= line@);
        match ordered_item_of(line_str.as_str()) {
            Some(item) => convert_ol_item(html, b, item.as_str()),
            None => convert_paragraph(html, b, line_str.as_str()),
        }
    }
}

/// Converts a line outside a code block that is not a fence.
#[verifier::spinoff_prover]
#[verifier::rlimit(40)]
fn convert_outside(html: &mut String, b: &mut Blocks, line: &Vec<char>)
    ensures
        *final(b) == outside_step(*old(b), line@).0,
        final(html)@ == old(html)@ + outside_step(*old(b), line@).1,
{
    let n = line.len();
    let ghost b0 = *b;
    let ghost h0 = html@;
    let (ta, tz) = trim_bounds(line, 0, n, Strip::Whitespace);
    assert(line@.subrange(0, n as int) =~= line@);
    if ta == tz {
        close_blocks(html, &mut b.ul, &mut b.ol, &mut b.quote);
        return;
    }
    if range_eq_lit(line, ta, tz, "---") || range_eq_lit(line, ta, tz, "***") || range_eq_lit(
        line,
        ta,
        tz,
        "___",
    ) {
        close_blocks(html, &mut b.ul, &mut b.ol, &mut b.quote);
        html.append("<hr>\n");
        return;
    }
    let level = heading_level_of(line);
    if level > 0 {
        close_blocks(html, &mut b.ul, &mut b.ol, &mut b.quote);
        let (open, close) = heading_tags(level);
        html.append(open);
        push_inline(html, line, level + 1);
        html.append(close);
        assert(html@ =~= h0 + outside_step(b0, line@).1);
        return;
    }
    convert_text(html, b, line);
}

/// Converts one line: appends its HTML and updates the open blocks.
fn convert_line(html: &mut String, b: &mut Blocks, line: &Vec<char>)
    ensures
        *final(b) == line_step(*old(b), line@).0,
        final(html)@ == old(html)@ + line_step(*old(b), line@).1,
{
    if starts_with_lit(line, "```") {
        convert_fence(html, b, line);
    } else if b.code {
        escape_into(html, line, 0, line.len());
        assert(line@.subrange(0, line@.len() as int) =~= line@);
        html.append("\n");
    } else {
        convert_outside(html, b, line);
    }
}

/// Converts a Markdown document to HTML, line by line: fenced code blocks
/// (escaped), blank lines, horizontal rules, headings, blockquotes,
/// unordered and ordered lists and paragraphs. Blocks still open at the end
/// are closed.
pub fn convert(markdown: &str) -> (html: String)
    ensures
        html@ == markdown_html(markdown@),
{
    let chars = chars_of(markdown);
    let lines = split_lines(&chars);
    let ghost ls = views(lines@);
    let mut html = String::new();
    let mut b = Blocks { code: false, ul: false, ol: false, quote: false };
    let mut i: usize = 0;
    while i < lines.len()
        invariant
            i <= lines@.len(),
            ls == views(lines@),
            ls == lines_of(markdown@),
            run(no_blocks(), ls.take(i as int)) == (b, html@),
        decreases lines@.len() - i,
    {
        assert(ls.take(i + 1).drop_last() =~= ls.take(i as int));
        assert(ls.take(i + 1).last() == lines@[i as int]@);
        convert_line(&mut html, &mut b, &lines[i]);
        i = i + 1;
    }
    assert(ls.take(lines@.len() as int) =~= ls);
    close_blocks(&mut html, &mut b.ul, &mut b.ol, &mut b.quote);
    if b.code {
        html.append("</code></pre>\n");
    }
    assert(html@ =~= markdown_html(markdown@));
    html
}

// ===========================================================================
// Laws of the kinds of lines
// ===========================================================================

/// A line that starts with `p` starts with `p`'s first character.
proof fn lemma_prefix_first(line: Seq<char>, p: Seq<char>)
    requires
        p.len() > 0,
        has_prefix(line, p),
    ensures
        line[0] == p[0],
{
    assert(line.take(p.len() as int)[0] == p[0]);
}

/// What the first character of a line decides of its kind: a fence starts
/// with `` ` ``, a heading with `#`, a horizontal rule (once trimmed) with
/// `-`, `*` or `_` followed by the same character, a blockquote line with
/// `>`, an unordered item with `-` or `*`.
proof fn lemma_line_kind_facts(line: Seq<char>)
    requires
        line.len() > 0,
        !is_white_space(line[0]),
    ensures
        trim_ws(line).len() > 0,
        has_prefix(line, "```"@) ==> line[0] == '`',
        heading_level(line) > 0 ==> line[0] == '#',
        is_rule_line(trim_ws(line)) ==> line.len() >= 2 && line[1] == line[0] && (line[0] == '-'
            || line[0] == '*' || line[0] == '_'),
        has_prefix(line, "> "@) ==> line[0] == '>',
        has_prefix(line, "- "@) ==> line[0] == '-',
        has_prefix(line, "* "@) ==> line[0] == '*',
{
    reveal_strlit("```");
    reveal_strlit("# ");
    reveal_strlit("## ");
    reveal_strlit("### ");
    reveal_strlit("#### ");
    reveal_strlit("##### ");
    reveal_strlit("###### ");
    reveal_strlit("---");
    reveal_strlit("***");
    reveal_strlit("___");
    reveal_strlit("> ");
    reveal_strlit("- ");
    reveal_strlit("* ");
    lemma_trim_first_kept(line);
    let t = trim_ws(line);
    if has_prefix(line, "```"@) {
        lemma_prefix_first(line, "```"@);
    }
    if has_prefix(line, "# "@) {
        lemma_prefix_first(line, "# "@);
    }
    if has_prefix(line, "## "@) {
        lemma_prefix_first(line, "## "@);
    }
    if has_prefix(line, "### "@) {
        lemma_prefix_first(line, "### "@);
    }
    if has_prefix(line, "#### "@) {
        lemma_prefix_first(line, "#### "@);
    }
    if has_prefix(line, "##### "@) {
        lemma_prefix_first(line, "##### "@);
    }
    if has_prefix(line, "###### "@) {
        lemma_prefix_first(line, "###### "@);
    }
    if is_rule_line(t) {
        assert(t.len() == 3);
        assert(line.take(3)[1] == line[1]);
        assert(line.take(3)[0] == line[0]);
        assert(t[1] == line[1]);
    }
    if has_prefix(line, "> "@) {
        lemma_prefix_first(line, "> "@);
    }
    if has_prefix(line, "- "@) {
        lemma_prefix_first(line, "- "@);
    }
    if has_prefix(line, "* "@) {
        lemma_prefix_first(line, "* "@);
    }
}

/// A blockquote line `> t` outside a code block: the open lists are closed;
/// if no blockquote is open, one is opened; then the line adds one
/// paragraph holding the inline HTML of `t`. A blockquote that is already
/// open stays open: the line adds only its paragraph.
pub proof fn lemma_quote_line(b: Blocks, t: Seq<char>)
    requires
        !b.code,
    ensures
        line_step(b, "> "@ + t) == (
            Blocks { code: false, ul: false, ol: false, quote: true },
            closing_tags(b.ul, b.ol, false) + (if b.quote {
                Seq::<char>::empty()
            } else {
                "<blockquote>\n"@
            }) + "  <p>"@ + inline_html(t) + "</p>\n"@,
        ),
        b.quote && !b.ul && !b.ol ==> line_step(b, "> "@ + t) == (b, "  <p>"@ + inline_html(t)
            + "</p>\n"@),
{
    reveal_strlit("> ");
    let line = "> "@ + t;
    assert(line[0] == '>');
    assert(line[1] == ' ');
    lemma_line_kind_facts(line);
    assert(line.take(2) =~= "> "@);
    assert(line.skip(2) =~= t);
    assert(closing_tags(false, false, false) =~= Seq::<char>::empty());
    assert(Seq::<char>::empty() + Seq::<char>::empty() + "  <p>"@ =~= "  <p>"@);
}

/// The paragraphs of a blockquote whose lines hold the texts `ts`.
pub open spec fn quote_paragraphs(ts: Seq<Seq<char>>) -> Seq<char>
    decreases ts.len(),
{
    if ts.len() == 0 {
        seq![]
    } else {
        quote_paragraphs(ts.drop_last()) + "  <p>"@ + inline_html(ts.last()) + "</p>\n"@
    }
}

/// Consecutive blockquote lines make one blockquote, one paragraph per line,
/// closed at the end of the document.
pub proof fn lemma_consecutive_quote_lines(ts: Seq<Seq<char>>)
    requires
        ts.len() > 0,
    ensures
        run(no_blocks(), ts.map_values(|t: Seq<char>| "> "@ + t)) == (
            Blocks { code: false, ul: false, ol: false, quote: true },
            "<blockquote>\n"@ + quote_paragraphs(ts),
        ),
        ({
            let (b, o) = run(no_blocks(), ts.map_values(|t: Seq<char>| "> "@ + t));
            o + finish(b) == "<blockquote>\n"@ + quote_paragraphs(ts) + "</blockquote>\n"@
        }),
    decreases ts.len(),
{
    let ls = ts.map_values(|t: Seq<char>| "> "@ + t);
    let init = ts.drop_last();
    assert(ls.drop_last() =~= init.map_values(|t: Seq<char>| "> "@ + t));
    assert(ls.last() == "> "@ + ts.last());
    let q = Blocks { code: false, ul: false, ol: false, quote: true };
    let (b1, o1) = run(no_blocks(), ls.drop_last());
    let (b2, o2) = line_step(b1, ls.last());
    assert(run(no_blocks(), ls) == (b2, o1 + o2));
    if ts.len() == 1 {
        assert(ls.drop_last() =~= Seq::<Seq<char>>::empty());
        assert(run(no_blocks(), Seq::<Seq<char>>::empty()) == (no_blocks(), Seq::<char>::empty()));
        assert(b1 == no_blocks() && o1 == Seq::<char>::empty());
        lemma_quote_line(no_blocks(), ts.last());
        assert(closing_tags(false, false, false) =~= Seq::<char>::empty());
        assert(init =~= Seq::<Seq<char>>::empty());
        assert(quote_paragraphs(init) =~= Seq::<char>::empty());
        assert(o1 + o2 =~= "<blockquote>\n"@ + quote_paragraphs(ts));
    } else {
        lemma_consecutive_quote_lines(init);
        assert(b1 == q);
        lemma_quote_line(q, ts.last());
        assert(o1 + o2 =~= "<blockquote>\n"@ + quote_paragraphs(ts));
    }
    let (b, o) = run(no_blocks(), ls);
    assert(finish(q) =~= "</blockquote>\n"@);
}

/// An unordered list item `- t` or `* t` outside a code block: the ordered
/// list and blockquote are closed, an unordered list is opened unless one
/// is open, and the line adds one item holding the inline HTML of `t`.
pub proof fn lemma_unordered_item(b: Blocks, star: bool, t: Seq<char>)
    requires
        !b.code,
    ensures
        line_step(b, (if star { "* "@ } else { "- "@ }) + t) == (
            Blocks { code: false, ul: true, ol: false, quote: false },
            closing_tags(false, b.ol, b.quote) + (if b.ul {
                Seq::<char>::empty()
            } else {
                "<ul>\n"@
            }) + "  <li>"@ + inline_html(t) + "</li>\n"@,
        ),
{
    reveal_strlit("- ");
    reveal_strlit("* ");
    let m = if star { "* "@ } else { "- "@ };
    let line = m + t;
    assert(line[0] == m[0]);
    assert(line[1] == ' ');
    lemma_line_kind_facts(line);
    assert(line.take(2) =~= m);
    assert(line.skip(2) =~= t);
}

/// A line that differs from `p` at an index within both is not prefixed by
/// `p`.
proof fn lemma_not_prefix_at(line: Seq<char>, p: Seq<char>, i: int)
    requires
        0 <= i < p.len(),
        i < line.len(),
        line[i] != p[i],
    ensures
        !has_prefix(line, p),
{
    if has_prefix(line, p) {
        assert(line.take(p.len() as int)[i] == p[i]);
    }
}

/// `n` number signs.
pub open spec fn hashes(n: nat) -> Seq<char> {
    Seq::new(n, |i: int| '#')
}

/// A heading line: `n` number signs (one to six), a space and the text
/// `t`, outside a code block, closes the open lists and blockquote and
/// gives `<hN>`, the inline HTML of `t` and `</hN>`.
pub proof fn lemma_heading_line(b: Blocks, n: nat, t: Seq<char>)
    requires
        !b.code,
        1 <= n <= 6,
    ensures
        line_step(b, hashes(n) + seq![' '] + t) == (
            Blocks { code: false, ul: false, ol: false, quote: false },
            close_text(b) + "<h"@ + seq![digit_char(n)] + ">"@ + inline_html(t) + "</h"@ + seq![
                digit_char(n),
            ] + ">\n"@,
        ),
{
    reveal_strlit("# ");
    reveal_strlit("## ");
    reveal_strlit("### ");
    reveal_strlit("#### ");
    reveal_strlit("##### ");
    reveal_strlit("###### ");
    reveal_strlit("<h1>");
    reveal_strlit("<h2>");
    reveal_strlit("<h3>");
    reveal_strlit("<h4>");
    reveal_strlit("<h5>");
    reveal_strlit("<h6>");
    reveal_strlit("</h1>\n");
    reveal_strlit("</h2>\n");
    reveal_strlit("</h3>\n");
    reveal_strlit("</h4>\n");
    reveal_strlit("</h5>\n");
    reveal_strlit("</h6>\n");
    reveal_strlit("<h");
    reveal_strlit(">");
    reveal_strlit("</h");
    reveal_strlit(">\n");
    let line = hashes(n) + seq![' '] + t;
    assert(line[0] == '#');
    assert(line[n as int] == ' ');
    assert forall|i: int| 0 <= i < n implies line[i] == '#' by {}
    lemma_line_kind_facts(line);
    if n > 1 {
        lemma_not_prefix_at(line, "# "@, 1);
    }
    if n > 2 {
        lemma_not_prefix_at(line, "## "@, 2);
    }
    if n > 3 {
        lemma_not_prefix_at(line, "### "@, 3);
    }
    if n > 4 {
        lemma_not_prefix_at(line, "#### "@, 4);
    }
    if n > 5 {
        lemma_not_prefix_at(line, "##### "@, 5);
    }
    assert(line.take((n + 1) as int) =~= hashes(n) + seq![' ']);
    if n == 1 {
        assert(hashes(n) + seq![' '] =~= "# "@);
    } else if n == 2 {
        assert(hashes(n) + seq![' '] =~= "## "@);
    } else if n == 3 {
        assert(hashes(n) + seq![' '] =~= "### "@);
    } else if n == 4 {
        assert(hashes(n) + seq![' '] =~= "#### "@);
    } else if n == 5 {
        assert(hashes(n) + seq![' '] =~= "##### "@);
    } else {
        assert(hashes(n) + seq![' '] =~= "###### "@);
    }
    assert(heading_level(line) == n);
    assert(line.skip((n + 1) as int) =~= t);
    assert(heading_open(n as int) =~= "<h"@ + seq![digit_char(n)] + ">"@);
    assert(heading_close(n as int) =~= "</h"@ + seq![digit_char(n)] + ">\n"@);
}

/// A horizontal rule (`---`, `***` or `___`, with any whitespace around)
/// outside a code block closes the open lists and blockquote and gives
/// `<hr>`.
pub proof fn lemma_rule_line(b: Blocks, line: Seq<char>)
    requires
        !b.code,
        is_rule_line(trim_ws(line)),
    ensures
        line_step(b, line) == (
            Blocks { code: false, ul: false, ol: false, quote: false },
            close_text(b) + "<hr>\n"@,
        ),
{
    reveal_strlit("```");
    reveal_strlit("---");
    reveal_strlit("***");
    reveal_strlit("___");
    assert(trim_ws(line).len() == 3);
    if has_prefix(line, "```"@) {
        lemma_prefix_first(line, "```"@);
        lemma_trim_first_kept(line);
        assert(trim_ws(line)[0] == '`');
    }
}

/// A line that starts with none of the characters that begin another kind
/// of line, and that is no ordered list item, is a paragraph: outside a
/// code block it closes the open lists and blockquote and gives `<p>`, the
/// inline HTML of the whole line and `</p>`.
pub proof fn lemma_paragraph_line(b: Blocks, line: Seq<char>)
    requires
        !b.code,
        line.len() > 0,
        !is_white_space(line[0]),
        line[0] != '`' && line[0] != '#' && line[0] != '>' && line[0] != '-' && line[0] != '*'
            && line[0] != '_',
        ordered_item(line) is None,
    ensures
        line_step(b, line) == (
            Blocks { code: false, ul: false, ol: false, quote: false },
            close_text(b) + "<p>"@ + inline_html(line) + "</p>\n"@,
        ),
{
    lemma_line_kind_facts(line);
}

/// A fence line (```` ```lang ````) outside a code block closes the open
/// lists and blockquote and opens a code block, with the escaped language
/// as its class when there is one; inside a code block it closes the code
/// block and nothing else.
pub proof fn lemma_fence_line(b: Blocks, rest: Seq<char>)
    ensures
        !b.code ==> line_step(b, "```"@ + rest) == (
            Blocks { code: true, ul: false, ol: false, quote: false },
            close_text(b) + (if trim_ws(rest).len() == 0 {
                "<pre><code>"@
            } else {
                "<pre><code class=\"language-"@ + escape(trim_ws(rest)) + "\">"@
            }),
        ),
        b.code ==> line_step(b, "```"@ + rest) == (
            Blocks { code: false, ul: b.ul, ol: b.ol, quote: b.quote },
            "</code></pre>\n"@,
        ),
{
    reveal_strlit("```");
    let line = "```"@ + rest;
    assert(line.take(3) =~= "```"@);
    assert(line.skip(3) =~= rest);
}

/// What each inline rule writes for one match, given the match's capture
/// groups: a code span's content escaped in `<code>`, an image's source and
/// alternative text, a link's target and text, and the bold, italic and
/// struck text in their tags (group 1, or group 2 for the `__`/`_`
/// alternative).
pub proof fn lemma_inline_replacements(g: Seq<Option<Seq<char>>>)
    ensures
        replacement(InlineRule::Code, g) == "<code>"@ + escape(group_text(g, 1)) + "</code>"@,
        replacement(InlineRule::Image, g) == "<img src=\""@ + group_text(g, 2) + "\" alt=\""@
            + group_text(g, 1) + "\">"@,
        replacement(InlineRule::Link, g) == "<a href=\""@ + group_text(g, 2) + "\">"@ + group_text(
            g,
            1,
        ) + "</a>"@,
        replacement(InlineRule::BoldItalic, g) == "<strong><em>"@ + (if group_at(g, 1) is Some {
            group_text(g, 1)
        } else {
            group_text(g, 2)
        }) + "</em></strong>"@,
        replacement(InlineRule::Bold, g) == "<strong>"@ + (if group_at(g, 1) is Some {
            group_text(g, 1)
        } else {
            group_text(g, 2)
        }) + "</strong>"@,
        replacement(InlineRule::Italic, g) == "<em>"@ + (if group_at(g, 1) is Some {
            group_text(g, 1)
        } else {
            group_text(g, 2)
        }) + "</em>"@,
        replacement(InlineRule::Strike, g) == "<del>"@ + group_text(g, 1) + "</del>"@,
{
}

/// A blank line closes the one block that is open and gives its closing
/// tag: `</ul>` after an unordered list, `</ol>` after an ordered one,
/// `</blockquote>` after a blockquote. At the end of the document the open
/// block is closed the same way, and an open code block with
/// `</code></pre>`.
pub proof fn lemma_closing_each_block()
    ensures
        line_step(Blocks { code: false, ul: true, ol: false, quote: false }, Seq::<char>::empty())
            == (no_blocks(), "</ul>\n"@),
        line_step(Blocks { code: false, ul: false, ol: true, quote: false }, Seq::<char>::empty())
            == (no_blocks(), "</ol>\n"@),
        line_step(Blocks { code: false, ul: false, ol: false, quote: true }, Seq::<char>::empty())
            == (no_blocks(), "</blockquote>\n"@),
        finish(Blocks { code: false, ul: true, ol: false, quote: false }) == "</ul>\n"@,
        finish(Blocks { code: false, ul: false, ol: true, quote: false }) == "</ol>\n"@,
        finish(Blocks { code: false, ul: false, ol: false, quote: true }) == "</blockquote>\n"@,
        finish(Blocks { code: true, ul: false, ol: false, quote: false }) == "</code></pre>\n"@,
        finish(no_blocks()) == Seq::<char>::empty(),
{
    let e = Seq::<char>::empty();
    assert(trim_ws(e) =~= e);
    lemma_blank_line_closes_blocks(Blocks { code: false, ul: true, ol: false, quote: false }, e);
    lemma_blank_line_closes_blocks(Blocks { code: false, ul: false, ol: true, quote: false }, e);
    lemma_blank_line_closes_blocks(Blocks { code: false, ul: false, ol: false, quote: true }, e);
    assert(closing_tags(true, false, false) =~= "</ul>\n"@);
    assert(closing_tags(false, true, false) =~= "</ol>\n"@);
    assert(closing_tags(false, false, true) =~= "</blockquote>\n"@);
    assert(closing_tags(false, false, false) =~= e);
    assert(finish(Blocks { code: true, ul: false, ol: false, quote: false }) =~= "</code></pre>\n"@);
    assert(finish(no_blocks()) =~= e);
    assert(finish(Blocks { code: false, ul: true, ol: false, quote: false }) =~= "</ul>\n"@);
    assert(finish(Blocks { code: false, ul: false, ol: true, quote: false }) =~= "</ol>\n"@);
    assert(finish(Blocks { code: false, ul: false, ol: false, quote: true }) =~= "</blockquote>\n"@);
}

/// The inline rules outside code spans apply in this order: images, links,
/// bold and italic together, bold, italic, strikethrough; each one to the
/// result of the one before.
pub proof fn lemma_inline_rule_order(t: Seq<char>)
    ensures
        ({
            let s1 = apply_rule(InlineRule::Image, t);
            let s2 = apply_rule(InlineRule::Link, s1);
            let s3 = apply_rule(InlineRule::BoldItalic, s2);
            let s4 = apply_rule(InlineRule::Bold, s3);
            let s5 = apply_rule(InlineRule::Italic, s4);
            outside_code_html(t) == apply_rule(InlineRule::Strike, s5)
        }),
{
}

/// An ordered list item whose text is `t` (a line that the ordered-item
/// pattern matches and that is none of the kinds checked before it) gets
/// its item the way an unordered one does: the unordered list and
/// blockquote are closed, an ordered list is opened unless one is open, and
/// the line adds one item holding the inline HTML of `t`.
pub proof fn lemma_ordered_item(b: Blocks, line: Seq<char>, t: Seq<char>)
    requires
        !b.code,
        !has_prefix(line, "```"@),
        trim_ws(line).len() > 0,
        !is_rule_line(trim_ws(line)),
        heading_level(line) == 0,
        !has_prefix(line, "> "@),
        !has_prefix(line, "- "@),
        !has_prefix(line, "* "@),
        ordered_item(line) == Some(t),
    ensures
        line_step(b, line) == (
            Blocks { code: false, ul: false, ol: true, quote: false },
            closing_tags(b.ul, false, b.quote) + (if b.ol {
                Seq::<char>::empty()
            } else {
                "<ol>\n"@
            }) + "  <li>"@ + inline_html(t) + "</li>\n"@,
        ),
{
}

// ===========================================================================
// Laws of the block structure
// ===========================================================================

/// At most one of a code block, an unordered list, an ordered list and a
/// blockquote is open.
pub open spec fn at_most_one_open(b: Blocks) -> bool {
    &&& !(b.code && b.ul)
    &&& !(b.code && b.ol)
    &&& !(b.code && b.quote)
    &&& !(b.ul && b.ol)
    &&& !(b.ul && b.quote)
    &&& !(b.ol && b.quote)
}

/// Closing the blocks twice closes nothing the second time: once closed,
/// no list or blockquote is open and the closing tags are empty.
pub proof fn lemma_close_twice_adds_nothing(b: Blocks)
    ensures
        close_text(closed(b)) == Seq::<char>::empty(),
        closed(closed(b)) == closed(b),
{
    assert(close_text(closed(b)) =~= Seq::<char>::empty());
}

/// Blocks never nest: whatever the lines, at most one block is open after
/// them (opening a list, a blockquote or a code block closes the others).
pub proof fn lemma_blocks_never_nest(ls: Seq<Seq<char>>)
    ensures
        at_most_one_open(run(no_blocks(), ls).0),
    decreases ls.len(),
{
    if ls.len() > 0 {
        lemma_blocks_never_nest(ls.drop_last());
    }
}

/// A line that trims to nothing does not open a code block.
proof fn lemma_blank_not_fence(line: Seq<char>)
    requires
        trim_ws(line).len() == 0,
    ensures
        !has_prefix(line, "```"@),
{
    reveal_strlit("```");
    if has_prefix(line, "```"@) {
        assert(line[0] == '`') by {
            assert(line.take(3)[0] == "```"@[0]);
        }
        lemma_trim_empty_first(line, Strip::Whitespace);
    }
}

/// Outside a code block, a blank line closes the open lists and blockquote
/// and gives nothing but their closing tags.
pub proof fn lemma_blank_line_closes_blocks(b: Blocks, line: Seq<char>)
    requires
        !b.code,
        trim_ws(line).len() == 0,
    ensures
        line_step(b, line) == (closed(b), close_text(b)),
{
    lemma_blank_not_fence(line);
}

/// The HTML of lines inside a code block: each escaped, on a line of its own.
pub open spec fn escaped_lines(ls: Seq<Seq<char>>) -> Seq<char>
    decreases ls.len(),
{
    if ls.len() == 0 {
        seq![]
    } else {
        escaped_lines(ls.drop_last()) + escape(ls.last()) + "\n"@
    }
}

/// Inside a code block, lines are not Markdown: until the closing fence each
/// line is given escaped, as it is, and no tag can come out of it.
pub proof fn lemma_code_block_verbatim(b: Blocks, ls: Seq<Seq<char>>)
    requires
        b.code,
        forall|i: int| 0 <= i < ls.len() ==> !has_prefix(#[trigger] ls[i], "```"@),
    ensures
        run(b, ls) == (b, escaped_lines(ls)),
        forall|i: int|
            0 <= i < escaped_lines(ls).len() ==> escaped_lines(ls)[i] != '<' && escaped_lines(
                ls,
            )[i] != '>',
    decreases ls.len(),
{
    reveal_strlit("\n");
    if ls.len() > 0 {
        let init = ls.drop_last();
        assert forall|i: int| 0 <= i < init.len() implies !has_prefix(#[trigger] init[i], "```"@) by {
            assert(init[i] == ls[i]);
        }
        lemma_code_block_verbatim(b, init);
        assert(!has_prefix(ls[ls.len() - 1], "```"@));
        lemma_escape_no_markup(ls.last());
        let a = escaped_lines(init);
        let e = escape(ls.last());
        let all = escaped_lines(ls);
        assert(all == a + e + "\n"@);
        assert forall|i: int| 0 <= i < all.len() implies all[i] != '<' && all[i] != '>' by {
            if i < a.len() {
                assert(all[i] == a[i]);
            } else if i < a.len() + e.len() {
                assert(all[i] == e[i - a.len()]);
            } else {
                assert(all[i] == "\n"@[i - a.len() - e.len()]);
            }
        }
    }
}

/// Every character of `l` is whitespace.
pub open spec fn all_white(l: Seq<char>) -> bool {
    forall|j: int| 0 <= j < l.len() ==> is_white_space(#[trigger] l[j])
}

/// Lines that hold nothing but whitespace leave no block open and give no HTML.
proof fn lemma_blank_lines_give_nothing(ls: Seq<Seq<char>>)
    requires
        forall|i: int| 0 <= i < ls.len() ==> all_white(#[trigger] ls[i]),
    ensures
        run(no_blocks(), ls) == (no_blocks(), Seq::<char>::empty()),
    decreases ls.len(),
{
    if ls.len() > 0 {
        let init = ls.drop_last();
        assert forall|i: int| 0 <= i < init.len() implies all_white(#[trigger] init[i]) by {
            assert(init[i] == ls[i]);
        }
        lemma_blank_lines_give_nothing(init);
        let line = ls.last();
        assert(all_white(ls[ls.len() - 1]));
        assert forall|j: int| 0 <= j < line.len() implies strips(Strip::Whitespace, #[trigger] line[j]) by {
            assert(is_white_space(line[j]));
        }
        lemma_trim_all_stripped(line, Strip::Whitespace);
        lemma_blank_line_closes_blocks(no_blocks(), line);
        assert(closing_tags(false, false, false) =~= Seq::<char>::empty());
        assert(Seq::<char>::empty() + Seq::<char>::empty() =~= Seq::<char>::empty());
    }
}

/// A document whose lines hold nothing but whitespace converts to nothing.
pub proof fn lemma_blank_document(md: Seq<char>)
    requires
        forall|i: int| 0 <= i < lines_of(md).len() ==> all_white(#[trigger] lines_of(md)[i]),
    ensures
        markdown_html(md) == Seq::<char>::empty(),
{
    lemma_blank_lines_give_nothing(lines_of(md));
    assert(closing_tags(false, false, false) =~= Seq::<char>::empty());
    assert(finish(no_blocks()) =~= Seq::<char>::empty());
    assert(Seq::<char>::empty() + Seq::<char>::empty() =~= Seq::<char>::empty());
}

/// The number of fence lines (```` ``` ````) among `ls`.
pub open spec fn fence_count(ls: Seq<Seq<char>>) -> nat
    decreases ls.len(),
{
    if ls.len() == 0 {
        0
    } else {
        fence_count(ls.drop_last()) + (if has_prefix(ls.last(), "```"@) {
            1nat
        } else {
            0nat
        })
    }
}

/// Each fence line opens or closes a code block, and no other line does:
/// a code block is open after the lines exactly when an odd number of them
/// are fences (starting with none open).
pub proof fn lemma_code_block_parity(b: Blocks, ls: Seq<Seq<char>>)
    ensures
        run(b, ls).0.code == (b.code != (fence_count(ls) % 2 == 1)),
    decreases ls.len(),
{
    if ls.len() > 0 {
        lemma_code_block_parity(b, ls.drop_last());
    }
}

/// Converting lines one after the other: the HTML of `xs + ys` is that of
/// `xs`, then that of `ys` from the blocks `xs` left open.
pub proof fn lemma_run_concat(b: Blocks, xs: Seq<Seq<char>>, ys: Seq<Seq<char>>)
    ensures
        run(b, xs + ys) == (run(run(b, xs).0, ys).0, run(b, xs).1 + run(run(b, xs).0, ys).1),
    decreases ys.len(),
{
    if ys.len() == 0 {
        assert(xs + ys =~= xs);
        assert(run(b, xs).1 + Seq::<char>::empty() =~= run(b, xs).1);
    } else {
        assert((xs + ys).drop_last() =~= xs + ys.drop_last());
        assert((xs + ys).last() == ys.last());
        lemma_run_concat(b, xs, ys.drop_last());
        let (b1, o1) = run(b, xs);
        let (b2, o2) = run(b1, ys.drop_last());
        let (b3, o3) = line_step(b2, ys.last());
        assert(o1 + o2 + o3 =~= o1 + (o2 + o3));
    }
}

/// A blank line after lines that leave no code block open closes every
/// block.
proof fn lemma_blank_after(b: Blocks)
    requires
        !b.code,
    ensures
        run(b, seq![Seq::<char>::empty()]) == (no_blocks(), close_text(b)),
{
    let e = Seq::<char>::empty();
    let ls = seq![e];
    assert(ls.drop_last() =~= Seq::<Seq<char>>::empty());
    assert(ls.last() == e);
    assert(run(b, Seq::<Seq<char>>::empty()) == (b, Seq::<char>::empty()));
    assert(trim_ws(e) =~= e);
    lemma_blank_line_closes_blocks(b, e);
    assert(line_step(b, ls.last()) == (closed(b), close_text(b)));
    assert(closed(b) == no_blocks());
    assert(Seq::<char>::empty() + close_text(b) =~= close_text(b));
}

/// The blank lines that a blank line after `a` gives: one, or two when `a`
/// already ends with a line ending.
pub open spec fn blanks_after(a: Seq<char>) -> Seq<Seq<char>> {
    if line_scan(a).1.len() > 0 {
        seq![Seq::<char>::empty()]
    } else {
        seq![Seq::<char>::empty(), Seq::<char>::empty()]
    }
}

/// The lines of `a`, a blank line and `b`.
proof fn lemma_lines_around_blank(a: Seq<char>, b: Seq<char>)
    requires
        a.len() == 0 || a.last() != '\r',
    ensures
        lines_of(a + "\n\n"@ + b) == lines_of(a) + blanks_after(a) + lines_of(b),
{
    reveal_strlit("\n\n");
    let nl = seq!['\n'];
    let e = Seq::<char>::empty();
    let (d, cur) = line_scan(a);
    let x = a + nl;
    assert(x.drop_last() =~= a);
    assert(x.last() == '\n');
    if cur.len() > 0 {
        lemma_line_scan_open_last(a);
    }
    assert(crate::text::strip_cr(cur) == cur);
    assert(line_scan(x) == (d.push(cur), e));
    let y = nl + b;
    assert(a + "\n\n"@ + b =~= x + y);
    lemma_lines_of_concat(x, y);
    assert(nl.drop_last() =~= e);
    assert(line_scan(e) == (Seq::<Seq<char>>::empty(), e));
    assert(crate::text::strip_cr(e) == e);
    assert(Seq::<Seq<char>>::empty().push(e) =~= seq![e]);
    assert(line_scan(nl) == (seq![e], e));
    lemma_lines_of_concat(nl, b);
    if cur.len() > 0 {
        assert(d.push(cur) + (seq![e] + lines_of(b)) =~= lines_of(a) + blanks_after(a) + lines_of(b));
    } else {
        assert(d.push(cur) + (seq![e] + lines_of(b)) =~= lines_of(a) + blanks_after(a) + lines_of(b));
    }
}

/// Blank lines after lines that leave no code block open close every block
/// and give nothing but the closing tags.
proof fn lemma_blanks_after(b: Blocks, bl: Seq<Seq<char>>)
    requires
        !b.code,
        bl == seq![Seq::<char>::empty()] || bl == seq![Seq::<char>::empty(), Seq::<char>::empty()],
    ensures
        run(b, bl) == (no_blocks(), close_text(b)),
{
    let e = Seq::<char>::empty();
    lemma_blank_after(b);
    if bl.len() == 2 {
        assert(bl =~= seq![e] + seq![e]);
        lemma_run_concat(b, seq![e], seq![e]);
        lemma_blank_after(no_blocks());
        assert(close_text(no_blocks()) =~= e);
        assert(close_text(b) + e =~= close_text(b));
    }
}

/// A blank line splits a document into two that convert independently: a
/// blank line closes every open block, so the HTML of `a`, a blank line and
/// `b` is the HTML of `a` followed by that of `b`. This needs `a` to leave
/// no code block open (an even number of fence lines), and `a` not to end
/// with a `'\r'`, which the line ending after it would drop.
pub proof fn lemma_blank_line_splits_document(a: Seq<char>, b: Seq<char>)
    requires
        fence_count(lines_of(a)) % 2 == 0,
        a.len() == 0 || a.last() != '\r',
    ensures
        markdown_html(a + "\n\n"@ + b) == markdown_html(a) + markdown_html(b),
{
    let la = lines_of(a);
    let lb = lines_of(b);
    let bl = blanks_after(a);
    lemma_lines_around_blank(a, b);
    lemma_code_block_parity(no_blocks(), la);
    let (s1, o1) = run(no_blocks(), la);
    assert(!s1.code);
    lemma_blanks_after(s1, bl);
    lemma_run_concat(no_blocks(), la, bl);
    lemma_run_concat(no_blocks(), la + bl, lb);
    let (sb, ob) = run(no_blocks(), lb);
    assert(markdown_html(a + "\n\n"@ + b) =~= o1 + close_text(s1) + ob + finish(sb));
    assert(finish(s1) =~= close_text(s1));
    assert(markdown_html(a) =~= o1 + close_text(s1));
}

} // verus!
