//! Holding parts of a text out of a rewriting: each part is replaced by a
//! numbered marker, the text is rewritten, and the markers are then replaced
//! by the parts' final text.
//!
//! A marker is the private-use character U+E000, the part's number in
//! decimal, and U+E000 again. A U+E000 of the text itself is written twice,
//! so that it cannot be read as the start of a marker.
use vstd::prelude::*;
use vstd::string::*;
use crate::text::push_char;
use crate::pattern::interleave;

verus! {

/// The character that opens and closes a marker.
pub const MARKER: char = '\u{e000}';

// ---------------------------------------------------------------------------
// Specifications
// ---------------------------------------------------------------------------

/// The decimal digit for `d` (`0` to `9`).
pub open spec fn digit_char(d: nat) -> char {
    if d == 0 {
        '0'
    } else if d == 1 {
        '1'
    } else if d == 2 {
        '2'
    } else if d == 3 {
        '3'
    } else if d == 4 {
        '4'
    } else if d == 5 {
        '5'
    } else if d == 6 {
        '6'
    } else if d == 7 {
        '7'
    } else if d == 8 {
        '8'
    } else {
        '9'
    }
}

/// Is `c` a decimal digit?
pub open spec fn is_digit(c: char) -> bool {
    '0' <= c && c <= '9'
}

/// The value of a decimal digit.
pub open spec fn digit_value(c: char) -> nat {
    ((c as u32) - ('0' as u32)) as nat
}

/// `n` in decimal.
pub open spec fn decimal(n: nat) -> Seq<char>
    decreases n,
{
    if n < 10 {
        seq![digit_char(n)]
    } else {
        decimal(n / 10).push(digit_char(n % 10))
    }
}

/// The number that a sequence of decimal digits writes.
pub open spec fn parse_decimal(ds: Seq<char>) -> nat
    decreases ds.len(),
{
    if ds.len() == 0 {
        0
    } else {
        parse_decimal(ds.drop_last()) * 10 + digit_value(ds.last())
    }
}

/// The marker for part `k`.
pub open spec fn marker(k: nat) -> Seq<char> {
    seq![MARKER] + decimal(k) + seq![MARKER]
}

/// `s` with each marker character written twice.
pub open spec fn guard(s: Seq<char>) -> Seq<char>
    decreases s.len(),
{
    if s.len() == 0 {
        seq![]
    } else {
        guard(s.drop_last()) + (if s.last() == MARKER {
            seq![MARKER, MARKER]
        } else {
            seq![s.last()]
        })
    }
}

/// The pieces of a text around `n` parts, each guarded, with the marker of
/// part `k` between piece `k` and piece `k + 1`.
pub open spec fn masked_text(pieces: Seq<Seq<char>>, n: nat) -> Seq<char> {
    interleave(guarded(pieces), markers(n))
}

/// Each piece guarded.
pub open spec fn guarded(pieces: Seq<Seq<char>>) -> Seq<Seq<char>> {
    pieces.map_values(|p: Seq<char>| guard(p))
}

/// The markers of parts `0` to `n - 1`.
pub open spec fn markers(n: nat) -> Seq<Seq<char>> {
    Seq::new(n, |k: int| marker(k as nat))
}

/// The first index at or after `i` that does not hold a decimal digit
/// (the length of `s` if there is none).
pub open spec fn digits_end(s: Seq<char>, i: int) -> int
    decreases s.len() - i,
{
    if i < 0 || i >= s.len() || !is_digit(s[i]) {
        if i < 0 {
            0
        } else {
            i
        }
    } else {
        digits_end(s, i + 1)
    }
}

/// The number of the part whose marker starts at `i`, if a marker of one of
/// the `n` parts starts there: digits after the marker character, closed by
/// another marker character.
pub open spec fn marker_at(s: Seq<char>, i: int, n: nat) -> Option<(nat, int)> {
    let j = digits_end(s, i + 1);
    if 0 <= i && i + 1 < j && j < s.len() && s[j] == MARKER && parse_decimal(s.subrange(i + 1, j)) < n {
        Some((parse_decimal(s.subrange(i + 1, j)), j + 1))
    } else {
        None
    }
}

/// `s` from index `i` on, with each marker replaced by the text of its part
/// and each doubled marker character read as one.
pub open spec fn restore_from(s: Seq<char>, i: int, parts: Seq<Seq<char>>) -> Seq<char>
    decreases s.len() - i,
{
    if i < 0 || i >= s.len() {
        seq![]
    } else if s[i] != MARKER {
        seq![s[i]] + restore_from(s, i + 1, parts)
    } else if i + 1 < s.len() && s[i + 1] == MARKER {
        seq![MARKER] + restore_from(s, i + 2, parts)
    } else {
        match marker_at(s, i, parts.len()) {
            Some((k, next)) => parts[k as int] + restore_from(s, next, parts),
            None => seq![MARKER] + restore_from(s, i + 1, parts),
        }
    }
}

// ---------------------------------------------------------------------------
// Facts
// ---------------------------------------------------------------------------

/// `digits_end` lies in `[i, len]` and only digits come before it.
proof fn lemma_digits_end(s: Seq<char>, i: int)
    requires
        0 <= i <= s.len(),
    ensures
        i <= digits_end(s, i) <= s.len(),
        forall|k: int| i <= k < digits_end(s, i) ==> is_digit(#[trigger] s[k]),
        digits_end(s, i) < s.len() ==> !is_digit(s[digits_end(s, i)]),
    decreases s.len() - i,
{
    if i < s.len() && is_digit(s[i]) {
        lemma_digits_end(s, i + 1);
    }
}

/// Digits added at the end never make a number smaller.
proof fn lemma_parse_grows(ds: Seq<char>, a: int)
    requires
        0 <= a <= ds.len(),
    ensures
        parse_decimal(ds.take(a)) <= parse_decimal(ds),
    decreases ds.len() - a,
{
    if a < ds.len() {
        lemma_parse_grows(ds, a + 1);
        assert(ds.take(a + 1).drop_last() =~= ds.take(a));
    } else {
        assert(ds.take(a) =~= ds);
    }
}

/// `digits_end` looks at the text from where it starts only.
proof fn lemma_digits_end_shift(z: Seq<char>, i: int, j: int)
    requires
        0 <= i <= j <= z.len(),
    ensures
        digits_end(z, j) == digits_end(z.skip(i), j - i) + i,
    decreases z.len() - j,
{
    if j < z.len() && is_digit(z[j]) {
        assert(z.skip(i)[j - i] == z[j]);
        lemma_digits_end_shift(z, i, j + 1);
    } else if j < z.len() {
        assert(z.skip(i)[j - i] == z[j]);
    }
}

/// Restoring from index `i` restores the text from `i` on: what comes
/// before `i` does not matter.
pub proof fn lemma_restore_shift(z: Seq<char>, i: int, parts: Seq<Seq<char>>)
    requires
        0 <= i <= z.len(),
    ensures
        restore_from(z, i, parts) == restore_from(z.skip(i), 0, parts),
    decreases z.len() - i,
{
    let w = z.skip(i);
    if i == z.len() {
        assert(w.len() == 0);
    } else {
        assert(w[0] == z[i]);
        if z[i] != MARKER {
            lemma_restore_shift(z, i + 1, parts);
            lemma_restore_shift(w, 1, parts);
            assert(w.skip(1) =~= z.skip(i + 1));
        } else if i + 1 < z.len() && z[i + 1] == MARKER {
            assert(w[1] == z[i + 1]);
            lemma_restore_shift(z, i + 2, parts);
            lemma_restore_shift(w, 2, parts);
            assert(w.skip(2) =~= z.skip(i + 2));
        } else {
            if i + 1 < z.len() {
                assert(w[1] == z[i + 1]);
            }
            lemma_digits_end_shift(z, i, i + 1);
            let j = digits_end(z, i + 1);
            lemma_digits_end(z, i + 1);
            if j < z.len() {
                assert(w[j - i] == z[j]);
            }
            assert(z.subrange(i + 1, j) =~= w.subrange(1, j - i));
            match marker_at(z, i, parts.len()) {
                Some((k, next)) => {
                    lemma_restore_shift(z, next, parts);
                    lemma_restore_shift(w, next - i, parts);
                    assert(w.skip(next - i) =~= z.skip(next));
                },
                None => {
                    lemma_restore_shift(z, i + 1, parts);
                    lemma_restore_shift(w, 1, parts);
                    assert(w.skip(1) =~= z.skip(i + 1));
                },
            }
        }
    }
}

/// Guarding a concatenation guards each part.
proof fn lemma_guard_concat(a: Seq<char>, b: Seq<char>)
    ensures
        guard(a + b) == guard(a) + guard(b),
    decreases b.len(),
{
    if b.len() == 0 {
        assert(a + b =~= a);
        assert(guard(a) + guard(b) =~= guard(a));
    } else {
        assert((a + b).drop_last() =~= a + b.drop_last());
        lemma_guard_concat(a, b.drop_last());
        assert(guard(a + b) =~= guard(a) + guard(b));
    }
}

/// A guarded text restores to the text itself.
proof fn lemma_restore_guard(p: Seq<char>, y: Seq<char>, parts: Seq<Seq<char>>)
    ensures
        restore_from(guard(p) + y, 0, parts) == p + restore_from(y, 0, parts),
    decreases p.len(),
{
    if p.len() == 0 {
        assert(guard(p) + y =~= y);
        assert(p + restore_from(y, 0, parts) =~= restore_from(y, 0, parts));
    } else {
        let c = p[0];
        let q = p.skip(1);
        assert(p =~= seq![c] + q);
        lemma_guard_concat(seq![c], q);
        assert(seq![c].drop_last() =~= Seq::<char>::empty());
        assert(guard(Seq::<char>::empty()) =~= Seq::<char>::empty());
        let gc = if c == MARKER {
            seq![MARKER, MARKER]
        } else {
            seq![c]
        };
        assert(guard(seq![c]) =~= gc);
        let z = guard(p) + y;
        assert(z =~= gc + (guard(q) + y));
        lemma_restore_guard(q, y, parts);
        lemma_restore_shift(z, gc.len() as int, parts);
        assert(z.skip(gc.len() as int) =~= guard(q) + y);
        assert(z[0] == c);
        if c == MARKER {
            assert(z[1] == MARKER);
        }
        assert(p + restore_from(y, 0, parts) =~= seq![c] + (q + restore_from(y, 0, parts)));
    }
}

/// A decimal number is read back as itself.
proof fn lemma_parse_decimal(n: nat)
    ensures
        parse_decimal(decimal(n)) == n,
        decimal(n).len() > 0,
        forall|i: int| 0 <= i < decimal(n).len() ==> is_digit(#[trigger] decimal(n)[i]),
    decreases n,
{
    let d = n % 10;
    assert(digit_value(digit_char(d)) == d);
    assert(is_digit(digit_char(d)));
    if n >= 10 {
        lemma_parse_decimal(n / 10);
        let ds = decimal(n);
        assert(ds.drop_last() =~= decimal(n / 10));
        assert(ds.last() == digit_char(d));
        assert(parse_decimal(ds) == parse_decimal(decimal(n / 10)) * 10 + digit_value(digit_char(d)));
        assert((n / 10) * 10 + d == n);
        assert forall|i: int| 0 <= i < ds.len() implies is_digit(#[trigger] ds[i]) by {
            if i < ds.len() - 1 {
                assert(ds[i] == decimal(n / 10)[i]);
            }
        }
    } else {
        let ds = decimal(n);
        assert(ds =~= seq![digit_char(n)]);
        assert(ds.drop_last() =~= Seq::<char>::empty());
        assert(parse_decimal(ds) == parse_decimal(Seq::<char>::empty()) * 10 + digit_value(digit_char(n)));
    }
}

/// A marker restores to the text of its part.
proof fn lemma_restore_marker(k: nat, y: Seq<char>, parts: Seq<Seq<char>>)
    requires
        k < parts.len(),
    ensures
        restore_from(marker(k) + y, 0, parts) == parts[k as int] + restore_from(y, 0, parts),
{
    let ds = decimal(k);
    lemma_parse_decimal(k);
    let z = marker(k) + y;
    let e: int = (ds.len() + 1) as int;
    assert(z[0] == MARKER);
    assert(z[1] == ds[0]);
    assert(z[e] == MARKER);
    assert forall|i: int| 1 <= i < e implies is_digit(#[trigger] z[i]) by {
        assert(z[i] == ds[i - 1]);
    }
    lemma_digits_end(z, 1);
    assert(digits_end(z, 1) == e) by {
        let d = digits_end(z, 1);
        if d < e {
            assert(is_digit(z[d]));
        }
        if d > e {
            assert(is_digit(z[e]));
        }
    }
    assert(z.subrange(1, e) =~= ds);
    assert(marker_at(z, 0, parts.len()) == Some((k, e + 1)));
    lemma_restore_shift(z, e + 1, parts);
    assert(z.skip(e + 1) =~= y);
}

/// Masking then restoring gives back the pieces with the parts between
/// them: the marker of part `k` becomes exactly the text of part `k`, and
/// every character of the pieces (a marker character included) comes back
/// as it was.
pub proof fn lemma_restore_masked(pieces: Seq<Seq<char>>, parts: Seq<Seq<char>>)
    ensures
        restore_from(masked_text(pieces, parts.len()), 0, parts) == interleave(pieces, parts),
{
    lemma_restore_masked_prefix(pieces, parts, pieces.len() as int);
    assert(pieces.take(pieces.len() as int) =~= pieces);
    let gp = guarded(pieces);
    assert(gp.take(pieces.len() as int) =~= gp);
    assert(masked_text(pieces, parts.len()) + Seq::<char>::empty() =~= masked_text(
        pieces,
        parts.len(),
    ));
    assert(restore_from(Seq::<char>::empty(), 0, parts) =~= Seq::<char>::empty());
    assert(interleave(pieces, parts) + Seq::<char>::empty() =~= interleave(pieces, parts));
}

/// The first `m` pieces, masked, restore to the first `m` pieces with the
/// parts between them, whatever follows.
proof fn lemma_restore_masked_prefix(pieces: Seq<Seq<char>>, parts: Seq<Seq<char>>, m: int)
    requires
        0 <= m <= pieces.len(),
    ensures
        forall|y: Seq<char>|
            #[trigger] restore_from(
                interleave(guarded(pieces).take(m), markers(parts.len())) + y,
                0,
                parts,
            ) == interleave(pieces.take(m), parts) + restore_from(y, 0, parts),
    decreases m,
{
    let gp = guarded(pieces);
    let ms = markers(parts.len());
    if m == 0 {
        assert forall|y: Seq<char>|
            #[trigger] restore_from(interleave(gp.take(m), ms) + y, 0, parts) == interleave(
                pieces.take(m),
                parts,
            ) + restore_from(y, 0, parts) by {
            assert(gp.take(0) =~= Seq::<Seq<char>>::empty());
            assert(pieces.take(0) =~= Seq::<Seq<char>>::empty());
            assert(interleave(gp.take(0), ms) + y =~= y);
            assert(Seq::<char>::empty() + restore_from(y, 0, parts) =~= restore_from(y, 0, parts));
        }
    } else {
        lemma_restore_masked_prefix(pieces, parts, m - 1);
        let k = m - 1;
        assert(gp.take(m).drop_last() =~= gp.take(k));
        assert(pieces.take(m).drop_last() =~= pieces.take(k));
        assert(gp.take(m)[k] == guard(pieces[k]));
        assert(pieces.take(m)[k] == pieces[k]);
        assert forall|y: Seq<char>|
            #[trigger] restore_from(interleave(gp.take(m), ms) + y, 0, parts) == interleave(
                pieces.take(m),
                parts,
            ) + restore_from(y, 0, parts) by {
            let before = interleave(gp.take(k), ms);
            let has_sep = 1 <= k && k - 1 < parts.len();
            let sep = if has_sep {
                ms[k - 1]
            } else {
                Seq::<char>::empty()
            };
            let psep = if has_sep {
                parts[k - 1]
            } else {
                Seq::<char>::empty()
            };
            assert(interleave(gp.take(m), ms) == before + sep + guard(pieces[k]));
            assert(interleave(gp.take(m), ms) + y =~= before + (sep + (guard(pieces[k]) + y)));
            lemma_restore_guard(pieces[k], y, parts);
            if has_sep {
                lemma_restore_marker((k - 1) as nat, guard(pieces[k]) + y, parts);
            } else {
                assert(sep + (guard(pieces[k]) + y) =~= guard(pieces[k]) + y);
            }
            assert(restore_from(before + (sep + (guard(pieces[k]) + y)), 0, parts) == interleave(
                pieces.take(k),
                parts,
            ) + restore_from(sep + (guard(pieces[k]) + y), 0, parts));
            assert(interleave(pieces.take(m), parts) == interleave(pieces.take(k), parts) + psep
                + pieces[k]);
            assert(interleave(pieces.take(k), parts) + (psep + (pieces[k] + restore_from(y, 0, parts)))
                =~= interleave(pieces.take(m), parts) + restore_from(y, 0, parts));
        }
    }
}

// ---------------------------------------------------------------------------
// Executable functions
// ---------------------------------------------------------------------------

/// The decimal digit for `d`.
fn digit_char_of(d: usize) -> (c: char)
    requires
        d < 10,
    ensures
        c == digit_char(d as nat),
{
    if d == 0 {
        '0'
    } else if d == 1 {
        '1'
    } else if d == 2 {
        '2'
    } else if d == 3 {
        '3'
    } else if d == 4 {
        '4'
    } else if d == 5 {
        '5'
    } else if d == 6 {
        '6'
    } else if d == 7 {
        '7'
    } else if d == 8 {
        '8'
    } else {
        '9'
    }
}

/// Appends `n` in decimal.
fn push_decimal(out: &mut String, n: usize)
    ensures
        final(out)@ == old(out)@ + decimal(n as nat),
    decreases n,
{
    if n >= 10 {
        push_decimal(out, n / 10);
    }
    push_char(out, digit_char_of(n % 10));
    assert(final(out)@ =~= old(out)@ + decimal(n as nat));
}

/// Appends the marker of part `k`.
pub fn push_marker(out: &mut String, k: usize)
    ensures
        final(out)@ == old(out)@ + marker(k as nat),
{
    push_char(out, MARKER);
    push_decimal(out, k);
    push_char(out, MARKER);
    assert(final(out)@ =~= old(out)@ + marker(k as nat));
}

/// Appends `s` with each marker character written twice.
pub fn push_guarded(out: &mut String, s: &str)
    ensures
        final(out)@ == old(out)@ + guard(s@),
{
    let mut i: usize = 0;
    let ghost v = s@;
    assert(v.take(0) =~= Seq::<char>::empty());
    for c in it: s.chars()
        invariant
            it.seq() == v,
            v == s@,
            out@ == old(out)@ + guard(v.take(it.index() as int)),
    {
        let ghost k = it.index() as int;
        assert(v.take(k + 1).drop_last() =~= v.take(k));
        assert(v.take(k + 1).last() == c);
        if c == MARKER {
            push_char(out, MARKER);
            push_char(out, MARKER);
        } else {
            push_char(out, c);
        }
        assert(out@ =~= old(out)@ + guard(v.take(k + 1)));
    }
    assert(v.take(v.len() as int) =~= v);
}

/// Replaces the markers in `s` by the texts of their parts, and each
/// doubled marker character by one.
pub fn restore(s: &Vec<char>, parts: &Vec<String>) -> (r: String)
    ensures
        r@ == restore_from(s@, 0, parts@.map_values(|p: String| p@)),
{
    let ghost pv = parts@.map_values(|p: String| p@);
    let n = parts.len();
    let mut out = String::new();
    let mut i: usize = 0;
    while i < s.len()
        invariant
            i <= s@.len(),
            n == parts@.len(),
            pv == parts@.map_values(|p: String| p@),
            restore_from(s@, 0, pv) == out@ + restore_from(s@, i as int, pv),
        decreases s@.len() - i,
    {
        let ghost before = out@;
        if s[i] != MARKER {
            push_char(&mut out, s[i]);
            assert(before + restore_from(s@, i as int, pv) =~= out@ + restore_from(
                s@,
                i + 1,
                pv,
            ));
            i = i + 1;
        } else if i + 1 < s.len() && s[i + 1] == MARKER {
            push_char(&mut out, MARKER);
            assert(before + restore_from(s@, i as int, pv) =~= out@ + restore_from(
                s@,
                i + 2,
                pv,
            ));
            i = i + 2;
        } else {
            proof {
                lemma_digits_end(s@, i + 1);
            }
            let mut j: usize = i + 1;
            let mut v: u128 = 0;
            let mut big = n == 0;
            while j < s.len() && '0' <= s[j] && s[j] <= '9'
                invariant
                    i + 1 <= j <= s@.len(),
                    n == parts@.len(),
                    forall|k: int| i + 1 <= k < j ==> is_digit(#[trigger] s@[k]),
                    digits_end(s@, i + 1) == digits_end(s@, j as int),
                    !big ==> v == parse_decimal(s@.subrange(i + 1, j as int)),
                    !big ==> v < n,
                    big ==> parse_decimal(s@.subrange(i + 1, j as int)) >= n,
                decreases s@.len() - j,
            {
                let d = s[j] as u32 - '0' as u32;
                let ghost ds = s@.subrange(i + 1, j + 1);
                assert(ds.drop_last() =~= s@.subrange(i + 1, j as int));
                assert(ds.last() == s@[j as int]);
                if !big {
                    v = v * 10 + d as u128;
                    if v >= n as u128 {
                        big = true;
                    }
                } else {
                    assert(parse_decimal(ds) >= parse_decimal(ds.drop_last()));
                }
                j = j + 1;
            }
            proof {
                lemma_digits_end(s@, j as int);
                if big {
                    lemma_digits_end(s@, i + 1);
                    if digits_end(s@, i + 1) < s@.len() {
                        let e = digits_end(s@, i + 1);
                        let all = s@.subrange(i + 1, e);
                        assert(all.take(j - i - 1) =~= s@.subrange(i + 1, j as int));
                        lemma_parse_grows(all, j - i - 1);
                    }
                }
            }
            if !big && j > i + 1 && j < s.len() && s[j] == MARKER {
                out.append(parts[v as usize].as_str());
                assert(before + restore_from(s@, i as int, pv) =~= out@ + restore_from(
                    s@,
                    j + 1,
                    pv,
                ));
                i = j + 1;
            } else {
                push_char(&mut out, MARKER);
                assert(before + restore_from(s@, i as int, pv) =~= out@ + restore_from(
                    s@,
                    i + 1,
                    pv,
                ));
                i = i + 1;
            }
        }
    }
    out
}

} // verus!
