//! The text form of a grid: its cells as decimal numbers, separated by
//! whitespace when read and by single spaces when written.

use vstd::prelude::*;

verus! {

/// ASCII whitespace: tab, line feed, vertical tab, form feed, carriage return
/// and space.
pub open spec fn is_space(b: u8) -> bool {
    b == 9 || b == 10 || b == 11 || b == 12 || b == 13 || b == 32
}

/// The words of `s` from position `i` on: the maximal runs of bytes that are
/// not whitespace, in order.
pub open spec fn words_from(s: Seq<u8>, i: int) -> Seq<Seq<u8>>
    decreases s.len() - i,
{
    if i < 0 || i >= s.len() {
        Seq::empty()
    } else if is_space(s[i]) {
        words_from(s, i + 1)
    } else {
        let rest = words_from(s, i + 1);
        if i + 1 < s.len() && !is_space(s[i + 1]) {
            seq![seq![s[i]] + rest[0]] + rest.drop_first()
        } else {
            seq![seq![s[i]]] + rest
        }
    }
}

/// A word without its optional leading `+`.
pub open spec fn word_number(w: Seq<u8>) -> Seq<u8> {
    if w.len() > 0 && w[0] == 43 {
        w.drop_first()
    } else {
        w
    }
}

/// At least one byte, all of them ASCII digits.
pub open spec fn is_digits(d: Seq<u8>) -> bool {
    d.len() > 0 && forall|t: int| 0 <= t < d.len() ==> 48 <= #[trigger] d[t] <= 57
}

/// The number that a run of decimal digits writes.
pub open spec fn digits_value(d: Seq<u8>) -> nat
    decreases d.len(),
{
    if d.len() == 0 {
        0
    } else {
        digits_value(d.drop_last()) * 10 + (d.last() - 48) as nat
    }
}

/// The byte that a word writes: decimal digits after an optional `+`, with a
/// value of at most 255.
pub open spec fn word_byte(w: Seq<u8>) -> Option<u8> {
    if is_digits(word_number(w)) && digits_value(word_number(w)) <= 255 {
        Some(digits_value(word_number(w)) as u8)
    } else {
        None
    }
}

/// The cells that a text writes, if each of its words writes a byte.
pub open spec fn grid_text_values(s: Seq<u8>) -> Option<Seq<u8>> {
    let ws = words_from(s, 0);
    if forall|k: int| 0 <= k < ws.len() ==> #[trigger] word_byte(ws[k]) is Some {
        Some(Seq::new(ws.len(), |k: int| word_byte(ws[k])->0))
    } else {
        None
    }
}

/// The decimal digits of `v`, without leading zeros.
pub open spec fn decimal_text(v: u8) -> Seq<u8> {
    if v < 10 {
        seq![(48 + v) as u8]
    } else if v < 100 {
        seq![(48 + v / 10) as u8, (48 + v % 10) as u8]
    } else {
        seq![(48 + v / 100) as u8, (48 + (v / 10) % 10) as u8, (48 + v % 10) as u8]
    }
}

/// The cells written in decimal and joined by single spaces.
pub open spec fn grid_text(vals: Seq<u8>) -> Seq<u8>
    decreases vals.len(),
{
    if vals.len() == 0 {
        Seq::empty()
    } else if vals.len() == 1 {
        decimal_text(vals[0])
    } else {
        grid_text(vals.drop_last()) + seq![32u8] + decimal_text(vals.last())
    }
}

/// The words from the start of a word run to its end, then the rest.
proof fn lemma_word(s: Seq<u8>, k: int, j: int)
    requires
        0 <= k < j <= s.len(),
        forall|t: int| k <= t < j ==> !is_space(#[trigger] s[t]),
        j == s.len() || is_space(s[j]),
    ensures
        words_from(s, k) == seq![s.subrange(k, j)] + words_from(s, j),
    decreases j - k,
{
    if k + 1 < j {
        lemma_word(s, k + 1, j);
        assert(seq![s[k]] + s.subrange(k + 1, j) =~= s.subrange(k, j));
        assert((seq![s.subrange(k + 1, j)] + words_from(s, j)).drop_first() =~= words_from(s, j));
        assert(words_from(s, k) =~= seq![s.subrange(k, j)] + words_from(s, j));
    } else {
        assert(seq![s[k]] =~= s.subrange(k, j));
        assert(words_from(s, k) =~= seq![s.subrange(k, j)] + words_from(s, j));
    }
}

proof fn lemma_digits_prefix_le(d: Seq<u8>, m: int)
    requires
        0 <= m <= d.len(),
    ensures
        digits_value(d.take(m)) <= digits_value(d),
    decreases d.len(),
{
    if m < d.len() {
        lemma_digits_prefix_le(d.drop_last(), m);
        assert(d.drop_last().take(m) =~= d.take(m));
    } else {
        assert(d.take(m) =~= d);
    }
}

fn is_space_byte(b: u8) -> (r: bool)
    ensures
        r == is_space(b),
{
    b == 9 || b == 10 || b == 11 || b == 12 || b == 13 || b == 32
}

/// The byte that the word `text[i..j]` writes.
fn parse_word(text: &[u8], i: usize, j: usize) -> (r: Option<u8>)
    requires
        i < j <= text@.len(),
    ensures
        r == word_byte(text@.subrange(i as int, j as int)),
{
    let ghost w = text@.subrange(i as int, j as int);
    let start = if text[i] == 43 {
        i + 1
    } else {
        i
    };
    let ghost num = text@.subrange(start as int, j as int);
    assert(word_number(w) =~= num);
    if start == j {
        return None;
    }
    let mut val: u32 = 0;
    let mut k = start;
    while k < j
        invariant
            start <= k <= j <= text@.len(),
            num == text@.subrange(start as int, j as int),
            w == text@.subrange(i as int, j as int),
            word_number(w) == num,
            val <= 255,
            val == digits_value(num.take(k - start)),
            forall|t: int| 0 <= t < k - start ==> 48 <= #[trigger] num[t] <= 57,
        decreases j - k,
    {
        let b = text[k];
        if b < 48 || b > 57 {
            assert(num[k - start] == b);
            return None;
        }
        proof {
            assert(num.take(k - start + 1).drop_last() =~= num.take(k - start));
        }
        val = val * 10 + (b - 48) as u32;
        if val > 255 {
            proof {
                if is_digits(num) {
                    lemma_digits_prefix_le(num, k - start + 1);
                }
            }
            return None;
        }
        k += 1;
    }
    assert(num.take(k - start) =~= num);
    Some(val as u8)
}

/// Reads the cells of a grid from text: decimal numbers of at most 255,
/// each with an optional leading `+`, separated by ASCII whitespace. `None`
/// where a word is not such a number.
pub fn parse_grid_text(text: &[u8]) -> (r: Option<Vec<u8>>)
    ensures
        r is Some <==> grid_text_values(text@) is Some,
        r matches Some(v) ==> grid_text_values(text@) == Some(v@),
{
    let ghost s = text@;
    let len = text.len();
    let mut out: Vec<u8> = Vec::new();
    let ghost mut done: Seq<Seq<u8>> = Seq::empty();
    let mut i: usize = 0;
    while i < len
        invariant
            i <= len,
            len == s.len(),
            s == text@,
            words_from(s, 0) == done + words_from(s, i as int),
            out@.len() == done.len(),
            forall|k: int| 0 <= k < done.len() ==> #[trigger] word_byte(done[k]) == Some(out@[k]),
        decreases len - i,
    {
        if is_space_byte(text[i]) {
            i += 1;
        } else {
            let mut j = i + 1;
            while j < len && !is_space_byte(text[j])
                invariant
                    i < j <= len,
                    len == s.len(),
                    s == text@,
                    forall|t: int| i <= t < j ==> !is_space(#[trigger] s[t]),
                decreases len - j,
            {
                j += 1;
            }
            proof {
                lemma_word(s, i as int, j as int);
                assert(words_from(s, 0) =~= done.push(s.subrange(i as int, j as int)) + words_from(
                    s,
                    j as int,
                ));
            }
            match parse_word(text, i, j) {
                Some(v) => {
                    out.push(v);
                    proof {
                        done = done.push(s.subrange(i as int, j as int));
                    }
                },
                None => {
                    proof {
                        let ws = words_from(s, 0);
                        assert(ws[done.len() as int] == s.subrange(i as int, j as int));
                        assert(word_byte(ws[done.len() as int]) is None);
                    }
                    return None;
                },
            }
            i = j;
        }
    }
    proof {
        assert(words_from(s, 0) =~= done);
        assert(out@ =~= Seq::new(done.len(), |k: int| word_byte(done[k])->0));
    }
    Some(out)
}

fn push_decimal(out: &mut Vec<u8>, v: u8)
    ensures
        final(out)@ == old(out)@ + decimal_text(v),
{
    if v < 10 {
        out.push(48 + v);
    } else if v < 100 {
        out.push(48 + v / 10);
        out.push(48 + v % 10);
    } else {
        out.push(48 + v / 100);
        out.push(48 + (v / 10) % 10);
        out.push(48 + v % 10);
    }
    assert(final(out)@ =~= old(out)@ + decimal_text(v));
}

/// Writes the cells in decimal, joined by single spaces.
pub fn format_grid(cells: &Vec<u8>) -> (r: Vec<u8>)
    ensures
        r@ == grid_text(cells@),
        forall|t: int| 0 <= t < r@.len() ==> #[trigger] r@[t] < 128,
{
    let mut out: Vec<u8> = Vec::new();
    let mut i: usize = 0;
    while i < cells.len()
        invariant
            i <= cells@.len(),
            out@ == grid_text(cells@.take(i as int)),
            forall|t: int| 0 <= t < out@.len() ==> #[trigger] out@[t] < 128,
        decreases cells@.len() - i,
    {
        if i > 0 {
            out.push(32);
        }
        push_decimal(&mut out, cells[i]);
        proof {
            assert(cells@.take(i + 1).drop_last() =~= cells@.take(i as int));
            if i == 0 {
                assert(out@ =~= grid_text(cells@.take(1)));
            }
        }
        i += 1;
    }
    assert(cells@.take(i as int) =~= cells@);
    out
}

} // verus!
