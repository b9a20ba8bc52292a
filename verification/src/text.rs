//! Text as sequences of characters, and decimal numerals.

use vstd::prelude::*;

verus! {

/// `String::push`: the character is added at the end and nothing else changes.
#[verifier::external_body]
fn push_char(s: &mut String, c: char)
    ensures
        final(s)@ == old(s)@.push(c),
{
    s.push(c);
}

/// The characters of `s`, in order.
pub fn chars_of(s: &str) -> (v: Vec<char>)
    ensures
        v@ == s@,
{
    let mut v: Vec<char> = Vec::new();
    for c in it: s.chars()
        invariant
            it.seq() == s@,
            v@ == s@.take(it.index()),
    {
        v.push(c);
        assert(v@ =~= s@.take(it.index() + 1));
    }
    assert(v@ =~= s@);
    v
}

/// The string made of the characters `chars[from..to]`.
pub(crate) fn string_of(chars: &Vec<char>, from: usize, to: usize) -> (s: String)
    requires
        from <= to <= chars.len(),
    ensures
        s@ == chars@.subrange(from as int, to as int),
{
    let mut s = String::new();
    let mut i: usize = from;
    while i < to
        invariant
            from <= i <= to <= chars.len(),
            s@ == chars@.subrange(from as int, i as int),
        decreases to - i,
    {
        push_char(&mut s, chars[i]);
        i += 1;
        assert(s@ =~= chars@.subrange(from as int, i as int));
    }
    assert(s@ =~= chars@.subrange(from as int, to as int));
    s
}

/// The character that stands for the digit `d`.
pub open spec fn digit_char(d: nat) -> char
    recommends
        d < 10,
{
    (d + 48) as char
}

/// The decimal numeral of `n`: no sign, and no leading zero but for `0` itself.
pub open spec fn decimal(n: nat) -> Seq<char>
    decreases n,
{
    if n < 10 {
        seq![digit_char(n)]
    } else {
        decimal(n / 10).push(digit_char(n % 10))
    }
}

/// The numeral of a signed number: a minus sign before the digits of a negative one.
pub open spec fn signed_decimal(i: int) -> Seq<char> {
    if i < 0 {
        seq!['-'] + decimal((-i) as nat)
    } else {
        decimal(i as nat)
    }
}

/// Every character of a numeral is one of the ten digits.
pub proof fn lemma_decimal_digits(n: nat)
    ensures
        decimal(n).len() >= 1,
        forall|i: int| 0 <= i < decimal(n).len() ==> '0' <= #[trigger] decimal(n)[i] <= '9',
    decreases n,
{
    if n >= 10 {
        lemma_decimal_digits(n / 10);
    }
}

/// The number that a sequence of digits stands for.
pub open spec fn value_of(digits: Seq<char>) -> nat
    decreases digits.len(),
{
    if digits.len() == 0 {
        0
    } else {
        (value_of(digits.drop_last()) * 10 + (digits.last() as nat - 48)) as nat
    }
}

/// A numeral reads back as its number, so two numbers never share a numeral.
pub proof fn lemma_decimal_value(n: nat)
    ensures
        value_of(decimal(n)) == n,
    decreases n,
{
    if n < 10 {
        assert(decimal(n).drop_last() =~= Seq::<char>::empty());
        assert(value_of(decimal(n).drop_last()) == 0);
    } else {
        lemma_decimal_value(n / 10);
        assert(decimal(n).drop_last() =~= decimal(n / 10));
    }
}

/// Appends the decimal numeral of `n` to `out`.
pub fn push_decimal(out: &mut Vec<char>, n: u64)
    ensures
        final(out)@ == old(out)@ + decimal(n as nat),
    decreases n,
{
    if n >= 10 {
        push_decimal(out, n / 10);
    }
    let d: u8 = (n % 10) as u8;
    out.push((d + 48) as char);
    assert(final(out)@ =~= old(out)@ + decimal(n as nat));
}

/// The decimal numeral of `n` as a string.
pub fn decimal_string(n: u64) -> (s: String)
    ensures
        s@ == decimal(n as nat),
{
    let mut digits: Vec<char> = Vec::new();
    push_decimal(&mut digits, n);
    assert(digits@ =~= decimal(n as nat));
    let len: usize = digits.len();
    let s = string_of(&digits, 0, len);
    assert(digits@.subrange(0, len as int) =~= digits@);
    s
}

/// The numeral of a signed number as a string.
pub fn signed_decimal_string(i: i32) -> (s: String)
    ensures
        s@ == signed_decimal(i as int),
{
    let mut digits: Vec<char> = Vec::new();
    if i < 0 {
        digits.push('-');
        let magnitude: u64 = (-(i as i64)) as u64;
        push_decimal(&mut digits, magnitude);
    } else {
        push_decimal(&mut digits, i as u64);
    }
    assert(digits@ =~= signed_decimal(i as int));
    let len: usize = digits.len();
    let s = string_of(&digits, 0, len);
    assert(digits@.subrange(0, len as int) =~= digits@);
    s
}

/// The ASCII bytes of the decimal numeral of `n`.
pub open spec fn decimal_bytes(n: nat) -> Seq<u8> {
    decimal(n).map_values(|c: char| c as u8)
}

/// Appends the ASCII bytes of the decimal numeral of `n` to `out`.
pub fn push_decimal_bytes(out: &mut Vec<u8>, n: u64)
    ensures
        final(out)@ == old(out)@ + decimal_bytes(n as nat),
    decreases n,
{
    if n >= 10 {
        push_decimal_bytes(out, n / 10);
    }
    let d: u8 = (n % 10) as u8;
    out.push(d + 48);
    assert(final(out)@ =~= old(out)@ + decimal_bytes(n as nat));
}

/// The pieces of `s` between the occurrences of `sep`: one more piece than
/// there are separators, empty pieces included.
pub open spec fn split_on<A>(s: Seq<A>, sep: A) -> Seq<Seq<A>>
    decreases s.len(),
{
    if s.len() == 0 {
        seq![Seq::<A>::empty()]
    } else {
        let before = split_on(s.drop_last(), sep);
        if s.last() == sep {
            before.push(Seq::<A>::empty())
        } else {
            before.drop_last().push(before.last().push(s.last()))
        }
    }
}

/// The pieces put together again, with one `sep` between neighbours.
pub open spec fn join_with<A>(pieces: Seq<Seq<A>>, sep: A) -> Seq<A>
    decreases pieces.len(),
{
    if pieces.len() == 0 {
        Seq::<A>::empty()
    } else if pieces.len() == 1 {
        pieces[0]
    } else {
        join_with(pieces.drop_last(), sep) + seq![sep] + pieces.last()
    }
}

/// No piece holds the separator.
pub open spec fn free_of<A>(pieces: Seq<Seq<A>>, sep: A) -> bool {
    forall|i: int, j: int|
        0 <= i < pieces.len() && 0 <= j < pieces[i].len() ==> #[trigger] pieces[i][j] != sep
}

/// Joining one more piece adds a separator and the piece.
pub proof fn lemma_join_push<A>(front: Seq<Seq<A>>, piece: Seq<A>, sep: A)
    requires
        front.len() >= 1,
    ensures
        join_with(front.push(piece), sep) == join_with(front, sep) + seq![sep] + piece,
{
    assert(front.push(piece).drop_last() =~= front);
}

/// Splitting loses nothing: there is at least one piece, no piece holds the
/// separator, and joining the pieces gives the text back.
pub proof fn lemma_split_join<A>(s: Seq<A>, sep: A)
    ensures
        split_on(s, sep).len() >= 1,
        free_of(split_on(s, sep), sep),
        join_with(split_on(s, sep), sep) == s,
    decreases s.len(),
{
    if s.len() > 0 {
        let before = split_on(s.drop_last(), sep);
        lemma_split_join(s.drop_last(), sep);
        let pieces = split_on(s, sep);
        if s.last() == sep {
            lemma_join_push(before, Seq::<A>::empty(), sep);
            assert(join_with(pieces, sep) =~= s);
        } else {
            let grown = before.last().push(s.last());
            if before.len() == 1 {
                assert(pieces =~= seq![grown]);
                assert(join_with(pieces, sep) =~= s);
            } else {
                let front = before.drop_last();
                assert(before =~= front.push(before.last()));
                lemma_join_push(front, before.last(), sep);
                lemma_join_push(front, grown, sep);
                assert(pieces == front.push(grown));
                assert(join_with(front, sep) + seq![sep] + grown =~= (join_with(front, sep)
                    + seq![sep] + before.last()).push(s.last()));
                assert(s.drop_last().push(s.last()) =~= s);
            }
        }
    }
}

/// A text without the separator is its own single piece.
pub proof fn lemma_split_whole<A>(s: Seq<A>, sep: A)
    requires
        forall|j: int| 0 <= j < s.len() ==> s[j] != sep,
    ensures
        split_on(s, sep) == seq![s],
    decreases s.len(),
{
    if s.len() > 0 {
        lemma_split_whole(s.drop_last(), sep);
        assert(s.drop_last().push(s.last()) =~= s);
        assert(seq![s.drop_last()].drop_last().push(s) =~= seq![s]);
    } else {
        assert(s =~= Seq::<A>::empty());
    }
}

/// Splitting is the only way back from a joined text: pieces that are free of
/// the separator are exactly what splitting their joined text returns.
pub proof fn lemma_join_split<A>(pieces: Seq<Seq<A>>, sep: A)
    requires
        pieces.len() >= 1,
        free_of(pieces, sep),
    ensures
        split_on(join_with(pieces, sep), sep) == pieces,
    decreases join_with(pieces, sep).len(),
{
    let s = join_with(pieces, sep);
    let front = pieces.drop_last();
    let tail = pieces.last();
    if pieces.len() == 1 {
        assert forall|j: int| 0 <= j < pieces[0].len() implies pieces[0][j] != sep by {
            assert(pieces[0][j] != sep);
        }
        lemma_split_whole(pieces[0], sep);
        assert(pieces =~= seq![pieces[0]]);
    } else {
        assert(pieces =~= front.push(tail));
        lemma_join_push(front, tail, sep);
        assert forall|i: int, j: int| 0 <= i < front.len() && 0 <= j < front[i].len() implies 
            #[trigger] front[i][j] != sep by {
            assert(pieces[i][j] != sep);
        }
        if tail.len() == 0 {
            assert(s =~= join_with(front, sep).push(sep));
            assert(s.drop_last() =~= join_with(front, sep));
            lemma_join_split(front, sep);
            assert(tail =~= Seq::<A>::empty());
        } else {
            let c = tail.last();
            let shorter = front.push(tail.drop_last());
            lemma_join_push(front, tail.drop_last(), sep);
            assert(s.drop_last() =~= join_with(shorter, sep));
            assert(s.last() == c);
            assert(pieces[pieces.len() - 1][tail.len() - 1] != sep);
            assert forall|i: int, j: int| 0 <= i < shorter.len() && 0 <= j < shorter[i].len() implies 
                #[trigger] shorter[i][j] != sep by {
                if i < front.len() {
                    assert(pieces[i][j] != sep);
                } else {
                    assert(pieces[i][j] != sep);
                }
            }
            lemma_join_split(shorter, sep);
            assert(shorter.drop_last() =~= front);
            assert(tail.drop_last().push(c) =~= tail);
        }
    }
}

/// Whatever holds of every element of a text holds of every element of its pieces.
pub proof fn lemma_split_within<A>(s: Seq<A>, sep: A, holds: spec_fn(A) -> bool)
    requires
        forall|i: int| 0 <= i < s.len() ==> holds(#[trigger] s[i]),
    ensures
        forall|k: int, j: int|
            0 <= k < split_on(s, sep).len() && 0 <= j < split_on(s, sep)[k].len() ==> holds(
                #[trigger] split_on(s, sep)[k][j],
            ),
    decreases s.len(),
{
    if s.len() > 0 {
        let front = s.drop_last();
        assert forall|i: int| 0 <= i < front.len() implies holds(#[trigger] front[i]) by {
            assert(front[i] == s[i]);
        }
        lemma_split_within(front, sep, holds);
        lemma_split_join(front, sep);
        let before = split_on(front, sep);
        let pieces = split_on(s, sep);
        assert forall|k: int, j: int|
            0 <= k < pieces.len() && 0 <= j < pieces[k].len() implies holds(
            #[trigger] pieces[k][j],
        ) by {
            if s.last() == sep {
                assert(pieces[k] == before[k]);
                assert(holds(before[k][j]));
            } else if k < pieces.len() - 1 {
                assert(pieces[k] == before[k]);
                assert(holds(before[k][j]));
            } else if j < before.last().len() {
                assert(pieces[k][j] == before[k][j]);
                assert(holds(before[k][j]));
            } else {
                assert(pieces[k][j] == s[s.len() - 1]);
            }
        }
    }
}

/// Splitting goes through a change of alphabet that moves the separator, and
/// nothing else, to the new separator: the pieces of the changed text are the
/// changed pieces of the text.
pub proof fn lemma_split_mapped<A, B>(s: Seq<A>, sep: A, change: spec_fn(A) -> B, new_sep: B)
    requires
        forall|i: int| 0 <= i < s.len() ==> (change(#[trigger] s[i]) == new_sep <==> s[i] == sep),
    ensures
        split_on(s.map_values(change), new_sep) == split_on(s, sep).map_values(
            |piece: Seq<A>| piece.map_values(change),
        ),
    decreases s.len(),
{
    let changed = s.map_values(change);
    let each = |piece: Seq<A>| piece.map_values(change);
    if s.len() == 0 {
        assert(Seq::<A>::empty().map_values(change) =~= Seq::<B>::empty());
        assert(split_on(changed, new_sep) =~= split_on(s, sep).map_values(each));
    } else {
        let front = s.drop_last();
        assert forall|i: int| 0 <= i < front.len() implies (change(#[trigger] front[i]) == new_sep
            <==> front[i] == sep) by {
            assert(front[i] == s[i]);
        }
        lemma_split_mapped(front, sep, change, new_sep);
        lemma_split_join(front, sep);
        assert(changed.drop_last() =~= front.map_values(change));
        assert(changed.last() == change(s.last()));
        assert(change(s[s.len() - 1]) == new_sep <==> s[s.len() - 1] == sep);
        let before = split_on(front, sep);
        if s.last() == sep {
            assert(Seq::<A>::empty().map_values(change) =~= Seq::<B>::empty());
            assert(split_on(changed, new_sep) =~= split_on(s, sep).map_values(each));
        } else {
            assert(before.last().push(s.last()).map_values(change) =~= before.last().map_values(
                change,
            ).push(change(s.last())));
            assert(split_on(changed, new_sep) =~= split_on(s, sep).map_values(each));
        }
    }
}

/// A line without the element that ends it, if it ends in that element.
pub open spec fn without_ending<A>(line: Seq<A>, cr: A) -> Seq<A> {
    if line.len() > 0 && line.last() == cr {
        line.drop_last()
    } else {
        line
    }
}

/// The lines of a text. A line ends at a `lf`, or at the end of the text if
/// anything stands after the last `lf`. One `cr` before a `lf` belongs to the
/// line ending; at the end of the text it stays.
pub open spec fn lines_ended<A>(text: Seq<A>, lf: A, cr: A) -> Seq<Seq<A>> {
    let pieces = split_on(text, lf);
    let ended = pieces.drop_last().map_values(|piece: Seq<A>| without_ending(piece, cr));
    if pieces.last().len() == 0 {
        ended
    } else {
        ended.push(pieces.last())
    }
}

/// Splits `s` at every `sep`.
pub fn split(s: &str, sep: char) -> (pieces: Vec<String>)
    ensures
        pieces.deep_view() == split_on(s@, sep),
{
    let chars = chars_of(s);
    let n: usize = chars.len();
    let mut pieces: Vec<String> = Vec::new();
    let mut start: usize = 0;
    let mut i: usize = 0;
    while i < n
        invariant
            n == chars.len(),
            start <= i <= n,
            split_on(chars@.take(i as int), sep) =~~= pieces.deep_view().push(
                chars@.subrange(start as int, i as int),
            ),
        decreases n - i,
    {
        let ghost seen = chars@.take(i as int);
        let ghost current = chars@.subrange(start as int, i as int);
        let ghost done = pieces.deep_view();
        assert(chars@.take(i + 1).drop_last() =~= seen);
        if chars[i] == sep {
            let piece = string_of(&chars, start, i);
            pieces.push(piece);
            start = i + 1;
            assert(pieces.deep_view() =~~= done.push(current));
            assert(chars@.subrange(start as int, i + 1) =~= Seq::<char>::empty());
        } else {
            assert(done.push(current).drop_last() =~= done);
            assert(chars@.subrange(start as int, i + 1) =~= current.push(chars@[i as int]));
        }
        i += 1;
    }
    let ghost done = pieces.deep_view();
    let piece = string_of(&chars, start, n);
    pieces.push(piece);
    assert(chars@.take(n as int) =~= chars@);
    assert(pieces.deep_view() =~~= done.push(chars@.subrange(start as int, n as int)));
    pieces
}

/// `s` with every occurrence of `pattern` replaced by `value`. Occurrences are
/// found from the left and do not overlap; what was put in is not searched again.
pub open spec fn replaced(s: Seq<char>, pattern: Seq<char>, value: Seq<char>) -> Seq<char>
    decreases s.len(),
{
    if pattern.len() == 0 || s.len() < pattern.len() {
        s
    } else if s.take(pattern.len() as int) == pattern {
        value + replaced(s.skip(pattern.len() as int), pattern, value)
    } else {
        seq![s[0]] + replaced(s.skip(1), pattern, value)
    }
}

/// Replacing brings in nothing new: whatever holds of every character of the
/// text and of the value holds of every character of the result.
pub proof fn lemma_replaced_within(
    s: Seq<char>,
    pattern: Seq<char>,
    value: Seq<char>,
    holds: spec_fn(char) -> bool,
)
    requires
        forall|i: int| 0 <= i < s.len() ==> holds(#[trigger] s[i]),
        forall|i: int| 0 <= i < value.len() ==> holds(#[trigger] value[i]),
    ensures
        forall|i: int|
            0 <= i < replaced(s, pattern, value).len() ==> holds(
                #[trigger] replaced(s, pattern, value)[i],
            ),
    decreases s.len(),
{
    if pattern.len() == 0 || s.len() < pattern.len() {
    } else {
        let rest = if s.take(pattern.len() as int) == pattern {
            s.skip(pattern.len() as int)
        } else {
            s.skip(1)
        };
        assert forall|i: int| 0 <= i < rest.len() implies holds(#[trigger] rest[i]) by {
            assert(rest[i] == s[i + (s.len() - rest.len())]);
        }
        lemma_replaced_within(rest, pattern, value, holds);
        let tail = replaced(rest, pattern, value);
        let whole = replaced(s, pattern, value);
        assert forall|i: int| 0 <= i < whole.len() implies holds(#[trigger] whole[i]) by {
            if s.take(pattern.len() as int) == pattern {
                assert(whole == value + tail);
                if i < value.len() {
                    assert(whole[i] == value[i]);
                } else {
                    assert(whole[i] == tail[i - value.len()]);
                }
            } else {
                assert(whole == seq![s[0]] + tail);
                if i == 0 {
                    assert(whole[i] == s[0]);
                } else {
                    assert(whole[i] == tail[i - 1]);
                }
            }
        }
    }
}

/// A text in which the pattern does not occur is left as it is.
pub proof fn lemma_replaced_absent(s: Seq<char>, pattern: Seq<char>, value: Seq<char>)
    requires
        forall|i: int|
            0 <= i && i + pattern.len() <= s.len() ==> #[trigger] s.subrange(
                i,
                i + pattern.len(),
            ) != pattern,
    ensures
        replaced(s, pattern, value) == s,
    decreases s.len(),
{
    if pattern.len() == 0 || s.len() < pattern.len() {
    } else {
        let m = pattern.len() as int;
        assert(s.take(m) =~= s.subrange(0, 0 + m));
        let rest = s.skip(1);
        assert forall|i: int| 0 <= i && i + m <= rest.len() implies #[trigger] rest.subrange(
            i,
            i + m,
        ) != pattern by {
            assert(rest.subrange(i, i + m) =~= s.subrange(i + 1, i + 1 + m));
        }
        lemma_replaced_absent(rest, pattern, value);
        assert(seq![s[0]] + rest =~= s);
    }
}

/// Whether `pattern` stands in `chars` at index `at`.
pub fn occurs_at(chars: &Vec<char>, at: usize, pattern: &Vec<char>) -> (found: bool)
    ensures
        found == (at + pattern.len() <= chars.len() && chars@.subrange(
            at as int,
            at + pattern.len(),
        ) == pattern@),
{
    let m: usize = pattern.len();
    if at > chars.len() || m > chars.len() - at {
        return false;
    }
    let mut k: usize = 0;
    while k < m
        invariant
            m == pattern.len(),
            at + m <= chars.len(),
            k <= m,
            forall|j: int| 0 <= j < k ==> chars@[at + j] == pattern@[j],
        decreases m - k,
    {
        if chars[at + k] != pattern[k] {
            assert(chars@.subrange(at as int, at + m)[k as int] != pattern@[k as int]);
            return false;
        }
        k += 1;
    }
    assert(chars@.subrange(at as int, at + m) =~= pattern@);
    true
}

/// Replaces every occurrence of `pattern` in `s` by `value`. An empty pattern
/// occurs nowhere.
pub fn replace_all(s: &str, pattern: &str, value: &str) -> (out: String)
    ensures
        out@ == replaced(s@, pattern@, value@),
{
    let chars = chars_of(s);
    let pat = chars_of(pattern);
    let val = chars_of(value);
    let n: usize = chars.len();
    let m: usize = pat.len();
    if m == 0 {
        return s.to_owned();
    }
    let mut out: Vec<char> = Vec::new();
    let mut i: usize = 0;
    assert(chars@.skip(0) =~= chars@);
    assert(out@ + replaced(chars@, pat@, val@) =~= replaced(chars@, pat@, val@));
    while i < n
        invariant
            n == chars.len(),
            m == pat.len(),
            m > 0,
            i <= n,
            replaced(chars@, pat@, val@) == out@ + replaced(chars@.skip(i as int), pat@, val@),
        decreases n - i,
    {
        let ghost rest = chars@.skip(i as int);
        let ghost before = out@;
        if occurs_at(&chars, i, &pat) {
            assert(rest.take(m as int) =~= chars@.subrange(i as int, i + m));
            assert(rest.skip(m as int) =~= chars@.skip(i + m));
            let mut k: usize = 0;
            while k < val.len()
                invariant
                    k <= val.len(),
                    out@ == before + val@.take(k as int),
                decreases val.len() - k,
            {
                out.push(val[k]);
                k += 1;
                assert(out@ =~= before + val@.take(k as int));
            }
            assert(val@.take(val.len() as int) =~= val@);
            assert(out@ + replaced(chars@.skip(i + m), pat@, val@) =~= before + (val@ + replaced(
                rest.skip(m as int),
                pat@,
                val@,
            )));
            i += m;
        } else {
            proof {
                if rest.len() >= m as nat {
                    assert(rest.take(m as int) =~= chars@.subrange(i as int, i + m));
                } else {
                    assert(replaced(rest.skip(1), pat@, val@) == rest.skip(1));
                    assert(rest =~= seq![rest[0]] + rest.skip(1));
                }
                assert(replaced(rest, pat@, val@) == seq![rest[0]] + replaced(
                    rest.skip(1),
                    pat@,
                    val@,
                ));
                assert(rest.skip(1) =~= chars@.skip(i + 1));
            }
            out.push(chars[i]);
            assert(out@ + replaced(chars@.skip(i + 1), pat@, val@) =~= before + (seq![rest[0]]
                + replaced(rest.skip(1), pat@, val@)));
            i += 1;
        }
    }
    assert(chars@.skip(n as int) =~= Seq::<char>::empty());
    assert(out@ + Seq::<char>::empty() =~= out@);
    let len: usize = out.len();
    let text = string_of(&out, 0, len);
    assert(out@.subrange(0, len as int) =~= out@);
    text
}

} // verus!
