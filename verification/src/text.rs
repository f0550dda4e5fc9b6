//! Text helpers: comparing ids, writing numbers in decimal, joining lines.
use vstd::prelude::*;

verus! {

/// Compares two string slices with std's `<str as PartialEq>::eq`.
/// Trusted: the slices are equal exactly when their character sequences are
/// equal (UTF-8 encodes each character sequence as exactly one byte string).
#[verifier::external_body]
pub(crate) fn str_eq(a: &str, b: &str) -> (r: bool)
    ensures
        r == (a@ == b@),
{
    a == b
}

/// A list of `String`s read as character sequences.
pub open spec fn string_views(v: Seq<String>) -> Seq<Seq<char>> {
    v.map_values(|s: String| s@)
}

/// Whether `seen` holds `id`.
pub(crate) fn contains_id(seen: &Vec<String>, id: &str) -> (r: bool)
    ensures
        r == string_views(seen@).contains(id@),
{
    let mut j: usize = 0;
    while j < seen.len()
        invariant
            j <= seen.len(),
            forall|k: int| 0 <= k < j ==> seen@[k]@ != id@,
        decreases seen.len() - j,
    {
        if str_eq(seen[j].as_str(), id) {
            assert(string_views(seen@)[j as int] == id@);
            return true;
        }
        j += 1;
    }
    assert forall|k: int| 0 <= k < string_views(seen@).len() implies string_views(seen@)[k] != id@ by {
        assert(string_views(seen@)[k] == seen@[k]@);
    }
    false
}

/// The decimal digit character for `d < 10`.
pub open spec fn digit_char(d: nat) -> char {
    if d == 0 {
        '0'
    } else if d == 1 {
        '1'
    } else if d == 2 {
        '2'
    } else if d == 3 {
        '3'
    } else if d == 4 {
        '4'
    } else if d == 5 {
        '5'
    } else if d == 6 {
        '6'
    } else if d == 7 {
        '7'
    } else if d == 8 {
        '8'
    } else {
        '9'
    }
}

/// `n` written in decimal, without leading zeros.
pub open spec fn decimal(n: nat) -> Seq<char>
    decreases n,
{
    if n < 10 {
        seq![digit_char(n)]
    } else {
        decimal(n / 10) + seq![digit_char(n % 10)]
    }
}

/// The number that a string of decimal digits denotes.
pub open spec fn digits_value(s: Seq<char>) -> int
    decreases s.len(),
{
    if s.len() == 0 {
        0
    } else {
        digits_value(s.drop_last()) * 10 + (s.last() as int - '0' as int)
    }
}

/// The digit character for `d` denotes `d`.
proof fn lemma_digit_char_value(d: nat)
    requires
        d < 10,
    ensures
        digit_char(d) as int - '0' as int == d,
        '0' <= digit_char(d) <= '9',
{
}

/// `decimal(n)` is the usual decimal numeral of `n`: every character is a
/// digit, there is no leading zero (unless `n` is zero), and the digits
/// denote `n`.
pub proof fn lemma_decimal_denotes(n: nat)
    ensures
        digits_value(decimal(n)) == n,
        decimal(n).len() > 0,
        forall|i: int| 0 <= i < decimal(n).len() ==> '0' <= #[trigger] decimal(n)[i] <= '9',
        decimal(n)[0] == '0' ==> n == 0,
    decreases n,
{
    if n < 10 {
        lemma_digit_char_value(n);
        let s = seq![digit_char(n)];
        assert(s.drop_last() =~= Seq::<char>::empty());
        assert(digits_value(s) == digits_value(s.drop_last()) * 10 + (s.last() as int - '0' as int));
        assert(digits_value(Seq::<char>::empty()) == 0);
    } else {
        lemma_digit_char_value(n % 10);
        assert(n == (n / 10) * 10 + n % 10) by (nonlinear_arith);
        lemma_decimal_denotes(n / 10);
        let d = decimal(n / 10);
        assert(decimal(n).drop_last() =~= d);
        assert forall|i: int| 0 <= i < decimal(n).len() implies '0' <= #[trigger] decimal(n)[i] <= '9' by {
            if i < d.len() {
                assert(decimal(n)[i] == d[i]);
            }
        }
        assert(decimal(n)[0] == d[0]);
        assert(digits_value(decimal(n)) == digits_value(d) * 10 + (digit_char(n % 10) as int
            - '0' as int));
    }
}

/// The parts in order with `sep` between each two neighbours.
pub open spec fn join_with(parts: Seq<Seq<char>>, sep: Seq<char>) -> Seq<char>
    decreases parts.len(),
{
    if parts.len() == 0 {
        Seq::empty()
    } else if parts.len() == 1 {
        parts[0]
    } else {
        join_with(parts.drop_last(), sep) + sep + parts.last()
    }
}

/// Whether `piece` occurs somewhere in `text`.
pub open spec fn occurs_in(piece: Seq<char>, text: Seq<char>) -> bool {
    exists|a: int| 0 <= a && a + piece.len() <= text.len() && #[trigger] text.subrange(a, a + piece.len()) == piece
}

/// Whether `text` ends with `piece`.
pub open spec fn ends_with(text: Seq<char>, piece: Seq<char>) -> bool {
    piece.len() <= text.len() && text.subrange(text.len() - piece.len(), text.len() as int) == piece
}

/// Whether `text` starts with `piece`.
pub open spec fn starts_with(text: Seq<char>, piece: Seq<char>) -> bool {
    piece.len() <= text.len() && text.subrange(0, piece.len() as int) == piece
}

/// Joining one more part adds the separator and that part at the end.
pub proof fn lemma_join_push(parts: Seq<Seq<char>>, last: Seq<char>, sep: Seq<char>)
    requires
        parts.len() > 0,
    ensures
        join_with(parts.push(last), sep) == join_with(parts, sep) + sep + last,
{
    assert(parts.push(last).drop_last() =~= parts);
}

/// Joining two non-empty lists of parts joins their two joins.
pub proof fn lemma_join_concat(a: Seq<Seq<char>>, b: Seq<Seq<char>>, sep: Seq<char>)
    requires
        a.len() > 0,
        b.len() > 0,
    ensures
        join_with(a + b, sep) == join_with(a, sep) + sep + join_with(b, sep),
    decreases b.len(),
{
    if b.len() == 1 {
        assert(a + b =~= a.push(b[0]));
        lemma_join_push(a, b[0], sep);
    } else {
        let b1 = b.drop_last();
        lemma_join_concat(a, b1, sep);
        assert(a + b =~= (a + b1).push(b.last()));
        lemma_join_push(a + b1, b.last(), sep);
        assert(join_with(a + b, sep) =~= join_with(a, sep) + sep + join_with(b, sep));
    }
}

/// A part after the first one appears in the join right behind a separator.
pub proof fn lemma_join_middle(a: Seq<Seq<char>>, line: Seq<char>, b: Seq<Seq<char>>, sep: Seq<char>)
    requires
        a.len() > 0,
    ensures
        occurs_in(sep + line, join_with(a + seq![line] + b, sep)),
{
    let text = join_with(a + seq![line] + b, sep);
    let ja = join_with(a, sep);
    let piece = sep + line;
    if b.len() == 0 {
        assert(a + seq![line] + b =~= a.push(line));
        lemma_join_push(a, line, sep);
        assert(text =~= ja + piece);
    } else {
        assert(a + seq![line] + b =~= a + (seq![line] + b));
        lemma_join_concat(a, seq![line] + b, sep);
        lemma_join_concat(seq![line], b, sep);
        assert(join_with(seq![line], sep) == line);
        assert(text =~= ja + piece + (sep + join_with(b, sep)));
    }
    assert(text.subrange(ja.len() as int, (ja.len() + piece.len()) as int) =~= piece);
}

/// The last part appears at the end of the join, right behind a separator.
pub proof fn lemma_join_last(a: Seq<Seq<char>>, line: Seq<char>, sep: Seq<char>)
    requires
        a.len() > 0,
    ensures
        ends_with(join_with(a.push(line), sep), sep + line),
{
    lemma_join_push(a, line, sep);
    let text = join_with(a.push(line), sep);
    assert(text.subrange(text.len() - (sep + line).len(), text.len() as int) =~= sep + line);
}

/// The first part appears at the start of the join.
pub proof fn lemma_join_first(first: Seq<char>, b: Seq<Seq<char>>, sep: Seq<char>)
    ensures
        starts_with(join_with(seq![first] + b, sep), first),
{
    let text = join_with(seq![first] + b, sep);
    if b.len() == 0 {
        assert(seq![first] + b =~= seq![first]);
        assert(text.subrange(0, first.len() as int) =~= first);
    } else {
        lemma_join_concat(seq![first], b, sep);
        assert(join_with(seq![first], sep) == first);
        assert(text.subrange(0, first.len() as int) =~= first);
    }
}

fn digit_str(d: u64) -> (s: &'static str)
    requires
        d < 10,
    ensures
        s@ == seq![digit_char(d as nat)],
{
    if d == 0 {
        proof { reveal_strlit("0"); }
        "0"
    } else if d == 1 {
        proof { reveal_strlit("1"); }
        "1"
    } else if d == 2 {
        proof { reveal_strlit("2"); }
        "2"
    } else if d == 3 {
        proof { reveal_strlit("3"); }
        "3"
    } else if d == 4 {
        proof { reveal_strlit("4"); }
        "4"
    } else if d == 5 {
        proof { reveal_strlit("5"); }
        "5"
    } else if d == 6 {
        proof { reveal_strlit("6"); }
        "6"
    } else if d == 7 {
        proof { reveal_strlit("7"); }
        "7"
    } else if d == 8 {
        proof { reveal_strlit("8"); }
        "8"
    } else {
        proof { reveal_strlit("9"); }
        "9"
    }
}

/// Appends `n` in decimal to `out`.
pub(crate) fn push_decimal(out: &mut String, n: u64)
    ensures
        final(out)@ == old(out)@ + decimal(n as nat),
    decreases n,
{
    if n >= 10 {
        push_decimal(out, n / 10);
    }
    out.append(digit_str(n % 10));
    assert(final(out)@ =~= old(out)@ + decimal(n as nat));
}

/// Joins `parts` with `sep` between each two neighbours.
pub(crate) fn join_strings(parts: &Vec<String>, sep: &str) -> (s: String)
    ensures
        s@ == join_with(string_views(parts@), sep@),
{
    let mut s = String::new();
    let mut i: usize = 0;
    while i < parts.len()
        invariant
            i <= parts.len(),
            s@ == join_with(string_views(parts@).take(i as int), sep@),
        decreases parts.len() - i,
    {
        let ghost prev = string_views(parts@).take(i as int);
        let ghost next = string_views(parts@).take(i + 1);
        assert(next.drop_last() =~= prev);
        assert(next.last() == parts@[i as int]@);
        if i > 0 {
            s.append(sep);
        } else {
            assert(next.len() == 1);
        }
        s.append(parts[i].as_str());
        i += 1;
    }
    assert(string_views(parts@).take(i as int) =~= string_views(parts@));
    s
}

} // verus!
