//! What the pieces of text say: numbers can be read back, and columns and names are aligned and
//! joined as they should be.

use crate::model::{MOVES, PASS};
use crate::pretty::{letter, vertex};
use crate::text::{aligned, decimal, decimal_nat, digit, joined, spaces};
use vstd::prelude::*;

verus! {

/// How often a character occurs in a text.
pub open spec fn occurrences(s: Seq<char>, c: char) -> int
    decreases s.len(),
{
    if s.len() == 0 {
        0
    } else {
        occurrences(s.drop_last(), c) + if s.last() == c {
            1int
        } else {
            0
        }
    }
}

/// Whether a text occurs in another one.
pub open spec fn occurs(part: Seq<char>, whole: Seq<char>) -> bool {
    exists|a: Seq<char>, b: Seq<char>| whole == #[trigger] (a + part + b)
}

/// The number that a text of digits stands for, in base ten.
pub open spec fn reading(s: Seq<char>) -> int
    decreases s.len(),
{
    if s.len() == 0 {
        0
    } else {
        10 * reading(s.drop_last()) + (s.last() as int - '0' as int)
    }
}

/// A character occurs in two texts, one after the other, as often as in both of them.
pub proof fn lemma_occurrences_join(a: Seq<char>, b: Seq<char>, c: char)
    ensures
        occurrences(a + b, c) == occurrences(a, c) + occurrences(b, c),
    decreases b.len(),
{
    if b.len() == 0 {
        assert(a + b =~= a);
    } else {
        assert((a + b).drop_last() =~= a + b.drop_last());
        lemma_occurrences_join(a, b.drop_last(), c);
    }
}

/// A character that is nowhere in a text does not occur in it.
pub proof fn lemma_occurrences_none(s: Seq<char>, c: char)
    requires
        forall|i: int| 0 <= i < s.len() ==> #[trigger] s[i] != c,
    ensures
        occurrences(s, c) == 0,
    decreases s.len(),
{
    if s.len() > 0 {
        assert(s[s.len() - 1] != c);
        assert forall|i: int| 0 <= i < s.drop_last().len() implies #[trigger] s.drop_last()[i]
            != c by {
            assert(s[i] != c);
        }
        lemma_occurrences_none(s.drop_last(), c);
    }
}

/// The digits are the characters from `0` on.
pub proof fn law_digit(d: int)
    requires
        0 <= d < 10,
    ensures
        digit(d).len() == 1,
        digit(d)[0] as int == '0' as int + d,
{
    reveal_strlit("0");
    reveal_strlit("1");
    reveal_strlit("2");
    reveal_strlit("3");
    reveal_strlit("4");
    reveal_strlit("5");
    reveal_strlit("6");
    reveal_strlit("7");
    reveal_strlit("8");
    reveal_strlit("9");
}

/// A natural number in base ten is made of digits, reads as the number, and has no zero in
/// front.
pub proof fn law_decimal_nat(n: nat)
    ensures
        decimal_nat(n).len() >= 1,
        forall|i: int|
            0 <= i < decimal_nat(n).len() ==> '0' as int <= (#[trigger] decimal_nat(n)[i]) as int
                <= '9' as int,
        reading(decimal_nat(n)) == n,
        n > 0 ==> decimal_nat(n)[0] as int != '0' as int,
        n == 0 ==> decimal_nat(n).len() == 1,
    decreases n,
{
    let text = decimal_nat(n);
    reveal_with_fuel(reading, 2);
    if n < 10 {
        law_digit(n as int);
        assert(text.drop_last() =~= Seq::empty());
    } else {
        law_decimal_nat(n / 10);
        law_digit((n % 10) as int);
        let init = decimal_nat(n / 10);
        assert(text.drop_last() =~= init);
        assert forall|i: int| 0 <= i < text.len() implies '0' as int <= (#[trigger] text[i]) as int
            <= '9' as int by {
            if i < init.len() {
                assert(text[i] == init[i]);
            }
        }
        assert(text[0] == init[0]);
    }
}

/// An integer in base ten is a natural number, with a minus in front if it is negative.
pub proof fn law_decimal(n: int)
    ensures
        n >= 0 ==> reading(decimal(n)) == n && decimal(n)[0] != '-',
        n < 0 ==> decimal(n)[0] == '-' && reading(decimal(n).drop_first()) == -n,
        forall|i: int|
            0 <= i < decimal(n).len() ==> (#[trigger] decimal(n)[i] == '-' || '0' as int
                <= decimal(n)[i] as int <= '9' as int),
{
    reveal_strlit("-");
    if n < 0 {
        law_decimal_nat((-n) as nat);
        let digits = decimal_nat((-n) as nat);
        assert(decimal(n).drop_first() =~= digits);
        assert forall|i: int| 0 <= i < decimal(n).len() implies (#[trigger] decimal(n)[i] == '-'
            || '0' as int <= decimal(n)[i] as int <= '9' as int) by {
            if i > 0 {
                assert(decimal(n)[i] == digits[i - 1]);
            }
        }
    } else {
        law_decimal_nat(n as nat);
    }
}

/// An integer in base ten holds nothing but digits and a minus.
pub proof fn lemma_decimal_none(n: int, c: char)
    requires
        c != '-',
        !('0' as int <= c as int <= '9' as int),
    ensures
        occurrences(decimal(n), c) == 0,
{
    law_decimal(n);
    lemma_occurrences_none(decimal(n), c);
}

/// So many spaces are spaces, and that many.
pub proof fn law_spaces(n: nat)
    ensures
        spaces(n).len() == n,
        forall|i: int| 0 <= i < n ==> #[trigger] spaces(n)[i] == ' ',
    decreases n,
{
    reveal_strlit(" ");
    if n > 0 {
        law_spaces((n - 1) as nat);
    }
}

/// Aligned text ends with the text, has spaces in front of it, and is as wide as it has to be.
pub proof fn law_aligned(text: Seq<char>, width: nat)
    ensures
        aligned(text, width).len() == if text.len() < width {
            width
        } else {
            text.len()
        },
        aligned(text, width).skip(aligned(text, width).len() - text.len()) == text,
        forall|i: int|
            0 <= i < aligned(text, width).len() - text.len() ==> #[trigger] aligned(text, width)[i]
                == ' ',
{
    if text.len() < width {
        law_spaces((width - text.len()) as nat);
    }
    assert(aligned(text, width).skip(aligned(text, width).len() - text.len()) =~= text);
}

/// Two lists of words, joined, are the one list and the other with a space between them.
pub proof fn law_joined(a: Seq<Seq<char>>, b: Seq<Seq<char>>, word: Seq<char>)
    ensures
        joined(Seq::empty()) == Seq::<char>::empty(),
        joined(seq![word]) == word,
        a.len() > 0 && b.len() > 0 ==> joined(a + b) == joined(a) + seq![' '] + joined(b),
    decreases b.len(),
{
    reveal_strlit(" ");
    assert(" "@ =~= seq![' ']);
    if a.len() > 0 && b.len() > 0 {
        assert((a + b).drop_last() =~= a + b.drop_last());
        assert((a + b).last() == b.last());
        if b.len() == 1 {
            assert(a + b.drop_last() =~= a);
            assert(joined(b) == b.last());
        } else {
            law_joined(a, b.drop_last(), word);
            assert(joined(a + b) =~= joined(a) + seq![' '] + joined(b));
        }
    }
}

/// The columns are lettered in alphabetical order, without the letter `i`.
pub proof fn law_letter(x: int)
    requires
        0 <= x < 19,
    ensures
        letter(x).len() == 1,
        x < 8 ==> letter(x)[0] as int == 'a' as int + x,
        x >= 8 ==> letter(x)[0] as int == 'a' as int + x + 1,
{
    reveal_strlit("a");
    reveal_strlit("b");
    reveal_strlit("c");
    reveal_strlit("d");
    reveal_strlit("e");
    reveal_strlit("f");
    reveal_strlit("g");
    reveal_strlit("h");
    reveal_strlit("j");
    reveal_strlit("k");
    reveal_strlit("l");
    reveal_strlit("m");
    reveal_strlit("n");
    reveal_strlit("o");
    reveal_strlit("p");
    reveal_strlit("q");
    reveal_strlit("r");
    reveal_strlit("s");
    reveal_strlit("t");
}

/// The name of a move is the letter of its column and the number of its row, counted from one,
/// or that it is a pass.
pub proof fn law_vertex(i: int)
    requires
        0 <= i < MOVES,
    ensures
        i == PASS ==> vertex(i) == seq!['p', 'a', 's', 's'],
        i != PASS ==> {
            &&& vertex(i)[0] as int == 'a' as int + i % 19 + if i % 19 < 8 {
                0int
            } else {
                1
            }
            &&& reading(vertex(i).drop_first()) == i / 19 + 1
        },
{
    if i == PASS {
        reveal_strlit("pass");
        assert("pass"@ =~= seq!['p', 'a', 's', 's']);
    } else {
        law_letter(i % 19);
        law_decimal(i / 19 + 1);
        assert(vertex(i).drop_first() =~= decimal(i / 19 + 1));
    }
}

/// No two moves have the same name.
pub proof fn law_vertex_names(i: int, j: int)
    requires
        0 <= i < MOVES,
        0 <= j < MOVES,
        vertex(i) == vertex(j),
    ensures
        i == j,
{
    law_vertex(i);
    law_vertex(j);
    if i == PASS || j == PASS {
        let k = if i == PASS {
            j
        } else {
            i
        };
        if k != PASS {
            law_decimal(k / 19 + 1);
            law_letter(k % 19);
            assert(vertex(k).drop_first() =~= decimal(k / 19 + 1));
            assert(vertex(k)[1] == decimal(k / 19 + 1)[0]);
            assert(vertex(k)[1] == 'a');
        }
    }
}

} // verus!
