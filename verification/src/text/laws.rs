//! That rendered numbers can be read back.

use vstd::prelude::*;
use crate::text::{
    digit_text, hex_digit_text, hex_digits, hex_text, int_text, items_text, list_text, nat_text,
};

verus! {

/// The value of a digit, in base ten or sixteen.
pub open spec fn digit_value(c: char) -> int {
    if c <= '9' {
        c as int - '0' as int
    } else {
        c as int - 'a' as int + 10
    }
}

/// The number that digits spell in a base.
pub open spec fn spelled(s: Seq<char>, base: int) -> int
    decreases s.len(),
{
    if s.len() == 0 {
        0
    } else {
        spelled(s.drop_last(), base) * base + digit_value(s.last())
    }
}

proof fn lemma_digit(d: nat)
    requires
        d < 10,
    ensures
        digit_text(d).len() == 1,
        '0' <= digit_text(d)[0] <= '9',
        digit_value(digit_text(d)[0]) == d,
{
    reveal_strlit("0");
    reveal_strlit("1");
    reveal_strlit("2");
    reveal_strlit("3");
    reveal_strlit("4");
    reveal_strlit("5");
    reveal_strlit("6");
    reveal_strlit("7");
    reveal_strlit("8");
    reveal_strlit("9");
}

proof fn lemma_hex_digit(d: nat)
    requires
        d < 16,
    ensures
        hex_digit_text(d).len() == 1,
        digit_value(hex_digit_text(d)[0]) == d,
        '0' <= hex_digit_text(d)[0] <= '9' || 'a' <= hex_digit_text(d)[0] <= 'f',
{
    reveal_strlit("a");
    reveal_strlit("b");
    reveal_strlit("c");
    reveal_strlit("d");
    reveal_strlit("e");
    reveal_strlit("f");
    if d < 10 {
        lemma_digit(d);
    }
}

/// A rendered number is its decimal digits, without a leading zero but for the
/// number 0 itself.
pub proof fn law_decimal_reads_back(n: nat)
    ensures
        nat_text(n).len() > 0,
        forall|i: int| 0 <= i < nat_text(n).len() ==> '0' <= #[trigger] nat_text(n)[i] <= '9',
        spelled(nat_text(n), 10) == n,
        n > 0 ==> nat_text(n)[0] != '0',
        n == 0 ==> nat_text(n).len() == 1,
    decreases n,
{
    if n < 10 {
        lemma_digit(n);
        let s = nat_text(n);
        assert(s.drop_last() =~= Seq::<char>::empty());
        assert(spelled(s.drop_last(), 10) == 0);
    } else {
        law_decimal_reads_back(n / 10);
        lemma_digit(n % 10);
        let s = nat_text(n);
        assert(s.drop_last() =~= nat_text(n / 10));
        assert(s.last() == digit_text(n % 10)[0]);
        assert forall|i: int| 0 <= i < s.len() implies '0' <= #[trigger] s[i] <= '9' by {
            if i < s.len() - 1 {
                assert(s[i] == nat_text(n / 10)[i]);
            }
        }
        assert(s[0] == nat_text(n / 10)[0]);
    }
}

/// A negative number is rendered as a minus and its magnitude; no two numbers
/// are rendered alike.
pub proof fn law_integers_read_back(a: int, b: int)
    ensures
        a < 0 ==> int_text(a)[0] == '-' && spelled(int_text(a).skip(1), 10) == -a,
        a >= 0 ==> spelled(int_text(a), 10) == a,
        int_text(a) == int_text(b) ==> a == b,
{
    reveal_strlit("-");
    lemma_sign(a);
    lemma_sign(b);
}

proof fn lemma_sign(a: int)
    ensures
        a < 0 ==> int_text(a).len() > 0 && int_text(a)[0] == '-' && spelled(
            int_text(a).skip(1),
            10,
        ) == -a,
        a >= 0 ==> int_text(a).len() > 0 && int_text(a)[0] != '-' && spelled(int_text(a), 10) == a,
{
    reveal_strlit("-");
    if a < 0 {
        law_decimal_reads_back((-a) as nat);
        assert(int_text(a).skip(1) =~= nat_text((-a) as nat));
    } else {
        law_decimal_reads_back(a as nat);
    }
}

proof fn lemma_hex(n: nat, k: nat)
    requires
        n < hex_range(k),
    ensures
        hex_digits(n, k).len() == k,
        spelled(hex_digits(n, k), 16) == n,
    decreases k,
{
    if k == 0 {
        reveal_strlit("");
        assert(hex_digits(n, k) =~= Seq::<char>::empty());
    } else {
        assert(n / 16 < hex_range((k - 1) as nat)) by (nonlinear_arith)
            requires
                n < 16 * hex_range((k - 1) as nat),
        ;
        lemma_hex(n / 16, (k - 1) as nat);
        lemma_hex_digit(n % 16);
        let s = hex_digits(n, k);
        assert(s.drop_last() =~= hex_digits(n / 16, (k - 1) as nat));
        assert(s.last() == hex_digit_text(n % 16)[0]);
    }
}

/// How many numbers `k` hexadecimal digits spell.
pub open spec fn hex_range(k: nat) -> nat
    decreases k,
{
    if k == 0 {
        1
    } else {
        16 * hex_range((k - 1) as nat)
    }
}

/// A 32-bit number is rendered as `0x` and eight hexadecimal digits that spell
/// it.
pub proof fn law_hex_reads_back(n: u32)
    ensures
        hex_text(n).len() == 10,
        hex_text(n)[0] == '0',
        hex_text(n)[1] == 'x',
        spelled(hex_text(n).skip(2), 16) == n,
{
    reveal_strlit("0x");
    reveal_with_fuel(hex_range, 9);
    lemma_hex(n as nat, 8);
    assert(hex_text(n).skip(2) =~= hex_digits(n as nat, 8));
}

/// A list is rendered in square brackets, its items one after the other with a
/// comma and a space between.
pub proof fn law_lists_are_bracketed(s: Seq<int>, x: int)
    ensures
        list_text(Seq::<int>::empty()) == seq!['[', ']'],
        list_text(seq![x]) == seq!['['] + int_text(x) + seq![']'],
        s.len() > 0 ==> list_text(s.push(x)) == list_text(s).drop_last() + seq![',', ' '] + int_text(
            x,
        ) + seq![']'],
{
    reveal_strlit("[");
    reveal_strlit("]");
    reveal_strlit("");
    reveal_strlit(", ");
    assert(list_text(Seq::<int>::empty()) =~= seq!['[', ']']);
    assert("["@ =~= seq!['[']);
    assert("]"@ =~= seq![']']);
    assert(", "@ =~= seq![',', ' ']);
    if s.len() > 0 {
        assert(s.push(x).drop_last() =~= s);
        assert(list_text(s).drop_last() =~= "["@ + items_text(s));
        assert(list_text(s.push(x)) =~= "["@ + items_text(s) + seq![',', ' '] + int_text(x) + seq![
            ']',
        ]);
    }
}

} // verus!
