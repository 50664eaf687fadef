//! Names with numbers.

use vstd::prelude::*;
use vstd::string::StringExecFns;

verus! {

/// The digit for `d`.
pub open spec fn digit(d: nat) -> char {
    if d == 0 {
        '0'
    } else if d == 1 {
        '1'
    } else if d == 2 {
        '2'
    } else if d == 3 {
        '3'
    } else if d == 4 {
        '4'
    } else if d == 5 {
        '5'
    } else if d == 6 {
        '6'
    } else if d == 7 {
        '7'
    } else if d == 8 {
        '8'
    } else {
        '9'
    }
}

/// `n` in decimal digits.
pub open spec fn decimal(n: nat) -> Seq<char>
    decreases n,
{
    if n < 10 {
        seq![digit(n)]
    } else {
        decimal(n / 10).push(digit(n % 10))
    }
}

/// Adds the digit for `d` to `text`.
fn push_digit(text: &mut String, d: usize)
    requires
        d < 10,
    ensures
        final(text)@ == old(text)@.push(digit(d as nat)),
{
    proof {
        reveal_strlit("0");
        reveal_strlit("1");
        reveal_strlit("2");
        reveal_strlit("3");
        reveal_strlit("4");
        reveal_strlit("5");
        reveal_strlit("6");
        reveal_strlit("7");
        reveal_strlit("8");
        reveal_strlit("9");
    }
    let text_of_digit: &str = if d == 0 {
        "0"
    } else if d == 1 {
        "1"
    } else if d == 2 {
        "2"
    } else if d == 3 {
        "3"
    } else if d == 4 {
        "4"
    } else if d == 5 {
        "5"
    } else if d == 6 {
        "6"
    } else if d == 7 {
        "7"
    } else if d == 8 {
        "8"
    } else {
        "9"
    };
    assert(text_of_digit@ =~= seq![digit(d as nat)]);
    text.append(text_of_digit);
    assert(text@ =~= old(text)@.push(digit(d as nat)));
}

/// Adds `n` in decimal digits to `text`.
fn push_decimal(text: &mut String, n: usize)
    ensures
        final(text)@ == old(text)@ + decimal(n as nat),
    decreases n,
{
    if n < 10 {
        push_digit(text, n);
    } else {
        push_decimal(text, n / 10);
        push_digit(text, n % 10);
    }
    assert(text@ =~= old(text)@ + decimal(n as nat));
}

/// `prefix`, with `n` in decimal digits behind it.
pub fn numbered_name(prefix: &str, n: usize) -> (r: String)
    ensures
        r@ == prefix@ + decimal(n as nat),
{
    let mut r = prefix.to_string();
    push_decimal(&mut r, n);
    r
}

/// As many names as `count`, numbered from one.
pub open spec fn name_list(prefix: Seq<char>, count: nat) -> Seq<Seq<char>> {
    Seq::new(count, |i: int| prefix + decimal((i + 1) as nat))
}

/// What each of `names` says.
pub open spec fn texts(names: Seq<String>) -> Seq<Seq<char>> {
    names.map_values(|s: String| s@)
}

/// As many names as `count`, numbered from one.
pub fn numbered_names(prefix: &str, count: usize) -> (r: Vec<String>)
    ensures
        texts(r@) == name_list(prefix@, count as nat),
        r@.len() == count,
{
    let mut r: Vec<String> = Vec::new();
    let mut i: usize = 0;
    while i < count
        invariant
            i <= count,
            r@.len() == i,
            forall|k: int|
                0 <= k < i ==> (#[trigger] r@[k])@ == prefix@ + decimal((k + 1) as nat),
        decreases count - i,
    {
        r.push(numbered_name(prefix, i + 1));
        i += 1;
    }
    assert(texts(r@) =~= name_list(prefix@, count as nat));
    r
}

/// The value of a digit.
pub open spec fn digit_value(c: char) -> int {
    c as int - '0' as int
}

/// The number that digits say.
pub open spec fn said(s: Seq<char>) -> int
    decreases s.len(),
{
    if s.len() == 0 {
        0
    } else {
        10 * said(s.drop_last()) + digit_value(s.last())
    }
}

/// The digits of a number say that number, and there is no zero in front of them but for zero
/// itself.
pub proof fn law_number_said(n: nat)
    ensures
        said(decimal(n)) == n,
        decimal(n).len() > 0,
        forall|i: int| 0 <= i < decimal(n).len() ==> 0 <= #[trigger] digit_value(decimal(n)[i]) <= 9,
        n > 0 ==> decimal(n)[0] != '0',
    decreases n,
{
    reveal_with_fuel(said, 2);
    if n >= 10 {
        law_number_said(n / 10);
        assert(decimal(n).drop_last() =~= decimal(n / 10));
        let d = n % 10;
        assert(digit_value(digit(d)) == d);
        assert forall|i: int| 0 <= i < decimal(n).len() implies 0 <= #[trigger] digit_value(
            decimal(n)[i],
        ) <= 9 by {
            if i < decimal(n / 10).len() {
                assert(decimal(n)[i] == decimal(n / 10)[i]);
            }
        }
    } else {
        assert(decimal(n).drop_last() =~= Seq::<char>::empty());
        assert(digit_value(digit(n)) == n);
    }
}

/// Names are numbered from one on, and no two are the same.
pub proof fn law_names_numbered(prefix: Seq<char>, count: nat, i: int)
    requires
        0 <= i < count,
    ensures
        name_list(prefix, count).len() == count,
        name_list(prefix, count)[i].take(prefix.len() as int) == prefix,
        said(name_list(prefix, count)[i].skip(prefix.len() as int)) == i + 1,
        i < 9 ==> name_list(prefix, count)[i].len() == prefix.len() + 1,
        i == 0 ==> name_list(prefix, count)[i] == prefix.push('1'),
        forall|j: int| 0 <= j < count && j != i ==> #[trigger] name_list(prefix, count)[j]
            != name_list(prefix, count)[i],
{
    let names = name_list(prefix, count);
    assert forall|j: int| 0 <= j < count implies said(
        (#[trigger] names[j]).skip(prefix.len() as int),
    ) == j + 1 by {
        law_number_said((j + 1) as nat);
        assert(names[j].skip(prefix.len() as int) =~= decimal((j + 1) as nat));
    }
    assert(names[i].take(prefix.len() as int) =~= prefix);
    if i == 0 {
        assert(decimal(1) =~= seq!['1']);
        assert(names[0] =~= prefix.push('1'));
    }
    assert forall|j: int| 0 <= j < count && j != i implies #[trigger] names[j] != names[i] by {
        assert(said(names[j].skip(prefix.len() as int)) == j + 1);
        assert(said(names[i].skip(prefix.len() as int)) == i + 1);
    }
}

/// Texts are those of the strings, in their order.
pub proof fn law_texts_as_they_are(names: Seq<String>, k: int)
    ensures
        texts(names).len() == names.len(),
        0 <= k < names.len() ==> texts(names)[k] == names[k]@,
{
}

} // verus!
