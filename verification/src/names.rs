//! Player names: a connecting player whose name is taken gets the name with
//! the least free number appended (`"name 2"`, `"name 3"`, ...).

use vstd::prelude::*;

verus! {

/// The character of a decimal digit.
pub open spec fn digit_char(d: int) -> char {
    if d == 0 {
        '0'
    } else if d == 1 {
        '1'
    } else if d == 2 {
        '2'
    } else if d == 3 {
        '3'
    } else if d == 4 {
        '4'
    } else if d == 5 {
        '5'
    } else if d == 6 {
        '6'
    } else if d == 7 {
        '7'
    } else if d == 8 {
        '8'
    } else {
        '9'
    }
}

/// The decimal representation of a number, as `Display` writes it.
pub open spec fn decimal(n: nat) -> Seq<char>
    decreases n,
{
    if n < 10 {
        seq![digit_char(n as int)]
    } else {
        decimal(n / 10).push(digit_char((n % 10) as int))
    }
}

/// `base`, a space and the number `i`.
pub open spec fn numbered(base: Seq<char>, i: nat) -> Seq<char> {
    base + seq![' '] + decimal(i)
}

/// The names as sequences of characters.
pub open spec fn names_view(names: Seq<String>) -> Seq<Seq<char>> {
    names.map_values(|n: String| n@)
}

/// The least number from 2 on whose numbered name is free.
pub open spec fn least_free_number(base: Seq<char>, names: Seq<Seq<char>>) -> nat {
    choose|i: nat|
        #![trigger numbered(base, i)]
        i >= 2 && !names.contains(numbered(base, i)) && forall|j: nat|
            2 <= j < i ==> names.contains(#[trigger] numbered(base, j))
}

/// The name a connecting player called `base` gets: `base` itself when it is
/// free, or else `base` with the least free number from 2 on.
pub open spec fn unused_name(base: Seq<char>, names: Seq<Seq<char>>) -> Seq<char> {
    if !names.contains(base) {
        base
    } else {
        numbered(base, least_free_number(base, names))
    }
}

proof fn lemma_decimal_len(n: nat)
    ensures
        decimal(n).len() >= 1,
        n >= 10 ==> decimal(n).len() >= 2,
    decreases n,
{
    if n >= 10 {
        lemma_decimal_len(n / 10);
    }
}

/// Different numbers have different decimal representations.
pub proof fn lemma_decimal_injective(a: nat, b: nat)
    requires
        decimal(a) == decimal(b),
    ensures
        a == b,
    decreases a + b,
{
    lemma_decimal_len(a);
    lemma_decimal_len(b);
    if a < 10 && b < 10 {
        assert(decimal(a)[0] == digit_char(a as int));
        assert(decimal(b)[0] == digit_char(b as int));
    } else if a >= 10 && b >= 10 {
        let da = decimal(a);
        let db = decimal(b);
        assert(da.last() == digit_char((a % 10) as int));
        assert(db.last() == digit_char((b % 10) as int));
        assert(da.drop_last() =~= decimal(a / 10));
        assert(db.drop_last() =~= decimal(b / 10));
        lemma_decimal_injective(a / 10, b / 10);
    } else {
        assert(decimal(a).len() != decimal(b).len());
    }
}

/// Different numbers give different numbered names.
pub proof fn lemma_numbered_injective(base: Seq<char>, a: nat, b: nat)
    requires
        numbered(base, a) == numbered(base, b),
    ensures
        a == b,
{
    let k = base.len() + 1;
    assert(numbered(base, a).subrange(k as int, numbered(base, a).len() as int) =~= decimal(a));
    assert(numbered(base, b).subrange(k as int, numbered(base, b).len() as int) =~= decimal(b));
    lemma_decimal_injective(a, b);
}

/// When `base` and the numbered names from 2 up to `i` are all taken, `i` is
/// at most the number of names.
proof fn lemma_taken_numbers_bound(base: Seq<char>, names: Seq<Seq<char>>, i: nat)
    requires
        i >= 2,
        names.contains(base),
        forall|j: nat| 2 <= j <= i ==> names.contains(#[trigger] numbered(base, j)),
    ensures
        i <= names.len(),
{
    let s = Seq::new(i, |k: int| if k == 0 { base } else { numbered(base, (k + 1) as nat) });
    assert(s.no_duplicates()) by {
        assert forall|x: int, y: int| 0 <= x < s.len() && 0 <= y < s.len() && x != y implies s[x] != s[y] by {
            if x != 0 && y != 0 && s[x] == s[y] {
                lemma_numbered_injective(base, (x + 1) as nat, (y + 1) as nat);
            }
            if x == 0 {
                assert(numbered(base, (y + 1) as nat).len() > base.len());
            }
            if y == 0 {
                assert(numbered(base, (x + 1) as nat).len() > base.len());
            }
        }
    }
    s.unique_seq_to_set();
    names.lemma_cardinality_of_set();
    assert(s.to_set().subset_of(names.to_set())) by {
        assert forall|x: Seq<char>| s.to_set().contains(x) implies names.to_set().contains(x) by {
            let k = choose|k: int| 0 <= k < s.len() && s[k] == x;
            if k > 0 {
                assert(names.contains(numbered(base, (k + 1) as nat)));
            }
        }
    }
    vstd::seq_lib::seq_to_set_is_finite(names);
    vstd::set_lib::lemma_len_subset(s.to_set(), names.to_set());
}

/// `i` is the least free number from 2 on.
proof fn lemma_least_free_number(base: Seq<char>, names: Seq<Seq<char>>, i: nat)
    requires
        i >= 2,
        !names.contains(numbered(base, i)),
        forall|j: nat| 2 <= j < i ==> names.contains(#[trigger] numbered(base, j)),
    ensures
        least_free_number(base, names) == i,
{
    let l = least_free_number(base, names);
    assert(l >= 2 && !names.contains(numbered(base, l)) && forall|j: nat|
        2 <= j < l ==> names.contains(#[trigger] numbered(base, j)));
    if l < i {
        assert(names.contains(numbered(base, l)));
    }
    if i < l {
        assert(names.contains(numbered(base, i)));
    }
}

proof fn lemma_free_number_from(base: Seq<char>, names: Seq<Seq<char>>, i: nat)
    requires
        i >= 2,
        names.contains(base),
        forall|j: nat| 2 <= j < i ==> names.contains(#[trigger] numbered(base, j)),
    ensures
        !names.contains(numbered(base, least_free_number(base, names))),
    decreases names.len() + 2 - i,
{
    if !names.contains(numbered(base, i)) {
        lemma_least_free_number(base, names, i);
    } else {
        lemma_taken_numbers_bound(base, names, i);
        lemma_free_number_from(base, names, i + 1);
    }
}

/// The name a connecting player gets is not in use.
pub proof fn lemma_unused_name(base: Seq<char>, names: Seq<Seq<char>>)
    ensures
        !names.contains(unused_name(base, names)),
{
    if names.contains(base) {
        lemma_free_number_from(base, names, 2);
    }
}

/// The character string of a digit.
fn digit_str(d: usize) -> (r: &'static str)
    requires
        d < 10,
    ensures
        r@ == seq![digit_char(d as int)],
{
    if d == 0 {
        proof { reveal_strlit("0"); }
        "0"
    } else if d == 1 {
        proof { reveal_strlit("1"); }
        "1"
    } else if d == 2 {
        proof { reveal_strlit("2"); }
        "2"
    } else if d == 3 {
        proof { reveal_strlit("3"); }
        "3"
    } else if d == 4 {
        proof { reveal_strlit("4"); }
        "4"
    } else if d == 5 {
        proof { reveal_strlit("5"); }
        "5"
    } else if d == 6 {
        proof { reveal_strlit("6"); }
        "6"
    } else if d == 7 {
        proof { reveal_strlit("7"); }
        "7"
    } else if d == 8 {
        proof { reveal_strlit("8"); }
        "8"
    } else {
        proof { reveal_strlit("9"); }
        "9"
    }
}

/// Appends the decimal representation of `n`.
pub fn push_decimal(s: &mut String, n: usize)
    ensures
        final(s)@ == old(s)@ + decimal(n as nat),
    decreases n,
{
    if n < 10 {
        s.append(digit_str(n));
    } else {
        push_decimal(s, n / 10);
        s.append(digit_str(n % 10));
        proof {
            assert(decimal(n as nat) == decimal((n / 10) as nat).push(digit_char((n % 10) as int)));
        }
    }
    proof {
        assert(s@ =~= old(s)@ + decimal(n as nat));
    }
}

/// `base`, a space and the number `i`.
pub fn numbered_name(base: &String, i: usize) -> (r: String)
    ensures
        r@ == numbered(base@, i as nat),
{
    let mut r = base.clone();
    proof { reveal_strlit(" "); }
    r.append(" ");
    push_decimal(&mut r, i);
    proof {
        assert(r@ =~= numbered(base@, i as nat));
    }
    r
}

/// Whether a name is among the names.
pub fn contains_name(names: &Vec<String>, name: &String) -> (r: bool)
    ensures
        r == names_view(names@).contains(name@),
{
    let mut i: usize = 0;
    while i < names.len()
        invariant
            i <= names@.len(),
            forall|j: int| 0 <= j < i ==> #[trigger] names@[j]@ != name@,
        decreases names.len() - i,
    {
        if names[i] == *name {
            proof {
                assert(names_view(names@)[i as int] == name@);
            }
            return true;
        }
        i = i + 1;
    }
    proof {
        assert forall|j: int| 0 <= j < names_view(names@).len() implies names_view(names@)[j] != name@ by {
            assert(names_view(names@)[j] == names@[j]@);
        }
    }
    false
}

/// The name a connecting player called `base` gets, given the names in use.
pub fn unused_name_for(names: &Vec<String>, base: &String) -> (r: String)
    requires
        names@.len() < usize::MAX,
    ensures
        r@ == unused_name(base@, names_view(names@)),
        !names_view(names@).contains(r@),
{
    let ghost nv = names_view(names@);
    let mut i: usize = 1;
    let mut name = base.clone();
    while contains_name(names, &name)
        invariant
            nv == names_view(names@),
            names@.len() < usize::MAX,
            1 <= i <= names@.len() + 1,
            i == 1 ==> name@ == base@,
            i >= 2 ==> name@ == numbered(base@, i as nat) && nv.contains(base@),
            forall|j: nat| 2 <= j < i ==> nv.contains(#[trigger] numbered(base@, j)),
        decreases names@.len() + 1 - i,
    {
        proof {
            if i >= 2 {
                assert forall|j: nat| 2 <= j <= i implies nv.contains(#[trigger] numbered(base@, j)) by {
                    if j == i {
                        assert(name@ == numbered(base@, j));
                    }
                }
                lemma_taken_numbers_bound(base@, nv, i as nat);
            } else {
                assert(nv.contains(base@));
            }
        }
        i = i + 1;
        name = numbered_name(base, i);
    }
    proof {
        if i >= 2 {
            lemma_least_free_number(base@, nv, i as nat);
        }
    }
    name
}

} // verus!
