//! Digit grouping for displaying monetary amounts.
//!
//! An amount arrives as a non-negative decimal string with at most one `.`.
//! [`split_digits`] splits it into an integer part and a fractional part,
//! right-pads the fractional part with `'0'` to eight digits, and clusters
//! each part into groups of three digits, counting from the rightmost digit,
//! joined by single spaces.

use vstd::prelude::*;

verus! {

/// Number of fractional digits an amount is displayed with: the fractional
/// part is right-padded with zeros to this width before grouping.
pub const FRACTION_DIGITS: usize = 8;

/// A decimal digit character.
pub open spec fn is_digit(c: char) -> bool {
    '0' <= c && c <= '9'
}

/// Every character of `s` is a decimal digit.
pub open spec fn all_digits(s: Seq<char>) -> bool {
    forall|i: int| 0 <= i < s.len() ==> is_digit(#[trigger] s[i])
}

/// `s` contains a `.` somewhere.
pub open spec fn has_dot(s: Seq<char>) -> bool {
    exists|i: int| 0 <= i < s.len() && s[i] == '.'
}

/// Index of the first `.` in `s`, or `s.len()` if there is none.
pub open spec fn first_dot(s: Seq<char>) -> int
    decreases s.len(),
{
    if s.len() == 0 {
        0
    } else if s[0] == '.' {
        0
    } else {
        1 + first_dot(s.skip(1))
    }
}

/// The digits before the first `.`, or all of `s` if there is no `.`.
pub open spec fn integer_digits(s: Seq<char>) -> Seq<char> {
    if has_dot(s) {
        s.take(first_dot(s))
    } else {
        s
    }
}

/// The digits after the first `.`, or the empty sequence if there is no `.`.
pub open spec fn fraction_digits(s: Seq<char>) -> Seq<char> {
    if has_dot(s) {
        s.skip(first_dot(s) + 1)
    } else {
        Seq::empty()
    }
}

/// `first_dot` is the first index holding a `.`: everything before it is
/// dot-free, and it lies within `s` exactly when `s` has a dot at all.
pub proof fn lemma_first_dot_bounds(s: Seq<char>)
    ensures
        0 <= first_dot(s) <= s.len(),
        first_dot(s) < s.len() ==> s[first_dot(s)] == '.',
        forall|j: int| 0 <= j < first_dot(s) ==> s[j] != '.',
        has_dot(s) <==> first_dot(s) < s.len(),
    decreases s.len(),
{
    if s.len() == 0 {
    } else if s[0] == '.' {
    } else {
        let t = s.skip(1);
        lemma_first_dot_bounds(t);
        assert forall|j: int| 0 <= j < first_dot(s) implies s[j] != '.' by {
            if j > 0 {
                assert(s[j] == t[j - 1]);
            }
        }
        if first_dot(s) == s.len() {
            assert forall|i: int| 0 <= i < s.len() implies s[i] != '.' by {}
        }
    }
}

/// The fractional digits right-padded with `'0'` to `FRACTION_DIGITS`
/// characters. A longer sequence is never truncated.
pub open spec fn pad_fraction(s: Seq<char>) -> Seq<char> {
    if s.len() >= FRACTION_DIGITS {
        s
    } else {
        s + Seq::new((FRACTION_DIGITS - s.len()) as nat, |i: int| '0')
    }
}

/// `s` clustered into groups of three characters, counting from the
/// rightmost character, joined by single spaces. Only the leftmost group may
/// be shorter than three.
pub open spec fn grouped(s: Seq<char>) -> Seq<char>
    decreases s.len(),
{
    if s.len() <= 3 {
        s
    } else {
        grouped(s.take(s.len() - 3)) + seq![' '] + s.skip(s.len() - 3)
    }
}

/// If `i` holds a `.` and nothing before it does, then `i` is `first_dot`.
proof fn lemma_first_dot_found(s: Seq<char>, i: int)
    requires
        0 <= i < s.len(),
        s[i] == '.',
        forall|j: int| 0 <= j < i ==> s[j] != '.',
    ensures
        first_dot(s) == i,
    decreases i,
{
    if i > 0 {
        let t = s.skip(1);
        assert(t[i - 1] == s[i]);
        assert forall|j: int| 0 <= j < i - 1 implies t[j] != '.' by {
            assert(t[j] == s[j + 1]);
        }
        lemma_first_dot_found(t, i - 1);
    }
}

/// Index of the first `.` of `amount`, if any.
fn find_dot(amount: &str) -> (r: Option<usize>)
    ensures
        match r {
            Some(d) => has_dot(amount@) && d == first_dot(amount@),
            None => !has_dot(amount@),
        },
{
    let n = amount.unicode_len();
    let mut i: usize = 0;
    while i < n
        invariant
            n == amount@.len(),
            i <= n,
            forall|j: int| 0 <= j < i ==> amount@[j] != '.',
        decreases n - i,
    {
        if amount.get_char(i) == '.' {
            proof {
                lemma_first_dot_found(amount@, i as int);
            }
            return Some(i);
        }
        i += 1;
    }
    None
}

/// `frac` right-padded with `'0'` to `FRACTION_DIGITS` characters.
fn pad_fraction_exec(frac: &str) -> (r: String)
    ensures
        r@ == pad_fraction(frac@),
{
    let len = frac.unicode_len();
    let mut r = frac.to_owned();
    let mut k = len;
    proof {
        assert(r@ =~= frac@ + Seq::new((k - len) as nat, |i: int| '0'));
    }
    while k < FRACTION_DIGITS
        invariant
            len == frac@.len(),
            len <= k,
            k <= FRACTION_DIGITS || k == len,
            r@ == frac@ + Seq::new((k - len) as nat, |i: int| '0'),
        decreases FRACTION_DIGITS - k,
    {
        r.append("0");
        proof {
            reveal_strlit("0");
            assert(r@ =~= frac@ + Seq::new((k + 1 - len) as nat, |i: int| '0'));
        }
        k += 1;
    }
    proof {
        if len >= FRACTION_DIGITS {
            assert(r@ =~= frac@);
        } else {
            assert(r@ =~= pad_fraction(frac@));
        }
    }
    r
}

/// `part` clustered into space-separated groups of three characters,
/// counting from its rightmost character.
fn group_from_right(part: &str) -> (r: String)
    ensures
        r@ == grouped(part@),
{
    let n = part.unicode_len();
    if n == 0 {
        return String::new();
    }
    let first: usize = if n % 3 == 0 {
        3
    } else {
        n % 3
    };
    let mut r = part.substring_char(0, first).to_owned();
    let mut i = first;
    proof {
        assert(part@.take(first as int) =~= part@.subrange(0, first as int));
    }
    while i < n
        invariant
            n == part@.len(),
            1 <= first <= 3,
            first <= i <= n,
            i % 3 == n % 3,
            r@ == grouped(part@.take(i as int)),
        decreases n - i,
    {
        r.append(" ");
        let chunk = part.substring_char(i, i + 3);
        r.append(chunk);
        proof {
            reveal_strlit(" ");
            let s = part@;
            let t = s.take(i + 3);
            assert(t.take(t.len() - 3) =~= s.take(i as int));
            assert(t.skip(t.len() - 3) =~= s.subrange(i as int, i + 3));
            assert(" "@ =~= seq![' ']);
            assert(r@ =~= grouped(t));
        }
        i += 3;
    }
    proof {
        assert(part@.take(n as int) =~= part@);
    }
    r
}

/// Splits a non-negative decimal string into its integer and fractional
/// digits, pads the fractional digits with `'0'` on the right to
/// `FRACTION_DIGITS` characters, and clusters each part into groups of three
/// digits, counting from the rightmost digit, joined by single spaces.
///
/// A missing `.` is treated as an empty fractional part, which padding turns
/// into eight zeros.
pub fn split_digits(amount: &str) -> (r: (String, String))
    ensures
        r.0@ == grouped(integer_digits(amount@)),
        r.1@ == grouped(pad_fraction(fraction_digits(amount@))),
{
    let n = amount.unicode_len();
    match find_dot(amount) {
        Some(d) => {
            proof {
                lemma_first_dot_bounds(amount@);
            }
            let int_str = amount.substring_char(0, d);
            let frac_str = amount.substring_char(d + 1, n);
            proof {
                assert(int_str@ =~= integer_digits(amount@));
                assert(frac_str@ =~= fraction_digits(amount@));
            }
            let padded = pad_fraction_exec(frac_str);
            (group_from_right(int_str), group_from_right(padded.as_str()))
        },
        None => {
            let padded = pad_fraction_exec("");
            proof {
                reveal_strlit("");
                assert(""@ =~= fraction_digits(amount@));
            }
            (group_from_right(amount), group_from_right(padded.as_str()))
        },
    }
}

/// The clusters of `s`, leftmost first: `s` cut into pieces of three
/// characters, counting from its rightmost character, so that only the
/// leftmost piece may be shorter.
pub open spec fn groups(s: Seq<char>) -> Seq<Seq<char>>
    decreases s.len(),
{
    if s.len() == 0 {
        Seq::empty()
    } else if s.len() <= 3 {
        seq![s]
    } else {
        groups(s.take(s.len() - 3)).push(s.skip(s.len() - 3))
    }
}

/// The members of `gs` joined by single spaces.
pub open spec fn join_groups(gs: Seq<Seq<char>>) -> Seq<char>
    decreases gs.len(),
{
    if gs.len() == 0 {
        Seq::empty()
    } else if gs.len() == 1 {
        gs[0]
    } else {
        join_groups(gs.drop_last()) + seq![' '] + gs.last()
    }
}

/// Law: every group of a clustered sequence has exactly three characters,
/// except possibly the first (leftmost) one, which has one to three.
pub proof fn lemma_groups_sizes(s: Seq<char>)
    ensures
        forall|k: int| 1 <= k < groups(s).len() ==> (#[trigger] groups(s)[k]).len() == 3,
        groups(s).len() > 0 <==> s.len() > 0,
        s.len() > 0 ==> 1 <= groups(s)[0].len() <= 3,
    decreases s.len(),
{
    if s.len() > 3 {
        let a = s.take(s.len() - 3);
        let b = s.skip(s.len() - 3);
        lemma_groups_sizes(a);
        assert(groups(s) == groups(a).push(b));
        assert(groups(s)[0] == groups(a)[0]);
        assert forall|k: int| 1 <= k < groups(s).len() implies (#[trigger] groups(s)[k]).len()
            == 3 by {
            if k < groups(a).len() {
                assert(groups(s)[k] == groups(a)[k]);
            } else {
                assert(groups(s)[k] == b);
            }
        }
    }
}

/// Law: the grouped form of `s` is exactly its clusters joined by single
/// spaces.
pub proof fn lemma_grouped_joins_groups(s: Seq<char>)
    ensures
        grouped(s) == join_groups(groups(s)),
    decreases s.len(),
{
    if s.len() == 0 {
        assert(grouped(s) =~= join_groups(groups(s)));
    } else if s.len() <= 3 {
        assert(groups(s) == seq![s]);
        assert(join_groups(seq![s]) == s);
    } else {
        let a = s.take(s.len() - 3);
        let b = s.skip(s.len() - 3);
        lemma_grouped_joins_groups(a);
        lemma_groups_sizes(a);
        let gs = groups(a).push(b);
        assert(groups(s) == gs);
        assert(gs.len() >= 2);
        assert(gs.drop_last() =~= groups(a));
        assert(gs.last() == b);
    }
}

/// A well-formed amount string: a non-empty run of digits, optionally
/// followed by a `.` and a (possibly empty) run of digits.
pub open spec fn decimal_string(s: Seq<char>) -> bool {
    if has_dot(s) {
        first_dot(s) > 0 && all_digits(s.take(first_dot(s))) && all_digits(
            s.skip(first_dot(s) + 1),
        )
    } else {
        s.len() > 0 && all_digits(s)
    }
}

/// The shape of a grouped part: only digits and spaces, digits at both ends,
/// and never two spaces in a row.
pub open spec fn well_grouped(s: Seq<char>) -> bool {
    &&& forall|i: int| 0 <= i < s.len() ==> is_digit(#[trigger] s[i]) || s[i] == ' '
    &&& s.len() > 0 ==> is_digit(s[0]) && is_digit(s[s.len() - 1])
    &&& forall|i: int|
        #![trigger s[i], s[i + 1]]
        0 <= i && i + 1 < s.len() ==> !(s[i] == ' ' && s[i + 1] == ' ')
}

/// Grouping inserts one space for every three characters after the first
/// group, and nothing else.
pub proof fn lemma_grouped_len(s: Seq<char>)
    ensures
        s.len() == 0 ==> grouped(s).len() == 0,
        s.len() > 0 ==> grouped(s).len() == s.len() + (s.len() - 1) / 3,
    decreases s.len(),
{
    if s.len() > 3 {
        lemma_grouped_len(s.take(s.len() - 3));
    }
}

/// Law: grouping a run of digits yields only digits and single interior
/// spaces — no leading, trailing, or doubled space.
pub proof fn lemma_grouped_well_grouped(s: Seq<char>)
    requires
        all_digits(s),
    ensures
        well_grouped(grouped(s)),
    decreases s.len(),
{
    if s.len() > 3 {
        let a = s.take(s.len() - 3);
        let b = s.skip(s.len() - 3);
        assert(all_digits(a));
        assert(all_digits(b));
        lemma_grouped_well_grouped(a);
        lemma_grouped_len(a);
        let g = grouped(s);
        let ga = grouped(a);
        assert(g == ga + seq![' '] + b);
        assert(g.len() == ga.len() + 4);
        assert(ga.len() >= 1);
        assert forall|i: int| 0 <= i < g.len() implies is_digit(#[trigger] g[i]) || g[i]
            == ' ' by {
            if i < ga.len() {
                assert(g[i] == ga[i]);
            } else if i == ga.len() {
                assert(g[i] == ' ');
            } else {
                assert(g[i] == b[i - ga.len() - 1]);
            }
        }
        assert(g[0] == ga[0]);
        assert(g[g.len() - 1] == b[2]);
        assert forall|i: int|
            #![trigger g[i], g[i + 1]]
            0 <= i && i + 1 < g.len() implies !(g[i] == ' ' && g[i + 1] == ' ') by {
            if i + 1 < ga.len() {
                assert(g[i] == ga[i] && g[i + 1] == ga[i + 1]);
            } else if i + 1 == ga.len() {
                assert(g[i] == ga[i]);
                assert(is_digit(ga[ga.len() - 1]));
            } else if i == ga.len() {
                assert(g[i + 1] == b[0]);
            } else {
                assert(g[i] == b[i - ga.len() - 1]);
            }
        }
    }
}

/// Law: for a well-formed amount, both parts returned by `split_digits`
/// contain only digits separated by single interior spaces.
pub proof fn lemma_split_digits_well_spaced(s: Seq<char>)
    requires
        decimal_string(s),
    ensures
        well_grouped(grouped(integer_digits(s))),
        well_grouped(grouped(pad_fraction(fraction_digits(s)))),
{
    lemma_first_dot_bounds(s);
    let f = fraction_digits(s);
    assert(all_digits(integer_digits(s)));
    assert(all_digits(f));
    assert forall|i: int| 0 <= i < pad_fraction(f).len() implies is_digit(
        #[trigger] pad_fraction(f)[i],
    ) by {
        if i < f.len() {
            assert(pad_fraction(f)[i] == f[i]);
        } else {
            assert(pad_fraction(f)[i] == '0');
        }
    }
    lemma_grouped_well_grouped(integer_digits(s));
    lemma_grouped_well_grouped(pad_fraction(f));
}

/// `s` with every space removed.
pub open spec fn remove_spaces(s: Seq<char>) -> Seq<char> {
    s.filter(|c: char| c != ' ')
}

proof fn lemma_remove_spaces_add(a: Seq<char>, b: Seq<char>)
    ensures
        remove_spaces(a + b) == remove_spaces(a) + remove_spaces(b),
{
    Seq::filter_distributes_over_add(a, b, |c: char| c != ' ');
}

proof fn lemma_remove_spaces_space_free(s: Seq<char>)
    requires
        forall|i: int| 0 <= i < s.len() ==> s[i] != ' ',
    ensures
        remove_spaces(s) == s,
    decreases s.len(),
{
    reveal(Seq::filter);
    if s.len() > 0 {
        let t = s.drop_last();
        lemma_remove_spaces_space_free(t);
        assert(remove_spaces(s) =~= s);
    }
}

proof fn lemma_remove_spaces_single_space()
    ensures
        remove_spaces(seq![' ']) == Seq::<char>::empty(),
{
    reveal_with_fuel(Seq::filter, 2);
    assert(seq![' '].drop_last() =~= Seq::<char>::empty());
    assert(remove_spaces(seq![' ']) =~= Seq::<char>::empty());
}

/// Law: removing the spaces of a grouped space-free sequence yields the
/// sequence back — grouping neither re-orders, drops, nor adds characters.
pub proof fn lemma_remove_spaces_grouped(s: Seq<char>)
    requires
        forall|i: int| 0 <= i < s.len() ==> s[i] != ' ',
    ensures
        remove_spaces(grouped(s)) == s,
    decreases s.len(),
{
    if s.len() <= 3 {
        lemma_remove_spaces_space_free(s);
    } else {
        let a = s.take(s.len() - 3);
        let b = s.skip(s.len() - 3);
        lemma_remove_spaces_grouped(a);
        lemma_remove_spaces_add(grouped(a) + seq![' '], b);
        lemma_remove_spaces_add(grouped(a), seq![' ']);
        lemma_remove_spaces_single_space();
        lemma_remove_spaces_space_free(b);
        assert(remove_spaces(grouped(a)) + remove_spaces(seq![' ']) =~= a);
        assert(a + b =~= s);
    }
}

/// Law: removing the spaces of the integer part returned by `split_digits`
/// yields exactly the integer digits of the input.
pub proof fn lemma_split_digits_integer_round_trip(s: Seq<char>)
    requires
        decimal_string(s),
    ensures
        remove_spaces(grouped(integer_digits(s))) == integer_digits(s),
{
    lemma_first_dot_bounds(s);
    assert(all_digits(integer_digits(s)));
    lemma_remove_spaces_grouped(integer_digits(s));
}

/// Law: removing the spaces of the fractional part returned by
/// `split_digits` yields exactly the fractional digits of the input,
/// right-padded with `'0'` to `FRACTION_DIGITS` characters.
pub proof fn lemma_split_digits_fraction_round_trip(s: Seq<char>)
    requires
        decimal_string(s),
    ensures
        remove_spaces(grouped(pad_fraction(fraction_digits(s)))) == pad_fraction(
            fraction_digits(s),
        ),
        fraction_digits(s).len() <= FRACTION_DIGITS ==> pad_fraction(fraction_digits(s))
            == fraction_digits(s) + Seq::new(
            (FRACTION_DIGITS - fraction_digits(s).len()) as nat,
            |i: int| '0',
        ),
{
    lemma_first_dot_bounds(s);
    let f = fraction_digits(s);
    assert(all_digits(f));
    assert forall|i: int| 0 <= i < pad_fraction(f).len() implies pad_fraction(f)[i] != ' ' by {
        if i < f.len() {
            assert(pad_fraction(f)[i] == f[i]);
            assert(is_digit(f[i]));
        } else {
            assert(pad_fraction(f)[i] == '0');
        }
    }
    lemma_remove_spaces_grouped(pad_fraction(f));
    if f.len() == FRACTION_DIGITS {
        assert(pad_fraction(f) =~= f + Seq::new(0, |i: int| '0'));
    }
}

} // verus!
