//! Names: lists of names, set-like operations on them, and the decimal
//! rendering of counters from which fresh names are made.

use vstd::prelude::*;
use vstd::string::{StrSliceExecFns, StringExecFns};

verus! {

/// The names held by a vector of strings.
pub open spec fn names_view(names: Vec<String>) -> Seq<Seq<char>> {
    Seq::new(names.len() as nat, |i: int| names[i]@)
}

/// The character of a decimal digit.
pub open spec fn digit_char(d: nat) -> char {
    if d == 0 {
        '0'
    } else if d == 1 {
        '1'
    } else if d == 2 {
        '2'
    } else if d == 3 {
        '3'
    } else if d == 4 {
        '4'
    } else if d == 5 {
        '5'
    } else if d == 6 {
        '6'
    } else if d == 7 {
        '7'
    } else if d == 8 {
        '8'
    } else {
        '9'
    }
}

/// The decimal rendering of a number, without leading zeros.
pub open spec fn decimal(n: nat) -> Seq<char>
    decreases n,
{
    if n < 10 {
        seq![digit_char(n)]
    } else {
        decimal(n / 10).push(digit_char(n % 10))
    }
}

/// The name that a generator hands out as its `n`-th: the number in decimal,
/// then the letter `v`. No identifier of the surface language begins with a
/// digit, so none is equal to such a name.
pub open spec fn fresh_name(n: nat) -> Seq<char> {
    decimal(n).push('v')
}

/// The `count` names that a generator hands out after its `made`-th.
pub open spec fn fresh_names(made: nat, count: nat) -> Seq<Seq<char>> {
    Seq::new(count, |i: int| fresh_name((made + 1 + i) as nat))
}

/// A decimal rendering has at least one digit.
pub proof fn lemma_decimal_len(n: nat)
    ensures
        decimal(n).len() >= 1,
    decreases n,
{
    if n >= 10 {
        lemma_decimal_len(n / 10);
    }
}

/// Different digits have different characters.
pub proof fn lemma_digit_injective(x: nat, y: nat)
    requires
        x < 10,
        y < 10,
        digit_char(x) == digit_char(y),
    ensures
        x == y,
{
}

/// Different numbers have different decimal renderings.
pub proof fn lemma_decimal_injective(a: nat, b: nat)
    requires
        decimal(a) == decimal(b),
    ensures
        a == b,
    decreases a,
{
    if a < 10 && b < 10 {
        assert(decimal(a)[0] == digit_char(a));
        assert(decimal(b)[0] == digit_char(b));
        lemma_digit_injective(a, b);
    } else if a < 10 {
        lemma_decimal_len(b / 10);
        assert(decimal(a).len() == 1);
        assert(decimal(b).len() == decimal(b / 10).len() + 1);
    } else if b < 10 {
        lemma_decimal_len(a / 10);
        assert(decimal(b).len() == 1);
        assert(decimal(a).len() == decimal(a / 10).len() + 1);
    } else {
        let da = decimal(a / 10);
        let db = decimal(b / 10);
        assert(da.push(digit_char(a % 10)).drop_last() =~= da);
        assert(db.push(digit_char(b % 10)).drop_last() =~= db);
        assert(da.push(digit_char(a % 10)).last() == digit_char(a % 10));
        assert(db.push(digit_char(b % 10)).last() == digit_char(b % 10));
        lemma_decimal_injective(a / 10, b / 10);
        lemma_digit_injective(a % 10, b % 10);
        assert(a == 10 * (a / 10) + a % 10);
        assert(b == 10 * (b / 10) + b % 10);
    }
}

/// Different numbers give different fresh names.
pub proof fn lemma_fresh_name_injective(a: nat, b: nat)
    requires
        fresh_name(a) == fresh_name(b),
    ensures
        a == b,
{
    assert(decimal(a).push('v').drop_last() =~= decimal(a));
    assert(decimal(b).push('v').drop_last() =~= decimal(b));
    lemma_decimal_injective(a, b);
}

/// Whether a name is one of those that a generator hands out.
pub open spec fn generated(name: Seq<char>) -> bool {
    exists|k: nat| name == #[trigger] fresh_name(k)
}

/// The number that a run of digits denotes.
pub open spec fn number(digits: Seq<char>) -> nat
    decreases digits.len(),
{
    if digits.len() == 0 {
        0
    } else {
        (number(digits.drop_last()) * 10 + (digits.last() as u32 - '0' as u32)) as nat
    }
}

/// Whether a run of characters spells a number in decimal: digits, the
/// first of which is no zero unless it is the only one.
pub open spec fn canonical(digits: Seq<char>) -> bool {
    &&& digits.len() >= 1
    &&& forall|i: int| 0 <= i < digits.len() ==> '0' <= #[trigger] digits[i] <= '9'
    &&& digits.len() > 1 ==> digits[0] != '0'
}

/// The character of a digit is a digit, of the value of the digit.
pub proof fn lemma_digit_char(d: nat)
    requires
        d < 10,
    ensures
        '0' <= digit_char(d) <= '9',
        digit_char(d) as u32 - '0' as u32 == d,
{
}

/// A digit is the character of its value.
pub proof fn lemma_char_digit(c: char)
    requires
        '0' <= c <= '9',
    ensures
        digit_char((c as u32 - '0' as u32) as nat) == c,
{
}

/// The decimal rendering of a number spells a number in decimal, and
/// begins with no zero but for zero itself.
pub proof fn lemma_decimal_canonical(n: nat)
    ensures
        canonical(decimal(n)),
        n >= 1 ==> decimal(n)[0] != '0',
        number(decimal(n)) == n,
    decreases n,
{
    if n < 10 {
        lemma_digit_char(n);
        let one = decimal(n);
        assert(one.drop_last() =~= Seq::<char>::empty());
        assert(number(one) == n) by {
            reveal_with_fuel(number, 2);
        }
    } else {
        let upper = decimal(n / 10);
        let d = digit_char(n % 10);
        lemma_decimal_canonical(n / 10);
        lemma_digit_char(n % 10);
        let all = upper.push(d);
        assert(all.drop_last() =~= upper);
        assert(all[0] == upper[0]);
        assert forall|i: int| 0 <= i < all.len() implies '0' <= #[trigger] all[i] <= '9' by {
            if i < upper.len() {
                assert(all[i] == upper[i]);
            }
        }
    }
}

/// A run of characters that spells a number in decimal is the decimal
/// rendering of that number.
pub proof fn lemma_canonical_decimal(digits: Seq<char>)
    requires
        canonical(digits),
    ensures
        decimal(number(digits)) == digits,
        digits[0] != '0' ==> number(digits) >= 1,
    decreases digits.len(),
{
    let init = digits.drop_last();
    let last = digits.last();
    let value = (last as u32 - '0' as u32) as nat;
    lemma_char_digit(last);
    if init.len() == 0 {
        assert(number(init) == 0);
        assert(digits =~= seq![last]);
    } else {
        assert(init[0] == digits[0]);
        assert forall|i: int| 0 <= i < init.len() implies '0' <= #[trigger] init[i] <= '9' by {
            assert(init[i] == digits[i]);
        }
        lemma_canonical_decimal(init);
        let n = number(digits);
        assert(n == number(init) * 10 + value);
        assert(n >= 10);
        assert(n / 10 == number(init) && n % 10 == value);
        assert(digits =~= init.push(last));
    }
}

/// Whether a name is one of those that a generator hands out.
pub fn is_generated(name: &str) -> (r: bool)
    ensures
        r == generated(name@),
{
    let n = name.unicode_len();
    if n < 2 {
        proof {
            if generated(name@) {
                let k = choose|k: nat| name@ == #[trigger] fresh_name(k);
                lemma_decimal_len(k);
            }
        }
        return false;
    }
    if name.get_char(n - 1) != 'v' {
        proof {
            if generated(name@) {
                let k = choose|k: nat| name@ == #[trigger] fresh_name(k);
                assert(fresh_name(k).last() == 'v');
            }
        }
        return false;
    }
    let ghost digits = name@.drop_last();
    let mut i: usize = 0;
    while i < n - 1
        invariant
            i <= n - 1,
            n == name@.len(),
            n >= 2,
            digits == name@.drop_last(),
            forall|j: int| 0 <= j < i ==> '0' <= #[trigger] digits[j] <= '9',
        decreases n - 1 - i,
    {
        let c = name.get_char(i);
        if !(c >= '0' && c <= '9') {
            proof {
                if generated(name@) {
                    let k = choose|k: nat| name@ == #[trigger] fresh_name(k);
                    lemma_decimal_canonical(k);
                    assert(fresh_name(k).drop_last() =~= decimal(k));
                    assert(digits[i as int] == c);
                }
            }
            return false;
        }
        i = i + 1;
    }
    if n > 2 && name.get_char(0) == '0' {
        proof {
            if generated(name@) {
                let k = choose|k: nat| name@ == #[trigger] fresh_name(k);
                lemma_decimal_canonical(k);
                assert(fresh_name(k).drop_last() =~= decimal(k));
                assert(digits[0] == '0');
                if k == 0 {
                    assert(decimal(0).len() == 1);
                }
            }
        }
        return false;
    }
    proof {
        assert(digits[0] == name@[0]);
        assert(canonical(digits));
        lemma_canonical_decimal(digits);
        assert(name@ =~= fresh_name(number(digits)));
    }
    true
}

/// The one-character string of a decimal digit.
fn digit_str(d: u32) -> (r: &'static str)
    requires
        d < 10,
    ensures
        r@ == seq![digit_char(d as nat)],
{
    proof {
        reveal_strlit("0");
        reveal_strlit("1");
        reveal_strlit("2");
        reveal_strlit("3");
        reveal_strlit("4");
        reveal_strlit("5");
        reveal_strlit("6");
        reveal_strlit("7");
        reveal_strlit("8");
        reveal_strlit("9");
    }
    let r = if d == 0 {
        "0"
    } else if d == 1 {
        "1"
    } else if d == 2 {
        "2"
    } else if d == 3 {
        "3"
    } else if d == 4 {
        "4"
    } else if d == 5 {
        "5"
    } else if d == 6 {
        "6"
    } else if d == 7 {
        "7"
    } else if d == 8 {
        "8"
    } else {
        "9"
    };
    assert(r@ =~= seq![digit_char(d as nat)]);
    r
}

/// Renders a counter in decimal.
pub fn decimal_string(n: u32) -> (r: String)
    ensures
        r@ == decimal(n as nat),
    decreases n,
{
    if n < 10 {
        digit_str(n).to_owned()
    } else {
        let mut s = decimal_string(n / 10);
        s.append(digit_str(n % 10));
        assert(s@ =~= decimal(n as nat));
        s
    }
}

/// The characters of a list of decimal digits.
pub open spec fn digits_text(digits: Seq<u8>) -> Seq<char> {
    Seq::new(digits.len(), |i: int| digit_char(digits[i] as nat))
}

/// Whether every element of a list is a decimal digit.
pub open spec fn all_digits(digits: Seq<u8>) -> bool {
    forall|i: int| 0 <= i < digits.len() ==> #[trigger] digits[i] < 10
}

/// Adds one to the number that a list of decimal digits spells.
fn bump(digits: &mut Vec<u8>, Ghost(n): Ghost<nat>)
    requires
        all_digits(old(digits)@),
        digits_text(old(digits)@) == decimal(n),
    ensures
        all_digits(final(digits)@),
        digits_text(final(digits)@) == decimal(n + 1),
    decreases old(digits).len(),
{
    proof {
        lemma_decimal_len(n);
        if n >= 10 {
            lemma_decimal_len(n / 10);
        }
    }
    let ghost before = digits@;
    assert(digits_text(before).len() == before.len());
    let last = digits.pop().unwrap();
    let ghost rest = digits@;
    proof {
        assert(rest =~= before.drop_last());
        assert(digits_text(before).last() == digit_char(last as nat));
        if n < 10 {
            assert(decimal(n).last() == digit_char(n));
            lemma_digit_injective(last as nat, n);
        } else {
            assert(decimal(n).last() == digit_char(n % 10));
            lemma_digit_injective(last as nat, n % 10);
            assert(digits_text(rest) =~= digits_text(before).drop_last());
            assert(decimal(n / 10).push(digit_char(n % 10)).drop_last() =~= decimal(n / 10));
        }
    }
    if last < 9 {
        digits.push(last + 1);
        proof {
            if n < 10 {
                assert(digits_text(digits@) =~= decimal(n + 1));
            } else {
                assert((n + 1) / 10 == n / 10 && (n + 1) % 10 == n % 10 + 1);
                assert(digits_text(digits@) =~= decimal(n / 10).push(digit_char((n + 1) % 10)));
            }
        }
    } else if digits.len() == 0 {
        digits.push(1);
        digits.push(0);
        proof {
            assert(n == 9);
            assert(decimal(10) == decimal(1).push(digit_char(0)));
            assert(digits_text(digits@) =~= decimal(10));
        }
    } else {
        proof {
            assert(n >= 10) by {
                if n < 10 {
                    assert(decimal(n).len() == 1);
                }
            }
        }
        bump(digits, Ghost(n / 10));
        let ghost upper = digits@;
        digits.push(0);
        proof {
            assert((n + 1) / 10 == n / 10 + 1 && (n + 1) % 10 == 0);
            assert(digits_text(digits@) =~= digits_text(upper).push(digit_char(0)));
        }
    }
}

/// A counter without bound: a number, held by its decimal digits.
pub struct Counter {
    digits: Vec<u8>,
    value: Ghost<nat>,
}

impl Counter {
    #[verifier::type_invariant]
    spec fn well_formed(self) -> bool {
        all_digits(self.digits@) && digits_text(self.digits@) == decimal(self.value@)
    }

    /// The number counted.
    pub closed spec fn value(&self) -> nat {
        self.value@
    }

    /// A counter at zero.
    pub fn new() -> (r: Counter)
        ensures
            r.value() == 0,
    {
        let mut digits: Vec<u8> = Vec::new();
        digits.push(0);
        assert(digits_text(digits@) =~= decimal(0));
        Counter { digits, value: Ghost(0) }
    }

    /// Counts one up.
    pub fn increment(&mut self)
        ensures
            final(self).value() == old(self).value() + 1,
    {
        proof {
            use_type_invariant(&*self);
        }
        let ghost n = self.value@;
        let mut digits = clone_digits(&self.digits);
        bump(&mut digits, Ghost(n));
        *self = Counter { digits, value: Ghost(n + 1) };
    }

    /// The number counted, in decimal.
    pub fn text(&self) -> (r: String)
        ensures
            r@ == decimal(self.value()),
    {
        proof {
            use_type_invariant(self);
        }
        let mut out = String::new();
        let mut i: usize = 0;
        assert(digits_text(self.digits@.take(0)) =~= Seq::<char>::empty());
        while i < self.digits.len()
            invariant
                i <= self.digits.len(),
                all_digits(self.digits@),
                out@ == digits_text(self.digits@.take(i as int)),
            decreases self.digits.len() - i,
        {
            out.append(digit_str(self.digits[i] as u32));
            proof {
                assert(digits_text(self.digits@.take(i + 1)) =~= digits_text(
                    self.digits@.take(i as int),
                ).push(digit_char(self.digits[i as int] as nat)));
                assert(out@ =~= digits_text(self.digits@.take(i + 1)));
            }
            i = i + 1;
        }
        assert(self.digits@.take(i as int) =~= self.digits@);
        out
    }
}

/// Copies a list of digits.
fn clone_digits(digits: &Vec<u8>) -> (r: Vec<u8>)
    ensures
        r@ == digits@,
{
    let mut out: Vec<u8> = Vec::new();
    let mut i: usize = 0;
    while i < digits.len()
        invariant
            i <= digits.len(),
            out@ == digits@.take(i as int),
        decreases digits.len() - i,
    {
        out.push(digits[i]);
        assert(out@ =~= digits@.take(i + 1));
        i = i + 1;
    }
    assert(digits@.take(i as int) =~= digits@);
    out
}

/// Copies a list of names.
pub fn clone_names(names: &Vec<String>) -> (r: Vec<String>)
    ensures
        names_view(r) == names_view(*names),
{
    let mut out: Vec<String> = Vec::new();
    let mut i: usize = 0;
    while i < names.len()
        invariant
            i <= names.len(),
            out.len() == i,
            forall|j: int| 0 <= j < i ==> out[j]@ == names[j]@,
        decreases names.len() - i,
    {
        out.push(names[i].clone());
        i = i + 1;
    }
    assert(names_view(out) =~= names_view(*names));
    out
}

/// Whether two lists hold the same names in the same order.
pub fn same_names(a: &Vec<String>, b: &Vec<String>) -> (r: bool)
    ensures
        r == (names_view(*a) == names_view(*b)),
{
    if a.len() != b.len() {
        assert(names_view(*a).len() != names_view(*b).len());
        return false;
    }
    let mut i: usize = 0;
    while i < a.len()
        invariant
            i <= a.len(),
            a.len() == b.len(),
            forall|j: int| 0 <= j < i ==> a[j]@ == b[j]@,
        decreases a.len() - i,
    {
        if a[i] != b[i] {
            assert(names_view(*a)[i as int] != names_view(*b)[i as int]);
            return false;
        }
        i = i + 1;
    }
    assert(names_view(*a) =~= names_view(*b));
    true
}

/// Whether a list holds a name.
pub fn contains_name(names: &Vec<String>, name: &String) -> (r: bool)
    ensures
        r == names_view(*names).contains(name@),
{
    let mut i: usize = 0;
    while i < names.len()
        invariant
            i <= names.len(),
            forall|j: int| 0 <= j < i ==> names[j]@ != name@,
        decreases names.len() - i,
    {
        if names[i] == *name {
            assert(names_view(*names)[i as int] == name@);
            return true;
        }
        i = i + 1;
    }
    assert(forall|j: int| 0 <= j < names.len() ==> names_view(*names)[j] != name@);
    false
}

/// The set of a prefix grows by the element that follows it.
pub proof fn lemma_take_to_set<A>(s: Seq<A>, i: int)
    requires
        0 <= i < s.len(),
    ensures
        s.take(i + 1).to_set() == s.take(i).to_set().insert(s[i]),
{
    let longer = s.take(i + 1);
    let shorter = s.take(i);
    assert forall|a: A| longer.contains(a) <==> (shorter.contains(a) || a == s[i]) by {
        if longer.contains(a) {
            let k = choose|k: int| 0 <= k < longer.len() && longer[k] == a;
            if k < i {
                assert(shorter[k] == a);
            }
        }
        if shorter.contains(a) {
            let k = choose|k: int| 0 <= k < shorter.len() && shorter[k] == a;
            assert(longer[k] == a);
        }
        if a == s[i] {
            assert(longer[i] == a);
        }
    }
    assert(s.take(i + 1).to_set() =~= s.take(i).to_set().insert(s[i]));
}

/// Adds a name to a list that is used as a set: the name is appended unless
/// the list holds it already.
pub fn insert_name(names: &mut Vec<String>, name: String)
    ensures
        names_view(*final(names)).to_set() == names_view(*old(names)).to_set().insert(name@),
        names_view(*old(names)).no_duplicates() ==> names_view(*final(names)).no_duplicates(),
        names_view(*old(names)).is_prefix_of(names_view(*final(names))),
{
    if contains_name(names, &name) {
        assert(names_view(*names).to_set() =~= names_view(*names).to_set().insert(name@));
    } else {
        let ghost before = names_view(*names);
        names.push(name);
        assert(names_view(*names) =~= before.push(name@));
        assert(before.push(name@).to_set() =~= before.to_set().insert(name@)) by {
            assert forall|n: Seq<char>| before.push(name@).contains(n) <==> (before.contains(n) || n
                == name@) by {
                if before.contains(n) {
                    let i = choose|i: int| 0 <= i < before.len() && before[i] == n;
                    assert(before.push(name@)[i] == n);
                }
                if n == name@ {
                    assert(before.push(name@)[before.len() as int] == n);
                }
            }
        }
    }
}

} // verus!
