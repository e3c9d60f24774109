use vstd::prelude::*;
use crate::recipe::Recipe;
use crate::steps::{FoodItem, Step};

verus! {

/// Text that fits on one line of a recipe document: no newline anywhere.
pub open spec fn clean_text(s: Seq<char>) -> bool {
    forall|i: int| 0 <= i < s.len() ==> s[i] != '\n'
}

/// Whether the character is a decimal digit.
pub open spec fn is_digit(c: char) -> bool {
    48 <= c as int <= 57
}

/// The value of a decimal digit character.
pub open spec fn digit_val(c: char) -> int {
    c as int - 48
}

/// The character for a decimal digit value.
pub open spec fn digit_char(d: int) -> char {
    if d == 0 {
        '0'
    } else if d == 1 {
        '1'
    } else if d == 2 {
        '2'
    } else if d == 3 {
        '3'
    } else if d == 4 {
        '4'
    } else if d == 5 {
        '5'
    } else if d == 6 {
        '6'
    } else if d == 7 {
        '7'
    } else if d == 8 {
        '8'
    } else {
        '9'
    }
}

/// The canonical decimal digits of a number: no leading zero, except for
/// the single digit of zero itself.
pub open spec fn dec_digits(n: nat) -> Seq<char>
    decreases n,
{
    if n < 10 {
        seq![digit_char(n as int)]
    } else {
        dec_digits(n / 10).push(digit_char((n % 10) as int))
    }
}

/// The number a sequence of digit characters stands for.
pub open spec fn dec_val(s: Seq<char>) -> int
    decreases s.len(),
{
    if s.len() == 0 {
        0
    } else {
        dec_val(s.drop_last()) * 10 + digit_val(s.last())
    }
}

/// The text an item is written as in a recipe document.
pub open spec fn item_text(it: FoodItem) -> Seq<char> {
    match it {
        FoodItem::CHICKEN => "CHICKEN"@,
        FoodItem::SALMON => "SALMON"@,
    }
}

/// One step's line in a recipe document, without its terminating newline.
pub open spec fn step_line(s: Step) -> Seq<char> {
    match s {
        Step::Prepare(it) => "- prepare: "@ + item_text(it),
        Step::Cook(it, t) => "- cook: "@ + item_text(it) + " "@ + dec_digits(t as nat),
    }
}

/// One step's text in a recipe document: its line and its newline.
pub open spec fn step_text(s: Step) -> Seq<char> {
    step_line(s) + "\n"@
}

/// The steps section of a recipe document: one line per step, in order.
pub open spec fn steps_text(ss: Seq<Step>) -> Seq<char>
    decreases ss.len(),
{
    if ss.len() == 0 {
        Seq::empty()
    } else {
        step_text(ss[0]) + steps_text(ss.drop_first())
    }
}

/// The whole recipe document: a title line, a description line, a steps
/// header, then one line per step.
pub open spec fn recipe_text(title: Seq<char>, desc: Seq<char>, ss: Seq<Step>) -> Seq<char> {
    "title: "@ + title + "\n"@ + "description: "@ + desc + "\n"@ + "steps:\n"@ + steps_text(ss)
}

/// Every character of a number's canonical digits is a digit, and the
/// first is zero only for the number zero itself.
pub proof fn lemma_dec_digits_shape(n: nat)
    ensures
        dec_digits(n).len() >= 1,
        forall|i: int| 0 <= i < dec_digits(n).len() ==> is_digit(#[trigger] dec_digits(n)[i]),
        dec_digits(n)[0] == '0' <==> n == 0,
    decreases n,
{
    if n < 10 {
        assert(dec_digits(n) == seq![digit_char(n as int)]);
    } else {
        lemma_dec_digits_shape(n / 10);
        assert(dec_digits(n) == dec_digits(n / 10).push(digit_char((n % 10) as int)));
        assert(dec_digits(n)[0] == dec_digits(n / 10)[0]);
    }
}

/// A digit character stands for the digit it was made from.
pub proof fn lemma_digit_round_trip(d: int)
    requires
        0 <= d <= 9,
    ensures
        digit_val(digit_char(d)) == d,
        is_digit(digit_char(d)),
{
}

/// Reading back the canonical digits of a number yields the number.
pub proof fn lemma_dec_val_of_dec_digits(n: nat)
    ensures
        dec_val(dec_digits(n)) == n,
    decreases n,
{
    if n < 10 {
        assert(dec_digits(n) == seq![digit_char(n as int)]);
        assert(dec_digits(n).drop_last() =~= Seq::<char>::empty());
        lemma_digit_round_trip(n as int);
        assert(dec_digits(n).last() == digit_char(n as int));
        assert(dec_val(Seq::<char>::empty()) == 0);
        assert(dec_val(dec_digits(n)) == 0 * 10 + digit_val(digit_char(n as int)));
    } else {
        lemma_dec_val_of_dec_digits(n / 10);
        assert(dec_digits(n) == dec_digits(n / 10).push(digit_char((n % 10) as int)));
        assert(dec_digits(n).drop_last() =~= dec_digits(n / 10));
        assert(dec_digits(n).last() == digit_char((n % 10) as int));
        lemma_digit_round_trip((n % 10) as int);
        assert(dec_val(dec_digits(n)) == dec_val(dec_digits(n / 10)) * 10 + (n % 10));
    }
}

/// The canonical digits are the only canonical digit string with a given
/// value: a nonempty all-digit string with no leading zero is the
/// canonical form of its own value.
pub proof fn lemma_dec_digits_of_dec_val(s: Seq<char>)
    requires
        s.len() >= 1,
        forall|i: int| 0 <= i < s.len() ==> is_digit(#[trigger] s[i]),
        s[0] != '0' || s.len() == 1,
    ensures
        0 <= dec_val(s),
        dec_digits(dec_val(s) as nat) == s,
    decreases s.len(),
{
    if s.len() == 1 {
        assert(s.drop_last() =~= Seq::<char>::empty());
        assert(dec_val(Seq::<char>::empty()) == 0);
        assert(s.last() == s[0]);
        assert(dec_val(s) == 0 * 10 + digit_val(s[0]));
        assert(dec_digits(dec_val(s) as nat) == seq![digit_char(digit_val(s[0]))]);
        assert(digit_char(digit_val(s[0])) == s[0]);
        assert(dec_digits(dec_val(s) as nat) =~= s);
    } else {
        let s2 = s.drop_last();
        assert(s2[0] == s[0]);
        assert(forall|i: int| 0 <= i < s2.len() ==> is_digit(#[trigger] s2[i]));
        lemma_dec_digits_of_dec_val(s2);
        lemma_dec_val_pos(s2);
        let d = digit_val(s.last());
        assert(0 <= d <= 9);
        let v = dec_val(s);
        assert(v == dec_val(s2) * 10 + d);
        assert(dec_val(s2) >= 1);
        assert(v >= 10);
        assert(v / 10 == dec_val(s2) && v % 10 == d) by (nonlinear_arith)
            requires
                v == dec_val(s2) * 10 + d,
                0 <= d <= 9,
                1 <= dec_val(s2),
        ;
        assert(dec_digits(v as nat) == dec_digits((v / 10) as nat).push(
            digit_char((v % 10) as int),
        ));
        assert(digit_char(d) == s.last());
        assert(dec_digits(v as nat) =~= s);
    }
}

/// A nonempty all-digit string with a nonzero leading digit stands for a
/// number of at least one.
pub proof fn lemma_dec_val_pos(s: Seq<char>)
    requires
        s.len() >= 1,
        forall|i: int| 0 <= i < s.len() ==> is_digit(#[trigger] s[i]),
        s[0] != '0',
    ensures
        dec_val(s) >= 1,
    decreases s.len(),
{
    if s.len() == 1 {
        assert(is_digit(s[0]));
        assert(s.drop_last() =~= Seq::<char>::empty());
        assert(dec_val(Seq::<char>::empty()) == 0);
        assert(s.last() == s[0]);
        assert(dec_val(s) == 0 * 10 + digit_val(s[0]));
        assert(digit_val(s[0]) >= 1);
    } else {
        let s2 = s.drop_last();
        assert(s2[0] == s[0]);
        assert(forall|i: int| 0 <= i < s2.len() ==> is_digit(#[trigger] s2[i]));
        lemma_dec_val_pos(s2);
        assert(s.last() == s[s.len() - 1]);
        assert(is_digit(s[s.len() - 1]));
        assert(dec_val(s) == dec_val(s2) * 10 + digit_val(s.last()));
    }
}

/// A digit-string prefix never stands for more than the whole string.
pub proof fn lemma_dec_val_prefix_le(s: Seq<char>, k: int)
    requires
        0 <= k <= s.len(),
        forall|i: int| 0 <= i < s.len() ==> is_digit(#[trigger] s[i]),
    ensures
        dec_val(s.take(k)) <= dec_val(s),
    decreases s.len() - k,
{
    if k < s.len() {
        lemma_dec_val_prefix_le(s, k + 1);
        assert(s.take(k + 1).drop_last() =~= s.take(k));
        assert(s.take(k + 1).last() == s[k]);
        assert(is_digit(s[k]));
        assert(dec_val(s.take(k + 1)) == dec_val(s.take(k)) * 10 + digit_val(s[k]));
        lemma_dec_val_nonneg(s.take(k));
        assert(dec_val(s.take(k + 1)) >= dec_val(s.take(k)));
    } else {
        assert(s.take(k) =~= s);
    }
}

/// A digit string never stands for a negative number.
pub proof fn lemma_dec_val_nonneg(s: Seq<char>)
    requires
        forall|i: int| 0 <= i < s.len() ==> is_digit(#[trigger] s[i]),
    ensures
        dec_val(s) >= 0,
    decreases s.len(),
{
    if s.len() > 0 {
        let s2 = s.drop_last();
        assert(forall|i: int| 0 <= i < s2.len() ==> is_digit(#[trigger] s2[i]));
        lemma_dec_val_nonneg(s2);
        assert(s.last() == s[s.len() - 1]);
        assert(is_digit(s[s.len() - 1]));
    }
}


/// Whether the string holds no newline.
fn is_clean(s: &str) -> (r: bool)
    ensures
        r == clean_text(s@),
{
    let n = s.unicode_len();
    let mut i: usize = 0;
    while i < n
        invariant
            0 <= i <= n,
            n == s@.len(),
            forall|q: int| 0 <= q < i ==> s@[q] != '\n',
        decreases n - i,
    {
        if s.get_char(i) == '\n' {
            return false;
        }
        i = i + 1;
    }
    true
}

/// The position of the first newline at or after `from`, if any.
fn find_newline(s: &str, from: usize) -> (r: Option<usize>)
    requires
        from <= s@.len(),
    ensures
        r matches Some(p) ==> from <= p < s@.len() && s@[p as int] == '\n'
            && forall|q: int| from <= q < p ==> s@[q] != '\n',
        r is None ==> forall|q: int| from <= q < s@.len() ==> s@[q] != '\n',
{
    let n = s.unicode_len();
    let mut i: usize = from;
    while i < n
        invariant
            from <= i <= n,
            n == s@.len(),
            forall|q: int| from <= q < i ==> s@[q] != '\n',
        decreases n - i,
    {
        if s.get_char(i) == '\n' {
            return Some(i);
        }
        i = i + 1;
    }
    None
}

/// Whether the characters of `s` starting at `from` begin with `pat`.
fn expect_prefix(s: &str, from: usize, pat: &str) -> (r: bool)
    requires
        from <= s@.len(),
    ensures
        r == (from + pat@.len() <= s@.len()
            && s@.subrange(from as int, from + pat@.len()) == pat@),
{
    let n = s.unicode_len();
    let m = pat.unicode_len();
    if m > n - from {
        return false;
    }
    let mut i: usize = 0;
    while i < m
        invariant
            0 <= i <= m,
            from + m <= n,
            n == s@.len(),
            m == pat@.len(),
            forall|q: int| 0 <= q < i ==> s@[from + q] == pat@[q],
        decreases m - i,
    {
        if s.get_char(from + i) != pat.get_char(i) {
            assert(s@.subrange(from as int, from + pat@.len())[i as int] != pat@[i as int]);
            return false;
        }
        i = i + 1;
    }
    assert(s@.subrange(from as int, from + pat@.len()) =~= pat@);
    true
}

/// Appends one decimal digit character.
fn push_digit(out: &mut String, d: u64)
    requires
        d < 10,
    ensures
        final(out)@ == old(out)@ + seq![digit_char(d as int)],
{
    if d == 0 {
        out.append("0");
        proof { reveal_strlit("0"); assert(old(out)@ + "0"@ =~= old(out)@ + seq![digit_char(0)]); }
    } else if d == 1 {
        out.append("1");
        proof { reveal_strlit("1"); assert(old(out)@ + "1"@ =~= old(out)@ + seq![digit_char(1)]); }
    } else if d == 2 {
        out.append("2");
        proof { reveal_strlit("2"); assert(old(out)@ + "2"@ =~= old(out)@ + seq![digit_char(2)]); }
    } else if d == 3 {
        out.append("3");
        proof { reveal_strlit("3"); assert(old(out)@ + "3"@ =~= old(out)@ + seq![digit_char(3)]); }
    } else if d == 4 {
        out.append("4");
        proof { reveal_strlit("4"); assert(old(out)@ + "4"@ =~= old(out)@ + seq![digit_char(4)]); }
    } else if d == 5 {
        out.append("5");
        proof { reveal_strlit("5"); assert(old(out)@ + "5"@ =~= old(out)@ + seq![digit_char(5)]); }
    } else if d == 6 {
        out.append("6");
        proof { reveal_strlit("6"); assert(old(out)@ + "6"@ =~= old(out)@ + seq![digit_char(6)]); }
    } else if d == 7 {
        out.append("7");
        proof { reveal_strlit("7"); assert(old(out)@ + "7"@ =~= old(out)@ + seq![digit_char(7)]); }
    } else if d == 8 {
        out.append("8");
        proof { reveal_strlit("8"); assert(old(out)@ + "8"@ =~= old(out)@ + seq![digit_char(8)]); }
    } else {
        out.append("9");
        proof { reveal_strlit("9"); assert(old(out)@ + "9"@ =~= old(out)@ + seq![digit_char(9)]); }
    }
}

/// Appends the canonical decimal digits of a number.
fn push_u64(out: &mut String, n: u64)
    ensures
        final(out)@ == old(out)@ + dec_digits(n as nat),
    decreases n,
{
    if n < 10 {
        push_digit(out, n);
    } else {
        push_u64(out, n / 10);
        push_digit(out, n % 10);
        proof {
            assert(old(out)@ + dec_digits((n / 10) as nat) + seq![digit_char((n % 10) as int)]
                =~= old(out)@ + dec_digits(n as nat));
        }
    }
}

/// Appends the item's document text.
fn push_item(out: &mut String, it: FoodItem)
    ensures
        final(out)@ == old(out)@ + item_text(it),
{
    match it {
        FoodItem::CHICKEN => out.append("CHICKEN"),
        FoodItem::SALMON => out.append("SALMON"),
    }
}

impl Recipe {
    /// Encodes this recipe as its document text.  Succeeds exactly when
    /// the title and the description fit on their lines, that is, hold no
    /// newline; the result is then the exact encoding of this recipe's
    /// fields.
    pub fn to_text(&self) -> (r: Option<String>)
        ensures
            r is Some <==> clean_text(self.title@) && clean_text(self.description@),
            r matches Some(out) ==> out@ == recipe_text(
                self.title@,
                self.description@,
                self.steps@,
            ),
    {
        if !is_clean(self.title.as_str()) || !is_clean(self.description.as_str()) {
            return None;
        }
        let mut out = String::new();
        out.append("title: ");
        out.append(self.title.as_str());
        out.append("\n");
        out.append("description: ");
        out.append(self.description.as_str());
        out.append("\n");
        out.append("steps:\n");
        let ghost header = out@;
        let mut k: usize = 0;
        while k < self.steps.len()
            invariant
                0 <= k <= self.steps@.len(),
                out@ == header + steps_text(self.steps@.take(k as int)),
            decreases self.steps@.len() - k,
        {
            let ghost out0 = out@;
            let step = self.steps[k];
            match step {
                Step::Prepare(it) => {
                    out.append("- prepare: ");
                    push_item(&mut out, it);
                    out.append("\n");
                    proof {
                        assert(out@ =~= out0 + step_text(step));
                    }
                },
                Step::Cook(it, t) => {
                    out.append("- cook: ");
                    push_item(&mut out, it);
                    out.append(" ");
                    push_u64(&mut out, t);
                    out.append("\n");
                    proof {
                        assert(out@ =~= out0 + step_text(step));
                    }
                },
            }
            k = k + 1;
            proof {
                lemma_steps_text_snoc(self.steps@.take(k - 1 as int), self.steps@[k - 1]);
                assert(self.steps@.take(k as int)
                    =~= self.steps@.take(k - 1 as int).push(self.steps@[k - 1]));
                assert(out@ =~= header + steps_text(self.steps@.take(k as int)));
            }
        }
        proof {
            assert(self.steps@.take(self.steps@.len() as int) =~= self.steps@);
            assert(out@ =~= recipe_text(self.title@, self.description@, self.steps@));
        }
        Some(out)
    }
}

/// Appending one step to a step sequence appends its text.
pub proof fn lemma_steps_text_snoc(ss: Seq<Step>, s: Step)
    ensures
        steps_text(ss.push(s)) == steps_text(ss) + step_text(s),
    decreases ss.len(),
{
    if ss.len() == 0 {
        assert(ss.push(s)[0] == s);
        assert(ss.push(s).drop_first() =~= Seq::<Step>::empty());
        assert(steps_text(Seq::<Step>::empty()) =~= Seq::<char>::empty());
        assert(steps_text(ss.push(s)) == step_text(s) + steps_text(Seq::<Step>::empty()));
        assert(steps_text(ss.push(s)) =~= steps_text(ss) + step_text(s));
    } else {
        assert(ss.push(s)[0] == ss[0]);
        assert(ss.push(s).drop_first() =~= ss.drop_first().push(s));
        lemma_steps_text_snoc(ss.drop_first(), s);
        assert(steps_text(ss.push(s)) == step_text(ss[0]) + steps_text(ss.drop_first().push(s)));
        assert(steps_text(ss) == step_text(ss[0]) + steps_text(ss.drop_first()));
        assert(steps_text(ss.push(s)) =~= steps_text(ss) + step_text(s));
    }
}


/// Parses the characters of `s` in `[from, to)` as the canonical decimal
/// digits of a number.  Succeeds exactly when that region is the
/// canonical digit string of some `u64`, and then returns that number.
fn parse_u64(s: &str, from: usize, to: usize) -> (r: Option<u64>)
    requires
        from <= to <= s@.len(),
    ensures
        r matches Some(v) ==> s@.subrange(from as int, to as int) == dec_digits(v as nat),
        r is None ==> forall|v: u64| s@.subrange(from as int, to as int) != dec_digits(
            v as nat,
        ),
{
    let ghost region = s@.subrange(from as int, to as int);
    if to == from {
        proof {
            assert forall|v: u64| region != dec_digits(v as nat) by {
                lemma_dec_digits_shape(v as nat);
            }
        }
        return None;
    }
    let c0 = s.get_char(from);
    let c0u = c0 as u32;
    proof {
        assert(region[0] == s@[from as int]);
    }
    if c0u < 48 || c0u > 57 {
        proof {
            assert forall|v: u64| region != dec_digits(v as nat) by {
                if region == dec_digits(v as nat) {
                    lemma_dec_digits_shape(v as nat);
                    assert(is_digit(region[0]));
                }
            }
        }
        return None;
    }
    if c0u == 48 {
        if to - from == 1 {
            proof {
                assert(region =~= seq![s@[from as int]]);
                assert(c0 == digit_char(0));
                assert(dec_digits(0nat) == seq![digit_char(0)]);
                assert(region =~= dec_digits(0nat));
            }
            return Some(0);
        } else {
            proof {
                assert forall|v: u64| region != dec_digits(v as nat) by {
                    if region == dec_digits(v as nat) {
                        lemma_dec_digits_shape(v as nat);
                        assert(region[0] == '0');
                        assert(v == 0);
                        assert(dec_digits(0nat).len() == 1);
                    }
                }
            }
            return None;
        }
    }
    let mut v: u64 = (c0u - 48) as u64;
    let mut k: usize = from + 1;
    proof {
        assert(region.take(1).drop_last() =~= Seq::<char>::empty());
        assert(dec_val(Seq::<char>::empty()) == 0);
        assert(region.take(1).last() == region[0]);
        assert(dec_val(region.take(1)) == 0 * 10 + digit_val(region[0]));
    }
    while k < to
        invariant
            from < k <= to,
            from <= to <= s@.len(),
            region == s@.subrange(from as int, to as int),
            region.len() == to - from,
            region[0] != '0',
            forall|q: int| 0 <= q < k - from ==> is_digit(#[trigger] region[q]),
            v == dec_val(region.take(k - from)),
        decreases to - k,
    {
        let c = s.get_char(k);
        let cu = c as u32;
        proof {
            assert(region[k - from] == s@[k as int]);
        }
        if cu < 48 || cu > 57 {
            proof {
                assert forall|w: u64| region != dec_digits(w as nat) by {
                    if region == dec_digits(w as nat) {
                        lemma_dec_digits_shape(w as nat);
                        assert(is_digit(region[k - from]));
                    }
                }
            }
            return None;
        }
        let d: u64 = (cu - 48) as u64;
        proof {
            assert(region.take(k + 1 - from).drop_last() =~= region.take(k - from));
            assert(region.take(k + 1 - from).last() == region[k - from]);
            assert(dec_val(region.take(k + 1 - from)) == v * 10 + d);
        }
        if v > (u64::MAX - d) / 10 {
            proof {
                let m = (u64::MAX - d) as int;
                assert(m == 10 * (m / 10) + (m % 10));
                assert(0 <= m % 10 <= 9);
                assert(v * 10 > (m / 10) * 10) by (nonlinear_arith)
                    requires
                        v as int > m / 10,
                ;
                assert(v * 10 + d > u64::MAX);
                assert forall|w: u64| region != dec_digits(w as nat) by {
                    if region == dec_digits(w as nat) {
                        lemma_dec_digits_shape(w as nat);
                        lemma_dec_val_of_dec_digits(w as nat);
                        lemma_dec_val_prefix_le(region, k + 1 - from);
                        assert(dec_val(region.take(k + 1 - from)) <= dec_val(region));
                        assert(dec_val(region) == w as int);
                        assert(false);
                    }
                }
            }
            return None;
        }
        proof {
            let m = (u64::MAX - d) as int;
            assert(m == 10 * (m / 10) + (m % 10));
            assert(0 <= m % 10 <= 9);
            assert(v * 10 <= (m / 10) * 10) by (nonlinear_arith)
                requires
                    v as int <= m / 10,
            ;
            assert(v * 10 + d <= u64::MAX);
        }
        v = v * 10 + d;
        k = k + 1;
    }
    proof {
        assert(region.take(k - from) =~= region);
        lemma_dec_digits_of_dec_val(region);
        assert(region == dec_digits(v as nat));
    }
    Some(v)
}


/// No character of a step's line is a newline.
pub proof fn lemma_step_line_clean(st: Step)
    ensures
        clean_text(step_line(st)),
{
    reveal_strlit("- prepare: ");
    reveal_strlit("- cook: ");
    reveal_strlit("CHICKEN");
    reveal_strlit("SALMON");
    reveal_strlit(" ");
    match st {
        Step::Prepare(it) => {
            assert(clean_text("- prepare: "@));
            assert(clean_text(item_text(it)));
        },
        Step::Cook(it, t) => {
            assert(clean_text("- cook: "@));
            assert(clean_text(item_text(it)));
            lemma_dec_digits_shape(t as nat);
            assert forall|i: int| 0 <= i < dec_digits(t as nat).len()
                implies #[trigger] dec_digits(t as nat)[i] != '\n' by {
                assert(is_digit(dec_digits(t as nat)[i]));
            }
            assert(clean_text(dec_digits(t as nat)));
        },
    }
}

/// Parses one step's line: the characters of `s` in `[from, to)`.
/// Succeeds exactly when that region is the line of some step, and then
/// returns that step.
fn parse_step_line(s: &str, from: usize, to: usize) -> (r: Option<Step>)
    requires
        from <= to <= s@.len(),
    ensures
        r matches Some(st) ==> s@.subrange(from as int, to as int) == step_line(st),
        r is None ==> forall|st: Step| s@.subrange(from as int, to as int) != step_line(st),
{
    let ghost region = s@.subrange(from as int, to as int);
    proof {
        reveal_strlit("- prepare: ");
        reveal_strlit("- cook: ");
        reveal_strlit("CHICKEN");
        reveal_strlit("SALMON");
        reveal_strlit("CHICKEN ");
        reveal_strlit("SALMON ");
        reveal_strlit(" ");
    }
    if expect_prefix(s, from, "- prepare: ") {
        if to - from == 18 && expect_prefix(s, from + 11, "CHICKEN") {
            proof {
                assert(region =~= "- prepare: "@ + item_text(FoodItem::CHICKEN));
            }
            return Some(Step::Prepare(FoodItem::CHICKEN));
        }
        if to - from == 17 && expect_prefix(s, from + 11, "SALMON") {
            proof {
                assert(region =~= "- prepare: "@ + item_text(FoodItem::SALMON));
            }
            return Some(Step::Prepare(FoodItem::SALMON));
        }
        proof {
            assert forall|st: Step| region != step_line(st) by {
                if region == step_line(st) {
                    match st {
                        Step::Prepare(it) => {
                            match it {
                                FoodItem::CHICKEN => {
                                    assert(region.len() == 18);
                                    assert(s@.subrange(from + 11, from + 18)
                                        =~= region.subrange(11, 18));
                                    assert(region.subrange(11, 18) =~= "CHICKEN"@);
                                    assert(false);
                                },
                                FoodItem::SALMON => {
                                    assert(region.len() == 17);
                                    assert(s@.subrange(from + 11, from + 17)
                                        =~= region.subrange(11, 17));
                                    assert(region.subrange(11, 17) =~= "SALMON"@);
                                    assert(false);
                                },
                            }
                        },
                        Step::Cook(it, t) => {
                            // a cook line never starts with the prepare prefix
                            lemma_dec_digits_shape(t as nat);
                            assert(region.len() >= 16);
                            assert(region[2] == "- cook: "@[2]);
                            assert(region[2] == s@[from + 2]);
                            assert(region[2] == "- prepare: "@[2]);
                            assert(false);
                        },
                    }
                }
            }
        }
        return None;
    }
    if expect_prefix(s, from, "- cook: ") {
        if to - from >= 16 && expect_prefix(s, from + 8, "CHICKEN ") {
            match parse_u64(s, from + 16, to) {
                Some(t) => {
                    proof {
                        assert("CHICKEN "@ =~= "CHICKEN"@ + " "@);
                        assert(s@.subrange(from as int, from + 8) =~= region.subrange(0, 8));
                        assert(s@.subrange(from + 8, from + 16) =~= region.subrange(8, 16));
                        assert(s@.subrange(from + 16, to as int)
                            =~= region.subrange(16, region.len() as int));
                        assert(region.subrange(16, region.len() as int)
                            == dec_digits(t as nat));
                        let rhs = "- cook: "@ + item_text(FoodItem::CHICKEN) + " "@
                            + dec_digits(t as nat);
                        assert(rhs.len() == region.len());
                        assert forall|i: int| 0 <= i < region.len()
                            implies region[i] == rhs[i] by {
                            if i < 8 {
                                assert(region[i] == region.subrange(0, 8)[i]);
                            } else if i < 16 {
                                assert(region[i] == region.subrange(8, 16)[i - 8]);
                                assert("CHICKEN "@[i - 8] == ("CHICKEN"@ + " "@)[i - 8]);
                            } else {
                                assert(region[i]
                                    == region.subrange(16, region.len() as int)[i - 16]);
                            }
                        }
                        assert(region =~= rhs);
                    }
                    return Some(Step::Cook(FoodItem::CHICKEN, t));
                },
                None => {
                    proof {
                        assert forall|st: Step| region != step_line(st) by {
                            if region == step_line(st) {
                                match st {
                                    Step::Prepare(it) => {
                                        assert(region.len() >= 17);
                                        assert(region[2] == "- prepare: "@[2]);
                                        assert(region[2] == s@[from + 2]);
                                        assert(region[2] == "- cook: "@[2]);
                                        assert(false);
                                    },
                                    Step::Cook(it, t) => {
                                        match it {
                                            FoodItem::CHICKEN => {
                                                lemma_dec_digits_shape(t as nat);
                                                assert(region.len() == 16 + dec_digits(
                                                    t as nat,
                                                ).len());
                                                assert(s@.subrange(from + 16, to as int)
                                                    =~= region.subrange(
                                                    16,
                                                    region.len() as int,
                                                ));
                                                assert(region.subrange(
                                                    16,
                                                    region.len() as int,
                                                ) =~= dec_digits(t as nat));
                                                assert(false);
                                            },
                                            FoodItem::SALMON => {
                                                // the item under the cook
                                                // prefix begins 'S', not 'C'
                                                assert(region[8] == "SALMON "@[0]);
                                                assert(region[8] == s@[from + 8]);
                                                assert(region[8] == "CHICKEN "@[0]);
                                                assert(false);
                                            },
                                        }
                                    },
                                }
                            }
                        }
                    }
                    return None;
                },
            }
        }
        if to - from >= 15 && expect_prefix(s, from + 8, "SALMON ") {
            match parse_u64(s, from + 15, to) {
                Some(t) => {
                    proof {
                        assert("SALMON "@ =~= "SALMON"@ + " "@);
                        assert(s@.subrange(from as int, from + 8) =~= region.subrange(0, 8));
                        assert(s@.subrange(from + 8, from + 15) =~= region.subrange(8, 15));
                        assert(s@.subrange(from + 15, to as int)
                            =~= region.subrange(15, region.len() as int));
                        assert(region.subrange(15, region.len() as int)
                            == dec_digits(t as nat));
                        let rhs = "- cook: "@ + item_text(FoodItem::SALMON) + " "@
                            + dec_digits(t as nat);
                        assert(rhs.len() == region.len());
                        assert forall|i: int| 0 <= i < region.len()
                            implies region[i] == rhs[i] by {
                            if i < 8 {
                                assert(region[i] == region.subrange(0, 8)[i]);
                            } else if i < 15 {
                                assert(region[i] == region.subrange(8, 15)[i - 8]);
                                assert("SALMON "@[i - 8] == ("SALMON"@ + " "@)[i - 8]);
                            } else {
                                assert(region[i]
                                    == region.subrange(15, region.len() as int)[i - 15]);
                            }
                        }
                        assert(region =~= rhs);
                    }
                    return Some(Step::Cook(FoodItem::SALMON, t));
                },
                None => {
                    proof {
                        assert forall|st: Step| region != step_line(st) by {
                            if region == step_line(st) {
                                match st {
                                    Step::Prepare(it) => {
                                        assert(region.len() >= 17);
                                        assert(region[2] == "- prepare: "@[2]);
                                        assert(region[2] == s@[from + 2]);
                                        assert(region[2] == "- cook: "@[2]);
                                        assert(false);
                                    },
                                    Step::Cook(it, t) => {
                                        match it {
                                            FoodItem::SALMON => {
                                                lemma_dec_digits_shape(t as nat);
                                                assert(region.len() == 15 + dec_digits(
                                                    t as nat,
                                                ).len());
                                                assert(s@.subrange(from + 15, to as int)
                                                    =~= region.subrange(
                                                    15,
                                                    region.len() as int,
                                                ));
                                                assert(region.subrange(
                                                    15,
                                                    region.len() as int,
                                                ) =~= dec_digits(t as nat));
                                                assert(false);
                                            },
                                            FoodItem::CHICKEN => {
                                                assert(region.len() >= 17);
                                                assert(region[8] == "CHICKEN "@[0]);
                                                assert(region[8] == s@[from + 8]);
                                                assert(region[8] == "SALMON "@[0]);
                                                assert(false);
                                            },
                                        }
                                    },
                                }
                            }
                        }
                    }
                    return None;
                },
            }
        }
        proof {
            assert forall|st: Step| region != step_line(st) by {
                if region == step_line(st) {
                    match st {
                        Step::Prepare(it) => {
                            assert(region.len() >= 17);
                            assert(region[2] == "- prepare: "@[2]);
                            assert(region[2] == s@[from + 2]);
                            assert(region[2] == "- cook: "@[2]);
                            assert(false);
                        },
                        Step::Cook(it, t) => {
                            lemma_dec_digits_shape(t as nat);
                            match it {
                                FoodItem::CHICKEN => {
                                    assert(region.len() >= 17);
                                    assert(s@.subrange(from + 8, from + 16)
                                        =~= region.subrange(8, 16));
                                    assert(region.subrange(8, 16) =~= "CHICKEN "@);
                                    assert(false);
                                },
                                FoodItem::SALMON => {
                                    assert(region.len() >= 16);
                                    assert(s@.subrange(from + 8, from + 15)
                                        =~= region.subrange(8, 15));
                                    assert(region.subrange(8, 15) =~= "SALMON "@);
                                    assert(false);
                                },
                            }
                        },
                    }
                }
            }
        }
        return None;
    }
    proof {
        // every step line begins with one of the two role prefixes
        assert forall|st: Step| region != step_line(st) by {
            if region == step_line(st) {
                match st {
                    Step::Prepare(it) => {
                        assert(region.len() >= 17);
                        assert(s@.subrange(from as int, from + 11)
                            =~= region.subrange(0, 11));
                        assert(region.subrange(0, 11) =~= "- prepare: "@);
                        assert(false);
                    },
                    Step::Cook(it, t) => {
                        lemma_dec_digits_shape(t as nat);
                        assert(region.len() >= 16);
                        assert(s@.subrange(from as int, from + 8)
                            =~= region.subrange(0, 8));
                        assert(region.subrange(0, 8) =~= "- cook: "@);
                        assert(false);
                    },
                }
            }
        }
    }
    None
}


/// Two steps with the same line are the same step.
pub proof fn lemma_step_line_injective(a: Step, b: Step)
    requires
        step_line(a) == step_line(b),
    ensures
        a == b,
{
    reveal_strlit("- prepare: ");
    reveal_strlit("- cook: ");
    reveal_strlit("CHICKEN");
    reveal_strlit("SALMON");
    reveal_strlit(" ");
    let x = step_line(a);
    match (a, b) {
        (Step::Prepare(ia), Step::Prepare(ib)) => {
            if ia != ib {
                assert(item_text(ia).len() != item_text(ib).len());
                assert(x.len() == 11 + item_text(ia).len());
                assert(step_line(b).len() == 11 + item_text(ib).len());
                assert(false);
            }
        },
        (Step::Prepare(ia), Step::Cook(ib, tb)) => {
            assert(x[2] == "- prepare: "@[2]);
            assert(step_line(b)[2] == "- cook: "@[2]);
            assert(false);
        },
        (Step::Cook(ia, ta), Step::Prepare(ib)) => {
            assert(x[2] == "- cook: "@[2]);
            assert(step_line(b)[2] == "- prepare: "@[2]);
            assert(false);
        },
        (Step::Cook(ia, ta), Step::Cook(ib, tb)) => {
            if ia != ib {
                assert(x[8] == item_text(ia)[0]);
                assert(step_line(b)[8] == item_text(ib)[0]);
                assert(item_text(FoodItem::CHICKEN)[0] != item_text(FoodItem::SALMON)[0]);
                assert(false);
            }
            assert(item_text(ia) == item_text(ib));
            let off = 8 + item_text(ia).len() + 1;
            assert(x.subrange(off as int, x.len() as int) =~= dec_digits(ta as nat));
            assert(step_line(b).subrange(off as int, step_line(b).len() as int)
                =~= dec_digits(tb as nat));
            assert(dec_digits(ta as nat) == dec_digits(tb as nat));
            lemma_dec_val_of_dec_digits(ta as nat);
            lemma_dec_val_of_dec_digits(tb as nat);
        },
    }
}

/// A nonempty steps section begins with its first step's line, that
/// line's newline, and the remaining steps' section; the first newline
/// in it ends the first line.
pub proof fn lemma_steps_text_first(ss: Seq<Step>, x: Seq<char>)
    requires
        x == steps_text(ss),
        x.len() > 0,
    ensures
        ss.len() > 0,
        x.len() >= step_line(ss[0]).len() + 1,
        x.subrange(0, step_line(ss[0]).len() as int) == step_line(ss[0]),
        x[step_line(ss[0]).len() as int] == '\n',
        forall|q: int| 0 <= q < step_line(ss[0]).len() ==> x[q] != '\n',
        x.subrange(step_line(ss[0]).len() as int + 1, x.len() as int) == steps_text(ss.drop_first()),
{
    reveal_strlit("\n");
    if ss.len() == 0 {
        assert(x =~= Seq::<char>::empty());
        assert(false);
    }
    let line = step_line(ss[0]);
    assert(x == step_text(ss[0]) + steps_text(ss.drop_first()));
    assert(step_text(ss[0]) == line + "\n"@);
    assert("\n"@.len() == 1);
    assert(x.subrange(0, line.len() as int) =~= line);
    assert(x[line.len() as int] == "\n"@[0]);
    lemma_step_line_clean(ss[0]);
    assert forall|q: int| 0 <= q < line.len() implies x[q] != '\n' by {
        assert(x[q] == line[q]);
    }
    assert(x.subrange(line.len() as int + 1, x.len() as int) =~= steps_text(ss.drop_first()));
}

/// Parses the steps section filling the whole tail of `s` from `from`.
/// Succeeds exactly when that tail is the steps section of some step
/// sequence, and then returns exactly those steps.
fn parse_steps(s: &str, from: usize) -> (r: Option<Vec<Step>>)
    requires
        from <= s@.len(),
    ensures
        r matches Some(v) ==> s@.subrange(from as int, s@.len() as int) == steps_text(v@),
        r is None ==> forall|ss: Seq<Step>| s@.subrange(from as int, s@.len() as int)
            != steps_text(ss),
{
    let ghost whole = s@.subrange(from as int, s@.len() as int);
    let n = s.unicode_len();
    let mut p: usize = from;
    let mut steps: Vec<Step> = Vec::new();
    proof {
        assert(s@.subrange(from as int, p as int) =~= Seq::<char>::empty());
        assert(steps_text(Seq::<Step>::empty()) =~= Seq::<char>::empty());
        assert forall|ss: Seq<Step>| whole == #[trigger] steps_text(ss) implies steps@.len()
            <= ss.len() && steps@ == ss.take(steps@.len() as int) && s@.subrange(
            p as int,
            n as int,
        ) == steps_text(ss.skip(steps@.len() as int)) by {
            assert(ss.take(0) =~= Seq::<Step>::empty());
            assert(ss.skip(0) =~= ss);
        }
    }
    while p < n
        invariant
            from <= p <= n,
            n == s@.len(),
            whole == s@.subrange(from as int, s@.len() as int),
            s@.subrange(from as int, p as int) == steps_text(steps@),
            forall|ss: Seq<Step>| whole == #[trigger] steps_text(ss) ==> steps@.len()
                <= ss.len() && steps@ == ss.take(steps@.len() as int) && s@.subrange(
                p as int,
                n as int,
            ) == steps_text(ss.skip(steps@.len() as int)),
        decreases n - p,
    {
        let ghost suffix = s@.subrange(p as int, n as int);
        let q = match find_newline(s, p) {
            Some(q) => q,
            None => {
                proof {
                    assert forall|ss: Seq<Step>| whole != steps_text(ss) by {
                        if whole == steps_text(ss) {
                            let rest = ss.skip(steps@.len() as int);
                            assert(suffix == steps_text(rest));
                            assert(suffix.len() > 0);
                            lemma_steps_text_first(rest, suffix);
                            let ll = step_line(rest[0]).len() as int;
                            assert(suffix[ll] == '\n');
                            assert(s@[p + ll] == '\n');
                            assert(false);
                        }
                    }
                }
                return None;
            },
        };
        let st = match parse_step_line(s, p, q) {
            Some(st) => st,
            None => {
                proof {
                    assert forall|ss: Seq<Step>| whole != steps_text(ss) by {
                        if whole == steps_text(ss) {
                            let rest = ss.skip(steps@.len() as int);
                            assert(suffix == steps_text(rest));
                            assert(suffix.len() > 0);
                            lemma_steps_text_first(rest, suffix);
                            let ll = step_line(rest[0]).len() as int;
                            // the first newline after p is the line end
                            assert(suffix[ll] == '\n');
                            assert(s@[p + ll] == '\n');
                            assert forall|u: int| p <= u < p + ll implies s@[u] != '\n' by {
                                assert(suffix[u - p] != '\n');
                            }
                            assert(q == p + ll);
                            assert(s@.subrange(p as int, q as int)
                                =~= suffix.subrange(0, ll));
                            assert(suffix.subrange(0, ll) == step_line(rest[0]));
                            assert(false);
                        }
                    }
                }
                return None;
            },
        };
        let ghost steps_old = steps@;
        let ghost p_old = p as int;
        steps.push(st);
        p = q + 1;
        proof {
            // soundness: the parsed region grows by exactly this step's text
            reveal_strlit("\n");
            assert("\n"@.len() == 1 && "\n"@[0] == '\n');
            assert(s@.subrange(p_old, q as int) == step_line(st));
            assert(s@[q as int] == '\n');
            assert(s@.subrange(from as int, p as int) =~= s@.subrange(from as int, p_old)
                + step_line(st) + "\n"@);
            assert(step_text(st) =~= step_line(st) + "\n"@);
            lemma_steps_text_snoc(steps_old, st);
            assert(s@.subrange(from as int, p as int) =~= steps_text(steps@));
            // completeness: any whole-section reading still extends the parse
            assert forall|ss: Seq<Step>| whole == steps_text(ss) implies steps@.len()
                <= ss.len() && steps@ == ss.take(steps@.len() as int) && s@.subrange(
                p as int,
                n as int,
            ) == steps_text(ss.skip(steps@.len() as int)) by {
                let rest = ss.skip(steps_old.len() as int);
                assert(suffix == steps_text(rest));
                assert(suffix.len() > 0);
                lemma_steps_text_first(rest, suffix);
                let ll = step_line(rest[0]).len() as int;
                assert(suffix[ll] == '\n');
                assert(s@[p_old + ll] == '\n');
                assert forall|u: int| p_old <= u < p_old + ll implies s@[u] != '\n' by {
                    assert(suffix[u - p_old] != '\n');
                }
                assert(q == p_old + ll);
                assert(s@.subrange(p_old, q as int) =~= suffix.subrange(0, ll));
                assert(step_line(st) == step_line(rest[0]));
                lemma_step_line_injective(st, rest[0]);
                assert(ss[steps_old.len() as int] == rest[0]);
                assert(steps@ =~= ss.take(steps@.len() as int));
                assert(s@.subrange(p as int, n as int)
                    =~= suffix.subrange(ll + 1, suffix.len() as int));
                assert(rest.drop_first() =~= ss.skip(steps@.len() as int));
            }
        }
    }
    proof {
        assert(whole =~= s@.subrange(from as int, p as int));
    }
    Some(steps)
}


/// The line layout of an exact recipe encoding: where each line begins
/// and ends, where its two field-terminating newlines stand, and that no
/// newline stands before them within their lines.
pub proof fn lemma_recipe_text_layout(t: Seq<char>, d: Seq<char>, ss: Seq<Step>)
    requires
        clean_text(t),
        clean_text(d),
    ensures
        ({
            let x = recipe_text(t, d, ss);
            let o1 = 7 + t.len() as int;
            let o2 = o1 + 14 + d.len() as int;
            &&& x.len() == o2 + 8 + steps_text(ss).len()
            &&& x.subrange(0, 7) == "title: "@
            &&& x.subrange(7, o1) == t
            &&& x[o1] == '\n'
            &&& forall|q: int| 0 <= q < o1 ==> x[q] != '\n'
            &&& x.subrange(o1 + 1, o1 + 14) == "description: "@
            &&& x.subrange(o1 + 14, o2) == d
            &&& x[o2] == '\n'
            &&& forall|q: int| o1 + 1 <= q < o2 ==> x[q] != '\n'
            &&& x.subrange(o2 + 1, o2 + 8) == "steps:\n"@
            &&& x.subrange(o2 + 8, x.len() as int) == steps_text(ss)
        }),
{
    reveal_strlit("title: ");
    reveal_strlit("description: ");
    reveal_strlit("steps:\n");
    reveal_strlit("\n");
    let x = recipe_text(t, d, ss);
    let o1 = 7 + t.len() as int;
    let o2 = o1 + 14 + d.len() as int;
    assert("title: "@.len() == 7);
    assert("description: "@.len() == 13);
    assert("steps:\n"@.len() == 7);
    assert("\n"@.len() == 1);
    assert(x.subrange(0, 7) =~= "title: "@);
    assert(x.subrange(7, o1) =~= t);
    assert(x[o1] == "\n"@[0]);
    assert forall|q: int| 0 <= q < o1 implies x[q] != '\n' by {
        if q < 7 {
            assert(x[q] == "title: "@[q]);
        } else {
            assert(x[q] == t[q - 7]);
        }
    }
    assert(x.subrange(o1 + 1, o1 + 14) =~= "description: "@);
    assert(x.subrange(o1 + 14, o2) =~= d);
    assert(x[o2] == "\n"@[0]);
    assert forall|q: int| o1 + 1 <= q < o2 implies x[q] != '\n' by {
        if q < o1 + 14 {
            assert(x[q] == "description: "@[q - o1 - 1]);
        } else {
            assert(x[q] == d[q - o1 - 14]);
        }
    }
    assert(x.subrange(o2 + 1, o2 + 8) =~= "steps:\n"@);
    assert(x.subrange(o2 + 8, x.len() as int) =~= steps_text(ss));
}

/// Where the text is an exact encoding and two first-newline positions
/// have been observed — the first from the start, the second from just
/// past the first — the encoding's fields are pinned: the title is what
/// stands between the header and the first newline, the description
/// between its header and the second, and the steps section fills the
/// rest.
pub proof fn lemma_encoding_positions(
    tv: Seq<char>,
    p1: int,
    p2: int,
    t: Seq<char>,
    d: Seq<char>,
    ss: Seq<Step>,
)
    requires
        clean_text(t),
        clean_text(d),
        tv == recipe_text(t, d, ss),
        0 <= p1 < tv.len(),
        tv[p1] == '\n',
        forall|q: int| 0 <= q < p1 ==> tv[q] != '\n',
        p1 + 1 <= p2 < tv.len(),
        tv[p2] == '\n',
        forall|q: int| p1 + 1 <= q < p2 ==> tv[q] != '\n',
    ensures
        p1 == 7 + t.len(),
        t == tv.subrange(7, p1),
        p2 == p1 + 14 + d.len(),
        d == tv.subrange(p1 + 14, p2),
        tv.subrange(p2 + 8, tv.len() as int) == steps_text(ss),
{
    lemma_recipe_text_layout(t, d, ss);
    let o1 = 7 + t.len() as int;
    let o2 = o1 + 14 + d.len() as int;
    if p1 < o1 {
        assert(tv[p1] != '\n');
        assert(false);
    }
    if p1 > o1 {
        assert(tv[o1] != '\n');
        assert(false);
    }
    if p2 < o2 {
        assert(tv[p2] != '\n');
        assert(false);
    }
    if p2 > o2 {
        assert(tv[o2] != '\n');
        assert(false);
    }
}

impl Recipe {
    /// Decodes a recipe document.  Succeeds exactly when the text is the
    /// exact encoding of some recipe whose title and description hold no
    /// newline, and then returns a recipe with exactly the encoded
    /// fields.
    pub fn from_text(text: &str) -> (r: Result<Recipe, String>)
        ensures
            r matches Ok(rec) ==> clean_text(rec.title@) && clean_text(rec.description@)
                && text@ == recipe_text(rec.title@, rec.description@, rec.steps@),
            r is Err ==> forall|t: Seq<char>, d: Seq<char>, ss: Seq<Step>|
                clean_text(t) && clean_text(d) ==> text@ != #[trigger] recipe_text(t, d, ss),
    {
        let ghost tv = text@;
        proof {
            reveal_strlit("title: ");
            reveal_strlit("description: ");
            reveal_strlit("steps:\n");
            reveal_strlit("\n");
        }
        let n = text.unicode_len();
        if !expect_prefix(text, 0, "title: ") {
            proof {
                assert forall|t: Seq<char>, d: Seq<char>, ss: Seq<Step>|
                    clean_text(t) && clean_text(d) implies tv != #[trigger] recipe_text(
                    t,
                    d,
                    ss,
                ) by {
                    if tv == recipe_text(t, d, ss) {
                        lemma_recipe_text_layout(t, d, ss);
                        assert(false);
                    }
                }
            }
            return Err(String::from_str("recipe text does not match the expected schema"));
        }
        let p1 = match find_newline(text, 0) {
            Some(p) => p,
            None => {
                proof {
                    assert forall|t: Seq<char>, d: Seq<char>, ss: Seq<Step>|
                        clean_text(t) && clean_text(d) implies tv != #[trigger] recipe_text(
                        t,
                        d,
                        ss,
                    ) by {
                        if tv == recipe_text(t, d, ss) {
                            lemma_recipe_text_layout(t, d, ss);
                            assert(tv[7 + t.len() as int] == '\n');
                            assert(false);
                        }
                    }
                }
                return Err(String::from_str(
                    "recipe text does not match the expected schema",
                ));
            },
        };
        proof {
            if p1 < 7 {
                assert(tv[p1 as int] == "title: "@[p1 as int]);
                assert(false);
            }
        }
        let title = text.substring_char(7, p1);
        let dstart = p1 + 1;
        if !expect_prefix(text, dstart, "description: ") {
            proof {
                assert forall|t: Seq<char>, d: Seq<char>, ss: Seq<Step>|
                    clean_text(t) && clean_text(d) implies tv != #[trigger] recipe_text(
                    t,
                    d,
                    ss,
                ) by {
                    if tv == recipe_text(t, d, ss) {
                        lemma_recipe_text_layout(t, d, ss);
                        let o1 = 7 + t.len() as int;
                        if p1 < o1 {
                            assert(tv[p1 as int] != '\n');
                        } else if p1 > o1 {
                            assert(tv[o1] != '\n');
                        }
                        assert(p1 == o1);
                        assert(false);
                    }
                }
            }
            return Err(String::from_str("recipe text does not match the expected schema"));
        }
        let p2 = match find_newline(text, dstart) {
            Some(p) => p,
            None => {
                proof {
                    assert forall|t: Seq<char>, d: Seq<char>, ss: Seq<Step>|
                        clean_text(t) && clean_text(d) implies tv != #[trigger] recipe_text(
                        t,
                        d,
                        ss,
                    ) by {
                        if tv == recipe_text(t, d, ss) {
                            lemma_recipe_text_layout(t, d, ss);
                            let o1 = 7 + t.len() as int;
                            if p1 < o1 {
                                assert(tv[p1 as int] != '\n');
                            } else if p1 > o1 {
                                assert(tv[o1] != '\n');
                            }
                            assert(p1 == o1);
                            let o2 = o1 + 14 + d.len() as int;
                            assert(tv[o2] == '\n');
                            assert(false);
                        }
                    }
                }
                return Err(String::from_str(
                    "recipe text does not match the expected schema",
                ));
            },
        };
        proof {
            if p2 < dstart + 13 {
                assert(tv[p2 as int] == "description: "@[p2 - dstart]);
                assert(false);
            }
        }
        let desc = text.substring_char(dstart + 13, p2);
        let sstart = p2 + 1;
        if !expect_prefix(text, sstart, "steps:\n") {
            proof {
                assert forall|t: Seq<char>, d: Seq<char>, ss: Seq<Step>|
                    clean_text(t) && clean_text(d) implies tv != #[trigger] recipe_text(
                    t,
                    d,
                    ss,
                ) by {
                    if tv == recipe_text(t, d, ss) {
                        lemma_encoding_positions(tv, p1 as int, p2 as int, t, d, ss);
                        lemma_recipe_text_layout(t, d, ss);
                        assert(false);
                    }
                }
            }
            return Err(String::from_str("recipe text does not match the expected schema"));
        }
        let steps = match parse_steps(text, sstart + 7) {
            Some(v) => v,
            None => {
                proof {
                    assert forall|t: Seq<char>, d: Seq<char>, ss: Seq<Step>|
                        clean_text(t) && clean_text(d) implies tv != #[trigger] recipe_text(
                        t,
                        d,
                        ss,
                    ) by {
                        if tv == recipe_text(t, d, ss) {
                            lemma_encoding_positions(tv, p1 as int, p2 as int, t, d, ss);
                            assert(tv.subrange(p2 + 8, tv.len() as int) == steps_text(ss));
                            assert(false);
                        }
                    }
                }
                return Err(String::from_str(
                    "recipe text does not match the expected schema",
                ));
            },
        };
        let title_owned = String::from_str(title);
        let desc_owned = String::from_str(desc);
        proof {
            // the three headers, the two extracted fields and the parsed
            // steps tile the whole text
            assert(clean_text(title_owned@));
            assert(clean_text(desc_owned@));
            let rhs = recipe_text(title_owned@, desc_owned@, steps@);
            assert("title: "@.len() == 7);
            assert(tv.len() == p2 + 8 + steps_text(steps@).len());
            assert(rhs.len() == tv.len());
            assert forall|i: int| 0 <= i < tv.len() implies tv[i] == rhs[i] by {
                if i < 7 {
                    assert(tv.subrange(0, 7)[i] == tv[i]);
                } else if i < p1 {
                    assert(title_owned@[i - 7] == tv[i]);
                } else if i == p1 {
                } else if i < p1 + 14 {
                    assert(tv.subrange(p1 + 1, p1 + 14)[i - p1 - 1] == tv[i]);
                } else if i < p2 {
                    assert(desc_owned@[i - p1 - 14] == tv[i]);
                } else if i == p2 {
                } else if i < p2 + 8 {
                    assert(tv.subrange(p2 + 1, p2 + 8)[i - p2 - 1] == tv[i]);
                } else {
                    assert(tv.subrange(p2 + 8, tv.len() as int)[i - p2 - 8] == tv[i]);
                }
            }
            assert(tv =~= rhs);
        }
        Ok(Recipe { title: title_owned, description: desc_owned, steps })
    }
}


/// The steps section determines the steps: no two step sequences share
/// an encoding.
pub proof fn lemma_steps_text_injective(a: Seq<Step>, b: Seq<Step>)
    requires
        steps_text(a) == steps_text(b),
    ensures
        a == b,
    decreases a.len(),
{
    reveal_strlit("\n");
    let x = steps_text(a);
    if a.len() == 0 {
        assert(x =~= Seq::<char>::empty());
        if b.len() > 0 {
            assert(steps_text(b) == step_text(b[0]) + steps_text(b.drop_first()));
            assert(step_text(b[0]).len() >= 1);
            assert(false);
        }
        assert(a =~= b);
    } else if b.len() == 0 {
        assert(steps_text(b) =~= Seq::<char>::empty());
        assert(x == step_text(a[0]) + steps_text(a.drop_first()));
        assert(step_text(a[0]).len() >= 1);
        assert(false);
    } else {
        assert(x == step_text(a[0]) + steps_text(a.drop_first()));
        assert(step_text(a[0]).len() >= 1);
        assert(x.len() > 0);
        lemma_steps_text_first(a, x);
        lemma_steps_text_first(b, x);
        let la = step_line(a[0]).len() as int;
        let lb = step_line(b[0]).len() as int;
        if la < lb {
            assert(x[la] == '\n');
            assert(false);
        }
        if lb < la {
            assert(x[lb] == '\n');
            assert(false);
        }
        assert(step_line(a[0]) == x.subrange(0, la));
        assert(step_line(b[0]) == x.subrange(0, la));
        lemma_step_line_injective(a[0], b[0]);
        assert(steps_text(a.drop_first()) == x.subrange(la + 1, x.len() as int));
        assert(steps_text(b.drop_first()) == x.subrange(la + 1, x.len() as int));
        lemma_steps_text_injective(a.drop_first(), b.drop_first());
        assert(a.len() == b.len());
        assert forall|i: int| 0 <= i < a.len() implies a[i] == b[i] by {
            if i > 0 {
                assert(a[i] == a.drop_first()[i - 1]);
                assert(b[i] == b.drop_first()[i - 1]);
            }
        }
        assert(a =~= b);
    }
}

/// The document determines the recipe: two recipes whose titles and
/// descriptions fit on their lines and that encode to the same document
/// are field-for-field equal.  Together with the codec's contracts —
/// encoding a line-clean recipe succeeds and yields its exact encoding,
/// and decoding succeeds on exactly the exact encodings — saving a
/// recipe and reloading it yields field-for-field equal title,
/// description and steps.
pub proof fn theorem_recipe_text_injective(
    t1: Seq<char>,
    d1: Seq<char>,
    ss1: Seq<Step>,
    t2: Seq<char>,
    d2: Seq<char>,
    ss2: Seq<Step>,
)
    requires
        clean_text(t1),
        clean_text(d1),
        clean_text(t2),
        clean_text(d2),
        recipe_text(t1, d1, ss1) == recipe_text(t2, d2, ss2),
    ensures
        t1 == t2,
        d1 == d2,
        ss1 == ss2,
{
    let x = recipe_text(t1, d1, ss1);
    lemma_recipe_text_layout(t1, d1, ss1);
    lemma_recipe_text_layout(t2, d2, ss2);
    let o1a = 7 + t1.len() as int;
    let o1b = 7 + t2.len() as int;
    if o1a < o1b {
        assert(x[o1a] != '\n');
        assert(false);
    }
    if o1b < o1a {
        assert(x[o1b] != '\n');
        assert(false);
    }
    assert(t1 == x.subrange(7, o1a));
    assert(t2 == x.subrange(7, o1a));
    let o2a = o1a + 14 + d1.len() as int;
    let o2b = o1a + 14 + d2.len() as int;
    if o2a < o2b {
        assert(x[o2a] != '\n');
        assert(false);
    }
    if o2b < o2a {
        assert(x[o2b] != '\n');
        assert(false);
    }
    assert(d1 == x.subrange(o1a + 14, o2a));
    assert(d2 == x.subrange(o1a + 14, o2a));
    assert(steps_text(ss1) == x.subrange(o2a + 8, x.len() as int));
    assert(steps_text(ss2) == x.subrange(o2a + 8, x.len() as int));
    lemma_steps_text_injective(ss1, ss2);
}

} // verus!
