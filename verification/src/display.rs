//! Text forms of names, decision variables and expressions, for messages
//! and logs.

use vstd::prelude::*;
use crate::domain::{DecisionVariable, Domain, DomainView, Range};
use crate::expression::{lemma_terms_of, terms_of, Expression, Term};
use crate::name::{Name, NameView};

verus! {

/// The character of the decimal digit `d`.
pub open spec fn digit(d: int) -> char {
    if d == 0 {
        '0'
    } else if d == 1 {
        '1'
    } else if d == 2 {
        '2'
    } else if d == 3 {
        '3'
    } else if d == 4 {
        '4'
    } else if d == 5 {
        '5'
    } else if d == 6 {
        '6'
    } else if d == 7 {
        '7'
    } else if d == 8 {
        '8'
    } else {
        '9'
    }
}

/// The decimal digits of `n`, most significant first.
pub open spec fn digits(n: nat) -> Seq<char>
    decreases n,
{
    if n < 10 {
        seq![digit(n as int)]
    } else {
        digits(n / 10).push(digit((n % 10) as int))
    }
}

/// The decimal form of `i`, with a minus sign where it is negative.
pub open spec fn decimal(i: int) -> Seq<char> {
    if i < 0 {
        seq!['-'] + digits((-i) as nat)
    } else {
        digits(i as nat)
    }
}

/// The texts of `items` with `sep` between one and the next.
pub open spec fn join(items: Seq<Seq<char>>, sep: Seq<char>) -> Seq<char>
    decreases items.len(),
{
    if items.len() == 0 {
        Seq::empty()
    } else if items.len() == 1 {
        items[0]
    } else {
        join(items.drop_last(), sep) + sep + items.last()
    }
}

/// The text of the boolean `b`.
pub open spec fn boolean(b: bool) -> Seq<char> {
    if b {
        "true"@
    } else {
        "false"@
    }
}

impl NameView {
    /// `UserName(a)` or `MachineName(17)`.
    pub open spec fn display(self) -> Seq<char> {
        match self {
            NameView::UserName(s) => "UserName("@ + s + ")"@,
            NameView::MachineName(i) => "MachineName("@ + decimal(i as int) + ")"@,
        }
    }
}

/// `3` for a single value, `1..3` for an interval.
pub open spec fn display_range(r: Range<i32>) -> Seq<char> {
    match r {
        Range::Single(a) => decimal(a as int),
        Range::Bounded(a, b) => decimal(a as int) + ".."@ + decimal(b as int),
    }
}

/// The text of each range.
pub open spec fn display_ranges(ranges: Seq<Range<i32>>) -> Seq<Seq<char>> {
    Seq::new(ranges.len(), |i: int| display_range(ranges[i]))
}

impl DomainView {
    /// `bool`, or the ranges with ` or ` between them.
    pub open spec fn display(self) -> Seq<char> {
        match self {
            DomainView::BoolDomain => "bool"@,
            DomainView::IntDomain(ranges) => join(display_ranges(ranges), " or "@),
        }
    }
}

/// The text of each term.
pub open spec fn displays(xs: Seq<Term>) -> Seq<Seq<char>>
    decreases xs, 0nat,
{
    Seq::new(
        xs.len(),
        |i: int|
            if 0 <= i < xs.len() {
                xs[i].display()
            } else {
                Seq::empty()
            },
    )
}

/// The text of a list of operands: all of them where there are at most
/// three, the first and the last where there are more.
pub open spec fn display_operands(xs: Seq<Term>) -> Seq<char>
    decreases xs, 1nat,
{
    if xs.len() <= 3 {
        "Sum("@ + join(displays(xs), ", "@) + ")"@
    } else {
        "Sum("@ + xs[0].display() + ".."@ + xs[xs.len() - 1].display() + ")"@
    }
}

impl Term {
    /// The variant's name around the texts of its fields.
    pub open spec fn display(self) -> Seq<char>
        decreases self, 0nat,
    {
        match self {
            Term::ConstantInt(i) => "ConstantInt("@ + decimal(i as int) + ")"@,
            Term::ConstantBool(b) => "ConstantBool("@ + boolean(b) + ")"@,
            Term::Reference(n) => "Reference("@ + n.display() + ")"@,
            Term::Sum(xs) => "Sum("@ + display_operands(xs) + ")"@,
            Term::Not(a) => "Not("@ + a.display() + ")"@,
            Term::Or(xs) => "Or("@ + display_operands(xs) + ")"@,
            Term::And(xs) => "And("@ + display_operands(xs) + ")"@,
            Term::Eq(a, b) => "Eq("@ + a.display() + ", "@ + b.display() + ")"@,
            Term::Neq(a, b) => "Neq("@ + a.display() + ", "@ + b.display() + ")"@,
            Term::Geq(a, b) => "Geq("@ + a.display() + ", "@ + b.display() + ")"@,
            Term::Leq(a, b) => "Leq("@ + a.display() + ", "@ + b.display() + ")"@,
            Term::Gt(a, b) => "Gt("@ + a.display() + ", "@ + b.display() + ")"@,
            Term::Lt(a, b) => "Lt("@ + a.display() + ", "@ + b.display() + ")"@,
            Term::SumGeq(xs, b) => "SumGeq("@ + display_operands(xs) + ", "@ + b.display() + ")"@,
            Term::SumLeq(xs, b) => "SumLeq("@ + display_operands(xs) + ", "@ + b.display() + ")"@,
            Term::Ineq(a, b, c) => "Ineq("@ + a.display() + ", "@ + b.display() + ", "@
                + c.display() + ")"@,
        }
    }
}

/// The text of one decimal digit.
fn digit_str(d: u8) -> (s: &'static str)
    requires
        d < 10,
    ensures
        s@ == seq![digit(d as int)],
{
    proof {
        reveal_strlit("0");
        reveal_strlit("1");
        reveal_strlit("2");
        reveal_strlit("3");
        reveal_strlit("4");
        reveal_strlit("5");
        reveal_strlit("6");
        reveal_strlit("7");
        reveal_strlit("8");
        reveal_strlit("9");
    }
    let s = if d == 0 {
        "0"
    } else if d == 1 {
        "1"
    } else if d == 2 {
        "2"
    } else if d == 3 {
        "3"
    } else if d == 4 {
        "4"
    } else if d == 5 {
        "5"
    } else if d == 6 {
        "6"
    } else if d == 7 {
        "7"
    } else if d == 8 {
        "8"
    } else {
        "9"
    };
    assert(s@ =~= seq![digit(d as int)]);
    s
}

/// Appends the decimal digits of `n` to `s`.
fn append_digits(s: &mut String, n: u32)
    ensures
        final(s)@ == old(s)@ + digits(n as nat),
    decreases n,
{
    if n >= 10 {
        append_digits(s, n / 10);
    }
    let ghost before = s@;
    s.append(digit_str((n % 10) as u8));
    proof {
        if n >= 10 {
            assert(s@ =~= old(s)@ + digits((n / 10) as nat).push(digit((n % 10) as int)));
        } else {
            assert(s@ =~= old(s)@ + seq![digit(n as int)]);
        }
    }
}

/// The decimal form of `i`.
pub fn decimal_string(i: i32) -> (s: String)
    ensures
        s@ == decimal(i as int),
{
    let mut s = String::new();
    if i < 0 {
        proof {
            reveal_strlit("-");
        }
        s.append("-");
        assert(s@ =~= seq!['-']);
        append_digits(&mut s, (-(i as i64)) as u32);
    } else {
        append_digits(&mut s, i as u32);
        assert(s@ =~= digits(i as nat));
    }
    s
}

impl Name {
    /// The text form of the name.
    pub fn display(&self) -> (s: String)
        ensures
            s@ == self@.display(),
    {
        match self {
            Name::UserName(n) => {
                let mut s = String::from_str("UserName(");
                s.append(n.as_str());
                s.append(")");
                s
            },
            Name::MachineName(i) => {
                let mut s = String::from_str("MachineName(");
                s.append(decimal_string(*i).as_str());
                s.append(")");
                s
            },
        }
    }
}

/// The text form of a range.
pub fn range_string(r: &Range<i32>) -> (s: String)
    ensures
        s@ == display_range(*r),
{
    match r {
        Range::Single(a) => decimal_string(*a),
        Range::Bounded(a, b) => {
            let mut s = decimal_string(*a);
            s.append("..");
            s.append(decimal_string(*b).as_str());
            s
        },
    }
}

/// Appends to `s` what `join` adds for the item at index `k`: the
/// separator unless the item is the first, then the item.
fn append_joined(s: &mut String, items: Ghost<Seq<Seq<char>>>, k: usize, sep: &str, item: &str)
    requires
        k < items@.len(),
        item@ == items@[k as int],
        old(s)@ == join(items@.subrange(0, k as int), sep@),
    ensures
        final(s)@ == join(items@.subrange(0, k + 1), sep@),
{
    let ghost upto = items@.subrange(0, k + 1);
    proof {
        assert(upto.drop_last() =~= items@.subrange(0, k as int));
        assert(upto.last() == items@[k as int]);
    }
    if k > 0 {
        s.append(sep);
    } else {
        assert(s@ =~= Seq::<char>::empty());
    }
    s.append(item);
    proof {
        if k == 0 {
            assert(s@ =~= items@[0]);
        }
    }
}

impl DecisionVariable {
    /// The text form of the variable's domain.
    pub fn display(&self) -> (s: String)
        ensures
            s@ == self@.display(),
    {
        match &self.domain {
            Domain::BoolDomain => String::from_str("bool"),
            Domain::IntDomain(ranges) => {
                let ghost items = display_ranges(ranges@);
                let mut s = String::new();
                let mut k: usize = 0;
                assert(items.subrange(0, 0) =~= Seq::<Seq<char>>::empty());
                while k < ranges.len()
                    invariant
                        k <= ranges.len(),
                        items == display_ranges(ranges@),
                        s@ == join(items.subrange(0, k as int), " or "@),
                    decreases ranges.len() - k,
                {
                    let item = range_string(&ranges[k]);
                    append_joined(&mut s, Ghost(items), k, " or ", item.as_str());
                    k += 1;
                }
                assert(items.subrange(0, k as int) =~= items);
                s
            },
        }
    }
}

/// The text form of a list of operands.
pub fn display_expressions(expressions: &Vec<Expression>) -> (s: String)
    ensures
        s@ == display_operands(terms_of(expressions@)),
    decreases expressions, 1nat,
{
    let ghost xs = terms_of(expressions@);
    proof {
        lemma_terms_of(expressions@);
    }
    let mut s = String::from_str("Sum(");
    if expressions.len() <= 3 {
        let ghost items = displays(xs);
        let ghost head = s@;
        let mut body = String::new();
        let mut k: usize = 0;
        assert(items.subrange(0, 0) =~= Seq::<Seq<char>>::empty());
        while k < expressions.len()
            invariant
                k <= expressions.len(),
                xs == terms_of(expressions@),
                xs.len() == expressions.len(),
                forall|i: int| 0 <= i < xs.len() ==> #[trigger] xs[i] == expressions[i]@,
                items == displays(xs),
                body@ == join(items.subrange(0, k as int), ", "@),
            decreases expressions.len() - k,
        {
            let item = expressions[k].display();
            append_joined(&mut body, Ghost(items), k, ", ", item.as_str());
            k += 1;
        }
        assert(items.subrange(0, k as int) =~= items);
        s.append(body.as_str());
    } else {
        s.append(expressions[0].display().as_str());
        s.append("..");
        s.append(expressions[expressions.len() - 1].display().as_str());
    }
    s.append(")");
    s
}

impl Expression {
    /// The text form of the expression.
    pub fn display(&self) -> (s: String)
        ensures
            s@ == self@.display(),
        decreases self, 0nat,
    {
        match self {
            Expression::ConstantInt(i) => {
                let mut s = String::from_str("ConstantInt(");
                s.append(decimal_string(*i).as_str());
                s.append(")");
                s
            },
            Expression::ConstantBool(b) => {
                let mut s = String::from_str("ConstantBool(");
                if *b {
                    s.append("true");
                } else {
                    s.append("false");
                }
                s.append(")");
                s
            },
            Expression::Reference(n) => {
                let mut s = String::from_str("Reference(");
                s.append(n.display().as_str());
                s.append(")");
                s
            },
            Expression::Sum(v) => {
                let mut s = String::from_str("Sum(");
                s.append(display_expressions(v).as_str());
                s.append(")");
                s
            },
            Expression::Not(a) => {
                let mut s = String::from_str("Not(");
                s.append(a.display().as_str());
                s.append(")");
                s
            },
            Expression::Or(v) => {
                let mut s = String::from_str("Or(");
                s.append(display_expressions(v).as_str());
                s.append(")");
                s
            },
            Expression::And(v) => {
                let mut s = String::from_str("And(");
                s.append(display_expressions(v).as_str());
                s.append(")");
                s
            },
            Expression::Eq(a, b) => display_pair("Eq(", a.display().as_str(), b.display().as_str()),
            Expression::Neq(a, b) => display_pair("Neq(", a.display().as_str(), b.display().as_str()),
            Expression::Geq(a, b) => display_pair("Geq(", a.display().as_str(), b.display().as_str()),
            Expression::Leq(a, b) => display_pair("Leq(", a.display().as_str(), b.display().as_str()),
            Expression::Gt(a, b) => display_pair("Gt(", a.display().as_str(), b.display().as_str()),
            Expression::Lt(a, b) => display_pair("Lt(", a.display().as_str(), b.display().as_str()),
            Expression::SumGeq(v, b) => {
                let mut s = String::from_str("SumGeq(");
                s.append(display_expressions(v).as_str());
                s.append(", ");
                s.append(b.display().as_str());
                s.append(")");
                s
            },
            Expression::SumLeq(v, b) => {
                let mut s = String::from_str("SumLeq(");
                s.append(display_expressions(v).as_str());
                s.append(", ");
                s.append(b.display().as_str());
                s.append(")");
                s
            },
            Expression::Ineq(a, b, c) => {
                let mut s = String::from_str("Ineq(");
                s.append(a.display().as_str());
                s.append(", ");
                s.append(b.display().as_str());
                s.append(", ");
                s.append(c.display().as_str());
                s.append(")");
                s
            },
        }
    }
}

/// `head`, then `a`, a comma, `b`, and a closing bracket.
fn display_pair(head: &str, a: &str, b: &str) -> (s: String)
    ensures
        s@ == head@ + a@ + ", "@ + b@ + ")"@,
{
    let mut s = String::from_str(head);
    s.append(a);
    s.append(", ");
    s.append(b);
    s.append(")");
    s
}

} // verus!
