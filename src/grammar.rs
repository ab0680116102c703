use vstd::prelude::*;
use crate::ast::Expr;
use crate::json::Num;
use crate::parser::{fold_and, fold_or, is_digit, is_name_char, is_space};

verus! {

// The query grammar, as functions from the text and a position to what is
// read there and the position after it:
//
//   expression := and ( '||' and )*          nested to the left
//   and        := primary ( '&&' primary )*  nested to the left
//   primary    := '(' expression ')' | value | path value+
//   value      := '"' text '"' | '?' name | number
//   path       := name ( '.' name )*
//
// Spaces may stand before a primary, an operator, a value and a closing
// parenthesis.

/// The first position from `p` on that holds no space.
pub open spec fn skip_spaces(t: Seq<char>, p: int) -> int
    decreases t.len() - p,
{
    if 0 <= p < t.len() && is_space(t[p]) {
        skip_spaces(t, p + 1)
    } else {
        p
    }
}

/// The end of the run of name characters from `p`.
pub open spec fn name_end_of(t: Seq<char>, p: int) -> int
    decreases t.len() - p,
{
    if 0 <= p < t.len() && is_name_char(t[p]) {
        name_end_of(t, p + 1)
    } else {
        p
    }
}

/// The end of the run of digits from `p`.
pub open spec fn digits_end(t: Seq<char>, p: int) -> int
    decreases t.len() - p,
{
    if 0 <= p < t.len() && is_digit(t[p]) {
        digits_end(t, p + 1)
    } else {
        p
    }
}

/// The first `"` from `p` on, or the end of the text.
pub open spec fn quote_end(t: Seq<char>, p: int) -> int
    decreases t.len() - p,
{
    if 0 <= p < t.len() && t[p] != '"' {
        quote_end(t, p + 1)
    } else {
        p
    }
}

pub open spec fn digit_value(c: char) -> nat {
    (c as u32 - '0' as u32) as nat
}

/// The decimal value of the digits from `p` to `q`.
pub open spec fn digits_value(t: Seq<char>, p: int, q: int) -> nat
    decreases q - p,
{
    if q <= p {
        0
    } else {
        digits_value(t, p, q - 1) * 10 + digit_value(t[q - 1])
    }
}

/// The value of fraction digits from `p` to `q`, the first counting `scale`
/// millionths and each next one a tenth of that, down to nothing.
pub open spec fn fraction_value(t: Seq<char>, p: int, q: int, scale: nat) -> nat
    decreases q - p,
{
    if q <= p {
        0
    } else {
        digit_value(t[p]) * scale + fraction_value(t, p + 1, q, scale / 10)
    }
}

/// Whether a digit other than `0` stands between `p` and `q`.
pub open spec fn any_nonzero(t: Seq<char>, p: int, q: int) -> bool
    decreases q - p,
{
    if q <= p {
        false
    } else {
        t[q - 1] != '0' || any_nonzero(t, p, q - 1)
    }
}

/// The canonical number with integer part `whole` and `micro` millionths.
pub open spec fn make_num(negative: bool, whole: nat, micro: nat) -> Num {
    let m = if micro == 0 {
        whole as int
    } else {
        (whole * 1_000_000 + micro) as int
    };
    let v = if negative {
        -m
    } else {
        m
    };
    if micro == 0 {
        Num::Int(v as i64)
    } else {
        Num::Micro(v as i64)
    }
}

/// A number: an optional `-`, one to eighteen digits, and an optional `.`
/// with at least one digit, which allows at most twelve digits before it. A value within a millionth of an integer is
/// that integer; any other value counts the first six fraction digits.
pub open spec fn number_at(t: Seq<char>, pos: int) -> Option<(Num, int)> {
    let negative = 0 <= pos < t.len() && t[pos] == '-';
    let start = if negative {
        pos + 1
    } else {
        pos
    };
    let end = digits_end(t, start);
    if end == start || end - start > 18 {
        None
    } else {
        let whole = digits_value(t, start, end);
        if 0 <= end < t.len() && t[end] == '.' {
            let fend = digits_end(t, end + 1);
            if fend == end + 1 || end - start > 12 {
                None
            } else {
                let micro = fraction_value(t, end + 1, fend, 100_000);
                if micro == 999_999 && any_nonzero(t, end + 7, fend) {
                    Some((make_num(negative, whole + 1, 0), fend))
                } else {
                    Some((make_num(negative, whole, micro), fend))
                }
            }
        } else {
            Some((make_num(negative, whole, 0), end))
        }
    }
}

/// A variable whose name starts at `p`.
pub open spec fn variable_at(t: Seq<char>, p: int) -> Option<(Expr, int)> {
    let e = name_end_of(t, p);
    if e == p {
        None
    } else {
        Some((Expr::Var(t.subrange(p, e)), e))
    }
}

/// A string, a variable or a number.
pub open spec fn value_at(t: Seq<char>, pos: int) -> Option<(Expr, int)> {
    if 0 <= pos < t.len() && t[pos] == '"' {
        let q = quote_end(t, pos + 1);
        if q >= t.len() {
            None
        } else {
            Some((Expr::Str(t.subrange(pos + 1, q)), q + 1))
        }
    } else if 0 <= pos < t.len() && t[pos] == '?' {
        variable_at(t, pos + 1)
    } else {
        match number_at(t, pos) {
            Some((n, e)) => Some((Expr::Number(n), e)),
            None => None,
        }
    }
}

/// Whether a value may start at `p`.
pub open spec fn value_starts(t: Seq<char>, p: int) -> bool {
    0 <= p < t.len() && (t[p] == '"' || t[p] == '?' || t[p] == '-' || is_digit(t[p]))
}

/// The segments `.name` from `q` on, after those already read.
pub open spec fn path_rest(t: Seq<char>, q: int, segs: Seq<Seq<char>>) -> Option<(Seq<Seq<char>>, int)>
    decreases t.len() - q,
{
    if 0 <= q < t.len() && t[q] == '.' {
        let e = name_end_of(t, q + 1);
        if e == q + 1 || !(q < e <= t.len()) {
            None
        } else {
            path_rest(t, e, segs.push(t.subrange(q + 1, e)))
        }
    } else {
        Some((segs, q))
    }
}

/// A dotted path, split into its segments.
pub open spec fn path_at(t: Seq<char>, p: int) -> Option<(Seq<Seq<char>>, int)> {
    let e = name_end_of(t, p);
    if e == p {
        None
    } else {
        path_rest(t, e, seq![t.subrange(p, e)])
    }
}

/// The values from `q` on, after those already read.
pub open spec fn args_rest(t: Seq<char>, q: int, args: Seq<Expr>) -> Option<(Seq<Expr>, int)>
    decreases t.len() - q,
{
    let q2 = skip_spaces(t, q);
    if !value_starts(t, q2) {
        Some((args, q))
    } else {
        match value_at(t, q2) {
            Some((v, e)) => if q < e <= t.len() {
                args_rest(t, e, args.push(v))
            } else {
                None
            },
            None => None,
        }
    }
}

/// A primary after any spaces at `pos`.
pub open spec fn primary_at(t: Seq<char>, pos: int) -> Option<(Expr, int)>
    decreases t.len() - pos, 0nat,
{
    let p = skip_spaces(t, pos);
    if !(pos <= p <= t.len()) {
        None
    } else if p < t.len() && t[p] == '(' {
        match expression_at(t, p + 1) {
            Some((e, q)) => {
                let q2 = skip_spaces(t, q);
                if 0 <= q2 < t.len() && t[q2] == ')' {
                    Some((e, q2 + 1))
                } else {
                    None
                }
            },
            None => None,
        }
    } else if value_starts(t, p) {
        value_at(t, p)
    } else {
        match path_at(t, p) {
            Some((segs, q)) => match args_rest(t, q, Seq::empty()) {
                Some((args, e)) => if args.len() == 0 {
                    None
                } else {
                    Some((Expr::Primary(segs, args), e))
                },
                None => None,
            },
            None => None,
        }
    }
}

/// Whether the two characters at `q` are `c`.
pub open spec fn operator_at(t: Seq<char>, q: int, c: char) -> bool {
    0 <= q && q + 1 < t.len() && t[q] == c && t[q + 1] == c
}

/// The operands `&& primary` from `q` on, joined to `acc`.
pub open spec fn and_rest(t: Seq<char>, q: int, acc: Expr) -> Option<(Expr, int)>
    decreases t.len() - q, 1nat,
{
    let q2 = skip_spaces(t, q);
    if q <= q2 && operator_at(t, q2, '&') {
        match primary_at(t, q2 + 2) {
            Some((e, end)) => if q < end <= t.len() {
                and_rest(t, end, Expr::And(Box::new(acc), Box::new(e)))
            } else {
                None
            },
            None => None,
        }
    } else {
        Some((acc, q))
    }
}

/// Primaries joined by `&&`.
pub open spec fn conjunction_at(t: Seq<char>, pos: int) -> Option<(Expr, int)>
    decreases t.len() - pos, 2nat,
{
    match primary_at(t, pos) {
        Some((e, q)) => if pos < q <= t.len() {
            and_rest(t, q, e)
        } else {
            None
        },
        None => None,
    }
}

/// The operands `|| conjunction` from `q` on, joined to `acc`.
pub open spec fn or_rest(t: Seq<char>, q: int, acc: Expr) -> Option<(Expr, int)>
    decreases t.len() - q, 3nat,
{
    let q2 = skip_spaces(t, q);
    if q <= q2 && operator_at(t, q2, '|') {
        match conjunction_at(t, q2 + 2) {
            Some((e, end)) => if q < end <= t.len() {
                or_rest(t, end, Expr::Or(Box::new(acc), Box::new(e)))
            } else {
                None
            },
            None => None,
        }
    } else {
        Some((acc, q))
    }
}

/// Conjunctions joined by `||`.
pub open spec fn expression_at(t: Seq<char>, pos: int) -> Option<(Expr, int)>
    decreases t.len() - pos, 4nat,
{
    match conjunction_at(t, pos) {
        Some((e, q)) => if pos < q <= t.len() {
            or_rest(t, q, e)
        } else {
            None
        },
        None => None,
    }
}

/// The query that the whole text spells, spaces around it allowed.
pub open spec fn parse_text(t: Seq<char>) -> Option<Expr> {
    match expression_at(t, 0) {
        Some((e, q)) => if skip_spaces(t, q) == t.len() {
            Some(e)
        } else {
            None
        },
        None => None,
    }
}

/// Where the `i`-th joined operand's operator is looked for: after the
/// operand before it.
pub open spec fn joined_from(q: int, ends: Seq<int>, i: int) -> int {
    if i == 0 {
        q
    } else {
        ends[i - 1]
    }
}

/// After `from` stand the operator `c c` and an operand read as `e`, ending at `end`.
pub open spec fn joined_at(t: Seq<char>, from: int, c: char, e: Expr, end: int) -> bool {
    let q2 = skip_spaces(t, from);
    &&& from <= q2
    &&& operator_at(t, q2, c)
    &&& (if c == '&' {
        primary_at(t, q2 + 2)
    } else {
        conjunction_at(t, q2 + 2)
    }) == Some((e, end))
    &&& from < end <= t.len()
}

/// No operator `c c` follows `from`.
pub open spec fn chain_ends(t: Seq<char>, from: int, c: char) -> bool {
    !(from <= skip_spaces(t, from) && operator_at(t, skip_spaces(t, from), c))
}

proof fn lemma_fold_and_front(acc: Expr, ops: Seq<Expr>)
    requires
        ops.len() > 0,
    ensures
        fold_and(acc, ops) == fold_and(Expr::And(Box::new(acc), Box::new(ops[0])), ops.drop_first()),
    decreases ops.len(),
{
    let x = Expr::And(Box::new(acc), Box::new(ops[0]));
    if ops.len() > 1 {
        lemma_fold_and_front(acc, ops.drop_last());
        assert(ops.drop_last().drop_first() =~= ops.drop_first().drop_last());
        assert(ops.drop_first().last() == ops.last());
        assert(fold_and(acc, ops) == Expr::And(Box::new(fold_and(acc, ops.drop_last())), Box::new(ops.last())));
        assert(fold_and(x, ops.drop_first()) == Expr::And(
            Box::new(fold_and(x, ops.drop_first().drop_last())),
            Box::new(ops.drop_first().last()),
        ));
    } else {
        assert(ops.drop_first() =~= Seq::<Expr>::empty());
        assert(ops.drop_last() =~= Seq::<Expr>::empty());
        assert(fold_and(acc, ops) == Expr::And(Box::new(fold_and(acc, ops.drop_last())), Box::new(ops.last())));
        assert(fold_and(acc, Seq::<Expr>::empty()) == acc);
        assert(fold_and(x, Seq::<Expr>::empty()) == x);
    }
}

proof fn lemma_fold_or_front(acc: Expr, ops: Seq<Expr>)
    requires
        ops.len() > 0,
    ensures
        fold_or(acc, ops) == fold_or(Expr::Or(Box::new(acc), Box::new(ops[0])), ops.drop_first()),
    decreases ops.len(),
{
    let x = Expr::Or(Box::new(acc), Box::new(ops[0]));
    if ops.len() > 1 {
        lemma_fold_or_front(acc, ops.drop_last());
        assert(ops.drop_last().drop_first() =~= ops.drop_first().drop_last());
        assert(ops.drop_first().last() == ops.last());
        assert(fold_or(acc, ops) == Expr::Or(Box::new(fold_or(acc, ops.drop_last())), Box::new(ops.last())));
        assert(fold_or(x, ops.drop_first()) == Expr::Or(
            Box::new(fold_or(x, ops.drop_first().drop_last())),
            Box::new(ops.drop_first().last()),
        ));
    } else {
        assert(ops.drop_first() =~= Seq::<Expr>::empty());
        assert(ops.drop_last() =~= Seq::<Expr>::empty());
        assert(fold_or(acc, ops) == Expr::Or(Box::new(fold_or(acc, ops.drop_last())), Box::new(ops.last())));
        assert(fold_or(acc, Seq::<Expr>::empty()) == acc);
        assert(fold_or(x, Seq::<Expr>::empty()) == x);
    }
}

/// Operands joined by `&&` after a first one nest to the left, however many
/// there are: `a && b && c && ...` reads as `((a && b) && c) && ...`.
pub proof fn lemma_conjunction_nests_left(t: Seq<char>, q: int, acc: Expr, ops: Seq<Expr>, ends: Seq<int>)
    requires
        ops.len() == ends.len(),
        forall|i: int| 0 <= i < ops.len() ==> joined_at(t, joined_from(q, ends, i), '&', #[trigger] ops[i], ends[i]),
        chain_ends(t, joined_from(q, ends, ops.len() as int), '&'),
    ensures
        and_rest(t, q, acc) == Some((fold_and(acc, ops), joined_from(q, ends, ops.len() as int))),
    decreases ops.len(),
{
    if ops.len() > 0 {
        assert(joined_at(t, q, '&', ops[0], ends[0]));
        let next = Expr::And(Box::new(acc), Box::new(ops[0]));
        let ops2 = ops.drop_first();
        let ends2 = ends.drop_first();
        assert forall|i: int| 0 <= i < ops2.len() implies joined_at(t, joined_from(ends[0], ends2, i), '&', #[trigger] ops2[i], ends2[i]) by {
            assert(ops2[i] == ops[i + 1] && ends2[i] == ends[i + 1]);
            assert(joined_at(t, joined_from(q, ends, i + 1), '&', ops[i + 1], ends[i + 1]));
        }
        assert(joined_from(ends[0], ends2, ops2.len() as int) == joined_from(q, ends, ops.len() as int));
        lemma_conjunction_nests_left(t, ends[0], next, ops2, ends2);
        lemma_fold_and_front(acc, ops);
    } else {
        assert(fold_and(acc, ops) == acc);
    }
}

/// Operands joined by `||` after a first one nest to the left, however many
/// there are: `a || b || c || ...` reads as `((a || b) || c) || ...`.
pub proof fn lemma_disjunction_nests_left(t: Seq<char>, q: int, acc: Expr, ops: Seq<Expr>, ends: Seq<int>)
    requires
        ops.len() == ends.len(),
        forall|i: int| 0 <= i < ops.len() ==> joined_at(t, joined_from(q, ends, i), '|', #[trigger] ops[i], ends[i]),
        chain_ends(t, joined_from(q, ends, ops.len() as int), '|'),
    ensures
        or_rest(t, q, acc) == Some((fold_or(acc, ops), joined_from(q, ends, ops.len() as int))),
    decreases ops.len(),
{
    if ops.len() > 0 {
        assert(joined_at(t, q, '|', ops[0], ends[0]));
        let next = Expr::Or(Box::new(acc), Box::new(ops[0]));
        let ops2 = ops.drop_first();
        let ends2 = ends.drop_first();
        assert forall|i: int| 0 <= i < ops2.len() implies joined_at(t, joined_from(ends[0], ends2, i), '|', #[trigger] ops2[i], ends2[i]) by {
            assert(ops2[i] == ops[i + 1] && ends2[i] == ends[i + 1]);
            assert(joined_at(t, joined_from(q, ends, i + 1), '|', ops[i + 1], ends[i + 1]));
        }
        assert(joined_from(ends[0], ends2, ops2.len() as int) == joined_from(q, ends, ops.len() as int));
        lemma_disjunction_nests_left(t, ends[0], next, ops2, ends2);
        lemma_fold_or_front(acc, ops);
    } else {
        assert(fold_or(acc, ops) == acc);
    }
}

} // verus!
