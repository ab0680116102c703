use vstd::prelude::*;
use crate::ast::{ASTAndExpression, ASTExpression, ASTOrExpression, ASTPrimaryExpression, Expr, expr_view};
use crate::grammar::{
    any_nonzero, and_rest, args_rest, conjunction_at, digit_value, digits_end, digits_value, expression_at, fraction_value,
    make_num, name_end_of, number_at, operator_at, or_rest, parse_text, path_at, path_rest, primary_at,
    quote_end, skip_spaces, value_at, value_starts, variable_at,
};
use crate::json::Num;

verus! {

/// `first` folded to the left with `rest` under `&&`.
pub open spec fn fold_and(first: Expr, rest: Seq<Expr>) -> Expr
    decreases rest.len(),
{
    if rest.len() == 0 {
        first
    } else {
        Expr::And(Box::new(fold_and(first, rest.drop_last())), Box::new(rest.last()))
    }
}

/// `first` folded to the left with `rest` under `||`.
pub open spec fn fold_or(first: Expr, rest: Seq<Expr>) -> Expr
    decreases rest.len(),
{
    if rest.len() == 0 {
        first
    } else {
        Expr::Or(Box::new(fold_or(first, rest.drop_last())), Box::new(rest.last()))
    }
}

pub open spec fn is_space(c: char) -> bool {
    c == ' ' || c == '\t' || c == '\n' || c == '\r'
}

pub open spec fn is_digit(c: char) -> bool {
    '0' <= c && c <= '9'
}

/// A character of a name: an ASCII letter or digit, `_`, or any character
/// beyond ASCII.
pub open spec fn is_name_char(c: char) -> bool {
    ('a' <= c && c <= 'z') || ('A' <= c && c <= 'Z') || is_digit(c) || c == '_' || (c as u32) > 127
}

/// The query text, one character per position.
pub struct MyParser {
    pub source: String,
    pub text: Vec<char>,
}

/// What a parse step gives: the node and the position after it.
pub type Step = Option<(ASTExpression, usize)>;

pub open spec fn step_view(r: Step) -> Option<(Expr, int)> {
    match r {
        Some((e, q)) => Some((e@, q as int)),
        None => None,
    }
}

pub open spec fn step_end(r: Step) -> int {
    match r {
        Some((_, q)) => q as int,
        None => 0,
    }
}

pub open spec fn strings_view(v: Seq<String>) -> Seq<Seq<char>> {
    v.map_values(|s: String| s@)
}

pub open spec fn pow10(n: nat) -> nat
    decreases n,
{
    if n == 0 {
        1
    } else {
        10 * pow10((n - 1) as nat)
    }
}

proof fn lemma_pow10_grows(k: nat)
    ensures
        pow10(k) <= pow10(k + 1),
        pow10(k) >= 1,
    decreases k,
{
    if k > 0 {
        lemma_pow10_grows((k - 1) as nat);
    }
}

proof fn lemma_pow10_bound(k: nat, m: nat)
    requires
        k <= m,
    ensures
        pow10(k) <= pow10(m),
        pow10(12) == 1_000_000_000_000,
        pow10(18) == 1_000_000_000_000_000_000,
    decreases m - k,
{
    if k < m {
        lemma_pow10_bound(k + 1, m);
        lemma_pow10_grows(k);
    } else {
        reveal_with_fuel(pow10, 19);
    }
}

impl MyParser {
    /// The characters held are those of the text.
    pub open spec fn wf(&self) -> bool {
        self.text@ == self.source@
    }

    pub fn new(s: &str) -> (r: MyParser)
        ensures
            r.wf(),
            r.source@ == s@,
    {
        let n = s.unicode_len();
        let mut text: Vec<char> = Vec::new();
        let mut i: usize = 0;
        while i < n
            invariant
                n == s@.len(),
                i <= n,
                text@ == s@.subrange(0, i as int),
            decreases n - i,
        {
            text.push(s.get_char(i));
            assert(text@ =~= s@.subrange(0, i + 1));
            i = i + 1;
        }
        assert(s@.subrange(0, n as int) =~= s@);
        MyParser { source: s.to_owned(), text }
    }

    fn skip_space(&self, pos: usize) -> (r: usize)
        requires
            pos <= self.text.len(),
        ensures
            pos <= r <= self.text.len(),
            r == skip_spaces(self.text@, pos as int),
    {
        let mut p = pos;
        while p < self.text.len() && (self.text[p] == ' ' || self.text[p] == '\t' || self.text[p] == '\n'
            || self.text[p] == '\r')
            invariant
                pos <= p <= self.text.len(),
                skip_spaces(self.text@, pos as int) == skip_spaces(self.text@, p as int),
            decreases self.text.len() - p,
        {
            p = p + 1;
        }
        p
    }

    fn char_is(&self, p: usize, c: char) -> (r: bool)
        ensures
            r == (p < self.text.len() && self.text@[p as int] == c),
    {
        p < self.text.len() && self.text[p] == c
    }

    fn name_char_at(&self, p: usize) -> (r: bool)
        ensures
            r == (p < self.text.len() && is_name_char(self.text@[p as int])),
    {
        if p >= self.text.len() {
            return false;
        }
        let c = self.text[p];
        ('a' <= c && c <= 'z') || ('A' <= c && c <= 'Z') || ('0' <= c && c <= '9') || c == '_' || (c as u32) > 127
    }

    fn digit_at(&self, p: usize) -> (r: Option<u64>)
        ensures
            match r {
                Some(d) => p < self.text.len() && is_digit(self.text@[p as int]) && d == digit_value(
                    self.text@[p as int],
                ) && d < 10,
                None => !(p < self.text.len() && is_digit(self.text@[p as int])),
            },
    {
        if p >= self.text.len() {
            return None;
        }
        let c = self.text[p];
        if '0' <= c && c <= '9' {
            Some((c as u32 - '0' as u32) as u64)
        } else {
            None
        }
    }

    fn value_start(&self, p: usize) -> (r: bool)
        ensures
            r == value_starts(self.text@, p as int),
    {
        if p >= self.text.len() {
            return false;
        }
        let c = self.text[p];
        c == '"' || c == '?' || c == '-' || ('0' <= c && c <= '9')
    }

    /// The text from `from` to `to`.
    fn piece(&self, from: usize, to: usize) -> (r: String)
        requires
            self.wf(),
            from <= to <= self.text.len(),
        ensures
            r@ == self.text@.subrange(from as int, to as int),
    {
        self.source.as_str().substring_char(from, to).to_owned()
    }

    /// The end of the run of name characters that starts at `pos`.
    fn name_end(&self, pos: usize) -> (r: usize)
        requires
            pos <= self.text.len(),
        ensures
            pos <= r <= self.text.len(),
            r == name_end_of(self.text@, pos as int),
    {
        let mut p = pos;
        while self.name_char_at(p)
            invariant
                pos <= p <= self.text.len(),
                name_end_of(self.text@, pos as int) == name_end_of(self.text@, p as int),
            decreases self.text.len() - p,
        {
            p = p + 1;
        }
        p
    }

    /// A number at `pos`: an optional `-`, up to twelve digits, and an
    /// optional fraction of which six digits count.
    pub fn parse_number(&self, pos: usize) -> (r: Option<(Num, usize)>)
        requires
            pos <= self.text.len(),
        ensures
            match number_at(self.text@, pos as int) {
                Some((n, e)) => r == Some((n, e as usize)) && pos < e <= self.text.len(),
                None => r is None,
            },
    {
        let ghost t = self.text@;
        let mut p = pos;
        let negative = self.char_is(p, '-');
        if negative {
            p = p + 1;
        }
        let start = p;
        let ghost end = digits_end(t, start as int);
        let mut whole: u64 = 0;
        while p < self.text.len()
            invariant
                t == self.text@,
                start <= p <= self.text.len(),
                end == digits_end(t, start as int),
                negative == (0 <= pos < t.len() && t[pos as int] == '-'),
                start == if negative {
                    pos + 1
                } else {
                    pos as int
                },
                digits_end(t, p as int) == end,
                p - start <= 18,
                whole == digits_value(t, start as int, p as int),
                whole < pow10((p - start) as nat),
            ensures
                start <= p <= self.text.len(),
                p - start <= 18,
                whole == digits_value(t, start as int, p as int),
                whole < pow10((p - start) as nat),
                digits_end(t, p as int) == end,
                end == p,
            decreases self.text.len() - p,
        {
            match self.digit_at(p) {
                Some(d) => {
                    if p - start >= 18 {
                        proof {
                            assert(digits_end(t, p as int) == digits_end(t, p + 1));
                            lemma_digits_end_after(t, p + 1);
                            assert(end - start > 18);
                            assert(number_at(t, pos as int) is None);
                        }
                        return None;
                    }
                    proof {
                        lemma_pow10_bound((p - start) as nat, 18);
                        let k = (p - start) as nat;
                        assert(pow10(k + 1) == 10 * pow10(k));
                        assert(whole * 10 + d < pow10(k + 1)) by (nonlinear_arith)
                            requires
                                whole < pow10(k),
                                d < 10,
                                pow10(k + 1) == 10 * pow10(k),
                        ;
                    }
                    whole = whole * 10 + d;
                    p = p + 1;
                },
                None => {
                    break;
                },
            }
        }
        if p == start {
            assert(number_at(t, pos as int) is None);
            return None;
        }
        proof {
            lemma_pow10_bound((p - start) as nat, 18);
        }
        let int_end = p;
        let mut micro: u64 = 0;
        let mut tail = false;
        let mut fraction = false;
        if self.char_is(p, '.') {
            fraction = true;
            p = p + 1;
            let frac_start = p;
            let ghost fend = digits_end(t, frac_start as int);
            let mut scale: u64 = 100_000;
            while p < self.text.len()
                invariant
                    t == self.text@,
                    frac_start <= p <= self.text.len(),
                    fend == digits_end(t, frac_start as int),
                    digits_end(t, p as int) == fend,
                    micro + fraction_value(t, p as int, fend, scale as nat) == fraction_value(
                        t,
                        frac_start as int,
                        fend,
                        100_000,
                    ),
                    scale <= 100_000,
                    scale > 0 ==> micro + 10 * scale <= 1_000_000,
                    scale == 0 ==> micro < 1_000_000,
                    tail == any_nonzero(t, frac_start + 6, p as int),
                ensures
                    frac_start <= p <= self.text.len(),
                    fend == p,
                    micro == fraction_value(t, frac_start as int, fend, 100_000),
                    micro < 1_000_000,
                    tail == any_nonzero(t, frac_start + 6, fend),
                decreases self.text.len() - p,
            {
                match self.digit_at(p) {
                    Some(d) => {
                        proof {
                            lemma_digits_end_after(t, p + 1);
                            assert(digits_end(t, p as int) == digits_end(t, p + 1));
                        }
                        assert(d * scale <= 9 * scale) by (nonlinear_arith)
                            requires
                                d < 10,
                        ;
                        micro = micro + d * scale;
                        scale = scale / 10;
                        if p - frac_start >= 6 && d != 0 {
                            tail = true;
                        }
                        p = p + 1;
                    },
                    None => {
                        break;
                    },
                }
            }
            if p == frac_start || int_end - start > 12 {
                assert(number_at(t, pos as int) is None);
                return None;
            }
            proof {
                lemma_pow10_bound((int_end - start) as nat, 12);
            }
            if micro == 999_999 && tail {
                let value = if negative {
                    -((whole + 1) as i64)
                } else {
                    (whole + 1) as i64
                };
                return Some((Num::Int(value), p));
            }
        }
        let magnitude: i64 = if micro == 0 {
            whole as i64
        } else {
            (whole * 1_000_000 + micro) as i64
        };
        let value = if negative {
            -magnitude
        } else {
            magnitude
        };
        if micro == 0 {
            Some((Num::Int(value), p))
        } else {
            Some((Num::Micro(value), p))
        }
    }
}

proof fn lemma_digits_end_after(t: Seq<char>, p: int)
    ensures
        digits_end(t, p) >= p,
    decreases t.len() - p,
{
    if 0 <= p < t.len() && is_digit(t[p]) {
        lemma_digits_end_after(t, p + 1);
    }
}

impl MyParser {
    /// A string, variable or number at `pos`.
    pub fn parse_value(&self, pos: usize) -> (r: Step)
        requires
            self.wf(),
            pos <= self.text.len(),
        ensures
            step_view(r) == value_at(self.text@, pos as int),
            r is Some ==> pos < step_end(r) <= self.text.len(),
    {
        if self.char_is(pos, '"') {
            self.parse_string(pos)
        } else if self.char_is(pos, '?') {
            self.parse_variable(pos + 1)
        } else {
            match self.parse_number(pos) {
                Some((n, end)) => Some((ASTExpression::from_number(n), end)),
                None => None,
            }
        }
    }

    /// A string whose opening quote is at `pos`.
    pub fn parse_string(&self, pos: usize) -> (r: Step)
        requires
            self.wf(),
            pos < self.text.len(),
            self.text@[pos as int] == '"',
        ensures
            step_view(r) == value_at(self.text@, pos as int),
            r is Some ==> pos < step_end(r) <= self.text.len(),
    {
        let mut q = pos + 1;
        while q < self.text.len() && self.text[q] != '"'
            invariant
                pos < q <= self.text.len(),
                quote_end(self.text@, pos + 1) == quote_end(self.text@, q as int),
            decreases self.text.len() - q,
        {
            q = q + 1;
        }
        if q >= self.text.len() {
            return None;
        }
        let s = self.piece(pos + 1, q);
        Some((ASTExpression::from_str(s.as_str()), q + 1))
    }

    /// A variable whose name starts at `pos`.
    pub fn parse_variable(&self, pos: usize) -> (r: Step)
        requires
            self.wf(),
            pos <= self.text.len(),
        ensures
            step_view(r) == variable_at(self.text@, pos as int),
            r is Some ==> pos < step_end(r) <= self.text.len(),
    {
        let end = self.name_end(pos);
        if end == pos {
            return None;
        }
        let name = self.piece(pos, end);
        Some((ASTExpression::from_variable(name.as_str(), false), end))
    }

    /// A dotted path at `pos`, split into its segments.
    fn parse_path(&self, pos: usize) -> (r: Option<(Vec<String>, usize)>)
        requires
            self.wf(),
            pos <= self.text.len(),
        ensures
            match path_at(self.text@, pos as int) {
                Some((segs, q)) => match r {
                    Some((v, e)) => strings_view(v@) == segs && e == q && pos < q <= self.text.len(),
                    None => false,
                },
                None => r is None,
            },
    {
        let ghost t = self.text@;
        let end = self.name_end(pos);
        if end == pos {
            return None;
        }
        let mut path: Vec<String> = Vec::new();
        path.push(self.piece(pos, end));
        assert(strings_view(path@) =~= seq![t.subrange(pos as int, end as int)]);
        let mut q = end;
        while self.char_is(q, '.')
            invariant
                self.wf(),
                t == self.text@,
                pos < q <= self.text.len(),
                path_at(t, pos as int) == path_rest(t, q as int, strings_view(path@)),
            decreases self.text.len() - q,
        {
            let e = self.name_end(q + 1);
            if e == q + 1 {
                return None;
            }
            let ghost before = path@;
            path.push(self.piece(q + 1, e));
            assert(strings_view(path@) =~= strings_view(before).push(t.subrange(q + 1, e as int)));
            q = e;
        }
        Some((path, q))
    }

    /// A call, a parenthesised expression or a value, after any spaces at `pos`.
    pub fn parse_primary_expression(&self, pos: usize) -> (r: Step)
        requires
            self.wf(),
            pos <= self.text.len(),
        ensures
            step_view(r) == primary_at(self.text@, pos as int),
            r is Some ==> pos < step_end(r) <= self.text.len(),
        decreases self.text.len() - pos, 0nat,
    {
        let ghost t = self.text@;
        let p = self.skip_space(pos);
        if self.char_is(p, '(') {
            match self.parse_or_expression(p + 1) {
                Some((e, q)) => {
                    let q2 = self.skip_space(q);
                    if self.char_is(q2, ')') {
                        Some((e, q2 + 1))
                    } else {
                        None
                    }
                },
                None => None,
            }
        } else if self.value_start(p) {
            self.parse_value(p)
        } else {
            match self.parse_path(p) {
                Some((predicate, q)) => {
                    let mut args: Vec<ASTExpression> = Vec::new();
                    let mut q = q;
                    assert(views(args@) =~= Seq::<Expr>::empty());
                    let ghost q0 = q as int;
                    let ghost segs = strings_view(predicate@);
                    assert(primary_at(t, pos as int) == match args_rest(t, q0, Seq::empty()) {
                        Some((a, e)) => if a.len() == 0 {
                            None
                        } else {
                            Some((Expr::Primary(segs, a), e))
                        },
                        None => None,
                    });
                    loop
                        invariant
                            self.wf(),
                            t == self.text@,
                            primary_at(t, pos as int) == match args_rest(t, q0, Seq::empty()) {
                                Some((a, e)) => if a.len() == 0 {
                                    None
                                } else {
                                    Some((Expr::Primary(segs, a), e))
                                },
                                None => None,
                            },
                            p < q <= self.text.len(),
                            args_rest(t, q0, Seq::empty()) == args_rest(t, q as int, views(args@)),
                        ensures
                            p < q <= self.text.len(),
                            args_rest(t, q0, Seq::empty()) == Some((views(args@), q as int)),
                        decreases self.text.len() - q,
                    {
                        let q2 = self.skip_space(q);
                        if !self.value_start(q2) {
                            break;
                        }
                        match self.parse_value(q2) {
                            Some((v, e)) => {
                                let ghost before = args@;
                                args.push(v);
                                assert(views(args@) =~= views(before).push(args@.last()@));
                                q = e;
                            },
                            None => {
                                assert(args_rest(t, q as int, views(args@)) is None);
                                return None;
                            },
                        }
                    }
                    if args.len() == 0 {
                        return None;
                    }
                    let ghost av = views(args@);
                    let ast = ASTPrimaryExpression { predicate, args };
                    let e = ASTExpression::from_primary_expression(ast);
                    assert(e@ == Expr::Primary(segs, av)) by {
                        assert(segs =~= e@->Primary_0);
                        assert(av =~= e@->Primary_1);
                    }
                    Some((e, q))
                },
                None => None,
            }
        }
    }

    /// Operands joined by `&&`, folded to the left.
    pub fn parse_and_expression(&self, pos: usize) -> (r: Step)
        requires
            self.wf(),
            pos <= self.text.len(),
        ensures
            step_view(r) == conjunction_at(self.text@, pos as int),
            r is Some ==> pos < step_end(r) <= self.text.len(),
        decreases self.text.len() - pos, 2nat,
    {
        let ghost t = self.text@;
        match self.parse_primary_expression(pos) {
            Some((first, q)) => {
                let ghost fv = first@;
                let mut rest: Vec<ASTExpression> = Vec::new();
                let mut q = q;
                assert(views(rest@) =~= Seq::<Expr>::empty());
                loop
                    invariant
                        self.wf(),
                        t == self.text@,
                        pos < q <= self.text.len(),
                        conjunction_at(t, pos as int) == and_rest(t, q as int, fold_and(fv, views(rest@))),
                    ensures
                        pos < q <= self.text.len(),
                        conjunction_at(t, pos as int) == Some((fold_and(fv, views(rest@)), q as int)),
                    decreases self.text.len() - q,
                {
                    let q2 = self.skip_space(q);
                    if !(self.char_is(q2, '&') && self.char_is(q2 + 1, '&')) {
                        break;
                    }
                    match self.parse_primary_expression(q2 + 2) {
                        Some((e, end)) => {
                            let ghost before = rest@;
                            rest.push(e);
                            proof {
                                assert(views(rest@) =~= views(before).push(rest@.last()@));
                                assert(views(rest@).drop_last() =~= views(before));
                            }
                            q = end;
                        },
                        None => {
                            return None;
                        },
                    }
                }
                let e = fold_and_chain(first, rest);
                Some((e, q))
            },
            None => None,
        }
    }

    /// Operands joined by `||`, folded to the left.
    pub fn parse_or_expression(&self, pos: usize) -> (r: Step)
        requires
            self.wf(),
            pos <= self.text.len(),
        ensures
            step_view(r) == expression_at(self.text@, pos as int),
            r is Some ==> pos < step_end(r) <= self.text.len(),
        decreases self.text.len() - pos, 4nat,
    {
        let ghost t = self.text@;
        match self.parse_and_expression(pos) {
            Some((first, q)) => {
                let ghost fv = first@;
                let mut rest: Vec<ASTExpression> = Vec::new();
                let mut q = q;
                assert(views(rest@) =~= Seq::<Expr>::empty());
                loop
                    invariant
                        self.wf(),
                        t == self.text@,
                        pos < q <= self.text.len(),
                        expression_at(t, pos as int) == or_rest(t, q as int, fold_or(fv, views(rest@))),
                    ensures
                        pos < q <= self.text.len(),
                        expression_at(t, pos as int) == Some((fold_or(fv, views(rest@)), q as int)),
                    decreases self.text.len() - q,
                {
                    let q2 = self.skip_space(q);
                    if !(self.char_is(q2, '|') && self.char_is(q2 + 1, '|')) {
                        break;
                    }
                    match self.parse_and_expression(q2 + 2) {
                        Some((e, end)) => {
                            let ghost before = rest@;
                            rest.push(e);
                            proof {
                                assert(views(rest@) =~= views(before).push(rest@.last()@));
                                assert(views(rest@).drop_last() =~= views(before));
                            }
                            q = end;
                        },
                        None => {
                            return None;
                        },
                    }
                }
                let e = fold_or_chain(first, rest);
                Some((e, q))
            },
            None => None,
        }
    }

    /// The whole text as one expression, or `None` where it is not one.
    pub fn parse_expression(&self) -> (r: Option<ASTExpression>)
        requires
            self.wf(),
        ensures
            match parse_text(self.text@) {
                Some(e) => r is Some && r->0@ == e,
                None => r is None,
            },
    {
        match self.parse_or_expression(0) {
            Some((e, end)) => {
                if self.skip_space(end) == self.text.len() {
                    Some(e)
                } else {
                    None
                }
            },
            None => None,
        }
    }

    /// Parses query text.
    pub fn parsestring_expression(s: &str) -> (r: Option<ASTExpression>)
        ensures
            match parse_text(s@) {
                Some(e) => r is Some && r->0@ == e,
                None => r is None,
            },
    {
        let parser = MyParser::new(s);
        parser.parse_expression()
    }
}

pub open spec fn views(v: Seq<ASTExpression>) -> Seq<Expr> {
    v.map_values(|e: ASTExpression| e@)
}

/// `first` and `rest` joined by `&&`, nested to the left.
pub fn fold_and_chain(first: ASTExpression, rest: Vec<ASTExpression>) -> (r: ASTExpression)
    ensures
        r@ == fold_and(first@, views(rest@)),
{
    let ghost all = views(rest@);
    let mut acc = first;
    let mut rest = rest;
    let ghost mut done: int = 0;
    assert(all.take(0) =~= Seq::<Expr>::empty());
    while rest.len() > 0
        invariant
            0 <= done <= all.len(),
            views(rest@) == all.skip(done),
            acc@ == fold_and(first@, all.take(done)),
        decreases rest.len(),
    {
        let ghost before = rest@;
        assert(views(before).len() == before.len());
        assert(views(before)[0] == before[0]@);
        let next = rest.remove(0);
        proof {
            assert(views(rest@) =~= views(before).drop_first());
            assert(all.skip(done + 1) =~= all.skip(done).drop_first());
            assert(next@ == all[done]);
            assert(all.take(done + 1).drop_last() =~= all.take(done));
        }
        acc = ASTExpression::from_and_expression(ASTAndExpression::new(acc, next));
        proof {
            done = done + 1;
        }
    }
    assert(all.take(done) =~= all);
    acc
}

/// `first` and `rest` joined by `||`, nested to the left.
pub fn fold_or_chain(first: ASTExpression, rest: Vec<ASTExpression>) -> (r: ASTExpression)
    ensures
        r@ == fold_or(first@, views(rest@)),
{
    let ghost all = views(rest@);
    let mut acc = first;
    let mut rest = rest;
    let ghost mut done: int = 0;
    assert(all.take(0) =~= Seq::<Expr>::empty());
    while rest.len() > 0
        invariant
            0 <= done <= all.len(),
            views(rest@) == all.skip(done),
            acc@ == fold_or(first@, all.take(done)),
        decreases rest.len(),
    {
        let ghost before = rest@;
        assert(views(before).len() == before.len());
        assert(views(before)[0] == before[0]@);
        let next = rest.remove(0);
        proof {
            assert(views(rest@) =~= views(before).drop_first());
            assert(all.skip(done + 1) =~= all.skip(done).drop_first());
            assert(next@ == all[done]);
            assert(all.take(done + 1).drop_last() =~= all.take(done));
        }
        acc = ASTExpression::from_or_expression(ASTOrExpression::new(acc, next));
        proof {
            done = done + 1;
        }
    }
    assert(all.take(done) =~= all);
    acc
}



} // verus!
