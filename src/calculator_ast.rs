use vstd::prelude::*;

verus! {

/// An arithmetic expression tree. A leaf holds the text of a signed decimal
/// literal; an inner node holds one of `+ - * /` and its two operands.
#[derive(Debug, PartialEq)]
pub enum Ast {
    Num(String),
    Op(char, Box<Ast>, Box<Ast>),
}

/// The error of a parse: no literal could be read where an operand was due.
#[derive(Debug, PartialEq, Eq, Structural)]
pub struct ParseAstError;

/// The mathematical model of an `Ast`.
pub enum Expr {
    Num(Seq<char>),
    Op(char, Box<Expr>, Box<Expr>),
}

impl Ast {
    pub open spec fn model(&self) -> Expr
        decreases self,
    {
        match self {
            Ast::Num(t) => Expr::Num(t@),
            Ast::Op(op, l, r) => Expr::Op(*op, Box::new(l.model()), Box::new(r.model())),
        }
    }
}

pub open spec fn is_digit(c: char) -> bool {
    '0' <= c && c <= '9'
}

pub open spec fn is_low_op(c: char) -> bool {
    c == '+' || c == '-'
}

pub open spec fn is_high_op(c: char) -> bool {
    c == '*' || c == '/'
}

/// Whether the character at `j` ends a literal that started at `start`: an
/// operator, where a `-` counts as one only once the literal holds a character.
pub open spec fn stops_literal(s: Seq<char>, start: int, j: int) -> bool {
    s[j] == '+' || s[j] == '*' || s[j] == '/' || (s[j] == '-' && j > start)
}

/// Where the longest run of literal characters that starts at `start` ends,
/// searching from `j` on.
pub open spec fn literal_end(s: Seq<char>, start: int, j: int) -> int
    decreases s.len() - j,
{
    if j >= s.len() {
        s.len() as int
    } else if stops_literal(s, start, j) {
        j
    } else {
        literal_end(s, start, j + 1)
    }
}

/// The digits and points of a literal, after its sign.
pub open spec fn unsigned_part(t: Seq<char>) -> Seq<char> {
    if t.len() > 0 && t[0] == '-' {
        t.drop_first()
    } else {
        t
    }
}

/// Digits with at most one decimal point among them, and at least one digit.
pub open spec fn is_mantissa(m: Seq<char>) -> bool {
    &&& forall|k: int| 0 <= k < m.len() ==> is_digit(m[k]) || m[k] == '.'
    &&& exists|k: int| 0 <= k < m.len() && is_digit(m[k])
    &&& forall|a: int, b: int| 0 <= a < b < m.len() && m[a] == '.' ==> m[b] != '.'
}

/// An `e` or `E`, then at least one digit.
pub open spec fn is_exponent(x: Seq<char>) -> bool {
    &&& x.len() >= 2
    &&& x[0] == 'e' || x[0] == 'E'
    &&& forall|k: int| 1 <= k < x.len() ==> is_digit(x[k])
}

/// A signed decimal literal: an optional `-`, then a mantissa, then an
/// optional exponent. (An exponent cannot carry a sign here: the scanner
/// stops at `+` and at a `-` after the first character.)
pub open spec fn is_decimal_literal(t: Seq<char>) -> bool {
    let u = unsigned_part(t);
    is_mantissa(u) || exists|p: int|
        0 <= p < u.len() && is_mantissa(#[trigger] u.take(p)) && is_exponent(u.skip(p))
}

/// The literal read at `i`, and where reading stopped.
pub open spec fn number_at(s: Seq<char>, i: int) -> Option<(Expr, int)> {
    let j = literal_end(s, i, i);
    let t = s.subrange(i, j);
    if is_decimal_literal(t) {
        Some((Expr::Num(t), j))
    } else {
        None
    }
}

/// Folds `* /` operands into `acc` from `i` on, to the left. (A literal is
/// never empty, so reading always moves on; the bound on `j` only says so.)
pub open spec fn term_tail(s: Seq<char>, acc: Expr, i: int) -> Option<(Expr, int)>
    decreases s.len() - i,
{
    if 0 <= i < s.len() && is_high_op(s[i]) {
        match number_at(s, i + 1) {
            Some((n, j)) => if i < j <= s.len() {
                term_tail(s, Expr::Op(s[i], Box::new(acc), Box::new(n)), j)
            } else {
                None
            },
            None => None,
        }
    } else {
        Some((acc, i))
    }
}

/// The term read at `i`: a literal, then `* /` operands folded to the left.
pub open spec fn term_at(s: Seq<char>, i: int) -> Option<(Expr, int)> {
    match number_at(s, i) {
        Some((n, j)) => term_tail(s, n, j),
        None => None,
    }
}

/// Folds `+ -` terms into `acc` from `i` on, to the left. (As above, reading
/// always moves on.)
pub open spec fn expr_tail(s: Seq<char>, acc: Expr, i: int) -> Option<(Expr, int)>
    decreases s.len() - i,
{
    if 0 <= i < s.len() && is_low_op(s[i]) {
        match term_at(s, i + 1) {
            Some((t, j)) => if i < j <= s.len() {
                expr_tail(s, Expr::Op(s[i], Box::new(acc), Box::new(t)), j)
            } else {
                None
            },
            None => None,
        }
    } else {
        Some((acc, i))
    }
}

/// The tree that parsing `s` gives, or `None` where it fails.
pub open spec fn parse(s: Seq<char>) -> Option<Expr> {
    match term_at(s, 0) {
        Some((t, j)) => match expr_tail(s, t, j) {
            Some((e, _)) => Some(e),
            None => None,
        },
        None => None,
    }
}

/// What parsing `s` owes: the tree of `parse(s)`, or the error where it fails.
pub open spec fn parse_outcome(s: Seq<char>, r: Result<Ast, ParseAstError>) -> bool {
    match parse(s) {
        Some(e) => r is Ok && r->Ok_0.model() == e,
        None => r is Err,
    }
}

/// Whether a literal that ends at `j` may be followed by what stands there.
pub open spec fn literal_may_end(s: Seq<char>, j: int) -> bool {
    j == s.len() || is_low_op(s[j]) || is_high_op(s[j])
}

/// A term: a literal, or `* /` applied to a term and a literal.
pub open spec fn is_term(e: Expr) -> bool
    decreases e,
{
    match e {
        Expr::Num(t) => is_decimal_literal(t),
        Expr::Op(c, l, r) => is_high_op(c) && is_term(*l) && (match *r {
            Expr::Num(t) => is_decimal_literal(t),
            _ => false,
        }),
    }
}

/// A sum: a term, or `+ -` applied to a sum and a term. Such a tree holds
/// every `* /` grouping beneath the `+ -` ones, never above, and groups
/// operators of one level to the left.
pub open spec fn is_sum(e: Expr) -> bool
    decreases e,
{
    is_term(e) || match e {
        Expr::Op(c, l, r) => is_low_op(c) && is_sum(*l) && is_term(*r),
        _ => false,
    }
}

proof fn lemma_term_tail_shape(s: Seq<char>, acc: Expr, i: int)
    requires
        is_term(acc),
        term_tail(s, acc, i) is Some,
    ensures
        is_term(term_tail(s, acc, i)->Some_0.0),
    decreases s.len() - i,
{
    if 0 <= i < s.len() && is_high_op(s[i]) {
        let (n, j) = number_at(s, i + 1)->Some_0;
        lemma_term_tail_shape(s, Expr::Op(s[i], Box::new(acc), Box::new(n)), j);
    }
}

proof fn lemma_expr_tail_shape(s: Seq<char>, acc: Expr, i: int)
    requires
        is_sum(acc),
        expr_tail(s, acc, i) is Some,
    ensures
        is_sum(expr_tail(s, acc, i)->Some_0.0),
    decreases s.len() - i,
{
    if 0 <= i < s.len() && is_low_op(s[i]) {
        let (n, j) = number_at(s, i + 1)->Some_0;
        lemma_term_tail_shape(s, n, j);
        let (t, k) = term_at(s, i + 1)->Some_0;
        lemma_expr_tail_shape(s, Expr::Op(s[i], Box::new(acc), Box::new(t)), k);
    }
}

/// Every tree that parsing gives is a sum of terms: `* /` bind tighter than
/// `+ -`, operators of one level group to the left, and each leaf is a literal.
pub proof fn lemma_parse_shape(s: Seq<char>)
    requires
        parse(s) is Some,
    ensures
        is_sum(parse(s)->Some_0),
{
    let (n, j) = number_at(s, 0)->Some_0;
    lemma_term_tail_shape(s, n, j);
    let (t, k) = term_at(s, 0)->Some_0;
    lemma_expr_tail_shape(s, t, k);
}

/// After its sign, a literal holds digits, points and exponent letters only,
/// and at least one character.
proof fn lemma_literal_chars(a: Seq<char>)
    requires
        is_decimal_literal(a),
    ensures
        a.len() > 0,
        forall|m: int|
            0 <= m < unsigned_part(a).len() ==> is_digit(#[trigger] unsigned_part(a)[m])
                || unsigned_part(a)[m] == '.' || unsigned_part(a)[m] == 'e'
                || unsigned_part(a)[m] == 'E',
{
    let u = unsigned_part(a);
    if is_mantissa(u) {
        let d = choose|d: int| 0 <= d < u.len() && is_digit(u[d]);
    } else {
        let p = choose|p: int|
            0 <= p < u.len() && is_mantissa(#[trigger] u.take(p)) && is_exponent(u.skip(p));
        assert forall|m: int| 0 <= m < u.len() implies is_digit(#[trigger] u[m]) || u[m] == '.'
            || u[m] == 'e' || u[m] == 'E' by {
            if m < p {
                assert(u.take(p)[m] == u[m]);
            } else {
                assert(u.skip(p)[m - p] == u[m]);
            }
        }
    }
}

/// A literal written at `i` and followed by an operator or the end is read whole.
proof fn lemma_number_at(s: Seq<char>, i: int, a: Seq<char>)
    requires
        0 <= i,
        i + a.len() <= s.len(),
        s.subrange(i, i + a.len()) == a,
        is_decimal_literal(a),
        literal_may_end(s, i + a.len()),
    ensures
        number_at(s, i) == Some((Expr::Num(a), i + a.len())),
{
    let u = unsigned_part(a);
    lemma_literal_chars(a);
    assert forall|k: int| i <= k < i + a.len() implies !stops_literal(s, i, k) by {
        assert(s[k] == a[k - i]);
        if k > i || a[0] != '-' {
            let m = if a[0] == '-' { k - i - 1 } else { k - i };
            assert(u[m] == a[k - i]);
        }
    }
    lemma_literal_end(s, i, i, i + a.len());
}

/// A single signed decimal literal parses to a leaf that holds it.
pub proof fn lemma_literal_parses(a: Seq<char>)
    requires
        is_decimal_literal(a),
    ensures
        parse(a) == Some(Expr::Num(a)),
{
    assert(a.subrange(0, a.len() as int) =~= a);
    lemma_number_at(a, 0, a);
}

/// Operators of one level group to the left: `a1 o1 a2 o2 a3` parses to
/// `((a1 o1 a2) o2 a3)` where `o1` and `o2` are both `+`/`-` or both `*`/`/`.
pub proof fn lemma_left_associative(a1: Seq<char>, o1: char, a2: Seq<char>, o2: char, a3: Seq<char>)
    requires
        is_decimal_literal(a1),
        is_decimal_literal(a2),
        is_decimal_literal(a3),
        (is_low_op(o1) && is_low_op(o2)) || (is_high_op(o1) && is_high_op(o2)),
    ensures
        parse(a1 + seq![o1] + a2 + seq![o2] + a3) == Some(
            Expr::Op(
                o2,
                Box::new(Expr::Op(o1, Box::new(Expr::Num(a1)), Box::new(Expr::Num(a2)))),
                Box::new(Expr::Num(a3)),
            ),
        ),
{
    let s = a1 + seq![o1] + a2 + seq![o2] + a3;
    let n1 = a1.len() as int;
    let n2 = n1 + 1 + a2.len();
    let n3 = n2 + 1 + a3.len();
    assert(s.len() == n3);
    assert(s.subrange(0, n1) =~= a1);
    assert(s.subrange(n1 + 1, n2) =~= a2);
    assert(s.subrange(n2 + 1, n3) =~= a3);
    assert(s[n1] == o1);
    assert(s[n2] == o2);
    lemma_number_at(s, 0, a1);
    lemma_number_at(s, n1 + 1, a2);
    lemma_number_at(s, n2 + 1, a3);
    let x1 = Expr::Num(a1);
    let x2 = Expr::Num(a2);
    let x3 = Expr::Num(a3);
    let x12 = Expr::Op(o1, Box::new(x1), Box::new(x2));
    let x123 = Expr::Op(o2, Box::new(x12), Box::new(x3));
    if is_high_op(o1) {
        assert(term_tail(s, x123, n3) == Some((x123, n3)));
        assert(term_tail(s, x12, n2) == Some((x123, n3)));
        assert(term_tail(s, x1, n1) == Some((x123, n3)));
        assert(term_at(s, 0) == Some((x123, n3)));
        assert(expr_tail(s, x123, n3) == Some((x123, n3)));
    } else {
        assert(term_tail(s, x1, n1) == Some((x1, n1)));
        assert(term_tail(s, x2, n2) == Some((x2, n2)));
        assert(term_tail(s, x3, n3) == Some((x3, n3)));
        assert(term_at(s, n2 + 1) == Some((x3, n3)));
        assert(term_at(s, n1 + 1) == Some((x2, n2)));
        assert(expr_tail(s, x123, n3) == Some((x123, n3)));
        assert(expr_tail(s, x12, n2) == Some((x123, n3)));
        assert(expr_tail(s, x1, n1) == Some((x123, n3)));
    }
}

/// Parsing depends on the input alone: two parses of one string agree, in
/// success and in the tree.
pub proof fn lemma_parse_deterministic(
    s: Seq<char>,
    r1: Result<Ast, ParseAstError>,
    r2: Result<Ast, ParseAstError>,
)
    requires
        parse_outcome(s, r1),
        parse_outcome(s, r2),
    ensures
        r1 is Ok <==> r2 is Ok,
        r1 is Ok ==> r1->Ok_0.model() == r2->Ok_0.model(),
{
}

proof fn lemma_literal_end(s: Seq<char>, start: int, j: int, e: int)
    requires
        0 <= start <= j <= e <= s.len(),
        forall|k: int| j <= k < e ==> !stops_literal(s, start, k),
        e == s.len() || stops_literal(s, start, e),
    ensures
        literal_end(s, start, j) == e,
    decreases e - j,
{
    if j < e {
        lemma_literal_end(s, start, j + 1, e);
    }
}

/// Whether `c` ends a literal; `started` tells whether the literal holds a
/// character already.
fn ends_literal(c: char, started: bool) -> (b: bool)
    ensures
        b == (c == '+' || c == '*' || c == '/' || (c == '-' && started)),
{
    c == '+' || c == '*' || c == '/' || (c == '-' && started)
}

/// Relies on `String::push`: it appends one character.
#[verifier::external_body]
fn push_char(s: &mut String, c: char)
    ensures
        final(s)@ == old(s)@.push(c),
{
    s.push(c);
}

/// Whether `c` may stand in a mantissa.
fn is_mantissa_char(c: char) -> (b: bool)
    ensures
        b == (is_digit(c) || c == '.'),
{
    ('0' <= c && c <= '9') || c == '.'
}

fn is_digit_char(c: char) -> (b: bool)
    ensures
        b == is_digit(c),
{
    '0' <= c && c <= '9'
}

/// Where the run of mantissa characters at the start of `u` ends, an exponent
/// can only begin there.
proof fn lemma_exponent_start(u: Seq<char>, m: int, p: int)
    requires
        0 <= m <= u.len(),
        forall|k: int| 0 <= k < m ==> is_digit(u[k]) || u[k] == '.',
        m == u.len() || !(is_digit(u[m]) || u[m] == '.'),
        0 <= p < u.len(),
        is_mantissa(u.take(p)),
        is_exponent(u.skip(p)),
    ensures
        p == m,
{
    if p < m {
        assert(u.skip(p)[0] == u[p]);
    } else if p > m {
        assert(u.take(p)[m] == u[m]);
    }
}

/// Whether `chars[lo..hi]` is a signed decimal literal.
fn is_literal(chars: &Vec<char>, lo: usize, hi: usize) -> (b: bool)
    requires
        lo <= hi <= chars.len(),
    ensures
        b == is_decimal_literal(chars@.subrange(lo as int, hi as int)),
{
    let ghost u = unsigned_part(chars@.subrange(lo as int, hi as int));
    let mut i: usize = lo;
    if i < hi && chars[i] == '-' {
        i = i + 1;
    }
    assert(u =~= chars@.subrange(i as int, hi as int));
    let mut seen_digit = false;
    let mut seen_point = false;
    let mut one_point = true;
    let mut k: usize = i;
    while k < hi && is_mantissa_char(chars[k])
        invariant
            lo <= i <= k <= hi <= chars.len(),
            u == chars@.subrange(i as int, hi as int),
            u == unsigned_part(chars@.subrange(lo as int, hi as int)),
            forall|m: int| 0 <= m < k - i ==> is_digit(u[m]) || u[m] == '.',
            seen_digit <==> exists|m: int| 0 <= m < k - i && is_digit(u[m]),
            seen_point <==> exists|m: int| 0 <= m < k - i && u[m] == '.',
            one_point <==> forall|a: int, b: int|
                0 <= a < b < k - i && u[a] == '.' ==> u[b] != '.',
        decreases hi - k,
    {
        let c = chars[k];
        assert(u[k - i] == c);
        if c == '.' {
            if seen_point {
                proof {
                    let m = choose|m: int| 0 <= m < k - i && u[m] == '.';
                    assert(0 <= m < k - i + 1 && u[m] == '.' && u[k - i] == '.');
                }
                one_point = false;
            }
            seen_point = true;
        } else {
            seen_digit = true;
        }
        k = k + 1;
    }
    let ghost m = k - i;
    let mantissa_ok = seen_digit && one_point;
    proof {
        assert(u.take(m) =~= chars@.subrange(i as int, k as int));
        if mantissa_ok {
            let d = choose|d: int| 0 <= d < k - i && is_digit(u[d]);
            assert(u.take(m)[d] == u[d]);
        }
        if is_mantissa(u.take(m)) {
            let d = choose|d: int| 0 <= d < m && is_digit(u.take(m)[d]);
            assert(u.take(m)[d] == u[d]);
        }
        assert(mantissa_ok == is_mantissa(u.take(m)));
        if m < u.len() {
            assert(u[m] == chars@[k as int]);
            assert(!is_mantissa(u));
        }
        assert forall|p: int|
            0 <= p < u.len() && is_mantissa(#[trigger] u.take(p)) && is_exponent(u.skip(p))
            implies p == m by {
            lemma_exponent_start(u, m, p);
        }
    }
    if k == hi {
        proof {
            assert(u.take(m) =~= u);
        }
        return mantissa_ok;
    }
    let c = chars[k];
    if !(c == 'e' || c == 'E') || !mantissa_ok {
        assert(!is_exponent(u.skip(m)) || !is_mantissa(u.take(m)));
        return false;
    }
    let mut j: usize = k + 1;
    while j < hi && is_digit_char(chars[j])
        invariant
            i <= k < j <= hi <= chars.len(),
            u == chars@.subrange(i as int, hi as int),
            forall|x: int| k + 1 <= x < j ==> is_digit(chars@[x]),
        decreases hi - j,
    {
        j = j + 1;
    }
    let ok = j == hi && j > k + 1;
    proof {
        let x = u.skip(m);
        assert(x =~= chars@.subrange(k as int, hi as int));
        if ok {
            assert(is_exponent(x));
        } else if j < hi {
            assert(!is_digit(x[j - k]));
        }
        assert(ok == is_exponent(x));
    }
    ok
}

impl Ast {
    /// Reads the longest run of literal characters at `*pos` and moves past it.
    fn parse_num(chars: &Vec<char>, pos: &mut usize) -> (r: Result<Ast, ParseAstError>)
        requires
            *old(pos) <= chars.len(),
        ensures
            *old(pos) <= *final(pos) <= chars.len(),
            *final(pos) == literal_end(chars@, *old(pos) as int, *old(pos) as int),
            match number_at(chars@, *old(pos) as int) {
                Some((e, j)) => r is Ok && r->Ok_0.model() == e && *final(pos) == j,
                None => r is Err,
            },
    {
        let start = *pos;
        let mut i: usize = start;
        let mut num = String::new();
        while i < chars.len() && !ends_literal(chars[i], i > start)
            invariant
                start <= i <= chars.len(),
                num@ == chars@.subrange(start as int, i as int),
                forall|k: int| start <= k < i ==> !stops_literal(chars@, start as int, k),
            decreases chars.len() - i,
        {
            push_char(&mut num, chars[i]);
            i = i + 1;
            assert(num@ =~= chars@.subrange(start as int, i as int));
        }
        proof {
            lemma_literal_end(chars@, start as int, start as int, i as int);
        }
        *pos = i;
        if is_literal(chars, start, i) {
            Ok(Ast::Num(num))
        } else {
            Err(ParseAstError)
        }
    }

    /// Takes a `+` or `-` at `*pos`, if one stands there.
    fn parse_low_op(chars: &Vec<char>, pos: &mut usize) -> (r: Option<char>)
        requires
            *old(pos) <= chars.len(),
        ensures
            if *old(pos) < chars.len() && is_low_op(chars@[*old(pos) as int]) {
                r == Some(chars@[*old(pos) as int]) && *final(pos) == *old(pos) + 1
            } else {
                r is None && *final(pos) == *old(pos)
            },
    {
        if *pos < chars.len() && (chars[*pos] == '+' || chars[*pos] == '-') {
            let c = chars[*pos];
            *pos = *pos + 1;
            Some(c)
        } else {
            None
        }
    }

    /// Takes a `*` or `/` at `*pos`, if one stands there.
    fn parse_high_op(chars: &Vec<char>, pos: &mut usize) -> (r: Option<char>)
        requires
            *old(pos) <= chars.len(),
        ensures
            if *old(pos) < chars.len() && is_high_op(chars@[*old(pos) as int]) {
                r == Some(chars@[*old(pos) as int]) && *final(pos) == *old(pos) + 1
            } else {
                r is None && *final(pos) == *old(pos)
            },
    {
        if *pos < chars.len() && (chars[*pos] == '*' || chars[*pos] == '/') {
            let c = chars[*pos];
            *pos = *pos + 1;
            Some(c)
        } else {
            None
        }
    }

    /// Reads a term at `*pos`: literals joined by `*` and `/`, grouped to the left.
    fn parse_term(chars: &Vec<char>, pos: &mut usize) -> (r: Result<Ast, ParseAstError>)
        requires
            *old(pos) <= chars.len(),
        ensures
            *old(pos) <= *final(pos) <= chars.len(),
            match term_at(chars@, *old(pos) as int) {
                Some((e, j)) => r is Ok && r->Ok_0.model() == e && *final(pos) == j,
                None => r is Err,
            },
    {
        let ghost s = chars@;
        let ghost start = *pos as int;
        let ghost goal = term_at(s, start);
        let mut root = match Ast::parse_num(chars, pos) {
            Ok(n) => n,
            Err(e) => return Err(e),
        };
        loop
            invariant
                start <= *pos <= chars.len(),
                start == *old(pos) as int,
                s == chars@,
                goal == term_at(s, start),
                term_tail(s, root.model(), *pos as int) == goal,
            decreases chars.len() - *pos,
        {
            let ghost i = *pos as int;
            match Ast::parse_high_op(chars, pos) {
                Some(op) => {
                    match Ast::parse_num(chars, pos) {
                        Ok(n) => {
                            root = Ast::Op(op, Box::new(root), Box::new(n));
                        },
                        Err(e) => return Err(e),
                    }
                },
                None => return Ok(root),
            }
        }
    }

    /// Parses an expression of literals and the operators `+ - * /`, where `*`
    /// and `/` bind tighter and operators of one level group to the left.
    /// Reading stops at the first place where no operator follows a literal.
    pub fn from_str(s: &str) -> (r: Result<Ast, ParseAstError>)
        ensures
            parse_outcome(s@, r),
            r is Ok ==> is_sum(r->Ok_0.model()),
    {
        let chars = chars_of(s);
        let ghost goal = parse(s@);
        let mut pos: usize = 0;
        let mut root = match Ast::parse_term(&chars, &mut pos) {
            Ok(t) => t,
            Err(e) => return Err(e),
        };
        loop
            invariant
                pos <= chars.len(),
                chars@ == s@,
                goal == parse(s@),
                match expr_tail(s@, root.model(), pos as int) {
                    Some((e, _)) => goal == Some(e),
                    None => goal is None,
                },
            decreases chars.len() - pos,
        {
            match Ast::parse_low_op(&chars, &mut pos) {
                Some(op) => {
                    match Ast::parse_term(&chars, &mut pos) {
                        Ok(t) => {
                            root = Ast::Op(op, Box::new(root), Box::new(t));
                        },
                        Err(e) => return Err(e),
                    }
                },
                None => {
                    proof {
                        lemma_parse_shape(s@);
                    }
                    return Ok(root);
                },
            }
        }
    }
}

/// The characters of a string, in order.
fn chars_of(s: &str) -> (r: Vec<char>)
    ensures
        r@ == s@,
{
    let mut r: Vec<char> = Vec::new();
    for c in it: s.chars()
        invariant
            it.seq() == s@,
            r@ == s@.take(it.index() as int),
    {
        r.push(c);
    }
    assert(r@ =~= s@);
    r
}

} // verus!
