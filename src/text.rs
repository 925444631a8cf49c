//! The textual forms: numbers in a base, and the directed-graph description
//! of a labeled graph.
use vstd::prelude::*;
use crate::model::Edge;

verus! {

/// The character of digit `d`: `0`-`9`, then `A`-`Z`.
pub open spec fn digit_char(d: nat) -> char {
    if d < 10 {
        (48 + d) as char
    } else {
        (55 + d) as char
    }
}

/// The digits of `n` in base `b`, most significant first; none for zero.
pub open spec fn base_digits(n: nat, b: nat) -> Seq<char>
    decreases n,
{
    if n == 0 || b < 2 {
        Seq::empty()
    } else {
        proof {
            assert(n / b < n) by (nonlinear_arith)
                requires
                    n > 0,
                    b >= 2,
            ;
        }
        base_digits(n / b, b).push(digit_char(n % b))
    }
}

/// `n` has at most `n` digits in a base of at least two.
proof fn lemma_digits_len(n: nat, b: nat)
    requires
        b >= 2,
    ensures
        base_digits(n, b).len() <= n,
    decreases n,
{
    if n > 0 {
        assert(n / b < n) by (nonlinear_arith)
            requires
                n > 0,
                b >= 2,
        ;
        lemma_digits_len(n / b, b);
    }
}

/// `n` in base `b`, padded on the left with `0` to at least `width` characters.
pub open spec fn padded_digits(n: nat, b: nat, width: nat) -> Seq<char> {
    let d = base_digits(n, b);
    Seq::new(if width > d.len() { (width - d.len()) as nat } else { 0 }, |_i: int| '0') + d
}

/// `n` in decimal, without leading zeros (`0` for zero).
pub open spec fn decimal(n: nat) -> Seq<char>
    decreases n,
{
    if n < 10 {
        seq![digit_char(n)]
    } else {
        decimal(n / 10).push(digit_char(n % 10))
    }
}

/// `x` in decimal, with a leading `-` when negative.
pub open spec fn signed_decimal(x: int) -> Seq<char> {
    if x < 0 {
        seq!['-'] + decimal((-x) as nat)
    } else {
        decimal(x as nat)
    }
}

/// The line of one edge: `\t<source> -> <destination> [label=<label>]\n`.
pub open spec fn edge_line(e: Edge) -> Seq<char> {
    seq!['\t'] + (decimal(e.0 as nat) + (" -> "@ + (decimal(e.1 as nat) + (" [label="@ + (
    signed_decimal(e.3 as int) + "]\n"@)))))
}

/// The lines of the edges, in order.
pub open spec fn edge_lines(edges: Seq<Edge>) -> Seq<char>
    decreases edges.len(),
{
    if edges.len() == 0 {
        Seq::empty()
    } else {
        edge_lines(edges.drop_last()) + edge_line(edges.last())
    }
}

/// The whole description: a `digraph deBruijn` block with one line per edge.
pub open spec fn rendered(edges: Seq<Edge>) -> Seq<char> {
    "digraph deBruijn {\n"@ + edge_lines(edges) + "}\n"@
}

/// Relies on `String::push`: appends one character.
#[verifier::external_body]
pub(crate) fn push_char(s: &mut String, c: char)
    ensures
        final(s)@ == old(s)@.push(c),
{
    s.push(c)
}

/// The character of digit `d`.
fn digit(d: usize) -> (c: char)
    requires
        d < 36,
    ensures
        c == digit_char(d as nat),
{
    if d < 10 {
        ((48 + d) as u8) as char
    } else {
        ((55 + d) as u8) as char
    }
}

/// Appends `n` in decimal.
pub fn push_decimal(out: &mut String, n: usize)
    ensures
        final(out)@ == old(out)@ + decimal(n as nat),
    decreases n,
{
    if n >= 10 {
        push_decimal(out, n / 10);
    }
    push_char(out, digit(n % 10));
    proof {
        assert(final(out)@ =~= old(out)@ + decimal(n as nat));
    }
}

/// Appends `x` in decimal, with a leading `-` when negative.
pub fn push_signed_decimal(out: &mut String, x: isize)
    ensures
        final(out)@ == old(out)@ + signed_decimal(x as int),
{
    if x < 0 {
        push_char(out, '-');
        let m: usize = ((-(x + 1)) as usize) + 1;
        push_decimal(out, m);
        proof {
            assert(final(out)@ =~= old(out)@ + signed_decimal(x as int));
        }
    } else {
        push_decimal(out, x as usize);
    }
}

/// Appends the digits of `n` in base `b`, none for zero.
fn push_digits(out: &mut String, n: usize, b: usize)
    requires
        2 <= b <= 36,
    ensures
        final(out)@ == old(out)@ + base_digits(n as nat, b as nat),
    decreases n,
{
    if n != 0 {
        assert(n / b < n) by (nonlinear_arith)
            requires
                n > 0,
                b >= 2,
        ;
        push_digits(out, n / b, b);
        push_char(out, digit(n % b));
        proof {
            assert(final(out)@ =~= old(out)@ + base_digits(n as nat, b as nat));
        }
    } else {
        proof {
            assert(final(out)@ =~= old(out)@ + base_digits(n as nat, b as nat));
        }
    }
}

/// `num` in base `base` (digits `0`-`9` then `A`-`Z`), padded on the left
/// with `0` to at least `width` characters.
pub fn to_str_with_base(num: usize, base: usize, width: usize) -> (r: String)
    requires
        2 <= base <= 36,
    ensures
        r@ == padded_digits(num as nat, base as nat, width as nat),
{
    let mut len: usize = 0;
    let mut m: usize = num;
    proof {
        lemma_digits_len(num as nat, base as nat);
    }
    while m != 0
        invariant
            2 <= base <= 36,
            base_digits(num as nat, base as nat).len() <= num,
            len + base_digits(m as nat, base as nat).len() == base_digits(num as nat, base as nat).len(),
        decreases m,
    {
        m = m / base;
        len = len + 1;
    }
    let mut s = String::new();
    let mut p: usize = len;
    while p < width
        invariant
            len <= p,
            p <= width || p == len,
            s@ =~= Seq::new((p - len) as nat, |_i: int| '0'),
        decreases width - p,
    {
        push_char(&mut s, '0');
        p = p + 1;
    }
    push_digits(&mut s, num, base);
    proof {
        assert(s@ =~= padded_digits(num as nat, base as nat, width as nat));
    }
    s
}

/// The `(source, destination, label)` of an edge: what its line shows.
pub open spec fn triple(e: Edge) -> (usize, usize, isize) {
    (e.0, e.1, e.3)
}

/// The `(source, destination, label)` of each edge, in order.
pub open spec fn triples(edges: Seq<Edge>) -> Seq<(usize, usize, isize)> {
    edges.map_values(|e: Edge| triple(e))
}

/// `c` is one of `0`-`9`.
pub open spec fn is_dec_digit(c: char) -> bool {
    48 <= c as u32 <= 57
}

/// Equal sequences stay equal once a common prefix is removed.
proof fn lemma_strip_prefix(p: Seq<char>, s1: Seq<char>, s2: Seq<char>)
    requires
        p + s1 == p + s2,
    ensures
        s1 == s2,
{
    assert(s1 =~= (p + s1).subrange(p.len() as int, (p + s1).len() as int));
    assert(s2 =~= (p + s2).subrange(p.len() as int, (p + s2).len() as int));
}

/// A decimal is a non-empty run of digits.
proof fn lemma_decimal_digits(n: nat)
    ensures
        decimal(n).len() >= 1,
        forall|i: int| 0 <= i < decimal(n).len() ==> is_dec_digit(#[trigger] decimal(n)[i]),
    decreases n,
{
    if n >= 10 {
        lemma_decimal_digits(n / 10);
    }
}

/// Distinct numbers have distinct decimals.
proof fn lemma_decimal_injective(x: nat, y: nat)
    requires
        decimal(x) == decimal(y),
    ensures
        x == y,
    decreases x,
{
    lemma_decimal_digits(x);
    lemma_decimal_digits(y);
    if x >= 10 && y >= 10 {
        assert(decimal(x).drop_last() =~= decimal(x / 10));
        assert(decimal(y).drop_last() =~= decimal(y / 10));
        lemma_decimal_injective(x / 10, y / 10);
        assert(decimal(x).last() == digit_char(x % 10));
        assert(decimal(y).last() == digit_char(y % 10));
        assert(digit_char(x % 10) as u32 == 48 + x % 10);
        assert(digit_char(y % 10) as u32 == 48 + y % 10);
        assert(x % 10 == y % 10);
        assert(x == 10 * (x / 10) + x % 10);
        assert(y == 10 * (y / 10) + y % 10);
    } else if x >= 10 {
        lemma_decimal_digits(x / 10);
        assert(decimal(x).len() == decimal(x / 10).len() + 1);
        assert(decimal(y).len() == 1);
    } else if y >= 10 {
        lemma_decimal_digits(y / 10);
        assert(decimal(y).len() == decimal(y / 10).len() + 1);
        assert(decimal(x).len() == 1);
    } else {
        assert(decimal(x)[0] == digit_char(x));
        assert(digit_char(x) as u32 == 48 + x);
        assert(digit_char(y) as u32 == 48 + y);
    }
}

/// A decimal followed by a non-digit is read back unambiguously.
proof fn lemma_decimal_prefix(x: nat, y: nat, s1: Seq<char>, s2: Seq<char>)
    requires
        decimal(x) + s1 == decimal(y) + s2,
        s1.len() > 0,
        s2.len() > 0,
        !is_dec_digit(s1[0]),
        !is_dec_digit(s2[0]),
    ensures
        x == y,
        s1 == s2,
{
    lemma_decimal_digits(x);
    lemma_decimal_digits(y);
    let lx = decimal(x).len() as int;
    let ly = decimal(y).len() as int;
    if lx < ly {
        assert((decimal(x) + s1)[lx] == s1[0]);
        assert((decimal(y) + s2)[lx] == decimal(y)[lx]);
    } else if ly < lx {
        assert((decimal(y) + s2)[ly] == s2[0]);
        assert((decimal(x) + s1)[ly] == decimal(x)[ly]);
    } else {
        assert(decimal(x) =~= (decimal(x) + s1).subrange(0, lx));
        assert(decimal(y) =~= (decimal(y) + s2).subrange(0, ly));
        lemma_decimal_injective(x, y);
        lemma_strip_prefix(decimal(x), s1, s2);
    }
}

/// A signed decimal followed by a non-digit is read back unambiguously.
proof fn lemma_signed_prefix(x: int, y: int, s1: Seq<char>, s2: Seq<char>)
    requires
        signed_decimal(x) + s1 == signed_decimal(y) + s2,
        s1.len() > 0,
        s2.len() > 0,
        !is_dec_digit(s1[0]),
        !is_dec_digit(s2[0]),
    ensures
        x == y,
        s1 == s2,
{
    let m = seq!['-'];
    if x < 0 && y < 0 {
        assert(signed_decimal(x) + s1 =~= m + (decimal((-x) as nat) + s1));
        assert(signed_decimal(y) + s2 =~= m + (decimal((-y) as nat) + s2));
        lemma_strip_prefix(m, decimal((-x) as nat) + s1, decimal((-y) as nat) + s2);
        lemma_decimal_prefix((-x) as nat, (-y) as nat, s1, s2);
    } else if x < 0 {
        lemma_decimal_digits(y as nat);
        assert((signed_decimal(x) + s1)[0] == '-');
        assert((signed_decimal(y) + s2)[0] == decimal(y as nat)[0]);
    } else if y < 0 {
        lemma_decimal_digits(x as nat);
        assert((signed_decimal(y) + s2)[0] == '-');
        assert((signed_decimal(x) + s1)[0] == decimal(x as nat)[0]);
    } else {
        lemma_decimal_prefix(x as nat, y as nat, s1, s2);
    }
}

/// The lines of a non-empty sequence: the first line, then the others.
proof fn lemma_lines_front(edges: Seq<Edge>)
    requires
        edges.len() > 0,
    ensures
        edge_lines(edges) == edge_line(edges[0]) + edge_lines(edges.drop_first()),
    decreases edges.len(),
{
    if edges.len() == 1 {
        assert(edge_lines(edges.drop_last()) =~= Seq::empty());
        assert(edge_lines(edges.drop_first()) =~= Seq::empty());
        assert(edge_lines(edges) =~= edge_line(edges[0]) + edge_lines(edges.drop_first()));
    } else {
        lemma_lines_front(edges.drop_last());
        assert(edges.drop_first().drop_last() =~= edges.drop_last().drop_first());
        assert(edges.drop_last()[0] == edges[0]);
        assert(edges.drop_first().last() == edges.last());
        assert(edge_lines(edges) =~= edge_line(edges[0]) + edge_lines(edges.drop_first()));
    }
}

/// The lines followed by the closing brace determine the triples.
proof fn lemma_lines_determine_triples(a: Seq<Edge>, b: Seq<Edge>)
    requires
        edge_lines(a) + "}\n"@ == edge_lines(b) + "}\n"@,
    ensures
        triples(a) == triples(b),
    decreases a.len(),
{
    reveal_strlit("}\n");
    let f = "}\n"@;
    if a.len() == 0 && b.len() == 0 {
        assert(triples(a) =~= triples(b));
    } else if a.len() == 0 {
        lemma_lines_front(b);
        assert((edge_lines(b) + f)[0] == '\t');
        assert((edge_lines(a) + f)[0] == '}');
    } else if b.len() == 0 {
        lemma_lines_front(a);
        assert((edge_lines(a) + f)[0] == '\t');
        assert((edge_lines(b) + f)[0] == '}');
    } else {
        lemma_lines_front(a);
        lemma_lines_front(b);
        let ra = edge_lines(a.drop_first()) + f;
        let rb = edge_lines(b.drop_first()) + f;
        assert(edge_lines(a) + f =~= edge_line(a[0]) + ra);
        assert(edge_lines(b) + f =~= edge_line(b[0]) + rb);
        lemma_line_prefix(a[0], b[0], ra, rb);
        lemma_lines_determine_triples(a.drop_first(), b.drop_first());
        assert(triples(a) =~= seq![triple(a[0])] + triples(a.drop_first()));
        assert(triples(b) =~= seq![triple(b[0])] + triples(b.drop_first()));
    }
}

/// A line followed by more text is read back unambiguously.
proof fn lemma_line_prefix(ea: Edge, eb: Edge, ra: Seq<char>, rb: Seq<char>)
    requires
        edge_line(ea) + ra == edge_line(eb) + rb,
    ensures
        triple(ea) == triple(eb),
        ra == rb,
{
    reveal_strlit(" -> ");
    reveal_strlit(" [label=");
    reveal_strlit("]\n");
    let arrow = " -> "@;
    let open = " [label="@;
    let close = "]\n"@;
    let tab = seq!['\t'];
    let a3 = close + ra;
    let b3 = close + rb;
    let a2 = open + (signed_decimal(ea.3 as int) + a3);
    let b2 = open + (signed_decimal(eb.3 as int) + b3);
    let a1 = arrow + (decimal(ea.1 as nat) + a2);
    let b1 = arrow + (decimal(eb.1 as nat) + b2);
    lemma_line_then(ea, ra);
    lemma_line_then(eb, rb);
    lemma_strip_prefix(tab, decimal(ea.0 as nat) + a1, decimal(eb.0 as nat) + b1);
    lemma_decimal_prefix(ea.0 as nat, eb.0 as nat, a1, b1);
    lemma_strip_prefix(arrow, decimal(ea.1 as nat) + a2, decimal(eb.1 as nat) + b2);
    lemma_decimal_prefix(ea.1 as nat, eb.1 as nat, a2, b2);
    lemma_strip_prefix(open, signed_decimal(ea.3 as int) + a3, signed_decimal(eb.3 as int) + b3);
    lemma_signed_prefix(ea.3 as int, eb.3 as int, a3, b3);
    lemma_strip_prefix(close, ra, rb);
}

/// A line followed by more text, regrouped from the right.
proof fn lemma_line_then(e: Edge, r: Seq<char>)
    ensures
        edge_line(e) + r == seq!['\t'] + (decimal(e.0 as nat) + (" -> "@ + (decimal(e.1 as nat) + (
        " [label="@ + (signed_decimal(e.3 as int) + ("]\n"@ + r)))))),
{
    let x4 = signed_decimal(e.3 as int) + "]\n"@;
    let x3 = " [label="@ + x4;
    let x2 = decimal(e.1 as nat) + x3;
    let x1 = " -> "@ + x2;
    let x0 = decimal(e.0 as nat) + x1;
    assert(x4 + r =~= signed_decimal(e.3 as int) + ("]\n"@ + r));
    assert(x3 + r =~= " [label="@ + (x4 + r));
    assert(x2 + r =~= decimal(e.1 as nat) + (x3 + r));
    assert(x1 + r =~= " -> "@ + (x2 + r));
    assert(x0 + r =~= decimal(e.0 as nat) + (x1 + r));
    assert(edge_line(e) + r =~= seq!['\t'] + (x0 + r));
}

/// Reading a rendering back gives the graph's edges: two edge sequences with
/// the same rendering have the same `(source, destination, label)` triples,
/// in the same order.
pub proof fn lemma_rendering_determines_triples(a: Seq<Edge>, b: Seq<Edge>)
    requires
        rendered(a) == rendered(b),
    ensures
        triples(a) == triples(b),
{
    let h = "digraph deBruijn {\n"@;
    let f = "}\n"@;
    assert(rendered(a) =~= h + (edge_lines(a) + f));
    assert(rendered(b) =~= h + (edge_lines(b) + f));
    lemma_strip_prefix(h, edge_lines(a) + f, edge_lines(b) + f);
    lemma_lines_determine_triples(a, b);
}

} // verus!
