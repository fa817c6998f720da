//! The regular-expression engine over symbol strings.
//!
//! [`matches`] gives the language of a symbolic pattern; the engine decides
//! membership for every substring at once by dynamic programming over a table
//! of spans, and [`leftmost`] reads the leftmost, longest non-empty match off
//! that table.
use vstd::prelude::*;

use crate::ir::Node;
use crate::ops::{Operator, RangeKind, RegexOperatorKind};

verus! {

/// `re` matches the characters `s[i..j]`.
pub open spec fn accepts(re: Node<char>, s: Seq<char>, i: int, j: int) -> bool
    decreases re, 1int, 0int, 0int,
{
    if !(0 <= i <= j <= s.len()) {
        false
    } else {
        match re {
            Node::Operand(c) => j == i + 1 && s[i] == c,
            Node::UnaryExpr { op, child } => match op {
                Operator::RegexOperator(RegexOperatorKind::KleeneStar) => star(*child, s, i, j),
                Operator::RegexOperator(RegexOperatorKind::Range(RangeKind::Exactly(n))) => rep(
                    *child,
                    n as int,
                    s,
                    i,
                    j,
                ),
                Operator::RegexOperator(RegexOperatorKind::Range(RangeKind::AtLeast(_))) => split(
                    re,
                    s,
                    i,
                    j,
                    i,
                ),
                Operator::RegexOperator(RegexOperatorKind::Range(RangeKind::Between(n, _))) => counts(
                    re,
                    s,
                    i,
                    j,
                    n as int,
                ),
                _ => false,
            },
            Node::BinaryExpr { op, .. } => match op {
                Operator::RegexOperator(RegexOperatorKind::Concatenation) => split(re, s, i, j, i),
                Operator::RegexOperator(RegexOperatorKind::Alternation) => match re {
                    Node::BinaryExpr { lhs, rhs, .. } => accepts(*lhs, s, i, j) || accepts(
                        *rhs,
                        s,
                        i,
                        j,
                    ),
                    _ => false,
                },
                _ => false,
            },
        }
    }
}

/// The two parts of `re` around a split point `q`, `i <= q <= j`: for a
/// concatenation its two operands; for `{n,}`, `n` repetitions of the operand
/// then a star of it.
pub open spec fn parts(re: Node<char>, s: Seq<char>, i: int, q: int, j: int) -> bool
    decreases re, 0int, 0int, 0int,
{
    match re {
        Node::BinaryExpr { lhs, rhs, .. } => accepts(*lhs, s, i, q) && accepts(*rhs, s, q, j),
        Node::UnaryExpr { op, child } => match op {
            Operator::RegexOperator(RegexOperatorKind::Range(RangeKind::AtLeast(n))) => rep(
                *child,
                n as int,
                s,
                i,
                q,
            ) && star(*child, s, q, j),
            _ => false,
        },
        _ => false,
    }
}

/// Some split point `q` with `k <= q <= j` has [`parts`].
pub open spec fn split(re: Node<char>, s: Seq<char>, i: int, j: int, k: int) -> bool
    decreases re, 0int, 1int, j + 1 - k,
{
    if k > j {
        false
    } else {
        parts(re, s, i, k, j) || split(re, s, i, j, k + 1)
    }
}

/// For `{n,m}`: some count `c` with `k <= c <= m` has `s[i..j]` split into
/// `c` pieces matching the operand.
pub open spec fn counts(re: Node<char>, s: Seq<char>, i: int, j: int, k: int) -> bool
    decreases re, 0int, 1int, (match re {
        Node::UnaryExpr { op, .. } => match op {
            Operator::RegexOperator(RegexOperatorKind::Range(RangeKind::Between(_, m))) => m as int,
            _ => 0int,
        },
        _ => 0int,
    }) + 1 - k,
{
    match re {
        Node::UnaryExpr { op, child } => match op {
            Operator::RegexOperator(RegexOperatorKind::Range(RangeKind::Between(_, m))) => {
                if k > m {
                    false
                } else {
                    rep(*child, k, s, i, j) || counts(re, s, i, j, k + 1)
                }
            },
            _ => false,
        },
        _ => false,
    }
}

/// `s[i..j]` splits into zero or more non-empty pieces that `r` matches.
pub open spec fn star(r: Node<char>, s: Seq<char>, i: int, j: int) -> bool
    decreases r, j - i + 2, 2int, 0int,
{
    if !(0 <= i <= j <= s.len()) {
        false
    } else if i == j {
        true
    } else {
        star_from(r, s, i, j, i + 1)
    }
}

/// Some first piece `s[i..q]`, `k <= q <= j`, `i < q`, matches `r` and the
/// rest is in its star.
pub open spec fn star_from(r: Node<char>, s: Seq<char>, i: int, j: int, k: int) -> bool
    decreases r, j - i + 2, 1int, j + 1 - k,
{
    if k > j || k <= i {
        false
    } else {
        (accepts(r, s, i, k) && star(r, s, k, j)) || star_from(r, s, i, j, k + 1)
    }
}

/// `s[i..j]` splits into exactly `n` pieces that `r` matches.
pub open spec fn rep(r: Node<char>, n: int, s: Seq<char>, i: int, j: int) -> bool
    decreases r, n + 2, 2int, 0int,
{
    if !(0 <= i <= j <= s.len()) {
        false
    } else if n <= 0 {
        n == 0 && i == j
    } else {
        rep_from(r, n, s, i, j, i)
    }
}

/// Some first piece `s[i..q]`, `k <= q <= j`, matches `r` and the rest
/// splits into `n - 1` pieces.
pub open spec fn rep_from(r: Node<char>, n: int, s: Seq<char>, i: int, j: int, k: int) -> bool
    decreases r, n + 2, 1int, j + 1 - k,
{
    if k > j || n <= 0 {
        false
    } else {
        (accepts(r, s, i, k) && rep(r, n - 1, s, k, j)) || rep_from(r, n, s, i, j, k + 1)
    }
}

/// A match in the sense of the drivers: non-empty.
pub open spec fn is_match(re: Node<char>, s: Seq<char>, i: int, j: int) -> bool {
    i < j && accepts(re, s, i, j)
}

/// The spans `re` matches.
pub open spec fn lang(re: Node<char>, s: Seq<char>) -> spec_fn(int, int) -> bool {
    |i: int, j: int| accepts(re, s, i, j)
}

/// The spans in the star of `r`.
pub open spec fn star_lang(r: Node<char>, s: Seq<char>) -> spec_fn(int, int) -> bool {
    |i: int, j: int| star(r, s, i, j)
}

/// The spans made of exactly `c` pieces matching `r`.
pub open spec fn rep_lang(r: Node<char>, c: int, s: Seq<char>) -> spec_fn(int, int) -> bool {
    |i: int, j: int| rep(r, c, s, i, j)
}

/// The spans made of `d` pieces matching `r`, for some `lo <= d < c`.
pub open spec fn reps_below(r: Node<char>, lo: int, c: int, s: Seq<char>) -> spec_fn(int, int) -> bool {
    |i: int, j: int| exists|d: int| lo <= d < c && #[trigger] rep(r, d, s, i, j)
}

/// The spans with a split point `k`, `pa` before it and `pb` after it.
pub open spec fn composed(pa: spec_fn(int, int) -> bool, pb: spec_fn(int, int) -> bool) -> spec_fn(int, int) -> bool {
    |i: int, j: int| exists|k: int| i <= k <= j && #[trigger] pa(i, k) && pb(k, j)
}

/// The spans in `pa` or in `pb`.
pub open spec fn either(pa: spec_fn(int, int) -> bool, pb: spec_fn(int, int) -> bool) -> spec_fn(int, int) -> bool {
    |i: int, j: int| pa(i, j) || pb(i, j)
}

/// The empty spans, when `b` holds.
pub open spec fn diagonal(b: bool) -> spec_fn(int, int) -> bool {
    |i: int, j: int| b && i == j
}

/// The one-character spans holding `c`.
pub open spec fn single(s: Seq<char>, c: char) -> spec_fn(int, int) -> bool {
    |i: int, j: int| j == i + 1 && s[i] == c
}

/// The table `t` holds, for all `0 <= i, j <= n`, whether `i <= j` and
/// `p(i, j)`.
pub open spec fn tabulates(t: Seq<Vec<bool>>, n: int, p: spec_fn(int, int) -> bool) -> bool {
    &&& t.len() == n + 1
    &&& forall|i: int| 0 <= i <= n ==> (#[trigger] t[i])@.len() == n + 1
    &&& forall|i: int, j: int| 0 <= i <= n && 0 <= j <= n ==> (#[trigger] t[i]@[j]) == (i <= j && p(i, j))
}

/// A table of `n + 1` rows of `n + 1` cells, `cell(i, j)` in each.
fn new_table(n: usize, on_diagonal: bool) -> (t: Vec<Vec<bool>>)
    requires
        n < usize::MAX,
    ensures
        tabulates(t@, n as int, diagonal(on_diagonal)),
{
    let mut t: Vec<Vec<bool>> = Vec::new();
    let mut i: usize = 0;
    while i <= n
        invariant
            n < usize::MAX,
            i <= n + 1,
            t@.len() == i,
            forall|a: int| 0 <= a < i ==> (#[trigger] t@[a])@.len() == n + 1,
            forall|a: int, b: int| 0 <= a < i && 0 <= b <= n ==> (#[trigger] t@[a]@[b]) == (a <= b && on_diagonal && a == b),
        decreases n + 1 - i,
    {
        let mut row: Vec<bool> = Vec::new();
        let mut j: usize = 0;
        while j <= n
            invariant
                n < usize::MAX,
                j <= n + 1,
                row@.len() == j,
                forall|b: int| 0 <= b < j ==> row@[b] == (i <= b && on_diagonal && i == b),
            decreases n + 1 - j,
        {
            row.push(on_diagonal && i == j);
            j = j + 1;
        }
        t.push(row);
        i = i + 1;
    }
    t
}

/// Relational composition: a cell holds when a split `k` between its ends
/// has `a` on the left and `b` on the right.
fn compose(
    a: &Vec<Vec<bool>>,
    b: &Vec<Vec<bool>>,
    n: usize,
    Ghost(pa): Ghost<spec_fn(int, int) -> bool>,
    Ghost(pb): Ghost<spec_fn(int, int) -> bool>,
) -> (t: Vec<Vec<bool>>)
    requires
        n < usize::MAX,
        tabulates(a@, n as int, pa),
        tabulates(b@, n as int, pb),
    ensures
        tabulates(t@, n as int, composed(pa, pb)),
{
    let mut t: Vec<Vec<bool>> = Vec::new();
    let mut i: usize = 0;
    while i <= n
        invariant
            n < usize::MAX,
            tabulates(a@, n as int, pa),
            tabulates(b@, n as int, pb),
            i <= n + 1,
            t@.len() == i,
            forall|x: int| 0 <= x < i ==> (#[trigger] t@[x])@.len() == n + 1,
            forall|x: int, y: int|
                0 <= x < i && 0 <= y <= n ==> (#[trigger] t@[x]@[y]) == (x <= y && exists|k: int|
                    x <= k <= y && #[trigger] pa(x, k) && pb(k, y)),
        decreases n + 1 - i,
    {
        let mut row: Vec<bool> = Vec::new();
        let mut j: usize = 0;
        while j <= n
            invariant
                n < usize::MAX,
                tabulates(a@, n as int, pa),
                tabulates(b@, n as int, pb),
                i <= n,
                j <= n + 1,
                row@.len() == j,
                forall|y: int|
                    0 <= y < j ==> (#[trigger] row@[y]) == (i <= y && exists|k: int|
                        i <= k <= y && #[trigger] pa(i as int, k) && pb(k, y)),
            decreases n + 1 - j,
        {
            let mut found = false;
            if i <= j {
                let mut k: usize = i;
                while k <= j
                    invariant
                        n < usize::MAX,
                        tabulates(a@, n as int, pa),
                        tabulates(b@, n as int, pb),
                        i <= j <= n,
                        i <= k <= j + 1,
                        found == exists|q: int| i <= q < k && #[trigger] pa(i as int, q) && pb(q, j as int),
                    decreases j + 1 - k,
                {
                    if a[i][k] && b[k][j] {
                        assert(a@[i as int]@[k as int] && b@[k as int]@[j as int]);
                        found = true;
                    } else {
                        assert(!(pa(i as int, k as int) && pb(k as int, j as int))) by {
                            assert(a@[i as int]@[k as int] == (i <= k && pa(i as int, k as int)));
                            assert(b@[k as int]@[j as int] == (k <= j && pb(k as int, j as int)));
                        }
                    }
                    k = k + 1;
                }
            }
            row.push(found);
            j = j + 1;
        }
        t.push(row);
        i = i + 1;
    }
    t
}

/// Cell-wise disjunction of two tables.
fn union(
    a: &Vec<Vec<bool>>,
    b: &Vec<Vec<bool>>,
    n: usize,
    Ghost(pa): Ghost<spec_fn(int, int) -> bool>,
    Ghost(pb): Ghost<spec_fn(int, int) -> bool>,
) -> (t: Vec<Vec<bool>>)
    requires
        n < usize::MAX,
        tabulates(a@, n as int, pa),
        tabulates(b@, n as int, pb),
    ensures
        tabulates(t@, n as int, either(pa, pb)),
{
    let mut t: Vec<Vec<bool>> = Vec::new();
    let mut i: usize = 0;
    while i <= n
        invariant
            n < usize::MAX,
            tabulates(a@, n as int, pa),
            tabulates(b@, n as int, pb),
            i <= n + 1,
            t@.len() == i,
            forall|x: int| 0 <= x < i ==> (#[trigger] t@[x])@.len() == n + 1,
            forall|x: int, y: int|
                0 <= x < i && 0 <= y <= n ==> (#[trigger] t@[x]@[y]) == (x <= y && (pa(x, y) || pb(
                    x,
                    y,
                ))),
        decreases n + 1 - i,
    {
        let mut row: Vec<bool> = Vec::new();
        let mut j: usize = 0;
        while j <= n
            invariant
                n < usize::MAX,
                tabulates(a@, n as int, pa),
                tabulates(b@, n as int, pb),
                i <= n,
                j <= n + 1,
                row@.len() == j,
                forall|y: int|
                    0 <= y < j ==> (#[trigger] row@[y]) == (i <= y && (pa(i as int, y) || pb(
                        i as int,
                        y,
                    ))),
            decreases n + 1 - j,
        {
            let v = a[i][j] || b[i][j];
            row.push(v);
            j = j + 1;
        }
        t.push(row);
        i = i + 1;
    }
    t
}


proof fn lemma_split(re: Node<char>, s: Seq<char>, i: int, j: int, k: int)
    ensures
        split(re, s, i, j, k) == exists|q: int| k <= q <= j && #[trigger] parts(re, s, i, q, j),
    decreases j + 1 - k,
{
    if k <= j {
        lemma_split(re, s, i, j, k + 1);
        if parts(re, s, i, k, j) {
            assert(k <= k <= j && parts(re, s, i, k, j));
        }
        if split(re, s, i, j, k + 1) {
            let q = choose|q: int| k + 1 <= q <= j && #[trigger] parts(re, s, i, q, j);
            assert(k <= q <= j && parts(re, s, i, q, j));
        }
        if exists|q: int| k <= q <= j && #[trigger] parts(re, s, i, q, j) {
            let q = choose|q: int| k <= q <= j && #[trigger] parts(re, s, i, q, j);
            if q > k {
                assert(k + 1 <= q <= j && parts(re, s, i, q, j));
            }
        }
    }
}

proof fn lemma_counts(re: Node<char>, child: Node<char>, m: int, s: Seq<char>, i: int, j: int, k: int)
    requires
        re matches Node::UnaryExpr { op: Operator::RegexOperator(RegexOperatorKind::Range(RangeKind::Between(_, mm))), child: c } && mm == m && *c == child,
    ensures
        counts(re, s, i, j, k) == exists|c: int| k <= c <= m && #[trigger] rep(child, c, s, i, j),
    decreases m + 1 - k,
{
    if k <= m {
        lemma_counts(re, child, m, s, i, j, k + 1);
        if rep(child, k, s, i, j) {
            assert(k <= k <= m && rep(child, k, s, i, j));
        }
        if counts(re, s, i, j, k + 1) {
            let c = choose|c: int| k + 1 <= c <= m && #[trigger] rep(child, c, s, i, j);
            assert(k <= c <= m && rep(child, c, s, i, j));
        }
        if exists|c: int| k <= c <= m && #[trigger] rep(child, c, s, i, j) {
            let c = choose|c: int| k <= c <= m && #[trigger] rep(child, c, s, i, j);
            if c > k {
                assert(k + 1 <= c <= m && rep(child, c, s, i, j));
            }
        }
    }
}

proof fn lemma_star_from(r: Node<char>, s: Seq<char>, i: int, j: int, k: int)
    requires
        i < k,
    ensures
        star_from(r, s, i, j, k) == exists|q: int|
            k <= q <= j && #[trigger] accepts(r, s, i, q) && star(r, s, q, j),
    decreases j + 1 - k,
{
    if k <= j {
        lemma_star_from(r, s, i, j, k + 1);
        if accepts(r, s, i, k) && star(r, s, k, j) {
            assert(k <= k <= j && accepts(r, s, i, k) && star(r, s, k, j));
        }
        if star_from(r, s, i, j, k + 1) {
            let q = choose|q: int| k + 1 <= q <= j && #[trigger] accepts(r, s, i, q) && star(r, s, q, j);
            assert(k <= q <= j && accepts(r, s, i, q) && star(r, s, q, j));
        }
        if exists|q: int| k <= q <= j && #[trigger] accepts(r, s, i, q) && star(r, s, q, j) {
            let q = choose|q: int| k <= q <= j && #[trigger] accepts(r, s, i, q) && star(r, s, q, j);
            if q > k {
                assert(k + 1 <= q <= j && accepts(r, s, i, q) && star(r, s, q, j));
            }
        }
    }
}

proof fn lemma_rep_from(r: Node<char>, n: int, s: Seq<char>, i: int, j: int, k: int)
    requires
        n > 0,
    ensures
        rep_from(r, n, s, i, j, k) == exists|q: int|
            k <= q <= j && #[trigger] accepts(r, s, i, q) && rep(r, n - 1, s, q, j),
    decreases j + 1 - k,
{
    if k <= j {
        lemma_rep_from(r, n, s, i, j, k + 1);
        if accepts(r, s, i, k) && rep(r, n - 1, s, k, j) {
            assert(k <= k <= j && accepts(r, s, i, k) && rep(r, n - 1, s, k, j));
        }
        if rep_from(r, n, s, i, j, k + 1) {
            let q = choose|q: int| k + 1 <= q <= j && #[trigger] accepts(r, s, i, q) && rep(r, n - 1, s, q, j);
            assert(k <= q <= j && accepts(r, s, i, q) && rep(r, n - 1, s, q, j));
        }
        if exists|q: int| k <= q <= j && #[trigger] accepts(r, s, i, q) && rep(r, n - 1, s, q, j) {
            let q = choose|q: int| k <= q <= j && #[trigger] accepts(r, s, i, q) && rep(r, n - 1, s, q, j);
            if q > k {
                assert(k + 1 <= q <= j && accepts(r, s, i, q) && rep(r, n - 1, s, q, j));
            }
        }
    }
}

proof fn lemma_compose_rep(re: Node<char>, c: int, s: Seq<char>, i: int, j: int)
    requires
        0 <= c,
        0 <= i <= j <= s.len(),
    ensures
        composed(lang(re, s), rep_lang(re, c, s))(i, j) == rep(re, c + 1, s, i, j),
{
    lemma_rep_from(re, c + 1, s, i, j, i);
    let pa = lang(re, s);
    let pb = rep_lang(re, c, s);
    if composed(pa, pb)(i, j) {
        let k = choose|k: int| i <= k <= j && #[trigger] pa(i, k) && pb(k, j);
        assert(i <= k <= j && accepts(re, s, i, k) && rep(re, c, s, k, j));
    }
    if rep(re, c + 1, s, i, j) {
        let k = choose|k: int| i <= k <= j && #[trigger] accepts(re, s, i, k) && rep(re, c, s, k, j);
        assert(pa(i, k) && pb(k, j));
    }
}

proof fn lemma_tabulates_equiv(
    t: Seq<Vec<bool>>,
    n: int,
    p: spec_fn(int, int) -> bool,
    q: spec_fn(int, int) -> bool,
)
    requires
        tabulates(t, n, p),
        forall|i: int, j: int| 0 <= i <= j <= n ==> #[trigger] p(i, j) == q(i, j),
    ensures
        tabulates(t, n, q),
{
    assert forall|i: int, j: int| 0 <= i <= n && 0 <= j <= n implies (#[trigger] t[i]@[j]) == (i
        <= j && q(i, j)) by {
        if i <= j {
            assert(p(i, j) == q(i, j));
        }
    }
}

/// The table of the single-character pattern `c`.
fn symbol_table(s: &Vec<char>, c: char) -> (t: Vec<Vec<bool>>)
    requires
        s@.len() < usize::MAX,
    ensures
        tabulates(t@, s@.len() as int, single(s@, c)),
{
    let n = s.len();
    let mut t: Vec<Vec<bool>> = Vec::new();
    let mut i: usize = 0;
    while i <= n
        invariant
            n == s@.len(),
            n < usize::MAX,
            i <= n + 1,
            t@.len() == i,
            forall|a: int| 0 <= a < i ==> (#[trigger] t@[a])@.len() == n + 1,
            forall|a: int, b: int|
                0 <= a < i && 0 <= b <= n ==> (#[trigger] t@[a]@[b]) == (a <= b && b == a + 1
                    && s@[a] == c),
        decreases n + 1 - i,
    {
        let mut row: Vec<bool> = Vec::new();
        let mut j: usize = 0;
        while j <= n
            invariant
                n == s@.len(),
                n < usize::MAX,
                i <= n,
                j <= n + 1,
                row@.len() == j,
                forall|b: int| 0 <= b < j ==> (#[trigger] row@[b]) == (i <= b && b == i + 1 && s@[i as int] == c),
            decreases n + 1 - j,
        {
            let v = i < n && j == i + 1 && s[i] == c;
            row.push(v);
            j = j + 1;
        }
        t.push(row);
        i = i + 1;
    }
    t
}

/// The table of `star(r)`, from the table of `r`.
fn star_table(r: &Vec<Vec<bool>>, n: usize, Ghost(re): Ghost<Node<char>>, Ghost(s): Ghost<Seq<char>>) -> (t: Vec<
    Vec<bool>,
>)
    requires
        n == s.len(),
        n < usize::MAX,
        tabulates(r@, n as int, lang(re, s)),
    ensures
        tabulates(t@, n as int, star_lang(re, s)),
{
    // Rows are computed from the last to the first: row `i` reads rows `k > i`.
    let mut rev: Vec<Vec<bool>> = Vec::new();
    let mut m: usize = 0;
    while m <= n
        invariant
            n == s.len(),
            n < usize::MAX,
            tabulates(r@, n as int, lang(re, s)),
            m <= n + 1,
            rev@.len() == m,
            forall|x: int| 0 <= x < m ==> (#[trigger] rev@[x])@.len() == n + 1,
            forall|x: int, y: int|
                0 <= x < m && 0 <= y <= n ==> (#[trigger] rev@[x]@[y]) == (n - x <= y && star(
                    re,
                    s,
                    n - x,
                    y,
                )),
        decreases n + 1 - m,
    {
        let i = n - m;
        let mut row: Vec<bool> = Vec::new();
        let mut j: usize = 0;
        while j <= n
            invariant
                n == s.len(),
                n < usize::MAX,
                tabulates(r@, n as int, lang(re, s)),
                m <= n,
                i == n - m,
                rev@.len() == m,
                forall|x: int| 0 <= x < m ==> (#[trigger] rev@[x])@.len() == n + 1,
                forall|x: int, y: int|
                    0 <= x < m && 0 <= y <= n ==> (#[trigger] rev@[x]@[y]) == (n - x <= y && star(
                        re,
                        s,
                        n - x,
                        y,
                    )),
                j <= n + 1,
                row@.len() == j,
                forall|y: int| 0 <= y < j ==> (#[trigger] row@[y]) == (i <= y && star(re, s, i as int, y)),
            decreases n + 1 - j,
        {
            let mut v = false;
            if i == j {
                v = true;
                assert(star(re, s, i as int, j as int));
            } else if i < j {
                let mut k: usize = i + 1;
                while k <= j
                    invariant
                        n == s.len(),
                        n < usize::MAX,
                        tabulates(r@, n as int, lang(re, s)),
                        m <= n,
                        i == n - m,
                        i < j <= n,
                        rev@.len() == m,
                        forall|x: int| 0 <= x < m ==> (#[trigger] rev@[x])@.len() == n + 1,
                        forall|x: int, y: int|
                            0 <= x < m && 0 <= y <= n ==> (#[trigger] rev@[x]@[y]) == (n - x <= y
                                && star(re, s, n - x, y)),
                        i + 1 <= k <= j + 1,
                        v == exists|q: int|
                            i < q < k && #[trigger] accepts(re, s, i as int, q) && star(re, s, q, j as int),
                    decreases j + 1 - k,
                {
                    let here = r[i][k];
                    assert(here == accepts(re, s, i as int, k as int));
                    let rest = rev[n - k][j];
                    assert(rest == star(re, s, k as int, j as int));
                    if here && rest {
                        v = true;
                    }
                    k = k + 1;
                }
                assert(v == star(re, s, i as int, j as int)) by {
                    lemma_star_from(re, s, i as int, j as int, i + 1);
                    if v {
                        let q = choose|q: int|
                            i < q < k && #[trigger] accepts(re, s, i as int, q) && star(re, s, q, j as int);
                        assert(i < q <= j && accepts(re, s, i as int, q) && star(re, s, q, j as int));
                    }
                    if star(re, s, i as int, j as int) {
                        let q = choose|q: int|
                            i < q <= j && #[trigger] accepts(re, s, i as int, q) && star(re, s, q, j as int);
                        assert(i < q < k && accepts(re, s, i as int, q) && star(re, s, q, j as int));
                    }
                }
            } else {
                assert(v == (i <= j && star(re, s, i as int, j as int)));
            }
            row.push(v);
            j = j + 1;
        }
        rev.push(row);
        m = m + 1;
    }
    let mut t: Vec<Vec<bool>> = Vec::new();
    let mut i: usize = 0;
    while i <= n
        invariant
            n == s.len(),
            n < usize::MAX,
            i <= n + 1,
            rev@.len() == n + 1 - i,
            forall|x: int| 0 <= x < rev@.len() ==> (#[trigger] rev@[x])@.len() == n + 1,
            forall|x: int, y: int|
                0 <= x < rev@.len() && 0 <= y <= n ==> (#[trigger] rev@[x]@[y]) == (n - x <= y
                    && star(re, s, n - x, y)),
            t@.len() == i,
            forall|x: int| 0 <= x < i ==> (#[trigger] t@[x])@.len() == n + 1,
            forall|x: int, y: int|
                0 <= x < i && 0 <= y <= n ==> (#[trigger] t@[x]@[y]) == (x <= y && star(re, s, x, y)),
        decreases n + 1 - i,
    {
        let row = rev.pop().unwrap();
        t.push(row);
        i = i + 1;
    }
    t
}

/// The table of `rep(r, cnt)` for `cnt` from the table of `r`.
fn power_table(r: &Vec<Vec<bool>>, cnt: usize, n: usize, Ghost(re): Ghost<Node<char>>, Ghost(s): Ghost<Seq<char>>) -> (t: Vec<
    Vec<bool>,
>)
    requires
        n == s.len(),
        n < usize::MAX,
        tabulates(r@, n as int, lang(re, s)),
    ensures
        tabulates(t@, n as int, rep_lang(re, cnt as int, s)),
{
    let mut p = new_table(n, true);
    proof {
        lemma_tabulates_equiv(p@, n as int, diagonal(true), rep_lang(re, 0, s));
    }
    let mut c: usize = 0;
    while c < cnt
        invariant
            n == s.len(),
            n < usize::MAX,
            c <= cnt,
            tabulates(r@, n as int, lang(re, s)),
            tabulates(p@, n as int, rep_lang(re, c as int, s)),
        decreases cnt - c,
    {
        let ghost pc = rep_lang(re, c as int, s);
        let next = compose(r, &p, n, Ghost(lang(re, s)), Ghost(pc));
        proof {
            assert forall|i: int, j: int| 0 <= i <= j <= n implies #[trigger] composed(lang(re, s), pc)(i, j) == rep(re, c + 1, s, i, j) by {
                lemma_compose_rep(re, c as int, s, i, j);
            }
            lemma_tabulates_equiv(
                next@,
                n as int,
                composed(lang(re, s), pc),
                rep_lang(re, c + 1, s),
            );
        }
        p = next;
        c = c + 1;
    }
    p
}

/// The table of `re` over `s`: which spans `s[i..j]` it matches.
pub fn table_of(re: &Node<char>, s: &Vec<char>) -> (t: Vec<Vec<bool>>)
    requires
        s@.len() < usize::MAX,
    ensures
        tabulates(t@, s@.len() as int, lang(*re, s@)),
    decreases re,
{
    let n = s.len();
    let ghost sv = s@;
    let ghost whole = *re;
    match re {
        Node::Operand(c) => {
            let t = symbol_table(s, *c);
            proof {
                lemma_tabulates_equiv(t@, n as int, single(sv, *c), lang(whole, sv));
            }
            t
        },
        Node::UnaryExpr { op, child } => {
            let ghost ch: Node<char> = **child;
            match op {
                Operator::RegexOperator(RegexOperatorKind::KleeneStar) => {
                    let rt = table_of(child, s);
                    let t = star_table(&rt, n, Ghost(ch), Ghost(sv));
                    proof {
                        lemma_tabulates_equiv(t@, n as int, star_lang(ch, sv), lang(whole, sv));
                    }
                    t
                },
                Operator::RegexOperator(RegexOperatorKind::Range(RangeKind::Exactly(cnt))) => {
                    let rt = table_of(child, s);
                    let t = power_table(&rt, *cnt, n, Ghost(ch), Ghost(sv));
                    proof {
                        lemma_tabulates_equiv(t@, n as int, rep_lang(ch, *cnt as int, sv), lang(whole, sv));
                    }
                    t
                },
                Operator::RegexOperator(RegexOperatorKind::Range(RangeKind::AtLeast(lo))) => {
                    let rt = table_of(child, s);
                    let pt = power_table(&rt, *lo, n, Ghost(ch), Ghost(sv));
                    let st = star_table(&rt, n, Ghost(ch), Ghost(sv));
                    let ghost pa = rep_lang(ch, *lo as int, sv);
                    let ghost pb = star_lang(ch, sv);
                    let t = compose(&pt, &st, n, Ghost(pa), Ghost(pb));
                    proof {
                        assert forall|i: int, j: int| 0 <= i <= j <= n implies #[trigger] composed(pa, pb)(i, j) == accepts(whole, sv, i, j) by {
                            lemma_split(whole, sv, i, j, i);
                            if exists|k: int| i <= k <= j && #[trigger] pa(i, k) && pb(k, j) {
                                let k = choose|k: int| i <= k <= j && #[trigger] pa(i, k) && pb(k, j);
                                assert(parts(whole, sv, i, k, j));
                            }
                            if accepts(whole, sv, i, j) {
                                let k = choose|k: int| i <= k <= j && #[trigger] parts(whole, sv, i, k, j);
                                assert(pa(i, k) && pb(k, j));
                            }
                        }
                        lemma_tabulates_equiv(
                            t@,
                            n as int,
                            composed(pa, pb),
                            lang(whole, sv),
                        );
                    }
                    t
                },
                Operator::RegexOperator(RegexOperatorKind::Range(RangeKind::Between(lo, hi))) => {
                    let rt = table_of(child, s);
                    let t = between_table(&rt, *lo, *hi, n, Ghost(ch), Ghost(sv));
                    proof {
                        assert forall|i: int, j: int| 0 <= i <= j <= n implies #[trigger] reps_below(ch, *lo as int, *hi as int + 1, sv)(i, j) == accepts(whole, sv, i, j) by {
                            lemma_counts(whole, ch, *hi as int, sv, i, j, *lo as int);
                        }
                        lemma_tabulates_equiv(
                            t@,
                            n as int,
                            reps_below(ch, *lo as int, *hi as int + 1, sv),
                            lang(whole, sv),
                        );
                    }
                    t
                },
                _ => {
                    let t = new_table(n, false);
                    proof {
                        lemma_tabulates_equiv(t@, n as int, diagonal(false), lang(whole, sv));
                    }
                    t
                },
            }
        },
        Node::BinaryExpr { op, lhs, rhs } => {
            let ghost l: Node<char> = **lhs;
            let ghost r: Node<char> = **rhs;
            match op {
                Operator::RegexOperator(RegexOperatorKind::Concatenation) => {
                    let lt = table_of(lhs, s);
                    let rt = table_of(rhs, s);
                    let ghost pa = lang(l, sv);
                    let ghost pb = lang(r, sv);
                    let t = compose(&lt, &rt, n, Ghost(pa), Ghost(pb));
                    proof {
                        assert forall|i: int, j: int| 0 <= i <= j <= n implies #[trigger] composed(pa, pb)(i, j) == accepts(whole, sv, i, j) by {
                            lemma_split(whole, sv, i, j, i);
                            if exists|k: int| i <= k <= j && #[trigger] pa(i, k) && pb(k, j) {
                                let k = choose|k: int| i <= k <= j && #[trigger] pa(i, k) && pb(k, j);
                                assert(parts(whole, sv, i, k, j));
                            }
                            if accepts(whole, sv, i, j) {
                                let k = choose|k: int| i <= k <= j && #[trigger] parts(whole, sv, i, k, j);
                                assert(pa(i, k) && pb(k, j));
                            }
                        }
                        lemma_tabulates_equiv(
                            t@,
                            n as int,
                            composed(pa, pb),
                            lang(whole, sv),
                        );
                    }
                    t
                },
                Operator::RegexOperator(RegexOperatorKind::Alternation) => {
                    let lt = table_of(lhs, s);
                    let rt = table_of(rhs, s);
                    let ghost pa = lang(l, sv);
                    let ghost pb = lang(r, sv);
                    let t = union(&lt, &rt, n, Ghost(pa), Ghost(pb));
                    proof {
                        lemma_tabulates_equiv(t@, n as int, either(pa, pb), lang(whole, sv));
                    }
                    t
                },
                _ => {
                    let t = new_table(n, false);
                    proof {
                        lemma_tabulates_equiv(t@, n as int, diagonal(false), lang(whole, sv));
                    }
                    t
                },
            }
        },
    }
}

/// The table of `{lo,hi}` repetitions from the table of the operand.
fn between_table(r: &Vec<Vec<bool>>, lo: usize, hi: usize, n: usize, Ghost(re): Ghost<Node<char>>, Ghost(s): Ghost<Seq<char>>) -> (t: Vec<
    Vec<bool>,
>)
    requires
        n == s.len(),
        n < usize::MAX,
        tabulates(r@, n as int, lang(re, s)),
    ensures
        tabulates(t@, n as int, reps_below(re, lo as int, hi as int + 1, s)),
{
    let mut acc = new_table(n, false);
    let mut p = new_table(n, true);
    proof {
        lemma_tabulates_equiv(p@, n as int, diagonal(true), rep_lang(re, 0, s));
        lemma_tabulates_equiv(acc@, n as int, diagonal(false), reps_below(re, lo as int, 0, s));
    }
    let mut c: usize = 0;
    loop
        invariant_except_break
            tabulates(acc@, n as int, reps_below(re, lo as int, c as int, s)),
        invariant
            n == s.len(),
            n < usize::MAX,
            c <= hi,
            tabulates(r@, n as int, lang(re, s)),
            tabulates(p@, n as int, rep_lang(re, c as int, s)),
        ensures
            tabulates(acc@, n as int, reps_below(re, lo as int, hi as int + 1, s)),
        decreases hi - c,
    {
        let ghost pc = rep_lang(re, c as int, s);
        let ghost pacc = reps_below(re, lo as int, c as int, s);
        if c >= lo {
            acc = union(&acc, &p, n, Ghost(pacc), Ghost(pc));
            proof {
                assert forall|i: int, j: int| 0 <= i <= j <= n implies #[trigger] either(pacc, pc)(i, j) == reps_below(re, lo as int, c + 1, s)(i, j) by {
                    if pc(i, j) {
                        assert(lo <= c < c + 1 && rep(re, c as int, s, i, j));
                    }
                    if exists|d: int| lo <= d < c + 1 && #[trigger] rep(re, d, s, i, j) {
                        let d = choose|d: int| lo <= d < c + 1 && #[trigger] rep(re, d, s, i, j);
                        if d < c {
                            assert(pacc(i, j));
                        }
                    }
                }
                lemma_tabulates_equiv(acc@, n as int, either(pacc, pc), reps_below(re, lo as int, c + 1, s));
            }
        } else {
            proof {
                assert forall|i: int, j: int| 0 <= i <= j <= n implies #[trigger] pacc(i, j) == reps_below(re, lo as int, c + 1, s)(i, j) by {
                    if exists|d: int| lo <= d < c + 1 && #[trigger] rep(re, d, s, i, j) {
                        let d = choose|d: int| lo <= d < c + 1 && #[trigger] rep(re, d, s, i, j);
                        assert(false);
                    }
                }
                lemma_tabulates_equiv(acc@, n as int, pacc, reps_below(re, lo as int, c + 1, s));
            }
        }
        if c == hi {
            proof {
                lemma_tabulates_equiv(acc@, n as int, reps_below(re, lo as int, c + 1, s), reps_below(re, lo as int, hi as int + 1, s));
            }
            break;
        }
        let next = compose(r, &p, n, Ghost(lang(re, s)), Ghost(pc));
        proof {
            assert forall|i: int, j: int| 0 <= i <= j <= n implies #[trigger] composed(lang(re, s), pc)(i, j) == rep(re, c + 1, s, i, j) by {
                lemma_compose_rep(re, c as int, s, i, j);
            }
            lemma_tabulates_equiv(
                next@,
                n as int,
                composed(lang(re, s), pc),
                rep_lang(re, c + 1, s),
            );
        }
        p = next;
        c = c + 1;
    }
    acc
}

/// A split point of a concatenation or `{n,}` that matches.
pub proof fn lemma_split_witness(re: Node<char>, s: Seq<char>, i: int, j: int, k: int) -> (q: int)
    requires
        split(re, s, i, j, k),
    ensures
        k <= q <= j,
        parts(re, s, i, q, j),
{
    lemma_split(re, s, i, j, k);
    choose|q: int| k <= q <= j && #[trigger] parts(re, s, i, q, j)
}

/// A count of a `{lo,m}` repetition that matches.
pub proof fn lemma_counts_witness(re: Node<char>, child: Node<char>, m: int, s: Seq<char>, i: int, j: int, k: int) -> (c: int)
    requires
        re matches Node::UnaryExpr { op: Operator::RegexOperator(RegexOperatorKind::Range(RangeKind::Between(_, mm))), child: ch } && mm == m && *ch == child,
        counts(re, s, i, j, k),
    ensures
        k <= c <= m,
        rep(child, c, s, i, j),
{
    lemma_counts(re, child, m, s, i, j, k);
    choose|c: int| k <= c <= m && #[trigger] rep(child, c, s, i, j)
}

/// The end of the first piece of a repetition of at least one piece.
pub proof fn lemma_rep_witness(r: Node<char>, n: int, s: Seq<char>, i: int, j: int) -> (q: int)
    requires
        n > 0,
        rep(r, n, s, i, j),
    ensures
        i <= q <= j,
        accepts(r, s, i, q),
        rep(r, n - 1, s, q, j),
{
    lemma_rep_from(r, n, s, i, j, i);
    choose|q: int| i <= q <= j && #[trigger] accepts(r, s, i, q) && rep(r, n - 1, s, q, j)
}

/// The leftmost, longest non-empty match of `re` in `s` that starts at or
/// after `from`, as `(start, end)`.
pub fn leftmost(re: &Node<char>, s: &Vec<char>, from: usize) -> (r: Option<(usize, usize)>)
    requires
        s@.len() < usize::MAX,
    ensures
        match r {
            Some((a, b)) => {
                &&& from <= a < b <= s@.len()
                &&& accepts(*re, s@, a as int, b as int)
                &&& forall|a2: int, b2: int| from <= a2 < a ==> !#[trigger] is_match(*re, s@, a2, b2)
                &&& forall|b2: int| b < b2 ==> !#[trigger] accepts(*re, s@, a as int, b2)
            },
            None => forall|a2: int, b2: int| from <= a2 ==> !#[trigger] is_match(*re, s@, a2, b2),
        },
{
    let n = s.len();
    let t = table_of(re, s);
    let mut a: usize = from;
    while a < n
        invariant
            n == s@.len(),
            n < usize::MAX,
            tabulates(t@, n as int, lang(*re, s@)),
            from <= a,
            forall|a2: int, b2: int| from <= a2 < a ==> !#[trigger] is_match(*re, s@, a2, b2),
        decreases n - a,
    {
        let mut b: usize = n;
        while b > a
            invariant
                n == s@.len(),
                n < usize::MAX,
                a < n,
                a <= b <= n,
                from <= a,
                forall|a2: int, b2: int| from <= a2 < a ==> !#[trigger] is_match(*re, s@, a2, b2),
                tabulates(t@, n as int, lang(*re, s@)),
                forall|b2: int| b < b2 ==> !#[trigger] accepts(*re, s@, a as int, b2),
            decreases b,
        {
            if t[a][b] {
                assert(t@[a as int]@[b as int]);
                assert(lang(*re, s@)(a as int, b as int));
                return Some((a, b));
            }
            assert(!t@[a as int]@[b as int]);
            assert(!lang(*re, s@)(a as int, b as int));
            b = b - 1;
        }
        assert forall|b2: int| !#[trigger] is_match(*re, s@, a as int, b2) by {
            if a < b2 && b2 <= n {
                assert(!accepts(*re, s@, a as int, b2));
            }
        }
        a = a + 1;
    }
    assert forall|a2: int, b2: int| from <= a2 implies !#[trigger] is_match(*re, s@, a2, b2) by {
        if a2 >= a && a2 < b2 {
            assert(!accepts(*re, s@, a2, b2));
        }
    }
    None
}

/// `t[i..j]` is `s[i + d..j + d]`, and both spans lie in their strings.
pub open spec fn same_span(s: Seq<char>, t: Seq<char>, i: int, j: int, d: int) -> bool {
    &&& 0 <= i <= j <= t.len()
    &&& 0 <= i + d
    &&& j + d <= s.len()
    &&& forall|x: int| i <= x < j ==> #[trigger] t[x] == s[x + d]
}

/// Whether a pattern matches a span depends on the span's characters alone.
pub proof fn lemma_local(re: Node<char>, s: Seq<char>, t: Seq<char>, i: int, j: int, d: int)
    requires
        same_span(s, t, i, j, d),
    ensures
        accepts(re, t, i, j) == accepts(re, s, i + d, j + d),
    decreases re, 1int, 0int, 0int,
{
    match re {
        Node::Operand(c) => {
            if j == i + 1 {
                assert(t[i] == s[i + d]);
            }
        },
        Node::UnaryExpr { op, child } => match op {
            Operator::RegexOperator(RegexOperatorKind::KleeneStar) => {
                lemma_star_local(*child, s, t, i, j, d);
            },
            Operator::RegexOperator(RegexOperatorKind::Range(RangeKind::Exactly(n))) => {
                lemma_rep_local(*child, n as int, s, t, i, j, d);
            },
            Operator::RegexOperator(RegexOperatorKind::Range(RangeKind::AtLeast(_))) => {
                lemma_split_local(re, s, t, i, j, i, d);
            },
            Operator::RegexOperator(RegexOperatorKind::Range(RangeKind::Between(n, _))) => {
                lemma_counts_local(re, s, t, i, j, n as int, d);
            },
            _ => {},
        },
        Node::BinaryExpr { op, lhs, rhs } => match op {
            Operator::RegexOperator(RegexOperatorKind::Concatenation) => {
                lemma_split_local(re, s, t, i, j, i, d);
            },
            Operator::RegexOperator(RegexOperatorKind::Alternation) => {
                lemma_local(*lhs, s, t, i, j, d);
                lemma_local(*rhs, s, t, i, j, d);
            },
            _ => {},
        },
    }
}

proof fn lemma_parts_local(re: Node<char>, s: Seq<char>, t: Seq<char>, i: int, q: int, j: int, d: int)
    requires
        same_span(s, t, i, j, d),
        i <= q <= j,
    ensures
        parts(re, t, i, q, j) == parts(re, s, i + d, q + d, j + d),
    decreases re, 0int, 0int, 0int,
{
    match re {
        Node::BinaryExpr { lhs, rhs, .. } => {
            lemma_local(*lhs, s, t, i, q, d);
            lemma_local(*rhs, s, t, q, j, d);
        },
        Node::UnaryExpr { op, child } => match op {
            Operator::RegexOperator(RegexOperatorKind::Range(RangeKind::AtLeast(n))) => {
                lemma_rep_local(*child, n as int, s, t, i, q, d);
                lemma_star_local(*child, s, t, q, j, d);
            },
            _ => {},
        },
        _ => {},
    }
}

proof fn lemma_split_local(re: Node<char>, s: Seq<char>, t: Seq<char>, i: int, j: int, k: int, d: int)
    requires
        same_span(s, t, i, j, d),
        i <= k,
    ensures
        split(re, t, i, j, k) == split(re, s, i + d, j + d, k + d),
    decreases re, 0int, 1int, j + 1 - k,
{
    if k <= j {
        lemma_parts_local(re, s, t, i, k, j, d);
        lemma_split_local(re, s, t, i, j, k + 1, d);
    }
}

proof fn lemma_counts_local(re: Node<char>, s: Seq<char>, t: Seq<char>, i: int, j: int, k: int, d: int)
    requires
        same_span(s, t, i, j, d),
    ensures
        counts(re, t, i, j, k) == counts(re, s, i + d, j + d, k),
    decreases re, 0int, 1int, (match re {
        Node::UnaryExpr { op, .. } => match op {
            Operator::RegexOperator(RegexOperatorKind::Range(RangeKind::Between(_, m))) => m as int,
            _ => 0int,
        },
        _ => 0int,
    }) + 1 - k,
{
    match re {
        Node::UnaryExpr { op, child } => match op {
            Operator::RegexOperator(RegexOperatorKind::Range(RangeKind::Between(_, m))) => {
                if k <= m {
                    lemma_rep_local(*child, k, s, t, i, j, d);
                    lemma_counts_local(re, s, t, i, j, k + 1, d);
                }
            },
            _ => {},
        },
        _ => {},
    }
}

proof fn lemma_star_local(r: Node<char>, s: Seq<char>, t: Seq<char>, i: int, j: int, d: int)
    requires
        same_span(s, t, i, j, d),
    ensures
        star(r, t, i, j) == star(r, s, i + d, j + d),
    decreases r, j - i + 2, 2int, 0int,
{
    if i < j {
        lemma_star_from_local(r, s, t, i, j, i + 1, d);
    }
}

proof fn lemma_star_from_local(r: Node<char>, s: Seq<char>, t: Seq<char>, i: int, j: int, k: int, d: int)
    requires
        same_span(s, t, i, j, d),
        i < k,
    ensures
        star_from(r, t, i, j, k) == star_from(r, s, i + d, j + d, k + d),
    decreases r, j - i + 2, 1int, j + 1 - k,
{
    if k <= j {
        lemma_local(r, s, t, i, k, d);
        lemma_star_local(r, s, t, k, j, d);
        lemma_star_from_local(r, s, t, i, j, k + 1, d);
    }
}

proof fn lemma_rep_local(r: Node<char>, n: int, s: Seq<char>, t: Seq<char>, i: int, j: int, d: int)
    requires
        same_span(s, t, i, j, d),
    ensures
        rep(r, n, t, i, j) == rep(r, n, s, i + d, j + d),
    decreases r, n + 2, 2int, 0int,
{
    if n > 0 {
        lemma_rep_from_local(r, n, s, t, i, j, i, d);
    }
}

proof fn lemma_rep_from_local(r: Node<char>, n: int, s: Seq<char>, t: Seq<char>, i: int, j: int, k: int, d: int)
    requires
        same_span(s, t, i, j, d),
        n > 0,
        i <= k,
    ensures
        rep_from(r, n, t, i, j, k) == rep_from(r, n, s, i + d, j + d, k + d),
    decreases r, n + 2, 1int, j + 1 - k,
{
    if k <= j {
        lemma_local(r, s, t, i, k, d);
        lemma_rep_local(r, n - 1, s, t, k, j, d);
        lemma_rep_from_local(r, n, s, t, i, j, k + 1, d);
    }
}

} // verus!
