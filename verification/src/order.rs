//! Alphabetical order, on text and on the components of paths.
use crate::path;
use crate::text;
use vstd::prelude::*;

verus! {

// ---------------------------------------------------------------------------
// Models
// ---------------------------------------------------------------------------

/// Whether `a` comes strictly before `b`, character by character.
pub open spec fn before(a: Seq<char>, b: Seq<char>) -> bool
    decreases a.len(),
{
    if b.len() == 0 {
        false
    } else if a.len() == 0 {
        true
    } else if a[0] != b[0] {
        a[0] < b[0]
    } else {
        before(a.drop_first(), b.drop_first())
    }
}

/// The root comes first among components, then `.`, then `..`, then names.
pub open spec fn rank(part: Seq<char>) -> int {
    if part == seq!['/'] {
        0
    } else if part == seq!['.'] {
        1
    } else if part == seq!['.', '.'] {
        2
    } else {
        3
    }
}

/// Whether one component comes strictly before another.
pub open spec fn part_before(a: Seq<char>, b: Seq<char>) -> bool {
    rank(a) < rank(b) || (rank(a) == rank(b) && before(a, b))
}

/// Whether one path's components come strictly before another's.
pub open spec fn parts_before(a: Seq<Seq<char>>, b: Seq<Seq<char>>) -> bool
    decreases a.len(),
{
    if b.len() == 0 {
        false
    } else if a.len() == 0 {
        true
    } else if a[0] != b[0] {
        part_before(a[0], b[0])
    } else {
        parts_before(a.drop_first(), b.drop_first())
    }
}

// ---------------------------------------------------------------------------
// Both are total orders
// ---------------------------------------------------------------------------

pub proof fn lemma_before_irreflexive(a: Seq<char>)
    ensures
        !before(a, a),
    decreases a.len(),
{
    if a.len() > 0 {
        lemma_before_irreflexive(a.drop_first());
    }
}

pub proof fn lemma_before_transitive(a: Seq<char>, b: Seq<char>, c: Seq<char>)
    requires
        before(a, b),
        before(b, c),
    ensures
        before(a, c),
    decreases a.len(),
{
    if a.len() > 0 && a[0] == b[0] && b[0] == c[0] {
        lemma_before_transitive(a.drop_first(), b.drop_first(), c.drop_first());
    }
}

pub proof fn lemma_before_total(a: Seq<char>, b: Seq<char>)
    ensures
        a == b || before(a, b) || before(b, a),
    decreases a.len(),
{
    if a.len() == 0 || b.len() == 0 {
        if a.len() == 0 && b.len() == 0 {
            assert(a =~= b);
        }
    } else if a[0] == b[0] {
        lemma_before_total(a.drop_first(), b.drop_first());
        if a.drop_first() == b.drop_first() {
            assert(a =~= seq![a[0]] + a.drop_first());
            assert(b =~= seq![b[0]] + b.drop_first());
        }
    }
}

pub proof fn lemma_parts_irreflexive(a: Seq<Seq<char>>)
    ensures
        !parts_before(a, a),
    decreases a.len(),
{
    if a.len() > 0 {
        lemma_parts_irreflexive(a.drop_first());
    }
}

proof fn lemma_part_transitive(a: Seq<char>, b: Seq<char>, c: Seq<char>)
    requires
        part_before(a, b),
        part_before(b, c),
    ensures
        part_before(a, c),
        a != c,
{
    if rank(a) == rank(b) && rank(b) == rank(c) {
        lemma_before_transitive(a, b, c);
    }
    lemma_before_irreflexive(a);
}

pub proof fn lemma_parts_transitive(a: Seq<Seq<char>>, b: Seq<Seq<char>>, c: Seq<Seq<char>>)
    requires
        parts_before(a, b),
        parts_before(b, c),
    ensures
        parts_before(a, c),
    decreases a.len(),
{
    if a.len() > 0 {
        if a[0] == b[0] && b[0] == c[0] {
            lemma_parts_transitive(a.drop_first(), b.drop_first(), c.drop_first());
        } else if a[0] != b[0] && b[0] != c[0] {
            lemma_part_transitive(a[0], b[0], c[0]);
        }
    }
}

pub proof fn lemma_parts_total(a: Seq<Seq<char>>, b: Seq<Seq<char>>)
    ensures
        a == b || parts_before(a, b) || parts_before(b, a),
    decreases a.len(),
{
    if a.len() == 0 || b.len() == 0 {
        if a.len() == 0 && b.len() == 0 {
            assert(a =~= b);
        }
    } else if a[0] == b[0] {
        lemma_parts_total(a.drop_first(), b.drop_first());
        if a.drop_first() == b.drop_first() {
            assert(a =~= seq![a[0]] + a.drop_first());
            assert(b =~= seq![b[0]] + b.drop_first());
        }
    } else {
        lemma_before_total(a[0], b[0]);
    }
}

// ---------------------------------------------------------------------------
// Comparing
// ---------------------------------------------------------------------------

/// Whether `a` comes strictly before `b`.
pub fn chars_before(a: &Vec<char>, b: &Vec<char>) -> (yes: bool)
    ensures
        yes == before(a@, b@),
{
    let mut i: usize = 0;
    assert(a@.skip(0) =~= a@);
    assert(b@.skip(0) =~= b@);
    while i < a.len() && i < b.len() && a[i] == b[i]
        invariant
            i <= a@.len(),
            i <= b@.len(),
            before(a@, b@) == before(a@.skip(i as int), b@.skip(i as int)),
        decreases a@.len() - i,
    {
        assert(a@.skip(i as int).drop_first() =~= a@.skip(i + 1));
        assert(b@.skip(i as int).drop_first() =~= b@.skip(i + 1));
        i += 1;
    }
    if i >= b.len() {
        false
    } else if i >= a.len() {
        true
    } else {
        assert(a@.skip(i as int)[0] == a@[i as int]);
        assert(b@.skip(i as int)[0] == b@[i as int]);
        a[i] < b[i]
    }
}

/// Whether `a` comes strictly before `b`.
pub fn text_before(a: &str, b: &str) -> (yes: bool)
    ensures
        yes == before(a@, b@),
{
    let x = text::chars_of(a);
    let y = text::chars_of(b);
    chars_before(&x, &y)
}

fn rank_of(part: &str) -> (r: u8)
    ensures
        r == rank(part@),
{
    proof {
        reveal_strlit("/");
        reveal_strlit(".");
        reveal_strlit("..");
        assert("/"@ =~= seq!['/']);
        assert("."@ =~= seq!['.']);
        assert(".."@ =~= seq!['.', '.']);
    }
    if text::same_text(part, "/") {
        0
    } else if text::same_text(part, ".") {
        1
    } else if text::same_text(part, "..") {
        2
    } else {
        3
    }
}

/// Whether one path comes strictly before another.
pub fn path_before(a: &str, b: &str) -> (yes: bool)
    ensures
        yes == parts_before(path::parts(a@), path::parts(b@)),
{
    let x = path::parts_of(a);
    let y = path::parts_of(b);
    let ghost p = path::parts(a@);
    let ghost q = path::parts(b@);
    let mut i: usize = 0;
    assert(p.skip(0) =~= p);
    assert(q.skip(0) =~= q);
    while i < x.len() && i < y.len() && text::same_text(x[i].as_str(), y[i].as_str())
        invariant
            p == text::texts(x@),
            q == text::texts(y@),
            i <= x@.len(),
            i <= y@.len(),
            parts_before(p, q) == parts_before(p.skip(i as int), q.skip(i as int)),
        decreases x@.len() - i,
    {
        assert(p.skip(i as int).drop_first() =~= p.skip(i + 1));
        assert(q.skip(i as int).drop_first() =~= q.skip(i + 1));
        i += 1;
    }
    if i >= y.len() {
        false
    } else if i >= x.len() {
        true
    } else {
        assert(p.skip(i as int)[0] == x@[i as int]@);
        assert(q.skip(i as int)[0] == y@[i as int]@);
        let r = rank_of(x[i].as_str());
        let s = rank_of(y[i].as_str());
        r < s || (r == s && text_before(x[i].as_str(), y[i].as_str()))
    }
}

/// Text comes before other text exactly where it is a part of its beginning, or the
/// first characters to differ say so.
pub proof fn the_first_difference_decides(a: Seq<char>, b: Seq<char>)
    ensures
        before(a, b) <==> exists|n: int|
            #![trigger a.take(n)]
            0 <= n <= a.len() && n < b.len() && a.take(n) == b.take(n) && (n == a.len() || a[n]
                < b[n]),
    decreases a.len(),
{
    if before(a, b) {
        if a.len() == 0 {
            assert(a.take(0) =~= b.take(0));
        } else if a[0] != b[0] {
            assert(a.take(0) =~= b.take(0));
        } else {
            let x = a.drop_first();
            let y = b.drop_first();
            the_first_difference_decides(x, y);
            let n = choose|n: int|
                #![trigger x.take(n)]
                0 <= n <= x.len() && n < y.len() && x.take(n) == y.take(n) && (n == x.len() || x[n]
                    < y[n]);
            assert(a.take(n + 1) =~= seq![a[0]] + x.take(n));
            assert(b.take(n + 1) =~= seq![b[0]] + y.take(n));
            assert(a.take(n + 1) == b.take(n + 1));
        }
    }
    if exists|n: int|
        #![trigger a.take(n)]
        0 <= n <= a.len() && n < b.len() && a.take(n) == b.take(n) && (n == a.len() || a[n] < b[n]) {
        let n = choose|n: int|
            #![trigger a.take(n)]
            0 <= n <= a.len() && n < b.len() && a.take(n) == b.take(n) && (n == a.len() || a[n]
                < b[n]);
        lemma_before_from(a, b, n);
    }
}

proof fn lemma_before_from(a: Seq<char>, b: Seq<char>, n: int)
    requires
        0 <= n <= a.len(),
        n < b.len(),
        a.take(n) == b.take(n),
        n == a.len() || a[n] < b[n],
    ensures
        before(a, b),
    decreases a.len(),
{
    if n > 0 {
        assert(a[0] == a.take(n)[0] && b[0] == b.take(n)[0]);
        let x = a.drop_first();
        let y = b.drop_first();
        assert(x.take(n - 1) =~= a.take(n).drop_first());
        assert(y.take(n - 1) =~= b.take(n).drop_first());
        lemma_before_from(x, y, n - 1);
    }
}

/// A path comes before whatever lies inside it.
pub proof fn a_directory_comes_before_what_is_in_it(a: Seq<Seq<char>>, more: Seq<Seq<char>>)
    requires
        more.len() > 0,
    ensures
        parts_before(a, a + more),
        !parts_before(a + more, a),
    decreases a.len(),
{
    if a.len() > 0 {
        assert((a + more).drop_first() =~= a.drop_first() + more);
        a_directory_comes_before_what_is_in_it(a.drop_first(), more);
    }
}

/// Paths that part ways at a name go by that name, whatever follows it.
pub proof fn paths_go_by_the_first_name_that_differs(
    shared: Seq<Seq<char>>,
    a: Seq<char>,
    b: Seq<char>,
    x: Seq<Seq<char>>,
    y: Seq<Seq<char>>,
)
    requires
        a != b,
        path::is_name(a),
        path::is_name(b),
    ensures
        parts_before(shared + seq![a] + x, shared + seq![b] + y) <==> before(a, b),
    decreases shared.len(),
{
    let p = shared + seq![a] + x;
    let q = shared + seq![b] + y;
    if shared.len() == 0 {
        assert(p[0] == a && q[0] == b);
    } else {
        assert(p[0] == q[0]);
        assert(p.drop_first() =~= shared.drop_first() + seq![a] + x);
        assert(q.drop_first() =~= shared.drop_first() + seq![b] + y);
        paths_go_by_the_first_name_that_differs(shared.drop_first(), a, b, x, y);
    }
}

/// A path from the root comes before any other, one from `.` before one from `..`, and
/// both before one from a name.
pub proof fn paths_go_by_where_they_begin(
    name: Seq<char>,
    w: Seq<Seq<char>>,
    x: Seq<Seq<char>>,
    y: Seq<Seq<char>>,
    z: Seq<Seq<char>>,
)
    requires
        path::is_name(name),
    ensures
        parts_before(seq![seq!['/']] + w, seq![seq!['.']] + x),
        parts_before(seq![seq!['.']] + x, seq![seq!['.', '.']] + y),
        parts_before(seq![seq!['.', '.']] + y, seq![name] + z),
{
    let root = seq!['/'];
    let here = seq!['.'];
    let up = seq!['.', '.'];
    assert(root[0] != here[0]);
    assert(here.len() != up.len());
    assert(root.len() != up.len());
    assert((seq![root] + w)[0] == root);
    assert((seq![here] + x)[0] == here);
    assert((seq![up] + y)[0] == up);
    assert((seq![name] + z)[0] == name);
}

} // verus!
