//! Character sequences: occurrences of a pattern, replacement of all of them,
//! and the passage between strings and vectors of characters.

use vstd::prelude::*;

verus! {

/// `pat` stands in `s` at index `i`.
pub open spec fn occurs_at(s: Seq<char>, pat: Seq<char>, i: int) -> bool {
    0 <= i && i + pat.len() <= s.len() && s.subrange(i, i + pat.len()) == pat
}

/// `pat` stands somewhere in `s`.
pub open spec fn contains(s: Seq<char>, pat: Seq<char>) -> bool {
    exists|i: int| occurs_at(s, pat, i)
}

/// `s` with every occurrence of `pat` replaced by `rep`, scanning from the left
/// and resuming after each replaced occurrence. With an empty pattern nothing
/// is replaced.
pub open spec fn replace_all(s: Seq<char>, pat: Seq<char>, rep: Seq<char>) -> Seq<char>
    decreases s.len(),
{
    if pat.len() == 0 || s.len() < pat.len() {
        s
    } else if s.subrange(0, pat.len() as int) == pat {
        rep + replace_all(s.subrange(pat.len() as int, s.len() as int), pat, rep)
    } else {
        seq![s[0]] + replace_all(s.subrange(1, s.len() as int), pat, rep)
    }
}

/// `s` with every `c` replaced by `rep`.
pub open spec fn replace_char(s: Seq<char>, c: char, rep: Seq<char>) -> Seq<char>
    decreases s.len(),
{
    if s.len() == 0 {
        s
    } else if s.last() == c {
        replace_char(s.drop_last(), c, rep) + rep
    } else {
        replace_char(s.drop_last(), c, rep).push(s.last())
    }
}

/// One of `a` and `b` begins with the other.
pub open spec fn overlap(a: Seq<char>, b: Seq<char>) -> bool {
    if a.len() <= b.len() {
        b.subrange(0, a.len() as int) == a
    } else {
        a.subrange(0, b.len() as int) == b
    }
}

/// `rep` is not empty, and wherever `rep` is inserted in a text, no occurrence
/// of `q` can touch it: no tail of `q` begins with `rep` or begins `rep`, and no
/// tail of `rep` begins with `q` or begins `q`.
pub open spec fn apart(rep: Seq<char>, q: Seq<char>) -> bool {
    &&& rep.len() > 0
    &&& forall|k: int| 0 <= k < q.len() ==> !overlap(#[trigger] q.skip(k), rep)
    &&& forall|j: int| 0 <= j < rep.len() ==> !overlap(#[trigger] rep.skip(j), q)
}

/// A text in which `pat` does not occur is left as it is.
pub proof fn lemma_replace_absent(s: Seq<char>, pat: Seq<char>, rep: Seq<char>)
    requires
        !contains(s, pat),
    ensures
        replace_all(s, pat, rep) == s,
    decreases s.len(),
{
    if pat.len() == 0 || s.len() < pat.len() {
    } else {
        assert(!occurs_at(s, pat, 0));
        let rest = s.subrange(1, s.len() as int);
        assert forall|i: int| !occurs_at(rest, pat, i) by {
            if occurs_at(rest, pat, i) {
                assert(s.subrange(i + 1, i + 1 + pat.len()) =~= rest.subrange(i, i + pat.len()));
                assert(occurs_at(s, pat, i + 1));
            }
        }
        lemma_replace_absent(rest, pat, rep);
        assert(seq![s[0]] + rest =~= s);
    }
}

/// A replaced text is no longer than its source where `rep` is no longer than
/// `pat`, and shorter where `rep` is shorter and `pat` occurs.
pub proof fn lemma_replace_shortens(s: Seq<char>, pat: Seq<char>, rep: Seq<char>)
    requires
        0 < pat.len(),
        rep.len() <= pat.len(),
    ensures
        replace_all(s, pat, rep).len() <= s.len(),
        rep.len() < pat.len() && contains(s, pat) ==> replace_all(s, pat, rep).len() < s.len(),
    decreases s.len(),
{
    if s.len() < pat.len() {
        assert forall|i: int| !occurs_at(s, pat, i) by {}
    } else if s.subrange(0, pat.len() as int) == pat {
        lemma_replace_shortens(s.subrange(pat.len() as int, s.len() as int), pat, rep);
    } else {
        let rest = s.subrange(1, s.len() as int);
        lemma_replace_shortens(rest, pat, rep);
        if contains(s, pat) {
            let i = choose|i: int| occurs_at(s, pat, i);
            assert(i != 0);
            assert(rest.subrange(i - 1, i - 1 + pat.len()) =~= s.subrange(i, i + pat.len()));
            assert(occurs_at(rest, pat, i - 1));
        }
    }
}

/// Where `pat` stands at none of the first `k` indices, those `k` characters
/// are kept and the replacement goes on behind them.
pub proof fn lemma_replace_skips(s: Seq<char>, pat: Seq<char>, rep: Seq<char>, k: int)
    requires
        pat.len() > 0,
        0 <= k <= s.len(),
        forall|i: int| 0 <= i < k ==> !occurs_at(s, pat, i),
    ensures
        replace_all(s, pat, rep) == s.subrange(0, k) + replace_all(s.skip(k), pat, rep),
    decreases k,
{
    if k == 0 {
        assert(s.skip(0) =~= s);
        assert(s.subrange(0, 0) + replace_all(s, pat, rep) =~= replace_all(s, pat, rep));
    } else {
        assert(!occurs_at(s, pat, 0));
        let rest = s.subrange(1, s.len() as int);
        if s.len() < pat.len() {
            assert(s.subrange(0, k) + s.skip(k) =~= s);
        } else {
            assert forall|i: int| 0 <= i < k - 1 implies !occurs_at(rest, pat, i) by {
                if occurs_at(rest, pat, i) {
                    assert(s.subrange(i + 1, i + 1 + pat.len()) =~= rest.subrange(
                        i,
                        i + pat.len(),
                    ));
                    assert(occurs_at(s, pat, i + 1));
                }
            }
            lemma_replace_skips(rest, pat, rep, k - 1);
            assert(rest.skip(k - 1) =~= s.skip(k));
            let tail = replace_all(s.skip(k), pat, rep);
            assert(seq![s[0]] + (rest.subrange(0, k - 1) + tail) =~= s.subrange(0, k) + tail);
        }
    }
}

/// An occurrence of `q` outlasts the replacement of `pat`, where no `pat` can
/// touch it: `q` holds nowhere the first character of `pat`, and begins with
/// none of the later ones.
pub proof fn lemma_replace_keeps_occurrence(
    s: Seq<char>,
    pat: Seq<char>,
    rep: Seq<char>,
    q: Seq<char>,
    p: int,
)
    requires
        pat.len() > 0,
        q.len() > 0,
        occurs_at(s, q, p),
        forall|x: int| 0 <= x < q.len() ==> q[x] != pat[0],
        forall|y: int| 1 <= y < pat.len() ==> pat[y] != q[0],
    ensures
        contains(replace_all(s, pat, rep), q),
    decreases s.len(),
{
    let r = replace_all(s, pat, rep);
    assert forall|x: int| 0 <= x < q.len() implies s[p + x] == q[x] by {
        assert(s.subrange(p, p + q.len())[x] == q[x]);
    }
    if p == 0 {
        assert forall|i: int| 0 <= i < q.len() implies !occurs_at(s, pat, i) by {
            if occurs_at(s, pat, i) {
                assert(s.subrange(i, i + pat.len())[0] == pat[0]);
                assert(s[0 + i] == q[i]);
            }
        }
        lemma_replace_skips(s, pat, rep, q.len() as int);
        assert(r.subrange(0, q.len() as int) =~= s.subrange(0, q.len() as int));
        assert(occurs_at(r, q, 0));
    } else if s.len() < pat.len() {
        assert(occurs_at(r, q, p));
    } else if s.subrange(0, pat.len() as int) == pat {
        let rest = s.subrange(pat.len() as int, s.len() as int);
        if p < pat.len() {
            assert(s.subrange(0, pat.len() as int)[p] == pat[p]);
            assert(s[p + 0] == q[0]);
        }
        assert(rest.subrange(p - pat.len(), p - pat.len() + q.len()) =~= s.subrange(
            p,
            p + q.len(),
        ));
        assert(occurs_at(rest, q, p - pat.len()));
        lemma_replace_keeps_occurrence(rest, pat, rep, q, p - pat.len());
        let tail = replace_all(rest, pat, rep);
        let at = choose|at: int| occurs_at(tail, q, at);
        assert(r.subrange(at + rep.len(), at + rep.len() + q.len()) =~= tail.subrange(
            at,
            at + q.len(),
        ));
        assert(occurs_at(r, q, at + rep.len()));
    } else {
        let rest = s.subrange(1, s.len() as int);
        assert(rest.subrange(p - 1, p - 1 + q.len()) =~= s.subrange(p, p + q.len()));
        assert(occurs_at(rest, q, p - 1));
        lemma_replace_keeps_occurrence(rest, pat, rep, q, p - 1);
        let tail = replace_all(rest, pat, rep);
        let at = choose|at: int| occurs_at(tail, q, at);
        assert(r.subrange(at + 1, at + 1 + q.len()) =~= tail.subrange(at, at + q.len()));
        assert(occurs_at(r, q, at + 1));
    }
}

/// Where `a` followed by `b` occurs, `a` occurs.
pub proof fn lemma_contains_front(s: Seq<char>, a: Seq<char>, b: Seq<char>)
    requires
        contains(s, a + b),
    ensures
        contains(s, a),
{
    let i = choose|i: int| occurs_at(s, a + b, i);
    assert(s.subrange(i, i + a.len()) =~= s.subrange(i, i + (a + b).len()).subrange(
        0,
        a.len() as int,
    ));
    assert((a + b).subrange(0, a.len() as int) =~= a);
    assert(occurs_at(s, a, i));
}

/// A text `w` at the start of a replaced text either stands at the start of the
/// source as well, or runs into an inserted `rep`.
pub proof fn lemma_replaced_front(s: Seq<char>, pat: Seq<char>, rep: Seq<char>, w: Seq<char>)
    requires
        pat.len() > 0,
        occurs_at(replace_all(s, pat, rep), w, 0),
    ensures
        occurs_at(s, w, 0) || exists|k: int| 0 <= k < w.len() && overlap(#[trigger] w.skip(k), rep),
    decreases s.len(),
{
    let r = replace_all(s, pat, rep);
    if w.len() == 0 {
        assert(s.subrange(0, 0) =~= w);
    } else if s.len() < pat.len() {
    } else if s.subrange(0, pat.len() as int) == pat {
        assert(w.skip(0) =~= w);
        if w.len() <= rep.len() {
            assert(rep.subrange(0, w.len() as int) =~= r.subrange(0, w.len() as int));
        } else {
            assert(w.subrange(0, rep.len() as int) =~= rep);
        }
        assert(overlap(w.skip(0), rep));
    } else {
        let rest = s.subrange(1, s.len() as int);
        let tail = replace_all(rest, pat, rep);
        assert(r == seq![s[0]] + tail);
        assert(w[0] == r.subrange(0, w.len() as int)[0]);
        assert(tail.subrange(0, w.len() - 1) =~= w.skip(1)) by {
            assert forall|x: int| 0 <= x < w.len() - 1 implies tail[x] == w.skip(1)[x] by {
                assert(r.subrange(0, w.len() as int)[x + 1] == w[x + 1]);
            }
        }
        lemma_replaced_front(rest, pat, rep, w.skip(1));
        if occurs_at(rest, w.skip(1), 0) {
            assert(s.subrange(0, w.len() as int) =~= w) by {
                assert forall|x: int| 0 <= x < w.len() implies s[x] == w[x] by {
                    if x > 0 {
                        assert(rest.subrange(0, w.len() - 1)[x - 1] == w.skip(1)[x - 1]);
                    }
                }
            }
        } else {
            let k = choose|k: int| 0 <= k < w.skip(1).len() && overlap(#[trigger] w.skip(1).skip(k), rep);
            assert(w.skip(1).skip(k) =~= w.skip(k + 1));
            assert(overlap(w.skip(k + 1), rep));
        }
    }
}

/// Replacing `pat` by `rep` leaves no occurrence of `q`, where `rep` stays
/// apart from `q` and `q` is the pattern itself or did not occur before.
pub proof fn lemma_replace_keeps_out(s: Seq<char>, pat: Seq<char>, rep: Seq<char>, q: Seq<char>)
    requires
        pat.len() > 0,
        apart(rep, q),
        q == pat || !contains(s, q),
    ensures
        !contains(replace_all(s, pat, rep), q),
    decreases s.len(),
{
    let r = replace_all(s, pat, rep);
    assert(q.len() > 0) by {
        if q.len() == 0 {
            assert(rep.skip(0).subrange(0, 0) =~= q);
            assert(overlap(rep.skip(0), q));
        }
    }
    if s.len() < pat.len() {
    } else if s.subrange(0, pat.len() as int) == pat {
        let rest = s.subrange(pat.len() as int, s.len() as int);
        let tail = replace_all(rest, pat, rep);
        if q != pat {
            assert forall|i: int| !occurs_at(rest, q, i) by {
                if occurs_at(rest, q, i) {
                    assert(s.subrange(i + pat.len(), i + pat.len() + q.len()) =~= rest.subrange(
                        i,
                        i + q.len(),
                    ));
                    assert(occurs_at(s, q, i + pat.len()));
                }
            }
        }
        lemma_replace_keeps_out(rest, pat, rep, q);
        assert forall|p: int| !occurs_at(r, q, p) by {
            if occurs_at(r, q, p) {
                if p >= rep.len() {
                    assert(tail.subrange(p - rep.len(), p - rep.len() + q.len()) =~= r.subrange(
                        p,
                        p + q.len(),
                    ));
                    assert(occurs_at(tail, q, p - rep.len()));
                } else {
                    let cut = rep.skip(p);
                    if cut.len() <= q.len() {
                        assert(q.subrange(0, cut.len() as int) =~= cut) by {
                            assert forall|x: int| 0 <= x < cut.len() implies q[x] == cut[x] by {
                                assert(r.subrange(p, p + q.len())[x] == q[x]);
                            }
                        }
                    } else {
                        assert(cut.subrange(0, q.len() as int) =~= q) by {
                            assert forall|x: int| 0 <= x < q.len() implies q[x] == cut[x] by {
                                assert(r.subrange(p, p + q.len())[x] == q[x]);
                            }
                        }
                    }
                    assert(overlap(rep.skip(p), q));
                }
            }
        }
    } else {
        let rest = s.subrange(1, s.len() as int);
        let tail = replace_all(rest, pat, rep);
        if q != pat {
            assert forall|i: int| !occurs_at(rest, q, i) by {
                if occurs_at(rest, q, i) {
                    assert(s.subrange(i + 1, i + 1 + q.len()) =~= rest.subrange(i, i + q.len()));
                    assert(occurs_at(s, q, i + 1));
                }
            }
        }
        lemma_replace_keeps_out(rest, pat, rep, q);
        assert forall|p: int| !occurs_at(r, q, p) by {
            if occurs_at(r, q, p) {
                if p >= 1 {
                    assert(tail.subrange(p - 1, p - 1 + q.len()) =~= r.subrange(p, p + q.len()));
                    assert(occurs_at(tail, q, p - 1));
                } else {
                    let w = q.skip(1);
                    assert(tail.subrange(0, w.len() as int) =~= w) by {
                        assert forall|x: int| 0 <= x < w.len() implies tail[x] == w[x] by {
                            assert(r.subrange(0, q.len() as int)[x + 1] == q[x + 1]);
                        }
                    }
                    assert(occurs_at(tail, w, 0));
                    lemma_replaced_front(rest, pat, rep, w);
                    if occurs_at(rest, w, 0) {
                        assert(s.subrange(0, q.len() as int) =~= q) by {
                            assert forall|x: int| 0 <= x < q.len() implies s[x] == q[x] by {
                                if x > 0 {
                                    assert(rest.subrange(0, w.len() as int)[x - 1] == w[x - 1]);
                                } else {
                                    assert(r.subrange(0, q.len() as int)[0] == q[0]);
                                }
                            }
                        }
                        assert(occurs_at(s, q, 0));
                    } else {
                        let k = choose|k: int| 0 <= k < w.len() && overlap(#[trigger] w.skip(k), rep);
                        assert(w.skip(k) =~= q.skip(k + 1));
                        assert(overlap(q.skip(k + 1), rep));
                    }
                }
            }
        }
    }
}

/// `String::push` appends the one character `c` at the end of the string.
pub assume_specification[ String::push ](s: &mut String, c: char)
    ensures
        final(s)@ == old(s)@.push(c),
;

/// The string made of the characters of `v`, in order.
pub fn string_of(v: &Vec<char>) -> (out: String)
    ensures
        out@ == v@,
{
    let mut out = String::new();
    let mut i: usize = 0;
    while i < v.len()
        invariant
            i <= v.len(),
            out@ == v@.subrange(0, i as int),
        decreases v.len() - i,
    {
        out.push(v[i]);
        i += 1;
        proof {
            assert(v@.subrange(0, i as int) =~= v@.subrange(0, i - 1).push(v@[i - 1]));
        }
    }
    proof {
        assert(v@.subrange(0, v.len() as int) =~= v@);
    }
    out
}

/// Appends the characters of `s` to `out`.
pub fn push_str_chars(out: &mut Vec<char>, s: &str)
    ensures
        final(out)@ == old(out)@ + s@,
{
    let ghost start = out@;
    for c in it: s.chars()
        invariant
            it.seq() == s@,
            out@ == start + s@.subrange(0, it.index() as int),
    {
        out.push(c);
    }
}

/// The characters of `s`, in order.
pub fn chars_of(s: &str) -> (out: Vec<char>)
    ensures
        out@ == s@,
{
    let mut out: Vec<char> = Vec::new();
    push_str_chars(&mut out, s);
    out
}

/// Appends the characters of `src` to `out`.
pub fn push_chars(out: &mut Vec<char>, src: &Vec<char>)
    ensures
        final(out)@ == old(out)@ + src@,
{
    let ghost start = out@;
    let mut i: usize = 0;
    while i < src.len()
        invariant
            i <= src.len(),
            out@ == start + src@.subrange(0, i as int),
        decreases src.len() - i,
    {
        out.push(src[i]);
        i += 1;
    }
}

/// Whether `pat` stands in `src` at index `i`.
pub fn matches_at(src: &Vec<char>, pat: &Vec<char>, i: usize) -> (b: bool)
    ensures
        b == occurs_at(src@, pat@, i as int),
{
    if i > src.len() || pat.len() > src.len() - i {
        return false;
    }
    let mut j: usize = 0;
    while j < pat.len()
        invariant
            j <= pat.len(),
            i + pat.len() <= src.len(),
            forall|k: int| 0 <= k < j ==> src@[i + k] == pat@[k],
        decreases pat.len() - j,
    {
        if src[i + j] != pat[j] {
            proof {
                assert(src@.subrange(i as int, i + pat.len())[j as int] == src@[i + j]);
            }
            return false;
        }
        j += 1;
    }
    proof {
        assert(src@.subrange(i as int, i + pat.len()) =~= pat@);
    }
    true
}

/// Whether one of `b` and the tail of `a` from index `i` begins with the other.
pub fn overlaps_from(a: &Vec<char>, i: usize, b: &Vec<char>) -> (r: bool)
    requires
        i <= a.len(),
    ensures
        r == overlap(a@.skip(i as int), b@),
{
    let left = a.len() - i;
    let n = if left <= b.len() {
        left
    } else {
        b.len()
    };
    let ghost tail = a@.skip(i as int);
    let mut j: usize = 0;
    while j < n
        invariant
            j <= n,
            i + n <= a.len(),
            n <= b.len(),
            n == left || n == b.len(),
            left == a.len() - i,
            tail == a@.skip(i as int),
            forall|x: int| 0 <= x < j ==> tail[x] == b@[x],
        decreases n - j,
    {
        if a[i + j] != b[j] {
            proof {
                assert(tail[j as int] == a@[i + j]);
                if overlap(tail, b@) {
                    if tail.len() <= b@.len() {
                        assert(b@.subrange(0, tail.len() as int)[j as int] == tail[j as int]);
                    } else {
                        assert(tail.subrange(0, b@.len() as int)[j as int] == b@[j as int]);
                    }
                }
            }
            return false;
        }
        j += 1;
    }
    proof {
        if tail.len() <= b@.len() {
            assert(b@.subrange(0, tail.len() as int) =~= tail);
        } else {
            assert(tail.subrange(0, b@.len() as int) =~= b@);
        }
    }
    true
}

/// Whether `rep` stays apart from `q`.
pub fn stays_apart(rep: &Vec<char>, q: &Vec<char>) -> (r: bool)
    ensures
        r == apart(rep@, q@),
{
    if rep.len() == 0 {
        return false;
    }
    let mut k: usize = 0;
    while k < q.len()
        invariant
            k <= q.len(),
            forall|x: int| 0 <= x < k ==> !overlap(#[trigger] q@.skip(x), rep@),
        decreases q.len() - k,
    {
        if overlaps_from(q, k, rep) {
            return false;
        }
        k += 1;
    }
    let mut j: usize = 0;
    while j < rep.len()
        invariant
            j <= rep.len(),
            forall|x: int| 0 <= x < q.len() ==> !overlap(#[trigger] q@.skip(x), rep@),
            forall|x: int| 0 <= x < j ==> !overlap(#[trigger] rep@.skip(x), q@),
        decreases rep.len() - j,
    {
        if overlaps_from(rep, j, q) {
            return false;
        }
        j += 1;
    }
    true
}

/// Replaces every occurrence of `pat` in `src` by `rep`.
pub fn replace_chars(src: &Vec<char>, pat: &Vec<char>, rep: &Vec<char>) -> (out: Vec<char>)
    ensures
        out@ == replace_all(src@, pat@, rep@),
{
    let n = src.len();
    let m = pat.len();
    let mut out: Vec<char> = Vec::new();
    let mut i: usize = 0;
    proof {
        assert(src@.subrange(0, n as int) =~= src@);
        assert(out@ + replace_all(src@, pat@, rep@) =~= replace_all(src@, pat@, rep@));
    }
    while i < n
        invariant
            i <= n,
            n == src.len(),
            m == pat.len(),
            out@ + replace_all(src@.subrange(i as int, n as int), pat@, rep@) == replace_all(
                src@,
                pat@,
                rep@,
            ),
        decreases n - i,
    {
        let ghost rest = src@.subrange(i as int, n as int);
        if m > 0 && matches_at(src, pat, i) {
            proof {
                assert(rest.subrange(0, m as int) =~= pat@);
                assert(rest.subrange(m as int, rest.len() as int) =~= src@.subrange(
                    i + m,
                    n as int,
                ));
                let tail = replace_all(src@.subrange(i + m, n as int), pat@, rep@);
                assert((out@ + rep@) + tail =~= out@ + (rep@ + tail));
            }
            push_chars(&mut out, rep);
            i += m;
        } else {
            proof {
                let next = src@.subrange(i + 1, n as int);
                assert(rest.subrange(1, rest.len() as int) =~= next);
                if m > 0 && rest.len() >= m {
                    assert(rest.subrange(0, m as int) =~= src@.subrange(i as int, i + m));
                } else {
                    assert(replace_all(next, pat@, rep@) == next);
                    assert(rest =~= seq![rest[0]] + next);
                }
                let tail = replace_all(next, pat@, rep@);
                assert(out@.push(src@[i as int]) + tail =~= out@ + (seq![rest[0]] + tail));
            }
            out.push(src[i]);
            i += 1;
        }
    }
    proof {
        assert(src@.subrange(n as int, n as int) =~= Seq::<char>::empty());
        assert(out@ + Seq::<char>::empty() =~= out@);
    }
    out
}

} // verus!
