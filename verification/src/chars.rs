use vstd::prelude::*;
use vstd::std_specs::iter::IteratorSpec;

verus! {

/// Relies on String::push: appends the given character to the end of the string.
pub assume_specification[ String::push ](s: &mut String, ch: char)
    ensures
        final(s)@ == old(s)@.push(ch),
;

/// The characters of a string slice, as an indexable vector.
pub fn chars_of(s: &str) -> (v: Vec<char>)
    ensures
        v@ == s@,
{
    broadcast use vstd::string::axiom_spec_iter, vstd::string::next_postcondition;

    let mut it = s.chars();
    let mut v: Vec<char> = Vec::new();
    loop
        invariant
            it.obeys_prophetic_iter_laws(),
            it.decrease() is Some,
            v@ + it.remaining() == s@,
        ensures
            v@ == s@,
        decreases it.decrease()->0,
    {
        match it.next() {
            Some(c) => {
                v.push(c);
            },
            None => {
                proof {
                    assert(v@ =~= v@ + it.remaining());
                }
                break;
            },
        }
    }
    v
}

/// A string owning exactly the given characters.
pub fn string_of(v: &Vec<char>) -> (s: String)
    ensures
        s@ == v@,
{
    let mut s = String::new();
    let mut i: usize = 0;
    while i < v.len()
        invariant
            i <= v.len(),
            s@ == v@.take(i as int),
        decreases v.len() - i,
    {
        s.push(v[i]);
        i = i + 1;
        proof {
            assert(v@.take(i as int) =~= v@.take(i - 1).push(v@[i - 1]));
        }
    }
    proof {
        assert(v@.take(v@.len() as int) =~= v@);
    }
    s
}

/// Whether two character vectors hold the same characters.
pub fn chars_eq(a: &Vec<char>, b: &Vec<char>) -> (r: bool)
    ensures
        r == (a@ == b@),
{
    if a.len() != b.len() {
        proof {
            assert(a@ != b@);
        }
        return false;
    }
    let mut i: usize = 0;
    while i < a.len()
        invariant
            i <= a.len(),
            a@.len() == b@.len(),
            forall|j: int| 0 <= j < i ==> a@[j] == b@[j],
        decreases a.len() - i,
    {
        if a[i] != b[i] {
            return false;
        }
        i = i + 1;
    }
    proof {
        assert(a@ =~= b@);
    }
    true
}

/// Whether `p` is a prefix of `s` starting at its first character.
pub open spec fn spec_starts_with(s: Seq<char>, p: Seq<char>) -> bool {
    p.len() <= s.len() && s.take(p.len() as int) == p
}

pub fn starts_with(s: &Vec<char>, p: &Vec<char>) -> (r: bool)
    ensures
        r == spec_starts_with(s@, p@),
{
    if p.len() > s.len() {
        return false;
    }
    let mut i: usize = 0;
    while i < p.len()
        invariant
            i <= p.len(),
            p@.len() <= s@.len(),
            forall|j: int| 0 <= j < i ==> s@[j] == p@[j],
        decreases p.len() - i,
    {
        if s[i] != p[i] {
            proof {
                assert(s@.take(p@.len() as int)[i as int] != p@[i as int]);
            }
            return false;
        }
        i = i + 1;
    }
    proof {
        assert(s@.take(p@.len() as int) =~= p@);
    }
    true
}

/// Whether the character `c` occurs in `s`.
pub open spec fn spec_contains_char(s: Seq<char>, c: char) -> bool {
    exists|i: int| 0 <= i < s.len() && s[i] == c
}

pub fn contains_char(s: &Vec<char>, c: char) -> (r: bool)
    ensures
        r == spec_contains_char(s@, c),
{
    let mut i: usize = 0;
    while i < s.len()
        invariant
            i <= s.len(),
            forall|j: int| 0 <= j < i ==> s@[j] != c,
        decreases s.len() - i,
    {
        if s[i] == c {
            return true;
        }
        i = i + 1;
    }
    false
}


/// The pieces of `s` between newline characters; always one more piece than
/// there are newlines, so an empty final piece follows a trailing newline.
pub open spec fn spec_split_lines(s: Seq<char>) -> Seq<Seq<char>>
    decreases s.len(),
{
    if s.len() == 0 {
        seq![Seq::empty()]
    } else if s.last() == '\n' {
        spec_split_lines(s.drop_last()) + seq![Seq::<char>::empty()]
    } else {
        let prev = spec_split_lines(s.drop_last());
        prev.update(prev.len() - 1, prev.last().push(s.last()))
    }
}

/// The split always yields at least one piece, and no piece holds a newline.
pub proof fn lemma_split_lines_shape(s: Seq<char>)
    ensures
        spec_split_lines(s).len() >= 1,
        forall|i: int, j: int|
            0 <= i < spec_split_lines(s).len() && 0 <= j < spec_split_lines(s)[i].len()
                ==> spec_split_lines(s)[i][j] != '\n',
    decreases s.len(),
{
    if s.len() > 0 {
        lemma_split_lines_shape(s.drop_last());
    }
}

/// The pieces joined back with newlines between them.
pub open spec fn spec_join_lines(parts: Seq<Seq<char>>) -> Seq<char>
    decreases parts.len(),
{
    if parts.len() == 0 {
        Seq::empty()
    } else if parts.len() == 1 {
        parts[0]
    } else {
        spec_join_lines(parts.drop_last()) + seq!['\n'] + parts.last()
    }
}

/// Splitting the join of newline-free pieces gives the pieces back.
pub proof fn lemma_split_join(parts: Seq<Seq<char>>)
    requires
        parts.len() >= 1,
        forall|i: int, j: int|
            0 <= i < parts.len() && 0 <= j < parts[i].len() ==> parts[i][j] != '\n',
    ensures
        spec_split_lines(spec_join_lines(parts)) == parts,
    decreases parts.len(),
{
    if parts.len() == 1 {
        lemma_split_single(parts[0]);
        assert(parts =~= seq![parts[0]]);
    } else {
        let front = parts.drop_last();
        assert(forall|i: int, j: int|
            0 <= i < front.len() && 0 <= j < front[i].len() ==> front[i][j] != '\n') by {
            assert(forall|i: int| 0 <= i < front.len() ==> front[i] == parts[i]);
        }
        lemma_split_join(front);
        lemma_split_append_nl(spec_join_lines(front));
        lemma_split_append_clean(spec_join_lines(front) + seq!['\n'], parts.last());
        assert(spec_join_lines(parts) == spec_join_lines(front) + seq!['\n'] + parts.last());
        assert((spec_join_lines(front) + seq!['\n']) + parts.last() =~= spec_join_lines(front)
            + seq!['\n'] + parts.last());
        let a = spec_split_lines(spec_join_lines(front) + seq!['\n']);
        assert(a == front + seq![Seq::<char>::empty()]);
        assert(a.last() == Seq::<char>::empty());
        assert(spec_split_lines(spec_join_lines(parts)) == a.update(
            a.len() - 1,
            Seq::<char>::empty() + parts.last(),
        ));
        assert(Seq::<char>::empty() + parts.last() =~= parts.last());
        assert(a.update(a.len() - 1, parts.last()) =~= parts);
    }
}

/// Splitting a newline-free string yields that one piece.
pub proof fn lemma_split_single(p: Seq<char>)
    requires
        forall|j: int| 0 <= j < p.len() ==> p[j] != '\n',
    ensures
        spec_split_lines(p) == seq![p],
    decreases p.len(),
{
    if p.len() == 0 {
        assert(spec_split_lines(p) =~~= seq![p]);
    } else {
        assert(forall|j: int| 0 <= j < p.drop_last().len() ==> p.drop_last()[j] != '\n');
        lemma_split_single(p.drop_last());
        assert(seq![p.drop_last()].update(0, p.drop_last().push(p.last())) =~= seq![
            p.drop_last().push(p.last()),
        ]);
        assert(p.drop_last().push(p.last()) =~= p);
    }
}

/// A trailing newline opens one more, empty, piece.
pub proof fn lemma_split_append_nl(s: Seq<char>)
    ensures
        spec_split_lines(s + seq!['\n']) == spec_split_lines(s) + seq![Seq::<char>::empty()],
{
    assert((s + seq!['\n']).last() == '\n');
    assert((s + seq!['\n']).drop_last() =~= s);
}

/// Newline-free characters extend the final piece.
pub proof fn lemma_split_append_clean(s: Seq<char>, t: Seq<char>)
    requires
        forall|j: int| 0 <= j < t.len() ==> t[j] != '\n',
    ensures
        spec_split_lines(s + t) == spec_split_lines(s).update(
            spec_split_lines(s).len() - 1,
            spec_split_lines(s).last() + t,
        ),
    decreases t.len(),
{
    lemma_split_lines_shape(s);
    if t.len() == 0 {
        assert(s + t =~= s);
        assert(spec_split_lines(s).last() + t =~= spec_split_lines(s).last());
        assert(spec_split_lines(s).update(
            spec_split_lines(s).len() - 1,
            spec_split_lines(s).last(),
        ) =~= spec_split_lines(s));
    } else {
        assert(forall|j: int| 0 <= j < t.drop_last().len() ==> t.drop_last()[j] != '\n');
        lemma_split_append_clean(s, t.drop_last());
        assert((s + t).last() == t.last());
        assert((s + t).last() != '\n');
        assert((s + t).drop_last() =~= s + t.drop_last());
        let prev = spec_split_lines(s + t.drop_last());
        assert(spec_split_lines(s + t) == prev.update(prev.len() - 1, prev.last().push(t.last())));
        let base = spec_split_lines(s);
        assert(prev == base.update(base.len() - 1, base.last() + t.drop_last()));
        assert(prev.last() == base.last() + t.drop_last());
        assert((base.last() + t.drop_last()).push(t.last()) =~= base.last() + t);
        assert(prev.update(prev.len() - 1, base.last() + t) =~= base.update(
            base.len() - 1,
            base.last() + t,
        ));
    }
}

/// The character sequences a vector of vectors stands for.
pub open spec fn spec_deep(s: Seq<Vec<char>>) -> Seq<Seq<char>> {
    Seq::new(s.len(), |i: int| s[i]@)
}

/// Splits `v` at newline characters.
pub fn split_lines(v: &Vec<char>) -> (r: Vec<Vec<char>>)
    ensures
        spec_deep(r@) == spec_split_lines(v@),
{
    let mut out: Vec<Vec<char>> = Vec::new();
    let mut cur: Vec<char> = Vec::new();
    let mut i: usize = 0;
    while i < v.len()
        invariant
            i <= v.len(),
            spec_deep(out@).push(cur@) == spec_split_lines(v@.take(i as int)),
        decreases v.len() - i,
    {
        let ghost pre = spec_deep(out@).push(cur@);
        if v[i] == '\n' {
            let ghost old_out = out@;
            out.push(cur);
            cur = Vec::new();
            proof {
                assert(v@.take(i + 1).drop_last() =~= v@.take(i as int));
                assert(spec_split_lines(v@.take(i + 1)) == pre + seq![Seq::<char>::empty()]);
                assert(spec_deep(out@) =~= pre);
                assert(spec_deep(out@).push(cur@) =~= pre + seq![Seq::<char>::empty()]);
            }
        } else {
            let c = v[i];
            cur.push(c);
            proof {
                assert(v@.take(i + 1).drop_last() =~= v@.take(i as int));
                assert(v@.take(i + 1).last() == v@[i as int]);
                assert(spec_split_lines(v@.take(i + 1)) == pre.update(
                    pre.len() - 1,
                    pre.last().push(v@[i as int]),
                ));
                assert(spec_deep(out@).push(cur@) =~= pre.update(
                    pre.len() - 1,
                    pre.last().push(v@[i as int]),
                ));
            }
        }
        i = i + 1;
    }
    let ghost old_out = out@;
    out.push(cur);
    proof {
        assert(v@.take(v@.len() as int) =~= v@);
        assert(spec_deep(out@) =~= spec_deep(old_out).push(cur@));
    }
    out
}

/// Joins pieces with a newline between each pair.
pub fn join_lines(parts: &Vec<Vec<char>>) -> (r: Vec<char>)
    requires
        parts@.len() >= 1,
    ensures
        r@ == spec_join_lines(spec_deep(parts@)),
{
    let ghost dv = spec_deep(parts@);
    let mut out: Vec<char> = Vec::new();
    let mut i: usize = 0;
    while i < parts.len()
        invariant
            i <= parts@.len(),
            parts@.len() >= 1,
            dv == spec_deep(parts@),
            i >= 1 ==> out@ == spec_join_lines(dv.take(i as int)),
            i == 0 ==> out@ == Seq::<char>::empty(),
        decreases parts.len() - i,
    {
        if i > 0 {
            out.push('\n');
        }
        let ghost mid = out@;
        let mut k: usize = 0;
        let p = &parts[i];
        proof {
            assert(mid + p@.take(0) =~= mid);
        }
        while k < p.len()
            invariant
                k <= p@.len(),
                out@ == mid + p@.take(k as int),
            decreases p.len() - k,
        {
            out.push(p[k]);
            k = k + 1;
            proof {
                assert(mid + p@.take(k as int) =~= (mid + p@.take(k - 1)).push(p@[k - 1]));
            }
        }
        proof {
            assert(p@.take(p@.len() as int) =~= p@);
            assert(dv[i as int] == parts@[i as int]@);
            if i == 0 {
                assert(out@ =~= dv[0]);
                assert(dv.take(1).len() == 1 && dv.take(1)[0] == dv[0]);
                assert(spec_join_lines(dv.take(1)) == dv[0]);
            } else {
                assert(dv.take(i + 1).drop_last() =~= dv.take(i as int));
                assert(dv.take(i + 1).last() == dv[i as int]);
                assert(dv.take(i + 1).len() >= 2);
                assert(out@ =~= spec_join_lines(dv.take(i as int)) + seq!['\n'] + dv[i as int]);
            }
        }
        i = i + 1;
    }
    proof {
        assert(dv.take(parts@.len() as int) =~= dv);
    }
    out
}

pub open spec fn spec_is_blank(c: char) -> bool {
    c == ' ' || c == '\t' || c == '\r'
}

/// `s` without leading and trailing blanks (spaces, tabs and carriage
/// returns).
pub open spec fn spec_trim(s: Seq<char>) -> Seq<char>
    decreases s.len(),
{
    if s.len() == 0 {
        s
    } else if spec_is_blank(s[0]) {
        spec_trim(s.drop_first())
    } else if spec_is_blank(s.last()) {
        spec_trim(s.drop_last())
    } else {
        s
    }
}

fn is_blank(c: char) -> (r: bool)
    ensures
        r == spec_is_blank(c),
{
    c == ' ' || c == '\t' || c == '\r'
}

/// The trimmed copy of `v`.
pub fn trim(v: &Vec<char>) -> (r: Vec<char>)
    ensures
        r@ == spec_trim(v@),
{
    let mut lo: usize = 0;
    let mut hi: usize = v.len();
    proof {
        assert(v@.subrange(0, v@.len() as int) =~= v@);
    }
    while lo < hi && is_blank(v[lo])
        invariant
            lo <= hi <= v@.len(),
            spec_trim(v@) == spec_trim(v@.subrange(lo as int, hi as int)),
        decreases hi - lo,
    {
        proof {
            let sub = v@.subrange(lo as int, hi as int);
            assert(sub.drop_first() =~= v@.subrange(lo + 1, hi as int));
        }
        lo = lo + 1;
    }
    while lo < hi && is_blank(v[hi - 1])
        invariant
            lo <= hi <= v@.len(),
            spec_trim(v@) == spec_trim(v@.subrange(lo as int, hi as int)),
            lo < hi ==> !spec_is_blank(v@[lo as int]),
        decreases hi - lo,
    {
        proof {
            let sub = v@.subrange(lo as int, hi as int);
            assert(sub.drop_last() =~= v@.subrange(lo as int, hi - 1));
        }
        hi = hi - 1;
    }
    let r = crate::chars::subvec(v, lo, hi);
    proof {
        let sub = v@.subrange(lo as int, hi as int);
        assert(spec_trim(sub) == sub);
    }
    r
}

/// The characters of `v` from `lo` to `hi`.
pub fn subvec(v: &Vec<char>, lo: usize, hi: usize) -> (r: Vec<char>)
    requires
        lo <= hi <= v@.len(),
    ensures
        r@ == v@.subrange(lo as int, hi as int),
{
    let mut r: Vec<char> = Vec::new();
    let mut j: usize = lo;
    while j < hi
        invariant
            lo <= j <= hi <= v@.len(),
            r@ == v@.subrange(lo as int, j as int),
        decreases hi - j,
    {
        r.push(v[j]);
        j = j + 1;
        proof {
            assert(v@.subrange(lo as int, j as int) =~= v@.subrange(lo as int, j - 1).push(
                v@[j - 1],
            ));
        }
    }
    r
}

} // verus!
