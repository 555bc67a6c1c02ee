//! Byte-string helpers: canonical module names are lowercased, trimmed byte
//! strings, and module bodies are split into lines on the newline byte.

use vstd::prelude::*;

verus! {

/// ASCII lowercase of one byte.
pub open spec fn lower_byte(b: u8) -> u8 {
    if 65 <= b && b <= 90 {
        (b + 32) as u8
    } else {
        b
    }
}

/// ASCII lowercase of a byte string.
pub open spec fn lower_seq(s: Seq<u8>) -> Seq<u8> {
    s.map_values(|b: u8| lower_byte(b))
}

/// ASCII whitespace: space, tab, line feed, vertical tab, form feed, carriage return.
pub open spec fn is_space(b: u8) -> bool {
    b == 32 || (9 <= b && b <= 13)
}

pub open spec fn trim_front(s: Seq<u8>) -> Seq<u8>
    decreases s.len(),
{
    if s.len() > 0 && is_space(s[0]) {
        trim_front(s.drop_first())
    } else {
        s
    }
}

pub open spec fn trim_back(s: Seq<u8>) -> Seq<u8>
    decreases s.len(),
{
    if s.len() > 0 && is_space(s.last()) {
        trim_back(s.drop_last())
    } else {
        s
    }
}

pub open spec fn trim_seq(s: Seq<u8>) -> Seq<u8> {
    trim_back(trim_front(s))
}

/// Canonical module name: lowercased, trimmed.
pub open spec fn canon_seq(s: Seq<u8>) -> Seq<u8> {
    lower_seq(trim_seq(s))
}

/// The views of a list of byte strings.
pub open spec fn views_of(s: Seq<Vec<u8>>) -> Seq<Seq<u8>> {
    s.map_values(|v: Vec<u8>| v@)
}

/// Membership of a name among a list of byte strings.
pub open spec fn name_in(l: Seq<Vec<u8>>, n: Seq<u8>) -> bool {
    exists|i: int| 0 <= i < l.len() && l[i]@ == n
}

/// Split on the newline byte, keeping every segment (an empty text is one
/// empty segment, as `split` gives it).
pub open spec fn split_acc(t: Seq<u8>, cur: Seq<u8>) -> Seq<Seq<u8>>
    decreases t.len(),
{
    if t.len() == 0 {
        seq![cur]
    } else if t[0] == 10 {
        seq![cur] + split_acc(t.drop_first(), seq![])
    } else {
        split_acc(t.drop_first(), cur.push(t[0]))
    }
}

pub open spec fn split_lines(t: Seq<u8>) -> Seq<Seq<u8>> {
    split_acc(t, seq![])
}

proof fn lemma_trim_front_skip(s: Seq<u8>, i: int)
    requires
        0 <= i <= s.len(),
        forall|k: int| 0 <= k < i ==> is_space(s[k]),
        i == s.len() || !is_space(s[i]),
    ensures
        trim_front(s) == s.subrange(i, s.len() as int),
    decreases i,
{
    if i == 0 {
        assert(s.subrange(0, s.len() as int) =~= s);
    } else {
        assert(is_space(s[0]));
        let d = s.drop_first();
        lemma_trim_front_skip(d, i - 1);
        assert(d.subrange(i - 1, d.len() as int) =~= s.subrange(i, s.len() as int));
    }
}

proof fn lemma_trim_back_skip(s: Seq<u8>, j: int)
    requires
        0 <= j <= s.len(),
        forall|k: int| j <= k < s.len() ==> is_space(s[k]),
        j == 0 || !is_space(s[j - 1]),
    ensures
        trim_back(s) == s.subrange(0, j),
    decreases s.len() - j,
{
    if j == s.len() {
        if s.len() == 0 {
            assert(s.subrange(0, 0) =~= s);
        } else {
            assert(!is_space(s.last()));
            assert(s.subrange(0, s.len() as int) =~= s);
        }
    } else {
        assert(is_space(s.last()));
        let d = s.drop_last();
        lemma_trim_back_skip(d, j);
        assert(d.subrange(0, j) =~= s.subrange(0, j));
    }
}

/// Exec test for ASCII whitespace.
pub fn is_space_x(b: u8) -> (r: bool)
    ensures
        r == is_space(b),
{
    b == 32 || (9 <= b && b <= 13)
}

/// Canonicalize a name: trim ASCII whitespace at both ends, lowercase ASCII letters.
pub fn lower_trim(v: &Vec<u8>) -> (r: Vec<u8>)
    ensures
        r@ == canon_seq(v@),
{
    let n = v.len();
    let mut start: usize = 0;
    while start < n && is_space_x(v[start])
        invariant
            0 <= start <= n,
            n == v@.len(),
            forall|k: int| 0 <= k < start ==> is_space(v@[k]),
        decreases n - start,
    {
        start = start + 1;
    }
    let mut end: usize = n;
    while end > start && is_space_x(v[end - 1])
        invariant
            start <= end <= n,
            n == v@.len(),
            forall|k: int| 0 <= k < start ==> is_space(v@[k]),
            start == n || !is_space(v@[start as int]),
            forall|k: int| end <= k < n ==> is_space(v@[k]),
        decreases end,
    {
        end = end - 1;
    }
    proof {
        lemma_trim_front_skip(v@, start as int);
        let f = v@.subrange(start as int, n as int);
        if end == start {
            lemma_trim_back_skip(f, 0);
        } else {
            lemma_trim_back_skip(f, end - start);
        }
        assert(f.subrange(0, end - start) =~= v@.subrange(start as int, end as int));
    }
    let mut r: Vec<u8> = Vec::new();
    let mut k: usize = start;
    while k < end
        invariant
            start <= k <= end <= n,
            n == v@.len(),
            trim_seq(v@) == v@.subrange(start as int, end as int),
            r@ == lower_seq(v@.subrange(start as int, k as int)),
        decreases end - k,
    {
        let b = v[k];
        let lb: u8 = if 65 <= b && b <= 90 {
            b + 32
        } else {
            b
        };
        r.push(lb);
        proof {
            assert(lower_seq(v@.subrange(start as int, k + 1)) =~= lower_seq(
                v@.subrange(start as int, k as int),
            ).push(lower_byte(v@[k as int])));
        }
        k = k + 1;
    }
    proof {
        assert(v@.subrange(start as int, end as int) == trim_seq(v@));
    }
    r
}

/// Byte-string equality.
pub fn bytes_eq(a: &Vec<u8>, b: &Vec<u8>) -> (r: bool)
    ensures
        r <==> a@ == b@,
{
    if a.len() != b.len() {
        return false;
    }
    let n = a.len();
    let mut i: usize = 0;
    while i < n
        invariant
            0 <= i <= n,
            n == a@.len(),
            n == b@.len(),
            forall|k: int| 0 <= k < i ==> a@[k] == b@[k],
        decreases n - i,
    {
        if a[i] != b[i] {
            return false;
        }
        i = i + 1;
    }
    proof {
        assert(a@ =~= b@);
    }
    true
}

/// A copy of a byte string.
pub fn clone_bytes(v: &Vec<u8>) -> (r: Vec<u8>)
    ensures
        r@ == v@,
{
    let mut r: Vec<u8> = Vec::new();
    let n = v.len();
    let mut i: usize = 0;
    while i < n
        invariant
            0 <= i <= n,
            n == v@.len(),
            r@ == v@.subrange(0, i as int),
        decreases n - i,
    {
        r.push(v[i]);
        proof {
            assert(v@.subrange(0, i + 1) =~= v@.subrange(0, i as int).push(v@[i as int]));
        }
        i = i + 1;
    }
    proof {
        assert(v@.subrange(0, n as int) =~= v@);
    }
    r
}

/// Whether a name occurs in a list of byte strings.
pub fn has_name(l: &Vec<Vec<u8>>, n: &Vec<u8>) -> (r: bool)
    ensures
        r <==> name_in(l@, n@),
{
    let m = l.len();
    let mut i: usize = 0;
    while i < m
        invariant
            0 <= i <= m,
            m == l@.len(),
            forall|k: int| 0 <= k < i ==> l@[k]@ != n@,
        decreases m - i,
    {
        if bytes_eq(&l[i], n) {
            return true;
        }
        i = i + 1;
    }
    false
}

/// Split a text into its lines, on the newline byte, keeping every segment.
pub fn split_lines_vec(t: &Vec<u8>) -> (r: Vec<Vec<u8>>)
    ensures
        views_of(r@) == split_lines(t@),
        r@.len() >= 1,
{
    let n = t.len();
    let mut lines: Vec<Vec<u8>> = Vec::new();
    let mut cur: Vec<u8> = Vec::new();
    let mut i: usize = 0;
    proof {
        assert(t@.subrange(0, n as int) =~= t@);
        assert(views_of(lines@) + split_acc(t@, cur@) =~= split_acc(t@, cur@));
    }
    while i < n
        invariant
            0 <= i <= n,
            n == t@.len(),
            split_lines(t@) == views_of(lines@) + split_acc(
                t@.subrange(i as int, n as int),
                cur@,
            ),
        decreases n - i,
    {
        let ghost rest = t@.subrange(i as int, n as int);
        proof {
            assert(rest.len() > 0);
            assert(rest[0] == t@[i as int]);
            assert(rest.drop_first() =~= t@.subrange(i + 1, n as int));
        }
        if t[i] == 10 {
            let done = cur;
            cur = Vec::new();
            lines.push(done);
            proof {
                assert(views_of(lines@) =~= views_of(lines@.drop_last()).push(
                    lines@.last()@,
                ));
                assert(split_lines(t@) =~= views_of(lines@) + split_acc(
                    t@.subrange(i + 1, n as int),
                    cur@,
                ));
            }
        } else {
            let b = t[i];
            cur.push(b);
        }
        i = i + 1;
    }
    proof {
        let rest = t@.subrange(n as int, n as int);
        assert(rest =~= Seq::<u8>::empty());
        assert(split_acc(rest, cur@) =~= seq![cur@]);
    }
    lines.push(cur);
    proof {
        assert(views_of(lines@) =~= views_of(lines@.drop_last()).push(lines@.last()@));
    }
    lines
}

/// Drop leading bytes satisfying a predicate.
pub open spec fn drop_while_front(s: Seq<u8>, p: spec_fn(u8) -> bool) -> Seq<u8>
    decreases s.len(),
{
    if s.len() > 0 && p(s[0]) {
        drop_while_front(s.drop_first(), p)
    } else {
        s
    }
}

/// Drop trailing bytes satisfying a predicate.
pub open spec fn drop_while_back(s: Seq<u8>, p: spec_fn(u8) -> bool) -> Seq<u8>
    decreases s.len(),
{
    if s.len() > 0 && p(s.last()) {
        drop_while_back(s.drop_last(), p)
    } else {
        s
    }
}

/// A byte string trimmed of a class of bytes at both ends.
pub open spec fn trim_by(s: Seq<u8>, p: spec_fn(u8) -> bool) -> Seq<u8> {
    drop_while_back(drop_while_front(s, p), p)
}

pub proof fn lemma_drop_front_skip(s: Seq<u8>, p: spec_fn(u8) -> bool, i: int)
    requires
        0 <= i <= s.len(),
        forall|k: int| 0 <= k < i ==> p(s[k]),
        i == s.len() || !p(s[i]),
    ensures
        drop_while_front(s, p) == s.subrange(i, s.len() as int),
    decreases i,
{
    if i == 0 {
        assert(s.subrange(0, s.len() as int) =~= s);
    } else {
        assert(p(s[0]));
        let d = s.drop_first();
        lemma_drop_front_skip(d, p, i - 1);
        assert(d.subrange(i - 1, d.len() as int) =~= s.subrange(i, s.len() as int));
    }
}

pub proof fn lemma_drop_back_skip(s: Seq<u8>, p: spec_fn(u8) -> bool, j: int)
    requires
        0 <= j <= s.len(),
        forall|k: int| j <= k < s.len() ==> p(s[k]),
        j == 0 || !p(s[j - 1]),
    ensures
        drop_while_back(s, p) == s.subrange(0, j),
    decreases s.len() - j,
{
    if j == s.len() {
        if s.len() == 0 {
            assert(s.subrange(0, 0) =~= s);
        } else {
            assert(!p(s.last()));
            assert(s.subrange(0, s.len() as int) =~= s);
        }
    } else {
        assert(p(s.last()));
        let d = s.drop_last();
        lemma_drop_back_skip(d, p, j);
        assert(d.subrange(0, j) =~= s.subrange(0, j));
    }
}

/// Append a byte string to another.
pub fn push_all(out: &mut Vec<u8>, l: &Vec<u8>)
    ensures
        final(out)@ == old(out)@ + l@,
{
    let n = l.len();
    let mut i: usize = 0;
    proof {
        assert(out@ + l@.subrange(0, 0) =~= out@);
    }
    while i < n
        invariant
            0 <= i <= n,
            n == l@.len(),
            out@ == old(out)@ + l@.subrange(0, i as int),
        decreases n - i,
    {
        out.push(l[i]);
        proof {
            assert(old(out)@ + l@.subrange(0, i + 1) =~= (old(out)@ + l@.subrange(
                0,
                i as int,
            )).push(l@[i as int]));
        }
        i = i + 1;
    }
    proof {
        assert(l@.subrange(0, n as int) =~= l@);
    }
}

} // verus!
