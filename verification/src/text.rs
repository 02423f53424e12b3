//! Character-sequence toolkit shared by the rest of the library: conversions
//! between `str`/`String` and `Vec<char>`, and trimming by Unicode white space.

use vstd::prelude::*;

verus! {

/// The Unicode `White_Space` property, which `char::is_whitespace` and
/// `str::trim` follow.
pub open spec fn is_ws(c: char) -> bool {
    let u = c as u32;
    ||| 0x9 <= u && u <= 0xd
    ||| u == 0x20
    ||| u == 0x85
    ||| u == 0xa0
    ||| u == 0x1680
    ||| 0x2000 <= u && u <= 0x200a
    ||| u == 0x2028
    ||| u == 0x2029
    ||| u == 0x202f
    ||| u == 0x205f
    ||| u == 0x3000
}

/// `s` with its leading white space removed.
pub open spec fn trim_start(s: Seq<char>) -> Seq<char>
    decreases s.len(),
{
    if s.len() > 0 && is_ws(s[0]) {
        trim_start(s.drop_first())
    } else {
        s
    }
}

/// `s` with its trailing white space removed.
pub open spec fn trim_end(s: Seq<char>) -> Seq<char>
    decreases s.len(),
{
    if s.len() > 0 && is_ws(s.last()) {
        trim_end(s.drop_last())
    } else {
        s
    }
}

/// `s` with white space removed at both ends, as `str::trim` does.
pub open spec fn trim(s: Seq<char>) -> Seq<char> {
    trim_end(trim_start(s))
}

pub fn char_is_ws(c: char) -> (r: bool)
    ensures
        r == is_ws(c),
{
    let u = c as u32;
    (0x9 <= u && u <= 0xd) || u == 0x20 || u == 0x85 || u == 0xa0 || u == 0x1680 || (0x2000 <= u
        && u <= 0x200a) || u == 0x2028 || u == 0x2029 || u == 0x202f || u == 0x205f || u == 0x3000
}

/// The characters of `s`, in order.
pub fn chars_of(s: &str) -> (v: Vec<char>)
    ensures
        v@ == s@,
{
    let mut v: Vec<char> = Vec::new();
    for c in it: s.chars()
        invariant
            v@ == it.seq().take(it.index() as int),
            it.seq() == s@,
    {
        v.push(c);
    }
    v
}

/// Appends one character to a `String` (`String::push`).
#[verifier::external_body]
pub(crate) fn push_char(s: &mut String, c: char)
    ensures
        final(s)@ == old(s)@.push(c),
{
    s.push(c);
}

/// A `String` holding exactly the characters of `v`.
pub fn string_of(v: &[char]) -> (s: String)
    ensures
        s@ == v@,
{
    let mut s = String::new();
    let mut i: usize = 0;
    while i < v.len()
        invariant
            i <= v@.len(),
            s@ == v@.take(i as int),
        decreases v@.len() - i,
    {
        push_char(&mut s, v[i]);
        proof {
            assert(v@.take(i + 1) =~= v@.take(i as int).push(v@[i as int]));
        }
        i = i + 1;
    }
    proof {
        assert(v@.take(v@.len() as int) =~= v@);
    }
    s
}


/// `p` occurs in `s` starting at index `i`.
pub open spec fn occurs_at(s: Seq<char>, p: Seq<char>, i: int) -> bool {
    0 <= i && i + p.len() <= s.len() && s.subrange(i, i + p.len()) == p
}

/// `p` occurs somewhere in `s` (`str::contains` with a string pattern).
pub open spec fn contains_seq(s: Seq<char>, p: Seq<char>) -> bool {
    exists|i: int| occurs_at(s, p, i)
}

/// The first index at which `p` occurs in `s` (`str::find`).
pub open spec fn first_occurrence(s: Seq<char>, p: Seq<char>) -> Option<int> {
    if contains_seq(s, p) {
        Some(
            choose|i: int| occurs_at(s, p, i) && forall|j: int| 0 <= j < i ==> !occurs_at(s, p, j),
        )
    } else {
        None
    }
}

proof fn lemma_min_occurrence(s: Seq<char>, p: Seq<char>, k: int)
    requires
        occurs_at(s, p, k),
    ensures
        exists|i: int|
            occurs_at(s, p, i) && forall|j: int| 0 <= j < i ==> !#[trigger] occurs_at(s, p, j),
    decreases k,
{
    if exists|j: int| 0 <= j < k && occurs_at(s, p, j) {
        let j = choose|j: int| 0 <= j < k && occurs_at(s, p, j);
        lemma_min_occurrence(s, p, j);
    } else {
        assert(forall|j: int| 0 <= j < k ==> !#[trigger] occurs_at(s, p, j));
    }
}

/// Where `p` occurs, its first occurrence is one, and none comes before it.
pub proof fn lemma_first_occurrence(s: Seq<char>, p: Seq<char>)
    requires
        contains_seq(s, p),
    ensures
        first_occurrence(s, p) matches Some(i) && occurs_at(s, p, i) && forall|j: int|
            0 <= j < i ==> !#[trigger] occurs_at(s, p, j),
{
    let k = choose|k: int| occurs_at(s, p, k);
    lemma_min_occurrence(s, p, k);
}

/// The first index at which `p` occurs in `s`, if any.
pub fn find_first(s: &[char], p: &[char]) -> (r: Option<usize>)
    ensures
        match r {
            Some(i) => first_occurrence(s@, p@) == Some(i as int) && occurs_at(s@, p@, i as int),
            None => first_occurrence(s@, p@) is None,
        },
{
    let r = find_seq(s, p);
    proof {
        if let Some(i) = r {
            let k = choose|k: int| occurs_at(s@, p@, k) && forall|j: int| 0 <= j < k ==> !occurs_at(s@, p@, j);
            assert(occurs_at(s@, p@, k));
            assert(k == i) by {
                if k < i {
                    assert(!occurs_at(s@, p@, k));
                } else if i < k {
                    assert(!occurs_at(s@, p@, i as int));
                }
            }
        }
    }
    r
}

/// `s` begins with `p`.
pub open spec fn starts_with(s: Seq<char>, p: Seq<char>) -> bool {
    p.len() <= s.len() && s.subrange(0, p.len() as int) == p
}

/// `s` ends with `p`.
pub open spec fn ends_with(s: Seq<char>, p: Seq<char>) -> bool {
    p.len() <= s.len() && s.subrange(s.len() - p.len(), s.len() as int) == p
}

/// The pieces of `s` between occurrences of `c`, as `str::split` with a
/// character pattern yields them: one more piece than there are `c`s in `s`.
pub open spec fn split_char(s: Seq<char>, c: char) -> Seq<Seq<char>>
    decreases s.len(),
{
    if s.len() == 0 {
        seq![Seq::empty()]
    } else {
        let prev = split_char(s.drop_last(), c);
        if s.last() == c {
            prev.push(Seq::empty())
        } else {
            prev.update(prev.len() - 1, prev.last().push(s.last()))
        }
    }
}

/// A character that `s` does not hold is in none of its pieces.
pub proof fn lemma_split_char_pieces_avoid(s: Seq<char>, c: char, x: char)
    requires
        !s.contains(x),
    ensures
        forall|k: int| 0 <= k < split_char(s, c).len() ==> !(#[trigger] split_char(s, c)[k]).contains(x),
    decreases s.len(),
{
    if s.len() == 0 {
        assert(split_char(s, c) == seq![Seq::<char>::empty()]);
    } else {
        let t = s.drop_last();
        assert(!t.contains(x)) by {
            if t.contains(x) {
                let j = choose|j: int| 0 <= j < t.len() && t[j] == x;
                assert(s[j] == x);
            }
        }
        assert(s.last() != x) by {
            assert(s[s.len() - 1] == s.last());
        }
        lemma_split_char_pieces_avoid(t, c, x);
        lemma_split_char_nonempty(t, c);
        let prev = split_char(t, c);
        if s.last() != c {
            let l = prev.last().push(s.last());
            assert forall|k: int| 0 <= k < split_char(s, c).len() implies !(
            #[trigger] split_char(s, c)[k]).contains(x) by {
                if k == prev.len() - 1 {
                    assert(!prev[k].contains(x));
                    assert forall|j: int| 0 <= j < l.len() implies l[j] != x by {
                        if j < prev[k].len() {
                            assert(l[j] == prev[k][j]);
                        }
                    }
                } else {
                    assert(split_char(s, c)[k] == prev[k]);
                }
            }
        } else {
            assert forall|k: int| 0 <= k < split_char(s, c).len() implies !(
            #[trigger] split_char(s, c)[k]).contains(x) by {
                if k < prev.len() {
                    assert(split_char(s, c)[k] == prev[k]);
                }
            }
        }
    }
}

/// Text without `c` appended to `s` lengthens the last piece of its split.
pub proof fn lemma_split_extend(s: Seq<char>, y: Seq<char>, c: char)
    requires
        !y.contains(c),
    ensures
        split_char(s + y, c) == split_char(s, c).update(
            split_char(s, c).len() - 1,
            split_char(s, c).last() + y,
        ),
    decreases y.len(),
{
    lemma_split_char_nonempty(s, c);
    let p = split_char(s, c);
    if y.len() == 0 {
        assert(s + y =~= s);
        assert(p.last() + y =~= p.last());
        assert(p.update(p.len() - 1, p.last() + y) =~= p);
    } else {
        let y0 = y.drop_last();
        assert(!y0.contains(c)) by {
            if y0.contains(c) {
                let j = choose|j: int| 0 <= j < y0.len() && y0[j] == c;
                assert(y[j] == c);
            }
        }
        assert(y.last() != c) by {
            assert(y[y.len() - 1] == y.last());
        }
        lemma_split_extend(s, y0, c);
        assert((s + y).drop_last() =~= s + y0);
        assert((s + y).last() == y.last());
        let q = p.update(p.len() - 1, p.last() + y0);
        assert(q.last() == p.last() + y0);
        assert((p.last() + y0).push(y.last()) =~= p.last() + y);
        assert(q.update(q.len() - 1, q.last().push(y.last())) =~= p.update(
            p.len() - 1,
            p.last() + y,
        ));
    }
}

/// Splitting pieces joined by `c` gives them back, when none holds `c`.
pub proof fn lemma_split_join(parts: Seq<Seq<char>>, c: char)
    requires
        parts.len() > 0,
        forall|i: int| 0 <= i < parts.len() ==> !(#[trigger] parts[i]).contains(c),
    ensures
        split_char(join(parts, seq![c]), c) == parts,
    decreases parts.len(),
{
    if parts.len() == 1 {
        lemma_split_extend(Seq::empty(), parts[0], c);
        assert(Seq::<char>::empty() + parts[0] =~= parts[0]);
        assert(split_char(Seq::<char>::empty(), c) == seq![Seq::<char>::empty()]);
        assert(seq![Seq::<char>::empty()].update(0, Seq::<char>::empty() + parts[0]) =~= parts);
    } else {
        let init = parts.drop_last();
        let last = parts.last();
        assert forall|i: int| 0 <= i < init.len() implies !(#[trigger] init[i]).contains(c) by {
            assert(init[i] == parts[i]);
        }
        assert(!last.contains(c)) by {
            assert(last == parts[parts.len() - 1]);
        }
        lemma_split_join(init, c);
        let a = join(init, seq![c]);
        assert(join(parts, seq![c]) == a + seq![c] + last);
        assert(a + seq![c] + last =~= a.push(c) + last);
        assert(a.push(c).drop_last() =~= a);
        assert(split_char(a.push(c), c) == init.push(Seq::<char>::empty()));
        lemma_split_extend(a.push(c), last, c);
        let q = init.push(Seq::<char>::empty());
        assert(q.update(q.len() - 1, q.last() + last) =~= parts);
    }
}

/// The character sequences held by a sequence of vectors.
pub open spec fn views(v: Seq<Vec<char>>) -> Seq<Seq<char>> {
    v.map_values(|x: Vec<char>| x@)
}

/// The character sequences held by a sequence of strings.
pub open spec fn string_views(v: Seq<String>) -> Seq<Seq<char>> {
    v.map_values(|x: String| x@)
}

pub proof fn lemma_split_char_nonempty(s: Seq<char>, c: char)
    ensures
        split_char(s, c).len() >= 1,
    decreases s.len(),
{
    if s.len() > 0 {
        lemma_split_char_nonempty(s.drop_last(), c);
    }
}

/// No piece of a split holds the separator.
pub proof fn lemma_split_char_pieces(s: Seq<char>, c: char)
    ensures
        forall|k: int| 0 <= k < split_char(s, c).len() ==> !(#[trigger] split_char(s, c)[k]).contains(c),
    decreases s.len(),
{
    if s.len() > 0 {
        lemma_split_char_pieces(s.drop_last(), c);
        lemma_split_char_nonempty(s.drop_last(), c);
        let prev = split_char(s.drop_last(), c);
        if s.last() != c {
            let l = prev.last().push(s.last());
            assert forall|k: int| 0 <= k < split_char(s, c).len() implies !(
            #[trigger] split_char(s, c)[k]).contains(c) by {
                if k == prev.len() - 1 {
                    assert(!prev[k].contains(c));
                    assert forall|j: int| 0 <= j < l.len() implies l[j] != c by {
                        if j < prev[k].len() {
                            assert(l[j] == prev[k][j]);
                        }
                    }
                }
            }
        }
    }
}

/// The pieces of `s` between occurrences of `c`.
pub fn split_chars(s: &[char], c: char) -> (r: Vec<Vec<char>>)
    ensures
        views(r@) == split_char(s@, c),
{
    let mut parts: Vec<Vec<char>> = Vec::new();
    let mut cur: Vec<char> = Vec::new();
    let mut i: usize = 0;
    proof {
        assert(s@.take(0) =~= Seq::<char>::empty());
        assert(views(parts@).push(cur@) =~= seq![Seq::<char>::empty()]);
    }
    while i < s.len()
        invariant
            i <= s@.len(),
            views(parts@).push(cur@) == split_char(s@.take(i as int), c),
        decreases s@.len() - i,
    {
        let ch = s[i];
        proof {
            assert(s@.take(i + 1).drop_last() =~= s@.take(i as int));
            assert(s@.take(i + 1).last() == ch);
        }
        if ch == c {
            let done = cur;
            parts.push(done);
            cur = Vec::new();
            proof {
                assert(views(parts@) =~= split_char(s@.take(i as int), c));
            }
        } else {
            let ghost prev = split_char(s@.take(i as int), c);
            cur.push(ch);
            proof {
                assert(views(parts@).push(cur@) =~= prev.update(prev.len() - 1, prev.last().push(ch)));
            }
        }
        i = i + 1;
    }
    parts.push(cur);
    proof {
        assert(s@.take(s@.len() as int) =~= s@);
        assert(views(parts@) =~= split_char(s@, c));
    }
    parts
}

/// The pieces joined with `sep` between consecutive pieces (`[T]::join`).
pub open spec fn join(parts: Seq<Seq<char>>, sep: Seq<char>) -> Seq<char>
    decreases parts.len(),
{
    if parts.len() == 0 {
        Seq::empty()
    } else if parts.len() == 1 {
        parts[0]
    } else {
        join(parts.drop_last(), sep) + sep + parts.last()
    }
}

pub proof fn lemma_trim_start_step(s: Seq<char>, i: int)
    requires
        0 <= i < s.len(),
        is_ws(s[i]),
    ensures
        trim_start(s.subrange(i, s.len() as int)) == trim_start(s.subrange(i + 1, s.len() as int)),
{
    assert(s.subrange(i, s.len() as int).drop_first() =~= s.subrange(i + 1, s.len() as int));
}

pub proof fn lemma_trim_end_step(s: Seq<char>, a: int, j: int)
    requires
        0 <= a < j <= s.len(),
        is_ws(s[j - 1]),
    ensures
        trim_end(s.subrange(a, j)) == trim_end(s.subrange(a, j - 1)),
{
    assert(s.subrange(a, j).drop_last() =~= s.subrange(a, j - 1));
}

/// `trim_start(s)` is a suffix of `s` that does not begin with white space.
pub proof fn lemma_trim_start_shape(s: Seq<char>) -> (k: int)
    ensures
        0 <= k <= s.len(),
        trim_start(s) == s.subrange(k, s.len() as int),
        trim_start(s).len() > 0 ==> !is_ws(trim_start(s)[0]),
    decreases s.len(),
{
    if s.len() > 0 && is_ws(s[0]) {
        let k = lemma_trim_start_shape(s.drop_first());
        assert(s.drop_first().subrange(k, s.drop_first().len() as int) =~= s.subrange(
            k + 1,
            s.len() as int,
        ));
        k + 1
    } else {
        assert(s.subrange(0, s.len() as int) =~= s);
        0
    }
}

/// `trim_end(s)` is a prefix of `s` that does not end with white space.
pub proof fn lemma_trim_end_shape(s: Seq<char>) -> (k: int)
    ensures
        0 <= k <= s.len(),
        trim_end(s) == s.subrange(0, k),
        trim_end(s).len() > 0 ==> !is_ws(trim_end(s).last()),
    decreases s.len(),
{
    if s.len() > 0 && is_ws(s.last()) {
        let k = lemma_trim_end_shape(s.drop_last());
        assert(s.drop_last().subrange(0, k) =~= s.subrange(0, k));
        k
    } else {
        assert(s.subrange(0, s.len() as int) =~= s);
        s.len() as int
    }
}

/// `trim(s)` is a contiguous part of `s` with no white space at either end.
pub proof fn lemma_trim_shape(s: Seq<char>)
    ensures
        trim(s).len() > 0 ==> !is_ws(trim(s)[0]) && !is_ws(trim(s).last()),
        forall|c: char| trim(s).contains(c) ==> s.contains(c),
{
    let a = lemma_trim_start_shape(s);
    let t = trim_start(s);
    let b = lemma_trim_end_shape(t);
    assert forall|c: char| trim(s).contains(c) implies s.contains(c) by {
        let j = choose|j: int| 0 <= j < trim(s).len() && trim(s)[j] == c;
        assert(trim(s)[j] == t[j]);
        assert(t[j] == s[a + j]);
    }
    if trim(s).len() > 0 {
        assert(trim(s)[0] == t[0]);
    }
}

/// The index range `[a, b)` of `v` that `trim` keeps.
pub fn trim_bounds(v: &[char]) -> (r: (usize, usize))
    ensures
        r.0 <= r.1 <= v@.len(),
        v@.subrange(r.0 as int, r.1 as int) == trim(v@),
{
    let n = v.len();
    let mut a: usize = 0;
    proof {
        assert(v@.subrange(0, n as int) =~= v@);
    }
    while a < n && char_is_ws(v[a])
        invariant
            a <= n == v@.len(),
            trim_start(v@) == trim_start(v@.subrange(a as int, n as int)),
        decreases n - a,
    {
        proof {
            lemma_trim_start_step(v@, a as int);
        }
        a = a + 1;
    }
    proof {
        assert(v@.subrange(0, n as int) =~= v@);
    }
    let mut b: usize = n;
    while b > a && char_is_ws(v[b - 1])
        invariant
            a <= b <= n == v@.len(),
            trim_start(v@) == v@.subrange(a as int, n as int),
            trim(v@) == trim_end(v@.subrange(a as int, b as int)),
        decreases b - a,
    {
        proof {
            lemma_trim_end_step(v@, a as int, b as int);
        }
        b = b - 1;
    }
    (a, b)
}

/// The characters `v[a..b]`.
pub fn slice_chars(v: &[char], a: usize, b: usize) -> (r: Vec<char>)
    requires
        a <= b <= v@.len(),
    ensures
        r@ == v@.subrange(a as int, b as int),
{
    let mut r: Vec<char> = Vec::new();
    let mut i = a;
    while i < b
        invariant
            a <= i <= b <= v@.len(),
            r@ == v@.subrange(a as int, i as int),
        decreases b - i,
    {
        r.push(v[i]);
        proof {
            assert(v@.subrange(a as int, i + 1) =~= v@.subrange(a as int, i as int).push(v@[i as int]));
        }
        i = i + 1;
    }
    r
}

/// `v` with white space removed at both ends.
pub fn trim_chars(v: &[char]) -> (r: Vec<char>)
    ensures
        r@ == trim(v@),
{
    let (a, b) = trim_bounds(v);
    slice_chars(v, a, b)
}

/// Appends the characters of `w` to `v`.
pub fn extend_chars(v: &mut Vec<char>, w: &[char])
    ensures
        final(v)@ == old(v)@ + w@,
{
    let mut i: usize = 0;
    while i < w.len()
        invariant
            i <= w@.len(),
            v@ == old(v)@ + w@.take(i as int),
        decreases w@.len() - i,
    {
        v.push(w[i]);
        proof {
            assert(w@.take(i + 1) =~= w@.take(i as int).push(w@[i as int]));
        }
        i = i + 1;
    }
    proof {
        assert(w@.take(w@.len() as int) =~= w@);
    }
}

/// Appends the characters of `s` to `v`.
pub fn extend_str(v: &mut Vec<char>, s: &str)
    ensures
        final(v)@ == old(v)@ + s@,
{
    let w = chars_of(s);
    extend_chars(v, &w);
}

/// Whether `a` and `b` hold the same characters.
pub fn chars_eq(a: &[char], b: &[char]) -> (r: bool)
    ensures
        r == (a@ == b@),
{
    if a.len() != b.len() {
        return false;
    }
    let mut i: usize = 0;
    while i < a.len()
        invariant
            i <= a@.len() == b@.len(),
            a@.take(i as int) == b@.take(i as int),
        decreases a@.len() - i,
    {
        if a[i] != b[i] {
            return false;
        }
        proof {
            assert(a@.take(i + 1) =~= a@.take(i as int).push(a@[i as int]));
            assert(b@.take(i + 1) =~= b@.take(i as int).push(b@[i as int]));
        }
        i = i + 1;
    }
    proof {
        assert(a@.take(a@.len() as int) =~= a@);
        assert(b@.take(b@.len() as int) =~= b@);
    }
    true
}

/// Whether `v` holds exactly the characters of `s`.
pub fn chars_eq_str(v: &[char], s: &str) -> (r: bool)
    ensures
        r == (v@ == s@),
{
    let w = chars_of(s);
    chars_eq(v, &w)
}

/// Whether `p` occurs in `s` at index `i`.
pub fn occurs_at_exec(s: &[char], p: &[char], i: usize) -> (r: bool)
    ensures
        r == occurs_at(s@, p@, i as int),
{
    if i > s.len() || p.len() > s.len() - i {
        return false;
    }
    let mut j: usize = 0;
    while j < p.len()
        invariant
            i + p@.len() <= s@.len(),
            s@.len() == s.len(),
            j <= p@.len(),
            forall|k: int| 0 <= k < j ==> s@[i + k] == p@[k],
        decreases p@.len() - j,
    {
        if s[i + j] != p[j] {
            assert(s@.subrange(i as int, i + p@.len())[j as int] != p@[j as int]);
            return false;
        }
        j = j + 1;
    }
    assert(s@.subrange(i as int, i + p@.len()) =~= p@);
    true
}

/// The first index at which `p` occurs in `s`, if any (`str::find`).
pub fn find_seq(s: &[char], p: &[char]) -> (r: Option<usize>)
    ensures
        match r {
            Some(i) => occurs_at(s@, p@, i as int) && forall|j: int|
                0 <= j < i ==> !occurs_at(s@, p@, j),
            None => !contains_seq(s@, p@),
        },
{
    if p.len() > s.len() {
        return None;
    }
    if p.len() == 0 {
        assert(s@.subrange(0, 0) =~= p@);
        assert(occurs_at(s@, p@, 0));
        return Some(0);
    }
    let last = s.len() - p.len();
    let mut i: usize = 0;
    while i <= last
        invariant
            last + p@.len() == s@.len(),
            s@.len() == s.len(),
            p@.len() > 0,
            forall|j: int| 0 <= j < i ==> !occurs_at(s@, p@, j),
        decreases last + 1 - i,
    {
        if occurs_at_exec(s, p, i) {
            return Some(i);
        }
        i = i + 1;
    }
    None
}

/// Whether `p` occurs in `s`.
pub fn contains_exec(s: &[char], p: &[char]) -> (r: bool)
    ensures
        r == contains_seq(s@, p@),
{
    find_seq(s, p).is_some()
}

/// Whether `s` begins with `p`.
pub fn starts_with_exec(s: &[char], p: &[char]) -> (r: bool)
    ensures
        r == starts_with(s@, p@),
{
    if p.len() > s.len() {
        return false;
    }
    occurs_at_exec(s, p, 0)
}

/// Whether `s` ends with `p`.
pub fn ends_with_exec(s: &[char], p: &[char]) -> (r: bool)
    ensures
        r == ends_with(s@, p@),
{
    if p.len() > s.len() {
        return false;
    }
    occurs_at_exec(s, p, s.len() - p.len())
}

/// Whether `c` occurs in `s`.
pub fn contains_char(s: &[char], c: char) -> (r: bool)
    ensures
        r == s@.contains(c),
{
    let mut i: usize = 0;
    while i < s.len()
        invariant
            i <= s@.len(),
            forall|j: int| 0 <= j < i ==> s@[j] != c,
        decreases s@.len() - i,
    {
        if s[i] == c {
            return true;
        }
        i = i + 1;
    }
    false
}


/// The pieces joined with `sep` between consecutive pieces.
pub fn join_chars(parts: &Vec<Vec<char>>, sep: &[char]) -> (r: Vec<char>)
    ensures
        r@ == join(views(parts@), sep@),
{
    let mut r: Vec<char> = Vec::new();
    let mut i: usize = 0;
    while i < parts.len()
        invariant
            i <= parts@.len(),
            r@ == join(views(parts@).take(i as int), sep@),
        decreases parts@.len() - i,
    {
        proof {
            assert(views(parts@).take(i + 1).drop_last() =~= views(parts@).take(i as int));
            assert(views(parts@).take(i + 1).last() == parts@[i as int]@);
        }
        if i > 0 {
            extend_chars(&mut r, sep);
        } else {
            assert(views(parts@).take(0) =~= Seq::<Seq<char>>::empty());
            assert(views(parts@).take(1) =~= seq![parts@[0]@]);
        }
        extend_chars(&mut r, &parts[i]);
        i = i + 1;
    }
    proof {
        assert(views(parts@).take(parts@.len() as int) =~= views(parts@));
    }
    r
}


/// A copy of each string, in order.
pub fn clone_strings(v: &[String]) -> (r: Vec<String>)
    ensures
        string_views(r@) == string_views(v@),
{
    let mut r: Vec<String> = Vec::new();
    let mut i: usize = 0;
    while i < v.len()
        invariant
            i <= v@.len(),
            string_views(r@) =~= string_views(v@).take(i as int),
        decreases v@.len() - i,
    {
        let ghost before = string_views(r@);
        r.push(string_of(&chars_of(v[i].as_str())));
        proof {
            assert(string_views(r@) =~= before.push(v@[i as int]@));
            assert(string_views(v@).take(i + 1) =~= string_views(v@).take(i as int).push(v@[i as int]@));
        }
        i = i + 1;
    }
    proof {
        assert(string_views(v@).take(i as int) =~= string_views(v@));
    }
    r
}

/// The strings joined with `sep` between consecutive ones.
pub fn join_strings(parts: &[String], sep: &str) -> (r: String)
    ensures
        r@ == join(string_views(parts@), sep@),
{
    let mut vs: Vec<Vec<char>> = Vec::new();
    let mut i: usize = 0;
    while i < parts.len()
        invariant
            i <= parts@.len(),
            views(vs@) =~= string_views(parts@).take(i as int),
        decreases parts@.len() - i,
    {
        let ghost before = views(vs@);
        vs.push(chars_of(parts[i].as_str()));
        proof {
            assert(views(vs@) =~= before.push(parts@[i as int]@));
            assert(string_views(parts@).take(i + 1) =~= string_views(parts@).take(i as int).push(
                parts@[i as int]@,
            ));
        }
        i = i + 1;
    }
    proof {
        assert(string_views(parts@).take(i as int) =~= string_views(parts@));
    }
    string_of(&join_chars(&vs, &chars_of(sep)))
}

/// What `str::to_lowercase` gives for `s`: the full Unicode lower-case
/// mapping, which the standard library's tables define.
pub uninterp spec fn lowercase(s: Seq<char>) -> Seq<char>;

/// A character that `to_lowercase` maps as ASCII lower-casing does: an
/// ASCII character, or one of the caseless CJK ranges of `is_cjk`.
pub open spec fn ascii_or_cjk(c: char) -> bool {
    (c as u32) < 0x80 || crate::markdown::is_cjk(c)
}

/// No ASCII upper-case letter in `s`.
pub open spec fn no_ascii_upper(s: Seq<char>) -> bool {
    forall|i: int| 0 <= i < s.len() ==> !('A' <= #[trigger] s[i] && s[i] <= 'Z')
}

/// `str::to_lowercase`. Its result is a function of `s` alone, named
/// `lowercase`. The standard library documents it as the Unicode lower-case
/// mapping, of which two facts are stated: no character maps to an ASCII
/// upper-case letter, and on text of ASCII and CJK characters (which have
/// no case) it is ASCII lower-casing, character by character. The mapping
/// of other characters is left unsaid.
#[verifier::external_body]
pub(crate) fn to_lowercase(s: &str) -> (r: String)
    ensures
        r@ == lowercase(s@),
        no_ascii_upper(r@),
        (forall|i: int| 0 <= i < s@.len() ==> ascii_or_cjk(#[trigger] s@[i])) ==> r@
            == s@.map_values(|c: char| ascii_lower(c)),
{
    s.to_lowercase()
}

/// `char::is_ascii_alphanumeric`.
pub open spec fn is_ascii_alnum(c: char) -> bool {
    ('0' <= c && c <= '9') || ('a' <= c && c <= 'z') || ('A' <= c && c <= 'Z')
}

pub fn char_is_ascii_alnum(c: char) -> (r: bool)
    ensures
        r == is_ascii_alnum(c),
{
    ('0' <= c && c <= '9') || ('a' <= c && c <= 'z') || ('A' <= c && c <= 'Z')
}

/// `char::to_ascii_uppercase`.
pub open spec fn ascii_upper(c: char) -> char {
    if 'a' <= c && c <= 'z' {
        ((c as u32) - 32) as char
    } else {
        c
    }
}

/// `char::to_ascii_lowercase`.
pub open spec fn ascii_lower(c: char) -> char {
    if 'A' <= c && c <= 'Z' {
        ((c as u32) + 32) as char
    } else {
        c
    }
}

pub fn char_ascii_upper(c: char) -> (r: char)
    ensures
        r == ascii_upper(c),
{
    if 'a' <= c && c <= 'z' {
        let u = (c as u32) - 32;
        let r = (u as u8) as char;
        r
    } else {
        c
    }
}

pub fn char_ascii_lower(c: char) -> (r: char)
    ensures
        r == ascii_lower(c),
{
    if 'A' <= c && c <= 'Z' {
        let u = (c as u32) + 32;
        let r = (u as u8) as char;
        r
    } else {
        c
    }
}

/// The decimal digit for `d < 10`.
pub open spec fn digit_char(d: nat) -> char {
    ((d + 48) as u8) as char
}

/// The decimal representation of `n`, without leading zeros.
pub open spec fn decimal(n: nat) -> Seq<char>
    decreases n,
{
    if n < 10 {
        seq![digit_char(n)]
    } else {
        decimal(n / 10).push(digit_char(n % 10))
    }
}

/// `digits` with zeros in front up to `width` characters.
pub open spec fn zero_pad(digits: Seq<char>, width: nat) -> Seq<char> {
    if digits.len() >= width {
        digits
    } else {
        Seq::new((width - digits.len()) as nat, |i: int| '0') + digits
    }
}

/// `n` rendered as `format!("{:0width$}", n)` renders it: the sign first,
/// then zeros, so that the whole takes at least `width` characters.
pub open spec fn padded_int(n: int, width: nat) -> Seq<char> {
    if n < 0 {
        seq!['-'] + zero_pad(decimal((-n) as nat), (width - 1) as nat)
    } else {
        zero_pad(decimal(n as nat), width)
    }
}

pub proof fn lemma_decimal_nonempty(n: nat)
    ensures
        decimal(n).len() >= 1,
    decreases n,
{
    if n >= 10 {
        lemma_decimal_nonempty(n / 10);
    }
}

fn decimal_chars(n: u64) -> (r: Vec<char>)
    ensures
        r@ == decimal(n as nat),
    decreases n,
{
    if n < 10 {
        let mut r: Vec<char> = Vec::new();
        let d = ((n as u8) + 48) as char;
        r.push(d);
        proof {
            assert(r@ =~= seq![digit_char(n as nat)]);
        }
        r
    } else {
        let mut r = decimal_chars(n / 10);
        let d = (((n % 10) as u8) + 48) as char;
        r.push(d);
        r
    }
}

/// Appends the decimal digits of `n`.
pub fn push_decimal(v: &mut Vec<char>, n: u64)
    ensures
        final(v)@ == old(v)@ + decimal(n as nat),
{
    let d = decimal_chars(n);
    extend_chars(v, &d);
}

/// Appends `n` zero-padded to `width` characters, sign first.
pub fn push_padded_int(v: &mut Vec<char>, n: i64, width: usize)
    requires
        n > i64::MIN,
        width >= 1,
    ensures
        final(v)@ == old(v)@ + padded_int(n as int, width as nat),
{
    let (neg, mag) = if n < 0 {
        (true, (-n) as u64)
    } else {
        (false, n as u64)
    };
    let digits = decimal_chars(mag);
    let w = if neg {
        v.push('-');
        width - 1
    } else {
        width
    };
    let ghost base = v@;
    let mut k: usize = digits.len();
    while k < w
        invariant
            k >= digits.len(),
            k > digits.len() ==> k <= w,
            v@ == base + Seq::new((k - digits@.len()) as nat, |i: int| '0'),
        decreases w - k,
    {
        v.push('0');
        proof {
            assert(v@ =~= base + Seq::new((k + 1 - digits@.len()) as nat, |i: int| '0'));
        }
        k = k + 1;
    }
    let ghost zeros = v@;
    extend_chars(v, &digits);
    proof {
        if digits@.len() >= w {
            assert(k == digits.len());
            assert(Seq::new((k - digits@.len()) as nat, |i: int| '0') =~= Seq::<char>::empty());
            assert(v@ =~= base + digits@);
        } else {
            assert(v@ =~= base + zero_pad(digits@, w as nat));
        }
        if neg {
            assert(base =~= old(v)@.push('-'));
            assert((-n) as u64 as nat == (-(n as int)) as nat);
        }
    }
}

/// `s` without leading `c`s.
pub open spec fn strip_start_char(s: Seq<char>, c: char) -> Seq<char>
    decreases s.len(),
{
    if s.len() > 0 && s[0] == c {
        strip_start_char(s.drop_first(), c)
    } else {
        s
    }
}

/// `s` without trailing `c`s.
pub open spec fn strip_end_char(s: Seq<char>, c: char) -> Seq<char>
    decreases s.len(),
{
    if s.len() > 0 && s.last() == c {
        strip_end_char(s.drop_last(), c)
    } else {
        s
    }
}

/// `str::trim_matches(c)`.
pub open spec fn strip_char(s: Seq<char>, c: char) -> Seq<char> {
    strip_end_char(strip_start_char(s, c), c)
}

/// `v` with leading and trailing `c`s removed.
pub fn strip_chars(v: &[char], c: char) -> (r: Vec<char>)
    ensures
        r@ == strip_char(v@, c),
{
    let n = v.len();
    let mut a: usize = 0;
    proof {
        assert(v@.subrange(0, n as int) =~= v@);
    }
    while a < n && v[a] == c
        invariant
            a <= n == v@.len(),
            strip_start_char(v@, c) == strip_start_char(v@.subrange(a as int, n as int), c),
        decreases n - a,
    {
        proof {
            assert(v@.subrange(a as int, n as int).drop_first() =~= v@.subrange(a + 1, n as int));
        }
        a = a + 1;
    }
    let mut b: usize = n;
    while b > a && v[b - 1] == c
        invariant
            a <= b <= n == v@.len(),
            strip_start_char(v@, c) == v@.subrange(a as int, n as int),
            strip_char(v@, c) == strip_end_char(v@.subrange(a as int, b as int), c),
        decreases b - a,
    {
        proof {
            assert(v@.subrange(a as int, b as int).drop_last() =~= v@.subrange(a as int, b - 1));
        }
        b = b - 1;
    }
    slice_chars(v, a, b)
}

pub proof fn lemma_strip_start_shape(s: Seq<char>, c: char) -> (k: int)
    ensures
        0 <= k <= s.len(),
        strip_start_char(s, c) == s.subrange(k, s.len() as int),
        strip_start_char(s, c).len() > 0 ==> strip_start_char(s, c)[0] != c,
    decreases s.len(),
{
    if s.len() > 0 && s[0] == c {
        let k = lemma_strip_start_shape(s.drop_first(), c);
        assert(s.drop_first().subrange(k, s.drop_first().len() as int) =~= s.subrange(
            k + 1,
            s.len() as int,
        ));
        k + 1
    } else {
        assert(s.subrange(0, s.len() as int) =~= s);
        0
    }
}

pub proof fn lemma_strip_end_shape(s: Seq<char>, c: char) -> (k: int)
    ensures
        0 <= k <= s.len(),
        strip_end_char(s, c) == s.subrange(0, k),
        strip_end_char(s, c).len() > 0 ==> strip_end_char(s, c).last() != c,
        forall|i: int| k <= i < s.len() ==> s[i] == c,
    decreases s.len(),
{
    if s.len() > 0 && s.last() == c {
        let k = lemma_strip_end_shape(s.drop_last(), c);
        assert(s.drop_last().subrange(0, k) =~= s.subrange(0, k));
        assert forall|i: int| k <= i < s.len() implies s[i] == c by {
            if i < s.len() - 1 {
                assert(s[i] == s.drop_last()[i]);
            }
        }
        k
    } else {
        assert(s.subrange(0, s.len() as int) =~= s);
        s.len() as int
    }
}


/// A line without the `\r` of a `\r\n` ending.
pub open spec fn strip_cr(l: Seq<char>) -> Seq<char> {
    if l.len() > 0 && l.last() == '\r' {
        l.drop_last()
    } else {
        l
    }
}

/// The lines of `s` as `str::lines` yields them: split at `\n`, a `\r`
/// before the `\n` dropped, and no empty line after a final `\n`.
pub open spec fn lines_spec(s: Seq<char>) -> Seq<Seq<char>> {
    let p = split_char(s, '\n');
    let body = p.take(p.len() - 1).map_values(|l: Seq<char>| strip_cr(l));
    if p.last().len() == 0 {
        body
    } else {
        body.push(p.last())
    }
}

/// The lines of `s`.
pub fn lines_of(s: &[char]) -> (r: Vec<Vec<char>>)
    ensures
        views(r@) == lines_spec(s@),
{
    let parts = split_chars(s, '\n');
    proof {
        lemma_split_char_nonempty(s@, '\n');
    }
    let ghost p = views(parts@);
    let n = parts.len() - 1;
    let mut r: Vec<Vec<char>> = Vec::new();
    let mut i: usize = 0;
    while i < n
        invariant
            i <= n,
            n + 1 == parts@.len(),
            p == views(parts@),
            views(r@) == p.take(i as int).map_values(|l: Seq<char>| strip_cr(l)),
        decreases n - i,
    {
        let l = &parts[i];
        let ghost before = views(r@);
        if l.len() > 0 && l[l.len() - 1] == '\r' {
            r.push(slice_chars(l, 0, l.len() - 1));
        } else {
            r.push(slice_chars(l, 0, l.len()));
        }
        proof {
            assert(l@.subrange(0, l@.len() as int) =~= l@);
            assert(l@.len() > 0 ==> l@.subrange(0, l@.len() - 1) =~= l@.drop_last());
            assert(p[i as int] == l@);
            assert(views(r@).last() == strip_cr(p[i as int]));
            assert(views(r@).drop_last() =~= before);
            assert forall|k: int| 0 <= k < i + 1 implies views(r@)[k] == strip_cr(p.take(i + 1)[k]) by {
                if k < i {
                    assert(views(r@)[k] == before[k]);
                }
            }
            assert(views(r@) =~= p.take(i + 1).map_values(|l: Seq<char>| strip_cr(l)));
        }
        i = i + 1;
    }
    let last = &parts[n];
    if last.len() > 0 {
        r.push(slice_chars(last, 0, last.len()));
        proof {
            assert(last@.subrange(0, last@.len() as int) =~= last@);
        }
    }
    proof {
        assert(p.last() == last@);
        assert(views(r@) =~= lines_spec(s@));
    }
    r
}

} // verus!
