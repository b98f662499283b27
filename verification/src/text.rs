//! Character sequence utilities: whitespace trimming, splitting on a
//! separator, and building strings, each proved against a direct
//! specification over `Seq<char>`.

use vstd::prelude::*;

verus! {

/// ASCII whitespace: the characters removed when a header segment is trimmed.
pub open spec fn is_space(c: char) -> bool {
    c == ' ' || c == '\t' || c == '\n' || c == '\r' || c == '\u{0C}'
}

/// The sequence with leading whitespace removed.
pub open spec fn trim_start(s: Seq<char>) -> Seq<char>
    decreases s.len(),
{
    if s.len() > 0 && is_space(s[0]) {
        trim_start(s.subrange(1, s.len() as int))
    } else {
        s
    }
}

/// The sequence with trailing whitespace removed.
pub open spec fn trim_end(s: Seq<char>) -> Seq<char>
    decreases s.len(),
{
    if s.len() > 0 && is_space(s[s.len() - 1]) {
        trim_end(s.subrange(0, s.len() - 1))
    } else {
        s
    }
}

/// The sequence with surrounding whitespace removed.
pub open spec fn trim(s: Seq<char>) -> Seq<char> {
    trim_end(trim_start(s))
}

/// Index of the first occurrence of `c` in `s`, if any.
pub open spec fn find_char(s: Seq<char>, c: char) -> Option<int>
    decreases s.len(),
{
    if s.len() == 0 {
        None
    } else if s[0] == c {
        Some(0int)
    } else {
        match find_char(s.subrange(1, s.len() as int), c) {
            Some(i) => Some(i + 1),
            None => None,
        }
    }
}

/// What `find_char` returns: the first index holding `c`.
pub proof fn lemma_find_char(s: Seq<char>, c: char)
    ensures
        match find_char(s, c) {
            Some(i) => 0 <= i < s.len() && s[i] == c && (forall|j: int| 0 <= j < i ==> s[j] != c),
            None => forall|j: int| 0 <= j < s.len() ==> s[j] != c,
        },
    decreases s.len(),
{
    if s.len() > 0 && s[0] != c {
        let sub = s.subrange(1, s.len() as int);
        lemma_find_char(sub, c);
        match find_char(sub, c) {
            Some(i) => {
                assert forall|j: int| 0 <= j < i + 1 implies s[j] != c by {
                    if j > 0 {
                        assert(sub[j - 1] != c);
                    }
                }
            }
            None => {
                assert forall|j: int| 0 <= j < s.len() implies s[j] != c by {
                    if j > 0 {
                        assert(sub[j - 1] != c);
                    }
                }
            }
        }
    }
}

/// A first occurrence determines `find_char`.
pub proof fn lemma_find_char_at(s: Seq<char>, c: char, k: int)
    requires
        0 <= k < s.len(),
        s[k] == c,
        forall|j: int| 0 <= j < k ==> s[j] != c,
    ensures
        find_char(s, c) == Some(k),
    decreases s.len(),
{
    if k > 0 {
        lemma_find_char_at(s.subrange(1, s.len() as int), c, k - 1);
    }
}

/// Absence of `c` determines `find_char`.
pub proof fn lemma_find_char_none(s: Seq<char>, c: char)
    requires
        forall|j: int| 0 <= j < s.len() ==> s[j] != c,
    ensures
        find_char(s, c) == None::<int>,
    decreases s.len(),
{
    if s.len() > 0 {
        lemma_find_char_none(s.subrange(1, s.len() as int), c);
    }
}

/// The parts of `s` between occurrences of the separator `c`, in order.
/// Splitting never yields an empty list: a sequence without the separator
/// is one part.
pub open spec fn split_at_char(s: Seq<char>, c: char) -> Seq<Seq<char>>
    decreases s.len(),
{
    match find_char(s, c) {
        None => seq![s],
        Some(i) => if 0 <= i < s.len() {
            seq![s.subrange(0, i)] + split_at_char(s.subrange(i + 1, s.len() as int), c)
        } else {
            seq![s]
        },
    }
}

/// Splitting yields at least one part, and the parts hold no separator.
pub proof fn lemma_split_at_char(s: Seq<char>, c: char)
    ensures
        split_at_char(s, c).len() >= 1,
        forall|p: int, j: int|
            0 <= p < split_at_char(s, c).len() && 0 <= j < split_at_char(s, c)[p].len()
                ==> #[trigger] split_at_char(s, c)[p][j] != c,
    decreases s.len(),
{
    lemma_find_char(s, c);
    match find_char(s, c) {
        None => {}
        Some(i) => {
            let rest = s.subrange(i + 1, s.len() as int);
            lemma_split_at_char(rest, c);
            assert forall|p: int, j: int|
                0 <= p < split_at_char(s, c).len() && 0 <= j < split_at_char(s, c)[p].len()
                    implies #[trigger] split_at_char(s, c)[p][j] != c by {
                if p == 0 {
                    assert(split_at_char(s, c)[0] == s.subrange(0, i));
                } else {
                    assert(split_at_char(s, c)[p] == split_at_char(rest, c)[p - 1]);
                }
            }
        }
    }
}

/// A sequence without whitespace at its ends trims to itself.
pub proof fn lemma_trim_id(s: Seq<char>)
    requires
        forall|j: int| 0 <= j < s.len() ==> !is_space(#[trigger] s[j]),
    ensures
        trim(s) == s,
{
}

/// A leading space falls away under trimming.
pub proof fn lemma_trim_uncons_space(s: Seq<char>)
    ensures
        trim(seq![' '] + s) == trim(s),
{
    assert((seq![' '] + s).subrange(1, (seq![' '] + s).len() as int) =~= s);
}

/// Splitting after a separator-free prefix and one separator.
pub proof fn lemma_split_prepend(x: Seq<char>, y: Seq<char>, c: char)
    requires
        forall|j: int| 0 <= j < x.len() ==> x[j] != c,
    ensures
        split_at_char(x + seq![c] + y, c) == seq![x] + split_at_char(y, c),
{
    let s = x + seq![c] + y;
    lemma_find_char_at(s, c, x.len() as int);
    assert(s.subrange(0, x.len() as int) =~= x);
    assert(s.subrange(x.len() as int + 1, s.len() as int) =~= y);
}

/// Splitting after one leading non-separator character: it joins the
/// first part.
pub proof fn lemma_split_uncons(ch: char, y: Seq<char>, c: char)
    requires
        ch != c,
    ensures
        split_at_char(seq![ch] + y, c) == seq![seq![ch] + split_at_char(y, c)[0]] + split_at_char(
            y,
            c,
        ).subrange(1, split_at_char(y, c).len() as int),
{
    let s = seq![ch] + y;
    lemma_find_char(y, c);
    match find_char(y, c) {
        None => {
            lemma_find_char_none(s, c);
            assert(split_at_char(s, c) =~= seq![seq![ch] + split_at_char(y, c)[0]] + split_at_char(
                y,
                c,
            ).subrange(1, split_at_char(y, c).len() as int));
        }
        Some(i) => {
            lemma_find_char_at(s, c, i + 1);
            assert(s.subrange(0, i + 1) =~= seq![ch] + y.subrange(0, i));
            assert(s.subrange(i + 2, s.len() as int) =~= y.subrange(i + 1, y.len() as int));
            assert(split_at_char(s, c) =~= seq![seq![ch] + split_at_char(y, c)[0]] + split_at_char(
                y,
                c,
            ).subrange(1, split_at_char(y, c).len() as int));
        }
    }
}

/// Executable whitespace test.
pub fn char_is_space(c: char) -> (b: bool)
    ensures
        b == is_space(c),
{
    c == ' ' || c == '\t' || c == '\n' || c == '\r' || c == '\u{0C}'
}

/// Copies the characters of a string into a vector.
pub fn chars_of(s: &str) -> (r: Vec<char>)
    ensures
        r@ == s@,
{
    let n = s.unicode_len();
    let mut r: Vec<char> = Vec::new();
    let mut i: usize = 0;
    while i < n
        invariant
            n == s@.len(),
            i <= n,
            r@ == s@.take(i as int),
        decreases n - i,
    {
        r.push(s.get_char(i));
        i = i + 1;
        proof {
            assert(s@.take(i as int) =~= s@.take(i - 1).push(s@[i - 1]));
        }
    }
    proof {
        assert(s@.take(n as int) =~= s@);
    }
    r
}

/// Copies `v[a..b]` into a new vector.
pub fn subvec(v: &Vec<char>, a: usize, b: usize) -> (r: Vec<char>)
    requires
        a <= b <= v@.len(),
    ensures
        r@ == v@.subrange(a as int, b as int),
{
    let mut r: Vec<char> = Vec::new();
    let mut i: usize = a;
    while i < b
        invariant
            a <= i <= b <= v@.len(),
            r@ == v@.subrange(a as int, i as int),
        decreases b - i,
    {
        r.push(v[i]);
        i = i + 1;
        proof {
            assert(v@.subrange(a as int, i as int) =~= v@.subrange(a as int, i - 1).push(
                v@[i - 1],
            ));
        }
    }
    r
}

/// Removes surrounding whitespace, as `trim` describes.
pub fn trim_chars(v: &Vec<char>) -> (r: Vec<char>)
    ensures
        r@ == trim(v@),
{
    let n = v.len();
    proof {
        assert(v@.subrange(0, n as int) =~= v@);
    }
    let mut lo: usize = 0;
    while lo < n && char_is_space(v[lo])
        invariant
            lo <= n == v@.len(),
            trim_start(v@) == trim_start(v@.subrange(lo as int, n as int)),
        decreases n - lo,
    {
        proof {
            assert(v@.subrange(lo as int, n as int).subrange(1, n - lo) =~= v@.subrange(
                lo + 1,
                n as int,
            ));
        }
        lo = lo + 1;
    }
    proof {
        assert(trim_start(v@) =~= v@.subrange(lo as int, n as int));
    }
    let mut hi: usize = n;
    while hi > lo && char_is_space(v[hi - 1])
        invariant
            lo <= hi <= n == v@.len(),
            trim_start(v@) == v@.subrange(lo as int, n as int),
            trim_end(v@.subrange(lo as int, n as int)) == trim_end(
                v@.subrange(lo as int, hi as int),
            ),
        decreases hi,
    {
        proof {
            assert(v@.subrange(lo as int, hi as int).subrange(0, hi - lo - 1) =~= v@.subrange(
                lo as int,
                hi - 1,
            ));
        }
        hi = hi - 1;
    }
    proof {
        assert(trim_end(v@.subrange(lo as int, hi as int)) =~= v@.subrange(lo as int, hi as int));
    }
    subvec(v, lo, hi)
}

/// The views of a list of character vectors.
pub open spec fn views(r: Seq<Vec<char>>) -> Seq<Seq<char>> {
    r.map_values(|x: Vec<char>| x@)
}

/// Splits on the separator, as `split_at_char` describes.
pub fn split_chars(v: &Vec<char>, c: char) -> (r: Vec<Vec<char>>)
    ensures
        views(r@) == split_at_char(v@, c),
{
    let n = v.len();
    proof {
        assert(v@.subrange(0, n as int) =~= v@);
    }
    let mut r: Vec<Vec<char>> = Vec::new();
    let mut start: usize = 0;
    let mut i: usize = 0;
    while i < n
        invariant
            start <= i <= n == v@.len(),
            forall|j: int| start <= j < i ==> v@[j] != c,
            views(r@) + split_at_char(v@.subrange(start as int, n as int), c) == split_at_char(
                v@,
                c,
            ),
        decreases n - i,
    {
        if v[i] == c {
            let part = subvec(v, start, i);
            proof {
                let tail = v@.subrange(start as int, n as int);
                lemma_find_char_at(tail, c, i - start);
                assert(tail.subrange(0, i - start) =~= v@.subrange(start as int, i as int));
                assert(tail.subrange(i - start + 1, tail.len() as int) =~= v@.subrange(
                    i + 1,
                    n as int,
                ));
                assert(views(r@.push(part)) =~= views(r@).push(part@));
                assert(views(r@.push(part)) + split_at_char(v@.subrange(i + 1, n as int), c)
                    =~= views(r@) + split_at_char(tail, c));
            }
            r.push(part);
            start = i + 1;
        }
        i = i + 1;
    }
    let last = subvec(v, start, n);
    proof {
        let tail = v@.subrange(start as int, n as int);
        lemma_find_char_none(tail, c);
        assert(views(r@.push(last)) =~= views(r@).push(last@));
        assert(views(r@.push(last)) =~= views(r@) + split_at_char(tail, c));
    }
    r.push(last);
    r
}

/// Relies on `String::push` of std: it appends exactly the given character.
#[verifier::external_body]
pub fn push_char(s: &mut String, c: char)
    ensures
        final(s)@ == old(s)@ + seq![c],
{
    s.push(c)
}

/// Appends the given characters to a string.
pub fn push_chars(s: &mut String, v: &Vec<char>)
    ensures
        final(s)@ == old(s)@ + v@,
{
    let mut i: usize = 0;
    while i < v.len()
        invariant
            i <= v@.len(),
            s@ == old(s)@ + v@.take(i as int),
        decreases v@.len() - i,
    {
        push_char(s, v[i]);
        i = i + 1;
        proof {
            assert(old(s)@ + v@.take(i as int) =~= (old(s)@ + v@.take(i - 1)).push(v@[i - 1]));
        }
    }
    proof {
        assert(old(s)@ + v@.take(v@.len() as int) =~= old(s)@ + v@);
    }
}

/// Builds the string holding exactly the given characters.
pub fn string_of(v: &Vec<char>) -> (r: String)
    ensures
        r@ == v@,
{
    let mut r = String::new();
    let mut i: usize = 0;
    while i < v.len()
        invariant
            i <= v@.len(),
            r@ == v@.take(i as int),
        decreases v@.len() - i,
    {
        push_char(&mut r, v[i]);
        i = i + 1;
        proof {
            assert(v@.take(i as int) =~= v@.take(i - 1).push(v@[i - 1]));
        }
    }
    proof {
        assert(v@.take(v@.len() as int) =~= v@);
    }
    r
}

} // verus!
