//! Character-level helpers shared by the parsers, maps and path logic of the library.
//!
//! Text is reasoned about as `Seq<char>` (the view of `String` and `&str`). Strings are
//! ordered lexicographically by character code, which is the order `str`'s `Ord` gives
//! (UTF-8 byte order and code point order agree).
use vstd::prelude::*;

verus! {

/// Lexicographic "strictly less than" on character sequences, by code point.
pub open spec fn char_seq_lt(a: Seq<char>, b: Seq<char>) -> bool
    decreases a.len(),
{
    if a.len() == 0 {
        b.len() > 0
    } else if b.len() == 0 {
        false
    } else if a[0] != b[0] {
        (a[0] as int) < (b[0] as int)
    } else {
        char_seq_lt(a.drop_first(), b.drop_first())
    }
}

/// No sequence is below itself.
pub proof fn lemma_lt_irreflexive(a: Seq<char>)
    ensures
        !char_seq_lt(a, a),
    decreases a.len(),
{
    if a.len() > 0 {
        lemma_lt_irreflexive(a.drop_first());
    }
}

/// Two different sequences are ordered one way or the other, never both.
pub proof fn lemma_lt_total(a: Seq<char>, b: Seq<char>)
    ensures
        a != b ==> (char_seq_lt(a, b) || char_seq_lt(b, a)),
        !(char_seq_lt(a, b) && char_seq_lt(b, a)),
    decreases a.len(),
{
    if a.len() > 0 && b.len() > 0 && a[0] == b[0] {
        lemma_lt_total(a.drop_first(), b.drop_first());
        if a != b {
            assert(a.drop_first() != b.drop_first()) by {
                if a.drop_first() == b.drop_first() {
                    assert(a =~= seq![a[0]] + a.drop_first());
                    assert(b =~= seq![b[0]] + b.drop_first());
                }
            }
        }
    } else if a.len() > 0 && b.len() > 0 {
        let (x, y) = (a[0] as int, b[0] as int);
        assert(a[0] != b[0] ==> x != y);
    } else if a.len() == 0 && b.len() == 0 {
        assert(a =~= b);
    }
}

/// The order is transitive.
pub proof fn lemma_lt_transitive(a: Seq<char>, b: Seq<char>, c: Seq<char>)
    requires
        char_seq_lt(a, b),
        char_seq_lt(b, c),
    ensures
        char_seq_lt(a, c),
    decreases a.len(),
{
    if a.len() > 0 && b.len() > 0 && c.len() > 0 && a[0] == b[0] && b[0] == c[0] {
        lemma_lt_transitive(a.drop_first(), b.drop_first(), c.drop_first());
    }
}

/// Compares two character sequences: negative, zero or positive as `a` is below, equal
/// to or above `b`.
pub fn compare_chars(a: &[char], b: &[char]) -> (r: i8)
    ensures
        r < 0 <==> char_seq_lt(a@, b@),
        r == 0 <==> a@ == b@,
        r > 0 <==> char_seq_lt(b@, a@),
{
    let mut i: usize = 0;
    proof {
        assert(a@.skip(0) =~= a@);
        assert(b@.skip(0) =~= b@);
    }
    while i < a.len() && i < b.len()
        invariant
            i <= a.len(),
            i <= b.len(),
            a@.take(i as int) =~= b@.take(i as int),
            char_seq_lt(a@, b@) == char_seq_lt(a@.skip(i as int), b@.skip(i as int)),
            char_seq_lt(b@, a@) == char_seq_lt(b@.skip(i as int), a@.skip(i as int)),
        decreases a.len() - i,
    {
        if a[i] != b[i] {
            proof {
                lemma_lt_total(a@, b@);
                assert(a@ != b@) by {
                    if a@ == b@ {
                        assert(a@[i as int] == b@[i as int]);
                    }
                }
                assert((a@[i as int] as int) != (b@[i as int] as int));
            }
            proof {
                assert(a@.skip(i as int)[0] == a@[i as int]);
                assert(b@.skip(i as int)[0] == b@[i as int]);
            }
            if a[i] < b[i] {
                return -1;
            } else {
                return 1;
            }
        }
        proof {
            assert(a@.skip(i as int).drop_first() =~= a@.skip(i + 1));
            assert(b@.skip(i as int).drop_first() =~= b@.skip(i + 1));
            assert(a@.take(i + 1) =~= a@.take(i as int).push(a@[i as int]));
            assert(b@.take(i + 1) =~= b@.take(i as int).push(b@[i as int]));
        }
        i = i + 1;
    }
    if a.len() == b.len() {
        proof {
            assert(a@ =~= a@.take(i as int));
            assert(b@ =~= b@.take(i as int));
            lemma_lt_irreflexive(a@);
        }
        0
    } else if i == a.len() {
        proof {
            assert(a@ != b@);
            lemma_lt_total(a@, b@);
        }
        -1
    } else {
        proof {
            assert(a@ != b@) by {
                if a@ == b@ {
                    assert(a@.len() == b@.len());
                }
            }
            lemma_lt_total(a@, b@);
        }
        1
    }
}

/// The characters of `s`, in order.
pub fn chars_of(s: &str) -> (out: Vec<char>)
    ensures
        out@ == s@,
{
    let mut out: Vec<char> = Vec::new();
    for c in it: s.chars()
        invariant
            out@ == it.seq().take(it.index() as int),
    {
        out.push(c);
    }
    out
}

/// Builds a `String` holding exactly the given characters: the standard library's
/// `FromIterator<&char>` for `String`, which appends each character in turn.
#[verifier::external_body]
pub(crate) fn string_from_chars(chars: &[char]) -> (s: String)
    ensures
        s@ == chars@,
{
    chars.iter().collect()
}

/// Whether two strings hold the same characters.
pub fn str_eq(a: &str, b: &str) -> (r: bool)
    ensures
        r == (a@ == b@),
{
    let x = chars_of(a);
    let y = chars_of(b);
    compare_chars(x.as_slice(), y.as_slice()) == 0
}


/// `pat` occurs in `s` at position `i`.
pub open spec fn matches_at(s: Seq<char>, pat: Seq<char>, i: int) -> bool {
    0 <= i && i + pat.len() <= s.len() && s.subrange(i, i + pat.len()) == pat
}

/// The first position at or after `i` where `pat` occurs in `s`, or -1.
pub open spec fn find_from(s: Seq<char>, pat: Seq<char>, i: int) -> int
    decreases s.len() - i,
{
    if i < 0 || i + pat.len() > s.len() {
        -1
    } else if matches_at(s, pat, i) {
        i
    } else if i >= s.len() {
        -1
    } else {
        find_from(s, pat, i + 1)
    }
}

/// What `find_from` returns is a match, and nothing between the start and it is one.
pub proof fn lemma_find_from(s: Seq<char>, pat: Seq<char>, i: int)
    requires
        0 <= i,
    ensures
        find_from(s, pat, i) == -1 || (i <= find_from(s, pat, i) && matches_at(
            s,
            pat,
            find_from(s, pat, i),
        )),
        find_from(s, pat, i) >= 0 ==> find_from(s, pat, i) + pat.len() <= s.len(),
        forall|j: int|
            i <= j && (find_from(s, pat, i) == -1 || j < find_from(s, pat, i)) ==> !matches_at(
                s,
                pat,
                j,
            ),
    decreases s.len() - i,
{
    if i + pat.len() > s.len() {
    } else if matches_at(s, pat, i) {
    } else if i >= s.len() {
        assert forall|j: int| i <= j implies !matches_at(s, pat, j) by {
            if j == i {
            }
        }
    } else {
        lemma_find_from(s, pat, i + 1);
    }
}

/// `s` cut at every occurrence of the non-empty `pat`, scanning left to right: the
/// pieces `str::split` yields.
pub open spec fn split_seq(s: Seq<char>, pat: Seq<char>) -> Seq<Seq<char>>
    decreases s.len(),
{
    if pat.len() == 0 {
        seq![s]
    } else {
        let i = find_from(s, pat, 0);
        if i < 0 || i + pat.len() > s.len() {
            seq![s]
        } else {
            seq![s.take(i)] + split_seq(s.skip(i + pat.len()), pat)
        }
    }
}

/// Whether `pat` occurs anywhere in `s`.
pub open spec fn contains_seq(s: Seq<char>, pat: Seq<char>) -> bool {
    find_from(s, pat, 0) >= 0
}

/// The pieces joined back together with `sep` between each two.
pub open spec fn join_seq(parts: Seq<Seq<char>>, sep: Seq<char>) -> Seq<char>
    decreases parts.len(),
{
    if parts.len() == 0 {
        Seq::empty()
    } else if parts.len() == 1 {
        parts[0]
    } else {
        join_seq(parts.drop_last(), sep) + sep + parts.last()
    }
}

/// `s` with every occurrence of `from` (left to right, not overlapping) replaced by
/// `to`: what `str::replace` gives.
pub open spec fn replace_seq(s: Seq<char>, from: Seq<char>, to: Seq<char>) -> Seq<char> {
    join_seq(split_seq(s, from), to)
}

/// Whether `pat` occurs in `s` at `i` (checked one character at a time).
fn matches_at_exec(s: &[char], pat: &[char], i: usize) -> (b: bool)
    ensures
        b == matches_at(s@, pat@, i as int),
{
    if i > s.len() || pat.len() > s.len() - i {
        return false;
    }
    let mut j: usize = 0;
    while j < pat.len()
        invariant
            i + pat@.len() <= s@.len(),
            i + pat.len() <= s.len(),
            j <= pat@.len(),
            forall|k: int| 0 <= k < j ==> s@[i + k] == pat@[k],
        decreases pat@.len() - j,
    {
        if s[i + j] != pat[j] {
            proof {
                assert(s@.subrange(i as int, i + pat@.len())[j as int] == s@[i + j]);
            }
            return false;
        }
        j = j + 1;
    }
    proof {
        assert(s@.subrange(i as int, i + pat@.len()) =~= pat@);
    }
    true
}

/// The first position at or after `from` where `pat` occurs in `s`.
pub fn find_chars(s: &[char], pat: &[char], from: usize) -> (r: Option<usize>)
    ensures
        match r {
            Some(i) => i as int == find_from(s@, pat@, from as int),
            None => find_from(s@, pat@, from as int) == -1,
        },
{
    let mut i = from;
    while i <= s.len() && pat.len() <= s.len() - i
        invariant
            from <= i,
            find_from(s@, pat@, from as int) == find_from(s@, pat@, i as int),
        decreases s@.len() + 1 - i,
    {
        if matches_at_exec(s, pat, i) {
            return Some(i);
        }
        proof {
            if pat@.len() == 0 {
                assert(s@.subrange(i as int, i as int) =~= pat@);
            }
        }
        i = i + 1;
    }
    None
}

/// Whether `pat` occurs in `s`.
pub fn contains_chars(s: &[char], pat: &[char]) -> (b: bool)
    ensures
        b == contains_seq(s@, pat@),
{
    find_chars(s, pat, 0).is_some()
}

/// The pieces of `s` between occurrences of the non-empty `pat`, as `str::split` gives
/// them.
pub fn split_chars(s: &[char], pat: &[char]) -> (parts: Vec<Vec<char>>)
    requires
        pat@.len() > 0,
    ensures
        parts@.len() == split_seq(s@, pat@).len(),
        forall|k: int| 0 <= k < parts@.len() ==> #[trigger] parts@[k]@ == split_seq(s@, pat@)[k],
{
    let mut parts: Vec<Vec<char>> = Vec::new();
    let mut pos: usize = 0;
    let ghost done: Seq<Seq<char>> = Seq::empty();
    proof {
        assert(s@.skip(0) =~= s@);
    }
    loop
        invariant
            pos <= s@.len(),
            pat@.len() > 0,
            parts@.len() == done.len(),
            forall|k: int| 0 <= k < parts@.len() ==> #[trigger] parts@[k]@ == done[k],
            done + split_seq(s@.skip(pos as int), pat@) == split_seq(s@, pat@),
        decreases s@.len() - pos,
    {
        let ghost rest = s@.skip(pos as int);
        match find_chars(s, pat, pos) {
            Some(i) => {
                proof {
                    lemma_find_from(s@, pat@, pos as int);
                    lemma_find_shift(s@, pat@, pos as int);
                    lemma_find_from(rest, pat@, 0);
                }
                let mut piece: Vec<char> = Vec::new();
                let mut j = pos;
                while j < i
                    invariant
                        pos <= j <= i,
                        i <= s@.len(),
                        piece@ =~= s@.subrange(pos as int, j as int),
                    decreases i - j,
                {
                    piece.push(s[j]);
                    j = j + 1;
                }
                proof {
                    let fi = (i - pos) as int;
                    assert(find_from(rest, pat@, 0) == fi);
                    assert(piece@ =~= rest.take(fi));
                    assert(rest.skip(fi + pat@.len()) =~= s@.skip(i + pat@.len()));
                    assert(split_seq(rest, pat@) =~= seq![rest.take(fi)] + split_seq(
                        s@.skip(i + pat@.len()),
                        pat@,
                    ));
                    done = done.push(piece@);
                    assert(done + split_seq(s@.skip(i + pat@.len()), pat@) =~= split_seq(s@, pat@));
                }
                parts.push(piece);
                assert(i + pat@.len() <= s@.len());
                assert(i + pat.len() <= s.len());
                pos = i + pat.len();
            },
            None => {
                proof {
                    lemma_find_shift(s@, pat@, pos as int);
                }
                let mut piece: Vec<char> = Vec::new();
                let mut j = pos;
                while j < s.len()
                    invariant
                        pos <= j <= s@.len(),
                        piece@ =~= s@.subrange(pos as int, j as int),
                    decreases s@.len() - j,
                {
                    piece.push(s[j]);
                    j = j + 1;
                }
                proof {
                    assert(find_from(rest, pat@, 0) == -1);
                    assert(split_seq(rest, pat@) =~= seq![rest]);
                    assert(piece@ =~= rest);
                    done = done.push(piece@);
                    assert(done =~= split_seq(s@, pat@));
                }
                parts.push(piece);
                return parts;
            },
        }
    }
}

/// Searching from `pos` in `s` is searching from the start of `s.skip(pos)`.
pub proof fn lemma_find_shift(s: Seq<char>, pat: Seq<char>, pos: int)
    requires
        0 <= pos <= s.len(),
    ensures
        find_from(s.skip(pos), pat, 0) == (if find_from(s, pat, pos) < 0 {
            -1
        } else {
            find_from(s, pat, pos) - pos
        }),
{
    lemma_find_shift_from(s, pat, pos, pos);
}

proof fn lemma_find_shift_from(s: Seq<char>, pat: Seq<char>, pos: int, i: int)
    requires
        0 <= pos <= i,
        pos <= s.len(),
    ensures
        find_from(s.skip(pos), pat, i - pos) == (if find_from(s, pat, i) < 0 {
            -1
        } else {
            find_from(s, pat, i) - pos
        }),
    decreases s.len() - i,
{
    let r = s.skip(pos);
    if i + pat.len() > s.len() {
    } else {
        assert(matches_at(r, pat, i - pos) == matches_at(s, pat, i)) by {
            assert(r.subrange(i - pos, i - pos + pat.len()) =~= s.subrange(i, i + pat.len()));
        }
        if !matches_at(s, pat, i) && i < s.len() {
            lemma_find_shift_from(s, pat, pos, i + 1);
        }
    }
}

/// The pieces joined back together with `sep` between each two.
pub fn join_chars(parts: &Vec<Vec<char>>, sep: &[char]) -> (out: Vec<char>)
    ensures
        out@ == join_seq(parts@.map_values(|p: Vec<char>| p@), sep@),
{
    let ghost views = parts@.map_values(|p: Vec<char>| p@);
    let mut out: Vec<char> = Vec::new();
    let mut i: usize = 0;
    while i < parts.len()
        invariant
            i <= parts@.len(),
            views == parts@.map_values(|p: Vec<char>| p@),
            out@ == join_seq(views.take(i as int), sep@),
        decreases parts@.len() - i,
    {
        if i > 0 {
            let mut k: usize = 0;
            let ghost before = out@;
            while k < sep.len()
                invariant
                    k <= sep@.len(),
                    out@ == before + sep@.take(k as int),
                decreases sep@.len() - k,
            {
                out.push(sep[k]);
                proof {
                    assert(sep@.take(k + 1) =~= sep@.take(k as int).push(sep@[k as int]));
                }
                k = k + 1;
            }
        }
        let ghost before = out@;
        let p = &parts[i];
        let mut k: usize = 0;
        while k < p.len()
            invariant
                k <= p@.len(),
                out@ == before + p@.take(k as int),
            decreases p@.len() - k,
        {
            out.push(p[k]);
            proof {
                assert(p@.take(k + 1) =~= p@.take(k as int).push(p@[k as int]));
            }
            k = k + 1;
        }
        proof {
            assert(views.take(i + 1).drop_last() =~= views.take(i as int));
            assert(views[i as int] == p@);
            if i == 0 {
                assert(out@ =~= p@);
            } else {
                assert(sep@.take(sep@.len() as int) =~= sep@);
            }
            assert(p@.take(p@.len() as int) =~= p@);
        }
        i = i + 1;
    }
    proof {
        assert(views.take(parts@.len() as int) =~= views);
    }
    out
}

/// `s` with every occurrence of the non-empty `from` replaced by `to`.
pub fn replace_chars(s: &[char], from: &[char], to: &[char]) -> (out: Vec<char>)
    requires
        from@.len() > 0,
    ensures
        out@ == replace_seq(s@, from@, to@),
{
    let parts = split_chars(s, from);
    proof {
        assert(parts@.map_values(|p: Vec<char>| p@) =~= split_seq(s@, from@));
    }
    join_chars(&parts, to)
}

} // verus!
