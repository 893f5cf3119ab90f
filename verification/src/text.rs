//! Character-level helpers on strings: the characters of a `str`, equality,
//! prefixes, Unicode white space and trimming.

use vstd::prelude::*;

verus! {

/// The characters of `s`, in order.
pub fn chars_of(s: &str) -> (r: Vec<char>)
    ensures
        r@ == s@,
{
    let mut r: Vec<char> = Vec::new();
    for c in it: s.chars()
        invariant
            r@ == it.seq().take(it.index() as int),
            it.seq() == s@,
    {
        r.push(c);
    }
    r
}

/// Whether `a` and `b` hold the same characters.
pub fn chars_eq(a: &Vec<char>, b: &Vec<char>) -> (r: bool)
    ensures
        r == (a@ == b@),
{
    if a.len() != b.len() {
        return false;
    }
    let mut i: usize = 0;
    while i < a.len()
        invariant
            a@.len() == b@.len(),
            i <= a@.len(),
            forall|j: int| 0 <= j < i ==> a@[j] == b@[j],
        decreases a@.len() - i,
    {
        if a[i] != b[i] {
            return false;
        }
        i = i + 1;
    }
    assert(a@ =~= b@);
    true
}

/// Whether two strings hold the same characters.
pub fn str_eq(a: &str, b: &str) -> (r: bool)
    ensures
        r == (a@ == b@),
{
    let ca = chars_of(a);
    let cb = chars_of(b);
    chars_eq(&ca, &cb)
}

/// `p` is a prefix of `s`.
pub open spec fn has_prefix(s: Seq<char>, p: Seq<char>) -> bool {
    p.len() <= s.len() && s.subrange(0, p.len() as int) == p
}

/// Whether `s[from..to]` starts with `p`.
pub fn range_has_prefix(s: &Vec<char>, from: usize, to: usize, p: &Vec<char>) -> (r: bool)
    requires
        from <= to <= s@.len(),
    ensures
        r == has_prefix(s@.subrange(from as int, to as int), p@),
{
    if p.len() > to - from {
        return false;
    }
    let mut i: usize = 0;
    while i < p.len()
        invariant
            from <= to <= s@.len(),
            p@.len() <= to - from,
            i <= p@.len(),
            forall|j: int| 0 <= j < i ==> s@[from + j] == p@[j],
        decreases p@.len() - i,
    {
        if s[from + i] != p[i] {
            assert(s@.subrange(from as int, to as int).subrange(0, p@.len() as int)[i as int]
                != p@[i as int]);
            return false;
        }
        i = i + 1;
    }
    assert(s@.subrange(from as int, to as int).subrange(0, p@.len() as int) =~= p@);
    true
}

/// The Unicode `White_Space` property, which is what `char::is_whitespace`
/// and `str::trim` go by.
pub open spec fn is_white_space(c: char) -> bool {
    let u = c as u32;
    ||| 0x09 <= u <= 0x0d
    ||| u == 0x20
    ||| u == 0x85
    ||| u == 0xa0
    ||| u == 0x1680
    ||| 0x2000 <= u <= 0x200a
    ||| u == 0x2028
    ||| u == 0x2029
    ||| u == 0x202f
    ||| u == 0x205f
    ||| u == 0x3000
}

/// Whether `c` is Unicode white space.
pub fn white_space(c: char) -> (r: bool)
    ensures
        r == is_white_space(c),
{
    let u = c as u32;
    (0x09 <= u && u <= 0x0d) || u == 0x20 || u == 0x85 || u == 0xa0 || u == 0x1680 || (0x2000
        <= u && u <= 0x200a) || u == 0x2028 || u == 0x2029 || u == 0x202f || u == 0x205f || u
        == 0x3000
}

/// `s` without its leading white space.
pub open spec fn trim_start(s: Seq<char>) -> Seq<char>
    decreases s.len(),
{
    if s.len() > 0 && is_white_space(s[0]) {
        trim_start(s.drop_first())
    } else {
        s
    }
}

/// `s` without its trailing white space.
pub open spec fn trim_end(s: Seq<char>) -> Seq<char>
    decreases s.len(),
{
    if s.len() > 0 && is_white_space(s.last()) {
        trim_end(s.drop_last())
    } else {
        s
    }
}

/// `s` without leading and trailing white space, as `str::trim` gives it.
pub open spec fn trim(s: Seq<char>) -> Seq<char> {
    trim_end(trim_start(s))
}

proof fn lemma_trim_start_at(s: Seq<char>, k: int)
    requires
        0 <= k <= s.len(),
        forall|i: int| 0 <= i < k ==> is_white_space(#[trigger] s[i]),
        k == s.len() || !is_white_space(s[k]),
    ensures
        trim_start(s) == s.subrange(k, s.len() as int),
    decreases k,
{
    if k == 0 {
        assert(s.subrange(0, s.len() as int) =~= s);
    } else {
        let t = s.drop_first();
        assert forall|i: int| 0 <= i < k - 1 implies is_white_space(#[trigger] t[i]) by {
            assert(t[i] == s[i + 1]);
        }
        lemma_trim_start_at(t, k - 1);
        assert(t.subrange(k - 1, t.len() as int) =~= s.subrange(k, s.len() as int));
    }
}

proof fn lemma_trim_end_at(s: Seq<char>, k: int)
    requires
        0 <= k <= s.len(),
        forall|i: int| k <= i < s.len() ==> is_white_space(#[trigger] s[i]),
        k == 0 || !is_white_space(s[k - 1]),
    ensures
        trim_end(s) == s.subrange(0, k),
    decreases s.len() - k,
{
    if k == s.len() {
        assert(s.subrange(0, k) =~= s);
    } else {
        let t = s.drop_last();
        assert forall|i: int| k <= i < t.len() implies is_white_space(#[trigger] t[i]) by {
            assert(t[i] == s[i]);
        }
        lemma_trim_end_at(t, k);
        assert(t.subrange(0, k) =~= s.subrange(0, k));
    }
}

/// The bounds `lo..hi` of `trim(s[from..to])` within `s`.
pub fn trim_range(s: &Vec<char>, from: usize, to: usize) -> (r: (usize, usize))
    requires
        from <= to <= s@.len(),
    ensures
        from <= r.0 <= r.1 <= to,
        s@.subrange(r.0 as int, r.1 as int) == trim(s@.subrange(from as int, to as int)),
{
    let ghost w = s@.subrange(from as int, to as int);
    let mut lo: usize = from;
    while lo < to && white_space(s[lo])
        invariant
            from <= lo <= to <= s@.len(),
            w == s@.subrange(from as int, to as int),
            forall|i: int| from <= i < lo ==> is_white_space(#[trigger] s@[i]),
        decreases to - lo,
    {
        lo = lo + 1;
    }
    proof {
        assert forall|i: int| 0 <= i < lo - from implies is_white_space(#[trigger] w[i]) by {
            assert(w[i] == s@[from + i]);
        }
        lemma_trim_start_at(w, lo - from);
    }
    let ghost u = s@.subrange(lo as int, to as int);
    assert(w.subrange(lo - from, w.len() as int) =~= u);
    let mut hi: usize = to;
    while hi > lo && white_space(s[hi - 1])
        invariant
            from <= lo <= hi <= to <= s@.len(),
            u == s@.subrange(lo as int, to as int),
            forall|i: int| hi <= i < to ==> is_white_space(#[trigger] s@[i]),
        decreases hi - lo,
    {
        hi = hi - 1;
    }
    proof {
        assert forall|i: int| hi - lo <= i < u.len() implies is_white_space(#[trigger] u[i]) by {
            assert(u[i] == s@[lo + i]);
        }
        if hi > lo {
            assert(u[hi - lo - 1] == s@[hi - 1]);
        }
        lemma_trim_end_at(u, hi - lo);
        assert(u.subrange(0, hi - lo) =~= s@.subrange(lo as int, hi as int));
    }
    (lo, hi)
}

/// `s` with leading and trailing white space removed.
pub fn trim_str(s: &str) -> (r: String)
    ensures
        r@ == trim(s@),
{
    let cs = chars_of(s);
    let (lo, hi) = trim_range(&cs, 0, cs.len());
    assert(cs@.subrange(0, cs@.len() as int) =~= cs@);
    String::from_str(s.substring_char(lo, hi))
}

/// The pieces of `s` between occurrences of `sep`, as `str::split` yields
/// them: one more piece than there are separators, empty pieces included.
pub open spec fn split_on(s: Seq<char>, sep: char) -> Seq<Seq<char>>
    decreases s.len(),
{
    if s.len() == 0 {
        seq![Seq::empty()]
    } else {
        let init = split_on(s.drop_last(), sep);
        if s.last() == sep {
            init.push(Seq::empty())
        } else {
            init.update(init.len() - 1, init.last().push(s.last()))
        }
    }
}

/// A piece, trimmed first if `trimmed` holds.
pub open spec fn piece_text(piece: Seq<char>, trimmed: bool) -> Seq<char> {
    if trimmed {
        trim(piece)
    } else {
        piece
    }
}

/// Of the first piece whose text starts with `prefix`, the rest of the text
/// after the prefix; as `find_map` over the pieces with `strip_prefix` gives it.
pub open spec fn first_with_prefix(pieces: Seq<Seq<char>>, prefix: Seq<char>, trimmed: bool) -> Option<
    Seq<char>,
>
    decreases pieces.len(),
{
    if pieces.len() == 0 {
        None
    } else {
        let text = piece_text(pieces[0], trimmed);
        if has_prefix(text, prefix) {
            Some(text.skip(prefix.len() as int))
        } else {
            first_with_prefix(pieces.drop_first(), prefix, trimmed)
        }
    }
}

/// The pieces put back together with the separator between them.
pub open spec fn join_with(pieces: Seq<Seq<char>>, sep: char) -> Seq<char>
    decreases pieces.len(),
{
    if pieces.len() <= 1 {
        if pieces.len() == 1 {
            pieces[0]
        } else {
            Seq::empty()
        }
    } else {
        join_with(pieces.drop_last(), sep) + seq![sep] + pieces.last()
    }
}

/// Splitting cuts at every separator and nowhere else: no piece holds the
/// separator, and the pieces joined with it give back the string.
pub proof fn lemma_split_on_cuts_at_separators(s: Seq<char>, sep: char)
    ensures
        split_on(s, sep).len() >= 1,
        join_with(split_on(s, sep), sep) == s,
        forall|k: int, i: int|
            0 <= k < split_on(s, sep).len() && 0 <= i < split_on(s, sep)[k].len() ==> (#[trigger] split_on(
                s,
                sep,
            )[k][i]) != sep,
    decreases s.len(),
{
    if s.len() == 0 {
        assert(join_with(split_on(s, sep), sep) =~= s);
    } else {
        let d = s.drop_last();
        lemma_split_on_cuts_at_separators(d, sep);
        let init = split_on(d, sep);
        let p = split_on(s, sep);
        assert(d.push(s.last()) =~= s);
        if s.last() == sep {
            assert(p.drop_last() =~= init);
            assert(join_with(p, sep) =~= s);
            assert forall|k: int, i: int| 0 <= k < p.len() && 0 <= i < p[k].len() implies (
            #[trigger] p[k][i]) != sep by {
                if k < init.len() {
                    assert(p[k] == init[k]);
                }
            }
        } else {
            let n = init.len() as int;
            if n == 1 {
                assert(p =~= seq![init[0].push(s.last())]);
                assert(join_with(p, sep) =~= s);
            } else {
                assert(p.drop_last() =~= init.drop_last());
                assert(join_with(init, sep) == join_with(init.drop_last(), sep) + seq![sep]
                    + init.last());
                assert(join_with(p, sep) =~= s);
            }
            assert forall|k: int, i: int| 0 <= k < p.len() && 0 <= i < p[k].len() implies (
            #[trigger] p[k][i]) != sep by {
                if k < n - 1 {
                    assert(p[k] == init[k]);
                } else if i < init[k].len() {
                    assert(p[k][i] == init[k][i]);
                } else {
                    assert(p[k][i] == s.last());
                }
            }
        }
    }
}

/// `first_with_prefix` finds the first piece whose text starts with the
/// prefix and gives what follows the prefix; it gives nothing only where no
/// piece's text starts with the prefix.
pub proof fn lemma_first_with_prefix_finds_first(
    pieces: Seq<Seq<char>>,
    prefix: Seq<char>,
    trimmed: bool,
)
    ensures
        first_with_prefix(pieces, prefix, trimmed) is None <==> forall|k: int|
            0 <= k < pieces.len() ==> !has_prefix(piece_text(#[trigger] pieces[k], trimmed), prefix),
        first_with_prefix(pieces, prefix, trimmed) matches Some(v) ==> exists|k: int|
            0 <= k < pieces.len() && piece_text(#[trigger] pieces[k], trimmed) == prefix + v
                && forall|j: int|
                0 <= j < k ==> !has_prefix(piece_text(#[trigger] pieces[j], trimmed), prefix),
    decreases pieces.len(),
{
    if pieces.len() > 0 {
        let rest = pieces.drop_first();
        lemma_first_with_prefix_finds_first(rest, prefix, trimmed);
        let text = piece_text(pieces[0], trimmed);
        if has_prefix(text, prefix) {
            let v = text.skip(prefix.len() as int);
            assert(text =~= prefix + v);
        } else {
            assert forall|k: int| 1 <= k < pieces.len() implies pieces[k] == rest[k - 1] by {}
            if first_with_prefix(pieces, prefix, trimmed) is None {
                assert forall|k: int| 0 <= k < pieces.len() implies !has_prefix(
                    piece_text(#[trigger] pieces[k], trimmed),
                    prefix,
                ) by {
                    if k > 0 {
                        assert(pieces[k] == rest[k - 1]);
                    }
                }
            } else {
                let v = first_with_prefix(pieces, prefix, trimmed)->0;
                let k0 = choose|k: int|
                    0 <= k < rest.len() && piece_text(#[trigger] rest[k], trimmed) == prefix + v
                        && forall|j: int|
                        0 <= j < k ==> !has_prefix(piece_text(#[trigger] rest[j], trimmed), prefix);
                assert(pieces[k0 + 1] == rest[k0]);
                assert forall|j: int| 0 <= j < k0 + 1 implies !has_prefix(
                    piece_text(#[trigger] pieces[j], trimmed),
                    prefix,
                ) by {
                    if j > 0 {
                        assert(pieces[j] == rest[j - 1]);
                    }
                }
            }
            if exists|k: int|
                0 <= k < pieces.len() && has_prefix(piece_text(#[trigger] pieces[k], trimmed), prefix) {
                let k = choose|k: int|
                    0 <= k < pieces.len() && has_prefix(piece_text(#[trigger] pieces[k], trimmed), prefix);
                assert(k > 0);
                assert(pieces[k] == rest[k - 1]);
            }
        }
    }
}

/// `split_on` never yields an empty list of pieces.
pub proof fn lemma_split_on_nonempty(s: Seq<char>, sep: char)
    ensures
        split_on(s, sep).len() >= 1,
    decreases s.len(),
{
    if s.len() > 0 {
        lemma_split_on_nonempty(s.drop_last(), sep);
    }
}

/// A string without the separator is a single piece.
pub proof fn lemma_split_on_without_separator(s: Seq<char>, sep: char)
    requires
        forall|i: int| 0 <= i < s.len() ==> s[i] != sep,
    ensures
        split_on(s, sep) == seq![s],
    decreases s.len(),
{
    if s.len() == 0 {
        assert(s =~= Seq::<char>::empty());
        assert(split_on(s, sep) =~= seq![s]);
    } else {
        let d = s.drop_last();
        assert forall|i: int| 0 <= i < d.len() implies d[i] != sep by {
            assert(d[i] == s[i]);
        }
        lemma_split_on_without_separator(d, sep);
        assert(s.last() == s[s.len() - 1]);
        assert(d.push(s.last()) =~= s);
        let init = split_on(d, sep);
        assert(init.last() == d);
        assert(init.update(0, d.push(s.last())) =~= seq![s]);
    }
}

/// A string that neither starts nor ends with white space is its own trim.
pub proof fn lemma_trim_unchanged(s: Seq<char>)
    requires
        s.len() > 0,
        !is_white_space(s[0]),
        !is_white_space(s.last()),
    ensures
        trim(s) == s,
{
}

proof fn lemma_trim_start_head(s: Seq<char>)
    ensures
        trim_start(s).len() == 0 || !is_white_space(trim_start(s)[0]),
    decreases s.len(),
{
    if s.len() > 0 && is_white_space(s[0]) {
        lemma_trim_start_head(s.drop_first());
    }
}

proof fn lemma_trim_end_prefix(s: Seq<char>)
    ensures
        trim_end(s).len() <= s.len(),
        trim_end(s) == s.take(trim_end(s).len() as int),
        trim_end(s).len() == 0 || !is_white_space(trim_end(s).last()),
    decreases s.len(),
{
    if s.len() > 0 && is_white_space(s.last()) {
        let d = s.drop_last();
        lemma_trim_end_prefix(d);
        assert(d.take(trim_end(d).len() as int) =~= s.take(trim_end(d).len() as int));
    } else {
        assert(s.take(s.len() as int) =~= s);
    }
}

/// A trimmed string neither starts nor ends with white space, so trimming
/// it again changes nothing.
pub proof fn lemma_trim_has_no_outer_space(s: Seq<char>)
    ensures
        trim(s).len() > 0 ==> !is_white_space(trim(s)[0]) && !is_white_space(trim(s).last()),
        trim(trim(s)) == trim(s),
{
    let u = trim_start(s);
    lemma_trim_start_head(s);
    lemma_trim_end_prefix(u);
    if trim(s).len() > 0 {
        assert(trim(s)[0] == u.take(trim(s).len() as int)[0]);
        lemma_trim_unchanged(trim(s));
    } else {
        assert(trim(s) =~= Seq::<char>::empty());
    }
}

proof fn lemma_trim_start_shape(s: Seq<char>)
    ensures
        trim_start(s) == s.skip(s.len() - trim_start(s).len()),
        trim_start(s).len() <= s.len(),
        forall|k: int| 0 <= k < s.len() - trim_start(s).len() ==> is_white_space(#[trigger] s[k]),
    decreases s.len(),
{
    if s.len() > 0 && is_white_space(s[0]) {
        let d = s.drop_first();
        lemma_trim_start_shape(d);
        assert(d.skip(d.len() - trim_start(d).len()) =~= s.skip(s.len() - trim_start(s).len()));
        assert forall|k: int| 0 <= k < s.len() - trim_start(s).len() implies is_white_space(
            #[trigger] s[k],
        ) by {
            if k > 0 {
                assert(s[k] == d[k - 1]);
            }
        }
    } else {
        assert(s.skip(0) =~= s);
    }
}

proof fn lemma_trim_end_tail(s: Seq<char>)
    ensures
        forall|k: int| trim_end(s).len() <= k < s.len() ==> is_white_space(#[trigger] s[k]),
    decreases s.len(),
{
    if s.len() > 0 && is_white_space(s.last()) {
        let d = s.drop_last();
        lemma_trim_end_tail(d);
        lemma_trim_end_prefix(d);
        assert forall|k: int| trim_end(s).len() <= k < s.len() implies is_white_space(
            #[trigger] s[k],
        ) by {
            if k < d.len() {
                assert(s[k] == d[k]);
            }
        }
    }
}

/// Trimming removes exactly the outer white space: the trimmed text is the
/// stretch from the first to the last character that is not white space
/// (empty when there is none), and everything cut off is white space.
pub proof fn lemma_trim_strips_outer_white_space(s: Seq<char>)
    ensures
        exists|i: int, j: int|
            {
                &&& 0 <= i <= j <= s.len()
                &&& forall|k: int| 0 <= k < i ==> is_white_space(#[trigger] s[k])
                &&& forall|k: int| j <= k < s.len() ==> is_white_space(#[trigger] s[k])
                &&& i < j ==> !is_white_space(s[i]) && !is_white_space(s[j - 1])
                &&& trim(s) == s.subrange(i, j)
            },
{
    let u = trim_start(s);
    lemma_trim_start_shape(s);
    lemma_trim_start_head(s);
    lemma_trim_end_prefix(u);
    lemma_trim_end_tail(u);
    let i = s.len() - u.len();
    let m = trim_end(u).len() as int;
    let j = i + m;
    assert(u =~= s.skip(i));
    assert forall|k: int| j <= k < s.len() implies is_white_space(#[trigger] s[k]) by {
        assert(s[k] == u[k - i]);
    }
    if i < j {
        assert(s[i] == u[0]);
        assert(s[j - 1] == u[m - 1]);
        assert(trim_end(u).last() == u.take(m)[m - 1]);
    }
    assert(trim(s) =~= s.subrange(i, j));
}

proof fn lemma_trim_start_push(s: Seq<char>, c: char)
    ensures
        trim_start(s.push(c)) == (if trim_start(s).len() == 0 {
            trim_start(seq![c])
        } else {
            trim_start(s).push(c)
        }),
    decreases s.len(),
{
    if s.len() == 0 {
        assert(s.push(c) =~= seq![c]);
    } else if is_white_space(s[0]) {
        assert(s.push(c).drop_first() =~= s.drop_first().push(c));
        lemma_trim_start_push(s.drop_first(), c);
    } else {
        assert(s.push(c)[0] == s[0]);
    }
}

/// White space added at the end, such as a space a phone keyboard leaves
/// after a word, does not change the trimmed text.
pub proof fn lemma_trim_ignores_trailing_white_space(s: Seq<char>, c: char)
    requires
        is_white_space(c),
    ensures
        trim(s.push(c)) == trim(s),
{
    lemma_trim_start_push(s, c);
    let u = trim_start(s);
    if u.len() == 0 {
        assert(seq![c][0] == c);
        assert(seq![c].drop_first() =~= Seq::<char>::empty());
        assert(trim_start(Seq::<char>::empty()) =~= Seq::<char>::empty());
        assert(trim_start(seq![c]) == trim_start(seq![c].drop_first()));
        assert(trim_start(seq![c]) =~= Seq::<char>::empty());
    } else {
        assert(u.push(c).drop_last() =~= u);
    }
}

/// Splitting at a separator splits the pieces.
pub proof fn lemma_split_on_at_separator(s: Seq<char>, sep: char, i: int)
    requires
        0 <= i < s.len(),
        s[i] == sep,
    ensures
        split_on(s, sep) == split_on(s.take(i), sep) + split_on(s.skip(i + 1), sep),
    decreases s.len() - i,
{
    let a = split_on(s.take(i), sep);
    if i == s.len() - 1 {
        assert(s.drop_last() =~= s.take(i));
        assert(s.skip(i + 1) =~= Seq::<char>::empty());
        assert(split_on(s, sep) =~= a + split_on(s.skip(i + 1), sep));
    } else {
        let d = s.drop_last();
        assert(d[i] == sep);
        lemma_split_on_at_separator(d, sep, i);
        assert(d.take(i) =~= s.take(i));
        let t = s.skip(i + 1);
        assert(d.skip(i + 1) =~= t.drop_last());
        assert(t.last() == s.last());
        let b0 = split_on(t.drop_last(), sep);
        lemma_split_on_nonempty(t.drop_last(), sep);
        if s.last() == sep {
            assert(split_on(s, sep) =~= a + split_on(t, sep));
        } else {
            assert((a + b0).last() == b0.last());
            assert(split_on(s, sep) =~= a + split_on(t, sep));
        }
    }
}

/// `first_with_prefix` over joined lists looks in the second list only where
/// the first has no match.
pub proof fn lemma_first_with_prefix_append(
    a: Seq<Seq<char>>,
    b: Seq<Seq<char>>,
    prefix: Seq<char>,
    trimmed: bool,
)
    ensures
        first_with_prefix(a + b, prefix, trimmed) == (match first_with_prefix(
            a,
            prefix,
            trimmed,
        ) {
            Some(v) => Some(v),
            None => first_with_prefix(b, prefix, trimmed),
        }),
    decreases a.len(),
{
    if a.len() == 0 {
        assert(a + b =~= b);
    } else {
        assert((a + b)[0] == a[0]);
        assert((a + b).drop_first() =~= a.drop_first() + b);
        lemma_first_with_prefix_append(a.drop_first(), b, prefix, trimmed);
    }
}

/// Looks for a piece of `s` between `sep`s whose text (trimmed where
/// `trimmed` holds) starts with `prefix`, and returns the bounds in `s` of
/// what follows the prefix in the first such piece.
pub fn find_field(s: &Vec<char>, sep: char, prefix: &Vec<char>, trimmed: bool) -> (r: Option<
    (usize, usize),
>)
    ensures
        match r {
            Some((lo, hi)) => lo <= hi <= s@.len() && first_with_prefix(
                split_on(s@, sep),
                prefix@,
                trimmed,
            ) == Some(s@.subrange(lo as int, hi as int)),
            None => first_with_prefix(split_on(s@, sep), prefix@, trimmed) is None,
        },
{
    let n = s.len();
    let mut start: usize = 0;
    let mut i: usize = 0;
    let ghost mut done: Seq<Seq<char>> = Seq::empty();
    assert(s@.take(0) =~= Seq::<char>::empty());
    assert(split_on(Seq::<char>::empty(), sep) =~= done.push(s@.subrange(0, 0)));
    loop
        invariant
            n == s@.len(),
            start <= i <= n,
            split_on(s@.take(i as int), sep) == done.push(s@.subrange(start as int, i as int)),
            first_with_prefix(done, prefix@, trimmed) is None,
        decreases n - i,
    {
        if i == n || s[i] == sep {
            let ghost piece = s@.subrange(start as int, i as int);
            let (lo, hi) = if trimmed {
                trim_range(s, start, i)
            } else {
                (start, i)
            };
            assert(s@.subrange(lo as int, hi as int) == piece_text(piece, trimmed));
            if range_has_prefix(s, lo, hi, prefix) {
                let vlo = lo + prefix.len();
                proof {
                    let text = s@.subrange(lo as int, hi as int);
                    assert(text.skip(prefix@.len() as int) =~= s@.subrange(vlo as int, hi as int));
                    assert(first_with_prefix(seq![piece], prefix@, trimmed) == Some(
                        s@.subrange(vlo as int, hi as int),
                    ));
                    if i == n {
                        assert(s@.take(n as int) =~= s@);
                        assert(done.push(piece) =~= done + seq![piece]);
                        lemma_first_with_prefix_append(done, seq![piece], prefix@, trimmed);
                    } else {
                        lemma_split_on_at_separator(s@, sep, i as int);
                        let rest = split_on(s@.skip(i + 1), sep);
                        assert(split_on(s@, sep) =~= done + (seq![piece] + rest));
                        lemma_first_with_prefix_append(seq![piece], rest, prefix@, trimmed);
                        lemma_first_with_prefix_append(done, seq![piece] + rest, prefix@, trimmed);
                    }
                }
                return Some((vlo, hi));
            }
            proof {
                assert(first_with_prefix(seq![piece], prefix@, trimmed) is None) by {
                    reveal_with_fuel(first_with_prefix, 2);
                    assert(seq![piece][0] == piece);
                    assert(!has_prefix(piece_text(piece, trimmed), prefix@));
                    assert(seq![piece].drop_first() =~= Seq::<Seq<char>>::empty());
                }
                assert(done.push(piece) =~= done + seq![piece]);
                lemma_first_with_prefix_append(done, seq![piece], prefix@, trimmed);
            }
            if i == n {
                proof {
                    assert(s@.take(n as int) =~= s@);
                }
                return None;
            }
            proof {
                let t = s@.take(i + 1);
                assert(t.drop_last() =~= s@.take(i as int));
                assert(t.last() == sep);
                done = done.push(piece);
                assert(s@.subrange(i + 1, i + 1) =~= Seq::<char>::empty());
            }
            i = i + 1;
            start = i;
        } else {
            proof {
                let t = s@.take(i + 1);
                assert(t.drop_last() =~= s@.take(i as int));
                assert(t.last() == s@[i as int]);
                assert(s@.subrange(start as int, i + 1) =~= s@.subrange(start as int, i as int).push(
                    s@[i as int],
                ));
                assert(split_on(t, sep) =~= done.push(s@.subrange(start as int, i + 1)));
            }
            i = i + 1;
        }
    }
}

} // verus!
