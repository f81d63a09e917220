//! Character sequences: splitting on a separator, joining, trimming, and the
//! conversions between `&str`, `String` and `Vec<char>`.
//!
//! Every contract in this crate that speaks of text speaks of `Seq<char>`,
//! the view of `str` and `String`.

use vstd::prelude::*;

verus! {

/// `String::push` appends one character to the end of the string.
pub assume_specification[ String::push ](s: &mut String, c: char)
    ensures
        final(s)@ == old(s)@.push(c),
;

/// The pieces of `s` between occurrences of `sep`, in order.
///
/// There is always at least one piece; an empty piece stands for a
/// separator at either end of `s` or for two separators in a row.
/// Walking `s` from the left, a separator opens a new empty piece and any
/// other character extends the piece that is open.
pub open spec fn split(s: Seq<char>, sep: char) -> Seq<Seq<char>>
    decreases s.len(),
{
    if s.len() == 0 {
        seq![Seq::<char>::empty()]
    } else {
        let before = split(s.drop_last(), sep);
        if s.last() == sep {
            before.push(Seq::<char>::empty())
        } else {
            before.drop_last().push(before.last().push(s.last()))
        }
    }
}

/// The pieces joined into one sequence, with `sep` between neighbours.
pub open spec fn join(pieces: Seq<Seq<char>>, sep: Seq<char>) -> Seq<char>
    decreases pieces.len(),
{
    if pieces.len() == 0 {
        Seq::<char>::empty()
    } else if pieces.len() == 1 {
        pieces[0]
    } else {
        join(pieces.drop_last(), sep) + sep + pieces.last()
    }
}

/// The longest prefix of `s` in which `stop` does not occur.
pub open spec fn before(s: Seq<char>, stop: char) -> Seq<char>
    decreases s.len(),
{
    if s.len() == 0 || s[0] == stop {
        Seq::<char>::empty()
    } else {
        seq![s[0]] + before(s.skip(1), stop)
    }
}

/// `p` is a prefix of `s`.
pub open spec fn starts_with(s: Seq<char>, p: Seq<char>) -> bool {
    p.len() <= s.len() && s.take(p.len() as int) == p
}

/// The view of each string of a list.
pub open spec fn views(v: Seq<String>) -> Seq<Seq<char>> {
    Seq::new(v.len(), |i: int| v[i]@)
}

/// The view of each character vector of a list.
pub open spec fn char_views(v: Seq<Vec<char>>) -> Seq<Seq<char>> {
    Seq::new(v.len(), |i: int| v[i]@)
}

/// `c` is white space, as Unicode defines it.
pub open spec fn is_space(c: char) -> bool {
    let u = c as u32;
    (0x09 <= u <= 0x0d) || u == 0x20 || u == 0x85 || u == 0xa0 || u == 0x1680 || (0x2000 <= u
        <= 0x200a) || u == 0x2028 || u == 0x2029 || u == 0x202f || u == 0x205f || u == 0x3000
}

/// `s` without the white space at its front.
pub open spec fn trim_start(s: Seq<char>) -> Seq<char>
    decreases s.len(),
{
    if s.len() > 0 && is_space(s[0]) {
        trim_start(s.skip(1))
    } else {
        s
    }
}

/// `s` without the white space at its end.
pub open spec fn trim_end(s: Seq<char>) -> Seq<char>
    decreases s.len(),
{
    if s.len() > 0 && is_space(s.last()) {
        trim_end(s.drop_last())
    } else {
        s
    }
}

/// `s` without the white space at either end.
pub open spec fn trim(s: Seq<char>) -> Seq<char> {
    trim_end(trim_start(s))
}

/// `s` without one carriage return at its end, if it has one.
pub open spec fn strip_cr(s: Seq<char>) -> Seq<char> {
    if s.len() > 0 && s.last() == '\r' {
        s.drop_last()
    } else {
        s
    }
}

/// The lines of a text. A line ends with a line feed, or with a carriage
/// return and a line feed; neither belongs to the line. What follows the
/// last line feed is a line too, unless nothing follows it.
pub open spec fn lines(text: Seq<char>) -> Seq<Seq<char>> {
    let raw = split(text, '\n');
    let ended = raw.drop_last().map_values(|l: Seq<char>| strip_cr(l));
    if raw.last().len() == 0 {
        ended
    } else {
        ended.push(raw.last())
    }
}

/// `split` never returns an empty list.
pub proof fn lemma_split_nonempty(s: Seq<char>, sep: char)
    ensures
        split(s, sep).len() >= 1,
    decreases s.len(),
{
    if s.len() > 0 {
        lemma_split_nonempty(s.drop_last(), sep);
    }
}

/// No piece of a split holds the separator. With `lemma_join_split` this
/// says what `split` is: the one way to cut a text at every separator.
pub proof fn lemma_split_pieces_clean(s: Seq<char>, sep: char)
    ensures
        forall|i: int, j: int|
            0 <= i < split(s, sep).len() && 0 <= j < split(s, sep)[i].len() ==> split(
                s,
                sep,
            )[i][j] != sep,
    decreases s.len(),
{
    if s.len() > 0 {
        lemma_split_pieces_clean(s.drop_last(), sep);
        lemma_split_nonempty(s.drop_last(), sep);
    }
}

/// Joining the pieces of a split with the separator gives the text back.
pub proof fn lemma_join_split(s: Seq<char>, sep: char)
    ensures
        join(split(s, sep), seq![sep]) == s,
    decreases s.len(),
{
    if s.len() == 0 {
        assert(join(split(s, sep), seq![sep]) =~= s);
    } else {
        let t = s.drop_last();
        let before = split(t, sep);
        lemma_split_nonempty(t, sep);
        lemma_join_split(t, sep);
        if s.last() == sep {
            let now = before.push(Seq::<char>::empty());
            assert(now.drop_last() =~= before);
            assert(join(now, seq![sep]) =~= t + seq![sep]);
            assert(t + seq![sep] =~= s);
        } else {
            let now = before.drop_last().push(before.last().push(s.last()));
            assert(now.drop_last() =~= before.drop_last());
            if before.len() == 1 {
                assert(join(before, seq![sep]) == before[0]);
                assert(join(now, seq![sep]) =~= t.push(s.last()));
            } else {
                assert(join(before, seq![sep]) == join(before.drop_last(), seq![sep]) + seq![sep]
                    + before.last());
                assert(join(now, seq![sep]) =~= (join(before.drop_last(), seq![sep]) + seq![sep]
                    + before.last()).push(s.last()));
            }
            assert(t.push(s.last()) =~= s);
        }
    }
}

/// A text without the separator is its own single piece.
pub proof fn lemma_split_whole(x: Seq<char>, sep: char)
    requires
        !x.contains(sep),
    ensures
        split(x, sep) == seq![x],
    decreases x.len(),
{
    if x.len() == 0 {
        assert(x =~= Seq::<char>::empty());
    } else {
        let t = x.drop_last();
        assert(x[x.len() - 1] != sep);
        assert(!t.contains(sep)) by {
            if t.contains(sep) {
                let i = choose|i: int| 0 <= i < t.len() && t[i] == sep;
                assert(x[i] == sep);
            }
        }
        lemma_split_whole(t, sep);
        assert(seq![t].drop_last().push(t.push(x.last())) =~= seq![x]) by {
            assert(t.push(x.last()) =~= x);
        }
    }
}

/// Behind a separator, a text without the separator is one more piece.
pub proof fn lemma_split_append(s: Seq<char>, sep: char, x: Seq<char>)
    requires
        !x.contains(sep),
    ensures
        split(s + seq![sep] + x, sep) == split(s, sep).push(x),
    decreases x.len(),
{
    let whole = s + seq![sep] + x;
    if x.len() == 0 {
        assert(whole.drop_last() =~= s);
        assert(x =~= Seq::<char>::empty());
    } else {
        let t = x.drop_last();
        assert(x[x.len() - 1] != sep);
        assert(!t.contains(sep)) by {
            if t.contains(sep) {
                let i = choose|i: int| 0 <= i < t.len() && t[i] == sep;
                assert(x[i] == sep);
            }
        }
        lemma_split_append(s, sep, t);
        assert(whole.drop_last() =~= s + seq![sep] + t);
        assert(whole.last() == x.last());
        let before = split(s, sep).push(t);
        assert(before.drop_last() =~= split(s, sep));
        assert(t.push(x.last()) =~= x);
    }
}

/// `before` is the prefix that ends just in front of the first `stop`.
pub proof fn lemma_before(s: Seq<char>, stop: char)
    ensures
        before(s, stop).len() <= s.len(),
        before(s, stop) == s.take(before(s, stop).len() as int),
        !before(s, stop).contains(stop),
        before(s, stop).len() < s.len() ==> s[before(s, stop).len() as int] == stop,
    decreases s.len(),
{
    if s.len() == 0 || s[0] == stop {
        assert(before(s, stop) =~= s.take(0));
    } else {
        let rest = s.skip(1);
        lemma_before(rest, stop);
        let b = before(rest, stop);
        assert(before(s, stop) =~= s.take(b.len() as int + 1)) by {
            assert(b == rest.take(b.len() as int));
            assert forall|i: int| 0 <= i < b.len() + 1 implies (seq![s[0]] + b)[i] == s[i] by {
                if i > 0 {
                    assert(b[i - 1] == rest.take(b.len() as int)[i - 1]);
                }
            }
        }
        assert(!(seq![s[0]] + b).contains(stop)) by {
            if (seq![s[0]] + b).contains(stop) {
                let i = choose|i: int| 0 <= i < b.len() + 1 && (seq![s[0]] + b)[i] == stop;
                assert(b[i - 1] == stop);
                assert(b.contains(stop));
            }
        }
    }
}

/// The characters of a string slice, as a vector.
pub fn to_chars(s: &str) -> (v: Vec<char>)
    ensures
        v@ == s@,
{
    let mut v: Vec<char> = Vec::new();
    for c in it: s.chars()
        invariant
            v@ == it.seq().take(it.index()),
            it.seq() == s@,
    {
        v.push(c);
    }
    v
}

/// The string that holds the characters `v[from..to]`.
pub fn to_string(v: &Vec<char>, from: usize, to: usize) -> (s: String)
    requires
        from <= to <= v.len(),
    ensures
        s@ == v@.subrange(from as int, to as int),
{
    let mut s = String::new();
    let mut i: usize = from;
    while i < to
        invariant
            from <= i <= to <= v.len(),
            s@ == v@.subrange(from as int, i as int),
        decreases to - i,
    {
        s.push(v[i]);
        assert(v@.subrange(from as int, i as int).push(v@[i as int]) =~= v@.subrange(
            from as int,
            i + 1,
        ));
        i += 1;
    }
    s
}

/// The number of characters in front of the first `stop` in `v[from..]`,
/// counted from `from`.
pub fn find(v: &Vec<char>, from: usize, stop: char) -> (n: usize)
    requires
        from <= v.len(),
    ensures
        n == before(v@.skip(from as int), stop).len(),
        from + n <= v.len(),
{
    let mut i: usize = from;
    proof {
        lemma_before(v@.skip(from as int), stop);
    }
    while i < v.len() && v[i] != stop
        invariant
            from <= i <= v.len(),
            forall|j: int| from <= j < i ==> v@[j] != stop,
        decreases v.len() - i,
    {
        i += 1;
    }
    proof {
        let rest = v@.skip(from as int);
        let b = before(rest, stop);
        // the first stop sits neither in front of position i nor behind it
        if b.len() < i - from {
            assert(rest[b.len() as int] == stop);
            assert(v@[from + b.len()] == stop);
        }
        if b.len() > i - from {
            assert(b[i - from] == rest.take(b.len() as int)[i - from]);
            assert(b.contains(stop));
        }
    }
    i - from
}

/// Splits `v` at every `sep`.
pub fn split_chars(v: &Vec<char>, sep: char) -> (pieces: Vec<Vec<char>>)
    ensures
        char_views(pieces@) == split(v@, sep),
{
    let mut done: Vec<Vec<char>> = Vec::new();
    let mut open: Vec<char> = Vec::new();
    let mut i: usize = 0;
    while i < v.len()
        invariant
            i <= v.len(),
            char_views(done@).push(open@) == split(v@.take(i as int), sep),
        decreases v.len() - i,
    {
        let ghost prefix = v@.take(i as int);
        let ghost next = v@.take(i + 1);
        let ghost old_done = char_views(done@);
        let ghost old_open = open@;
        proof {
            assert(next.drop_last() =~= prefix);
            assert(next.last() == v@[i as int]);
            assert(old_done.push(old_open).drop_last() =~= old_done);
        }
        if v[i] == sep {
            done.push(open);
            open = Vec::new();
            proof {
                assert(char_views(done@) =~= old_done.push(old_open));
            }
        } else {
            open.push(v[i]);
            proof {
                assert(char_views(done@) =~= old_done);
            }
        }
        i += 1;
    }
    proof {
        assert(v@.take(v@.len() as int) =~= v@);
    }
    let ghost old_done = char_views(done@);
    let ghost old_open = open@;
    done.push(open);
    proof {
        assert(char_views(done@) =~= old_done.push(old_open));
    }
    done
}

/// Whether `c` is white space.
pub fn char_is_space(c: char) -> (r: bool)
    ensures
        r == is_space(c),
{
    let u = c as u32;
    (0x09 <= u && u <= 0x0d) || u == 0x20 || u == 0x85 || u == 0xa0 || u == 0x1680 || (0x2000 <= u
        && u <= 0x200a) || u == 0x2028 || u == 0x2029 || u == 0x202f || u == 0x205f || u == 0x3000
}

/// A copy of `v[from..to]`.
pub fn slice(v: &Vec<char>, from: usize, to: usize) -> (r: Vec<char>)
    requires
        from <= to <= v.len(),
    ensures
        r@ == v@.subrange(from as int, to as int),
{
    let mut r: Vec<char> = Vec::new();
    let mut i: usize = from;
    while i < to
        invariant
            from <= i <= to <= v.len(),
            r@ == v@.subrange(from as int, i as int),
        decreases to - i,
    {
        r.push(v[i]);
        assert(v@.subrange(from as int, i as int).push(v@[i as int]) =~= v@.subrange(
            from as int,
            i + 1,
        ));
        i += 1;
    }
    r
}

/// `v` without the white space at either end.
pub fn trim_chars(v: &Vec<char>) -> (r: Vec<char>)
    ensures
        r@ == trim(v@),
{
    let mut from: usize = 0;
    assert(v@.skip(0) =~= v@);
    while from < v.len() && char_is_space(v[from])
        invariant
            from <= v.len(),
            trim_start(v@) == trim_start(v@.skip(from as int)),
        decreases v.len() - from,
    {
        assert(v@.skip(from as int).skip(1) =~= v@.skip(from + 1));
        from += 1;
    }
    let mut to: usize = v.len();
    assert(v@.subrange(from as int, to as int) =~= v@.skip(from as int));
    while to > from && char_is_space(v[to - 1])
        invariant
            from <= to <= v.len(),
            trim(v@) == trim_end(v@.subrange(from as int, to as int)),
        decreases to,
    {
        assert(v@.subrange(from as int, to as int).drop_last() =~= v@.subrange(
            from as int,
            to - 1,
        ));
        to -= 1;
    }
    slice(v, from, to)
}

/// The lines of `v`.
pub fn lines_of(v: &Vec<char>) -> (r: Vec<Vec<char>>)
    ensures
        char_views(r@) == lines(v@),
{
    let raw = split_chars(v, '\n');
    proof {
        lemma_split_nonempty(v@, '\n');
    }
    let ghost spec_raw = split(v@, '\n');
    let n = raw.len();
    let mut r: Vec<Vec<char>> = Vec::new();
    let mut i: usize = 0;
    while i + 1 < n
        invariant
            i + 1 <= n == raw.len(),
            char_views(raw@) == spec_raw,
            char_views(r@) == spec_raw.take(i as int).map_values(|l: Seq<char>| strip_cr(l)),
        decreases n - i,
    {
        let line = &raw[i];
        assert(spec_raw[i as int] == line@);
        let ghost before_push = char_views(r@);
        let m = line.len();
        let kept = if m > 0 && line[m - 1] == '\r' {
            slice(line, 0, m - 1)
        } else {
            slice(line, 0, m)
        };
        assert(kept@ =~= strip_cr(line@));
        r.push(kept);
        proof {
            let f = |l: Seq<char>| strip_cr(l);
            assert(char_views(r@) =~= before_push.push(strip_cr(line@)));
            assert(spec_raw.take(i + 1).map_values(f) =~= spec_raw.take(i as int).map_values(
                f,
            ).push(f(spec_raw[i as int])));
        }
        i += 1;
    }
    assert(spec_raw.take(n - 1) =~= spec_raw.drop_last());
    let last = &raw[n - 1];
    assert(spec_raw[n - 1] == last@);
    if last.len() > 0 {
        let ghost before_push = char_views(r@);
        let tail = slice(last, 0, last.len());
        assert(tail@ =~= last@);
        r.push(tail);
        assert(char_views(r@) =~= before_push.push(last@));
    }
    r
}

} // verus!
