//! Character-level text handling: splitting command lines into words and
//! paths into segments, joining segments back, and the order on names.
use vstd::prelude::*;

verus! {

/// The characters that Unicode calls White_Space, which separate the words
/// of a command line.
pub open spec fn is_space(c: char) -> bool {
    let u = c as u32;
    (0x09 <= u && u <= 0x0D) || u == 0x20 || u == 0x85 || u == 0xA0 || u == 0x1680 || (0x2000
        <= u && u <= 0x200A) || u == 0x2028 || u == 0x2029 || u == 0x202F || u == 0x205F || u
        == 0x3000
}

/// Separator of a split: white space between words, or `/` between segments.
pub open spec fn is_sep(c: char, by_space: bool) -> bool {
    if by_space {
        is_space(c)
    } else {
        c == '/'
    }
}

/// The pieces between separators, empty ones included; there is always at
/// least one piece.
pub open spec fn pieces(s: Seq<char>, by_space: bool) -> Seq<Seq<char>>
    decreases s.len(),
{
    if s.len() == 0 {
        seq![Seq::<char>::empty()]
    } else {
        let r = pieces(s.drop_last(), by_space);
        if is_sep(s.last(), by_space) {
            r.push(Seq::<char>::empty())
        } else {
            r.update(r.len() - 1, r.last().push(s.last()))
        }
    }
}

/// The segments of a slash-separated path.
pub open spec fn segments(p: Seq<char>) -> Seq<Seq<char>> {
    pieces(p, false)
}

/// The words of a line: the non-empty runs of characters between white space.
pub open spec fn words(line: Seq<char>) -> Seq<Seq<char>> {
    pieces(line, true).filter(|w: Seq<char>| w.len() > 0)
}

/// Segments joined back with `/` between them.
pub open spec fn join(segs: Seq<Seq<char>>) -> Seq<char>
    decreases segs.len(),
{
    if segs.len() == 0 {
        Seq::empty()
    } else if segs.len() == 1 {
        segs[0]
    } else {
        join(segs.drop_last()) + seq!['/'] + segs.last()
    }
}

/// The texts held by a sequence of strings.
pub open spec fn texts(v: Seq<String>) -> Seq<Seq<char>> {
    v.map_values(|x: String| x@)
}

/// Lexicographic order on names, character by character.
pub open spec fn name_lt(a: Seq<char>, b: Seq<char>) -> bool
    decreases a.len(),
{
    if b.len() == 0 {
        false
    } else if a.len() == 0 {
        true
    } else if a[0] != b[0] {
        (a[0] as u32) < (b[0] as u32)
    } else {
        name_lt(a.drop_first(), b.drop_first())
    }
}

pub proof fn lemma_pieces_len(s: Seq<char>, by_space: bool)
    ensures
        pieces(s, by_space).len() >= 1,
    decreases s.len(),
{
    if s.len() > 0 {
        lemma_pieces_len(s.drop_last(), by_space);
    }
}

pub proof fn lemma_name_lt_irreflexive(a: Seq<char>)
    ensures
        !name_lt(a, a),
    decreases a.len(),
{
    if a.len() > 0 {
        lemma_name_lt_irreflexive(a.drop_first());
    }
}

pub proof fn lemma_name_lt_transitive(a: Seq<char>, b: Seq<char>, c: Seq<char>)
    requires
        name_lt(a, b),
        name_lt(b, c),
    ensures
        name_lt(a, c),
    decreases a.len(),
{
    if a.len() > 0 && b.len() > 0 && c.len() > 0 && a[0] == b[0] && b[0] == c[0] {
        lemma_name_lt_transitive(a.drop_first(), b.drop_first(), c.drop_first());
    }
}

pub proof fn lemma_name_lt_total(a: Seq<char>, b: Seq<char>)
    requires
        a != b,
    ensures
        name_lt(a, b) || name_lt(b, a),
    decreases a.len(),
{
    if a.len() > 0 && b.len() > 0 {
        if a[0] == b[0] {
            if a.drop_first() == b.drop_first() {
                assert(a =~= seq![a[0]] + a.drop_first());
                assert(b =~= seq![b[0]] + b.drop_first());
            }
            lemma_name_lt_total(a.drop_first(), b.drop_first());
        } else {
            vstd::utf8::char_u32_cast(a[0], a[0] as u32);
            vstd::utf8::char_u32_cast(b[0], b[0] as u32);
        }
    } else if a.len() == 0 && b.len() == 0 {
        assert(a =~= b);
    }
}

/// Tells white space from other characters.
pub fn is_space_char(c: char) -> (r: bool)
    ensures
        r == is_space(c),
{
    let u = c as u32;
    (0x09 <= u && u <= 0x0D) || u == 0x20 || u == 0x85 || u == 0xA0 || u == 0x1680 || (0x2000
        <= u && u <= 0x200A) || u == 0x2028 || u == 0x2029 || u == 0x202F || u == 0x205F || u
        == 0x3000
}

proof fn lemma_texts_push(v: Seq<String>, x: String)
    ensures
        texts(v.push(x)) == texts(v).push(x@),
{
    assert(texts(v.push(x)) =~= texts(v).push(x@));
}

proof fn lemma_take_step(s: Seq<char>, i: int)
    requires
        0 <= i < s.len(),
    ensures
        s.take(i + 1).drop_last() == s.take(i),
        s.take(i + 1).last() == s[i],
        s.take(i + 1).len() == i + 1,
{
    assert(s.take(i + 1).drop_last() =~= s.take(i));
}

/// Splits a path at each `/`, keeping empty segments.
pub fn split_path(p: &str) -> (r: Vec<String>)
    ensures
        texts(r@) == segments(p@),
{
    let n = p.unicode_len();
    let mut out: Vec<String> = Vec::new();
    let mut start: usize = 0;
    let mut i: usize = 0;
    assert(p@.take(0) =~= Seq::<char>::empty());
    assert(texts(out@).push(p@.subrange(0, 0)) =~= pieces(p@.take(0), false));
    while i < n
        invariant
            n == p@.len(),
            start <= i <= n,
            pieces(p@.take(i as int), false) == texts(out@).push(p@.subrange(start as int, i as int)),
        decreases n - i,
    {
        let c = p.get_char(i);
        proof {
            lemma_take_step(p@, i as int);
        }
        if c == '/' {
            let piece = p.substring_char(start, i).to_owned();
            proof {
                lemma_texts_push(out@, piece);
            }
            out.push(piece);
            start = i + 1;
            assert(p@.subrange(start as int, start as int) =~= Seq::<char>::empty());
        } else {
            assert(p@.subrange(start as int, i + 1) =~= p@.subrange(start as int, i as int).push(c));
        }
        i = i + 1;
    }
    let piece = p.substring_char(start, n).to_owned();
    proof {
        lemma_texts_push(out@, piece);
        assert(p@.take(n as int) =~= p@);
    }
    out.push(piece);
    out
}

/// Splits a line into its words, dropping the white space around them.
pub fn split_words(line: &str) -> (r: Vec<String>)
    ensures
        texts(r@) == words(line@),
{
    let n = line.unicode_len();
    let mut out: Vec<String> = Vec::new();
    let mut start: usize = 0;
    let mut i: usize = 0;
    let ghost nonempty = |w: Seq<char>| w.len() > 0;
    assert(pieces(line@.take(0), true) =~= seq![Seq::<char>::empty()]);
    proof {
        reveal(Seq::filter);
        assert(seq![Seq::<char>::empty()].drop_last() =~= Seq::<Seq<char>>::empty());
    }
    while i < n
        invariant
            n == line@.len(),
            start <= i <= n,
            nonempty == (|w: Seq<char>| w.len() > 0),
            pieces(line@.take(i as int), true).len() >= 1,
            pieces(line@.take(i as int), true).last() == line@.subrange(start as int, i as int),
            texts(out@) == pieces(line@.take(i as int), true).drop_last().filter(nonempty),
        decreases n - i,
    {
        let c = line.get_char(i);
        let ghost before = pieces(line@.take(i as int), true);
        proof {
            lemma_take_step(line@, i as int);
            reveal(Seq::filter);
        }
        if is_space_char(c) {
            let ghost after = before.push(Seq::<char>::empty());
            assert(after.drop_last() =~= before);
            if start < i {
                let piece = line.substring_char(start, i).to_owned();
                proof {
                    lemma_texts_push(out@, piece);
                }
                out.push(piece);
            }
            start = i + 1;
            assert(line@.subrange(start as int, start as int) =~= Seq::<char>::empty());
        } else {
            let ghost after = before.update(before.len() - 1, before.last().push(c));
            assert(after.drop_last() =~= before.drop_last());
            assert(line@.subrange(start as int, i + 1) =~= line@.subrange(start as int, i as int).push(
                c,
            ));
        }
        i = i + 1;
    }
    proof {
        assert(line@.take(n as int) =~= line@);
        reveal(Seq::filter);
    }
    if start < n {
        let piece = line.substring_char(start, n).to_owned();
        proof {
            lemma_texts_push(out@, piece);
        }
        out.push(piece);
    }
    out
}

/// Joins segments with `/` between them.
pub fn join_path(segs: &Vec<String>, count: usize) -> (r: String)
    requires
        count <= segs@.len(),
    ensures
        r@ == join(texts(segs@).take(count as int)),
{
    let mut out = String::new();
    let mut i: usize = 0;
    while i < count
        invariant
            count <= segs@.len(),
            i <= count,
            out@ == join(texts(segs@).take(i as int)),
        decreases count - i,
    {
        let ghost prev = texts(segs@).take(i as int);
        let ghost next = texts(segs@).take(i + 1);
        assert(next.drop_last() =~= prev);
        let ghost before = out@;
        if i > 0 {
            out.append("/");
        }
        let ghost middle = out@;
        out.append(segs[i].as_str());
        proof {
            reveal_strlit("/");
            assert("/"@ =~= seq!['/']);
            assert(next.last() == segs@[i as int]@);
            if i == 0 {
                assert(before =~= Seq::<char>::empty());
                assert(out@ =~= next[0]);
            } else {
                assert(middle =~= join(prev) + seq!['/']);
                assert(out@ =~= join(prev) + seq!['/'] + next.last());
            }
        }
        i = i + 1;
    }
    out
}

/// Whether two texts hold the same characters.
pub fn same_text(a: &str, b: &str) -> (r: bool)
    ensures
        r == (a@ == b@),
{
    let n = a.unicode_len();
    let m = b.unicode_len();
    if n != m {
        return false;
    }
    let mut i: usize = 0;
    while i < n
        invariant
            n == a@.len(),
            m == b@.len(),
            n == m,
            i <= n,
            a@.take(i as int) == b@.take(i as int),
        decreases n - i,
    {
        if a.get_char(i) != b.get_char(i) {
            return false;
        }
        assert(a@.take(i + 1) =~= a@.take(i as int).push(a@[i as int]));
        assert(b@.take(i + 1) =~= b@.take(i as int).push(b@[i as int]));
        i = i + 1;
    }
    assert(a@ =~= a@.take(n as int));
    assert(b@ =~= b@.take(n as int));
    true
}

/// Whether name `a` comes strictly before name `b`.
pub fn name_less(a: &str, b: &str) -> (r: bool)
    ensures
        r == name_lt(a@, b@),
{
    let n = a.unicode_len();
    let m = b.unicode_len();
    let mut i: usize = 0;
    assert(a@.skip(0) =~= a@);
    assert(b@.skip(0) =~= b@);
    while i < n && i < m
        invariant
            n == a@.len(),
            m == b@.len(),
            i <= n,
            i <= m,
            name_lt(a@, b@) == name_lt(a@.skip(i as int), b@.skip(i as int)),
        decreases n - i,
    {
        let x = a.get_char(i);
        let y = b.get_char(i);
        if x != y {
            proof {
                assert(a@.skip(i as int)[0] == x);
                assert(b@.skip(i as int)[0] == y);
            }
            return (x as u32) < (y as u32);
        }
        assert(a@.skip(i as int).drop_first() =~= a@.skip(i + 1));
        assert(b@.skip(i as int).drop_first() =~= b@.skip(i + 1));
        i = i + 1;
    }
    proof {
        if i == n {
            assert(a@.skip(i as int).len() == 0);
        } else {
            assert(b@.skip(i as int).len() == 0);
        }
    }
    i < m
}

} // verus!
