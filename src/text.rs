use vstd::prelude::*;
use vstd::string::*;

verus! {

/// The pieces of `s` between newline characters, in order, terminators
/// removed. There is always one more piece than there are newlines.
pub open spec fn pieces(s: Seq<char>) -> Seq<Seq<char>>
    decreases s.len(),
{
    if s.len() == 0 {
        seq![Seq::<char>::empty()]
    } else {
        let rest = pieces(s.drop_last());
        if s.last() == '\n' {
            rest.push(Seq::<char>::empty())
        } else {
            rest.update(rest.len() - 1, rest.last().push(s.last()))
        }
    }
}

/// A terminated piece loses one carriage return just before its newline.
pub open spec fn strip_cr(p: Seq<char>) -> Seq<char> {
    if p.len() > 0 && p.last() == '\r' {
        p.drop_last()
    } else {
        p
    }
}

/// The lines of `s`: every piece that a newline ends, without a carriage
/// return before that newline, then the final piece unless it is empty.
pub open spec fn lines_of(s: Seq<char>) -> Seq<Seq<char>> {
    let p = pieces(s);
    let ended = p.drop_last().map_values(|q: Seq<char>| strip_cr(q));
    if p.last().len() == 0 {
        ended
    } else {
        ended.push(p.last())
    }
}

/// `q` occurs in `l` as a contiguous run of characters.
pub open spec fn has_substring(l: Seq<char>, q: Seq<char>) -> bool {
    exists|k: int| 0 <= k <= l.len() - q.len() && #[trigger] l.subrange(k, k + q.len()) == q
}

/// What a sequence of string slices reads as.
pub open spec fn views_of(v: Seq<&str>) -> Seq<Seq<char>> {
    v.map_values(|l: &str| l@)
}

/// The characters of `s`, one per element.
pub fn chars_of(s: &str) -> (r: Vec<char>)
    ensures
        r@ == s@,
{
    broadcast use group_string_axioms;
    let mut r: Vec<char> = Vec::new();
    for c in it: s.chars()
        invariant
            r@ == it.seq().take(it.index() as int),
    {
        r.push(c);
    }
    r
}

/// Whether `q` occurs in `l`.
pub fn contains_chars(l: &Vec<char>, q: &Vec<char>) -> (r: bool)
    ensures
        r == has_substring(l@, q@),
{
    if q.len() > l.len() {
        return false;
    }
    let n = q.len();
    let last = l.len() - n;
    let mut k: usize = 0;
    while k <= last
        invariant
            n == q.len(),
            last == l.len() - n,
            forall|k2: int| 0 <= k2 < k ==> #[trigger] l@.subrange(k2, k2 + n) != q@,
        decreases last + 1 - k,
    {
        let mut j: usize = 0;
        while j < n && l[k + j] == q[j]
            invariant
                n == q.len(),
                last == l.len() - n,
                k <= last,
                j <= n,
                forall|j2: int| 0 <= j2 < j ==> l@[k + j2] == q@[j2],
            decreases n - j,
        {
            j = j + 1;
        }
        if j == n {
            assert(l@.subrange(k as int, k + n) =~= q@);
            return true;
        }
        assert(l@.subrange(k as int, k + n)[j as int] != q@[j as int]);
        k = k + 1;
    }
    false
}

/// Whether `query` occurs in `line`, character for character.
pub fn line_contains(line: &str, query: &str) -> (r: bool)
    ensures
        r == has_substring(line@, query@),
{
    let l = chars_of(line);
    let q = chars_of(query);
    contains_chars(&l, &q)
}

proof fn lemma_pieces_step(s: Seq<char>, i: int)
    requires
        0 <= i < s.len(),
    ensures
        ({
            let before = pieces(s.take(i));
            pieces(s.take(i + 1)) == if s[i] == '\n' {
                before.push(Seq::<char>::empty())
            } else {
                before.update(before.len() - 1, before.last().push(s[i]))
            }
        }),
{
    assert(s.take(i + 1).drop_last() =~= s.take(i));
}

/// The lines of `contents`, in order, as slices of it.
pub fn lines<'a>(contents: &'a str) -> (r: Vec<&'a str>)
    ensures
        views_of(r@) == lines_of(contents@),
{
    let c = chars_of(contents);
    let n = c.len();
    let ghost s = contents@;
    let mut out: Vec<&'a str> = Vec::new();
    let mut start: usize = 0;
    let mut i: usize = 0;
    proof {
        assert(s.take(0) =~= Seq::<char>::empty());
        assert(pieces(s.take(0)).drop_last() =~= Seq::<Seq<char>>::empty());
        assert(s.subrange(0, 0) =~= Seq::<char>::empty());
        assert(views_of(out@) =~= Seq::<Seq<char>>::empty());
    }
    while i < n
        invariant
            c@ == s,
            s == contents@,
            n == s.len(),
            start <= i <= n,
            pieces(s.take(i as int)).len() >= 1,
            pieces(s.take(i as int)).last() == s.subrange(start as int, i as int),
            views_of(out@) == pieces(s.take(i as int)).drop_last().map_values(
                |q: Seq<char>| strip_cr(q),
            ),
        decreases n - i,
    {
        proof {
            lemma_pieces_step(s, i as int);
        }
        let ghost before = pieces(s.take(i as int));
        if c[i] == '\n' {
            let end = if i > start && c[i - 1] == '\r' {
                i - 1
            } else {
                i
            };
            let line = contents.substring_char(start, end);
            proof {
                let piece = s.subrange(start as int, i as int);
                assert(strip_cr(piece) =~= s.subrange(start as int, end as int));
                assert(pieces(s.take(i + 1)).drop_last() =~= before);
                assert(before =~= before.drop_last().push(piece));
            }
            let ghost old_out = out@;
            out.push(line);
            proof {
                assert(views_of(out@) =~= views_of(old_out).push(line@));
                assert(before.map_values(|q: Seq<char>| strip_cr(q)) =~= before.drop_last().map_values(
                    |q: Seq<char>| strip_cr(q),
                ).push(strip_cr(before.last())));
                assert(s.subrange(i + 1, i + 1) =~= Seq::<char>::empty());
            }
            start = i + 1;
        } else {
            proof {
                assert(s.subrange(start as int, i + 1) =~= before.last().push(s[i as int]));
                assert(pieces(s.take(i + 1)).drop_last() =~= before.drop_last());
            }
        }
        i = i + 1;
    }
    proof {
        assert(s.take(n as int) =~= s);
    }
    if start < n {
        let line = contents.substring_char(start, n);
        let ghost old_out = out@;
        out.push(line);
        proof {
            assert(views_of(out@) =~= views_of(old_out).push(line@));
        }
    }
    out
}

} // verus!
