use vstd::prelude::*;

use vstd::std_specs::iter::IteratorSpec;

verus! {

broadcast use vstd::string::group_string_axioms;

/// The characters that `char::is_whitespace` accepts (Unicode White_Space).
pub open spec fn is_ws(c: char) -> bool {
    ('\t' <= c && c <= '\r') || c == ' ' || c == '\u{85}' || c == '\u{A0}' || c == '\u{1680}'
        || ('\u{2000}' <= c && c <= '\u{200A}') || c == '\u{2028}' || c == '\u{2029}'
        || c == '\u{202F}' || c == '\u{205F}' || c == '\u{3000}'
}

pub fn is_whitespace(c: char) -> (r: bool)
    ensures
        r == is_ws(c),
{
    ('\t' <= c && c <= '\r') || c == ' ' || c == '\u{85}' || c == '\u{A0}' || c == '\u{1680}'
        || ('\u{2000}' <= c && c <= '\u{200A}') || c == '\u{2028}' || c == '\u{2029}'
        || c == '\u{202F}' || c == '\u{205F}' || c == '\u{3000}'
}

/// Drop leading whitespace.
pub open spec fn trim_front(s: Seq<char>) -> Seq<char>
    decreases s.len(),
{
    if s.len() > 0 && is_ws(s[0]) {
        trim_front(s.drop_first())
    } else {
        s
    }
}

/// Drop trailing whitespace.
pub open spec fn trim_back(s: Seq<char>) -> Seq<char>
    decreases s.len(),
{
    if s.len() > 0 && is_ws(s.last()) {
        trim_back(s.drop_last())
    } else {
        s
    }
}

/// What `str::trim` leaves of `s`.
pub open spec fn trim(s: Seq<char>) -> Seq<char> {
    trim_back(trim_front(s))
}

/// Clamp `i` into `0..=n`.
pub open spec fn clamp(i: int, n: int) -> int {
    if i < 0 {
        0
    } else if i > n {
        n
    } else {
        i
    }
}

/// `s[lo..hi]` with both ends clamped to the length of `s`.
pub open spec fn slice(s: Seq<char>, lo: int, hi: int) -> Seq<char> {
    let a = clamp(lo, s.len() as int);
    let b = clamp(hi, s.len() as int);
    if a <= b {
        s.subrange(a, b)
    } else {
        Seq::empty()
    }
}

/// The first index at or after `pos` where `s` holds `c`, or the length of `s`.
pub open spec fn next_index_of(s: Seq<char>, pos: int, c: char) -> int
    decreases s.len() - pos,
{
    if pos >= s.len() {
        s.len() as int
    } else if s[pos] == c {
        pos
    } else {
        next_index_of(s, pos + 1, c)
    }
}

/// A line as `str::lines` yields it: a `\r` before the ending `\n` is dropped.
pub open spec fn line_at(s: Seq<char>, pos: int) -> Seq<char> {
    let e = next_index_of(s, pos, '\n');
    if e < s.len() && e > pos && s[e - 1] == '\r' {
        s.subrange(pos, e - 1)
    } else {
        s.subrange(pos, e)
    }
}

/// The lines of `s` from offset `pos` on, as `str::lines` splits them.
pub open spec fn lines_from(s: Seq<char>, pos: int) -> Seq<Seq<char>>
    decreases s.len() - pos,
    via lines_from_decreases
{
    if pos < 0 || pos >= s.len() {
        Seq::empty()
    } else {
        let e = next_index_of(s, pos, '\n');
        if e < s.len() {
            seq![line_at(s, pos)] + lines_from(s, e + 1)
        } else {
            seq![line_at(s, pos)]
        }
    }
}

pub open spec fn lines(s: Seq<char>) -> Seq<Seq<char>> {
    lines_from(s, 0)
}

/// The pieces of `s` from `pos` on between single spaces, the empty ones left out.
pub open spec fn tokens_from(s: Seq<char>, pos: int) -> Seq<Seq<char>>
    decreases s.len() - pos,
    via tokens_from_decreases
{
    if pos < 0 || pos >= s.len() {
        Seq::empty()
    } else if s[pos] == ' ' {
        tokens_from(s, pos + 1)
    } else {
        seq![s.subrange(pos, next_index_of(s, pos, ' '))] + tokens_from(
            s,
            next_index_of(s, pos, ' '),
        )
    }
}

/// What `s.split(' ').filter(|t| !t.is_empty())` yields.
pub open spec fn tokens(s: Seq<char>) -> Seq<Seq<char>> {
    tokens_from(s, 0)
}

#[via_fn]
proof fn lines_from_decreases(s: Seq<char>, pos: int) {
    if 0 <= pos < s.len() {
        lemma_next_index_bounds(s, pos, '\n');
    }
}

#[via_fn]
proof fn tokens_from_decreases(s: Seq<char>, pos: int) {
    if 0 <= pos < s.len() && s[pos] != ' ' {
        lemma_next_index_bounds(s, pos, ' ');
    }
}

/// A range of character offsets into some text.
#[derive(Clone, Copy)]
pub struct Span {
    pub start: usize,
    pub end: usize,
}

impl Span {
    pub open spec fn within(self, n: int) -> bool {
        self.start <= self.end && self.end <= n
    }

    pub open spec fn of(self, s: Seq<char>) -> Seq<char> {
        s.subrange(self.start as int, self.end as int)
    }
}

pub open spec fn spans_within(v: Seq<Span>, n: int) -> bool {
    forall|i: int| 0 <= i < v.len() ==> (#[trigger] v[i]).within(n)
}

pub open spec fn spans_of(v: Seq<Span>, s: Seq<char>) -> Seq<Seq<char>> {
    v.map_values(|sp: Span| sp.of(s))
}

/// The characters of `s`, one element each.
pub fn chars_of(s: &str) -> (r: Vec<char>)
    ensures
        r@ == s@,
{
    let mut it = s.chars();
    let mut out: Vec<char> = Vec::new();
    loop
        invariant
            out@ + it.remaining() == s@,
            it.decrease() is Some,
        ensures
            out@ == s@,
        decreases it.decrease()->0,
    {
        match it.next() {
            Some(c) => {
                out.push(c);
            },
            None => {
                assert(out@ =~= s@);
                break ;
            },
        }
    }
    out
}

proof fn lemma_next_index_bounds(s: Seq<char>, pos: int, c: char)
    requires
        0 <= pos <= s.len(),
    ensures
        pos <= next_index_of(s, pos, c) <= s.len(),
        next_index_of(s, pos, c) < s.len() ==> s[next_index_of(s, pos, c)] == c,
        forall|k: int| pos <= k < next_index_of(s, pos, c) ==> s[k] != c,
    decreases s.len() - pos,
{
    if pos < s.len() && s[pos] != c {
        lemma_next_index_bounds(s, pos + 1, c);
    }
}

/// The first offset at or after `pos` where `s` holds `c`, or the length of `s`.
pub fn find_from(s: &Vec<char>, pos: usize, c: char) -> (r: usize)
    requires
        pos <= s.len(),
    ensures
        r == next_index_of(s@, pos as int, c),
        pos <= r <= s.len(),
{
    let mut i: usize = pos;
    while i < s.len() && s[i] != c
        invariant
            pos <= i <= s.len(),
            next_index_of(s@, i as int, c) == next_index_of(s@, pos as int, c),
        decreases s.len() - i,
    {
        i = i + 1;
    }
    proof {
        lemma_next_index_bounds(s@, pos as int, c);
    }
    i
}

/// The spans of the lines of `s`, as `str::lines` splits them.
pub fn split_lines(s: &Vec<char>) -> (r: Vec<Span>)
    ensures
        spans_within(r@, s.len() as int),
        spans_of(r@, s@) == lines(s@),
{
    let mut out: Vec<Span> = Vec::new();
    let mut pos: usize = 0;
    while pos < s.len()
        invariant
            pos <= s.len(),
            spans_within(out@, s.len() as int),
            spans_of(out@, s@) + lines_from(s@, pos as int) == lines(s@),
        decreases s.len() - pos,
    {
        let e = find_from(s, pos, '\n');
        let end = if e < s.len() && e > pos && s[e - 1] == '\r' {
            e - 1
        } else {
            e
        };
        let sp = Span { start: pos, end };
        proof {
            assert(sp.of(s@) == line_at(s@, pos as int));
        }
        let ghost before = out@;
        out.push(sp);
        proof {
            assert(spans_of(out@, s@) =~= spans_of(before, s@).push(sp.of(s@)));
        }
        if e < s.len() {
            proof {
                assert(lines_from(s@, pos as int) == seq![sp.of(s@)] + lines_from(
                    s@,
                    e + 1,
                ));
                assert(spans_of(out@, s@) + lines_from(s@, e + 1) =~= spans_of(before, s@)
                    + lines_from(s@, pos as int));
            }
            pos = e + 1;
        } else {
            proof {
                assert(lines_from(s@, pos as int) == seq![sp.of(s@)]);
                assert(spans_of(out@, s@) =~= spans_of(before, s@) + lines_from(
                    s@,
                    pos as int,
                ));
                assert(lines_from(s@, s.len() as int) =~= Seq::<Seq<char>>::empty());
                assert(spans_of(out@, s@) + lines_from(s@, s.len() as int) =~= spans_of(
                    out@,
                    s@,
                ));
            }
            pos = s.len();
        }
    }
    proof {
        assert(lines_from(s@, pos as int) =~= Seq::<Seq<char>>::empty());
        assert(spans_of(out@, s@) + lines_from(s@, pos as int) =~= spans_of(out@, s@));
    }
    out
}

proof fn lemma_trim_front_step(s: Seq<char>, lo: int, hi: int)
    requires
        0 <= lo < hi <= s.len(),
        is_ws(s[lo]),
    ensures
        trim_front(s.subrange(lo, hi)) == trim_front(s.subrange(lo + 1, hi)),
{
    assert(s.subrange(lo, hi).drop_first() =~= s.subrange(lo + 1, hi));
}

proof fn lemma_trim_back_step(s: Seq<char>, lo: int, hi: int)
    requires
        0 <= lo < hi <= s.len(),
        is_ws(s[hi - 1]),
    ensures
        trim_back(s.subrange(lo, hi)) == trim_back(s.subrange(lo, hi - 1)),
{
    assert(s.subrange(lo, hi).drop_last() =~= s.subrange(lo, hi - 1));
}

/// The span that `str::trim` leaves of `s[lo..hi]`.
pub fn trim_span(s: &Vec<char>, lo: usize, hi: usize) -> (r: Span)
    requires
        lo <= hi <= s.len(),
    ensures
        r.within(s.len() as int),
        lo <= r.start,
        r.end <= hi,
        r.of(s@) == trim(s@.subrange(lo as int, hi as int)),
{
    let mut a: usize = lo;
    while a < hi && is_whitespace(s[a])
        invariant
            lo <= a <= hi <= s.len(),
            trim_front(s@.subrange(lo as int, hi as int)) == trim_front(
                s@.subrange(a as int, hi as int),
            ),
        decreases hi - a,
    {
        proof {
            lemma_trim_front_step(s@, a as int, hi as int);
        }
        a = a + 1;
    }
    assert(trim_front(s@.subrange(a as int, hi as int)) == s@.subrange(a as int, hi as int));
    let mut b: usize = hi;
    while b > a && is_whitespace(s[b - 1])
        invariant
            lo <= a <= b <= hi <= s.len(),
            trim(s@.subrange(lo as int, hi as int)) == trim_back(
                s@.subrange(a as int, b as int),
            ),
        decreases b,
    {
        proof {
            lemma_trim_back_step(s@, a as int, b as int);
        }
        b = b - 1;
    }
    Span { start: a, end: b }
}

/// The spans of the space-separated tokens of `s`.
pub fn split_tokens(s: &Vec<char>) -> (r: Vec<Span>)
    ensures
        spans_within(r@, s.len() as int),
        spans_of(r@, s@) == tokens(s@),
{
    let mut out: Vec<Span> = Vec::new();
    let mut pos: usize = 0;
    while pos < s.len()
        invariant
            pos <= s.len(),
            spans_within(out@, s.len() as int),
            spans_of(out@, s@) + tokens_from(s@, pos as int) == tokens(s@),
        decreases s.len() - pos,
    {
        if s[pos] == ' ' {
            pos = pos + 1;
        } else {
            let e = find_from(s, pos, ' ');
            let sp = Span { start: pos, end: e };
            let ghost before = out@;
            out.push(sp);
            proof {
                assert(spans_of(out@, s@) =~= spans_of(before, s@).push(sp.of(s@)));
                assert(tokens_from(s@, pos as int) == seq![sp.of(s@)] + tokens_from(
                    s@,
                    e as int,
                ));
                assert(spans_of(out@, s@) + tokens_from(s@, e as int) =~= spans_of(before, s@)
                    + tokens_from(s@, pos as int));
            }
            pos = e;
        }
    }
    proof {
        assert(tokens_from(s@, pos as int) =~= Seq::<Seq<char>>::empty());
        assert(spans_of(out@, s@) + tokens_from(s@, pos as int) =~= spans_of(out@, s@));
    }
    out
}

pub open spec fn nonempty(ls: Seq<Seq<char>>) -> Seq<Seq<char>> {
    ls.filter(|l: Seq<char>| l.len() > 0)
}

/// The spans of `v` that cover at least one character, in order.
pub fn keep_nonempty(v: &Vec<Span>, Ghost(s): Ghost<Seq<char>>) -> (r: Vec<Span>)
    requires
        spans_within(v@, s.len() as int),
    ensures
        spans_within(r@, s.len() as int),
        spans_of(r@, s) == nonempty(spans_of(v@, s)),
{
    let mut out: Vec<Span> = Vec::new();
    let mut i: usize = 0;
    assert(spans_of(v@, s).subrange(0, 0) =~= Seq::<Seq<char>>::empty());
    while i < v.len()
        invariant
            i <= v.len(),
            spans_within(v@, s.len() as int),
            spans_within(out@, s.len() as int),
            spans_of(out@, s) == nonempty(spans_of(v@, s).subrange(0, i as int)),
        decreases v.len() - i,
    {
        let sp = v[i];
        let ghost prefix = spans_of(v@, s).subrange(0, i as int);
        assert(spans_of(v@, s).subrange(0, i + 1) =~= prefix.push(sp.of(s)));
        proof {
            prefix.lemma_filter_push(sp.of(s), |l: Seq<char>| l.len() > 0);
        }
        if sp.start < sp.end {
            let ghost before = out@;
            out.push(sp);
            assert(spans_of(out@, s) =~= spans_of(before, s).push(sp.of(s)));
        }
        i = i + 1;
    }
    assert(spans_of(v@, s).subrange(0, v.len() as int) =~= spans_of(v@, s));
    out
}

/// Whether `s[sp]` is the text `lit`.
pub fn span_is(s: &Vec<char>, sp: Span, lit: &Vec<char>) -> (r: bool)
    requires
        sp.within(s.len() as int),
    ensures
        r == (sp.of(s@) == lit@),
{
    if sp.end - sp.start != lit.len() {
        return false;
    }
    let mut i: usize = 0;
    while i < lit.len()
        invariant
            sp.within(s.len() as int),
            sp.end - sp.start == lit.len(),
            i <= lit.len(),
            forall|k: int| 0 <= k < i ==> s@[sp.start + k] == lit@[k],
        decreases lit.len() - i,
    {
        if s[sp.start + i] != lit[i] {
            assert(sp.of(s@)[i as int] != lit@[i as int]);
            return false;
        }
        i = i + 1;
    }
    assert(sp.of(s@) =~= lit@);
    true
}

} // verus!
