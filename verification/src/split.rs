use vstd::prelude::*;
use vstd::string::*;

verus! {

/// `c` separates the segments of a fraction token.
pub open spec fn is_frac_sep(c: char) -> bool {
    c == '_' || c == '/'
}

/// `c` is an ASCII whitespace character; runs of these separate the tokens of
/// an equation line.
pub open spec fn is_space(c: char) -> bool {
    c == ' ' || c == '\t' || c == '\n' || c == '\r' || c == '\u{000B}' || c == '\u{000C}'
}

/// `s` holds no fraction separator.
pub open spec fn sep_free(s: Seq<char>) -> bool {
    forall|i: int| 0 <= i < s.len() ==> !is_frac_sep(#[trigger] s[i])
}

/// `s` holds no whitespace.
pub open spec fn space_free(s: Seq<char>) -> bool {
    forall|i: int| 0 <= i < s.len() ==> !is_space(#[trigger] s[i])
}

/// The segments of `s` between fraction separators, in order; empty segments
/// are kept, so the result always has one more segment than `s` has
/// separators.
pub open spec fn frac_segments(s: Seq<char>) -> Seq<Seq<char>>
    decreases s.len(),
{
    if s.len() == 0 {
        seq![Seq::<char>::empty()]
    } else if is_frac_sep(s[0]) {
        seq![Seq::<char>::empty()] + frac_segments(s.subrange(1, s.len() as int))
    } else {
        let rest = frac_segments(s.subrange(1, s.len() as int));
        seq![seq![s[0]] + rest[0]] + rest.subrange(1, rest.len() as int)
    }
}

/// The whitespace-delimited tokens of `s`, in order; all tokens are
/// non-empty.
pub open spec fn ws_tokens(s: Seq<char>) -> Seq<Seq<char>>
    decreases s.len(),
{
    if s.len() == 0 {
        Seq::<Seq<char>>::empty()
    } else if is_space(s[0]) {
        ws_tokens(s.subrange(1, s.len() as int))
    } else if s.len() == 1 || is_space(s[1]) {
        seq![seq![s[0]]] + ws_tokens(s.subrange(1, s.len() as int))
    } else {
        let rest = ws_tokens(s.subrange(1, s.len() as int));
        seq![seq![s[0]] + rest[0]] + rest.subrange(1, rest.len() as int)
    }
}

/// Splitting always yields at least one segment.
pub proof fn lemma_frac_segments_nonempty(s: Seq<char>)
    ensures
        frac_segments(s).len() >= 1,
    decreases s.len(),
{
    if s.len() > 0 {
        lemma_frac_segments_nonempty(s.subrange(1, s.len() as int));
    }
}

/// A separator-free string is its own single segment.
pub proof fn lemma_frac_segments_whole(s: Seq<char>)
    requires
        sep_free(s),
    ensures
        frac_segments(s) =~~= seq![s],
    decreases s.len(),
{
    if s.len() > 0 {
        lemma_frac_segments_whole(s.subrange(1, s.len() as int));
    }
}

/// Splitting at the first separator: a separator-free prefix becomes the
/// first segment, and the rest splits on its own.
pub proof fn lemma_frac_segments_step(a: Seq<char>, c: char, b: Seq<char>)
    requires
        sep_free(a),
        is_frac_sep(c),
    ensures
        frac_segments(a + seq![c] + b) =~~= seq![a] + frac_segments(b),
    decreases a.len(),
{
    let s = a + seq![c] + b;
    if a.len() == 0 {
        assert(s[0] == c);
        assert(s.subrange(1, s.len() as int) =~= b);
    } else {
        let a1 = a.subrange(1, a.len() as int);
        lemma_frac_segments_step(a1, c, b);
        assert(s.subrange(1, s.len() as int) =~= a1 + seq![c] + b);
        assert(!is_frac_sep(s[0]));
        lemma_frac_segments_nonempty(a1 + seq![c] + b);
        let rest = frac_segments(a1 + seq![c] + b);
        assert(rest =~~= seq![a1] + frac_segments(b));
        assert(seq![s[0]] + rest[0] =~= a);
        assert(rest.subrange(1, rest.len() as int) =~~= frac_segments(b));
    }
}

/// Leading whitespace does not change the tokens.
pub proof fn lemma_ws_tokens_skip_space(s: Seq<char>)
    requires
        s.len() > 0,
        is_space(s[0]),
    ensures
        ws_tokens(s) == ws_tokens(s.subrange(1, s.len() as int)),
{
}

/// Splitting at the first token: a non-empty whitespace-free prefix followed
/// by whitespace (or the end) is the first token, and the rest tokenizes on
/// its own.
pub proof fn lemma_ws_tokens_step(a: Seq<char>, b: Seq<char>)
    requires
        a.len() > 0,
        space_free(a),
        b.len() == 0 || is_space(b[0]),
    ensures
        ws_tokens(a + b) =~~= seq![a] + ws_tokens(b),
    decreases a.len(),
{
    let s = a + b;
    assert(!is_space(s[0]));
    if a.len() == 1 {
        assert(s.subrange(1, s.len() as int) =~= b);
        assert(s.len() == 1 || is_space(s[1]));
        assert(seq![s[0]] =~= a);
    } else {
        let a1 = a.subrange(1, a.len() as int);
        lemma_ws_tokens_step(a1, b);
        assert(s.subrange(1, s.len() as int) =~= a1 + b);
        assert(!is_space(s[1]));
        let rest = ws_tokens(a1 + b);
        assert(rest =~~= seq![a1] + ws_tokens(b));
        assert(seq![s[0]] + rest[0] =~= a);
        assert(rest.subrange(1, rest.len() as int) =~~= ws_tokens(b));
    }
}

/// Whether `c` separates the segments of a fraction token.
fn frac_sep(c: char) -> (r: bool)
    ensures
        r == is_frac_sep(c),
{
    c == '_' || c == '/'
}

/// Whether `c` is an ASCII whitespace character.
fn space(c: char) -> (r: bool)
    ensures
        r == is_space(c),
{
    c == ' ' || c == '\t' || c == '\n' || c == '\r' || c == '\u{000B}' || c == '\u{000C}'
}

/// Splits a fraction token at every `_` or `/`, keeping empty segments.
pub fn split_frac_seps<'a>(s: &'a str) -> (r: Vec<&'a str>)
    ensures
        r@.map_values(|p: &str| p@) == frac_segments(s@),
{
    let len = s.unicode_len();
    let mut out: Vec<&'a str> = Vec::new();
    let mut start: usize = 0;
    let mut i: usize = 0;
    proof {
        assert(s@.subrange(0, len as int) =~= s@);
    }
    while i < len
        invariant
            0 <= start <= i <= len,
            len == s@.len(),
            sep_free(s@.subrange(start as int, i as int)),
            out@.map_values(|p: &str| p@) + frac_segments(s@.subrange(start as int, len as int))
                =~~= frac_segments(s@),
        decreases len - i,
    {
        let c = s.get_char(i);
        if frac_sep(c) {
            let piece = s.substring_char(start, i);
            proof {
                let tail = s@.subrange(start as int, len as int);
                assert(tail =~= s@.subrange(start as int, i as int) + seq![s@[i as int]]
                    + s@.subrange(i + 1, len as int));
                lemma_frac_segments_step(
                    s@.subrange(start as int, i as int),
                    s@[i as int],
                    s@.subrange(i + 1, len as int),
                );
            }
            out.push(piece);
            proof {
                assert(out@.map_values(|p: &str| p@) =~= out@.subrange(
                    0,
                    out@.len() - 1,
                ).map_values(|p: &str| p@).push(piece@));
            }
            start = i + 1;
        }
        i += 1;
    }
    let last = s.substring_char(start, len);
    proof {
        assert(s@.subrange(start as int, len as int) =~= last@);
        lemma_frac_segments_whole(last@);
    }
    out.push(last);
    proof {
        assert(out@.map_values(|p: &str| p@) =~= out@.subrange(0, out@.len() - 1).map_values(
            |p: &str| p@,
        ).push(last@));
        assert(out@.map_values(|p: &str| p@) =~~= frac_segments(s@));
    }
    out
}

/// Splits an equation line into its whitespace-delimited tokens.
pub fn split_whitespace<'a>(s: &'a str) -> (r: Vec<&'a str>)
    ensures
        r@.map_values(|p: &str| p@) == ws_tokens(s@),
{
    let len = s.unicode_len();
    let mut out: Vec<&'a str> = Vec::new();
    let mut i: usize = 0;
    proof {
        assert(s@.subrange(0, len as int) =~= s@);
    }
    while i < len
        invariant
            0 <= i <= len,
            len == s@.len(),
            out@.map_values(|p: &str| p@) + ws_tokens(s@.subrange(i as int, len as int)) =~~=
                ws_tokens(s@),
        decreases len - i,
    {
        let c = s.get_char(i);
        if space(c) {
            proof {
                let tail = s@.subrange(i as int, len as int);
                lemma_ws_tokens_skip_space(tail);
                assert(tail.subrange(1, tail.len() as int) =~= s@.subrange(i + 1, len as int));
            }
            i += 1;
        } else {
            let tok_start = i;
            let mut j = i + 1;
            while j < len && !space(s.get_char(j))
                invariant
                    tok_start < j <= len,
                    len == s@.len(),
                    space_free(s@.subrange(tok_start as int, j as int)),
                decreases len - j,
            {
                j += 1;
            }
            let piece = s.substring_char(tok_start, j);
            proof {
                let tail = s@.subrange(tok_start as int, len as int);
                assert(tail =~= s@.subrange(tok_start as int, j as int) + s@.subrange(
                    j as int,
                    len as int,
                ));
                lemma_ws_tokens_step(
                    s@.subrange(tok_start as int, j as int),
                    s@.subrange(j as int, len as int),
                );
            }
            out.push(piece);
            proof {
                assert(out@.map_values(|p: &str| p@) =~= out@.subrange(
                    0,
                    out@.len() - 1,
                ).map_values(|p: &str| p@).push(piece@));
            }
            i = j;
        }
    }
    proof {
        assert(s@.subrange(i as int, len as int) =~= Seq::<char>::empty());
        assert(out@.map_values(|p: &str| p@) =~~= ws_tokens(s@));
    }
    out
}

} // verus!
