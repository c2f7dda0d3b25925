//! The line scanner.
//!
//! A block of text is split into segments after each newline, the final
//! unterminated segment included.  Each segment is reduced to a candidate
//! line by stripping one trailing `\r?\n`, matched against the pattern, and,
//! when it matches, rendered as an output line: the original segment, with
//! an optional `label:` prefix, terminated by a newline.

use vstd::prelude::*;
use crate::ast::SNode;
use crate::matcher::{is_match, spec_is_match};
use crate::parser::{find_char, lemma_find_bounds, spec_find, spec_parse, ParseError};

verus! {

/// The segments of `cs` from index `i` on: each ends just after a newline,
/// except a final segment that runs to the end of the text.
pub open spec fn segments_from(cs: Seq<char>, i: int) -> Seq<Seq<char>>
    decreases cs.len() - i,
{
    if i < 0 || i >= cs.len() {
        Seq::empty()
    } else {
        match spec_find(cs, i, '\n') {
            Some(k) => if i <= k < cs.len() {
                seq![cs.subrange(i, k + 1)] + segments_from(cs, k + 1)
            } else {
                seq![cs.subrange(i, cs.len() as int)]
            },
            None => seq![cs.subrange(i, cs.len() as int)],
        }
    }
}

/// The candidate line of a segment: the segment with one trailing `\n`
/// stripped, and one `\r` before it stripped along with it.
pub open spec fn line_of(seg: Seq<char>) -> Seq<char> {
    if seg.len() > 0 && seg.last() == '\n' {
        let a = seg.drop_last();
        if a.len() > 0 && a.last() == '\r' {
            a.drop_last()
        } else {
            a
        }
    } else {
        seg
    }
}

/// Does the pattern match a segment's candidate line?
pub open spec fn seg_matches(seg: Seq<char>, pat: Seq<char>) -> bool {
    spec_is_match(line_of(seg), pat) == Ok::<bool, ParseError>(true)
}

/// A matching segment as it is emitted: prefixed by `label:` when a label is
/// given, and terminated by a newline if the segment has none of its own.
pub open spec fn out_line(seg: Seq<char>, prefix: Option<Seq<char>>) -> Seq<char> {
    let base = match prefix {
        Some(p) => p + seq![':'] + seg,
        None => seg,
    };
    if seg.len() > 0 && seg.last() == '\n' {
        base
    } else {
        base + seq!['\n']
    }
}

/// The output lines of the matching segments from index `i` on.
pub open spec fn outs_from(
    segs: Seq<Seq<char>>,
    pat: Seq<char>,
    prefix: Option<Seq<char>>,
    i: int,
) -> Seq<Seq<char>>
    decreases segs.len() - i,
{
    if i < 0 || i >= segs.len() {
        Seq::empty()
    } else {
        let rest = outs_from(segs, pat, prefix, i + 1);
        if seg_matches(segs[i], pat) {
            seq![out_line(segs[i], prefix)] + rest
        } else {
            rest
        }
    }
}

/// What scanning a block of text produces: whether any segment matched, and
/// the output lines in order.  An unparsable pattern surfaces as its parse
/// error, except on empty text, which has no segments to match.
pub open spec fn spec_grep(content: Seq<char>, pat: Seq<char>, prefix: Option<Seq<char>>)
    -> Result<(bool, Seq<Seq<char>>), ParseError> {
    let segs = segments_from(content, 0);
    if segs.len() == 0 {
        Ok((false, Seq::empty()))
    } else {
        match spec_parse(pat) {
            Err(e) => Err(e),
            Ok(_) => {
                let outs = outs_from(segs, pat, prefix, 0);
                Ok((outs.len() > 0, outs))
            },
        }
    }
}

/// The mathematical value of a vector of output lines.
pub open spec fn lift_lines(v: Seq<Vec<char>>) -> Seq<Seq<char>> {
    Seq::new(v.len(), |i: int| if 0 <= i < v.len() { v[i]@ } else { Seq::empty() })
}

/// The label seen by the specification.
pub open spec fn prefix_view(prefix: Option<&Vec<char>>) -> Option<Seq<char>> {
    match prefix {
        Some(p) => Some(p@),
        None => None,
    }
}

/// Copies the characters of `v` in the range `[a, b)`.
fn copy_range(v: &Vec<char>, a: usize, b: usize) -> (r: Vec<char>)
    requires
        a <= b <= v@.len(),
    ensures
        r@ == v@.subrange(a as int, b as int),
{
    let mut out: Vec<char> = Vec::new();
    let mut i: usize = a;
    while i < b
        invariant
            a <= i <= b <= v@.len(),
            out@ == v@.subrange(a as int, i as int),
        decreases b - i,
    {
        out.push(v[i]);
        proof {
            assert(out@ =~= v@.subrange(a as int, i + 1));
        }
        i = i + 1;
    }
    out
}

/// Splits a block of text into its segments.
fn split_segments(content: &Vec<char>) -> (r: Vec<Vec<char>>)
    ensures
        lift_lines(r@) == segments_from(content@, 0),
{
    let mut segs: Vec<Vec<char>> = Vec::new();
    let mut i: usize = 0;
    loop
        invariant
            i <= content@.len(),
            segments_from(content@, 0) == lift_lines(segs@) + segments_from(content@, i as int),
        decreases content@.len() - i,
    {
        match find_char(content, i, '\n') {
            Some(k) => {
                let total = content.len();
                proof {
                    lemma_find_bounds(content@, i as int, '\n');
                }
                let seg = copy_range(content, i, k + 1);
                let ghost before = lift_lines(segs@);
                segs.push(seg);
                proof {
                    assert(lift_lines(segs@) =~= before + seq![content@.subrange(i as int, k + 1)]);
                    assert(lift_lines(segs@) + segments_from(content@, k + 1) =~= before + (seq![
                        content@.subrange(i as int, k + 1),
                    ] + segments_from(content@, k + 1)));
                }
                i = k + 1;
            },
            None => {
                if i < content.len() {
                    let seg = copy_range(content, i, content.len());
                    let ghost before = lift_lines(segs@);
                    segs.push(seg);
                    proof {
                        assert(lift_lines(segs@) =~= before + seq![
                            content@.subrange(i as int, content@.len() as int),
                        ]);
                        assert(segments_from(content@, i as int) == seq![
                            content@.subrange(i as int, content@.len() as int),
                        ]);
                    }
                } else {
                    proof {
                        assert(segments_from(content@, i as int) =~= Seq::<Seq<char>>::empty());
                    }
                }
                proof {
                    assert(segments_from(content@, 0) =~= lift_lines(segs@));
                }
                return segs;
            },
        }
    }
}

/// The candidate line of a segment, as an owned vector.
fn line_of_exec(seg: &Vec<char>) -> (r: Vec<char>)
    ensures
        r@ == line_of(seg@),
{
    let n = seg.len();
    let mut end = n;
    if end > 0 && seg[end - 1] == '\n' {
        end = end - 1;
        if end > 0 && seg[end - 1] == '\r' {
            end = end - 1;
        }
    }
    let r = copy_range(seg, 0, end);
    proof {
        assert(r@ =~= line_of(seg@));
    }
    r
}

/// Renders a matching segment as an output line.
fn render(seg: &Vec<char>, prefix: Option<&Vec<char>>) -> (r: Vec<char>)
    ensures
        r@ == out_line(seg@, prefix_view(prefix)),
{
    let mut out: Vec<char> = Vec::new();
    match prefix {
        Some(p) => {
            let mut i: usize = 0;
            while i < p.len()
                invariant
                    i <= p@.len(),
                    out@ == p@.subrange(0, i as int),
                decreases p@.len() - i,
            {
                out.push(p[i]);
                proof {
                    assert(out@ =~= p@.subrange(0, i + 1));
                }
                i = i + 1;
            }
            proof {
                assert(out@ =~= p@);
            }
            out.push(':');
        },
        None => {},
    }
    let ghost base0 = out@;
    let mut j: usize = 0;
    while j < seg.len()
        invariant
            j <= seg@.len(),
            out@ == base0 + seg@.subrange(0, j as int),
        decreases seg@.len() - j,
    {
        out.push(seg[j]);
        proof {
            assert(out@ =~= base0 + seg@.subrange(0, j + 1));
        }
        j = j + 1;
    }
    let n = seg.len();
    if n == 0 || seg[n - 1] != '\n' {
        out.push('\n');
    }
    proof {
        assert(seg@.subrange(0, seg@.len() as int) =~= seg@);
        assert(out@ =~= out_line(seg@, prefix_view(prefix)));
    }
    out
}

/// Scans a block of text: returns whether any line matched the pattern, and
/// the output lines for the matching segments, in order, each carrying the
/// optional `label:` prefix and a terminating newline.
pub fn grep_content(content: &Vec<char>, pattern: &Vec<char>, prefix: Option<&Vec<char>>) -> (r:
    Result<(bool, Vec<Vec<char>>), ParseError>)
    ensures
        match r {
            Ok((any, outs)) => spec_grep(content@, pattern@, prefix_view(prefix)) == Ok::<
                (bool, Seq<Seq<char>>),
                ParseError,
            >((any, lift_lines(outs@))),
            Err(e) => spec_grep(content@, pattern@, prefix_view(prefix)) == Err::<
                (bool, Seq<Seq<char>>),
                ParseError,
            >(e),
        },
{
    let segs = split_segments(content);
    let ghost segsr = segments_from(content@, 0);
    let ghost prefr = prefix_view(prefix);
    if segs.len() == 0 {
        let outs: Vec<Vec<char>> = Vec::new();
        proof {
            assert(lift_lines(outs@) =~= Seq::<Seq<char>>::empty());
        }
        return Ok((false, outs));
    }
    let mut outs: Vec<Vec<char>> = Vec::new();
    let mut j: usize = 0;
    while j < segs.len()
        invariant
            j <= segs@.len(),
            lift_lines(segs@) == segsr,
            segsr == segments_from(content@, 0),
            segsr.len() == segs@.len() > 0,
            prefr == prefix_view(prefix),
            j > 0 ==> spec_parse(pattern@) is Ok,
            outs_from(segsr, pattern@, prefr, 0) == lift_lines(outs@) + outs_from(
                segsr,
                pattern@,
                prefr,
                j as int,
            ),
        decreases segs@.len() - j,
    {
        let line = line_of_exec(&segs[j]);
        proof {
            assert(segs@[j as int]@ == segsr[j as int]);
        }
        match is_match(&line, pattern) {
            Err(e) => {
                proof {
                    assert(spec_parse(pattern@) == Err::<(Seq<SNode>, bool, bool), ParseError>(e));
                }
                return Err(e);
            },
            Ok(matched) => {
                proof {
                    assert(matched == seg_matches(segsr[j as int], pattern@));
                }
                if matched {
                    let rendered = render(&segs[j], prefix);
                    let ghost before = lift_lines(outs@);
                    outs.push(rendered);
                    proof {
                        assert(lift_lines(outs@) =~= before + seq![
                            out_line(segsr[j as int], prefr),
                        ]);
                        assert(outs_from(segsr, pattern@, prefr, j as int) == seq![
                            out_line(segsr[j as int], prefr),
                        ] + outs_from(segsr, pattern@, prefr, j + 1));
                        assert(before + (seq![out_line(segsr[j as int], prefr)] + outs_from(
                            segsr,
                            pattern@,
                            prefr,
                            j + 1,
                        )) =~= lift_lines(outs@) + outs_from(segsr, pattern@, prefr, j + 1));
                    }
                }
            },
        }
        j = j + 1;
    }
    proof {
        assert(outs_from(segsr, pattern@, prefr, segs@.len() as int) =~= Seq::<Seq<char>>::empty());
        assert(outs_from(segsr, pattern@, prefr, 0) =~= lift_lines(outs@));
    }
    let any = outs.len() > 0;
    Ok((any, outs))
}

} // verus!
