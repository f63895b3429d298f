//! The integer part of laying out a watermark text: its lines, their baselines,
//! and which line each glyph is aligned as. Glyph advances and alignment shifts
//! are fractional and are computed by the caller.
use vstd::prelude::*;
use vstd::std_specs::iter::IteratorSpec;

verus! {

/// The lines of a text: the runs of characters between line feeds, as
/// `str::split('\n')` yields them (an empty text is one empty line).
pub open spec fn split_lines(s: Seq<char>) -> Seq<Seq<char>>
    decreases s.len(),
{
    if s.len() == 0 {
        seq![Seq::empty()]
    } else {
        let before = split_lines(s.drop_last());
        if s.last() == '\n' {
            before.push(Seq::empty())
        } else {
            before.update(before.len() - 1, before.last().push(s.last()))
        }
    }
}

/// The lines joined back together, with a line feed between each two.
pub open spec fn join_lines(lines: Seq<Seq<char>>) -> Seq<char>
    decreases lines.len(),
{
    if lines.len() == 0 {
        Seq::empty()
    } else if lines.len() == 1 {
        lines[0]
    } else {
        join_lines(lines.drop_last()) + seq!['\n'] + lines.last()
    }
}

/// Only a line feed starts a new line: no line holds a line feed, and joining
/// the lines with a line feed between each two gives back the text.
pub proof fn lemma_lines_rejoin(s: Seq<char>)
    ensures
        split_lines(s).len() >= 1,
        forall|i: int| 0 <= i < split_lines(s).len() ==> !(#[trigger] split_lines(s)[i]).contains('\n'),
        join_lines(split_lines(s)) == s,
    decreases s.len(),
{
    if s.len() > 0 {
        let t = s.drop_last();
        let c = s.last();
        lemma_lines_rejoin(t);
        let before = split_lines(t);
        let now = split_lines(s);
        assert(s =~= t.push(c));
        if c == '\n' {
            assert(now == before.push(Seq::<char>::empty()));
            assert(now.drop_last() == before);
            assert(join_lines(now) == join_lines(before) + seq!['\n'] + Seq::<char>::empty());
            assert(join_lines(now) =~= s);
            assert forall|i: int| 0 <= i < now.len() implies !(#[trigger] now[i]).contains('\n') by {
                if i < before.len() {
                    assert(now[i] == before[i]);
                } else {
                    assert(now[i] =~= Seq::<char>::empty());
                }
            }
        } else {
            let last = before.last().push(c);
            assert(now == before.update(before.len() - 1, last));
            assert forall|i: int| 0 <= i < now.len() implies !(#[trigger] now[i]).contains('\n') by {
                if i < before.len() - 1 {
                    assert(now[i] == before[i]);
                } else {
                    assert(now[i] == last);
                    assert(!before[before.len() - 1].contains('\n'));
                    if last.contains('\n') {
                        let j = choose|j: int| 0 <= j < last.len() && last[j] == '\n';
                        if j < before.last().len() {
                            assert(before.last()[j] == '\n');
                        }
                    }
                }
            }
            if before.len() == 1 {
                assert(join_lines(before) == before[0]);
                assert(join_lines(now) == now[0]);
                assert(join_lines(now) =~= s);
            } else {
                assert(now.drop_last() =~= before.drop_last());
                assert(join_lines(now) == join_lines(before.drop_last()) + seq!['\n'] + last);
                assert(join_lines(before) == join_lines(before.drop_last()) + seq!['\n'] + before.last());
                assert(join_lines(now) =~= s);
            }
        }
    }
}

/// The lines of the text to be drawn; an empty text is refused. No line holds a
/// line feed, and the lines joined with a line feed between each two give back
/// the text.
pub fn text_lines(text: &str) -> (r: Result<Vec<Vec<char>>, String>)
    ensures
        text@.len() == 0 ==> (r matches Err(e) && e@ == "watermark text is empty"@),
        text@.len() > 0 ==> (r matches Ok(lines) && lines@.map_values(|l: Vec<char>| l@)
            == split_lines(text@)),
        r matches Ok(lines) ==> join_lines(lines@.map_values(|l: Vec<char>| l@)) == text@,
        r matches Ok(lines) ==> forall|i: int|
            0 <= i < lines@.len() ==> !(#[trigger] lines@[i])@.contains('\n'),
{
    proof {
        lemma_lines_rejoin(text@);
    }
    if text.is_empty() {
        return Err("watermark text is empty".to_owned());
    }
    let mut lines: Vec<Vec<char>> = Vec::new();
    let mut current: Vec<char> = Vec::new();
    let mut chars = text.chars();
    let ghost mut done: Seq<char> = Seq::empty();
    proof {
        assert(done + chars.remaining() == text@);
    }
    loop
        invariant
            done + chars.remaining() == text@,
            split_lines(done) == lines@.map_values(|l: Vec<char>| l@).push(current@),
            chars.decrease() is Some,
        ensures
            done == text@,
            split_lines(done) == lines@.map_values(|l: Vec<char>| l@).push(current@),
        decreases chars.decrease()->0,
    {
        let ghost before = chars.remaining();
        match chars.next() {
            Some(ch) => {
                proof {
                    assert(before.len() > 0);
                    assert(ch == before[0]);
                    assert(done.push(ch) + chars.remaining() == text@) by {
                        assert(before == seq![ch] + chars.remaining());
                        assert(done + before == text@);
                    }
                    let d2 = done.push(ch);
                    assert(d2.drop_last() == done);
                    assert(d2.last() == ch);
                }
                let ghost old_lines = lines@.map_values(|l: Vec<char>| l@);
                let ghost old_current = current@;
                if ch == '\n' {
                    let finished = current;
                    lines.push(finished);
                    current = Vec::new();
                    proof {
                        assert(lines@.map_values(|l: Vec<char>| l@) == old_lines.push(old_current));
                    }
                } else {
                    current.push(ch);
                    proof {
                        let prev = old_lines.push(old_current);
                        assert(prev.update(prev.len() - 1, prev.last().push(ch)) == old_lines.push(
                            current@,
                        ));
                    }
                }
                proof {
                    done = done.push(ch);
                }
            },
            None => {
                proof {
                    assert(before.len() == 0);
                    assert(done == text@);
                }
                break ;
            },
        }
    }
    let ghost old_lines = lines@.map_values(|l: Vec<char>| l@);
    let ghost last = current@;
    lines.push(current);
    proof {
        assert(lines@.map_values(|l: Vec<char>| l@) == old_lines.push(last));
        let views = lines@.map_values(|l: Vec<char>| l@);
        assert forall|i: int| 0 <= i < lines@.len() implies !(#[trigger] lines@[i])@.contains('\n') by {
            assert(views[i] == lines@[i]@);
        }
    }
    Ok(lines)
}

/// The baseline of line `li` (up is positive): `line_h` pixels below the one
/// before it, the first at 0, computed in `i32` with the line number cast to
/// `i32`; `None` where the product or its negation overflows.
pub open spec fn baseline_at(line_h: i32, li: usize) -> Option<i32> {
    let p: int = line_h * (li as i32);
    if i32::MIN < p <= i32::MAX {
        Some((-p) as i32)
    } else {
        None
    }
}

/// The baseline of line `li`, or `None` where it overflows `i32`.
pub fn line_baseline(line_h: i32, li: usize) -> (r: Option<i32>)
    ensures
        r == baseline_at(line_h, li),
{
    let l: i32 = li as i32;
    match line_h.checked_mul(l) {
        Some(p) => if p == i32::MIN {
            None
        } else {
            Some(-p)
        },
        None => None,
    }
}

/// The first line from `li` on whose baseline is `bl`, among the `count` lines
/// of the text; the last line where no later one has it.
pub open spec fn line_from(line_h: i32, li: nat, bl: i32, count: nat) -> nat
    decreases count - li,
{
    if li + 1 >= count || baseline_at(line_h, li as usize) == Some(bl) {
        li
    } else {
        line_from(line_h, li + 1, bl, count)
    }
}

/// The line that each glyph is aligned as, given the glyphs' baselines in order
/// and the number of lines: lines are the runs of glyphs that share a baseline,
/// so each glyph goes to the first line, from that of the glyph before it on,
/// whose baseline it sits on.
pub open spec fn glyph_line_indices(baselines: Seq<i32>, line_h: i32, count: nat) -> Seq<usize>
    decreases baselines.len(),
{
    if baselines.len() == 0 {
        Seq::empty()
    } else {
        let before = glyph_line_indices(baselines.drop_last(), line_h, count);
        let li: nat = if before.len() == 0 {
            0
        } else {
            before.last() as nat
        };
        before.push(line_from(line_h, li, baselines.last(), count) as usize)
    }
}

proof fn lemma_line_from_bound(line_h: i32, li: nat, bl: i32, count: nat)
    requires
        li <= count,
    ensures
        li <= line_from(line_h, li, bl, count) <= count,
        li < count ==> line_from(line_h, li, bl, count) < count,
    decreases count - li,
{
    if !(li + 1 >= count || baseline_at(line_h, li as usize) == Some(bl)) {
        lemma_line_from_bound(line_h, li + 1, bl, count);
    }
}

fn advance_line(line_h: i32, li: usize, bl: i32, count: usize) -> (r: usize)
    requires
        li <= count,
    ensures
        r == line_from(line_h, li as nat, bl, count as nat),
        r <= count,
    decreases count - li,
{
    proof {
        lemma_line_from_bound(line_h, li as nat, bl, count as nat);
    }
    if count - li <= 1 {
        return li;
    }
    let on_line = match line_baseline(line_h, li) {
        Some(b) => b == bl,
        None => false,
    };
    if on_line {
        li
    } else {
        advance_line(line_h, li + 1, bl, count)
    }
}

/// The line that each glyph is aligned as (`glyph_line_indices`), among
/// `line_count` lines.
pub fn glyph_lines(baselines: &Vec<i32>, line_h: i32, line_count: usize) -> (r: Vec<usize>)
    ensures
        r@ == glyph_line_indices(baselines@, line_h, line_count as nat),
{
    let ghost bs = baselines@;
    let mut out: Vec<usize> = Vec::new();
    let mut li: usize = 0;
    let mut k: usize = 0;
    proof {
        assert(bs.take(0) == Seq::<i32>::empty());
    }
    while k < baselines.len()
        invariant
            bs == baselines@,
            k <= bs.len(),
            li <= line_count,
            out@.len() == k,
            li == (if k == 0 {
                0
            } else {
                out@.last()
            }),
            glyph_line_indices(bs.take(k as int), line_h, line_count as nat) == out@,
        decreases bs.len() - k,
    {
        proof {
            assert(bs.take(k + 1).drop_last() == bs.take(k as int));
            assert(bs.take(k + 1).last() == bs[k as int]);
        }
        li = advance_line(line_h, li, baselines[k], line_count);
        out.push(li);
        k = k + 1;
    }
    proof {
        assert(bs.take(bs.len() as int) == bs);
    }
    out
}

/// Advancing from a line at or before a glyph's own line, among lines that lie
/// apart, stops at the glyph's line.
proof fn lemma_line_from_target(line_h: i32, li: nat, target: nat, bl: i32, count: nat)
    requires
        line_h != 0,
        li <= target < count,
        count <= i32::MAX,
        baseline_at(line_h, target as usize) == Some(bl),
    ensures
        line_from(line_h, li, bl, count) == target,
    decreases target - li,
{
    if li < target {
        assert((li as usize) as i32 as int == li);
        assert((target as usize) as i32 as int == target);
        if baseline_at(line_h, li as usize) == Some(bl) {
            assert(line_h * (li as int) != line_h * (target as int)) by (nonlinear_arith)
                requires
                    line_h != 0,
                    li < target,
            ;
        }
        lemma_line_from_target(line_h, li + 1, target, bl, count);
    }
}

/// The glyphs are laid out line after line, among `count` lines: each glyph's
/// line is the line of the glyph before it or a later one, and each glyph sits on
/// its line's baseline.
pub open spec fn laid_out_by_lines(baselines: Seq<i32>, lines: Seq<usize>, line_h: i32, count: nat) -> bool {
    &&& lines.len() == baselines.len()
    &&& forall|k: int| 0 < k < lines.len() ==> lines[k - 1] <= #[trigger] lines[k]
    &&& forall|k: int|
        0 <= k < lines.len() ==> #[trigger] lines[k] < count && baseline_at(line_h, lines[k])
            == Some(baselines[k])
}

/// Where the lines lie apart, each glyph is aligned as the line it was laid out
/// on, lines without glyphs included: the lines are the runs of glyphs that share
/// a baseline.
pub proof fn lemma_lines_recovered(baselines: Seq<i32>, lines: Seq<usize>, line_h: i32, count: nat)
    requires
        line_h != 0,
        count <= i32::MAX,
        laid_out_by_lines(baselines, lines, line_h, count),
    ensures
        glyph_line_indices(baselines, line_h, count) == lines,
    decreases baselines.len(),
{
    if baselines.len() > 0 {
        let n: int = baselines.len() - 1;
        let bs = baselines.drop_last();
        let ls = lines.drop_last();
        assert(laid_out_by_lines(bs, ls, line_h, count)) by {
            assert forall|k: int| 0 < k < ls.len() implies ls[k - 1] <= #[trigger] ls[k] by {
                assert(ls[k] == lines[k] && ls[k - 1] == lines[k - 1]);
            }
            assert forall|k: int| 0 <= k < ls.len() implies #[trigger] ls[k] < count && baseline_at(
                line_h,
                ls[k],
            ) == Some(bs[k]) by {
                assert(ls[k] == lines[k] && bs[k] == baselines[k]);
            }
        }
        lemma_lines_recovered(bs, ls, line_h, count);
        assert(lines[n] < count && baseline_at(line_h, lines[n]) == Some(baselines[n]));
        let start: nat = if n == 0 {
            0
        } else {
            assert(lines[n - 1] <= lines[n]);
            lines[n - 1] as nat
        };
        assert((lines[n] as nat) as usize == lines[n]);
        lemma_line_from_target(line_h, start, lines[n] as nat, baselines[n], count);
        assert(ls.push(lines[n]) == lines);
    }
}

} // verus!
