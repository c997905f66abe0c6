//! The compositor: lays each display item out as an offset block of text
//! lines and merges the blocks, in the caller's order, into one frame using
//! space-as-transparency.

use vstd::prelude::*;
use vstd::string::{StrSliceExecFns, StringExecFns};
use crate::index::{DisplayItem, DisplayItemV};
use crate::text::{
    is_blank, join_strings, join_with, lines_of, lines_str, push_char, repeat_char,
    repeat_char_string, str_is_blank, views_of,
};

verus! {

pub open spec fn seq_max(a: int, b: int) -> int {
    if a >= b {
        a
    } else {
        b
    }
}

/// An item can be laid out only at a non-negative offset; a negative one has
/// no cell to land in.
pub open spec fn renderable(it: DisplayItemV) -> bool {
    it.x >= 0 && it.y >= 0
}

/// Each content line prefixed with `x` spaces.
pub open spec fn pad_lines(ls: Seq<Seq<char>>, x: int) -> Seq<Seq<char>> {
    Seq::new(ls.len(), |i: int| repeat_char(' ', x) + ls[i])
}

/// The item's placement as text: `y` leading line feeds, then its content
/// lines each prefixed with `x` spaces, joined with line feeds.
pub open spec fn offset_block_text(it: DisplayItemV) -> Seq<char> {
    repeat_char('\n', it.y as int) + join_with(pad_lines(lines_of(it.content), it.x as int), '\n')
}

/// The rows of the item's offset block: the block text split back into lines,
/// so the `y` leading separators become `y` empty rows.
pub open spec fn offset_lines(it: DisplayItemV) -> Seq<Seq<char>> {
    lines_of(offset_block_text(it))
}

impl DisplayItem {
    pub fn offset_content_lines(&self) -> (r: Vec<String>)
        requires
            self.x >= 0,
            self.y >= 0,
        ensures
            views_of(r@) == offset_lines(self@),
    {
        let ls = lines_str(self.content.as_str());
        let pad = repeat_char_string(' ', self.x as usize);
        let ghost lsv = lines_of(self.content@);
        let ghost pl = pad_lines(lsv, self.x as int);
        let mut padded: Vec<String> = Vec::new();
        proof {
            assert(views_of(padded@) =~= pl.take(0));
        }
        let mut i: usize = 0;
        while i < ls.len()
            invariant
                views_of(ls@) == lsv,
                ls@.len() == lsv.len(),
                pad@ == repeat_char(' ', self.x as int),
                pl == pad_lines(lsv, self.x as int),
                0 <= i <= lsv.len(),
                views_of(padded@) == pl.take(i as int),
            decreases lsv.len() - i,
        {
            let mut line = pad.clone();
            line.append(ls[i].as_str());
            proof {
                assert(line@ == pl[i as int]);
                let ghost prev = views_of(padded@);
                assert(views_of(padded@.push(line)) =~~= prev.push(line@));
                assert(pl.take(i + 1) =~~= pl.take(i as int).push(pl[i as int]));
            }
            padded.push(line);
            i += 1;
        }
        proof {
            assert(pl.take(pl.len() as int) =~= pl);
        }
        let joined = join_strings(&padded, '\n');
        let mut block = repeat_char_string('\n', self.y as usize);
        block.append(joined.as_str());
        proof {
            assert(block@ == offset_block_text(self@));
        }
        lines_str(block.as_str())
    }
}

/// Overlaying one row onto another, column by column. A blank overlay leaves
/// the row untouched; a non-blank overlay replaces a blank row outright (so a
/// blank row is never polluted with the overlay's leading spaces); otherwise
/// a non-space overlay character wins at its column, a space keeps what was
/// below, and the overlay's extra tail is appended as-is.
pub open spec fn overlap(orig: Seq<char>, second: Seq<char>) -> Seq<char> {
    if is_blank(second) {
        orig
    } else if is_blank(orig) {
        second
    } else {
        Seq::new(
            seq_max(orig.len() as int, second.len() as int) as nat,
            |i: int|
                if i < second.len() {
                    if i < orig.len() && second[i] == ' ' {
                        orig[i]
                    } else {
                        second[i]
                    }
                } else {
                    orig[i]
                },
        )
    }
}

pub fn overlap_strings(orig: &str, second: &str) -> (r: String)
    ensures
        r@ == overlap(orig@, second@),
{
    if str_is_blank(second) {
        return orig.to_owned();
    }
    if str_is_blank(orig) {
        return second.to_owned();
    }
    let n1 = orig.unicode_len();
    let n2 = second.unicode_len();
    let total = if n1 >= n2 {
        n1
    } else {
        n2
    };
    let mut r = String::new();
    let mut i: usize = 0;
    proof {
        assert(r@ =~= overlap(orig@, second@).take(0));
    }
    while i < total
        invariant
            n1 == orig@.len(),
            n2 == second@.len(),
            !is_blank(orig@),
            !is_blank(second@),
            total == seq_max(n1 as int, n2 as int),
            0 <= i <= total,
            r@ == overlap(orig@, second@).take(i as int),
        decreases total - i,
    {
        let c: char = if i < n2 {
            let sc = second.get_char(i);
            if i < n1 && sc == ' ' {
                orig.get_char(i)
            } else {
                sc
            }
        } else {
            orig.get_char(i)
        };
        proof {
            let ghost ov = overlap(orig@, second@);
            assert(ov[i as int] == c);
            assert(ov.take(i + 1) =~= ov.take(i as int).push(ov[i as int]));
        }
        push_char(&mut r, c);
        i += 1;
    }
    proof {
        assert(overlap(orig@, second@).take(total as int) =~= overlap(orig@, second@));
    }
    r
}

/// One block merged into the row buffer: shared rows are overlaid, rows the
/// buffer alone has stay, rows the block alone has are appended.
pub open spec fn merge_block(buf: Seq<Seq<char>>, bl: Seq<Seq<char>>) -> Seq<Seq<char>> {
    Seq::new(
        seq_max(buf.len() as int, bl.len() as int) as nat,
        |i: int|
            if i < buf.len() && i < bl.len() {
                overlap(buf[i], bl[i])
            } else if i < buf.len() {
                buf[i]
            } else {
                bl[i]
            },
    )
}

/// The row buffer after compositing the items in order: the first item's
/// offset block verbatim, every further block merged on top.
pub open spec fn flatten_buf(items: Seq<DisplayItemV>) -> Seq<Seq<char>>
    decreases items.len(),
{
    if items.len() == 0 {
        Seq::empty()
    } else if items.len() == 1 {
        offset_lines(items[0])
    } else {
        merge_block(flatten_buf(items.drop_last()), offset_lines(items.last()))
    }
}

/// The finished frame: the composited rows joined with line feeds. The
/// caller passes the items already ordered (ascending stacking order), so a
/// later item paints over an earlier one wherever it has ink.
pub open spec fn flatten_spec(items: Seq<DisplayItemV>) -> Seq<char> {
    join_with(flatten_buf(items), '\n')
}

pub open spec fn item_views(items: Seq<&DisplayItem>) -> Seq<DisplayItemV> {
    items.map_values(|it: &DisplayItem| it@)
}

pub fn flatten_items(items: Vec<&DisplayItem>) -> (r: String)
    requires
        forall|t: int| 0 <= t < items@.len() ==> renderable((#[trigger] items@[t])@),
    ensures
        r@ == flatten_spec(item_views(items@)),
{
    let ghost iv = item_views(items@);
    let mut lines: Vec<String> = Vec::new();
    proof {
        assert(iv.take(0) =~= Seq::<DisplayItemV>::empty());
        assert(views_of(lines@) =~= flatten_buf(iv.take(0)));
    }
    let mut i: usize = 0;
    while i < items.len()
        invariant
            iv == item_views(items@),
            iv.len() == items@.len(),
            forall|t: int| 0 <= t < items@.len() ==> renderable((#[trigger] items@[t])@),
            0 <= i <= iv.len(),
            views_of(lines@) == flatten_buf(iv.take(i as int)),
        decreases iv.len() - i,
    {
        let item = items[i];
        proof {
            assert(iv[i as int] == items@[i as int]@);
        }
        let bl = item.offset_content_lines();
        proof {
            assert(iv.take(i + 1).drop_last() =~= iv.take(i as int));
            assert(iv.take(i + 1).last() == iv[i as int]);
        }
        if i == 0 {
            lines = bl;
            proof {
                assert(iv.take(1)[0] == iv[0]);
            }
        } else {
            let ghost buf = views_of(lines@);
            let ghost blv = views_of(bl@);
            let ln = lines.len();
            let bn = bl.len();
            let total = if ln >= bn {
                ln
            } else {
                bn
            };
            let mut next: Vec<String> = Vec::new();
            proof {
                assert(views_of(next@) =~= merge_block(buf, blv).take(0));
            }
            let mut j: usize = 0;
            while j < total
                invariant
                    buf == views_of(lines@),
                    blv == views_of(bl@),
                    ln == lines@.len(),
                    bn == bl@.len(),
                    total == seq_max(ln as int, bn as int),
                    0 <= j <= total,
                    views_of(next@) == merge_block(buf, blv).take(j as int),
                decreases total - j,
            {
                let line: String = if j < ln && j < bn {
                    overlap_strings(lines[j].as_str(), bl[j].as_str())
                } else if j < ln {
                    lines[j].clone()
                } else {
                    bl[j].clone()
                };
                proof {
                    let ghost mg = merge_block(buf, blv);
                    assert(mg[j as int] == line@);
                    let ghost prev = views_of(next@);
                    assert(views_of(next@.push(line)) =~~= prev.push(line@));
                    assert(mg.take(j + 1) =~~= mg.take(j as int).push(mg[j as int]));
                }
                next.push(line);
                j += 1;
            }
            proof {
                let ghost mg = merge_block(buf, blv);
                assert(mg.take(total as int) =~~= mg);
            }
            lines = next;
        }
        i += 1;
    }
    proof {
        assert(iv.take(iv.len() as int) =~= iv);
    }
    join_strings(&lines, '\n')
}

/// Compositing a single item reproduces exactly that item's offset block.
pub proof fn lemma_flatten_single(it: DisplayItemV)
    ensures
        flatten_spec(seq![it]) == join_with(offset_lines(it), '\n'),
{
    assert(seq![it].len() == 1);
    assert(seq![it][0] == it);
}

/// Overlay precedence per column, for two non-blank rows: a space in the
/// overlay never erases what is below it, a non-space overlay character
/// always wins at its column, and the overlay's tail beyond the base row is
/// taken as-is.
pub proof fn lemma_overlay_precedence(orig: Seq<char>, second: Seq<char>, i: int)
    requires
        !is_blank(orig),
        !is_blank(second),
        0 <= i,
    ensures
        i < second.len() && second[i] != ' ' ==> overlap(orig, second)[i] == second[i],
        i < orig.len() && i < second.len() && second[i] == ' ' ==> overlap(orig, second)[i]
            == orig[i],
        i < orig.len() && i >= second.len() ==> overlap(orig, second)[i] == orig[i],
        i >= orig.len() && i < second.len() ==> overlap(orig, second)[i] == second[i],
{
}

/// The blank-row special cases: a blank overlay leaves the base row as it
/// is, and a non-blank overlay replaces a blank base row verbatim, leading
/// spaces included.
pub proof fn lemma_overlay_blank(orig: Seq<char>, second: Seq<char>)
    ensures
        is_blank(second) ==> overlap(orig, second) == orig,
        is_blank(orig) && !is_blank(second) ==> overlap(orig, second) == second,
{
}

} // verus!
