//! The playback decision logic, one animation tick at a time. The caller
//! owns the clock, the tick cadence and the terminal; this module decides,
//! from the musical position alone, whether playback is over, whether the
//! frame is skipped, or what text the frame holds.
//!
//! The musical position is handed in as an exact rational: `elapsed_num /
//! measure_den` measures have passed, so `elapsed_num / measure_den` (integer
//! division) is the measure index and `(elapsed_num % measure_den) /
//! measure_den` its fractional part.

use vstd::prelude::*;
use vstd::arithmetic::div_mod::lemma_fundamental_div_mod;
use crate::compose::{flatten_items, flatten_spec, item_views, renderable, seq_max};
use crate::index::{DisplayItem, DisplayItemV, IndexedScore};

verus! {

/// What one tick yields: playback is finished, this frame is skipped (the
/// previous frame stays on screen), or a new frame of text.
#[derive(Debug, Clone, PartialEq)]
pub enum TickOutcome {
    Finished,
    Skip,
    Frame(String),
}

/// The mathematical form of a tick outcome.
pub enum TickOutcomeV {
    Finished,
    Skip,
    Frame(Seq<char>),
}

impl View for TickOutcome {
    type V = TickOutcomeV;

    open spec fn view(&self) -> TickOutcomeV {
        match self {
            TickOutcome::Finished => TickOutcomeV::Finished,
            TickOutcome::Skip => TickOutcomeV::Skip,
            TickOutcome::Frame(s) => TickOutcomeV::Frame(s@),
        }
    }
}

pub open spec fn score_views(ss: Seq<IndexedScore>) -> Seq<Seq<Seq<DisplayItemV>>> {
    ss.map_values(|s: IndexedScore| s@)
}

pub open spec fn all_renderable(scores: Seq<Seq<Seq<DisplayItemV>>>) -> bool {
    forall|a: int, b: int, c: int|
        0 <= a < scores.len() && 0 <= b < scores[a].len() && 0 <= c < scores[a][b].len()
            ==> renderable(#[trigger] scores[a][b][c])
}

/// Ascending stacking order.
pub open spec fn sorted_by_z(s: Seq<DisplayItemV>) -> bool {
    forall|i: int, j: int| 0 <= i < j < s.len() ==> s[i].z <= s[j].z
}

/// Stable insertion: the new item lands after every element whose stacking
/// order does not exceed its own, so equal orders keep their relative
/// position.
pub open spec fn insert_z(s: Seq<DisplayItemV>, it: DisplayItemV) -> Seq<DisplayItemV>
    decreases s.len(),
{
    if s.len() == 0 {
        seq![it]
    } else if s.last().z <= it.z {
        s.push(it)
    } else {
        insert_z(s.drop_last(), it).push(s.last())
    }
}

/// The stable sort by stacking order: what `sort_by_key` on `z` yields.
pub open spec fn sort_by_z(s: Seq<DisplayItemV>) -> Seq<DisplayItemV>
    decreases s.len(),
{
    if s.len() == 0 {
        s
    } else {
        insert_z(sort_by_z(s.drop_last()), s.last())
    }
}

proof fn lemma_insert_z_all(s: Seq<DisplayItemV>, it: DisplayItemV, p: spec_fn(DisplayItemV) -> bool)
    requires
        forall|i: int| 0 <= i < s.len() ==> p(#[trigger] s[i]),
        p(it),
    ensures
        insert_z(s, it).len() == s.len() + 1,
        forall|i: int| 0 <= i < insert_z(s, it).len() ==> p(#[trigger] insert_z(s, it)[i]),
    decreases s.len(),
{
    if s.len() == 0 {
    } else if s.last().z <= it.z {
    } else {
        lemma_insert_z_all(s.drop_last(), it, p);
    }
}

proof fn lemma_insert_z_sorted(s: Seq<DisplayItemV>, it: DisplayItemV)
    requires
        sorted_by_z(s),
    ensures
        sorted_by_z(insert_z(s, it)),
    decreases s.len(),
{
    if s.len() == 0 {
    } else if s.last().z <= it.z {
        assert(forall|i: int| 0 <= i < s.len() ==> s[i].z <= it.z);
    } else {
        let dl = s.drop_last();
        lemma_insert_z_sorted(dl, it);
        lemma_insert_z_all(dl, it, |x: DisplayItemV| x.z <= s.last().z);
    }
}

pub proof fn lemma_sort_by_z_props(s: Seq<DisplayItemV>)
    ensures
        sort_by_z(s).len() == s.len(),
        sorted_by_z(sort_by_z(s)),
    decreases s.len(),
{
    if s.len() > 0 {
        lemma_sort_by_z_props(s.drop_last());
        lemma_insert_z_sorted(sort_by_z(s.drop_last()), s.last());
        lemma_insert_z_all(sort_by_z(s.drop_last()), s.last(), |x: DisplayItemV| true);
    }
}

/// Sorting keeps any property every element already has: the output holds no
/// item the input did not.
pub proof fn lemma_sort_by_z_all(s: Seq<DisplayItemV>, p: spec_fn(DisplayItemV) -> bool)
    requires
        forall|i: int| 0 <= i < s.len() ==> p(#[trigger] s[i]),
    ensures
        forall|i: int| 0 <= i < sort_by_z(s).len() ==> p(#[trigger] sort_by_z(s)[i]),
    decreases s.len(),
{
    if s.len() > 0 {
        lemma_sort_by_z_all(s.drop_last(), p);
        lemma_insert_z_all(sort_by_z(s.drop_last()), s.last(), p);
    }
}

proof fn lemma_insert_z_at(s: Seq<DisplayItemV>, it: DisplayItemV, pos: int)
    requires
        sorted_by_z(s),
        0 <= pos <= s.len(),
        forall|k: int| pos <= k < s.len() ==> (#[trigger] s[k]).z > it.z,
        pos > 0 ==> s[pos - 1].z <= it.z,
    ensures
        insert_z(s, it) == s.take(pos).push(it) + s.skip(pos),
    decreases s.len(),
{
    if s.len() == 0 {
        assert(s.take(pos).push(it) + s.skip(pos) =~= seq![it]);
    } else if s.last().z <= it.z {
        assert(pos == s.len());
        assert(s.take(pos).push(it) + s.skip(pos) =~= s.push(it));
    } else {
        assert(pos < s.len());
        let dl = s.drop_last();
        lemma_insert_z_at(dl, it, pos);
        assert((dl.take(pos).push(it) + dl.skip(pos)).push(s.last()) =~= s.take(pos).push(it)
            + s.skip(pos));
    }
}

/// The stable sort, ascending by `z`, of a tick's collected items.
pub fn sort_items_by_z<'a>(items: Vec<&'a DisplayItem>) -> (r: Vec<&'a DisplayItem>)
    ensures
        item_views(r@) == sort_by_z(item_views(items@)),
{
    let ghost iv = item_views(items@);
    let mut out: Vec<&'a DisplayItem> = Vec::new();
    proof {
        assert(iv.take(0) =~= Seq::<DisplayItemV>::empty());
        assert(item_views(out@) =~= sort_by_z(iv.take(0)));
    }
    let mut i: usize = 0;
    while i < items.len()
        invariant
            iv == item_views(items@),
            iv.len() == items@.len(),
            0 <= i <= iv.len(),
            item_views(out@) == sort_by_z(iv.take(i as int)),
            sorted_by_z(item_views(out@)),
        decreases iv.len() - i,
    {
        let it = items[i];
        proof {
            assert(iv[i as int] == items@[i as int]@);
        }
        let ghost ov = item_views(out@);
        let mut pos: usize = out.len();
        loop
            invariant
                ov == item_views(out@),
                ov.len() == out@.len(),
                0 <= pos <= ov.len(),
                forall|k: int| pos <= k < ov.len() ==> (#[trigger] ov[k]).z > it@.z,
            ensures
                0 <= pos <= ov.len(),
                forall|k: int| pos <= k < ov.len() ==> (#[trigger] ov[k]).z > it@.z,
                pos > 0 ==> ov[pos - 1].z <= it@.z,
            decreases pos,
        {
            if pos == 0 {
                break;
            }
            let prev = out[pos - 1];
            proof {
                assert(ov[pos - 1] == out@[pos - 1]@);
            }
            if prev.z <= it.z {
                break;
            }
            pos -= 1;
        }
        proof {
            lemma_insert_z_at(ov, it@, pos as int);
            assert(iv.take(i + 1).drop_last() =~= iv.take(i as int));
            assert(iv.take(i + 1).last() == iv[i as int]);
            assert(item_views(out@.insert(pos as int, it)) =~~= ov.take(pos as int).push(it@)
                + ov.skip(pos as int));
            lemma_insert_z_sorted(ov, it@);
        }
        out.insert(pos, it);
        i += 1;
    }
    proof {
        assert(iv.take(iv.len() as int) =~= iv);
    }
    out
}

/// The sub-beat selection formula: a measure's items are treated as equally
/// spaced frames across the measure, so the item shown at fractional
/// position `num / den` is item `floor(count * num / den)`.
pub open spec fn item_index_of(count: int, num: int, den: int) -> int {
    count * num / den
}

proof fn lemma_item_index_in_range(count: int, num: int, den: int)
    requires
        count > 0,
        den > 0,
        0 <= num < den,
    ensures
        0 <= count * num / den < count,
{
    let q = count * num / den;
    let r = count * num % den;
    lemma_fundamental_div_mod(count * num, den);
    assert(count * num >= 0) by (nonlinear_arith)
        requires
            count > 0,
            num >= 0,
    ;
    if q >= count {
        assert(den * q >= den * count) by (nonlinear_arith)
            requires
                q >= count,
                den > 0,
        ;
        assert(count * num < count * den) by (nonlinear_arith)
            requires
                num < den,
                count > 0,
        ;
        assert(den * count == count * den) by (nonlinear_arith);
        assert(false);
    }
    if q < 0 {
        assert(den * q <= -den) by (nonlinear_arith)
            requires
                q <= -1,
                den > 0,
        ;
        assert(false);
    }
}

pub fn select_item_index(count: usize, num: u64, den: u64) -> (r: usize)
    requires
        count > 0,
        den > 0,
        num < den,
    ensures
        r == item_index_of(count as int, num as int, den as int),
        r < count,
{
    proof {
        lemma_item_index_in_range(count as int, num as int, den as int);
    }
    let cw = count as u128;
    let nw = num as u128;
    proof {
        assert((cw as int) * (nw as int) <= 0xfffffffffffffffe0000000000000001) by (nonlinear_arith)
            requires
                cw as int <= 0xffffffffffffffff,
                nw as int <= 0xffffffffffffffff,
        ;
    }
    let prod = cw * nw;
    let idx = prod / (den as u128);
    idx as usize
}

/// The items active at measure `mi`, fractional position `num / den`: per
/// track in order, the selected item of a non-empty measure at that index;
/// tracks without such a measure contribute nothing.
pub open spec fn selected_items(
    scores: Seq<Seq<Seq<DisplayItemV>>>,
    mi: int,
    num: int,
    den: int,
) -> Seq<DisplayItemV>
    decreases scores.len(),
{
    if scores.len() == 0 {
        Seq::empty()
    } else {
        let prev = selected_items(scores.drop_last(), mi, num, den);
        let sc = scores.last();
        if 0 <= mi < sc.len() && sc[mi].len() > 0 {
            prev + seq![sc[mi][item_index_of(sc[mi].len() as int, num, den)]]
        } else {
            prev
        }
    }
}

/// The largest measure count across all tracks, or nothing when there is no
/// track at all.
pub open spec fn max_len3(ss: Seq<Seq<Seq<DisplayItemV>>>) -> int
    decreases ss.len(),
{
    if ss.len() == 0 {
        0
    } else {
        seq_max(max_len3(ss.drop_last()), ss.last().len() as int)
    }
}

pub fn max_measure_count(scores: &Vec<IndexedScore>) -> (r: Option<usize>)
    ensures
        r is Some <==> scores@.len() > 0,
        r matches Some(m) ==> m == max_len3(score_views(scores@)),
{
    if scores.len() == 0 {
        return None;
    }
    let ghost sv = score_views(scores@);
    let mut best: usize = 0;
    proof {
        assert(sv.take(0) =~= Seq::<Seq<Seq<DisplayItemV>>>::empty());
    }
    let mut i: usize = 0;
    while i < scores.len()
        invariant
            sv == score_views(scores@),
            sv.len() == scores@.len(),
            0 <= i <= sv.len(),
            best == max_len3(sv.take(i as int)),
        decreases sv.len() - i,
    {
        proof {
            assert(sv[i as int] == scores@[i as int]@);
            assert(sv.take(i + 1).drop_last() =~= sv.take(i as int));
            assert(sv.take(i + 1).last() == sv[i as int]);
        }
        let n = scores[i].measures.len();
        if n > best {
            best = n;
        }
        i += 1;
    }
    proof {
        assert(sv.take(sv.len() as int) =~= sv);
    }
    Some(best)
}

/// What one tick yields, as a function of the tracks and the musical
/// position. Playback is finished once the measure index exceeds the largest
/// measure count handed in; a tick that selects no item skips its frame;
/// otherwise the selected items, sorted ascending by stacking order, are
/// composited into the frame text.
pub open spec fn tick_spec(
    scores: Seq<Seq<Seq<DisplayItemV>>>,
    measure_count: int,
    elapsed_num: int,
    measure_den: int,
) -> TickOutcomeV {
    let mi = elapsed_num / measure_den;
    if mi > measure_count {
        TickOutcomeV::Finished
    } else {
        let sel = selected_items(scores, mi, elapsed_num % measure_den, measure_den);
        if sel.len() == 0 {
            TickOutcomeV::Skip
        } else {
            TickOutcomeV::Frame(flatten_spec(sort_by_z(sel)))
        }
    }
}

/// Termination: once the measure index exceeds the maximum measure count,
/// the tick reports playback finished and renders nothing further.
pub proof fn lemma_playback_terminates(
    scores: Seq<Seq<Seq<DisplayItemV>>>,
    measure_count: int,
    elapsed_num: int,
    measure_den: int,
)
    requires
        measure_den > 0,
        elapsed_num / measure_den > measure_count,
    ensures
        tick_spec(scores, measure_count, elapsed_num, measure_den) == TickOutcomeV::Finished,
{
}

pub fn playback_tick(
    scores: &Vec<IndexedScore>,
    measure_count: usize,
    elapsed_num: u64,
    measure_den: u64,
) -> (r: TickOutcome)
    requires
        measure_den > 0,
        all_renderable(score_views(scores@)),
    ensures
        r@ == tick_spec(
            score_views(scores@),
            measure_count as int,
            elapsed_num as int,
            measure_den as int,
        ),
{
    let ghost sv = score_views(scores@);
    let mi64 = elapsed_num / measure_den;
    if mi64 > measure_count as u64 {
        return TickOutcome::Finished;
    }
    let mi = mi64 as usize;
    let num = elapsed_num % measure_den;
    let ghost miv = mi as int;
    let ghost numv = num as int;
    let ghost denv = measure_den as int;
    let mut picked: Vec<&DisplayItem> = Vec::new();
    proof {
        assert(sv.take(0) =~= Seq::<Seq<Seq<DisplayItemV>>>::empty());
        assert(item_views(picked@) =~= selected_items(sv.take(0), miv, numv, denv));
    }
    let mut s: usize = 0;
    while s < scores.len()
        invariant
            sv == score_views(scores@),
            sv.len() == scores@.len(),
            all_renderable(sv),
            0 <= s <= sv.len(),
            miv == mi as int,
            numv == num as int,
            denv == measure_den as int,
            denv > 0,
            0 <= numv < denv,
            item_views(picked@) == selected_items(sv.take(s as int), miv, numv, denv),
            forall|t: int| 0 <= t < picked@.len() ==> renderable((#[trigger] picked@[t])@),
        decreases sv.len() - s,
    {
        proof {
            assert(sv[s as int] == scores@[s as int]@);
            assert(sv.take(s + 1).drop_last() =~= sv.take(s as int));
            assert(sv.take(s + 1).last() == sv[s as int]);
        }
        let sc = &scores[s];
        if mi < sc.measures.len() {
            let m = &sc.measures[mi];
            proof {
                assert(sc@[miv] == sc.measures@[miv]@);
            }
            if m.items.len() > 0 {
                let idx = select_item_index(m.items.len(), num, measure_den);
                let itref = &m.items[idx];
                proof {
                    assert(m@[idx as int] == m.items@[idx as int]@);
                    assert(itref@ == sv[s as int][miv][item_index_of(
                        sv[s as int][miv].len() as int,
                        numv,
                        denv,
                    )]);
                    let ghost prev = item_views(picked@);
                    assert(item_views(picked@.push(itref)) =~~= prev.push(itref@));
                    assert(prev.push(itref@) =~= prev + seq![itref@]);
                    assert(renderable(itref@));
                }
                picked.push(itref);
            }
        }
        s += 1;
    }
    proof {
        assert(sv.take(sv.len() as int) =~= sv);
    }
    if picked.len() == 0 {
        return TickOutcome::Skip;
    }
    let ghost sel = item_views(picked@);
    let sorted = sort_items_by_z(picked);
    proof {
        lemma_sort_by_z_all(sel, |x: DisplayItemV| renderable(x));
        lemma_sort_by_z_props(sel);
        assert(forall|t: int|
            0 <= t < sorted@.len() ==> renderable((#[trigger] sorted@[t])@)) by {
            assert(forall|t: int|
                0 <= t < sorted@.len() ==> item_views(sorted@)[t] == (#[trigger] sorted@[t])@);
        }
    }
    let content = flatten_items(sorted);
    TickOutcome::Frame(content)
}

} // verus!
