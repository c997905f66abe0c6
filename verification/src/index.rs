//! The indexer: a single forward pass over a parsed score that interprets
//! positioning, layering and flip commands as ambient state and resolves
//! every display command into a concrete, render-ready display item.

use vstd::prelude::*;
use crate::assets::{AssetStore, lookup_in};
use crate::score::{Command, DisplayCommand, DisplayCommandV, MeasureCommand, MeasureCommandV, Score};
use crate::text::{join_strings, join_with, lines_of, lines_str, views_of};

verus! {

pub struct IndexedScore {
    pub measures: Vec<DisplayMeasure>,
}

pub struct DisplayMeasure {
    pub items: Vec<DisplayItem>,
}

/// A fully resolved, positioned text fragment: absolute cell offset `(x, y)`,
/// stacking order `z`, and content with any vertical flip already applied and
/// asset references already resolved.
#[derive(Debug, Clone, PartialEq)]
pub struct DisplayItem {
    pub x: i32,
    pub y: i32,
    pub z: i32,
    pub content: String,
}

/// The mathematical form of a display item.
pub struct DisplayItemV {
    pub x: i32,
    pub y: i32,
    pub z: i32,
    pub content: Seq<char>,
}

impl View for DisplayItem {
    type V = DisplayItemV;

    open spec fn view(&self) -> DisplayItemV {
        DisplayItemV { x: self.x, y: self.y, z: self.z, content: self.content@ }
    }
}

impl View for DisplayMeasure {
    type V = Seq<DisplayItemV>;

    open spec fn view(&self) -> Seq<DisplayItemV> {
        self.items@.map_values(|it: DisplayItem| it@)
    }
}

impl View for IndexedScore {
    type V = Seq<Seq<DisplayItemV>>;

    open spec fn view(&self) -> Seq<Seq<DisplayItemV>> {
        self.measures@.map_values(|m: DisplayMeasure| m@)
    }
}

/// The ambient layout state the indexer threads through a score. A command
/// updates it for every display command encountered afterwards — including
/// across measure boundaries — until overridden.
#[derive(Debug, Copy, Clone, PartialEq, Eq, Structural)]
pub struct Ambient {
    pub x: i32,
    pub y: i32,
    pub z: i32,
    pub flip_vertical: bool,
}

pub open spec fn initial_ambient() -> Ambient {
    Ambient { x: 0, y: 0, z: 0, flip_vertical: false }
}

pub open spec fn apply_command(st: Ambient, c: Command) -> Ambient {
    match c {
        Command::MoveTo(x, y) => Ambient { x, y, ..st },
        Command::ZIndex(z) => Ambient { z, ..st },
        Command::FlipVertical(v) => Ambient { flip_vertical: v, ..st },
    }
}

/// The ambient state after one measure's commands, entered in state `st`.
pub open spec fn state_after(st: Ambient, cmds: Seq<MeasureCommandV>) -> Ambient
    decreases cmds.len(),
{
    if cmds.len() == 0 {
        st
    } else {
        let prev = state_after(st, cmds.drop_last());
        match cmds.last() {
            MeasureCommandV::Command(c) => apply_command(prev, c),
            MeasureCommandV::Display(_) => prev,
        }
    }
}

/// What a display command resolves to: the asset's text when the name is
/// known, the name itself as a visible placeholder when it is not, or the
/// inline text.
pub open spec fn resolve_content(
    assets: Seq<(Seq<char>, Seq<char>)>,
    dc: DisplayCommandV,
) -> Seq<char> {
    match dc {
        DisplayCommandV::Data(name) => match lookup_in(assets, name) {
            Some(t) => t,
            None => name,
        },
        DisplayCommandV::Inline(t) => t,
    }
}

/// Vertical flip: the order of the lines is reversed; characters within each
/// line keep their order.
pub open spec fn flip_content(s: Seq<char>) -> Seq<char> {
    join_with(lines_of(s).reverse(), '\n')
}

pub open spec fn item_for(st: Ambient, content: Seq<char>) -> DisplayItemV {
    DisplayItemV {
        x: st.x,
        y: st.y,
        z: st.z,
        content: if st.flip_vertical {
            flip_content(content)
        } else {
            content
        },
    }
}

/// The display items of one measure, entered in ambient state `st`.
pub open spec fn measure_items(
    assets: Seq<(Seq<char>, Seq<char>)>,
    st: Ambient,
    cmds: Seq<MeasureCommandV>,
) -> Seq<DisplayItemV>
    decreases cmds.len(),
{
    if cmds.len() == 0 {
        Seq::empty()
    } else {
        let prev = measure_items(assets, st, cmds.drop_last());
        match cmds.last() {
            MeasureCommandV::Command(_) => prev,
            MeasureCommandV::Display(dc) => prev.push(
                item_for(state_after(st, cmds.drop_last()), resolve_content(assets, dc)),
            ),
        }
    }
}

/// The ambient state after a whole sequence of measures.
pub open spec fn states_through(st: Ambient, ms: Seq<Seq<MeasureCommandV>>) -> Ambient
    decreases ms.len(),
{
    if ms.len() == 0 {
        st
    } else {
        state_after(states_through(st, ms.drop_last()), ms.last())
    }
}

/// One display measure per measure, each resolved in the state the previous
/// measures left behind.
pub open spec fn index_measures(
    assets: Seq<(Seq<char>, Seq<char>)>,
    st: Ambient,
    ms: Seq<Seq<MeasureCommandV>>,
) -> Seq<Seq<DisplayItemV>>
    decreases ms.len(),
{
    if ms.len() == 0 {
        Seq::empty()
    } else {
        index_measures(assets, st, ms.drop_last()).push(
            measure_items(assets, states_through(st, ms.drop_last()), ms.last()),
        )
    }
}

pub proof fn lemma_states_through_append(
    st: Ambient,
    a: Seq<Seq<MeasureCommandV>>,
    b: Seq<Seq<MeasureCommandV>>,
)
    ensures
        states_through(st, a + b) == states_through(states_through(st, a), b),
    decreases b.len(),
{
    if b.len() == 0 {
        assert(a + b =~= a);
    } else {
        assert((a + b).drop_last() =~= a + b.drop_last());
        lemma_states_through_append(st, a, b.drop_last());
    }
}

/// Ambient state carries across measures: indexing the measures from `k` on
/// continues exactly from the state the first `k` measures left behind — a
/// command issued in measure `k` affects the display commands of measures
/// `k`, `k + 1`, … until overridden; nothing is reset at a measure boundary.
pub proof fn lemma_ambient_state_carries(
    assets: Seq<(Seq<char>, Seq<char>)>,
    st: Ambient,
    ms: Seq<Seq<MeasureCommandV>>,
    k: int,
)
    requires
        0 <= k <= ms.len(),
    ensures
        index_measures(assets, st, ms) == index_measures(assets, st, ms.take(k))
            + index_measures(assets, states_through(st, ms.take(k)), ms.skip(k)),
    decreases ms.len(),
{
    if k == ms.len() {
        assert(ms.take(k) =~= ms);
        assert(ms.skip(k) =~= Seq::<Seq<MeasureCommandV>>::empty());
        assert(index_measures(assets, st, ms) =~= index_measures(assets, st, ms)
            + index_measures(assets, states_through(st, ms), ms.skip(k)));
    } else {
        let dl = ms.drop_last();
        lemma_ambient_state_carries(assets, st, dl, k);
        assert(dl.take(k) =~= ms.take(k));
        let st2 = states_through(st, ms.take(k));
        assert(ms.skip(k).drop_last() =~= dl.skip(k));
        assert(ms.skip(k).last() == ms.last());
        assert(dl =~= dl.take(k) + dl.skip(k));
        lemma_states_through_append(st, dl.take(k), dl.skip(k));
        assert(states_through(st2, dl.skip(k)) == states_through(st, dl));
        assert(index_measures(assets, st2, ms.skip(k)) == index_measures(assets, st2, dl.skip(k))
            .push(measure_items(assets, states_through(st, dl), ms.last())));
        assert(index_measures(assets, st, ms.take(k)) + index_measures(assets, st2, ms.skip(k))
            =~= (index_measures(assets, st, ms.take(k)) + index_measures(assets, st2, dl.skip(k)))
            .push(measure_items(assets, states_through(st, dl), ms.last())));
    }
}

/// Vertical line reversal of a text block, as the indexer applies it when
/// flipping is on.
pub fn flip_string_vert(content: String) -> (r: String)
    ensures
        r@ == flip_content(content@),
{
    let lines = lines_str(content.as_str());
    let ghost lsv = lines_of(content@);
    let mut rev: Vec<String> = Vec::new();
    let mut k: usize = lines.len();
    proof {
        assert(views_of(lines@) == lsv);
        assert(lsv.skip(k as int) =~= Seq::<Seq<char>>::empty());
        assert(views_of(rev@) =~= lsv.skip(k as int).reverse());
    }
    while k > 0
        invariant
            views_of(lines@) == lsv,
            lines@.len() == lsv.len(),
            0 <= k <= lsv.len(),
            views_of(rev@) == lsv.skip(k as int).reverse(),
        decreases k,
    {
        k -= 1;
        let line = lines[k].clone();
        proof {
            let ghost prev = views_of(rev@);
            assert(views_of(rev@.push(line)) =~~= prev.push(line@));
            assert(lsv.skip(k as int) =~= seq![lsv[k as int]] + lsv.skip(k + 1));
            assert(lsv.skip(k as int).reverse() =~= lsv.skip(k + 1).reverse().push(
                lsv[k as int],
            ));
        }
        rev.push(line);
    }
    proof {
        assert(lsv.skip(0) =~= lsv);
    }
    join_strings(&rev, '\n')
}

impl IndexedScore {
    /// One forward pass: commands update the ambient state, display commands
    /// emit an item carrying the current state. The result has exactly one
    /// display measure per measure of the score.
    pub fn from_score(assets: &AssetStore, score: &Score) -> (r: IndexedScore)
        ensures
            r@ == index_measures(assets@, initial_ambient(), score@),
            r.measures@.len() == score.measures@.len(),
    {
        let ghost sv = score@;
        let mut st = Ambient { x: 0, y: 0, z: 0, flip_vertical: false };
        let mut measures: Vec<DisplayMeasure> = Vec::new();
        proof {
            assert(sv.take(0) =~= Seq::<Seq<MeasureCommandV>>::empty());
            assert(measures@.map_values(|m: DisplayMeasure| m@) =~= Seq::<
                Seq<DisplayItemV>,
            >::empty());
        }
        let mut i: usize = 0;
        while i < score.measures.len()
            invariant
                sv == score@,
                sv.len() == score.measures@.len(),
                0 <= i <= sv.len(),
                measures@.len() == i,
                measures@.map_values(|m: DisplayMeasure| m@) == index_measures(
                    assets@,
                    initial_ambient(),
                    sv.take(i as int),
                ),
                st == states_through(initial_ambient(), sv.take(i as int)),
            decreases sv.len() - i,
        {
            let measure = &score.measures[i];
            let ghost cmds = sv[i as int];
            proof {
                assert(sv[i as int] == score.measures@[i as int]@);
            }
            let ghost st_entry = st;
            let mut items: Vec<DisplayItem> = Vec::new();
            proof {
                assert(cmds.take(0) =~= Seq::<MeasureCommandV>::empty());
                assert(items@.map_values(|it: DisplayItem| it@) =~= Seq::<DisplayItemV>::empty());
            }
            let mut j: usize = 0;
            while j < measure.commands.len()
                invariant
                    cmds == measure@,
                    cmds.len() == measure.commands@.len(),
                    0 <= j <= cmds.len(),
                    items@.map_values(|it: DisplayItem| it@) == measure_items(
                        assets@,
                        st_entry,
                        cmds.take(j as int),
                    ),
                    st == state_after(st_entry, cmds.take(j as int)),
                decreases cmds.len() - j,
            {
                proof {
                    assert(cmds[j as int] == measure.commands@[j as int]@);
                    assert(cmds.take(j + 1).drop_last() =~= cmds.take(j as int));
                    assert(cmds.take(j + 1).last() == cmds[j as int]);
                }
                match &measure.commands[j] {
                    MeasureCommand::Command(c) => {
                        match *c {
                            Command::MoveTo(x, y) => {
                                st.x = x;
                                st.y = y;
                            },
                            Command::ZIndex(z) => {
                                st.z = z;
                            },
                            Command::FlipVertical(v) => {
                                st.flip_vertical = v;
                            },
                        }
                    },
                    MeasureCommand::DisplayCommand(dc) => {
                        let content: String = match dc {
                            DisplayCommand::DataDisplayCommand(name) => {
                                match assets.lookup(name.as_str()) {
                                    Some(t) => t,
                                    None => name.clone(),
                                }
                            },
                            DisplayCommand::InlineDisplayCommand(data) => data.clone(),
                        };
                        let content = if st.flip_vertical {
                            flip_string_vert(content)
                        } else {
                            content
                        };
                        let it = DisplayItem { x: st.x, y: st.y, z: st.z, content };
                        proof {
                            let ghost prev = items@.map_values(|it: DisplayItem| it@);
                            assert(items@.push(it).map_values(|it: DisplayItem| it@) =~~= prev.push(
                                it@,
                            ));
                        }
                        items.push(it);
                    },
                }
                j += 1;
            }
            proof {
                assert(cmds.take(cmds.len() as int) =~= cmds);
                assert(sv.take(i + 1).drop_last() =~= sv.take(i as int));
                assert(sv.take(i + 1).last() == sv[i as int]);
            }
            let dm = DisplayMeasure { items };
            proof {
                let ghost prev = measures@.map_values(|m: DisplayMeasure| m@);
                assert(measures@.push(dm).map_values(|m: DisplayMeasure| m@) =~~= prev.push(dm@));
            }
            measures.push(dm);
            i += 1;
        }
        proof {
            assert(sv.take(sv.len() as int) =~= sv);
        }
        IndexedScore { measures }
    }
}

} // verus!
