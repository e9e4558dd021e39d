//! Reading by path: what a reader shows for a path text — the first value
//! with exactly that path, or else every value below it, in order.
use vstd::prelude::*;
use crate::component::{CompView, NbtComponent};
use crate::edit::chars_equal;
use crate::error::ParseError;
use crate::leaves::lemma_advance_consumes;
use crate::platform::PlatformType;
use crate::reader::{advance, FrameView, Reader};
use crate::select::{below_text, is_descendant_path};
use crate::text::chars_of;
use crate::wire::{reports, Fault};

verus! {

/// What reading by path found.
pub enum ReadOutcome {
    /// The first value whose path text is the one asked.
    Exact(NbtComponent),
    /// No value has that path text; these values lie below it, in order,
    /// each with its path text.
    Below(Vec<(String, NbtComponent)>),
    /// No value has that path text or lies below it.
    NotFound,
}

/// The mathematical form of a [`ReadOutcome`].
pub enum OutcomeView {
    Exact(CompView),
    Below(Seq<(Seq<char>, CompView)>),
    NotFound,
}

/// The values found below, as texts and component views.
pub open spec fn found_view(v: Seq<(String, NbtComponent)>) -> Seq<(Seq<char>, CompView)> {
    Seq::new(v.len(), |i: int| (v[i].0@, v[i].1@))
}

impl View for ReadOutcome {
    type V = OutcomeView;

    open spec fn view(&self) -> OutcomeView {
        match self {
            ReadOutcome::Exact(c) => OutcomeView::Exact(c@),
            ReadOutcome::Below(v) => OutcomeView::Below(found_view(v@)),
            ReadOutcome::NotFound => OutcomeView::NotFound,
        }
    }
}

/// What reading by the path text `target` gives from a reader whose next
/// value is `pending`, with open containers `frames` and input `s`, when
/// `found` are the values below the target met so far: each value is taken
/// as [`Reader::next`] takes it (reading on to the one after); the first
/// whose path text is `target` is the answer; otherwise, at the end, the
/// values below it, or nothing.
pub open spec fn picked(
    p: PlatformType,
    pending: Option<(Seq<char>, CompView)>,
    frames: Seq<FrameView>,
    s: Seq<u8>,
    target: Seq<char>,
    found: Seq<(Seq<char>, CompView)>,
) -> Result<OutcomeView, Fault>
    decreases s.len(), if pending is Some { 1int } else { 0int },
{
    match pending {
        None => Ok(if found.len() > 0 { OutcomeView::Below(found) } else { OutcomeView::NotFound }),
        Some(ev) => match advance(p, frames, s) {
            Err(f) => Err(f),
            Ok((fs, r, ev2)) => if ev.0 == target {
                Ok(OutcomeView::Exact(ev.1))
            } else {
                proof {
                    lemma_advance_consumes(p, frames, s);
                }
                picked(p, ev2, fs, r, target, if below_text(ev.0, target) { found.push(ev) } else { found })
            },
        },
    }
}

/// Reads from `reader` what the path text `path` shows: the first value
/// with exactly that path (reading stops there), or else every value below
/// it, in order, or nothing.
pub fn read_at_path(reader: &mut Reader, path: &str) -> (r: Result<ReadOutcome, ParseError>)
    ensures
        match picked(old(reader).kind(), old(reader).pending(), old(reader).frames(), old(reader).rest(), path@, Seq::empty()) {
            Ok(o) => r matches Ok(x) && x@ == o,
            Err(f) => r matches Err(e) && reports(e, f),
        },
{
    let ghost p = reader.kind();
    let ghost goal = picked(p, reader.pending(), reader.frames(), reader.rest(), path@, Seq::empty());
    let target = chars_of(path);
    let mut below: Vec<(String, NbtComponent)> = Vec::new();
    assert(found_view(below@) =~= Seq::<(Seq<char>, CompView)>::empty());
    loop
        invariant
            reader.kind() == p,
            p == old(reader).kind(),
            target@ == path@,
            goal == picked(p, old(reader).pending(), old(reader).frames(), old(reader).rest(), path@, Seq::empty()),
            goal == picked(p, reader.pending(), reader.frames(), reader.rest(), path@, found_view(below@)),
        decreases reader.rest().len(), if reader.pending() is Some { 1int } else { 0int },
    {
        if !reader.has_next() {
            if below.len() > 0 {
                return Ok(ReadOutcome::Below(below));
            }
            return Ok(ReadOutcome::NotFound);
        }
        proof {
            lemma_advance_consumes(p, reader.frames(), reader.rest());
        }
        let (text, component) = reader.next()?;
        let chars = chars_of(text.as_str());
        if chars_equal(&chars, &target) {
            return Ok(ReadOutcome::Exact(component));
        }
        if is_descendant_path(text.as_str(), path) {
            let ghost before = found_view(below@);
            below.push((text, component));
            assert(found_view(below@) =~= before.push((text@, component@)));
        }
    }
}


/// What reading by path answers: a value whose path text is the target is
/// the answer as soon as it is read; the values listed below the target all
/// lie below it, include those already met, and are never none; nothing is
/// found only when nothing was met below it.
pub proof fn lemma_picked_meaning(
    p: PlatformType,
    pending: Option<(Seq<char>, CompView)>,
    frames: Seq<FrameView>,
    s: Seq<u8>,
    target: Seq<char>,
    found: Seq<(Seq<char>, CompView)>,
)
    requires
        forall|k: int| 0 <= k < found.len() ==> below_text(#[trigger] found[k].0, target),
    ensures
        pending is Some && pending->Some_0.0 == target && advance(p, frames, s) is Ok ==> picked(
            p,
            pending,
            frames,
            s,
            target,
            found,
        ) == Ok::<OutcomeView, Fault>(OutcomeView::Exact(pending->Some_0.1)),
        picked(p, pending, frames, s, target, found) matches Ok(OutcomeView::Below(xs)) ==> xs.len() > 0
            && found.len() <= xs.len() && xs.take(found.len() as int) == found && forall|k: int| 0 <= k < xs.len()
            ==> below_text(#[trigger] xs[k].0, target),
        picked(p, pending, frames, s, target, found) matches Ok(OutcomeView::NotFound) ==> found.len() == 0,
    decreases s.len(), if pending is Some { 1int } else { 0int },
{
    match pending {
        None => {
            assert(found.take(found.len() as int) =~= found);
        },
        Some(ev) => match advance(p, frames, s) {
            Err(_) => {},
            Ok((fs, r, ev2)) => if ev.0 != target {
                lemma_advance_consumes(p, frames, s);
                let f2 = if below_text(ev.0, target) { found.push(ev) } else { found };
                assert forall|k: int| 0 <= k < f2.len() implies below_text(#[trigger] f2[k].0, target) by {
                    if k < found.len() {
                        assert(f2[k] == found[k]);
                    }
                }
                lemma_picked_meaning(p, ev2, fs, r, target, f2);
                if let Ok(OutcomeView::Below(xs)) = picked(p, ev2, fs, r, target, f2) {
                    assert(xs.take(found.len() as int) =~= xs.take(f2.len() as int).take(found.len() as int));
                    assert(f2.take(found.len() as int) =~= found);
                }
            },
        },
    }
}

} // verus!
