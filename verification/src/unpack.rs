//! Unpacking an archive into a directory.
//!
//! The entries are unpacked one after the other. Here stands what is done
//! after each step, and where in the directory an entry goes.

use crate::archive::Archive;
use crate::error::TarError;
use vstd::prelude::*;

verus! {

/// Why an archive was not unpacked.
#[derive(Clone, Copy, Debug, PartialEq, Eq, Structural)]
pub enum UnpackError {
    /// The entries of the archive could not be asked for.
    Entries(TarError),
    /// The next entry could not be found.
    Iterate(TarError),
    /// An entry could not be unpacked.
    Entry,
}

impl UnpackError {
    /// The text that describes the error.
    pub open spec fn text(self) -> Seq<char> {
        match self {
            UnpackError::Entries(e) => e.text(),
            UnpackError::Iterate(_) => "failed to iterate over archive"@,
            UnpackError::Entry => "failed to unpack entry"@,
        }
    }

    /// Describes the error.
    pub fn message(&self) -> (text: &'static str)
        ensures
            text@ == self.text(),
    {
        match self {
            UnpackError::Entries(e) => e.message(),
            UnpackError::Iterate(_) => "failed to iterate over archive",
            UnpackError::Entry => "failed to unpack entry",
        }
    }
}

/// What has come of the step before.
pub enum UnpackEvent<'a> {
    /// The entries of the archive were asked for.
    Opened(Result<(), TarError>),
    /// The next entry was asked for; it has this path.
    Next(Option<Result<&'a [u8], TarError>>),
    /// An entry was unpacked, or could not be.
    Unpacked(bool),
}

/// What is to be done next.
pub enum UnpackStep {
    /// Ask for the next entry.
    NextEntry,
    /// Unpack the entry to the place below the directory that these names
    /// lead to.
    UnpackEntry(Vec<Vec<u8>>),
    /// Stop.
    Finish(Result<(), UnpackError>),
}

/// What has come of the step before, as sequences.
#[verifier::ext_equal]
pub ghost enum EventView {
    Opened(Result<(), TarError>),
    Next(Option<Result<Seq<u8>, TarError>>),
    Unpacked(bool),
}

/// What is to be done next, as sequences.
#[verifier::ext_equal]
pub ghost enum StepView {
    NextEntry,
    UnpackEntry(Seq<Seq<u8>>),
    Finish(Result<(), UnpackError>),
}

impl<'a> View for UnpackEvent<'a> {
    type V = EventView;

    open spec fn view(&self) -> EventView {
        match *self {
            UnpackEvent::Opened(r) => EventView::Opened(r),
            UnpackEvent::Next(None) => EventView::Next(None),
            UnpackEvent::Next(Some(Ok(path))) => EventView::Next(Some(Ok(path@))),
            UnpackEvent::Next(Some(Err(e))) => EventView::Next(Some(Err(e))),
            UnpackEvent::Unpacked(done) => EventView::Unpacked(done),
        }
    }
}

impl View for UnpackStep {
    type V = StepView;

    open spec fn view(&self) -> StepView {
        match *self {
            UnpackStep::NextEntry => StepView::NextEntry,
            UnpackStep::UnpackEntry(names) => StepView::UnpackEntry(names_view(names@)),
            UnpackStep::Finish(r) => StepView::Finish(r),
        }
    }
}

/// The byte between the names in a path.
pub const SLASH: u8 = 0x2f;

/// The parts of a path between its slashes.
pub open spec fn parts(path: Seq<u8>) -> Seq<Seq<u8>>
    decreases path.len(),
{
    if path.len() == 0 {
        seq![Seq::empty()]
    } else {
        let init = parts(path.drop_last());
        if path.last() == SLASH {
            init.push(Seq::empty())
        } else {
            init.drop_last().push(init.last().push(path.last()))
        }
    }
}

/// The part that stands for the directory itself.
pub open spec fn here() -> Seq<u8> {
    seq![0x2eu8]
}

/// The part that stands for the directory above.
pub open spec fn above() -> Seq<u8> {
    seq![0x2eu8, 0x2eu8]
}

/// `true` for a part that names something in a directory.
pub open spec fn is_name(part: Seq<u8>) -> bool {
    part.len() > 0 && part != here()
}

/// Where below a directory an entry with this path goes: nowhere if the path
/// leads upwards anywhere, else where its names lead to.
pub open spec fn place(path: Seq<u8>) -> Option<Seq<Seq<u8>>> {
    if parts(path).contains(above()) {
        None
    } else {
        Some(parts(path).filter(|part: Seq<u8>| is_name(part)))
    }
}

/// The contents of some names.
pub open spec fn names_view(names: Seq<Vec<u8>>) -> Seq<Seq<u8>> {
    names.map_values(|name: Vec<u8>| name@)
}

proof fn lemma_parts_nonempty(path: Seq<u8>)
    ensures
        parts(path).len() > 0,
    decreases path.len(),
{
    if path.len() > 0 {
        lemma_parts_nonempty(path.drop_last());
    }
}

/// Once a part is followed by a slash, it stays as it is.
proof fn lemma_parts_stay(path: Seq<u8>, i: int, j: int)
    requires
        0 <= i <= path.len(),
        0 <= j < parts(path.take(i)).len() - 1,
    ensures
        j < parts(path).len() - 1,
        parts(path)[j] == parts(path.take(i))[j],
    decreases path.len() - i,
{
    if i < path.len() {
        assert(path.take(i + 1).drop_last() =~= path.take(i));
        lemma_parts_nonempty(path.take(i));
        lemma_parts_stay(path, i + 1, j);
    } else {
        assert(path.take(i) =~= path);
    }
}

fn is_here(part: &Vec<u8>) -> (yes: bool)
    ensures
        yes == (part@ == here()),
{
    let yes: bool = part.len() == 1 && part[0] == 0x2e;
    assert(yes ==> part@ =~= here());
    assert(part@ == here() ==> here()[0] == 0x2e && part@.len() == 1);
    yes
}

fn is_above(part: &Vec<u8>) -> (yes: bool)
    ensures
        yes == (part@ == above()),
{
    let yes: bool = part.len() == 2 && part[0] == 0x2e && part[1] == 0x2e;
    assert(yes ==> part@ =~= above());
    assert(part@ == above() ==> above()[0] == 0x2e && above()[1] == 0x2e && part@.len() == 2);
    yes
}

/// Finds where below a directory an entry with this path goes.
pub fn place_of(path: &[u8]) -> (names: Option<Vec<Vec<u8>>>)
    ensures
        match names {
            Some(names) => place(path@) == Some(names_view(names@)),
            None => place(path@) is None,
        },
        names matches Some(names) ==> {
            &&& place(path@) matches Some(place) && place.len() == names.len()
            &&& forall|i: int| 0 <= i < names.len() ==> place(path@).unwrap()[i] == (
            #[trigger] names[i])@
        },
{
    let ghost pred = |part: Seq<u8>| is_name(part);
    let mut names: Vec<Vec<u8>> = Vec::new();
    let mut part: Vec<u8> = Vec::new();
    let ghost mut done: Seq<Seq<u8>> = Seq::empty();
    let mut i: usize = 0;
    proof {
        reveal(Seq::filter);
        assert(path@.take(0) =~= Seq::<u8>::empty());
        assert(names_view(names@) =~= done.filter(pred));
        assert(done.push(part@) =~= parts(path@.take(0)));
    }
    loop
        invariant
            i <= path.len(),
            pred == (|part: Seq<u8>| is_name(part)),
            parts(path@.take(i as int)) == done.push(part@),
            names_view(names@) == done.filter(pred),
            !done.contains(above()),
        decreases path.len() - i,
    {
        let ended: bool = i == path.len();
        if ended || path[i] == SLASH {
            let ghost more = done.push(part@);
            if is_above(&part) {
                proof {
                    if ended {
                        assert(path@.take(i as int) =~= path@);
                        assert(parts(path@)[done.len() as int] == above());
                    } else {
                        assert(path@.take(i + 1).drop_last() =~= path@.take(i as int));
                        lemma_parts_stay(path@, i + 1, done.len() as int);
                        assert(parts(path@)[done.len() as int] == above());
                    }
                }
                return None;
            }
            proof {
                reveal(Seq::filter);
                assert(more.drop_last() =~= done);
                assert forall|x: int| 0 <= x < more.len() implies more[x] != above() by {
                    if x < done.len() {
                        assert(done.contains(done[x]));
                    }
                }
            }
            if part.len() > 0 && !is_here(&part) {
                let ghost before = names@;
                let ghost name = part@;
                names.push(part);
                assert(names_view(names@) =~= names_view(before).push(name));
            }
            if ended {
                assert(path@.take(i as int) =~= path@);
                return Some(names);
            }
            part = Vec::new();
            proof {
                assert(path@.take(i + 1).drop_last() =~= path@.take(i as int));
                assert(part@ =~= Seq::<u8>::empty());
                done = more;
            }
        } else {
            let ghost before = part@;
            part.push(path[i]);
            proof {
                assert(path@.take(i + 1).drop_last() =~= path@.take(i as int));
                assert(done.push(before).drop_last() =~= done);
            }
        }
        i += 1;
    }
}

/// The place of an entry never leads out of the directory: each of its names is
/// the name of something in a directory.
pub proof fn law_place_stays_inside(path: Seq<u8>)
    ensures
        place(path) matches Some(names) ==> forall|i: int|
            0 <= i < names.len() ==> {
                &&& is_name(#[trigger] names[i])
                &&& names[i] != above()
                &&& !names[i].contains(SLASH)
            },
{
    if place(path) is Some {
        let pred = |part: Seq<u8>| is_name(part);
        let names = parts(path).filter(pred);
        assert forall|i: int| 0 <= i < names.len() implies is_name(#[trigger] names[i])
            && names[i] != above() && !names[i].contains(SLASH) by {
            parts(path).lemma_filter_pred(pred, i);
            assert(names.contains(names[i]));
            parts(path).lemma_filter_contains_rev(pred, names[i]);
            lemma_parts_hold_no_slash(path);
        }
    }
}

proof fn lemma_parts_hold_no_slash(path: Seq<u8>)
    ensures
        forall|i: int| 0 <= i < parts(path).len() ==> !(#[trigger] parts(path)[i]).contains(SLASH),
    decreases path.len(),
{
    if path.len() > 0 {
        lemma_parts_hold_no_slash(path.drop_last());
        lemma_parts_nonempty(path.drop_last());
        let init = parts(path.drop_last());
        if path.last() != SLASH {
            let more = init.last().push(path.last());
            assert forall|k: int| 0 <= k < more.len() implies more[k] != SLASH by {
                if k < init.last().len() {
                    assert(init.last().contains(init.last()[k]));
                    assert(!init[init.len() - 1].contains(SLASH));
                }
            }
        }
    }
}

/// The path that is made of some parts, with a slash between each two.
pub open spec fn joined(ps: Seq<Seq<u8>>) -> Seq<u8>
    decreases ps.len(),
{
    if ps.len() == 0 {
        Seq::empty()
    } else if ps.len() == 1 {
        ps[0]
    } else {
        joined(ps.drop_last()) + seq![0x2fu8] + ps.last()
    }
}

/// Every path is made of parts without slashes.
pub proof fn law_every_path_is_joined(path: Seq<u8>)
    ensures
        joined(parts(path)) == path,
        parts(path).len() > 0,
        forall|i: int| 0 <= i < parts(path).len() ==> !(#[trigger] parts(path)[i]).contains(0x2fu8),
    decreases path.len(),
{
    lemma_parts_nonempty(path);
    lemma_parts_hold_no_slash(path);
    if path.len() > 0 {
        let less = path.drop_last();
        let init = parts(less);
        law_every_path_is_joined(less);
        assert(path =~= less.push(path.last()));
        if path.last() == SLASH {
            assert(init.push(Seq::empty()).drop_last() =~= init);
            assert(joined(parts(path)) =~= path);
        } else {
            let all = parts(path);
            assert(all.drop_last() =~= init.drop_last());
            assert(joined(all) =~= path);
        }
    }
}

proof fn lemma_parts_of_one(part: Seq<u8>)
    requires
        !part.contains(0x2fu8),
    ensures
        parts(part) == seq![part],
    decreases part.len(),
{
    if part.len() > 0 {
        let less = part.drop_last();
        assert forall|i: int| 0 <= i < less.len() implies #[trigger] less[i] != 0x2fu8 by {
            assert(part[i] == less[i]);
        }
        assert(part[part.len() - 1] != 0x2fu8);
        lemma_parts_of_one(less);
        assert(less.push(part.last()) =~= part);
        assert(parts(part) =~= seq![part]);
    } else {
        assert(part =~= Seq::<u8>::empty());
        assert(parts(part) =~= seq![part]);
    }
}

proof fn lemma_parts_of_more(path: Seq<u8>, part: Seq<u8>)
    requires
        !part.contains(0x2fu8),
    ensures
        parts(path + seq![0x2fu8] + part) == parts(path).push(part),
    decreases part.len(),
{
    let all = path + seq![0x2fu8] + part;
    if part.len() > 0 {
        let less = part.drop_last();
        assert forall|i: int| 0 <= i < less.len() implies #[trigger] less[i] != 0x2fu8 by {
            assert(part[i] == less[i]);
        }
        assert(part[part.len() - 1] != 0x2fu8);
        lemma_parts_of_more(path, less);
        assert(all.drop_last() =~= path + seq![0x2fu8] + less);
        assert(less.push(part.last()) =~= part);
        assert(parts(all) =~= parts(path).push(part));
    } else {
        assert(part =~= Seq::<u8>::empty());
        assert(all.drop_last() =~= path);
        assert(parts(all) =~= parts(path).push(part));
    }
}

proof fn lemma_parts_of_joined(ps: Seq<Seq<u8>>)
    requires
        ps.len() > 0,
        forall|i: int| 0 <= i < ps.len() ==> !(#[trigger] ps[i]).contains(0x2fu8),
    ensures
        parts(joined(ps)) == ps,
    decreases ps.len(),
{
    if ps.len() == 1 {
        lemma_parts_of_one(ps[0]);
        assert(ps =~= seq![ps[0]]);
    } else {
        let less = ps.drop_last();
        assert forall|i: int| 0 <= i < less.len() implies !(#[trigger] less[i]).contains(
            0x2fu8,
        ) by {
            assert(less[i] == ps[i]);
        }
        assert(!ps[ps.len() - 1].contains(0x2fu8));
        lemma_parts_of_joined(less);
        lemma_parts_of_more(joined(less), ps.last());
        assert(less.push(ps.last()) =~= ps);
    }
}

/// An entry goes where its path says: to the parts of the path between its
/// slashes, in their order, but for those that are empty or a single dot. If
/// one of them is two dots, and only then, the entry is passed over.
pub proof fn law_path_names_the_place(ps: Seq<Seq<u8>>)
    requires
        ps.len() > 0,
        forall|i: int| 0 <= i < ps.len() ==> !(#[trigger] ps[i]).contains(0x2fu8),
    ensures
        ({
            let upwards = exists|i: int| 0 <= i < ps.len() && #[trigger] ps[i] == seq![0x2eu8, 0x2eu8];
            let names = ps.filter(|p: Seq<u8>| p.len() > 0 && p != seq![0x2eu8]);
            let step = next_step(EventView::Next(Some(Ok(joined(ps)))));
            if upwards {
                place(joined(ps)) is None && step == StepView::NextEntry
            } else {
                place(joined(ps)) == Some(names) && step == StepView::UnpackEntry(names)
            }
        }),
{
    lemma_parts_of_joined(ps);
    let pred = |p: Seq<u8>| p.len() > 0 && p != seq![0x2eu8];
    assert(pred =~= (|part: Seq<u8>| is_name(part)));
    assert(above() == seq![0x2eu8, 0x2eu8]);
    if exists|i: int| 0 <= i < ps.len() && #[trigger] ps[i] == seq![0x2eu8, 0x2eu8] {
        let i = choose|i: int| 0 <= i < ps.len() && #[trigger] ps[i] == seq![0x2eu8, 0x2eu8];
        assert(ps.contains(ps[i]));
    }
}

/// The place of names that are joined with slashes is these names, whichever
/// they are: with dots in front, in the middle or behind, and of any length.
pub proof fn law_names_are_their_place(names: Seq<Seq<u8>>)
    requires
        forall|i: int|
            0 <= i < names.len() ==> {
                &&& (#[trigger] names[i]).len() > 0
                &&& names[i] != seq![0x2eu8]
                &&& names[i] != seq![0x2eu8, 0x2eu8]
                &&& !names[i].contains(0x2fu8)
            },
    ensures
        place(joined(names)) == Some(names),
        next_step(EventView::Next(Some(Ok(joined(names))))) == StepView::UnpackEntry(names),
{
    let pred = |p: Seq<u8>| p.len() > 0 && p != seq![0x2eu8];
    if names.len() > 0 {
        law_path_names_the_place(names);
        lemma_filter_keeps_all(names, pred);
    } else {
        let empty = Seq::<u8>::empty();
        let ps = seq![empty];
        assert(joined(ps) == empty);
        assert(ps[0] != seq![0x2eu8, 0x2eu8]) by {
            assert(seq![0x2eu8, 0x2eu8].len() == 2);
        }
        law_path_names_the_place(ps);
        reveal(Seq::filter);
        assert(ps.drop_last() =~= names);
        lemma_filter_keeps_all(names, pred);
        assert(!pred(ps.last()));
        assert(ps.filter(pred) == names);
    }
}

proof fn lemma_filter_keeps_all(ps: Seq<Seq<u8>>, pred: spec_fn(Seq<u8>) -> bool)
    requires
        forall|i: int| 0 <= i < ps.len() ==> pred(#[trigger] ps[i]),
    ensures
        ps.filter(pred) == ps,
    decreases ps.len(),
{
    reveal(Seq::filter);
    if ps.len() > 0 {
        let less = ps.drop_last();
        assert forall|i: int| 0 <= i < less.len() implies pred(#[trigger] less[i]) by {
            assert(less[i] == ps[i]);
        }
        lemma_filter_keeps_all(less, pred);
        assert(pred(ps[ps.len() - 1]));
        assert(less.push(ps.last()) =~= ps);
    } else {
        assert(ps.filter(pred) =~= ps);
    }
}

/// What is done next when an archive is unpacked: an error ends the work, and so
/// does the end of the archive; an entry that has no place is passed over.
pub open spec fn next_step(event: EventView) -> StepView {
    match event {
        EventView::Opened(Ok(())) => StepView::NextEntry,
        EventView::Opened(Err(e)) => StepView::Finish(Err(UnpackError::Entries(e))),
        EventView::Next(None) => StepView::Finish(Ok(())),
        EventView::Next(Some(Err(e))) => StepView::Finish(Err(UnpackError::Iterate(e))),
        EventView::Next(Some(Ok(path))) => match place(path) {
            None => StepView::NextEntry,
            Some(names) => StepView::UnpackEntry(names),
        },
        EventView::Unpacked(true) => StepView::NextEntry,
        EventView::Unpacked(false) => StepView::Finish(Err(UnpackError::Entry)),
    }
}

impl<R> Archive<R> {
    /// Decides what is done next when the archive is unpacked.
    ///
    /// Every entry is unpacked in turn to the place that its path names, below
    /// the directory. An entry with a `..` in its path is passed over.
    pub fn unpack(event: UnpackEvent) -> (step: UnpackStep)
        ensures
            step@ == next_step(event@),
            match (event, step) {
                (UnpackEvent::Next(Some(Ok(path))), UnpackStep::UnpackEntry(names)) => {
                    &&& place(path@) matches Some(place) && place.len() == names.len()
                    &&& forall|i: int| 0 <= i < names.len() ==> place(path@).unwrap()[i] == (
                    #[trigger] names[i])@
                },
                (UnpackEvent::Next(Some(Ok(path))), UnpackStep::NextEntry) => place(
                    path@,
                ) is None,
                (UnpackEvent::Next(Some(Err(e))), UnpackStep::Finish(r)) => r == Err::<
                    (),
                    UnpackError,
                >(UnpackError::Iterate(e)),
                (UnpackEvent::Next(None), UnpackStep::Finish(r)) => r is Ok,
                (UnpackEvent::Opened(Err(e)), UnpackStep::Finish(r)) => r == Err::<
                    (),
                    UnpackError,
                >(UnpackError::Entries(e)),
                (UnpackEvent::Unpacked(false), UnpackStep::Finish(r)) => r == Err::<
                    (),
                    UnpackError,
                >(UnpackError::Entry),
                (UnpackEvent::Opened(Ok(())), UnpackStep::NextEntry) => true,
                (UnpackEvent::Unpacked(true), UnpackStep::NextEntry) => true,
                _ => false,
            },
    {
        match event {
            UnpackEvent::Opened(Ok(())) => UnpackStep::NextEntry,
            UnpackEvent::Opened(Err(e)) => UnpackStep::Finish(Err(UnpackError::Entries(e))),
            UnpackEvent::Next(None) => UnpackStep::Finish(Ok(())),
            UnpackEvent::Next(Some(Err(e))) => UnpackStep::Finish(Err(UnpackError::Iterate(e))),
            UnpackEvent::Next(Some(Ok(path))) => match place_of(path) {
                Some(names) => UnpackStep::UnpackEntry(names),
                None => UnpackStep::NextEntry,
            },
            UnpackEvent::Unpacked(done) => if done {
                UnpackStep::NextEntry
            } else {
                UnpackStep::Finish(Err(UnpackError::Entry))
            },
        }
    }
}

/// What the iteration hands out: an entry with this path, which can be unpacked
/// or not, or an error.
#[verifier::ext_equal]
pub ghost struct Item {
    pub path: Result<Seq<u8>, TarError>,
    pub unpacks: bool,
}

/// The places to which entries are unpacked, and what unpacking them comes to,
/// if the iteration hands out these items and then ends.
pub open spec fn unpacked(items: Seq<Item>) -> (Seq<Seq<Seq<u8>>>, Result<(), UnpackError>)
    decreases items.len(),
{
    if items.len() == 0 {
        match next_step(EventView::Next(None)) {
            StepView::Finish(r) => (Seq::empty(), r),
            _ => (Seq::empty(), Ok(())),
        }
    } else {
        let rest = unpacked(items.skip(1));
        match next_step(EventView::Next(Some(items[0].path))) {
            StepView::Finish(r) => (Seq::empty(), r),
            StepView::NextEntry => rest,
            StepView::UnpackEntry(names) => match next_step(
                EventView::Unpacked(items[0].unpacks),
            ) {
                StepView::Finish(r) => (seq![names], r),
                _ => (seq![names] + rest.0, rest.1),
            },
        }
    }
}

/// The places of all the entries that have one, in their order.
pub open spec fn places(items: Seq<Item>) -> Seq<Seq<Seq<u8>>>
    decreases items.len(),
{
    if items.len() == 0 {
        Seq::empty()
    } else {
        match items[0].path {
            Ok(path) => match place(path) {
                Some(names) => seq![names] + places(items.skip(1)),
                None => places(items.skip(1)),
            },
            Err(_) => places(items.skip(1)),
        }
    }
}

/// `true` for an item that does not stop the work.
pub open spec fn goes_well(item: Item) -> bool {
    match item.path {
        Ok(path) => place(path) is Some ==> item.unpacks,
        Err(_) => false,
    }
}

/// Unpacking succeeds exactly if no item is an error and every entry that has a
/// place can be unpacked; each of those is then unpacked, in turn.
pub proof fn law_unpack_takes_every_entry(items: Seq<Item>)
    ensures
        unpacked(items).1 is Ok <==> forall|i: int|
            0 <= i < items.len() ==> goes_well(#[trigger] items[i]),
        unpacked(items).1 is Ok ==> unpacked(items).0 == places(items),
    decreases items.len(),
{
    if items.len() > 0 {
        let rest = items.skip(1);
        law_unpack_takes_every_entry(rest);
        assert forall|i: int| 0 <= i < rest.len() implies rest[i] == #[trigger] items[i + 1] by {}
        if goes_well(items[0]) && unpacked(rest).1 is Ok {
            assert forall|i: int| 0 <= i < items.len() implies goes_well(#[trigger] items[i]) by {
                if i > 0 {
                    assert(goes_well(rest[i - 1]));
                }
            }
        }
        if forall|i: int| 0 <= i < items.len() ==> goes_well(#[trigger] items[i]) {
            assert(goes_well(items[0]));
            assert forall|i: int| 0 <= i < rest.len() implies goes_well(#[trigger] rest[i]) by {
                assert(goes_well(items[i + 1]));
            }
        }
    }
}

/// The work stops at the first item that is an error or cannot be unpacked, and
/// says which of the two it was; the entries before it were unpacked.
pub proof fn law_unpack_stops_at_the_first_failure(items: Seq<Item>, i: int)
    requires
        0 <= i < items.len(),
        forall|j: int| 0 <= j < i ==> goes_well(#[trigger] items[j]),
        !goes_well(items[i]),
    ensures
        unpacked(items).1 == match items[i].path {
            Err(e) => Err::<(), UnpackError>(UnpackError::Iterate(e)),
            Ok(_) => Err::<(), UnpackError>(UnpackError::Entry),
        },
        unpacked(items).0 == places(items.take(i + 1)),
    decreases items.len(),
{
    let rest = items.skip(1);
    let upto = items.take(i + 1);
    if i > 0 {
        assert(goes_well(items[0]));
        assert forall|j: int| 0 <= j < i - 1 implies goes_well(#[trigger] rest[j]) by {
            assert(goes_well(items[j + 1]));
        }
        assert(rest[i - 1] == items[i]);
        law_unpack_stops_at_the_first_failure(rest, i - 1);
        assert(upto.skip(1) =~= rest.take(i));
        assert(upto[0] == items[0]);
    } else {
        assert(upto.skip(1) =~= Seq::<Item>::empty());
        assert(upto[0] == items[0]);
        assert(places(upto.skip(1)) =~= Seq::empty());
        assert(unpacked(items).0 =~= places(upto));
    }
}

/// Whatever the iteration hands out, nothing is unpacked outside the directory.
pub proof fn law_unpack_stays_inside(items: Seq<Item>)
    ensures
        forall|i: int, j: int|
            0 <= i < unpacked(items).0.len() && 0 <= j < unpacked(items).0[i].len() ==> {
                &&& is_name(#[trigger] unpacked(items).0[i][j])
                &&& unpacked(items).0[i][j] != above()
                &&& !unpacked(items).0[i][j].contains(SLASH)
            },
    decreases items.len(),
{
    if items.len() > 0 {
        let rest = unpacked(items.skip(1)).0;
        let all = unpacked(items).0;
        law_unpack_stays_inside(items.skip(1));
        if let Ok(path) = items[0].path {
            law_place_stays_inside(path);
        }
        assert forall|i: int, j: int| 0 <= i < all.len() && 0 <= j < all[i].len() implies is_name(
            #[trigger] all[i][j],
        ) && all[i][j] != above() && !all[i][j].contains(SLASH) by {
            if next_step(EventView::Next(Some(items[0].path))) is UnpackEntry {
                if i > 0 {
                    assert(all[i] == rest[i - 1]);
                    assert(is_name(rest[i - 1][j]));
                }
            } else {
                assert(all == rest || all.len() == 0);
                assert(is_name(rest[i][j]));
            }
        }
    }
}

} // verus!
