//! The setup tree store and its synchronizer: a `track -> car -> setups`
//! index kept sorted and free of empty buckets while filesystem events
//! arrive, together with the structural diff events each change emits.

use vstd::prelude::*;

verus! {

use core::cmp::Ordering;
use crate::config::DictConfig;
use crate::parser::{Error, Setup, SetupV};
use crate::str_ext::spec_human_compare;
use crate::text::{spec_file_stem, spec_is_html_name, file_stem, is_html};

/// `a` sorts at or before `b` in the human order.
pub open spec fn name_le(a: Seq<char>, b: Seq<char>) -> bool {
    spec_human_compare(a, b) != Ordering::Greater
}

/// One parsed setup export in the tree.
pub struct SetupInfo {
    /// The parsed setup data.
    setup: Setup,
    /// The display name: the file stem of the export.
    name: String,
    /// The canonical path the export was read from; the identity that
    /// filesystem events match against.
    path: String,
}

/// Ghost image of a [`SetupInfo`].
#[verifier::ext_equal]
pub ghost struct SetupInfoV {
    pub setup: SetupV,
    pub name: Seq<char>,
    pub path: Seq<char>,
}

impl View for SetupInfo {
    type V = SetupInfoV;

    closed spec fn view(&self) -> SetupInfoV {
        SetupInfoV { setup: self.setup@, name: self.name@, path: self.path@ }
    }
}

impl DeepView for SetupInfo {
    type V = SetupInfoV;

    open spec fn deep_view(&self) -> SetupInfoV {
        self.view()
    }
}

impl SetupInfo {
    /// Create a new `SetupInfo` descriptor.
    pub fn new(setup: Setup, name: String, path: String) -> (r: SetupInfo)
        ensures
            r@ == (SetupInfoV { setup: setup@, name: name@, path: path@ }),
    {
        SetupInfo { setup, name, path }
    }

    /// The parsed setup data.
    pub fn setup(&self) -> (r: &Setup)
        ensures
            r@ == self@.setup,
    {
        &self.setup
    }

    /// The display name.
    pub fn name(&self) -> (r: &String)
        ensures
            r@ == self@.name,
    {
        &self.name
    }

    /// The path the export was read from.
    pub fn path(&self) -> (r: &String)
        ensures
            r@ == self@.path,
    {
        &self.path
    }
}

/// One car's bucket of setups.
pub struct CarEntry {
    name: String,
    setups: Vec<SetupInfo>,
}

/// Ghost image of a [`CarEntry`].
#[verifier::ext_equal]
pub ghost struct CarEntryV {
    pub name: Seq<char>,
    pub setups: Seq<SetupInfoV>,
}

impl View for CarEntry {
    type V = CarEntryV;

    closed spec fn view(&self) -> CarEntryV {
        CarEntryV { name: self.name@, setups: self.setups.deep_view() }
    }
}

impl DeepView for CarEntry {
    type V = CarEntryV;

    open spec fn deep_view(&self) -> CarEntryV {
        self.view()
    }
}

impl CarEntry {
    /// The car's display name.
    pub fn name(&self) -> (r: &String)
        ensures
            r@ == self@.name,
    {
        &self.name
    }

    /// The setups stored for this car.
    pub fn setups(&self) -> (r: &Vec<SetupInfo>)
        ensures
            r.deep_view() == self@.setups,
    {
        &self.setups
    }
}

/// One track's car buckets.
pub struct TrackEntry {
    name: String,
    cars: Vec<CarEntry>,
}

/// Ghost image of a [`TrackEntry`].
#[verifier::ext_equal]
pub ghost struct TrackEntryV {
    pub name: Seq<char>,
    pub cars: Seq<CarEntryV>,
}

impl View for TrackEntry {
    type V = TrackEntryV;

    closed spec fn view(&self) -> TrackEntryV {
        TrackEntryV { name: self.name@, cars: self.cars.deep_view() }
    }
}

impl DeepView for TrackEntry {
    type V = TrackEntryV;

    open spec fn deep_view(&self) -> TrackEntryV {
        self.view()
    }
}

impl TrackEntry {
    /// The track's display name.
    pub fn name(&self) -> (r: &String)
        ensures
            r@ == self@.name,
    {
        &self.name
    }

    /// The car buckets of this track.
    pub fn cars(&self) -> (r: &Vec<CarEntry>)
        ensures
            r.deep_view() == self@.cars,
    {
        &self.cars
    }
}

/// The view of the whole tree.
pub type SetupsV = Seq<TrackEntryV>;

/// A structural change of the tree, addressed so that a consumer can keep
/// derived state (such as a selection) synchronized.
#[derive(Debug)]
pub enum UpdateKind {
    /// A setup has been added; the track name, car name, and index are provided.
    AddedSetup(String, String, usize),
    /// A setup has been removed; the track name, car name, and index are provided.
    RemovedSetup(String, String, usize),
    /// A car has been removed; the track name and car name are provided.
    RemovedCar(String, String),
    /// A track has been removed; the track name is provided.
    RemovedTrack(String),
}

/// Ghost image of an [`UpdateKind`].
pub ghost enum UpdateKindV {
    AddedSetup(Seq<char>, Seq<char>, int),
    RemovedSetup(Seq<char>, Seq<char>, int),
    RemovedCar(Seq<char>, Seq<char>),
    RemovedTrack(Seq<char>),
}

impl View for UpdateKind {
    type V = UpdateKindV;

    open spec fn view(&self) -> UpdateKindV {
        match self {
            UpdateKind::AddedSetup(t, c, i) => UpdateKindV::AddedSetup(t@, c@, *i as int),
            UpdateKind::RemovedSetup(t, c, i) => UpdateKindV::RemovedSetup(t@, c@, *i as int),
            UpdateKind::RemovedCar(t, c) => UpdateKindV::RemovedCar(t@, c@),
            UpdateKind::RemovedTrack(t) => UpdateKindV::RemovedTrack(t@),
        }
    }
}

impl DeepView for UpdateKind {
    type V = UpdateKindV;

    open spec fn deep_view(&self) -> UpdateKindV {
        self.view()
    }
}

impl PartialEq for UpdateKind {
    fn eq(&self, other: &UpdateKind) -> (r: bool) {
        match (self, other) {
            (UpdateKind::AddedSetup(t1, c1, i1), UpdateKind::AddedSetup(t2, c2, i2)) => crate::text::str_eq(
                t1.as_str(),
                t2.as_str(),
            ) && crate::text::str_eq(c1.as_str(), c2.as_str()) && *i1 == *i2,
            (UpdateKind::RemovedSetup(t1, c1, i1), UpdateKind::RemovedSetup(t2, c2, i2)) => crate::text::str_eq(
                t1.as_str(),
                t2.as_str(),
            ) && crate::text::str_eq(c1.as_str(), c2.as_str()) && *i1 == *i2,
            (UpdateKind::RemovedCar(t1, c1), UpdateKind::RemovedCar(t2, c2)) => crate::text::str_eq(
                t1.as_str(),
                t2.as_str(),
            ) && crate::text::str_eq(c1.as_str(), c2.as_str()),
            (UpdateKind::RemovedTrack(t1), UpdateKind::RemovedTrack(t2)) => crate::text::str_eq(
                t1.as_str(),
                t2.as_str(),
            ),
            _ => false,
        }
    }
}

impl Eq for UpdateKind {

}

impl vstd::std_specs::cmp::PartialEqSpecImpl for UpdateKind {
    open spec fn obeys_eq_spec() -> bool {
        true
    }

    open spec fn eq_spec(&self, other: &UpdateKind) -> bool {
        self@ == other@
    }
}

/// First position whose track is named `name`.
pub open spec fn track_index(t: SetupsV, name: Seq<char>) -> Option<int>
    decreases t.len(),
{
    if t.len() == 0 {
        None
    } else if t[0].name == name {
        Some(0)
    } else {
        match track_index(t.skip(1), name) {
            Some(i) => Some(i + 1),
            None => None,
        }
    }
}

/// First position whose car is named `name`.
pub open spec fn car_index(cars: Seq<CarEntryV>, name: Seq<char>) -> Option<int>
    decreases cars.len(),
{
    if cars.len() == 0 {
        None
    } else if cars[0].name == name {
        Some(0)
    } else {
        match car_index(cars.skip(1), name) {
            Some(i) => Some(i + 1),
            None => None,
        }
    }
}

/// First position whose setup was read from `path`.
pub open spec fn path_index(b: Seq<SetupInfoV>, path: Seq<char>) -> Option<int>
    decreases b.len(),
{
    if b.len() == 0 {
        None
    } else if b[0].path == path {
        Some(0)
    } else {
        match path_index(b.skip(1), path) {
            Some(i) => Some(i + 1),
            None => None,
        }
    }
}

/// The entry an add with a match hint replaces: an exact path match, or
/// else a hint match.
pub open spec fn find_match(b: Seq<SetupInfoV>, path: Seq<char>, hint: Option<Seq<char>>) -> Option<
    int,
> {
    match path_index(b, path) {
        Some(i) => Some(i),
        None => match hint {
            Some(h) => path_index(b, h),
            None => None,
        },
    }
}

/// The sorted insertion position: the length of the leading run of names
/// strictly before `name`.
pub open spec fn insert_pos(b: Seq<SetupInfoV>, name: Seq<char>) -> int
    decreases b.len(),
{
    if b.len() == 0 {
        0
    } else if spec_human_compare(b[0].name, name) == Ordering::Less {
        1 + insert_pos(b.skip(1), name)
    } else {
        0
    }
}

/// A bucket is sorted by the human order of its names.
pub open spec fn sorted_infos(b: Seq<SetupInfoV>) -> bool {
    forall|i: int, j: int|
        0 <= i < j < b.len() ==> name_le((#[trigger] b[i]).name, (#[trigger] b[j]).name)
}

/// No two entries of a bucket share a path.
pub open spec fn unique_paths(b: Seq<SetupInfoV>) -> bool {
    forall|i: int, j: int|
        0 <= i < j < b.len() ==> (#[trigger] b[i]).path != (#[trigger] b[j]).path
}

/// Well-formed car entry: a nonempty bucket without duplicate paths.
pub open spec fn car_wf(c: CarEntryV) -> bool {
    c.setups.len() > 0 && unique_paths(c.setups)
}

/// Well-formed track entry: nonempty, uniquely named, well-formed cars.
pub open spec fn track_wf(t: TrackEntryV) -> bool {
    &&& t.cars.len() > 0
    &&& forall|i: int, j: int|
        0 <= i < j < t.cars.len() ==> (#[trigger] t.cars[i]).name != (#[trigger] t.cars[j]).name
    &&& forall|i: int| 0 <= i < t.cars.len() ==> car_wf(#[trigger] t.cars[i])
}

/// Well-formed tree: uniquely named, well-formed tracks.  In particular no
/// track maps to an empty car map and no car to an empty bucket.
pub open spec fn setups_wf(t: SetupsV) -> bool {
    &&& forall|i: int, j: int|
        0 <= i < j < t.len() ==> (#[trigger] t[i]).name != (#[trigger] t[j]).name
    &&& forall|i: int| 0 <= i < t.len() ==> track_wf(#[trigger] t[i])
}

/// Every bucket of the tree is sorted.
pub open spec fn sorted_tree(t: SetupsV) -> bool {
    forall|i: int, j: int|
        0 <= i < t.len() && 0 <= j < t[i].cars.len() ==> sorted_infos(
            (#[trigger] t[i].cars[j]).setups,
        )
}

/// The location of the first entry read from `path`, scanning tracks,
/// cars, and buckets in order.
pub open spec fn locate_in_cars(cars: Seq<CarEntryV>, path: Seq<char>) -> Option<(int, int)>
    decreases cars.len(),
{
    if cars.len() == 0 {
        None
    } else {
        match path_index(cars[0].setups, path) {
            Some(si) => Some((0, si)),
            None => match locate_in_cars(cars.skip(1), path) {
                Some((ci, si)) => Some((ci + 1, si)),
                None => None,
            },
        }
    }
}

/// The location of the first entry read from `path` in the whole tree.
pub open spec fn locate_path(t: SetupsV, path: Seq<char>) -> Option<(int, int, int)>
    decreases t.len(),
{
    if t.len() == 0 {
        None
    } else {
        match locate_in_cars(t[0].cars, path) {
            Some((ci, si)) => Some((0, ci, si)),
            None => match locate_path(t.skip(1), path) {
                Some((ti, ci, si)) => Some((ti + 1, ci, si)),
                None => None,
            },
        }
    }
}

/// The tree and diff events that adding a parsed setup yields: a missing
/// track or car bucket is created, an entry matching the path (or the
/// match hint) is replaced in place without an event, and otherwise the
/// entry is inserted at its sorted position with an `AddedSetup` event.
pub open spec fn spec_add_parsed(
    t: SetupsV,
    track: Seq<char>,
    car: Seq<char>,
    info: SetupInfoV,
    hint: Option<Seq<char>>,
) -> (SetupsV, Seq<UpdateKindV>) {
    match track_index(t, track) {
        None => (
            t.push(
                TrackEntryV { name: track, cars: seq![CarEntryV { name: car, setups: seq![info] }] },
            ),
            seq![UpdateKindV::AddedSetup(track, car, 0)],
        ),
        Some(ti) => {
            let tr = t[ti];
            match car_index(tr.cars, car) {
                None => (
                    t.update(
                        ti,
                        TrackEntryV {
                            name: tr.name,
                            cars: tr.cars.push(CarEntryV { name: car, setups: seq![info] }),
                        },
                    ),
                    seq![UpdateKindV::AddedSetup(track, car, 0)],
                ),
                Some(ci) => {
                    let b = tr.cars[ci].setups;
                    match find_match(b, info.path, hint) {
                        Some(i) => (
                            t.update(
                                ti,
                                TrackEntryV {
                                    name: tr.name,
                                    cars: tr.cars.update(
                                        ci,
                                        CarEntryV {
                                            name: tr.cars[ci].name,
                                            setups: b.update(i, info),
                                        },
                                    ),
                                },
                            ),
                            Seq::empty(),
                        ),
                        None => {
                            let k = insert_pos(b, info.name);
                            (
                                t.update(
                                    ti,
                                    TrackEntryV {
                                        name: tr.name,
                                        cars: tr.cars.update(
                                            ci,
                                            CarEntryV {
                                                name: tr.cars[ci].name,
                                                setups: b.insert(k, info),
                                            },
                                        ),
                                    },
                                ),
                                seq![UpdateKindV::AddedSetup(track, car, k)],
                            )
                        },
                    }
                },
            }
        },
    }
}

/// The tree and diff events that removing a path yields: the first entry
/// read from the path leaves its bucket with a `RemovedSetup` event; a
/// bucket left empty leaves its track with a `RemovedCar` event; a track
/// left empty leaves the tree with a `RemovedTrack` event, in that order.
/// A path found nowhere changes nothing.
pub open spec fn spec_remove(t: SetupsV, path: Seq<char>) -> (SetupsV, Seq<UpdateKindV>) {
    match locate_path(t, path) {
        None => (t, Seq::empty()),
        Some((ti, ci, si)) => {
            let tr = t[ti];
            let c = tr.cars[ci];
            let ev0 = seq![UpdateKindV::RemovedSetup(tr.name, c.name, si)];
            if c.setups.len() > 1 {
                (
                    t.update(
                        ti,
                        TrackEntryV {
                            name: tr.name,
                            cars: tr.cars.update(
                                ci,
                                CarEntryV { name: c.name, setups: c.setups.remove(si) },
                            ),
                        },
                    ),
                    ev0,
                )
            } else {
                let ev1 = ev0.push(UpdateKindV::RemovedCar(tr.name, c.name));
                if tr.cars.len() > 1 {
                    (
                        t.update(ti, TrackEntryV { name: tr.name, cars: tr.cars.remove(ci) }),
                        ev1,
                    )
                } else {
                    (t.remove(ti), ev1.push(UpdateKindV::RemovedTrack(tr.name)))
                }
            }
        },
    }
}

} // verus!
verus! {

/// Characterization of `track_index` when the name occurs first at `i`.
pub proof fn lemma_track_index_is(t: SetupsV, name: Seq<char>, i: int)
    requires
        0 <= i < t.len(),
        forall|m: int| 0 <= m < i ==> (#[trigger] t[m]).name != name,
        t[i].name == name,
    ensures
        track_index(t, name) == Some(i),
    decreases i,
{
    if i > 0 {
        assert(forall|m: int| 0 <= m < i - 1 ==> #[trigger] t.skip(1)[m] == t[m + 1]);
        lemma_track_index_is(t.skip(1), name, i - 1);
    }
}

/// Characterization of `track_index` when the name is absent.
pub proof fn lemma_track_index_none(t: SetupsV, name: Seq<char>)
    requires
        forall|m: int| 0 <= m < t.len() ==> (#[trigger] t[m]).name != name,
    ensures
        track_index(t, name) == None::<int>,
    decreases t.len(),
{
    if t.len() > 0 {
        assert(forall|m: int| 0 <= m < t.len() - 1 ==> #[trigger] t.skip(1)[m] == t[m + 1]);
        lemma_track_index_none(t.skip(1), name);
    }
}

/// An absent track name occurs nowhere.
pub proof fn lemma_track_index_none_conv(t: SetupsV, name: Seq<char>)
    requires
        track_index(t, name) is None,
    ensures
        forall|m: int| 0 <= m < t.len() ==> (#[trigger] t[m]).name != name,
    decreases t.len(),
{
    if t.len() > 0 {
        lemma_track_index_none_conv(t.skip(1), name);
        assert forall|m: int| 0 <= m < t.len() implies (#[trigger] t[m]).name != name by {
            if m > 0 {
                assert(t.skip(1)[m - 1] == t[m]);
            }
        }
    }
}

/// Characterization of `car_index` when the name occurs first at `i`.
pub proof fn lemma_car_index_is(cars: Seq<CarEntryV>, name: Seq<char>, i: int)
    requires
        0 <= i < cars.len(),
        forall|m: int| 0 <= m < i ==> (#[trigger] cars[m]).name != name,
        cars[i].name == name,
    ensures
        car_index(cars, name) == Some(i),
    decreases i,
{
    if i > 0 {
        assert(forall|m: int| 0 <= m < i - 1 ==> #[trigger] cars.skip(1)[m] == cars[m + 1]);
        lemma_car_index_is(cars.skip(1), name, i - 1);
    }
}

/// Characterization of `car_index` when the name is absent.
pub proof fn lemma_car_index_none(cars: Seq<CarEntryV>, name: Seq<char>)
    requires
        forall|m: int| 0 <= m < cars.len() ==> (#[trigger] cars[m]).name != name,
    ensures
        car_index(cars, name) == None::<int>,
    decreases cars.len(),
{
    if cars.len() > 0 {
        assert(forall|m: int| 0 <= m < cars.len() - 1 ==> #[trigger] cars.skip(1)[m] == cars[m + 1]);
        lemma_car_index_none(cars.skip(1), name);
    }
}

/// An absent car name occurs nowhere.
pub proof fn lemma_car_index_none_conv(cars: Seq<CarEntryV>, name: Seq<char>)
    requires
        car_index(cars, name) is None,
    ensures
        forall|m: int| 0 <= m < cars.len() ==> (#[trigger] cars[m]).name != name,
    decreases cars.len(),
{
    if cars.len() > 0 {
        lemma_car_index_none_conv(cars.skip(1), name);
        assert forall|m: int| 0 <= m < cars.len() implies (#[trigger] cars[m]).name != name by {
            if m > 0 {
                assert(cars.skip(1)[m - 1] == cars[m]);
            }
        }
    }
}

/// Characterization of `path_index` when the path occurs first at `i`.
pub proof fn lemma_path_index_is(b: Seq<SetupInfoV>, path: Seq<char>, i: int)
    requires
        0 <= i < b.len(),
        forall|m: int| 0 <= m < i ==> (#[trigger] b[m]).path != path,
        b[i].path == path,
    ensures
        path_index(b, path) == Some(i),
    decreases i,
{
    if i > 0 {
        assert(forall|m: int| 0 <= m < i - 1 ==> #[trigger] b.skip(1)[m] == b[m + 1]);
        lemma_path_index_is(b.skip(1), path, i - 1);
    }
}

/// Characterization of `path_index` when the path is absent.
pub proof fn lemma_path_index_none(b: Seq<SetupInfoV>, path: Seq<char>)
    requires
        forall|m: int| 0 <= m < b.len() ==> (#[trigger] b[m]).path != path,
    ensures
        path_index(b, path) == None::<int>,
    decreases b.len(),
{
    if b.len() > 0 {
        assert(forall|m: int| 0 <= m < b.len() - 1 ==> #[trigger] b.skip(1)[m] == b[m + 1]);
        lemma_path_index_none(b.skip(1), path);
    }
}

/// An absent path occurs nowhere.
pub proof fn lemma_path_index_none_conv(b: Seq<SetupInfoV>, path: Seq<char>)
    requires
        path_index(b, path) is None,
    ensures
        forall|m: int| 0 <= m < b.len() ==> (#[trigger] b[m]).path != path,
    decreases b.len(),
{
    if b.len() > 0 {
        lemma_path_index_none_conv(b.skip(1), path);
        assert forall|m: int| 0 <= m < b.len() implies (#[trigger] b[m]).path != path by {
            if m > 0 {
                assert(b.skip(1)[m - 1] == b[m]);
            }
        }
    }
}

/// Characterization of `path_index` by its found position.
pub proof fn lemma_path_index_found(b: Seq<SetupInfoV>, path: Seq<char>, i: int)
    requires
        path_index(b, path) == Some(i),
    ensures
        0 <= i < b.len(),
        b[i].path == path,
        forall|m: int| 0 <= m < i ==> (#[trigger] b[m]).path != path,
    decreases b.len(),
{
    if b.len() > 0 && b[0].path != path {
        lemma_path_index_found(b.skip(1), path, i - 1);
        assert forall|m: int| 0 <= m < i implies (#[trigger] b[m]).path != path by {
            if m > 0 {
                assert(b.skip(1)[m - 1] == b[m]);
            }
        }
        assert(b.skip(1)[i - 1] == b[i]);
    }
}

/// Characterization of `insert_pos` by its boundary.
pub proof fn lemma_insert_pos_is(b: Seq<SetupInfoV>, name: Seq<char>, k: int)
    requires
        0 <= k <= b.len(),
        forall|m: int|
            0 <= m < k ==> spec_human_compare((#[trigger] b[m]).name, name) == Ordering::Less,
        k < b.len() ==> spec_human_compare(b[k].name, name) != Ordering::Less,
    ensures
        insert_pos(b, name) == k,
    decreases k,
{
    if k > 0 {
        assert(forall|m: int| 0 <= m < k - 1 ==> #[trigger] b.skip(1)[m] == b[m + 1]);
        lemma_insert_pos_is(b.skip(1), name, k - 1);
    }
}

/// Characterization of `locate_in_cars` when a match exists.
pub proof fn lemma_locate_in_cars_is(cars: Seq<CarEntryV>, path: Seq<char>, ci: int, si: int)
    requires
        0 <= ci < cars.len(),
        forall|m: int|
            0 <= m < ci ==> path_index((#[trigger] cars[m]).setups, path) is None,
        path_index(cars[ci].setups, path) == Some(si),
    ensures
        locate_in_cars(cars, path) == Some((ci, si)),
    decreases ci,
{
    if ci > 0 {
        assert(forall|m: int| 0 <= m < ci - 1 ==> #[trigger] cars.skip(1)[m] == cars[m + 1]);
        lemma_locate_in_cars_is(cars.skip(1), path, ci - 1, si);
    }
}

/// Characterization of `locate_in_cars` when no match exists.
pub proof fn lemma_locate_in_cars_none(cars: Seq<CarEntryV>, path: Seq<char>)
    requires
        forall|m: int|
            0 <= m < cars.len() ==> path_index((#[trigger] cars[m]).setups, path) is None,
    ensures
        locate_in_cars(cars, path) == None::<(int, int)>,
    decreases cars.len(),
{
    if cars.len() > 0 {
        assert(forall|m: int| 0 <= m < cars.len() - 1 ==> #[trigger] cars.skip(1)[m] == cars[m + 1]);
        lemma_locate_in_cars_none(cars.skip(1), path);
    }
}

/// Characterization of `locate_path` when a match exists.
pub proof fn lemma_locate_path_is(t: SetupsV, path: Seq<char>, ti: int, ci: int, si: int)
    requires
        0 <= ti < t.len(),
        forall|m: int|
            0 <= m < ti ==> locate_in_cars((#[trigger] t[m]).cars, path) is None,
        locate_in_cars(t[ti].cars, path) == Some((ci, si)),
    ensures
        locate_path(t, path) == Some((ti, ci, si)),
    decreases ti,
{
    if ti > 0 {
        assert(forall|m: int| 0 <= m < ti - 1 ==> #[trigger] t.skip(1)[m] == t[m + 1]);
        lemma_locate_path_is(t.skip(1), path, ti - 1, ci, si);
    }
}

/// Characterization of `locate_path` when no match exists.
pub proof fn lemma_locate_path_none(t: SetupsV, path: Seq<char>)
    requires
        forall|m: int|
            0 <= m < t.len() ==> locate_in_cars((#[trigger] t[m]).cars, path) is None,
    ensures
        locate_path(t, path) == None::<(int, int, int)>,
    decreases t.len(),
{
    if t.len() > 0 {
        assert(forall|m: int| 0 <= m < t.len() - 1 ==> #[trigger] t.skip(1)[m] == t[m + 1]);
        lemma_locate_path_none(t.skip(1), path);
    }
}

} // verus!
verus! {

/// The in-memory setup tree: tracks, each with car buckets of setups.
pub struct Setups {
    tracks: Vec<TrackEntry>,
}

impl View for Setups {
    type V = SetupsV;

    closed spec fn view(&self) -> SetupsV {
        self.tracks.deep_view()
    }
}

impl Setups {
    /// An empty tree.
    pub fn new() -> (s: Setups)
        ensures
            s@ == Seq::<TrackEntryV>::empty(),
            setups_wf(s@),
    {
        let s = Setups { tracks: Vec::new() };
        proof {
            assert(s@ =~= Seq::<TrackEntryV>::empty());
        }
        s
    }

    /// Read access to the tracks of the tree.
    pub fn tracks(&self) -> (r: &Vec<TrackEntry>)
        ensures
            r.deep_view() == self@,
    {
        &self.tracks
    }

    /// Add a parsed setup to the tree, or replace the entry that `path`
    /// (or, failing that, `old_path`) already names in its bucket.  A
    /// fresh entry lands at its sorted position and emits `AddedSetup`;
    /// a replacement emits nothing.
    pub fn add_parsed(
        &mut self,
        result: &mut Vec<UpdateKind>,
        path: &String,
        old_path: Option<&String>,
        track_name: String,
        car_name: String,
        setup: Setup,
        file_name: String,
    )
        requires
            setups_wf(old(self)@),
        ensures
            setups_wf(final(self)@),
            ({
                let eff = spec_add_parsed(
                    old(self)@,
                    track_name@,
                    car_name@,
                    SetupInfoV { setup: setup@, name: file_name@, path: path@ },
                    match old_path {
                        Some(h) => Some(h@),
                        None => None,
                    },
                );
                final(self)@ == eff.0 && final(result).deep_view() == old(result).deep_view()
                    + eff.1
            }),
    {
        let ghost t0 = self@;
        let ghost infov = SetupInfoV { setup: setup@, name: file_name@, path: path@ };
        let ghost hintv: Option<Seq<char>> = match old_path {
            Some(h) => Some(h@),
            None => None,
        };
        let ghost evs0 = result.deep_view();
        let info = SetupInfo::new(setup, file_name, path.clone());
        // Find the track by name.
        let mut ti: usize = 0;
        loop
            invariant
                0 <= ti <= self.tracks.len(),
                self@ == t0,
                self@ == self.tracks.deep_view(),
                forall|m: int| 0 <= m < ti ==> (#[trigger] t0[m]).name != track_name@,
            ensures
                0 <= ti <= t0.len(),
                self@ == t0,
                forall|m: int| 0 <= m < ti ==> (#[trigger] t0[m]).name != track_name@,
                ti < t0.len() ==> t0[ti as int].name == track_name@,
            decreases self.tracks.len() - ti,
        {
            if ti == self.tracks.len() {
                break ;
            }
            proof {
                assert(t0[ti as int] == self.tracks@[ti as int]@);
            }
            if crate::text::str_eq(self.tracks[ti].name.as_str(), track_name.as_str()) {
                break ;
            }
            ti = ti + 1;
        }
        if ti == self.tracks.len() {
            // New track with a single car bucket.
            proof {
                lemma_track_index_none(t0, track_name@);
            }
            let mut setups_vec: Vec<SetupInfo> = Vec::new();
            setups_vec.push(info);
            let car = CarEntry { name: car_name.clone(), setups: setups_vec };
            let mut cars_vec: Vec<CarEntry> = Vec::new();
            cars_vec.push(car);
            let tr = TrackEntry { name: track_name.clone(), cars: cars_vec };
            proof {
                assert(tr@ =~~= (TrackEntryV {
                    name: track_name@,
                    cars: seq![CarEntryV { name: car_name@, setups: seq![infov] }],
                }));
            }
            self.tracks.push(tr);
            result.push(UpdateKind::AddedSetup(track_name, car_name, 0));
            proof {
                assert(self@ =~~= t0.push(
                    TrackEntryV {
                        name: track_name@,
                        cars: seq![CarEntryV { name: car_name@, setups: seq![infov] }],
                    },
                ));
                assert(result.deep_view() =~~= evs0 + seq![
                    UpdateKindV::AddedSetup(track_name@, car_name@, 0),
                ]);
                assert forall|i: int, j: int| 0 <= i < j < self@.len() implies (
                #[trigger] self@[i]).name != (#[trigger] self@[j]).name by {
                    if j == self@.len() - 1 {
                        assert(t0[i].name != track_name@);
                    }
                }
                assert(setups_wf(self@));
            }
            return ;
        }
        // The track exists: find the car bucket.
        let ghost trv = t0[ti as int];
        let mut ci: usize = 0;
        loop
            invariant
                0 <= ci <= self.tracks@[ti as int].cars.len(),
                ti < self.tracks.len(),
                self@ == t0,
                self@ == self.tracks.deep_view(),
                trv == t0[ti as int],
                forall|m: int| 0 <= m < ci ==> (#[trigger] trv.cars[m]).name != car_name@,
            ensures
                0 <= ci <= trv.cars.len(),
                self@ == t0,
                forall|m: int| 0 <= m < ci ==> (#[trigger] trv.cars[m]).name != car_name@,
                ci < trv.cars.len() ==> trv.cars[ci as int].name == car_name@,
            decreases self.tracks@[ti as int].cars.len() - ci,
        {
            proof {
                assert(t0[ti as int] == self.tracks@[ti as int]@);
            }
            if ci == self.tracks[ti].cars.len() {
                break ;
            }
            proof {
                assert(trv.cars[ci as int] == self.tracks@[ti as int].cars@[ci as int]@);
            }
            if crate::text::str_eq(
                self.tracks[ti].cars[ci].name.as_str(),
                car_name.as_str(),
            ) {
                break ;
            }
            ci = ci + 1;
        }
        proof {
            lemma_track_index_is(t0, track_name@, ti as int);
            assert(t0[ti as int] == self.tracks@[ti as int]@);
        }
        if ci == self.tracks[ti].cars.len() {
            // New car bucket under the existing track.
            proof {
                lemma_car_index_none(trv.cars, car_name@);
            }
            let mut setups_vec: Vec<SetupInfo> = Vec::new();
            setups_vec.push(info);
            let car = CarEntry { name: car_name.clone(), setups: setups_vec };
            proof {
                assert(car@ =~~= (CarEntryV { name: car_name@, setups: seq![infov] }));
            }
            let tr = &mut self.tracks[ti];
            tr.cars.push(car);
            result.push(UpdateKind::AddedSetup(track_name, car_name, 0));
            proof {
                assert(self@ =~~= t0.update(
                    ti as int,
                    TrackEntryV {
                        name: trv.name,
                        cars: trv.cars.push(CarEntryV { name: car_name@, setups: seq![infov] }),
                    },
                ));
                assert(result.deep_view() =~~= evs0 + seq![
                    UpdateKindV::AddedSetup(track_name@, car_name@, 0),
                ]);
                assert forall|i: int| 0 <= i < self@.len() implies track_wf(
                    #[trigger] self@[i],
                ) by {
                    if i == ti {
                        let nc = self@[i].cars;
                        assert forall|x: int, y: int| 0 <= x < y < nc.len() implies (
                        #[trigger] nc[x]).name != (#[trigger] nc[y]).name by {
                            if y == nc.len() - 1 {
                                assert(trv.cars[x].name != car_name@);
                            }
                        }
                        assert forall|x: int| 0 <= x < nc.len() implies car_wf(
                            #[trigger] nc[x],
                        ) by {
                            if x < nc.len() - 1 {
                                assert(nc[x] == trv.cars[x]);
                                assert(car_wf(trv.cars[x]));
                            }
                        }
                    }
                }
                assert(setups_wf(self@));
            }
            return ;
        }
        // Track and car both exist: search the bucket for the path and hint.
        let ghost bv = trv.cars[ci as int].setups;
        proof {
            lemma_car_index_is(trv.cars, car_name@, ci as int);
        }
        let found = self.find_in_bucket(ti, ci, path, old_path);
        proof {
            match found {
                Some(i) => {
                    assert(find_match(bv, path@, hintv) == Some(i as int));
                },
                None => {
                    assert(find_match(bv, path@, hintv) == None::<int>);
                },
            }
        }
        match found {
            Some(i) => {
                // Replace in place; no diff event.
                let tr = &mut self.tracks[ti];
                let c = &mut tr.cars[ci];
                c.setups[i] = info;
                proof {
                    assert(self@ =~~= t0.update(
                        ti as int,
                        TrackEntryV {
                            name: trv.name,
                            cars: trv.cars.update(
                                ci as int,
                                CarEntryV {
                                    name: trv.cars[ci as int].name,
                                    setups: bv.update(i as int, infov),
                                },
                            ),
                        },
                    ));
                    assert(result.deep_view() =~~= evs0 + Seq::<UpdateKindV>::empty());
                    self.lemma_wf_after_replace(t0, ti as int, ci as int, i as int, infov, hintv);
                }
            },
            None => {
                // Fresh entry: insert at the sorted position.
                let k = self.sorted_pos(ti, ci, info.name());
                let tr = &mut self.tracks[ti];
                let c = &mut tr.cars[ci];
                c.setups.insert(k, info);
                result.push(UpdateKind::AddedSetup(track_name, car_name, k));
                proof {
                    assert(self@ =~~= t0.update(
                        ti as int,
                        TrackEntryV {
                            name: trv.name,
                            cars: trv.cars.update(
                                ci as int,
                                CarEntryV {
                                    name: trv.cars[ci as int].name,
                                    setups: bv.insert(k as int, infov),
                                },
                            ),
                        },
                    ));
                    assert(result.deep_view() =~~= evs0 + seq![
                        UpdateKindV::AddedSetup(track_name@, car_name@, k as int),
                    ]);
                    self.lemma_wf_after_insert(t0, ti as int, ci as int, k as int, infov);
                }
            },
        }
    }

    /// Search one bucket for the entry that `path`, or failing that the
    /// match hint, names.
    fn find_in_bucket(
        &self,
        ti: usize,
        ci: usize,
        path: &String,
        old_path: Option<&String>,
    ) -> (r: Option<usize>)
        requires
            ti < self@.len(),
            ci < self@[ti as int].cars.len(),
        ensures
            ({
                let b = self@[ti as int].cars[ci as int].setups;
                let hv: Option<Seq<char>> = match old_path {
                    Some(h) => Some(h@),
                    None => None,
                };
                match r {
                    Some(i) => i < b.len() && find_match(b, path@, hv) == Some(i as int),
                    None => find_match(b, path@, hv) == None::<int>,
                }
            }),
    {
        let ghost b = self@[ti as int].cars[ci as int].setups;
        let bucket: &Vec<SetupInfo> = &self.tracks[ti].cars[ci].setups;
        proof {
            assert(self@[ti as int] == self.tracks@[ti as int]@);
            assert(self.tracks@[ti as int]@.cars[ci as int] == self.tracks@[ti as int].cars@[
                ci as int]@);
            assert(bucket.deep_view() == b);
        }
        // First pass: exact path match.
        let mut i: usize = 0;
        loop
            invariant
                0 <= i <= bucket.len(),
                bucket.deep_view() == b,
                forall|m: int| 0 <= m < i ==> (#[trigger] b[m]).path != path@,
            ensures
                0 <= i <= b.len(),
                forall|m: int| 0 <= m < i ==> (#[trigger] b[m]).path != path@,
                i < b.len() ==> b[i as int].path == path@,
            decreases bucket.len() - i,
        {
            if i == bucket.len() {
                break ;
            }
            proof {
                assert(b[i as int] == bucket@[i as int]@);
            }
            if crate::text::str_eq(bucket[i].path.as_str(), path.as_str()) {
                break ;
            }
            i = i + 1;
        }
        if i < bucket.len() {
            proof {
                lemma_path_index_is(b, path@, i as int);
            }
            return Some(i);
        }
        proof {
            lemma_path_index_none(b, path@);
        }
        match old_path {
            None => None,
            Some(h) => {
                let mut j: usize = 0;
                loop
                    invariant
                        0 <= j <= bucket.len(),
                        bucket.deep_view() == b,
                        forall|m: int| 0 <= m < j ==> (#[trigger] b[m]).path != h@,
                    ensures
                        0 <= j <= b.len(),
                        forall|m: int| 0 <= m < j ==> (#[trigger] b[m]).path != h@,
                        j < b.len() ==> b[j as int].path == h@,
                    decreases bucket.len() - j,
                {
                    if j == bucket.len() {
                        break ;
                    }
                    proof {
                        assert(b[j as int] == bucket@[j as int]@);
                    }
                    if crate::text::str_eq(bucket[j].path.as_str(), h.as_str()) {
                        break ;
                    }
                    j = j + 1;
                }
                if j < bucket.len() {
                    proof {
                        lemma_path_index_is(b, h@, j as int);
                    }
                    Some(j)
                } else {
                    proof {
                        lemma_path_index_none(b, h@);
                    }
                    None
                }
            },
        }
    }

    /// The sorted insertion position of `name` in one bucket.
    fn sorted_pos(&self, ti: usize, ci: usize, name: &String) -> (k: usize)
        requires
            ti < self@.len(),
            ci < self@[ti as int].cars.len(),
        ensures
            ({
                let b = self@[ti as int].cars[ci as int].setups;
                k <= b.len() && k == insert_pos(b, name@)
            }),
    {
        let ghost b = self@[ti as int].cars[ci as int].setups;
        let bucket: &Vec<SetupInfo> = &self.tracks[ti].cars[ci].setups;
        proof {
            assert(self@[ti as int] == self.tracks@[ti as int]@);
            assert(self.tracks@[ti as int]@.cars[ci as int] == self.tracks@[ti as int].cars@[
                ci as int]@);
            assert(bucket.deep_view() == b);
        }
        let mut k: usize = 0;
        loop
            invariant
                0 <= k <= bucket.len(),
                bucket.deep_view() == b,
                forall|m: int|
                    0 <= m < k ==> spec_human_compare((#[trigger] b[m]).name, name@)
                        == Ordering::Less,
            ensures
                0 <= k <= b.len(),
                forall|m: int|
                    0 <= m < k ==> spec_human_compare((#[trigger] b[m]).name, name@)
                        == Ordering::Less,
                k < b.len() ==> spec_human_compare(b[k as int].name, name@) != Ordering::Less,
            decreases bucket.len() - k,
        {
            if k == bucket.len() {
                break ;
            }
            proof {
                assert(b[k as int] == bucket@[k as int]@);
            }
            let c = crate::str_ext::human_compare(
                bucket[k].name.as_str(),
                name.as_str(),
            );
            match c {
                Ordering::Less => {
                    k = k + 1;
                },
                _ => {
                    break ;
                },
            }
        }
        proof {
            lemma_insert_pos_is(b, name@, k as int);
        }
        k
    }

    /// Replacing a bucket entry by one carrying the searched path keeps
    /// the tree well-formed.
    proof fn lemma_wf_after_replace(
        &self,
        t0: SetupsV,
        ti: int,
        ci: int,
        i: int,
        infov: SetupInfoV,
        hintv: Option<Seq<char>>,
    )
        requires
            setups_wf(t0),
            0 <= ti < t0.len(),
            0 <= ci < t0[ti].cars.len(),
            0 <= i < t0[ti].cars[ci].setups.len(),
            find_match(t0[ti].cars[ci].setups, infov.path, hintv) == Some(i),
            self@ == t0.update(
                ti,
                TrackEntryV {
                    name: t0[ti].name,
                    cars: t0[ti].cars.update(
                        ci,
                        CarEntryV {
                            name: t0[ti].cars[ci].name,
                            setups: t0[ti].cars[ci].setups.update(i, infov),
                        },
                    ),
                },
            ),
        ensures
            setups_wf(self@),
    {
        let b = t0[ti].cars[ci].setups;
        let nb = b.update(i, infov);
        assert(car_wf(t0[ti].cars[ci]));
        match path_index(b, infov.path) {
            Some(pi) => {
                lemma_path_index_found(b, infov.path, pi);
                assert(pi == i);
                assert forall|x: int, y: int| 0 <= x < y < nb.len() implies (
                #[trigger] nb[x]).path != (#[trigger] nb[y]).path by {
                    if x != i && y != i {
                        assert(b[x].path != b[y].path);
                    } else if x == i {
                        if b[y].path == infov.path {
                            lemma_path_index_found(b, infov.path, pi);
                            assert(false);
                        }
                    } else {
                        if b[x].path == infov.path {
                            assert(x < i);
                            lemma_path_index_found(b, infov.path, pi);
                            assert(false);
                        }
                    }
                }
            },
            None => {
                lemma_path_index_none_conv(b, infov.path);
                assert forall|x: int, y: int| 0 <= x < y < nb.len() implies (
                #[trigger] nb[x]).path != (#[trigger] nb[y]).path by {
                    if x != i && y != i {
                        assert(b[x].path != b[y].path);
                    }
                }
            },
        }
        assert forall|x: int| 0 <= x < self@.len() implies track_wf(#[trigger] self@[x]) by {
            if x == ti {
                let nc = self@[x].cars;
                assert forall|y: int| 0 <= y < nc.len() implies car_wf(#[trigger] nc[y]) by {
                    if y != ci {
                        assert(nc[y] == t0[ti].cars[y]);
                    }
                }
                assert forall|u: int, v: int| 0 <= u < v < nc.len() implies (
                #[trigger] nc[u]).name != (#[trigger] nc[v]).name by {
                    assert(t0[ti].cars[u].name != t0[ti].cars[v].name);
                    assert(nc[u].name == t0[ti].cars[u].name);
                    assert(nc[v].name == t0[ti].cars[v].name);
                }
            }
        }
        assert forall|x: int, y: int| 0 <= x < y < self@.len() implies (
        #[trigger] self@[x]).name != (#[trigger] self@[y]).name by {
            assert(self@[x].name == t0[x].name);
            assert(self@[y].name == t0[y].name);
        }
    }

    /// Inserting a fresh path into a bucket keeps the tree well-formed.
    proof fn lemma_wf_after_insert(&self, t0: SetupsV, ti: int, ci: int, k: int, infov: SetupInfoV)
        requires
            setups_wf(t0),
            0 <= ti < t0.len(),
            0 <= ci < t0[ti].cars.len(),
            0 <= k <= t0[ti].cars[ci].setups.len(),
            path_index(t0[ti].cars[ci].setups, infov.path) is None,
            self@ == t0.update(
                ti,
                TrackEntryV {
                    name: t0[ti].name,
                    cars: t0[ti].cars.update(
                        ci,
                        CarEntryV {
                            name: t0[ti].cars[ci].name,
                            setups: t0[ti].cars[ci].setups.insert(k, infov),
                        },
                    ),
                },
            ),
        ensures
            setups_wf(self@),
    {
        let b = t0[ti].cars[ci].setups;
        let nb = b.insert(k, infov);
        assert(car_wf(t0[ti].cars[ci]));
        lemma_path_index_none_conv(b, infov.path);
        assert forall|x: int, y: int| 0 <= x < y < nb.len() implies (#[trigger] nb[x]).path != (
        #[trigger] nb[y]).path by {
            if x < k && y < k {
                assert(nb[x] == b[x] && nb[y] == b[y]);
            } else if x < k && y == k {
                assert(nb[x] == b[x]);
            } else if x < k && y > k {
                assert(nb[x] == b[x] && nb[y] == b[y - 1]);
            } else if x == k && y > k {
                assert(nb[y] == b[y - 1]);
            } else if x > k && y > k {
                assert(nb[x] == b[x - 1] && nb[y] == b[y - 1]);
            }
        }
        assert forall|x: int| 0 <= x < self@.len() implies track_wf(#[trigger] self@[x]) by {
            if x == ti {
                let nc = self@[x].cars;
                assert forall|y: int| 0 <= y < nc.len() implies car_wf(#[trigger] nc[y]) by {
                    if y != ci {
                        assert(nc[y] == t0[ti].cars[y]);
                    }
                }
                assert forall|u: int, v: int| 0 <= u < v < nc.len() implies (
                #[trigger] nc[u]).name != (#[trigger] nc[v]).name by {
                    assert(t0[ti].cars[u].name != t0[ti].cars[v].name);
                    assert(nc[u].name == t0[ti].cars[u].name);
                    assert(nc[v].name == t0[ti].cars[v].name);
                }
            }
        }
        assert forall|x: int, y: int| 0 <= x < y < self@.len() implies (
        #[trigger] self@[x]).name != (#[trigger] self@[y]).name by {
            assert(self@[x].name == t0[x].name);
            assert(self@[y].name == t0[y].name);
        }
    }
}

} // verus!
verus! {

impl Setups {
    /// Locate the first entry read from `path`, scanning tracks, cars and
    /// buckets in order.
    fn locate(&self, path: &String) -> (r: Option<(usize, usize, usize)>)
        ensures
            match r {
                Some(loc) => {
                    &&& loc.0 < self@.len()
                    &&& loc.1 < self@[loc.0 as int].cars.len()
                    &&& loc.2 < self@[loc.0 as int].cars[loc.1 as int].setups.len()
                    &&& locate_path(self@, path@) == Some((loc.0 as int, loc.1 as int, loc.2 as int))
                },
                None => locate_path(self@, path@) == None::<(int, int, int)>,
            },
    {
        let ghost t0 = self@;
        let mut ti: usize = 0;
        loop
            invariant
                0 <= ti <= self.tracks.len(),
                t0 == self@,
                t0 == self.tracks.deep_view(),
                forall|m: int| 0 <= m < ti ==> locate_in_cars((#[trigger] t0[m]).cars, path@) is None,
            ensures
                forall|m: int|
                    0 <= m < t0.len() ==> locate_in_cars((#[trigger] t0[m]).cars, path@) is None,
            decreases self.tracks.len() - ti,
        {
            if ti == self.tracks.len() {
                break ;
            }
            let ghost trv = t0[ti as int];
            proof {
                assert(trv == self.tracks@[ti as int]@);
            }
            let mut ci: usize = 0;
            loop
                invariant
                    0 <= ci <= self.tracks@[ti as int].cars.len(),
                    ti < self.tracks.len(),
                    t0 == self@,
                    t0 == self.tracks.deep_view(),
                    trv == t0[ti as int],
                    forall|m: int|
                        0 <= m < ti ==> locate_in_cars((#[trigger] t0[m]).cars, path@) is None,
                    forall|m: int|
                        0 <= m < ci ==> path_index((#[trigger] trv.cars[m]).setups, path@) is None,
                ensures
                    t0 == self@,
                    forall|m: int|
                        0 <= m < trv.cars.len() ==> path_index(
                            (#[trigger] trv.cars[m]).setups,
                            path@,
                        ) is None,
                decreases self.tracks@[ti as int].cars.len() - ci,
            {
                proof {
                    assert(trv == self.tracks@[ti as int]@);
                }
                if ci == self.tracks[ti].cars.len() {
                    break ;
                }
                let ghost bv = trv.cars[ci as int].setups;
                proof {
                    assert(trv.cars[ci as int] == self.tracks@[ti as int].cars@[ci as int]@);
                }
                let mut si: usize = 0;
                loop
                    invariant
                        0 <= si <= self.tracks@[ti as int].cars@[ci as int].setups.len(),
                        ti < self.tracks.len(),
                        ci < self.tracks@[ti as int].cars.len(),
                        t0 == self@,
                        t0 == self.tracks.deep_view(),
                        trv == t0[ti as int],
                        bv == trv.cars[ci as int].setups,
                        forall|m: int|
                            0 <= m < ti ==> locate_in_cars((#[trigger] t0[m]).cars, path@) is None,
                        forall|m: int|
                            0 <= m < ci ==> path_index(
                                (#[trigger] trv.cars[m]).setups,
                                path@,
                            ) is None,
                        forall|m: int| 0 <= m < si ==> (#[trigger] bv[m]).path != path@,
                    ensures
                        0 <= si <= bv.len(),
                        t0 == self@,
                        forall|m: int| 0 <= m < si ==> (#[trigger] bv[m]).path != path@,
                        si < bv.len() ==> bv[si as int].path == path@,
                    decreases self.tracks@[ti as int].cars@[ci as int].setups.len() - si,
                {
                    proof {
                        assert(trv == self.tracks@[ti as int]@);
                        assert(trv.cars[ci as int] == self.tracks@[ti as int].cars@[ci as int]@);
                    }
                    if si == self.tracks[ti].cars[ci].setups.len() {
                        break ;
                    }
                    proof {
                        assert(bv[si as int] == self.tracks@[ti as int].cars@[ci as int].setups@[
                            si as int]@);
                    }
                    if crate::text::str_eq(
                        self.tracks[ti].cars[ci].setups[si].path.as_str(),
                        path.as_str(),
                    ) {
                        break ;
                    }
                    si = si + 1;
                }
                if si < self.tracks[ti].cars[ci].setups.len() {
                    proof {
                        assert(si < bv.len());
                        lemma_path_index_is(bv, path@, si as int);
                        lemma_locate_in_cars_is(trv.cars, path@, ci as int, si as int);
                        lemma_locate_path_is(t0, path@, ti as int, ci as int, si as int);
                    }
                    return Some((ti, ci, si));
                }
                proof {
                    lemma_path_index_none(bv, path@);
                }
                ci = ci + 1;
            }
            proof {
                lemma_locate_in_cars_none(trv.cars, path@);
            }
            ti = ti + 1;
        }
        proof {
            lemma_locate_path_none(t0, path@);
        }
        None
    }

    /// Remove the first entry read from `path`, cascading the removal of
    /// an emptied car bucket and an emptied track, and appending the diff
    /// events in removal order.  A path found nowhere changes nothing.
    pub fn remove(&mut self, result: &mut Vec<UpdateKind>, path: &String)
        requires
            setups_wf(old(self)@),
        ensures
            setups_wf(final(self)@),
            ({
                let eff = spec_remove(old(self)@, path@);
                final(self)@ == eff.0 && final(result).deep_view() == old(result).deep_view()
                    + eff.1
            }),
    {
        let ghost t0 = self@;
        let ghost evs0 = result.deep_view();
        match self.locate(path) {
            None => {
                proof {
                    assert(result.deep_view() =~~= evs0 + Seq::<UpdateKindV>::empty());
                }
            },
            Some((ti, ci, si)) => {
                let ghost trv = t0[ti as int];
                let ghost cv = trv.cars[ci as int];
                let track_name = self.tracks[ti].name.clone();
                let car_name = self.tracks[ti].cars[ci].name.clone();
                proof {
                    assert(trv == self.tracks@[ti as int]@);
                    assert(cv == self.tracks@[ti as int].cars@[ci as int]@);
                    assert(track_name@ == trv.name);
                    assert(car_name@ == cv.name);
                }
                let bucket_len = self.tracks[ti].cars[ci].setups.len();
                {
                    let tr = &mut self.tracks[ti];
                    let c = &mut tr.cars[ci];
                    let _removed = c.setups.remove(si);
                }
                result.push(UpdateKind::RemovedSetup(track_name.clone(), car_name.clone(), si));
                proof {
                    assert(self@ =~~= t0.update(
                        ti as int,
                        TrackEntryV {
                            name: trv.name,
                            cars: trv.cars.update(
                                ci as int,
                                CarEntryV { name: cv.name, setups: cv.setups.remove(si as int) },
                            ),
                        },
                    ));
                }
                if bucket_len > 1 {
                    proof {
                        assert(result.deep_view() =~~= evs0 + seq![
                            UpdateKindV::RemovedSetup(trv.name, cv.name, si as int),
                        ]);
                        lemma_wf_after_setup_removed(t0, ti as int, ci as int, si as int, self@);
                    }
                    return ;
                }
                // The bucket is now empty: remove the car.
                result.push(UpdateKind::RemovedCar(track_name.clone(), car_name));
                let cars_len = self.tracks[ti].cars.len();
                {
                    let tr = &mut self.tracks[ti];
                    let _removed_car = tr.cars.remove(ci);
                }
                proof {
                    assert(trv.cars.update(
                        ci as int,
                        CarEntryV { name: cv.name, setups: cv.setups.remove(si as int) },
                    ).remove(ci as int) =~~= trv.cars.remove(ci as int));
                    assert(self@ =~~= t0.update(
                        ti as int,
                        TrackEntryV { name: trv.name, cars: trv.cars.remove(ci as int) },
                    ));
                }
                if cars_len > 1 {
                    proof {
                        assert(result.deep_view() =~~= evs0 + seq![
                            UpdateKindV::RemovedSetup(trv.name, cv.name, si as int),
                            UpdateKindV::RemovedCar(trv.name, cv.name),
                        ]);
                        lemma_wf_after_car_removed(t0, ti as int, ci as int, self@);
                    }
                    return ;
                }
                // The track is now empty as well: remove it.
                result.push(UpdateKind::RemovedTrack(track_name));
                let _removed_track = self.tracks.remove(ti);
                proof {
                    assert(t0.update(
                        ti as int,
                        TrackEntryV { name: trv.name, cars: trv.cars.remove(ci as int) },
                    ).remove(ti as int) =~~= t0.remove(ti as int));
                    assert(self@ =~~= t0.remove(ti as int));
                    assert(result.deep_view() =~~= evs0 + seq![
                        UpdateKindV::RemovedSetup(trv.name, cv.name, si as int),
                        UpdateKindV::RemovedCar(trv.name, cv.name),
                        UpdateKindV::RemovedTrack(trv.name),
                    ]);
                    lemma_wf_after_track_removed(t0, ti as int, self@);
                }
            },
        }
    }
}

/// Removing one setup from a bucket that keeps further entries keeps the
/// tree well-formed.
proof fn lemma_wf_after_setup_removed(t0: SetupsV, ti: int, ci: int, si: int, t1: SetupsV)
    requires
        setups_wf(t0),
        0 <= ti < t0.len(),
        0 <= ci < t0[ti].cars.len(),
        0 <= si < t0[ti].cars[ci].setups.len(),
        t0[ti].cars[ci].setups.len() > 1,
        t1 == t0.update(
            ti,
            TrackEntryV {
                name: t0[ti].name,
                cars: t0[ti].cars.update(
                    ci,
                    CarEntryV {
                        name: t0[ti].cars[ci].name,
                        setups: t0[ti].cars[ci].setups.remove(si),
                    },
                ),
            },
        ),
    ensures
        setups_wf(t1),
{
    let b = t0[ti].cars[ci].setups;
    let nb = b.remove(si);
    assert(car_wf(t0[ti].cars[ci]));
    assert forall|x: int, y: int| 0 <= x < y < nb.len() implies (#[trigger] nb[x]).path != (
    #[trigger] nb[y]).path by {
        let ox = if x < si {
            x
        } else {
            x + 1
        };
        let oy = if y < si {
            y
        } else {
            y + 1
        };
        assert(nb[x] == b[ox] && nb[y] == b[oy]);
        assert(b[ox].path != b[oy].path);
    }
    assert forall|x: int| 0 <= x < t1.len() implies track_wf(#[trigger] t1[x]) by {
        if x == ti {
            let nc = t1[x].cars;
            assert forall|y: int| 0 <= y < nc.len() implies car_wf(#[trigger] nc[y]) by {
                if y != ci {
                    assert(nc[y] == t0[ti].cars[y]);
                }
            }
            assert forall|u: int, v: int| 0 <= u < v < nc.len() implies (#[trigger] nc[u]).name
                != (#[trigger] nc[v]).name by {
                assert(t0[ti].cars[u].name != t0[ti].cars[v].name);
                assert(nc[u].name == t0[ti].cars[u].name);
                assert(nc[v].name == t0[ti].cars[v].name);
            }
        }
    }
    assert forall|x: int, y: int| 0 <= x < y < t1.len() implies (#[trigger] t1[x]).name != (
    #[trigger] t1[y]).name by {
        assert(t1[x].name == t0[x].name);
        assert(t1[y].name == t0[y].name);
    }
}

/// Removing an emptied car from a track that keeps further cars keeps the
/// tree well-formed.
proof fn lemma_wf_after_car_removed(t0: SetupsV, ti: int, ci: int, t1: SetupsV)
    requires
        setups_wf(t0),
        0 <= ti < t0.len(),
        0 <= ci < t0[ti].cars.len(),
        t0[ti].cars.len() > 1,
        t1 == t0.update(ti, TrackEntryV { name: t0[ti].name, cars: t0[ti].cars.remove(ci) }),
    ensures
        setups_wf(t1),
{
    let c = t0[ti].cars;
    let nc = c.remove(ci);
    assert forall|x: int| 0 <= x < t1.len() implies track_wf(#[trigger] t1[x]) by {
        if x == ti {
            assert forall|y: int| 0 <= y < nc.len() implies car_wf(#[trigger] nc[y]) by {
                let oy = if y < ci {
                    y
                } else {
                    y + 1
                };
                assert(nc[y] == c[oy]);
                assert(car_wf(c[oy]));
            }
            assert forall|u: int, v: int| 0 <= u < v < nc.len() implies (#[trigger] nc[u]).name
                != (#[trigger] nc[v]).name by {
                let ou = if u < ci {
                    u
                } else {
                    u + 1
                };
                let ov = if v < ci {
                    v
                } else {
                    v + 1
                };
                assert(nc[u] == c[ou] && nc[v] == c[ov]);
                assert(c[ou].name != c[ov].name);
            }
        }
    }
    assert forall|x: int, y: int| 0 <= x < y < t1.len() implies (#[trigger] t1[x]).name != (
    #[trigger] t1[y]).name by {
        assert(t1[x].name == t0[x].name);
        assert(t1[y].name == t0[y].name);
    }
}

/// Removing an emptied track keeps the tree well-formed.
proof fn lemma_wf_after_track_removed(t0: SetupsV, ti: int, t1: SetupsV)
    requires
        setups_wf(t0),
        0 <= ti < t0.len(),
        t1 == t0.remove(ti),
    ensures
        setups_wf(t1),
{
    assert forall|x: int| 0 <= x < t1.len() implies track_wf(#[trigger] t1[x]) by {
        let ox = if x < ti {
            x
        } else {
            x + 1
        };
        assert(t1[x] == t0[ox]);
        assert(track_wf(t0[ox]));
    }
    assert forall|x: int, y: int| 0 <= x < y < t1.len() implies (#[trigger] t1[x]).name != (
    #[trigger] t1[y]).name by {
        let ox = if x < ti {
            x
        } else {
            x + 1
        };
        let oy = if y < ti {
            y
        } else {
            y + 1
        };
        assert(t1[x] == t0[ox] && t1[y] == t0[oy]);
        assert(t0[ox].name != t0[oy].name);
    }
}

} // verus!
verus! {

use crate::markup::{decode_latin1, doc_of, extract_doc, latin1_of};
use crate::parser::{spec_parse_doc, ErrorV};

/// A filesystem notification, normalized to plain values: the watcher's
/// paths, whether a path currently names a file, and the file's bytes
/// where the caller could read them.
pub enum Event {
    /// A file appeared.
    Create { path: String, is_file: bool, bytes: Option<Vec<u8>> },
    /// A file's content changed.
    Write { path: String, is_file: bool, bytes: Option<Vec<u8>> },
    /// A file disappeared.
    Remove { path: String },
    /// A file moved from `from` to `to`; `bytes` reads `to`.
    Rename { from: String, to: String, to_is_file: bool, bytes: Option<Vec<u8>> },
}

/// What adding the export bytes at `path` does to the tree: the
/// Latin-1-decoded text is flattened and parsed, a parsed outcome is
/// added under the path's file stem by [`spec_add_parsed`], and a
/// document the parser rejects changes nothing and emits nothing.
pub open spec fn spec_add_effect(
    t: SetupsV,
    path: Seq<char>,
    hint: Option<Seq<char>>,
    bytes: Seq<u8>,
    track_ids: Set<Seq<u8>>,
    track_names: Seq<(Seq<char>, Seq<char>)>,
    car_names: Seq<(Seq<char>, Seq<char>)>,
) -> (SetupsV, Seq<UpdateKindV>) {
    match spec_parse_doc(doc_of(latin1_of(bytes)), track_ids, track_names, car_names) {
        Ok(p) => spec_add_parsed(
            t,
            p.0,
            p.1,
            SetupInfoV { setup: p.2, name: spec_file_stem(path), path: path },
            hint,
        ),
        Err(_) => (t, Seq::empty()),
    }
}

impl Setups {
    /// Add the export at `path` to the tree, replacing the entry `path`
    /// or `old_path` already names.  Exactly the documents the parser
    /// accepts take effect; a document that fails to parse is dropped
    /// silently — no mutation, no diff event — since live events may
    /// observe half-written files.
    pub fn add(
        &mut self,
        result: &mut Vec<UpdateKind>,
        path: &String,
        old_path: Option<&String>,
        bytes: Option<&Vec<u8>>,
        config: &DictConfig,
    )
        requires
            setups_wf(old(self)@),
        ensures
            setups_wf(final(self)@),
            match bytes {
                None => final(self)@ == old(self)@ && final(result).deep_view() == old(
                    result,
                ).deep_view(),
                Some(b) => ({
                    let eff = spec_add_effect(
                        old(self)@,
                        path@,
                        match old_path {
                            Some(h) => Some(h@),
                            None => None,
                        },
                        b@,
                        config.track_id_elems(),
                        config.track_names(),
                        config.car_names(),
                    );
                    final(self)@ == eff.0 && final(result).deep_view() == old(result).deep_view()
                        + eff.1
                }),
            },
    {
        let ghost t0 = self@;
        let ghost evs0 = result.deep_view();
        let ghost hintv: Option<Seq<char>> = match old_path {
            Some(h) => Some(h@),
            None => None,
        };
        let b = match bytes {
            Some(b) => b,
            None => {
                return ;
            },
        };
        let html = decode_latin1(b);
        let doc = extract_doc(html.as_str());
        match crate::parser::setup_from_doc(&doc, config) {
            Err(_) => {
                proof {
                    assert(result.deep_view() =~= evs0 + Seq::<UpdateKindV>::empty());
                }
            },
            Ok((track_name, car_name, setup)) => {
                let ghost tn = track_name@;
                let ghost cn = car_name@;
                let ghost sv = setup@;
                let file_name = file_stem(path.as_str());
                self.add_parsed(result, path, old_path, track_name, car_name, setup, file_name);
                proof {
                    let eff = spec_add_parsed(
                        t0,
                        tn,
                        cn,
                        SetupInfoV { setup: sv, name: spec_file_stem(path@), path: path@ },
                        hintv,
                    );
                    assert(self@ == eff.0 && result.deep_view() == evs0 + eff.1);
                }
            },
        }
    }

    /// Load one export into the tree during a bulk walk: exactly the
    /// documents the parser accepts land, at their sorted position or
    /// replacing the entry their path already names; a rejected document
    /// reports its parse error and changes nothing.
    pub fn load_file(&mut self, path: String, bytes: &Vec<u8>, config: &DictConfig) -> (r: Result<
        (),
        Error,
    >)
        requires
            setups_wf(old(self)@),
        ensures
            setups_wf(final(self)@),
            ({
                let parsed = spec_parse_doc(
                    doc_of(latin1_of(bytes@)),
                    config.track_id_elems(),
                    config.track_names(),
                    config.car_names(),
                );
                match r {
                    Ok(_) => parsed is Ok && final(self)@ == spec_add_effect(
                        old(self)@,
                        path@,
                        None,
                        bytes@,
                        config.track_id_elems(),
                        config.track_names(),
                        config.car_names(),
                    ).0,
                    Err(e) => parsed == Err::<(Seq<char>, Seq<char>, SetupV), ErrorV>(e@)
                        && final(self)@ == old(self)@,
                }
            }),
    {
        let ghost t0 = self@;
        let html = decode_latin1(bytes);
        let doc = extract_doc(html.as_str());
        match crate::parser::setup_from_doc(&doc, config) {
            Err(e) => Err(e),
            Ok((track_name, car_name, setup)) => {
                let ghost tn = track_name@;
                let ghost cn = car_name@;
                let ghost sv = setup@;
                let file_name = file_stem(path.as_str());
                let mut scratch: Vec<UpdateKind> = Vec::new();
                self.add_parsed(
                    &mut scratch,
                    &path,
                    None,
                    track_name,
                    car_name,
                    setup,
                    file_name,
                );
                proof {
                    let eff = spec_add_parsed(
                        t0,
                        tn,
                        cn,
                        SetupInfoV { setup: sv, name: spec_file_stem(path@), path: path@ },
                        None,
                    );
                    assert(self@ == eff.0);
                }
                Ok(())
            },
        }
    }

    /// Feed one filesystem event to the tree: creations and writes of
    /// recognized files add, removals remove, and a rename removes its old
    /// side or adds its new side with the old path as a match hint.  The
    /// returned diff events describe every structural change made.
    pub fn update(&mut self, event: &Event, config: &DictConfig) -> (result: Vec<UpdateKind>)
        requires
            setups_wf(old(self)@),
        ensures
            setups_wf(final(self)@),
            match event {
                Event::Create { path, is_file, bytes } => {
                    if *is_file && spec_is_html_name(path@) {
                        match bytes {
                            Some(b) => ({
                                let eff = spec_add_effect(
                                    old(self)@,
                                    path@,
                                    None,
                                    b@,
                                    config.track_id_elems(),
                                    config.track_names(),
                                    config.car_names(),
                                );
                                final(self)@ == eff.0 && result.deep_view() == eff.1
                            }),
                            None => final(self)@ == old(self)@ && result.deep_view() == Seq::<
                                UpdateKindV,
                            >::empty(),
                        }
                    } else {
                        final(self)@ == old(self)@ && result.deep_view() == Seq::<
                            UpdateKindV,
                        >::empty()
                    }
                },
                Event::Write { path, is_file, bytes } => {
                    if *is_file && spec_is_html_name(path@) {
                        match bytes {
                            Some(b) => ({
                                let eff = spec_add_effect(
                                    old(self)@,
                                    path@,
                                    None,
                                    b@,
                                    config.track_id_elems(),
                                    config.track_names(),
                                    config.car_names(),
                                );
                                final(self)@ == eff.0 && result.deep_view() == eff.1
                            }),
                            None => final(self)@ == old(self)@ && result.deep_view() == Seq::<
                                UpdateKindV,
                            >::empty(),
                        }
                    } else {
                        final(self)@ == old(self)@ && result.deep_view() == Seq::<
                            UpdateKindV,
                        >::empty()
                    }
                },
                Event::Remove { path } => {
                    let eff = spec_remove(old(self)@, path@);
                    final(self)@ == eff.0 && result.deep_view() == eff.1
                },
                Event::Rename { from, to, to_is_file, bytes } => {
                    let old_html = spec_is_html_name(from@);
                    let new_html = *to_is_file && spec_is_html_name(to@);
                    if old_html && !new_html {
                        let eff = spec_remove(old(self)@, from@);
                        final(self)@ == eff.0 && result.deep_view() == eff.1
                    } else if new_html {
                        match bytes {
                            Some(b) => ({
                                let eff = spec_add_effect(
                                    old(self)@,
                                    to@,
                                    Some(from@),
                                    b@,
                                    config.track_id_elems(),
                                    config.track_names(),
                                    config.car_names(),
                                );
                                final(self)@ == eff.0 && result.deep_view() == eff.1
                            }),
                            None => final(self)@ == old(self)@ && result.deep_view() == Seq::<
                                UpdateKindV,
                            >::empty(),
                        }
                    } else {
                        final(self)@ == old(self)@ && result.deep_view() == Seq::<
                            UpdateKindV,
                        >::empty()
                    }
                },
            },
    {
        let mut result: Vec<UpdateKind> = Vec::new();
        proof {
            assert(result.deep_view() =~= Seq::<UpdateKindV>::empty());
        }
        match event {
            Event::Create { path, is_file, bytes } => {
                if *is_file && is_html(Some(path.as_str())) {
                    self.add(&mut result, path, None, bytes.as_ref(), config);
                    proof {
                        lemma_prefix_events(result.deep_view());
                    }
                }
            },
            Event::Write { path, is_file, bytes } => {
                if *is_file && is_html(Some(path.as_str())) {
                    self.add(&mut result, path, None, bytes.as_ref(), config);
                    proof {
                        lemma_prefix_events(result.deep_view());
                    }
                }
            },
            Event::Remove { path } => {
                self.remove(&mut result, path);
                proof {
                    lemma_prefix_events(result.deep_view());
                }
            },
            Event::Rename { from, to, to_is_file, bytes } => {
                let old_html = is_html(Some(from.as_str()));
                let new_html = *to_is_file && is_html(Some(to.as_str()));
                if old_html && !new_html {
                    self.remove(&mut result, from);
                    proof {
                        lemma_prefix_events(result.deep_view());
                    }
                } else if new_html {
                    self.add(&mut result, to, Some(from), bytes.as_ref(), config);
                    proof {
                        lemma_prefix_events(result.deep_view());
                    }
                }
            },
        }
        result
    }
}

/// Appending to an empty event list yields exactly the appended events.
proof fn lemma_prefix_events(evs: Seq<UpdateKindV>)
    ensures
        Seq::<UpdateKindV>::empty() + evs == evs,
{
    assert(Seq::<UpdateKindV>::empty() + evs =~= evs);
}

} // verus!
verus! {

use crate::str_ext::{
    lemma_human_compare_antisym, lemma_human_compare_eq, lemma_human_compare_trans,
};

/// The human order is transitive on its non-strict form.
pub proof fn lemma_name_le_trans(a: Seq<char>, b: Seq<char>, c: Seq<char>)
    requires
        name_le(a, b),
        name_le(b, c),
    ensures
        name_le(a, c),
{
    lemma_human_compare_eq(a, b);
    lemma_human_compare_eq(b, c);
    if spec_human_compare(a, b) == Ordering::Equal {
        assert(a == b);
    } else if spec_human_compare(b, c) == Ordering::Equal {
        assert(b == c);
    } else {
        lemma_human_compare_trans(a, b, c);
    }
}

/// The insertion position is the boundary of the leading run of names
/// strictly before the inserted one.
pub proof fn lemma_insert_pos_run(b: Seq<SetupInfoV>, name: Seq<char>)
    ensures
        0 <= insert_pos(b, name) <= b.len(),
        forall|m: int|
            0 <= m < insert_pos(b, name) ==> spec_human_compare((#[trigger] b[m]).name, name)
                == Ordering::Less,
        insert_pos(b, name) < b.len() ==> spec_human_compare(b[insert_pos(b, name)].name, name)
            != Ordering::Less,
    decreases b.len(),
{
    if b.len() > 0 && spec_human_compare(b[0].name, name) == Ordering::Less {
        lemma_insert_pos_run(b.skip(1), name);
        let k = insert_pos(b, name);
        assert forall|m: int| 0 <= m < k implies spec_human_compare(
            (#[trigger] b[m]).name,
            name,
        ) == Ordering::Less by {
            if m > 0 {
                assert(b.skip(1)[m - 1] == b[m]);
            }
        }
        if k < b.len() {
            assert(b.skip(1)[k - 1] == b[k]);
        }
    }
}

/// A found track index is in bounds and names the track.
pub proof fn lemma_track_index_found(t: SetupsV, name: Seq<char>, i: int)
    requires
        track_index(t, name) == Some(i),
    ensures
        0 <= i < t.len(),
        t[i].name == name,
        forall|m: int| 0 <= m < i ==> (#[trigger] t[m]).name != name,
    decreases t.len(),
{
    if t.len() > 0 && t[0].name != name {
        lemma_track_index_found(t.skip(1), name, i - 1);
        assert(t.skip(1)[i - 1] == t[i]);
        assert forall|m: int| 0 <= m < i implies (#[trigger] t[m]).name != name by {
            if m > 0 {
                assert(t.skip(1)[m - 1] == t[m]);
            }
        }
    }
}

/// A found car index is in bounds and names the car.
pub proof fn lemma_car_index_found(cars: Seq<CarEntryV>, name: Seq<char>, i: int)
    requires
        car_index(cars, name) == Some(i),
    ensures
        0 <= i < cars.len(),
        cars[i].name == name,
        forall|m: int| 0 <= m < i ==> (#[trigger] cars[m]).name != name,
    decreases cars.len(),
{
    if cars.len() > 0 && cars[0].name != name {
        lemma_car_index_found(cars.skip(1), name, i - 1);
        assert(cars.skip(1)[i - 1] == cars[i]);
        assert forall|m: int| 0 <= m < i implies (#[trigger] cars[m]).name != name by {
            if m > 0 {
                assert(cars.skip(1)[m - 1] == cars[m]);
            }
        }
    }
}

/// Inserting at the computed position keeps a sorted bucket sorted.
pub proof fn lemma_insert_sorted(b: Seq<SetupInfoV>, info: SetupInfoV)
    requires
        sorted_infos(b),
    ensures
        sorted_infos(b.insert(insert_pos(b, info.name), info)),
{
    lemma_insert_pos_run(b, info.name);
    let k = insert_pos(b, info.name);
    let nb = b.insert(k, info);
    assert forall|i: int, j: int| 0 <= i < j < nb.len() implies name_le(
        (#[trigger] nb[i]).name,
        (#[trigger] nb[j]).name,
    ) by {
        if i < k && j < k {
            assert(nb[i] == b[i] && nb[j] == b[j]);
        } else if i < k && j == k {
            assert(nb[i] == b[i]);
            lemma_human_compare_antisym(b[i].name, info.name);
        } else if i < k && j > k {
            assert(nb[i] == b[i] && nb[j] == b[j - 1]);
        } else if i == k && j > k {
            assert(nb[j] == b[j - 1]);
            if k < b.len() {
                // The entry formerly at the position is not before the new
                // name, so the new name is at or before it, and transitivity
                // carries that down the sorted tail.
                lemma_human_compare_antisym(b[k].name, info.name);
                assert(name_le(info.name, b[k].name));
                assert(name_le(b[k].name, b[j - 1].name) || k == j - 1);
                if k < j - 1 {
                    lemma_name_le_trans(info.name, b[k].name, b[j - 1].name);
                }
            }
        } else {
            assert(nb[i] == b[i - 1] && nb[j] == b[j - 1]);
        }
    }
}

/// The sort invariant: adding keeps every bucket of a sorted tree sorted,
/// as long as a replacement (a content refresh, or a rename matched by
/// hint) does not change the entry's display name.  A hint-matched
/// replacement that renames the entry keeps its position instead, and is
/// the one operation outside this law.
pub proof fn lemma_add_preserves_sorted(
    t: SetupsV,
    track: Seq<char>,
    car: Seq<char>,
    info: SetupInfoV,
    hint: Option<Seq<char>>,
)
    requires
        setups_wf(t),
        sorted_tree(t),
        (match track_index(t, track) {
            Some(ti) => match car_index(t[ti].cars, car) {
                Some(ci) => match find_match(t[ti].cars[ci].setups, info.path, hint) {
                    Some(i) => t[ti].cars[ci].setups[i].name == info.name,
                    None => true,
                },
                None => true,
            },
            None => true,
        }),
    ensures
        sorted_tree(spec_add_parsed(t, track, car, info, hint).0),
{
    let t1 = spec_add_parsed(t, track, car, info, hint).0;
    match track_index(t, track) {
        None => {
            assert forall|i: int, j: int|
                0 <= i < t1.len() && 0 <= j < t1[i].cars.len() implies sorted_infos(
                (#[trigger] t1[i].cars[j]).setups,
            ) by {
                if i < t.len() {
                    assert(t1[i] == t[i]);
                } else {
                    assert(t1[i].cars[j].setups =~= seq![info]);
                }
            }
        },
        Some(ti) => {
            lemma_track_index_found(t, track, ti);
            match car_index(t[ti].cars, car) {
                None => {
                    assert forall|i: int, j: int|
                        0 <= i < t1.len() && 0 <= j < t1[i].cars.len() implies sorted_infos(
                        (#[trigger] t1[i].cars[j]).setups,
                    ) by {
                        if i != ti {
                            assert(t1[i] == t[i]);
                        } else if j < t[ti].cars.len() {
                            assert(t1[i].cars[j] == t[ti].cars[j]);
                        } else {
                            assert(t1[i].cars[j].setups =~= seq![info]);
                        }
                    }
                },
                Some(ci) => {
                    lemma_car_index_found(t[ti].cars, car, ci);
                    let b = t[ti].cars[ci].setups;
                    match find_match(b, info.path, hint) {
                        Some(x) => {
                            match path_index(b, info.path) {
                                Some(pi) => {
                                    lemma_path_index_found(b, info.path, pi);
                                },
                                None => {
                                    match hint {
                                        Some(h) => {
                                            lemma_path_index_found(b, h, x);
                                        },
                                        None => {},
                                    }
                                },
                            }
                            let nb = b.update(x, info);
                            assert(sorted_infos(b));
                            assert forall|u: int, v: int| 0 <= u < v < nb.len() implies name_le(
                                (#[trigger] nb[u]).name,
                                (#[trigger] nb[v]).name,
                            ) by {
                                assert(nb[u].name == b[u].name);
                                assert(nb[v].name == b[v].name);
                            }
                            assert forall|i: int, j: int|
                                0 <= i < t1.len() && 0 <= j < t1[i].cars.len() implies sorted_infos(
                                (#[trigger] t1[i].cars[j]).setups,
                            ) by {
                                if i != ti {
                                    assert(t1[i] == t[i]);
                                } else if j != ci {
                                    assert(t1[i].cars[j] == t[ti].cars[j]);
                                } else {
                                    assert(t1[i].cars[j].setups == nb);
                                }
                            }
                        },
                        None => {
                            assert(sorted_infos(b));
                            lemma_insert_sorted(b, info);
                            assert forall|i: int, j: int|
                                0 <= i < t1.len() && 0 <= j < t1[i].cars.len() implies sorted_infos(
                                (#[trigger] t1[i].cars[j]).setups,
                            ) by {
                                if i != ti {
                                    assert(t1[i] == t[i]);
                                } else if j != ci {
                                    assert(t1[i].cars[j] == t[ti].cars[j]);
                                } else {
                                    assert(t1[i].cars[j].setups == b.insert(
                                        insert_pos(b, info.name),
                                        info,
                                    ));
                                }
                            }
                        },
                    }
                },
            }
        },
    }
}

/// The sort invariant: removing keeps every bucket of a sorted tree
/// sorted.
pub proof fn lemma_remove_preserves_sorted(t: SetupsV, path: Seq<char>)
    requires
        sorted_tree(t),
    ensures
        sorted_tree(spec_remove(t, path).0),
{
    let t1 = spec_remove(t, path).0;
    match locate_path(t, path) {
        None => {},
        Some((ti, ci, si)) => {
            lemma_locate_path_found(t, path, ti, ci, si);
            assert forall|i: int, j: int|
                0 <= i < t1.len() && 0 <= j < t1[i].cars.len() implies sorted_infos(
                (#[trigger] t1[i].cars[j]).setups,
            ) by {
                let c = t[ti].cars[ci];
                if c.setups.len() > 1 {
                    if i != ti {
                        assert(t1[i] == t[i]);
                    } else if j != ci {
                        assert(t1[i].cars[j] == t[ti].cars[j]);
                    } else {
                        let b = c.setups;
                        let nb = b.remove(si);
                        assert forall|u: int, v: int| 0 <= u < v < nb.len() implies name_le(
                            (#[trigger] nb[u]).name,
                            (#[trigger] nb[v]).name,
                        ) by {
                            let ou = if u < si {
                                u
                            } else {
                                u + 1
                            };
                            let ov = if v < si {
                                v
                            } else {
                                v + 1
                            };
                            assert(nb[u] == b[ou] && nb[v] == b[ov]);
                            assert(name_le(b[ou].name, b[ov].name));
                        }
                    }
                } else if t[ti].cars.len() > 1 {
                    if i != ti {
                        assert(t1[i] == t[i]);
                    } else {
                        let oj = if j < ci {
                            j
                        } else {
                            j + 1
                        };
                        assert(t1[i].cars[j] == t[ti].cars[oj]);
                    }
                } else {
                    let oi = if i < ti {
                        i
                    } else {
                        i + 1
                    };
                    assert(t1[i] == t[oi]);
                }
            }
        },
    }
}

/// A found location is in bounds and names the path.
pub proof fn lemma_locate_in_cars_found(cars: Seq<CarEntryV>, path: Seq<char>, ci: int, si: int)
    requires
        locate_in_cars(cars, path) == Some((ci, si)),
    ensures
        0 <= ci < cars.len(),
        0 <= si < cars[ci].setups.len(),
        cars[ci].setups[si].path == path,
    decreases cars.len(),
{
    if cars.len() > 0 {
        match path_index(cars[0].setups, path) {
            Some(s0) => {
                lemma_path_index_found(cars[0].setups, path, s0);
            },
            None => {
                lemma_locate_in_cars_found(cars.skip(1), path, ci - 1, si);
                assert(cars.skip(1)[ci - 1] == cars[ci]);
            },
        }
    }
}

/// A found location is in bounds and names the path.
pub proof fn lemma_locate_path_found(t: SetupsV, path: Seq<char>, ti: int, ci: int, si: int)
    requires
        locate_path(t, path) == Some((ti, ci, si)),
    ensures
        0 <= ti < t.len(),
        0 <= ci < t[ti].cars.len(),
        0 <= si < t[ti].cars[ci].setups.len(),
        t[ti].cars[ci].setups[si].path == path,
    decreases t.len(),
{
    if t.len() > 0 {
        match locate_in_cars(t[0].cars, path) {
            Some((c0, s0)) => {
                lemma_locate_in_cars_found(t[0].cars, path, c0, s0);
            },
            None => {
                lemma_locate_path_found(t.skip(1), path, ti - 1, ci, si);
                assert(t.skip(1)[ti - 1] == t[ti]);
            },
        }
    }
}

/// Index correctness after removal: once the entry at `si` leaves its
/// bucket (without emptying it), the entry formerly after it stands at
/// `si`.
pub proof fn lemma_removed_index_shift(t: SetupsV, path: Seq<char>, ti: int, ci: int, si: int)
    requires
        locate_path(t, path) == Some((ti, ci, si)),
        si + 1 < t[ti].cars[ci].setups.len(),
    ensures
        spec_remove(t, path).0[ti].cars[ci].setups[si] == t[ti].cars[ci].setups[si + 1],
{
    lemma_locate_path_found(t, path, ti, ci, si);
}

/// Deleting the only setup of a track's only car cascades exactly
/// `RemovedSetup`, `RemovedCar`, `RemovedTrack`, in that order.
pub proof fn lemma_remove_cascade(t: SetupsV, path: Seq<char>, ti: int)
    requires
        locate_path(t, path) == Some((ti, 0int, 0int)),
        t[ti].cars.len() == 1,
        t[ti].cars[0].setups.len() == 1,
    ensures
        spec_remove(t, path).0 == t.remove(ti),
        spec_remove(t, path).1 == seq![
            UpdateKindV::RemovedSetup(t[ti].name, t[ti].cars[0].name, 0),
            UpdateKindV::RemovedCar(t[ti].name, t[ti].cars[0].name),
            UpdateKindV::RemovedTrack(t[ti].name),
        ],
{
    lemma_locate_path_found(t, path, ti, 0, 0);
    assert(spec_remove(t, path).1 =~= seq![
        UpdateKindV::RemovedSetup(t[ti].name, t[ti].cars[0].name, 0),
        UpdateKindV::RemovedCar(t[ti].name, t[ti].cars[0].name),
        UpdateKindV::RemovedTrack(t[ti].name),
    ]);
}

/// A rename matched by path or hint refreshes the entry in place: the
/// tree keeps its shape and no diff event is emitted.
pub proof fn lemma_matched_add_is_refresh(
    t: SetupsV,
    track: Seq<char>,
    car: Seq<char>,
    info: SetupInfoV,
    hint: Option<Seq<char>>,
    ti: int,
    ci: int,
)
    requires
        track_index(t, track) == Some(ti),
        car_index(t[ti].cars, car) == Some(ci),
        find_match(t[ti].cars[ci].setups, info.path, hint) is Some,
    ensures
        spec_add_parsed(t, track, car, info, hint).1 == Seq::<UpdateKindV>::empty(),
        spec_add_parsed(t, track, car, info, hint).0.len() == t.len(),
{
    lemma_track_index_found(t, track, ti);
    lemma_car_index_found(t[ti].cars, car, ci);
}

/// No path occurs anywhere in the tree.
pub open spec fn no_path_in_tree(t: SetupsV, path: Seq<char>) -> bool {
    forall|ti: int, ci: int|
        0 <= ti < t.len() && 0 <= ci < t[ti].cars.len() ==> path_index(
            (#[trigger] t[ti].cars[ci]).setups,
            path,
        ) is None
}

} // verus!
verus! {

/// Adding a path found nowhere and then removing it restores the tree.
pub proof fn lemma_add_remove_inverse(
    t: SetupsV,
    track: Seq<char>,
    car: Seq<char>,
    info: SetupInfoV,
)
    requires
        setups_wf(t),
        no_path_in_tree(t, info.path),
    ensures
        spec_remove(spec_add_parsed(t, track, car, info, None).0, info.path).0 == t,
{
    let path = info.path;
    let t1 = spec_add_parsed(t, track, car, info, None).0;
    match track_index(t, track) {
        None => {
            let nt = TrackEntryV {
                name: track,
                cars: seq![CarEntryV { name: car, setups: seq![info] }],
            };
            assert(t1 == t.push(nt));
            assert forall|m: int|
                0 <= m < t.len() implies locate_in_cars((#[trigger] t1[m]).cars, path) is None by {
                assert(t1[m] == t[m]);
                lemma_locate_in_cars_none(t[m].cars, path);
            }
            assert(t1[t.len() as int] == nt);
            lemma_path_index_is(nt.cars[0].setups, path, 0);
            lemma_locate_in_cars_is(nt.cars, path, 0, 0);
            lemma_locate_path_is(t1, path, t.len() as int, 0, 0);
            assert(spec_remove(t1, path).0 =~~= t);
        },
        Some(ti) => {
            lemma_track_index_found(t, track, ti);
            let tr = t[ti];
            match car_index(tr.cars, car) {
                None => {
                    let nc = CarEntryV { name: car, setups: seq![info] };
                    assert(t1 == t.update(
                        ti,
                        TrackEntryV { name: tr.name, cars: tr.cars.push(nc) },
                    ));
                    assert forall|m: int|
                        0 <= m < ti implies locate_in_cars(
                        (#[trigger] t1[m]).cars,
                        path,
                    ) is None by {
                        assert(t1[m] == t[m]);
                        lemma_locate_in_cars_none(t[m].cars, path);
                    }
                    assert forall|m: int|
                        0 <= m < tr.cars.len() implies path_index(
                        (#[trigger] t1[ti].cars[m]).setups,
                        path,
                    ) is None by {
                        assert(t1[ti].cars[m] == tr.cars[m]);
                    }
                    lemma_path_index_is(nc.setups, path, 0);
                    lemma_locate_in_cars_is(t1[ti].cars, path, tr.cars.len() as int, 0);
                    lemma_locate_path_is(t1, path, ti, tr.cars.len() as int, 0);
                    assert(track_wf(tr));
                    assert(tr.cars.push(nc).remove(tr.cars.len() as int) =~~= tr.cars);
                    assert(spec_remove(t1, path).0 =~~= t);
                },
                Some(ci) => {
                    lemma_car_index_found(tr.cars, car, ci);
                    let b = tr.cars[ci].setups;
                    assert(path_index(b, path) is None);
                    let k = insert_pos(b, info.name);
                    lemma_insert_pos_run(b, info.name);
                    let nb = b.insert(k, info);
                    assert(t1 == t.update(
                        ti,
                        TrackEntryV {
                            name: tr.name,
                            cars: tr.cars.update(
                                ci,
                                CarEntryV { name: tr.cars[ci].name, setups: nb },
                            ),
                        },
                    ));
                    assert forall|m: int|
                        0 <= m < ti implies locate_in_cars(
                        (#[trigger] t1[m]).cars,
                        path,
                    ) is None by {
                        assert(t1[m] == t[m]);
                        lemma_locate_in_cars_none(t[m].cars, path);
                    }
                    assert forall|m: int|
                        0 <= m < ci implies path_index(
                        (#[trigger] t1[ti].cars[m]).setups,
                        path,
                    ) is None by {
                        assert(t1[ti].cars[m] == tr.cars[m]);
                    }
                    lemma_path_index_none_conv(b, path);
                    assert forall|m: int| 0 <= m < k implies (#[trigger] nb[m]).path != path by {
                        assert(nb[m] == b[m]);
                    }
                    lemma_path_index_is(nb, path, k);
                    lemma_locate_in_cars_is(t1[ti].cars, path, ci, k);
                    lemma_locate_path_is(t1, path, ti, ci, k);
                    assert(car_wf(tr.cars[ci]));
                    assert(nb.len() > 1);
                    assert(nb.remove(k) =~~= b);
                    assert(spec_remove(t1, path).0 =~~= t);
                },
            }
        },
    }
}

/// Adding the same parsed file again refreshes its entry in place: the
/// second add emits no diff event and leaves the tree as the first add
/// left it.
pub proof fn lemma_add_idempotent(t: SetupsV, track: Seq<char>, car: Seq<char>, info: SetupInfoV)
    requires
        setups_wf(t),
        no_path_in_tree(t, info.path),
    ensures
        ({
            let first = spec_add_parsed(t, track, car, info, None);
            let second = spec_add_parsed(first.0, track, car, info, None);
            second.0 == first.0 && second.1 == Seq::<UpdateKindV>::empty()
        }),
{
    let path = info.path;
    let t1 = spec_add_parsed(t, track, car, info, None).0;
    match track_index(t, track) {
        None => {
            let nt = TrackEntryV {
                name: track,
                cars: seq![CarEntryV { name: car, setups: seq![info] }],
            };
            assert(t1 == t.push(nt));
            lemma_track_index_none_conv(t, track);
            assert forall|m: int| 0 <= m < t.len() implies (#[trigger] t1[m]).name != track by {
                assert(t1[m] == t[m]);
            }
            lemma_track_index_is(t1, track, t.len() as int);
            lemma_car_index_is(nt.cars, car, 0);
            lemma_path_index_is(nt.cars[0].setups, path, 0);
            let second = spec_add_parsed(t1, track, car, info, None);
            assert(nt.cars[0].setups.update(0, info) =~~= nt.cars[0].setups);
            assert(nt.cars.update(0, nt.cars[0]) =~~= nt.cars);
            assert(second.0 =~~= t1);
        },
        Some(ti) => {
            lemma_track_index_found(t, track, ti);
            let tr = t[ti];
            match car_index(tr.cars, car) {
                None => {
                    let nc = CarEntryV { name: car, setups: seq![info] };
                    assert(t1 == t.update(
                        ti,
                        TrackEntryV { name: tr.name, cars: tr.cars.push(nc) },
                    ));
                    assert forall|m: int|
                        0 <= m < ti implies (#[trigger] t1[m]).name != track by {
                        assert(t1[m] == t[m]);
                    }
                    lemma_track_index_is(t1, track, ti);
                    lemma_car_index_none_conv(tr.cars, car);
                    assert forall|m: int|
                        0 <= m < tr.cars.len() implies (#[trigger] t1[ti].cars[m]).name
                            != car by {
                        assert(t1[ti].cars[m] == tr.cars[m]);
                    }
                    lemma_car_index_is(t1[ti].cars, car, tr.cars.len() as int);
                    lemma_path_index_is(nc.setups, path, 0);
                    let second = spec_add_parsed(t1, track, car, info, None);
                    assert(nc.setups.update(0, info) =~~= nc.setups);
                    assert(t1[ti].cars.update(tr.cars.len() as int, nc) =~~= t1[ti].cars);
                    assert(second.0 =~~= t1);
                },
                Some(ci) => {
                    lemma_car_index_found(tr.cars, car, ci);
                    let b = tr.cars[ci].setups;
                    assert(path_index(b, path) is None);
                    let k = insert_pos(b, info.name);
                    lemma_insert_pos_run(b, info.name);
                    let nb = b.insert(k, info);
                    assert(t1 == t.update(
                        ti,
                        TrackEntryV {
                            name: tr.name,
                            cars: tr.cars.update(
                                ci,
                                CarEntryV { name: tr.cars[ci].name, setups: nb },
                            ),
                        },
                    ));
                    assert forall|m: int|
                        0 <= m < ti implies (#[trigger] t1[m]).name != track by {
                        assert(t1[m] == t[m]);
                    }
                    lemma_track_index_is(t1, track, ti);
                    assert forall|m: int|
                        0 <= m < ci implies (#[trigger] t1[ti].cars[m]).name != car by {
                        assert(t1[ti].cars[m] == tr.cars[m]);
                    }
                    lemma_car_index_is(t1[ti].cars, car, ci);
                    lemma_path_index_none_conv(b, path);
                    assert forall|m: int| 0 <= m < k implies (#[trigger] nb[m]).path != path by {
                        assert(nb[m] == b[m]);
                    }
                    lemma_path_index_is(nb, path, k);
                    let second = spec_add_parsed(t1, track, car, info, None);
                    assert(nb.update(k, info) =~~= nb);
                    assert(t1[ti].cars.update(ci, t1[ti].cars[ci]) =~~= t1[ti].cars);
                    assert(second.0 =~~= t1);
                },
            }
        },
    }
}

} // verus!
verus! {

/// The non-emptiness invariant, read off the well-formedness predicate:
/// no track maps to an empty car map, and no car to an empty bucket.
pub proof fn lemma_wf_no_empty(t: SetupsV)
    requires
        setups_wf(t),
    ensures
        forall|ti: int| 0 <= ti < t.len() ==> (#[trigger] t[ti]).cars.len() > 0,
        forall|ti: int, ci: int|
            0 <= ti < t.len() && 0 <= ci < t[ti].cars.len() ==> (#[trigger] t[ti].cars[ci]).setups.len() > 0,
{
    assert forall|ti: int, ci: int|
        0 <= ti < t.len() && 0 <= ci < t[ti].cars.len() implies (
    #[trigger] t[ti].cars[ci]).setups.len() > 0 by {
        assert(track_wf(t[ti]));
        assert(car_wf(t[ti].cars[ci]));
    }
}

} // verus!
verus! {

/// Adding the same unchanged bytes twice emits a diff event only the
/// first time: the second add finds the path in place and refreshes it,
/// changing nothing and emitting nothing.  Flattening and parsing are
/// functions of the bytes, so the two adds see the same parsed outcome.
pub proof fn lemma_add_effect_idempotent(
    t: SetupsV,
    path: Seq<char>,
    bytes: Seq<u8>,
    track_ids: Set<Seq<u8>>,
    track_names: Seq<(Seq<char>, Seq<char>)>,
    car_names: Seq<(Seq<char>, Seq<char>)>,
)
    requires
        setups_wf(t),
        no_path_in_tree(t, path),
    ensures
        ({
            let first = spec_add_effect(t, path, None, bytes, track_ids, track_names, car_names);
            let second = spec_add_effect(
                first.0,
                path,
                None,
                bytes,
                track_ids,
                track_names,
                car_names,
            );
            second.0 == first.0 && second.1 == Seq::<UpdateKindV>::empty()
        }),
{
    match spec_parse_doc(doc_of(latin1_of(bytes)), track_ids, track_names, car_names) {
        Ok(p) => {
            let info = SetupInfoV { setup: p.2, name: spec_file_stem(path), path: path };
            lemma_add_idempotent(t, p.0, p.1, info);
        },
        Err(_) => {},
    }
}

/// A rename whose parsed outcome lands in the bucket already holding the
/// old path refreshes that entry in place: no diff event is emitted.
pub proof fn lemma_rename_refresh_effect(
    t: SetupsV,
    path: Seq<char>,
    hint: Option<Seq<char>>,
    bytes: Seq<u8>,
    track_ids: Set<Seq<u8>>,
    track_names: Seq<(Seq<char>, Seq<char>)>,
    car_names: Seq<(Seq<char>, Seq<char>)>,
    ti: int,
    ci: int,
)
    requires
        ({
            match spec_parse_doc(doc_of(latin1_of(bytes)), track_ids, track_names, car_names) {
                Ok(p) => track_index(t, p.0) == Some(ti) && car_index(t[ti].cars, p.1) == Some(ci)
                    && find_match(t[ti].cars[ci].setups, path, hint) is Some,
                Err(_) => false,
            }
        }),
    ensures
        spec_add_effect(t, path, hint, bytes, track_ids, track_names, car_names).1 == Seq::<
            UpdateKindV,
        >::empty(),
        spec_add_effect(t, path, hint, bytes, track_ids, track_names, car_names).0.len() == t.len(),
{
    match spec_parse_doc(doc_of(latin1_of(bytes)), track_ids, track_names, car_names) {
        Ok(p) => {
            let info = SetupInfoV { setup: p.2, name: spec_file_stem(path), path: path };
            lemma_matched_add_is_refresh(t, p.0, p.1, info, hint, ti, ci);
        },
        Err(_) => {},
    }
}

} // verus!
