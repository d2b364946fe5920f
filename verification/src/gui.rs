//! The consumer side of the diff-event stream: a selection of setup
//! indices kept valid across tree changes, and the plain message records
//! that error and warning displays carry.

use vstd::prelude::*;

verus! {

use crate::setup::{UpdateKind, UpdateKindV};

/// A selection over one `(track, car)` bucket: the chosen track and car
/// names and the chosen setup indices, in selection order.
pub struct Selection {
    selected_track: Option<String>,
    selected_car: Option<String>,
    selected_setups: Vec<usize>,
}

/// Ghost image of a [`Selection`].
#[verifier::ext_equal]
pub ghost struct SelectionV {
    pub track: Option<Seq<char>>,
    pub car: Option<Seq<char>>,
    pub setups: Seq<usize>,
}

impl View for Selection {
    type V = SelectionV;

    closed spec fn view(&self) -> SelectionV {
        SelectionV {
            track: match &self.selected_track {
                Some(t) => Some(t@),
                None => None,
            },
            car: match &self.selected_car {
                Some(c) => Some(c@),
                None => None,
            },
            setups: self.selected_setups@,
        }
    }
}

/// The selected indices after an insertion at `i`: indices at or past the
/// insertion point move up by one.
pub open spec fn spec_shift_up(s: Seq<usize>, i: int) -> Seq<usize> {
    s.map(|m: int, v: usize| if v >= i { (v + 1) as usize } else { v })
}

/// The selected indices after a removal at `i`: the removed index leaves
/// the selection, and indices past it move down by one.
pub open spec fn spec_drop_shift(s: Seq<usize>, i: int) -> Seq<usize>
    decreases s.len(),
{
    if s.len() == 0 {
        Seq::empty()
    } else {
        let tail = spec_drop_shift(s.skip(1), i);
        if s[0] == i {
            tail
        } else if s[0] > i {
            seq![(s[0] - 1) as usize] + tail
        } else {
            seq![s[0]] + tail
        }
    }
}

/// What one diff event does to a selection.
pub open spec fn spec_apply_update(sel: SelectionV, u: UpdateKindV) -> SelectionV {
    match u {
        UpdateKindV::AddedSetup(t, c, i) => {
            if sel.track == Some(t) && sel.car == Some(c) {
                SelectionV { track: sel.track, car: sel.car, setups: spec_shift_up(sel.setups, i) }
            } else {
                sel
            }
        },
        UpdateKindV::RemovedSetup(t, c, i) => {
            if sel.track == Some(t) && sel.car == Some(c) {
                SelectionV {
                    track: sel.track,
                    car: sel.car,
                    setups: spec_drop_shift(sel.setups, i),
                }
            } else {
                sel
            }
        },
        UpdateKindV::RemovedCar(t, c) => {
            if sel.track == Some(t) && sel.car == Some(c) {
                SelectionV { track: sel.track, car: None, setups: Seq::empty() }
            } else {
                sel
            }
        },
        UpdateKindV::RemovedTrack(t) => {
            if sel.track == Some(t) {
                SelectionV { track: None, car: None, setups: Seq::empty() }
            } else {
                sel
            }
        },
    }
}

impl Selection {
    /// An empty selection.
    pub fn new() -> (s: Selection)
        ensures
            s@ == (SelectionV { track: None, car: None, setups: Seq::empty() }),
    {
        let s = Selection {
            selected_track: None,
            selected_car: None,
            selected_setups: Vec::new(),
        };
        proof {
            assert(s@ =~~= (SelectionV { track: None, car: None, setups: Seq::empty() }));
        }
        s
    }

    /// The selected track name.
    pub fn track(&self) -> (r: &Option<String>)
        ensures
            r matches Some(t) ==> self@.track == Some(t@),
            r is None ==> self@.track is None,
    {
        &self.selected_track
    }

    /// The selected car name.
    pub fn car(&self) -> (r: &Option<String>)
        ensures
            r matches Some(c) ==> self@.car == Some(c@),
            r is None ==> self@.car is None,
    {
        &self.selected_car
    }

    /// The selected setup indices.
    pub fn setups(&self) -> (r: &Vec<usize>)
        ensures
            r@ == self@.setups,
    {
        &self.selected_setups
    }

    /// Select a track, clearing the dependent car and setup choices.
    pub fn select_track(&mut self, track: String)
        ensures
            final(self)@ == (SelectionV {
                track: Some(track@),
                car: None,
                setups: Seq::empty(),
            }),
    {
        self.selected_track = Some(track);
        self.selected_car = None;
        self.selected_setups = Vec::new();
        proof {
            assert(self@.setups =~= Seq::<usize>::empty());
        }
    }

    /// Select a car under the selected track, clearing the setup choices.
    pub fn select_car(&mut self, car: String)
        ensures
            final(self)@ == (SelectionV {
                track: old(self)@.track,
                car: Some(car@),
                setups: Seq::empty(),
            }),
    {
        self.selected_car = Some(car);
        self.selected_setups = Vec::new();
        proof {
            assert(self@.setups =~= Seq::<usize>::empty());
        }
    }

    /// Record one more selected setup index.
    pub fn push_setup(&mut self, i: usize)
        ensures
            final(self)@ == (SelectionV {
                track: old(self)@.track,
                car: old(self)@.car,
                setups: old(self)@.setups.push(i),
            }),
    {
        self.selected_setups.push(i);
    }

    /// Keep the selection valid across one diff event: an insertion moves
    /// the indices at or past it up, a removal drops its index and moves
    /// later ones down, and the removal of the selected car or track
    /// clears the dependent choices.
    pub fn handle_update(&mut self, update: &UpdateKind)
        requires
            forall|m: int|
                0 <= m < old(self)@.setups.len() ==> (#[trigger] old(self)@.setups[m])
                    < usize::MAX,
        ensures
            final(self)@ == spec_apply_update(old(self)@, update@),
    {
        let ghost sel0 = self@;
        match update {
            UpdateKind::AddedSetup(t, c, i) => {
                if self.names_match(t, c) {
                    let mut out: Vec<usize> = Vec::new();
                    let mut k: usize = 0;
                    while k < self.selected_setups.len()
                        invariant
                            0 <= k <= self.selected_setups@.len(),
                            self@ == sel0,
                            forall|m: int|
                                0 <= m < sel0.setups.len() ==> (#[trigger] sel0.setups[m])
                                    < usize::MAX,
                            out@.len() == k,
                            forall|m: int|
                                0 <= m < k ==> #[trigger] out@[m] == (if sel0.setups[m] >= *i
                                    as int {
                                    (sel0.setups[m] + 1) as usize
                                } else {
                                    sel0.setups[m]
                                }),
                        decreases self.selected_setups@.len() - k,
                    {
                        let v = self.selected_setups[k];
                        proof {
                            assert(v == sel0.setups[k as int]);
                        }
                        if v >= *i {
                            out.push(v + 1);
                        } else {
                            out.push(v);
                        }
                        k = k + 1;
                    }
                    self.selected_setups = out;
                    proof {
                        assert(self@.setups =~= spec_shift_up(sel0.setups, *i as int));
                        assert(self@ =~~= spec_apply_update(sel0, update@));
                    }
                } else {
                    proof {
                        assert(self@ =~~= spec_apply_update(sel0, update@));
                    }
                }
            },
            UpdateKind::RemovedSetup(t, c, i) => {
                if self.names_match(t, c) {
                    let mut out: Vec<usize> = Vec::new();
                    let mut k: usize = 0;
                    let ghost s = sel0.setups;
                    proof {
                        assert(s.skip(0) =~= s);
                    }
                    while k < self.selected_setups.len()
                        invariant
                            0 <= k <= self.selected_setups@.len(),
                            self@ == sel0,
                            s == sel0.setups,
                            out@ + spec_drop_shift(s.skip(k as int), *i as int) == spec_drop_shift(
                                s,
                                *i as int,
                            ),
                        decreases self.selected_setups@.len() - k,
                    {
                        proof {
                            assert(s.skip(k as int)[0] == s[k as int]);
                            assert(s.skip(k + 1) =~= s.skip(k as int).skip(1));
                        }
                        let v = self.selected_setups[k];
                        let ghost out0 = out@;
                        if v == *i {
                        } else if v > *i {
                            out.push(v - 1);
                            proof {
                                assert(out@ =~= out0 + seq![(s[k as int] - 1) as usize]);
                                assert((out0 + seq![(s[k as int] - 1) as usize]) + spec_drop_shift(
                                    s.skip(k + 1),
                                    *i as int,
                                ) =~= out0 + (seq![(s[k as int] - 1) as usize] + spec_drop_shift(
                                    s.skip(k + 1),
                                    *i as int,
                                )));
                            }
                        } else {
                            out.push(v);
                            proof {
                                assert(out@ =~= out0 + seq![s[k as int]]);
                                assert((out0 + seq![s[k as int]]) + spec_drop_shift(
                                    s.skip(k + 1),
                                    *i as int,
                                ) =~= out0 + (seq![s[k as int]] + spec_drop_shift(
                                    s.skip(k + 1),
                                    *i as int,
                                )));
                            }
                        }
                        k = k + 1;
                    }
                    proof {
                        assert(s.skip(s.len() as int) =~= Seq::<usize>::empty());
                        assert(out@ + Seq::<usize>::empty() =~= out@);
                    }
                    self.selected_setups = out;
                    proof {
                        assert(self@ =~~= spec_apply_update(sel0, update@));
                    }
                } else {
                    proof {
                        assert(self@ =~~= spec_apply_update(sel0, update@));
                    }
                }
            },
            UpdateKind::RemovedCar(t, c) => {
                if self.names_match(t, c) {
                    self.selected_car = None;
                    self.selected_setups = Vec::new();
                    proof {
                        assert(self@.setups =~= Seq::<usize>::empty());
                        assert(self@ =~~= spec_apply_update(sel0, update@));
                    }
                } else {
                    proof {
                        assert(self@ =~~= spec_apply_update(sel0, update@));
                    }
                }
            },
            UpdateKind::RemovedTrack(t) => {
                let tm = match &self.selected_track {
                    Some(st) => crate::text::str_eq(st.as_str(), t.as_str()),
                    None => false,
                };
                if tm {
                    self.selected_track = None;
                    self.selected_car = None;
                    self.selected_setups = Vec::new();
                    proof {
                        assert(self@.setups =~= Seq::<usize>::empty());
                        assert(self@ =~~= spec_apply_update(sel0, update@));
                    }
                } else {
                    proof {
                        assert(self@ =~~= spec_apply_update(sel0, update@));
                    }
                }
            },
        }
    }

    /// Whether the selection names exactly this track and car.
    fn names_match(&self, t: &String, c: &String) -> (b: bool)
        ensures
            b == (self@.track == Some(t@) && self@.car == Some(c@)),
    {
        let tm = match &self.selected_track {
            Some(st) => crate::text::str_eq(st.as_str(), t.as_str()),
            None => false,
        };
        let cm = match &self.selected_car {
            Some(sc) => crate::text::str_eq(sc.as_str(), c.as_str()),
            None => false,
        };
        tm && cm
    }
}

/// A button of the error window: its label.  The action a button performs
/// belongs to the embedding user interface.
pub struct ErrorButton {
    label: String,
}

impl ErrorButton {
    /// Create a button descriptor.
    pub fn new(label: String) -> (r: ErrorButton)
        ensures
            r.label_view() == label@,
    {
        ErrorButton { label }
    }

    /// The button's label.
    pub closed spec fn label_view(&self) -> Seq<char> {
        self.label@
    }

    /// The label to show on the button.
    pub fn label(&self) -> (r: &String)
        ensures
            r@ == self.label_view(),
    {
        &self.label
    }
}

/// An error to show to the user, with the choices offered to handle it.
pub struct ShowError {
    error: String,
    context: String,
    buttons: (ErrorButton, ErrorButton),
}

impl ShowError {
    /// Create an error record.
    pub fn new(error: String, context: String, buttons: (ErrorButton, ErrorButton)) -> (r:
        ShowError)
        ensures
            r.error_view() == error@,
            r.context_view() == context@,
    {
        ShowError { error, context, buttons }
    }

    pub closed spec fn error_view(&self) -> Seq<char> {
        self.error@
    }

    pub closed spec fn context_view(&self) -> Seq<char> {
        self.context@
    }

    /// The error message.
    pub fn error(&self) -> (r: &String)
        ensures
            r@ == self.error_view(),
    {
        &self.error
    }

    /// The extra context shown with the error.
    pub fn context(&self) -> (r: &String)
        ensures
            r@ == self.context_view(),
    {
        &self.context
    }

    /// The two buttons offered with the error.
    pub fn buttons(&self) -> &(ErrorButton, ErrorButton) {
        &self.buttons
    }
}

/// A warning to show to the user.
pub struct ShowWarning {
    warning: String,
    context: String,
}

impl ShowWarning {
    /// Create a warning record.
    pub fn new(warning: String, context: String) -> (r: ShowWarning)
        ensures
            r.warning_view() == warning@,
            r.context_view() == context@,
    {
        ShowWarning { warning, context }
    }

    pub closed spec fn warning_view(&self) -> Seq<char> {
        self.warning@
    }

    pub closed spec fn context_view(&self) -> Seq<char> {
        self.context@
    }

    /// The warning message.
    pub fn warning(&self) -> (r: &String)
        ensures
            r@ == self.warning_view(),
    {
        &self.warning
    }

    /// The extra context shown with the warning.
    pub fn context(&self) -> (r: &String)
        ensures
            r@ == self.context_view(),
    {
        &self.context
    }
}

} // verus!
