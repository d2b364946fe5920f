//! The document parser: from the flattened markup of one setup export to
//! the structured `Setup` record, with the resolver applied to the track
//! and car identifiers found in the document header.

use vstd::prelude::*;

verus! {

use crate::config::{DictConfig, spec_resolve_car, spec_resolve_track};
use crate::markup::{SetupDoc, SetupDocV, SibNode, SibNodeV, RawHeadingV};
use crate::str_ext::{chars_of, lower_of, spec_capitalize_words, string_from_chars, capitalize_words, subvec};
use crate::text::{
    find_char, find_char_from, find_sub, find_sub_in, lines_of, spec_lines, spec_starts_with,
    spec_ends_with, spec_trim, spec_underscored, starts_with_chars, ends_with_chars, trim_chars,
    underscored,
};

/// The view of a property group: property names with their value lists,
/// in insertion order, names unique.
pub type PropsV = Seq<(Seq<char>, Seq<Seq<char>>)>;

/// The view of a whole setup: group names with their properties, in
/// insertion order, names unique.
pub type SetupV = Seq<(Seq<char>, PropsV)>;

/// Position of the property named `name`, if any.
pub open spec fn props_index(m: PropsV, name: Seq<char>) -> Option<int>
    decreases m.len(),
{
    if m.len() == 0 {
        None
    } else if m[0].0 == name {
        Some(0)
    } else {
        match props_index(m.skip(1), name) {
            Some(i) => Some(i + 1),
            None => None,
        }
    }
}

/// The value list of the property named `name`, if any.
pub open spec fn props_get(m: PropsV, name: Seq<char>) -> Option<Seq<Seq<char>>> {
    match props_index(m, name) {
        Some(i) => Some(m[i].1),
        None => None,
    }
}

/// Append one value under `name`: an existing property grows its value
/// list, a new property goes to the end.
pub open spec fn props_append(m: PropsV, name: Seq<char>, value: Seq<char>) -> PropsV {
    match props_index(m, name) {
        Some(i) => m.update(i, (name, m[i].1.push(value))),
        None => m.push((name, seq![value])),
    }
}

/// Append a run of buffered values under `name`, first to last.
pub open spec fn flush_values(m: PropsV, name: Seq<char>, vs: Seq<Seq<char>>) -> PropsV
    decreases vs.len(),
{
    if vs.len() == 0 {
        m
    } else {
        flush_values(props_append(m, name, vs[0]), name, vs.skip(1))
    }
}

/// Flush buffered values, but only once a property name exists.
pub open spec fn flush_props(m: PropsV, name: Seq<char>, vs: Seq<Seq<char>>) -> PropsV {
    if name.len() == 0 {
        m
    } else {
        flush_values(m, name, vs)
    }
}

/// The sibling scan of one property group.
///
/// A text node ending in `:` starts a new property name, flushing the
/// values buffered for the previous name; any other text node buffers a
/// trimmed value.  A non-break element buffers its trimmed text as a value,
/// but ends the scan if no name has been established yet.  A line break
/// directly after another line break ends the scan.
pub open spec fn scan_props(
    nodes: Seq<SibNodeV>,
    last_br: bool,
    name: Seq<char>,
    values: Seq<Seq<char>>,
    m: PropsV,
) -> PropsV
    decreases nodes.len(),
{
    if nodes.len() == 0 {
        flush_props(m, name, values)
    } else {
        match nodes[0] {
            SibNodeV::Element { is_br, text } => {
                if is_br {
                    if last_br {
                        flush_props(m, name, values)
                    } else {
                        scan_props(nodes.skip(1), true, name, values, m)
                    }
                } else {
                    if name.len() == 0 {
                        flush_props(m, name, values)
                    } else {
                        scan_props(nodes.skip(1), false, name, values.push(spec_trim(text)), m)
                    }
                }
            },
            SibNodeV::Text { text } => {
                let t = spec_trim(text);
                if t.len() > 0 && t.last() == ':' {
                    let m2 = flush_props(m, name, values);
                    let values2 = if name.len() == 0 {
                        values
                    } else {
                        Seq::<Seq<char>>::empty()
                    };
                    scan_props(nodes.skip(1), last_br, t.drop_last(), values2, m2)
                } else {
                    scan_props(nodes.skip(1), last_br, name, values.push(t), m)
                }
            },
        }
    }
}

/// The properties parsed from the siblings of one heading.
pub open spec fn spec_get_properties(nodes: Seq<SibNodeV>) -> PropsV {
    scan_props(nodes, false, Seq::empty(), Seq::empty(), Seq::empty())
}

/// Position of the group named `name`, if any.
pub open spec fn setup_index(s: SetupV, name: Seq<char>) -> Option<int>
    decreases s.len(),
{
    if s.len() == 0 {
        None
    } else if s[0].0 == name {
        Some(0)
    } else {
        match setup_index(s.skip(1), name) {
            Some(i) => Some(i + 1),
            None => None,
        }
    }
}

/// The properties of the group named `name`, if any.
pub open spec fn setup_get(s: SetupV, name: Seq<char>) -> Option<PropsV> {
    match setup_index(s, name) {
        Some(i) => Some(s[i].1),
        None => None,
    }
}

/// `s` with every colon removed.
pub open spec fn strip_colons(s: Seq<char>) -> Seq<char>
    decreases s.len(),
{
    if s.len() == 0 {
        Seq::empty()
    } else if s[0] == ':' {
        strip_colons(s.skip(1))
    } else {
        seq![s[0]] + strip_colons(s.skip(1))
    }
}

/// A heading at which the group scan stops: its lowercased text starts
/// with `notes` or `driver aids`.
pub open spec fn spec_group_stop(text: Seq<char>) -> bool {
    spec_starts_with(lower_of(text), "notes"@) || spec_starts_with(lower_of(text), "driver aids"@)
}

/// A property group whose keys mark a physical tire corner: some key
/// starts with `Tread`, and no key names the chassis-corner properties.
pub open spec fn spec_props_tire_like(m: PropsV) -> bool {
    (exists|i: int| 0 <= i < m.len() && spec_starts_with((#[trigger] m[i]).0, "Tread"@)) && !(exists|
        i: int,
    |
        0 <= i < m.len() && ((#[trigger] m[i]).0 == "Camber"@ || m[i].0 == "Caster"@ || m[i].0
            == "Ride height"@ || m[i].0 == "Corner weight"@ || spec_starts_with(
            m[i].0,
            "Spring"@,
        )))
}

/// The final name of a group: the tire heuristic appends ` Tire` to the
/// pending name where it applies.
pub open spec fn spec_group_final_name(name: Seq<char>, props: PropsV) -> Seq<char> {
    if spec_props_tire_like(props) && !spec_ends_with(name, "Tire"@) {
        name + " Tire"@
    } else {
        name
    }
}

/// The group scan: each heading before the first stop heading contributes
/// one property group; a heading with no parsed properties only leaves its
/// name pending for the next one; a repeated group name rejects the
/// document.
pub open spec fn scan_groups(groups: Seq<RawHeadingV>, pending: Seq<char>, acc: SetupV) -> Result<
    SetupV,
    Seq<char>,
>
    decreases groups.len(),
{
    if groups.len() == 0 {
        Ok(acc)
    } else {
        let g = groups[0];
        if spec_group_stop(g.text) {
            Ok(acc)
        } else {
            let props = spec_get_properties(g.nodes);
            let name1 = if pending.len() == 0 {
                strip_colons(spec_capitalize_words(g.text))
            } else {
                pending
            };
            if props.len() == 0 {
                scan_groups(groups.skip(1), name1, acc)
            } else {
                let name2 = spec_group_final_name(name1, props);
                if setup_index(acc, name2) is Some {
                    Err(name2)
                } else {
                    scan_groups(groups.skip(1), Seq::empty(), acc.push((name2, props)))
                }
            }
        }
    }
}

/// Parse errors, each scoped to one document.
#[derive(Debug)]
pub enum Error {
    /// The file could not be read; the path and a description.
    Io(String, String),
    /// The document has no centered page header.
    MissingHeader,
    /// The header names no car.
    MissingCar,
    /// The header names no track.
    MissingTrack,
    /// A property group name occurs twice.
    DuplicatePropGroup(String),
}

/// Ghost image of an [`Error`].
pub ghost enum ErrorV {
    Io(Seq<char>, Seq<char>),
    MissingHeader,
    MissingCar,
    MissingTrack,
    DuplicatePropGroup(Seq<char>),
}

impl View for Error {
    type V = ErrorV;

    open spec fn view(&self) -> ErrorV {
        match self {
            Error::Io(p, m) => ErrorV::Io(p@, m@),
            Error::MissingHeader => ErrorV::MissingHeader,
            Error::MissingCar => ErrorV::MissingCar,
            Error::MissingTrack => ErrorV::MissingTrack,
            Error::DuplicatePropGroup(n) => ErrorV::DuplicatePropGroup(n@),
        }
    }
}

/// The raw car id of a header's car line: the segment before ` setup: `
/// (or the whole trimmed line), spaces underscored.
pub open spec fn spec_car_id(line: Seq<char>) -> Seq<char> {
    let t = spec_trim(line);
    let seg = match find_sub(t, " setup: "@) {
        Some(i) => t.take(i),
        None => t,
    };
    spec_underscored(seg)
}

/// The raw track token of a header's track line: everything after the
/// first space, trimmed, spaces underscored; absent when the line has no
/// space.
pub open spec fn spec_track_token(line: Seq<char>) -> Option<Seq<char>> {
    match find_char(line, ' ') {
        Some(i) => Some(spec_underscored(spec_trim(line.skip(i + 1)))),
        None => None,
    }
}

/// What parsing one flattened document yields: the resolved track and car
/// display names and the structured setup, or the error that rejects the
/// document.
pub open spec fn spec_parse_doc(
    doc: SetupDocV,
    track_ids: Set<Seq<u8>>,
    track_names: Seq<(Seq<char>, Seq<char>)>,
    car_names: Seq<(Seq<char>, Seq<char>)>,
) -> Result<(Seq<char>, Seq<char>, SetupV), ErrorV> {
    match doc.header {
        None => Err(ErrorV::MissingHeader),
        Some(text) => {
            let ls = spec_lines(text);
            if ls.len() < 2 {
                Err(ErrorV::MissingCar)
            } else {
                let car_id = spec_car_id(ls[1]);
                if ls.len() < 3 {
                    Err(ErrorV::MissingTrack)
                } else {
                    match spec_track_token(ls[2]) {
                        None => Err(ErrorV::MissingTrack),
                        Some(token) => {
                            let car_name = spec_resolve_car(car_names, car_id);
                            let track_name = spec_resolve_track(track_ids, track_names, token);
                            match scan_groups(doc.groups, Seq::empty(), Seq::empty()) {
                                Ok(s) => Ok((track_name, car_name, s)),
                                Err(n) => Err(ErrorV::DuplicatePropGroup(n)),
                            }
                        },
                    }
                }
            }
        },
    }
}

} // verus!
verus! {

/// One property group: an insertion-ordered association from property
/// name to the ordered list of its values, names unique.
pub struct Props {
    entries: Vec<(String, Vec<String>)>,
}

impl View for Props {
    type V = PropsV;

    closed spec fn view(&self) -> PropsV {
        self.entries.deep_view()
    }
}

impl DeepView for Props {
    type V = PropsV;

    open spec fn deep_view(&self) -> PropsV {
        self.view()
    }
}

/// Characterization of `props_index` when the name occurs.
pub proof fn lemma_props_index_is(m: PropsV, name: Seq<char>, i: int)
    requires
        0 <= i < m.len(),
        forall|k: int| 0 <= k < i ==> (#[trigger] m[k]).0 != name,
        m[i].0 == name,
    ensures
        props_index(m, name) == Some(i),
    decreases i,
{
    if i > 0 {
        assert(forall|k: int| 0 <= k < i - 1 ==> #[trigger] m.skip(1)[k] == m[k + 1]);
        lemma_props_index_is(m.skip(1), name, i - 1);
    }
}

/// Characterization of `props_index` when the name is absent.
pub proof fn lemma_props_index_none(m: PropsV, name: Seq<char>)
    requires
        forall|k: int| 0 <= k < m.len() ==> (#[trigger] m[k]).0 != name,
    ensures
        props_index(m, name) == None::<int>,
    decreases m.len(),
{
    if m.len() > 0 {
        assert(forall|k: int| 0 <= k < m.len() - 1 ==> #[trigger] m.skip(1)[k] == m[k + 1]);
        lemma_props_index_none(m.skip(1), name);
    }
}

impl Props {
    /// Names are pairwise distinct.
    pub open spec fn wf(&self) -> bool {
        forall|i: int, j: int|
            0 <= i < j < self@.len() ==> (#[trigger] self@[i]).0 != (#[trigger] self@[j]).0
    }

    /// An empty group.
    pub fn new() -> (p: Props)
        ensures
            p@ == Seq::<(Seq<char>, Seq<Seq<char>>)>::empty(),
            p.wf(),
    {
        let p = Props { entries: Vec::new() };
        proof {
            assert(p@ =~= Seq::<(Seq<char>, Seq<Seq<char>>)>::empty());
        }
        p
    }

    /// Number of distinct property names.
    pub fn len(&self) -> (n: usize)
        ensures
            n == self@.len(),
    {
        self.entries.len()
    }

    /// The property name at a position.
    pub fn key_at(&self, i: usize) -> (r: &String)
        requires
            i < self@.len(),
        ensures
            r@ == self@[i as int].0,
    {
        proof {
            assert(self@[i as int] == (
                self.entries@[i as int].0@,
                self.entries@[i as int].1.deep_view(),
            ));
        }
        &self.entries[i].0
    }

    /// The values stored at a position.
    pub fn values_at(&self, i: usize) -> (r: &Vec<String>)
        requires
            i < self@.len(),
        ensures
            r.deep_view() == self@[i as int].1,
    {
        proof {
            assert(self@[i as int] == (
                self.entries@[i as int].0@,
                self.entries@[i as int].1.deep_view(),
            ));
        }
        &self.entries[i].1
    }

    /// Append one value under `name`.
    pub fn append(&mut self, name: String, value: String)
        requires
            old(self).wf(),
        ensures
            final(self).wf(),
            final(self)@ == props_append(old(self)@, name@, value@),
    {
        let ghost orig = self@;
        let mut i: usize = 0;
        loop
            invariant
                0 <= i <= self.entries.len(),
                self@ == orig,
                self.wf(),
                forall|k: int| 0 <= k < i ==> (#[trigger] orig[k]).0 != name@,
            ensures
                0 <= i <= self@.len(),
                self@ == orig,
                forall|k: int| 0 <= k < i ==> (#[trigger] orig[k]).0 != name@,
                i < orig.len() ==> orig[i as int].0 == name@,
            decreases self.entries.len() - i,
        {
            if i == self.entries.len() {
                break ;
            }
            proof {
                assert(self@[i as int] == (
                    self.entries@[i as int].0@,
                    self.entries@[i as int].1.deep_view(),
                ));
            }
            if crate::text::str_eq(self.entries[i].0.as_str(), name.as_str()) {
                break ;
            }
            i = i + 1;
        }
        if i < self.entries.len() {
            proof {
                lemma_props_index_is(orig, name@, i as int);
            }
            let ghost old_vals = self.entries@[i as int].1.deep_view();
            let entry = &mut self.entries[i];
            entry.1.push(value);
            proof {
                assert(self@ =~~= orig.update(i as int, (name@, orig[i as int].1.push(value@))));
            }
        } else {
            proof {
                lemma_props_index_none(orig, name@);
            }
            let mut vals: Vec<String> = Vec::new();
            vals.push(value);
            self.entries.push((name, vals));
            proof {
                assert(self@ =~~= orig.push((name@, seq![value@])));
            }
        }
    }

    /// Look up the values of the property named `name`.
    pub fn get_all(&self, name: &str) -> (r: Option<&Vec<String>>)
        ensures
            match r {
                Some(v) => props_get(self@, name@) == Some(v.deep_view()),
                None => props_get(self@, name@) == None::<Seq<Seq<char>>>,
            },
    {
        let mut i: usize = 0;
        loop
            invariant
                0 <= i <= self.entries.len(),
                self@ == self.entries.deep_view(),
                forall|k: int| 0 <= k < i ==> (#[trigger] self@[k]).0 != name@,
            ensures
                0 <= i <= self@.len(),
                forall|k: int| 0 <= k < i ==> (#[trigger] self@[k]).0 != name@,
                i < self@.len() ==> self@[i as int].0 == name@,
            decreases self.entries.len() - i,
        {
            if i == self.entries.len() {
                break ;
            }
            proof {
                assert(self@[i as int] == (
                    self.entries@[i as int].0@,
                    self.entries@[i as int].1.deep_view(),
                ));
            }
            if crate::text::str_eq(self.entries[i].0.as_str(), name) {
                break ;
            }
            i = i + 1;
        }
        if i < self.entries.len() {
            proof {
                lemma_props_index_is(self@, name@, i as int);
                assert(self@[i as int] == (
                    self.entries@[i as int].0@,
                    self.entries@[i as int].1.deep_view(),
                ));
            }
            Some(&self.entries[i].1)
        } else {
            proof {
                lemma_props_index_none(self@, name@);
            }
            None
        }
    }
}

/// A parsed setup: an insertion-ordered association from group name to
/// its [`Props`], names unique.
pub struct Setup {
    groups: Vec<(String, Props)>,
}

impl View for Setup {
    type V = SetupV;

    closed spec fn view(&self) -> SetupV {
        self.groups.deep_view()
    }
}

impl DeepView for Setup {
    type V = SetupV;

    open spec fn deep_view(&self) -> SetupV {
        self.view()
    }
}

/// Characterization of `setup_index` when the name occurs.
pub proof fn lemma_setup_index_is(s: SetupV, name: Seq<char>, i: int)
    requires
        0 <= i < s.len(),
        forall|k: int| 0 <= k < i ==> (#[trigger] s[k]).0 != name,
        s[i].0 == name,
    ensures
        setup_index(s, name) == Some(i),
    decreases i,
{
    if i > 0 {
        assert(forall|k: int| 0 <= k < i - 1 ==> #[trigger] s.skip(1)[k] == s[k + 1]);
        lemma_setup_index_is(s.skip(1), name, i - 1);
    }
}

/// An absent name occurs nowhere.
pub proof fn lemma_setup_index_none_converse(s: SetupV, name: Seq<char>)
    requires
        setup_index(s, name) is None,
    ensures
        forall|k: int| 0 <= k < s.len() ==> (#[trigger] s[k]).0 != name,
    decreases s.len(),
{
    if s.len() > 0 {
        lemma_setup_index_none_converse(s.skip(1), name);
        assert forall|k: int| 0 <= k < s.len() implies (#[trigger] s[k]).0 != name by {
            if k > 0 {
                assert(s.skip(1)[k - 1] == s[k]);
            }
        }
    }
}

/// Characterization of `setup_index` when the name is absent.
pub proof fn lemma_setup_index_none(s: SetupV, name: Seq<char>)
    requires
        forall|k: int| 0 <= k < s.len() ==> (#[trigger] s[k]).0 != name,
    ensures
        setup_index(s, name) == None::<int>,
    decreases s.len(),
{
    if s.len() > 0 {
        assert(forall|k: int| 0 <= k < s.len() - 1 ==> #[trigger] s.skip(1)[k] == s[k + 1]);
        lemma_setup_index_none(s.skip(1), name);
    }
}

impl Setup {
    /// Group names are pairwise distinct.
    pub open spec fn wf(&self) -> bool {
        forall|i: int, j: int|
            0 <= i < j < self@.len() ==> (#[trigger] self@[i]).0 != (#[trigger] self@[j]).0
    }

    /// An empty setup.
    pub fn new() -> (s: Setup)
        ensures
            s@ == Seq::<(Seq<char>, PropsV)>::empty(),
            s.wf(),
    {
        let s = Setup { groups: Vec::new() };
        proof {
            assert(s@ =~= Seq::<(Seq<char>, PropsV)>::empty());
        }
        s
    }

    /// Number of groups.
    pub fn len(&self) -> (n: usize)
        ensures
            n == self@.len(),
    {
        self.groups.len()
    }

    /// The group name at a position.
    pub fn key_at(&self, i: usize) -> (r: &String)
        requires
            i < self@.len(),
        ensures
            r@ == self@[i as int].0,
    {
        proof {
            assert(self@[i as int] == (
                self.groups@[i as int].0@,
                self.groups@[i as int].1.deep_view(),
            ));
        }
        &self.groups[i].0
    }

    /// The properties at a position.
    pub fn props_at(&self, i: usize) -> (r: &Props)
        requires
            i < self@.len(),
        ensures
            r@ == self@[i as int].1,
    {
        proof {
            assert(self@[i as int] == (
                self.groups@[i as int].0@,
                self.groups@[i as int].1.deep_view(),
            ));
        }
        &self.groups[i].1
    }

    /// Look up the properties of the group named `name`.
    pub fn get(&self, name: &str) -> (r: Option<&Props>)
        ensures
            match r {
                Some(p) => setup_get(self@, name@) == Some(p@),
                None => setup_get(self@, name@) == None::<PropsV>,
            },
    {
        let mut i: usize = 0;
        loop
            invariant
                0 <= i <= self.groups.len(),
                self@ == self.groups.deep_view(),
                forall|k: int| 0 <= k < i ==> (#[trigger] self@[k]).0 != name@,
            ensures
                0 <= i <= self@.len(),
                forall|k: int| 0 <= k < i ==> (#[trigger] self@[k]).0 != name@,
                i < self@.len() ==> self@[i as int].0 == name@,
            decreases self.groups.len() - i,
        {
            if i == self.groups.len() {
                break ;
            }
            proof {
                assert(self@[i as int] == (
                    self.groups@[i as int].0@,
                    self.groups@[i as int].1.deep_view(),
                ));
            }
            if crate::text::str_eq(self.groups[i].0.as_str(), name) {
                break ;
            }
            i = i + 1;
        }
        if i < self.groups.len() {
            proof {
                lemma_setup_index_is(self@, name@, i as int);
                assert(self@[i as int] == (
                    self.groups@[i as int].0@,
                    self.groups@[i as int].1.deep_view(),
                ));
            }
            Some(&self.groups[i].1)
        } else {
            proof {
                lemma_setup_index_none(self@, name@);
            }
            None
        }
    }

    /// Whether a group named `name` exists.
    pub fn has_group(&self, name: &str) -> (b: bool)
        ensures
            b == (setup_index(self@, name@) is Some),
    {
        match self.get(name) {
            Some(_) => true,
            None => false,
        }
    }

    /// Add a group at the end; the caller rules out duplicates.
    fn push_group(&mut self, name: String, props: Props)
        requires
            old(self).wf(),
            setup_index(old(self)@, name@) is None,
        ensures
            final(self).wf(),
            final(self)@ == old(self)@.push((name@, props@)),
    {
        proof {
            lemma_setup_index_none_converse(self@, name@);
        }
        let ghost orig = self@;
        self.groups.push((name, props));
        proof {
            assert(self@ =~~= orig.push((name@, props@)));
            assert forall|i: int, j: int| 0 <= i < j < self@.len() implies (#[trigger] self@[i]).0
                != (#[trigger] self@[j]).0 by {
                if j < orig.len() {
                } else {
                    assert(self@[j].0 == name@);
                    assert(orig[i].0 != name@);
                }
            }
        }
    }
}

} // verus!
verus! {

/// Append every buffered value under `name`, in order.
fn flush_into(m: &mut Props, name: &String, values: &Vec<String>)
    requires
        old(m).wf(),
    ensures
        final(m).wf(),
        final(m)@ == flush_values(old(m)@, name@, values.deep_view()),
{
    let ghost orig = m@;
    let mut j: usize = 0;
    proof {
        assert(values.deep_view().skip(0) =~= values.deep_view());
    }
    loop
        invariant
            0 <= j <= values.len(),
            m.wf(),
            flush_values(orig, name@, values.deep_view()) == flush_values(
                m@,
                name@,
                values.deep_view().skip(j as int),
            ),
        ensures
            m.wf(),
            m@ == flush_values(orig, name@, values.deep_view()),
        decreases values.len() - j,
    {
        if j == values.len() {
            proof {
                assert(values.deep_view().skip(j as int) =~= Seq::<Seq<char>>::empty());
            }
            break ;
        }
        proof {
            assert(values.deep_view()[j as int] == values@[j as int]@);
            assert(values.deep_view().skip(j as int)[0] == values.deep_view()[j as int]);
            assert(values.deep_view().skip(j + 1) =~= values.deep_view().skip(j as int).skip(1));
        }
        m.append(name.clone(), values[j].clone());
        j = j + 1;
    }
}

/// Parse the sibling stream of one heading into its property group.
pub fn get_properties(nodes: &Vec<SibNode>) -> (p: Props)
    ensures
        p@ == spec_get_properties(nodes.deep_view()),
        p.wf(),
{
    let ghost dv = nodes.deep_view();
    let mut m = Props::new();
    let mut last_br = false;
    let mut name = String::new();
    let mut values: Vec<String> = Vec::new();
    let mut i: usize = 0;
    proof {
        assert(dv.skip(0) =~= dv);
        assert(values.deep_view() =~= Seq::<Seq<char>>::empty());
    }
    loop
        invariant
            0 <= i <= nodes.len(),
            dv == nodes.deep_view(),
            m.wf(),
            spec_get_properties(dv) == scan_props(
                dv.skip(i as int),
                last_br,
                name@,
                values.deep_view(),
                m@,
            ),
        ensures
            m.wf(),
            spec_get_properties(dv) == flush_props(m@, name@, values.deep_view()),
        decreases nodes.len() - i,
    {
        if i == nodes.len() {
            proof {
                assert(dv.skip(i as int) =~= Seq::<SibNodeV>::empty());
            }
            break ;
        }
        proof {
            assert(dv.skip(i as int)[0] == dv[i as int]);
            assert(dv[i as int] == nodes@[i as int]@);
            assert(dv.skip(i + 1) =~= dv.skip(i as int).skip(1));
        }
        match &nodes[i] {
            SibNode::Element { is_br, text } => {
                if *is_br {
                    if last_br {
                        break ;
                    }
                    last_br = true;
                    i = i + 1;
                } else {
                    if name.as_str().is_empty() {
                        break ;
                    }
                    let t = crate::text::trim_str(text.as_str());
                    let ghost old_vals = values.deep_view();
                    values.push(t);
                    proof {
                        assert(values.deep_view() =~~= old_vals.push(spec_trim(text@)));
                    }
                    last_br = false;
                    i = i + 1;
                }
            },
            SibNode::Text { text } => {
                let tv = chars_of(text.as_str());
                let t = trim_chars(&tv);
                if t.len() > 0 && t[t.len() - 1] == ':' {
                    if !name.as_str().is_empty() {
                        flush_into(&mut m, &name, &values);
                        values.clear();
                        proof {
                            assert(values.deep_view() =~= Seq::<Seq<char>>::empty());
                        }
                    }
                    let stem = subvec(&t, 0, t.len() - 1);
                    proof {
                        assert(stem@ =~= t@.drop_last());
                    }
                    name = crate::str_ext::string_from_chars(&stem);
                    i = i + 1;
                } else {
                    let ghost old_vals = values.deep_view();
                    values.push(crate::str_ext::string_from_chars(&t));
                    proof {
                        assert(values.deep_view() =~~= old_vals.push(spec_trim(text@)));
                    }
                    i = i + 1;
                }
            },
        }
    }
    if !name.as_str().is_empty() {
        flush_into(&mut m, &name, &values);
    }
    m
}

/// Remove every colon of a string.
fn strip_colons_string(s: &String) -> (r: String)
    ensures
        r@ == strip_colons(s@),
{
    let v = chars_of(s.as_str());
    let mut acc: Vec<char> = Vec::new();
    let mut i: usize = 0;
    proof {
        assert(v@.skip(0) =~= v@);
        assert(acc@ =~= Seq::<char>::empty());
    }
    while i < v.len()
        invariant
            0 <= i <= v@.len(),
            acc@ + strip_colons(v@.skip(i as int)) == strip_colons(v@),
        decreases v@.len() - i,
    {
        proof {
            assert(v@.skip(i as int)[0] == v@[i as int]);
            assert(v@.skip(i + 1) =~= v@.skip(i as int).skip(1));
        }
        if v[i] != ':' {
            let ghost old_acc = acc@;
            acc.push(v[i]);
            proof {
                assert(acc@ =~= old_acc + seq![v@[i as int]]);
                assert((old_acc + seq![v@[i as int]]) + strip_colons(v@.skip(i + 1)) =~= old_acc + (
                seq![v@[i as int]] + strip_colons(v@.skip(i + 1))));
            }
        }
        i = i + 1;
    }
    proof {
        assert(v@.skip(v@.len() as int) =~= Seq::<char>::empty());
        assert(acc@ + Seq::<char>::empty() =~= acc@);
    }
    crate::str_ext::string_from_chars(&acc)
}

/// Whether the group scan stops at a heading with this text.
fn group_stop_check(text: &str) -> (b: bool)
    ensures
        b == spec_group_stop(text@),
{
    let low = crate::str_ext::to_lowercase(text);
    let lv = chars_of(low.as_str());
    let p1 = chars_of("notes");
    let p2 = chars_of("driver aids");
    let r1 = starts_with_chars(&lv, &p1);
    let r2 = starts_with_chars(&lv, &p2);
    r1 || r2
}

/// Whether the tire heuristic applies to a property group.
fn tire_like_check(p: &Props) -> (b: bool)
    ensures
        b == spec_props_tire_like(p@),
{
    let tread = chars_of("Tread");
    let spring = chars_of("Spring");
    let mut has_tread = false;
    let mut blocked = false;
    let n = p.len();
    let mut k: usize = 0;
    while k < n
        invariant
            0 <= k <= n,
            n == p@.len(),
            tread@ == "Tread"@,
            spring@ == "Spring"@,
            has_tread == (exists|i: int|
                0 <= i < k && spec_starts_with((#[trigger] p@[i]).0, "Tread"@)),
            blocked == (exists|i: int|
                0 <= i < k && ((#[trigger] p@[i]).0 == "Camber"@ || p@[i].0 == "Caster"@ || p@[i].0
                    == "Ride height"@ || p@[i].0 == "Corner weight"@ || spec_starts_with(
                    p@[i].0,
                    "Spring"@,
                ))),
        decreases n - k,
    {
        let key = p.key_at(k);
        let kv = chars_of(key.as_str());
        if starts_with_chars(&kv, &tread) {
            has_tread = true;
        }
        if crate::text::str_eq(key.as_str(), "Camber") || crate::text::str_eq(
            key.as_str(),
            "Caster",
        ) || crate::text::str_eq(key.as_str(), "Ride height") || crate::text::str_eq(
            key.as_str(),
            "Corner weight",
        ) || starts_with_chars(&kv, &spring) {
            blocked = true;
        }
        k = k + 1;
    }
    has_tread && !blocked
}

/// Parse one flattened export document against the configured
/// dictionaries.  On success the resolved track and car display names and
/// the structured setup are returned; each rejection names its cause.
pub fn setup_from_doc(doc: &SetupDoc, config: &DictConfig) -> (r: Result<
    (String, String, Setup),
    Error,
>)
    ensures
        ({
            let s = spec_parse_doc(
                doc@,
                config.track_id_elems(),
                config.track_names(),
                config.car_names(),
            );
            match r {
                Ok(t) => s == Ok::<(Seq<char>, Seq<char>, SetupV), ErrorV>((t.0@, t.1@, t.2@)),
                Err(e) => s == Err::<(Seq<char>, Seq<char>, SetupV), ErrorV>(e@),
            }
        }),
        r matches Ok(t) ==> t.2.wf(),
{
    let header = match &doc.header {
        Some(h) => h,
        None => {
            return Err(Error::MissingHeader);
        },
    };
    let hv = chars_of(header.as_str());
    let ls = lines_of(&hv);
    proof {
        assert(ls.deep_view() == spec_lines(header@));
    }
    if ls.len() < 2 {
        return Err(Error::MissingCar);
    }
    proof {
        assert(ls.deep_view()[1] == ls@[1]@);
    }
    let lt = trim_chars(&ls[1]);
    proof {
        reveal_strlit(" setup: ");
    }
    let pat = chars_of(" setup: ");
    let seg = match find_sub_in(&lt, &pat) {
        Some(i) => subvec(&lt, 0, i),
        None => subvec(&lt, 0, lt.len()),
    };
    proof {
        assert(lt@.subrange(0, lt@.len() as int) =~= lt@);
        match find_sub(lt@, " setup: "@) {
            Some(i) => {
                assert(seg@ =~= lt@.take(i));
            },
            None => {},
        }
    }
    let car_id_chars = underscored(&seg);
    let car_id = string_from_chars(&car_id_chars);
    proof {
        assert(car_id@ == spec_car_id(spec_lines(header@)[1]));
    }
    if ls.len() < 3 {
        return Err(Error::MissingTrack);
    }
    proof {
        assert(ls.deep_view()[2] == ls@[2]@);
        assert(ls@[2]@.skip(0) =~= ls@[2]@);
    }
    let sp = find_char_from(&ls[2], ' ', 0);
    let token: String = match sp {
        None => {
            return Err(Error::MissingTrack);
        },
        Some(i) => {
            let after = subvec(&ls[2], i + 1, ls[2].len());
            proof {
                assert(after@ =~= ls@[2]@.skip(i + 1));
            }
            let tr = trim_chars(&after);
            let u = underscored(&tr);
            string_from_chars(&u)
        },
    };
    proof {
        assert(spec_track_token(spec_lines(header@)[2]) == Some(token@));
    }
    let car_name = config.resolve_car(car_id.as_str());
    let track_name = config.resolve_track(token.as_str());
    let mut setup = Setup::new();
    let mut pending = String::new();
    let mut gi: usize = 0;
    let ghost gv = doc@.groups;
    proof {
        assert(gv.skip(0) =~= gv);
    }
    loop
        invariant
            0 <= gi <= doc.groups.len(),
            gv == doc@.groups,
            setup.wf(),
            scan_groups(gv, Seq::empty(), Seq::empty()) == scan_groups(
                gv.skip(gi as int),
                pending@,
                setup@,
            ),
            spec_parse_doc(
                doc@,
                config.track_id_elems(),
                config.track_names(),
                config.car_names(),
            ) == (match scan_groups(gv, Seq::empty(), Seq::empty()) {
                Ok(s) => Ok::<(Seq<char>, Seq<char>, SetupV), ErrorV>((track_name@, car_name@, s)),
                Err(n) => Err::<(Seq<char>, Seq<char>, SetupV), ErrorV>(
                    ErrorV::DuplicatePropGroup(n),
                ),
            }),
        ensures
            setup.wf(),
            scan_groups(gv, Seq::empty(), Seq::empty()) == Ok::<SetupV, Seq<char>>(setup@),
            spec_parse_doc(
                doc@,
                config.track_id_elems(),
                config.track_names(),
                config.car_names(),
            ) == Ok::<(Seq<char>, Seq<char>, SetupV), ErrorV>((track_name@, car_name@, setup@)),
        decreases doc.groups.len() - gi,
    {
        if gi == doc.groups.len() {
            proof {
                assert(gv.skip(gi as int) =~= Seq::<RawHeadingV>::empty());
            }
            break ;
        }
        proof {
            assert(gv.skip(gi as int)[0] == gv[gi as int]);
            assert(gv[gi as int] == doc.groups@[gi as int]@);
            assert(gv.skip(gi + 1) =~= gv.skip(gi as int).skip(1));
        }
        let g = &doc.groups[gi];
        if group_stop_check(g.text.as_str()) {
            break ;
        }
        let props = get_properties(&g.nodes);
        let name1: String = if pending.as_str().is_empty() {
            let caps = capitalize_words(g.text.as_str());
            strip_colons_string(&caps)
        } else {
            pending.clone()
        };
        if props.len() == 0 {
            pending = name1;
        } else {
            let n1v = chars_of(name1.as_str());
            let tire = chars_of("Tire");
            let name2: String = if tire_like_check(&props) && !ends_with_chars(&n1v, &tire) {
                name1.concat(" Tire")
            } else {
                name1
            };
            if setup.has_group(name2.as_str()) {
                proof {
                    assert(scan_groups(gv, Seq::empty(), Seq::empty()) == Err::<SetupV, Seq<char>>(
                        name2@,
                    ));
                }
                return Err(Error::DuplicatePropGroup(name2));
            }
            setup.push_group(name2, props);
            pending = String::new();
        }
        gi = gi + 1;
    }
    Ok((track_name, car_name, setup))
}

} // verus!
verus! {

/// Parsing is deterministic: two structurally equal documents parse to
/// structurally equal results against the same dictionaries.
pub proof fn lemma_parse_deterministic(
    a: SetupDocV,
    b: SetupDocV,
    track_ids: Set<Seq<u8>>,
    track_names: Seq<(Seq<char>, Seq<char>)>,
    car_names: Seq<(Seq<char>, Seq<char>)>,
)
    requires
        a == b,
    ensures
        spec_parse_doc(a, track_ids, track_names, car_names) == spec_parse_doc(
            b,
            track_ids,
            track_names,
            car_names,
        ),
{
}

} // verus!
