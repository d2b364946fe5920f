//! Configuration-derived data that resolution needs at run time: the
//! canonical track-id set with longest-prefix lookup, the track and car
//! display-name dictionaries, color parsing, and the user's theme choice.

use vstd::prelude::*;

verus! {

use vstd::string::StringSliceAdditionalSpecFns;
use vstd::utf8::encode_utf8;
use crate::text::str_eq;

/// An insertion-ordered association from string keys to string values with
/// unique keys.
pub struct Dict {
    entries: Vec<(String, String)>,
}

/// First value associated with `k`, if any.
pub open spec fn dict_get(entries: Seq<(Seq<char>, Seq<char>)>, k: Seq<char>) -> Option<Seq<char>>
    decreases entries.len(),
{
    if entries.len() == 0 {
        None
    } else if entries[0].0 == k {
        Some(entries[0].1)
    } else {
        dict_get(entries.skip(1), k)
    }
}

impl View for Dict {
    type V = Seq<(Seq<char>, Seq<char>)>;

    closed spec fn view(&self) -> Seq<(Seq<char>, Seq<char>)> {
        self.entries.deep_view()
    }
}

impl Dict {
    /// Keys are pairwise distinct.
    pub open spec fn wf(&self) -> bool {
        forall|i: int, j: int|
            0 <= i < j < self@.len() ==> (#[trigger] self@[i]).0 != (#[trigger] self@[j]).0
    }

    /// An empty dictionary.
    pub fn new() -> (d: Dict)
        ensures
            d@ == Seq::<(Seq<char>, Seq<char>)>::empty(),
            d.wf(),
    {
        let d = Dict { entries: Vec::new() };
        proof {
            assert(d@ =~= Seq::<(Seq<char>, Seq<char>)>::empty());
        }
        d
    }

    /// Number of entries.
    pub fn len(&self) -> (n: usize)
        ensures
            n == self@.len(),
    {
        self.entries.len()
    }

    /// Insert `k -> v`: an existing entry for `k` is overwritten in place,
    /// a new key goes to the end.
    pub fn insert(&mut self, k: String, v: String)
        requires
            old(self).wf(),
        ensures
            final(self).wf(),
            final(self)@ == match dict_index(old(self)@, k@) {
                Some(i) => old(self)@.update(i, (k@, v@)),
                None => old(self)@.push((k@, v@)),
            },
    {
        let ghost orig = self@;
        let mut i: usize = 0;
        loop
            invariant
                0 <= i <= self.entries.len(),
                self@ == orig,
                self.wf(),
                forall|m: int| 0 <= m < i ==> (#[trigger] orig[m]).0 != k@,
            ensures
                0 <= i <= self@.len(),
                self@ == orig,
                forall|m: int| 0 <= m < i ==> (#[trigger] orig[m]).0 != k@,
                i < orig.len() ==> orig[i as int].0 == k@,
            decreases self.entries.len() - i,
        {
            if i == self.entries.len() {
                break ;
            }
            proof {
                assert(self@[i as int] == (self.entries@[i as int].0@, self.entries@[i as int].1@));
            }
            if str_eq(self.entries[i].0.as_str(), k.as_str()) {
                break ;
            }
            i = i + 1;
        }
        if i < self.entries.len() {
            proof {
                lemma_dict_index_is(orig, k@, i as int);
            }
            self.entries[i] = (k, v);
            proof {
                assert(self@ =~~= orig.update(i as int, (k@, v@)));
            }
        } else {
            proof {
                lemma_dict_index_none(orig, k@);
            }
            self.entries.push((k, v));
            proof {
                assert(self@ =~~= orig.push((k@, v@)));
            }
        }
    }

    /// Look up the value stored under `k`.
    pub fn get(&self, k: &str) -> (r: Option<&String>)
        ensures
            match r {
                Some(v) => dict_get(self@, k@) == Some(v@),
                None => dict_get(self@, k@) == None::<Seq<char>>,
            },
    {
        let mut i: usize = 0;
        loop
            invariant
                0 <= i <= self.entries.len(),
                self@ == self.entries.deep_view(),
                forall|m: int| 0 <= m < i ==> (#[trigger] self@[m]).0 != k@,
            ensures
                0 <= i <= self@.len(),
                forall|m: int| 0 <= m < i ==> (#[trigger] self@[m]).0 != k@,
                i < self@.len() ==> self@[i as int].0 == k@,
            decreases self.entries.len() - i,
        {
            if i == self.entries.len() {
                break ;
            }
            proof {
                assert(self@[i as int] == (self.entries@[i as int].0@, self.entries@[i as int].1@));
            }
            if str_eq(self.entries[i].0.as_str(), k) {
                break ;
            }
            i = i + 1;
        }
        if i < self.entries.len() {
            proof {
                lemma_dict_get_is(self@, k@, i as int);
                assert(self@[i as int] == (self.entries@[i as int].0@, self.entries@[i as int].1@));
            }
            Some(&self.entries[i].1)
        } else {
            proof {
                lemma_dict_get_none(self@, k@);
            }
            None
        }
    }

    /// The key stored at a position, for iteration.
    pub fn key_at(&self, i: usize) -> (r: &String)
        requires
            i < self@.len(),
        ensures
            r@ == self@[i as int].0,
    {
        proof {
            assert(self@[i as int] == (self.entries@[i as int].0@, self.entries@[i as int].1@));
        }
        &self.entries[i].0
    }

    /// The value stored at a position, for iteration.
    pub fn value_at(&self, i: usize) -> (r: &String)
        requires
            i < self@.len(),
        ensures
            r@ == self@[i as int].1,
    {
        proof {
            assert(self@[i as int] == (self.entries@[i as int].0@, self.entries@[i as int].1@));
        }
        &self.entries[i].1
    }
}

/// Position of the entry with key `k`, if any.
pub open spec fn dict_index(entries: Seq<(Seq<char>, Seq<char>)>, k: Seq<char>) -> Option<int>
    decreases entries.len(),
{
    if entries.len() == 0 {
        None
    } else if entries[0].0 == k {
        Some(0)
    } else {
        match dict_index(entries.skip(1), k) {
            Some(i) => Some(i + 1),
            None => None,
        }
    }
}

/// Characterization of `dict_index` when the key occurs.
pub proof fn lemma_dict_index_is(entries: Seq<(Seq<char>, Seq<char>)>, k: Seq<char>, i: int)
    requires
        0 <= i < entries.len(),
        forall|m: int| 0 <= m < i ==> (#[trigger] entries[m]).0 != k,
        entries[i].0 == k,
    ensures
        dict_index(entries, k) == Some(i),
    decreases i,
{
    if i > 0 {
        assert(forall|m: int| 0 <= m < i - 1 ==> #[trigger] entries.skip(1)[m] == entries[m + 1]);
        lemma_dict_index_is(entries.skip(1), k, i - 1);
    }
}

/// Characterization of `dict_index` when the key is absent.
pub proof fn lemma_dict_index_none(entries: Seq<(Seq<char>, Seq<char>)>, k: Seq<char>)
    requires
        forall|m: int| 0 <= m < entries.len() ==> (#[trigger] entries[m]).0 != k,
    ensures
        dict_index(entries, k) == None::<int>,
    decreases entries.len(),
{
    if entries.len() > 0 {
        assert(forall|m: int|
            0 <= m < entries.len() - 1 ==> #[trigger] entries.skip(1)[m] == entries[m + 1]);
        lemma_dict_index_none(entries.skip(1), k);
    }
}

/// Characterization of `dict_get` when the key occurs first at `i`.
pub proof fn lemma_dict_get_is(entries: Seq<(Seq<char>, Seq<char>)>, k: Seq<char>, i: int)
    requires
        0 <= i < entries.len(),
        forall|m: int| 0 <= m < i ==> (#[trigger] entries[m]).0 != k,
        entries[i].0 == k,
    ensures
        dict_get(entries, k) == Some(entries[i].1),
    decreases i,
{
    if i > 0 {
        assert(forall|m: int| 0 <= m < i - 1 ==> #[trigger] entries.skip(1)[m] == entries[m + 1]);
        lemma_dict_get_is(entries.skip(1), k, i - 1);
    }
}

/// Characterization of `dict_get` when the key is absent.
pub proof fn lemma_dict_get_none(entries: Seq<(Seq<char>, Seq<char>)>, k: Seq<char>)
    requires
        forall|m: int| 0 <= m < entries.len() ==> (#[trigger] entries[m]).0 != k,
    ensures
        dict_get(entries, k) == None::<Seq<char>>,
    decreases entries.len(),
{
    if entries.len() > 0 {
        assert(forall|m: int|
            0 <= m < entries.len() - 1 ==> #[trigger] entries.skip(1)[m] == entries[m + 1]);
        lemma_dict_get_none(entries.skip(1), k);
    }
}

} // verus!
verus! {

/// Byte-set type of the `patricia_tree` crate, used for longest-prefix
/// queries over canonical track ids.
#[verifier::external_type_specification]
#[verifier::external_body]
#[verifier::reject_recursive_types(T)]
pub struct ExGenericPatriciaSet<T>(patricia_tree::GenericPatriciaSet<T>);

/// The byte strings a `PatriciaSet` holds.
pub uninterp spec fn patricia_elems(s: patricia_tree::PatriciaSet) -> Set<Seq<u8>>;

/// `p` is a prefix of `s`.
pub open spec fn is_byte_prefix(p: Seq<u8>, s: Seq<u8>) -> bool {
    p.len() <= s.len() && s.take(p.len() as int) == p
}

/// Relies on `PatriciaSet::new`: the new set is empty.
#[verifier::external_body]
fn patricia_new() -> (s: patricia_tree::PatriciaSet)
    ensures
        patricia_elems(s) == Set::<Seq<u8>>::empty(),
{
    patricia_tree::PatriciaSet::new()
}

/// Relies on `PatriciaSet::insert`: afterwards the set holds the UTF-8
/// bytes of `key` besides what it already held.
#[verifier::external_body]
fn patricia_insert(s: &mut patricia_tree::PatriciaSet, key: &str)
    ensures
        patricia_elems(*final(s)) == patricia_elems(*old(s)).insert(key.spec_bytes()),
{
    s.insert(key);
}

/// Relies on `PatriciaSet::get_longest_common_prefix`: the result is the
/// longest element of the set that is a prefix of `value`, returned as the
/// matching prefix of `value` itself, or `None` when no element is a prefix.
#[verifier::external_body]
fn patricia_longest_prefix<'a>(s: &patricia_tree::PatriciaSet, value: &'a [u8]) -> (r: Option<
    &'a [u8],
>)
    ensures
        match r {
            Some(p) => patricia_elems(*s).contains(p@) && is_byte_prefix(p@, value@) && forall|
                q: Seq<u8>,
            |
                #[trigger] patricia_elems(*s).contains(q) && is_byte_prefix(q, value@)
                    ==> q.len() <= p@.len(),
            None => forall|q: Seq<u8>|
                #[trigger] patricia_elems(*s).contains(q) ==> !is_byte_prefix(q, value@),
        },
{
    s.get_longest_common_prefix(value)
}

/// What `String::from_utf8_lossy` returns.
pub uninterp spec fn lossy_of(b: Seq<u8>) -> Seq<char>;

/// Relies on `String::from_utf8_lossy`: the result is a function of the
/// bytes alone, and a valid UTF-8 byte sequence decodes back to the
/// characters it encodes.
#[verifier::external_body]
fn bytes_to_string_lossy(b: &[u8]) -> (r: String)
    ensures
        r@ == lossy_of(b@),
        forall|cs: Seq<char>| b@ == encode_utf8(cs) ==> r@ == cs,
{
    String::from_utf8_lossy(b).to_string()
}

/// The longest element of `elems` that is a prefix of `tb`, if any.
pub open spec fn spec_prefix_match(elems: Set<Seq<u8>>, tb: Seq<u8>) -> Option<Seq<u8>> {
    if exists|q: Seq<u8>| #[trigger] elems.contains(q) && is_byte_prefix(q, tb) {
        Some(
            choose|q: Seq<u8>|
                #[trigger] elems.contains(q) && is_byte_prefix(q, tb) && forall|r: Seq<u8>|
                    #[trigger] elems.contains(r) && is_byte_prefix(r, tb) ==> r.len() <= q.len(),
        )
    } else {
        None
    }
}

/// Two prefixes of the same sequence with equal lengths are equal.
proof fn lemma_prefix_unique(p: Seq<u8>, q: Seq<u8>, tb: Seq<u8>)
    requires
        is_byte_prefix(p, tb),
        is_byte_prefix(q, tb),
        p.len() == q.len(),
    ensures
        p == q,
{
}

/// The display name a raw track token resolves to, against the canonical id
/// set `elems` and the display-name dictionary `names`: the longest
/// canonical id that prefixes the token's bytes is looked up (falling back
/// to the id itself); a token no id prefixes is looked up verbatim.
pub open spec fn spec_resolve_track(
    elems: Set<Seq<u8>>,
    names: Seq<(Seq<char>, Seq<char>)>,
    token: Seq<char>,
) -> Seq<char> {
    let id = match spec_prefix_match(elems, encode_utf8(token)) {
        Some(p) => lossy_of(p),
        None => token,
    };
    match dict_get(names, id) {
        Some(n) => n,
        None => id,
    }
}

/// The display name a raw car id resolves to: a direct dictionary lookup,
/// falling back to the id itself.
pub open spec fn spec_resolve_car(names: Seq<(Seq<char>, Seq<char>)>, id: Seq<char>) -> Seq<char> {
    match dict_get(names, id) {
        Some(n) => n,
        None => id,
    }
}

/// The dictionaries the resolver works against: a prefix-matchable set of
/// canonical track ids, and the track and car display-name maps.
pub struct DictConfig {
    /// Canonical track ids, prefix-matchable by byte.
    track_ids: patricia_tree::PatriciaSet,
    /// Track id to display name.
    tracks: Dict,
    /// Car id to display name.
    cars: Dict,
}

impl DictConfig {
    /// The canonical track-id byte set.
    pub closed spec fn track_id_elems(&self) -> Set<Seq<u8>> {
        patricia_elems(self.track_ids)
    }

    /// The track display-name dictionary.
    pub closed spec fn track_names(&self) -> Seq<(Seq<char>, Seq<char>)> {
        self.tracks@
    }

    /// The car display-name dictionary.
    pub closed spec fn car_names(&self) -> Seq<(Seq<char>, Seq<char>)> {
        self.cars@
    }

    pub closed spec fn wf(&self) -> bool {
        self.tracks.wf() && self.cars.wf()
    }

    /// An empty configuration.
    pub fn new() -> (c: DictConfig)
        ensures
            c.track_id_elems() == Set::<Seq<u8>>::empty(),
            c.track_names() == Seq::<(Seq<char>, Seq<char>)>::empty(),
            c.car_names() == Seq::<(Seq<char>, Seq<char>)>::empty(),
            c.wf(),
    {
        DictConfig { track_ids: patricia_new(), tracks: Dict::new(), cars: Dict::new() }
    }

    /// Register a canonical track id with its display name.
    pub fn insert_track(&mut self, id: String, name: String)
        requires
            old(self).wf(),
        ensures
            final(self).wf(),
            final(self).track_id_elems() == old(self).track_id_elems().insert(encode_utf8(id@)),
            final(self).track_names() == match dict_index(old(self).track_names(), id@) {
                Some(i) => old(self).track_names().update(i, (id@, name@)),
                None => old(self).track_names().push((id@, name@)),
            },
            final(self).car_names() == old(self).car_names(),
    {
        patricia_insert(&mut self.track_ids, id.as_str());
        self.tracks.insert(id, name);
    }

    /// Register a car id with its display name.
    pub fn insert_car(&mut self, id: String, name: String)
        requires
            old(self).wf(),
        ensures
            final(self).wf(),
            final(self).car_names() == match dict_index(old(self).car_names(), id@) {
                Some(i) => old(self).car_names().update(i, (id@, name@)),
                None => old(self).car_names().push((id@, name@)),
            },
            final(self).track_names() == old(self).track_names(),
            final(self).track_id_elems() == old(self).track_id_elems(),
    {
        self.cars.insert(id, name);
    }

    /// Resolve a raw track token to its display name.  When the matched
    /// canonical id is the UTF-8 encoding of a character sequence — as
    /// every id registered through [`DictConfig::insert_track`] is — the
    /// result is that sequence looked up in the track name map, falling
    /// back to the sequence itself.
    pub fn resolve_track(&self, token: &str) -> (r: String)
        ensures
            r@ == spec_resolve_track(self.track_id_elems(), self.track_names(), token@),
            forall|cs: Seq<char>|
                spec_prefix_match(self.track_id_elems(), encode_utf8(token@)) == Some(
                    #[trigger] encode_utf8(cs),
                ) ==> r@ == (match dict_get(self.track_names(), cs) {
                    Some(n) => n,
                    None => cs,
                }),
    {
        let bytes = token.as_bytes();
        let id: String = match patricia_longest_prefix(&self.track_ids, bytes) {
            Some(p) => {
                proof {
                    let elems = self.track_id_elems();
                    let tb = encode_utf8(token@);
                    let q = choose|q: Seq<u8>|
                        #[trigger] elems.contains(q) && is_byte_prefix(q, tb) && forall|r: Seq<u8>|
                            #[trigger] elems.contains(r) && is_byte_prefix(r, tb) ==> r.len()
                                <= q.len();
                    assert(elems.contains(p@) && is_byte_prefix(p@, tb));
                    assert(q.len() <= p@.len());
                    assert(p@.len() <= q.len());
                    lemma_prefix_unique(p@, q, tb);
                    assert(spec_prefix_match(elems, tb) == Some(p@));
                }
                bytes_to_string_lossy(p)
            },
            None => {
                proof {
                    assert(spec_prefix_match(self.track_id_elems(), encode_utf8(token@))
                        == None::<Seq<u8>>);
                }
                let r = bytes_to_string_lossy(bytes);
                proof {
                    assert(bytes@ == encode_utf8(token@));
                }
                r
            },
        };
        match self.tracks.get(id.as_str()) {
            Some(n) => n.clone(),
            None => id,
        }
    }

    /// Resolve a raw car id to its display name.
    pub fn resolve_car(&self, id: &str) -> (r: String)
        ensures
            r@ == spec_resolve_car(self.car_names(), id@),
    {
        match self.cars.get(id) {
            Some(n) => n.clone(),
            None => id.to_owned(),
        }
    }
}

} // verus!
verus! {

/// Value of a hexadecimal digit, or -1.
pub open spec fn spec_hex_val(c: char) -> int {
    if 48 <= c as u32 <= 57 {
        c as u32 - 48
    } else if 97 <= c as u32 <= 102 {
        c as u32 - 87
    } else if 65 <= c as u32 <= 70 {
        c as u32 - 55
    } else {
        -1
    }
}

/// A well-formed `#rrggbb` color string.
pub open spec fn spec_valid_color(s: Seq<char>) -> bool {
    s.len() == 7 && s[0] == '#' && forall|m: int| 1 <= m < 7 ==> spec_hex_val(#[trigger] s[m]) >= 0
}

/// The channel encoded by two hex digits of a valid color string.
pub open spec fn spec_color_channel(s: Seq<char>, i: int) -> int {
    spec_hex_val(s[i]) * 16 + spec_hex_val(s[i + 1])
}

/// Value of a hexadecimal digit character.
fn hex_val(c: char) -> (v: i32)
    ensures
        v == spec_hex_val(c),
{
    let u = c as u32;
    if u >= 48 && u <= 57 {
        (u - 48) as i32
    } else if u >= 97 && u <= 102 {
        (u - 87) as i32
    } else if u >= 65 && u <= 70 {
        (u - 55) as i32
    } else {
        -1
    }
}

/// Parse an HTML-style `#rrggbb` color into its three channels.  Exactly
/// the strings of a `#` followed by six hexadecimal digits are accepted.
pub fn color_from_str(color: &str) -> (r: Result<(u8, u8, u8), ()>)
    ensures
        r is Ok <==> spec_valid_color(color@),
        r matches Ok(c) ==> c.0 == spec_color_channel(color@, 1) && c.1 == spec_color_channel(
            color@,
            3,
        ) && c.2 == spec_color_channel(color@, 5),
{
    let v = crate::str_ext::chars_of(color);
    if v.len() != 7 {
        return Err(());
    }
    if v[0] != '#' {
        return Err(());
    }
    let mut vals: Vec<i32> = Vec::new();
    let mut k: usize = 1;
    while k < 7
        invariant
            1 <= k <= 7,
            v@ == color@,
            v@.len() == 7,
            vals@.len() == k - 1,
            forall|m: int| 1 <= m < k ==> spec_hex_val(#[trigger] v@[m]) >= 0,
            forall|m: int| 0 <= m < k - 1 ==> #[trigger] vals@[m] == spec_hex_val(v@[m + 1]),
        decreases 7 - k,
    {
        let h = hex_val(v[k]);
        if h < 0 {
            proof {
                assert(spec_hex_val(color@[k as int]) < 0);
            }
            return Err(());
        }
        vals.push(h);
        k = k + 1;
    }
    let red = (vals[0] * 16 + vals[1]) as u8;
    let green = (vals[2] * 16 + vals[3]) as u8;
    let blue = (vals[4] * 16 + vals[5]) as u8;
    Ok((red, green, blue))
}

/// The user's theme choice.
#[derive(Copy, Clone, Debug, Eq, PartialEq, Structural)]
pub enum UserTheme {
    /// Auto-select based on OS preferences.
    Auto,
    /// Dark mode.
    Dark,
    /// Light mode.
    Light,
}

/// The theme a configuration string selects.
pub open spec fn spec_user_theme_from(s: Seq<char>) -> UserTheme {
    if s == "dark"@ {
        UserTheme::Dark
    } else if s == "light"@ {
        UserTheme::Light
    } else {
        UserTheme::Auto
    }
}

impl UserTheme {
    /// Create a `UserTheme` from a configuration string.
    pub fn from_str(value: &str) -> (r: Self)
        ensures
            r == spec_user_theme_from(value@),
    {
        if str_eq(value, "dark") {
            UserTheme::Dark
        } else if str_eq(value, "light") {
            UserTheme::Light
        } else {
            UserTheme::Auto
        }
    }

    /// The configuration string for this `UserTheme`.
    pub fn as_str(&self) -> (r: &str)
        ensures
            *self == spec_user_theme_from(r@),
            r@ == "auto"@ || r@ == "dark"@ || r@ == "light"@,
    {
        proof {
            reveal_strlit("auto");
            reveal_strlit("dark");
            reveal_strlit("light");
            assert("auto"@[0] == 'a' && "dark"@[0] == 'd' && "light"@[0] == 'l');
            assert('a' as u32 == 97 && 'd' as u32 == 100 && 'l' as u32 == 108);
            assert("auto"@ != "dark"@ && "auto"@ != "light"@ && "dark"@ != "light"@);
        }
        match self {
            UserTheme::Auto => "auto",
            UserTheme::Dark => "dark",
            UserTheme::Light => "light",
        }
    }
}

} // verus!
