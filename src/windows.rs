use encoding::Encoding;
use vstd::prelude::*;

use crate::conditions::{Property, resolved_view};
use crate::text::{chars_of, string_between};

verus! {

/// The predefined atom of the 8-bit `STRING` type.
pub const ATOM_STRING: u32 = 31;

/// The predefined atom of the legacy `WM_NAME` property.
pub const ATOM_WM_NAME: u32 = 39;

/// The predefined atom of the `WM_CLASS` property.
pub const ATOM_WM_CLASS: u32 = 67;

/// The text that bytes stand for in ISO-8859-1: each byte is the character of the same code.
pub open spec fn latin1_text(b: Seq<u8>) -> Seq<char> {
    Seq::new(b.len(), |i: int| b[i] as char)
}

/// Relies on encoding's ISO_8859_1 decoder, which maps each byte to the
/// character of the same code and refuses none.
#[verifier::external_body]
fn decode_latin1(b: &[u8]) -> (r: Option<String>)
    ensures
        r is Some,
        r matches Some(s) ==> s@ == latin1_text(b@),
{
    encoding::all::ISO_8859_1.decode(b, encoding::DecoderTrap::Strict).ok()
}

/// The text that a byte string holds as UTF-8, if it is valid UTF-8.
pub uninterp spec fn utf8_decoded(b: Seq<u8>) -> Option<Seq<char>>;

/// Relies on String::from_utf8: the text of valid UTF-8, and an error otherwise.
#[verifier::external_body]
fn decode_utf8(b: Vec<u8>) -> (r: Option<String>)
    ensures
        r is Some <==> utf8_decoded(b@) is Some,
        r matches Some(s) ==> utf8_decoded(b@) == Some(s@),
{
    String::from_utf8(b).ok()
}

/// The name of the UTF-8 string type atom.
pub const UTF8_STRING: &'static str = "UTF8_STRING";

/// The name of the window-manager name property, in UTF-8.
pub const NET_WM_NAME: &'static str = "_NET_WM_NAME";

/// The name of the window role property.
pub const WM_WINDOW_ROLE: &'static str = "WM_WINDOW_ROLE";

/// The name of the window-manager state property.
pub const WM_STATE: &'static str = "WM_STATE";

/// A property value as the server sent it: the atom of its type and its bytes.
pub struct RawProperty {
    pub type_atom: u32,
    pub value: Vec<u8>,
}

/// The text of a property value: ISO-8859-1 for the `STRING` type, UTF-8 for
/// the type whose atom is `utf8_atom`, and nothing for another type or bytes
/// that are not valid UTF-8.
pub open spec fn decoded(type_atom: u32, utf8_atom: u32, value: Seq<u8>) -> Option<Seq<char>> {
    if type_atom == ATOM_STRING {
        Some(latin1_text(value))
    } else if type_atom == utf8_atom {
        utf8_decoded(value)
    } else {
        None
    }
}

/// Decodes a property value into text; `None` where it holds no text.
pub fn decode_property(raw: RawProperty, utf8_atom: u32) -> (r: Option<String>)
    ensures
        match r {
            Some(s) => decoded(raw.type_atom, utf8_atom, raw.value@) == Some(s@),
            None => decoded(raw.type_atom, utf8_atom, raw.value@) is None,
        },
{
    if raw.type_atom == ATOM_STRING {
        decode_latin1(raw.value.as_slice())
    } else if raw.type_atom == utf8_atom {
        decode_utf8(raw.value)
    } else {
        None
    }
}

/// The index of the first NUL character of `s` at or after `i`, or the length of `s`.
pub open spec fn nul_from(s: Seq<char>, i: int) -> int
    decreases s.len() - i,
{
    if i < 0 || i >= s.len() {
        s.len() as int
    } else if s[i] == '\0' {
        i
    } else {
        nul_from(s, i + 1)
    }
}

/// The class name in a `WM_CLASS` value, which holds NUL-separated strings:
/// the second one. `None` where the value has no separator.
pub open spec fn class_of(v: Seq<char>) -> Option<Seq<char>> {
    let i = nul_from(v, 0);
    if i >= v.len() {
        None
    } else {
        Some(v.subrange(i + 1, nul_from(v, i + 1)))
    }
}

fn nul_from_exec(s: &Vec<char>, i: usize) -> (r: usize)
    requires
        i <= s.len(),
    ensures
        r as int == nul_from(s@, i as int),
        i <= r <= s.len(),
{
    let mut j = i;
    while j < s.len() && s[j] != '\0'
        invariant
            i <= j <= s.len(),
            nul_from(s@, i as int) == nul_from(s@, j as int),
        decreases s.len() - j,
    {
        j = j + 1;
    }
    j
}

/// The class name in a `WM_CLASS` value: the second of its NUL-separated strings.
pub fn class_component(v: &str) -> (r: Option<String>)
    ensures
        match r {
            Some(c) => class_of(v@) == Some(c@),
            None => class_of(v@) is None,
        },
{
    let cs = chars_of(v);
    let i = nul_from_exec(&cs, 0);
    if i >= cs.len() {
        None
    } else {
        let j = nul_from_exec(&cs, i + 1);
        Some(string_between(&cs, i + 1, j))
    }
}

/// What the cache answers for `name`: the identifier of the last entry for it.
pub open spec fn lookup(entries: Seq<(Seq<char>, u32)>, name: Seq<char>) -> Option<u32>
    decreases entries.len(),
{
    if entries.len() == 0 {
        None
    } else if entries.last().0 == name {
        Some(entries.last().1)
    } else {
        lookup(entries.drop_last(), name)
    }
}

/// Whether every entry holds what interning its name gives.
pub open spec fn cache_agrees<E>(entries: Seq<(Seq<char>, u32)>, atoms: spec_fn(Seq<char>) -> Result<u32, E>) -> bool {
    forall|i: int| 0 <= i < entries.len() ==> atoms(#[trigger] entries[i].0) == Ok::<u32, E>(entries[i].1)
}

/// Whether the round trip `f` gives, for each atom name, what `atoms` says.
pub open spec fn interns_as<I, E>(f: I, atoms: spec_fn(Seq<char>) -> Result<u32, E>) -> bool
    where I: Fn(&str) -> Result<u32, E>,
{
    forall|n: &str, r: Result<u32, E>| #[trigger] call_ensures(f, (n,), r) ==> r == atoms(n@)
}

/// An answer of the cache agrees with the server.
pub proof fn lemma_lookup_agrees<E>(entries: Seq<(Seq<char>, u32)>, atoms: spec_fn(Seq<char>) -> Result<u32, E>, name: Seq<char>)
    requires
        cache_agrees(entries, atoms),
    ensures
        lookup(entries, name) matches Some(a) ==> atoms(name) == Ok::<u32, E>(a),
    decreases entries.len(),
{
    if entries.len() > 0 {
        let last = entries.len() - 1;
        assert(atoms(entries[last].0) == Ok::<u32, E>(entries[last].1));
        if entries.last().0 != name {
            assert(cache_agrees(entries.drop_last(), atoms)) by {
                assert forall|i: int| 0 <= i < entries.drop_last().len() implies
                    atoms(#[trigger] entries.drop_last()[i].0) == Ok::<u32, E>(entries.drop_last()[i].1) by {
                    assert(entries.drop_last()[i] == entries[i]);
                }
            }
            lemma_lookup_agrees(entries.drop_last(), atoms, name);
        }
    }
}

/// Once a name has been interned, the cache answers it with the same identifier,
/// and answers every other name as before.
pub proof fn lemma_intern_remembers(entries: Seq<(Seq<char>, u32)>, name: Seq<char>, atom: u32, other: Seq<char>)
    ensures
        lookup(entries.push((name, atom)), name) == Some(atom),
        other != name ==> lookup(entries.push((name, atom)), other) == lookup(entries, other),
{
    assert(entries.push((name, atom)).drop_last() == entries);
}

/// Identifiers of atom names that were already resolved, kept for the life of
/// the connection so that each name costs one round trip at most.
pub struct AtomCache {
    entries: Vec<(String, u32)>,
}

impl View for AtomCache {
    type V = Seq<(Seq<char>, u32)>;

    closed spec fn view(&self) -> Seq<(Seq<char>, u32)> {
        self.entries@.map_values(|e: (String, u32)| (e.0@, e.1))
    }
}

impl AtomCache {
    /// An empty cache.
    pub fn new() -> (r: AtomCache)
        ensures
            r@ == Seq::<(Seq<char>, u32)>::empty(),
    {
        let r = AtomCache { entries: Vec::new() };
        assert(r@ =~= Seq::<(Seq<char>, u32)>::empty());
        r
    }

    /// The identifier the cache holds for `name`, if any.
    pub fn get(&self, name: &str) -> (r: Option<u32>)
        ensures
            r == lookup(self@, name@),
    {
        let key = name.to_owned();
        let mut k = self.entries.len();
        assert(self@.subrange(0, k as int) =~= self@);
        while k > 0
            invariant
                k <= self.entries.len(),
                key@ == name@,
                lookup(self@, name@) == lookup(self@.subrange(0, k as int), name@),
            decreases k,
        {
            let e = &self.entries[k - 1];
            assert(self@.subrange(0, k as int).last() == self@[k - 1]);
            if e.0.eq(&key) {
                return Some(e.1);
            }
            assert(self@.subrange(0, k as int).drop_last() =~= self@.subrange(0, k - 1));
            k = k - 1;
        }
        None
    }

    /// The identifier of the atom `name`. The first time a name is asked for,
    /// `fetch` makes the round trip and the answer is kept; afterwards the kept
    /// answer is given and `fetch` is not called. A failure of `fetch` is
    /// returned and nothing is kept.
    pub fn intern<I, E>(&mut self, name: &str, fetch: &I) -> (r: Result<u32, E>)
        where I: Fn(&str) -> Result<u32, E>,
        requires
            forall|n: &str| call_requires(*fetch, (n,)),
        ensures
            match lookup(old(self)@, name@) {
                Some(a) => r == Ok::<u32, E>(a) && final(self)@ == old(self)@,
                None => match r {
                    Ok(a) => final(self)@ == old(self)@.push((name@, a)),
                    Err(_) => final(self)@ == old(self)@,
                },
            },
            forall|atoms: spec_fn(Seq<char>) -> Result<u32, E>|
                interns_as(*fetch, atoms) && cache_agrees(old(self)@, atoms) ==>
                    r == atoms(name@) && #[trigger] cache_agrees(final(self)@, atoms),
    {
        if let Some(a) = self.get(name) {
            proof {
                assert forall|atoms: spec_fn(Seq<char>) -> Result<u32, E>|
                    interns_as(*fetch, atoms) && cache_agrees(old(self)@, atoms) implies
                        Ok::<u32, E>(a) == atoms(name@) by {
                    lemma_lookup_agrees(old(self)@, atoms, name@);
                }
            }
            return Ok(a);
        }
        let r = fetch(name);
        assert(call_ensures(*fetch, (name,), r));
        if let Ok(a) = r {
            let ghost before = self@;
            self.entries.push((name.to_owned(), a));
            assert(self@ =~= before.push((name@, a)));
        }
        r
    }
}

/// A property fetch as the model of a server sees it.
pub open spec fn raw_view<E>(r: Result<Option<RawProperty>, E>) -> Result<Option<(u32, Seq<u8>)>, E> {
    match r {
        Ok(Some(p)) => Ok(Some((p.type_atom, p.value@))),
        Ok(None) => Ok(None),
        Err(e) => Err(e),
    }
}

/// Whether the round trip `f` gives, for each window and property atom, what
/// `props` says: the type and bytes of the value, `None` where the window has
/// no such property, or the error of a failed request.
pub open spec fn fetches_as<G, E>(f: G, props: spec_fn(u32, u32) -> Result<Option<(u32, Seq<u8>)>, E>) -> bool
    where G: Fn(u32, u32) -> Result<Option<RawProperty>, E>,
{
    forall|w: u32, a: u32, r: Result<Option<RawProperty>, E>| #[trigger] call_ensures(f, (w, a), r) ==> raw_view(r) == props(w, a)
}

/// The text of property `property` of `window`: `None` where the window has no
/// such value or it holds no text. A failed fetch, or a failure to intern
/// `UTF8_STRING`, is an error.
pub open spec fn string_value<E>(
    props: spec_fn(u32, u32) -> Result<Option<(u32, Seq<u8>)>, E>,
    atoms: spec_fn(Seq<char>) -> Result<u32, E>,
    window: u32,
    property: u32,
) -> Result<Option<Seq<char>>, E> {
    match props(window, property) {
        Err(e) => Err(e),
        Ok(None) => Ok(None),
        Ok(Some((ty, bytes))) => match atoms(UTF8_STRING@) {
            Ok(u) => Ok(decoded(ty, u, bytes)),
            Err(e) => Err(e),
        },
    }
}

/// The text of property `property` of `window`, fetched through `fetch`.
pub fn get_string_property<G, I, E>(cache: &mut AtomCache, fetch: &G, intern: &I, window: u32, property: u32) -> (r: Result<Option<String>, E>)
    where G: Fn(u32, u32) -> Result<Option<RawProperty>, E>, I: Fn(&str) -> Result<u32, E>,
    requires
        forall|w: u32, a: u32| call_requires(*fetch, (w, a)),
        forall|n: &str| call_requires(*intern, (n,)),
    ensures
        forall|props: spec_fn(u32, u32) -> Result<Option<(u32, Seq<u8>)>, E>, atoms: spec_fn(Seq<char>) -> Result<u32, E>|
            fetches_as(*fetch, props) && interns_as(*intern, atoms) && cache_agrees(old(cache)@, atoms) ==>
                resolved_view(r) == #[trigger] string_value(props, atoms, window, property)
                && cache_agrees(final(cache)@, atoms),
{
    let ghost start = cache@;
    let raw = fetch(window, property);
    assert(call_ensures(*fetch, (window, property), raw));
    let ghost rv = raw_view(raw);
    match raw {
        Err(e) => {
            assert forall|props: spec_fn(u32, u32) -> Result<Option<(u32, Seq<u8>)>, E>, atoms: spec_fn(Seq<char>) -> Result<u32, E>|
                fetches_as(*fetch, props) && interns_as(*intern, atoms) && cache_agrees(start, atoms) implies
                    resolved_view(Err::<Option<String>, E>(e)) == #[trigger] string_value(props, atoms, window, property) by {
                assert(props(window, property) == rv);
            }
            Err(e)
        },
        Ok(None) => {
            assert forall|props: spec_fn(u32, u32) -> Result<Option<(u32, Seq<u8>)>, E>, atoms: spec_fn(Seq<char>) -> Result<u32, E>|
                fetches_as(*fetch, props) && interns_as(*intern, atoms) && cache_agrees(start, atoms) implies
                    resolved_view(Ok::<Option<String>, E>(None)) == #[trigger] string_value(props, atoms, window, property) by {
                assert(props(window, property) == rv);
            }
            Ok(None)
        },
        Ok(Some(raw)) => {
            let u = cache.intern(UTF8_STRING, intern);
            let r = match u {
                Ok(utf8) => Ok(decode_property(raw, utf8)),
                Err(e) => Err(e),
            };
            assert forall|props: spec_fn(u32, u32) -> Result<Option<(u32, Seq<u8>)>, E>, atoms: spec_fn(Seq<char>) -> Result<u32, E>|
                fetches_as(*fetch, props) && interns_as(*intern, atoms) && cache_agrees(start, atoms) implies
                    resolved_view(r) == #[trigger] string_value(props, atoms, window, property)
                    && cache_agrees(cache@, atoms) by {
                assert(props(window, property) == rv);
                assert(cache_agrees(cache@, atoms));
                assert(u == atoms(UTF8_STRING@));
            }
            r
        },
    }
}

/// Why a property could not be resolved.
pub enum ResolveError<E> {
    /// A round trip to the server failed.
    Protocol(E),
    /// The `WM_CLASS` value does not hold a class name after an instance name.
    InvalidClass,
}

/// A failed round trip as a resolution error.
pub open spec fn protocol<T, E>(r: Result<T, E>) -> Result<T, ResolveError<E>> {
    match r {
        Ok(v) => Ok(v),
        Err(e) => Err(ResolveError::Protocol(e)),
    }
}

/// What property `p` of `window` resolves to: the class name from `WM_CLASS`;
/// the name from `_NET_WM_NAME`, else from `WM_NAME`; the role from `WM_WINDOW_ROLE`.
pub open spec fn resolve_spec<E>(
    p: Property,
    props: spec_fn(u32, u32) -> Result<Option<(u32, Seq<u8>)>, E>,
    atoms: spec_fn(Seq<char>) -> Result<u32, E>,
    window: u32,
) -> Result<Option<Seq<char>>, ResolveError<E>> {
    match p {
        Property::Class => match string_value(props, atoms, window, ATOM_WM_CLASS) {
            Ok(Some(v)) => match class_of(v) {
                Some(c) => Ok(Some(c)),
                None => Err(ResolveError::InvalidClass),
            },
            other => protocol(other),
        },
        Property::Name => match atoms(NET_WM_NAME@) {
            Ok(a) => match string_value(props, atoms, window, a) {
                Ok(None) => protocol(string_value(props, atoms, window, ATOM_WM_NAME)),
                other => protocol(other),
            },
            Err(e) => Err(ResolveError::Protocol(e)),
        },
        Property::Role => match atoms(WM_WINDOW_ROLE@) {
            Ok(a) => protocol(string_value(props, atoms, window, a)),
            Err(e) => Err(ResolveError::Protocol(e)),
        },
    }
}

impl Property {
    /// The value of this property on `window`, or `None` where the window has none.
    pub fn from_window<G, I, E>(&self, cache: &mut AtomCache, fetch: &G, intern: &I, window: u32) -> (r: Result<Option<String>, ResolveError<E>>)
        where G: Fn(u32, u32) -> Result<Option<RawProperty>, E>, I: Fn(&str) -> Result<u32, E>,
        requires
            forall|w: u32, a: u32| call_requires(*fetch, (w, a)),
            forall|n: &str| call_requires(*intern, (n,)),
        ensures
            forall|props: spec_fn(u32, u32) -> Result<Option<(u32, Seq<u8>)>, E>, atoms: spec_fn(Seq<char>) -> Result<u32, E>|
                fetches_as(*fetch, props) && interns_as(*intern, atoms) && cache_agrees(old(cache)@, atoms) ==>
                    resolved_view(r) == #[trigger] resolve_spec(*self, props, atoms, window)
                    && cache_agrees(final(cache)@, atoms),
    {
        let ghost c0 = cache@;
        match self {
            Property::Class => {
                let v = get_string_property(cache, fetch, intern, window, ATOM_WM_CLASS);
                let r = match v {
                    Ok(Some(v)) => match class_component(v.as_str()) {
                        Some(c) => Ok(Some(c)),
                        None => Err(ResolveError::InvalidClass),
                    },
                    Ok(None) => Ok(None),
                    Err(e) => Err(ResolveError::Protocol(e)),
                };
                assert forall|props: spec_fn(u32, u32) -> Result<Option<(u32, Seq<u8>)>, E>, atoms: spec_fn(Seq<char>) -> Result<u32, E>|
                    fetches_as(*fetch, props) && interns_as(*intern, atoms) && cache_agrees(c0, atoms) implies
                        resolved_view(r) == #[trigger] resolve_spec(*self, props, atoms, window)
                        && cache_agrees(cache@, atoms) by {
                    assert(resolved_view(v) == string_value(props, atoms, window, ATOM_WM_CLASS));
                }
                r
            },
            Property::Name => {
                let u = cache.intern(NET_WM_NAME, intern);
                let ghost c1 = cache@;
                let a = match u {
                    Ok(a) => a,
                    Err(e) => {
                        assert forall|props: spec_fn(u32, u32) -> Result<Option<(u32, Seq<u8>)>, E>, atoms: spec_fn(Seq<char>) -> Result<u32, E>|
                            fetches_as(*fetch, props) && interns_as(*intern, atoms) && cache_agrees(c0, atoms) implies
                                resolved_view(Err::<Option<String>, ResolveError<E>>(ResolveError::Protocol(e))) == #[trigger] resolve_spec(*self, props, atoms, window)
                                && cache_agrees(cache@, atoms) by {
                            assert(cache_agrees(c1, atoms));
                        }
                        return Err(ResolveError::Protocol(e));
                    },
                };
                let first = get_string_property(cache, fetch, intern, window, a);
                let ghost c2 = cache@;
                let r = match first {
                    Ok(Some(v)) => Ok(Some(v)),
                    Ok(None) => match get_string_property(cache, fetch, intern, window, ATOM_WM_NAME) {
                        Ok(v) => Ok(v),
                        Err(e) => Err(ResolveError::Protocol(e)),
                    },
                    Err(e) => Err(ResolveError::Protocol(e)),
                };
                assert forall|props: spec_fn(u32, u32) -> Result<Option<(u32, Seq<u8>)>, E>, atoms: spec_fn(Seq<char>) -> Result<u32, E>|
                    fetches_as(*fetch, props) && interns_as(*intern, atoms) && cache_agrees(c0, atoms) implies
                        resolved_view(r) == #[trigger] resolve_spec(*self, props, atoms, window)
                        && cache_agrees(cache@, atoms) by {
                    assert(cache_agrees(c1, atoms));
                    assert(u == atoms(NET_WM_NAME@));
                    assert(resolved_view(first) == string_value(props, atoms, window, a));
                    assert(cache_agrees(c2, atoms));
                    if first == Ok::<Option<String>, E>(None) {
                        assert(cache_agrees(cache@, atoms));
                        assert(resolved_view(r) == protocol(string_value(props, atoms, window, ATOM_WM_NAME)));
                    }
                }
                r
            },
            Property::Role => {
                let u = cache.intern(WM_WINDOW_ROLE, intern);
                let ghost c1 = cache@;
                let a = match u {
                    Ok(a) => a,
                    Err(e) => {
                        assert forall|props: spec_fn(u32, u32) -> Result<Option<(u32, Seq<u8>)>, E>, atoms: spec_fn(Seq<char>) -> Result<u32, E>|
                            fetches_as(*fetch, props) && interns_as(*intern, atoms) && cache_agrees(c0, atoms) implies
                                resolved_view(Err::<Option<String>, ResolveError<E>>(ResolveError::Protocol(e))) == #[trigger] resolve_spec(*self, props, atoms, window)
                                && cache_agrees(cache@, atoms) by {
                            assert(cache_agrees(c1, atoms));
                        }
                        return Err(ResolveError::Protocol(e));
                    },
                };
                let v = get_string_property(cache, fetch, intern, window, a);
                let r = match v {
                    Ok(v) => Ok(v),
                    Err(e) => Err(ResolveError::Protocol(e)),
                };
                assert forall|props: spec_fn(u32, u32) -> Result<Option<(u32, Seq<u8>)>, E>, atoms: spec_fn(Seq<char>) -> Result<u32, E>|
                    fetches_as(*fetch, props) && interns_as(*intern, atoms) && cache_agrees(c0, atoms) implies
                        resolved_view(r) == #[trigger] resolve_spec(*self, props, atoms, window)
                        && cache_agrees(cache@, atoms) by {
                    assert(cache_agrees(c1, atoms));
                    assert(u == atoms(WM_WINDOW_ROLE@));
                    assert(resolved_view(v) == string_value(props, atoms, window, a));
                }
                r
            },
        }
    }
}

/// Whether the round trip `f` gives, for each window and atom, what `states`
/// says: the 32-bit items of the window's `WM_STATE` value, `None` where it has
/// none, or the error of a failed request.
pub open spec fn states_as<S, E>(f: S, states: spec_fn(u32, u32) -> Result<Option<Seq<u32>>, E>) -> bool
    where S: Fn(u32, u32) -> Result<Option<Vec<u32>>, E>,
{
    forall|w: u32, a: u32, r: Result<Option<Vec<u32>>, E>| #[trigger] call_ensures(f, (w, a), r) ==>
        states(w, a) == match r {
            Ok(Some(v)) => Ok(Some(v@)),
            Ok(None) => Ok(None::<Seq<u32>>),
            Err(e) => Err::<Option<Seq<u32>>, E>(e),
        }
}

/// A window is regular when the window manager has given it a non-empty state.
/// A failed fetch of the state, or a failure to intern `WM_STATE`, is an error.
pub open spec fn regular_spec<E>(
    states: spec_fn(u32, u32) -> Result<Option<Seq<u32>>, E>,
    atoms: spec_fn(Seq<char>) -> Result<u32, E>,
    window: u32,
) -> Result<bool, E> {
    match atoms(WM_STATE@) {
        Ok(a) => match states(window, a) {
            Ok(v) => Ok(v matches Some(items) && items.len() > 0),
            Err(e) => Err(e),
        },
        Err(e) => Err(e),
    }
}

/// Whether `window` is a top-level window that the window manager manages.
pub fn is_regular_window<S, I, E>(cache: &mut AtomCache, state: &S, intern: &I, window: u32) -> (r: Result<bool, E>)
    where S: Fn(u32, u32) -> Result<Option<Vec<u32>>, E>, I: Fn(&str) -> Result<u32, E>,
    requires
        forall|w: u32, a: u32| call_requires(*state, (w, a)),
        forall|n: &str| call_requires(*intern, (n,)),
    ensures
        forall|states: spec_fn(u32, u32) -> Result<Option<Seq<u32>>, E>, atoms: spec_fn(Seq<char>) -> Result<u32, E>|
            states_as(*state, states) && interns_as(*intern, atoms) && cache_agrees(old(cache)@, atoms) ==>
                r == #[trigger] regular_spec(states, atoms, window)
                && cache_agrees(final(cache)@, atoms),
{
    let ghost c0 = cache@;
    let u = cache.intern(WM_STATE, intern);
    let ghost c1 = cache@;
    let a = match u {
        Ok(a) => a,
        Err(e) => {
            assert forall|states: spec_fn(u32, u32) -> Result<Option<Seq<u32>>, E>, atoms: spec_fn(Seq<char>) -> Result<u32, E>|
                states_as(*state, states) && interns_as(*intern, atoms) && cache_agrees(c0, atoms) implies
                    Err::<bool, E>(e) == #[trigger] regular_spec(states, atoms, window)
                    && cache_agrees(cache@, atoms) by {
                assert(cache_agrees(c1, atoms));
            }
            return Err(e);
        },
    };
    let v = state(window, a);
    assert(call_ensures(*state, (window, a), v));
    let r = match v {
        Ok(Some(items)) => Ok(items.len() > 0),
        Ok(None) => Ok(false),
        Err(e) => Err(e),
    };
    assert forall|states: spec_fn(u32, u32) -> Result<Option<Seq<u32>>, E>, atoms: spec_fn(Seq<char>) -> Result<u32, E>|
        states_as(*state, states) && interns_as(*intern, atoms) && cache_agrees(c0, atoms) implies
            r == #[trigger] regular_spec(states, atoms, window)
            && cache_agrees(cache@, atoms) by {
        assert(cache_agrees(c1, atoms));
        assert(u == atoms(WM_STATE@));
    }
    r
}

/// How many windows a search looks at, at most. Window identifiers are 32-bit
/// values, so a window tree has fewer windows than this.
pub const SEARCH_LIMIT: u64 = 4294967296;

/// Whether the round trip `f` gives, for each window, what `kids` says.
pub open spec fn children_as<Q, E>(f: Q, kids: spec_fn(u32) -> Result<Seq<u32>, E>) -> bool
    where Q: Fn(u32) -> Result<Vec<u32>, E>,
{
    forall|w: u32, r: Result<Vec<u32>, E>| #[trigger] call_ensures(f, (w,), r) ==>
        kids(w) == match r {
            Ok(v) => Ok(v@),
            Err(e) => Err::<Seq<u32>, E>(e),
        }
}

/// Whether the test `f` gives, for each window, what `test` says.
pub open spec fn tests_as<T, E>(f: T, test: spec_fn(u32) -> Result<bool, E>) -> bool
    where T: Fn(u32) -> Result<bool, E>,
{
    forall|w: u32, r: Result<bool, E>| #[trigger] call_ensures(f, (w,), r) ==> r == test(w)
}

/// Whether `window` is regular and passes the condition; the condition is
/// looked at only for a regular window.
pub open spec fn accepts<E>(regular: spec_fn(u32) -> Result<bool, E>, matches: spec_fn(u32) -> Result<bool, E>, window: u32) -> Result<bool, E> {
    match regular(window) {
        Ok(true) => matches(window),
        other => other,
    }
}

/// The depth-first search over the windows on `stack`, taking the last one
/// first: it asks for the window's children and puts them on the stack, then
/// gives the window if it is regular and matches. At most `budget` windows are
/// looked at.
pub open spec fn search<E>(
    stack: Seq<u32>,
    budget: nat,
    kids: spec_fn(u32) -> Result<Seq<u32>, E>,
    regular: spec_fn(u32) -> Result<bool, E>,
    matches: spec_fn(u32) -> Result<bool, E>,
) -> Result<Option<u32>, E>
    decreases budget,
{
    if budget == 0 || stack.len() == 0 {
        Ok(None)
    } else {
        let w = stack.last();
        match kids(w) {
            Err(e) => Err(e),
            Ok(cs) => match accepts(regular, matches, w) {
                Err(e) => Err(e),
                Ok(true) => Ok(Some(w)),
                Ok(false) => search(stack.drop_last() + cs, (budget - 1) as nat, kids, regular, matches),
            },
        }
    }
}

/// The first regular window below `root`, in depth-first order, that matches.
pub open spec fn find_spec<E>(
    root: u32,
    kids: spec_fn(u32) -> Result<Seq<u32>, E>,
    regular: spec_fn(u32) -> Result<bool, E>,
    matches: spec_fn(u32) -> Result<bool, E>,
) -> Result<Option<u32>, E> {
    match kids(root) {
        Err(e) => Err(e),
        Ok(cs) => search(cs, SEARCH_LIMIT as nat, kids, regular, matches),
    }
}

/// Searches the windows below `root` depth first and gives the first one that
/// is regular and matches, or `None` where no window does. A failed round
/// trip ends the search and is returned.
pub fn find_matching_window<Q, R, M, E>(root: u32, children: &Q, regular: &R, matches: &M) -> (r: Result<Option<u32>, E>)
    where Q: Fn(u32) -> Result<Vec<u32>, E>, R: Fn(u32) -> Result<bool, E>, M: Fn(u32) -> Result<bool, E>,
    requires
        forall|w: u32| call_requires(*children, (w,)),
        forall|w: u32| call_requires(*regular, (w,)),
        forall|w: u32| call_requires(*matches, (w,)),
    ensures
        forall|kids: spec_fn(u32) -> Result<Seq<u32>, E>, reg: spec_fn(u32) -> Result<bool, E>, hit: spec_fn(u32) -> Result<bool, E>|
            children_as(*children, kids) && tests_as(*regular, reg) && tests_as(*matches, hit) ==>
                r == #[trigger] find_spec(root, kids, reg, hit),
{
    let top = children(root);
    assert(call_ensures(*children, (root,), top));
    let mut stack = match top {
        Ok(v) => v,
        Err(e) => {
            return Err(e);
        },
    };
    let mut budget: u64 = SEARCH_LIMIT;
    while budget > 0 && stack.len() > 0
        invariant
            forall|w: u32| call_requires(*children, (w,)),
            forall|w: u32| call_requires(*regular, (w,)),
            forall|w: u32| call_requires(*matches, (w,)),
            forall|kids: spec_fn(u32) -> Result<Seq<u32>, E>, reg: spec_fn(u32) -> Result<bool, E>, hit: spec_fn(u32) -> Result<bool, E>|
                children_as(*children, kids) && tests_as(*regular, reg) && tests_as(*matches, hit) ==>
                    #[trigger] find_spec(root, kids, reg, hit) == search(stack@, budget as nat, kids, reg, hit),
        decreases budget,
    {
        let ghost before = stack@;
        let w = match stack.pop() {
            Some(w) => w,
            None => {
                return Ok(None);
            },
        };
        assert(before.drop_last() == stack@);
        let below = children(w);
        assert(call_ensures(*children, (w,), below));
        let mut cs = match below {
            Ok(v) => v,
            Err(e) => {
                return Err(e);
            },
        };
        let ghost kids_of_w = cs@;
        let is_reg = regular(w);
        assert(call_ensures(*regular, (w,), is_reg));
        let accepted = match is_reg {
            Ok(true) => {
                let m = matches(w);
                assert(call_ensures(*matches, (w,), m));
                m
            },
            other => other,
        };
        match accepted {
            Ok(true) => {
                return Ok(Some(w));
            },
            Ok(false) => {},
            Err(e) => {
                return Err(e);
            },
        }
        stack.append(&mut cs);
        assert(stack@ == before.drop_last() + kids_of_w);
        budget = budget - 1;
    }
    Ok(None)
}

proof fn lemma_no_nul(s: Seq<char>, i: int)
    requires
        0 <= i <= s.len(),
        forall|k: int| 0 <= k < s.len() ==> s[k] != '\0',
    ensures
        nul_from(s, i) == s.len(),
    decreases s.len() - i,
{
    if i < s.len() {
        lemma_no_nul(s, i + 1);
    }
}

/// A `WM_CLASS` value without a NUL separator is an invalid class, not an
/// absent or empty one.
pub proof fn lemma_class_without_separator<E>(
    props: spec_fn(u32, u32) -> Result<Option<(u32, Seq<u8>)>, E>,
    atoms: spec_fn(Seq<char>) -> Result<u32, E>,
    window: u32,
    v: Seq<char>,
)
    requires
        string_value(props, atoms, window, ATOM_WM_CLASS) == Ok::<Option<Seq<char>>, E>(Some(v)),
        forall|k: int| 0 <= k < v.len() ==> v[k] != '\0',
    ensures
        class_of(v) is None,
        resolve_spec(Property::Class, props, atoms, window) == Err::<Option<Seq<char>>, ResolveError<E>>(ResolveError::InvalidClass),
{
    lemma_no_nul(v, 0);
}

/// A window that the search gives is regular and matches.
pub proof fn lemma_search_finds_accepted<E>(
    stack: Seq<u32>,
    budget: nat,
    kids: spec_fn(u32) -> Result<Seq<u32>, E>,
    regular: spec_fn(u32) -> Result<bool, E>,
    matches: spec_fn(u32) -> Result<bool, E>,
)
    ensures
        search(stack, budget, kids, regular, matches) matches Ok(Some(w)) ==>
            regular(w) == Ok::<bool, E>(true) && matches(w) == Ok::<bool, E>(true),
    decreases budget,
{
    if budget > 0 && stack.len() > 0 {
        let w = stack.last();
        if let Ok(cs) = kids(w) {
            if accepts(regular, matches, w) == Ok::<bool, E>(false) {
                lemma_search_finds_accepted(stack.drop_last() + cs, (budget - 1) as nat, kids, regular, matches);
            }
        }
    }
}

/// The windows that the search over `stack` visits, in order: the last window
/// on the stack first, then, depth first, what is found below it. A window
/// whose children cannot be listed ends the visit.
pub open spec fn visit_order<E>(stack: Seq<u32>, budget: nat, kids: spec_fn(u32) -> Result<Seq<u32>, E>) -> Seq<u32>
    decreases budget,
{
    if budget == 0 || stack.len() == 0 {
        Seq::empty()
    } else {
        let w = stack.last();
        match kids(w) {
            Ok(cs) => seq![w] + visit_order(stack.drop_last() + cs, (budget - 1) as nat, kids),
            Err(_) => seq![w],
        }
    }
}

/// The first window of `ws` that is regular and matches.
pub open spec fn first_accepted<E>(
    ws: Seq<u32>,
    regular: spec_fn(u32) -> Result<bool, E>,
    matches: spec_fn(u32) -> Result<bool, E>,
) -> Option<u32>
    decreases ws.len(),
{
    if ws.len() == 0 {
        None
    } else if accepts(regular, matches, ws[0]) == Ok::<bool, E>(true) {
        Some(ws[0])
    } else {
        first_accepted(ws.drop_first(), regular, matches)
    }
}

/// Where no round trip fails, the search gives the first window in depth-first
/// visiting order that is regular and matches, and `None` where there is none.
/// The condition of a window that is not regular is never looked at: it may
/// even fail.
pub proof fn lemma_search_first_in_order<E>(
    stack: Seq<u32>,
    budget: nat,
    kids: spec_fn(u32) -> Result<Seq<u32>, E>,
    regular: spec_fn(u32) -> Result<bool, E>,
    matches: spec_fn(u32) -> Result<bool, E>,
)
    requires
        forall|w: u32| #[trigger] kids(w) is Ok,
        forall|w: u32| #[trigger] regular(w) is Ok,
        forall|w: u32| regular(w) == Ok::<bool, E>(true) ==> #[trigger] matches(w) is Ok,
    ensures
        search(stack, budget, kids, regular, matches)
            == Ok::<Option<u32>, E>(first_accepted(visit_order(stack, budget, kids), regular, matches)),
    decreases budget,
{
    if budget > 0 && stack.len() > 0 {
        let w = stack.last();
        let cs = kids(w)->Ok_0;
        let next = stack.drop_last() + cs;
        let ws = visit_order(stack, budget, kids);
        assert(kids(w) is Ok);
        assert(regular(w) is Ok);
        assert(ws == seq![w] + visit_order(next, (budget - 1) as nat, kids));
        assert(ws.drop_first() =~= visit_order(next, (budget - 1) as nat, kids));
        if regular(w) == Ok::<bool, E>(true) {
            assert(matches(w) is Ok);
        }
        lemma_search_first_in_order(next, (budget - 1) as nat, kids, regular, matches);
    }
}

} // verus!
