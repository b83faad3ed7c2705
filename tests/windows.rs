use std::cell::{Cell, RefCell};

use run_or_raise::conditions::{Condition, Match, Operator, Property};
use run_or_raise::parsing::parse;
use run_or_raise::utils::Failure;
use run_or_raise::windows::{
    class_component, decode_property, find_matching_window, get_string_property,
    is_regular_window, AtomCache, RawProperty, ResolveError, ATOM_STRING, ATOM_WM_CLASS,
    ATOM_WM_NAME,
};

const UTF8: u32 = 300;
const NET_NAME: u32 = 301;
const ROLE: u32 = 302;
const STATE: u32 = 303;

fn atom_of(name: &str) -> Result<u32, String> {
    match name {
        "UTF8_STRING" => Ok(UTF8),
        "_NET_WM_NAME" => Ok(NET_NAME),
        "WM_WINDOW_ROLE" => Ok(ROLE),
        "WM_STATE" => Ok(STATE),
        _ => Err(format!("unknown atom {}", name)),
    }
}

type Fetched = Result<Option<RawProperty>, String>;

fn text(type_atom: u32, s: &str) -> Fetched {
    Ok(Some(RawProperty { type_atom, value: s.as_bytes().to_vec() }))
}

#[test]
fn intern_makes_one_round_trip_per_name() {
    let calls = Cell::new(0);
    let fetch = |name: &str| {
        calls.set(calls.get() + 1);
        atom_of(name)
    };
    let mut cache = AtomCache::new();
    assert_eq!(cache.get("WM_STATE"), None);
    let first = cache.intern("WM_STATE", &fetch);
    let second = cache.intern("WM_STATE", &fetch);
    assert_eq!(first, Ok(STATE));
    assert_eq!(second, Ok(STATE));
    assert_eq!(calls.get(), 1);
    assert_eq!(cache.get("WM_STATE"), Some(STATE));
    assert_eq!(cache.intern("UTF8_STRING", &fetch), Ok(UTF8));
    assert_eq!(calls.get(), 2);
}

#[test]
fn intern_failure_is_not_kept() {
    let calls = Cell::new(0);
    let fetch = |_: &str| -> Result<u32, String> {
        calls.set(calls.get() + 1);
        Err("connection lost".to_string())
    };
    let mut cache = AtomCache::new();
    assert_eq!(cache.intern("WM_STATE", &fetch), Err("connection lost".to_string()));
    assert_eq!(cache.intern("WM_STATE", &fetch), Err("connection lost".to_string()));
    assert_eq!(calls.get(), 2);
    assert_eq!(cache.get("WM_STATE"), None);
}

#[test]
fn decode_property_by_type() {
    let latin1 = RawProperty { type_atom: ATOM_STRING, value: vec![0x63, 0x61, 0x66, 0xe9] };
    assert_eq!(decode_property(latin1, UTF8), Some("caf\u{e9}".to_string()));
    let utf8 = RawProperty { type_atom: UTF8, value: "caf\u{e9}".as_bytes().to_vec() };
    assert_eq!(decode_property(utf8, UTF8), Some("caf\u{e9}".to_string()));
    let bad = RawProperty { type_atom: UTF8, value: vec![0xff, 0xfe] };
    assert_eq!(decode_property(bad, UTF8), None);
    let other = RawProperty { type_atom: 7, value: vec![0x61] };
    assert_eq!(decode_property(other, UTF8), None);
}

#[test]
fn class_component_takes_second_string() {
    assert_eq!(class_component("navigator\0Firefox\0"), Some("Firefox".to_string()));
    assert_eq!(class_component("emacs\0Emacs"), Some("Emacs".to_string()));
    assert_eq!(class_component("a\0"), Some("".to_string()));
    assert_eq!(class_component("Firefox"), None);
}

#[test]
fn class_without_separator_is_an_error() {
    let fetch = |_: u32, a: u32| if a == ATOM_WM_CLASS { text(ATOM_STRING, "Firefox") } else { Ok(None) };
    let mut cache = AtomCache::new();
    let r = Property::Class.from_window(&mut cache, &fetch, &atom_of, 5);
    assert!(matches!(r, Err(ResolveError::InvalidClass)));
}

#[test]
fn class_resolves_to_class_name() {
    let fetch = |_: u32, a: u32| if a == ATOM_WM_CLASS { text(ATOM_STRING, "navigator\0Firefox\0") } else { Ok(None) };
    let mut cache = AtomCache::new();
    let r = Property::Class.from_window(&mut cache, &fetch, &atom_of, 5);
    assert!(matches!(r, Ok(Some(ref s)) if s == "Firefox"));
}

#[test]
fn name_prefers_net_name_then_falls_back() {
    let both = |_: u32, a: u32| match a {
        NET_NAME => text(UTF8, "modern"),
        ATOM_WM_NAME => text(ATOM_STRING, "legacy"),
        _ => Ok(None),
    };
    let legacy_only = |_: u32, a: u32| if a == ATOM_WM_NAME { text(ATOM_STRING, "legacy") } else { Ok(None) };
    let none = |_: u32, _: u32| -> Fetched { Ok(None) };
    let mut cache = AtomCache::new();
    let r = Property::Name.from_window(&mut cache, &both, &atom_of, 1);
    assert!(matches!(r, Ok(Some(ref s)) if s == "modern"));
    let r = Property::Name.from_window(&mut cache, &legacy_only, &atom_of, 1);
    assert!(matches!(r, Ok(Some(ref s)) if s == "legacy"));
    let r = Property::Name.from_window(&mut cache, &none, &atom_of, 1);
    assert!(matches!(r, Ok(None)));
}

#[test]
fn role_has_no_fallback() {
    let fetch = |_: u32, a: u32| if a == ATOM_WM_NAME { text(ATOM_STRING, "legacy") } else { Ok(None) };
    let mut cache = AtomCache::new();
    let r = Property::Role.from_window(&mut cache, &fetch, &atom_of, 1);
    assert!(matches!(r, Ok(None)));
    let with_role = |_: u32, a: u32| if a == ROLE { text(ATOM_STRING, "browser") } else { Ok(None) };
    let r = Property::Role.from_window(&mut cache, &with_role, &atom_of, 1);
    assert!(matches!(r, Ok(Some(ref s)) if s == "browser"));
}

#[test]
fn wrong_type_reads_as_absent() {
    let fetch = |_: u32, _: u32| text(9, "whatever");
    let mut cache = AtomCache::new();
    assert_eq!(get_string_property(&mut cache, &fetch, &atom_of, 1, ROLE), Ok(None));
}

#[test]
fn protocol_failure_propagates() {
    let fetch = |_: u32, _: u32| text(UTF8, "x");
    let broken = |_: &str| -> Result<u32, String> { Err("gone".to_string()) };
    let mut cache = AtomCache::new();
    let r = Property::Role.from_window(&mut cache, &fetch, &broken, 1);
    assert!(matches!(r, Err(ResolveError::Protocol(ref e)) if e == "gone"));
}

#[test]
fn regular_windows_have_a_state() {
    let state = |w: u32, a: u32| -> Result<Option<Vec<u32>>, String> {
        assert_eq!(a, STATE);
        match w {
            1 => Ok(Some(vec![1, 0])),
            2 => Ok(Some(vec![])),
            3 => Ok(None),
            _ => Err("no reply".to_string()),
        }
    };
    let mut cache = AtomCache::new();
    assert_eq!(is_regular_window(&mut cache, &state, &atom_of, 1), Ok(true));
    assert_eq!(is_regular_window(&mut cache, &state, &atom_of, 2), Ok(false));
    assert_eq!(is_regular_window(&mut cache, &state, &atom_of, 3), Ok(false));
    assert_eq!(is_regular_window(&mut cache, &state, &atom_of, 4), Err("no reply".to_string()));
}

#[test]
fn failed_property_fetch_is_an_error() {
    let fetch = |_: u32, _: u32| -> Fetched { Err("no reply".to_string()) };
    let mut cache = AtomCache::new();
    assert_eq!(get_string_property(&mut cache, &fetch, &atom_of, 1, ROLE), Err("no reply".to_string()));
    let r = Property::Name.from_window(&mut cache, &fetch, &atom_of, 1);
    assert!(matches!(r, Err(ResolveError::Protocol(ref e)) if e == "no reply"));
}

#[test]
fn and_does_not_evaluate_right_operand_after_false() {
    let c = parse("class = \"x\" && role = \"y\"").unwrap();
    let resolve = |p: Property| -> Result<Option<String>, String> {
        match p {
            Property::Class => Ok(Some("z".to_string())),
            _ => panic!("right operand evaluated"),
        }
    };
    assert_eq!(c.matches(&resolve), Ok(false));
}

#[test]
fn or_does_not_evaluate_right_operand_after_true() {
    let c = parse("class = \"x\" || role = \"y\"").unwrap();
    let resolve = |p: Property| -> Result<Option<String>, String> {
        match p {
            Property::Class => Ok(Some("x".to_string())),
            _ => Err("right operand evaluated".to_string()),
        }
    };
    assert_eq!(c.matches(&resolve), Ok(true));
}

#[test]
fn evaluation_follows_values() {
    let resolve = |p: Property| -> Result<Option<String>, String> {
        match p {
            Property::Class => Ok(Some("Firefox".to_string())),
            Property::Name => Ok(Some("GNU Emacs".to_string())),
            Property::Role => Ok(None),
        }
    };
    let cases = [
        ("class = \"Firefox\"", true),
        ("class = \"Fire\"", false),
        ("class ~ \"^Fire\"", true),
        ("!class = \"Firefox\"", false),
        ("role = \"\"", false),
        ("!role ~ \".*\"", true),
        ("name ~ \"Emacs\" && !(class = \"Chrome\" || role = \"x\")", true),
    ];
    for (text, expected) in cases.iter() {
        let c = parse(text).unwrap();
        assert_eq!(c.matches(&resolve), Ok(*expected), "{}", text);
        assert_eq!(c.matches(&resolve), Ok(*expected), "{}", text);
    }
}

#[test]
fn evaluation_failure_propagates() {
    let c = parse("!(role = \"y\")").unwrap();
    let resolve = |_: Property| -> Result<Option<String>, String> { Err("gone".to_string()) };
    assert_eq!(c.matches(&resolve), Err("gone".to_string()));
}

#[test]
fn match_struct_matches_directly() {
    let m = Match { prop: Property::Name, op: Operator::Equal("a".to_string()) };
    let resolve = |_: Property| -> Result<Option<String>, String> { Ok(Some("a".to_string())) };
    assert_eq!(m.matches(&resolve), Ok(true));
    let c = Condition::Not(Box::new(Condition::Pure(m)));
    assert_eq!(c.matches(&resolve), Ok(false));
}

// Tree: root 0 has children [1, 2]; 2 has [3, 4]; 1 has [5].
// The stack is popped from the end, so the visiting order is 2, 4, 3, 1, 5.
fn tree(w: u32) -> Result<Vec<u32>, String> {
    Ok(match w {
        0 => vec![1, 2],
        2 => vec![3, 4],
        1 => vec![5],
        _ => vec![],
    })
}

#[test]
fn search_returns_first_regular_match_in_depth_first_order() {
    let visited = RefCell::new(Vec::new());
    let regular = |w: u32| -> Result<bool, String> {
        visited.borrow_mut().push(w);
        Ok(w != 4)
    };
    let matches = |w: u32| -> Result<bool, String> { Ok(w == 4 || w == 3 || w == 5) };
    assert_eq!(find_matching_window(0, &tree, &regular, &matches), Ok(Some(3)));
    assert_eq!(*visited.borrow(), vec![2, 4, 3]);
}

#[test]
fn search_returns_none_without_match() {
    let regular = |_: u32| -> Result<bool, String> { Ok(true) };
    let matches = |_: u32| -> Result<bool, String> { Ok(false) };
    assert_eq!(find_matching_window(0, &tree, &regular, &matches), Ok(None));
}

#[test]
fn search_skips_condition_for_irregular_windows() {
    let regular = |w: u32| -> Result<bool, String> { Ok(w == 5) };
    let matches = |w: u32| -> Result<bool, String> {
        assert_eq!(w, 5);
        Ok(true)
    };
    assert_eq!(find_matching_window(0, &tree, &regular, &matches), Ok(Some(5)));
}

#[test]
fn search_fails_on_protocol_error() {
    let broken = |w: u32| -> Result<Vec<u32>, String> {
        if w == 4 { Err("tree".to_string()) } else { tree(w) }
    };
    let regular = |_: u32| -> Result<bool, String> { Ok(true) };
    let matches = |_: u32| -> Result<bool, String> { Ok(false) };
    assert_eq!(find_matching_window(0, &broken, &regular, &matches), Err("tree".to_string()));
    let failing = |_: u32| -> Result<bool, String> { Err("state".to_string()) };
    assert_eq!(find_matching_window(0, &tree, &failing, &matches), Err("state".to_string()));
}

#[test]
fn search_matches_through_resolved_properties() {
    let c = parse("class = \"Emacs\"").unwrap();
    let fetch = |w: u32, a: u32| -> Fetched {
        if a == ATOM_WM_CLASS && w == 1 {
            text(ATOM_STRING, "emacs\0Emacs")
        } else if a == ATOM_WM_CLASS {
            text(ATOM_STRING, "x\0Other")
        } else {
            Ok(None)
        }
    };
    let state = |w: u32, _: u32| -> Result<Option<Vec<u32>>, String> {
        if w == 2 { Ok(None) } else { Ok(Some(vec![1])) }
    };
    let cache = RefCell::new(AtomCache::new());
    let regular = |w: u32| is_regular_window(&mut cache.borrow_mut(), &state, &atom_of, w).map_err(ResolveError::Protocol);
    let matches = |w: u32| c.matches(&|p: Property| p.from_window(&mut cache.borrow_mut(), &fetch, &atom_of, w));
    let r = find_matching_window(0, &|w| tree(w).map_err(ResolveError::Protocol), &regular, &matches);
    assert!(matches!(r, Ok(Some(1))));
}

#[test]
fn failure_builder() {
    let f = Failure::new("boom");
    assert_eq!(f.code, 1);
    assert_eq!(f.prefix, Some("error"));
    assert_eq!(f.message, "boom");
    let f = f.prefix("warning").code(3);
    assert_eq!(f.code, 3);
    assert_eq!(f.prefix, Some("warning"));
    assert_eq!(f.message, "boom");
}

#[test]
fn failure_from_str() {
    let f: Failure = "boom".into();
    assert_eq!(f.code, 1);
    assert_eq!(f.prefix, Some("error"));
    assert_eq!(f.message, "boom");
}

// root 0 has children [A, B] = [10, 11]; B has [C] = [12].
fn small_tree(w: u32) -> Result<Vec<u32>, String> {
    Ok(match w {
        0 => vec![10, 11],
        11 => vec![12],
        _ => vec![],
    })
}

#[test]
fn search_visits_last_child_first() {
    let regular = |_: u32| -> Result<bool, String> { Ok(true) };
    let on_a_and_c = |w: u32| -> Result<bool, String> { Ok(w == 10 || w == 12) };
    assert_eq!(find_matching_window(0, &small_tree, &regular, &on_a_and_c), Ok(Some(12)));
    let on_a = |w: u32| -> Result<bool, String> { Ok(w == 10) };
    assert_eq!(find_matching_window(0, &small_tree, &regular, &on_a), Ok(Some(10)));
    let leaf = |_: u32| -> Result<Vec<u32>, String> { Ok(vec![]) };
    assert_eq!(find_matching_window(0, &leaf, &regular, &on_a), Ok(None));
}
