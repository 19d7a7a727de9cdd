//! The hierarchical store: a forest of named keys under the predefined
//! roots, each key holding named raw values.
//!
//! One [`RegState`] is one complete state of the store. Every operation is
//! specified against the ghost model [`KeyModel`]: a key is identified by
//! its root and its absolute path of name segments, and keys are kept in
//! creation order, which is the order enumeration yields them in.
use vstd::prelude::*;

use crate::RegValue;
use crate::RegValueView;
use crate::enums::RegError;
use crate::enums::HKEY_CLASSES_ROOT;
use crate::enums::HKEY_CURRENT_CONFIG;
use crate::enums::HKEY_CURRENT_USER;
use crate::enums::HKEY_CURRENT_USER_LOCAL_SETTINGS;
use crate::enums::HKEY_DYN_DATA;
use crate::enums::HKEY_LOCAL_MACHINE;
use crate::enums::HKEY_PERFORMANCE_DATA;
use crate::enums::HKEY_PERFORMANCE_NLSTEXT;
use crate::enums::HKEY_PERFORMANCE_TEXT;
use crate::enums::HKEY_USERS;

verus! {

/// Ghost model of one named value inside a key.
#[verifier::ext_equal]
pub ghost struct ValueModel {
    pub name: Seq<char>,
    pub val: RegValueView,
}

/// Ghost model of one key: its root, its absolute path of name segments,
/// and its values in creation order.
#[verifier::ext_equal]
pub ghost struct KeyModel {
    pub root: u64,
    pub path: Seq<Seq<char>>,
    pub vals: Seq<ValueModel>,
}

/// One named value stored inside a key.
pub struct RegValueEntry {
    pub name: String,
    pub data: RegValue,
}

impl View for RegValueEntry {
    type V = ValueModel;

    open spec fn view(&self) -> ValueModel {
        ValueModel { name: self.name@, val: self.data@ }
    }
}

impl Clone for RegValueEntry {
    fn clone(&self) -> (res: Self)
        ensures
            res@ == self@,
    {
        RegValueEntry { name: self.name.clone(), data: self.data.clone() }
    }
}

/// One key of the store.
pub struct KeyEntry {
    pub root: u64,
    pub segs: Vec<String>,
    pub vals: Vec<RegValueEntry>,
}

impl View for KeyEntry {
    type V = KeyModel;

    open spec fn view(&self) -> KeyModel {
        KeyModel {
            root: self.root,
            path: self.segs.deep_view(),
            vals: self.vals@.map_values(|e: RegValueEntry| e@),
        }
    }
}

/// One complete state of the store: its keys in creation order.
pub struct RegState {
    pub keys: Vec<KeyEntry>,
}

impl View for RegState {
    type V = Seq<KeyModel>;

    open spec fn view(&self) -> Seq<KeyModel> {
        self.keys@.map_values(|k: KeyEntry| k@)
    }
}

/// Whether a key model sits at the given location.
pub open spec fn key_is(k: KeyModel, root: u64, path: Seq<Seq<char>>) -> bool {
    k.root == root && k.path == path
}

/// Whether the state holds a key at the given location.
pub open spec fn has_key(m: Seq<KeyModel>, root: u64, path: Seq<Seq<char>>) -> bool {
    exists|i: int| 0 <= i < m.len() && key_is(m[i], root, path)
}

/// The index of the key at the given location; meaningful when
/// [`has_key`] holds and paths are unique.
pub open spec fn key_index(m: Seq<KeyModel>, root: u64, path: Seq<Seq<char>>) -> int {
    choose|i: int| 0 <= i < m.len() && key_is(m[i], root, path)
}

/// The key model at the given location.
pub open spec fn key_at(m: Seq<KeyModel>, root: u64, path: Seq<Seq<char>>) -> KeyModel {
    m[key_index(m, root, path)]
}

/// Whether a value model carries the given name.
pub open spec fn val_is(v: ValueModel, name: Seq<char>) -> bool {
    v.name == name
}

/// Whether a value list holds the given name.
pub open spec fn has_val(vals: Seq<ValueModel>, name: Seq<char>) -> bool {
    exists|j: int| 0 <= j < vals.len() && val_is(vals[j], name)
}

/// The index of the named value; meaningful when [`has_val`] holds and
/// names are unique.
pub open spec fn val_index(vals: Seq<ValueModel>, name: Seq<char>) -> int {
    choose|j: int| 0 <= j < vals.len() && val_is(vals[j], name)
}

/// The named value model.
pub open spec fn val_at(vals: Seq<ValueModel>, name: Seq<char>) -> ValueModel {
    vals[val_index(vals, name)]
}

/// Whether a key is a direct child of the given location.
pub open spec fn is_child(k: KeyModel, root: u64, path: Seq<Seq<char>>) -> bool {
    k.root == root && k.path.len() == path.len() + 1 && k.path.take(path.len() as int) == path
}

/// The direct children of a location, in creation order.
pub open spec fn children(m: Seq<KeyModel>, root: u64, path: Seq<Seq<char>>) -> Seq<KeyModel> {
    m.filter(|k: KeyModel| is_child(k, root, path))
}

/// Whether a key lies in the subtree rooted at the given location, the
/// location itself included.
pub open spec fn in_cone(k: KeyModel, root: u64, path: Seq<Seq<char>>) -> bool {
    k.root == root && path.len() <= k.path.len() && k.path.take(path.len() as int) == path
}

/// The state without the subtree rooted at the given location.
pub open spec fn without_cone(m: Seq<KeyModel>, root: u64, path: Seq<Seq<char>>) -> Seq<
    KeyModel,
> {
    m.filter(|k: KeyModel| !in_cone(k, root, path))
}

/// The state with a key at the given location: unchanged if present, else
/// the new empty key appended.
pub open spec fn ensure_key(m: Seq<KeyModel>, root: u64, path: Seq<Seq<char>>) -> Seq<KeyModel> {
    if has_key(m, root, path) {
        m
    } else {
        m.push(KeyModel { root, path, vals: Seq::empty() })
    }
}

/// The state with the first `cnt` prefixes of a path ensured, shortest
/// first.
pub open spec fn with_prefixes(m: Seq<KeyModel>, root: u64, path: Seq<Seq<char>>, cnt: nat) -> Seq<
    KeyModel,
>
    decreases cnt,
{
    if cnt == 0 {
        m
    } else {
        ensure_key(with_prefixes(m, root, path, (cnt - 1) as nat), root, path.take(cnt - 1))
    }
}

/// The state with a path and all its prefixes ensured: the effect of
/// creating a key, intermediate keys included.
pub open spec fn with_path(m: Seq<KeyModel>, root: u64, path: Seq<Seq<char>>) -> Seq<KeyModel> {
    with_prefixes(m, root, path, (path.len() + 1) as nat)
}

/// A value list with the named value set: updated in place if the name is
/// present, else appended.
pub open spec fn set_val_in(vals: Seq<ValueModel>, name: Seq<char>, v: RegValueView) -> Seq<
    ValueModel,
> {
    if has_val(vals, name) {
        vals.update(val_index(vals, name), ValueModel { name, val: v })
    } else {
        vals.push(ValueModel { name, val: v })
    }
}

/// The state with the named value of the key at the given location set.
pub open spec fn with_value(
    m: Seq<KeyModel>,
    root: u64,
    path: Seq<Seq<char>>,
    name: Seq<char>,
    v: RegValueView,
) -> Seq<KeyModel> {
    let i = key_index(m, root, path);
    m.update(i, KeyModel { vals: set_val_in(m[i].vals, name, v), ..m[i] })
}

/// The state with the named value of the key at the given location
/// removed.
pub open spec fn without_value(
    m: Seq<KeyModel>,
    root: u64,
    path: Seq<Seq<char>>,
    name: Seq<char>,
) -> Seq<KeyModel> {
    let i = key_index(m, root, path);
    m.update(i, KeyModel { vals: m[i].vals.remove(val_index(m[i].vals, name)), ..m[i] })
}

/// The state without the key at the given location.
pub open spec fn without_key(m: Seq<KeyModel>, root: u64, path: Seq<Seq<char>>) -> Seq<KeyModel> {
    m.remove(key_index(m, root, path))
}

/// Whether a root identifier names one of the predefined roots.
pub open spec fn is_predef_root(h: u64) -> bool {
    ||| h == HKEY_CLASSES_ROOT
    ||| h == HKEY_CURRENT_USER
    ||| h == HKEY_LOCAL_MACHINE
    ||| h == HKEY_USERS
    ||| h == HKEY_PERFORMANCE_DATA
    ||| h == HKEY_CURRENT_CONFIG
    ||| h == HKEY_DYN_DATA
    ||| h == HKEY_CURRENT_USER_LOCAL_SETTINGS
    ||| h == HKEY_PERFORMANCE_TEXT
    ||| h == HKEY_PERFORMANCE_NLSTEXT
}

/// Value names inside one key are unique.
pub open spec fn unique_val_names(vals: Seq<ValueModel>) -> bool {
    forall|i: int, j: int| 0 <= i < j < vals.len() ==> !val_is(vals[j], vals[i].name)
}

/// Well-formedness of a store state: locations are unique, value names
/// are unique within each key, every prefix of a stored path is stored,
/// and every predefined root is present as a key with the empty path.
pub open spec fn wf_state(m: Seq<KeyModel>) -> bool {
    &&& forall|i: int, j: int| 0 <= i < j < m.len() ==> !key_is(m[j], m[i].root, m[i].path)
    &&& forall|i: int| 0 <= i < m.len() ==> unique_val_names(#[trigger] m[i].vals)
    &&& forall|i: int, l: int|
        0 <= i < m.len() && 0 <= l < m[i].path.len() ==> has_key(
            m,
            m[i].root,
            #[trigger] m[i].path.take(l),
        )
    &&& forall|h: u64| #[trigger] is_predef_root(h) ==> has_key(m, h, Seq::empty())
}

/// The initial store: the ten predefined roots, each an empty key, and
/// nothing else.
pub open spec fn init_state() -> Seq<KeyModel> {
    seq![
        KeyModel { root: HKEY_CLASSES_ROOT, path: Seq::empty(), vals: Seq::empty() },
        KeyModel { root: HKEY_CURRENT_USER, path: Seq::empty(), vals: Seq::empty() },
        KeyModel { root: HKEY_LOCAL_MACHINE, path: Seq::empty(), vals: Seq::empty() },
        KeyModel { root: HKEY_USERS, path: Seq::empty(), vals: Seq::empty() },
        KeyModel { root: HKEY_PERFORMANCE_DATA, path: Seq::empty(), vals: Seq::empty() },
        KeyModel { root: HKEY_CURRENT_CONFIG, path: Seq::empty(), vals: Seq::empty() },
        KeyModel { root: HKEY_DYN_DATA, path: Seq::empty(), vals: Seq::empty() },
        KeyModel { root: HKEY_CURRENT_USER_LOCAL_SETTINGS, path: Seq::empty(), vals: Seq::empty() },
        KeyModel { root: HKEY_PERFORMANCE_TEXT, path: Seq::empty(), vals: Seq::empty() },
        KeyModel { root: HKEY_PERFORMANCE_NLSTEXT, path: Seq::empty(), vals: Seq::empty() },
    ]
}

/// The initial store is well formed.
pub proof fn lemma_init_state_wf()
    ensures
        wf_state(init_state()),
{
    let m = init_state();
    assert forall|h: u64| #[trigger] is_predef_root(h) implies has_key(m, h, Seq::empty()) by {
        if h == HKEY_CLASSES_ROOT {
            assert(key_is(m[0], h, Seq::empty()));
        } else if h == HKEY_CURRENT_USER {
            assert(key_is(m[1], h, Seq::empty()));
        } else if h == HKEY_LOCAL_MACHINE {
            assert(key_is(m[2], h, Seq::empty()));
        } else if h == HKEY_USERS {
            assert(key_is(m[3], h, Seq::empty()));
        } else if h == HKEY_PERFORMANCE_DATA {
            assert(key_is(m[4], h, Seq::empty()));
        } else if h == HKEY_CURRENT_CONFIG {
            assert(key_is(m[5], h, Seq::empty()));
        } else if h == HKEY_DYN_DATA {
            assert(key_is(m[6], h, Seq::empty()));
        } else if h == HKEY_CURRENT_USER_LOCAL_SETTINGS {
            assert(key_is(m[7], h, Seq::empty()));
        } else if h == HKEY_PERFORMANCE_TEXT {
            assert(key_is(m[8], h, Seq::empty()));
        } else {
            assert(key_is(m[9], h, Seq::empty()));
        }
    }
}

/// Compares two strings by their text.
pub fn str_eq(a: &str, b: &str) -> (r: bool)
    ensures
        r == (a@ == b@),
{
    let n = a.unicode_len();
    if n != b.unicode_len() {
        proof {
            assert(a@.len() != b@.len());
        }
        return false;
    }
    let mut i: usize = 0;
    while i < n
        invariant
            i <= n,
            n == a@.len(),
            n == b@.len(),
            forall|j: int| 0 <= j < i ==> a@[j] == b@[j],
        decreases n - i,
    {
        if a.get_char(i) as u32 != b.get_char(i) as u32 {
            proof {
                assert(a@[i as int] as u32 != b@[i as int] as u32);
            }
            return false;
        }
        proof {
            vstd::utf8::char_u32_cast(a@[i as int], a@[i as int] as u32);
            vstd::utf8::char_u32_cast(b@[i as int], b@[i as int] as u32);
        }
        i = i + 1;
    }
    proof {
        assert(a@ =~= b@);
    }
    true
}

/// Compares two segment lists by their text.
pub fn segs_eq(a: &Vec<String>, b: &Vec<String>) -> (r: bool)
    ensures
        r == (a.deep_view() == b.deep_view()),
{
    if a.len() != b.len() {
        proof {
            assert(a.deep_view().len() != b.deep_view().len());
        }
        return false;
    }
    let n = a.len();
    let mut i: usize = 0;
    while i < n
        invariant
            i <= n,
            n == a@.len(),
            n == b@.len(),
            forall|j: int| 0 <= j < i ==> a.deep_view()[j] == b.deep_view()[j],
        decreases n - i,
    {
        if !str_eq(a[i].as_str(), b[i].as_str()) {
            proof {
                assert(a.deep_view()[i as int] != b.deep_view()[i as int]);
            }
            return false;
        }
        i = i + 1;
    }
    proof {
        assert(a.deep_view() =~= b.deep_view());
    }
    true
}

impl RegState {
    /// A fresh store holding exactly the predefined roots.
    pub fn new() -> (s: Self)
        ensures
            s@ == init_state(),
            wf_state(s@),
    {
        let mut keys: Vec<KeyEntry> = Vec::new();
        keys.push(KeyEntry { root: HKEY_CLASSES_ROOT, segs: Vec::new(), vals: Vec::new() });
        keys.push(KeyEntry { root: HKEY_CURRENT_USER, segs: Vec::new(), vals: Vec::new() });
        keys.push(KeyEntry { root: HKEY_LOCAL_MACHINE, segs: Vec::new(), vals: Vec::new() });
        keys.push(KeyEntry { root: HKEY_USERS, segs: Vec::new(), vals: Vec::new() });
        keys.push(KeyEntry { root: HKEY_PERFORMANCE_DATA, segs: Vec::new(), vals: Vec::new() });
        keys.push(KeyEntry { root: HKEY_CURRENT_CONFIG, segs: Vec::new(), vals: Vec::new() });
        keys.push(KeyEntry { root: HKEY_DYN_DATA, segs: Vec::new(), vals: Vec::new() });
        keys.push(
            KeyEntry { root: HKEY_CURRENT_USER_LOCAL_SETTINGS, segs: Vec::new(), vals: Vec::new() },
        );
        keys.push(KeyEntry { root: HKEY_PERFORMANCE_TEXT, segs: Vec::new(), vals: Vec::new() });
        keys.push(KeyEntry { root: HKEY_PERFORMANCE_NLSTEXT, segs: Vec::new(), vals: Vec::new() });
        let s = RegState { keys };
        proof {
            assert(s@ =~~= init_state());
            lemma_init_state_wf();
        }
        s
    }

    /// Finds the index of the key at the given location.
    pub fn find_key_idx(&self, root: u64, segs: &Vec<String>) -> (r: Option<usize>)
        ensures
            r matches Some(i) ==> i < self@.len() && key_is(self@[i as int], root, segs.deep_view()),
            r is None ==> !has_key(self@, root, segs.deep_view()),
    {
        let n = self.keys.len();
        let mut i: usize = 0;
        while i < n
            invariant
                i <= n,
                n == self@.len(),
                forall|j: int| 0 <= j < i ==> !key_is(self@[j], root, segs.deep_view()),
            decreases n - i,
        {
            let k = &self.keys[i];
            if k.root == root && segs_eq(&k.segs, segs) {
                proof {
                    assert(key_is(self@[i as int], root, segs.deep_view()));
                }
                return Some(i);
            }
            proof {
                assert(!key_is(self@[i as int], root, segs.deep_view()));
            }
            i = i + 1;
        }
        proof {
            if has_key(self@, root, segs.deep_view()) {
                let w = choose|j: int|
                    0 <= j < self@.len() && key_is(self@[j], root, segs.deep_view());
                assert(!key_is(self@[w], root, segs.deep_view()));
            }
        }
        None
    }
}

/// With unique locations, any index holding the location is the location's
/// index.
pub proof fn lemma_key_index_is(m: Seq<KeyModel>, root: u64, path: Seq<Seq<char>>, i: int)
    requires
        wf_state(m),
        0 <= i < m.len(),
        key_is(m[i], root, path),
    ensures
        has_key(m, root, path),
        key_index(m, root, path) == i,
        key_at(m, root, path) == m[i],
{
    assert(has_key(m, root, path));
    let j = key_index(m, root, path);
    assert(0 <= j < m.len() && key_is(m[j], root, path));
    if i < j {
        assert(!key_is(m[j], m[i].root, m[i].path));
    } else if j < i {
        assert(!key_is(m[i], m[j].root, m[j].path));
    }
}

/// With unique names, any index holding the name is the name's index.
pub proof fn lemma_val_index_is(vals: Seq<ValueModel>, name: Seq<char>, j: int)
    requires
        unique_val_names(vals),
        0 <= j < vals.len(),
        val_is(vals[j], name),
    ensures
        has_val(vals, name),
        val_index(vals, name) == j,
        val_at(vals, name) == vals[j],
{
    assert(has_val(vals, name));
    let k = val_index(vals, name);
    assert(0 <= k < vals.len() && val_is(vals[k], name));
    if j < k {
        assert(!val_is(vals[k], vals[j].name));
    } else if k < j {
        assert(!val_is(vals[j], vals[k].name));
    }
}


/// Every element of a filtered sequence is an element of the original.
proof fn lemma_filter_element_of(s: Seq<KeyModel>, p: spec_fn(KeyModel) -> bool)
    ensures
        forall|i: int|
            0 <= i < s.filter(p).len() ==> exists|j: int|
                0 <= j < s.len() && s[j] == #[trigger] s.filter(p)[i],
    decreases s.len(),
{
    reveal(Seq::filter);
    if s.len() > 0 {
        lemma_filter_element_of(s.drop_last(), p);
        let sub = s.drop_last().filter(p);
        assert forall|i: int|
            0 <= i < s.filter(p).len() implies exists|j: int|
            0 <= j < s.len() && s[j] == #[trigger] s.filter(p)[i] by {
            if i < sub.len() {
                assert(s.filter(p)[i] == sub[i]);
                let j = choose|j: int| 0 <= j < s.drop_last().len() && s.drop_last()[j] == sub[i];
                assert(s[j] == s.filter(p)[i]);
            } else {
                assert(s.filter(p)[i] == s.last());
                assert(s[s.len() - 1] == s.filter(p)[i]);
            }
        }
    }
}

/// Filtering keeps locations pairwise distinct.
proof fn lemma_filter_distinct(s: Seq<KeyModel>, p: spec_fn(KeyModel) -> bool)
    requires
        forall|i: int, j: int| 0 <= i < j < s.len() ==> !key_is(s[j], s[i].root, s[i].path),
    ensures
        forall|i: int, j: int|
            0 <= i < j < s.filter(p).len() ==> !key_is(
                s.filter(p)[j],
                s.filter(p)[i].root,
                s.filter(p)[i].path,
            ),
    decreases s.len(),
{
    reveal(Seq::filter);
    if s.len() > 0 {
        let d = s.drop_last();
        assert(forall|i: int, j: int| 0 <= i < j < d.len() ==> !key_is(d[j], d[i].root, d[i].path));
        lemma_filter_distinct(d, p);
        lemma_filter_element_of(d, p);
        let sub = d.filter(p);
        assert forall|i: int, j: int|
            0 <= i < j < s.filter(p).len() implies !key_is(
            s.filter(p)[j],
            s.filter(p)[i].root,
            s.filter(p)[i].path,
        ) by {
            if j < sub.len() {
                assert(s.filter(p)[i] == sub[i]);
                assert(s.filter(p)[j] == sub[j]);
            } else {
                assert(p(s.last()) && s.filter(p)[j] == s.last());
                assert(s.filter(p)[i] == sub[i]);
                let w = choose|w: int| 0 <= w < d.len() && d[w] == sub[i];
                assert(!key_is(s[s.len() - 1], s[w].root, s[w].path));
            }
        }
    }
}

/// Step of a front-to-back filter scan.
pub proof fn lemma_filter_take_step<A>(s: Seq<A>, p: spec_fn(A) -> bool, i: int)
    requires
        0 <= i < s.len(),
    ensures
        s.take(i + 1).filter(p) == if p(s[i]) {
            s.take(i).filter(p).push(s[i])
        } else {
            s.take(i).filter(p)
        },
{
    reveal(Seq::filter);
    assert(s.take(i + 1).drop_last() =~= s.take(i));
    assert(s.take(i + 1).last() == s[i]);
}

/// Ensuring one key whose proper prefixes are all present preserves
/// well-formedness; it adds exactly that location.
proof fn lemma_ensure_key(m: Seq<KeyModel>, root: u64, path: Seq<Seq<char>>)
    requires
        wf_state(m),
        forall|l: int| 0 <= l < path.len() ==> has_key(m, root, #[trigger] path.take(l)),
    ensures
        wf_state(ensure_key(m, root, path)),
        has_key(ensure_key(m, root, path), root, path),
        m.len() <= ensure_key(m, root, path).len(),
        forall|i: int| 0 <= i < m.len() ==> ensure_key(m, root, path)[i] == m[i],
        forall|r2: u64, q: Seq<Seq<char>>|
            has_key(ensure_key(m, root, path), r2, q) == (has_key(m, r2, q) || (r2 == root && q
                == path)),
{
    let e = ensure_key(m, root, path);
    if has_key(m, root, path) {
    } else {
        let nk = KeyModel { root, path, vals: Seq::empty() };
        assert(e == m.push(nk));
        assert(e[m.len() as int] == nk);
        assert forall|r2: u64, q: Seq<Seq<char>>|
            has_key(e, r2, q) == (has_key(m, r2, q) || (r2 == root && q == path)) by {
            if has_key(m, r2, q) {
                let w = choose|w: int| 0 <= w < m.len() && key_is(m[w], r2, q);
                assert(key_is(e[w], r2, q));
            }
            if r2 == root && q == path {
                assert(key_is(e[m.len() as int], r2, q));
            }
            if has_key(e, r2, q) {
                let w = choose|w: int| 0 <= w < e.len() && key_is(e[w], r2, q);
                if w < m.len() {
                    assert(key_is(m[w], r2, q));
                }
            }
        }
        assert forall|i: int, j: int| 0 <= i < j < e.len() implies !key_is(
            e[j],
            e[i].root,
            e[i].path,
        ) by {
            if j == m.len() {
                if key_is(e[j], e[i].root, e[i].path) {
                    assert(key_is(m[i], root, path));
                }
            }
        }
        assert forall|i: int, l: int|
            0 <= i < e.len() && 0 <= l < e[i].path.len() implies has_key(
            e,
            e[i].root,
            #[trigger] e[i].path.take(l),
        ) by {
            if i < m.len() {
                assert(has_key(m, m[i].root, m[i].path.take(l)));
            } else {
                assert(e[i] == nk);
                assert(has_key(m, root, path.take(l)));
            }
        }
        assert forall|h: u64| #[trigger] is_predef_root(h) implies has_key(e, h, Seq::empty()) by {
            assert(has_key(m, h, Seq::empty()));
        }
        assert forall|i: int| 0 <= i < e.len() implies unique_val_names(#[trigger] e[i].vals) by {
            if i < m.len() {
                assert(unique_val_names(m[i].vals));
            }
        }
    }
}

/// Two states whose keys sit at the same locations hold the same
/// locations.
proof fn lemma_same_locations(m1: Seq<KeyModel>, m2: Seq<KeyModel>)
    requires
        m1.len() == m2.len(),
        forall|i: int|
            0 <= i < m1.len() ==> m1[i].root == m2[i].root && (#[trigger] m1[i].path)
                == m2[i].path,
    ensures
        forall|r2: u64, q: Seq<Seq<char>>|
            #[trigger] has_key(m1, r2, q) == #[trigger] has_key(m2, r2, q),
{
    assert forall|r2: u64, q: Seq<Seq<char>>|
        #[trigger] has_key(m1, r2, q) == #[trigger] has_key(m2, r2, q) by {
        if has_key(m1, r2, q) {
            let w = choose|w: int| 0 <= w < m1.len() && key_is(m1[w], r2, q);
            assert(key_is(m2[w], r2, q));
        }
        if has_key(m2, r2, q) {
            let w = choose|w: int| 0 <= w < m2.len() && key_is(m2[w], r2, q);
            assert(m1[w].path == m2[w].path);
            assert(key_is(m1[w], r2, q));
        }
    }
}

/// Setting a named value keeps the names of a value list unique.
proof fn lemma_set_val_unique(vals: Seq<ValueModel>, name: Seq<char>, v: RegValueView)
    requires
        unique_val_names(vals),
    ensures
        unique_val_names(set_val_in(vals, name, v)),
        has_val(set_val_in(vals, name, v), name),
        val_at(set_val_in(vals, name, v), name).val == v,
        val_at(set_val_in(vals, name, v), name).name == name,
        forall|n2: Seq<char>|
            n2 != name ==> #[trigger] has_val(set_val_in(vals, name, v), n2) == has_val(vals, n2),
        forall|n2: Seq<char>|
            n2 != name && has_val(vals, n2) ==> #[trigger] val_at(set_val_in(vals, name, v), n2)
                == val_at(vals, n2),
{
    let out = set_val_in(vals, name, v);
    if has_val(vals, name) {
        let j = val_index(vals, name);
        assert(0 <= j < vals.len() && val_is(vals[j], name));
        lemma_val_index_is(vals, name, j);
        assert forall|a: int, b: int| 0 <= a < b < out.len() implies !val_is(
            out[b],
            out[a].name,
        ) by {
            assert(out[a].name == vals[a].name);
            assert(out[b].name == vals[b].name);
        }
        lemma_val_index_is(out, name, j);
        assert forall|n2: Seq<char>|
            n2 != name implies #[trigger] has_val(out, n2) == has_val(vals, n2) by {
            if has_val(vals, n2) {
                let w = choose|w: int| 0 <= w < vals.len() && val_is(vals[w], n2);
                assert(val_is(out[w], n2));
            }
            if has_val(out, n2) {
                let w = choose|w: int| 0 <= w < out.len() && val_is(out[w], n2);
                assert(val_is(vals[w], n2));
            }
        }
        assert forall|n2: Seq<char>|
            n2 != name && has_val(vals, n2) implies #[trigger] val_at(out, n2) == val_at(
            vals,
            n2,
        ) by {
            let w = val_index(vals, n2);
            lemma_val_index_is(vals, n2, w);
            assert(val_is(out[w], n2));
            lemma_val_index_is(out, n2, w);
        }
    } else {
        let j = vals.len() as int;
        assert(out == vals.push(ValueModel { name, val: v }));
        assert(val_is(out[j], name));
        assert forall|a: int, b: int| 0 <= a < b < out.len() implies !val_is(
            out[b],
            out[a].name,
        ) by {
            if b == j {
                if val_is(out[b], out[a].name) {
                    assert(val_is(vals[a], name));
                }
            }
        }
        lemma_val_index_is(out, name, j);
        assert forall|n2: Seq<char>|
            n2 != name implies #[trigger] has_val(out, n2) == has_val(vals, n2) by {
            if has_val(vals, n2) {
                let w = choose|w: int| 0 <= w < vals.len() && val_is(vals[w], n2);
                assert(val_is(out[w], n2));
            }
            if has_val(out, n2) {
                let w = choose|w: int| 0 <= w < out.len() && val_is(out[w], n2);
                if w < j {
                    assert(val_is(vals[w], n2));
                }
            }
        }
        assert forall|n2: Seq<char>|
            n2 != name && has_val(vals, n2) implies #[trigger] val_at(out, n2) == val_at(
            vals,
            n2,
        ) by {
            let w = val_index(vals, n2);
            lemma_val_index_is(vals, n2, w);
            assert(val_is(out[w], n2));
            lemma_val_index_is(out, n2, w);
        }
    }
}

/// Replacing the values of one key, names kept unique, preserves
/// well-formedness and every location.
proof fn lemma_wf_update_vals(m: Seq<KeyModel>, i: int, vals2: Seq<ValueModel>)
    requires
        wf_state(m),
        0 <= i < m.len(),
        unique_val_names(vals2),
    ensures
        wf_state(m.update(i, KeyModel { vals: vals2, ..m[i] })),
        forall|r2: u64, q: Seq<Seq<char>>|
            #[trigger] has_key(m, r2, q) == has_key(
                m.update(i, KeyModel { vals: vals2, ..m[i] }),
                r2,
                q,
            ),
{
    let m2 = m.update(i, KeyModel { vals: vals2, ..m[i] });
    assert(forall|k: int| 0 <= k < m.len() ==> m2[k].root == m[k].root && (#[trigger] m2[k].path)
        == m[k].path);
    lemma_same_locations(m2, m);
    assert forall|a: int, b: int| 0 <= a < b < m2.len() implies !key_is(
        m2[b],
        m2[a].root,
        m2[a].path,
    ) by {
        assert(!key_is(m[b], m[a].root, m[a].path));
    }
    assert forall|a: int, l: int|
        0 <= a < m2.len() && 0 <= l < m2[a].path.len() implies has_key(
        m2,
        m2[a].root,
        #[trigger] m2[a].path.take(l),
    ) by {
        assert(has_key(m, m[a].root, m[a].path.take(l)));
    }
    assert forall|h: u64| #[trigger] is_predef_root(h) implies has_key(m2, h, Seq::empty()) by {
        assert(has_key(m, h, Seq::empty()));
    }
    assert forall|a: int| 0 <= a < m2.len() implies unique_val_names(#[trigger] m2[a].vals) by {
        if a != i {
            assert(unique_val_names(m[a].vals));
        }
    }
}

/// A well-formed state with no child under a location has no proper
/// descendant of it either.
proof fn lemma_no_children_no_descendants(m: Seq<KeyModel>, root: u64, path: Seq<Seq<char>>)
    requires
        wf_state(m),
        children(m, root, path).len() == 0,
    ensures
        forall|k: int|
            0 <= k < m.len() ==> !(m[k].root == root && path.len() < (#[trigger] m[k].path).len()
                && m[k].path.take(path.len() as int) == path),
{
    assert forall|k: int|
        0 <= k < m.len() implies !(m[k].root == root && path.len() < (#[trigger] m[k].path).len()
        && m[k].path.take(path.len() as int) == path) by {
        if m[k].root == root && path.len() < m[k].path.len() && m[k].path.take(path.len() as int)
            == path {
            if m[k].path.len() == path.len() + 1 {
                assert(is_child(m[k], root, path));
                m.lemma_filter_contains(|k2: KeyModel| is_child(k2, root, path), k);
                let c = children(m, root, path);
                assert(c.contains(m[k]));
                let ci = choose|ci: int| 0 <= ci < c.len() && c[ci] == m[k];
                assert(false);
            } else {
                let child = m[k].path.take(path.len() as int + 1);
                assert(has_key(m, root, child));
                let w = choose|w: int| 0 <= w < m.len() && key_is(m[w], root, child);
                assert(child.take(path.len() as int) =~= path);
                assert(is_child(m[w], root, path));
                m.lemma_filter_contains(|k2: KeyModel| is_child(k2, root, path), w);
                let c = children(m, root, path);
                assert(c.contains(m[w]));
                let ci = choose|ci: int| 0 <= ci < c.len() && c[ci] == m[w];
                assert(false);
            }
        }
    }
}

/// Removing a childless key preserves well-formedness and every other
/// location.
proof fn lemma_without_key(m: Seq<KeyModel>, root: u64, path: Seq<Seq<char>>)
    requires
        wf_state(m),
        has_key(m, root, path),
        path.len() > 0,
        children(m, root, path).len() == 0,
    ensures
        wf_state(without_key(m, root, path)),
        !has_key(without_key(m, root, path), root, path),
        forall|r2: u64, q: Seq<Seq<char>>|
            !(r2 == root && q == path) ==> #[trigger] has_key(without_key(m, root, path), r2, q)
                == has_key(m, r2, q),
{
    let ki = key_index(m, root, path);
    assert(0 <= ki < m.len() && key_is(m[ki], root, path));
    lemma_no_children_no_descendants(m, root, path);
    let m2 = without_key(m, root, path);
    assert(m2 == m.remove(ki));
    assert forall|r2: u64, q: Seq<Seq<char>>|
        !(r2 == root && q == path) implies #[trigger] has_key(m2, r2, q) == has_key(m, r2, q) by {
        if has_key(m, r2, q) {
            let w = choose|w: int| 0 <= w < m.len() && key_is(m[w], r2, q);
            if w < ki {
                assert(key_is(m2[w], r2, q));
            } else if w > ki {
                assert(key_is(m2[w - 1], r2, q));
            } else {
                assert(false);
            }
        }
        if has_key(m2, r2, q) {
            let w = choose|w: int| 0 <= w < m2.len() && key_is(m2[w], r2, q);
            if w < ki {
                assert(key_is(m[w], r2, q));
            } else {
                assert(key_is(m[w + 1], r2, q));
            }
        }
    }
    if has_key(m2, root, path) {
        let w = choose|w: int| 0 <= w < m2.len() && key_is(m2[w], root, path);
        if w < ki {
            assert(key_is(m[w], root, path));
            lemma_key_index_is(m, root, path, w);
        } else {
            assert(key_is(m[w + 1], root, path));
            lemma_key_index_is(m, root, path, w + 1);
        }
    }
    assert forall|a: int, b: int| 0 <= a < b < m2.len() implies !key_is(
        m2[b],
        m2[a].root,
        m2[a].path,
    ) by {
        let oa: int = if a < ki { a } else { a + 1 };
        let ob: int = if b < ki { b } else { b + 1 };
        assert(m2[a] == m[oa]);
        assert(m2[b] == m[ob]);
        assert(!key_is(m[ob], m[oa].root, m[oa].path));
    }
    assert forall|a: int, l: int|
        0 <= a < m2.len() && 0 <= l < m2[a].path.len() implies has_key(
        m2,
        m2[a].root,
        #[trigger] m2[a].path.take(l),
    ) by {
        let oa: int = if a < ki { a } else { a + 1 };
        assert(m2[a] == m[oa]);
        let q = m[oa].path.take(l);
        assert(has_key(m, m[oa].root, q));
        if m[oa].root == root && q == path {
            assert(q.len() == l);
            assert(path.len() < m[oa].path.len());
            assert(m[oa].path.take(path.len() as int) == path);
            if oa == ki {
                assert(m[oa].path == path);
                assert(false);
            }
            assert(false);
        }
    }
    assert forall|h: u64| #[trigger] is_predef_root(h) implies has_key(m2, h, Seq::empty()) by {
        assert(has_key(m, h, Seq::empty()));
        assert(Seq::<Seq<char>>::empty().len() == 0);
        assert(!(h == root && Seq::<Seq<char>>::empty() == path));
    }
    assert forall|a: int| 0 <= a < m2.len() implies unique_val_names(#[trigger] m2[a].vals) by {
        let oa: int = if a < ki { a } else { a + 1 };
        assert(m2[a] == m[oa]);
        assert(unique_val_names(m[oa].vals));
    }
}

/// Removing a whole subtree preserves well-formedness; exactly the
/// locations inside the subtree are gone.
pub proof fn lemma_without_cone(m: Seq<KeyModel>, root: u64, path: Seq<Seq<char>>)
    requires
        wf_state(m),
        path.len() > 0,
    ensures
        wf_state(without_cone(m, root, path)),
        forall|r2: u64, q: Seq<Seq<char>>|
            #[trigger] has_key(without_cone(m, root, path), r2, q) == (has_key(m, r2, q) && !(r2
                == root && path.len() <= q.len() && q.take(path.len() as int) == path)),
{
    let p = |k: KeyModel| !in_cone(k, root, path);
    let m2 = without_cone(m, root, path);
    lemma_filter_element_of(m, p);
    lemma_filter_distinct(m, p);
    assert forall|r2: u64, q: Seq<Seq<char>>|
        #[trigger] has_key(m2, r2, q) == (has_key(m, r2, q) && !(r2 == root && path.len()
        <= q.len() && q.take(path.len() as int) == path)) by {
        if has_key(m2, r2, q) {
            let w = choose|w: int| 0 <= w < m2.len() && key_is(m2[w], r2, q);
            m.lemma_filter_pred(p, w);
            let ow = choose|ow: int| 0 <= ow < m.len() && m[ow] == m2[w];
            assert(key_is(m[ow], r2, q));
            assert(!in_cone(m[ow], root, path));
        }
        if has_key(m, r2, q) && !(r2 == root && path.len() <= q.len() && q.take(
            path.len() as int,
        ) == path) {
            let w = choose|w: int| 0 <= w < m.len() && key_is(m[w], r2, q);
            assert(!in_cone(m[w], root, path));
            m.lemma_filter_contains(p, w);
            assert(m2.contains(m[w]));
            let ci = choose|ci: int| 0 <= ci < m2.len() && m2[ci] == m[w];
            assert(key_is(m2[ci], r2, q));
        }
    }
    assert forall|a: int, l: int|
        0 <= a < m2.len() && 0 <= l < m2[a].path.len() implies has_key(
        m2,
        m2[a].root,
        #[trigger] m2[a].path.take(l),
    ) by {
        let oa = choose|oa: int| 0 <= oa < m.len() && m[oa] == m2[a];
        m.lemma_filter_pred(p, a);
        assert(has_key(m, m2[a].root, m2[a].path.take(l)));
        let q = m2[a].path.take(l);
        if m2[a].root == root && path.len() <= q.len() && q.take(path.len() as int) == path {
            assert(q.len() == l);
            assert(m2[a].path.take(path.len() as int) =~= q.take(path.len() as int));
            assert(in_cone(m2[a], root, path));
            assert(false);
        }
    }
    assert forall|h: u64| #[trigger] is_predef_root(h) implies has_key(m2, h, Seq::empty()) by {
        assert(has_key(m, h, Seq::empty()));
        assert(Seq::<Seq<char>>::empty().len() == 0);
        assert(path.len() > 0);
    }
    assert forall|a: int| 0 <= a < m2.len() implies unique_val_names(#[trigger] m2[a].vals) by {
        let oa = choose|oa: int| 0 <= oa < m.len() && m[oa] == m2[a];
        assert(unique_val_names(m[oa].vals));
    }
}

/// Largest element of a sequence of naturals, zero when empty.
pub open spec fn max_nat(s: Seq<nat>) -> nat
    decreases s.len(),
{
    if s.len() == 0 {
        0
    } else {
        let m = max_nat(s.drop_last());
        if s.last() > m {
            s.last()
        } else {
            m
        }
    }
}

/// Outcome of one bounded-capacity value query.
pub enum ValueQuery {
    /// The value, whose payload fits the offered capacity.
    Found(RegValue),
    /// The payload needs this many bytes, more than the offered capacity.
    TooSmall(usize),
    /// The key holds no value of that name.
    NoValue,
    /// No key sits at the location.
    NoKey,
}

/// Outcome of one bounded-capacity value enumeration step.
pub enum ValueEnumQuery {
    /// Name and value at the queried position.
    Entry(String, RegValue),
    /// The payload at the position needs this many bytes, more than the
    /// offered capacity.
    TooSmall(usize),
    /// The position is past the last value.
    End,
    /// No key sits at the location.
    NoKey,
}

/// Compares the first segments of a longer list against a shorter one.
fn segs_prefix_eq(longer: &Vec<String>, shorter: &Vec<String>) -> (r: bool)
    requires
        shorter@.len() <= longer@.len(),
    ensures
        r == (longer.deep_view().take(shorter@.len() as int) == shorter.deep_view()),
{
    let n = shorter.len();
    let mut i: usize = 0;
    while i < n
        invariant
            i <= n,
            n == shorter@.len(),
            n <= longer@.len(),
            forall|j: int| 0 <= j < i ==> longer.deep_view()[j] == shorter.deep_view()[j],
        decreases n - i,
    {
        if !str_eq(longer[i].as_str(), shorter[i].as_str()) {
            proof {
                assert(longer.deep_view()[i as int] != shorter.deep_view()[i as int]);
                assert(longer.deep_view().take(n as int)[i as int] == longer.deep_view()[
                    i as int
                ]);
            }
            return false;
        }
        i = i + 1;
    }
    proof {
        assert(longer.deep_view().take(n as int) =~= shorter.deep_view());
    }
    true
}

/// Whether a key entry is a direct child of the given location.
fn key_entry_is_child(k: &KeyEntry, root: u64, segs: &Vec<String>) -> (r: bool)
    ensures
        r == is_child(k@, root, segs.deep_view()),
{
    if k.root != root {
        return false;
    }
    if k.segs.len() == 0 || k.segs.len() - 1 != segs.len() {
        return false;
    }
    segs_prefix_eq(&k.segs, segs)
}

/// Whether a key entry lies in the subtree rooted at the given location.
pub fn key_entry_in_cone(k: &KeyEntry, root: u64, segs: &Vec<String>) -> (r: bool)
    ensures
        r == in_cone(k@, root, segs.deep_view()),
{
    if k.root != root {
        return false;
    }
    if k.segs.len() < segs.len() {
        return false;
    }
    segs_prefix_eq(&k.segs, segs)
}

/// Finds the index of the named value in a value list.
fn find_val_idx(vals: &Vec<RegValueEntry>, name: &str) -> (r: Option<usize>)
    ensures
        r matches Some(j) ==> j < vals@.len() && val_is(
            vals@.map_values(|e: RegValueEntry| e@)[j as int],
            name@,
        ),
        r is None ==> !has_val(vals@.map_values(|e: RegValueEntry| e@), name@),
{
    let n = vals.len();
    let mut j: usize = 0;
    while j < n
        invariant
            j <= n,
            n == vals@.len(),
            forall|k: int| 0 <= k < j ==> (#[trigger] vals@[k])@.name != name@,
        decreases n - j,
    {
        if str_eq(vals[j].name.as_str(), name) {
            proof {
                assert(val_is(vals@.map_values(|e: RegValueEntry| e@)[j as int], name@));
            }
            return Some(j);
        }
        j = j + 1;
    }
    proof {
        let mapped = vals@.map_values(|e: RegValueEntry| e@);
        if has_val(mapped, name@) {
            let w = choose|w: int| 0 <= w < mapped.len() && val_is(mapped[w], name@);
            assert(mapped[w] == vals@[w]@);
            assert(vals@[w]@.name != name@);
        }
    }
    None
}

/// Sets the named value in a value list: replaced in place when present,
/// appended otherwise.
fn set_val_entry(vals: &mut Vec<RegValueEntry>, name: &str, v: &RegValue)
    requires
        unique_val_names(old(vals)@.map_values(|e: RegValueEntry| e@)),
    ensures
        final(vals)@.map_values(|e: RegValueEntry| e@) == set_val_in(
            old(vals)@.map_values(|e: RegValueEntry| e@),
            name@,
            v@,
        ),
{
    let ghost m0 = vals@.map_values(|e: RegValueEntry| e@);
    let entry = RegValueEntry { name: name.to_owned(), data: v.clone() };
    match find_val_idx(vals, name) {
        Some(j) => {
            proof {
                lemma_val_index_is(m0, name@, j as int);
            }
            vals.remove(j);
            vals.insert(j, entry);
            proof {
                assert(final(vals)@.map_values(|e: RegValueEntry| e@) =~~= set_val_in(
                    m0,
                    name@,
                    v@,
                ));
            }
        },
        None => {
            vals.push(entry);
            proof {
                assert(final(vals)@.map_values(|e: RegValueEntry| e@) =~~= set_val_in(
                    m0,
                    name@,
                    v@,
                ));
            }
        },
    }
}

impl RegState {
    /// Whether the location has any direct child key.
    pub fn has_any_child(&self, root: u64, segs: &Vec<String>) -> (r: bool)
        ensures
            r == (children(self@, root, segs.deep_view()).len() > 0),
    {
        let n = self.keys.len();
        let mut i: usize = 0;
        while i < n
            invariant
                i <= n,
                n == self@.len(),
                forall|j: int| 0 <= j < i ==> !is_child(self@[j], root, segs.deep_view()),
            decreases n - i,
        {
            if key_entry_is_child(&self.keys[i], root, segs) {
                proof {
                    assert(self@[i as int] == self.keys@[i as int]@);
                    assert(is_child(self@[i as int], root, segs.deep_view()));
                    self@.lemma_filter_contains(
                        |k: KeyModel| is_child(k, root, segs.deep_view()),
                        i as int,
                    );
                    let c = children(self@, root, segs.deep_view());
                    assert(c.contains(self@[i as int]));
                    let w = choose|w: int| 0 <= w < c.len() && c[w] == self@[i as int];
                }
                return true;
            }
            i = i + 1;
        }
        proof {
            let c = children(self@, root, segs.deep_view());
            if c.len() > 0 {
                self@.lemma_filter_pred(|k: KeyModel| is_child(k, root, segs.deep_view()), 0);
                lemma_filter_element_of(self@, |k: KeyModel| is_child(k, root, segs.deep_view()));
                let w = choose|w: int| 0 <= w < self@.len() && self@[w] == c[0];
                assert(!is_child(self@[w], root, segs.deep_view()));
            }
        }
        false
    }

    /// Ensures the key at the location exists, appending an empty key
    /// when it is missing.
    fn ensure_one(&mut self, root: u64, cur: &Vec<String>)
        requires
            wf_state(old(self)@),
            forall|l2: int|
                0 <= l2 < cur.deep_view().len() ==> has_key(
                    old(self)@,
                    root,
                    #[trigger] cur.deep_view().take(l2),
                ),
        ensures
            final(self)@ == ensure_key(old(self)@, root, cur.deep_view()),
            wf_state(final(self)@),
            has_key(final(self)@, root, cur.deep_view()),
    {
        let ghost m0 = self@;
        let ghost pfx = cur.deep_view();
        proof {
            lemma_ensure_key(m0, root, pfx);
        }
        match self.find_key_idx(root, cur) {
            Some(_) => {
                proof {
                    assert(has_key(m0, root, pfx));
                }
            },
            None => {
                let segs_copy = clone_segs(cur);
                self.keys.push(KeyEntry { root, segs: segs_copy, vals: Vec::new() });
                proof {
                    assert(!has_key(m0, root, pfx));
                    let nk = KeyModel { root, path: pfx, vals: Seq::empty() };
                    assert(self@ =~~= m0.push(nk));
                }
            },
        }
    }

    /// Creates the key at the location and every missing intermediate
    /// key; reports whether the terminal key already existed.
    pub fn create_path(&mut self, root: u64, target: &Vec<String>) -> (existed: bool)
        requires
            wf_state(old(self)@),
        ensures
            final(self)@ == with_path(old(self)@, root, target.deep_view()),
            existed == has_key(old(self)@, root, target.deep_view()),
            wf_state(final(self)@),
            has_key(final(self)@, root, target.deep_view()),
    {
        let ghost m0 = self@;
        let ghost tv = target.deep_view();
        let existed = match self.find_key_idx(root, target) {
            Some(i) => {
                proof {
                    assert(has_key(self@, root, tv));
                }
                true
            },
            None => false,
        };
        let n = target.len();
        let mut cur: Vec<String> = Vec::new();
        let mut l: usize = 0;
        proof {
            assert(cur.deep_view() =~= tv.take(0));
        }
        while l < n
            invariant
                l <= n,
                n == target@.len(),
                tv == target.deep_view(),
                wf_state(m0),
                cur.deep_view() == tv.take(l as int),
                self@ == with_prefixes(m0, root, tv, l as nat),
                wf_state(self@),
                forall|j: int| 0 <= j < l ==> has_key(self@, root, #[trigger] tv.take(j)),
            decreases n - l,
        {
            let ghost mprev = self@;
            let ghost pfx = tv.take(l as int);
            proof {
                assert forall|l2: int| 0 <= l2 < pfx.len() implies has_key(
                    mprev,
                    root,
                    #[trigger] pfx.take(l2),
                ) by {
                    assert(pfx.take(l2) =~= tv.take(l2));
                }
                lemma_ensure_key(mprev, root, pfx);
            }
            self.ensure_one(root, &cur);
            proof {
                assert(with_prefixes(m0, root, tv, (l + 1) as nat) == ensure_key(
                    with_prefixes(m0, root, tv, l as nat),
                    root,
                    tv.take(l as int),
                ));
                assert forall|j: int| 0 <= j < l + 1 implies has_key(
                    self@,
                    root,
                    #[trigger] tv.take(j),
                ) by {
                    if j < l {
                        assert(has_key(mprev, root, tv.take(j)));
                    } else {
                        assert(tv.take(j) == pfx);
                    }
                }
            }
            cur.push(clone_string(&target[l]));
            proof {
                assert(cur.deep_view() =~= tv.take(l + 1));
            }
            l = l + 1;
        }
        let ghost mprev = self@;
        proof {
            assert(cur.deep_view() =~= tv);
            assert forall|l2: int| 0 <= l2 < tv.len() implies has_key(
                mprev,
                root,
                #[trigger] tv.take(l2),
            ) by {
                assert(has_key(mprev, root, tv.take(l2)));
            }
            lemma_ensure_key(mprev, root, tv);
        }
        self.ensure_one(root, &cur);
        proof {
            assert(with_prefixes(m0, root, tv, (n + 1) as nat) == ensure_key(
                with_prefixes(m0, root, tv, n as nat),
                root,
                tv.take(n as int),
            ));
            assert(tv.take(n as int) =~= tv);
            assert(self@ == with_path(m0, root, tv));
            if existed {
                assert(has_key(m0, root, tv));
            } else {
                if has_key(m0, root, tv) {
                    assert(false);
                }
            }
        }
        existed
    }

    /// Deletes the childless key at the location. A key that still has
    /// children is refused; nothing else changes on failure.
    pub fn delete_key(&mut self, root: u64, target: &Vec<String>) -> (r: Result<(), RegError>)
        requires
            wf_state(old(self)@),
            target.deep_view().len() > 0,
        ensures
            match r {
                Ok(()) => {
                    &&& has_key(old(self)@, root, target.deep_view())
                    &&& children(old(self)@, root, target.deep_view()).len() == 0
                    &&& final(self)@ == without_key(old(self)@, root, target.deep_view())
                    &&& wf_state(final(self)@)
                    &&& !has_key(final(self)@, root, target.deep_view())
                    &&& forall|r2: u64, q: Seq<Seq<char>>|
                        !(r2 == root && q == target.deep_view()) ==> #[trigger] has_key(
                            final(self)@,
                            r2,
                            q,
                        ) == has_key(old(self)@, r2, q)
                },
                Err(e) => {
                    &&& final(self)@ == old(self)@
                    &&& (e == RegError::NotFound <==> !has_key(
                        old(self)@,
                        root,
                        target.deep_view(),
                    ))
                    &&& (e == RegError::HasChildren <==> has_key(old(self)@, root, target.deep_view())
                        && children(old(self)@, root, target.deep_view()).len() > 0)
                    &&& (e == RegError::NotFound || e == RegError::HasChildren)
                },
            },
    {
        let ghost m0 = self@;
        let ghost tv = target.deep_view();
        match self.find_key_idx(root, target) {
            None => Err(RegError::NotFound),
            Some(i) => {
                proof {
                    lemma_key_index_is(m0, root, tv, i as int);
                }
                if self.has_any_child(root, target) {
                    Err(RegError::HasChildren)
                } else {
                    proof {
                        lemma_without_key(m0, root, tv);
                    }
                    self.keys.remove(i);
                    proof {
                        assert(self@ =~~= m0.remove(i as int));
                        assert(self@ == without_key(m0, root, tv));
                    }
                    Ok(())
                }
            },
        }
    }

    /// Deletes the key at the location together with every descendant key
    /// and all their values; nothing changes when the key is absent.
    pub fn delete_cone(&mut self, root: u64, target: &Vec<String>) -> (r: Result<(), RegError>)
        requires
            wf_state(old(self)@),
            target.deep_view().len() > 0,
        ensures
            match r {
                Ok(()) => {
                    &&& has_key(old(self)@, root, target.deep_view())
                    &&& final(self)@ == without_cone(old(self)@, root, target.deep_view())
                    &&& wf_state(final(self)@)
                    &&& forall|r2: u64, q: Seq<Seq<char>>|
                        #[trigger] has_key(final(self)@, r2, q) == (has_key(old(self)@, r2, q)
                            && !(r2 == root && target.deep_view().len() <= q.len() && q.take(
                            target.deep_view().len() as int,
                        ) == target.deep_view()))
                },
                Err(e) => {
                    &&& final(self)@ == old(self)@
                    &&& e == RegError::NotFound
                    &&& !has_key(old(self)@, root, target.deep_view())
                },
            },
    {
        let ghost m0 = self@;
        let ghost tv = target.deep_view();
        let ghost pred = |k: KeyModel| !in_cone(k, root, tv);
        match self.find_key_idx(root, target) {
            None => Err(RegError::NotFound),
            Some(i) => {
                proof {
                    lemma_key_index_is(m0, root, tv, i as int);
                    lemma_without_cone(m0, root, tv);
                }
                let mut old_keys: Vec<KeyEntry> = Vec::new();
                core::mem::swap(&mut self.keys, &mut old_keys);
                let n = old_keys.len();
                let ghost ov = old_keys@;
                let mut p: usize = 0;
                proof {
                    assert(self@ =~= m0.take(0).filter(pred));
                    assert(Seq::<KeyModel>::empty().filter(pred) == Seq::<KeyModel>::empty())
                        by {
                        reveal(Seq::filter);
                    }
                }
                while p < n
                    invariant
                        p <= n,
                        n == old_keys@.len(),
                        old_keys@ == ov,
                        ov.map_values(|k: KeyEntry| k@) == m0,
                        tv == target.deep_view(),
                        pred == (|k: KeyModel| !in_cone(k, root, tv)),
                        self@ == m0.take(p as int).filter(pred),
                    decreases n - p,
                {
                    let keep = !key_entry_in_cone(&old_keys[p], root, target);
                    proof {
                        lemma_filter_take_step(m0, pred, p as int);
                        assert(m0[p as int] == ov[p as int]@);
                    }
                    if keep {
                        let entry = clone_key_entry(&old_keys[p]);
                        proof {
                            assert(entry@ == m0[p as int]);
                        }
                        self.keys.push(entry);
                        proof {
                            assert(self@ =~= m0.take(p as int).filter(pred).push(m0[p as int]));
                        }
                    }
                    p = p + 1;
                }
                proof {
                    assert(m0.take(n as int) =~= m0);
                    assert(self@ == without_cone(m0, root, tv));
                }
                Ok(())
            },
        }
    }

    /// Sets the named value of the key at the location.
    pub fn set_value(&mut self, root: u64, segs: &Vec<String>, name: &str, v: &RegValue) -> (r:
        Result<(), RegError>)
        requires
            wf_state(old(self)@),
        ensures
            match r {
                Ok(()) => {
                    &&& has_key(old(self)@, root, segs.deep_view())
                    &&& final(self)@ == with_value(old(self)@, root, segs.deep_view(), name@, v@)
                    &&& wf_state(final(self)@)
                    &&& forall|r2: u64, q: Seq<Seq<char>>|
                        #[trigger] has_key(final(self)@, r2, q) == has_key(old(self)@, r2, q)
                },
                Err(e) => {
                    &&& final(self)@ == old(self)@
                    &&& e == RegError::NotFound
                    &&& !has_key(old(self)@, root, segs.deep_view())
                },
            },
    {
        let ghost m0 = self@;
        let ghost sv = segs.deep_view();
        match self.find_key_idx(root, segs) {
            None => Err(RegError::NotFound),
            Some(i) => {
                proof {
                    lemma_key_index_is(m0, root, sv, i as int);
                    assert(unique_val_names(m0[i as int].vals));
                }
                let k = &mut self.keys[i];
                set_val_entry(&mut k.vals, name, v);
                proof {
                    let vals2 = set_val_in(m0[i as int].vals, name@, v@);
                    assert(self@ =~~= m0.update(i as int, KeyModel { vals: vals2, ..m0[
                        i as int
                    ] }));
                    lemma_set_val_unique(m0[i as int].vals, name@, v@);
                    lemma_wf_update_vals(m0, i as int, vals2);
                    assert(self@ == with_value(m0, root, sv, name@, v@));
                }
                Ok(())
            },
        }
    }

    /// Reads the named value of the key at the location, if its payload
    /// fits the offered capacity; otherwise reports the needed size.
    pub fn query_value(&self, root: u64, segs: &Vec<String>, name: &str, cap: usize) -> (r:
        ValueQuery)
        requires
            wf_state(self@),
        ensures
            match r {
                ValueQuery::NoKey => !has_key(self@, root, segs.deep_view()),
                ValueQuery::NoValue => has_key(self@, root, segs.deep_view()) && !has_val(
                    key_at(self@, root, segs.deep_view()).vals,
                    name@,
                ),
                ValueQuery::TooSmall(need) => {
                    &&& has_key(self@, root, segs.deep_view())
                    &&& has_val(key_at(self@, root, segs.deep_view()).vals, name@)
                    &&& need == val_at(
                        key_at(self@, root, segs.deep_view()).vals,
                        name@,
                    ).val.data.len()
                    &&& need > cap
                },
                ValueQuery::Found(v) => {
                    &&& has_key(self@, root, segs.deep_view())
                    &&& has_val(key_at(self@, root, segs.deep_view()).vals, name@)
                    &&& v@ == val_at(key_at(self@, root, segs.deep_view()).vals, name@).val
                    &&& v@.data.len() <= cap
                },
            },
    {
        let ghost sv = segs.deep_view();
        match self.find_key_idx(root, segs) {
            None => ValueQuery::NoKey,
            Some(i) => {
                proof {
                    lemma_key_index_is(self@, root, sv, i as int);
                    assert(unique_val_names(self@[i as int].vals));
                }
                match find_val_idx(&self.keys[i].vals, name) {
                    None => {
                        proof {
                            assert(self@[i as int].vals == self.keys@[i as int].vals@.map_values(
                                |e: RegValueEntry| e@,
                            ));
                        }
                        ValueQuery::NoValue
                    },
                    Some(j) => {
                        proof {
                            lemma_val_index_is(self@[i as int].vals, name@, j as int);
                            assert(self@[i as int].vals[j as int] == self.keys@[i as int].vals@[
                                j as int
                            ]@);
                        }
                        let e = &self.keys[i].vals[j];
                        if e.data.bytes.len() > cap {
                            ValueQuery::TooSmall(e.data.bytes.len())
                        } else {
                            ValueQuery::Found(e.data.clone())
                        }
                    },
                }
            },
        }
    }

    /// Removes the named value of the key at the location.
    pub fn delete_value(&mut self, root: u64, segs: &Vec<String>, name: &str) -> (r: Result<
        (),
        RegError,
    >)
        requires
            wf_state(old(self)@),
        ensures
            match r {
                Ok(()) => {
                    &&& has_key(old(self)@, root, segs.deep_view())
                    &&& has_val(key_at(old(self)@, root, segs.deep_view()).vals, name@)
                    &&& final(self)@ == without_value(old(self)@, root, segs.deep_view(), name@)
                    &&& wf_state(final(self)@)
                    &&& forall|r2: u64, q: Seq<Seq<char>>|
                        #[trigger] has_key(final(self)@, r2, q) == has_key(old(self)@, r2, q)
                },
                Err(e) => {
                    &&& final(self)@ == old(self)@
                    &&& e == RegError::NotFound
                    &&& (!has_key(old(self)@, root, segs.deep_view()) || !has_val(
                        key_at(old(self)@, root, segs.deep_view()).vals,
                        name@,
                    ))
                },
            },
    {
        let ghost m0 = self@;
        let ghost sv = segs.deep_view();
        match self.find_key_idx(root, segs) {
            None => Err(RegError::NotFound),
            Some(i) => {
                proof {
                    lemma_key_index_is(m0, root, sv, i as int);
                    assert(unique_val_names(m0[i as int].vals));
                }
                let k = &mut self.keys[i];
                match find_val_idx(&k.vals, name) {
                    None => {
                        proof {
                            assert(m0[i as int].vals == k.vals@.map_values(
                                |e: RegValueEntry| e@,
                            ));
                            assert(self@ =~~= m0);
                        }
                        Err(RegError::NotFound)
                    },
                    Some(j) => {
                        proof {
                            lemma_val_index_is(m0[i as int].vals, name@, j as int);
                        }
                        k.vals.remove(j);
                        proof {
                            let vals2 = m0[i as int].vals.remove(j as int);
                            assert(self@ =~~= m0.update(i as int, KeyModel { vals: vals2, ..m0[
                                i as int
                            ] }));
                            assert forall|a: int, b: int|
                                0 <= a < b < vals2.len() implies !val_is(
                                vals2[b],
                                vals2[a].name,
                            ) by {
                                let oa: int = if a < j { a } else { a + 1 };
                                let ob: int = if b < j { b } else { b + 1 };
                                assert(vals2[a] == m0[i as int].vals[oa]);
                                assert(vals2[b] == m0[i as int].vals[ob]);
                                assert(!val_is(m0[i as int].vals[ob], m0[i as int].vals[oa].name));
                            }
                            lemma_wf_update_vals(m0, i as int, vals2);
                            assert(self@ == without_value(m0, root, sv, name@));
                        }
                        Ok(())
                    },
                }
            },
        }
    }

    /// The name of the child key at the given position of the location's
    /// enumeration order, if the position is within range.
    pub fn nth_child(&self, root: u64, segs: &Vec<String>, idx: usize) -> (r: Option<String>)
        ensures
            match r {
                Some(nm) => idx < children(self@, root, segs.deep_view()).len() && idx < self@.len()
                    && nm@ == children(self@, root, segs.deep_view())[idx as int].path.last(),
                None => idx >= children(self@, root, segs.deep_view()).len(),
            },
    {
        let ghost sv = segs.deep_view();
        let ghost pred = |k: KeyModel| is_child(k, root, sv);
        let n = self.keys.len();
        let mut i: usize = 0;
        let mut count: usize = 0;
        while i < n
            invariant
                i <= n,
                n == self@.len(),
                sv == segs.deep_view(),
                pred == (|k: KeyModel| is_child(k, root, sv)),
                count == children(self@.take(i as int), root, sv).len(),
                count <= idx,
            decreases n - i,
        {
            let hit = key_entry_is_child(&self.keys[i], root, segs);
            proof {
                lemma_filter_take_step(self@, pred, i as int);
            }
            if hit {
                if count == idx {
                    let k = &self.keys[i];
                    let nm = clone_string(&k.segs[k.segs.len() - 1]);
                    proof {
                        let c1 = children(self@.take(i + 1), root, sv);
                        assert(c1 == children(self@.take(i as int), root, sv).push(
                            self@[i as int],
                        ));
                        assert(c1[idx as int] == self@[i as int]);
                        assert(self@ =~= self@.take(i + 1) + self@.skip(i + 1));
                        Seq::<KeyModel>::filter_distributes_over_add(
                            self@.take(i + 1),
                            self@.skip(i + 1),
                            pred,
                        );
                        assert(children(self@, root, sv)[idx as int] == self@[i as int]);
                        assert(self@[i as int].path.last() == k.segs.deep_view().last());
                        assert(nm@ == k.segs.deep_view()[k.segs@.len() - 1]);
                    }
                    return Some(nm);
                }
                count = count + 1;
            }
            i = i + 1;
        }
        proof {
            assert(self@.take(n as int) =~= self@);
        }
        None
    }

    /// The name and value at the given position of the location's value
    /// list, if the position is within range and the payload fits the
    /// offered capacity.
    pub fn nth_value(&self, root: u64, segs: &Vec<String>, idx: usize, cap: usize) -> (r:
        ValueEnumQuery)
        requires
            wf_state(self@),
        ensures
            match r {
                ValueEnumQuery::NoKey => !has_key(self@, root, segs.deep_view()),
                ValueEnumQuery::End => has_key(self@, root, segs.deep_view()) && idx >= key_at(
                    self@,
                    root,
                    segs.deep_view(),
                ).vals.len(),
                ValueEnumQuery::TooSmall(need) => {
                    &&& has_key(self@, root, segs.deep_view())
                    &&& idx < key_at(self@, root, segs.deep_view()).vals.len()
                    &&& need == key_at(self@, root, segs.deep_view()).vals[
                        idx as int
                    ].val.data.len()
                    &&& need > cap
                },
                ValueEnumQuery::Entry(nm, v) => {
                    &&& has_key(self@, root, segs.deep_view())
                    &&& idx < key_at(self@, root, segs.deep_view()).vals.len()
                    &&& nm@ == key_at(self@, root, segs.deep_view()).vals[idx as int].name
                    &&& v@ == key_at(self@, root, segs.deep_view()).vals[idx as int].val
                    &&& v@.data.len() <= cap
                },
            },
    {
        let ghost sv = segs.deep_view();
        match self.find_key_idx(root, segs) {
            None => ValueEnumQuery::NoKey,
            Some(i) => {
                proof {
                    lemma_key_index_is(self@, root, sv, i as int);
                }
                let k = &self.keys[i];
                if idx >= k.vals.len() {
                    ValueEnumQuery::End
                } else {
                    proof {
                        assert(self@[i as int].vals[idx as int] == k.vals@[idx as int]@);
                    }
                    let e = &k.vals[idx];
                    if e.data.bytes.len() > cap {
                        ValueEnumQuery::TooSmall(e.data.bytes.len())
                    } else {
                        ValueEnumQuery::Entry(clone_string(&e.name), e.data.clone())
                    }
                }
            },
        }
    }
}

/// Copies a string.
pub fn clone_string(s: &String) -> (r: String)
    ensures
        r@ == s@,
{
    s.clone()
}

/// Copies a segment list.
pub fn clone_segs(segs: &Vec<String>) -> (r: Vec<String>)
    ensures
        r.deep_view() == segs.deep_view(),
{
    let r = segs.clone();
    proof {
        assert(r.deep_view() =~~= segs.deep_view());
    }
    r
}

/// Copies a key entry with its values.
fn clone_key_entry(k: &KeyEntry) -> (r: KeyEntry)
    ensures
        r@ == k@,
{
    let segs = clone_segs(&k.segs);
    let vals = k.vals.clone();
    proof {
        assert forall|j: int| 0 <= j < vals@.len() implies vals@[j]@ == k.vals@[j]@ by {
            assert(cloned::<RegValueEntry>(k.vals@[j], vals@[j]));
        }
        assert(vals@.map_values(|e: RegValueEntry| e@) =~~= k.vals@.map_values(
            |e: RegValueEntry| e@,
        ));
    }
    let r = KeyEntry { root: k.root, segs, vals };
    proof {
        assert(r@ =~~= k@);
    }
    r
}

impl RegState {
    /// A complete copy of this store state.
    pub fn snapshot(&self) -> (r: RegState)
        ensures
            r@ == self@,
    {
        let n = self.keys.len();
        let mut keys: Vec<KeyEntry> = Vec::new();
        let mut i: usize = 0;
        while i < n
            invariant
                i <= n,
                n == self.keys@.len(),
                keys@.map_values(|k: KeyEntry| k@) == self@.take(i as int),
            decreases n - i,
        {
            let entry = clone_key_entry(&self.keys[i]);
            proof {
                assert(self@[i as int] == self.keys@[i as int]@);
                assert(entry@ == self@[i as int]);
            }
            let ghost prev = keys@;
            keys.push(entry);
            proof {
                assert(keys@ == prev.push(entry));
                assert(prev.map_values(|k: KeyEntry| k@).len() == prev.len());
                assert(prev.len() == i);
                assert forall|j: int| 0 <= j < i + 1 implies (#[trigger] keys@[j])@ == self@.take(
                    i + 1,
                )[j] by {
                    if j < i {
                        assert(keys@[j] == prev[j]);
                        assert(prev.map_values(|k: KeyEntry| k@)[j] == prev[j]@);
                        assert(prev[j]@ == self@.take(i as int)[j]);
                    } else {
                        assert(keys@[j] == entry);
                    }
                }
                assert(keys@.map_values(|k: KeyEntry| k@) =~= self@.take(i + 1));
            }
            i = i + 1;
        }
        let r = RegState { keys };
        proof {
            assert(self@.take(n as int) =~= self@);
        }
        r
    }
}

/// Ensuring a path's prefixes preserves well-formedness; it adds exactly
/// those prefix locations and keeps every existing key in place.
proof fn lemma_with_prefixes_facts(m: Seq<KeyModel>, root: u64, path: Seq<Seq<char>>, cnt: nat)
    requires
        wf_state(m),
        cnt <= path.len() + 1,
    ensures
        wf_state(with_prefixes(m, root, path, cnt)),
        forall|j: int| 0 <= j < cnt ==> has_key(with_prefixes(m, root, path, cnt), root, #[trigger] path.take(j)),
        m.len() <= with_prefixes(m, root, path, cnt).len(),
        forall|i: int| 0 <= i < m.len() ==> with_prefixes(m, root, path, cnt)[i] == m[i],
        forall|r2: u64, q: Seq<Seq<char>>|
            #[trigger] has_key(with_prefixes(m, root, path, cnt), r2, q) == (has_key(m, r2, q)
                || (r2 == root && exists|j: int| 0 <= j < cnt && q == #[trigger] path.take(j))),
    decreases cnt,
{
    if cnt == 0 {
        assert forall|r2: u64, q: Seq<Seq<char>>|
            #[trigger] has_key(with_prefixes(m, root, path, cnt), r2, q) == (has_key(m, r2, q)
                || (r2 == root && exists|j: int| 0 <= j < cnt && q == #[trigger] path.take(j))) by {
        }
    } else {
        let prev = with_prefixes(m, root, path, (cnt - 1) as nat);
        lemma_with_prefixes_facts(m, root, path, (cnt - 1) as nat);
        let pfx = path.take(cnt - 1);
        assert forall|l2: int| 0 <= l2 < pfx.len() implies has_key(
            prev,
            root,
            #[trigger] pfx.take(l2),
        ) by {
            assert(pfx.take(l2) =~= path.take(l2));
            assert(has_key(prev, root, path.take(l2)));
        }
        lemma_ensure_key(prev, root, pfx);
        let out = with_prefixes(m, root, path, cnt);
        assert(out == ensure_key(prev, root, pfx));
        assert forall|j: int| 0 <= j < cnt implies has_key(out, root, #[trigger] path.take(j)) by {
            if j < cnt - 1 {
                assert(has_key(prev, root, path.take(j)));
            } else {
                assert(path.take(j) == pfx);
            }
        }
        assert forall|r2: u64, q: Seq<Seq<char>>|
            #[trigger] has_key(out, r2, q) == (has_key(m, r2, q) || (r2 == root && exists|j: int|
                0 <= j < cnt && q == #[trigger] path.take(j))) by {
            if has_key(out, r2, q) {
                if !has_key(m, r2, q) {
                    if has_key(prev, r2, q) {
                        let j = choose|j: int| 0 <= j < cnt - 1 && q == #[trigger] path.take(j);
                        assert(0 <= j < cnt && q == path.take(j));
                    } else {
                        assert(r2 == root && q == pfx);
                        assert(q == path.take(cnt - 1));
                    }
                }
            }
            if has_key(m, r2, q) {
                assert(has_key(prev, r2, q));
            }
            if r2 == root && exists|j: int| 0 <= j < cnt && q == #[trigger] path.take(j) {
                let j = choose|j: int| 0 <= j < cnt && q == #[trigger] path.take(j);
                if j < cnt - 1 {
                    assert(has_key(prev, r2, q));
                } else {
                    assert(q == pfx);
                }
            }
        }
    }
}

/// Creating a key establishes it, all its intermediate keys, and nothing
/// else, and never disturbs an existing key.
pub proof fn lemma_with_path_facts(m: Seq<KeyModel>, root: u64, path: Seq<Seq<char>>)
    requires
        wf_state(m),
    ensures
        wf_state(with_path(m, root, path)),
        has_key(with_path(m, root, path), root, path),
        forall|j: int|
            0 <= j <= path.len() ==> has_key(with_path(m, root, path), root, #[trigger] path.take(j)),
        forall|i: int| 0 <= i < m.len() ==> with_path(m, root, path)[i] == m[i],
        forall|r2: u64, q: Seq<Seq<char>>|
            has_key(m, r2, q) ==> #[trigger] has_key(with_path(m, root, path), r2, q),
        forall|r2: u64, q: Seq<Seq<char>>|
            #[trigger] has_key(with_path(m, root, path), r2, q) ==> (has_key(m, r2, q) || (r2
                == root && exists|j: int| 0 <= j <= path.len() && q == #[trigger] path.take(j))),
{
    lemma_with_prefixes_facts(m, root, path, (path.len() + 1) as nat);
    let out = with_path(m, root, path);
    assert(path.take(path.len() as int) =~= path);
    assert(has_key(out, root, path.take(path.len() as int)));
    assert forall|r2: u64, q: Seq<Seq<char>>|
        #[trigger] has_key(out, r2, q) implies (has_key(m, r2, q) || (r2 == root && exists|j: int|
            0 <= j <= path.len() && q == #[trigger] path.take(j))) by {
        if !has_key(m, r2, q) {
            let j = choose|j: int| 0 <= j < path.len() + 1 && q == #[trigger] path.take(j);
            assert(0 <= j <= path.len() && q == path.take(j));
        }
    }
}

/// Setting a value and reading it back at the same location yields the
/// value just set; other values of the key and all other keys keep their
/// contents.
pub proof fn lemma_set_value_read_back(
    m: Seq<KeyModel>,
    root: u64,
    path: Seq<Seq<char>>,
    name: Seq<char>,
    v: RegValueView,
)
    requires
        wf_state(m),
        has_key(m, root, path),
    ensures
        ({
            let m2 = with_value(m, root, path, name, v);
            &&& has_key(m2, root, path)
            &&& has_val(key_at(m2, root, path).vals, name)
            &&& val_at(key_at(m2, root, path).vals, name).val == v
            &&& forall|n2: Seq<char>|
                n2 != name ==> #[trigger] has_val(key_at(m2, root, path).vals, n2) == has_val(
                    key_at(m, root, path).vals,
                    n2,
                )
            &&& forall|n2: Seq<char>|
                n2 != name && has_val(key_at(m, root, path).vals, n2) ==> #[trigger] val_at(
                    key_at(m2, root, path).vals,
                    n2,
                ) == val_at(key_at(m, root, path).vals, n2)
            &&& forall|r2: u64, q: Seq<Seq<char>>|
                !(r2 == root && q == path) && has_key(m, r2, q) ==> #[trigger] key_at(m2, r2, q)
                    == key_at(m, r2, q)
        }),
{
    let ki = key_index(m, root, path);
    let w = choose|i: int| 0 <= i < m.len() && key_is(m[i], root, path);
    assert(0 <= ki < m.len() && key_is(m[ki], root, path));
    let m2 = with_value(m, root, path, name, v);
    assert(m2[ki].root == root && m2[ki].path == path);
    lemma_key_index_is_v2(m, m2, root, path, ki);
    assert(unique_val_names(m[ki].vals));
    lemma_set_val_unique(m[ki].vals, name, v);
    assert(key_at(m2, root, path).vals == set_val_in(m[ki].vals, name, v));
    assert forall|r2: u64, q: Seq<Seq<char>>|
        !(r2 == root && q == path) && has_key(m, r2, q) implies #[trigger] key_at(m2, r2, q)
        == key_at(m, r2, q) by {
        let i2 = key_index(m, r2, q);
        assert(0 <= i2 < m.len() && key_is(m[i2], r2, q));
        assert(i2 != ki);
        assert(m2[i2] == m[i2]);
        lemma_key_index_is_v2(m, m2, r2, q, i2);
    }
}

/// A location's index is the same in two states whose keys sit at the
/// same locations pointwise.
proof fn lemma_key_index_is_v2(
    m: Seq<KeyModel>,
    m2: Seq<KeyModel>,
    root: u64,
    path: Seq<Seq<char>>,
    i: int,
)
    requires
        wf_state(m),
        0 <= i < m.len(),
        key_is(m[i], root, path),
        m2.len() == m.len(),
        forall|k: int| 0 <= k < m.len() ==> m2[k].root == m[k].root && (#[trigger] m2[k].path) == m[k].path,
    ensures
        has_key(m2, root, path),
        key_index(m2, root, path) == i,
        key_at(m2, root, path) == m2[i],
        key_index(m, root, path) == i,
{
    lemma_key_index_is(m, root, path, i);
    assert(m2[i].path == m[i].path);
    assert(key_is(m2[i], root, path));
    assert(has_key(m2, root, path));
    let j = key_index(m2, root, path);
    assert(0 <= j < m2.len() && key_is(m2[j], root, path));
    if j != i {
        assert(m2[j].path == m[j].path);
        assert(key_is(m[j], root, path));
        lemma_key_index_is(m, root, path, j);
    }
}

/// The direct children of a location carry pairwise distinct final name
/// segments, so enumerating them yields each name exactly once.
pub proof fn lemma_children_names_distinct(m: Seq<KeyModel>, root: u64, path: Seq<Seq<char>>)
    requires
        wf_state(m),
    ensures
        ({
            let c = children(m, root, path);
            forall|i: int, j: int|
                0 <= i < j < c.len() ==> (#[trigger] c[i].path).last() != (#[trigger] c[j].path).last()
        }),
{
    let p = |k: KeyModel| is_child(k, root, path);
    let c = children(m, root, path);
    lemma_filter_distinct(m, p);
    assert forall|i: int, j: int|
        0 <= i < j < c.len() implies (#[trigger] c[i].path).last() != (#[trigger] c[j].path).last()
        by {
        m.lemma_filter_pred(p, i);
        m.lemma_filter_pred(p, j);
        assert(!key_is(c[j], c[i].root, c[i].path));
        if c[i].path.last() == c[j].path.last() {
            assert(c[i].path.take(path.len() as int) == path);
            assert(c[j].path.take(path.len() as int) == path);
            assert forall|l: int| 0 <= l < c[i].path.len() implies c[i].path[l] == c[j].path[l] by {
                if l < path.len() {
                    assert(c[i].path.take(path.len() as int)[l] == c[i].path[l]);
                    assert(c[j].path.take(path.len() as int)[l] == c[j].path[l]);
                } else {
                    assert(c[i].path.last() == c[i].path[l]);
                    assert(c[j].path.last() == c[j].path[l]);
                }
            }
            assert(c[i].path =~= c[j].path);
            assert(false);
        }
    }
}

/// The name lengths of a location's direct children, in enumeration
/// order.
pub open spec fn child_name_lens(m: Seq<KeyModel>, root: u64, path: Seq<Seq<char>>) -> Seq<nat> {
    children(m, root, path).map_values(|k: KeyModel| k.path.last().len())
}

/// The name lengths of a value list.
pub open spec fn val_name_lens(vals: Seq<ValueModel>) -> Seq<nat> {
    vals.map_values(|v: ValueModel| v.name.len())
}

/// The payload lengths of a value list.
pub open spec fn val_data_lens(vals: Seq<ValueModel>) -> Seq<nat> {
    vals.map_values(|v: ValueModel| v.val.data.len())
}

impl RegState {
    /// Structural statistics of the key at the location: child count,
    /// longest child name, value count, longest value name, largest
    /// value payload.
    pub fn stats(&self, root: u64, segs: &Vec<String>) -> (r: Option<(
        usize,
        usize,
        usize,
        usize,
        usize,
    )>)
        requires
            wf_state(self@),
        ensures
            match r {
                None => !has_key(self@, root, segs.deep_view()),
                Some(t) => {
                    &&& has_key(self@, root, segs.deep_view())
                    &&& t.0 == children(self@, root, segs.deep_view()).len()
                    &&& t.1 == max_nat(child_name_lens(self@, root, segs.deep_view()))
                    &&& t.2 == key_at(self@, root, segs.deep_view()).vals.len()
                    &&& t.3 == max_nat(val_name_lens(key_at(self@, root, segs.deep_view()).vals))
                    &&& t.4 == max_nat(val_data_lens(key_at(self@, root, segs.deep_view()).vals))
                },
            },
    {
        let ghost sv = segs.deep_view();
        let ghost pred = |k: KeyModel| is_child(k, root, sv);
        let ki = match self.find_key_idx(root, segs) {
            None => {
                return None;
            },
            Some(i) => i,
        };
        proof {
            lemma_key_index_is(self@, root, sv, ki as int);
        }
        let n = self.keys.len();
        let mut p: usize = 0;
        let mut count: usize = 0;
        let mut maxn: usize = 0;
        proof {
            assert(self@.take(0).filter(pred) =~= Seq::<KeyModel>::empty()) by {
                reveal(Seq::filter);
            }
            assert(children(self@.take(0), root, sv).map_values(|k: KeyModel| k.path.last().len())
                =~= Seq::<nat>::empty());
        }
        while p < n
            invariant
                p <= n,
                n == self@.len(),
                sv == segs.deep_view(),
                pred == (|k: KeyModel| is_child(k, root, sv)),
                count == children(self@.take(p as int), root, sv).len(),
                maxn == max_nat(
                    children(self@.take(p as int), root, sv).map_values(
                        |k: KeyModel| k.path.last().len(),
                    ),
                ),
            decreases n - p,
        {
            let hit = key_entry_is_child(&self.keys[p], root, segs);
            proof {
                lemma_filter_take_step(self@, pred, p as int);
                assert(self@[p as int] == self.keys@[p as int]@);
            }
            if hit {
                let e = &self.keys[p];
                let nm_len = e.segs[e.segs.len() - 1].as_str().unicode_len();
                proof {
                    let c0 = children(self@.take(p as int), root, sv);
                    let c1 = children(self@.take(p + 1), root, sv);
                    assert(c1 == c0.push(self@[p as int]));
                    let f = |k: KeyModel| k.path.last().len();
                    assert(c1.map_values(f) =~= c0.map_values(f).push(f(self@[p as int])));
                    assert(c1.map_values(f).drop_last() =~= c0.map_values(f));
                    assert(self@[p as int].path.last() == e.segs.deep_view().last());
                    assert(nm_len == f(self@[p as int]));
                }
                count = count + 1;
                if nm_len > maxn {
                    maxn = nm_len;
                }
            }
            p = p + 1;
        }
        proof {
            assert(self@.take(n as int) =~= self@);
        }
        let key = &self.keys[ki];
        let nv = key.vals.len();
        let mut j: usize = 0;
        let mut maxvn: usize = 0;
        let mut maxvd: usize = 0;
        let ghost vals = key_at(self@, root, sv).vals;
        proof {
            assert(vals == self@[ki as int].vals);
            assert(vals.take(0).map_values(|v: ValueModel| v.name.len()) =~= Seq::<nat>::empty());
            assert(vals.take(0).map_values(|v: ValueModel| v.val.data.len())
                =~= Seq::<nat>::empty());
        }
        while j < nv
            invariant
                j <= nv,
                nv == vals.len(),
                vals == key_at(self@, root, sv).vals,
                ki < self@.len(),
                vals == self@[ki as int].vals,
                maxvn == max_nat(vals.take(j as int).map_values(|v: ValueModel| v.name.len())),
                maxvd == max_nat(
                    vals.take(j as int).map_values(|v: ValueModel| v.val.data.len()),
                ),
            decreases nv - j,
        {
            let e = &self.keys[ki].vals[j];
            let name_len = e.name.as_str().unicode_len();
            let data_len = e.data.bytes.len();
            proof {
                assert(vals[j as int] == self.keys@[ki as int].vals@[j as int]@);
                let fn1 = |v: ValueModel| v.name.len();
                let fn2 = |v: ValueModel| v.val.data.len();
                assert(vals.take(j + 1) =~= vals.take(j as int).push(vals[j as int]));
                assert(vals.take(j + 1).map_values(fn1) =~= vals.take(j as int).map_values(
                    fn1,
                ).push(fn1(vals[j as int])));
                assert(vals.take(j + 1).map_values(fn1).drop_last() =~= vals.take(
                    j as int,
                ).map_values(fn1));
                assert(vals.take(j + 1).map_values(fn2) =~= vals.take(j as int).map_values(
                    fn2,
                ).push(fn2(vals[j as int])));
                assert(vals.take(j + 1).map_values(fn2).drop_last() =~= vals.take(
                    j as int,
                ).map_values(fn2));
            }
            if name_len > maxvn {
                maxvn = name_len;
            }
            if data_len > maxvd {
                maxvd = data_len;
            }
            j = j + 1;
        }
        proof {
            assert(vals.take(nv as int) =~= vals);
        }
        Some((count, maxn, nv, maxvn, maxvd))
    }
}

/// Setting a value keeps the state well formed.
pub proof fn lemma_with_value_wf(
    m: Seq<KeyModel>,
    root: u64,
    path: Seq<Seq<char>>,
    name: Seq<char>,
    v: RegValueView,
)
    requires
        wf_state(m),
        has_key(m, root, path),
    ensures
        wf_state(with_value(m, root, path, name, v)),
{
    let ki = key_index(m, root, path);
    let w = choose|i: int| 0 <= i < m.len() && key_is(m[i], root, path);
    assert(0 <= ki < m.len() && key_is(m[ki], root, path));
    assert(unique_val_names(m[ki].vals));
    lemma_set_val_unique(m[ki].vals, name, v);
    lemma_wf_update_vals(m, ki, set_val_in(m[ki].vals, name, v));
}

/// The keys of the subtree rooted at a location, the location itself
/// first, in store order.
pub open spec fn cone(m: Seq<KeyModel>, root: u64, path: Seq<Seq<char>>) -> Seq<KeyModel> {
    m.filter(|k: KeyModel| in_cone(k, root, path))
}

/// A state after setting each value of a list, in order, on the key at a
/// location.
pub open spec fn copy_key_vals(
    m: Seq<KeyModel>,
    root: u64,
    path: Seq<Seq<char>>,
    vals: Seq<ValueModel>,
) -> Seq<KeyModel>
    decreases vals.len(),
{
    if vals.len() == 0 {
        m
    } else {
        copy_key_vals(with_value(m, root, path, vals[0].name, vals[0].val), root, path, vals.drop_first())
    }
}

/// A state after copying a list of source keys under a destination
/// location, in order: for each source key, its path below the source
/// root is re-rooted under the destination, the key is created with its
/// missing intermediates, and its values are set one by one.
pub open spec fn copy_entries(
    m: Seq<KeyModel>,
    droot: u64,
    dpath: Seq<Seq<char>>,
    srclen: int,
    entries: Seq<KeyModel>,
) -> Seq<KeyModel>
    decreases entries.len(),
{
    if entries.len() == 0 {
        m
    } else {
        let tgt = dpath + entries[0].path.skip(srclen);
        copy_entries(
            copy_key_vals(with_path(m, droot, tgt), droot, tgt, entries[0].vals),
            droot,
            dpath,
            srclen,
            entries.drop_first(),
        )
    }
}

/// Copying one more key applies its step after the earlier ones.
pub proof fn lemma_copy_entries_push(
    m: Seq<KeyModel>,
    droot: u64,
    dpath: Seq<Seq<char>>,
    srclen: int,
    entries: Seq<KeyModel>,
    k: KeyModel,
)
    ensures
        copy_entries(m, droot, dpath, srclen, entries.push(k)) == ({
            let prev = copy_entries(m, droot, dpath, srclen, entries);
            let tgt = dpath + k.path.skip(srclen);
            copy_key_vals(with_path(prev, droot, tgt), droot, tgt, k.vals)
        }),
    decreases entries.len(),
{
    if entries.len() == 0 {
        assert(entries.push(k)[0] == k);
        assert(entries.push(k).drop_first() =~= Seq::<KeyModel>::empty());
        let tgt = dpath + k.path.skip(srclen);
        let one = copy_key_vals(with_path(m, droot, tgt), droot, tgt, k.vals);
        assert(copy_entries(m, droot, dpath, srclen, entries.push(k)) == copy_entries(
            one,
            droot,
            dpath,
            srclen,
            Seq::<KeyModel>::empty(),
        ));
        assert(copy_entries(one, droot, dpath, srclen, Seq::<KeyModel>::empty()) == one);
        assert(copy_entries(m, droot, dpath, srclen, entries) == m);
    } else {
        assert(entries.push(k)[0] == entries[0]);
        assert(entries.push(k).drop_first() =~= entries.drop_first().push(k));
        let t0 = dpath + entries[0].path.skip(srclen);
        let m1 = copy_key_vals(with_path(m, droot, t0), droot, t0, entries[0].vals);
        lemma_copy_entries_push(m1, droot, dpath, srclen, entries.drop_first(), k);
        assert(copy_entries(m, droot, dpath, srclen, entries.push(k)) == copy_entries(
            m1,
            droot,
            dpath,
            srclen,
            entries.drop_first().push(k),
        ));
        assert(copy_entries(m, droot, dpath, srclen, entries) == copy_entries(
            m1,
            droot,
            dpath,
            srclen,
            entries.drop_first(),
        ));
    }
}

} // verus!
