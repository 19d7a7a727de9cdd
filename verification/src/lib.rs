//! A typed access layer over a hierarchical, transactional key-value store
//! in the format of the Windows registry.
//!
//! The store itself is an in-memory model with the registry's data model:
//! a forest of named keys under a fixed set of predefined roots, each key
//! holding named, type-tagged binary values. [`RegKey`] is a handle to one
//! location in that forest; the value codec in [`types`] and [`wide`]
//! converts between native typed values and the tagged little-endian
//! buffers the format persists; [`transaction::Transaction`] groups
//! operations into an atomic unit.
use vstd::prelude::*;

pub mod enums;
pub mod laws;
pub mod registry;
pub mod store;
pub mod transaction;
pub mod types;
pub mod wide;

use crate::enums::ERROR_ACCESS_DENIED;
use crate::enums::ERROR_TRANSACTION_NOT_ACTIVE;
use crate::enums::KEY_ALL_ACCESS;
use crate::enums::KEY_CREATE_SUB_KEY;
use crate::enums::KEY_ENUMERATE_SUB_KEYS;
use crate::enums::KEY_QUERY_VALUE;
use crate::enums::KEY_SET_VALUE;
use crate::enums::RegDisposition;
use crate::enums::RegError;
use crate::enums::RegType;
use crate::registry::Registry;
use crate::registry::RegistryModel;
use crate::registry::lemma_updated_at;
use crate::registry::lemma_updated_at_noop;
use crate::registry::updated_at;
use crate::registry::visible;
use crate::registry::wf_registry;
use crate::store::KeyModel;
use crate::store::children;
use crate::store::clone_segs;
use crate::store::has_key;
use crate::store::has_val;
use crate::store::key_at;
use crate::store::val_at;
use crate::store::wf_state;
use crate::store::with_path;
use crate::store::with_value;
use crate::store::without_cone;
use crate::store::without_key;
use crate::store::without_value;
use crate::transaction::Transaction;
use crate::types::FromRegValue;
use crate::types::ToRegValue;

verus! {

/// Ghost model of a raw registry value: its type tag and payload bytes.
#[verifier::ext_equal]
pub ghost struct RegValueView {
    pub ty: RegType,
    pub data: Seq<u8>,
}

/// Raw registry value: a type tag and the payload bytes laid out as the
/// store persists them.
#[derive(Debug)]
pub struct RegValue {
    pub bytes: Vec<u8>,
    pub vtype: RegType,
}

impl View for RegValue {
    type V = RegValueView;

    open spec fn view(&self) -> RegValueView {
        RegValueView { ty: self.vtype, data: self.bytes@ }
    }
}

impl Clone for RegValue {
    fn clone(&self) -> (res: Self)
        ensures
            res@ == self@,
    {
        let bytes = self.bytes.clone();
        proof {
            assert(bytes@ =~= self.bytes@);
        }
        RegValue { bytes, vtype: self.vtype }
    }
}

impl PartialEq for RegValue {
    fn eq(&self, other: &Self) -> (r: bool) {
        let tags_equal = match (self.vtype, other.vtype) {
            (RegType::REG_NONE, RegType::REG_NONE) => true,
            (RegType::REG_SZ, RegType::REG_SZ) => true,
            (RegType::REG_EXPAND_SZ, RegType::REG_EXPAND_SZ) => true,
            (RegType::REG_BINARY, RegType::REG_BINARY) => true,
            (RegType::REG_DWORD, RegType::REG_DWORD) => true,
            (RegType::REG_DWORD_BIG_ENDIAN, RegType::REG_DWORD_BIG_ENDIAN) => true,
            (RegType::REG_LINK, RegType::REG_LINK) => true,
            (RegType::REG_MULTI_SZ, RegType::REG_MULTI_SZ) => true,
            (RegType::REG_RESOURCE_LIST, RegType::REG_RESOURCE_LIST) => true,
            (RegType::REG_FULL_RESOURCE_DESCRIPTOR, RegType::REG_FULL_RESOURCE_DESCRIPTOR) => true,
            (RegType::REG_RESOURCE_REQUIREMENTS_LIST, RegType::REG_RESOURCE_REQUIREMENTS_LIST) => true,
            (RegType::REG_QWORD, RegType::REG_QWORD) => true,
            _ => false,
        };
        if !tags_equal {
            return false;
        }
        let r = self.bytes == other.bytes;
        proof {
            if r {
                assert(self.bytes@ =~= other.bytes@);
            } else {
                if self.bytes@ == other.bytes@ {
                    assert(forall|i: int|
                        0 <= i < self.bytes@.len() ==> self.bytes@[i] == other.bytes@[i]);
                    assert(false);
                }
            }
        }
        r
    }
}

impl vstd::std_specs::cmp::PartialEqSpecImpl for RegValue {
    open spec fn obeys_eq_spec() -> bool {
        true
    }

    open spec fn eq_spec(&self, other: &Self) -> bool {
        self@ == other@
    }
}

/// A name segment prefixed onto the first piece of a piece list.
pub open spec fn prepend_seg(c: char, pieces: Seq<Seq<char>>) -> Seq<Seq<char>> {
    if pieces.len() == 0 {
        seq![seq![c]]
    } else {
        seq![seq![c] + pieces[0]] + pieces.drop_first()
    }
}

/// A path split at every backslash: `k` separators give `k + 1` pieces,
/// empty pieces included.
pub open spec fn raw_split(s: Seq<char>) -> Seq<Seq<char>>
    decreases s.len(),
{
    if s.len() == 0 {
        seq![Seq::<char>::empty()]
    } else if s[0] == '\\' {
        seq![Seq::<char>::empty()] + raw_split(s.drop_first())
    } else {
        prepend_seg(s[0], raw_split(s.drop_first()))
    }
}

/// The name segments of a path: the pieces between backslashes, empty
/// pieces dropped, so leading, trailing and doubled backslashes are
/// tolerated and the empty path names no segment at all.
pub open spec fn spec_parse_path(s: Seq<char>) -> Seq<Seq<char>> {
    raw_split(s).filter(|seg: Seq<char>| seg.len() > 0)
}

/// An accumulated separator-free prefix attached onto the first piece of
/// a piece list.
pub open spec fn attach_seg(cur: Seq<char>, pieces: Seq<Seq<char>>) -> Seq<Seq<char>> {
    if pieces.len() == 0 {
        seq![cur]
    } else {
        seq![cur + pieces[0]] + pieces.drop_first()
    }
}

/// A raw split always has at least one piece.
proof fn lemma_raw_split_nonempty(s: Seq<char>)
    ensures
        raw_split(s).len() > 0,
    decreases s.len(),
{
    if s.len() == 0 {
    } else if s[0] == '\\' {
    } else {
        lemma_raw_split_nonempty(s.drop_first());
    }
}

/// Splits a path string into its name segments.
fn parse_path(s: &str) -> (r: Vec<String>)
    ensures
        r.deep_view() == spec_parse_path(s@),
{
    let chars = wide::string_to_chars(s);
    let n = chars.len();
    let mut done: Vec<String> = Vec::new();
    let mut cur: Vec<char> = Vec::new();
    let mut i: usize = 0;
    proof {
        lemma_raw_split_nonempty(s@);
        assert(s@.skip(0) =~= s@);
        let p0 = raw_split(s@);
        assert(Seq::<char>::empty() + p0[0] =~= p0[0]);
        assert(attach_seg(Seq::<char>::empty(), p0) =~= p0);
    }
    while i < n
        invariant
            i <= n,
            n == s@.len(),
            chars@ == s@,
            forall|k: int| 0 <= k < cur@.len() ==> cur@[k] != '\\',
            raw_split(s@) == done.deep_view() + attach_seg(cur@, raw_split(s@.skip(i as int))),
        decreases n - i,
    {
        let ghost tail = s@.skip(i as int);
        proof {
            assert(tail[0] == s@[i as int]);
            assert(tail.drop_first() =~= s@.skip(i + 1));
            lemma_raw_split_nonempty(s@.skip(i + 1));
        }
        let c = chars[i];
        if c as u32 == 92 {
            proof {
                vstd::utf8::char_u32_cast(c, 92u32);
                assert(('\\' as u32) == 92);
                vstd::utf8::char_u32_cast('\\', 92u32);
                assert(c == '\\');
            }
            let seg = wide::chars_to_string(&cur);
            let ghost done0 = done.deep_view();
            let ghost cur0 = cur@;
            proof {
                let x = raw_split(s@.skip(i + 1));
                assert(raw_split(tail) == seq![Seq::<char>::empty()] + x);
                assert(cur0 + (seq![Seq::<char>::empty()] + x)[0] =~= cur0);
                assert(attach_seg(cur0, raw_split(tail)) =~~= seq![cur0] + x);
            }
            done.push(seg);
            cur = Vec::new();
            proof {
                let x = raw_split(s@.skip(i + 1));
                assert(done@.last()@ == cur0);
                assert(done.deep_view() =~~= done0.push(cur0));
                assert(done0 + (seq![cur0] + x) =~= done0.push(cur0) + x);
                assert(attach_seg(cur@, x) == x);
                assert(raw_split(s@) == done.deep_view() + attach_seg(cur@, x));
            }
        } else {
            proof {
                if c == '\\' {
                    assert((c as u32) == 92);
                }
            }
            let ghost cur0 = cur@;
            cur.push(c);
            proof {
                let x = raw_split(s@.skip(i + 1));
                assert(raw_split(tail) == prepend_seg(s@[i as int], x));
                if x.len() == 0 {
                    assert(false);
                } else {
                    assert(cur0 + (seq![seq![s@[i as int]]] + x)[0] =~= cur@);
                    assert(cur0 + prepend_seg(s@[i as int], x)[0] =~= cur@ + x[0]);
                    assert(attach_seg(cur0, prepend_seg(s@[i as int], x)) =~~= attach_seg(
                        cur@,
                        x,
                    ));
                }
                assert(raw_split(s@) == done.deep_view() + attach_seg(cur@, x));
            }
        }
        i = i + 1;
    }
    let last = wide::chars_to_string(&cur);
    let ghost done0 = done.deep_view();
    let ghost cur0 = cur@;
    proof {
        assert(s@.skip(i as int) =~= Seq::<char>::empty());
        assert(raw_split(Seq::<char>::empty()) == seq![Seq::<char>::empty()]);
        assert(cur0 + seq![Seq::<char>::empty()][0] =~= cur0);
        assert(attach_seg(cur0, raw_split(Seq::<char>::empty())) =~~= seq![cur0]);
    }
    done.push(last);
    proof {
        assert(done@.last()@ == cur0);
        assert(done.deep_view() =~~= done0.push(cur0));
        assert(done0 + seq![cur0] =~= done0.push(cur0));
        assert(raw_split(s@) == done.deep_view());
    }
    let m = done.len();
    let mut out: Vec<String> = Vec::new();
    let mut j: usize = 0;
    let ghost raw = done.deep_view();
    let ghost keep = |seg: Seq<char>| seg.len() > 0;
    proof {
        assert(raw.take(0).filter(keep) =~= Seq::<Seq<char>>::empty()) by {
            reveal(Seq::filter);
        }
    }
    while j < m
        invariant
            j <= m,
            m == done@.len(),
            raw == done.deep_view(),
            keep == (|seg: Seq<char>| seg.len() > 0),
            out.deep_view() == raw.take(j as int).filter(keep),
        decreases m - j,
    {
        proof {
            crate::store::lemma_filter_take_step(raw, keep, j as int);
            assert(raw[j as int] == done@[j as int]@);
        }
        if !done[j].as_str().is_empty() {
            let ghost out0 = out.deep_view();
            out.push(crate::store::clone_string(&done[j]));
            proof {
                assert(out@.last()@ == raw[j as int]);
                assert(out.deep_view() =~~= out0.push(raw[j as int]));
            }
        }
        j = j + 1;
    }
    proof {
        assert(raw.take(m as int) =~= raw);
        assert(out.deep_view() == spec_parse_path(s@));
    }
    out
}

/// Ghost model of a key handle: the location it addresses, the access
/// rights it was opened with, and the transaction context it operates
/// under.
#[verifier::ext_equal]
pub ghost struct KeyLocation {
    pub root: u64,
    pub path: Seq<Seq<char>>,
    pub perms: u32,
    pub tx: Option<u64>,
}

/// Handle of an opened registry key: a location in the store, the access
/// rights requested when it was opened, and the transaction context it
/// was opened under.
///
/// A handle addresses a location, not a storage cell: an operation acts
/// on whatever key currently sits at the handle's location and fails with
/// `NotFound` when none does.
#[derive(Debug)]
pub struct RegKey {
    pub root: u64,
    pub segs: Vec<String>,
    pub perms: u32,
    pub tx: Option<u64>,
}

impl View for RegKey {
    type V = KeyLocation;

    open spec fn view(&self) -> KeyLocation {
        KeyLocation { root: self.root, path: self.segs.deep_view(), perms: self.perms, tx: self.tx }
    }
}

/// The absolute path an operation with the given relative path addresses.
pub open spec fn loc_target(loc: KeyLocation, path: Seq<char>) -> Seq<Seq<char>> {
    loc.path + spec_parse_path(path)
}

/// What opening a child key returns, for every input: the handle at the
/// target location when it exists, `NotFound` when it does not, and the
/// transaction-inactive status when the context is gone. Opening checks
/// no access right; the rights asked for bind later operations.
pub open spec fn open_outcome(
    loc: KeyLocation,
    tx: Option<u64>,
    perms: u32,
    path: Seq<char>,
    reg: RegistryModel,
    r: Result<RegKey, RegError>,
) -> bool {
    match visible(reg, tx) {
        None => r matches Err(e) && e == RegError::OsError(ERROR_TRANSACTION_NOT_ACTIVE),
        Some(st) => {
            let tgt = loc_target(loc, path);
            if has_key(st, loc.root, tgt) {
                r matches Ok(k) && k@ == (KeyLocation { root: loc.root, path: tgt, perms, tx })
            } else {
                r matches Err(e) && e == RegError::NotFound
            }
        },
    }
}

/// What creating a child key does and returns, for every input: with the
/// context live, the create right held and the handle's own key present,
/// the target and all its missing intermediate keys come into being in
/// the context's state and the returned disposition says whether the
/// terminal key is new; otherwise nothing changes and the error names the
/// first failed condition, in that order.
pub open spec fn create_outcome(
    loc: KeyLocation,
    tx: Option<u64>,
    perms: u32,
    path: Seq<char>,
    r_old: RegistryModel,
    r_new: RegistryModel,
    r: Result<(RegKey, RegDisposition), RegError>,
) -> bool {
    match visible(r_old, tx) {
        None => r_new == r_old && (r matches Err(e) && e == RegError::OsError(
            ERROR_TRANSACTION_NOT_ACTIVE,
        )),
        Some(st) => {
            let tgt = loc_target(loc, path);
            if loc.perms & KEY_CREATE_SUB_KEY == 0 {
                r_new == r_old && (r matches Err(e) && e == RegError::OsError(
                    ERROR_ACCESS_DENIED,
                ))
            } else if !has_key(st, loc.root, loc.path) {
                r_new == r_old && (r matches Err(e) && e == RegError::NotFound)
            } else {
                &&& updated_at(r_old, r_new, tx, with_path(st, loc.root, tgt))
                &&& wf_registry(r_new)
                &&& r matches Ok(p) && p.0@ == (KeyLocation { root: loc.root, path: tgt, perms, tx })
                    && (p.1 == RegDisposition::REG_CREATED_NEW_KEY <==> !has_key(
                    st,
                    loc.root,
                    tgt,
                ))
            }
        },
    }
}

/// What deleting a childless child key does and returns, for every
/// input: with the context live, a nonempty target that exists and has
/// no child key, the key and its values are removed from the context's
/// state; otherwise nothing changes and the error says why. Predefined
/// roots are never deletable.
pub open spec fn delete_outcome(
    loc: KeyLocation,
    tx: Option<u64>,
    path: Seq<char>,
    r_old: RegistryModel,
    r_new: RegistryModel,
    r: Result<(), RegError>,
) -> bool {
    match visible(r_old, tx) {
        None => r_new == r_old && (r matches Err(e) && e == RegError::OsError(
            ERROR_TRANSACTION_NOT_ACTIVE,
        )),
        Some(st) => {
            let tgt = loc_target(loc, path);
            if tgt.len() == 0 {
                r_new == r_old && (r matches Err(e) && e == RegError::OsError(
                    ERROR_ACCESS_DENIED,
                ))
            } else if !has_key(st, loc.root, tgt) {
                r_new == r_old && (r matches Err(e) && e == RegError::NotFound)
            } else if children(st, loc.root, tgt).len() > 0 {
                r_new == r_old && (r matches Err(e) && e == RegError::HasChildren)
            } else {
                &&& updated_at(r_old, r_new, tx, without_key(st, loc.root, tgt))
                &&& wf_registry(r_new)
                &&& r is Ok
            }
        },
    }
}

/// What deleting a whole subtree does and returns, for every input: with
/// the context live and a nonempty target that exists, the target key,
/// every descendant and all their values are removed from the context's
/// state in one step; otherwise nothing changes and the error says why.
pub open spec fn delete_all_outcome(
    loc: KeyLocation,
    tx: Option<u64>,
    path: Seq<char>,
    r_old: RegistryModel,
    r_new: RegistryModel,
    r: Result<(), RegError>,
) -> bool {
    match visible(r_old, tx) {
        None => r_new == r_old && (r matches Err(e) && e == RegError::OsError(
            ERROR_TRANSACTION_NOT_ACTIVE,
        )),
        Some(st) => {
            let tgt = loc_target(loc, path);
            if tgt.len() == 0 {
                r_new == r_old && (r matches Err(e) && e == RegError::OsError(
                    ERROR_ACCESS_DENIED,
                ))
            } else if !has_key(st, loc.root, tgt) {
                r_new == r_old && (r matches Err(e) && e == RegError::NotFound)
            } else {
                &&& updated_at(r_old, r_new, tx, without_cone(st, loc.root, tgt))
                &&& wf_registry(r_new)
                &&& r is Ok
            }
        },
    }
}

impl RegKey {
    /// A handle to a predefined root, under no transaction and with
    /// every right: the operating system owns the roots and they need no
    /// opening or closing.
    pub fn predef(hkey: u64) -> (k: RegKey)
        ensures
            k@ == (KeyLocation {
                root: hkey,
                path: Seq::<Seq<char>>::empty(),
                perms: KEY_ALL_ACCESS,
                tx: None,
            }),
    {
        let k = RegKey { root: hkey, segs: Vec::new(), perms: KEY_ALL_ACCESS, tx: None };
        proof {
            assert(k.segs.deep_view() =~= Seq::<Seq<char>>::empty());
        }
        k
    }

    /// The absolute segment list for an operation on a relative path.
    fn target_segs(&self, path: &str) -> (r: Vec<String>)
        ensures
            r.deep_view() == loc_target(self@, path@),
    {
        let mut r = clone_segs(&self.segs);
        let mut parsed = parse_path(path);
        r.append(&mut parsed);
        proof {
            assert(r.deep_view() =~~= self@.path + spec_parse_path(path@));
        }
        r
    }

    /// Opens a child key with every right. An empty path opens a fresh
    /// handle to this handle's own location.
    pub fn open_subkey(&self, reg: &Registry, path: &str) -> (r: Result<RegKey, RegError>)
        requires
            wf_registry(reg@),
        ensures
            open_outcome(self@, self@.tx, KEY_ALL_ACCESS, path@, reg@, r),
    {
        self.open_subkey_with_flags(reg, path, KEY_ALL_ACCESS)
    }

    /// Opens a child key with the given rights. An empty path opens a
    /// fresh handle to this handle's own location.
    pub fn open_subkey_with_flags(&self, reg: &Registry, path: &str, perms: u32) -> (r: Result<
        RegKey,
        RegError,
    >)
        requires
            wf_registry(reg@),
        ensures
            open_outcome(self@, self@.tx, perms, path@, reg@, r),
    {
        self.open_impl(reg, path, perms, self.tx)
    }

    /// Opens a child key under the given transaction, with every right.
    pub fn open_subkey_transacted(&self, reg: &Registry, path: &str, t: &Transaction) -> (r:
        Result<RegKey, RegError>)
        requires
            wf_registry(reg@),
        ensures
            open_outcome(self@, Some(t@), KEY_ALL_ACCESS, path@, reg@, r),
    {
        self.open_subkey_transacted_with_flags(reg, path, t, KEY_ALL_ACCESS)
    }

    /// Opens a child key under the given transaction, with the given
    /// rights.
    pub fn open_subkey_transacted_with_flags(
        &self,
        reg: &Registry,
        path: &str,
        t: &Transaction,
        perms: u32,
    ) -> (r: Result<RegKey, RegError>)
        requires
            wf_registry(reg@),
        ensures
            open_outcome(self@, Some(t@), perms, path@, reg@, r),
    {
        self.open_impl(reg, path, perms, Some(t.id))
    }

    /// Shared open: looks the target up in the state the context sees.
    fn open_impl(&self, reg: &Registry, path: &str, perms: u32, tx: Option<u64>) -> (r: Result<
        RegKey,
        RegError,
    >)
        requires
            wf_registry(reg@),
        ensures
            open_outcome(self@, tx, perms, path@, reg@, r),
    {
        let st = match reg.state_ref(tx) {
            Ok(st) => st,
            Err(e) => {
                return Err(e);
            },
        };
        let target = self.target_segs(path);
        match st.find_key_idx(self.root, &target) {
            Some(_) => Ok(RegKey { root: self.root, segs: target, perms, tx }),
            None => Err(RegError::NotFound),
        }
    }

    /// Creates a child key, with every missing intermediate key, and
    /// opens it with every right; reports whether the terminal key is
    /// new. An existing key is simply opened.
    pub fn create_subkey(&self, reg: &mut Registry, path: &str) -> (r: Result<
        (RegKey, RegDisposition),
        RegError,
    >)
        requires
            wf_registry(old(reg)@),
        ensures
            create_outcome(self@, self@.tx, KEY_ALL_ACCESS, path@, old(reg)@, final(reg)@, r),
    {
        self.create_subkey_with_flags(reg, path, KEY_ALL_ACCESS)
    }

    /// Creates a child key, with every missing intermediate key, and
    /// opens it with the given rights.
    pub fn create_subkey_with_flags(&self, reg: &mut Registry, path: &str, perms: u32) -> (r:
        Result<(RegKey, RegDisposition), RegError>)
        requires
            wf_registry(old(reg)@),
        ensures
            create_outcome(self@, self@.tx, perms, path@, old(reg)@, final(reg)@, r),
    {
        self.create_impl(reg, path, perms, self.tx)
    }

    /// Creates a child key under the given transaction, with every
    /// right.
    pub fn create_subkey_transacted(&self, reg: &mut Registry, path: &str, t: &Transaction) -> (r:
        Result<(RegKey, RegDisposition), RegError>)
        requires
            wf_registry(old(reg)@),
        ensures
            create_outcome(self@, Some(t@), KEY_ALL_ACCESS, path@, old(reg)@, final(reg)@, r),
    {
        self.create_subkey_transacted_with_flags(reg, path, t, KEY_ALL_ACCESS)
    }

    /// Creates a child key under the given transaction, with the given
    /// rights.
    pub fn create_subkey_transacted_with_flags(
        &self,
        reg: &mut Registry,
        path: &str,
        t: &Transaction,
        perms: u32,
    ) -> (r: Result<(RegKey, RegDisposition), RegError>)
        requires
            wf_registry(old(reg)@),
        ensures
            create_outcome(self@, Some(t@), perms, path@, old(reg)@, final(reg)@, r),
    {
        self.create_impl(reg, path, perms, Some(t.id))
    }

    /// Shared create: ensures the target path in the state the context
    /// sees.
    fn create_impl(&self, reg: &mut Registry, path: &str, perms: u32, tx: Option<u64>) -> (r:
        Result<(RegKey, RegDisposition), RegError>)
        requires
            wf_registry(old(reg)@),
        ensures
            create_outcome(self@, tx, perms, path@, old(reg)@, final(reg)@, r),
    {
        if !reg.tx_live(tx) {
            return Err(RegError::OsError(ERROR_TRANSACTION_NOT_ACTIVE));
        }
        if self.perms & KEY_CREATE_SUB_KEY == 0 {
            return Err(RegError::OsError(ERROR_ACCESS_DENIED));
        }
        let target = self.target_segs(path);
        let ghost r_old = reg@;
        let st = reg.state_mut(tx);
        let ghost st0 = st@;
        match st.find_key_idx(self.root, &self.segs) {
            None => {
                proof {
                    lemma_updated_at_noop(r_old, reg@, tx, st0);
                }
                Err(RegError::NotFound)
            },
            Some(_) => {
                let existed = st.create_path(self.root, &target);
                let disp = if existed {
                    RegDisposition::REG_OPENED_EXISTING_KEY
                } else {
                    RegDisposition::REG_CREATED_NEW_KEY
                };
                proof {
                    lemma_updated_at(r_old, reg@, tx, with_path(st0, self@.root, target.deep_view()));
                }
                Ok((RegKey { root: self.root, segs: target, perms, tx }, disp))
            },
        }
    }

    /// Deletes a childless child key together with its values; a key
    /// that still has child keys is refused. An empty path deletes this
    /// handle's own key.
    pub fn delete_subkey(&self, reg: &mut Registry, path: &str) -> (r: Result<(), RegError>)
        requires
            wf_registry(old(reg)@),
        ensures
            delete_outcome(self@, self@.tx, path@, old(reg)@, final(reg)@, r),
    {
        self.delete_impl(reg, path, self.tx)
    }

    /// Deletes a childless child key addressed through an alternate
    /// registry view; the in-memory store has a single view, so this is
    /// the same operation as `delete_subkey`.
    pub fn delete_subkey_with_flags(&self, reg: &mut Registry, path: &str, _perms: u32) -> (r:
        Result<(), RegError>)
        requires
            wf_registry(old(reg)@),
        ensures
            delete_outcome(self@, self@.tx, path@, old(reg)@, final(reg)@, r),
    {
        self.delete_impl(reg, path, self.tx)
    }

    /// Deletes a childless child key under the given transaction.
    pub fn delete_subkey_transacted(&self, reg: &mut Registry, path: &str, t: &Transaction) -> (r:
        Result<(), RegError>)
        requires
            wf_registry(old(reg)@),
        ensures
            delete_outcome(self@, Some(t@), path@, old(reg)@, final(reg)@, r),
    {
        self.delete_impl(reg, path, Some(t.id))
    }

    /// Shared delete of a single childless key.
    fn delete_impl(&self, reg: &mut Registry, path: &str, tx: Option<u64>) -> (r: Result<
        (),
        RegError,
    >)
        requires
            wf_registry(old(reg)@),
        ensures
            delete_outcome(self@, tx, path@, old(reg)@, final(reg)@, r),
    {
        if !reg.tx_live(tx) {
            return Err(RegError::OsError(ERROR_TRANSACTION_NOT_ACTIVE));
        }
        let target = self.target_segs(path);
        if target.len() == 0 {
            proof {
                assert(loc_target(self@, path@).len() == 0);
            }
            return Err(RegError::OsError(ERROR_ACCESS_DENIED));
        }
        let ghost r_old = reg@;
        let st = reg.state_mut(tx);
        let ghost st0 = st@;
        let out = st.delete_key(self.root, &target);
        proof {
            match out {
                Ok(()) => {
                    lemma_updated_at(
                        r_old,
                        reg@,
                        tx,
                        without_key(st0, self@.root, target.deep_view()),
                    );
                },
                Err(_) => {
                    lemma_updated_at_noop(r_old, reg@, tx, st0);
                },
            }
        }
        out
    }

    /// Recursively deletes a child key, all its descendants and all
    /// their values, atomically from the caller's perspective. An empty
    /// path deletes this handle's own key and everything under it.
    pub fn delete_subkey_all(&self, reg: &mut Registry, path: &str) -> (r: Result<(), RegError>)
        requires
            wf_registry(old(reg)@),
        ensures
            delete_all_outcome(self@, self@.tx, path@, old(reg)@, final(reg)@, r),
    {
        if !reg.tx_live(self.tx) {
            return Err(RegError::OsError(ERROR_TRANSACTION_NOT_ACTIVE));
        }
        let target = self.target_segs(path);
        if target.len() == 0 {
            proof {
                assert(loc_target(self@, path@).len() == 0);
            }
            return Err(RegError::OsError(ERROR_ACCESS_DENIED));
        }
        let ghost r_old = reg@;
        let st = reg.state_mut(self.tx);
        let ghost st0 = st@;
        let out = st.delete_cone(self.root, &target);
        proof {
            match out {
                Ok(()) => {
                    lemma_updated_at(
                        r_old,
                        reg@,
                        self@.tx,
                        without_cone(st0, self@.root, target.deep_view()),
                    );
                },
                Err(_) => {
                    lemma_updated_at_noop(r_old, reg@, self@.tx, st0);
                },
            }
        }
        out
    }
}

/// Starting capacity of the value query protocol: one query is made with
/// this capacity, and on a buffer-too-small signal exactly one retry is
/// made with the reported required size.
pub const DEFAULT_VALUE_CAPACITY: usize = 2048;

/// What reading a raw value returns, for every input: with the context
/// live, the query right held, and the handle's key and the named value
/// present, the stored raw value; otherwise the error names the first
/// failed condition, in that order. The internal buffer-too-small signal
/// is always recovered by the single growth retry and never surfaces.
pub open spec fn get_raw_outcome(
    loc: KeyLocation,
    name: Seq<char>,
    reg: RegistryModel,
    r: Result<RegValue, RegError>,
) -> bool {
    match visible(reg, loc.tx) {
        None => r matches Err(e) && e == RegError::OsError(ERROR_TRANSACTION_NOT_ACTIVE),
        Some(st) => if loc.perms & KEY_QUERY_VALUE == 0 {
            r matches Err(e) && e == RegError::OsError(ERROR_ACCESS_DENIED)
        } else if !has_key(st, loc.root, loc.path) {
            r matches Err(e) && e == RegError::NotFound
        } else if !has_val(key_at(st, loc.root, loc.path).vals, name) {
            r matches Err(e) && e == RegError::NotFound
        } else {
            r matches Ok(v) && v@ == val_at(key_at(st, loc.root, loc.path).vals, name).val
        },
    }
}

/// What writing a raw value does and returns, for every input: with the
/// context live, the set right held and the handle's key present, the
/// named value is set in the context's state, replacing a value of the
/// same name and appending otherwise; else nothing changes and the error
/// names the first failed condition, in that order.
pub open spec fn set_raw_outcome(
    loc: KeyLocation,
    name: Seq<char>,
    v: RegValueView,
    r_old: RegistryModel,
    r_new: RegistryModel,
    r: Result<(), RegError>,
) -> bool {
    match visible(r_old, loc.tx) {
        None => r_new == r_old && (r matches Err(e) && e == RegError::OsError(
            ERROR_TRANSACTION_NOT_ACTIVE,
        )),
        Some(st) => if loc.perms & KEY_SET_VALUE == 0 {
            r_new == r_old && (r matches Err(e) && e == RegError::OsError(ERROR_ACCESS_DENIED))
        } else if !has_key(st, loc.root, loc.path) {
            r_new == r_old && (r matches Err(e) && e == RegError::NotFound)
        } else {
            &&& updated_at(r_old, r_new, loc.tx, with_value(st, loc.root, loc.path, name, v))
            &&& wf_registry(r_new)
            &&& r is Ok
        },
    }
}

/// What deleting a value does and returns, for every input: with the
/// context live, the set right held, and the handle's key and the named
/// value present, the value is removed from the context's state; else
/// nothing changes and the error names the first failed condition, in
/// that order.
pub open spec fn delete_value_outcome(
    loc: KeyLocation,
    name: Seq<char>,
    r_old: RegistryModel,
    r_new: RegistryModel,
    r: Result<(), RegError>,
) -> bool {
    match visible(r_old, loc.tx) {
        None => r_new == r_old && (r matches Err(e) && e == RegError::OsError(
            ERROR_TRANSACTION_NOT_ACTIVE,
        )),
        Some(st) => if loc.perms & KEY_SET_VALUE == 0 {
            r_new == r_old && (r matches Err(e) && e == RegError::OsError(ERROR_ACCESS_DENIED))
        } else if !has_key(st, loc.root, loc.path) || !has_val(
            key_at(st, loc.root, loc.path).vals,
            name,
        ) {
            r_new == r_old && (r matches Err(e) && e == RegError::NotFound)
        } else {
            &&& updated_at(r_old, r_new, loc.tx, without_value(st, loc.root, loc.path, name))
            &&& wf_registry(r_new)
            &&& r is Ok
        },
    }
}

impl RegKey {
    /// Reads the named value as raw tagged bytes, through the bounded
    /// buffer-growth protocol. An empty name addresses the key's default
    /// value, as everywhere in this interface.
    pub fn get_raw_value(&self, reg: &Registry, name: &str) -> (r: Result<RegValue, RegError>)
        requires
            wf_registry(reg@),
        ensures
            get_raw_outcome(self@, name@, reg@, r),
    {
        let st = match reg.state_ref(self.tx) {
            Ok(st) => st,
            Err(e) => {
                return Err(e);
            },
        };
        if self.perms & KEY_QUERY_VALUE == 0 {
            return Err(RegError::OsError(ERROR_ACCESS_DENIED));
        }
        match st.query_value(self.root, &self.segs, name, DEFAULT_VALUE_CAPACITY) {
            crate::store::ValueQuery::NoKey => Err(RegError::NotFound),
            crate::store::ValueQuery::NoValue => Err(RegError::NotFound),
            crate::store::ValueQuery::Found(v) => Ok(v),
            crate::store::ValueQuery::TooSmall(need) => {
                // One bounded retry with the reported required size; a
                // second shortfall would mean the store misreported the
                // size, which its contract rules out.
                match st.query_value(self.root, &self.segs, name, need) {
                    crate::store::ValueQuery::Found(v) => Ok(v),
                    _ => {
                        proof {
                            assert(false);
                        }
                        Err(RegError::Malformed)
                    },
                }
            },
        }
    }

    /// Reads the named value and decodes it as the requested type. An
    /// empty name addresses the key's default value.
    pub fn get_value<T: FromRegValue>(&self, reg: &Registry, name: &str) -> (r: Result<
        T,
        RegError,
    >)
        requires
            wf_registry(reg@),
        ensures
            match visible(reg@, self@.tx) {
                None => r matches Err(e) && e == RegError::OsError(ERROR_TRANSACTION_NOT_ACTIVE),
                Some(st) => if self@.perms & KEY_QUERY_VALUE == 0 {
                    r matches Err(e) && e == RegError::OsError(ERROR_ACCESS_DENIED)
                } else if !has_key(st, self@.root, self@.path) {
                    r matches Err(e) && e == RegError::NotFound
                } else if !has_val(key_at(st, self@.root, self@.path).vals, name@) {
                    r matches Err(e) && e == RegError::NotFound
                } else {
                    let stored = val_at(key_at(st, self@.root, self@.path).vals, name@).val;
                    if T::decode_ok(stored) {
                        r matches Ok(x) && x.deep_view() == T::decoded(stored)
                    } else {
                        r matches Err(e) && e == T::decode_err(stored)
                    }
                },
            },
    {
        match self.get_raw_value(reg, name) {
            Ok(ref v) => T::from_reg_value(v),
            Err(e) => Err(e),
        }
    }

    /// Writes a raw tagged value under the given name. An empty name
    /// addresses the key's default value.
    pub fn set_raw_value(&self, reg: &mut Registry, name: &str, value: &RegValue) -> (r: Result<
        (),
        RegError,
    >)
        requires
            wf_registry(old(reg)@),
        ensures
            set_raw_outcome(self@, name@, value@, old(reg)@, final(reg)@, r),
    {
        if !reg.tx_live(self.tx) {
            return Err(RegError::OsError(ERROR_TRANSACTION_NOT_ACTIVE));
        }
        if self.perms & KEY_SET_VALUE == 0 {
            return Err(RegError::OsError(ERROR_ACCESS_DENIED));
        }
        let ghost r_old = reg@;
        let st = reg.state_mut(self.tx);
        let ghost st0 = st@;
        let out = st.set_value(self.root, &self.segs, name, value);
        proof {
            match out {
                Ok(()) => {
                    lemma_updated_at(
                        r_old,
                        reg@,
                        self@.tx,
                        with_value(st0, self@.root, self@.path, name@, value@),
                    );
                },
                Err(_) => {
                    lemma_updated_at_noop(r_old, reg@, self@.tx, st0);
                },
            }
        }
        out
    }

    /// Encodes a native value and writes it under the given name. An
    /// empty name addresses the key's default value.
    pub fn set_value<T: ToRegValue>(&self, reg: &mut Registry, name: &str, value: &T) -> (r:
        Result<(), RegError>)
        requires
            wf_registry(old(reg)@),
        ensures
            set_raw_outcome(self@, name@, value.encoded(), old(reg)@, final(reg)@, r),
    {
        let raw = value.to_reg_value();
        self.set_raw_value(reg, name, &raw)
    }

    /// Deletes the named value. An empty name addresses the key's
    /// default value.
    pub fn delete_value(&self, reg: &mut Registry, name: &str) -> (r: Result<(), RegError>)
        requires
            wf_registry(old(reg)@),
        ensures
            delete_value_outcome(self@, name@, old(reg)@, final(reg)@, r),
    {
        if !reg.tx_live(self.tx) {
            return Err(RegError::OsError(ERROR_TRANSACTION_NOT_ACTIVE));
        }
        if self.perms & KEY_SET_VALUE == 0 {
            return Err(RegError::OsError(ERROR_ACCESS_DENIED));
        }
        let ghost r_old = reg@;
        let st = reg.state_mut(self.tx);
        let ghost st0 = st@;
        let out = st.delete_value(self.root, &self.segs, name);
        proof {
            match out {
                Ok(()) => {
                    lemma_updated_at(
                        r_old,
                        reg@,
                        self@.tx,
                        without_value(st0, self@.root, self@.path, name@),
                    );
                },
                Err(_) => {
                    lemma_updated_at_noop(r_old, reg@, self@.tx, st0);
                },
            }
        }
        out
    }
}

/// Snapshot of a key's structural statistics.
#[derive(Debug, Default)]
pub struct RegKeyMetadata {
    pub sub_keys: usize,
    pub max_sub_key_len: usize,
    pub max_class_len: usize,
    pub values: usize,
    pub max_value_name_len: usize,
    pub max_value_len: usize,
}

impl RegKey {
    /// A read-only snapshot of the key's structural statistics: child
    /// count, longest child name, value count, longest value name and
    /// largest value payload, name lengths counted in characters. This
    /// store keeps no class names, so the class length is always zero.
    pub fn query_info(&self, reg: &Registry) -> (r: Result<RegKeyMetadata, RegError>)
        requires
            wf_registry(reg@),
        ensures
            match visible(reg@, self@.tx) {
                None => r matches Err(e) && e == RegError::OsError(ERROR_TRANSACTION_NOT_ACTIVE),
                Some(st) => if self@.perms & KEY_QUERY_VALUE == 0 {
                    r matches Err(e) && e == RegError::OsError(ERROR_ACCESS_DENIED)
                } else if !has_key(st, self@.root, self@.path) {
                    r matches Err(e) && e == RegError::NotFound
                } else {
                    r matches Ok(md) && ({
                        &&& md.sub_keys == children(st, self@.root, self@.path).len()
                        &&& md.max_sub_key_len == crate::store::max_nat(
                            crate::store::child_name_lens(st, self@.root, self@.path),
                        )
                        &&& md.max_class_len == 0
                        &&& md.values == key_at(st, self@.root, self@.path).vals.len()
                        &&& md.max_value_name_len == crate::store::max_nat(
                            crate::store::val_name_lens(key_at(st, self@.root, self@.path).vals),
                        )
                        &&& md.max_value_len == crate::store::max_nat(
                            crate::store::val_data_lens(key_at(st, self@.root, self@.path).vals),
                        )
                    })
                },
            },
    {
        let st = match reg.state_ref(self.tx) {
            Ok(st) => st,
            Err(e) => {
                return Err(e);
            },
        };
        if self.perms & KEY_QUERY_VALUE == 0 {
            return Err(RegError::OsError(ERROR_ACCESS_DENIED));
        }
        match st.stats(self.root, &self.segs) {
            None => Err(RegError::NotFound),
            Some(t) => Ok(
                RegKeyMetadata {
                    sub_keys: t.0,
                    max_sub_key_len: t.1,
                    max_class_len: 0,
                    values: t.2,
                    max_value_name_len: t.3,
                    max_value_len: t.4,
                },
            ),
        }
    }

    /// A cursor over the names of this key's child keys, starting at the
    /// first.
    pub fn enum_keys<'a>(&'a self) -> (c: EnumKeys<'a>)
        ensures
            c.key == self,
            c.index == 0,
            !c.done,
    {
        EnumKeys { key: self, index: 0, done: false }
    }

    /// A cursor over this key's values, starting at the first.
    pub fn enum_values<'a>(&'a self) -> (c: EnumValues<'a>)
        ensures
            c.key == self,
            c.index == 0,
            !c.done,
    {
        EnumValues { key: self, index: 0, done: false }
    }
}

/// Cursor over the names of a key's child keys: a borrowed handle and a
/// position. Advancing queries the live state at the position; once
/// exhausted the cursor stays exhausted without consulting the store
/// again.
pub struct EnumKeys<'key> {
    pub key: &'key RegKey,
    pub index: usize,
    pub done: bool,
}

impl<'key> EnumKeys<'key> {
    /// Advances the cursor: the child name at the current position in
    /// the store's enumeration order, `None` on exhaustion (and on every
    /// call thereafter), and an error, position unchanged, when the
    /// state cannot be read. Enumerating needs the enumerate right.
    pub fn next(&mut self, reg: &Registry) -> (r: Option<Result<String, RegError>>)
        requires
            wf_registry(reg@),
        ensures
            final(self).key == old(self).key,
            old(self).done ==> r is None && *final(self) == *old(self),
            !old(self).done ==> match visible(reg@, old(self).key@.tx) {
                None => r matches Some(x) && (x matches Err(e) && e == RegError::OsError(
                    ERROR_TRANSACTION_NOT_ACTIVE,
                )) && *final(self) == *old(self),
                Some(st) => if old(self).key@.perms & KEY_ENUMERATE_SUB_KEYS == 0 {
                    r matches Some(x) && (x matches Err(e) && e == RegError::OsError(
                        ERROR_ACCESS_DENIED,
                    )) && *final(self) == *old(self)
                } else if !has_key(st, old(self).key@.root, old(self).key@.path) {
                    r matches Some(x) && (x matches Err(e) && e == RegError::NotFound) && *final(self) == *old(self)
                } else {
                    let c = children(st, old(self).key@.root, old(self).key@.path);
                    if old(self).index < c.len() {
                        r matches Some(x) && (x matches Ok(nm) && nm@ == c[
                            old(self).index as int
                        ].path.last()) && final(self).index == old(self).index + 1 && !final(self).done
                    } else {
                        r is None && final(self).done && final(self).index == old(self).index
                    }
                },
            },
    {
        if self.done {
            return None;
        }
        let st = match reg.state_ref(self.key.tx) {
            Ok(st) => st,
            Err(e) => {
                return Some(Err(e));
            },
        };
        if self.key.perms & KEY_ENUMERATE_SUB_KEYS == 0 {
            return Some(Err(RegError::OsError(ERROR_ACCESS_DENIED)));
        }
        match st.find_key_idx(self.key.root, &self.key.segs) {
            None => Some(Err(RegError::NotFound)),
            Some(_) => {
                match st.nth_child(self.key.root, &self.key.segs, self.index) {
                    Some(nm) => {
                        proof {
                            vstd::std_specs::vec::axiom_spec_len(&st.keys);
                            assert(st@.len() == st.keys@.len());
                        }
                        self.index = self.index + 1;
                        Some(Ok(nm))
                    },
                    None => {
                        self.done = true;
                        None
                    },
                }
            },
        }
    }
}

/// Cursor over a key's values: a borrowed handle and a position.
/// Advancing queries the live state at the position through the bounded
/// buffer-growth protocol; once exhausted the cursor stays exhausted
/// without consulting the store again.
pub struct EnumValues<'key> {
    pub key: &'key RegKey,
    pub index: usize,
    pub done: bool,
}

impl<'key> EnumValues<'key> {
    /// Advances the cursor: the name and value at the current position,
    /// `None` on exhaustion (and on every call thereafter), and an
    /// error, position unchanged, when the state cannot be read.
    /// Enumerating values needs the query right.
    pub fn next(&mut self, reg: &Registry) -> (r: Option<Result<(String, RegValue), RegError>>)
        requires
            wf_registry(reg@),
        ensures
            final(self).key == old(self).key,
            old(self).done ==> r is None && *final(self) == *old(self),
            !old(self).done ==> match visible(reg@, old(self).key@.tx) {
                None => r matches Some(x) && (x matches Err(e) && e == RegError::OsError(
                    ERROR_TRANSACTION_NOT_ACTIVE,
                )) && *final(self) == *old(self),
                Some(st) => if old(self).key@.perms & KEY_QUERY_VALUE == 0 {
                    r matches Some(x) && (x matches Err(e) && e == RegError::OsError(
                        ERROR_ACCESS_DENIED,
                    )) && *final(self) == *old(self)
                } else if !has_key(st, old(self).key@.root, old(self).key@.path) {
                    r matches Some(x) && (x matches Err(e) && e == RegError::NotFound) && *final(self) == *old(self)
                } else {
                    let vals = key_at(st, old(self).key@.root, old(self).key@.path).vals;
                    if old(self).index < vals.len() {
                        r matches Some(x) && (x matches Ok(p) && p.0@ == vals[
                            old(self).index as int
                        ].name && p.1@ == vals[old(self).index as int].val) && final(self).index
                            == old(self).index + 1 && !final(self).done
                    } else {
                        r is None && final(self).done && final(self).index == old(self).index
                    }
                },
            },
    {
        if self.done {
            return None;
        }
        let st = match reg.state_ref(self.key.tx) {
            Ok(st) => st,
            Err(e) => {
                return Some(Err(e));
            },
        };
        if self.key.perms & KEY_QUERY_VALUE == 0 {
            return Some(Err(RegError::OsError(ERROR_ACCESS_DENIED)));
        }
        match st.nth_value(self.key.root, &self.key.segs, self.index, DEFAULT_VALUE_CAPACITY) {
            crate::store::ValueEnumQuery::NoKey => Some(Err(RegError::NotFound)),
            crate::store::ValueEnumQuery::End => {
                self.done = true;
                None
            },
            crate::store::ValueEnumQuery::Entry(nm, v) => {
                        proof {
                            let ki = crate::store::key_index(
                                st@,
                                self.key@.root,
                                self.key@.path,
                            );
                            assert(0 <= ki < st@.len() && crate::store::key_is(
                                st@[ki],
                                self.key@.root,
                                self.key@.path,
                            ));
                            assert(st@[ki] == st.keys@[ki]@);
                            assert(st@[ki].vals.len() == st.keys@[ki].vals@.len());
                            vstd::std_specs::vec::axiom_spec_len(&st.keys@[ki].vals);
                        }
                self.index = self.index + 1;
                Some(Ok((nm, v)))
            },
            crate::store::ValueEnumQuery::TooSmall(need) => {
                // One bounded retry with the reported required size; a
                // second shortfall is ruled out by the store's contract.
                match st.nth_value(self.key.root, &self.key.segs, self.index, need) {
                    crate::store::ValueEnumQuery::Entry(nm, v) => {
                        proof {
                            let ki = crate::store::key_index(
                                st@,
                                self.key@.root,
                                self.key@.path,
                            );
                            assert(0 <= ki < st@.len() && crate::store::key_is(
                                st@[ki],
                                self.key@.root,
                                self.key@.path,
                            ));
                            assert(st@[ki] == st.keys@[ki]@);
                            assert(st@[ki].vals.len() == st.keys@[ki].vals@.len());
                            vstd::std_specs::vec::axiom_spec_len(&st.keys@[ki].vals);
                        }
                        self.index = self.index + 1;
                        Some(Ok((nm, v)))
                    },
                    _ => {
                        proof {
                            assert(false);
                        }
                        Some(Err(RegError::Malformed))
                    },
                }
            },
        }
    }
}

/// What copying a subtree does and returns, for every input: with both
/// contexts live, the read rights held on the source handle and the
/// write rights on the destination handle, the source subtree present
/// and the destination key present, every key of the source subtree is
/// re-created under the destination with its values, key by key and
/// value by value, in the destination's context; otherwise nothing
/// changes and the error names the first failed condition, in that
/// order. The copy is not atomic by design: it proceeds key by key, and
/// a destination key that already exists keeps values the source does
/// not override.
pub open spec fn copy_tree_outcome(
    loc: KeyLocation,
    path: Seq<char>,
    dloc: KeyLocation,
    r_old: RegistryModel,
    r_new: RegistryModel,
    r: Result<(), RegError>,
) -> bool {
    match visible(r_old, loc.tx) {
        None => r_new == r_old && (r matches Err(e) && e == RegError::OsError(
            ERROR_TRANSACTION_NOT_ACTIVE,
        )),
        Some(src_st) => if loc.perms & KEY_QUERY_VALUE == 0 || loc.perms & KEY_ENUMERATE_SUB_KEYS
            == 0 {
            r_new == r_old && (r matches Err(e) && e == RegError::OsError(ERROR_ACCESS_DENIED))
        } else {
            let stgt = loc_target(loc, path);
            if !has_key(src_st, loc.root, stgt) {
                r_new == r_old && (r matches Err(e) && e == RegError::NotFound)
            } else {
                match visible(r_old, dloc.tx) {
                    None => r_new == r_old && (r matches Err(e) && e == RegError::OsError(
                        ERROR_TRANSACTION_NOT_ACTIVE,
                    )),
                    Some(dst_st) => if dloc.perms & KEY_CREATE_SUB_KEY == 0 || dloc.perms
                        & KEY_SET_VALUE == 0 {
                        r_new == r_old && (r matches Err(e) && e == RegError::OsError(
                            ERROR_ACCESS_DENIED,
                        ))
                    } else if !has_key(dst_st, dloc.root, dloc.path) {
                        r_new == r_old && (r matches Err(e) && e == RegError::NotFound)
                    } else {
                        &&& updated_at(
                            r_old,
                            r_new,
                            dloc.tx,
                            crate::store::copy_entries(
                                dst_st,
                                dloc.root,
                                dloc.path,
                                stgt.len() as int,
                                crate::store::cone(src_st, loc.root, stgt),
                            ),
                        )
                        &&& wf_registry(r_new)
                        &&& r is Ok
                    },
                }
            }
        },
    }
}

impl RegKey {
    /// Recursively copies the subtree at a child path of this handle
    /// into the destination key: every descendant key is created under
    /// the destination and every value is written, key by key. The copy
    /// is not atomic: it proceeds key by key and value by value, and
    /// values the destination already held under other names remain.
    pub fn copy_tree(&self, reg: &mut Registry, path: &str, dest: &RegKey) -> (r: Result<
        (),
        RegError,
    >)
        requires
            wf_registry(old(reg)@),
        ensures
            copy_tree_outcome(self@, path@, dest@, old(reg)@, final(reg)@, r),
    {
        let ghost r_old0 = reg@;
        let snap: crate::store::RegState;
        let stgt: Vec<String>;
        {
            let st1 = match reg.state_ref(self.tx) {
                Ok(st) => st,
                Err(e) => {
                    return Err(e);
                },
            };
            if self.perms & KEY_QUERY_VALUE == 0 || self.perms & KEY_ENUMERATE_SUB_KEYS == 0 {
                return Err(RegError::OsError(ERROR_ACCESS_DENIED));
            }
            stgt = self.target_segs(path);
            match st1.find_key_idx(self.root, &stgt) {
                None => {
                    return Err(RegError::NotFound);
                },
                Some(_) => {},
            }
            snap = st1.snapshot();
        }
        let ghost src_m = snap@;
        let ghost sv = stgt.deep_view();
        let ghost srclen = sv.len() as int;
        let ghost in_cone_pred = |k: KeyModel| crate::store::in_cone(k, self@.root, sv);
        if !reg.tx_live(dest.tx) {
            return Err(RegError::OsError(ERROR_TRANSACTION_NOT_ACTIVE));
        }
        if dest.perms & KEY_CREATE_SUB_KEY == 0 || dest.perms & KEY_SET_VALUE == 0 {
            return Err(RegError::OsError(ERROR_ACCESS_DENIED));
        }
        let ghost r_old = reg@;
        let st2 = reg.state_mut(dest.tx);
        let ghost dst0 = st2@;
        match st2.find_key_idx(dest.root, &dest.segs) {
            None => {
                proof {
                    lemma_updated_at_noop(r_old, reg@, dest@.tx, dst0);
                }
                return Err(RegError::NotFound);
            },
            Some(_) => {},
        }
        let n = snap.keys.len();
        let mut p: usize = 0;
        proof {
            assert(src_m.take(0).filter(in_cone_pred) =~= Seq::<KeyModel>::empty()) by {
                reveal(Seq::filter);
            }
            assert(crate::store::copy_entries(
                dst0,
                dest@.root,
                dest@.path,
                srclen,
                Seq::<KeyModel>::empty(),
            ) == dst0);
        }
        while p < n
            invariant
                p <= n,
                n == snap.keys@.len(),
                src_m == snap@,
                sv == stgt.deep_view(),
                srclen == sv.len() as int,
                in_cone_pred == (|k: KeyModel| crate::store::in_cone(k, self@.root, sv)),
                wf_state(st2@),
                st2@ == crate::store::copy_entries(
                    dst0,
                    dest@.root,
                    dest@.path,
                    srclen,
                    src_m.take(p as int).filter(in_cone_pred),
                ),
            decreases n - p,
        {
            let hit = crate::store::key_entry_in_cone(&snap.keys[p], self.root, &stgt);
            proof {
                crate::store::lemma_filter_take_step(src_m, in_cone_pred, p as int);
                assert(src_m[p as int] == snap.keys@[p as int]@);
            }
            if hit {
                let entry = &snap.keys[p];
                // Re-root the source key's path under the destination.
                let mut dtgt = clone_segs(&dest.segs);
                let mut q: usize = stgt.len();
                proof {
                    assert(crate::store::in_cone(src_m[p as int], self@.root, sv));
                    assert(entry.segs@.len() >= stgt@.len());
                    assert(dtgt.deep_view() =~= dest@.path + src_m[p as int].path.skip(srclen).take(
                        0,
                    ));
                }
                while q < entry.segs.len()
                    invariant
                        stgt@.len() <= q <= entry.segs@.len(),
                        srclen == stgt@.len() as int,
                        src_m[p as int].path == entry.segs.deep_view(),
                        p < src_m.len(),
                        dtgt.deep_view() == dest@.path + src_m[p as int].path.skip(srclen).take(
                            q - srclen,
                        ),
                    decreases entry.segs@.len() - q,
                {
                    let ghost dprev = dtgt.deep_view();
                    dtgt.push(crate::store::clone_string(&entry.segs[q]));
                    proof {
                        let ghost x = entry.segs.deep_view()[q as int];
                        assert(dtgt@.last()@ == entry.segs@[q as int]@);
                        assert(x == entry.segs@[q as int]@);
                        assert(dtgt.deep_view() =~~= dprev.push(x));
                        let sk = src_m[p as int].path.skip(srclen);
                        assert(sk[q - srclen] == src_m[p as int].path[q as int]);
                        assert(src_m[p as int].path[q as int] == x);
                        assert(sk.take(q + 1 - srclen) =~= sk.take(q - srclen).push(x));
                        assert(dprev.push(x) =~= dest@.path + sk.take(q - srclen).push(x));
                        assert(dtgt.deep_view() =~= dest@.path + sk.take(q + 1 - srclen));
                    }
                    q = q + 1;
                }
                proof {
                    assert(src_m[p as int].path.skip(srclen).take(
                        src_m[p as int].path.skip(srclen).len() as int,
                    ) =~= src_m[p as int].path.skip(srclen));
                }
                let ghost tgtv = dest@.path + src_m[p as int].path.skip(srclen);
                let ghost before = st2@;
                st2.create_path(dest.root, &dtgt);
                let ghost created = st2@;
                proof {
                    assert(created == crate::store::with_path(before, dest@.root, tgtv));
                }
                // Write the source key's values, in order.
                let ghost vmodel = src_m[p as int].vals;
                let nv = entry.vals.len();
                let mut j: usize = 0;
                proof {
                    assert(vmodel.skip(0) =~= vmodel);
                }
                while j < nv
                    invariant
                        j <= nv,
                        nv == entry.vals@.len(),
                        p < src_m.len(),
                        src_m == snap@,
                        vmodel == src_m[p as int].vals,
                        src_m[p as int] == snap.keys@[p as int]@,
                        entry == &snap.keys[p as int],
                        tgtv == dtgt.deep_view(),
                        wf_state(st2@),
                        has_key(st2@, dest@.root, tgtv),
                        crate::store::copy_key_vals(created, dest@.root, tgtv, vmodel)
                            == crate::store::copy_key_vals(st2@, dest@.root, tgtv, vmodel.skip(
                            j as int,
                        )),
                    decreases nv - j,
                {
                    let ve = &entry.vals[j];
                    proof {
                        assert(vmodel[j as int] == entry.vals@[j as int]@);
                        assert(vmodel.skip(j as int)[0] == vmodel[j as int]);
                        assert(vmodel.skip(j as int).drop_first() =~= vmodel.skip(j + 1));
                    }
                    let out = st2.set_value(dest.root, &dtgt, ve.name.as_str(), &ve.data);
                    proof {
                        match out {
                            Ok(()) => {},
                            Err(_) => {
                                assert(false);
                            },
                        }
                    }
                    j = j + 1;
                }
                proof {
                    assert(vmodel.skip(nv as int) =~= Seq::<crate::store::ValueModel>::empty());
                    assert(crate::store::copy_key_vals(
                        st2@,
                        dest@.root,
                        tgtv,
                        Seq::<crate::store::ValueModel>::empty(),
                    ) == st2@);
                    crate::store::lemma_copy_entries_push(
                        dst0,
                        dest@.root,
                        dest@.path,
                        srclen,
                        src_m.take(p as int).filter(in_cone_pred),
                        src_m[p as int],
                    );
                }
            }
            p = p + 1;
        }
        proof {
            assert(src_m.take(n as int) =~= src_m);
            lemma_updated_at(
                r_old,
                reg@,
                dest@.tx,
                crate::store::copy_entries(
                    dst0,
                    dest@.root,
                    dest@.path,
                    srclen,
                    crate::store::cone(src_m, self@.root, sv),
                ),
            );
            assert(r_old == r_old0);
        }
        Ok(())
    }
}

} // verus!
