//! Stable parameter metadata: permanent numeric ids, unique text keys, and a
//! registry that refuses a descriptor whose key is blank, whose range the
//! host judged invalid, or whose id or key is already taken.
//!
//! A descriptor's numeric range (minimum, maximum, default) is floating
//! point; the host judges it and hands the verdict in as a `RangeCheck`.

use vstd::prelude::*;
use crate::text::{chars_of, is_whitespace, is_ws, same_text};

verus! {

/// A permanent numeric parameter identifier. Released ids are never reused.
#[derive(Debug, Clone, Copy, PartialEq, Eq, PartialOrd, Ord, Hash, Structural)]
pub struct ParamId(pub u32);

#[derive(Debug, Clone, Copy, PartialEq, Eq, Structural)]
pub enum ParamUnit {
    Normalized,
    Hertz,
    Decibels,
    Seconds,
    Semitones,
    Percent,
    Voices,
}

/// How fast a parameter's audible value follows a change. `Unsmoothed`
/// jumps at once.
#[derive(Debug, Clone, Copy, PartialEq, Eq, Structural)]
pub enum SmoothingClass {
    Unsmoothed,
    Fast,
    Musical,
    Slow,
}

/// The registry's part of a parameter descriptor.
#[derive(Debug, Clone)]
pub struct ParamInfo {
    pub id: ParamId,
    pub key: String,
    pub name: String,
    pub unit: ParamUnit,
    pub smoothing: SmoothingClass,
}

/// The host's verdict on a descriptor's minimum, maximum and default.
#[derive(Debug, Clone, Copy, PartialEq, Eq, Structural)]
pub enum RangeCheck {
    /// All finite, minimum below maximum, default between them.
    Valid,
    /// A bound or the default is not finite, or minimum >= maximum.
    InvalidRange,
    /// The default lies outside a valid range.
    DefaultOutOfRange,
}

#[derive(Debug, Clone, PartialEq, Eq)]
pub enum ParamError {
    EmptyKey(ParamId),
    InvalidRange(ParamId),
    DefaultOutOfRange(ParamId),
    DuplicateId(ParamId),
    DuplicateKey(String),
}

/// The key is empty or only whitespace (`key.trim().is_empty()`).
pub open spec fn is_blank(s: Seq<char>) -> bool {
    forall|i: int| 0 <= i < s.len() ==> is_ws(#[trigger] s[i])
}

fn blank(s: &str) -> (b: bool)
    ensures
        b == is_blank(s@),
{
    let v = chars_of(s);
    let mut i: usize = 0;
    while i < v.len()
        invariant
            i <= v@.len(),
            v@ == s@,
            forall|k: int| 0 <= k < i ==> is_ws(#[trigger] v@[k]),
        decreases v@.len() - i,
    {
        if !is_whitespace(v[i]) {
            return false;
        }
        i = i + 1;
    }
    true
}

/// Why a descriptor alone is refused, checked in this order.
pub open spec fn descriptor_error(info: ParamInfo, range: RangeCheck) -> Option<ParamError> {
    if is_blank(info.key@) {
        Some(ParamError::EmptyKey(info.id))
    } else if range == RangeCheck::InvalidRange {
        Some(ParamError::InvalidRange(info.id))
    } else if range == RangeCheck::DefaultOutOfRange {
        Some(ParamError::DefaultOutOfRange(info.id))
    } else {
        None
    }
}

/// Checks a descriptor on its own.
pub fn validate(info: &ParamInfo, range: RangeCheck) -> (r: Result<(), ParamError>)
    ensures
        match descriptor_error(*info, range) {
            None => r is Ok,
            Some(e) => r matches Err(x) && same_error(x, e),
        },
{
    if blank(info.key.as_str()) {
        return Err(ParamError::EmptyKey(info.id));
    }
    match range {
        RangeCheck::InvalidRange => Err(ParamError::InvalidRange(info.id)),
        RangeCheck::DefaultOutOfRange => Err(ParamError::DefaultOutOfRange(info.id)),
        RangeCheck::Valid => Ok(()),
    }
}

/// Errors compared by their contents (a key by its text).
pub open spec fn same_error(a: ParamError, b: ParamError) -> bool {
    match (a, b) {
        (ParamError::DuplicateKey(x), ParamError::DuplicateKey(y)) => x@ == y@,
        _ => a == b,
    }
}

/// Registered parameters, ordered by id.
#[derive(Debug, Clone)]
pub struct ParamRegistry {
    entries: Vec<ParamInfo>,
}

/// What the registry holds: ids strictly increasing, keys distinct.
pub open spec fn entries_wf(e: Seq<ParamInfo>) -> bool {
    &&& forall|i: int, j: int| 0 <= i < j < e.len() ==> e[i].id.0 < e[j].id.0
    &&& forall|i: int, j: int| 0 <= i < e.len() && 0 <= j < e.len() && i != j ==> e[i].key@ != e[j].key@
}

pub open spec fn has_id(e: Seq<ParamInfo>, id: ParamId) -> bool {
    exists|i: int| 0 <= i < e.len() && e[i].id == id
}

pub open spec fn has_key(e: Seq<ParamInfo>, key: Seq<char>) -> bool {
    exists|i: int| 0 <= i < e.len() && e[i].key@ == key
}

/// `after` is `before` with `info` placed at position `k`.
pub open spec fn inserted_at(before: Seq<ParamInfo>, info: ParamInfo, k: int, after: Seq<ParamInfo>) -> bool {
    &&& 0 <= k <= before.len()
    &&& after == before.insert(k, info)
}

impl ParamRegistry {
    pub closed spec fn view_entries(&self) -> Seq<ParamInfo> {
        self.entries@
    }

    pub open spec fn wf(&self) -> bool {
        entries_wf(self.view_entries())
    }

    /// An empty registry.
    pub fn new() -> (r: Self)
        ensures
            r.wf(),
            r.view_entries().len() == 0,
    {
        ParamRegistry { entries: Vec::new() }
    }

    /// Adds a descriptor. It is refused, in this order, for a blank key, a
    /// range the host judged invalid, an id already registered, or a key
    /// already registered; otherwise it takes its place in id order.
    pub fn register(&mut self, info: ParamInfo, range: RangeCheck) -> (r: Result<(), ParamError>)
        requires
            old(self).wf(),
        ensures
            final(self).wf(),
            match descriptor_error(info, range) {
                Some(e) => r matches Err(x) && same_error(x, e) && final(self).view_entries()
                    == old(self).view_entries(),
                None => if has_id(old(self).view_entries(), info.id) {
                    r == Err::<(), ParamError>(ParamError::DuplicateId(info.id))
                        && final(self).view_entries() == old(self).view_entries()
                } else if has_key(old(self).view_entries(), info.key@) {
                    r matches Err(ParamError::DuplicateKey(k)) && k@ == info.key@
                        && final(self).view_entries() == old(self).view_entries()
                } else {
                    r is Ok && exists|k: int|
                        inserted_at(old(self).view_entries(), info, k, final(self).view_entries())
                },
            },
    {
        match validate(&info, range) {
            Ok(()) => {},
            Err(e) => {
                return Err(e);
            },
        }
        let mut pos: usize = 0;
        let n = self.entries.len();
        while pos < n && self.entries[pos].id.0 < info.id.0
            invariant
                pos <= n,
                n == self.entries@.len(),
                self.entries@ == old(self).entries@,
                entries_wf(self.entries@),
                descriptor_error(info, range) is None,
                forall|i: int| 0 <= i < pos ==> self.entries@[i].id.0 < info.id.0,
            decreases n - pos,
        {
            pos = pos + 1;
        }
        proof {
            assert forall|i: int| pos <= i < n implies self.entries@[i].id.0 >= info.id.0 by {
                if pos < n {
                    assert(self.entries@[pos as int].id.0 >= info.id.0);
                }
            }
        }
        if pos < n && self.entries[pos].id.0 == info.id.0 {
            return Err(ParamError::DuplicateId(info.id));
        }
        proof {
            assert forall|i: int| 0 <= i < n implies self.entries@[i].id != info.id by {
                if i > pos {
                    assert(self.entries@[pos as int].id.0 < self.entries@[i].id.0);
                }
            }
        }
        let mut j: usize = 0;
        while j < n
            invariant
                j <= n,
                n == self.entries@.len(),
                self.entries@ == old(self).entries@,
                entries_wf(self.entries@),
                descriptor_error(info, range) is None,
                forall|i: int| 0 <= i < n ==> self.entries@[i].id != info.id,
                forall|i: int| 0 <= i < j ==> self.entries@[i].key@ != info.key@,
            decreases n - j,
        {
            if self.entries[j].key == info.key {
                proof {
                    assert(self.entries@[j as int].key@ == info.key@);
                    assert(!has_id(old(self).view_entries(), info.id));
                }
                let key = info.key;
                return Err(ParamError::DuplicateKey(key));
            }
            j = j + 1;
        }
        let ghost before = self.entries@;
        self.entries.insert(pos, info);
        proof {
            let after = self.entries@;
            assert(after == before.insert(pos as int, info));
            assert forall|a: int, b: int| 0 <= a < b < after.len() implies after[a].id.0 < after[b].id.0 by {
                if b < pos {
                } else if b == pos {
                } else if a < pos {
                    assert(after[b] == before[b - 1]);
                } else if a == pos {
                    assert(after[b] == before[b - 1]);
                } else {
                    assert(after[a] == before[a - 1]);
                    assert(after[b] == before[b - 1]);
                }
            }
            assert forall|a: int, b: int|
                0 <= a < after.len() && 0 <= b < after.len() && a != b implies after[a].key@
                != after[b].key@ by {
                if a != pos && b != pos {
                    let a0 = if a < pos { a } else { a - 1 };
                    let b0 = if b < pos { b } else { b - 1 };
                    assert(after[a] == before[a0]);
                    assert(after[b] == before[b0]);
                } else if a == pos {
                    let b0 = if b < pos { b } else { b - 1 };
                    assert(after[b] == before[b0]);
                } else {
                    let a0 = if a < pos { a } else { a - 1 };
                    assert(after[a] == before[a0]);
                }
            }
            assert(inserted_at(before, info, pos as int, after));
        }
        Ok(())
    }

    /// The descriptor registered under `id`.
    pub fn get(&self, id: ParamId) -> (r: Option<&ParamInfo>)
        ensures
            match r {
                Some(p) => p.id == id && exists|i: int| 0 <= i < self.view_entries().len()
                    && self.view_entries()[i] == *p,
                None => !has_id(self.view_entries(), id),
            },
    {
        let mut i: usize = 0;
        while i < self.entries.len()
            invariant
                i <= self.entries@.len(),
                forall|k: int| 0 <= k < i ==> self.entries@[k].id != id,
            decreases self.entries@.len() - i,
        {
            if self.entries[i].id.0 == id.0 {
                proof {
                    assert(self.view_entries()[i as int] == self.entries[i as int]);
                }
                return Some(&self.entries[i]);
            }
            i = i + 1;
        }
        None
    }

    /// The descriptor registered under `key`.
    pub fn by_key(&self, key: &str) -> (r: Option<&ParamInfo>)
        ensures
            match r {
                Some(p) => p.key@ == key@ && exists|i: int| 0 <= i < self.view_entries().len()
                    && self.view_entries()[i] == *p,
                None => !has_key(self.view_entries(), key@),
            },
    {
        let mut i: usize = 0;
        while i < self.entries.len()
            invariant
                i <= self.entries@.len(),
                forall|k: int| 0 <= k < i ==> self.entries@[k].key@ != key@,
            decreases self.entries@.len() - i,
        {
            if same_text(self.entries[i].key.as_str(), key) {
                proof {
                    assert(self.view_entries()[i as int] == self.entries[i as int]);
                }
                return Some(&self.entries[i]);
            }
            i = i + 1;
        }
        None
    }

    /// Every descriptor, in id order.
    pub fn entries(&self) -> (r: &[ParamInfo])
        ensures
            r@ == self.view_entries(),
    {
        self.entries.as_slice()
    }
}

/// Registering never forgets or alters a descriptor already held, and a
/// registered id keeps resolving to the same descriptor.
pub proof fn law_register_keeps_entries(before: Seq<ParamInfo>, info: ParamInfo, k: int, after: Seq<ParamInfo>)
    requires
        entries_wf(before),
        inserted_at(before, info, k, after),
    ensures
        forall|i: int| 0 <= i < before.len() ==> exists|j: int| 0 <= j < after.len() && after[j] == #[trigger] before[i],
        has_id(after, info.id),
        after.len() == before.len() + 1,
{
    assert forall|i: int| 0 <= i < before.len() implies exists|j: int| 0 <= j < after.len()
        && after[j] == #[trigger] before[i] by {
        if i < k {
            assert(after[i] == before[i]);
        } else {
            assert(after[i + 1] == before[i]);
        }
    }
    assert(after[k] == info);
}

} // verus!
