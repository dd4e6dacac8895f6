//! Naming and choosing the files of a show library.
//!
//! Shows are stored in a folder hierarchy.  The outermost folder has the same name as the show.
//! Individual saves have a timestamp as their name, in this format:
//! yyyy-mm-dd_hh:mm:ss_nnnnnnnnn
//! where hh employs 24 hour time.  Saves have the extension .wiggles; a folder named "autosave"
//! holds autosaves, with the extension .wiggles_autosave.
//! The file system work is left to the caller; this module decides which names to use and which
//! files to pick.
use vstd::prelude::*;
use chrono::{FixedOffset, TimeZone};

verus! {

/// The subdirectory used to store autosaves.
pub const AUTOSAVE_DIR: &'static str = "autosave";

/// Format string used for parsing and writing save files, as in 2017-06-17_15:44:32_345768000.
/// Note the absence of period characters, so the file extension can be stripped naively when
/// parsing.
pub const DATE_FORMAT: &'static str = "%Y-%m-%d_%H:%M:%S_%f";

pub const AUTOSAVE_EXTENSION: &'static str = ".wiggles_autosave";

pub const SAVE_EXTENSION: &'static str = ".wiggles";

/// Which saved state of a show to load.
#[derive(Debug, Clone, PartialEq, Eq)]
pub enum LoadSpec {
    /// Load the latest saved state.
    Latest,
    /// Load this particular saved state.  Should consist only of a timestamp with no extension.
    Exact(String),
    /// Load the latest autosave.
    LatestAutosave,
    /// Load this particular autosave.  Should consist only of a timestamp with no extension.
    ExactAutosave(String),
}

/// A request to load a show.
#[derive(Debug, Clone, PartialEq, Eq)]
pub struct LoadShow {
    pub name: String,
    pub spec: LoadSpec,
}

// -----------------------
// Trimming extensions
// -----------------------

/// The length, in bytes, that a name of `n` bytes has once an extension of `e` bytes is cut off:
/// zero if the name is shorter.
pub open spec fn trimmed_len(n: nat, e: nat) -> nat {
    if n < e {
        0
    } else {
        (n - e) as nat
    }
}

/// The UTF-8 bytes of a string.
pub open spec fn bytes_of(s: Seq<char>) -> Seq<u8> {
    vstd::utf8::encode_utf8(s)
}

/// Trim these strings by shortening them by the same length, in bytes, as the provided extension.
/// If the strings are already shorter, they become empty.
pub fn trim_extensions(names: &mut Vec<String>, ext: &str)
    requires
        bytes_of(ext@).len() <= usize::MAX,
        forall|i: int| 0 <= i < old(names)@.len() ==> bytes_of(#[trigger] old(names)@[i]@).len() <= usize::MAX,
        forall|i: int|
            0 <= i < old(names)@.len() ==> vstd::utf8::is_char_boundary(
                bytes_of(#[trigger] old(names)@[i]@),
                trimmed_len(bytes_of(old(names)@[i]@).len(), bytes_of(ext@).len()) as int,
            ),
    ensures
        final(names)@.len() == old(names)@.len(),
        forall|i: int|
            0 <= i < old(names)@.len() ==> bytes_of(#[trigger] final(names)@[i]@) == bytes_of(
                old(names)@[i]@,
            ).subrange(
                0,
                trimmed_len(bytes_of(old(names)@[i]@).len(), bytes_of(ext@).len()) as int,
            ),
{
    let ext_len = ext.len();
    let mut i: usize = 0;
    while i < names.len()
        invariant
            i <= names@.len(),
            names@.len() == old(names)@.len(),
            ext_len == bytes_of(ext@).len(),
            forall|j: int|
                i <= j < names@.len() ==> #[trigger] names@[j] == old(names)@[j],
            forall|j: int| 0 <= j < old(names)@.len() ==> bytes_of(#[trigger] old(names)@[j]@).len() <= usize::MAX,
            forall|j: int|
                0 <= j < old(names)@.len() ==> vstd::utf8::is_char_boundary(
                    bytes_of(#[trigger] old(names)@[j]@),
                    trimmed_len(bytes_of(old(names)@[j]@).len(), bytes_of(ext@).len()) as int,
                ),
            forall|j: int|
                0 <= j < i ==> bytes_of(#[trigger] names@[j]@) == bytes_of(old(names)@[j]@).subrange(
                    0,
                    trimmed_len(bytes_of(old(names)@[j]@).len(), bytes_of(ext@).len()) as int,
                ),
        decreases names@.len() - i,
    {
        let trimmed = {
            let name = names[i].as_str();
            let name_len = name.len();
            let new_len = if name_len < ext_len {
                0
            } else {
                name_len - ext_len
            };
            let (head, _) = name.split_at(new_len);
            String::from_str(head)
        };
        names.set(i, trimmed);
        i = i + 1;
    }
}

// -----------------------
// Picking the latest save
// -----------------------

/// The part of a file name before its first period.
pub open spec fn stem(s: Seq<char>) -> Seq<char>
    decreases s.len(),
{
    if s.len() == 0 {
        s
    } else if s[0] == '.' {
        Seq::empty()
    } else {
        seq![s[0]] + stem(s.subrange(1, s.len() as int))
    }
}

pub proof fn lemma_stem(s: Seq<char>, k: int)
    requires
        0 <= k <= s.len(),
        forall|j: int| 0 <= j < k ==> s[j] != '.',
        k < s.len() ==> s[k] == '.',
    ensures
        stem(s) == s.subrange(0, k),
    decreases s.len(),
{
    if s.len() > 0 && k > 0 {
        let t = s.subrange(1, s.len() as int);
        lemma_stem(t, k - 1);
        assert(seq![s[0]] + t.subrange(0, k - 1) =~= s.subrange(0, k));
    } else if s.len() > 0 {
        assert(s.subrange(0, 0) =~= Seq::<char>::empty());
    }
}

/// Return the part of a file name before its first period.
pub fn strip_extension(s: &str) -> (r: &str)
    ensures
        r@ == stem(s@),
{
    let n = s.unicode_len();
    let mut k: usize = 0;
    while k < n && s.get_char(k) != '.'
        invariant
            k <= n,
            n == s@.len(),
            forall|j: int| 0 <= j < k ==> s@[j] != '.',
        decreases n - k,
    {
        k = k + 1;
    }
    proof {
        lemma_stem(s@, k as int);
    }
    s.substring_char(0, k)
}

/// The instant that a save file's stem names, as whole seconds since the epoch and nanoseconds,
/// when the stem is a date in `DATE_FORMAT`.
pub uninterp spec fn save_date(s: Seq<char>) -> Option<(i64, u32)>;

/// Parse a stem as a date in `DATE_FORMAT`, with no offset from UTC, by
/// `chrono::TimeZone::datetime_from_str` on `FixedOffset::west(0)`.  The instant comes back as
/// its whole seconds since the epoch and its nanoseconds.  The contract claims only that the result
/// is a function of the stem: it is named, not stated.
#[verifier::external_body]
fn parse_save_date(s: &str) -> (r: Option<(i64, u32)>)
    ensures
        r == save_date(s@),
{
    #[allow(deprecated)]
    FixedOffset::west(0).datetime_from_str(s, DATE_FORMAT).ok().map(
        |t| (t.timestamp(), t.timestamp_subsec_nanos()),
    )
}

/// Instant `a` is no earlier than instant `b`.
pub open spec fn not_earlier(a: (i64, u32), b: (i64, u32)) -> bool {
    a.0 > b.0 || (a.0 == b.0 && a.1 >= b.1)
}

/// The position of the latest instant among these, the last one among equals; None if there is
/// none.
pub open spec fn latest_index(s: Seq<Option<(i64, u32)>>) -> Option<int>
    decreases s.len(),
{
    if s.len() == 0 {
        None
    } else {
        let before = latest_index(s.drop_last());
        match s.last() {
            None => before,
            Some(t) => match before {
                None => Some(s.len() - 1),
                Some(j) => if not_earlier(t, s[j]->0) {
                    Some(s.len() - 1)
                } else {
                    Some(j)
                },
            },
        }
    }
}

/// The latest index names the latest instant, and the last one among equals.
pub proof fn lemma_latest_index(s: Seq<Option<(i64, u32)>>)
    ensures
        latest_index(s) is None <==> forall|k: int| 0 <= k < s.len() ==> #[trigger] s[k] is None,
        latest_index(s) matches Some(i) ==> {
            &&& 0 <= i < s.len()
            &&& s[i] is Some
            &&& forall|k: int|
                0 <= k < s.len() && #[trigger] s[k] is Some ==> not_earlier(s[i]->0, s[k]->0)
            &&& forall|k: int|
                i < k < s.len() && #[trigger] s[k] is Some ==> !not_earlier(s[k]->0, s[i]->0)
        },
    decreases s.len(),
{
    if s.len() > 0 {
        let d = s.drop_last();
        let n = s.len() - 1;
        lemma_latest_index(d);
        if latest_index(s) is None {
            assert forall|k: int| 0 <= k < s.len() implies #[trigger] s[k] is None by {
                if k < n {
                    assert(d[k] == s[k]);
                }
            }
        } else {
            let i = latest_index(s)->0;
            assert forall|k: int| 0 <= k < s.len() && #[trigger] s[k] is Some implies not_earlier(
                s[i]->0,
                s[k]->0,
            ) by {
                if k < n {
                    assert(d[k] == s[k]);
                    if i < n {
                        assert(d[i] == s[i]);
                    }
                }
            }
            assert forall|k: int| i < k < s.len() && #[trigger] s[k] is Some implies !not_earlier(
                s[k]->0,
                s[i]->0,
            ) by {
                if k < n {
                    assert(d[k] == s[k]);
                    assert(d[i] == s[i]);
                }
            }
            if i < n {
                assert(d[i] == s[i]);
            }
        }
    }
}

/// The position of the latest of these instants, the last one among equals; None if there is
/// none.
pub fn index_of_latest(parsed: &[Option<(i64, u32)>]) -> (r: Option<usize>)
    ensures
        match r {
            Some(i) => latest_index(parsed@) == Some(i as int),
            None => latest_index(parsed@) is None,
        },
        r is None <==> forall|k: int| 0 <= k < parsed@.len() ==> #[trigger] parsed@[k] is None,
        r matches Some(i) ==> {
            &&& i < parsed@.len()
            &&& parsed@[i as int] is Some
            &&& forall|k: int|
                0 <= k < parsed@.len() && #[trigger] parsed@[k] is Some ==> not_earlier(
                    parsed@[i as int]->0,
                    parsed@[k]->0,
                )
            &&& forall|k: int|
                i < k < parsed@.len() && #[trigger] parsed@[k] is Some ==> !not_earlier(
                    parsed@[k]->0,
                    parsed@[i as int]->0,
                )
        },
{
    let mut best: Option<usize> = None;
    let mut k: usize = 0;
    while k < parsed.len()
        invariant
            k <= parsed@.len(),
            match best {
                Some(i) => latest_index(parsed@.take(k as int)) == Some(i as int),
                None => latest_index(parsed@.take(k as int)) is None,
            },
        decreases parsed@.len() - k,
    {
        let ghost prefix = parsed@.take(k as int);
        let ghost next = parsed@.take(k + 1);
        assert(next.drop_last() =~= prefix);
        proof {
            lemma_latest_index(prefix);
        }
        match parsed[k] {
            Some(t) => {
                match best {
                    None => {
                        best = Some(k);
                    },
                    Some(j) => {
                        assert(prefix[j as int] == parsed@[j as int]);
                        let b = parsed[j].unwrap();
                        if t.0 > b.0 || (t.0 == b.0 && t.1 >= b.1) {
                            best = Some(k);
                        }
                    },
                }
            },
            None => {},
        }
        k = k + 1;
    }
    assert(parsed@.take(k as int) =~= parsed@);
    proof {
        lemma_latest_index(parsed@);
    }
    best
}

/// The parsed dates of the stems of these file names.
pub open spec fn stem_dates(candidates: Seq<&str>) -> Seq<Option<(i64, u32)>> {
    candidates.map_values(|c: &str| save_date(stem(c@)))
}

/// Parse these file names, without their extension, as dates and return the index of the
/// latest one (the last one among equals), or None if none is a valid date.
pub fn index_of_latest_date(candidates: &[&str]) -> (r: Option<usize>)
    ensures
        match r {
            Some(i) => latest_index(stem_dates(candidates@)) == Some(i as int),
            None => latest_index(stem_dates(candidates@)) is None,
        },
{
    let mut parsed: Vec<Option<(i64, u32)>> = Vec::new();
    let mut k: usize = 0;
    while k < candidates.len()
        invariant
            k <= candidates@.len(),
            parsed@ == stem_dates(candidates@).take(k as int),
        decreases candidates@.len() - k,
    {
        let name_stem = strip_extension(candidates[k]);
        parsed.push(parse_save_date(name_stem));
        assert(parsed@ =~= stem_dates(candidates@).take(k + 1));
        k = k + 1;
    }
    assert(parsed@ =~= stem_dates(candidates@));
    index_of_latest(parsed.as_slice())
}

// -----------------------
// Removing a show directory
// -----------------------

/// `s` ends with `suffix`.
pub open spec fn has_suffix(s: Seq<char>, suffix: Seq<char>) -> bool {
    suffix.len() <= s.len() && s.subrange(s.len() - suffix.len(), s.len() as int) == suffix
}

/// Return true if `s` ends with `suffix`.
pub fn ends_with(s: &str, suffix: &str) -> (r: bool)
    ensures
        r == has_suffix(s@, suffix@),
{
    let n = s.unicode_len();
    let m = suffix.unicode_len();
    if m > n {
        return false;
    }
    let mut k: usize = 0;
    while k < m
        invariant
            k <= m <= n,
            n == s@.len(),
            m == suffix@.len(),
            forall|j: int| 0 <= j < k ==> s@[n - m + j] == suffix@[j],
        decreases m - k,
    {
        if s.get_char(n - m + k) != suffix.get_char(k) {
            assert(s@.subrange(n - m, n as int)[k as int] != suffix@[k as int]);
            return false;
        }
        k = k + 1;
    }
    assert(s@.subrange(n - m, n as int) =~= suffix@);
    true
}

/// Whether a directory entry may be removed: it is known not to be a directory, and its name
/// ends with one of the extensions.
pub open spec fn removable(entry: (Seq<char>, bool), extensions: Seq<Seq<char>>) -> bool {
    !entry.1 && exists|e: int| 0 <= e < extensions.len() && has_suffix(entry.0, #[trigger] extensions[e])
}

/// The files to delete before removing a directory whose entries are given as (name, whether it
/// is a directory or of unknown type): all of them, when every entry is a file with one of the
/// extensions; otherwise nothing may be removed.  Extensions should have a leading period.
pub fn files_to_remove(entries: &[(String, bool)], extensions: &[&str]) -> (r: Option<Vec<String>>)
    ensures
        match r {
            Some(names) => {
                &&& forall|i: int|
                    0 <= i < entries@.len() ==> removable(
                        ((#[trigger] entries@[i]).0@, entries@[i].1),
                        extensions@.map_values(|e: &str| e@),
                    )
                &&& names@.len() == entries@.len()
                &&& forall|i: int| 0 <= i < entries@.len() ==> #[trigger] names@[i]@ == entries@[i].0@
            },
            None => exists|i: int|
                0 <= i < entries@.len() && !removable(
                    ((#[trigger] entries@[i]).0@, entries@[i].1),
                    extensions@.map_values(|e: &str| e@),
                ),
        },
{
    let ghost exts = extensions@.map_values(|e: &str| e@);
    let mut names: Vec<String> = Vec::new();
    let mut i: usize = 0;
    while i < entries.len()
        invariant
            i <= entries@.len(),
            exts == extensions@.map_values(|e: &str| e@),
            names@.len() == i,
            forall|j: int| 0 <= j < i ==> removable(((#[trigger] entries@[j]).0@, entries@[j].1), exts),
            forall|j: int| 0 <= j < i ==> #[trigger] names@[j]@ == entries@[j].0@,
        decreases entries@.len() - i,
    {
        if entries[i].1 {
            assert(!removable((entries@[i as int].0@, entries@[i as int].1), exts));
            return None;
        }
        let name = entries[i].0.as_str();
        let mut found = false;
        let mut e: usize = 0;
        while e < extensions.len()
            invariant_except_break
                e <= extensions@.len(),
                !found,
                forall|x: int| 0 <= x < e ==> !has_suffix(name@, #[trigger] exts[x]),
            invariant
                exts == extensions@.map_values(|e: &str| e@),
                name@ == entries@[i as int].0@,
            ensures
                found ==> exists|x: int| 0 <= x < exts.len() && has_suffix(name@, #[trigger] exts[x]),
                !found ==> forall|x: int| 0 <= x < exts.len() ==> !has_suffix(name@, #[trigger] exts[x]),
            decreases extensions@.len() - e,
        {
            if ends_with(name, extensions[e]) {
                assert(has_suffix(name@, exts[e as int]));
                found = true;
                break;
            }
            e = e + 1;
        }
        if !found {
            assert(!removable((entries@[i as int].0@, entries@[i as int].1), exts));
            return None;
        }
        names.push(entries[i].0.clone());
        i = i + 1;
    }
    Some(names)
}

} // verus!
