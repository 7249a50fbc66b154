//! Slot metadata and the deterministic listing order.
//!
//! A listing is sorted by last-modified timestamp descending (newest
//! first), with ties broken by identifier ascending, so the order is
//! stable and fully determined by the entries themselves.

use vstd::prelude::*;
use crate::ident::{check_save_extension, has_save_extension, stem_of, stem_of_name};

verus! {

/// Metadata derived for one stored slot: its identifier and its
/// last-modified time in whole seconds since the epoch. Computed at
/// listing time, never stored.
#[derive(Debug, Clone, PartialEq, Eq)]
pub struct SaveInfo {
    pub slot: String,
    pub timestamp: u64,
}

/// Strict lexicographic order on character sequences, by code point.
pub open spec fn lex_lt(a: Seq<char>, b: Seq<char>) -> bool
    decreases a.len(),
{
    if b.len() == 0 {
        false
    } else if a.len() == 0 {
        true
    } else if a[0] != b[0] {
        (a[0] as u32) < (b[0] as u32)
    } else {
        lex_lt(a.skip(1), b.skip(1))
    }
}

/// `a` comes strictly before `b` in a listing: newer first, ties by
/// identifier ascending.
pub open spec fn info_lt(a: SaveInfo, b: SaveInfo) -> bool {
    a.timestamp > b.timestamp || (a.timestamp == b.timestamp && lex_lt(a.slot@, b.slot@))
}

/// `a` comes no later than `b` in a listing.
pub open spec fn info_le(a: SaveInfo, b: SaveInfo) -> bool {
    a.timestamp > b.timestamp
        || (a.timestamp == b.timestamp && (lex_lt(a.slot@, b.slot@) || a.slot@ == b.slot@))
}

/// The listing order, over a whole sequence.
pub open spec fn sorted_newest_first(s: Seq<SaveInfo>) -> bool {
    forall|i: int, j: int| 0 <= i < j < s.len() ==> info_le(#[trigger] s[i], #[trigger] s[j])
}

/// Skipping a common prefix does not change how two sequences compare.
proof fn lemma_lex_lt_skip(a: Seq<char>, b: Seq<char>, i: int)
    requires
        0 <= i <= a.len(),
        i <= b.len(),
        forall|k: int| 0 <= k < i ==> a[k] == b[k],
    ensures
        lex_lt(a, b) == lex_lt(a.skip(i), b.skip(i)),
    decreases i,
{
    if i == 0 {
        assert(a.skip(0) =~= a);
        assert(b.skip(0) =~= b);
    } else {
        assert(a[0] == b[0]);
        assert(forall|k: int| 0 <= k < i - 1 ==> a.skip(1)[k] == a[k + 1] && b.skip(1)[k] == b[k + 1]);
        lemma_lex_lt_skip(a.skip(1), b.skip(1), i - 1);
        assert(a.skip(1).skip(i - 1) =~= a.skip(i));
        assert(b.skip(1).skip(i - 1) =~= b.skip(i));
        assert(lex_lt(a, b) == lex_lt(a.skip(1), b.skip(1)));
    }
}

/// Two character sequences are strictly ordered one way or the other,
/// or they are equal.
proof fn lemma_lex_trichotomy(a: Seq<char>, b: Seq<char>)
    ensures
        lex_lt(a, b) || lex_lt(b, a) || a == b,
    decreases a.len(),
{
    if a.len() == 0 && b.len() == 0 {
        assert(a =~= b);
    } else if a.len() == 0 {
        assert(lex_lt(a, b));
    } else if b.len() == 0 {
        assert(lex_lt(b, a));
    } else if a[0] != b[0] {
        assert((a[0] as u32) != (b[0] as u32)) by {
            vstd::utf8::char_u32_cast(a[0], a[0] as u32);
            vstd::utf8::char_u32_cast(b[0], b[0] as u32);
        }
        assert(lex_lt(a, b) || lex_lt(b, a));
    } else {
        lemma_lex_trichotomy(a.skip(1), b.skip(1));
        if a.skip(1) == b.skip(1) {
            assert(a.skip(1).len() == b.skip(1).len());
            assert(a.len() == b.len());
            assert(forall|k: int| 1 <= k < a.len() ==> a[k] == a.skip(1)[k - 1]);
            assert(forall|k: int| 1 <= k < b.len() ==> b[k] == b.skip(1)[k - 1]);
            assert(a =~= b);
        }
    }
}

/// Strict lexicographic order is transitive.
proof fn lemma_lex_lt_trans(a: Seq<char>, b: Seq<char>, c: Seq<char>)
    requires
        lex_lt(a, b),
        lex_lt(b, c),
    ensures
        lex_lt(a, c),
    decreases a.len(),
{
    if a.len() > 0 && b.len() > 0 && c.len() > 0 {
        if a[0] == b[0] && b[0] == c[0] {
            lemma_lex_lt_trans(a.skip(1), b.skip(1), c.skip(1));
        }
    }
}

/// A sequence never comes strictly before itself.
proof fn lemma_lex_lt_irreflexive(a: Seq<char>)
    ensures
        !lex_lt(a, a),
    decreases a.len(),
{
    if a.len() > 0 {
        lemma_lex_lt_irreflexive(a.skip(1));
    }
}

/// The listing order is total: two entries that are not strictly
/// ordered one way are ordered the other way, at least weakly.
pub proof fn lemma_info_order_total(a: SaveInfo, b: SaveInfo)
    ensures
        !info_lt(a, b) ==> info_le(b, a),
{
    lemma_lex_trichotomy(a.slot@, b.slot@);
}

/// The listing order is transitive.
pub proof fn lemma_info_le_trans(a: SaveInfo, b: SaveInfo, c: SaveInfo)
    requires
        info_le(a, b),
        info_le(b, c),
    ensures
        info_le(a, c),
{
    if a.timestamp == b.timestamp && b.timestamp == c.timestamp {
        if lex_lt(a.slot@, b.slot@) && lex_lt(b.slot@, c.slot@) {
            lemma_lex_lt_trans(a.slot@, b.slot@, c.slot@);
        }
    }
}

/// Two entries ordered weakly both ways name the same slot.
pub proof fn lemma_info_le_antisymmetric(a: SaveInfo, b: SaveInfo)
    requires
        info_le(a, b),
        info_le(b, a),
    ensures
        a.timestamp == b.timestamp,
        a.slot@ == b.slot@,
{
    if a.timestamp == b.timestamp {
        lemma_lex_lt_irreflexive(a.slot@);
        if lex_lt(a.slot@, b.slot@) && lex_lt(b.slot@, a.slot@) {
            lemma_lex_lt_trans(a.slot@, b.slot@, a.slot@);
        }
    }
}

/// Decides `lex_lt` for two runtime strings.
pub fn str_lex_lt(a: &str, b: &str) -> (r: bool)
    ensures
        r == lex_lt(a@, b@),
{
    let an = a.unicode_len();
    let bn = b.unicode_len();
    let mut i: usize = 0;
    loop
        invariant
            an == a@.len(),
            bn == b@.len(),
            0 <= i <= an,
            i <= bn,
            forall|k: int| 0 <= k < i ==> a@[k] == b@[k],
        decreases an - i,
    {
        proof {
            lemma_lex_lt_skip(a@, b@, i as int);
        }
        if i >= an || i >= bn {
            return i < bn;
        }
        let ca = a.get_char(i);
        let cb = b.get_char(i);
        if ca != cb {
            return (ca as u32) < (cb as u32);
        }
        i += 1;
    }
}

/// Decides `info_lt` for two runtime entries.
pub fn info_lt_exec(a: &SaveInfo, b: &SaveInfo) -> (r: bool)
    ensures
        r == info_lt(*a, *b),
{
    if a.timestamp > b.timestamp {
        true
    } else if a.timestamp == b.timestamp {
        str_lex_lt(a.slot.as_str(), b.slot.as_str())
    } else {
        false
    }
}

/// What inserting one element does to membership: exactly the old
/// elements plus the new one.
pub proof fn lemma_insert_membership(s: Seq<SaveInfo>, pos: int, e: SaveInfo)
    requires
        0 <= pos <= s.len(),
    ensures
        s.insert(pos, e).len() == s.len() + 1,
        forall|x: SaveInfo| s.insert(pos, e).contains(x) <==> (s.contains(x) || x == e),
{
    let t = s.insert(pos, e);
    s.insert_ensures(pos, e);
    assert forall|x: SaveInfo| t.contains(x) implies (s.contains(x) || x == e) by {
        let k = choose|k: int| 0 <= k < t.len() && t[k] == x;
        if k < pos {
            assert(s[k] == x);
        } else if k == pos {
            assert(x == e);
        } else {
            assert(t[(k - 1) + 1] == s[k - 1]);
            assert(s[k - 1] == x);
        }
    }
    assert forall|x: SaveInfo| (s.contains(x) || x == e) implies t.contains(x) by {
        if x == e {
            assert(t[pos] == x);
        } else {
            let k = choose|k: int| 0 <= k < s.len() && s[k] == x;
            if k < pos {
                assert(t[k] == x);
            } else {
                assert(t[k + 1] == x);
            }
        }
    }
}

/// Inserting an entry whose identifier is fresh keeps the identifiers
/// pairwise distinct.
pub proof fn lemma_insert_distinct(s: Seq<SaveInfo>, pos: int, e: SaveInfo)
    requires
        0 <= pos <= s.len(),
        forall|i: int, j: int| 0 <= i < j < s.len() ==> (#[trigger] s[i]).slot@ != (#[trigger] s[j]).slot@,
        forall|i: int| 0 <= i < s.len() ==> (#[trigger] s[i]).slot@ != e.slot@,
    ensures
        forall|i: int, j: int| 0 <= i < j < s.insert(pos, e).len()
            ==> (#[trigger] s.insert(pos, e)[i]).slot@ != (#[trigger] s.insert(pos, e)[j]).slot@,
{
    let t = s.insert(pos, e);
    s.insert_ensures(pos, e);
    assert forall|i: int, j: int| 0 <= i < j < t.len() implies
        (#[trigger] t[i]).slot@ != (#[trigger] t[j]).slot@ by {
        let oi: int = if i < pos { i } else { i - 1 };
        let oj: int = if j < pos { j } else { j - 1 };
        if i != pos && j != pos {
            assert(t[i] == s[oi] && t[j] == s[oj]);
        } else if i == pos {
            assert(t[i] == e && t[j] == s[oj]);
        } else {
            assert(t[j] == e && t[i] == s[oi]);
        }
    }
}

/// Places one entry at its position in an already ordered listing.
pub fn insert_sorted(out: &mut Vec<SaveInfo>, e: SaveInfo)
    requires
        sorted_newest_first(old(out)@),
    ensures
        sorted_newest_first(final(out)@),
        exists|pos: int| 0 <= pos <= old(out)@.len() && final(out)@ == old(out)@.insert(pos, e),
{
    let n = out.len();
    let mut idx: usize = 0;
    loop
        invariant
            out@ == old(out)@,
            sorted_newest_first(out@),
            n == out@.len(),
            0 <= idx <= n,
            forall|k: int| 0 <= k < idx ==> info_lt(#[trigger] out@[k], e),
        ensures
            out@ == old(out)@,
            0 <= idx <= n,
            forall|k: int| 0 <= k < idx ==> info_lt(#[trigger] out@[k], e),
            idx < n ==> !info_lt(out@[idx as int], e),
        decreases n - idx,
    {
        if idx >= n {
            break;
        }
        if !info_lt_exec(&out[idx], &e) {
            break;
        }
        idx += 1;
    }
    proof {
        if idx < out@.len() {
            lemma_info_order_total(out@[idx as int], e);
        }
    }
    let ghost old_seq = out@;
    let ghost pos = idx as int;
    out.insert(idx, e);
    proof {
        old_seq.insert_ensures(pos, e);
        let t = out@;
        assert forall|i: int, j: int| 0 <= i < j < t.len() implies
            info_le(#[trigger] t[i], #[trigger] t[j]) by {
            let oi: int = if i < pos { i } else { i - 1 };
            let oj: int = if j < pos { j } else { j - 1 };
            if i == pos {
                // t[i] is e, and e comes no later than everything from pos on.
                assert(t[j] == old_seq[oj]);
                lemma_info_le_trans(e, old_seq[pos], old_seq[oj]);
            } else if j == pos {
                assert(t[i] == old_seq[oi]);
            } else {
                assert(t[i] == old_seq[oi] && t[j] == old_seq[oj]);
                if oi < pos && oj >= pos {
                    assert(info_le(old_seq[oi], old_seq[oj]));
                }
            }
        }
        assert(out@ == old_seq.insert(pos, e));
    }
}

/// One raw directory entry under the save root, as the surrounding
/// binary reads it: the entry's file name and its last-modified time
/// in whole seconds since the epoch.
pub struct DirEntry {
    pub name: String,
    pub timestamp: u64,
}

/// `x` is the metadata of one of the first `upto` directory entries:
/// one carrying the slot extension, with the identifier recovered by
/// stripping it and the timestamp taken unchanged.
pub open spec fn from_entry(entries: Seq<DirEntry>, upto: int, x: SaveInfo) -> bool {
    exists|i: int|
        0 <= i < upto && has_save_extension((#[trigger] entries[i]).name@)
            && x.slot@ == stem_of(entries[i].name@)
            && x.timestamp == entries[i].timestamp
}

/// The listing holds an entry with this identifier and timestamp.
pub open spec fn listed(out: Seq<SaveInfo>, slot: Seq<char>, timestamp: u64) -> bool {
    exists|j: int|
        0 <= j < out.len() && (#[trigger] out[j]).slot@ == slot && out[j].timestamp == timestamp
}

/// Every listed entry comes from one of the first `upto` directory
/// entries.
pub open spec fn listing_sound(entries: Seq<DirEntry>, upto: int, out: Seq<SaveInfo>) -> bool {
    forall|j: int| 0 <= j < out.len() ==> from_entry(entries, upto, #[trigger] out[j])
}

/// Every directory entry among the first `upto` that carries the slot
/// extension is listed, with its recovered identifier and timestamp.
pub open spec fn listing_complete(entries: Seq<DirEntry>, upto: int, out: Seq<SaveInfo>) -> bool {
    forall|i: int| 0 <= i < upto && has_save_extension((#[trigger] entries[i]).name@)
        ==> listed(out, stem_of(entries[i].name@), entries[i].timestamp)
}

proof fn lemma_from_entry_widen(entries: Seq<DirEntry>, upto: int, x: SaveInfo)
    requires
        0 <= upto,
        from_entry(entries, upto, x),
    ensures
        from_entry(entries, upto + 1, x),
{
    let i = choose|i: int|
        0 <= i < upto && has_save_extension((#[trigger] entries[i]).name@)
            && x.slot@ == stem_of(entries[i].name@)
            && x.timestamp == entries[i].timestamp;
    assert(0 <= i < upto + 1 && has_save_extension(entries[i].name@)
        && x.slot@ == stem_of(entries[i].name@)
        && x.timestamp == entries[i].timestamp);
}

proof fn lemma_listing_sound_step(
    entries: Seq<DirEntry>,
    idx: int,
    before: Seq<SaveInfo>,
    after: Seq<SaveInfo>,
    pos: int,
    info: SaveInfo,
)
    requires
        0 <= idx < entries.len(),
        has_save_extension(entries[idx].name@),
        info.slot@ == stem_of(entries[idx].name@),
        info.timestamp == entries[idx].timestamp,
        0 <= pos <= before.len(),
        after == before.insert(pos, info),
        listing_sound(entries, idx, before),
    ensures
        listing_sound(entries, idx + 1, after),
{
    before.insert_ensures(pos, info);
    assert forall|j: int| 0 <= j < after.len() implies
        from_entry(entries, idx + 1, #[trigger] after[j]) by {
        if j == pos {
            assert(after[j] == info);
            assert(0 <= idx < idx + 1 && has_save_extension(entries[idx].name@)
                && info.slot@ == stem_of(entries[idx].name@)
                && info.timestamp == entries[idx].timestamp);
            assert(from_entry(entries, idx + 1, info));
        } else {
            let oj: int = if j < pos { j } else { j - 1 };
            assert(after[j] == before[oj]);
            assert(from_entry(entries, idx, before[oj]));
            lemma_from_entry_widen(entries, idx, before[oj]);
        }
    }
}

proof fn lemma_listing_complete_step(
    entries: Seq<DirEntry>,
    idx: int,
    before: Seq<SaveInfo>,
    after: Seq<SaveInfo>,
    pos: int,
    info: SaveInfo,
)
    requires
        0 <= idx < entries.len(),
        has_save_extension(entries[idx].name@),
        info.slot@ == stem_of(entries[idx].name@),
        info.timestamp == entries[idx].timestamp,
        0 <= pos <= before.len(),
        after == before.insert(pos, info),
        listing_complete(entries, idx, before),
    ensures
        listing_complete(entries, idx + 1, after),
{
    before.insert_ensures(pos, info);
    assert forall|i: int|
        0 <= i < idx + 1 && has_save_extension((#[trigger] entries[i]).name@)
        implies listed(after, stem_of(entries[i].name@), entries[i].timestamp) by {
        if i < idx {
            assert(listed(before, stem_of(entries[i].name@), entries[i].timestamp));
            let j0 = choose|j0: int| 0 <= j0 < before.len()
                && (#[trigger] before[j0]).slot@ == stem_of(entries[i].name@)
                && before[j0].timestamp == entries[i].timestamp;
            let j: int = if j0 < pos { j0 } else { j0 + 1 };
            assert(after[j] == before[j0]);
            assert(0 <= j < after.len()
                && after[j].slot@ == stem_of(entries[i].name@)
                && after[j].timestamp == entries[i].timestamp);
        } else {
            assert(after[pos] == info);
            assert(0 <= pos < after.len()
                && after[pos].slot@ == stem_of(entries[i].name@)
                && after[pos].timestamp == entries[i].timestamp);
        }
    }
}

proof fn lemma_listing_skip_step(
    entries: Seq<DirEntry>,
    idx: int,
    out: Seq<SaveInfo>,
)
    requires
        0 <= idx < entries.len(),
        !has_save_extension(entries[idx].name@),
        listing_sound(entries, idx, out),
        listing_complete(entries, idx, out),
    ensures
        listing_sound(entries, idx + 1, out),
        listing_complete(entries, idx + 1, out),
{
    assert forall|j: int| 0 <= j < out.len() implies
        from_entry(entries, idx + 1, #[trigger] out[j]) by {
        assert(from_entry(entries, idx, out[j]));
        lemma_from_entry_widen(entries, idx, out[j]);
    }
}

/// Builds the listing from the raw entries of the save directory:
/// only files carrying the slot extension are considered, each
/// identifier is recovered by stripping that extension, and the
/// result is ordered newest first with ties by identifier ascending.
/// Other files — including the temporary files of interrupted writes
/// — are ignored, and an empty directory yields an empty listing.
pub fn build_listing(entries: &Vec<DirEntry>) -> (r: Vec<SaveInfo>)
    ensures
        sorted_newest_first(r@),
        listing_sound(entries@, entries@.len() as int, r@),
        listing_complete(entries@, entries@.len() as int, r@),
{
    let mut out: Vec<SaveInfo> = Vec::new();
    let n = entries.len();
    let mut idx: usize = 0;
    while idx < n
        invariant
            n == entries@.len(),
            0 <= idx <= n,
            sorted_newest_first(out@),
            listing_sound(entries@, idx as int, out@),
            listing_complete(entries@, idx as int, out@),
        decreases n - idx,
    {
        if check_save_extension(entries[idx].name.as_str()) {
            let stem = stem_of_name(entries[idx].name.as_str());
            let info = SaveInfo { slot: stem, timestamp: entries[idx].timestamp };
            let ghost before = out@;
            insert_sorted(&mut out, info);
            proof {
                let pos = choose|pos: int|
                    0 <= pos <= before.len() && out@ == before.insert(pos, info);
                lemma_listing_sound_step(entries@, idx as int, before, out@, pos, info);
                lemma_listing_complete_step(entries@, idx as int, before, out@, pos, info);
            }
        } else {
            proof {
                lemma_listing_skip_step(entries@, idx as int, out@);
            }
        }
        idx += 1;
    }
    out
}

} // verus!
